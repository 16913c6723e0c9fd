//! What one request remembers of the index while it walks: resolved references,
//! the meanings of spellings, the imports of callers and the import rows that
//! name a file. All of it shares one room.
use vstd::prelude::*;
use vstd::string::*;
use crate::model;
use crate::model::{Reference, Symbol};
use crate::text::same;

verus! {

// ---------------------------------------------------------------------------
// Room
// ---------------------------------------------------------------------------

/// Most entries that one request remembers.
pub const MAX_CACHED_ENTRIES: usize = 8192;

/// Most bytes that one request remembers.
pub const MAX_CACHED_BYTES: usize = 16_777_216;

/// How much of the resolved edges of one request is remembered.
#[derive(Debug)]
pub struct CacheRoom {
    pub entries: usize,
    pub bytes: usize,
}

impl CacheRoom {
    pub open spec fn within_limits(self) -> bool {
        self.entries <= MAX_CACHED_ENTRIES && self.bytes <= MAX_CACHED_BYTES
    }

    /// An entry of that many bytes has room.
    pub open spec fn fits(self, bytes: usize) -> bool {
        self.entries < MAX_CACHED_ENTRIES && self.bytes + bytes <= MAX_CACHED_BYTES
    }

    pub fn new() -> (out: Self)
        ensures
            out.entries == 0,
            out.bytes == 0,
            out.within_limits(),
    {
        CacheRoom { entries: 0, bytes: 0 }
    }

    /// Claims room for an entry of `bytes`, if both limits allow it. The
    /// limits are never exceeded.
    pub fn claim(&mut self, bytes: usize) -> (r: bool)
        requires
            old(self).within_limits(),
        ensures
            final(self).within_limits(),
            r == old(self).fits(bytes),
            r ==> final(self).entries == old(self).entries + 1 && final(self).bytes == old(
                self,
            ).bytes + bytes,
            !r ==> *final(self) == *old(self),
    {
        if self.entries < MAX_CACHED_ENTRIES && bytes <= MAX_CACHED_BYTES - self.bytes {
            self.entries = self.entries + 1;
            self.bytes = self.bytes + bytes;
            true
        } else {
            false
        }
    }
}

/// The sum of some sizes.
pub open spec fn total(sizes: Seq<usize>) -> nat
    decreases sizes.len(),
{
    if sizes.len() == 0 {
        0
    } else {
        total(sizes.drop_last()) + sizes.last() as nat
    }
}

/// What an entry takes: the slots that its list has room for, and what its key
/// and its items hold beside them. It stops at the largest number.
pub open spec fn price(slots: usize, slot_bytes: usize, held: Seq<usize>) -> int {
    let bytes = slots * slot_bytes + total(held);
    if bytes <= usize::MAX {
        bytes
    } else {
        usize::MAX as int
    }
}

/// The price of an entry. `slots` is the capacity of its list, `slot_bytes` the
/// size of an item, and `held` the capacities of the texts in the key and in
/// the items.
pub fn entry_price(slots: usize, slot_bytes: usize, held: &Vec<usize>) -> (bytes: usize)
    ensures
        bytes == price(slots, slot_bytes, held@),
{
    let mut bytes: usize = match slots.checked_mul(slot_bytes) {
        Some(n) => n,
        None => usize::MAX,
    };
    let mut i: usize = 0;
    assert(held@.take(0) =~= Seq::<usize>::empty());
    while i < held.len()
        invariant
            i <= held@.len(),
            bytes == price(slots, slot_bytes, held@.take(i as int)),
        decreases held@.len() - i,
    {
        proof {
            assert(held@.take(i + 1).drop_last() =~= held@.take(i as int));
            assert(held@.take(i + 1).last() == held@[i as int]);
        }
        bytes = match bytes.checked_add(held[i]) {
            Some(n) => n,
            None => usize::MAX,
        };
        i += 1;
    }
    assert(held@.take(held@.len() as int) =~= held@);
    bytes
}

// ---------------------------------------------------------------------------
// Memos
// ---------------------------------------------------------------------------

/// What an entry is found by: a file, a name in it, and a line.
#[derive(Debug)]
pub struct MemoKey {
    pub file: String,
    pub name: String,
    pub line: u32,
}

impl View for MemoKey {
    type V = model::SymbolKey;

    open spec fn view(&self) -> model::SymbolKey {
        (self.file@, self.name@, self.line)
    }
}

/// The key of a definition.
pub fn definition_key(sym: &Symbol) -> (out: MemoKey)
    ensures
        out@ == sym.key(),
{
    MemoKey { file: sym.file_path.clone(), name: sym.qualified_name.clone(), line: sym.line_start }
}

/// The key of a spelling in a file.
pub fn spelling_key(file: &str, spelling: &str) -> (out: MemoKey)
    ensures
        out@ == (file@, spelling@, 0u32),
{
    MemoKey { file: file.to_string(), name: spelling.to_string(), line: 0 }
}

/// The key of a file.
pub fn file_key(file: &str) -> (out: MemoKey)
    ensures
        out@ == (file@, ""@, 0u32),
{
    MemoKey { file: file.to_string(), name: "".to_string(), line: 0 }
}

/// A remembered value and its key.
#[derive(Debug)]
pub struct MemoEntry<V> {
    pub key: MemoKey,
    pub value: V,
}

/// Values by their keys.
#[derive(Debug)]
pub struct Memo<V> {
    entries: Vec<MemoEntry<V>>,
}

/// The value of a key among the first `n` entries.
pub open spec fn remembered<V>(entries: Seq<MemoEntry<V>>, k: model::SymbolKey, n: int) -> Option<V>
    decreases n,
{
    if n <= 0 {
        None
    } else if entries[n - 1].key@ == k {
        Some(entries[n - 1].value)
    } else {
        remembered(entries, k, n - 1)
    }
}

proof fn lemma_remembered_prefix<V>(entries: Seq<MemoEntry<V>>, e: MemoEntry<V>, k: model::SymbolKey, n: int)
    requires
        n <= entries.len(),
    ensures
        remembered(entries.push(e), k, n) == remembered(entries, k, n),
    decreases n,
{
    if n > 0 {
        lemma_remembered_prefix(entries, e, k, n - 1);
    }
}

impl<V> Memo<V> {
    pub closed spec fn entries(self) -> Seq<MemoEntry<V>> {
        self.entries@
    }

    /// The value that a key was remembered with.
    pub open spec fn at(self, k: model::SymbolKey) -> Option<V> {
        remembered(self.entries(), k, self.entries().len() as int)
    }

    pub open spec fn count(self) -> nat {
        self.entries().len()
    }

    pub fn new() -> (out: Self)
        ensures
            out.count() == 0,
            forall|k: model::SymbolKey| #[trigger] out.at(k) is None,
    {
        Memo { entries: Vec::new() }
    }

    pub fn len(&self) -> (n: usize)
        ensures
            n == self.count(),
    {
        self.entries.len()
    }

    /// Finds the value of a key.
    pub fn get(&self, key: &MemoKey) -> (out: Option<&V>)
        ensures
            match out {
                Some(v) => self.at(key@) == Some(*v),
                None => self.at(key@) is None,
            },
    {
        let mut i: usize = self.entries.len();
        while i > 0
            invariant
                i <= self.entries@.len(),
                self.at(key@) == remembered(self.entries@, key@, i as int),
            decreases i,
        {
            let e = &self.entries[i - 1];
            if e.key.line == key.line && same(e.key.file.as_str(), key.file.as_str()) && same(
                e.key.name.as_str(),
                key.name.as_str(),
            ) {
                return Some(&e.value);
            }
            i -= 1;
        }
        None
    }

    /// Remembers a value where there is room and the key is new. Nothing that
    /// was remembered is lost.
    fn keep(&mut self, key: MemoKey, value: V, room: &mut CacheRoom, bytes: usize) -> (r: bool)
        requires
            old(room).within_limits(),
        ensures
            final(room).within_limits(),
            kept(*old(self), *final(self), key@, value, *old(room), *final(room), bytes, r),
    {
        if self.get(&key).is_some() || !room.claim(bytes) {
            return false;
        }
        let ghost before = self.entries@;
        self.entries.push(MemoEntry { key, value });
        proof {
            let e = self.entries@.last();
            assert(self.entries@ =~= before.push(e));
            assert forall|k: model::SymbolKey| k != e.key@ implies #[trigger] self.at(k) == old(self).at(k) by {
                lemma_remembered_prefix(before, e, k, before.len() as int);
            }
        }
        true
    }
}

/// What remembering one value does to a memo and to the room.
pub open spec fn kept<V>(
    before: Memo<V>,
    after: Memo<V>,
    k: model::SymbolKey,
    value: V,
    room: CacheRoom,
    left: CacheRoom,
    bytes: usize,
    r: bool,
) -> bool {
    &&& r == (before.at(k) is None && room.fits(bytes))
    &&& r ==> {
        &&& after.at(k) == Some(value)
        &&& forall|other: model::SymbolKey| other != k ==> #[trigger] after.at(other) == before.at(other)
        &&& after.count() == before.count() + 1
        &&& left == (CacheRoom {
            entries: (room.entries + 1) as usize,
            bytes: (room.bytes + bytes) as usize,
        })
    }
    &&& !r ==> after == before && left == room
}

// ---------------------------------------------------------------------------
// The cache
// ---------------------------------------------------------------------------

/// What one request remembers.
#[derive(Debug)]
pub struct WalkCache {
    /// The references that mean a definition.
    pub references: Memo<Vec<Reference>>,
    /// The definitions that a spelling in a file means.
    pub resolutions: Memo<Vec<Symbol>>,
    /// The imports of a file that calls.
    pub caller_imports: Memo<Vec<String>>,
    /// The positions of the import rows that name a file.
    pub import_matches: Memo<Vec<usize>>,
    pub room: CacheRoom,
}

impl WalkCache {
    /// The room holds every entry, and no more than it may.
    pub open spec fn wf(self) -> bool {
        &&& self.room.within_limits()
        &&& self.room.entries == self.references.count() + self.resolutions.count()
            + self.caller_imports.count() + self.import_matches.count()
    }

    pub fn new() -> (out: WalkCache)
        ensures
            out.wf(),
            out.room.entries == 0 && out.room.bytes == 0,
            forall|k: model::SymbolKey| #[trigger] out.references.at(k) is None,
            forall|k: model::SymbolKey| #[trigger] out.resolutions.at(k) is None,
            forall|k: model::SymbolKey| #[trigger] out.caller_imports.at(k) is None,
            forall|k: model::SymbolKey| #[trigger] out.import_matches.at(k) is None,
    {
        WalkCache {
            references: Memo::new(),
            resolutions: Memo::new(),
            caller_imports: Memo::new(),
            import_matches: Memo::new(),
            room: CacheRoom::new(),
        }
    }

    pub fn entry_count(&self) -> (n: usize)
        requires
            self.wf(),
        ensures
            n == self.references.count() + self.resolutions.count() + self.caller_imports.count()
                + self.import_matches.count(),
            n <= MAX_CACHED_ENTRIES,
    {
        self.room.entries
    }

    /// Remembers the references that mean a definition. `bytes` is what they
    /// take.
    pub fn remember_references(&mut self, sym: &Symbol, rows: Vec<Reference>, bytes: usize) -> (r: bool)
        requires
            old(self).wf(),
        ensures
            final(self).wf(),
            *final(self) == (WalkCache {
                references: final(self).references,
                room: final(self).room,
                ..*old(self)
            }),
            kept(
                old(self).references,
                final(self).references,
                sym.key(),
                rows,
                old(self).room,
                final(self).room,
                bytes,
                r,
            ),
    {
        self.references.keep(definition_key(sym), rows, &mut self.room, bytes)
    }

    /// Remembers what a spelling in a file means.
    pub fn remember_resolution(&mut self, file: &str, spelling: &str, rows: Vec<Symbol>, bytes: usize) -> (r: bool)
        requires
            old(self).wf(),
        ensures
            final(self).wf(),
            *final(self) == (WalkCache {
                resolutions: final(self).resolutions,
                room: final(self).room,
                ..*old(self)
            }),
            kept(
                old(self).resolutions,
                final(self).resolutions,
                (file@, spelling@, 0u32),
                rows,
                old(self).room,
                final(self).room,
                bytes,
                r,
            ),
    {
        self.resolutions.keep(spelling_key(file, spelling), rows, &mut self.room, bytes)
    }

    /// Remembers the imports of a file that calls.
    pub fn remember_caller_imports(&mut self, file: &str, imports: Vec<String>, bytes: usize) -> (r: bool)
        requires
            old(self).wf(),
        ensures
            final(self).wf(),
            *final(self) == (WalkCache {
                caller_imports: final(self).caller_imports,
                room: final(self).room,
                ..*old(self)
            }),
            kept(
                old(self).caller_imports,
                final(self).caller_imports,
                (file@, ""@, 0u32),
                imports,
                old(self).room,
                final(self).room,
                bytes,
                r,
            ),
    {
        self.caller_imports.keep(file_key(file), imports, &mut self.room, bytes)
    }

    /// Remembers the positions of the import rows that name a file.
    pub fn remember_imports(&mut self, file: &str, matches: Vec<usize>, bytes: usize) -> (r: bool)
        requires
            old(self).wf(),
        ensures
            final(self).wf(),
            *final(self) == (WalkCache {
                import_matches: final(self).import_matches,
                room: final(self).room,
                ..*old(self)
            }),
            kept(
                old(self).import_matches,
                final(self).import_matches,
                (file@, ""@, 0u32),
                matches,
                old(self).room,
                final(self).room,
                bytes,
                r,
            ),
    {
        self.import_matches.keep(file_key(file), matches, &mut self.room, bytes)
    }

    /// Recalls the positions of the import rows that name a file.
    pub fn recall_imports(&self, file: &str) -> (out: Option<Vec<usize>>)
        ensures
            match out {
                Some(at) => self.import_matches.at((file@, ""@, 0u32)) matches Some(known) && at@ == known@,
                None => self.import_matches.at((file@, ""@, 0u32)) is None,
            },
    {
        match self.import_matches.get(&file_key(file)) {
            Some(known) => {
                let at = known.clone();
                assert(at@ =~= known@);
                Some(at)
            },
            None => None,
        }
    }
}

/// What a memo remembers is right: `right` says which values a key may have.
pub open spec fn tells<V>(memo: Memo<V>, right: spec_fn(model::SymbolKey, V) -> bool) -> bool {
    forall|k: model::SymbolKey| (#[trigger] memo.at(k)) is Some ==> right(k, memo.at(k)->0)
}

/// A memo that remembers nothing remembers nothing wrong.
pub proof fn law_an_empty_memo_is_right<V>(memo: Memo<V>, right: spec_fn(model::SymbolKey, V) -> bool)
    requires
        memo.count() == 0,
    ensures
        tells(memo, right),
{
}

/// A memo that remembers only what is right, and is told what is right, goes on
/// to remember only that.
pub proof fn law_remembering_what_is_right_keeps_a_memo_right<V>(
    before: Memo<V>,
    after: Memo<V>,
    k: model::SymbolKey,
    value: V,
    room: CacheRoom,
    left: CacheRoom,
    bytes: usize,
    r: bool,
    right: spec_fn(model::SymbolKey, V) -> bool,
)
    requires
        kept(before, after, k, value, room, left, bytes, r),
        tells(before, right),
        right(k, value),
    ensures
        tells(after, right),
{
    assert forall|other: model::SymbolKey| (#[trigger] after.at(other)) is Some implies right(
        other,
        after.at(other)->0,
    ) by {
        if r && other != k {
            assert(after.at(other) == before.at(other));
        } else if !r {
            assert(before.at(other) is Some);
        }
    }
}

/// What was once remembered under a key is never forgotten nor replaced by
/// remembering something else, and the limits on what is remembered hold on.
pub proof fn law_remembering_never_forgets<V>(
    before: Memo<V>,
    after: Memo<V>,
    k: model::SymbolKey,
    value: V,
    room: CacheRoom,
    left: CacheRoom,
    bytes: usize,
    r: bool,
    other: model::SymbolKey,
)
    requires
        kept(before, after, k, value, room, left, bytes, r),
        room.within_limits(),
    ensures
        before.at(other) is Some ==> after.at(other) == before.at(other),
        left.within_limits(),
{
}

} // verus!
