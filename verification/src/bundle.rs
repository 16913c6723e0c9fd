//! Bundles of source chunks that answer one question: what is shown, in which
//! order, and how its lines are numbered.
use vstd::prelude::*;
use vstd::string::*;
use crate::model::{Reference, Symbol};
use crate::resolution;
use crate::resolution::is_callee_reference;
use crate::symbols;
use crate::symbols::has_symbol;
use crate::text;
use crate::text::{concat2, concat3, concat5, decimal_of, finishes, lines_of, rfind_str, same, strip_prefix, strip_suffix};

verus! {

// ---------------------------------------------------------------------------
// Line numbers
// ---------------------------------------------------------------------------

/// Labels of kinds of symbols, as a chunk header spells them.
pub open spec fn kind_label(k: Seq<char>) -> bool {
    k == "function"@ || k == "method"@ || k == "class"@ || k == "trait"@ || k == "interface"@ || k == "struct"@ || k
        == "enum"@ || k == "constant"@ || k == "macro"@ || k == "module"@ || k == "namespace"@
}

/// A header line `# <name> (<kind>)` of a known kind.
pub open spec fn symbol_header(line: Seq<char>) -> bool {
    match text::after_prefix(line, "# "@) {
        None => false,
        Some(rest) => match text::rfind(rest, " ("@) {
            None => false,
            Some(open) => match text::before_suffix(rest.skip(open + 2), ")"@) {
                None => false,
                Some(kind) => kind_label(kind),
            },
        },
    }
}

fn is_kind_label(k: &str) -> (r: bool)
    ensures
        r == kind_label(k@),
{
    same(k, "function") || same(k, "method") || same(k, "class") || same(k, "trait") || same(k, "interface") || same(
        k,
        "struct",
    ) || same(k, "enum") || same(k, "constant") || same(k, "macro") || same(k, "module") || same(k, "namespace")
}

/// Whether a line is a header line of a known kind; a comment such as
/// `# cleanup (later)` is none.
pub fn is_symbol_header_line(line: &str) -> (r: bool)
    ensures
        r == symbol_header(line@),
{
    let rest = match strip_prefix(line, "# ") {
        Some(rest) => rest,
        None => {
            return false;
        },
    };
    let open: usize = match rfind_str(rest, " (") {
        Some(open) => open,
        None => {
            return false;
        },
    };
    proof {
        reveal_strlit(" (");
        text::lemma_last_at(rest@, " ("@, rest@.len() as int);
    }
    let n: usize = rest.unicode_len();
    let tail = rest.substring_char(open + 2, n);
    assert(tail@ =~= rest@.skip(open + 2));
    match strip_suffix(tail, ")") {
        Some(kind) => is_kind_label(kind),
        None => false,
    }
}

/// How many of the lines from `i` on are header lines without a break.
pub open spec fn headers_from(lines: Seq<Seq<char>>, i: int) -> int
    decreases lines.len() - i,
{
    if 0 <= i < lines.len() && symbol_header(lines[i]) {
        headers_from(lines, i + 1)
    } else {
        i
    }
}

/// Where the body of a chunk begins. Only a first line that names the chunk's
/// own file opens a header.
pub open spec fn body_start(lines: Seq<Seq<char>>, file: Seq<char>) -> int {
    if lines.len() > 0 && lines[0] == "# "@ + file {
        headers_from(lines, 1)
    } else {
        0
    }
}

pub open spec fn spaces(n: int) -> Seq<char>
    decreases n,
{
    if n <= 0 {
        Seq::empty()
    } else {
        spaces(n - 1).push(' ')
    }
}

/// A number, right-aligned.
pub open spec fn aligned(n: nat, width: nat) -> Seq<char> {
    spaces(width - text::decimal(n).len()) + text::decimal(n)
}

/// Lines as they are, each with its newline.
pub open spec fn plain_lines(lines: Seq<Seq<char>>) -> Seq<char>
    decreases lines.len(),
{
    if lines.len() == 0 {
        ""@
    } else {
        plain_lines(lines.drop_last()) + lines.last() + "\n"@
    }
}

/// Lines behind their numbers, counted from `first`, each with its newline.
pub open spec fn numbered_lines(lines: Seq<Seq<char>>, first: nat, width: nat) -> Seq<char>
    decreases lines.len(),
{
    if lines.len() == 0 {
        ""@
    } else {
        numbered_lines(lines.drop_last(), first, width) + (aligned((first + lines.len() - 1) as nat, width) + " | "@
            + lines.last() + "\n"@)
    }
}

/// The width of the number column: that of the last number, at least four.
pub open spec fn column(first: nat, count: nat) -> nat {
    let last = if count == 0 {
        first
    } else {
        (first + count - 1) as nat
    };
    let w = text::decimal(last).len();
    if w > 4 {
        w
    } else {
        4
    }
}

/// A chunk with its body lines numbered from `first`. A header stays as it is,
/// and so does the absence of a newline at the end.
pub open spec fn numbered(content: Seq<char>, file: Seq<char>, first: nat) -> Seq<char> {
    if content.len() == 0 {
        ""@
    } else {
        let lines = text::lines(content);
        let b = body_start(lines, file);
        let body = lines.skip(b);
        let all = plain_lines(lines.take(b)) + numbered_lines(body, first, column(first, body.len()));
        if text::ends_with(content, "\n"@) {
            all
        } else {
            all.drop_last()
        }
    }
}

proof fn lemma_headers_from(lines: Seq<Seq<char>>, i: int)
    requires
        0 <= i <= lines.len(),
    ensures
        i <= headers_from(lines, i) <= lines.len(),
    decreases lines.len() - i,
{
    if i < lines.len() && symbol_header(lines[i]) {
        lemma_headers_from(lines, i + 1);
    }
}

fn align(n: u64, width: usize) -> (out: String)
    ensures
        out@ == aligned(n as nat, width as nat),
{
    let digits = decimal_of(n);
    let d: usize = digits.as_str().unicode_len();
    let mut out = String::new();
    let mut k: usize = d;
    assert(spaces(0) =~= out@);
    while k < width
        invariant
            d == text::decimal(n as nat).len(),
            d <= k,
            out@ == spaces(k - d),
            k <= width || k == d,
        decreases width - k,
    {
        out.push(' ');
        k += 1;
    }
    proof {
        if d >= width {
            assert(spaces(width - d) =~= spaces(0));
        }
    }
    concat2(out.as_str(), digits.as_str())
}

/// Numbers the body lines of a chunk from `start_line`.
pub fn number_chunk_lines(content: &str, file_path: &str, start_line: u32) -> (out: String)
    requires
        start_line + text::lines(content@).len() <= usize::MAX,
    ensures
        out@ == numbered(content@, file_path@, start_line as nat),
{
    broadcast use text::group_views;
    if content.unicode_len() == 0 {
        return "".to_string();
    }
    let lines = lines_of(content);
    let ghost ls = text::views(lines@);
    let n: usize = lines.len();
    let mut b: usize = 0;
    if n > 0 && same(lines[0].as_str(), concat2("# ", file_path).as_str()) {
        b = 1;
        while b < n && is_symbol_header_line(lines[b].as_str())
            invariant
                1 <= b <= n,
                n == lines@.len(),
                ls == text::views(lines@),
                headers_from(ls, 1) == headers_from(ls, b as int),
            decreases n - b,
        {
            broadcast use text::group_views;
            assert(ls[b as int] == lines@[b as int]@);
            b += 1;
        }
        proof {
            if b < n {
                assert(ls[b as int] == lines@[b as int]@);
            }
            assert(ls[0] == lines@[0]@);
        }
    } else {
        proof {
            if n > 0 {
                assert(ls[0] == lines@[0]@);
            }
        }
    }
    assert(b == body_start(ls, file_path@));
    let ghost body = ls.skip(b as int);
    let count: usize = n - b;
    let last: u64 = if count == 0 {
        start_line as u64
    } else {
        start_line as u64 + (count - 1) as u64
    };
    let w: usize = decimal_of(last).as_str().unicode_len();
    let width: usize = if w > 4 {
        w
    } else {
        4
    };
    let mut out = "".to_string();
    let mut i: usize = 0;
    let ghost head = ls.take(b as int);
    while i < b
        invariant
            i <= b <= n,
            n == lines@.len(),
            ls == text::views(lines@),
            head == ls.take(b as int),
            out@ == plain_lines(head.take(i as int)),
        decreases b - i,
    {
        broadcast use text::group_views;
        proof {
            assert(head.take(i + 1).drop_last() =~= head.take(i as int));
            assert(head.take(i + 1).last() == lines@[i as int]@);
        }
        out = concat3(out.as_str(), lines[i].as_str(), "\n");
        i += 1;
    }
    assert(head.take(b as int) =~= head);
    let ghost top = out@;
    let mut k: usize = 0;
    assert(top + numbered_lines(body.take(0), start_line as nat, width as nat) =~= top) by {
        reveal_strlit("");
    }
    while k < count
        invariant
            k <= count,
            b + count == n,
            n == lines@.len(),
            start_line + n <= usize::MAX,
            ls == text::views(lines@),
            body == ls.skip(b as int),
            width == column(start_line as nat, count as nat),
            out@ == top + numbered_lines(body.take(k as int), start_line as nat, width as nat),
        decreases count - k,
    {
        broadcast use text::group_views;
        proof {
            assert(body.take(k + 1).drop_last() =~= body.take(k as int));
            assert(body.take(k + 1).last() == lines@[b + k]@);
        }
        let number = align(start_line as u64 + k as u64, width);
        let line = text::concat4(number.as_str(), " | ", lines[b + k].as_str(), "\n");
        let ghost before = out@;
        out = concat2(out.as_str(), line.as_str());
        assert(out@ =~= top + numbered_lines(body.take(k + 1), start_line as nat, width as nat));
        k += 1;
    }
    assert(body.take(body.len() as int) =~= body);
    if finishes(content, "\n") {
        out
    } else {
        let m: usize = out.as_str().unicode_len();
        if m == 0 {
            proof {
                text::lemma_lines_nonempty(content@);
                lemma_lines_show(head, body, start_line as nat, width as nat);
            }
            return out;
        }
        let cut = out.as_str().substring_char(0, m - 1);
        assert(cut@ =~= out@.drop_last());
        cut.to_string()
    }
}

/// Where there is a line, something is written.
proof fn lemma_lines_show(head: Seq<Seq<char>>, body: Seq<Seq<char>>, first: nat, width: nat)
    requires
        head.len() + body.len() > 0,
    ensures
        (plain_lines(head) + numbered_lines(body, first, width)).len() > 0,
{
    reveal_strlit("\n");
}

/// A numbered chunk ends in a newline exactly where the chunk does.
pub proof fn law_numbering_keeps_the_final_newline(content: Seq<char>, file: Seq<char>, first: nat)
    ensures
        text::ends_with(numbered(content, file, first), "\n"@) == text::ends_with(content, "\n"@),
{
    reveal_strlit("\n");
    reveal_strlit("");
    lemma_ends_in_newline(content);
    lemma_ends_in_newline(numbered(content, file, first));
    if content.len() > 0 {
        let lines = text::lines(content);
        let b = body_start(lines, file);
        let head = lines.take(b);
        let body = lines.skip(b);
        let width = column(first, body.len());
        let all = plain_lines(head) + numbered_lines(body, first, width);
        text::lemma_lines_nonempty(content);
        text::lemma_last_piece(content, '\n', 0, 0);
        if lines.len() > 0 {
            lemma_headers_from(lines, 1);
        }
        let last = lines.last();
        let front = if body.len() > 0 {
            plain_lines(head) + numbered_lines(body.drop_last(), first, width) + aligned(
                (first + body.len() - 1) as nat,
                width,
            ) + " | "@
        } else {
            plain_lines(head.drop_last())
        };
        assert(all =~= front + last + "\n"@);
        assert(all.drop_last() =~= front + last);
    }
}

proof fn lemma_ends_in_newline(s: Seq<char>)
    ensures
        text::ends_with(s, "\n"@) == (s.len() > 0 && s.last() == '\n'),
{
    reveal_strlit("\n");
    if s.len() > 0 {
        assert(s.subrange(s.len() - 1, s.len() as int) =~= seq![s.last()]);
        assert("\n"@ =~= seq!['\n']);
        if s.last() != '\n' {
            assert(seq![s.last()][0] != seq!['\n'][0]);
        }
    }
}

// ---------------------------------------------------------------------------
// Chunks
// ---------------------------------------------------------------------------

/// A definition in a few words.
#[derive(Debug)]
pub struct SymbolSummary {
    pub name: String,
    pub qualified_name: String,
    pub kind: String,
}

/// A piece of a file, and the definitions in it.
#[derive(Debug)]
pub struct BundleChunk {
    pub file_path: String,
    pub language: String,
    pub content: String,
    pub start_line: u32,
    pub end_line: u32,
    pub symbols: Vec<SymbolSummary>,
}

/// What identifies a chunk: its file and its first line.
#[derive(Debug)]
pub struct ChunkKey {
    pub file_path: String,
    pub start_line: u32,
}

impl View for ChunkKey {
    type V = (Seq<char>, u32);

    open spec fn view(&self) -> (Seq<char>, u32) {
        (self.file_path@, self.start_line)
    }
}

pub open spec fn key_of(c: BundleChunk) -> (Seq<char>, u32) {
    (c.file_path@, c.start_line)
}

/// Chunks that were picked, and the keys that may not be picked again.
#[derive(Debug)]
pub struct Picked {
    pub chunks: Vec<BundleChunk>,
    pub seen: Vec<ChunkKey>,
}

pub struct PickedView {
    pub chunks: Seq<BundleChunk>,
    pub seen: Seq<(Seq<char>, u32)>,
}

impl View for Picked {
    type V = PickedView;

    open spec fn view(&self) -> PickedView {
        PickedView { chunks: self.chunks@, seen: text::views(self.seen@) }
    }
}

/// With one more chunk, unless it was seen.
pub open spec fn added(p: PickedView, c: BundleChunk) -> PickedView {
    if p.seen.contains(key_of(c)) {
        p
    } else {
        PickedView { chunks: p.chunks.push(c), seen: p.seen.push(key_of(c)) }
    }
}

/// The first chunk from `i` on that covers a line.
pub open spec fn covering_from(chunks: Seq<BundleChunk>, line: u32, i: int) -> Option<int>
    decreases chunks.len() - i,
{
    if i < 0 || i >= chunks.len() {
        None
    } else if chunks[i].start_line <= line <= chunks[i].end_line {
        Some(i)
    } else {
        covering_from(chunks, line, i + 1)
    }
}

/// The chunk that begins first; of several, the one listed first.
pub open spec fn earliest(chunks: Seq<BundleChunk>) -> Option<int>
    decreases chunks.len(),
{
    if chunks.len() == 0 {
        None
    } else {
        match earliest(chunks.drop_last()) {
            None => Some(chunks.len() - 1),
            Some(i) => if chunks.last().start_line < chunks[i].start_line {
                Some(chunks.len() - 1)
            } else {
                Some(i)
            },
        }
    }
}

/// With the chunk that covers a line, if there is one.
pub open spec fn with_covering(p: PickedView, chunks: Seq<BundleChunk>, line: u32) -> PickedView {
    match covering_from(chunks, line, 0) {
        Some(i) => added(p, chunks[i]),
        None => p,
    }
}

/// With the chunk that begins first, if there is one.
pub open spec fn with_earliest(p: PickedView, chunks: Seq<BundleChunk>) -> PickedView {
    match earliest(chunks) {
        Some(i) => added(p, chunks[i]),
        None => p,
    }
}

fn find_covering(chunks: &Vec<BundleChunk>, line: u32) -> (out: Option<usize>)
    ensures
        match out {
            Some(i) => covering_from(chunks@, line, 0) == Some(i as int) && i < chunks@.len(),
            None => covering_from(chunks@, line, 0) is None,
        },
{
    let mut i: usize = 0;
    while i < chunks.len()
        invariant
            i <= chunks@.len(),
            covering_from(chunks@, line, 0) == covering_from(chunks@, line, i as int),
        decreases chunks@.len() - i,
    {
        if chunks[i].start_line <= line && line <= chunks[i].end_line {
            return Some(i);
        }
        i += 1;
    }
    None
}

fn find_earliest(chunks: &Vec<BundleChunk>) -> (out: Option<usize>)
    ensures
        match out {
            Some(i) => earliest(chunks@) == Some(i as int) && i < chunks@.len(),
            None => earliest(chunks@) is None,
        },
{
    let mut best: Option<usize> = None;
    let mut i: usize = 0;
    while i < chunks.len()
        invariant
            i <= chunks@.len(),
            match best {
                Some(b) => earliest(chunks@.take(i as int)) == Some(b as int) && b < i,
                None => earliest(chunks@.take(i as int)) is None,
            },
        decreases chunks@.len() - i,
    {
        assert(chunks@.take(i + 1).drop_last() =~= chunks@.take(i as int));
        match best {
            Some(b) => if chunks[i].start_line < chunks[b].start_line {
                best = Some(i);
            },
            None => {
                best = Some(i);
            },
        }
        i += 1;
    }
    assert(chunks@.take(chunks@.len() as int) =~= chunks@);
    best
}

impl Picked {
    /// No chunk was picked twice, and what was picked counts as seen.
    pub open spec fn wf(self) -> bool {
        picked_once(self@)
    }

    pub fn none() -> (out: Picked)
        ensures
            out@.chunks.len() == 0,
            out@.seen.len() == 0,
            out.wf(),
    {
        Picked { chunks: Vec::new(), seen: Vec::new() }
    }

    fn has_seen(&self, c: &BundleChunk) -> (r: bool)
        ensures
            r == self@.seen.contains(key_of(*c)),
    {
        broadcast use text::group_views;
        let ghost keys = self@.seen;
        let mut i: usize = 0;
        while i < self.seen.len()
            invariant
                i <= self.seen@.len(),
                keys == text::views(self.seen@),
                forall|j: int| 0 <= j < i ==> #[trigger] keys[j] != key_of(*c),
            decreases self.seen@.len() - i,
        {
            broadcast use text::group_views;
            assert(keys[i as int] == self.seen@[i as int]@);
            if self.seen[i].start_line == c.start_line && same(self.seen[i].file_path.as_str(), c.file_path.as_str()) {
                return true;
            }
            i += 1;
        }
        false
    }

    /// Picks a chunk, unless it was seen.
    pub fn add(&mut self, c: BundleChunk)
        ensures
            final(self)@ == added(old(self)@, c),
            old(self).wf() ==> final(self).wf(),
    {
        broadcast use text::group_views;
        proof {
            if self.wf() {
                law_picking_never_repeats(self@, c);
            }
        }
        if !self.has_seen(&c) {
            self.seen.push(ChunkKey { file_path: c.file_path.clone(), start_line: c.start_line });
            self.chunks.push(c);
        }
    }

    /// Picks the chunk of a file that covers a line.
    pub fn add_covering(&mut self, chunks: Vec<BundleChunk>, line: u32)
        ensures
            final(self)@ == with_covering(old(self)@, chunks@, line),
            old(self).wf() ==> final(self).wf(),
    {
        let mut chunks = chunks;
        if let Some(i) = find_covering(&chunks, line) {
            let c = chunks.remove(i);
            self.add(c);
        }
    }

    /// Picks the first chunk of a file.
    pub fn add_first(&mut self, chunks: Vec<BundleChunk>)
        ensures
            final(self)@ == with_earliest(old(self)@, chunks@),
            old(self).wf() ==> final(self).wf(),
    {
        let mut chunks = chunks;
        if let Some(i) = find_earliest(&chunks) {
            let c = chunks.remove(i);
            self.add(c);
        }
    }
}

/// No two chunks share a key, and every picked one was seen.
pub open spec fn picked_once(p: PickedView) -> bool {
    &&& forall|i: int| 0 <= i < p.chunks.len() ==> p.seen.contains(key_of(#[trigger] p.chunks[i]))
    &&& forall|i: int, j: int|
        0 <= i < j < p.chunks.len() ==> key_of(#[trigger] p.chunks[i]) != key_of(#[trigger] p.chunks[j])
}

/// Picking never repeats a chunk.
pub proof fn law_picking_never_repeats(p: PickedView, c: BundleChunk)
    requires
        picked_once(p),
    ensures
        picked_once(added(p, c)),
{
    if !p.seen.contains(key_of(c)) {
        let q = added(p, c);
        assert forall|i: int| 0 <= i < q.chunks.len() implies q.seen.contains(key_of(#[trigger] q.chunks[i])) by {
            if i < p.chunks.len() {
                assert(p.seen.contains(key_of(p.chunks[i])));
                let k = choose|k: int| 0 <= k < p.seen.len() && p.seen[k] == key_of(p.chunks[i]);
                assert(q.seen[k] == key_of(q.chunks[i]));
            } else {
                assert(q.seen[p.seen.len() as int] == key_of(c));
            }
        }
        assert forall|i: int, j: int| 0 <= i < j < q.chunks.len() implies key_of(#[trigger] q.chunks[i]) != key_of(
            #[trigger] q.chunks[j],
        ) by {
            assert(p.seen.contains(key_of(p.chunks[i])));
        }
    }
}

// ---------------------------------------------------------------------------
// Offers
// ---------------------------------------------------------------------------

/// A place whose chunk may be picked: the chunks of its file, and its line.
#[derive(Debug)]
pub struct Offer {
    pub chunks: Vec<BundleChunk>,
    pub line: u32,
}

/// The picks after some offers; once there are enough, offers pass by.
pub open spec fn gathered(p: PickedView, offers: Seq<Offer>, limit: nat) -> PickedView
    decreases offers.len(),
{
    if offers.len() == 0 {
        p
    } else {
        let q = gathered(p, offers.drop_last(), limit);
        if q.chunks.len() >= limit {
            q
        } else {
            with_covering(q, offers.last().chunks@, offers.last().line)
        }
    }
}

impl Picked {
    /// Takes offers in order until there are enough chunks.
    pub fn take_offers(&mut self, offers: Vec<Offer>, limit: usize)
        ensures
            final(self)@ == gathered(old(self)@, offers@, limit as nat),
            old(self).wf() ==> final(self).wf(),
    {
        let ghost start = self@;
        let ghost was_wf = self.wf();
        let ghost items = offers@;
        for o in it: offers
            invariant
                it.seq() == items,
                self@ == gathered(start, items.take(it.index()), limit as nat),
                was_wf ==> self.wf(),
        {
            proof {
                assert(items.take(it.index() + 1).drop_last() =~= items.take(it.index()));
                assert(items.take(it.index() + 1).last() == o);
            }
            if self.chunks.len() < limit {
                self.add_covering(o.chunks, o.line);
            }
        }
        assert(items.take(items.len() as int) =~= items);
    }
}

/// The picks never exceed the limit by what offers add.
pub proof fn law_offers_respect_the_limit(p: PickedView, offers: Seq<Offer>, limit: nat)
    ensures
        p.chunks.len() <= limit ==> gathered(p, offers, limit).chunks.len() <= limit,
        p.chunks.len() >= limit ==> gathered(p, offers, limit) == p,
    decreases offers.len(),
{
    if offers.len() > 0 {
        law_offers_respect_the_limit(p, offers.drop_last(), limit);
    }
}

/// The definitions that some references lead to, in order, without those that
/// already were.
pub open spec fn targets(
    refs: Seq<Reference>,
    resolved: Seq<Vec<Symbol>>,
    seen: Seq<Symbol>,
) -> Seq<Symbol>
    decreases refs.len(),
{
    if refs.len() == 0 {
        Seq::empty()
    } else {
        let front = targets(refs.drop_last(), resolved, seen);
        if resolution::leads_to_callee(refs.last().kind) {
            with_unseen(front, resolved[refs.len() - 1]@, seen)
        } else {
            front
        }
    }
}

pub open spec fn with_unseen(found: Seq<Symbol>, defs: Seq<Symbol>, seen: Seq<Symbol>) -> Seq<Symbol>
    decreases defs.len(),
{
    if defs.len() == 0 {
        found
    } else {
        let front = with_unseen(found, defs.drop_last(), seen);
        let key = defs.last().key();
        if symbols::keys(seen).contains(key) || symbols::keys(front).contains(key) {
            front
        } else {
            front.push(defs.last())
        }
    }
}

/// The definitions that the references inside a definition lead to. `resolved`
/// holds what each reference means; `seen` are definitions already used.
pub fn callee_targets(refs: &Vec<Reference>, resolved: &Vec<Vec<Symbol>>, seen: &Vec<Symbol>) -> (out: Vec<Symbol>)
    requires
        refs@.len() == resolved@.len(),
    ensures
        out@ == targets(refs@, resolved@, seen@),
{
    let mut out: Vec<Symbol> = Vec::new();
    let mut i: usize = 0;
    while i < refs.len()
        invariant
            i <= refs@.len(),
            refs@.len() == resolved@.len(),
            out@ == targets(refs@.take(i as int), resolved@, seen@),
        decreases refs@.len() - i,
    {
        let ghost front = out@;
        proof {
            assert(refs@.take(i + 1).drop_last() =~= refs@.take(i as int));
            assert(refs@.take(i + 1).last() == refs@[i as int]);
        }
        if is_callee_reference(refs[i].kind) {
            let defs = &resolved[i];
            let mut k: usize = 0;
            while k < defs.len()
                invariant
                    k <= defs@.len(),
                    out@ == with_unseen(front, defs@.take(k as int), seen@),
                decreases defs@.len() - k,
            {
                proof {
                    assert(defs@.take(k + 1).drop_last() =~= defs@.take(k as int));
                    assert(defs@.take(k + 1).last() == defs@[k as int]);
                }
                if !has_symbol(seen, &defs[k]) && !has_symbol(&out, &defs[k]) {
                    out.push(defs[k].clone());
                }
                k += 1;
            }
            assert(defs@.take(defs@.len() as int) =~= defs@);
        }
        i += 1;
    }
    assert(refs@.take(refs@.len() as int) =~= refs@);
    out
}

// ---------------------------------------------------------------------------
// Definitions
// ---------------------------------------------------------------------------

/// The definitions of a qualified name.
pub open spec fn of_name(candidates: Seq<Symbol>, qualified: Seq<char>) -> Seq<Symbol> {
    candidates.filter(|d: Symbol| d.qualified_name@ == qualified)
}

/// The definitions that lie in a file.
pub open spec fn in_file_of(defs: Seq<Symbol>, file: Seq<char>) -> Seq<Symbol> {
    defs.filter(|d: Symbol| d.file_path@ == file)
}

/// The first definition of that qualified name in a file, else the first of
/// that name at all.
pub open spec fn best_definition(candidates: Seq<Symbol>, qualified: Seq<char>, file: Seq<char>) -> Option<Symbol> {
    let named = of_name(candidates, qualified);
    let local = in_file_of(named, file);
    if local.len() > 0 {
        Some(local[0])
    } else if named.len() > 0 {
        Some(named[0])
    } else {
        None
    }
}

fn with_qualified_name(candidates: &Vec<Symbol>, qualified: &str) -> (out: Vec<Symbol>)
    ensures
        out@ == candidates@.filter(|d: Symbol| d.qualified_name@ == qualified@),
{
    let ghost keep = |d: Symbol| d.qualified_name@ == qualified@;
    let mut out: Vec<Symbol> = Vec::new();
    let mut i: usize = 0;
    assert(candidates@.take(0).filter(keep) =~= Seq::<Symbol>::empty()) by {
        reveal(Seq::filter);
    }
    while i < candidates.len()
        invariant
            i <= candidates@.len(),
            keep == (|d: Symbol| d.qualified_name@ == qualified@),
            out@ == candidates@.take(i as int).filter(keep),
        decreases candidates@.len() - i,
    {
        proof {
            reveal(Seq::filter);
            assert(candidates@.take(i + 1).drop_last() =~= candidates@.take(i as int));
            assert(candidates@.take(i + 1).last() == candidates@[i as int]);
        }
        if same(candidates[i].qualified_name.as_str(), qualified) {
            out.push(candidates[i].clone());
        }
        i += 1;
    }
    assert(candidates@.take(candidates@.len() as int) =~= candidates@);
    out
}

fn in_file(candidates: &Vec<Symbol>, file: &str) -> (out: Vec<Symbol>)
    ensures
        out@ == candidates@.filter(|d: Symbol| d.file_path@ == file@),
{
    let ghost keep = |d: Symbol| d.file_path@ == file@;
    let mut out: Vec<Symbol> = Vec::new();
    let mut i: usize = 0;
    assert(candidates@.take(0).filter(keep) =~= Seq::<Symbol>::empty()) by {
        reveal(Seq::filter);
    }
    while i < candidates.len()
        invariant
            i <= candidates@.len(),
            keep == (|d: Symbol| d.file_path@ == file@),
            out@ == candidates@.take(i as int).filter(keep),
        decreases candidates@.len() - i,
    {
        proof {
            reveal(Seq::filter);
            assert(candidates@.take(i + 1).drop_last() =~= candidates@.take(i as int));
            assert(candidates@.take(i + 1).last() == candidates@[i as int]);
        }
        if same(candidates[i].file_path.as_str(), file) {
            out.push(candidates[i].clone());
        }
        i += 1;
    }
    assert(candidates@.take(candidates@.len() as int) =~= candidates@);
    out
}

/// Picks the definition that a summary in a file means, among those of its name
/// and kind.
pub fn find_definition_for_summary(candidates: &Vec<Symbol>, summary: &SymbolSummary, file_path: &str) -> (out: Option<
    Symbol,
>)
    ensures
        out == best_definition(candidates@, summary.qualified_name@, file_path@),
{
    let named = with_qualified_name(candidates, summary.qualified_name.as_str());
    let local = in_file(&named, file_path);
    if local.len() > 0 {
        Some(local[0].clone())
    } else if named.len() > 0 {
        Some(named[0].clone())
    } else {
        None
    }
}

/// The line on which an entry point begins, where it lies in the entry file.
pub fn entry_symbol_line(defs: &Vec<Symbol>, entry_path: &str) -> (out: Option<u32>)
    ensures
        ({
            let local = defs@.filter(|d: Symbol| d.file_path@ == entry_path@);
            out == (if local.len() > 0 {
                Some(local[0].line_start)
            } else {
                None
            })
        }),
{
    let local = in_file(defs, entry_path);
    if local.len() > 0 {
        Some(local[0].line_start)
    } else {
        None
    }
}

/// A summary whose definition is wanted, and the file it stands in.
#[derive(Debug)]
pub struct SummaryAsk {
    pub summary: SymbolSummary,
    pub file_path: String,
}

pub struct AskView {
    pub name: Seq<char>,
    pub qualified: Seq<char>,
    pub kind: Seq<char>,
    pub file: Seq<char>,
}

impl View for SummaryAsk {
    type V = AskView;

    open spec fn view(&self) -> AskView {
        ask_of(self.summary, self.file_path@)
    }
}

pub open spec fn ask_of(s: SymbolSummary, file: Seq<char>) -> AskView {
    AskView { name: s.name@, qualified: s.qualified_name@, kind: s.kind@, file }
}

/// The summaries of a chunk, as asked for.
pub open spec fn chunk_asks(c: BundleChunk) -> Seq<AskView> {
    c.symbols@.map_values(|s: SymbolSummary| ask_of(s, c.file_path@))
}

/// The summaries of some chunks, in order.
pub open spec fn asks_of(chunks: Seq<BundleChunk>) -> Seq<AskView>
    decreases chunks.len(),
{
    if chunks.len() == 0 {
        Seq::empty()
    } else {
        asks_of(chunks.drop_last()) + chunk_asks(chunks.last())
    }
}

/// Lists the summaries of some chunks, whose definitions are to be looked up.
pub fn summaries_of(chunks: &Vec<BundleChunk>) -> (out: Vec<SummaryAsk>)
    ensures
        text::views(out@) == asks_of(chunks@),
{
    broadcast use text::group_views;
    let mut out: Vec<SummaryAsk> = Vec::new();
    let mut i: usize = 0;
    while i < chunks.len()
        invariant
            i <= chunks@.len(),
            text::views(out@) == asks_of(chunks@.take(i as int)),
        decreases chunks@.len() - i,
    {
        broadcast use text::group_views;
        let ghost before = asks_of(chunks@.take(i as int));
        let ghost more = chunk_asks(chunks@[i as int]);
        let c = &chunks[i];
        let mut j: usize = 0;
        assert(before + more.take(0) =~= before);
        while j < c.symbols.len()
            invariant
                j <= c.symbols@.len(),
                more == chunk_asks(*c),
                text::views(out@) == before + more.take(j as int),
            decreases c.symbols@.len() - j,
        {
            broadcast use text::group_views;
            assert(before + more.take(j + 1) =~= (before + more.take(j as int)).push(more[j as int]));
            let s = &c.symbols[j];
            out.push(
                SummaryAsk {
                    summary: SymbolSummary {
                        name: s.name.clone(),
                        qualified_name: s.qualified_name.clone(),
                        kind: s.kind.clone(),
                    },
                    file_path: c.file_path.clone(),
                },
            );
            j += 1;
        }
        proof {
            assert(more.take(more.len() as int) =~= more);
            assert(chunks@.take(i + 1).drop_last() =~= chunks@.take(i as int));
            assert(chunks@.take(i + 1).last() == chunks@[i as int]);
        }
        i += 1;
    }
    assert(chunks@.take(chunks@.len() as int) =~= chunks@);
    out
}

/// Definitions that were collected, and the qualified names already asked for.
#[derive(Debug)]
pub struct Definitions {
    pub found: Vec<Symbol>,
    pub asked: Vec<String>,
}

pub struct DefinitionsView {
    pub found: Seq<Symbol>,
    pub asked: Seq<Seq<char>>,
}

impl View for Definitions {
    type V = DefinitionsView;

    open spec fn view(&self) -> DefinitionsView {
        DefinitionsView { found: self.found@, asked: text::views(self.asked@) }
    }
}

/// With the answer to a name, unless it was already asked for.
pub open spec fn answered(d: DefinitionsView, name: Seq<char>, definition: Option<Symbol>) -> DefinitionsView {
    if d.asked.contains(name) {
        d
    } else {
        DefinitionsView {
            asked: d.asked.push(name),
            found: match definition {
                Some(s) => d.found.push(s),
                None => d.found,
            },
        }
    }
}

/// With the definitions that the first `n` summaries mean, each looked up
/// among the symbols of its name and kind.
pub open spec fn looked_up(d: DefinitionsView, asks: Seq<AskView>, candidates: Seq<Vec<Symbol>>, n: int) -> DefinitionsView
    decreases n,
{
    if n <= 0 {
        d
    } else {
        let a = asks[n - 1];
        answered(
            looked_up(d, asks, candidates, n - 1),
            a.qualified,
            best_definition(candidates[n - 1]@, a.qualified, a.file),
        )
    }
}

/// Definitions taken in order, each qualified name once.
pub open spec fn all_taken(d: DefinitionsView, defs: Seq<Symbol>) -> DefinitionsView
    decreases defs.len(),
{
    if defs.len() == 0 {
        d
    } else {
        answered(all_taken(d, defs.drop_last()), defs.last().qualified_name@, Some(defs.last()))
    }
}

/// The definitions of an entry point: those in the entry file where there are
/// any, since its name can be common.
pub open spec fn entry_definitions(defs: Seq<Symbol>, entry: Seq<char>) -> Seq<Symbol> {
    let local = in_file_of(defs, entry);
    if local.len() > 0 {
        local
    } else {
        defs
    }
}

impl Definitions {
    pub fn none() -> (out: Definitions)
        ensures
            out@.found.len() == 0,
            out@.asked.len() == 0,
    {
        Definitions { found: Vec::new(), asked: Vec::new() }
    }

    fn answer(&mut self, name: &str, definition: Option<Symbol>)
        ensures
            final(self)@ == answered(old(self)@, name@, definition),
    {
        broadcast use text::group_views;
        if !crate::order::among(&self.asked, name) {
            self.asked.push(name.to_string());
            if let Some(s) = definition {
                self.found.push(s);
            }
        }
    }

    /// Takes the definitions that the summaries of some chunks mean.
    /// `candidates` holds, for each summary, the symbols of its name and kind.
    pub fn look_up(&mut self, chunks: &Vec<BundleChunk>, candidates: &Vec<Vec<Symbol>>)
        requires
            candidates@.len() == asks_of(chunks@).len(),
        ensures
            final(self)@ == looked_up(
                old(self)@,
                asks_of(chunks@),
                candidates@,
                candidates@.len() as int,
            ),
    {
        broadcast use text::group_views;
        let asks = summaries_of(chunks);
        let ghost wanted = asks_of(chunks@);
        let ghost start = self@;
        let mut i: usize = 0;
        while i < asks.len()
            invariant
                i <= asks@.len(),
                asks@.len() == candidates@.len(),
                wanted == text::views(asks@),
                self@ == looked_up(start, wanted, candidates@, i as int),
            decreases asks@.len() - i,
        {
            broadcast use text::group_views;
            assert(wanted[i as int] == asks@[i as int]@);
            let a = &asks[i];
            let found = find_definition_for_summary(&candidates[i], &a.summary, a.file_path.as_str());
            self.answer(a.summary.qualified_name.as_str(), found);
            i += 1;
        }
    }

    /// Takes the definitions of an entry point.
    pub fn take_entry(&mut self, defs: Vec<Symbol>, entry_path: &str)
        ensures
            final(self)@ == all_taken(old(self)@, entry_definitions(defs@, entry_path@)),
    {
        let local = in_file(&defs, entry_path);
        let preferred = if local.len() > 0 {
            local
        } else {
            defs
        };
        let ghost start = self@;
        let ghost items = preferred@;
        for d in it: preferred
            invariant
                it.seq() == items,
                self@ == all_taken(start, items.take(it.index())),
        {
            proof {
                assert(items.take(it.index() + 1).drop_last() =~= items.take(it.index()));
                assert(items.take(it.index() + 1).last() == d);
            }
            let name = d.qualified_name.clone();
            self.answer(name.as_str(), Some(d));
        }
        assert(items.take(items.len() as int) =~= items);
    }
}

// ---------------------------------------------------------------------------
// Features
// ---------------------------------------------------------------------------

/// What a file is to a feature.
#[derive(Debug, Clone, Copy, PartialEq, Eq, Structural)]
pub enum FeatureFileRole {
    Entry,
    Owned,
    Test,
    Context,
}

/// A file of a feature, with its chunks.
#[derive(Debug)]
pub struct FeatureFile {
    pub role: FeatureFileRole,
    pub chunks: Vec<BundleChunk>,
}

/// The limit that a request means: zero stands for five.
pub open spec fn effective(limit: nat) -> nat {
    if limit == 0 {
        5
    } else {
        limit
    }
}

pub fn effective_limit(limit: usize) -> (out: usize)
    ensures
        out == effective(limit as nat),
{
    if limit == 0 {
        5
    } else {
        limit
    }
}

/// With the chunk of a primary file. An entry file shows the chunk of its entry
/// point, or its first chunk where nothing else is shown yet.
pub open spec fn with_primary(p: PickedView, f: FeatureFile, entry_line: Option<u32>, limit: nat) -> PickedView {
    if p.chunks.len() >= limit {
        p
    } else {
        match (f.role, entry_line) {
            (FeatureFileRole::Entry, Some(line)) => {
                let q = with_covering(p, f.chunks@, line);
                if q.chunks.len() == 0 {
                    with_earliest(q, f.chunks@)
                } else {
                    q
                }
            },
            (FeatureFileRole::Entry, None) | (FeatureFileRole::Owned, _) => with_earliest(p, f.chunks@),
            _ => p,
        }
    }
}

pub open spec fn primary_of(p: PickedView, files: Seq<FeatureFile>, entry_line: Option<u32>, limit: nat) -> PickedView
    decreases files.len(),
{
    if files.len() == 0 {
        p
    } else {
        with_primary(primary_of(p, files.drop_last(), entry_line, limit), files.last(), entry_line, limit)
    }
}

/// With the first chunks of the files of one role, until there are enough.
pub open spec fn with_role(p: PickedView, files: Seq<FeatureFile>, role: FeatureFileRole, limit: nat) -> PickedView
    decreases files.len(),
{
    if files.len() == 0 {
        p
    } else {
        let q = with_role(p, files.drop_last(), role, limit);
        if files.last().role != role || q.chunks.len() >= limit {
            q
        } else {
            with_earliest(q, files.last().chunks@)
        }
    }
}

impl Picked {
    fn add_entry(&mut self, chunks: Vec<BundleChunk>, line: u32)
        ensures
            final(self)@ == ({
                let q = with_covering(old(self)@, chunks@, line);
                if q.chunks.len() == 0 {
                    with_earliest(q, chunks@)
                } else {
                    q
                }
            }),
            old(self).wf() ==> final(self).wf(),
    {
        let mut chunks = chunks;
        match find_covering(&chunks, line) {
            Some(i) => if !self.has_seen(&chunks[i]) {
                let c = chunks.remove(i);
                self.add(c);
                return;
            },
            None => {},
        }
        if self.chunks.len() == 0 {
            self.add_first(chunks);
        }
    }

    /// Picks the chunks of the entry and owned files of a feature.
    pub fn take_primary(&mut self, files: Vec<FeatureFile>, entry_line: Option<u32>, limit: usize)
        ensures
            final(self)@ == primary_of(old(self)@, files@, entry_line, limit as nat),
            old(self).wf() ==> final(self).wf(),
    {
        let ghost start = self@;
        let ghost was_wf = self.wf();
        let ghost items = files@;
        for f in it: files
            invariant
                it.seq() == items,
                self@ == primary_of(start, items.take(it.index()), entry_line, limit as nat),
                was_wf ==> self.wf(),
        {
            proof {
                assert(items.take(it.index() + 1).drop_last() =~= items.take(it.index()));
                assert(items.take(it.index() + 1).last() == f);
            }
            if self.chunks.len() < limit {
                match f.role {
                    FeatureFileRole::Entry => match entry_line {
                        Some(line) => self.add_entry(f.chunks, line),
                        None => self.add_first(f.chunks),
                    },
                    FeatureFileRole::Owned => self.add_first(f.chunks),
                    FeatureFileRole::Test | FeatureFileRole::Context => {},
                }
            }
        }
        assert(items.take(items.len() as int) =~= items);
    }

    /// Picks the first chunks of the files of one role.
    pub fn take_role(&mut self, files: Vec<FeatureFile>, role: FeatureFileRole, limit: usize)
        ensures
            final(self)@ == with_role(old(self)@, files@, role, limit as nat),
            old(self).wf() ==> final(self).wf(),
    {
        let ghost start = self@;
        let ghost was_wf = self.wf();
        let ghost items = files@;
        for f in it: files
            invariant
                it.seq() == items,
                self@ == with_role(start, items.take(it.index()), role, limit as nat),
                was_wf ==> self.wf(),
        {
            proof {
                assert(items.take(it.index() + 1).drop_last() =~= items.take(it.index()));
                assert(items.take(it.index() + 1).last() == f);
            }
            if f.role == role && self.chunks.len() < limit {
                self.add_first(f.chunks);
            }
        }
        assert(items.take(items.len() as int) =~= items);
    }
}

/// The primary chunks of a feature never exceed the limit.
pub proof fn law_primary_chunks_respect_the_limit(
    p: PickedView,
    files: Seq<FeatureFile>,
    entry_line: Option<u32>,
    limit: nat,
)
    requires
        p.chunks.len() <= limit,
    ensures
        primary_of(p, files, entry_line, limit).chunks.len() <= limit,
    decreases files.len(),
{
    if files.len() > 0 {
        law_primary_chunks_respect_the_limit(p, files.drop_last(), entry_line, limit);
    }
}

// ---------------------------------------------------------------------------
// Bundles
// ---------------------------------------------------------------------------

/// Source chunks and definitions that answer one question.
#[derive(Debug)]
pub struct ContextBundle {
    pub found: bool,
    pub target_description: String,
    pub primary: Vec<BundleChunk>,
    pub related: Vec<BundleChunk>,
    pub symbol_definitions: Vec<Symbol>,
}

/// What a request for a bundle is about.
#[derive(Debug, Clone, Copy, PartialEq, Eq, Structural)]
pub enum ExportTarget {
    Symbol,
    Query,
    /// Neither a symbol nor a query was given.
    Nothing,
}

/// What a request is about: a symbol where one is given, else a query that is
/// not empty.
pub fn export_target(symbol: &Option<String>, query: &Option<String>) -> (out: ExportTarget)
    ensures
        out == (if symbol is Some {
            ExportTarget::Symbol
        } else if query matches Some(q) && q@.len() > 0 {
            ExportTarget::Query
        } else {
            ExportTarget::Nothing
        }),
{
    if symbol.is_some() {
        return ExportTarget::Symbol;
    }
    match query {
        Some(q) => if q.as_str().unicode_len() > 0 {
            ExportTarget::Query
        } else {
            ExportTarget::Nothing
        },
        None => ExportTarget::Nothing,
    }
}

fn empty_bundle(target_description: String) -> (out: ContextBundle)
    ensures
        !out.found,
        out.target_description == target_description,
        out.primary@.len() == 0,
        out.related@.len() == 0,
        out.symbol_definitions@.len() == 0,
{
    ContextBundle {
        found: false,
        target_description,
        primary: Vec::new(),
        related: Vec::new(),
        symbol_definitions: Vec::new(),
    }
}

/// The bundle for a symbol that has no definition.
pub fn symbol_not_found(name: &str) -> (out: ContextBundle)
    ensures
        !out.found,
        out.target_description@ == "symbol: "@ + name@ + " (not found)"@,
        out.primary@.len() == 0,
        out.related@.len() == 0,
        out.symbol_definitions@.len() == 0,
{
    empty_bundle(concat3("symbol: ", name, " (not found)"))
}

/// The bundle for a feature that does not exist.
pub fn feature_not_found(id: &str) -> (out: ContextBundle)
    ensures
        !out.found,
        out.target_description@ == "feature: "@ + id@ + " (not found)"@,
        out.primary@.len() == 0,
        out.related@.len() == 0,
        out.symbol_definitions@.len() == 0,
{
    empty_bundle(concat3("feature: ", id, " (not found)"))
}

/// What the bundle of a feature says it is about.
pub fn feature_description(title: &str, id: &str) -> (out: String)
    ensures
        out@ == "feature: "@ + title@ + " ("@ + id@ + ")"@,
{
    concat5("feature: ", title, " (", id, ")")
}

/// A chunk whose numbers fit the machine.
pub open spec fn numberable(c: BundleChunk) -> bool {
    c.start_line + text::lines(c.content@).len() <= usize::MAX
}

pub open spec fn chunks_fit(chunks: Seq<BundleChunk>) -> bool {
    forall|i: int| 0 <= i < chunks.len() ==> numberable(#[trigger] chunks[i])
}

/// A chunk with its lines numbered.
pub open spec fn is_numbered(out: BundleChunk, c: BundleChunk) -> bool {
    &&& out == (BundleChunk { content: out.content, ..c })
    &&& out.content@ == numbered(c.content@, c.file_path@, c.start_line as nat)
}

pub open spec fn all_numbered(out: Seq<BundleChunk>, chunks: Seq<BundleChunk>) -> bool {
    &&& out.len() == chunks.len()
    &&& forall|i: int| 0 <= i < chunks.len() ==> is_numbered(#[trigger] out[i], chunks[i])
}

fn number_all(chunks: Vec<BundleChunk>) -> (out: Vec<BundleChunk>)
    requires
        chunks_fit(chunks@),
    ensures
        all_numbered(out@, chunks@),
{
    let ghost items = chunks@;
    let mut out: Vec<BundleChunk> = Vec::new();
    for c in it: chunks
        invariant
            it.seq() == items,
            chunks_fit(items),
            out@.len() == it.index(),
            forall|i: int| 0 <= i < out@.len() ==> is_numbered(#[trigger] out@[i], items[i]),
    {
        assert(numberable(items[it.index()]));
        let content = number_chunk_lines(c.content.as_str(), c.file_path.as_str(), c.start_line);
        out.push(BundleChunk { content, ..c });
    }
    out
}

/// Numbers every chunk of a bundle, where that is wanted.
pub fn finalize_bundle(bundle: ContextBundle, line_numbers: bool) -> (out: ContextBundle)
    requires
        line_numbers ==> chunks_fit(bundle.primary@) && chunks_fit(bundle.related@),
    ensures
        !line_numbers ==> out == bundle,
        line_numbers ==> {
            &&& out == (ContextBundle { primary: out.primary, related: out.related, ..bundle })
            &&& all_numbered(out.primary@, bundle.primary@)
            &&& all_numbered(out.related@, bundle.related@)
        },
{
    if line_numbers {
        ContextBundle {
            primary: number_all(bundle.primary),
            related: number_all(bundle.related),
            found: bundle.found,
            target_description: bundle.target_description,
            symbol_definitions: bundle.symbol_definitions,
        }
    } else {
        bundle
    }
}

} // verus!
