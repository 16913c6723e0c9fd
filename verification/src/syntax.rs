//! Parsed source as plain values: the tree that syntax checks read.
use vstd::prelude::*;
use vstd::string::*;
use crate::text;
use crate::text::{chars_of, same};

verus! {

/// A language that source is written in.
#[derive(Debug, Clone, Copy, PartialEq, Eq, Structural)]
pub enum Language {
    C,
    Cpp,
    Go,
    Java,
    JavaScript,
    Php,
    Python,
    Rust,
    TypeScript,
    Other,
}

/// A node of a parsed source. Positions count characters from the start of the
/// source; `children` and `parent` are places in the list of nodes.
#[derive(Debug)]
pub struct SyntaxNode {
    pub kind: String,
    /// The grammar gives the node a name; punctuation has none.
    pub named: bool,
    /// The field of its parent that the node fills.
    pub field: Option<String>,
    pub start: usize,
    pub end: usize,
    /// The line the node starts in, counted from zero.
    pub row: usize,
    pub parent: Option<usize>,
    pub children: Vec<usize>,
}

/// A parsed source: its characters, and its nodes from the root on, each before
/// its descendants and all of those before its next sibling.
pub struct SyntaxTree {
    source: Vec<char>,
    nodes: Vec<SyntaxNode>,
}

/// The children of node `i` come behind it in order, know their parent, lie
/// inside it, and each one's children come before the next one.
pub open spec fn node_fits(nodes: Seq<SyntaxNode>, len: nat, i: int) -> bool {
    let node = nodes[i];
    &&& node.start <= node.end <= len
    &&& node.row < usize::MAX
    &&& match node.parent {
        Some(p) => p < i,
        None => i == 0,
    }
    &&& forall|k: int| 0 <= k < node.children@.len() ==> child_fits(nodes, i, k)
}

/// The `k`-th child of node `i` stands where it must.
pub open spec fn child_fits(nodes: Seq<SyntaxNode>, i: int, k: int) -> bool {
    let node = nodes[i];
    let c = node.children@[k];
    &&& i < c < nodes.len()
    &&& nodes[c as int].parent == Some(i as usize)
    &&& node.start <= nodes[c as int].start
    &&& nodes[c as int].end <= node.end
    &&& k + 1 < node.children@.len() ==> {
        &&& c < node.children@[k + 1]
        &&& forall|m: int|
            0 <= m < nodes[c as int].children@.len() ==> #[trigger] nodes[c as int].children@[m]
                < node.children@[k + 1]
    }
}

impl SyntaxTree {
    pub closed spec fn source(&self) -> Seq<char> {
        self.source@
    }

    pub closed spec fn nodes(&self) -> Seq<SyntaxNode> {
        self.nodes@
    }

    /// Every node stands where it must.
    pub open spec fn wf(&self) -> bool {
        &&& 0 < self.nodes().len() <= usize::MAX
        &&& forall|i: int| 0 <= i < self.nodes().len() ==> node_fits(self.nodes(), self.source().len(), i)
    }
}

fn checked_child(nodes: &Vec<SyntaxNode>, i: usize, k: usize) -> (r: bool)
    requires
        i < nodes@.len(),
        k < nodes@[i as int].children@.len(),
    ensures
        r == child_fits(nodes@, i as int, k as int),
{
    let c: usize = nodes[i].children[k];
    if !(i < c && c < nodes.len()) {
        return false;
    }
    match nodes[c].parent {
        Some(p) => if p != i {
            return false;
        },
        None => {
            return false;
        },
    }
    if nodes[c].start < nodes[i].start || nodes[c].end > nodes[i].end {
        return false;
    }
    if k < nodes[i].children.len() - 1 {
        let next: usize = nodes[i].children[k + 1];
        if c >= next {
            return false;
        }
        let mut m: usize = 0;
        while m < nodes[c].children.len()
            invariant
                i < c < nodes@.len(),
                k + 1 < nodes@[i as int].children@.len(),
                next == nodes@[i as int].children@[k + 1],
                c == nodes@[i as int].children@[k as int],
                m <= nodes@[c as int].children@.len(),
                forall|j: int| 0 <= j < m ==> #[trigger] nodes@[c as int].children@[j] < next,
            decreases nodes@[c as int].children@.len() - m,
        {
            if nodes[c].children[m] >= next {
                assert(!(nodes@[c as int].children@[m as int] < nodes@[i as int].children@[k + 1]));
                return false;
            }
            m += 1;
        }
    }
    true
}

fn checked_node(nodes: &Vec<SyntaxNode>, len: usize, i: usize) -> (r: bool)
    requires
        i < nodes@.len(),
    ensures
        r == node_fits(nodes@, len as nat, i as int),
{
    let node = &nodes[i];
    if !(node.start <= node.end && node.end <= len && node.row < usize::MAX) {
        return false;
    }
    match node.parent {
        Some(p) => if p >= i {
            return false;
        },
        None => if i != 0 {
            return false;
        },
    }
    let mut k: usize = 0;
    while k < node.children.len()
        invariant
            i < nodes@.len(),
            *node == nodes@[i as int],
            k <= node.children@.len(),
            forall|j: int| 0 <= j < k ==> child_fits(nodes@, i as int, j),
        decreases node.children@.len() - k,
    {
        if !checked_child(nodes, i, k) {
            return false;
        }
        k += 1;
    }
    true
}

impl SyntaxTree {
    /// A tree of these nodes over a source, or nothing where they do not make
    /// one.
    pub fn new(source: &str, nodes: Vec<SyntaxNode>) -> (out: Option<SyntaxTree>)
        ensures
            match out {
                Some(t) => t.wf() && t.source() == source@ && t.nodes() == nodes@,
                None => !(0 < nodes@.len() && forall|i: int|
                    0 <= i < nodes@.len() ==> node_fits(nodes@, source@.len(), i)),
            },
    {
        let chars = chars_of(source);
        if nodes.len() == 0 {
            return None;
        }
        let mut i: usize = 0;
        while i < nodes.len()
            invariant
                i <= nodes@.len(),
                chars@ == source@,
                forall|j: int| 0 <= j < i ==> node_fits(nodes@, source@.len(), j),
            decreases nodes@.len() - i,
        {
            if !checked_node(&nodes, chars.len(), i) {
                return None;
            }
            i += 1;
        }
        Some(SyntaxTree { source: chars, nodes })
    }

    /// How many nodes the tree has.
    pub fn len(&self) -> (n: usize)
        ensures
            n == self.nodes().len(),
    {
        self.nodes.len()
    }

    /// A node of the tree.
    pub fn node(&self, i: usize) -> (out: &SyntaxNode)
        requires
            i < self.nodes().len(),
        ensures
            *out == self.nodes()[i as int],
    {
        &self.nodes[i]
    }

    // -----------------------------------------------------------------------
    // Text
    // -----------------------------------------------------------------------

    /// The source that a node covers.
    pub open spec fn text(&self, i: int) -> Seq<char> {
        self.source().subrange(self.nodes()[i].start as int, self.nodes()[i].end as int)
    }

    pub open spec fn kind(&self, i: int) -> Seq<char> {
        self.nodes()[i].kind@
    }

    /// How many characters the source has.
    pub fn source_len(&self) -> (n: usize)
        ensures
            n == self.source().len(),
    {
        self.source.len()
    }

    /// The length of the source is a machine number.
    pub proof fn lemma_source_fits(&self)
        ensures
            self.source().len() <= usize::MAX,
    {
        assert(self.source.len() <= usize::MAX);
    }

    /// The source between two positions.
    pub fn slice(&self, from: usize, to: usize) -> (out: String)
        requires
            from <= to <= self.source().len(),
        ensures
            out@ == self.source().subrange(from as int, to as int),
    {
        let mut out = String::new();
        let mut i: usize = from;
        while i < to
            invariant
                from <= i <= to <= self.source().len(),
                out@ == self.source().subrange(from as int, i as int),
            decreases to - i,
        {
            assert(self.source().subrange(from as int, i + 1) =~= self.source().subrange(from as int, i as int).push(
                self.source()[i as int],
            ));
            out.push(self.source[i]);
            i += 1;
        }
        out
    }

    pub fn text_of(&self, i: usize) -> (out: String)
        requires
            self.wf(),
            i < self.nodes().len(),
        ensures
            out@ == self.text(i as int),
    {
        assert(node_fits(self.nodes(), self.source().len(), i as int));
        self.slice(self.nodes[i].start, self.nodes[i].end)
    }

    pub fn is_kind(&self, i: usize, kind: &str) -> (r: bool)
        requires
            i < self.nodes().len(),
        ensures
            r == (self.kind(i as int) == kind@),
    {
        same(self.nodes[i].kind.as_str(), kind)
    }

    // -----------------------------------------------------------------------
    // Children
    // -----------------------------------------------------------------------

    /// The first of some nodes that fills a field.
    pub open spec fn filling(&self, places: Seq<usize>, field: Seq<char>) -> Option<usize>
        decreases places.len(),
    {
        if places.len() == 0 {
            None
        } else if text::view_opt(self.nodes()[places[0] as int].field) == Some(field) {
            Some(places[0])
        } else {
            self.filling(places.skip(1), field)
        }
    }

    /// The child of a node that fills a field.
    pub open spec fn field(&self, i: int, field: Seq<char>) -> Option<usize> {
        self.filling(self.nodes()[i].children@, field)
    }

    /// Whether a node fills a field of its parent.
    pub fn fills(&self, i: usize, field: &str) -> (r: bool)
        requires
            i < self.nodes().len(),
        ensures
            r == (text::view_opt(self.nodes()[i as int].field) == Some(field@)),
    {
        match &self.nodes[i].field {
            Some(f) => same(f.as_str(), field),
            None => false,
        }
    }

    pub fn field_of(&self, i: usize, field: &str) -> (out: Option<usize>)
        requires
            self.wf(),
            i < self.nodes().len(),
        ensures
            out == self.field(i as int, field@),
            out matches Some(c) ==> i < c < self.nodes().len() && self.nodes()[c as int].start
                >= self.nodes()[i as int].start,
    {
        assert(node_fits(self.nodes(), self.source().len(), i as int));
        let ghost places = self.nodes()[i as int].children@;
        let mut k: usize = 0;
        assert(places.skip(0) =~= places);
        while k < self.nodes[i].children.len()
            invariant
                self.wf(),
                i < self.nodes().len(),
                node_fits(self.nodes(), self.source().len(), i as int),
                places == self.nodes()[i as int].children@,
                k <= places.len(),
                self.filling(places, field@) == self.filling(places.skip(k as int), field@),
            decreases places.len() - k,
        {
            assert(child_fits(self.nodes(), i as int, k as int));
            assert(places.skip(k as int).skip(1) =~= places.skip(k + 1));
            let c: usize = self.nodes[i].children[k];
            if self.fills(c, field) {
                return Some(c);
            }
            k += 1;
        }
        assert(places.skip(k as int).len() == 0);
        None
    }

    /// The places among some that hold named nodes.
    pub open spec fn named(&self, places: Seq<usize>) -> Seq<usize> {
        places.filter(|c: usize| self.nodes()[c as int].named)
    }

    /// The named children of a node.
    pub open spec fn children(&self, i: int) -> Seq<usize> {
        self.named(self.nodes()[i].children@)
    }

    pub fn children_of(&self, i: usize) -> (out: Vec<usize>)
        requires
            self.wf(),
            i < self.nodes().len(),
        ensures
            out@ == self.children(i as int),
            forall|k: int| 0 <= k < out@.len() ==> i < #[trigger] out@[k] < self.nodes().len(),
    {
        assert(node_fits(self.nodes(), self.source().len(), i as int));
        let ghost places = self.nodes()[i as int].children@;
        let ghost named = |c: usize| self.nodes()[c as int].named;
        let mut out: Vec<usize> = Vec::new();
        let mut k: usize = 0;
        assert(places.take(0).filter(named) =~= Seq::<usize>::empty()) by {
            reveal(Seq::filter);
        }
        while k < self.nodes[i].children.len()
            invariant
                self.wf(),
                i < self.nodes().len(),
                node_fits(self.nodes(), self.source().len(), i as int),
                places == self.nodes()[i as int].children@,
                named == (|c: usize| self.nodes()[c as int].named),
                k <= places.len(),
                out@ == places.take(k as int).filter(named),
                forall|j: int| 0 <= j < out@.len() ==> i < #[trigger] out@[j] < self.nodes().len(),
            decreases places.len() - k,
        {
            assert(child_fits(self.nodes(), i as int, k as int));
            proof {
                reveal(Seq::filter);
                assert(places.take(k + 1).drop_last() =~= places.take(k as int));
                assert(places.take(k + 1).last() == places[k as int]);
            }
            let c: usize = self.nodes[i].children[k];
            if self.nodes[c].named {
                out.push(c);
            }
            k += 1;
        }
        assert(places.take(places.len() as int) =~= places);
        out
    }

    // -----------------------------------------------------------------------
    // Walking
    // -----------------------------------------------------------------------

    /// A node and its named descendants, each before its own.
    pub open spec fn walk(&self, i: int) -> Seq<usize>
        decreases self.nodes().len() - i, self.children(i).len() + 1,
        when 0 <= i < self.nodes().len()
    {
        seq![i as usize] + self.walk_children(i, 0)
    }

    /// The named children of a node from the `k`-th on, with their descendants.
    pub open spec fn walk_children(&self, i: int, k: int) -> Seq<usize>
        decreases self.nodes().len() - i, self.children(i).len() - k,
        when 0 <= i < self.nodes().len() && 0 <= k
    {
        if k < self.children(i).len() && i < self.children(i)[k] < self.nodes().len() {
            self.walk(self.children(i)[k] as int) + self.walk_children(i, k + 1)
        } else {
            Seq::empty()
        }
    }

    /// The walks from a stack of places, the last one first.
    spec fn walk_stack(&self, places: Seq<usize>) -> Seq<usize>
        decreases places.len(),
    {
        if places.len() == 0 {
            Seq::empty()
        } else {
            self.walk(places.last() as int) + self.walk_stack(places.drop_last())
        }
    }

    /// Lists a node and its named descendants, each before its own.
    pub fn walk_of(&self, i: usize) -> (out: Vec<usize>)
        requires
            self.wf(),
            i < self.nodes().len(),
        ensures
            out@ == self.walk(i as int),
            forall|k: int| 0 <= k < out@.len() ==> #[trigger] out@[k] < self.nodes().len(),
    {
        let mut out: Vec<usize> = Vec::new();
        let mut pending: Vec<usize> = vec![i];
        assert(pending@.drop_last() =~= Seq::<usize>::empty());
        assert(self.walk_stack(pending@.drop_last()) =~= Seq::<usize>::empty());
        assert(self.walk_stack(pending@) =~= self.walk(i as int));
        while pending.len() > 0
            invariant
                self.wf(),
                i < self.nodes().len(),
                self.walk(i as int) == out@ + self.walk_stack(pending@),
                forall|k: int| 0 <= k < out@.len() ==> #[trigger] out@[k] < self.nodes().len(),
                forall|k: int| 0 <= k < pending@.len() ==> #[trigger] pending@[k] < self.nodes().len(),
            decreases self.walk_stack(pending@).len(),
        {
            let ghost before = pending@;
            let ghost done = out@;
            let n: usize = match pending.pop() {
                Some(n) => n,
                None => 0,
            };
            let ghost below = pending@;
            assert(below =~= before.drop_last());
            out.push(n);
            let next = self.children_of(n);
            let mut k: usize = next.len();
            assert(self.walk_children(n as int, next@.len() as int) =~= Seq::<usize>::empty());
            while k > 0
                invariant
                    self.wf(),
                    n < self.nodes().len(),
                    next@ == self.children(n as int),
                    forall|j: int| 0 <= j < next@.len() ==> n < #[trigger] next@[j] < self.nodes().len(),
                    k <= next@.len(),
                    self.walk_stack(pending@) == self.walk_children(n as int, k as int) + self.walk_stack(below),
                    forall|j: int| 0 <= j < pending@.len() ==> #[trigger] pending@[j] < self.nodes().len(),
                decreases k,
            {
                k -= 1;
                let ghost p = pending@;
                pending.push(next[k]);
                assert(pending@.drop_last() =~= p);
                assert(self.walk_stack(pending@) =~= self.walk_children(n as int, k as int) + self.walk_stack(below));
            }
            assert(out@ + self.walk_stack(pending@) =~= done + self.walk_stack(before));
        }
        assert(self.walk_stack(pending@) =~= Seq::<usize>::empty());
        assert(out@ + self.walk_stack(pending@) =~= out@);
        out
    }

    // -----------------------------------------------------------------------
    // Ancestors
    // -----------------------------------------------------------------------

    /// The start positions of a node's ancestors, the nearest first.
    pub open spec fn scope(&self, i: int) -> Seq<usize>
        decreases i,
        when 0 <= i
    {
        match self.nodes()[i].parent {
            Some(p) => if p < i {
                seq![self.nodes()[p as int].start] + self.scope(p as int)
            } else {
                Seq::empty()
            },
            None => Seq::empty(),
        }
    }

    pub fn scope_of(&self, i: usize) -> (out: Vec<usize>)
        requires
            self.wf(),
            i < self.nodes().len(),
        ensures
            out@ == self.scope(i as int),
    {
        let mut out: Vec<usize> = Vec::new();
        let mut at: usize = i;
        let mut going = true;
        while going
            invariant
                self.wf(),
                i < self.nodes().len(),
                at <= i,
                going ==> self.scope(i as int) == out@ + self.scope(at as int),
                !going ==> self.scope(i as int) == out@,
            decreases at + (if going { 1int } else { 0 }),
        {
            assert(node_fits(self.nodes(), self.source().len(), at as int));
            match self.nodes[at].parent {
                Some(p) => {
                    let ghost before = out@;
                    out.push(self.nodes[p].start);
                    assert(out@ + self.scope(p as int) =~= before + self.scope(at as int));
                    at = p;
                },
                None => {
                    assert(out@ + self.scope(at as int) =~= out@);
                    going = false;
                },
            }
        }
        out
    }
}

} // verus!
