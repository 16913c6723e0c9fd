//! Bounding the log of a project's drift without losing what can be read of it.
use vstd::prelude::*;

verus! {

/// Most bytes of an oversized log that rotation looks at, from its end.
pub const MAX_ROTATE_BYTES: u64 = 8_388_608;

/// A log past this size is rotated before a record is appended.
pub const ROTATE_ABOVE_BYTES: u64 = 1_048_576;

/// Most records that rotation keeps.
pub const MAX_ROTATED_RECORDS: usize = 10_000;

/// `serde_json::from_slice` reads a JSON value from these bytes.
pub uninterp spec fn json_valid(bytes: Seq<u8>) -> bool;

/// `serde_json::from_slice` into a `serde_json::Value` succeeds. Which bytes it
/// accepts is left to the name.
#[verifier::external_body]
fn is_json(bytes: &[u8]) -> (r: bool)
    ensures
        r == json_valid(bytes@),
{
    serde_json::from_slice::<serde_json::Value>(bytes).is_ok()
}

/// The lines of a text: what stands between its newlines.
pub open spec fn byte_lines(s: Seq<u8>) -> Seq<Seq<u8>>
    decreases s.len(),
{
    if s.len() == 0 {
        seq![Seq::<u8>::empty()]
    } else {
        let lines = byte_lines(s.drop_last());
        if s.last() == 10 {
            lines.push(Seq::empty())
        } else {
            lines.drop_last().push(lines.last().push(s.last()))
        }
    }
}

/// What stands behind the first newline.
pub open spec fn after_first_line(s: Seq<u8>) -> Seq<u8>
    decreases s.len(),
{
    if s.len() == 0 {
        s
    } else if s[0] == 10 {
        s.skip(1)
    } else {
        after_first_line(s.skip(1))
    }
}

/// The records of a log: its lines that are JSON, no empty one among them.
pub open spec fn records(content: Seq<u8>) -> Seq<Seq<u8>> {
    byte_lines(content).filter(|line: Seq<u8>| line.len() > 0 && json_valid(line))
}

/// Every line that is not empty is a record.
pub open spec fn clean(content: Seq<u8>) -> bool {
    records(content).len() == byte_lines(content).filter(|line: Seq<u8>| line.len() > 0).len()
}

/// Lines, each with its newline.
pub open spec fn written(lines: Seq<Seq<u8>>) -> Seq<u8>
    decreases lines.len(),
{
    if lines.len() == 0 {
        Seq::empty()
    } else {
        written(lines.drop_last()) + lines.last().push(10)
    }
}

/// The last records, as many as may be kept.
pub open spec fn kept(all: Seq<Seq<u8>>) -> Seq<Seq<u8>> {
    if all.len() > MAX_ROTATED_RECORDS {
        all.skip(all.len() - MAX_ROTATED_RECORDS)
    } else {
        all
    }
}

/// The new content of a log whose last bytes are `bytes`, or nothing where it
/// may stay. `cut` says that the log is longer, so that its first line here is
/// only the end of one.
pub open spec fn rotation(bytes: Seq<u8>, cut: bool) -> Option<Seq<u8>> {
    let content = if cut {
        after_first_line(bytes)
    } else {
        bytes
    };
    let all = records(content);
    if !cut && all.len() <= MAX_ROTATED_RECORDS && clean(content) {
        None
    } else {
        Some(written(kept(all)))
    }
}

proof fn lemma_byte_lines_nonempty(s: Seq<u8>)
    ensures
        byte_lines(s).len() > 0,
    decreases s.len(),
{
    if s.len() > 0 {
        lemma_byte_lines_nonempty(s.drop_last());
    }
}

/// A line of a log, and whether it is JSON.
#[derive(Debug)]
pub struct LogLine {
    pub bytes: Vec<u8>,
    pub json: bool,
}

pub struct LogLineView {
    pub bytes: Seq<u8>,
    pub json: bool,
}

impl View for LogLine {
    type V = LogLineView;

    open spec fn view(&self) -> LogLineView {
        LogLineView { bytes: self.bytes@, json: self.json }
    }
}

/// The bytes of the lines that are records.
pub open spec fn records_among(lines: Seq<LogLineView>) -> Seq<Seq<u8>>
    decreases lines.len(),
{
    if lines.len() == 0 {
        Seq::empty()
    } else {
        let rest = records_among(lines.drop_last());
        if lines.last().bytes.len() > 0 && lines.last().json {
            rest.push(lines.last().bytes)
        } else {
            rest
        }
    }
}

/// How many lines are not empty.
pub open spec fn filled_among(lines: Seq<LogLineView>) -> nat
    decreases lines.len(),
{
    if lines.len() == 0 {
        0
    } else {
        filled_among(lines.drop_last()) + (if lines.last().bytes.len() > 0 {
            1nat
        } else {
            0
        })
    }
}

/// The new content of a log with these lines, or nothing where it may stay.
pub open spec fn rotation_of(lines: Seq<LogLineView>, cut: bool) -> Option<Seq<u8>> {
    let all = records_among(lines);
    if !cut && all.len() <= MAX_ROTATED_RECORDS && all.len() == filled_among(lines) {
        None
    } else {
        Some(written(kept(all)))
    }
}

fn copy_bytes(v: &Vec<u8>, from: usize) -> (out: Vec<u8>)
    requires
        from <= v@.len(),
    ensures
        out@ == v@.skip(from as int),
{
    let mut out: Vec<u8> = Vec::new();
    let mut i: usize = from;
    while i < v.len()
        invariant
            from <= i <= v.len(),
            out@ == v@.subrange(from as int, i as int),
        decreases v.len() - i,
    {
        out.push(v[i]);
        i += 1;
    }
    out
}

fn without_first_line(v: &Vec<u8>) -> (out: Vec<u8>)
    ensures
        out@ == after_first_line(v@),
{
    let mut i: usize = 0;
    assert(v@.skip(0) =~= v@);
    while i < v.len()
        invariant
            i <= v.len(),
            after_first_line(v@) == after_first_line(v@.skip(i as int)),
        decreases v.len() - i,
    {
        assert(v@.skip(i as int).skip(1) =~= v@.skip(i + 1));
        if v[i] == 10 {
            return copy_bytes(v, i + 1);
        }
        i += 1;
    }
    assert(v@.skip(i as int) =~= Seq::<u8>::empty());
    Vec::new()
}

fn lines_of(v: &Vec<u8>) -> (out: Vec<Vec<u8>>)
    ensures
        crate::text::views(out@) == byte_lines(v@),
{
    broadcast use crate::text::group_views;
    let mut out: Vec<Vec<u8>> = Vec::new();
    let mut line: Vec<u8> = Vec::new();
    let mut i: usize = 0;
    while i < v.len()
        invariant
            i <= v.len(),
            byte_lines(v@.take(i as int)) == crate::text::views(out@).push(line@),
        decreases v.len() - i,
    {
        broadcast use crate::text::group_views;
        let ghost lines = byte_lines(v@.take(i as int));
        proof {
            assert(v@.take(i + 1).drop_last() =~= v@.take(i as int));
            assert(v@.take(i + 1).last() == v@[i as int]);
            assert(lines.drop_last() =~= crate::text::views(out@));
        }
        let b = v[i];
        if b == 10 {
            out.push(line);
            line = Vec::new();
            assert(line@ =~= Seq::<u8>::empty());
            assert(crate::text::views(out@) =~= lines);
        } else {
            line.push(b);
        }
        i += 1;
    }
    assert(v@.take(v@.len() as int) =~= v@);
    out.push(line);
    out
}

/// Lines with the answer on each of them.
pub open spec fn answered(lines: Seq<Seq<u8>>) -> Seq<LogLineView> {
    lines.map_values(|line: Seq<u8>| LogLineView { bytes: line, json: json_valid(line) })
}

proof fn lemma_answered(lines: Seq<Seq<u8>>)
    ensures
        records_among(answered(lines)) == lines.filter(|line: Seq<u8>| line.len() > 0 && json_valid(line)),
        filled_among(answered(lines)) == lines.filter(|line: Seq<u8>| line.len() > 0).len(),
    decreases lines.len(),
{
    reveal(Seq::filter);
    if lines.len() > 0 {
        lemma_answered(lines.drop_last());
        assert(answered(lines).drop_last() =~= answered(lines.drop_last()));
    }
}

fn ask(lines: Vec<Vec<u8>>) -> (out: Vec<LogLine>)
    ensures
        crate::text::views(out@) == answered(crate::text::views(lines@)),
{
    broadcast use crate::text::group_views;
    let ghost items = lines@;
    let mut out: Vec<LogLine> = Vec::new();
    for line in it: lines
        invariant
            it.seq() == items,
            crate::text::views(out@) == answered(crate::text::views(items)).take(it.index()),
    {
        broadcast use crate::text::group_views;
        let ghost want = answered(crate::text::views(items));
        assert(want[it.index()].bytes == line@);
        assert(want.take(it.index() + 1) =~= want.take(it.index()).push(want[it.index()]));
        let json = is_json(line.as_slice());
        out.push(LogLine { bytes: line, json });
    }
    assert(crate::text::views(out@) =~= answered(crate::text::views(items)));
    out
}

fn append_bytes(out: &mut Vec<u8>, v: &Vec<u8>)
    ensures
        final(out)@ == old(out)@ + v@,
{
    let ghost start = out@;
    let mut i: usize = 0;
    while i < v.len()
        invariant
            i <= v.len(),
            out@ == start + v@.take(i as int),
        decreases v.len() - i,
    {
        assert(v@.take(i + 1) =~= v@.take(i as int).push(v@[i as int]));
        out.push(v[i]);
        i += 1;
    }
    assert(v@.take(v@.len() as int) =~= v@);
}

/// Bounds a log with these lines: keeps its last records and drops what cannot
/// be read.
pub fn rotate_lines(lines: &Vec<LogLine>, cut: bool) -> (out: Option<Vec<u8>>)
    ensures
        match out {
            Some(v) => rotation_of(crate::text::views(lines@), cut) == Some(v@),
            None => rotation_of(crate::text::views(lines@), cut) is None,
        },
{
    broadcast use crate::text::group_views;
    let ghost seen = crate::text::views(lines@);
    let mut found: Vec<usize> = Vec::new();
    let mut filled: usize = 0;
    let mut i: usize = 0;
    while i < lines.len()
        invariant
            i <= lines.len(),
            seen == crate::text::views(lines@),
            forall|k: int| 0 <= k < found@.len() ==> #[trigger] found@[k] < lines@.len(),
            records_among(seen.take(i as int)).len() == found@.len(),
            forall|k: int|
                0 <= k < found@.len() ==> #[trigger] records_among(seen.take(i as int))[k] == lines@[found@[k] as int].bytes@,
            filled == filled_among(seen.take(i as int)),
            filled <= i,
        decreases lines.len() - i,
    {
        broadcast use crate::text::group_views;
        let ghost before = found@;
        proof {
            assert(seen.take(i + 1).drop_last() =~= seen.take(i as int));
            assert(seen.take(i + 1).last() == lines@[i as int]@);
        }
        if lines[i].bytes.len() > 0 {
            filled += 1;
            if lines[i].json {
                found.push(i);
                assert(forall|k: int| 0 <= k < before.len() ==> found@[k] == before[k]);
            }
        }
        i += 1;
    }
    assert(seen.take(seen.len() as int) =~= seen);
    let n: usize = found.len();
    if !cut && n <= MAX_ROTATED_RECORDS && n == filled {
        return None;
    }
    let from: usize = if n > MAX_ROTATED_RECORDS {
        n - MAX_ROTATED_RECORDS
    } else {
        0
    };
    let ghost all = records_among(seen);
    let ghost tail = all.skip(from as int);
    assert(tail =~= kept(all));
    let mut out: Vec<u8> = Vec::new();
    let mut i: usize = from;
    while i < n
        invariant
            from <= i <= n,
            n == found@.len(),
            n == all.len(),
            tail == all.skip(from as int),
            forall|k: int| 0 <= k < found@.len() ==> #[trigger] found@[k] < lines@.len(),
            forall|k: int| 0 <= k < found@.len() ==> #[trigger] all[k] == lines@[found@[k] as int].bytes@,
            out@ == written(tail.take(i - from)),
        decreases n - i,
    {
        proof {
            assert(tail.take(i - from + 1).drop_last() =~= tail.take(i - from));
            assert(tail.take(i - from + 1).last() == all[i as int]);
        }
        let ghost start = out@;
        let at: usize = found[i];
        append_bytes(&mut out, &lines[at].bytes);
        out.push(10);
        assert(out@ =~= start + all[i as int].push(10));
        i += 1;
    }
    assert(tail.take(tail.len() as int) =~= tail);
    Some(out)
}

/// Bounds a log: keeps its last records and drops what cannot be read.
pub fn rotate_log(bytes: &Vec<u8>, cut: bool) -> (out: Option<Vec<u8>>)
    ensures
        match out {
            Some(v) => rotation(bytes@, cut) == Some(v@),
            None => rotation(bytes@, cut) is None,
        },
{
    let lines = if cut {
        lines_of(&without_first_line(bytes))
    } else {
        lines_of(bytes)
    };
    proof {
        lemma_answered(crate::text::views(lines@));
    }
    rotate_lines(&ask(lines), cut)
}

// ---------------------------------------------------------------------------
// Laws
// ---------------------------------------------------------------------------

pub open spec fn one_line(line: Seq<u8>) -> bool {
    !line.contains(10)
}

proof fn lemma_lines_hold_no_newline(s: Seq<u8>, i: int)
    requires
        0 <= i < byte_lines(s).len(),
    ensures
        one_line(byte_lines(s)[i]),
    decreases s.len(),
{
    if s.len() > 0 {
        let lines = byte_lines(s.drop_last());
        lemma_byte_lines_nonempty(s.drop_last());
        if i < lines.len() - 1 || (i == lines.len() - 1 && s.last() == 10) {
            lemma_lines_hold_no_newline(s.drop_last(), i);
        } else if s.last() != 10 {
            lemma_lines_hold_no_newline(s.drop_last(), i);
            let line = byte_lines(s)[i];
            assert(line == lines.last().push(s.last()));
            assert forall|j: int| 0 <= j < line.len() implies line[j] != 10 by {
                if j < lines.last().len() {
                    assert(lines.last()[j] != 10);
                }
            }
        }
    }
}

proof fn lemma_lines_of_one_more(s: Seq<u8>, line: Seq<u8>)
    requires
        one_line(line),
    ensures
        byte_lines(s + line) == byte_lines(s).drop_last().push(byte_lines(s).last() + line),
    decreases line.len(),
{
    lemma_byte_lines_nonempty(s);
    let lines = byte_lines(s);
    if line.len() == 0 {
        assert(s + line =~= s);
        assert(lines.last() + line =~= lines.last());
        assert(lines.drop_last().push(lines.last()) =~= lines);
    } else {
        let front = line.drop_last();
        assert(one_line(front)) by {
            assert forall|j: int| 0 <= j < front.len() implies front[j] != 10 by {
                assert(line[j] != 10);
            }
        }
        lemma_lines_of_one_more(s, front);
        assert(line[line.len() - 1] != 10);
        assert((s + line).drop_last() =~= s + front);
        assert((s + line).last() == line.last());
        let mid = byte_lines(s + front);
        assert(mid.drop_last() =~= lines.drop_last());
        assert((lines.last() + front).push(line.last()) =~= lines.last() + line);
    }
}

/// What has been written line by line reads back as the same lines.
proof fn lemma_written_reads_back(lines: Seq<Seq<u8>>)
    requires
        forall|i: int| 0 <= i < lines.len() ==> one_line(#[trigger] lines[i]),
    ensures
        byte_lines(written(lines)) == lines.push(Seq::empty()),
    decreases lines.len(),
{
    if lines.len() == 0 {
        assert(byte_lines(written(lines)) =~= lines.push(Seq::empty()));
    } else {
        let front = lines.drop_last();
        assert forall|i: int| 0 <= i < front.len() implies one_line(#[trigger] front[i]) by {
            assert(front[i] == lines[i]);
        }
        lemma_written_reads_back(front);
        let start = written(front);
        let line = lines.last();
        assert(one_line(lines[lines.len() - 1]));
        lemma_lines_of_one_more(start, line);
        let mid = byte_lines(start + line);
        assert(byte_lines(start).drop_last() =~= front);
        assert(Seq::<u8>::empty() + line =~= line);
        assert(mid =~= lines);
        let whole = written(lines);
        assert(whole.drop_last() =~= start + line);
        assert(whole.last() == 10);
    }
}

proof fn lemma_filter_keeps_all(lines: Seq<Seq<u8>>, p: spec_fn(Seq<u8>) -> bool)
    requires
        forall|i: int| 0 <= i < lines.len() ==> p(#[trigger] lines[i]),
    ensures
        lines.filter(p) == lines,
    decreases lines.len(),
{
    reveal(Seq::filter);
    if lines.len() > 0 {
        let front = lines.drop_last();
        assert forall|i: int| 0 <= i < front.len() implies p(#[trigger] front[i]) by {
            assert(front[i] == lines[i]);
        }
        lemma_filter_keeps_all(front, p);
        assert(p(lines[lines.len() - 1]));
        assert(front.push(lines.last()) =~= lines);
    } else {
        assert(lines.filter(p) =~= lines);
    }
}

proof fn lemma_filter_holds(lines: Seq<Seq<u8>>, p: spec_fn(Seq<u8>) -> bool, i: int)
    requires
        0 <= i < lines.filter(p).len(),
    ensures
        p(lines.filter(p)[i]),
        lines.contains(lines.filter(p)[i]),
    decreases lines.len(),
{
    reveal(Seq::filter);
    if lines.len() > 0 {
        let front = lines.drop_last();
        let kept = front.filter(p);
        if i < kept.len() {
            lemma_filter_holds(front, p, i);
            let j = choose|j: int| 0 <= j < front.len() && front[j] == kept[i];
            assert(lines[j] == kept[i]);
        } else {
            assert(lines[lines.len() - 1] == lines.last());
        }
    }
}

/// Rotation settles: a log that was just rotated needs no rotation, and its
/// records are the last ones of the log before, in the same order.
pub proof fn law_rotation_settles(bytes: Seq<u8>, cut: bool)
    requires
        rotation(bytes, cut) is Some,
    ensures
        ({
            let content = if cut {
                after_first_line(bytes)
            } else {
                bytes
            };
            let after = rotation(bytes, cut)->0;
            &&& records(after) == kept(records(content))
            &&& rotation(after, false) is None
        }),
{
    let content = if cut {
        after_first_line(bytes)
    } else {
        bytes
    };
    let good = |line: Seq<u8>| line.len() > 0 && json_valid(line);
    let some = |line: Seq<u8>| line.len() > 0;
    let lines = byte_lines(content);
    let all = records(content);
    let tail = kept(all);
    assert forall|i: int| 0 <= i < tail.len() implies one_line(#[trigger] tail[i]) && good(tail[i]) && some(tail[i]) by {
        let k = i + (all.len() - tail.len());
        assert(tail[i] == all[k]);
        lemma_filter_holds(lines, good, k);
        let j = choose|j: int| 0 <= j < lines.len() && lines[j] == all[k];
        lemma_lines_hold_no_newline(content, j);
    }
    lemma_written_reads_back(tail);
    let after = written(tail);
    let again = byte_lines(after);
    assert(again.drop_last() =~= tail);
    reveal(Seq::filter);
    lemma_filter_keeps_all(tail, good);
    lemma_filter_keeps_all(tail, some);
    assert(again.filter(good) == tail);
    assert(again.filter(some) == tail);
}

} // verus!
