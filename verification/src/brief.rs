//! What to know of a file before editing it: its history, the files that
//! change with it, and the tests that are named after it.
use vstd::prelude::*;
use vstd::string::*;
use crate::text;
use crate::text::{rsplit_once, same, split_once, strip_prefix, strip_suffix, to_lowercase};

verus! {

/// How many coupled files a brief names.
pub const MAX_COUPLED: usize = 5;

/// How many tests a brief names.
pub const MAX_TESTS: usize = 5;

/// The fewest commits from which a churn rank means anything.
pub const MIN_COMMITS_FOR_CHURN: u32 = 5;

/// The shortest stem that identifies a source.
pub const MIN_STEM_CHARS: usize = 3;

/// A file name up to its first dot.
pub open spec fn bare_name(path: Seq<char>) -> Seq<char> {
    let name = match text::split_last(path, "/"@) {
        Some((_, name)) => name,
        None => path,
    };
    match text::split_first(name, "."@) {
        Some((stem, _)) => stem,
        None => name,
    }
}

fn bare_name_of<'a>(path: &'a str) -> (out: &'a str)
    ensures
        out@ == bare_name(path@),
{
    let name = match rsplit_once(path, "/") {
        Some((_, name)) => name,
        None => path,
    };
    match split_once(name, ".") {
        Some((stem, _)) => stem,
        None => name,
    }
}

/// A name without the first marker of a test that it carries, at its beginning
/// or else at its end.
pub open spec fn without_affix(stem: Seq<char>) -> Option<Seq<char>> {
    if text::starts_with(stem, "test_"@) {
        text::after_prefix(stem, "test_"@)
    } else if text::starts_with(stem, "test-"@) {
        text::after_prefix(stem, "test-"@)
    } else if text::ends_with(stem, "_test"@) {
        text::before_suffix(stem, "_test"@)
    } else if text::ends_with(stem, "-test"@) {
        text::before_suffix(stem, "-test"@)
    } else if text::ends_with(stem, "_spec"@) {
        text::before_suffix(stem, "_spec"@)
    } else if text::ends_with(stem, "-spec"@) {
        text::before_suffix(stem, "-spec"@)
    } else if text::ends_with(stem, "tests"@) {
        text::before_suffix(stem, "tests"@)
    } else if text::ends_with(stem, "test"@) {
        text::before_suffix(stem, "test"@)
    } else {
        text::before_suffix(stem, "spec"@)
    }
}

/// The name without its test marker; `None` where it carries none.
pub fn strip_one_test_affix<'a>(stem: &'a str) -> (out: Option<&'a str>)
    ensures
        match out {
            Some(rest) => without_affix(stem@) == Some(rest@),
            None => without_affix(stem@) is None,
        },
{
    if let Some(rest) = strip_prefix(stem, "test_") {
        return Some(rest);
    }
    if let Some(rest) = strip_prefix(stem, "test-") {
        return Some(rest);
    }
    if let Some(rest) = strip_suffix(stem, "_test") {
        return Some(rest);
    }
    if let Some(rest) = strip_suffix(stem, "-test") {
        return Some(rest);
    }
    if let Some(rest) = strip_suffix(stem, "_spec") {
        return Some(rest);
    }
    if let Some(rest) = strip_suffix(stem, "-spec") {
        return Some(rest);
    }
    if let Some(rest) = strip_suffix(stem, "tests") {
        return Some(rest);
    }
    if let Some(rest) = strip_suffix(stem, "test") {
        return Some(rest);
    }
    strip_suffix(stem, "spec")
}

/// A test's stem is that of a source, with at most one test marker.
pub open spec fn stem_names(test: Seq<char>, source: Seq<char>) -> bool {
    source.len() >= MIN_STEM_CHARS && (test == source || without_affix(test) == Some(source))
}

/// Whether a test is named after a source, by their lower-case stems. A short
/// stem is too common to identify a source.
pub fn stem_names_source(test: &str, source: &str) -> (r: bool)
    ensures
        r == stem_names(test@, source@),
{
    if source.unicode_len() < MIN_STEM_CHARS {
        return false;
    }
    if same(test, source) {
        return true;
    }
    match strip_one_test_affix(test) {
        Some(rest) => same(rest, source),
        None => false,
    }
}

/// A test file is named after a source file.
pub open spec fn names_source(test: Seq<char>, source: Seq<char>) -> bool {
    stem_names(text::lowercased(bare_name(test)), text::lowercased(bare_name(source)))
}

pub fn test_names_source(test_path: &str, source_path: &str) -> (r: bool)
    ensures
        r == names_source(test_path@, source_path@),
{
    let source = to_lowercase(bare_name_of(source_path));
    let test = to_lowercase(bare_name_of(test_path));
    stem_names_source(test.as_str(), source.as_str())
}

/// A test of the source's own stem, or of that stem behind `test_`, is named
/// after the source.
pub proof fn law_a_stem_names_its_source(source: Seq<char>)
    requires
        source.len() >= MIN_STEM_CHARS,
    ensures
        stem_names(source, source),
        stem_names("test_"@ + source, source),
{
    let t = "test_"@ + source;
    assert(t.subrange(0, "test_"@.len() as int) =~= "test_"@);
    assert(text::occurs_at(t, "test_"@, 0));
    assert(t.skip("test_"@.len() as int) =~= source);
}

/// What a brief says.
#[derive(Debug)]
pub struct EditBrief {
    pub file_path: String,
    pub fix_count: Option<u32>,
    pub commits: Option<u32>,
    pub coupled: Vec<String>,
    pub tests: Vec<String>,
    pub stale: bool,
    pub hotspot: bool,
    pub empty: bool,
}

/// What the history knows of a file: its fixes and its commits, and whether
/// its churn ranks among the highest.
#[derive(Debug, Clone, Copy)]
pub struct BriefHistory {
    pub fix_count: u32,
    pub commits: u32,
    pub churn_notable: bool,
}

/// The first tests that are named after a file, up to a number.
pub open spec fn own_tests(recommended: Seq<Seq<char>>, file: Seq<char>, max: nat) -> Seq<Seq<char>>
    decreases recommended.len(),
{
    if recommended.len() == 0 {
        Seq::empty()
    } else {
        let before = own_tests(recommended.drop_last(), file, max);
        if before.len() < max && names_source(recommended.last(), file) {
            before.push(recommended.last())
        } else {
            before
        }
    }
}

fn pick_own_tests(recommended: &Vec<String>, file: &str) -> (out: Vec<String>)
    ensures
        text::views(out@) == own_tests(text::views(recommended@), file@, MAX_TESTS as nat),
{
    broadcast use text::group_views;
    let ghost all = text::views(recommended@);
    let mut out: Vec<String> = Vec::new();
    let mut i: usize = 0;
    while i < recommended.len()
        invariant
            i <= recommended.len(),
            all == text::views(recommended@),
            text::views(out@) == own_tests(all.take(i as int), file@, MAX_TESTS as nat),
        decreases recommended.len() - i,
    {
        broadcast use text::group_views;
        assert(all.take(i + 1).drop_last() =~= all.take(i as int));
        assert(all[i as int] == recommended@[i as int]@);
        assert(text::views(out@).len() == out@.len());
        if out.len() < MAX_TESTS && test_names_source(recommended[i].as_str(), file) {
            out.push(recommended[i].clone());
        }
        i += 1;
    }
    assert(all.take(recommended.len() as int) =~= all);
    out
}

/// The text on disk is known and is not the indexed one.
pub open spec fn differs(on_disk: Option<Seq<char>>, indexed: Option<Seq<char>>) -> bool {
    on_disk is Some && indexed is Some && on_disk->0 != indexed->0
}

/// What a brief says of a file.
pub open spec fn briefs(
    out: EditBrief,
    file_path: Seq<char>,
    history: Option<BriefHistory>,
    coupled: Vec<String>,
    recommended: Vec<String>,
    on_disk_hash: Option<String>,
    indexed_hash: Option<String>,
) -> bool {
    &&& out.file_path@ == file_path
    &&& out.fix_count == (match history {
        Some(h) => Some(h.fix_count),
        None => None,
    })
    &&& out.commits == (match history {
        Some(h) => Some(h.commits),
        None => None,
    })
    &&& out.coupled@ == coupled@.take(if coupled@.len() < MAX_COUPLED {
        coupled@.len() as int
    } else {
        MAX_COUPLED as int
    })
    &&& text::views(out.tests@) == own_tests(
        text::views(recommended@),
        file_path,
        MAX_TESTS as nat,
    )
    &&& out.stale == differs(text::view_opt(on_disk_hash), text::view_opt(indexed_hash))
    &&& out.hotspot == (history is Some && history->0.churn_notable && history->0.commits
        >= MIN_COMMITS_FOR_CHURN)
    &&& out.empty == (out.tests.len() == 0 && out.coupled.len() == 0 && !out.hotspot)
}

/// A brief for one file: what its history says, the files coupled with it,
/// strongest first, the tests recommended for it, and the hashes of its text
/// on disk and in the index where they are known. A brief without tests,
/// coupled files or a notable churn has nothing to say.
pub fn build_edit_brief(
    file_path: &str,
    history: Option<BriefHistory>,
    coupled: Vec<String>,
    recommended: &Vec<String>,
    on_disk_hash: &Option<String>,
    indexed_hash: &Option<String>,
) -> (out: EditBrief)
    ensures
        briefs(out, file_path@, history, coupled, *recommended, *on_disk_hash, *indexed_hash),
{
    let tests = pick_own_tests(recommended, file_path);
    let mut near = coupled;
    near.truncate(MAX_COUPLED);
    assert(near@ =~= coupled@.take(near@.len() as int));
    let stale = match (on_disk_hash, indexed_hash) {
        (Some(a), Some(b)) => !same(a.as_str(), b.as_str()),
        _ => false,
    };
    let (fix_count, commits, hotspot) = match history {
        Some(h) => (
            Some(h.fix_count),
            Some(h.commits),
            h.churn_notable && h.commits >= MIN_COMMITS_FOR_CHURN,
        ),
        None => (None, None, false),
    };
    let empty = tests.len() == 0 && near.len() == 0 && !hotspot;
    EditBrief {
        file_path: file_path.to_string(),
        fix_count,
        commits,
        coupled: near,
        tests,
        stale,
        hotspot,
        empty,
    }
}

} // verus!
