//! Sets of path patterns.
use vstd::prelude::*;
use vstd::string::*;
use crate::text;

verus! {

/// `globset::Glob`, one parsed pattern.
#[verifier::external_type_specification]
#[verifier::external_body]
pub struct ExGlob(globset::Glob);

/// `globset::GlobSetBuilder`, the patterns of a set that is being built.
#[verifier::external_type_specification]
#[verifier::external_body]
pub struct ExGlobSetBuilder(globset::GlobSetBuilder);

/// `globset::GlobSet`, a set of patterns ready for matching.
#[verifier::external_type_specification]
#[verifier::external_body]
pub struct ExGlobSet(globset::GlobSet);

/// The pattern that a glob was parsed from.
pub uninterp spec fn glob_text(glob: globset::Glob) -> Seq<char>;

/// The patterns added to a builder, in the order they were added.
pub uninterp spec fn builder_globs(builder: globset::GlobSetBuilder) -> Seq<Seq<char>>;

/// The patterns that a set was built from.
pub uninterp spec fn set_globs(set: globset::GlobSet) -> Seq<Seq<char>>;

/// `Glob::new` accepts the pattern.
pub uninterp spec fn glob_valid(pattern: Seq<char>) -> bool;

/// `GlobSetBuilder::build` accepts these patterns together.
pub uninterp spec fn globs_build(patterns: Seq<Seq<char>>) -> bool;

/// A pattern alone matches a path, on a platform whose separator is a slash.
pub uninterp spec fn glob_matches(pattern: Seq<char>, path: Seq<char>) -> bool;

/// `globset::Glob::new`: a glob that keeps the pattern it was parsed from, or
/// nothing where the pattern has no valid syntax. Which patterns are valid is
/// left to the name.
#[verifier::external_body]
fn parse_glob(pattern: &str) -> (r: Option<globset::Glob>)
    ensures
        r is Some == glob_valid(pattern@),
        r matches Some(glob) ==> glob_text(glob) == pattern@,
{
    globset::Glob::new(pattern).ok()
}

/// `globset::GlobSetBuilder::new`: a builder without patterns.
#[verifier::external_body]
fn new_builder() -> (r: globset::GlobSetBuilder)
    ensures
        builder_globs(r) == Seq::<Seq<char>>::empty(),
{
    globset::GlobSetBuilder::new()
}

/// `globset::GlobSetBuilder::add` puts a pattern behind those already there.
#[verifier::external_body]
fn add_glob(builder: &mut globset::GlobSetBuilder, glob: globset::Glob)
    ensures
        builder_globs(*final(builder)) == builder_globs(*old(builder)).push(glob_text(glob)),
{
    builder.add(glob);
}

/// `globset::GlobSetBuilder::build`: the set of the patterns added so far.
/// Together they can be too large for the matcher behind the set; when that is
/// so depends on the patterns alone and is left to the name.
#[verifier::external_body]
fn build_set(builder: &globset::GlobSetBuilder) -> (r: Option<globset::GlobSet>)
    ensures
        r is Some == globs_build(builder_globs(*builder)),
        r matches Some(set) ==> set_globs(set) == builder_globs(*builder),
{
    builder.build().ok()
}

/// `globset::GlobSet::empty`: the set without patterns.
#[verifier::external_body]
fn empty_set() -> (r: globset::GlobSet)
    ensures
        set_globs(r) == Seq::<Seq<char>>::empty(),
{
    globset::GlobSet::empty()
}

/// A set of patterns matches a path: one of them does.
pub open spec fn any_matches(patterns: Seq<Seq<char>>, path: Seq<char>) -> bool {
    exists|i: int| 0 <= i < patterns.len() && glob_matches(#[trigger] patterns[i], path)
}

/// `globset::GlobSet::is_match`: some pattern of the set matches the path.
/// Which paths one pattern matches is left to the name.
#[verifier::external_body]
fn set_matches(set: &globset::GlobSet, path: &str) -> (r: bool)
    ensures
        r == (exists|i: int| 0 <= i < set_globs(*set).len() && glob_matches(#[trigger] set_globs(*set)[i], path@)),
{
    set.is_match(path)
}

/// The patterns with valid syntax, or none at all where those cannot be
/// matched together.
pub open spec fn usable(patterns: Seq<Seq<char>>) -> Seq<Seq<char>> {
    let valid = patterns.filter(|p: Seq<char>| glob_valid(p));
    if globs_build(valid) {
        valid
    } else {
        Seq::empty()
    }
}

/// The set that holds exactly these patterns, or nothing where one of them has no
/// valid syntax or they cannot be matched together.
pub open spec fn strict_set(patterns: Seq<Seq<char>>) -> Option<Seq<Seq<char>>> {
    if (forall|i: int| 0 <= i < patterns.len() ==> glob_valid(#[trigger] patterns[i])) && globs_build(patterns) {
        Some(patterns)
    } else {
        None
    }
}

/// A set of path patterns, ready for matching.
pub struct PatternSet {
    set: globset::GlobSet,
}

impl PatternSet {
    /// The patterns of the set.
    pub closed spec fn globs(&self) -> Seq<Seq<char>> {
        set_globs(self.set)
    }

    /// Whether some pattern matches a path.
    pub fn matches(&self, path: &str) -> (r: bool)
        ensures
            r == any_matches(self.globs(), path@),
    {
        set_matches(&self.set, path)
    }

    /// The set of these patterns; an invalid one drops only itself.
    pub fn lenient(patterns: &Vec<String>) -> (out: PatternSet)
        ensures
            out.globs() == usable(text::views(patterns@)),
    {
        broadcast use text::group_views;
        let ghost all = text::views(patterns@);
        let ghost valid = |p: Seq<char>| glob_valid(p);
        let mut builder = new_builder();
        let mut i: usize = 0;
        assert(all.take(0).filter(valid) =~= Seq::<Seq<char>>::empty()) by {
            reveal(Seq::filter);
        }
        while i < patterns.len()
            invariant
                i <= patterns@.len(),
                all == text::views(patterns@),
                valid == (|p: Seq<char>| glob_valid(p)),
                builder_globs(builder) == all.take(i as int).filter(valid),
            decreases patterns@.len() - i,
        {
            broadcast use text::group_views;
            proof {
                reveal(Seq::filter);
                assert(all.take(i + 1).drop_last() =~= all.take(i as int));
                assert(all.take(i + 1).last() == all[i as int]);
            }
            if let Some(glob) = parse_glob(patterns[i].as_str()) {
                add_glob(&mut builder, glob);
            }
            i += 1;
        }
        assert(all.take(all.len() as int) =~= all);
        match build_set(&builder) {
            Some(set) => PatternSet { set },
            None => PatternSet { set: empty_set() },
        }
    }

    /// The set of exactly these patterns, or nothing where they do not make one.
    pub fn strict(patterns: &Vec<String>) -> (out: Option<PatternSet>)
        ensures
            match out {
                Some(set) => strict_set(text::views(patterns@)) == Some(set.globs()),
                None => strict_set(text::views(patterns@)) is None,
            },
    {
        broadcast use text::group_views;
        let ghost all = text::views(patterns@);
        let mut builder = new_builder();
        let mut i: usize = 0;
        while i < patterns.len()
            invariant
                i <= patterns@.len(),
                all == text::views(patterns@),
                forall|j: int| 0 <= j < i ==> glob_valid(#[trigger] all[j]),
                builder_globs(builder) == all.take(i as int),
            decreases patterns@.len() - i,
        {
            broadcast use text::group_views;
            assert(all[i as int] == patterns@[i as int]@);
            assert(all.take(i + 1) =~= all.take(i as int).push(all[i as int]));
            match parse_glob(patterns[i].as_str()) {
                Some(glob) => add_glob(&mut builder, glob),
                None => {
                    assert(!glob_valid(all[i as int]));
                    return None;
                },
            }
            i += 1;
        }
        assert(all.take(all.len() as int) =~= all);
        match build_set(&builder) {
            Some(set) => Some(PatternSet { set }),
            None => None,
        }
    }
}

} // verus!
