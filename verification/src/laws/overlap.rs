//! Where branches touch the same files.
use vstd::prelude::*;
use crate::branch_overlap;
use crate::branch_overlap::RefView;
use crate::order;
use crate::paths;
use crate::text;

verus! {

/// Manifests, lock files, housekeeping and generated files are noise, and so is
/// everything below a directory of tools, builds, dependencies or translations.
pub proof fn law_noise_is_what_branches_share_anyway(path: Seq<char>, n: Seq<char>, d: Seq<char>, i: int)
    requires
        paths::parts(path).len() > 0,
        n == paths::parts(path).last(),
        0 <= i < paths::parts(path).len(),
        d == text::lowered(paths::parts(path)[i]),
    ensures
        n == "Cargo.toml"@ || n == "package.json"@ || n == "composer.json"@ || n == "go.mod"@ || n
            == "pyproject.toml"@ || n == "Pipfile"@ || n == "requirements.txt"@ || n == "Gemfile"@ || n == "setup.py"@
            || n == "pom.xml"@ || n == "build.gradle"@ || n == "build.gradle.kts"@ ==> branch_overlap::noise(path),
        n == "Cargo.lock"@ || n == "package-lock.json"@ || n == "yarn.lock"@ || n == "pnpm-lock.yaml"@ || n
            == "bun.lock"@ || n == "bun.lockb"@ || n == "composer.lock"@ || n == "go.sum"@ || n == "poetry.lock"@ || n
            == "uv.lock"@ || n == "Pipfile.lock"@ || n == "Gemfile.lock"@ || n == "npm-shrinkwrap.json"@
            ==> branch_overlap::noise(path),
        n == ".gitlab-ci.yml"@ || n == "azure-pipelines.yml"@ || n == "Jenkinsfile"@ || n == "CHANGELOG.md"@ || n
            == "NEWS"@ || n == ".DS_Store"@ || text::starts_with(text::lowered(n), "changelog"@)
            ==> branch_overlap::noise(path),
        text::ends_with(n, ".min.js"@) || text::ends_with(n, ".min.css"@) || text::ends_with(n, ".map"@)
            || text::ends_with(n, ".pb.go"@) || text::ends_with(n, "_pb2.py"@) || text::ends_with(n, "_pb2_grpc.py"@)
            || text::ends_with(n, ".po"@) || text::ends_with(n, ".mo"@) || text::ends_with(n, ".prefab"@)
            || text::ends_with(n, ".meta"@) || text::ends_with(n, ".asset"@) ==> branch_overlap::noise(path),
        d == ".git"@ || d == ".github"@ || d == ".circleci"@ || d == "node_modules"@ || d == "vendor"@ || d == "target"@
            || d == "dist"@ || d == "build"@ || d == "__pycache__"@ || d == "generated"@ || d == "__generated__"@ || d
            == "locales"@ || d == "locale"@ || d == "localization"@ || d == "i18n"@ || d == "translations"@
            ==> branch_overlap::noise(path),
        path.len() > 0 && path[0] == '/' ==> branch_overlap::noise(path),
        paths::parts(path).contains(".."@) ==> branch_overlap::noise(path),
{
}

/// Nothing else is noise: a path inside the project whose name and directories
/// are none of those counts.
pub proof fn law_ordinary_files_are_no_noise(path: Seq<char>)
    requires
        paths::parts(path).len() > 0,
        !(path.len() > 0 && path[0] == '/'),
        !paths::parts(path).contains(".."@),
        ({
            let n = paths::parts(path).last();
            &&& n != "Cargo.toml"@ && n != "package.json"@ && n != "composer.json"@ && n != "go.mod"@ && n
                != "pyproject.toml"@ && n != "Pipfile"@ && n != "requirements.txt"@ && n != "Gemfile"@ && n
                != "setup.py"@ && n != "pom.xml"@ && n != "build.gradle"@ && n != "build.gradle.kts"@
            &&& n != "Cargo.lock"@ && n != "package-lock.json"@ && n != "yarn.lock"@ && n != "pnpm-lock.yaml"@ && n
                != "bun.lock"@ && n != "bun.lockb"@ && n != "composer.lock"@ && n != "go.sum"@ && n != "poetry.lock"@
                && n != "uv.lock"@ && n != "Pipfile.lock"@ && n != "Gemfile.lock"@ && n != "npm-shrinkwrap.json"@
            &&& n != ".gitlab-ci.yml"@ && n != "azure-pipelines.yml"@ && n != "Jenkinsfile"@ && n != "CHANGELOG.md"@
                && n != "NEWS"@ && n != ".DS_Store"@ && !text::starts_with(text::lowered(n), "changelog"@)
            &&& !text::ends_with(n, ".min.js"@) && !text::ends_with(n, ".min.css"@) && !text::ends_with(n, ".map"@)
                && !text::ends_with(n, ".pb.go"@) && !text::ends_with(n, "_pb2.py"@) && !text::ends_with(
                n,
                "_pb2_grpc.py"@,
            ) && !text::ends_with(n, ".po"@) && !text::ends_with(n, ".mo"@) && !text::ends_with(n, ".prefab"@)
                && !text::ends_with(n, ".meta"@) && !text::ends_with(n, ".asset"@)
        }),
        forall|i: int|
            0 <= i < paths::parts(path).len() ==> ({
                let d = text::lowered(#[trigger] paths::parts(path)[i]);
                d != ".git"@ && d != ".github"@ && d != ".circleci"@ && d != "node_modules"@ && d != "vendor"@ && d
                    != "target"@ && d != "dist"@ && d != "build"@ && d != "__pycache__"@ && d != "generated"@ && d
                    != "__generated__"@ && d != "locales"@ && d != "locale"@ && d != "localization"@ && d != "i18n"@
                    && d != "translations"@
            }),
    ensures
        !branch_overlap::noise(path),
{
}

/// A branch overlaps in the files that its diff and the change share, noise
/// aside; each is named once, ascending.
pub proof fn law_branches_overlap_in_the_files_they_share(
    files: Seq<Seq<char>>,
    diff: Seq<Seq<char>>,
    x: Seq<char>,
)
    ensures
        branch_overlap::counting(files).contains(x) <==> files.contains(x) && !branch_overlap::noise(x),
        branch_overlap::overlap(branch_overlap::counting(files), diff).contains(x) <==> diff.contains(x) && x.len() > 0
            && files.contains(x) && !branch_overlap::noise(x),
{
    broadcast use {vstd::seq_lib::group_filter_ensures, vstd::seq::Seq::lemma_filter_contains_rev};

    let targets = branch_overlap::counting(files);
    if targets.contains(x) {
        let i = choose|i: int| 0 <= i < targets.len() && targets[i] == x;
        assert(!branch_overlap::noise(targets[i]));
    }
    if files.contains(x) && !branch_overlap::noise(x) {
        let i = choose|i: int| 0 <= i < files.len() && files[i] == x;
        assert(targets.contains(files[i]));
    }
    let p = |p: Seq<char>| p.len() > 0 && targets.contains(p);
    let shared = diff.filter(p);
    order::lemma_ascending_set_holds(shared);
    assert(branch_overlap::overlap(targets, diff) == order::ascending_set(shared));
    if shared.contains(x) {
        let i = choose|i: int| 0 <= i < shared.len() && shared[i] == x;
        diff.lemma_filter_pred(p, i);
        diff.lemma_filter_contains_rev(p, x);
    }
    if diff.contains(x) && p(x) {
        let i = choose|i: int| 0 <= i < diff.len() && diff[i] == x;
        diff.lemma_filter_contains(p, i);
    }
}

/// A row shows up to five of the files, the first ones, and counts them all.
pub proof fn law_a_row_shows_five_files_and_counts_all(r: RefView, base: Seq<char>, files: Seq<Seq<char>>)
    ensures
        ({
            let row = branch_overlap::row_of(r, base, files);
            &&& row.files_total == files.len()
            &&& files.len() <= 5 ==> row.files == files
            &&& files.len() > 5 ==> row.files == files.take(5)
            &&& row.branch == r.name
            &&& row.commit == r.sha
            &&& row.merge_base == base
        }),
{
}

/// A line names a ref where it has a commit, a name and no symbolic target, and
/// the commit is not the head.
pub proof fn law_a_ref_is_read_from_its_line(sha: Seq<char>, name: Seq<char>, target: Seq<char>, line: Seq<char>, head: Seq<char>)
    requires
        text::pieces(line, '\t') == seq![sha, name, target],
    ensures
        target.len() == 0 && sha != head ==> branch_overlap::ref_in(line, head) == Some(RefView { sha: sha, name: name }),
        target.len() > 0 || sha == head ==> branch_overlap::ref_in(line, head) is None,
{
}

/// Every ref that a line names is taken, in order.
pub proof fn law_every_ref_is_taken(lines: Seq<Seq<char>>, line: Seq<char>, head: Seq<char>)
    ensures
        branch_overlap::refs_in(Seq::empty(), head) == Seq::<RefView>::empty(),
        branch_overlap::ref_in(line, head) matches Some(r) ==> branch_overlap::refs_in(lines.push(line), head)
            == branch_overlap::refs_in(lines, head).push(r),
        branch_overlap::ref_in(line, head) is None ==> branch_overlap::refs_in(lines.push(line), head)
            == branch_overlap::refs_in(lines, head),
{
    assert(lines.push(line).drop_last() =~= lines);
}

/// A text between quotes is escaped character by character.
pub proof fn law_a_text_is_escaped_piece_by_piece(a: Seq<char>, b: Seq<char>)
    ensures
        branch_overlap::escaped(a + b) == branch_overlap::escaped(a) + branch_overlap::escaped(b),
    decreases b.len(),
{
    if b.len() == 0 {
        assert(a + b =~= a);
        assert(branch_overlap::escaped(a) + branch_overlap::escaped(b) =~= branch_overlap::escaped(a));
    } else {
        law_a_text_is_escaped_piece_by_piece(a, b.drop_last());
        assert((a + b).drop_last() =~= a + b.drop_last());
        assert(branch_overlap::escaped(a + b) =~= branch_overlap::escaped(a) + branch_overlap::escaped(b));
    }
}

proof fn lemma_nothing_to_escape(s: Seq<char>)
    requires
        forall|i: int| 0 <= i < s.len() ==> ' ' <= (#[trigger] s[i]) <= '~' && s[i] != '"' && s[i] != '\\',
    ensures
        branch_overlap::escaped(s) == s,
    decreases s.len(),
{
    if s.len() > 0 {
        let front = s.drop_last();
        assert forall|i: int| 0 <= i < front.len() implies ' ' <= (#[trigger] front[i]) <= '~' && front[i] != '"'
            && front[i] != '\\' by {
            assert(front[i] == s[i]);
        }
        lemma_nothing_to_escape(front);
        assert(s[s.len() - 1] == s.last());
        assert(front + seq![s.last()] =~= s);
    } else {
        assert(branch_overlap::escaped(s) =~= s);
    }
}

/// A name of ordinary characters is shown as it is, between quotes; a quote or a
/// backslash in it gets a backslash before it.
pub proof fn law_an_ordinary_name_is_shown_between_quotes(s: Seq<char>)
    requires
        forall|i: int|
            0 <= i < s.len() ==> ' ' <= (#[trigger] s[i]) <= '~' && s[i] != '"' && s[i] != '\\' && s[i] != '\'',
    ensures
        branch_overlap::quotation(s) == seq!['"'] + s + seq!['"'],
        branch_overlap::escaped(seq!['"']) == seq!['\\', '"'],
        branch_overlap::escaped(seq!['\\']) == seq!['\\', '\\'],
        branch_overlap::escaped(seq!['\n']) == seq!['\\', 'n'],
        branch_overlap::escaped(seq!['\t']) == seq!['\\', 't'],
        branch_overlap::escaped(seq!['\r']) == seq!['\\', 'r'],
{
    lemma_nothing_to_escape(s);
    assert forall|i: int| 0 <= i < s.len() implies branch_overlap::plain_char(#[trigger] s[i]) by {
    }
    lemma_one_escaped('"');
    lemma_one_escaped('\\');
    lemma_one_escaped('\n');
    lemma_one_escaped('\t');
    lemma_one_escaped('\r');
}

proof fn lemma_one_escaped(c: char)
    ensures
        branch_overlap::escaped(seq![c]) == branch_overlap::escaped_char(c),
{
    let one = seq![c];
    assert(one.drop_last() =~= Seq::<char>::empty());
    assert(branch_overlap::escaped(one.drop_last()) =~= Seq::<char>::empty());
    assert(branch_overlap::escaped(one) =~= branch_overlap::escaped_char(c));
}

} // verus!
