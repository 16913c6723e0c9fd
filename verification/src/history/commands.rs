//! Test commands: one list out of several sources, each command once.
use vstd::prelude::*;
use vstd::string::*;
use crate::order;
use crate::order::ascending_list;
use crate::text;
use crate::text::{append_strings, same};

verus! {

pub const SOURCE_CONVENTION: &'static str = "convention";

pub const SOURCE_INLINE: &'static str = "inline";

pub const SOURCE_FEATURE: &'static str = "feature_test_command";

/// A command that runs tests, and what it covers.
#[derive(Debug)]
pub struct TestCommand {
    pub command: String,
    pub covers: Vec<String>,
    pub framework: String,
    pub source: String,
}

pub struct CommandView {
    pub command: Seq<char>,
    pub covers: Seq<Seq<char>>,
    pub framework: Seq<char>,
    pub source: Seq<char>,
}

impl View for TestCommand {
    type V = CommandView;

    open spec fn view(&self) -> CommandView {
        CommandView {
            command: self.command@,
            covers: text::views(self.covers@),
            framework: self.framework@,
            source: self.source@,
        }
    }
}

pub fn command(line: String, covers: Vec<String>, framework: &str, source: &str) -> (out: TestCommand)
    ensures
        out@ == (CommandView {
            command: line@,
            covers: text::views(covers@),
            framework: framework@,
            source: source@,
        }),
{
    TestCommand { command: line, covers, framework: framework.to_string(), source: source.to_string() }
}

// ---------------------------------------------------------------------------
// One source
// ---------------------------------------------------------------------------

pub open spec fn texts(group: Seq<CommandView>) -> Seq<Seq<char>> {
    group.map_values(|c: CommandView| c.command)
}

/// All that the commands of one text cover, in order.
pub open spec fn covered_by(group: Seq<CommandView>, command: Seq<char>) -> Seq<Seq<char>>
    decreases group.len(),
{
    if group.len() == 0 {
        Seq::empty()
    } else {
        let front = covered_by(group.drop_last(), command);
        if group.last().command == command {
            front + group.last().covers
        } else {
            front
        }
    }
}

/// The first command of a text.
pub open spec fn first_with(group: Seq<CommandView>, command: Seq<char>) -> Option<CommandView>
    decreases group.len(),
{
    if group.len() == 0 {
        None
    } else {
        match first_with(group.drop_last(), command) {
            Some(c) => Some(c),
            None => if group.last().command == command {
                Some(group.last())
            } else {
                None
            },
        }
    }
}

/// The commands of one text as one.
pub open spec fn united(group: Seq<CommandView>, command: Seq<char>) -> CommandView {
    CommandView {
        command,
        covers: order::ascending_set(covered_by(group, command)),
        framework: match first_with(group, command) {
            Some(c) => c.framework,
            None => ""@,
        },
        source: match first_with(group, command) {
            Some(c) => c.source,
            None => ""@,
        },
    }
}

/// The commands of one source, by their text and each once.
pub open spec fn grouped(group: Seq<CommandView>) -> Seq<CommandView> {
    order::ascending_set(texts(group)).map_values(|c: Seq<char>| united(group, c))
}

fn unite(group: &Vec<TestCommand>, text: &str) -> (out: TestCommand)
    ensures
        out@ == united(text::views(group@), text@),
{
    broadcast use text::group_views;
    let ghost all = text::views(group@);
    let mut covers: Vec<String> = Vec::new();
    let mut first: Option<usize> = None;
    let mut i: usize = 0;
    while i < group.len()
        invariant
            i <= group@.len(),
            all == text::views(group@),
            text::views(covers@) == covered_by(all.take(i as int), text@),
            match first {
                Some(f) => f < i && first_with(all.take(i as int), text@) == Some(group@[f as int]@),
                None => first_with(all.take(i as int), text@) is None,
            },
        decreases group@.len() - i,
    {
        broadcast use text::group_views;
        proof {
            assert(all.take(i + 1).drop_last() =~= all.take(i as int));
            assert(all.take(i + 1).last() == group@[i as int]@);
        }
        if same(group[i].command.as_str(), text) {
            append_strings(&mut covers, &group[i].covers);
            if first.is_none() {
                first = Some(i);
            }
        }
        i += 1;
    }
    assert(all.take(all.len() as int) =~= all);
    let covers = ascending_list(&covers);
    match first {
        Some(f) => TestCommand {
            command: text.to_string(),
            covers,
            framework: group[f].framework.clone(),
            source: group[f].source.clone(),
        },
        None => TestCommand {
            command: text.to_string(),
            covers,
            framework: "".to_string(),
            source: "".to_string(),
        },
    }
}

/// Sorts the commands of one source by their text and makes those of one text
/// one.
pub fn finish_group(group: &Vec<TestCommand>) -> (out: Vec<TestCommand>)
    ensures
        text::views(out@) == grouped(text::views(group@)),
{
    broadcast use text::group_views;
    let ghost all = text::views(group@);
    let mut names: Vec<String> = Vec::new();
    let mut i: usize = 0;
    while i < group.len()
        invariant
            i <= group@.len(),
            all == text::views(group@),
            text::views(names@) == texts(all).take(i as int),
        decreases group@.len() - i,
    {
        broadcast use text::group_views;
        assert(texts(all).take(i + 1) =~= texts(all).take(i as int).push(group@[i as int]@.command));
        names.push(group[i].command.clone());
        i += 1;
    }
    assert(texts(all).take(all.len() as int) =~= texts(all));
    let sorted = ascending_list(&names);
    let ghost want = grouped(all);
    let mut out: Vec<TestCommand> = Vec::new();
    let mut k: usize = 0;
    while k < sorted.len()
        invariant
            k <= sorted@.len(),
            all == text::views(group@),
            text::views(sorted@) == order::ascending_set(texts(all)),
            want == grouped(all),
            text::views(out@) == want.take(k as int),
        decreases sorted@.len() - k,
    {
        broadcast use text::group_views;
        assert(want.take(k + 1) =~= want.take(k as int).push(united(all, sorted@[k as int]@)));
        out.push(unite(group, sorted[k].as_str()));
        k += 1;
    }
    assert(want.take(want.len() as int) =~= want);
    out
}

// ---------------------------------------------------------------------------
// Several sources
// ---------------------------------------------------------------------------

/// How specific a source is.
pub open spec fn rank(source: Seq<char>) -> int {
    if source == SOURCE_FEATURE@ {
        3
    } else if source == SOURCE_INLINE@ {
        2
    } else {
        1
    }
}

fn source_rank(source: &str) -> (r: u8)
    ensures
        r == rank(source@),
{
    if same(source, SOURCE_FEATURE) {
        3
    } else if same(source, SOURCE_INLINE) {
        2
    } else {
        1
    }
}

/// Two commands of one text: both coverages, and the more specific source.
pub open spec fn combined(a: CommandView, b: CommandView) -> CommandView {
    CommandView {
        command: a.command,
        covers: order::ascending_set(a.covers + b.covers),
        framework: if rank(b.source) > rank(a.source) {
            b.framework
        } else {
            a.framework
        },
        source: if rank(b.source) > rank(a.source) {
            b.source
        } else {
            a.source
        },
    }
}

/// The place of a text among some commands.
pub open spec fn place_of(list: Seq<CommandView>, command: Seq<char>) -> Option<int>
    decreases list.len(),
{
    if list.len() == 0 {
        None
    } else {
        match place_of(list.drop_last(), command) {
            Some(i) => Some(i),
            None => if list.last().command == command {
                Some(list.len() - 1)
            } else {
                None
            },
        }
    }
}

/// A list with one more command: into the one of its text, else at the end.
pub open spec fn with_command(list: Seq<CommandView>, c: CommandView) -> Seq<CommandView> {
    match place_of(list, c.command) {
        Some(i) => list.update(i, combined(list[i], c)),
        None => list.push(c),
    }
}

pub open spec fn with_commands(list: Seq<CommandView>, more: Seq<CommandView>) -> Seq<CommandView>
    decreases more.len(),
{
    if more.len() == 0 {
        list
    } else {
        with_command(with_commands(list, more.drop_last()), more.last())
    }
}

/// The commands of all sources: those of the edited files themselves first, then
/// the mapped ones, then those of convention.
pub open spec fn all_commands(
    inline: Seq<CommandView>,
    feature: Seq<CommandView>,
    convention: Seq<CommandView>,
) -> Seq<CommandView> {
    with_commands(
        with_commands(with_commands(Seq::empty(), grouped(inline)), grouped(feature)),
        grouped(convention),
    )
}

proof fn lemma_place_of(list: Seq<CommandView>, command: Seq<char>)
    ensures
        match place_of(list, command) {
            Some(i) => 0 <= i < list.len() && list[i].command == command,
            None => forall|j: int| 0 <= j < list.len() ==> (#[trigger] list[j]).command != command,
        },
    decreases list.len(),
{
    if list.len() > 0 {
        let front = list.drop_last();
        lemma_place_of(front, command);
        if place_of(list, command) is None {
            assert forall|j: int| 0 <= j < list.len() implies (#[trigger] list[j]).command != command by {
                if j < front.len() {
                    assert(front[j] == list[j]);
                }
            }
        }
    }
}

fn find_command(list: &Vec<TestCommand>, text: &str) -> (out: Option<usize>)
    ensures
        match out {
            Some(i) => place_of(text::views(list@), text@) == Some(i as int) && i < list@.len(),
            None => place_of(text::views(list@), text@) is None,
        },
{
    broadcast use text::group_views;
    let ghost all = text::views(list@);
    let mut found: Option<usize> = None;
    let mut i: usize = 0;
    while i < list.len()
        invariant
            i <= list@.len(),
            all == text::views(list@),
            match found {
                Some(f) => f < i && place_of(all.take(i as int), text@) == Some(f as int),
                None => place_of(all.take(i as int), text@) is None,
            },
        decreases list@.len() - i,
    {
        broadcast use text::group_views;
        proof {
            assert(all.take(i + 1).drop_last() =~= all.take(i as int));
            assert(all.take(i + 1).last() == list@[i as int]@);
        }
        if found.is_none() && same(list[i].command.as_str(), text) {
            found = Some(i);
        }
        i += 1;
    }
    assert(all.take(all.len() as int) =~= all);
    found
}

fn add_command(list: &mut Vec<TestCommand>, c: TestCommand)
    ensures
        text::views(final(list)@) == with_command(text::views(old(list)@), c@),
{
    broadcast use text::group_views;
    let ghost before = text::views(list@);
    match find_command(list, c.command.as_str()) {
        Some(i) => {
            let mut covers: Vec<String> = Vec::new();
            append_strings(&mut covers, &list[i].covers);
            append_strings(&mut covers, &c.covers);
            assert(text::views(covers@) =~= list@[i as int]@.covers + c@.covers);
            let higher = source_rank(c.source.as_str()) > source_rank(list[i].source.as_str());
            let one = TestCommand {
                command: list[i].command.clone(),
                covers: ascending_list(&covers),
                framework: if higher {
                    c.framework
                } else {
                    list[i].framework.clone()
                },
                source: if higher {
                    c.source
                } else {
                    list[i].source.clone()
                },
            };
            assert(one@ == combined(before[i as int], c@));
            list.set(i, one);
            assert(text::views(list@) =~= before.update(i as int, one@));
        },
        None => {
            list.push(c);
        },
    }
}

fn add_commands(list: &mut Vec<TestCommand>, more: Vec<TestCommand>)
    ensures
        text::views(final(list)@) == with_commands(text::views(old(list)@), text::views(more@)),
{
    broadcast use text::group_views;
    let ghost start = text::views(list@);
    let ghost items = more@;
    let ghost all = text::views(more@);
    for c in it: more
        invariant
            it.seq() == items,
            all == text::views(items),
            text::views(list@) == with_commands(start, all.take(it.index())),
    {
        broadcast use text::group_views;
        proof {
            assert(all.take(it.index() + 1).drop_last() =~= all.take(it.index()));
            assert(all.take(it.index() + 1).last() == c@);
        }
        add_command(list, c);
    }
    assert(all.take(all.len() as int) =~= all);
}

/// Merges the commands of all sources. A command that several give keeps its
/// most specific source and covers what each of them covers.
pub fn merge_commands(
    inline: &Vec<TestCommand>,
    feature: &Vec<TestCommand>,
    convention: &Vec<TestCommand>,
) -> (out: Vec<TestCommand>)
    ensures
        text::views(out@) == all_commands(text::views(inline@), text::views(feature@), text::views(convention@)),
{
    broadcast use text::group_views;
    let mut out: Vec<TestCommand> = Vec::new();
    add_commands(&mut out, finish_group(inline));
    add_commands(&mut out, finish_group(feature));
    add_commands(&mut out, finish_group(convention));
    out
}

/// No text stands twice.
pub open spec fn each_once(list: Seq<CommandView>) -> bool {
    forall|i: int, j: int| 0 <= i < j < list.len() ==> (#[trigger] list[i]).command != (#[trigger] list[j]).command
}

proof fn lemma_with_commands_once(list: Seq<CommandView>, more: Seq<CommandView>)
    requires
        each_once(list),
    ensures
        each_once(with_commands(list, more)),
    decreases more.len(),
{
    if more.len() > 0 {
        lemma_with_commands_once(list, more.drop_last());
        let l = with_commands(list, more.drop_last());
        lemma_place_of(l, more.last().command);
    }
}

/// Merged commands hold no text twice.
pub proof fn law_no_command_is_listed_twice(
    inline: Seq<CommandView>,
    feature: Seq<CommandView>,
    convention: Seq<CommandView>,
)
    ensures
        each_once(all_commands(inline, feature, convention)),
{
    let a = with_commands(Seq::empty(), grouped(inline));
    lemma_with_commands_once(Seq::empty(), grouped(inline));
    let b = with_commands(a, grouped(feature));
    lemma_with_commands_once(a, grouped(feature));
    lemma_with_commands_once(b, grouped(convention));
}

/// Some command covers it.
pub open spec fn covers(list: Seq<CommandView>, command: Seq<char>, x: Seq<char>) -> bool {
    exists|i: int| 0 <= i < list.len() && (#[trigger] list[i]).command == command && list[i].covers.contains(x)
}

/// Merging loses no coverage: what a command covered before, the command of its
/// text covers after.
pub proof fn law_merging_loses_no_coverage(list: Seq<CommandView>, c: CommandView, command: Seq<char>, x: Seq<char>)
    requires
        covers(list, command, x) || (c.command == command && c.covers.contains(x)),
    ensures
        covers(with_command(list, c), command, x),
{
    lemma_place_of(list, c.command);
    let out = with_command(list, c);
    match place_of(list, c.command) {
        Some(i) => {
            let both = list[i].covers + c.covers;
            order::lemma_ascending_set_holds(both);
            if c.command == command && c.covers.contains(x) {
                let k = choose|k: int| 0 <= k < c.covers.len() && c.covers[k] == x;
                assert(both[list[i].covers.len() + k] == x);
                assert(both.contains(x));
                assert(out[i].covers.contains(x));
            } else {
                let j = choose|j: int|
                    0 <= j < list.len() && (#[trigger] list[j]).command == command && list[j].covers.contains(x);
                if j == i {
                    let k = choose|k: int| 0 <= k < list[i].covers.len() && list[i].covers[k] == x;
                    assert(both[k] == x);
                    assert(both.contains(x));
                }
                assert(out[j].command == command && out[j].covers.contains(x));
            }
        },
        None => {
            if c.command == command && c.covers.contains(x) {
                assert(out[list.len() as int] == c);
            } else {
                let j = choose|j: int|
                    0 <= j < list.len() && (#[trigger] list[j]).command == command && list[j].covers.contains(x);
                assert(out[j] == list[j]);
            }
        },
    }
}

} // verus!
