//! The rule file: lines, comments, groups, and the rule list they make.

use crate::directive::{group_rule, lemma_group_rule_wf, parse_group, ParseError};
use crate::model::{pattern_wf, Mock, MockView};
use crate::profiles::{default_name, ProfileTable};
use crate::text::{
    chars_of, lemma_split_pieces_hold_no_separator, lemma_trim_holds_no_more, split, split_spans,
    substring, trim, trim_span, trim_start,
};
use vstd::prelude::*;

verus! {

/// The lines of one rule, as they stand in the file: the lines that must
/// occur in a request, then the line that says what to answer.
#[derive(Debug)]
pub struct Group {
    /// The lines before the last, trimmed.
    pub patterns: Vec<String>,
    /// The last line, trimmed.
    pub filenames: String,
    /// The number of the group's first line, counted from 1.
    pub line_number: usize,
}

/// A group as a mathematical value.
pub ghost struct GroupView {
    pub patterns: Seq<Seq<char>>,
    pub filenames: Seq<char>,
    pub line_number: usize,
}

impl View for Group {
    type V = GroupView;

    open spec fn view(&self) -> GroupView {
        GroupView {
            patterns: self.patterns.deep_view(),
            filenames: self.filenames@,
            line_number: self.line_number,
        }
    }
}

impl DeepView for Group {
    type V = GroupView;

    open spec fn deep_view(&self) -> GroupView {
        self@
    }
}

/// A comment: a line whose first character after any whitespace is `#`.
pub open spec fn is_comment(line: Seq<char>) -> bool {
    trim_start(line).len() > 0 && trim_start(line)[0] == '#'
}

/// A line with nothing but whitespace on it.
pub open spec fn is_blank(line: Seq<char>) -> bool {
    trim(line).len() == 0
}

/// How far the reading of a file has come: the groups that are complete, the
/// trimmed lines of the group that is still open, and the number of that
/// group's first line.
pub ghost struct Scan {
    pub groups: Seq<GroupView>,
    pub open: Seq<Seq<char>>,
    pub first: usize,
}

/// Ends the open group, if there is one: its last line is what to answer,
/// the lines before it are its patterns.
pub open spec fn close(scan: Scan) -> Scan {
    if scan.open.len() == 0 {
        scan
    } else {
        Scan {
            groups: scan.groups.push(
                GroupView {
                    patterns: scan.open.drop_last(),
                    filenames: scan.open.last(),
                    line_number: scan.first,
                },
            ),
            open: Seq::empty(),
            first: scan.first,
        }
    }
}

/// The state after the first `k` of `lines`. A comment changes nothing, a
/// blank line ends the open group, and any other line joins the open group,
/// trimmed, or opens one.
pub open spec fn scan(lines: Seq<Seq<char>>, k: int) -> Scan
    decreases k,
{
    if k <= 0 {
        Scan { groups: Seq::empty(), open: Seq::empty(), first: 0 }
    } else {
        let before = scan(lines, k - 1);
        let line = lines[k - 1];
        if is_comment(line) {
            before
        } else if is_blank(line) {
            close(before)
        } else {
            Scan {
                groups: before.groups,
                open: before.open.push(trim(line)),
                first: if before.open.len() == 0 {
                    k as usize
                } else {
                    before.first
                },
            }
        }
    }
}

/// The groups of a rule file, in order.
pub open spec fn groups_of(text: Seq<char>) -> Seq<GroupView> {
    let lines = split(text, '\n');
    close(scan(lines, lines.len() as int)).groups
}

/// The rules that the first `k` of `groups` make, and the profile names they
/// define; or the error of the first group that has one.
pub open spec fn rules_from(groups: Seq<GroupView>, k: int) -> Result<
    (Seq<MockView>, Seq<Seq<char>>),
    ParseError,
>
    decreases k,
{
    if k <= 0 {
        Ok((Seq::empty(), seq![default_name()]))
    } else {
        match rules_from(groups, k - 1) {
            Ok((rules, names)) => {
                let group = groups[k - 1];
                match group_rule(group.patterns, group.filenames, group.line_number, names) {
                    Ok((rule, names)) => Ok((rules.push(rule), names)),
                    Err(error) => Err(error),
                }
            },
            Err(error) => Err(error),
        }
    }
}

/// What a rule file means: its rules, in order, with the ids of the profile
/// names they use, or the error of the first group that is not accepted.
pub open spec fn parse(text: Seq<char>) -> Result<(Seq<MockView>, Seq<Seq<char>>), ParseError> {
    let groups = groups_of(text);
    rules_from(groups, groups.len() as int)
}

/// Ends the open group, if there is one, and hands back the empty list of
/// lines for the next.
fn close_group(done: &mut Vec<Group>, open: Vec<String>, first: usize) -> (rest: Vec<String>)
    ensures
        rest@.len() == 0,
        (Scan { groups: final(done).deep_view(), open: rest.deep_view(), first }) == close(
            (Scan { groups: old(done).deep_view(), open: open.deep_view(), first }),
        ),
        open.len() == 0 ==> final(done).len() == old(done).len(),
        open.len() > 0 ==> final(done).len() == old(done).len() + 1,
{
    let mut open = open;
    let ghost lines = open.deep_view();
    match open.pop() {
        None => {
            proof {
                assert(open.deep_view() =~= lines);
            }
            open
        },
        Some(filenames) => {
            let group = Group { patterns: open, filenames, line_number: first };
            proof {
                assert(group.patterns.deep_view() =~= lines.drop_last());
                assert(group.filenames@ == lines.last());
            }
            done.push(group);
            let rest: Vec<String> = Vec::new();
            proof {
                assert(done.deep_view() =~= old(done).deep_view().push(group@));
                assert(rest.deep_view() =~= Seq::<Seq<char>>::empty());
            }
            rest
        },
    }
}

/// Reads the groups of a rule file.
pub fn read_groups(config_file: &str) -> (groups: Vec<Group>)
    ensures
        groups.deep_view() == groups_of(config_file@),
        3 * groups.len() <= config_file@.len() + 3 <= usize::MAX + 3,
{
    let chars = chars_of(config_file);
    let spans = split_spans(&chars, '\n');
    let ghost lines = split(chars@, '\n');
    let mut done: Vec<Group> = Vec::new();
    let mut open: Vec<String> = Vec::new();
    let mut first: usize = 0;
    let mut k: usize = 0;
    proof {
        assert(done.deep_view() =~= Seq::<GroupView>::empty());
        assert(open.deep_view() =~= Seq::<Seq<char>>::empty());
    }
    while k < spans.len()
        invariant
            k <= spans.len(),
            chars@ == config_file@,
            lines == split(chars@, '\n'),
            spans.len() == lines.len(),
            spans.len() >= 1,
            spans[0].0 == 0,
            spans[spans.len() - 1].1 == chars.len(),
            forall|j: int|
                0 <= j < spans.len() ==> {
                    &&& (#[trigger] spans[j]).0 <= spans[j].1 <= chars.len()
                    &&& chars@.subrange(spans[j].0 as int, spans[j].1 as int) == lines[j]
                },
            forall|j: int|
                0 <= j < spans.len() - 1 ==> (#[trigger] spans[j + 1]).0 == spans[j].1 + 1,
            scan(lines, k as int) == (Scan {
                groups: done.deep_view(),
                open: open.deep_view(),
                first,
            }),
            k < spans.len() ==> (if open.len() == 0 {
                3 * done.len() <= spans[k as int].0 + 1
            } else {
                3 * done.len() + 1 <= spans[k as int].0
            }),
            k == spans.len() ==> (if open.len() == 0 {
                3 * done.len() <= chars.len() + 2
            } else {
                3 * done.len() <= chars.len()
            }),
        decreases spans.len() - k,
    {
        let (from, to) = spans[k];
        let (a, b) = trim_span(&chars, from, to);
        let ghost before = scan(lines, k as int);
        proof {
            assert(lines[k as int] == chars@.subrange(from as int, to as int));
            if k + 1 < spans.len() {
                assert(spans[k + 1].0 == spans[k as int].1 + 1);
            }
        }
        if a < to && chars[a] == '#' {
            proof {
                assert(chars@.subrange(a as int, to as int)[0] == chars@[a as int]);
                assert(is_comment(lines[k as int]));
            }
        } else if a == b {
            proof {
                if a < to {
                    assert(chars@.subrange(a as int, to as int)[0] == chars@[a as int]);
                }
                assert(!is_comment(lines[k as int]));
                assert(is_blank(lines[k as int]));
            }
            open = close_group(&mut done, open, first);
        } else {
            proof {
                if a < to {
                    assert(chars@.subrange(a as int, to as int)[0] == chars@[a as int]);
                }
                assert(!is_comment(lines[k as int]));
                assert(!is_blank(lines[k as int]));
            }
            if open.len() == 0 {
                first = k + 1;
            }
            let ghost lines_before = open.deep_view();
            let line = substring(config_file, a, b);
            open.push(line);
            proof {
                assert(open.deep_view() =~= lines_before.push(trim(lines[k as int])));
            }
        }
        k += 1;
    }
    let _ = close_group(&mut done, open, first);
    done
}

/// What a rule file holds: its rules, in the order in which they are tried,
/// and the ids of the profile names they use.
#[derive(Debug)]
pub struct Config {
    /// The rules, first to last.
    pub rules: Vec<Mock>,
    /// The profile names met while reading, with their ids.
    pub profiles: ProfileTable,
}

/// Reads a rule file. The first group that is not accepted ends the reading
/// with its error.
///
/// Every group needs a line before its last: the last line says what to
/// answer, the lines before it what to ask of a request. A group of a single
/// line is an error, so every rule that is read has a pattern.
pub fn process_config_file(config_file: &str) -> (parsed: Result<Config, ParseError>)
    ensures
        match parse(config_file@) {
            Ok((rules, names)) => {
                &&& parsed matches Ok(config)
                &&& config.rules.deep_view() == rules
                &&& config.profiles@ == names
                &&& config.profiles.wf()
                &&& forall|i: int| 0 <= i < rules.len() ==> (#[trigger] rules[i]).wf()
                &&& forall|i: int| 0 <= i < rules.len() ==> (#[trigger] rules[i]).patterns.len() >= 1
            },
            Err(error) => parsed matches Err(found) && found == error,
        },
{
    let groups = read_groups(config_file);
    let ghost all = groups.deep_view();
    let mut rules: Vec<Mock> = Vec::new();
    let mut profiles = ProfileTable::new();
    proof {
        assert(rules.deep_view() =~= Seq::<MockView>::empty());
        lemma_groups_wf(config_file@);
    }
    for group in it: groups
        invariant
            it.seq() == groups@,
            all == groups.deep_view(),
            all == groups_of(config_file@),
            3 * groups.len() <= usize::MAX + 3,
            rules_from(all, it.index() as int) == Ok::<
                (Seq<MockView>, Seq<Seq<char>>),
                ParseError,
            >((rules.deep_view(), profiles@)),
            profiles.wf(),
            profiles@.len() <= it.index() + 1,
            forall|g: int| 0 <= g < all.len() ==> lines_wf((#[trigger] all[g]).patterns),
            forall|i: int| 0 <= i < rules.len() ==> (#[trigger] rules.deep_view()[i]).wf(),
            forall|i: int|
                0 <= i < rules.len() ==> (#[trigger] rules.deep_view()[i]).patterns.len() >= 1,
    {
        let ghost k = it.index() as int;
        let ghost rules_before = rules.deep_view();
        let ghost names_before = profiles@;
        proof {
            assert(all[k] == group@);
            assert(rules_from(all, k + 1) == match group_rule(
                group@.patterns,
                group@.filenames,
                group@.line_number,
                names_before,
            ) {
                Ok((rule, names)) => Ok::<(Seq<MockView>, Seq<Seq<char>>), ParseError>(
                    (rules_before.push(rule), names),
                ),
                Err(error) => Err(error),
            });
        }
        match parse_group(group.patterns, group.filenames, group.line_number, &mut profiles) {
            Ok(rule) => {
                rules.push(rule);
                proof {
                    assert(rules.deep_view() =~= rules_before.push(rule@));
                    lemma_group_rule_wf(
                        group@.patterns,
                        group@.filenames,
                        group@.line_number,
                        names_before,
                    );
                }
            },
            Err(error) => {
                proof {
                    lemma_error_stays(all, k + 1, all.len() as int);
                }
                return Err(error);
            },
        }
    }
    Ok(Config { rules, profiles })
}

/// Once a group has failed, the groups after it change nothing.
proof fn lemma_error_stays(groups: Seq<GroupView>, k: int, n: int)
    requires
        k <= n,
        rules_from(groups, k) is Err,
    ensures
        rules_from(groups, n) == rules_from(groups, k),
    decreases n - k,
{
    if k < n {
        lemma_error_stays(groups, k, n - 1);
    }
}

/// Each of the lines is a non-empty piece of one line of a file.
pub open spec fn lines_wf(lines: Seq<Seq<char>>) -> bool {
    forall|i: int| 0 <= i < lines.len() ==> pattern_wf(#[trigger] lines[i])
}

/// What has been read of the first `k` lines is made of non-empty pieces of
/// single lines, where the lines themselves hold no line feed.
proof fn lemma_scan_wf(lines: Seq<Seq<char>>, k: int)
    requires
        0 <= k <= lines.len(),
        forall|i: int| 0 <= i < lines.len() ==> !(#[trigger] lines[i]).contains('\n'),
    ensures
        lines_wf(scan(lines, k).open),
        forall|g: int|
            0 <= g < scan(lines, k).groups.len() ==> lines_wf(
                (#[trigger] scan(lines, k).groups[g]).patterns,
            ),
        forall|g: int|
            0 <= g < close(scan(lines, k)).groups.len() ==> lines_wf(
                (#[trigger] close(scan(lines, k)).groups[g]).patterns,
            ),
    decreases k,
{
    if k > 0 {
        lemma_scan_wf(lines, k - 1);
        let line = lines[k - 1];
        if !is_comment(line) && !is_blank(line) {
            lemma_trim_holds_no_more(line, '\n');
        }
    }
}

/// The pattern lines of every group of a rule file are non-empty pieces of
/// single lines.
pub proof fn lemma_groups_wf(text: Seq<char>)
    ensures
        forall|g: int|
            0 <= g < groups_of(text).len() ==> lines_wf((#[trigger] groups_of(text)[g]).patterns),
{
    let lines = split(text, '\n');
    lemma_split_pieces_hold_no_separator(text, '\n');
    lemma_scan_wf(lines, lines.len() as int);
}

} // verus!
