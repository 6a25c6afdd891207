//! The checks a rule list must pass before it is served: every response file
//! is there, every profile can be reached, and no rule hides a later one.

use crate::model::{Command, Mock, MockView, ANY_PROFILE, DEFAULT_PROFILE};
use crate::text::{chars_of, contains, contains_chars, split, split_spans, substring, trim, trim_span};
use std::collections::HashSet;
use vstd::prelude::*;

verus! {

/// The pieces, each trimmed, without those that trimming leaves empty.
pub open spec fn tokens(pieces: Seq<Seq<char>>) -> Seq<Seq<char>>
    decreases pieces.len(),
{
    if pieces.len() == 0 {
        Seq::empty()
    } else {
        let before = tokens(pieces.drop_last());
        let token = trim(pieces.last());
        if token.len() > 0 {
            before.push(token)
        } else {
            before
        }
    }
}

/// The files that the last line of a rule's group names: its tokens between
/// semicolons, without the first where the line starts with a backtick, since
/// that token is the directive.
pub open spec fn files_of(filenames: Seq<char>) -> Seq<Seq<char>> {
    let all = tokens(split(filenames, ';'));
    if filenames.len() > 0 && filenames[0] == '`' && all.len() > 0 {
        all.drop_first()
    } else {
        all
    }
}

/// The files to stream for a rule whose group ends with the line
/// `filenames`, in the order in which they are streamed.
pub fn response_files(filenames: &str) -> (files: Vec<String>)
    ensures
        files.deep_view() == files_of(filenames@),
{
    let chars = chars_of(filenames);
    let spans = split_spans(&chars, ';');
    let ghost pieces = split(chars@, ';');
    let mut files: Vec<String> = Vec::new();
    let mut k: usize = 0;
    proof {
        assert(pieces.take(0) =~= Seq::<Seq<char>>::empty());
        assert(files.deep_view() =~= Seq::<Seq<char>>::empty());
    }
    while k < spans.len()
        invariant
            k <= spans.len(),
            chars@ == filenames@,
            pieces == split(chars@, ';'),
            spans.len() == pieces.len(),
            forall|j: int|
                0 <= j < spans.len() ==> {
                    &&& (#[trigger] spans[j]).0 <= spans[j].1 <= chars.len()
                    &&& chars@.subrange(spans[j].0 as int, spans[j].1 as int) == pieces[j]
                },
            files.deep_view() == tokens(pieces.take(k as int)),
        decreases spans.len() - k,
    {
        let (from, to) = spans[k];
        let (a, b) = trim_span(&chars, from, to);
        let ghost before = files.deep_view();
        proof {
            assert(pieces.take(k + 1).drop_last() =~= pieces.take(k as int));
            assert(pieces.take(k + 1).last() == pieces[k as int]);
        }
        if a < b {
            let file = substring(filenames, a, b);
            files.push(file);
            proof {
                assert(files.deep_view() =~= before.push(trim(pieces[k as int])));
            }
        }
        k += 1;
    }
    proof {
        assert(pieces.take(k as int) =~= pieces);
    }
    if chars.len() > 0 && chars[0] == '`' && files.len() > 0 {
        let ghost all = files.deep_view();
        let _ = files.remove(0);
        proof {
            assert(files.deep_view() =~= all.drop_first());
        }
    }
    files
}

/// `pattern` occurs in one of the patterns `by`.
pub open spec fn covered(pattern: Seq<char>, by: Seq<Seq<char>>) -> bool {
    exists|j: int| 0 <= j < by.len() && contains(#[trigger] by[j], pattern)
}

/// Each of `patterns` occurs in one of the patterns `by`.
pub open spec fn all_covered(patterns: Seq<Seq<char>>, by: Seq<Seq<char>>) -> bool {
    forall|i: int| 0 <= i < patterns.len() ==> covered(#[trigger] patterns[i], by)
}

/// `head`, standing before `tail` in a rule list, hides it: `head` is active
/// in every profile or in the same one, both wait for the same time or for
/// none, and whatever `head` asks of a request, a pattern of `tail` asks too.
pub open spec fn shadows(head: MockView, tail: MockView) -> bool {
    &&& head.profile == ANY_PROFILE || head.profile == tail.profile
    &&& head.time == tail.time
    &&& all_covered(head.patterns, tail.patterns)
}

/// No rule of the list hides a later one.
pub open spec fn no_shadowing(rules: Seq<MockView>) -> bool {
    forall|h: int, t: int| 0 <= h < t < rules.len() ==> !shadows(rules[h], rules[t])
}

/// The characters of each text.
fn chars_of_each(texts: &Vec<String>) -> (all: Vec<Vec<char>>)
    ensures
        all.len() == texts.len(),
        forall|i: int| 0 <= i < all.len() ==> (#[trigger] all[i])@ == texts[i]@,
{
    let mut all: Vec<Vec<char>> = Vec::new();
    let mut i: usize = 0;
    while i < texts.len()
        invariant
            i <= texts.len(),
            all.len() == i,
            forall|k: int| 0 <= k < i ==> (#[trigger] all[k])@ == texts[k]@,
        decreases texts.len() - i,
    {
        all.push(chars_of(texts[i].as_str()));
        i += 1;
    }
    all
}

/// Whether `pattern` occurs in one of the texts `by`.
fn is_covered(pattern: &Vec<char>, by: &Vec<Vec<char>>) -> (b: bool)
    ensures
        b == (exists|j: int| 0 <= j < by.len() && contains((#[trigger] by[j])@, pattern@)),
{
    let mut j: usize = 0;
    while j < by.len()
        invariant
            j <= by.len(),
            forall|k: int| 0 <= k < j ==> !contains((#[trigger] by[k])@, pattern@),
        decreases by.len() - j,
    {
        if contains_chars(&by[j], pattern) {
            return true;
        }
        j += 1;
    }
    false
}

/// Whether two optional durations are the same.
fn same_time(a: Option<u64>, b: Option<u64>) -> (same: bool)
    ensures
        same == (a == b),
{
    match (a, b) {
        (None, None) => true,
        (Some(x), Some(y)) => x == y,
        _ => false,
    }
}

/// Whether `head`, standing before `tail`, hides it.
pub fn shadowed(head: &Mock, tail: &Mock) -> (b: bool)
    ensures
        b == shadows(head@, tail@),
{
    if head.profile != ANY_PROFILE && head.profile != tail.profile {
        return false;
    }
    if !same_time(head.time, tail.time) {
        return false;
    }
    let wanted = chars_of_each(&head.patterns);
    let by = chars_of_each(&tail.patterns);
    let mut i: usize = 0;
    while i < wanted.len()
        invariant
            i <= wanted.len(),
            wanted.len() == head.patterns.len(),
            by.len() == tail.patterns.len(),
            forall|k: int| 0 <= k < wanted.len() ==> (#[trigger] wanted[k])@ == head.patterns[k]@,
            forall|k: int| 0 <= k < by.len() ==> (#[trigger] by[k])@ == tail.patterns[k]@,
            forall|k: int| 0 <= k < i ==> covered(#[trigger] head@.patterns[k], tail@.patterns),
        decreases wanted.len() - i,
    {
        let found = is_covered(&wanted[i], &by);
        proof {
            let pattern = head@.patterns[i as int];
            assert(pattern == wanted[i as int]@);
            if found {
                let j = choose|j: int| 0 <= j < by.len() && contains((#[trigger] by[j])@, pattern);
                assert(contains(tail@.patterns[j], pattern));
            } else {
                assert forall|j: int| 0 <= j < tail@.patterns.len() implies !contains(
                    #[trigger] tail@.patterns[j],
                    pattern,
                ) by {
                    assert(by[j]@ == tail@.patterns[j]);
                }
            }
        }
        if !found {
            return false;
        }
        i += 1;
    }
    true
}

/// `a` comes before `b` when pairs are ordered by their first part, then by
/// their second.
pub open spec fn pair_before(a: (usize, usize), b: (usize, usize)) -> bool {
    a.0 < b.0 || (a.0 == b.0 && a.1 < b.1)
}

/// The pairs of rules of which the first hides the second, as positions in
/// the list: each such pair once, ordered by the hiding rule and then by the
/// hidden one.
pub fn shadowing_pairs(config: &Vec<Mock>) -> (pairs: Vec<(usize, usize)>)
    ensures
        forall|k: int|
            0 <= k < pairs.len() ==> {
                &&& (#[trigger] pairs[k]).0 < pairs[k].1 < config.len()
                &&& shadows(config[pairs[k].0 as int]@, config[pairs[k].1 as int]@)
            },
        forall|h: int, t: int|
            0 <= h < t < config.len() && shadows(config[h]@, config[t]@) ==> pairs@.contains(
                (h as usize, t as usize),
            ),
        forall|a: int, b: int| 0 <= a < b < pairs.len() ==> pair_before(pairs[a], pairs[b]),
        pairs.len() == 0 <==> no_shadowing(config.deep_view()),
{
    let mut pairs: Vec<(usize, usize)> = Vec::new();
    let mut h: usize = 0;
    while h < config.len()
        invariant
            h <= config.len(),
            forall|k: int|
                0 <= k < pairs.len() ==> {
                    &&& (#[trigger] pairs[k]).0 < pairs[k].1 < config.len()
                    &&& pairs[k].0 < h
                    &&& shadows(config[pairs[k].0 as int]@, config[pairs[k].1 as int]@)
                },
            forall|x: int, t: int|
                0 <= x < t < config.len() && x < h && shadows(config[x]@, config[t]@)
                    ==> pairs@.contains((x as usize, t as usize)),
            forall|a: int, b: int| 0 <= a < b < pairs.len() ==> pair_before(pairs[a], pairs[b]),
        decreases config.len() - h,
    {
        let mut t: usize = h + 1;
        while t < config.len()
            invariant
                h < t <= config.len(),
                forall|k: int|
                    0 <= k < pairs.len() ==> {
                        &&& (#[trigger] pairs[k]).0 < pairs[k].1 < config.len()
                        &&& pairs[k].0 <= h
                        &&& pairs[k].0 == h ==> pairs[k].1 < t
                        &&& shadows(config[pairs[k].0 as int]@, config[pairs[k].1 as int]@)
                    },
                forall|x: int, y: int|
                    0 <= x < y < config.len() && (x < h || (x == h && y < t)) && shadows(
                        config[x]@,
                        config[y]@,
                    ) ==> pairs@.contains((x as usize, y as usize)),
                forall|a: int, b: int|
                    0 <= a < b < pairs.len() ==> pair_before(pairs[a], pairs[b]),
            decreases config.len() - t,
        {
            if shadowed(&config[h], &config[t]) {
                let ghost before = pairs@;
                pairs.push((h, t));
                proof {
                    assert(pairs@[before.len() as int] == (h, t));
                    assert forall|x: int, y: int|
                        0 <= x < y < config.len() && (x < h || (x == h && y < t + 1)) && shadows(
                            config[x]@,
                            config[y]@,
                        ) implies pairs@.contains((x as usize, y as usize)) by {
                        if x == h && y == t {
                        } else {
                            assert(before.contains((x as usize, y as usize)));
                            let k = choose|k: int|
                                0 <= k < before.len() && before[k] == (x as usize, y as usize);
                            assert(pairs@[k] == (x as usize, y as usize));
                        }
                    }
                }
            }
            t += 1;
        }
        h += 1;
    }
    proof {
        let rules = config.deep_view();
        if pairs.len() == 0 {
            assert forall|x: int, y: int| 0 <= x < y < rules.len() implies !shadows(
                rules[x],
                rules[y],
            ) by {
                if shadows(config[x]@, config[y]@) {
                    assert(pairs@.contains((x as usize, y as usize)));
                }
            }
        } else {
            let first = pairs[0];
            assert(shadows(rules[first.0 as int], rules[first.1 as int]));
        }
    }
    pairs
}

/// Whether no rule of the list hides a later one.
pub fn verify_mocks_dont_shadow_each_other(config: &Vec<Mock>) -> (ok: bool)
    ensures
        ok == no_shadowing(config.deep_view()),
{
    shadowing_pairs(config).len() == 0
}

/// Some rule of the list switches to `profile`.
pub open spec fn switched_to(rules: Seq<MockView>, profile: isize) -> bool {
    exists|j: int|
        0 <= j < rules.len() && (#[trigger] rules[j]).command == Command::Profile
            && rules[j].destination_profile == profile
}

/// The rule is scoped to a profile of its own, which some rule has to switch
/// to before it can ever be chosen, and none does.
pub open spec fn unreachable(rules: Seq<MockView>, rule: MockView) -> bool {
    &&& rule.profile != DEFAULT_PROFILE
    &&& rule.profile != ANY_PROFILE
    &&& !switched_to(rules, rule.profile)
}

/// Every rule that is scoped to a profile of its own can be reached.
pub open spec fn profiles_referenced(rules: Seq<MockView>) -> bool {
    forall|i: int| 0 <= i < rules.len() ==> !unreachable(rules, #[trigger] rules[i])
}

/// The profiles that the rules of the list switch to.
pub fn referenced_profiles(config: &Vec<Mock>) -> (referenced: HashSet<isize>)
    ensures
        forall|profile: isize|
            referenced@.contains(profile) <==> switched_to(config.deep_view(), profile),
{
    broadcast use vstd::std_specs::hash::group_hash_axioms;

    let mut referenced: HashSet<isize> = HashSet::new();
    let mut j: usize = 0;
    while j < config.len()
        invariant
            j <= config.len(),
            forall|profile: isize|
                referenced@.contains(profile) <==> switched_to(
                    config.deep_view().take(j as int),
                    profile,
                ),
        decreases config.len() - j,
    {
        let ghost before = config.deep_view().take(j as int);
        let ghost after = config.deep_view().take(j + 1);
        let ghost rule = config.deep_view()[j as int];
        proof {
            assert(rule == config[j as int]@);
            assert forall|profile: isize|
                switched_to(after, profile) <==> (switched_to(before, profile) || (rule.command
                    == Command::Profile && rule.destination_profile == profile)) by {
                if switched_to(after, profile) {
                    let k = choose|k: int|
                        0 <= k < after.len() && (#[trigger] after[k]).command == Command::Profile
                            && after[k].destination_profile == profile;
                    if k < j {
                        assert(before[k] == after[k]);
                    }
                }
                if switched_to(before, profile) {
                    let k = choose|k: int|
                        0 <= k < before.len() && (#[trigger] before[k]).command == Command::Profile
                            && before[k].destination_profile == profile;
                    assert(after[k] == before[k]);
                }
                if rule.command == Command::Profile && rule.destination_profile == profile {
                    assert(after[j as int] == rule);
                }
            }
        }
        if config[j].command == Command::Profile {
            referenced.insert(config[j].destination_profile);
        }
        j += 1;
    }
    proof {
        assert(config.deep_view().take(j as int) =~= config.deep_view());
    }
    referenced
}

/// The positions, in rising order, of the rules that are scoped to a profile
/// to which no rule switches.
pub fn unreferenced_profiles(config: &Vec<Mock>) -> (found: Vec<usize>)
    ensures
        forall|k: int|
            0 <= k < found.len() ==> (#[trigger] found[k]) < config.len() && unreachable(
                config.deep_view(),
                config[found[k] as int]@,
            ),
        forall|i: int|
            0 <= i < config.len() && unreachable(config.deep_view(), config[i]@)
                ==> found@.contains(i as usize),
        forall|a: int, b: int| 0 <= a < b < found.len() ==> found[a] < found[b],
        found.len() == 0 <==> profiles_referenced(config.deep_view()),
{
    broadcast use vstd::std_specs::hash::group_hash_axioms;

    let referenced = referenced_profiles(config);
    let mut found: Vec<usize> = Vec::new();
    let mut i: usize = 0;
    while i < config.len()
        invariant
            i <= config.len(),
            forall|profile: isize|
                referenced@.contains(profile) <==> switched_to(config.deep_view(), profile),
            forall|k: int|
                0 <= k < found.len() ==> (#[trigger] found[k]) < i && unreachable(
                    config.deep_view(),
                    config[found[k] as int]@,
                ),
            forall|x: int|
                0 <= x < i && unreachable(config.deep_view(), config[x]@) ==> found@.contains(
                    x as usize,
                ),
            forall|a: int, b: int| 0 <= a < b < found.len() ==> found[a] < found[b],
        decreases config.len() - i,
    {
        let profile = config[i].profile;
        if profile != DEFAULT_PROFILE && profile != ANY_PROFILE && !referenced.contains(&profile) {
            let ghost before = found@;
            found.push(i);
            proof {
                assert(found@[before.len() as int] == i);
                assert forall|x: int|
                    0 <= x < i + 1 && unreachable(
                        config.deep_view(),
                        config[x]@,
                    ) implies found@.contains(x as usize) by {
                    if x < i {
                        assert(before.contains(x as usize));
                        let k = choose|k: int| 0 <= k < before.len() && before[k] == x as usize;
                        assert(found@[k] == x as usize);
                    }
                }
            }
        }
        i += 1;
    }
    proof {
        let rules = config.deep_view();
        if found.len() == 0 {
            assert forall|x: int| 0 <= x < rules.len() implies !unreachable(
                rules,
                #[trigger] rules[x],
            ) by {
                if unreachable(rules, config[x]@) {
                    assert(found@.contains(x as usize));
                }
            }
        } else {
            assert(unreachable(rules, rules[found[0] as int]));
        }
    }
    found
}

/// Whether every rule that is scoped to a profile of its own can be reached:
/// some rule switches to that profile.
pub fn verify_all_profiles_are_referenced(config: &Vec<Mock>) -> (ok: bool)
    ensures
        ok == profiles_referenced(config.deep_view()),
{
    unreferenced_profiles(config).len() == 0
}

/// A response file as a rule names it.
#[derive(Debug)]
pub struct FileRef {
    /// The file's path, as written in the rule file.
    pub file: String,
    /// The line on which the group of the rule begins.
    pub line_number: usize,
}

/// A mention of a response file as a mathematical value.
pub ghost struct FileRefView {
    pub file: Seq<char>,
    pub line_number: usize,
}

impl View for FileRef {
    type V = FileRefView;

    open spec fn view(&self) -> FileRefView {
        FileRefView { file: self.file@, line_number: self.line_number }
    }
}

impl DeepView for FileRef {
    type V = FileRefView;

    open spec fn deep_view(&self) -> FileRefView {
        self@
    }
}

/// The mentions that a rule on `line_number` makes of `files`, in order.
pub open spec fn mentions_of(files: Seq<Seq<char>>, line_number: usize) -> Seq<FileRefView> {
    Seq::new(files.len(), |j: int| FileRefView { file: files[j], line_number })
}

/// Every mention of a response file in the rule list, in order: rule by
/// rule, and within a rule in the order in which its files are streamed.
pub open spec fn mentions(rules: Seq<MockView>) -> Seq<FileRefView>
    decreases rules.len(),
{
    if rules.len() == 0 {
        Seq::empty()
    } else {
        mentions(rules.drop_last()) + mentions_of(
            files_of(rules.last().filenames),
            rules.last().line_number,
        )
    }
}

/// One of `refs` mentions `file`.
pub open spec fn mentioned(refs: Seq<FileRefView>, file: Seq<char>) -> bool {
    exists|k: int| 0 <= k < refs.len() && (#[trigger] refs[k]).file == file
}

/// The first mention of each file that is not among `present`, in order.
pub open spec fn missing(refs: Seq<FileRefView>, present: Set<Seq<char>>) -> Seq<FileRefView>
    decreases refs.len(),
{
    if refs.len() == 0 {
        Seq::empty()
    } else {
        let before = missing(refs.drop_last(), present);
        let last = refs.last();
        if present.contains(last.file) || mentioned(refs.drop_last(), last.file) {
            before
        } else {
            before.push(last)
        }
    }
}

/// Some rule of the list streams `file`.
pub open spec fn streams(rules: Seq<MockView>, file: Seq<char>) -> bool {
    exists|i: int, j: int|
        0 <= i < rules.len() && 0 <= j < files_of(rules[i].filenames).len() && #[trigger] files_of(
            rules[i].filenames,
        )[j] == file
}

/// Every file that a rule of the list streams is among `present`.
pub open spec fn files_present(rules: Seq<MockView>, present: Set<Seq<char>>) -> bool {
    forall|file: Seq<char>| #[trigger] streams(rules, file) ==> present.contains(file)
}

/// Nothing is missing exactly when every mentioned file is present.
pub proof fn lemma_missing_none(refs: Seq<FileRefView>, present: Set<Seq<char>>)
    ensures
        missing(refs, present).len() == 0 <==> (forall|k: int|
            0 <= k < refs.len() ==> present.contains((#[trigger] refs[k]).file)),
        forall|k: int|
            0 <= k < missing(refs, present).len() ==> !present.contains(
                (#[trigger] missing(refs, present)[k]).file,
            ) && mentioned(refs, missing(refs, present)[k].file),
    decreases refs.len(),
{
    if refs.len() > 0 {
        let front = refs.drop_last();
        let last = refs.last();
        lemma_missing_none(front, present);
        assert forall|k: int| 0 <= k < front.len() implies #[trigger] front[k] == refs[k] by {}
        if missing(refs, present).len() == 0 {
            assert forall|k: int| 0 <= k < refs.len() implies present.contains(
                (#[trigger] refs[k]).file,
            ) by {
                if k < front.len() {
                    assert(front[k] == refs[k]);
                } else if !present.contains(last.file) {
                    let m = choose|m: int| 0 <= m < front.len() && (#[trigger] front[m]).file == last.file;
                    assert(present.contains(front[m].file));
                }
            }
        }
        if forall|k: int| 0 <= k < refs.len() ==> present.contains((#[trigger] refs[k]).file) {
            assert(present.contains(refs[refs.len() - 1].file));
            assert forall|k: int| 0 <= k < front.len() implies present.contains(
                (#[trigger] front[k]).file,
            ) by {
                assert(front[k] == refs[k]);
            }
        }
        assert forall|k: int| 0 <= k < missing(refs, present).len() implies !present.contains(
            (#[trigger] missing(refs, present)[k]).file,
        ) && mentioned(refs, missing(refs, present)[k].file) by {
            let entry = missing(refs, present)[k];
            if k < missing(front, present).len() {
                assert(entry == missing(front, present)[k]);
                let m = choose|m: int| 0 <= m < front.len() && (#[trigger] front[m]).file == entry.file;
                assert(refs[m].file == entry.file);
            } else {
                assert(entry == last);
                assert(refs[refs.len() - 1].file == entry.file);
            }
        }
    }
}

/// The files that the list mentions are the files that its rules stream.
pub proof fn lemma_mentions_cover(rules: Seq<MockView>, file: Seq<char>)
    ensures
        mentioned(mentions(rules), file) <==> streams(rules, file),
    decreases rules.len(),
{
    if rules.len() > 0 {
        let front = rules.drop_last();
        let last = rules.last();
        let files = files_of(last.filenames);
        let tail = mentions_of(files, last.line_number);
        lemma_mentions_cover(front, file);
        if mentioned(mentions(rules), file) {
            let k = choose|k: int|
                0 <= k < mentions(rules).len() && (#[trigger] mentions(rules)[k]).file == file;
            if k < mentions(front).len() {
                assert(mentions(front)[k].file == file);
                let (i, j) = choose|i: int, j: int|
                    0 <= i < front.len() && 0 <= j < files_of(front[i].filenames).len()
                        && #[trigger] files_of(front[i].filenames)[j] == file;
                assert(front[i] == rules[i]);
                assert(files_of(rules[i].filenames)[j] == file);
            } else {
                let j = k - mentions(front).len();
                assert(tail[j].file == file);
                assert(files_of(rules[rules.len() - 1].filenames)[j] == file);
            }
        }
        if streams(rules, file) {
            let (i, j) = choose|i: int, j: int|
                0 <= i < rules.len() && 0 <= j < files_of(rules[i].filenames).len()
                    && #[trigger] files_of(rules[i].filenames)[j] == file;
            if i < front.len() {
                assert(front[i] == rules[i]);
                assert(files_of(front[i].filenames)[j] == file);
                let k = choose|k: int|
                    0 <= k < mentions(front).len() && (#[trigger] mentions(front)[k]).file == file;
                assert(mentions(rules)[k].file == file);
            } else {
                assert(tail[j].file == file);
                assert(mentions(rules)[mentions(front).len() + j].file == file);
            }
        }
    }
}

/// Whether `text` is one of `list`.
fn holds(list: &Vec<String>, text: &String) -> (b: bool)
    ensures
        b == list.deep_view().contains(text@),
{
    let mut k: usize = 0;
    while k < list.len()
        invariant
            k <= list.len(),
            forall|m: int| 0 <= m < k ==> list.deep_view()[m] != text@,
        decreases list.len() - k,
    {
        if list[k] == *text {
            proof {
                assert(list.deep_view()[k as int] == text@);
            }
            return true;
        }
        k += 1;
    }
    false
}

/// The first mention of each response file that is not among `present`:
/// what has to be reported before the rule list can be served.
pub fn missing_files(config: &Vec<Mock>, present: &Vec<String>) -> (found: Vec<FileRef>)
    ensures
        found.deep_view() == missing(mentions(config.deep_view()), present.deep_view().to_set()),
{
    let ghost rules = config.deep_view();
    let ghost there = present.deep_view().to_set();
    let mut found: Vec<FileRef> = Vec::new();
    let mut seen: Vec<String> = Vec::new();
    let mut i: usize = 0;
    proof {
        assert(rules.take(0) =~= Seq::<MockView>::empty());
        assert(found.deep_view() =~= Seq::<FileRefView>::empty());
    }
    while i < config.len()
        invariant
            i <= config.len(),
            rules == config.deep_view(),
            there == present.deep_view().to_set(),
            found.deep_view() == missing(mentions(rules.take(i as int)), there),
            forall|file: Seq<char>|
                seen.deep_view().contains(file) <==> mentioned(mentions(rules.take(i as int)), file),
        decreases config.len() - i,
    {
        let files = response_files(config[i].filenames.as_str());
        let line_number = config[i].line_number;
        let ghost earlier = mentions(rules.take(i as int));
        let mut j: usize = 0;
        proof {
            assert(mentions_of(files.deep_view().take(0), line_number) =~= Seq::<
                FileRefView,
            >::empty());
            assert(earlier + Seq::<FileRefView>::empty() =~= earlier);
        }
        while j < files.len()
            invariant
                j <= files.len(),
                i < config.len(),
                rules == config.deep_view(),
                there == present.deep_view().to_set(),
                earlier == mentions(rules.take(i as int)),
                found.deep_view() == missing(
                    earlier + mentions_of(files.deep_view().take(j as int), line_number),
                    there,
                ),
                forall|file: Seq<char>|
                    seen.deep_view().contains(file) <==> mentioned(
                        earlier + mentions_of(files.deep_view().take(j as int), line_number),
                        file,
                    ),
            decreases files.len() - j,
        {
            let ghost refs = earlier + mentions_of(files.deep_view().take(j as int), line_number);
            let ghost next = earlier + mentions_of(files.deep_view().take(j + 1), line_number);
            let ghost entry = FileRefView { file: files[j as int]@, line_number };
            let ghost found_before = found.deep_view();
            let ghost seen_before = seen.deep_view();
            proof {
                assert(next =~= refs.push(entry));
                assert(next.drop_last() =~= refs);
                assert(next.last() == entry);
                assert forall|file: Seq<char>| mentioned(next, file) <==> (mentioned(refs, file)
                    || file == entry.file) by {
                    if mentioned(next, file) {
                        let k = choose|k: int|
                            0 <= k < next.len() && (#[trigger] next[k]).file == file;
                        if k < refs.len() {
                            assert(refs[k].file == file);
                        }
                    }
                    if mentioned(refs, file) {
                        let k = choose|k: int|
                            0 <= k < refs.len() && (#[trigger] refs[k]).file == file;
                        assert(next[k].file == file);
                    }
                    if file == entry.file {
                        assert(next[refs.len() as int].file == file);
                    }
                }
            }
            let file = files[j].clone();
            if !holds(&seen, &file) {
                if !holds(present, &file) {
                    found.push(FileRef { file: file.clone(), line_number });
                    proof {
                        assert(found.deep_view() =~= found_before.push(entry));
                    }
                }
                seen.push(file);
                proof {
                    assert(seen.deep_view() =~= seen_before.push(entry.file));
                    assert forall|other: Seq<char>|
                        seen.deep_view().contains(other) <==> (seen_before.contains(other) || other
                            == entry.file) by {
                        if seen_before.contains(other) {
                            let k = choose|k: int|
                                0 <= k < seen_before.len() && seen_before[k] == other;
                            assert(seen.deep_view()[k] == other);
                        }
                        if other == entry.file {
                            assert(seen.deep_view()[seen_before.len() as int] == other);
                        }
                    }
                }
            } else {
                proof {
                    assert(seen_before.contains(entry.file));
                }
            }
            proof {
                assert forall|other: Seq<char>|
                    seen.deep_view().contains(other) <==> mentioned(next, other) by {
                    assert(seen_before.contains(other) <==> mentioned(refs, other));
                }
            }
            j += 1;
        }
        proof {
            assert(files.deep_view().take(j as int) =~= files.deep_view());
            assert(rules.take(i + 1).drop_last() =~= rules.take(i as int));
            assert(rules.take(i + 1).last() == rules[i as int]);
            assert(rules[i as int] == config[i as int]@);
        }
        i += 1;
    }
    proof {
        assert(rules.take(i as int) =~= rules);
    }
    found
}

/// The first mention of each response file of the list: the files to look
/// for before serving, each once.
pub fn referenced_files(config: &Vec<Mock>) -> (found: Vec<FileRef>)
    ensures
        found.deep_view() == missing(mentions(config.deep_view()), Set::empty()),
{
    let none: Vec<String> = Vec::new();
    proof {
        assert(none.deep_view().to_set() =~= Set::<Seq<char>>::empty());
    }
    missing_files(config, &none)
}

/// Whether every response file of the list is among `present`, the files
/// that were found.
pub fn verify_response_files_exist(config: &Vec<Mock>, present: &Vec<String>) -> (ok: bool)
    ensures
        ok == files_present(config.deep_view(), present.deep_view().to_set()),
{
    let found = missing_files(config, present);
    proof {
        let rules = config.deep_view();
        let there = present.deep_view().to_set();
        lemma_missing_none(mentions(rules), there);
        if found.len() == 0 {
            assert forall|file: Seq<char>| #[trigger] streams(rules, file) implies there.contains(
                file,
            ) by {
                lemma_mentions_cover(rules, file);
                let k = choose|k: int|
                    0 <= k < mentions(rules).len() && (#[trigger] mentions(rules)[k]).file == file;
                assert(there.contains(mentions(rules)[k].file));
            }
        } else {
            let entry = found.deep_view()[0];
            assert(entry == missing(mentions(rules), there)[0]);
            lemma_mentions_cover(rules, entry.file);
            assert(streams(rules, entry.file));
        }
    }
    found.len() == 0
}

/// The rule list may be served: its response files are among `present`,
/// its profiles can be reached, and none of its rules hides a later one.
pub open spec fn accepted(rules: Seq<MockView>, present: Set<Seq<char>>) -> bool {
    &&& files_present(rules, present)
    &&& profiles_referenced(rules)
    &&& no_shadowing(rules)
}

/// What `validate` promises of its verdict.
pub open spec fn verdict_of(rules: Seq<MockView>, present: Set<Seq<char>>, verdict: bool) -> bool {
    verdict == accepted(rules, present)
}

/// Runs the three checks, all of them, and says whether all passed.
/// `present` lists the response files that were found.
pub fn validate(config: &Vec<Mock>, present: &Vec<String>) -> (verdict: bool)
    ensures
        verdict_of(config.deep_view(), present.deep_view().to_set(), verdict),
{
    let files = verify_response_files_exist(config, present);
    let profiles = verify_all_profiles_are_referenced(config);
    let shadowing = verify_mocks_dont_shadow_each_other(config);
    files && profiles && shadowing
}

/// Validation is a function of the rule list and the files found: two runs
/// on the same rules and files give the same verdict.
pub proof fn lemma_validation_deterministic(
    rules: Seq<MockView>,
    present: Set<Seq<char>>,
    first: bool,
    second: bool,
)
    requires
        verdict_of(rules, present, first),
        verdict_of(rules, present, second),
    ensures
        first == second,
{
}

} // verus!
