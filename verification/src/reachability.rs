//! What the shadowing check is for: which rules of a list can answer a
//! request at all, and which can never.

use crate::dispatch::{first_match, is_first_match, lemma_first_match_unique, rule_matches};
use crate::model::{MockView, ANY_PROFILE};
use crate::text::{contains, occurs_at};
use crate::validate::{all_covered, covered, no_shadowing, shadows};
use vstd::prelude::*;

verus! {

/// What occurs in a part of a text occurs in the text.
pub proof fn lemma_contains_transitive<T>(outer: Seq<T>, middle: Seq<T>, inner: Seq<T>)
    requires
        contains(outer, middle),
        contains(middle, inner),
    ensures
        contains(outer, inner),
{
    let i = choose|i: int| occurs_at(outer, middle, i);
    let j = choose|j: int| occurs_at(middle, inner, j);
    assert(outer.subrange(i + j, i + j + inner.len()) =~= middle.subrange(j, j + inner.len()));
    assert(occurs_at(outer, inner, i + j));
}

/// The patterns one after the other, a line feed after each: a request that
/// holds every one of them and nothing besides.
pub open spec fn lines_of(patterns: Seq<Seq<char>>) -> Seq<char>
    decreases patterns.len(),
{
    if patterns.len() == 0 {
        Seq::empty()
    } else {
        lines_of(patterns.drop_last()) + patterns.last().push('\n')
    }
}

/// Each of the patterns occurs in the request made of them.
pub proof fn lemma_lines_hold_each(patterns: Seq<Seq<char>>, i: int)
    requires
        0 <= i < patterns.len(),
    ensures
        contains(lines_of(patterns), patterns[i]),
    decreases patterns.len(),
{
    let front = lines_of(patterns.drop_last());
    let all = lines_of(patterns);
    let pattern = patterns[i];
    if i == patterns.len() - 1 {
        assert(all.subrange(front.len() as int, (front.len() + pattern.len()) as int) =~= pattern);
        assert(occurs_at(all, pattern, front.len() as int));
    } else {
        lemma_lines_hold_each(patterns.drop_last(), i);
        let k = choose|k: int| occurs_at(front, pattern, k);
        assert(all.subrange(k, k + pattern.len()) =~= front.subrange(k, k + pattern.len()));
        assert(occurs_at(all, pattern, k));
    }
}

/// A piece of one line that occurs in the request made of the patterns
/// occurs in one of the patterns.
pub proof fn lemma_lines_hold_no_more(patterns: Seq<Seq<char>>, piece: Seq<char>)
    requires
        piece.len() > 0,
        !piece.contains('\n'),
        contains(lines_of(patterns), piece),
    ensures
        covered(piece, patterns),
    decreases patterns.len(),
{
    let all = lines_of(patterns);
    let at = choose|at: int| occurs_at(all, piece, at);
    if patterns.len() == 0 {
        assert(all.len() == 0);
    } else {
        let front = lines_of(patterns.drop_last());
        let last = patterns.last();
        assert(all.len() == front.len() + last.len() + 1);
        assert(all[all.len() - 1] == '\n');
        assert forall|m: int| at <= m < at + piece.len() implies #[trigger] all[m] == piece[m - at]
            && all[m] != '\n' by {
            assert(all.subrange(at, at + piece.len())[m - at] == piece[m - at]);
            assert(piece.contains(piece[m - at]));
        }
        if at + piece.len() > all.len() - 1 {
            assert(all[all.len() - 1] != '\n');
        }
        if at >= front.len() {
            let inside = at - front.len();
            assert(last.subrange(inside, inside + piece.len()) =~= piece) by {
                assert forall|k: int| 0 <= k < piece.len() implies #[trigger] last.subrange(
                    inside,
                    inside + piece.len(),
                )[k] == piece[k] by {
                    assert(all[at + k] == piece[k]);
                }
            }
            assert(occurs_at(last, piece, inside));
            assert(contains(patterns[patterns.len() - 1], piece));
        } else {
            if at + piece.len() > front.len() {
                if patterns.len() >= 2 {
                    let before = patterns.drop_last();
                    assert(front == lines_of(before.drop_last()) + before.last().push('\n'));
                    assert(front[front.len() - 1] == '\n');
                    assert(all[front.len() - 1] == front[front.len() - 1]);
                    assert(all[front.len() - 1] != '\n');
                } else {
                    assert(patterns.drop_last().len() == 0);
                }
            }
            assert(front.subrange(at, at + piece.len()) =~= piece) by {
                assert forall|k: int| 0 <= k < piece.len() implies #[trigger] front.subrange(
                    at,
                    at + piece.len(),
                )[k] == piece[k] by {
                    assert(all[at + k] == piece[k]);
                }
            }
            assert(occurs_at(front, piece, at));
            lemma_lines_hold_no_more(patterns.drop_last(), piece);
            let j = choose|j: int|
                0 <= j < patterns.drop_last().len() && contains(
                    #[trigger] patterns.drop_last()[j],
                    piece,
                );
            assert(contains(patterns[j], piece));
        }
    }
}

/// The time a rule waits for, none counted as zero.
pub open spec fn wait_of(rule: MockView) -> u64 {
    match rule.time {
        Some(time) => time,
        None => 0,
    }
}

/// `head`, standing before `tail`, asks no more of a request and is active
/// in the same profile, and though it waits for another time than `tail`,
/// its wait is over as soon as that of `tail` is. The shadowing check does
/// not see such a pair, for it compares the times for equality.
pub open spec fn overtakes(head: MockView, tail: MockView) -> bool {
    &&& head.profile == ANY_PROFILE || head.profile == tail.profile
    &&& all_covered(head.patterns, tail.patterns)
    &&& head.time != tail.time
    &&& wait_of(head) <= wait_of(tail)
}

/// A rule that an earlier rule shadows or overtakes never answers a
/// request: whenever it matches, the earlier one matches too.
pub proof fn lemma_hidden_rule_never_answers(
    rules: Seq<MockView>,
    h: int,
    t: int,
    request: Seq<char>,
    current: isize,
    time_origin: u64,
    now: u64,
)
    requires
        0 <= h < t < rules.len(),
        rules[t].wf(),
        shadows(rules[h], rules[t]) || overtakes(rules[h], rules[t]),
    ensures
        first_match(rules, request, current, time_origin, now) != Some(t),
        rule_matches(rules[t], request, current, time_origin, now) ==> rule_matches(
            rules[h],
            request,
            current,
            time_origin,
            now,
        ),
{
    let head = rules[h];
    let tail = rules[t];
    if rule_matches(tail, request, current, time_origin, now) {
        assert forall|i: int| 0 <= i < head.patterns.len() implies contains(
            request,
            #[trigger] head.patterns[i],
        ) by {
            assert(covered(head.patterns[i], tail.patterns));
            let j = choose|j: int|
                0 <= j < tail.patterns.len() && contains(#[trigger] tail.patterns[j], head.patterns[i]);
            lemma_contains_transitive(request, tail.patterns[j], head.patterns[i]);
        }
        assert(rule_matches(head, request, current, time_origin, now));
    }
    if first_match(rules, request, current, time_origin, now) == Some(t) {
        assert(is_first_match(rules, request, current, time_origin, now, t));
        assert(!rule_matches(rules[h], request, current, time_origin, now));
    }
}

/// Where the shadowing check accepts a rule list, each of its rules answers
/// some request, under some profile and clock, unless an earlier rule
/// overtakes it. The request is the rule's own patterns, one to a line, in
/// the rule's own profile, at the moment its wait is over.
pub proof fn lemma_accepted_rule_answers(rules: Seq<MockView>, t: int)
    requires
        0 <= t < rules.len(),
        forall|i: int| 0 <= i < rules.len() ==> (#[trigger] rules[i]).wf(),
        no_shadowing(rules),
        forall|h: int| 0 <= h < t ==> !overtakes(#[trigger] rules[h], rules[t]),
    ensures
        first_match(rules, lines_of(rules[t].patterns), rules[t].profile, 0, wait_of(rules[t]))
            == Some(t),
        exists|request: Seq<char>, current: isize, time_origin: u64, now: u64|
            first_match(rules, request, current, time_origin, now) == Some(t),
{
    let tail = rules[t];
    let request = lines_of(tail.patterns);
    let now = wait_of(tail);
    assert forall|i: int| 0 <= i < tail.patterns.len() implies contains(
        request,
        #[trigger] tail.patterns[i],
    ) by {
        lemma_lines_hold_each(tail.patterns, i);
    }
    assert(rule_matches(tail, request, tail.profile, 0, now));
    assert forall|h: int| 0 <= h < t implies !rule_matches(
        #[trigger] rules[h],
        request,
        tail.profile,
        0,
        now,
    ) by {
        let head = rules[h];
        if rule_matches(head, request, tail.profile, 0, now) {
            assert(head.wf());
            assert forall|i: int| 0 <= i < head.patterns.len() implies covered(
                #[trigger] head.patterns[i],
                tail.patterns,
            ) by {
                assert(contains(request, head.patterns[i]));
                lemma_lines_hold_no_more(tail.patterns, head.patterns[i]);
            }
            assert(!shadows(rules[h], rules[t]));
            assert(overtakes(head, tail));
        }
    }
    assert(is_first_match(rules, request, tail.profile, 0, now, t));
    lemma_first_match_unique(rules, request, tail.profile, 0, now, t, t);
}

} // verus!
