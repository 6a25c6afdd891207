//! The dispatcher: which rule answers a request under the current profile
//! and clock, what choosing it does to the server's state, and what is sent.

use crate::model::{default_mock, default_rule, Command, Mock, MockView, ANY_PROFILE, DEFAULT_PROFILE};
use crate::text::{chars_of, contains, contains_chars};
use crate::validate::{files_of, response_files};
use vstd::prelude::*;

verus! {

/// The time that has passed at `now` since `time_origin`, both counted in
/// milliseconds on one clock; none where the clock reads less than the
/// origin.
pub open spec fn elapsed(time_origin: u64, now: u64) -> int {
    if now >= time_origin {
        now - time_origin
    } else {
        0
    }
}

/// The rule is active while `current` is the current profile: it is active
/// in every profile, or it is a switch, or `current` is its own profile.
pub open spec fn profile_gate(rule: MockView, current: isize) -> bool {
    rule.profile == ANY_PROFILE || rule.command == Command::Profile || rule.profile == current
}

/// Every pattern of the rule occurs in the request.
pub open spec fn pattern_gate(rule: MockView, request: Seq<char>) -> bool {
    forall|i: int| 0 <= i < rule.patterns.len() ==> contains(request, #[trigger] rule.patterns[i])
}

/// The rule waits for no time, or its time has passed since the origin.
pub open spec fn time_gate(rule: MockView, time_origin: u64, now: u64) -> bool {
    match rule.time {
        Some(time) => elapsed(time_origin, now) >= time,
        None => true,
    }
}

/// The rule matches the request: it passes the profile gate, the pattern
/// gate and the time gate.
pub open spec fn rule_matches(
    rule: MockView,
    request: Seq<char>,
    current: isize,
    time_origin: u64,
    now: u64,
) -> bool {
    &&& profile_gate(rule, current)
    &&& pattern_gate(rule, request)
    &&& time_gate(rule, time_origin, now)
}

/// Rule `i` is the first of the list that matches the request.
pub open spec fn is_first_match(
    rules: Seq<MockView>,
    request: Seq<char>,
    current: isize,
    time_origin: u64,
    now: u64,
    i: int,
) -> bool {
    &&& 0 <= i < rules.len()
    &&& rule_matches(rules[i], request, current, time_origin, now)
    &&& forall|j: int| 0 <= j < i ==> !rule_matches(#[trigger] rules[j], request, current, time_origin, now)
}

/// The position of the first rule of the list that matches the request, if
/// any does.
pub open spec fn first_match(
    rules: Seq<MockView>,
    request: Seq<char>,
    current: isize,
    time_origin: u64,
    now: u64,
) -> Option<int> {
    if exists|i: int| is_first_match(rules, request, current, time_origin, now, i) {
        Some(choose|i: int| is_first_match(rules, request, current, time_origin, now, i))
    } else {
        None
    }
}

/// For a fixed rule list, profile, clock and request, the rule that answers
/// is fixed too: two first matches are the same rule.
pub proof fn lemma_first_match_unique(
    rules: Seq<MockView>,
    request: Seq<char>,
    current: isize,
    time_origin: u64,
    now: u64,
    i: int,
    j: int,
)
    requires
        is_first_match(rules, request, current, time_origin, now, i),
        is_first_match(rules, request, current, time_origin, now, j),
    ensures
        i == j,
        first_match(rules, request, current, time_origin, now) == Some(i),
{
    if i < j {
        assert(!rule_matches(rules[i], request, current, time_origin, now));
    }
    if j < i {
        assert(!rule_matches(rules[j], request, current, time_origin, now));
    }
    let k = choose|k: int| is_first_match(rules, request, current, time_origin, now, k);
    if i < k {
        assert(!rule_matches(rules[i], request, current, time_origin, now));
    }
    if k < i {
        assert(!rule_matches(rules[k], request, current, time_origin, now));
    }
}

/// Whether the rule matches the request.
pub fn matches_rule(
    rule: &Mock,
    request: &Vec<char>,
    profile: isize,
    time_origin: u64,
    now: u64,
) -> (b: bool)
    ensures
        b == rule_matches(rule@, request@, profile, time_origin, now),
{
    if rule.profile != ANY_PROFILE && profile != rule.profile && rule.command != Command::Profile {
        return false;
    }
    let mut i: usize = 0;
    while i < rule.patterns.len()
        invariant
            i <= rule.patterns.len(),
            forall|k: int| 0 <= k < i ==> contains(request@, #[trigger] rule@.patterns[k]),
        decreases rule.patterns.len() - i,
    {
        let pattern = chars_of(rule.patterns[i].as_str());
        if !contains_chars(request, &pattern) {
            proof {
                assert(rule@.patterns[i as int] == pattern@);
            }
            return false;
        }
        proof {
            assert(rule@.patterns[i as int] == pattern@);
        }
        i += 1;
    }
    match rule.time {
        Some(time) => {
            let passed: u64 = if now >= time_origin {
                now - time_origin
            } else {
                0
            };
            passed >= time
        },
        None => true,
    }
}

/// The position of the first rule of `config` that matches `request`, if any
/// does.
pub fn find_mock_index(
    request: &str,
    config: &Vec<Mock>,
    time_origin: u64,
    now: u64,
    profile: isize,
) -> (found: Option<usize>)
    ensures
        match found {
            Some(i) => is_first_match(
                config.deep_view(),
                request@,
                profile,
                time_origin,
                now,
                i as int,
            ),
            None => forall|i: int|
                0 <= i < config.len() ==> !rule_matches(
                    #[trigger] config.deep_view()[i],
                    request@,
                    profile,
                    time_origin,
                    now,
                ),
        },
        match found {
            Some(i) => first_match(config.deep_view(), request@, profile, time_origin, now) == Some(
                i as int,
            ),
            None => first_match(config.deep_view(), request@, profile, time_origin, now) is None,
        },
{
    let text = chars_of(request);
    let mut i: usize = 0;
    while i < config.len()
        invariant
            i <= config.len(),
            text@ == request@,
            forall|k: int|
                0 <= k < i ==> !rule_matches(
                    #[trigger] config.deep_view()[k],
                    request@,
                    profile,
                    time_origin,
                    now,
                ),
        decreases config.len() - i,
    {
        if matches_rule(&config[i], &text, profile, time_origin, now) {
            proof {
                assert(config.deep_view()[i as int] == config[i as int]@);
                lemma_first_match_unique(
                    config.deep_view(),
                    request@,
                    profile,
                    time_origin,
                    now,
                    i as int,
                    i as int,
                );
            }
            return Some(i);
        }
        proof {
            assert(config.deep_view()[i as int] == config[i as int]@);
        }
        i += 1;
    }
    None
}

/// The first rule of `config` that matches `request` while `profile` is the
/// current profile and the clock, which read `time_origin` at the last
/// reset, reads `now`.
pub fn find_mock<'a>(
    request: &str,
    config: &'a Vec<Mock>,
    time_origin: u64,
    now: u64,
    profile: isize,
) -> (found: Option<&'a Mock>)
    ensures
        match first_match(config.deep_view(), request@, profile, time_origin, now) {
            Some(i) => 0 <= i < config.len() && found == Some(&config[i]),
            None => found is None,
        },
{
    match find_mock_index(request, config, time_origin, now, profile) {
        Some(i) => Some(&config[i]),
        None => None,
    }
}

/// What the server remembers from one request to the next.
#[derive(Debug, Clone, Copy, PartialEq, Eq, Structural)]
pub struct ServerState {
    /// The profile whose rules are active.
    pub current_profile: isize,
    /// What the clock read when the server started or a reset last fired,
    /// in milliseconds.
    pub time_origin: u64,
    /// How many connections have been taken.
    pub connection_counter: usize,
}

/// The state that choosing `rule` at clock reading `now` leaves: a switch
/// changes the current profile, a reset moves the time origin to `now`, and
/// any other rule changes nothing.
pub open spec fn applied(rule: MockView, state: ServerState, now: u64) -> ServerState {
    match rule.command {
        Command::Profile => ServerState { current_profile: rule.destination_profile, ..state },
        Command::Reset => ServerState { time_origin: now, ..state },
        _ => state,
    }
}

/// How long to wait before the files of `rule` are streamed.
pub open spec fn pause_of(rule: MockView) -> Option<u64> {
    if rule.command == Command::Delay {
        rule.delay
    } else {
        None
    }
}

impl ServerState {
    /// The state of a server that starts while the clock reads `now`: it is
    /// in the default profile and has taken no connection.
    pub fn new(now: u64) -> (state: ServerState)
        ensures
            state == (ServerState {
                current_profile: DEFAULT_PROFILE,
                time_origin: now,
                connection_counter: 0,
            }),
    {
        ServerState { current_profile: DEFAULT_PROFILE, time_origin: now, connection_counter: 0 }
    }

    /// Counts one more connection and gives its number. The count stays
    /// where it is once it has reached the largest number there is.
    pub fn next_connection(&mut self) -> (number: usize)
        ensures
            number == final(self).connection_counter,
            final(self).current_profile == old(self).current_profile,
            final(self).time_origin == old(self).time_origin,
            old(self).connection_counter < usize::MAX ==> number == old(self).connection_counter
                + 1,
            old(self).connection_counter == usize::MAX ==> number == usize::MAX,
    {
        if self.connection_counter < usize::MAX {
            self.connection_counter = self.connection_counter + 1;
        }
        self.connection_counter
    }

    /// Does to the state what choosing `rule` does, at clock reading `now`,
    /// and says how long to wait before streaming.
    pub fn apply(&mut self, rule: &Mock, now: u64) -> (pause: Option<u64>)
        ensures
            *final(self) == applied(rule@, *old(self), now),
            pause == pause_of(rule@),
    {
        match rule.command {
            Command::Profile => {
                self.current_profile = rule.destination_profile;
                None
            },
            Command::Reset => {
                self.time_origin = now;
                None
            },
            Command::Delay => rule.delay,
            _ => None,
        }
    }
}

/// What the server does for one request.
#[derive(Debug)]
pub struct Response {
    /// The position of the rule that answers; none where no rule matched
    /// and the default rule answers.
    pub matched: Option<usize>,
    /// How long to wait before streaming, in milliseconds.
    pub pause: Option<u64>,
    /// The files to stream, in order.
    pub files: Vec<String>,
}

/// The rule that answers the request: the first that matches, or the
/// default rule.
pub open spec fn answering_rule(
    rules: Seq<MockView>,
    request: Seq<char>,
    state: ServerState,
    now: u64,
) -> MockView {
    match first_match(rules, request, state.current_profile, state.time_origin, now) {
        Some(i) => rules[i],
        None => default_rule(),
    }
}

/// Serves one request at clock reading `now`: picks the rule that answers,
/// lets it act on the state, and says what to send.
pub fn dispatch(request: &str, config: &Vec<Mock>, state: &mut ServerState, now: u64) -> (response:
    Response)
    ensures
        match first_match(
            config.deep_view(),
            request@,
            old(state).current_profile,
            old(state).time_origin,
            now,
        ) {
            Some(i) => response.matched == Some(i as usize) && 0 <= i < config.len(),
            None => response.matched is None,
        },
        *final(state) == applied(
            answering_rule(config.deep_view(), request@, *old(state), now),
            *old(state),
            now,
        ),
        response.pause == pause_of(answering_rule(config.deep_view(), request@, *old(state), now)),
        response.files.deep_view() == files_of(
            answering_rule(config.deep_view(), request@, *old(state), now).filenames,
        ),
{
    let matched = find_mock_index(
        request,
        config,
        state.time_origin,
        now,
        state.current_profile,
    );
    match matched {
        Some(i) => {
            proof {
                assert(config.deep_view()[i as int] == config[i as int]@);
            }
            let rule = &config[i];
            let pause = state.apply(rule, now);
            let files = response_files(rule.filenames.as_str());
            Response { matched, pause, files }
        },
        None => {
            let rule = default_mock();
            let pause = state.apply(&rule, now);
            let files = response_files(rule.filenames.as_str());
            Response { matched, pause, files }
        },
    }
}

/// A rule that is scoped to a profile answers only while that profile is
/// the current one, unless it is a switch.
pub proof fn lemma_profile_isolation(
    rules: Seq<MockView>,
    request: Seq<char>,
    current: isize,
    time_origin: u64,
    now: u64,
    i: int,
)
    requires
        first_match(rules, request, current, time_origin, now) == Some(i),
        rules[i].profile != ANY_PROFILE,
        rules[i].profile != current,
    ensures
        rules[i].command == Command::Profile,
{
    assert(is_first_match(rules, request, current, time_origin, now, i));
}

/// A rule that matches keeps matching as the clock goes on, as long as the
/// request, the profile and the time origin stay what they are.
pub proof fn lemma_time_monotonic(
    rule: MockView,
    request: Seq<char>,
    current: isize,
    time_origin: u64,
    now: u64,
    later: u64,
)
    requires
        rule_matches(rule, request, current, time_origin, now),
        now <= later,
    ensures
        rule_matches(rule, request, current, time_origin, later),
{
}

/// Once a reset has fired at clock reading `now`, no rule that waits for a
/// time matches before the clock reads that much more.
pub proof fn lemma_reset_closes_time_gates(
    reset: MockView,
    state: ServerState,
    now: u64,
    waiting: MockView,
    request: Seq<char>,
    then: u64,
)
    requires
        reset.command == Command::Reset,
        waiting.command == Command::After,
        waiting.time is Some,
        waiting.time->0 > 0,
        then < now + waiting.time->0,
    ensures
        applied(reset, state, now).time_origin == now,
        applied(reset, state, now).current_profile == state.current_profile,
        !rule_matches(
            waiting,
            request,
            applied(reset, state, now).current_profile,
            applied(reset, state, now).time_origin,
            then,
        ),
{
}

} // verus!
