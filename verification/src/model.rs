//! The data model: rules, their commands, and the table of profile names.

use vstd::prelude::*;
use vstd::string::StringExecFns;

verus! {

/// The profile every server starts in, and the one a rule is scoped to when
/// its directive names none.
pub const DEFAULT_PROFILE: isize = 0;

/// The scope of a rule that is eligible whatever the current profile is.
pub const ANY_PROFILE: isize = -1;

/// What a rule does, beyond streaming its files, when it is chosen.
#[derive(Debug, Clone, Copy, PartialEq, Eq, Structural)]
pub enum Command {
    /// Stream the files.
    Serve,
    /// Sleep for the rule's `delay`, then stream.
    Delay,
    /// Eligible only once the rule's `time` has passed since the time origin.
    After,
    /// Move the time origin to the present.
    Reset,
    /// Make the rule's `destination_profile` the current profile.
    Profile,
}

/// One rule: the substrings a request must hold and the response it gets.
/// Durations are whole milliseconds.
#[derive(Debug, PartialEq, Eq)]
pub struct Mock {
    /// The last line of the rule's group: an optional directive, then the
    /// files to stream, separated by semicolons.
    pub filenames: String,
    /// Every one of these must occur in the request.
    pub patterns: Vec<String>,
    /// Set exactly by `after`: the rule matches only once this much time
    /// has passed since the time origin.
    pub time: Option<u64>,
    /// Set exactly by `delay`: how long to wait before streaming.
    pub delay: Option<u64>,
    /// The profile the rule is active in.
    pub profile: isize,
    /// The profile a `Profile` rule switches to; `ANY_PROFILE` otherwise.
    pub destination_profile: isize,
    /// The rule's command.
    pub command: Command,
    /// The line on which the rule's group begins, counted from 1; 0 for a
    /// rule that no file holds.
    pub line_number: usize,
}

/// A rule as a mathematical value.
pub ghost struct MockView {
    pub filenames: Seq<char>,
    pub patterns: Seq<Seq<char>>,
    pub time: Option<u64>,
    pub delay: Option<u64>,
    pub profile: isize,
    pub destination_profile: isize,
    pub command: Command,
    pub line_number: usize,
}

impl View for Mock {
    type V = MockView;

    open spec fn view(&self) -> MockView {
        MockView {
            filenames: self.filenames@,
            patterns: self.patterns.deep_view(),
            time: self.time,
            delay: self.delay,
            profile: self.profile,
            destination_profile: self.destination_profile,
            command: self.command,
            line_number: self.line_number,
        }
    }
}

impl DeepView for Mock {
    type V = MockView;

    open spec fn deep_view(&self) -> MockView {
        self@
    }
}

/// What every pattern read from a rule file is: a non-empty piece of one
/// line.
pub open spec fn pattern_wf(p: Seq<char>) -> bool {
    p.len() > 0 && !p.contains('\n')
}

impl MockView {
    /// What the data model asks of a single rule: `time` goes with `After`
    /// and `delay` with `Delay`, a switch rule is eligible in every profile,
    /// and each pattern is a non-empty piece of one line.
    pub open spec fn wf(self) -> bool {
        &&& self.time is Some <==> self.command == Command::After
        &&& self.delay is Some <==> self.command == Command::Delay
        &&& self.command == Command::Profile ==> self.profile == ANY_PROFILE
        &&& self.command != Command::Profile ==> self.destination_profile == ANY_PROFILE
        &&& self.profile >= ANY_PROFILE
        &&& self.destination_profile >= ANY_PROFILE
        &&& forall|i: int| 0 <= i < self.patterns.len() ==> pattern_wf(#[trigger] self.patterns[i])
    }
}

/// The rule that answers a request which no rule of the list matches.
pub open spec fn default_rule() -> MockView {
    MockView {
        filenames: "404.html"@,
        patterns: Seq::empty(),
        time: None,
        delay: None,
        profile: ANY_PROFILE,
        destination_profile: ANY_PROFILE,
        command: Command::Serve,
        line_number: 0,
    }
}

/// Builds the rule that answers a request which no rule of the list matches.
pub fn default_mock() -> (m: Mock)
    ensures
        m@ == default_rule(),
        m@.wf(),
{
    let m = Mock {
        filenames: String::from_str("404.html"),
        patterns: Vec::new(),
        time: None,
        delay: None,
        profile: ANY_PROFILE,
        destination_profile: ANY_PROFILE,
        command: Command::Serve,
        line_number: 0,
    };
    assert(m.patterns.deep_view() =~= Seq::<Seq<char>>::empty());
    m
}

} // verus!
