//! The directive that may open the last line of a rule's group: its five
//! forms, the patterns that recognise them, and the rule each one makes.

use crate::model::{pattern_wf, Command, Mock, MockView, ANY_PROFILE, DEFAULT_PROFILE};
use crate::profiles::{
    any_name, id_in, id_of, lemma_with_name_wf, names_wf, with_name, ProfileTable,
};
use crate::text::chars_of;
use vstd::prelude::*;
use vstd::string::StrSliceExecFns;

verus! {

/// Why a rule file was not accepted.
#[derive(Debug, Clone, Copy, PartialEq, Eq, Structural)]
pub enum ParseError {
    /// The last line of the group that begins on `line_number` starts with a
    /// backtick and has none of the directive forms.
    Instructions { line_number: usize },
    /// The number given to `after` or `delay` in the group that begins on
    /// `line_number` is no count of milliseconds that fits in 64 bits.
    Number { line_number: usize },
    /// The group that begins on `line_number` has one line only: nothing
    /// stands before the line that says what to answer, so its rule would
    /// ask nothing of a request.
    Patterns { line_number: usize },
    /// The regular expression engine did not accept the pattern of a
    /// directive form.
    Pattern,
}

/// What to tell the user about an error.
pub open spec fn message_of(error: ParseError) -> Seq<char> {
    match error {
        ParseError::Instructions { .. } => "Could not parse instructions"@,
        ParseError::Number { .. } => "Could not parse the number of milliseconds"@,
        ParseError::Patterns { .. } => "Could not find a pattern line"@,
        ParseError::Pattern => "Could not use a directive pattern"@,
    }
}

impl ParseError {
    /// What to tell the user about the error.
    pub fn message(&self) -> (text: &'static str)
        ensures
            text@ == message_of(*self),
    {
        match self {
            ParseError::Instructions { .. } => "Could not parse instructions",
            ParseError::Number { .. } => "Could not parse the number of milliseconds",
            ParseError::Patterns { .. } => "Could not find a pattern line",
            ParseError::Pattern => "Could not use a directive pattern",
        }
    }

    /// The line on which the group with the error begins, where the error
    /// is that of a group.
    pub fn line_number(&self) -> (line: Option<usize>)
        ensures
            line == match *self {
                ParseError::Instructions { line_number } => Some(line_number),
                ParseError::Number { line_number } => Some(line_number),
                ParseError::Patterns { line_number } => Some(line_number),
                ParseError::Pattern => None,
            },
    {
        match self {
            ParseError::Instructions { line_number } => Some(*line_number),
            ParseError::Number { line_number } => Some(*line_number),
            ParseError::Patterns { line_number } => Some(*line_number),
            ParseError::Pattern => None,
        }
    }
}

/// The forms a directive can have, in the order in which they are tried.
#[derive(Debug, Clone, Copy, PartialEq, Eq, Structural)]
pub enum DirectiveForm {
    /// `` `[name] after N; `` with the scope optional.
    After,
    /// `` `[name] delay N; `` with the scope optional.
    Delay,
    /// `` `profile [name]; ``
    Switch,
    /// `` `[name]; ``
    Scoped,
    /// `` `reset; ``
    Reset,
}

/// How many directive forms there are.
pub const FORMS: usize = 5;

/// The `k`-th form to be tried.
pub open spec fn form_at(k: int) -> DirectiveForm {
    if k == 0 {
        DirectiveForm::After
    } else if k == 1 {
        DirectiveForm::Delay
    } else if k == 2 {
        DirectiveForm::Switch
    } else if k == 3 {
        DirectiveForm::Scoped
    } else {
        DirectiveForm::Reset
    }
}

/// The regular expression of `after`. Group 1 is the profile name and group
/// 2 the number.
pub const AFTER_PATTERN: &'static str = r"^`(?:\s*\[(?P<profile>.+)\]\s+)?after\s*(?P<time>\d+)\s*;";

/// The regular expression of `delay`. Group 1 is the profile name and group
/// 2 the number.
pub const DELAY_PATTERN: &'static str = r"^`(?:\s*\[(?P<profile>.+)\]\s+)?delay\s*(?P<delay>\d+)\s*;";

/// The regular expression of a profile switch. Group 1 is the profile name.
pub const SWITCH_PATTERN: &'static str = r"^`\s*profile\s+\[(?P<profile>.+)\]\s*;.+";

/// The regular expression of a scope alone. Group 1 is the profile name.
pub const SCOPED_PATTERN: &'static str = r"^`\s*\[(?P<profile>.+)\]\s*;.+";

/// The regular expression of `reset`.
pub const RESET_PATTERN: &'static str = r"^`\s*reset\s*;.+";

/// The regular expression that recognises each form.
pub open spec fn pattern_of(form: DirectiveForm) -> Seq<char> {
    match form {
        DirectiveForm::After => AFTER_PATTERN@,
        DirectiveForm::Delay => DELAY_PATTERN@,
        DirectiveForm::Switch => SWITCH_PATTERN@,
        DirectiveForm::Scoped => SCOPED_PATTERN@,
        DirectiveForm::Reset => RESET_PATTERN@,
    }
}

impl DirectiveForm {
    /// The `k`-th form to be tried.
    pub fn nth(k: usize) -> (form: DirectiveForm)
        requires
            k < FORMS,
        ensures
            form == form_at(k as int),
    {
        if k == 0 {
            DirectiveForm::After
        } else if k == 1 {
            DirectiveForm::Delay
        } else if k == 2 {
            DirectiveForm::Switch
        } else if k == 3 {
            DirectiveForm::Scoped
        } else {
            DirectiveForm::Reset
        }
    }

    /// The regular expression that recognises this form.
    pub fn pattern(&self) -> (p: &'static str)
        ensures
            p@ == pattern_of(*self),
    {
        match self {
            DirectiveForm::After => AFTER_PATTERN,
            DirectiveForm::Delay => DELAY_PATTERN,
            DirectiveForm::Switch => SWITCH_PATTERN,
            DirectiveForm::Scoped => SCOPED_PATTERN,
            DirectiveForm::Reset => RESET_PATTERN,
        }
    }
}

/// The error of `regex::Regex::new`. Nothing is read from it.
#[verifier::external_type_specification]
#[verifier::external_body]
pub struct ExRegexError(regex::Error);

/// Whether `regex::Regex::new` accepts `pattern`.
pub uninterp spec fn regex_compiles(pattern: Seq<char>) -> bool;

/// What `regex::Regex::captures` finds of `pattern` in `text`: nothing, or
/// the capture groups of the leftmost match, listed by group number, each
/// with the text it matched if it took part. Group 0 is the whole match.
pub uninterp spec fn regex_captures(pattern: Seq<char>, text: Seq<char>) -> Option<
    Seq<Option<Seq<char>>>,
>;

/// Compiles `pattern` with `regex::Regex::new` and searches `text` with
/// `regex::Regex::captures`. The contract gives both results their names and
/// claims nothing else: an error exactly when the pattern is refused, and
/// otherwise the capture groups of the leftmost match, copied out in order.
#[verifier::external_body]
fn search(pattern: &str, text: &str) -> (found: Result<Option<Vec<Option<String>>>, regex::Error>)
    ensures
        found is Ok <==> regex_compiles(pattern@),
        found matches Ok(groups) ==> groups.deep_view() == regex_captures(pattern@, text@),
{
    let compiled = regex::Regex::new(pattern)?;
    Ok(
        compiled.captures(text).map(
            |groups| groups.iter().map(|group| group.map(|m| m.as_str().to_string())).collect(),
        ),
    )
}

/// The capture groups of the leftmost match of `pattern` in `text`, listed
/// by group number, or nothing where there is no match; an error where the
/// pattern is not accepted.
pub fn captures(pattern: &str, text: &str) -> (found: Result<Option<Vec<Option<String>>>, ParseError>)
    ensures
        match found {
            Ok(groups) => regex_compiles(pattern@) && groups.deep_view() == regex_captures(
                pattern@,
                text@,
            ),
            Err(error) => !regex_compiles(pattern@) && error == ParseError::Pattern,
        },
{
    match search(pattern, text) {
        Ok(groups) => Ok(groups),
        Err(_) => Err(ParseError::Pattern),
    }
}

/// A decimal digit.
pub open spec fn is_digit(c: char) -> bool {
    '0' <= c <= '9'
}

/// The number that the decimal digits `s` write.
pub open spec fn decimal_value(s: Seq<char>) -> nat
    decreases s.len(),
{
    if s.len() == 0 {
        0
    } else {
        decimal_value(s.drop_last()) * 10 + (s.last() as nat - '0' as nat) as nat
    }
}

/// The count of milliseconds that `s` writes: `s` is one or more decimal
/// digits and the number fits in 64 bits.
pub open spec fn millis_of(s: Seq<char>) -> Option<u64> {
    if s.len() > 0 && (forall|i: int| 0 <= i < s.len() ==> is_digit(#[trigger] s[i]))
        && decimal_value(s) <= u64::MAX {
        Some(decimal_value(s) as u64)
    } else {
        None
    }
}

/// A longer run of digits writes no smaller a number.
proof fn lemma_decimal_value_grows(s: Seq<char>, k: int)
    requires
        0 <= k <= s.len(),
        forall|i: int| 0 <= i < s.len() ==> is_digit(#[trigger] s[i]),
    ensures
        decimal_value(s.take(k)) <= decimal_value(s),
    decreases s.len() - k,
{
    if k == s.len() {
        assert(s.take(k) =~= s);
    } else {
        lemma_decimal_value_grows(s.drop_last(), k);
        assert(s.drop_last().take(k) =~= s.take(k));
        assert(is_digit(s[s.len() - 1]));
    }
}

/// Reads a count of milliseconds.
pub fn parse_millis(digits: &str) -> (value: Option<u64>)
    ensures
        value == millis_of(digits@),
{
    let chars = chars_of(digits);
    if chars.len() == 0 {
        return None;
    }
    let mut value: u64 = 0;
    let mut i: usize = 0;
    while i < chars.len()
        invariant
            i <= chars.len(),
            chars@ == digits@,
            forall|k: int| 0 <= k < i ==> is_digit(#[trigger] chars@[k]),
            value == decimal_value(chars@.take(i as int)),
        decreases chars.len() - i,
    {
        let c = chars[i];
        if c < '0' || c > '9' {
            return None;
        }
        let digit: u64 = (c as u32 - '0' as u32) as u64;
        proof {
            assert(chars@.take(i + 1).drop_last() =~= chars@.take(i as int));
            assert(chars@.take(i + 1).last() == c);
            assert(decimal_value(chars@.take(i + 1)) == value * 10 + digit);
        }
        if value > (u64::MAX - digit) / 10 {
            proof {
                if forall|k: int| 0 <= k < chars.len() ==> is_digit(#[trigger] chars@[k]) {
                    lemma_decimal_value_grows(chars@, i + 1);
                }
            }
            return None;
        }
        value = value * 10 + digit;
        i += 1;
    }
    proof {
        assert(chars@.take(i as int) =~= chars@);
    }
    Some(value)
}

/// The text that group `i` matched, if there is such a group and it took
/// part in the match.
pub open spec fn group_at(groups: Seq<Option<Seq<char>>>, i: int) -> Option<Seq<char>> {
    if 0 <= i < groups.len() {
        groups[i]
    } else {
        None
    }
}

/// The text that group `i` matched, if there is such a group and it took
/// part in the match.
pub fn capture(groups: &Vec<Option<String>>, i: usize) -> (text: Option<&String>)
    ensures
        text.deep_view() == group_at(groups.deep_view(), i as int),
{
    if i < groups.len() {
        groups[i].as_ref()
    } else {
        None
    }
}

/// The scope that a directive gives a rule, and the names once the scope has
/// its id: the default profile where the directive names none.
pub open spec fn scope_of(name: Option<Seq<char>>, names: Seq<Seq<char>>) -> (
    isize,
    Seq<Seq<char>>,
) {
    match name {
        Some(name) => (id_in(names, name), with_name(names, name)),
        None => (DEFAULT_PROFILE, names),
    }
}

/// The id of the profile that a directive names, which gets the next free id
/// if it is new; the default profile where the directive names none.
pub fn get_profile(name: Option<&String>, table: &mut ProfileTable) -> (id: isize)
    requires
        old(table).wf(),
        old(table)@.len() < isize::MAX,
    ensures
        final(table).wf(),
        (id, final(table)@) == scope_of(name.deep_view(), old(table)@),
{
    match name {
        Some(name) => table.get_or_insert(name.as_str()),
        None => DEFAULT_PROFILE,
    }
}

/// The rule of a group without a directive: it serves its files in the
/// default profile.
pub open spec fn plain_rule(
    patterns: Seq<Seq<char>>,
    filenames: Seq<char>,
    line_number: usize,
) -> MockView {
    MockView {
        filenames,
        patterns,
        time: None,
        delay: None,
        profile: DEFAULT_PROFILE,
        destination_profile: ANY_PROFILE,
        command: Command::Serve,
        line_number,
    }
}

/// The rule that a directive of form `form` makes once its pattern has
/// matched with capture groups `groups`, and the profile names after it; or
/// the error, where the number of `after` or `delay` cannot be read.
pub open spec fn rule_of(
    form: DirectiveForm,
    groups: Seq<Option<Seq<char>>>,
    patterns: Seq<Seq<char>>,
    filenames: Seq<char>,
    line_number: usize,
    names: Seq<Seq<char>>,
) -> Result<(MockView, Seq<Seq<char>>), ParseError> {
    let plain = plain_rule(patterns, filenames, line_number);
    let scope = scope_of(group_at(groups, 1), names);
    let millis = match group_at(groups, 2) {
        Some(digits) => millis_of(digits),
        None => None,
    };
    match form {
        DirectiveForm::After => match millis {
            Some(_) => Ok(
                (MockView { time: millis, profile: scope.0, command: Command::After, ..plain }, scope.1),
            ),
            None => Err(ParseError::Number { line_number }),
        },
        DirectiveForm::Delay => match millis {
            Some(_) => Ok(
                (
                    MockView { delay: millis, profile: scope.0, command: Command::Delay, ..plain },
                    scope.1,
                ),
            ),
            None => Err(ParseError::Number { line_number }),
        },
        DirectiveForm::Switch => Ok(
            (
                MockView {
                    profile: ANY_PROFILE,
                    destination_profile: scope.0,
                    command: Command::Profile,
                    ..plain
                },
                scope.1,
            ),
        ),
        DirectiveForm::Scoped => Ok((MockView { profile: scope.0, ..plain }, scope.1)),
        DirectiveForm::Reset => Ok((MockView { command: Command::Reset, ..plain }, names)),
    }
}

/// Builds the rule of a group whose last line, `filenames`, holds a
/// directive of form `form`, from the capture groups of the form's pattern.
/// A profile that the directive names for the first time enters `table`.
pub fn rule_from_captures(
    form: DirectiveForm,
    groups: &Vec<Option<String>>,
    patterns: Vec<String>,
    filenames: String,
    line_number: usize,
    table: &mut ProfileTable,
) -> (made: Result<Mock, ParseError>)
    requires
        old(table).wf(),
        old(table)@.len() < isize::MAX,
    ensures
        final(table).wf(),
        match rule_of(
            form,
            groups.deep_view(),
            patterns.deep_view(),
            filenames@,
            line_number,
            old(table)@,
        ) {
            Ok((rule, names)) => made matches Ok(mock) && mock@ == rule && final(table)@ == names,
            Err(error) => made == Err::<Mock, ParseError>(error) && final(table)@ == old(table)@,
        },
{
    let millis = match capture(groups, 2) {
        Some(digits) => parse_millis(digits.as_str()),
        None => None,
    };
    match form {
        DirectiveForm::After => {
            if millis.is_none() {
                return Err(ParseError::Number { line_number });
            }
            let profile = get_profile(capture(groups, 1), table);
            Ok(
                Mock {
                    filenames,
                    patterns,
                    time: millis,
                    delay: None,
                    profile,
                    destination_profile: ANY_PROFILE,
                    command: Command::After,
                    line_number,
                },
            )
        },
        DirectiveForm::Delay => {
            if millis.is_none() {
                return Err(ParseError::Number { line_number });
            }
            let profile = get_profile(capture(groups, 1), table);
            Ok(
                Mock {
                    filenames,
                    patterns,
                    time: None,
                    delay: millis,
                    profile,
                    destination_profile: ANY_PROFILE,
                    command: Command::Delay,
                    line_number,
                },
            )
        },
        DirectiveForm::Switch => {
            let destination_profile = get_profile(capture(groups, 1), table);
            Ok(
                Mock {
                    filenames,
                    patterns,
                    time: None,
                    delay: None,
                    profile: ANY_PROFILE,
                    destination_profile,
                    command: Command::Profile,
                    line_number,
                },
            )
        },
        DirectiveForm::Scoped => {
            let profile = get_profile(capture(groups, 1), table);
            Ok(
                Mock {
                    filenames,
                    patterns,
                    time: None,
                    delay: None,
                    profile,
                    destination_profile: ANY_PROFILE,
                    command: Command::Serve,
                    line_number,
                },
            )
        },
        DirectiveForm::Reset => Ok(
            Mock {
                filenames,
                patterns,
                time: None,
                delay: None,
                profile: DEFAULT_PROFILE,
                destination_profile: ANY_PROFILE,
                command: Command::Reset,
                line_number,
            },
        ),
    }
}

/// What trying the directive forms on a line comes to.
pub enum Recognized {
    /// The pattern of a form that had to be tried is not accepted.
    Unusable,
    /// The first form whose pattern matches the line, with its capture
    /// groups.
    Form(DirectiveForm, Seq<Option<Seq<char>>>),
    /// No form matches the line.
    Nothing,
}

/// Tries the forms from the `from`-th on, in order, on `line`.
pub open spec fn recognize_from(line: Seq<char>, from: int) -> Recognized
    decreases FORMS - from,
{
    if from < 0 || from >= FORMS {
        Recognized::Nothing
    } else if !regex_compiles(pattern_of(form_at(from))) {
        Recognized::Unusable
    } else {
        match regex_captures(pattern_of(form_at(from)), line) {
            Some(groups) => Recognized::Form(form_at(from), groups),
            None => recognize_from(line, from + 1),
        }
    }
}

/// Tries the forms, in order, on `line`.
pub open spec fn recognize(line: Seq<char>) -> Recognized {
    recognize_from(line, 0)
}

/// The rule of the group that begins on `line_number`, has pattern lines
/// `patterns` and ends with the line `filenames`, and the profile names
/// after it. A group without a pattern line is an error, whatever its last
/// line says. A last line that no form matches makes a plain rule, unless it
/// starts with a backtick: then it is an error.
pub open spec fn group_rule(
    patterns: Seq<Seq<char>>,
    filenames: Seq<char>,
    line_number: usize,
    names: Seq<Seq<char>>,
) -> Result<(MockView, Seq<Seq<char>>), ParseError> {
    if patterns.len() == 0 {
        Err(ParseError::Patterns { line_number })
    } else {
        match recognize(filenames) {
            Recognized::Unusable => Err(ParseError::Pattern),
            Recognized::Form(form, groups) => rule_of(
                form,
                groups,
                patterns,
                filenames,
                line_number,
                names,
            ),
            Recognized::Nothing => if filenames.len() > 0 && filenames[0] == '`' {
                Err(ParseError::Instructions { line_number })
            } else {
                Ok((plain_rule(patterns, filenames, line_number), names))
            },
        }
    }
}

/// Builds the rule of one group, which must have a pattern line. It tries
/// the directive forms in order on the group's last line; the first that
/// matches decides.
pub fn parse_group(
    patterns: Vec<String>,
    filenames: String,
    line_number: usize,
    table: &mut ProfileTable,
) -> (made: Result<Mock, ParseError>)
    requires
        old(table).wf(),
        old(table)@.len() < isize::MAX,
    ensures
        final(table).wf(),
        match group_rule(patterns.deep_view(), filenames@, line_number, old(table)@) {
            Ok((rule, names)) => made matches Ok(mock) && mock@ == rule && final(table)@ == names,
            Err(error) => made == Err::<Mock, ParseError>(error) && final(table)@ == old(table)@,
        },
{
    if patterns.len() == 0 {
        return Err(ParseError::Patterns { line_number });
    }
    let mut k: usize = 0;
    while k < FORMS
        invariant
            k <= FORMS,
            patterns.len() > 0,
            recognize(filenames@) == recognize_from(filenames@, k as int),
            table.wf(),
            table@.len() < isize::MAX,
            *table == *old(table),
        decreases FORMS - k,
    {
        let form = DirectiveForm::nth(k);
        match captures(form.pattern(), filenames.as_str()) {
            Err(_) => {
                return Err(ParseError::Pattern);
            },
            Ok(Some(groups)) => {
                return rule_from_captures(form, &groups, patterns, filenames, line_number, table);
            },
            Ok(None) => {},
        }
        k += 1;
    }
    if !filenames.as_str().is_empty() && filenames.as_str().get_char(0) == '`' {
        return Err(ParseError::Instructions { line_number });
    }
    Ok(
        Mock {
            filenames,
            patterns,
            time: None,
            delay: None,
            profile: DEFAULT_PROFILE,
            destination_profile: ANY_PROFILE,
            command: Command::Serve,
            line_number,
        },
    )
}

/// The rule that a group makes is a well-formed one that asks something of
/// a request, where the group's pattern lines are well formed and the
/// profile names were.
pub proof fn lemma_group_rule_wf(
    patterns: Seq<Seq<char>>,
    filenames: Seq<char>,
    line_number: usize,
    names: Seq<Seq<char>>,
)
    requires
        names_wf(names),
        names.len() < isize::MAX,
        forall|i: int| 0 <= i < patterns.len() ==> pattern_wf(#[trigger] patterns[i]),
    ensures
        match group_rule(patterns, filenames, line_number, names) {
            Ok((rule, after)) => rule.wf() && rule.patterns.len() >= 1 && names_wf(after)
                && names.len() <= after.len() <= names.len() + 1,
            Err(_) => true,
        },
{
    match recognize(filenames) {
        Recognized::Form(form, groups) => {
            match group_at(groups, 1) {
                Some(name) => {
                    lemma_with_name_wf(names, name);
                    if id_of(names, name) is Some && name != any_name() {
                        let i = names.index_of(name);
                        assert(names[i] == name);
                    }
                },
                None => {},
            }
        },
        _ => {},
    }
}

} // verus!
