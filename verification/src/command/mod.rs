//! Shared helpers of the command layer: turning what a user typed at the
//! credential prompt into a [`BasicAuth`].
pub mod byte_order;
pub mod decimal;
pub mod stats;

use vstd::prelude::*;

verus! {

/// Unicode `White_Space` property, the set that `str::trim` strips.
pub open spec fn is_unicode_whitespace(c: char) -> bool {
    ||| ('\u{9}' <= c && c <= '\u{d}')
    ||| c == ' '
    ||| c == '\u{85}'
    ||| c == '\u{a0}'
    ||| c == '\u{1680}'
    ||| ('\u{2000}' <= c && c <= '\u{200a}')
    ||| c == '\u{2028}'
    ||| c == '\u{2029}'
    ||| c == '\u{202f}'
    ||| c == '\u{205f}'
    ||| c == '\u{3000}'
}

/// `s` without its leading whitespace.
pub open spec fn trim_start_spec(s: Seq<char>) -> Seq<char>
    decreases s.len(),
{
    if s.len() > 0 && is_unicode_whitespace(s[0]) {
        trim_start_spec(s.drop_first())
    } else {
        s
    }
}

/// `s` without its trailing whitespace.
pub open spec fn trim_end_spec(s: Seq<char>) -> Seq<char>
    decreases s.len(),
{
    if s.len() > 0 && is_unicode_whitespace(s.last()) {
        trim_end_spec(s.drop_last())
    } else {
        s
    }
}

/// `s` without leading and trailing whitespace.
pub open spec fn trim_spec(s: Seq<char>) -> Seq<char> {
    trim_end_spec(trim_start_spec(s))
}

/// Trimming the start drops a run of whitespace: the result is the suffix
/// from the first character that is not whitespace.
proof fn lemma_trim_start_range(s: Seq<char>) -> (a: int)
    ensures
        0 <= a <= s.len(),
        trim_start_spec(s) == s.subrange(a, s.len() as int),
        forall|i: int| 0 <= i < a ==> is_unicode_whitespace(s[i]),
        a < s.len() ==> !is_unicode_whitespace(s[a]),
    decreases s.len(),
{
    if s.len() > 0 && is_unicode_whitespace(s[0]) {
        let a1 = lemma_trim_start_range(s.drop_first());
        assert(s.drop_first().subrange(a1, s.drop_first().len() as int) =~= s.subrange(
            a1 + 1,
            s.len() as int,
        ));
        assert forall|i: int| 0 <= i < a1 + 1 implies is_unicode_whitespace(s[i]) by {
            if i > 0 {
                assert(s[i] == s.drop_first()[i - 1]);
            }
        }
        a1 + 1
    } else {
        assert(s.subrange(0, s.len() as int) =~= s);
        0
    }
}

/// Trimming the end drops a run of whitespace: the result is the prefix up
/// to the last character that is not whitespace.
proof fn lemma_trim_end_range(s: Seq<char>) -> (b: int)
    ensures
        0 <= b <= s.len(),
        trim_end_spec(s) == s.subrange(0, b),
        forall|i: int| b <= i < s.len() ==> is_unicode_whitespace(s[i]),
        b > 0 ==> !is_unicode_whitespace(s[b - 1]),
    decreases s.len(),
{
    if s.len() > 0 && is_unicode_whitespace(s.last()) {
        let b1 = lemma_trim_end_range(s.drop_last());
        assert(s.drop_last().subrange(0, b1) =~= s.subrange(0, b1));
        assert forall|i: int| b1 <= i < s.len() implies is_unicode_whitespace(s[i]) by {
            if i < s.len() - 1 {
                assert(s[i] == s.drop_last()[i]);
            }
        }
        b1
    } else {
        assert(s.subrange(0, s.len() as int) =~= s);
        s.len() as int
    }
}

/// The trimmed text is a stretch of the input that neither starts nor ends
/// with whitespace, and only whitespace lies outside it.
pub proof fn lemma_trim_range(s: Seq<char>) -> (r: (int, int))
    ensures
        0 <= r.0 <= r.1 <= s.len(),
        trim_spec(s) == s.subrange(r.0, r.1),
        forall|i: int| 0 <= i < r.0 ==> is_unicode_whitespace(s[i]),
        forall|i: int| r.1 <= i < s.len() ==> is_unicode_whitespace(s[i]),
        r.0 < r.1 ==> !is_unicode_whitespace(s[r.0]) && !is_unicode_whitespace(s[r.1 - 1]),
{
    let a = lemma_trim_start_range(s);
    let u = s.subrange(a, s.len() as int);
    let b = lemma_trim_end_range(u);
    assert(u.subrange(0, b) =~= s.subrange(a, a + b));
    assert forall|i: int| a + b <= i < s.len() implies is_unicode_whitespace(s[i]) by {
        assert(s[i] == u[i - a]);
    }
    if b > 0 {
        assert(s[a] == u[0]);
        assert(s[a + b - 1] == u[b - 1]);
        assert(!is_unicode_whitespace(u[0])) by {
            if is_unicode_whitespace(u[0]) {
                assert(a < s.len());
            }
        }
    }
    (a, a + b)
}

/// Trimming twice is trimming once: a trimmed answer is its own trim.
pub proof fn lemma_trim_idempotent(s: Seq<char>)
    ensures
        trim_spec(trim_spec(s)) == trim_spec(s),
{
    let (a, b) = lemma_trim_range(s);
    let t = trim_spec(s);
    let (c, d) = lemma_trim_range(t);
    if t.len() > 0 {
        assert(t[0] == s[a]);
        assert(t[t.len() - 1] == s[b - 1]);
        if c > 0 {
            assert(is_unicode_whitespace(t[0]));
        }
        if d < t.len() {
            assert(is_unicode_whitespace(t[t.len() - 1]));
        }
        assert(t.subrange(c, d) =~= t);
    } else {
        assert(t.subrange(c, d) =~= t);
    }
}

/// A line read from the terminal holds a newline at most at its end; its
/// trimmed text holds none.
pub proof fn lemma_trimmed_line_has_no_newline(s: Seq<char>)
    requires
        forall|i: int| 0 <= i < s.len() - 1 ==> s[i] != '\n',
    ensures
        !trim_spec(s).contains('\n'),
{
    let (a, b) = lemma_trim_range(s);
    let t = trim_spec(s);
    if t.contains('\n') {
        let i = choose|i: int| 0 <= i < t.len() && t[i] == '\n';
        assert(t[i] == s[a + i]);
        if a + i == s.len() - 1 {
            assert(b - 1 == a + i);
        }
    }
}

/// Calls `str::trim` and copies the result into a `String`. Per the standard
/// library's documentation, `trim` removes leading and trailing characters
/// with the Unicode `White_Space` property; the contract states exactly that.
#[verifier::external_body]
fn trim_to_string(s: &str) -> (r: String)
    ensures
        r@ == trim_spec(s@),
{
    s.trim().to_string()
}

/// Username and password for HTTP basic authentication.
#[derive(Debug, Clone)]
pub struct BasicAuth {
    pub username: String,
    pub password: String,
}

/// How the password was obtained at the prompt.
#[derive(Debug)]
pub enum PasswordInput {
    /// The password was typed on a visible line (hidden input was disabled,
    /// or it failed and the prompt fell back to a visible line).
    /// `None` when reading that line failed.
    Typed(Option<String>),
    /// The password was read with terminal echo switched off.
    Hidden(String),
}

/// What one answer at the prompt becomes: the trimmed text, or the empty
/// string when the answer could not be read.
pub open spec fn answer_value(line: Option<String>) -> Seq<char> {
    match line {
        Some(l) => trim_spec(l@),
        None => Seq::empty(),
    }
}

/// The password that a [`PasswordInput`] yields.
pub open spec fn password_value(input: PasswordInput) -> Seq<char> {
    match input {
        PasswordInput::Typed(line) => answer_value(line),
        PasswordInput::Hidden(p) => trim_spec(p@),
    }
}

fn answer_to_string(line: Option<String>) -> (r: String)
    ensures
        r@ == answer_value(line),
{
    match line {
        Some(l) => trim_to_string(l.as_str()),
        None => String::new(),
    }
}

/// Builds the credentials from what was read at the prompt: the line typed
/// for the username (`None` if reading it failed) and the password input.
/// Both values are trimmed; an answer that could not be read is empty.
pub fn ask_basic_auth(username_line: Option<String>, password: PasswordInput) -> (auth: BasicAuth)
    ensures
        auth.username@ == answer_value(username_line),
        auth.password@ == password_value(password),
{
    let username = answer_to_string(username_line);
    let password = match password {
        PasswordInput::Typed(line) => answer_to_string(line),
        PasswordInput::Hidden(p) => trim_to_string(p.as_str()),
    };
    BasicAuth { username, password }
}

/// Where the credential prompt stands.
#[derive(Debug)]
pub enum AuthPrompt {
    /// Nothing asked yet.
    Start,
    /// Waiting for the username line.
    ReadingUsername,
    /// The username is read; waiting to learn whether hidden input is disabled.
    ChoosingInput { username: Option<String> },
    /// Waiting for the password read without echo.
    ReadingHidden { username: Option<String> },
    /// Waiting for a visible password line.
    ReadingTyped { username: Option<String> },
    /// The credentials have been handed out.
    Finished,
}

/// What the terminal side reports back.
#[derive(Debug)]
pub enum AuthEvent {
    /// The prompt is started.
    Begin,
    /// A line of standard input; `None` when reading it failed.
    LineRead(Option<String>),
    /// Whether hidden input is disabled (`LIBRA_NO_HIDE_PASSWORD` is set).
    HiddenInputDisabled(bool),
    /// The password read without echo; `None` when hidden input failed.
    HiddenRead(Option<String>),
}

/// What the terminal side is asked to do next.
#[derive(Debug)]
pub enum AuthAction {
    /// Print the prompt, flush, and read one line.
    ReadLine(String),
    /// Print the prompt, flush, and report whether hidden input is disabled.
    CheckHiddenInput(String),
    /// Read the password without echo.
    ReadHidden,
    /// Warn that hidden input failed, then print the prompt and read one line.
    FallBackToLine(String),
    /// The prompt is over; these are the credentials.
    Finish(BasicAuth),
}

/// The events that the prompt expects in each state.
pub open spec fn auth_accepts(state: AuthPrompt, event: AuthEvent) -> bool {
    match state {
        AuthPrompt::Start => event is Begin,
        AuthPrompt::ReadingUsername => event is LineRead,
        AuthPrompt::ChoosingInput { .. } => event is HiddenInputDisabled,
        AuthPrompt::ReadingHidden { .. } => event is HiddenRead,
        AuthPrompt::ReadingTyped { .. } => event is LineRead,
        AuthPrompt::Finished => false,
    }
}

/// One step of the prompt: the username is asked first, then the password,
/// hidden unless hidden input is disabled, and on a visible line when hidden
/// input fails.
pub open spec fn auth_step(state: AuthPrompt, event: AuthEvent, next: AuthPrompt, action: AuthAction) -> bool {
    match (state, event) {
        (AuthPrompt::Start, AuthEvent::Begin) => {
            &&& next is ReadingUsername
            &&& action matches AuthAction::ReadLine(p)
            &&& p@ == "username: "@
        },
        (AuthPrompt::ReadingUsername, AuthEvent::LineRead(line)) => {
            &&& next == (AuthPrompt::ChoosingInput { username: line })
            &&& action matches AuthAction::CheckHiddenInput(p)
            &&& p@ == "password: "@
        },
        (AuthPrompt::ChoosingInput { username }, AuthEvent::HiddenInputDisabled(disabled)) => {
            if disabled {
                &&& next == (AuthPrompt::ReadingTyped { username })
                &&& action matches AuthAction::ReadLine(p)
                &&& p@ == ""@
            } else {
                &&& next == (AuthPrompt::ReadingHidden { username })
                &&& action is ReadHidden
            }
        },
        (AuthPrompt::ReadingHidden { username }, AuthEvent::HiddenRead(read)) => match read {
            Some(pw) => {
                &&& next is Finished
                &&& action matches AuthAction::Finish(auth)
                &&& auth.username@ == answer_value(username)
                &&& auth.password@ == trim_spec(pw@)
            },
            None => {
                &&& next == (AuthPrompt::ReadingTyped { username })
                &&& action matches AuthAction::FallBackToLine(p)
                &&& p@ == ""@
            },
        },
        (AuthPrompt::ReadingTyped { username }, AuthEvent::LineRead(line)) => {
            &&& next is Finished
            &&& action matches AuthAction::Finish(auth)
            &&& auth.username@ == answer_value(username)
            &&& auth.password@ == answer_value(line)
        },
        _ => false,
    }
}

/// The event that carries the password in `state`: the hidden read, or the
/// visible line once hidden input is off or has failed.
pub open spec fn is_password_event(state: AuthPrompt, event: AuthEvent) -> bool {
    ||| (state is ReadingHidden && event matches AuthEvent::HiddenRead(Some(_)))
    ||| (state is ReadingTyped && event is LineRead)
}

/// The password never reaches the terminal: the only step that receives it
/// ends the prompt, with the same next state and the same username whatever
/// the password is; every other step happens before it is read.
pub proof fn lemma_prompt_ignores_password(
    state: AuthPrompt,
    e1: AuthEvent,
    e2: AuthEvent,
    n1: AuthPrompt,
    a1: AuthAction,
    n2: AuthPrompt,
    a2: AuthAction,
)
    requires
        is_password_event(state, e1),
        is_password_event(state, e2),
        auth_step(state, e1, n1, a1),
        auth_step(state, e2, n2, a2),
    ensures
        n1 == n2,
        n1 is Finished,
        a1 matches AuthAction::Finish(x1) && a2 matches AuthAction::Finish(x2) && x1.username@
            == x2.username@,
{
}

/// `states`, `events` and `actions` form a run of the prompt from its start:
/// step `i` takes `states[i]` on `events[i]` to `states[i + 1]` with
/// `actions[i]`.
pub open spec fn is_prompt_run(
    states: Seq<AuthPrompt>,
    events: Seq<AuthEvent>,
    actions: Seq<AuthAction>,
) -> bool {
    &&& states.len() == events.len() + 1
    &&& actions.len() == events.len()
    &&& states[0] is Start
    &&& forall|i: int|
        #![trigger actions[i]]
        0 <= i < events.len() ==> auth_step(states[i], events[i], states[i + 1], actions[i])
}

/// The state holds `line` as the username read.
spec fn holds_username(state: AuthPrompt, line: Option<String>) -> bool {
    match state {
        AuthPrompt::ChoosingInput { username } => username == line,
        AuthPrompt::ReadingHidden { username } => username == line,
        AuthPrompt::ReadingTyped { username } => username == line,
        _ => false,
    }
}

proof fn lemma_run_holds_username(
    states: Seq<AuthPrompt>,
    events: Seq<AuthEvent>,
    actions: Seq<AuthAction>,
    line: Option<String>,
    j: int,
)
    requires
        is_prompt_run(states, events, actions),
        2 <= j < events.len(),
        events[1] == AuthEvent::LineRead(line),
    ensures
        holds_username(states[j], line),
    decreases j,
{
    assert(auth_step(states[0], events[0], states[1], actions[0]));
    assert(auth_step(states[1], events[1], states[2], actions[1]));
    assert(auth_step(states[j], events[j], states[j + 1], actions[j]));
    if j > 2 {
        lemma_run_holds_username(states, events, actions, line, j - 1);
        assert(auth_step(states[j - 1], events[j - 1], states[j], actions[j - 1]));
    }
}

/// Whatever happens while the password is read (hidden input off, or hidden
/// input failing and the prompt falling back to a visible line), a run that
/// ends with credentials hands out the username from the first line read,
/// trimmed, and the password from the last answer, trimmed.
pub proof fn lemma_prompt_run_credentials(
    states: Seq<AuthPrompt>,
    events: Seq<AuthEvent>,
    actions: Seq<AuthAction>,
    auth: BasicAuth,
)
    requires
        is_prompt_run(states, events, actions),
        actions.len() > 0,
        actions.last() == AuthAction::Finish(auth),
    ensures
        events.len() >= 3,
        events[1] matches AuthEvent::LineRead(line) && auth.username@ == answer_value(line),
        match events.last() {
            AuthEvent::LineRead(line) => auth.password@ == answer_value(line),
            AuthEvent::HiddenRead(Some(p)) => auth.password@ == trim_spec(p@),
            _ => false,
        },
{
    let n: int = events.len() as int;
    assert(auth_step(states[0], events[0], states[1], actions[0]));
    assert(auth_step(states[n - 1], events[n - 1], states[n], actions[n - 1]));
    if n >= 2 {
        assert(auth_step(states[1], events[1], states[2], actions[1]));
    }
    assert(n >= 3);
    let line = match events[1] {
        AuthEvent::LineRead(l) => l,
        _ => None,
    };
    lemma_run_holds_username(states, events, actions, line, n - 1);
}

/// Whether the prompt in `state` expects `event`.
pub fn auth_prompt_accepts(state: &AuthPrompt, event: &AuthEvent) -> (r: bool)
    ensures
        r == auth_accepts(*state, *event),
{
    match state {
        AuthPrompt::Start => matches!(event, AuthEvent::Begin),
        AuthPrompt::ReadingUsername => matches!(event, AuthEvent::LineRead(_)),
        AuthPrompt::ChoosingInput { .. } => matches!(event, AuthEvent::HiddenInputDisabled(_)),
        AuthPrompt::ReadingHidden { .. } => matches!(event, AuthEvent::HiddenRead(_)),
        AuthPrompt::ReadingTyped { .. } => matches!(event, AuthEvent::LineRead(_)),
        AuthPrompt::Finished => false,
    }
}

/// Advances the credential prompt by one event.
pub fn next_auth_step(state: AuthPrompt, event: AuthEvent) -> (r: (AuthPrompt, AuthAction))
    requires
        auth_accepts(state, event),
    ensures
        auth_step(state, event, r.0, r.1),
{
    match (state, event) {
        (AuthPrompt::Start, AuthEvent::Begin) => (
            AuthPrompt::ReadingUsername,
            AuthAction::ReadLine("username: ".to_owned()),
        ),
        (AuthPrompt::ReadingUsername, AuthEvent::LineRead(line)) => (
            AuthPrompt::ChoosingInput { username: line },
            AuthAction::CheckHiddenInput("password: ".to_owned()),
        ),
        (AuthPrompt::ChoosingInput { username }, AuthEvent::HiddenInputDisabled(disabled)) => {
            if disabled {
                (AuthPrompt::ReadingTyped { username }, AuthAction::ReadLine("".to_owned()))
            } else {
                (AuthPrompt::ReadingHidden { username }, AuthAction::ReadHidden)
            }
        },
        (AuthPrompt::ReadingHidden { username }, AuthEvent::HiddenRead(read)) => match read {
            Some(p) => (
                AuthPrompt::Finished,
                AuthAction::Finish(ask_basic_auth(username, PasswordInput::Hidden(p))),
            ),
            None => (AuthPrompt::ReadingTyped { username }, AuthAction::FallBackToLine("".to_owned())),
        },
        (AuthPrompt::ReadingTyped { username }, AuthEvent::LineRead(line)) => (
            AuthPrompt::Finished,
            AuthAction::Finish(ask_basic_auth(username, PasswordInput::Typed(line))),
        ),
        _ => (AuthPrompt::Finished, AuthAction::ReadHidden),
    }
}

} // verus!
