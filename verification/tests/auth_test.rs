//! Tests of turning prompt answers into credentials.

use libra::command::{
    ask_basic_auth, auth_prompt_accepts, next_auth_step, AuthAction, AuthEvent, AuthPrompt,
    BasicAuth, PasswordInput,
};

#[test]
fn test_answers_are_trimmed() {
    let auth = ask_basic_auth(
        Some("  alice \n".to_string()),
        PasswordInput::Hidden("s3cret\r\n".to_string()),
    );
    assert_eq!(auth.username, "alice");
    assert_eq!(auth.password, "s3cret");
}

#[test]
fn test_unreadable_answers_are_empty() {
    let auth = ask_basic_auth(None, PasswordInput::Typed(None));
    assert_eq!(auth.username, "");
    assert_eq!(auth.password, "");
}

#[test]
fn test_typed_password_is_trimmed() {
    let auth = ask_basic_auth(
        Some("bob".to_string()),
        PasswordInput::Typed(Some("\tpass word\n".to_string())),
    );
    assert_eq!(auth.username, "bob");
    assert_eq!(auth.password, "pass word");
}

#[test]
fn test_unicode_whitespace_is_trimmed() {
    let auth = ask_basic_auth(
        Some("\u{3000}carol\u{a0}\u{2028}".to_string()),
        PasswordInput::Hidden("\u{85}x y\u{200a}".to_string()),
    );
    assert_eq!(auth.username, "carol");
    assert_eq!(auth.password, "x y");
}

/// Runs the prompt, answering each action with the next scripted event.
fn run_prompt(answers: Vec<AuthEvent>) -> (Vec<String>, BasicAuth) {
    let mut log = Vec::new();
    let mut state = AuthPrompt::Start;
    let mut event = AuthEvent::Begin;
    let mut answers = answers.into_iter();
    loop {
        assert!(auth_prompt_accepts(&state, &event));
        let (next, action) = next_auth_step(state, event);
        state = next;
        match action {
            AuthAction::Finish(auth) => return (log, auth),
            other => log.push(format!("{other:?}")),
        }
        event = answers.next().expect("the prompt asked for more than scripted");
    }
}

#[test]
fn test_prompt_hidden_password() {
    let (log, auth) = run_prompt(vec![
        AuthEvent::LineRead(Some("alice\n".to_string())),
        AuthEvent::HiddenInputDisabled(false),
        AuthEvent::HiddenRead(Some(" pw ".to_string())),
    ]);
    assert_eq!(
        log,
        vec![
            "ReadLine(\"username: \")".to_string(),
            "CheckHiddenInput(\"password: \")".to_string(),
            "ReadHidden".to_string(),
        ]
    );
    assert_eq!(auth.username, "alice");
    assert_eq!(auth.password, "pw");
}

#[test]
fn test_prompt_visible_when_hiding_disabled() {
    let (log, auth) = run_prompt(vec![
        AuthEvent::LineRead(Some("bob\n".to_string())),
        AuthEvent::HiddenInputDisabled(true),
        AuthEvent::LineRead(Some("visible\n".to_string())),
    ]);
    assert_eq!(log[2], "ReadLine(\"\")");
    assert_eq!(auth.username, "bob");
    assert_eq!(auth.password, "visible");
}

#[test]
fn test_prompt_falls_back_when_hidden_fails() {
    let (log, auth) = run_prompt(vec![
        AuthEvent::LineRead(None),
        AuthEvent::HiddenInputDisabled(false),
        AuthEvent::HiddenRead(None),
        AuthEvent::LineRead(Some("typed\n".to_string())),
    ]);
    assert_eq!(log[3], "FallBackToLine(\"\")");
    assert_eq!(auth.username, "");
    assert_eq!(auth.password, "typed");
}

#[test]
fn test_prompt_rejects_unexpected_event() {
    assert!(!auth_prompt_accepts(&AuthPrompt::Start, &AuthEvent::HiddenRead(None)));
    assert!(!auth_prompt_accepts(&AuthPrompt::Finished, &AuthEvent::Begin));
    assert!(auth_prompt_accepts(
        &AuthPrompt::ReadingHidden { username: None },
        &AuthEvent::HiddenRead(None)
    ));
}

#[test]
fn test_trimmed_answer_is_its_own_trim() {
    let auth = ask_basic_auth(
        Some(" dave \n".to_string()),
        PasswordInput::Typed(Some("  x\ty  \n".to_string())),
    );
    assert_eq!(auth.username, auth.username.trim());
    assert_eq!(auth.password, "x\ty");
    assert!(!auth.username.contains('\n'));
    let again = ask_basic_auth(Some(auth.username.clone()), PasswordInput::Hidden(auth.password.clone()));
    assert_eq!(again.username, auth.username);
    assert_eq!(again.password, auth.password);
}

#[test]
fn test_prompt_output_ignores_password() {
    let run = |password: &str| {
        run_prompt(vec![
            AuthEvent::LineRead(Some("erin\n".to_string())),
            AuthEvent::HiddenInputDisabled(false),
            AuthEvent::HiddenRead(Some(password.to_string())),
        ])
    };
    let (log1, auth1) = run("first");
    let (log2, auth2) = run("second");
    assert_eq!(log1, log2);
    assert_eq!(auth1.username, auth2.username);
    assert_ne!(auth1.password, auth2.password);
}
