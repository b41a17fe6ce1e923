use csgps::{next_token, PsError, ScanStep, Scanner, Token};

fn tokens(src: &str) -> Vec<Token> {
    let mut out = Vec::new();
    let mut pos = 0;
    loop {
        match next_token(src, pos) {
            ScanStep::Done(_) => return out,
            ScanStep::Fail(p) => panic!("scan failed at {}", p),
            ScanStep::Tok(t, end) => {
                out.push(t);
                pos = end;
            }
        }
    }
}

fn run(src: &str) -> (Result<(), PsError>, Vec<String>) {
    let mut scanner = Scanner::new();
    let r = scanner.execute_string(src);
    let out = scanner.take_output();
    (r, out)
}

#[test]
fn integers_with_signs() {
    let ts = tokens("12 +4 -7");
    assert!(matches!(ts[0], Token::Integer(12)));
    assert!(matches!(ts[1], Token::Integer(4)));
    assert!(matches!(ts[2], Token::Integer(-7)));
}

#[test]
fn extreme_integers_parse() {
    let ts = tokens("9223372036854775807 -9223372036854775808");
    assert!(matches!(ts[0], Token::Integer(i64::MAX)));
    assert!(matches!(ts[1], Token::Integer(i64::MIN)));
}

#[test]
fn too_large_integer_is_a_scan_error() {
    let (r, _) = run("9223372036854775808");
    assert!(matches!(r, Err(PsError::ScanError(_))));
}

#[test]
fn reals_keep_their_text() {
    let ts = tokens("3.5 3. .5 -2.75");
    match &ts[0] {
        Token::Real(t) => assert_eq!(t, "3.5"),
        other => panic!("expected a real, got {:?}", other),
    }
    match &ts[1] {
        Token::Real(t) => assert_eq!(t, "3."),
        other => panic!("expected a real, got {:?}", other),
    }
    match &ts[2] {
        Token::Real(t) => assert_eq!(t, ".5"),
        other => panic!("expected a real, got {:?}", other),
    }
    match &ts[3] {
        Token::Real(t) => assert_eq!(t, "-2.75"),
        other => panic!("expected a real, got {:?}", other),
    }
}

#[test]
fn real_prints_its_text() {
    let (r, out) = run("3.5 =");
    assert!(r.is_ok());
    assert_eq!(out, vec!["Real(3.5)".to_string()]);
}

#[test]
fn real_operands_are_a_type_error_for_add() {
    let (r, _) = run("1.5 2.5 add");
    assert_eq!(r, Err(PsError::TypeError));
}

#[test]
fn keywords_beat_identifiers_only_on_exact_match() {
    let ts = tokens("true truex mark marker");
    assert!(matches!(ts[0], Token::Bool(true)));
    assert!(matches!(&ts[1], Token::ExeName(n) if n == "truex"));
    assert!(matches!(ts[2], Token::Mark));
    assert!(matches!(&ts[3], Token::ExeName(n) if n == "marker"));
}

#[test]
fn mark_spellings() {
    let ts = tokens("[ << mark");
    assert!(matches!(ts[0], Token::Mark));
    assert!(matches!(ts[1], Token::Mark));
    assert!(matches!(ts[2], Token::Mark));
}

#[test]
fn glyph_names() {
    let ts = tokens("= == ] >>");
    assert!(matches!(&ts[0], Token::ExeName(n) if n == "="));
    assert!(matches!(&ts[1], Token::ExeName(n) if n == "=="));
    assert!(matches!(&ts[2], Token::ExeName(n) if n == "]"));
    assert!(matches!(&ts[3], Token::ExeName(n) if n == ">>"));
}

#[test]
fn name_classes() {
    let ts = tokens("/lit //imm plain a-b_2");
    assert!(matches!(&ts[0], Token::LitName(n) if n == "lit"));
    assert!(matches!(&ts[1], Token::ImmName(n) if n == "imm"));
    assert!(matches!(&ts[2], Token::ExeName(n) if n == "plain"));
    assert!(matches!(&ts[3], Token::ExeName(n) if n == "a-b_2"));
}

#[test]
fn braces_and_whitespace() {
    let ts = tokens("{ 1\t2\n}\u{c}3");
    assert!(matches!(ts[0], Token::BeginProc));
    assert!(matches!(ts[1], Token::Integer(1)));
    assert!(matches!(ts[2], Token::Integer(2)));
    assert!(matches!(ts[3], Token::EndProc));
    assert!(matches!(ts[4], Token::Integer(3)));
}

#[test]
fn comments_reach_end_of_line() {
    let ts = tokens("1 % two three\n4");
    assert_eq!(ts.len(), 2);
    assert!(matches!(ts[0], Token::Integer(1)));
    assert!(matches!(ts[1], Token::Integer(4)));
}

#[test]
fn unrecognized_byte_reports_its_position() {
    let (r, _) = run("1 2 @");
    assert_eq!(r, Err(PsError::ScanError(4)));
}

#[test]
fn lone_sign_is_a_scan_error() {
    match next_token("-", 0) {
        ScanStep::Fail(0) => (),
        other => panic!("expected a failure at 0, got {:?}", scan_kind(&other)),
    }
}

#[test]
fn lone_angle_brackets_fail() {
    assert!(matches!(next_token("<", 0), ScanStep::Fail(0)));
    assert!(matches!(next_token(">", 0), ScanStep::Fail(0)));
}

#[test]
fn maximal_munch_splits_adjacent_tokens() {
    let ts = tokens("3.5.2");
    assert!(matches!(&ts[0], Token::Real(t) if t == "3.5"));
    assert!(matches!(&ts[1], Token::Real(t) if t == ".2"));
}

#[test]
fn scan_error_keeps_earlier_effects() {
    let mut scanner = Scanner::new();
    let r = scanner.execute_string("7 = @");
    assert!(matches!(r, Err(PsError::ScanError(_))));
    assert_eq!(scanner.take_output(), vec!["Integer(7)".to_string()]);
}

#[test]
fn immediate_name_is_resolved_at_capture_time() {
    let mut scanner = Scanner::new();
    scanner.execute_string("/k 5 def { //k } exec =").unwrap();
    assert_eq!(scanner.take_output(), vec!["Integer(5)".to_string()]);
}

#[test]
fn immediate_name_unbound_fails() {
    let (r, _) = run("//nosuch");
    assert_eq!(r, Err(PsError::UndefinedName));
}

#[test]
fn error_messages_are_stable() {
    assert_eq!(
        PsError::ScanError(12).message(),
        "unrecognized token at position 12"
    );
    assert_eq!(PsError::UnderflowError.message(), "operand stack underflow");
}

fn scan_kind(s: &ScanStep) -> &'static str {
    match s {
        ScanStep::Done(_) => "done",
        ScanStep::Tok(_, _) => "token",
        ScanStep::Fail(_) => "fail",
    }
}
