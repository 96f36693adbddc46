use funcgen::tokeniser::{tokenise, GTokenError, GTokenKind, TokenStream};

fn kinds_of(src: &str) -> Vec<Result<GTokenKind, GTokenError>> {
    tokenise(src).into_iter().map(|(k, _)| k).collect()
}

fn ident_name(k: &Result<GTokenKind, GTokenError>) -> String {
    match k {
        Ok(GTokenKind::Ident { name }) => name.clone(),
        other => panic!("expected identifier, got {other:?}"),
    }
}

#[test]
fn simple_rule_tokens() {
    let toks = tokenise("A |u;");
    assert_eq!(toks.len(), 4);
    assert_eq!(ident_name(&toks[0].0), "A");
    assert!(matches!(toks[1].0, Ok(GTokenKind::Bar)));
    assert_eq!(ident_name(&toks[2].0), "u");
    assert!(matches!(toks[3].0, Ok(GTokenKind::Colon)));
}

#[test]
fn spans_on_one_line() {
    let toks = tokenise("A |u;");
    let spans: Vec<_> = toks.iter().map(|(_, s)| *s).collect();
    assert_eq!((spans[0].line, spans[0].startchar, spans[0].length), (0, 0, 1));
    assert_eq!((spans[1].line, spans[1].startchar, spans[1].length), (0, 2, 1));
    assert_eq!((spans[2].line, spans[2].startchar, spans[2].length), (0, 3, 1));
    assert_eq!((spans[3].line, spans[3].startchar, spans[3].length), (0, 4, 1));
}

#[test]
fn identifier_is_maximal_run() {
    let toks = tokenise("alpha_2(beta)");
    assert_eq!(ident_name(&toks[0].0), "alpha_2");
    assert!(matches!(toks[1].0, Ok(GTokenKind::LPar)));
    assert_eq!(ident_name(&toks[2].0), "beta");
    assert!(matches!(toks[3].0, Ok(GTokenKind::RPar)));
    assert_eq!(toks[0].1.length, 7);
}

#[test]
fn comments_and_whitespace_are_skipped() {
    let toks = tokenise("# a comment | ; ( )\n  A # trailing\nB");
    assert_eq!(toks.len(), 2);
    assert_eq!(ident_name(&toks[0].0), "A");
    assert_eq!((toks[0].1.line, toks[0].1.startchar), (1, 2));
    assert_eq!(ident_name(&toks[1].0), "B");
    assert_eq!((toks[1].1.line, toks[1].1.startchar), (2, 0));
}

#[test]
fn unexpected_char_yields_error_and_scanning_continues() {
    let toks = tokenise("@A");
    assert_eq!(toks.len(), 2);
    assert!(matches!(toks[0].0, Err(GTokenError::UnexpectedChar)));
    assert_eq!(toks[0].1.length, 1);
    assert_eq!(ident_name(&toks[1].0), "A");
}

#[test]
fn colon_character_is_not_a_token() {
    // the rule terminator is `;`; a bare `:` is an unexpected character
    let toks = kinds_of("A: u");
    assert!(matches!(toks[1], Err(GTokenError::UnexpectedChar)));
}

#[test]
fn stream_hands_out_tokens_one_at_a_time() {
    let mut ts = TokenStream::new("u|v");
    assert!(matches!(ts.next_token(), Some((Ok(GTokenKind::Ident { .. }), _))));
    assert!(matches!(ts.next_token(), Some((Ok(GTokenKind::Bar), _))));
    assert!(matches!(ts.next_token(), Some((Ok(GTokenKind::Ident { .. }), _))));
    assert!(ts.next_token().is_none());
    assert!(ts.next_token().is_none());
}

#[test]
fn empty_input_has_no_tokens() {
    assert!(tokenise("").is_empty());
    assert!(tokenise(" \t\n# only a comment").is_empty());
}

#[test]
fn token_text_round_trips() {
    let toks = tokenise("name(|,);");
    let texts: Vec<String> = toks
        .iter()
        .map(|(k, _)| k.as_ref().unwrap().as_str().to_string())
        .collect();
    assert_eq!(texts, vec!["name", "(", "|", ",", ")", ";"]);
}

#[test]
fn spans_saturate_past_the_column_ceiling() {
    let mut src = String::new();
    for _ in 0..300 {
        src.push(' ');
    }
    src.push('x');
    let toks = tokenise(&src);
    assert_eq!(toks.len(), 1);
    assert_eq!(toks[0].1.startchar, 255);
    assert_eq!(toks[0].1.length, 1);
}

#[test]
fn cursor_reports_the_scan_position() {
    let mut ts = TokenStream::new("ab\ncd");
    assert_eq!((ts.cursor().line, ts.cursor().col), (0, 0));
    let _ = ts.next_token();
    assert_eq!((ts.cursor().line, ts.cursor().col), (0, 2));
    let _ = ts.next_token();
    assert_eq!((ts.cursor().line, ts.cursor().col), (1, 2));
}

#[test]
fn identifiers_may_hold_unicode_letters() {
    let toks = tokenise("r\u{e9}solu(\u{3b1}\u{3b2}1_x)");
    assert_eq!(toks.len(), 4);
    assert_eq!(ident_name(&toks[0].0), "r\u{e9}solu");
    assert!(matches!(toks[1].0, Ok(GTokenKind::LPar)));
    assert_eq!(ident_name(&toks[2].0), "\u{3b1}\u{3b2}1_x");
    assert!(matches!(toks[3].0, Ok(GTokenKind::RPar)));
}

#[test]
fn non_alphanumeric_unicode_is_still_an_error() {
    let toks = tokenise("\u{20ac}");
    assert_eq!(toks.len(), 1);
    assert!(matches!(toks[0].0, Err(GTokenError::UnexpectedChar)));
}
