use funcgen::parser::{parse_rewrite_rules, Expression, ParseFail, RewriteRules, Term};

fn rule_of<'a>(rr: &'a RewriteRules, name: &str) -> &'a funcgen::parser::RewriteRule {
    &rr.rules.iter().find(|(n, _)| n == name).expect("rule missing").1
}

#[test]
fn single_terminal_rule_parses() {
    let rr = parse_rewrite_rules("A |u;").expect("parse failed");
    assert_eq!(rr.entry_point, "A");
    assert_eq!(rr.rules.len(), 1);
    let a = rule_of(&rr, "A");
    assert!(a.purely_terminal);
    assert_eq!(a.branches.len(), 1);
    assert_eq!(a.branches[0].weight, 1);
    assert!(matches!(a.branches[0].expr, Expression::Terminal(Term::U)));
}

#[test]
fn reference_rule_parses_with_escape_branch() {
    let rr = parse_rewrite_rules("A |B; B |u;").expect("parse failed");
    assert_eq!(rr.entry_point, "A");
    let a = rule_of(&rr, "A");
    assert!(!a.purely_terminal);
    assert_eq!(a.branches.len(), 1);
    match &a.branches[0].expr {
        Expression::ToBeReplaced { rule } => assert_eq!(rule, "B"),
        other => panic!("expected a rule reference, got {other:?}"),
    }
    assert_eq!(a.terminal_branches, vec![0]);
    assert!(rule_of(&rr, "B").purely_terminal);
}

#[test]
fn wrong_arity_is_rejected() {
    match parse_rewrite_rules("A |add(u);") {
        Err(ParseFail::WrongNumberOfFunctionArgs { func, expected, got }) => {
            assert_eq!(func, "add");
            assert_eq!(expected, 2);
            assert_eq!(got, 1);
        },
        other => panic!("expected a wrong-arity failure, got {other:?}"),
    }
}

#[test]
fn entry_rule_without_escape_is_rejected() {
    // every branch of the entry rule recurses into a non-terminal rule
    match parse_rewrite_rules("A |B; B |add(u,u);") {
        Err(ParseFail::NoTerminalReplacementInChannelRule) => {},
        other => panic!("expected the missing-escape failure, got {other:?}"),
    }
}

#[test]
fn bar_counts_become_weights() {
    let rr = parse_rewrite_rules("A |||u |v;").expect("parse failed");
    let a = rule_of(&rr, "A");
    assert_eq!(a.branches.len(), 2);
    assert_eq!(a.branches[0].weight, 3);
    assert_eq!(a.branches[1].weight, 1);
}

#[test]
fn nested_call_keeps_argument_order() {
    let rr = parse_rewrite_rules("A |sig(u,add(v,t),r) |B; B |u;").expect("parse failed");
    let a = rule_of(&rr, "A");
    match &a.branches[0].expr {
        Expression::Func3 { ident, arg0, arg1, arg2 } => {
            assert_eq!(ident, "sig");
            assert!(matches!(**arg0, Expression::Terminal(Term::U)));
            match &**arg1 {
                Expression::Func2 { ident, arg0, arg1 } => {
                    assert_eq!(ident, "add");
                    assert!(matches!(**arg0, Expression::Terminal(Term::V)));
                    assert!(matches!(**arg1, Expression::Terminal(Term::T)));
                },
                other => panic!("expected the inner call, got {other:?}"),
            }
            assert!(matches!(**arg2, Expression::Terminal(Term::R)));
        },
        other => panic!("expected a ternary call, got {other:?}"),
    }
}

#[test]
fn terminal_names_resolve() {
    let rr = parse_rewrite_rules("A |rand |random |u |v |t |r;").expect("parse failed");
    let a = rule_of(&rr, "A");
    let terms: Vec<Term> = a
        .branches
        .iter()
        .map(|b| match b.expr {
            Expression::Terminal(t) => t,
            _ => panic!("expected terminals only"),
        })
        .collect();
    assert_eq!(
        terms,
        vec![Term::RandConst, Term::RandConst, Term::U, Term::V, Term::T, Term::R]
    );
}

#[test]
fn redefined_rule_is_replaced_in_place() {
    let rr = parse_rewrite_rules("A |B; B |add(u,u); B |u;").expect("parse failed");
    assert_eq!(rr.rules.len(), 2);
    let b = rule_of(&rr, "B");
    assert!(b.purely_terminal);
    assert!(matches!(b.branches[0].expr, Expression::Terminal(Term::U)));
}

#[test]
fn unterminated_rule_is_rejected() {
    assert!(matches!(parse_rewrite_rules("A |u"), Err(ParseFail::UnterminatedRule)));
}

#[test]
fn empty_input_has_no_rules() {
    assert!(matches!(parse_rewrite_rules(""), Err(ParseFail::NoRulesFound)));
    assert!(matches!(parse_rewrite_rules("# nothing\n"), Err(ParseFail::NoRulesFound)));
}

#[test]
fn missing_bars_are_rejected() {
    assert!(matches!(parse_rewrite_rules("A u;"), Err(ParseFail::ExpectedBars)));
}

#[test]
fn missing_rule_name_is_rejected() {
    assert!(matches!(parse_rewrite_rules("|u;"), Err(ParseFail::ExpectedIdentifier)));
}

#[test]
fn empty_branch_expression_is_rejected() {
    assert!(matches!(parse_rewrite_rules("A |;"), Err(ParseFail::EmptyExpression)));
}

#[test]
fn unbalanced_argument_list_is_rejected() {
    assert!(matches!(parse_rewrite_rules("A |add(u,u;"), Err(ParseFail::BadArglist)));
}

#[test]
fn unknown_function_is_rejected() {
    match parse_rewrite_rules("A |foo(u,v);") {
        Err(ParseFail::FunctionNotWhitelisted(name)) => assert_eq!(name, "foo"),
        other => panic!("expected the whitelist failure, got {other:?}"),
    }
}

#[test]
fn four_arguments_are_rejected() {
    match parse_rewrite_rules("A |add(u,u,u,u);") {
        Err(ParseFail::UnsupportedNumberOfFunctionArgs(n)) => assert_eq!(n, 4),
        other => panic!("expected the argument-count failure, got {other:?}"),
    }
}

#[test]
fn tokeniser_errors_surface_as_parse_failures() {
    assert!(matches!(parse_rewrite_rules("A |u @;"), Err(ParseFail::TokeniserErr(_))));
}

#[test]
fn overlong_bar_run_is_rejected() {
    let mut src = String::from("A ");
    for _ in 0..256 {
        src.push('|');
    }
    src.push_str("u;");
    assert!(matches!(parse_rewrite_rules(&src), Err(ParseFail::WeightOverflow)));
}

#[test]
fn excessive_total_weight_is_rejected() {
    // 400 branches of weight 200 sum far past the sixteen-bit ceiling
    let mut src = String::from("A ");
    for _ in 0..400 {
        for _ in 0..200 {
            src.push('|');
        }
        src.push_str("u ");
    }
    src.push(';');
    assert!(matches!(parse_rewrite_rules(&src), Err(ParseFail::WeightOverflow)));
}

#[test]
fn unicode_rule_names_parse_and_resolve() {
    let rr = parse_rewrite_rules("entr\u{e9}e |r\u{e8}gle; r\u{e8}gle |u;").expect("parse failed");
    assert_eq!(rr.entry_point, "entr\u{e9}e");
    let a = rule_of(&rr, "entr\u{e9}e");
    assert_eq!(a.terminal_branches, vec![0]);
    assert!(rule_of(&rr, "r\u{e8}gle").purely_terminal);
}
