use funcgen::parser::{parse_expr, Expression, Term};
use funcgen::tokeniser::{tokenise, GTokenKind};
use rand::SeedableRng;
use rand_chacha::ChaCha8Rng;

fn expr_eq(a: &Expression, b: &Expression) -> bool {
    match (a, b) {
        (Expression::Terminal(t1), Expression::Terminal(t2)) => t1 == t2,
        (
            Expression::Func1 { ident: i1, arg: a1 },
            Expression::Func1 { ident: i2, arg: a2 },
        ) => i1 == i2 && expr_eq(a1, a2),
        (
            Expression::Func2 { ident: i1, arg0: x1, arg1: y1 },
            Expression::Func2 { ident: i2, arg0: x2, arg1: y2 },
        ) => i1 == i2 && expr_eq(x1, x2) && expr_eq(y1, y2),
        (
            Expression::Func3 { ident: i1, arg0: x1, arg1: y1, arg2: z1 },
            Expression::Func3 { ident: i2, arg0: x2, arg1: y2, arg2: z2 },
        ) => i1 == i2 && expr_eq(x1, x2) && expr_eq(y1, y2) && expr_eq(z1, z2),
        (
            Expression::ToBeReplaced { rule: r1 },
            Expression::ToBeReplaced { rule: r2 },
        ) => r1 == r2,
        _ => false,
    }
}

fn sample_tree() -> Expression {
    // add(u, mult(v, t))
    Expression::Func2 {
        ident: "add".to_string(),
        arg0: Box::new(Expression::Terminal(Term::U)),
        arg1: Box::new(Expression::Func2 {
            ident: "mult".to_string(),
            arg0: Box::new(Expression::Terminal(Term::V)),
            arg1: Box::new(Expression::Terminal(Term::T)),
        }),
    }
}

#[test]
fn calls_render_without_whitespace() {
    let mut rng = ChaCha8Rng::seed_from_u64(0);
    assert_eq!(sample_tree().as_string(&mut rng), "add(u,mult(v,t))");
}

#[test]
fn named_terminals_render_as_their_names() {
    let mut rng = ChaCha8Rng::seed_from_u64(0);
    assert_eq!(Expression::Terminal(Term::U).as_string(&mut rng), "u");
    assert_eq!(Expression::Terminal(Term::V).as_string(&mut rng), "v");
    assert_eq!(Expression::Terminal(Term::T).as_string(&mut rng), "t");
    assert_eq!(Expression::Terminal(Term::R).as_string(&mut rng), "r");
}

#[test]
fn random_constant_renders_with_two_decimals() {
    for seed in 0..20 {
        let mut rng = ChaCha8Rng::seed_from_u64(seed);
        let s = Expression::Terminal(Term::RandConst).as_string(&mut rng);
        let cs: Vec<char> = s.chars().collect();
        assert_eq!(cs.len(), 4, "unexpected rendering {s}");
        assert_eq!(cs[0], '0');
        assert_eq!(cs[1], '.');
        assert!(cs[2].is_ascii_digit() && cs[3].is_ascii_digit());
    }
}

#[test]
fn placeholder_renders_defensively() {
    let mut rng = ChaCha8Rng::seed_from_u64(0);
    let e = Expression::ToBeReplaced { rule: "X".to_string() };
    assert_eq!(e.as_string(&mut rng), "_");
}

#[test]
fn ternary_call_renders_all_arguments() {
    let mut rng = ChaCha8Rng::seed_from_u64(0);
    let e = Expression::Func3 {
        ident: "sig".to_string(),
        arg0: Box::new(Expression::Terminal(Term::U)),
        arg1: Box::new(Expression::Terminal(Term::V)),
        arg2: Box::new(Expression::Terminal(Term::R)),
    };
    assert_eq!(e.as_string(&mut rng), "sig(u,v,r)");
}

#[test]
fn serialized_tree_tokenises_to_its_call_shape() {
    let mut rng = ChaCha8Rng::seed_from_u64(0);
    let s = sample_tree().as_string(&mut rng);
    let toks = tokenise(&s);
    let names: Vec<String> = toks
        .iter()
        .map(|(k, _)| match k {
            Ok(GTokenKind::Ident { name }) => name.clone(),
            Ok(GTokenKind::LPar) => "(".to_string(),
            Ok(GTokenKind::RPar) => ")".to_string(),
            Ok(GTokenKind::Comma) => ",".to_string(),
            Ok(GTokenKind::Bar) => "|".to_string(),
            Ok(GTokenKind::Colon) => ";".to_string(),
            Err(e) => panic!("unexpected tokeniser error {e:?}"),
        })
        .collect();
    assert_eq!(
        names,
        vec!["add", "(", "u", ",", "mult", "(", "v", ",", "t", ")", ")"]
    );
}

#[test]
fn serialized_tree_parses_back_to_itself() {
    let before = sample_tree();
    let mut rng = ChaCha8Rng::seed_from_u64(0);
    let s = before.as_string(&mut rng);
    let kinds: Vec<GTokenKind> = tokenise(&s)
        .into_iter()
        .map(|(k, _)| k.expect("tokeniser error in rendered text"))
        .collect();
    let n = kinds.len();
    let reparsed = parse_expr(&kinds, 0, n).expect("rendered text failed to parse");
    assert!(expr_eq(&before, &reparsed));
}

#[test]
fn serializing_without_random_constants_leaves_the_source_untouched() {
    let mut rng = ChaCha8Rng::seed_from_u64(5);
    let _ = sample_tree().as_string(&mut rng);
    let after = Expression::Terminal(Term::RandConst).as_string(&mut rng);
    let mut fresh = ChaCha8Rng::seed_from_u64(5);
    let direct = Expression::Terminal(Term::RandConst).as_string(&mut fresh);
    assert_eq!(after, direct);
}
