use funcgen::generator::GenError;
use funcgen::parser::{parse_rewrite_rules, Branch, Expression, RewriteRule, Term};
use rand::SeedableRng;
use rand_chacha::ChaCha8Rng;

fn resolved(e: &Expression) -> bool {
    match e {
        Expression::Terminal(..) => true,
        Expression::Func1 { arg, .. } => resolved(arg),
        Expression::Func2 { arg0, arg1, .. } => resolved(arg0) && resolved(arg1),
        Expression::Func3 { arg0, arg1, arg2, .. } => {
            resolved(arg0) && resolved(arg1) && resolved(arg2)
        },
        Expression::ToBeReplaced { .. } => false,
    }
}

fn height(e: &Expression) -> usize {
    match e {
        Expression::Terminal(..) | Expression::ToBeReplaced { .. } => 1,
        Expression::Func1 { arg, .. } => 1 + height(arg),
        Expression::Func2 { arg0, arg1, .. } => 1 + height(arg0).max(height(arg1)),
        Expression::Func3 { arg0, arg1, arg2, .. } => {
            1 + height(arg0).max(height(arg1)).max(height(arg2))
        },
    }
}

#[test]
fn generation_leaves_no_placeholders() {
    let rr = parse_rewrite_rules("A |C |add(B,B) |sig(B,B,B); B |u |v |C |A; C |u |t;").expect("parse failed");
    for seed in 0..40 {
        let mut rng = ChaCha8Rng::seed_from_u64(seed);
        for depth in 1..6 {
            let e = rr.gen_fn(depth, &mut rng).expect("generation failed");
            assert!(resolved(&e), "placeholder left at seed {seed} depth {depth}");
        }
    }
}

#[test]
fn purely_terminal_entry_generates_its_terminal() {
    let rr = parse_rewrite_rules("A |u;").expect("parse failed");
    for depth in [1, 2, 7, 25] {
        let mut rng = ChaCha8Rng::seed_from_u64(3);
        let e = rr.gen_fn(depth, &mut rng).expect("generation failed");
        assert!(matches!(e, Expression::Terminal(Term::U)));
    }
}

#[test]
fn chain_to_terminal_resolves_at_depth_one() {
    let rr = parse_rewrite_rules("A |B; B |u;").expect("parse failed");
    for seed in 0..10 {
        let mut rng = ChaCha8Rng::seed_from_u64(seed);
        let e = rr.gen_fn(1, &mut rng).expect("generation failed");
        assert!(matches!(e, Expression::Terminal(Term::U)));
    }
}

#[test]
fn chain_grammar_respects_the_depth_cap() {
    // every branch is a bare terminal or a bare reference, so generated
    // trees can never grow past the cap
    let rr = parse_rewrite_rules("A |D |B |C; B |u |C |D; C |v |B |D; D |u |v;").expect("parse failed");
    for seed in 0..50 {
        let mut rng = ChaCha8Rng::seed_from_u64(seed);
        for depth in 1..8 {
            let e = rr.gen_fn(depth, &mut rng).expect("generation failed");
            assert!(height(&e) <= depth, "height {} over cap {depth}", height(&e));
        }
    }
}

#[test]
fn weighted_selection_is_near_uniform_for_equal_weights() {
    let rule = RewriteRule {
        branches: vec![
            Branch { weight: 1, expr: Expression::Terminal(Term::U) },
            Branch { weight: 1, expr: Expression::Terminal(Term::V) },
            Branch { weight: 1, expr: Expression::Terminal(Term::T) },
        ],
        terminal_branches: vec![],
        purely_terminal: true,
    };
    let mut rng = ChaCha8Rng::seed_from_u64(0);
    let mut counts = [0usize; 3];
    for _ in 0..10000 {
        match rule.choose_random(&mut rng) {
            Expression::Terminal(Term::U) => counts[0] += 1,
            Expression::Terminal(Term::V) => counts[1] += 1,
            Expression::Terminal(Term::T) => counts[2] += 1,
            other => panic!("unexpected branch {other:?}"),
        }
    }
    assert_eq!(counts[0] + counts[1] + counts[2], 10000);
    for c in counts {
        assert!(
            (3000..=3700).contains(&c),
            "frequency {c} strays too far from a third of the draws"
        );
    }
}

#[test]
fn weights_skew_selection() {
    let rule = RewriteRule {
        branches: vec![
            Branch { weight: 9, expr: Expression::Terminal(Term::U) },
            Branch { weight: 1, expr: Expression::Terminal(Term::V) },
        ],
        terminal_branches: vec![],
        purely_terminal: true,
    };
    let mut rng = ChaCha8Rng::seed_from_u64(1);
    let mut first = 0usize;
    for _ in 0..10000 {
        if matches!(rule.choose_random(&mut rng), Expression::Terminal(Term::U)) {
            first += 1;
        }
    }
    assert!((8700..=9300).contains(&first), "frequency {first} strays from nine tenths");
}

#[test]
fn dangling_reference_surfaces_as_an_error() {
    let rr = parse_rewrite_rules("A |B |missing; B |u;").expect("parse failed");
    let mut saw_unknown = false;
    let mut saw_ok = false;
    for seed in 0..60 {
        let mut rng = ChaCha8Rng::seed_from_u64(seed);
        match rr.gen_fn(5, &mut rng) {
            Ok(e) => {
                assert!(resolved(&e));
                saw_ok = true;
            },
            Err(GenError::UnknownRule(name)) => {
                assert_eq!(name, "missing");
                saw_unknown = true;
            },
            Err(other) => panic!("unexpected failure {other:?}"),
        }
    }
    assert!(saw_unknown && saw_ok);
}

#[test]
fn capped_rule_without_escape_surfaces_as_an_error() {
    // D can be reached at the cap but is neither purely terminal nor keeps
    // a usable candidate branch
    let rr = parse_rewrite_rules("A |B |D; B |u; D |add(D,D) |v;").expect("parse failed");
    let mut saw_no_escape = false;
    for seed in 0..100 {
        let mut rng = ChaCha8Rng::seed_from_u64(seed);
        match rr.gen_fn(2, &mut rng) {
            Ok(e) => assert!(resolved(&e)),
            Err(GenError::NoTerminalReplacement(name)) => {
                assert_eq!(name, "D");
                saw_no_escape = true;
            },
            Err(other) => panic!("unexpected failure {other:?}"),
        }
    }
    assert!(saw_no_escape);
}

#[test]
fn fixed_seed_generates_reproducibly() {
    let rr = parse_rewrite_rules("A |add(B,B) |B; B |u |v |t;").expect("parse failed");
    let mut rng1 = ChaCha8Rng::seed_from_u64(42);
    let mut rng2 = ChaCha8Rng::seed_from_u64(42);
    let e1 = rr.gen_fn(4, &mut rng1).expect("generation failed");
    let e2 = rr.gen_fn(4, &mut rng2).expect("generation failed");
    let mut out1 = ChaCha8Rng::seed_from_u64(7);
    let mut out2 = ChaCha8Rng::seed_from_u64(7);
    assert_eq!(e1.as_string(&mut out1), e2.as_string(&mut out2));
}
