//! Rewrite engine: weighted random expansion of a rule table into a fully
//! resolved expression tree, under a depth cap.
//!
//! The caller hands in the random source (a `ChaCha8Rng`), so seeding stays
//! under the caller's control and the engine holds no shared state.
//!
//! Selection policy: among a rule's branches, selection is weighted (a
//! sixteen-bit draw reduced modulo the weight total picks the branch whose
//! cumulative weight range holds it).  At the depth cap a purely terminal
//! rule expands as usual, and any other rule falls back to one of its usable
//! candidate branches, picked uniformly, whose target rule then expands to a
//! terminal in one step.
//!
//! Generation never panics: a reference to a rule the table does not hold,
//! or a rule reached at the cap with no way out, surfaces as a `GenError`.

use vstd::prelude::*;

use crate::parser::{
    lookup_rule, rule_wf, rules_wf, spec_lookup, sum_weights, tb_ok, BranchV, Expression, ExprV,
    RewriteRule, RewriteRules, RuleV, RulesV,
};

verus! {

#[verifier::external_type_specification]
#[verifier::external_body]
pub struct ExChaCha8Rng(rand_chacha::ChaCha8Rng);

/// Relies on `rand::RngExt::random` for `ChaCha8Rng`: sixteen bits from the
/// generator's stream.  Nothing is assumed of the value.
#[verifier::external_body]
pub(crate) fn draw_u16(rng: &mut rand_chacha::ChaCha8Rng) -> u16 {
    rand::RngExt::random::<u16>(rng)
}

/// Why generation failed.
#[derive(Debug)]
pub enum GenError {
    /// a branch rewrites to a rule the table does not hold
    UnknownRule(String),
    /// a rule reached at the depth cap is not purely terminal and keeps no
    /// usable candidate branch
    NoTerminalReplacement(String),
}

pub enum GenErrorV {
    UnknownRule(Seq<char>),
    NoTerminalReplacement(Seq<char>),
}

impl View for GenError {
    type V = GenErrorV;

    open spec fn view(&self) -> GenErrorV {
        match self {
            GenError::UnknownRule(n) => GenErrorV::UnknownRule(n@),
            GenError::NoTerminalReplacement(n) => GenErrorV::NoTerminalReplacement(n@),
        }
    }
}

/// Whether an expression holds no placeholder node.
pub open spec fn resolved(e: ExprV) -> bool
    decreases e,
{
    match e {
        ExprV::Terminal(..) => true,
        ExprV::Func1 { arg, .. } => resolved(*arg),
        ExprV::Func2 { arg0, arg1, .. } => resolved(*arg0) && resolved(*arg1),
        ExprV::Func3 { arg0, arg1, arg2, .. } => resolved(*arg0) && resolved(*arg1) && resolved(
            *arg2,
        ),
        ExprV::ToBeReplaced { .. } => false,
    }
}

/// Whether every rule reference inside `e` names a rule of the table.
pub open spec fn expr_refs_ok(rs: Seq<(Seq<char>, RuleV)>, e: ExprV) -> bool
    decreases e,
{
    match e {
        ExprV::Terminal(..) => true,
        ExprV::Func1 { arg, .. } => expr_refs_ok(rs, *arg),
        ExprV::Func2 { arg0, arg1, .. } => expr_refs_ok(rs, *arg0) && expr_refs_ok(rs, *arg1),
        ExprV::Func3 { arg0, arg1, arg2, .. } => expr_refs_ok(rs, *arg0) && expr_refs_ok(rs, *arg1)
            && expr_refs_ok(rs, *arg2),
        ExprV::ToBeReplaced { rule } => spec_lookup(rs, rule) is Some,
    }
}

/// Whether every branch expression of every rule references only rules the
/// table holds.
pub open spec fn closed_refs(rv: RulesV) -> bool {
    forall|i: int, j: int|
        0 <= i < rv.rules.len() && 0 <= j < rv.rules[i].1.branches.len() ==> expr_refs_ok(
            rv.rules,
            (#[trigger] rv.rules[i].1.branches[j]).expr,
        )
}

/// What each generation failure attests of the table: an unknown rule is
/// truly absent, and a rule reported without an escape truly stands in the
/// table, not purely terminal and with no usable candidate branch.
pub open spec fn gen_err_wf(rs: Seq<(Seq<char>, RuleV)>, er: GenErrorV) -> bool {
    match er {
        GenErrorV::UnknownRule(n) => spec_lookup(rs, n) is None,
        GenErrorV::NoTerminalReplacement(n) => match spec_lookup(rs, n) {
            Some(q) => !q.purely_terminal && q.terminal_branches.len() == 0,
            None => false,
        },
    }
}

/// Whether every rule of the table can leave the depth cap: it is purely
/// terminal, or it keeps at least one usable candidate branch.
pub open spec fn all_have_escape(rv: RulesV) -> bool {
    forall|i: int|
        0 <= i < rv.rules.len() ==> ((#[trigger] rv.rules[i]).1.purely_terminal
            || rv.rules[i].1.terminal_branches.len() > 0)
}

/// Grammar-directed derivation: `gen_from(rv, t, e, n)` says the finished
/// tree `e` arises from template `t` by resolving every placeholder through
/// some branch of its rule, within `n` rounds of rule expansion.
pub open spec fn gen_from(rv: RulesV, t: ExprV, e: ExprV, n: nat) -> bool
    decreases n, t,
{
    match t {
        ExprV::Terminal(tm) => e == ExprV::Terminal(tm),
        ExprV::Func1 { ident, arg } => match e {
            ExprV::Func1 { ident: ei, arg: ea } => ei == ident && gen_from(rv, *arg, *ea, n),
            _ => false,
        },
        ExprV::Func2 { ident, arg0, arg1 } => match e {
            ExprV::Func2 { ident: ei, arg0: ea0, arg1: ea1 } => ei == ident && gen_from(
                rv,
                *arg0,
                *ea0,
                n,
            ) && gen_from(rv, *arg1, *ea1, n),
            _ => false,
        },
        ExprV::Func3 { ident, arg0, arg1, arg2 } => match e {
            ExprV::Func3 { ident: ei, arg0: ea0, arg1: ea1, arg2: ea2 } => ei == ident
                && gen_from(rv, *arg0, *ea0, n) && gen_from(rv, *arg1, *ea1, n) && gen_from(
                rv,
                *arg2,
                *ea2,
                n,
            ),
            _ => false,
        },
        ExprV::ToBeReplaced { rule } => n > 0 && match spec_lookup(rv.rules, rule) {
            Some(r) => exists|j: int|
                0 <= j < r.branches.len() && gen_from(
                    rv,
                    (#[trigger] r.branches[j]).expr,
                    e,
                    (n - 1) as nat,
                ),
            None => false,
        },
    }
}

/// A derivation within `n` rounds also fits within any larger budget.
proof fn lemma_gen_from_mono(rv: RulesV, t: ExprV, e: ExprV, n: nat, m: nat)
    requires
        gen_from(rv, t, e, n),
        n <= m,
    ensures
        gen_from(rv, t, e, m),
    decreases m, t,
{
    match t {
        ExprV::Terminal(..) => {},
        ExprV::Func1 { ident, arg } => {
            if let ExprV::Func1 { ident: ei, arg: ea } = e {
                lemma_gen_from_mono(rv, *arg, *ea, n, m);
            }
        },
        ExprV::Func2 { ident, arg0, arg1 } => {
            if let ExprV::Func2 { ident: ei, arg0: ea0, arg1: ea1 } = e {
                lemma_gen_from_mono(rv, *arg0, *ea0, n, m);
                lemma_gen_from_mono(rv, *arg1, *ea1, n, m);
            }
        },
        ExprV::Func3 { ident, arg0, arg1, arg2 } => {
            if let ExprV::Func3 { ident: ei, arg0: ea0, arg1: ea1, arg2: ea2 } = e {
                lemma_gen_from_mono(rv, *arg0, *ea0, n, m);
                lemma_gen_from_mono(rv, *arg1, *ea1, n, m);
                lemma_gen_from_mono(rv, *arg2, *ea2, n, m);
            }
        },
        ExprV::ToBeReplaced { rule } => {
            if let Some(r) = spec_lookup(rv.rules, rule) {
                let j = choose|j: int|
                    0 <= j < r.branches.len() && gen_from(
                        rv,
                        (#[trigger] r.branches[j]).expr,
                        e,
                        (n - 1) as nat,
                    );
                lemma_gen_from_mono(rv, r.branches[j].expr, e, (n - 1) as nat, (m - 1) as nat);
            }
        },
    }
}

/// The height of an expression tree: one for a leaf, one more per nesting
/// level of function arguments.
pub open spec fn heightv(e: ExprV) -> int
    decreases e,
{
    match e {
        ExprV::Terminal(..) => 1,
        ExprV::ToBeReplaced { .. } => 1,
        ExprV::Func1 { arg, .. } => 1 + heightv(*arg),
        ExprV::Func2 { arg0, arg1, .. } => 1 + (if heightv(*arg0) >= heightv(*arg1) {
            heightv(*arg0)
        } else {
            heightv(*arg1)
        }),
        ExprV::Func3 { arg0, arg1, arg2, .. } => {
            let h01 = if heightv(*arg0) >= heightv(*arg1) {
                heightv(*arg0)
            } else {
                heightv(*arg1)
            };
            1 + (if h01 >= heightv(*arg2) {
                h01
            } else {
                heightv(*arg2)
            })
        },
    }
}

/// Whether every branch expression of every rule has height at most `b`.
pub open spec fn branches_within(rv: RulesV, b: int) -> bool {
    forall|i: int, j: int|
        0 <= i < rv.rules.len() && 0 <= j < rv.rules[i].1.branches.len() ==> heightv(
            (#[trigger] rv.rules[i].1.branches[j]).expr,
        ) <= b
}

/// The height that expanding one placeholder at `depth` can reach: each
/// level below the cap adds at most one branch expression's height, and at
/// the cap the expansion is a single terminal.
pub open spec fn cap_bound(depth: int, max_depth: int, b: int) -> int
    decreases max_depth - depth,
{
    if depth >= max_depth {
        1
    } else {
        b + cap_bound(depth + 1, max_depth, b)
    }
}

/// With chain branches (every branch expression of height one), the reach
/// bound from depth `d` is the remaining distance to the cap plus one, so a
/// tree generated from depth one never grows past `max_depth` itself.
pub proof fn lemma_cap_bound_chain(d: int, max_depth: int)
    requires
        1 <= d <= max_depth,
    ensures
        cap_bound(d, max_depth, 1) == max_depth - d + 1,
    decreases max_depth - d,
{
    if d < max_depth {
        lemma_cap_bound_chain(d + 1, max_depth);
    }
}

/// The reach bound is at least one and shrinks as depth grows.
proof fn lemma_cap_step(depth: int, max_depth: int, b: int)
    requires
        b >= 1,
    ensures
        cap_bound(depth, max_depth, b) >= 1,
        cap_bound(depth + 1, max_depth, b) <= cap_bound(depth, max_depth, b),
    decreases max_depth - depth,
{
    if depth < max_depth {
        lemma_cap_step(depth + 1, max_depth, b);
    }
}

/// The sum of a weight vector.
pub open spec fn sum16(ws: Seq<u16>) -> int
    decreases ws.len(),
{
    if ws.len() == 0 {
        0
    } else {
        ws[0] + sum16(ws.drop_first())
    }
}

proof fn lemma_sum16_last(ws: Seq<u16>)
    requires
        ws.len() >= 1,
    ensures
        sum16(ws) == sum16(ws.drop_last()) + ws.last(),
    decreases ws.len(),
{
    if ws.len() > 1 {
        lemma_sum16_last(ws.drop_first());
        assert(ws.drop_first().drop_last() =~= ws.drop_last().drop_first());
        assert(ws.drop_first().last() == ws.last());
        assert(ws.drop_last()[0] == ws[0]);
    } else {
        assert(ws.drop_last() =~= Seq::<u16>::empty());
        assert(ws.drop_first() =~= Seq::<u16>::empty());
    }
}

proof fn lemma_sum16_split(ws: Seq<u16>, k: int)
    requires
        0 <= k <= ws.len(),
    ensures
        sum16(ws) == sum16(ws.subrange(0, k)) + sum16(ws.subrange(k, ws.len() as int)),
    decreases k,
{
    if k == 0 {
        assert(ws.subrange(0, 0) =~= Seq::<u16>::empty());
        assert(ws.subrange(0, ws.len() as int) =~= ws);
    } else {
        lemma_sum16_split(ws.drop_first(), k - 1);
        assert(ws.subrange(0, k).drop_first() =~= ws.drop_first().subrange(0, k - 1));
        assert(ws.subrange(k, ws.len() as int) =~= ws.drop_first().subrange(k - 1, ws.len() - 1));
        assert(ws.subrange(0, k)[0] == ws[0]);
    }
}

proof fn lemma_sum16_nonneg(ws: Seq<u16>)
    ensures
        sum16(ws) >= 0,
    decreases ws.len(),
{
    if ws.len() > 0 {
        lemma_sum16_nonneg(ws.drop_first());
    }
}

/// Pointwise equal weights sum alike.
proof fn lemma_sum16_matches_weights(ws: Seq<u16>, bs: Seq<BranchV>)
    requires
        ws.len() == bs.len(),
        forall|i: int| 0 <= i < ws.len() ==> ws[i] as int == (#[trigger] bs[i]).weight,
    ensures
        sum16(ws) == sum_weights(bs),
    decreases ws.len(),
{
    if ws.len() > 0 {
        assert(forall|i: int|
            0 <= i < ws.drop_first().len() ==> (#[trigger] ws.drop_first()[i]) == ws[i + 1]
                && bs.drop_first()[i] == bs[i + 1]);
        lemma_sum16_matches_weights(ws.drop_first(), bs.drop_first());
    }
}

/// The branch whose cumulative weight range holds `cidx`: branch `i` covers
/// `[sum of weights before i, that sum plus its own weight)`.  `None` exactly
/// when `cidx` lies at or past the weight total.
#[verifier::loop_isolation(false)]
pub fn weighted_pick(weights: &Vec<u16>, cidx: u16) -> (r: Option<usize>)
    requires
        sum16(weights@) <= 65535,
    ensures
        match r {
            Some(i) => i < weights@.len() && sum16(weights@.subrange(0, i as int)) <= cidx
                && cidx < sum16(weights@.subrange(0, i as int)) + weights@[i as int],
            None => cidx >= sum16(weights@),
        },
{
    let n = weights.len();
    let mut acc: u32 = 0;
    let mut i: usize = 0;
    proof {
        assert(weights@.subrange(0, 0) =~= Seq::<u16>::empty());
    }
    loop
        invariant
            0 <= i <= n,
            acc == sum16(weights@.subrange(0, i as int)),
            0 <= acc <= 65535,
            cidx >= acc,
        decreases n - i,
    {
        if i >= n {
            proof {
                assert(weights@.subrange(0, n as int) =~= weights@);
            }
            return None;
        }
        proof {
            lemma_sum16_split(weights@, i as int);
            lemma_sum16_split(weights@.subrange(i as int, n as int), 1);
            assert(weights@.subrange(i as int, n as int).subrange(
                1,
                weights@.subrange(i as int, n as int).len() as int,
            ) =~= weights@.subrange(i + 1, n as int));
            assert(weights@.subrange(i as int, n as int).subrange(0, 1) =~= seq![
                weights@[i as int],
            ]);
            assert(sum16(seq![weights@[i as int]]) == weights@[i as int] + sum16(
                seq![weights@[i as int]].drop_first(),
            ));
            assert(seq![weights@[i as int]].drop_first() =~= Seq::<u16>::empty());
            lemma_sum16_nonneg(weights@.subrange(i + 1, n as int));
            assert(weights@.subrange(0, i + 1).drop_last() =~= weights@.subrange(0, i as int));
            lemma_sum16_last(weights@.subrange(0, i + 1));
        }
        let w = weights[i];
        if (cidx as u32) < acc + (w as u32) {
            return Some(i);
        }
        acc = acc + (w as u32);
        i = i + 1;
    }
}

/// A looked-up rule stands in the table.
proof fn lemma_lookup_in_table(rs: Seq<(Seq<char>, RuleV)>, n: Seq<char>)
    ensures
        spec_lookup(rs, n) matches Some(r) ==> exists|i: int|
            0 <= i < rs.len() && #[trigger] rs[i] == (n, r),
    decreases rs.len(),
{
    if rs.len() > 0 {
        if rs[0].0 == n {
            assert(rs[0] == (n, rs[0].1));
        } else {
            lemma_lookup_in_table(rs.drop_first(), n);
            if spec_lookup(rs, n) is Some {
                let r = spec_lookup(rs, n)->Some_0;
                let i = choose|i: int|
                    0 <= i < rs.drop_first().len() && #[trigger] rs.drop_first()[i] == (n, r);
                assert(rs[i + 1] == (n, r));
            }
        }
    }
}

impl Expression {
    /// A structurally equal copy of this tree.
    pub fn duplicate(&self) -> (r: Expression)
        ensures
            r@ == self@,
        decreases self,
    {
        match self {
            Expression::Terminal(t) => Expression::Terminal(*t),
            Expression::Func1 { ident, arg } => Expression::Func1 {
                ident: ident.clone(),
                arg: Box::new(arg.duplicate()),
            },
            Expression::Func2 { ident, arg0, arg1 } => Expression::Func2 {
                ident: ident.clone(),
                arg0: Box::new(arg0.duplicate()),
                arg1: Box::new(arg1.duplicate()),
            },
            Expression::Func3 { ident, arg0, arg1, arg2 } => Expression::Func3 {
                ident: ident.clone(),
                arg0: Box::new(arg0.duplicate()),
                arg1: Box::new(arg1.duplicate()),
                arg2: Box::new(arg2.duplicate()),
            },
            Expression::ToBeReplaced { rule } => Expression::ToBeReplaced { rule: rule.clone() },
        }
    }
}

impl RewriteRule {
    /// One weighted random branch expansion: a sixteen-bit draw, reduced
    /// modulo the weight total, picks the branch whose cumulative weight
    /// range holds it; the result is a copy of that branch's expression.
    #[verifier::loop_isolation(false)]
    pub fn choose_random(&self, rng: &mut rand_chacha::ChaCha8Rng) -> (r: Expression)
        requires
            rule_wf(self@),
        ensures
            exists|i: int| 0 <= i < self@.branches.len() && r@ == (#[trigger] self@.branches[i]).expr,
    {
        let n = self.branches.len();
        let mut weights: Vec<u16> = Vec::new();
        let mut i: usize = 0;
        loop
            invariant
                0 <= i <= n,
                weights@.len() == i,
                forall|j: int|
                    0 <= j < i ==> weights@[j] as int == (#[trigger] self@.branches[j]).weight,
            decreases n - i,
        {
            if i >= n {
                break ;
            }
            proof {
                assert(self@.branches[i as int] == self.branches@[i as int]@);
            }
            weights.push(self.branches[i].weight as u16);
            i = i + 1;
        }
        proof {
            lemma_sum16_matches_weights(weights@, self@.branches);
            lemma_sum16_split(weights@, 1);
            assert(weights@.subrange(0, 1) =~= seq![weights@[0]]);
            assert(sum16(seq![weights@[0]]) == weights@[0] + sum16(
                seq![weights@[0]].drop_first(),
            ));
            assert(seq![weights@[0]].drop_first() =~= Seq::<u16>::empty());
            lemma_sum16_nonneg(weights@.subrange(1, weights@.len() as int));
        }
        let mut total: u32 = 0;
        let mut k: usize = 0;
        proof {
            assert(weights@.subrange(0, 0) =~= Seq::<u16>::empty());
        }
        loop
            invariant
                0 <= k <= n,
                n == weights@.len(),
                total == sum16(weights@.subrange(0, k as int)),
                0 <= total <= 65535,
            decreases n - k,
        {
            if k >= n {
                proof {
                    assert(weights@.subrange(0, n as int) =~= weights@);
                }
                break ;
            }
            proof {
                assert(weights@.subrange(0, k + 1).drop_last() =~= weights@.subrange(0, k as int));
                lemma_sum16_last(weights@.subrange(0, k + 1));
                lemma_sum16_split(weights@, k + 1);
                lemma_sum16_nonneg(weights@.subrange(k + 1, n as int));
            }
            total = total + (weights[k] as u32);
            k = k + 1;
        }
        let total16 = total as u16;
        let draw = draw_u16(rng);
        let cidx = draw % total16;
        let ridx = match weighted_pick(&weights, cidx) {
            Some(i2) => i2,
            None => vstd::pervasive::unreached(),
        };
        proof {
            assert(self@.branches[ridx as int] == self.branches@[ridx as int]@);
        }
        self.branches[ridx].expr.duplicate()
    }

    /// The depth-cap expansion of a rule: a purely terminal rule expands as
    /// usual; any other rule falls back to one of its usable candidate
    /// branches, picked uniformly, whose target rule then expands to a
    /// terminal in one step.  Fails exactly when neither way out exists.
    fn choose_terminal(
        &self,
        name: &String,
        all: &RewriteRules,
        rng: &mut rand_chacha::ChaCha8Rng,
    ) -> (r: Result<Expression, GenError>)
        requires
            rule_wf(self@),
            rules_wf(all@),
            spec_lookup(all@.rules, name@) == Some(self@),
            forall|k: int|
                0 <= k < self@.terminal_branches.len() ==> tb_ok(
                    all@.rules,
                    self@,
                    #[trigger] self@.terminal_branches[k],
                ),
        ensures
            r matches Ok(e) ==> e@ is Terminal,
            r matches Ok(e) ==> gen_from(all@, ExprV::ToBeReplaced { rule: name@ }, e@, 2),
            r is Err <==> (!self@.purely_terminal && self@.terminal_branches.len() == 0),
            r matches Err(e) ==> e@ == GenErrorV::NoTerminalReplacement(name@) && gen_err_wf(
                all@.rules,
                e@,
            ),
    {
        if self.purely_terminal {
            let e = self.choose_random(rng);
            proof {
                let i = choose|i: int|
                    0 <= i < self@.branches.len() && e@ == (#[trigger] self@.branches[i]).expr;
                assert(self@.branches[i].expr is Terminal);
                assert(gen_from(all@, self@.branches[i].expr, e@, 1nat));
                assert(gen_from(all@, ExprV::ToBeReplaced { rule: name@ }, e@, 2nat));
            }
            return Ok(e);
        }
        let m = self.terminal_branches.len();
        if m == 0 {
            return Err(GenError::NoTerminalReplacement(name.clone()));
        }
        let draw = draw_u16(rng);
        let pick = (draw as usize) % m;
        let ridx = self.terminal_branches[pick];
        proof {
            assert(self@.terminal_branches[pick as int] == self.terminal_branches@[pick as int] as int);
            assert(tb_ok(all@.rules, self@, self@.terminal_branches[pick as int]));
            assert(self@.branches[ridx as int] == self.branches@[ridx as int]@);
        }
        let target = match &self.branches[ridx].expr {
            Expression::ToBeReplaced { rule } => rule,
            _ => vstd::pervasive::unreached(),
        };
        let target_rule = match lookup_rule(&all.rules, target) {
            Some(q) => q,
            None => vstd::pervasive::unreached(),
        };
        proof {
            lemma_lookup_in_table(all@.rules, target@);
            let i = choose|i: int|
                0 <= i < all@.rules.len() && #[trigger] all@.rules[i] == (target@, target_rule@);
            assert(rule_wf(all@.rules[i].1));
        }
        let e = target_rule.choose_random(rng);
        proof {
            let i = choose|i: int|
                0 <= i < target_rule@.branches.len() && e@ == (
                #[trigger] target_rule@.branches[i]).expr;
            assert(target_rule@.branches[i].expr is Terminal);
            assert(gen_from(all@, target_rule@.branches[i].expr, e@, 0nat));
            assert(self@.branches[ridx as int].expr == ExprV::ToBeReplaced { rule: target@ });
            assert(gen_from(all@, ExprV::ToBeReplaced { rule: target@ }, e@, 1nat));
            assert(gen_from(all@, ExprV::ToBeReplaced { rule: name@ }, e@, 2nat));
        }
        Ok(e)
    }
}

/// Expand every placeholder of `e`, whose root stands at depth `depth`.
/// A placeholder below the cap expands by weighted random branch selection
/// of its rule, one step deeper; a placeholder at or past the cap takes the
/// rule's depth-cap expansion, which yields a terminal in one step.
fn expand(
    all: &RewriteRules,
    e: &Expression,
    depth: usize,
    max_depth: usize,
    rng: &mut rand_chacha::ChaCha8Rng,
) -> (r: Result<Expression, GenError>)
    requires
        rules_wf(all@),
        1 <= depth,
        1 <= max_depth,
    ensures
        r matches Ok(out) ==> resolved(out@),
        (closed_refs(all@) && all_have_escape(all@) && expr_refs_ok(all@.rules, e@)) ==> r is Ok,
        r matches Err(er) ==> !(closed_refs(all@) && all_have_escape(all@) && expr_refs_ok(
            all@.rules,
            e@,
        )),
        r matches Ok(out) ==> forall|b: int|
            b >= 1 && branches_within(all@, b) ==> heightv(out@) <= heightv(e@) - 1 + #[trigger] cap_bound(
                depth as int,
                max_depth as int,
                b,
            ),
        r matches Ok(out) ==> exists|n: nat| gen_from(all@, e@, out@, n),
        r matches Err(er) ==> gen_err_wf(all@.rules, er@),
    decreases
            (if depth < max_depth {
                (max_depth - depth) as int
            } else {
                0int
            }),
            *e,
{
    let d2 = if depth < max_depth {
        depth + 1
    } else {
        depth
    };
    match e {
        Expression::Terminal(t) => {
            let out = Expression::Terminal(*t);
            proof {
                assert forall|b: int| b >= 1 && branches_within(all@, b) implies heightv(out@)
                    <= heightv(e@) - 1 + #[trigger] cap_bound(
                    depth as int,
                    max_depth as int,
                    b,
                ) by {
                    lemma_cap_step(depth as int, max_depth as int, b);
                }
                assert(gen_from(all@, e@, out@, 0nat));
            }
            Ok(out)
        },
        Expression::Func1 { ident, arg } => match expand(all, arg, d2, max_depth, rng) {
            Err(er) => Err(er),
            Ok(a) => {
                let out = Expression::Func1 { ident: ident.clone(), arg: Box::new(a) };
                proof {
                    let n1 = choose|n: nat| gen_from(all@, arg@, a@, n);
                    assert(gen_from(all@, e@, out@, n1));
                    assert forall|b: int| b >= 1 && branches_within(all@, b) implies heightv(
                        out@,
                    ) <= heightv(e@) - 1 + #[trigger] cap_bound(
                        depth as int,
                        max_depth as int,
                        b,
                    ) by {
                        lemma_cap_step(depth as int, max_depth as int, b);
                        assert(heightv(a@) <= heightv(arg@) - 1 + cap_bound(
                            d2 as int,
                            max_depth as int,
                            b,
                        ));
                    }
                }
                Ok(out)
            },
        },
        Expression::Func2 { ident, arg0, arg1 } => match expand(all, arg0, d2, max_depth, rng) {
            Err(er) => Err(er),
            Ok(a0) => match expand(all, arg1, d2, max_depth, rng) {
                Err(er) => Err(er),
                Ok(a1) => {
                    let out = Expression::Func2 {
                        ident: ident.clone(),
                        arg0: Box::new(a0),
                        arg1: Box::new(a1),
                    };
                    proof {
                        let n1 = choose|n: nat| gen_from(all@, arg0@, a0@, n);
                        let n2 = choose|n: nat| gen_from(all@, arg1@, a1@, n);
                        let nm = if n1 >= n2 {
                            n1
                        } else {
                            n2
                        };
                        lemma_gen_from_mono(all@, arg0@, a0@, n1, nm);
                        lemma_gen_from_mono(all@, arg1@, a1@, n2, nm);
                        assert(gen_from(all@, e@, out@, nm));
                        assert forall|b: int| b >= 1 && branches_within(all@, b) implies heightv(
                            out@,
                        ) <= heightv(e@) - 1 + #[trigger] cap_bound(
                            depth as int,
                            max_depth as int,
                            b,
                        ) by {
                            lemma_cap_step(depth as int, max_depth as int, b);
                            assert(heightv(a0@) <= heightv(arg0@) - 1 + cap_bound(
                                d2 as int,
                                max_depth as int,
                                b,
                            ));
                            assert(heightv(a1@) <= heightv(arg1@) - 1 + cap_bound(
                                d2 as int,
                                max_depth as int,
                                b,
                            ));
                        }
                    }
                    Ok(out)
                },
            },
        },
        Expression::Func3 { ident, arg0, arg1, arg2 } => match expand(
            all,
            arg0,
            d2,
            max_depth,
            rng,
        ) {
            Err(er) => Err(er),
            Ok(a0) => match expand(all, arg1, d2, max_depth, rng) {
                Err(er) => Err(er),
                Ok(a1) => match expand(all, arg2, d2, max_depth, rng) {
                    Err(er) => Err(er),
                    Ok(a2) => {
                        let out = Expression::Func3 {
                            ident: ident.clone(),
                            arg0: Box::new(a0),
                            arg1: Box::new(a1),
                            arg2: Box::new(a2),
                        };
                        proof {
                            let n1 = choose|n: nat| gen_from(all@, arg0@, a0@, n);
                            let n2 = choose|n: nat| gen_from(all@, arg1@, a1@, n);
                            let n3 = choose|n: nat| gen_from(all@, arg2@, a2@, n);
                            let nm = if n1 >= n2 && n1 >= n3 {
                                n1
                            } else if n2 >= n3 {
                                n2
                            } else {
                                n3
                            };
                            lemma_gen_from_mono(all@, arg0@, a0@, n1, nm);
                            lemma_gen_from_mono(all@, arg1@, a1@, n2, nm);
                            lemma_gen_from_mono(all@, arg2@, a2@, n3, nm);
                            assert(gen_from(all@, e@, out@, nm));
                            assert forall|b: int|
                                b >= 1 && branches_within(all@, b) implies heightv(out@)
                                <= heightv(e@) - 1 + #[trigger] cap_bound(
                                depth as int,
                                max_depth as int,
                                b,
                            ) by {
                                lemma_cap_step(depth as int, max_depth as int, b);
                                assert(heightv(a0@) <= heightv(arg0@) - 1 + cap_bound(
                                    d2 as int,
                                    max_depth as int,
                                    b,
                                ));
                                assert(heightv(a1@) <= heightv(arg1@) - 1 + cap_bound(
                                    d2 as int,
                                    max_depth as int,
                                    b,
                                ));
                                assert(heightv(a2@) <= heightv(arg2@) - 1 + cap_bound(
                                    d2 as int,
                                    max_depth as int,
                                    b,
                                ));
                            }
                        }
                        Ok(out)
                    },
                },
            },
        },
        Expression::ToBeReplaced { rule } => match lookup_rule(&all.rules, rule) {
            None => Err(GenError::UnknownRule(rule.clone())),
            Some(rr) => {
                proof {
                    lemma_lookup_in_table(all@.rules, rule@);
                    let i = choose|i: int|
                        0 <= i < all@.rules.len() && #[trigger] all@.rules[i] == (rule@, rr@);
                    assert(rule_wf(all@.rules[i].1));
                    assert(forall|k: int|
                        0 <= k < all@.rules[i].1.terminal_branches.len() ==> tb_ok(
                            all@.rules,
                            all@.rules[i].1,
                            #[trigger] all@.rules[i].1.terminal_branches[k],
                        ));
                }
                if depth < max_depth {
                    let e2 = rr.choose_random(rng);
                    proof {
                        if closed_refs(all@) {
                            let i = choose|i: int|
                                0 <= i < all@.rules.len() && #[trigger] all@.rules[i] == (
                                rule@,
                                rr@,
                            );
                            let j = choose|j: int|
                                0 <= j < rr@.branches.len() && e2@ == (
                                #[trigger] rr@.branches[j]).expr;
                            assert(expr_refs_ok(all@.rules, all@.rules[i].1.branches[j].expr));
                        }
                    }
                    match expand(all, &e2, d2, max_depth, rng) {
                        Err(er) => Err(er),
                        Ok(out) => {
                            proof {
                                let nr = choose|n: nat| gen_from(all@, e2@, out@, n);
                                let j0 = choose|j: int|
                                    0 <= j < rr@.branches.len() && e2@ == (
                                    #[trigger] rr@.branches[j]).expr;
                                assert(gen_from(all@, rr@.branches[j0].expr, out@, nr));
                                assert(gen_from(all@, e@, out@, nr + 1));
                                assert forall|b: int|
                                    b >= 1 && branches_within(all@, b) implies heightv(out@)
                                    <= heightv(e@) - 1 + #[trigger] cap_bound(
                                    depth as int,
                                    max_depth as int,
                                    b,
                                ) by {
                                    lemma_cap_step(depth as int, max_depth as int, b);
                                    let i = choose|i: int|
                                        0 <= i < all@.rules.len() && #[trigger] all@.rules[i]
                                            == (rule@, rr@);
                                    let j = choose|j: int|
                                        0 <= j < rr@.branches.len() && e2@ == (
                                        #[trigger] rr@.branches[j]).expr;
                                    assert(heightv(all@.rules[i].1.branches[j].expr) <= b);
                                    assert(heightv(out@) <= heightv(e2@) - 1 + cap_bound(
                                        d2 as int,
                                        max_depth as int,
                                        b,
                                    ));
                                }
                            }
                            Ok(out)
                        },
                    }
                } else {
                    match rr.choose_terminal(rule, all, rng) {
                        Err(er) => {
                            proof {
                                if all_have_escape(all@) {
                                    let i = choose|i: int|
                                        0 <= i < all@.rules.len() && #[trigger] all@.rules[i] == (
                                        rule@,
                                        rr@,
                                        );
                                    assert(rr@.purely_terminal || rr@.terminal_branches.len() > 0);
                                }
                            }
                            Err(er)
                        },
                        Ok(t) => {
                            proof {
                                assert forall|b: int|
                                    b >= 1 && branches_within(all@, b) implies heightv(t@)
                                    <= heightv(e@) - 1 + #[trigger] cap_bound(
                                    depth as int,
                                    max_depth as int,
                                    b,
                                ) by {
                                    lemma_cap_step(depth as int, max_depth as int, b);
                                }
                            }
                            Ok(t)
                        },
                    }
                }
            },
        },
    }
}

impl RewriteRules {
    /// Generate one fully resolved expression: the entry rule expands once
    /// (the result's root stands at depth one), and every placeholder is
    /// then expanded until none is left, under the depth cap.  On success
    /// the tree holds no placeholder.  When every rule's references stand in
    /// the table and every rule can leave the depth cap, generation always
    /// succeeds — in particular for every table that `parse_rewrite_rules`
    /// accepts whose references are all defined.
    ///
    /// Every successful result derives from the grammar: it arises from the
    /// entry rule's placeholder by resolving placeholders through branches
    /// of their rules (`gen_from`).  Every failure names its culprit
    /// truthfully (`gen_err_wf`): an unknown rule is absent from the table,
    /// and a rule reported without an escape truly keeps none.
    ///
    /// The depth cap bounds the result: when every branch expression has
    /// height at most `b`, the generated tree has height at most
    /// `b - 1 + cap_bound(1, max_depth, b)`; for a grammar of bare
    /// terminals and references (`b` equal to one) that is `max_depth`
    /// itself.
    pub fn gen_fn(&self, max_depth: usize, rng: &mut rand_chacha::ChaCha8Rng) -> (r: Result<
        Expression,
        GenError,
    >)
        requires
            rules_wf(self@),
            max_depth >= 1,
        ensures
            r matches Ok(e) ==> resolved(e@),
            (closed_refs(self@) && all_have_escape(self@)) ==> r is Ok,
            r matches Ok(e) ==> forall|b: int|
                b >= 1 && branches_within(self@, b) ==> heightv(e@) <= b - 1 + #[trigger] cap_bound(
                    1int,
                    max_depth as int,
                    b,
                ),
            r matches Ok(e) ==> exists|n: nat|
                gen_from(self@, ExprV::ToBeReplaced { rule: self@.entry_point }, e@, n),
            r matches Err(er) ==> gen_err_wf(self@.rules, er@),
    {
        let entry = match lookup_rule(&self.rules, &self.entry_point) {
            Some(x) => x,
            None => vstd::pervasive::unreached(),
        };
        proof {
            lemma_lookup_in_table(self@.rules, self@.entry_point);
            let i = choose|i: int|
                0 <= i < self@.rules.len() && #[trigger] self@.rules[i] == (
                self@.entry_point,
                entry@,
            );
            assert(rule_wf(self@.rules[i].1));
        }
        let e0 = entry.choose_random(rng);
        proof {
            if closed_refs(self@) {
                let i = choose|i: int|
                    0 <= i < self@.rules.len() && #[trigger] self@.rules[i] == (
                    self@.entry_point,
                    entry@,
                );
                let j = choose|j: int|
                    0 <= j < entry@.branches.len() && e0@ == (#[trigger] entry@.branches[j]).expr;
                assert(expr_refs_ok(self@.rules, self@.rules[i].1.branches[j].expr));
            }
        }
        let r = expand(self, &e0, 1, max_depth, rng);
        proof {
            match &r {
                Ok(out) => {
                    let nr = choose|n: nat| gen_from(self@, e0@, out@, n);
                    let j0 = choose|j: int|
                        0 <= j < entry@.branches.len() && e0@ == (
                        #[trigger] entry@.branches[j]).expr;
                    assert(gen_from(self@, entry@.branches[j0].expr, out@, nr));
                    assert(gen_from(
                        self@,
                        ExprV::ToBeReplaced { rule: self@.entry_point },
                        out@,
                        nr + 1,
                    ));
                    assert forall|b: int|
                        b >= 1 && branches_within(self@, b) implies heightv(out@) <= b - 1
                        + #[trigger] cap_bound(1int, max_depth as int, b) by {
                        let i = choose|i: int|
                            0 <= i < self@.rules.len() && #[trigger] self@.rules[i] == (
                            self@.entry_point,
                            entry@,
                        );
                        let j = choose|j: int|
                            0 <= j < entry@.branches.len() && e0@ == (
                            #[trigger] entry@.branches[j]).expr;
                        assert(heightv(self@.rules[i].1.branches[j].expr) <= b);
                        assert(heightv(out@) <= heightv(e0@) - 1 + cap_bound(
                            1int,
                            max_depth as int,
                            b,
                        ));
                    }
                },
                Err(..) => {},
            }
        }
        r
    }
}

} // verus!
