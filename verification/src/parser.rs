//! Grammar parser: consumes tokens, builds a table of weighted rewrite
//! rules, validates function calls against a fixed whitelist, and computes
//! the per-rule termination metadata used by the rewrite engine.
//!
//! A rule is written `name |expr |expr ... ;` — an identifier, then one or
//! more branches, each introduced by one or more `|` characters (their count
//! is the branch's weight), ended by `;`.  An expression is a terminal name,
//! a reference to another rule, or a whitelisted function applied to one,
//! two or three comma-separated argument expressions.  `#` starts a line
//! comment.
//!
//! The whole contract of parsing is `spec_parse`: a mathematical parser over
//! the character sequence, which [`parse_rewrite_rules`] is proved to match
//! exactly, errors included.

use vstd::prelude::*;

use crate::tokeniser::{
    spec_tokens, tokenise, tokens_view, GTokenError, GTokenKind, TokenSpan, TokenV,
};

verus! {

/// A terminal symbol available to generated expressions.
#[derive(Debug, Clone, Copy, PartialEq, Eq, Structural)]
pub enum Term {
    /// a random constant, sampled when the expression is serialized
    RandConst,
    /// horizontal parameter
    U,
    /// vertical parameter
    V,
    /// time
    T,
    /// radius from the centre
    R,
}

/// An expression tree: a terminal, a function call of arity one to three,
/// or a still-unexpanded reference to a rule.
#[derive(Debug)]
pub enum Expression {
    Terminal(Term),
    Func1 { ident: String, arg: Box<Expression> },
    Func2 { ident: String, arg0: Box<Expression>, arg1: Box<Expression> },
    Func3 { ident: String, arg0: Box<Expression>, arg1: Box<Expression>, arg2: Box<Expression> },
    ToBeReplaced { rule: String },
}

/// Mathematical image of an expression tree.
pub enum ExprV {
    Terminal(Term),
    Func1 { ident: Seq<char>, arg: Box<ExprV> },
    Func2 { ident: Seq<char>, arg0: Box<ExprV>, arg1: Box<ExprV> },
    Func3 { ident: Seq<char>, arg0: Box<ExprV>, arg1: Box<ExprV>, arg2: Box<ExprV> },
    ToBeReplaced { rule: Seq<char> },
}

/// Mathematical image of an expression tree.
pub open spec fn expr_view(e: Expression) -> ExprV
    decreases e,
{
    match e {
        Expression::Terminal(t) => ExprV::Terminal(t),
        Expression::Func1 { ident, arg } => ExprV::Func1 {
            ident: ident@,
            arg: Box::new(expr_view(*arg)),
        },
        Expression::Func2 { ident, arg0, arg1 } => ExprV::Func2 {
            ident: ident@,
            arg0: Box::new(expr_view(*arg0)),
            arg1: Box::new(expr_view(*arg1)),
        },
        Expression::Func3 { ident, arg0, arg1, arg2 } => ExprV::Func3 {
            ident: ident@,
            arg0: Box::new(expr_view(*arg0)),
            arg1: Box::new(expr_view(*arg1)),
            arg2: Box::new(expr_view(*arg2)),
        },
        Expression::ToBeReplaced { rule } => ExprV::ToBeReplaced { rule: rule@ },
    }
}

impl View for Expression {
    type V = ExprV;

    open spec fn view(&self) -> ExprV {
        expr_view(*self)
    }
}

/// One weighted alternative of a rule.
#[derive(Debug)]
pub struct Branch {
    /// relative likelihood of this branch, 1 to 255
    pub weight: u8,
    pub expr: Expression,
}

pub struct BranchV {
    pub weight: int,
    pub expr: ExprV,
}

impl View for Branch {
    type V = BranchV;

    open spec fn view(&self) -> BranchV {
        BranchV { weight: self.weight as int, expr: self.expr@ }
    }
}

/// A named rule's alternatives together with its termination metadata.
#[derive(Debug)]
pub struct RewriteRule {
    pub branches: Vec<Branch>,
    /// indices of branches that rewrite to a purely terminal rule; the
    /// choice is restricted to these when the depth cap is reached
    pub terminal_branches: Vec<usize>,
    /// every branch of this rule is a terminal
    pub purely_terminal: bool,
}

pub struct RuleV {
    pub branches: Seq<BranchV>,
    pub terminal_branches: Seq<int>,
    pub purely_terminal: bool,
}

impl View for RewriteRule {
    type V = RuleV;

    open spec fn view(&self) -> RuleV {
        RuleV {
            branches: self.branches@.map_values(|b: Branch| b@),
            terminal_branches: self.terminal_branches@.map_values(|u: usize| u as int),
            purely_terminal: self.purely_terminal,
        }
    }
}

/// The rule table: rule name to rule, in order of first definition, and the
/// entry rule (the first rule defined).
#[derive(Debug)]
pub struct RewriteRules {
    pub rules: Vec<(String, RewriteRule)>,
    pub entry_point: String,
}

pub struct RulesV {
    pub rules: Seq<(Seq<char>, RuleV)>,
    pub entry_point: Seq<char>,
}

impl View for RewriteRules {
    type V = RulesV;

    open spec fn view(&self) -> RulesV {
        RulesV { rules: table_view(self.rules@), entry_point: self.entry_point@ }
    }
}

/// Why a grammar text was rejected.
#[derive(Debug)]
pub enum ParseFail {
    TokeniserErr(GTokenError),
    BadArglist,
    UnterminatedRule,
    EmptyExpression,
    ExpectedIdentifier,
    UnsupportedNumberOfFunctionArgs(usize),
    WrongNumberOfFunctionArgs { func: String, expected: usize, got: usize },
    FunctionNotWhitelisted(String),
    NoRulesFound,
    /// the entry rule has no branch rewriting to a purely terminal rule,
    /// so depth-capped generation could not be guaranteed to finish
    NoTerminalReplacementInChannelRule,
    ExpectedBars,
    /// a branch has more than 255 leading bars, or one rule's weights sum
    /// past 65535
    WeightOverflow,
}

pub enum ParseFailV {
    TokeniserErr(GTokenError),
    BadArglist,
    UnterminatedRule,
    EmptyExpression,
    ExpectedIdentifier,
    UnsupportedNumberOfFunctionArgs(int),
    WrongNumberOfFunctionArgs { func: Seq<char>, expected: int, got: int },
    FunctionNotWhitelisted(Seq<char>),
    NoRulesFound,
    NoTerminalReplacementInChannelRule,
    ExpectedBars,
    WeightOverflow,
}

impl View for ParseFail {
    type V = ParseFailV;

    open spec fn view(&self) -> ParseFailV {
        match self {
            ParseFail::TokeniserErr(e) => ParseFailV::TokeniserErr(*e),
            ParseFail::BadArglist => ParseFailV::BadArglist,
            ParseFail::UnterminatedRule => ParseFailV::UnterminatedRule,
            ParseFail::EmptyExpression => ParseFailV::EmptyExpression,
            ParseFail::ExpectedIdentifier => ParseFailV::ExpectedIdentifier,
            ParseFail::UnsupportedNumberOfFunctionArgs(n) => ParseFailV::UnsupportedNumberOfFunctionArgs(*n as int),
            ParseFail::WrongNumberOfFunctionArgs { func, expected, got } => ParseFailV::WrongNumberOfFunctionArgs {
                func: func@,
                expected: *expected as int,
                got: *got as int,
            },
            ParseFail::FunctionNotWhitelisted(name) => ParseFailV::FunctionNotWhitelisted(name@),
            ParseFail::NoRulesFound => ParseFailV::NoRulesFound,
            ParseFail::NoTerminalReplacementInChannelRule => ParseFailV::NoTerminalReplacementInChannelRule,
            ParseFail::ExpectedBars => ParseFailV::ExpectedBars,
            ParseFail::WeightOverflow => ParseFailV::WeightOverflow,
        }
    }
}

/// The image of a `Result` whose two sides have views of their own.
pub open spec fn res_v<T: View, E: View>(r: Result<T, E>) -> Result<T::V, E::V> {
    match r {
        Ok(t) => Ok(t.view()),
        Err(e) => Err(e.view()),
    }
}

/// The required argument count of a whitelisted function name, if any.
pub open spec fn spec_arity(name: Seq<char>) -> Option<int> {
    if name == "abs"@ || name == "exp"@ || name == "sqrt"@ || name == "sin"@ {
        Some(1int)
    } else if name == "add"@ || name == "mult"@ {
        Some(2int)
    } else if name == "sig"@ {
        Some(3int)
    } else {
        None
    }
}

/// The terminal named by an identifier, if any.
pub open spec fn spec_term_of(name: Seq<char>) -> Option<Term> {
    if name == "rand"@ || name == "random"@ {
        Some(Term::RandConst)
    } else if name == "u"@ {
        Some(Term::U)
    } else if name == "v"@ {
        Some(Term::V)
    } else if name == "t"@ {
        Some(Term::T)
    } else if name == "r"@ {
        Some(Term::R)
    } else {
        None
    }
}

/// Argument ranges of an argument list, split at top-level commas: `k` is
/// the scan position, `j` the start of the current argument, `level` the
/// parenthesis nesting depth.
pub open spec fn spec_split_scan(toks: Seq<TokenV>, k: int, j: int, level: int) -> Seq<(int, int)>
    decreases toks.len() - k,
{
    if k < 0 || k >= toks.len() {
        seq![(j, toks.len() as int)]
    } else {
        let level2 = level + (if toks[k] is LPar {
            1int
        } else {
            0int
        }) - (if toks[k] is RPar {
            1int
        } else {
            0int
        });
        if level2 == 0 && toks[k] is Comma {
            seq![(j, k)] + spec_split_scan(toks, k + 1, k + 1, level2)
        } else {
            spec_split_scan(toks, k + 1, j, level2)
        }
    }
}

/// The argument ranges of a whole argument list.
pub open spec fn spec_split_ranges(toks: Seq<TokenV>) -> Seq<(int, int)> {
    spec_split_scan(toks, 0, 0, 0)
}

proof fn lemma_split_scan_ranges(toks: Seq<TokenV>, k: int, j: int, level: int)
    requires
        0 <= j <= k <= toks.len(),
    ensures
        spec_split_scan(toks, k, j, level).len() >= 1,
        forall|i: int|
            0 <= i < spec_split_scan(toks, k, j, level).len() ==> {
                let r = #[trigger] spec_split_scan(toks, k, j, level)[i];
                j <= r.0 <= r.1 <= toks.len()
            },
    decreases toks.len() - k,
{
    if k < toks.len() {
        let level2 = level + (if toks[k] is LPar {
            1int
        } else {
            0int
        }) - (if toks[k] is RPar {
            1int
        } else {
            0int
        });
        if level2 == 0 && toks[k] is Comma {
            lemma_split_scan_ranges(toks, k + 1, k + 1, level2);
        } else {
            lemma_split_scan_ranges(toks, k + 1, j, level2);
        }
    }
}

/// One argument list's expressions, parsed in order from their ranges.
pub open spec fn spec_parse_args(args: Seq<TokenV>, ranges: Seq<(int, int)>, k: int) -> Result<
    Seq<ExprV>,
    ParseFailV,
>
    decreases args.len(), 1int, ranges.len() - k,
{
    if k < 0 || k >= ranges.len() {
        Ok(seq![])
    } else {
        let (a, b) = ranges[k];
        if 0 <= a <= b <= args.len() {
            match spec_parse_expr(args.subrange(a, b)) {
                Err(e) => Err(e),
                Ok(e) => match spec_parse_args(args, ranges, k + 1) {
                    Err(e2) => Err(e2),
                    Ok(rest) => Ok(seq![e] + rest),
                },
            }
        } else {
            // never reached for ranges of `spec_split_ranges`
            Err(ParseFailV::BadArglist)
        }
    }
}

/// One expression: an identifier alone is a terminal or a rule reference;
/// an identifier followed by a parenthesised argument list is a function
/// call, validated against the whitelist.
pub open spec fn spec_parse_expr(toks: Seq<TokenV>) -> Result<ExprV, ParseFailV>
    decreases toks.len(), 0int, 0int,
{
    let n = toks.len() as int;
    if n == 0 {
        Err(ParseFailV::EmptyExpression)
    } else {
        match toks[0] {
            TokenV::Ident { name } => {
                if n == 1 {
                    match spec_term_of(name) {
                        Some(t) => Ok(ExprV::Terminal(t)),
                        None => Ok(ExprV::ToBeReplaced { rule: name }),
                    }
                } else if toks[1] is LPar && toks[n - 1] is RPar {
                    let args = toks.subrange(2, n - 1);
                    match spec_parse_args(args, spec_split_ranges(args), 0) {
                        Err(e) => Err(e),
                        Ok(es) => spec_mk_call(name, es),
                    }
                } else {
                    Err(ParseFailV::BadArglist)
                }
            },
            _ => Err(ParseFailV::ExpectedIdentifier),
        }
    }
}

/// A call of `name` on parsed arguments `es`: the count must be one to
/// three, the name whitelisted, and the whitelisted arity equal to the
/// count.
pub open spec fn spec_mk_call(name: Seq<char>, es: Seq<ExprV>) -> Result<ExprV, ParseFailV> {
    if 1 <= es.len() <= 3 {
        match spec_arity(name) {
            None => Err(ParseFailV::FunctionNotWhitelisted(name)),
            Some(exp) => {
                if exp != es.len() {
                    Err(
                        ParseFailV::WrongNumberOfFunctionArgs {
                            func: name,
                            expected: exp,
                            got: es.len() as int,
                        },
                    )
                } else if es.len() == 1 {
                    Ok(ExprV::Func1 { ident: name, arg: Box::new(es[0]) })
                } else if es.len() == 2 {
                    Ok(ExprV::Func2 { ident: name, arg0: Box::new(es[0]), arg1: Box::new(es[1]) })
                } else {
                    Ok(
                        ExprV::Func3 {
                            ident: name,
                            arg0: Box::new(es[0]),
                            arg1: Box::new(es[1]),
                            arg2: Box::new(es[2]),
                        },
                    )
                }
            },
        }
    } else {
        Err(ParseFailV::UnsupportedNumberOfFunctionArgs(es.len() as int))
    }
}

/// The number of leading `|` tokens.
pub open spec fn bars_prefix(toks: Seq<TokenV>) -> int
    decreases toks.len(),
{
    if toks.len() == 0 || !(toks[0] is Bar) {
        0
    } else {
        1 + bars_prefix(toks.drop_first())
    }
}

/// The number of tokens before the next `|` token.
pub open spec fn until_bar(toks: Seq<TokenV>) -> int
    decreases toks.len(),
{
    if toks.len() == 0 || toks[0] is Bar {
        0
    } else {
        1 + until_bar(toks.drop_first())
    }
}

pub proof fn lemma_bars_prefix_bounds(toks: Seq<TokenV>)
    ensures
        0 <= bars_prefix(toks) <= toks.len(),
    decreases toks.len(),
{
    if toks.len() > 0 && toks[0] is Bar {
        lemma_bars_prefix_bounds(toks.drop_first());
    }
}

pub proof fn lemma_until_bar_bounds(toks: Seq<TokenV>)
    ensures
        0 <= until_bar(toks) <= toks.len(),
    decreases toks.len(),
{
    if toks.len() > 0 && !(toks[0] is Bar) {
        lemma_until_bar_bounds(toks.drop_first());
    }
}

/// The branches of one rule: each starts with its bars (their count is its
/// weight, one to 255) followed by its expression.
pub open spec fn spec_parse_branches(toks: Seq<TokenV>) -> Result<Seq<BranchV>, ParseFailV>
    decreases toks.len(),
    when toks.len() >= 0
    via spec_parse_branches_dec
{
    if toks.len() == 0 {
        Ok(seq![])
    } else {
        let w = bars_prefix(toks);
        if w == 0 {
            Err(ParseFailV::ExpectedBars)
        } else if w > 255 {
            Err(ParseFailV::WeightOverflow)
        } else {
            let rest = toks.subrange(w, toks.len() as int);
            let bl = until_bar(rest);
            match spec_parse_expr(rest.subrange(0, bl)) {
                Err(e) => Err(e),
                Ok(e) => match spec_parse_branches(rest.subrange(bl, rest.len() as int)) {
                    Err(e2) => Err(e2),
                    Ok(bs) => Ok(seq![BranchV { weight: w, expr: e }] + bs),
                },
            }
        }
    }
}

#[via_fn]
proof fn spec_parse_branches_dec(toks: Seq<TokenV>) {
    lemma_bars_prefix_bounds(toks);
    let w = bars_prefix(toks);
    if 0 < w <= toks.len() {
        lemma_until_bar_bounds(toks.subrange(w, toks.len() as int));
    }
}

/// The candidate depth-cap branches: indices of branches whose expression
/// is a rule reference, in order.
pub open spec fn spec_candidates(bs: Seq<BranchV>, i: int) -> Seq<int>
    decreases bs.len() - i,
{
    if i < 0 || i >= bs.len() {
        seq![]
    } else if bs[i].expr is ToBeReplaced {
        seq![i] + spec_candidates(bs, i + 1)
    } else {
        spec_candidates(bs, i + 1)
    }
}

/// Whether every branch's expression is a terminal.
pub open spec fn all_terminal(bs: Seq<BranchV>) -> bool {
    forall|i: int| 0 <= i < bs.len() ==> (#[trigger] bs[i].expr) is Terminal
}

/// The sum of all branch weights of one rule.
pub open spec fn sum_weights(bs: Seq<BranchV>) -> int
    decreases bs.len(),
{
    if bs.len() == 0 {
        0
    } else {
        bs[0].weight + sum_weights(bs.drop_first())
    }
}

/// One rule: its name, then its branches; the rule records the candidate
/// depth-cap branches and whether it is purely terminal.  A rule whose
/// weights sum past 65535 is rejected, so that weighted selection can
/// accumulate into sixteen bits.
pub open spec fn spec_parse_rule(toks: Seq<TokenV>) -> Result<(Seq<char>, RuleV), ParseFailV> {
    if toks.len() == 0 {
        Err(ParseFailV::ExpectedIdentifier)
    } else {
        match toks[0] {
            TokenV::Ident { name } => match spec_parse_branches(toks.drop_first()) {
                Err(e) => Err(e),
                Ok(bs) => {
                    if bs.len() == 0 {
                        Err(ParseFailV::ExpectedBars)
                    } else if sum_weights(bs) > 65535 {
                        Err(ParseFailV::WeightOverflow)
                    } else {
                        Ok(
                            (
                                name,
                                RuleV {
                                    branches: bs,
                                    terminal_branches: spec_candidates(bs, 0),
                                    purely_terminal: all_terminal(bs),
                                },
                            ),
                        )
                    }
                },
            },
            _ => Err(ParseFailV::ExpectedIdentifier),
        }
    }
}

/// The rules of the token stream, in parse order: tokens are collected
/// until a `;`, which ends one rule; a tokeniser error surfaces as
/// `TokeniserErr`; input ending inside an unterminated rule is an error.
pub open spec fn spec_parse_all(
    toks: Seq<Result<TokenV, GTokenError>>,
    cur: Seq<TokenV>,
) -> Result<Seq<(Seq<char>, RuleV)>, ParseFailV>
    decreases toks.len(),
{
    if toks.len() == 0 {
        if cur.len() == 0 {
            Ok(seq![])
        } else {
            Err(ParseFailV::UnterminatedRule)
        }
    } else {
        match toks[0] {
            Err(e) => Err(ParseFailV::TokeniserErr(e)),
            Ok(TokenV::Colon) => match spec_parse_rule(cur) {
                Err(e) => Err(e),
                Ok(nr) => match spec_parse_all(toks.drop_first(), seq![]) {
                    Err(e2) => Err(e2),
                    Ok(rest) => Ok(seq![nr] + rest),
                },
            },
            Ok(k) => spec_parse_all(toks.drop_first(), cur.push(k)),
        }
    }
}

/// Insert a parsed rule into the table: a redefinition replaces the earlier
/// rule in place, otherwise the rule is appended.
pub open spec fn spec_insert_rule(
    rs: Seq<(Seq<char>, RuleV)>,
    name: Seq<char>,
    r: RuleV,
) -> Seq<(Seq<char>, RuleV)>
    decreases rs.len(),
{
    if rs.len() == 0 {
        seq![(name, r)]
    } else if rs[0].0 == name {
        seq![(name, r)] + rs.drop_first()
    } else {
        seq![rs[0]] + spec_insert_rule(rs.drop_first(), name, r)
    }
}

/// The rule table built from the parsed rules, in order.
pub open spec fn spec_build_table(list: Seq<(Seq<char>, RuleV)>) -> Seq<(Seq<char>, RuleV)>
    decreases list.len(),
{
    if list.len() == 0 {
        seq![]
    } else {
        spec_insert_rule(spec_build_table(list.drop_last()), list.last().0, list.last().1)
    }
}

/// The rule of a given name, if the table holds one.
pub open spec fn spec_lookup(rs: Seq<(Seq<char>, RuleV)>, name: Seq<char>) -> Option<RuleV>
    decreases rs.len(),
{
    if rs.len() == 0 {
        None
    } else if rs[0].0 == name {
        Some(rs[0].1)
    } else {
        spec_lookup(rs.drop_first(), name)
    }
}

/// Whether candidate branch `bi` of rule `r` may be taken at the depth cap:
/// it rewrites to a rule of the table all of whose branches are terminals.
pub open spec fn tb_ok(table: Seq<(Seq<char>, RuleV)>, r: RuleV, bi: int) -> bool {
    0 <= bi < r.branches.len() && match r.branches[bi].expr {
        ExprV::ToBeReplaced { rule } => match spec_lookup(table, rule) {
            Some(q) => q.purely_terminal,
            None => false,
        },
        _ => false,
    }
}

/// The candidate indices among `tbs` that pass the depth-cap filter.
pub open spec fn spec_filter_tb(table: Seq<(Seq<char>, RuleV)>, r: RuleV, tbs: Seq<int>) -> Seq<
    int,
>
    decreases tbs.len(),
{
    if tbs.len() == 0 {
        seq![]
    } else {
        let rest = spec_filter_tb(table, r, tbs.drop_first());
        if tb_ok(table, r, tbs[0]) {
            seq![tbs[0]] + rest
        } else {
            rest
        }
    }
}

/// A rule with its candidate branches filtered down to the usable ones.
pub open spec fn spec_filter_rule(table: Seq<(Seq<char>, RuleV)>, r: RuleV) -> RuleV {
    RuleV {
        branches: r.branches,
        terminal_branches: spec_filter_tb(table, r, r.terminal_branches),
        purely_terminal: r.purely_terminal,
    }
}

/// The whole table after the depth-cap filter pass.
pub open spec fn spec_filter_all(table: Seq<(Seq<char>, RuleV)>) -> Seq<(Seq<char>, RuleV)> {
    Seq::new(table.len(), |i: int| (table[i].0, spec_filter_rule(table, table[i].1)))
}

/// The full parse of a grammar text: tokenise, parse rules, build the
/// table, filter the depth-cap candidates, and check that the entry rule
/// (the first rule defined) keeps at least one of them.
pub open spec fn spec_parse(s: Seq<char>) -> Result<RulesV, ParseFailV> {
    let toks = spec_tokens(s).map_values(
        |p: (Result<TokenV, GTokenError>, TokenSpan)| p.0,
    );
    match spec_parse_all(toks, seq![]) {
        Err(e) => Err(e),
        Ok(list) => {
            if list.len() == 0 {
                Err(ParseFailV::NoRulesFound)
            } else {
                let table = spec_build_table(list);
                let filtered = spec_filter_all(table);
                let entry = list[0].0;
                match spec_lookup(filtered, entry) {
                    Some(er) => {
                        if er.terminal_branches.len() == 0 && !er.purely_terminal {
                            Err(ParseFailV::NoTerminalReplacementInChannelRule)
                        } else {
                            Ok(RulesV { rules: filtered, entry_point: entry })
                        }
                    },
                    // never reached: every parsed rule stands in the table
                    None => Err(ParseFailV::NoRulesFound),
                }
            }
        },
    }
}

/// Well-formedness of one rule, as the rewrite engine relies on it.
pub open spec fn rule_wf(r: RuleV) -> bool {
    &&& r.branches.len() >= 1
    &&& forall|i: int| 0 <= i < r.branches.len() ==> 1 <= (#[trigger] r.branches[i]).weight <= 255
    &&& sum_weights(r.branches) <= 65535
    &&& forall|k: int|
        0 <= k < r.terminal_branches.len() ==> 0 <= #[trigger] r.terminal_branches[k]
            < r.branches.len() && r.branches[r.terminal_branches[k]].expr is ToBeReplaced
    &&& (r.purely_terminal ==> all_terminal(r.branches))
}

/// Well-formedness of a parsed grammar: every rule is well formed, names
/// are unique, the entry rule stands in the table and can leave the depth
/// cap (it is purely terminal or keeps a usable candidate branch), and
/// every kept candidate branch rewrites to a purely terminal rule of the
/// table.
pub open spec fn rules_wf(rv: RulesV) -> bool {
    &&& rv.rules.len() >= 1
    &&& forall|i: int| 0 <= i < rv.rules.len() ==> rule_wf((#[trigger] rv.rules[i]).1)
    &&& forall|i: int, j: int| 0 <= i < j < rv.rules.len() ==> rv.rules[i].0 != rv.rules[j].0
    &&& match spec_lookup(rv.rules, rv.entry_point) {
        Some(er) => er.purely_terminal || er.terminal_branches.len() >= 1,
        None => false,
    }
    &&& forall|i: int, k: int|
        0 <= i < rv.rules.len() && 0 <= k < rv.rules[i].1.terminal_branches.len() ==> tb_ok(
            rv.rules,
            rv.rules[i].1,
            #[trigger] rv.rules[i].1.terminal_branches[k],
        )
}

/// The token kinds of a token sequence, as their mathematical images.
pub open spec fn kinds_view(s: Seq<GTokenKind>) -> Seq<TokenV> {
    s.map_values(|k: GTokenKind| k@)
}

/// The images of a sequence of parsed expressions.
pub open spec fn exprs_view(s: Seq<Expression>) -> Seq<ExprV> {
    s.map_values(|e: Expression| e@)
}

fn str_is(a: &String, lit: &str) -> (r: bool)
    ensures
        r == (a@ == lit@),
{
    let s = lit.to_owned();
    *a == s
}

/// The whitelisted argument count of a function name, if any.
fn whitelist_arity(name: &String) -> (r: Option<usize>)
    ensures
        match r {
            Some(k) => spec_arity(name@) == Some(k as int),
            None => spec_arity(name@) is None,
        },
{
    if str_is(name, "abs") || str_is(name, "exp") || str_is(name, "sqrt") || str_is(name, "sin") {
        Some(1)
    } else if str_is(name, "add") || str_is(name, "mult") {
        Some(2)
    } else if str_is(name, "sig") {
        Some(3)
    } else {
        None
    }
}

/// The terminal an identifier names, if any.
fn term_from_str(name: &String) -> (r: Option<Term>)
    ensures
        r == spec_term_of(name@),
{
    if str_is(name, "rand") || str_is(name, "random") {
        Some(Term::RandConst)
    } else if str_is(name, "u") {
        Some(Term::U)
    } else if str_is(name, "v") {
        Some(Term::V)
    } else if str_is(name, "t") {
        Some(Term::T)
    } else if str_is(name, "r") {
        Some(Term::R)
    } else {
        None
    }
}

/// A copy of one token.
fn dup_token(k: &GTokenKind) -> (r: GTokenKind)
    ensures
        r@ == k@,
{
    match k {
        GTokenKind::Ident { name } => GTokenKind::Ident { name: name.clone() },
        GTokenKind::LPar => GTokenKind::LPar,
        GTokenKind::RPar => GTokenKind::RPar,
        GTokenKind::Comma => GTokenKind::Comma,
        GTokenKind::Bar => GTokenKind::Bar,
        GTokenKind::Colon => GTokenKind::Colon,
    }
}

/// Ranges shifted down by `off`, as mathematical pairs.
pub open spec fn shift_ranges(rs: Seq<(usize, usize)>, off: int) -> Seq<(int, int)> {
    rs.map_values(|p: (usize, usize)| (p.0 - off, p.1 - off))
}

/// Split the argument tokens `toks[start..end]` at top-level commas,
/// returning the argument ranges as absolute index pairs.
fn split_arglist(toks: &Vec<GTokenKind>, start: usize, end: usize) -> (r: Vec<(usize, usize)>)
    requires
        start <= end <= toks@.len(),
    ensures
        ({
            let sr = spec_split_ranges(kinds_view(toks@).subrange(start as int, end as int));
            &&& r@.len() == sr.len()
            &&& forall|i: int|
                0 <= i < sr.len() ==> (#[trigger] r@[i]).0 == sr[i].0 + start && r@[i].1 == sr[i].1
                    + start
        }),
{
    let ghost s = kinds_view(toks@).subrange(start as int, end as int);
    let mut out: Vec<(usize, usize)> = Vec::new();
    let mut j = start;
    let mut k = start;
    let mut level: i128 = 0;
    loop
        invariant
            start <= j <= k <= end <= toks@.len(),
            s == kinds_view(toks@).subrange(start as int, end as int),
            -(k - start as int) <= level <= k - start as int,
            forall|i: int|
                0 <= i < out@.len() ==> start <= (#[trigger] out@[i]).0 && out@[i].0 <= out@[i].1
                    <= end,
            spec_split_ranges(s) == shift_ranges(out@, start as int) + spec_split_scan(
                s,
                k - start as int,
                j - start as int,
                level as int,
            ),
        ensures
            k == end,
            start <= j <= end,
            forall|i: int|
                0 <= i < out@.len() ==> start <= (#[trigger] out@[i]).0 && out@[i].0 <= out@[i].1
                    <= end,
            spec_split_ranges(s) == shift_ranges(out@, start as int) + spec_split_scan(
                s,
                k - start as int,
                j - start as int,
                level as int,
            ),
        decreases end - k,
    {
        if k >= end {
            break ;
        }
        let is_lpar = matches!(&toks[k], GTokenKind::LPar);
        let is_rpar = matches!(&toks[k], GTokenKind::RPar);
        let is_comma = matches!(&toks[k], GTokenKind::Comma);
        let level2: i128 = level + (if is_lpar {
            1
        } else {
            0
        }) - (if is_rpar {
            1
        } else {
            0
        });
        proof {
            assert(s[k - start as int] == toks@[k as int]@);
        }
        if level2 == 0 && is_comma {
            let ghost out_old = out@;
            out.push((j, k));
            proof {
                assert(shift_ranges(out@, start as int) =~= shift_ranges(out_old, start as int)
                    + seq![(j - start as int, k - start as int)]);
                assert(shift_ranges(out@, start as int) + spec_split_scan(
                    s,
                    k + 1 - start as int,
                    k + 1 - start as int,
                    level2 as int,
                ) =~= shift_ranges(out_old, start as int) + (seq![
                    (j - start as int, k - start as int),
                ] + spec_split_scan(
                    s,
                    k + 1 - start as int,
                    k + 1 - start as int,
                    level2 as int,
                )));
            }
            j = k + 1;
        }
        level = level2;
        k = k + 1;
    }
    let ghost out_old = out@;
    out.push((j, end));
    proof {
        assert(spec_split_scan(s, k - start as int, j - start as int, level as int) == seq![
            (j - start as int, s.len() as int),
        ]);
        assert(shift_ranges(out@, start as int) =~= shift_ranges(out_old, start as int) + seq![
            (j - start as int, end - start as int),
        ]);
        assert(s.len() == end - start as int);
        let sr = spec_split_ranges(s);
        assert(sr =~= shift_ranges(out@, start as int));
        assert forall|i: int| 0 <= i < sr.len() implies (#[trigger] out@[i]).0 == sr[i].0
            + start && out@[i].1 == sr[i].1 + start by {
            assert(sr[i] == shift_ranges(out@, start as int)[i]);
        }
    }
    out
}

/// Parse the expression held by `toks[start..end]`.
#[verifier::loop_isolation(false)]
pub fn parse_expr(toks: &Vec<GTokenKind>, start: usize, end: usize) -> (r: Result<
    Expression,
    ParseFail,
>)
    requires
        start <= end <= toks@.len(),
    ensures
        res_v(r) == spec_parse_expr(kinds_view(toks@).subrange(start as int, end as int)),
    decreases end - start,
{
    let ghost s = kinds_view(toks@).subrange(start as int, end as int);
    let n = end - start;
    if n == 0 {
        return Err(ParseFail::EmptyExpression);
    }
    proof {
        assert(s[0] == toks@[start as int]@);
    }
    let name = match &toks[start] {
        GTokenKind::Ident { name } => name.clone(),
        _ => {
            return Err(ParseFail::ExpectedIdentifier);
        },
    };
    if n == 1 {
        match term_from_str(&name) {
            Some(t) => Ok(Expression::Terminal(t)),
            None => Ok(Expression::ToBeReplaced { rule: name }),
        }
    } else {
        proof {
            assert(s[1] == toks@[start + 1]@);
            assert(s[s.len() - 1] == toks@[end - 1]@);
        }
        let is_lp = matches!(&toks[start + 1], GTokenKind::LPar);
        let is_rp = matches!(&toks[end - 1], GTokenKind::RPar);
        if is_lp && is_rp {
            let ghost args_s = kinds_view(toks@).subrange(start + 2, end - 1);
            proof {
                assert(args_s =~= s.subrange(2, s.len() - 1));
                lemma_split_scan_ranges(args_s, 0, 0, 0);
            }
            let ghost sr = spec_split_ranges(args_s);
            let ranges = split_arglist(toks, start + 2, end - 1);
            let mut es: Vec<Expression> = Vec::new();
            let mut k: usize = 0;
            loop
                invariant
                    0 <= k <= ranges@.len(),
                    start + 2 <= end - 1 <= toks@.len(),
                    s == kinds_view(toks@).subrange(start as int, end as int),
                    args_s == kinds_view(toks@).subrange(start + 2, end - 1),
                    sr == spec_split_ranges(args_s),
                    ranges@.len() == sr.len(),
                    forall|i: int|
                        0 <= i < sr.len() ==> (#[trigger] ranges@[i]).0 == sr[i].0 + start + 2
                            && ranges@[i].1 == sr[i].1 + start + 2,
                    forall|i: int| 0 <= i < sr.len() ==> 0 <= (#[trigger] sr[i]).0 <= sr[i].1
                        <= args_s.len(),
                    spec_parse_args(args_s, sr, 0) == match spec_parse_args(args_s, sr, k as int) {
                        Ok(rest) => Ok(exprs_view(es@) + rest),
                        Err(e) => Err::<Seq<ExprV>, ParseFailV>(e),
                    },
                decreases ranges@.len() - k,
            {
                if k >= ranges.len() {
                    proof {
                        assert(spec_parse_args(args_s, sr, k as int) == Ok::<
                            Seq<ExprV>,
                            ParseFailV,
                        >(seq![]));
                        assert(exprs_view(es@) + seq![] =~= exprs_view(es@));
                    }
                    break ;
                }
                let (a, b) = ranges[k];
                proof {
                    assert(kinds_view(toks@).subrange(a as int, b as int) =~= args_s.subrange(
                        sr[k as int].0,
                        sr[k as int].1,
                    ));
                }
                match parse_expr(toks, a, b) {
                    Err(e) => {
                        proof {
                            assert(spec_parse_args(args_s, sr, k as int) == Err::<
                                Seq<ExprV>,
                                ParseFailV,
                            >(e@));
                            assert(spec_parse_args(args_s, sr, 0) == Err::<
                                Seq<ExprV>,
                                ParseFailV,
                            >(e@));
                            assert(spec_parse_expr(s) == Err::<ExprV, ParseFailV>(e@));
                        }
                        return Err(e);
                    },
                    Ok(ex) => {
                        let ghost es_old = es@;
                        es.push(ex);
                        proof {
                            assert(exprs_view(es@) =~= exprs_view(es_old) + seq![ex@]);
                            assert(forall|rest: Seq<ExprV>|
                                (exprs_view(es_old) + (seq![ex@] + rest)) =~= (exprs_view(es@)
                                    + rest));
                        }
                    },
                }
                k = k + 1;
            }
            let cnt = es.len();
            if 1 <= cnt && cnt <= 3 {
                match whitelist_arity(&name) {
                    None => Err(ParseFail::FunctionNotWhitelisted(name)),
                    Some(exp) => {
                        if exp != cnt {
                            Err(
                                ParseFail::WrongNumberOfFunctionArgs {
                                    func: name,
                                    expected: exp,
                                    got: cnt,
                                },
                            )
                        } else if cnt == 1 {
                            let a0 = match es.pop() {
                                Some(x) => x,
                                None => vstd::pervasive::unreached(),
                            };
                            Ok(Expression::Func1 { ident: name, arg: Box::new(a0) })
                        } else if cnt == 2 {
                            let a1 = match es.pop() {
                                Some(x) => x,
                                None => vstd::pervasive::unreached(),
                            };
                            let a0 = match es.pop() {
                                Some(x) => x,
                                None => vstd::pervasive::unreached(),
                            };
                            Ok(
                                Expression::Func2 {
                                    ident: name,
                                    arg0: Box::new(a0),
                                    arg1: Box::new(a1),
                                },
                            )
                        } else {
                            let a2 = match es.pop() {
                                Some(x) => x,
                                None => vstd::pervasive::unreached(),
                            };
                            let a1 = match es.pop() {
                                Some(x) => x,
                                None => vstd::pervasive::unreached(),
                            };
                            let a0 = match es.pop() {
                                Some(x) => x,
                                None => vstd::pervasive::unreached(),
                            };
                            Ok(
                                Expression::Func3 {
                                    ident: name,
                                    arg0: Box::new(a0),
                                    arg1: Box::new(a1),
                                    arg2: Box::new(a2),
                                },
                            )
                        }
                    },
                }
            } else {
                Err(ParseFail::UnsupportedNumberOfFunctionArgs(cnt))
            }
        } else {
            Err(ParseFail::BadArglist)
        }
    }
}

/// The number of consecutive `|` tokens from `start`.
#[verifier::loop_isolation(false)]
fn count_bars(toks: &Vec<GTokenKind>, start: usize, end: usize) -> (r: usize)
    requires
        start <= end <= toks@.len(),
    ensures
        r == bars_prefix(kinds_view(toks@).subrange(start as int, end as int)),
        r <= end - start,
{
    let ghost s = kinds_view(toks@).subrange(start as int, end as int);
    let mut i = start;
    loop
        invariant
            start <= i <= end,
            bars_prefix(s) == i - start + bars_prefix(
                kinds_view(toks@).subrange(i as int, end as int),
            ),
        decreases end - i,
    {
        if i >= end {
            break ;
        }
        let is_bar = matches!(&toks[i], GTokenKind::Bar);
        proof {
            let sub = kinds_view(toks@).subrange(i as int, end as int);
            assert(sub[0] == toks@[i as int]@);
            assert(sub.drop_first() =~= kinds_view(toks@).subrange(i + 1, end as int));
        }
        if is_bar {
            i = i + 1;
        } else {
            break ;
        }
    }
    proof {
        lemma_bars_prefix_bounds(kinds_view(toks@).subrange(i as int, end as int));
    }
    i - start
}

/// The index of the next `|` token at or past `start`, or `end`.
#[verifier::loop_isolation(false)]
fn find_bar(toks: &Vec<GTokenKind>, start: usize, end: usize) -> (r: usize)
    requires
        start <= end <= toks@.len(),
    ensures
        start <= r <= end,
        r - start == until_bar(kinds_view(toks@).subrange(start as int, end as int)),
{
    let ghost s = kinds_view(toks@).subrange(start as int, end as int);
    let mut i = start;
    loop
        invariant
            start <= i <= end,
            until_bar(s) == i - start + until_bar(
                kinds_view(toks@).subrange(i as int, end as int),
            ),
        decreases end - i,
    {
        if i >= end {
            break ;
        }
        let is_bar = matches!(&toks[i], GTokenKind::Bar);
        proof {
            let sub = kinds_view(toks@).subrange(i as int, end as int);
            assert(sub[0] == toks@[i as int]@);
            assert(sub.drop_first() =~= kinds_view(toks@).subrange(i + 1, end as int));
        }
        if is_bar {
            break ;
        } else {
            i = i + 1;
        }
    }
    i
}

/// Parse one whole rule (name, then branches) from its tokens.
#[verifier::loop_isolation(false)]
pub fn parse_rewrite_rule(toks: &Vec<GTokenKind>) -> (r: Result<(String, RewriteRule), ParseFail>)
    ensures
        res_v(r) == spec_parse_rule(kinds_view(toks@)),
        r matches Ok(p) ==> rule_wf(p.1@),
{
    let ghost s = kinds_view(toks@);
    let n = toks.len();
    if n == 0 {
        return Err(ParseFail::ExpectedIdentifier);
    }
    proof {
        assert(s[0] == toks@[0]@);
    }
    let rule_ident = match &toks[0] {
        GTokenKind::Ident { name } => name.clone(),
        _ => {
            return Err(ParseFail::ExpectedIdentifier);
        },
    };
    let mut branches: Vec<Branch> = Vec::new();
    let mut i: usize = 1;
    proof {
        assert(s.drop_first() =~= kinds_view(toks@).subrange(1int, n as int));
    }
    loop
        invariant
            1 <= i <= n,
            spec_parse_branches(s.drop_first()) == match spec_parse_branches(
                kinds_view(toks@).subrange(i as int, n as int),
            ) {
                Ok(rest) => Ok::<Seq<BranchV>, ParseFailV>(
                    branches@.map_values(|b: Branch| b@) + rest,
                ),
                Err(e) => Err::<Seq<BranchV>, ParseFailV>(e),
            },
        decreases n - i,
    {
        if i >= n {
            proof {
                assert(branches@.map_values(|b: Branch| b@) + Seq::<BranchV>::empty()
                    =~= branches@.map_values(|b: Branch| b@));
            }
            break ;
        }
        let ghost rem = kinds_view(toks@).subrange(i as int, n as int);
        let w = count_bars(toks, i, n);
        proof {
            lemma_bars_prefix_bounds(rem);
        }
        if w == 0 {
            return Err(ParseFail::ExpectedBars);
        }
        if w > 255 {
            return Err(ParseFail::WeightOverflow);
        }
        proof {
            assert(rem.subrange(w as int, rem.len() as int) =~= kinds_view(toks@).subrange(
                i + w,
                n as int,
            ));
        }
        let body_end = find_bar(toks, i + w, n);
        let ghost rest = rem.subrange(w as int, rem.len() as int);
        proof {
            lemma_until_bar_bounds(rest);
            assert(rest.subrange(0, until_bar(rest)) =~= kinds_view(toks@).subrange(
                i + w,
                body_end as int,
            ));
            assert(rest.subrange(until_bar(rest), rest.len() as int) =~= kinds_view(
                toks@,
            ).subrange(body_end as int, n as int));
        }
        match parse_expr(toks, i + w, body_end) {
            Err(e) => {
                return Err(e);
            },
            Ok(ex) => {
                let ghost bs_old = branches@;
                branches.push(Branch { weight: w as u8, expr: ex });
                proof {
                    assert(branches@.map_values(|b: Branch| b@) =~= bs_old.map_values(
                        |b: Branch| b@,
                    ) + seq![Branch { weight: w as u8, expr: ex }@]);
                    assert(forall|rest2: Seq<BranchV>|
                        (bs_old.map_values(|b: Branch| b@) + (seq![
                            BranchV { weight: w as int, expr: ex@ },
                        ] + rest2)) =~= (branches@.map_values(|b: Branch| b@) + rest2));
                }
            },
        }
        i = body_end;
    }
    // the loop established that the branch list parses exactly
    let bs = branches;
    let ghost bsv = bs@.map_values(|b: Branch| b@);
    if bs.len() == 0 {
        return Err(ParseFail::ExpectedBars);
    }
    // weight sum, depth-cap candidates, and the purely-terminal flag
    let mut total: u32 = 0;
    let mut cands: Vec<usize> = Vec::new();
    let mut purely = true;
    let mut k: usize = 0;
    proof {
        assert forall|j: int| 0 <= j < bsv.len() implies (#[trigger] bsv[j]).weight >= 0 by {
            assert(bsv[j] == bs@[j]@);
        }
    }
    loop
        invariant
            0 <= k <= bs@.len(),
            total == sum_weights(bsv.subrange(0, k as int)),
            total <= 65535,
            spec_candidates(bsv, 0) == cands@.map_values(|u: usize| u as int) + spec_candidates(
                bsv,
                k as int,
            ),
            purely == (forall|j: int| 0 <= j < k ==> (#[trigger] bsv[j].expr) is Terminal),
        decreases bs@.len() - k,
    {
        if k >= bs.len() {
            proof {
                assert(cands@.map_values(|u: usize| u as int) + Seq::<int>::empty()
                    =~= cands@.map_values(|u: usize| u as int));
                assert(bsv.subrange(0, k as int) =~= bsv);
            }
            break ;
        }
        proof {
            assert(bsv.subrange(0, k + 1).drop_last() =~= bsv.subrange(0, k as int));
            lemma_sum_weights_last(bsv.subrange(0, k + 1));
        }
        total = total + bs[k].weight as u32;
        if total > 65535 {
            proof {
                lemma_sum_weights_split(bsv, k + 1);
                lemma_sum_weights_nonneg(bsv.subrange(k + 1, bsv.len() as int));
            }
            return Err(ParseFail::WeightOverflow);
        }
        let is_tbr = matches!(&bs[k].expr, Expression::ToBeReplaced { .. });
        let is_term = matches!(&bs[k].expr, Expression::Terminal(..));
        if is_tbr {
            let ghost cands_old = cands@;
            cands.push(k);
            proof {
                assert(cands@.map_values(|u: usize| u as int) =~= cands_old.map_values(
                    |u: usize| u as int,
                ) + seq![k as int]);
                assert(forall|rest2: Seq<int>|
                    (cands_old.map_values(|u: usize| u as int) + (seq![k as int] + rest2))
                        =~= (cands@.map_values(|u: usize| u as int) + rest2));
            }
        }
        if !is_term {
            purely = false;
        }
        k = k + 1;
    }
    proof {
        assert(all_terminal(bsv) == purely);
        lemma_parse_branches_weights(s.drop_first());
        lemma_candidates_props(bsv, 0);
    }
    Ok(
        (
            rule_ident,
            RewriteRule { branches: bs, terminal_branches: cands, purely_terminal: purely },
        ),
    )
}

/// Splitting the weight sum at the last branch.
proof fn lemma_sum_weights_last(bs: Seq<BranchV>)
    requires
        bs.len() >= 1,
    ensures
        sum_weights(bs) == sum_weights(bs.drop_last()) + bs.last().weight,
    decreases bs.len(),
{
    if bs.len() > 1 {
        lemma_sum_weights_last(bs.drop_first());
        assert(bs.drop_first().drop_last() =~= bs.drop_last().drop_first());
        assert(bs.drop_first().last() == bs.last());
        assert(bs.drop_last()[0] == bs[0]);
    } else {
        assert(bs.drop_last() =~= Seq::<BranchV>::empty());
        assert(bs.drop_first() =~= Seq::<BranchV>::empty());
    }
}

/// The weight sum splits at any index.
proof fn lemma_sum_weights_split(bs: Seq<BranchV>, k: int)
    requires
        0 <= k <= bs.len(),
    ensures
        sum_weights(bs) == sum_weights(bs.subrange(0, k)) + sum_weights(
            bs.subrange(k, bs.len() as int),
        ),
    decreases k,
{
    if k == 0 {
        assert(bs.subrange(0, 0) =~= Seq::<BranchV>::empty());
        assert(bs.subrange(0, bs.len() as int) =~= bs);
    } else {
        lemma_sum_weights_split(bs.drop_first(), k - 1);
        assert(bs.subrange(0, k).drop_first() =~= bs.drop_first().subrange(0, k - 1));
        assert(bs.subrange(k, bs.len() as int) =~= bs.drop_first().subrange(
            k - 1,
            bs.len() - 1,
        ));
        assert(bs.subrange(0, k)[0] == bs[0]);
    }
}

/// A sum of nonnegative weights is nonnegative.
proof fn lemma_sum_weights_nonneg(bs: Seq<BranchV>)
    requires
        forall|i: int| 0 <= i < bs.len() ==> (#[trigger] bs[i]).weight >= 0,
    ensures
        sum_weights(bs) >= 0,
    decreases bs.len(),
{
    if bs.len() > 0 {
        lemma_sum_weights_nonneg(bs.drop_first());
    }
}

/// Every parsed branch's weight lies between one and 255.
proof fn lemma_parse_branches_weights(toks: Seq<TokenV>)
    ensures
        spec_parse_branches(toks) matches Ok(bs) ==> forall|i: int|
            0 <= i < bs.len() ==> 1 <= (#[trigger] bs[i]).weight <= 255,
    decreases toks.len(),
{
    if toks.len() > 0 {
        lemma_bars_prefix_bounds(toks);
        let w = bars_prefix(toks);
        if 1 <= w <= 255 {
            let rest = toks.subrange(w, toks.len() as int);
            lemma_until_bar_bounds(rest);
            let bl = until_bar(rest);
            lemma_parse_branches_weights(rest.subrange(bl, rest.len() as int));
        }
    }
}

/// Candidate indices point at rule-reference branches within bounds.
proof fn lemma_candidates_props(bs: Seq<BranchV>, i: int)
    ensures
        forall|k: int|
            0 <= k < spec_candidates(bs, i).len() ==> {
                let x = #[trigger] spec_candidates(bs, i)[k];
                0 <= x < bs.len() && bs[x].expr is ToBeReplaced
            },
    decreases bs.len() - i,
{
    if 0 <= i < bs.len() {
        lemma_candidates_props(bs, i + 1);
    }
}

/// Insertion keeps every rule well formed, keeps names unique, and adds no
/// name but the inserted one.
proof fn lemma_insert_props(rs: Seq<(Seq<char>, RuleV)>, name: Seq<char>, r: RuleV)
    requires
        forall|i: int| 0 <= i < rs.len() ==> rule_wf((#[trigger] rs[i]).1),
        rule_wf(r),
        forall|i: int, j: int| 0 <= i < j < rs.len() ==> rs[i].0 != rs[j].0,
    ensures
        ({
            let out = spec_insert_rule(rs, name, r);
            &&& out.len() >= 1
            &&& forall|i: int| 0 <= i < out.len() ==> rule_wf((#[trigger] out[i]).1)
            &&& forall|i: int, j: int| 0 <= i < j < out.len() ==> out[i].0 != out[j].0
            &&& forall|j: int|
                0 <= j < out.len() ==> (#[trigger] out[j]).0 == name || exists|i: int|
                    0 <= i < rs.len() && rs[i].0 == out[j].0
        }),
    decreases rs.len(),
{
    let out = spec_insert_rule(rs, name, r);
    if rs.len() == 0 {
    } else if rs[0].0 == name {
        assert(forall|j: int|
            1 <= j < out.len() ==> (#[trigger] out[j]) == rs.drop_first()[j - 1] && rs.drop_first()[
                j - 1] == rs[j]);
    } else {
        let rest = spec_insert_rule(rs.drop_first(), name, r);
        lemma_insert_props(rs.drop_first(), name, r);
        assert(forall|i: int|
            0 <= i < rs.drop_first().len() ==> (#[trigger] rs.drop_first()[i]) == rs[i + 1]);
        assert(out[0] == rs[0]);
        assert(forall|j: int| 1 <= j < out.len() ==> (#[trigger] out[j]) == rest[j - 1]);
        assert forall|i: int, j: int| 0 <= i < j < out.len() implies out[i].0 != out[j].0 by {
            if i == 0 {
                if rest[j - 1].0 == name {
                    assert(rs[0].0 != name);
                } else {
                    let k = choose|k: int|
                        0 <= k < rs.drop_first().len() && rs.drop_first()[k].0 == rest[j - 1].0;
                    assert(rs[k + 1].0 == rest[j - 1].0);
                }
            }
        }
    }
}

/// The built table holds only well-formed rules under unique names.
proof fn lemma_build_props(list: Seq<(Seq<char>, RuleV)>)
    requires
        forall|i: int| 0 <= i < list.len() ==> rule_wf((#[trigger] list[i]).1),
    ensures
        ({
            let out = spec_build_table(list);
            &&& forall|i: int| 0 <= i < out.len() ==> rule_wf((#[trigger] out[i]).1)
            &&& forall|i: int, j: int| 0 <= i < j < out.len() ==> out[i].0 != out[j].0
        }),
    decreases list.len(),
{
    if list.len() > 0 {
        lemma_build_props(list.drop_last());
        assert(forall|i: int|
            0 <= i < list.drop_last().len() ==> (#[trigger] list.drop_last()[i]) == list[i]);
        lemma_insert_props(spec_build_table(list.drop_last()), list.last().0, list.last().1);
    }
}

/// Every index kept by the depth-cap filter passes `tb_ok`.
proof fn lemma_filter_tb_props(table: Seq<(Seq<char>, RuleV)>, r: RuleV, tbs: Seq<int>)
    ensures
        forall|k: int|
            0 <= k < spec_filter_tb(table, r, tbs).len() ==> tb_ok(
                table,
                r,
                #[trigger] spec_filter_tb(table, r, tbs)[k],
            ),
    decreases tbs.len(),
{
    if tbs.len() > 0 {
        lemma_filter_tb_props(table, r, tbs.drop_first());
        let rest = spec_filter_tb(table, r, tbs.drop_first());
        let out = spec_filter_tb(table, r, tbs);
        if tb_ok(table, r, tbs[0]) {
            assert(out == seq![tbs[0]] + rest);
            assert forall|k: int| 0 <= k < out.len() implies tb_ok(table, r, out[k]) by {
                if k == 0 {
                    assert(out[0] == tbs[0]);
                } else {
                    assert(out[k] == rest[k - 1]);
                }
            }
        }
    }
}

/// Lookup through a pointwise-filtered table.
proof fn lemma_lookup_pointwise(
    t: Seq<(Seq<char>, RuleV)>,
    u: Seq<(Seq<char>, RuleV)>,
    t0: Seq<(Seq<char>, RuleV)>,
    n: Seq<char>,
)
    requires
        u.len() == t.len(),
        forall|i: int| 0 <= i < t.len() ==> (#[trigger] u[i]).0 == t[i].0,
        forall|i: int| 0 <= i < t.len() ==> (#[trigger] u[i]).1 == spec_filter_rule(t0, t[i].1),
    ensures
        spec_lookup(u, n) == match spec_lookup(t, n) {
            Some(r) => Some(spec_filter_rule(t0, r)),
            None => None,
        },
    decreases t.len(),
{
    if t.len() > 0 && t[0].0 != n {
        assert(forall|i: int|
            0 <= i < t.drop_first().len() ==> (#[trigger] u.drop_first()[i]) == u[i + 1]
                && t.drop_first()[i] == t[i + 1]);
        lemma_lookup_pointwise(t.drop_first(), u.drop_first(), t0, n);
    }
}

/// The table as its mathematical image.
pub open spec fn table_view(rs: Seq<(String, RewriteRule)>) -> Seq<(Seq<char>, RuleV)> {
    rs.map_values(|p: (String, RewriteRule)| (p.0@, p.1@))
}

fn string_eq(a: &String, b: &String) -> (r: bool)
    ensures
        r == (a@ == b@),
{
    a.eq(b)
}

/// Inserting over an existing name replaces it in place.
proof fn lemma_insert_found(rs: Seq<(Seq<char>, RuleV)>, name: Seq<char>, r: RuleV, i: int)
    requires
        0 <= i < rs.len(),
        rs[i].0 == name,
        forall|j: int| 0 <= j < i ==> (#[trigger] rs[j]).0 != name,
    ensures
        spec_insert_rule(rs, name, r) =~= rs.update(i, (name, r)),
    decreases i,
{
    if i == 0 {
        assert(spec_insert_rule(rs, name, r) == seq![(name, r)] + rs.drop_first());
    } else {
        assert(forall|j: int|
            0 <= j < rs.drop_first().len() ==> (#[trigger] rs.drop_first()[j]) == rs[j + 1]);
        lemma_insert_found(rs.drop_first(), name, r, i - 1);
        assert(spec_insert_rule(rs, name, r) == seq![rs[0]] + spec_insert_rule(
            rs.drop_first(),
            name,
            r,
        ));
    }
}

/// Inserting a fresh name appends it.
proof fn lemma_insert_missing(rs: Seq<(Seq<char>, RuleV)>, name: Seq<char>, r: RuleV)
    requires
        forall|j: int| 0 <= j < rs.len() ==> (#[trigger] rs[j]).0 != name,
    ensures
        spec_insert_rule(rs, name, r) =~= rs.push((name, r)),
    decreases rs.len(),
{
    if rs.len() > 0 {
        assert(forall|j: int|
            0 <= j < rs.drop_first().len() ==> (#[trigger] rs.drop_first()[j]) == rs[j + 1]);
        lemma_insert_missing(rs.drop_first(), name, r);
        assert(spec_insert_rule(rs, name, r) == seq![rs[0]] + spec_insert_rule(
            rs.drop_first(),
            name,
            r,
        ));
    }
}

/// Insert a parsed rule into the table, replacing a rule of the same name.
#[verifier::loop_isolation(false)]
fn table_insert(table: &mut Vec<(String, RewriteRule)>, name: String, r: RewriteRule)
    ensures
        table_view(final(table)@) == spec_insert_rule(table_view(old(table)@), name@, r@),
{
    let ghost tv = table_view(table@);
    let n = table.len();
    let mut i: usize = 0;
    loop
        invariant
            0 <= i <= n,
            table@ == old(table)@,
            forall|j: int| 0 <= j < i ==> (#[trigger] tv[j]).0 != name@,
        decreases n - i,
    {
        if i >= n {
            break ;
        }
        proof {
            assert(tv[i as int] == (table@[i as int].0@, table@[i as int].1@));
        }
        if string_eq(&table[i].0, &name) {
            let _old_pair = table.remove(i);
            table.insert(i, (name, r));
            proof {
                lemma_insert_found(tv, tv[i as int].0, r@, i as int);
                assert(table_view(table@) =~= tv.update(i as int, (tv[i as int].0, r@)));
            }
            return ;
        }
        i = i + 1;
    }
    table.push((name, r));
    proof {
        lemma_insert_missing(tv, name@, r@);
        assert(table_view(table@) =~= tv.push((name@, r@)));
    }
}

/// The rule of the given name, if the table holds one.
#[verifier::loop_isolation(false)]
pub fn lookup_rule<'a>(rules: &'a Vec<(String, RewriteRule)>, name: &String) -> (r: Option<
    &'a RewriteRule,
>)
    ensures
        match r {
            Some(x) => spec_lookup(table_view(rules@), name@) == Some(x@),
            None => spec_lookup(table_view(rules@), name@) is None,
        },
{
    let ghost tv = table_view(rules@);
    let n = rules.len();
    let mut i: usize = 0;
    proof {
        assert(tv.subrange(0, n as int) =~= tv);
    }
    loop
        invariant
            0 <= i <= n,
            spec_lookup(tv, name@) == spec_lookup(tv.subrange(i as int, n as int), name@),
        decreases n - i,
    {
        if i >= n {
            proof {
                assert(tv.subrange(i as int, n as int) =~= Seq::<(Seq<char>, RuleV)>::empty());
            }
            break ;
        }
        proof {
            assert(tv.subrange(i as int, n as int)[0] == tv[i as int]);
            assert(tv[i as int] == (rules@[i as int].0@, rules@[i as int].1@));
            assert(tv.subrange(i as int, n as int).drop_first() =~= tv.subrange(
                i + 1,
                n as int,
            ));
        }
        if string_eq(&rules[i].0, name) {
            return Some(&rules[i].1);
        }
        i = i + 1;
    }
    None
}

/// Parse a whole grammar text.  The result is exactly `spec_parse` of the
/// text: on success the rule table with its entry rule, well formed; on
/// failure the specific reason.
#[verifier::loop_isolation(false)]
pub fn parse_rewrite_rules(src: &str) -> (r: Result<RewriteRules, ParseFail>)
    ensures
        res_v(r) == spec_parse(src@),
        r matches Ok(rr) ==> rules_wf(rr@),
{
    let toks_full = tokenise(src);
    let ghost s_toks = spec_tokens(src@).map_values(
        |p: (Result<TokenV, GTokenError>, TokenSpan)| p.0,
    );
    let ghost tn = s_toks.len() as int;
    proof {
        assert(toks_full@.len() == tn);
    }
    let mut rules_list: Vec<(String, RewriteRule)> = Vec::new();
    let mut cur: Vec<GTokenKind> = Vec::new();
    let mut idx: usize = 0;
    proof {
        assert(s_toks.subrange(0, tn) =~= s_toks);
        assert(kinds_view(cur@) =~= Seq::<TokenV>::empty());
        assert(table_view(rules_list@) =~= Seq::<(Seq<char>, RuleV)>::empty());
        assert(forall|rest: Seq<(Seq<char>, RuleV)>|
            (table_view(rules_list@) + rest) =~= rest);
    }
    loop
        invariant
            0 <= idx <= tn,
            spec_parse_all(s_toks, seq![]) == (match spec_parse_all(
                s_toks.subrange(idx as int, tn),
                kinds_view(cur@),
            ) {
                Ok(rest) => Ok::<Seq<(Seq<char>, RuleV)>, ParseFailV>(
                    table_view(rules_list@) + rest,
                ),
                Err(e) => Err::<Seq<(Seq<char>, RuleV)>, ParseFailV>(e),
            }),
            forall|j: int|
                0 <= j < rules_list@.len() ==> rule_wf((#[trigger] table_view(rules_list@)[j]).1),
        decreases tn - idx,
    {
        if idx >= toks_full.len() {
            proof {
                assert(s_toks.subrange(idx as int, tn) =~= Seq::<
                    Result<TokenV, GTokenError>,
                >::empty());
            }
            break ;
        }
        proof {
            assert(tokens_view(toks_full@)[idx as int] == (
                crate::tokeniser::res_view(toks_full@[idx as int].0),
                toks_full@[idx as int].1,
            ));
            assert(s_toks[idx as int] == tokens_view(toks_full@)[idx as int].0);
            assert(s_toks.subrange(idx as int, tn)[0] == s_toks[idx as int]);
            assert(s_toks.subrange(idx as int, tn).drop_first() =~= s_toks.subrange(
                idx + 1,
                tn,
            ));
        }
        let is_err = matches!(&toks_full[idx].0, Err(..));
        if is_err {
            let e = match &toks_full[idx].0 {
                Err(e) => *e,
                Ok(..) => vstd::pervasive::unreached(),
            };
            return Err(ParseFail::TokeniserErr(e));
        }
        let is_colon = matches!(&toks_full[idx].0, Ok(GTokenKind::Colon));
        if is_colon {
            match parse_rewrite_rule(&cur) {
                Err(e) => {
                    return Err(e);
                },
                Ok(nr) => {
                    let ghost rl_old = rules_list@;
                    let ghost nrv = (nr.0@, nr.1@);
                    rules_list.push(nr);
                    cur = Vec::new();
                    proof {
                        assert(table_view(rules_list@) =~= table_view(rl_old) + seq![nrv]);
                        assert(forall|rest: Seq<(Seq<char>, RuleV)>|
                            (table_view(rl_old) + (seq![nrv] + rest)) =~= (table_view(rules_list@)
                                + rest));
                        assert(kinds_view(cur@) =~= Seq::<TokenV>::empty());
                    }
                },
            }
        } else {
            let k0 = match &toks_full[idx].0 {
                Ok(k) => k,
                Err(..) => vstd::pervasive::unreached(),
            };
            let ghost cur_old = cur@;
            cur.push(dup_token(k0));
            proof {
                assert(kinds_view(cur@) =~= kinds_view(cur_old).push(k0@));
            }
        }
        idx = idx + 1;
    }
    if cur.len() > 0 {
        return Err(ParseFail::UnterminatedRule);
    }
    proof {
        assert(kinds_view(cur@) =~= Seq::<TokenV>::empty());
    }
    let ghost list_v = table_view(rules_list@);
    proof {
        assert(list_v + Seq::<(Seq<char>, RuleV)>::empty() =~= list_v);
        assert(spec_parse_all(s_toks, seq![]) == Ok::<Seq<(Seq<char>, RuleV)>, ParseFailV>(
            list_v,
        ));
    }
    if rules_list.len() == 0 {
        return Err(ParseFail::NoRulesFound);
    }
    let entry = rules_list[0].0.clone();
    proof {
        assert(list_v[0] == (rules_list@[0].0@, rules_list@[0].1@));
    }
    let ghost ln = list_v.len() as int;
    let mut table: Vec<(String, RewriteRule)> = Vec::new();
    proof {
        assert(list_v.subrange(0, 0) =~= Seq::<(Seq<char>, RuleV)>::empty());
        assert(list_v.subrange(0, ln) =~= list_v);
    }
    loop
        invariant
            rules_list@.len() <= ln,
            table_view(rules_list@) == list_v.subrange(ln - rules_list@.len(), ln),
            table_view(table@) == spec_build_table(list_v.subrange(0, ln - rules_list@.len())),
        decreases rules_list@.len(),
    {
        if rules_list.len() == 0 {
            break ;
        }
        let ghost d = ln - rules_list@.len();
        let ghost rl_old = rules_list@;
        let p = rules_list.remove(0);
        table_insert(&mut table, p.0, p.1);
        proof {
            assert(table_view(rl_old)[0] == (rl_old[0].0@, rl_old[0].1@));
            assert(table_view(rules_list@) =~= table_view(rl_old).drop_first());
            assert(table_view(rules_list@) =~= list_v.subrange(d + 1, ln));
            assert(list_v.subrange(0, d + 1).drop_last() =~= list_v.subrange(0, d));
            assert(list_v.subrange(0, d + 1).last() == list_v[d]);
            assert(list_v[d] == table_view(rl_old)[0]);
        }
    }
    let ghost tablev = spec_build_table(list_v);
    proof {
        assert(table_view(table@) == tablev);
    }
    // depth-cap filter: compute each rule's usable candidate set
    let n_rules = table.len();
    let mut new_tbs: Vec<Vec<usize>> = Vec::new();
    let mut j: usize = 0;
    loop
        invariant
            0 <= j <= n_rules,
            n_rules == table@.len(),
            table_view(table@) == tablev,
            new_tbs@.len() == j,
            forall|q: int|
                0 <= q < j ==> (#[trigger] new_tbs@[q])@.map_values(|u: usize| u as int)
                    == spec_filter_tb(tablev, tablev[q].1, tablev[q].1.terminal_branches),
            forall|q: int, x: int|
                0 <= q < j && 0 <= x < new_tbs@[q]@.len() ==> (#[trigger] new_tbs@[q]@[x])
                    < tablev[q].1.branches.len(),
        decreases n_rules - j,
    {
        if j >= n_rules {
            break ;
        }
        proof {
            assert(tablev[j as int] == (table@[j as int].0@, table@[j as int].1@));
        }
        let ghost rv_j = tablev[j as int].1;
        let ghost tbs_v = rv_j.terminal_branches;
        let m = table[j].1.terminal_branches.len();
        let mut keep: Vec<usize> = Vec::new();
        let mut k2: usize = 0;
        proof {
            assert(tbs_v.subrange(0, m as int) =~= tbs_v);
            assert(keep@.map_values(|u: usize| u as int) =~= Seq::<int>::empty());
        }
        loop
            invariant
                0 <= k2 <= m,
                m == table@[j as int].1.terminal_branches@.len(),
                j < n_rules,
                n_rules == table@.len(),
                table_view(table@) == tablev,
                rv_j == tablev[j as int].1,
                tbs_v == rv_j.terminal_branches,
                spec_filter_tb(tablev, rv_j, tbs_v) == keep@.map_values(|u: usize| u as int)
                    + spec_filter_tb(tablev, rv_j, tbs_v.subrange(k2 as int, m as int)),
                forall|x: int|
                    0 <= x < keep@.len() ==> (#[trigger] keep@[x]) < rv_j.branches.len(),
            decreases m - k2,
        {
            if k2 >= m {
                proof {
                    assert(tbs_v.subrange(k2 as int, m as int) =~= Seq::<int>::empty());
                    assert(keep@.map_values(|u: usize| u as int) + Seq::<int>::empty()
                        =~= keep@.map_values(|u: usize| u as int));
                }
                break ;
            }
            let ghost sub = tbs_v.subrange(k2 as int, m as int);
            proof {
                assert(sub[0] == tbs_v[k2 as int]);
                assert(sub.drop_first() =~= tbs_v.subrange(k2 + 1, m as int));
                assert(tbs_v[k2 as int] == table@[j as int].1.terminal_branches@[k2 as int] as int);
            }
            let bi = table[j].1.terminal_branches[k2];
            let mut ok = false;
            if bi < table[j].1.branches.len() {
                proof {
                    assert(rv_j.branches[bi as int] == table@[j as int].1.branches@[bi as int]@);
                }
                let is_tbr = matches!(&table[j].1.branches[bi].expr, Expression::ToBeReplaced { .. });
                if is_tbr {
                    let tgt = match &table[j].1.branches[bi].expr {
                        Expression::ToBeReplaced { rule } => rule,
                        _ => vstd::pervasive::unreached(),
                    };
                    match lookup_rule(&table, tgt) {
                        Some(q) => {
                            ok = q.purely_terminal;
                        },
                        None => {
                            ok = false;
                        },
                    }
                }
            }
            proof {
                assert(ok == tb_ok(tablev, rv_j, tbs_v[k2 as int]));
            }
            if ok {
                let ghost keep_old = keep@;
                keep.push(bi);
                proof {
                    assert(keep@.map_values(|u: usize| u as int) =~= keep_old.map_values(
                        |u: usize| u as int,
                    ).push(bi as int));
                    assert(keep_old.map_values(|u: usize| u as int) + (seq![bi as int]
                        + spec_filter_tb(tablev, rv_j, sub.drop_first())) =~= (keep@.map_values(
                        |u: usize| u as int,
                    ) + spec_filter_tb(tablev, rv_j, sub.drop_first())));
                }
            }
            k2 = k2 + 1;
        }
        new_tbs.push(keep);
        j = j + 1;
    }
    // rebuild the table with the filtered candidate sets
    let ghost filteredv = spec_filter_all(tablev);
    let mut out_rules: Vec<(String, RewriteRule)> = Vec::new();
    loop
        invariant
            table@.len() + out_rules@.len() == n_rules,
            new_tbs@.len() == table@.len(),
            n_rules == tablev.len(),
            forall|q: int|
                0 <= q < table@.len() ==> ((#[trigger] table@[q]).0@, table@[q].1@) == tablev[q
                    + out_rules@.len()],
            forall|q: int|
                0 <= q < new_tbs@.len() ==> (#[trigger] new_tbs@[q])@.map_values(
                    |u: usize| u as int,
                ) == spec_filter_tb(
                    tablev,
                    tablev[q + out_rules@.len()].1,
                    tablev[q + out_rules@.len()].1.terminal_branches,
                ),
            forall|q: int, x: int|
                0 <= q < new_tbs@.len() && 0 <= x < new_tbs@[q]@.len() ==> (
                #[trigger] new_tbs@[q]@[x]) < tablev[q + out_rules@.len()].1.branches.len(),
            forall|q: int|
                0 <= q < out_rules@.len() ==> #[trigger] table_view(out_rules@)[q] == filteredv[q],
        decreases table@.len(),
    {
        if table.len() == 0 {
            break ;
        }
        let ghost t_old = table@;
        let ghost o_old = out_rules@;
        let ghost nt_old = new_tbs@;
        let pair = table.remove(0);
        let nm = pair.0;
        let mut rr = pair.1;
        let tbs2 = new_tbs.remove(0);
        rr.terminal_branches = tbs2;
        out_rules.push((nm, rr));
        proof {
            let d2 = o_old.len() as int;
            assert((t_old[0].0@, t_old[0].1@) == tablev[d2]);
            assert(rr@.branches == tablev[d2].1.branches);
            assert(rr@.terminal_branches == spec_filter_tb(
                tablev,
                tablev[d2].1,
                tablev[d2].1.terminal_branches,
            ));
            assert(rr@.purely_terminal == tablev[d2].1.purely_terminal);
            assert(rr@ == spec_filter_rule(tablev, tablev[d2].1));
            assert(table_view(out_rules@) =~= table_view(o_old).push((nm@, rr@)));
            assert(filteredv[d2] == (tablev[d2].0, spec_filter_rule(tablev, tablev[d2].1)));
            assert(forall|q: int|
                0 <= q < table@.len() ==> (#[trigger] table@[q]) == t_old[q + 1]);
            assert(forall|q: int| 0 <= q < new_tbs@.len() ==> #[trigger] new_tbs@[q] == nt_old[q
                + 1]);
        }
    }
    proof {
        assert(table_view(out_rules@) =~= filteredv);
    }
    // the entry rule must keep a usable depth-cap branch
    match lookup_rule(&out_rules, &entry) {
        None => Err(ParseFail::NoRulesFound),
        Some(er) => {
            if er.terminal_branches.len() == 0 && !er.purely_terminal {
                Err(ParseFail::NoTerminalReplacementInChannelRule)
            } else {
                let rr = RewriteRules { rules: out_rules, entry_point: entry };
                proof {
                    lemma_build_props(list_v);
                    assert forall|i: int| 0 <= i < filteredv.len() implies rule_wf(
                        (#[trigger] filteredv[i]).1,
                    ) by {
                        assert(filteredv[i] == (tablev[i].0, spec_filter_rule(tablev, tablev[i].1)));
                        lemma_filter_tb_props(tablev, tablev[i].1, tablev[i].1.terminal_branches);
                    }
                    assert forall|i: int, k: int|
                        0 <= i < filteredv.len() && 0 <= k
                            < filteredv[i].1.terminal_branches.len() implies tb_ok(
                        filteredv,
                        filteredv[i].1,
                        #[trigger] filteredv[i].1.terminal_branches[k],
                    ) by {
                        assert(filteredv[i] == (tablev[i].0, spec_filter_rule(tablev, tablev[i].1)));
                        lemma_filter_tb_props(tablev, tablev[i].1, tablev[i].1.terminal_branches);
                        let x = filteredv[i].1.terminal_branches[k];
                        assert(tb_ok(tablev, tablev[i].1, x));
                        let q = tablev[i].1.branches[x].expr->ToBeReplaced_rule;
                        lemma_lookup_pointwise(tablev, filteredv, tablev, q);
                    }
                    lemma_lookup_pointwise(tablev, filteredv, tablev, entry@);
                    assert(rules_wf(rr@));
                }
                Ok(rr)
            }
        },
    }
}

} // verus!
