//! Expression serializer: renders a finished expression tree to its
//! canonical textual form.
//!
//! Named terminals render as their single-character names; the random
//! constant samples a fresh value at serialization time and renders with two
//! decimal places (`0.` and two digits); calls render as
//! `name(arg1,arg2,...)` with no whitespace.  A placeholder node, which
//! generation never leaves behind, renders defensively as `_` rather than
//! failing.
//!
//! Serialization is proved invertible: `lemma_serialize_round_trip` shows
//! that any rendering of a resolved, random-free expression tokenises back
//! to exactly the expression's token form, and that this token form parses
//! back to exactly the expression — call shape, arity and argument order
//! are all recovered.

use vstd::prelude::*;
use vstd::string::StringExecFns;

use crate::generator::{draw_u16, resolved};
use crate::parser::{
    spec_arity, spec_mk_call, spec_parse_args, spec_parse_expr, spec_split_ranges,
    spec_split_scan, spec_term_of, Expression, ExprV, ParseFailV, Term,
};
use crate::tokeniser::{
    is_ident_char, is_ws_char, loc_start, loc_step, spec_next_token, spec_scan_ident, spec_skip, spec_span,
    spec_tokens, spec_tokens_from, token_text, GTokenError, LocV, TokenSpan, TokenV,
};

verus! {

/// A decimal digit.
pub open spec fn is_digit_char(c: char) -> bool {
    48 <= c as u32 && c as u32 <= 57
}

/// The rendering relation: `renders(e, s)` says `s` is a possible textual
/// form of `e`.  The random constant makes rendering a relation rather than
/// a function: it renders as `0.` followed by two fresh decimal digits.
pub open spec fn renders(e: ExprV, s: Seq<char>) -> bool
    decreases e,
{
    match e {
        ExprV::Terminal(t) => match t {
            Term::RandConst => s.len() == 4 && s[0] == '0' && s[1] == '.' && is_digit_char(s[2])
                && is_digit_char(s[3]),
            Term::U => s == "u"@,
            Term::V => s == "v"@,
            Term::T => s == "t"@,
            Term::R => s == "r"@,
        },
        ExprV::Func1 { ident, arg } => exists|s1: Seq<char>|
            renders(*arg, s1) && s == ident + #[trigger] ("("@ + s1) + ")"@,
        ExprV::Func2 { ident, arg0, arg1 } => exists|s1: Seq<char>, s2: Seq<char>|
            #![trigger "("@ + s1, ","@ + s2]
            renders(*arg0, s1) && renders(*arg1, s2) && s == ident + ("("@ + s1) + (","@ + s2)
                + ")"@,
        ExprV::Func3 { ident, arg0, arg1, arg2 } => exists|
            s1: Seq<char>,
            s2: Seq<char>,
            s3: Seq<char>,
        |
            #![trigger "("@ + s1, ","@ + s2, ","@ + s3]
            renders(*arg0, s1) && renders(*arg1, s2) && renders(*arg2, s3) && s == ident + ("("@
                + s1) + (","@ + s2) + (","@ + s3) + ")"@,
        ExprV::ToBeReplaced { .. } => s == "_"@,
    }
}

fn digit_str(d: u16) -> (r: &'static str)
    requires
        d < 10,
    ensures
        r@.len() == 1,
        r@[0] as u32 == 48 + d,
{
    if d == 0 {
        proof {
            reveal_strlit("0");
        }
        "0"
    } else if d == 1 {
        proof {
            reveal_strlit("1");
        }
        "1"
    } else if d == 2 {
        proof {
            reveal_strlit("2");
        }
        "2"
    } else if d == 3 {
        proof {
            reveal_strlit("3");
        }
        "3"
    } else if d == 4 {
        proof {
            reveal_strlit("4");
        }
        "4"
    } else if d == 5 {
        proof {
            reveal_strlit("5");
        }
        "5"
    } else if d == 6 {
        proof {
            reveal_strlit("6");
        }
        "6"
    } else if d == 7 {
        proof {
            reveal_strlit("7");
        }
        "7"
    } else if d == 8 {
        proof {
            reveal_strlit("8");
        }
        "8"
    } else {
        proof {
            reveal_strlit("9");
        }
        "9"
    }
}

/// The textual form of one terminal; the random constant draws a fresh
/// two-decimal value from `rng`, and only it touches `rng`.
fn term_string(t: Term, rng: &mut rand_chacha::ChaCha8Rng) -> (r: String)
    ensures
        renders(ExprV::Terminal(t), r@),
        !(t is RandConst) ==> *final(rng) == *old(rng),
{
    match t {
        Term::RandConst => {
            let draw = draw_u16(rng);
            let v = draw % 100;
            let d1 = v / 10;
            let d2 = v % 10;
            let mut out = "0.".to_owned();
            proof {
                reveal_strlit("0.");
            }
            out.append(digit_str(d1));
            out.append(digit_str(d2));
            out
        },
        Term::U => "u".to_owned(),
        Term::V => "v".to_owned(),
        Term::T => "t".to_owned(),
        Term::R => "r".to_owned(),
    }
}

impl Expression {
    /// The canonical textual form of this tree; fresh random constants are
    /// drawn from `rng`, and a tree without random constants leaves the
    /// random source untouched.
    #[verifier::rlimit(60)]
    pub fn as_string(&self, rng: &mut rand_chacha::ChaCha8Rng) -> (r: String)
        ensures
            renders(self@, r@),
            rand_free(self@) ==> *final(rng) == *old(rng),
        decreases self,
    {
        match self {
            Expression::Terminal(t) => {
                let out = term_string(*t, rng);
                proof {
                    assert(self@ == ExprV::Terminal(*t));
                    assert(renders(self@, out@));
                }
                out
            },
            Expression::Func1 { ident, arg } => {
                let mut out = ident.clone();
                out.append("(");
                let s1 = arg.as_string(rng);
                out.append(s1.as_str());
                out.append(")");
                proof {
                    assert(renders(arg@, s1@));
                    assert(out@ =~= ident@ + ("("@ + s1@) + ")"@);
                    assert(renders(self@, out@));
                }
                out
            },
            Expression::Func2 { ident, arg0, arg1 } => {
                let mut out = ident.clone();
                out.append("(");
                let s1 = arg0.as_string(rng);
                out.append(s1.as_str());
                out.append(",");
                let s2 = arg1.as_string(rng);
                out.append(s2.as_str());
                out.append(")");
                proof {
                    assert(renders(arg0@, s1@) && renders(arg1@, s2@));
                    assert(out@ =~= ident@ + ("("@ + s1@) + (","@ + s2@) + ")"@);
                    assert(renders(self@, out@));
                }
                out
            },
            Expression::Func3 { ident, arg0, arg1, arg2 } => {
                let mut out = ident.clone();
                out.append("(");
                let s1 = arg0.as_string(rng);
                out.append(s1.as_str());
                out.append(",");
                let s2 = arg1.as_string(rng);
                out.append(s2.as_str());
                out.append(",");
                let s3 = arg2.as_string(rng);
                out.append(s3.as_str());
                out.append(")");
                proof {
                    assert(renders(arg0@, s1@) && renders(arg1@, s2@) && renders(arg2@, s3@));
                    assert(out@ =~= ident@ + ("("@ + s1@) + (","@ + s2@) + (","@ + s3@) + ")"@);
                    assert(renders(self@, out@));
                }
                out
            },
            Expression::ToBeReplaced { .. } => {
                let out = "_".to_owned();
                proof {
                    assert(renders(self@, out@));
                }
                out
            },
        }
    }
}

/// The canonical identifier of a terminal.
pub open spec fn term_name(t: Term) -> Seq<char> {
    match t {
        Term::RandConst => "rand"@,
        Term::U => "u"@,
        Term::V => "v"@,
        Term::T => "t"@,
        Term::R => "r"@,
    }
}

/// The token form of an expression's canonical text: its function-call
/// shape, with each terminal under its canonical name.
pub open spec fn tokens_of(e: ExprV) -> Seq<TokenV>
    decreases e,
{
    match e {
        ExprV::Terminal(t) => seq![TokenV::Ident { name: term_name(t) }],
        ExprV::Func1 { ident, arg } => seq![TokenV::Ident { name: ident }, TokenV::LPar]
            + tokens_of(*arg) + seq![TokenV::RPar],
        ExprV::Func2 { ident, arg0, arg1 } => seq![TokenV::Ident { name: ident }, TokenV::LPar]
            + tokens_of(*arg0) + seq![TokenV::Comma] + tokens_of(*arg1) + seq![TokenV::RPar],
        ExprV::Func3 { ident, arg0, arg1, arg2 } => seq![
            TokenV::Ident { name: ident },
            TokenV::LPar,
        ] + tokens_of(*arg0) + seq![TokenV::Comma] + tokens_of(*arg1) + seq![TokenV::Comma]
            + tokens_of(*arg2) + seq![TokenV::RPar],
        ExprV::ToBeReplaced { rule } => seq![TokenV::Ident { name: rule }],
    }
}

/// Whether the parser could have produced this expression: calls carry
/// whitelisted names at their exact arity, and rule references are not
/// terminal names.
pub open spec fn parseable(e: ExprV) -> bool
    decreases e,
{
    match e {
        ExprV::Terminal(..) => true,
        ExprV::Func1 { ident, arg } => spec_arity(ident) == Some(1int) && parseable(*arg),
        ExprV::Func2 { ident, arg0, arg1 } => spec_arity(ident) == Some(2int) && parseable(*arg0)
            && parseable(*arg1),
        ExprV::Func3 { ident, arg0, arg1, arg2 } => spec_arity(ident) == Some(3int) && parseable(
            *arg0,
        ) && parseable(*arg1) && parseable(*arg2),
        ExprV::ToBeReplaced { rule } => spec_term_of(rule) is None,
    }
}

/// The parenthesis-level contribution of one token.
pub open spec fn lvl(t: TokenV) -> int {
    match t {
        TokenV::LPar => 1,
        TokenV::RPar => -1,
        _ => 0,
    }
}

/// The summed parenthesis level of a token run.
pub open spec fn sum_lvl(toks: Seq<TokenV>) -> int
    decreases toks.len(),
{
    if toks.len() == 0 {
        0
    } else {
        lvl(toks[0]) + sum_lvl(toks.drop_first())
    }
}

/// Every prefix of the run keeps a nonnegative parenthesis level.
#[verifier::opaque]
pub open spec fn prefixes_ok(toks: Seq<TokenV>) -> bool {
    forall|k: int| 0 <= k <= toks.len() ==> sum_lvl(#[trigger] toks.subrange(0, k)) >= 0
}

/// A token run whose commas all stand inside parentheses: every prefix
/// keeps a nonnegative level and every comma stands at a positive one.
#[verifier::opaque]
pub open spec fn protected(toks: Seq<TokenV>) -> bool {
    &&& prefixes_ok(toks)
    &&& forall|k: int|
        0 <= k < toks.len() && toks[k] is Comma ==> sum_lvl(#[trigger] toks.subrange(0, k)) >= 1
}

/// Level sums of the smallest runs.
proof fn lemma_sum_lvl_single(t: TokenV)
    ensures
        sum_lvl(seq![t]) == lvl(t),
{
    assert(seq![t][0] == t);
    assert(seq![t].drop_first() =~= Seq::<TokenV>::empty());
    assert(sum_lvl(Seq::<TokenV>::empty()) == 0);
}

proof fn lemma_sum_lvl_head(name: Seq<char>)
    ensures
        sum_lvl(seq![TokenV::Ident { name: name }, TokenV::LPar]) == 1,
{
    let hd = seq![TokenV::Ident { name: name }, TokenV::LPar];
    assert(hd[0] == TokenV::Ident { name: name });
    assert(hd.drop_first() =~= seq![TokenV::LPar]);
    lemma_sum_lvl_single(TokenV::LPar);
}

/// Level sums add over concatenation.
proof fn lemma_sum_lvl_concat(a: Seq<TokenV>, b: Seq<TokenV>)
    ensures
        sum_lvl(a + b) == sum_lvl(a) + sum_lvl(b),
    decreases b.len(),
{
    if b.len() == 0 {
        assert(a + b =~= a);
    } else {
        lemma_sum_lvl_concat(a, b.drop_last());
        assert((a + b).drop_last() =~= a + b.drop_last());
        lemma_sum_lvl_last(a + b);
        lemma_sum_lvl_last(b);
        assert((a + b).last() == b.last());
    }
}

/// Joining two balanced argument runs with a comma keeps prefixes
/// nonnegative and the whole balanced.
proof fn lemma_arglist(a: Seq<TokenV>, b: Seq<TokenV>)
    requires
        prefixes_ok(a),
        prefixes_ok(b),
        sum_lvl(a) == 0,
        sum_lvl(b) == 0,
    ensures
        sum_lvl(a + seq![TokenV::Comma] + b) == 0,
        prefixes_ok(a + seq![TokenV::Comma] + b),
{
    reveal(prefixes_ok);
    let c = a + seq![TokenV::Comma] + b;
    lemma_sum_lvl_concat(a, seq![TokenV::Comma]);
    lemma_sum_lvl_concat(a + seq![TokenV::Comma], b);
    lemma_sum_lvl_single(TokenV::Comma);
    assert forall|k: int| 0 <= k <= c.len() implies sum_lvl(#[trigger] c.subrange(0, k))
        >= 0 by {
        if k <= a.len() {
            assert(c.subrange(0, k) =~= a.subrange(0, k));
        } else if k == a.len() + 1 {
            assert(c.subrange(0, k) =~= a + seq![TokenV::Comma]);
            lemma_sum_lvl_concat(a, seq![TokenV::Comma]);
            lemma_sum_lvl_single(TokenV::Comma);
        } else {
            assert(c.subrange(0, k) =~= (a + seq![TokenV::Comma]) + b.subrange(
                0,
                k - a.len() - 1,
            ));
            lemma_sum_lvl_concat(a + seq![TokenV::Comma], b.subrange(0, k - a.len() - 1));
        }
    }
}

/// Wrapping an argument run in `name ( ... )` protects its commas.
proof fn lemma_wrap(name: Seq<char>, c: Seq<TokenV>)
    requires
        prefixes_ok(c),
        sum_lvl(c) == 0,
    ensures
        sum_lvl(seq![TokenV::Ident { name: name }, TokenV::LPar] + c + seq![TokenV::RPar]) == 0,
        protected(seq![TokenV::Ident { name: name }, TokenV::LPar] + c + seq![TokenV::RPar]),
{
    reveal(prefixes_ok);
    reveal(protected);
    let hd = seq![TokenV::Ident { name: name }, TokenV::LPar];
    let w = hd + c + seq![TokenV::RPar];
    lemma_sum_lvl_head(name);
    lemma_sum_lvl_single(TokenV::RPar);
    lemma_sum_lvl_concat(hd, c);
    lemma_sum_lvl_concat(hd + c, seq![TokenV::RPar]);
    assert(w =~= (hd + c) + seq![TokenV::RPar]);
    assert forall|k: int| 0 <= k <= w.len() implies sum_lvl(#[trigger] w.subrange(0, k))
        >= 0 by {
        lemma_wrap_prefix(name, c, k);
    }
    assert forall|k: int| 0 <= k < w.len() && w[k] is Comma implies sum_lvl(
        #[trigger] w.subrange(0, k),
    ) >= 1 by {
        lemma_wrap_prefix(name, c, k);
        assert(w[k] == c[k - 2]);
        assert(sum_lvl(c.subrange(0, k - 2)) >= 0);
    }
}

/// The prefix sums of a wrapped run.
proof fn lemma_wrap_prefix(name: Seq<char>, c: Seq<TokenV>, k: int)
    requires
        sum_lvl(c) == 0,
        0 <= k <= c.len() + 3,
    ensures
        ({
            let w = seq![TokenV::Ident { name: name }, TokenV::LPar] + c + seq![TokenV::RPar];
            &&& k == 0 ==> sum_lvl(w.subrange(0, k)) == 0
            &&& k == 1 ==> sum_lvl(w.subrange(0, k)) == 0
            &&& 2 <= k <= c.len() + 2 ==> sum_lvl(w.subrange(0, k)) == 1 + sum_lvl(
                c.subrange(0, k - 2),
            )
            &&& k == c.len() + 3 ==> sum_lvl(w.subrange(0, k)) == 0
        }),
{
    let hd = seq![TokenV::Ident { name: name }, TokenV::LPar];
    let w = hd + c + seq![TokenV::RPar];
    lemma_sum_lvl_head(name);
    lemma_sum_lvl_single(TokenV::RPar);
    if k == 0 {
        assert(w.subrange(0, 0) =~= Seq::<TokenV>::empty());
        assert(sum_lvl(Seq::<TokenV>::empty()) == 0);
    } else if k == 1 {
        assert(w.subrange(0, 1) =~= seq![TokenV::Ident { name: name }]);
        lemma_sum_lvl_single(TokenV::Ident { name: name });
    } else if k <= c.len() + 2 {
        assert(w.subrange(0, k) =~= hd + c.subrange(0, k - 2));
        lemma_sum_lvl_concat(hd, c.subrange(0, k - 2));
    } else {
        assert(w.subrange(0, k) =~= (hd + c) + seq![TokenV::RPar]);
        lemma_sum_lvl_concat(hd, c);
        lemma_sum_lvl_concat(hd + c, seq![TokenV::RPar]);
    }
}

proof fn lemma_sum_lvl_last(toks: Seq<TokenV>)
    requires
        toks.len() >= 1,
    ensures
        sum_lvl(toks) == sum_lvl(toks.drop_last()) + lvl(toks.last()),
    decreases toks.len(),
{
    if toks.len() > 1 {
        lemma_sum_lvl_last(toks.drop_first());
        assert(toks.drop_first().drop_last() =~= toks.drop_last().drop_first());
        assert(toks.drop_first().last() == toks.last());
        assert(toks.drop_last()[0] == toks[0]);
    } else {
        assert(toks.drop_last() =~= Seq::<TokenV>::empty());
        assert(toks.drop_first() =~= Seq::<TokenV>::empty());
    }
}

/// Prefix sums step by the level of the next token.
proof fn lemma_prefix_step(toks: Seq<TokenV>, k: int)
    requires
        0 <= k < toks.len(),
    ensures
        sum_lvl(toks.subrange(0, k + 1)) == sum_lvl(toks.subrange(0, k)) + lvl(toks[k]),
{
    assert(toks.subrange(0, k + 1).drop_last() =~= toks.subrange(0, k));
    assert(toks.subrange(0, k + 1).last() == toks[k]);
    lemma_sum_lvl_last(toks.subrange(0, k + 1));
}

/// Scanning a balanced, protected run finds no split point.
proof fn lemma_scan_no_split(toks: Seq<TokenV>, k: int, j: int)
    requires
        protected(toks),
        sum_lvl(toks) == 0,
        0 <= j,
        0 <= k <= toks.len(),
    ensures
        spec_split_scan(toks, k, j, sum_lvl(toks.subrange(0, k))) == seq![
            (j, toks.len() as int),
        ],
    decreases toks.len() - k,
{
    reveal(prefixes_ok);
    reveal(protected);
    if k < toks.len() {
        lemma_prefix_step(toks, k);
        lemma_scan_no_split(toks, k + 1, j);
    }
}

pub open spec fn add_off(rs: Seq<(int, int)>, off: int) -> Seq<(int, int)> {
    rs.map_values(|p: (int, int)| (p.0 + off, p.1 + off))
}

/// Scanning a suffix mirrors scanning it alone, shifted.
proof fn lemma_scan_shift(toks: Seq<TokenV>, b: Seq<TokenV>, off: int, k: int, j: int, level: int)
    requires
        0 <= off,
        toks.len() == off + b.len(),
        forall|i: int| 0 <= i < b.len() ==> toks[off + i] == b[i],
        0 <= k <= b.len(),
        0 <= j,
    ensures
        spec_split_scan(toks, off + k, off + j, level) == add_off(
            spec_split_scan(b, k, j, level),
            off,
        ),
    decreases b.len() - k,
{
    if k >= b.len() {
        assert(spec_split_scan(b, k, j, level) == seq![(j, b.len() as int)]);
        assert(add_off(seq![(j, b.len() as int)], off) =~= seq![
            (off + j, off + b.len() as int),
        ]);
    } else {
        assert(toks[off + k] == b[k]);
        let level2 = level + (if b[k] is LPar {
            1int
        } else {
            0int
        }) - (if b[k] is RPar {
            1int
        } else {
            0int
        });
        lemma_scan_shift(toks, b, off, k + 1, if level2 == 0 && b[k] is Comma {
            k + 1
        } else {
            j
        }, level2);
        if level2 == 0 && b[k] is Comma {
            assert(add_off(seq![(j, k)] + spec_split_scan(b, k + 1, k + 1, level2), off)
                =~= seq![(off + j, off + k)] + add_off(
                spec_split_scan(b, k + 1, k + 1, level2),
                off,
            ));
        }
    }
}

/// Scanning `a + , + rest` splits exactly at that comma when `a` is
/// balanced and protected.
proof fn lemma_scan_first_arg(toks: Seq<TokenV>, a: Seq<TokenV>, rest: Seq<TokenV>, k: int)
    requires
        toks == a + seq![TokenV::Comma] + rest,
        protected(a),
        sum_lvl(a) == 0,
        0 <= k <= a.len(),
        sum_lvl(toks.subrange(0, k)) == sum_lvl(a.subrange(0, k)),
    ensures
        spec_split_scan(toks, k, 0, sum_lvl(a.subrange(0, k))) == seq![(0, a.len() as int)]
            + spec_split_scan(toks, a.len() as int + 1, a.len() as int + 1, 0),
    decreases a.len() - k,
{
    reveal(prefixes_ok);
    reveal(protected);
    assert(toks.len() == a.len() + 1 + rest.len());
    if k < a.len() {
        assert(toks[k] == a[k]);
        lemma_prefix_step(a, k);
        assert(toks.subrange(0, k + 1) =~= a.subrange(0, k + 1));
        lemma_scan_first_arg(toks, a, rest, k + 1);
    } else {
        assert(toks[k] == TokenV::Comma);
        assert(a.subrange(0, k) =~= a);
    }
}

/// The token run of any expression is nonempty, balanced, protected, and
/// does not start or end with a comma-splitting hazard.
proof fn lemma_tokens_of_protected(e: ExprV)
    ensures
        tokens_of(e).len() >= 1,
        sum_lvl(tokens_of(e)) == 0,
        protected(tokens_of(e)),
    decreases e,
{
    reveal(prefixes_ok);
    reveal(protected);
    let w = tokens_of(e);
    match e {
        ExprV::Terminal(..) | ExprV::ToBeReplaced { .. } => {
            assert forall|k: int| 0 <= k <= w.len() implies sum_lvl(#[trigger] w.subrange(0, k))
                >= 0 by {
                if k == 0 {
                    assert(w.subrange(0, 0) =~= Seq::<TokenV>::empty());
                } else {
                    assert(w.subrange(0, 1) =~= w);
                    lemma_sum_lvl_last(w);
                    assert(w.drop_last() =~= Seq::<TokenV>::empty());
                }
            }
            assert(sum_lvl(w) == 0) by {
                lemma_sum_lvl_last(w);
                assert(w.drop_last() =~= Seq::<TokenV>::empty());
            }
        },
        ExprV::Func1 { ident, arg } => {
            lemma_tokens_of_protected(*arg);
            lemma_wrap(ident, tokens_of(*arg));
            assert(w =~= seq![TokenV::Ident { name: ident }, TokenV::LPar] + tokens_of(*arg)
                + seq![TokenV::RPar]);
        },
        ExprV::Func2 { ident, arg0, arg1 } => {
            lemma_tokens_of_protected(*arg0);
            lemma_tokens_of_protected(*arg1);
            let c = tokens_of(*arg0) + seq![TokenV::Comma] + tokens_of(*arg1);
            lemma_arglist(tokens_of(*arg0), tokens_of(*arg1));
            lemma_wrap(ident, c);
            assert(w =~= seq![TokenV::Ident { name: ident }, TokenV::LPar] + c + seq![
                TokenV::RPar,
            ]);
        },
        ExprV::Func3 { ident, arg0, arg1, arg2 } => {
            lemma_tokens_of_protected(*arg0);
            lemma_tokens_of_protected(*arg1);
            lemma_tokens_of_protected(*arg2);
            let inner = tokens_of(*arg1) + seq![TokenV::Comma] + tokens_of(*arg2);
            lemma_arglist(tokens_of(*arg1), tokens_of(*arg2));
            let c = tokens_of(*arg0) + seq![TokenV::Comma] + inner;
            lemma_arglist(tokens_of(*arg0), inner);
            lemma_wrap(ident, c);
            assert(w =~= seq![TokenV::Ident { name: ident }, TokenV::LPar] + c + seq![
                TokenV::RPar,
            ]);
        },
    }
}

/// Parsing splits a two-argument list at its top-level comma.
proof fn lemma_split_two(t0: Seq<TokenV>, t1: Seq<TokenV>)
    requires
        protected(t0),
        sum_lvl(t0) == 0,
        protected(t1),
        sum_lvl(t1) == 0,
    ensures
        spec_split_ranges(t0 + seq![TokenV::Comma] + t1) == seq![
            (0int, t0.len() as int),
            (t0.len() as int + 1, t0.len() as int + 1 + t1.len() as int),
        ],
{
    let c = t0 + seq![TokenV::Comma] + t1;
    let off = t0.len() as int + 1;
    assert(t0.subrange(0, 0) =~= Seq::<TokenV>::empty());
    assert(c.subrange(0, 0) =~= Seq::<TokenV>::empty());
    lemma_scan_first_arg(c, t0, t1, 0);
    assert(forall|i: int| 0 <= i < t1.len() ==> c[off + i] == t1[i]);
    lemma_scan_shift(c, t1, off, 0, 0, 0);
    lemma_scan_no_split(t1, 0, 0);
    assert(spec_split_ranges(c) =~= seq![
        (0int, t0.len() as int),
        (off, off + t1.len() as int),
    ]);
}

/// Parsing splits a three-argument list at its two top-level commas.
proof fn lemma_split_three(t0: Seq<TokenV>, t1: Seq<TokenV>, t2: Seq<TokenV>)
    requires
        protected(t0),
        sum_lvl(t0) == 0,
        protected(t1),
        sum_lvl(t1) == 0,
        protected(t2),
        sum_lvl(t2) == 0,
    ensures
        spec_split_ranges(t0 + seq![TokenV::Comma] + t1 + seq![TokenV::Comma] + t2) == seq![
            (0int, t0.len() as int),
            (t0.len() as int + 1, t0.len() as int + 1 + t1.len() as int),
            (
                t0.len() as int + t1.len() as int + 2,
                t0.len() as int + t1.len() as int + 2 + t2.len() as int,
            ),
        ],
{
    let b = t1 + seq![TokenV::Comma] + t2;
    let c = t0 + seq![TokenV::Comma] + b;
    assert(c =~= t0 + seq![TokenV::Comma] + t1 + seq![TokenV::Comma] + t2);
    let off = t0.len() as int + 1;
    assert(t0.subrange(0, 0) =~= Seq::<TokenV>::empty());
    assert(c.subrange(0, 0) =~= Seq::<TokenV>::empty());
    lemma_scan_first_arg(c, t0, b, 0);
    assert(forall|i: int| 0 <= i < b.len() ==> c[off + i] == b[i]);
    lemma_scan_shift(c, b, off, 0, 0, 0);
    let off2 = t1.len() as int + 1;
    assert(t1.subrange(0, 0) =~= Seq::<TokenV>::empty());
    assert(b.subrange(0, 0) =~= Seq::<TokenV>::empty());
    lemma_scan_first_arg(b, t1, t2, 0);
    assert(forall|i: int| 0 <= i < t2.len() ==> b[off2 + i] == t2[i]);
    lemma_scan_shift(b, t2, off2, 0, 0, 0);
    lemma_scan_no_split(t2, 0, 0);
    assert(spec_split_scan(b, 0, 0, 0) =~= seq![
        (0int, t1.len() as int),
        (off2, off2 + t2.len() as int),
    ]);
    assert(spec_split_ranges(c) =~= seq![
        (0int, t0.len() as int),
        (off, off + t1.len() as int),
        (off + off2, off + off2 + t2.len() as int),
    ]);
}

/// A lone identifier that names a terminal parses to that terminal.
proof fn lemma_rt_terminal(t: Term)
    ensures
        spec_parse_expr(seq![TokenV::Ident { name: term_name(t) }]) == Ok::<ExprV, ParseFailV>(
            ExprV::Terminal(t),
        ),
{
    reveal_strlit("rand");
    reveal_strlit("random");
    reveal_strlit("u");
    reveal_strlit("v");
    reveal_strlit("t");
    reveal_strlit("r");
    let toks = seq![TokenV::Ident { name: term_name(t) }];
    assert(toks[0] == TokenV::Ident { name: term_name(t) });
    match t {
        Term::RandConst => {
            assert(spec_term_of("rand"@) == Some(Term::RandConst));
        },
        Term::U => {
            assert("u"@.len() == 1 && "rand"@.len() == 4 && "random"@.len() == 6);
            assert(spec_term_of("u"@) == Some(Term::U));
        },
        Term::V => {
            assert("v"@.len() == 1 && "rand"@.len() == 4 && "random"@.len() == 6);
            assert("v"@[0] == 'v' && "u"@[0] == 'u');
            assert(spec_term_of("v"@) == Some(Term::V));
        },
        Term::T => {
            assert("t"@.len() == 1 && "rand"@.len() == 4 && "random"@.len() == 6);
            assert("t"@[0] == 't' && "u"@[0] == 'u' && "v"@[0] == 'v');
            assert(spec_term_of("t"@) == Some(Term::T));
        },
        Term::R => {
            assert("r"@.len() == 1 && "rand"@.len() == 4 && "random"@.len() == 6);
            assert("r"@[0] == 'r' && "u"@[0] == 'u' && "v"@[0] == 'v' && "t"@[0] == 't');
            assert(spec_term_of("r"@) == Some(Term::R));
        },
    }
    assert(spec_term_of(term_name(t)) == Some(t));
}

/// One step of argument-list parsing.
proof fn lemma_parse_args_step(
    args: Seq<TokenV>,
    ranges: Seq<(int, int)>,
    k: int,
    a: ExprV,
    rest: Seq<ExprV>,
)
    requires
        0 <= k < ranges.len(),
        0 <= ranges[k].0 <= ranges[k].1 <= args.len(),
        spec_parse_expr(args.subrange(ranges[k].0, ranges[k].1)) == Ok::<ExprV, ParseFailV>(a),
        spec_parse_args(args, ranges, k + 1) == Ok::<Seq<ExprV>, ParseFailV>(rest),
    ensures
        spec_parse_args(args, ranges, k) == Ok::<Seq<ExprV>, ParseFailV>(seq![a] + rest),
{
}

/// A one-argument call parses back to the call, given its argument does.
#[verifier::spinoff_prover]
proof fn lemma_rt_call1(ident: Seq<char>, a: ExprV, t0: Seq<TokenV>)
    requires
        spec_arity(ident) == Some(1int),
        spec_parse_expr(t0) == Ok::<ExprV, ParseFailV>(a),
        protected(t0),
        sum_lvl(t0) == 0,
        t0.len() >= 1,
    ensures
        spec_parse_expr(
            seq![TokenV::Ident { name: ident }, TokenV::LPar] + t0 + seq![TokenV::RPar],
        ) == Ok::<ExprV, ParseFailV>(ExprV::Func1 { ident, arg: Box::new(a) }),
{
    let hd = seq![TokenV::Ident { name: ident }, TokenV::LPar];
    let toks = hd + t0 + seq![TokenV::RPar];
    let n = toks.len() as int;
    assert(toks[0] == TokenV::Ident { name: ident });
    assert(toks[1] is LPar);
    assert(toks[n - 1] is RPar);
    let args = toks.subrange(2, n - 1);
    assert(args =~= t0);
    assert(t0.subrange(0, 0) =~= Seq::<TokenV>::empty());
    lemma_scan_no_split(t0, 0, 0);
    let ranges = spec_split_ranges(t0);
    assert(ranges == seq![(0int, t0.len() as int)]);
    assert(t0.subrange(0, t0.len() as int) =~= t0);
    assert(spec_parse_args(t0, ranges, 1) == Ok::<Seq<ExprV>, ParseFailV>(seq![]));
    assert(seq![a] + seq![] =~= seq![a]);
    assert(spec_parse_args(t0, ranges, 0) == Ok::<Seq<ExprV>, ParseFailV>(seq![a]));
    assert(seq![a][0] == a);
    assert(spec_mk_call(ident, seq![a]) == Ok::<ExprV, ParseFailV>(
        ExprV::Func1 { ident, arg: Box::new(a) },
    ));
}

/// A two-argument call parses back to the call, given its arguments do.
#[verifier::spinoff_prover]
#[verifier::rlimit(100)]
proof fn lemma_rt_call2(ident: Seq<char>, a0: ExprV, a1: ExprV, t0: Seq<TokenV>, t1: Seq<TokenV>)
    requires
        spec_arity(ident) == Some(2int),
        spec_parse_expr(t0) == Ok::<ExprV, ParseFailV>(a0),
        spec_parse_expr(t1) == Ok::<ExprV, ParseFailV>(a1),
        protected(t0),
        sum_lvl(t0) == 0,
        protected(t1),
        sum_lvl(t1) == 0,
    ensures
        spec_parse_expr(
            seq![TokenV::Ident { name: ident }, TokenV::LPar] + t0 + seq![TokenV::Comma] + t1
                + seq![TokenV::RPar],
        ) == Ok::<ExprV, ParseFailV>(
            ExprV::Func2 { ident, arg0: Box::new(a0), arg1: Box::new(a1) },
        ),
{
    let hd = seq![TokenV::Ident { name: ident }, TokenV::LPar];
    let c = t0 + seq![TokenV::Comma] + t1;
    let toks = hd + t0 + seq![TokenV::Comma] + t1 + seq![TokenV::RPar];
    assert(toks =~= hd + c + seq![TokenV::RPar]);
    let n = toks.len() as int;
    assert(toks[0] == TokenV::Ident { name: ident });
    assert(toks[1] is LPar);
    assert(toks[n - 1] is RPar);
    let args = toks.subrange(2, n - 1);
    assert(args =~= c);
    lemma_split_two(t0, t1);
    let ranges = spec_split_ranges(c);
    assert(c.subrange(0, t0.len() as int) =~= t0);
    assert(c.subrange(t0.len() as int + 1, t0.len() as int + 1 + t1.len() as int) =~= t1);
    assert(spec_parse_args(c, ranges, 2) == Ok::<Seq<ExprV>, ParseFailV>(seq![]));
    assert(seq![a1] + seq![] =~= seq![a1]);
    assert(spec_parse_args(c, ranges, 1) == Ok::<Seq<ExprV>, ParseFailV>(seq![a1]));
    let es = seq![a0] + seq![a1];
    assert(spec_parse_args(c, ranges, 0) == Ok::<Seq<ExprV>, ParseFailV>(es));
    assert(es.len() == 2 && es[0] == a0 && es[1] == a1);
    assert(spec_mk_call(ident, es) == Ok::<ExprV, ParseFailV>(
        ExprV::Func2 { ident, arg0: Box::new(a0), arg1: Box::new(a1) },
    ));
}

/// A three-argument call parses back to the call, given its arguments do.
#[verifier::spinoff_prover]
#[verifier::rlimit(100)]
proof fn lemma_rt_call3(
    ident: Seq<char>,
    a0: ExprV,
    a1: ExprV,
    a2: ExprV,
    t0: Seq<TokenV>,
    t1: Seq<TokenV>,
    t2: Seq<TokenV>,
)
    requires
        spec_arity(ident) == Some(3int),
        spec_parse_expr(t0) == Ok::<ExprV, ParseFailV>(a0),
        spec_parse_expr(t1) == Ok::<ExprV, ParseFailV>(a1),
        spec_parse_expr(t2) == Ok::<ExprV, ParseFailV>(a2),
        spec_split_ranges(t0 + seq![TokenV::Comma] + t1 + seq![TokenV::Comma] + t2) == seq![
            (0int, t0.len() as int),
            (t0.len() as int + 1, t0.len() as int + 1 + t1.len() as int),
            (
                t0.len() as int + t1.len() as int + 2,
                t0.len() as int + t1.len() as int + 2 + t2.len() as int,
            ),
        ],
    ensures
        spec_parse_expr(
            seq![TokenV::Ident { name: ident }, TokenV::LPar] + t0 + seq![TokenV::Comma] + t1
                + seq![TokenV::Comma] + t2 + seq![TokenV::RPar],
        ) == Ok::<ExprV, ParseFailV>(
            ExprV::Func3 { ident, arg0: Box::new(a0), arg1: Box::new(a1), arg2: Box::new(a2) },
        ),
{
    let hd = seq![TokenV::Ident { name: ident }, TokenV::LPar];
    let c = t0 + seq![TokenV::Comma] + t1 + seq![TokenV::Comma] + t2;
    let toks = hd + t0 + seq![TokenV::Comma] + t1 + seq![TokenV::Comma] + t2 + seq![TokenV::RPar];
    assert(toks =~= hd + c + seq![TokenV::RPar]);
    let n = toks.len() as int;
    assert(toks[0] == TokenV::Ident { name: ident });
    assert(toks[1] is LPar);
    assert(toks[n - 1] is RPar);
    let args = toks.subrange(2, n - 1);
    assert(args =~= c);
    let ranges = spec_split_ranges(c);
    let o1 = t0.len() as int + 1;
    let o2 = t0.len() as int + t1.len() as int + 2;
    assert(c.subrange(0, t0.len() as int) =~= t0);
    assert(c.subrange(o1, o1 + t1.len() as int) =~= t1);
    assert(c.subrange(o2, o2 + t2.len() as int) =~= t2);
    assert(spec_parse_args(c, ranges, 3) == Ok::<Seq<ExprV>, ParseFailV>(seq![]));
    lemma_parse_args_step(c, ranges, 2, a2, seq![]);
    assert(seq![a2] + seq![] =~= seq![a2]);
    lemma_parse_args_step(c, ranges, 1, a1, seq![a2]);
    assert(seq![a1] + seq![a2] =~= seq![a1, a2]);
    lemma_parse_args_step(c, ranges, 0, a0, seq![a1, a2]);
    let es = seq![a0] + seq![a1, a2];
    assert(es.len() == 3 && es[0] == a0 && es[1] == a1 && es[2] == a2);
    assert(spec_mk_call(ident, es) == Ok::<ExprV, ParseFailV>(
        ExprV::Func3 { ident, arg0: Box::new(a0), arg1: Box::new(a1), arg2: Box::new(a2) },
    ));
}

/// Round trip: the token form of a parseable expression parses back to
/// exactly that expression — the call shapes, arities and argument order
/// are recovered.
pub proof fn lemma_parse_round_trip(e: ExprV)
    requires
        parseable(e),
    ensures
        spec_parse_expr(tokens_of(e)) == Ok::<ExprV, ParseFailV>(e),
    decreases e,
{
    match e {
        ExprV::Terminal(t) => {
            lemma_rt_terminal(t);
        },
        ExprV::ToBeReplaced { rule } => {
            let toks = tokens_of(e);
            assert(toks[0] == TokenV::Ident { name: rule });
        },
        ExprV::Func1 { ident, arg } => {
            lemma_parse_round_trip(*arg);
            lemma_tokens_of_protected(*arg);
            lemma_rt_call1(ident, *arg, tokens_of(*arg));
            assert(Box::new(*arg) == arg);
        },
        ExprV::Func2 { ident, arg0, arg1 } => {
            lemma_parse_round_trip(*arg0);
            lemma_parse_round_trip(*arg1);
            lemma_tokens_of_protected(*arg0);
            lemma_tokens_of_protected(*arg1);
            lemma_rt_call2(ident, *arg0, *arg1, tokens_of(*arg0), tokens_of(*arg1));
            assert(Box::new(*arg0) == arg0);
            assert(Box::new(*arg1) == arg1);
        },
        ExprV::Func3 { ident, arg0, arg1, arg2 } => {
            lemma_parse_round_trip(*arg0);
            lemma_parse_round_trip(*arg1);
            lemma_parse_round_trip(*arg2);
            lemma_tokens_of_protected(*arg0);
            lemma_tokens_of_protected(*arg1);
            lemma_tokens_of_protected(*arg2);
            lemma_split_three(tokens_of(*arg0), tokens_of(*arg1), tokens_of(*arg2));
            lemma_rt_call3(
                ident,
                *arg0,
                *arg1,
                *arg2,
                tokens_of(*arg0),
                tokens_of(*arg1),
                tokens_of(*arg2),
            );
            assert(Box::new(*arg0) == arg0);
            assert(Box::new(*arg1) == arg1);
            assert(Box::new(*arg2) == arg2);
        },
    }
}

/// The character run of a token list: each token's text, in order.
pub open spec fn text_of(ts: Seq<TokenV>) -> Seq<char>
    decreases ts.len(),
{
    if ts.len() == 0 {
        seq![]
    } else {
        token_text(ts[0]) + text_of(ts.drop_first())
    }
}

proof fn lemma_text_of_concat(a: Seq<TokenV>, b: Seq<TokenV>)
    ensures
        text_of(a + b) == text_of(a) + text_of(b),
    decreases a.len(),
{
    if a.len() == 0 {
        assert(a + b =~= b);
        assert(text_of(a) + text_of(b) =~= text_of(b));
    } else {
        assert((a + b).drop_first() =~= a.drop_first() + b);
        lemma_text_of_concat(a.drop_first(), b);
        assert((a + b)[0] == a[0]);
        assert(token_text(a[0]) + (text_of(a.drop_first()) + text_of(b)) =~= (token_text(a[0])
            + text_of(a.drop_first())) + text_of(b));
    }
}

/// Whether a token's text scans back to it: an identifier's name is a
/// nonempty run of identifier characters.
pub open spec fn tok_text_wf(t: TokenV) -> bool {
    match t {
        TokenV::Ident { name } => name.len() >= 1 && forall|i: int|
            0 <= i < name.len() ==> is_ident_char(#[trigger] name[i]),
        _ => true,
    }
}

/// A token list whose text tokenises back to it: every token's text is
/// well formed and no identifier directly follows another.
pub open spec fn toks_wf(ts: Seq<TokenV>) -> bool {
    &&& forall|i: int| 0 <= i < ts.len() ==> tok_text_wf(#[trigger] ts[i])
    &&& forall|i: int| 0 <= i < ts.len() - 1 ==> !((#[trigger] ts[i]) is Ident && ts[i + 1] is Ident)
}

/// Whether an expression holds no random constant, whose rendering is not
/// an identifier.
pub open spec fn rand_free(e: ExprV) -> bool
    decreases e,
{
    match e {
        ExprV::Terminal(t) => !(t is RandConst),
        ExprV::Func1 { arg, .. } => rand_free(*arg),
        ExprV::Func2 { arg0, arg1, .. } => rand_free(*arg0) && rand_free(*arg1),
        ExprV::Func3 { arg0, arg1, arg2, .. } => rand_free(*arg0) && rand_free(*arg1) && rand_free(
            *arg2,
        ),
        ExprV::ToBeReplaced { .. } => true,
    }
}

/// The token list of a parseable, resolved expression is well formed, and
/// begins and ends without a bare identifier hazard.
proof fn lemma_tokens_of_wf(e: ExprV)
    requires
        parseable(e),
        resolved(e),
    ensures
        toks_wf(tokens_of(e)),
        tokens_of(e).len() >= 1,
        !(tokens_of(e).last() is Ident) || tokens_of(e).len() == 1,
    decreases e,
{
    reveal_strlit("rand");
    reveal_strlit("u");
    reveal_strlit("v");
    reveal_strlit("t");
    reveal_strlit("r");
    reveal_strlit("abs");
    reveal_strlit("exp");
    reveal_strlit("sqrt");
    reveal_strlit("sin");
    reveal_strlit("add");
    reveal_strlit("mult");
    reveal_strlit("sig");
    let w = tokens_of(e);
    match e {
        ExprV::Terminal(t) => {
            assert(w[0] == TokenV::Ident { name: term_name(t) });
            assert(tok_text_wf(w[0]));
        },
        ExprV::ToBeReplaced { .. } => {
            assert(false);
        },
        ExprV::Func1 { ident, arg } => {
            lemma_tokens_of_wf(*arg);
            lemma_call_toks_wf(ident, tokens_of(*arg), seq![], seq![], 1);
            assert(w =~= seq![TokenV::Ident { name: ident }, TokenV::LPar] + tokens_of(*arg)
                + seq![TokenV::RPar]);
        },
        ExprV::Func2 { ident, arg0, arg1 } => {
            lemma_tokens_of_wf(*arg0);
            lemma_tokens_of_wf(*arg1);
            lemma_call_toks_wf(ident, tokens_of(*arg0), tokens_of(*arg1), seq![], 2);
            assert(w =~= seq![TokenV::Ident { name: ident }, TokenV::LPar] + tokens_of(*arg0)
                + seq![TokenV::Comma] + tokens_of(*arg1) + seq![TokenV::RPar]);
        },
        ExprV::Func3 { ident, arg0, arg1, arg2 } => {
            lemma_tokens_of_wf(*arg0);
            lemma_tokens_of_wf(*arg1);
            lemma_tokens_of_wf(*arg2);
            lemma_call_toks_wf(ident, tokens_of(*arg0), tokens_of(*arg1), tokens_of(*arg2), 3);
            assert(w =~= seq![TokenV::Ident { name: ident }, TokenV::LPar] + tokens_of(*arg0)
                + seq![TokenV::Comma] + tokens_of(*arg1) + seq![TokenV::Comma] + tokens_of(*arg2)
                + seq![TokenV::RPar]);
        },
    }
}

/// Assembling a call's token list keeps it well formed.
proof fn lemma_call_toks_wf(
    ident: Seq<char>,
    t0: Seq<TokenV>,
    t1: Seq<TokenV>,
    t2: Seq<TokenV>,
    arity: int,
)
    requires
        ident.len() >= 1,
        forall|i: int| 0 <= i < ident.len() ==> is_ident_char(#[trigger] ident[i]),
        1 <= arity <= 3,
        toks_wf(t0),
        t0.len() >= 1,
        !(t0.last() is Ident) || t0.len() == 1,
        arity >= 2 ==> toks_wf(t1) && t1.len() >= 1 && (!(t1.last() is Ident) || t1.len() == 1),
        arity == 3 ==> toks_wf(t2) && t2.len() >= 1 && (!(t2.last() is Ident) || t2.len() == 1),
    ensures
        arity == 1 ==> toks_wf(
            seq![TokenV::Ident { name: ident }, TokenV::LPar] + t0 + seq![TokenV::RPar],
        ),
        arity == 2 ==> toks_wf(
            seq![TokenV::Ident { name: ident }, TokenV::LPar] + t0 + seq![TokenV::Comma] + t1
                + seq![TokenV::RPar],
        ),
        arity == 3 ==> toks_wf(
            seq![TokenV::Ident { name: ident }, TokenV::LPar] + t0 + seq![TokenV::Comma] + t1
                + seq![TokenV::Comma] + t2 + seq![TokenV::RPar],
        ),
{
    if arity == 1 {
        let w = seq![TokenV::Ident { name: ident }, TokenV::LPar] + t0 + seq![TokenV::RPar];
        assert forall|i: int| 0 <= i < w.len() implies tok_text_wf(#[trigger] w[i]) by {
            if 2 <= i < 2 + t0.len() {
                assert(w[i] == t0[i - 2]);
            }
        }
        assert forall|i: int| 0 <= i < w.len() - 1 implies !((#[trigger] w[i]) is Ident && w[i
            + 1] is Ident) by {
            if 2 <= i < 2 + t0.len() - 1 {
                assert(w[i] == t0[i - 2] && w[i + 1] == t0[i - 1]);
            } else if i == 2 + t0.len() - 1 {
                assert(w[i + 1] is RPar);
            }
        }
    } else if arity == 2 {
        let w = seq![TokenV::Ident { name: ident }, TokenV::LPar] + t0 + seq![TokenV::Comma] + t1
            + seq![TokenV::RPar];
        let o1 = 2 + t0.len() as int + 1;
        assert forall|i: int| 0 <= i < w.len() implies tok_text_wf(#[trigger] w[i]) by {
            if 2 <= i < 2 + t0.len() {
                assert(w[i] == t0[i - 2]);
            } else if o1 <= i < o1 + t1.len() {
                assert(w[i] == t1[i - o1]);
            }
        }
        assert forall|i: int| 0 <= i < w.len() - 1 implies !((#[trigger] w[i]) is Ident && w[i
            + 1] is Ident) by {
            if 2 <= i < 2 + t0.len() - 1 {
                assert(w[i] == t0[i - 2] && w[i + 1] == t0[i - 1]);
            } else if i == 2 + t0.len() - 1 {
                assert(w[i + 1] is Comma);
            } else if o1 <= i < o1 + t1.len() - 1 {
                assert(w[i] == t1[i - o1] && w[i + 1] == t1[i - o1 + 1]);
            } else if i == o1 + t1.len() - 1 {
                assert(w[i + 1] is RPar);
            }
        }
    } else {
        let w = seq![TokenV::Ident { name: ident }, TokenV::LPar] + t0 + seq![TokenV::Comma] + t1
            + seq![TokenV::Comma] + t2 + seq![TokenV::RPar];
        let o1 = 2 + t0.len() as int + 1;
        let o2 = o1 + t1.len() as int + 1;
        assert forall|i: int| 0 <= i < w.len() implies tok_text_wf(#[trigger] w[i]) by {
            if 2 <= i < 2 + t0.len() {
                assert(w[i] == t0[i - 2]);
            } else if o1 <= i < o1 + t1.len() {
                assert(w[i] == t1[i - o1]);
            } else if o2 <= i < o2 + t2.len() {
                assert(w[i] == t2[i - o2]);
            }
        }
        assert forall|i: int| 0 <= i < w.len() - 1 implies !((#[trigger] w[i]) is Ident && w[i
            + 1] is Ident) by {
            if 2 <= i < 2 + t0.len() - 1 {
                assert(w[i] == t0[i - 2] && w[i + 1] == t0[i - 1]);
            } else if i == 2 + t0.len() - 1 {
                assert(w[i + 1] is Comma);
            } else if o1 <= i < o1 + t1.len() - 1 {
                assert(w[i] == t1[i - o1] && w[i + 1] == t1[i - o1 + 1]);
            } else if i == o1 + t1.len() - 1 {
                assert(w[i + 1] is Comma);
            } else if o2 <= i < o2 + t2.len() - 1 {
                assert(w[i] == t2[i - o2] && w[i + 1] == t2[i - o2 + 1]);
            } else if i == o2 + t2.len() - 1 {
                assert(w[i + 1] is RPar);
            }
        }
    }
}

/// Just the token-or-error parts of a tokenisation, spans dropped.
pub open spec fn kinds_only(xs: Seq<(Result<TokenV, GTokenError>, TokenSpan)>) -> Seq<
    Result<TokenV, GTokenError>,
> {
    xs.map_values(|p: (Result<TokenV, GTokenError>, TokenSpan)| p.0)
}

/// The identifier scan consumes exactly a run of identifier characters
/// that ends at a non-identifier character or at the end of the input.
proof fn lemma_scan_run(s: Seq<char>, l: LocV, m: int)
    requires
        0 <= l.pos,
        m >= 0,
        l.pos + m <= s.len(),
        forall|i: int| l.pos <= i < l.pos + m ==> is_ident_char(#[trigger] s[i]),
        l.pos + m == s.len() || !is_ident_char(s[l.pos + m]),
    ensures
        spec_scan_ident(s, l).pos == l.pos + m,
    decreases m,
{
    if m > 0 {
        assert(is_ident_char(s[l.pos]));
        lemma_scan_run(s, loc_step(s, l), m - 1);
    }
}

/// A well-formed token list's text tokenises back to exactly that list,
/// with no error tokens.
#[verifier::rlimit(100)]
#[verifier::spinoff_prover]
pub proof fn lemma_text_tokenises(s: Seq<char>, l: LocV, ts: Seq<TokenV>)
    requires
        0 <= l.pos <= s.len(),
        s.subrange(l.pos, s.len() as int) == text_of(ts),
        toks_wf(ts),
    ensures
        kinds_only(spec_tokens_from(s, l)) == ts.map_values(
            |t: TokenV| Ok::<TokenV, GTokenError>(t),
        ),
    decreases ts.len(),
{
    reveal_strlit("(");
    reveal_strlit(")");
    reveal_strlit(",");
    reveal_strlit("|");
    reveal_strlit(";");
    if ts.len() == 0 {
        assert(s.subrange(l.pos, s.len() as int).len() == 0);
        assert(l.pos == s.len());
        assert(spec_skip(s, l, false) == l);
        assert(spec_tokens_from(s, l) =~= Seq::<
            (Result<TokenV, GTokenError>, TokenSpan),
        >::empty());
        assert(kinds_only(spec_tokens_from(s, l)) =~= ts.map_values(
            |t: TokenV| Ok::<TokenV, GTokenError>(t),
        ));
    } else {
        let t0 = ts[0];
        let rest = ts.drop_first();
        let w0 = token_text(t0);
        assert(text_of(ts) == w0 + text_of(rest));
        // a token's text is nonempty, whichever kind it is
        assert(w0.len() >= 1) by {
            if t0 is Ident {
            } else {
            }
        }
        assert(s.subrange(l.pos, s.len() as int)[0] == s[l.pos]);
        assert(s[l.pos] == w0[0]);
        // the first character is never whitespace or a comment mark
        assert(!is_ws_char(s[l.pos]) && s[l.pos] != '#') by {
            if t0 is Ident {
                assert(is_ident_char(w0[0]));
            }
        }
        assert(spec_skip(s, l, false) == l);
        // the remaining text after this token
        assert forall|i: int|
            0 <= i < text_of(rest).len() implies #[trigger] s[l.pos + w0.len() + i] == text_of(
            rest,
        )[i] by {
            assert(s.subrange(l.pos, s.len() as int)[w0.len() + i] == s[l.pos + (w0.len() + i)]);
            assert(s.subrange(l.pos, s.len() as int)[w0.len() + i] == (w0 + text_of(rest))[
                w0.len() + i]);
            assert((w0 + text_of(rest))[w0.len() + i] == text_of(rest)[i]);
            assert(l.pos + (w0.len() + i) == l.pos + w0.len() + i);
        }
        assert(l.pos + w0.len() + text_of(rest).len() == s.len());
        let (tk, l2) = spec_next_token(s, l);
        if t0 is Ident {
            let name = token_text(t0);
            // the scan stops exactly at the end of the name
            assert forall|i: int| l.pos <= i < l.pos + name.len() implies is_ident_char(
                #[trigger] s[i],
            ) by {
                let j = i - l.pos;
                assert(s.subrange(l.pos, s.len() as int)[j] == s[l.pos + j]);
                assert((w0 + text_of(rest))[j] == name[j]);
                assert(is_ident_char(name[j]));
            }
            assert(l.pos + name.len() == s.len() || !is_ident_char(s[l.pos + name.len()])) by {
                if rest.len() > 0 {
                    assert(text_of(rest) == token_text(rest[0]) + text_of(rest.drop_first()));
                    assert(!(rest[0] is Ident)) by {
                        assert(ts[0] is Ident && ts[1] == rest[0]);
                    }
                    assert(text_of(rest)[0] == token_text(rest[0])[0]);
                    assert(s[l.pos + w0.len() + 0] == text_of(rest)[0]);
                    assert(l.pos + name.len() == l.pos + w0.len() + 0);
                    assert(!is_ident_char(token_text(rest[0])[0]));
                } else {
                    assert(text_of(rest).len() == 0);
                }
            }
            lemma_scan_run(s, l, name.len() as int);
            assert(is_ident_char(s[l.pos]));
            assert(tk == Some(
                (
                    Ok::<TokenV, GTokenError>(
                        TokenV::Ident { name: s.subrange(l.pos, l.pos + name.len()) },
                    ),
                    spec_span(l.line, l.col, name.len() as int),
                ),
            ));
            assert(s.subrange(l.pos, l.pos + name.len()) =~= name);
            assert(l2.pos == l.pos + name.len());
        } else {
            assert(w0.len() == 1);
            assert(l2 == loc_step(s, l));
            // recognition case by case over the five punctuation marks
            assert(tk == Some(
                (Ok::<TokenV, GTokenError>(t0), spec_span(l.line, l.col, 1)),
            )) by {
                if t0 is Comma {
                } else if t0 is LPar {
                } else if t0 is RPar {
                } else if t0 is Bar {
                } else {
                }
            }
        }
        assert(l2.pos == l.pos + w0.len());
        assert forall|i: int|
            0 <= i < text_of(rest).len() implies #[trigger] s.subrange(l2.pos, s.len() as int)[i]
            == text_of(rest)[i] by {
            assert(s[l.pos + w0.len() + i] == text_of(rest)[i]);
            assert(s.subrange(l2.pos, s.len() as int)[i] == s[l2.pos + i]);
            assert(l2.pos + i == l.pos + w0.len() + i);
        }
        assert(s.subrange(l2.pos, s.len() as int) =~= text_of(rest));
        assert(toks_wf(rest)) by {
            assert(forall|i: int| 0 <= i < rest.len() ==> #[trigger] rest[i] == ts[i + 1]);
        }
        crate::tokeniser::lemma_next_token_bounds(s, l);
        lemma_text_tokenises(s, l2, rest);
        assert(spec_tokens_from(s, l) == seq![tk->Some_0] + spec_tokens_from(s, l2));
        assert(tk->Some_0.0 == Ok::<TokenV, GTokenError>(t0));
        assert(kinds_only(spec_tokens_from(s, l)) =~= seq![Ok::<TokenV, GTokenError>(t0)]
            + kinds_only(spec_tokens_from(s, l2)));
        assert(ts.map_values(|t: TokenV| Ok::<TokenV, GTokenError>(t)) =~= seq![
            Ok::<TokenV, GTokenError>(t0),
        ] + rest.map_values(|t: TokenV| Ok::<TokenV, GTokenError>(t)));
    }
}

/// The text of the smallest token runs.
proof fn lemma_text_of_single(t: TokenV)
    ensures
        text_of(seq![t]) == token_text(t),
{
    assert(seq![t][0] == t);
    assert(seq![t].drop_first() =~= Seq::<TokenV>::empty());
    assert(text_of(Seq::<TokenV>::empty()) =~= Seq::<char>::empty());
    assert(token_text(t) + Seq::<char>::empty() =~= token_text(t));
}

proof fn lemma_text_of_head(name: Seq<char>)
    ensures
        text_of(seq![TokenV::Ident { name: name }, TokenV::LPar]) == name + "("@,
{
    let hd = seq![TokenV::Ident { name: name }, TokenV::LPar];
    assert(hd[0] == TokenV::Ident { name: name });
    assert(hd.drop_first() =~= seq![TokenV::LPar]);
    lemma_text_of_single(TokenV::LPar);
    assert(text_of(hd) == token_text(hd[0]) + text_of(hd.drop_first()));
}

/// A resolved, random-free tree has exactly one rendering: the text of
/// its token form.
pub proof fn lemma_renders_text(e: ExprV, s: Seq<char>)
    requires
        resolved(e),
        rand_free(e),
        renders(e, s),
    ensures
        s == text_of(tokens_of(e)),
    decreases e,
{
    reveal_strlit("(");
    reveal_strlit(")");
    reveal_strlit(",");
    match e {
        ExprV::Terminal(t) => {
            lemma_text_of_single(TokenV::Ident { name: term_name(t) });
        },
        ExprV::ToBeReplaced { .. } => {
            assert(false);
        },
        ExprV::Func1 { ident, arg } => {
            let s1 = choose|s1: Seq<char>|
                renders(*arg, s1) && s == ident + #[trigger] ("("@ + s1) + ")"@;
            lemma_renders_text(*arg, s1);
            let t0 = tokens_of(*arg);
            let w = tokens_of(e);
            assert(w == seq![TokenV::Ident { name: ident }, TokenV::LPar] + t0 + seq![
                TokenV::RPar,
            ]);
            lemma_text_of_concat(seq![TokenV::Ident { name: ident }, TokenV::LPar] + t0, seq![
                TokenV::RPar,
            ]);
            lemma_text_of_concat(seq![TokenV::Ident { name: ident }, TokenV::LPar], t0);
            lemma_text_of_head(ident);
            lemma_text_of_single(TokenV::RPar);
            assert(s =~= text_of(w));
        },
        ExprV::Func2 { ident, arg0, arg1 } => {
            let (s1, s2) = choose|s1: Seq<char>, s2: Seq<char>|
                #![trigger "("@ + s1, ","@ + s2]
                renders(*arg0, s1) && renders(*arg1, s2) && s == ident + ("("@ + s1) + (","@
                    + s2) + ")"@;
            lemma_renders_text(*arg0, s1);
            lemma_renders_text(*arg1, s2);
            let t0 = tokens_of(*arg0);
            let t1 = tokens_of(*arg1);
            let w = tokens_of(e);
            let hd = seq![TokenV::Ident { name: ident }, TokenV::LPar];
            assert(w == hd + t0 + seq![TokenV::Comma] + t1 + seq![TokenV::RPar]);
            lemma_text_of_concat(hd + t0 + seq![TokenV::Comma] + t1, seq![TokenV::RPar]);
            lemma_text_of_concat(hd + t0 + seq![TokenV::Comma], t1);
            lemma_text_of_concat(hd + t0, seq![TokenV::Comma]);
            lemma_text_of_concat(hd, t0);
            lemma_text_of_head(ident);
            lemma_text_of_single(TokenV::Comma);
            lemma_text_of_single(TokenV::RPar);
            assert(s =~= text_of(w));
        },
        ExprV::Func3 { ident, arg0, arg1, arg2 } => {
            let (s1, s2, s3) = choose|s1: Seq<char>, s2: Seq<char>, s3: Seq<char>|
                #![trigger "("@ + s1, ","@ + s2, ","@ + s3]
                renders(*arg0, s1) && renders(*arg1, s2) && renders(*arg2, s3) && s == ident + (
                "("@ + s1) + (","@ + s2) + (","@ + s3) + ")"@;
            lemma_renders_text(*arg0, s1);
            lemma_renders_text(*arg1, s2);
            lemma_renders_text(*arg2, s3);
            let t0 = tokens_of(*arg0);
            let t1 = tokens_of(*arg1);
            let t2 = tokens_of(*arg2);
            let w = tokens_of(e);
            let hd = seq![TokenV::Ident { name: ident }, TokenV::LPar];
            assert(w == hd + t0 + seq![TokenV::Comma] + t1 + seq![TokenV::Comma] + t2 + seq![
                TokenV::RPar,
            ]);
            lemma_text_of_concat(
                hd + t0 + seq![TokenV::Comma] + t1 + seq![TokenV::Comma] + t2,
                seq![TokenV::RPar],
            );
            lemma_text_of_concat(hd + t0 + seq![TokenV::Comma] + t1 + seq![TokenV::Comma], t2);
            lemma_text_of_concat(hd + t0 + seq![TokenV::Comma] + t1, seq![TokenV::Comma]);
            lemma_text_of_concat(hd + t0 + seq![TokenV::Comma], t1);
            lemma_text_of_concat(hd + t0, seq![TokenV::Comma]);
            lemma_text_of_concat(hd, t0);
            lemma_text_of_head(ident);
            lemma_text_of_single(TokenV::Comma);
            lemma_text_of_single(TokenV::RPar);
            assert(s =~= text_of(w));
        },
    }
}

/// Round trip through text: any rendering of a resolved, parseable,
/// random-free expression tokenises without error to exactly the
/// expression's token form, and that token form parses back to exactly
/// the expression — serialization loses neither call shape, nor arity,
/// nor argument order.
pub proof fn lemma_serialize_round_trip(e: ExprV, s: Seq<char>)
    requires
        parseable(e),
        resolved(e),
        rand_free(e),
        renders(e, s),
    ensures
        kinds_only(spec_tokens(s)) == tokens_of(e).map_values(
            |t: TokenV| Ok::<TokenV, GTokenError>(t),
        ),
        spec_parse_expr(tokens_of(e)) == Ok::<ExprV, ParseFailV>(e),
{
    lemma_renders_text(e, s);
    lemma_tokens_of_wf(e);
    assert(s.subrange(0, s.len() as int) =~= s);
    lemma_text_tokenises(s, loc_start(), tokens_of(e));
    lemma_parse_round_trip(e);
}

} // verus!
