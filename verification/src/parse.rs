//! Recursive-descent parser for the membership-expression grammar:
//!
//! ```text
//! expr      := IDENT | call
//! call      := "not" "(" expr ")" | "any" "(" expr_list ")" | "all" "(" expr_list ")"
//! expr_list := (expr ("," expr)* ","?)?
//! ```
//!
//! A bare identifier is an identifier term unless it stands directly
//! before `(`, in which case it must be exactly `not`, `any` or `all`,
//! else parsing fails naming the offending identifier and its location.
use vstd::prelude::*;

use crate::diag::{Diag, DiagKind, DiagV};
use crate::expr::{eval, expr_view, exprs_view, tokens_of, tokens_of_list, toks_view, AllExpr, AnyExpr,
    Expr, ExprV, IdentExpr, NotExpr, Tok, TokV};

verus! {

/// The span of a token.
pub open spec fn sp_span(t: TokV) -> u32 {
    match t {
        TokV::Ident { text, span } => span,
        TokV::LParen { span } => span,
        TokV::RParen { span } => span,
        TokV::Comma { span } => span,
        TokV::AttrTok { path, payload, span } => span,
        TokV::Other { payload, span } => span,
    }
}

/// The position reported when the input ends too early: the last token's
/// span, or zero of an empty input.
pub open spec fn sp_end_span(ts: Seq<TokV>) -> u32 {
    if ts.len() == 0 {
        0
    } else {
        sp_span(ts[ts.len() - 1])
    }
}

/// What parsing one expression at position `i` yields: the expression and
/// the position after it, or the diagnostic.
pub open spec fn sp_expr(ts: Seq<TokV>, i: int) -> Result<(ExprV, int), DiagV>
    decreases ts.len() - i, 1int,
{
    if i < 0 || i >= ts.len() {
        Err(DiagV { kind: DiagKind::UnexpectedEnd, span: sp_end_span(ts), name: None })
    } else {
        match ts[i] {
            TokV::Ident { text, span } => {
                if i + 1 < ts.len() && ts[i + 1] is LParen {
                    if text == "not"@ {
                        match sp_expr(ts, i + 2) {
                            Ok((inner, j)) => {
                                if j < ts.len() && ts[j] is RParen {
                                    Ok((ExprV::Not { span, arg: Box::new(inner) }, j + 1))
                                } else if j < ts.len() {
                                    Err(
                                        DiagV {
                                            kind: DiagKind::UnexpectedToken,
                                            span: sp_span(ts[j]),
                                            name: None,
                                        },
                                    )
                                } else {
                                    Err(
                                        DiagV {
                                            kind: DiagKind::UnexpectedEnd,
                                            span: sp_end_span(ts),
                                            name: None,
                                        },
                                    )
                                }
                            },
                            Err(d) => Err(d),
                        }
                    } else if text == "any"@ {
                        match sp_args(ts, i + 2) {
                            Ok((args, j)) => Ok((ExprV::Any { span, args }, j + 1)),
                            Err(d) => Err(d),
                        }
                    } else if text == "all"@ {
                        match sp_args(ts, i + 2) {
                            Ok((args, j)) => Ok((ExprV::All { span, args }, j + 1)),
                            Err(d) => Err(d),
                        }
                    } else {
                        Err(DiagV { kind: DiagKind::UnexpectedOperator, span, name: Some(text) })
                    }
                } else {
                    Ok((ExprV::Ident { text, span }, i + 1))
                }
            },
            _ => Err(
                DiagV { kind: DiagKind::ExpectedIdent, span: sp_span(ts[i]), name: None },
            ),
        }
    }
}

/// What parsing a comma-separated expression list at position `i` yields:
/// the elements and the position of the closing `)`, or the diagnostic.
/// The list ends only at a `)`; a trailing comma is permitted.
pub open spec fn sp_args(ts: Seq<TokV>, i: int) -> Result<(Seq<ExprV>, int), DiagV>
    decreases ts.len() - i, 2int,
{
    if i < 0 || i >= ts.len() {
        Err(DiagV { kind: DiagKind::UnexpectedEnd, span: sp_end_span(ts), name: None })
    } else if ts[i] is RParen {
        Ok((Seq::empty(), i))
    } else {
        match sp_expr(ts, i) {
            Ok((e, j)) => {
                if !(i < j <= ts.len()) {
                    // Parsing always advances (`sp_expr_progress`); this
                    // branch only satisfies the termination checker.
                    Err(DiagV { kind: DiagKind::UnexpectedEnd, span: sp_end_span(ts), name: None })
                } else if j == ts.len() {
                    Err(DiagV { kind: DiagKind::UnexpectedEnd, span: sp_end_span(ts), name: None })
                } else if ts[j] is RParen {
                    Ok((seq![e], j))
                } else if ts[j] is Comma {
                    match sp_args(ts, j + 1) {
                        Ok((rest, k)) => Ok((seq![e] + rest, k)),
                        Err(d) => Err(d),
                    }
                } else {
                    Err(DiagV { kind: DiagKind::ExpectedComma, span: sp_span(ts[j]), name: None })
                }
            },
            Err(d) => Err(d),
        }
    }
}

/// Parsing always advances: a parsed expression ends past where it began,
/// and a parsed list ends at a closing `)` no earlier than it began.
pub proof fn sp_parse_progress(ts: Seq<TokV>, i: int)
    ensures
        sp_expr(ts, i) matches Ok(p) ==> i < p.1 <= ts.len(),
        sp_args(ts, i) matches Ok(q) ==> i <= q.1 < ts.len() && ts[q.1] is RParen,
    decreases ts.len() - i,
{
    if 0 <= i < ts.len() {
        if ts[i] is Ident && i + 1 < ts.len() && ts[i + 1] is LParen {
            sp_parse_progress(ts, i + 2);
        }
        if !(ts[i] is RParen) {
            match sp_expr(ts, i) {
                Ok(p) => {
                    if p.1 < ts.len() && ts[p.1] is Comma {
                        sp_parse_progress(ts, p.1 + 1);
                    }
                },
                Err(_) => {},
            }
        }
    }
}

/// A canonical token form always starts with an identifier token.
pub proof fn lemma_tokens_head(e: ExprV)
    ensures
        tokens_of(e).len() >= 1,
        tokens_of(e)[0] is Ident,
{
    match e {
        ExprV::Ident { text, span } => {},
        ExprV::Not { span, arg } => {},
        ExprV::Any { span, args } => {},
        ExprV::All { span, args } => {},
    }
}

/// Reparsing a canonical token form yields the expression it was written
/// from, wherever that form stands in a stream, provided what follows it
/// is a comma, a closing parenthesis or the end of the input.
pub proof fn lemma_reparse(ts: Seq<TokV>, i: int, e: ExprV)
    requires
        0 <= i,
        i + tokens_of(e).len() <= ts.len(),
        ts.subrange(i, i + tokens_of(e).len()) == tokens_of(e),
        i + tokens_of(e).len() == ts.len() || ts[i + tokens_of(e).len()] is Comma || ts[i
            + tokens_of(e).len()] is RParen,
    ensures
        sp_expr(ts, i) == Ok::<(ExprV, int), DiagV>((e, i + tokens_of(e).len())),
    decreases e,
{
    reveal_strlit("not");
    reveal_strlit("any");
    reveal_strlit("all");
    let toks = tokens_of(e);
    let l = toks.len() as int;
    assert(forall|k: int| 0 <= k < l ==> ts[i + k] == #[trigger] toks[k]) by {
        assert(forall|k: int| 0 <= k < l ==> ts.subrange(i, i + l)[k] == #[trigger] toks[k]);
    }
    match e {
        ExprV::Ident { text, span } => {
            assert(ts[i] == TokV::Ident { text, span });
            assert(!(i + 1 < ts.len() && ts[i + 1] is LParen));
        },
        ExprV::Not { span, arg } => {
            let inner = tokens_of(*arg);
            let li = inner.len() as int;
            assert(toks[0] == TokV::Ident { text: "not"@, span });
            assert(toks[1] == TokV::LParen { span });
            assert(toks[2 + li] == TokV::RParen { span });
            assert(ts.subrange(i + 2, i + 2 + li) =~= inner) by {
                assert(forall|k: int| 0 <= k < li ==> toks[2 + k] == #[trigger] inner[k]);
            }
            assert(ts[i + 2 + li] is RParen);
            lemma_reparse(ts, i + 2, *arg);
            assert(Box::new(*arg) == arg);
        },
        ExprV::Any { span, args } => {
            let inner = tokens_of_list(args);
            let li = inner.len() as int;
            assert(toks[0] == TokV::Ident { text: "any"@, span });
            assert(toks[1] == TokV::LParen { span });
            assert(toks[2 + li] == TokV::RParen { span });
            assert(ts.subrange(i + 2, i + 2 + li) =~= inner) by {
                assert(forall|k: int| 0 <= k < li ==> toks[2 + k] == #[trigger] inner[k]);
            }
            assert(ts[i + 2 + li] is RParen);
            lemma_reparse_list(ts, i + 2, args);
            assert("any"@ != "not"@) by {
                assert("any"@[0] == 'a' && "not"@[0] == 'n');
            }
        },
        ExprV::All { span, args } => {
            let inner = tokens_of_list(args);
            let li = inner.len() as int;
            assert(toks[0] == TokV::Ident { text: "all"@, span });
            assert(toks[1] == TokV::LParen { span });
            assert(toks[2 + li] == TokV::RParen { span });
            assert(ts.subrange(i + 2, i + 2 + li) =~= inner) by {
                assert(forall|k: int| 0 <= k < li ==> toks[2 + k] == #[trigger] inner[k]);
            }
            assert(ts[i + 2 + li] is RParen);
            lemma_reparse_list(ts, i + 2, args);
            assert("all"@ != "not"@) by {
                assert("all"@[0] == 'a' && "not"@[0] == 'n');
            }
            assert("all"@ != "any"@) by {
                assert("all"@[1] == 'l' && "any"@[1] == 'n');
            }
        },
    }
}

/// Reparsing a canonical argument list yields the list it was written
/// from, provided a closing parenthesis follows it.
pub proof fn lemma_reparse_list(ts: Seq<TokV>, i: int, args: Seq<ExprV>)
    requires
        0 <= i,
        i + tokens_of_list(args).len() < ts.len(),
        ts.subrange(i, i + tokens_of_list(args).len()) == tokens_of_list(args),
        ts[i + tokens_of_list(args).len()] is RParen,
    ensures
        sp_args(ts, i) == Ok::<(Seq<ExprV>, int), DiagV>((args, i + tokens_of_list(args).len())),
    decreases args,
{
    let toks = tokens_of_list(args);
    let l = toks.len() as int;
    assert(forall|k: int| 0 <= k < l ==> ts[i + k] == #[trigger] toks[k]) by {
        assert(forall|k: int| 0 <= k < l ==> ts.subrange(i, i + l)[k] == #[trigger] toks[k]);
    }
    if args.len() == 0 {
        assert(ts[i] is RParen);
        assert(sp_args(ts, i) == Ok::<(Seq<ExprV>, int), DiagV>((Seq::empty(), i)));
        assert(args =~= Seq::<ExprV>::empty());
    } else if args.len() == 1 {
        lemma_tokens_head(args[0]);
        assert(ts[i] == toks[0]);
        lemma_reparse(ts, i, args[0]);
        sp_parse_progress(ts, i);
        assert(seq![args[0]] =~= args);
    } else {
        let head = tokens_of(args[0]);
        let lh = head.len() as int;
        lemma_tokens_head(args[0]);
        assert(toks[lh] == TokV::Comma { span: 0 });
        assert(ts.subrange(i, i + lh) =~= head) by {
            assert(forall|k: int| 0 <= k < lh ==> toks[k] == #[trigger] head[k]);
        }
        assert(ts[i + lh] is Comma);
        lemma_reparse(ts, i, args[0]);
        let rest = args.drop_first();
        let rtoks = tokens_of_list(rest);
        let lr = rtoks.len() as int;
        assert(l == lh + 1 + lr);
        assert(ts.subrange(i + lh + 1, i + lh + 1 + lr) =~= rtoks) by {
            assert(forall|k: int| 0 <= k < lr ==> toks[lh + 1 + k] == #[trigger] rtoks[k]);
        }
        lemma_reparse_list(ts, i + lh + 1, rest);
        assert(seq![args[0]] + rest =~= args);
        assert(ts[i] == toks[0]);
        sp_parse_progress(ts, i);
    }
}

/// Semantic round trip: a parsed expression, written back out in its
/// canonical token form, parses again to an expression that evaluates the
/// same on every candidate. In fact the reparse gives the expression back
/// exactly.
pub proof fn lemma_semantic_round_trip(ts: Seq<TokV>, c: Seq<char>)
    requires
        sp_expr(ts, 0) is Ok,
    ensures
        ({
            let e = sp_expr(ts, 0)->Ok_0.0;
            &&& sp_expr(tokens_of(e), 0) == Ok::<(ExprV, int), DiagV>(
                (e, tokens_of(e).len() as int),
            )
            &&& eval(sp_expr(tokens_of(e), 0)->Ok_0.0, c) == eval(e, c)
        }),
{
    let e = sp_expr(ts, 0)->Ok_0.0;
    let toks = tokens_of(e);
    assert(toks.subrange(0, toks.len() as int) =~= toks);
    lemma_reparse(toks, 0, e);
}

/// `exprs_view` distributes over prepending one element.
pub proof fn exprs_view_cons(e: Expr, rest: Seq<Expr>)
    ensures
        exprs_view(seq![e] + rest) == seq![expr_view(e)] + exprs_view(rest),
{
    let s = seq![e] + rest;
    assert(s.len() == 1 + rest.len());
    assert(s[0] == e);
    assert(s.drop_first() =~= rest);
}

/// The span of a token.
pub fn tok_span(t: &Tok) -> (r: u32)
    ensures
        r == sp_span(t@),
{
    match t {
        Tok::Ident { text, span } => *span,
        Tok::LParen { span } => *span,
        Tok::RParen { span } => *span,
        Tok::Comma { span } => *span,
        Tok::AttrTok { path, payload, span } => *span,
        Tok::Other { payload, span } => *span,
    }
}

/// The position reported when the input ends too early.
pub fn end_span(ts: &Vec<Tok>) -> (r: u32)
    ensures
        r == sp_end_span(toks_view(ts@)),
{
    if ts.len() == 0 {
        0
    } else {
        let r = tok_span(&ts[ts.len() - 1]);
        assert(toks_view(ts@)[ts@.len() - 1] == ts@[ts@.len() - 1]@);
        r
    }
}

/// Whether a parsed identifier equals a keyword.
fn is_kw(text: &String, kw: &str) -> (r: bool)
    ensures
        r == (text@ == kw@),
{
    let k: String = kw.to_owned();
    *text == k
}

/// Parse one expression at position `i` of the token stream, yielding the
/// expression and the position after it, exactly as `sp_expr` describes.
pub fn parse_expr(ts: &Vec<Tok>, i: usize) -> (r: Result<(Expr, usize), Diag>)
    ensures
        (r matches Ok(p) ==> sp_expr(toks_view(ts@), i as int) == Ok::<(ExprV, int), DiagV>(
            (p.0@, p.1 as int),
        ) && i < p.1 <= ts@.len()),
        (r matches Err(d) ==> sp_expr(toks_view(ts@), i as int) == Err::<(ExprV, int), DiagV>(d@)),
    decreases ts@.len() - i, 1int,
{
    let ghost tv = toks_view(ts@);
    proof {
        sp_parse_progress(tv, i as int);
        assert(forall|k: int| 0 <= k < ts@.len() ==> tv[k] == ts@[k]@);
    }
    if i >= ts.len() {
        return Err(Diag::new(DiagKind::UnexpectedEnd, end_span(ts)));
    }
    match &ts[i] {
        Tok::Ident { text, span } => {
            let has_call = i + 1 < ts.len() && matches!(&ts[i + 1], Tok::LParen { .. });
            assert(has_call == (i + 1 < tv.len() && tv[i + 1] is LParen));
            if has_call {
                if is_kw(text, "not") {
                    match parse_expr(ts, i + 2) {
                        Ok((inner, j)) => {
                            if j < ts.len() && matches!(&ts[j], Tok::RParen { .. }) {
                                let e = Expr::Not(
                                    NotExpr { span: *span, expr: Box::new(inner) },
                                );
                                return Ok((e, j + 1));
                            } else if j < ts.len() {
                                return Err(
                                    Diag::new(DiagKind::UnexpectedToken, tok_span(&ts[j])),
                                );
                            } else {
                                return Err(Diag::new(DiagKind::UnexpectedEnd, end_span(ts)));
                            }
                        },
                        Err(d) => {
                            return Err(d);
                        },
                    }
                } else if is_kw(text, "any") {
                    match parse_args(ts, i + 2) {
                        Ok((args, j)) => {
                            let e = Expr::Any(AnyExpr { span: *span, exprs: args });
                            return Ok((e, j + 1));
                        },
                        Err(d) => {
                            return Err(d);
                        },
                    }
                } else if is_kw(text, "all") {
                    match parse_args(ts, i + 2) {
                        Ok((args, j)) => {
                            let e = Expr::All(AllExpr { span: *span, exprs: args });
                            return Ok((e, j + 1));
                        },
                        Err(d) => {
                            return Err(d);
                        },
                    }
                } else {
                    return Err(
                        Diag::named(DiagKind::UnexpectedOperator, *span, text.clone()),
                    );
                }
            } else {
                let e = Expr::Ident(IdentExpr { text: text.clone(), span: *span });
                return Ok((e, i + 1));
            }
        },
        t => {
            return Err(Diag::new(DiagKind::ExpectedIdent, tok_span(t)));
        },
    }
}

/// Parse the comma-separated expression list at position `i`, ending at the
/// closing `)`, exactly as `sp_args` describes.
pub fn parse_args(ts: &Vec<Tok>, i: usize) -> (r: Result<(Vec<Expr>, usize), Diag>)
    ensures
        (r matches Ok(q) ==> sp_args(toks_view(ts@), i as int) == Ok::<(Seq<ExprV>, int), DiagV>(
            (exprs_view(q.0@), q.1 as int),
        ) && i <= q.1 < ts@.len()),
        (r matches Err(d) ==> sp_args(toks_view(ts@), i as int) == Err::<(Seq<ExprV>, int), DiagV>(
            d@,
        )),
    decreases ts@.len() - i, 2int,
{
    let ghost tv = toks_view(ts@);
    proof {
        sp_parse_progress(tv, i as int);
        assert(forall|k: int| 0 <= k < ts@.len() ==> tv[k] == ts@[k]@);
    }
    if i >= ts.len() {
        return Err(Diag::new(DiagKind::UnexpectedEnd, end_span(ts)));
    }
    if matches!(&ts[i], Tok::RParen { .. }) {
        let v: Vec<Expr> = Vec::new();
        assert(exprs_view(v@) =~= Seq::<ExprV>::empty());
        return Ok((v, i));
    }
    match parse_expr(ts, i) {
        Ok((e, j)) => {
            if j == ts.len() {
                return Err(Diag::new(DiagKind::UnexpectedEnd, end_span(ts)));
            } else if matches!(&ts[j], Tok::RParen { .. }) {
                let mut v: Vec<Expr> = Vec::new();
                v.push(e);
                proof {
                    assert(v@ =~= seq![e] + Seq::<Expr>::empty());
                    exprs_view_cons(e, Seq::<Expr>::empty());
                    assert(exprs_view(Seq::<Expr>::empty()) =~= Seq::<ExprV>::empty());
                    assert(seq![expr_view(e)] + Seq::<ExprV>::empty() =~= seq![expr_view(e)]);
                }
                return Ok((v, j));
            } else if matches!(&ts[j], Tok::Comma { .. }) {
                match parse_args(ts, j + 1) {
                    Ok((mut rest, k)) => {
                        let ghost rest0 = rest@;
                        rest.insert(0, e);
                        proof {
                            assert(rest@ =~= seq![rest@[0]] + rest0);
                            exprs_view_cons(rest@[0], rest0);
                        }
                        return Ok((rest, k));
                    },
                    Err(d) => {
                        return Err(d);
                    },
                }
            } else {
                return Err(Diag::new(DiagKind::ExpectedComma, tok_span(&ts[j])));
            }
        },
        Err(d) => {
            return Err(d);
        },
    }
}

} // verus!
