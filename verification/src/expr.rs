//! The membership-expression language: a boolean predicate over profile
//! names, written `IDENT`, `not(expr)`, `any(expr, ...)` or `all(expr, ...)`.
use vstd::prelude::*;

verus! {

/// One token of an attribute argument stream, as the adapter hands it over.
/// Spans and payloads are opaque handles into the adapter's side tables.
pub enum Tok {
    Ident { text: String, span: u32 },
    LParen { span: u32 },
    RParen { span: u32 },
    Comma { span: u32 },
    /// An outer attribute (`#[path ...]`) standing in an argument list.
    AttrTok { path: String, payload: u32, span: u32 },
    /// Any other token, carried through opaquely.
    Other { payload: u32, span: u32 },
}

/// Mathematical image of a token.
pub enum TokV {
    Ident { text: Seq<char>, span: u32 },
    LParen { span: u32 },
    RParen { span: u32 },
    Comma { span: u32 },
    AttrTok { path: Seq<char>, payload: u32, span: u32 },
    Other { payload: u32, span: u32 },
}

impl View for Tok {
    type V = TokV;

    open spec fn view(&self) -> TokV {
        match self {
            Tok::Ident { text, span } => TokV::Ident { text: text@, span: *span },
            Tok::LParen { span } => TokV::LParen { span: *span },
            Tok::RParen { span } => TokV::RParen { span: *span },
            Tok::Comma { span } => TokV::Comma { span: *span },
            Tok::AttrTok { path, payload, span } => TokV::AttrTok {
                path: path@,
                payload: *payload,
                span: *span,
            },
            Tok::Other { payload, span } => TokV::Other { payload: *payload, span: *span },
        }
    }
}

/// The view of a token sequence.
pub open spec fn toks_view(ts: Seq<Tok>) -> Seq<TokV> {
    ts.map_values(|t: Tok| t@)
}

/// A membership expression over profile names.
pub enum Expr {
    Ident(IdentExpr),
    Not(NotExpr),
    Any(AnyExpr),
    All(AllExpr),
}

pub struct IdentExpr {
    pub text: String,
    pub span: u32,
}

pub struct NotExpr {
    pub span: u32,
    pub expr: Box<Expr>,
}

pub struct AnyExpr {
    pub span: u32,
    pub exprs: Vec<Expr>,
}

pub struct AllExpr {
    pub span: u32,
    pub exprs: Vec<Expr>,
}

/// Mathematical image of an expression.
pub enum ExprV {
    Ident { text: Seq<char>, span: u32 },
    Not { span: u32, arg: Box<ExprV> },
    Any { span: u32, args: Seq<ExprV> },
    All { span: u32, args: Seq<ExprV> },
}

/// Mathematical image of an executable expression.
pub open spec fn expr_view(e: Expr) -> ExprV
    decreases e,
{
    match e {
        Expr::Ident(i) => ExprV::Ident { text: i.text@, span: i.span },
        Expr::Not(n) => ExprV::Not { span: n.span, arg: Box::new(expr_view(*n.expr)) },
        Expr::Any(a) => ExprV::Any { span: a.span, args: exprs_view(a.exprs@) },
        Expr::All(a) => ExprV::All { span: a.span, args: exprs_view(a.exprs@) },
    }
}

/// Mathematical image of a sequence of executable expressions.
pub open spec fn exprs_view(es: Seq<Expr>) -> Seq<ExprV>
    decreases es,
{
    if es.len() == 0 {
        Seq::empty()
    } else {
        seq![expr_view(es[0])] + exprs_view(es.drop_first())
    }
}

/// `exprs_view` maps `expr_view` over the elements.
pub broadcast proof fn exprs_view_props(es: Seq<Expr>)
    ensures
        (#[trigger] exprs_view(es)).len() == es.len(),
        forall|k: int| 0 <= k < es.len() ==> exprs_view(es)[k] == #[trigger] expr_view(es[k]),
    decreases es.len(),
{
    if es.len() > 0 {
        exprs_view_props(es.drop_first());
        assert forall|k: int| 0 <= k < es.len() implies exprs_view(es)[k] == #[trigger] expr_view(
            es[k],
        ) by {
            if k > 0 {
                assert(es.drop_first()[k - 1] == es[k]);
                assert(exprs_view(es.drop_first())[k - 1] == expr_view(es.drop_first()[k - 1]));
            }
        }
    }
}

impl View for Expr {
    type V = ExprV;

    open spec fn view(&self) -> ExprV {
        expr_view(*self)
    }
}

/// What an expression means: `eval(e, c)` is whether `e` accepts the
/// candidate profile name `c`. An identifier accepts exactly itself,
/// `not` negates, `any` of no arguments is false, `all` of no arguments
/// is vacuously true.
pub open spec fn eval(e: ExprV, c: Seq<char>) -> bool
    decreases e,
{
    match e {
        ExprV::Ident { text, span } => text == c,
        ExprV::Not { span, arg } => !eval(*arg, c),
        ExprV::Any { span, args } => eval_any(args, c),
        ExprV::All { span, args } => eval_all(args, c),
    }
}

/// Whether some element of `args` accepts `c`; false of the empty sequence.
pub open spec fn eval_any(args: Seq<ExprV>, c: Seq<char>) -> bool
    decreases args,
{
    if args.len() == 0 {
        false
    } else {
        eval(args[0], c) || eval_any(args.drop_first(), c)
    }
}

/// Whether every element of `args` accepts `c`; vacuously true of the
/// empty sequence.
pub open spec fn eval_all(args: Seq<ExprV>, c: Seq<char>) -> bool
    decreases args,
{
    if args.len() == 0 {
        true
    } else {
        eval(args[0], c) && eval_all(args.drop_first(), c)
    }
}

/// The recursive disjunction agrees with its quantifier form.
pub proof fn lemma_eval_any_exists(args: Seq<ExprV>, c: Seq<char>)
    ensures
        eval_any(args, c) == (exists|k: int| 0 <= k < args.len() && #[trigger] eval(args[k], c)),
    decreases args.len(),
{
    if args.len() > 0 {
        lemma_eval_any_exists(args.drop_first(), c);
        if eval(args[0], c) {
            assert(eval(args[0], c));
        } else if eval_any(args.drop_first(), c) {
            let k = choose|k: int|
                0 <= k < args.drop_first().len() && #[trigger] eval(args.drop_first()[k], c);
            assert(args.drop_first()[k] == args[k + 1]);
            assert(eval(args[k + 1], c));
        } else {
            assert forall|k: int| 0 <= k < args.len() implies !(#[trigger] eval(args[k], c)) by {
                if k > 0 {
                    assert(args.drop_first()[k - 1] == args[k]);
                    assert(!eval(args.drop_first()[k - 1], c));
                }
            }
        }
    }
}

/// The recursive conjunction agrees with its quantifier form.
pub proof fn lemma_eval_all_forall(args: Seq<ExprV>, c: Seq<char>)
    ensures
        eval_all(args, c) == (forall|k: int| 0 <= k < args.len() ==> #[trigger] eval(args[k], c)),
    decreases args.len(),
{
    if args.len() > 0 {
        lemma_eval_all_forall(args.drop_first(), c);
        if eval_all(args, c) {
            assert forall|k: int| 0 <= k < args.len() implies #[trigger] eval(args[k], c) by {
                if k > 0 {
                    assert(args.drop_first()[k - 1] == args[k]);
                    assert(eval(args.drop_first()[k - 1], c));
                }
            }
        } else {
            if eval(args[0], c) {
                let k = choose|k: int|
                    0 <= k < args.drop_first().len() && !(#[trigger] eval(args.drop_first()[k], c));
                assert(args.drop_first()[k] == args[k + 1]);
                assert(!eval(args[k + 1], c));
            } else {
                assert(!eval(args[0], c));
            }
        }
    }
}

/// Negation law: `not(e)` accepts exactly the candidates that `e` rejects.
pub proof fn lemma_eval_not(span: u32, arg: ExprV, c: Seq<char>)
    ensures
        eval(ExprV::Not { span, arg: Box::new(arg) }, c) == !eval(arg, c),
{
}

/// Disjunction law: `any(...)` accepts a candidate exactly when some
/// argument does; of no arguments it accepts nothing.
pub proof fn lemma_eval_any(span: u32, args: Seq<ExprV>, c: Seq<char>)
    ensures
        eval(ExprV::Any { span, args }, c) == (exists|k: int|
            0 <= k < args.len() && #[trigger] eval(args[k], c)),
        args.len() == 0 ==> !eval(ExprV::Any { span, args }, c),
{
    lemma_eval_any_exists(args, c);
}

/// Conjunction law: `all(...)` accepts a candidate exactly when every
/// argument does; of no arguments it accepts everything.
pub proof fn lemma_eval_all(span: u32, args: Seq<ExprV>, c: Seq<char>)
    ensures
        eval(ExprV::All { span, args }, c) == (forall|k: int|
            0 <= k < args.len() ==> #[trigger] eval(args[k], c)),
        args.len() == 0 ==> eval(ExprV::All { span, args }, c),
{
    lemma_eval_all_forall(args, c);
}

impl Expr {
    /// Whether this expression accepts the candidate name `ident`.
    pub fn evaluate(&self, ident: &String) -> (r: bool)
        ensures
            r == eval(self@, ident@),
        decreases *self,
    {
        broadcast use exprs_view_props;

        match self {
            Expr::Ident(e) => {
                let v = e.text == *ident;
                assert(v == eval(self@, ident@));
                return v;
            },
            Expr::Not(e) => {
                let v = e.evaluate(ident);
                assert(v == eval(self@, ident@));
                return v;
            },
            Expr::Any(e) => {
                let v = e.evaluate(ident);
                proof {
                    let es = e.exprs@;
                    let args = exprs_view(es);
                    lemma_eval_any_exists(args, ident@);
                    if v {
                        let k = choose|k: int|
                            0 <= k < es.len() && #[trigger] eval(expr_view(es[k]), ident@);
                        assert(eval(args[k], ident@));
                    } else {
                        assert forall|k: int| 0 <= k < args.len() implies !(#[trigger] eval(
                            args[k],
                            ident@,
                        )) by {
                            assert(!eval(expr_view(es[k]), ident@));
                        }
                    }
                    assert(self@ == ExprV::Any { span: e.span, args: args });
                }
                assert(v == eval(self@, ident@));
                return v;
            },
            Expr::All(e) => {
                let v = e.evaluate(ident);
                proof {
                    let es = e.exprs@;
                    let args = exprs_view(es);
                    lemma_eval_all_forall(args, ident@);
                    if v {
                        assert forall|k: int| 0 <= k < args.len() implies #[trigger] eval(
                            args[k],
                            ident@,
                        ) by {
                            assert(eval(expr_view(es[k]), ident@));
                        }
                    } else {
                        let k = choose|k: int|
                            0 <= k < es.len() && !(#[trigger] eval(expr_view(es[k]), ident@));
                        assert(!eval(args[k], ident@));
                    }
                    assert(self@ == ExprV::All { span: e.span, args: args });
                }
                assert(v == eval(self@, ident@));
                return v;
            },
        }
    }
}

/// The canonical token form of an expression: how a parsed expression is
/// written back out. Synthesized separators carry the null position.
pub open spec fn tokens_of(e: ExprV) -> Seq<TokV>
    decreases e,
{
    match e {
        ExprV::Ident { text, span } => seq![TokV::Ident { text, span }],
        ExprV::Not { span, arg } => seq![
            TokV::Ident { text: "not"@, span },
            TokV::LParen { span },
        ] + tokens_of(*arg) + seq![TokV::RParen { span }],
        ExprV::Any { span, args } => seq![
            TokV::Ident { text: "any"@, span },
            TokV::LParen { span },
        ] + tokens_of_list(args) + seq![TokV::RParen { span }],
        ExprV::All { span, args } => seq![
            TokV::Ident { text: "all"@, span },
            TokV::LParen { span },
        ] + tokens_of_list(args) + seq![TokV::RParen { span }],
    }
}

/// The canonical token form of an argument list: the elements separated by
/// commas, with no trailing comma.
pub open spec fn tokens_of_list(args: Seq<ExprV>) -> Seq<TokV>
    decreases args,
{
    if args.len() == 0 {
        Seq::empty()
    } else if args.len() == 1 {
        tokens_of(args[0])
    } else {
        tokens_of(args[0]) + seq![TokV::Comma { span: 0 }] + tokens_of_list(args.drop_first())
    }
}

impl Expr {
    /// Append this expression's canonical token form to `tokens`.
    pub fn to_tokens(&self, tokens: &mut Vec<Tok>)
        ensures
            toks_view(final(tokens)@) == toks_view(old(tokens)@) + tokens_of(self@),
        decreases *self, 0int, 0int,
    {
        match self {
            Expr::Ident(e) => {
                push_tok(tokens, Tok::Ident { text: e.text.clone(), span: e.span });
            },
            Expr::Not(e) => e.to_tokens(tokens),
            Expr::Any(e) => e.to_tokens(tokens),
            Expr::All(e) => e.to_tokens(tokens),
        }
    }
}

/// Append one token, restated over token views.
fn push_tok(tokens: &mut Vec<Tok>, t: Tok)
    ensures
        toks_view(final(tokens)@) == toks_view(old(tokens)@) + seq![t@],
{
    let ghost before = tokens@;
    tokens.push(t);
    proof {
        assert(toks_view(tokens@) =~= toks_view(before) + seq![tokens@[before.len() as int]@]);
    }
}

/// Append the canonical token forms of `es[start..]`, comma-separated.
fn write_list(es: &Vec<Expr>, start: usize, tokens: &mut Vec<Tok>)
    requires
        start <= es@.len(),
    ensures
        toks_view(final(tokens)@) == toks_view(old(tokens)@) + tokens_of_list(
            exprs_view(es@).skip(start as int),
        ),
    decreases *es, es@.len() - start, 2int,
{
    broadcast use exprs_view_props;

    let n = es.len();
    let ghost tail = exprs_view(es@).skip(start as int);
    if start >= n {
        assert(tail =~= Seq::<ExprV>::empty());
        return ;
    }
    es[start].to_tokens(tokens);
    proof {
        assert(tail[0] == expr_view(es@[start as int]));
    }
    if start + 1 < n {
        push_tok(tokens, Tok::Comma { span: 0 });
        let ghost mid = tokens@;
        write_list(es, start + 1, tokens);
        proof {
            assert(tail.drop_first() =~= exprs_view(es@).skip(start + 1));
            assert(tail.len() >= 2);
            assert(toks_view(tokens@) =~= toks_view(old(tokens)@) + (tokens_of(tail[0]) + seq![
                TokV::Comma { span: 0 },
            ] + tokens_of_list(tail.drop_first())));
        }
    } else {
        proof {
            assert(tail.len() == 1);
            assert(tokens_of_list(tail) == tokens_of(tail[0]));
        }
    }
}

impl NotExpr {
    /// Append the canonical token form `not( ... )` to `tokens`.
    pub fn to_tokens(&self, tokens: &mut Vec<Tok>)
        ensures
            toks_view(final(tokens)@) == toks_view(old(tokens)@) + tokens_of(
                ExprV::Not { span: self.span, arg: Box::new(self.expr@) },
            ),
        decreases *self, 0int, 1int,
    {
        push_tok(tokens, Tok::Ident { text: "not".to_owned(), span: self.span });
        push_tok(tokens, Tok::LParen { span: self.span });
        self.expr.to_tokens(tokens);
        push_tok(tokens, Tok::RParen { span: self.span });
        proof {
            assert(toks_view(tokens@) =~= toks_view(old(tokens)@) + tokens_of(
                ExprV::Not { span: self.span, arg: Box::new(self.expr@) },
            ));
        }
    }

    /// Negation: accepts `ident` exactly when the inner expression rejects it.
    pub fn evaluate(&self, ident: &String) -> (r: bool)
        ensures
            r == !eval(self.expr@, ident@),
        decreases *self,
    {
        !self.expr.evaluate(ident)
    }
}

impl AnyExpr {
    /// Append the canonical token form `any( ... )` to `tokens`.
    pub fn to_tokens(&self, tokens: &mut Vec<Tok>)
        ensures
            toks_view(final(tokens)@) == toks_view(old(tokens)@) + tokens_of(
                ExprV::Any { span: self.span, args: exprs_view(self.exprs@) },
            ),
        decreases *self, 0int, 1int,
    {
        push_tok(tokens, Tok::Ident { text: "any".to_owned(), span: self.span });
        push_tok(tokens, Tok::LParen { span: self.span });
        write_list(&self.exprs, 0, tokens);
        push_tok(tokens, Tok::RParen { span: self.span });
        proof {
            assert(exprs_view(self.exprs@).skip(0) =~= exprs_view(self.exprs@));
            assert(toks_view(tokens@) =~= toks_view(old(tokens)@) + tokens_of(
                ExprV::Any { span: self.span, args: exprs_view(self.exprs@) },
            ));
        }
    }

    /// Disjunction: accepts `ident` when at least one argument does.
    pub fn evaluate(&self, ident: &String) -> (r: bool)
        ensures
            r == exists|k: int|
                0 <= k < self.exprs@.len() && #[trigger] eval(expr_view(self.exprs@[k]), ident@),
        decreases *self,
    {
        broadcast use exprs_view_props;

        let n = self.exprs.len();
        for i in 0..n
            invariant
                n == self.exprs@.len(),
                forall|k: int|
                    0 <= k < i ==> !(#[trigger] eval(expr_view(self.exprs@[k]), ident@)),
        {
            if self.exprs[i].evaluate(ident) {
                return true;
            }
        }
        false
    }
}

impl AllExpr {
    /// Append the canonical token form `all( ... )` to `tokens`.
    pub fn to_tokens(&self, tokens: &mut Vec<Tok>)
        ensures
            toks_view(final(tokens)@) == toks_view(old(tokens)@) + tokens_of(
                ExprV::All { span: self.span, args: exprs_view(self.exprs@) },
            ),
        decreases *self, 0int, 1int,
    {
        push_tok(tokens, Tok::Ident { text: "all".to_owned(), span: self.span });
        push_tok(tokens, Tok::LParen { span: self.span });
        write_list(&self.exprs, 0, tokens);
        push_tok(tokens, Tok::RParen { span: self.span });
        proof {
            assert(exprs_view(self.exprs@).skip(0) =~= exprs_view(self.exprs@));
            assert(toks_view(tokens@) =~= toks_view(old(tokens)@) + tokens_of(
                ExprV::All { span: self.span, args: exprs_view(self.exprs@) },
            ));
        }
    }

    /// Conjunction: accepts `ident` when every argument does; vacuously
    /// true of no arguments.
    pub fn evaluate(&self, ident: &String) -> (r: bool)
        ensures
            r == forall|k: int|
                0 <= k < self.exprs@.len() ==> #[trigger] eval(expr_view(self.exprs@[k]), ident@),
        decreases *self,
    {
        broadcast use exprs_view_props;

        let n = self.exprs.len();
        for i in 0..n
            invariant
                n == self.exprs@.len(),
                forall|k: int|
                    0 <= k < i ==> #[trigger] eval(expr_view(self.exprs@[k]), ident@),
        {
            if !self.exprs[i].evaluate(ident) {
                return false;
            }
        }
        true
    }
}

} // verus!
