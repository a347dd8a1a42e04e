//! The subset-generation engine: classifies each field against each
//! profile, rewrites attribute lists, assembles one derived record per
//! profile, and plans the narrowing and widening conversions.
use vstd::prelude::*;

use crate::casing::{narrowing_method_name, snake_of};
use crate::diag::{Diag, DiagKind, DiagV};
use crate::expr::{eval, expr_view, exprs_view, toks_view, Expr, ExprV, IdentExpr, Tok, TokV};
use crate::parse::{end_span, parse_expr, sp_end_span, sp_expr, sp_span, tok_span};
use crate::profmap::{distinct_keys, entries_have_key, pm_contains, pm_get_index, pm_insert, pm_len, pm_new,
    profile_entries};
use crate::schema::{Attr, AttrOut, AttrOutV, AttrV, ConvPlan, DroppedField, EmitItem, Field, FieldOut,
    FieldOutV, FieldV, KeptField, Record, RecordOut, Shape, SourceData};

verus! {

/// A single argument of a membership attribute: optional doc-override
/// lines, then the expression they apply under.
pub struct SubstructInputArg {
    pub docs: Vec<u32>,
    pub expr: Expr,
}

/// Mathematical image of an argument.
pub struct ArgV {
    pub docs: Seq<u32>,
    pub expr: ExprV,
}

impl View for SubstructInputArg {
    type V = ArgV;

    open spec fn view(&self) -> ArgV {
        ArgV { docs: self.docs@, expr: expr_view(self.expr) }
    }
}

/// The view of an argument sequence.
pub open spec fn args_view(s: Seq<SubstructInputArg>) -> Seq<ArgV> {
    s.map_values(|a: SubstructInputArg| a@)
}

/// The whole argument list of one membership attribute.
pub struct SubstructInput {
    pub args: Vec<SubstructInputArg>,
}

/// The first argument whose expression accepts the candidate, if any:
/// first-match-wins, not most-specific-wins.
pub open spec fn sp_first_match(args: Seq<ArgV>, c: Seq<char>) -> Option<ArgV>
    decreases args.len(),
{
    if args.len() == 0 {
        None
    } else if eval(args[0].expr, c) {
        Some(args[0])
    } else {
        sp_first_match(args.drop_first(), c)
    }
}

impl SubstructInput {
    /// The first argument whose expression accepts `ident`, if any.
    pub fn matching(&self, ident: &String) -> (r: Option<&SubstructInputArg>)
        ensures
            match r {
                Some(a) => sp_first_match(args_view(self.args@), ident@) == Some(a@),
                None => sp_first_match(args_view(self.args@), ident@) is None,
            },
    {
        let n = self.args.len();
        proof {
            assert(args_view(self.args@).skip(0) =~= args_view(self.args@));
        }
        for i in 0..n
            invariant
                n == self.args@.len(),
                sp_first_match(args_view(self.args@), ident@) == sp_first_match(
                    args_view(self.args@).skip(i as int),
                    ident@,
                ),
        {
            let ghost pre = args_view(self.args@).skip(i as int);
            proof {
                assert(args_view(self.args@).len() == self.args@.len());
                assert(pre[0] == args_view(self.args@)[i as int]);
                assert(args_view(self.args@)[i as int] == self.args@[i as int]@);
                assert(pre.drop_first() =~= args_view(self.args@).skip(i + 1));
            }
            if self.args[i].expr.evaluate(ident) {
                return Some(&self.args[i]);
            }
        }
        proof {
            assert(args_view(self.args@).skip(n as int) =~= Seq::<ArgV>::empty());
        }
        None
    }
}

/// The implicit argument appended to every field's list: the declaring
/// record's own name, with no doc override.
pub open spec fn sp_implicit_arg(src: Seq<char>, src_span: u32) -> ArgV {
    ArgV { docs: Seq::empty(), expr: ExprV::Ident { text: src, span: src_span } }
}

/// Per field and per profile: `Some(docs)` when the field is retained for
/// candidate `c`, carrying the winning doc override (empty when none);
/// `None` when the field is excluded. The declaring record's own name is
/// implicitly appended to the argument list, so a field always survives
/// on its declaring type.
pub open spec fn sp_classify(args: Seq<ArgV>, src: Seq<char>, src_span: u32, c: Seq<char>) -> Option<
    Seq<u32>,
> {
    match sp_first_match(args.push(sp_implicit_arg(src, src_span)), c) {
        Some(a) => Some(a.docs),
        None => None,
    }
}

/// Self-inclusion law: on its declaring record's own name, a field is
/// always retained, whatever its explicit argument list says.
pub proof fn lemma_self_profile_included(args: Seq<ArgV>, src: Seq<char>, src_span: u32)
    ensures
        sp_classify(args, src, src_span, src) is Some,
    decreases args.len(),
{
    let whole = args.push(sp_implicit_arg(src, src_span));
    if args.len() == 0 {
        assert(whole[0] == sp_implicit_arg(src, src_span));
        assert(eval(whole[0].expr, src));
    } else {
        if !eval(args[0].expr, src) {
            lemma_self_profile_included(args.drop_first(), src, src_span);
            assert(whole.drop_first() =~= args.drop_first().push(sp_implicit_arg(src, src_span)));
        }
    }
}

/// What collecting leading doc attributes at position `i` yields: their
/// payload handles and the position after them. Any other attribute in an
/// argument list is an error.
pub open spec fn sp_docs(ts: Seq<TokV>, i: int) -> Result<(Seq<u32>, int), DiagV>
    decreases ts.len() - i,
{
    if i < 0 || i >= ts.len() {
        Ok((Seq::empty(), i))
    } else {
        match ts[i] {
            TokV::AttrTok { path, payload, span } => {
                if path == "doc"@ {
                    match sp_docs(ts, i + 1) {
                        Ok((ds, j)) => Ok((seq![payload] + ds, j)),
                        Err(d) => Err(d),
                    }
                } else {
                    Err(DiagV { kind: DiagKind::NonDocAttr, span, name: None })
                }
            },
            _ => Ok((Seq::empty(), i)),
        }
    }
}

/// What parsing a whole membership-attribute argument list yields: each
/// argument is leading doc attributes then an expression; arguments are
/// comma-separated, a trailing comma is permitted, and the list runs to
/// the end of the input.
pub open spec fn sp_input(ts: Seq<TokV>, i: int) -> Result<Seq<ArgV>, DiagV>
    decreases ts.len() - i,
{
    if i < 0 || i >= ts.len() {
        Ok(Seq::empty())
    } else {
        match sp_docs(ts, i) {
            Err(d) => Err(d),
            Ok((docs, j)) => match sp_expr(ts, j) {
                Err(d) => Err(d),
                Ok((e, m)) => {
                    let arg = ArgV { docs, expr: e };
                    if !(i < m <= ts.len()) {
                        // Parsing always advances; this branch only
                        // satisfies the termination checker.
                        Err(DiagV { kind: DiagKind::UnexpectedEnd, span: sp_end_span(ts), name: None })
                    } else if m == ts.len() {
                        Ok(seq![arg])
                    } else if ts[m] is Comma {
                        match sp_input(ts, m + 1) {
                            Ok(rest) => Ok(seq![arg] + rest),
                            Err(d) => Err(d),
                        }
                    } else {
                        Err(DiagV { kind: DiagKind::ExpectedComma, span: sp_span(ts[m]), name: None })
                    }
                },
            },
        }
    }
}

/// What parsing a conditional-attribute directive yields: its expression
/// and the non-empty remainder after the separating comma, which is the
/// attribute payload to emit when the expression holds.
pub open spec fn sp_directive(ts: Seq<TokV>) -> Result<(ExprV, Seq<TokV>), DiagV> {
    match sp_expr(ts, 0) {
        Err(d) => Err(d),
        Ok((e, j)) => {
            if j >= ts.len() {
                Err(DiagV { kind: DiagKind::ExpectedComma, span: sp_end_span(ts), name: None })
            } else if ts[j] is Comma {
                if j + 1 < ts.len() {
                    Ok((e, ts.skip(j + 1)))
                } else {
                    Err(DiagV { kind: DiagKind::UnexpectedEnd, span: sp_end_span(ts), name: None })
                }
            } else {
                Err(DiagV { kind: DiagKind::ExpectedComma, span: sp_span(ts[j]), name: None })
            }
        },
    }
}

/// Collect the leading doc attributes at position `i`.
fn parse_docs(ts: &Vec<Tok>, i: usize) -> (r: Result<(Vec<u32>, usize), Diag>)
    requires
        i <= ts@.len(),
    ensures
        (r matches Ok(p) ==> sp_docs(toks_view(ts@), i as int) == Ok::<(Seq<u32>, int), DiagV>(
            (p.0@, p.1 as int),
        ) && i <= p.1 <= ts@.len()),
        (r matches Err(d) ==> sp_docs(toks_view(ts@), i as int) == Err::<(Seq<u32>, int), DiagV>(d@)),
    decreases ts@.len() - i,
{
    let ghost tv = toks_view(ts@);
    proof {
        assert(forall|k: int| 0 <= k < ts@.len() ==> tv[k] == ts@[k]@);
    }
    if i >= ts.len() {
        let v: Vec<u32> = Vec::new();
        assert(v@ =~= Seq::<u32>::empty());
        return Ok((v, i));
    }
    match &ts[i] {
        Tok::AttrTok { path, payload, span } => {
            if is_kw_doc(path) {
                match parse_docs(ts, i + 1) {
                    Ok((mut ds, j)) => {
                        let ghost ds0 = ds@;
                        ds.insert(0, *payload);
                        proof {
                            assert(ds@ =~= seq![*payload] + ds0);
                        }
                        Ok((ds, j))
                    },
                    Err(d) => Err(d),
                }
            } else {
                Err(Diag::new(DiagKind::NonDocAttr, *span))
            }
        },
        _ => {
            let v: Vec<u32> = Vec::new();
            assert(v@ =~= Seq::<u32>::empty());
            Ok((v, i))
        },
    }
}

/// Whether an attribute path is exactly `doc`.
fn is_kw_doc(path: &String) -> (r: bool)
    ensures
        r == (path@ == "doc"@),
{
    let k: String = "doc".to_owned();
    *path == k
}

/// Parse a whole membership-attribute argument list.
pub fn parse_input(ts: &Vec<Tok>, i: usize) -> (r: Result<SubstructInput, Diag>)
    requires
        i <= ts@.len(),
    ensures
        (r matches Ok(si) ==> sp_input(toks_view(ts@), i as int) == Ok::<Seq<ArgV>, DiagV>(
            args_view(si.args@),
        )),
        (r matches Err(d) ==> sp_input(toks_view(ts@), i as int) == Err::<Seq<ArgV>, DiagV>(d@)),
    decreases ts@.len() - i,
{
    let ghost tv = toks_view(ts@);
    proof {
        assert(forall|k: int| 0 <= k < ts@.len() ==> tv[k] == ts@[k]@);
    }
    if i >= ts.len() {
        let si = SubstructInput { args: Vec::new() };
        assert(args_view(si.args@) =~= Seq::<ArgV>::empty());
        return Ok(si);
    }
    let (docs, j) = match parse_docs(ts, i) {
        Ok(p) => p,
        Err(d) => {
            return Err(d);
        },
    };
    let (e, m) = match parse_expr(ts, j) {
        Ok(p) => p,
        Err(d) => {
            return Err(d);
        },
    };
    let arg = SubstructInputArg { docs, expr: e };
    if m == ts.len() {
        let mut args: Vec<SubstructInputArg> = Vec::new();
        args.push(arg);
        proof {
            assert(args_view(args@) =~= seq![args@[0]@]);
        }
        return Ok(SubstructInput { args });
    }
    if matches!(&ts[m], Tok::Comma { .. }) {
        match parse_input(ts, m + 1) {
            Ok(rest) => {
                let mut args = rest.args;
                let ghost rest0 = args@;
                args.insert(0, arg);
                proof {
                    assert(args@ =~= seq![args@[0]] + rest0);
                    assert(args_view(args@) =~= seq![args@[0]@] + args_view(rest0));
                }
                return Ok(SubstructInput { args });
            },
            Err(d) => {
                return Err(d);
            },
        }
    }
    Err(Diag::new(DiagKind::ExpectedComma, tok_span(&ts[m])))
}

/// Parse a conditional-attribute directive: expression, comma, payload.
pub fn parse_directive(ts: &Vec<Tok>) -> (r: Result<(Expr, Vec<Tok>), Diag>)
    ensures
        (r matches Ok(p) ==> sp_directive(toks_view(ts@)) == Ok::<(ExprV, Seq<TokV>), DiagV>(
            (p.0@, toks_view(p.1@)),
        )),
        (r matches Err(d) ==> sp_directive(toks_view(ts@)) == Err::<(ExprV, Seq<TokV>), DiagV>(d@)),
{
    let ghost tv = toks_view(ts@);
    proof {
        assert(forall|k: int| 0 <= k < ts@.len() ==> tv[k] == ts@[k]@);
    }
    let (e, j) = match parse_expr(ts, 0) {
        Ok(p) => p,
        Err(d) => {
            return Err(d);
        },
    };
    if j >= ts.len() {
        return Err(Diag::new(DiagKind::ExpectedComma, end_span(ts)));
    }
    if matches!(&ts[j], Tok::Comma { .. }) {
        if j + 1 < ts.len() {
            let mut meta: Vec<Tok> = Vec::new();
            let mut k = j + 1;
            while k < ts.len()
                invariant
                    j + 1 <= k <= ts@.len(),
                    toks_view(meta@) =~= toks_view(ts@).subrange(j + 1, k as int),
                decreases ts@.len() - k,
            {
                let ghost before = meta@;
                meta.push(clone_tok(&ts[k]));
                proof {
                    assert(toks_view(meta@) =~= toks_view(before) + seq![
                        meta@[before.len() as int]@,
                    ]);
                    assert(toks_view(meta@) =~= toks_view(ts@).subrange(j + 1, k + 1));
                }
                k = k + 1;
            }
            proof {
                assert(toks_view(meta@) =~= toks_view(ts@).skip(j + 1));
            }
            return Ok((e, meta));
        } else {
            return Err(Diag::new(DiagKind::UnexpectedEnd, end_span(ts)));
        }
    }
    Err(Diag::new(DiagKind::ExpectedComma, tok_span(&ts[j])))
}

/// The view of an attribute sequence.
pub open spec fn attrs_view(s: Seq<Attr>) -> Seq<AttrV> {
    s.map_values(|a: Attr| a@)
}

/// The view of an emitted-attribute sequence.
pub open spec fn attr_outs_view(s: Seq<AttrOut>) -> Seq<AttrOutV> {
    s.map_values(|a: AttrOut| a@)
}

/// The view of a diagnostic sequence.
pub open spec fn diags_view(s: Seq<Diag>) -> Seq<DiagV> {
    s.map_values(|d: Diag| d@)
}

/// Whether an emitted attribute is a doc line: a carried-through doc
/// attribute, or a resolved directive whose payload is doc-pathed.
pub open spec fn sp_out_is_doc(a: AttrOutV) -> bool {
    match a {
        AttrOutV::Keep { payload, is_doc } => is_doc,
        AttrOutV::Meta { meta } => meta.len() > 0 && (meta[0] matches TokV::Ident {
            text,
            span,
        } && text == "doc"@),
    }
}

/// What rewriting an attribute list for candidate `c` yields: membership
/// attributes are stripped, each conditional-attribute directive resolves
/// independently to its payload (expression true) or to nothing
/// (expression false), every other attribute is carried through, and each
/// malformed directive becomes one non-fatal diagnostic, the rest of the
/// list still standing.
pub open spec fn sp_filter_attrs(attrs: Seq<AttrV>, c: Seq<char>) -> (Seq<AttrOutV>, Seq<DiagV>)
    decreases attrs.len(),
{
    if attrs.len() == 0 {
        (Seq::empty(), Seq::empty())
    } else {
        let a = attrs[0];
        let (rest_out, rest_diags) = sp_filter_attrs(attrs.drop_first(), c);
        if a.path == "substruct"@ {
            (rest_out, rest_diags)
        } else if a.path == "substruct_attr"@ {
            match sp_directive(a.args) {
                Err(d) => (
                    rest_out,
                    seq![
                        DiagV { kind: DiagKind::MalformedDirective, span: d.span, name: d.name },
                    ] + rest_diags,
                ),
                Ok((e, meta)) => {
                    if eval(e, c) {
                        (seq![AttrOutV::Meta { meta }] + rest_out, rest_diags)
                    } else {
                        (rest_out, rest_diags)
                    }
                },
            }
        } else {
            (
                seq![AttrOutV::Keep { payload: a.payload, is_doc: a.path == "doc"@ }] + rest_out,
                rest_diags,
            )
        }
    }
}

/// An emitted-attribute list with its doc lines removed.
pub open spec fn sp_drop_docs(s: Seq<AttrOutV>) -> Seq<AttrOutV>
    decreases s.len(),
{
    if s.len() == 0 {
        Seq::empty()
    } else if sp_out_is_doc(s[0]) {
        sp_drop_docs(s.drop_first())
    } else {
        seq![s[0]] + sp_drop_docs(s.drop_first())
    }
}

/// Applying a doc override: with no override the list is unchanged; with
/// one, the existing doc lines are removed and the override's lines are
/// appended in order.
pub open spec fn sp_apply_docs(s: Seq<AttrOutV>, docs: Seq<u32>) -> Seq<AttrOutV> {
    if docs.len() == 0 {
        s
    } else {
        sp_drop_docs(s) + docs.map_values(|d: u32| AttrOutV::Keep { payload: d, is_doc: true })
    }
}

/// Whether an attribute path equals a given keyword.
fn path_is(path: &String, k: &str) -> (r: bool)
    ensures
        r == (path@ == k@),
{
    let kw: String = k.to_owned();
    *path == kw
}

/// Whether an emitted attribute is a doc line.
fn out_is_doc(a: &AttrOut) -> (r: bool)
    ensures
        r == sp_out_is_doc(a@),
{
    match a {
        AttrOut::Keep { payload, is_doc } => *is_doc,
        AttrOut::Meta { meta } => {
            if meta.len() == 0 {
                false
            } else {
                match &meta[0] {
                    Tok::Ident { text, span } => {
                        let r = is_kw_doc(text);
                        proof {
                            assert(a@ matches AttrOutV::Meta { meta: mv } ==> mv[0] == meta@[0]@);
                        }
                        r
                    },
                    _ => {
                        proof {
                            assert(a@ matches AttrOutV::Meta { meta: mv } ==> mv[0] == meta@[0]@);
                        }
                        false
                    },
                }
            }
        },
    }
}

/// Rewrite the attribute list at and after `start` for candidate `name`,
/// appending one non-fatal diagnostic per malformed directive.
fn filter_attrs_from(attrs: &Vec<Attr>, start: usize, name: &String, errors: &mut Vec<Diag>) -> (out:
    Vec<AttrOut>)
    requires
        start <= attrs@.len(),
    ensures
        ({
            let (os, ds) = sp_filter_attrs(attrs_view(attrs@).skip(start as int), name@);
            attr_outs_view(out@) == os && diags_view(final(errors)@) == diags_view(old(errors)@)
                + ds
        }),
    decreases attrs@.len() - start,
{
    proof {
        reveal_strlit("substruct");
        reveal_strlit("substruct_attr");
    }
    let ghost av = attrs_view(attrs@).skip(start as int);
    proof {
        assert(forall|k: int|
            0 <= k < attrs@.len() ==> attrs_view(attrs@)[k] == attrs@[k]@);
    }
    if start >= attrs.len() {
        let v: Vec<AttrOut> = Vec::new();
        proof {
            assert(av =~= Seq::<AttrV>::empty());
            assert(attr_outs_view(v@) =~= Seq::<AttrOutV>::empty());
            assert(diags_view(errors@) =~= diags_view(errors@) + Seq::<DiagV>::empty());
        }
        return v;
    }
    proof {
        assert(av[0] == attrs@[start as int]@);
        assert(av.drop_first() =~= attrs_view(attrs@).skip(start + 1));
    }
    let a = &attrs[start];
    if path_is(&a.path, "substruct") {
        return filter_attrs_from(attrs, start + 1, name, errors);
    }
    if path_is(&a.path, "substruct_attr") {
        proof {
            assert(a@.path != "substruct"@);
        }
        match parse_directive(&a.args) {
            Err(d) => {
                let ghost before = errors@;
                errors.push(Diag { kind: DiagKind::MalformedDirective, span: d.span, name: d.name });
                proof {
                    assert(diags_view(errors@) =~= diags_view(before) + seq![
                        errors@[before.len() as int]@,
                    ]);
                }
                let out = filter_attrs_from(attrs, start + 1, name, errors);
                proof {
                    let (os, ds) = sp_filter_attrs(av.drop_first(), name@);
                    assert(diags_view(errors@) =~= diags_view(old(errors)@) + (seq![
                        DiagV {
                            kind: DiagKind::MalformedDirective,
                            span: d@.span,
                            name: d@.name,
                        },
                    ] + ds));
                }
                return out;
            },
            Ok((e, meta)) => {
                if e.evaluate(name) {
                    let mut out = filter_attrs_from(attrs, start + 1, name, errors);
                    let ghost rest0 = out@;
                    out.insert(0, AttrOut::Meta { meta });
                    proof {
                        assert(out@ =~= seq![out@[0]] + rest0);
                        assert(attr_outs_view(out@) =~= seq![out@[0]@] + attr_outs_view(rest0));
                    }
                    return out;
                } else {
                    return filter_attrs_from(attrs, start + 1, name, errors);
                }
            },
        }
    }
    proof {
        assert(a@.path != "substruct"@ && a@.path != "substruct_attr"@);
    }
    let is_doc = path_is(&a.path, "doc");
    let mut out = filter_attrs_from(attrs, start + 1, name, errors);
    let ghost rest0 = out@;
    out.insert(0, AttrOut::Keep { payload: a.payload, is_doc });
    proof {
        assert(out@ =~= seq![out@[0]] + rest0);
        assert(attr_outs_view(out@) =~= seq![out@[0]@] + attr_outs_view(rest0));
    }
    out
}

/// Rewrite a whole attribute list for candidate `name`.
fn filter_attrs(attrs: &Vec<Attr>, name: &String, errors: &mut Vec<Diag>) -> (out: Vec<AttrOut>)
    ensures
        ({
            let (os, ds) = sp_filter_attrs(attrs_view(attrs@), name@);
            attr_outs_view(out@) == os && diags_view(final(errors)@) == diags_view(old(errors)@)
                + ds
        }),
{
    proof {
        assert(attrs_view(attrs@).skip(0) =~= attrs_view(attrs@));
    }
    filter_attrs_from(attrs, 0, name, errors)
}

/// Remove the doc lines of an emitted-attribute list from `start` on.
fn drop_docs_from(attrs: &mut Vec<AttrOut>, start: usize)
    requires
        start <= old(attrs)@.len(),
    ensures
        attr_outs_view(final(attrs)@) == attr_outs_view(old(attrs)@.take(start as int)) + sp_drop_docs(
            attr_outs_view(old(attrs)@.skip(start as int)),
        ),
    decreases old(attrs)@.len() - start,
{
    let ghost orig = attrs@;
    proof {
        assert(forall|k: int|
            0 <= k < orig.len() ==> attr_outs_view(orig)[k] == orig[k]@);
    }
    if start >= attrs.len() {
        proof {
            assert(attr_outs_view(orig.skip(start as int)) =~= Seq::<AttrOutV>::empty());
            assert(orig.take(start as int) =~= orig);
        }
        return ;
    }
    proof {
        assert(attr_outs_view(orig.skip(start as int))[0] == orig[start as int]@);
        assert(attr_outs_view(orig.skip(start as int)).drop_first() =~= attr_outs_view(
            orig.skip(start + 1),
        ));
    }
    if out_is_doc(&attrs[start]) {
        attrs.remove(start);
        proof {
            assert(attrs@ =~= orig.take(start as int) + orig.skip(start + 1));
            assert(attrs@.skip(start as int) =~= orig.skip(start + 1));
            assert(attrs@.take(start as int) =~= orig.take(start as int));
        }
        drop_docs_from(attrs, start);
    } else {
        drop_docs_from(attrs, start + 1);
        proof {
            assert(orig.take(start + 1) =~= orig.take(start as int) + seq![orig[start as int]]);
            assert(attr_outs_view(orig.take(start + 1)) =~= attr_outs_view(orig.take(start as int))
                + seq![orig[start as int]@]);
        }
    }
}

/// The view of an emitted-field sequence.
pub open spec fn field_outs_view(s: Seq<FieldOut>) -> Seq<FieldOutV> {
    s.map_values(|f: FieldOut| f@)
}

/// The first membership attribute in a list, if any.
pub open spec fn sp_first_subst(attrs: Seq<AttrV>) -> Option<AttrV>
    decreases attrs.len(),
{
    if attrs.len() == 0 {
        None
    } else if attrs[0].path == "substruct"@ {
        Some(attrs[0])
    } else {
        sp_first_subst(attrs.drop_first())
    }
}

/// The one membership attribute of a field: none, one, or an error naming
/// the second one's position, since only one is allowed per field.
pub open spec fn sp_find_subst(attrs: Seq<AttrV>) -> Result<Option<AttrV>, DiagV>
    decreases attrs.len(),
{
    if attrs.len() == 0 {
        Ok(None)
    } else if attrs[0].path == "substruct"@ {
        match sp_first_subst(attrs.drop_first()) {
            Some(b) => Err(
                DiagV { kind: DiagKind::MultipleMembershipAttrs, span: b.span, name: None },
            ),
            None => Ok(Some(attrs[0])),
        }
    } else {
        sp_find_subst(attrs.drop_first())
    }
}

/// A field's parsed membership arguments: empty when it carries no
/// membership attribute, so that the field survives only on its declaring
/// record.
pub open spec fn sp_field_input(f: FieldV) -> Result<Seq<ArgV>, DiagV> {
    match sp_find_subst(f.attrs) {
        Err(d) => Err(d),
        Ok(None) => Ok(Seq::empty()),
        Ok(Some(a)) => sp_input(a.args, 0),
    }
}

/// Whether a field is retained for candidate `c`.
pub open spec fn sp_field_kept(f: FieldV, src: Seq<char>, src_span: u32, c: Seq<char>) -> Result<
    bool,
    DiagV,
> {
    match sp_field_input(f) {
        Err(d) => Err(d),
        Ok(args) => Ok(sp_classify(args, src, src_span, c) is Some),
    }
}

/// What one field becomes for candidate `c`: `None` when excluded, else
/// the field with its attributes rewritten and its doc override applied,
/// along with any non-fatal diagnostics from its directives.
pub open spec fn sp_filter_field(f: FieldV, src: Seq<char>, src_span: u32, c: Seq<char>) -> Result<
    (Option<FieldOutV>, Seq<DiagV>),
    DiagV,
> {
    match sp_field_input(f) {
        Err(d) => Err(d),
        Ok(args) => match sp_classify(args, src, src_span, c) {
            None => Ok((None, Seq::empty())),
            Some(docs) => {
                let (os, ds) = sp_filter_attrs(f.attrs, c);
                Ok(
                    (
                        Some(
                            FieldOutV {
                                name: f.name,
                                ty: f.ty,
                                attrs: sp_apply_docs(os, docs),
                                span: f.span,
                            },
                        ),
                        ds,
                    ),
                )
            },
        },
    }
}

/// Position of the first membership attribute at or after `start`.
fn first_subst_from(attrs: &Vec<Attr>, start: usize) -> (r: Option<usize>)
    requires
        start <= attrs@.len(),
    ensures
        match r {
            Some(i) => start <= i < attrs@.len() && sp_first_subst(
                attrs_view(attrs@).skip(start as int),
            ) == Some(attrs@[i as int]@),
            None => sp_first_subst(attrs_view(attrs@).skip(start as int)) is None,
        },
    decreases attrs@.len() - start,
{
    proof {
        assert(forall|k: int|
            0 <= k < attrs@.len() ==> attrs_view(attrs@)[k] == attrs@[k]@);
        if start < attrs@.len() {
            assert(attrs_view(attrs@).skip(start as int)[0] == attrs@[start as int]@);
            assert(attrs_view(attrs@).skip(start as int).drop_first() =~= attrs_view(
                attrs@,
            ).skip(start + 1));
        } else {
            assert(attrs_view(attrs@).skip(start as int) =~= Seq::<AttrV>::empty());
        }
    }
    if start >= attrs.len() {
        return None;
    }
    if path_is(&attrs[start].path, "substruct") {
        Some(start)
    } else {
        first_subst_from(attrs, start + 1)
    }
}

/// The one membership attribute of a field, by position.
fn find_subst(attrs: &Vec<Attr>) -> (r: Result<Option<usize>, Diag>)
    ensures
        match r {
            Ok(Some(i)) => i < attrs@.len() && sp_find_subst(attrs_view(attrs@)) == Ok::<
                Option<AttrV>,
                DiagV,
            >(Some(attrs@[i as int]@)),
            Ok(None) => sp_find_subst(attrs_view(attrs@)) == Ok::<Option<AttrV>, DiagV>(None),
            Err(d) => sp_find_subst(attrs_view(attrs@)) == Err::<Option<AttrV>, DiagV>(d@),
        },
{
    proof {
        assert(attrs_view(attrs@).skip(0) =~= attrs_view(attrs@));
    }
    find_subst_from(attrs, 0)
}

/// The one membership attribute at or after `start`, by position.
fn find_subst_from(attrs: &Vec<Attr>, start: usize) -> (r: Result<Option<usize>, Diag>)
    requires
        start <= attrs@.len(),
    ensures
        match r {
            Ok(Some(i)) => start <= i < attrs@.len() && sp_find_subst(
                attrs_view(attrs@).skip(start as int),
            ) == Ok::<Option<AttrV>, DiagV>(Some(attrs@[i as int]@)),
            Ok(None) => sp_find_subst(attrs_view(attrs@).skip(start as int)) == Ok::<
                Option<AttrV>,
                DiagV,
            >(None),
            Err(d) => sp_find_subst(attrs_view(attrs@).skip(start as int)) == Err::<
                Option<AttrV>,
                DiagV,
            >(d@),
        },
    decreases attrs@.len() - start,
{
    proof {
        assert(forall|k: int|
            0 <= k < attrs@.len() ==> attrs_view(attrs@)[k] == attrs@[k]@);
        if start < attrs@.len() {
            assert(attrs_view(attrs@).skip(start as int)[0] == attrs@[start as int]@);
            assert(attrs_view(attrs@).skip(start as int).drop_first() =~= attrs_view(
                attrs@,
            ).skip(start + 1));
        } else {
            assert(attrs_view(attrs@).skip(start as int) =~= Seq::<AttrV>::empty());
        }
    }
    if start >= attrs.len() {
        return Ok(None);
    }
    if path_is(&attrs[start].path, "substruct") {
        match first_subst_from(attrs, start + 1) {
            Some(j) => Err(Diag::new(DiagKind::MultipleMembershipAttrs, tok_span_of_attr(&attrs[j]))),
            None => Ok(Some(start)),
        }
    } else {
        find_subst_from(attrs, start + 1)
    }
}

/// The span of an attribute.
fn tok_span_of_attr(a: &Attr) -> (r: u32)
    ensures
        r == a@.span,
{
    a.span
}

/// An identical copy of a payload-handle list.
fn clone_payloads(v: &Vec<u32>) -> (r: Vec<u32>)
    ensures
        r@ == v@,
{
    let mut out: Vec<u32> = Vec::new();
    let n = v.len();
    for i in 0..n
        invariant
            n == v@.len(),
            out@ =~= v@.take(i as int),
    {
        out.push(v[i]);
        proof {
            assert(out@ =~= v@.take(i + 1));
        }
    }
    proof {
        assert(v@.take(n as int) =~= v@);
    }
    out
}

/// An identical copy of an optional field name.
fn clone_opt_name(n: &Option<String>) -> (r: Option<String>)
    ensures
        (r matches Some(s) ==> n matches Some(t) && s@ == t@),
        (r is None <==> n is None),
{
    match n {
        Some(s) => Some(s.clone()),
        None => None,
    }
}

/// Rewrite an attribute list for candidate `name` and apply a doc
/// override, appending one non-fatal diagnostic per malformed directive.
fn rewrite_attrs(attrs: &Vec<Attr>, docs: &Vec<u32>, name: &String, errors: &mut Vec<Diag>) -> (out:
    Vec<AttrOut>)
    ensures
        ({
            let (os, ds) = sp_filter_attrs(attrs_view(attrs@), name@);
            attr_outs_view(out@) == sp_apply_docs(os, docs@) && diags_view(final(errors)@)
                == diags_view(old(errors)@) + ds
        }),
{
    let mut out = filter_attrs(attrs, name, errors);
    let ghost filtered = attr_outs_view(out@);
    if docs.len() > 0 {
        let ghost pre_attrs = out@;
        drop_docs_from(&mut out, 0);
        proof {
            assert(attr_outs_view(pre_attrs.take(0)) =~= Seq::<AttrOutV>::empty());
            assert(pre_attrs.skip(0) =~= pre_attrs);
            assert(attr_outs_view(out@) =~= sp_drop_docs(filtered));
        }
        let ghost dropped = attr_outs_view(out@);
        let n = docs.len();
        for i in 0..n
            invariant
                n == docs@.len(),
                attr_outs_view(out@) =~= dropped + docs@.take(i as int).map_values(
                    |d: u32| AttrOutV::Keep { payload: d, is_doc: true },
                ),
        {
            let ghost before = out@;
            out.push(AttrOut::Keep { payload: docs[i], is_doc: true });
            proof {
                assert(attr_outs_view(out@) =~= attr_outs_view(before) + seq![
                    out@[before.len() as int]@,
                ]);
                assert(docs@.take(i + 1).map_values(
                    |d: u32| AttrOutV::Keep { payload: d, is_doc: true },
                ) =~= docs@.take(i as int).map_values(
                    |d: u32| AttrOutV::Keep { payload: d, is_doc: true },
                ) + seq![AttrOutV::Keep { payload: docs@[i as int], is_doc: true }]);
            }
        }
        proof {
            assert(docs@.take(n as int) =~= docs@);
            assert(attr_outs_view(out@) =~= sp_apply_docs(filtered, docs@));
        }
    }
    out
}

/// What one field becomes for candidate `name`, as `sp_filter_field` says.
fn filter_field(
    f: &Field,
    src_name: &String,
    src_span: u32,
    name: &String,
    errors: &mut Vec<Diag>,
) -> (r: Result<Option<FieldOut>, Diag>)
    ensures
        (r matches Ok(p) ==> ({
            &&& sp_filter_field(f@, src_name@, src_span, name@) matches Ok(q)
            &&& q.0 == (match p {
                Some(fo) => Some(fo@),
                None => None::<FieldOutV>,
            })
            &&& diags_view(final(errors)@) == diags_view(old(errors)@) + q.1
        })),
        (r matches Err(d) ==> sp_filter_field(f@, src_name@, src_span, name@) == Err::<
            (Option<FieldOutV>, Seq<DiagV>),
            DiagV,
        >(d@) && final(errors)@ == old(errors)@),
{
    let mut input = match find_subst(&f.attrs) {
        Err(d) => {
            return Err(d);
        },
        Ok(None) => SubstructInput { args: Vec::new() },
        Ok(Some(i)) => match parse_input(&f.attrs[i].args, 0) {
            Ok(si) => si,
            Err(d) => {
                return Err(d);
            },
        },
    };
    proof {
        assert(sp_field_input(f@) == Ok::<Seq<ArgV>, DiagV>(args_view(input.args@))) by {
            assert(args_view(Seq::<SubstructInputArg>::empty()) =~= Seq::<ArgV>::empty());
        }
    }
    let ghost explicit = args_view(input.args@);
    input.args.push(
        SubstructInputArg {
            docs: Vec::new(),
            expr: Expr::Ident(IdentExpr { text: src_name.clone(), span: src_span }),
        },
    );
    proof {
        assert(args_view(input.args@) =~= explicit.push(sp_implicit_arg(src_name@, src_span)));
    }
    let docs = match input.matching(name) {
        Some(arg) => clone_payloads(&arg.docs),
        None => {
            return Ok(None);
        },
    };
    let attrs = rewrite_attrs(&f.attrs, &docs, name, errors);
    let out = FieldOut { name: clone_opt_name(&f.name), ty: f.ty, attrs, span: f.span };
    proof {
        assert(out@.name == f@.name);
    }
    Ok(Some(out))
}

/// The view of a field sequence.
pub open spec fn fields_view(s: Seq<Field>) -> Seq<FieldV> {
    s.map_values(|f: Field| f@)
}

/// What filtering a whole field list for candidate `c` yields: the
/// retained fields in their original relative order, each rewritten, and
/// the non-fatal diagnostics in field order.
pub open spec fn sp_filter_fields(fs: Seq<FieldV>, src: Seq<char>, src_span: u32, c: Seq<char>) -> Result<
    (Seq<FieldOutV>, Seq<DiagV>),
    DiagV,
>
    decreases fs.len(),
{
    if fs.len() == 0 {
        Ok((Seq::empty(), Seq::empty()))
    } else {
        match sp_filter_field(fs[0], src, src_span, c) {
            Err(d) => Err(d),
            Ok((opt, ds)) => match sp_filter_fields(fs.drop_first(), src, src_span, c) {
                Err(d) => Err(d),
                Ok((rest, rest_ds)) => {
                    let head: Seq<FieldOutV> = match opt {
                        Some(fo) => seq![fo],
                        None => Seq::empty(),
                    };
                    Ok((head + rest, ds + rest_ds))
                },
            },
        }
    }
}

/// Filter the field list at and after `start` for candidate `name`.
fn filter_fields_from(
    fields: &Vec<Field>,
    start: usize,
    src_name: &String,
    src_span: u32,
    name: &String,
    errors: &mut Vec<Diag>,
) -> (r: Result<Vec<FieldOut>, Diag>)
    requires
        start <= fields@.len(),
    ensures
        (r matches Ok(out) ==> ({
            &&& sp_filter_fields(fields_view(fields@).skip(start as int), src_name@, src_span, name@)
                matches Ok(q)
            &&& field_outs_view(out@) == q.0
            &&& diags_view(final(errors)@) == diags_view(old(errors)@) + q.1
        })),
        (r matches Err(d) ==> sp_filter_fields(
            fields_view(fields@).skip(start as int),
            src_name@,
            src_span,
            name@,
        ) == Err::<(Seq<FieldOutV>, Seq<DiagV>), DiagV>(d@)),
    decreases fields@.len() - start,
{
    let ghost fv = fields_view(fields@).skip(start as int);
    proof {
        assert(forall|k: int|
            0 <= k < fields@.len() ==> fields_view(fields@)[k] == fields@[k]@);
        if start < fields@.len() {
            assert(fv[0] == fields@[start as int]@);
            assert(fv.drop_first() =~= fields_view(fields@).skip(start + 1));
        }
    }
    if start >= fields.len() {
        let v: Vec<FieldOut> = Vec::new();
        proof {
            assert(fv =~= Seq::<FieldV>::empty());
            assert(field_outs_view(v@) =~= Seq::<FieldOutV>::empty());
            assert(diags_view(errors@) =~= diags_view(errors@) + Seq::<DiagV>::empty());
        }
        return Ok(v);
    }
    let head = match filter_field(&fields[start], src_name, src_span, name, errors) {
        Ok(h) => h,
        Err(d) => {
            return Err(d);
        },
    };
    let ghost mid_errors = errors@;
    let rest = match filter_fields_from(fields, start + 1, src_name, src_span, name, errors) {
        Ok(v) => v,
        Err(d) => {
            return Err(d);
        },
    };
    match head {
        Some(fo) => {
            let mut out = rest;
            let ghost rest0 = out@;
            out.insert(0, fo);
            proof {
                assert(out@ =~= seq![out@[0]] + rest0);
                assert(field_outs_view(out@) =~= seq![out@[0]@] + field_outs_view(rest0));
                assert(diags_view(errors@) =~= diags_view(old(errors)@) + (diags_view(
                    mid_errors,
                ).skip(diags_view(old(errors)@).len() as int) + diags_view(errors@).skip(
                    diags_view(mid_errors).len() as int,
                )));
            }
            Ok(out)
        },
        None => {
            proof {
                assert(field_outs_view(rest@) =~= Seq::<FieldOutV>::empty() + field_outs_view(
                    rest@,
                ));
                assert(diags_view(errors@) =~= diags_view(old(errors)@) + (diags_view(
                    mid_errors,
                ).skip(diags_view(old(errors)@).len() as int) + diags_view(errors@).skip(
                    diags_view(mid_errors).len() as int,
                )));
            }
            Ok(rest)
        },
    }
}

/// One decimal digit as a character.
pub open spec fn sp_digit(d: nat) -> char {
    if d == 0 {
        '0'
    } else if d == 1 {
        '1'
    } else if d == 2 {
        '2'
    } else if d == 3 {
        '3'
    } else if d == 4 {
        '4'
    } else if d == 5 {
        '5'
    } else if d == 6 {
        '6'
    } else if d == 7 {
        '7'
    } else if d == 8 {
        '8'
    } else {
        '9'
    }
}

/// The decimal form of a number, most significant digit first.
pub open spec fn sp_dec(n: nat) -> Seq<char>
    decreases n,
{
    if n < 10 {
        seq![sp_digit(n)]
    } else {
        sp_dec(n / 10) + seq![sp_digit(n % 10)]
    }
}

/// One decimal digit written out.
fn digit_str(d: usize) -> (r: String)
    requires
        d < 10,
    ensures
        r@ == seq![sp_digit(d as nat)],
{
    proof {
        reveal_strlit("0");
        reveal_strlit("1");
        reveal_strlit("2");
        reveal_strlit("3");
        reveal_strlit("4");
        reveal_strlit("5");
        reveal_strlit("6");
        reveal_strlit("7");
        reveal_strlit("8");
        reveal_strlit("9");
    }
    let s: &str = if d == 0 {
        "0"
    } else if d == 1 {
        "1"
    } else if d == 2 {
        "2"
    } else if d == 3 {
        "3"
    } else if d == 4 {
        "4"
    } else if d == 5 {
        "5"
    } else if d == 6 {
        "6"
    } else if d == 7 {
        "7"
    } else if d == 8 {
        "8"
    } else {
        "9"
    };
    proof {
        assert(s@ =~= seq![sp_digit(d as nat)]);
    }
    s.to_owned()
}

/// A number written out in decimal.
fn dec_str(n: usize) -> (r: String)
    ensures
        r@ == sp_dec(n as nat),
    decreases n,
{
    if n < 10 {
        digit_str(n)
    } else {
        let high = dec_str(n / 10);
        let low = digit_str(n % 10);
        let r = high.concat(low.as_str());
        proof {
            assert(r@ =~= sp_dec(n as nat));
        }
        r
    }
}

/// The deterministic name of a narrowing argument for an excluded field:
/// the field's own name, or `arg` followed by its original position.
pub open spec fn sp_arg_name(name: Option<Seq<char>>, index: int) -> Seq<char> {
    match name {
        Some(n) => n,
        None => "arg"@ + sp_dec(index as nat),
    }
}

/// The argument name of an excluded field.
fn arg_name_of(name: &Option<String>, index: usize) -> (r: String)
    ensures
        r@ == sp_arg_name(
            match name {
                Some(n) => Some(n@),
                None => None,
            },
            index as int,
        ),
{
    match name {
        Some(n) => n.clone(),
        None => {
            let prefix: String = "arg".to_owned();
            prefix.concat(dec_str(index).as_str())
        },
    }
}

/// The view of an optional name.
pub open spec fn opt_name_view(n: Option<String>) -> Option<Seq<char>> {
    match n {
        Some(s) => Some(s@),
        None => None,
    }
}

/// Whether a field is retained for candidate `c`, when its membership
/// attribute parses.
pub open spec fn sp_kept(f: FieldV, src: Seq<char>, src_span: u32, c: Seq<char>) -> bool {
    sp_field_kept(f, src, src_span, c) == Ok::<bool, DiagV>(true)
}

/// Whether a field is retained for candidate `c`.
fn field_kept(f: &Field, src_name: &String, src_span: u32, name: &String) -> (r: Result<bool, Diag>)
    ensures
        (r matches Ok(b) ==> sp_field_kept(f@, src_name@, src_span, name@) == Ok::<bool, DiagV>(b)),
        (r matches Err(d) ==> sp_field_kept(f@, src_name@, src_span, name@) == Err::<bool, DiagV>(
            d@,
        )),
{
    let mut input = match find_subst(&f.attrs) {
        Err(d) => {
            return Err(d);
        },
        Ok(None) => SubstructInput { args: Vec::new() },
        Ok(Some(i)) => match parse_input(&f.attrs[i].args, 0) {
            Ok(si) => si,
            Err(d) => {
                return Err(d);
            },
        },
    };
    proof {
        assert(sp_field_input(f@) == Ok::<Seq<ArgV>, DiagV>(args_view(input.args@))) by {
            assert(args_view(Seq::<SubstructInputArg>::empty()) =~= Seq::<ArgV>::empty());
        }
    }
    let ghost explicit = args_view(input.args@);
    input.args.push(
        SubstructInputArg {
            docs: Vec::new(),
            expr: Expr::Ident(IdentExpr { text: src_name.clone(), span: src_span }),
        },
    );
    proof {
        assert(args_view(input.args@) =~= explicit.push(sp_implicit_arg(src_name@, src_span)));
    }
    Ok(input.matching(name).is_some())
}

/// Which fields are retained for candidate `c`, position by position.
pub open spec fn sp_kept_flags(fs: Seq<FieldV>, src: Seq<char>, src_span: u32, c: Seq<char>) -> Seq<
    bool,
> {
    Seq::new(fs.len(), |k: int| sp_kept(fs[k], src, src_span, c))
}

/// Whether some surviving plan entry refers to source position `m`.
pub open spec fn sp_kept_has(kept: Seq<KeptField>, m: int) -> bool {
    exists|x: int| 0 <= x < kept.len() && (#[trigger] kept[x]).dst_index == m
}

/// Whether some excluded plan entry refers to source position `m`.
pub open spec fn sp_dropped_has(dropped: Seq<DroppedField>, m: int) -> bool {
    exists|j: int| 0 <= j < dropped.len() && (#[trigger] dropped[j]).index == m
}

/// The surviving fields of a conversion plan are well formed: the
/// positions in the subset are dense from zero in declaration order, each
/// refers back to a retained source field, and types and names are carried
/// through.
pub open spec fn sp_plan_kept_ok(kept: Seq<KeptField>, fs: Seq<FieldV>, flags: Seq<bool>) -> bool {
    &&& forall|x: int|
        0 <= x < kept.len() ==> {
            let kf = #[trigger] kept[x];
            &&& kf.src_index == x
            &&& 0 <= kf.dst_index < fs.len()
            &&& flags[kf.dst_index as int]
            &&& kf.ty == fs[kf.dst_index as int].ty
            &&& opt_name_view(kf.name) == fs[kf.dst_index as int].name
        }
    &&& forall|x: int, y: int|
        0 <= x < y < kept.len() ==> (#[trigger] kept[x]).dst_index < (#[trigger] kept[y]).dst_index
}

/// The excluded fields of a conversion plan are well formed: original
/// positions in declaration order, types carried through, and each extra
/// narrowing argument named deterministically.
pub open spec fn sp_plan_dropped_ok(dropped: Seq<DroppedField>, fs: Seq<FieldV>, flags: Seq<bool>) -> bool {
    &&& forall|j: int|
        0 <= j < dropped.len() ==> {
            let df = #[trigger] dropped[j];
            &&& 0 <= df.index < fs.len()
            &&& !flags[df.index as int]
            &&& df.ty == fs[df.index as int].ty
            &&& opt_name_view(df.name) == fs[df.index as int].name
            &&& df.arg_name@ == sp_arg_name(fs[df.index as int].name, df.index as int)
        }
    &&& forall|x: int, y: int|
        0 <= x < y < dropped.len() ==> (#[trigger] dropped[x]).index < (#[trigger] dropped[y]).index
}

/// Every source field stands in exactly one side of the plan.
pub open spec fn sp_plan_covers(
    kept: Seq<KeptField>,
    dropped: Seq<DroppedField>,
    flags: Seq<bool>,
) -> bool {
    &&& forall|m: int| 0 <= m < flags.len() && flags[m] ==> sp_kept_has(kept, m)
    &&& forall|m: int| 0 <= m < flags.len() && !flags[m] ==> sp_dropped_has(dropped, m)
}

/// Which fields are retained for candidate `name`, position by position.
fn kept_flags(fields: &Vec<Field>, src_name: &String, src_span: u32, name: &String) -> (r: Result<
    Vec<bool>,
    Diag,
>)
    ensures
        (r matches Ok(flags) ==> flags@ == sp_kept_flags(
            fields_view(fields@),
            src_name@,
            src_span,
            name@,
        ) && (forall|k: int|
            0 <= k < fields@.len() ==> (#[trigger] sp_field_kept(
                fields_view(fields@)[k],
                src_name@,
                src_span,
                name@,
            )) is Ok)),
        (r matches Err(d) ==> exists|k: int|
            0 <= k < fields@.len() && sp_field_kept(
                #[trigger] fields_view(fields@)[k],
                src_name@,
                src_span,
                name@,
            ) == Err::<bool, DiagV>(d@)),
{
    let ghost fs = fields_view(fields@);
    let ghost goal = sp_kept_flags(fs, src_name@, src_span, name@);
    proof {
        assert(forall|k: int| 0 <= k < fields@.len() ==> fs[k] == fields@[k]@);
    }
    let mut flags: Vec<bool> = Vec::new();
    let n = fields.len();
    for i in 0..n
        invariant
            n == fields@.len(),
            fs == fields_view(fields@),
            goal == sp_kept_flags(fs, src_name@, src_span, name@),
            forall|k: int| 0 <= k < fields@.len() ==> fs[k] == fields@[k]@,
            flags@ =~= goal.take(i as int),
            forall|k: int|
                0 <= k < i ==> (#[trigger] sp_field_kept(fs[k], src_name@, src_span, name@)) is Ok,
    {
        let b = match field_kept(&fields[i], src_name, src_span, name) {
            Ok(b) => b,
            Err(d) => {
                proof {
                    assert(sp_field_kept(fields_view(fields@)[i as int], src_name@, src_span, name@)
                        == Err::<bool, DiagV>(d@));
                }
                return Err(d);
            },
        };
        flags.push(b);
        proof {
            assert(goal[i as int] == sp_kept(fs[i as int], src_name@, src_span, name@));
            assert(flags@ =~= goal.take(i + 1));
        }
    }
    proof {
        assert(goal.take(n as int) =~= goal);
    }
    Ok(flags)
}

/// Plan the conversions of one derived record: surviving fields remapped
/// by the dense renumbering, one extra argument per excluded field in
/// original order, and the full reverse conversion exactly when nothing is
/// excluded.
fn emit_conversions(
    fields: &Vec<Field>,
    named: bool,
    src_name: &String,
    src_span: u32,
    subset: &String,
    generics: u32,
) -> (r: Result<ConvPlan, Diag>)
    ensures
        (r matches Ok(plan) ==> ({
            let fs = fields_view(fields@);
            let flags = sp_kept_flags(fs, src_name@, src_span, subset@);
            &&& plan.subset@ == subset@
            &&& plan.source@ == src_name@
            &&& plan.generics == generics
            &&& plan.named == named
            &&& plan.method@ == "into_"@ + snake_of(src_name@)
            &&& plan.full_reverse == (plan.dropped@.len() == 0)
            &&& plan.kept@.len() + plan.dropped@.len() == fs.len()
            &&& sp_plan_kept_ok(plan.kept@, fs, flags)
            &&& sp_plan_dropped_ok(plan.dropped@, fs, flags)
            &&& sp_plan_covers(plan.kept@, plan.dropped@, flags)
        })),
        (r matches Err(d) ==> exists|k: int|
            0 <= k < fields@.len() && sp_field_kept(
                #[trigger] fields_view(fields@)[k],
                src_name@,
                src_span,
                subset@,
            ) == Err::<bool, DiagV>(d@)),
{
    let ghost fs = fields_view(fields@);
    let ghost flags_g = sp_kept_flags(fs, src_name@, src_span, subset@);
    let flags = match kept_flags(fields, src_name, src_span, subset) {
        Ok(f) => f,
        Err(d) => {
            return Err(d);
        },
    };
    proof {
        assert(forall|k: int| 0 <= k < fields@.len() ==> fs[k] == fields@[k]@);
    }
    let mut kept: Vec<KeptField> = Vec::new();
    let mut dropped: Vec<DroppedField> = Vec::new();
    let n = fields.len();
    for i in 0..n
        invariant
            n == fields@.len(),
            fs == fields_view(fields@),
            flags_g == sp_kept_flags(fs, src_name@, src_span, subset@),
            flags@ == flags_g,
            flags@.len() == n,
            forall|k: int| 0 <= k < fields@.len() ==> fs[k] == fields@[k]@,
            kept@.len() + dropped@.len() == i,
            forall|x: int| 0 <= x < kept@.len() ==> (#[trigger] kept@[x]).dst_index < i,
            forall|j: int| 0 <= j < dropped@.len() ==> (#[trigger] dropped@[j]).index < i,
            sp_plan_kept_ok(kept@, fs, flags@),
            sp_plan_dropped_ok(dropped@, fs, flags@),
            forall|m: int| 0 <= m < i && flags@[m] ==> sp_kept_has(kept@, m),
            forall|m: int| 0 <= m < i && !flags@[m] ==> sp_dropped_has(dropped@, m),
    {
        let f = &fields[i];
        if flags[i] {
            let ghost kept0 = kept@;
            kept.push(
                KeptField {
                    name: clone_opt_name(&f.name),
                    dst_index: i,
                    src_index: kept.len(),
                    ty: f.ty,
                },
            );
            proof {
                assert(kept@ =~= kept0.push(kept@[kept0.len() as int]));
                assert(forall|x: int| 0 <= x < kept0.len() ==> kept@[x] == #[trigger] kept0[x]);
                assert(sp_kept_has(kept@, i as int));
                assert forall|m: int| 0 <= m < i + 1 && flags@[m] implies sp_kept_has(
                    kept@,
                    m,
                ) by {
                    if m < i {
                        let x = choose|x: int|
                            0 <= x < kept0.len() && (#[trigger] kept0[x]).dst_index == m;
                        assert(kept@[x].dst_index == m);
                    }
                }
            }
        } else {
            let ghost dropped0 = dropped@;
            dropped.push(
                DroppedField {
                    name: clone_opt_name(&f.name),
                    index: i,
                    ty: f.ty,
                    arg_name: arg_name_of(&f.name, i),
                },
            );
            proof {
                assert(dropped@ =~= dropped0.push(dropped@[dropped0.len() as int]));
                assert(forall|j: int|
                    0 <= j < dropped0.len() ==> dropped@[j] == #[trigger] dropped0[j]);
                assert(sp_dropped_has(dropped@, i as int));
                assert forall|m: int| 0 <= m < i + 1 && !flags@[m] implies sp_dropped_has(
                    dropped@,
                    m,
                ) by {
                    if m < i {
                        let j = choose|j: int|
                            0 <= j < dropped0.len() && (#[trigger] dropped0[j]).index == m;
                        assert(dropped@[j].index == m);
                    }
                }
            }
        }
    }
    let full_reverse = dropped.len() == 0;
    Ok(
        ConvPlan {
            subset: subset.clone(),
            source: src_name.clone(),
            generics,
            method: narrowing_method_name(src_name),
            named,
            kept,
            dropped,
            full_reverse,
        },
    )
}

/// The second diagnostic list extends the first by non-fatal
/// malformed-directive reports only.
pub open spec fn diags_extended(before: Seq<DiagV>, after: Seq<DiagV>) -> bool {
    &&& after.len() >= before.len()
    &&& forall|j: int| 0 <= j < before.len() ==> after[j] == #[trigger] before[j]
    &&& forall|j: int|
        before.len() <= j < after.len() ==> (#[trigger] after[j]).kind
            == DiagKind::MalformedDirective
}

/// All diagnostics of attribute rewriting are non-fatal malformed-directive
/// reports.
pub proof fn lemma_filter_attrs_diags(attrs: Seq<AttrV>, c: Seq<char>)
    ensures
        forall|j: int|
            0 <= j < sp_filter_attrs(attrs, c).1.len() ==> (#[trigger] sp_filter_attrs(
                attrs,
                c,
            ).1[j]).kind == DiagKind::MalformedDirective,
    decreases attrs.len(),
{
    if attrs.len() > 0 {
        lemma_filter_attrs_diags(attrs.drop_first(), c);
    }
}

/// All diagnostics of field filtering are non-fatal malformed-directive
/// reports.
pub proof fn lemma_filter_fields_diags(fs: Seq<FieldV>, src: Seq<char>, src_span: u32, c: Seq<char>)
    ensures
        sp_filter_fields(fs, src, src_span, c) matches Ok(q) ==> forall|j: int|
            0 <= j < q.1.len() ==> (#[trigger] q.1[j]).kind == DiagKind::MalformedDirective,
    decreases fs.len(),
{
    if fs.len() > 0 {
        lemma_filter_fields_diags(fs.drop_first(), src, src_span, c);
        lemma_filter_attrs_diags(fs[0].attrs, c);
    }
}

/// What an emitted record must be for profile `name` with doc override
/// `docs`: the source renamed, its attribute list rewritten and the
/// override applied, its shape kept, and exactly the retained fields in
/// their original relative order, each rewritten.
pub open spec fn sp_record_ok(ro: RecordOut, input: Record, name: Seq<char>, docs: Seq<u32>) -> bool {
    let (os, ds) = sp_filter_attrs(attrs_view(input.attrs@), name);
    &&& ro.name@ == name
    &&& ro.generics == input.generics
    &&& attr_outs_view(ro.attrs@) == sp_apply_docs(os, docs)
    &&& match input.data {
        SourceData::Struct(shape) => match shape {
            Shape::Unit => ro.unit && !ro.named && ro.fields@.len() == 0,
            Shape::Named(fs) => !ro.unit && ro.named && (sp_filter_fields(
                fields_view(fs@),
                input.name@,
                input.name_span,
                name,
            ) matches Ok(q) && field_outs_view(ro.fields@) == q.0),
            Shape::Positional(fs) => !ro.unit && !ro.named && (sp_filter_fields(
                fields_view(fs@),
                input.name@,
                input.name_span,
                name,
            ) matches Ok(q) && field_outs_view(ro.fields@) == q.0),
        },
        _ => false,
    }
}

/// What the conversion plan of one derived record must be.
pub open spec fn sp_plan_ok(
    plan: ConvPlan,
    fs: Seq<FieldV>,
    named: bool,
    src: Seq<char>,
    src_span: u32,
    generics: u32,
    subset: Seq<char>,
) -> bool {
    let flags = sp_kept_flags(fs, src, src_span, subset);
    &&& plan.subset@ == subset
    &&& plan.source@ == src
    &&& plan.generics == generics
    &&& plan.named == named
    &&& plan.method@ == "into_"@ + snake_of(src)
    &&& plan.full_reverse == (plan.dropped@.len() == 0)
    &&& plan.kept@.len() + plan.dropped@.len() == fs.len()
    &&& sp_plan_kept_ok(plan.kept@, fs, flags)
    &&& sp_plan_dropped_ok(plan.dropped@, fs, flags)
    &&& sp_plan_covers(plan.kept@, plan.dropped@, flags)
}

/// Build one emitted record for profile `name` with doc override `docs`.
fn emit_struct(input: &Record, name: &String, docs: &Vec<u32>, errors: &mut Vec<Diag>) -> (r: Result<
    RecordOut,
    Diag,
>)
    requires
        input.data is Struct,
    ensures
        (r matches Ok(ro) ==> ({
            &&& sp_record_ok(ro, *input, name@, docs@)
            &&& sp_emit_one(*input, name@) matches Ok(ds)
            &&& diags_view(final(errors)@) == diags_view(old(errors)@) + (sp_emit_one(
                *input,
                name@,
            )->Ok_0)
            &&& diags_extended(diags_view(old(errors)@), diags_view(final(errors)@))
        })),
        (r matches Err(d) ==> sp_emit_one(*input, name@) == Err::<Seq<DiagV>, DiagV>(d@) && match input.data {
            SourceData::Struct(shape) => match shape {
                Shape::Named(fs) => sp_filter_fields(
                    fields_view(fs@),
                    input.name@,
                    input.name_span,
                    name@,
                ) == Err::<(Seq<FieldOutV>, Seq<DiagV>), DiagV>(d@),
                Shape::Positional(fs) => sp_filter_fields(
                    fields_view(fs@),
                    input.name@,
                    input.name_span,
                    name@,
                ) == Err::<(Seq<FieldOutV>, Seq<DiagV>), DiagV>(d@),
                Shape::Unit => false,
            },
            _ => false,
        }),
        (sp_emit_one(*input, name@) is Ok ==> r is Ok),
{
    let ghost e0 = errors@;
    let attrs = rewrite_attrs(&input.attrs, docs, name, errors);
    proof {
        lemma_filter_attrs_diags(attrs_view(input.attrs@), name@);
    }
    match &input.data {
        SourceData::Struct(shape) => {
            let ghost e1 = errors@;
            match shape {
                Shape::Unit => Ok(
                    RecordOut {
                        name: name.clone(),
                        generics: input.generics,
                        attrs,
                        unit: true,
                        named: false,
                        fields: Vec::new(),
                    },
                ),
                Shape::Named(fs) => {
                    proof {
                        assert(fields_view(fs@).skip(0) =~= fields_view(fs@));
                    }
                    match filter_fields_from(fs, 0, &input.name, input.name_span, name, errors) {
                        Ok(fields) => {
                            proof {
                                lemma_filter_fields_diags(
                                    fields_view(fs@),
                                    input.name@,
                                    input.name_span,
                                    name@,
                                );
                                let (os, ds0) = sp_filter_attrs(attrs_view(input.attrs@), name@);
                                match sp_filter_fields(
                                    fields_view(fs@),
                                    input.name@,
                                    input.name_span,
                                    name@,
                                ) {
                                    Ok(q) => {
                                        assert(diags_view(errors@) =~= diags_view(e0) + (ds0
                                            + q.1));
                                    },
                                    Err(_) => {},
                                }
                            }
                            Ok(
                                RecordOut {
                                    name: name.clone(),
                                    generics: input.generics,
                                    attrs,
                                    unit: false,
                                    named: true,
                                    fields,
                                },
                            )
                        },
                        Err(d) => Err(d),
                    }
                },
                Shape::Positional(fs) => {
                    proof {
                        assert(fields_view(fs@).skip(0) =~= fields_view(fs@));
                    }
                    match filter_fields_from(fs, 0, &input.name, input.name_span, name, errors) {
                        Ok(fields) => {
                            proof {
                                lemma_filter_fields_diags(
                                    fields_view(fs@),
                                    input.name@,
                                    input.name_span,
                                    name@,
                                );
                                let (os, ds0) = sp_filter_attrs(attrs_view(input.attrs@), name@);
                                match sp_filter_fields(
                                    fields_view(fs@),
                                    input.name@,
                                    input.name_span,
                                    name@,
                                ) {
                                    Ok(q) => {
                                        assert(diags_view(errors@) =~= diags_view(e0) + (ds0
                                            + q.1));
                                    },
                                    Err(_) => {},
                                }
                            }
                            Ok(
                                RecordOut {
                                    name: name.clone(),
                                    generics: input.generics,
                                    attrs,
                                    unit: false,
                                    named: false,
                                    fields,
                                },
                            )
                        },
                        Err(d) => Err(d),
                    }
                },
            }
        },
        SourceData::Enum { span } => unreached(),
        SourceData::Union { span } => unreached(),
    }
}

/// The position stored in an expression's head.
pub open spec fn sp_expr_span(e: ExprV) -> u32 {
    match e {
        ExprV::Ident { text, span } => span,
        ExprV::Not { span, arg } => span,
        ExprV::Any { span, args } => span,
        ExprV::All { span, args } => span,
    }
}

/// The position stored in an expression's head.
fn expr_span(e: &Expr) -> (r: u32)
    ensures
        r == sp_expr_span(e@),
{
    match e {
        Expr::Ident(i) => i.span,
        Expr::Not(n) => n.span,
        Expr::Any(a) => a.span,
        Expr::All(a) => a.span,
    }
}

/// The position of the first entry with key `k`, or a negative value when
/// there is none.
pub open spec fn sp_key_index(es: Seq<(Seq<char>, Seq<u32>)>, k: Seq<char>) -> int
    decreases es.len(),
{
    if es.len() == 0 {
        -1
    } else if es[0].0 == k {
        0
    } else {
        let r = sp_key_index(es.drop_first(), k);
        if r < 0 {
            -1
        } else {
            r + 1
        }
    }
}

/// `sp_key_index` finds a key exactly when one is there.
pub proof fn lemma_key_index(es: Seq<(Seq<char>, Seq<u32>)>, k: Seq<char>)
    ensures
        entries_have_key(es, k) ==> 0 <= sp_key_index(es, k) < es.len() && es[sp_key_index(
            es,
            k,
        )].0 == k,
        !entries_have_key(es, k) ==> sp_key_index(es, k) == -1,
    decreases es.len(),
{
    if es.len() > 0 {
        lemma_key_index(es.drop_first(), k);
        if es[0].0 == k {
            assert(entries_have_key(es, k));
        } else {
            let d = es.drop_first();
            assert(forall|i: int| 0 <= i < d.len() ==> d[i] == #[trigger] es[i + 1]);
            if entries_have_key(es, k) {
                let i = choose|i: int| 0 <= i < es.len() && (#[trigger] es[i]).0 == k;
                assert(d[i - 1].0 == k);
                assert(entries_have_key(d, k));
                let r = sp_key_index(d, k);
                assert(d[r] == es[r + 1]);
            } else {
                if entries_have_key(d, k) {
                    let i = choose|i: int| 0 <= i < d.len() && (#[trigger] d[i]).0 == k;
                    assert(es[i + 1].0 == k);
                    assert(entries_have_key(es, k));
                }
            }
        }
    }
}

/// With distinct keys, any position holding key `k` is the one
/// `sp_key_index` finds.
pub proof fn lemma_key_index_unique(es: Seq<(Seq<char>, Seq<u32>)>, k: Seq<char>, i: int)
    requires
        distinct_keys(es),
        0 <= i < es.len(),
        es[i].0 == k,
    ensures
        sp_key_index(es, k) == i,
    decreases es.len(),
{
    if i == 0 {
    } else {
        assert(es[0].0 != k);
        assert(forall|m: int, j: int|
            0 <= m < j < es.drop_first().len() ==> (#[trigger] es.drop_first()[m]).0 != (
            #[trigger] es.drop_first()[j]).0) by {
            assert(forall|m: int|
                0 <= m < es.drop_first().len() ==> es.drop_first()[m] == #[trigger] es[m + 1]);
        }
        assert(es.drop_first()[i - 1] == es[i]);
        lemma_key_index_unique(es.drop_first(), k, i - 1);
    }
}

/// Adding one profile declaration: an already-declared name keeps its
/// place and only its doc override is replaced; a new name is appended.
pub open spec fn sp_upsert(
    es: Seq<(Seq<char>, Seq<u32>)>,
    k: Seq<char>,
    v: Seq<u32>,
) -> Seq<(Seq<char>, Seq<u32>)> {
    let i = sp_key_index(es, k);
    if i < 0 {
        es.push((k, v))
    } else {
        es.update(i, (k, v))
    }
}

/// Upserting keeps the keys distinct.
pub proof fn lemma_upsert_distinct(es: Seq<(Seq<char>, Seq<u32>)>, k: Seq<char>, v: Seq<u32>)
    requires
        distinct_keys(es),
    ensures
        distinct_keys(sp_upsert(es, k, v)),
{
    lemma_key_index(es, k);
    let i = sp_key_index(es, k);
    if i < 0 {
        assert forall|m: int, j: int|
            0 <= m < j < sp_upsert(es, k, v).len() implies (#[trigger] sp_upsert(es, k, v)[m]).0
            != (#[trigger] sp_upsert(es, k, v)[j]).0 by {
            if j == es.len() {
                assert(sp_upsert(es, k, v)[m].0 == es[m].0);
                if es[m].0 == k {
                    assert(entries_have_key(es, k));
                }
            }
        }
    } else {
        assert forall|m: int, j: int|
            0 <= m < j < sp_upsert(es, k, v).len() implies (#[trigger] sp_upsert(es, k, v)[m]).0
            != (#[trigger] sp_upsert(es, k, v)[j]).0 by {
            assert(es[i].0 == k);
        }
    }
}

/// What the declared-profile list is after folding the top-level
/// arguments, each of which must be a bare profile name.
pub open spec fn sp_profiles_acc(
    args: Seq<ArgV>,
    acc: Seq<(Seq<char>, Seq<u32>)>,
) -> Result<Seq<(Seq<char>, Seq<u32>)>, DiagV>
    decreases args.len(),
{
    if args.len() == 0 {
        Ok(acc)
    } else {
        match args[0].expr {
            ExprV::Ident { text, span } => sp_profiles_acc(
                args.drop_first(),
                sp_upsert(acc, text, args[0].docs),
            ),
            _ => Err(
                DiagV {
                    kind: DiagKind::StructLevelExpr,
                    span: sp_expr_span(args[0].expr),
                    name: None,
                },
            ),
        }
    }
}

/// The declared profiles: the top-level arguments folded in declaration
/// order, with the source record's own name appended when absent.
pub open spec fn sp_all_profiles(args: Seq<ArgV>, src: Seq<char>) -> Result<
    Seq<(Seq<char>, Seq<u32>)>,
    DiagV,
> {
    match sp_profiles_acc(args, Seq::empty()) {
        Err(d) => Err(d),
        Ok(es) => Ok(
            if entries_have_key(es, src) {
                es
            } else {
                es.push((src, Seq::empty()))
            },
        ),
    }
}

/// Folding preserves key distinctness.
pub proof fn lemma_profiles_acc_distinct(args: Seq<ArgV>, acc: Seq<(Seq<char>, Seq<u32>)>)
    requires
        distinct_keys(acc),
    ensures
        sp_profiles_acc(args, acc) matches Ok(es) ==> distinct_keys(es),
    decreases args.len(),
{
    if args.len() > 0 {
        match args[0].expr {
            ExprV::Ident { text, span } => {
                lemma_upsert_distinct(acc, text, args[0].docs);
                lemma_profiles_acc_distinct(args.drop_first(), sp_upsert(acc, text, args[0].docs));
            },
            _ => {},
        }
    }
}

/// The engine: the validated source record, the declared profiles in
/// order, and the accumulated non-fatal diagnostics and output items.
pub struct Emitter {
    pub input: Record,
    pub args: indexmap::IndexMap<String, Vec<u32>>,
    pub errors: Vec<Diag>,
    pub items: Vec<EmitItem>,
}

/// The whole output of one expansion: the emitted records with their
/// conversions, and the non-fatal diagnostics to append.
pub struct Expansion {
    pub items: Vec<EmitItem>,
    pub diags: Vec<Diag>,
}

/// What one output item must be for one declared profile.
pub open spec fn sp_item_ok(item: EmitItem, input: Record, name: Seq<char>, docs: Seq<u32>) -> bool {
    &&& sp_record_ok(item.record, input, name, docs)
    &&& if name == input.name@ || (input.data matches SourceData::Struct(Shape::Unit)) {
        item.conversions is None
    } else {
        match input.data {
            SourceData::Struct(shape) => match shape {
                Shape::Named(fs) => item.conversions matches Some(plan) && sp_plan_ok(
                    plan,
                    fields_view(fs@),
                    true,
                    input.name@,
                    input.name_span,
                    input.generics,
                    name,
                ),
                Shape::Positional(fs) => item.conversions matches Some(plan) && sp_plan_ok(
                    plan,
                    fields_view(fs@),
                    false,
                    input.name@,
                    input.name_span,
                    input.generics,
                    name,
                ),
                Shape::Unit => false,
            },
            _ => false,
        }
    }
}

/// The position of the offending shape token of a sum-type or union
/// source.
pub open spec fn sp_shape_span(data: SourceData) -> u32 {
    match data {
        SourceData::Enum { span } => span,
        SourceData::Union { span } => span,
        SourceData::Struct(shape) => 0,
    }
}

/// The non-fatal diagnostics of emitting one record for one profile, in
/// order — the record's own directives first, then the fields' in field
/// order — or the fatal diagnostic that stops the emission.
pub open spec fn sp_emit_one(input: Record, name: Seq<char>) -> Result<Seq<DiagV>, DiagV> {
    let (os, ds0) = sp_filter_attrs(attrs_view(input.attrs@), name);
    match input.data {
        SourceData::Struct(shape) => match shape {
            Shape::Unit => Ok(ds0),
            Shape::Named(fs) => match sp_filter_fields(
                fields_view(fs@),
                input.name@,
                input.name_span,
                name,
            ) {
                Err(d) => Err(d),
                Ok(q) => Ok(ds0 + q.1),
            },
            Shape::Positional(fs) => match sp_filter_fields(
                fields_view(fs@),
                input.name@,
                input.name_span,
                name,
            ) {
                Err(d) => Err(d),
                Ok(q) => Ok(ds0 + q.1),
            },
        },
        _ => Ok(ds0),
    }
}

/// The non-fatal diagnostics of a whole emission, profile by profile in
/// declaration order, or the first fatal diagnostic.
pub open spec fn sp_emit(es: Seq<(Seq<char>, Seq<u32>)>, input: Record) -> Result<
    Seq<DiagV>,
    DiagV,
>
    decreases es.len(),
{
    if es.len() == 0 {
        Ok(Seq::empty())
    } else {
        match sp_emit_one(input, es[0].0) {
            Err(d) => Err(d),
            Ok(ds) => match sp_emit(es.drop_first(), input) {
                Err(d) => Err(d),
                Ok(rest) => Ok(ds + rest),
            },
        }
    }
}

/// `sp_emit` distributes over concatenation of the profile list.
pub proof fn lemma_emit_concat(a: Seq<(Seq<char>, Seq<u32>)>, b: Seq<(Seq<char>, Seq<u32>)>, input: Record)
    ensures
        sp_emit(a + b, input) == (match sp_emit(a, input) {
            Err(d) => Err::<Seq<DiagV>, DiagV>(d),
            Ok(ds) => match sp_emit(b, input) {
                Err(d) => Err::<Seq<DiagV>, DiagV>(d),
                Ok(rest) => Ok::<Seq<DiagV>, DiagV>(ds + rest),
            },
        }),
    decreases a.len(),
{
    if a.len() == 0 {
        assert(a + b =~= b);
        match sp_emit(b, input) {
            Ok(rest) => {
                assert(Seq::<DiagV>::empty() + rest =~= rest);
            },
            Err(_) => {},
        }
    } else {
        assert((a + b)[0] == a[0]);
        assert((a + b).drop_first() =~= a.drop_first() + b);
        lemma_emit_concat(a.drop_first(), b, input);
        match sp_emit_one(input, a[0].0) {
            Err(_) => {},
            Ok(ds) => {
                match sp_emit(a.drop_first(), input) {
                    Err(_) => {},
                    Ok(mid) => {
                        match sp_emit(b, input) {
                            Err(_) => {},
                            Ok(rest) => {
                                assert(ds + (mid + rest) =~= (ds + mid) + rest);
                            },
                        }
                    },
                }
            },
        }
    }
}

/// When a field list filters successfully, every membership attribute
/// parsed, so each field's retention is decided without error.
pub proof fn lemma_filter_fields_inputs(fs: Seq<FieldV>, src: Seq<char>, src_span: u32, c: Seq<char>)
    ensures
        sp_filter_fields(fs, src, src_span, c) is Ok ==> forall|k: int|
            0 <= k < fs.len() ==> (#[trigger] sp_field_kept(fs[k], src, src_span, c)) is Ok,
    decreases fs.len(),
{
    if fs.len() > 0 {
        lemma_filter_fields_inputs(fs.drop_first(), src, src_span, c);
        if sp_filter_fields(fs, src, src_span, c) is Ok {
            assert forall|k: int|
                0 <= k < fs.len() implies (#[trigger] sp_field_kept(fs[k], src, src_span, c))
                is Ok by {
                if k > 0 {
                    assert(fs.drop_first()[k - 1] == fs[k]);
                    assert(sp_field_kept(fs.drop_first()[k - 1], src, src_span, c) is Ok);
                }
            }
        }
    }
}

/// When every membership attribute of a field list parses, the list
/// filters successfully for every candidate.
pub proof fn lemma_inputs_filter_fields(fs: Seq<FieldV>, src: Seq<char>, src_span: u32, c: Seq<char>)
    requires
        forall|k: int| 0 <= k < fs.len() ==> (#[trigger] sp_field_input(fs[k])) is Ok,
    ensures
        sp_filter_fields(fs, src, src_span, c) is Ok,
    decreases fs.len(),
{
    if fs.len() > 0 {
        assert(sp_field_input(fs[0]) is Ok);
        assert(forall|k: int|
            0 <= k < fs.drop_first().len() ==> fs.drop_first()[k] == #[trigger] fs[k + 1]);
        lemma_inputs_filter_fields(fs.drop_first(), src, src_span, c);
    }
}

/// When validation passes, every membership attribute of the fields
/// parsed.
pub proof fn lemma_validate_inputs(
    fs: Seq<FieldV>,
    es: Seq<(Seq<char>, Seq<u32>)>,
    fnames: Seq<Option<Seq<char>>>,
)
    ensures
        sp_validate(fs, es, fnames) is None ==> forall|k: int|
            0 <= k < fs.len() ==> (#[trigger] sp_field_input(fs[k])) is Ok,
    decreases fs.len(),
{
    if fs.len() > 0 {
        lemma_validate_inputs(fs.drop_first(), es, fnames);
        if sp_validate(fs, es, fnames) is None {
            assert forall|k: int|
                0 <= k < fs.len() implies (#[trigger] sp_field_input(fs[k])) is Ok by {
                if k > 0 {
                    assert(fs.drop_first()[k - 1] == fs[k]);
                    assert(sp_field_input(fs.drop_first()[k - 1]) is Ok);
                }
            }
        }
    }
}

/// When every membership attribute of the source's fields parses, the
/// whole emission succeeds, whatever the declared profiles are.
pub proof fn lemma_emit_ok(es: Seq<(Seq<char>, Seq<u32>)>, input: Record)
    requires
        input.data is Struct,
        forall|k: int|
            0 <= k < sp_source_fields(input.data).len() ==> (#[trigger] sp_field_input(
                sp_source_fields(input.data)[k],
            )) is Ok,
    ensures
        sp_emit(es, input) is Ok,
    decreases es.len(),
{
    if es.len() > 0 {
        match input.data {
            SourceData::Struct(shape) => match shape {
                Shape::Unit => {},
                Shape::Named(fs) => {
                    lemma_inputs_filter_fields(
                        fields_view(fs@),
                        input.name@,
                        input.name_span,
                        es[0].0,
                    );
                },
                Shape::Positional(fs) => {
                    lemma_inputs_filter_fields(
                        fields_view(fs@),
                        input.name@,
                        input.name_span,
                        es[0].0,
                    );
                },
            },
            _ => {},
        }
        lemma_emit_ok(es.drop_first(), input);
    }
}

impl Emitter {
    /// Validate the top-level input and build the engine: sum types and
    /// unions are rejected before anything else runs, each top-level
    /// argument must be a bare profile name, duplicates keep their first
    /// place with the later doc override, and the source's own name is
    /// added when absent.
    pub fn from_input(input: Record, attr: SubstructInput) -> (r: Result<Emitter, Diag>)
        ensures
            (r matches Ok(em) ==> ({
                &&& em.input == input
                &&& input.data is Struct
                &&& sp_all_profiles(args_view(attr.args@), input.name@) == Ok::<
                    Seq<(Seq<char>, Seq<u32>)>,
                    DiagV,
                >(profile_entries(em.args))
                &&& distinct_keys(profile_entries(em.args))
                &&& entries_have_key(profile_entries(em.args), input.name@)
                &&& em.errors@.len() == 0
                &&& em.items@.len() == 0
            })),
            (!(input.data is Struct) ==> ({
                &&& r matches Err(d)
                &&& d@ == (DiagV {
                    kind: DiagKind::UnsupportedShape,
                    span: sp_shape_span(input.data),
                    name: None,
                })
            })),
            (r matches Err(d) ==> (input.data is Struct ==> sp_all_profiles(
                args_view(attr.args@),
                input.name@,
            ) == Err::<Seq<(Seq<char>, Seq<u32>)>, DiagV>(d@))),
            (input.data is Struct && sp_all_profiles(args_view(attr.args@), input.name@) is Ok
                ==> r is Ok),
    {
        match &input.data {
            SourceData::Enum { span } => {
                return Err(Diag::new(DiagKind::UnsupportedShape, *span));
            },
            SourceData::Union { span } => {
                return Err(Diag::new(DiagKind::UnsupportedShape, *span));
            },
            SourceData::Struct(_) => {},
        }
        let ghost whole = args_view(attr.args@);
        let mut map = pm_new();
        let n = attr.args.len();
        proof {
            assert(whole.skip(0) =~= whole);
        }
        let mut i: usize = 0;
        while i < n
            invariant
                input.data is Struct,
                n == attr.args@.len(),
                i <= n,
                whole == args_view(attr.args@),
                distinct_keys(profile_entries(map)),
                sp_profiles_acc(whole, Seq::empty()) == sp_profiles_acc(
                    whole.skip(i as int),
                    profile_entries(map),
                ),
            decreases n - i,
        {
            let ghost pre = whole.skip(i as int);
            let ghost es = profile_entries(map);
            proof {
                assert(pre[0] == whole[i as int]);
                assert(whole[i as int] == attr.args@[i as int]@);
                assert(pre.drop_first() =~= whole.skip(i + 1));
            }
            let arg = &attr.args[i];
            match &arg.expr {
                Expr::Ident(id) => {
                    let old_v = pm_insert(&mut map, id.text.clone(), clone_payloads(&arg.docs));
                    proof {
                        lemma_key_index(es, id.text@);
                        if entries_have_key(es, id.text@) {
                            let w = choose|w: int|
                                {
                                    &&& 0 <= w < es.len()
                                    &&& (#[trigger] es[w]).0 == id.text@
                                    &&& profile_entries(map) == es.update(
                                        w,
                                        (id.text@, arg.docs@),
                                    )
                                    &&& old_v matches Some(p) && p@ == es[w].1
                                };
                            lemma_key_index_unique(es, id.text@, w);
                        }
                        assert(profile_entries(map) == sp_upsert(es, id.text@, arg.docs@));
                        lemma_upsert_distinct(es, id.text@, arg.docs@);
                    }
                },
                e => {
                    return Err(Diag::new(DiagKind::StructLevelExpr, expr_span(e)));
                },
            }
            i = i + 1;
        }
        proof {
            assert(whole.skip(n as int) =~= Seq::<ArgV>::empty());
        }
        if !pm_contains(&map, &input.name) {
            let ghost es = profile_entries(map);
            let old_v = pm_insert(&mut map, input.name.clone(), Vec::new());
            proof {
                lemma_key_index(es, input.name@);
                assert(profile_entries(map) =~= es.push((input.name@, Seq::empty())));
                lemma_upsert_distinct(es, input.name@, Seq::empty());
                assert(sp_upsert(es, input.name@, Seq::empty()) == es.push(
                    (input.name@, Seq::empty()),
                ));
                assert(entries_have_key(profile_entries(map), input.name@)) by {
                    assert(profile_entries(map)[es.len() as int].0 == input.name@);
                }
            }
        }
        Ok(Emitter { input, args: map, errors: Vec::new(), items: Vec::new() })
    }

    /// Run the expansion: one emitted record per declared profile in
    /// declaration order, with conversions for every derived non-unit
    /// profile, and exactly the non-fatal diagnostics of each profile,
    /// in order, collected alongside. Fails exactly when some profile's
    /// emission fails, with that first fatal diagnostic.
    pub fn emit(self) -> (r: Result<Expansion, Diag>)
        requires
            self.input.data is Struct,
            self.errors@.len() == 0,
            self.items@.len() == 0,
        ensures
            (r matches Ok(x) ==> ({
                let es = profile_entries(self.args);
                &&& x.items@.len() == es.len()
                &&& forall|p: int|
                    0 <= p < es.len() ==> sp_item_ok(
                        #[trigger] x.items@[p],
                        self.input,
                        es[p].0,
                        es[p].1,
                    )
                &&& sp_emit(es, self.input) == Ok::<Seq<DiagV>, DiagV>(diags_view(x.diags@))
                &&& forall|j: int|
                    0 <= j < x.diags@.len() ==> (#[trigger] x.diags@[j])@.kind
                        == DiagKind::MalformedDirective
            })),
            (r matches Err(d) ==> sp_emit(profile_entries(self.args), self.input) == Err::<
                Seq<DiagV>,
                DiagV,
            >(d@)),
            (sp_emit(profile_entries(self.args), self.input) is Ok ==> r is Ok),
    {
        run_emit(self.input, self.args, self.errors, self.items)
    }
}

/// The emission loop over the declared profiles, in order.
fn run_emit(
    input: Record,
    args: indexmap::IndexMap<String, Vec<u32>>,
    mut errors: Vec<Diag>,
    mut items: Vec<EmitItem>,
) -> (r: Result<Expansion, Diag>)
    requires
        input.data is Struct,
        errors@.len() == 0,
        items@.len() == 0,
    ensures
        (r matches Ok(x) ==> ({
            let es = profile_entries(args);
            &&& x.items@.len() == es.len()
            &&& forall|p: int|
                0 <= p < es.len() ==> sp_item_ok(#[trigger] x.items@[p], input, es[p].0, es[p].1)
            &&& sp_emit(es, input) == Ok::<Seq<DiagV>, DiagV>(diags_view(x.diags@))
            &&& forall|j: int|
                0 <= j < x.diags@.len() ==> (#[trigger] x.diags@[j])@.kind
                    == DiagKind::MalformedDirective
        })),
        (r matches Err(d) ==> sp_emit(profile_entries(args), input) == Err::<Seq<DiagV>, DiagV>(
            d@,
        )),
        (sp_emit(profile_entries(args), input) is Ok ==> r is Ok),
{
        let ghost es = profile_entries(args);
        let n = pm_len(&args);
        let mut p: usize = 0;
        proof {
            assert(es.take(0) =~= Seq::<(Seq<char>, Seq<u32>)>::empty());
            assert(diags_view(errors@) =~= Seq::<DiagV>::empty());
        }
        while p < n
            invariant
                n == es.len(),
                es == profile_entries(args),
                input.data is Struct,
                items@.len() == p,
                p <= n,
                forall|q: int|
                    0 <= q < p ==> sp_item_ok(#[trigger] items@[q], input, es[q].0, es[q].1),
                sp_emit(es.take(p as int), input) == Ok::<Seq<DiagV>, DiagV>(diags_view(errors@)),
                forall|j: int|
                    0 <= j < errors@.len() ==> (#[trigger] errors@[j])@.kind
                        == DiagKind::MalformedDirective,
            decreases n - p,
        {
            let (name, docs) = match pm_get_index(&args, p) {
                Some(pair) => pair,
                None => unreached(),
            };
            let ghost e_before = errors@;
            let record = match emit_struct(&input, name, docs, &mut errors) {
                Ok(ro) => ro,
                Err(d) => {
                    proof {
                        lemma_emit_concat(es.take(p as int), es.skip(p as int), input);
                        assert(es.take(p as int) + es.skip(p as int) =~= es);
                        assert(es.skip(p as int)[0] == es[p as int]);
                        assert(sp_emit_one(input, es[p as int].0) == Err::<Seq<DiagV>, DiagV>(d@));
                        assert(sp_emit(es.skip(p as int), input) == Err::<Seq<DiagV>, DiagV>(d@));
                        assert(sp_emit(es, input) == Err::<Seq<DiagV>, DiagV>(d@));
                    }
                    return Err(d);
                },
            };
            proof {
                assert(diags_view(errors@).len() == errors@.len());
                assert(diags_view(e_before).len() == e_before.len());
                assert forall|j: int|
                    0 <= j < errors@.len() implies (#[trigger] errors@[j])@.kind
                    == DiagKind::MalformedDirective by {
                    assert(diags_view(errors@)[j] == errors@[j]@);
                    if j < e_before.len() {
                        assert(diags_view(e_before)[j] == e_before[j]@);
                        assert(e_before[j]@.kind == DiagKind::MalformedDirective);
                    }
                }
            }
            let is_self = *name == input.name;
            let is_unit = record.unit;
            let conversions = if is_self || is_unit {
                None
            } else {
                match &input.data {
                    SourceData::Struct(shape) => match shape {
                        Shape::Unit => unreached(),
                        Shape::Named(fs) => {
                            match emit_conversions(
                                fs,
                                true,
                                &input.name,
                                input.name_span,
                                name,
                                input.generics,
                            ) {
                                Ok(plan) => Some(plan),
                                Err(d) => {
                                    proof {
                                        lemma_filter_fields_inputs(
                                            fields_view(fs@),
                                            input.name@,
                                            input.name_span,
                                            name@,
                                        );
                                        assert(false);
                                    }
                                    return Err(d);
                                },
                            }
                        },
                        Shape::Positional(fs) => {
                            match emit_conversions(
                                fs,
                                false,
                                &input.name,
                                input.name_span,
                                name,
                                input.generics,
                            ) {
                                Ok(plan) => Some(plan),
                                Err(d) => {
                                    proof {
                                        lemma_filter_fields_inputs(
                                            fields_view(fs@),
                                            input.name@,
                                            input.name_span,
                                            name@,
                                        );
                                        assert(false);
                                    }
                                    return Err(d);
                                },
                            }
                        },
                    },
                    _ => unreached(),
                }
            };
            let ghost items0 = items@;
            items.push(EmitItem { record, conversions });
            proof {
                assert(items@ =~= items0.push(items@[items0.len() as int]));
                assert(forall|q: int| 0 <= q < items0.len() ==> items@[q] == #[trigger] items0[q]);
                if !(is_self || is_unit) {
                    assert(name@ != input.name@);
                    if input.data matches SourceData::Struct(Shape::Unit) {
                        assert(record.unit);
                    }
                }
                assert(sp_item_ok(items@[p as int], input, es[p as int].0, es[p as int].1));
                lemma_emit_concat(es.take(p as int), seq![es[p as int]], input);
                assert(es.take(p as int) + seq![es[p as int]] =~= es.take(p + 1));
                assert(seq![es[p as int]][0] == es[p as int]);
                assert(seq![es[p as int]].drop_first() =~= Seq::<(Seq<char>, Seq<u32>)>::empty());
                match sp_emit_one(input, es[p as int].0) {
                    Ok(ds) => {
                        assert(sp_emit(
                            seq![es[p as int]].drop_first(),
                            input,
                        ) == Ok::<Seq<DiagV>, DiagV>(Seq::empty())) by {
                            assert(seq![es[p as int]].drop_first().len() == 0);
                        }
                        assert(sp_emit(seq![es[p as int]], input) == Ok::<Seq<DiagV>, DiagV>(
                            ds + Seq::<DiagV>::empty(),
                        ));
                        assert(ds + Seq::<DiagV>::empty() =~= ds);
                        assert(diags_view(errors@) =~= diags_view(e_before) + ds);
                        assert(sp_emit(es.take(p + 1), input) == Ok::<Seq<DiagV>, DiagV>(
                            diags_view(errors@),
                        ));
                    },
                    Err(_) => {
                        assert(false);
                    },
                }
            }
            p = p + 1;
        }
        proof {
            assert(es.take(n as int) =~= es);
        }
        Ok(Expansion { items, diags: errors })
}

/// The identifier terms of an expression, with their positions, in
/// left-to-right order.
pub open spec fn sp_idents(e: ExprV) -> Seq<(Seq<char>, u32)>
    decreases e,
{
    match e {
        ExprV::Ident { text, span } => seq![(text, span)],
        ExprV::Not { span, arg } => sp_idents(*arg),
        ExprV::Any { span, args } => sp_idents_list(args),
        ExprV::All { span, args } => sp_idents_list(args),
    }
}

/// The identifier terms of an expression list.
pub open spec fn sp_idents_list(args: Seq<ExprV>) -> Seq<(Seq<char>, u32)>
    decreases args,
{
    if args.len() == 0 {
        Seq::empty()
    } else {
        sp_idents(args[0]) + sp_idents_list(args.drop_first())
    }
}

/// The identifier terms referenced by a field's membership arguments.
pub open spec fn sp_arg_refs(args: Seq<ArgV>) -> Seq<(Seq<char>, u32)>
    decreases args.len(),
{
    if args.len() == 0 {
        Seq::empty()
    } else {
        sp_idents(args[0].expr) + sp_arg_refs(args.drop_first())
    }
}

/// The identifier terms referenced by the conditional-attribute
/// directives of an attribute list, malformed directives aside.
pub open spec fn sp_attr_refs(attrs: Seq<AttrV>) -> Seq<(Seq<char>, u32)>
    decreases attrs.len(),
{
    if attrs.len() == 0 {
        Seq::empty()
    } else {
        let head: Seq<(Seq<char>, u32)> = if attrs[0].path == "substruct_attr"@ {
            match sp_directive(attrs[0].args) {
                Ok((e, meta)) => sp_idents(e),
                Err(d) => Seq::empty(),
            }
        } else {
            Seq::empty()
        };
        head + sp_attr_refs(attrs.drop_first())
    }
}

/// Whether a referenced name is declared: a profile (the source's own
/// name among them), or one of the source's field names, each of which is
/// implicitly usable as an identifier test.
pub open spec fn sp_valid_name(
    n: Seq<char>,
    es: Seq<(Seq<char>, Seq<u32>)>,
    fnames: Seq<Option<Seq<char>>>,
) -> bool {
    entries_have_key(es, n) || exists|k: int|
        0 <= k < fnames.len() && #[trigger] fnames[k] == Some(n)
}

/// The first undeclared reference, if any.
pub open spec fn sp_first_unknown(
    refs: Seq<(Seq<char>, u32)>,
    es: Seq<(Seq<char>, Seq<u32>)>,
    fnames: Seq<Option<Seq<char>>>,
) -> Option<(Seq<char>, u32)>
    decreases refs.len(),
{
    if refs.len() == 0 {
        None
    } else if !sp_valid_name(refs[0].0, es, fnames) {
        Some(refs[0])
    } else {
        sp_first_unknown(refs.drop_first(), es, fnames)
    }
}

/// The names of a field list, position by position.
pub open spec fn sp_field_names(fs: Seq<FieldV>) -> Seq<Option<Seq<char>>> {
    fs.map_values(|f: FieldV| f.name)
}

/// What validating the fields yields: the first fatal diagnostic in field
/// order — a malformed membership attribute, or an undeclared profile
/// reference named together with its position — or nothing.
pub open spec fn sp_validate(
    fs: Seq<FieldV>,
    es: Seq<(Seq<char>, Seq<u32>)>,
    fnames: Seq<Option<Seq<char>>>,
) -> Option<DiagV>
    decreases fs.len(),
{
    if fs.len() == 0 {
        None
    } else {
        match sp_field_input(fs[0]) {
            Err(d) => Some(d),
            Ok(args) => match sp_first_unknown(
                sp_arg_refs(args) + sp_attr_refs(fs[0].attrs),
                es,
                fnames,
            ) {
                Some(u) => Some(
                    DiagV { kind: DiagKind::UnknownProfile, span: u.1, name: Some(u.0) },
                ),
                None => sp_validate(fs.drop_first(), es, fnames),
            },
        }
    }
}

/// What validating a whole record yields: first the record-level
/// directive references, then the fields.
pub open spec fn sp_validate_record(
    attrs0: Seq<AttrV>,
    fs: Seq<FieldV>,
    es: Seq<(Seq<char>, Seq<u32>)>,
    fnames: Seq<Option<Seq<char>>>,
) -> Option<DiagV> {
    match sp_first_unknown(sp_attr_refs(attrs0), es, fnames) {
        Some(u) => Some(DiagV { kind: DiagKind::UnknownProfile, span: u.1, name: Some(u.0) }),
        None => sp_validate(fs, es, fnames),
    }
}

/// The view of an identifier-reference list.
pub open spec fn idrefs_view(s: Seq<IdentExpr>) -> Seq<(Seq<char>, u32)> {
    s.map_values(|i: IdentExpr| (i.text@, i.span))
}

/// Collect the identifier terms of an expression, in order.
fn collect_idents(e: &Expr, out: &mut Vec<IdentExpr>)
    ensures
        idrefs_view(final(out)@) == idrefs_view(old(out)@) + sp_idents(e@),
    decreases *e, 0int, 0int,
{
    match e {
        Expr::Ident(i) => {
            let ghost before = out@;
            out.push(IdentExpr { text: i.text.clone(), span: i.span });
            proof {
                assert(idrefs_view(out@) =~= idrefs_view(before) + seq![
                    (out@[before.len() as int].text@, out@[before.len() as int].span),
                ]);
            }
        },
        Expr::Not(n) => {
            collect_idents(&n.expr, out);
        },
        Expr::Any(a) => {
            collect_idents_list(&a.exprs, 0, out);
            proof {
                assert(exprs_view(a.exprs@).skip(0) =~= exprs_view(a.exprs@));
            }
        },
        Expr::All(a) => {
            collect_idents_list(&a.exprs, 0, out);
            proof {
                assert(exprs_view(a.exprs@).skip(0) =~= exprs_view(a.exprs@));
            }
        },
    }
}

/// Collect the identifier terms of `es[start..]`, in order.
fn collect_idents_list(es: &Vec<Expr>, start: usize, out: &mut Vec<IdentExpr>)
    requires
        start <= es@.len(),
    ensures
        idrefs_view(final(out)@) == idrefs_view(old(out)@) + sp_idents_list(
            exprs_view(es@).skip(start as int),
        ),
    decreases *es, es@.len() - start, 1int,
{
    broadcast use crate::expr::exprs_view_props;

    let ghost tail = exprs_view(es@).skip(start as int);
    if start >= es.len() {
        proof {
            assert(tail =~= Seq::<ExprV>::empty());
            assert(idrefs_view(out@) =~= idrefs_view(out@) + Seq::<(Seq<char>, u32)>::empty());
        }
        return ;
    }
    proof {
        assert(tail[0] == expr_view(es@[start as int]));
        assert(tail.drop_first() =~= exprs_view(es@).skip(start + 1));
    }
    collect_idents(&es[start], out);
    collect_idents_list(es, start + 1, out);
}

/// Collect the identifier terms referenced by the directives of the
/// attribute list at and after `start`.
fn collect_attr_refs(attrs: &Vec<Attr>, start: usize, out: &mut Vec<IdentExpr>)
    requires
        start <= attrs@.len(),
    ensures
        idrefs_view(final(out)@) == idrefs_view(old(out)@) + sp_attr_refs(
            attrs_view(attrs@).skip(start as int),
        ),
    decreases attrs@.len() - start,
{
    let ghost av = attrs_view(attrs@).skip(start as int);
    proof {
        assert(forall|k: int|
            0 <= k < attrs@.len() ==> attrs_view(attrs@)[k] == attrs@[k]@);
        if start < attrs@.len() {
            assert(av[0] == attrs@[start as int]@);
            assert(av.drop_first() =~= attrs_view(attrs@).skip(start + 1));
        } else {
            assert(av =~= Seq::<AttrV>::empty());
        }
    }
    if start >= attrs.len() {
        proof {
            assert(idrefs_view(out@) =~= idrefs_view(out@) + Seq::<(Seq<char>, u32)>::empty());
        }
        return ;
    }
    let a = &attrs[start];
    if path_is(&a.path, "substruct_attr") {
        match parse_directive(&a.args) {
            Ok((e, meta)) => {
                collect_idents(&e, out);
            },
            Err(_) => {},
        }
    }
    collect_attr_refs(attrs, start + 1, out);
}

/// Whether a name is a declared profile or one of the source's field
/// names.
fn valid_name(n: &String, map: &indexmap::IndexMap<String, Vec<u32>>, fields: &Vec<Field>) -> (r:
    bool)
    ensures
        r == sp_valid_name(n@, profile_entries(*map), sp_field_names(fields_view(fields@))),
{
    let ghost fnames = sp_field_names(fields_view(fields@));
    proof {
        assert(forall|k: int|
            0 <= k < fields@.len() ==> fnames[k] == fields_view(fields@)[k].name);
        assert(forall|k: int|
            0 <= k < fields@.len() ==> fields_view(fields@)[k] == fields@[k]@);
    }
    if pm_contains(map, n) {
        return true;
    }
    let m = fields.len();
    for k in 0..m
        invariant
            m == fields@.len(),
            fnames == sp_field_names(fields_view(fields@)),
            forall|x: int| 0 <= x < fields@.len() ==> fnames[x] == fields@[x]@.name,
            forall|x: int| 0 <= x < k ==> fnames[x] != Some(n@),
    {
        match &fields[k].name {
            Some(fname) => {
                if *fname == *n {
                    proof {
                        assert(fnames[k as int] == Some(n@));
                    }
                    return true;
                }
            },
            None => {},
        }
    }
    proof {
        if sp_valid_name(n@, profile_entries(*map), fnames) {
            let x = choose|x: int| 0 <= x < fnames.len() && #[trigger] fnames[x] == Some(n@);
            assert(false);
        }
    }
    false
}

/// Scan a reference list for the first undeclared name.
fn scan_refs(refs: &Vec<IdentExpr>, map: &indexmap::IndexMap<String, Vec<u32>>, fields: &Vec<Field>) -> (r:
    Result<(), Diag>)
    ensures
        (r is Ok ==> sp_first_unknown(
            idrefs_view(refs@),
            profile_entries(*map),
            sp_field_names(fields_view(fields@)),
        ) is None),
        (r matches Err(d) ==> ({
            &&& sp_first_unknown(
                idrefs_view(refs@),
                profile_entries(*map),
                sp_field_names(fields_view(fields@)),
            ) matches Some(u)
            &&& d@ == (DiagV { kind: DiagKind::UnknownProfile, span: u.1, name: Some(u.0) })
        })),
{
    let ghost fnames = sp_field_names(fields_view(fields@));
    let ghost all_refs = idrefs_view(refs@);
    let nr = refs.len();
    proof {
        assert(forall|y: int|
            0 <= y < refs@.len() ==> all_refs[y] == (refs@[y].text@, refs@[y].span));
        assert(all_refs.skip(0) =~= all_refs);
    }
    for x in 0..nr
        invariant
            nr == refs@.len(),
            all_refs == idrefs_view(refs@),
            fnames == sp_field_names(fields_view(fields@)),
            forall|y: int|
                0 <= y < refs@.len() ==> all_refs[y] == (refs@[y].text@, refs@[y].span),
            sp_first_unknown(all_refs, profile_entries(*map), fnames) == sp_first_unknown(
                all_refs.skip(x as int),
                profile_entries(*map),
                fnames,
            ),
    {
        let ghost pre = all_refs.skip(x as int);
        proof {
            assert(pre[0] == all_refs[x as int]);
            assert(pre.drop_first() =~= all_refs.skip(x + 1));
        }
        if !valid_name(&refs[x].text, map, fields) {
            let d = Diag::named(DiagKind::UnknownProfile, refs[x].span, refs[x].text.clone());
            proof {
                assert(pre[0] == (refs@[x as int].text@, refs@[x as int].span));
                assert(sp_first_unknown(all_refs, profile_entries(*map), fnames) == Some(pre[0]));
            }
            return Err(d);
        }
    }
    proof {
        assert(all_refs.skip(nr as int) =~= Seq::<(Seq<char>, u32)>::empty());
    }
    Ok(())
}

/// Validate every profile reference of the record and of every field
/// before anything is emitted: a reference to an undeclared name is fatal
/// and names the undeclared identifier and its position.
fn validate(
    rec_attrs: &Vec<Attr>,
    fields: &Vec<Field>,
    map: &indexmap::IndexMap<String, Vec<u32>>,
) -> (r: Result<(), Diag>)
    ensures
        (r is Ok ==> sp_validate_record(
            attrs_view(rec_attrs@),
            fields_view(fields@),
            profile_entries(*map),
            sp_field_names(fields_view(fields@)),
        ) is None),
        (r matches Err(d) ==> sp_validate_record(
            attrs_view(rec_attrs@),
            fields_view(fields@),
            profile_entries(*map),
            sp_field_names(fields_view(fields@)),
        ) == Some(d@)),
{
    let ghost fnames = sp_field_names(fields_view(fields@));
    let mut refs: Vec<IdentExpr> = Vec::new();
    proof {
        assert(idrefs_view(refs@) =~= Seq::<(Seq<char>, u32)>::empty());
        assert(attrs_view(rec_attrs@).skip(0) =~= attrs_view(rec_attrs@));
    }
    collect_attr_refs(rec_attrs, 0, &mut refs);
    proof {
        assert(idrefs_view(refs@) =~= sp_attr_refs(attrs_view(rec_attrs@)));
    }
    match scan_refs(&refs, map, fields) {
        Ok(()) => {},
        Err(d) => {
            return Err(d);
        },
    }
    proof {
        assert(fields_view(fields@).skip(0) =~= fields_view(fields@));
    }
    validate_from(fields, 0, map, Ghost(fnames))
}

/// Validate the fields at and after `start`.
fn validate_from(
    fields: &Vec<Field>,
    start: usize,
    map: &indexmap::IndexMap<String, Vec<u32>>,
    Ghost(fnames): Ghost<Seq<Option<Seq<char>>>>,
) -> (r: Result<(), Diag>)
    requires
        start <= fields@.len(),
        fnames == sp_field_names(fields_view(fields@)),
    ensures
        (r is Ok ==> sp_validate(
            fields_view(fields@).skip(start as int),
            profile_entries(*map),
            fnames,
        ) is None),
        (r matches Err(d) ==> sp_validate(
            fields_view(fields@).skip(start as int),
            profile_entries(*map),
            fnames,
        ) == Some(d@)),
    decreases fields@.len() - start,
{
    let ghost fv = fields_view(fields@).skip(start as int);
    proof {
        assert(forall|k: int|
            0 <= k < fields@.len() ==> fields_view(fields@)[k] == fields@[k]@);
        if start < fields@.len() {
            assert(fv[0] == fields@[start as int]@);
            assert(fv.drop_first() =~= fields_view(fields@).skip(start + 1));
        } else {
            assert(fv =~= Seq::<FieldV>::empty());
        }
    }
    if start >= fields.len() {
        return Ok(());
    }
    let f = &fields[start];
    let input = match find_subst(&f.attrs) {
        Err(d) => {
            return Err(d);
        },
        Ok(None) => SubstructInput { args: Vec::new() },
        Ok(Some(i)) => match parse_input(&f.attrs[i].args, 0) {
            Ok(si) => si,
            Err(d) => {
                return Err(d);
            },
        },
    };
    proof {
        assert(sp_field_input(fv[0]) == Ok::<Seq<ArgV>, DiagV>(args_view(input.args@))) by {
            assert(args_view(Seq::<SubstructInputArg>::empty()) =~= Seq::<ArgV>::empty());
        }
    }
    let mut refs: Vec<IdentExpr> = Vec::new();
    let na = input.args.len();
    proof {
        assert(idrefs_view(refs@) =~= Seq::<(Seq<char>, u32)>::empty());
        assert(args_view(input.args@).skip(0) =~= args_view(input.args@));
    }
    for a in 0..na
        invariant
            na == input.args@.len(),
            idrefs_view(refs@) + sp_arg_refs(args_view(input.args@).skip(a as int)) =~= sp_arg_refs(
                args_view(input.args@),
            ),
    {
        let ghost pre = args_view(input.args@).skip(a as int);
        proof {
            assert(pre[0] == args_view(input.args@)[a as int]);
            assert(args_view(input.args@)[a as int] == input.args@[a as int]@);
            assert(pre.drop_first() =~= args_view(input.args@).skip(a + 1));
        }
        collect_idents(&input.args[a].expr, &mut refs);
    }
    proof {
        assert(sp_arg_refs(args_view(input.args@).skip(na as int)) =~= Seq::<
            (Seq<char>, u32),
        >::empty());
        assert(idrefs_view(refs@) =~= sp_arg_refs(args_view(input.args@)));
        assert(attrs_view(f.attrs@).skip(0) =~= attrs_view(f.attrs@));
    }
    collect_attr_refs(&f.attrs, 0, &mut refs);
    let ghost all_refs = idrefs_view(refs@);
    proof {
        assert(all_refs =~= sp_arg_refs(args_view(input.args@)) + sp_attr_refs(fv[0].attrs));
    }
    match scan_refs(&refs, map, fields) {
        Ok(()) => {},
        Err(d) => {
            proof {
                assert(sp_validate(fv, profile_entries(*map), fnames) == Some(d@));
            }
            return Err(d);
        },
    }
    validate_from(fields, start + 1, map, Ghost(fnames))
}

/// The field list of a source record; empty for a unit record.
pub open spec fn sp_source_fields(data: SourceData) -> Seq<FieldV> {
    match data {
        SourceData::Struct(shape) => match shape {
            Shape::Unit => Seq::empty(),
            Shape::Named(fs) => fields_view(fs@),
            Shape::Positional(fs) => fields_view(fs@),
        },
        _ => Seq::empty(),
    }
}

/// Run one whole expansion: parse the top-level profile arguments, reject
/// unsupported source shapes, validate every profile reference, then emit
/// one record per declared profile in declaration order with conversions
/// for every derived non-unit profile. Fatal diagnostics abort the whole
/// expansion; non-fatal ones ride along in the result.
pub fn expand(record: Record, attr_tokens: &Vec<Tok>) -> (r: Result<Expansion, Diag>)
    ensures
        (r matches Ok(x) ==> ({
            &&& record.data is Struct
            &&& sp_input(toks_view(attr_tokens@), 0) matches Ok(args)
            &&& sp_all_profiles(args, record.name@) matches Ok(es)
            &&& sp_validate_record(
                attrs_view(record.attrs@),
                sp_source_fields(record.data),
                es,
                sp_field_names(sp_source_fields(record.data)),
            ) is None
            &&& x.items@.len() == es.len()
            &&& forall|p: int|
                0 <= p < es.len() ==> sp_item_ok(#[trigger] x.items@[p], record, es[p].0, es[p].1)
            &&& sp_emit(es, record) == Ok::<Seq<DiagV>, DiagV>(diags_view(x.diags@))
            &&& forall|j: int|
                0 <= j < x.diags@.len() ==> (#[trigger] x.diags@[j])@.kind
                    == DiagKind::MalformedDirective
        })),
        (!(record.data is Struct) ==> ({
            &&& r matches Err(d)
            &&& d@ == (DiagV {
                kind: DiagKind::UnsupportedShape,
                span: sp_shape_span(record.data),
                name: None,
            })
        })),
        (r matches Err(d) ==> (record.data is Struct ==> ({
            ||| sp_input(toks_view(attr_tokens@), 0) == Err::<Seq<ArgV>, DiagV>(d@)
            ||| (sp_input(toks_view(attr_tokens@), 0) matches Ok(args) && sp_all_profiles(
                args,
                record.name@,
            ) == Err::<Seq<(Seq<char>, Seq<u32>)>, DiagV>(d@))
            ||| (sp_input(toks_view(attr_tokens@), 0) matches Ok(args) && sp_all_profiles(
                args,
                record.name@,
            ) matches Ok(es) && sp_validate_record(
                attrs_view(record.attrs@),
                sp_source_fields(record.data),
                es,
                sp_field_names(sp_source_fields(record.data)),
            ) == Some(d@))
        }))),
        (sp_input(toks_view(attr_tokens@), 0) matches Ok(args) ==> (record.data is Struct ==> (
        sp_all_profiles(args, record.name@) matches Ok(es) ==> (sp_validate_record(
            attrs_view(record.attrs@),
            sp_source_fields(record.data),
            es,
            sp_field_names(sp_source_fields(record.data)),
        ) is None ==> r is Ok)))),
{
    match &record.data {
        SourceData::Enum { span } => {
            return Err(Diag::new(DiagKind::UnsupportedShape, *span));
        },
        SourceData::Union { span } => {
            return Err(Diag::new(DiagKind::UnsupportedShape, *span));
        },
        SourceData::Struct(_) => {},
    }
    let input = match parse_input(attr_tokens, 0) {
        Ok(si) => si,
        Err(d) => {
            return Err(d);
        },
    };
    let emitter = match Emitter::from_input(record, input) {
        Ok(em) => em,
        Err(d) => {
            return Err(d);
        },
    };
    let empty_fields: Vec<Field> = Vec::new();
    let checked = match &emitter.input.data {
        SourceData::Struct(shape) => match shape {
            Shape::Unit => {
                proof {
                    assert(fields_view(empty_fields@) =~= Seq::<FieldV>::empty());
                    assert(sp_source_fields(emitter.input.data) =~= Seq::<FieldV>::empty());
                }
                validate(&emitter.input.attrs, &empty_fields, &emitter.args)
            },
            Shape::Named(fs) => validate(&emitter.input.attrs, fs, &emitter.args),
            Shape::Positional(fs) => validate(&emitter.input.attrs, fs, &emitter.args),
        },
        _ => {
            return unreached();
        },
    };
    match checked {
        Ok(()) => {},
        Err(d) => {
            return Err(d);
        },
    }
    proof {
        let es = profile_entries(emitter.args);
        let fs = sp_source_fields(emitter.input.data);
        lemma_validate_inputs(fs, es, sp_field_names(fs));
        lemma_emit_ok(es, emitter.input);
    }
    emitter.emit()
}

/// An identical copy of a token.
fn clone_tok(t: &Tok) -> (r: Tok)
    ensures
        r@ == t@,
{
    match t {
        Tok::Ident { text, span } => Tok::Ident { text: text.clone(), span: *span },
        Tok::LParen { span } => Tok::LParen { span: *span },
        Tok::RParen { span } => Tok::RParen { span: *span },
        Tok::Comma { span } => Tok::Comma { span: *span },
        Tok::AttrTok { path, payload, span } => Tok::AttrTok {
            path: path.clone(),
            payload: *payload,
            span: *span,
        },
        Tok::Other { payload, span } => Tok::Other { payload: *payload, span: *span },
    }
}

} // verus!
