use substruct::convert::{narrow, widen};
use substruct::diag::DiagKind;
use substruct::expr::{AllExpr, AnyExpr, Expr, IdentExpr, NotExpr, Tok};
use substruct::parse::parse_expr;
use substruct::schema::{Attr, AttrOut, Field, Record, Shape, SourceData};
use substruct::substruct::expand;

fn ident(text: &str, span: u32) -> Tok {
    Tok::Ident {
        text: text.to_string(),
        span,
    }
}

fn ident_expr(text: &str) -> Expr {
    Expr::Ident(IdentExpr {
        text: text.to_string(),
        span: 0,
    })
}

fn membership_tokens(args: Vec<Tok>, span: u32) -> Attr {
    Attr {
        path: "substruct".to_string(),
        args,
        payload: 0,
        span,
    }
}

fn expand_ok(record: Record, attr_tokens: Vec<Tok>) -> substruct::substruct::Expansion {
    match expand(record, &attr_tokens) {
        Ok(x) => x,
        Err(_) => panic!("expansion failed"),
    }
}

#[test]
fn evaluate_negation() {
    let e = Expr::Not(NotExpr {
        span: 0,
        expr: Box::new(ident_expr("B")),
    });
    assert!(!e.evaluate(&"B".to_string()));
    assert!(e.evaluate(&"A".to_string()));
}

#[test]
fn evaluate_any_all() {
    let any = Expr::Any(AnyExpr {
        span: 0,
        exprs: vec![ident_expr("A"), ident_expr("B")],
    });
    assert!(any.evaluate(&"B".to_string()));
    assert!(!any.evaluate(&"C".to_string()));
    let all = Expr::All(AllExpr {
        span: 0,
        exprs: vec![ident_expr("A"), ident_expr("B")],
    });
    assert!(!all.evaluate(&"A".to_string()));
    assert!(!all.evaluate(&"C".to_string()));
}

#[test]
fn evaluate_empty_lists() {
    let any = Expr::Any(AnyExpr {
        span: 0,
        exprs: Vec::new(),
    });
    let all = Expr::All(AllExpr {
        span: 0,
        exprs: Vec::new(),
    });
    assert!(!any.evaluate(&"A".to_string()));
    assert!(all.evaluate(&"A".to_string()));
}

#[test]
fn parse_then_reserialize_preserves_evaluation() {
    // any(a, not(b), all(c, d))
    let ts = vec![
        ident("any", 1),
        Tok::LParen { span: 1 },
        ident("a", 2),
        Tok::Comma { span: 3 },
        ident("not", 4),
        Tok::LParen { span: 4 },
        ident("b", 5),
        Tok::RParen { span: 4 },
        Tok::Comma { span: 6 },
        ident("all", 7),
        Tok::LParen { span: 7 },
        ident("c", 8),
        Tok::Comma { span: 9 },
        ident("d", 10),
        Tok::RParen { span: 7 },
        Tok::RParen { span: 1 },
    ];
    let (e, used) = match parse_expr(&ts, 0) {
        Ok(p) => p,
        Err(_) => panic!("parse failed"),
    };
    assert_eq!(used, ts.len());
    let mut out: Vec<Tok> = Vec::new();
    e.to_tokens(&mut out);
    let (e2, used2) = match parse_expr(&out, 0) {
        Ok(p) => p,
        Err(_) => panic!("reparse failed"),
    };
    assert_eq!(used2, out.len());
    for c in ["a", "b", "c", "d", "e"] {
        let cand = c.to_string();
        assert_eq!(e.evaluate(&cand), e2.evaluate(&cand));
    }
}

#[test]
fn parse_rejects_unknown_operator() {
    // foo(a)
    let ts = vec![
        ident("foo", 9),
        Tok::LParen { span: 9 },
        ident("a", 10),
        Tok::RParen { span: 9 },
    ];
    match parse_expr(&ts, 0) {
        Ok(_) => panic!("parse should fail"),
        Err(d) => {
            assert!(matches!(d.kind, DiagKind::UnexpectedOperator));
            assert_eq!(d.span, 9);
            assert_eq!(d.name, Some("foo".to_string()));
        }
    }
}

#[test]
fn parse_rejects_missing_comma() {
    // any(a b)
    let ts = vec![
        ident("any", 1),
        Tok::LParen { span: 1 },
        ident("a", 2),
        ident("b", 3),
        Tok::RParen { span: 1 },
    ];
    match parse_expr(&ts, 0) {
        Ok(_) => panic!("parse should fail"),
        Err(d) => {
            assert!(matches!(d.kind, DiagKind::ExpectedComma));
            assert_eq!(d.span, 3);
        }
    }
}

/// Named fields `a` (in subset `S`) and `b` (not in `S`): `S` has only
/// `a`; narrowing takes `b`'s value and returns the full record; widening
/// drops `b`.
#[test]
fn scenario_named_subset() {
    let record = Record {
        name: "R".to_string(),
        name_span: 0,
        generics: 0,
        attrs: Vec::new(),
        data: SourceData::Struct(Shape::Named(vec![
            Field {
                name: Some("a".to_string()),
                ty: 1,
                attrs: vec![membership_tokens(vec![ident("S", 2)], 2)],
                span: 2,
            },
            Field {
                name: Some("b".to_string()),
                ty: 2,
                attrs: Vec::new(),
                span: 3,
            },
        ])),
    };
    let x = expand_ok(record, vec![ident("S", 1)]);
    assert_eq!(x.items[0].record.name, "S");
    assert_eq!(x.items[0].record.fields.len(), 1);
    assert_eq!(x.items[0].record.fields[0].name, Some("a".to_string()));
    let plan = x.items[0].conversions.as_ref().unwrap();
    assert_eq!(plan.dropped.len(), 1);
    assert_eq!(plan.dropped[0].arg_name, "b");
    assert!(!plan.full_reverse);
    let full = narrow(plan, &vec![10i64], &vec![20i64]);
    assert!(matches!(full[..], [10, 20]));
    let sub = widen(plan, &full);
    assert!(matches!(sub[..], [10]));
}

/// Positional fields 0 and 1 both in `S`: `S` field 0 maps to old 0, the
/// excluded set is empty, and the conversions are mutual.
#[test]
fn scenario_positional_full() {
    let record = Record {
        name: "R".to_string(),
        name_span: 0,
        generics: 0,
        attrs: Vec::new(),
        data: SourceData::Struct(Shape::Positional(vec![
            Field {
                name: None,
                ty: 1,
                attrs: vec![membership_tokens(vec![ident("S", 2)], 2)],
                span: 2,
            },
            Field {
                name: None,
                ty: 2,
                attrs: vec![membership_tokens(vec![ident("S", 3)], 3)],
                span: 3,
            },
        ])),
    };
    let x = expand_ok(record, vec![ident("S", 1)]);
    let plan = x.items[0].conversions.as_ref().unwrap();
    assert!(plan.full_reverse);
    assert_eq!(plan.dropped.len(), 0);
    assert_eq!(plan.kept.len(), 2);
    assert_eq!(plan.kept[0].src_index, 0);
    assert_eq!(plan.kept[0].dst_index, 0);
    let src = vec![4i64, 9i64];
    let sub = widen(plan, &src);
    let back = narrow(plan, &sub, &Vec::new());
    assert_eq!(back, src);
}

/// A field carrying `not(B)` against candidates A (the source), B, C: the
/// field stands in A and C and is excluded from B.
#[test]
fn scenario_negated_membership() {
    let record = Record {
        name: "A".to_string(),
        name_span: 0,
        generics: 0,
        attrs: Vec::new(),
        data: SourceData::Struct(Shape::Named(vec![Field {
            name: Some("f1".to_string()),
            ty: 1,
            attrs: vec![membership_tokens(
                vec![
                    ident("not", 5),
                    Tok::LParen { span: 5 },
                    ident("B", 6),
                    Tok::RParen { span: 5 },
                ],
                5,
            )],
            span: 4,
        }])),
    };
    let x = expand_ok(record, vec![ident("B", 1), Tok::Comma { span: 1 }, ident("C", 2)]);
    assert_eq!(x.items.len(), 3);
    assert_eq!(x.items[0].record.name, "B");
    assert_eq!(x.items[0].record.fields.len(), 0);
    assert_eq!(x.items[1].record.name, "C");
    assert_eq!(x.items[1].record.fields.len(), 1);
    assert_eq!(x.items[2].record.name, "A");
    assert_eq!(x.items[2].record.fields.len(), 1);
}

/// Doc overrides `[(any(C,D,F), doc1), (B, doc2)]` evaluated against `D`
/// select doc1: first-match-wins, not most-specific-wins.
#[test]
fn scenario_doc_override_first_match() {
    let doc1: u32 = 101;
    let doc2: u32 = 102;
    let args = vec![
        Tok::AttrTok {
            path: "doc".to_string(),
            payload: doc1,
            span: 2,
        },
        ident("any", 3),
        Tok::LParen { span: 3 },
        ident("C", 4),
        Tok::Comma { span: 4 },
        ident("D", 5),
        Tok::Comma { span: 5 },
        ident("F", 6),
        Tok::RParen { span: 3 },
        Tok::Comma { span: 6 },
        Tok::AttrTok {
            path: "doc".to_string(),
            payload: doc2,
            span: 7,
        },
        ident("B", 8),
    ];
    let record = Record {
        name: "A".to_string(),
        name_span: 0,
        generics: 0,
        attrs: Vec::new(),
        data: SourceData::Struct(Shape::Named(vec![Field {
            name: Some("f1".to_string()),
            ty: 1,
            attrs: vec![membership_tokens(args, 2)],
            span: 2,
        }])),
    };
    let x = expand_ok(
        record,
        vec![
            ident("B", 1),
            Tok::Comma { span: 1 },
            ident("C", 1),
            Tok::Comma { span: 1 },
            ident("D", 1),
            Tok::Comma { span: 1 },
            ident("F", 1),
        ],
    );
    // Profiles stand in declaration order: B, C, D, F, then the source A.
    let d_item = &x.items[2];
    assert_eq!(d_item.record.name, "D");
    assert_eq!(d_item.record.fields.len(), 1);
    let attrs = &d_item.record.fields[0].attrs;
    assert_eq!(attrs.len(), 1);
    assert!(matches!(
        attrs[0],
        AttrOut::Keep {
            payload: 101,
            is_doc: true
        }
    ));
    // Against B, the second pair wins.
    let b_item = &x.items[0];
    assert_eq!(b_item.record.name, "B");
    assert!(matches!(
        b_item.record.fields[0].attrs[0],
        AttrOut::Keep {
            payload: 102,
            is_doc: true
        }
    ));
}

/// An undeclared profile reference is fatal and names the identifier.
#[test]
fn unknown_profile_is_fatal() {
    let record = Record {
        name: "A".to_string(),
        name_span: 0,
        generics: 0,
        attrs: Vec::new(),
        data: SourceData::Struct(Shape::Named(vec![Field {
            name: Some("f1".to_string()),
            ty: 1,
            attrs: vec![membership_tokens(vec![ident("C", 9)], 9)],
            span: 2,
        }])),
    };
    match expand(record, &vec![ident("B", 1)]) {
        Ok(_) => panic!("expansion should fail"),
        Err(d) => {
            assert!(matches!(d.kind, DiagKind::UnknownProfile));
            assert_eq!(d.name, Some("C".to_string()));
            assert_eq!(d.span, 9);
        }
    }
}

#[test]
fn enum_source_is_rejected() {
    let record = Record {
        name: "A".to_string(),
        name_span: 0,
        generics: 0,
        attrs: Vec::new(),
        data: SourceData::Enum { span: 17 },
    };
    match expand(record, &vec![ident("B", 1)]) {
        Ok(_) => panic!("expansion should fail"),
        Err(d) => {
            assert!(matches!(d.kind, DiagKind::UnsupportedShape));
            assert_eq!(d.span, 17);
        }
    }
}

#[test]
fn struct_level_expression_is_rejected() {
    let record = Record {
        name: "A".to_string(),
        name_span: 0,
        generics: 0,
        attrs: Vec::new(),
        data: SourceData::Struct(Shape::Unit),
    };
    let attr_tokens = vec![
        ident("not", 3),
        Tok::LParen { span: 3 },
        ident("B", 4),
        Tok::RParen { span: 3 },
    ];
    match expand(record, &attr_tokens) {
        Ok(_) => panic!("expansion should fail"),
        Err(d) => {
            assert!(matches!(d.kind, DiagKind::StructLevelExpr));
            assert_eq!(d.span, 3);
        }
    }
}

/// A malformed conditional-attribute directive is non-fatal: the record is
/// still emitted without that directive, and one diagnostic rides along.
#[test]
fn malformed_directive_is_non_fatal() {
    let record = Record {
        name: "A".to_string(),
        name_span: 0,
        generics: 0,
        attrs: vec![Attr {
            path: "substruct_attr".to_string(),
            args: vec![ident("B", 5)],
            payload: 3,
            span: 5,
        }],
        data: SourceData::Struct(Shape::Unit),
    };
    let x = expand_ok(record, vec![ident("B", 1)]);
    assert_eq!(x.items.len(), 2);
    assert_eq!(x.items[0].record.attrs.len(), 0);
    assert!(!x.diags.is_empty());
    assert!(matches!(x.diags[0].kind, DiagKind::MalformedDirective));
}

/// A resolved directive keeps its payload exactly on the profiles its
/// expression accepts.
#[test]
fn directive_resolves_per_profile() {
    let record = Record {
        name: "A".to_string(),
        name_span: 0,
        generics: 0,
        attrs: vec![Attr {
            path: "substruct_attr".to_string(),
            args: vec![
                ident("B", 5),
                Tok::Comma { span: 5 },
                Tok::Other { payload: 77, span: 6 },
            ],
            payload: 3,
            span: 5,
        }],
        data: SourceData::Struct(Shape::Unit),
    };
    let x = expand_ok(record, vec![ident("B", 1)]);
    assert_eq!(x.items[0].record.name, "B");
    assert_eq!(x.items[0].record.attrs.len(), 1);
    assert!(matches!(&x.items[0].record.attrs[0], AttrOut::Meta { meta } if meta.len() == 1));
    assert_eq!(x.items[1].record.name, "A");
    assert_eq!(x.items[1].record.attrs.len(), 0);
    assert!(x.diags.is_empty());
}

/// Duplicate profile declarations collapse to one, keeping first position.
#[test]
fn duplicate_profiles_are_deduplicated() {
    let record = Record {
        name: "A".to_string(),
        name_span: 0,
        generics: 0,
        attrs: Vec::new(),
        data: SourceData::Struct(Shape::Unit),
    };
    let x = expand_ok(
        record,
        vec![ident("B", 1), Tok::Comma { span: 1 }, ident("B", 2)],
    );
    assert_eq!(x.items.len(), 2);
    assert_eq!(x.items[0].record.name, "B");
    assert_eq!(x.items[1].record.name, "A");
}

/// The narrowing method's name is a fixed casing function of the source
/// name, identical across subsets.
#[test]
fn method_name_is_snake_cased() {
    let record = Record {
        name: "BigKahuna".to_string(),
        name_span: 0,
        generics: 0,
        attrs: Vec::new(),
        data: SourceData::Struct(Shape::Named(vec![Field {
            name: Some("name".to_string()),
            ty: 1,
            attrs: vec![membership_tokens(vec![ident("SmallKahuna", 2)], 2)],
            span: 2,
        }])),
    };
    let x = expand_ok(record, vec![ident("SmallKahuna", 1)]);
    let plan = x.items[0].conversions.as_ref().unwrap();
    assert_eq!(plan.method, "into_big_kahuna");
}

/// Excluded positional fields get `arg` names carrying their original
/// positions, in decimal.
#[test]
fn positional_arg_names_are_decimal() {
    let mut fields: Vec<Field> = Vec::new();
    for i in 0..11 {
        let attrs = if i == 3 {
            vec![membership_tokens(vec![ident("S", 2)], 2)]
        } else {
            Vec::new()
        };
        fields.push(Field {
            name: None,
            ty: i as u32,
            attrs,
            span: 2,
        });
    }
    let record = Record {
        name: "A".to_string(),
        name_span: 0,
        generics: 0,
        attrs: Vec::new(),
        data: SourceData::Struct(Shape::Positional(fields)),
    };
    let x = expand_ok(record, vec![ident("S", 1)]);
    let plan = x.items[0].conversions.as_ref().unwrap();
    assert_eq!(plan.kept.len(), 1);
    assert_eq!(plan.kept[0].dst_index, 3);
    assert_eq!(plan.dropped.len(), 10);
    assert_eq!(plan.dropped[0].arg_name, "arg0");
    assert_eq!(plan.dropped[9].arg_name, "arg10");
}

#[test]
fn parse_rejects_non_identifier() {
    let ts = vec![Tok::Comma { span: 4 }];
    match parse_expr(&ts, 0) {
        Ok(_) => panic!("parse should fail"),
        Err(d) => {
            assert!(matches!(d.kind, DiagKind::ExpectedIdent));
            assert_eq!(d.span, 4);
        }
    }
}

#[test]
fn parse_rejects_unclosed_negation() {
    // not(a b)
    let ts = vec![
        ident("not", 1),
        Tok::LParen { span: 1 },
        ident("a", 2),
        ident("b", 3),
        Tok::RParen { span: 1 },
    ];
    match parse_expr(&ts, 0) {
        Ok(_) => panic!("parse should fail"),
        Err(d) => {
            assert!(matches!(d.kind, DiagKind::UnexpectedToken));
            assert_eq!(d.span, 3);
        }
    }
}

#[test]
fn parse_rejects_early_end() {
    // any(
    let ts = vec![ident("any", 1), Tok::LParen { span: 2 }];
    match parse_expr(&ts, 0) {
        Ok(_) => panic!("parse should fail"),
        Err(d) => {
            assert!(matches!(d.kind, DiagKind::UnexpectedEnd));
            assert_eq!(d.span, 2);
        }
    }
}

#[test]
fn non_doc_attribute_in_arguments_is_fatal() {
    let record = Record {
        name: "A".to_string(),
        name_span: 0,
        generics: 0,
        attrs: Vec::new(),
        data: SourceData::Struct(Shape::Named(vec![Field {
            name: Some("f1".to_string()),
            ty: 1,
            attrs: vec![membership_tokens(
                vec![
                    Tok::AttrTok {
                        path: "serde".to_string(),
                        payload: 9,
                        span: 6,
                    },
                    ident("B", 7),
                ],
                6,
            )],
            span: 2,
        }])),
    };
    match expand(record, &vec![ident("B", 1)]) {
        Ok(_) => panic!("expansion should fail"),
        Err(d) => {
            assert!(matches!(d.kind, DiagKind::NonDocAttr));
            assert_eq!(d.span, 6);
        }
    }
}

#[test]
fn second_membership_attribute_is_fatal() {
    let record = Record {
        name: "A".to_string(),
        name_span: 0,
        generics: 0,
        attrs: Vec::new(),
        data: SourceData::Struct(Shape::Named(vec![Field {
            name: Some("f1".to_string()),
            ty: 1,
            attrs: vec![
                membership_tokens(vec![ident("B", 2)], 2),
                membership_tokens(vec![ident("B", 8)], 8),
            ],
            span: 2,
        }])),
    };
    match expand(record, &vec![ident("B", 1)]) {
        Ok(_) => panic!("expansion should fail"),
        Err(d) => {
            assert!(matches!(d.kind, DiagKind::MultipleMembershipAttrs));
            assert_eq!(d.span, 8);
        }
    }
}

/// A field with no membership attribute survives only on its declaring
/// record.
#[test]
fn bare_field_survives_only_on_source() {
    let record = Record {
        name: "A".to_string(),
        name_span: 0,
        generics: 0,
        attrs: Vec::new(),
        data: SourceData::Struct(Shape::Named(vec![Field {
            name: Some("f1".to_string()),
            ty: 1,
            attrs: Vec::new(),
            span: 2,
        }])),
    };
    let x = expand_ok(record, vec![ident("B", 1)]);
    assert_eq!(x.items[0].record.name, "B");
    assert_eq!(x.items[0].record.fields.len(), 0);
    assert_eq!(x.items[1].record.name, "A");
    assert_eq!(x.items[1].record.fields.len(), 1);
}

/// A directive expression referencing an undeclared profile is fatal.
#[test]
fn unknown_profile_in_directive_is_fatal() {
    let record = Record {
        name: "A".to_string(),
        name_span: 0,
        generics: 0,
        attrs: vec![Attr {
            path: "substruct_attr".to_string(),
            args: vec![
                ident("Z", 5),
                Tok::Comma { span: 5 },
                Tok::Other { payload: 77, span: 6 },
            ],
            payload: 3,
            span: 5,
        }],
        data: SourceData::Struct(Shape::Unit),
    };
    match expand(record, &vec![ident("B", 1)]) {
        Ok(_) => panic!("expansion should fail"),
        Err(d) => {
            assert!(matches!(d.kind, DiagKind::UnknownProfile));
            assert_eq!(d.name, Some("Z".to_string()));
            assert_eq!(d.span, 5);
        }
    }
}
