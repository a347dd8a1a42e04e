use substruct::convert::narrow;
use substruct::expr::Tok;
use substruct::schema::{Attr, Field, Record, Shape, SourceData};
use substruct::substruct::expand;

/// `struct A(pub i32, #[substruct(B)] pub i64);` under `#[substruct(B)]`.
fn tuple_record() -> (Record, Vec<Tok>) {
    let attr_tokens = vec![Tok::Ident { text: "B".to_string(), span: 1 }];
    let record = Record {
        name: "A".to_string(),
        name_span: 0,
        generics: 0,
        attrs: Vec::new(),
        data: SourceData::Struct(Shape::Positional(vec![
            Field {
                name: None,
                ty: 1,
                attrs: Vec::new(),
                span: 2,
            },
            Field {
                name: None,
                ty: 2,
                attrs: vec![Attr {
                    path: "substruct".to_string(),
                    args: vec![Tok::Ident {
                        text: "B".to_string(),
                        span: 3,
                    }],
                    payload: 7,
                    span: 3,
                }],
                span: 4,
            },
        ])),
    };
    (record, attr_tokens)
}

#[test]
fn test_convert() {
    let (record, attr_tokens) = tuple_record();
    let x = match expand(record, &attr_tokens) {
        Ok(x) => x,
        Err(_) => panic!("expansion failed"),
    };
    assert_eq!(x.items.len(), 2);
    assert_eq!(x.items[0].record.name, "B");
    assert_eq!(x.items[1].record.name, "A");
    let plan = match &x.items[0].conversions {
        Some(p) => p,
        None => panic!("no conversions for B"),
    };
    assert_eq!(plan.method, "into_a");
    let b = vec![32i64];
    let a = narrow(plan, &b, &vec![5i64]);
    assert!(matches!(a[..], [5, 32]));
}
