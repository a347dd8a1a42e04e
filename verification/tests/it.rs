use substruct::convert::narrow;
use substruct::expr::Tok;
use substruct::schema::{Attr, Field, Record, Shape, SourceData};
use substruct::substruct::expand;

fn membership(profile: &str, span: u32) -> Attr {
    Attr {
        path: "substruct".to_string(),
        args: vec![Tok::Ident {
            text: profile.to_string(),
            span,
        }],
        payload: 0,
        span,
    }
}

#[test]
fn test_convert_tuple() {
    // struct A(pub i32, #[substruct(B)] pub i64);
    let attr_tokens = vec![Tok::Ident {
        text: "B".to_string(),
        span: 1,
    }];
    let record = Record {
        name: "A".to_string(),
        name_span: 0,
        generics: 0,
        attrs: Vec::new(),
        data: SourceData::Struct(Shape::Positional(vec![
            Field {
                name: None,
                ty: 1,
                attrs: Vec::new(),
                span: 2,
            },
            Field {
                name: None,
                ty: 2,
                attrs: vec![membership("B", 3)],
                span: 4,
            },
        ])),
    };
    let x = match expand(record, &attr_tokens) {
        Ok(x) => x,
        Err(_) => panic!("expansion failed"),
    };
    let plan = match &x.items[0].conversions {
        Some(p) => p,
        None => panic!("no conversions for B"),
    };
    let b = vec![32i64];
    let a = narrow(plan, &b, &vec![5i64]);
    assert!(matches!(a[..], [5, 32]));
}

#[test]
fn test_convert_normal() {
    // struct A { #[substruct(B)] pub field1: i32, pub field2: u32 }
    let attr_tokens = vec![Tok::Ident {
        text: "B".to_string(),
        span: 1,
    }];
    let record = Record {
        name: "A".to_string(),
        name_span: 0,
        generics: 0,
        attrs: Vec::new(),
        data: SourceData::Struct(Shape::Named(vec![
            Field {
                name: Some("field1".to_string()),
                ty: 1,
                attrs: vec![membership("B", 2)],
                span: 2,
            },
            Field {
                name: Some("field2".to_string()),
                ty: 2,
                attrs: Vec::new(),
                span: 3,
            },
        ])),
    };
    let x = match expand(record, &attr_tokens) {
        Ok(x) => x,
        Err(_) => panic!("expansion failed"),
    };
    let plan = match &x.items[0].conversions {
        Some(p) => p,
        None => panic!("no conversions for B"),
    };
    let b = vec![1i64];
    let a = narrow(plan, &b, &vec![7i64]);
    assert!(matches!(a[..], [1, 7]));
}
