//! The abstract schema model: records, fields and attributes as the
//! adapter hands them over, and the derived records, rewritten attributes
//! and conversion plans handed back. Types, generics, attribute payloads
//! and documentation lines are opaque handles into the adapter's side
//! tables; names and positions are plain values the engine reasons about.
use vstd::prelude::*;

use crate::expr::{Tok, TokV};

verus! {

/// One attribute on a record or a field: its path written as one string,
/// its argument tokens, and an opaque handle to the whole attribute for
/// carrying it through unchanged.
pub struct Attr {
    pub path: String,
    pub args: Vec<Tok>,
    pub payload: u32,
    pub span: u32,
}

/// Mathematical image of an attribute.
pub struct AttrV {
    pub path: Seq<char>,
    pub args: Seq<TokV>,
    pub payload: u32,
    pub span: u32,
}

impl View for Attr {
    type V = AttrV;

    open spec fn view(&self) -> AttrV {
        AttrV {
            path: self.path@,
            args: self.args@.map_values(|t: Tok| t@),
            payload: self.payload,
            span: self.span,
        }
    }
}

/// One field of the source record. A named field carries its identifier;
/// a positional field carries none and is addressed by its position.
pub struct Field {
    pub name: Option<String>,
    pub ty: u32,
    pub attrs: Vec<Attr>,
    pub span: u32,
}

/// Mathematical image of a field.
pub struct FieldV {
    pub name: Option<Seq<char>>,
    pub ty: u32,
    pub attrs: Seq<AttrV>,
    pub span: u32,
}

impl View for Field {
    type V = FieldV;

    open spec fn view(&self) -> FieldV {
        FieldV {
            name: match self.name {
                Some(n) => Some(n@),
                None => None,
            },
            ty: self.ty,
            attrs: self.attrs@.map_values(|a: Attr| a@),
            span: self.span,
        }
    }
}

/// The shape of the source record: no fields, named fields, or positional
/// fields.
pub enum Shape {
    Unit,
    Named(Vec<Field>),
    Positional(Vec<Field>),
}

/// What the source definition is. Sum types and unions are carried only
/// far enough to be rejected.
pub enum SourceData {
    Struct(Shape),
    Enum { span: u32 },
    Union { span: u32 },
}

/// The source record definition.
pub struct Record {
    pub name: String,
    pub name_span: u32,
    pub generics: u32,
    pub attrs: Vec<Attr>,
    pub data: SourceData,
}

/// An attribute of an emitted record or field: either one of the source's
/// attributes carried through by handle, or the payload of a resolved
/// conditional-attribute directive, written out as its tokens.
pub enum AttrOut {
    Keep { payload: u32, is_doc: bool },
    Meta { meta: Vec<Tok> },
}

/// Mathematical image of an emitted attribute.
pub enum AttrOutV {
    Keep { payload: u32, is_doc: bool },
    Meta { meta: Seq<TokV> },
}

impl View for AttrOut {
    type V = AttrOutV;

    open spec fn view(&self) -> AttrOutV {
        match self {
            AttrOut::Keep { payload, is_doc } => AttrOutV::Keep {
                payload: *payload,
                is_doc: *is_doc,
            },
            AttrOut::Meta { meta } => AttrOutV::Meta {
                meta: meta@.map_values(|t: Tok| t@),
            },
        }
    }
}

/// One field of an emitted record.
pub struct FieldOut {
    pub name: Option<String>,
    pub ty: u32,
    pub attrs: Vec<AttrOut>,
    pub span: u32,
}

/// Mathematical image of an emitted field.
pub struct FieldOutV {
    pub name: Option<Seq<char>>,
    pub ty: u32,
    pub attrs: Seq<AttrOutV>,
    pub span: u32,
}

impl View for FieldOut {
    type V = FieldOutV;

    open spec fn view(&self) -> FieldOutV {
        FieldOutV {
            name: match self.name {
                Some(n) => Some(n@),
                None => None,
            },
            ty: self.ty,
            attrs: self.attrs@.map_values(|a: AttrOut| a@),
            span: self.span,
        }
    }
}

/// An emitted record: the source renamed to one profile, with its
/// surviving fields.
pub struct RecordOut {
    pub name: String,
    pub generics: u32,
    pub attrs: Vec<AttrOut>,
    pub unit: bool,
    pub named: bool,
    pub fields: Vec<FieldOut>,
}

/// One surviving field in a conversion plan: where it stands in the source
/// (`dst_index`, and its name when named) and where it stands in the
/// subset after dense renumbering (`src_index`).
pub struct KeptField {
    pub name: Option<String>,
    pub dst_index: usize,
    pub src_index: usize,
    pub ty: u32,
}

/// One excluded field in a conversion plan: where it stands in the source,
/// its type, and the deterministic name of the extra narrowing argument.
pub struct DroppedField {
    pub name: Option<String>,
    pub index: usize,
    pub ty: u32,
    pub arg_name: String,
}

/// The conversion operations of one derived record: a narrowing method on
/// the subset (one extra argument per excluded field, in declaration
/// order), a total widening conversion from the source, and, when nothing
/// is excluded, the full reverse conversion.
pub struct ConvPlan {
    pub subset: String,
    pub source: String,
    pub generics: u32,
    pub method: String,
    pub named: bool,
    pub kept: Vec<KeptField>,
    pub dropped: Vec<DroppedField>,
    pub full_reverse: bool,
}

/// One item of the expansion output: an emitted record and, for derived
/// non-unit records, its conversions.
pub struct EmitItem {
    pub record: RecordOut,
    pub conversions: Option<ConvPlan>,
}

} // verus!
