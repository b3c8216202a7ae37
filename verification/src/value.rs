//! Input values and their normalization.
//!
//! [`Bson`] is the closed set of decoded input values handed to the schema
//! engine: scalars, arrays of values, and nested documents.  [`ValueType`] is
//! the reduced set of comparable scalar kinds kept in a field's value pool.
//! Every non-container [`Bson`] variant maps to exactly one [`ValueType`]
//! variant; arrays contribute their scalar elements and documents recurse
//! into a child schema instead.

use vstd::prelude::*;

verus! {

/// An ordered keyed document: the pairs appear in document order and the
/// keys of a well-formed document are pairwise distinct (see [`doc_wf`]).
pub type Document = Vec<(String, Bson)>;

/// One decoded input value.
///
/// Double-precision values are carried as their IEEE 754 bit pattern
/// (`f64::to_bits`), datetimes, object ids and decimals as their canonical
/// string form: the statistics below only store and compare observations,
/// so each is represented by exactly what the engine reads of it.
#[derive(Debug, PartialEq)]
pub enum Bson {
    String(String),
    Symbol(String),
    /// A regular expression: pattern and options.
    RegExp(String, String),
    JavaScriptCode(String),
    /// Code together with its scope document; the scope is not observed.
    JavaScriptCodeWithScope(String, Document),
    I32(i32),
    I64(i64),
    /// IEEE 754 bit pattern of a double-precision value.
    FloatingPoint(u64),
    /// A datetime in its canonical string form.
    UtcDatetime(String),
    TimeStamp(i64),
    /// A 128-bit decimal in its canonical string form.
    Decimal128(String),
    Binary(Vec<u8>),
    /// An object identifier in its canonical string form.
    ObjectId(String),
    Boolean(bool),
    Null,
    Array(Vec<Bson>),
    Document(Document),
}

/// One normalized scalar observation, the comparable kinds kept in a value
/// pool.  String-like inputs (strings, symbols, regex patterns, code,
/// datetimes, object ids) all normalize to [`ValueType::Str`]; 64-bit
/// integers and timestamps both normalize to [`ValueType::I64`].
#[derive(Debug, Clone, PartialEq)]
pub enum ValueType {
    Str(String),
    I32(i32),
    I64(i64),
    /// IEEE 754 bit pattern of a double-precision value.
    FloatingPoint(u64),
    Boolean(bool),
    Binary(Vec<u8>),
    Decimal128(String),
    Null,
}

/// Mathematical model of a normalized value: text and blobs as sequences.
pub enum ValueModel {
    Str(Seq<char>),
    I32(i32),
    I64(i64),
    FloatingPoint(u64),
    Boolean(bool),
    Binary(Seq<u8>),
    Decimal128(Seq<char>),
    Null,
}

impl View for ValueType {
    type V = ValueModel;

    open spec fn view(&self) -> ValueModel {
        match self {
            ValueType::Str(s) => ValueModel::Str(s@),
            ValueType::I32(n) => ValueModel::I32(*n),
            ValueType::I64(n) => ValueModel::I64(*n),
            ValueType::FloatingPoint(bits) => ValueModel::FloatingPoint(*bits),
            ValueType::Boolean(b) => ValueModel::Boolean(*b),
            ValueType::Binary(bytes) => ValueModel::Binary(bytes@),
            ValueType::Decimal128(s) => ValueModel::Decimal128(s@),
            ValueType::Null => ValueModel::Null,
        }
    }
}

/// The normalized form of one input value: `Some` for every scalar variant,
/// `None` for arrays and documents, which are never stored as a single
/// normalized value.
pub open spec fn norm_spec(v: Bson) -> Option<ValueModel> {
    match v {
        Bson::String(s) => Some(ValueModel::Str(s@)),
        Bson::Symbol(s) => Some(ValueModel::Str(s@)),
        Bson::RegExp(pat, _) => Some(ValueModel::Str(pat@)),
        Bson::JavaScriptCode(s) => Some(ValueModel::Str(s@)),
        Bson::JavaScriptCodeWithScope(s, _) => Some(ValueModel::Str(s@)),
        Bson::I32(n) => Some(ValueModel::I32(n)),
        Bson::I64(n) => Some(ValueModel::I64(n)),
        Bson::FloatingPoint(bits) => Some(ValueModel::FloatingPoint(bits)),
        Bson::UtcDatetime(s) => Some(ValueModel::Str(s@)),
        Bson::TimeStamp(n) => Some(ValueModel::I64(n)),
        Bson::Decimal128(s) => Some(ValueModel::Decimal128(s@)),
        Bson::Binary(bytes) => Some(ValueModel::Binary(bytes@)),
        Bson::ObjectId(s) => Some(ValueModel::Str(s@)),
        Bson::Boolean(b) => Some(ValueModel::Boolean(b)),
        Bson::Null => Some(ValueModel::Null),
        Bson::Array(_) => None,
        Bson::Document(_) => None,
    }
}

/// The type label of an input value: the tag recorded as a field's declared
/// type on its first observation.
pub open spec fn label_spec(v: Bson) -> Seq<char> {
    match v {
        Bson::String(_) => "String"@,
        Bson::Symbol(_) => "Symbol"@,
        Bson::RegExp(_, _) => "Regex"@,
        Bson::JavaScriptCode(_) => "JavaScriptCode"@,
        Bson::JavaScriptCodeWithScope(_, _) => "JavaScriptCodeWithScope"@,
        Bson::I32(_) => "Int"@,
        Bson::I64(_) => "Long"@,
        Bson::FloatingPoint(_) => "Double"@,
        Bson::UtcDatetime(_) => "UtcDatetime"@,
        Bson::TimeStamp(_) => "Timestamp"@,
        Bson::Decimal128(_) => "Decimal128"@,
        Bson::Binary(_) => "BinData"@,
        Bson::ObjectId(_) => "ObjectId"@,
        Bson::Boolean(_) => "Boolean"@,
        Bson::Null => "Null"@,
        Bson::Array(_) => "Array"@,
        Bson::Document(_) => "Document"@,
    }
}

/// The normalized values one array contributes to a value pool: each element
/// that is itself neither an array nor a document, in order.
pub open spec fn folded_spec(elems: Seq<Bson>) -> Seq<ValueModel>
    decreases elems.len(),
{
    if elems.len() == 0 {
        Seq::empty()
    } else {
        folded_spec(elems.drop_last()) + match norm_spec(elems.last()) {
            Some(x) => seq![x],
            None => Seq::empty(),
        }
    }
}

/// The normalized values one observation of `v` appends to a field's value
/// pool: an array is flattened into its scalar elements, a document
/// contributes nothing (it recurses into the child schema instead), and a
/// scalar contributes itself.
pub open spec fn observed_spec(v: Bson) -> Seq<ValueModel> {
    match v {
        Bson::Array(elems) => folded_spec(elems@),
        Bson::Document(_) => Seq::empty(),
        _ => match norm_spec(v) {
            Some(x) => seq![x],
            None => Seq::empty(),
        },
    }
}

/// The model of an optional normalized value.
pub open spec fn opt_model(o: Option<ValueType>) -> Option<ValueModel> {
    match o {
        Some(x) => Some(x@),
        None => None,
    }
}

/// Byte-blob equality, decided element by element.
pub(crate) fn bytes_eq(x: &Vec<u8>, y: &Vec<u8>) -> (r: bool)
    ensures
        r == (x@ == y@),
{
    if x.len() != y.len() {
        return false;
    }
    let mut i: usize = 0;
    while i < x.len()
        invariant
            i <= x.len(),
            x@.len() == y@.len(),
            forall|j: int| 0 <= j < i ==> x@[j] == y@[j],
        decreases x@.len() - i,
    {
        if x[i] != y[i] {
            return false;
        }
        i += 1;
    }
    proof {
        assert(x@ =~= y@);
    }
    true
}

/// Equality of two normalized values, which coincides with equality of
/// their models: same kind, same content.
pub fn value_eq(a: &ValueType, b: &ValueType) -> (r: bool)
    ensures
        r == (a@ == b@),
{
    match a {
        ValueType::Str(x) => match b {
            ValueType::Str(y) => *x == *y,
            _ => false,
        },
        ValueType::I32(x) => match b {
            ValueType::I32(y) => x == y,
            _ => false,
        },
        ValueType::I64(x) => match b {
            ValueType::I64(y) => x == y,
            _ => false,
        },
        ValueType::FloatingPoint(x) => match b {
            ValueType::FloatingPoint(y) => x == y,
            _ => false,
        },
        ValueType::Boolean(x) => match b {
            ValueType::Boolean(y) => x == y,
            _ => false,
        },
        ValueType::Binary(x) => match b {
            ValueType::Binary(y) => bytes_eq(x, y),
            _ => false,
        },
        ValueType::Decimal128(x) => match b {
            ValueType::Decimal128(y) => *x == *y,
            _ => false,
        },
        ValueType::Null => match b {
            ValueType::Null => true,
            _ => false,
        },
    }
}

/// Only document values carry the document type label: every other label
/// differs from it, so the declared type alone tells containers apart.
pub proof fn lemma_label_is_document(v: Bson)
    ensures
        (label_spec(v) == "Document"@) <==> (v is Document),
{
    reveal_strlit("String");
    reveal_strlit("Symbol");
    reveal_strlit("Regex");
    reveal_strlit("JavaScriptCode");
    reveal_strlit("JavaScriptCodeWithScope");
    reveal_strlit("Int");
    reveal_strlit("Long");
    reveal_strlit("Double");
    reveal_strlit("UtcDatetime");
    reveal_strlit("Timestamp");
    reveal_strlit("Decimal128");
    reveal_strlit("BinData");
    reveal_strlit("ObjectId");
    reveal_strlit("Boolean");
    reveal_strlit("Null");
    reveal_strlit("Array");
    reveal_strlit("Document");
    if label_spec(v) == "Document"@ && !(v is Document) {
        match v {
            Bson::ObjectId(_) => {
                assert("ObjectId"@[0] != "Document"@[0]);
            },
            _ => {
                assert(label_spec(v).len() != "Document"@.len());
            },
        }
    }
}

/// Well-formedness of a document: keys are pairwise distinct, and every
/// directly nested document (the ones that recurse into child schemas) is
/// well-formed too.  This is inherent to the keyed input format.
pub open spec fn doc_wf(doc: Seq<(String, Bson)>) -> bool
    decreases doc, 1int,
{
    &&& forall|i: int, j: int|
        0 <= i < j < doc.len() ==> (#[trigger] doc[i]).0@ != (#[trigger] doc[j]).0@
    &&& forall|i: int| 0 <= i < doc.len() ==> bson_wf(#[trigger] doc[i].1)
}

/// Well-formedness of one value: its nested documents are well-formed.
/// Containers inside arrays are dropped from value pools and never recurse,
/// so they are not constrained.
pub open spec fn bson_wf(v: Bson) -> bool
    decreases v, 0int,
{
    match v {
        Bson::Document(doc) => doc_wf(doc@),
        _ => true,
    }
}

} // verus!
