//! The per-field statistical record.

use crate::schema::SchemaParser;
use crate::schema::ParserModel;
use crate::schema::empty_parser;
use crate::schema::finalise_parser_spec;
use crate::schema::observe_spec;
use crate::schema::parser_model;
use crate::schema::parser_wf;
use crate::value::Bson;
use crate::value::ValueModel;
use crate::value::ValueType;
use crate::value::bson_wf;
use crate::value::doc_wf;
use crate::value::folded_spec;
use crate::value::lemma_label_is_document;
use crate::value::label_spec;
use crate::value::norm_spec;
use crate::value::observed_spec;
use crate::value::opt_model;
use crate::value::value_eq;
use vstd::prelude::*;

verus! {

/// An exact probability: `num` observations out of `den` documents at the
/// same nesting level.  Kept as a rational so that the statistics stay
/// exact; a consumer may divide the two fields for a floating-point view.
#[derive(Clone, Copy, Debug, PartialEq, Eq, Structural)]
pub struct Probability {
    pub num: usize,
    pub den: usize,
}

/// The error raised when a field previously declared as the document kind
/// receives a non-document value on a later observation, or vice versa.
/// It names the field and both conflicting type labels; the record itself
/// is left in its last-known-good state.
#[derive(Debug)]
pub struct TypeMismatch {
    pub path: String,
    pub expected: String,
    pub found: String,
}

/// Mathematical model of a [`TypeMismatch`].
#[verifier::ext_equal]
pub struct MismatchModel {
    pub path: Seq<char>,
    pub expected: Seq<char>,
    pub found: Seq<char>,
}

impl View for TypeMismatch {
    type V = MismatchModel;

    open spec fn view(&self) -> MismatchModel {
        MismatchModel { path: self.path@, expected: self.expected@, found: self.found@ }
    }
}

/// One field's accumulated statistics: the leaf-level accumulator owned by a
/// [`SchemaParser`] for each distinct field path at one nesting level.
#[derive(Debug, PartialEq)]
pub struct FieldType {
    /// Structural identifier of the field's position, immutable after
    /// creation; nested fields carry dotted paths.
    pub path: String,
    /// Number of documents at this level in which the field was observed.
    pub count: usize,
    /// Type label of the first observed value; never re-derived.
    pub bson_type: String,
    /// `count / parent_count`, authoritative only once finalised.
    pub probability: Probability,
    /// Every normalized scalar observation, in order, not deduplicated.
    pub values: Vec<ValueType>,
    /// Whether `values` holds any repeated entry; set at finalisation.
    pub has_duplicates: bool,
    /// The child schema, present exactly when `bson_type` is the document
    /// kind.
    pub schema: Option<SchemaParser>,
    /// Number of distinct entries of `values`; set at finalisation.
    pub unique: Option<usize>,
}

/// Mathematical model of a [`FieldType`].
#[verifier::ext_equal]
pub struct RecordModel {
    pub path: Seq<char>,
    pub count: nat,
    pub bson_type: Seq<char>,
    /// Numerator and denominator of the exact probability.
    pub probability: (nat, nat),
    pub values: Seq<ValueModel>,
    pub has_duplicates: bool,
    pub schema: Option<ParserModel>,
    pub unique: Option<nat>,
}

/// The model of a value pool: each stored value, as its model.
pub open spec fn pool_model(values: Seq<ValueType>) -> Seq<ValueModel> {
    values.map_values(|v: ValueType| v@)
}

/// The model of a record, mirroring every field.
pub open spec fn record_model(ft: FieldType) -> RecordModel
    decreases ft,
{
    RecordModel {
        path: ft.path@,
        count: ft.count as nat,
        bson_type: ft.bson_type@,
        probability: (ft.probability.num as nat, ft.probability.den as nat),
        values: pool_model(ft.values@),
        has_duplicates: ft.has_duplicates,
        schema: match ft.schema {
            Some(s) => Some(parser_model(s)),
            None => None,
        },
        unique: match ft.unique {
            Some(u) => Some(u as nat),
            None => None,
        },
    }
}

impl View for FieldType {
    type V = RecordModel;

    open spec fn view(&self) -> RecordModel {
        record_model(*self)
    }
}

/// The model of an error list, entry by entry.
pub open spec fn errs_model(es: Seq<TypeMismatch>) -> Seq<MismatchModel> {
    es.map_values(|e: TypeMismatch| e@)
}

/// The record made for a field's first sighting: the declared type is the
/// label of the first value, the count starts at one, the probability is
/// still unset, and the first observation is already folded in — a document
/// value owns a child schema that has observed that one sub-document, any
/// other value has contributed its normalized scalars to the pool.
pub open spec fn new_record_spec(path: Seq<char>, v: Bson) -> RecordModel
    decreases v,
{
    RecordModel {
        path: path,
        count: 1,
        bson_type: label_spec(v),
        probability: (0, 1),
        values: observed_spec(v),
        has_duplicates: false,
        schema: match v {
            Bson::Document(doc) => Some(observe_spec(empty_parser(), doc@, Some(path)).0),
            _ => None,
        },
        unique: None,
    }
}

/// The effect of folding one more observation's values into a record
/// without advancing its count: the probability is refreshed against the
/// parent count, a document value becomes a child schema that has observed
/// that one document (replacing any earlier one), and any other value
/// contributes its normalized scalars to the pool.
pub open spec fn add_spec(r: RecordModel, v: Bson, parent_count: nat) -> RecordModel
    decreases v, 0int,
{
    let r1 = RecordModel { probability: (r.count, parent_count), ..r };
    match v {
        Bson::Document(doc) => RecordModel {
            schema: Some(observe_spec(empty_parser(), doc@, Some(r.path)).0),
            ..r1
        },
        _ => RecordModel { values: r.values + observed_spec(v), ..r1 },
    }
}

/// The effect of a repeat observation on a record, together with the
/// mismatch errors it surfaces.  A value whose container kind disagrees with
/// the declared type leaves the record unchanged and reports the conflict;
/// otherwise the probability is refreshed against `parent_count` (the number
/// of documents at this level before the current one), the count grows by
/// one, and the value is folded into the child schema (document kind) or the
/// value pool (any other kind).
pub open spec fn update_spec(r: RecordModel, v: Bson, parent_count: nat) -> (
    RecordModel,
    Seq<MismatchModel>,
)
    decreases v, 0int,
{
    if (r.bson_type == "Document"@) != (v is Document) {
        (r, seq![MismatchModel { path: r.path, expected: r.bson_type, found: label_spec(v) }])
    } else {
        let r1 = RecordModel {
            probability: (r.count, parent_count),
            count: r.count + 1,
            ..r
        };
        match v {
            Bson::Document(doc) => {
                let child = match r.schema {
                    Some(c) => c,
                    None => empty_parser(),
                };
                let (child2, errs) = observe_spec(child, doc@, Some(r.path));
                (RecordModel { schema: Some(child2), ..r1 }, errs)
            },
            _ => (RecordModel { values: r.values + observed_spec(v), ..r1 }, Seq::empty()),
        }
    }
}

/// The number of distinct values in a pool.
pub open spec fn distinct_count(vs: Seq<ValueModel>) -> nat {
    vs.to_set().len()
}

/// The effect of finalising a record against the final `parent_count`: the
/// probability is recomputed once more, the distinct-value count and the
/// duplicate flag are derived from the pool, and a child schema is finalised
/// recursively against its own document count.  The pool itself is kept,
/// unsorted, for inspection.
pub open spec fn finalise_record_spec(r: RecordModel, parent_count: nat) -> RecordModel
    decreases r,
{
    RecordModel {
        probability: (r.count, parent_count),
        unique: Some(distinct_count(r.values)),
        has_duplicates: r.values.len() != distinct_count(r.values),
        schema: match r.schema {
            Some(c) => Some(finalise_parser_spec(c)),
            None => None,
        },
        ..r
    }
}

/// Whether a value of the pool prefix `pool[0 .. upto]` equals `x`.
pub open spec fn in_prefix(pool: Seq<ValueModel>, upto: int, x: ValueModel) -> bool {
    exists|k: int| 0 <= k < upto && pool[k] == x
}

/// Whether any of the first `upto` stored values equals `x`.
fn seen_before(values: &Vec<ValueType>, upto: usize, x: &ValueType) -> (r: bool)
    requires
        upto <= values@.len(),
    ensures
        r == in_prefix(pool_model(values@), upto as int, x@),
{
    let mut j: usize = 0;
    while j < upto
        invariant
            j <= upto,
            upto <= values@.len(),
            !in_prefix(pool_model(values@), j as int, x@),
        decreases upto - j,
    {
        proof {
            assert(pool_model(values@)[j as int] == values@[j as int]@);
        }
        if value_eq(&values[j], x) {
            return true;
        }
        j += 1;
    }
    false
}

/// The number of distinct values stored in `values`, decided by counting
/// each value's first occurrence.
fn count_distinct(values: &Vec<ValueType>) -> (r: usize)
    ensures
        r == distinct_count(pool_model(values@)),
{
    broadcast use vstd::seq_lib::seq_to_set_is_finite;

    let ghost pm = pool_model(values@);
    proof {
        pm.subrange(0, 0).lemma_cardinality_of_empty_set_is_0();
    }
    let mut n: usize = 0;
    let mut i: usize = 0;
    while i < values.len()
        invariant
            i <= values@.len(),
            pm == pool_model(values@),
            n == pm.subrange(0, i as int).to_set().len(),
            n <= i,
        decreases values@.len() - i,
    {
        let fresh = !seen_before(values, i, &values[i]);
        proof {
            let prefix = pm.subrange(0, i as int);
            let ext = pm.subrange(0, i as int + 1);
            assert(pm[i as int] == values@[i as int]@);
            assert(ext =~= prefix.push(pm[i as int]));
            assert(prefix.contains(pm[i as int]) == in_prefix(pm, i as int, pm[i as int])) by {
                if prefix.contains(pm[i as int]) {
                    let k = choose|k: int|
                        0 <= k < prefix.len() && prefix[k] == pm[i as int];
                    assert(pm[k] == pm[i as int]);
                }
                if in_prefix(pm, i as int, pm[i as int]) {
                    let k = choose|k: int| 0 <= k < i && pm[k] == pm[i as int];
                    assert(prefix[k] == pm[i as int]);
                }
            }
            let xi = pm[i as int];
            assert forall|y: ValueModel| ext.contains(y) == (prefix.contains(y) || y == xi) by {
                if ext.contains(y) {
                    let k = choose|k: int| 0 <= k < ext.len() && ext[k] == y;
                    if k < i {
                        assert(prefix[k] == y);
                    }
                }
                if prefix.contains(y) {
                    let k = choose|k: int| 0 <= k < prefix.len() && prefix[k] == y;
                    assert(ext[k] == y);
                }
                if y == pm[i as int] {
                    assert(ext[i as int] == y);
                }
            }
            assert(ext.to_set() =~= prefix.to_set().insert(pm[i as int]));
            if fresh {
                assert(!prefix.to_set().contains(pm[i as int]));
            } else {
                assert(prefix.to_set().insert(pm[i as int]) =~= prefix.to_set());
            }
        }
        if fresh {
            n = n + 1;
        }
        i += 1;
    }
    proof {
        assert(pm.subrange(0, pm.len() as int) =~= pm);
    }
    n
}

impl FieldType {
    /// Creates the record for a field's first sighting: the path and the
    /// declared type label are fixed here, and the first observation is
    /// folded in — a document value installs a child schema that has
    /// observed that one sub-document, any other value contributes its
    /// normalized scalars to the pool.  The probability stays unset until
    /// it is first refreshed.
    pub fn new(path: &str, value: &Bson) -> (r: FieldType)
        requires
            bson_wf(*value),
        ensures
            r@ == new_record_spec(path@, *value),
            r@.schema is Some <==> (*value) is Document,
            rec_wf(r@),
        decreases value,
    {
        let mut r = FieldType {
            path: path.to_owned(),
            count: 1,
            bson_type: Self::get_type(value),
            probability: Probability { num: 0, den: 1 },
            values: Vec::new(),
            has_duplicates: false,
            schema: None,
            unique: None,
        };
        proof {
            assert(pool_model(r.values@) =~= Seq::<ValueModel>::empty());
        }
        match value {
            Bson::Document(subdoc) => {
                let mut sp = SchemaParser::new();
                let path_copy = r.path.clone();
                let es = sp.observe_document(subdoc, Some(&path_copy));
                proof {
                    // A fresh accumulator meets every field of this one
                    // document for the first time, so nothing is reported.
                    crate::schema::lemma_fresh_observe_no_errors(subdoc@, Some(path_copy@));
                    assert(es@.len() == 0);
                }
                r.schema = Some(sp);
            },
            _ => {
                r.update_value(value);
            },
        }
        proof {
            lemma_label_is_document(*value);
            assert(r@ =~= new_record_spec(path@, *value));
        }
        r
    }

    /// The type label of one input value.
    pub fn get_type(value: &Bson) -> (r: String)
        ensures
            r@ == label_spec(*value),
    {
        match value {
            Bson::String(_) => "String".to_owned(),
            Bson::Symbol(_) => "Symbol".to_owned(),
            Bson::RegExp(_, _) => "Regex".to_owned(),
            Bson::JavaScriptCode(_) => "JavaScriptCode".to_owned(),
            Bson::JavaScriptCodeWithScope(_, _) => "JavaScriptCodeWithScope".to_owned(),
            Bson::I32(_) => "Int".to_owned(),
            Bson::I64(_) => "Long".to_owned(),
            Bson::FloatingPoint(_) => "Double".to_owned(),
            Bson::UtcDatetime(_) => "UtcDatetime".to_owned(),
            Bson::TimeStamp(_) => "Timestamp".to_owned(),
            Bson::Decimal128(_) => "Decimal128".to_owned(),
            Bson::Binary(_) => "BinData".to_owned(),
            Bson::ObjectId(_) => "ObjectId".to_owned(),
            Bson::Boolean(_) => "Boolean".to_owned(),
            Bson::Null => "Null".to_owned(),
            Bson::Array(_) => "Array".to_owned(),
            Bson::Document(_) => "Document".to_owned(),
        }
    }

    /// The normalized form of one input value: `Some` for every scalar,
    /// `None` for arrays and documents, which are handled separately.
    pub fn get_value(value: &Bson) -> (r: Option<ValueType>)
        ensures
            opt_model(r) == norm_spec(*value),
    {
        match value {
            Bson::String(s) => Some(ValueType::Str(s.clone())),
            Bson::Symbol(s) => Some(ValueType::Str(s.clone())),
            Bson::RegExp(pat, _) => Some(ValueType::Str(pat.clone())),
            Bson::JavaScriptCode(s) => Some(ValueType::Str(s.clone())),
            Bson::JavaScriptCodeWithScope(s, _) => Some(ValueType::Str(s.clone())),
            Bson::I32(n) => Some(ValueType::I32(*n)),
            Bson::I64(n) => Some(ValueType::I64(*n)),
            Bson::FloatingPoint(bits) => Some(ValueType::FloatingPoint(*bits)),
            Bson::UtcDatetime(s) => Some(ValueType::Str(s.clone())),
            Bson::TimeStamp(n) => Some(ValueType::I64(*n)),
            Bson::Decimal128(s) => Some(ValueType::Decimal128(s.clone())),
            Bson::Binary(bytes) => {
                let copy = bytes.clone();
                proof {
                    assert(copy@ =~= bytes@);
                }
                Some(ValueType::Binary(copy))
            },
            Bson::ObjectId(s) => Some(ValueType::Str(s.clone())),
            Bson::Boolean(b) => Some(ValueType::Boolean(*b)),
            Bson::Null => Some(ValueType::Null),
            Bson::Array(_) => None,
            Bson::Document(_) => None,
        }
    }

    /// Folds one observation's normalized values into the pool: an array is
    /// flattened into its scalar elements, a scalar is appended singly, and
    /// a document contributes nothing here.
    pub fn update_value(&mut self, value: &Bson)
        ensures
            final(self)@ == (RecordModel {
                values: old(self)@.values + observed_spec(*value),
                ..old(self)@
            }),
    {
        let ghost orig = *self;
        match value {
            Bson::Array(arr) => {
                let mut i: usize = 0;
                proof {
                    assert(arr@.subrange(0, 0) =~= Seq::<Bson>::empty());
                    assert(self@.values =~= orig@.values + folded_spec(arr@.subrange(0, 0)));
                }
                while i < arr.len()
                    invariant
                        i <= arr@.len(),
                        self@ == (RecordModel { values: self@.values, ..orig@ }),
                        self@.values == orig@.values + folded_spec(arr@.subrange(0, i as int)),
                    decreases arr@.len() - i,
                {
                    let ghost prev = self.values@;
                    let ghost sub_i = arr@.subrange(0, i as int);
                    let ghost sub_n = arr@.subrange(0, i as int + 1);
                    match Self::get_value(&arr[i]) {
                        Some(v) => {
                            self.values.push(v);
                            proof {
                                assert(pool_model(self.values@) =~= pool_model(prev).push(v@));
                            }
                        },
                        None => {},
                    }
                    proof {
                        assert(sub_n.drop_last() =~= sub_i);
                        assert(sub_n.last() == arr@[i as int]);
                        match norm_spec(arr@[i as int]) {
                            Some(x) => {
                                assert(folded_spec(sub_n) == folded_spec(sub_i) + seq![x]);
                                assert(self@.values =~= orig@.values + folded_spec(sub_n));
                            },
                            None => {
                                assert(folded_spec(sub_n) =~= folded_spec(sub_i)
                                    + Seq::<ValueModel>::empty());
                                assert(self@.values =~= orig@.values + folded_spec(sub_n));
                            },
                        }
                        assert(self@ =~= (RecordModel { values: self@.values, ..orig@ }));
                    }
                    i += 1;
                }
                proof {
                    assert(arr@.subrange(0, arr@.len() as int) =~= arr@);
                    assert(self@ =~= (RecordModel {
                        values: orig@.values + observed_spec(*value),
                        ..orig@
                    }));
                }
            },
            Bson::Document(_) => {
                proof {
                    assert(orig@.values + observed_spec(*value) =~= orig@.values);
                    assert(self@ =~= (RecordModel {
                        values: orig@.values + observed_spec(*value),
                        ..orig@
                    }));
                }
            },
            _ => {
                let ghost prev = self.values@;
                match Self::get_value(value) {
                    Some(v) => {
                        self.values.push(v);
                        proof {
                            assert(pool_model(self.values@) =~= pool_model(prev).push(v@));
                            assert(observed_spec(*value) =~= seq![v@]);
                            assert(self@ =~= (RecordModel {
                                values: orig@.values + observed_spec(*value),
                                ..orig@
                            }));
                        }
                    },
                    None => {},
                }
            },
        }
    }

    /// Folds one more observation's values into the record without touching
    /// its count: refreshes the probability against `parent_count`, then
    /// either hands a document value to a brand-new child schema (replacing
    /// any earlier one) or appends the value's normalized scalars to the
    /// pool.  Unlike [`FieldType::update_type`] this never checks the
    /// declared type, so nothing is reported.
    pub fn add_to_type(&mut self, value: &Bson, parent_count: usize)
        requires
            bson_wf(*value),
        ensures
            final(self)@ == add_spec(old(self)@, *value, parent_count as nat),
            (*value) is Document ==> final(self)@.schema == Some(
                observe_spec(empty_parser(), value->Document_0@, Some(old(self)@.path)).0,
            ) && parser_wf(final(self)@.schema->0) && final(self)@.schema->0.count == 1,
        decreases value,
    {
        self.set_probability(parent_count);
        let ghost mid = self@;
        match value {
            Bson::Document(subdoc) => {
                let mut sp = SchemaParser::new();
                let path_copy = self.path.clone();
                proof {
                    assert(parser_wf(sp@));
                    assert(doc_wf(subdoc@));
                }
                let es = sp.observe_document(subdoc, Some(&path_copy));
                proof {
                    // A fresh accumulator meets every field of this one
                    // document for the first time, so nothing is reported.
                    crate::schema::lemma_fresh_observe_no_errors(subdoc@, Some(path_copy@));
                    assert(es@.len() == 0);
                }
                self.schema = Some(sp);
                proof {
                    assert(self@ =~= (RecordModel { schema: self@.schema, ..mid }));
                    assert(self@ =~= add_spec(old(self)@, *value, parent_count as nat));
                }
            },
            _ => {
                self.update_value(value);
                proof {
                    assert(self@ =~= add_spec(old(self)@, *value, parent_count as nat));
                }
            },
        }
    }

    /// Folds a repeat observation into the record.  When the declared type
    /// and the value disagree about being the document kind, the record is
    /// left in its last-known-good state and the conflict is reported with
    /// the field's path and both labels; otherwise the probability is
    /// refreshed against `parent_count` (the level's document count before
    /// the current document), the count advances, and the value lands in
    /// the child schema or the value pool.  Errors raised inside a nested
    /// document are passed along; none aborts the processing of siblings.
    pub fn update_type(&mut self, value: &Bson, parent_count: usize) -> (errs: Vec<TypeMismatch>)
        requires
            old(self).count < usize::MAX,
            bson_wf(*value),
            rec_wf(old(self)@),
        ensures
            final(self)@ == update_spec(old(self)@, *value, parent_count as nat).0,
            errs_model(errs@) == update_spec(old(self)@, *value, parent_count as nat).1,
            rec_wf(final(self)@),
        decreases value,
    {
        let doc_label: String = "Document".to_owned();
        let declared_doc = self.bson_type == doc_label;
        let mut errs: Vec<TypeMismatch> = Vec::new();
        match value {
            Bson::Document(subdoc) => {
                if !declared_doc {
                    let tm = TypeMismatch {
                        path: self.path.clone(),
                        expected: self.bson_type.clone(),
                        found: Self::get_type(value),
                    };
                    errs.push(tm);
                    proof {
                        assert(errs_model(errs@) =~= seq![
                            MismatchModel {
                                path: old(self)@.path,
                                expected: old(self)@.bson_type,
                                found: label_spec(*value),
                            },
                        ]);
                    }
                    return errs;
                }
                self.set_probability(parent_count);
                let ghost mid = self@;
                let mut sp = self.schema.take().unwrap();
                let path_copy = self.path.clone();
                proof {
                    assert(mid.schema == old(self)@.schema);
                    assert(parser_model(sp) == old(self)@.schema->0);
                    assert(parser_wf(sp@));
                    assert(sp@.count <= old(self)@.count);
                    assert(doc_wf(subdoc@));
                }
                let mut es = sp.observe_document(subdoc, Some(&path_copy));
                let ghost es0 = es@;
                self.schema = Some(sp);
                self.count = self.count + 1;
                errs.append(&mut es);
                proof {
                    assert(errs_model(errs@) =~= errs_model(es0));
                    assert(self@ =~= (RecordModel {
                        count: old(self)@.count + 1,
                        schema: self@.schema,
                        ..mid
                    }));
                    assert(self@ =~= update_spec(old(self)@, *value, parent_count as nat).0);
                }
                errs
            },
            _ => {
                if declared_doc {
                    let tm = TypeMismatch {
                        path: self.path.clone(),
                        expected: self.bson_type.clone(),
                        found: Self::get_type(value),
                    };
                    errs.push(tm);
                    proof {
                        assert(errs_model(errs@) =~= seq![
                            MismatchModel {
                                path: old(self)@.path,
                                expected: old(self)@.bson_type,
                                found: label_spec(*value),
                            },
                        ]);
                    }
                    return errs;
                }
                self.set_probability(parent_count);
                self.update_count();
                self.update_value(value);
                proof {
                    assert(errs_model(errs@) =~= Seq::<MismatchModel>::empty());
                    assert(self@ =~= update_spec(old(self)@, *value, parent_count as nat).0);
                    lemma_label_is_document(*value);
                }
                errs
            },
        }
    }

    /// Refreshes the probability: `count` observations out of
    /// `parent_count` documents at this level.
    pub fn set_probability(&mut self, parent_count: usize)
        ensures
            final(self)@ == (RecordModel {
                probability: (old(self).count as nat, parent_count as nat),
                ..old(self)@
            }),
    {
        self.probability = Probability { num: self.count, den: parent_count };
        proof {
            assert(self@ =~= (RecordModel {
                probability: (old(self).count as nat, parent_count as nat),
                ..old(self)@
            }));
        }
    }

    /// Advances the observation count by one.
    pub fn update_count(&mut self)
        requires
            old(self).count < usize::MAX,
        ensures
            final(self)@ == (RecordModel { count: old(self)@.count + 1, ..old(self)@ }),
    {
        self.count = self.count + 1;
        proof {
            assert(self@ =~= (RecordModel { count: old(self)@.count + 1, ..old(self)@ }));
        }
    }

    /// The number of distinct values observed for this field.
    pub fn get_unique(&self) -> (r: usize)
        ensures
            r == distinct_count(self@.values),
    {
        count_distinct(&self.values)
    }

    /// Records the number of distinct values, derived from the pool.
    pub fn set_unique(&mut self)
        ensures
            final(self)@ == (RecordModel {
                unique: Some(distinct_count(old(self)@.values)),
                ..old(self)@
            }),
    {
        let u = count_distinct(&self.values);
        self.unique = Some(u);
        proof {
            assert(self@ =~= (RecordModel {
                unique: Some(distinct_count(old(self)@.values)),
                ..old(self)@
            }));
        }
    }

    /// Whether the pool holds fewer distinct values than entries.
    pub fn get_duplicates(&self) -> (r: bool)
        ensures
            r == (self@.values.len() != distinct_count(self@.values)),
    {
        let unique = self.get_unique();
        let total_values = self.values.len();
        proof {
            pool_model(self.values@).lemma_cardinality_of_set();
        }
        (total_values - unique) != 0
    }

    /// Records the duplicate flag, derived from the pool.
    pub fn set_duplicates(&mut self)
        ensures
            final(self)@ == (RecordModel {
                has_duplicates: old(self)@.values.len() != distinct_count(old(self)@.values),
                ..old(self)@
            }),
    {
        let duplicates = self.get_duplicates();
        self.has_duplicates = duplicates;
        proof {
            assert(self@ =~= (RecordModel {
                has_duplicates: old(self)@.values.len() != distinct_count(old(self)@.values),
                ..old(self)@
            }));
        }
    }
}

/// Finalises one record by value: recomputes the probability against
/// `parent_count`, derives the distinct-value count and the duplicate flag
/// from the pool, and recursively finalises the child schema against its
/// own document count.  The pool itself is kept, unsorted.
pub(crate) fn finalise_field_owned(ft: FieldType, parent_count: usize) -> (r: FieldType)
    ensures
        r@ == finalise_record_spec(ft@, parent_count as nat),
    decreases ft,
{
    let ghost orig = ft;
    let FieldType {
        path,
        count,
        bson_type,
        probability: _,
        values,
        has_duplicates: _,
        schema,
        unique: _,
    } = ft;
    let u = count_distinct(&values);
    proof {
        pool_model(values@).lemma_cardinality_of_set();
    }
    let has_dup = (values.len() - u) != 0;
    let schema2 = match schema {
        Some(sp) => {
            proof {
                assert(decreases_to!(orig => orig.schema));
                assert(decreases_to!(orig.schema => orig.schema->0));
                assert(sp == orig.schema->0);
            }
            Some(crate::schema::finalise_schema_owned(sp))
        },
        None => None,
    };
    let r = FieldType {
        path,
        count,
        bson_type,
        probability: Probability { num: count, den: parent_count },
        values,
        has_duplicates: has_dup,
        schema: schema2,
        unique: Some(u),
    };
    proof {
        assert(r@ =~= finalise_record_spec(orig@, parent_count as nat));
    }
    r
}

impl FieldType {
    /// Finalises the record against the final `parent_count`: recomputes
    /// the probability once more, derives the distinct-value count and the
    /// duplicate flag, and recursively finalises the child schema against
    /// its own document count.
    pub fn finalise_type(&mut self, parent_count: usize)
        ensures
            final(self)@ == finalise_record_spec(old(self)@, parent_count as nat),
    {
        let mut tmp = FieldType {
            path: String::new(),
            count: 0,
            bson_type: String::new(),
            probability: Probability { num: 0, den: 1 },
            values: Vec::new(),
            has_duplicates: false,
            schema: None,
            unique: None,
        };
        core::mem::swap(self, &mut tmp);
        let out = finalise_field_owned(tmp, parent_count);
        *self = out;
    }
}

/// Well-formedness of a record: it was observed at least once, it owns a
/// child schema exactly when its declared type is the document kind, and the
/// child has seen at most as many documents as the field was observed.
pub open spec fn rec_wf(r: RecordModel) -> bool
    decreases r, 1int,
{
    &&& 1 <= r.count
    &&& (r.schema is Some <==> r.bson_type == "Document"@)
    &&& match r.schema {
        Some(c) => parser_wf(c) && c.count <= r.count,
        None => true,
    }
}

} // verus!
