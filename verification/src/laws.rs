//! Library-wide laws, proved over the models that the executable
//! functions' contracts are stated against.

use crate::record::RecordModel;
use crate::record::add_spec;
use crate::record::finalise_record_spec;
use crate::record::new_record_spec;
use crate::record::update_spec;
use crate::schema::ParserModel;
use crate::schema::child_path;
use crate::schema::empty_parser;
use crate::schema::find_key;
use crate::schema::finalise_fields_spec;
use crate::schema::finalise_parser_spec;
use crate::schema::lemma_finalise_fields;
use crate::schema::lemma_find_key_props;
use crate::schema::lemma_find_key_push;
use crate::schema::lemma_find_key_update;
use crate::schema::observe_pairs_spec;
use crate::schema::observe_spec;
use crate::value::Bson;
use crate::value::doc_wf;
use crate::value::label_spec;
use crate::value::lemma_label_is_document;
use vstd::prelude::*;

verus! {

/// The accumulator obtained by observing a stream of documents in order.
pub open spec fn accumulate_spec(
    p: ParserModel,
    docs: Seq<Seq<(String, Bson)>>,
    prefix: Option<Seq<char>>,
) -> ParserModel
    decreases docs.len(),
{
    if docs.len() == 0 {
        p
    } else {
        accumulate_spec(observe_spec(p, docs[0], prefix).0, docs.drop_first(), prefix)
    }
}

/// Whether a document carries the given key.
pub open spec fn doc_has_key(doc: Seq<(String, Bson)>, key: Seq<char>) -> bool {
    exists|j: int| 0 <= j < doc.len() && (#[trigger] doc[j]).0@ == key
}

/// In how many of the documents the given key appears.
pub open spec fn occurrences(docs: Seq<Seq<(String, Bson)>>, key: Seq<char>) -> nat
    decreases docs.len(),
{
    if docs.len() == 0 {
        0
    } else {
        (if doc_has_key(docs[0], key) {
            1nat
        } else {
            0nat
        }) + occurrences(docs.drop_first(), key)
    }
}

/// Whether every value of a document is a non-document (scalar or array).
pub open spec fn scalar_doc(doc: Seq<(String, Bson)>) -> bool {
    forall|j: int| 0 <= j < doc.len() ==> !((#[trigger] doc[j]).1 is Document)
}

/// Whether no record of a field table declares the document kind.
pub open spec fn scalar_table(fields: Seq<(Seq<char>, RecordModel)>) -> bool {
    forall|i: int| 0 <= i < fields.len() ==> (#[trigger] fields[i]).1.bson_type != "Document"@
}

/// Appending an entry with the missing key makes a lookup find it last.
proof fn lemma_find_key_push_same(
    fields: Seq<(Seq<char>, RecordModel)>,
    key: Seq<char>,
    entry: (Seq<char>, RecordModel),
)
    requires
        find_key(fields, key) is None,
        entry.0 == key,
    ensures
        find_key(fields.push(entry), key) == Some(fields.len() as int),
    decreases fields.len(),
{
    lemma_find_key_props(fields, key);
    if fields.len() == 0 {
        assert(fields.push(entry)[0] == entry);
    } else {
        assert(fields.push(entry)[0] == fields[0]);
        assert(fields.push(entry).drop_first() =~= fields.drop_first().push(entry));
        lemma_find_key_push_same(fields.drop_first(), key, entry);
    }
}

/// Folding one document's pairs into an accumulator leaves the level count
/// alone and changes each field's record as one observation should: the
/// count of a field named in the pairs advances by exactly one (a fresh
/// field starts at one), every other record is untouched, and no declared
/// type changes.  Stated for pairs with distinct keys and non-document
/// values, where no mismatch can occur.
proof fn lemma_pairs_scalar(
    p: ParserModel,
    pairs: Seq<(String, Bson)>,
    prefix: Option<Seq<char>>,
    prior: nat,
    key: Seq<char>,
)
    requires
        forall|a: int, b: int|
            0 <= a < b < pairs.len() ==> (#[trigger] pairs[a]).0@ != (#[trigger] pairs[b]).0@,
        forall|a: int| 0 <= a < pairs.len() ==> !((#[trigger] pairs[a]).1 is Document),
        scalar_table(p.fields),
    ensures
        ({
            let p2 = observe_pairs_spec(p, pairs, prefix, prior).0;
            &&& p2.count == p.count
            &&& scalar_table(p2.fields)
            &&& match find_key(p.fields, key) {
                Some(i) => {
                    &&& find_key(p2.fields, key) == Some(i)
                    &&& p2.fields[i].1.bson_type == p.fields[i].1.bson_type
                    &&& p2.fields[i].1.count == p.fields[i].1.count + (
                    if doc_has_key(pairs, key) {
                        1nat
                    } else {
                        0nat
                    })
                },
                None => {
                    if doc_has_key(pairs, key) {
                        match find_key(p2.fields, key) {
                            Some(j) => p2.fields[j].1.count == 1,
                            None => false,
                        }
                    } else {
                        find_key(p2.fields, key) is None
                    }
                },
            }
        }),
    decreases pairs.len(),
{
    if pairs.len() == 0 {
        assert(!doc_has_key(pairs, key));
    } else {
        let k0 = pairs[0].0@;
        let v = pairs[0].1;
        let rest = pairs.drop_first();
        assert forall|j: int| 0 <= j < rest.len() implies #[trigger] rest[j] == pairs[j + 1] by {}
        lemma_label_is_document(v);
        let step = match find_key(p.fields, k0) {
            None => ParserModel {
                fields: p.fields.push((k0, new_record_spec(child_path(prefix, k0), v))),
                ..p
            },
            Some(i) => {
                let r2 = update_spec(p.fields[i].1, v, prior).0;
                ParserModel { fields: p.fields.update(i, (p.fields[i].0, r2)), ..p }
            },
        };
        assert(observe_pairs_spec(p, pairs, prefix, prior).0 == observe_pairs_spec(
            step,
            rest,
            prefix,
            prior,
        ).0);
        // The step preserves the scalar table and moves `key`'s record by
        // one observation when this pair carries it.
        match find_key(p.fields, k0) {
            None => {
                let entry = (k0, new_record_spec(child_path(prefix, k0), v));
                assert(entry.1.count == 1);
                assert(entry.1.bson_type == label_spec(v));
                assert forall|t: int| 0 <= t < step.fields.len() implies (
                #[trigger] step.fields[t]).1.bson_type != "Document"@ by {
                    if t < p.fields.len() {
                        assert(step.fields[t] == p.fields[t]);
                    } else {
                        assert(step.fields[t] == entry);
                    }
                }
                if k0 == key {
                    lemma_find_key_push_same(p.fields, key, entry);
                } else {
                    lemma_find_key_push(p.fields, key, entry);
                }
            },
            Some(i) => {
                lemma_find_key_props(p.fields, k0);
                let r2 = update_spec(p.fields[i].1, v, prior).0;
                assert(r2.count == p.fields[i].1.count + 1);
                assert(r2.bson_type == p.fields[i].1.bson_type);
                assert forall|t: int| 0 <= t < step.fields.len() implies (
                #[trigger] step.fields[t]).1.bson_type != "Document"@ by {
                    if t != i {
                        assert(step.fields[t] == p.fields[t]);
                    }
                }
                lemma_find_key_update(p.fields, key, i, (p.fields[i].0, r2));
            },
        }
        lemma_pairs_scalar(step, rest, prefix, prior, key);
        // Whether the tail carries the key.
        if k0 == key {
            assert(doc_has_key(pairs, key));
            assert(!doc_has_key(rest, key)) by {
                if doc_has_key(rest, key) {
                    let j = choose|j: int| 0 <= j < rest.len() && rest[j].0@ == key;
                    assert(pairs[j + 1].0@ == key);
                }
            }
        } else {
            assert(doc_has_key(pairs, key) == doc_has_key(rest, key)) by {
                if doc_has_key(pairs, key) {
                    let j = choose|j: int| 0 <= j < pairs.len() && pairs[j].0@ == key;
                    assert(j != 0);
                    assert(rest[j - 1].0@ == key);
                }
                if doc_has_key(rest, key) {
                    let j = choose|j: int| 0 <= j < rest.len() && rest[j].0@ == key;
                    assert(pairs[j + 1].0@ == key);
                }
            }
        }
        // Relate the key's record in `step` back to `p`.
        match find_key(p.fields, key) {
            Some(i) => {
                lemma_find_key_props(p.fields, key);
                if k0 == key {
                    assert(find_key(p.fields, k0) == Some(i));
                } else {
                    match find_key(p.fields, k0) {
                        None => {
                            assert(step.fields[i] == p.fields[i]);
                        },
                        Some(t) => {
                            lemma_find_key_props(p.fields, k0);
                            assert(p.fields[t].0 == k0);
                            assert(t != i);
                            assert(step.fields[i] == p.fields[i]);
                        },
                    }
                }
            },
            None => {},
        }
    }
}

/// Observing a stream of documents advances the level count by one per
/// document, and drives each field's count to exactly the number of
/// documents that carry the field.  Stated for well-formed documents with
/// non-document values.
proof fn lemma_accumulate_scalar(
    p: ParserModel,
    docs: Seq<Seq<(String, Bson)>>,
    prefix: Option<Seq<char>>,
    key: Seq<char>,
)
    requires
        forall|d: int| 0 <= d < docs.len() ==> doc_wf(#[trigger] docs[d]),
        forall|d: int| 0 <= d < docs.len() ==> scalar_doc(#[trigger] docs[d]),
        scalar_table(p.fields),
    ensures
        ({
            let pf = accumulate_spec(p, docs, prefix);
            &&& pf.count == p.count + docs.len()
            &&& scalar_table(pf.fields)
            &&& match find_key(p.fields, key) {
                Some(i) => {
                    &&& find_key(pf.fields, key) == Some(i)
                    &&& pf.fields[i].1.bson_type == p.fields[i].1.bson_type
                    &&& pf.fields[i].1.count == p.fields[i].1.count + occurrences(docs, key)
                },
                None => {
                    if occurrences(docs, key) > 0 {
                        match find_key(pf.fields, key) {
                            Some(j) => pf.fields[j].1.count == occurrences(docs, key),
                            None => false,
                        }
                    } else {
                        find_key(pf.fields, key) is None
                    }
                },
            }
        }),
    decreases docs.len(),
{
    if docs.len() > 0 {
        let doc = docs[0];
        let p1 = ParserModel { count: p.count + 1, ..p };
        assert(scalar_table(p1.fields));
        lemma_pairs_scalar(p1, doc, prefix, p.count, key);
        let p2 = observe_spec(p, doc, prefix).0;
        lemma_accumulate_scalar(p2, docs.drop_first(), prefix, key);
        assert forall|d: int| 0 <= d < docs.drop_first().len() implies #[trigger] docs.drop_first()[d]
            == docs[d + 1] by {}
        if occurrences(docs, key) > 0 && find_key(p.fields, key) is None && !doc_has_key(
            doc,
            key,
        ) {
            assert(occurrences(docs.drop_first(), key) == occurrences(docs, key));
        }
    }
}

/// For any stream of well-formed documents whose values are scalars or
/// arrays, the finalised schema reports, for every field that appears in at
/// least one document: a count equal to the number K of documents carrying
/// the field, and the exact probability K / N, where N is the number of
/// documents observed.  A field present in every document therefore has
/// probability N / N, one; a field present in K < N documents has
/// probability K / N.
pub proof fn lemma_probability_law(
    docs: Seq<Seq<(String, Bson)>>,
    prefix: Option<Seq<char>>,
    key: Seq<char>,
)
    requires
        forall|d: int| 0 <= d < docs.len() ==> doc_wf(#[trigger] docs[d]),
        forall|d: int| 0 <= d < docs.len() ==> scalar_doc(#[trigger] docs[d]),
        occurrences(docs, key) > 0,
    ensures
        ({
            let pf = accumulate_spec(empty_parser(), docs, prefix);
            let q = finalise_parser_spec(pf);
            &&& q.count == docs.len()
            &&& find_key(pf.fields, key) is Some
            &&& {
                let r = q.fields[find_key(pf.fields, key)->0].1;
                &&& r.count == occurrences(docs, key)
                &&& r.probability == (occurrences(docs, key), docs.len() as nat)
            }
        }),
{
    lemma_accumulate_scalar(empty_parser(), docs, prefix, key);
    let pf = accumulate_spec(empty_parser(), docs, prefix);
    lemma_find_key_props(pf.fields, key);
    lemma_finalise_fields(pf.fields, pf.count);
}

/// The value carried by the first pair with the given key; null when the
/// key is absent.
pub open spec fn doc_value(doc: Seq<(String, Bson)>, key: Seq<char>) -> Bson
    decreases doc.len(),
{
    if doc.len() == 0 {
        Bson::Null
    } else if doc[0].0@ == key {
        doc[0].1
    } else {
        doc_value(doc.drop_first(), key)
    }
}

/// The sub-documents carried by the given key across a stream of documents.
pub open spec fn subdocs(docs: Seq<Seq<(String, Bson)>>, key: Seq<char>) -> Seq<
    Seq<(String, Bson)>,
> {
    docs.map_values(|d: Seq<(String, Bson)>| doc_value(d, key)->Document_0@)
}

/// The first pair with the given key is what [`doc_value`] reads.
proof fn lemma_doc_value(doc: Seq<(String, Bson)>, key: Seq<char>)
    requires
        doc_has_key(doc, key),
    ensures
        exists|j: int|
            0 <= j < doc.len() && (#[trigger] doc[j]).0@ == key && doc[j].1 == doc_value(doc, key),
    decreases doc.len(),
{
    if doc[0].0@ != key {
        assert forall|j: int| 0 <= j < doc.drop_first().len() implies #[trigger] doc.drop_first()[j]
            == doc[j + 1] by {}
        assert(doc_has_key(doc.drop_first(), key)) by {
            let j = choose|j: int| 0 <= j < doc.len() && (#[trigger] doc[j]).0@ == key;
            assert(doc.drop_first()[j - 1].0@ == key);
        }
        lemma_doc_value(doc.drop_first(), key);
        let j = choose|j: int|
            0 <= j < doc.drop_first().len() && (#[trigger] doc.drop_first()[j]).0@ == key
                && doc.drop_first()[j].1 == doc_value(doc.drop_first(), key);
        assert(doc[j + 1].0@ == key && doc[j + 1].1 == doc_value(doc, key));
    }
}

/// Folding one document's pairs moves the record of any one key by exactly
/// its own observation: a present key's record is updated with the key's
/// value, a fresh key appends the record of a first sighting, an absent key
/// leaves its record untouched.  Stated for pairs with distinct keys.
proof fn lemma_pairs_key(
    p: ParserModel,
    pairs: Seq<(String, Bson)>,
    prefix: Option<Seq<char>>,
    prior: nat,
    key: Seq<char>,
)
    requires
        forall|a: int, b: int|
            0 <= a < b < pairs.len() ==> (#[trigger] pairs[a]).0@ != (#[trigger] pairs[b]).0@,
    ensures
        ({
            let p2 = observe_pairs_spec(p, pairs, prefix, prior).0;
            &&& p2.count == p.count
            &&& match find_key(p.fields, key) {
                Some(i) => {
                    &&& find_key(p2.fields, key) == Some(i)
                    &&& p2.fields[i].1 == (if doc_has_key(pairs, key) {
                        update_spec(p.fields[i].1, doc_value(pairs, key), prior).0
                    } else {
                        p.fields[i].1
                    })
                },
                None => {
                    if doc_has_key(pairs, key) {
                        match find_key(p2.fields, key) {
                            Some(j) => p2.fields[j].1 == new_record_spec(
                                child_path(prefix, key),
                                doc_value(pairs, key),
                            ),
                            None => false,
                        }
                    } else {
                        find_key(p2.fields, key) is None
                    }
                },
            }
        }),
    decreases pairs.len(),
{
    if pairs.len() == 0 {
        assert(!doc_has_key(pairs, key));
    } else {
        let k0 = pairs[0].0@;
        let v = pairs[0].1;
        let rest = pairs.drop_first();
        assert forall|j: int| 0 <= j < rest.len() implies #[trigger] rest[j] == pairs[j + 1] by {}
        let step = match find_key(p.fields, k0) {
            None => ParserModel {
                fields: p.fields.push((k0, new_record_spec(child_path(prefix, k0), v))),
                ..p
            },
            Some(i) => {
                let r2 = update_spec(p.fields[i].1, v, prior).0;
                ParserModel { fields: p.fields.update(i, (p.fields[i].0, r2)), ..p }
            },
        };
        assert(observe_pairs_spec(p, pairs, prefix, prior).0 == observe_pairs_spec(
            step,
            rest,
            prefix,
            prior,
        ).0);
        match find_key(p.fields, k0) {
            None => {
                let entry = (k0, new_record_spec(child_path(prefix, k0), v));
                if k0 == key {
                    lemma_find_key_push_same(p.fields, key, entry);
                } else {
                    lemma_find_key_push(p.fields, key, entry);
                }
            },
            Some(i) => {
                lemma_find_key_props(p.fields, k0);
                let r2 = update_spec(p.fields[i].1, v, prior).0;
                lemma_find_key_update(p.fields, key, i, (p.fields[i].0, r2));
            },
        }
        lemma_pairs_key(step, rest, prefix, prior, key);
        if k0 == key {
            assert(doc_has_key(pairs, key));
            assert(doc_value(pairs, key) == v);
            assert(!doc_has_key(rest, key)) by {
                if doc_has_key(rest, key) {
                    let j = choose|j: int| 0 <= j < rest.len() && (#[trigger] rest[j]).0@ == key;
                    assert(pairs[j + 1].0@ == key);
                }
            }
        } else {
            assert(doc_has_key(pairs, key) == doc_has_key(rest, key)) by {
                if doc_has_key(pairs, key) {
                    let j = choose|j: int| 0 <= j < pairs.len() && (#[trigger] pairs[j]).0@ == key;
                    assert(j != 0);
                    assert(rest[j - 1].0@ == key);
                }
                if doc_has_key(rest, key) {
                    let j = choose|j: int| 0 <= j < rest.len() && (#[trigger] rest[j]).0@ == key;
                    assert(pairs[j + 1].0@ == key);
                }
            }
            if doc_has_key(rest, key) {
                assert(doc_value(pairs, key) == doc_value(rest, key));
            }
            match find_key(p.fields, key) {
                Some(i) => {
                    lemma_find_key_props(p.fields, key);
                    match find_key(p.fields, k0) {
                        None => {
                            assert(step.fields[i] == p.fields[i]);
                        },
                        Some(t) => {
                            lemma_find_key_props(p.fields, k0);
                            assert(t != i);
                            assert(step.fields[i] == p.fields[i]);
                        },
                    }
                },
                None => {},
            }
        }
    }
}

/// A field that carries a nested document in every observed document owns
/// one record whose count matches the number of documents and whose child
/// schema is exactly the accumulation of those sub-documents, in order,
/// under the field's own path.
proof fn lemma_accumulate_dockey(
    p: ParserModel,
    docs: Seq<Seq<(String, Bson)>>,
    prefix: Option<Seq<char>>,
    key: Seq<char>,
)
    requires
        forall|d: int| 0 <= d < docs.len() ==> doc_wf(#[trigger] docs[d]),
        forall|d: int|
            0 <= d < docs.len() ==> doc_has_key(#[trigger] docs[d], key) && (doc_value(
                docs[d],
                key,
            ) is Document),
        find_key(p.fields, key) is None,
    ensures
        ({
            let pf = accumulate_spec(p, docs, prefix);
            &&& pf.count == p.count + docs.len()
            &&& (docs.len() == 0 ==> find_key(pf.fields, key) is None)
            &&& (docs.len() > 0 ==> match find_key(pf.fields, key) {
                Some(j) => {
                    let r = pf.fields[j].1;
                    &&& r.path == child_path(prefix, key)
                    &&& r.bson_type == "Document"@
                    &&& r.count == docs.len()
                    &&& r.schema == Some(
                        accumulate_spec(
                            empty_parser(),
                            subdocs(docs, key),
                            Some(child_path(prefix, key)),
                        ),
                    )
                },
                None => false,
            })
        }),
    decreases docs.len(),
{
    if docs.len() > 0 {
        let doc = docs[0];
        let p1 = ParserModel { count: p.count + 1, ..p };
        lemma_pairs_key(p1, doc, prefix, p.count, key);
        lemma_label_is_document(doc_value(doc, key));
        let p2 = observe_spec(p, doc, prefix).0;
        let rest = docs.drop_first();
        assert forall|d: int| 0 <= d < rest.len() implies #[trigger] rest[d] == docs[d + 1] by {}
        assert(subdocs(rest, key) =~= subdocs(docs, key).drop_first());
        // After the first document the record exists; the remaining
        // documents each fold one more sub-document into its child.
        lemma_accumulate_dockey_present(p2, rest, prefix, key);
    }
}

/// The continuation of [`lemma_accumulate_dockey`] once the record exists:
/// each further document updates it with one more nested document.
proof fn lemma_accumulate_dockey_present(
    p: ParserModel,
    docs: Seq<Seq<(String, Bson)>>,
    prefix: Option<Seq<char>>,
    key: Seq<char>,
)
    requires
        forall|d: int| 0 <= d < docs.len() ==> doc_wf(#[trigger] docs[d]),
        forall|d: int|
            0 <= d < docs.len() ==> doc_has_key(#[trigger] docs[d], key) && (doc_value(
                docs[d],
                key,
            ) is Document),
        find_key(p.fields, key) is Some,
        ({
            let r = p.fields[find_key(p.fields, key)->0].1;
            r.bson_type == "Document"@ && r.schema is Some
        }),
    ensures
        ({
            let pf = accumulate_spec(p, docs, prefix);
            let i = find_key(p.fields, key)->0;
            let r = p.fields[i].1;
            &&& pf.count == p.count + docs.len()
            &&& find_key(pf.fields, key) == find_key(p.fields, key)
            &&& pf.fields[i].1.path == r.path
            &&& pf.fields[i].1.bson_type == r.bson_type
            &&& pf.fields[i].1.count == r.count + docs.len()
            &&& pf.fields[i].1.schema == Some(
                accumulate_spec(r.schema->0, subdocs(docs, key), Some(r.path)),
            )
        }),
    decreases docs.len(),
{
    let i = find_key(p.fields, key)->0;
    let r = p.fields[i].1;
    if docs.len() == 0 {
        assert(accumulate_spec(r.schema->0, subdocs(docs, key), Some(r.path)) == r.schema->0)
            by {
            assert(subdocs(docs, key) =~= Seq::<Seq<(String, Bson)>>::empty());
        }
    } else {
        let doc = docs[0];
        let p1 = ParserModel { count: p.count + 1, ..p };
        lemma_pairs_key(p1, doc, prefix, p.count, key);
        lemma_label_is_document(doc_value(doc, key));
        let p2 = observe_spec(p, doc, prefix).0;
        let rest = docs.drop_first();
        assert forall|d: int| 0 <= d < rest.len() implies #[trigger] rest[d] == docs[d + 1] by {}
        assert(subdocs(rest, key) =~= subdocs(docs, key).drop_first());
        lemma_accumulate_dockey_present(p2, rest, prefix, key);
    }
}

/// A field that holds a nested document at every observation produces a
/// child schema whose own document count equals the number of observations,
/// and whose field records obey the probability law relative to that count,
/// not to the outer document count: a nested field present in L of the N
/// sub-documents comes out of finalisation with count L and the exact
/// probability L / N.
pub proof fn lemma_child_schema_law(
    docs: Seq<Seq<(String, Bson)>>,
    key: Seq<char>,
    subkey: Seq<char>,
)
    requires
        docs.len() > 0,
        forall|d: int| 0 <= d < docs.len() ==> doc_wf(#[trigger] docs[d]),
        forall|d: int|
            0 <= d < docs.len() ==> doc_has_key(#[trigger] docs[d], key) && (doc_value(
                docs[d],
                key,
            ) is Document),
        forall|d: int|
            0 <= d < docs.len() ==> scalar_doc(doc_value(#[trigger] docs[d], key)->Document_0@),
        occurrences(subdocs(docs, key), subkey) > 0,
    ensures
        ({
            let pf = accumulate_spec(empty_parser(), docs, None);
            &&& find_key(pf.fields, key) is Some
            &&& {
                let r = pf.fields[find_key(pf.fields, key)->0].1;
                &&& r.count == docs.len()
                &&& r.schema is Some
                &&& {
                    let child = r.schema->0;
                    let qc = finalise_parser_spec(child);
                    &&& child.count == docs.len()
                    &&& find_key(child.fields, subkey) is Some
                    &&& {
                        let s = qc.fields[find_key(child.fields, subkey)->0].1;
                        &&& s.count == occurrences(subdocs(docs, key), subkey)
                        &&& s.probability == (
                            occurrences(subdocs(docs, key), subkey),
                            docs.len() as nat,
                        )
                    }
                }
            }
        }),
{
    lemma_accumulate_dockey(empty_parser(), docs, None, key);
    let sub = subdocs(docs, key);
    assert forall|d: int| 0 <= d < sub.len() implies doc_wf(#[trigger] sub[d]) && scalar_doc(
        sub[d],
    ) by {
        lemma_doc_value(docs[d], key);
        assert(sub[d] == doc_value(docs[d], key)->Document_0@);
    }
    let path = child_path(None, key);
    lemma_accumulate_scalar(empty_parser(), sub, Some(path), subkey);
    let child = accumulate_spec(empty_parser(), sub, Some(path));
    lemma_find_key_props(child.fields, subkey);
    lemma_finalise_fields(child.fields, child.count);
}

/// Finalising twice against the same parent count is the same as finalising
/// once: the probability, the distinct-value count, the duplicate flag and
/// every nested schema come out identical.
pub proof fn lemma_finalise_idempotent(r: RecordModel, parent_count: nat)
    ensures
        finalise_record_spec(finalise_record_spec(r, parent_count), parent_count)
            == finalise_record_spec(r, parent_count),
    decreases r,
{
    match r.schema {
        Some(c) => {
            lemma_finalise_parser_idempotent(c);
        },
        None => {},
    }
    assert(finalise_record_spec(finalise_record_spec(r, parent_count), parent_count)
        =~= finalise_record_spec(r, parent_count));
}

/// Finalising an accumulator twice is the same as finalising it once.
pub proof fn lemma_finalise_parser_idempotent(p: ParserModel)
    ensures
        finalise_parser_spec(finalise_parser_spec(p)) == finalise_parser_spec(p),
    decreases p,
{
    lemma_finalise_fields_idempotent(p.fields, p.count);
    assert(finalise_parser_spec(finalise_parser_spec(p)) =~= finalise_parser_spec(p));
}

/// Finalising a field table twice against one parent count is the same as
/// finalising it once.
pub proof fn lemma_finalise_fields_idempotent(
    q: Seq<(Seq<char>, RecordModel)>,
    parent_count: nat,
)
    ensures
        finalise_fields_spec(finalise_fields_spec(q, parent_count), parent_count)
            == finalise_fields_spec(q, parent_count),
    decreases q,
{
    lemma_finalise_fields(q, parent_count);
    lemma_finalise_fields(finalise_fields_spec(q, parent_count), parent_count);
    assert forall|i: int| 0 <= i < q.len() implies #[trigger] finalise_fields_spec(
        finalise_fields_spec(q, parent_count),
        parent_count,
    )[i] == finalise_fields_spec(q, parent_count)[i] by {
        lemma_finalise_idempotent(q[i].1, parent_count);
    }
    assert(finalise_fields_spec(finalise_fields_spec(q, parent_count), parent_count)
        =~= finalise_fields_spec(q, parent_count));
}

/// The declared type never changes once set: neither folding in the first
/// observation, nor any repeat observation (matching or mismatching), nor
/// finalisation touches it.
pub proof fn lemma_declared_type_stable(r: RecordModel, v: Bson, parent_count: nat)
    ensures
        add_spec(r, v, parent_count).bson_type == r.bson_type,
        update_spec(r, v, parent_count).0.bson_type == r.bson_type,
        finalise_record_spec(r, parent_count).bson_type == r.bson_type,
{
}

/// The value pool and the observation count never shrink or change under a
/// repeat observation: an update only appends to the pool, and a mismatch
/// changes nothing at all.
pub proof fn lemma_update_preserves_pool(r: RecordModel, v: Bson, parent_count: nat)
    ensures
        ({
            let r2 = update_spec(r, v, parent_count).0;
            &&& r2.values.subrange(0, r.values.len() as int) == r.values
            &&& r.count <= r2.count
        }),
{
    let r2 = update_spec(r, v, parent_count).0;
    assert(r2.values.subrange(0, r.values.len() as int) =~= r.values);
}

} // verus!
