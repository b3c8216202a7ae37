//! The per-container schema accumulator.

use crate::record::FieldType;
use crate::record::MismatchModel;
use crate::record::RecordModel;
use crate::record::add_spec;
use crate::record::finalise_record_spec;
use crate::record::new_record_spec;
use crate::record::rec_wf;
use crate::record::record_model;
use crate::record::update_spec;
use crate::record::errs_model;
use crate::record::TypeMismatch;
use crate::value::Document;
use crate::value::bson_wf;
use crate::value::doc_wf;
use crate::value::lemma_label_is_document;
use vstd::string::StringExecFns;
use crate::value::Bson;
use vstd::prelude::*;

verus! {

/// The schema accumulator for one document container (top level or nested):
/// a mapping from field key to [`FieldType`] in order of first appearance,
/// together with the number of documents observed at this level.
#[derive(Debug, PartialEq)]
pub struct SchemaParser {
    /// One entry per distinct field key, in order of first appearance; the
    /// keys are pairwise distinct.
    pub fields: Vec<(String, FieldType)>,
    /// Number of documents observed at this level: the `parent_count`
    /// baseline when its records are finalised.
    pub count: usize,
}

/// Mathematical model of a [`SchemaParser`].
#[verifier::ext_equal]
pub struct ParserModel {
    pub fields: Seq<(Seq<char>, RecordModel)>,
    pub count: nat,
}

/// The model of a field table, entry by entry.
pub open spec fn fields_model(q: Seq<(String, FieldType)>) -> Seq<(Seq<char>, RecordModel)>
    decreases q,
{
    if q.len() == 0 {
        Seq::empty()
    } else {
        seq![(q[0].0@, record_model(q[0].1))] + fields_model(q.drop_first())
    }
}

/// The model of an accumulator, mirroring both fields.
pub open spec fn parser_model(s: SchemaParser) -> ParserModel
    decreases s,
{
    ParserModel { fields: fields_model(s.fields@), count: s.count as nat }
}

impl View for SchemaParser {
    type V = ParserModel;

    open spec fn view(&self) -> ParserModel {
        parser_model(*self)
    }
}

/// The model of a freshly created accumulator: no fields, no documents.
pub open spec fn empty_parser() -> ParserModel {
    ParserModel { fields: Seq::empty(), count: 0 }
}

/// The index of the first entry with the given key, if any.
pub open spec fn find_key(fields: Seq<(Seq<char>, RecordModel)>, key: Seq<char>) -> Option<int>
    decreases fields.len(),
{
    if fields.len() == 0 {
        None
    } else if fields[0].0 == key {
        Some(0int)
    } else {
        match find_key(fields.drop_first(), key) {
            Some(i) => Some(i + 1),
            None => None,
        }
    }
}

/// The path recorded for a field: the key itself at the top level, or the
/// owning field's path, a dot, and the key at a nested level.
pub open spec fn child_path(prefix: Option<Seq<char>>, key: Seq<char>) -> Seq<char> {
    match prefix {
        None => key,
        Some(pre) => pre + "."@ + key,
    }
}

/// The effect of folding a document's remaining key/value pairs, in order,
/// into an accumulator whose document counter was already advanced.  A fresh
/// key appends the record of a first sighting, its first observation folded
/// in; a known key updates its record against `prior`, the counter before
/// the current document.  Mismatch errors are collected in order and abort
/// nothing.
pub open spec fn observe_pairs_spec(
    p: ParserModel,
    pairs: Seq<(String, Bson)>,
    prefix: Option<Seq<char>>,
    prior: nat,
) -> (ParserModel, Seq<MismatchModel>)
    decreases pairs, 0int,
{
    if pairs.len() == 0 {
        (p, Seq::empty())
    } else {
        let key = pairs[0].0@;
        let v = pairs[0].1;
        let step = match find_key(p.fields, key) {
            None => (
                ParserModel {
                    fields: p.fields.push((key, new_record_spec(child_path(prefix, key), v))),
                    ..p
                },
                Seq::<MismatchModel>::empty(),
            ),
            Some(i) => {
                let (r2, errs) = update_spec(p.fields[i].1, v, prior);
                (ParserModel { fields: p.fields.update(i, (p.fields[i].0, r2)), ..p }, errs)
            },
        };
        let rest = observe_pairs_spec(step.0, pairs.drop_first(), prefix, prior);
        (rest.0, step.1 + rest.1)
    }
}

/// The effect of observing one document at this level: the level's document
/// counter advances by one, then every pair of the document is folded in.
pub open spec fn observe_spec(
    p: ParserModel,
    doc: Seq<(String, Bson)>,
    prefix: Option<Seq<char>>,
) -> (ParserModel, Seq<MismatchModel>)
    decreases doc, 1int,
{
    observe_pairs_spec(ParserModel { count: p.count + 1, ..p }, doc, prefix, p.count)
}

/// The effect of finalising every record of a field table against the
/// level's final document count.
pub open spec fn finalise_fields_spec(
    q: Seq<(Seq<char>, RecordModel)>,
    parent_count: nat,
) -> Seq<(Seq<char>, RecordModel)>
    decreases q,
{
    if q.len() == 0 {
        Seq::empty()
    } else {
        seq![(q[0].0, finalise_record_spec(q[0].1, parent_count))] + finalise_fields_spec(
            q.drop_first(),
            parent_count,
        )
    }
}

/// The effect of finalising an accumulator: every record is finalised
/// against this level's own document count, which is authoritative for its
/// fields' probabilities.
pub open spec fn finalise_parser_spec(p: ParserModel) -> ParserModel
    decreases p,
{
    ParserModel { fields: finalise_fields_spec(p.fields, p.count), ..p }
}

/// The model of a field table mirrors it entry by entry.
pub proof fn lemma_fields_model(q: Seq<(String, FieldType)>)
    ensures
        fields_model(q).len() == q.len(),
        forall|i: int|
            0 <= i < q.len() ==> #[trigger] fields_model(q)[i] == (q[i].0@, record_model(q[i].1)),
    decreases q.len(),
{
    if q.len() > 0 {
        lemma_fields_model(q.drop_first());
    }
}

/// [`find_key`] returns the first entry with the given key: the entry it
/// points at carries the key, nothing before it does, and a `None` means no
/// entry does.
pub proof fn lemma_find_key_props(fields: Seq<(Seq<char>, RecordModel)>, key: Seq<char>)
    ensures
        match find_key(fields, key) {
            Some(i) => 0 <= i < fields.len() && fields[i].0 == key && forall|j: int|
                0 <= j < i ==> (#[trigger] fields[j]).0 != key,
            None => forall|j: int| 0 <= j < fields.len() ==> (#[trigger] fields[j]).0 != key,
        },
    decreases fields.len(),
{
    if fields.len() > 0 {
        let rest = fields.drop_first();
        lemma_find_key_props(rest, key);
        assert forall|j: int| 0 <= j < rest.len() implies #[trigger] rest[j] == fields[j + 1] by {}
        if fields[0].0 != key {
            match find_key(rest, key) {
                Some(i) => {
                    assert(rest[i] == fields[i + 1]);
                    assert forall|j: int| 0 <= j < i + 1 implies (#[trigger] fields[j]).0
                        != key by {
                        if j > 0 {
                            assert(rest[j - 1] == fields[j]);
                        }
                    }
                },
                None => {
                    assert forall|j: int| 0 <= j < fields.len() implies (#[trigger] fields[j]).0
                        != key by {
                        if j > 0 {
                            assert(rest[j - 1] == fields[j]);
                        }
                    }
                },
            }
        }
    }
}

/// Appending an entry with a different key leaves a lookup unchanged.
pub proof fn lemma_find_key_push(
    fields: Seq<(Seq<char>, RecordModel)>,
    key: Seq<char>,
    entry: (Seq<char>, RecordModel),
)
    requires
        entry.0 != key,
    ensures
        find_key(fields.push(entry), key) == find_key(fields, key),
    decreases fields.len(),
{
    if fields.len() == 0 {
        assert(fields.push(entry).drop_first() =~= Seq::<(Seq<char>, RecordModel)>::empty().push(
            entry,
        ).drop_first());
        assert(fields.push(entry)[0] == entry);
    } else {
        assert(fields.push(entry)[0] == fields[0]);
        assert(fields.push(entry).drop_first() =~= fields.drop_first().push(entry));
        lemma_find_key_push(fields.drop_first(), key, entry);
    }
}

/// Replacing an entry by one with the same key leaves every lookup
/// unchanged.
pub proof fn lemma_find_key_update(
    fields: Seq<(Seq<char>, RecordModel)>,
    key: Seq<char>,
    at: int,
    entry: (Seq<char>, RecordModel),
)
    requires
        0 <= at < fields.len(),
        entry.0 == fields[at].0,
    ensures
        find_key(fields.update(at, entry), key) == find_key(fields, key),
    decreases fields.len(),
{
    if at == 0 {
        assert(fields.update(at, entry)[0].0 == fields[0].0);
        assert(fields.update(at, entry).drop_first() =~= fields.drop_first());
    } else {
        assert(fields.update(at, entry)[0] == fields[0]);
        assert(fields.update(at, entry).drop_first() =~= fields.drop_first().update(
            at - 1,
            entry,
        ));
        lemma_find_key_update(fields.drop_first(), key, at - 1, entry);
    }
}

/// The model of an optional path prefix.
pub open spec fn prefix_model(prefix: Option<&String>) -> Option<Seq<char>> {
    match prefix {
        Some(p) => Some(p@),
        None => None,
    }
}

impl SchemaParser {
    /// Creates an empty accumulator: no fields, no documents observed.
    pub fn new() -> (r: SchemaParser)
        ensures
            r@ == empty_parser(),
    {
        let r = SchemaParser { fields: Vec::new(), count: 0 };
        proof {
            assert(r@ =~= empty_parser());
        }
        r
    }

    /// The position of the record for `key`, if the field was seen before
    /// at this level.
    fn find_field(&self, key: &String) -> (r: Option<usize>)
        ensures
            match r {
                Some(i) => find_key(self@.fields, key@) == Some(i as int),
                None => find_key(self@.fields, key@) is None,
            },
    {
        proof {
            lemma_fields_model(self.fields@);
            lemma_find_key_props(self@.fields, key@);
        }
        let mut i: usize = 0;
        while i < self.fields.len()
            invariant
                i <= self.fields@.len(),
                fields_model(self.fields@).len() == self.fields@.len(),
                forall|j: int|
                    0 <= j < self.fields@.len() ==> #[trigger] fields_model(self.fields@)[j] == (
                        self.fields@[j].0@,
                        record_model(self.fields@[j].1),
                    ),
                forall|j: int| 0 <= j < i ==> (#[trigger] fields_model(self.fields@)[j]).0 != key@,
            decreases self.fields@.len() - i,
        {
            let pair = &self.fields[i];
            if pair.0 == *key {
                proof {
                    assert(self@.fields[i as int].0 == key@);
                    lemma_find_key_props(self@.fields, key@);
                    match find_key(self@.fields, key@) {
                        Some(k) => {
                            if k < i {
                                assert(self@.fields[k].0 != key@);
                            } else if k > i {
                                assert(self@.fields[i as int].0 != key@);
                            }
                        },
                        None => {
                            assert(self@.fields[i as int].0 != key@);
                        },
                    }
                }
                return Some(i);
            }
            i += 1;
        }
        proof {
            lemma_find_key_props(self@.fields, key@);
        }
        None
    }
}

impl SchemaParser {
    /// Observes one document at this level: the document counter advances,
    /// then each field of the document either creates a fresh record (first
    /// sighting, its path built from `prefix`) or updates the existing one
    /// against the counter as it stood before this document.  Mismatch
    /// errors are returned in document order; none aborts the processing of
    /// sibling fields.
    pub fn observe_document(&mut self, doc: &Document, prefix: Option<&String>) -> (errs: Vec<
        TypeMismatch,
    >)
        requires
            old(self).count < usize::MAX,
            parser_wf(old(self)@),
            doc_wf(doc@),
        ensures
            final(self)@ == observe_spec(old(self)@, doc@, prefix_model(prefix)).0,
            errs_model(errs@) == observe_spec(old(self)@, doc@, prefix_model(prefix)).1,
            parser_wf(final(self)@),
            final(self)@.count == old(self)@.count + 1,
        decreases doc,
    {
        let ghost p0 = self@;
        let ghost pfx = prefix_model(prefix);
        let prior: usize = self.count;
        self.count = self.count + 1;
        proof {
            assert(self@ =~= (ParserModel { count: p0.count + 1, ..p0 }));
        }
        let ghost p1 = self@;
        let mut errs: Vec<TypeMismatch> = Vec::new();
        let mut i: usize = 0;
        proof {
            assert(doc@.subrange(0, doc@.len() as int) =~= doc@);
            assert(errs_model(errs@) =~= Seq::<MismatchModel>::empty());
            let rest = observe_pairs_spec(self@, doc@, pfx, p0.count);
            assert(errs_model(errs@) + rest.1 =~= rest.1);
            assert forall|j: int| 0 <= j < doc@.len() implies match find_key(
                self@.fields,
                (#[trigger] doc@[j]).0@,
            ) {
                Some(k) => self@.fields[k].1.count <= p0.count,
                None => true,
            } by {
                lemma_find_key_props(self@.fields, doc@[j].0@);
            }
        }
        while i < doc.len()
            invariant
                i <= doc@.len(),
                doc_wf(doc@),
                parser_wf(self@),
                self@.count == p1.count,
                p1 == (ParserModel { count: p0.count + 1, ..p0 }),
                p0.count < usize::MAX,
                prior as nat == p0.count,
                pfx == prefix_model(prefix),
                observe_pairs_spec(p1, doc@, pfx, p0.count) == ({
                    let rest = observe_pairs_spec(
                        self@,
                        doc@.subrange(i as int, doc@.len() as int),
                        pfx,
                        p0.count,
                    );
                    (rest.0, errs_model(errs@) + rest.1)
                }),
                forall|j: int|
                    i <= j < doc@.len() ==> match find_key(
                        self@.fields,
                        (#[trigger] doc@[j]).0@,
                    ) {
                        Some(k) => self@.fields[k].1.count <= p0.count,
                        None => true,
                    },
            decreases doc@.len() - i,
        {
            let pair = &doc[i];
            let v = &pair.1;
            let ghost cur = self@;
            let ghost key_spec = doc@[i as int].0@;
            let ghost vi = doc@[i as int].1;
            let ghost remaining = doc@.subrange(i as int, doc@.len() as int);
            proof {
                assert(remaining[0] == doc@[i as int]);
                assert(remaining.drop_first() =~= doc@.subrange(i as int + 1, doc@.len() as int));
                assert(bson_wf(vi));
                assert(decreases_to!(doc@ => doc@[i as int]));
                assert(decreases_to!(doc@[i as int] => doc@[i as int].1));
            }
            let path: String = match prefix {
                None => pair.0.clone(),
                Some(pre) => {
                    let mut s = pre.clone();
                    s.append(".");
                    s.append(pair.0.as_str());
                    s
                },
            };
            proof {
                assert(path@ == child_path(pfx, key_spec));
            }
            let ghost errs_before = errs@;
            match self.find_field(&pair.0) {
                None => {
                    let ft = FieldType::new(path.as_str(), v);
                    let ghost fv0 = self.fields@;
                    self.fields.push((pair.0.clone(), ft));
                    proof {
                        lemma_fields_model(fv0);
                        lemma_fields_model(self.fields@);
                        let entry = (key_spec, new_record_spec(child_path(pfx, key_spec), vi));
                        assert(ft@ == entry.1);
                        assert(self@.fields =~= cur.fields.push(entry));
                        assert(self@ =~= (ParserModel { fields: cur.fields.push(entry), ..cur }));
                        // The step taken matches the model's fresh-key branch.
                        let stepped = observe_pairs_spec(cur, remaining, pfx, p0.count);
                        let rest2 = observe_pairs_spec(
                            self@,
                            remaining.drop_first(),
                            pfx,
                            p0.count,
                        );
                        assert(stepped == (rest2.0, Seq::<MismatchModel>::empty() + rest2.1));
                        assert(Seq::<MismatchModel>::empty() + rest2.1 =~= rest2.1);
                        // Well-formedness of the new record.
                        lemma_find_key_props(cur.fields, key_spec);
                        lemma_label_is_document(vi);
                        assert(rec_wf(entry.1));
                        assert(parser_wf(self@));
                        // Lookups for the document's later keys are unchanged.
                        assert forall|j: int| i + 1 <= j < doc@.len() implies match find_key(
                            self@.fields,
                            (#[trigger] doc@[j]).0@,
                        ) {
                            Some(k) => self@.fields[k].1.count <= p0.count,
                            None => true,
                        } by {
                            assert(doc@[i as int].0@ != doc@[j].0@);
                            lemma_find_key_push(cur.fields, doc@[j].0@, entry);
                            lemma_find_key_props(cur.fields, doc@[j].0@);
                            match find_key(cur.fields, doc@[j].0@) {
                                Some(k) => {
                                    assert(self@.fields[k] == cur.fields[k]);
                                },
                                None => {},
                            }
                        }
                    }
                },
                Some(idx) => {
                    let ghost fv0 = self.fields@;
                    proof {
                        lemma_fields_model(fv0);
                        lemma_find_key_props(cur.fields, key_spec);
                        assert(cur.fields[idx as int].1.count <= p0.count);
                        assert(rec_wf(cur.fields[idx as int].1));
                    }
                    let (k2, mut ft) = self.fields.remove(idx);
                    let mut es = ft.update_type(v, prior);
                    let ghost es0 = es@;
                    self.fields.insert(idx, (k2, ft));
                    errs.append(&mut es);
                    proof {
                        lemma_fields_model(self.fields@);
                        assert(self.fields@ =~= fv0.update(
                            idx as int,
                            (fv0[idx as int].0, self.fields@[idx as int].1),
                        ));
                        let r2 = update_spec(cur.fields[idx as int].1, vi, p0.count).0;
                        let entry = (cur.fields[idx as int].0, r2);
                        assert(ft@ == r2);
                        assert(self@.fields =~= cur.fields.update(idx as int, entry));
                        assert(self@ =~= (ParserModel {
                            fields: cur.fields.update(idx as int, entry),
                            ..cur
                        }));
                        // The step taken matches the model's known-key branch.
                        let stepped = observe_pairs_spec(cur, remaining, pfx, p0.count);
                        let rest2 = observe_pairs_spec(
                            self@,
                            remaining.drop_first(),
                            pfx,
                            p0.count,
                        );
                        let es_spec = update_spec(cur.fields[idx as int].1, vi, p0.count).1;
                        assert(stepped == (rest2.0, es_spec + rest2.1));
                        assert(errs_model(errs@) =~= errs_model(errs_before) + errs_model(es0));
                        assert(errs_model(es0) == es_spec);
                        // Well-formedness is preserved by the update.
                        assert(parser_wf(self@));
                        // Lookups for the document's later keys are unchanged.
                        assert forall|j: int| i + 1 <= j < doc@.len() implies match find_key(
                            self@.fields,
                            (#[trigger] doc@[j]).0@,
                        ) {
                            Some(k) => self@.fields[k].1.count <= p0.count,
                            None => true,
                        } by {
                            assert(doc@[i as int].0@ != doc@[j].0@);
                            lemma_find_key_update(cur.fields, doc@[j].0@, idx as int, entry);
                            lemma_find_key_props(cur.fields, doc@[j].0@);
                            match find_key(cur.fields, doc@[j].0@) {
                                Some(k) => {
                                    assert(cur.fields[k].0 == doc@[j].0@);
                                    assert(k != idx);
                                    assert(self@.fields[k] == cur.fields[k]);
                                },
                                None => {},
                            }
                        }
                    }
                },
            }
            proof {
                // Thread the partial fold forward by one pair.
                let rest_b = observe_pairs_spec(cur, remaining, pfx, p0.count);
                let rest_a = observe_pairs_spec(
                    self@,
                    doc@.subrange(i as int + 1, doc@.len() as int),
                    pfx,
                    p0.count,
                );
                assert(remaining.drop_first() =~= doc@.subrange(i as int + 1, doc@.len() as int));
                assert(rest_b.0 == rest_a.0);
                assert(errs_model(errs_before) + rest_b.1 =~= errs_model(errs@) + rest_a.1);
            }
            i += 1;
        }
        proof {
            assert(doc@.subrange(doc@.len() as int, doc@.len() as int) =~= Seq::<
                (String, Bson),
            >::empty());
            let rest = observe_pairs_spec(
                self@,
                doc@.subrange(doc@.len() as int, doc@.len() as int),
                pfx,
                p0.count,
            );
            assert(rest.0 == self@);
            assert(errs_model(errs@) + rest.1 =~= errs_model(errs@));
        }
        errs
    }
}

/// The finalised field table mirrors the original entry by entry.
pub proof fn lemma_finalise_fields(q: Seq<(Seq<char>, RecordModel)>, parent_count: nat)
    ensures
        finalise_fields_spec(q, parent_count).len() == q.len(),
        forall|i: int|
            0 <= i < q.len() ==> #[trigger] finalise_fields_spec(q, parent_count)[i] == (
                q[i].0,
                finalise_record_spec(q[i].1, parent_count),
            ),
    decreases q.len(),
{
    if q.len() > 0 {
        lemma_finalise_fields(q.drop_first(), parent_count);
    }
}

/// Finalises one accumulator by value: every record is finalised against
/// this level's own document count, nested schemas recursively.
#[verifier::loop_isolation(false)]
pub(crate) fn finalise_schema_owned(s: SchemaParser) -> (r: SchemaParser)
    ensures
        r@ == finalise_parser_spec(s@),
    decreases s,
{
    let ghost orig = s;
    let SchemaParser { mut fields, count } = s;
    let ghost f0 = fields@;
    let mut done: Vec<(String, FieldType)> = Vec::new();
    proof {
        lemma_fields_model(f0);
        assert(fields@ =~= f0.subrange(0, f0.len() as int));
    }
    while fields.len() > 0
        invariant
            done@.len() + fields@.len() == f0.len(),
            fields@ == f0.subrange(done@.len() as int, f0.len() as int),
            forall|k: int|
                0 <= k < done@.len() ==> (#[trigger] done@[k]).0 == f0[k].0 && done@[k].1@
                    == finalise_record_spec(record_model(f0[k].1), count as nat),
            orig.fields@ == f0,
            orig.count == count,
        decreases fields@.len(),
    {
        let ghost k = done@.len() as int;
        let (key, ft) = fields.remove(0);
        proof {
            assert(f0.subrange(k, f0.len() as int)[0] == f0[k]);
            assert(ft == orig.fields@[k].1);
            assert(key == f0[k].0);
            assert(decreases_to!(orig => orig.fields));
            assert(decreases_to!(orig.fields => orig.fields@));
            assert(decreases_to!(orig.fields@ => orig.fields@[k]));
            assert(decreases_to!(orig.fields@[k] => orig.fields@[k].1));
        }
        let ft2 = crate::record::finalise_field_owned(ft, count);
        done.push((key, ft2));
        proof {
            assert(fields@ =~= f0.subrange(k, f0.len() as int).drop_first());
            assert(fields@ =~= f0.subrange(k + 1, f0.len() as int));
        }
    }
    let r = SchemaParser { fields: done, count };
    proof {
        lemma_fields_model(done@);
        lemma_finalise_fields(fields_model(f0), count as nat);
        assert(fields_model(done@) =~= finalise_fields_spec(fields_model(f0), count as nat));
        assert(r@ =~= finalise_parser_spec(orig@));
    }
    r
}

impl SchemaParser {
    /// Finalises every record at this level against this level's own
    /// document count; nested schemas are finalised recursively against
    /// theirs.
    pub fn finalise(&mut self)
        ensures
            final(self)@ == finalise_parser_spec(old(self)@),
    {
        let mut tmp = SchemaParser { fields: Vec::new(), count: 0 };
        core::mem::swap(self, &mut tmp);
        let out = finalise_schema_owned(tmp);
        *self = out;
    }
}

/// Folding a document none of whose keys the accumulator has seen reports
/// nothing: every field is a first sighting, and a first sighting cannot
/// conflict with a declared type.
proof fn lemma_pairs_fresh_no_errors(
    p: ParserModel,
    pairs: Seq<(String, Bson)>,
    prefix: Option<Seq<char>>,
    prior: nat,
)
    requires
        forall|a: int, b: int|
            0 <= a < b < pairs.len() ==> (#[trigger] pairs[a]).0@ != (#[trigger] pairs[b]).0@,
        forall|a: int| 0 <= a < pairs.len() ==> find_key(p.fields, (#[trigger] pairs[a]).0@) is None,
    ensures
        observe_pairs_spec(p, pairs, prefix, prior).1 == Seq::<
            MismatchModel,
        >::empty(),
    decreases pairs.len(),
{
    if pairs.len() > 0 {
        let k0 = pairs[0].0@;
        let v = pairs[0].1;
        let rest = pairs.drop_first();
        assert forall|j: int| 0 <= j < rest.len() implies #[trigger] rest[j] == pairs[j + 1] by {}
        let entry = (k0, new_record_spec(child_path(prefix, k0), v));
        let step = ParserModel { fields: p.fields.push(entry), ..p };
        assert forall|a: int| 0 <= a < rest.len() implies find_key(
            step.fields,
            (#[trigger] rest[a]).0@,
        ) is None by {
            assert(rest[a].0@ != k0);
            lemma_find_key_push(p.fields, rest[a].0@, entry);
        }
        lemma_pairs_fresh_no_errors(step, rest, prefix, prior);
        assert(Seq::<MismatchModel>::empty() + observe_pairs_spec(
            step,
            rest,
            prefix,
            prior,
        ).1 =~= observe_pairs_spec(step, rest, prefix, prior).1);
    }
}

/// Observing any document with distinct keys on a fresh accumulator
/// surfaces no mismatch.
pub proof fn lemma_fresh_observe_no_errors(doc: Seq<(String, Bson)>, prefix: Option<Seq<char>>)
    requires
        forall|a: int, b: int|
            0 <= a < b < doc.len() ==> (#[trigger] doc[a]).0@ != (#[trigger] doc[b]).0@,
    ensures
        observe_spec(empty_parser(), doc, prefix).1 == Seq::<
            MismatchModel,
        >::empty(),
{
    let p1 = ParserModel { count: 1, ..empty_parser() };
    assert forall|a: int| 0 <= a < doc.len() implies find_key(
        p1.fields,
        (#[trigger] doc[a]).0@,
    ) is None by {}
    lemma_pairs_fresh_no_errors(p1, doc, prefix, 0);
}

/// Well-formedness of an accumulator: keys are pairwise distinct, every
/// record is well-formed, and no field was observed more often than the
/// level saw documents.
pub open spec fn parser_wf(p: ParserModel) -> bool
    decreases p, 2int,
{
    &&& forall|i: int, j: int|
        0 <= i < j < p.fields.len() ==> (#[trigger] p.fields[i]).0 != (#[trigger] p.fields[j]).0
    &&& forall|i: int|
        0 <= i < p.fields.len() ==> rec_wf((#[trigger] p.fields[i]).1) && p.fields[i].1.count
            <= p.count
}

} // verus!
