use schema_parser::Bson;
use schema_parser::FieldType;
use schema_parser::SchemaParser;
use schema_parser::ValueType;

fn record_for<'a>(parser: &'a SchemaParser, key: &str) -> &'a FieldType {
    for (k, ft) in parser.fields.iter() {
        if k == key {
            return ft;
        }
    }
    panic!("no record for {}", key);
}

#[test]
fn consistent_field_has_probability_one() {
    let mut parser = SchemaParser::new();
    let errs = parser.observe_document(&vec![("f".to_string(), Bson::I32(1))], None);
    assert!(errs.is_empty());
    let errs = parser.observe_document(&vec![("f".to_string(), Bson::I32(2))], None);
    assert!(errs.is_empty());
    let errs = parser.observe_document(&vec![("f".to_string(), Bson::I32(3))], None);
    assert!(errs.is_empty());
    parser.finalise();
    let r = record_for(&parser, "f");
    assert_eq!(r.count, 3);
    assert_eq!(r.probability.num as f32 / r.probability.den as f32, 1.0);
}

#[test]
fn partial_field_has_fractional_probability() {
    let mut parser = SchemaParser::new();
    parser.observe_document(
        &vec![("f".to_string(), Bson::I32(1)), ("g".to_string(), Bson::Boolean(true))],
        None,
    );
    parser.observe_document(&vec![("g".to_string(), Bson::Boolean(false))], None);
    parser.observe_document(&vec![("g".to_string(), Bson::Boolean(true))], None);
    parser.observe_document(&vec![("f".to_string(), Bson::I32(9))], None);
    parser.finalise();
    let f = record_for(&parser, "f");
    assert_eq!(f.count, 2);
    assert_eq!(f.probability.num, 2);
    assert_eq!(f.probability.den, 4);
    assert_eq!(f.probability.num as f32 / f.probability.den as f32, 0.5);
    let g = record_for(&parser, "g");
    assert_eq!(g.count, 3);
    assert_eq!(g.probability.num, 3);
    assert_eq!(g.probability.den, 4);
}

#[test]
fn create_installs_child_schema_for_documents() {
    let doc = Bson::Document(vec![("age".to_string(), Bson::I32(30))]);
    let ft = FieldType::new("person", &doc);
    assert_eq!(ft.bson_type, "Document");
    assert_eq!(ft.count, 1);
    assert!(ft.values.is_empty());
    let child = ft.schema.as_ref().expect("child schema");
    assert_eq!(child.count, 1);
    let age = record_for(child, "age");
    assert_eq!(age.path, "person.age");
    assert_eq!(age.count, 1);
    assert_eq!(age.values, vec![ValueType::I32(30)]);

    let scalar = FieldType::new("city", &Bson::String("Berlin".to_string()));
    assert!(scalar.schema.is_none());
    assert_eq!(scalar.values, vec![ValueType::Str("Berlin".to_string())]);
}

#[test]
fn add_to_type_folds_values_without_advancing_count() {
    let mut ft = FieldType::new("n", &Bson::I32(1));
    ft.add_to_type(&Bson::I32(2), 4);
    assert_eq!(ft.count, 1);
    assert_eq!(ft.values, vec![ValueType::I32(1), ValueType::I32(2)]);
    assert_eq!(ft.probability.num, 1);
    assert_eq!(ft.probability.den, 4);
}

#[test]
fn dedup_distinct_and_repeated_values() {
    let mut ft = FieldType::new("city", &Bson::String("Berlin".to_string()));
    ft.values.clear();
    ft.values.push(ValueType::Str("Berlin".to_string()));
    ft.values.push(ValueType::Str("Hamburg".to_string()));
    ft.set_unique();
    ft.set_duplicates();
    assert_eq!(ft.unique, Some(2));
    assert_eq!(ft.has_duplicates, false);

    let mut ft2 = FieldType::new("city", &Bson::String("Berlin".to_string()));
    ft2.values.clear();
    ft2.values.push(ValueType::Str("Berlin".to_string()));
    ft2.values.push(ValueType::Str("Berlin".to_string()));
    ft2.set_unique();
    ft2.set_duplicates();
    assert_eq!(ft2.unique, Some(1));
    assert_eq!(ft2.has_duplicates, true);
}

#[test]
fn array_value_is_flattened() {
    let arr = Bson::Array(vec![Bson::I32(1), Bson::I32(2), Bson::I32(3)]);
    let ft = FieldType::new("nums", &arr);
    assert_eq!(ft.values.len(), 3);
    assert_eq!(ft.values[0], ValueType::I32(1));
    assert_eq!(ft.values[1], ValueType::I32(2));
    assert_eq!(ft.values[2], ValueType::I32(3));
    assert_eq!(ft.bson_type, "Array");
}

#[test]
fn containers_inside_arrays_are_dropped() {
    let arr = Bson::Array(vec![
        Bson::I32(1),
        Bson::Array(vec![Bson::I32(7)]),
        Bson::Document(vec![("x".to_string(), Bson::I32(8))]),
        Bson::Boolean(true),
    ]);
    let ft = FieldType::new("mixed", &arr);
    assert_eq!(ft.values.len(), 2);
    assert_eq!(ft.values[0], ValueType::I32(1));
    assert_eq!(ft.values[1], ValueType::Boolean(true));
}

#[test]
fn nested_documents_build_child_schema() {
    let mut parser = SchemaParser::new();
    for age in [30i32, 40i32] {
        let doc = vec![(
            "person".to_string(),
            Bson::Document(vec![("age".to_string(), Bson::I32(age))]),
        )];
        let errs = parser.observe_document(&doc, None);
        assert!(errs.is_empty());
    }
    parser.finalise();
    let person = record_for(&parser, "person");
    assert_eq!(person.bson_type, "Document");
    assert_eq!(person.count, 2);
    let child = person.schema.as_ref().expect("child schema");
    assert_eq!(child.count, 2);
    let age = record_for(child, "age");
    assert_eq!(age.path, "person.age");
    assert_eq!(age.count, 2);
    assert_eq!(age.probability.num, 2);
    assert_eq!(age.probability.den, 2);
    assert_eq!(age.unique, Some(2));
    assert_eq!(age.has_duplicates, false);
}

#[test]
fn child_probability_is_relative_to_subdocuments() {
    // The nested field appears in only one of the two sub-documents, while
    // the outer field appears in both documents.
    let mut parser = SchemaParser::new();
    let doc1 = vec![(
        "person".to_string(),
        Bson::Document(vec![("age".to_string(), Bson::I32(30))]),
    )];
    let doc2 = vec![(
        "person".to_string(),
        Bson::Document(vec![("name".to_string(), Bson::String("Ada".to_string()))]),
    )];
    parser.observe_document(&doc1, None);
    parser.observe_document(&doc2, None);
    parser.finalise();
    let person = record_for(&parser, "person");
    assert_eq!(person.probability.num, 2);
    assert_eq!(person.probability.den, 2);
    let child = person.schema.as_ref().expect("child schema");
    let age = record_for(child, "age");
    assert_eq!(age.count, 1);
    assert_eq!(age.probability.num, 1);
    assert_eq!(age.probability.den, 2);
}

#[test]
fn finalise_twice_is_idempotent() {
    let mut ft = FieldType::new("city", &Bson::String("Berlin".to_string()));
    ft.update_count();
    ft.update_value(&Bson::String("Berlin".to_string()));
    ft.finalise_type(5);
    let first = (ft.probability, ft.unique, ft.has_duplicates);
    ft.finalise_type(5);
    assert_eq!((ft.probability, ft.unique, ft.has_duplicates), first);
    assert_eq!(ft.unique, Some(1));
    assert_eq!(ft.has_duplicates, true);
    assert_eq!(ft.probability.num, 2);
    assert_eq!(ft.probability.den, 5);
}

#[test]
fn declared_type_is_stable() {
    let mut parser = SchemaParser::new();
    parser.observe_document(&vec![("a".to_string(), Bson::I32(1))], None);
    parser.observe_document(&vec![("a".to_string(), Bson::String("x".to_string()))], None);
    parser.observe_document(&vec![("a".to_string(), Bson::Boolean(true))], None);
    let a = record_for(&parser, "a");
    assert_eq!(a.bson_type, "Int");
    assert_eq!(a.count, 3);
}

#[test]
fn end_to_end_three_documents() {
    let mut parser = SchemaParser::new();
    parser.observe_document(&vec![("a".to_string(), Bson::I32(1))], None);
    parser.observe_document(&vec![("a".to_string(), Bson::I32(2))], None);
    parser.observe_document(&vec![("a".to_string(), Bson::String("x".to_string()))], None);
    parser.finalise();
    assert_eq!(parser.count, 3);
    let a = record_for(&parser, "a");
    assert_eq!(a.count, 3);
    assert_eq!(a.probability.num as f32 / a.probability.den as f32, 1.0);
    assert_eq!(
        a.values,
        vec![
            ValueType::I32(1),
            ValueType::I32(2),
            ValueType::Str("x".to_string())
        ]
    );
    assert_eq!(a.unique, Some(3));
    assert_eq!(a.has_duplicates, false);
}

#[test]
fn mismatch_scalar_after_document_is_reported() {
    let mut parser = SchemaParser::new();
    let doc1 = vec![(
        "a".to_string(),
        Bson::Document(vec![("b".to_string(), Bson::I32(1))]),
    )];
    let errs = parser.observe_document(&doc1, None);
    assert!(errs.is_empty());
    let doc2 = vec![("a".to_string(), Bson::I32(7))];
    let errs = parser.observe_document(&doc2, None);
    assert_eq!(errs.len(), 1);
    assert_eq!(errs[0].path, "a");
    assert_eq!(errs[0].expected, "Document");
    assert_eq!(errs[0].found, "Int");
    // The record is left in its last-known-good state.
    let a = record_for(&parser, "a");
    assert_eq!(a.count, 1);
    assert_eq!(a.bson_type, "Document");
    assert!(a.schema.is_some());
}

#[test]
fn mismatch_document_after_scalar_is_reported() {
    let mut parser = SchemaParser::new();
    parser.observe_document(&vec![("a".to_string(), Bson::I32(7))], None);
    let doc2 = vec![(
        "a".to_string(),
        Bson::Document(vec![("b".to_string(), Bson::I32(1))]),
    )];
    let errs = parser.observe_document(&doc2, None);
    assert_eq!(errs.len(), 1);
    assert_eq!(errs[0].path, "a");
    assert_eq!(errs[0].expected, "Int");
    assert_eq!(errs[0].found, "Document");
    let a = record_for(&parser, "a");
    assert_eq!(a.count, 1);
    assert_eq!(a.bson_type, "Int");
    assert!(a.schema.is_none());
    // A sibling field in the same document is still processed.
    let errs = parser.observe_document(
        &vec![
            (
                "a".to_string(),
                Bson::Document(vec![("b".to_string(), Bson::I32(1))]),
            ),
            ("c".to_string(), Bson::I32(5)),
        ],
        None,
    );
    assert_eq!(errs.len(), 1);
    let c = record_for(&parser, "c");
    assert_eq!(c.count, 1);
}

#[test]
fn normalization_coalesces_string_like_kinds() {
    assert_eq!(
        FieldType::get_value(&Bson::Symbol("s".to_string())),
        Some(ValueType::Str("s".to_string()))
    );
    assert_eq!(
        FieldType::get_value(&Bson::RegExp("^a".to_string(), "i".to_string())),
        Some(ValueType::Str("^a".to_string()))
    );
    assert_eq!(
        FieldType::get_value(&Bson::ObjectId("abc123".to_string())),
        Some(ValueType::Str("abc123".to_string()))
    );
    assert_eq!(
        FieldType::get_value(&Bson::TimeStamp(99)),
        Some(ValueType::I64(99))
    );
    assert_eq!(
        FieldType::get_value(&Bson::Decimal128("1.5".to_string())),
        Some(ValueType::Decimal128("1.5".to_string()))
    );
    assert_eq!(FieldType::get_value(&Bson::Null), Some(ValueType::Null));
    assert_eq!(FieldType::get_value(&Bson::Array(vec![])), None);
    assert_eq!(FieldType::get_value(&Bson::Document(vec![])), None);
}

#[test]
fn type_labels_match_the_input_kind() {
    assert_eq!(FieldType::get_type(&Bson::I32(1)), "Int");
    assert_eq!(FieldType::get_type(&Bson::I64(1)), "Long");
    assert_eq!(FieldType::get_type(&Bson::FloatingPoint(0)), "Double");
    assert_eq!(FieldType::get_type(&Bson::Document(vec![])), "Document");
    assert_eq!(FieldType::get_type(&Bson::Array(vec![])), "Array");
    assert_eq!(FieldType::get_type(&Bson::Binary(vec![1, 2])), "BinData");
    assert_eq!(FieldType::get_type(&Bson::Null), "Null");
}
