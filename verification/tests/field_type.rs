use schema_parser::Bson;
use schema_parser::FieldType;
use schema_parser::ValueType;

#[test]
fn it_creates_new() {
    let address = "address";
    let bson_string = Bson::String("Oranienstr. 123".to_string());
    let field_type = FieldType::new(address, &bson_string);
    assert_eq!(field_type.path, address);
}

#[test]
fn it_adds_to_type() {}

#[test]
fn it_gets_value_i32() {
    let bson_value = Bson::I32(1234);
    let value = FieldType::get_value(&bson_value);
    assert_eq!(value, Some(ValueType::I32(1234)));
}

#[test]
fn it_gets_value_i64() {
    let bson_value = Bson::I64(1234);
    let value = FieldType::get_value(&bson_value);
    assert_eq!(value, Some(ValueType::I64(1234)));
}

#[test]
fn it_gets_value_floating_point() {
    let bson_value = Bson::FloatingPoint(1.2f64.to_bits());
    let value = FieldType::get_value(&bson_value);
    assert_eq!(value, Some(ValueType::FloatingPoint(1.2f64.to_bits())));
}

#[test]
fn it_gets_value_boolean() {
    let bson_value = Bson::Boolean(true);
    let value = FieldType::get_value(&bson_value);
    assert_eq!(value, Some(ValueType::Boolean(true)));
}

#[test]
fn it_gets_value_string() {
    let bson_value = Bson::String("cats".to_string());
    let value = FieldType::get_value(&bson_value);
    assert_eq!(value, Some(ValueType::Str("cats".to_string())));
}

#[test]
fn it_gets_type() {}

#[test]
fn it_sets_probability() {
    let mut field_type =
        FieldType::new("address", &Bson::String("Oranienstr. 123".to_string()));
    field_type.set_probability(10);
    assert_eq!(
        field_type.probability.num as f32 / field_type.probability.den as f32,
        0.1
    );
}

#[test]
fn it_gets_unique() {
    let mut field_type =
        FieldType::new("address", &Bson::String("Oranienstr. 123".to_string()));
    field_type.values.clear();
    field_type.values.push(ValueType::Str("Berlin".to_string()));
    field_type.values.push(ValueType::Str("Hamburg".to_string()));
    let unique = field_type.get_unique();
    assert_eq!(unique, 2);
}

#[test]
fn it_sets_unique() {
    let mut field_type =
        FieldType::new("address", &Bson::String("Oranienstr. 123".to_string()));
    field_type.values.clear();
    field_type.values.push(ValueType::Str("Berlin".to_string()));
    field_type.values.push(ValueType::Str("Hamburg".to_string()));
    field_type.set_unique();
    assert_eq!(field_type.unique, Some(2));
}

#[test]
fn it_gets_duplicates_when_none() {
    let mut field_type =
        FieldType::new("address", &Bson::String("Oranienstr. 123".to_string()));
    field_type.values.clear();
    field_type.values.push(ValueType::Str("Berlin".to_string()));
    field_type.values.push(ValueType::Str("Hamburg".to_string()));
    let has_duplicates = field_type.get_duplicates();
    assert_eq!(has_duplicates, false)
}

#[test]
fn it_gets_duplicates_when_some() {
    let mut field_type =
        FieldType::new("address", &Bson::String("Oranienstr. 123".to_string()));
    field_type.values.clear();
    field_type.values.push(ValueType::Str("Berlin".to_string()));
    field_type.values.push(ValueType::Str("Berlin".to_string()));
    let has_duplicates = field_type.get_duplicates();
    assert_eq!(has_duplicates, true)
}

#[test]
fn it_sets_duplicates() {
    let mut field_type =
        FieldType::new("address", &Bson::String("Oranienstr. 123".to_string()));
    field_type.values.clear();
    field_type.values.push(ValueType::Str("Berlin".to_string()));
    field_type.values.push(ValueType::Str("Berlin".to_string()));
    field_type.set_duplicates();
    assert_eq!(field_type.has_duplicates, true)
}

#[test]
fn it_updates_count() {
    let mut field_type =
        FieldType::new("address", &Bson::String("Oranienstr. 123".to_string()));
    field_type.update_count();
    assert_eq!(field_type.count, 2);
}

#[test]
fn it_updates_value_some() {
    let bson_value = Bson::I32(1234);
    let mut field_type =
        FieldType::new("address", &Bson::String("Oranienstr. 123".to_string()));
    field_type.values.clear();
    field_type.update_value(&bson_value);
    assert_eq!(field_type.values[0], ValueType::I32(1234));
}
