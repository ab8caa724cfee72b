use tabby::codegen::{schema_document, subschema_to_json, TypePrimative, SCHEMA_VERSION};
use tabby::{
    CodegenOptions, CsvError, CsvFileType, CsvOptions, DataValues, Filetype, Generation,
    JsonSchema, JsonValue, Literals, Subschema,
};

fn decimal_bits(s: &str) -> u64 {
    s.parse::<f64>().unwrap().to_bits()
}

fn s(x: &str) -> JsonValue {
    JsonValue::String(x.to_owned())
}

fn object(members: Vec<(&str, JsonValue)>) -> JsonValue {
    JsonValue::Object(members.into_iter().map(|(k, v)| (k.to_owned(), v)).collect())
}

fn get<'a>(v: &'a JsonValue, key: &str) -> &'a JsonValue {
    match v {
        JsonValue::Object(m) => &m.iter().find(|(k, _)| k == key).unwrap().1,
        _ => panic!("not an object"),
    }
}

fn has(v: &JsonValue, key: &str) -> bool {
    match v {
        JsonValue::Object(m) => m.iter().any(|(k, _)| k == key),
        _ => false,
    }
}

fn record(field: &str, value: Literals) -> DataValues {
    DataValues::Object(vec![(field.to_owned(), DataValues::Literal(value))])
}

#[test]
fn const_for_single_value() {
    let sb = Subschema::from_data(DataValues::Literal(Literals::Integer(5)));
    let options = CodegenOptions::new();
    assert_eq!(
        subschema_to_json(sb, &options),
        object(vec![("const", JsonValue::Integer(5))])
    );
    let sb = Subschema::from_data(DataValues::Literal(Literals::Integer(5)));
    assert_eq!(
        JsonSchema::generate(sb, CodegenOptions::new()),
        object(vec![
            ("const", JsonValue::Integer(5)),
            ("$schema", s(SCHEMA_VERSION)),
        ])
    );
    let mut options = CodegenOptions::new();
    options.title = Some("Five".to_owned());
    let sb = Subschema::from_data(DataValues::Literal(Literals::Integer(5)));
    assert_eq!(
        schema_document(sb, &options),
        object(vec![
            ("const", JsonValue::Integer(5)),
            ("$schema", s(SCHEMA_VERSION)),
            ("title", s("Five")),
        ])
    );
}

#[test]
fn const_disabled_gives_type() {
    let mut options = CodegenOptions::new();
    options.use_const = false;
    let sb = Subschema::from_data(DataValues::Literal(Literals::Integer(5)));
    assert_eq!(
        subschema_to_json(sb, &options),
        object(vec![("type", s("integer"))])
    );
}

fn ten_records() -> Subschema {
    let mut items = Vec::new();
    for i in 0..10 {
        let v = if i % 2 == 0 { "red" } else { "blue" };
        items.push(record("colour", Literals::String(v.to_owned())));
    }
    Subschema::from_data(DataValues::Array(items))
}

#[test]
fn enum_threshold_boundary() {
    let mut options = CodegenOptions::new();
    options.enum_threshold = 40;
    let doc = schema_document(ten_records(), &options);
    let colour = get(get(get(&doc, "items"), "properties"), "colour");
    assert_eq!(
        colour,
        &object(vec![
            ("type", s("string")),
            ("enum", JsonValue::Array(vec![s("red"), s("blue")])),
        ])
    );

    options.enum_threshold = 10;
    let doc = schema_document(ten_records(), &options);
    let colour = get(get(get(&doc, "items"), "properties"), "colour");
    assert_eq!(colour, &object(vec![("type", s("string"))]));
}

#[test]
fn enum_maximum_and_booleans() {
    let mut options = CodegenOptions::new();
    options.enum_threshold = 40;
    options.enum_maximum = Some(2);
    let doc = schema_document(ten_records(), &options);
    let colour = get(get(get(&doc, "items"), "properties"), "colour");
    assert!(!has(colour, "enum"));

    let mut items = Vec::new();
    for i in 0..10 {
        items.push(record("on", Literals::Boolean(i % 2 == 0)));
    }
    options.enum_maximum = None;
    let doc = schema_document(Subschema::from_data(DataValues::Array(items)), &options);
    let on = get(get(get(&doc, "items"), "properties"), "on");
    assert_eq!(on, &object(vec![("type", s("boolean"))]));

    options.use_enum = false;
    let doc = schema_document(ten_records(), &options);
    let colour = get(get(get(&doc, "items"), "properties"), "colour");
    assert!(!has(colour, "enum"));
}

#[test]
fn csv_end_to_end() {
    let text = "id,active\n1,true\n2,false\n3,\n";
    let table = CsvFileType::new(text, CsvOptions::new(), &decimal_bits).unwrap();
    let data = table.to_object();
    assert_eq!(data.count_literals(), Some(6));
    let doc = JsonSchema::generate(Subschema::from_data(data), CodegenOptions::new());
    assert_eq!(get(&doc, "type"), &s("array"));
    let items = get(&doc, "items");
    assert_eq!(get(items, "type"), &s("object"));
    let properties = get(items, "properties");
    assert_eq!(get(properties, "id"), &object(vec![("type", s("integer"))]));
    assert_eq!(
        get(properties, "active"),
        &object(vec![(
            "type",
            JsonValue::Array(vec![s("boolean"), s("null")])
        )])
    );
    assert_eq!(
        get(items, "required"),
        &JsonValue::Array(vec![s("active"), s("id")])
    );
}

#[test]
fn csv_short_rows_and_delimiters() {
    let mut options = CsvOptions::new();
    options.delimiter = ';';
    let table = CsvFileType::new("a;b;a\n1;x;2\n3\n", options, &decimal_bits).unwrap();
    let data = table.to_object();
    assert_eq!(
        data,
        DataValues::Array(vec![
            DataValues::Object(vec![
                ("b".to_owned(), DataValues::Literal(Literals::String("x".to_owned()))),
                ("a".to_owned(), DataValues::Literal(Literals::Integer(2))),
            ]),
            DataValues::Object(vec![
                ("b".to_owned(), DataValues::Literal(Literals::Null)),
                ("a".to_owned(), DataValues::Literal(Literals::Null)),
            ]),
        ])
    );
    let mut options = CsvOptions::new();
    options.delimiter = '\u{20ac}';
    assert!(matches!(
        CsvFileType::new("a\n1\n", options, &decimal_bits),
        Err(CsvError::Delimiter)
    ));
}

#[test]
fn csv_long_row_is_rejected() {
    assert!(matches!(
        CsvFileType::new("a,b\n1,2,3\n", CsvOptions::new(), &decimal_bits),
        Err(CsvError::RaggedRow)
    ));
    assert!(CsvFileType::new("a,b\n1,2\n3\n", CsvOptions::new(), &decimal_bits).is_ok());
}

#[test]
fn mixed_shape_disjunction() {
    let data = DataValues::Array(vec![
        record("x", Literals::Integer(1)),
        DataValues::Object(vec![(
            "x".to_owned(),
            DataValues::Object(vec![(
                "y".to_owned(),
                DataValues::Literal(Literals::Boolean(true)),
            )]),
        )]),
    ]);
    let mut options = CodegenOptions::new();
    options.use_const = false;
    let doc = schema_document(Subschema::from_data(data), &options);
    let x = get(get(get(&doc, "items"), "properties"), "x");
    assert_eq!(
        x,
        &object(vec![(
            "anyOf",
            JsonValue::Array(vec![
                object(vec![("type", s("integer"))]),
                object(vec![
                    ("type", s("object")),
                    (
                        "properties",
                        object(vec![("y", object(vec![("type", s("boolean"))]))])
                    ),
                    ("required", JsonValue::Array(vec![s("y")])),
                ]),
            ])
        )])
    );
}

#[test]
fn empty_descriptor_gives_empty_schema() {
    assert_eq!(
        schema_document(Subschema::new(), &CodegenOptions::new()),
        object(vec![("$schema", s(SCHEMA_VERSION))])
    );
}

#[test]
fn type_names_sorted_and_floats_kept() {
    let data = DataValues::Array(vec![
        DataValues::Literal(Literals::String("a".to_owned())),
        DataValues::Literal(Literals::Float(1.5f64.to_bits())),
        DataValues::Literal(Literals::Null),
        DataValues::Literal(Literals::Integer(2)),
    ]);
    let doc = subschema_to_json(Subschema::from_data(data), &CodegenOptions::new());
    assert_eq!(
        get(&doc, "items"),
        &object(vec![(
            "type",
            JsonValue::Array(vec![s("integer"), s("null"), s("number"), s("string")])
        )])
    );
    assert_eq!(TypePrimative::from_literal(&Literals::Float(0)).to_string(), "number");
}

#[test]
fn required_sorted() {
    let data = DataValues::Object(vec![
        ("zeta".to_owned(), DataValues::Literal(Literals::Null)),
        ("alpha".to_owned(), DataValues::Literal(Literals::Null)),
        ("Mid".to_owned(), DataValues::Literal(Literals::Null)),
        ("alp".to_owned(), DataValues::Literal(Literals::Null)),
    ]);
    let doc = subschema_to_json(Subschema::from_data(data), &CodegenOptions::new());
    assert_eq!(
        get(&doc, "required"),
        &JsonValue::Array(vec![s("Mid"), s("alp"), s("alpha"), s("zeta")])
    );
}
