use std::collections::{BTreeMap, BTreeSet};
use tabby::{crunch_schemas, DataValues, Literals, Subschema, SubschemaTypes};

fn nul() -> DataValues {
    DataValues::Literal(Literals::Null)
}

fn bol(b: bool) -> DataValues {
    DataValues::Literal(Literals::Boolean(b))
}

fn integer(a: i64) -> DataValues {
    DataValues::Literal(Literals::Integer(a))
}

fn flt(f: f64) -> DataValues {
    DataValues::Literal(Literals::Float(f.to_bits()))
}

fn arr(items: Vec<DataValues>) -> DataValues {
    DataValues::Array(items)
}

fn obj(pairs: Vec<(&str, DataValues)>) -> DataValues {
    DataValues::Object(pairs.into_iter().map(|(k, v)| (k.to_owned(), v)).collect())
}

/// A form of a descriptor in which the order of values and properties does
/// not count.
#[derive(Debug, PartialEq)]
struct Shape {
    types: Option<(BTreeSet<String>, usize)>,
    array: Option<Box<Shape>>,
    object: Option<BTreeMap<String, (Shape, bool)>>,
}

fn shape(s: &Subschema) -> Shape {
    Shape {
        types: s.types.as_ref().map(|t| {
            (
                t.values.iter().map(|v| format!("{:?}", v)).collect(),
                t.instance_count,
            )
        }),
        array: s.array.as_ref().map(|a| Box::new(shape(a))),
        object: s.object.as_ref().map(|o| {
            o.iter()
                .map(|(k, p)| (k.clone(), (shape(&p.value), p.required)))
                .collect()
        }),
    }
}

fn sample_a() -> Subschema {
    Subschema::from_data(obj(vec![
        ("x", integer(1)),
        ("y", arr(vec![bol(true), nul()])),
        ("z", obj(vec![("w", flt(1.5))])),
    ]))
}

fn sample_b() -> Subschema {
    Subschema::from_data(obj(vec![
        ("x", obj(vec![("w", integer(2))])),
        ("y", arr(vec![integer(3)])),
    ]))
}

fn sample_c() -> Subschema {
    Subschema::from_data(arr(vec![obj(vec![("z", integer(1))]), integer(1), nul()]))
}

#[test]
fn convert() {
    assert_eq!(
        Subschema::from_data(nul()),
        Subschema {
            types: Some(SubschemaTypes {
                values: vec![Literals::Null],
                instance_count: 1
            }),
            ..Subschema::new()
        }
    );

    assert_eq!(
        Subschema::from_data(arr(vec![bol(true), bol(false)])),
        Subschema {
            array: Some(Box::new(Subschema {
                types: Some(SubschemaTypes {
                    values: vec![Literals::Boolean(true), Literals::Boolean(false)],
                    instance_count: 2
                }),
                ..Subschema::new()
            })),
            ..Subschema::new()
        }
    );
}

#[test]
fn crunch() {}

#[test]
fn empty_array_gives_absent_items() {
    assert_eq!(
        Subschema::from_data(arr(vec![])),
        Subschema {
            array: Some(Box::new(Subschema::new())),
            ..Subschema::new()
        }
    );
}

#[test]
fn merge_is_associative_and_commutative() {
    let left = crunch_schemas(crunch_schemas(sample_a(), sample_b()), sample_c());
    let right = crunch_schemas(sample_a(), crunch_schemas(sample_b(), sample_c()));
    let rotated = crunch_schemas(crunch_schemas(sample_b(), sample_c()), sample_a());
    assert_eq!(shape(&left), shape(&right));
    assert_eq!(shape(&left), shape(&rotated));
    assert_eq!(
        shape(&crunch_schemas(sample_a(), sample_b())),
        shape(&crunch_schemas(sample_b(), sample_a()))
    );
}

#[test]
fn merge_with_self_doubles_count() {
    let d = || arr(vec![integer(1), integer(2), integer(1)]);
    let once = Subschema::from_data(d());
    let twice = crunch_schemas(Subschema::from_data(d()), Subschema::from_data(d()));
    let a = once.array.unwrap().types.unwrap();
    let b = twice.array.unwrap().types.unwrap();
    assert_eq!(a.instance_count, 3);
    assert_eq!(b.instance_count, 6);
    assert_eq!(a.values, b.values);
    assert_eq!(a.values, vec![Literals::Integer(1), Literals::Integer(2)]);
}

#[test]
fn optional_stays_optional() {
    let first = Subschema::from_data(obj(vec![("a", integer(1)), ("b", integer(1))]));
    let second = Subschema::from_data(obj(vec![("a", integer(2))]));
    let third = Subschema::from_data(obj(vec![("a", integer(3)), ("b", integer(2))]));
    let merged = crunch_schemas(first, second);
    let required = |s: &Subschema, k: &str| {
        s.object
            .as_ref()
            .unwrap()
            .iter()
            .find(|(n, _)| n == k)
            .unwrap()
            .1
            .required
    };
    assert!(required(&merged, "a"));
    assert!(!required(&merged, "b"));
    let merged = crunch_schemas(merged, third);
    assert!(required(&merged, "a"));
    assert!(!required(&merged, "b"));
}

#[test]
fn absent_branch_is_not_null() {
    let s = crunch_schemas(
        Subschema::from_data(arr(vec![integer(1)])),
        Subschema::from_data(obj(vec![])),
    );
    assert!(s.types.is_none());
    assert!(s.array.is_some());
    assert_eq!(s.object, Some(vec![]));
}

#[test]
fn mixed_shapes_keep_both_branches() {
    let s = crunch_schemas(
        Subschema::from_data(obj(vec![("x", integer(1))])),
        Subschema::from_data(obj(vec![("x", obj(vec![("y", bol(true))]))])),
    );
    let x = &s.object.as_ref().unwrap()[0].1;
    assert!(x.required);
    assert_eq!(
        x.value.types,
        Some(SubschemaTypes {
            values: vec![Literals::Integer(1)],
            instance_count: 1
        })
    );
    assert!(x.value.object.is_some());
    assert!(x.value.array.is_none());
}

#[test]
fn records_fold_into_one() {
    assert_eq!(Subschema::from_records(vec![]), Subschema::new());
    let folded = Subschema::from_records(vec![
        obj(vec![("a", integer(1))]),
        obj(vec![("a", integer(2)), ("b", nul())]),
    ]);
    let merged = crunch_schemas(
        Subschema::from_data(obj(vec![("a", integer(1))])),
        Subschema::from_data(obj(vec![("a", integer(2)), ("b", nul())])),
    );
    assert_eq!(shape(&folded), shape(&merged));
    let a = &folded.object.as_ref().unwrap();
    assert_eq!(a.len(), 2);
}
