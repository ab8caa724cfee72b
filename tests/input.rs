use tabby::input::{output_options, resolve_format, resolve_title};
use tabby::text::{insert_string, str_less};
use tabby::{Cli, InputData};

fn cli() -> Cli {
    Cli {
        input: None,
        input_format: None,
        title: None,
        delimiter: None,
        no_enum: true,
        no_const: true,
        enum_threshold: None,
        enum_maximum: None,
    }
}

#[test]
fn infer_from_file_name() {
    assert_eq!(
        InputData::infer("data.json"),
        ("data".to_owned(), Some(InputData::Json))
    );
    assert_eq!(
        InputData::infer("my.table.csv"),
        ("my.table".to_owned(), Some(InputData::Csv))
    );
    assert_eq!(InputData::infer("notes.txt"), ("notes".to_owned(), None));
    assert_eq!(InputData::infer("README"), ("README".to_owned(), None));
    assert_eq!(InputData::infer(".csv"), ("".to_owned(), Some(InputData::Csv)));
}

#[test]
fn resolve_settings() {
    let mut c = cli();
    assert_eq!(resolve_title(&c), None);
    assert_eq!(resolve_format(&c), InputData::Json);
    c.input = Some("people.csv".to_owned());
    assert_eq!(resolve_title(&c), Some("people".to_owned()));
    assert_eq!(resolve_format(&c), InputData::Csv);
    c.title = Some("Given".to_owned());
    c.input_format = Some(InputData::Json);
    assert_eq!(resolve_title(&c), Some("Given".to_owned()));
    assert_eq!(resolve_format(&c), InputData::Json);
}

#[test]
fn options_from_settings() {
    let mut c = cli();
    c.no_enum = false;
    c.enum_threshold = Some(30);
    c.enum_maximum = Some(4);
    let o = output_options(&c, Some("T".to_owned()));
    assert_eq!(o.title, Some("T".to_owned()));
    assert!(!o.use_enum);
    assert!(o.use_const);
    assert_eq!(o.enum_threshold, 30);
    assert_eq!(o.enum_maximum, Some(4));
    let o = output_options(&cli(), None);
    assert_eq!(o.enum_threshold, 1);
}

#[test]
fn string_order() {
    assert!(str_less("a", "b"));
    assert!(str_less("ab", "abc"));
    assert!(!str_less("abc", "ab"));
    assert!(!str_less("x", "x"));
    assert!(str_less("Z", "a"));
    let mut v: Vec<String> = Vec::new();
    for w in ["pear", "apple", "fig", "banana"] {
        insert_string(&mut v, w.to_owned());
    }
    assert_eq!(v, vec!["apple", "banana", "fig", "pear"]);
}
