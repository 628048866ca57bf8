use serde_6570::binding::UriParts;
use serde_6570::de::{ErrorKind, UriDeserializationError, UriDeserializer, VarBinding};
use serde_6570::deserializer::{PairElement, SeqDeserializer, ValueDeserializer};
use serde_6570::{process, ResourceMappingString, Serde6570};
use std::collections::HashMap;

#[derive(Debug, Eq, PartialEq)]
enum MyEnum {
    A,
    B,
    C,
}

fn variant(name: &str) -> MyEnum {
    match name {
        "A" => MyEnum::A,
        "B" => MyEnum::B,
        "c" => MyEnum::C,
        other => panic!("no variant {other}"),
    }
}

fn create_url_params(values: Vec<(&str, &str)>) -> UriDeserializer {
    UriDeserializer {
        varlist: values
            .into_iter()
            .map(|(k, v)| (k.to_string(), VarBinding::Scalar(v.to_string())))
            .collect(),
    }
}

fn single(value: &str) -> UriDeserializer {
    create_url_params(vec![("value", value)])
}

fn next(seq: &mut SeqDeserializer) -> ValueDeserializer {
    seq.next_element().expect("an element")
}

fn texts(mut seq: SeqDeserializer) -> Vec<String> {
    let mut out = vec![];
    while let Some(element) = seq.next_element() {
        out.push(element.deserialize_str().expect("a text"));
    }
    out
}

fn map(de: UriDeserializer) -> HashMap<String, String> {
    let mut map = de.deserialize_map();
    let mut out = HashMap::new();
    while let Some(key) = map.next_key() {
        let value = map.next_value().expect("a value");
        out.insert(key.deserialize_str(), value.deserialize_str().expect("a text"));
    }
    out
}

fn inner_map(value: ValueDeserializer) -> HashMap<String, String> {
    let mut map = value.deserialize_map().expect("a map").expect("entries");
    let mut out = HashMap::new();
    while let Some((key, value)) = map.next_entry() {
        out.insert(key.deserialize_str(), value.deserialize_str().expect("a text"));
    }
    out
}

#[derive(Debug, Eq, PartialEq)]
struct Struct {
    c: String,
    b: bool,
    a: i32,
}

fn structure(de: UriDeserializer) -> Result<Struct, UriDeserializationError> {
    let mut map = de.deserialize_map();
    let mut out = Struct {
        c: String::new(),
        b: false,
        a: 0,
    };
    while let Some((key, value)) = map.next_entry() {
        match key.deserialize_str().as_str() {
            "a" => out.a = value.deserialize_value()?,
            "b" => out.b = value.deserialize_value()?,
            "c" => out.c = value.deserialize_str()?,
            _ => (),
        }
    }
    Ok(out)
}

#[derive(Debug, Eq, PartialEq)]
struct TupleStruct(i32, bool, String);

fn tuple_struct(de: UriDeserializer) -> Result<TupleStruct, UriDeserializationError> {
    let mut tuple = de.deserialize_tuple(3)?;
    Ok(TupleStruct(
        next(&mut tuple).deserialize_value()?,
        next(&mut tuple).deserialize_value()?,
        next(&mut tuple).deserialize_str()?,
    ))
}

fn numbers(de: UriDeserializer, fields: &[&str]) -> Result<Vec<u32>, UriDeserializationError> {
    let mut map = de.deserialize_map();
    let mut out = vec![];
    while let Some((key, value)) = map.next_entry() {
        if fields.contains(&key.deserialize_str().as_str()) {
            out.push(value.deserialize_value()?);
        }
    }
    Ok(out)
}

fn uri(scheme: &str, authority: &str, path: &str, query: Option<&str>) -> UriParts {
    UriParts {
        scheme: Some(scheme.to_string()),
        authority: Some(authority.to_string()),
        path: path.to_string(),
        query: query.map(|q| q.to_string()),
    }
}

#[test]
fn test_real_search_template() {
    let rt = ResourceMappingString("/search{?query,extra*}".into(), vec!["extra".into()]);

    let cfg = process(rt).expect("test case to parse");
    // http://example.com/search?query=test
    let first = uri("http", "example.com", "/search", Some("query=test"));
    let search = map(cfg.contract(&first).expect("deserialize"));
    assert_eq!(
        "test",
        search.get("query").expect("query to be deserialized")
    );
    // http://example.com/search?query=test&kind=boardgame
    let second = uri("http", "example.com", "/search", Some("query=test&kind=boardgame"));
    let search = map(cfg.contract(&second).expect("deserialize"));
    assert_eq!(
        "test",
        search.get("query").expect("query to be deserialized")
    );
    assert_eq!(
        "kind=boardgame",
        search.get("extra").expect("kind to be deserialized")
    )
}

#[test]
fn test_path_style_parameter() {
    let rt = ResourceMappingString("/search/{;query,extra*}".into(), vec!["extra".into()]);
    let cfg = process(rt).expect("test case to parse");
    // http://example.com/search/;query=test;kind=boardgame
    let uri = uri("http", "example.com", "/search/;query=test;kind=boardgame", None);
    let search = map(cfg.contract(&uri).expect("deserialize"));
    assert_eq!(
        "test",
        search.get("query").expect("query to be deserialized")
    );
    assert_eq!(
        "kind=boardgame",
        search.get("extra").expect("kind to be deserialized")
    );
    let mut entries = cfg.contract(&uri).expect("deserialize").deserialize_map();
    let (key, value) = entries.next_entry().expect("query");
    assert_eq!("query", key.deserialize_str());
    assert_eq!("test", value.deserialize_str().unwrap());
    let (key, value) = entries.next_entry().expect("extra");
    assert_eq!("extra", key.deserialize_str());
    assert_eq!(
        "boardgame",
        inner_map(value)
            .get("kind")
            .expect("kind to be deserialized")
    )
}

#[test]
fn test_path_segment_assoc() {
    let rt = ResourceMappingString("/search{/extra*}".into(), vec!["extra".into()]);
    let cfg = process(rt).expect("test case to parse");
    // http://example.com/search/query=test/kind=boardgame
    let uri = uri("http", "example.com", "/search/query=test/kind=boardgame", None);
    let mut entries = cfg.contract(&uri).expect("deserialize").deserialize_map();
    let (_, value) = entries.next_entry().expect("extra");
    let extra = inner_map(value);
    assert_eq!(
        extra.get("query").expect("kind to be deserialized"),
        "test"
    );
    assert_eq!(
        extra.get("kind").expect("kind to be deserialized"),
        "boardgame"
    )
}

#[test]
fn test_parse_single_value() {
    assert_eq!(single("true").deserialize_value::<bool>().unwrap(), true);
    assert_eq!(single("false").deserialize_value::<bool>().unwrap(), false);
    assert_eq!(single("-123").deserialize_value::<i8>().unwrap(), -123);
    assert_eq!(single("-123").deserialize_value::<i16>().unwrap(), -123);
    assert_eq!(single("-123").deserialize_value::<i32>().unwrap(), -123);
    assert_eq!(single("-123").deserialize_value::<i64>().unwrap(), -123);
    assert_eq!(single("123").deserialize_value::<i128>().unwrap(), 123);
    assert_eq!(single("123").deserialize_value::<u8>().unwrap(), 123);
    assert_eq!(single("123").deserialize_value::<u16>().unwrap(), 123);
    assert_eq!(single("123").deserialize_value::<u32>().unwrap(), 123);
    assert_eq!(single("123").deserialize_value::<u64>().unwrap(), 123);
    assert_eq!(single("123").deserialize_value::<u128>().unwrap(), 123);
    let f: f32 = single("123").single_value("f32").unwrap().parse().unwrap();
    assert_eq!(f, 123.0);
    let f: f64 = single("123").single_value("f64").unwrap().parse().unwrap();
    assert_eq!(f, 123.0);
    assert_eq!(single("abc").deserialize_string().unwrap(), "abc");
    assert_eq!(single("a").deserialize_value::<char>().unwrap(), 'a');

    let de = create_url_params(vec![("a", "B")]);
    let (name, _) = de.deserialize_enum().unwrap().variant();
    assert_eq!(variant(&name.deserialize_str()), MyEnum::B);

    let de = create_url_params(vec![("a", "1"), ("b", "2")]);
    let error_kind = de.deserialize_value::<i32>().unwrap_err().kind;
    assert_eq!(
        error_kind,
        ErrorKind::CantFillParameters {
            got: vec!["a".into(), "b".into()],
            expected: 1,
        }
    );
}

#[test]
fn test_parse_explodes() {
    let path = || UriDeserializer {
        varlist: vec![(
            "a".into(),
            VarBinding::PathExplode(',', "1,true,abc".into()),
        )],
    };
    assert_eq!(texts(path().deserialize_seq()), vec!["1", "true", "abc"]);
    let mut tuple = path().deserialize_tuple(3).unwrap();
    assert_eq!(next(&mut tuple).deserialize_value::<i32>().unwrap(), 1);
    assert_eq!(next(&mut tuple).deserialize_value::<bool>().unwrap(), true);
    assert_eq!(next(&mut tuple).deserialize_str().unwrap(), "abc");

    let query = || UriDeserializer {
        varlist: vec![(
            "a".into(),
            VarBinding::QueryExplode(vec!["1".into(), "true".into(), "abc".into()]),
        )],
    };
    assert_eq!(texts(query().deserialize_seq()), vec!["1", "true", "abc"]);
    let mut tuple = query().deserialize_tuple(3).unwrap();
    assert_eq!(next(&mut tuple).deserialize_value::<i32>().unwrap(), 1);
    assert_eq!(next(&mut tuple).deserialize_value::<bool>().unwrap(), true);
    assert_eq!(next(&mut tuple).deserialize_str().unwrap(), "abc");
}

#[test]
fn test_parse_seq() {
    let de = create_url_params(vec![("a", "1"), ("b", "true"), ("c", "abc")]);
    let mut tuple = de.deserialize_tuple(3).unwrap();
    assert_eq!(next(&mut tuple).deserialize_value::<i32>().unwrap(), 1);
    assert_eq!(next(&mut tuple).deserialize_value::<bool>().unwrap(), true);
    assert_eq!(next(&mut tuple).deserialize_str().unwrap(), "abc".to_owned());

    let de = create_url_params(vec![("a", "1"), ("b", "true"), ("c", "abc")]);
    assert_eq!(
        tuple_struct(de).unwrap(),
        TupleStruct(1, true, "abc".to_owned())
    );

    let de = create_url_params(vec![("a", "1"), ("b", "2"), ("c", "3")]);
    let mut seq = de.deserialize_seq();
    let mut out: Vec<i32> = vec![];
    while let Some(element) = seq.next_element() {
        out.push(element.deserialize_value().unwrap());
    }
    assert_eq!(out, vec![1, 2, 3]);

    let de = create_url_params(vec![("a", "c"), ("a", "B")]);
    let mut seq = de.deserialize_seq();
    let mut out: Vec<MyEnum> = vec![];
    while let Some(element) = seq.next_element() {
        let (name, _) = element.deserialize_enum().unwrap().variant();
        out.push(variant(&name.deserialize_str()));
    }
    assert_eq!(out, vec![MyEnum::C, MyEnum::B]);
}

fn pairs(de: UriDeserializer) -> Vec<(String, ValueDeserializer)> {
    let mut seq = de.deserialize_seq();
    let mut out = vec![];
    while let Some(element) = seq.next_element() {
        let mut pair = element.deserialize_tuple(2, "(String, String)").unwrap();
        let name = match pair.next_element() {
            Some(PairElement::Key(key)) => key.deserialize_str(),
            other => panic!("no name: {other:?}"),
        };
        let value = match pair.next_element() {
            Some(PairElement::Value(value)) => value,
            other => panic!("no value: {other:?}"),
        };
        assert!(pair.next_element().is_none());
        out.push((name, value));
    }
    out
}

#[test]
fn test_parse_seq_tuple_string_string() {
    let de = create_url_params(vec![("a", "foo"), ("b", "bar")]);
    let read: Vec<(String, String)> = pairs(de)
        .into_iter()
        .map(|(name, value)| (name, value.deserialize_str().unwrap()))
        .collect();
    assert_eq!(
        read,
        vec![
            ("a".to_owned(), "foo".to_owned()),
            ("b".to_owned(), "bar".to_owned())
        ]
    );
}

#[test]
fn test_parse_seq_tuple_string_parse() {
    let de = create_url_params(vec![("a", "1"), ("b", "2")]);
    let read: Vec<(String, u32)> = pairs(de)
        .into_iter()
        .map(|(name, value)| (name, value.deserialize_value().unwrap()))
        .collect();
    assert_eq!(read, vec![("a".to_owned(), 1), ("b".to_owned(), 2)]);
}

#[test]
fn test_parse_struct() {
    let de = create_url_params(vec![("a", "1"), ("b", "true"), ("c", "abc")]);
    assert_eq!(
        structure(de).unwrap(),
        Struct {
            c: "abc".to_owned(),
            b: true,
            a: 1,
        }
    );
}

#[test]
fn test_parse_struct_ignoring_additional_fields() {
    let de = create_url_params(vec![
        ("a", "1"),
        ("b", "true"),
        ("c", "abc"),
        ("d", "false"),
    ]);
    assert_eq!(
        structure(de).unwrap(),
        Struct {
            c: "abc".to_owned(),
            b: true,
            a: 1,
        }
    );
}

#[test]
fn test_parse_tuple_ignoring_additional_fields() {
    let de = create_url_params(vec![
        ("a", "abc"),
        ("b", "true"),
        ("c", "1"),
        ("d", "false"),
    ]);
    let mut tuple = de.deserialize_tuple(3).unwrap();
    assert_eq!(next(&mut tuple).deserialize_str().unwrap(), "abc");
    assert_eq!(next(&mut tuple).deserialize_value::<bool>().unwrap(), true);
    assert_eq!(next(&mut tuple).deserialize_value::<u32>().unwrap(), 1);
}

#[test]
fn test_parse_map() {
    let de = create_url_params(vec![("a", "1"), ("b", "true"), ("c", "abc")]);
    assert_eq!(
        map(de),
        [("a", "1"), ("b", "true"), ("c", "abc")]
            .iter()
            .map(|(key, value)| ((*key).to_owned(), (*value).to_owned()))
            .collect()
    );
}

#[test]
fn test_wrong_number_of_parameters_error() {
    let de = create_url_params(vec![("a", "1")]);
    assert_eq!(
        de.deserialize_tuple(2).unwrap_err().kind,
        ErrorKind::CantFillParameters {
            got: vec!["a".into()],
            expected: 2,
        }
    );
}

#[test]
fn test_parse_error_at_key_error() {
    let de = create_url_params(vec![("a", "false")]);
    assert_eq!(
        numbers(de, &["a"]).unwrap_err().kind,
        ErrorKind::ParseErrorAtKey {
            key: "a".to_owned(),
            value: "false".to_owned(),
            expected_type: "u32",
        }
    );
}

#[test]
fn test_parse_error_at_key_error_multiple() {
    let de = create_url_params(vec![("a", "false")]);
    assert_eq!(
        numbers(de, &["a", "b"]).unwrap_err().kind,
        ErrorKind::ParseErrorAtKey {
            key: "a".to_owned(),
            value: "false".to_owned(),
            expected_type: "u32",
        }
    );
}

#[test]
fn test_parse_error_at_index_error() {
    let de = create_url_params(vec![("a", "false"), ("b", "true")]);
    let mut tuple = de.deserialize_tuple(2).unwrap();
    assert_eq!(next(&mut tuple).deserialize_value::<bool>().unwrap(), false);
    assert_eq!(
        next(&mut tuple).deserialize_value::<u32>().unwrap_err().kind,
        ErrorKind::ParseErrorAtIndex {
            index: 1,
            value: "true".to_owned(),
            expected_type: "u32",
        }
    );
}

#[test]
fn test_parse_error_error() {
    let de = create_url_params(vec![("a", "false")]);
    assert_eq!(
        de.deserialize_value::<u32>().unwrap_err().kind,
        ErrorKind::ParseError {
            value: "false".to_owned(),
            expected_type: "u32",
        }
    );
}

#[test]
fn test_unsupported_type_error_nested_data_structure() {
    let de = create_url_params(vec![("a", "false")]);
    let element = next(&mut de.deserialize_seq());
    assert_eq!(
        element
            .deserialize_seq("alloc::vec::Vec<u32>")
            .unwrap_err()
            .kind,
        ErrorKind::UnsupportedType {
            name: "alloc::vec::Vec<u32>",
        }
    );
}

#[test]
fn test_parse_seq_tuple_unsupported_key_type() {
    let de = create_url_params(vec![("a", "false")]);
    let element = next(&mut de.deserialize_seq());
    let mut pair = element.deserialize_tuple(2, "(u32, String)").unwrap();
    match pair.next_element() {
        Some(PairElement::Key(key)) => assert_eq!(
            key.deserialize_any().kind,
            ErrorKind::Message("Unexpected key type".to_owned())
        ),
        other => panic!("no name: {other:?}"),
    }
}

#[test]
fn test_parse_seq_wrong_tuple_length() {
    let de = create_url_params(vec![("a", "false")]);
    let element = next(&mut de.deserialize_seq());
    let wanted = "(alloc::string::String, alloc::string::String, alloc::string::String)";
    assert_eq!(
        element.deserialize_tuple(3, wanted).unwrap_err().kind,
        ErrorKind::UnsupportedType {
            name: "(alloc::string::String, alloc::string::String, alloc::string::String)",
        }
    );
}

#[test]
fn test_parse_seq_seq() {
    let de = create_url_params(vec![("a", "false")]);
    let element = next(&mut de.deserialize_seq());
    assert_eq!(
        element
            .deserialize_seq("alloc::vec::Vec<alloc::string::String>")
            .unwrap_err()
            .kind,
        ErrorKind::UnsupportedType {
            name: "alloc::vec::Vec<alloc::string::String>",
        }
    );
}

fn field(binding: VarBinding) -> ValueDeserializer {
    let de = UriDeserializer {
        varlist: vec![("list".to_string(), binding)],
    };
    de.deserialize_map().next_entry().expect("a field").1
}

#[test]
fn single_values_are_split_under_a_key() {
    let value = || field(VarBinding::Scalar("red,green".to_string()));
    let seq = value().deserialize_seq("Vec<String>").unwrap().unwrap();
    assert_eq!(texts(seq), vec!["red", "green"]);
    assert_eq!(value().deserialize_str().unwrap(), "red,green");
    let de = create_url_params(vec![("list", "red,green")]);
    assert_eq!(
        next(&mut de.deserialize_seq())
            .deserialize_seq("Vec<String>")
            .unwrap_err()
            .kind,
        ErrorKind::UnsupportedType { name: "Vec<String>" }
    );
}

#[test]
fn lists_of_the_query_are_no_single_values() {
    let value = || field(VarBinding::QueryExplode(vec!["a".to_string(), "b".to_string()]));
    assert_eq!(
        value().deserialize_str().unwrap_err().kind,
        ErrorKind::MismatchedValue { expected_type: "String" }
    );
    assert_eq!(
        value().text_value("f32").unwrap_err().kind,
        ErrorKind::MismatchedValue { expected_type: "f32" }
    );
    assert_eq!(
        value().deserialize_value::<u8>().unwrap_err().kind,
        ErrorKind::MismatchedValue { expected_type: "u8" }
    );
    assert_eq!(
        value().deserialize_enum().unwrap_err().kind,
        ErrorKind::MismatchedValue { expected_type: "enum" }
    );
    let seq = value().deserialize_seq("Vec<String>").unwrap().unwrap();
    assert_eq!(texts(seq), vec!["a", "b"]);

    let cfg = process(ResourceMappingString("/s{?tag*}".into(), vec![])).unwrap();
    let uri = uri("http", "example.com", "/s", Some("tag=a&tag=b"));
    let mut tags = cfg.contract(&uri).unwrap().deserialize_map();
    let (_, tag) = tags.next_entry().unwrap();
    assert_eq!(
        tag.deserialize_str().unwrap_err().kind,
        ErrorKind::MismatchedValue { expected_type: "String" }
    );
}

#[test]
fn pairs_under_a_key_are_refused() {
    let wanted = "(String, String)";
    assert_eq!(
        field(VarBinding::Scalar("x".to_string()))
            .deserialize_tuple(2, wanted)
            .unwrap_err()
            .kind,
        ErrorKind::UnsupportedType { name: wanted }
    );
    let de = create_url_params(vec![("a", "x")]);
    let mut pair = next(&mut de.deserialize_seq())
        .deserialize_tuple(2, wanted)
        .unwrap();
    pair.next_element();
    match pair.next_element() {
        Some(PairElement::Value(value)) => assert_eq!(
            value.deserialize_tuple(2, wanted).unwrap_err().kind,
            ErrorKind::UnsupportedType { name: wanted }
        ),
        other => panic!("no value: {other:?}"),
    }
}

#[test]
fn lists_of_the_path_are_maps() {
    let value = field(VarBinding::PathExplode('/', "a=1/b=x%2Fy/c".to_string()));
    let read = inner_map(value);
    let expected: HashMap<String, String> = [("a", "1"), ("b", "x/y"), ("c", "")]
        .iter()
        .map(|(key, value)| (key.to_string(), value.to_string()))
        .collect();
    assert_eq!(read, expected);
}

#[test]
fn other_parameters_are_one_text() {
    let rt = ResourceMappingString("/search{?query,extra*}".into(), vec!["extra".into()]);
    let query = Some("query=test&kind=boardgame&players=2");
    let uri = uri("http", "example.com", "/search", query);
    let read = map(process(rt).unwrap().contract(&uri).unwrap());
    assert_eq!(read["query"], "test");
    assert_eq!(read["extra"], "kind=boardgame&players=2");
}
