use serde_6570::binding::UriParts;
use serde_6570::de::{ErrorKind, UriDeserializationError, UriDeserializer, VarBinding};
use serde_6570::deserializer::UnitVariant;
use serde_6570::dict::Dict;
use serde_6570::grammar::parse;
use serde_6570::parser;
use serde_6570::parser::{Expression, Op, VarMod, VarSpec};
use serde_6570::ser;
use serde_6570::ser::{mapvars, VarBinding as Given};
use serde_6570::serializer::{fill, AssocSerializer, NamedSerializer, PositionSerializer};
use serde_6570::value::{EntriesKind, ItemsKind, Value};
use serde_6570::{
    process, Error, FillPolicy, Given as Listed, Listable, ResourceMappingString, Serde6570, Values,
    VarsList,
};

fn text(s: &str) -> Value {
    Value::Str(s.to_string())
}

fn items(values: Vec<Value>) -> Value {
    Value::Items(ItemsKind::Tuple, Some(values.len()), values)
}

fn entries(values: Vec<(Value, Value)>) -> Value {
    Value::Entries(EntriesKind::Assoc, Some(values.len()), values)
}

fn unannounced(values: Vec<(Value, Value)>) -> Value {
    Value::Entries(EntriesKind::Assoc, None, values)
}

fn filled(template: &str, policy: FillPolicy, context: Value) -> Result<String, ser::Error> {
    fill(&parse(template).unwrap(), policy, context)
}

fn made(template: &str, fields: &[&str]) -> Result<impl Serde6570, Error> {
    let fields = fields.iter().map(|f| f.to_string()).collect();
    process(ResourceMappingString(template.to_string(), fields))
}

fn annotation(template: &str, fields: &[&str]) -> parser::Error {
    match made(template, fields) {
        Err(Error::ParseAnnotation(error)) => error,
        Err(other) => panic!("{other:?}"),
        Ok(_) => panic!("a template"),
    }
}

#[test]
fn texts_that_are_no_templates() {
    for s in ["{", "/{}", "/{a", "/a}", "/{a,}", "/{a:0}", "/{=a}", "/{a b}"] {
        match made(s, &[]) {
            Err(Error::Parsing(message)) => {
                assert_eq!(message, format!("malformed template: {s}"));
            }
            Err(other) => panic!("{other:?}"),
            Ok(_) => panic!("{s} is a template"),
        }
    }
}

#[test]
fn fields_that_cannot_take_parameters() {
    assert!(matches!(
        annotation("/{?a*}", &["b"]),
        parser::Error::UnknownField(name) if name == "b"
    ));
    assert!(matches!(
        annotation("/{?a}", &["a"]),
        parser::Error::NotExploded(name) if name == "a"
    ));
    assert!(matches!(
        annotation("/{?a*,b*}", &["a", "b"]),
        parser::Error::MultipleQueryFields(a, b) if a == "a" && b == "b"
    ));
    assert!(matches!(
        annotation("/x{;a*,b*}", &["a", "b"]),
        parser::Error::MultiplePathFields(a, b) if a == "a" && b == "b"
    ));
}

#[test]
fn counts_of_values() {
    let two = "/{a}/{b}";
    assert!(matches!(
        filled(two, FillPolicy::NoMissing, items(vec![text("1")])).unwrap_err(),
        ser::Error::MissingPositionalFields(1, 2)
    ));
    assert!(matches!(
        filled(two, FillPolicy::Strict, entries(vec![])).unwrap_err(),
        ser::Error::MissingPositionalFields(0, 2)
    ));
    let three = || items(vec![text("1"), text("2"), text("3")]);
    assert!(matches!(
        filled(two, FillPolicy::NoExtra, three()).unwrap_err(),
        ser::Error::ExtraPositionalFields(3, 2)
    ));
    assert_eq!(filled(two, FillPolicy::Relaxed, three()).unwrap(), "/1/2");
    let unannounced = Value::Items(ItemsKind::List, None, vec![text("1"), text("2"), text("3")]);
    assert!(matches!(
        filled(two, FillPolicy::Strict, unannounced).unwrap_err(),
        ser::Error::OverrunPositionalField
    ));
}

#[test]
fn names_of_values() {
    let one = || unannounced(vec![(text("a"), text("1"))]);
    assert!(matches!(
        filled("/{a}/{b}", FillPolicy::Strict, one()).unwrap_err(),
        ser::Error::MissingNamedVariable(name) if name == "b"
    ));
    assert!(matches!(
        filled("/{b}", FillPolicy::NoExtra, one()).unwrap_err(),
        ser::Error::ExtraNamedField(name) if name == "a"
    ));
    assert_eq!(
        filled("/{a}/{b}", FillPolicy::DropMissing, one()).unwrap(),
        "/1/"
    );
    assert_eq!(
        filled("/x{?a,b}", FillPolicy::Relaxed, one()).unwrap(),
        "/x?a=1{&b}"
    );
}

#[test]
fn items_fill_variables_in_order() {
    let two = items(vec![text("a"), text("b")]);
    assert_eq!(filled("/{x}/{y}", FillPolicy::Strict, two).unwrap(), "/a/b");
    let two = items(vec![text("a"), text("b")]);
    assert_eq!(
        filled("/{x}/{y}{?x}", FillPolicy::Strict, two).unwrap(),
        "/a/b?x=a"
    );
}

fn left_over(operator: Op, given: &[(&str, Option<&str>)]) -> String {
    let varspecs = given
        .iter()
        .map(|(name, _)| VarSpec {
            varname: name.to_string(),
            modifier: VarMod::Whole,
        })
        .collect();
    let mut bindings: Dict<Given> = Dict::new();
    for (name, value) in given {
        let binding = match value {
            Some("") => Given::Omitted,
            Some(value) => Given::Scalar(value.to_string()),
            None => Given::Absent,
        };
        bindings.insert(name.to_string(), binding);
    }
    let expression = Expression { operator, varspecs };
    mapvars(&expression, FillPolicy::Relaxed, &bindings).unwrap()
}

#[test]
fn variables_are_left_over_in_expressions() {
    let query = |given: &[(&str, Option<&str>)]| left_over(Op::Query, given);
    assert_eq!(query(&[("x", Some("1024")), ("y", None)]), "?x=1024{&y}");
    assert_eq!(
        query(&[("x", Some("1")), ("y", None), ("z", Some("3"))]),
        "?x=1{&y}&z=3"
    );
    assert_eq!(query(&[("x", None), ("y", None)]), "{?x,y}");
    assert_eq!(
        query(&[("x", None), ("y", Some("")), ("z", None)]),
        "{?x}{&z}"
    );
    let simple = |given: &[(&str, Option<&str>)]| left_over(Op::Simple, given);
    assert_eq!(simple(&[("x", None), ("y", Some("1"))]), "{x},1");
    assert_eq!(simple(&[("x", Some("1")), ("y", None)]), "1,{y}");
    assert_eq!(left_over(Op::Path, &[("x", Some("1")), ("y", None)]), "/1{/y}");
}

#[test]
fn undefined_variables_add_nothing() {
    for policy in [FillPolicy::DropMissing, FillPolicy::NoMissing, FillPolicy::Strict] {
        let values = || vec![(text("a"), text("1")), (text("c"), text("3"))];
        let without = filled("/x{?a,c}", policy, unannounced(values())).unwrap();
        let mut values = values();
        if policy != FillPolicy::DropMissing {
            values.push((text("b"), Value::Unit));
        }
        assert_eq!(filled("/x{?a,b,c}", policy, unannounced(values)).unwrap(), without);
        assert_eq!(without, "/x?a=1&c=3");
    }
}

#[test]
fn the_strict_policy_is_two_in_one() {
    let policies = [
        FillPolicy::Relaxed,
        FillPolicy::DropMissing,
        FillPolicy::NoExtra,
        FillPolicy::NoMissing,
        FillPolicy::Strict,
    ];
    let exact = || entries(vec![(text("a"), text("1")), (text("b"), text("2"))]);
    for policy in policies {
        assert_eq!(filled("/{a}{?b}", policy, exact()).unwrap(), "/1?b=2");
    }
    let fewer = || unannounced(vec![(text("a"), text("1"))]);
    assert!(filled("/{a}{?b}", FillPolicy::NoExtra, fewer()).is_ok());
    assert!(filled("/{a}{?b}", FillPolicy::NoMissing, fewer()).is_err());
    assert!(filled("/{a}{?b}", FillPolicy::Strict, fewer()).is_err());
    assert!(filled("/{a}", FillPolicy::NoMissing, exact()).is_ok());
    assert!(filled("/{a}", FillPolicy::NoExtra, exact()).is_err());
    assert!(filled("/{a}", FillPolicy::Strict, exact()).is_err());
}

#[test]
fn kinds_of_values() {
    assert!(matches!(
        filled("/{a}", FillPolicy::Strict, entries(vec![(Value::Unit, text("1"))])).unwrap_err(),
        ser::Error::InvalidKeyType(kind) if kind == "unit"
    ));
    assert!(matches!(
        filled("/{a}", FillPolicy::Strict, entries(vec![(items(vec![]), text("1"))])).unwrap_err(),
        ser::Error::InvalidComplexType(kind) if kind == "tuple"
    ));
    let nested = entries(vec![(text("a"), items(vec![items(vec![])]))]);
    assert!(matches!(
        filled("/{a}", FillPolicy::Strict, nested).unwrap_err(),
        ser::Error::InvalidComplexType(kind) if kind == "tuple"
    ));
    let bytes = entries(vec![(text("a"), Value::Bytes(vec![0xff]))]);
    assert!(matches!(
        filled("/{a}", FillPolicy::Strict, bytes).unwrap_err(),
        ser::Error::NotUTF8(error) if error.valid_up_to() == 0 && error.error_len() == Some(1)
    ));
    let bytes = entries(vec![(text("a"), Value::Bytes(vec![0x61, 0xe2, 0x82]))]);
    assert!(matches!(
        filled("/{a}", FillPolicy::Strict, bytes).unwrap_err(),
        ser::Error::NotUTF8(error) if error.valid_up_to() == 1 && error.error_len().is_none()
    ));
    let bytes = entries(vec![(text("a"), Value::Bytes(vec![0xc3, 0xa9]))]);
    assert_eq!(
        filled("/{a}", FillPolicy::Strict, bytes).unwrap(),
        "/%C3%A9"
    );
    let list = entries(vec![(text("a"), items(vec![text("1")]))]);
    assert!(matches!(
        filled("/{a:3}", FillPolicy::Strict, list).unwrap_err(),
        ser::Error::PrefixedComplexValue(kind, name) if kind == "map" && name == "a"
    ));
}

#[test]
fn values_without_keys() {
    let mut pairs = AssocSerializer::new();
    assert!(matches!(
        pairs.serialize_value(&text("1")).unwrap_err(),
        ser::Error::SerializationStateError
    ));
    let template = parse("/{a}").unwrap();
    let mut named = NamedSerializer::build(FillPolicy::Strict, None, template).unwrap();
    assert!(matches!(
        named.serialize_value(&text("1")).unwrap_err(),
        ser::Error::SerializationStateError
    ));
    named.serialize_key(&text("a")).unwrap();
    named.serialize_value(&text("1")).unwrap();
    assert_eq!(named.end().unwrap(), "/1");
    let template = parse("/{a}").unwrap();
    let mut placed = PositionSerializer::build(FillPolicy::Strict, None, template).unwrap();
    placed.serialize_element(&Value::I64(-5)).unwrap();
    assert_eq!(placed.end().unwrap(), "/-5");
}

#[test]
fn bindings_of_another_template() {
    let expression = Expression {
        operator: Op::Simple,
        varspecs: vec![VarSpec {
            varname: "a".to_string(),
            modifier: VarMod::Whole,
        }],
    };
    let mut bindings: Dict<Given> = Dict::new();
    assert!(matches!(
        mapvars(&expression, FillPolicy::Relaxed, &bindings).unwrap_err(),
        ser::Error::BindingsDontMatchExpression
    ));
    bindings.insert("a".to_string(), Given::Scalar("1".to_string()));
    assert_eq!(
        mapvars(&expression, FillPolicy::Relaxed, &bindings).unwrap(),
        "1"
    );
}

#[test]
fn outside_refusals() {
    let mut twice = made("/{a}/{a}", &[]).unwrap();
    assert!(matches!(twice.regex().unwrap_err(), Error::RegexParse(_)));
    let anywhere = UriParts {
        scheme: None,
        authority: None,
        path: "/1/1".to_string(),
        query: None,
    };
    assert!(matches!(
        twice.contract(&anywhere).unwrap_err(),
        Error::RegexParse(_)
    ));
    let mut one = made("/{a}", &[]).unwrap();
    assert_eq!(one.regex().unwrap(), "/(?<a>[^/?#,]*)");
    let spaced = one.prefixed("/a b");
    assert!(matches!(
        spaced.template().unwrap_err(),
        Error::IriTempate(_)
    ));
    assert!(matches!(
        spaced
            .expand(FillPolicy::Strict, items(vec![text("1")]))
            .unwrap_err(),
        Error::CreateString(_)
    ));
    assert!(matches!(
        one.expand(FillPolicy::Strict, items(vec![])).unwrap_err(),
        Error::URITemplating(ser::Error::MissingPositionalFields(0, 1))
    ));
}

#[test]
fn escapes_that_are_none() {
    let given = VarsList(vec![("a".to_string(), "1".to_string())]);
    let mut one = made("/{a}", &[]).unwrap();
    for prefix in ["/%a\u{e9}", "/%", "/%4", "/%zz", "/%\u{e9}"] {
        let odd = one.prefixed(prefix);
        assert!(matches!(odd.template().unwrap_err(), Error::IriTempate(_)));
        assert!(matches!(odd.fill(&given).unwrap_err(), Error::IriTempate(_)));
        assert!(matches!(
            odd.partial_fill(&given),
            Err(Error::IriTempate(_)) | Ok(_)
        ));
    }
    let escaped = one.prefixed("/%41");
    assert_eq!(escaped.template().unwrap(), "/%41/{a}");
    assert_eq!(escaped.fill(&given).unwrap(), "/%41/1");
}

#[test]
fn first_characters_of_any_text() {
    let given = |v: &str| VarsList(vec![("v".to_string(), v.to_string())]);
    let begun = made("/{v:3}", &[]).unwrap();
    assert_eq!(begun.fill(&given("abcdef")).unwrap(), "/abc");
    assert_eq!(
        begun.fill(&given("\u{e9}\u{e0}\u{fc}x")).unwrap(),
        "/%C3%A9%C3%A0%C3%BC"
    );
    let reserved = made("/{+v:2}", &[]).unwrap();
    assert_eq!(reserved.fill(&given("\u{e9}/x")).unwrap(), "/%C3%A9/");
    let whole = made("/{v}", &[]).unwrap();
    assert_eq!(whole.fill(&given("\u{e9}")).unwrap(), "/\u{e9}");
    let longer = made("/{v:5}", &[]).unwrap();
    assert_eq!(longer.fill(&given("a\u{e9}")).unwrap(), "/a\u{e9}");
    assert_eq!(longer.fill(&given("\u{e9}\u{e0}")).unwrap(), "/\u{e9}\u{e0}");
    let named = made("http://{http}/", &[]).unwrap();
    let host = VarsList(vec![("http".to_string(), "\u{e9}".to_string())]);
    assert_eq!(named.fill(&host).unwrap(), "http://\u{e9}/");
    let both = made("/{v}/{+w:9}", &[]).unwrap();
    let two = VarsList(vec![
        ("v".to_string(), "\u{e9}".to_string()),
        ("w".to_string(), "a/\u{e9}".to_string()),
    ]);
    assert_eq!(both.fill(&two).unwrap(), "/\u{e9}/a/\u{e9}");
    let mut long = whole;
    assert!(matches!(
        long.prefixed("/{v:99999}").fill(&given("x")).unwrap_err(),
        Error::CreateString(_)
    ));
    assert_eq!(long.prefixed("/{v:65535}").fill(&given("x")).unwrap(), "/x/x");
}

#[test]
fn reserved_characters_of_any_text() {
    let given = |v: &str| VarsList(vec![("v".to_string(), v.to_string())]);
    let reserved = made("/{+v}", &[]).unwrap();
    assert_eq!(reserved.fill(&given("a/b%41")).unwrap(), "/a/b%41");
    assert_eq!(reserved.fill(&given("50%")).unwrap(), "/50%25");
    assert_eq!(reserved.fill(&given("a\u{e9}")).unwrap(), "/a\u{e9}");
    assert_eq!(reserved.fill(&given("%41/\u{e9}")).unwrap(), "/%41/\u{e9}");
    assert_eq!(
        reserved.fill(&given("%C3%A9%41%C3%A9 \u{e9}")).unwrap(),
        "/%C3%A9%41%C3%A9%20\u{e9}"
    );
    assert_eq!(reserved.fill(&given("\u{e9}/x")).unwrap(), "/%C3%A9/x");
    assert_eq!(reserved.fill(&given("%\u{e9}")).unwrap(), "/%25%C3%A9");
    assert_eq!(reserved.fill(&given("%E2%41%E2")).unwrap(), "/%E2%41%E2");
    let fragment = made("/{#v}", &[]).unwrap();
    assert_eq!(fragment.fill(&given("\u{e9}")).unwrap(), "/#%C3%A9");
}

#[test]
fn all_short_values_can_be_written() {
    let bits = ["a", "%", "4", "%41", "%80", "%C3", "%A9", "%E2", "\u{e9}", "\u{20ac}"];
    let mut values = vec![String::new()];
    let mut last = values.clone();
    for _ in 0..4 {
        let mut next = Vec::new();
        for begun in &last {
            for bit in bits {
                next.push(format!("{begun}{bit}"));
            }
        }
        values.extend(next.iter().cloned());
        last = next;
    }
    for s in ["/{+v}", "/{+v:1}", "/{+v:2}", "/{+v:3}", "/{v:1}", "/{v:2}", "/{v:3}"] {
        let template = made(s, &[]).unwrap();
        for v in &values {
            let given = VarsList(vec![("v".to_string(), v.clone())]);
            assert!(template.fill(&given).is_ok(), "{v} in {s}");
        }
    }
}

#[test]
fn values_by_their_names() {
    let pair = |k: &str, v: &str| (k.to_string(), v.to_string());
    let two = parse("/{a}{?b}").unwrap();
    let two = serde_6570::single::InnerSingle { parsed: two };
    assert!(matches!(
        two.fill(&VarsList(vec![pair("c", "1")])).unwrap_err(),
        Error::MissingCaptures(names) if names == vec!["a", "b"]
    ));
    let all = VarsList(vec![pair("a", "1 2"), pair("b", "3"), pair("c", "4"), pair("a", "5")]);
    assert_eq!(two.fill(&all).unwrap(), "/1%202?b=3");
    assert!(matches!(
        two.fill_uritemplate(FillPolicy::Strict, &all).unwrap_err(),
        Error::ExtraCaptures(names) if names == vec!["c"]
    ));
    assert!(matches!(
        two.fill_uritemplate(FillPolicy::NoExtra, &all).unwrap_err(),
        Error::ExtraCaptures(names) if names == vec!["c"]
    ));
    assert_eq!(
        two.fill_uritemplate(FillPolicy::Relaxed, &VarsList(vec![])).unwrap(),
        "/"
    );
}

#[test]
fn lists_and_pairs_by_their_names() {
    let texts = |list: &[&str]| list.iter().map(|s| s.to_string()).collect::<Vec<String>>();
    let values = Values(vec![
        ("list".to_string(), Listed::List(texts(&["red", "gr\u{e9}en"]))),
        ("keys".to_string(), Listed::Pairs(vec![
            ("semi".to_string(), ";".to_string()),
            ("dot".to_string(), ".".to_string()),
        ])),
        ("text".to_string(), Listed::Text("a b".to_string())),
        ("none".to_string(), Listed::Nothing),
    ]);
    assert_eq!(values.list_vars(), vec!["list", "keys", "text", "none"]);
    for (s, written) in [
        ("/{list}", "/red,gr\u{e9}en"),
        ("/x{/list*}", "/x/red/gr\u{e9}en"),
        ("/x{?list*}", "/x?list=red&list=gr\u{e9}en"),
        ("/x{?keys}", "/x?keys=semi,%3B,dot,."),
        ("/x{?keys*}", "/x?semi=%3B&dot=."),
        ("/{+keys}", "/semi,;,dot,."),
        ("/{text}{none}", "/a%20b"),
    ] {
        assert_eq!(made(s, &[]).unwrap().fill(&values).unwrap(), written);
    }
    assert!(matches!(
        made("/{list:3}", &[]).unwrap().fill(&values).unwrap_err(),
        Error::IriTempate(_)
    ));
    assert!(matches!(
        made("/{list}{other}", &[]).unwrap().fill(&values).unwrap_err(),
        Error::MissingCaptures(names) if names == vec!["other"]
    ));
    let left = made("/x{/list*}{?other}", &[]).unwrap().partial_fill(&values).unwrap();
    assert_eq!(left.template_string(), "/x/red/gr\u{e9}en{?other}");
    let odd = Values(vec![("list".to_string(), Listed::List(texts(&["\u{e9}", "%"])))]);
    assert_eq!(made("/{+list}", &[]).unwrap().fill(&odd).unwrap(), "/%C3%A9,%25");
    assert_eq!(made("/{list}", &[]).unwrap().fill(&odd).unwrap(), "/\u{e9},%25");
    let nothing = made("/{list}", &[]).unwrap().fill(&Values(vec![])).unwrap_err();
    assert!(matches!(nothing, Error::MissingCaptures(_)));
}

fn one(binding: VarBinding) -> UriDeserializer {
    UriDeserializer {
        varlist: vec![("a".to_string(), binding)],
    }
}

#[test]
fn values_of_another_type() {
    let list = || VarBinding::QueryExplode(vec!["1".to_string()]);
    assert_eq!(
        one(list()).deserialize_value::<u8>().unwrap_err().kind,
        ErrorKind::MismatchedValue { expected_type: "u8" }
    );
    assert_eq!(
        one(list()).deserialize_tuple(2).unwrap_err().kind,
        ErrorKind::WrongNumberOfParameters { got: 1, expected: 2 }
    );
    assert_eq!(
        one(VarBinding::Empty).deserialize_value::<u8>().unwrap_err().kind,
        ErrorKind::ParseError {
            value: "<empty>".to_string(),
            expected_type: "u8",
        }
    );
    let value = one(list()).deserialize_map().next_entry().unwrap().1;
    assert_eq!(
        value.deserialize_map().unwrap_err().kind,
        ErrorKind::MismatchedValue { expected_type: "non-map value" }
    );
    assert_eq!(
        UnitVariant.newtype_variant().kind,
        ErrorKind::UnsupportedType { name: "newtype enum variant" }
    );
    assert_eq!(
        UnitVariant.tuple_variant().kind,
        ErrorKind::UnsupportedType { name: "tuple enum variant" }
    );
    assert_eq!(
        UnitVariant.struct_variant().kind,
        ErrorKind::UnsupportedType { name: "struct enum variant" }
    );
    let mut empty = one(list()).deserialize_map();
    assert_eq!(
        empty.next_value().unwrap_err().kind,
        ErrorKind::Message("value is missing".to_string())
    );
}

#[test]
fn what_errors_say() {
    let says = |kind: ErrorKind| UriDeserializationError::new(kind).to_string();
    assert_eq!(
        says(ErrorKind::WrongNumberOfParameters { got: 2, expected: 3 }),
        "Wrong number of path arguments for `Path`. Expected 3 but got 2"
    );
    assert_eq!(
        says(ErrorKind::CantFillParameters {
            got: vec!["a".to_string(), "b\"".to_string()],
            expected: 1,
        }),
        "Wrong number of path arguments for `Path`. Variables [\"a\", \"b\\\"\"](2) but expected 1. \
         Note that multiple parameters must be extracted with a tuple `Path<(_, _)>` or a struct \
         `Path<YourParams>`"
    );
    assert_eq!(
        says(ErrorKind::UnsupportedType { name: "f" }),
        "Unsupported type `f`"
    );
    assert_eq!(
        says(ErrorKind::MismatchedValue { expected_type: "f" }),
        "value not suitable for type `f`"
    );
    assert_eq!(
        says(ErrorKind::ParseErrorAtKey {
            key: "k".to_string(),
            value: "v\n".to_string(),
            expected_type: "u8",
        }),
        "Cannot parse `k` with value `\"v\\n\"` to a `u8`"
    );
    assert_eq!(
        says(ErrorKind::ParseErrorAtIndex {
            index: 3,
            value: "v".to_string(),
            expected_type: "u8",
        }),
        "Cannot parse value at index 3 with value `\"v\"` to a `u8`"
    );
    assert_eq!(
        says(ErrorKind::ParseError {
            value: "v".to_string(),
            expected_type: "u8",
        }),
        "Cannot parse `\"v\"` to a `u8`"
    );
    assert_eq!(says(ErrorKind::Message("m".to_string())), "m");
}

#[test]
fn whose_fault_it_is() {
    let nothing = || String::new();
    assert_eq!(Error::UnexpectedVariables(vec![]).status_code(), 400);
    assert_eq!(
        Error::MismatchedValues(nothing(), nothing(), nothing()).status_code(),
        400
    );
    let error = UriDeserializationError::custom(nothing());
    assert_eq!(Error::Deserialization(error).status_code(), 400);
    let error = UriDeserializationError::unsupported_type("alloc::vec::Vec<u32>");
    assert_eq!(Error::Deserialization(error).status_code(), 500);
    for error in [
        Error::IriTempate(nothing()),
        Error::CreateString(nothing()),
        Error::RegexParse(nothing()),
        Error::Parsing(nothing()),
        Error::MissingCaptures(vec![]),
        Error::ExtraCaptures(vec![]),
        Error::ParseAnnotation(parser::Error::UnknownField(nothing())),
        Error::URITemplating(ser::Error::OverrunPositionalField),
        Error::NoMatch(nothing()),
    ] {
        assert_eq!(error.status_code(), 500);
    }
}
