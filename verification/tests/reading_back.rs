use serde_6570::binding::{
    has_overlaps, match_uri, path_scalar_names, percent_decode, UriParts,
};
use serde_6570::de::VarBinding;
use serde_6570::escape::escape_reserved;
use serde_6570::form;
use serde_6570::grammar::parse;
use serde_6570::parser::Op;
use serde_6570::primitive::Primitive;
use serde_6570::text::{decimal_text, signed_text};
use serde_6570::value::{EntriesKind, ItemsKind, Value};
use serde_6570::{process, Error, FillPolicy, ResourceMappingString, Serde6570};

fn text(s: &str) -> Value {
    Value::Str(s.to_string())
}

fn entries(values: &[(&str, &str)]) -> Value {
    let list: Vec<(Value, Value)> = values.iter().map(|(k, v)| (text(k), text(v))).collect();
    Value::Entries(EntriesKind::Struct, Some(list.len()), list)
}

fn parts(uri: &str) -> UriParts {
    let (uri, _) = uri.split_once('#').unwrap_or((uri, ""));
    let (rest, query) = match uri.split_once('?') {
        Some((rest, query)) => (rest, Some(query.to_string())),
        None => (uri, None),
    };
    match rest.split_once("://") {
        Some((scheme, rest)) => {
            let at = rest.find('/').unwrap_or(rest.len());
            UriParts {
                scheme: Some(scheme.to_string()),
                authority: Some(rest[..at].to_string()),
                path: rest[at..].to_string(),
                query,
            }
        }
        None => UriParts {
            scheme: None,
            authority: None,
            path: rest.to_string(),
            query,
        },
    }
}

fn template(s: &str) -> impl Serde6570 {
    process(ResourceMappingString(s.to_string(), vec![])).expect("a template")
}

fn scalars(s: &str, uri: &str) -> Vec<(String, String)> {
    let read = template(s).contract(&parts(uri)).expect("values");
    read.varlist
        .into_iter()
        .map(|(name, binding)| match binding {
            VarBinding::Scalar(value) => (name, value),
            other => panic!("{name} is {other:?}"),
        })
        .collect()
}

fn there_and_back(s: &str, values: &[(&str, &str)], uri: &str) {
    let written = template(s)
        .expand(FillPolicy::Strict, entries(values))
        .expect("a URI");
    assert_eq!(written, uri);
    let expected: Vec<(String, String)> = values
        .iter()
        .map(|(name, value)| (name.to_string(), value.to_string()))
        .collect();
    assert_eq!(scalars(s, &written), expected);
}

#[test]
fn values_are_read_back() {
    there_and_back(
        "https://example.com/user/{user}/post/{post_id}",
        &[("user", "nyarly"), ("post_id", "187")],
        "https://example.com/user/nyarly/post/187",
    );
    there_and_back(
        "http://{domain}/user{/user_id,file}{?something,mysterious}{&more}",
        &[
            ("domain", "example.com"),
            ("user_id", "me@nowhere.org"),
            ("file", "a/b?c#d"),
            ("something", "50% off & more"),
            ("mysterious", ""),
            ("more", "\u{e9}"),
        ],
        "http://example.com/user/me%40nowhere.org/a%2Fb%3Fc%23d\
         ?something=50%25%20off%20%26%20more&mysterious=&more=%C3%A9",
    );
}

#[test]
fn values_of_other_operators_are_read_back() {
    there_and_back("/www{.host}", &[("host", "example")], "/www.example");
    there_and_back(
        "/at{;x,y,empty}",
        &[("x", "1=2"), ("y", "768"), ("empty", "")],
        "/at;x=1%3D2;y=768;empty",
    );
    there_and_back("/files/{+path}", &[("path", "a/b,c")], "/files/a/b,c");
    there_and_back("/{x,y}", &[("x", "1,2"), ("y", "3")], "/1%2C2,3");
}

#[test]
fn values_beside_literals_are_read_back() {
    there_and_back("/file/{name}.json", &[("name", "a.json")], "/file/a.json.json");
    there_and_back("/{+path}/here", &[("path", "a/here/b")], "/a/here/b/here");
    there_and_back(
        "/{a}.x/{b}.y{/c}",
        &[("a", "1.x"), ("b", ".y"), ("c", "3")],
        "/1.x.x/.y.y/3",
    );
    there_and_back("/at{;x}=1", &[("x", "2")], "/at;x=2=1");
    there_and_back("/s{?a}&fixed=1", &[("a", "1")], "/s?a=1&fixed=1");
    there_and_back("/s?flag{&a}", &[("a", "1")], "/s?flag&a=1");
    there_and_back(
        "/s{?a}&x=%20+1&&y{&b,c}&z",
        &[("a", "1"), ("b", "2"), ("c", "3")],
        "/s?a=1&x=%20+1&&y&b=2&c=3&z",
    );
}

#[test]
fn a_regex_matches_what_is_written() {
    let nothing = || Value::Null;
    for (s, given) in [
        ("/x/{a}", vec![("a", nothing())]),
        ("/x/{+a}/y", vec![("a", nothing())]),
        ("/{a}{b}", vec![("a", text("1")), ("b", text("2"))]),
        ("/{a}{b}", vec![("a", nothing()), ("b", text("2"))]),
        ("/www{.a}", vec![("a", text("x.y"))]),
        ("/{+a}", vec![("a", text("x?y#z"))]),
        ("/at{;a,b*}/z{?c}{#d}", vec![
            ("a", text("")),
            ("b", Value::Items(ItemsKind::List, Some(2), vec![text("1"), text("2")])),
            ("c", text("3")),
            ("d", text("4")),
        ]),
        ("/{a}/{b}", vec![
            ("a", text("1")),
            ("b", Value::Entries(EntriesKind::Assoc, Some(1), vec![(text("k"), text("v"))])),
        ]),
    ] {
        let list: Vec<(Value, Value)> = given.into_iter().map(|(k, v)| (text(k), v)).collect();
        let context = Value::Entries(EntriesKind::Struct, Some(list.len()), list);
        let mut made = template(s);
        let uri = made.expand(FillPolicy::DropMissing, context).expect("a URI");
        let pattern = regex::Regex::new(&made.regex().unwrap()).unwrap();
        assert!(pattern.is_match(&uri), "{pattern} in {uri}");
    }
    // A prefix character that is not written is missed.
    let mut made = template("/a{/b}");
    let context = Value::Entries(EntriesKind::Struct, Some(1), vec![(text("b"), nothing())]);
    let uri = made.expand(FillPolicy::DropMissing, context).expect("a URI");
    let pattern = regex::Regex::new(&made.regex().unwrap()).unwrap();
    assert_eq!(uri, "/a");
    assert!(!pattern.is_match(&uri));
}

#[test]
fn uris_that_match_or_not() {
    let overlapping = parse("/{x}{?x*}").unwrap();
    assert!(has_overlaps(&overlapping));
    assert!(match_uri(&parts("/1"), &overlapping).is_ok());
    assert!(matches!(
        match_uri(&parts("1"), &overlapping).unwrap_err(),
        Error::NoMatch(url) if url == "1"
    ));
    assert!(matches!(
        match_uri(&parts("/1"), &parse("/{x}/{x}").unwrap()).unwrap_err(),
        Error::RegexParse(_)
    ));
}

#[test]
fn values_that_cannot_be_read_back() {
    // A dot ends a label.
    assert_eq!(
        scalars("/www{.host}", "/www.example.com"),
        vec![("host".to_string(), "example".to_string())]
    );
}

#[test]
fn values_with_escapes_are_read_back() {
    there_and_back("/{?x}", &[("x", "%41")], "/?x=%2541");
    there_and_back("/{x}", &[("x", "%41")], "/%2541");
}

#[test]
fn parameters_of_the_template_are_passed_over() {
    there_and_back("/?fixed=yes{&x}", &[("x", "1")], "/?fixed=yes&x=1");
    there_and_back("/?a=1&b=2{&x}", &[("x", "3")], "/?a=1&b=2&x=3");
    let error = template("/?fixed=yes{&x}")
        .contract(&parts("/?fixed=no&x=1"))
        .unwrap_err();
    assert!(matches!(error, Error::UnexpectedVariables(names) if names == vec!["fixed"]));
}

#[test]
fn what_is_left_of_a_value_is_read_back() {
    let word = || entries(&[("foo", "example")]);
    let whole = template("/{foo:3}/{foo}{?foo}");
    let uri = whole.expand(FillPolicy::Strict, word()).unwrap();
    assert_eq!(uri, "/exa/example?foo=example");
    let foo = |value: &str| ("foo".to_string(), value.to_string());
    assert_eq!(
        scalars("/{foo:3}/{foo}{?foo}", &uri),
        vec![foo("example"), foo("example"), foo("example")]
    );
    let begun = template("/{foo:3}/{foo:5}");
    let uri = begun.expand(FillPolicy::Strict, word()).unwrap();
    assert_eq!(uri, "/exa/examp");
    assert_eq!(
        scalars("/{foo:3}/{foo:5}", &uri),
        vec![foo("examp"), foo("examp")]
    );
}

fn listed(items: &[&str]) -> Value {
    let items: Vec<Value> = items.iter().map(|item| text(item)).collect();
    let list = Value::Items(ItemsKind::List, Some(items.len()), items);
    Value::Entries(EntriesKind::Assoc, Some(1), vec![(text("list"), list)])
}

#[test]
fn lists_are_read_back() {
    let query = template("/{?list*}");
    let uri = query
        .expand(FillPolicy::Strict, listed(&["red & blue", "green"]))
        .unwrap();
    assert_eq!(uri, "/?list=red%20%26%20blue&list=green");
    let read = query.contract(&parts(&uri)).unwrap();
    assert!(matches!(
        &read.varlist[0].1,
        VarBinding::QueryExplode(items) if *items == vec!["red & blue", "green"]
    ));

    let path = template("/pre{/list*}");
    let uri = path
        .expand(FillPolicy::Strict, listed(&["a/b", "green"]))
        .unwrap();
    assert_eq!(uri, "/pre/a%2Fb/green");
    let read = path.contract(&parts(&uri)).unwrap();
    assert!(matches!(
        &read.varlist[0].1,
        VarBinding::PathExplode('/', joined) if joined == "a%2Fb/green"
    ));
    let mut seq = read.deserialize_seq();
    assert_eq!(seq.next_element().unwrap().deserialize_str().unwrap(), "a/b");
    assert_eq!(seq.next_element().unwrap().deserialize_str().unwrap(), "green");
    assert!(seq.next_element().is_none());

    let params = template("/pre{;list*}");
    let uri = params
        .expand(FillPolicy::Strict, listed(&["a", "b;c"]))
        .unwrap();
    assert_eq!(uri, "/pre;list=a;list=b%3Bc");
    let read = params.contract(&parts(&uri)).unwrap();
    assert!(matches!(
        &read.varlist[0].1,
        VarBinding::PathExplode(';', joined) if joined == "list=a;list=b%3Bc"
    ));
}

#[test]
fn lists_that_are_not_exploded_are_read_back() {
    for (s, uri) in [
        ("/pre{?list}", "/pre?list=red%20%26%20blue,green"),
        ("/pre{/list}", "/pre/red%20%26%20blue,green"),
        ("/pre{;list}", "/pre;list=red%20%26%20blue,green"),
    ] {
        let rt = template(s);
        let context = listed(&["red & blue", "green"]);
        assert_eq!(rt.expand(FillPolicy::Strict, context).unwrap(), uri);
        let read = rt.contract(&parts(uri)).unwrap();
        assert!(matches!(
            &read.varlist[0].1,
            VarBinding::Scalar(text) if text == "red & blue,green"
        ));
        let (_, field) = read.deserialize_map().next_entry().unwrap();
        let mut seq = field.deserialize_seq("Vec<String>").unwrap().unwrap();
        assert_eq!(
            seq.next_element().unwrap().deserialize_str().unwrap(),
            "red & blue"
        );
        assert_eq!(seq.next_element().unwrap().deserialize_str().unwrap(), "green");
        assert!(seq.next_element().is_none());
    }
}

#[test]
fn pairs_are_read_back() {
    let context = || {
        let pairs = vec![(text("kind:x"), text("a&b;c")), (text("players"), text("2"))];
        let pairs = Value::Entries(EntriesKind::Assoc, Some(2), pairs);
        Value::Entries(EntriesKind::Struct, Some(1), vec![(text("extra"), pairs)])
    };
    for (s, uri, separator) in [
        ("/search{?extra*}", "/search?kind:x=a%26b%3Bc&players=2", '&'),
        ("/search{/extra*}", "/search/kind:x=a%26b%3Bc/players=2", ';'),
        ("/search{;extra*}", "/search;kind:x=a%26b%3Bc;players=2", ';'),
    ] {
        let fields = vec!["extra".to_string()];
        let search = process(ResourceMappingString(s.to_string(), fields)).unwrap();
        assert_eq!(search.expand(FillPolicy::Strict, context()).unwrap(), uri);
        let read = search.contract(&parts(uri)).unwrap();
        match &read.varlist[0].1 {
            VarBinding::Assoc(sep, list) => {
                assert_eq!(*sep, separator);
                let expected = [("kind:x", "a&b;c"), ("players", "2")];
                assert_eq!(
                    *list,
                    expected.map(|(k, v)| (k.to_string(), v.to_string())).to_vec()
                );
            }
            other => panic!("{other:?}"),
        }
    }
}

#[test]
fn written_uris_fit_the_regular_expression() {
    let mut rt = template("http://{host}/x{/a:3,b}{;c}/{rest*}");
    let list = Value::Items(ItemsKind::List, Some(2), vec![text("1"), text("2 3")]);
    let context = Value::Entries(
        EntriesKind::Struct,
        Some(5),
        vec![
            (text("host"), text("example.com")),
            (text("a"), text("abcd")),
            (text("b"), text("/")),
            (text("c"), text("")),
            (text("rest"), list),
        ],
    );
    let uri = rt.expand(FillPolicy::Strict, context).unwrap();
    assert_eq!(uri, "http://example.com/x/abc/%2F;c/1,2%203");
    let pattern = regex::Regex::new(&rt.regex().unwrap()).unwrap();
    let found = pattern.captures(&uri).unwrap();
    assert_eq!(&found["a_p3"], "abc");
    assert_eq!(&found["rest"], "1,2%203");
}

#[test]
fn escapes_are_decoded() {
    for op in [
        Op::Simple,
        Op::Reserved,
        Op::Fragment,
        Op::Label,
        Op::Path,
        Op::PathParam,
        Op::Query,
        Op::QueryCont,
    ] {
        let mut written = String::new();
        escape_reserved(op, &mut written, "a b/\u{20ac}%~");
        assert_eq!(percent_decode(&written).unwrap(), "a b/\u{20ac}%~");
    }
    let mut written = String::new();
    escape_reserved(Op::Simple, &mut written, "a b/%41");
    assert_eq!(written, "a%20b%2F%2541");
    let mut written = String::new();
    escape_reserved(Op::Reserved, &mut written, "a b/%41%");
    assert_eq!(written, "a%20b/%41%25");
    assert_eq!(percent_decode("100%"), Some("100%".to_string()));
    assert_eq!(percent_decode("%FF"), None);
}

#[test]
fn names_and_values_are_decoded() {
    let pairs = form::parse('&' as u8, "%23first=%25try%25".as_bytes()).into_pairs();
    assert_eq!(pairs, vec![("#first".to_string(), "%try%".to_string())]);
    let pairs = form::parse(';' as u8, "a=1;;b;c=d=e+f;%FF=%".as_bytes()).into_pairs();
    let expected: Vec<(String, String)> = [
        ("a", "1"),
        ("b", ""),
        ("c", "d=e f"),
        ("\u{fffd}", "%"),
    ]
    .iter()
    .map(|(k, v)| (k.to_string(), v.to_string()))
    .collect();
    assert_eq!(pairs, expected);
    let mut none = form::parse('&' as u8, "&&&".as_bytes());
    assert!(none.next().is_none());
    let read = |text: &str| form::parse('&' as u8, text.as_bytes()).into_pairs();
    let mut two = read("a=1&&b");
    two.append(&mut read("&c=2"));
    assert_eq!(read("a=1&&b&&c=2"), two);
}

#[test]
fn integers_are_read_back() {
    for n in [0, 9, 10, 187, u64::MAX] {
        assert_eq!(u64::parse_value(&decimal_text(n)), Some(n));
    }
    for n in [0, -1, 42, i64::MIN, i64::MAX] {
        assert_eq!(i64::parse_value(&signed_text(n)), Some(n));
    }
    assert_eq!(u8::parse_value("256"), None);
    assert_eq!(u8::parse_value("-0"), None);
    assert_eq!(u8::parse_value("+7"), Some(7));
    assert_eq!(i8::parse_value("-128"), Some(-128));
    assert_eq!(i8::parse_value("-129"), None);
    assert_eq!(i8::parse_value("-"), None);
    assert_eq!(i8::parse_value(""), None);
    assert_eq!(char::parse_value("ab"), None);
    assert_eq!(bool::parse_value("True"), None);
}

#[test]
fn one_value_begins_with_the_other() {
    let read = |uri: &str| scalars("/{foo:3}{/bar}{?foo}", uri);
    let expected = vec![
        ("foo".to_string(), "example".to_string()),
        ("bar".to_string(), "x".to_string()),
        ("foo".to_string(), "example".to_string()),
    ];
    assert_eq!(read("/exa/x?foo=example"), expected);
    assert_eq!(read("/example/x?foo=exa"), expected);
    let error = template("/{foo:3}{?foo}")
        .contract(&parts("/zzz?foo=yyyyyyy"))
        .unwrap_err();
    assert!(matches!(
        error,
        Error::MismatchedValues(name, a, b) if name == "foo" && a == "yyyyyyy" && b == "zzz"
    ));
    let error = template("/{foo:3}/{foo}")
        .contract(&parts("/zzz/yyyyyyy"))
        .unwrap_err();
    assert!(matches!(error, Error::MismatchedValues(name, _, _) if name == "foo"));
    assert_eq!(
        scalars("/{foo:3}/{foo}", "/exa/example"),
        vec![
            ("foo".to_string(), "example".to_string()),
            ("foo".to_string(), "example".to_string()),
        ]
    );
}

#[test]
fn the_longest_prefix_is_captured() {
    let names = |s: &str| path_scalar_names(&parse(s).unwrap());
    let foo = |name: &str| vec![("foo".to_string(), name.to_string())];
    assert_eq!(names("/{foo:5}/{foo:3}"), foo("foo_p5"));
    assert_eq!(names("/{foo:3}/{foo:5}"), foo("foo_p5"));
    assert_eq!(names("/{foo:5}/{foo}"), foo("foo"));
    assert_eq!(names("/{foo*}{?foo}"), vec![]);
}

#[test]
fn lists_from_two_places_go_together() {
    let both = template("/pre{/list*}{?list*}");
    let read = both.contract(&parts("/pre/a/b?list=a&list=b")).unwrap();
    assert!(matches!(
        &read.varlist[1].1,
        VarBinding::PathExplode('/', joined) if joined == "a/b"
    ));
    for (query, joined) in [("?list=a&list=c", "a/c"), ("", "")] {
        let uri = format!("/pre/a/b{query}");
        match both.contract(&parts(&uri)).unwrap_err() {
            Error::MismatchedValues(name, path, other) => {
                assert_eq!((name.as_str(), path.as_str()), ("list", "a/b"));
                assert_eq!(other, joined);
            }
            other => panic!("{other:?}"),
        }
    }
}

#[test]
fn other_parameters_are_taken() {
    let rt = ResourceMappingString("/search{?query,extra*}".into(), vec!["extra".into()]);
    let search = process(rt).unwrap();
    let read = search.contract(&parts("/search?a=1&query=q&b=2")).unwrap();
    assert!(matches!(
        &read.varlist[1].1,
        VarBinding::Assoc('&', list)
            if *list == vec![("a".to_string(), "1".to_string()), ("b".to_string(), "2".to_string())]
    ));
    let error = search.contract(&parts("/search?extra=1")).unwrap_err();
    assert!(matches!(error, Error::UnexpectedVariables(names) if names == vec!["extra"]));
    let read = search.contract(&parts("/search")).unwrap();
    assert!(matches!(read.varlist[0].1, VarBinding::Empty));
    assert!(matches!(&read.varlist[1].1, VarBinding::Assoc('&', list) if list.is_empty()));
}

#[test]
fn other_uris_are_refused() {
    let user = template("https://example.com/user/{user}");
    let error = user.contract(&parts("https://example.com/posts/1")).unwrap_err();
    assert!(matches!(error, Error::NoMatch(url) if url == "https://example.com/posts/1"));
}

#[test]
fn overlaps_are_found() {
    assert!(has_overlaps(&parse("/{x}{?x*}").unwrap()));
    assert!(has_overlaps(&parse("/{x}{/x*}").unwrap()));
    assert!(!has_overlaps(&parse("/{x}{?x}").unwrap()));
    assert!(!has_overlaps(&parse("/a{/x*}{?x*}").unwrap()));
}
