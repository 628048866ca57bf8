use serde_6570::cached::{Entry, RouteMap};
use serde_6570::extract::{nest_rel, NestedRoute};
use serde_6570::grammar::parse;
use serde_6570::parser::{all_vars, distinct_names};
use serde_6570::single::InnerSingle;
use serde_6570::text::{join_texts, split_text};
use serde_6570::value::{EntriesKind, Value};
use serde_6570::{
    process, FillPolicy, Listable, ResourceMapping, ResourceMappingString, Serde6570, VarsList,
};

fn single(s: &str) -> InnerSingle {
    InnerSingle {
        parsed: parse(s).unwrap(),
    }
}

fn entries(values: &[(&str, &str)]) -> Value {
    let list: Vec<(Value, Value)> = values
        .iter()
        .map(|(k, v)| (Value::Str(k.to_string()), Value::Str(v.to_string())))
        .collect();
    Value::Entries(EntriesKind::Struct, Some(list.len()), list)
}

fn vars(values: &[(&str, &str)]) -> VarsList {
    VarsList(
        values
            .iter()
            .map(|(k, v)| (k.to_string(), v.to_string()))
            .collect(),
    )
}

#[test]
fn templates_are_written_as_they_are_read() {
    for s in [
        "/",
        "https://example.com/user/{user}/post/{post_id}",
        "http://{domain}/a{/b,c*}{;d:3}{?e,f*}{&g}{#h}",
        "//{host}/x{.y}/{+z}?q=1{&r}#f{i}",
        "/files/{rest*}",
    ] {
        assert_eq!(single(s).template_string(), s);
    }
}

#[test]
fn prefixes_stand_before_the_path() {
    let mut user = single("https://example.com/user/{user}");
    let prefixed = user.prefixed("/awesome");
    let uri = prefixed
        .expand(FillPolicy::Relaxed, entries(&[("user", "nyarly")]))
        .unwrap();
    assert_eq!(uri, "https://example.com/awesome/user/nyarly");
    let twice = user.prefixed("/inner").prefixed("/outer");
    assert_eq!(
        twice.template_string(),
        user.prefixed("/outer/inner").template_string()
    );
}

#[test]
fn templates_without_variables_are_closed() {
    let closed = single("https://example.com/a?b=c#d");
    assert!(closed.is_closed());
    assert_eq!(
        closed.expand(FillPolicy::Relaxed, entries(&[("x", "1")])).unwrap(),
        "https://example.com/a?b=c#d"
    );
    let open = single("/{a}{/b}{?c}");
    assert!(!open.is_closed());
    assert!(open
        .partial_fill(&vars(&[("a", "1"), ("b", "2"), ("c", "3")]))
        .unwrap()
        .is_closed());
}

#[test]
fn what_is_not_given_stays() {
    let template = single("https://{host}/{a,b}/{c}{?d}{#e}");
    assert_eq!(
        template.partial_fill(&vars(&[])).unwrap().template_string(),
        template.template_string()
    );
    let left = template
        .partial_fill(&vars(&[("host", "example.com"), ("a", "1"), ("c", "x y"), ("e", "f")]))
        .unwrap();
    assert_eq!(
        left.template_string(),
        "https://example.com/{a,b}/x%20y{?d}{#e}"
    );
}

#[test]
fn policies() {
    let written = |policy| {
        single("/x{?a,b,c}").expand(policy, entries(&[("a", "1"), ("c", "3"), ("d", "4")]))
    };
    assert_eq!(written(FillPolicy::DropMissing).unwrap(), "/x?a=1&c=3");
    assert!(written(FillPolicy::Relaxed).is_err());
    assert!(written(FillPolicy::NoMissing).is_err());
    assert!(written(FillPolicy::NoExtra).is_err());
    assert!(written(FillPolicy::Strict).is_err());
    let nothing = single("/x{?a,b}").expand(
        FillPolicy::DropMissing,
        Value::Entries(EntriesKind::Struct, None, vec![]),
    );
    assert_eq!(nothing.unwrap(), "/x");
}

#[test]
fn routes() {
    assert_eq!(single("/a/{b}/c{/d}").matchit_route(), "/a/:b/c/:d");
    assert_eq!(single("/a/{rest*}").matchit_route(), "/a/*rest");
    assert_eq!(single("/a{/rest*}").matchit_route(), "/a/*rest");
    assert_eq!(
        single("https://example.com/a/{b}{?c}").matchit_route(),
        "/a/:b"
    );
}

#[test]
fn regular_expressions_quote_literals() {
    assert_eq!(
        single("/a.b+c/{d}").re_str(),
        "/a\\.b\\+c/(?<d>[^/?#,]*)"
    );
    assert_eq!(single("/x{;a:3}").re_str(), "/x;a=?(?<a_p3>[^/?#;]*)");
}

#[test]
fn entries_keep_what_they_give() {
    let mut entry = Entry::new(single("/{a}"));
    assert!(entry.regex.is_none());
    let first = entry.regex().unwrap();
    assert!(entry.regex.is_some());
    assert_eq!(entry.regex().unwrap(), first);
    let longer = entry.prefixed("/p");
    assert!(entry.prefixes.contains_key("/p"));
    assert_eq!(longer.template().unwrap(), "/p/{a}");
    assert_eq!(entry.prefixed("/p").template().unwrap(), "/p/{a}");
    assert_eq!(entry.template().unwrap(), "/{a}");
    let copy = entry.clone();
    assert_eq!(copy.matchit_route(), "/:a");
    assert!(copy.prefixes.contains_key("/p"));
    assert!(copy.regex.is_some());
    assert_eq!(entry.fill(&vars(&[("a", "1")])).unwrap(), "/1");
    assert!(entry.partial_fill(&vars(&[("a", "1")])).unwrap().is_closed());
    assert!(!entry.is_closed());
}

#[derive(Debug, Clone, PartialEq, Eq, Hash)]
struct Posts;

impl ResourceMapping for Posts {
    fn route_template(&self) -> String {
        "/posts/{id}".to_string()
    }
}

#[test]
fn templates_are_stored_once() {
    let mut map = RouteMap::new();
    let first = map.named(Posts).unwrap();
    assert_eq!(first.template().unwrap(), "/posts/{id}");
    assert_eq!(map.store.len(), 1);
    let again = map.named(ResourceMappingString("/posts/{id}".to_string(), vec![])).unwrap();
    assert_eq!(again.template().unwrap(), "/posts/{id}");
    assert_eq!(map.store.len(), 1);
    map.named(ResourceMappingString("/x{?id*}".to_string(), vec!["id".to_string()])).unwrap();
    map.named(ResourceMappingString("/x{?id*}".to_string(), vec![])).unwrap();
    assert_eq!(map.store.len(), 3);
    assert!(map.named(ResourceMappingString("/{".to_string(), vec![])).is_err());
    assert_eq!(map.store.len(), 3);
    assert_eq!(
        process(Posts).unwrap().template().unwrap(),
        map.named(Posts).unwrap().template().unwrap()
    );
    assert_eq!(map.store.len(), 3);
}

#[test]
fn relative_routes() {
    assert_eq!(nest_rel("/a/b", ""), "/a/b");
    assert_eq!(nest_rel("/a/b", "."), "/a/b");
    assert_eq!(nest_rel("/a/b", "c"), "/a/b/c");
    assert_eq!(nest_rel("/a/b", "c/.."), "/a/b");
    assert_eq!(nest_rel("/a/b", ".././c//d"), "/a/c/d");
    assert_eq!(nest_rel("/a", "../../../x"), "x");
    for (path, a, b) in [
        ("/a/b", "c", "../d"),
        ("/a", "", "b"),
        ("/a/b", "..", "."),
        ("/a", "../..", "../x"),
    ] {
        assert_eq!(
            nest_rel(&nest_rel(path, a), b),
            nest_rel(path, &format!("{a}/{b}"))
        );
    }
    assert_eq!(nest_rel(&nest_rel("/a", "../.."), "x"), "/x");
    assert_eq!(nest_rel("/a", "../../x"), "x");
    let route = NestedRoute {
        nested_path: "/a/b".to_string(),
        nick: 1,
    };
    let other = route.relative_route("../c", "nick");
    assert_eq!((other.nested_path.as_str(), other.nick), ("/a/c", "nick"));
    let other: NestedRoute<u8> = route.default_relative_route("c");
    assert_eq!((other.nested_path.as_str(), other.nick), ("/a/b/c", 0));
}

#[test]
fn texts_are_split_and_joined() {
    for s in ["", "/", "a", "/a//b/", "a/b"] {
        assert_eq!(join_texts(&split_text(s, '/'), "/"), s);
    }
    assert_eq!(split_text("a//b", '/'), vec!["a", "", "b"]);
}

#[test]
fn names_come_once() {
    let parsed = parse("/{a}/{b}{?a,c}").unwrap();
    assert_eq!(distinct_names(&all_vars(&parsed.parts())), vec!["a", "b", "c"]);
    assert_eq!(vars(&[("x", "1"), ("y", "2")]).list_vars(), vec!["x", "y"]);
}
