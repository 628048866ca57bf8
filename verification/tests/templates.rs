use serde_6570::grammar::parse;
use serde_6570::single::InnerSingle;
use serde_6570::value::{EntriesKind, Value};
use serde_6570::{process, FillPolicy, ResourceMappingString, Serde6570, VarsList};

fn quick_route(input: &str) -> InnerSingle {
    InnerSingle {
        parsed: parse(input).unwrap(),
    }
}

#[test]
fn round_trip() {
    let input = "http://example.com/user/{user_id}{?something,mysterious}";

    let route = quick_route(input);

    assert_eq!(route.template_string(), input.to_string())
}

#[test]
fn prefixing() {
    let mut route = quick_route("http://example.com/user/{user_id}{?something,mysterious}");
    let prefixed = route.prefixed("/api");
    assert_eq!(
        prefixed.template_string(),
        "http://example.com/api/user/{user_id}{?something,mysterious}".to_string()
    )
}

#[test]
fn partial_fill() {
    let route = quick_route("http://example.com{/something,mysterious}/user{/user_id}");
    let vars = vec![
        ("something".to_string(), "S".to_string()),
        ("mysterious".to_string(), "M".to_string()),
    ];
    let tmpl_r = route.partial_fill(&VarsList(vars)).unwrap().template();
    let tmpl = tmpl_r.unwrap();
    assert_eq!(
        tmpl.to_string(),
        "http://example.com/S/M/user{/user_id}".to_string()
    )
}

#[test]
fn axum_routes() {
    let rc = quick_route("/api/event/{event_id}");
    assert_eq!(rc.matchit_route(), "/api/event/:event_id".to_string());
}

#[test]
fn regex() {
    let route = quick_route(
        "http://{domain}/user/{user_id}/file{/file_id}?something={good}{&mysterious}",
    );
    assert_eq!(
        route.re_str(),
        "http://(?<domain>[^/,]*)/user/(?<user_id>[^/?#,]*)/file/(?<file_id>[^/?#/]*)"
    );
}

fn conforms_in(variables: &[(&str, &str)], testcases: &[(&str, &str)]) {
    let uri_re = regex::Regex::new("://|^/|^[{]/").expect("regex to parse");
    for (tmpl, expected) in testcases {
        let mut tmpl = tmpl.to_string();
        let mut modified_uri = false;
        if !uri_re.is_match(&tmpl) {
            tmpl = format!("/{tmpl}");
            modified_uri = true;
        }
        let vars: Vec<(Value, Value)> = variables
            .iter()
            .map(|(k, v)| (Value::Str(k.to_string()), Value::Str(v.to_string())))
            .collect();
        let context = Value::Entries(EntriesKind::Assoc, Some(vars.len()), vars);
        let rt = ResourceMappingString(tmpl.clone(), vec![]);
        let uri = process(rt)
            .and_then(|cfg| cfg.expand(FillPolicy::Relaxed, context))
            .expect("it should parse without error");
        let uri = if modified_uri { uri[1..].to_string() } else { uri };
        assert_eq!(*expected, uri, "{tmpl} expanded");
    }
}

#[test]
fn conforms() {
    // Level 1
    conforms_in(
        &[("var", "value"), ("hello", "Hello World!")],
        &[
            ("{var}", "value"),
            ("'{var}'", "'value'"),
            ("{hello}", "Hello%20World%21"),
        ],
    );
    // Level 2
    conforms_in(
        &[
            ("var", "value"),
            ("hello", "Hello World!"),
            ("path", "/foo/bar"),
        ],
        &[
            ("{+var}", "value"),
            ("{+hello}", "Hello%20World!"),
            ("{+path}/here", "/foo/bar/here"),
            ("here?ref={+path}", "here?ref=/foo/bar"),
        ],
    );
    // Level 3
    conforms_in(
        &[
            ("var", "value"),
            ("hello", "Hello World!"),
            ("empty", ""),
            ("path", "/foo/bar"),
            ("x", "1024"),
            ("y", "768"),
        ],
        &[
            ("map?{x,y}", "map?1024,768"),
            ("{x,hello,y}", "1024,Hello%20World%21,768"),
            ("{+x,hello,y}", "1024,Hello%20World!,768"),
            ("{+path,x}/here", "/foo/bar,1024/here"),
            ("{#x,hello,y}", "#1024,Hello%20World!,768"),
            ("{#path,x}/here", "#/foo/bar,1024/here"),
            ("X{.var}", "X.value"),
            ("X{.x,y}", "X.1024.768"),
            ("{/var}", "/value"),
            ("{/var,x}/here", "/value/1024/here"),
            ("{;x,y}", ";x=1024;y=768"),
            ("{;x,y,empty}", ";x=1024;y=768;empty"),
            ("{?x,y}", "?x=1024&y=768"),
            ("{?x,y,empty}", "?x=1024&y=768&empty="),
            ("?fixed=yes{&x}", "?fixed=yes&x=1024"),
            ("{&x,y,empty}", "&x=1024&y=768&empty="),
        ],
    );
}
