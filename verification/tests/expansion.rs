use serde_6570::serializer::fill;
use serde_6570::value::{EntriesKind, ItemsKind, Value};
use serde_6570::{parsed, FillPolicy, ResourceMappingString};

// A template in which an expression comes first has no slash at its beginning, and is none.
fn test_template(template: &str, expansion: &str) {
    test_path_template(&format!("/{template}"), &format!("/{expansion}"))
}

fn text(s: &str) -> Value {
    Value::Str(s.to_string())
}

fn variant(value: Value) -> Value {
    Value::Wrapped(Box::new(value))
}

fn list(items: &[&str]) -> Value {
    let items: Vec<Value> = items.iter().map(|item| text(item)).collect();
    variant(Value::Items(ItemsKind::List, Some(items.len()), items))
}

fn test_path_template(template: &str, expansion: &str) {
    let keys = vec![
        (text("semi"), text(";")),
        (text("dot"), text(".")),
        (text("comma"), text(",")),
    ];
    let definitions = vec![
        (text("count"), list(&["one", "two", "three"])),
        (text("dom"), list(&["example", "com"])),
        (text("dub"), variant(text("me/too"))),
        (text("hello"), variant(text("Hello World!"))),
        (text("half"), variant(text("50%"))),
        (text("var"), variant(text("value"))),
        (text("who"), variant(text("fred"))),
        (text("base"), variant(text("http://example.com/home/"))),
        (text("path"), variant(text("/foo/bar"))),
        (text("list"), list(&["red", "green", "blue"])),
        (
            text("keys"),
            variant(Value::Entries(EntriesKind::Struct, Some(3), keys)),
        ),
        (text("v"), variant(text("6"))),
        (text("x"), variant(text("1024"))),
        (text("y"), variant(text("768"))),
        (text("empty"), variant(text(""))),
        (text("empty_keys"), list(&[])),
        (text("undef"), Value::UnitVariant),
    ];

    let rt = ResourceMappingString(template.to_string(), vec![]);
    let parsed = parsed(rt).expect("test template to parse");
    let context = Value::Entries(EntriesKind::Assoc, Some(definitions.len()), definitions);
    let serialized =
        fill(&parsed, FillPolicy::DropMissing, context).expect("test template to serialize");
    assert_eq!(
        expansion, serialized,
        "using {template}, expected: {expansion}, got: {serialized}",
    )
}

#[test]
fn variable_expansion() {
    test_template("{count}", "one,two,three");
    test_template("{count*}", "one,two,three");
    test_path_template("{/count}", "/one,two,three");
    test_template("{;count}", ";count=one,two,three");
    test_template("{;count*}", ";count=one;count=two;count=three");
    test_template("{?count}", "?count=one,two,three");
    test_template("{?count*}", "?count=one&count=two&count=three");
    test_template("{&count*}", "&count=one&count=two&count=three");
}

#[test]
fn simple_string_expansion() {
    test_template("{var}", "value");
    test_template("{hello}", "Hello%20World%21");
    test_template("{half}", "50%25");
    test_template("O{empty}X", "OX");
    test_template("O{undef}X", "OX");
    test_template("{x,y}", "1024,768");
    test_template("{x,hello,y}", "1024,Hello%20World%21,768");
    test_template("?{x,empty}", "?1024,");
    test_template("?{x,undef}", "?1024");
    test_template("?{undef,y}", "?768");
    test_template("{var:3}", "val");
    test_template("{var:30}", "value");
    test_template("{list}", "red,green,blue");
    test_template("{list*}", "red,green,blue");
    test_template("{keys}", "semi,%3B,dot,.,comma,%2C");
    test_template("{keys*}", "semi=%3B,dot=.,comma=%2C");
}

#[test]
fn reserved_string_expansion() {
    test_template("{+var}", "value");
    test_template("{+hello}", "Hello%20World!");
    test_template("{+half}", "50%25");

    test_template("{base}index", "http%3A%2F%2Fexample.com%2Fhome%2Findex");
    test_template("{+base}index", "http://example.com/home/index");
    test_template("O{+empty}X", "OX");
    test_template("O{+undef}X", "OX");

    test_template("{+x,hello,y}", "1024,Hello%20World!,768");
    test_template("{+path,x}/here", "/foo/bar,1024/here");

    test_template("{+path:6}/here", "/foo/b/here");
    test_template("{+list}", "red,green,blue");
    test_template("{+list*}", "red,green,blue");
    test_template("{+keys}", "semi,;,dot,.,comma,,");
    test_template("{+keys*}", "semi=;,dot=.,comma=,");
}

#[test]
fn fragment_expansion() {
    test_template("{#var}", "#value");
    test_template("{#hello}", "#Hello%20World!");
    test_template("{#half}", "#50%25");
    test_template("foo{#empty}", "foo#");
    test_template("foo{#undef}", "foo");
    test_template("{#x,hello,y}", "#1024,Hello%20World!,768");
    test_template("{#list}", "#red,green,blue");
    test_template("{#list*}", "#red,green,blue");
    test_template("{#keys}", "#semi,;,dot,.,comma,,");
    test_template("{#keys*}", "#semi=;,dot=.,comma=,");
}

#[test]
fn label_expansion() {
    test_template("{.who}", ".fred");
    test_template("{.who,who}", ".fred.fred");
    test_template("{.half,who}", ".50%25.fred");
    test_template("www{.dom*}", "www.example.com");
    test_template("X{.var}", "X.value");
    test_template("X{.empty}", "X.");
    test_template("X{.undef}", "X");
    test_template("X{.var:3}", "X.val");
    test_template("X{.list}", "X.red,green,blue");
    test_template("X{.list*}", "X.red.green.blue");
    test_template("X{.keys}", "X.semi,%3B,dot,.,comma,%2C");
    test_template("X{.keys*}", "X.semi=%3B.dot=..comma=%2C");
    test_template("X{.empty_keys}", "X");
    test_template("X{.empty_keys*}", "X");
}

#[test]
fn path_segment_expansion() {
    test_path_template("/who{/who}", "/who/fred");
    test_path_template("{/who,who}", "/fred/fred");
    test_path_template("{/half,who}", "/50%25/fred");
    test_path_template("{/who,dub}", "/fred/me%2Ftoo");
    test_path_template("{/var}", "/value");
    test_path_template("{/var,empty}", "/value/");
    test_path_template("{/var,undef}", "/value");
    test_path_template("{/var,x}/here", "/value/1024/here");
    test_path_template("{/var:1,var}", "/v/value");
    test_path_template("{/list}", "/red,green,blue");
    test_path_template("/pre{/list*}", "/pre/red/green/blue");
    test_path_template("/pre{/list*,path:4}", "/pre/red/green/blue/%2Ffoo");
    test_path_template("{/keys}", "/semi,%3B,dot,.,comma,%2C");
    test_path_template("/pre{/keys*}", "/pre/semi=%3B/dot=./comma=%2C");
}

#[test]
fn path_style_parameter_expansion() {
    test_template("{;who}", ";who=fred");
    test_template("{;half}", ";half=50%25");
    test_template("{;empty}", ";empty");
    test_template("{;v,empty,who}", ";v=6;empty;who=fred");
    test_template("{;v,bar,who}", ";v=6;who=fred");
    test_template("{;x,y}", ";x=1024;y=768");
    test_template("{;x,y,empty}", ";x=1024;y=768;empty");
    test_template("{;x,y,undef}", ";x=1024;y=768");
    test_template("{;hello:5}", ";hello=Hello");
    test_template("{;list}", ";list=red,green,blue");
    test_template("{;list*}", ";list=red;list=green;list=blue");
    test_template("{;keys}", ";keys=semi,%3B,dot,.,comma,%2C");
    test_template("{;keys*}", ";semi=%3B;dot=.;comma=%2C");
}

#[test]
fn form_style_query_expansion() {
    test_template("{?who}", "?who=fred");
    test_template("{?half}", "?half=50%25");
    test_template("{?x,y}", "?x=1024&y=768");
    test_template("{?x,y,empty}", "?x=1024&y=768&empty=");
    test_template("{?x,y,undef}", "?x=1024&y=768");
    test_template("{?var:3}", "?var=val");
    test_template("{?list}", "?list=red,green,blue");
    test_template("{?list*}", "?list=red&list=green&list=blue");
    test_template("{?keys}", "?keys=semi,%3B,dot,.,comma,%2C");
    test_template("{?keys*}", "?semi=%3B&dot=.&comma=%2C");
}

#[test]
fn form_style_query_continuation() {
    test_template("{&who}", "&who=fred");
    test_template("{&half}", "&half=50%25");
    test_template("?fixed=yes{&x}", "?fixed=yes&x=1024");
    test_template("{&x,y,empty}", "&x=1024&y=768&empty=");
    test_template("{&x,y,undef}", "&x=1024&y=768");

    test_template("{&var:3}", "&var=val");
    test_template("{&list}", "&list=red,green,blue");
    test_template("{&list*}", "&list=red&list=green&list=blue");
    test_template("{&keys}", "&keys=semi,%3B,dot,.,comma,%2C");
    test_template("{&keys*}", "&semi=%3B&dot=.&comma=%2C");
}
