use skabelon::{Number, Templates, Value};

fn st(s: &str) -> Value {
    Value::String(s.to_string())
}

fn num(n: i64) -> Value {
    Value::Number(Number::from_i64(n))
}

fn obj(entries: Vec<(&str, Value)>) -> Value {
    Value::Object(entries.into_iter().map(|(k, v)| (k.to_string(), v)).collect())
}

fn bindings(entries: Vec<(&str, Value)>) -> Vec<(String, Value)> {
    entries.into_iter().map(|(k, v)| (k.to_string(), v)).collect()
}

#[test]
fn lib_test() {
    let template_str = "<h1>Hello</h1>@if(show) {<p>Visible!</p>}@if(false) {<p>Hidden!</p>}@for(item in items) {<span>{{item}}</span>}";

    let mut templates = Templates::new();
    templates.load_str("test", template_str);

    let ctx = bindings(vec![
        ("show", Value::Bool(true)),
        ("items", Value::Array(vec![st("A"), st("B"), st("C")])),
    ]);

    let output = templates.render_template("test", ctx);

    let expected = "<h1>Hello</h1><p>Visible!</p><span>A</span><span>B</span><span>C</span>";

    assert_eq!(output, expected);
}

#[test]
fn lib_for_loops() {
    let template_str = "@for(item in items) {<span>{{item.index}}: {{item.value}}</span>}";

    let mut templates = Templates::new();
    templates.load_str("test", template_str);

    let arr: Vec<Value> = ["A", "B", "C"]
        .into_iter()
        .enumerate()
        .map(|x| obj(vec![("index", num(x.0 as i64 + 1)), ("value", st(x.1))]))
        .collect();

    let ctx = bindings(vec![("items", Value::Array(arr))]);

    let output = templates.render_template("test", ctx);

    let expected = "<span>1: A</span><span>2: B</span><span>3: C</span>";

    assert_eq!(output, expected);
}

#[test]
fn lib_if_condition() {
    let template_str = "@if(value) {hello} @if(other) {world}";

    let mut templates = Templates::new();
    templates.load_str("template", template_str);

    let ctx = bindings(vec![("value", Value::Bool(true)), ("other", Value::Bool(false))]);

    let output = templates.render_template("template", ctx);

    let expected = "hello";

    assert_eq!(output, expected);
}

#[test]
fn lib_if_else() {
    let template_str = "@if(value) {hello} @else {world}";

    let mut templates = Templates::new();
    templates.load_str("template", template_str);

    let ctx = bindings(vec![("value", Value::Bool(false))]);

    let output = templates.render_template("template", ctx);

    let expected = "world";

    assert_eq!(output, expected);
}

#[test]
fn lib_if_else_if() {
    let template = "@if(a) {A} @else if(b) {B} @else {C}";

    let mut templates = Templates::new();
    templates.load_str("template", template);

    let ctx = bindings(vec![("a", Value::Bool(false)), ("b", Value::Bool(true))]);

    let output = templates.render_template("template", ctx);
    assert_eq!(output, "B");
}

#[test]
fn lib_values_are_parsed() {
    let template_str = "{{number}} {{bool}} {{string}}";

    let mut templates = Templates::new();
    templates.load_str("test", template_str);

    let ctx = bindings(vec![
        ("number", num(1)),
        ("bool", Value::Bool(true)),
        ("string", st("hello")),
    ]);

    let output = templates.render_template("test", ctx);

    let expected = "1 true hello";

    assert_eq!(output, expected);
}

#[test]
fn lib_objects_are_parsed() {
    let template_str = "{{object1[\"value\"]}} {{object2.number}}";

    let mut templates = Templates::new();
    templates.load_str("test", template_str);

    let ctx = bindings(vec![
        ("object1", obj(vec![("value", st("hello"))])),
        ("object2", obj(vec![("number", num(1))])),
    ]);

    let output = templates.render_template("test", ctx);

    let expected = "hello 1";

    assert_eq!(output, expected);
}

#[test]
fn lib_partial() {
    let parent = "@include(partial) {} @if(true) {<span>World</span>}";
    let partial = "<span>Hello</span>";

    let mut templates = Templates::new();
    templates.load_str("parent", parent);
    templates.load_str("partial", partial);

    let output = templates.render_template("parent", Vec::new());

    let expected = "<span>Hello</span> <span>World</span>";

    assert_eq!(output, expected);
}

#[test]
fn lib_partial_no_block() {
    let parent = "@include(partial) @if(true) {<span>World</span>}";
    let partial = "<span>Hello</span>";

    let mut templates = Templates::new();
    templates.load_str("parent", parent);
    templates.load_str("partial", partial);

    let output = templates.render_template("parent", Vec::new());

    let expected = "<span>Hello</span><span>World</span>";

    assert_eq!(output, expected);
}

#[test]
fn lib_partial_block() {
    let parent = "@include(partial) {Hello World}";
    let partial = "<div>@content</div>";

    let mut templates = Templates::new();
    templates.load_str("parent", parent);
    templates.load_str("partial", partial);

    let output = templates.render_template("parent", Vec::new());

    let expected = "<div>Hello World</div>";

    assert_eq!(output, expected);
}

#[test]
fn lib_none_objects_values_are_false() {
    let template = "@if(object[\"value\"]) {Hello World}";

    let mut templates = Templates::new();
    templates.load_str("template", template);

    let ctx = bindings(vec![("object", obj(vec![("value", Value::Null)]))]);
    let output = templates.render_template("template", ctx);

    let expected = "";

    assert_eq!(output, expected);
}

#[test]
fn lib_objects_values_are_truthy() {
    let template = "@if(object[\"value\"]) {{{object[\"value\"}}}";

    let mut templates = Templates::new();
    templates.load_str("template", template);

    let ctx = bindings(vec![("object", obj(vec![("value", st("Hello world"))]))]);
    let output = templates.render_template("template", ctx);

    let expected = "Hello world";

    assert_eq!(output, expected);
}

#[test]
fn lib_partial_separated_context() {
    let parent =
        "{{value}}{{parent_value}} @include(partial; value='hello') {Hello {{parent_value}}}";
    let partial = "{{value}} @content{{parent_value}}";

    let mut templates = Templates::new();
    templates.load_str("parent", parent);
    templates.load_str("partial", partial);

    let ctx = bindings(vec![("parent_value", st("World"))]);

    let output = templates.render_template("parent", ctx);

    let expected = "World hello Hello World";

    assert_eq!(output, expected);
}

#[test]
fn lib_partial_with_context() {
    let parent = "@include(partial; partial_var=\"partial\") {<span>{{parent_var}}</span>}";
    let partial = "<div>{{partial_var}} @content</div>";

    let mut templates = Templates::new();
    templates.load_str("parent", parent);
    templates.load_str("partial", partial);

    let ctx = bindings(vec![("parent_var", st("parent")), ("partial_var", st("partial"))]);

    let output = templates.render_template("parent", ctx);

    let expected = "<div>partial <span>parent</span></div>";

    assert_eq!(output, expected);
}
