use skabelon::{Number, Templates, Value};

fn st(s: &str) -> Value {
    Value::String(s.to_string())
}

fn num(n: i64) -> Value {
    Value::Number(Number::from_i64(n))
}

/// A decimal written in the test as a float, held as its shortest decimal text.
fn float(f: f64) -> Value {
    let text = format!("{}", f);
    let (int_part, frac) = match text.split_once('.') {
        Some((a, b)) => (a.to_string(), b.to_string()),
        None => (text.clone(), String::new()),
    };
    let digits: i64 = format!("{}{}", int_part, frac).parse().unwrap();
    Value::Number(Number::new(digits, frac.len() as u32).unwrap())
}

fn obj(entries: Vec<(&str, Value)>) -> Value {
    Value::Object(entries.into_iter().map(|(k, v)| (k.to_string(), v)).collect())
}

fn render(template: &str, ctx: Value) -> String {
    let mut templates = Templates::new();
    templates.load_str("template", template);
    templates.render("template", &ctx)
}

#[test]
fn conditions_if_condition() {
    let template_str = "@if(value) {hello} @if(other) {world}";
    let ctx = obj(vec![
        ("value", Value::Bool(true)),
        ("other", Value::Bool(false)),
    ]);
    let output = render(template_str, ctx);
    let expected = "hello";
    assert_eq!(output, expected);
}

#[test]
fn and() {
    let template_str = "@if(value1 && value2) {hello} @if(value1 and value3) {world}";
    let ctx = obj(vec![
        ("value1", Value::Bool(true)),
        ("value2", Value::Bool(true)),
        ("value3", Value::Bool(false)),
    ]);
    let output = render(template_str, ctx);
    let expected = "hello";
    assert_eq!(output, expected);
}

#[test]
fn and_multi() {
    let template_str = "@if(value1 && value2 && value3) {hello}";
    let ctx = obj(vec![
        ("value1", Value::Bool(true)),
        ("value2", Value::Bool(true)),
        ("value3", Value::Bool(true)),
    ]);
    let output = render(template_str, ctx);
    let expected = "hello";
    assert_eq!(output, expected);
}

#[test]
fn and_multi_2() {
    let template_str = "@if(value1 && value2 || value3) {hello}";
    let ctx = obj(vec![
        ("value1", Value::Bool(true)),
        ("value2", Value::Bool(false)),
        ("value3", Value::Bool(true)),
    ]);
    let output = render(template_str, ctx);
    let expected = "hello";
    assert_eq!(output, expected);
}

#[test]
fn or() {
    let template_str = "@if(value1 || value2) {hello} @if(value2 or value3) {world}";
    let ctx = obj(vec![
        ("value1", Value::Bool(true)),
        ("value2", Value::Bool(false)),
        ("value3", Value::Bool(false)),
    ]);
    let output = render(template_str, ctx);
    let expected = "hello";
    assert_eq!(output, expected);
}

#[test]
fn conditions_if_else() {
    let template_str = "@if(value) {hello} @else {world}";
    let ctx = obj(vec![
        ("value", Value::Bool(false)),
    ]);
    let output = render(template_str, ctx);
    let expected = "world";
    assert_eq!(output, expected);
}

#[test]
fn conditions_if_else_if() {
    let template_str = "@if(a) {A} @else if(b) {B} @else {C}";
    let ctx = obj(vec![
        ("a", Value::Bool(false)),
        ("b", Value::Bool(true)),
    ]);
    let output = render(template_str, ctx);
    let expected = "B";
    assert_eq!(output, expected);
}

#[test]
fn if_variable() {
    let template_str = r#"@if(value1 == "A") {hello } @if(value3 == 1) {world}"#;
    let ctx = obj(vec![
        ("value1", st("A")),
        ("value2", st("B")),
        ("value3", num(1)),
    ]);
    let output = render(template_str, ctx);
    let expected = "hello world";
    assert_eq!(output, expected);
}

#[test]
fn if_variable_2() {
    let template_str = r#"@if(value1 == "A") {hello } @if(value2 != "B") {world} @if(value3 < 10) {world}"#;
    let ctx = obj(vec![
        ("value1", st("A")),
        ("value2", st("B")),
        ("value3", num(5)),
    ]);
    let output = render(template_str, ctx);
    let expected = "hello world";
    assert_eq!(output, expected);
}

#[test]
fn if_variable_3() {
    let template_str = r#"@if(value1 == value2) {hello}"#;
    let ctx = obj(vec![
        ("value1", st("A")),
        ("value2", st("A")),
    ]);
    let output = render(template_str, ctx);
    let expected = "hello";
    assert_eq!(output, expected);
}

#[test]
fn if_variable_eq_string_literal() {
    let template_str = r#"@if(value1 == "A") {hello } @if(value3 == 1) {world}"#;
    let ctx = obj(vec![
        ("value1", st("A")),
        ("value2", st("B")),
        ("value3", num(1)),
    ]);
    let output = render(template_str, ctx);
    let expected = "hello world";
    assert_eq!(output, expected);
}

#[test]
fn if_variable_ne_string_literal_and_lt_number_literal() {
    let template_str = r#"@if(value1 == "A") {hello } @if(value2 != "B") {world} @if(value3 < 10) {world}"#;
    let ctx = obj(vec![
        ("value1", st("A")),
        ("value2", st("B")),
        ("value3", num(5)),
    ]);
    let output = render(template_str, ctx);
    let expected = "hello world";
    assert_eq!(output, expected);
}

#[test]
fn if_variable_eq_variable() {
    let template_str = r#"@if(value1 == value2) {hello}"#;
    let ctx = obj(vec![
        ("value1", st("A")),
        ("value2", st("A")),
    ]);
    let output = render(template_str, ctx);
    let expected = "hello";
    assert_eq!(output, expected);
}

#[test]
fn if_variable_ne_variable() {
    let template_str = r#"@if(value1 != value2) {hello}"#;
    let ctx = obj(vec![
        ("value1", st("A")),
        ("value2", st("B")),
    ]);
    let output = render(template_str, ctx);
    let expected = "hello";
    assert_eq!(output, expected);
}

#[test]
fn if_number_comparisons_literals() {
    let template_str = r#"@if(num1 < 10) {a } @if(num2 > 5) {b } @if(num3 <= 3) {c } @if(num4 >= 7) {d}"#;
    let ctx = obj(vec![
        ("num1", num(9)),
        ("num2", num(6)),
        ("num3", num(3)),
        ("num4", num(7)),
    ]);
    let output = render(template_str, ctx);
    let expected = "a b c d";
    assert_eq!(output, expected);
}

#[test]
fn if_number_comparisons_variable_to_variable() {
    let template_str = r#"@if(a < b) {x } @if(b > c) {y } @if(c <= d) {z } @if(d >= e) {w}"#;
    let ctx = obj(vec![
        ("a", num(1)),
        ("b", num(2)),
        ("c", num(1)),
        ("d", num(1)),
        ("e", num(1)),
    ]);
    let output = render(template_str, ctx);
    let expected = "x y z w";
    assert_eq!(output, expected);
}

#[test]
fn if_string_ordering() {
    let template_str = r#"@if(val1 < val2) {l } @if(val2 > val1) {g } @if(val1 <= val1) {le } @if(val2 >= val2) {ge}"#;
    let ctx = obj(vec![
        ("val1", st("A")),
        ("val2", st("B")),
    ]);
    let output = render(template_str, ctx);
    let expected = "l g le ge";
    assert_eq!(output, expected);
}

#[test]
fn if_boolean_literals_and_variables() {
    let template_str = r#"@if(flag1 == true) {T1 } @if(flag2 == false) {T2 } @if(flag3 != true) {T3}"#;
    let ctx = obj(vec![
        ("flag1", Value::Bool(true)),
        ("flag2", Value::Bool(false)),
        ("flag3", Value::Bool(false)),
    ]);
    let output = render(template_str, ctx);
    let expected = "T1 T2 T3";
    assert_eq!(output, expected);
}

#[test]
fn if_mixed_types_equality() {
    let template_str = r#"@if(str1 == "10") {S } @if(num1 == 10) {N } @if(str1 != num1) {M}"#;
    let ctx = obj(vec![
        ("str1", st("10")),
        ("num1", num(10)),
    ]);
    let output = render(template_str, ctx);
    let expected = "S N M";
    assert_eq!(output, expected);
}

#[test]
fn if_and_or_precedence() {
    let template_str = r#"@if(value1 and value2 or value3) {hello}"#;
    let ctx = obj(vec![
        ("value1", Value::Bool(true)),
        ("value2", Value::Bool(false)),
        ("value3", Value::Bool(true)),
    ]);
    let output = render(template_str, ctx);
    let expected = "hello";
    assert_eq!(output, expected);
}

#[test]
fn if_parentheses_precedence() {
    let template_str = r#"@if((value1 or value2) and value3) {hello}"#;
    let ctx = obj(vec![
        ("value1", Value::Bool(true)),
        ("value2", Value::Bool(false)),
        ("value3", Value::Bool(true)),
    ]);
    let output = render(template_str, ctx);
    let expected = "hello";
    assert_eq!(output, expected);
}

#[test]
fn if_unary_not_simple() {
    let template_str = r#"@if(!value) {hello}"#;
    let ctx = obj(vec![
        ("value", Value::Bool(false)),
    ]);
    let output = render(template_str, ctx);
    let expected = "hello";
    assert_eq!(output, expected);
}

#[test]
fn if_unary_not_with_comparison() {
    let template_str = r#"@if(!(value1 == "A")) {hello}"#;
    let ctx = obj(vec![
        ("value1", st("B")),
    ]);
    let output = render(template_str, ctx);
    let expected = "hello";
    assert_eq!(output, expected);
}

#[test]
fn if_unary_not_and_or_combo() {
    let template_str = r#"@if(!value1 and (value2 == "X" or value3 == "Y")) {hello}"#;
    let ctx = obj(vec![
        ("value1", Value::Bool(false)),
        ("value2", st("Z")),
        ("value3", st("Y")),
    ]);
    let output = render(template_str, ctx);
    let expected = "hello";
    assert_eq!(output, expected);
}

#[test]
fn if_variable_vs_literal_number_edge() {
    let template_str = r#"@if(n == 0) {z } @if(n != 0) {nz } @if(n > -1) {gt } @if(n >= 0) {ge}"#;
    let ctx = obj(vec![
        ("n", num(0)),
    ]);
    let output = render(template_str, ctx);
    let expected = "z gt ge";
    assert_eq!(output, expected);
}

#[test]
fn if_variable_vs_variable_booleans() {
    let template_str = r#"@if(a == b) {eq } @if(a != b) {ne}"#;
    let ctx = obj(vec![
        ("a", Value::Bool(true)),
        ("b", Value::Bool(true)),
    ]);
    let output = render(template_str, ctx);
    let expected = "eq ";
    assert_eq!(output, expected);
}

#[test]
fn if_mixed_numeric_float_int() {
    let template_str = r#"@if(f == 1.1) {eqf } @if(i == 1) {eqi } @if(f == i) {eqm}"#;
    let ctx = obj(vec![
        ("f", float(1.1)),
        ("i", num(1)),
    ]);
    let output = render(template_str, ctx);
    let expected = "eqf eqi ";
    assert_eq!(output, expected);
}

#[test]
fn if_string_equality_variable_to_literal_quotes() {
    let template_str = r#"@if(name == "Alice") {hi } @if(name != "Bob") {notbob}"#;
    let ctx = obj(vec![
        ("name", st("Alice")),
    ]);
    let output = render(template_str, ctx);
    let expected = "hi notbob";
    assert_eq!(output, expected);
}

#[test]
fn arrays_values_are_parsed() {
    let template_str = "{{arr[0]}} {{arr[1]}} {{arr[2]}} {{arr[4]}}";
    let ctx = obj(vec![("arr", Value::Array(vec![st("A"), st("B"), st("C")]))]);
    let output = render(template_str, ctx);
    let expected = "A B C";
    assert_eq!(output.trim(), expected);
}

#[test]
fn loops_for_loops() {
    let template_str = "@for(item in items) {<span>{{item.index}}: {{item.value}}</span>}";

    let mut templates = Templates::new();
    templates.load_str("test", template_str);

    let arr: Vec<Value> = ["A", "B", "C"]
        .into_iter()
        .enumerate()
        .map(|x| obj(vec![("index", num(x.0 as i64 + 1)), ("value", st(x.1))]))
        .collect();

    let ctx = vec![("items".to_string(), Value::Array(arr))];

    let output = templates.render_template("test", ctx);

    let expected = "<span>1: A</span><span>2: B</span><span>3: C</span>";

    assert_eq!(output, expected);
}

#[test]
fn objects_values_are_parsed() {
    let template_str = "{{number}} {{bool}} {{string}}";
    let mut templates = Templates::new();
    templates.load_str("test", template_str);
    let ctx = vec![
        ("number".to_string(), num(1)),
        ("bool".to_string(), Value::Bool(true)),
        ("string".to_string(), st("hello")),
    ];
    let output = templates.render_template("test", ctx);
    let expected = "1 true hello";
    assert_eq!(output, expected);
}

#[test]
fn objects_objects_are_parsed() {
    let template_str = "{{object1[\"value\"]}} {{object2.number}}";
    let mut templates = Templates::new();
    templates.load_str("test", template_str);
    let ctx = vec![
        ("object1".to_string(), obj(vec![("value", st("hello"))])),
        ("object2".to_string(), obj(vec![("number", num(1))])),
    ];
    let output = templates.render_template("test", ctx);
    let expected = "hello 1";
    assert_eq!(output, expected);
}

#[test]
fn objects_none_objects_values_are_false() {
    let template = "@if(object[\"value\"]) {Hello World}";
    let mut templates = Templates::new();
    templates.load_str("template", template);
    let ctx = vec![("value".to_string(), Value::Null)];
    let output = templates.render_template("template", ctx);
    let expected = "";
    assert_eq!(output, expected);
}

#[test]
fn objects_objects_values_are_truthy() {
    let template = "@if(object[\"value\"]) {{{object[\"value\"}}}";
    let mut templates = Templates::new();
    templates.load_str("template", template);
    let ctx = vec![("object".to_string(), obj(vec![("value", st("Hello world"))]))];
    let output = templates.render_template("template", ctx);
    let expected = "Hello world";
    assert_eq!(output, expected);
}

fn render_pair(parent: &str, partial: &str, ctx: Value) -> String {
    let mut templates = Templates::new();
    templates.load_str("parent", parent);
    templates.load_str("partial", partial);
    templates.render("parent", &ctx)
}

#[test]
fn include_partial() {
    let output = render_pair(
        "@include(partial) {} @if(true) {<span>World</span>}",
        "<span>Hello</span>",
        Value::Null,
    );
    assert_eq!(output, "<span>Hello</span> <span>World</span>");
}

#[test]
fn include_partial_no_block() {
    let output = render_pair(
        "@include(partial) @if(true) {<span>World</span>}",
        "<span>Hello</span>",
        Value::Null,
    );
    assert_eq!(output, "<span>Hello</span><span>World</span>");
}

#[test]
fn include_partial_block() {
    let output = render_pair("@include(partial) {Hello World}", "<div><content-slot></div>", Value::Null);
    assert_eq!(output, "<div>Hello World</div>");
}

#[test]
fn include_partial_separated_context() {
    let output = render_pair(
        "{{value}}{{parent_value}} @include(partial; value='hello') {Hello {{parent_value}}}",
        "{{value}} <content-slot>{{parent_value}}",
        obj(vec![("parent_value", st("World"))]),
    );
    assert_eq!(output, "World hello Hello World");
}

#[test]
fn include_partial_with_context() {
    let output = render_pair(
        "@include(partial; partial_var=\"partial\") {<span>{{parent_var}}</span>}",
        "<div>{{partial_var}} <content-slot></div>",
        obj(vec![("parent_var", st("parent")), ("partial_var", st("partial"))]),
    );
    assert_eq!(output, "<div>partial <span>parent</span></div>");
}

#[test]
fn partial_with_variable_context() {
    let output = render_pair(
        "@include(partial; partial_var=variable) {world}",
        "{{partial_var}} world",
        obj(vec![("variable", st("hello"))]),
    );
    assert_eq!(output, "hello world");
}
