use skabelon::expr::parse_condition;
use skabelon::{
    derive_base_dir, diff_paths, normalize_key, parse_template, CompareOp, Component, Condition,
    ContextStack, Node, Number, Operand, Templates, Value,
};

fn st(s: &str) -> Value {
    Value::String(s.to_string())
}

fn num(n: i64) -> Value {
    Value::Number(Number::from_i64(n))
}

fn obj(entries: Vec<(&str, Value)>) -> Value {
    Value::Object(entries.into_iter().map(|(k, v)| (k.to_string(), v)).collect())
}

fn render(template: &str, ctx: Value) -> String {
    let mut templates = Templates::new();
    templates.load_str("t", template);
    templates.render("t", &ctx)
}

fn path(segs: &[&str]) -> Vec<String> {
    segs.iter().map(|s| s.to_string()).collect()
}

#[test]
fn plain_text_renders_to_itself() {
    let text = "Hello <b>world</b> {single} @ sign, email@example.com }";
    assert_eq!(render(text, obj(vec![("x", num(1))])), text);
    assert_eq!(render("", Value::Null), "");
}

#[test]
fn malformed_templates_render_without_failing() {
    let cases = [
        "@if(", "{{", "{{ a", "@for(x in", "@include(", "@if(a) {unterminated", "@if a {b}",
        "@for(x) {y}", "@else {z}", "}}}", "@if((a) {b}", "@include(p; =x k) {",
    ];
    for case in cases {
        let _ = render(case, obj(vec![("a", Value::Bool(true))]));
    }
    assert_eq!(render("{{ a", obj(vec![("a", st("A"))])), "A");
    assert_eq!(render("@if(a) {unterminated", obj(vec![("a", Value::Bool(true))])), "unterminated");
}

#[test]
fn if_literals() {
    assert_eq!(render("@if(true){A}", Value::Null), "A");
    assert_eq!(render("@if(false){A}", Value::Null), "");
    assert_eq!(render("@if(false){A}@else{B}", Value::Null), "B");
}

#[test]
fn loop_leaves_outer_binding() {
    let ctx = obj(vec![("x", st("outer")), ("items", Value::Array(vec![num(1), num(2)]))]);
    assert_eq!(render("@for(x in items){{{x}},}{{x}}", ctx), "1,2,outer");
}

#[test]
fn loop_over_non_array_or_empty_renders_nothing() {
    let ctx = obj(vec![("s", st("abc")), ("e", Value::Array(Vec::new()))]);
    assert_eq!(render("[@for(x in s){{{x}}}][@for(x in e){y}][@for(x in missing){z}]", ctx), "[][][]");
}

#[test]
fn include_isolation_hides_caller_bindings() {
    let mut templates = Templates::new();
    templates.load_str(
        "parent",
        "{{value}}{{parent_value}} @include(partial; value='hello'){Hello {{parent_value}}}",
    );
    templates.load_str("partial", "{{value}} <content-slot>{{parent_value}}");
    let ctx = obj(vec![("parent_value", st("World"))]);
    assert_eq!(templates.render("parent", &ctx), "World hello Hello World");
}

#[test]
fn include_isolation_with_slot_element() {
    let mut templates = Templates::new();
    templates.load_str(
        "parent",
        "{{value}}{{parent_value}} @include(partial; value='hello'){Hello {{parent_value}}}",
    );
    templates.load_str("partial", "{{value}} <slot>{{parent_value}}");
    let ctx = obj(vec![("parent_value", st("World"))]);
    assert_eq!(templates.render("parent", &ctx), "World hello Hello World");
}

#[test]
fn include_locals_of_every_kind() {
    let mut templates = Templates::new();
    templates.load_str("parent", "@include(p; n=5 b=true z=null f=-1.50 s='x' v=outer.name w=missing)");
    templates.load_str("p", "{{n}}|{{b}}|{{z}}|{{f}}|{{s}}|{{v}}|{{w}}|@if(w == z){null}@if(w == missing){absent}");
    let ctx = obj(vec![("outer", obj(vec![("name", st("N"))]))]);
    assert_eq!(templates.render("parent", &ctx), "5|true||-1.5|x|N||null");
}

#[test]
fn comparisons() {
    assert_eq!(render("@if(5 < 10){T}", Value::Null), "T");
    assert_eq!(render(r#"@if("B" > "A"){T}"#, Value::Null), "T");
    assert_eq!(render("@if(true == false){T}", Value::Null), "");
    assert_eq!(render(r#"@if("10" == 10){T}"#, Value::Null), "");
    assert_eq!(render("@if(missing == other){T}", Value::Null), "T");
    assert_eq!(render("@if(missing < 1){T}", Value::Null), "");
    assert_eq!(render("@if(1.50 == 1.5){T}", Value::Null), "T");
    assert_eq!(render("@if(a <= b){T}", obj(vec![("a", st("é")), ("b", st("z"))])), "");
    assert_eq!(render("@if(a < b){T}", obj(vec![("a", Value::Bool(false)), ("b", Value::Bool(true))])), "");
}

#[test]
fn content_slot() {
    let mut templates = Templates::new();
    templates.load_str("parent", "@include(partial){Hello World}");
    templates.load_str("partial", "<div>@content</div>");
    assert_eq!(templates.render("parent", &Value::Null), "<div>Hello World</div>");
    assert_eq!(render("a@content<content-slot><slot>b", Value::Null), "ab");
}

#[test]
fn and_binds_tighter_than_or() {
    let c = parse_condition("a and b or c");
    let p = |s: &str| Condition::Path(path(&[s]));
    assert_eq!(c, Condition::Or(vec![Condition::And(vec![p("a"), p("b")]), p("c")]));
    let ctx = obj(vec![("a", Value::Bool(true)), ("b", Value::Bool(false)), ("c", Value::Bool(true))]);
    assert_eq!(render("@if(a and b or c){yes}", ctx), "yes");
}

#[test]
fn condition_parsing() {
    assert_eq!(parse_condition(""), Condition::Literal(false));
    assert_eq!(parse_condition("true"), Condition::Literal(true));
    assert_eq!(parse_condition("!x"), Condition::Not(Box::new(Condition::Path(path(&["x"])))));
    assert_eq!(
        parse_condition("a.b >= 'q'"),
        Condition::Compare {
            left: Operand::Path(path(&["a", "b"])),
            op: CompareOp::Ge,
            right: Operand::Literal(st("q")),
        }
    );
    assert_eq!(
        parse_condition("x == 2.5"),
        Condition::Compare {
            left: Operand::Path(path(&["x"])),
            op: CompareOp::Eq,
            right: Operand::Literal(Value::Number(Number::new(25, 1).unwrap())),
        }
    );
}

#[test]
fn template_parsing() {
    let nodes = parse_template("a{{ b.c[0] }}@for(i in xs){<@content>}");
    assert_eq!(nodes.len(), 3);
    assert_eq!(nodes[0], Node::Text("a".to_string()));
    assert_eq!(nodes[1], Node::VariableBlock(path(&["b", "c", "0"])));
    match &nodes[2] {
        Node::Forloop(f) => {
            assert_eq!(f.value, "i");
            assert_eq!(f.container, path(&["xs"]));
            assert_eq!(f.body, vec![Node::Text("<".to_string()), Node::ContentPlaceholder, Node::Text(">".to_string())]);
        }
        other => panic!("unexpected node {:?}", other),
    }
}

#[test]
fn number_text() {
    let v = |m: i64, s: u32| Value::Number(Number::new(m, s).unwrap());
    let ctx = obj(vec![("a", v(110, 2)), ("b", v(-5, 2)), ("c", v(-42, 0)), ("d", v(10, 1))]);
    assert_eq!(render("{{a}} {{b}} {{c}} {{d}}", ctx), "1.1 -0.05 -42 1.0");
    assert!(Number::new(1, 19).is_none());
    assert_eq!(render("{{n}}", obj(vec![("n", num(i64::MIN))])), "-9223372036854775808");
}

#[test]
fn structured_values_render_as_json() {
    let ctx = obj(vec![
        ("arr", Value::Array(vec![st("a\"b"), num(1), Value::Bool(true), Value::Null])),
        ("o", obj(vec![("k", st("v")), ("n", Value::Array(Vec::new()))])),
    ]);
    assert_eq!(render("{{arr}} {{o}}", ctx), r#"["a\"b",1,true,null] {"k":"v","n":[]}"#);
}

#[test]
fn decimal_literals_render_canonically() {
    let mut templates = Templates::new();
    templates.load_str("parent", "@include(p; a=1.50 b=2.000 c=0.10)");
    templates.load_str("p", "{{a}} {{b}} {{c}}");
    assert_eq!(templates.render("parent", &Value::Null), "1.5 2.0 0.1");
}

#[test]
fn objects_compare_as_maps() {
    let ctx = obj(vec![
        ("x", obj(vec![("a", num(1)), ("b", num(2))])),
        ("y", obj(vec![("b", num(2)), ("a", num(1))])),
        ("z", obj(vec![("a", num(9)), ("b", num(2)), ("a", num(1))])),
        ("w", obj(vec![("a", num(1))])),
        ("l", Value::Array(vec![num(1), obj(vec![("k", st("v"))])])),
        ("m", Value::Array(vec![num(1), obj(vec![("k", st("v"))])])),
    ]);
    let t = "@if(x == y){1}@if(x == z){2}@if(x == w){3}@if(w == x){4}@if(l == m){5}@if(x != y){6}";
    assert_eq!(render(t, ctx), "125");
}

#[test]
fn index_with_plus_sign() {
    let ctx = obj(vec![("arr", Value::Array(vec![st("A"), st("B")]))]);
    assert_eq!(render("{{arr.+1}}|{{arr[+0]}}|{{arr.+}}|{{arr.-1}}", ctx), "B|A||");
}

#[test]
fn control_characters_are_escaped_in_json() {
    let ctx = obj(vec![("a", Value::Array(vec![st("t\tn\nq\\\u{1}\u{7f}")]))]);
    assert_eq!(render("{{a}}", ctx), "[\"t\\tn\\nq\\\\\\u0001\u{7f}\"]");
}

#[test]
fn truthiness() {
    let ctx = obj(vec![
        ("zero", num(0)),
        ("one", num(1)),
        ("empty", st("")),
        ("text", st("x")),
        ("none", Value::Array(Vec::new())),
        ("some", Value::Array(vec![Value::Null])),
        ("eo", obj(vec![])),
        ("null", Value::Null),
    ]);
    let t = "@if(zero){a}@if(one){b}@if(empty){c}@if(text){d}@if(none){e}@if(some){f}@if(eo){g}@if(null){h}@if(missing){i}";
    assert_eq!(render(t, ctx), "bdf");
}

#[test]
fn paths_and_indices() {
    let ctx = obj(vec![
        ("arr", Value::Array(vec![st("A"), obj(vec![("k", st("K"))])])),
        ("dup", obj(vec![("k", st("first")), ("k", st("last"))])),
    ]);
    assert_eq!(render("{{arr[1].k}}|{{arr[-1]}}|{{arr[x]}}|{{arr[9]}}|{{arr.0}}|{{dup.k}}|{{arr[0].z}}", ctx), "K||||A|last|");
}

#[test]
fn missing_templates_and_includes() {
    let mut templates = Templates::new();
    templates.load_str("p", "a@include(nope)b");
    assert_eq!(templates.render("p", &Value::Null), "a<!-- Missing include: nope -->b");
    assert_eq!(templates.render("q", &Value::Null), "<!-- Missing template: q -->");
}

#[test]
fn self_inclusion_stops() {
    let mut templates = Templates::new();
    templates.load_str("self", "x@include(self)");
    let out = templates.render("self", &Value::Null);
    assert!(out.starts_with("xxx"));
    assert!(out.ends_with("<!-- Include nested too deep: self -->"));
    assert_eq!(out.matches('x').count(), 65);
}

#[test]
fn keys_are_normalised_and_replaced() {
    let mut templates = Templates::new();
    templates.load_str("./dir\\a.html", "one");
    assert_eq!(templates.render("dir/a.html", &Value::Null), "one");
    templates.load_str("dir/a.html", "two");
    assert_eq!(templates.render("./dir/a.html", &Value::Null), "two");
    assert_eq!(normalize_key(".\\x\\y"), "x/y");
    assert_eq!(normalize_key("../x"), "../x");
}

#[test]
fn render_nodes_restores_context() {
    let mut templates = Templates::new();
    templates.load_str("t", "@for(x in xs){{{x}}}{{x}}");
    let root = obj(vec![("x", st("r")), ("xs", Value::Array(vec![num(7)]))]);
    let mut ctx = ContextStack::new(&root);
    let nodes = parse_template("@for(x in xs){{{x}}}{{x}}");
    assert_eq!(skabelon::render_nodes(&nodes, &mut ctx, &templates, None), "7r");
    assert_eq!(ctx.get("x"), Some(&st("r")));
}

#[test]
fn context_stack_scopes() {
    let root = obj(vec![("a", num(1))]);
    let inner = num(2);
    let mut ctx = ContextStack::new(&root);
    ctx.set("a", &inner);
    assert_eq!(ctx.get("a"), Some(&num(1)));
    ctx.push_scope();
    ctx.set("a", &inner);
    assert_eq!(ctx.get("a"), Some(&num(2)));
    ctx.pop_scope();
    assert_eq!(ctx.get("a"), Some(&num(1)));
    assert_eq!(ctx.get("b"), None);
}

fn comps(p: &[&str]) -> Vec<Component> {
    p.iter()
        .map(|c| match *c {
            "/" => Component::RootDir,
            "." => Component::CurDir,
            ".." => Component::ParentDir,
            other => Component::Normal(other.to_string()),
        })
        .collect()
}

#[test]
fn relative_paths() {
    assert_eq!(diff_paths(&comps(&["/", "a", "b", "c"]), &comps(&["/", "a"])), Some(comps(&["b", "c"])));
    assert_eq!(diff_paths(&comps(&["/", "a", "x"]), &comps(&["/", "a", "b", "c"])), Some(comps(&["..", "..", "x"])));
    assert_eq!(diff_paths(&comps(&["/", "a"]), &comps(&["b"])), Some(comps(&["/", "a"])));
    assert_eq!(diff_paths(&comps(&["a"]), &comps(&["/", "b"])), None);
    assert_eq!(diff_paths(&comps(&["a", "b"]), &comps(&["..", "c"])), None);
    assert_eq!(diff_paths(&comps(&["a", "b"]), &comps(&["a", "b"])), Some(Vec::new()));
}

#[test]
fn base_directories() {
    assert_eq!(derive_base_dir("templates/**/*.html"), "templates");
    assert_eq!(derive_base_dir("a//*.txt"), "a");
    assert_eq!(derive_base_dir("a/b.html"), "a");
    assert_eq!(derive_base_dir("/"), ".");
}

#[test]
fn deep_parentheses_read_false() {
    let ctx = obj(vec![("a", Value::Bool(true))]);
    let shallow = format!("@if({}a{}){{x}}", "(".repeat(10), ")".repeat(10));
    assert_eq!(render(&shallow, ctx), "x");
    let ctx = obj(vec![("a", Value::Bool(true))]);
    let deep = format!("@if({}a{}){{x}}", "(".repeat(70), ")".repeat(70));
    assert_eq!(render(&deep, ctx), "");
    let nots = format!("@if({}a){{x}}", "! ".repeat(70));
    assert_eq!(render(&nots, obj(vec![("a", Value::Bool(true))])), "");
}

#[test]
fn deep_blocks_become_text() {
    let t = format!("{}x{}", "@if(true){".repeat(65), "}".repeat(65));
    assert_eq!(render(&t, Value::Null), "@if(true){x}");
}

#[test]
fn nesting_through_partials_stops() {
    let mut templates = Templates::new();
    templates.load_str("self", "@if(true){y@include(self)}");
    let out = templates.render("self", &Value::Null);
    assert!(out.starts_with("yyy"));
    assert!(out.ends_with("-->"));
    assert!(out.matches('y').count() <= 64);
}
