use skabelon::{Number, Templates, Value};

fn st(s: &str) -> Value {
    Value::String(s.to_string())
}

#[test]
fn integration_tests_test() {
    let template_str = "<h1>Hello</h1>@if(show) {<p>Visible!</p>}@if(false) {<p>Hidden!</p>}@for(item in items) {<span>{{item}}</span>}";

    let mut templates = Templates::new();
    templates.load_str("test", template_str);

    let ctx = Value::Object(vec![
        ("show".to_string(), Value::Bool(true)),
        ("items".to_string(), Value::Array(vec![st("A"), st("B"), st("C")])),
    ]);

    let output = templates.render("test", &ctx);

    let expected = "<h1>Hello</h1><p>Visible!</p><span>A</span><span>B</span><span>C</span>";

    assert_eq!(output, expected);
}

#[test]
fn support_emoji() {
    let template_str = "Hi ☺️";

    let mut templates = Templates::new();
    templates.load_str("test", template_str);

    let output = templates.render("test", &Value::Object(Vec::new()));

    let expected = "Hi ☺️";

    assert_eq!(output, expected);
}

#[test]
fn whites_space_test() {
    let template_str = r#"
<h1>Testing template</h1>

<h2>If statements</h2>
@if (true) {
  <span>hello</span>
}
"#;

    let expected = r#"
<h1>Testing template</h1>

<h2>If statements</h2>

  <span>hello</span>
"#;

    let mut templates = Templates::new();
    templates.load_str("test", template_str);

    let output = templates.render("test", &Value::Null);

    assert_eq!(output, expected);
}

#[test]
fn big_table() {
    const SIZE: usize = 100;

    let mut table = Vec::with_capacity(SIZE);
    for _ in 0..SIZE {
        let mut inner = Vec::with_capacity(SIZE);
        for i in 0..SIZE {
            inner.push(i);
        }
        table.push(inner);
    }

    let template_str =
        "<table>@for(row in table) {<tr>@for(col in row) {<td>{{col}}</td>}</tr>}</table>";
    let mut templates = Templates::new();
    templates.load_str("big-table", template_str);

    let rows: Vec<Value> = table
        .iter()
        .map(|row| Value::Array(row.iter().map(|c| Value::Number(Number::from_i64(*c as i64))).collect()))
        .collect();
    let ctx = Value::Object(vec![("table".to_string(), Value::Array(rows))]);

    let output = templates.render("big-table", &ctx);

    let mut expected = "<table>".to_string();
    for row in table {
        expected += "<tr>";
        for col in row {
            expected = expected + &format!("<td>{col}</td>");
        }
        expected += "</tr>";
    }
    expected += "</table>";

    assert_eq!(output, expected);
}
