use schematools::merge::{merge_values, Merger, MergerOptions, Schema};
use schematools::templates::{
    Condition, EndpointsTemplate, Filename, ModelsTemplate, StaticTemplate, Template,
    TemplateType, Templates,
};
use schematools::value::Value;

fn s(x: &str) -> String {
    String::from(x)
}

fn txt(x: &str) -> Value {
    Value::Text(s(x))
}

fn obj(pairs: Vec<(&str, Value)>) -> Value {
    Value::Object(pairs.into_iter().map(|(k, v)| (s(k), v)).collect())
}

fn arr(items: Vec<Value>) -> Value {
    Value::Array(items)
}

fn opts() -> MergerOptions {
    Merger::options()
}

#[test]
fn test_object_union() {
    let mut target = obj(vec![("a", Value::Number(1))]);
    merge_values(&mut target, obj(vec![("b", Value::Number(2))]), &opts());
    assert_eq!(target.to_string(), "{\"a\":1,\"b\":2}".to_string());

    let mut target2 = obj(vec![("a", Value::Number(1))]);
    merge_values(&mut target2, obj(vec![("a", Value::Number(2))]), &opts());
    assert_eq!(target2.to_string(), "{\"a\":2}".to_string());
}

#[test]
fn test_array_concatenation_without_dedup() {
    let mut target = arr(vec![Value::Number(1), Value::Number(2)]);
    merge_values(&mut target, arr(vec![Value::Number(2), Value::Number(3)]), &opts());
    assert_eq!(target.to_string(), "[1,2,2,3]".to_string());
}

#[test]
fn test_scalar_overwrite() {
    let mut target = txt("old");
    merge_values(&mut target, Value::Number(7), &opts());
    assert_eq!(target.to_string(), "7".to_string());
}

#[test]
fn test_idempotence_on_all_of_free_document() {
    let value = obj(vec![
        ("type", txt("object")),
        ("count", Value::Number(-12)),
        ("flag", Value::Bool(true)),
        ("nothing", Value::Null),
        ("list", arr(vec![Value::Number(1), txt("two")])),
        ("nested", obj(vec![("deep", obj(vec![("x", Value::Number(0))]))])),
    ]);
    let before = value.to_string();

    let mut schema = Schema::from_json(value);
    Merger::options().process(&mut schema);

    assert_eq!(schema.get_body().to_string(), before);
}

#[test]
fn test_sibling_precedence() {
    let value = obj(vec![
        ("allOf", arr(vec![obj(vec![("x", Value::Number(1))])])),
        ("x", Value::Number(2)),
    ]);

    let mut schema = Schema::from_json(value);
    Merger::options().process(&mut schema);

    assert_eq!(schema.get_body().to_string(), "{\"x\":1}".to_string());
}

#[test]
fn test_empty_all_of_is_inert() {
    let value = obj(vec![("allOf", arr(vec![]))]);

    let mut schema = Schema::from_json(value);
    Merger::options().process(&mut schema);

    assert_eq!(schema.get_body().to_string(), "{\"allOf\":[]}".to_string());
}

#[test]
fn test_non_array_all_of_is_left_alone() {
    let value = obj(vec![("allOf", txt("oops"))]);

    let mut schema = Schema::from_json(value);
    Merger::options().process(&mut schema);

    assert_eq!(
        schema.get_body().to_string(),
        "{\"allOf\":\"oops\"}".to_string()
    );
}

#[test]
fn test_end_to_end_scenario() {
    let value = obj(vec![(
        "allOf",
        arr(vec![
            obj(vec![
                ("type", txt("object")),
                ("required", arr(vec![txt("p2")])),
                ("properties", obj(vec![("p2", obj(vec![("type", txt("string"))]))])),
            ]),
            obj(vec![
                ("type", txt("object")),
                ("required", arr(vec![txt("p1")])),
                ("properties", obj(vec![("p1", obj(vec![("type", txt("string"))]))])),
            ]),
        ]),
    )]);

    let expected = obj(vec![
        ("type", txt("object")),
        ("required", arr(vec![txt("p2"), txt("p1")])),
        (
            "properties",
            obj(vec![
                ("p2", obj(vec![("type", txt("string"))])),
                ("p1", obj(vec![("type", txt("string"))])),
            ]),
        ),
    ]);

    let mut schema = Schema::from_json(value);
    Merger::options().process(&mut schema);

    assert_eq!(schema.get_body().to_string(), expected.to_string());
}

#[test]
fn test_builder_switch() {
    let mut options = Merger::options();
    assert!(!options.leave_invalid_properties);
    options.with_leave_invalid_properties(true);
    assert!(options.leave_invalid_properties);
}

#[test]
fn test_rendering_escapes_and_numbers() {
    let value = obj(vec![
        ("quote", txt("a\"b\\c")),
        ("newline", txt("x\ny")),
        ("negative", Value::Number(-405)),
        ("zero", Value::Number(0)),
    ]);
    assert_eq!(
        value.to_string(),
        "{\"quote\":\"a\\\"b\\\\c\",\"newline\":\"x\\ny\",\"negative\":-405,\"zero\":0}"
            .to_string()
    );
}

#[test]
fn test_condition_check() {
    let data = obj(vec![("options", obj(vec![("kind", txt("client"))]))]);

    let equal = Condition::from("%options.kind%:client").unwrap();
    assert!(equal.check(&data));

    let unequal = Condition::from("%options.kind%:server").unwrap();
    assert!(!unequal.check(&data));

    let no_colon = Condition::from("plain").unwrap();
    assert!(no_colon.check(&data));

    let missing = Condition::from("%options.absent%:client").unwrap();
    assert!(!missing.check(&data));
}

#[test]
fn test_filename_resolve() {
    let data = obj(vec![("options", obj(vec![("name", txt("api"))]))]);

    let filename = Filename::from(s("%options.name%.rs"));
    assert_eq!(filename.resolve(&data).unwrap(), "api.rs".to_string());
}

#[test]
fn test_templates_includes() {
    let templates = Templates {
        list: vec![
            Template::Static(StaticTemplate {
                relative: s("README"),
                path: s("static/README"),
            }),
            Template::Models(ModelsTemplate {
                relative: s("models.tpl"),
                filename: Filename::from(s("models.rs")),
                condition: None,
            }),
        ],
    };

    assert!(templates.includes(&[TemplateType::Models]));
    assert!(!templates.includes(&[TemplateType::Endpoints]));
    assert!(templates.includes(&[TemplateType::Endpoints, TemplateType::Models]));
    assert!(!templates.includes(&[]));

    let endpoints_only = Templates {
        list: vec![Template::Endpoints(EndpointsTemplate {
            relative: s("endpoints.tpl"),
            filename: Filename::from(s("endpoints.rs")),
            content_type: s("application/json"),
            condition: Some(Condition::from("a:a").unwrap()),
        })],
    };
    assert!(endpoints_only.includes(&[TemplateType::Endpoints]));
}

#[test]
fn test_all_of_inside_array_element() {
    let value = arr(vec![
        txt("first"),
        obj(vec![(
            "allOf",
            arr(vec![
                obj(vec![("a", Value::Number(1))]),
                obj(vec![("b", Value::Number(2))]),
            ]),
        )]),
    ]);

    let mut schema = Schema::from_json(value);
    Merger::options().process(&mut schema);

    assert_eq!(
        schema.get_body().to_string(),
        "[\"first\",{\"a\":1,\"b\":2}]".to_string()
    );
}

#[test]
fn test_scalar_branch_replaces_node() {
    let value = obj(vec![("allOf", arr(vec![Value::Number(5)]))]);

    let mut schema = Schema::from_json(value);
    Merger::options().process(&mut schema);

    assert_eq!(schema.get_body().to_string(), "5".to_string());
}
