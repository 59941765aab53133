use schematools::error::Error;
use schematools::scope::SchemaScope;
use schematools::tools::{each_node, fill_parameters, set_node_at, ArgumentsExtractor};
use schematools::value::Value;

fn s(x: &str) -> String {
    String::from(x)
}

fn txt(x: &str) -> Value {
    Value::Text(s(x))
}

fn obj(pairs: Vec<(&str, Value)>) -> Value {
    Value::Object(pairs.into_iter().map(|(k, v)| (s(k), v)).collect())
}

fn arr(items: Vec<Value>) -> Value {
    Value::Array(items)
}

#[test]
fn test_fill_parameters() {
    let given = obj(vec![(
        "options",
        obj(vec![("test", txt("10")), ("num", Value::Number(2))]),
    )]);

    let result =
        fill_parameters("some variable %options.test% ok %options.num%", &given).unwrap();

    assert_eq!(result, "some variable 10 ok 2".to_string());
}

#[test]
fn test_argument_extractor() {
    let given = "codegen openapi -f - --templates-dir codegen/ --format \"gofmt -w\" --target-dir pkg/client/ -o namespace=testing -o clientName=TestingClient";

    let mut extractor = ArgumentsExtractor::new(given);
    let mut result: Vec<String> = Vec::new();
    while let Some(arg) = extractor.next() {
        result.push(arg);
    }

    assert_eq!(
        result,
        vec![
            "codegen",
            "openapi",
            "-f",
            "-",
            "--templates-dir",
            "codegen/",
            "--format",
            "gofmt -w",
            "--target-dir",
            "pkg/client/",
            "-o",
            "namespace=testing",
            "-o",
            "clientName=TestingClient"
        ]
        .iter()
        .map(|s| s.to_string())
        .collect::<Vec<_>>()
    );
}

#[test]
fn test_argument_extractor_empty() {
    let mut extractor = ArgumentsExtractor::new("   ");
    assert!(extractor.next().is_none());
}

#[test]
fn test_fill_parameters_missing_path() {
    let given = obj(vec![("options", obj(vec![("test", txt("10"))]))]);

    let result = fill_parameters("x %options.absent% y", &given);

    match result {
        Err(Error::CannotFillParameters(p)) => assert_eq!(p, "/options/absent".to_string()),
        _ => panic!("expected a parameter filling failure"),
    }
}

#[test]
fn test_fill_parameters_non_scalar() {
    let given = obj(vec![("options", obj(vec![("test", txt("10"))]))]);

    let result = fill_parameters("x %options% y", &given);

    match result {
        Err(Error::CannotFillParameters(p)) => assert_eq!(p, "/options".to_string()),
        _ => panic!("expected a parameter filling failure"),
    }
}

#[test]
fn test_wildcard_capture() {
    let root = obj(vec![(
        "properties",
        obj(vec![("p1", obj(vec![])), ("p2", obj(vec![]))]),
    )]);
    let mut scope = SchemaScope::new();

    let matches = each_node(&root, &mut scope, "any:properties/property:*").unwrap();

    assert_eq!(matches.len(), 2);
    assert_eq!(matches[0].parts, vec!["p1".to_string()]);
    assert_eq!(matches[1].parts, vec!["p2".to_string()]);
    assert_eq!(scope.len(), 0);
}

#[test]
fn test_literal_descent_and_array_index() {
    let root = obj(vec![(
        "items",
        arr(vec![txt("zero"), obj(vec![("name", txt("one"))])]),
    )]);
    let mut scope = SchemaScope::new();

    let matches = each_node(&root, &mut scope, "any:items/index:1/any:name").unwrap();

    assert_eq!(matches.len(), 1);
    assert_eq!(matches[0].node.to_string(), "\"one\"".to_string());
    assert!(matches[0].parts.is_empty());
}

#[test]
fn test_missing_literal_child_is_no_match() {
    let root = obj(vec![("a", txt("b"))]);
    let mut scope = SchemaScope::new();

    let matches = each_node(&root, &mut scope, "any:absent").unwrap();

    assert!(matches.is_empty());
}

#[test]
fn test_wildcard_on_non_object_fails() {
    let root = obj(vec![("a", arr(vec![txt("b")]))]);
    let mut scope = SchemaScope::new();

    let result = each_node(&root, &mut scope, "any:a/any:*");

    assert!(matches!(result, Err(Error::NotImplemented)));
    assert_eq!(scope.len(), 0);
}

#[test]
fn test_malformed_pattern_is_typed_error() {
    let root = obj(vec![("a", txt("b"))]);
    let mut scope = SchemaScope::new();

    let result = each_node(&root, &mut scope, "nocolon");

    match result {
        Err(Error::IncorrectPath(p)) => assert_eq!(p, "nocolon".to_string()),
        _ => panic!("expected a malformed pattern error"),
    }
}

#[test]
fn test_set_node_at() {
    let mut root = obj(vec![("a", obj(vec![("b", txt("old"))]))]);

    let keys = vec![s("a"), s("b")];
    let replaced = set_node_at(&mut root, &keys, txt("new"));

    assert!(replaced);
    assert_eq!(root.to_string(), "{\"a\":{\"b\":\"new\"}}".to_string());

    let missing = vec![s("a"), s("absent")];
    let replaced2 = set_node_at(&mut root, &missing, txt("other"));

    assert!(!replaced2);
    assert_eq!(root.to_string(), "{\"a\":{\"b\":\"new\"}}".to_string());
}

#[test]
fn test_scope_render() {
    let mut scope = SchemaScope::new();
    scope.push_str("properties", "id");
    scope.any(&s("name"));
    scope.index(3);
    assert_eq!(scope.render(), ".id.name.3".to_string());
    scope.pop();
    scope.pop();
    assert_eq!(scope.render(), ".id".to_string());
    scope.pop();
    scope.pop();
    assert_eq!(scope.render(), "".to_string());
}
