use schematools::merge::Merger;
use schematools::merge::Schema;
use schematools::value::Value;

fn s(x: &str) -> String {
    String::from(x)
}

fn txt(x: &str) -> Value {
    Value::Text(s(x))
}

fn obj(pairs: Vec<(&str, Value)>) -> Value {
    Value::Object(pairs.into_iter().map(|(k, v)| (s(k), v)).collect())
}

fn arr(items: Vec<Value>) -> Value {
    Value::Array(items)
}

fn type_string_obj() -> Value {
    obj(vec![("type", txt("string"))])
}

fn branch(required: &str, prop: &str) -> Value {
    obj(vec![
        ("type", txt("object")),
        ("required", arr(vec![txt(required)])),
        ("properties", obj(vec![(prop, type_string_obj())])),
    ])
}

fn merged_branches() -> Value {
    obj(vec![
        ("type", txt("object")),
        ("required", arr(vec![txt("prop2"), txt("prop1")])),
        (
            "properties",
            obj(vec![
                ("prop2", type_string_obj()),
                ("prop1", type_string_obj()),
            ]),
        ),
    ])
}

#[test]
fn test_merge1() {
    let expected = merged_branches();

    let value = obj(vec![(
        "allOf",
        arr(vec![branch("prop2", "prop2"), branch("prop1", "prop1")]),
    )]);

    let mut schema = Schema::from_json(value);

    Merger::options().process(&mut schema);

    assert_eq!(schema.get_body().to_string(), expected.to_string());
}

#[test]
fn test_nested() {
    let expected = obj(vec![(
        "a",
        obj(vec![("b", obj(vec![("c", merged_branches())]))]),
    )]);

    let value = obj(vec![(
        "a",
        obj(vec![(
            "b",
            obj(vec![(
                "c",
                obj(vec![(
                    "allOf",
                    arr(vec![branch("prop2", "prop2"), branch("prop1", "prop1")]),
                )]),
            )]),
        )]),
    )]);

    let mut schema = Schema::from_json(value);

    Merger::options().process(&mut schema);

    assert_eq!(schema.get_body().to_string(), expected.to_string());
}

#[test]
fn test_multiple() {
    let expected = obj(vec![
        ("a", merged_branches()),
        ("b", obj(vec![("asd", txt("testing"))])),
        (
            "c",
            obj(vec![
                ("type", txt("object")),
                ("required", arr(vec![txt("prop5"), txt("prop6")])),
                (
                    "properties",
                    obj(vec![
                        ("prop5", type_string_obj()),
                        ("prop6", type_string_obj()),
                    ]),
                ),
            ]),
        ),
    ]);

    let value = obj(vec![
        (
            "a",
            obj(vec![(
                "allOf",
                arr(vec![branch("prop2", "prop2"), branch("prop1", "prop1")]),
            )]),
        ),
        ("b", obj(vec![("asd", txt("testing"))])),
        (
            "c",
            obj(vec![(
                "allOf",
                arr(vec![branch("prop5", "prop5"), branch("prop6", "prop6")]),
            )]),
        ),
    ]);

    let mut schema = Schema::from_json(value);

    Merger::options().process(&mut schema);

    assert_eq!(schema.get_body().to_string(), expected.to_string());
}

#[test]
fn test_merge2() {
    let expected = obj(vec![
        ("description", txt("Standard error response data")),
        ("type", txt("object")),
        ("additionalProperties", Value::Bool(false)),
        ("required", arr(vec![txt("error")])),
        (
            "properties",
            obj(vec![
                (
                    "error",
                    obj(vec![
                        ("type", txt("object")),
                        (
                            "description",
                            txt("Error object containing information about the error occurrence."),
                        ),
                        ("additionalProperties", Value::Bool(false)),
                        ("required", arr(vec![txt("code")])),
                        (
                            "properties",
                            obj(vec![
                                (
                                    "code",
                                    obj(vec![
                                        ("type", txt("string")),
                                        (
                                            "description",
                                            txt("String based error identification code."),
                                        ),
                                        ("example", txt("invalid-data")),
                                        ("enum", arr(vec![txt("forbidden-error")])),
                                    ]),
                                ),
                                (
                                    "message",
                                    obj(vec![
                                        ("type", txt("string")),
                                        ("description", txt("Human readable error message.")),
                                        (
                                            "example",
                                            txt("Here is an error message in human friendly form"),
                                        ),
                                    ]),
                                ),
                                (
                                    "status",
                                    obj(vec![(
                                        "enum",
                                        arr(vec![Value::Number(400), Value::Number(403)]),
                                    )]),
                                ),
                            ]),
                        ),
                    ]),
                ),
                (
                    "meta",
                    obj(vec![
                        ("type", txt("object")),
                        ("additionalProperties", Value::Bool(true)),
                    ]),
                ),
                (
                    "links",
                    obj(vec![
                        ("type", txt("object")),
                        ("additionalProperties", Value::Bool(true)),
                    ]),
                ),
            ]),
        ),
    ]);

    let value = obj(vec![(
        "allOf",
        arr(vec![
            obj(vec![
                ("description", txt("Standard error response data")),
                ("type", txt("object")),
                ("additionalProperties", Value::Bool(false)),
                ("required", arr(vec![txt("error")])),
                (
                    "properties",
                    obj(vec![
                        (
                            "error",
                            obj(vec![
                                ("type", txt("object")),
                                (
                                    "description",
                                    txt(
                                        "Error object containing information about the error occurrence.",
                                    ),
                                ),
                                ("additionalProperties", Value::Bool(false)),
                                ("required", arr(vec![txt("code")])),
                                (
                                    "properties",
                                    obj(vec![
                                        (
                                            "code",
                                            obj(vec![
                                                ("type", txt("string")),
                                                (
                                                    "description",
                                                    txt(
                                                        "String based error identification code.",
                                                    ),
                                                ),
                                                ("example", txt("invalid-data")),
                                            ]),
                                        ),
                                        (
                                            "message",
                                            obj(vec![
                                                ("type", txt("string")),
                                                (
                                                    "description",
                                                    txt("Human readable error message."),
                                                ),
                                                (
                                                    "example",
                                                    txt(
                                                        "Here is an error message in human friendly form",
                                                    ),
                                                ),
                                            ]),
                                        ),
                                        (
                                            "status",
                                            obj(vec![("enum", arr(vec![Value::Number(400)]))]),
                                        ),
                                    ]),
                                ),
                            ]),
                        ),
                        (
                            "meta",
                            obj(vec![
                                ("type", txt("object")),
                                ("additionalProperties", Value::Bool(true)),
                            ]),
                        ),
                        (
                            "links",
                            obj(vec![
                                ("type", txt("object")),
                                ("additionalProperties", Value::Bool(true)),
                            ]),
                        ),
                    ]),
                ),
            ]),
            obj(vec![(
                "properties",
                obj(vec![(
                    "error",
                    obj(vec![(
                        "properties",
                        obj(vec![
                            (
                                "code",
                                obj(vec![("enum", arr(vec![txt("forbidden-error")]))]),
                            ),
                            (
                                "status",
                                obj(vec![("enum", arr(vec![Value::Number(403)]))]),
                            ),
                        ]),
                    )]),
                )]),
            )]),
        ]),
    )]);

    let mut schema = Schema::from_json(value);

    Merger::options().process(&mut schema);

    assert_eq!(schema.get_body().to_string(), expected.to_string());
}

#[test]
fn test_should_leave_additional_properties() {
    let expected = obj(vec![
        ("c", txt("d")),
        ("a", txt("b")),
        ("type", txt("object")),
        ("required", arr(vec![txt("prop2"), txt("prop1")])),
        (
            "properties",
            obj(vec![
                ("prop2", type_string_obj()),
                ("prop1", type_string_obj()),
            ]),
        ),
    ]);

    let value = obj(vec![
        (
            "allOf",
            arr(vec![branch("prop2", "prop2"), branch("prop1", "prop1")]),
        ),
        ("a", txt("b")),
        ("c", txt("d")),
    ]);

    let mut schema = Schema::from_json(value);

    Merger::options().process(&mut schema);

    assert_eq!(schema.get_body().to_string(), expected.to_string());
}
