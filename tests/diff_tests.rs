use assert_json_diff::{
    compare, contains, diff, report, CompareMode, Config, Difference, DifferenceKind, Key, Mode, Number,
    NumericMode, Path, Value,
};
use serde::ser::SerializeStruct;
use serde::{Serialize, Serializer};

fn null() -> Value {
    Value::Null
}

fn b(x: bool) -> Value {
    Value::Bool(x)
}

fn num(n: i64) -> Value {
    if n >= 0 {
        Value::Number(Number::PosInt(n as u64))
    } else {
        Value::Number(Number::NegInt(n))
    }
}

fn float(x: f64) -> Value {
    Value::Number(Number::Float(x.to_bits()))
}

fn s(x: &str) -> Value {
    Value::String(x.to_string())
}

fn arr(items: Vec<Value>) -> Value {
    Value::Array(items)
}

fn obj(members: Vec<(&str, Value)>) -> Value {
    Value::Object(
        members
            .into_iter()
            .map(|(k, v)| (k.to_string(), v))
            .collect(),
    )
}

fn to_json(v: &Value) -> serde_json::Value {
    match v {
        Value::Null => serde_json::Value::Null,
        Value::Bool(x) => serde_json::Value::Bool(*x),
        Value::Number(Number::PosInt(u)) => serde_json::Value::from(*u),
        Value::Number(Number::NegInt(i)) => serde_json::Value::from(*i),
        Value::Number(Number::Float(bits)) => {
            serde_json::Value::Number(serde_json::Number::from_f64(f64::from_bits(*bits)).unwrap())
        }
        Value::String(x) => serde_json::Value::String(x.clone()),
        Value::Array(items) => serde_json::Value::Array(items.iter().map(to_json).collect()),
        Value::Object(members) => {
            let mut map = serde_json::Map::new();
            for (k, v) in members {
                map.insert(k.clone(), to_json(v));
            }
            serde_json::Value::Object(map)
        }
    }
}

fn from_json(v: &serde_json::Value) -> Value {
    match v {
        serde_json::Value::Null => Value::Null,
        serde_json::Value::Bool(x) => Value::Bool(*x),
        serde_json::Value::Number(n) => {
            if let Some(u) = n.as_u64() {
                Value::Number(Number::PosInt(u))
            } else if let Some(i) = n.as_i64() {
                Value::Number(Number::NegInt(i))
            } else {
                Value::Number(Number::Float(n.as_f64().unwrap().to_bits()))
            }
        }
        serde_json::Value::String(x) => Value::String(x.clone()),
        serde_json::Value::Array(items) => Value::Array(items.iter().map(from_json).collect()),
        serde_json::Value::Object(map) => Value::Object(
            map.iter()
                .map(|(k, v)| (k.clone(), from_json(v)))
                .collect(),
        ),
    }
}

fn pretty(v: &Value) -> String {
    serde_json::to_string_pretty(&to_json(v)).unwrap()
}

fn messages(diffs: &[Difference], mode: CompareMode) -> Vec<String> {
    diffs
        .iter()
        .map(|d| match &d.kind {
            DifferenceKind::NotEqual(l, r) => d.message(mode, &pretty(l), &pretty(r)),
            _ => d.message(mode, "", ""),
        })
        .collect()
}

fn matches_no_panic(lhs: &Value, rhs: &Value, config: Config) -> Result<(), String> {
    let diffs = compare(lhs, rhs, config);
    report(&messages(&diffs, config.compare_mode))
}

fn assert_matches(lhs: &Value, rhs: &Value, config: Config) {
    if let Err(error) = matches_no_panic(lhs, rhs, config) {
        panic!("\n\n{}\n\n", error);
    }
}

fn assert_include(actual: Value, expected: Value) {
    assert_matches(&actual, &expected, Config::new(CompareMode::Inclusive));
}

fn assert_exact(lhs: Value, rhs: Value) {
    assert_matches(&lhs, &rhs, Config::new(CompareMode::Strict));
}

fn assert_contains(container: Value, contained: Value) {
    assert_matches(&container, &contained, Config::new(CompareMode::Contains));
}

fn test_partial_match(lhs: Value, rhs: Value) -> Result<(), String> {
    matches_no_panic(&lhs, &rhs, Mode::Lenient.config())
}

fn test_exact_match(lhs: Value, rhs: Value) -> Result<(), String> {
    matches_no_panic(&lhs, &rhs, Mode::Strict.config())
}

fn assert_output_eq(actual: Result<(), String>, expected: Result<(), &str>) {
    match (actual, expected) {
        (Ok(()), Ok(())) => {}
        (Err(actual_error), Ok(())) => {
            panic!("Did not expect error, but got\n{}\n", actual_error);
        }
        (Ok(()), Err(expected_error)) => {
            panic!(
                "Expected error, but did not get one. Expected error:\n{}\n",
                expected_error
            );
        }
        (Err(actual_error), Err(expected_error)) => {
            if actual_error != expected_error {
                panic!(
                    "Errors didn't match\nExpected:\n{}\nGot:\n{}\n",
                    expected_error, actual_error
                );
            }
        }
    }
}

fn path_texts(diffs: &[Difference]) -> Vec<String> {
    diffs.iter().map(|d| d.path.render()).collect()
}

struct User {
    id: i32,
    username: String,
}

impl Serialize for User {
    fn serialize<S: Serializer>(&self, serializer: S) -> Result<S::Ok, S::Error> {
        let mut st = serializer.serialize_struct("User", 2)?;
        st.serialize_field("id", &self.id)?;
        st.serialize_field("username", &self.username)?;
        st.end()
    }
}

fn tree_of<T: Serialize>(value: &T) -> Value {
    from_json(&serde_json::to_value(value).unwrap())
}

#[test]
fn test_diffing_leaf_json() {
    let diffs = diff(&null(), &null(), Mode::Lenient);
    assert_eq!(diffs, vec![]);

    let diffs = diff(&b(false), &b(false), Mode::Lenient);
    assert_eq!(diffs, vec![]);

    let diffs = diff(&b(true), &b(true), Mode::Lenient);
    assert_eq!(diffs, vec![]);

    let diffs = diff(&b(false), &b(true), Mode::Lenient);
    assert_eq!(diffs.len(), 1);

    let diffs = diff(&b(true), &b(false), Mode::Lenient);
    assert_eq!(diffs.len(), 1);

    let diffs = diff(&num(1), &num(1), Mode::Lenient);
    assert_eq!(diffs, vec![]);

    let diffs = diff(&num(2), &num(1), Mode::Lenient);
    assert_eq!(diffs.len(), 1);

    let diffs = diff(&num(1), &num(2), Mode::Lenient);
    assert_eq!(diffs.len(), 1);

    let diffs = diff(&float(1.0), &float(1.0), Mode::Lenient);
    assert_eq!(diffs, vec![]);

    let diffs = diff(&num(1), &float(1.0), Mode::Lenient);
    assert_eq!(diffs.len(), 1);

    let diffs = diff(&float(1.0), &num(1), Mode::Lenient);
    assert_eq!(diffs.len(), 1);
}

#[test]
fn test_diffing_array() {
    let diffs = diff(&arr(vec![]), &arr(vec![]), Mode::Lenient);
    assert_eq!(diffs, vec![]);

    let diffs = diff(&arr(vec![num(1)]), &arr(vec![]), Mode::Lenient);
    assert_eq!(diffs.len(), 0);

    let diffs = diff(&arr(vec![]), &arr(vec![num(1)]), Mode::Lenient);
    assert_eq!(diffs.len(), 1);

    let diffs = diff(&arr(vec![num(1)]), &arr(vec![num(1)]), Mode::Lenient);
    assert_eq!(diffs, vec![]);

    let diffs = diff(&arr(vec![num(1), num(2)]), &arr(vec![num(1)]), Mode::Lenient);
    assert_eq!(diffs, vec![]);

    let diffs = diff(&arr(vec![num(1)]), &arr(vec![num(1), num(2)]), Mode::Lenient);
    assert_eq!(diffs.len(), 1);

    let diffs = diff(&arr(vec![num(1), num(3)]), &arr(vec![num(1), num(2)]), Mode::Lenient);
    assert_eq!(diffs.len(), 1);

    let diffs = diff(&num(1), &arr(vec![num(1)]), Mode::Lenient);
    assert_eq!(diffs.len(), 1);

    let diffs = diff(&arr(vec![num(1)]), &num(1), Mode::Lenient);
    assert_eq!(diffs.len(), 1);
}

#[test]
fn test_array_strict() {
    let diffs = diff(&arr(vec![]), &arr(vec![]), Mode::Strict);
    assert_eq!(diffs.len(), 0);

    let diffs = diff(&arr(vec![num(1), num(2)]), &arr(vec![num(1), num(2)]), Mode::Strict);
    assert_eq!(diffs.len(), 0);

    let diffs = diff(&arr(vec![num(1)]), &arr(vec![num(1), num(2)]), Mode::Strict);
    assert_eq!(diffs.len(), 1);

    let diffs = diff(&arr(vec![num(1), num(2)]), &arr(vec![num(1)]), Mode::Strict);
    assert_eq!(diffs.len(), 1);
}

#[test]
fn test_object() {
    let diffs = diff(&obj(vec![]), &obj(vec![]), Mode::Lenient);
    assert_eq!(diffs, vec![]);

    let diffs = diff(&obj(vec![("a", num(1))]), &obj(vec![("a", num(1))]), Mode::Lenient);
    assert_eq!(diffs, vec![]);

    let diffs = diff(
        &obj(vec![("a", num(1)), ("b", num(123))]),
        &obj(vec![("a", num(1))]),
        Mode::Lenient,
    );
    assert_eq!(diffs, vec![]);

    let diffs = diff(&obj(vec![("a", num(1))]), &obj(vec![("b", num(1))]), Mode::Lenient);
    assert_eq!(diffs.len(), 1);

    let diffs = diff(&obj(vec![("a", num(1))]), &obj(vec![("a", num(2))]), Mode::Lenient);
    assert_eq!(diffs.len(), 1);

    let diffs = diff(
        &obj(vec![("a", obj(vec![("b", b(true))]))]),
        &obj(vec![("a", obj(vec![]))]),
        Mode::Lenient,
    );
    assert_eq!(diffs, vec![]);
}

#[test]
fn test_object_strict() {
    let diffs = diff(&obj(vec![]), &obj(vec![("a", num(1))]), Mode::Strict);
    assert_eq!(diffs.len(), 1);

    let diffs = diff(&obj(vec![("a", num(1))]), &obj(vec![]), Mode::Strict);
    assert_eq!(diffs.len(), 1);

    let json = obj(vec![("a", num(1))]);
    let diffs = diff(&json, &json, Mode::Strict);
    assert_eq!(diffs, vec![]);
}

#[test]
fn boolean_root() {
    let result = test_partial_match(b(true), b(true));
    assert_output_eq(result, Ok(()));

    let result = test_partial_match(b(false), b(false));
    assert_output_eq(result, Ok(()));

    let result = test_partial_match(b(false), b(true));
    assert_output_eq(
        result,
        Err(r#"json atoms at path "(root)" are not equal:
    expected:
        true
    actual:
        false"#),
    );

    let result = test_partial_match(b(true), b(false));
    assert_output_eq(
        result,
        Err(r#"json atoms at path "(root)" are not equal:
    expected:
        false
    actual:
        true"#),
    );
}

#[test]
fn string_root() {
    let result = test_partial_match(s("true"), s("true"));
    assert_output_eq(result, Ok(()));

    let result = test_partial_match(s("false"), s("false"));
    assert_output_eq(result, Ok(()));

    let result = test_partial_match(s("false"), s("true"));
    assert_output_eq(
        result,
        Err(r#"json atoms at path "(root)" are not equal:
    expected:
        "true"
    actual:
        "false""#),
    );

    let result = test_partial_match(s("true"), s("false"));
    assert_output_eq(
        result,
        Err(r#"json atoms at path "(root)" are not equal:
    expected:
        "false"
    actual:
        "true""#),
    );
}

#[test]
fn number_root() {
    let result = test_partial_match(num(1), num(1));
    assert_output_eq(result, Ok(()));

    let result = test_partial_match(num(0), num(0));
    assert_output_eq(result, Ok(()));

    let result = test_partial_match(num(0), num(1));
    assert_output_eq(
        result,
        Err(r#"json atoms at path "(root)" are not equal:
    expected:
        1
    actual:
        0"#),
    );

    let result = test_partial_match(num(1), num(0));
    assert_output_eq(
        result,
        Err(r#"json atoms at path "(root)" are not equal:
    expected:
        0
    actual:
        1"#),
    );
}

#[test]
fn null_root() {
    let result = test_partial_match(null(), null());
    assert_output_eq(result, Ok(()));

    let result = test_partial_match(null(), num(1));
    assert_output_eq(
        result,
        Err(r#"json atoms at path "(root)" are not equal:
    expected:
        1
    actual:
        null"#),
    );

    let result = test_partial_match(num(1), null());
    assert_output_eq(
        result,
        Err(r#"json atoms at path "(root)" are not equal:
    expected:
        null
    actual:
        1"#),
    );
}

#[test]
fn into_object() {
    let result = test_partial_match(obj(vec![("a", b(true))]), obj(vec![("a", b(true))]));
    assert_output_eq(result, Ok(()));

    let result = test_partial_match(obj(vec![("a", b(false))]), obj(vec![("a", b(true))]));
    assert_output_eq(
        result,
        Err(r#"json atoms at path ".a" are not equal:
    expected:
        true
    actual:
        false"#),
    );

    let result = test_partial_match(
        obj(vec![("a", obj(vec![("b", b(true))]))]),
        obj(vec![("a", obj(vec![("b", b(true))]))]),
    );
    assert_output_eq(result, Ok(()));

    let result = test_partial_match(
        obj(vec![("a", b(true))]),
        obj(vec![("a", obj(vec![("b", b(true))]))]),
    );
    assert_output_eq(
        result,
        Err(r#"json atoms at path ".a" are not equal:
    expected:
        {
          "b": true
        }
    actual:
        true"#),
    );

    let result = test_partial_match(obj(vec![]), obj(vec![("a", b(true))]));
    assert_output_eq(
        result,
        Err(r#"json atom at path ".a" is missing from actual"#),
    );

    let result = test_partial_match(
        obj(vec![("a", obj(vec![("b", b(true))]))]),
        obj(vec![("a", b(true))]),
    );
    assert_output_eq(
        result,
        Err(r#"json atoms at path ".a" are not equal:
    expected:
        true
    actual:
        {
          "b": true
        }"#),
    );
}

#[test]
fn into_array() {
    let result = test_partial_match(arr(vec![num(1)]), arr(vec![num(1)]));
    assert_output_eq(result, Ok(()));

    let result = test_partial_match(arr(vec![num(2)]), arr(vec![num(1)]));
    assert_output_eq(
        result,
        Err(r#"json atoms at path "[0]" are not equal:
    expected:
        1
    actual:
        2"#),
    );

    let result = test_partial_match(
        arr(vec![num(1), num(2), num(4)]),
        arr(vec![num(1), num(2), num(3)]),
    );
    assert_output_eq(
        result,
        Err(r#"json atoms at path "[2]" are not equal:
    expected:
        3
    actual:
        4"#),
    );

    let result = test_partial_match(
        obj(vec![("a", arr(vec![num(1), num(2), num(3)]))]),
        obj(vec![("a", arr(vec![num(1), num(2), num(4)]))]),
    );
    assert_output_eq(
        result,
        Err(r#"json atoms at path ".a[2]" are not equal:
    expected:
        4
    actual:
        3"#),
    );

    let result = test_partial_match(
        obj(vec![("a", arr(vec![num(1), num(2), num(3)]))]),
        obj(vec![("a", arr(vec![num(1), num(2)]))]),
    );
    assert_output_eq(result, Ok(()));

    let result = test_partial_match(
        obj(vec![("a", arr(vec![num(1), num(2)]))]),
        obj(vec![("a", arr(vec![num(1), num(2), num(3)]))]),
    );
    assert_output_eq(
        result,
        Err(r#"json atom at path ".a[2]" is missing from actual"#),
    );
}

#[test]
fn exact_matching() {
    let result = test_exact_match(b(true), b(true));
    assert_output_eq(result, Ok(()));

    let result = test_exact_match(s("s"), s("s"));
    assert_output_eq(result, Ok(()));

    let result = test_exact_match(s("a"), s("b"));
    assert_output_eq(
        result,
        Err(r#"json atoms at path "(root)" are not equal:
    lhs:
        "a"
    rhs:
        "b""#),
    );

    let result = test_exact_match(
        obj(vec![("a", arr(vec![num(1), obj(vec![("b", num(2))])]))]),
        obj(vec![("a", arr(vec![num(1), obj(vec![("b", num(3))])]))]),
    );
    assert_output_eq(
        result,
        Err(r#"json atoms at path ".a[1].b" are not equal:
    lhs:
        2
    rhs:
        3"#),
    );
}

#[test]
fn exact_match_output_message() {
    let result = test_exact_match(
        obj(vec![("a", obj(vec![("b", num(1))]))]),
        obj(vec![("a", obj(vec![]))]),
    );
    assert_output_eq(
        result,
        Err(r#"json atom at path ".a.b" is missing from rhs"#),
    );

    let result = test_exact_match(
        obj(vec![("a", obj(vec![]))]),
        obj(vec![("a", obj(vec![("b", num(1))]))]),
    );
    assert_output_eq(
        result,
        Err(r#"json atom at path ".a.b" is missing from lhs"#),
    );
}

#[test]
fn can_pass() {
    assert_include(
        obj(vec![
            ("a", obj(vec![("b", b(true))])),
            ("c", arr(vec![b(true), null(), num(1)])),
        ]),
        obj(vec![
            ("a", obj(vec![("b", b(true))])),
            ("c", arr(vec![b(true), null(), num(1)])),
        ]),
    );

    assert_include(
        obj(vec![("a", obj(vec![("b", b(true))]))]),
        obj(vec![("a", obj(vec![]))]),
    );

    assert_include(
        obj(vec![("a", obj(vec![("b", b(true))]))]),
        obj(vec![("a", obj(vec![]))]),
    );

    assert_include(
        obj(vec![("a", obj(vec![("b", b(true))]))]),
        obj(vec![("a", obj(vec![]))]),
    );
}

#[test]
#[should_panic]
fn can_fail() {
    assert_include(
        obj(vec![
            ("a", obj(vec![("b", b(true))])),
            ("c", arr(vec![b(true), null(), num(1)])),
        ]),
        obj(vec![
            ("a", obj(vec![("b", b(false))])),
            ("c", arr(vec![b(false), null(), obj(vec![])])),
        ]),
    );
}

#[test]
#[should_panic]
fn different_numeric_types_include_should_fail() {
    assert_include(
        obj(vec![("a", obj(vec![("b", b(true))])), ("c", num(1))]),
        obj(vec![("a", obj(vec![("b", b(true))])), ("c", float(1.0))]),
    );
}

#[test]
#[should_panic]
fn different_numeric_types_eq_should_fail() {
    assert_exact(
        obj(vec![("a", obj(vec![("b", b(true))])), ("c", num(1))]),
        obj(vec![("a", obj(vec![("b", b(true))])), ("c", float(1.0))]),
    );
}

#[test]
fn different_numeric_types_assume_float() {
    let actual = obj(vec![
        ("a", obj(vec![("b", b(true))])),
        ("c", arr(vec![b(true), null(), num(1)])),
    ]);
    let expected = obj(vec![
        ("a", obj(vec![("b", b(true))])),
        ("c", arr(vec![b(true), null(), float(1.0)])),
    ]);
    let config = Config::new(CompareMode::Inclusive).numeric_mode(NumericMode::AssumeFloat);
    assert_matches(&actual, &expected, config);

    let config = config.compare_mode(CompareMode::Strict);
    assert_matches(&actual, &expected, config);
}

#[test]
fn can_pass_with_exact_match() {
    assert_exact(
        obj(vec![("a", obj(vec![("b", b(true))]))]),
        obj(vec![("a", obj(vec![("b", b(true))]))]),
    );
    assert_exact(
        obj(vec![("a", obj(vec![("b", b(true))]))]),
        obj(vec![("a", obj(vec![("b", b(true))]))]),
    );
}

#[test]
fn can_pass_with_contains_match() {
    assert_contains(null(), null());
    assert_contains(num(1), num(1));
    assert_contains(s("a"), s("a"));
    assert_contains(
        obj(vec![("a", obj(vec![("b", b(true))]))]),
        obj(vec![("a", obj(vec![("b", b(true))]))]),
    );
    assert_contains(
        obj(vec![("a", obj(vec![("b", b(true))])), ("c", num(1))]),
        obj(vec![("a", obj(vec![("b", b(true))]))]),
    );
    assert_contains(
        arr(vec![num(1), num(2), num(3)]),
        arr(vec![num(1), num(2), num(3)]),
    );
    assert_contains(
        arr(vec![num(1), num(2), num(3)]),
        arr(vec![num(2), num(3), num(1)]),
    );
    assert_contains(
        arr(vec![num(1), num(2), num(3), num(4)]),
        arr(vec![num(1), num(2), num(3)]),
    );
    assert_contains(
        arr(vec![num(1), num(2), num(3), num(4)]),
        arr(vec![num(2), num(3), num(1)]),
    );
    assert_contains(
        arr(vec![num(1), num(2), num(3), num(1), num(4)]),
        arr(vec![num(1), num(2), num(3), num(1), num(4)]),
    );
    assert_contains(
        arr(vec![num(1), num(2), num(3), num(1), num(4)]),
        arr(vec![num(3), num(1), num(2), num(1), num(4)]),
    );
    assert_contains(
        arr(vec![num(1), num(2), num(3), num(1), num(4)]),
        arr(vec![num(1), num(2), num(3), num(1)]),
    );
    assert_contains(
        arr(vec![num(1), num(2), num(3), num(1), num(4)]),
        arr(vec![num(2), num(1), num(3), num(1)]),
    );
}

#[test]
#[should_panic]
fn can_fail_with_exact_match() {
    assert_exact(
        obj(vec![("a", obj(vec![("b", b(true))]))]),
        obj(vec![("a", obj(vec![]))]),
    );
}

#[test]
fn inclusive_match_without_panicking() {
    let config = Config::new(CompareMode::Inclusive).numeric_mode(NumericMode::Strict);
    assert!(matches_no_panic(
        &obj(vec![("a", num(1)), ("b", num(2))]),
        &obj(vec![("b", num(2))]),
        config
    )
    .is_ok());

    assert!(matches_no_panic(&obj(vec![("a", num(1)), ("b", num(2))]), &s("foo"), config).is_err());
}

#[test]
fn exact_match_without_panicking() {
    let config = Config::new(CompareMode::Strict).numeric_mode(NumericMode::Strict);
    assert!(matches_no_panic(
        &arr(vec![num(1), num(2), num(3)]),
        &arr(vec![num(1), num(2), num(3)]),
        config
    )
    .is_ok());

    assert!(matches_no_panic(&arr(vec![num(1), num(2), num(3)]), &s("foo"), config).is_err());
}

#[test]
fn include_with_serializable() {
    let user = User {
        id: 1,
        username: "bob".to_string(),
    };

    assert_include(
        obj(vec![
            ("id", num(1)),
            ("username", s("bob")),
            ("email", s("bob@example.com")),
        ]),
        tree_of(&user),
    );
}

#[test]
fn include_with_serializable_ref() {
    let user = User {
        id: 1,
        username: "bob".to_string(),
    };
    let actual = obj(vec![
        ("id", num(1)),
        ("username", s("bob")),
        ("email", s("bob@example.com")),
    ]);

    assert_matches(&actual, &tree_of(&&user), Config::new(CompareMode::Inclusive));
}

#[test]
fn eq_with_serializable() {
    let user = User {
        id: 1,
        username: "bob".to_string(),
    };

    assert_exact(
        obj(vec![("id", num(1)), ("username", s("bob"))]),
        tree_of(&user),
    );
}

#[test]
fn eq_with_serializable_ref() {
    let user = User {
        id: 1,
        username: "bob".to_string(),
    };
    let lhs = obj(vec![("id", num(1)), ("username", s("bob"))]);

    assert_matches(&lhs, &tree_of(&&user), Config::new(CompareMode::Strict));
}

fn sample() -> Value {
    obj(vec![
        (
            "data",
            obj(vec![(
                "users",
                arr(vec![
                    obj(vec![
                        ("id", num(1)),
                        ("country", obj(vec![("name", s("Denmark"))])),
                    ]),
                    obj(vec![
                        ("id", num(24)),
                        ("country", obj(vec![("name", s("Denmark"))])),
                        ("score", float(-0.5)),
                    ]),
                ]),
            )]),
        ),
        ("tags", arr(vec![s("x"), s("y"), s("x")])),
        ("big", Value::Number(Number::PosInt(u64::MAX))),
        ("low", num(i64::MIN)),
    ])
}

#[test]
fn a_tree_matches_itself_in_every_mode() {
    let v = sample();
    for mode in [CompareMode::Strict, CompareMode::Inclusive, CompareMode::Contains] {
        for numeric in [NumericMode::Strict, NumericMode::AssumeFloat] {
            let config = Config::new(mode).numeric_mode(numeric);
            assert!(compare(&v, &v, config).is_empty());
        }
    }
}

#[test]
fn strict_comparison_is_symmetric() {
    let a = obj(vec![
        ("a", arr(vec![num(1), num(2), num(3)])),
        ("b", s("x")),
        ("only_a", null()),
    ]);
    let c = obj(vec![
        ("a", arr(vec![num(1), num(5)])),
        ("b", b(true)),
        ("only_c", num(7)),
    ]);
    let config = Config::new(CompareMode::Strict);
    let forward = compare(&a, &c, config);
    let backward = compare(&c, &a, config);
    assert_eq!(forward.len(), 5);
    assert_eq!(backward.len(), 5);
    for d in &forward {
        let found = backward.iter().any(|e| {
            e.path == d.path
                && match (&d.kind, &e.kind) {
                    (DifferenceKind::NotEqual(l1, r1), DifferenceKind::NotEqual(l2, r2)) => {
                        l1 == r2 && r1 == l2
                    }
                    (DifferenceKind::MissingFromLeft, DifferenceKind::MissingFromRight) => true,
                    (DifferenceKind::MissingFromRight, DifferenceKind::MissingFromLeft) => true,
                    _ => false,
                }
        });
        assert!(found, "no mirror for {:?}", d);
    }
}

#[test]
fn inclusive_tolerates_extra_members() {
    let diffs = compare(
        &obj(vec![("a", num(1)), ("b", num(2))]),
        &obj(vec![("a", num(1))]),
        Config::new(CompareMode::Inclusive),
    );
    assert!(diffs.is_empty());
}

#[test]
fn inclusive_reports_missing_member() {
    let diffs = compare(
        &obj(vec![]),
        &obj(vec![("a", num(1))]),
        Config::new(CompareMode::Inclusive),
    );
    assert_eq!(diffs.len(), 1);
    assert_eq!(diffs[0].kind, DifferenceKind::MissingFromLeft);
    assert_eq!(diffs[0].path.render(), ".a");
}

#[test]
fn integer_and_float_under_numeric_modes() {
    let strict = compare(&num(1), &float(1.0), Config::new(CompareMode::Strict));
    assert_eq!(strict.len(), 1);
    assert_eq!(strict[0].kind, DifferenceKind::NotEqual(num(1), float(1.0)));

    let as_float = compare(
        &num(1),
        &float(1.0),
        Config::new(CompareMode::Strict).numeric_mode(NumericMode::AssumeFloat),
    );
    assert!(as_float.is_empty());
}

#[test]
fn assume_float_rounds_large_integers() {
    let config = Config::new(CompareMode::Strict).numeric_mode(NumericMode::AssumeFloat);
    // 2^53 + 1 rounds to 2^53 as a double
    assert!(compare(&num(9007199254740993), &float(9007199254740992.0), config).is_empty());
    assert!(compare(&num(9007199254740993), &num(9007199254740992), config).is_empty());
    assert_eq!(
        compare(&num(9007199254740993), &num(9007199254740992), Config::new(CompareMode::Strict))
            .len(),
        1
    );
    // u64::MAX rounds up to 2^64
    let max = Value::Number(Number::PosInt(u64::MAX));
    assert!(compare(&max, &float(18446744073709551616.0), config).is_empty());
    assert!(compare(&num(i64::MIN), &float(-9223372036854775808.0), config).is_empty());
    assert!(compare(&num(-3), &float(-3.0), config).is_empty());
    assert_eq!(compare(&num(-3), &float(3.0), config).len(), 1);
    assert_eq!(compare(&num(0), &float(0.5), config).len(), 1);
    assert!(compare(&num(0), &float(-0.0), config).is_empty());
    assert_eq!(compare(&num(3), &float(2.5), config).len(), 1);
    assert!(compare(&float(1.5), &float(1.5), config).is_empty());
}

#[test]
fn zeros_of_both_signs_are_equal() {
    let config = Config::new(CompareMode::Strict);
    assert!(compare(&float(0.0), &float(-0.0), config).is_empty());
    assert_eq!(compare(&float(0.0), &float(1e-300), config).len(), 1);
}

#[test]
fn containment_with_repeats_reordered() {
    let diffs = compare(
        &arr(vec![num(1), num(2), num(3), num(1), num(4)]),
        &arr(vec![num(3), num(1), num(2), num(1), num(4)]),
        Config::new(CompareMode::Contains),
    );
    assert!(diffs.is_empty());
    assert!(contains(
        &arr(vec![num(1), num(2), num(3), num(1), num(4)]),
        &arr(vec![num(3), num(1), num(2), num(1), num(4)]),
    ));
}

#[test]
fn containment_fails_on_absent_element() {
    let container = arr(vec![num(1), num(2), num(3)]);
    let contained = arr(vec![num(1), num(2), num(3), num(4)]);
    assert!(!contains(&container, &contained));
    let diffs = compare(&container, &contained, Config::new(CompareMode::Contains));
    assert_eq!(diffs.len(), 1);
    assert_eq!(diffs[0].path.render(), "(root)");
    assert_eq!(diffs[0].kind, DifferenceKind::NotEqual(container, contained));
}

#[test]
fn containment_fails_on_insufficient_duplicates() {
    assert!(!contains(
        &arr(vec![num(1), num(2), num(3)]),
        &arr(vec![num(2), num(3), num(1), num(1)]),
    ));
    let diffs = compare(
        &arr(vec![num(1), num(2), num(3)]),
        &arr(vec![num(2), num(3), num(1), num(1)]),
        Config::new(CompareMode::Contains),
    );
    assert_eq!(diffs.len(), 1);
    let diffs = compare(
        &obj(vec![("k", arr(vec![num(1), num(2), num(3), num(5)]))]),
        &obj(vec![("k", arr(vec![num(2), num(3), num(1), num(1)]))]),
        Config::new(CompareMode::Contains),
    );
    assert_eq!(diffs.len(), 1);
    assert_eq!(diffs[0].path.render(), ".k");
}

#[test]
fn containment_needs_a_matching_not_a_greedy_pick() {
    let container = arr(vec![
        obj(vec![("a", num(1)), ("b", num(2))]),
        obj(vec![("a", num(1))]),
    ]);
    let contained = arr(vec![obj(vec![("a", num(1))]), obj(vec![("a", num(1)), ("b", num(2))])]);
    assert!(compare(&container, &contained, Config::new(CompareMode::Contains)).is_empty());
    let contained = arr(vec![
        obj(vec![("a", num(1)), ("b", num(2))]),
        obj(vec![("a", num(1)), ("b", num(2))]),
    ]);
    assert_eq!(
        compare(&container, &contained, Config::new(CompareMode::Contains)).len(),
        1
    );
    assert!(compare(&container, &arr(vec![]), Config::new(CompareMode::Contains)).is_empty());
}

#[test]
fn path_of_nested_member_renders_in_order() {
    let path = Path::root()
        .append(Key::Field("data".to_string()))
        .append(Key::Field("users".to_string()))
        .append(Key::Idx(1))
        .append(Key::Field("id".to_string()));
    assert_eq!(path.render(), ".data.users[1].id");
    assert_eq!(Path::root().render(), "(root)");
    assert_eq!(Path::root().append(Key::Idx(1234)).render(), "[1234]");

    let actual = sample();
    let mut expected = sample();
    if let Value::Object(members) = &mut expected {
        if let Value::Object(data) = &mut members[0].1 {
            if let Value::Array(users) = &mut data[0].1 {
                if let Value::Object(user) = &mut users[1] {
                    user[0].1 = num(2);
                }
            }
        }
    }
    let diffs = compare(&actual, &expected, Config::new(CompareMode::Inclusive));
    assert_eq!(path_texts(&diffs), vec![".data.users[1].id".to_string()]);
}

#[test]
fn strict_array_position_mismatch() {
    let diffs = compare(
        &arr(vec![num(1), num(2), num(4)]),
        &arr(vec![num(1), num(2), num(3)]),
        Config::new(CompareMode::Strict),
    );
    assert_eq!(diffs.len(), 1);
    assert_eq!(diffs[0].path.render(), "[2]");
    assert_eq!(diffs[0].kind, DifferenceKind::NotEqual(num(4), num(3)));
}

#[test]
fn kind_mismatch_at_root() {
    let diffs = compare(&b(true), &num(1), Config::new(CompareMode::Strict));
    assert_eq!(diffs.len(), 1);
    assert!(diffs[0].path.keys.is_empty());
    assert_eq!(diffs[0].kind, DifferenceKind::NotEqual(b(true), num(1)));
}

#[test]
fn strict_arrays_report_each_missing_side() {
    let diffs = compare(
        &arr(vec![num(1), num(2)]),
        &arr(vec![num(1)]),
        Config::new(CompareMode::Strict),
    );
    assert_eq!(diffs.len(), 1);
    assert_eq!(diffs[0].kind, DifferenceKind::MissingFromRight);
    assert_eq!(diffs[0].path.render(), "[1]");
    let diffs = compare(
        &arr(vec![num(1)]),
        &arr(vec![num(1), num(2), num(3)]),
        Config::new(CompareMode::Strict),
    );
    assert_eq!(path_texts(&diffs), vec!["[1]".to_string(), "[2]".to_string()]);
    assert_eq!(diffs[1].kind, DifferenceKind::MissingFromLeft);
}

#[test]
fn strict_objects_report_differences_in_order() {
    let diffs = compare(
        &obj(vec![("x", num(1)), ("y", num(2))]),
        &obj(vec![("z", num(3)), ("x", num(9))]),
        Config::new(CompareMode::Strict),
    );
    assert_eq!(
        path_texts(&diffs),
        vec![".x".to_string(), ".y".to_string(), ".z".to_string()]
    );
    assert_eq!(diffs[1].kind, DifferenceKind::MissingFromRight);
    assert_eq!(diffs[2].kind, DifferenceKind::MissingFromLeft);
}

#[test]
fn messages_are_joined_by_a_blank_line() {
    assert_eq!(report(&vec![]), Ok(()));
    let result = test_partial_match(
        obj(vec![("a", num(1))]),
        obj(vec![("a", num(2)), ("b", num(3))]),
    );
    assert_output_eq(
        result,
        Err(r#"json atoms at path ".a" are not equal:
    expected:
        2
    actual:
        1

json atom at path ".b" is missing from actual"#),
    );
}

#[test]
fn message_labels_follow_the_mode() {
    let d = Difference {
        path: Path::root().append(Key::Idx(0)),
        kind: DifferenceKind::MissingFromRight,
    };
    assert_eq!(
        d.message(CompareMode::Strict, "", ""),
        r#"json atom at path "[0]" is missing from rhs"#
    );
    assert_eq!(
        d.message(CompareMode::Contains, "", ""),
        r#"json atom at path "[0]" is missing from expected"#
    );
    let d = Difference {
        path: Path::root(),
        kind: DifferenceKind::NotEqual(num(1), num(2)),
    };
    assert_eq!(
        d.message(CompareMode::Contains, "1", "[\n  2\n]"),
        "json atoms at path \"(root)\" are not equal:\n    expected:\n        [\n          2\n        ]\n    actual:\n        1"
    );
}

#[test]
fn containment_of_many_repeated_elements() {
    let ones = |n: usize| -> Vec<Value> { (0..n).map(|_| num(1)).collect() };
    let mut container = ones(60);
    container.push(num(2));
    assert!(!contains(&arr(container), &arr(ones(61))));

    let mut container = ones(60);
    container.push(num(2));
    let mut contained = ones(61);
    contained[30] = num(2);
    assert!(contains(&arr(container), &arr(contained)));
}
