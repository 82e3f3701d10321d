//! Environments and value computation.

use clman::env::Environment;
use clman::value::{Computable, Value, ValueString};
use clman::error::ClmanError;

fn env_of(pairs: &[(&str, &str)]) -> Environment {
    let mut e = Environment::new(None);
    for (k, v) in pairs {
        e.set(k.to_string(), v.to_string());
    }
    e
}

#[test]
fn get_returns_own_binding() {
    let e = env_of(&[("x", "1")]);
    assert_eq!(e.get("x".to_string()), Some("1".to_string()));
    assert_eq!(e.get("y".to_string()), None);
}

#[test]
fn child_binding_shadows_parent() {
    let parent = env_of(&[("x", "parent"), ("y", "only-parent")]);
    let mut child = Environment::new(Some(parent));
    child.set("x".to_string(), "child".to_string());
    assert_eq!(child.get("x".to_string()), Some("child".to_string()));
    assert_eq!(child.get("y".to_string()), Some("only-parent".to_string()));
}

#[test]
fn as_map_keeps_inner_bindings_first() {
    let parent = env_of(&[("x", "parent"), ("z", "3")]);
    let mut child = Environment::new(Some(parent));
    child.set("x".to_string(), "child".to_string());
    let m = child.as_map();
    assert_eq!(m[0], ("x".to_string(), "child".to_string()));
    assert!(m.contains(&("z".to_string(), "3".to_string())));
    assert!(!m.contains(&("x".to_string(), "parent".to_string())));
}

#[test]
fn static_value_ignores_environment() {
    let e1 = env_of(&[("x", "1")]);
    let e2 = env_of(&[("x", "totally-different"), ("y", "2")]);
    let v: Value<u32> = Value::Static(5);
    assert_eq!(v.compute(&e1).unwrap(), v.compute(&e2).unwrap());
    assert_eq!(v.compute(&e1).unwrap(), 5);
}

#[test]
fn literal_template_computes_to_itself() {
    let e = env_of(&[("x", "1")]);
    let vs = ValueString::from_str("hello world");
    assert_eq!(vs.compute(&e).unwrap(), "hello world".to_string());
    let empty = ValueString::from_str("");
    assert_eq!(empty.compute(&e).unwrap(), "".to_string());
}

#[test]
fn arithmetic_wrapper_computes() {
    let e = Environment::new(None);
    let vs = ValueString::from_str("$((2 + 3 * 4))");
    assert_eq!(vs.compute(&e).unwrap(), "14".to_string());
}

#[test]
fn arithmetic_with_variables() {
    let e = env_of(&[("n", "10")]);
    let vs = ValueString::from_str("$(($n + 4))");
    assert_eq!(vs.compute(&e).unwrap(), "14".to_string());
}

#[test]
fn arithmetic_division_renders_decimals() {
    let e = Environment::new(None);
    assert_eq!(ValueString::from_str("$((1/2))").compute(&e).unwrap(), "0.5".to_string());
    assert_eq!(ValueString::from_str("$((10/4))").compute(&e).unwrap(), "2.5".to_string());
    assert_eq!(ValueString::from_str("$(((2+3)*4))").compute(&e).unwrap(), "20".to_string());
    assert_eq!(ValueString::from_str("$((2-5))").compute(&e).unwrap(), "-3".to_string());
    assert_eq!(ValueString::from_str("$((-2*3))").compute(&e).unwrap(), "-6".to_string());
}

#[test]
fn division_by_zero_fails() {
    let e = Environment::new(None);
    match ValueString::from_str("$((1/0))").compute(&e) {
        Err(ClmanError::ValueCompute { .. }) => {},
        other => panic!("expected a value computation error, got {:?}", other),
    }
}

#[test]
fn unresolved_reference_fails() {
    let e = Environment::new(None);
    match ValueString::from_str("prefix $missing suffix").compute(&e) {
        Err(ClmanError::ValueCompute { .. }) => {},
        other => panic!("expected a value computation error, got {:?}", other),
    }
}

#[test]
fn longer_keys_substitute_first() {
    let e = env_of(&[("a", "SHORT"), ("ab", "LONG")]);
    let vs = ValueString::from_str("$ab");
    assert_eq!(vs.compute(&e).unwrap(), "LONG".to_string());
}

#[test]
fn substitution_uses_values() {
    let e = env_of(&[("name", "world")]);
    let vs = ValueString::from_str("hello $name");
    assert_eq!(vs.compute(&e).unwrap(), "hello world".to_string());
}

#[test]
fn dynamic_numeric_values_parse() {
    let e = env_of(&[("n", "42"), ("neg", "-12"), ("big", "200")]);
    let v: Value<usize> = Value::Dynamic(ValueString::from_str("$n"));
    assert_eq!(v.compute(&e).unwrap(), 42usize);
    let vi: Value<i8> = Value::Dynamic(ValueString::from_str("$neg"));
    assert_eq!(vi.compute(&e).unwrap(), -12i8);
    let bad: Value<i8> = Value::Dynamic(ValueString::from_str("$big"));
    match bad.compute(&e) {
        Err(ClmanError::ValueCompute { .. }) => {},
        other => panic!("expected a range error, got {:?}", other),
    }
    let vu: Value<u32> = Value::Dynamic(ValueString::from_str("$((6 * 7))"));
    assert_eq!(vu.compute(&e).unwrap(), 42u32);
}

#[test]
fn error_messages_carry_text() {
    let e = ClmanError::Fetch { message: "remote is unreachable".to_string() };
    assert_eq!(e.message(), "remote is unreachable".to_string());
    let k = ClmanError::Kernel { message: "no such kernel".to_string() };
    assert_eq!(k.message(), "no such kernel".to_string());
    let c = ClmanError::Composition { message: "missing file".to_string() };
    assert_eq!(c.message(), "missing file".to_string());
}

#[test]
fn repo_name_takes_the_part_after_the_slash() {
    assert_eq!(clman::utils::repo_name(&"user/project".to_string()), "project".to_string());
}

#[test]
fn signature_scan_finds_kernels() {
    let src = "__kernel void fill(__global uint *b, uint v) {\n  b[0] = v;\n}\nfloat helper(float x) { return x; }\n".to_string();
    let fs = clman::parse::list_functions(src);
    assert_eq!(fs.len(), 2);
    assert_eq!(fs[0].ret, "void".to_string());
    assert_eq!(fs[0].name, "fill".to_string());
    assert_eq!(fs[0].params, "__global uint *b, uint v".to_string());
    assert_eq!(fs[0].render(), "void fill(__global uint *b, uint v);".to_string());
    assert_eq!(fs[1].name, "helper".to_string());
}

#[test]
fn negative_division_renders_with_sign() {
    let e = Environment::new(None);
    assert_eq!(ValueString::from_str("$((-1/2))").compute(&e).unwrap(), "-0.5".to_string());
    assert_eq!(ValueString::from_str("$((14/2))").compute(&e).unwrap(), "7".to_string());
    assert_eq!(ValueString::from_str("$((0*5))").compute(&e).unwrap(), "0".to_string());
}
