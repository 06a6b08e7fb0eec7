use mate_rs::environment::Environment;

#[test]
fn new_environment() {
    let env = Environment::new();
    assert!(env.names().is_empty());
    assert!(Environment::default().names().is_empty());
}

#[test]
fn set_and_get() {
    let mut env = Environment::new();
    env.set("x", 5.0f64.to_bits());
    assert_eq!(env.get("x").map(f64::from_bits), Some(5.0));
    assert_eq!(env.get("y"), None);
}

#[test]
fn overwrite_variable() {
    let mut env = Environment::new();
    env.set("x", 5.0f64.to_bits());
    env.set("x", 10.0f64.to_bits());
    assert_eq!(env.get("x").map(f64::from_bits), Some(10.0));
    assert_eq!(env.names(), vec![String::from("x")]);
}

#[test]
fn contains() {
    let mut env = Environment::new();
    env.set("x", 5.0f64.to_bits());
    assert!(env.contains("x"));
    assert!(!env.contains("y"));
    assert!(!env.contains("X"));
    assert!(!env.contains(""));
}

#[test]
fn clear() {
    let mut env = Environment::new();
    env.set("x", 5.0f64.to_bits());
    env.set("y", 10.0f64.to_bits());
    env.clear();
    assert!(!env.contains("x"));
    assert!(!env.contains("y"));
    assert!(env.names().is_empty());
}

#[test]
fn names_stand_once() {
    let mut env = Environment::new();
    env.set("b", 1);
    env.set("a", 2);
    env.set("b", 3);
    env.set("", 4);
    let mut names = env.names();
    names.sort();
    assert_eq!(names, vec![String::new(), String::from("a"), String::from("b")]);
    assert_eq!(env.get("b"), Some(3));
    assert_eq!(env.get("a"), Some(2));
    assert_eq!(env.get(""), Some(4));
    let copy = env.clone();
    env.set("a", 9);
    assert_eq!(copy.get("a"), Some(2));
    assert_eq!(env.get("a"), Some(9));
}

#[test]
fn values_are_kept_bit_for_bit() {
    let mut env = Environment::new();
    env.set("nan", f64::NAN.to_bits());
    env.set("zero", (-0.0f64).to_bits());
    assert_eq!(env.get("nan"), Some(f64::NAN.to_bits()));
    assert_eq!(env.get("zero"), Some(0x8000_0000_0000_0000));
}
