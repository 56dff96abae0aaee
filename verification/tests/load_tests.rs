use envro::{load_into, parse, should_apply, MemEnv, Policy};

#[test]
fn should_load_a_simple_dotenv_file() {
    let vars = parse("VAR=value").unwrap();
    let mut env = MemEnv::new();

    load_into(&vars, Policy::Preserve, &mut env);

    assert_eq!(env.get("VAR"), Some(&"value".to_string()));
}

#[test]
fn should_not_ovveride_env_vars() {
    let vars = parse("\nVAR1=\"value1\"\nVAR2=2\nVAR3=3").unwrap();
    let mut env = MemEnv::new();
    env.set("VAR1".to_string(), "current-value".to_string());

    load_into(&vars, Policy::Preserve, &mut env);

    assert_eq!(env.get("VAR1"), Some(&"current-value".to_string()));
    assert_eq!(env.get("VAR2"), Some(&"2".to_string()));
    assert_eq!(env.get("VAR3"), Some(&"3".to_string()));
}

#[test]
fn override_policy_replaces_existing_values() {
    let vars = parse("VAR1=file-value").unwrap();
    let mut env = MemEnv::new();
    env.set("VAR1".to_string(), "current-value".to_string());

    load_into(&vars, Policy::Override, &mut env);

    assert_eq!(env.get("VAR1"), Some(&"file-value".to_string()));
}

#[test]
fn preserve_policy_fills_absent_and_empty_values() {
    let vars = parse("VAR1=a\nVAR2=b\nVAR3=c").unwrap();
    let mut env = MemEnv::new();
    env.set("VAR1".to_string(), "current-value".to_string());
    env.set("VAR2".to_string(), "".to_string());

    load_into(&vars, Policy::Preserve, &mut env);

    assert_eq!(env.get("VAR1"), Some(&"current-value".to_string()));
    assert_eq!(env.get("VAR2"), Some(&"b".to_string()));
    assert_eq!(env.get("VAR3"), Some(&"c".to_string()));
}

#[test]
fn loading_touches_only_loaded_keys() {
    let vars = parse("A=1").unwrap();
    let mut env = MemEnv::new();
    env.set("OTHER".to_string(), "kept".to_string());

    load_into(&vars, Policy::Override, &mut env);

    assert_eq!(env.get("OTHER"), Some(&"kept".to_string()));
    assert_eq!(env.get("A"), Some(&"1".to_string()));
    assert_eq!(env.get("ABSENT"), None);
}

#[test]
fn should_apply_decides_per_policy_and_current_value() {
    let current = "current-value".to_string();
    let empty = "".to_string();

    assert!(should_apply(Policy::Override, None));
    assert!(should_apply(Policy::Override, Some(&current)));
    assert!(should_apply(Policy::Preserve, None));
    assert!(should_apply(Policy::Preserve, Some(&empty)));
    assert!(!should_apply(Policy::Preserve, Some(&current)));
}
