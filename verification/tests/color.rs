use std::collections::HashMap;

use unused_buddy::color::ColorPolicy;

#[test]
fn color_auto_tty_enabled() {
    assert!(ColorPolicy::Auto.enabled_with(true, &HashMap::new()));
}

#[test]
fn color_auto_non_tty_disabled() {
    assert!(!ColorPolicy::Auto.enabled_with(false, &HashMap::new()));
}

#[test]
fn color_never_forces_mono() {
    let mut env = HashMap::new();
    env.insert("FORCE_COLOR".to_string(), "1".to_string());
    assert!(!ColorPolicy::Never.enabled_with(true, &env));
}

#[test]
fn color_always_forces_ansi() {
    assert!(ColorPolicy::Always.enabled_with(false, &HashMap::new()));
}

#[test]
fn color_respects_no_color() {
    let mut env = HashMap::new();
    env.insert("NO_COLOR".to_string(), "1".to_string());
    assert!(!ColorPolicy::Auto.enabled_with(true, &env));
}

#[test]
fn color_respects_clicolor_zero() {
    let mut env = HashMap::new();
    env.insert("CLICOLOR".to_string(), "0".to_string());
    assert!(!ColorPolicy::Auto.enabled_with(true, &env));
}

#[test]
fn color_respects_force_color() {
    let mut env = HashMap::new();
    env.insert("FORCE_COLOR".to_string(), "1".to_string());
    assert!(ColorPolicy::Auto.enabled_with(false, &env));
}

#[test]
fn color_term_dumb_disables() {
    let mut env = HashMap::new();
    env.insert("TERM".to_string(), "dumb".to_string());
    env.insert("FORCE_COLOR".to_string(), "1".to_string());
    assert!(!ColorPolicy::Auto.enabled_with(true, &env));
}

#[test]
fn color_clicolor_force_enables() {
    let mut env = HashMap::new();
    env.insert("CLICOLOR_FORCE".to_string(), "1".to_string());
    assert!(ColorPolicy::Auto.enabled_with(false, &env));
}

#[test]
fn color_other_values_fall_back_to_tty() {
    let mut env = HashMap::new();
    env.insert("CLICOLOR".to_string(), "1".to_string());
    env.insert("FORCE_COLOR".to_string(), "0".to_string());
    assert!(ColorPolicy::Auto.enabled_with(true, &env));
    assert!(!ColorPolicy::Auto.enabled_with(false, &env));
}
