use squirrel_json::config::{BuildEnv, Cfgs};

fn env(target: &str, profile: &str, checked: Option<&str>, published: Option<&str>) -> BuildEnv {
    BuildEnv {
        target: Some(target.to_owned()),
        profile: Some(profile.to_owned()),
        checked: checked.map(|v| v.to_owned()),
        published: published.map(|v| v.to_owned()),
    }
}

#[test]
fn switches_follow_the_environment() {
    let cfgs = Cfgs::from_env(
        &env("wasm32-unknown-unknown", "release", None, Some("1")),
        false,
    );

    assert!(cfgs.is_wasm());
    assert!(cfgs.is_release());
    assert!(!cfgs.is_debug());
    assert!(!cfgs.is_checked());
    assert!(cfgs.is_publish());
    assert!(!cfgs.is_unstable());
    assert!(cfgs.is_enabled(Cfgs::published()));
    assert!(!cfgs.is_enabled(Cfgs::checked()));
    assert!(cfgs.is_consistent());
}

#[test]
fn empty_environment_turns_nothing_on() {
    let none = BuildEnv { target: None, profile: None, checked: None, published: None };

    let cfgs = Cfgs::from_env(&none, false);
    assert!(!cfgs.is_wasm() && !cfgs.is_debug() && !cfgs.is_release());
    assert!(!cfgs.is_checked() && !cfgs.is_publish() && !cfgs.is_unstable());
    assert_eq!(vec!["cargo:rerun-if-changed=build.rs".to_owned()], cfgs.apply());

    let cfgs = Cfgs::from_env(&none, true);
    assert!(cfgs.is_unstable());

    let cfgs = Cfgs::new(&none);
    assert!(!cfgs.is_wasm() && !cfgs.is_debug() && !cfgs.is_release());
}

#[test]
fn zero_turns_a_switch_off() {
    let cfgs = Cfgs::from_env(&env("x86_64-unknown-linux-gnu", "debug", Some("0"), Some("0")), true);

    assert!(!cfgs.is_wasm());
    assert!(cfgs.is_debug());
    assert!(!cfgs.is_checked());
    assert!(!cfgs.is_publish());
    assert!(cfgs.is_unstable());

    let cfgs = Cfgs::from_env(&env("x86_64-unknown-linux-gnu", "debug", Some(""), None), false);
    assert!(cfgs.is_checked());
}

#[test]
fn enable_turns_a_switch_on() {
    let mut cfgs = Cfgs::from_env(&env("", "release", None, None), false);

    assert!(!cfgs.is_checked());
    cfgs.enable(Cfgs::checked());
    assert!(cfgs.is_checked());
    cfgs.enable(Cfgs::checked());
    assert!(cfgs.is_checked());
    assert!(cfgs.is_consistent());

    assert_eq!(
        vec![
            "cargo:rustc-cfg=release".to_owned(),
            "cargo:rustc-cfg=checked".to_owned(),
            "cargo:rerun-if-changed=build.rs".to_owned(),
        ],
        cfgs.apply()
    );
}

#[test]
fn published_build_is_optimized_and_not_checked() {
    let cfgs = Cfgs::from_env(&env("", "release", Some("1"), Some("1")), false);
    assert!(!cfgs.is_consistent());

    let cfgs = Cfgs::from_env(&env("", "debug", None, Some("1")), false);
    assert!(!cfgs.is_consistent());

    let cfgs = Cfgs::from_env(&env("", "release", None, Some("1")), false);
    assert!(cfgs.is_consistent());

    let cfgs = Cfgs::from_env(&env("", "debug", Some("1"), None), false);
    assert!(cfgs.is_consistent());
}
