use lib::config::Config;
use lib::error::ConfigError;
use lib::run::{parse_run, run_arguments, run_binary, run_unknown_keys, RunConfig};

fn run_config(entries: &[(&str, &str)]) -> Config {
    let mut conf = Config::new();
    for (k, v) in entries {
        conf.set("run", k, v);
    }
    conf
}

#[test]
fn config_set_replaces_values_in_place() {
    let mut conf = Config::new();
    conf.set("build", "compiler", "g++");
    conf.set("run", "target", "a.out");
    conf.set("build", "flags", "-Wall");
    conf.set("build", "compiler", "clang++");
    let build = conf.get("build").unwrap();
    assert_eq!(build.name(), "build");
    assert_eq!(build.entries().len(), 2);
    assert_eq!(build.entries()[0].key, "compiler");
    assert_eq!(build.entries()[0].value, "clang++");
    assert_eq!(build.entries()[1].value, "-Wall");
    assert_eq!(conf.get("run").unwrap().entries()[0].value, "a.out");
    assert!(conf.get("missing").is_none());
}

#[test]
fn run_section_gives_target_args_and_rebuild() {
    let conf = run_config(&[("target", "game.out"), ("args", "-v  --fast"), ("rebuild", "t")]);
    let rc = parse_run(&conf).unwrap();
    assert_eq!(rc.target(), "game.out");
    assert_eq!(rc.args(), &Some("-v  --fast".to_string()));
    assert!(rc.rebuild);
    assert_eq!(run_arguments(&rc), vec!["-v".to_string(), "--fast".to_string()]);
}

#[test]
fn rebuild_values() {
    for (v, expected) in [("true", true), ("t", true), ("false", false), ("f", false), ("yes", false)] {
        let rc = parse_run(&run_config(&[("target", "x"), ("rebuild", v)])).unwrap();
        assert_eq!(rc.rebuild, expected, "rebuild={}", v);
    }
    let rc = parse_run(&run_config(&[("target", "x")])).unwrap();
    assert!(!rc.rebuild);
    assert_eq!(rc.args(), &None);
    assert!(run_arguments(&rc).is_empty());
}

#[test]
fn unknown_keys_are_passed_over() {
    let rc = parse_run(&run_config(&[("colour", "blue"), ("target", "x")])).unwrap();
    assert_eq!(rc.target(), "x");
}

#[test]
fn missing_target_is_an_error() {
    let err = parse_run(&run_config(&[("args", "a b")])).err().unwrap();
    assert_eq!(err, ConfigError::InvalidConfig { message: "Missing target section".to_string() });
}

#[test]
fn spaces_in_target_or_rebuild_are_refused() {
    let err = parse_run(&run_config(&[("target", "a b")])).err().unwrap();
    assert_eq!(
        err,
        ConfigError::InvalidConfig { message: "Only one target is supported at time".to_string() }
    );
    let err = parse_run(&run_config(&[("rebuild", "t f"), ("target", "a b")])).err().unwrap();
    assert_eq!(
        err,
        ConfigError::InvalidConfig {
            message: "Only one argument to rebuild is supported at time".to_string()
        }
    );
}

#[test]
fn a_key_is_kept_once() {
    let mut conf = Config::new();
    conf.set("run", "target", "a b");
    conf.set("run", "target", "./bin/app");
    assert_eq!(conf.get("run").unwrap().entries().len(), 1);
    let rc = parse_run(&conf).unwrap();
    assert_eq!(run_binary(&rc, false), "./bin/app");
}

#[test]
fn unknown_run_keys_are_reported() {
    let conf = run_config(&[("colour", "blue"), ("target", "x"), ("size", "9"), ("args", "-v")]);
    assert_eq!(run_unknown_keys(&conf), vec!["colour".to_string(), "size".to_string()]);
    let conf = run_config(&[("colour", "blue"), ("target", "x y"), ("size", "9")]);
    assert_eq!(run_unknown_keys(&conf), vec!["colour".to_string()]);
    let conf = run_config(&[("colour", "blue")]);
    assert!(run_unknown_keys(&conf).is_empty());
}

#[test]
fn binary_paths() {
    let target = |t: &str| parse_run(&run_config(&[("target", t)])).unwrap();
    assert_eq!(run_binary(&target("game.out"), false), "./game.out");
    assert_eq!(run_binary(&target("game.exe"), true), ".\\game.exe");
    assert_eq!(run_binary(&target("/usr/bin/app"), false), "/usr/bin/app");
    assert_eq!(run_binary(&target("\\\\share\\app"), true), "\\\\share\\app");
    assert_eq!(run_binary(&target("C:\\tools\\app.exe"), true), "C:\\tools\\app.exe");
    assert_eq!(run_binary(&target("./app"), true), "./app");
    assert_eq!(run_binary(&target("../app"), false), "../app");
    assert_eq!(run_binary(&target(".app"), false), "./.app");
}

#[test]
fn default_run_config_is_empty() {
    let rc = RunConfig::default();
    assert_eq!(rc.target(), "");
    assert_eq!(rc.args(), &None);
    assert!(!rc.rebuild);
    assert_eq!(run_binary(&rc, false), "./");
}

#[test]
fn arguments_split_on_unicode_whitespace() {
    let rc = parse_run(&run_config(&[("target", "x"), ("args", "\t a\u{3000}b\u{a0}c\n ")])).unwrap();
    assert_eq!(
        run_arguments(&rc),
        vec!["a".to_string(), "b".to_string(), "c".to_string()]
    );
}
