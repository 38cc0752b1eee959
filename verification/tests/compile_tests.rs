use lib::compile::{
    build_unknown_keys, command_line, compile_args, compile_outcome, finish_sources, glob_pattern,
    is_cl, link_args, parse_build, select_by_extension, BuildConfig,
};
use lib::config::Config;
use lib::error::ConfigError;

fn build_config(entries: &[(&str, &str)]) -> Config {
    let mut conf = Config::new();
    for (k, v) in entries {
        conf.set("build", k, v);
    }
    conf
}

fn strs(v: &[&str]) -> Vec<String> {
    v.iter().map(|s| s.to_string()).collect()
}

fn parsed(entries: &[(&str, &str)]) -> BuildConfig {
    parse_build(&build_config(entries)).unwrap()
}

#[test]
fn build_section_is_read() {
    let b = parsed(&[
        ("compiler", "g++"),
        ("flags", "-std=c++17 -Wall"),
        ("src", "src/*.cpp main.cpp"),
        ("include", "src/include"),
        ("lpaths", "My/lib/path/lib"),
        ("lflags", "mylib opengl32"),
        ("target", "myexe.out"),
        ("colour", "red"),
    ]);
    assert_eq!(b.compiler(), "g++");
    assert_eq!(b.flags(), &Some(strs(&["-std=c++17", "-Wall"])));
    assert_eq!(b.src, strs(&["src/*.cpp", "main.cpp"]));
    assert_eq!(b.header_dirs(), &Some(strs(&["src/include"])));
    assert_eq!(b.lpaths(), &Some(strs(&["My/lib/path/lib"])));
    assert_eq!(b.lflags(), &Some(strs(&["mylib", "opengl32"])));
    assert_eq!(b.target(), "myexe.out");
}

#[test]
fn optional_lists_stay_absent() {
    let b = parsed(&[("compiler", "cc"), ("src", "a.c")]);
    assert_eq!(b.flags(), &None);
    assert_eq!(b.header_dirs(), &None);
    assert_eq!(b.lflags(), &None);
    assert_eq!(b.lpaths(), &None);
    assert_eq!(b.target(), "");
    let b = parsed(&[("compiler", "cc"), ("src", "a.c"), ("flags", "  ")]);
    assert_eq!(b.flags(), &Some(Vec::new()));
}

#[test]
fn compiler_and_sources_are_required() {
    let missing = ConfigError::InvalidConfig {
        message: "Missing 'compiler' and/or 'src' key/value to execute build".to_string(),
    };
    assert_eq!(parse_build(&build_config(&[("compiler", "g++")])).err().unwrap(), missing);
    let again = ConfigError::InvalidConfig {
        message: "Missing 'compiler' and/or 'src' key/value to execute build".to_string(),
    };
    assert_eq!(parse_build(&build_config(&[("src", "a.cpp")])).err().unwrap(), again);
}

#[test]
fn one_compiler_and_one_target() {
    let err = parse_build(&build_config(&[("compiler", "g++ -O2"), ("src", "a.cpp")])).err().unwrap();
    assert_eq!(
        err,
        ConfigError::InvalidConfig { message: "Only one compiler is supported at time".to_string() }
    );
    let err = parse_build(&build_config(&[("compiler", "g++"), ("src", "a.cpp"), ("target", "a b")]))
        .err()
        .unwrap();
    assert_eq!(
        err,
        ConfigError::InvalidConfig { message: "Only one target is supported at time".to_string() }
    );
}

#[test]
fn glob_patterns() {
    assert_eq!(
        glob_pattern(&"src/*.cpp".to_string()),
        Some(("src".to_string(), "cpp".to_string()))
    );
    assert_eq!(glob_pattern(&"*.c".to_string()), Some((".".to_string(), "c".to_string())));
    assert_eq!(glob_pattern(&"lib/*".to_string()), Some(("lib".to_string(), "cpp".to_string())));
    assert_eq!(glob_pattern(&"main.cpp".to_string()), None);
}

#[test]
fn sources_are_normalized_and_compile_only_is_added() {
    let b = parsed(&[("compiler", "g++"), ("src", "src\\*.cpp"), ("flags", "-Wall")]);
    let b = finish_sources(b, strs(&["src\\a.cpp", "src/b.cpp"]));
    assert_eq!(b.src, strs(&["src/a.cpp", "src/b.cpp"]));
    assert_eq!(b.flags(), &Some(strs(&["-Wall", "-c"])));
    let b = finish_sources(parsed(&[("compiler", "g++"), ("src", "a.cpp")]), strs(&["a.cpp"]));
    assert_eq!(b.flags(), &Some(strs(&["-c"])));
}

#[test]
fn msvc_is_recognized_by_name() {
    assert!(is_cl(&"cl".to_string()));
    assert!(is_cl(&"C:/VS/bin/cl.exe".to_string()));
    assert!(!is_cl(&"g++".to_string()));
    assert!(!is_cl(&"clang".to_string()));
}

#[test]
fn compile_arguments_for_gcc() {
    let b = parsed(&[
        ("compiler", "g++"),
        ("src", "a.cpp"),
        ("flags", "-Wall --std=c++17 ---O2 ggdb"),
        ("include", "inc src/include"),
    ]);
    let b = finish_sources(b, strs(&["src/a.cpp"]));
    let args = compile_args(&b, &"src/a.cpp".to_string());
    assert_eq!(
        args,
        strs(&[
            "-Wall", "--std=c++17", "---O2", "-ggdb", "-c", "-Iinc", "-Isrc/include", "src/a.cpp",
            "-o", ".rm_cache/obj/src/a.cpp.o",
        ])
    );
    assert_eq!(
        command_line(b.compiler(), &args),
        "g++ -Wall --std=c++17 ---O2 -ggdb -c -Iinc -Isrc/include src/a.cpp -o .rm_cache/obj/src/a.cpp.o"
    );
}

#[test]
fn compile_arguments_for_msvc() {
    let b = parsed(&[("compiler", "cl.exe"), ("src", "a.cpp"), ("flags", "/EHsc"), ("include", "inc")]);
    let b = finish_sources(b, strs(&["a.cpp"]));
    let args = compile_args(&b, &"a.cpp".to_string());
    assert_eq!(args, strs(&["/EHsc", "-c", "/I inc", "a.cpp", "-o", ".rm_cache/obj/a.cpp.o"]));
}

#[test]
fn link_arguments() {
    let b = parsed(&[
        ("compiler", "g++"),
        ("src", "a.cpp"),
        ("target", "app"),
        ("lpaths", "libs /opt/lib"),
        ("lflags", "-lm"),
    ]);
    let objs = strs(&[".rm_cache/obj/a.cpp.o"]);
    assert_eq!(
        link_args(&b, &objs),
        strs(&[".rm_cache/obj/a.cpp.o", "-o", "app", "-Llibs", "-L/opt/lib", "-lm"])
    );
    let b = parsed(&[("compiler", "g++"), ("src", "a.cpp"), ("target", "app")]);
    assert_eq!(link_args(&b, &Vec::new()), strs(&["-o", "app"]));
    assert_eq!(command_line(&"ld".to_string(), &Vec::new()), "ld");
}

#[test]
fn compiler_exit_codes() {
    assert_eq!(compile_outcome("g++ a.cpp".to_string(), "", "", Some(0)), Ok(()));
    assert_eq!(compile_outcome("g++ a.cpp".to_string(), "", "", None), Ok(()));
    assert_eq!(
        compile_outcome("g++ a.cpp".to_string(), "out", "bad", Some(1)),
        Err(ConfigError::CommandFailed {
            cmd: "g++ a.cpp".to_string(),
            message: "stdout:out\nstderrbad\nexit:1".to_string(),
        })
    );
    assert_eq!(
        compile_outcome("cl".to_string(), "", "", Some(-1073741515)),
        Err(ConfigError::CommandFailed {
            cmd: "cl".to_string(),
            message: "stdout:\nstderr\nexit:-1073741515".to_string(),
        })
    );
    assert_eq!(
        compile_outcome("x".to_string(), "", "", Some(i32::MIN)),
        Err(ConfigError::CommandFailed {
            cmd: "x".to_string(),
            message: "stdout:\nstderr\nexit:-2147483648".to_string(),
        })
    );
}

#[test]
fn unknown_build_keys_are_reported() {
    let conf = build_config(&[("colour", "red"), ("compiler", "g++"), ("src", "a.cpp"), ("opt", "2")]);
    assert_eq!(build_unknown_keys(&conf), strs(&["colour", "opt"]));
    let conf = build_config(&[("colour", "red"), ("compiler", "g++ -O2"), ("src", "a.cpp"), ("opt", "2")]);
    assert_eq!(build_unknown_keys(&conf), strs(&["colour"]));
    let conf = build_config(&[("colour", "red"), ("src", "a.cpp")]);
    assert!(build_unknown_keys(&conf).is_empty());
    let conf = build_config(&[("compiler", "g++"), ("src", "a.cpp"), ("include", "i"), ("lpaths", "l")]);
    assert!(build_unknown_keys(&conf).is_empty());
}

#[test]
fn files_are_selected_by_extension() {
    let paths = strs(&[
        "src/a.cpp", "src/b.c", "src/.cpp", "src/c.tar.cpp", "src/d", "src.cpp/e", "src/f.cpp",
        "src/..", "src\\g.cpp",
    ]);
    assert_eq!(
        select_by_extension(&paths, &"cpp".to_string(), false),
        strs(&["src/a.cpp", "src/c.tar.cpp", "src/f.cpp", "src\\g.cpp"])
    );
    let win = strs(&["src\\.cpp", "a.b\\c", "x\\y.cpp"]);
    assert_eq!(select_by_extension(&win, &"cpp".to_string(), true), strs(&["x\\y.cpp"]));
    assert_eq!(select_by_extension(&strs(&["a.", "b"]), &"".to_string(), false), strs(&["a."]));
}
