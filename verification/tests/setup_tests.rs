use lib::error::ConfigError;
use lib::setup::{
    cache_dir_result, cache_obj_dir, CacheSetup, DirCreation, SetupAction, SetupEvent, SetupStep,
};

fn next(step: SetupStep) -> (CacheSetup, SetupAction) {
    match step {
        SetupStep::Next(s, a) => (s, a),
        SetupStep::Finish(_) => panic!("the setup ended early"),
    }
}

fn finish(step: SetupStep) -> Result<i32, ConfigError> {
    match step {
        SetupStep::Finish(r) => r,
        SetupStep::Next(..) => panic!("the setup did not end"),
    }
}

fn path_of(a: &SetupAction) -> (&'static str, String) {
    match a {
        SetupAction::RemoveDirAll(p) => ("remove", p.clone()),
        SetupAction::CreateDir(p) => ("mkdir", p.clone()),
        SetupAction::CheckFile(p) => ("check", p.clone()),
        SetupAction::CreateFile(p) => ("touch", p.clone()),
    }
}

#[test]
fn create_walks_through_the_directories_and_the_file() {
    let (s, a) = CacheSetup::cache_create();
    assert_eq!(path_of(&a), ("mkdir", ".rm_cache".to_string()));
    let (s, a) = next(s.step(SetupEvent::Succeeded));
    assert_eq!(path_of(&a), ("mkdir", ".rm_cache/obj/".to_string()));
    let (s, a) = next(s.step(SetupEvent::AlreadyExists));
    assert_eq!(path_of(&a), ("check", ".rm_cache/incremental.cache".to_string()));
    let (s, a) = next(s.step(SetupEvent::Absent));
    assert_eq!(path_of(&a), ("touch", ".rm_cache/incremental.cache".to_string()));
    assert_eq!(finish(s.step(SetupEvent::Succeeded)), Ok(0));
}

#[test]
fn an_existing_cache_file_is_kept() {
    let (s, _) = CacheSetup::cache_create();
    let (s, _) = next(s.step(SetupEvent::AlreadyExists));
    let (s, _) = next(s.step(SetupEvent::AlreadyExists));
    assert_eq!(finish(s.step(SetupEvent::Succeeded)), Ok(0));
}

#[test]
fn clean_removes_then_creates() {
    let (s, a) = CacheSetup::cache_clean();
    assert_eq!(path_of(&a), ("remove", ".rm_cache".to_string()));
    let (_, a) = next(s.step(SetupEvent::Succeeded));
    assert_eq!(path_of(&a), ("mkdir", ".rm_cache".to_string()));
    let (s, _) = CacheSetup::cache_clean();
    assert_eq!(
        finish(s.step(SetupEvent::Failed)),
        Err(ConfigError::CommandFailed {
            cmd: "Clean cache".to_string(),
            message: "Failed to clean rmake cache directory".to_string(),
        })
    );
}

#[test]
fn each_failure_has_its_error() {
    let dir_err = ConfigError::CommandFailed {
        cmd: "Create cache".to_string(),
        message: "Failed to create rmake cache directory".to_string(),
    };
    let (s, _) = CacheSetup::cache_create();
    assert_eq!(finish(s.step(SetupEvent::Failed)), Err(dir_err.clone_for_test()));
    let (s, _) = CacheSetup::cache_create();
    let (s, _) = next(s.step(SetupEvent::Succeeded));
    assert_eq!(finish(s.step(SetupEvent::Failed)), Err(dir_err));
    let (s, _) = CacheSetup::cache_create();
    let (s, _) = next(s.step(SetupEvent::Succeeded));
    let (s, _) = next(s.step(SetupEvent::Succeeded));
    assert_eq!(
        finish(s.step(SetupEvent::Failed)),
        Err(ConfigError::CommandFailed {
            cmd: "File exist".to_string(),
            message: "Failed to check wheter the cache file exist or not".to_string(),
        })
    );
    let (s, _) = CacheSetup::cache_create();
    let (s, _) = next(s.step(SetupEvent::Succeeded));
    let (s, _) = next(s.step(SetupEvent::Succeeded));
    let (s, _) = next(s.step(SetupEvent::Absent));
    assert_eq!(
        finish(s.step(SetupEvent::Failed)),
        Err(ConfigError::CommandFailed {
            cmd: "Create cache file".to_string(),
            message: "Failed to create incremental cache file".to_string(),
        })
    );
}

trait CloneForTest {
    fn clone_for_test(&self) -> Self;
}

impl CloneForTest for ConfigError {
    fn clone_for_test(&self) -> Self {
        match self {
            ConfigError::CommandFailed { cmd, message } => {
                ConfigError::CommandFailed { cmd: cmd.clone(), message: message.clone() }
            }
            ConfigError::InvalidSyntax { line, message } => {
                ConfigError::InvalidSyntax { line: *line, message: message.clone() }
            }
            ConfigError::InvalidConfig { message } => {
                ConfigError::InvalidConfig { message: message.clone() }
            }
        }
    }
}

#[test]
fn an_existing_directory_is_fine() {
    assert_eq!(cache_dir_result(DirCreation::Created), Ok(()));
    assert_eq!(cache_dir_result(DirCreation::AlreadyExists), Ok(()));
    assert_eq!(
        cache_dir_result(DirCreation::Failed),
        Err(ConfigError::CommandFailed {
            cmd: "Create cache".to_string(),
            message: "Failed to create rmake cache directory".to_string(),
        })
    );
}

#[test]
fn object_directory_follows_the_source_directory() {
    assert_eq!(cache_obj_dir("src/main.cpp"), Some(".rm_cache/obj/src".to_string()));
    assert_eq!(cache_obj_dir("src\\gfx\\draw.cpp"), Some(".rm_cache/obj/src/gfx".to_string()));
    assert_eq!(cache_obj_dir("a/b\\c/d.cpp"), Some(".rm_cache/obj/a/b/c".to_string()));
    assert_eq!(cache_obj_dir("/abs.cpp"), Some(".rm_cache/obj/".to_string()));
    assert_eq!(cache_obj_dir("main.cpp"), None);
}
