//! Creating and cleaning the cache directory. The file-system work is done by
//! the caller; this module decides, from what each operation gave, what to do
//! next and how the whole ends.
use vstd::prelude::*;

use crate::cache::{cache_get_obj_path, cache_increm_file, increm_file_path, obj_path, RM_CACHE};
use crate::error::{ConfigError, ErrorView};
use crate::text::{
    chars_of, has_prefix, last_index, last_index_of, lemma_last_index_of, push_chars,
    replace_backslashes, replace_char, take_chars,
};

verus! {

/// How an attempt to create a directory ended.
#[derive(Clone, Copy, Debug, PartialEq, Eq, Structural)]
pub enum DirCreation {
    Created,
    AlreadyExists,
    Failed,
}

/// The error for a cache directory that could not be created.
pub open spec fn dir_error() -> ErrorView {
    ErrorView::CommandFailed {
        cmd: "Create cache"@,
        message: "Failed to create rmake cache directory"@,
    }
}

/// The error for a cache directory that could not be created.
fn dir_failure() -> (res: ConfigError)
    ensures
        res@ == dir_error(),
{
    ConfigError::command_failed("Create cache", "Failed to create rmake cache directory")
}

/// A directory that already exists is as good as a created one; any other
/// failure is an error.
pub fn cache_dir_result(outcome: DirCreation) -> (res: Result<(), ConfigError>)
    ensures
        match res {
            Ok(_) => outcome != DirCreation::Failed,
            Err(e) => outcome == DirCreation::Failed && e@ == dir_error(),
        },
{
    match outcome {
        DirCreation::Failed => Err(dir_failure()),
        _ => Ok(()),
    }
}

/// The directory, inside the object directory, that must exist for the
/// object file of source `s`: the part of `s` before its last `/` (after
/// `\` has become `/`); none when `s` has no `/`.
pub open spec fn obj_dir_for(s: Seq<char>) -> Option<Seq<char>> {
    let n = replace_char(s, '\\', '/');
    match last_index_of(n, '/') {
        Some(k) => Some(obj_path() + n.take(k)),
        None => None,
    }
}

/// Where the object file of a source goes: a source written with a `/` or a
/// `\` gets the object directory followed by everything before its last
/// separator, with every `\` turned into `/`; the rest of the source, after
/// that separator, holds no separator; a source without a separator needs no
/// directory.
pub proof fn lemma_obj_dir_layout(s: Seq<char>)
    ensures
        obj_dir_for(s) is Some <==> (s.contains('/') || s.contains('\\')),
        obj_dir_for(s) is Some ==> {
            let p = obj_dir_for(s)->0;
            let n = replace_char(s, '\\', '/');
            let d = p.skip(obj_path().len() as int);
            &&& p.take(obj_path().len() as int) == obj_path()
            &&& d.len() < s.len()
            &&& d == n.take(d.len() as int)
            &&& (s[d.len() as int] == '/' || s[d.len() as int] == '\\')
            &&& forall|j: int| d.len() < j < s.len() ==> s[j] != '/' && s[j] != '\\'
            &&& !d.contains('\\')
        },
{
    let n = replace_char(s, '\\', '/');
    lemma_last_index_of(n, '/');
    assert(forall|j: int| 0 <= j < s.len() ==> #[trigger] n[j] == (if s[j] == '\\' { '/' } else { s[j] }));
    if s.contains('/') || s.contains('\\') {
        let j = choose|j: int| 0 <= j < s.len() && (s[j] == '/' || s[j] == '\\');
        assert(n[j] == '/');
    }
    if n.contains('/') {
        let j = choose|j: int| 0 <= j < n.len() && n[j] == '/';
        assert(s[j] == '/' || s[j] == '\\');
    }
    if let Some(k) = last_index_of(n, '/') {
        let p = obj_path() + n.take(k);
        assert(p.take(obj_path().len() as int) =~= obj_path());
        assert(p.skip(obj_path().len() as int) =~= n.take(k));
        assert forall|j: int| k < j < s.len() implies s[j] != '/' && s[j] != '\\' by {
            assert(n[j] != '/');
        }
        assert(!n.take(k).contains('\\')) by {
            if n.take(k).contains('\\') {
                let j = choose|j: int| 0 <= j < n.take(k).len() && n.take(k)[j] == '\\';
                assert(n[j] == '\\');
            }
        }
    }
}

/// The directory to create for the object file of source `s`, if any.
pub fn cache_obj_dir(s: &str) -> (res: Option<String>)
    ensures
        match res {
            Some(p) => obj_dir_for(s@) == Some(p@),
            None => obj_dir_for(s@) == None::<Seq<char>>,
        },
{
    let chars = chars_of(s);
    let n = replace_backslashes(&chars);
    match last_index(&n, '/') {
        Some(k) => {
            let dir = take_chars(&n, k);
            let mut p = cache_get_obj_path();
            push_chars(&mut p, &dir);
            Some(p)
        },
        None => None,
    }
}

/// The steps of setting up the cache, in the order they are taken.
#[derive(Clone, Copy, Debug, PartialEq, Eq, Structural)]
pub enum SetupStage {
    /// The old cache directory is being removed.
    Clean,
    /// The cache directory is being created.
    RootDir,
    /// The object directory is being created.
    ObjDir,
    /// The presence of the incremental cache file is being checked.
    CheckFile,
    /// The incremental cache file is being created.
    CreateFile,
}

/// The position of a stage in the order of the setup.
pub open spec fn stage_rank(s: SetupStage) -> nat {
    match s {
        SetupStage::Clean => 0,
        SetupStage::RootDir => 1,
        SetupStage::ObjDir => 2,
        SetupStage::CheckFile => 3,
        SetupStage::CreateFile => 4,
    }
}

/// A file-system operation that the setup asks for.
pub enum SetupAction {
    /// Remove this directory and all it holds.
    RemoveDirAll(String),
    /// Create this directory.
    CreateDir(String),
    /// Tell whether this file exists.
    CheckFile(String),
    /// Create this (empty) file.
    CreateFile(String),
}

/// A `SetupAction` with its path as a character sequence.
pub enum ActionView {
    RemoveDirAll(Seq<char>),
    CreateDir(Seq<char>),
    CheckFile(Seq<char>),
    CreateFile(Seq<char>),
}

impl View for SetupAction {
    type V = ActionView;

    open spec fn view(&self) -> ActionView {
        match self {
            SetupAction::RemoveDirAll(p) => ActionView::RemoveDirAll(p@),
            SetupAction::CreateDir(p) => ActionView::CreateDir(p@),
            SetupAction::CheckFile(p) => ActionView::CheckFile(p@),
            SetupAction::CreateFile(p) => ActionView::CreateFile(p@),
        }
    }
}

/// What an operation gave: it succeeded (for a check: the file exists), the
/// directory already existed, the file is absent, or it failed.
#[derive(Clone, Copy, Debug, PartialEq, Eq, Structural)]
pub enum SetupEvent {
    Succeeded,
    AlreadyExists,
    Absent,
    Failed,
}

/// The setup of the cache directory, waiting for the outcome of its current
/// operation.
pub struct CacheSetup {
    stage: SetupStage,
}

/// The next state of a setup and the operation it asks for, or how it ends.
pub enum SetupStep {
    Next(CacheSetup, SetupAction),
    Finish(Result<i32, ConfigError>),
}

/// A `SetupStep` seen through the stage, the operation's view and the error's
/// view.
pub enum StepView {
    Next(SetupStage, ActionView),
    Finish(Result<i32, ErrorView>),
}

impl View for SetupStep {
    type V = StepView;

    open spec fn view(&self) -> StepView {
        match self {
            SetupStep::Next(s, a) => StepView::Next(s.stage(), a@),
            SetupStep::Finish(Ok(v)) => StepView::Finish(Ok(*v)),
            SetupStep::Finish(Err(e)) => StepView::Finish(Err(e@)),
        }
    }
}

/// The error for a cache directory that could not be removed.
pub open spec fn clean_error() -> ErrorView {
    ErrorView::CommandFailed { cmd: "Clean cache"@, message: "Failed to clean rmake cache directory"@ }
}

/// The error for a presence check of the cache file that failed.
pub open spec fn exists_error() -> ErrorView {
    ErrorView::CommandFailed {
        cmd: "File exist"@,
        message: "Failed to check wheter the cache file exist or not"@,
    }
}

/// The error for a cache file that could not be created.
pub open spec fn create_file_error() -> ErrorView {
    ErrorView::CommandFailed {
        cmd: "Create cache file"@,
        message: "Failed to create incremental cache file"@,
    }
}

/// What the setup does after the operation of `stage` gave `event`.
pub open spec fn setup_next(stage: SetupStage, event: SetupEvent) -> StepView {
    match stage {
        SetupStage::Clean => if event == SetupEvent::Failed {
            StepView::Finish(Err(clean_error()))
        } else {
            StepView::Next(SetupStage::RootDir, ActionView::CreateDir(RM_CACHE@))
        },
        SetupStage::RootDir => if event == SetupEvent::Failed {
            StepView::Finish(Err(dir_error()))
        } else {
            StepView::Next(SetupStage::ObjDir, ActionView::CreateDir(obj_path()))
        },
        SetupStage::ObjDir => if event == SetupEvent::Failed {
            StepView::Finish(Err(dir_error()))
        } else {
            StepView::Next(SetupStage::CheckFile, ActionView::CheckFile(increm_file_path()))
        },
        SetupStage::CheckFile => if event == SetupEvent::Failed {
            StepView::Finish(Err(exists_error()))
        } else if event == SetupEvent::Absent {
            StepView::Next(SetupStage::CreateFile, ActionView::CreateFile(increm_file_path()))
        } else {
            StepView::Finish(Ok(0))
        },
        SetupStage::CreateFile => if event == SetupEvent::Failed {
            StepView::Finish(Err(create_file_error()))
        } else {
            StepView::Finish(Ok(0))
        },
    }
}

/// The path an operation works on.
pub open spec fn action_path(a: ActionView) -> Seq<char> {
    match a {
        ActionView::RemoveDirAll(p) => p,
        ActionView::CreateDir(p) => p,
        ActionView::CheckFile(p) => p,
        ActionView::CreateFile(p) => p,
    }
}

/// How the setup answers what its operations give: a failed operation always
/// ends the setup with an error, and only a failed one does; a directory that
/// already exists is taken as a created one; the cache file is created only
/// when it is absent, and the setup succeeds, with 0, only once the cache
/// file is known to be there; every operation works inside the cache
/// directory.
pub proof fn lemma_setup_answers(stage: SetupStage, event: SetupEvent)
    ensures
        (setup_next(stage, event) matches StepView::Finish(Err(_))) <==> event == SetupEvent::Failed,
        (stage == SetupStage::RootDir || stage == SetupStage::ObjDir) ==> setup_next(stage, SetupEvent::AlreadyExists)
            == setup_next(stage, SetupEvent::Succeeded),
        setup_next(stage, event) matches StepView::Finish(Ok(v)) ==> v == 0
            && (stage == SetupStage::CheckFile && event != SetupEvent::Absent
                || stage == SetupStage::CreateFile),
        setup_next(stage, event) matches StepView::Next(_, ActionView::CreateFile(_)) ==> stage
            == SetupStage::CheckFile && event == SetupEvent::Absent,
        setup_next(stage, event) matches StepView::Next(_, a) ==> has_prefix(action_path(a), RM_CACHE@),
{
    assert(has_prefix(RM_CACHE@, RM_CACHE@)) by {
        assert(RM_CACHE@.take(RM_CACHE@.len() as int) =~= RM_CACHE@);
    }
    assert(has_prefix(obj_path(), RM_CACHE@)) by {
        assert(obj_path().take(RM_CACHE@.len() as int) =~= RM_CACHE@);
    }
    assert(has_prefix(increm_file_path(), RM_CACHE@)) by {
        assert(increm_file_path().take(RM_CACHE@.len() as int) =~= RM_CACHE@);
    }
}

impl CacheSetup {
    /// The stage whose operation is awaited.
    pub closed spec fn stage(&self) -> SetupStage {
        self.stage
    }

    /// Creating the cache: first the cache directory is created.
    pub fn cache_create() -> (res: (CacheSetup, SetupAction))
        ensures
            res.0.stage() == SetupStage::RootDir,
            res.1@ == ActionView::CreateDir(RM_CACHE@),
    {
        (CacheSetup { stage: SetupStage::RootDir }, SetupAction::CreateDir(String::from_str(RM_CACHE)))
    }

    /// Cleaning the cache: first the cache directory is removed, then the
    /// cache is created anew.
    pub fn cache_clean() -> (res: (CacheSetup, SetupAction))
        ensures
            res.0.stage() == SetupStage::Clean,
            res.1@ == ActionView::RemoveDirAll(RM_CACHE@),
    {
        (CacheSetup { stage: SetupStage::Clean }, SetupAction::RemoveDirAll(String::from_str(RM_CACHE)))
    }

    /// Takes the outcome of the awaited operation: a failure ends the setup
    /// with its error; a directory that already exists counts as created; a
    /// cache file that is present needs no creating. Each step moves to a
    /// later stage or ends, so a setup ends after at most five operations.
    pub fn step(self, event: SetupEvent) -> (res: SetupStep)
        ensures
            res@ == setup_next(self.stage(), event),
            res matches SetupStep::Next(s, _) ==> stage_rank(s.stage()) > stage_rank(self.stage()),
    {
        match self.stage {
            SetupStage::Clean => {
                if event == SetupEvent::Failed {
                    SetupStep::Finish(Err(ConfigError::command_failed(
                        "Clean cache",
                        "Failed to clean rmake cache directory",
                    )))
                } else {
                    SetupStep::Next(
                        CacheSetup { stage: SetupStage::RootDir },
                        SetupAction::CreateDir(String::from_str(RM_CACHE)),
                    )
                }
            },
            SetupStage::RootDir => {
                if event == SetupEvent::Failed {
                    SetupStep::Finish(Err(dir_failure()))
                } else {
                    SetupStep::Next(
                        CacheSetup { stage: SetupStage::ObjDir },
                        SetupAction::CreateDir(cache_get_obj_path()),
                    )
                }
            },
            SetupStage::ObjDir => {
                if event == SetupEvent::Failed {
                    SetupStep::Finish(Err(dir_failure()))
                } else {
                    SetupStep::Next(
                        CacheSetup { stage: SetupStage::CheckFile },
                        SetupAction::CheckFile(cache_increm_file()),
                    )
                }
            },
            SetupStage::CheckFile => {
                if event == SetupEvent::Failed {
                    SetupStep::Finish(Err(ConfigError::command_failed(
                        "File exist",
                        "Failed to check wheter the cache file exist or not",
                    )))
                } else if event == SetupEvent::Absent {
                    SetupStep::Next(
                        CacheSetup { stage: SetupStage::CreateFile },
                        SetupAction::CreateFile(cache_increm_file()),
                    )
                } else {
                    SetupStep::Finish(Ok(0))
                }
            },
            SetupStage::CreateFile => {
                if event == SetupEvent::Failed {
                    SetupStep::Finish(Err(ConfigError::command_failed(
                        "Create cache file",
                        "Failed to create incremental cache file",
                    )))
                } else {
                    SetupStep::Finish(Ok(0))
                }
            },
        }
    }
}

} // verus!
