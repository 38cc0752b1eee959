//! The `run` section: what to run after a build, and the command line that
//! runs it.
use vstd::prelude::*;

use crate::config::{distinct_keys, entry_pairs, Config, Entry, Section};
use crate::error::{ConfigError, ErrorView};
use crate::text::{
    chars_of, contains_char, contains_chars, has_infix, has_prefix, has_suffix, is_whitespace,
    split_whitespace, starts_with, string_is, string_views, strings_of, words,
};

verus! {

/// The settings of the `run` section.
#[derive(Debug)]
pub struct RunConfig {
    target: String,
    args: Option<String>,
    pub rebuild: bool,
}

/// A `RunConfig` with its strings as character sequences.
pub struct RunView {
    pub target: Seq<char>,
    pub args: Option<Seq<char>>,
    pub rebuild: bool,
}

impl View for RunConfig {
    type V = RunView;

    closed spec fn view(&self) -> RunView {
        RunView {
            target: self.target@,
            args: match self.args {
                Some(a) => Some(a@),
                None => None,
            },
            rebuild: self.rebuild,
        }
    }
}

impl Default for RunConfig {
    /// No target, no arguments, no rebuild.
    fn default() -> (res: RunConfig)
        ensures
            res@ == (RunView { target: Seq::<char>::empty(), args: None, rebuild: false }),
    {
        RunConfig { target: String::new(), args: None, rebuild: false }
    }
}

impl RunConfig {
    /// The program to run.
    pub fn target(&self) -> (res: &String)
        ensures
            res@ == self@.target,
    {
        &self.target
    }

    /// The arguments to pass, as written in the section.
    pub fn args(&self) -> (res: &Option<String>)
        ensures
            match res {
                Some(a) => self@.args == Some(a@),
                None => self@.args == None::<Seq<char>>,
            },
    {
        &self.args
    }
}

/// The value of the last entry of `es` with key `k`, if any.
pub open spec fn last_value(es: Seq<(Seq<char>, Seq<char>)>, k: Seq<char>) -> Option<Seq<char>>
    decreases es.len(),
{
    if es.len() == 0 {
        None
    } else if es.last().0 == k {
        Some(es.last().1)
    } else {
        last_value(es.drop_last(), k)
    }
}

/// An entry that the `run` section refuses: a target or a rebuild value that
/// holds a space.
pub open spec fn run_refuses(e: (Seq<char>, Seq<char>)) -> bool {
    (e.0 == "target"@ || e.0 == "rebuild"@) && e.1.contains(' ')
}

/// The position of the first refused entry of `es`, if any.
pub open spec fn first_refused(es: Seq<(Seq<char>, Seq<char>)>) -> Option<int>
    decreases es.len(),
{
    if es.len() == 0 {
        None
    } else {
        match first_refused(es.drop_last()) {
            Some(i) => Some(i),
            None => if run_refuses(es.last()) { Some(es.len() - 1) } else { None },
        }
    }
}

/// The error for a refused entry of key `k`.
pub open spec fn run_refusal(k: Seq<char>) -> ErrorView {
    if k == "target"@ {
        ErrorView::InvalidConfig { message: "Only one target is supported at time"@ }
    } else {
        ErrorView::InvalidConfig { message: "Only one argument to rebuild is supported at time"@ }
    }
}

/// Whether a rebuild value asks for a rebuild: `true` or `t`; any other
/// value, or none, does not.
pub open spec fn rebuild_flag(v: Option<Seq<char>>) -> bool {
    match v {
        Some(v) => v == "true"@ || v == "t"@,
        None => false,
    }
}

/// The settings that the entries `es` of the `run` section give: a target is
/// required; the first refused entry is an error; otherwise the last value of
/// each key counts, and keys other than `target`, `args` and `rebuild` are
/// passed over.
pub open spec fn parse_run_entries(es: Seq<(Seq<char>, Seq<char>)>) -> Result<RunView, ErrorView> {
    if last_value(es, "target"@) is None {
        Err(ErrorView::InvalidConfig { message: "Missing target section"@ })
    } else {
        match first_refused(es) {
            Some(i) => Err(run_refusal(es[i].0)),
            None => Ok(RunView {
                target: last_value(es, "target"@)->0,
                args: last_value(es, "args"@),
                rebuild: rebuild_flag(last_value(es, "rebuild"@)),
            }),
        }
    }
}

/// Once a prefix holds a refused entry, the first refused entry of the whole
/// is that of the prefix.
proof fn lemma_first_refused_prefix(es: Seq<(Seq<char>, Seq<char>)>, j: int)
    requires
        0 <= j <= es.len(),
        first_refused(es.take(j)) is Some,
    ensures
        first_refused(es) == first_refused(es.take(j)),
    decreases es.len(),
{
    if j == es.len() {
        assert(es.take(j) =~= es);
    } else {
        assert(es.drop_last().take(j) =~= es.take(j));
        lemma_first_refused_prefix(es.drop_last(), j);
    }
}

/// Among entries with distinct keys, the last value of a key is the value of
/// its entry.
pub proof fn lemma_last_value_at(es: Seq<(Seq<char>, Seq<char>)>, k: int)
    requires
        distinct_keys(es),
        0 <= k < es.len(),
    ensures
        last_value(es, es[k].0) == Some(es[k].1),
    decreases es.len(),
{
    if k < es.len() - 1 {
        let init = es.drop_last();
        assert(distinct_keys(init)) by {
            assert forall|i: int, j: int| 0 <= i < j < init.len() implies init[i].0 != init[j].0 by {
                assert(init[i] == es[i] && init[j] == es[j]);
            }
        }
        assert(init[k] == es[k]);
        lemma_last_value_at(init, k);
        assert(es.last().0 != es[k].0);
    }
}

/// A key that no entry holds has no last value.
pub proof fn lemma_last_value_absent(es: Seq<(Seq<char>, Seq<char>)>, key: Seq<char>)
    requires
        forall|k: int| 0 <= k < es.len() ==> es[k].0 != key,
    ensures
        last_value(es, key) is None,
    decreases es.len(),
{
    if es.len() > 0 {
        let init = es.drop_last();
        assert forall|k: int| 0 <= k < init.len() implies init[k].0 != key by {
            assert(init[k] == es[k]);
        }
        lemma_last_value_absent(init, key);
        assert(es[es.len() - 1] == es.last());
    }
}

/// A key that some entry holds has a last value.
pub proof fn lemma_last_value_present(es: Seq<(Seq<char>, Seq<char>)>, key: Seq<char>, k: int)
    requires
        0 <= k < es.len(),
        es[k].0 == key,
    ensures
        last_value(es, key) is Some,
    decreases es.len(),
{
    if k < es.len() - 1 && es.last().0 != key {
        assert(es.drop_last()[k] == es[k]);
        lemma_last_value_present(es.drop_last(), key, k);
    }
}

/// There is no first refused entry exactly when no entry is refused.
pub proof fn lemma_first_refused_none(es: Seq<(Seq<char>, Seq<char>)>)
    ensures
        first_refused(es) is None <==> forall|k: int| 0 <= k < es.len() ==> !run_refuses(#[trigger] es[k]),
    decreases es.len(),
{
    if es.len() > 0 {
        let init = es.drop_last();
        lemma_first_refused_none(init);
        assert(forall|k: int| 0 <= k < init.len() ==> #[trigger] es[k] == init[k]);
        if first_refused(es) is Some {
            if first_refused(init) is Some {
                let k = choose|k: int| 0 <= k < init.len() && run_refuses(#[trigger] init[k]);
                assert(run_refuses(es[k]));
            } else {
                assert(run_refuses(es[es.len() - 1]));
            }
        }
    }
}

/// The `run` section is read as a map: with distinct keys, a missing target
/// is an error; a refused target or rebuild value is an error; otherwise
/// reading succeeds, and the target, the arguments and the rebuild flag are
/// the values of their entries, wherever those entries stand; a missing
/// `args` gives no arguments and a missing `rebuild` no rebuild.
pub proof fn lemma_run_reads_entries(es: Seq<(Seq<char>, Seq<char>)>)
    requires
        distinct_keys(es),
    ensures
        (forall|k: int| 0 <= k < es.len() ==> es[k].0 != "target"@) ==> parse_run_entries(es)
            == Err::<RunView, ErrorView>(ErrorView::InvalidConfig { message: "Missing target section"@ }),
        (exists|k: int| 0 <= k < es.len() && es[k].0 == "target"@)
            && (exists|k: int| 0 <= k < es.len() && run_refuses(es[k])) ==> parse_run_entries(es) is Err,
        (exists|k: int| 0 <= k < es.len() && es[k].0 == "target"@)
            && (forall|k: int| 0 <= k < es.len() ==> !run_refuses(es[k])) ==> parse_run_entries(es) is Ok,
        parse_run_entries(es) is Ok ==> forall|k: int| 0 <= k < es.len() ==> {
            &&& (es[k].0 == "target"@ ==> (parse_run_entries(es)->Ok_0).target == es[k].1)
            &&& (es[k].0 == "args"@ ==> (parse_run_entries(es)->Ok_0).args == Some(es[k].1))
            &&& (es[k].0 == "rebuild"@ ==> (parse_run_entries(es)->Ok_0).rebuild
                == (es[k].1 == "true"@ || es[k].1 == "t"@))
        },
        parse_run_entries(es) is Ok && (forall|k: int| 0 <= k < es.len() ==> es[k].0 != "args"@)
            ==> (parse_run_entries(es)->Ok_0).args is None,
        parse_run_entries(es) is Ok && (forall|k: int| 0 <= k < es.len() ==> es[k].0 != "rebuild"@)
            ==> !(parse_run_entries(es)->Ok_0).rebuild,
{
    lemma_first_refused_none(es);
    if forall|k: int| 0 <= k < es.len() ==> es[k].0 != "target"@ {
        lemma_last_value_absent(es, "target"@);
    }
    if exists|k: int| 0 <= k < es.len() && es[k].0 == "target"@ {
        let t = choose|k: int| 0 <= k < es.len() && es[k].0 == "target"@;
        lemma_last_value_present(es, "target"@, t);
    }
    if exists|k: int| 0 <= k < es.len() && run_refuses(es[k]) {
        let k = choose|k: int| 0 <= k < es.len() && run_refuses(es[k]);
        assert(run_refuses(es[k]));
    }
    assert forall|k: int| 0 <= k < es.len() && parse_run_entries(es) is Ok implies {
        &&& (es[k].0 == "target"@ ==> (parse_run_entries(es)->Ok_0).target == es[k].1)
        &&& (es[k].0 == "args"@ ==> (parse_run_entries(es)->Ok_0).args == Some(es[k].1))
        &&& (es[k].0 == "rebuild"@ ==> (parse_run_entries(es)->Ok_0).rebuild
            == (es[k].1 == "true"@ || es[k].1 == "t"@))
    } by {
        lemma_last_value_at(es, k);
    }
    if forall|k: int| 0 <= k < es.len() ==> es[k].0 != "args"@ {
        lemma_last_value_absent(es, "args"@);
    }
    if forall|k: int| 0 <= k < es.len() ==> es[k].0 != "rebuild"@ {
        lemma_last_value_absent(es, "rebuild"@);
    }
}

/// Whether the entry value `v` holds a space.
fn has_space(v: &String) -> (res: bool)
    ensures
        res == v@.contains(' '),
{
    let chars = chars_of(v.as_str());
    contains_char(&chars, ' ')
}

/// Reads the `run` section of `conf`: the settings it gives, or the error for
/// a missing target or for the first target or rebuild value that holds a
/// space.
pub fn parse_run(conf: &Config) -> (res: Result<RunConfig, ConfigError>)
    requires
        conf.section_entries("run"@) is Some,
    ensures
        match res {
            Ok(r) => parse_run_entries(conf.section_entries("run"@)->0) == Ok::<RunView, ErrorView>(r@),
            Err(e) => parse_run_entries(conf.section_entries("run"@)->0) == Err::<RunView, ErrorView>(e@),
        },
{
    let section: &Section = match conf.get("run") {
        Some(s) => s,
        None => {
            assert(false);
            return Err(ConfigError::invalid_config("Missing run section"));
        },
    };
    run_from_entries(section.entries())
}

/// Reads the entries of a `run` section.
fn run_from_entries(entries: &Vec<Entry>) -> (res: Result<RunConfig, ConfigError>)
    ensures
        match res {
            Ok(r) => parse_run_entries(entry_pairs(entries@)) == Ok::<RunView, ErrorView>(r@),
            Err(e) => parse_run_entries(entry_pairs(entries@)) == Err::<RunView, ErrorView>(e@),
        },
{
    let ghost es = entry_pairs(entries@);
    let mut has_target = false;
    let mut i: usize = 0;
    assert(es.take(0) =~= Seq::<(Seq<char>, Seq<char>)>::empty());
    while i < entries.len()
        invariant
            es == entry_pairs(entries@),
            i <= entries.len(),
            has_target == (last_value(es.take(i as int), "target"@) is Some),
        decreases entries.len() - i,
    {
        assert(es.take(i + 1).drop_last() =~= es.take(i as int));
        assert(es.take(i + 1).last() == es[i as int]);
        if string_is(&entries[i].key, "target") {
            has_target = true;
        }
        i += 1;
    }
    assert(es.take(i as int) =~= es);
    if !has_target {
        return Err(ConfigError::invalid_config("Missing target section"));
    }
    let mut run_conf = RunConfig::default();
    let mut i: usize = 0;
    while i < entries.len()
        invariant
            es == entry_pairs(entries@),
            i <= entries.len(),
            last_value(es, "target"@) is Some,
            first_refused(es.take(i as int)) is None,
            run_conf@.target == (match last_value(es.take(i as int), "target"@) {
                Some(v) => v,
                None => Seq::<char>::empty(),
            }),
            run_conf@.args == last_value(es.take(i as int), "args"@),
            run_conf@.rebuild == rebuild_flag(last_value(es.take(i as int), "rebuild"@)),
        decreases entries.len() - i,
    {
        let e = &entries[i];
        proof {
            reveal_strlit("target");
            reveal_strlit("args");
            reveal_strlit("rebuild");
            assert("target"@ != "args"@ && "target"@ != "rebuild"@ && "args"@ != "rebuild"@) by {
                assert("target"@.len() != "args"@.len());
                assert("target"@.len() + 1 == "rebuild"@.len());
                assert("args"@.len() != "rebuild"@.len());
            }
        }
        assert(es.take(i + 1).drop_last() =~= es.take(i as int));
        assert(es.take(i + 1).last() == es[i as int]);
        assert(es[i as int] == (e.key@, e.value@));
        if string_is(&e.key, "target") {
            if has_space(&e.value) {
                proof {
                    assert(run_refuses(es.take(i + 1).last()));
                    assert(first_refused(es.take(i + 1)) == Some(i as int));
                    lemma_first_refused_prefix(es, i + 1);
                    assert(parse_run_entries(es) == Err::<RunView, ErrorView>(run_refusal("target"@)));
                }
                return Err(ConfigError::invalid_config("Only one target is supported at time"));
            }
            run_conf.target = e.value.clone();
        } else if string_is(&e.key, "args") {
            run_conf.args = Some(e.value.clone());
        } else if string_is(&e.key, "rebuild") {
            if has_space(&e.value) {
                proof {
                    assert(run_refuses(es.take(i + 1).last()));
                    assert(first_refused(es.take(i + 1)) == Some(i as int));
                    lemma_first_refused_prefix(es, i + 1);
                }
                return Err(ConfigError::invalid_config(
                    "Only one argument to rebuild is supported at time",
                ));
            }
            run_conf.rebuild = string_is(&e.value, "true") || string_is(&e.value, "t");
        }
        i += 1;
    }
    assert(es.take(i as int) =~= es);
    Ok(run_conf)
}


/// A key that the `run` section reads.
pub open spec fn run_known(k: Seq<char>) -> bool {
    k == "target"@ || k == "args"@ || k == "rebuild"@
}

/// The keys of `es` that the `run` section does not read, in order.
pub open spec fn unknown_run_keys(es: Seq<(Seq<char>, Seq<char>)>) -> Seq<Seq<char>>
    decreases es.len(),
{
    if es.len() == 0 {
        Seq::empty()
    } else {
        let r = unknown_run_keys(es.drop_last());
        if run_known(es.last().0) {
            r
        } else {
            r.push(es.last().0)
        }
    }
}

/// The unknown keys that reading the entries `es` of the `run` section meets
/// and warns of: none when the target is missing (reading stops before the
/// entries), otherwise those before the first refused entry, or all of them.
pub open spec fn run_warnings(es: Seq<(Seq<char>, Seq<char>)>) -> Seq<Seq<char>> {
    if last_value(es, "target"@) is None {
        Seq::empty()
    } else {
        match first_refused(es) {
            Some(i) => unknown_run_keys(es.take(i)),
            None => unknown_run_keys(es),
        }
    }
}

/// The unknown keys of the `run` section of `conf` that reading it meets, in
/// order, for the caller to warn of.
pub fn run_unknown_keys(conf: &Config) -> (res: Vec<String>)
    requires
        conf.section_entries("run"@) is Some,
    ensures
        string_views(res@) == run_warnings(conf.section_entries("run"@)->0),
{
    let section: &Section = match conf.get("run") {
        Some(s) => s,
        None => {
            assert(false);
            return Vec::new();
        },
    };
    let entries = section.entries();
    let ghost es = entry_pairs(entries@);
    let mut res: Vec<String> = Vec::new();
    let mut has_target = false;
    let mut i: usize = 0;
    assert(es.take(0) =~= Seq::<(Seq<char>, Seq<char>)>::empty());
    while i < entries.len()
        invariant
            es == entry_pairs(entries@),
            i <= entries.len(),
            has_target == (last_value(es.take(i as int), "target"@) is Some),
        decreases entries.len() - i,
    {
        assert(es.take(i + 1).drop_last() =~= es.take(i as int));
        assert(es.take(i + 1).last() == es[i as int]);
        if string_is(&entries[i].key, "target") {
            has_target = true;
        }
        i += 1;
    }
    assert(es.take(i as int) =~= es);
    if !has_target {
        assert(string_views(res@) =~= Seq::<Seq<char>>::empty());
        return res;
    }
    let mut i: usize = 0;
    assert(string_views(res@) =~= unknown_run_keys(es.take(0)));
    while i < entries.len()
        invariant
            es == entry_pairs(entries@),
            i <= entries.len(),
            es == conf.section_entries("run"@)->0,
            last_value(es, "target"@) is Some,
            first_refused(es.take(i as int)) is None,
            string_views(res@) == unknown_run_keys(es.take(i as int)),
        decreases entries.len() - i,
    {
        let e = &entries[i];
        assert(es.take(i + 1).drop_last() =~= es.take(i as int));
        assert(es.take(i + 1).last() == es[i as int]);
        assert(es[i as int] == (e.key@, e.value@));
        let target = string_is(&e.key, "target");
        let rebuild = string_is(&e.key, "rebuild");
        if (target || rebuild) && has_space(&e.value) {
            proof {
                assert(first_refused(es.take(i + 1)) == Some(i as int));
                lemma_first_refused_prefix(es, i + 1);
            }
            return res;
        }
        if !(target || rebuild || string_is(&e.key, "args")) {
            let ghost prev = res@;
            res.push(e.key.clone());
            assert(string_views(res@) =~= string_views(prev).push(e.key@));
        }
        i += 1;
    }
    assert(es.take(i as int) =~= es);
    res
}

/// A target written as a path, which is run as it is: it starts with `/` or
/// `\`, holds `:\`, or starts with `./` or `../`.
pub open spec fn is_path_target(t: Seq<char>) -> bool {
    ||| (t.len() > 0 && (t[0] == '/' || t[0] == '\\'))
    ||| has_infix(t, ":\\"@)
    ||| has_prefix(t, "./"@)
    ||| has_prefix(t, "../"@)
}

/// The program to start for target `t`: a path as it is, any other name in
/// the current directory (written `.\` on Windows and `./` elsewhere).
pub open spec fn run_program(t: Seq<char>, windows: bool) -> Seq<char> {
    if is_path_target(t) {
        t
    } else if windows {
        ".\\"@ + t
    } else {
        "./"@ + t
    }
}

/// The arguments to pass for the arguments text `args`: its
/// whitespace-separated words; none when there is no text.
pub open spec fn run_args(args: Option<Seq<char>>) -> Seq<Seq<char>> {
    match args {
        Some(a) => words(a),
        None => Seq::empty(),
    }
}

/// The program that runs the target of `run_conf`; `windows` tells whether
/// the host is Windows.
pub fn run_binary(run_conf: &RunConfig, windows: bool) -> (res: String)
    ensures
        res@ == run_program(run_conf@.target, windows),
{
    let t = chars_of(run_conf.target.as_str());
    let slash = t.len() > 0 && (t[0] == '/' || t[0] == '\\');
    let drive = chars_of(":\\");
    let here = chars_of("./");
    let up = chars_of("../");
    if slash || contains_chars(&t, &drive) || starts_with(&t, &here) || starts_with(&t, &up) {
        run_conf.target.clone()
    } else {
        let mut res = if windows { String::from_str(".\\") } else { String::from_str("./") };
        res.append(run_conf.target.as_str());
        res
    }
}

/// The arguments to pass to the target of `run_conf`: the whitespace-separated
/// words of its arguments text.
pub fn run_arguments(run_conf: &RunConfig) -> (res: Vec<String>)
    ensures
        string_views(res@) == run_args(run_conf@.args),
{
    match &run_conf.args {
        Some(a) => {
            let chars = chars_of(a.as_str());
            let ws = split_whitespace(&chars);
            strings_of(&ws)
        },
        None => {
            let res: Vec<String> = Vec::new();
            assert(string_views(res@) =~= Seq::<Seq<char>>::empty());
            res
        },
    }
}

/// `t` holds `:\` at position `i`.
pub open spec fn drive_mark_at(t: Seq<char>, i: int) -> bool {
    0 <= i && i + 1 < t.len() && t[i] == ':' && t[i + 1] == '\\'
}

/// Which targets are run as written: one that starts with `/` or `\`, with
/// `./` or `../`, or that holds `:\` somewhere, is run unchanged; any other is
/// looked up in the current directory, behind `./` (`.\` on Windows).
pub proof fn lemma_program_cases(t: Seq<char>, windows: bool)
    ensures
        t.len() > 0 && (t[0] == '/' || t[0] == '\\') ==> run_program(t, windows) == t,
        t.len() >= 2 && t[0] == '.' && t[1] == '/' ==> run_program(t, windows) == t,
        t.len() >= 3 && t[0] == '.' && t[1] == '.' && t[2] == '/' ==> run_program(t, windows) == t,
        (exists|i: int| drive_mark_at(t, i)) ==> run_program(t, windows) == t,
        !(t.len() > 0 && (t[0] == '/' || t[0] == '\\'))
            && !(t.len() >= 2 && t[0] == '.' && t[1] == '/')
            && !(t.len() >= 3 && t[0] == '.' && t[1] == '.' && t[2] == '/')
            && !(exists|i: int| drive_mark_at(t, i))
            ==> run_program(t, windows) == (if windows { seq!['.', '\\'] + t } else { seq!['.', '/'] + t }),
{
    reveal_strlit("./");
    reveal_strlit("../");
    reveal_strlit(":\\");
    reveal_strlit(".\\");
    assert(".\\"@ =~= seq!['.', '\\']);
    assert("./"@ =~= seq!['.', '/']);
    if t.len() >= 2 && t[0] == '.' && t[1] == '/' {
        assert(t.take(2) =~= "./"@);
    }
    if t.len() >= 3 && t[0] == '.' && t[1] == '.' && t[2] == '/' {
        assert(t.take(3) =~= "../"@);
    }
    if exists|i: int| drive_mark_at(t, i) {
        let i = choose|i: int| drive_mark_at(t, i);
        assert(t.subrange(i, i + 2) =~= ":\\"@);
    }
    if has_prefix(t, "./"@) {
        assert(t.take(2)[0] == t[0] && t.take(2)[1] == t[1]);
    }
    if has_prefix(t, "../"@) {
        assert(t.take(3)[0] == t[0] && t.take(3)[1] == t[1] && t.take(3)[2] == t[2]);
    }
    if has_infix(t, ":\\"@) {
        let i = choose|i: int| 0 <= i <= t.len() - ":\\"@.len() && #[trigger] t.subrange(i, i + ":\\"@.len()) == ":\\"@;
        assert(t.subrange(i, i + 2)[0] == t[i] && t.subrange(i, i + 2)[1] == t[i + 1]);
        assert(drive_mark_at(t, i));
    }
}

/// The program keeps the target's name at its end.
pub proof fn lemma_program_ends_with_target(t: Seq<char>, windows: bool)
    ensures
        has_suffix(run_program(t, windows), t),
{
    let p = run_program(t, windows);
    if is_path_target(t) {
        assert(p.skip(0) =~= t);
    } else if windows {
        assert(p.skip(p.len() - t.len()) =~= t);
    } else {
        assert(p.skip(p.len() - t.len()) =~= t);
    }
}

/// The characters of the pieces `ws`, one piece after the other.
pub open spec fn flatten(ws: Seq<Seq<char>>) -> Seq<char>
    decreases ws.len(),
{
    if ws.len() == 0 {
        Seq::empty()
    } else {
        flatten(ws.drop_last()) + ws.last()
    }
}

/// The characters of `s` that are not whitespace, in order.
pub open spec fn non_whitespace(s: Seq<char>) -> Seq<char>
    decreases s.len(),
{
    if s.len() == 0 {
        Seq::empty()
    } else if is_whitespace(s.last()) {
        non_whitespace(s.drop_last())
    } else {
        non_whitespace(s.drop_last()).push(s.last())
    }
}

/// No character is lost or added by splitting into arguments: the arguments,
/// put one after the other, are the characters of the text that are not
/// whitespace.
pub proof fn lemma_words_keep_every_character(s: Seq<char>)
    ensures
        flatten(words(s)) == non_whitespace(s),
    decreases s.len(),
{
    if s.len() > 0 {
        let init = s.drop_last();
        lemma_words_keep_every_character(init);
        let w = words(init);
        let c = s.last();
        if !is_whitespace(c) {
            if s.len() >= 2 && !is_whitespace(s[s.len() - 2]) {
                assert(init.last() == s[s.len() - 2]);
                lemma_words_last(init);
                let nw = w.update(w.len() - 1, w.last().push(c));
                assert(nw.drop_last() =~= w.drop_last());
                assert(flatten(nw) =~= flatten(w).push(c));
            } else {
                let nw = w.push(seq![c]);
                assert(nw.drop_last() =~= w);
                assert(flatten(nw) =~= flatten(w).push(c));
            }
        }
    }
}

/// No argument is empty or holds whitespace.
pub proof fn lemma_words_plain(s: Seq<char>)
    ensures
        forall|k: int| 0 <= k < words(s).len() ==> (#[trigger] words(s)[k]).len() > 0
            && forall|j: int| 0 <= j < words(s)[k].len() ==> !is_whitespace(words(s)[k][j]),
    decreases s.len(),
{
    if s.len() > 0 {
        lemma_words_plain(s.drop_last());
        let w = words(s.drop_last());
        let c = s.last();
        if !is_whitespace(c) {
            if s.len() >= 2 && !is_whitespace(s[s.len() - 2]) {
                lemma_words_last(s.drop_last());
                let nw = w.update(w.len() - 1, w.last().push(c));
                assert forall|k: int| 0 <= k < nw.len() implies (#[trigger] nw[k]).len() > 0
                    && forall|j: int| 0 <= j < nw[k].len() ==> !is_whitespace(nw[k][j]) by {
                    if k == w.len() - 1 {
                        assert forall|j: int| 0 <= j < nw[k].len() implies !is_whitespace(nw[k][j]) by {
                            if j < w.last().len() {
                                assert(nw[k][j] == w[k][j]);
                            }
                        }
                    } else {
                        assert(nw[k] == w[k]);
                    }
                }
            } else {
                let nw = w.push(seq![c]);
                assert forall|k: int| 0 <= k < nw.len() implies (#[trigger] nw[k]).len() > 0
                    && forall|j: int| 0 <= j < nw[k].len() ==> !is_whitespace(nw[k][j]) by {
                    if k < w.len() {
                        assert(nw[k] == w[k]);
                    }
                }
            }
        }
    }
}

/// A text that ends with a non-whitespace character has words.
proof fn lemma_words_last(s: Seq<char>)
    requires
        s.len() > 0,
        !is_whitespace(s.last()),
    ensures
        words(s).len() > 0,
    decreases s.len(),
{
    if s.len() >= 2 && !is_whitespace(s[s.len() - 2]) {
        assert(s.drop_last().last() == s[s.len() - 2]);
        lemma_words_last(s.drop_last());
    }
}

} // verus!
