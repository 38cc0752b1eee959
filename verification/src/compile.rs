//! The `build` section: compiler, flags, sources and target, and the command
//! lines that compile each source and link the objects.
use vstd::prelude::*;

use crate::cache::{cache_get_obj_path, obj_path};
use crate::config::{distinct_keys, entry_pairs, Config, Entry, Section};
use crate::error::{ConfigError, ErrorView};
use crate::run::{last_value, lemma_last_value_absent, lemma_last_value_at, lemma_last_value_present};
use crate::text::{
    chars_equal, chars_of, contains_char, decimal, decimal_chars, ends_with, has_prefix, has_suffix,
    last_index, last_index_of, lemma_last_index_of, push_chars, replace_backslashes, replace_char,
    split_whitespace, starts_with, string_is, string_of, string_views, strings_of, take_chars, trim_start,
    trim_start_char, words,
};

verus! {

/// The settings of the `build` section.
#[derive(Debug)]
pub struct BuildConfig {
    compiler: String,
    flags: Option<Vec<String>>,
    pub src: Vec<String>,
    header_dirs: Option<Vec<String>>,
    lflags: Option<Vec<String>>,
    lpaths: Option<Vec<String>>,
    target: String,
}

/// A `BuildConfig` with its strings as character sequences.
pub struct BuildView {
    pub compiler: Seq<char>,
    pub flags: Option<Seq<Seq<char>>>,
    pub src: Seq<Seq<char>>,
    pub header_dirs: Option<Seq<Seq<char>>>,
    pub lflags: Option<Seq<Seq<char>>>,
    pub lpaths: Option<Seq<Seq<char>>>,
    pub target: Seq<char>,
}

/// The views of an optional list of strings.
pub open spec fn opt_views(o: Option<Vec<String>>) -> Option<Seq<Seq<char>>> {
    match o {
        Some(v) => Some(string_views(v@)),
        None => None,
    }
}

/// An optional list, with none read as empty.
pub open spec fn or_empty(o: Option<Seq<Seq<char>>>) -> Seq<Seq<char>> {
    match o {
        Some(v) => v,
        None => Seq::empty(),
    }
}

impl View for BuildConfig {
    type V = BuildView;

    closed spec fn view(&self) -> BuildView {
        BuildView {
            compiler: self.compiler@,
            flags: opt_views(self.flags),
            src: string_views(self.src@),
            header_dirs: opt_views(self.header_dirs),
            lflags: opt_views(self.lflags),
            lpaths: opt_views(self.lpaths),
            target: self.target@,
        }
    }
}

impl BuildConfig {
    /// The compiler to run.
    pub fn compiler(&self) -> (res: &String)
        ensures
            res@ == self@.compiler,
    {
        &self.compiler
    }

    /// The output to link.
    pub fn target(&self) -> (res: &String)
        ensures
            res@ == self@.target,
    {
        &self.target
    }

    /// The compile flags, if the section gave any.
    pub fn flags(&self) -> (res: &Option<Vec<String>>)
        ensures
            opt_views(*res) == self@.flags,
    {
        &self.flags
    }

    /// The header directories (passed with `-I`), if the section gave any.
    pub fn header_dirs(&self) -> (res: &Option<Vec<String>>)
        ensures
            opt_views(*res) == self@.header_dirs,
    {
        &self.header_dirs
    }

    /// The libraries to link, if the section gave any.
    pub fn lflags(&self) -> (res: &Option<Vec<String>>)
        ensures
            opt_views(*res) == self@.lflags,
    {
        &self.lflags
    }

    /// The library directories, if the section gave any.
    pub fn lpaths(&self) -> (res: &Option<Vec<String>>)
        ensures
            opt_views(*res) == self@.lpaths,
    {
        &self.lpaths
    }
}

/// The key of the header directories, spelt out.
pub open spec fn header_key() -> Seq<char> {
    seq!['i', 'n', 'c', 'l', 'u', 'd', 'e']
}

/// Whether `k` is the key of the header directories.
fn is_header_key(k: &String) -> (res: bool)
    ensures
        res == (k@ == header_key()),
{
    let chars = chars_of(k.as_str());
    let key: Vec<char> = vec!['i', 'n', 'c', 'l', 'u', 'd', 'e'];
    assert(key@ =~= header_key());
    chars_equal(&chars, &key)
}

/// The words of all entries of `es` with key `k`, in order; none when there
/// is no such entry.
pub open spec fn collected(es: Seq<(Seq<char>, Seq<char>)>, k: Seq<char>) -> Option<Seq<Seq<char>>>
    decreases es.len(),
{
    if es.len() == 0 {
        None
    } else {
        let r = collected(es.drop_last(), k);
        if es.last().0 == k {
            Some(or_empty(r) + words(es.last().1))
        } else {
            r
        }
    }
}

/// An entry that the `build` section refuses: a compiler or a target value
/// that holds a space.
pub open spec fn build_refuses(e: (Seq<char>, Seq<char>)) -> bool {
    (e.0 == "compiler"@ || e.0 == "target"@) && e.1.contains(' ')
}

/// The position of the first refused entry of `es`, if any.
pub open spec fn first_build_refused(es: Seq<(Seq<char>, Seq<char>)>) -> Option<int>
    decreases es.len(),
{
    if es.len() == 0 {
        None
    } else {
        match first_build_refused(es.drop_last()) {
            Some(i) => Some(i),
            None => if build_refuses(es.last()) { Some(es.len() - 1) } else { None },
        }
    }
}

/// The error for a refused entry of key `k`.
pub open spec fn build_refusal(k: Seq<char>) -> ErrorView {
    if k == "compiler"@ {
        ErrorView::InvalidConfig { message: "Only one compiler is supported at time"@ }
    } else {
        ErrorView::InvalidConfig { message: "Only one target is supported at time"@ }
    }
}

/// The settings that the entries `es` of the `build` section give: a
/// compiler and sources are required; the first refused entry is an error;
/// otherwise the compiler and target are the last values of their keys, and
/// the sources, flags, header_dirs directories, libraries and library
/// directories are the words of all values of their keys, in order. Keys
/// other than these are passed over.
pub open spec fn parse_build_entries(es: Seq<(Seq<char>, Seq<char>)>) -> Result<BuildView, ErrorView> {
    if last_value(es, "compiler"@) is None || last_value(es, "src"@) is None {
        Err(ErrorView::InvalidConfig {
            message: "Missing 'compiler' and/or 'src' key/value to execute build"@,
        })
    } else {
        match first_build_refused(es) {
            Some(i) => Err(build_refusal(es[i].0)),
            None => Ok(BuildView {
                compiler: last_value(es, "compiler"@)->0,
                flags: collected(es, "flags"@),
                src: or_empty(collected(es, "src"@)),
                header_dirs: collected(es, header_key()),
                lflags: collected(es, "lflags"@),
                lpaths: collected(es, "lpaths"@),
                target: match last_value(es, "target"@) {
                    Some(t) => t,
                    None => Seq::<char>::empty(),
                },
            }),
        }
    }
}

/// Once a prefix holds a refused entry, the first refused entry of the whole
/// is that of the prefix.
proof fn lemma_first_build_refused_prefix(es: Seq<(Seq<char>, Seq<char>)>, j: int)
    requires
        0 <= j <= es.len(),
        first_build_refused(es.take(j)) is Some,
    ensures
        first_build_refused(es) == first_build_refused(es.take(j)),
    decreases es.len(),
{
    if j == es.len() {
        assert(es.take(j) =~= es);
    } else {
        assert(es.drop_last().take(j) =~= es.take(j));
        lemma_first_build_refused_prefix(es.drop_last(), j);
    }
}

/// The words of `value` appended to the list `list`, which is created where
/// it was missing.
fn add_words(list: Option<Vec<String>>, value: &String) -> (res: Option<Vec<String>>)
    ensures
        opt_views(res) == Some(or_empty(opt_views(list)) + words(value@)),
{
    let mut v = match list {
        Some(v) => v,
        None => Vec::new(),
    };
    let ghost before = string_views(v@);
    assert(before == or_empty(opt_views(list)));
    let chars = chars_of(value.as_str());
    let ws = strings_of(&split_whitespace(&chars));
    let mut i: usize = 0;
    while i < ws.len()
        invariant
            i <= ws.len(),
            string_views(ws@) == words(value@),
            string_views(v@) == before + string_views(ws@).take(i as int),
        decreases ws.len() - i,
    {
        let ghost prev = v@;
        v.push(ws[i].clone());
        assert(string_views(v@) =~= string_views(prev).push(ws@[i as int]@));
        assert(string_views(ws@).take(i + 1) =~= string_views(ws@).take(i as int).push(ws@[i as int]@));
        i += 1;
        assert(string_views(v@) =~= before + string_views(ws@).take(i as int));
    }
    assert(string_views(ws@).take(i as int) =~= string_views(ws@));
    Some(v)
}

/// Among entries with distinct keys, the words collected for a key are the
/// words of its entry.
pub proof fn lemma_collected_at(es: Seq<(Seq<char>, Seq<char>)>, k: int)
    requires
        distinct_keys(es),
        0 <= k < es.len(),
    ensures
        collected(es, es[k].0) == Some(words(es[k].1)),
    decreases es.len(),
{
    let init = es.drop_last();
    if k < es.len() - 1 {
        assert(distinct_keys(init)) by {
            assert forall|i: int, j: int| 0 <= i < j < init.len() implies init[i].0 != init[j].0 by {
                assert(init[i] == es[i] && init[j] == es[j]);
            }
        }
        assert(init[k] == es[k]);
        lemma_collected_at(init, k);
        assert(es.last().0 != es[k].0);
    } else {
        assert forall|j: int| 0 <= j < init.len() implies init[j].0 != es[k].0 by {
            assert(init[j] == es[j]);
        }
        lemma_collected_absent(init, es[k].0);
        assert(Seq::<Seq<char>>::empty() + words(es[k].1) =~= words(es[k].1));
    }
}

/// A key that no entry holds collects nothing.
pub proof fn lemma_collected_absent(es: Seq<(Seq<char>, Seq<char>)>, key: Seq<char>)
    requires
        forall|k: int| 0 <= k < es.len() ==> es[k].0 != key,
    ensures
        collected(es, key) is None,
    decreases es.len(),
{
    if es.len() > 0 {
        let init = es.drop_last();
        assert forall|k: int| 0 <= k < init.len() implies init[k].0 != key by {
            assert(init[k] == es[k]);
        }
        lemma_collected_absent(init, key);
        assert(es[es.len() - 1] == es.last());
    }
}

/// There is no first refused entry exactly when no entry is refused.
pub proof fn lemma_first_build_refused_none(es: Seq<(Seq<char>, Seq<char>)>)
    ensures
        first_build_refused(es) is None <==> forall|k: int| 0 <= k < es.len() ==> !build_refuses(#[trigger] es[k]),
    decreases es.len(),
{
    if es.len() > 0 {
        let init = es.drop_last();
        lemma_first_build_refused_none(init);
        assert(forall|k: int| 0 <= k < init.len() ==> #[trigger] es[k] == init[k]);
        if first_build_refused(es) is Some {
            if first_build_refused(init) is Some {
                let k = choose|k: int| 0 <= k < init.len() && build_refuses(#[trigger] init[k]);
                assert(build_refuses(es[k]));
            } else {
                assert(build_refuses(es[es.len() - 1]));
            }
        }
    }
}

/// Some entry holds the key `key`.
pub open spec fn has_entry(es: Seq<(Seq<char>, Seq<char>)>, key: Seq<char>) -> bool {
    exists|k: int| 0 <= k < es.len() && es[k].0 == key
}

/// The `build` section is read as a map: with distinct keys, a missing
/// compiler or missing sources are an error; a refused compiler or target
/// value is an error; otherwise reading succeeds, the compiler and target are
/// the values of their entries, and the sources, flags, header directories,
/// libraries and library directories are the words of their entries,
/// wherever those entries stand; a missing list is absent (the sources are
/// required) and a missing target is empty.
pub proof fn lemma_build_reads_entries(es: Seq<(Seq<char>, Seq<char>)>)
    requires
        distinct_keys(es),
    ensures
        !has_entry(es, "compiler"@) || !has_entry(es, "src"@) ==> parse_build_entries(es)
            == Err::<BuildView, ErrorView>(ErrorView::InvalidConfig {
                message: "Missing 'compiler' and/or 'src' key/value to execute build"@,
            }),
        has_entry(es, "compiler"@) && has_entry(es, "src"@)
            && (exists|k: int| 0 <= k < es.len() && build_refuses(es[k])) ==> parse_build_entries(es) is Err,
        has_entry(es, "compiler"@) && has_entry(es, "src"@)
            && (forall|k: int| 0 <= k < es.len() ==> !build_refuses(es[k])) ==> parse_build_entries(es) is Ok,
        parse_build_entries(es) is Ok ==> forall|k: int| #![trigger es[k]] 0 <= k < es.len() ==> {
            let b = parse_build_entries(es)->Ok_0;
            &&& (es[k].0 == "compiler"@ ==> b.compiler == es[k].1)
            &&& (es[k].0 == "target"@ ==> b.target == es[k].1)
            &&& (es[k].0 == "src"@ ==> b.src == words(es[k].1))
            &&& (es[k].0 == "flags"@ ==> b.flags == Some(words(es[k].1)))
            &&& (es[k].0 == header_key() ==> b.header_dirs == Some(words(es[k].1)))
            &&& (es[k].0 == "lflags"@ ==> b.lflags == Some(words(es[k].1)))
            &&& (es[k].0 == "lpaths"@ ==> b.lpaths == Some(words(es[k].1)))
        },
        parse_build_entries(es) is Ok ==> {
            let b = parse_build_entries(es)->Ok_0;
            &&& (!has_entry(es, "target"@) ==> b.target == Seq::<char>::empty())
            &&& (!has_entry(es, "flags"@) ==> b.flags is None)
            &&& (!has_entry(es, header_key()) ==> b.header_dirs is None)
            &&& (!has_entry(es, "lflags"@) ==> b.lflags is None)
            &&& (!has_entry(es, "lpaths"@) ==> b.lpaths is None)
        },
{
    lemma_first_build_refused_none(es);
    if !has_entry(es, "compiler"@) {
        lemma_last_value_absent(es, "compiler"@);
    } else {
        let k = choose|k: int| 0 <= k < es.len() && es[k].0 == "compiler"@;
        lemma_last_value_present(es, "compiler"@, k);
    }
    if !has_entry(es, "src"@) {
        lemma_last_value_absent(es, "src"@);
    } else {
        let k = choose|k: int| 0 <= k < es.len() && es[k].0 == "src"@;
        lemma_last_value_present(es, "src"@, k);
    }
    if exists|k: int| 0 <= k < es.len() && build_refuses(es[k]) {
        let k = choose|k: int| 0 <= k < es.len() && build_refuses(es[k]);
        assert(build_refuses(es[k]));
    }
    assert forall|k: int| #![trigger es[k]] 0 <= k < es.len() && parse_build_entries(es) is Ok implies {
        let b = parse_build_entries(es)->Ok_0;
        &&& (es[k].0 == "compiler"@ ==> b.compiler == es[k].1)
        &&& (es[k].0 == "target"@ ==> b.target == es[k].1)
        &&& (es[k].0 == "src"@ ==> b.src == words(es[k].1))
        &&& (es[k].0 == "flags"@ ==> b.flags == Some(words(es[k].1)))
        &&& (es[k].0 == header_key() ==> b.header_dirs == Some(words(es[k].1)))
        &&& (es[k].0 == "lflags"@ ==> b.lflags == Some(words(es[k].1)))
        &&& (es[k].0 == "lpaths"@ ==> b.lpaths == Some(words(es[k].1)))
    } by {
        lemma_last_value_at(es, k);
        lemma_collected_at(es, k);
    }
    if !has_entry(es, "target"@) {
        lemma_last_value_absent(es, "target"@);
    }
    if !has_entry(es, "flags"@) {
        lemma_collected_absent(es, "flags"@);
    }
    if !has_entry(es, header_key()) {
        lemma_collected_absent(es, header_key());
    }
    if !has_entry(es, "lflags"@) {
        lemma_collected_absent(es, "lflags"@);
    }
    if !has_entry(es, "lpaths"@) {
        lemma_collected_absent(es, "lpaths"@);
    }
}

/// Whether the entry value `v` holds a space.
fn has_space(v: &String) -> (res: bool)
    ensures
        res == v@.contains(' '),
{
    let chars = chars_of(v.as_str());
    contains_char(&chars, ' ')
}

/// Reads the `build` section of `conf`: the settings it gives, or the error
/// for a missing compiler or sources, or for the first compiler or target
/// value that holds a space. The sources are as written; see
/// `finish_sources` for their expansion.
pub fn parse_build(conf: &Config) -> (res: Result<BuildConfig, ConfigError>)
    requires
        conf.section_entries("build"@) is Some,
    ensures
        match res {
            Ok(b) => parse_build_entries(conf.section_entries("build"@)->0) == Ok::<BuildView, ErrorView>(b@),
            Err(e) => parse_build_entries(conf.section_entries("build"@)->0) == Err::<BuildView, ErrorView>(e@),
        },
{
    let section: &Section = match conf.get("build") {
        Some(s) => s,
        None => {
            assert(false);
            return Err(ConfigError::invalid_config("Missing build section"));
        },
    };
    build_from_entries(section.entries())
}

/// Whether the key `k` is present among the entries.
fn has_key(entries: &Vec<Entry>, k: &str) -> (res: bool)
    ensures
        res == (last_value(entry_pairs(entries@), k@) is Some),
{
    let ghost es = entry_pairs(entries@);
    let mut found = false;
    let mut i: usize = 0;
    assert(es.take(0) =~= Seq::<(Seq<char>, Seq<char>)>::empty());
    while i < entries.len()
        invariant
            es == entry_pairs(entries@),
            i <= entries.len(),
            found == (last_value(es.take(i as int), k@) is Some),
        decreases entries.len() - i,
    {
        assert(es.take(i + 1).drop_last() =~= es.take(i as int));
        assert(es.take(i + 1).last() == es[i as int]);
        if string_is(&entries[i].key, k) {
            found = true;
        }
        i += 1;
    }
    assert(es.take(i as int) =~= es);
    found
}

/// Reads the entries of a `build` section.
fn build_from_entries(entries: &Vec<Entry>) -> (res: Result<BuildConfig, ConfigError>)
    ensures
        match res {
            Ok(b) => parse_build_entries(entry_pairs(entries@)) == Ok::<BuildView, ErrorView>(b@),
            Err(e) => parse_build_entries(entry_pairs(entries@)) == Err::<BuildView, ErrorView>(e@),
        },
{
    let ghost es = entry_pairs(entries@);
    if !has_key(entries, "compiler") || !has_key(entries, "src") {
        return Err(ConfigError::invalid_config(
            "Missing 'compiler' and/or 'src' key/value to execute build",
        ));
    }
    let mut compiler = String::new();
    let mut flags: Option<Vec<String>> = None;
    let mut src: Option<Vec<String>> = None;
    let mut header_dirs: Option<Vec<String>> = None;
    let mut lflags: Option<Vec<String>> = None;
    let mut lpaths: Option<Vec<String>> = None;
    let mut target = String::new();
    let mut i: usize = 0;
    assert(es.take(0) =~= Seq::<(Seq<char>, Seq<char>)>::empty());
    while i < entries.len()
        invariant
            es == entry_pairs(entries@),
            i <= entries.len(),
            last_value(es, "compiler"@) is Some,
            last_value(es, "src"@) is Some,
            first_build_refused(es.take(i as int)) is None,
            compiler@ == (match last_value(es.take(i as int), "compiler"@) {
                Some(v) => v,
                None => Seq::<char>::empty(),
            }),
            target@ == (match last_value(es.take(i as int), "target"@) {
                Some(v) => v,
                None => Seq::<char>::empty(),
            }),
            opt_views(flags) == collected(es.take(i as int), "flags"@),
            opt_views(src) == collected(es.take(i as int), "src"@),
            opt_views(header_dirs) == collected(es.take(i as int), header_key()),
            opt_views(lflags) == collected(es.take(i as int), "lflags"@),
            opt_views(lpaths) == collected(es.take(i as int), "lpaths"@),
        decreases entries.len() - i,
    {
        let e = &entries[i];
        proof {
            reveal_strlit("compiler");
            reveal_strlit("flags");
            reveal_strlit("src");
                        reveal_strlit("lflags");
            reveal_strlit("lpaths");
            reveal_strlit("target");
            assert("compiler"@ != "flags"@ && "compiler"@ != "src"@ && "compiler"@ != header_key()
                && "compiler"@ != "lflags"@ && "compiler"@ != "lpaths"@ && "compiler"@ != "target"@
                && "flags"@ != "src"@ && "flags"@ != header_key() && "flags"@ != "lflags"@
                && "flags"@ != "lpaths"@ && "flags"@ != "target"@ && "src"@ != header_key()
                && "src"@ != "lflags"@ && "src"@ != "lpaths"@ && "src"@ != "target"@
                && header_key() != "lflags"@ && header_key() != "lpaths"@ && header_key() != "target"@
                && "lflags"@ != "lpaths"@ && "lflags"@ != "target"@ && "lpaths"@ != "target"@) by {
                assert("compiler"@[0] != "flags"@[0]);
                assert("compiler"@[0] != "src"@[0]);
                assert("compiler"@[0] != header_key()[0]);
                assert("compiler"@[0] != "lflags"@[0]);
                assert("compiler"@[0] != "lpaths"@[0]);
                assert("compiler"@[0] != "target"@[0]);
                assert("flags"@[0] != "src"@[0]);
                assert("flags"@[0] != header_key()[0]);
                assert("flags"@[0] != "lflags"@[0]);
                assert("flags"@[0] != "lpaths"@[0]);
                assert("flags"@[0] != "target"@[0]);
                assert("src"@[0] != header_key()[0]);
                assert("src"@[0] != "lflags"@[0]);
                assert("src"@[0] != "lpaths"@[0]);
                assert("src"@[0] != "target"@[0]);
                assert(header_key()[0] != "lflags"@[0]);
                assert(header_key()[0] != "lpaths"@[0]);
                assert(header_key()[0] != "target"@[0]);
                assert("lflags"@[1] != "lpaths"@[1]);
                assert("lflags"@[0] != "target"@[0]);
                assert("lpaths"@[0] != "target"@[0]);
            }
        }
        assert(es.take(i + 1).drop_last() =~= es.take(i as int));
        assert(es.take(i + 1).last() == es[i as int]);
        assert(es[i as int] == (e.key@, e.value@));
        if string_is(&e.key, "compiler") {
            if has_space(&e.value) {
                proof {
                    assert(first_build_refused(es.take(i + 1)) == Some(i as int));
                    lemma_first_build_refused_prefix(es, i + 1);
                }
                return Err(ConfigError::invalid_config("Only one compiler is supported at time"));
            }
            compiler = e.value.clone();
        } else if string_is(&e.key, "flags") {
            flags = add_words(flags, &e.value);
        } else if string_is(&e.key, "src") {
            src = add_words(src, &e.value);
        } else if is_header_key(&e.key) {
            header_dirs = add_words(header_dirs, &e.value);
        } else if string_is(&e.key, "lflags") {
            lflags = add_words(lflags, &e.value);
        } else if string_is(&e.key, "lpaths") {
            lpaths = add_words(lpaths, &e.value);
        } else if string_is(&e.key, "target") {
            if has_space(&e.value) {
                proof {
                    assert(first_build_refused(es.take(i + 1)) == Some(i as int));
                    lemma_first_build_refused_prefix(es, i + 1);
                }
                return Err(ConfigError::invalid_config("Only one target is supported at time"));
            }
            target = e.value.clone();
        }
        i += 1;
    }
    assert(es.take(i as int) =~= es);
    let src = match src {
        Some(v) => v,
        None => {
            let v: Vec<String> = Vec::new();
            assert(string_views(v@) =~= Seq::<Seq<char>>::empty());
            v
        },
    };
    Ok(BuildConfig { compiler, flags, src, header_dirs, lflags, lpaths, target })
}


/// A key that the `build` section reads.
pub open spec fn build_known(k: Seq<char>) -> bool {
    k == "compiler"@ || k == "flags"@ || k == "src"@ || k == header_key() || k == "lflags"@
        || k == "lpaths"@ || k == "target"@
}

/// The keys of `es` that the `build` section does not read, in order.
pub open spec fn unknown_build_keys(es: Seq<(Seq<char>, Seq<char>)>) -> Seq<Seq<char>>
    decreases es.len(),
{
    if es.len() == 0 {
        Seq::empty()
    } else {
        let r = unknown_build_keys(es.drop_last());
        if build_known(es.last().0) {
            r
        } else {
            r.push(es.last().0)
        }
    }
}

/// The unknown keys that reading the entries `es` of the `build` section
/// meets and warns of: none when the compiler or the sources are missing
/// (reading stops before the entries), otherwise those before the first
/// refused entry, or all of them.
pub open spec fn build_warnings(es: Seq<(Seq<char>, Seq<char>)>) -> Seq<Seq<char>> {
    if last_value(es, "compiler"@) is None || last_value(es, "src"@) is None {
        Seq::empty()
    } else {
        match first_build_refused(es) {
            Some(i) => unknown_build_keys(es.take(i)),
            None => unknown_build_keys(es),
        }
    }
}

/// The unknown keys of the `build` section of `conf` that reading it meets,
/// in order, for the caller to warn of.
pub fn build_unknown_keys(conf: &Config) -> (res: Vec<String>)
    requires
        conf.section_entries("build"@) is Some,
    ensures
        string_views(res@) == build_warnings(conf.section_entries("build"@)->0),
{
    let section: &Section = match conf.get("build") {
        Some(s) => s,
        None => {
            assert(false);
            return Vec::new();
        },
    };
    let entries = section.entries();
    let ghost es = entry_pairs(entries@);
    let mut res: Vec<String> = Vec::new();
    if !has_key(entries, "compiler") || !has_key(entries, "src") {
        assert(string_views(res@) =~= Seq::<Seq<char>>::empty());
        return res;
    }
    let mut i: usize = 0;
    assert(es.take(0) =~= Seq::<(Seq<char>, Seq<char>)>::empty());
    assert(string_views(res@) =~= unknown_build_keys(es.take(0)));
    while i < entries.len()
        invariant
            es == entry_pairs(entries@),
            es == conf.section_entries("build"@)->0,
            i <= entries.len(),
            last_value(es, "compiler"@) is Some,
            last_value(es, "src"@) is Some,
            first_build_refused(es.take(i as int)) is None,
            string_views(res@) == unknown_build_keys(es.take(i as int)),
        decreases entries.len() - i,
    {
        let e = &entries[i];
        assert(es.take(i + 1).drop_last() =~= es.take(i as int));
        assert(es.take(i + 1).last() == es[i as int]);
        assert(es[i as int] == (e.key@, e.value@));
        let compiler = string_is(&e.key, "compiler");
        let target = string_is(&e.key, "target");
        if (compiler || target) && has_space(&e.value) {
            proof {
                assert(first_build_refused(es.take(i + 1)) == Some(i as int));
                lemma_first_build_refused_prefix(es, i + 1);
            }
            return res;
        }
        let known = compiler || target || string_is(&e.key, "flags") || string_is(&e.key, "src")
            || is_header_key(&e.key) || string_is(&e.key, "lflags") || string_is(&e.key, "lpaths");
        if !known {
            let ghost prev = res@;
            res.push(e.key.clone());
            assert(string_views(res@) =~= string_views(prev).push(e.key@));
        }
        i += 1;
    }
    assert(es.take(i as int) =~= es);
    res
}

// ---------------------------------------------------------------------------
// Sources
// ---------------------------------------------------------------------------

/// Where a source pattern with `*` looks, and the extension it keeps: the
/// part before the last `/` (the current directory `.` when there is none)
/// and the part after the last `.` (`cpp` when there is none). A source
/// without `*` is no pattern.
pub open spec fn glob_spec(s: Seq<char>) -> Option<(Seq<char>, Seq<char>)> {
    if !s.contains('*') {
        None
    } else {
        let folder = match last_index_of(s, '/') {
            Some(k) => s.take(k),
            None => "."@,
        };
        let ext = match last_index_of(s, '.') {
            Some(k) => s.skip(k + 1),
            None => "cpp"@,
        };
        Some((folder, ext))
    }
}

/// Where a pattern looks and what it keeps: a source is a pattern exactly
/// when it holds `*`. The folder of a pattern with a `/` is all that comes
/// before its last `/` (no `/` follows), and `.` for one without; the
/// extension of a pattern with a `.` is all that comes after its last `.`
/// (it holds no `.`), and `cpp` for one without.
pub proof fn lemma_glob_folder_and_extension(s: Seq<char>)
    ensures
        glob_spec(s) is Some <==> s.contains('*'),
        glob_spec(s) is Some && s.contains('/') ==> {
            let f = (glob_spec(s)->0).0;
            &&& f.len() < s.len()
            &&& f == s.take(f.len() as int)
            &&& s[f.len() as int] == '/'
            &&& !s.skip(f.len() as int + 1).contains('/')
        },
        glob_spec(s) is Some && !s.contains('/') ==> (glob_spec(s)->0).0 == "."@,
        glob_spec(s) is Some && s.contains('.') ==> {
            let e = (glob_spec(s)->0).1;
            &&& e.len() < s.len()
            &&& s.skip(s.len() - e.len()) == e
            &&& s[s.len() - e.len() - 1] == '.'
            &&& !e.contains('.')
        },
        glob_spec(s) is Some && !s.contains('.') ==> (glob_spec(s)->0).1 == "cpp"@,
{
    lemma_last_index_of(s, '/');
    lemma_last_index_of(s, '.');
    if s.contains('*') {
        if let Some(k) = last_index_of(s, '/') {
            let rest = s.skip(k + 1);
            assert(!rest.contains('/')) by {
                if rest.contains('/') {
                    let j = choose|j: int| 0 <= j < rest.len() && rest[j] == '/';
                    assert(s[k + 1 + j] == '/');
                }
            }
            assert(s.take(k).len() == k);
            assert(s.take(k) =~= s.take(k));
        }
        if let Some(k) = last_index_of(s, '.') {
            let e = s.skip(k + 1);
            assert(!e.contains('.')) by {
                if e.contains('.') {
                    let j = choose|j: int| 0 <= j < e.len() && e[j] == '.';
                    assert(s[k + 1 + j] == '.');
                }
            }
            assert(s.len() - e.len() == k + 1);
        }
    }
}

/// The directory to list and the extension to keep for the source pattern
/// `s`; none when `s` is a plain source.
pub fn glob_pattern(s: &String) -> (res: Option<(String, String)>)
    ensures
        match res {
            Some((f, e)) => glob_spec(s@) == Some((f@, e@)),
            None => glob_spec(s@) == None::<(Seq<char>, Seq<char>)>,
        },
{
    let chars = chars_of(s.as_str());
    if !contains_char(&chars, '*') {
        return None;
    }
    let folder = match last_index(&chars, '/') {
        Some(k) => string_of(&take_chars(&chars, k)),
        None => String::from_str("."),
    };
    let ext = match last_index(&chars, '.') {
        Some(k) => {
            let mut rest: Vec<char> = Vec::new();
            let mut j: usize = k + 1;
            while j < chars.len()
                invariant
                    k < chars.len(),
                    k + 1 <= j <= chars.len(),
                    rest@ == chars@.subrange(k + 1, j as int),
                decreases chars.len() - j,
            {
                rest.push(chars[j]);
                j += 1;
                assert(rest@ =~= chars@.subrange(k + 1, j as int));
            }
            assert(rest@ =~= chars@.skip(k + 1));
            string_of(&rest)
        },
        None => String::from_str("cpp"),
    };
    Some((folder, ext))
}

/// A character that separates the parts of a path: `/`, and on Windows also
/// `\`.
pub open spec fn is_separator(c: char, windows: bool) -> bool {
    c == '/' || (windows && c == '\\')
}

/// The last part of the path `p`: what follows its last separator.
pub open spec fn file_name_of(p: Seq<char>, windows: bool) -> Seq<char>
    decreases p.len(),
{
    if p.len() == 0 {
        Seq::empty()
    } else if is_separator(p.last(), windows) {
        Seq::empty()
    } else {
        file_name_of(p.drop_last(), windows).push(p.last())
    }
}

/// The extension of a file name, as `Path::extension` gives it: what follows
/// the last `.`; none when there is no `.`, when the only `.` begins the name,
/// and for the name `..`.
pub open spec fn extension_of(name: Seq<char>) -> Option<Seq<char>> {
    if name == ".."@ {
        None
    } else {
        match last_index_of(name, '.') {
            Some(k) => if k == 0 { None } else { Some(name.skip(k + 1)) },
            None => None,
        }
    }
}

/// The paths of `ps`, in order, whose file name has the extension `ext`.
pub open spec fn with_extension(ps: Seq<Seq<char>>, ext: Seq<char>, windows: bool) -> Seq<Seq<char>>
    decreases ps.len(),
{
    if ps.len() == 0 {
        Seq::empty()
    } else {
        let r = with_extension(ps.drop_last(), ext, windows);
        if extension_of(file_name_of(ps.last(), windows)) == Some(ext) {
            r.push(ps.last())
        } else {
            r
        }
    }
}

/// The file name is the end of the path after its last separator: it holds
/// no separator, and what comes before it is empty or ends with a separator.
pub proof fn lemma_file_name(p: Seq<char>, windows: bool)
    ensures
        ({
            let f = file_name_of(p, windows);
            &&& f.len() <= p.len()
            &&& p.skip(p.len() - f.len()) == f
            &&& forall|j: int| 0 <= j < f.len() ==> !is_separator(#[trigger] f[j], windows)
            &&& (f.len() < p.len() ==> is_separator(p[p.len() - f.len() - 1], windows))
        }),
    decreases p.len(),
{
    if p.len() > 0 {
        let init = p.drop_last();
        lemma_file_name(init, windows);
        let f = file_name_of(p, windows);
        if is_separator(p.last(), windows) {
            assert(p.skip(p.len() as int) =~= f);
        } else {
            let g = file_name_of(init, windows);
            assert(f == g.push(p.last()));
            assert(p.skip(p.len() - f.len()) =~= init.skip(init.len() - g.len()).push(p.last()));
            assert forall|j: int| 0 <= j < f.len() implies !is_separator(#[trigger] f[j], windows) by {
                if j < g.len() {
                    assert(f[j] == g[j]);
                }
            }
            if f.len() < p.len() {
                assert(p[p.len() - f.len() - 1] == init[init.len() - g.len() - 1]);
            }
        }
    }
}

/// A file name has the extension `ext` exactly when it is not `..` and ends
/// with a `.` that is not its first character, followed by `ext`, which holds
/// no `.`.
pub proof fn lemma_extension(name: Seq<char>, ext: Seq<char>)
    ensures
        extension_of(name) == Some(ext) <==> (name != ".."@ && ext.len() + 1 < name.len()
            && name[name.len() - ext.len() - 1] == '.' && name.skip(name.len() - ext.len()) == ext
            && !ext.contains('.')),
{
    lemma_last_index_of(name, '.');
    if extension_of(name) == Some(ext) {
        let k = last_index_of(name, '.')->0;
        assert(name.len() - ext.len() - 1 == k);
        assert(!ext.contains('.')) by {
            if ext.contains('.') {
                let j = choose|j: int| 0 <= j < ext.len() && ext[j] == '.';
                assert(name[k + 1 + j] == '.');
            }
        }
    }
    if name != ".."@ && ext.len() + 1 < name.len() && name[name.len() - ext.len() - 1] == '.'
        && name.skip(name.len() - ext.len()) == ext && !ext.contains('.') {
        let k = name.len() - ext.len() - 1;
        match last_index_of(name, '.') {
            Some(m) => {
                if m > k {
                    assert(ext[m - k - 1] == '.');
                }
            },
            None => {
                assert(name.contains('.'));
            },
        }
    }
}

/// Selecting by extension keeps, in order, exactly the paths whose file
/// name has the extension: nothing else is returned and none of them is
/// dropped.
pub proof fn lemma_select_by_extension(ps: Seq<Seq<char>>, ext: Seq<char>, windows: bool)
    ensures
        forall|n: Seq<char>| #[trigger] with_extension(ps, ext, windows).contains(n)
            <==> (ps.contains(n) && extension_of(file_name_of(n, windows)) == Some(ext)),
    decreases ps.len(),
{
    if ps.len() > 0 {
        let init = ps.drop_last();
        lemma_select_by_extension(init, ext, windows);
        let r = with_extension(init, ext, windows);
        assert forall|n: Seq<char>| #[trigger] with_extension(ps, ext, windows).contains(n)
            <==> (ps.contains(n) && extension_of(file_name_of(n, windows)) == Some(ext)) by {
            if ps.contains(n) && n != ps.last() {
                let k = choose|k: int| 0 <= k < ps.len() && ps[k] == n;
                assert(k < ps.len() - 1);
                assert(init[k] == n);
            }
            if init.contains(n) {
                let k = choose|k: int| 0 <= k < init.len() && init[k] == n;
                assert(ps[k] == n);
            }
            if extension_of(file_name_of(ps.last(), windows)) == Some(ext) {
                assert(r.push(ps.last())[r.len() as int] == ps.last());
                if r.contains(n) {
                    let k = choose|k: int| 0 <= k < r.len() && r[k] == n;
                    assert(r.push(ps.last())[k] == n);
                }
                if r.push(ps.last()).contains(n) && n != ps.last() {
                    let k = choose|k: int| 0 <= k < r.len() + 1 && r.push(ps.last())[k] == n;
                    assert(r[k] == n);
                }
            }
            assert(ps[ps.len() - 1] == ps.last());
        }
    }
}

/// The last part of the path `p`.
fn file_name(p: &Vec<char>, windows: bool) -> (res: Vec<char>)
    ensures
        res@ == file_name_of(p@, windows),
{
    let mut start: usize = p.len();
    assert(p@.skip(start as int) =~= Seq::<char>::empty());
    assert(p@.take(start as int) =~= p@);
    while start > 0 && !(p[start - 1] == '/' || (windows && p[start - 1] == '\\'))
        invariant
            start <= p.len(),
            file_name_of(p@, windows) == file_name_of(p@.take(start as int), windows) + p@.skip(start as int),
        decreases start,
    {
        let ghost pre = p@.take(start as int);
        assert(pre.drop_last() =~= p@.take(start - 1));
        assert(pre.last() == p@[start - 1]);
        assert(p@.skip(start - 1) =~= seq![p@[start - 1]] + p@.skip(start as int));
        assert(file_name_of(p@.take(start - 1), windows).push(p@[start - 1]) + p@.skip(start as int)
            =~= file_name_of(p@.take(start - 1), windows) + p@.skip(start - 1));
        start -= 1;
    }
    if start > 0 {
        assert(p@.take(start as int).last() == p@[start - 1]);
    } else {
        assert(p@.take(0) =~= Seq::<char>::empty());
    }
    let mut res: Vec<char> = Vec::new();
    let mut j: usize = start;
    while j < p.len()
        invariant
            start <= j <= p.len(),
            res@ == p@.subrange(start as int, j as int),
        decreases p.len() - j,
    {
        res.push(p[j]);
        j += 1;
        assert(res@ =~= p@.subrange(start as int, j as int));
    }
    assert(res@ =~= p@.skip(start as int));
    assert(Seq::<char>::empty() + p@.skip(start as int) =~= p@.skip(start as int));
    res
}

/// Whether the file name `name` has the extension `ext`.
fn has_extension(name: &Vec<char>, ext: &Vec<char>) -> (res: bool)
    ensures
        res == (extension_of(name@) == Some(ext@)),
{
    if chars_equal(name, &chars_of("..")) {
        return false;
    }
    match last_index(name, '.') {
        Some(k) => {
            if k == 0 {
                return false;
            }
            let mut rest: Vec<char> = Vec::new();
            let mut j: usize = k + 1;
            while j < name.len()
                invariant
                    k < name.len(),
                    k + 1 <= j <= name.len(),
                    rest@ == name@.subrange(k + 1, j as int),
                decreases name.len() - j,
            {
                rest.push(name[j]);
                j += 1;
                assert(rest@ =~= name@.subrange(k + 1, j as int));
            }
            assert(rest@ =~= name@.skip(k + 1));
            chars_equal(&rest, ext)
        },
        None => false,
    }
}

/// The paths of `paths`, in order, whose file name has the extension `ext`;
/// `windows` tells whether `\` also separates the parts of a path. The paths
/// are those of directory entries: a directory followed by an entry's name.
pub fn select_by_extension(paths: &Vec<String>, ext: &String, windows: bool) -> (res: Vec<String>)
    ensures
        string_views(res@) == with_extension(string_views(paths@), ext@, windows),
{
    let ghost ps = string_views(paths@);
    let e = chars_of(ext.as_str());
    let mut res: Vec<String> = Vec::new();
    let mut i: usize = 0;
    assert(ps.take(0) =~= Seq::<Seq<char>>::empty());
    while i < paths.len()
        invariant
            ps == string_views(paths@),
            e@ == ext@,
            i <= paths.len(),
            string_views(res@) == with_extension(ps.take(i as int), ext@, windows),
        decreases paths.len() - i,
    {
        assert(ps.take(i + 1).drop_last() =~= ps.take(i as int));
        assert(ps.take(i + 1).last() == paths@[i as int]@);
        let p = chars_of(paths[i].as_str());
        let name = file_name(&p, windows);
        if has_extension(&name, &e) {
            let ghost prev = res@;
            res.push(paths[i].clone());
            assert(string_views(res@) =~= string_views(prev).push(paths@[i as int]@));
        }
        i += 1;
    }
    assert(ps.take(i as int) =~= ps);
    res
}

/// The paths `ps` with every `\` turned into `/`.
pub open spec fn normalized(ps: Seq<Seq<char>>) -> Seq<Seq<char>> {
    ps.map_values(|p: Seq<char>| replace_char(p, '\\', '/'))
}

/// The settings with the sources replaced by the expanded list `expanded`,
/// each with `\` turned into `/`, and with `-c` added to the flags.
pub fn finish_sources(conf: BuildConfig, expanded: Vec<String>) -> (res: BuildConfig)
    ensures
        res@ == (BuildView {
            src: normalized(string_views(expanded@)),
            flags: Some(or_empty(conf@.flags).push("-c"@)),
            ..conf@
        }),
{
    let ghost cv = conf@;
    let mut src: Vec<String> = Vec::new();
    let ghost ex = string_views(expanded@);
    let mut i: usize = 0;
    while i < expanded.len()
        invariant
            ex == string_views(expanded@),
            i <= expanded.len(),
            string_views(src@) == normalized(ex.take(i as int)),
        decreases expanded.len() - i,
    {
        let chars = chars_of(expanded[i].as_str());
        let fixed = string_of(&replace_backslashes(&chars));
        let ghost prev = src@;
        src.push(fixed);
        assert(string_views(src@) =~= string_views(prev).push(replace_char(ex[i as int], '\\', '/')));
        assert(ex.take(i + 1) =~= ex.take(i as int).push(ex[i as int]));
        i += 1;
        assert(string_views(src@) =~= normalized(ex.take(i as int)));
    }
    assert(ex.take(i as int) =~= ex);
    assert(string_views(src@) == normalized(ex));
    let BuildConfig { compiler, flags, src: _, header_dirs, lflags, lpaths, target } = conf;
    let mut fl = match flags {
        Some(v) => v,
        None => Vec::new(),
    };
    let ghost before = string_views(fl@);
    assert(before == or_empty(cv.flags));
    fl.push(String::from_str("-c"));
    assert(string_views(fl@) =~= before.push("-c"@));
    let res = BuildConfig { compiler, flags: Some(fl), src, header_dirs, lflags, lpaths, target };
    assert(res@.flags == Some(or_empty(cv.flags).push("-c"@)));
    assert(res@.src == normalized(ex));
    assert(res@.compiler == cv.compiler && res@.target == cv.target);
    res
}

// ---------------------------------------------------------------------------
// Command lines
// ---------------------------------------------------------------------------

/// A compiler that takes MSVC-style options: its name ends with `cl` or
/// `cl.exe`.
pub open spec fn is_cl_compiler(c: Seq<char>) -> bool {
    has_suffix(c, "cl"@) || has_suffix(c, "cl.exe"@)
}

/// A compile flag as passed to the compiler: unchanged for an MSVC-style
/// compiler or a `--` option; otherwise written with a single leading `-`.
pub open spec fn compile_flag(f: Seq<char>, cl: bool) -> Seq<char> {
    if !cl {
        if has_prefix(f, "--"@) {
            f
        } else {
            "-"@ + trim_start(f, '-')
        }
    } else {
        f
    }
}

/// A header directory as passed to the compiler.
pub open spec fn header_flag(d: Seq<char>, cl: bool) -> Seq<char> {
    if !cl {
        "-I"@ + d
    } else {
        "/I "@ + d
    }
}

/// The object file of source `s`.
pub open spec fn object_of(s: Seq<char>) -> Seq<char> {
    obj_path() + s + ".o"@
}

/// The arguments that compile source `s` under the settings `b`: the flags,
/// the header directories, the source, `-o` and its object file.
pub open spec fn compile_args_spec(b: BuildView, s: Seq<char>) -> Seq<Seq<char>> {
    let cl = is_cl_compiler(b.compiler);
    or_empty(b.flags).map_values(|f: Seq<char>| compile_flag(f, cl))
        + or_empty(b.header_dirs).map_values(|d: Seq<char>| header_flag(d, cl))
        + seq![s, "-o"@, object_of(s)]
}

/// The arguments that link the objects `objs` under the settings `b`: the
/// objects, `-o` and the target, each library directory after `-L`, and the
/// libraries.
pub open spec fn link_args_spec(b: BuildView, objs: Seq<Seq<char>>) -> Seq<Seq<char>> {
    objs + seq!["-o"@, b.target] + or_empty(b.lpaths).map_values(|p: Seq<char>| "-L"@ + p)
        + or_empty(b.lflags)
}

/// The command line shown for a program and its arguments: the program, then
/// each argument after a space.
pub open spec fn command_text(program: Seq<char>, args: Seq<Seq<char>>) -> Seq<char>
    decreases args.len(),
{
    if args.len() == 0 {
        program
    } else {
        command_text(program, args.drop_last()) + " "@ + args.last()
    }
}

/// A flag starts with `-`.
pub open spec fn dashed(f: Seq<char>) -> bool {
    f.len() > 0 && f[0] == '-'
}

/// How a flag reaches a compiler that is not MSVC-style: a flag that starts
/// with `-` is passed as it is, any other gets a `-` in front; only leading
/// dashes are ever touched, so the flag without them always ends the result.
pub proof fn lemma_flag_passing(f: Seq<char>)
    ensures
        dashed(f) ==> compile_flag(f, false) == f,
        !dashed(f) ==> compile_flag(f, false) == "-"@ + f,
        compile_flag(f, true) == f,
        has_suffix(compile_flag(f, false), trim_start(f, '-')),
{
    reveal_strlit("-");
    reveal_strlit("--");
    let r = compile_flag(f, false);
    if dashed(f) {
        if !has_prefix(f, "--"@) {
            if f.len() >= 2 {
                assert(f[1] != '-') by {
                    if f[1] == '-' {
                        assert(f.take(2) =~= "--"@);
                    }
                }
            }
            assert(trim_start(f.skip(1), '-') == f.skip(1));
            assert("-"@ + f.skip(1) =~= f);
        }
        lemma_trim_start_suffix(f);
    } else {
        if f.len() >= 2 {
            assert(f.take(2) != "--"@) by {
                assert(f.take(2)[0] != "--"@[0]);
            }
        }
        assert(trim_start(f, '-') == f);
        assert(r.skip(r.len() - f.len()) =~= f);
    }
}

/// A sequence ends with what remains after its leading run of `c`.
pub proof fn lemma_trim_start_suffix(f: Seq<char>)
    ensures
        has_suffix(f, trim_start(f, '-')),
    decreases f.len(),
{
    if f.len() > 0 && f[0] == '-' {
        lemma_trim_start_suffix(f.skip(1));
        let t = trim_start(f, '-');
        assert(f.skip(f.len() - t.len()) =~= f.skip(1).skip(f.skip(1).len() - t.len()));
    } else {
        assert(f.skip(0) =~= f);
    }
}

/// The layout of a compile command's arguments: each flag in order (for a
/// compiler that is not MSVC-style, one starting with `-` unchanged and any
/// other with a `-` in front; for MSVC-style, unchanged), then each header
/// directory after `-I` (`/I ` for MSVC-style), then the source, `-o`, and the
/// source's object file in the object directory.
pub proof fn lemma_compile_args_layout(b: BuildView, s: Seq<char>)
    ensures
        ({
            let r = compile_args_spec(b, s);
            let fl = or_empty(b.flags);
            let hd = or_empty(b.header_dirs);
            let cl = is_cl_compiler(b.compiler);
            &&& r.len() == fl.len() + hd.len() + 3
            &&& forall|i: int| 0 <= i < fl.len() ==> #[trigger] r[i] == (if cl || dashed(fl[i]) {
                fl[i]
            } else {
                "-"@ + fl[i]
            })
            &&& forall|j: int| 0 <= j < hd.len() ==> #[trigger] r[fl.len() + j] == (if cl {
                "/I "@ + hd[j]
            } else {
                "-I"@ + hd[j]
            })
            &&& r[fl.len() + hd.len() as int] == s
            &&& r[fl.len() + hd.len() as int + 1] == "-o"@
            &&& r[fl.len() + hd.len() as int + 2] == obj_path() + s + ".o"@
        }),
{
    let r = compile_args_spec(b, s);
    let fl = or_empty(b.flags);
    let hd = or_empty(b.header_dirs);
    let cl = is_cl_compiler(b.compiler);
    assert forall|i: int| 0 <= i < fl.len() implies #[trigger] r[i] == (if cl || dashed(fl[i]) {
        fl[i]
    } else {
        "-"@ + fl[i]
    }) by {
        lemma_flag_passing(fl[i]);
    }
}

/// The layout of a link command's arguments: the objects in order, `-o` and
/// the target, each library directory after `-L`, and then all the libraries
/// in order, which always end the command, whether or not library
/// directories were given.
pub proof fn lemma_link_args_layout(b: BuildView, objs: Seq<Seq<char>>)
    ensures
        ({
            let r = link_args_spec(b, objs);
            let lp = or_empty(b.lpaths);
            let lf = or_empty(b.lflags);
            &&& r.len() == objs.len() + 2 + lp.len() + lf.len()
            &&& r.take(objs.len() as int) == objs
            &&& r[objs.len() as int] == "-o"@
            &&& r[objs.len() as int + 1] == b.target
            &&& forall|j: int| 0 <= j < lp.len() ==> #[trigger] r[objs.len() + 2 + j] == "-L"@ + lp[j]
            &&& r.skip(r.len() - lf.len()) == lf
        }),
{
    let r = link_args_spec(b, objs);
    let lf = or_empty(b.lflags);
    assert(r.take(objs.len() as int) =~= objs);
    assert(r.skip(r.len() - lf.len()) =~= lf);
}

/// Whether `compiler` takes MSVC-style options.
pub fn is_cl(compiler: &String) -> (res: bool)
    ensures
        res == is_cl_compiler(compiler@),
{
    let c = chars_of(compiler.as_str());
    ends_with(&c, &chars_of("cl")) || ends_with(&c, &chars_of("cl.exe"))
}

/// Appends `prefix` followed by each string of `items` to `out`.
fn push_prefixed(out: &mut Vec<String>, prefix: &str, items: &Vec<String>)
    ensures
        string_views(final(out)@) == string_views(old(out)@) + string_views(items@).map_values(
            |d: Seq<char>| prefix@ + d,
        ),
{
    let ghost start = string_views(out@);
    let ghost it = string_views(items@);
    let mut i: usize = 0;
    while i < items.len()
        invariant
            it == string_views(items@),
            i <= items.len(),
            string_views(out@) == start + it.take(i as int).map_values(|d: Seq<char>| prefix@ + d),
        decreases items.len() - i,
    {
        let mut a = String::from_str(prefix);
        a.append(items[i].as_str());
        let ghost prev = out@;
        out.push(a);
        assert(string_views(out@) =~= string_views(prev).push(prefix@ + it[i as int]));
        assert(it.take(i + 1) =~= it.take(i as int).push(it[i as int]));
        i += 1;
        assert(string_views(out@) =~= start + it.take(i as int).map_values(|d: Seq<char>| prefix@ + d));
    }
    assert(it.take(i as int) =~= it);
}

/// Appends the strings of `items` to `out`.
fn push_all(out: &mut Vec<String>, items: &Vec<String>)
    ensures
        string_views(final(out)@) == string_views(old(out)@) + string_views(items@),
{
    let ghost start = string_views(out@);
    let ghost it = string_views(items@);
    let mut i: usize = 0;
    while i < items.len()
        invariant
            it == string_views(items@),
            i <= items.len(),
            string_views(out@) == start + it.take(i as int),
        decreases items.len() - i,
    {
        let ghost prev = out@;
        out.push(items[i].clone());
        assert(string_views(out@) =~= string_views(prev).push(it[i as int]));
        i += 1;
        assert(string_views(out@) =~= start + it.take(i as int));
    }
    assert(it.take(i as int) =~= it);
}

/// A compile flag as passed to the compiler.
fn flag_arg(f: &String, cl: bool) -> (res: String)
    ensures
        res@ == compile_flag(f@, cl),
{
    if !cl {
        let c = chars_of(f.as_str());
        if starts_with(&c, &chars_of("--")) {
            f.clone()
        } else {
            let mut a = String::from_str("-");
            push_chars(&mut a, &trim_start_char(&c, '-'));
            a
        }
    } else {
        f.clone()
    }
}

/// The arguments that compile source `s` under the settings `conf`.
pub fn compile_args(conf: &BuildConfig, s: &String) -> (res: Vec<String>)
    ensures
        string_views(res@) == compile_args_spec(conf@, s@),
{
    let cl = is_cl(&conf.compiler);
    let mut out: Vec<String> = Vec::new();
    let empty: Vec<String> = Vec::new();
    let flags = match &conf.flags {
        Some(v) => v,
        None => &empty,
    };
    let ghost fl = string_views(flags@);
    assert(fl == or_empty(conf@.flags));
    let mut i: usize = 0;
    assert(string_views(out@) =~= fl.take(0).map_values(|f: Seq<char>| compile_flag(f, cl)));
    while i < flags.len()
        invariant
            fl == string_views(flags@),
            i <= flags.len(),
            string_views(out@) == fl.take(i as int).map_values(|f: Seq<char>| compile_flag(f, cl)),
        decreases flags.len() - i,
    {
        let a = flag_arg(&flags[i], cl);
        let ghost prev = out@;
        out.push(a);
        assert(string_views(out@) =~= string_views(prev).push(compile_flag(fl[i as int], cl)));
        assert(fl.take(i + 1) =~= fl.take(i as int).push(fl[i as int]));
        i += 1;
        assert(string_views(out@) =~= fl.take(i as int).map_values(|f: Seq<char>| compile_flag(f, cl)));
    }
    assert(fl.take(i as int) =~= fl);
    let dirs = match &conf.header_dirs {
        Some(v) => v,
        None => &empty,
    };
    assert(string_views(dirs@) == or_empty(conf@.header_dirs));
    let prefix = if !cl { "-I" } else { "/I " };
    push_prefixed(&mut out, prefix, dirs);
    assert(string_views(dirs@).map_values(|d: Seq<char>| prefix@ + d)
        =~= or_empty(conf@.header_dirs).map_values(|d: Seq<char>| header_flag(d, cl)));
    let ghost mid = string_views(out@);
    out.push(s.clone());
    out.push(String::from_str("-o"));
    let mut obj = cache_get_obj_path();
    obj.append(s.as_str());
    obj.append(".o");
    out.push(obj);
    assert(string_views(out@) =~= mid + seq![s@, "-o"@, object_of(s@)]);
    out
}

/// The arguments that link the objects `objs` under the settings `conf`.
pub fn link_args(conf: &BuildConfig, objs: &Vec<String>) -> (res: Vec<String>)
    ensures
        string_views(res@) == link_args_spec(conf@, string_views(objs@)),
{
    let mut out: Vec<String> = Vec::new();
    push_all(&mut out, objs);
    out.push(String::from_str("-o"));
    out.push(conf.target.clone());
    let empty: Vec<String> = Vec::new();
    let paths = match &conf.lpaths {
        Some(v) => v,
        None => &empty,
    };
    assert(string_views(paths@) == or_empty(conf@.lpaths));
    push_prefixed(&mut out, "-L", paths);
    let libs = match &conf.lflags {
        Some(v) => v,
        None => &empty,
    };
    assert(string_views(libs@) == or_empty(conf@.lflags));
    push_all(&mut out, libs);
    assert(string_views(out@) =~= link_args_spec(conf@, string_views(objs@)));
    out
}

/// The command line shown for `program` and its arguments `args`.
pub fn command_line(program: &String, args: &Vec<String>) -> (res: String)
    ensures
        res@ == command_text(program@, string_views(args@)),
{
    let ghost a = string_views(args@);
    let mut res = program.clone();
    let mut i: usize = 0;
    assert(a.take(0) =~= Seq::<Seq<char>>::empty());
    while i < args.len()
        invariant
            a == string_views(args@),
            i <= args.len(),
            res@ == command_text(program@, a.take(i as int)),
        decreases args.len() - i,
    {
        res.append(" ");
        res.append(args[i].as_str());
        assert(a.take(i + 1).drop_last() =~= a.take(i as int));
        assert(a.take(i + 1).last() == a[i as int]);
        i += 1;
    }
    assert(a.take(i as int) =~= a);
    res
}

// ---------------------------------------------------------------------------
// Compiler outcome
// ---------------------------------------------------------------------------

/// The decimal representation of a signed integer.
pub open spec fn signed_decimal(x: int) -> Seq<char> {
    if x < 0 {
        "-"@ + decimal((-x) as nat)
    } else {
        decimal(x as nat)
    }
}

/// The error for a compiler run `cmd` that exited with `code`, showing what
/// it printed.
pub open spec fn compiler_failure(cmd: Seq<char>, stdout: Seq<char>, stderr: Seq<char>, code: i32) -> ErrorView {
    ErrorView::CommandFailed {
        cmd: cmd,
        message: "stdout:"@ + stdout + "\nstderr"@ + stderr + "\nexit:"@ + signed_decimal(code as int),
    }
}

/// How a compiler run ends the build: an exit code other than 0 is an error
/// that shows the command, what it printed and the code; no code (the
/// process was stopped by a signal) or 0 lets the build go on.
pub fn compile_outcome(cmd: String, stdout: &str, stderr: &str, code: Option<i32>) -> (res: Result<(), ConfigError>)
    ensures
        match code {
            Some(c) => if c != 0 {
                res matches Err(e) && e@ == compiler_failure(cmd@, stdout@, stderr@, c)
            } else {
                res is Ok
            },
            None => res is Ok,
        },
{
    match code {
        Some(c) => {
            if c != 0 {
                let mut message = String::from_str("stdout:");
                message.append(stdout);
                message.append("\nstderr");
                message.append(stderr);
                message.append("\nexit:");
                let ghost head = message@;
                if c < 0 {
                    message.append("-");
                    let m: u64 = (0i64 - (c as i64)) as u64;
                    push_chars(&mut message, &decimal_chars(m));
                    assert(message@ =~= head + signed_decimal(c as int));
                } else {
                    push_chars(&mut message, &decimal_chars(c as u64));
                    assert(message@ =~= head + signed_decimal(c as int));
                }
                Err(ConfigError::CommandFailed { cmd, message })
            } else {
                Ok(())
            }
        },
        None => Ok(()),
    }
}

} // verus!
