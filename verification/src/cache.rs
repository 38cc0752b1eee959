//! The incremental-build cache: its paths, the metadata it records for each
//! source file, the text format of the cache file, and the choice of the files
//! that need rebuilding.
use vstd::prelude::*;

use crate::error::{ConfigError, ErrorView};
use crate::text::{
    all_digits, chars_of, decimal, decimal_chars, lemma_decimal, lemma_parse_decimal,
    lemma_split_concat, lemma_split_extend, lemma_split_single, parse_u64, parse_u64_spec,
    push_char, push_chars, seq_views, split_char, split_chars, string_of, string_views,
};

verus! {

/// The directory that holds the cache.
pub const RM_CACHE: &'static str = ".rm_cache";

/// The file, inside the cache directory, that records the source metadata.
pub const INCREM_FILE: &'static str = "incremental.cache";

/// The directory, inside the cache directory, that holds object files.
pub const OBJ_FOLDER: &'static str = "obj";

/// The path of the incremental cache file.
pub open spec fn increm_file_path() -> Seq<char> {
    RM_CACHE@ + "/"@ + INCREM_FILE@
}

/// The path of the object directory, with a trailing `/`.
pub open spec fn obj_path() -> Seq<char> {
    RM_CACHE@ + "/"@ + OBJ_FOLDER@ + "/"@
}

/// The path of the incremental cache file.
pub fn cache_increm_file() -> (res: String)
    ensures
        res@ == increm_file_path(),
{
    let mut s = String::from_str(RM_CACHE);
    s.append("/");
    s.append(INCREM_FILE);
    s
}

/// The path of the object directory, with a trailing `/`.
pub fn cache_get_obj_path() -> (res: String)
    ensures
        res@ == obj_path(),
{
    let mut s = String::from_str(RM_CACHE);
    s.append("/");
    s.append(OBJ_FOLDER);
    s.append("/");
    s
}

/// What the cache records of a source file: its size in bytes and its
/// modification time in seconds since the Unix epoch.
#[derive(Clone, Copy, Debug, PartialEq, Eq, Structural, Hash, Default)]
pub struct CacheData {
    pub size: u64,
    pub mtime: u64,
}

/// One named record of the cache.
struct CacheEntry {
    name: String,
    data: CacheData,
}

/// The metadata of a set of source files, keyed by file name.
pub struct CacheMetadata {
    entries: Vec<CacheEntry>,
}

/// No name occurs twice among the records `es`.
pub open spec fn distinct_names(es: Seq<(Seq<char>, CacheData)>) -> bool {
    forall|i: int, j: int| 0 <= i < j < es.len() ==> es[i].0 != es[j].0
}

/// The map from name to data that the records `es` describe; a later record
/// wins over an earlier one of the same name.
pub open spec fn entries_map(es: Seq<(Seq<char>, CacheData)>) -> Map<Seq<char>, CacheData>
    decreases es.len(),
{
    if es.len() == 0 {
        Map::empty()
    } else {
        entries_map(es.drop_last()).insert(es.last().0, es.last().1)
    }
}

/// The position of the first record named `name`, if any.
pub open spec fn find_name(es: Seq<(Seq<char>, CacheData)>, name: Seq<char>) -> Option<int>
    decreases es.len(),
{
    if es.len() == 0 {
        None
    } else {
        match find_name(es.drop_last(), name) {
            Some(i) => Some(i),
            None => if es.last().0 == name { Some(es.len() - 1) } else { None },
        }
    }
}

/// The records `es` after `name` has been given `data`: an existing record is
/// updated in place, otherwise a record is appended.
pub open spec fn insert_entry(es: Seq<(Seq<char>, CacheData)>, name: Seq<char>, data: CacheData) -> Seq<(Seq<char>, CacheData)> {
    match find_name(es, name) {
        Some(i) => es.update(i, (name, data)),
        None => es.push((name, data)),
    }
}

/// `find_name` finds exactly the positions that hold the name.
pub proof fn lemma_find_name(es: Seq<(Seq<char>, CacheData)>, name: Seq<char>)
    ensures
        match find_name(es, name) {
            Some(i) => 0 <= i < es.len() && es[i].0 == name
                && forall|j: int| 0 <= j < i ==> es[j].0 != name,
            None => forall|j: int| 0 <= j < es.len() ==> es[j].0 != name,
        },
    decreases es.len(),
{
    if es.len() > 0 {
        let init = es.drop_last();
        lemma_find_name(init, name);
        assert(forall|j: int| 0 <= j < init.len() ==> #[trigger] es[j] == init[j]);
    }
}

/// The map of distinct records gives each name the data of its record, and
/// has no other names.
pub proof fn lemma_entries_map(es: Seq<(Seq<char>, CacheData)>)
    requires
        distinct_names(es),
    ensures
        forall|k: int| 0 <= k < es.len() ==> entries_map(es).contains_key(#[trigger] es[k].0)
            && entries_map(es)[es[k].0] == es[k].1,
        forall|n: Seq<char>| entries_map(es).contains_key(n) ==> exists|k: int| 0 <= k < es.len() && #[trigger] es[k].0 == n,
    decreases es.len(),
{
    if es.len() > 0 {
        let init = es.drop_last();
        lemma_entries_map(init);
        assert forall|k: int| 0 <= k < es.len() implies entries_map(es).contains_key(#[trigger] es[k].0)
            && entries_map(es)[es[k].0] == es[k].1 by {
            if k < es.len() - 1 {
                assert(init[k] == es[k]);
                assert(es[k].0 != es.last().0);
            }
        }
        assert forall|n: Seq<char>| entries_map(es).contains_key(n) implies exists|k: int| 0 <= k < es.len() && #[trigger] es[k].0 == n by {
            if n != es.last().0 {
                assert(entries_map(init).contains_key(n));
                let k = choose|k: int| 0 <= k < init.len() && #[trigger] init[k].0 == n;
                assert(es[k] == init[k]);
            } else {
                assert(es[es.len() - 1].0 == n);
            }
        }
    }
}

/// The records held by `v`, with their names as character sequences.
spec fn entry_views(v: Seq<CacheEntry>) -> Seq<(Seq<char>, CacheData)> {
    v.map_values(|e: CacheEntry| (e.name@, e.data))
}

/// Updating the record of `name` in place changes the map as inserting does.
pub proof fn lemma_entries_map_update(es: Seq<(Seq<char>, CacheData)>, i: int, data: CacheData)
    requires
        distinct_names(es),
        0 <= i < es.len(),
    ensures
        entries_map(es.update(i, (es[i].0, data))) == entries_map(es).insert(es[i].0, data),
    decreases es.len(),
{
    let n = es[i].0;
    let init = es.drop_last();
    let es2 = es.update(i, (n, data));
    if i == es.len() - 1 {
        assert(es2.drop_last() =~= init);
        assert(entries_map(es2) =~= entries_map(es).insert(n, data));
    } else {
        assert(es2.drop_last() =~= init.update(i, (n, data)));
        assert(init[i] == es[i]);
        lemma_entries_map_update(init, i, data);
        assert(es.last().0 != n);
        assert(entries_map(es2) =~= entries_map(es).insert(n, data));
    }
}

/// Appending a record inserts it into the map.
pub proof fn lemma_entries_map_push(es: Seq<(Seq<char>, CacheData)>, n: Seq<char>, data: CacheData)
    ensures
        entries_map(es.push((n, data))) == entries_map(es).insert(n, data),
{
    assert(es.push((n, data)).drop_last() =~= es);
}

impl CacheMetadata {
    /// The records, in the order in which they are kept (and written).
    pub closed spec fn entries(&self) -> Seq<(Seq<char>, CacheData)> {
        entry_views(self.entries@)
    }

    #[verifier::type_invariant]
    spec fn names_distinct(&self) -> bool {
        distinct_names(self.entries())
    }
}

impl View for CacheMetadata {
    type V = Map<Seq<char>, CacheData>;

    open spec fn view(&self) -> Map<Seq<char>, CacheData> {
        entries_map(self.entries())
    }
}

impl Default for CacheMetadata {
    /// An empty cache.
    fn default() -> (res: CacheMetadata)
        ensures
            res.entries() == Seq::<(Seq<char>, CacheData)>::empty(),
    {
        CacheMetadata::new()
    }
}

impl Clone for CacheMetadata {
    /// A copy of the cache, with the same records in the same order.
    fn clone(&self) -> (res: CacheMetadata)
        ensures
            res.entries() == self.entries(),
    {
        self.duplicate()
    }
}

impl CacheMetadata {
    /// An empty cache.
    pub fn new() -> (res: CacheMetadata)
        ensures
            res.entries() == Seq::<(Seq<char>, CacheData)>::empty(),
            res@ == Map::<Seq<char>, CacheData>::empty(),
            distinct_names(res.entries()),
    {
        let res = CacheMetadata { entries: Vec::new() };
        assert(res.entries() =~= Seq::<(Seq<char>, CacheData)>::empty());
        res
    }

    /// A copy of the cache, with the same records in the same order.
    pub fn duplicate(&self) -> (res: CacheMetadata)
        ensures
            res.entries() == self.entries(),
            res@ == self@,
    {
        let mut entries: Vec<CacheEntry> = Vec::new();
        let mut i: usize = 0;
        while i < self.entries.len()
            invariant
                i <= self.entries@.len(),
                entry_views(entries@) == self.entries().take(i as int),
            decreases self.entries@.len() - i,
        {
            let e = &self.entries[i];
            let ghost prev = entries@;
            entries.push(CacheEntry { name: e.name.clone(), data: e.data });
            assert(entry_views(entries@) =~= entry_views(prev).push((e.name@, e.data)));
            assert(self.entries()[i as int] == (e.name@, e.data));
            assert(self.entries().take(i + 1) =~= self.entries().take(i as int).push(self.entries()[i as int]));
            i += 1;
        }
        assert(self.entries().take(i as int) =~= self.entries());
        proof {
            use_type_invariant(self);
        }
        CacheMetadata { entries }
    }

    /// The number of records.
    pub fn len(&self) -> (res: usize)
        ensures
            res == self.entries().len(),
    {
        self.entries.len()
    }

    /// The position of the record named `name`, if any.
    fn position(&self, name: &String) -> (res: Option<usize>)
        ensures
            match res {
                Some(i) => find_name(self.entries(), name@) == Some(i as int),
                None => find_name(self.entries(), name@) == None::<int>,
            },
    {
        proof {
            lemma_find_name(self.entries(), name@);
        }
        let mut i: usize = 0;
        while i < self.entries.len()
            invariant
                i <= self.entries@.len(),
                forall|j: int| 0 <= j < i ==> self.entries()[j].0 != name@,
            decreases self.entries@.len() - i,
        {
            if self.entries[i].name == *name {
                assert(self.entries()[i as int].0 == name@);
                proof {
                    lemma_find_name(self.entries(), name@);
                }
                return Some(i);
            }
            i += 1;
        }
        None
    }

    /// The data recorded for `name`, if any.
    pub fn get(&self, name: &String) -> (res: Option<CacheData>)
        ensures
            res == (if self@.contains_key(name@) { Some(self@[name@]) } else { None }),
    {
        proof {
            use_type_invariant(self);
            lemma_entries_map(self.entries());
            lemma_find_name(self.entries(), name@);
        }
        match self.position(name) {
            Some(i) => {
                assert(self.entries()[i as int].0 == name@);
                Some(self.entries[i].data)
            },
            None => None,
        }
    }

    /// Records `data` for `name`, replacing what was recorded for it.
    pub fn insert(&mut self, name: String, data: CacheData)
        ensures
            final(self).entries() == insert_entry(old(self).entries(), name@, data),
            final(self)@ == old(self)@.insert(name@, data),
            distinct_names(final(self).entries()),
    {
        proof {
            use_type_invariant(&*self);
            lemma_find_name(self.entries(), name@);
        }
        let ghost old_es = self.entries();
        let ghost n = name@;
        match self.position(&name) {
            Some(i) => {
                let mut entries: Vec<CacheEntry> = Vec::new();
                std::mem::swap(&mut entries, &mut self.entries);
                entries.set(i, CacheEntry { name, data });
                proof {
                    assert(entry_views(entries@) =~= old_es.update(i as int, (n, data)));
                    assert(old_es[i as int].0 == n);
                    assert(distinct_names(entry_views(entries@)));
                }
                self.entries = entries;
            },
            None => {
                let mut entries: Vec<CacheEntry> = Vec::new();
                std::mem::swap(&mut entries, &mut self.entries);
                entries.push(CacheEntry { name, data });
                proof {
                    assert(entry_views(entries@) =~= old_es.push((n, data)));
                    assert(distinct_names(entry_views(entries@)));
                }
                self.entries = entries;
            },
        }
        proof {
            match find_name(old_es, n) {
                Some(i) => lemma_entries_map_update(old_es, i, data),
                None => lemma_entries_map_push(old_es, n, data),
            }
        }
        proof {
            use_type_invariant(&*self);
        }
    }
}


// ---------------------------------------------------------------------------
// The text of the cache file
// ---------------------------------------------------------------------------

/// The line (without its end) that records `data` for `name`: the name, the
/// modification time and the size, separated by single spaces.
pub open spec fn entry_line(name: Seq<char>, data: CacheData) -> Seq<char> {
    name.push(' ') + decimal(data.mtime as nat).push(' ') + decimal(data.size as nat)
}

/// The text of the cache file that records `es`: one line per record, in
/// order, each ended by a newline.
pub open spec fn serialize_entries(es: Seq<(Seq<char>, CacheData)>) -> Seq<char>
    decreases es.len(),
{
    if es.len() == 0 {
        Seq::empty()
    } else {
        (serialize_entries(es.drop_last()) + entry_line(es.last().0, es.last().1)).push('\n')
    }
}

/// The message of the error on a line that does not hold three fields.
pub open spec fn corrupt_message() -> Seq<char> {
    "Cache file probably corrupted, either clean it or fix it"@
}

/// The error on a field `tok` of line `line` that is not a `u64`; `third`
/// tells the size field from the modification-time field.
pub open spec fn cast_error(tok: Seq<char>, third: bool, line: nat) -> ErrorView {
    ErrorView::CommandFailed {
        cmd: "Cast"@,
        message: "Failed to cast "@ + tok + (if third {
            " in u64 for third parameter at line "@
        } else {
            " in u64 for second parameter at line "@
        }) + decimal(line),
    }
}

/// Reading the lines `lines` from position `i` on into `acc`: reading stops
/// at the first empty line; a line must hold a name, a modification time and
/// a size separated by single spaces; a later line for a name wins.
pub open spec fn parse_cache_lines(lines: Seq<Seq<char>>, i: nat, acc: Map<Seq<char>, CacheData>) -> Result<Map<Seq<char>, CacheData>, ErrorView>
    decreases lines.len() - i,
{
    if i >= lines.len() || lines[i as int].len() == 0 {
        Ok(acc)
    } else {
        let f = split_char(lines[i as int], ' ');
        if f.len() != 3 {
            Err(ErrorView::InvalidSyntax { line: i + 1, message: corrupt_message() })
        } else {
            match parse_u64_spec(f[1]) {
                None => Err(cast_error(f[1], false, i + 1)),
                Some(mtime) => match parse_u64_spec(f[2]) {
                    None => Err(cast_error(f[2], true, i + 1)),
                    Some(size) => parse_cache_lines(
                        lines,
                        i + 1,
                        acc.insert(f[0], CacheData { size, mtime }),
                    ),
                },
            }
        }
    }
}

/// What reading the cache file with text `data` gives: an empty text is an
/// empty cache; otherwise its newline-separated lines are read in order.
pub open spec fn parse_cache_text(data: Seq<char>) -> Result<Map<Seq<char>, CacheData>, ErrorView> {
    if data.len() == 0 {
        Ok(Map::empty())
    } else {
        parse_cache_lines(split_char(data, '\n'), 0, Map::empty())
    }
}

/// A name that the cache file can hold: it has no space and no newline.
pub open spec fn storable_name(name: Seq<char>) -> bool {
    !name.contains(' ') && !name.contains('\n')
}

/// The lines (without their ends) of the text of `es`.
pub open spec fn entry_lines(es: Seq<(Seq<char>, CacheData)>) -> Seq<Seq<char>> {
    es.map_values(|e: (Seq<char>, CacheData)| entry_line(e.0, e.1))
}

/// Digits hold neither a space nor a newline.
proof fn lemma_decimal_plain(n: nat)
    ensures
        !decimal(n).contains(' '),
        !decimal(n).contains('\n'),
        decimal(n).len() > 0,
{
    lemma_decimal(n);
    let d = decimal(n);
    assert(forall|k: int| 0 <= k < d.len() ==> #[trigger] d[k] != ' ' && d[k] != '\n') by {
        assert(all_digits(d));
    }
}

/// The line of a storable name splits at spaces into its three fields, and
/// holds no newline.
proof fn lemma_entry_line_fields(name: Seq<char>, data: CacheData)
    requires
        storable_name(name),
    ensures
        split_char(entry_line(name, data), ' ') == seq![
            name,
            decimal(data.mtime as nat),
            decimal(data.size as nat),
        ],
        !entry_line(name, data).contains('\n'),
        entry_line(name, data).len() > 0,
{
    let m = decimal(data.mtime as nat);
    let z = decimal(data.size as nat);
    lemma_decimal_plain(data.mtime as nat);
    lemma_decimal_plain(data.size as nat);
    let line = entry_line(name, data);
    assert(line =~= (name.push(' ') + m).push(' ') + z);
    lemma_split_concat(name.push(' ') + m, z, ' ');
    lemma_split_concat(name, m, ' ');
    lemma_split_single(name, ' ');
    lemma_split_single(m, ' ');
    lemma_split_single(z, ' ');
    assert(seq![name] + seq![m] + seq![z] =~= seq![name, m, z]);
    assert(!line.contains('\n')) by {
        if line.contains('\n') {
            let k = choose|k: int| 0 <= k < line.len() && line[k] == '\n';
            if k < name.len() {
                assert(name[k] == '\n');
            } else if k == name.len() {
            } else if k < name.len() + 1 + m.len() {
                assert(m[k - name.len() - 1] == '\n');
            } else if k == name.len() + 1 + m.len() {
            } else {
                assert(z[k - name.len() - 2 - m.len()] == '\n');
            }
        }
    }
}

/// The text of storable records splits at newlines into their lines and a
/// final empty piece.
proof fn lemma_split_serialized(es: Seq<(Seq<char>, CacheData)>)
    requires
        forall|k: int| 0 <= k < es.len() ==> storable_name(#[trigger] es[k].0),
    ensures
        split_char(serialize_entries(es), '\n') == entry_lines(es).push(Seq::<char>::empty()),
    decreases es.len(),
{
    if es.len() == 0 {
        assert(entry_lines(es).push(Seq::<char>::empty()) =~= seq![Seq::<char>::empty()]);
    } else {
        let init = es.drop_last();
        assert forall|k: int| 0 <= k < init.len() implies storable_name(#[trigger] init[k].0) by {
            assert(init[k] == es[k]);
        }
        lemma_split_serialized(init);
        let line = entry_line(es.last().0, es.last().1);
        assert(storable_name(es[es.len() - 1].0));
        lemma_entry_line_fields(es.last().0, es.last().1);
        let before = serialize_entries(init);
        lemma_split_extend(before, line, '\n');
        assert((before + line).push('\n').drop_last() =~= before + line);
        assert(Seq::<char>::empty() + line =~= line);
        assert(entry_lines(init).push(Seq::<char>::empty()).update(entry_lines(init).len() as int, line)
            =~= entry_lines(es));
    }
}

/// Reading the lines of storable records from position `i` into the map of
/// the first `i` records gives the map of all of them.
proof fn lemma_parse_entry_lines(es: Seq<(Seq<char>, CacheData)>, i: nat)
    requires
        i <= es.len(),
        forall|k: int| 0 <= k < es.len() ==> storable_name(#[trigger] es[k].0),
    ensures
        parse_cache_lines(entry_lines(es).push(Seq::<char>::empty()), i, entries_map(es.take(i as int)))
            == Ok::<Map<Seq<char>, CacheData>, ErrorView>(entries_map(es)),
    decreases es.len() - i,
{
    let lines = entry_lines(es).push(Seq::<char>::empty());
    if i == es.len() {
        assert(es.take(i as int) =~= es);
        assert(lines[i as int].len() == 0);
    } else {
        let e = es[i as int];
        assert(storable_name(es[i as int].0));
        lemma_entry_line_fields(e.0, e.1);
        lemma_parse_decimal(e.1.mtime);
        lemma_parse_decimal(e.1.size);
        assert(lines[i as int] == entry_line(e.0, e.1));
        assert(es.take((i + 1) as int).drop_last() =~= es.take(i as int));
        assert(es.take((i + 1) as int).last() == e);
        assert(entries_map(es.take((i + 1) as int)) == entries_map(es.take(i as int)).insert(e.0, e.1));
        assert(CacheData { size: e.1.size, mtime: e.1.mtime } == e.1);
        lemma_parse_entry_lines(es, i + 1);
    }
}

/// Reading back what was written: the text of records whose names hold no
/// space and no newline reads as the map of those records.
pub proof fn lemma_cache_text_roundtrip(es: Seq<(Seq<char>, CacheData)>)
    requires
        forall|k: int| 0 <= k < es.len() ==> storable_name(#[trigger] es[k].0),
    ensures
        parse_cache_text(serialize_entries(es)) == Ok::<Map<Seq<char>, CacheData>, ErrorView>(entries_map(es)),
{
    if es.len() == 0 {
        assert(serialize_entries(es).len() == 0);
    } else {
        lemma_split_serialized(es);
        lemma_parse_entry_lines(es, 0);
        assert(es.take(0) =~= Seq::<(Seq<char>, CacheData)>::empty());
        assert(serialize_entries(es).len() > 0);
    }
}


// ---------------------------------------------------------------------------
// Writing and reading the cache file
// ---------------------------------------------------------------------------

/// The text of the cache file that records `srccache`: for each record, in
/// the order the cache keeps them, the name, the modification time and the
/// size separated by single spaces, then a newline. No name is written
/// twice.
pub fn cache_serialize(srccache: &CacheMetadata) -> (res: String)
    ensures
        res@ == serialize_entries(srccache.entries()),
        distinct_names(srccache.entries()),
{
    proof {
        use_type_invariant(srccache);
    }
    let mut res = String::new();
    let mut i: usize = 0;
    let ghost es = srccache.entries();
    assert(es.take(0) =~= Seq::<(Seq<char>, CacheData)>::empty());
    while i < srccache.entries.len()
        invariant
            es == srccache.entries(),
            i <= es.len(),
            res@ == serialize_entries(es.take(i as int)),
        decreases es.len() - i,
    {
        let e = &srccache.entries[i];
        res.append(e.name.as_str());
        push_char(&mut res, ' ');
        let m = decimal_chars(e.data.mtime);
        push_chars(&mut res, &m);
        push_char(&mut res, ' ');
        let z = decimal_chars(e.data.size);
        push_chars(&mut res, &z);
        push_char(&mut res, '\n');
        assert(es.take(i + 1).drop_last() =~= es.take(i as int));
        assert(es[i as int] == (e.name@, e.data));
        assert(res@ =~= serialize_entries(es.take(i + 1)));
        i += 1;
    }
    assert(es.take(i as int) =~= es);
    res
}

/// The error for a field that is not a `u64`.
fn cast_failure(tok: &Vec<char>, third: bool, line: usize) -> (res: ConfigError)
    ensures
        res@ == cast_error(tok@, third, line as nat),
{
    let mut message = String::from_str("Failed to cast ");
    push_chars(&mut message, tok);
    if third {
        message.append(" in u64 for third parameter at line ");
    } else {
        message.append(" in u64 for second parameter at line ");
    }
    let digits = decimal_chars(line as u64);
    push_chars(&mut message, &digits);
    ConfigError::CommandFailed { cmd: String::from_str("Cast"), message }
}

/// Reads the text `data` of the cache file: an empty text is an empty cache;
/// otherwise the newline-separated lines are read in order up to the first
/// empty one, each holding a name, a modification time and a size separated by
/// single spaces. A line with another number of fields is an `InvalidSyntax`
/// error with its number; a field that is not a `u64` is a `Cast` error.
pub fn cache_get_current(data: &str) -> (res: Result<CacheMetadata, ConfigError>)
    ensures
        match res {
            Ok(m) => parse_cache_text(data@) == Ok::<Map<Seq<char>, CacheData>, ErrorView>(m@)
                && distinct_names(m.entries()),
            Err(e) => parse_cache_text(data@) == Err::<Map<Seq<char>, CacheData>, ErrorView>(e@),
        },
{
    let mut meta = CacheMetadata::new();
    if data.is_empty() {
        return Ok(meta);
    }
    let chars = chars_of(data);
    let lines = split_chars(&chars, '\n');
    let ghost ls = seq_views(lines@);
    let mut i: usize = 0;
    while i < lines.len()
        invariant
            ls == seq_views(lines@),
            ls == split_char(data@, '\n'),
            data@.len() > 0,
            i <= lines.len(),
            parse_cache_lines(ls, 0, Map::empty()) == parse_cache_lines(ls, i as nat, meta@),
            distinct_names(meta.entries()),
        decreases lines.len() - i,
    {
        let line = &lines[i];
        assert(ls[i as int] == line@);
        if line.len() == 0 {
            return Ok(meta);
        }
        let fields = split_chars(line, ' ');
        if fields.len() != 3 {
            let err = ConfigError::InvalidSyntax {
                line: i + 1,
                message: String::from_str("Cache file probably corrupted, either clean it or fix it"),
            };
            return Err(err);
        }
        assert(fields@[1]@ == split_char(ls[i as int], ' ')[1]);
        assert(fields@[2]@ == split_char(ls[i as int], ' ')[2]);
        assert(fields@[0]@ == split_char(ls[i as int], ' ')[0]);
        let mtime = match parse_u64(&fields[1]) {
            Some(v) => v,
            None => {
                return Err(cast_failure(&fields[1], false, i + 1));
            },
        };
        let size = match parse_u64(&fields[2]) {
            Some(v) => v,
            None => {
                return Err(cast_failure(&fields[2], true, i + 1));
            },
        };
        let name = string_of(&fields[0]);
        meta.insert(name, CacheData { size, mtime });
        i += 1;
    }
    Ok(meta)
}


// ---------------------------------------------------------------------------
// Choosing what to rebuild
// ---------------------------------------------------------------------------

/// A source must be rebuilt unless both caches record it with the same size
/// and modification time.
pub open spec fn needs_rebuild(name: Seq<char>, srccache: Map<Seq<char>, CacheData>, cached: Map<Seq<char>, CacheData>) -> bool {
    !cached.contains_key(name) || !srccache.contains_key(name) || cached[name] != srccache[name]
}

/// The sources of `src` that must be rebuilt, in their order.
pub open spec fn changed_sources(src: Seq<Seq<char>>, srccache: Map<Seq<char>, CacheData>, cached: Map<Seq<char>, CacheData>) -> Seq<Seq<char>>
    decreases src.len(),
{
    if src.len() == 0 {
        Seq::empty()
    } else {
        let rest = changed_sources(src.drop_last(), srccache, cached);
        if needs_rebuild(src.last(), srccache, cached) {
            rest.push(src.last())
        } else {
            rest
        }
    }
}

/// What must be rebuilt: everything when the previous cache is empty,
/// otherwise the sources whose records differ or are missing.
pub open spec fn sources_to_rebuild(src: Seq<Seq<char>>, srccache: Map<Seq<char>, CacheData>, cached: Map<Seq<char>, CacheData>) -> Seq<Seq<char>> {
    if cached == Map::<Seq<char>, CacheData>::empty() {
        src
    } else {
        changed_sources(src, srccache, cached)
    }
}

/// A cache with no records has the empty map, and only such a cache has it.
proof fn lemma_empty_cache(es: Seq<(Seq<char>, CacheData)>)
    requires
        distinct_names(es),
    ensures
        (entries_map(es) == Map::<Seq<char>, CacheData>::empty()) == (es.len() == 0),
{
    if es.len() > 0 {
        lemma_entries_map(es);
        assert(entries_map(es).contains_key(es[0].0));
    }
}

/// The sources that `cache_compute_diff` returns, given the current records
/// `srccache` of the sources and the records `cached` of the last build:
/// all of `src` when `cached` is empty, otherwise those of `src`, in order,
/// that `cached` or `srccache` lacks or that the two record differently.
pub fn cache_compute_diff(src: Vec<String>, srccache: CacheMetadata, cached: CacheMetadata) -> (res: Result<Vec<String>, ConfigError>)
    ensures
        res is Ok,
        res matches Ok(v) ==> string_views(v@) == sources_to_rebuild(string_views(src@), srccache@, cached@),
{
    proof {
        use_type_invariant(&cached);
        lemma_empty_cache(cached.entries());
    }
    if cached.len() == 0 {
        return Ok(src);
    }
    let mut ret: Vec<String> = Vec::new();
    let ghost names = string_views(src@);
    let mut i: usize = 0;
    assert(names.take(0) =~= Seq::<Seq<char>>::empty());
    while i < src.len()
        invariant
            names == string_views(src@),
            i <= src.len(),
            string_views(ret@) == changed_sources(names.take(i as int), srccache@, cached@),
        decreases src.len() - i,
    {
        let name = src[i].clone();
        assert(names.take(i + 1).drop_last() =~= names.take(i as int));
        assert(names.take(i + 1).last() == name@);
        let keep = match cached.get(&name) {
            None => true,
            Some(cvalue) => match srccache.get(&name) {
                None => true,
                Some(svalue) => cvalue.mtime != svalue.mtime || cvalue.size != svalue.size,
            },
        };
        let ghost prev = ret@;
        if keep {
            ret.push(name);
            assert(string_views(ret@) =~= string_views(prev).push(names[i as int]));
        }
        i += 1;
    }
    assert(names.take(i as int) =~= names);
    Ok(ret)
}

/// What `changed_sources` keeps: exactly the sources that need rebuilding.
pub proof fn lemma_changed_sources(src: Seq<Seq<char>>, srccache: Map<Seq<char>, CacheData>, cached: Map<Seq<char>, CacheData>)
    ensures
        forall|n: Seq<char>| #[trigger] changed_sources(src, srccache, cached).contains(n)
            <==> (src.contains(n) && needs_rebuild(n, srccache, cached)),
        changed_sources(src, srccache, cached).len() <= src.len(),
    decreases src.len(),
{
    if src.len() > 0 {
        let init = src.drop_last();
        lemma_changed_sources(init, srccache, cached);
        let rest = changed_sources(init, srccache, cached);
        assert forall|n: Seq<char>| changed_sources(src, srccache, cached).contains(n)
            <==> (src.contains(n) && needs_rebuild(n, srccache, cached)) by {
            if src.contains(n) {
                let k = choose|k: int| 0 <= k < src.len() && src[k] == n;
                if k < src.len() - 1 {
                    assert(init[k] == n);
                }
            }
            if init.contains(n) {
                let k = choose|k: int| 0 <= k < init.len() && init[k] == n;
                assert(src[k] == n);
            }
            if needs_rebuild(src.last(), srccache, cached) {
                assert(rest.push(src.last())[rest.len() as int] == src.last());
                if rest.contains(n) {
                    let k = choose|k: int| 0 <= k < rest.len() && rest[k] == n;
                    assert(rest.push(src.last())[k] == n);
                }
                if rest.push(src.last()).contains(n) && n != src.last() {
                    let k = choose|k: int| 0 <= k < rest.len() + 1 && rest.push(src.last())[k] == n;
                    assert(rest[k] == n);
                }
            }
            assert(src[src.len() - 1] == src.last());
        }
    }
}

/// What the incremental build rebuilds: every returned source is one of
/// `src`; every source that the last build did not record, that is not
/// recorded now, or whose modification time or size changed, is returned;
/// when the last build recorded something, a source recorded in both with the
/// same modification time and size is not returned; and when the last build
/// recorded nothing, every source is returned.
pub proof fn lemma_rebuild_what_changed(src: Seq<Seq<char>>, srccache: Map<Seq<char>, CacheData>, cached: Map<Seq<char>, CacheData>)
    ensures
        forall|n: Seq<char>| #[trigger] sources_to_rebuild(src, srccache, cached).contains(n) ==> src.contains(n),
        forall|n: Seq<char>|
            src.contains(n) && (!cached.contains_key(n) || !srccache.contains_key(n)
                || cached[n].mtime != srccache[n].mtime || cached[n].size != srccache[n].size)
            ==> #[trigger] sources_to_rebuild(src, srccache, cached).contains(n),
        cached != Map::<Seq<char>, CacheData>::empty() ==> forall|n: Seq<char>|
            cached.contains_key(n) && srccache.contains_key(n) && cached[n].mtime == srccache[n].mtime
                && cached[n].size == srccache[n].size
            ==> !(#[trigger] sources_to_rebuild(src, srccache, cached).contains(n)),
        cached == Map::<Seq<char>, CacheData>::empty() ==> sources_to_rebuild(src, srccache, cached) == src,
{
    lemma_changed_sources(src, srccache, cached);
    assert forall|n: Seq<char>|
        cached.contains_key(n) && srccache.contains_key(n) && cached[n].mtime == srccache[n].mtime
            && cached[n].size == srccache[n].size implies cached[n] == srccache[n] by {
        let a = cached[n];
        let b = srccache[n];
        assert(a == CacheData { size: a.size, mtime: a.mtime });
        assert(b == CacheData { size: b.size, mtime: b.mtime });
    }
    if cached == Map::<Seq<char>, CacheData>::empty() {
        assert forall|n: Seq<char>| src.contains(n) implies #[trigger] sources_to_rebuild(src, srccache, cached).contains(n) by {}
    } else {
        assert forall|n: Seq<char>|
            cached.contains_key(n) && srccache.contains_key(n) && cached[n].mtime == srccache[n].mtime
                && cached[n].size == srccache[n].size
            implies !(#[trigger] sources_to_rebuild(src, srccache, cached).contains(n)) by {
            assert(sources_to_rebuild(src, srccache, cached) == changed_sources(src, srccache, cached));
            assert(cached[n] == srccache[n]);
            assert(!needs_rebuild(n, srccache, cached));
            assert(!changed_sources(src, srccache, cached).contains(n));
        }
    }
}

/// Sources that are recorded alike in both caches are not rebuilt: comparing
/// a cache with itself asks for no source that it records.
pub proof fn lemma_unchanged_not_rebuilt(src: Seq<Seq<char>>, cache: Map<Seq<char>, CacheData>)
    requires
        forall|k: int| 0 <= k < src.len() ==> cache.contains_key(#[trigger] src[k]),
    ensures
        changed_sources(src, cache, cache) == Seq::<Seq<char>>::empty(),
    decreases src.len(),
{
    if src.len() > 0 {
        let init = src.drop_last();
        assert forall|k: int| 0 <= k < init.len() implies cache.contains_key(#[trigger] init[k]) by {
            assert(init[k] == src[k]);
        }
        lemma_unchanged_not_rebuilt(init, cache);
        assert(cache.contains_key(src[src.len() - 1]));
    }
}

// ---------------------------------------------------------------------------
// Recording the sources
// ---------------------------------------------------------------------------

/// What examining a source file gave: its size and modification time, or the
/// step that failed.
#[derive(Clone, Copy, Debug, PartialEq, Eq, Structural)]
pub enum SourceStat {
    Found { size: u64, mtime: u64 },
    OpenFailed,
    MetadataFailed,
    ModifiedFailed,
}

/// A source file and what examining it gave.
pub struct SourceProbe {
    pub path: String,
    pub stat: SourceStat,
}

/// The probes `v` with their paths as character sequences.
pub open spec fn probe_views(v: Seq<SourceProbe>) -> Seq<(Seq<char>, SourceStat)> {
    v.map_values(|p: SourceProbe| (p.path@, p.stat))
}

/// The error for a source file whose examination failed.
pub open spec fn probe_error(path: Seq<char>, stat: SourceStat) -> ErrorView {
    match stat {
        SourceStat::OpenFailed => ErrorView::CommandFailed {
            cmd: "Open file"@,
            message: "Failed to open file "@ + path,
        },
        SourceStat::MetadataFailed => ErrorView::InvalidConfig { message: "TODO THIS ERROR #ER1:"@ },
        _ => ErrorView::InvalidConfig { message: "TODO THIS ERROR #ER2"@ },
    }
}

/// The records of the probes `ps`, in order, or the error of the first probe
/// that failed.
pub open spec fn probes_result(ps: Seq<(Seq<char>, SourceStat)>) -> Result<Map<Seq<char>, CacheData>, ErrorView>
    decreases ps.len(),
{
    if ps.len() == 0 {
        Ok(Map::empty())
    } else {
        match probes_result(ps.drop_last()) {
            Err(e) => Err(e),
            Ok(m) => match ps.last().1 {
                SourceStat::Found { size, mtime } => Ok(m.insert(ps.last().0, CacheData { size, mtime })),
                other => Err(probe_error(ps.last().0, other)),
            },
        }
    }
}

/// The data a found probe measured.
pub open spec fn probe_data(st: SourceStat) -> CacheData {
    match st {
        SourceStat::Found { size, mtime } => CacheData { size, mtime },
        _ => CacheData { size: 0, mtime: 0 },
    }
}

/// Recording succeeds exactly when every source was found.
proof fn lemma_probes_ok(ps: Seq<(Seq<char>, SourceStat)>)
    ensures
        probes_result(ps) is Ok <==> forall|k: int| 0 <= k < ps.len() ==> (#[trigger] ps[k]).1 is Found,
    decreases ps.len(),
{
    if ps.len() > 0 {
        let init = ps.drop_last();
        lemma_probes_ok(init);
        assert(ps[ps.len() - 1] == ps.last());
        if probes_result(ps) is Ok {
            assert forall|k: int| 0 <= k < ps.len() implies (#[trigger] ps[k]).1 is Found by {
                if k < ps.len() - 1 {
                    assert(init[k] == ps[k]);
                }
            }
        }
        if forall|k: int| 0 <= k < ps.len() ==> (#[trigger] ps[k]).1 is Found {
            assert forall|k: int| 0 <= k < init.len() implies (#[trigger] init[k]).1 is Found by {
                assert(init[k] == ps[k]);
            }
        }
    }
}

/// A successful recording records each source with its last probe's data.
proof fn lemma_probes_data(ps: Seq<(Seq<char>, SourceStat)>, k: int)
    requires
        probes_result(ps) is Ok,
        0 <= k < ps.len(),
        forall|j: int| k < j < ps.len() ==> ps[j].0 != ps[k].0,
    ensures
        (probes_result(ps)->Ok_0).contains_key(ps[k].0),
        (probes_result(ps)->Ok_0)[ps[k].0] == probe_data(ps[k].1),
    decreases ps.len(),
{
    let init = ps.drop_last();
    let l = ps.len() - 1;
    assert(ps[l] == ps.last());
    if k < l {
        assert(init[k] == ps[k]);
        assert(ps[l].0 != ps[k].0);
        assert forall|j: int| k < j < init.len() implies init[j].0 != init[k].0 by {
            assert(init[j] == ps[j]);
        }
        lemma_probes_data(init, k);
    }
}

/// A successful recording records nothing but the probed sources.
proof fn lemma_probes_domain(ps: Seq<(Seq<char>, SourceStat)>, n: Seq<char>)
    requires
        probes_result(ps) is Ok,
        (probes_result(ps)->Ok_0).contains_key(n),
    ensures
        exists|k: int| 0 <= k < ps.len() && ps[k].0 == n,
    decreases ps.len(),
{
    let init = ps.drop_last();
    let l = ps.len() - 1;
    assert(ps[l] == ps.last());
    if n != ps.last().0 {
        lemma_probes_domain(init, n);
        let k = choose|k: int| 0 <= k < init.len() && init[k].0 == n;
        assert(ps[k] == init[k]);
    }
}

/// A failed recording gives the error of the first source not found.
proof fn lemma_probes_first_failure(ps: Seq<(Seq<char>, SourceStat)>)
    requires
        probes_result(ps) is Err,
    ensures
        exists|k: int| 0 <= k < ps.len() && !(ps[k].1 is Found)
            && (forall|j: int| 0 <= j < k ==> ps[j].1 is Found)
            && probes_result(ps) == Err::<Map<Seq<char>, CacheData>, ErrorView>(probe_error(ps[k].0, ps[k].1)),
    decreases ps.len(),
{
    let init = ps.drop_last();
    let l = ps.len() - 1;
    assert(ps[l] == ps.last());
    assert(forall|j: int| 0 <= j < init.len() ==> #[trigger] init[j] == ps[j]);
    if probes_result(init) is Err {
        lemma_probes_first_failure(init);
        let k = choose|k: int| 0 <= k < init.len() && !(init[k].1 is Found)
            && (forall|j: int| 0 <= j < k ==> init[j].1 is Found)
            && probes_result(init) == Err::<Map<Seq<char>, CacheData>, ErrorView>(probe_error(init[k].0, init[k].1));
        assert(ps[k] == init[k]);
        assert forall|j: int| 0 <= j < k implies ps[j].1 is Found by {
            assert(init[j] == ps[j]);
        }
    } else {
        lemma_probes_ok(init);
        assert forall|j: int| 0 <= j < l implies ps[j].1 is Found by {
            assert(init[j] == ps[j]);
        }
    }
}

/// What recording the sources gives: it succeeds exactly when every source
/// was found; then every source is recorded, with the size and modification
/// time of its last probe, and nothing else is; otherwise the error is that
/// of the first source that was not found.
pub proof fn lemma_probes_record(ps: Seq<(Seq<char>, SourceStat)>)
    ensures
        probes_result(ps) is Ok <==> forall|k: int| 0 <= k < ps.len() ==> (#[trigger] ps[k]).1 is Found,
        probes_result(ps) is Ok ==> forall|k: int| 0 <= k < ps.len()
            && (forall|j: int| k < j < ps.len() ==> ps[j].0 != ps[k].0) ==> {
                let m = probes_result(ps)->Ok_0;
                m.contains_key((#[trigger] ps[k]).0) && m[ps[k].0] == probe_data(ps[k].1)
            },
        probes_result(ps) is Ok ==> forall|n: Seq<char>| #[trigger] (probes_result(ps)->Ok_0).contains_key(n)
            ==> exists|k: int| 0 <= k < ps.len() && ps[k].0 == n,
        probes_result(ps) is Err ==> exists|k: int| 0 <= k < ps.len() && !(ps[k].1 is Found)
            && (forall|j: int| 0 <= j < k ==> ps[j].1 is Found)
            && probes_result(ps) == Err::<Map<Seq<char>, CacheData>, ErrorView>(probe_error(ps[k].0, ps[k].1)),
{
    lemma_probes_ok(ps);
    if probes_result(ps) is Ok {
        assert forall|k: int| 0 <= k < ps.len()
            && (forall|j: int| k < j < ps.len() ==> ps[j].0 != ps[k].0) implies {
                let m = probes_result(ps)->Ok_0;
                m.contains_key((#[trigger] ps[k]).0) && m[ps[k].0] == probe_data(ps[k].1)
            } by {
            lemma_probes_data(ps, k);
        }
        assert forall|n: Seq<char>| #[trigger] (probes_result(ps)->Ok_0).contains_key(n)
            implies exists|k: int| 0 <= k < ps.len() && ps[k].0 == n by {
            lemma_probes_domain(ps, n);
        }
    } else {
        lemma_probes_first_failure(ps);
    }
}

/// Once a prefix of the probes has failed, the whole has failed the same way.
proof fn lemma_probes_failed_prefix(ps: Seq<(Seq<char>, SourceStat)>, j: int)
    requires
        0 <= j <= ps.len(),
        probes_result(ps.take(j)) is Err,
    ensures
        probes_result(ps) == probes_result(ps.take(j)),
    decreases ps.len(),
{
    if j == ps.len() {
        assert(ps.take(j) =~= ps);
    } else {
        assert(ps.drop_last().take(j) =~= ps.take(j));
        lemma_probes_failed_prefix(ps.drop_last(), j);
    }
}

/// The error for a failed probe.
fn probe_failure(path: &String, stat: SourceStat) -> (res: ConfigError)
    requires
        !(stat is Found),
    ensures
        res@ == probe_error(path@, stat),
{
    match stat {
        SourceStat::OpenFailed => {
            let mut message = String::from_str("Failed to open file ");
            message.append(path.as_str());
            ConfigError::CommandFailed { cmd: String::from_str("Open file"), message }
        },
        SourceStat::MetadataFailed => ConfigError::invalid_config("TODO THIS ERROR #ER1:"),
        _ => ConfigError::invalid_config("TODO THIS ERROR #ER2"),
    }
}

/// The cache of the examined sources: each found source recorded with its
/// size and modification time, a later probe of a path winning; or the error
/// of the first probe that failed.
pub fn cache_compute_src(probes: Vec<SourceProbe>) -> (res: Result<CacheMetadata, ConfigError>)
    ensures
        match res {
            Ok(m) => probes_result(probe_views(probes@)) == Ok::<Map<Seq<char>, CacheData>, ErrorView>(m@)
                && distinct_names(m.entries()),
            Err(e) => probes_result(probe_views(probes@)) == Err::<Map<Seq<char>, CacheData>, ErrorView>(e@),
        },
{
    let mut ret = CacheMetadata::new();
    let ghost ps = probe_views(probes@);
    let mut i: usize = 0;
    assert(ps.take(0) =~= Seq::<(Seq<char>, SourceStat)>::empty());
    while i < probes.len()
        invariant
            ps == probe_views(probes@),
            i <= probes.len(),
            probes_result(ps.take(i as int)) == Ok::<Map<Seq<char>, CacheData>, ErrorView>(ret@),
            distinct_names(ret.entries()),
        decreases probes.len() - i,
    {
        let probe = &probes[i];
        assert(ps.take(i + 1).drop_last() =~= ps.take(i as int));
        assert(ps.take(i + 1).last() == (probe.path@, probe.stat));
        match probe.stat {
            SourceStat::Found { size, mtime } => {
                ret.insert(probe.path.clone(), CacheData { size, mtime });
            },
            _ => {
                let err = probe_failure(&probe.path, probe.stat);
                proof {
                    lemma_probes_failed_prefix(ps, i + 1);
                }
                return Err(err);
            },
        }
        i += 1;
    }
    assert(ps.take(i as int) =~= ps);
    Ok(ret)
}


/// An incremental build after an unchanged one rebuilds nothing: when the
/// cache file was written from records `es` of storable names, and the
/// sources are recorded there and still measure the same, reading the file
/// back and comparing asks for no source.
pub proof fn lemma_nothing_to_rebuild_after_update(src: Seq<Seq<char>>, es: Seq<(Seq<char>, CacheData)>)
    requires
        forall|k: int| 0 <= k < es.len() ==> storable_name(#[trigger] es[k].0),
        forall|k: int| 0 <= k < src.len() ==> entries_map(es).contains_key(#[trigger] src[k]),
    ensures
        parse_cache_text(serialize_entries(es)) == Ok::<Map<Seq<char>, CacheData>, ErrorView>(entries_map(es)),
        sources_to_rebuild(src, entries_map(es), entries_map(es)) == Seq::<Seq<char>>::empty(),
{
    lemma_cache_text_roundtrip(es);
    lemma_unchanged_not_rebuilt(src, entries_map(es));
    if entries_map(es) == Map::<Seq<char>, CacheData>::empty() {
        if src.len() > 0 {
            assert(entries_map(es).contains_key(src[0]));
        }
        assert(src =~= Seq::<Seq<char>>::empty());
    }
}


// ---------------------------------------------------------------------------
// File errors
// ---------------------------------------------------------------------------

/// The error for a cache file that could not be read.
pub open spec fn read_failure() -> ErrorView {
    ErrorView::CommandFailed {
        cmd: "Open file"@,
        message: "Failed to open cache incremental file "@ + INCREM_FILE@,
    }
}

/// The error for a cache file that could not be read.
pub fn cache_read_failure() -> (res: ConfigError)
    ensures
        res@ == read_failure(),
{
    let mut message = String::from_str("Failed to open cache incremental file ");
    message.append(INCREM_FILE);
    ConfigError::CommandFailed { cmd: String::from_str("Open file"), message }
}

/// The step of writing the cache file that failed.
#[derive(Clone, Copy, Debug, PartialEq, Eq, Structural)]
pub enum WriteStep {
    Create,
    Write,
}

/// The error for a cache file that could not be written.
pub open spec fn write_failure(step: WriteStep) -> ErrorView {
    match step {
        WriteStep::Create => ErrorView::CommandFailed {
            cmd: "Create cache file"@,
            message: "Failed to create incremental cache file"@,
        },
        WriteStep::Write => ErrorView::CommandFailed {
            cmd: "Write file"@,
            message: "Failed to write cache file"@,
        },
    }
}

/// The error for a cache file that could not be written.
pub fn cache_write_failure(step: WriteStep) -> (res: ConfigError)
    ensures
        res@ == write_failure(step),
{
    match step {
        WriteStep::Create => ConfigError::command_failed(
            "Create cache file",
            "Failed to create incremental cache file",
        ),
        WriteStep::Write => ConfigError::command_failed("Write file", "Failed to write cache file"),
    }
}

} // verus!
