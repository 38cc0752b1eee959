//! The parsed configuration: named sections of key/value entries.
use vstd::prelude::*;

use crate::text::string_is;

verus! {

/// One `key=value` line of a section.
pub struct Entry {
    pub key: String,
    pub value: String,
}

/// A named section and its entries, in the order they are kept; no key
/// occurs twice.
pub struct Section {
    name: String,
    entries: Vec<Entry>,
}

/// A configuration: its sections, in the order they are kept.
pub struct Config {
    section: Vec<Section>,
}

/// No key occurs twice among the entries `es`.
pub open spec fn distinct_keys(es: Seq<(Seq<char>, Seq<char>)>) -> bool {
    forall|i: int, j: int| 0 <= i < j < es.len() ==> es[i].0 != es[j].0
}

impl Section {
    /// The name of the section.
    pub closed spec fn name_view(&self) -> Seq<char> {
        self.name@
    }

    /// The entries of the section as pairs of character sequences.
    pub closed spec fn pairs(&self) -> Seq<(Seq<char>, Seq<char>)> {
        entry_pairs(self.entries@)
    }

    #[verifier::type_invariant]
    spec fn keys_distinct(&self) -> bool {
        distinct_keys(entry_pairs(self.entries@))
    }

    /// The name of the section.
    pub fn name(&self) -> (res: &String)
        ensures
            res@ == self.name_view(),
    {
        &self.name
    }

    /// The entries of the section, in the order they are kept; no key occurs
    /// twice.
    pub fn entries(&self) -> (res: &Vec<Entry>)
        ensures
            entry_pairs(res@) == self.pairs(),
            distinct_keys(self.pairs()),
    {
        proof {
            use_type_invariant(self);
        }
        &self.entries
    }
}

/// The entries `v` as pairs of character sequences.
pub open spec fn entry_pairs(v: Seq<Entry>) -> Seq<(Seq<char>, Seq<char>)> {
    v.map_values(|e: Entry| (e.key@, e.value@))
}

/// The names of the sections `v`.
pub open spec fn section_names(v: Seq<Section>) -> Seq<Seq<char>> {
    v.map_values(|s: Section| s.name_view())
}

/// The position of the first `x` in `s`, if any.
pub open spec fn first_index<A>(s: Seq<A>, x: A) -> Option<int>
    decreases s.len(),
{
    if s.len() == 0 {
        None
    } else {
        match first_index(s.drop_last(), x) {
            Some(i) => Some(i),
            None => if s.last() == x { Some(s.len() - 1) } else { None },
        }
    }
}

/// `first_index` finds the first position that holds `x`.
pub proof fn lemma_first_index<A>(s: Seq<A>, x: A)
    ensures
        match first_index(s, x) {
            Some(i) => 0 <= i < s.len() && s[i] == x && forall|j: int| 0 <= j < i ==> s[j] != x,
            None => forall|j: int| 0 <= j < s.len() ==> s[j] != x,
        },
    decreases s.len(),
{
    if s.len() > 0 {
        let init = s.drop_last();
        lemma_first_index(init, x);
        assert(forall|j: int| 0 <= j < init.len() ==> #[trigger] s[j] == init[j]);
    }
}

/// A position that holds `x`, with no `x` before it, is what `first_index`
/// finds.
pub proof fn lemma_first_index_at<A>(s: Seq<A>, x: A, i: int)
    requires
        0 <= i < s.len(),
        s[i] == x,
        forall|j: int| 0 <= j < i ==> s[j] != x,
    ensures
        first_index(s, x) == Some(i),
{
    lemma_first_index(s, x);
    match first_index(s, x) {
        Some(k) => {
            if k < i {
                assert(s[k] != x);
            } else if k > i {
            }
        },
        None => {
            assert(s[i] != x);
        },
    }
}

/// The keys of the entries `es`.
pub open spec fn pair_keys(es: Seq<(Seq<char>, Seq<char>)>) -> Seq<Seq<char>> {
    es.map_values(|e: (Seq<char>, Seq<char>)| e.0)
}

/// The entries `es` after `key` has been given `value`: the first entry of
/// that key is updated in place, otherwise an entry is appended.
pub open spec fn set_pair(es: Seq<(Seq<char>, Seq<char>)>, key: Seq<char>, value: Seq<char>) -> Seq<(Seq<char>, Seq<char>)> {
    match first_index(pair_keys(es), key) {
        Some(i) => es.update(i, (key, value)),
        None => es.push((key, value)),
    }
}

impl Config {
    /// The entries of the first section named `name`, if there is one.
    pub closed spec fn section_entries(&self, name: Seq<char>) -> Option<Seq<(Seq<char>, Seq<char>)>> {
        match first_index(section_names(self.section@), name) {
            Some(i) => Some(self.section@[i].pairs()),
            None => None,
        }
    }

    /// A configuration without sections.
    pub fn new() -> (res: Config)
        ensures
            forall|n: Seq<char>| res.section_entries(n) is None,
    {
        Config { section: Vec::new() }
    }

    /// The position of the first section named `name`, if any.
    fn position(&self, name: &str) -> (res: Option<usize>)
        ensures
            match res {
                Some(i) => first_index(section_names(self.section@), name@) == Some(i as int),
                None => first_index(section_names(self.section@), name@) == None::<int>,
            },
    {
        let ghost names = section_names(self.section@);
        proof {
            lemma_first_index(names, name@);
        }
        let mut i: usize = 0;
        while i < self.section.len()
            invariant
                names == section_names(self.section@),
                i <= self.section.len(),
                forall|j: int| 0 <= j < i ==> names[j] != name@,
            decreases self.section.len() - i,
        {
            if string_is(&self.section[i].name, name) {
                proof {
                    lemma_first_index_at(names, name@, i as int);
                }
                return Some(i);
            }
            i += 1;
        }
        proof {
            lemma_first_index(names, name@);
            if first_index(names, name@) is Some {
                let k = first_index(names, name@)->0;
                assert(names[k] != name@);
            }
        }
        None
    }

    /// The first section named `name`, if there is one.
    pub fn get(&self, name: &str) -> (res: Option<&Section>)
        ensures
            match res {
                Some(s) => self.section_entries(name@) == Some(s.pairs()) && s.name_view() == name@
                    && distinct_keys(s.pairs()),
                None => self.section_entries(name@) == None::<Seq<(Seq<char>, Seq<char>)>>,
            },
    {
        proof {
            lemma_first_index(section_names(self.section@), name@);
        }
        match self.position(name) {
            Some(i) => {
                let s = &self.section[i];
                proof {
                    use_type_invariant(s);
                }
                Some(s)
            },
            None => None,
        }
    }

    /// Gives `key` the value `value` in the section named `section`, creating
    /// the section or the entry where it is missing; every other section is
    /// left as it was.
    pub fn set(&mut self, section: &str, key: &str, value: &str)
        ensures
            final(self).section_entries(section@) == Some(set_pair(
                match old(self).section_entries(section@) {
                    Some(es) => es,
                    None => Seq::<(Seq<char>, Seq<char>)>::empty(),
                },
                key@,
                value@,
            )),
            forall|n: Seq<char>| n != section@ ==> final(self).section_entries(n) == old(self).section_entries(n),
    {
        let ghost names = section_names(self.section@);
        proof {
            lemma_first_index(names, section@);
        }
        match self.position(section) {
            Some(i) => {
                let old_section = &self.section[i];
                proof {
                    use_type_invariant(old_section);
                }
                let entries = with_entry(&old_section.entries, key, value);
                let ghost pairs = entry_pairs(entries@);
                self.section.set(i, Section { name: String::from_str(section), entries });
                assert(section_names(self.section@) =~= names);
                assert(self.section@[i as int].pairs() == pairs);
                assert forall|n: Seq<char>| n != section@ implies self.section_entries(n) == old(self).section_entries(n) by {
                    lemma_first_index(names, n);
                    if first_index(names, n) is Some {
                        let k = first_index(names, n)->0;
                        assert(names[i as int] == section@);
                        assert(self.section@[k] == old(self).section@[k]);
                    }
                }
            },
            None => {
                let mut entries: Vec<Entry> = Vec::new();
                entries.push(Entry { key: String::from_str(key), value: String::from_str(value) });
                assert(distinct_keys(entry_pairs(entries@)));
                self.section.push(Section { name: String::from_str(section), entries });
                let ghost new_names = section_names(self.section@);
                assert(new_names =~= names.push(section@));
                proof {
                    lemma_first_index_at(new_names, section@, names.len() as int);
                    assert forall|n: Seq<char>| n != section@ implies first_index(new_names, n) == first_index(names, n) by {
                        assert(new_names.drop_last() =~= names);
                    }
                    assert(entry_pairs(entries@) =~= set_pair(Seq::<(Seq<char>, Seq<char>)>::empty(), key@, value@));
                }
                assert forall|n: Seq<char>| n != section@ implies self.section_entries(n) == old(self).section_entries(n) by {
                    lemma_first_index(names, n);
                    if first_index(names, n) is Some {
                        let k = first_index(names, n)->0;
                        assert(self.section@[k] == old(self).section@[k]);
                    }
                }
            },
        }
    }
}

/// The entries `entries` after `key` has been given `value`.
fn with_entry(entries: &Vec<Entry>, key: &str, value: &str) -> (res: Vec<Entry>)
    requires
        distinct_keys(entry_pairs(entries@)),
    ensures
        entry_pairs(res@) == set_pair(entry_pairs(entries@), key@, value@),
        distinct_keys(entry_pairs(res@)),
{
    let ghost es = entry_pairs(entries@);
    let ghost keys = pair_keys(es);
    proof {
        lemma_first_index(keys, key@);
    }
    let mut res: Vec<Entry> = Vec::new();
    let mut found = false;
    let mut i: usize = 0;
    assert(es.take(0) =~= Seq::<(Seq<char>, Seq<char>)>::empty());
    while i < entries.len()
        invariant
            es == entry_pairs(entries@),
            keys == pair_keys(es),
            i <= entries.len(),
            found <==> (exists|j: int| 0 <= j < i && keys[j] == key@),
            !found ==> entry_pairs(res@) == es.take(i as int),
            found ==> (first_index(keys, key@) matches Some(f) && 0 <= f < i
                && entry_pairs(res@) == es.take(i as int).update(f, (key@, value@))),
        decreases entries.len() - i,
    {
        let e = &entries[i];
        let ghost prev = entry_pairs(res@);
        assert(keys[i as int] == e.key@);
        if !found && string_is(&e.key, key) {
            res.push(Entry { key: String::from_str(key), value: String::from_str(value) });
            proof {
                lemma_first_index_at(keys, key@, i as int);
                assert(entry_pairs(res@) =~= es.take(i + 1).update(i as int, (key@, value@)));
            }
            found = true;
        } else {
            res.push(Entry { key: e.key.clone(), value: e.value.clone() });
            assert(entry_pairs(res@) =~= prev.push(es[i as int]));
            proof {
                if found {
                    let f = first_index(keys, key@)->0;
                    assert(prev == es.take(i as int).update(f, (key@, value@)));
                    assert(entry_pairs(res@) =~= es.take(i + 1).update(f, (key@, value@)));
                } else {
                    assert(entry_pairs(res@) =~= es.take(i + 1));
                }
            }
        }
        i += 1;
    }
    assert(es.take(i as int) =~= es);
    if !found {
        proof {
            lemma_first_index(keys, key@);
        }
        res.push(Entry { key: String::from_str(key), value: String::from_str(value) });
        assert(entry_pairs(res@) =~= es.push((key@, value@)));
    }
    proof {
        lemma_set_pair_distinct(es, key@, value@);
    }
    res
}

/// Giving a key a value keeps the keys distinct.
pub proof fn lemma_set_pair_distinct(es: Seq<(Seq<char>, Seq<char>)>, key: Seq<char>, value: Seq<char>)
    requires
        distinct_keys(es),
    ensures
        distinct_keys(set_pair(es, key, value)),
{
    let keys = pair_keys(es);
    lemma_first_index(keys, key);
    match first_index(keys, key) {
        Some(f) => {
            assert(keys[f] == es[f].0);
        },
        None => {
            assert forall|j: int| 0 <= j < es.len() implies es[j].0 != key by {
                assert(keys[j] == es[j].0);
            }
        },
    }
}

} // verus!
