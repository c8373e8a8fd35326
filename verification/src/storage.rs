//! The key/value state that survives between checks, and the transactions
//! through which the notifiers change it.
//!
//! The state file holds one `key=value` entry per line; blank lines and
//! lines starting with `#` are ignored.

use vstd::prelude::*;

use crate::text::{
    chars_of, index_of, index_of_char, lemma_index_of, lemma_index_of_concat, lemma_trim_unchanged,
    lemma_trimmed_ends, string_of, to_owned_string, trim, trim_str, views,
};

verus! {

// ---------------------------------------------------------------------------
// Specifications
// ---------------------------------------------------------------------------

/// The views of key/value entries.
pub open spec fn pair_views(e: Seq<(String, String)>) -> Seq<(Seq<char>, Seq<char>)> {
    e.map_values(|p: (String, String)| (p.0@, p.1@))
}

/// Whether some entry has key `k`.
pub open spec fn has_key(e: Seq<(Seq<char>, Seq<char>)>, k: Seq<char>) -> bool {
    exists|i: int| 0 <= i < e.len() && (#[trigger] e[i]).0 == k
}

/// No two entries share a key.
pub open spec fn keys_unique(e: Seq<(Seq<char>, Seq<char>)>) -> bool {
    forall|i: int, j: int| 0 <= i < e.len() && 0 <= j < e.len() && i != j ==> (#[trigger] e[i]).0 != (
    #[trigger] e[j]).0
}

/// The index of the entry with key `k`.
pub open spec fn key_index(e: Seq<(Seq<char>, Seq<char>)>, k: Seq<char>) -> int {
    choose|i: int| 0 <= i < e.len() && (#[trigger] e[i]).0 == k
}

/// The map that a list of entries with distinct keys stands for.
pub open spec fn entries_map(e: Seq<(Seq<char>, Seq<char>)>) -> Map<Seq<char>, Seq<char>> {
    Map::new(|k: Seq<char>| has_key(e, k), |k: Seq<char>| e[key_index(e, k)].1)
}

/// The value under `k`, if any.
pub open spec fn map_get(m: Map<Seq<char>, Seq<char>>, k: Seq<char>) -> Option<Seq<char>> {
    if m.contains_key(k) {
        Some(m[k])
    } else {
        None
    }
}

/// What one line of the state file does to the state read so far.
pub open spec fn apply_line(m: Map<Seq<char>, Seq<char>>, line: Seq<char>) -> Map<
    Seq<char>,
    Seq<char>,
> {
    let t = trim(line);
    if t.len() == 0 || t[0] == '#' {
        m
    } else {
        match index_of(t, '=') {
            Some(i) => m.insert(trim(t.take(i)), trim(t.skip(i + 1))),
            None => m,
        }
    }
}

/// The state that the lines of a state file describe; a later entry for a
/// key replaces an earlier one.
pub open spec fn parse_state(lines: Seq<Seq<char>>) -> Map<Seq<char>, Seq<char>>
    decreases lines.len(),
{
    if lines.len() == 0 {
        Map::empty()
    } else {
        apply_line(parse_state(lines.drop_last()), lines.last())
    }
}

/// The line that stores one entry.
pub open spec fn entry_line(p: (Seq<char>, Seq<char>)) -> Seq<char> {
    p.0 + seq!['='] + p.1
}

/// The lines that store a list of entries, one per entry, in order.
pub open spec fn state_lines(e: Seq<(Seq<char>, Seq<char>)>) -> Seq<Seq<char>> {
    Seq::new(e.len(), |i: int| entry_line(e[i]))
}

/// An entry that reads back unchanged from its line: a key with no `=`, not
/// starting with `#`, and key and value without surrounding whitespace. The
/// key may be empty.
pub open spec fn entry_storable(p: (Seq<char>, Seq<char>)) -> bool {
    &&& p.0.len() > 0 ==> p.0[0] != '#'
    &&& !p.0.contains('=')
    &&& trim(p.0) == p.0
    &&& trim(p.1) == p.1
}

// ---------------------------------------------------------------------------
// Lemmas
// ---------------------------------------------------------------------------

pub proof fn lemma_pair_views_push(e: Seq<(String, String)>, p: (String, String))
    ensures
        pair_views(e.push(p)) == pair_views(e).push((p.0@, p.1@)),
{
    assert(pair_views(e.push(p)) =~= pair_views(e).push((p.0@, p.1@)));
}

pub proof fn lemma_pair_views_update(e: Seq<(String, String)>, i: int, p: (String, String))
    requires
        0 <= i < e.len(),
    ensures
        pair_views(e.update(i, p)) == pair_views(e).update(i, (p.0@, p.1@)),
{
    assert(pair_views(e.update(i, p)) =~= pair_views(e).update(i, (p.0@, p.1@)));
}

/// With distinct keys, the entry at index `i` gives the value under its key.
pub proof fn lemma_entries_map_at(e: Seq<(Seq<char>, Seq<char>)>, i: int)
    requires
        keys_unique(e),
        0 <= i < e.len(),
    ensures
        entries_map(e).contains_key(e[i].0),
        entries_map(e)[e[i].0] == e[i].1,
        key_index(e, e[i].0) == i,
{
    let k = e[i].0;
    assert(has_key(e, k));
    let j = key_index(e, k);
    assert(0 <= j < e.len() && e[j].0 == k);
}

/// Adding an entry under a new key inserts it into the map.
pub proof fn lemma_entries_map_push(e: Seq<(Seq<char>, Seq<char>)>, p: (Seq<char>, Seq<char>))
    requires
        keys_unique(e),
        !has_key(e, p.0),
    ensures
        keys_unique(e.push(p)),
        entries_map(e.push(p)) == entries_map(e).insert(p.0, p.1),
{
    let f = e.push(p);
    assert(keys_unique(f)) by {
        assert forall|i: int, j: int|
            0 <= i < f.len() && 0 <= j < f.len() && i != j implies (#[trigger] f[i]).0 != (
        #[trigger] f[j]).0 by {
            if i < e.len() && j < e.len() {
                assert(f[i] == e[i] && f[j] == e[j]);
            } else if i < e.len() {
                assert(f[i] == e[i]);
            } else {
                assert(f[j] == e[j]);
            }
        }
    }
    assert forall|k: Seq<char>| #[trigger] has_key(f, k) == (has_key(e, k) || k == p.0) by {
        if has_key(e, k) {
            let i = choose|i: int| 0 <= i < e.len() && (#[trigger] e[i]).0 == k;
            assert(f[i] == e[i]);
        }
        if k == p.0 {
            assert(f[e.len() as int] == p);
        }
        if has_key(f, k) {
            let i = choose|i: int| 0 <= i < f.len() && (#[trigger] f[i]).0 == k;
            if i < e.len() {
                assert(f[i] == e[i]);
            }
        }
    }
    assert forall|k: Seq<char>| #[trigger]
        entries_map(f).contains_key(k) implies entries_map(f)[k] == entries_map(e).insert(
        p.0,
        p.1,
    )[k] by {
        if k == p.0 {
            lemma_entries_map_at(f, e.len() as int);
        } else {
            let i = choose|i: int| 0 <= i < e.len() && (#[trigger] e[i]).0 == k;
            lemma_entries_map_at(e, i);
            assert(f[i] == e[i]);
            lemma_entries_map_at(f, i);
        }
    }
    assert(entries_map(f) =~= entries_map(e).insert(p.0, p.1));
}

/// Replacing the value of an existing entry replaces it in the map.
pub proof fn lemma_entries_map_update(
    e: Seq<(Seq<char>, Seq<char>)>,
    i: int,
    p: (Seq<char>, Seq<char>),
)
    requires
        keys_unique(e),
        0 <= i < e.len(),
        e[i].0 == p.0,
    ensures
        keys_unique(e.update(i, p)),
        entries_map(e.update(i, p)) == entries_map(e).insert(p.0, p.1),
{
    let f = e.update(i, p);
    assert(keys_unique(f)) by {
        assert forall|a: int, b: int|
            0 <= a < f.len() && 0 <= b < f.len() && a != b implies (#[trigger] f[a]).0 != (
        #[trigger] f[b]).0 by {
            assert(f[a].0 == e[a].0);
            assert(f[b].0 == e[b].0);
        }
    }
    assert forall|k: Seq<char>| #[trigger] has_key(f, k) == has_key(e, k) by {
        if has_key(e, k) {
            let j = choose|j: int| 0 <= j < e.len() && (#[trigger] e[j]).0 == k;
            assert(f[j].0 == e[j].0);
        }
        if has_key(f, k) {
            let j = choose|j: int| 0 <= j < f.len() && (#[trigger] f[j]).0 == k;
            assert(f[j].0 == e[j].0);
        }
    }
    assert forall|k: Seq<char>| #[trigger]
        entries_map(f).contains_key(k) implies entries_map(f)[k] == entries_map(e).insert(
        p.0,
        p.1,
    )[k] by {
        let j = choose|j: int| 0 <= j < f.len() && (#[trigger] f[j]).0 == k;
        lemma_entries_map_at(f, j);
        if j != i {
            assert(f[j] == e[j]);
            lemma_entries_map_at(e, j);
        }
    }
    assert(entries_map(f) =~= entries_map(e).insert(p.0, p.1));
}

pub proof fn lemma_parse_state_push(lines: Seq<Seq<char>>, l: Seq<char>)
    ensures
        parse_state(lines.push(l)) == apply_line(parse_state(lines), l),
{
    assert(lines.push(l).drop_last() =~= lines);
}

/// The line of a storable entry is read back as that entry.
pub proof fn lemma_entry_line_read_back(m: Map<Seq<char>, Seq<char>>, p: (Seq<char>, Seq<char>))
    requires
        entry_storable(p),
    ensures
        apply_line(m, entry_line(p)) == m.insert(p.0, p.1),
{
    let l = entry_line(p);
    lemma_trimmed_ends(p.0);
    lemma_trimmed_ends(p.1);
    assert(l[0] == if p.0.len() > 0 {
        p.0[0]
    } else {
        '='
    });
    assert(l.last() == if p.1.len() > 0 {
        p.1.last()
    } else {
        '='
    });
    lemma_trim_unchanged(l);
    assert(!p.0.contains('=')) ;
    assert(l =~= p.0 + (seq!['='] + p.1));
    lemma_index_of_concat(p.0, seq!['='] + p.1, '=');
    assert((seq!['='] + p.1)[0] == '=');
    assert(index_of(seq!['='] + p.1, '=') == Some(0int));
    assert(l.take(p.0.len() as int) =~= p.0);
    assert(l.skip(p.0.len() as int + 1) =~= p.1);
}

/// Law: for entries with distinct, storable keys (the empty key among them)
/// and storable values, the lines that the state is saved as read back as the same state.
pub proof fn law_saved_state_reads_back(e: Seq<(Seq<char>, Seq<char>)>)
    requires
        keys_unique(e),
        forall|i: int| 0 <= i < e.len() ==> entry_storable(#[trigger] e[i]),
    ensures
        parse_state(state_lines(e)) == entries_map(e),
    decreases e.len(),
{
    if e.len() == 0 {
        assert(state_lines(e) =~= Seq::<Seq<char>>::empty());
        assert(entries_map(e) =~= Map::<Seq<char>, Seq<char>>::empty());
    } else {
        let f = e.drop_last();
        let p = e.last();
        assert(keys_unique(f)) by {
            assert forall|i: int, j: int|
                0 <= i < f.len() && 0 <= j < f.len() && i != j implies (#[trigger] f[i]).0 != (
            #[trigger] f[j]).0 by {
                assert(f[i] == e[i] && f[j] == e[j]);
            }
        }
        assert forall|i: int| 0 <= i < f.len() implies entry_storable(#[trigger] f[i]) by {
            assert(f[i] == e[i]);
        }
        law_saved_state_reads_back(f);
        assert(!has_key(f, p.0)) by {
            if has_key(f, p.0) {
                let i = choose|i: int| 0 <= i < f.len() && (#[trigger] f[i]).0 == p.0;
                assert(e[i] == f[i]);
                assert(e[e.len() - 1] == p);
            }
        }
        lemma_entries_map_push(f, p);
        assert(e =~= f.push(p));
        assert(state_lines(e) =~= state_lines(f).push(entry_line(p)));
        lemma_parse_state_push(state_lines(f), entry_line(p));
        lemma_entry_line_read_back(parse_state(state_lines(f)), p);
    }
}


/// Law: a read gives back what a write wrote, and a write leaves every
/// other key as it was (what `Transaction::get` returns after
/// `Transaction::set`).
pub proof fn law_read_after_write(
    m: Map<Seq<char>, Seq<char>>,
    k: Seq<char>,
    v: Seq<char>,
    other: Seq<char>,
)
    ensures
        map_get(m.insert(k, v), k) == Some(v),
        other != k ==> map_get(m.insert(k, v), other) == map_get(m, other),
{
}

// ---------------------------------------------------------------------------
// The map
// ---------------------------------------------------------------------------

/// A string map held as a list of entries with distinct keys.
pub struct StateMap {
    entries: Vec<(String, String)>,
}

impl StateMap {
    #[verifier::type_invariant]
    spec fn wf(self) -> bool {
        keys_unique(pair_views(self.entries@))
    }

    /// The entries, in the order in which they are saved.
    pub closed spec fn pairs(self) -> Seq<(Seq<char>, Seq<char>)> {
        pair_views(self.entries@)
    }

    /// The map that the entries stand for.
    pub closed spec fn map(self) -> Map<Seq<char>, Seq<char>> {
        entries_map(pair_views(self.entries@))
    }

    pub fn new() -> (m: StateMap)
        ensures
            m.map() == Map::<Seq<char>, Seq<char>>::empty(),
            m.pairs() == Seq::<(Seq<char>, Seq<char>)>::empty(),
    {
        let m = StateMap { entries: Vec::new() };
        assert(pair_views(m.entries@) =~= Seq::<(Seq<char>, Seq<char>)>::empty());
        assert(m.map() =~= Map::<Seq<char>, Seq<char>>::empty());
        m
    }

    /// A copy of the map.
    pub fn copy(&self) -> (r: StateMap)
        ensures
            r.map() == self.map(),
            r.pairs() == self.pairs(),
    {
        proof {
            use_type_invariant(self);
        }
        let mut v: Vec<(String, String)> = Vec::new();
        let mut i: usize = 0;
        while i < self.entries.len()
            invariant
                i <= self.entries@.len(),
                pair_views(v@) == pair_views(self.entries@.take(i as int)),
            decreases self.entries@.len() - i,
        {
            let p = (self.entries[i].0.clone(), self.entries[i].1.clone());
            proof {
                lemma_pair_views_push(v@, p);
                assert(self.entries@.take(i + 1) =~= self.entries@.take(i as int).push(
                    self.entries@[i as int],
                ));
                lemma_pair_views_push(self.entries@.take(i as int), self.entries@[i as int]);
            }
            v.push(p);
            i = i + 1;
        }
        assert(self.entries@.take(i as int) =~= self.entries@);
        StateMap { entries: v }
    }

    fn find(&self, key: &String) -> (r: Option<usize>)
        ensures
            r matches Some(i) ==> i < self.entries@.len() && self.entries@[i as int].0@ == key@,
            r is None ==> !has_key(self.pairs(), key@),
    {
        let mut i: usize = 0;
        while i < self.entries.len()
            invariant
                i <= self.entries@.len(),
                forall|j: int| 0 <= j < i ==> self.entries@[j].0@ != key@,
            decreases self.entries@.len() - i,
        {
            if self.entries[i].0 == *key {
                return Some(i);
            }
            i = i + 1;
        }
        proof {
            if has_key(self.pairs(), key@) {
                let j = choose|j: int|
                    0 <= j < self.pairs().len() && (#[trigger] self.pairs()[j]).0 == key@;
                assert(self.pairs()[j].0 == self.entries@[j].0@);
            }
        }
        None
    }

    /// The value under `key`.
    pub fn get(&self, key: &str) -> (r: Option<&str>)
        ensures
            match r {
                Some(v) => self.map().contains_key(key@) && self.map()[key@] == v@,
                None => !self.map().contains_key(key@),
            },
    {
        proof {
            use_type_invariant(self);
        }
        let k = to_owned_string(key);
        match self.find(&k) {
            Some(i) => {
                proof {
                    lemma_entries_map_at(self.pairs(), i as int);
                    assert(self.pairs()[i as int] == (self.entries@[i as int].0@, self.entries@[
                        i as int
                    ].1@));
                }
                Some(self.entries[i].1.as_str())
            },
            None => None,
        }
    }

    /// Puts `value` under `key`, replacing any value there.
    pub fn insert(&mut self, key: String, value: String)
        ensures
            final(self).map() == old(self).map().insert(key@, value@),
    {
        proof {
            use_type_invariant(&*self);
        }
        let found = self.find(&key);
        let ghost before = self.pairs();
        let mut entries: Vec<(String, String)> = Vec::new();
        std::mem::swap(&mut entries, &mut self.entries);
        match found {
            Some(i) => {
                proof {
                    lemma_pair_views_update(entries@, i as int, (key, value));
                    lemma_entries_map_update(before, i as int, (key@, value@));
                }
                entries.set(i, (key, value));
            },
            None => {
                proof {
                    lemma_pair_views_push(entries@, (key, value));
                    lemma_entries_map_push(before, (key@, value@));
                }
                entries.push((key, value));
            },
        }
        self.entries = entries;
    }

    /// Whether every entry of `self` is in `other` with the same value.
    fn included_in(&self, other: &StateMap) -> (r: bool)
        ensures
            r == (forall|k: Seq<char>|
                #[trigger] self.map().contains_key(k) ==> other.map().contains_key(k)
                    && other.map()[k] == self.map()[k]),
    {
        proof {
            use_type_invariant(self);
            use_type_invariant(other);
        }
        let mut i: usize = 0;
        while i < self.entries.len()
            invariant
                i <= self.entries@.len(),
                keys_unique(self.pairs()),
                keys_unique(other.pairs()),
                forall|j: int|
                    0 <= j < i ==> other.map().contains_key(#[trigger] self.pairs()[j].0)
                        && other.map()[self.pairs()[j].0] == self.pairs()[j].1,
            decreases self.entries@.len() - i,
        {
            let ghost pi = self.pairs()[i as int];
            assert(pi == (self.entries@[i as int].0@, self.entries@[i as int].1@));
            match other.find(&self.entries[i].0) {
                Some(j) => {
                    proof {
                        lemma_entries_map_at(other.pairs(), j as int);
                        assert(other.pairs()[j as int] == (other.entries@[j as int].0@,
                        other.entries@[j as int].1@));
                    }
                    if other.entries[j].1 != self.entries[i].1 {
                        proof {
                            lemma_entries_map_at(self.pairs(), i as int);
                            assert(key_index(other.pairs(), pi.0) == j);
                            assert(self.map().contains_key(pi.0) && !(other.map()[pi.0]
                                == self.map()[pi.0]));
                        }
                        return false;
                    }
                },
                None => {
                    proof {
                        lemma_entries_map_at(self.pairs(), i as int);
                        assert(!has_key(other.pairs(), pi.0));
                        assert(self.map().contains_key(pi.0) && !other.map().contains_key(pi.0));
                    }
                    return false;
                },
            }
            i = i + 1;
        }
        proof {
            assert forall|k: Seq<char>| #[trigger]
                self.map().contains_key(k) implies other.map().contains_key(k) && other.map()[k]
                == self.map()[k] by {
                let j = choose|j: int|
                    0 <= j < self.pairs().len() && (#[trigger] self.pairs()[j]).0 == k;
                lemma_entries_map_at(self.pairs(), j);
            }
        }
        true
    }

    /// Whether both maps hold the same entries.
    pub fn same_as(&self, other: &StateMap) -> (r: bool)
        ensures
            r == (self.map() == other.map()),
    {
        let a = self.included_in(other);
        let b = other.included_in(self);
        if a && b {
            assert(self.map() =~= other.map());
        }
        a && b
    }

    /// The lines that store the entries, one `key=value` line per entry.
    pub fn lines(&self) -> (r: Vec<String>)
        ensures
            views(r@) == state_lines(self.pairs()),
            keys_unique(self.pairs()),
            entries_map(self.pairs()) == self.map(),
    {
        proof {
            use_type_invariant(self);
        }
        let mut r: Vec<String> = Vec::new();
        let mut i: usize = 0;
        while i < self.entries.len()
            invariant
                i <= self.entries@.len(),
                views(r@) == state_lines(self.pairs().take(i as int)),
            decreases self.entries@.len() - i,
        {
            let mut line = self.entries[i].0.clone();
            line.append("=");
            line.append(self.entries[i].1.as_str());
            proof {
                assert("="@ == seq!['=']) by {
                    reveal_strlit("=");
                }
                assert(line@ == entry_line(self.pairs()[i as int]));
            }
            let ghost before = r@;
            r.push(line);
            assert(r@ == before.push(line));
            assert(views(r@) =~= views(before).push(line@));
            assert(state_lines(self.pairs().take(i + 1)) =~= state_lines(self.pairs().take(
                i as int,
            )).push(entry_line(self.pairs()[i as int])));
            i = i + 1;
        }
        assert(self.pairs().take(i as int) =~= self.pairs());
        r
    }
}

// ---------------------------------------------------------------------------
// Storage and transactions
// ---------------------------------------------------------------------------

/// The state read from the state file, and whether it has changed since.
pub struct Storage {
    path: String,
    data: StateMap,
    dirty: bool,
}

/// A working copy of the state; its changes reach the storage only when it
/// is committed.
pub struct Transaction {
    data: StateMap,
}

impl View for Storage {
    type V = Map<Seq<char>, Seq<char>>;

    closed spec fn view(&self) -> Map<Seq<char>, Seq<char>> {
        self.data.map()
    }
}

impl View for Transaction {
    type V = Map<Seq<char>, Seq<char>>;

    closed spec fn view(&self) -> Map<Seq<char>, Seq<char>> {
        self.data.map()
    }
}

impl Storage {
    /// Whether the state has changed since it was read or last saved.
    pub closed spec fn spec_dirty(&self) -> bool {
        self.dirty
    }

    /// The path of the state file.
    pub closed spec fn spec_path(&self) -> Seq<char> {
        self.path@
    }

    /// The entries in the order in which they are saved.
    pub closed spec fn spec_entries(&self) -> Seq<(Seq<char>, Seq<char>)> {
        self.data.pairs()
    }

    /// The storage for the state file at `path`, whose lines (those that
    /// could be read; none when the file cannot be opened) are `lines`.
    pub fn load(path: &str, lines: &Vec<String>) -> (s: Storage)
        ensures
            s@ == parse_state(views(lines@)),
            s.spec_path() == path@,
            !s.spec_dirty(),
    {
        let mut data = StateMap::new();
        let mut i: usize = 0;
        while i < lines.len()
            invariant
                i <= lines@.len(),
                data.map() == parse_state(views(lines@.take(i as int))),
            decreases lines@.len() - i,
        {
            proof {
                assert(views(lines@.take(i + 1)) =~= views(lines@.take(i as int)).push(
                    lines@[i as int]@,
                ));
                lemma_parse_state_push(views(lines@.take(i as int)), lines@[i as int]@);
            }
            let t = chars_of(&trim_str(lines[i].as_str()));
            if t.len() > 0 && t[0] != '#' {
                match index_of_char(&t, '=') {
                    Some(eq) => {
                        proof {
                            lemma_index_of(t@, '=');
                        }
                        let key = trim_str(&string_of(&t, 0, eq));
                        let value = trim_str(&string_of(&t, eq + 1, t.len()));
                        proof {
                            lemma_index_of(t@, '=');
                            assert(t@.subrange(0, eq as int) =~= t@.take(eq as int));
                            assert(t@.subrange(eq + 1, t@.len() as int) =~= t@.skip(eq + 1));
                        }
                        data.insert(key, value);
                    },
                    None => {},
                }
            }
            i = i + 1;
        }
        assert(lines@.take(lines@.len() as int) =~= lines@);
        Storage { path: to_owned_string(path), data, dirty: false }
    }

    /// A transaction that starts from the current state.
    pub fn transaction(&self) -> (t: Transaction)
        ensures
            t@ == self@,
    {
        Transaction { data: self.data.copy() }
    }

    /// Makes the transaction's state the current state; the storage becomes
    /// dirty when that changes anything.
    pub fn commit(&mut self, transaction: Transaction)
        ensures
            final(self)@ == transaction@,
            final(self).spec_dirty() == (old(self).spec_dirty() || old(self)@ != transaction@),
            final(self).spec_path() == old(self).spec_path(),
    {
        if !self.data.same_as(&transaction.data) {
            self.data = transaction.data;
            self.dirty = true;
        }
    }

    /// Whether the state has changed since it was read or last saved.
    pub fn is_dirty(&self) -> (r: bool)
        ensures
            r == self.spec_dirty(),
    {
        self.dirty
    }

    /// The path of the state file.
    pub fn path(&self) -> (r: &str)
        ensures
            r@ == self.spec_path(),
    {
        self.path.as_str()
    }

    /// The lines to write to the state file, when there is anything to save.
    pub fn pending_lines(&self) -> (r: Option<Vec<String>>)
        ensures
            r is Some == self.spec_dirty(),
            r matches Some(l) ==> views(l@) == state_lines(self.spec_entries()),
            r matches Some(l) ==> keys_unique(self.spec_entries()) && entries_map(
                self.spec_entries(),
            ) == self@,
    {
        if self.dirty {
            Some(self.data.lines())
        } else {
            None
        }
    }

    /// Records that the state file now holds the current state.
    pub fn mark_saved(&mut self)
        ensures
            final(self)@ == old(self)@,
            final(self).spec_entries() == old(self).spec_entries(),
            final(self).spec_path() == old(self).spec_path(),
            !final(self).spec_dirty(),
    {
        self.dirty = false;
    }
}

impl Transaction {
    /// The value stored under `key`.
    pub fn get(&self, key: &str) -> (r: Option<&str>)
        ensures
            match r {
                Some(v) => self@.contains_key(key@) && self@[key@] == v@,
                None => !self@.contains_key(key@),
            },
    {
        self.data.get(key)
    }

    /// Stores `value` under `key`.
    pub fn set(&mut self, key: &str, value: &str)
        ensures
            final(self)@ == old(self)@.insert(key@, value@),
    {
        self.data.insert(to_owned_string(key), to_owned_string(value));
    }
}

} // verus!
