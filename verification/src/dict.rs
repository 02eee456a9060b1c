//! The dictionary data model: a string-keyed map with a mathematical `Map`
//! view, the immutable `DictionarySnapshot` built from it, and the versioned
//! `DictionaryCache` that decides when a reload is required.

use vstd::prelude::*;

verus! {

use crate::text::chars_vec;

/// The mathematical contents of an entry list: later entries override
/// earlier ones, as repeated inserts into a map would.
pub open spec fn map_of(es: Seq<(Seq<char>, Seq<char>)>) -> Map<Seq<char>, Seq<char>>
    decreases es.len(),
{
    if es.len() == 0 {
        Map::empty()
    } else {
        map_of(es.drop_last()).insert(es.last().0, es.last().1)
    }
}

proof fn lemma_map_of_contains(es: Seq<(Seq<char>, Seq<char>)>, k: Seq<char>)
    ensures
        map_of(es).contains_key(k) <==> exists|i: int|
            0 <= i < es.len() && #[trigger] es[i].0 == k,
    decreases es.len(),
{
    if es.len() > 0 {
        lemma_map_of_contains(es.drop_last(), k);
        if map_of(es).contains_key(k) {
            if es.last().0 == k {
                assert(es[es.len() - 1].0 == k);
            } else {
                let i = choose|i: int| 0 <= i < es.drop_last().len() && #[trigger] es.drop_last()[i].0 == k;
                assert(es[i].0 == k);
            }
        }
        if exists|i: int| 0 <= i < es.len() && #[trigger] es[i].0 == k {
            let i = choose|i: int| 0 <= i < es.len() && #[trigger] es[i].0 == k;
            if i < es.len() - 1 {
                assert(es.drop_last()[i].0 == k);
            }
        }
    }
}

proof fn lemma_map_of_get(es: Seq<(Seq<char>, Seq<char>)>, i: int)
    requires
        0 <= i < es.len(),
        forall|p: int, q: int| 0 <= p < q < es.len() ==> es[p].0 != es[q].0,
    ensures
        map_of(es).contains_key(es[i].0),
        map_of(es)[es[i].0] == es[i].1,
    decreases es.len(),
{
    if i == es.len() - 1 {
        assert(es.last() == es[i]);
    } else {
        lemma_map_of_get(es.drop_last(), i);
        assert(es.drop_last()[i] == es[i]);
        assert(es.last().0 != es[i].0);
    }
}

/// A string-to-string map held as a vector of key/value pairs with
/// pairwise-distinct keys, looked up by linear scan. The abstract value is a
/// `Map<Seq<char>, Seq<char>>`.
#[derive(Debug)]
pub struct StrMap {
    entries: Vec<(Vec<char>, Vec<char>)>,
}

impl View for StrMap {
    type V = Map<Seq<char>, Seq<char>>;

    closed spec fn view(&self) -> Map<Seq<char>, Seq<char>> {
        map_of(self.entries_seq())
    }
}

impl StrMap {
    pub closed spec fn entries_seq(&self) -> Seq<(Seq<char>, Seq<char>)> {
        self.entries@.map_values(|p: (Vec<char>, Vec<char>)| (p.0@, p.1@))
    }

    /// Keys are pairwise distinct, so a linear scan agrees with the map view.
    pub closed spec fn wf(&self) -> bool {
        forall|p: int, q: int|
            0 <= p < q < self.entries@.len() ==> self.entries@[p].0@ != self.entries@[q].0@
    }

    pub fn new() -> (r: StrMap)
        ensures
            r.wf(),
            r@ == Map::<Seq<char>, Seq<char>>::empty(),
    {
        StrMap { entries: Vec::new() }
    }

    pub fn get<'a>(&'a self, key: &Vec<char>) -> (r: Option<&'a Vec<char>>)
        requires
            self.wf(),
        ensures
            match r {
                Some(v) => self@.contains_key(key@) && v@ == self@[key@],
                None => !self@.contains_key(key@),
            },
    {
        let ghost es = self.entries_seq();
        let mut i: usize = 0;
        while i < self.entries.len()
            invariant
                self.wf(),
                es == self.entries_seq(),
                i <= self.entries@.len(),
                forall|j: int| 0 <= j < i ==> es[j].0 != key@,
            decreases self.entries@.len() - i,
        {
            if chars_eq(&self.entries[i].0, key) {
                proof {
                    lemma_map_of_get(es, i as int);
                }
                return Some(&self.entries[i].1);
            }
            i = i + 1;
        }
        proof {
            lemma_map_of_contains(es, key@);
        }
        None
    }

    pub fn contains_key(&self, key: &Vec<char>) -> (r: bool)
        requires
            self.wf(),
        ensures
            r == self@.contains_key(key@),
    {
        self.get(key).is_some()
    }

    /// Insert with override: an existing binding for the key is replaced.
    pub fn insert(&mut self, key: Vec<char>, val: Vec<char>)
        requires
            old(self).wf(),
        ensures
            final(self).wf(),
            final(self)@ == old(self)@.insert(key@, val@),
    {
        let ghost es0 = old(self).entries_seq();
        let mut i: usize = 0;
        while i < self.entries.len()
            invariant
                self == old(self),
                self.wf(),
                es0 == self.entries_seq(),
                i <= self.entries@.len(),
                forall|j: int| 0 <= j < i ==> es0[j].0 != key@,
            decreases self.entries@.len() - i,
        {
            if chars_eq(&self.entries[i].0, &key) {
                let ghost kv = key@;
                let ghost vv = val@;
                let ghost pre = self.entries@;
                proof {
                    assert(forall|p: int, q: int|
                        0 <= p < q < pre.len() ==> pre[p].0@ != pre[q].0@);
                    assert(pre[i as int].0@ == kv);
                }
                self.entries.set(i, (key, val));
                proof {
                    let es1 = self.entries_seq();
                    assert(self.entries@ == pre.update(i as int, (key, val)));
                    assert forall|j: int| 0 <= j < es1.len() implies es1[j]
                        == es0.update(i as int, (kv, vv))[j] by {
                        assert(es1[j] == (self.entries@[j].0@, self.entries@[j].1@));
                        assert(es0[j] == (pre[j].0@, pre[j].1@));
                    }
                    assert(es1 =~= es0.update(i as int, (kv, vv)));
                    assert(es0[i as int].0 == kv);
                    lemma_map_of_update(es0, i as int, kv, vv);
                    assert(map_of(es1) == map_of(es0).insert(kv, vv));
                    assert(old(self)@ == map_of(old(self).entries_seq()));
                    assert(es0 == old(self).entries_seq());
                    assert(old(self)@ == map_of(es0));
                    assert(final(self)@ == map_of(es1));
                    assert forall|p: int, q: int|
                        0 <= p < q < self.entries@.len() implies self.entries@[p].0@
                        != self.entries@[q].0@ by {
                        assert(self.entries@[p].0@ == pre[p].0@);
                        assert(self.entries@[q].0@ == pre[q].0@);
                    }
                }
                return;
            }
            i = i + 1;
        }
        let ghost kv = key@;
        let ghost vv = val@;
        let ghost pre = self.entries@;
        proof {
            assert(forall|p: int, q: int|
                0 <= p < q < pre.len() ==> pre[p].0@ != pre[q].0@);
        }
        self.entries.push((key, val));
        proof {
            let es1 = self.entries_seq();
            assert forall|j: int| 0 <= j < es1.len() implies es1[j]
                == es0.push((kv, vv))[j] by {
                assert(es1[j] == (self.entries@[j].0@, self.entries@[j].1@));
                if j < es0.len() {
                    assert(es0[j] == (pre[j].0@, pre[j].1@));
                }
            }
            assert(es1 =~= es0.push((kv, vv)));
            assert(es1.drop_last() =~= es0);
            assert(es1.last() == (kv, vv));
            assert(final(self)@ == map_of(es1));
            lemma_map_of_contains(es0, kv);
            assert forall|p: int, q: int|
                0 <= p < q < self.entries@.len() implies self.entries@[p].0@
                != self.entries@[q].0@ by {
                assert(self.entries@[p].0@ == pre[p].0@);
                if q < pre.len() {
                    assert(self.entries@[q].0@ == pre[q].0@);
                } else {
                    assert(self.entries@[q].0@ == kv);
                    assert(es0[p].0 == pre[p].0@);
                    assert(es0[p].0 != kv);
                }
            }
        }
    }

    /// The largest character count among the keys, 0 for an empty map.
    pub fn max_key_len(&self) -> (r: usize)
        requires
            self.wf(),
        ensures
            forall|k: Seq<char>| self@.contains_key(k) ==> #[trigger] k.len() <= r,
            r > 0 ==> exists|k: Seq<char>| #[trigger] self@.contains_key(k) && k.len() == r,
    {
        let ghost es = self.entries_seq();
        let mut r: usize = 0;
        let mut i: usize = 0;
        while i < self.entries.len()
            invariant
                self.wf(),
                es == self.entries_seq(),
                i <= self.entries@.len(),
                forall|j: int| 0 <= j < i ==> #[trigger] es[j].0.len() <= r,
                r > 0 ==> exists|j: int| 0 <= j < i && #[trigger] es[j].0.len() == r,
            decreases self.entries@.len() - i,
        {
            proof {
                assert(es[i as int].0 == self.entries@[i as int].0@);
            }
            if self.entries[i].0.len() > r {
                r = self.entries[i].0.len();
                proof {
                    assert(es[i as int].0.len() == r);
                }
            } else {
                proof {
                    if r > 0 {
                        let j = choose|j: int| 0 <= j < i && #[trigger] es[j].0.len() == r;
                        assert(es[j].0.len() == r);
                    }
                }
            }
            i = i + 1;
        }
        proof {
            assert forall|k: Seq<char>| self@.contains_key(k) implies #[trigger] k.len() <= r by {
                lemma_map_of_contains(es, k);
                let j = choose|j: int| 0 <= j < es.len() && #[trigger] es[j].0 == k;
                assert(es[j].0.len() <= r);
            }
            if r > 0 {
                let j = choose|j: int| 0 <= j < es.len() && #[trigger] es[j].0.len() == r;
                assert forall|p: int, q: int| 0 <= p < q < es.len() implies es[p].0
                    != es[q].0 by {
                    assert(es[p].0 == self.entries@[p].0@);
                    assert(es[q].0 == self.entries@[q].0@);
                }
                lemma_map_of_get(es, j);
                assert(self@.contains_key(es[j].0) && es[j].0.len() == r);
            }
        }
        r
    }
}

proof fn lemma_map_of_update(es: Seq<(Seq<char>, Seq<char>)>, i: int, k: Seq<char>, v: Seq<char>)
    requires
        0 <= i < es.len(),
        es[i].0 == k,
        forall|p: int, q: int| 0 <= p < q < es.len() ==> es[p].0 != es[q].0,
    ensures
        map_of(es.update(i, (k, v))) == map_of(es).insert(k, v),
    decreases es.len(),
{
    let es1 = es.update(i, (k, v));
    if i == es.len() - 1 {
        assert(es1.drop_last() =~= es.drop_last());
        assert(es1.last() == (k, v));
        assert(es.last().0 == k);
        assert(map_of(es1) =~= map_of(es).insert(k, v));
    } else {
        assert(es1.drop_last() =~= es.drop_last().update(i, (k, v)));
        assert(es1.last() == es.last());
        assert(es.drop_last()[i] == es[i]);
        lemma_map_of_update(es.drop_last(), i, k, v);
        assert(es.last().0 != k);
        assert(map_of(es.drop_last()).insert(k, v).insert(es.last().0, es.last().1)
            =~= map_of(es.drop_last()).insert(es.last().0, es.last().1).insert(k, v));
    }
}

/// The entry lists a snapshot is built from, as pairs of character
/// sequences.
pub open spec fn entry_pairs(es: Seq<(String, String)>) -> Seq<(Seq<char>, Seq<char>)> {
    es.map_values(|p: (String, String)| (p.0@, p.1@))
}

/// An immutable dictionary snapshot: character readings, word readings and
/// the version of the dictionary source they were loaded at, plus the
/// longest word-key character count, which bounds the search window of the
/// segmentation engine.
#[derive(Debug)]
pub struct DictionarySnapshot {
    pub version: i64,
    pub char_map: StrMap,
    pub word_map: StrMap,
    pub max_word_len: usize,
}

impl DictionarySnapshot {
    pub open spec fn wf(&self) -> bool {
        &&& self.char_map.wf()
        &&& self.word_map.wf()
        &&& forall|k: Seq<char>|
            self.word_map@.contains_key(k) ==> #[trigger] k.len() <= self.max_word_len
        &&& self.max_word_len > 0 ==> exists|k: Seq<char>|
            #[trigger] self.word_map@.contains_key(k) && k.len() == self.max_word_len
    }

    /// Build a snapshot from plain entry lists, later entries overriding
    /// earlier ones, and record the longest word-key length.
    pub fn new(
        version: i64,
        char_entries: &Vec<(String, String)>,
        word_entries: &Vec<(String, String)>,
    ) -> (r: DictionarySnapshot)
        ensures
            r.wf(),
            r.version == version,
            r.char_map@ == map_of(entry_pairs(char_entries@)),
            r.word_map@ == map_of(entry_pairs(word_entries@)),
    {
        let char_map = str_map_of_entries(char_entries);
        let word_map = str_map_of_entries(word_entries);
        let max_word_len = word_map.max_key_len();
        DictionarySnapshot { version, char_map, word_map, max_word_len }
    }
}

fn str_map_of_entries(entries: &Vec<(String, String)>) -> (r: StrMap)
    ensures
        r.wf(),
        r@ == map_of(entry_pairs(entries@)),
{
    let ghost pairs = entry_pairs(entries@);
    let mut r = StrMap::new();
    let mut i: usize = 0;
    while i < entries.len()
        invariant
            r.wf(),
            pairs == entry_pairs(entries@),
            i <= entries@.len(),
            r@ == map_of(pairs.take(i as int)),
        decreases entries@.len() - i,
    {
        let key = chars_vec(entries[i].0.as_str());
        let val = chars_vec(entries[i].1.as_str());
        r.insert(key, val);
        i = i + 1;
        proof {
            assert(pairs.take(i as int).drop_last() =~= pairs.take(i - 1));
            assert(pairs[i - 1] == (entries@[i - 1].0@, entries@[i - 1].1@));
            assert(pairs.take(i as int).last() == pairs[i - 1]);
        }
    }
    proof {
        assert(pairs.take(entries@.len() as int) =~= pairs);
    }
    r
}


/// What parsing a JSON object of string-to-string pairs yields, as a
/// mathematical map; a function of the input text alone.
pub uninterp spec fn json_string_map(s: Seq<char>) -> Option<Map<Seq<char>, Seq<char>>>;

/// The snapshot fetch failed: fatal for the calling request. There is no
/// silently-empty-dictionary fallback — producing wrong transliterations
/// silently would be worse than failing loudly.
#[derive(Clone, Copy, Debug, PartialEq, Eq, Structural)]
pub enum DictionaryError {
    DictionaryUnavailable,
}

/// Relies on `serde_json::from_str::<HashMap<String, String>>`: parses a
/// JSON object into string pairs, deterministically in the input text up
/// to entry order, which the map contents do not depend on; `None` on a
/// text that is not such an object.
#[verifier::external_body]
fn parse_string_map(s: &str) -> (r: Option<Vec<(String, String)>>)
    ensures
        match r {
            Some(rows) => json_string_map(s@) == Some(map_of(entry_pairs(rows@))),
            None => json_string_map(s@) is None,
        },
{
    serde_json::from_str::<std::collections::HashMap<String, String>>(s).ok().map(
        |m| m.into_iter().collect())
}

/// Build the snapshot the cache installs: both dictionaries arrive as the
/// JSON objects the dictionary source aggregates its rows into, and the
/// longest word-key length is recorded alongside. A dictionary text that
/// does not parse makes the whole fetch fail loudly; empty tables
/// aggregate to an empty object, which parses to an empty map.
pub fn load_dictionary_snapshot(version: i64, char_json: &str, word_json: &str) -> (r: Result<
    DictionarySnapshot,
    DictionaryError,
>)
    ensures
        match r {
            Ok(snap) => {
                &&& json_string_map(char_json@) is Some
                &&& json_string_map(word_json@) is Some
                &&& snap.wf()
                &&& snap.version == version
                &&& Some(snap.char_map@) == json_string_map(char_json@)
                &&& Some(snap.word_map@) == json_string_map(word_json@)
            },
            Err(e) => {
                &&& e == DictionaryError::DictionaryUnavailable
                &&& (json_string_map(char_json@) is None || json_string_map(word_json@)
                    is None)
            },
        },
{
    let char_entries = match parse_string_map(char_json) {
        Some(rows) => rows,
        None => {
            return Err(DictionaryError::DictionaryUnavailable);
        },
    };
    let word_entries = match parse_string_map(word_json) {
        Some(rows) => rows,
        None => {
            return Err(DictionaryError::DictionaryUnavailable);
        },
    };
    Ok(DictionarySnapshot::new(version, &char_entries, &word_entries))
}

/// The cache over the dictionary source: at most one snapshot at a time,
/// plus a flag that says whether one has been loaded at all.
pub struct DictionaryCache {
    pub loaded: bool,
    pub snapshot: DictionarySnapshot,
}

impl DictionaryCache {
    pub open spec fn wf(&self) -> bool {
        self.loaded ==> self.snapshot.wf()
    }

    pub fn new() -> (r: DictionaryCache)
        ensures
            r.wf(),
            !r.loaded,
    {
        let no_entries: Vec<(String, String)> = Vec::new();
        DictionaryCache { loaded: false, snapshot: DictionarySnapshot::new(0, &no_entries, &no_entries) }
    }

    /// The fast-path test: a reload is required unless a snapshot is loaded
    /// at exactly the version the dictionary source currently reports. So a
    /// call that skips the reload is always served contents of the observed
    /// version: a version bump is never observed while superseded contents
    /// are returned.
    pub fn needs_reload(&self, current_version: i64) -> (r: bool)
        ensures
            r == !(self.loaded && self.snapshot.version == current_version),
            !r ==> self.loaded && self.snapshot.version == current_version,
    {
        !(self.loaded && self.snapshot.version == current_version)
    }

    /// The re-check done under the writer lock: a concurrent reload may have
    /// installed a snapshot already, so replace only while the cache is
    /// still missing or stale. Either way, when the fetched snapshot carries
    /// the observed version, the cache ends up serving that version.
    pub fn install_if_stale(&mut self, snapshot: DictionarySnapshot, current_version: i64)
        requires
            old(self).wf(),
            snapshot.wf(),
        ensures
            final(self).wf(),
            final(self).loaded,
            (!old(self).loaded || old(self).snapshot.version != current_version)
                ==> final(self).snapshot == snapshot,
            (old(self).loaded && old(self).snapshot.version == current_version)
                ==> final(self).snapshot == old(self).snapshot,
            snapshot.version == current_version ==> final(self).snapshot.version
                == current_version,
    {
        if !self.loaded || self.snapshot.version != current_version {
            self.snapshot = snapshot;
            self.loaded = true;
        }
    }

    /// The snapshot to serve a call from; meaningful only once loaded.
    pub fn current(&self) -> (r: &DictionarySnapshot)
        requires
            self.loaded,
        ensures
            r == self.snapshot,
    {
        &self.snapshot
    }
}

/// A failed version query degrades to version 0: never fatal, it merely
/// forces a reload attempt while nothing is loaded.
pub fn effective_version(result: Option<i64>) -> (r: i64)
    ensures
        r == match result { Some(v) => v, None => 0 },
{
    match result {
        Some(v) => v,
        None => 0,
    }
}

/// Element-wise equality of two character vectors.
pub fn chars_eq(a: &Vec<char>, b: &Vec<char>) -> (r: bool)
    ensures
        r == (a@ == b@),
{
    if a.len() != b.len() {
        return false;
    }
    let mut i: usize = 0;
    while i < a.len()
        invariant
            a@.len() == b@.len(),
            i <= a@.len(),
            forall|j: int| 0 <= j < i ==> a@[j] == b@[j],
        decreases a@.len() - i,
    {
        if a[i] != b[i] {
            return false;
        }
        i = i + 1;
    }
    proof {
        assert(a@ =~= b@);
    }
    true
}

} // verus!
