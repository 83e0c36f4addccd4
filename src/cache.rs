//! The cache of variables for one build step.
use vstd::prelude::*;

use crate::codec::{
    decode_entries, decode_snapshot, encode_entries, encode_snapshot, entries_of, fields_fit,
    lemma_round_trip, DecodeError, Entry,
};

verus! {

/// Whether no two entries share a key.
pub open spec fn keys_unique(es: Seq<Entry>) -> bool {
    forall|i: int, j: int| 0 <= i < j < es.len() ==> es[i].0 != es[j].0
}

/// The mapping that the entries `es` give when they are recorded from first
/// to last, a later value for a key replacing an earlier one.
pub open spec fn entries_map(es: Seq<Entry>) -> Map<Seq<char>, Seq<char>>
    decreases es.len(),
{
    if es.len() == 0 {
        Map::empty()
    } else {
        entries_map(es.drop_last()).insert(es.last().0, es.last().1)
    }
}

/// The line that asks the build tool to run the step again when the
/// variable of `e` changes.
pub open spec fn rerun_line(e: Entry) -> Seq<char> {
    "cargo:rerun-if-env-changed="@ + e.0
}

/// The line that asks the build tool to export the variable of `e` with its
/// value.
pub open spec fn export_line(e: Entry) -> Seq<char> {
    "cargo:rustc-env="@ + e.0 + "="@ + e.1
}

/// Cached environment variables: a mapping from name to value.
pub struct EnvCache {
    entries: Vec<(String, String)>,
}

impl View for EnvCache {
    type V = Map<Seq<char>, Seq<char>>;

    open spec fn view(&self) -> Map<Seq<char>, Seq<char>> {
        entries_map(self.entries())
    }
}

proof fn lemma_map_dom(es: Seq<Entry>, k: Seq<char>)
    ensures
        entries_map(es).contains_key(k) <==> exists|i: int| 0 <= i < es.len() && es[i].0 == k,
    decreases es.len(),
{
    if es.len() > 0 {
        lemma_map_dom(es.drop_last(), k);
        if exists|i: int| 0 <= i < es.drop_last().len() && es.drop_last()[i].0 == k {
            let i = choose|i: int| 0 <= i < es.drop_last().len() && es.drop_last()[i].0 == k;
            assert(es[i].0 == k);
        }
        if exists|i: int| 0 <= i < es.len() && es[i].0 == k {
            let i = choose|i: int| 0 <= i < es.len() && es[i].0 == k;
            if i < es.len() - 1 {
                assert(es.drop_last()[i].0 == k);
            }
        }
    }
}

proof fn lemma_map_get(es: Seq<Entry>, i: int)
    requires
        keys_unique(es),
        0 <= i < es.len(),
    ensures
        entries_map(es).contains_key(es[i].0),
        entries_map(es)[es[i].0] == es[i].1,
    decreases es.len(),
{
    if i < es.len() - 1 {
        let init = es.drop_last();
        assert(init[i] == es[i]);
        assert(keys_unique(init)) by {
            assert forall|a: int, b: int| 0 <= a < b < init.len() implies init[a].0 != init[b].0 by {
                assert(init[a] == es[a] && init[b] == es[b]);
            }
        }
        lemma_map_get(init, i);
        assert(es[i].0 != es.last().0);
    }
}

proof fn lemma_map_update(es: Seq<Entry>, i: int, v: Seq<char>)
    requires
        keys_unique(es),
        0 <= i < es.len(),
    ensures
        keys_unique(es.update(i, (es[i].0, v))),
        entries_map(es.update(i, (es[i].0, v))) == entries_map(es).insert(es[i].0, v),
{
    let k = es[i].0;
    let es2 = es.update(i, (k, v));
    assert(keys_unique(es2)) by {
        assert forall|a: int, b: int| 0 <= a < b < es2.len() implies es2[a].0 != es2[b].0 by {
            assert(es2[a].0 == es[a].0 && es2[b].0 == es[b].0);
        }
    }
    let m2 = entries_map(es2);
    let m = entries_map(es).insert(k, v);
    assert forall|key: Seq<char>| m2.contains_key(key) <==> m.contains_key(key) by {
        lemma_map_dom(es2, key);
        lemma_map_dom(es, key);
        if exists|j: int| 0 <= j < es.len() && es[j].0 == key {
            let j = choose|j: int| 0 <= j < es.len() && es[j].0 == key;
            assert(es2[j].0 == key);
        }
        if exists|j: int| 0 <= j < es2.len() && es2[j].0 == key {
            let j = choose|j: int| 0 <= j < es2.len() && es2[j].0 == key;
            assert(es[j].0 == key);
        }
    }
    assert forall|key: Seq<char>| m2.contains_key(key) implies m2[key] == m[key] by {
        lemma_map_dom(es2, key);
        let j = choose|j: int| 0 <= j < es2.len() && es2[j].0 == key;
        lemma_map_get(es2, j);
        if j != i {
            lemma_map_get(es, j);
        }
    }
    assert(m2 =~= m);
}

impl EnvCache {
    /// The entries, as texts, in the order in which they are kept.
    pub closed spec fn entries(&self) -> Seq<Entry> {
        entries_of(self.entries@)
    }

    /// No two entries share a key.
    pub open spec fn wf(&self) -> bool {
        keys_unique(self.entries())
    }

    fn find(&self, key: &String) -> (r: Option<usize>)
        ensures
            r matches Some(i) ==> i < self.entries().len() && self.entries()[i as int].0 == key@,
            r is None ==> forall|i: int| 0 <= i < self.entries().len() ==> self.entries()[i].0 != key@,
    {
        let mut i: usize = 0;
        while i < self.entries.len()
            invariant
                i <= self.entries.len(),
                forall|j: int| 0 <= j < i ==> self.entries()[j].0 != key@,
            decreases self.entries.len() - i,
        {
            if self.entries[i].0 == *key {
                return Some(i);
            }
            i = i + 1;
        }
        None
    }

    /// Records `value` for `key`, replacing a value recorded before. A new key
    /// goes after all others.
    fn set(&mut self, key: String, value: String)
        requires
            old(self).wf(),
        ensures
            final(self).wf(),
            final(self)@ == old(self)@.insert(key@, value@),
            !old(self)@.contains_key(key@) ==> final(self).entries() == old(self).entries().push(
                (key@, value@),
            ),
    {
        proof {
            lemma_map_dom(self.entries(), key@);
        }
        match self.find(&key) {
            Some(i) => {
                let ghost es = self.entries();
                self.entries[i] = (key, value);
                proof {
                    assert(self.entries() =~= es.update(i as int, (es[i as int].0, value@)));
                    lemma_map_update(es, i as int, value@);
                }
            },
            None => {
                let ghost es = self.entries();
                let ghost kv = key@;
                let ghost vv = value@;
                self.entries.push((key, value));
                assert(self.entries() =~= es.push((kv, vv)));
                assert(self.entries().drop_last() =~= es);
            },
        }
    }

    /// The cache restored from a snapshot, or an empty cache where there is
    /// none (`None`: no snapshot was ever written, or it was removed).
    ///
    /// A snapshot that the format does not describe is refused with the
    /// error that [`decode_snapshot`] gives; no partial cache is returned.
    pub fn new(snapshot: Option<&str>) -> (r: Result<EnvCache, DecodeError>)
        ensures
            r matches Ok(c) ==> c.wf(),
            snapshot is None ==> (r matches Ok(c) && c@ == Map::<Seq<char>, Seq<char>>::empty()),
            snapshot matches Some(t) ==> match decode_entries(t@) {
                Ok(es) => (r matches Ok(c) && c@ == entries_map(es) && (keys_unique(es)
                    ==> c.entries() == es)),
                Err(e) => r == Err::<EnvCache, DecodeError>(e),
            },
    {
        let mut cache = EnvCache { entries: Vec::new() };
        assert(cache.entries() =~= Seq::<Entry>::empty());
        assert(cache@ == Map::<Seq<char>, Seq<char>>::empty());
        let text = match snapshot {
            None => return Ok(cache),
            Some(t) => t,
        };
        let pairs = match decode_snapshot(text) {
            Ok(p) => p,
            Err(e) => return Err(e),
        };
        let ghost es = entries_of(pairs@);
        let mut i: usize = 0;
        assert(es.take(0) =~= Seq::<Entry>::empty());
        while i < pairs.len()
            invariant
                es == entries_of(pairs@),
                i <= pairs.len(),
                cache.wf(),
                cache@ == entries_map(es.take(i as int)),
                keys_unique(es) ==> cache.entries() == es.take(i as int),
            decreases pairs.len() - i,
        {
            let key = pairs[i].0.clone();
            let value = pairs[i].1.clone();
            proof {
                assert(es[i as int] == (key@, value@));
                if keys_unique(es) {
                    lemma_map_dom(es.take(i as int), key@);
                    assert forall|j: int| 0 <= j < i implies es.take(i as int)[j].0 != key@ by {
                        assert(es.take(i as int)[j] == es[j]);
                    }
                }
            }
            cache.set(key, value);
            proof {
                let next = es.take(i + 1);
                assert(next.drop_last() =~= es.take(i as int));
                assert(next.last() == es[i as int]);
                assert(keys_unique(es) ==> cache.entries() =~= next);
            }
            i = i + 1;
        }
        assert(es.take(i as int) =~= es);
        Ok(cache)
    }

    /// Asks for the variable `name`, given `live`, its value in the live
    /// environment where it is set there.
    ///
    /// A live value is recorded, replacing any cached one; then the value
    /// cached for `name` is returned, if there is one. Without a live value
    /// the cache is left as it is.
    pub fn cache(&mut self, name: &str, live: Option<String>) -> (r: Option<String>)
        requires
            old(self).wf(),
        ensures
            final(self).wf(),
            final(self)@ == match live {
                Some(v) => old(self)@.insert(name@, v@),
                None => old(self)@,
            },
            live is None ==> final(self).entries() == old(self).entries(),
            r is Some <==> final(self)@.contains_key(name@),
            r matches Some(v) ==> v@ == final(self)@[name@],
    {
        let key = String::from_str(name);
        if let Some(v) = live {
            self.set(key.clone(), v);
        }
        proof {
            lemma_map_dom(self.entries(), name@);
        }
        match self.find(&key) {
            Some(i) => {
                proof {
                    lemma_map_get(self.entries(), i as int);
                }
                Some(self.entries[i].1.clone())
            },
            None => None,
        }
    }

    /// The snapshot of the cache, to be written back at the end of the step,
    /// or `None` where a name or a value is too long for the format.
    pub fn snapshot(&self) -> (r: Option<String>)
        ensures
            r is Some <==> fields_fit(self.entries()),
            r matches Some(s) ==> s@ == encode_entries(self.entries()),
    {
        encode_snapshot(&self.entries)
    }

    /// The lines that tell the build tool, for each cached variable in turn,
    /// to run the step again when it changes and to export its value.
    pub fn directives(&self) -> (r: Vec<String>)
        ensures
            r@.len() == 2 * self.entries().len(),
            forall|i: int| 0 <= i < self.entries().len() ==> r@[2 * i]@ == rerun_line(self.entries()[i])
                && r@[2 * i + 1]@ == export_line(self.entries()[i]),
    {
        let mut out: Vec<String> = Vec::new();
        let mut i: usize = 0;
        while i < self.entries.len()
            invariant
                i <= self.entries.len(),
                out@.len() == 2 * i,
                forall|j: int| 0 <= j < i ==> out@[2 * j]@ == rerun_line(self.entries()[j])
                    && out@[2 * j + 1]@ == export_line(self.entries()[j]),
            decreases self.entries.len() - i,
        {
            let key = self.entries[i].0.as_str();
            let value = self.entries[i].1.as_str();
            let mut rerun = String::from_str("cargo:rerun-if-env-changed=");
            rerun.append(key);
            let mut export = String::from_str("cargo:rustc-env=");
            export.append(key);
            export.append("=");
            export.append(value);
            out.push(rerun);
            out.push(export);
            i = i + 1;
        }
        out
    }
}

/// The snapshot of a cache reads back without error into the same entries
/// in the same order; so the cache restored from it holds the same mapping,
/// and writes byte for byte the same snapshot again.
pub proof fn lemma_snapshot_restores(c: EnvCache)
    requires
        c.wf(),
        fields_fit(c.entries()),
    ensures
        decode_entries(encode_entries(c.entries())) == Ok::<Seq<Entry>, DecodeError>(c.entries()),
        keys_unique(decode_entries(encode_entries(c.entries()))->Ok_0),
        entries_map(decode_entries(encode_entries(c.entries()))->Ok_0) == c@,
        encode_entries(decode_entries(encode_entries(c.entries()))->Ok_0) == encode_entries(c.entries()),
{
    lemma_round_trip(c.entries());
}

impl Default for EnvCache {
    /// An empty cache.
    fn default() -> (r: EnvCache)
        ensures
            r.wf(),
            r@ == Map::<Seq<char>, Seq<char>>::empty(),
    {
        let r = EnvCache { entries: Vec::new() };
        assert(r.entries() =~= Seq::<Entry>::empty());
        r
    }
}

} // verus!
