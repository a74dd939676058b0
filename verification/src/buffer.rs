use vstd::prelude::*;
use crate::order::{lex_le, lex_lt, bytes_le, bytes_eq, lemma_lex_le_total, lemma_lex_le_antisym, lemma_lex_le_trans, lemma_lex_lt_trans};
use crate::entries::{sorted_pairs, entries_lookup, lemma_entries_lookup_at, lemma_entries_lookup_absent};
use crate::bytes::clone_bytes;

verus! {

/// One buffered key together with its pending versions, oldest first.
pub struct BufEntry {
    pub key: Vec<u8>,
    pub versions: Vec<Vec<u8>>,
}

/// The in-memory buffer: recent writes, held as a multi-valued map ordered by
/// key.  Every key maps to at least one version; the most recently appended
/// version is the current value of the key.
pub struct Buffer {
    pub entries: Vec<BufEntry>,
}

/// The abstract versions of one entry.
pub open spec fn vers_view(vs: Seq<Vec<u8>>) -> Seq<Seq<u8>> {
    vs.map_values(|v: Vec<u8>| v@)
}

/// Entries strictly ascending by key.
pub open spec fn entries_sorted(es: Seq<BufEntry>) -> bool {
    forall|i: int| 0 <= i < es.len() - 1 ==> lex_lt(#[trigger] es[i].key@, es[i + 1].key@)
}

/// The map that a sequence of entries denotes.
pub open spec fn map_of(es: Seq<BufEntry>) -> Map<Seq<u8>, Seq<Seq<u8>>>
    decreases es.len(),
{
    if es.len() == 0 {
        Map::empty()
    } else {
        map_of(es.drop_last()).insert(es.last().key@, vers_view(es.last().versions@))
    }
}

pub proof fn lemma_sorted_all(es: Seq<BufEntry>, i: int, j: int)
    requires
        entries_sorted(es),
        0 <= i < j < es.len(),
    ensures
        lex_lt(es[i].key@, es[j].key@),
    decreases j - i,
{
    if j == i + 1 {
    } else {
        lemma_sorted_all(es, i, j - 1);
        lemma_lex_lt_trans(es[i].key@, es[j - 1].key@, es[j].key@);
    }
}

/// What `map_of` contains and binds: a key is present exactly when some entry
/// carries it, and (for sorted entries) it is bound to that entry's versions.
pub proof fn lemma_map_of_index(es: Seq<BufEntry>, j: int)
    requires
        entries_sorted(es),
        0 <= j < es.len(),
    ensures
        map_of(es).contains_key(es[j].key@),
        map_of(es)[es[j].key@] == vers_view(es[j].versions@),
    decreases es.len(),
{
    if j == es.len() - 1 {
    } else {
        lemma_map_of_index(es.drop_last(), j);
        lemma_sorted_all(es, j, es.len() - 1);
        assert(es.drop_last()[j] == es[j]);
    }
}

pub proof fn lemma_map_of_contains(es: Seq<BufEntry>, k: Seq<u8>)
    requires
        map_of(es).contains_key(k),
    ensures
        exists|j: int| 0 <= j < es.len() && (#[trigger] es[j].key@) == k,
    decreases es.len(),
{
    if es.len() > 0 {
        if es.last().key@ == k {
            assert(es[es.len() - 1].key@ == k);
        } else {
            lemma_map_of_contains(es.drop_last(), k);
            let j = choose|j: int| 0 <= j < es.drop_last().len() && (#[trigger] es.drop_last()[j].key@) == k;
            assert(es[j].key@ == k);
        }
    }
}

/// Inserting a fresh-keyed entry at position `i` adds one binding to the map.
proof fn lemma_map_of_insert(es: Seq<BufEntry>, i: int, e: BufEntry)
    requires
        0 <= i <= es.len(),
        forall|j: int| #![auto] 0 <= j < es.len() ==> es[j].key@ != e.key@,
    ensures
        map_of(es.insert(i, e)) == map_of(es).insert(e.key@, vers_view(e.versions@)),
    decreases es.len(),
{
    let es2 = es.insert(i, e);
    if i == es.len() {
        assert(es2.drop_last() =~= es);
        assert(es2.last() == e);
    } else {
        assert(es2.last() == es.last());
        assert(es2.drop_last() =~= es.drop_last().insert(i, e));
        lemma_map_of_insert(es.drop_last(), i, e);
        assert(es.drop_last().len() == es.len() - 1);
        assert(map_of(es2) == map_of(es.drop_last()).insert(e.key@, vers_view(e.versions@)).insert(
            es.last().key@, vers_view(es.last().versions@)));
        assert(es[es.len() - 1].key@ != e.key@);
        assert(map_of(es.drop_last()).insert(e.key@, vers_view(e.versions@)).insert(
            es.last().key@, vers_view(es.last().versions@)) =~= map_of(es).insert(
            e.key@, vers_view(e.versions@)));
    }
}

/// Replacing the entry at `i` by one with the same key rebinds that key only.
proof fn lemma_map_of_update(es: Seq<BufEntry>, i: int, e: BufEntry)
    requires
        entries_sorted(es),
        0 <= i < es.len(),
        e.key@ == es[i].key@,
    ensures
        map_of(es.update(i, e)) == map_of(es).insert(e.key@, vers_view(e.versions@)),
    decreases es.len(),
{
    let es2 = es.update(i, e);
    if i == es.len() - 1 {
        assert(es2.drop_last() =~= es.drop_last());
        assert(es2.last() == e);
    } else {
        assert(es2.last() == es.last());
        assert(es2.drop_last() =~= es.drop_last().update(i, e));
        assert(entries_sorted(es.drop_last())) by {
            assert(forall|j: int| #![auto] 0 <= j < es.len() - 1 ==> es.drop_last()[j] == es[j]);
        }
        assert(es.drop_last()[i] == es[i]);
        lemma_map_of_update(es.drop_last(), i, e);
        lemma_sorted_all(es, i, es.len() - 1);
        assert(es.last().key@ != e.key@);
        assert(map_of(es.drop_last()).insert(e.key@, vers_view(e.versions@)).insert(
            es.last().key@, vers_view(es.last().versions@)) =~= map_of(es).insert(
            e.key@, vers_view(e.versions@)));
    }
}

impl Buffer {
    /// Entries strictly ascending by key, each with at least one version.
    pub open spec fn wf(&self) -> bool {
        &&& entries_sorted(self.entries@)
        &&& forall|i: int| #![auto] 0 <= i < self.entries@.len() ==> self.entries@[i].versions@.len()
            >= 1
    }

    /// The buffered bindings: each key's pending versions, oldest first.
    pub open spec fn as_map(&self) -> Map<Seq<u8>, Seq<Seq<u8>>> {
        map_of(self.entries@)
    }

    /// The buffered pairs in ascending key order, one pair per key, each key
    /// with its most recent version.
    pub open spec fn latest_seq(&self) -> Seq<(Seq<u8>, Seq<u8>)> {
        Seq::new(self.entries@.len(), |i: int| (self.entries@[i].key@, vers_view(self.entries@[i].versions@).last()))
    }

    pub fn new() -> (r: Buffer)
        ensures
            r.wf(),
            r.as_map() == Map::<Seq<u8>, Seq<Seq<u8>>>::empty(),
            r.entries@.len() == 0,
    {
        Buffer { entries: Vec::new() }
    }

    /// Append `value` to the version list of `key`, creating the list if the
    /// key is new.  Prior versions are kept.
    pub fn insert(&mut self, key: Vec<u8>, value: Vec<u8>)
        requires
            old(self).wf(),
        ensures
            final(self).wf(),
            final(self).entries@.len() <= old(self).entries@.len() + 1,
            final(self).as_map() == old(self).as_map().insert(
                key@,
                if old(self).as_map().contains_key(key@) {
                    old(self).as_map()[key@].push(value@)
                } else {
                    seq![value@]
                },
            ),
    {
        let ghost es0 = self.entries@;
        let mut i: usize = 0;
        loop
            invariant_except_break
                self.entries@ == es0,
                old(self).wf(),
                i <= self.entries.len(),
                forall|j: int| #![auto] 0 <= j < i ==> lex_lt(self.entries@[j].key@, key@),
            ensures
                self.entries@ == es0,
                i <= self.entries.len(),
                forall|j: int| #![auto] 0 <= j < i ==> lex_lt(self.entries@[j].key@, key@),
                i == self.entries.len() || lex_le(key@, self.entries@[i as int].key@),
            decreases self.entries.len() - i,
        {
            if i == self.entries.len() {
                break;
            }
            if bytes_le(&key, &self.entries[i].key) {
                break;
            }
            proof {
                lemma_lex_le_total(key@, self.entries@[i as int].key@);
            }
            i = i + 1;
        }
        // here every entry before i has a key below `key`, and if i is in
        // range then key <= entries[i].key
        if i < self.entries.len() && bytes_eq(&key, &self.entries[i].key) {
            let mut e = self.entries.remove(i);
            e.versions.push(value);
            proof {
                lemma_map_of_index(es0, i as int);
            }
            let ghost e2 = e;
            self.entries.insert(i, e);
            proof {
                assert(self.entries@ =~= es0.update(i as int, e2));
                lemma_map_of_update(es0, i as int, e2);
                assert(vers_view(e2.versions@) =~= old(self).as_map()[key@].push(value@));
            }
        } else {
            proof {
                assert(forall|j: int| #![auto] i <= j < es0.len() ==> lex_le(key@, es0[j].key@)
                    && key@ != es0[j].key@) by {
                    assert forall|j: int| #![auto] i <= j < es0.len() implies lex_le(
                        key@, es0[j].key@) && key@ != es0[j].key@ by {
                        if j > i {
                            lemma_sorted_all(es0, i as int, j);
                            lemma_lex_le_trans(key@, es0[i as int].key@, es0[j].key@);
                            if key@ == es0[j].key@ {
                                lemma_lex_le_antisym(key@, es0[i as int].key@);
                            }
                        }
                    }
                }
                if old(self).as_map().contains_key(key@) {
                    lemma_map_of_contains(es0, key@);
                }
            }
            let e = BufEntry { key, versions: vec![value] };
            let ghost e2 = e;
            self.entries.insert(i, e);
            proof {
                lemma_map_of_insert(es0, i as int, e2);
                assert(vers_view(e2.versions@) =~= seq![value@]);
                assert forall|a: int| 0 <= a < self.entries@.len() - 1 implies lex_lt(
                    #[trigger] self.entries@[a].key@, self.entries@[a + 1].key@) by {
                    if a + 1 < i as int {
                        assert(self.entries@[a] == es0[a]);
                    }
                }
            }
        }
    }

    /// Whether any version list exists for `key`.
    pub fn contains_key(&self, key: &Vec<u8>) -> (r: bool)
        requires
            self.wf(),
        ensures
            r == self.as_map().contains_key(key@),
    {
        let mut i: usize = 0;
        while i < self.entries.len()
            invariant
                self.wf(),
                i <= self.entries.len(),
                forall|j: int| #![auto] 0 <= j < i ==> self.entries@[j].key@ != key@,
            decreases self.entries.len() - i,
        {
            if bytes_eq(key, &self.entries[i].key) {
                proof {
                    lemma_map_of_index(self.entries@, i as int);
                }
                return true;
            }
            i = i + 1;
        }
        proof {
            if self.as_map().contains_key(key@) {
                lemma_map_of_contains(self.entries@, key@);
            }
        }
        false
    }

    /// The most recent version for `key`, or nothing when the key is absent.
    pub fn lookup(&self, key: &Vec<u8>) -> (r: Option<Vec<u8>>)
        requires
            self.wf(),
        ensures
            match r {
                Some(v) => self.as_map().contains_key(key@) && v@ == self.as_map()[key@].last()
                    && self.as_map()[key@].len() >= 1,
                None => !self.as_map().contains_key(key@),
            },
    {
        let mut i: usize = 0;
        while i < self.entries.len()
            invariant
                self.wf(),
                i <= self.entries.len(),
                forall|j: int| #![auto] 0 <= j < i ==> self.entries@[j].key@ != key@,
            decreases self.entries.len() - i,
        {
            if bytes_eq(key, &self.entries[i].key) {
                proof {
                    lemma_map_of_index(self.entries@, i as int);
                }
                let e = &self.entries[i];
                let v = clone_bytes(&e.versions[e.versions.len() - 1]);
                proof {
                    assert(vers_view(e.versions@).last() == e.versions@.last()@);
                }
                return Some(v);
            }
            i = i + 1;
        }
        proof {
            if self.as_map().contains_key(key@) {
                lemma_map_of_contains(self.entries@, key@);
            }
        }
        None
    }

    /// The pairs handed to compaction: ascending by key, the most recent
    /// version of each key.
    pub fn snapshot(&self) -> (r: Vec<(Vec<u8>, Vec<u8>)>)
        requires
            self.wf(),
        ensures
            r@.len() == self.latest_seq().len(),
            forall|i: int| #![auto] 0 <= i < r@.len() ==> (r@[i].0@, r@[i].1@)
                == self.latest_seq()[i],
    {
        let mut r: Vec<(Vec<u8>, Vec<u8>)> = Vec::new();
        let mut i: usize = 0;
        while i < self.entries.len()
            invariant
                self.wf(),
                i <= self.entries.len(),
                r@.len() == i,
                forall|j: int| #![auto] 0 <= j < i ==> (r@[j].0@, r@[j].1@) == self.latest_seq()[j],
            decreases self.entries.len() - i,
        {
            let e = &self.entries[i];
            let k = clone_bytes(&e.key);
            let v = clone_bytes(&e.versions[e.versions.len() - 1]);
            proof {
                assert(vers_view(e.versions@).last() == e.versions@.last()@);
            }
            r.push((k, v));
            i = i + 1;
        }
        r
    }
}

/// The buffer's latest-version pairs are strictly sorted by key, and looking
/// a key up among them yields exactly the buffer's most recent version.
pub proof fn lemma_latest_seq_lookup(b: Buffer, k: Seq<u8>)
    requires
        b.wf(),
    ensures
        sorted_pairs(b.latest_seq()),
        entries_lookup(b.latest_seq(), k) == (if b.as_map().contains_key(k) {
            Some(b.as_map()[k].last())
        } else {
            None::<Seq<u8>>
        }),
{
    let ls = b.latest_seq();
    assert forall|i: int| 0 <= i < ls.len() - 1 implies lex_lt((#[trigger] ls[i]).0, ls[i
        + 1].0) by {
        assert(ls[i].0 == b.entries@[i].key@);
    }
    if b.as_map().contains_key(k) {
        lemma_map_of_contains(b.entries@, k);
        let j = choose|j: int| 0 <= j < b.entries@.len() && (#[trigger] b.entries@[j].key@)
            == k;
        lemma_map_of_index(b.entries@, j);
        assert forall|i: int| 0 <= i < ls.len() && i != j implies (#[trigger] ls[i]).0 != k by {
            if i < j {
                lemma_sorted_all(b.entries@, i, j);
            } else {
                lemma_sorted_all(b.entries@, j, i);
            }
        }
        assert(ls[j] == (k, vers_view(b.entries@[j].versions@).last()));
        lemma_entries_lookup_at(ls, j, k);
    } else {
        assert forall|i: int| 0 <= i < ls.len() implies (#[trigger] ls[i]).0 != k by {
            lemma_map_of_index(b.entries@, i);
        }
        lemma_entries_lookup_absent(ls, k);
    }
}

} // verus!
