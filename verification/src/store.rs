use vstd::prelude::*;
use core::marker::PhantomData;
use crate::buffer::Buffer;
use crate::bytes::{pad, pad_to, zeros, clone_bytes};
use crate::codec::{Codable, KeyType, ValueType};
use crate::entries::{entries_lookup, lemma_entries_lookup_some, pairs_view};
use crate::errors::StoreError;
use crate::tree::{empty_tree, check_header, header_wf, header_seq, tree_lookup, tree_lookup_spec, tree_entries, wf_tree, lemma_empty_tree_wf};
use crate::wal::{log_wf, log_records, append_slot};

verus! {

/// The multi-valued map that a record sequence denotes: each record appends
/// its value to the version list of its key.
pub open spec fn buffer_of(records: Seq<(Seq<u8>, Seq<u8>)>) -> Map<Seq<u8>, Seq<Seq<u8>>>
    decreases records.len(),
{
    if records.len() == 0 {
        Map::empty()
    } else {
        let m = buffer_of(records.drop_last());
        let kv = records.last();
        m.insert(kv.0, if m.contains_key(kv.0) {
            m[kv.0].push(kv.1)
        } else {
            seq![kv.1]
        })
    }
}

/// Every version held by the replayed buffer is the value of some record.
pub proof fn lemma_buffer_of_values(records: Seq<(Seq<u8>, Seq<u8>)>, k: Seq<u8>, j: int)
    requires
        buffer_of(records).contains_key(k),
        0 <= j < buffer_of(records)[k].len(),
    ensures
        exists|i: int| 0 <= i < records.len() && (#[trigger] records[i]).1 == buffer_of(
            records)[k][j],
    decreases records.len(),
{
    let m = buffer_of(records.drop_last());
    let kv = records.last();
    if kv.0 == k {
        if m.contains_key(k) && j < m[k].len() {
            lemma_buffer_of_values(records.drop_last(), k, j);
            let i = choose|i: int| 0 <= i < records.drop_last().len() && (
                #[trigger] records.drop_last()[i]).1 == buffer_of(records.drop_last())[k][j];
            assert(records[i].1 == buffer_of(records)[k][j]);
        } else {
            assert(records[records.len() - 1].1 == buffer_of(records)[k][j]);
        }
    } else {
        lemma_buffer_of_values(records.drop_last(), k, j);
        let i = choose|i: int| 0 <= i < records.drop_last().len() && (
            #[trigger] records.drop_last()[i]).1 == buffer_of(records.drop_last())[k][j];
        assert(records[i].1 == buffer_of(records)[k][j]);
    }
}

/// Every key the replayed buffer holds is the key of some record.
pub proof fn lemma_buffer_of_keys(records: Seq<(Seq<u8>, Seq<u8>)>, k: Seq<u8>)
    requires
        buffer_of(records).contains_key(k),
    ensures
        exists|i: int| 0 <= i < records.len() && (#[trigger] records[i]).0 == k,
    decreases records.len(),
{
    let kv = records.last();
    if kv.0 == k {
        assert(records[records.len() - 1].0 == k);
    } else {
        lemma_buffer_of_keys(records.drop_last(), k);
        let i = choose|i: int| 0 <= i < records.drop_last().len() && (
            #[trigger] records.drop_last()[i]).0 == k;
        assert(records[i].0 == k);
    }
}

/// The current value a multi-valued map holds for a key: its most recently
/// appended version, or nothing.
pub open spec fn latest_of(m: Map<Seq<u8>, Seq<Seq<u8>>>, k: Seq<u8>) -> Option<Seq<u8>> {
    if m.contains_key(k) {
        Some(m[k].last())
    } else {
        None
    }
}

/// Whether replaying the log bytes `w` succeeds: a whole number of slots,
/// each of whose key and value parts decodes.
pub open spec fn replay_ok<K: Codable, V: Codable>(w: Seq<u8>, mk: int, mv: int) -> bool {
    &&& log_wf(w, mk, mv)
    &&& forall|i: int| 0 <= i < log_records(w, mk, mv).len() ==> K::decodes((
        #[trigger] log_records(w, mk, mv)[i]).0) && V::decodes(log_records(w, mk, mv)[i].1)
}

/// Whether every value the tree holds decodes.
pub open spec fn tree_values_ok<V: Codable>(t: Seq<u8>, mk: int, mv: int) -> bool {
    forall|i: int| 0 <= i < tree_entries(t, mk, mv).len() ==> V::decodes((
        #[trigger] tree_entries(t, mk, mv)[i]).1)
}

/// The store: an on-disk tree, a write-ahead log, and an in-memory buffer of
/// recent writes.  The two files are held as their byte contents; the caller
/// that owns the real files reads them in at open and writes the changed
/// bytes back out after each operation.
pub struct BTree<K: KeyType, V: ValueType> {
    pub tree_file_path: String,
    pub max_key_size: usize,
    pub max_value_size: usize,
    pub tree_file: Vec<u8>,
    pub wal_file: Vec<u8>,
    pub mem_tree: Buffer,
    pub marker: PhantomData<(K, V)>,
}

impl<K: KeyType, V: ValueType> BTree<K, V> {
    /// The store's invariant: the log is whole slots that replay cleanly,
    /// and the buffer is exactly the log's replay.
    pub open spec fn wf(&self) -> bool {
        &&& self.max_key_size >= 1
        &&& self.max_value_size >= 1
        &&& 32 * (self.max_key_size + self.max_value_size) + 10 <= usize::MAX
        &&& replay_ok::<K, V>(self.wal_file@, self.max_key_size as int,
            self.max_value_size as int)
        &&& self.mem_tree.wf()
        &&& self.mem_tree.as_map() == buffer_of(log_records(self.wal_file@,
            self.max_key_size as int, self.max_value_size as int))
        &&& header_wf(self.tree_file@)
    }

    /// What a read of the padded key bytes `pk` observes: the buffer's most
    /// recent version, or else the tree's binding.
    pub open spec fn lookup_model(&self, pk: Seq<u8>) -> Option<Seq<u8>> {
        if self.mem_tree.as_map().contains_key(pk) {
            Some(self.mem_tree.as_map()[pk].last())
        } else {
            tree_lookup_spec(self.tree_file@, self.max_key_size as int,
                self.max_value_size as int, pk)
        }
    }

    /// Create a fresh store: a header-only tree file and an empty log.
    pub fn new(tree_file_path: String, max_key_size: usize, max_value_size: usize) -> (r: Result<
        BTree<K, V>, StoreError>)
        requires
            max_key_size >= 1,
            max_value_size >= 1,
            32 * (max_key_size + max_value_size) + 10 <= usize::MAX,
        ensures
            r matches Ok(st) ==> {
                &&& st.wf()
                &&& st.max_key_size == max_key_size
                &&& st.max_value_size == max_value_size
                &&& st.tree_file_path@ == tree_file_path@
                &&& st.tree_file@ == header_seq()
                &&& st.tree_file@.len() == 8
                &&& st.wal_file@.len() == 0
                &&& st.mem_tree.as_map() == Map::<Seq<u8>, Seq<Seq<u8>>>::empty()
                &&& wf_tree(st.tree_file@, max_key_size as int, max_value_size as int)
            },
            r is Ok,
    {
        Self::open(tree_file_path, max_key_size, max_value_size, None, None)
    }

    /// Open a store from the bytes of its files (`None` when a file does not
    /// exist yet).  A non-empty log holds writes that were never folded into
    /// the tree: they are replayed into a fresh buffer.  Fails with
    /// `CorruptionError` when the log does not replay, and with
    /// `FormatError` when the tree file does not start with the magic and
    /// the current version.
    pub fn open(tree_file_path: String, max_key_size: usize, max_value_size: usize, tree_bytes: Option<Vec<u8>>, wal_bytes: Option<Vec<u8>>) -> (r: Result<BTree<K, V>, StoreError>)
        requires
            max_key_size >= 1,
            max_value_size >= 1,
            32 * (max_key_size + max_value_size) + 10 <= usize::MAX,
        ensures
            r matches Ok(st) ==> {
                &&& st.wf()
                &&& st.max_key_size == max_key_size
                &&& st.max_value_size == max_value_size
                &&& st.tree_file_path@ == tree_file_path@
                &&& st.tree_file@ == (match tree_bytes {
                    Some(t) => t@,
                    None => header_seq(),
                })
                &&& st.wal_file@ == (match wal_bytes {
                    Some(w) => w@,
                    None => Seq::<u8>::empty(),
                })
                &&& st.mem_tree.as_map() == buffer_of(log_records(st.wal_file@,
                    max_key_size as int, max_value_size as int))
            },
            (match wal_bytes {
                Some(w) => !replay_ok::<K, V>(w@, max_key_size as int, max_value_size as int),
                None => false,
            }) ==> (r matches Err(e) && e == StoreError::CorruptionError),
            ((match wal_bytes {
                Some(w) => replay_ok::<K, V>(w@, max_key_size as int, max_value_size as int),
                None => true,
            }) && (match tree_bytes {
                Some(t) => !header_wf(t@),
                None => false,
            })) ==> (r matches Err(e) && e == StoreError::FormatError),
            ((match wal_bytes {
                Some(w) => replay_ok::<K, V>(w@, max_key_size as int, max_value_size as int),
                None => true,
            }) && (match tree_bytes {
                Some(t) => header_wf(t@),
                None => true,
            })) ==> r is Ok,
    {
        let ghost mki = max_key_size as int;
        let ghost mvi = max_value_size as int;
        let s = max_key_size + max_value_size;
        let wal = match wal_bytes {
            Some(w) => w,
            None => Vec::new(),
        };
        proof {
            if wal@.len() == 0 {
                assert(wal@.len() as int % (s as int) == 0) by (nonlinear_arith)
                    requires
                        s >= 2,
                        wal@.len() == 0,
                ;
            }
        }
        let mut mem_tree = Buffer::new();
        if wal.len() % s != 0 {
            proof {
                assert(!log_wf(wal@, mki, mvi));
            }
            return Err(StoreError::CorruptionError);
        }
        let n = wal.len() / s;
        let ghost records = log_records(wal@, mki, mvi);
        proof {
            vstd::arithmetic::div_mod::lemma_fundamental_div_mod(wal@.len() as int, s as int);
            assert(records.len() == n);
        }
        let mut i: usize = 0;
        while i < n
            invariant
                max_key_size >= 1,
                max_value_size >= 1,
                mki == max_key_size as int,
                mvi == max_value_size as int,
                s == max_key_size + max_value_size,
                wal@ == (match wal_bytes {
                    Some(w) => w@,
                    None => Seq::<u8>::empty(),
                }),
                log_wf(wal@, mki, mvi),
                n as int == wal@.len() as int / (s as int),
                records == log_records(wal@, mki, mvi),
                records.len() == n,
                wal@.len() == (s as int) * (n as int),
                wal@.len() <= usize::MAX,
                i <= n,
                mem_tree.wf(),
                mem_tree.as_map() == buffer_of(records.take(i as int)),
                forall|x: int| 0 <= x < i ==> K::decodes((#[trigger] records[x]).0)
                    && V::decodes(records[x].1),
            decreases n - i,
        {
            proof {
                assert(0 <= (i as int) * (s as int) && (i as int + 1) * (s as int) <= (n as int)
                    * (s as int) && (i as int + 1) * (s as int) == (i as int) * (s as int)
                    + s as int && (n as int) * (s as int) == (s as int) * (n as int))
                    by (nonlinear_arith)
                    requires
                        0 <= i < n,
                        s >= 2,
                ;
            }
            let off = i * s;
            let kb = crate::bytes::slice_range(&wal, off, max_key_size);
            let vb = crate::bytes::slice_range(&wal, off + max_key_size, max_value_size);
            proof {
                assert(records[i as int].0 == kb@ && records[i as int].1 == vb@);
            }
            match K::decode_from(kb.as_slice()) {
                Ok(_) => {},
                Err(e) => {
                    proof {
                        assert(!replay_ok::<K, V>(wal@, mki, mvi));
                    }
                    return Err(e);
                },
            }
            match V::decode_from(vb.as_slice()) {
                Ok(_) => {},
                Err(e) => {
                    proof {
                        assert(!replay_ok::<K, V>(wal@, mki, mvi));
                    }
                    return Err(e);
                },
            }
            mem_tree.insert(kb, vb);
            proof {
                assert(records.take(i as int + 1).drop_last() =~= records.take(i as int));
                assert(records.take(i as int + 1).last() == records[i as int]);
            }
            i = i + 1;
        }
        proof {
            assert(records.take(n as int) =~= records);
        }
        let tree_file = match tree_bytes {
            Some(t) => {
                if !check_header(&t) {
                    return Err(StoreError::FormatError);
                }
                t
            },
            None => {
                let t = empty_tree();
                proof {
                    lemma_empty_tree_wf(mki, mvi);
                }
                t
            },
        };
        Ok(BTree {
            tree_file_path,
            max_key_size,
            max_value_size,
            tree_file,
            wal_file: wal,
            mem_tree,
            marker: PhantomData,
        })
    }

    /// Encode a pair into one fixed-size log slot: the zero-padded key bytes
    /// and the zero-padded value bytes.  An oversize key or value is
    /// rejected with `EncodingError`.  The store is not changed.
    pub fn encode_slot(&self, key: &K, value: &V) -> (r: Result<(Vec<u8>, Vec<u8>), StoreError>)
        requires
            self.wf(),
        ensures
            r matches Ok(s) ==> {
                &&& s.0@ == pad(key.enc(), self.max_key_size as int)
                &&& s.1@ == pad(value.enc(), self.max_value_size as int)
                &&& s.0@.len() == self.max_key_size
                &&& s.1@.len() == self.max_value_size
                &&& key.enc().len() <= self.max_key_size
                &&& value.enc().len() <= self.max_value_size
                &&& K::decodes(s.0@)
                &&& V::decodes(s.1@)
                &&& key.decoded_by(s.0@)
                &&& value.decoded_by(s.1@)
                &&& V::decoded_enc(s.1@) == value.enc()
            },
            r matches Err(e) ==> e == StoreError::EncodingError && (key.enc().len()
                > self.max_key_size || value.enc().len() > self.max_value_size),
    {
        let mk = self.max_key_size;
        let mv = self.max_value_size;
        let kb = match key.encode_within(mk) {
            Ok(v) => v,
            Err(e) => {
                return Err(e);
            },
        };
        let vb = match value.encode_within(mv) {
            Ok(v) => v,
            Err(e) => {
                return Err(e);
            },
        };
        let pk = pad_to(&kb, mk);
        let pv = pad_to(&vb, mv);
        proof {
            assert(K::decodes(key.enc() + zeros(mk - key.enc().len())));
            assert(V::decodes(value.enc() + zeros(mv - value.enc().len())));
        }
        Ok((pk, pv))
    }

    /// Record one slot the caller has already made durable: append it to the
    /// log bytes (the durability point, which the caller's flush has
    /// passed), then make it visible in the buffer.  `pk` and `pv` are
    /// exactly what `encode_slot` produced.
    pub fn commit_slot(&mut self, pk: Vec<u8>, pv: Vec<u8>)
        requires
            old(self).wf(),
            old(self).wal_file@.len() + old(self).max_key_size + old(self).max_value_size
                <= usize::MAX,
            pk@.len() == old(self).max_key_size,
            pv@.len() == old(self).max_value_size,
            K::decodes(pk@),
            V::decodes(pv@),
        ensures
            final(self).wf(),
            final(self).max_key_size == old(self).max_key_size,
            final(self).max_value_size == old(self).max_value_size,
            final(self).tree_file_path@ == old(self).tree_file_path@,
            final(self).tree_file@ == old(self).tree_file@,
            final(self).wal_file@ == old(self).wal_file@ + pk@ + pv@,
            final(self).wal_file@.len() == old(self).wal_file@.len() + old(self).max_key_size
                + old(self).max_value_size,
            final(self).mem_tree.as_map() == old(self).mem_tree.as_map().insert(pk@, (if old(
                self).mem_tree.as_map().contains_key(pk@) {
                old(self).mem_tree.as_map()[pk@]
            } else {
                Seq::empty()
            }).push(pv@)),
    {
        let mk = self.max_key_size;
        let mv = self.max_value_size;
        let ghost pk_s = pk@;
        let ghost pv_s = pv@;
        let ghost records0 = log_records(self.wal_file@, mk as int, mv as int);
        append_slot(&mut self.wal_file, &pk, &pv, mk, mv);
        self.mem_tree.insert(pk, pv);
        proof {
            let records = log_records(self.wal_file@, mk as int, mv as int);
            assert(records == records0.push((pk_s, pv_s)));
            assert(records.drop_last() =~= records0);
            assert(records.last() == (pk_s, pv_s));
            assert(self.mem_tree.as_map() == buffer_of(records)) by {
                if buffer_of(records0).contains_key(pk_s) {
                    assert(buffer_of(records0)[pk_s].push(pv_s) =~= (if buffer_of(
                        records0).contains_key(pk_s) {
                        buffer_of(records0)[pk_s]
                    } else {
                        Seq::empty()
                    }).push(pv_s));
                } else {
                    assert(seq![pv_s] =~= Seq::<Seq<u8>>::empty().push(pv_s));
                }
            }
            assert forall|x: int| 0 <= x < records.len() implies K::decodes((
                #[trigger] records[x]).0) && V::decodes(records[x].1) by {
                if x < records0.len() {
                    assert(records[x] == records0[x]);
                }
            }
        }
    }

    /// Insert a pair: append one fixed-size slot to the log (the durability
    /// point), then record the write in the buffer (the visibility point).
    /// An oversize key or value is rejected with `EncodingError` before
    /// anything changes.  A caller that owns real files should instead call
    /// `encode_slot`, persist the slot, then `commit_slot`, so that nothing
    /// becomes visible before it is durable.
    pub fn insert(&mut self, key: K, value: V) -> (r: Result<(), StoreError>)
        requires
            old(self).wf(),
            old(self).wal_file@.len() + old(self).max_key_size + old(self).max_value_size
                <= usize::MAX,
        ensures
            final(self).wf(),
            final(self).max_key_size == old(self).max_key_size,
            final(self).max_value_size == old(self).max_value_size,
            final(self).tree_file_path@ == old(self).tree_file_path@,
            final(self).tree_file@ == old(self).tree_file@,
            r matches Ok(u) ==> {
                &&& key.enc().len() <= old(self).max_key_size
                &&& value.enc().len() <= old(self).max_value_size
                &&& key.decoded_by(pad(key.enc(), old(self).max_key_size as int))
                &&& value.decoded_by(pad(value.enc(), old(self).max_value_size as int))
                &&& final(self).wal_file@ == old(self).wal_file@ + pad(key.enc(), old(
                    self).max_key_size as int) + pad(value.enc(), old(
                    self).max_value_size as int)
                &&& final(self).wal_file@.len() == old(self).wal_file@.len() + old(
                    self).max_key_size + old(self).max_value_size
                &&& final(self).mem_tree.as_map() == old(self).mem_tree.as_map().insert(pad(
                    key.enc(), old(self).max_key_size as int), (if old(
                    self).mem_tree.as_map().contains_key(pad(key.enc(), old(
                    self).max_key_size as int)) {
                    old(self).mem_tree.as_map()[pad(key.enc(), old(self).max_key_size as int)]
                } else {
                    Seq::empty()
                }).push(pad(value.enc(), old(self).max_value_size as int)))
            },
            r matches Err(e) ==> {
                &&& e == StoreError::EncodingError
                &&& (key.enc().len() > old(self).max_key_size || value.enc().len() > old(
                    self).max_value_size)
                &&& *final(self) == *old(self)
            },
    {
        let slot = match self.encode_slot(&key, &value) {
            Ok(s) => s,
            Err(e) => {
                return Err(e);
            },
        };
        let (pk, pv) = slot;
        self.commit_slot(pk, pv);
        Ok(())
    }


    /// Fold the buffer into the tree and empty the log: the buffer's
    /// freshest versions are merged with the tree's entries in key order,
    /// the buffer winning on shared keys, and the merged pairs are written
    /// bottom-up, with fanout 32, into a new tree file that replaces the old
    /// one; the log is then truncated and the buffer emptied.  Afterwards
    /// every key reads exactly as it did before the call.
    pub fn compact(&mut self) -> (r: Result<(), StoreError>)
        requires
            old(self).wf(),
            wf_tree(old(self).tree_file@, old(self).max_key_size as int, old(
                self).max_value_size as int),
            tree_values_ok::<V>(old(self).tree_file@, old(self).max_key_size as int, old(
                self).max_value_size as int),
            8 + (2 * (tree_entries(old(self).tree_file@, old(self).max_key_size as int, old(
                self).max_value_size as int).len() + old(self).mem_tree.entries@.len()) + 1)
                * crate::tree::page_size(old(self).max_key_size as int, old(
                self).max_value_size as int) <= usize::MAX,
        ensures
            r is Ok,
            final(self).wf(),
            final(self).max_key_size == old(self).max_key_size,
            final(self).max_value_size == old(self).max_value_size,
            final(self).tree_file_path@ == old(self).tree_file_path@,
            final(self).wal_file@.len() == 0,
            final(self).mem_tree.as_map() == Map::<Seq<u8>, Seq<Seq<u8>>>::empty(),
            wf_tree(final(self).tree_file@, old(self).max_key_size as int, old(
                self).max_value_size as int),
            tree_values_ok::<V>(final(self).tree_file@, old(self).max_key_size as int, old(
                self).max_value_size as int),
            forall|k: Seq<u8>| #![auto] tree_lookup_spec(final(self).tree_file@, old(
                self).max_key_size as int, old(self).max_value_size as int, k) == old(
                self).lookup_model(k),
    {
        let mk = self.max_key_size;
        let mv = self.max_value_size;
        let ghost mki = mk as int;
        let ghost mvi = mv as int;
        let ghost oldt = self.tree_file@;
        let ghost tev = tree_entries(oldt, mki, mvi);
        let ghost records = log_records(self.wal_file@, mki, mvi);
        let ps = 10 + 32 * (mk + mv);
        let tl = self.tree_file.len();
        // the old tree's pairs, in key order
        let te: Vec<(Vec<u8>, Vec<u8>)> = if tl > 8 {
            let np = (tl - 8) / ps;
            proof {
                vstd::arithmetic::div_mod::lemma_fundamental_div_mod(tl as int - 8, ps as int);
                assert((tl as int - 8) % (ps as int) == 0);
                assert(np >= 1) by (nonlinear_arith)
                    requires
                        tl as int - 8 == (ps as int) * (np as int) + (tl as int - 8) % (
                            ps as int),
                        (tl as int - 8) % (ps as int) == 0,
                        tl as int > 8,
                        ps >= 1,
                        np as int == (tl as int - 8) / (ps as int),
                ;
            }
            match crate::tree::collect_subtree(&self.tree_file, mk, mv, np - 1) {
                Ok(es) => es,
                Err(e) => {
                    proof {
                        assert(false);
                    }
                    return Err(e);
                },
            }
        } else {
            proof {
                assert(tev =~= Seq::<(Seq<u8>, Seq<u8>)>::empty());
            }
            Vec::new()
        };
        proof {
            assert(pairs_view(te@) == tev);
            crate::tree::lemma_tree_entries_props(oldt, mki, mvi);
        }
        let bs = self.mem_tree.snapshot();
        let ghost bsv = self.mem_tree.latest_seq();
        proof {
            assert(pairs_view(bs@) =~= bsv);
        }
        // merge by replay: the tree's pairs first, then the buffer's, into a
        // fresh buffer; the later write wins, so the buffer is freshest
        let mut b2 = Buffer::new();
        let mut i: usize = 0;
        while i < te.len()
            invariant
                b2.wf(),
                i <= te.len(),
                b2.entries@.len() <= i,
                pairs_view(te@) == tev,
                forall|k: Seq<u8>| #![auto] latest_of(b2.as_map(), k) == entries_lookup(
                    tev.take(i as int), k),
            decreases te.len() - i,
        {
            let kb = clone_bytes(&te[i].0);
            let vb = clone_bytes(&te[i].1);
            let ghost m0 = b2.as_map();
            b2.insert(kb, vb);
            proof {
                assert(tev.take(i as int + 1).drop_last() =~= tev.take(i as int));
                assert(tev.take(i as int + 1).last() == tev[i as int]);
                assert((te@[i as int].0@, te@[i as int].1@) == tev[i as int]);
                let vs = if m0.contains_key(kb@) {
                    m0[kb@].push(vb@)
                } else {
                    seq![vb@]
                };
                assert(b2.as_map() == m0.insert(kb@, vs));
                assert(vs.last() == vb@);
                assert forall|k: Seq<u8>| #![auto] latest_of(b2.as_map(), k) == entries_lookup(
                    tev.take(i as int + 1), k) by {
                    if k == tev[i as int].0 {
                        assert(b2.as_map()[k] == vs);
                        assert(latest_of(b2.as_map(), k) == Some(tev[i as int].1));
                    } else {
                        assert(b2.as_map().contains_key(k) == m0.contains_key(k));
                        if m0.contains_key(k) {
                            assert(b2.as_map()[k] == m0[k]);
                        }
                        assert(latest_of(m0, k) == entries_lookup(tev.take(i as int), k));
                        assert(latest_of(b2.as_map(), k) == latest_of(m0, k));
                    }
                }
            }
            i = i + 1;
        }
        proof {
            assert(tev.take(te@.len() as int) =~= tev);
        }
        let mut j: usize = 0;
        while j < bs.len()
            invariant
                b2.wf(),
                j <= bs.len(),
                b2.entries@.len() <= te@.len() + j,
                pairs_view(te@) == tev,
                pairs_view(bs@) == bsv,
                forall|k: Seq<u8>| #![auto] latest_of(b2.as_map(), k) == (match entries_lookup(
                    bsv.take(j as int), k) {
                    Some(v) => Some(v),
                    None => entries_lookup(tev, k),
                }),
            decreases bs.len() - j,
        {
            let kb = clone_bytes(&bs[j].0);
            let vb = clone_bytes(&bs[j].1);
            let ghost m0 = b2.as_map();
            b2.insert(kb, vb);
            proof {
                assert(bsv.take(j as int + 1).drop_last() =~= bsv.take(j as int));
                assert(bsv.take(j as int + 1).last() == bsv[j as int]);
                assert((bs@[j as int].0@, bs@[j as int].1@) == bsv[j as int]);
                let vs = if m0.contains_key(kb@) {
                    m0[kb@].push(vb@)
                } else {
                    seq![vb@]
                };
                assert(b2.as_map() == m0.insert(kb@, vs));
                assert(vs.last() == vb@);
                assert forall|k: Seq<u8>| #![auto] latest_of(b2.as_map(), k) == (match
                    entries_lookup(bsv.take(j as int + 1), k) {
                    Some(v) => Some(v),
                    None => entries_lookup(tev, k),
                }) by {
                    if k == bsv[j as int].0 {
                        assert(b2.as_map()[k] == vs);
                        assert(latest_of(b2.as_map(), k) == Some(bsv[j as int].1));
                    } else {
                        assert(b2.as_map().contains_key(k) == m0.contains_key(k));
                        if m0.contains_key(k) {
                            assert(b2.as_map()[k] == m0[k]);
                        }
                        assert(latest_of(m0, k) == (match entries_lookup(bsv.take(j as int),
                            k) {
                            Some(v) => Some(v),
                            None => entries_lookup(tev, k),
                        }));
                        assert(latest_of(b2.as_map(), k) == latest_of(m0, k));
                    }
                }
            }
            j = j + 1;
        }
        proof {
            assert(bsv.take(bs@.len() as int) =~= bsv);
        }
        let merged = b2.snapshot();
        proof {
            assert(pairs_view(merged@) =~= b2.latest_seq());
            crate::buffer::lemma_latest_seq_lookup(b2, Seq::<u8>::empty());
            crate::wal::lemma_log_record_lens(self.wal_file@, mki, mvi);
            // each merged pair comes from the buffer or from the tree, so it
            // has the fixed widths and a decodable value
            assert forall|x: int| 0 <= x < merged@.len() implies (
                #[trigger] merged@[x]).0@.len() == mk && merged@[x].1@.len() == mv
                && V::decodes(merged@[x].1@) by {
                assert(pairs_view(merged@)[x] == (merged@[x].0@, merged@[x].1@));
                crate::buffer::lemma_map_of_index(b2.entries@, x);
                let k = b2.entries@[x].key@;
                assert(latest_of(b2.as_map(), k) == Some(pairs_view(merged@)[x].1));
                match entries_lookup(bsv, k) {
                    Some(v) => {
                        lemma_entries_lookup_some(bsv, k);
                        let y = choose|y: int| 0 <= y < bsv.len() && (#[trigger] bsv[y]) == (k,
                            entries_lookup(bsv, k).unwrap());
                        crate::buffer::lemma_map_of_index(self.mem_tree.entries@, y);
                        assert(self.mem_tree.as_map().contains_key(k));
                        lemma_buffer_of_keys(records, k);
                        lemma_buffer_of_values(records, k, self.mem_tree.as_map()[k].len() - 1);
                        assert(v == self.mem_tree.as_map()[k].last());
                    },
                    None => {
                        lemma_entries_lookup_some(tev, k);
                    },
                }
            }
        }
        proof {
            assert(merged@.len() == b2.entries@.len());
            assert(bsv.len() == old(self).mem_tree.entries@.len());
            let ghost nbound = tev.len() + old(self).mem_tree.entries@.len();
            let ghost nm = merged@.len();
            let ghost psg = ps as int;
            assert((2 * nm + 1) * psg <= (2 * nbound + 1) * psg) by (nonlinear_arith)
                requires
                    nm <= nbound,
                    psg >= 1,
            ;
        }
        let newt = crate::tree::build_tree(&merged, mk, mv);
        let ghost newts = newt@;
        self.tree_file = newt;
        self.wal_file = Vec::new();
        self.mem_tree = Buffer::new();
        proof {
            assert(self.wal_file@.len() as int % (mki + mvi) == 0 && self.wal_file@.len() as int
                / (mki + mvi) == 0) by (nonlinear_arith)
                requires
                    self.wal_file@.len() == 0,
                    mki + mvi >= 2,
            ;
            assert(log_records(self.wal_file@, mki, mvi).len() == 0);
            assert(buffer_of(log_records(self.wal_file@, mki, mvi)) =~= Map::<Seq<u8>, Seq<
                Seq<u8>>>::empty());
            // every key now reads from the new tree exactly what it read
            // from the buffer-over-tree pair before
            assert forall|k: Seq<u8>| #![auto] tree_lookup_spec(newts, mki, mvi, k) == old(
                self).lookup_model(k) by {
                crate::buffer::lemma_latest_seq_lookup(b2, k);
                crate::buffer::lemma_latest_seq_lookup(old(self).mem_tree, k);
                assert(tree_entries(newts, mki, mvi) == b2.latest_seq());
                assert(latest_of(b2.as_map(), k) == (match entries_lookup(bsv, k) {
                    Some(v) => Some(v),
                    None => entries_lookup(tev, k),
                }));
                assert(entries_lookup(bsv, k) == latest_of(old(self).mem_tree.as_map(), k));
            }
        }
        Ok(())
    }

    /// Read a key: the buffer's most recent version wins; a key absent from
    /// the buffer falls back to the tree.
    pub fn lookup(&self, key: &K) -> (r: Result<Option<V>, StoreError>)
        requires
            self.wf(),
        ensures
            key.enc().len() > self.max_key_size ==> (r matches Ok(o) && o is None),
            key.enc().len() <= self.max_key_size
                && self.mem_tree.as_map().contains_key(pad(key.enc(),
                self.max_key_size as int)) ==> (r matches Ok(o) && o matches Some(v) && v.enc()
                == V::decoded_enc(self.lookup_model(pad(key.enc(),
                self.max_key_size as int)).unwrap()) && v.decoded_by(self.lookup_model(pad(
                key.enc(), self.max_key_size as int)).unwrap())),
            key.enc().len() <= self.max_key_size && !self.mem_tree.as_map().contains_key(pad(
                key.enc(), self.max_key_size as int)) && wf_tree(self.tree_file@,
                self.max_key_size as int, self.max_value_size as int) && tree_values_ok::<V>(
                self.tree_file@, self.max_key_size as int, self.max_value_size as int)
                ==> (match self.lookup_model(pad(key.enc(), self.max_key_size as int)) {
                Some(b) => (r matches Ok(o) && o matches Some(v) && v.enc() == V::decoded_enc(
                    b) && v.decoded_by(b)),
                None => (r matches Ok(o) && o is None),
            }),
            r matches Err(e) ==> e == StoreError::CorruptionError && !(wf_tree(self.tree_file@,
                self.max_key_size as int, self.max_value_size as int) && tree_values_ok::<V>(
                self.tree_file@, self.max_key_size as int, self.max_value_size as int)),
    {
        let mk = self.max_key_size;
        let mv = self.max_value_size;
        let kb = match key.encode_within(mk) {
            Ok(v) => v,
            Err(_) => {
                return Ok(None);
            },
        };
        let pk = pad_to(&kb, mk);
        match self.mem_tree.lookup(&pk) {
            Some(vbytes) => {
                proof {
                    let records = log_records(self.wal_file@, mk as int, mv as int);
                    let m = self.mem_tree.as_map();
                    lemma_buffer_of_values(records, pk@, m[pk@].len() - 1);
                }
                match V::decode_from(vbytes.as_slice()) {
                    Ok(v) => Ok(Some(v)),
                    Err(e) => {
                        proof {
                            assert(false);
                        }
                        Err(e)
                    },
                }
            },
            None => {
                match tree_lookup(&self.tree_file, mk, mv, &pk) {
                    Ok(Some(b)) => {
                        proof {
                            if wf_tree(self.tree_file@, mk as int, mv as int)
                                && tree_values_ok::<V>(self.tree_file@, mk as int, mv as int) {
                                lemma_entries_lookup_some(tree_entries(self.tree_file@,
                                    mk as int, mv as int), pk@);
                            }
                        }
                        match V::decode_from(b.as_slice()) {
                            Ok(v) => Ok(Some(v)),
                            Err(e) => Err(e),
                        }
                    },
                    Ok(None) => Ok(None),
                    Err(e) => Err(e),
                }
            },
        }
    }

    /// Whether the in-memory buffer holds any pending version for the key.
    pub fn contains_key(&self, key: &K) -> (r: bool)
        requires
            self.wf(),
        ensures
            key.enc().len() <= self.max_key_size ==> r == self.mem_tree.as_map().contains_key(
                pad(key.enc(), self.max_key_size as int)),
            key.enc().len() > self.max_key_size ==> r == false,
    {
        let mk = self.max_key_size;
        let kb = match key.encode_within(mk) {
            Ok(v) => v,
            Err(_) => {
                return false;
            },
        };
        let pk = pad_to(&kb, mk);
        self.mem_tree.contains_key(&pk)
    }

    /// The log file's length in bytes.
    pub fn wal_len(&self) -> (r: usize)
        ensures
            r == self.wal_file@.len(),
    {
        self.wal_file.len()
    }

    /// Whether the log file is empty.
    pub fn wal_is_empty(&self) -> (r: bool)
        ensures
            r == (self.wal_file@.len() == 0),
    {
        self.wal_file.len() == 0
    }

    /// The tree file's length in bytes.
    pub fn tree_len(&self) -> (r: usize)
        ensures
            r == self.tree_file@.len(),
    {
        self.tree_file.len()
    }

    /// The tree file's bytes, for the caller that persists them.
    pub fn tree_bytes(&self) -> (r: &Vec<u8>)
        ensures
            r@ == self.tree_file@,
    {
        &self.tree_file
    }

    /// The log file's bytes, for the caller that persists them.
    pub fn wal_bytes(&self) -> (r: &Vec<u8>)
        ensures
            r@ == self.wal_file@,
    {
        &self.wal_file
    }

    /// The base path the store was opened with.
    pub fn path(&self) -> (r: &String)
        ensures
            r@ == self.tree_file_path@,
    {
        &self.tree_file_path
    }
}

/// Replaying a store's own log always succeeds and reconstructs exactly the
/// buffer the store holds: if the process stops after an append but before
/// anything else, reopening from the files restores the pre-crash state.
pub proof fn lemma_replay_restores_buffer<K: KeyType, V: ValueType>(st: BTree<K, V>)
    requires
        st.wf(),
    ensures
        replay_ok::<K, V>(st.wal_file@, st.max_key_size as int, st.max_value_size as int),
        buffer_of(log_records(st.wal_file@, st.max_key_size as int, st.max_value_size as int))
            == st.mem_tree.as_map(),
{
}

/// Writing the same key twice keeps both versions in the buffer, and the
/// most recently appended one is the current value.
pub proof fn lemma_second_version_wins(m: Map<Seq<u8>, Seq<Seq<u8>>>, k: Seq<u8>, v1: Seq<u8>, v2: Seq<u8>)
    ensures
        ({
            let vs1 = (if m.contains_key(k) {
                m[k]
            } else {
                Seq::empty()
            }).push(v1);
            let m1 = m.insert(k, vs1);
            let m2 = m1.insert(k, m1[k].push(v2));
            &&& m2[k].last() == v2
            &&& m2[k].len() >= 2
            &&& m2[k] == vs1.push(v2)
        }),
{
}

} // verus!
