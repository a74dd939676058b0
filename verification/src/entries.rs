use vstd::prelude::*;
use crate::order::{lex_le, lex_lt, lemma_lex_le_total, lemma_lex_le_antisym, lemma_lex_le_trans, lemma_lex_lt_trans};

verus! {

/// Key-value pairs strictly ascending by key.
pub open spec fn sorted_pairs(es: Seq<(Seq<u8>, Seq<u8>)>) -> bool {
    forall|i: int| 0 <= i < es.len() - 1 ==> lex_lt((#[trigger] es[i]).0, es[i + 1].0)
}

pub proof fn lemma_sorted_pairs_all(es: Seq<(Seq<u8>, Seq<u8>)>, i: int, j: int)
    requires
        sorted_pairs(es),
        0 <= i < j < es.len(),
    ensures
        lex_lt(es[i].0, es[j].0),
    decreases j - i,
{
    if j == i + 1 {
    } else {
        lemma_sorted_pairs_all(es, i, j - 1);
        lemma_lex_lt_trans(es[i].0, es[j - 1].0, es[j].0);
    }
}

/// The binding for `k` in a pair sequence: the value of the last pair
/// carrying `k`, or nothing.
pub open spec fn entries_lookup(es: Seq<(Seq<u8>, Seq<u8>)>, k: Seq<u8>) -> Option<Seq<u8>>
    decreases es.len(),
{
    if es.len() == 0 {
        None
    } else if es.last().0 == k {
        Some(es.last().1)
    } else {
        entries_lookup(es.drop_last(), k)
    }
}

pub proof fn lemma_entries_lookup_concat(a: Seq<(Seq<u8>, Seq<u8>)>, b: Seq<(Seq<u8>, Seq<u8>)>, k: Seq<u8>)
    ensures
        entries_lookup(a + b, k) == (match entries_lookup(b, k) {
            Some(v) => Some(v),
            None => entries_lookup(a, k),
        }),
    decreases b.len(),
{
    if b.len() == 0 {
        assert(a + b =~= a);
    } else {
        assert((a + b).drop_last() =~= a + b.drop_last());
        assert((a + b).last() == b.last());
        lemma_entries_lookup_concat(a, b.drop_last(), k);
    }
}

pub proof fn lemma_entries_lookup_absent(es: Seq<(Seq<u8>, Seq<u8>)>, k: Seq<u8>)
    requires
        forall|i: int| 0 <= i < es.len() ==> (#[trigger] es[i]).0 != k,
    ensures
        entries_lookup(es, k) is None,
    decreases es.len(),
{
    if es.len() > 0 {
        assert(es.last() == es[es.len() - 1]);
        lemma_entries_lookup_absent(es.drop_last(), k);
    }
}

pub proof fn lemma_entries_lookup_at(es: Seq<(Seq<u8>, Seq<u8>)>, j: int, k: Seq<u8>)
    requires
        0 <= j < es.len(),
        es[j].0 == k,
        forall|i: int| 0 <= i < es.len() && i != j ==> (#[trigger] es[i]).0 != k,
    ensures
        entries_lookup(es, k) == Some(es[j].1),
    decreases es.len(),
{
    if j == es.len() - 1 {
    } else {
        assert(es.last() == es[es.len() - 1]);
        assert(es.drop_last()[j] == es[j]);
        lemma_entries_lookup_at(es.drop_last(), j, k);
    }
}

/// The abstract pairs of a vector of byte-string pairs.
pub open spec fn pairs_view(v: Seq<(Vec<u8>, Vec<u8>)>) -> Seq<(Seq<u8>, Seq<u8>)> {
    v.map_values(|pr: (Vec<u8>, Vec<u8>)| (pr.0@, pr.1@))
}

pub proof fn lemma_entries_lookup_some(es: Seq<(Seq<u8>, Seq<u8>)>, k: Seq<u8>)
    requires
        entries_lookup(es, k) is Some,
    ensures
        exists|i: int| 0 <= i < es.len() && (#[trigger] es[i]) == (k, entries_lookup(es,
            k).unwrap()),
    decreases es.len(),
{
    if es.len() > 0 {
        if es.last().0 == k {
            assert(es[es.len() - 1] == (k, entries_lookup(es, k).unwrap()));
        } else {
            lemma_entries_lookup_some(es.drop_last(), k);
            let i = choose|i: int| 0 <= i < es.drop_last().len() && (#[trigger] es.drop_last()[i])
                == (k, entries_lookup(es.drop_last(), k).unwrap());
            assert(es[i] == (k, entries_lookup(es, k).unwrap()));
        }
    }
}

/// Bound checks used by the tree: keys at or above `lo`, strictly below `hi`.
pub open spec fn in_bounds(k: Seq<u8>, lo: Option<Seq<u8>>, hi: Option<Seq<u8>>) -> bool {
    &&& match lo {
        Some(l) => lex_le(l, k),
        None => true,
    }
    &&& match hi {
        Some(h) => lex_lt(k, h),
        None => true,
    }
}

/// A bound pair at least as wide as another.
pub open spec fn bounds_wider(lo2: Option<Seq<u8>>, hi2: Option<Seq<u8>>, lo: Option<Seq<u8>>, hi: Option<Seq<u8>>) -> bool {
    &&& match lo2 {
        Some(l2) => lo matches Some(l) && lex_le(l2, l),
        None => true,
    }
    &&& match hi2 {
        Some(h2) => hi matches Some(h) && lex_le(h, h2),
        None => true,
    }
}

pub proof fn lemma_in_bounds_widen(k: Seq<u8>, lo: Option<Seq<u8>>, hi: Option<Seq<u8>>, lo2: Option<Seq<u8>>, hi2: Option<Seq<u8>>)
    requires
        in_bounds(k, lo, hi),
        bounds_wider(lo2, hi2, lo, hi),
    ensures
        in_bounds(k, lo2, hi2),
{
    match lo2 {
        Some(l2) => {
            lemma_lex_le_trans(l2, lo.unwrap(), k);
        },
        None => {},
    }
    match hi2 {
        Some(h2) => {
            let h = hi.unwrap();
            lemma_lex_le_trans(k, h, h2);
            if k == h2 {
                lemma_lex_le_antisym(h, h2);
            }
        },
        None => {},
    }
}

} // verus!
