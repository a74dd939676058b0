use vstd::prelude::*;
use crate::errors::StoreError;
use crate::order::{lex_le, lex_lt, bytes_le, bytes_eq, lemma_lex_le_total, lemma_lex_le_antisym, lemma_lex_le_trans, lemma_lex_lt_trans, lemma_lex_lt_le_trans};
use crate::entries::{sorted_pairs, lemma_sorted_pairs_all, entries_lookup, lemma_entries_lookup_concat, lemma_entries_lookup_absent, lemma_entries_lookup_at, in_bounds, bounds_wider, lemma_in_bounds_widen, pairs_view};
use crate::bytes::{slice_range, push_bytes, clone_bytes};
use vstd::bytes::{spec_u64_from_le_bytes, u64_from_le_bytes};

verus! {

// ---------------------------------------------------------------------------
// File format
//
// A tree file is an 8-byte header (7-byte magic, 1-byte version) followed by
// fixed-size pages.  Every page is a 1-byte kind tag, a 1-byte cell count, an
// 8-byte link field, and 32 cells of `mk + mv` bytes.  A leaf page (tag 0)
// holds `count` key-value pairs in its cells; its link holds the next leaf's
// index plus one, or zero for the last leaf.  An internal page (tag 1) holds
// `count` children, which are the consecutive pages starting at the page
// index in its link field, separated by `count - 1` keys held in the key part
// of its cells.  Pages are written children-first, so the root is the last
// page of the file; a file of only the header is the empty tree.
// ---------------------------------------------------------------------------

/// The 7-byte magic and the current format version that lead every tree file.
pub open spec fn header_seq() -> Seq<u8> {
    seq![66u8, 43u8, 84u8, 114u8, 101u8, 101u8, 0u8, 1u8]
}

pub open spec fn header_wf(t: Seq<u8>) -> bool {
    t.len() >= 8 && t.subrange(0, 8) == header_seq()
}

/// The fixed page size: tag, count, link, then 32 cells of `mk + mv` bytes.
pub open spec fn page_size(mk: int, mv: int) -> int {
    10 + 32 * (mk + mv)
}

pub open spec fn n_pages(t: Seq<u8>, mk: int, mv: int) -> int {
    (t.len() - 8) / page_size(mk, mv)
}

pub open spec fn page_base(mk: int, mv: int, p: int) -> int {
    8 + p * page_size(mk, mv)
}

pub open spec fn page_tag(t: Seq<u8>, mk: int, mv: int, p: int) -> u8 {
    t[page_base(mk, mv, p)]
}

pub open spec fn page_count(t: Seq<u8>, mk: int, mv: int, p: int) -> int {
    t[page_base(mk, mv, p) + 1] as int
}

pub open spec fn page_link(t: Seq<u8>, mk: int, mv: int, p: int) -> int {
    spec_u64_from_le_bytes(t.subrange(page_base(mk, mv, p) + 2, page_base(mk, mv, p) + 10)) as int
}

pub open spec fn cell_base(mk: int, mv: int, p: int, j: int) -> int {
    page_base(mk, mv, p) + 10 + j * (mk + mv)
}

pub open spec fn cell_key(t: Seq<u8>, mk: int, mv: int, p: int, j: int) -> Seq<u8> {
    t.subrange(cell_base(mk, mv, p, j), cell_base(mk, mv, p, j) + mk)
}

pub open spec fn cell_value(t: Seq<u8>, mk: int, mv: int, p: int, j: int) -> Seq<u8> {
    t.subrange(cell_base(mk, mv, p, j) + mk, cell_base(mk, mv, p, j) + mk + mv)
}

/// The pairs held by leaf page `p`.
pub open spec fn leaf_pairs(t: Seq<u8>, mk: int, mv: int, p: int) -> Seq<(Seq<u8>, Seq<u8>)> {
    Seq::new(page_count(t, mk, mv, p) as nat, |j: int| (cell_key(t, mk, mv, p, j), cell_value(t, mk, mv, p, j)))
}

/// The lower bound passed to child `j` of an internal page: the outer lower
/// bound for the first child, else the separator to its left.
pub open spec fn child_lo(t: Seq<u8>, mk: int, mv: int, p: int, j: int, lo: Option<Seq<u8>>) -> Option<Seq<u8>> {
    if j == 0 {
        lo
    } else {
        Some(cell_key(t, mk, mv, p, j - 1))
    }
}

/// The upper bound passed to child `j`: the separator to its right, or the
/// outer upper bound for the last child.
pub open spec fn child_hi(t: Seq<u8>, mk: int, mv: int, p: int, j: int, cnt: int, hi: Option<Seq<u8>>) -> Option<Seq<u8>> {
    if j == cnt - 1 {
        hi
    } else {
        Some(cell_key(t, mk, mv, p, j))
    }
}

/// Well-formedness of the subtree rooted at page `p`, all of whose keys lie
/// at or above `lo` and strictly below `hi`.
pub open spec fn wf_subtree(t: Seq<u8>, mk: int, mv: int, p: int, lo: Option<Seq<u8>>, hi: Option<Seq<u8>>) -> bool
    decreases p, 1int, 0int,
{
    &&& 0 <= p < n_pages(t, mk, mv)
    &&& 1 <= page_count(t, mk, mv, p) <= 32
    &&& if page_tag(t, mk, mv, p) == 0u8 {
        // a leaf: sorted pairs, all within bounds
        &&& sorted_pairs(leaf_pairs(t, mk, mv, p))
        &&& forall|j: int| 0 <= j < page_count(t, mk, mv, p) ==> in_bounds(
            #[trigger] cell_key(t, mk, mv, p, j), lo, hi)
    } else {
        // an internal page: children below it, separators sorted and within
        // bounds, each child well-formed within its separator bounds
        &&& page_tag(t, mk, mv, p) == 1u8
        &&& 0 <= page_link(t, mk, mv, p)
        &&& page_link(t, mk, mv, p) + page_count(t, mk, mv, p) <= p
        &&& forall|j: int| 0 <= j < page_count(t, mk, mv, p) - 2 ==> lex_lt(
            #[trigger] cell_key(t, mk, mv, p, j), cell_key(t, mk, mv, p, j + 1))
        &&& forall|j: int| 0 <= j < page_count(t, mk, mv, p) - 1 ==> in_bounds(
            #[trigger] cell_key(t, mk, mv, p, j), lo, hi)
        &&& wf_children(t, mk, mv, p, page_link(t, mk, mv, p), page_count(t, mk, mv, p),
            page_count(t, mk, mv, p), lo, hi)
    }
}

/// The first `j` of the `cnt` children of internal page `p` are well-formed.
pub open spec fn wf_children(t: Seq<u8>, mk: int, mv: int, p: int, fc: int, j: int, cnt: int, lo: Option<Seq<u8>>, hi: Option<Seq<u8>>) -> bool
    decreases p, 0int, j,
{
    if j <= 0 {
        true
    } else if 0 <= fc && fc + j <= p {
        &&& wf_children(t, mk, mv, p, fc, j - 1, cnt, lo, hi)
        &&& wf_subtree(t, mk, mv, fc + j - 1, child_lo(t, mk, mv, p, j - 1, lo),
            child_hi(t, mk, mv, p, j - 1, cnt, hi))
    } else {
        false
    }
}

/// All pairs below page `p`, in key order.
pub open spec fn subtree_entries(t: Seq<u8>, mk: int, mv: int, p: int) -> Seq<(Seq<u8>, Seq<u8>)>
    decreases p, 1int, 0int,
{
    if 0 <= p < n_pages(t, mk, mv) {
        if page_tag(t, mk, mv, p) == 0u8 {
            leaf_pairs(t, mk, mv, p)
        } else {
            children_entries(t, mk, mv, p, page_link(t, mk, mv, p), page_count(t, mk, mv, p))
        }
    } else {
        Seq::empty()
    }
}

/// The pairs of the first `j` children of internal page `p`, concatenated.
pub open spec fn children_entries(t: Seq<u8>, mk: int, mv: int, p: int, fc: int, j: int) -> Seq<(Seq<u8>, Seq<u8>)>
    decreases p, 0int, j,
{
    if j <= 0 || !(0 <= fc && fc + j <= p) {
        Seq::empty()
    } else {
        children_entries(t, mk, mv, p, fc, j - 1) + subtree_entries(t, mk, mv, fc + j - 1)
    }
}

/// A well-formed tree file: valid header, a whole number of pages, and, when
/// any page exists, a well-formed subtree rooted at the last page.
pub open spec fn wf_tree(t: Seq<u8>, mk: int, mv: int) -> bool {
    &&& header_wf(t)
    &&& mk >= 1
    &&& mv >= 1
    &&& (t.len() - 8) % page_size(mk, mv) == 0
    &&& n_pages(t, mk, mv) > 0 ==> wf_subtree(t, mk, mv, n_pages(t, mk, mv) - 1,
        None::<Seq<u8>>, None::<Seq<u8>>)
}

/// All pairs of the tree, in key order.
pub open spec fn tree_entries(t: Seq<u8>, mk: int, mv: int) -> Seq<(Seq<u8>, Seq<u8>)> {
    if n_pages(t, mk, mv) > 0 {
        subtree_entries(t, mk, mv, n_pages(t, mk, mv) - 1)
    } else {
        Seq::empty()
    }
}

/// The binding the tree holds for `k`.
pub open spec fn tree_lookup_spec(t: Seq<u8>, mk: int, mv: int, k: Seq<u8>) -> Option<Seq<u8>> {
    entries_lookup(tree_entries(t, mk, mv), k)
}

// ---------------------------------------------------------------------------
// Arithmetic helpers
// ---------------------------------------------------------------------------

pub proof fn lemma_page_in_file(tlen: int, mk: int, mv: int, p: int)
    requires
        mk >= 1,
        mv >= 1,
        0 <= p < (tlen - 8) / page_size(mk, mv),
    ensures
        8 + p * page_size(mk, mv) + page_size(mk, mv) <= tlen,
        p * page_size(mk, mv) >= 0,
{
    let ps = page_size(mk, mv);
    let np = (tlen - 8) / ps;
    vstd::arithmetic::div_mod::lemma_fundamental_div_mod(tlen - 8, ps);
    assert((p + 1) * ps <= np * ps) by (nonlinear_arith)
        requires
            p + 1 <= np,
            ps >= 1,
    ;
    assert(p * ps >= 0) by (nonlinear_arith)
        requires
            p >= 0,
            ps >= 1,
    ;
    assert((p + 1) * ps == p * ps + ps) by (nonlinear_arith);
}

/// Every cell of a page that lies within the file lies within the file too.
pub proof fn lemma_cells_in_file(t: Seq<u8>, mk: int, mv: int, p: int)
    requires
        mk >= 1,
        mv >= 1,
        0 <= p < n_pages(t, mk, mv),
    ensures
        8 + p * page_size(mk, mv) + page_size(mk, mv) <= t.len(),
        p * page_size(mk, mv) >= 0,
        forall|j: int| 0 <= j < 32 ==> 8 <= #[trigger] cell_base(mk, mv, p, j)
            && cell_base(mk, mv, p, j) + mk + mv <= t.len(),
{
    lemma_page_in_file(t.len() as int, mk, mv, p);
    assert forall|j: int| 0 <= j < 32 implies 8 <= #[trigger] cell_base(mk, mv, p, j)
        && cell_base(mk, mv, p, j) + mk + mv <= t.len() by {
        lemma_cell_in_page(mk, mv, j);
    }
}

pub proof fn lemma_cell_in_page(mk: int, mv: int, j: int)
    requires
        mk >= 1,
        mv >= 1,
        0 <= j < 32,
    ensures
        0 <= j * (mk + mv),
        10 + j * (mk + mv) + (mk + mv) <= page_size(mk, mv),
{
    assert(0 <= j * (mk + mv) && (j + 1) * (mk + mv) <= 32 * (mk + mv)) by (nonlinear_arith)
        requires
            0 <= j < 32,
            mk + mv >= 2,
    ;
    assert((j + 1) * (mk + mv) == j * (mk + mv) + (mk + mv)) by (nonlinear_arith);
}

// ---------------------------------------------------------------------------
// Structural lemmas
// ---------------------------------------------------------------------------

/// Each of the first `j` children of a well-formed internal page is a
/// well-formed subtree within its separator bounds.
pub proof fn lemma_wf_children_each(t: Seq<u8>, mk: int, mv: int, p: int, fc: int, j: int, cnt: int, lo: Option<Seq<u8>>, hi: Option<Seq<u8>>, x: int)
    requires
        wf_children(t, mk, mv, p, fc, j, cnt, lo, hi),
        0 <= x < j,
    ensures
        wf_subtree(t, mk, mv, fc + x, child_lo(t, mk, mv, p, x, lo),
            child_hi(t, mk, mv, p, x, cnt, hi)),
        0 <= fc,
        fc + j <= p,
    decreases j,
{
    if x < j - 1 {
        lemma_wf_children_each(t, mk, mv, p, fc, j - 1, cnt, lo, hi, x);
    }
}

/// Entry properties of a well-formed subtree: every key lies within the
/// bounds, the pairs are strictly sorted, and keys and values have the fixed
/// widths.
pub proof fn lemma_subtree_props(t: Seq<u8>, mk: int, mv: int, p: int, lo: Option<Seq<u8>>, hi: Option<Seq<u8>>)
    requires
        mk >= 1,
        mv >= 1,
        wf_subtree(t, mk, mv, p, lo, hi),
    ensures
        forall|i: int| 0 <= i < subtree_entries(t, mk, mv, p).len() ==> in_bounds(
            (#[trigger] subtree_entries(t, mk, mv, p)[i]).0, lo, hi),
        sorted_pairs(subtree_entries(t, mk, mv, p)),
        forall|i: int| 0 <= i < subtree_entries(t, mk, mv, p).len() ==> (
            #[trigger] subtree_entries(t, mk, mv, p)[i]).0.len() == mk
            && subtree_entries(t, mk, mv, p)[i].1.len() == mv,
    decreases p, 1int, 0int,
{
    if page_tag(t, mk, mv, p) == 0u8 {
        lemma_cells_in_file(t, mk, mv, p);
    } else {
        let fc = page_link(t, mk, mv, p);
        let cnt = page_count(t, mk, mv, p);
        lemma_children_props(t, mk, mv, p, fc, cnt, cnt, lo, hi);
    }
}

/// The same properties for the concatenation of the first `j` children.
pub proof fn lemma_children_props(t: Seq<u8>, mk: int, mv: int, p: int, fc: int, j: int, cnt: int, lo: Option<Seq<u8>>, hi: Option<Seq<u8>>)
    requires
        mk >= 1,
        mv >= 1,
        wf_children(t, mk, mv, p, fc, j, cnt, lo, hi),
        j <= cnt,
        cnt == page_count(t, mk, mv, p),
        page_tag(t, mk, mv, p) == 1u8,
        wf_subtree(t, mk, mv, p, lo, hi),
    ensures
        forall|i: int| 0 <= i < children_entries(t, mk, mv, p, fc, j).len() ==> in_bounds(
            (#[trigger] children_entries(t, mk, mv, p, fc, j)[i]).0, lo, hi),
        sorted_pairs(children_entries(t, mk, mv, p, fc, j)),
        forall|i: int| 0 <= i < children_entries(t, mk, mv, p, fc, j).len() ==> (
            #[trigger] children_entries(t, mk, mv, p, fc, j)[i]).0.len() == mk
            && children_entries(t, mk, mv, p, fc, j)[i].1.len() == mv,
        forall|i: int| j < cnt && 0 <= i < children_entries(t, mk, mv, p, fc, j).len() ==> lex_lt(
            (#[trigger] children_entries(t, mk, mv, p, fc, j)[i]).0,
            cell_key(t, mk, mv, p, j - 1)),
    decreases p, 0int, j,
{
    if j <= 0 {
    } else {
        let left = children_entries(t, mk, mv, p, fc, j - 1);
        let sub = subtree_entries(t, mk, mv, fc + j - 1);
        let clo = child_lo(t, mk, mv, p, j - 1, lo);
        let chi = child_hi(t, mk, mv, p, j - 1, cnt, hi);
        lemma_children_props(t, mk, mv, p, fc, j - 1, cnt, lo, hi);
        lemma_wf_children_each(t, mk, mv, p, fc, j, cnt, lo, hi, j - 1);
        lemma_subtree_props(t, mk, mv, fc + j - 1, clo, chi);
        let all = left + sub;
        // widen the child's bounds to the outer bounds
        assert forall|i: int| 0 <= i < sub.len() implies in_bounds((#[trigger] sub[i]).0, lo, hi) by {
            assert(in_bounds(sub[i].0, clo, chi));
            if j - 1 == 0 {
                // clo == lo
            } else {
                // clo is the separator left of the child, which lies in (lo, hi)
                assert(in_bounds(cell_key(t, mk, mv, p, j - 2), lo, hi));
                match lo {
                    Some(l) => {
                        lemma_lex_le_trans(l, cell_key(t, mk, mv, p, j - 2), sub[i].0);
                    },
                    None => {},
                }
            }
            if j - 1 == cnt - 1 {
                // chi == hi
            } else {
                assert(in_bounds(cell_key(t, mk, mv, p, j - 1), lo, hi));
                match hi {
                    Some(h) => {
                        lemma_lex_lt_trans(sub[i].0, cell_key(t, mk, mv, p, j - 1), h);
                    },
                    None => {},
                }
            }
        }
        // entries of the earlier children lie strictly below the separator
        // left of this child, hence below all of this child's entries
        assert forall|a: int, b: int| 0 <= a < left.len() && 0 <= b < sub.len() implies lex_lt(
            left[a].0, sub[b].0) by {
            if j - 1 > 0 {
                assert(lex_lt(left[a].0, cell_key(t, mk, mv, p, j - 2)));
                assert(in_bounds(sub[b].0, clo, chi));
                lemma_lex_lt_le_trans(left[a].0, cell_key(t, mk, mv, p, j - 2), sub[b].0);
            } else {
                assert(left.len() == 0);
            }
        }
        assert forall|i: int| 0 <= i < all.len() - 1 implies lex_lt((#[trigger] all[i]).0, all[i + 1].0) by {
            if i + 1 < left.len() {
                assert(all[i] == left[i] && all[i + 1] == left[i + 1]);
                assert(lex_lt(left[i].0, left[i + 1].0));
            } else if i >= left.len() {
                assert(all[i] == sub[i - left.len()] && all[i + 1] == sub[i + 1 - left.len()]);
                assert(lex_lt(sub[i - left.len()].0, sub[i + 1 - left.len()].0));
            } else {
                assert(all[i] == left[i] && all[i + 1] == sub[i + 1 - left.len()]);
            }
        }
        // entries so far lie strictly below the separator at j - 1
        if j < cnt {
            let sep = cell_key(t, mk, mv, p, j - 1);
            assert forall|i: int| 0 <= i < all.len() implies lex_lt((#[trigger] all[i]).0, sep) by {
                if i < left.len() {
                    if j - 1 > 0 {
                        let sep0 = cell_key(t, mk, mv, p, j - 2);
                        assert(lex_lt(all[i].0, sep0));
                        assert(0 <= j - 2 < cnt - 2);
                        assert(lex_lt(sep0, sep));
                        lemma_lex_lt_trans(all[i].0, sep0, sep);
                    } else {
                        assert(left.len() == 0);
                    }
                } else {
                    assert(in_bounds(sub[i - left.len()].0, clo, chi));
                    assert(chi == Some(sep));
                }
            }
        }
    }
}

/// The separators of an internal page ascend.
proof fn lemma_seps_all(t: Seq<u8>, mk: int, mv: int, p: int, lo: Option<Seq<u8>>, hi: Option<Seq<u8>>, a: int, b: int)
    requires
        wf_subtree(t, mk, mv, p, lo, hi),
        page_tag(t, mk, mv, p) == 1u8,
        0 <= a <= b < page_count(t, mk, mv, p) - 1,
    ensures
        lex_le(cell_key(t, mk, mv, p, a), cell_key(t, mk, mv, p, b)),
    decreases b - a,
{
    if a == b {
        lemma_lex_le_total(cell_key(t, mk, mv, p, a), cell_key(t, mk, mv, p, a));
    } else {
        lemma_seps_all(t, mk, mv, p, lo, hi, a, b - 1);
        assert(0 <= b - 1 < page_count(t, mk, mv, p) - 2);
        assert(lex_lt(cell_key(t, mk, mv, p, b - 1), cell_key(t, mk, mv, p, b)));
        lemma_lex_le_trans(cell_key(t, mk, mv, p, a), cell_key(t, mk, mv, p, b - 1),
            cell_key(t, mk, mv, p, b));
    }
}

/// Looking `k` up below the first `j` children comes down to looking it up
/// below the chosen child alone: the children left of it hold only smaller
/// keys, the children right of it only larger ones.
proof fn lemma_children_lookup(t: Seq<u8>, mk: int, mv: int, p: int, fc: int, j: int, cnt: int, lo: Option<Seq<u8>>, hi: Option<Seq<u8>>, k: Seq<u8>, chosen: int)
    requires
        mk >= 1,
        mv >= 1,
        wf_subtree(t, mk, mv, p, lo, hi),
        page_tag(t, mk, mv, p) == 1u8,
        cnt == page_count(t, mk, mv, p),
        fc == page_link(t, mk, mv, p),
        wf_children(t, mk, mv, p, fc, j, cnt, lo, hi),
        0 <= chosen < j <= cnt,
        chosen < cnt - 1 ==> lex_lt(k, cell_key(t, mk, mv, p, chosen)),
        forall|x: int| 0 <= x < chosen ==> lex_le(#[trigger] cell_key(t, mk, mv, p, x), k),
    ensures
        entries_lookup(children_entries(t, mk, mv, p, fc, j), k) == entries_lookup(
            subtree_entries(t, mk, mv, fc + chosen), k),
    decreases j,
{
    let left = children_entries(t, mk, mv, p, fc, j - 1);
    let sub = subtree_entries(t, mk, mv, fc + j - 1);
    lemma_entries_lookup_concat(left, sub, k);
    if j - 1 == chosen {
        if entries_lookup(sub, k) is None {
            lemma_children_props(t, mk, mv, p, fc, chosen, cnt, lo, hi);
            if chosen > 0 {
                assert forall|i: int| 0 <= i < left.len() implies (#[trigger] left[i]).0 != k by {
                    assert(lex_lt(left[i].0, cell_key(t, mk, mv, p, chosen - 1)));
                    lemma_lex_lt_le_trans(left[i].0, cell_key(t, mk, mv, p, chosen - 1), k);
                }
            } else {
                assert(left.len() == 0);
            }
            lemma_entries_lookup_absent(left, k);
        }
    } else {
        lemma_wf_children_each(t, mk, mv, p, fc, j, cnt, lo, hi, j - 1);
        let clo = child_lo(t, mk, mv, p, j - 1, lo);
        let chi = child_hi(t, mk, mv, p, j - 1, cnt, hi);
        lemma_subtree_props(t, mk, mv, fc + j - 1, clo, chi);
        assert(chosen < cnt - 1);
        assert forall|i: int| 0 <= i < sub.len() implies (#[trigger] sub[i]).0 != k by {
            lemma_seps_all(t, mk, mv, p, lo, hi, chosen, j - 2);
            lemma_lex_lt_le_trans(k, cell_key(t, mk, mv, p, chosen), cell_key(t, mk, mv, p, j - 2));
            assert(in_bounds(sub[i].0, clo, chi));
            assert(lex_le(cell_key(t, mk, mv, p, j - 2), sub[i].0));
            lemma_lex_lt_le_trans(k, cell_key(t, mk, mv, p, j - 2), sub[i].0);
        }
        lemma_entries_lookup_absent(sub, k);
        lemma_children_lookup(t, mk, mv, p, fc, j - 1, cnt, lo, hi, k, chosen);
    }
}

/// Descending one level: the chosen child is well-formed within bounds that
/// still admit `k`, and holds `k`'s binding if any page below `p` does.
proof fn lemma_descend(t: Seq<u8>, mk: int, mv: int, p: int, lo: Option<Seq<u8>>, hi: Option<Seq<u8>>, k: Seq<u8>, chosen: int)
    requires
        mk >= 1,
        mv >= 1,
        wf_subtree(t, mk, mv, p, lo, hi),
        page_tag(t, mk, mv, p) == 1u8,
        in_bounds(k, lo, hi),
        0 <= chosen < page_count(t, mk, mv, p),
        chosen < page_count(t, mk, mv, p) - 1 ==> lex_lt(k, cell_key(t, mk, mv, p, chosen)),
        forall|x: int| 0 <= x < chosen ==> lex_le(#[trigger] cell_key(t, mk, mv, p, x), k),
    ensures
        wf_subtree(t, mk, mv, page_link(t, mk, mv, p) + chosen,
            child_lo(t, mk, mv, p, chosen, lo),
            child_hi(t, mk, mv, p, chosen, page_count(t, mk, mv, p), hi)),
        in_bounds(k, child_lo(t, mk, mv, p, chosen, lo),
            child_hi(t, mk, mv, p, chosen, page_count(t, mk, mv, p), hi)),
        entries_lookup(subtree_entries(t, mk, mv, p), k) == entries_lookup(
            subtree_entries(t, mk, mv, page_link(t, mk, mv, p) + chosen), k),
{
    let fc = page_link(t, mk, mv, p);
    let cnt = page_count(t, mk, mv, p);
    lemma_wf_children_each(t, mk, mv, p, fc, cnt, cnt, lo, hi, chosen);
    lemma_children_lookup(t, mk, mv, p, fc, cnt, cnt, lo, hi, k, chosen);
}

/// A subtree well-formed within some bounds is well-formed within any wider
/// bounds.
pub proof fn lemma_wf_weaken(t: Seq<u8>, mk: int, mv: int, p: int, lo: Option<Seq<u8>>, hi: Option<Seq<u8>>, lo2: Option<Seq<u8>>, hi2: Option<Seq<u8>>)
    requires
        wf_subtree(t, mk, mv, p, lo, hi),
        bounds_wider(lo2, hi2, lo, hi),
    ensures
        wf_subtree(t, mk, mv, p, lo2, hi2),
    decreases p, 1int, 0int,
{
    if page_tag(t, mk, mv, p) == 0u8 {
        assert forall|j: int| 0 <= j < page_count(t, mk, mv, p) implies in_bounds(
            #[trigger] cell_key(t, mk, mv, p, j), lo2, hi2) by {
            lemma_in_bounds_widen(cell_key(t, mk, mv, p, j), lo, hi, lo2, hi2);
        }
    } else {
        assert forall|j: int| 0 <= j < page_count(t, mk, mv, p) - 1 implies in_bounds(
            #[trigger] cell_key(t, mk, mv, p, j), lo2, hi2) by {
            lemma_in_bounds_widen(cell_key(t, mk, mv, p, j), lo, hi, lo2, hi2);
        }
        lemma_wf_children_weaken(t, mk, mv, p, page_link(t, mk, mv, p),
            page_count(t, mk, mv, p), page_count(t, mk, mv, p), lo, hi, lo2, hi2);
    }
}

proof fn lemma_wf_children_weaken(t: Seq<u8>, mk: int, mv: int, p: int, fc: int, j: int, cnt: int, lo: Option<Seq<u8>>, hi: Option<Seq<u8>>, lo2: Option<Seq<u8>>, hi2: Option<Seq<u8>>)
    requires
        wf_children(t, mk, mv, p, fc, j, cnt, lo, hi),
        bounds_wider(lo2, hi2, lo, hi),
    ensures
        wf_children(t, mk, mv, p, fc, j, cnt, lo2, hi2),
    decreases p, 0int, j,
{
    if j <= 0 {
    } else {
        lemma_wf_children_weaken(t, mk, mv, p, fc, j - 1, cnt, lo, hi, lo2, hi2);
        let clo = child_lo(t, mk, mv, p, j - 1, lo);
        let chi = child_hi(t, mk, mv, p, j - 1, cnt, hi);
        let clo2 = child_lo(t, mk, mv, p, j - 1, lo2);
        let chi2 = child_hi(t, mk, mv, p, j - 1, cnt, hi2);
        assert(bounds_wider(clo2, chi2, clo, chi)) by {
            if j - 1 != 0 {
                lemma_lex_le_total(cell_key(t, mk, mv, p, j - 2), cell_key(t, mk, mv, p, j - 2));
            }
            if j - 1 != cnt - 1 {
                lemma_lex_le_total(cell_key(t, mk, mv, p, j - 1), cell_key(t, mk, mv, p, j - 1));
            }
        }
        lemma_wf_weaken(t, mk, mv, fc + j - 1, clo, chi, clo2, chi2);
    }
}

/// Appending bytes to a tree file leaves every existing page, and everything
/// parsed from it, unchanged.
pub proof fn lemma_page_frame(t1: Seq<u8>, t2: Seq<u8>, mk: int, mv: int, p: int)
    requires
        mk >= 1,
        mv >= 1,
        t2.len() >= t1.len(),
        t2.subrange(0, t1.len() as int) == t1,
        0 <= p < n_pages(t1, mk, mv),
    ensures
        page_tag(t2, mk, mv, p) == page_tag(t1, mk, mv, p),
        page_count(t2, mk, mv, p) == page_count(t1, mk, mv, p),
        page_link(t2, mk, mv, p) == page_link(t1, mk, mv, p),
        forall|j: int| 0 <= j < 32 ==> #[trigger] cell_key(t2, mk, mv, p, j) == cell_key(t1, mk,
            mv, p, j) && cell_value(t2, mk, mv, p, j) == cell_value(t1, mk, mv, p, j),
        page_count(t1, mk, mv, p) <= 32 ==> leaf_pairs(t2, mk, mv, p) == leaf_pairs(t1, mk, mv, p),
{
    lemma_cells_in_file(t1, mk, mv, p);
    assert(forall|x: int| 0 <= x < t1.len() ==> t2[x] == t1[x]) by {
        assert(forall|x: int| 0 <= x < t1.len() ==> t1[x] == #[trigger] t2.subrange(0,
            t1.len() as int)[x]);
    }
    let base = page_base(mk, mv, p);
    assert(t2.subrange(base + 2, base + 10) =~= t1.subrange(base + 2, base + 10));
    assert forall|j: int| 0 <= j < 32 implies #[trigger] cell_key(t2, mk, mv, p, j) == cell_key(
        t1, mk, mv, p, j) && cell_value(t2, mk, mv, p, j) == cell_value(t1, mk, mv, p, j) by {
        lemma_cell_in_page(mk, mv, j);
        assert(cell_key(t2, mk, mv, p, j) =~= cell_key(t1, mk, mv, p, j));
        assert(cell_value(t2, mk, mv, p, j) =~= cell_value(t1, mk, mv, p, j));
    }
    if page_count(t1, mk, mv, p) <= 32 {
        assert(leaf_pairs(t2, mk, mv, p) =~= leaf_pairs(t1, mk, mv, p));
    }
}

/// Appending bytes preserves the well-formedness and the contents of every
/// subtree rooted at an existing page.
pub proof fn lemma_subtree_frame(t1: Seq<u8>, t2: Seq<u8>, mk: int, mv: int, p: int, lo: Option<Seq<u8>>, hi: Option<Seq<u8>>)
    requires
        mk >= 1,
        mv >= 1,
        t2.len() >= t1.len(),
        t2.subrange(0, t1.len() as int) == t1,
        n_pages(t2, mk, mv) >= n_pages(t1, mk, mv),
        wf_subtree(t1, mk, mv, p, lo, hi),
    ensures
        wf_subtree(t2, mk, mv, p, lo, hi),
        subtree_entries(t2, mk, mv, p) == subtree_entries(t1, mk, mv, p),
    decreases p, 1int, 0int,
{
    lemma_page_frame(t1, t2, mk, mv, p);
    if page_tag(t1, mk, mv, p) == 0u8 {
    } else {
        lemma_children_frame(t1, t2, mk, mv, p, page_link(t1, mk, mv, p),
            page_count(t1, mk, mv, p), page_count(t1, mk, mv, p), lo, hi);
    }
}

proof fn lemma_children_frame(t1: Seq<u8>, t2: Seq<u8>, mk: int, mv: int, p: int, fc: int, j: int, cnt: int, lo: Option<Seq<u8>>, hi: Option<Seq<u8>>)
    requires
        mk >= 1,
        mv >= 1,
        t2.len() >= t1.len(),
        t2.subrange(0, t1.len() as int) == t1,
        n_pages(t2, mk, mv) >= n_pages(t1, mk, mv),
        0 <= p < n_pages(t1, mk, mv),
        j <= cnt <= 32,
        wf_children(t1, mk, mv, p, fc, j, cnt, lo, hi),
    ensures
        wf_children(t2, mk, mv, p, fc, j, cnt, lo, hi),
        children_entries(t2, mk, mv, p, fc, j) == children_entries(t1, mk, mv, p, fc, j),
    decreases p, 0int, j,
{
    lemma_page_frame(t1, t2, mk, mv, p);
    if j <= 0 {
    } else {
        lemma_children_frame(t1, t2, mk, mv, p, fc, j - 1, cnt, lo, hi);
        lemma_subtree_frame(t1, t2, mk, mv, fc + j - 1, child_lo(t1, mk, mv, p, j - 1, lo),
            child_hi(t1, mk, mv, p, j - 1, cnt, hi));
    }
}

// ---------------------------------------------------------------------------
// Executable tree operations
// ---------------------------------------------------------------------------

pub proof fn lemma_exact_div(q: int, d: int)
    requires
        d >= 1,
        q >= 0,
    ensures
        (q * d) % d == 0,
        (q * d) / d == q,
{
    vstd::arithmetic::div_mod::lemma_fundamental_div_mod(q * d, d);
    vstd::arithmetic::div_mod::lemma_remainder_upper(q * d, d);
    vstd::arithmetic::div_mod::lemma_remainder_lower(q * d, d);
    let qq = (q * d) / d;
    let r = (q * d) % d;
    assert(qq == q && r == 0) by (nonlinear_arith)
        requires
            q * d == d * qq + r,
            0 <= r < d,
            d >= 1,
            q >= 0,
    ;
}

/// Read back every pair below page `p`, in key order, by walking the
/// children depth-first.  On a well-formed subtree this yields exactly its
/// entries; a structurally broken file is reported as corrupt.
pub fn collect_subtree(t: &Vec<u8>, mk: usize, mv: usize, p: usize) -> (r: Result<Vec<(Vec<u8>, Vec<u8>)>, StoreError>)
    requires
        mk >= 1,
        mv >= 1,
        32 * (mk + mv) + 10 <= usize::MAX,
        (p as int) < n_pages(t@, mk as int, mv as int),
    ensures
        wf_subtree(t@, mk as int, mv as int, p as int, None::<Seq<u8>>, None::<Seq<u8>>)
            ==> (r matches Ok(es) && pairs_view(es@) == subtree_entries(t@, mk as int,
            mv as int, p as int)),
    decreases p,
{
    let ghost mki = mk as int;
    let ghost mvi = mv as int;
    proof {
        lemma_cells_in_file(t@, mki, mvi, p as int);
    }
    let tlen = t.len();
    proof {
        assert(t@.len() == tlen as int);
    }
    let ps = 10 + 32 * (mk + mv);
    let base = 8 + p * ps;
    let tag = t[base];
    let cnt = t[base + 1] as usize;
    if cnt < 1 || cnt > 32 {
        return Err(StoreError::CorruptionError);
    }
    if tag == 0 {
        let ghost pairs = leaf_pairs(t@, mki, mvi, p as int);
        let mut out: Vec<(Vec<u8>, Vec<u8>)> = Vec::new();
        let mut j: usize = 0;
        while j < cnt
            invariant
                mk >= 1,
                mv >= 1,
                mki == mk as int,
                mvi == mv as int,
                ps == page_size(mki, mvi),
                0 <= (p as int) < n_pages(t@, mki, mvi),
                base == page_base(mki, mvi, p as int),
                t@.len() <= usize::MAX,
                8 + (p as int) * (ps as int) + (ps as int) <= t@.len(),
                j <= cnt,
                cnt <= 32,
                cnt == page_count(t@, mki, mvi, p as int),
                pairs == leaf_pairs(t@, mki, mvi, p as int),
                out@.len() == j,
                forall|x: int| 0 <= x < j ==> ((#[trigger] out@[x]).0@, out@[x].1@) == pairs[x],
            decreases cnt - j,
        {
            proof {
                lemma_cell_in_page(mki, mvi, j as int);
            }
            let cb = base + 10 + j * (mk + mv);
            let kb = slice_range(t, cb, mk);
            let vb = slice_range(t, cb + mk, mv);
            out.push((kb, vb));
            j = j + 1;
        }
        proof {
            assert(pairs_view(out@) =~= pairs);
        }
        return Ok(out);
    } else if tag == 1 {
        let lb = slice_range(t, base + 2, 8);
        let fcu = u64_from_le_bytes(lb.as_slice());
        proof {
            assert(lb@ == t@.subrange(base as int + 2, base as int + 10));
        }
        if fcu >= p as u64 {
            return Err(StoreError::CorruptionError);
        }
        let fc = fcu as usize;
        if cnt > p - fc {
            return Err(StoreError::CorruptionError);
        }
        let mut out: Vec<(Vec<u8>, Vec<u8>)> = Vec::new();
        let mut x: usize = 0;
        while x < cnt
            invariant
                mk >= 1,
                mv >= 1,
                mki == mk as int,
                mvi == mv as int,
                32 * (mk + mv) + 10 <= usize::MAX,
                ps == page_size(mki, mvi),
                0 <= (p as int) < n_pages(t@, mki, mvi),
                base == page_base(mki, mvi, p as int),
                x <= cnt,
                1 <= cnt <= 32,
                cnt == page_count(t@, mki, mvi, p as int),
                page_tag(t@, mki, mvi, p as int) == 1u8,
                fc as int == page_link(t@, mki, mvi, p as int),
                fc + cnt <= p,
                wf_subtree(t@, mki, mvi, p as int, None::<Seq<u8>>, None::<Seq<u8>>)
                    ==> pairs_view(out@) == children_entries(t@, mki, mvi, p as int,
                    fc as int, x as int),
            decreases cnt - x,
        {
            proof {
                if wf_subtree(t@, mki, mvi, p as int, None::<Seq<u8>>, None::<Seq<u8>>) {
                    lemma_wf_children_each(t@, mki, mvi, p as int, fc as int, cnt as int,
                        cnt as int, None::<Seq<u8>>, None::<Seq<u8>>, x as int);
                    let clo = child_lo(t@, mki, mvi, p as int, x as int, None::<Seq<u8>>);
                    let chi = child_hi(t@, mki, mvi, p as int, x as int, cnt as int,
                        None::<Seq<u8>>);
                    lemma_wf_weaken(t@, mki, mvi, fc as int + x as int, clo, chi,
                        None::<Seq<u8>>, None::<Seq<u8>>);
                }
            }
            let sub = collect_subtree(t, mk, mv, fc + x);
            match sub {
                Ok(mut es) => {
                    let ghost es0 = es@;
                    let ghost out0 = out@;
                    out.append(&mut es);
                    proof {
                        assert(pairs_view(out@) =~= pairs_view(out0) + pairs_view(es0));
                    }
                },
                Err(e) => {
                    return Err(e);
                },
            }
            x = x + 1;
        }
        return Ok(out);
    } else {
        return Err(StoreError::CorruptionError);
    }
}

/// A fresh tree file: the header alone, an empty tree.
pub fn empty_tree() -> (r: Vec<u8>)
    ensures
        r@ == header_seq(),
{
    let mut r: Vec<u8> = Vec::new();
    r.push(66u8);
    r.push(43u8);
    r.push(84u8);
    r.push(114u8);
    r.push(101u8);
    r.push(101u8);
    r.push(0u8);
    r.push(1u8);
    proof {
        assert(r@ =~= header_seq());
    }
    r
}

/// The header-only file is a well-formed empty tree.
pub proof fn lemma_empty_tree_wf(mk: int, mv: int)
    requires
        mk >= 1,
        mv >= 1,
    ensures
        wf_tree(header_seq(), mk, mv),
        n_pages(header_seq(), mk, mv) == 0,
        tree_entries(header_seq(), mk, mv) =~= Seq::<(Seq<u8>, Seq<u8>)>::empty(),
{
    assert(header_seq().subrange(0, 8) =~= header_seq());
    assert(0int % page_size(mk, mv) == 0 && 0int / page_size(mk, mv) == 0) by (nonlinear_arith)
        requires
            page_size(mk, mv) >= 1,
    ;
}

/// Append one leaf page holding `src[start .. start + cnt]`.
fn write_leaf_page(out: &mut Vec<u8>, src: &Vec<(Vec<u8>, Vec<u8>)>, start: usize, cnt: usize, mk: usize, mv: usize)
    requires
        mk >= 1,
        mv >= 1,
        32 * (mk + mv) + 10 <= usize::MAX,
        old(out)@.len() >= 8,
        (old(out)@.len() - 8) % page_size(mk as int, mv as int) == 0,
        old(out)@.len() + page_size(mk as int, mv as int) <= usize::MAX,
        start + cnt <= src.len(),
        1 <= cnt <= 32,
        forall|i: int| start <= i < start + cnt ==> (#[trigger] src@[i]).0@.len() == mk
            && src@[i].1@.len() == mv,
    ensures
        final(out)@.len() == old(out)@.len() + page_size(mk as int, mv as int),
        final(out)@.subrange(0, old(out)@.len() as int) == old(out)@,
        (final(out)@.len() - 8) % page_size(mk as int, mv as int) == 0,
        n_pages(final(out)@, mk as int, mv as int) == n_pages(old(out)@, mk as int, mv as int)
            + 1,
        page_tag(final(out)@, mk as int, mv as int, n_pages(old(out)@, mk as int, mv as int))
            == 0u8,
        page_count(final(out)@, mk as int, mv as int, n_pages(old(out)@, mk as int, mv as int))
            == cnt,
        leaf_pairs(final(out)@, mk as int, mv as int, n_pages(old(out)@, mk as int,
            mv as int)) == pairs_view(src@.subrange(start as int, start as int + cnt as int)),
{
    let ghost mki = mk as int;
    let ghost mvi = mv as int;
    let ghost ps = page_size(mki, mvi);
    let ghost q = n_pages(old(out)@, mki, mvi);
    let base = out.len();
    let c = mk + mv;
    out.push(0u8);
    out.push(cnt as u8);
    let mut z: usize = 0;
    while z < 8
        invariant
            z <= 8,
            out@.len() == base + 2 + z,
            out@.subrange(0, base as int) == old(out)@,
            out@[base as int] == 0u8,
            out@[base as int + 1] == cnt as u8,
            base == old(out)@.len(),
        decreases 8 - z,
    {
        out.push(0u8);
        proof {
            assert(out@.subrange(0, base as int) =~= old(out)@);
        }
        z = z + 1;
    }
    let mut j: usize = 0;
    while j < cnt
        invariant
            mk >= 1,
            mv >= 1,
            c == mk + mv,
            32 * c + 10 <= usize::MAX,
            base == old(out)@.len(),
            base + (ps as int) <= usize::MAX,
            ps == page_size(mki, mvi),
            mki == mk as int,
            mvi == mv as int,
            start + cnt <= src.len(),
            j <= cnt,
            cnt <= 32,
            forall|i: int| start <= i < start + cnt ==> (#[trigger] src@[i]).0@.len() == mk
                && src@[i].1@.len() == mv,
            out@.len() == base + 10 + j * c,
            out@.subrange(0, base as int) == old(out)@,
            out@[base as int] == 0u8,
            out@[base as int + 1] == cnt as u8,
            forall|y: int| 0 <= y < j ==> out@.subrange(base + 10 + y * (c as int),
                base + 10 + y * (c as int) + (mk as int)) == (#[trigger] src@[start + y]).0@
                && out@.subrange(base + 10 + y * (c as int) + (mk as int),
                base + 10 + (y + 1) * (c as int)) == src@[start + y].1@,
        decreases cnt - j,
    {
        proof {
            lemma_cell_in_page(mki, mvi, j as int);
            assert((j as int + 1) * (c as int) == j * c + c) by (nonlinear_arith);
        }
        let ghost before = out@;
        push_bytes(out, &src[start + j].0);
        push_bytes(out, &src[start + j].1);
        proof {
            assert(out@.subrange(0, base as int) =~= old(out)@);
            assert forall|y: int| 0 <= y < j + 1 implies out@.subrange(base + 10 + y
                * (c as int), base + 10 + y * (c as int) + (mk as int)) == (
                #[trigger] src@[start + y]).0@ && out@.subrange(base + 10 + y * (c as int)
                + (mk as int), base + 10 + (y + 1) * (c as int)) == src@[start + y].1@ by {
                assert((y + 1) * (c as int) == y * (c as int) + (c as int)) by (nonlinear_arith);
                if y < j {
                    assert(y * (c as int) + (c as int) <= (j as int) * (c as int))
                        by (nonlinear_arith)
                        requires
                            y + 1 <= j as int,
                            c >= 2,
                    ;
                    assert(out@.subrange(base + 10 + y * (c as int), base + 10 + y * (c as int)
                        + (mk as int)) =~= before.subrange(base + 10 + y * (c as int), base + 10
                        + y * (c as int) + (mk as int)));
                    assert(out@.subrange(base + 10 + y * (c as int) + (mk as int), base + 10 + (y
                        + 1) * (c as int)) =~= before.subrange(base + 10 + y * (c as int)
                        + (mk as int), base + 10 + (y + 1) * (c as int)));
                } else {
                    assert(out@.subrange(base + 10 + y * (c as int), base + 10 + y * (c as int)
                        + (mk as int)) =~= src@[start + y].0@);
                    assert(out@.subrange(base + 10 + y * (c as int) + (mk as int), base + 10 + (y
                        + 1) * (c as int)) =~= src@[start + y].1@);
                }
            }
        }
        j = j + 1;
    }
    // fill the unused cells with zero bytes
    let full = 10 + 32 * c;
    let ghost mid = out@;
    proof {
        assert((cnt as int) * (c as int) <= 32 * (c as int)) by (nonlinear_arith)
            requires
                cnt <= 32,
                c >= 2,
        ;
    }
    let mut w: usize = cnt * c;
    while w < 32 * c
        invariant
            c >= 2,
            base == old(out)@.len(),
            base + (ps as int) <= usize::MAX,
            ps == 10 + 32 * (c as int),
            cnt * c <= w <= 32 * c,
            out@.len() == base + 10 + w,
            mid.len() == base + 10 + (cnt as int) * (c as int),
            out@.subrange(0, mid.len() as int) == mid,
        decreases 32 * c - w,
    {
        out.push(0u8);
        proof {
            assert(out@.subrange(0, mid.len() as int) =~= mid);
        }
        w = w + 1;
    }
    proof {
        vstd::arithmetic::div_mod::lemma_fundamental_div_mod(base as int - 8, ps);
        assert(base as int - 8 == ps * q);
        assert(ps * q == q * ps) by (nonlinear_arith);
        assert(page_base(mki, mvi, q) == base as int);
        lemma_exact_div(q + 1, ps);
        assert(out@.len() - 8 == (q + 1) * ps) by (nonlinear_arith)
            requires
                out@.len() == base + 10 + 32 * (c as int),
                base as int - 8 == q * ps,
                ps == 10 + 32 * (c as int),
        ;
        assert(n_pages(out@, mki, mvi) == q + 1);
        assert((out@.len() - 8) % ps == 0);
        assert(out@.subrange(0, base as int) =~= mid.subrange(0, base as int));
        assert(mid.subrange(0, base as int) =~= old(out)@) by {
            assert(forall|x: int| 0 <= x < base ==> mid[x] == #[trigger] old(out)@[x]);
        }
        assert(out@[base as int] == mid[base as int] && out@[base as int + 1] == mid[base as int
            + 1]) by {
            assert(mid[base as int] == out@.subrange(0, mid.len() as int)[base as int]);
            assert(mid[base as int + 1] == out@.subrange(0, mid.len() as int)[base as int + 1]);
        }
        assert(page_tag(out@, mki, mvi, q) == 0u8);
        assert(cnt as u8 as int == cnt as int);
        assert(page_count(out@, mki, mvi, q) == cnt);
        assert(leaf_pairs(out@, mki, mvi, q) =~= pairs_view(src@.subrange(start as int,
            start as int + cnt as int))) by {
            assert forall|y: int| 0 <= y < cnt implies cell_key(out@, mki, mvi, q, y)
                == src@[start + y].0@ && cell_value(out@, mki, mvi, q, y) == src@[start
                + y].1@ by {
                assert((y + 1) * (c as int) == y * (c as int) + (c as int)) by (nonlinear_arith);
                assert(y * (c as int) + (c as int) <= (cnt as int) * (c as int))
                    by (nonlinear_arith)
                    requires
                        y + 1 <= cnt as int,
                        c >= 2,
                ;
                assert(cell_base(mki, mvi, q, y) == base + 10 + y * (c as int));
                assert(mid.subrange(base + 10 + y * (c as int), base + 10 + y * (c as int)
                    + (mk as int)) == src@[start + y].0@);
                assert(mid.subrange(base + 10 + y * (c as int) + (mk as int), base + 10 + (y + 1)
                    * (c as int)) == src@[start + y].1@);
                assert(cell_key(out@, mki, mvi, q, y) =~= mid.subrange(base + 10 + y
                    * (c as int), base + 10 + y * (c as int) + (mk as int)));
                assert(cell_value(out@, mki, mvi, q, y) =~= mid.subrange(base + 10 + y
                    * (c as int) + (mk as int), base + 10 + (y + 1) * (c as int)));
            }
        }
    }
}

/// Append one internal page whose `cnt` children start at page `fc`, with
/// the separators `seps[sbase .. sbase + cnt - 1]`.
fn write_internal_page(out: &mut Vec<u8>, seps: &Vec<Vec<u8>>, sbase: usize, cnt: usize, fc: usize, mk: usize, mv: usize)
    requires
        mk >= 1,
        mv >= 1,
        32 * (mk + mv) + 10 <= usize::MAX,
        old(out)@.len() >= 8,
        (old(out)@.len() - 8) % page_size(mk as int, mv as int) == 0,
        old(out)@.len() + page_size(mk as int, mv as int) <= usize::MAX,
        sbase + cnt <= seps.len() + 1,
        1 <= cnt <= 32,
        forall|i: int| sbase <= i < sbase + cnt - 1 ==> (#[trigger] seps@[i])@.len() == mk,
    ensures
        final(out)@.len() == old(out)@.len() + page_size(mk as int, mv as int),
        final(out)@.subrange(0, old(out)@.len() as int) == old(out)@,
        (final(out)@.len() - 8) % page_size(mk as int, mv as int) == 0,
        n_pages(final(out)@, mk as int, mv as int) == n_pages(old(out)@, mk as int, mv as int)
            + 1,
        page_tag(final(out)@, mk as int, mv as int, n_pages(old(out)@, mk as int, mv as int))
            == 1u8,
        page_count(final(out)@, mk as int, mv as int, n_pages(old(out)@, mk as int, mv as int))
            == cnt,
        page_link(final(out)@, mk as int, mv as int, n_pages(old(out)@, mk as int, mv as int))
            == fc,
        forall|y: int| 0 <= y < cnt - 1 ==> cell_key(final(out)@, mk as int, mv as int, n_pages(
            old(out)@, mk as int, mv as int), y) == (#[trigger] seps@[sbase + y])@,
{
    let ghost mki = mk as int;
    let ghost mvi = mv as int;
    let ghost ps = page_size(mki, mvi);
    let ghost q = n_pages(old(out)@, mki, mvi);
    let base = out.len();
    let c = mk + mv;
    out.push(1u8);
    out.push(cnt as u8);
    let link = vstd::bytes::u64_to_le_bytes(fc as u64);
    push_bytes(out, &link);
    proof {
        assert(out@.subrange(0, base as int) =~= old(out)@);
        vstd::bytes::lemma_auto_spec_u64_to_from_le_bytes();
        assert(out@.subrange(base as int + 2, base as int + 10) =~= link@);
    }
    let mut j: usize = 0;
    while j < cnt
        invariant
            mk >= 1,
            mv >= 1,
            c == mk + mv,
            32 * c + 10 <= usize::MAX,
            base == old(out)@.len(),
            base + (ps as int) <= usize::MAX,
            ps == page_size(mki, mvi),
            mki == mk as int,
            mvi == mv as int,
            sbase + cnt <= seps.len() + 1,
            j <= cnt,
            cnt <= 32,
            forall|i: int| sbase <= i < sbase + cnt - 1 ==> (#[trigger] seps@[i])@.len() == mk,
            out@.len() == base + 10 + j * c,
            out@.subrange(0, base as int) == old(out)@,
            out@[base as int] == 1u8,
            out@[base as int + 1] == cnt as u8,
            out@.subrange(base as int + 2, base as int + 10)
                == vstd::bytes::spec_u64_to_le_bytes(fc as u64),
            forall|y: int| 0 <= y < j && y < cnt - 1 ==> out@.subrange(base + 10 + y
                * (c as int), base + 10 + y * (c as int) + (mk as int)) == (
                #[trigger] seps@[sbase + y])@,
        decreases cnt - j,
    {
        proof {
            lemma_cell_in_page(mki, mvi, j as int);
            assert((j as int + 1) * (c as int) == j * c + c) by (nonlinear_arith);
        }
        let ghost before = out@;
        if j < cnt - 1 {
            push_bytes(out, &seps[sbase + j]);
            let mut z: usize = 0;
            while z < mv
                invariant
                    z <= mv,
                    out@.len() == before.len() + (mk as int) + z,
                    out@.subrange(0, before.len() as int + (mk as int)) == before
                        + seps@[sbase + j as int]@,
                    seps@[sbase + j as int]@.len() == mk,
                    sbase + j < seps.len(),
                decreases mv - z,
            {
                out.push(0u8);
                proof {
                    assert(out@.subrange(0, before.len() as int + (mk as int)) =~= before
                        + seps@[sbase + j as int]@);
                }
                z = z + 1;
            }
            proof {
                assert forall|x: int| 0 <= x < before.len() implies out@[x] == #[trigger] before[x] by {
                    assert(before[x] == (before + seps@[sbase + j as int]@)[x]);
                    assert(out@[x] == out@.subrange(0, before.len() as int + (mk as int))[x]);
                }
                assert forall|x: int| 0 <= x < mk implies out@[before.len() + x] == (
                    #[trigger] seps@[sbase + j as int]@[x]) by {
                    assert(out@[before.len() + x] == out@.subrange(0, before.len() as int
                        + (mk as int))[before.len() + x]);
                    assert((before + seps@[sbase + j as int]@)[before.len() + x]
                        == seps@[sbase + j as int]@[x]);
                }
            }
        } else {
            let mut z: usize = 0;
            while z < c
                invariant
                    z <= c,
                    out@.len() == before.len() + z,
                    out@.subrange(0, before.len() as int) == before,
                decreases c - z,
            {
                out.push(0u8);
                proof {
                    assert(out@.subrange(0, before.len() as int) =~= before);
                }
                z = z + 1;
            }
            proof {
                assert forall|x: int| 0 <= x < before.len() implies out@[x] == #[trigger] before[x] by {
                    assert(out@[x] == out@.subrange(0, before.len() as int)[x]);
                }
            }
        }
        proof {
            assert(out@.subrange(0, base as int) =~= old(out)@);
            assert(out@.subrange(base as int + 2, base as int + 10) =~= before.subrange(
                base as int + 2, base as int + 10));
            assert forall|y: int| 0 <= y < j + 1 && y < cnt - 1 implies out@.subrange(base + 10
                + y * (c as int), base + 10 + y * (c as int) + (mk as int)) == (
                #[trigger] seps@[sbase + y])@ by {
                if y < j {
                    assert(y * (c as int) + (c as int) <= (j as int) * (c as int))
                        by (nonlinear_arith)
                        requires
                            y + 1 <= j as int,
                            c >= 2,
                    ;
                    assert(out@.subrange(base + 10 + y * (c as int), base + 10 + y * (c as int)
                        + (mk as int)) =~= before.subrange(base + 10 + y * (c as int), base + 10
                        + y * (c as int) + (mk as int)));
                } else {
                    assert(out@.subrange(base + 10 + y * (c as int), base + 10 + y * (c as int)
                        + (mk as int)) =~= seps@[sbase + y]@);
                }
            }
        }
        j = j + 1;
    }
    proof {
        vstd::arithmetic::div_mod::lemma_fundamental_div_mod(base as int - 8, ps);
        assert(ps * q == q * ps) by (nonlinear_arith);
        assert(page_base(mki, mvi, q) == base as int);
        lemma_exact_div(q + 1, ps);
    }
    // fill the cells of the absent children with zero bytes
    let ghost mid = out@;
    let ghost madd = (32 - cnt as int) * (c as int);
    proof {
        assert(madd >= 0 && (cnt as int) * (c as int) + madd == 32 * (c as int))
            by (nonlinear_arith)
            requires
                1 <= cnt <= 32,
                c >= 2,
                madd == (32 - cnt as int) * (c as int),
        ;
        assert((32 - cnt as int) * (c as int) == ((32 - cnt) as int) * (c as int));
    }
    let pad_n = (32 - cnt) * c;
    proof {
        assert(pad_n as int == madd) by (nonlinear_arith)
            requires
                pad_n as int == ((32 - cnt) as int) * (c as int),
                madd == (32 - cnt as int) * (c as int),
                cnt <= 32,
        ;
    }
    let mut w: usize = 0;
    while w < pad_n
        invariant
            c >= 2,
            cnt <= 32,
            pad_n as int == madd,
            base == old(out)@.len(),
            base + (ps as int) <= usize::MAX,
            ps == 10 + 32 * (c as int),
            mid.len() == base + 10 + (cnt as int) * (c as int),
            (cnt as int) * (c as int) + madd == 32 * (c as int),
            w <= pad_n,
            out@.len() == mid.len() + w,
            out@.subrange(0, mid.len() as int) == mid,
        decreases pad_n - w,
    {
        out.push(0u8);
        proof {
            assert(out@.subrange(0, mid.len() as int) =~= mid);
        }
        w = w + 1;
    }
    proof {
        assert(out@.len() == base + (ps as int));
        assert(out@.len() - 8 == (q + 1) * ps) by (nonlinear_arith)
            requires
                out@.len() == base + ps,
                base as int - 8 == q * ps,
        ;
        assert(n_pages(out@, mki, mvi) == q + 1);
        assert((out@.len() - 8) % ps == 0);
        assert(out@.subrange(0, base as int) =~= mid.subrange(0, base as int));
        assert(mid.subrange(0, base as int) =~= old(out)@) by {
            assert(forall|x: int| 0 <= x < base ==> mid[x] == #[trigger] old(out)@[x]);
        }
        assert(out@[base as int] == mid[base as int] && out@[base as int + 1] == mid[base as int
            + 1]) by {
            assert(mid[base as int] == out@.subrange(0, mid.len() as int)[base as int]);
            assert(mid[base as int + 1] == out@.subrange(0, mid.len() as int)[base as int + 1]);
        }
        assert(page_tag(out@, mki, mvi, q) == 1u8);
        assert(cnt as u8 as int == cnt as int);
        assert(page_count(out@, mki, mvi, q) == cnt);
        vstd::bytes::lemma_auto_spec_u64_to_from_le_bytes();
        assert(out@.subrange(base as int + 2, base as int + 10) =~= mid.subrange(base as int + 2,
            base as int + 10));
        assert(page_link(out@, mki, mvi, q) == fc);
        assert forall|y: int| 0 <= y < cnt - 1 implies cell_key(out@, mki, mvi, q, y) == (
            #[trigger] seps@[sbase + y])@ by {
            assert((y + 1) * (c as int) == y * (c as int) + (c as int)) by (nonlinear_arith);
            assert(y * (c as int) + (c as int) <= (cnt as int) * (c as int)) by (nonlinear_arith)
                requires
                    y + 1 <= cnt as int,
                    c >= 2,
            ;
            assert(cell_base(mki, mvi, q, y) == base + 10 + y * (c as int));
            assert(cell_key(out@, mki, mvi, q, y) =~= mid.subrange(base + 10 + y * (c as int),
                base + 10 + y * (c as int) + (mk as int)));
        }
    }
}

/// Whether the file starts with the magic and the current format version.
pub fn check_header(t: &Vec<u8>) -> (r: bool)
    ensures
        r == header_wf(t@),
{
    if t.len() < 8 {
        return false;
    }
    let h = empty_tree();
    let pre = slice_range(t, 0, 8);
    bytes_eq(&pre, &h)
}

/// The upper bound of a run of pairs ending at index `b`: the key at `b`, or
/// nothing when the run reaches the end.
pub open spec fn seg_hi(pv: Seq<(Seq<u8>, Seq<u8>)>, b: int) -> Option<Seq<u8>> {
    if b < pv.len() {
        Some(pv[b].0)
    } else {
        None
    }
}

proof fn lemma_bnd_mono(bnd: Seq<int>, ln: int, a: int, b: int)
    requires
        bnd.len() == ln + 1,
        forall|x: int| 0 <= x < ln ==> #[trigger] bnd[x] < bnd[x + 1],
        0 <= a <= b <= ln,
    ensures
        bnd[a] <= bnd[b],
        a < b ==> bnd[a] < bnd[b],
    decreases b - a,
{
    if a < b {
        lemma_bnd_mono(bnd, ln, a, b - 1);
    }
}

/// One group of consecutive nodes of a finished level, hung under a freshly
/// written internal page: its first `j` children are well-formed between the
/// separators, and together they hold the pairs of the group's segment.
proof fn lemma_group_children(t: Seq<u8>, mk: int, mv: int, pv: Seq<(Seq<u8>, Seq<u8>)>, bnd: Seq<int>, start: int, ln: int, g32: int, cnt: int, pnew: int, j: int)
    requires
        mk >= 1,
        mv >= 1,
        sorted_pairs(pv),
        bnd.len() == ln + 1,
        forall|x: int| 0 <= x < ln ==> #[trigger] bnd[x] < bnd[x + 1],
        forall|x: int| 0 <= x <= ln ==> 0 <= #[trigger] bnd[x] <= pv.len(),
        bnd[ln] == pv.len(),
        0 <= g32,
        1 <= cnt <= 32,
        g32 + cnt <= ln,
        0 <= j <= cnt,
        start >= 0,
        start + ln <= pnew,
        pnew < n_pages(t, mk, mv),
        page_tag(t, mk, mv, pnew) == 1u8,
        page_count(t, mk, mv, pnew) == cnt,
        page_link(t, mk, mv, pnew) == start + g32,
        forall|y: int| 0 <= y < cnt - 1 ==> #[trigger] cell_key(t, mk, mv, pnew, y)
            == pv[bnd[g32 + y + 1]].0,
        forall|x: int| 0 <= x < ln ==> #[trigger] wf_subtree(t, mk, mv, start + x, Some(
            pv[bnd[x]].0), seg_hi(pv, bnd[x + 1])),
        forall|x: int| 0 <= x < ln ==> (#[trigger] subtree_entries(t, mk, mv, start + x)) == pv.subrange(
            bnd[x], bnd[x + 1]),
    ensures
        wf_children(t, mk, mv, pnew, start + g32, j, cnt, Some(pv[bnd[g32]].0), seg_hi(pv,
            bnd[g32 + cnt])),
        children_entries(t, mk, mv, pnew, start + g32, j) == pv.subrange(bnd[g32], bnd[g32 + j]),
    decreases j,
{
    let fc = start + g32;
    if j == 0 {
        assert(pv.subrange(bnd[g32], bnd[g32]) =~= Seq::<(Seq<u8>, Seq<u8>)>::empty());
    } else {
        lemma_group_children(t, mk, mv, pv, bnd, start, ln, g32, cnt, pnew, j - 1);
        let x = g32 + j - 1;
        let clo = child_lo(t, mk, mv, pnew, j - 1, Some(pv[bnd[g32]].0));
        let chi = child_hi(t, mk, mv, pnew, j - 1, cnt, seg_hi(pv, bnd[g32 + cnt]));
        assert(wf_subtree(t, mk, mv, start + x, Some(pv[bnd[x]].0), seg_hi(pv, bnd[x + 1])));
        if j - 1 == 0 {
            assert(clo == Some(pv[bnd[x]].0));
        } else {
            assert(cell_key(t, mk, mv, pnew, j - 2) == pv[bnd[g32 + j - 1]].0);
            assert(clo == Some(pv[bnd[x]].0));
        }
        if j - 1 == cnt - 1 {
            assert(chi == seg_hi(pv, bnd[x + 1]));
        } else {
            assert(cell_key(t, mk, mv, pnew, j - 1) == pv[bnd[g32 + j]].0);
            assert(x + 1 == g32 + j && g32 + j < ln);
            assert(bnd[g32 + j] < bnd[g32 + j + 1] <= pv.len());
            assert(chi == seg_hi(pv, bnd[x + 1]));
        }
        assert(wf_subtree(t, mk, mv, fc + (j - 1), clo, chi));
        assert(children_entries(t, mk, mv, pnew, fc, j) == children_entries(t, mk, mv, pnew, fc,
            j - 1) + subtree_entries(t, mk, mv, fc + j - 1));
        lemma_bnd_mono(bnd, ln, g32, g32 + j - 1);
        lemma_bnd_mono(bnd, ln, g32 + j - 1, g32 + j);
        lemma_bnd_mono(bnd, ln, g32 + j, ln);
        assert(pv.subrange(bnd[g32], bnd[g32 + j - 1]) + pv.subrange(bnd[g32 + j - 1], bnd[g32
            + j]) =~= pv.subrange(bnd[g32], bnd[g32 + j]));
    }
}

/// The freshly written internal page is a well-formed subtree holding the
/// pairs of its group's whole segment.
proof fn lemma_group_node(t: Seq<u8>, mk: int, mv: int, pv: Seq<(Seq<u8>, Seq<u8>)>, bnd: Seq<int>, start: int, ln: int, g32: int, cnt: int, pnew: int)
    requires
        mk >= 1,
        mv >= 1,
        sorted_pairs(pv),
        bnd.len() == ln + 1,
        forall|x: int| 0 <= x < ln ==> #[trigger] bnd[x] < bnd[x + 1],
        forall|x: int| 0 <= x <= ln ==> 0 <= #[trigger] bnd[x] <= pv.len(),
        bnd[ln] == pv.len(),
        0 <= g32,
        1 <= cnt <= 32,
        g32 + cnt <= ln,
        start >= 0,
        start + ln <= pnew,
        pnew < n_pages(t, mk, mv),
        page_tag(t, mk, mv, pnew) == 1u8,
        page_count(t, mk, mv, pnew) == cnt,
        page_link(t, mk, mv, pnew) == start + g32,
        forall|y: int| 0 <= y < cnt - 1 ==> #[trigger] cell_key(t, mk, mv, pnew, y)
            == pv[bnd[g32 + y + 1]].0,
        forall|x: int| 0 <= x < ln ==> #[trigger] wf_subtree(t, mk, mv, start + x, Some(
            pv[bnd[x]].0), seg_hi(pv, bnd[x + 1])),
        forall|x: int| 0 <= x < ln ==> (#[trigger] subtree_entries(t, mk, mv, start + x)) == pv.subrange(
            bnd[x], bnd[x + 1]),
    ensures
        wf_subtree(t, mk, mv, pnew, Some(pv[bnd[g32]].0), seg_hi(pv, bnd[g32 + cnt])),
        subtree_entries(t, mk, mv, pnew) == pv.subrange(bnd[g32], bnd[g32 + cnt]),
{
    lemma_group_children(t, mk, mv, pv, bnd, start, ln, g32, cnt, pnew, cnt);
    let lo = Some(pv[bnd[g32]].0);
    let hi = seg_hi(pv, bnd[g32 + cnt]);
    assert forall|y: int| 0 <= y < cnt - 2 implies lex_lt(#[trigger] cell_key(t, mk, mv, pnew,
        y), cell_key(t, mk, mv, pnew, y + 1)) by {
        lemma_bnd_mono(bnd, ln, g32 + y + 1, g32 + y + 2);
        lemma_bnd_mono(bnd, ln, g32 + y + 2, ln);
        lemma_sorted_pairs_all(pv, bnd[g32 + y + 1], bnd[g32 + y + 2]);
    }
    assert forall|y: int| 0 <= y < cnt - 1 implies in_bounds(#[trigger] cell_key(t, mk, mv,
        pnew, y), lo, hi) by {
        lemma_bnd_mono(bnd, ln, g32, g32 + y + 1);
        lemma_bnd_mono(bnd, ln, g32 + y + 1, ln);
        lemma_sorted_pairs_all(pv, bnd[g32], bnd[g32 + y + 1]);
        if bnd[g32 + cnt] < pv.len() {
            lemma_bnd_mono(bnd, ln, g32 + y + 1, g32 + cnt);
            lemma_sorted_pairs_all(pv, bnd[g32 + y + 1], bnd[g32 + cnt]);
        }
    }
}

/// Look `key` up in a tree file, descending from the root page.  On a
/// well-formed tree the result is exactly the tree's binding for the key; a
/// structurally broken file is reported as corrupt.
pub fn tree_lookup(t: &Vec<u8>, mk: usize, mv: usize, key: &Vec<u8>) -> (r: Result<Option<Vec<u8>>, StoreError>)
    requires
        mk >= 1,
        mv >= 1,
        32 * (mk + mv) + 10 <= usize::MAX,
        key.len() == mk,
    ensures
        wf_tree(t@, mk as int, mv as int) ==> (match r {
            Ok(Some(v)) => tree_lookup_spec(t@, mk as int, mv as int, key@) == Some(v@),
            Ok(None) => tree_lookup_spec(t@, mk as int, mv as int, key@) is None,
            Err(_) => false,
        }),
        r matches Err(e) ==> e == StoreError::CorruptionError && !wf_tree(t@, mk as int,
            mv as int),
{
    let ghost mki = mk as int;
    let ghost mvi = mv as int;
    let ps = 10 + 32 * (mk + mv);
    if t.len() < 8 {
        return Err(StoreError::CorruptionError);
    }
    if (t.len() - 8) % ps != 0 {
        return Err(StoreError::CorruptionError);
    }
    let np = (t.len() - 8) / ps;
    if np == 0 {
        return Ok(None);
    }
    let mut p = np - 1;
    let ghost mut lo: Option<Seq<u8>> = None;
    let ghost mut hi: Option<Seq<u8>> = None;
    loop
        invariant
            mk >= 1,
            mv >= 1,
            32 * (mk + mv) + 10 <= usize::MAX,
            key@.len() == mki,
            mki == mk as int,
            mvi == mv as int,
            ps == page_size(mki, mvi),
            t@.len() >= 8,
            (t@.len() - 8) % (ps as int) == 0,
            np == n_pages(t@, mki, mvi),
            t@.len() <= usize::MAX,
            1 <= np,
            p < np,
            wf_tree(t@, mki, mvi) ==> {
                &&& wf_subtree(t@, mki, mvi, p as int, lo, hi)
                &&& in_bounds(key@, lo, hi)
                &&& entries_lookup(subtree_entries(t@, mki, mvi, p as int), key@)
                    == tree_lookup_spec(t@, mki, mvi, key@)
            },
        decreases p,
    {
        proof {
            lemma_cells_in_file(t@, mki, mvi, p as int);
        }
        let base = 8 + p * ps;
        let tag = t[base];
        let cnt = t[base + 1] as usize;
        if cnt < 1 || cnt > 32 {
            return Err(StoreError::CorruptionError);
        }
        if tag == 0 {
            let ghost pairs = leaf_pairs(t@, mki, mvi, p as int);
            let mut j: usize = 0;
            while j < cnt
                invariant
                    mk >= 1,
                    mv >= 1,
                    key@.len() == mki,
                    mki == mk as int,
                    mvi == mv as int,
                    ps == page_size(mki, mvi),
                    0 <= p < n_pages(t@, mki, mvi),
                    base == page_base(mki, mvi, p as int),
                    t@.len() <= usize::MAX,
                    8 + (p as int) * (ps as int) + (ps as int) <= t@.len(),
                    j <= cnt,
                    cnt <= 32,
                    cnt == page_count(t@, mki, mvi, p as int),
                    pairs == leaf_pairs(t@, mki, mvi, p as int),
                    forall|x: int| 0 <= x < j ==> (#[trigger] pairs[x]).0 != key@,
                    wf_tree(t@, mki, mvi) ==> {
                        &&& sorted_pairs(pairs)
                        &&& subtree_entries(t@, mki, mvi, p as int) == pairs
                        &&& entries_lookup(pairs, key@) == tree_lookup_spec(t@, mki, mvi, key@)
                    },
                decreases cnt - j,
            {
                proof {
                    lemma_cell_in_page(mki, mvi, j as int);
                }
                let cb = base + 10 + j * (mk + mv);
                let kb = slice_range(t, cb, mk);
                proof {
                    assert(kb@ == cell_key(t@, mki, mvi, p as int, j as int));
                }
                if bytes_eq(&kb, key) {
                    let vb = slice_range(t, cb + mk, mv);
                    proof {
                        if wf_tree(t@, mki, mvi) {
                            assert forall|x: int| 0 <= x < pairs.len() && x != j as int implies (
                                #[trigger] pairs[x]).0 != key@ by {
                                if x < j as int {
                                } else {
                                    lemma_sorted_pairs_all(pairs, j as int, x);
                                }
                            }
                            lemma_entries_lookup_at(pairs, j as int, key@);
                        }
                    }
                    return Ok(Some(vb));
                }
                j = j + 1;
            }
            proof {
                if wf_tree(t@, mki, mvi) {
                    lemma_entries_lookup_absent(pairs, key@);
                }
            }
            return Ok(None);
        } else if tag == 1 {
            let lb = slice_range(t, base + 2, 8);
            let fcu = u64_from_le_bytes(lb.as_slice());
            proof {
                assert(lb@ == t@.subrange(base as int + 2, base as int + 10));
            }
            if fcu >= p as u64 {
                return Err(StoreError::CorruptionError);
            }
            let fc = fcu as usize;
            if cnt > p - fc {
                return Err(StoreError::CorruptionError);
            }
            // pick the first child whose separator lies above the key, or
            // the last child
            let mut chosen: usize = cnt - 1;
            let mut j: usize = 0;
            loop
                invariant_except_break
                    mk >= 1,
                    mv >= 1,
                    key@.len() == mki,
                    mki == mk as int,
                    mvi == mv as int,
                    ps == page_size(mki, mvi),
                    0 <= p < n_pages(t@, mki, mvi),
                    base == page_base(mki, mvi, p as int),
                    t@.len() <= usize::MAX,
                    8 + (p as int) * (ps as int) + (ps as int) <= t@.len(),
                    j <= cnt - 1,
                    1 <= cnt <= 32,
                    cnt == page_count(t@, mki, mvi, p as int),
                    chosen == cnt - 1,
                    forall|x: int| 0 <= x < j ==> lex_le(
                        #[trigger] cell_key(t@, mki, mvi, p as int, x), key@),
                ensures
                    chosen < cnt,
                    forall|x: int| 0 <= x < chosen ==> lex_le(
                        #[trigger] cell_key(t@, mki, mvi, p as int, x), key@),
                    (chosen as int) < cnt - 1 ==> lex_lt(key@, cell_key(t@, mki, mvi, p as int,
                        chosen as int)),
                decreases cnt - 1 - j,
            {
                if j == cnt - 1 {
                    break;
                }
                proof {
                    lemma_cell_in_page(mki, mvi, j as int);
                }
                let cb = base + 10 + j * (mk + mv);
                let sep = slice_range(t, cb, mk);
                proof {
                    assert(sep@ == cell_key(t@, mki, mvi, p as int, j as int));
                }
                if !bytes_le(&sep, key) {
                    chosen = j;
                    proof {
                        lemma_lex_le_total(sep@, key@);
                        if key@ == sep@ {
                            lemma_lex_le_total(sep@, sep@);
                        }
                    }
                    break;
                }
                j = j + 1;
            }
            proof {
                if wf_tree(t@, mki, mvi) {
                    lemma_descend(t@, mki, mvi, p as int, lo, hi, key@, chosen as int);
                    lo = child_lo(t@, mki, mvi, p as int, chosen as int, lo);
                    hi = child_hi(t@, mki, mvi, p as int, chosen as int,
                        page_count(t@, mki, mvi, p as int), hi);
                }
            }
            p = fc + chosen;
        } else {
            return Err(StoreError::CorruptionError);
        }
    }
}

/// One step of the leaf phase: appending a leaf page holding the pairs
/// `pv[i .. i + cnt]` extends the finished prefix of the leaf level.
/// A freshly written leaf page holding `pv[i .. i + cnt]` is a well-formed
/// subtree between its own first key and the key that follows its run.
#[verifier::spinoff_prover]
proof fn lemma_new_leaf_ok(t2: Seq<u8>, mk: int, mv: int, pv: Seq<(Seq<u8>, Seq<u8>)>, pages: int, i: int, cnt: int)
    requires
        mk >= 1,
        mv >= 1,
        sorted_pairs(pv),
        1 <= cnt <= 32,
        0 <= i,
        i + cnt <= pv.len(),
        0 <= pages < n_pages(t2, mk, mv),
        page_tag(t2, mk, mv, pages) == 0u8,
        page_count(t2, mk, mv, pages) == cnt,
        leaf_pairs(t2, mk, mv, pages) == pv.subrange(i, i + cnt),
    ensures
        wf_subtree(t2, mk, mv, pages, Some(pv[i].0), seg_hi(pv, i + cnt)),
        subtree_entries(t2, mk, mv, pages) == pv.subrange(i, i + cnt),
{
    let lp = leaf_pairs(t2, mk, mv, pages);
    assert(lp.len() == cnt);
    assert forall|a: int| 0 <= a < lp.len() implies #[trigger] lp[a] == pv[i + a] by {
        assert(lp[a] == pv.subrange(i, i + cnt)[a]);
    }
    assert forall|a: int| 0 <= a < lp.len() - 1 implies lex_lt((#[trigger] lp[a]).0, lp[a
        + 1].0) by {
        assert(lp[a] == pv[i + a] && lp[a + 1] == pv[i + a + 1]);
    }
    assert forall|a: int| 0 <= a < page_count(t2, mk, mv, pages) implies in_bounds(
        #[trigger] cell_key(t2, mk, mv, pages, a), Some(pv[i].0), seg_hi(pv, i + cnt)) by {
        assert(cell_key(t2, mk, mv, pages, a) == lp[a].0);
        assert(lp[a].0 == pv[i + a].0);
        if a == 0 {
            lemma_lex_le_total(pv[i].0, pv[i].0);
        } else {
            lemma_sorted_pairs_all(pv, i, i + a);
        }
        if i + cnt < pv.len() {
            lemma_sorted_pairs_all(pv, i + a, i + cnt);
        }
    }
}

#[verifier::rlimit(100)]
#[verifier::spinoff_prover]
proof fn lemma_leaf_step(t1: Seq<u8>, t2: Seq<u8>, mk: int, mv: int, pv: Seq<(Seq<u8>, Seq<u8>)>, bnd: Seq<int>, bnd2: Seq<int>, pages: int, i: int, cnt: int)
    requires
        mk >= 1,
        mv >= 1,
        0 <= pages,
        0 <= i,
        sorted_pairs(pv),
        bnd.len() == pages + 1,
        bnd[0] == 0,
        bnd[pages] == i,
        forall|x: int| 0 <= x < pages ==> #[trigger] bnd[x] < bnd[x + 1],
        forall|x: int| 0 <= x <= pages ==> 0 <= #[trigger] bnd[x] <= i,
        forall|x: int| 0 <= x < pages ==> #[trigger] wf_subtree(t1, mk, mv, x, Some(
            pv[bnd[x]].0), seg_hi(pv, bnd[x + 1])),
        forall|x: int| 0 <= x < pages ==> (#[trigger] subtree_entries(t1, mk, mv, x)) == pv.subrange(
            bnd[x], bnd[x + 1]),
        bnd2 == bnd.push(i + cnt),
        1 <= cnt <= 32,
        i + cnt <= pv.len(),
        t2.len() >= t1.len(),
        t2.subrange(0, t1.len() as int) == t1,
        n_pages(t1, mk, mv) == pages,
        n_pages(t2, mk, mv) == pages + 1,
        page_tag(t2, mk, mv, pages) == 0u8,
        page_count(t2, mk, mv, pages) == cnt,
        leaf_pairs(t2, mk, mv, pages) == pv.subrange(i, i + cnt),
    ensures
        bnd2.len() == pages + 2,
        bnd2[0] == 0,
        bnd2[pages + 1] == i + cnt,
        forall|x: int| 0 <= x < pages + 1 ==> #[trigger] bnd2[x] < bnd2[x + 1],
        forall|x: int| 0 <= x <= pages + 1 ==> 0 <= #[trigger] bnd2[x] <= i + cnt,
        forall|x: int| 0 <= x < pages + 1 ==> #[trigger] wf_subtree(t2, mk, mv, x, Some(
            pv[bnd2[x]].0), seg_hi(pv, bnd2[x + 1])),
        forall|x: int| 0 <= x < pages + 1 ==> (#[trigger] subtree_entries(t2, mk, mv, x)) == pv.subrange(
            bnd2[x], bnd2[x + 1]),
{
    assert forall|x: int| 0 <= x < pages implies #[trigger] wf_subtree(t2, mk, mv, x, Some(
        pv[bnd2[x]].0), seg_hi(pv, bnd2[x + 1])) by {
        lemma_subtree_frame(t1, t2, mk, mv, x, Some(pv[bnd[x]].0), seg_hi(pv, bnd[x + 1]));
    }
    assert forall|x: int| 0 <= x < pages implies (#[trigger] subtree_entries(t2, mk, mv, x))
        == pv.subrange(bnd2[x], bnd2[x + 1]) by {
        lemma_subtree_frame(t1, t2, mk, mv, x, Some(pv[bnd[x]].0), seg_hi(pv, bnd[x + 1]));
    }
    lemma_new_leaf_ok(t2, mk, mv, pv, pages, i, cnt);
    assert(wf_subtree(t2, mk, mv, pages, Some(pv[bnd2[pages]].0), seg_hi(pv, bnd2[pages + 1])));
    assert(subtree_entries(t2, mk, mv, pages) == pv.subrange(bnd2[pages], bnd2[pages + 1]));
}

/// One step of a level phase: appending an internal page over one group of
/// nodes extends the finished prefix of the new level.
#[verifier::rlimit(100)]
#[verifier::spinoff_prover]
proof fn lemma_level_step(t1: Seq<u8>, t2: Seq<u8>, mk: int, mv: int, pv: Seq<(Seq<u8>, Seq<u8>)>, bnd: Seq<int>, newbnd: Seq<int>, newbnd2: Seq<int>, start: int, ln: int, g: int, cnt: int)
    requires
        mk >= 1,
        mv >= 1,
        sorted_pairs(pv),
        1 <= pv.len(),
        bnd.len() == ln + 1,
        bnd[0] == 0,
        bnd[ln] == pv.len(),
        forall|x: int| 0 <= x < ln ==> #[trigger] bnd[x] < bnd[x + 1],
        forall|x: int| 0 <= x <= ln ==> 0 <= #[trigger] bnd[x] <= pv.len(),
        forall|x: int| 0 <= x < ln ==> #[trigger] wf_subtree(t1, mk, mv, start + x, Some(
            pv[bnd[x]].0), seg_hi(pv, bnd[x + 1])),
        forall|x: int| 0 <= x < ln ==> (#[trigger] subtree_entries(t1, mk, mv, start + x)) == pv.subrange(
            bnd[x], bnd[x + 1]),
        newbnd.len() == g + 1,
        newbnd[0] == 0,
        newbnd[g] == bnd[32 * g],
        forall|y: int| 0 <= y < g ==> #[trigger] newbnd[y] < newbnd[y + 1],
        forall|y: int| 0 <= y <= g ==> 0 <= #[trigger] newbnd[y] <= pv.len(),
        forall|y: int| 0 <= y < g ==> #[trigger] wf_subtree(t1, mk, mv, start + ln + y, Some(
            pv[newbnd[y]].0), seg_hi(pv, newbnd[y + 1])),
        forall|y: int| 0 <= y < g ==> subtree_entries(t1, mk, mv, start + ln + y)
            == pv.subrange(#[trigger] newbnd[y], newbnd[y + 1]),
        newbnd2 == newbnd.push(bnd[32 * g + cnt]),
        0 <= g,
        32 * g < ln,
        1 <= cnt <= 32,
        32 * g + cnt <= ln,
        0 <= start,
        t2.len() >= t1.len(),
        t2.subrange(0, t1.len() as int) == t1,
        n_pages(t1, mk, mv) == start + ln + g,
        n_pages(t2, mk, mv) == start + ln + g + 1,
        page_tag(t2, mk, mv, start + ln + g) == 1u8,
        page_count(t2, mk, mv, start + ln + g) == cnt,
        page_link(t2, mk, mv, start + ln + g) == start + 32 * g,
        forall|y: int| 0 <= y < cnt - 1 ==> #[trigger] cell_key(t2, mk, mv, start + ln + g, y)
            == pv[bnd[32 * g + y + 1]].0,
    ensures
        newbnd2.len() == g + 2,
        newbnd2[0] == 0,
        newbnd2[g + 1] == bnd[32 * g + cnt],
        forall|y: int| 0 <= y < g + 1 ==> #[trigger] newbnd2[y] < newbnd2[y + 1],
        forall|y: int| 0 <= y <= g + 1 ==> 0 <= #[trigger] newbnd2[y] <= pv.len(),
        forall|x: int| 0 <= x < ln ==> #[trigger] wf_subtree(t2, mk, mv, start + x, Some(
            pv[bnd[x]].0), seg_hi(pv, bnd[x + 1])),
        forall|x: int| 0 <= x < ln ==> (#[trigger] subtree_entries(t2, mk, mv, start + x)) == pv.subrange(
            bnd[x], bnd[x + 1]),
        forall|y: int| 0 <= y < g + 1 ==> #[trigger] wf_subtree(t2, mk, mv, start + ln + y, Some(
            pv[newbnd2[y]].0), seg_hi(pv, newbnd2[y + 1])),
        forall|y: int| 0 <= y < g + 1 ==> subtree_entries(t2, mk, mv, start + ln + y)
            == pv.subrange(#[trigger] newbnd2[y], newbnd2[y + 1]),
{
    let pnew = start + ln + g;
    let g32 = 32 * g;
    assert forall|x: int| 0 <= x < ln implies #[trigger] wf_subtree(t2, mk, mv, start + x, Some(
        pv[bnd[x]].0), seg_hi(pv, bnd[x + 1])) by {
        lemma_subtree_frame(t1, t2, mk, mv, start + x, Some(pv[bnd[x]].0), seg_hi(pv, bnd[x
            + 1]));
    }
    assert forall|x: int| 0 <= x < ln implies (#[trigger] subtree_entries(t2, mk, mv, start
        + x)) == pv.subrange(bnd[x], bnd[x + 1]) by {
        lemma_subtree_frame(t1, t2, mk, mv, start + x, Some(pv[bnd[x]].0), seg_hi(pv, bnd[x
            + 1]));
    }
    assert forall|y: int| 0 <= y < g implies #[trigger] wf_subtree(t2, mk, mv, start + ln + y, Some(
        pv[newbnd[y]].0), seg_hi(pv, newbnd[y + 1])) by {
        lemma_subtree_frame(t1, t2, mk, mv, start + ln + y, Some(pv[newbnd[y]].0), seg_hi(pv,
            newbnd[y + 1]));
    }
    assert forall|y: int| 0 <= y < g implies (#[trigger] subtree_entries(t2, mk, mv, start + ln
        + y)) == pv.subrange(newbnd[y], newbnd[y + 1]) by {
        lemma_subtree_frame(t1, t2, mk, mv, start + ln + y, Some(pv[newbnd[y]].0), seg_hi(pv,
            newbnd[y + 1]));
    }
    lemma_group_node(t2, mk, mv, pv, bnd, start, ln, g32, cnt, pnew);
    lemma_bnd_mono(bnd, ln, g32, g32 + cnt);
    lemma_bnd_mono(bnd, ln, g32 + cnt, ln);
    assert(newbnd2[g] == bnd[g32]);
    assert(newbnd2[g + 1] == bnd[g32 + cnt]);
    assert(wf_subtree(t2, mk, mv, start + ln + g, Some(pv[newbnd2[g]].0), seg_hi(pv, newbnd2[g
        + 1])));
    assert(subtree_entries(t2, mk, mv, start + ln + g) == pv.subrange(newbnd2[g], newbnd2[g
        + 1]));
}

/// Build a whole tree file, bottom-up, from sorted pairs: full leaves first,
/// then each level of internal pages over the one below, the root last.
#[verifier::rlimit(100)]
pub fn build_tree(entries: &Vec<(Vec<u8>, Vec<u8>)>, mk: usize, mv: usize) -> (out: Vec<u8>)
    requires
        mk >= 1,
        mv >= 1,
        32 * (mk + mv) + 10 <= usize::MAX,
        sorted_pairs(pairs_view(entries@)),
        forall|i: int| 0 <= i < entries@.len() ==> (#[trigger] entries@[i]).0@.len() == mk
            && entries@[i].1@.len() == mv,
        8 + (2 * entries@.len() + 1) * page_size(mk as int, mv as int) <= usize::MAX,
    ensures
        wf_tree(out@, mk as int, mv as int),
        tree_entries(out@, mk as int, mv as int) == pairs_view(entries@),
        entries@.len() == 0 ==> out@ == header_seq(),
        header_wf(out@),
{
    let ghost mki = mk as int;
    let ghost mvi = mv as int;
    let ghost pv = pairs_view(entries@);
    let mut out = empty_tree();
    proof {
        lemma_empty_tree_wf(mki, mvi);
        assert(out@.subrange(0, 8) =~= header_seq());
    }
    let n = entries.len();
    if n == 0 {
        return out;
    }
    let ps = 10 + 32 * (mk + mv);
    let mut i: usize = 0;
    let mut pages: usize = 0;
    let mut mins: Vec<Vec<u8>> = Vec::new();
    let ghost mut bnd: Seq<int> = seq![0int];
    while i < n
        invariant
            mk >= 1,
            mv >= 1,
            mki == mk as int,
            mvi == mv as int,
            32 * (mk + mv) + 10 <= usize::MAX,
            ps == page_size(mki, mvi),
            pv == pairs_view(entries@),
            n == entries@.len(),
            1 <= n,
            sorted_pairs(pv),
            forall|x: int| 0 <= x < entries@.len() ==> (#[trigger] entries@[x]).0@.len() == mk
                && entries@[x].1@.len() == mv,
            8 + (2 * n as int + 1) * (ps as int) <= usize::MAX,
            i <= n,
            pages <= i,
            i > 0 ==> pages >= 1,
            out@.len() == 8 + (pages as int) * (ps as int),
            (out@.len() - 8) % (ps as int) == 0,
            n_pages(out@, mki, mvi) == pages,
            out@.subrange(0, 8) == header_seq(),
            mins@.len() == pages,
            bnd.len() == pages as int + 1,
            bnd[0] == 0,
            bnd[pages as int] == i,
            forall|x: int| 0 <= x < pages ==> #[trigger] bnd[x] < bnd[x + 1],
            forall|x: int| 0 <= x <= pages ==> 0 <= #[trigger] bnd[x] <= i,
            forall|x: int| 0 <= x < pages ==> (#[trigger] mins@[x])@ == pv[bnd[x]].0
                && mins@[x]@.len() == mk,
            forall|x: int| 0 <= x < pages ==> #[trigger] wf_subtree(out@, mki, mvi, x, Some(
                pv[bnd[x]].0), seg_hi(pv, bnd[x + 1])),
            forall|x: int| 0 <= x < pages ==> (#[trigger] subtree_entries(out@, mki, mvi, x)) == pv.subrange(
                bnd[x], bnd[x + 1]),
        decreases n - i,
    {
        let cnt = if n - i < 32 {
            n - i
        } else {
            32
        };
        proof {
            assert((pages as int + 1) * (ps as int) <= (2 * n as int + 1) * (ps as int))
                by (nonlinear_arith)
                requires
                    pages as int + 1 <= 2 * n as int + 1,
                    ps >= 1,
            ;
            assert((pages as int + 1) * (ps as int) == (pages as int) * (ps as int)
                + (ps as int)) by (nonlinear_arith);
        }
        let ghost t1 = out@;
        let ghost pg = pages as int;
        write_leaf_page(&mut out, entries, i, cnt, mk, mv);
        mins.push(clone_bytes(&entries[i].0));
        proof {
            let bnd2 = bnd.push(i as int + cnt as int);
            assert(out@.subrange(0, 8) =~= header_seq()) by {
                assert(out@.subrange(0, 8) =~= out@.subrange(0, t1.len() as int).subrange(0, 8));
            }
            assert(leaf_pairs(out@, mki, mvi, pg) =~= pv.subrange(i as int, i as int
                + cnt as int)) by {
                assert(leaf_pairs(out@, mki, mvi, pg) == pairs_view(entries@.subrange(i as int,
                    i as int + cnt as int)));
            }
            lemma_leaf_step(t1, out@, mki, mvi, pv, bnd, bnd2, pg, i as int, cnt as int);
            bnd = bnd2;
        }
        i = i + cnt;
        pages = pages + 1;
    }
    build_upper(&mut out, mins, pages, mk, mv, Ghost(pv), Ghost(bnd));
    out
}

/// Write one level of internal pages over the finished level of `ln` nodes
/// starting at page `start`, and hand back the new level's minimum keys and
/// segment boundaries.
#[verifier::rlimit(100)]
#[verifier::spinoff_prover]
fn build_level_step(out: &mut Vec<u8>, mins: &Vec<Vec<u8>>, start: usize, ln: usize, g: usize, mk: usize, mv: usize, Ghost(pv): Ghost<Seq<(Seq<u8>, Seq<u8>)>>, Ghost(bnd): Ghost<Seq<int>>, Ghost(newbnd): Ghost<Seq<int>>) -> (r: (Vec<u8>, Ghost<Seq<int>>))
    requires
        mk >= 1,
        mv >= 1,
        32 * (mk + mv) + 10 <= usize::MAX,
        sorted_pairs(pv),
        1 <= pv.len(),
        8 + (2 * pv.len() + 1) * page_size(mk as int, mv as int) <= usize::MAX,
        2 <= ln,
        start as int + 2 * (ln as int) <= 2 * pv.len(),
        32 * g < ln,
        old(out)@.len() == 8 + ((start + ln + g) as int) * page_size(mk as int, mv as int),
        (old(out)@.len() - 8) % page_size(mk as int, mv as int) == 0,
        n_pages(old(out)@, mk as int, mv as int) == start + ln + g,
        old(out)@.subrange(0, 8) == header_seq(),
        mins@.len() == ln,
        bnd.len() == ln as int + 1,
        bnd[0] == 0,
        bnd[ln as int] == pv.len(),
        forall|x: int| 0 <= x < ln ==> #[trigger] bnd[x] < bnd[x + 1],
        forall|x: int| 0 <= x <= ln ==> 0 <= #[trigger] bnd[x] <= pv.len(),
        forall|x: int| 0 <= x < ln ==> (#[trigger] mins@[x])@ == pv[bnd[x]].0
            && mins@[x]@.len() == mk,
        forall|x: int| 0 <= x < ln ==> #[trigger] wf_subtree(old(out)@, mk as int, mv as int,
            start + x, Some(pv[bnd[x]].0), seg_hi(pv, bnd[x + 1])),
        forall|x: int| 0 <= x < ln ==> subtree_entries(old(out)@, mk as int, mv as int, start
            + x) == pv.subrange(#[trigger] bnd[x], bnd[x + 1]),
        newbnd.len() == g as int + 1,
        newbnd[0] == 0,
        newbnd[g as int] == bnd[32 * g],
        forall|y: int| 0 <= y < g ==> #[trigger] newbnd[y] < newbnd[y + 1],
        forall|y: int| 0 <= y <= g ==> 0 <= #[trigger] newbnd[y] <= pv.len(),
        forall|y: int| 0 <= y < g ==> #[trigger] wf_subtree(old(out)@, mk as int, mv as int, (
            start + ln) as int + y, Some(pv[newbnd[y]].0), seg_hi(pv, newbnd[y + 1])),
        forall|y: int| 0 <= y < g ==> subtree_entries(old(out)@, mk as int, mv as int, (start
            + ln) as int + y) == pv.subrange(#[trigger] newbnd[y], newbnd[y + 1]),
    ensures
        final(out)@.len() == 8 + ((start + ln + g + 1) as int) * page_size(mk as int,
            mv as int),
        (final(out)@.len() - 8) % page_size(mk as int, mv as int) == 0,
        n_pages(final(out)@, mk as int, mv as int) == start + ln + g + 1,
        final(out)@.subrange(0, 8) == header_seq(),
        forall|x: int| 0 <= x < ln ==> #[trigger] wf_subtree(final(out)@, mk as int, mv as int,
            start + x, Some(pv[bnd[x]].0), seg_hi(pv, bnd[x + 1])),
        forall|x: int| 0 <= x < ln ==> subtree_entries(final(out)@, mk as int, mv as int, start
            + x) == pv.subrange(#[trigger] bnd[x], bnd[x + 1]),
        r.1@.len() == g as int + 2,
        r.1@ == newbnd.push(r.1@[g as int + 1]),
        r.1@[0] == 0,
        32 * (g + 1) <= ln ==> r.1@[g as int + 1] == bnd[32 * (g + 1)],
        32 * (g + 1) > ln ==> r.1@[g as int + 1] == bnd[ln as int],
        forall|y: int| 0 <= y < g + 1 ==> #[trigger] r.1@[y] < r.1@[y + 1],
        forall|y: int| 0 <= y <= g + 1 ==> 0 <= #[trigger] r.1@[y] <= pv.len(),
        r.0@ == pv[r.1@[g as int]].0,
        r.0@.len() == mk,
        forall|y: int| 0 <= y < g + 1 ==> #[trigger] wf_subtree(final(out)@, mk as int,
            mv as int, (start + ln) as int + y, Some(pv[r.1@[y]].0), seg_hi(pv, r.1@[y + 1])),
        forall|y: int| 0 <= y < g + 1 ==> subtree_entries(final(out)@, mk as int, mv as int, (
            start + ln) as int + y) == pv.subrange(#[trigger] r.1@[y], r.1@[y + 1]),
{
    let ghost mki = mk as int;
    let ghost mvi = mv as int;
    let ghost ps = page_size(mki, mvi);
    let ghost n = pv.len() as int;
    let ol = out.len();
    proof {
        assert(((start + ln + g) as int) <= ((start + ln + g) as int) * (ps as int))
            by (nonlinear_arith)
            requires
                ps >= 1,
                start + ln + g >= 0,
        ;
        assert(ol as int == 8 + ((start + ln + g) as int) * (ps as int));
    }
    let newstart = start + ln;
    let rem = ln - 32 * g;
    let cnt = if rem < 32 {
        rem
    } else {
        32
    };
    let fc = start + 32 * g;
    proof {
        assert((g as int) < (ln as int)) by (nonlinear_arith)
            requires
                32 * (g as int) < (ln as int),
                g >= 0,
        ;
        assert(((newstart + g) as int + 1) * (ps as int) <= (2 * n + 1) * (ps as int))
            by (nonlinear_arith)
            requires
                (newstart + g) as int + 1 <= 2 * n + 1,
                ps >= 1,
        ;
        assert(((newstart + g) as int + 1) * (ps as int) == ((newstart + g) as int)
            * (ps as int) + (ps as int)) by (nonlinear_arith);
    }
    let ghost t1 = out@;
    let ghost pnew = (newstart + g) as int;
    let ghost g32 = 32 * g as int;
    write_internal_page(out, mins, 32 * g + 1, cnt, fc, mk, mv);
    let m0 = clone_bytes(&mins[32 * g]);
    let ghost newbnd2 = newbnd.push(bnd[g32 + cnt as int]);
    proof {
        assert(out@.subrange(0, 8) =~= header_seq()) by {
            assert(out@.subrange(0, 8) =~= out@.subrange(0, t1.len() as int).subrange(0, 8));
        }
        assert forall|y: int| 0 <= y < cnt as int - 1 implies #[trigger] cell_key(out@, mki,
            mvi, pnew, y) == pv[bnd[g32 + y + 1]].0 by {
            assert(cell_key(out@, mki, mvi, pnew, y) == mins@[g32 + 1 + y]@);
        }
        lemma_level_step(t1, out@, mki, mvi, pv, bnd, newbnd, newbnd2, start as int, ln as int,
            g as int, cnt as int);
    }
    (m0, Ghost(newbnd2))
}

/// Write one level of internal pages over the finished level of `ln` nodes
/// starting at page `start`: group `g` and onward, one page per group of up
/// to 32 nodes, accumulating the new level's minimum keys and boundaries.
#[verifier::rlimit(100)]
#[verifier::spinoff_prover]
fn build_level_rec(out: &mut Vec<u8>, mins: &Vec<Vec<u8>>, start: usize, ln: usize, g: usize, newmins: Vec<Vec<u8>>, mk: usize, mv: usize, Ghost(pv): Ghost<Seq<(Seq<u8>, Seq<u8>)>>, Ghost(bnd): Ghost<Seq<int>>, Ghost(newbnd): Ghost<Seq<int>>) -> (r: (Vec<Vec<u8>>, Ghost<Seq<int>>))
    requires
        mk >= 1,
        mv >= 1,
        32 * (mk + mv) + 10 <= usize::MAX,
        sorted_pairs(pv),
        1 <= pv.len(),
        8 + (2 * pv.len() + 1) * page_size(mk as int, mv as int) <= usize::MAX,
        2 <= ln,
        start as int + 2 * (ln as int) <= 2 * pv.len(),
        32 * g <= ln + 31,
        g >= 1 || 32 * g < ln,
        old(out)@.len() == 8 + ((start + ln + g) as int) * page_size(mk as int, mv as int),
        (old(out)@.len() - 8) % page_size(mk as int, mv as int) == 0,
        n_pages(old(out)@, mk as int, mv as int) == start + ln + g,
        old(out)@.subrange(0, 8) == header_seq(),
        mins@.len() == ln,
        bnd.len() == ln as int + 1,
        bnd[0] == 0,
        bnd[ln as int] == pv.len(),
        forall|x: int| 0 <= x < ln ==> #[trigger] bnd[x] < bnd[x + 1],
        forall|x: int| 0 <= x <= ln ==> 0 <= #[trigger] bnd[x] <= pv.len(),
        forall|x: int| 0 <= x < ln ==> (#[trigger] mins@[x])@ == pv[bnd[x]].0
            && mins@[x]@.len() == mk,
        forall|x: int| 0 <= x < ln ==> #[trigger] wf_subtree(old(out)@, mk as int, mv as int,
            start + x, Some(pv[bnd[x]].0), seg_hi(pv, bnd[x + 1])),
        forall|x: int| 0 <= x < ln ==> (#[trigger] subtree_entries(old(out)@, mk as int,
            mv as int, start + x)) == pv.subrange(bnd[x], bnd[x + 1]),
        newmins@.len() == g,
        newbnd.len() == g as int + 1,
        newbnd[0] == 0,
        32 * g <= ln ==> newbnd[g as int] == bnd[32 * g],
        32 * g > ln ==> newbnd[g as int] == bnd[ln as int],
        forall|y: int| 0 <= y < g ==> #[trigger] newbnd[y] < newbnd[y + 1],
        forall|y: int| 0 <= y <= g ==> 0 <= #[trigger] newbnd[y] <= pv.len(),
        forall|y: int| 0 <= y < g ==> (#[trigger] newmins@[y])@ == pv[newbnd[y]].0
            && newmins@[y]@.len() == mk,
        forall|y: int| 0 <= y < g ==> #[trigger] wf_subtree(old(out)@, mk as int, mv as int, (
            start + ln) as int + y, Some(pv[newbnd[y]].0), seg_hi(pv, newbnd[y + 1])),
        forall|y: int| 0 <= y < g ==> (#[trigger] subtree_entries(old(out)@, mk as int,
            mv as int, (start + ln) as int + y)) == pv.subrange(newbnd[y], newbnd[y + 1]),
    ensures
        1 <= r.0@.len(),
        2 * r.0@.len() <= ln,
        final(out)@.len() == 8 + ((start + ln + r.0@.len()) as int) * page_size(mk as int,
            mv as int),
        (final(out)@.len() - 8) % page_size(mk as int, mv as int) == 0,
        n_pages(final(out)@, mk as int, mv as int) == start + ln + r.0@.len(),
        final(out)@.subrange(0, 8) == header_seq(),
        r.1@.len() == r.0@.len() + 1,
        r.1@[0] == 0,
        r.1@[r.0@.len() as int] == pv.len(),
        forall|y: int| 0 <= y < r.0@.len() ==> #[trigger] r.1@[y] < r.1@[y + 1],
        forall|y: int| 0 <= y <= r.0@.len() ==> 0 <= #[trigger] r.1@[y] <= pv.len(),
        forall|y: int| 0 <= y < r.0@.len() ==> (#[trigger] r.0@[y])@ == pv[r.1@[y]].0
            && r.0@[y]@.len() == mk,
        forall|y: int| 0 <= y < r.0@.len() ==> #[trigger] wf_subtree(final(out)@, mk as int,
            mv as int, (start + ln) as int + y, Some(pv[r.1@[y]].0), seg_hi(pv, r.1@[y + 1])),
        forall|y: int| 0 <= y < r.0@.len() ==> (#[trigger] subtree_entries(final(out)@,
            mk as int, mv as int, (start + ln) as int + y)) == pv.subrange(r.1@[y], r.1@[y
            + 1]),
    decreases ln + 31 - 32 * g,
{
    proof {
        assert((2 * pv.len() + 1) <= (2 * pv.len() + 1) * page_size(mk as int, mv as int))
            by (nonlinear_arith)
            requires
                page_size(mk as int, mv as int) >= 1,
                pv.len() >= 0,
        ;
    }
    if 32 * g >= ln {
        proof {
            assert(2 * (g as int) <= ln as int) by (nonlinear_arith)
                requires
                    32 * (g as int) <= (ln as int) + 31,
                    32 * (g as int) >= (ln as int),
                    ln >= 2,
                    g >= 1,
            ;
        }
        return (newmins, Ghost(newbnd));
    }
    let (m0, Ghost(newbnd2)) = build_level_step(out, mins, start, ln, g, mk, mv, Ghost(pv),
        Ghost(bnd), Ghost(newbnd));
    let mut nm = newmins;
    nm.push(m0);
    build_level_rec(out, mins, start, ln, g + 1, nm, mk, mv, Ghost(pv), Ghost(bnd), Ghost(
        newbnd2))
}

/// Stack levels of internal pages over the finished leaf level until a
/// single root remains, leaving a complete well-formed tree file.
#[verifier::rlimit(100)]
fn build_upper(out: &mut Vec<u8>, mins0: Vec<Vec<u8>>, pages: usize, mk: usize, mv: usize, Ghost(pv): Ghost<Seq<(Seq<u8>, Seq<u8>)>>, Ghost(bnd0): Ghost<Seq<int>>)
    requires
        mk >= 1,
        mv >= 1,
        32 * (mk + mv) + 10 <= usize::MAX,
        sorted_pairs(pv),
        1 <= pv.len(),
        8 + (2 * pv.len() + 1) * page_size(mk as int, mv as int) <= usize::MAX,
        1 <= pages <= pv.len(),
        old(out)@.len() == 8 + (pages as int) * page_size(mk as int, mv as int),
        (old(out)@.len() - 8) % page_size(mk as int, mv as int) == 0,
        n_pages(old(out)@, mk as int, mv as int) == pages,
        old(out)@.subrange(0, 8) == header_seq(),
        mins0@.len() == pages,
        bnd0.len() == pages as int + 1,
        bnd0[0] == 0,
        bnd0[pages as int] == pv.len(),
        forall|x: int| 0 <= x < pages ==> #[trigger] bnd0[x] < bnd0[x + 1],
        forall|x: int| 0 <= x <= pages ==> 0 <= #[trigger] bnd0[x] <= pv.len(),
        forall|x: int| 0 <= x < pages ==> (#[trigger] mins0@[x])@ == pv[bnd0[x]].0
            && mins0@[x]@.len() == mk,
        forall|x: int| 0 <= x < pages ==> #[trigger] wf_subtree(old(out)@, mk as int, mv as int,
            x, Some(pv[bnd0[x]].0), seg_hi(pv, bnd0[x + 1])),
        forall|x: int| 0 <= x < pages ==> subtree_entries(old(out)@, mk as int, mv as int, x)
            == pv.subrange(#[trigger] bnd0[x], bnd0[x + 1]),
    ensures
        wf_tree(final(out)@, mk as int, mv as int),
        tree_entries(final(out)@, mk as int, mv as int) == pv,
        header_wf(final(out)@),
{
    let ghost mki = mk as int;
    let ghost mvi = mv as int;
    let ghost ps = page_size(mki, mvi);
    let ghost n = pv.len() as int;
    let ghost l0 = pages as int;
    let mut mins = mins0;
    let ghost mut bnd = bnd0;
    let mut start: usize = 0;
    let mut ln: usize = pages;
    while ln > 1
        invariant
            mk >= 1,
            mv >= 1,
            mki == mk as int,
            mvi == mv as int,
            32 * (mk + mv) + 10 <= usize::MAX,
            ps == page_size(mki, mvi),
            n == pv.len(),
            1 <= n,
            sorted_pairs(pv),
            8 + (2 * n + 1) * (ps as int) <= usize::MAX,
            1 <= ln,
            l0 <= n,
            start as int + 2 * (ln as int) <= 2 * n,
            out@.len() == 8 + ((start + ln) as int) * (ps as int),
            (out@.len() - 8) % (ps as int) == 0,
            n_pages(out@, mki, mvi) == start + ln,
            out@.subrange(0, 8) == header_seq(),
            mins@.len() == ln,
            bnd.len() == ln as int + 1,
            bnd[0] == 0,
            bnd[ln as int] == n,
            forall|x: int| 0 <= x < ln ==> #[trigger] bnd[x] < bnd[x + 1],
            forall|x: int| 0 <= x <= ln ==> 0 <= #[trigger] bnd[x] <= n,
            forall|x: int| 0 <= x < ln ==> (#[trigger] mins@[x])@ == pv[bnd[x]].0
                && mins@[x]@.len() == mk,
            forall|x: int| 0 <= x < ln ==> #[trigger] wf_subtree(out@, mki, mvi, start + x, Some(
                pv[bnd[x]].0), seg_hi(pv, bnd[x + 1])),
            forall|x: int| 0 <= x < ln ==> subtree_entries(out@, mki, mvi, start + x)
                == pv.subrange(#[trigger] bnd[x], bnd[x + 1]),
        decreases ln,
    {
        let ghost nb0: Seq<int> = seq![0int];
        let (newmins, Ghost(newbnd)) = build_level_rec(out, &mins, start, ln, 0, Vec::new(),
            mk, mv, Ghost(pv), Ghost(bnd), Ghost(nb0));
        let g = newmins.len();
        let ol = out.len();
        proof {
            assert(((start + ln) as int) <= ((start + ln + g) as int) * (ps as int))
                by (nonlinear_arith)
                requires
                    ps >= 1,
                    start + ln >= 0,
                    g >= 0,
            ;
            assert(ol as int == 8 + ((start + ln + g) as int) * (ps as int));
        }
        start = start + ln;
        ln = g;
        mins = newmins;
        proof {
            bnd = newbnd;
        }
    }
    proof {
        assert(bnd[0] == 0 && bnd[1] == n);
        assert(wf_subtree(out@, mki, mvi, start as int, Some(pv[0].0), seg_hi(pv, n)));
        lemma_wf_weaken(out@, mki, mvi, start as int, Some(pv[0].0), seg_hi(pv, n),
            None::<Seq<u8>>, None::<Seq<u8>>);
        assert(n_pages(out@, mki, mvi) == start + 1);
        assert(subtree_entries(out@, mki, mvi, start as int) == pv.subrange(0, n));
        assert(pv.subrange(0, n) =~= pv);
        assert(header_wf(out@)) by {
            assert(out@.len() >= 8);
        }
    }
}


/// The whole tree's pairs are sorted and have the fixed widths.
pub proof fn lemma_tree_entries_props(t: Seq<u8>, mk: int, mv: int)
    requires
        wf_tree(t, mk, mv),
    ensures
        sorted_pairs(tree_entries(t, mk, mv)),
        forall|i: int| 0 <= i < tree_entries(t, mk, mv).len() ==> (#[trigger] tree_entries(t,
            mk, mv)[i]).0.len() == mk && tree_entries(t, mk, mv)[i].1.len() == mv,
{
    if n_pages(t, mk, mv) > 0 {
        lemma_subtree_props(t, mk, mv, n_pages(t, mk, mv) - 1, None::<Seq<u8>>,
            None::<Seq<u8>>);
    }
}

} // verus!