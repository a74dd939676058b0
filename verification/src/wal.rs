use vstd::prelude::*;
use crate::bytes::push_bytes;

verus! {

/// The fixed slot width of a log with the given budgets.
pub open spec fn slot_size(mk: int, mv: int) -> int {
    mk + mv
}

/// A log file is a whole number of fixed-size slots.
pub open spec fn log_wf(log: Seq<u8>, mk: int, mv: int) -> bool {
    log.len() as int % slot_size(mk, mv) == 0
}

/// The records a log file holds: slot `i` is the padded key bytes followed
/// by the padded value bytes, at offset `i * (mk + mv)`.
pub open spec fn log_records(log: Seq<u8>, mk: int, mv: int) -> Seq<(Seq<u8>, Seq<u8>)> {
    Seq::new((log.len() as int / slot_size(mk, mv)) as nat, |i: int| (log.subrange(i * (mk + mv),
        i * (mk + mv) + mk), log.subrange(i * (mk + mv) + mk, (i + 1) * (mk + mv))))
}

/// Appending one slot appends exactly one record.
pub proof fn lemma_log_append(log: Seq<u8>, kb: Seq<u8>, vb: Seq<u8>, mk: int, mv: int)
    requires
        mk >= 1,
        mv >= 1,
        log_wf(log, mk, mv),
        kb.len() == mk,
        vb.len() == mv,
    ensures
        log_wf(log + kb + vb, mk, mv),
        log_records(log + kb + vb, mk, mv) == log_records(log, mk, mv).push((kb, vb)),
{
    let s = mk + mv;
    let n = log.len() as int / s;
    vstd::arithmetic::div_mod::lemma_fundamental_div_mod(log.len() as int, s);
    assert(log.len() == s * n);
    let l2 = log + kb + vb;
    crate::tree::lemma_exact_div(n + 1, s);
    assert(l2.len() == (n + 1) * s) by (nonlinear_arith)
        requires
            l2.len() == log.len() + s,
            log.len() == s * n,
    ;
    assert(log_wf(l2, mk, mv));
    assert(l2.len() as int / s == n + 1);
    assert forall|i: int| 0 <= i < n implies #[trigger] log_records(l2, mk, mv)[i]
        == log_records(log, mk, mv)[i] by {
        assert((i + 1) * s <= n * s && 0 <= i * s && (i + 1) * s == i * s + s)
            by (nonlinear_arith)
            requires
                0 <= i < n,
                s >= 2,
        ;
        assert(l2.subrange(i * s, i * s + mk) =~= log.subrange(i * s, i * s + mk));
        assert(l2.subrange(i * s + mk, (i + 1) * s) =~= log.subrange(i * s + mk, (i + 1) * s));
    }
    assert(log_records(l2, mk, mv)[n as int] == (kb, vb)) by {
        assert((n + 1) * s == n * s + s && n * s == s * n) by (nonlinear_arith);
        assert(l2.subrange(n * s, n * s + mk) =~= kb);
        assert(l2.subrange(n * s + mk, (n + 1) * s) =~= vb);
    }
    assert(log_records(l2, mk, mv) =~= log_records(log, mk, mv).push((kb, vb)));
}

/// Append one fixed-size slot, the padded key then the padded value, at the
/// end of the log bytes.
pub fn append_slot(log: &mut Vec<u8>, kb: &Vec<u8>, vb: &Vec<u8>, mk: usize, mv: usize)
    requires
        mk >= 1,
        mv >= 1,
        kb.len() == mk,
        vb.len() == mv,
        log_wf(old(log)@, mk as int, mv as int),
        old(log)@.len() + mk + mv <= usize::MAX,
    ensures
        final(log)@ == old(log)@ + kb@ + vb@,
        final(log)@.len() == old(log)@.len() + mk + mv,
        log_wf(final(log)@, mk as int, mv as int),
        log_records(final(log)@, mk as int, mv as int) == log_records(old(log)@, mk as int,
            mv as int).push((kb@, vb@)),
{
    push_bytes(log, kb);
    push_bytes(log, vb);
    proof {
        assert(log@ =~= old(log)@ + kb@ + vb@);
        lemma_log_append(old(log)@, kb@, vb@, mk as int, mv as int);
    }
}

/// Every record of a well-formed log has the fixed part widths.
pub proof fn lemma_log_record_lens(w: Seq<u8>, mk: int, mv: int)
    requires
        mk >= 1,
        mv >= 1,
        log_wf(w, mk, mv),
    ensures
        forall|i: int| 0 <= i < log_records(w, mk, mv).len() ==> (#[trigger] log_records(w, mk,
            mv)[i]).0.len() == mk && log_records(w, mk, mv)[i].1.len() == mv,
{
    let s = mk + mv;
    let n = w.len() as int / s;
    vstd::arithmetic::div_mod::lemma_fundamental_div_mod(w.len() as int, s);
    assert forall|i: int| 0 <= i < log_records(w, mk, mv).len() implies (#[trigger] log_records(
        w, mk, mv)[i]).0.len() == mk && log_records(w, mk, mv)[i].1.len() == mv by {
        assert(0 <= i * s && (i + 1) * s <= n * s && (i + 1) * s == i * s + s && n * s == s * n)
            by (nonlinear_arith)
            requires
                0 <= i < n,
                s >= 2,
        ;
    }
}

} // verus!
