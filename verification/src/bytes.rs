use vstd::prelude::*;

verus! {

/// A sequence of `n` zero bytes (empty when `n <= 0`).
pub open spec fn zeros(n: int) -> Seq<u8> {
    Seq::new(if n >= 0 { n as nat } else { 0 }, |i: int| 0u8)
}

/// `b` padded with zero bytes up to width `w` (unchanged when already wider).
pub open spec fn pad(b: Seq<u8>, w: int) -> Seq<u8> {
    b + zeros(w - b.len())
}

/// Copy `v[start .. start + n]` into a fresh vector.
pub fn slice_range(v: &Vec<u8>, start: usize, n: usize) -> (r: Vec<u8>)
    requires
        start + n <= v.len(),
    ensures
        r@ == v@.subrange(start as int, start as int + n as int),
{
    let mut r: Vec<u8> = Vec::new();
    let mut i: usize = 0;
    while i < n
        invariant
            start + n <= v.len(),
            i <= n,
            r@ == v@.subrange(start as int, start as int + i as int),
        decreases n - i,
    {
        r.push(v[start + i]);
        proof {
            assert(r@ =~= v@.subrange(start as int, start as int + i as int + 1));
        }
        i = i + 1;
    }
    r
}

/// Append all of `src` to `dst`.
pub fn push_bytes(dst: &mut Vec<u8>, src: &Vec<u8>)
    ensures
        final(dst)@ == old(dst)@ + src@,
{
    let mut i: usize = 0;
    while i < src.len()
        invariant
            i <= src.len(),
            dst@ == old(dst)@ + src@.subrange(0, i as int),
        decreases src.len() - i,
    {
        dst.push(src[i]);
        proof {
            assert(dst@ =~= old(dst)@ + src@.subrange(0, i as int + 1));
        }
        i = i + 1;
    }
    proof {
        assert(dst@ =~= old(dst)@ + src@);
    }
}

/// A fresh copy of the byte vector.
pub fn clone_bytes(v: &Vec<u8>) -> (r: Vec<u8>)
    ensures
        r@ == v@,
{
    let r = slice_range(v, 0, v.len());
    proof {
        assert(v@.subrange(0, v@.len() as int) =~= v@);
    }
    r
}

/// `b` extended with zero bytes to exactly width `w`.
pub fn pad_to(b: &Vec<u8>, w: usize) -> (r: Vec<u8>)
    requires
        b.len() <= w,
    ensures
        r@ == pad(b@, w as int),
        r@.len() == w,
{
    let mut r: Vec<u8> = Vec::new();
    push_bytes(&mut r, b);
    proof {
        assert(r@ =~= b@ + zeros(0));
    }
    let mut i: usize = b.len();
    while i < w
        invariant
            b.len() <= i <= w,
            r@ == b@ + zeros(i - b.len()),
        decreases w - i,
    {
        r.push(0u8);
        proof {
            assert(r@ =~= b@ + zeros(i + 1 - b.len()));
        }
        i = i + 1;
    }
    proof {
        assert(r@ =~= pad(b@, w as int));
    }
    r
}

} // verus!
