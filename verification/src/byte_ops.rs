//! In-place byte moves over a mutable slice.
//!
//! Every mutation algorithm of the crate is expressed with these three
//! overlap-safe copies plus a byte-wise comparison, so the shifting logic is
//! proved once and shared by both storage representations.

use vstd::prelude::*;

verus! {

/// Copies `count` bytes from `src..src+count` down to `dst..dst+count`,
/// where `dst <= src`. Iterating forward is safe for this overlap direction:
/// a position is never read after it has been written.
pub fn copy_down(s: &mut [u8], src: usize, dst: usize, count: usize)
    requires
        dst <= src,
        src + count <= old(s)@.len(),
    ensures
        final(s)@ == old(s)@.take(dst as int) + old(s)@.subrange(src as int, src + count) + old(
            s,
        )@.skip(dst + count),
        final(s)@.len() == old(s)@.len(),
{
    let slen: usize = s.len();
    let mut i: usize = 0;
    while i < count
        invariant
            dst <= src,
            src + count <= slen,
            slen == s@.len(),
            s@.len() == old(s)@.len(),
            0 <= i <= count,
            forall|j: int| 0 <= j < i ==> #[trigger] s@[dst + j] == old(s)@[src + j],
            forall|k: int|
                0 <= k < s@.len() && !(dst <= k < dst + i) ==> #[trigger] s@[k] == old(s)@[k],
        decreases count - i,
    {
        let b: u8 = s[src + i];
        assert(b == old(s)@[src + i as int]) by {
            assert(!(dst <= src + i < dst + i));
        }
        s[dst + i] = b;
        i = i + 1;
    }
    proof {
        let r = old(s)@.take(dst as int) + old(s)@.subrange(src as int, src + count) + old(
            s,
        )@.skip(dst + count);
        assert forall|k: int| 0 <= k < s@.len() implies s@[k] == r[k] by {
            if dst <= k < dst + count {
                assert(s@[dst + (k - dst)] == old(s)@[src + (k - dst)]);
            } else {
                assert(s@[k] == old(s)@[k]);
            }
        }
        assert(s@ =~= r);
    }
}

/// Copies `count` bytes from `src..src+count` up to `dst..dst+count`,
/// where `src <= dst`. Iterating backward is safe for this overlap direction.
pub fn copy_up(s: &mut [u8], src: usize, dst: usize, count: usize)
    requires
        src <= dst,
        dst + count <= old(s)@.len(),
    ensures
        final(s)@ == old(s)@.take(dst as int) + old(s)@.subrange(src as int, src + count) + old(
            s,
        )@.skip(dst + count),
        final(s)@.len() == old(s)@.len(),
{
    let slen: usize = s.len();
    let mut i: usize = count;
    while i > 0
        invariant
            src <= dst,
            dst + count <= slen,
            slen == s@.len(),
            s@.len() == old(s)@.len(),
            0 <= i <= count,
            forall|j: int| i <= j < count ==> #[trigger] s@[dst + j] == old(s)@[src + j],
            forall|k: int|
                0 <= k < s@.len() && !(dst + i <= k < dst + count) ==> #[trigger] s@[k] == old(
                    s,
                )@[k],
        decreases i,
    {
        i = i - 1;
        let b: u8 = s[src + i];
        assert(b == old(s)@[src + i as int]) by {
            assert(!(dst + i + 1 <= src + i < dst + count));
        }
        s[dst + i] = b;
    }
    proof {
        let r = old(s)@.take(dst as int) + old(s)@.subrange(src as int, src + count) + old(
            s,
        )@.skip(dst + count);
        assert forall|k: int| 0 <= k < s@.len() implies s@[k] == r[k] by {
            if dst <= k < dst + count {
                assert(s@[dst + (k - dst)] == old(s)@[src + (k - dst)]);
            } else {
                assert(s@[k] == old(s)@[k]);
            }
        }
        assert(s@ =~= r);
    }
}

/// Copies all of `src` into `s` starting at `dst`.
pub fn copy_in(s: &mut [u8], dst: usize, src: &[u8])
    requires
        dst + src@.len() <= old(s)@.len(),
    ensures
        final(s)@ == old(s)@.take(dst as int) + src@ + old(s)@.skip(dst + src@.len()),
        final(s)@.len() == old(s)@.len(),
{
    let slen: usize = s.len();
    let n: usize = src.len();
    let mut i: usize = 0;
    while i < n
        invariant
            n == src@.len(),
            dst + n <= slen,
            slen == s@.len(),
            s@.len() == old(s)@.len(),
            0 <= i <= n,
            forall|j: int| 0 <= j < i ==> #[trigger] s@[dst + j] == src@[j],
            forall|k: int|
                0 <= k < s@.len() && !(dst <= k < dst + i) ==> #[trigger] s@[k] == old(s)@[k],
        decreases n - i,
    {
        let b: u8 = src[i];
        s[dst + i] = b;
        i = i + 1;
    }
    proof {
        let r = old(s)@.take(dst as int) + src@ + old(s)@.skip(dst + src@.len());
        assert forall|k: int| 0 <= k < s@.len() implies s@[k] == r[k] by {
            if dst <= k < dst + n {
                assert(s@[dst + (k - dst)] == src@[k - dst]);
            } else {
                assert(s@[k] == old(s)@[k]);
            }
        }
        assert(s@ =~= r);
    }
}

/// Compares two byte slices for equality.
pub fn bytes_eq(a: &[u8], b: &[u8]) -> (r: bool)
    ensures
        r <==> a@ == b@,
{
    let n: usize = a.len();
    if n != b.len() {
        proof {
            assert(a@.len() != b@.len());
        }
        return false;
    }
    let mut i: usize = 0;
    while i < n
        invariant
            n == a@.len(),
            n == b@.len(),
            0 <= i <= n,
            forall|j: int| 0 <= j < i ==> #[trigger] a@[j] == b@[j],
        decreases n - i,
    {
        if a[i] != b[i] {
            return false;
        }
        i = i + 1;
    }
    proof {
        assert(a@ =~= b@);
    }
    true
}

/// The combined effect of the shift-then-overwrite sequence used to splice
/// `rep` over the span `start..end` of the first `l` content bytes of a
/// buffer: shifting the tail `end..l` to `start+rep.len()`, then copying
/// `rep` in at `start`, leaves the spliced content in the first
/// `start + rep.len() + (l-end)` bytes.
pub proof fn lemma_splice_shift(f0: Seq<u8>, start: int, end: int, l: int, rep: Seq<u8>)
    requires
        0 <= start <= end <= l <= f0.len(),
        start + rep.len() + (l - end) <= f0.len(),
    ensures
        ({
            let rl = rep.len() as int;
            let nl = start + rl + (l - end);
            let f1 = f0.take(start + rl) + f0.subrange(end, l) + f0.skip(nl);
            let f2 = f1.take(start) + rep + f1.skip(start + rl);
            &&& f1.len() == f0.len()
            &&& f2.len() == f0.len()
            &&& f2.take(nl) == f0.take(l).take(start) + rep + f0.take(l).skip(end)
        }),
{
    let rl = rep.len() as int;
    let nl = start + rl + (l - end);
    let f1 = f0.take(start + rl) + f0.subrange(end, l) + f0.skip(nl);
    assert(f1.len() == f0.len());
    let f2 = f1.take(start) + rep + f1.skip(start + rl);
    assert(f2.len() == f0.len());
    let t = f0.take(l).take(start) + rep + f0.take(l).skip(end);
    assert(t.len() == nl);
    assert forall|k: int| 0 <= k < nl implies f2[k] == t[k] by {
        if k < start {
            assert(f2[k] == f1[k]);
            assert(f1[k] == f0[k]);
            assert(t[k] == f0.take(l).take(start)[k]);
        } else if k < start + rl {
            assert(f2[k] == rep[k - start]);
        } else {
            assert(f2[k] == f1.skip(start + rl)[k - (start + rl)]);
            assert(f1[k] == f0.subrange(end, l)[k - (start + rl)]);
            assert(f0.subrange(end, l)[k - (start + rl)] == f0[end + (k - (start + rl))]);
            assert(t[k] == f0.take(l).skip(end)[k - (start + rl)]);
            assert(f0.take(l).skip(end)[k - (start + rl)] == f0.take(l)[end + (k - (start + rl))]);
        }
    }
    assert(f2.take(nl) =~= t);
}

/// Lexicographic order on byte sequences.
pub open spec fn spec_bytes_cmp(a: Seq<u8>, b: Seq<u8>) -> core::cmp::Ordering
    decreases a.len(),
{
    if a.len() == 0 && b.len() == 0 {
        core::cmp::Ordering::Equal
    } else if a.len() == 0 {
        core::cmp::Ordering::Less
    } else if b.len() == 0 {
        core::cmp::Ordering::Greater
    } else if a[0] < b[0] {
        core::cmp::Ordering::Less
    } else if a[0] > b[0] {
        core::cmp::Ordering::Greater
    } else {
        spec_bytes_cmp(a.drop_first(), b.drop_first())
    }
}

/// Compares two byte slices lexicographically.
pub fn bytes_cmp(a: &[u8], b: &[u8]) -> (r: core::cmp::Ordering)
    ensures
        r == spec_bytes_cmp(a@, b@),
{
    let an: usize = a.len();
    let bn: usize = b.len();
    let mut i: usize = 0;
    proof {
        assert(a@.skip(0) =~= a@);
        assert(b@.skip(0) =~= b@);
    }
    while i < an && i < bn
        invariant
            an == a@.len(),
            bn == b@.len(),
            0 <= i <= an,
            0 <= i <= bn,
            spec_bytes_cmp(a@, b@) == spec_bytes_cmp(a@.skip(i as int), b@.skip(i as int)),
        decreases an - i,
    {
        let x: u8 = a[i];
        let y: u8 = b[i];
        if x < y {
            return core::cmp::Ordering::Less;
        }
        if x > y {
            return core::cmp::Ordering::Greater;
        }
        proof {
            assert(a@.skip(i as int).drop_first() =~= a@.skip(i + 1));
            assert(b@.skip(i as int).drop_first() =~= b@.skip(i + 1));
        }
        i = i + 1;
    }
    if an == bn {
        core::cmp::Ordering::Equal
    } else if an < bn {
        proof {
            assert(a@.skip(i as int).len() == 0);
        }
        core::cmp::Ordering::Less
    } else {
        proof {
            assert(b@.skip(i as int).len() == 0);
        }
        core::cmp::Ordering::Greater
    }
}

} // verus!
