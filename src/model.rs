//! The segment structure of an inner byte sequence: bodies, stored
//! checksums, and the outer bytes that the bodies make up.
use vstd::prelude::*;

use crate::crc::{be_bytes, crc32_of};
use crate::inner::overwrite;
use crate::layout::{
    inner_len_of, inner_of, lemma_div_mod_unique, lemma_inner_of_below_len, lemma_inner_of_parts,
    lemma_outer_of_parts, len_ok, outer_len_of, outer_of, seg_ok,
};
use vstd::arithmetic::div_mod::lemma_fundamental_div_mod;

verus! {

/// Number of segments, the last one possibly partial.
pub open spec fn num_segs(len: int, s: int) -> int {
    (len + s - 1) / s
}

/// End of segment `k`.
pub open spec fn seg_end(len: int, s: int, k: int) -> int {
    if (k + 1) * s < len {
        (k + 1) * s
    } else {
        len
    }
}

/// The body of segment `k`.
pub open spec fn seg_body(d: Seq<u8>, s: int, k: int) -> Seq<u8> {
    d.subrange(k * s, seg_end(d.len() as int, s, k) - 4)
}

/// The checksum stored at the end of segment `k`.
pub open spec fn seg_sum(d: Seq<u8>, s: int, k: int) -> Seq<u8> {
    let e = seg_end(d.len() as int, s, k);
    d.subrange(e - 4, e)
}

/// Does segment `k` store the checksum of its body?
pub open spec fn seg_valid(d: Seq<u8>, s: int, k: int) -> bool {
    seg_sum(d, s, k) == be_bytes(crc32_of(seg_body(d, s, k)))
}

/// Indices of the segments among the first `n` that fail, ascending.
pub open spec fn bad_segs(d: Seq<u8>, s: int, n: nat) -> Seq<u64>
    decreases n,
{
    if n == 0 {
        Seq::empty()
    } else if seg_valid(d, s, n - 1) {
        bad_segs(d, s, (n - 1) as nat)
    } else {
        bad_segs(d, s, (n - 1) as nat).push((n - 1) as u64)
    }
}

/// Does every segment store the checksum of its body?
pub open spec fn all_valid(d: Seq<u8>, s: int) -> bool {
    forall|k: int| 0 <= k < num_segs(d.len() as int, s) ==> #[trigger] seg_valid(d, s, k)
}

/// The outer bytes: the bodies, in order.
pub open spec fn content(d: Seq<u8>, s: int) -> Seq<u8> {
    Seq::new(outer_len_of(d.len() as int, s) as nat, |o: int| d[inner_of(o, s)])
}

/// The body of segment `k` within outer bytes `c`.
pub open spec fn body_of(c: Seq<u8>, s: int, k: int) -> Seq<u8> {
    let b = s - 4;
    if (k + 1) * b < c.len() {
        c.subrange(k * b, (k + 1) * b)
    } else {
        c.subrange(k * b, c.len() as int)
    }
}

/// Is segment `k` rewritten when `n` outer bytes are written at `o`?
pub open spec fn touched(o: int, n: int, s: int, k: int) -> bool {
    n > 0 && o / (s - 4) <= k <= (o + n - 1) / (s - 4)
}

/// The inner bytes after writing `w` at outer position `o` of `d`: the
/// outer bytes spliced, every rewritten segment with the checksum of its new
/// body, every other segment as it was.
#[verifier::opaque]
pub open spec fn written(d: Seq<u8>, s: int, o: int, w: Seq<u8>) -> Seq<u8> {
    let c = overwrite(content(d, s), o, w);
    Seq::new(
        inner_len_of(c.len() as int, s) as nat,
        |j: int|
            {
                let k = j / s;
                let body = body_of(c, s, k);
                if j % s < body.len() {
                    c[outer_of(j, s)]
                } else if touched(o, w.len() as int, s, k) {
                    be_bytes(crc32_of(body))[j - k * s - body.len()]
                } else {
                    d[j]
                }
            },
    )
}

/// Lengths: `n` body bytes need `inner_len_of(n)` inner bytes, an accepted
/// inner length, which holds `n` body bytes.
pub proof fn lemma_inner_len_of(n: int, s: int)
    requires
        seg_ok(s),
        n >= 0,
    ensures
        inner_len_of(n, s) >= n,
        len_ok(inner_len_of(n, s), s),
        outer_len_of(inner_len_of(n, s), s) == n,
{
    let b = s - 4;
    lemma_fundamental_div_mod(n, b);
    let q = n / b;
    let r = n % b;
    assert(q >= 0) by (nonlinear_arith)
        requires
            n >= 0,
            n == b * q + r,
            0 <= r < b,
            b > 0,
    ;
    assert(q * s >= q * b) by (nonlinear_arith)
        requires
            q >= 0,
            s == b + 4,
    ;
    if r == 0 {
        lemma_div_mod_unique(q * s, s, q, 0);
    } else {
        lemma_div_mod_unique(q * s + r + 4, s, q, r + 4);
    }
}

/// An accepted inner length is the inner length of its body bytes.
pub proof fn lemma_outer_len_of(len: int, s: int)
    requires
        seg_ok(s),
        len >= 0,
        len_ok(len, s),
    ensures
        inner_len_of(outer_len_of(len, s), s) == len,
        0 <= outer_len_of(len, s) <= len,
{
    let b = s - 4;
    lemma_fundamental_div_mod(len, s);
    let k = len / s;
    let m = len % s;
    assert(k >= 0 && k * b <= k * s) by (nonlinear_arith)
        requires
            len >= 0,
            len == s * k + m,
            0 <= m < s,
            b == s - 4,
    ;
    if m == 0 {
        lemma_div_mod_unique(k * b, b, k, 0);
    } else {
        lemma_div_mod_unique(k * b + m - 4, b, k, m - 4);
    }
}

/// Where inner position `j` falls, with respect to outer bytes `c`: in the
/// body of its segment exactly when it is a body byte within `c`.
pub proof fn lemma_body_test(c: Seq<u8>, s: int, j: int)
    requires
        seg_ok(s),
        0 <= j < inner_len_of(c.len() as int, s),
    ensures
        (j / s) * (s - 4) <= c.len(),
        body_of(c, s, j / s).len() == if ((j / s) + 1) * (s - 4) < c.len() {
            s - 4
        } else {
            c.len() - (j / s) * (s - 4)
        },
        (j % s < body_of(c, s, j / s).len()) == (j % s < s - 4 && outer_of(j, s) < c.len()),
        j % s < body_of(c, s, j / s).len() + 4,
{
    let b = s - 4;
    let n = c.len() as int;
    lemma_fundamental_div_mod(j, s);
    lemma_fundamental_div_mod(n, b);
    let k = j / s;
    let t = j % s;
    let q = n / b;
    let r = n % b;
    assert(k >= 0 && q >= 0) by (nonlinear_arith)
        requires
            j >= 0,
            n >= 0,
            j == s * k + t,
            0 <= t < s,
            n == b * q + r,
            0 <= r < b,
            b > 0,
    ;
    // j < inner_len_of(n): either k < q, or k == q and t < r + 4 (r > 0)
    if k > q {
        assert(s * k >= q * s + s) by (nonlinear_arith)
            requires
                k >= q + 1,
                s > 0,
        ;
    }
    if k == q {
        assert(s * k == q * s) by (nonlinear_arith)
            requires
                k == q,
        ;
    }
    assert(k * b <= n) by (nonlinear_arith)
        requires
            k < q || k == q,
            k >= 0,
            n == b * q + r,
            r >= 0,
            b > 0,
    ;
    assert((k + 1) * b == k * b + b) by (nonlinear_arith);
    assert(q * b == b * q) by (nonlinear_arith);
    if k < q {
        assert(k * b + b <= q * b) by (nonlinear_arith)
            requires
                k < q,
                b > 0,
        ;
    }
}

/// Writing outer bytes changes the outer bytes as asked.
pub proof fn lemma_content_written(d: Seq<u8>, s: int, o: int, w: Seq<u8>)
    requires
        seg_ok(s),
        len_ok(d.len() as int, s),
        0 <= o <= outer_len_of(d.len() as int, s),
    ensures
        content(written(d, s, o, w), s) == overwrite(content(d, s), o, w),
        written(d, s, o, w).len() == inner_len_of(overwrite(content(d, s), o, w).len() as int, s),
        len_ok(written(d, s, o, w).len() as int, s),
{
    reveal(written);
    let c = overwrite(content(d, s), o, w);
    let x = written(d, s, o, w);
    lemma_inner_len_of(c.len() as int, s);
    assert forall|p: int| 0 <= p < c.len() implies #[trigger] content(x, s)[p] == c[p] by {
        lemma_inner_of_parts(p, s);
        lemma_inner_of_below_len(p, x.len() as int, s);
        lemma_body_test(c, s, inner_of(p, s));
    }
    assert(content(x, s) =~= c);
}

/// Writing nothing changes nothing.
pub proof fn lemma_written_nothing(d: Seq<u8>, s: int, o: int)
    requires
        seg_ok(s),
        len_ok(d.len() as int, s),
        0 <= o <= outer_len_of(d.len() as int, s),
    ensures
        written(d, s, o, Seq::empty()) == d,
{
    reveal(written);
    let c = content(d, s);
    lemma_outer_len_of(d.len() as int, s);
    assert(overwrite(c, o, Seq::empty()) =~= c);
    let x = written(d, s, o, Seq::empty());
    assert forall|j: int| 0 <= j < d.len() implies #[trigger] x[j] == d[j] by {
        lemma_body_test(c, s, j);
        if j % s < s - 4 && outer_of(j, s) < c.len() {
            lemma_outer_of_parts(j, s);
        }
    }
    assert(x =~= d);
}

/// More body bytes never need fewer inner bytes.
pub proof fn lemma_inner_len_mono(m1: int, m2: int, s: int)
    requires
        seg_ok(s),
        0 <= m1 <= m2,
    ensures
        inner_len_of(m1, s) <= inner_len_of(m2, s),
{
    let b = s - 4;
    lemma_fundamental_div_mod(m1, b);
    lemma_fundamental_div_mod(m2, b);
    let q1 = m1 / b;
    let q2 = m2 / b;
    vstd::arithmetic::div_mod::lemma_div_is_ordered(m1, m2, b);
    if q1 < q2 {
        assert(q1 * s + s <= q2 * s) by (nonlinear_arith)
            requires
                q1 + 1 <= q2,
                s > 0,
        ;
        assert(q2 * s >= 0) by (nonlinear_arith)
            requires
                q2 >= 0,
                s > 0,
        ;
    } else {
        assert(q1 * b == q2 * b);
    }
}

} // verus!
