//! The position algebra between outer positions (body bytes only) and inner
//! positions (bodies and checksums).
use vstd::arithmetic::div_mod::{
    lemma_div_is_ordered_by_denominator, lemma_fundamental_div_mod,
    lemma_fundamental_div_mod_converse,
};
use vstd::prelude::*;

verus! {

/// Bytes of checksum at the end of every segment.
pub const CHECKSUM_LEN: u32 = 4;

/// A segment length the algebra works with.
pub open spec fn seg_ok(s: int) -> bool {
    8 <= s <= 65536
}

/// Inner position of outer position `o`.
pub open spec fn inner_of(o: int, s: int) -> int {
    (o / (s - 4)) * s + o % (s - 4)
}

/// Outer position of inner position `i` (meaningful on body bytes).
pub open spec fn outer_of(i: int, s: int) -> int {
    (i / s) * (s - 4) + i % s
}

/// Does inner position `i` fall on the body part of its segment?
pub open spec fn on_body(i: int, s: int) -> bool {
    i % s < s - 4
}

/// Inner delta for outer delta `d` from inner position `i`.
pub open spec fn rel_of(d: int, i: int, s: int) -> int {
    d + 4 * ((i % s + d) / (s - 4))
}

/// An inner length that construction accepts: a trailing partial segment
/// holds at least one body byte and its checksum.
pub open spec fn len_ok(len: int, s: int) -> bool {
    len % s == 0 || len % s > 4
}

/// Number of body bytes in an inner store of length `len`.
pub open spec fn outer_len_of(len: int, s: int) -> int {
    (len / s) * (s - 4) + if len % s == 0 {
        0
    } else {
        len % s - 4
    }
}

/// Inner length that holds `n` body bytes.
pub open spec fn inner_len_of(n: int, s: int) -> int {
    (n / (s - 4)) * s + if n % (s - 4) == 0 {
        0
    } else {
        n % (s - 4) + 4
    }
}

/// Inner delta from the end for outer delta `d` from the end.
pub open spec fn end_rel_of(d: int, len: int, s: int) -> int {
    if len == 0 {
        rel_of(d, 0, s)
    } else {
        rel_of(d, len - 4, s) - 4
    }
}

pub open spec fn fits_u64(x: int) -> bool {
    0 <= x <= u64::MAX
}

pub open spec fn fits_i64(x: int) -> bool {
    i64::MIN <= x <= i64::MAX
}

/// `x == q * d + r` with `0 <= r < d` pins down quotient and remainder.
pub proof fn lemma_div_mod_unique(x: int, d: int, q: int, r: int)
    requires
        d > 0,
        0 <= r < d,
        x == q * d + r,
    ensures
        x / d == q,
        x % d == r,
{
    lemma_fundamental_div_mod_converse(x, d, q, r);
}

/// Floor division rounds down for negative numerators too.
proof fn lemma_floor_neg(x: int, b: int)
    requires
        b > 0,
        x <= b - 1,
    ensures
        x / b == -((b - 1 - x) / b),
{
    lemma_fundamental_div_mod(x, b);
    let q = x / b;
    let r = x % b;
    assert((b - 1 - x) == (-q) * b + (b - 1 - r)) by (nonlinear_arith)
        requires
            x == b * q + r,
    ;
    lemma_div_mod_unique(b - 1 - x, b, -q, b - 1 - r);
}

/// The two position maps invert each other: every outer position maps to a
/// body byte whose outer position it is, and every body byte maps to an
/// outer position whose inner position it is.
pub proof fn lemma_positions_invert(s: int)
    requires
        seg_ok(s),
    ensures
        forall|o: int|
            #![trigger inner_of(o, s)]
            o >= 0 ==> on_body(inner_of(o, s), s) && outer_of(inner_of(o, s), s) == o
                && inner_of(o, s) >= 0,
        forall|i: int|
            #![trigger outer_of(i, s)]
            i >= 0 && on_body(i, s) ==> inner_of(outer_of(i, s), s) == i && outer_of(i, s)
                >= 0,
{
    assert forall|o: int| o >= 0 implies on_body(inner_of(o, s), s) && outer_of(inner_of(o, s), s)
        == o && inner_of(o, s) >= 0 by {
        lemma_inner_of_parts(o, s);
    }
    assert forall|i: int| i >= 0 && on_body(i, s) implies inner_of(outer_of(i, s), s) == i
        && outer_of(i, s) >= 0 by {
        lemma_outer_of_parts(i, s);
    }
}

/// Segment and offset of the inner position of outer position `o`.
pub proof fn lemma_inner_of_parts(o: int, s: int)
    requires
        seg_ok(s),
        o >= 0,
    ensures
        inner_of(o, s) / s == o / (s - 4),
        inner_of(o, s) % s == o % (s - 4),
        on_body(inner_of(o, s), s),
        outer_of(inner_of(o, s), s) == o,
        0 <= inner_of(o, s),
        o <= inner_of(o, s),
{
    let b = s - 4;
    lemma_fundamental_div_mod(o, b);
    let q = o / b;
    let r = o % b;
    assert(q >= 0) by (nonlinear_arith)
        requires
            o >= 0,
            b > 0,
            o == b * q + r,
            r < b,
    ;
    lemma_div_mod_unique(q * s + r, s, q, r);
    assert(o <= q * s + r) by (nonlinear_arith)
        requires
            o == b * q + r,
            q >= 0,
            s == b + 4,
    ;
}

/// Outer position of a body byte `i`.
pub proof fn lemma_outer_of_parts(i: int, s: int)
    requires
        seg_ok(s),
        i >= 0,
        on_body(i, s),
    ensures
        outer_of(i, s) / (s - 4) == i / s,
        outer_of(i, s) % (s - 4) == i % s,
        inner_of(outer_of(i, s), s) == i,
        0 <= outer_of(i, s) <= i,
{
    let b = s - 4;
    lemma_fundamental_div_mod(i, s);
    let q = i / s;
    let r = i % s;
    assert(q >= 0 && q * b + r <= i && q * b + r >= 0) by (nonlinear_arith)
        requires
            i >= 0,
            s > 4,
            b == s - 4,
            i == s * q + r,
            0 <= r < s,
    ;
    lemma_div_mod_unique(q * b + r, b, q, r);
}

/// Seeks compose: from the inner position of outer position `o`, the inner
/// delta `rel_of` for outer delta `d` lands on the inner position of
/// `o + d`. So seeking to `o` from the start and then by `d` from there
/// lands where seeking to `o + d` from the start does.
pub proof fn lemma_rel_of(o: int, d: int, s: int)
    requires
        seg_ok(s),
        o >= 0,
        o + d >= 0,
    ensures
        inner_of(o, s) + rel_of(d, inner_of(o, s), s) == inner_of(o + d, s),
{
    let b = s - 4;
    lemma_inner_of_parts(o, s);
    let q = o / b;
    let r = o % b;
    lemma_fundamental_div_mod(o, b);
    lemma_fundamental_div_mod(r + d, b);
    let q2 = (r + d) / b;
    let r2 = (r + d) % b;
    assert(o + d == (q + q2) * b + r2) by (nonlinear_arith)
        requires
            o == b * q + r,
            r + d == b * q2 + r2,
    ;
    lemma_div_mod_unique(o + d, b, q + q2, r2);
    assert(q * s + r + (d + 4 * q2) == (q + q2) * s + r2) by (nonlinear_arith)
        requires
            r + d == b * q2 + r2,
            s == b + 4,
    ;
}

/// Moving by an outer delta from the end of the data.
pub proof fn lemma_end_rel_of(len: int, d: int, s: int)
    requires
        seg_ok(s),
        len >= 0,
        len_ok(len, s),
        outer_len_of(len, s) + d >= 0,
    ensures
        len + end_rel_of(d, len, s) == inner_of(outer_len_of(len, s) + d, s),
        inner_of(outer_len_of(len, s), s) == if len % s == 0 {
            len
        } else {
            len - 4
        },
{
    let b = s - 4;
    lemma_fundamental_div_mod(len, s);
    let k = len / s;
    let m = len % s;
    assert(k >= 0) by (nonlinear_arith)
        requires
            len >= 0,
            len == s * k + m,
            0 <= m < s,
    ;
    if len == 0 {
        lemma_div_mod_unique(0, s, 0, 0);
        assert(outer_len_of(0, s) == 0);
        lemma_rel_of(0, d, s);
        assert(inner_of(0, s) == 0);
    } else if m == 0 {
        // the last segment is full: start from its last body byte
        let o = k * b - 1;
        assert(k >= 1) by (nonlinear_arith)
            requires
                len == s * k,
                len > 0,
                s > 0,
        ;
        assert(o >= 0) by (nonlinear_arith)
            requires
                k >= 1,
                b >= 4,
                o == k * b - 1,
        ;
        lemma_inner_of_parts(o, s);
        assert(o == (k - 1) * b + (b - 1)) by (nonlinear_arith)
            requires
                o == k * b - 1,
        ;
        lemma_div_mod_unique(o, b, k - 1, b - 1);
        assert(inner_of(o, s) == len - 5) by (nonlinear_arith)
            requires
                inner_of(o, s) == (k - 1) * s + b - 1,
                len == s * k,
                b == s - 4,
        ;
        assert(outer_len_of(len, s) == k * b);
        lemma_rel_of(o, d + 1, s);
        assert(len - 4 == (k - 1) * s + b && len - 5 == (k - 1) * s + (b - 1)) by (nonlinear_arith)
            requires
                len == s * k,
                b == s - 4,
        ;
        lemma_div_mod_unique(len - 4, s, k - 1, b);
        lemma_div_mod_unique(len - 5, s, k - 1, b - 1);
        assert(rel_of(d, len - 4, s) == rel_of(d + 1, len - 5, s) - 1);
        assert(k * b == k * b + 0);
        lemma_div_mod_unique(k * b, b, k, 0);
        assert(inner_of(k * b, s) == len) by (nonlinear_arith)
            requires
                inner_of(k * b, s) == k * s + 0,
                len == s * k,
        ;
    } else {
        // a partial last segment: start from the end of its body
        let o = k * b + (m - 4);
        lemma_div_mod_unique(o, b, k, m - 4);
        assert(inner_of(o, s) == len - 4) by (nonlinear_arith)
            requires
                inner_of(o, s) == k * s + (m - 4),
                len == s * k + m,
        ;
        lemma_rel_of(o, d, s);
    }
}

/// Within one body, outer and inner positions advance together; one past
/// the end of the body the inner position has also skipped the checksum.
pub proof fn lemma_same_segment(o: int, j: int, s: int)
    requires
        seg_ok(s),
        o >= 0,
        0 <= j <= (s - 4) - o % (s - 4),
    ensures
        j < (s - 4) - o % (s - 4) ==> inner_of(o + j, s) == inner_of(o, s) + j,
        j == (s - 4) - o % (s - 4) ==> inner_of(o + j, s) == inner_of(o, s) + j + 4,
        (inner_of(o, s) + j) % s == o % (s - 4) + j,
        (inner_of(o, s) + j) / s == o / (s - 4),
{
    let b = s - 4;
    lemma_fundamental_div_mod(o, b);
    let q = o / b;
    let r = o % b;
    lemma_inner_of_parts(o, s);
    assert(inner_of(o, s) + j == q * s + (r + j));
    lemma_div_mod_unique(inner_of(o, s) + j, s, q, r + j);
    if j < b - r {
        assert(o + j == q * b + (r + j));
        lemma_div_mod_unique(o + j, b, q, r + j);
    } else {
        assert(o + j == (q + 1) * b + 0) by (nonlinear_arith)
            requires
                o == b * q + r,
                j == b - r,
        ;
        lemma_div_mod_unique(o + j, b, q + 1, 0);
        assert((q + 1) * s == q * s + s) by (nonlinear_arith);
    }
}

/// Outer positions short of the end have inner positions short of the end.
pub proof fn lemma_inner_of_below_len(x: int, len: int, s: int)
    requires
        seg_ok(s),
        len >= 0,
        len_ok(len, s),
        0 <= x < outer_len_of(len, s),
    ensures
        0 <= inner_of(x, s) < len,
{
    lemma_inner_of_parts(x, s);
    lemma_rel_of(x, 1, s);
    let y = inner_of(x, s) % s + 1;
    assert(y / (s - 4) >= 0) by {
        vstd::arithmetic::div_mod::lemma_div_pos_is_pos(y, s - 4);
    }
    lemma_end_rel_of(len, 0, s);
    lemma_inner_of_mono(x + 1, outer_len_of(len, s), s);
}

/// Outer positions further on have inner positions further on.
pub proof fn lemma_inner_of_mono(o1: int, o2: int, s: int)
    requires
        seg_ok(s),
        0 <= o1 <= o2,
    ensures
        inner_of(o1, s) <= inner_of(o2, s),
{
    lemma_rel_of(o1, o2 - o1, s);
    lemma_inner_of_parts(o1, s);
    let x = inner_of(o1, s) % s + (o2 - o1);
    assert(x / (s - 4) >= 0) by {
        vstd::arithmetic::div_mod::lemma_div_pos_is_pos(x, s - 4);
    }
}

/// Inner position of outer position `o`, if it fits.
pub fn start_pos_of(seg_len: u32, o: u64) -> (r: Option<u64>)
    requires
        seg_ok(seg_len as int),
    ensures
        r == if fits_u64(inner_of(o as int, seg_len as int)) {
            Some(inner_of(o as int, seg_len as int) as u64)
        } else {
            None::<u64>
        },
{
    let b = (seg_len - CHECKSUM_LEN) as u64;
    let seg = o / b;
    let off = o % b;
    match seg.checked_mul(seg_len as u64) {
        Some(v) => v.checked_add(off),
        None => {
            proof {
                assert(seg * seg_len + off > u64::MAX) by (nonlinear_arith)
                    requires
                        seg * seg_len > u64::MAX,
                        off >= 0,
                ;
            }
            None
        },
    }
}

/// Outer position of inner position `i`, or `None` on a checksum byte.
pub fn outer_pos_of(seg_len: u32, i: u64) -> (r: Option<u64>)
    requires
        seg_ok(seg_len as int),
    ensures
        r == if on_body(i as int, seg_len as int) {
            Some(outer_of(i as int, seg_len as int) as u64)
        } else {
            None::<u64>
        },
{
    let s = seg_len as u64;
    let b = (seg_len - CHECKSUM_LEN) as u64;
    let off = i % s;
    if off >= b {
        None
    } else {
        proof {
            lemma_outer_of_parts(i as int, s as int);
        }
        Some((i / s) * b + off)
    }
}

/// Inner delta for outer delta `d` from inner position `i`, if it fits.
pub fn rel_pos_of(seg_len: u32, d: i64, i: u64) -> (r: Option<i64>)
    requires
        seg_ok(seg_len as int),
        (i as int) % (seg_len as int) <= seg_len - 4,
    ensures
        r == if fits_i64(rel_of(d as int, i as int, seg_len as int)) {
            Some(rel_of(d as int, i as int, seg_len as int) as i64)
        } else {
            None::<i64>
        },
{
    let b = (seg_len - CHECKSUM_LEN) as u64;
    let off = i % (seg_len as u64);
    let q: i64;
    if d >= 0 {
        let n = d as u64 + off;
        proof {
            lemma_div_is_ordered_by_denominator(n as int, 4, b as int);
        }
        q = (n / b) as i64;
    } else {
        let nd: u64 = (-(d + 1)) as u64 + 1;
        let m = (nd + b - 1) - off;
        proof {
            lemma_floor_neg(off + d, b as int);
            lemma_div_is_ordered_by_denominator(m as int, 4, b as int);
        }
        q = -((m / b) as i64);
    }
    match q.checked_mul(4) {
        Some(skip) => d.checked_add(skip),
        None => None,
    }
}

/// Number of body bytes in an inner store of length `len`.
pub fn outer_len_from(seg_len: u32, len: u64) -> (r: u64)
    requires
        seg_ok(seg_len as int),
        len_ok(len as int, seg_len as int),
    ensures
        r == outer_len_of(len as int, seg_len as int),
{
    let s = seg_len as u64;
    let b = (seg_len - CHECKSUM_LEN) as u64;
    let m = len % s;
    proof {
        lemma_fundamental_div_mod(len as int, s as int);
        assert((len / s) * b + m <= len) by (nonlinear_arith)
            requires
                len == s * (len / s) + m,
                b <= s,
                len / s >= 0,
        ;
    }
    if m == 0 {
        (len / s) * b
    } else {
        (len / s) * b + (m - CHECKSUM_LEN as u64)
    }
}

} // verus!
