//! How one segment's rewrite moves the inner bytes from one prefix of a
//! write to the next.
use vstd::arithmetic::div_mod::{lemma_div_is_ordered, lemma_fundamental_div_mod};
use vstd::prelude::*;

use crate::crc::{be_bytes, crc32_of};
use crate::inner::overwrite;
use crate::layout::{
    inner_len_of, inner_of, lemma_div_mod_unique, len_ok, outer_len_of, seg_ok,
};
use crate::model::{
    all_valid, body_of, content, lemma_body_test, lemma_content_written, lemma_inner_len_mono,
    lemma_inner_len_of, lemma_outer_len_of, lemma_written_nothing, num_segs, seg_body, seg_end, seg_sum,
    seg_valid, touched, written,
};

verus! {

/// Segment and offset of an inner position inside segment `k`.
pub proof fn lemma_seg_index(j: int, s: int, k: int)
    requires
        s > 0,
        k * s <= j < k * s + s,
    ensures
        j / s == k,
        j % s == j - k * s,
{
    lemma_div_mod_unique(j, s, k, j - k * s);
}

/// An inner position outside segment `k` lies in an earlier or later one.
pub proof fn lemma_other_seg(j: int, s: int, k: int)
    requires
        seg_ok(s),
        j >= 0,
        k >= 0,
        j < k * s || j >= k * s + s,
    ensures
        j / s != k,
        j < k * s ==> j / s < k,
        j >= k * s + s ==> j / s > k,
        j / s < k ==> (j / s) * (s - 4) + (s - 4) <= k * (s - 4),
        j / s > k ==> (j / s) * (s - 4) >= k * (s - 4) + (s - 4),
        j / s >= 0,
{
    lemma_fundamental_div_mod(j, s);
    let q = j / s;
    let t = j % s;
    assert(q >= 0) by (nonlinear_arith)
        requires
            j >= 0,
            j == s * q + t,
            0 <= t < s,
            s > 0,
    ;
    if q == k {
        assert(s * q == k * s) by (nonlinear_arith)
            requires
                q == k,
        ;
    }
    if q < k {
        assert(s * q + s <= k * s) by (nonlinear_arith)
            requires
                q + 1 <= k,
                s > 0,
        ;
    }
    if q > k {
        assert(s * q >= k * s + s) by (nonlinear_arith)
            requires
                q >= k + 1,
                s > 0,
        ;
    }
    if q < k {
        assert(q * (s - 4) + (s - 4) <= k * (s - 4)) by (nonlinear_arith)
            requires
                q + 1 <= k,
                s > 4,
        ;
    }
    if q > k {
        assert(q * (s - 4) >= k * (s - 4) + (s - 4)) by (nonlinear_arith)
            requires
                q >= k + 1,
                s > 4,
        ;
    }
}

/// `overwrite` keeps what lies outside the written range and puts the new
/// bytes inside it.
pub proof fn lemma_overwrite_index(a: Seq<u8>, at: int, w: Seq<u8>, x: int)
    requires
        0 <= at <= a.len(),
        0 <= x < overwrite(a, at, w).len(),
    ensures
        overwrite(a, at, w).len() == if at + w.len() > a.len() {
            at + w.len()
        } else {
            a.len() as int
        },
        at <= x < at + w.len() ==> overwrite(a, at, w)[x] == w[x - at],
        !(at <= x < at + w.len()) ==> overwrite(a, at, w)[x] == a[x],
{
}

/// Length of the body of segment `k` among `cl` outer bytes.
pub open spec fn body_len_at(cl: int, s: int, k: int) -> int {
    if (k + 1) * (s - 4) < cl {
        s - 4
    } else {
        cl - k * (s - 4)
    }
}

/// Where the body of segment `k` ends in the inner bytes that hold `cl`
/// outer bytes, read off their length.
pub proof fn lemma_body_end(cl: int, s: int, k: int)
    requires
        seg_ok(s),
        k >= 0,
        k * (s - 4) <= cl,
    ensures
        ({
            let l = inner_len_of(cl, s);
            let bl = body_len_at(cl, s, k);
            let ss = k * s;
            &&& 0 <= bl <= s - 4
            &&& ss + bl <= l
            &&& ss + bl == if ss < l {
                (if ss + s < l {
                    ss + s
                } else {
                    l
                }) - 4
            } else {
                ss
            }
            &&& bl < s - 4 && bl > 0 ==> l == ss + bl + 4
            &&& bl == 0 ==> l == ss
            &&& bl == s - 4 ==> l >= ss + s
            &&& cl == (k + 1) * (s - 4) ==> l == ss + s
            &&& cl > (k + 1) * (s - 4) ==> l > ss + s
            &&& cl < (k + 1) * (s - 4) ==> l < ss + s
        }),
{
    let b = s - 4;
    let ss = k * s;
    assert((k + 1) * b == k * b + b) by (nonlinear_arith);
    assert((k + 1) * s == ss + s) by (nonlinear_arith)
        requires
            ss == k * s,
    ;
    assert(ss == k * b + 4 * k) by (nonlinear_arith)
        requires
            ss == k * s,
            s == b + 4,
    ;
    lemma_fundamental_div_mod(cl, b);
    let q = cl / b;
    let m = cl % b;
    if (k + 1) * b < cl {
        assert(q >= k + 1) by {
            lemma_div_mod_unique((k + 1) * b, b, k + 1, 0);
            lemma_div_is_ordered((k + 1) * b, cl, b);
        }
        assert(q * s >= (k + 1) * s) by (nonlinear_arith)
            requires
                q >= k + 1,
                s > 0,
        ;
        if q == k + 1 {
            assert(m > 0) by (nonlinear_arith)
                requires
                    q == k + 1,
                    cl == b * q + m,
                    (k + 1) * b < cl,
            ;
        } else {
            assert(q * s >= (k + 2) * s) by (nonlinear_arith)
                requires
                    q >= k + 2,
                    s > 0,
            ;
            assert((k + 2) * s == ss + s + s) by (nonlinear_arith)
                requires
                    ss == k * s,
            ;
        }
    } else if (k + 1) * b == cl {
        lemma_div_mod_unique(cl, b, k + 1, 0);
    } else if k * b < cl {
        lemma_div_mod_unique(cl, b, k, cl - k * b);
    } else {
        lemma_div_mod_unique(cl, b, k, 0);
    }
}

/// The body bytes of segment `k` in the written inner bytes are the
/// corresponding outer bytes.
pub proof fn lemma_written_body(d: Seq<u8>, s: int, o: int, w: Seq<u8>, k: int, t: int)
    requires
        seg_ok(s),
        len_ok(d.len() as int, s),
        0 <= o <= outer_len_of(d.len() as int, s),
        k >= 0,
        k * (s - 4) <= overwrite(content(d, s), o, w).len(),
        0 <= t < body_of(overwrite(content(d, s), o, w), s, k).len(),
    ensures
        k * s + t < written(d, s, o, w).len(),
        written(d, s, o, w)[k * s + t] == overwrite(content(d, s), o, w)[k * (s - 4) + t],
{
    reveal(written);
    let cc = overwrite(content(d, s), o, w);
    lemma_content_written(d, s, o, w);
    lemma_body_end(cc.len() as int, s, k);
    assert((k + 1) * (s - 4) == k * (s - 4) + (s - 4)) by (nonlinear_arith);
    assert(body_of(cc, s, k).len() == body_len_at(cc.len() as int, s, k));
    lemma_seg_index(k * s + t, s, k);
}

/// Rewriting one segment: the segment of outer position `o + i` gets the
/// next `c` bytes of `w` and a fresh checksum. With `w[..i]` written before,
/// the inner bytes are then those with `w[..i + c]` written.
pub proof fn lemma_step_geometry(d: Seq<u8>, s: int, o: int, w: Seq<u8>, i: int, c: int)
    requires
        seg_ok(s),
        len_ok(d.len() as int, s),
        0 <= o <= outer_len_of(d.len() as int, s),
        0 <= i,
        1 <= c,
        i + c <= w.len(),
        i == 0 || (o + i) % (s - 4) == 0,
        c <= (s - 4) - (o + i) % (s - 4),
    ensures
        ({
            let b = s - 4;
            let k = (o + i) / b;
            let r = (o + i) % b;
            let ss = k * s;
            let dd = written(d, s, o, w.subrange(0, i));
            let cc = overwrite(content(d, s), o, w.subrange(0, i));
            let c2 = overwrite(content(d, s), o, w.subrange(0, i + c));
            let ws = ss + r;
            let we = ws + c;
            let obe = ss + body_of(cc, s, k).len();
            let nbe = ss + body_of(c2, s, k).len();
            let body = body_of(c2, s, k);
            let rest = if we < obe {
                dd.subrange(we, obe)
            } else {
                Seq::empty()
            };
            &&& k >= 0
            &&& ws == inner_of(o + i, s)
            &&& ss <= ws <= dd.len()
            &&& obe <= dd.len()
            &&& obe == if ss < dd.len() {
                (if ss + s < dd.len() {
                    ss + s
                } else {
                    dd.len() as int
                }) - 4
            } else {
                ss
            }
            &&& nbe == if we < obe {
                obe
            } else {
                we
            }
            &&& (we == ss + b) == (c == b - r)
            &&& (we == ss + b) ==> ss + s == inner_of(o + i + c, s)
            &&& (c == b - r) ==> (o + i + c) % b == 0
            &&& (we < ss + b) ==> we == inner_of(o + i + c, s)
        }),
{
    let b = s - 4;
    let k = (o + i) / b;
    let r = (o + i) % b;
    let ss = k * s;
    let wi = w.subrange(0, i);
    let wc = w.subrange(0, i + c);
    let chunk = w.subrange(i, i + c);
    let dd = written(d, s, o, wi);
    let cc = overwrite(content(d, s), o, wi);
    let c2 = overwrite(content(d, s), o, wc);
    let l0 = outer_len_of(d.len() as int, s);
    let ws = ss + r;
    let we = ws + c;
    lemma_content_written(d, s, o, wi);
    lemma_content_written(d, s, o, wc);
    lemma_inner_len_of(cc.len() as int, s);
    lemma_inner_len_of(c2.len() as int, s);
    assert(content(d, s).len() == l0);
    assert(cc.len() == if o + i > l0 { o + i } else { l0 });
    assert(c2.len() == if o + i + c > l0 { o + i + c } else { l0 });
    lemma_fundamental_div_mod(o + i, b);
    assert(k >= 0) by (nonlinear_arith)
        requires
            o + i >= 0,
            o + i == b * k + r,
            0 <= r < b,
            b > 0,
    ;
    assert(k * b == b * k) by (nonlinear_arith);
    assert(ss == k * b + 4 * k) by (nonlinear_arith)
        requires
            ss == k * s,
            s == b + 4,
    ;
    assert((k + 1) * b == k * b + b) by (nonlinear_arith);
    assert((k + 1) * s == ss + s) by (nonlinear_arith)
        requires
            ss == k * s,
    ;
    // where the write ends
    lemma_div_mod_unique(o + i + c - 1, b, k, r + c - 1);
    lemma_div_is_ordered(o, o + i, b);
    if c == b - r {
        lemma_div_mod_unique(o + i + c, b, k + 1, 0);
    } else {
        lemma_div_mod_unique(o + i + c, b, k, r + c);
    }
    // the lengths of the current and the new inner bytes
    lemma_body_end(cc.len() as int, s, k);
    lemma_body_end(c2.len() as int, s, k);
    assert(body_of(cc, s, k).len() == body_len_at(cc.len() as int, s, k));
    assert(body_of(c2, s, k).len() == body_len_at(c2.len() as int, s, k));
}

/// The new body of the rewritten segment: the bytes before the write, the
/// written bytes, and the body bytes after the write.
pub proof fn lemma_step_body(d: Seq<u8>, s: int, o: int, w: Seq<u8>, i: int, c: int)
    requires
        seg_ok(s),
        len_ok(d.len() as int, s),
        0 <= o <= outer_len_of(d.len() as int, s),
        0 <= i,
        1 <= c,
        i + c <= w.len(),
        i == 0 || (o + i) % (s - 4) == 0,
        c <= (s - 4) - (o + i) % (s - 4),
    ensures
        ({
            let b = s - 4;
            let k = (o + i) / b;
            let r = (o + i) % b;
            let ss = k * s;
            let dd = written(d, s, o, w.subrange(0, i));
            let cc = overwrite(content(d, s), o, w.subrange(0, i));
            let c2 = overwrite(content(d, s), o, w.subrange(0, i + c));
            let ws = ss + r;
            let we = ws + c;
            let obe = ss + body_of(cc, s, k).len();
            let rest = if we < obe {
                dd.subrange(we, obe)
            } else {
                Seq::empty()
            };
            body_of(c2, s, k) == dd.subrange(ss, ws) + w.subrange(i, i + c) + rest
        }),
{
    lemma_step_geometry(d, s, o, w, i, c);
    let b = s - 4;
    let k = (o + i) / b;
    let r = (o + i) % b;
    let ss = k * s;
    let wi = w.subrange(0, i);
    let wc = w.subrange(0, i + c);
    let chunk = w.subrange(i, i + c);
    let dd = written(d, s, o, wi);
    let cc = overwrite(content(d, s), o, wi);
    let c2 = overwrite(content(d, s), o, wc);
    let l0 = outer_len_of(d.len() as int, s);
    let ws = ss + r;
    let we = ws + c;
    lemma_content_written(d, s, o, wi);
    lemma_content_written(d, s, o, wc);
    assert(content(d, s).len() == l0);
    lemma_fundamental_div_mod(o + i, b);
    assert(k * b == b * k) by (nonlinear_arith);
    assert((k + 1) * b == k * b + b) by (nonlinear_arith);
    lemma_body_end(cc.len() as int, s, k);
    lemma_body_end(c2.len() as int, s, k);
    assert(body_of(cc, s, k).len() == body_len_at(cc.len() as int, s, k));
    assert(body_of(c2, s, k).len() == body_len_at(c2.len() as int, s, k));
    let body = body_of(c2, s, k);
    let obe = ss + body_of(cc, s, k).len();
    let rest = if we < obe {
        dd.subrange(we, obe)
    } else {
        Seq::empty()
    };
    let glued = dd.subrange(ss, ws) + chunk + rest;
    assert forall|t: int| 0 <= t < body.len() implies #[trigger] body[t] == glued[t] by {
        if t < r {
            lemma_written_body(d, s, o, wi, k, t);
        } else if t < r + c {
        } else {
            lemma_written_body(d, s, o, wi, k, t);
        }
    }
    assert(body =~= glued);
}

/// Inner bytes before the rewritten segment are kept.
proof fn lemma_step_before(d: Seq<u8>, s: int, o: int, w: Seq<u8>, i: int, c: int, j: int)
    requires
        seg_ok(s),
        len_ok(d.len() as int, s),
        0 <= o <= outer_len_of(d.len() as int, s),
        0 <= i,
        1 <= c,
        i + c <= w.len(),
        i == 0 || (o + i) % (s - 4) == 0,
        c <= (s - 4) - (o + i) % (s - 4),
        0 <= j,
        j < ((o + i) / (s - 4)) * s,
        j < written(d, s, o, w.subrange(0, i + c)).len(),
    ensures
        ({
            let b = s - 4;
            let k = (o + i) / b;
            let r = (o + i) % b;
            let ss = k * s;
            let dd = written(d, s, o, w.subrange(0, i));
            let cc = overwrite(content(d, s), o, w.subrange(0, i));
            let c2 = overwrite(content(d, s), o, w.subrange(0, i + c));
            let nbe = ss + body_of(c2, s, k).len();
            let y = overwrite(
                overwrite(dd, ss + r, w.subrange(i, i + c)),
                nbe,
                be_bytes(crc32_of(body_of(c2, s, k))),
            );
            j < y.len() && y[j] == written(d, s, o, w.subrange(0, i + c))[j]
        }),
{
    reveal(written);
    let b = s - 4;
    let k = (o + i) / b;
    let r = (o + i) % b;
    let ss = k * s;
    let wi = w.subrange(0, i);
    let wc = w.subrange(0, i + c);
    let chunk = w.subrange(i, i + c);
    let dd = written(d, s, o, wi);
    let cc = overwrite(content(d, s), o, wi);
    let c2 = overwrite(content(d, s), o, wc);
    let l0 = outer_len_of(d.len() as int, s);
    let ws = ss + r;
    let we = ws + c;
    let obe = ss + body_of(cc, s, k).len();
    let nbe = ss + body_of(c2, s, k).len();
    let body = body_of(c2, s, k);
    let x = written(d, s, o, wc);
    let y = overwrite(overwrite(dd, ws, chunk), nbe, be_bytes(crc32_of(body)));
    lemma_step_geometry(d, s, o, w, i, c);
    lemma_content_written(d, s, o, wi);
    lemma_content_written(d, s, o, wc);
    assert(content(d, s).len() == l0);
    assert(cc.len() == if o + i > l0 { o + i } else { l0 });
    assert(c2.len() == if o + i + c > l0 { o + i + c } else { l0 });
    lemma_fundamental_div_mod(o + i, b);
    assert(k * b == b * k) by (nonlinear_arith);
    assert((k + 1) * b == k * b + b) by (nonlinear_arith);
    assert((k + 1) * s == ss + s) by (nonlinear_arith)
        requires
            ss == k * s,
    ;
    lemma_body_end(cc.len() as int, s, k);
    lemma_body_end(c2.len() as int, s, k);
    assert(body_of(cc, s, k).len() == body_len_at(cc.len() as int, s, k));
    assert(body_of(c2, s, k).len() == body_len_at(c2.len() as int, s, k));
    lemma_div_mod_unique(o + i + c - 1, b, k, r + c - 1);
    lemma_div_is_ordered(o, o + i, b);
    if i > 0 {
        assert((k - 1) * b == k * b - b) by (nonlinear_arith);
        lemma_div_mod_unique(o + i - 1, b, k - 1, b - 1);
    }
    lemma_other_seg(j, s, k);
    let kp = j / s;
    assert((kp + 1) * b == kp * b + b) by (nonlinear_arith);
    assert(kp * b + b <= k * b);
    assert(k * b <= o + i);
    assert forall|p: int| kp * b <= p < kp * b + b && p < cc.len() implies cc[p] == c2[p] by {
        lemma_overwrite_index(content(d, s), o, wi, p);
        lemma_overwrite_index(content(d, s), o, wc, p);
    }
    if kp * b + b < cc.len() {
        assert(body_of(cc, s, kp) =~= cc.subrange(kp * b, kp * b + b));
        assert(body_of(c2, s, kp) =~= c2.subrange(kp * b, kp * b + b));
    } else {
        assert(kp * b + b == cc.len());
        assert(body_of(cc, s, kp) =~= cc.subrange(kp * b, kp * b + b));
        assert(body_of(c2, s, kp) =~= c2.subrange(kp * b, kp * b + b));
    }
    assert(body_of(cc, s, kp) =~= body_of(c2, s, kp));
    lemma_body_test(c2, s, j);
    lemma_body_test(cc, s, j);
    if kp >= 0 {
        lemma_div_is_ordered(o, o + i + c - 1, b);
    }
    lemma_overwrite_index(dd, ws, chunk, j);
    lemma_overwrite_index(overwrite(dd, ws, chunk), nbe, be_bytes(crc32_of(body)), j);
}

/// Inner bytes after the rewritten segment are kept.
proof fn lemma_step_after(d: Seq<u8>, s: int, o: int, w: Seq<u8>, i: int, c: int, j: int)
    requires
        seg_ok(s),
        len_ok(d.len() as int, s),
        0 <= o <= outer_len_of(d.len() as int, s),
        0 <= i,
        1 <= c,
        i + c <= w.len(),
        i == 0 || (o + i) % (s - 4) == 0,
        c <= (s - 4) - (o + i) % (s - 4),
        0 <= j,
        j >= ((o + i) / (s - 4)) * s + s,
        j < written(d, s, o, w.subrange(0, i + c)).len(),
    ensures
        ({
            let b = s - 4;
            let k = (o + i) / b;
            let r = (o + i) % b;
            let ss = k * s;
            let dd = written(d, s, o, w.subrange(0, i));
            let cc = overwrite(content(d, s), o, w.subrange(0, i));
            let c2 = overwrite(content(d, s), o, w.subrange(0, i + c));
            let nbe = ss + body_of(c2, s, k).len();
            let y = overwrite(
                overwrite(dd, ss + r, w.subrange(i, i + c)),
                nbe,
                be_bytes(crc32_of(body_of(c2, s, k))),
            );
            j < y.len() && y[j] == written(d, s, o, w.subrange(0, i + c))[j]
        }),
{
    reveal(written);
    let b = s - 4;
    let k = (o + i) / b;
    let r = (o + i) % b;
    let ss = k * s;
    let wi = w.subrange(0, i);
    let wc = w.subrange(0, i + c);
    let chunk = w.subrange(i, i + c);
    let dd = written(d, s, o, wi);
    let cc = overwrite(content(d, s), o, wi);
    let c2 = overwrite(content(d, s), o, wc);
    let l0 = outer_len_of(d.len() as int, s);
    let ws = ss + r;
    let we = ws + c;
    let obe = ss + body_of(cc, s, k).len();
    let nbe = ss + body_of(c2, s, k).len();
    let body = body_of(c2, s, k);
    let x = written(d, s, o, wc);
    let y = overwrite(overwrite(dd, ws, chunk), nbe, be_bytes(crc32_of(body)));
    lemma_step_geometry(d, s, o, w, i, c);
    lemma_content_written(d, s, o, wi);
    lemma_content_written(d, s, o, wc);
    assert(content(d, s).len() == l0);
    assert(cc.len() == if o + i > l0 { o + i } else { l0 });
    assert(c2.len() == if o + i + c > l0 { o + i + c } else { l0 });
    lemma_fundamental_div_mod(o + i, b);
    assert(k * b == b * k) by (nonlinear_arith);
    assert((k + 1) * b == k * b + b) by (nonlinear_arith);
    assert((k + 1) * s == ss + s) by (nonlinear_arith)
        requires
            ss == k * s,
    ;
    lemma_body_end(cc.len() as int, s, k);
    lemma_body_end(c2.len() as int, s, k);
    assert(body_of(cc, s, k).len() == body_len_at(cc.len() as int, s, k));
    assert(body_of(c2, s, k).len() == body_len_at(c2.len() as int, s, k));
    lemma_div_mod_unique(o + i + c - 1, b, k, r + c - 1);
    lemma_div_is_ordered(o, o + i, b);
    if i > 0 {
        assert((k - 1) * b == k * b - b) by (nonlinear_arith);
        lemma_div_mod_unique(o + i - 1, b, k - 1, b - 1);
    }
    lemma_other_seg(j, s, k);
    let kp = j / s;
    assert(c2.len() > (k + 1) * b);
    assert(cc.len() == c2.len());
    assert((kp + 1) * b == kp * b + b) by (nonlinear_arith);
    lemma_body_test(c2, s, j);
    assert(kp * b >= k * b + b);
    assert(o + i + c <= k * b + b);
    assert forall|p: int| kp * b <= p < c2.len() implies cc[p] == c2[p] by {
        lemma_overwrite_index(content(d, s), o, wi, p);
        lemma_overwrite_index(content(d, s), o, wc, p);
    }
    if kp * b + b < c2.len() {
        assert(body_of(cc, s, kp) =~= cc.subrange(kp * b, kp * b + b));
        assert(body_of(c2, s, kp) =~= c2.subrange(kp * b, kp * b + b));
    } else {
        assert(body_of(cc, s, kp) =~= cc.subrange(kp * b, cc.len() as int));
        assert(body_of(c2, s, kp) =~= c2.subrange(kp * b, c2.len() as int));
    }
    assert(body_of(cc, s, kp) =~= body_of(c2, s, kp));
    lemma_body_test(c2, s, j);
    lemma_body_test(cc, s, j);
    lemma_overwrite_index(dd, ws, chunk, j);
    lemma_overwrite_index(overwrite(dd, ws, chunk), nbe, be_bytes(crc32_of(body)), j);
}

/// Inner bytes of the rewritten segment: body, then the new checksum.
#[verifier::rlimit(40)]
proof fn lemma_step_inside(d: Seq<u8>, s: int, o: int, w: Seq<u8>, i: int, c: int, j: int)
    requires
        seg_ok(s),
        len_ok(d.len() as int, s),
        0 <= o <= outer_len_of(d.len() as int, s),
        0 <= i,
        1 <= c,
        i + c <= w.len(),
        i == 0 || (o + i) % (s - 4) == 0,
        c <= (s - 4) - (o + i) % (s - 4),
        0 <= j,
        ((o + i) / (s - 4)) * s <= j < ((o + i) / (s - 4)) * s + s,
        j < written(d, s, o, w.subrange(0, i + c)).len(),
    ensures
        ({
            let b = s - 4;
            let k = (o + i) / b;
            let r = (o + i) % b;
            let ss = k * s;
            let dd = written(d, s, o, w.subrange(0, i));
            let cc = overwrite(content(d, s), o, w.subrange(0, i));
            let c2 = overwrite(content(d, s), o, w.subrange(0, i + c));
            let nbe = ss + body_of(c2, s, k).len();
            let y = overwrite(
                overwrite(dd, ss + r, w.subrange(i, i + c)),
                nbe,
                be_bytes(crc32_of(body_of(c2, s, k))),
            );
            j < y.len() && y[j] == written(d, s, o, w.subrange(0, i + c))[j]
        }),
{
    reveal(written);
    let b = s - 4;
    let k = (o + i) / b;
    let r = (o + i) % b;
    let ss = k * s;
    let wi = w.subrange(0, i);
    let wc = w.subrange(0, i + c);
    let chunk = w.subrange(i, i + c);
    let dd = written(d, s, o, wi);
    let cc = overwrite(content(d, s), o, wi);
    let c2 = overwrite(content(d, s), o, wc);
    let l0 = outer_len_of(d.len() as int, s);
    let ws = ss + r;
    let we = ws + c;
    let obe = ss + body_of(cc, s, k).len();
    let nbe = ss + body_of(c2, s, k).len();
    let body = body_of(c2, s, k);
    let x = written(d, s, o, wc);
    let y = overwrite(overwrite(dd, ws, chunk), nbe, be_bytes(crc32_of(body)));
    lemma_step_geometry(d, s, o, w, i, c);
    lemma_content_written(d, s, o, wi);
    lemma_content_written(d, s, o, wc);
    assert(content(d, s).len() == l0);
    assert(cc.len() == if o + i > l0 { o + i } else { l0 });
    assert(c2.len() == if o + i + c > l0 { o + i + c } else { l0 });
    lemma_fundamental_div_mod(o + i, b);
    assert(k * b == b * k) by (nonlinear_arith);
    assert((k + 1) * b == k * b + b) by (nonlinear_arith);
    assert((k + 1) * s == ss + s) by (nonlinear_arith)
        requires
            ss == k * s,
    ;
    lemma_body_end(cc.len() as int, s, k);
    lemma_body_end(c2.len() as int, s, k);
    assert(body_of(cc, s, k).len() == body_len_at(cc.len() as int, s, k));
    assert(body_of(c2, s, k).len() == body_len_at(c2.len() as int, s, k));
    lemma_div_mod_unique(o + i + c - 1, b, k, r + c - 1);
    lemma_div_is_ordered(o, o + i, b);
    if i > 0 {
        assert((k - 1) * b == k * b - b) by (nonlinear_arith);
        lemma_div_mod_unique(o + i - 1, b, k - 1, b - 1);
    }
    lemma_seg_index(j, s, k);
    lemma_body_test(c2, s, j);
    let t = j - ss;
    if t < body_of(cc, s, k).len() {
        lemma_written_body(d, s, o, wi, k, t);
        lemma_overwrite_index(content(d, s), o, wi, k * b + t);
    }
    if t < body.len() {
        lemma_overwrite_index(content(d, s), o, wc, k * b + t);
    }
    if j < overwrite(dd, ws, chunk).len() {
        lemma_overwrite_index(dd, ws, chunk, j);
    }
    lemma_overwrite_index(overwrite(dd, ws, chunk), nbe, be_bytes(crc32_of(body)), j);
}

/// Rewriting one segment: the segment of outer position `o + i` gets the
/// next `c` bytes of `w` and a fresh checksum. With `w[..i]` written before,
/// the inner bytes are then those with `w[..i + c]` written.
pub proof fn lemma_write_step(d: Seq<u8>, s: int, o: int, w: Seq<u8>, i: int, c: int)
    requires
        seg_ok(s),
        len_ok(d.len() as int, s),
        0 <= o <= outer_len_of(d.len() as int, s),
        0 <= i,
        1 <= c,
        i + c <= w.len(),
        i == 0 || (o + i) % (s - 4) == 0,
        c <= (s - 4) - (o + i) % (s - 4),
    ensures
        ({
            let b = s - 4;
            let k = (o + i) / b;
            let ss = k * s;
            let dd = written(d, s, o, w.subrange(0, i));
            let c2 = overwrite(content(d, s), o, w.subrange(0, i + c));
            let nbe = ss + body_of(c2, s, k).len();
            overwrite(
                overwrite(dd, ss + (o + i) % b, w.subrange(i, i + c)),
                nbe,
                be_bytes(crc32_of(body_of(c2, s, k))),
            ) == written(d, s, o, w.subrange(0, i + c))
        }),
{
    let b = s - 4;
    let k = (o + i) / b;
    let r = (o + i) % b;
    let ss = k * s;
    let wi = w.subrange(0, i);
    let wc = w.subrange(0, i + c);
    let chunk = w.subrange(i, i + c);
    let dd = written(d, s, o, wi);
    let cc = overwrite(content(d, s), o, wi);
    let c2 = overwrite(content(d, s), o, wc);
    let l0 = outer_len_of(d.len() as int, s);
    let ws = ss + r;
    let nbe = ss + body_of(c2, s, k).len();
    let body = body_of(c2, s, k);
    let x = written(d, s, o, wc);
    let y = overwrite(overwrite(dd, ws, chunk), nbe, be_bytes(crc32_of(body)));
    lemma_step_geometry(d, s, o, w, i, c);
    lemma_content_written(d, s, o, wi);
    lemma_content_written(d, s, o, wc);
    assert(content(d, s).len() == l0);
    assert(cc.len() == if o + i > l0 { o + i } else { l0 });
    assert(c2.len() == if o + i + c > l0 { o + i + c } else { l0 });
    lemma_fundamental_div_mod(o + i, b);
    assert(k * b == b * k) by (nonlinear_arith);
    assert((k + 1) * b == k * b + b) by (nonlinear_arith);
    assert((k + 1) * s == ss + s) by (nonlinear_arith)
        requires
            ss == k * s,
    ;
    lemma_body_end(cc.len() as int, s, k);
    lemma_body_end(c2.len() as int, s, k);
    assert(body_of(cc, s, k).len() == body_len_at(cc.len() as int, s, k));
    assert(body_of(c2, s, k).len() == body_len_at(c2.len() as int, s, k));
    assert forall|j: int| 0 <= j < x.len() implies #[trigger] y[j] == x[j] && j < y.len() by {
        if j < ss {
            lemma_step_before(d, s, o, w, i, c, j);
        } else if j < ss + s {
            lemma_step_inside(d, s, o, w, i, c, j);
        } else {
            lemma_step_after(d, s, o, w, i, c, j);
        }
    }
    assert(y.len() == x.len());
    assert(y =~= x);
}

/// The segments of the inner bytes that hold `cl` outer bytes: segment `k`
/// exists when its body starts within `cl`, and then ends after its body and
/// a checksum.
pub proof fn lemma_seg_shape(cl: int, s: int, k: int)
    requires
        seg_ok(s),
        cl >= 0,
        k >= 0,
    ensures
        (k < num_segs(inner_len_of(cl, s), s)) == (k * (s - 4) < cl),
        k * (s - 4) < cl ==> {
            &&& 1 <= body_len_at(cl, s, k) <= s - 4
            &&& seg_end(inner_len_of(cl, s), s, k) == k * s + body_len_at(cl, s, k) + 4
            &&& k * s + body_len_at(cl, s, k) + 4 <= inner_len_of(cl, s)
        },
{
    let b = s - 4;
    let l = inner_len_of(cl, s);
    let ss = k * s;
    lemma_inner_len_of(cl, s);
    assert((k + 1) * b == k * b + b) by (nonlinear_arith);
    assert((k + 1) * s == ss + s) by (nonlinear_arith)
        requires
            ss == k * s,
    ;
    assert(k * b <= ss) by (nonlinear_arith)
        requires
            ss == k * s,
            k >= 0,
            b < s,
    ;
    lemma_fundamental_div_mod(l + s - 1, s);
    let q = (l + s - 1) / s;
    let m = (l + s - 1) % s;
    if k * b < cl {
        lemma_body_end(cl, s, k);
        // the segment exists: ss < l
        assert(ss < l);
        if q <= k {
            assert(s * q <= ss) by (nonlinear_arith)
                requires
                    q <= k,
                    ss == k * s,
                    s > 0,
            ;
        }
    } else {
        // no body starts at or after cl: l <= ss
        if k * b == cl {
            lemma_body_end(cl, s, k);
        } else {
            lemma_inner_len_mono(cl, k * b, s);
            lemma_body_end(k * b, s, k);
        }
        assert(l <= ss);
        if q > k {
            assert(s * q >= ss + s) by (nonlinear_arith)
                requires
                    q >= k + 1,
                    ss == k * s,
                    s > 0,
            ;
        }
    }
}

/// A segment that the write does not touch has the same body, in the same
/// place, before and after it.
proof fn lemma_untouched_body(d: Seq<u8>, s: int, o: int, w: Seq<u8>, k: int)
    requires
        seg_ok(s),
        len_ok(d.len() as int, s),
        0 <= o <= outer_len_of(d.len() as int, s),
        k >= 0,
        k * (s - 4) < overwrite(content(d, s), o, w).len(),
        !touched(o, w.len() as int, s, k),
    ensures
        k * (s - 4) < content(d, s).len(),
        body_of(overwrite(content(d, s), o, w), s, k) == body_of(content(d, s), s, k),
{
    let b = s - 4;
    let c = overwrite(content(d, s), o, w);
    let c0 = content(d, s);
    let l0 = outer_len_of(d.len() as int, s);
    let n = w.len() as int;
    assert(c0.len() == l0);
    assert(c.len() == if o + n > l0 { o + n } else { l0 });
    assert((k + 1) * b == k * b + b) by (nonlinear_arith);
    if n == 0 {
        assert(c =~= c0);
    } else if k < o / b {
        lemma_fundamental_div_mod(o, b);
        assert(k * b + b <= (o / b) * b) by (nonlinear_arith)
            requires
                k + 1 <= o / b,
                b > 0,
        ;
        assert(b * (o / b) == (o / b) * b) by (nonlinear_arith);
        assert forall|p: int| k * b <= p < k * b + b && p < c0.len() implies c[p] == c0[p] by {
            lemma_overwrite_index(c0, o, w, p);
        }
        if k * b + b < c0.len() {
            assert(body_of(c, s, k) =~= body_of(c0, s, k));
        } else {
            assert(body_of(c, s, k) =~= body_of(c0, s, k));
        }
    } else {
        lemma_fundamental_div_mod(o + n - 1, b);
        assert(k * b >= o + n) by (nonlinear_arith)
            requires
                k >= (o + n - 1) / b + 1,
                o + n - 1 == b * ((o + n - 1) / b) + (o + n - 1) % b,
                (o + n - 1) % b < b,
                b > 0,
        ;
        assert forall|p: int| k * b <= p < c.len() implies c[p] == c0[p] by {
            lemma_overwrite_index(c0, o, w, p);
        }
        assert(body_of(c, s, k) =~= body_of(c0, s, k));
    }
}

/// Writing keeps every checksum right: the rewritten segments get fresh
/// ones, the others keep theirs.
pub proof fn lemma_write_keeps_checksums(d: Seq<u8>, s: int, o: int, w: Seq<u8>)
    requires
        seg_ok(s),
        len_ok(d.len() as int, s),
        0 <= o <= outer_len_of(d.len() as int, s),
        all_valid(d, s),
    ensures
        all_valid(written(d, s, o, w), s),
        content(written(d, s, o, w), s) == overwrite(content(d, s), o, w),
{
    let b = s - 4;
    let x = written(d, s, o, w);
    let c = overwrite(content(d, s), o, w);
    let c0 = content(d, s);
    lemma_content_written(d, s, o, w);
    lemma_outer_len_of(d.len() as int, s);
    lemma_written_nothing(d, s, o);
    assert(overwrite(c0, o, Seq::<u8>::empty()) =~= c0);
    assert forall|k: int| 0 <= k < num_segs(x.len() as int, s) implies #[trigger] seg_valid(
        x,
        s,
        k,
    ) by {
        lemma_seg_shape(c.len() as int, s, k);
        let bl = body_len_at(c.len() as int, s, k);
        let ss = k * s;
        assert((k + 1) * b == k * b + b) by (nonlinear_arith);
        assert(body_of(c, s, k).len() == bl);
        assert forall|t: int| 0 <= t < bl implies #[trigger] seg_body(x, s, k)[t] == body_of(
            c,
            s,
            k,
        )[t] by {
            lemma_written_body(d, s, o, w, k, t);
        }
        assert(seg_body(x, s, k) =~= body_of(c, s, k));
        if touched(o, w.len() as int, s, k) {
            assert forall|t: int| 0 <= t < 4 implies #[trigger] seg_sum(x, s, k)[t] == be_bytes(
                crc32_of(body_of(c, s, k)),
            )[t] by {
                reveal(written);
                lemma_seg_index(ss + bl + t, s, k);
            }
            assert(seg_sum(x, s, k) =~= be_bytes(crc32_of(body_of(c, s, k))));
        } else {
            lemma_untouched_body(d, s, o, w, k);
            lemma_seg_shape(c0.len() as int, s, k);
            assert(body_of(c0, s, k).len() == body_len_at(c0.len() as int, s, k));
            assert(body_len_at(c0.len() as int, s, k) == bl);
            assert(seg_valid(d, s, k));
            assert forall|t: int| 0 <= t < bl implies #[trigger] seg_body(d, s, k)[t] == body_of(
                c0,
                s,
                k,
            )[t] by {
                lemma_written_body(d, s, o, Seq::<u8>::empty(), k, t);
            }
            assert(seg_body(d, s, k) =~= body_of(c0, s, k));
            assert forall|t: int| 0 <= t < 4 implies #[trigger] seg_sum(x, s, k)[t] == seg_sum(
                d,
                s,
                k,
            )[t] by {
                reveal(written);
                lemma_seg_index(ss + bl + t, s, k);
            }
            assert(seg_sum(x, s, k) =~= seg_sum(d, s, k));
        }
    }
}

} // verus!
