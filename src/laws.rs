//! Laws that relate the store's operations, stated over the model.
use vstd::arithmetic::div_mod::lemma_fundamental_div_mod;
use vstd::prelude::*;

use crate::inner::overwrite;
use crate::layout::{inner_len_of, lemma_div_mod_unique, len_ok, outer_len_of, seg_ok};
use crate::model::{
    all_valid, bad_segs, content, num_segs, seg_body, seg_end, seg_sum, seg_valid, written,
};
use crate::model::lemma_outer_len_of;
use crate::rewrite::{lemma_seg_shape, lemma_write_keeps_checksums};

verus! {

/// Appending `n` body bytes to an empty store takes `n` inner bytes plus one
/// checksum for each started segment.
pub proof fn lemma_append_len(n: int, s: int)
    requires
        seg_ok(s),
        n >= 0,
    ensures
        inner_len_of(n, s) == n + 4 * ((n + (s - 4) - 1) / (s - 4)),
{
    let b = s - 4;
    lemma_fundamental_div_mod(n, b);
    let q = n / b;
    let r = n % b;
    assert(q * s == q * b + 4 * q) by (nonlinear_arith)
        requires
            s == b + 4,
    ;
    assert(b * q == q * b) by (nonlinear_arith);
    if r == 0 {
        lemma_div_mod_unique(n + b - 1, b, q, b - 1);
    } else {
        assert(n + b - 1 == (q + 1) * b + (r - 1)) by (nonlinear_arith)
            requires
                n == b * q + r,
        ;
        lemma_div_mod_unique(n + b - 1, b, q + 1, r - 1);
    }
}

/// A failing segment is listed among the failing segments, and a listed
/// segment fails.
pub proof fn lemma_bad_segs_lists(d: Seq<u8>, s: int, n: nat, k: int)
    requires
        0 <= k < n <= u64::MAX,
    ensures
        bad_segs(d, s, n).contains(k as u64) <==> !seg_valid(d, s, k),
    decreases n,
{
    lemma_bad_segs_below(d, s, (n - 1) as nat);
    if k == n - 1 {
        if !seg_valid(d, s, k) {
            let all = bad_segs(d, s, n);
            assert(all[all.len() - 1] == k as u64);
        } else {
            if bad_segs(d, s, n).contains(k as u64) {
                let x = choose|x: int|
                    0 <= x < bad_segs(d, s, n).len() && bad_segs(d, s, n)[x] == k as u64;
                assert(bad_segs(d, s, (n - 1) as nat)[x] < n - 1);
            }
        }
    } else {
        lemma_bad_segs_lists(d, s, (n - 1) as nat, k);
        if !seg_valid(d, s, n - 1) {
            let prev = bad_segs(d, s, (n - 1) as nat);
            assert(bad_segs(d, s, n) == prev.push((n - 1) as u64));
            if prev.contains(k as u64) {
                let x = choose|x: int| 0 <= x < prev.len() && prev[x] == k as u64;
                assert(bad_segs(d, s, n)[x] == k as u64);
            }
            if bad_segs(d, s, n).contains(k as u64) {
                let x = choose|x: int|
                    0 <= x < bad_segs(d, s, n).len() && bad_segs(d, s, n)[x] == k as u64;
                if x < prev.len() {
                    assert(prev[x] == k as u64);
                }
            }
        }
    }
}

/// Every listed segment index is below the number of segments scanned.
proof fn lemma_bad_segs_below(d: Seq<u8>, s: int, n: nat)
    ensures
        forall|x: int| 0 <= x < bad_segs(d, s, n).len() ==> bad_segs(d, s, n)[x] < n,
        bad_segs(d, s, n).len() <= n,
    decreases n,
{
    if n > 0 {
        lemma_bad_segs_below(d, s, (n - 1) as nat);
    }
}

/// Changing one byte of a segment's stored checksum (flipping one of its
/// bits, say) makes that segment fail, and so be listed, when it passed
/// before.
pub proof fn lemma_corrupt_checksum(d: Seq<u8>, s: int, k: int, j: int, v: u8)
    requires
        seg_ok(s),
        len_ok(d.len() as int, s),
        0 <= k < num_segs(d.len() as int, s),
        num_segs(d.len() as int, s) <= u64::MAX,
        seg_end(d.len() as int, s, k) - 4 <= j < seg_end(d.len() as int, s, k),
        v != d[j],
        seg_valid(d, s, k),
    ensures
        !seg_valid(d.update(j, v), s, k),
        bad_segs(d.update(j, v), s, num_segs(d.len() as int, s) as nat).contains(k as u64),
{
    let e = d.update(j, v);
    let n = num_segs(d.len() as int, s);
    let cl = outer_len_of(d.len() as int, s);
    lemma_outer_len_of(d.len() as int, s);
    lemma_seg_shape(cl, s, k);
    let se = seg_end(d.len() as int, s, k);
    assert(seg_body(e, s, k) =~= seg_body(d, s, k));
    assert(seg_sum(e, s, k)[j - (se - 4)] == v);
    assert(seg_sum(d, s, k)[j - (se - 4)] == d[j]);
    lemma_bad_segs_lists(e, s, n as nat, k);
}

/// With every checksum right, no segment is listed as failing.
pub proof fn lemma_no_bad_segs(d: Seq<u8>, s: int, n: nat)
    requires
        all_valid(d, s),
        n <= num_segs(d.len() as int, s),
    ensures
        bad_segs(d, s, n) == Seq::<u64>::empty(),
    decreases n,
{
    if n > 0 {
        lemma_no_bad_segs(d, s, (n - 1) as nat);
        assert(seg_valid(d, s, n - 1));
    }
}

/// Writing any bytes at the start of an empty store: the outer bytes are
/// then exactly those bytes, and no segment fails validation.
pub proof fn lemma_round_trip(s: int, w: Seq<u8>)
    requires
        seg_ok(s),
    ensures
        content(written(Seq::empty(), s, 0, w), s) == w,
        all_valid(written(Seq::empty(), s, 0, w), s),
        ({
            let x = written(Seq::empty(), s, 0, w);
            bad_segs(x, s, num_segs(x.len() as int, s) as nat) == Seq::<u64>::empty()
        }),
{
    let e = Seq::<u8>::empty();
    lemma_div_mod_unique(0, s, 0, 0);
    lemma_div_mod_unique(s - 1, s, 0, s - 1);
    assert(len_ok(0, s));
    assert(outer_len_of(0, s) == 0);
    assert(content(e, s) =~= e);
    lemma_write_keeps_checksums(e, s, 0, w);
    assert(overwrite(e, 0, w) =~= w);
    let x = written(e, s, 0, w);
    lemma_no_bad_segs(x, s, num_segs(x.len() as int, s) as nat);
}

} // verus!
