//! Validation: every segment's stored checksum against its body.
use vstd::prelude::*;

use super::CrcStore;
use crate::config::lemma_pow2_divides;
use crate::crc::{crc32, is_stored_form, Crc};
use crate::error::ValidateError;
use crate::inner::{ByteStore, SeekFrom};
use crate::layout::{
    inner_of, lemma_div_mod_unique, lemma_end_rel_of, lemma_inner_of_parts, len_ok,
    outer_len_of, CHECKSUM_LEN,
};
use crate::model::{bad_segs, num_segs, seg_body, seg_end, seg_sum, seg_valid};
use crate::utility::read_up_to;

verus! {

impl<I: ByteStore> CrcStore<I> {
    /// Walks every segment of the inner store and compares its stored
    /// checksum with the checksum of its body. `Checksum` lists the failing
    /// segments, ascending; `SegTooShort` names a trailing segment of 1 to 4
    /// bytes. Afterwards the cursor is at the end of the outer bytes and the
    /// store is back in step with its inner store (unless `SegTooShort` or
    /// `Io` came back).
    pub fn validate(&mut self) -> (r: Result<(), ValidateError>)
        requires
            old(self).wf(),
        ensures
            final(self).wf(),
            final(self).spec_cfg() == old(self).spec_cfg(),
            ({
                let d = old(self).data();
                let s = old(self).s();
                let bad = bad_segs(d, s, num_segs(d.len() as int, s) as nat);
                &&& r is Ok ==> len_ok(d.len() as int, s) && bad.len() == 0
                &&& r matches Err(ValidateError::Checksum(v)) ==> len_ok(d.len() as int, s)
                    && v@ == bad && bad.len() > 0
                &&& r matches Err(ValidateError::SegTooShort(k)) ==> !len_ok(d.len() as int, s)
                    && k == num_segs(d.len() as int, s) - 1
                &&& (r is Ok || r matches Err(ValidateError::Checksum(_))) ==> {
                    &&& final(self).synced()
                    &&& final(self).data() == d
                    &&& final(self).spec_inner_len() == d.len()
                    &&& final(self).position() == final(self).spec_outer_len()
                    &&& final(self).spec_inner_pos() == inner_of(final(self).spec_outer_len(), s)
                }
            }),
    {
        let ghost s = self.s();
        let ghost d = self.inner.bytes();
        self.synced = false;
        let len = match self.inner.seek(SeekFrom::End(0)) {
            Ok(n) => n,
            Err(e) => {
                return Err(ValidateError::Io(e));
            },
        };
        match self.inner.seek(SeekFrom::Start(0)) {
            Ok(_) => {},
            Err(e) => {
                return Err(ValidateError::Io(e));
            },
        }
        let found = if self.cfg.seg_len <= self.cfg.buf_len {
            self.scan_by_buffer(len, Ghost(d))
        } else {
            self.scan_by_segment(len, Ghost(d))
        };
        let invalid = match found {
            Ok(v) => v,
            Err(e) => {
                return Err(e);
            },
        };
        let seg_len = self.cfg.seg_len as u64;
        // rest on the end of the outer bytes
        proof {
            lemma_div_mod_unique(0, s, 0, 0);
            if len > 0 {
                crate::store::lemma_end_base(len as int, s);
            }
            assert(len_ok(len as int, s));
        }
        let target = if len % seg_len == 0 {
            len
        } else {
            len - CHECKSUM_LEN as u64
        };
        proof {
            lemma_end_rel_of(len as int, 0, s);
            lemma_inner_of_parts(outer_len_of(len as int, s), s);
            crate::store::lemma_outer_len_nonneg(len as int, s);
        }
        if target != len {
            match self.inner.seek(SeekFrom::Start(target)) {
                Ok(_) => {},
                Err(e) => {
                    return Err(ValidateError::Io(e));
                },
            }
        }
        self.inner_len = len;
        self.inner_pos = target;
        self.synced = true;
        if invalid.len() == 0 {
            Ok(())
        } else {
            Err(ValidateError::Checksum(invalid))
        }
    }

    /// Walks the segments one at a time, hashing each body in chunks of the
    /// scratch buffer; for segments longer than the buffer. Returns the
    /// indices of the failing segments, ascending.
    fn scan_by_segment(&mut self, len: u64, Ghost(d): Ghost<Seq<u8>>) -> (r: Result<
        Vec<u64>,
        ValidateError,
    >)
        requires
            old(self).wf(),
            !old(self).synced,
            old(self).inner.bytes() == d,
            d.len() == len,
            old(self).inner.cursor() == 0,
        ensures
            final(self).wf(),
            !final(self).synced,
            final(self).cfg == old(self).cfg,
            r is Ok ==> {
                &&& r->Ok_0@ == bad_segs(d, old(self).s(), num_segs(len as int, old(self).s()) as nat)
                &&& len_ok(len as int, old(self).s())
                &&& final(self).inner.bytes() == d
                &&& final(self).inner.cursor() == len
            },
            r matches Err(ValidateError::SegTooShort(k)) ==> !len_ok(len as int, old(self).s())
                && k == num_segs(len as int, old(self).s()) - 1,
            !(r matches Err(ValidateError::Checksum(_))),
    {
        let ghost s = self.s();
        let seg_len = self.cfg.seg_len as u64;
        let buf_len = self.cfg.buf_len as u64;
        let mut invalid: Vec<u64> = Vec::new();
        let mut k: u64 = 0;
        let mut pos: u64 = 0;
        proof {
            lemma_div_mod_unique(s - 1, s, 0, s - 1);
            lemma_div_mod_unique(0, s, 0, 0);
        }
        while pos < len
            invariant
                self.wf(),
                !self.synced,
                self.cfg == old(self).cfg,
                s == self.s(),
                seg_len == s,
                buf_len == self.cfg.buf_len,
                self.buf@.len() == buf_len,
                self.inner.bytes() == d,
                d == old(self).inner.bytes(),
                d.len() == len,
                self.inner.cursor() == pos,
                pos <= len,
                pos < len ==> pos == k * s,
                pos == len ==> k == num_segs(len as int, s) && len_ok(len as int, s),
                pos == 0 ==> k == 0,
                k * s <= len || pos == len,
                invalid@ == bad_segs(d, s, k as nat),
            decreases len - pos,
        {
            let end = if seg_len < len - pos {
                pos + seg_len
            } else {
                len
            };
            proof {
                assert((k + 1) * s == k * s + s) by (nonlinear_arith);
                assert(seg_end(len as int, s, k as int) == end);
            }
            if end - pos <= CHECKSUM_LEN as u64 {
                proof {
                    lemma_div_mod_unique(len as int, s, k as int, len - pos);
                    lemma_div_mod_unique(len + s - 1, s, k + 1, len - pos - 1);
                    assert(!len_ok(len as int, s));
                    assert(k == num_segs(len as int, s) - 1);
                }
                return Err(ValidateError::SegTooShort(k));
            }
            let body_end = end - CHECKSUM_LEN as u64;
            let mut crc = Crc::new();
            let mut at = pos;
            proof {
                assert(d.subrange(pos as int, pos as int) =~= Seq::<u8>::empty());
            }
            while at < body_end
                invariant
                    self.wf(),
                    !self.synced,
                    self.cfg == old(self).cfg,
                    buf_len == self.cfg.buf_len,
                    self.buf@.len() == buf_len,
                    self.inner.bytes() == d,
                    d.len() == len,
                    self.inner.cursor() == at,
                    pos <= at <= body_end,
                    body_end < end <= len,
                    crc.holds(d.subrange(pos as int, at as int)),
                decreases body_end - at,
            {
                let n: usize = if body_end - at < buf_len {
                    (body_end - at) as usize
                } else {
                    buf_len as usize
                };
                match read_up_to(&mut self.inner, &mut self.buf, n) {
                    Ok(()) => {},
                    Err(e) => {
                        return Err(ValidateError::Io(e));
                    },
                }
                crc.update(vstd::slice::slice_subrange(self.buf.as_slice(), 0, n));
                proof {
                    assert(d.subrange(pos as int, at as int) + d.subrange(at as int, at + n)
                        =~= d.subrange(pos as int, at + n));
                }
                at = at + n as u64;
            }
            match read_up_to(&mut self.inner, &mut self.buf, CHECKSUM_LEN as usize) {
                Ok(()) => {},
                Err(e) => {
                    return Err(ValidateError::Io(e));
                },
            }
            let ok = is_stored_form(&self.buf, 0, crc.value);
            proof {
                assert(seg_body(d, s, k as int) == d.subrange(pos as int, body_end as int));
                assert(seg_sum(d, s, k as int) == d.subrange(body_end as int, end as int));
                assert(ok == seg_valid(d, s, k as int));
            }
            if !ok {
                invalid.push(k);
            }
            proof {
                if end == len {
                    lemma_div_mod_unique(len + s - 1, s, k + 1, len - pos - 1);
                    if end - pos < s {
                        lemma_div_mod_unique(len as int, s, k as int, len - pos);
                    } else {
                        lemma_div_mod_unique(len as int, s, k + 1, 0);
                    }
                }
            }
            proof {
                assert(k <= k * s) by (nonlinear_arith)
                    requires
                        s >= 8,
                        k >= 0,
                ;
            }
            pos = end;
            k = k + 1;
        }
        Ok(invalid)
    }

    /// Walks the inner store one scratch buffer at a time, checking every
    /// segment the buffer holds; for segments no longer than the buffer,
    /// whose length then divides the buffer's. Returns the indices of the
    /// failing segments, ascending.
    fn scan_by_buffer(&mut self, len: u64, Ghost(d): Ghost<Seq<u8>>) -> (r: Result<
        Vec<u64>,
        ValidateError,
    >)
        requires
            old(self).wf(),
            !old(self).synced,
            old(self).inner.bytes() == d,
            d.len() == len,
            old(self).inner.cursor() == 0,
            old(self).cfg.seg_len <= old(self).cfg.buf_len,
        ensures
            final(self).wf(),
            !final(self).synced,
            final(self).cfg == old(self).cfg,
            r is Ok ==> {
                &&& r->Ok_0@ == bad_segs(d, old(self).s(), num_segs(len as int, old(self).s()) as nat)
                &&& len_ok(len as int, old(self).s())
                &&& final(self).inner.bytes() == d
                &&& final(self).inner.cursor() == len
            },
            r matches Err(ValidateError::SegTooShort(k)) ==> !len_ok(len as int, old(self).s())
                && k == num_segs(len as int, old(self).s()) - 1,
            !(r matches Err(ValidateError::Checksum(_))),
    {
        let ghost s = self.s();
        let seg_len = self.cfg.seg_len as u64;
        let buf_len = self.cfg.buf_len as u64;
        proof {
            lemma_pow2_divides(seg_len as nat, buf_len as nat);
            lemma_div_mod_unique(s - 1, s, 0, s - 1);
            lemma_div_mod_unique(0, s, 0, 0);
            vstd::arithmetic::div_mod::lemma_fundamental_div_mod(buf_len as int, s);
        }
        let ghost m = buf_len as int / s;
        proof {
            assert(m >= 1) by (nonlinear_arith)
                requires
                    buf_len == s * m + 0,
                    buf_len >= s,
                    s > 0,
            ;
            assert(buf_len == m * s) by (nonlinear_arith)
                requires
                    buf_len == s * m,
            ;
        }
        let mut invalid: Vec<u64> = Vec::new();
        let mut k: u64 = 0;
        let mut pos: u64 = 0;
        while pos < len
            invariant
                self.wf(),
                !self.synced,
                self.cfg == old(self).cfg,
                s == self.s(),
                seg_len == s,
                buf_len == self.cfg.buf_len,
                buf_len == m * s,
                m >= 1,
                self.buf@.len() == buf_len,
                self.inner.bytes() == d,
                d == old(self).inner.bytes(),
                d.len() == len,
                self.inner.cursor() == pos,
                pos <= len,
                pos < len ==> pos == k * s,
                pos == len ==> k == num_segs(len as int, s) && len_ok(len as int, s),
                pos == 0 ==> k == 0,
                k * s <= len || pos == len,
                invalid@ == bad_segs(d, s, k as nat),
            decreases len - pos,
        {
            let n: usize = if len - pos < buf_len {
                (len - pos) as usize
            } else {
                buf_len as usize
            };
            match read_up_to(&mut self.inner, &mut self.buf, n) {
                Ok(()) => {},
                Err(e) => {
                    return Err(ValidateError::Io(e));
                },
            }
            let ghost k0 = k as int;
            let mut at: usize = 0;
            while at < n
                invariant
                    self.wf(),
                    !self.synced,
                    self.cfg == old(self).cfg,
                    s == self.s(),
                    seg_len == s,
                    buf_len == m * s,
                    m >= 1,
                    self.buf@.len() == buf_len,
                    self.inner.bytes() == d,
                    d == old(self).inner.bytes(),
                    d.len() == len,
                    self.inner.cursor() == pos + n,
                    pos < len,
                    pos == k0 * s,
                    0 < n <= buf_len,
                    pos + n <= len,
                    n < buf_len ==> pos + n == len,
                    self.buf@.subrange(0, n as int) == d.subrange(pos as int, pos + n),
                    at <= n,
                    k >= k0,
                    at == (k - k0) * s || at == n,
                    at < n ==> at == (k - k0) * s,
                    at == n ==> (pos + n == len ==> k == num_segs(len as int, s) && len_ok(
                        len as int,
                        s,
                    )),
                    at == n && pos + n < len ==> pos + n == k * s,
                    k * s <= len || pos + at == len,
                    invalid@ == bad_segs(d, s, k as nat),
                decreases n - at,
            {
                proof {
                    assert(k * s == k0 * s + (k - k0) * s) by (nonlinear_arith);
                    assert((k - k0) * s + s <= buf_len) by (nonlinear_arith)
                        requires
                            (k - k0) * s < m * s,
                            buf_len == m * s,
                            s > 0,
                    ;
                    assert((k + 1) * s == k * s + s) by (nonlinear_arith);
                    assert(seg_end(len as int, s, k as int) == pos + if n - at > seg_len {
                        at + seg_len
                    } else {
                        n as int
                    });
                }
                let end: usize = if (n - at) as u64 > seg_len {
                    at + seg_len as usize
                } else {
                    n
                };
                if end - at <= CHECKSUM_LEN as usize {
                    proof {
                        lemma_div_mod_unique(len as int, s, k as int, end - at);
                        lemma_div_mod_unique(len + s - 1, s, k + 1, end - at - 1);
                    }
                    return Err(ValidateError::SegTooShort(k));
                }
                let body = vstd::slice::slice_subrange(self.buf.as_slice(), at, end - 4);
                let v = crc32(body);
                let ok = is_stored_form(&self.buf, end - 4, v);
                proof {
                    let w = self.buf@.subrange(0, n as int);
                    assert(body@ =~= w.subrange(at as int, end - 4));
                    assert(body@ =~= seg_body(d, s, k as int));
                    assert(self.buf@.subrange(end - 4, end as int) =~= w.subrange(end - 4, end as int));
                    assert(self.buf@.subrange(end - 4, end as int) =~= seg_sum(d, s, k as int));
                    assert(ok == seg_valid(d, s, k as int));
                    if pos + end == len {
                        lemma_div_mod_unique(len + s - 1, s, k + 1, len - k * s - 1);
                        if end - at < s {
                            lemma_div_mod_unique(len as int, s, k as int, end - at);
                        } else {
                            lemma_div_mod_unique(len as int, s, k + 1, 0);
                        }
                    }
                    assert(k <= k * s) by (nonlinear_arith)
                        requires
                            s >= 8,
                            k >= 0,
                    ;
                    assert((k + 1 - k0) * s == (k - k0) * s + s) by (nonlinear_arith);
                }
                if !ok {
                    invalid.push(k);
                }
                at = end;
                k = k + 1;
            }
            pos = pos + n as u64;
        }
        Ok(invalid)
    }
}

} // verus!
