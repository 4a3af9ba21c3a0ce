//! Writing: body bytes go in place, and every segment the write touches
//! gets the checksum of its new body.
use vstd::prelude::*;

use super::{lemma_outer_len_nonneg, CrcStore};
use crate::crc::{put_stored_form, Crc};
use crate::inner::{invalid_input, overwrite, ByteStore, SeekFrom};
use crate::layout::{
    inner_len_of, inner_of, lemma_inner_of_parts, lemma_outer_of_parts, len_ok, outer_len_of,
    seg_ok, start_pos_of, CHECKSUM_LEN,
};
use crate::model::{
    body_of, content, lemma_content_written, lemma_inner_len_mono, lemma_inner_len_of,
    lemma_written_nothing, written,
};
use crate::rewrite::{lemma_body_end, lemma_step_body, lemma_step_geometry, lemma_write_step};
use crate::utility::hash_inner;

verus! {

impl<I: ByteStore> CrcStore<I> {
    /// Does a write of `n` bytes at the cursor leave an inner length that
    /// fits in a `u64`?
    pub open spec fn write_fits(&self, n: int) -> bool {
        let o = self.position();
        let l = self.spec_outer_len();
        let m = if o + n > l {
            o + n
        } else {
            l
        };
        inner_len_of(m, self.s()) <= u64::MAX
    }

    /// Writes `data` at the cursor, over the outer bytes there and past the
    /// end if it reaches that far, and rewrites the checksum of every
    /// segment it touches. Returns the number of bytes written: all of them.
    /// Refused while the store is out of step with its inner store, and when
    /// the inner length would not fit in a `u64`.
    pub fn write(&mut self, data: &[u8]) -> (r: Result<usize, std::io::Error>)
        requires
            old(self).wf(),
        ensures
            final(self).wf(),
            final(self).spec_cfg() == old(self).spec_cfg(),
            !old(self).synced() || !old(self).write_fits(data@.len() as int) ==> r is Err
                && *final(self) == *old(self),
            old(self).synced() && old(self).write_fits(data@.len() as int) ==> r is Ok
                || !final(self).synced(),
            old(self).synced() && data@.len() == 0 ==> r is Ok && r->Ok_0 == 0 && *final(self)
                == *old(self),
            r is Ok ==> {
                let o = old(self).position();
                let s = old(self).s();
                &&& r->Ok_0 == data@.len()
                &&& final(self).synced()
                &&& final(self).data() == written(old(self).data(), s, o, data@)
                &&& final(self).outer() == overwrite(old(self).outer(), o, data@)
                &&& final(self).spec_inner_len() == inner_len_of(
                    overwrite(old(self).outer(), o, data@).len() as int,
                    s,
                )
                &&& final(self).position() == o + data@.len()
            },
    {
        if !self.synced {
            return Err(invalid_input("store is out of step with its inner store; validate it"));
        }
        let ghost s = self.s();
        let ghost b = s - 4;
        let ghost d = self.inner.bytes();
        let ghost o = self.position();
        let ghost l0 = self.spec_outer_len();
        let seg_len = self.cfg.seg_len as u64;
        let body = self.body_len as u64;
        let outer_len = self.outer_len();
        let here: u64 = match self.outer_pos(self.inner_pos) {
            Some(p) => p,
            None => {
                return Err(invalid_input("cursor off the body bytes"));
            },
        };
        proof {
            lemma_outer_of_parts(self.inner_pos as int, s);
            lemma_outer_len_nonneg(d.len() as int, s);
        }
        let n = data.len();
        if n == 0 {
            proof {
                lemma_written_nothing(d, s, o);
                assert(data@ =~= Seq::<u8>::empty());
                assert(overwrite(content(d, s), o, data@) =~= content(d, s));
                crate::model::lemma_outer_len_of(d.len() as int, s);
                lemma_inner_of_parts(o, s);
            }
            return Ok(0);
        }
        // refuse a write whose inner length would not fit
        let end = match here.checked_add(n as u64) {
            Some(e) => e,
            None => {
                proof {
                    lemma_inner_len_of(o + n, s);
                }
                return Err(invalid_input("write past the largest inner length"));
            },
        };
        let new_outer = if end > outer_len {
            end
        } else {
            outer_len
        };
        let fits = match start_pos_of(self.cfg.seg_len, new_outer) {
            Some(p) => new_outer % body == 0 || p <= u64::MAX - CHECKSUM_LEN as u64,
            None => false,
        };
        proof {
            lemma_inner_of_parts(new_outer as int, s);
            assert(inner_len_of(new_outer as int, s) == inner_of(new_outer as int, s) + if (
            new_outer as int) % b == 0 {
                0int
            } else {
                4int
            });
        }
        if !fits {
            return Err(invalid_input("write past the largest inner length"));
        }
        let mut i: usize = 0;
        proof {
            lemma_written_nothing(d, s, o);
            assert(data@.subrange(0, 0) =~= Seq::<u8>::empty());
            lemma_inner_of_parts(o, s);
        }
        while i < n
            invariant
                self.wf(),
                self.synced,
                self.cfg == old(self).cfg,
                old(self).wf(),
                old(self).synced,
                old(self).inner.bytes() == d,
                old(self).cfg.seg_len == s,
                s == self.s(),
                b == s - 4,
                seg_ok(s),
                seg_len == s,
                body == b,
                len_ok(d.len() as int, s),
                0 <= o <= l0,
                l0 == outer_len_of(d.len() as int, s),
                o == old(self).position(),
                n == data@.len(),
                n > 0,
                i <= n,
                o + n <= new_outer,
                new_outer as int == if o + n > l0 {
                    o + n
                } else {
                    l0
                },
                inner_len_of(new_outer as int, s) <= u64::MAX,
                i == 0 || i == n || (o + i) % b == 0,
                self.inner.bytes() == written(d, s, o, data@.subrange(0, i as int)),
                self.inner_len == self.inner.bytes().len(),
                self.inner_pos == inner_of(o + i, s),
                self.inner.cursor() == self.inner_pos,
            decreases n - i,
        {
            match self.rewrite_segment(data, i, Ghost(d), Ghost(o), Ghost(new_outer as int)) {
                Ok(c) => {
                    i = i + c;
                },
                Err(e) => {
                    return Err(e);
                },
            }
        }
        proof {
            assert(data@.subrange(0, n as int) =~= data@);
            lemma_content_written(d, s, o, data@);
            lemma_inner_of_parts(o + n, s);
        }
        Ok(n)
    }

    /// Rewrites the segment under the cursor with the next bytes of `data`
    /// from `i`, as many as its body takes: the body bytes before them are
    /// read back, those after them too, and the checksum of the new body is
    /// written after it. Returns how many bytes of `data` went in.
    #[verifier::rlimit(100)]
    fn rewrite_segment(
        &mut self,
        data: &[u8],
        i: usize,
        Ghost(d): Ghost<Seq<u8>>,
        Ghost(o): Ghost<int>,
        Ghost(new_outer): Ghost<int>,
    ) -> (r: Result<usize, std::io::Error>)
        requires
            old(self).wf(),
            old(self).synced,
            len_ok(d.len() as int, old(self).s()),
            0 <= o <= outer_len_of(d.len() as int, old(self).s()),
            i < data@.len(),
            o + data@.len() <= new_outer,
            outer_len_of(d.len() as int, old(self).s()) <= new_outer,
            inner_len_of(new_outer, old(self).s()) <= u64::MAX,
            i == 0 || (o + i) % (old(self).s() - 4) == 0,
            old(self).inner.bytes() == written(d, old(self).s(), o, data@.subrange(0, i as int)),
            old(self).inner_pos == inner_of(o + i, old(self).s()),
        ensures
            final(self).wf(),
            final(self).cfg == old(self).cfg,
            r is Err ==> !final(self).synced,
            r is Ok ==> {
                let c = r->Ok_0;
                let s = old(self).s();
                &&& 1 <= c
                &&& i + c <= data@.len()
                &&& final(self).synced
                &&& i + c == data@.len() || (o + i + c) % (s - 4) == 0
                &&& final(self).inner.bytes() == written(
                    d,
                    s,
                    o,
                    data@.subrange(0, i + c),
                )
                &&& final(self).inner_pos == inner_of(o + i + c, s)
            },
    {
        let ghost s = self.s();
        let ghost b = s - 4;
        let seg_len = self.cfg.seg_len as u64;
        let body = self.body_len as u64;
        let n = data.len();
        let ghost dd = self.inner.bytes();
        let pos = self.inner_pos;
        let r = pos % seg_len;
        proof {
            lemma_inner_of_parts(o + i, s);
            assert(((o + i) / b) * s >= 0) by (nonlinear_arith)
                requires
                    (o + i) / b >= 0,
                    s > 0,
            ;
        }
        let ss = pos - r;
        let c: usize = if n - i < (body - r) as usize {
            n - i
        } else {
            (body - r) as usize
        };
        proof {
            lemma_inner_of_parts(o + i, s);
            lemma_step_geometry(d, s, o, data@, i as int, c as int);
            lemma_step_body(d, s, o, data@, i as int, c as int);
            lemma_write_step(d, s, o, data@, i as int, c as int);
            let c2 = overwrite(content(d, s), o, data@.subrange(0, i + c));
            lemma_content_written(d, s, o, data@.subrange(0, i + c));
            lemma_body_end(c2.len() as int, s, (o + i) / b);
            lemma_inner_len_mono(c2.len() as int, new_outer as int, s);
        }
        let cur_len = self.inner_len;
        let obe = if ss < cur_len {
            (if seg_len < cur_len - ss {
                ss + seg_len
            } else {
                cur_len
            }) - CHECKSUM_LEN as u64
        } else {
            ss
        };
        let chunk = vstd::slice::slice_subrange(data, i, i + c);
        let crc = match splice_and_hash(&mut self.inner, &mut self.buf, ss, pos, chunk, obe) {
            Ok(crc) => crc,
            Err(e) => {
                self.synced = false;
                return Err(e);
            },
        };
        let we = pos + c as u64;
        let nbe = if we < obe {
            obe
        } else {
            we
        };
        proof {
            let c2 = overwrite(content(d, s), o, data@.subrange(0, i + c));
            let k = (o + i) / b;
            assert(chunk@ == data@.subrange(i as int, i + c));
            assert(crc.fed@ == body_of(c2, s, k));
            assert(crc.value == crate::crc::crc32_of(body_of(c2, s, k)));
        }
        put_stored_form(&mut self.buf, crc.value);
        match self.inner.write_all(vstd::slice::slice_subrange(self.buf.as_slice(), 0, 4)) {
            Ok(()) => {},
            Err(e) => {
                self.synced = false;
                return Err(e);
            },
        }
        let new_len = if cur_len < nbe + CHECKSUM_LEN as u64 {
            nbe + CHECKSUM_LEN as u64
        } else {
            cur_len
        };
        proof {
            lemma_inner_of_parts(o + i + c, s);
        }
        if i + c < n || we - ss == body {
            // the write ended at the end of a body: the cursor is past
            // the checksum, on the next body
            self.inner_len = new_len;
            self.inner_pos = nbe + CHECKSUM_LEN as u64;
        } else {
            // the write ended inside a body: back to where it ended
            self.inner_len = new_len;
            self.inner_pos = we;
            match self.inner.seek(SeekFrom::Start(we)) {
                Ok(_) => {},
                Err(e) => {
                    self.synced = false;
                    return Err(e);
                },
            }
        }
            Ok(c)
    }
}


/// Writes `chunk` at the inner cursor, inside the body of the segment that
/// starts at `ss`, and feeds the new body to a fresh checksum: the body bytes
/// from `ss` up to the cursor (read back), `chunk`, then the body bytes after
/// it up to the old body end `obe` (read back). The cursor ends at the end of
/// the new body.
fn splice_and_hash<I: ByteStore>(
    inner: &mut I,
    buf: &mut Vec<u8>,
    ss: u64,
    ws: u64,
    chunk: &[u8],
    obe: u64,
) -> (r: Result<Crc, std::io::Error>)
    requires
        old(buf)@.len() > 0,
        old(inner).cursor() == ws,
        ss <= ws <= old(inner).bytes().len(),
        obe <= old(inner).bytes().len(),
        old(inner).cursor() + chunk@.len() <= u64::MAX,
    ensures
        final(buf)@.len() == old(buf)@.len(),
        r is Ok ==> {
            let dd = old(inner).bytes();
            let we = ws + chunk@.len();
            let crc = r->Ok_0;
            &&& crc.wf()
            &&& crc.fed@ == dd.subrange(ss as int, ws as int) + chunk@ + if we < obe {
                dd.subrange(we, obe as int)
            } else {
                Seq::empty()
            }
            &&& final(inner).bytes() == overwrite(dd, ws as int, chunk@)
            &&& final(inner).cursor() == if we < obe {
                obe as int
            } else {
                we
            }
        },
{
    let ghost dd = inner.bytes();
    let mut crc = Crc::new();
    // the body bytes before the write
    if ws > ss {
        match inner.seek(SeekFrom::Start(ss)) {
            Ok(_) => {},
            Err(e) => {
                return Err(e);
            },
        }
        match hash_inner(inner, buf, &mut crc, ws - ss) {
            Ok(()) => {},
            Err(e) => {
                return Err(e);
            },
        }
    }
    proof {
        if ws == ss {
            assert(dd.subrange(ss as int, ss as int) =~= Seq::<u8>::empty());
        }
    }
    // the written bytes
    match inner.write_all(chunk) {
        Ok(()) => {},
        Err(e) => {
            return Err(e);
        },
    }
    crc.update(chunk);
    let we = ws + chunk.len() as u64;
    let ghost d1 = inner.bytes();
    // the body bytes after the write
    if we < obe {
        proof {
            assert(d1.subrange(we as int, obe as int) =~= dd.subrange(we as int, obe as int));
        }
        match hash_inner(inner, buf, &mut crc, obe - we) {
            Ok(()) => {},
            Err(e) => {
                return Err(e);
            },
        }
    } else {
        proof {
            assert(crc.fed@ =~= dd.subrange(ss as int, ws as int) + chunk@ + Seq::<u8>::empty());
        }
    }
    Ok(crc)
}

} // verus!
