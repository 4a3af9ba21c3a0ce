//! Reading: body bytes are copied out, checksums are stepped over.
use vstd::prelude::*;

use super::{lemma_outer_len_nonneg, CrcStore};
use crate::inner::{invalid_input, ByteStore, SeekFrom};
use crate::layout::{
    inner_of, lemma_end_rel_of, lemma_inner_of_below_len, lemma_inner_of_parts,
    lemma_outer_of_parts, lemma_same_segment, CHECKSUM_LEN,
};

verus! {

impl<I: ByteStore> CrcStore<I> {
    /// Reads outer bytes at the cursor into `buf`, as many as fit and as
    /// remain; returns how many. Refused while the store is out of step with
    /// its inner store, and when `validate_on_read` is set.
    pub fn read(&mut self, buf: &mut [u8]) -> (r: Result<usize, std::io::Error>)
        requires
            old(self).wf(),
        ensures
            final(self).wf(),
            final(self).spec_cfg() == old(self).spec_cfg(),
            final(self).spec_inner_len() == old(self).spec_inner_len(),
            final(buf)@.len() == old(buf)@.len(),
            !old(self).synced() || old(self).spec_cfg().validate_on_read ==> r is Err
                && *final(self) == *old(self) && final(buf)@ == old(buf)@,
            old(self).synced() && !old(self).spec_cfg().validate_on_read && (old(buf)@.len() == 0
                || old(self).position() == old(self).spec_outer_len()) ==> r is Ok && r->Ok_0 == 0
                && *final(self) == *old(self) && final(buf)@ == old(buf)@,
            old(self).synced() && !old(self).spec_cfg().validate_on_read ==> r is Ok
                || !final(self).synced(),
            r is Ok ==> {
                let o = old(self).position();
                let n = r->Ok_0 as int;
                &&& n == if old(buf)@.len() < old(self).spec_outer_len() - o {
                    old(buf)@.len() as int
                } else {
                    old(self).spec_outer_len() - o
                }
                &&& final(buf)@.subrange(0, n) == old(self).outer().subrange(o, o + n)
                &&& final(buf)@.subrange(n, old(buf)@.len() as int) == old(buf)@.subrange(
                    n,
                    old(buf)@.len() as int,
                )
                &&& final(self).synced()
                &&& final(self).data() == old(self).data()
                &&& final(self).position() == o + n
            },
    {
        if !self.synced {
            return Err(invalid_input("store is out of step with its inner store; validate it"));
        }
        if self.cfg.validate_on_read {
            return Err(invalid_input("validate_on_read is not implemented"));
        }
        let ghost s = self.s();
        let ghost b = s - 4;
        let ghost len = self.inner_len as int;
        let ghost d = self.inner.bytes();
        let ghost o = self.position();
        let seg_len = self.cfg.seg_len as u64;
        let body = self.body_len as u64;
        let outer_len = self.outer_len();
        let here: u64 = match self.outer_pos(self.inner_pos) {
            Some(p) => p,
            None => {
                return Err(invalid_input("cursor off the body bytes"));
            },
        };
        proof {
            lemma_outer_of_parts(self.inner_pos as int, s);
            lemma_outer_len_nonneg(len, s);
        }
        let total = buf.len();
        let want: usize = if (total as u64) < outer_len - here {
            total
        } else {
            (outer_len - here) as usize
        };

        if want == 0 {
            // nothing fits, or nothing is left
            return Ok(0);
        }
        let mut i: usize = 0;
        while i < want
            invariant
                self.wf(),
                self.synced,
                old(self).wf(),
                old(self).synced,
                !old(self).cfg.validate_on_read,
                old(self).inner.bytes() == d,
                o == old(self).position(),
                total == old(buf)@.len(),
                self.cfg == old(self).cfg,
                self.inner_len == old(self).inner_len,
                self.inner.bytes() == d,
                s == self.s(),
                b == s - 4,
                len == self.inner_len,
                seg_len == s,
                body == b,
                outer_len == crate::layout::outer_len_of(len, s),
                here == o,
                0 <= o <= outer_len,
                want <= total,
                total == buf@.len(),
                buf@.len() == old(buf)@.len(),
                o + want <= outer_len,
                i <= want,
                self.inner_pos == inner_of(o + i, s),
                buf@.subrange(0, i as int) == crate::model::content(d, s).subrange(o, o + i),
                forall|j: int| i <= j < total ==> #[trigger] buf@[j] == old(buf)@[j],
            decreases want - i,
        {
            let off = self.inner_pos % seg_len;
            proof {
                lemma_inner_of_parts(o + i, s);
                lemma_inner_of_below_len(o + i, len, s);
            }
            // as much as is still wanted, and as the body holds
            let n: usize = if want - i < (body - off) as usize {
                want - i
            } else {
                (body - off) as usize
            };
            proof {
                lemma_same_segment(o + i, n - 1, s);
                lemma_inner_of_below_len(o + i + n - 1, len, s);
            }
            let ghost before = buf@;
            let m = match self.inner.read_some(buf, i, n) {
                Ok(m) => m,
                Err(e) => {
                    self.synced = false;
                    return Err(e);
                },
            };
            proof {
                lemma_same_segment(o + i, m as int, s);
                assert forall|j: int| 0 <= j < i + m implies #[trigger] buf@[j]
                    == crate::model::content(d, s)[o + j] by {
                    if j < i {
                        assert(buf@[j] == buf@.subrange(0, i as int)[j]);
                        assert(before[j] == before.subrange(0, i as int)[j]);
                    } else {
                        assert(buf@[j] == buf@.subrange(i as int, i + m)[j - i]);
                        lemma_same_segment(o + i, j - i, s);
                    }
                }
                assert(buf@.subrange(0, i + m) =~= crate::model::content(d, s).subrange(
                    o,
                    o + i + m,
                ));
                assert forall|j: int| i + m <= j < total implies #[trigger] buf@[j] == old(buf)@[j] by {
                    assert(buf@[j] == buf@.subrange(i + m, buf@.len() as int)[j - i - m]);
                    assert(before[j] == before.subrange(i + m, before.len() as int)[j - i - m]);
                }
            }
            i = i + m;
            proof {
                crate::layout::lemma_inner_of_mono(o + i, outer_len as int, s);
                lemma_end_rel_of(len, 0, s);
                lemma_inner_of_parts(o + i, s);
            }
            let next = self.inner_pos + m as u64;
            if next % seg_len == body {
                // step over the checksum to the next body
                self.inner_pos = next + CHECKSUM_LEN as u64;
                match self.inner.seek(SeekFrom::Current(CHECKSUM_LEN as i64)) {
                    Ok(_) => {},
                    Err(e) => {
                        self.synced = false;
                        return Err(e);
                    },
                }
            } else {
                self.inner_pos = next;
            }
            proof {
                lemma_inner_of_parts(o + i, s);
            }
        }
        proof {
            lemma_inner_of_parts(o + i, s);
            assert(buf@.subrange(i as int, total as int) =~= old(buf)@.subrange(
                i as int,
                total as int,
            ));
        }
        Ok(i)
    }
}

} // verus!
