//! The checksummed store: its state, construction, positions and seeking.
use vstd::prelude::*;

use crate::config::Config;
use crate::error::Error;
use crate::inner::{invalid_input, ByteStore, SeekFrom};
use crate::layout::{
    end_rel_of, fits_i64, fits_u64, inner_of, lemma_end_rel_of, lemma_inner_of_parts,
    lemma_inner_of_mono, lemma_outer_of_parts, lemma_rel_of, len_ok, on_body, outer_len_from, outer_len_of, outer_of,
    outer_pos_of, rel_of, rel_pos_of, seg_ok, start_pos_of, CHECKSUM_LEN,
};
use crate::model::content;

mod read;
mod validate;
mod write;

verus! {

/// Largest offset a seek accepts, exclusive.
pub const MAX_SEEK: i64 = 1_000_000_000_000_000_000;

/// An inner byte store split into segments, each a body followed by the
/// big-endian CRC-32 of that body, presented as the sequence of bodies.
///
/// Outer positions count body bytes only; inner positions count every byte
/// of the inner store. Between calls the inner cursor rests on a body byte
/// (or where the next body byte would go).
///
/// A failed inner call aborts the operation that made it. Since the inner
/// store may then have moved its cursor or changed its length anywhere, the
/// cached cursor and length are no longer trusted: reads, writes and seeks
/// refuse until `validate`, which measures the inner store afresh, has
/// walked it again.
#[derive(Debug)]
pub struct CrcStore<I: ByteStore> {
    cfg: Config,
    body_len: u32,
    buf: Vec<u8>,
    inner: I,
    inner_len: u64,
    inner_pos: u64,
    synced: bool,
}

impl<I: ByteStore> CrcStore<I> {
    /// The segment length, as an integer.
    pub open spec fn s(&self) -> int {
        self.spec_cfg().seg_len as int
    }

    /// Well-formedness: holds between any two calls.
    pub closed spec fn wf(&self) -> bool {
        &&& self.cfg.is_valid()
        &&& seg_ok(self.s())
        &&& self.body_len == self.cfg.seg_len - 4
        &&& self.buf@.len() == self.cfg.buf_len
        &&& len_ok(self.inner_len as int, self.s())
        &&& on_body(self.inner_pos as int, self.s())
        &&& outer_of(self.inner_pos as int, self.s()) <= outer_len_of(
            self.inner_len as int,
            self.s(),
        )
        &&& self.synced ==> {
            &&& self.inner.bytes().len() == self.inner_len
            &&& self.inner.cursor() == self.inner_pos
        }
    }

    /// What well-formedness gives a caller: a valid configuration, a cursor
    /// on a body byte within the outer bytes, an accepted inner length, and,
    /// while in step, cached length and cursor that match the inner store.
    pub proof fn lemma_wf(&self)
        requires
            self.wf(),
        ensures
            self.spec_cfg().is_valid(),
            seg_ok(self.s()),
            self.s() == self.spec_cfg().seg_len,
            self.data() == self.spec_inner().bytes(),
            0 <= self.spec_inner_pos() <= self.spec_inner_len(),
            len_ok(self.spec_inner_len(), self.s()),
            on_body(self.spec_inner_pos(), self.s()),
            self.spec_inner_pos() == inner_of(self.position(), self.s()),
            0 <= self.position() <= self.spec_outer_len(),
            self.synced() ==> self.spec_inner_len() == self.data().len()
                && self.spec_inner().cursor() == self.spec_inner_pos(),
    {
        lemma_outer_of_parts(self.inner_pos as int, self.s());
        lemma_inner_of_mono(self.position(), self.spec_outer_len(), self.s());
        lemma_end_rel_of(self.inner_len as int, 0, self.s());
    }

    /// The configuration the store was made with.
    pub closed spec fn spec_cfg(&self) -> Config {
        self.cfg
    }

    /// Do the cached cursor and length match the inner store?
    pub closed spec fn synced(&self) -> bool {
        self.synced
    }

    /// The inner store.
    pub closed spec fn spec_inner(&self) -> I {
        self.inner
    }

    /// The bytes of the inner store.
    pub open spec fn data(&self) -> Seq<u8> {
        self.spec_inner().bytes()
    }

    /// The outer bytes: the bodies of all segments.
    pub open spec fn outer(&self) -> Seq<u8> {
        content(self.data(), self.s())
    }

    /// The cached inner length.
    pub closed spec fn spec_inner_len(&self) -> int {
        self.inner_len as int
    }

    /// The cached inner cursor.
    pub closed spec fn spec_inner_pos(&self) -> int {
        self.inner_pos as int
    }

    /// The outer cursor.
    pub open spec fn position(&self) -> int {
        outer_of(self.spec_inner_pos(), self.s())
    }

    /// Number of outer bytes.
    pub open spec fn spec_outer_len(&self) -> int {
        outer_len_of(self.spec_inner_len(), self.s())
    }

    /// The outer position a seek asks for, if the store accepts it: offsets
    /// below `MAX_SEEK` in size, landing within the outer bytes.
    pub open spec fn seek_outer(&self, pos: SeekFrom) -> Option<int> {
        let t = match pos {
            SeekFrom::Start(o) => o as int,
            SeekFrom::Current(d) => self.position() + d,
            SeekFrom::End(d) => self.spec_outer_len() + d,
        };
        let small = match pos {
            SeekFrom::Start(o) => o < MAX_SEEK,
            SeekFrom::Current(d) => -MAX_SEEK < d < MAX_SEEK,
            SeekFrom::End(d) => -MAX_SEEK < d < MAX_SEEK,
        };
        if small && 0 <= t <= self.spec_outer_len() {
            Some(t)
        } else {
            None
        }
    }

    /// Returns a store over `inner`, with the cursor at the first body
    /// byte. The checksums are not inspected; an inner length whose trailing
    /// partial segment is 1 to 4 bytes long is refused.
    pub fn new(config: Config, inner: I) -> (r: Result<Self, Error>)
        ensures
            config.check() is Err ==> (r matches Err(Error::Config(e)) && e == config.check()->Err_0),
            config.is_valid() && !len_ok(inner.bytes().len() as int, config.seg_len as int) ==> (
            r matches Err(Error::BadInnerLen) || r matches Err(Error::Io(_))),
            config.is_valid() && len_ok(inner.bytes().len() as int, config.seg_len as int) ==> (
            r is Ok || r matches Err(Error::Io(_))),
            r is Ok ==> {
                let st = r->Ok_0;
                &&& st.wf()
                &&& st.synced()
                &&& st.spec_cfg() == config
                &&& st.data() == inner.bytes()
                &&& st.spec_inner_len() == inner.bytes().len()
                &&& st.spec_inner_pos() == 0
                &&& st.position() == 0
            },
    {
        match config.validate() {
            Err(e) => {
                return Err(Error::Config(e));
            },
            Ok(()) => {},
        }
        let mut inner = inner;
        let inner_len = match inner.seek(SeekFrom::End(0)) {
            Ok(n) => n,
            Err(e) => {
                return Err(Error::Io(e));
            },
        };
        let off = inner_len % config.seg_len as u64;
        if off > 0 && off <= CHECKSUM_LEN as u64 {
            return Err(Error::BadInnerLen);
        }
        let inner_pos = match inner.seek(SeekFrom::Start(0)) {
            Ok(n) => n,
            Err(e) => {
                return Err(Error::Io(e));
            },
        };
        proof {
            lemma_inner_of_parts(0, config.seg_len as int);
        }
        let st = CrcStore {
            cfg: config,
            body_len: config.seg_len - CHECKSUM_LEN,
            buf: vec![0u8; config.buf_len as usize],
            inner,
            inner_len,
            inner_pos,
            synced: true,
        };
        proof {
            assert(outer_len_of(inner_len as int, config.seg_len as int) >= 0) by {
                lemma_outer_len_nonneg(inner_len as int, config.seg_len as int);
            }
        }
        Ok(st)
    }

    /// Consumes the store, returning the inner store.
    pub fn into_inner(self) -> (r: I)
        ensures
            r == self.spec_inner(),
    {
        self.inner
    }

    /// The configuration.
    pub fn cfg(&self) -> (r: Config)
        ensures
            r == self.spec_cfg(),
    {
        self.cfg
    }

    /// Length of a segment, checksum included.
    pub fn seg_len(&self) -> (r: u32)
        ensures
            r == self.spec_cfg().seg_len,
    {
        self.cfg.seg_len
    }

    /// Length of the body of a segment, checksum excluded.
    pub fn body_len(&self) -> (r: u32)
        requires
            self.wf(),
        ensures
            r == self.spec_cfg().seg_len - 4,
            4 <= r <= 65532,
    {
        self.body_len
    }

    /// The cached inner cursor.
    pub fn inner_pos(&self) -> (r: u64)
        ensures
            r == self.spec_inner_pos(),
    {
        self.inner_pos
    }

    /// The cached inner length.
    pub fn inner_len(&self) -> (r: u64)
        ensures
            r == self.spec_inner_len(),
    {
        self.inner_len
    }

    /// Number of outer bytes.
    pub fn outer_len(&self) -> (r: u64)
        requires
            self.wf(),
        ensures
            r == self.spec_outer_len(),
    {
        outer_len_from(self.cfg.seg_len, self.inner_len)
    }

    /// Inner position of outer position `outer_n`, if it fits in a `u64`.
    pub fn start_pos(&self, outer_n: u64) -> (r: Option<u64>)
        requires
            self.wf(),
        ensures
            r == if fits_u64(inner_of(outer_n as int, self.s())) {
                Some(inner_of(outer_n as int, self.s()) as u64)
            } else {
                None::<u64>
            },
    {
        start_pos_of(self.cfg.seg_len, outer_n)
    }

    /// Outer position of inner position `inner_n`; `None` on a checksum byte.
    pub fn outer_pos(&self, inner_n: u64) -> (r: Option<u64>)
        requires
            self.wf(),
        ensures
            r == if on_body(inner_n as int, self.s()) {
                Some(outer_of(inner_n as int, self.s()) as u64)
            } else {
                None::<u64>
            },
    {
        outer_pos_of(self.cfg.seg_len, inner_n)
    }

    /// Inner delta for outer delta `outer_n` from inner position `inner_n`,
    /// which lies on a body byte or where a segment's checksum starts.
    pub fn rel_inner_pos(&self, outer_n: i64, inner_n: u64) -> (r: Option<i64>)
        requires
            self.wf(),
            (inner_n as int) % self.s() <= self.s() - 4,
        ensures
            r == if fits_i64(rel_of(outer_n as int, inner_n as int, self.s())) {
                Some(rel_of(outer_n as int, inner_n as int, self.s()) as i64)
            } else {
                None::<i64>
            },
    {
        rel_pos_of(self.cfg.seg_len, outer_n, inner_n)
    }

    /// Inner delta from the cursor for outer delta `outer_n`.
    pub fn current_pos(&self, outer_n: i64) -> (r: Option<i64>)
        requires
            self.wf(),
        ensures
            r == if fits_i64(rel_of(outer_n as int, self.spec_inner_pos(), self.s())) {
                Some(rel_of(outer_n as int, self.spec_inner_pos(), self.s()) as i64)
            } else {
                None::<i64>
            },
    {
        self.rel_inner_pos(outer_n, self.inner_pos)
    }

    /// Inner delta from the end for outer delta `outer_n` from the end.
    pub fn end_pos(&self, outer_n: i64) -> (r: Option<i64>)
        requires
            self.wf(),
        ensures
            r == if fits_i64(end_rel_of(outer_n as int, self.spec_inner_len(), self.s())) && (
            self.spec_inner_len() == 0 || fits_i64(
                rel_of(outer_n as int, self.spec_inner_len() - 4, self.s()),
            )) {
                Some(end_rel_of(outer_n as int, self.spec_inner_len(), self.s()) as i64)
            } else {
                None::<i64>
            },
    {
        if self.inner_len == 0 {
            proof {
                crate::layout::lemma_div_mod_unique(0, self.s(), 0, 0);
            }
            self.rel_inner_pos(outer_n, 0)
        } else {
            proof {
                lemma_end_base(self.inner_len as int, self.s());
            }
            match self.rel_inner_pos(outer_n, self.inner_len - CHECKSUM_LEN as u64) {
                Some(m) => m.checked_sub(CHECKSUM_LEN as i64),
                None => None,
            }
        }
    }
    /// Moves the outer cursor to where `pos` asks; returns the inner
    /// position it lands on. Refused when the offset is `MAX_SEEK` or more
    /// in size, when the target lies before the start or past the end of the
    /// outer bytes, and while the store is out of step with its inner store.
    pub fn seek(&mut self, pos: SeekFrom) -> (r: Result<u64, std::io::Error>)
        requires
            old(self).wf(),
        ensures
            final(self).wf(),
            final(self).spec_cfg() == old(self).spec_cfg(),
            final(self).spec_inner_len() == old(self).spec_inner_len(),
            !old(self).synced() || old(self).seek_outer(pos) is None ==> r is Err && *final(self)
                == *old(self),
            old(self).synced() && old(self).seek_outer(pos) is Some ==> r is Ok
                || !final(self).synced(),
            r is Ok ==> {
                let t = old(self).seek_outer(pos)->Some_0;
                &&& old(self).seek_outer(pos) is Some
                &&& final(self).synced()
                &&& final(self).data() == old(self).data()
                &&& final(self).position() == t
                &&& final(self).spec_inner_pos() == inner_of(t, old(self).s())
                &&& r->Ok_0 == final(self).spec_inner_pos()
            },
    {
        if !self.synced {
            return Err(invalid_input("store is out of step with its inner store; validate it"));
        }
        let ghost s = self.s();
        let ghost len = self.inner_len as int;
        let outer_len = self.outer_len();
        let here: u64 = match self.outer_pos(self.inner_pos) {
            Some(o) => o,
            None => {
                return Err(invalid_input("cursor off the body bytes"));
            },
        };
        proof {
            lemma_outer_of_parts(self.inner_pos as int, s);
            lemma_end_rel_of(len, 0, s);
            lemma_outer_len_nonneg(len, s);
        }
        let target: u64;
        match pos {
            SeekFrom::Start(o) => {
                if o >= MAX_SEEK as u64 || o > outer_len {
                    return Err(invalid_input("seek out of range"));
                }
                proof {
                    lemma_inner_of_mono(o as int, outer_len as int, s);
                }
                match self.start_pos(o) {
                    Some(i) => {
                        target = i;
                    },
                    None => {
                        return Err(invalid_input("seek out of range"));
                    },
                }
            },
            SeekFrom::Current(d) => {
                if d >= MAX_SEEK || d <= -MAX_SEEK {
                    return Err(invalid_input("seek offset too large"));
                }
                let t = here as i128 + d as i128;
                if t < 0 || t > outer_len as i128 {
                    return Err(invalid_input("seek out of range"));
                }
                proof {
                    lemma_rel_bounds(d as int, self.inner_pos as int, s);
                    lemma_rel_of(here as int, d as int, s);
                    lemma_inner_of_mono(t as int, outer_len as int, s);
                    lemma_inner_of_parts(t as int, s);
                }
                match self.current_pos(d) {
                    Some(delta) => {
                        target = (self.inner_pos as i128 + delta as i128) as u64;
                    },
                    None => {
                        return Err(invalid_input("seek out of range"));
                    },
                }
            },
            SeekFrom::End(d) => {
                if d >= MAX_SEEK || d <= -MAX_SEEK {
                    return Err(invalid_input("seek offset too large"));
                }
                let t = outer_len as i128 + d as i128;
                if t < 0 || t > outer_len as i128 {
                    return Err(invalid_input("seek out of range"));
                }
                proof {
                    if len > 0 {
                        lemma_end_base(len, s);
                        lemma_rel_bounds(d as int, len - 4, s);
                    } else {
                        crate::layout::lemma_div_mod_unique(0, s, 0, 0);
                        lemma_rel_bounds(d as int, 0, s);
                    }
                    lemma_end_rel_of(len, d as int, s);
                    lemma_inner_of_mono(t as int, outer_len as int, s);
                    lemma_inner_of_parts(t as int, s);
                }
                match self.end_pos(d) {
                    Some(delta) => {
                        target = (self.inner_len as i128 + delta as i128) as u64;
                    },
                    None => {
                        return Err(invalid_input("seek out of range"));
                    },
                }
            },
        }
        proof {
            let t = self.seek_outer(pos)->Some_0;
            lemma_inner_of_parts(t, s);
        }
        match self.inner.seek(SeekFrom::Start(target)) {
            Ok(p) => {
                self.inner_pos = p;
                Ok(p)
            },
            Err(e) => {
                self.synced = false;
                Err(e)
            },
        }
    }

    /// Flushes the inner store.
    pub fn flush(&mut self) -> (r: Result<(), std::io::Error>)
        requires
            old(self).wf(),
        ensures
            final(self).wf(),
            final(self).spec_cfg() == old(self).spec_cfg(),
            final(self).spec_inner_len() == old(self).spec_inner_len(),
            final(self).spec_inner_pos() == old(self).spec_inner_pos(),
            r is Ok ==> final(self).data() == old(self).data()
                && final(self).synced() == old(self).synced(),
    {
        match self.inner.flush() {
            Ok(()) => Ok(()),
            Err(e) => {
                self.synced = false;
                Err(e)
            },
        }
    }
}

/// A non-empty inner length of an accepted shape ends with a checksum.
pub(crate) proof fn lemma_end_base(len: int, s: int)
    requires
        seg_ok(s),
        len > 0,
        len_ok(len, s),
    ensures
        len >= 4,
        (len - 4) % s <= s - 4,
{
    vstd::arithmetic::div_mod::lemma_fundamental_div_mod(len, s);
    let k = len / s;
    let m = len % s;
    if m == 0 {
        assert(k >= 1) by (nonlinear_arith)
            requires
                len == s * k,
                len > 0,
                s > 0,
        ;
        assert(len - 4 == (k - 1) * s + (s - 4)) by (nonlinear_arith)
            requires
                len == s * k,
        ;
        crate::layout::lemma_div_mod_unique(len - 4, s, k - 1, s - 4);
    } else {
        assert(k >= 0) by (nonlinear_arith)
            requires
                len == s * k + m,
                len > 0,
                0 <= m < s,
        ;
        assert(len >= 4) by (nonlinear_arith)
            requires
                len == s * k + m,
                k >= 0,
                m > 4,
                s > 0,
        ;
        crate::layout::lemma_div_mod_unique(len - 4, s, k, m - 4);
    }
}

/// The outer length is never negative.
pub(crate) proof fn lemma_outer_len_nonneg(len: int, s: int)
    requires
        seg_ok(s),
        len >= 0,
        len_ok(len, s),
    ensures
        0 <= outer_len_of(len, s) <= len,
{
    vstd::arithmetic::div_mod::lemma_fundamental_div_mod(len, s);
    let k = len / s;
    let m = len % s;
    assert(k >= 0 && k * (s - 4) <= k * s) by (nonlinear_arith)
        requires
            len == s * k + m,
            len >= 0,
            0 <= m < s,
    ;
}

/// The inner delta stays within twice the outer delta, give or take a segment.
proof fn lemma_rel_bounds(d: int, i: int, s: int)
    requires
        seg_ok(s),
        i >= 0,
        i % s <= s - 4,
    ensures
        d >= 0 ==> -s <= rel_of(d, i, s) <= 2 * d + s,
        d < 0 ==> 2 * d - s <= rel_of(d, i, s) <= s,
{
    let b = s - 4;
    let x = i % s + d;
    vstd::arithmetic::div_mod::lemma_fundamental_div_mod(x, b);
    let q = x / b;
    let r = x % b;
    if q >= 0 {
        assert(4 * q <= b * q) by (nonlinear_arith)
            requires
                q >= 0,
                b >= 4,
        ;
    } else {
        assert(4 * q >= b * q) by (nonlinear_arith)
            requires
                q < 0,
                b >= 4,
        ;
    }
}

} // verus!
