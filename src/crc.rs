use vstd::prelude::*;

verus! {

/// The CRC-32 (IEEE) of a byte sequence, as `crc32fast` computes it.
pub uninterp spec fn crc32_of(data: Seq<u8>) -> u32;

/// The big-endian encoding of a checksum, as it is stored.
pub open spec fn be_bytes(x: u32) -> Seq<u8> {
    seq![(x >> 24u32) as u8, (x >> 16u32) as u8, (x >> 8u32) as u8, x as u8]
}

/// Relies on `crc32fast::Hasher` (`new_with_initial`, `update`, `finalize`):
/// a hasher started from the CRC of some bytes and fed more bytes finalizes
/// to the CRC of all of them, and one started from 0 is a fresh hasher.
#[verifier::external_body]
fn crc32_resume(prev: u32, bytes: &[u8]) -> (r: u32)
    ensures
        prev == 0 ==> r == crc32_of(bytes@),
        forall|p: Seq<u8>| #[trigger] crc32_of(p) == prev ==> r == crc32_of(p + bytes@),
{
    let mut hasher = crc32fast::Hasher::new_with_initial(prev);
    hasher.update(bytes);
    hasher.finalize()
}

/// The CRC-32 of `buf`.
pub fn crc32(buf: &[u8]) -> (r: u32)
    ensures
        r == crc32_of(buf@),
{
    crc32_resume(0, buf)
}

/// Does `buf[at..at + 4]` hold the stored form of `v`?
pub(crate) fn is_stored_form(buf: &Vec<u8>, at: usize, v: u32) -> (r: bool)
    requires
        at + 4 <= buf@.len(),
    ensures
        r == (buf@.subrange(at as int, at + 4) == be_bytes(v)),
{
    let _len = buf.len();
    let r = buf[at] == (v >> 24u32) as u8 && buf[at + 1] == (v >> 16u32) as u8 && buf[at + 2]
        == (v >> 8u32) as u8 && buf[at + 3] == v as u8;
    proof {
        let w = buf@.subrange(at as int, at + 4);
        if r {
            assert(w =~= be_bytes(v));
        } else if w == be_bytes(v) {
            assert(w[0] == buf@[at as int]);
            assert(w[1] == buf@[at + 1]);
            assert(w[2] == buf@[at + 2]);
            assert(w[3] == buf@[at + 3]);
        }
    }
    r
}

/// Puts the stored form of `v` into `buf[..4]`.
pub(crate) fn put_stored_form(buf: &mut Vec<u8>, v: u32)
    requires
        old(buf)@.len() >= 4,
    ensures
        final(buf)@.len() == old(buf)@.len(),
        final(buf)@.subrange(0, 4) == be_bytes(v),
{
    buf.set(0, (v >> 24u32) as u8);
    buf.set(1, (v >> 16u32) as u8);
    buf.set(2, (v >> 8u32) as u8);
    buf.set(3, v as u8);
    proof {
        assert(buf@.subrange(0, 4) =~= be_bytes(v));
    }
}

/// A running checksum: the CRC of the bytes fed so far.
pub(crate) struct Crc {
    pub(crate) value: u32,
    pub(crate) fed: Ghost<Seq<u8>>,
}

impl Crc {
    pub(crate) open spec fn wf(&self) -> bool {
        if self.fed@.len() == 0 {
            self.value == 0
        } else {
            self.value == crc32_of(self.fed@)
        }
    }

    pub(crate) open spec fn holds(&self, data: Seq<u8>) -> bool {
        self.wf() && self.fed@ == data
    }

    pub(crate) fn new() -> (r: Crc)
        ensures
            r.holds(Seq::empty()),
    {
        Crc { value: 0, fed: Ghost(Seq::empty()) }
    }

    pub(crate) fn update(&mut self, bytes: &[u8])
        requires
            old(self).wf(),
        ensures
            final(self).holds(old(self).fed@ + bytes@),
    {
        let v = crc32_resume(self.value, bytes);
        proof {
            if self.fed@.len() == 0 {
                assert(self.fed@ + bytes@ =~= bytes@);
            }
            if bytes@.len() == 0 {
                assert(self.fed@ + bytes@ =~= self.fed@);
            }
        }
        if bytes.len() > 0 {
            self.value = v;
        }
        self.fed = Ghost(self.fed@ + bytes@);
    }
}

} // verus!
