//! The inner byte store that a checksummed store wraps.
use vstd::prelude::*;

verus! {

/// Origin and offset of a seek.
#[derive(Clone, Copy, Debug, PartialEq, Eq)]
pub enum SeekFrom {
    Start(u64),
    End(i64),
    Current(i64),
}

/// Where a seek lands, given the length and the cursor it starts from.
pub open spec fn seek_target(pos: SeekFrom, len: int, cursor: int) -> int {
    match pos {
        SeekFrom::Start(n) => n as int,
        SeekFrom::End(d) => len + d,
        SeekFrom::Current(d) => cursor + d,
    }
}

/// `s` with `b` written over it from position `at`, extending it if needed.
pub open spec fn overwrite(s: Seq<u8>, at: int, b: Seq<u8>) -> Seq<u8> {
    if at + b.len() >= s.len() {
        s.subrange(0, at) + b
    } else {
        s.subrange(0, at) + b + s.subrange(at + b.len(), s.len() as int)
    }
}

/// A random-access byte store with a cursor: a file, a byte vector.
///
/// Each method states what a successful call does; a failed call may leave
/// the bytes and the cursor anywhere.
pub trait ByteStore: Sized {
    /// The bytes held.
    spec fn bytes(&self) -> Seq<u8>;

    /// Where the next read or write starts.
    spec fn cursor(&self) -> nat;

    /// Reads up to `len` bytes at the cursor into `buf[start..start + len]`;
    /// the rest of `buf` stays as it was. `Ok(0)` means that `len` is 0 or
    /// that the cursor is at the end.
    fn read_some(&mut self, buf: &mut [u8], start: usize, len: usize) -> (r: Result<
        usize,
        std::io::Error,
    >)
        requires
            start + len <= old(buf)@.len(),
        ensures
            final(buf)@.len() == old(buf)@.len(),
            r is Ok ==> {
                let n = r->Ok_0 as int;
                let c = old(self).cursor() as int;
                &&& n <= len
                &&& final(self).bytes() == old(self).bytes()
                &&& final(self).cursor() == c + n
                &&& n > 0 ==> c + n <= old(self).bytes().len()
                &&& n == 0 ==> len == 0 || c >= old(self).bytes().len()
                &&& n > 0 ==> final(buf)@.subrange(start as int, start + n) == old(
                    self,
                ).bytes().subrange(c, c + n)
                &&& final(buf)@.subrange(0, start as int) == old(buf)@.subrange(0, start as int)
                &&& final(buf)@.subrange(start + n, old(buf)@.len() as int) == old(buf)@.subrange(
                    start + n,
                    old(buf)@.len() as int,
                )
            },
    ;

    /// Writes all of `data` at the cursor and moves the cursor past it.
    fn write_all(&mut self, data: &[u8]) -> (r: Result<(), std::io::Error>)
        ensures
            r is Ok && old(self).cursor() <= old(self).bytes().len() ==> {
                &&& final(self).bytes() == overwrite(
                    old(self).bytes(),
                    old(self).cursor() as int,
                    data@,
                )
                &&& final(self).cursor() == old(self).cursor() + data@.len()
            },
    ;

    /// Moves the cursor; returns where it landed.
    fn seek(&mut self, pos: SeekFrom) -> (r: Result<u64, std::io::Error>)
        ensures
            r is Ok ==> {
                &&& r->Ok_0 as int == seek_target(
                    pos,
                    old(self).bytes().len() as int,
                    old(self).cursor() as int,
                )
                &&& final(self).cursor() == r->Ok_0
                &&& final(self).bytes() == old(self).bytes()
            },
    ;

    /// Flushes buffered writes.
    fn flush(&mut self) -> (r: Result<(), std::io::Error>)
        ensures
            r is Ok ==> final(self).bytes() == old(self).bytes() && final(self).cursor()
                == old(self).cursor(),
    ;
}

/// Relies on `std::io::Error::new`: an error of kind `InvalidInput` with a message.
#[verifier::external_body]
pub(crate) fn invalid_input(msg: &str) -> (r: std::io::Error) {
    std::io::Error::new(std::io::ErrorKind::InvalidInput, msg)
}

/// A byte store held in memory.
#[derive(Debug)]
pub struct MemStore {
    data: Vec<u8>,
    pos: u64,
}

impl MemStore {
    /// A store holding `data`, with the cursor at its start.
    pub fn new(data: Vec<u8>) -> (r: MemStore)
        ensures
            r.bytes() == data@,
            r.cursor() == 0,
    {
        MemStore { data, pos: 0 }
    }

    /// The bytes held.
    pub fn into_vec(self) -> (r: Vec<u8>)
        ensures
            r@ == self.bytes(),
    {
        self.data
    }

    /// The bytes held.
    pub fn as_slice(&self) -> (r: &[u8])
        ensures
            r@ == self.bytes(),
    {
        self.data.as_slice()
    }

    /// The cursor.
    pub fn position(&self) -> (r: u64)
        ensures
            r == self.cursor(),
    {
        self.pos
    }
}

impl ByteStore for MemStore {
    closed spec fn bytes(&self) -> Seq<u8> {
        self.data@
    }

    closed spec fn cursor(&self) -> nat {
        self.pos as nat
    }

    fn read_some(&mut self, buf: &mut [u8], start: usize, len: usize) -> (r: Result<
        usize,
        std::io::Error,
    >) {
        let total = self.data.len();
        let n: usize = if self.pos >= total as u64 {
            0
        } else if len < total - self.pos as usize {
            len
        } else {
            total - self.pos as usize
        };
        let p: usize = if n == 0 {
            0
        } else {
            self.pos as usize
        };
        let buf_len = buf.len();
        let mut k: usize = 0;
        while k < n
            invariant
                k <= n <= len,
                buf_len == buf@.len(),
                total == self.data@.len(),
                start + len <= buf@.len(),
                buf@.len() == old(buf)@.len(),
                n > 0 ==> p == self.pos && p + n <= self.data@.len(),
                self.data@ == old(self).data@,
                self.pos == old(self).pos,
                forall|j: int| 0 <= j < k ==> #[trigger] buf@[start + j] == self.data@[p + j],
                forall|j: int| 0 <= j < start ==> buf@[j] == old(buf)@[j],
                forall|j: int| start + k <= j < buf@.len() ==> buf@[j] == old(buf)@[j],
            decreases n - k,
        {
            buf[start + k] = self.data[p + k];
            k = k + 1;
        }
        proof {
            if n > 0 {
                assert forall|j: int| 0 <= j < n implies #[trigger] buf@.subrange(
                    start as int,
                    start + n,
                )[j] == self.data@.subrange(p as int, p + n)[j] by {
                    assert(buf@[start + j] == self.data@[p + j]);
                }
                assert(buf@.subrange(start as int, start + n) =~= self.data@.subrange(
                    p as int,
                    p + n,
                ));
            }
            assert(buf@.subrange(0, start as int) =~= old(buf)@.subrange(0, start as int));
            assert(buf@.subrange(start + n, buf@.len() as int) =~= old(buf)@.subrange(
                start + n,
                old(buf)@.len() as int,
            ));
        }
        self.pos = self.pos + n as u64;
        Ok(n)
    }

    fn write_all(&mut self, data: &[u8]) -> (r: Result<(), std::io::Error>) {
        if self.pos > self.data.len() as u64 {
            // a gap before the cursor reads as zeros
            while (self.data.len() as u64) < self.pos
                invariant
                    self.pos == old(self).pos,
                decreases self.pos - self.data@.len(),
            {
                self.data.push(0);
            }
        }
        let p = self.pos as usize;
        if data.len() as u64 > u64::MAX - self.pos {
            return Err(invalid_input("write past the largest position"));
        }
        let ghost before = self.data@;
        let mut k: usize = 0;
        while k < data.len()
            invariant
                p == self.pos,
                p <= before.len(),
                p <= self.data@.len(),
                k <= data@.len(),
                self.pos + data@.len() <= u64::MAX,
                self.data@ =~= overwrite(before, p as int, data@.subrange(0, k as int)),
            decreases data@.len() - k,
        {
            let ghost prev = self.data@;
            if k < self.data.len() - p {
                self.data.set(p + k, data[k]);
            } else {
                self.data.push(data[k]);
            }
            proof {
                assert(data@.subrange(0, k + 1) =~= data@.subrange(0, k as int).push(data@[k as int]));
            }
            k = k + 1;
        }
        proof {
            assert(data@.subrange(0, k as int) =~= data@);
        }
        self.pos = self.pos + data.len() as u64;
        Ok(())
    }

    fn seek(&mut self, pos: SeekFrom) -> (r: Result<u64, std::io::Error>) {
        let len = self.data.len() as u64;
        let target: Option<u64> = match pos {
            SeekFrom::Start(n) => Some(n),
            SeekFrom::End(d) => offset_by(len, d),
            SeekFrom::Current(d) => offset_by(self.pos, d),
        };
        match target {
            Some(t) => {
                self.pos = t;
                Ok(t)
            },
            None => Err(invalid_input("seek to a negative or overflowing position")),
        }
    }

    fn flush(&mut self) -> (r: Result<(), std::io::Error>) {
        Ok(())
    }
}

/// `base + d`, if that is a valid position.
fn offset_by(base: u64, d: i64) -> (r: Option<u64>)
    ensures
        r is Some ==> r->Some_0 == base + d,
        r is None ==> base + d < 0 || base + d > u64::MAX,
{
    if d >= 0 {
        base.checked_add(d as u64)
    } else {
        let back: u64 = (-(d + 1)) as u64 + 1;
        base.checked_sub(back)
    }
}

} // verus!
