use vstd::prelude::*;

use crate::crc::Crc;
use crate::inner::ByteStore;

verus! {

/// The least of three values.
pub fn min3(v1: usize, v2: usize, v3: usize) -> (r: usize)
    ensures
        r <= v1,
        r <= v2,
        r <= v3,
        r == v1 || r == v2 || r == v3,
{
    let m = if v1 < v2 {
        v1
    } else {
        v2
    };
    if m < v3 {
        m
    } else {
        v3
    }
}

/// Reads exactly `n` bytes at the inner cursor into `buf[..n]`.
pub(crate) fn read_up_to<I: ByteStore>(inner: &mut I, buf: &mut Vec<u8>, n: usize) -> (r: Result<
    (),
    std::io::Error,
>)
    requires
        n <= old(buf)@.len(),
        old(inner).cursor() + n <= old(inner).bytes().len(),
    ensures
        final(buf)@.len() == old(buf)@.len(),
        r is Ok ==> {
            let c = old(inner).cursor() as int;
            &&& final(buf)@.subrange(0, n as int) == old(inner).bytes().subrange(c, c + n)
            &&& final(inner).cursor() == c + n
            &&& final(inner).bytes() == old(inner).bytes()
        },
{
    let ghost c = inner.cursor() as int;
    let ghost d = inner.bytes();
    let mut got: usize = 0;
    while got < n
        invariant
            n <= buf@.len(),
            buf@.len() == old(buf)@.len(),
            got <= n,
            inner.bytes() == d,
            d == old(inner).bytes(),
            c == old(inner).cursor(),
            inner.cursor() == c + got,
            c + n <= d.len(),
            buf@.subrange(0, got as int) == d.subrange(c, c + got),
        decreases n - got,
    {
        let ghost before = buf@;
        let m = match inner.read_some(buf.as_mut_slice(), got, n - got) {
            Ok(m) => m,
            Err(e) => {
                return Err(e);
            },
        };
        proof {
            assert forall|j: int| 0 <= j < got + m implies #[trigger] buf@[j] == d[c + j] by {
                if j < got {
                    assert(buf@[j] == buf@.subrange(0, got as int)[j]);
                    assert(before[j] == before.subrange(0, got as int)[j]);
                    assert(before.subrange(0, got as int)[j] == d.subrange(c, c + got)[j]);
                } else {
                    assert(buf@[j] == buf@.subrange(got as int, got + m)[j - got]);
                    assert(d.subrange(c + got, c + got + m)[j - got] == d[c + j]);
                }
            }
            assert(buf@.subrange(0, got + m) =~= d.subrange(c, c + got + m));
        }
        got = got + m;
    }
    Ok(())
}

/// Reads `len` bytes at the inner cursor through `buf`, feeding them to `crc`.
pub(crate) fn hash_inner<I: ByteStore>(
    inner: &mut I,
    buf: &mut Vec<u8>,
    crc: &mut Crc,
    len: u64,
) -> (r: Result<(), std::io::Error>)
    requires
        old(buf)@.len() > 0,
        old(inner).cursor() + len <= old(inner).bytes().len(),
        old(crc).wf(),
    ensures
        final(buf)@.len() == old(buf)@.len(),
        final(crc).wf(),
        r is Ok ==> {
            let c = old(inner).cursor() as int;
            &&& final(crc).fed@ == old(crc).fed@ + old(inner).bytes().subrange(c, c + len)
            &&& final(inner).cursor() == c + len
            &&& final(inner).bytes() == old(inner).bytes()
        },
{
    let ghost c = inner.cursor() as int;
    let ghost d = inner.bytes();
    let ghost fed0 = crc.fed@;
    let cap: usize = buf.len();
    let mut done: u64 = 0;
    proof {
        assert(d.subrange(c, c) =~= Seq::<u8>::empty());
        assert(fed0 + Seq::<u8>::empty() =~= fed0);
    }
    while done < len
        invariant
            buf@.len() == old(buf)@.len(),
            cap == buf@.len(),
            cap > 0,
            crc.wf(),
            done <= len,
            inner.bytes() == d,
            d == old(inner).bytes(),
            c == old(inner).cursor(),
            fed0 == old(crc).fed@,
            inner.cursor() == c + done,
            c + len <= d.len(),
            crc.fed@ == fed0 + d.subrange(c, c + done),
        decreases len - done,
    {
        let n: usize = if len - done < cap as u64 {
            (len - done) as usize
        } else {
            cap
        };
        match read_up_to(inner, buf, n) {
            Ok(()) => {},
            Err(e) => {
                return Err(e);
            },
        }
        crc.update(vstd::slice::slice_subrange(buf.as_slice(), 0, n));
        proof {
            assert(fed0 + d.subrange(c, c + done) + d.subrange(c + done, c + done + n) =~= fed0
                + d.subrange(c, c + done + n));
        }
        done = done + n as u64;
    }
    Ok(())
}

} // verus!
