//! Variable-length encoding of unsigned integers, seven bits per byte, low
//! group first; every byte but the last has its top bit set.

use vstd::prelude::*;

verus! {

/// Most bytes a `u64` takes when encoded.
pub const MAX_VARINT_LEN_U64: usize = 10;

/// The encoding of `n`.
pub open spec fn varint_encoding(n: u64) -> Seq<u8>
    decreases n,
{
    if n < 128 {
        seq![n as u8]
    } else {
        seq![((n % 128) + 128) as u8] + varint_encoding(n / 128)
    }
}

/// What `read_u64` returns for `data` when the bytes before position `i`
/// have been read into `acc`: the value and the bytes read; `(0, 0)` when
/// the data ends inside a value; `(0, -k)` when the value would need a shift
/// of 64 bits or more at byte `k` (or `k - 1` for a last byte).
pub open spec fn varint_read_from(data: Seq<u8>, i: int, acc: u64) -> (u64, int)
    decreases data.len() - i,
{
    if i < 0 || i >= data.len() {
        (0, 0)
    } else if 7 * i >= 64 {
        if data[i] < 128 {
            (0, -(i + 1))
        } else {
            (0, -i)
        }
    } else if data[i] < 128 {
        (acc | ((data[i] as u64) << ((7 * i) as u64)), i + 1)
    } else {
        varint_read_from(data, i + 1, acc | (((data[i] % 128) as u64) << ((7 * i) as u64)))
    }
}

/// Writes the encoding of `n` at the start of `data` and returns how many
/// bytes it took; the bytes after it are left as they were.
pub fn write_u64(data: &mut Vec<u8>, n: u64) -> (r: usize)
    requires
        old(data)@.len() >= varint_encoding(n).len(),
    ensures
        r == varint_encoding(n).len(),
        final(data)@.len() == old(data)@.len(),
        final(data)@.subrange(0, r as int) == varint_encoding(n),
        final(data)@.subrange(r as int, final(data)@.len() as int) == old(data)@.subrange(
            r as int,
            old(data)@.len() as int,
        ),
{
    let ghost full = varint_encoding(n);
    let mut m: u64 = n;
    let mut i: usize = 0;
    let len = data.len();
    while m >= 128
        invariant
            data@.len() == len,
            i + varint_encoding(m).len() == full.len(),
            full.len() <= data@.len(),
            data@.len() == old(data)@.len(),
            forall|k: int| 0 <= k < i ==> #[trigger] data@[k] == full[k],
            forall|k: int| 0 <= k < varint_encoding(m).len() ==> full[i + k] == #[trigger] varint_encoding(m)[k],
            forall|k: int| i <= k < data@.len() ==> #[trigger] data@[k] == old(data)@[k],
        decreases m,
    {
        let b: u8 = ((m % 128) + 128) as u8;
        proof {
            assert(varint_encoding(m).len() == 1 + varint_encoding(m / 128).len());
            assert(varint_encoding(m)[0] == b);
            assert forall|k: int| 0 <= k < varint_encoding(m / 128).len() implies full[i + 1 + k]
                == #[trigger] varint_encoding(m / 128)[k] by {
                assert(varint_encoding(m)[1 + k] == varint_encoding(m / 128)[k]);
            }
        }
        data.set(i, b);
        i = i + 1;
        m = m / 128;
    }
    proof {
        assert(varint_encoding(m)[0] == m as u8);
    }
    data.set(i, m as u8);
    proof {
        assert(data@.subrange(0, i + 1) =~= full);
        assert(data@.subrange(i + 1, data@.len() as int) =~= old(data)@.subrange(
            i + 1,
            old(data)@.len() as int,
        ));
    }
    i + 1
}

/// Reads an encoded integer from the start of `data`: the value and the
/// number of bytes it took, `(0, 0)` when `data` ends first, or `(0, -k)`
/// (`k > 0`) when the value overflows 64 bits.
pub fn read_u64(data: &[u8]) -> (r: (u64, isize))
    ensures
        r.0 == varint_read_from(data@, 0, 0).0,
        r.1 == varint_read_from(data@, 0, 0).1,
{
    let mut n: u64 = 0;
    let mut shift: u32 = 0;
    let mut i: usize = 0;
    while i < data.len()
        invariant
            i <= data@.len(),
            i <= 10,
            shift == 7 * i,
            varint_read_from(data@, 0, 0) == varint_read_from(data@, i as int, n),
        decreases data@.len() - i,
    {
        let b = data[i];
        if shift >= 64 {
            if b < 128 {
                return (0, -(i as isize + 1));
            } else {
                return (0, -(i as isize));
            }
        }
        if b < 128 {
            return (n | ((b as u64) << shift), (i + 1) as isize);
        }
        n = n | (((b % 128) as u64) << shift);
        shift = shift + 7;
        i = i + 1;
    }
    (0, 0)
}

} // verus!
