//! Variable-length unsigned integer encoding.
//!
//! The wire form writes unsigned integers seven bits at a time, least
//! significant group first; every byte but the last has its high bit set.
//! [`varint_bytes`] is the encoding of a number, [`varint_at`] reads one
//! back out of a byte sequence, and [`lemma_varint_round_trip`] ties the two
//! together.

use vstd::prelude::*;
use vstd::arithmetic::div_mod::lemma_fundamental_div_mod;

verus! {

/// The variable-length encoding of `n`: seven bits per byte, low bits
/// first, the high bit marking continuation.
pub open spec fn varint_bytes(n: nat) -> Seq<u8>
    decreases n,
{
    if n < 128 {
        seq![n as u8]
    } else {
        seq![((n % 128) + 128) as u8] + varint_bytes(n / 128)
    }
}

/// The number read by the variable-length decoder at `pos`, with the
/// position just past it; `None` when the bytes end inside the number.
pub open spec fn varint_at(s: Seq<u8>, pos: int) -> Option<(nat, int)>
    decreases s.len() - pos,
{
    if pos < 0 || pos >= s.len() {
        None
    } else if s[pos] < 128 {
        Some((s[pos] as nat, pos + 1))
    } else {
        match varint_at(s, pos + 1) {
            None => None,
            Some(r) => Some((((s[pos] - 128) + 128 * r.0) as nat, r.1)),
        }
    }
}

/// Decoding at the start of an encoding yields the encoded number and stops
/// right after it, whatever follows.
pub proof fn lemma_varint_round_trip(s: Seq<u8>, pos: int, n: nat)
    requires
        0 <= pos,
        pos + varint_bytes(n).len() <= s.len(),
        s.subrange(pos, pos + varint_bytes(n).len() as int) == varint_bytes(n),
    ensures
        varint_at(s, pos) == Some((n, pos + varint_bytes(n).len() as int)),
    decreases n,
{
    let enc = varint_bytes(n);
    assert(s[pos] == enc[0]);
    if n < 128 {
        assert(s[pos] == n as u8);
    } else {
        assert(s[pos] == ((n % 128) + 128) as u8);
        assert(n % 128 < 128);
        assert(s[pos] >= 128);
        let rest = varint_bytes(n / 128);
        assert(n / 128 < n);
        assert(s.subrange(pos + 1, pos + 1 + rest.len() as int) == rest) by {
            assert(s.subrange(pos + 1, pos + 1 + rest.len() as int) =~= s.subrange(
                pos,
                pos + enc.len() as int,
            ).subrange(1, enc.len() as int));
            assert(enc.subrange(1, enc.len() as int) =~= rest);
        }
        lemma_varint_round_trip(s, pos + 1, n / 128);
        assert((s[pos] - 128) + 128 * (n / 128) == n) by {
            lemma_fundamental_div_mod(n as int, 128);
        }
    }
}

/// Error reading a variable-length integer.
#[derive(Debug, PartialEq, Eq)]
pub enum VarintError {
    /// The bytes end inside the number.
    Truncated,
    /// The number does not fit the expected integer width.
    Overflow,
}

/// Appends the variable-length encoding of `v` to `buf`.
pub fn write_varint(buf: &mut Vec<u8>, v: u32)
    ensures
        final(buf)@ == old(buf)@ + varint_bytes(v as nat),
    decreases v,
{
    if v < 128 {
        buf.push(v as u8);
        proof {
            assert(buf@ =~= old(buf)@ + varint_bytes(v as nat));
        }
    } else {
        buf.push((v % 128 + 128) as u8);
        let ghost mid = buf@;
        write_varint(buf, v / 128);
        proof {
            assert(mid == old(buf)@ + seq![(((v as nat) % 128) + 128) as u8]);
            assert(buf@ =~= old(buf)@ + varint_bytes(v as nat));
        }
    }
}

/// Reads a variable-length `u32` at `pos`, returning the value and the
/// position just past it.  Fails with `Truncated` when the bytes end inside
/// the number and with `Overflow` when the number does not fit a `u32`.
pub fn read_varint(bytes: &Vec<u8>, pos: usize) -> (r: Result<(u32, usize), VarintError>)
    ensures
        match varint_at(bytes@, pos as int) {
            None => r == Err::<(u32, usize), VarintError>(VarintError::Truncated),
            Some(p) => if p.0 <= u32::MAX {
                r matches Ok(q) && q.0 as nat == p.0 && q.1 as int == p.1
            } else {
                r == Err::<(u32, usize), VarintError>(VarintError::Overflow)
            },
        },
        r matches Ok(p) ==> pos < p.1 <= bytes@.len(),
        varint_at(bytes@, pos as int) matches Some(p) ==> pos <= p.1 <= bytes@.len(),
    decreases bytes@.len() - pos,
{
    if pos >= bytes.len() {
        return Err(VarintError::Truncated);
    }
    let b = bytes[pos];
    if b < 128 {
        Ok((b as u32, pos + 1))
    } else {
        match read_varint(bytes, pos + 1) {
            Err(e) => Err(e),
            Ok((n, end)) => {
                let total: u64 = (b - 128) as u64 + 128u64 * (n as u64);
                if total > u32::MAX as u64 {
                    Err(VarintError::Overflow)
                } else {
                    Ok((total as u32, end))
                }
            },
        }
    }
}

} // verus!
