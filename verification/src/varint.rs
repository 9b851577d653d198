//! Variable-length encoding of unsigned integers: little-endian base 128,
//! seven value bits per byte, high bit set on every byte except the last.
use vstd::prelude::*;

use crate::DecodeError;

verus! {

/// The unique minimal encoding of `n`.
pub open spec fn varint_bytes(n: nat) -> Seq<u8>
    decreases n,
{
    if n < 128 {
        seq![n as u8]
    } else {
        seq![(n % 128 + 128) as u8] + varint_bytes(n / 128)
    }
}

/// Total parse of one varint at position `i` of `b`: the decoded value and the
/// position just past it, or `None` when the stream ends before a byte with a
/// clear high bit.
pub open spec fn parse_varint(b: Seq<u8>, i: int) -> Option<(nat, int)>
    decreases b.len() - i,
{
    if i < 0 || i >= b.len() {
        None
    } else if b[i] < 128 {
        Some((b[i] as nat, i + 1))
    } else {
        match parse_varint(b, i + 1) {
            Some(p) => Some((((b[i] - 128) + 128 * p.0) as nat, p.1)),
            None => None,
        }
    }
}

/// Appends the encoding of `n` to `out`.
pub fn encode_varint(n: usize, out: &mut Vec<u8>)
    ensures
        final(out)@ == old(out)@ + varint_bytes(n as nat),
    decreases n,
{
    if n < 128 {
        out.push(n as u8);
        assert(out@ =~= old(out)@ + varint_bytes(n as nat));
    } else {
        out.push((n % 128 + 128) as u8);
        let ghost mid = out@;
        assert(mid =~= old(out)@ + seq![(n % 128 + 128) as u8]);
        encode_varint(n / 128, out);
        assert(out@ =~= old(out)@ + varint_bytes(n as nat));
    }
}

/// Decodes one varint at position `i` of `b`.  Fails exactly when the spec
/// parse fails (truncated input) or when the value does not fit in `usize`.
pub fn decode_varint(b: &[u8], i: usize) -> (r: Result<(usize, usize), DecodeError>)
    ensures
        match r {
            Ok(p) => parse_varint(b@, i as int) == Some((p.0 as nat, p.1 as int)),
            Err(e) => e == DecodeError::MalformedInput && match parse_varint(b@, i as int) {
                Some(p) => p.0 > usize::MAX,
                None => true,
            },
        },
    decreases b@.len() - i,
{
    if i >= b.len() {
        return Err(DecodeError::MalformedInput);
    }
    let d = b[i];
    if d < 128 {
        Ok((d as usize, i + 1))
    } else {
        match decode_varint(b, i + 1) {
            Err(e) => Err(e),
            Ok((v, j)) => {
                let low = (d - 128) as usize;
                if v <= (usize::MAX - low) / 128 {
                    assert(low + 128 * v <= usize::MAX) by (nonlinear_arith)
                        requires v <= (usize::MAX - low) / 128, low <= 127;
                    Ok((low + 128 * v, j))
                } else {
                    assert(low + 128 * v > usize::MAX) by (nonlinear_arith)
                        requires v > (usize::MAX - low) / 128, low <= 127;
                    Err(DecodeError::MalformedInput)
                }
            },
        }
    }
}

/// Parsing at a position where the minimal encoding of `n` is embedded
/// recovers `n` and stops just past it.
pub proof fn lemma_varint_parse_embedded(b: Seq<u8>, i: int, n: nat)
    requires
        0 <= i,
        i + varint_bytes(n).len() <= b.len(),
        b.subrange(i, i + varint_bytes(n).len() as int) == varint_bytes(n),
    ensures
        parse_varint(b, i) == Some((n, i + varint_bytes(n).len())),
    decreases n,
{
    let e = varint_bytes(n);
    assert(b[i] == e[0]);
    if n < 128 {
        assert(parse_varint(b, i) == Some((n, i + 1)));
    } else {
        assert(e == seq![(n % 128 + 128) as u8] + varint_bytes(n / 128));
        let tail = varint_bytes(n / 128);
        assert(b.subrange(i + 1, i + 1 + tail.len()) =~= tail) by {
            assert forall|k: int| 0 <= k < tail.len() implies
                b.subrange(i + 1, i + 1 + tail.len())[k] == tail[k] by {
                assert(b[i + 1 + k] == e[1 + k]);
                assert(e[1 + k] == tail[k]);
            }
        }
        lemma_varint_parse_embedded(b, i + 1, n / 128);
        assert(b[i] == n % 128 + 128);
        assert((b[i] - 128) + 128 * (n / 128) == n);
    }
}

/// Varint round trip and minimality of the encoding: decoding the encoding of
/// `n` yields `n` exactly, the last byte is the only one with a clear high
/// bit, and a multi-byte encoding never ends in a spurious zero byte.
pub proof fn lemma_varint_roundtrip(n: nat)
    ensures
        parse_varint(varint_bytes(n), 0) == Some((n, varint_bytes(n).len() as int)),
        varint_bytes(n).len() >= 1,
        varint_bytes(n).last() < 128,
        varint_bytes(n).len() > 1 ==> varint_bytes(n).last() != 0,
        forall|k: int| 0 <= k < varint_bytes(n).len() - 1 ==> varint_bytes(n)[k] >= 128,
    decreases n,
{
    let e = varint_bytes(n);
    assert(e.subrange(0, e.len() as int) =~= e);
    lemma_varint_parse_embedded(e, 0, n);
    if n >= 128 {
        lemma_varint_roundtrip(n / 128);
        let tail = varint_bytes(n / 128);
        assert(e == seq![(n % 128 + 128) as u8] + tail);
        assert(e.last() == tail.last());
        if e.len() > 1 && tail.len() == 1 {
            assert(tail[0] == n / 128);
            assert(n / 128 >= 1);
        }
    }
}

/// Powers of the base: the values expressible in `k` bytes are those below
/// `pow128(k)`.
pub open spec fn pow128(k: nat) -> nat
    decreases k,
{
    if k == 0 {
        1nat
    } else {
        128 * pow128((k - 1) as nat)
    }
}

proof fn lemma_pow128_monotone(a: nat, b: nat)
    requires
        a <= b,
    ensures
        pow128(a) <= pow128(b),
        pow128(a) >= 1,
    decreases b,
{
    if b > 0 {
        if a == b {
            lemma_pow128_monotone((a - 1) as nat, (b - 1) as nat);
        } else {
            lemma_pow128_monotone(a, (b - 1) as nat);
        }
        assert(pow128(b) == 128 * pow128((b - 1) as nat));
        assert(pow128(b) >= pow128((b - 1) as nat)) by (nonlinear_arith)
            requires pow128((b - 1) as nat) >= 1, pow128(b) == 128 * pow128((b - 1) as nat);
    }
}

/// A parse that consumed `j - i` bytes yields a value below `pow128(j - i)`.
proof fn lemma_parse_value_bound(b: Seq<u8>, i: int)
    requires
        parse_varint(b, i) is Some,
    ensures
        parse_varint(b, i) matches Some(p) && i + 1 <= p.1 <= b.len() && p.0 < pow128(
            (p.1 - i) as nat,
        ),
    decreases b.len() - i,
{
    let (v, j) = parse_varint(b, i).unwrap();
    if b[i] < 128 {
        assert(pow128(1) == 128 * pow128(0));
    } else {
        lemma_parse_value_bound(b, i + 1);
        let (v2, _) = parse_varint(b, i + 1).unwrap();
        let k = (j - i - 1) as nat;
        assert(v == (b[i] - 128) + 128 * v2);
        lemma_pow128_monotone(0, k);
        assert(v < pow128((k + 1) as nat)) by (nonlinear_arith)
            requires
                v == (b[i] - 128) + 128 * v2,
                b[i] - 128 < 128,
                v2 < pow128(k),
                pow128((k + 1) as nat) == 128 * pow128(k),
        ;
    }
}

/// A value that needs `k + 1` encoded bytes is at least `pow128(k)`.
proof fn lemma_encode_len_lower(n: nat)
    ensures
        varint_bytes(n).len() > 1 ==> n >= pow128((varint_bytes(n).len() - 1) as nat),
    decreases n,
{
    if n >= 128 {
        lemma_encode_len_lower(n / 128);
        let lt = varint_bytes(n / 128).len();
        assert(varint_bytes(n).len() == 1 + lt);
        if lt == 1 {
            assert(pow128(1) == 128 * pow128(0));
        } else {
            assert(n >= 128 * (n / 128));
            assert(n >= 128 * pow128((lt - 1) as nat)) by (nonlinear_arith)
                requires
                    n >= 128 * (n / 128),
                    n / 128 >= pow128((lt - 1) as nat),
            ;
            assert(pow128(lt as nat) == 128 * pow128((lt - 1) as nat));
        }
    }
}

/// Minimality of the encoding: any byte string that decodes to `n` spends at
/// least as many bytes as `varint_bytes(n)` does.
pub proof fn lemma_varint_minimal(n: nat, b: Seq<u8>, j: int)
    requires
        parse_varint(b, 0) == Some((n, j)),
    ensures
        varint_bytes(n).len() <= j,
{
    lemma_parse_value_bound(b, 0);
    lemma_encode_len_lower(n);
    let len = varint_bytes(n).len();
    if len > 1 {
        assert(pow128((len - 1) as nat) <= n < pow128(j as nat));
        if (len - 1) as nat >= j as nat {
            lemma_pow128_monotone(j as nat, (len - 1) as nat);
            assert(false);
        }
    }
}

} // verus!
