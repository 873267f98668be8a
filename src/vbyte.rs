use vstd::prelude::*;

verus! {

/// Variable-byte encoding of `n`: base-128 digits, least significant first;
/// the final byte carries the high bit, all earlier bytes have it clear.
pub open spec fn vbyte_spec(n: nat) -> Seq<u8>
    decreases n,
{
    if n < 128 {
        seq![(n + 128) as u8]
    } else {
        seq![(n % 128) as u8] + vbyte_spec(n / 128)
    }
}

/// Reads one integer from the front of `s`: its value and the number of
/// bytes it took, or `None` when `s` ends before a byte with the high bit.
pub open spec fn vbyte_decode_spec(s: Seq<u8>) -> Option<(nat, nat)>
    decreases s.len(),
{
    if s.len() == 0 {
        None
    } else if s[0] >= 128 {
        Some(((s[0] - 128) as nat, 1))
    } else {
        match vbyte_decode_spec(s.drop_first()) {
            Some((v, l)) => Some(((s[0] + 128 * v) as nat, l + 1)),
            None => None,
        }
    }
}

/// What decoding at `pos` yields: the value, when it fits in `u64`, and the
/// position after it.
pub open spec fn vbyte_read_spec(s: Seq<u8>, pos: int) -> Option<(u64, usize)> {
    match vbyte_decode_spec(s.subrange(pos, s.len() as int)) {
        Some((v, l)) => if v <= u64::MAX {
            Some((v as u64, (pos + l) as usize))
        } else {
            None
        },
        None => None,
    }
}

pub open spec fn pow128(k: nat) -> nat
    decreases k,
{
    if k == 0 {
        1
    } else {
        128 * pow128((k - 1) as nat)
    }
}

/// An integer below `128^k` takes at most `k` bytes.
pub proof fn lemma_vbyte_len_bound(n: nat, k: nat)
    requires
        k >= 1,
        n < pow128(k),
    ensures
        vbyte_spec(n).len() <= k,
    decreases k,
{
    if n >= 128 {
        assert(k >= 2) by {
            if k == 1 {
                assert(pow128(1) == 128 * pow128(0));
            }
        }
        assert(n / 128 < pow128((k - 1) as nat));
        lemma_vbyte_len_bound(n / 128, (k - 1) as nat);
    }
}

pub proof fn lemma_vbyte_len(n: nat)
    ensures
        vbyte_spec(n).len() >= 1,
        n < 128 ==> vbyte_spec(n).len() == 1,
        n <= u32::MAX + 1 ==> vbyte_spec(n).len() <= 5,
        n <= u64::MAX ==> vbyte_spec(n).len() <= 10,
{
    reveal_with_fuel(pow128, 11);
    assert(pow128(5) == 34359738368);
    assert(pow128(10) == 1180591620717411303424);
    if n <= u32::MAX + 1 {
        lemma_vbyte_len_bound(n, 5);
    }
    if n <= u64::MAX {
        lemma_vbyte_len_bound(n, 10);
    }
}

/// Decoding the encoding of `n`, followed by anything, gives back `n`.
pub proof fn lemma_vbyte_round_trip(n: nat, rest: Seq<u8>)
    ensures
        vbyte_decode_spec(vbyte_spec(n) + rest) == Some((n, vbyte_spec(n).len())),
    decreases n,
{
    let s = vbyte_spec(n) + rest;
    if n < 128 {
        assert(s[0] == (n + 128) as u8);
    } else {
        lemma_vbyte_round_trip(n / 128, rest);
        assert(s.drop_first() =~= vbyte_spec(n / 128) + rest);
        assert(s[0] == (n % 128) as u8);
    }
}

/// Reading an integer takes at least one byte and stays within `s`.
pub proof fn lemma_decode_len(s: Seq<u8>)
    requires
        vbyte_decode_spec(s).is_some(),
    ensures
        1 <= vbyte_decode_spec(s).unwrap().1 <= s.len(),
    decreases s.len(),
{
    if s.len() > 0 && s[0] < 128 {
        lemma_decode_len(s.drop_first());
    }
}

/// Reading at `pos`, where the encoding of `n` starts, gives `n` and the
/// position after it.
pub proof fn lemma_read_at(s: Seq<u8>, pos: int, n: nat, rest: Seq<u8>)
    requires
        0 <= pos <= s.len(),
        s.len() <= usize::MAX,
        s.subrange(pos, s.len() as int) == vbyte_spec(n) + rest,
        n <= u64::MAX,
    ensures
        vbyte_read_spec(s, pos) == Some((n as u64, (pos + vbyte_spec(n).len()) as usize)),
        s.subrange(pos + vbyte_spec(n).len(), s.len() as int) == rest,
        pos + vbyte_spec(n).len() <= s.len(),
{
    lemma_vbyte_round_trip(n, rest);
    let l = vbyte_spec(n).len() as int;
    assert(s.subrange(pos + l, s.len() as int) =~= (vbyte_spec(n) + rest).subrange(l, (vbyte_spec(n) + rest).len() as int));
    assert((vbyte_spec(n) + rest).subrange(l, (vbyte_spec(n) + rest).len() as int) =~= rest);
}

/// Appends the encoding of `n` to `out`.
pub fn vbyte_encode_into(n: u64, out: &mut Vec<u8>)
    ensures
        final(out)@ == old(out)@ + vbyte_spec(n as nat),
{
    let mut m = n;
    while m >= 128
        invariant
            old(out)@ + vbyte_spec(n as nat) == out@ + vbyte_spec(m as nat),
        decreases m,
    {
        let ghost before = out@;
        out.push((m % 128) as u8);
        assert(vbyte_spec(m as nat) == seq![(m % 128) as u8] + vbyte_spec((m / 128) as nat));
        assert(before + vbyte_spec(m as nat) =~= out@ + vbyte_spec((m / 128) as nat));
        m = m / 128;
    }
    let ghost before = out@;
    out.push((m + 128) as u8);
    assert(before + vbyte_spec(m as nat) =~= out@);
}

/// The encoding of `n`.
pub fn vbyte_encode(n: u64) -> (r: Vec<u8>)
    ensures
        r@ == vbyte_spec(n as nat),
{
    let mut r: Vec<u8> = Vec::new();
    vbyte_encode_into(n, &mut r);
    assert(r@ =~= vbyte_spec(n as nat));
    r
}

/// Number of bytes in the encoding of `n`.
pub fn vbyte_len(n: u64) -> (r: usize)
    ensures
        r == vbyte_spec(n as nat).len(),
        1 <= r <= 10,
{
    let mut m = n;
    let mut len: usize = 1;
    proof {
        lemma_vbyte_len(n as nat);
    }
    while m >= 128
        invariant
            vbyte_spec(n as nat).len() == len - 1 + vbyte_spec(m as nat).len(),
            1 <= len,
            vbyte_spec(n as nat).len() <= 10,
        decreases m,
    {
        proof {
            lemma_vbyte_len((m / 128) as nat);
        }
        m = m / 128;
        len = len + 1;
    }
    len
}

/// Reads one integer starting at `pos`: the value and the position after
/// it; `None` when the bytes end inside the integer or it exceeds `u64`.
pub fn vbyte_decode(bytes: &[u8], pos: usize) -> (r: Option<(u64, usize)>)
    requires
        pos <= bytes@.len(),
    ensures
        r == vbyte_read_spec(bytes@, pos as int),
    decreases bytes@.len() - pos,
{
    let ghost s = bytes@.subrange(pos as int, bytes@.len() as int);
    if pos >= bytes.len() {
        return None;
    }
    let b = bytes[pos];
    if b >= 128 {
        Some(((b - 128) as u64, pos + 1))
    } else {
        assert(s.drop_first() =~= bytes@.subrange(pos + 1, bytes@.len() as int));
        match vbyte_decode(bytes, pos + 1) {
            Some((v, e)) => {
                if v > (u64::MAX - b as u64) / 128 {
                    None
                } else {
                    Some((b as u64 + 128 * v, e))
                }
            },
            None => None,
        }
    }
}

} // verus!
