//! LEB128 variable-length integers, as used throughout DWARF.
//!
//! Every byte carries seven payload bits, least significant group first; the
//! top bit of a byte is set when another byte follows. Values that do not fit
//! in 64 bits are not rejected: the decoders keep the low 64 bits of the
//! encoded value (for the signed form, read as two's complement).
use vstd::arithmetic::div_mod::{
    lemma_add_mod_noop,
    lemma_mul_mod_noop_right,
    lemma_sub_mod_noop,
    lemma_small_mod,
};
use vstd::prelude::*;

verus! {

/// The one way decoding can fail.
#[derive(PartialEq, Eq, Debug, Clone, Copy, Structural)]
pub enum Error {
    /// Every byte of the input has its continuation bit set.
    LastByteHasContinueBit,
}

/// 2 to the 64th: the modulus of 64-bit arithmetic.
pub open spec fn modulus64() -> int {
    0x1_0000_0000_0000_0000
}

/// 128 raised to the power `i`.
pub open spec fn pow128(i: nat) -> nat
    decreases i,
{
    if i == 0 {
        1
    } else {
        128 * pow128((i - 1) as nat)
    }
}

/// The number that the 7-bit groups of `s` spell, least significant first.
pub open spec fn uleb_value(s: Seq<u8>) -> nat
    decreases s.len(),
{
    if s.len() == 0 {
        0
    } else {
        (s[0] % 128) as nat + 128 * uleb_value(s.drop_first())
    }
}

/// The signed number that the 7-bit groups of `s` spell: bit 6 of the last
/// group is the sign.
pub open spec fn sleb_value(s: Seq<u8>) -> int {
    if s.len() > 0 && s.last() % 128 >= 64 {
        uleb_value(s) - pow128(s.len())
    } else {
        uleb_value(s) as int
    }
}

/// The length of the encoding that starts `s`: the position after its first
/// byte without the continuation bit, or 0 when there is no such byte.
pub open spec fn leb_len(s: Seq<u8>) -> nat
    decreases s.len(),
{
    if s.len() == 0 {
        0
    } else if s[0] < 128 {
        1
    } else if leb_len(s.drop_first()) == 0 {
        0
    } else {
        leb_len(s.drop_first()) + 1
    }
}

/// `x` reduced to the range of `i64`, as two's complement wraps it.
pub open spec fn wrap_i64(x: int) -> int {
    let m = x % modulus64();
    if m >= 0x8000_0000_0000_0000 {
        m - modulus64()
    } else {
        m
    }
}

/// What decoding an unsigned LEB128 number at the start of `s` gives.
pub open spec fn uleb_decoded(s: Seq<u8>) -> Result<(u64, usize), Error> {
    let n = leb_len(s);
    if n == 0 {
        Err(Error::LastByteHasContinueBit)
    } else {
        Ok(((uleb_value(s.subrange(0, n as int)) as int % modulus64()) as u64, n as usize))
    }
}

/// What decoding a signed LEB128 number at the start of `s` gives.
pub open spec fn ileb_decoded(s: Seq<u8>) -> Result<(i64, usize), Error> {
    let n = leb_len(s);
    if n == 0 {
        Err(Error::LastByteHasContinueBit)
    } else {
        Ok((wrap_i64(sleb_value(s.subrange(0, n as int))) as i64, n as usize))
    }
}

/// The unsigned LEB128 encoding of `n`: as few bytes as hold it, one at least.
pub open spec fn uleb_encoding(n: nat) -> Seq<u8>
    decreases n,
{
    if n < 128 {
        seq![n as u8]
    } else {
        seq![(n % 128 + 128) as u8] + uleb_encoding(n / 128)
    }
}

/// Whether the signed encoding of `n` ends with the group that holds `n % 128`:
/// the rest is the sign extension of that group's bit 6.
pub open spec fn sleb_stops(n: int) -> bool {
    (n / 128 == 0 && n % 128 < 64) || (n / 128 == -1 && n % 128 >= 64)
}

/// The distance of `n` from the fixed points 0 and -1 of the signed encoding.
pub open spec fn sleb_measure(n: int) -> nat {
    if n >= 0 {
        n as nat
    } else {
        (-n - 1) as nat
    }
}

/// The signed LEB128 encoding of `n`.
pub open spec fn sleb_encoding(n: int) -> Seq<u8>
    decreases sleb_measure(n),
{
    if sleb_stops(n) {
        seq![(n % 128) as u8]
    } else {
        seq![(n % 128 + 128) as u8] + sleb_encoding(n / 128)
    }
}

proof fn lemma_sleb_measure_decreases(n: int)
    requires
        !sleb_stops(n),
    ensures
        sleb_measure(n / 128) < sleb_measure(n),
{
}

/// Encodes `n` as unsigned LEB128.
pub fn uleb128_encode(n: u64) -> (out: Vec<u8>)
    ensures
        out@ == uleb_encoding(n as nat),
{
    let mut out: Vec<u8> = Vec::new();
    let mut m: u64 = n;
    loop
        invariant
            out@ + uleb_encoding(m as nat) == uleb_encoding(n as nat),
        decreases m,
    {
        let byte: u8 = (m % 128) as u8;
        if m < 128 {
            out.push(byte);
            proof {
                assert(out@ =~= out@.drop_last() + uleb_encoding(m as nat));
            }
            return out;
        }
        let ghost before = out@;
        out.push(byte + 128);
        m = m / 128;
        proof {
            assert(out@ + uleb_encoding(m as nat) =~= before + uleb_encoding((m * 128 + byte) as nat));
        }
    }
}

/// The value of `s + [b]` adds the payload of `b`, scaled past the groups of `s`.
proof fn lemma_uleb_value_push(s: Seq<u8>, b: u8)
    ensures
        uleb_value(s.push(b)) == uleb_value(s) + (b % 128) as nat * pow128(s.len()),
    decreases s.len(),
{
    if s.len() == 0 {
        assert(s.push(b).drop_first() =~= Seq::<u8>::empty());
        assert(uleb_value(s.push(b).drop_first()) == 0);
        assert(s.push(b)[0] == b);
        assert(uleb_value(s.push(b)) == (b % 128) as nat);
        assert(pow128(0) == 1);
    } else {
        let t = s.drop_first();
        let p = (b % 128) as int;
        assert(s.push(b).drop_first() =~= t.push(b));
        lemma_uleb_value_push(t, b);
        assert(uleb_value(s.push(b)) == (s[0] % 128) as int + 128 * uleb_value(t.push(b)));
        assert(uleb_value(s) == (s[0] % 128) as int + 128 * uleb_value(t));
        assert(pow128(s.len()) == 128 * pow128(t.len()));
        assert(128 * (uleb_value(t) + p * pow128(t.len())) == 128 * uleb_value(t) + p * (128
            * pow128(t.len()))) by (nonlinear_arith);
        assert(p * (128 * pow128(t.len())) == p * pow128(s.len()));
    }
}

/// When no byte before position `n - 1` ends the encoding and the byte there
/// does, the encoding is `n` bytes long.
proof fn lemma_leb_len_at(s: Seq<u8>, n: int)
    requires
        1 <= n <= s.len(),
        s[n - 1] < 128,
        forall|j: int| 0 <= j < n - 1 ==> s[j] >= 128,
    ensures
        leb_len(s) == n,
    decreases n,
{
    if n > 1 {
        lemma_leb_len_at(s.drop_first(), n - 1);
    }
}

/// When every byte carries the continuation bit, there is no encoding.
proof fn lemma_leb_len_none(s: Seq<u8>)
    requires
        forall|j: int| 0 <= j < s.len() ==> s[j] >= 128,
    ensures
        leb_len(s) == 0,
    decreases s.len(),
{
    if s.len() > 0 {
        lemma_leb_len_none(s.drop_first());
    }
}

/// Reads the low 64 bits of the groups in `bytes`, up to the first byte that
/// ends the encoding; `scale` comes back as 128 to the power of the number of
/// bytes read, modulo 2^64.
fn leb_groups(bytes: &[u8]) -> (r: Result<(u64, u64, usize), Error>)
    ensures
        match r {
            Ok((v, scale, n)) => {
                &&& n == leb_len(bytes@)
                &&& 0 < n <= bytes@.len()
                &&& v as int == uleb_value(bytes@.subrange(0, n as int)) as int % modulus64()
                &&& scale as int == pow128(n as nat) as int % modulus64()
            },
            Err(e) => leb_len(bytes@) == 0,
        },
{
    let mut val: u64 = 0;
    let mut scale: u64 = 1;
    let mut i: usize = 0;
    while i < bytes.len()
        invariant
            0 <= i <= bytes@.len(),
            forall|j: int| 0 <= j < i ==> bytes@[j] >= 128,
            val as int == uleb_value(bytes@.subrange(0, i as int)) as int % modulus64(),
            scale as int == pow128(i as nat) as int % modulus64(),
        decreases bytes@.len() - i,
    {
        let b = bytes[i];
        let p: u64 = (b % 128) as u64;
        let ghost prefix = bytes@.subrange(0, i as int);
        let ghost old_val = val;
        val = val.wrapping_add(p.wrapping_mul(scale));
        proof {
            let m = modulus64();
            let u = uleb_value(prefix) as int;
            let w = pow128(i as nat) as int;
            assert(bytes@.subrange(0, i + 1) =~= prefix.push(b));
            lemma_uleb_value_push(prefix, b);
            lemma_mul_mod_noop_right(p as int, w, m);
            lemma_small_mod((p as nat * scale as nat) % (m as nat), m as nat);
            assert(p.wrapping_mul(scale) as int == (p * w) % m);
            lemma_add_mod_noop(u, p * w, m);
            lemma_small_mod((u % m) as nat, m as nat);
            lemma_small_mod(((p * w) % m) as nat, m as nat);
            assert(val as int == ((u % m) + ((p * w) % m)) % m);
        }
        let ghost old_scale = scale;
        scale = scale.wrapping_mul(128);
        proof {
            let m = modulus64();
            lemma_mul_mod_noop_right(128, pow128(i as nat) as int, m);
            assert(pow128((i + 1) as nat) == 128 * pow128(i as nat));
            assert(scale as int == (old_scale as int * 128) % m);
        }
        if b < 128 {
            proof {
                lemma_leb_len_at(bytes@, i + 1);
            }
            return Ok((val, scale, i + 1));
        }
        i = i + 1;
    }
    proof {
        lemma_leb_len_none(bytes@);
    }
    Err(Error::LastByteHasContinueBit)
}

/// Decodes the unsigned LEB128 number at the start of `bytes`, and says how
/// many bytes it took.
pub fn uleb128_decode(bytes: &[u8]) -> (r: Result<(u64, usize), Error>)
    ensures
        r == uleb_decoded(bytes@),
{
    match leb_groups(bytes) {
        Ok((v, _scale, n)) => Ok((v, n)),
        Err(e) => Err(e),
    }
}

/// The signed reading of a 64-bit word.
fn as_signed(v: u64) -> (r: i64)
    ensures
        r as int == wrap_i64(v as int),
{
    proof {
        lemma_small_mod(v as nat, modulus64() as nat);
    }
    if v >= 0x8000_0000_0000_0000 {
        let below: u64 = u64::MAX - v;
        -(below as i64) - 1
    } else {
        v as i64
    }
}

/// Encodes `n` as signed LEB128.
pub fn ileb128_encode(n: i64) -> (out: Vec<u8>)
    ensures
        out@ == sleb_encoding(n as int),
{
    let mut out: Vec<u8> = Vec::new();
    let mut m: i64 = n;
    loop
        invariant
            out@ + sleb_encoding(m as int) == sleb_encoding(n as int),
        decreases sleb_measure(m as int),
    {
        let byte: i64 = match m.checked_rem_euclid(128) {
            Some(r) => r,
            None => 0,
        };
        let rest: i64 = match m.checked_div_euclid(128) {
            Some(q) => q,
            None => 0,
        };
        assert(byte == m % 128 && rest == m / 128);
        if (rest == 0 && byte < 64) || (rest == -1 && byte >= 64) {
            out.push(byte as u8);
            proof {
                assert(out@ =~= out@.drop_last() + sleb_encoding(m as int));
            }
            return out;
        }
        let ghost before = out@;
        let ghost old_m = m;
        out.push((byte + 128) as u8);
        m = rest;
        proof {
            lemma_sleb_measure_decreases(old_m as int);
            assert(out@ + sleb_encoding(m as int) =~= before + sleb_encoding(old_m as int));
        }
    }
}

/// Decodes the signed LEB128 number at the start of `bytes`, and says how
/// many bytes it took.
pub fn ileb128_decode(bytes: &[u8]) -> (r: Result<(i64, usize), Error>)
    ensures
        r == ileb_decoded(bytes@),
{
    match leb_groups(bytes) {
        Ok((v, scale, n)) => {
            let last = bytes[n - 1];
            let ghost s = bytes@.subrange(0, n as int);
            let ghost m = modulus64();
            proof {
                assert(s.last() == last);
            }
            let word: u64 = if last % 128 >= 64 {
                proof {
                    lemma_sub_mod_noop(uleb_value(s) as int, pow128(n as nat) as int, m);
                    lemma_small_mod(v as nat, m as nat);
                    lemma_small_mod(scale as nat, m as nat);
                }
                v.wrapping_sub(scale)
            } else {
                v
            };
            proof {
                lemma_small_mod(word as nat, m as nat);
                assert(word as int % m == sleb_value(s) % m);
            }
            Ok((as_signed(word), n))
        },
        Err(e) => Err(e),
    }
}

/// The unsigned encoding of `n` is one complete number whose value is `n`.
proof fn lemma_uleb_encoding_reads_back(n: nat)
    ensures
        leb_len(uleb_encoding(n)) == uleb_encoding(n).len(),
        uleb_value(uleb_encoding(n)) == n,
    decreases n,
{
    let e = uleb_encoding(n);
    if n < 128 {
        assert(e.drop_first() =~= Seq::<u8>::empty());
        assert(uleb_value(e.drop_first()) == 0);
        assert(e[0] == n);
    } else {
        let rest = uleb_encoding(n / 128);
        lemma_uleb_encoding_reads_back(n / 128);
        assert(e.drop_first() =~= rest);
        assert(e[0] % 128 == n % 128);
        assert(uleb_value(e) == e[0] % 128 + 128 * uleb_value(rest));
    }
}

/// The signed encoding of `n` is one complete number whose value is `n`.
proof fn lemma_sleb_encoding_reads_back(n: int)
    ensures
        leb_len(sleb_encoding(n)) == sleb_encoding(n).len(),
        sleb_value(sleb_encoding(n)) == n,
    decreases sleb_measure(n),
{
    let e = sleb_encoding(n);
    if sleb_stops(n) {
        assert(e.drop_first() =~= Seq::<u8>::empty());
        assert(uleb_value(e.drop_first()) == 0);
        assert(e[0] == n % 128);
        assert(uleb_value(e) == n % 128);
        assert(pow128(1) == 128) by {
            assert(pow128(0) == 1);
        }
    } else {
        lemma_sleb_measure_decreases(n);
        let rest = sleb_encoding(n / 128);
        lemma_sleb_encoding_reads_back(n / 128);
        assert(e.drop_first() =~= rest);
        assert(e[0] % 128 == n % 128);
        assert(e.last() == rest.last());
        assert(pow128(e.len()) == 128 * pow128(rest.len()));
        assert(uleb_value(e) == n % 128 + 128 * uleb_value(rest));
    }
}

/// Round trip of the unsigned codec: decoding the encoding of `n` gives `n`
/// back, together with the length of the encoding.
pub proof fn lemma_uleb_round_trip(n: u64)
    ensures
        uleb_decoded(uleb_encoding(n as nat)) == Ok::<(u64, usize), Error>(
            (n, uleb_encoding(n as nat).len() as usize),
        ),
{
    let e = uleb_encoding(n as nat);
    lemma_uleb_encoding_reads_back(n as nat);
    assert(e.subrange(0, e.len() as int) =~= e);
    lemma_small_mod(n as nat, modulus64() as nat);
}

/// Round trip of the signed codec: decoding the encoding of `n` gives `n`
/// back, together with the length of the encoding.
pub proof fn lemma_ileb_round_trip(n: i64)
    ensures
        ileb_decoded(sleb_encoding(n as int)) == Ok::<(i64, usize), Error>(
            (n, sleb_encoding(n as int).len() as usize),
        ),
{
    let e = sleb_encoding(n as int);
    lemma_sleb_encoding_reads_back(n as int);
    assert(e.subrange(0, e.len() as int) =~= e);
    let m = modulus64();
    if n >= 0 {
        lemma_small_mod(n as nat, m as nat);
    } else {
        lemma_small_mod((n + m) as nat, m as nat);
        lemma_add_mod_noop(n as int, m, m);
        assert(m % m == 0);
    }
}

/// An input in which every byte, the last one included, has its continuation
/// bit set holds no complete number: both decoders report truncation.
pub proof fn lemma_unterminated_input_fails(s: Seq<u8>)
    requires
        forall|j: int| 0 <= j < s.len() ==> s[j] >= 128,
    ensures
        uleb_decoded(s) == Err::<(u64, usize), Error>(Error::LastByteHasContinueBit),
        ileb_decoded(s) == Err::<(i64, usize), Error>(Error::LastByteHasContinueBit),
{
    lemma_leb_len_none(s);
}

/// An encoding is never longer than the input that holds it.
pub proof fn lemma_leb_len_bound(s: Seq<u8>)
    ensures
        leb_len(s) <= s.len(),
    decreases s.len(),
{
    if s.len() > 0 {
        lemma_leb_len_bound(s.drop_first());
    }
}

} // verus!
