//! Encoding values as bit strings, so that they can be encrypted one bit at a
//! time, and decoding them back.
//!
//! Unsigned integers are written most significant bit first. A string is a
//! 32-bit length prefix (its byte length, truncated to `u32`) followed by its
//! UTF-8 bytes, each most significant bit first.
use crate::text::{decimal, decimal_string};
use vstd::arithmetic::div_mod::*;
use vstd::arithmetic::power2::*;
use vstd::bits::*;
use vstd::prelude::*;
use vstd::slice::slice_subrange;
use vstd::string::*;
use vstd::utf8::*;

verus! {

/// Types that can be encoded into a bit string and decoded back.
///
/// `from_bits` succeeds exactly on the bit strings that `spec_decodable` accepts,
/// and what it returns encodes to exactly the bits it was given.
pub trait BitCodec: Sized {
    /// The bits that encode the value.
    spec fn spec_to_bits(&self) -> Seq<bool>;

    /// The bit strings that decode to a value.
    spec fn spec_decodable(bits: Seq<bool>) -> bool;

    /// Encodes the value as a bit string.
    fn to_bits(&self) -> (r: Vec<bool>)
        ensures
            r@ == self.spec_to_bits(),
    ;

    /// The messages with which decoding `bits` may fail.
    spec fn spec_error(bits: Seq<bool>, e: Seq<char>) -> bool;

    /// Decodes a bit string; an invalid one gives `Err` with a message.
    fn from_bits(bits: &[bool]) -> (r: Result<Self, String>)
        ensures
            r is Ok <==> Self::spec_decodable(bits@),
            r matches Ok(v) ==> v.spec_to_bits() == bits@,
            r matches Err(e) ==> Self::spec_error(bits@, e@),
    ;
}

/// Bit `i` (counting from the least significant) of `x`.
pub open spec fn bit_at(x: nat, i: nat) -> bool {
    (x / pow2(i)) % 2 == 1
}

/// The `w` lowest bits of `x`, most significant first.
pub open spec fn nat_to_bits(x: nat, w: nat) -> Seq<bool> {
    Seq::new(w, |k: int| bit_at(x, (w - 1 - k) as nat))
}

/// The number that a bit string denotes, most significant bit first.
pub open spec fn bits_to_nat(s: Seq<bool>) -> nat
    decreases s.len(),
{
    if s.len() == 0 {
        0
    } else {
        2 * bits_to_nat(s.drop_last()) + if s.last() {
            1nat
        } else {
            0nat
        }
    }
}

proof fn lemma_bits_to_nat_bound(s: Seq<bool>)
    ensures
        bits_to_nat(s) < pow2(s.len()),
    decreases s.len(),
{
    if s.len() == 0 {
        lemma2_to64();
    } else {
        lemma_bits_to_nat_bound(s.drop_last());
        lemma_pow2_unfold(s.len());
    }
}

proof fn lemma_nat_to_bits_push(x: nat, w: nat)
    ensures
        nat_to_bits(x, w + 1) == nat_to_bits(x / 2, w).push(x % 2 == 1),
{
    let lhs = nat_to_bits(x, w + 1);
    let rhs = nat_to_bits(x / 2, w).push(x % 2 == 1);
    assert forall|k: int| 0 <= k < w + 1 implies lhs[k] == rhs[k] by {
        if k < w {
            let e = (w - 1 - k) as nat;
            lemma_pow2_unfold(e + 1);
            lemma_pow2_pos(e);
            lemma_div_denominator(x as int, 2, pow2(e) as int);
            assert(pow2(e + 1) == 2 * pow2(e));
            assert(lhs[k] == bit_at(x, e + 1));
            assert(rhs[k] == bit_at(x / 2, e));
        } else {
            lemma2_to64();
            assert(lhs[k] == bit_at(x, 0));
        }
    }
    assert(lhs =~= rhs);
}

/// Reading a bit string as a number and writing that number back gives the bit string.
pub proof fn lemma_bits_round_trip(s: Seq<bool>)
    ensures
        nat_to_bits(bits_to_nat(s), s.len()) == s,
    decreases s.len(),
{
    if s.len() == 0 {
        assert(nat_to_bits(0, 0) =~= s);
    } else {
        let t = s.drop_last();
        lemma_bits_round_trip(t);
        let x = bits_to_nat(s);
        lemma_nat_to_bits_push(x, t.len());
        assert(x / 2 == bits_to_nat(t));
        assert(s =~= t.push(s.last()));
    }
}

/// Writing a number below 2^w as `w` bits and reading them back gives the number.
pub proof fn lemma_nat_round_trip(x: nat, w: nat)
    requires
        x < pow2(w),
    ensures
        bits_to_nat(nat_to_bits(x, w)) == x,
    decreases w,
{
    if w == 0 {
        lemma2_to64();
    } else {
        let w1 = (w - 1) as nat;
        lemma_pow2_unfold(w);
        lemma_nat_to_bits_push(x, w1);
        lemma_nat_round_trip(x / 2, w1);
        assert(nat_to_bits(x, w).drop_last() =~= nat_to_bits(x / 2, w1));
    }
}

/// Two numbers below 2^w with the same `w` bits are equal.
pub proof fn lemma_nat_to_bits_injective(x: nat, y: nat, w: nat)
    requires
        x < pow2(w),
        y < pow2(w),
        nat_to_bits(x, w) == nat_to_bits(y, w),
    ensures
        x == y,
{
    lemma_nat_round_trip(x, w);
    lemma_nat_round_trip(y, w);
}

/// The `width` lowest bits of `x`, most significant first.
fn uint_to_bits(x: u64, width: u64) -> (r: Vec<bool>)
    requires
        width <= 64,
    ensures
        r@ == nat_to_bits(x as nat, width as nat),
{
    let mut out: Vec<bool> = Vec::new();
    for idx in 0..width
        invariant
            width <= 64,
            out@ == nat_to_bits(x as nat, width as nat).take(idx as int),
    {
        let i = width - 1 - idx;
        let y = x >> i;
        let b = y & 1 == 1;
        proof {
            lemma_u64_shr_is_div(x, i);
            assert((y & 1 == 1) == (y % 2 == 1)) by (bit_vector);
            assert(out@.push(b) =~= nat_to_bits(x as nat, width as nat).take(idx + 1));
        }
        out.push(b);
    }
    proof {
        assert(nat_to_bits(x as nat, width as nat).take(width as int) =~= nat_to_bits(
            x as nat,
            width as nat,
        ));
    }
    out
}

/// The number that at most 64 bits denote, most significant first.
fn uint_from_bits(bits: &[bool]) -> (r: u64)
    requires
        bits.len() <= 64,
    ensures
        r == bits_to_nat(bits@),
{
    let mut acc: u64 = 0;
    let n = bits.len();
    proof {
        assert(bits@.take(0) =~= Seq::<bool>::empty());
    }
    for i in 0..n
        invariant
            n == bits.len(),
            n <= 64,
            acc == bits_to_nat(bits@.take(i as int)),
    {
        let v: u64 = if bits[i] {
            1
        } else {
            0
        };
        proof {
            lemma_bits_to_nat_bound(bits@.take(i as int));
            lemma2_to64_rest();
            if i < 63 {
                lemma_pow2_strictly_increases(i as nat, 63);
            }
            assert(acc < 0x8000_0000_0000_0000u64);
            assert((acc << 1u64) | v == acc * 2 + v) by (bit_vector)
                requires
                    acc < 0x8000_0000_0000_0000u64,
                    v <= 1,
            ;
            assert(bits@.take(i + 1).drop_last() =~= bits@.take(i as int));
        }
        acc = (acc << 1u64) | v;
    }
    proof {
        assert(bits@.take(n as int) =~= bits@);
    }
    acc
}

impl BitCodec for u8 {
    open spec fn spec_to_bits(&self) -> Seq<bool> {
        nat_to_bits(*self as nat, 8)
    }

    open spec fn spec_decodable(bits: Seq<bool>) -> bool {
        bits.len() == 8
    }

    open spec fn spec_error(bits: Seq<bool>, e: Seq<char>) -> bool {
        e == "Wrong bit length for u8"@
    }

    fn to_bits(&self) -> (r: Vec<bool>) {
        uint_to_bits(*self as u64, 8)
    }

    fn from_bits(bits: &[bool]) -> (r: Result<u8, String>)
        ensures
            r matches Ok(v) ==> v as nat == bits_to_nat(bits@),
    {
        if bits.len() != 8 {
            return Err("Wrong bit length for u8".to_owned());
        }
        let v = uint_from_bits(bits);
        proof {
            lemma_bits_to_nat_bound(bits@);
            lemma2_to64();
            lemma_bits_round_trip(bits@);
        }
        Ok(v as u8)
    }
}

impl BitCodec for u16 {
    open spec fn spec_to_bits(&self) -> Seq<bool> {
        nat_to_bits(*self as nat, 16)
    }

    open spec fn spec_decodable(bits: Seq<bool>) -> bool {
        bits.len() == 16
    }

    open spec fn spec_error(bits: Seq<bool>, e: Seq<char>) -> bool {
        e == "Wrong bit length for u16"@
    }

    fn to_bits(&self) -> (r: Vec<bool>) {
        uint_to_bits(*self as u64, 16)
    }

    fn from_bits(bits: &[bool]) -> (r: Result<u16, String>)
        ensures
            r matches Ok(v) ==> v as nat == bits_to_nat(bits@),
    {
        if bits.len() != 16 {
            return Err("Wrong bit length for u16".to_owned());
        }
        let v = uint_from_bits(bits);
        proof {
            lemma_bits_to_nat_bound(bits@);
            lemma2_to64();
            lemma_bits_round_trip(bits@);
        }
        Ok(v as u16)
    }
}

impl BitCodec for u32 {
    open spec fn spec_to_bits(&self) -> Seq<bool> {
        nat_to_bits(*self as nat, 32)
    }

    open spec fn spec_decodable(bits: Seq<bool>) -> bool {
        bits.len() == 32
    }

    open spec fn spec_error(bits: Seq<bool>, e: Seq<char>) -> bool {
        e == "Wrong bit length for u32"@
    }

    fn to_bits(&self) -> (r: Vec<bool>) {
        uint_to_bits(*self as u64, 32)
    }

    fn from_bits(bits: &[bool]) -> (r: Result<u32, String>)
        ensures
            r matches Ok(v) ==> v as nat == bits_to_nat(bits@),
    {
        if bits.len() != 32 {
            return Err("Wrong bit length for u32".to_owned());
        }
        let v = uint_from_bits(bits);
        proof {
            lemma_bits_to_nat_bound(bits@);
            lemma2_to64();
            lemma_bits_round_trip(bits@);
        }
        Ok(v as u32)
    }
}

impl BitCodec for u64 {
    open spec fn spec_to_bits(&self) -> Seq<bool> {
        nat_to_bits(*self as nat, 64)
    }

    open spec fn spec_decodable(bits: Seq<bool>) -> bool {
        bits.len() == 64
    }

    open spec fn spec_error(bits: Seq<bool>, e: Seq<char>) -> bool {
        e == "Wrong bit length for u64"@
    }

    fn to_bits(&self) -> (r: Vec<bool>) {
        uint_to_bits(*self, 64)
    }

    fn from_bits(bits: &[bool]) -> (r: Result<u64, String>)
        ensures
            r matches Ok(v) ==> v as nat == bits_to_nat(bits@),
    {
        if bits.len() != 64 {
            return Err("Wrong bit length for u64".to_owned());
        }
        let v = uint_from_bits(bits);
        proof {
            lemma_bits_round_trip(bits@);
        }
        Ok(v)
    }
}

/// Round trip for `u8`: its encoding decodes, and only to the value itself.
pub proof fn law_u8_round_trip(x: u8, y: u8)
    ensures
        <u8 as BitCodec>::spec_decodable(x.spec_to_bits()),
        y.spec_to_bits() == x.spec_to_bits() ==> y == x,
{
    lemma2_to64();
    if y.spec_to_bits() == x.spec_to_bits() {
        lemma_nat_to_bits_injective(x as nat, y as nat, 8);
    }
}

/// Round trip for `u16`: its encoding decodes, and only to the value itself.
pub proof fn law_u16_round_trip(x: u16, y: u16)
    ensures
        <u16 as BitCodec>::spec_decodable(x.spec_to_bits()),
        y.spec_to_bits() == x.spec_to_bits() ==> y == x,
{
    lemma2_to64();
    if y.spec_to_bits() == x.spec_to_bits() {
        lemma_nat_to_bits_injective(x as nat, y as nat, 16);
    }
}

/// Round trip for `u32`: its encoding decodes, and only to the value itself.
pub proof fn law_u32_round_trip(x: u32, y: u32)
    ensures
        <u32 as BitCodec>::spec_decodable(x.spec_to_bits()),
        y.spec_to_bits() == x.spec_to_bits() ==> y == x,
{
    lemma2_to64();
    if y.spec_to_bits() == x.spec_to_bits() {
        lemma_nat_to_bits_injective(x as nat, y as nat, 32);
    }
}

/// Round trip for `u64`: its encoding decodes, and only to the value itself.
pub proof fn law_u64_round_trip(x: u64, y: u64)
    ensures
        <u64 as BitCodec>::spec_decodable(x.spec_to_bits()),
        y.spec_to_bits() == x.spec_to_bits() ==> y == x,
{
    lemma2_to64();
    if y.spec_to_bits() == x.spec_to_bits() {
        lemma_nat_to_bits_injective(x as nat, y as nat, 64);
    }
}

/// The bits of a byte string: each byte in turn, most significant bit first.
pub open spec fn bytes_to_bits(b: Seq<u8>) -> Seq<bool>
    decreases b.len(),
{
    if b.len() == 0 {
        Seq::empty()
    } else {
        bytes_to_bits(b.drop_last()) + nat_to_bits(b.last() as nat, 8)
    }
}

/// The bytes that consecutive groups of 8 bits denote (a trailing partial group is dropped).
pub open spec fn bits_to_bytes(s: Seq<bool>) -> Seq<u8> {
    Seq::new(s.len() / 8, |k: int| bits_to_nat(s.subrange(8 * k, 8 * k + 8)) as u8)
}

/// The UTF-8 bytes of a string.
pub open spec fn string_bytes(s: String) -> Seq<u8> {
    encode_utf8(s@)
}

proof fn lemma_bytes_to_bits_len(b: Seq<u8>)
    ensures
        bytes_to_bits(b).len() == 8 * b.len(),
    decreases b.len(),
{
    if b.len() > 0 {
        lemma_bytes_to_bits_len(b.drop_last());
    }
}

/// Group `k` of 8 bits in the bits of a byte string is byte `k`.
proof fn lemma_bytes_to_bits_group(b: Seq<u8>, k: int)
    requires
        0 <= k < b.len(),
    ensures
        bytes_to_bits(b).subrange(8 * k, 8 * k + 8) == nat_to_bits(b[k] as nat, 8),
    decreases b.len(),
{
    let t = b.drop_last();
    lemma_bytes_to_bits_len(t);
    if k < t.len() {
        lemma_bytes_to_bits_group(t, k);
        assert(bytes_to_bits(b).subrange(8 * k, 8 * k + 8) =~= bytes_to_bits(t).subrange(
            8 * k,
            8 * k + 8,
        ));
    } else {
        assert(bytes_to_bits(b).subrange(8 * k, 8 * k + 8) =~= nat_to_bits(b[k] as nat, 8));
    }
}

/// Reading back the bytes of the bits of a byte string gives the byte string.
proof fn lemma_bytes_round_trip(b: Seq<u8>)
    ensures
        bits_to_bytes(bytes_to_bits(b)) == b,
{
    lemma_bytes_to_bits_len(b);
    lemma2_to64();
    assert forall|k: int| 0 <= k < b.len() implies #[trigger] bits_to_bytes(bytes_to_bits(b))[k]
        == b[k] by {
        lemma_bytes_to_bits_group(b, k);
        lemma_nat_round_trip(b[k] as nat, 8);
    }
    assert(bits_to_bytes(bytes_to_bits(b)) =~= b);
}

/// Writing out the bytes that a whole number of 8-bit groups denote gives those bits back.
proof fn lemma_bits_bytes_round_trip(s: Seq<bool>)
    requires
        s.len() % 8 == 0,
    ensures
        bytes_to_bits(bits_to_bytes(s)) == s,
    decreases s.len(),
{
    if s.len() > 0 {
        let t = s.take(s.len() - 8);
        let g = s.subrange(s.len() - 8, s.len() as int);
        lemma_bits_bytes_round_trip(t);
        let bs = bits_to_bytes(s);
        assert(bs.drop_last() =~= bits_to_bytes(t)) by {
            assert forall|k: int| 0 <= k < bs.len() - 1 implies bs[k] == bits_to_bytes(t)[k] by {
                assert(s.subrange(8 * k, 8 * k + 8) =~= t.subrange(8 * k, 8 * k + 8));
            }
        }
        lemma_bits_to_nat_bound(g);
        lemma2_to64();
        lemma_bits_round_trip(g);
        assert(bs.last() as nat == bits_to_nat(g));
        assert(s =~= t + g);
    }
}

/// The error that `String::from_utf8` returns for bytes that are not UTF-8.
#[verifier::external_type_specification]
#[verifier::external_body]
pub struct ExFromUtf8Error(std::string::FromUtf8Error);

/// Calls `String::from_utf8`, which returns `Ok` exactly when the bytes are valid UTF-8, and then
/// a string whose characters those bytes encode.
#[verifier::external_body]
fn string_from_utf8(bytes: Vec<u8>) -> (r: Result<String, std::string::FromUtf8Error>)
    ensures
        r is Ok <==> valid_utf8(bytes@),
        r matches Ok(s) ==> s@ == decode_utf8(bytes@),
{
    String::from_utf8(bytes)
}

/// The message for a bit string too short to hold the length prefix.
fn short_prefix_message(got: usize) -> (r: String)
    ensures
        r@ == "Expected >=32-bit prefix, got "@ + decimal(got as nat),
{
    let mut s = String::from_str("Expected >=32-bit prefix, got ");
    let g = decimal_string(got as u128);
    s.append(g.as_str());
    s
}

/// The message for a bit string whose length disagrees with its length prefix.
fn length_mismatch_message(byte_len: u64, expected: u64, got: usize) -> (r: String)
    ensures
        r@ == "Length prefix says "@ + decimal(byte_len as nat) + " (expected total of "@ + decimal(
            expected as nat,
        ) + "), but got "@ + decimal(got as nat) + " bits"@,
{
    let mut s = String::from_str("Length prefix says ");
    let t = decimal_string(byte_len as u128);
    s.append(t.as_str());
    s.append(" (expected total of ");
    let t = decimal_string(expected as u128);
    s.append(t.as_str());
    s.append("), but got ");
    let t = decimal_string(got as u128);
    s.append(t.as_str());
    s.append(" bits");
    s
}

impl BitCodec for String {
    open spec fn spec_to_bits(&self) -> Seq<bool> {
        nat_to_bits(string_bytes(*self).len() % 0x1_0000_0000, 32) + bytes_to_bits(
            string_bytes(*self),
        )
    }

    open spec fn spec_decodable(bits: Seq<bool>) -> bool {
        &&& bits.len() >= 32
        &&& bits.len() == 32 + 8 * bits_to_nat(bits.take(32))
        &&& valid_utf8(bits_to_bytes(bits.skip(32)))
    }

    /// A bit string too short for the length prefix, or whose length disagrees with it, fails
    /// with a message that names the lengths; one whose bytes are not UTF-8 fails with the text of
    /// the UTF-8 error.
    open spec fn spec_error(bits: Seq<bool>, e: Seq<char>) -> bool {
        if bits.len() < 32 {
            e == "Expected >=32-bit prefix, got "@ + decimal(bits.len())
        } else if bits.len() != 32 + 8 * bits_to_nat(bits.take(32)) {
            e == "Length prefix says "@ + decimal(bits_to_nat(bits.take(32))) + " (expected total of "@
                + decimal((32 + 8 * bits_to_nat(bits.take(32))) as nat) + "), but got "@ + decimal(
                bits.len(),
            ) + " bits"@
        } else {
            true
        }
    }

    fn to_bits(&self) -> (r: Vec<bool>) {
        let bytes = self.as_str().as_bytes();
        let len64 = bytes.len() as u64;
        let byte_len = len64 as u32;
        proof {
            assert((len64 as u32) == ((len64 % 0x1_0000_0000u64) as u32)) by (bit_vector);
        }
        let mut bits = byte_len.to_bits();
        let n = bytes.len();
        proof {
            assert(bytes@.take(0) =~= Seq::<u8>::empty());
            assert(bits@ + bytes_to_bits(bytes@.take(0)) =~= bits@);
        }
        let ghost prefix = bits@;
        for i in 0..n
            invariant
                n == bytes.len(),
                bits@ == prefix + bytes_to_bits(bytes@.take(i as int)),
        {
            let mut group = bytes[i].to_bits();
            proof {
                assert(bytes@.take(i + 1).drop_last() =~= bytes@.take(i as int));
            }
            bits.append(&mut group);
        }
        proof {
            assert(bytes@.take(n as int) =~= bytes@);
        }
        bits
    }

    fn from_bits(bits: &[bool]) -> (r: Result<String, String>) {
        if bits.len() < 32 {
            return Err(short_prefix_message(bits.len()));
        }
        let prefix = slice_subrange(bits, 0, 32);
        let byte_len: u32 = match u32::from_bits(prefix) {
            Ok(v) => v,
            Err(e) => {
                return Err(e);
            },
        };
        proof {
            lemma2_to64();
            lemma_nat_round_trip(byte_len as nat, 32);
            assert(prefix@ =~= bits@.take(32));
        }
        let exp_total: u64 = 32 + (byte_len as u64) * 8;
        if bits.len() as u64 != exp_total {
            return Err(length_mismatch_message(byte_len as u64, exp_total, bits.len()));
        }
        let ghost body = bits@.skip(32);
        let count = byte_len as usize;
        let mut bytes: Vec<u8> = Vec::new();
        for k in 0..count
            invariant
                count == byte_len,
                bits.len() == 32 + 8 * count,
                body == bits@.skip(32),
                bytes.len() == k,
                forall|t: int| 0 <= t < k ==> #[trigger] bytes[t] == bits_to_bytes(body)[t],
        {
            let chunk = slice_subrange(bits, 32 + 8 * k, 40 + 8 * k);
            let b = match u8::from_bits(chunk) {
                Ok(v) => v,
                Err(e) => {
                    return Err(e);
                },
            };
            proof {
                lemma2_to64();
                lemma_nat_round_trip(b as nat, 8);
                assert(chunk@ =~= body.subrange(8 * k, 8 * k + 8));
            }
            bytes.push(b);
        }
        proof {
            assert(bytes@ =~= bits_to_bytes(body));
        }
        let ghost byte_seq = bytes@;
        match string_from_utf8(bytes) {
            Ok(s) => {
                proof {
                    decode_utf8_encode_utf8(byte_seq);
                    lemma_bits_bytes_round_trip(body);
                    lemma_bits_round_trip(bits@.take(32));
                    lemma_small_mod(count as nat, 0x1_0000_0000);
                    assert(bits@ =~= bits@.take(32) + body);
                }
                Ok(s)
            },
            Err(e) => Err(e.to_string()),
        }
    }
}

/// Round trip for strings whose UTF-8 encoding has fewer than 2^32 bytes (the length prefix is
/// 32 bits): the encoding decodes, and only to a string with the same characters.
pub proof fn law_string_round_trip(x: String, y: String)
    requires
        string_bytes(x).len() < 0x1_0000_0000,
    ensures
        <String as BitCodec>::spec_decodable(x.spec_to_bits()),
        y.spec_to_bits() == x.spec_to_bits() ==> y@ == x@,
{
    let bx = string_bytes(x);
    let bits = x.spec_to_bits();
    lemma2_to64();
    lemma_small_mod(bx.len(), 0x1_0000_0000);
    lemma_bytes_to_bits_len(bx);
    let head = nat_to_bits(bx.len(), 32);
    assert(bits.take(32) =~= head);
    assert(bits.skip(32) =~= bytes_to_bits(bx));
    lemma_nat_round_trip(bx.len(), 32);
    lemma_bytes_round_trip(bx);
    encode_utf8_valid_utf8(x@);
    if y.spec_to_bits() == bits {
        let by = string_bytes(y);
        lemma_bytes_to_bits_len(by);
        assert(bytes_to_bits(by) =~= bits.skip(32));
        lemma_bytes_round_trip(by);
        encode_utf8_decode_utf8(x@);
        encode_utf8_decode_utf8(y@);
    }
}

} // verus!
