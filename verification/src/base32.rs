//! Base32 codec over the RFC-4648 alphabet: an unpadded encoder and a
//! case-insensitive decoder that also accepts `0` for `O` and `1` for `I`.
//!
//! The specification views the input of `encode` as a stream of bits, most
//! significant bit of each byte first.  Symbol `j` of the output carries bits
//! `5j .. 5j+5` of that stream, the last group padded with zero bits.  The
//! decoder reads symbols up to the first `=`, rebuilds the bit stream five
//! bits at a time, and cuts it into bytes again.

use vstd::prelude::*;

use crate::error::Error;

verus! {

/// ASCII code of the padding marker `=`.
pub const PADDING: u8 = 61;

/// Bit `k` (0 = least significant) of the byte `b`, as 0 or 1.
pub open spec fn bit(b: u8, k: u8) -> u8 {
    (b >> k) & 1
}

/// Bit `q` of the big-endian bit stream of `s`: bit 0 is the most
/// significant bit of `s[0]`, bit 8 the most significant bit of `s[1]`,
/// and so on; 0 outside the stream.
pub open spec fn stream_bit(s: Seq<u8>, q: int) -> u8 {
    if 0 <= q < 8 * s.len() {
        bit(s[q / 8], (7 - q % 8) as u8)
    } else {
        0
    }
}

/// The value of 5-bit group `j` of the bit stream of `s`, in `0 .. 32`;
/// groups reaching past the end of the stream are padded with zero bits.
pub open spec fn group_val(s: Seq<u8>, j: int) -> int {
    16 * stream_bit(s, 5 * j) + 8 * stream_bit(s, 5 * j + 1) + 4 * stream_bit(s, 5 * j + 2)
        + 2 * stream_bit(s, 5 * j + 3) + stream_bit(s, 5 * j + 4)
}

/// The RFC-4648 base32 alphabet as a function of the 5-bit value:
/// `A`-`Z` for 0..26 and `2`-`7` for 26..32.
pub open spec fn alphabet_char(v: int) -> u8 {
    if v < 26 {
        (65 + v) as u8
    } else {
        (24 + v) as u8
    }
}

/// What `encode` returns: one alphabet symbol for each 5-bit group of the
/// input's bit stream, `ceil(8 * len / 5)` symbols in all, no padding.
pub open spec fn encode_spec(s: Seq<u8>) -> Seq<u8> {
    Seq::new(((8 * s.len() + 4) / 5) as nat, |j: int| alphabet_char(group_val(s, j)))
}

/// Whether `c` is accepted by the decoder as a symbol: a letter of either
/// case, a digit `2`-`7`, or one of the aliases `0` (for `O`) and `1` (for `I`).
pub open spec fn is_symbol(c: u8) -> bool {
    (97 <= c && c <= 122) || (65 <= c && c <= 90) || (50 <= c && c <= 55) || c == 48 || c == 49
}

/// The 5-bit value of an accepted symbol (0 for other characters):
/// letters map to 0..26 regardless of case, `2`-`7` to 26..32,
/// `0` to 14 (`O`) and `1` to 8 (`I`).
pub open spec fn symbol_value(c: u8) -> u8 {
    if 97 <= c && c <= 122 {
        (c - 97) as u8
    } else if 65 <= c && c <= 90 {
        (c - 65) as u8
    } else if 50 <= c && c <= 55 {
        (c - 24) as u8
    } else if c == 48 {
        14
    } else if c == 49 {
        8
    } else {
        0
    }
}

/// Index of the first `=` in `s`, or `s.len()` when there is none:
/// the decoder reads exactly this prefix.
pub open spec fn sig_end(s: Seq<u8>) -> int
    decreases s.len(),
{
    if s.len() == 0 {
        0
    } else if s[0] == PADDING {
        0
    } else {
        1 + sig_end(s.drop_first())
    }
}

/// Index of the first character before any `=` that is not an accepted
/// symbol; meaningful only when `decode_ok` is false.
pub open spec fn invalid_pos(s: Seq<u8>) -> int
    decreases s.len(),
{
    if s.len() == 0 {
        0
    } else if s[0] == PADDING {
        0
    } else if !is_symbol(s[0]) {
        0
    } else {
        1 + invalid_pos(s.drop_first())
    }
}

/// Whether every character before the first `=` is an accepted symbol,
/// so that `decode` succeeds.
pub open spec fn decode_ok(s: Seq<u8>) -> bool {
    forall|q: int| 0 <= q < sig_end(s) ==> is_symbol(#[trigger] s[q])
}

/// The 5-bit values of the characters of `t`, position by position.
pub open spec fn sym_seq(t: Seq<u8>) -> Seq<u8> {
    Seq::new(t.len(), |q: int| symbol_value(t[q]))
}

/// Bit `q` of the bit stream spelled by the 5-bit groups `vs`, most
/// significant bit of each group first; 0 outside the stream.
pub open spec fn group_stream_bit(vs: Seq<u8>, q: int) -> u8 {
    if 0 <= q < 5 * vs.len() {
        bit(vs[q / 5], (4 - q % 5) as u8)
    } else {
        0
    }
}

/// The value of output byte `j` of the stream spelled by `vs`, in `0 .. 256`;
/// bits past the end of the stream count as zero.
pub open spec fn byte_val(vs: Seq<u8>, j: int) -> int {
    128 * group_stream_bit(vs, 8 * j) + 64 * group_stream_bit(vs, 8 * j + 1)
        + 32 * group_stream_bit(vs, 8 * j + 2) + 16 * group_stream_bit(vs, 8 * j + 3)
        + 8 * group_stream_bit(vs, 8 * j + 4) + 4 * group_stream_bit(vs, 8 * j + 5)
        + 2 * group_stream_bit(vs, 8 * j + 6) + group_stream_bit(vs, 8 * j + 7)
}

/// The bytes decoded from the 5-bit values `vs`: one byte for each full 8
/// bits of the stream, and one more byte for a trailing partial group whose
/// bits are not all zero.
pub open spec fn decode_bytes(vs: Seq<u8>) -> Seq<u8> {
    let nfull = (5 * vs.len() as int) / 8;
    let full = Seq::new(nfull as nat, |j: int| byte_val(vs, j) as u8);
    if (5 * vs.len() as int) % 8 != 0 && byte_val(vs, nfull) != 0 {
        full.push(byte_val(vs, nfull) as u8)
    } else {
        full
    }
}

/// What a successful decode of `s` returns.
pub open spec fn decode_val(s: Seq<u8>) -> Seq<u8> {
    decode_bytes(sym_seq(s.take(sig_end(s))))
}

/// Maps one character to its 5-bit value, or `None` when it is not an
/// accepted symbol.
pub fn ascii_to_value_5bit(c: u8) -> (r: Option<u8>)
    ensures
        r == (if is_symbol(c) {
            Some(symbol_value(c))
        } else {
            None::<u8>
        }),
        r matches Some(v) ==> v < 32,
{
    if 97 <= c && c <= 122 {
        Some(c - 97)
    } else if 65 <= c && c <= 90 {
        Some(c - 65)
    } else if 50 <= c && c <= 55 {
        Some(c - 50 + 26)
    } else if c == 48 {
        Some(14)
    } else if c == 49 {
        Some(8)
    } else {
        None
    }
}

/// A single bit is 0 or 1.
proof fn lemma_bit_bound(b: u8, k: u8)
    ensures
        bit(b, k) <= 1,
{
    assert((b >> k) & 1 <= 1) by (bit_vector);
}

/// Bit `8 * i + r` of the stream of `s` is bit `7 - r` of byte `s[i]`.
proof fn lemma_stream_bit_at(s: Seq<u8>, i: int, r: int)
    requires
        0 <= i < s.len(),
        0 <= r < 8,
    ensures
        stream_bit(s, 8 * i + r) == bit(s[i], (7 - r) as u8),
{
    vstd::arithmetic::div_mod::lemma_fundamental_div_mod_converse(8 * i + r, 8, i, r);
}

/// Bit `5 * i + r` of the stream spelled by `vs` is bit `4 - r` of group `vs[i]`.
proof fn lemma_group_stream_bit_at(vs: Seq<u8>, i: int, r: int)
    requires
        0 <= i < vs.len(),
        0 <= r < 5,
    ensures
        group_stream_bit(vs, 5 * i + r) == bit(vs[i], (4 - r) as u8),
{
    vstd::arithmetic::div_mod::lemma_fundamental_div_mod_converse(5 * i + r, 5, i, r);
}

/// The alphabet symbol of the 5-bit value `v & 0x1f`.
fn value_to_ascii(v: u8) -> (r: u8)
    ensures
        r == alphabet_char((v & 0x1f) as int),
{
    let m = v & 0x1f;
    proof {
        assert(v & 0x1f < 32) by (bit_vector);
    }
    if m < 26 {
        65 + m
    } else {
        24 + m
    }
}

/// Encodes arbitrary bytes as unpadded base32 text: symbol `j` of the
/// result carries bits `5j .. 5j + 5` of the input's bit stream, and the
/// result has `ceil(8 * len / 5)` symbols.
pub fn encode(binary: &[u8]) -> (r: Vec<u8>)
    ensures
        r@ == encode_spec(binary@),
        r@.len() == (8 * binary@.len() + 4) / 5,
{
    let ghost s = binary@;
    let n = binary.len();
    let mut buffer: Vec<u8> = Vec::new();
    let mut shift: u8 = 3;
    let mut carry: u8 = 0;
    let mut i: usize = 0;
    while i < n
        invariant
            n == s.len(),
            s == binary@,
            i <= n,
            3 <= shift <= 8,
            (i == 0) <==> (shift == 3),
            i == 0 ==> carry == 0,
            5 * buffer@.len() + (shift - 3) == 8 * i,
            forall|j: int|
                0 <= j < buffer@.len() ==> buffer@[j] == alphabet_char(
                    group_val(s, j),
                ),
            i > 0 ==> carry == s[i - 1] << ((8 - shift) as u8),
        decreases n - i,
    {
        let byte = binary[i];
        let ghost e = buffer@.len() as int;
        let ghost sh = shift;
        let ghost a: u8 = if i > 0 {
            s[i - 1]
        } else {
            0
        };

        let value_5bit = if shift == 8 {
            carry
        } else {
            carry | (byte >> shift)
        };
        proof {
            lemma_first_symbol(s, i as int, e, sh, a, byte, carry, value_5bit);
        }
        buffer.push(value_to_ascii(value_5bit));

        if shift > 5 {
            shift = shift - 5;
            let value2 = byte >> shift;
            proof {
                lemma_second_symbol(s, i as int, e, sh, byte, value2);
            }
            buffer.push(value_to_ascii(value2));
        }
        shift = 5 - shift;
        carry = byte << shift;
        shift = 8 - shift;
        i = i + 1;
    }
    if shift != 3 {
        let ghost e = buffer@.len() as int;
        let ghost a: u8 = s[n - 1];
        proof {
            lemma_flush_symbol(s, e, shift, a, carry);
            vstd::arithmetic::div_mod::lemma_fundamental_div_mod_converse(
                8 * n as int + 4,
                5,
                e + 1,
                shift - 4,
            );
        }
        buffer.push(value_to_ascii(carry));
    }
    proof {
        assert(buffer@ =~= encode_spec(s));
    }
    buffer
}

/// In the encoding loop with `5 * e + (sh - 3) == 8 * i`, the masked first
/// symbol value of the iteration over byte `b = s[i]` is group `e` of the
/// stream, whose high bits sit in `carry` (low bits of `a = s[i - 1]`).
proof fn lemma_first_symbol(s: Seq<u8>, i: int, e: int, sh: u8, a: u8, b: u8, carry: u8, v: u8)
    requires
        0 <= i < s.len(),
        3 <= sh <= 8,
        (i == 0) <==> (sh == 3),
        i == 0 ==> carry == 0,
        5 * e + (sh - 3) == 8 * i,
        i > 0 ==> a == s[i - 1] && carry == (a << ((8 - sh) as u8)),
        v == (if sh == 8 {
            carry
        } else {
            carry | (b >> sh)
        }),
        b == s[i],
    ensures
        (v & 0x1f) as int == group_val(s, e),
{
    if sh == 3 {
        lemma_stream_bit_at(s, 0, 0);
        lemma_stream_bit_at(s, 0, 1);
        lemma_stream_bit_at(s, 0, 2);
        lemma_stream_bit_at(s, 0, 3);
        lemma_stream_bit_at(s, 0, 4);
        assert(((carry | (b >> 3)) & 0x1f) == 16 * ((b >> 7) & 1) + 8 * ((b >> 6) & 1) + 4 * ((b
            >> 5) & 1) + 2 * ((b >> 4) & 1) + ((b >> 3) & 1)) by (bit_vector)
            requires
                carry == 0,
        ;
    } else if sh == 4 {
        lemma_stream_bit_at(s, i - 1, 7);
        lemma_stream_bit_at(s, i, 0);
        lemma_stream_bit_at(s, i, 1);
        lemma_stream_bit_at(s, i, 2);
        lemma_stream_bit_at(s, i, 3);
        assert((((a << 4) | (b >> 4)) & 0x1f) == 16 * ((a >> 0) & 1) + 8 * ((b >> 7) & 1) + 4 * ((b
            >> 6) & 1) + 2 * ((b >> 5) & 1) + ((b >> 4) & 1)) by (bit_vector);
    } else if sh == 5 {
        lemma_stream_bit_at(s, i - 1, 6);
        lemma_stream_bit_at(s, i - 1, 7);
        lemma_stream_bit_at(s, i, 0);
        lemma_stream_bit_at(s, i, 1);
        lemma_stream_bit_at(s, i, 2);
        assert((((a << 3) | (b >> 5)) & 0x1f) == 16 * ((a >> 1) & 1) + 8 * ((a >> 0) & 1) + 4 * ((b
            >> 7) & 1) + 2 * ((b >> 6) & 1) + ((b >> 5) & 1)) by (bit_vector);
    } else if sh == 6 {
        lemma_stream_bit_at(s, i - 1, 5);
        lemma_stream_bit_at(s, i - 1, 6);
        lemma_stream_bit_at(s, i - 1, 7);
        lemma_stream_bit_at(s, i, 0);
        lemma_stream_bit_at(s, i, 1);
        assert((((a << 2) | (b >> 6)) & 0x1f) == 16 * ((a >> 2) & 1) + 8 * ((a >> 1) & 1) + 4 * ((a
            >> 0) & 1) + 2 * ((b >> 7) & 1) + ((b >> 6) & 1)) by (bit_vector);
    } else if sh == 7 {
        lemma_stream_bit_at(s, i - 1, 4);
        lemma_stream_bit_at(s, i - 1, 5);
        lemma_stream_bit_at(s, i - 1, 6);
        lemma_stream_bit_at(s, i - 1, 7);
        lemma_stream_bit_at(s, i, 0);
        assert((((a << 1) | (b >> 7)) & 0x1f) == 16 * ((a >> 3) & 1) + 8 * ((a >> 2) & 1) + 4 * ((a
            >> 1) & 1) + 2 * ((a >> 0) & 1) + ((b >> 7) & 1)) by (bit_vector);
    } else {
        lemma_stream_bit_at(s, i - 1, 3);
        lemma_stream_bit_at(s, i - 1, 4);
        lemma_stream_bit_at(s, i - 1, 5);
        lemma_stream_bit_at(s, i - 1, 6);
        lemma_stream_bit_at(s, i - 1, 7);
        assert((((a << 0)) & 0x1f) == 16 * ((a >> 4) & 1) + 8 * ((a >> 3) & 1) + 4 * ((a >> 2) & 1)
            + 2 * ((a >> 1) & 1) + ((a >> 0) & 1)) by (bit_vector);
    }
}

/// When three or more bits of the group were pending, the second symbol of
/// the iteration is group `e + 1`, taken wholly from the middle of `b = s[i]`.
proof fn lemma_second_symbol(s: Seq<u8>, i: int, e: int, sh: u8, b: u8, v: u8)
    requires
        0 <= i < s.len(),
        6 <= sh <= 8,
        5 * e + (sh - 3) == 8 * i,
        v == b >> ((sh - 5) as u8),
        b == s[i],
    ensures
        (v & 0x1f) as int == group_val(s, e + 1),
{
    if sh == 6 {
        lemma_stream_bit_at(s, i, 2);
        lemma_stream_bit_at(s, i, 3);
        lemma_stream_bit_at(s, i, 4);
        lemma_stream_bit_at(s, i, 5);
        lemma_stream_bit_at(s, i, 6);
        assert(((b >> 1) & 0x1f) == 16 * ((b >> 5) & 1) + 8 * ((b >> 4) & 1) + 4 * ((b >> 3) & 1)
            + 2 * ((b >> 2) & 1) + ((b >> 1) & 1)) by (bit_vector);
    } else if sh == 7 {
        lemma_stream_bit_at(s, i, 1);
        lemma_stream_bit_at(s, i, 2);
        lemma_stream_bit_at(s, i, 3);
        lemma_stream_bit_at(s, i, 4);
        lemma_stream_bit_at(s, i, 5);
        assert(((b >> 2) & 0x1f) == 16 * ((b >> 6) & 1) + 8 * ((b >> 5) & 1) + 4 * ((b >> 4) & 1)
            + 2 * ((b >> 3) & 1) + ((b >> 2) & 1)) by (bit_vector);
    } else {
        lemma_stream_bit_at(s, i, 0);
        lemma_stream_bit_at(s, i, 1);
        lemma_stream_bit_at(s, i, 2);
        lemma_stream_bit_at(s, i, 3);
        lemma_stream_bit_at(s, i, 4);
        assert(((b >> 3) & 0x1f) == 16 * ((b >> 7) & 1) + 8 * ((b >> 6) & 1) + 4 * ((b >> 5) & 1)
            + 2 * ((b >> 4) & 1) + ((b >> 3) & 1)) by (bit_vector);
    }
}

/// After the last byte, the pending low bits of `a = s[len - 1]` held in
/// `carry` spell the final, zero-padded group `e`.
proof fn lemma_flush_symbol(s: Seq<u8>, e: int, sh: u8, a: u8, carry: u8)
    requires
        s.len() > 0,
        4 <= sh <= 8,
        5 * e + (sh - 3) == 8 * s.len(),
        a == s[s.len() - 1],
        carry == (a << ((8 - sh) as u8)),
    ensures
        (carry & 0x1f) as int == group_val(s, e),
{
    let n = s.len() as int;
    if sh == 4 {
        lemma_stream_bit_at(s, n - 1, 7);
        assert((((a << 4)) & 0x1f) == 16 * ((a >> 0) & 1)) by (bit_vector);
    } else if sh == 5 {
        lemma_stream_bit_at(s, n - 1, 6);
        lemma_stream_bit_at(s, n - 1, 7);
        assert((((a << 3)) & 0x1f) == 16 * ((a >> 1) & 1) + 8 * ((a >> 0) & 1)) by (bit_vector);
    } else if sh == 6 {
        lemma_stream_bit_at(s, n - 1, 5);
        lemma_stream_bit_at(s, n - 1, 6);
        lemma_stream_bit_at(s, n - 1, 7);
        assert((((a << 2)) & 0x1f) == 16 * ((a >> 2) & 1) + 8 * ((a >> 1) & 1) + 4 * ((a >> 0)
            & 1)) by (bit_vector);
    } else if sh == 7 {
        lemma_stream_bit_at(s, n - 1, 4);
        lemma_stream_bit_at(s, n - 1, 5);
        lemma_stream_bit_at(s, n - 1, 6);
        lemma_stream_bit_at(s, n - 1, 7);
        assert((((a << 1)) & 0x1f) == 16 * ((a >> 3) & 1) + 8 * ((a >> 2) & 1) + 4 * ((a >> 1) & 1)
            + 2 * ((a >> 0) & 1)) by (bit_vector);
    } else {
        lemma_stream_bit_at(s, n - 1, 3);
        lemma_stream_bit_at(s, n - 1, 4);
        lemma_stream_bit_at(s, n - 1, 5);
        lemma_stream_bit_at(s, n - 1, 6);
        lemma_stream_bit_at(s, n - 1, 7);
        assert((((a << 0)) & 0x1f) == 16 * ((a >> 4) & 1) + 8 * ((a >> 3) & 1) + 4 * ((a >> 2) & 1)
            + 2 * ((a >> 1) & 1) + ((a >> 0) & 1)) by (bit_vector);
    }
}

/// A bit of the stream spelled by `vs` is 0 or 1.
proof fn lemma_gsb_bound(vs: Seq<u8>, q: int)
    ensures
        group_stream_bit(vs, q) <= 1,
{
    if 0 <= q < 5 * vs.len() {
        lemma_bit_bound(vs[q / 5], (4 - q % 5) as u8);
    }
}

/// Bits of the stream spelled by the first `k` symbols do not change when
/// symbol `k` is taken in as well.
proof fn lemma_gsb_take(s: Seq<u8>, k: int, q: int)
    requires
        0 <= q < 5 * k,
        k < s.len(),
    ensures
        group_stream_bit(sym_seq(s.take(k + 1)), q) == group_stream_bit(sym_seq(s.take(k)), q),
{
    vstd::arithmetic::div_mod::lemma_fundamental_div_mod(q, 5);
    vstd::arithmetic::div_mod::lemma_mod_pos_bound(q, 5);
}

/// `sig_end(s) == k` exactly when no `=` stands before `k` and one stands
/// at `k` (or `k` is the length).
proof fn lemma_sig_end_at(s: Seq<u8>, k: int)
    requires
        0 <= k <= s.len(),
        forall|q: int| 0 <= q < k ==> #[trigger] s[q] != PADDING,
        k < s.len() ==> s[k] == PADDING,
    ensures
        sig_end(s) == k,
    decreases s.len(),
{
    if s.len() == 0 || k == 0 {
    } else {
        assert(s[0] != PADDING);
        lemma_sig_end_at(s.drop_first(), k - 1);
    }
}

/// `sig_end` stays between 0 and the length.
proof fn lemma_sig_end_bounds(s: Seq<u8>)
    ensures
        0 <= sig_end(s) <= s.len(),
    decreases s.len(),
{
    if s.len() > 0 && s[0] != PADDING {
        lemma_sig_end_bounds(s.drop_first());
    }
}

/// A prefix without `=` keeps `sig_end` beyond it.
proof fn lemma_sig_end_min(s: Seq<u8>, k: int)
    requires
        0 <= k < s.len(),
        forall|q: int| 0 <= q <= k ==> #[trigger] s[q] != PADDING,
    ensures
        sig_end(s) > k,
    decreases k,
{
    assert(s[0] != PADDING);
    lemma_sig_end_bounds(s.drop_first());
    if k > 0 {
        let t = s.drop_first();
        assert forall|q: int| 0 <= q <= k - 1 implies #[trigger] t[q] != PADDING by {
            assert(t[q] == s[q + 1]);
        };
        lemma_sig_end_min(t, k - 1);
    }
}

/// `invalid_pos(s) == k` when everything before `k` is a symbol, nothing
/// before `k` is `=`, and `s[k]` is neither.
proof fn lemma_invalid_pos_at(s: Seq<u8>, k: int)
    requires
        0 <= k < s.len(),
        forall|q: int| 0 <= q < k ==> #[trigger] s[q] != PADDING && is_symbol(s[q]),
        s[k] != PADDING,
        !is_symbol(s[k]),
    ensures
        invalid_pos(s) == k,
    decreases k,
{
    if k > 0 {
        assert(s[0] != PADDING && is_symbol(s[0]));
        lemma_invalid_pos_at(s.drop_first(), k - 1);
    }
}

/// A bit of the stream of `s` is 0 or 1.
proof fn lemma_stream_bit_bound(s: Seq<u8>, q: int)
    ensures
        stream_bit(s, q) <= 1,
{
    if 0 <= q < 8 * s.len() {
        lemma_bit_bound(s[q / 8], (7 - q % 8) as u8);
    }
}

/// A 5-bit group's value lies in `0 .. 32`.
proof fn lemma_group_val_bound(s: Seq<u8>, j: int)
    ensures
        0 <= group_val(s, j) < 32,
{
    lemma_stream_bit_bound(s, 5 * j);
    lemma_stream_bit_bound(s, 5 * j + 1);
    lemma_stream_bit_bound(s, 5 * j + 2);
    lemma_stream_bit_bound(s, 5 * j + 3);
    lemma_stream_bit_bound(s, 5 * j + 4);
}

/// What `sig_end` marks: no `=` stands before it, and one stands at it
/// unless it is the length.
pub proof fn lemma_sig_end_props(s: Seq<u8>)
    ensures
        0 <= sig_end(s) <= s.len(),
        forall|q: int| 0 <= q < sig_end(s) ==> #[trigger] s[q] != PADDING,
        sig_end(s) < s.len() ==> s[sig_end(s)] == PADDING,
    decreases s.len(),
{
    if s.len() > 0 && s[0] != PADDING {
        let t = s.drop_first();
        lemma_sig_end_props(t);
        assert forall|q: int| 0 <= q < sig_end(s) implies #[trigger] s[q] != PADDING by {
            if q > 0 {
                assert(s[q] == t[q - 1]);
            }
        };
    }
}

/// What `invalid_pos` marks when decoding fails: the first character that
/// is neither a symbol nor behind a `=`.
pub proof fn lemma_invalid_pos_props(s: Seq<u8>)
    requires
        !decode_ok(s),
    ensures
        0 <= invalid_pos(s) < sig_end(s),
        !is_symbol(s[invalid_pos(s)]),
        s[invalid_pos(s)] != PADDING,
        forall|q: int| 0 <= q < invalid_pos(s) ==> #[trigger] s[q] != PADDING && is_symbol(s[q]),
    decreases s.len(),
{
    lemma_sig_end_props(s);
    assert(s.len() > 0);
    let t = s.drop_first();
    if s[0] == PADDING {
        assert(sig_end(s) == 0);
        assert(decode_ok(s));
    } else if !is_symbol(s[0]) {
        assert(invalid_pos(s) == 0);
        assert(0 < sig_end(s));
    } else {
        assert(!decode_ok(t)) by {
            if decode_ok(t) {
                assert forall|q: int| 0 <= q < sig_end(s) implies is_symbol(#[trigger] s[q]) by {
                    if q > 0 {
                        assert(s[q] == t[q - 1]);
                        assert(q - 1 < sig_end(t));
                    }
                };
            }
        };
        lemma_invalid_pos_props(t);
        assert(invalid_pos(s) == 1 + invalid_pos(t));
        assert forall|q: int| 0 <= q < invalid_pos(s) implies #[trigger] s[q] != PADDING
            && is_symbol(s[q]) by {
            if q > 0 {
                assert(s[q] == t[q - 1]);
            }
        };
        assert(s[invalid_pos(s)] == t[invalid_pos(t)]);
    }
}

/// Round trip: decoding an encoding gives the original bytes back, for
/// every byte sequence.  The encoding holds no `=`, decoding accepts it,
/// and the decoded value is the input.
pub proof fn lemma_round_trip(b: Seq<u8>)
    ensures
        decode_ok(encode_spec(b)),
        decode_val(encode_spec(b)) == b,
{
    let enc = encode_spec(b);
    let n = b.len() as int;
    let g = (8 * n + 4) / 5;
    vstd::arithmetic::div_mod::lemma_fundamental_div_mod(8 * n + 4, 5);
    vstd::arithmetic::div_mod::lemma_mod_pos_bound(8 * n + 4, 5);
    let pad = 5 * g - 8 * n;
    assert(0 <= pad < 5);
    assert(enc.len() == g);
    assert forall|j: int| 0 <= j < g implies #[trigger] enc[j] != PADDING && is_symbol(enc[j])
        && symbol_value(enc[j]) as int == group_val(b, j) by {
        lemma_group_val_bound(b, j);
    };
    lemma_sig_end_at(enc, g);
    assert(decode_ok(enc));
    let vs = sym_seq(enc.take(g));
    assert(enc.take(g) =~= enc);
    assert(vs.len() == g);
    // the stream spelled by the groups is the zero-padded stream of `b`
    assert forall|q: int| 0 <= q < 5 * g implies #[trigger] group_stream_bit(vs, q) == stream_bit(
        b,
        q,
    ) by {
        vstd::arithmetic::div_mod::lemma_fundamental_div_mod(q, 5);
        vstd::arithmetic::div_mod::lemma_mod_pos_bound(q, 5);
        let j = q / 5;
        let t = q % 5;
        let gv = vs[j];
        let s0 = stream_bit(b, 5 * j);
        let s1 = stream_bit(b, 5 * j + 1);
        let s2 = stream_bit(b, 5 * j + 2);
        let s3 = stream_bit(b, 5 * j + 3);
        let s4 = stream_bit(b, 5 * j + 4);
        lemma_stream_bit_bound(b, 5 * j);
        lemma_stream_bit_bound(b, 5 * j + 1);
        lemma_stream_bit_bound(b, 5 * j + 2);
        lemma_stream_bit_bound(b, 5 * j + 3);
        lemma_stream_bit_bound(b, 5 * j + 4);
        assert(gv as int == group_val(b, j));
        assert(((gv >> 4) & 1) == s0 && ((gv >> 3) & 1) == s1 && ((gv >> 2) & 1) == s2 && ((gv
            >> 1) & 1) == s3 && ((gv >> 0) & 1) == s4) by (bit_vector)
            requires
                gv as int == 16 * s0 + 8 * s1 + 4 * s2 + 2 * s3 + s4,
                s0 <= 1,
                s1 <= 1,
                s2 <= 1,
                s3 <= 1,
                s4 <= 1,
        ;
        if t == 0 {
            assert(bit(gv, 4) == s0);
        } else if t == 1 {
            assert(bit(gv, 3) == s1);
        } else if t == 2 {
            assert(bit(gv, 2) == s2);
        } else if t == 3 {
            assert(bit(gv, 1) == s3);
        } else {
            assert(bit(gv, 0) == s4);
        }
    };
    // every input byte is cut out again unchanged
    assert forall|j: int| 0 <= j < n implies byte_val(vs, j) == b[j] by {
        lemma_stream_bit_at(b, j, 0);
        lemma_stream_bit_at(b, j, 1);
        lemma_stream_bit_at(b, j, 2);
        lemma_stream_bit_at(b, j, 3);
        lemma_stream_bit_at(b, j, 4);
        lemma_stream_bit_at(b, j, 5);
        lemma_stream_bit_at(b, j, 6);
        lemma_stream_bit_at(b, j, 7);
        let x = b[j];
        assert(128 * ((x >> 7) & 1) + 64 * ((x >> 6) & 1) + 32 * ((x >> 5) & 1) + 16 * ((x >> 4)
            & 1) + 8 * ((x >> 3) & 1) + 4 * ((x >> 2) & 1) + 2 * ((x >> 1) & 1) + ((x >> 0) & 1)
            == x) by (bit_vector);
    };
    // the padding bits at the tail are zero, so no extra byte is flushed
    assert(byte_val(vs, n) == 0);
    vstd::arithmetic::div_mod::lemma_fundamental_div_mod_converse(5 * g, 8, n, pad);
    assert(decode_val(enc) =~= b);
}

/// Substitution: two strings whose characters agree on being `=`, on being
/// symbols, and on the symbols' values decode alike.  Case changes and the
/// digit aliases `0` for `O` and `1` for `I` are such substitutions.
pub proof fn lemma_decode_equiv(s: Seq<u8>, t: Seq<u8>)
    requires
        s.len() == t.len(),
        forall|q: int| 0 <= q < s.len() ==> ((#[trigger] s[q] == PADDING) <==> (t[q] == PADDING)),
        forall|q: int| 0 <= q < s.len() ==> is_symbol(#[trigger] s[q]) == is_symbol(t[q]),
        forall|q: int|
            0 <= q < s.len() ==> (is_symbol(#[trigger] s[q]) ==> symbol_value(s[q])
                == symbol_value(t[q])),
    ensures
        decode_ok(s) == decode_ok(t),
        decode_ok(s) ==> decode_val(s) == decode_val(t),
        !decode_ok(s) ==> invalid_pos(s) == invalid_pos(t),
{
    lemma_sig_end_props(s);
    let e = sig_end(s);
    assert forall|q: int| 0 <= q < e implies #[trigger] t[q] != PADDING by {
        assert(s[q] != PADDING);
    };
    if e < s.len() {
        assert(s[e] == PADDING);
    }
    lemma_sig_end_at(t, e);
    assert(decode_ok(s) == decode_ok(t)) by {
        if decode_ok(s) {
            assert forall|q: int| 0 <= q < e implies is_symbol(#[trigger] t[q]) by {
                assert(is_symbol(s[q]));
            };
        }
        if decode_ok(t) {
            assert forall|q: int| 0 <= q < e implies is_symbol(#[trigger] s[q]) by {
                assert(is_symbol(t[q]));
            };
        }
    };
    if decode_ok(s) {
        assert(sym_seq(s.take(e)) =~= sym_seq(t.take(e)));
        assert(decode_val(s) == decode_val(t));
    } else {
        lemma_invalid_pos_props(s);
        let p = invalid_pos(s);
        assert forall|q: int| 0 <= q < p implies #[trigger] t[q] != PADDING && is_symbol(t[q]) by {
            assert(s[q] != PADDING && is_symbol(s[q]));
        };
        assert(t[p] != PADDING && !is_symbol(t[p])) by {
            assert(s[p] != PADDING && !is_symbol(s[p]));
        };
        lemma_invalid_pos_at(t, p);
    }
}

/// Case insensitivity: changing letters between upper and lower case,
/// position by position, changes nothing about what decoding yields.
pub proof fn lemma_decode_case_insensitive(s: Seq<u8>, t: Seq<u8>)
    requires
        s.len() == t.len(),
        forall|q: int|
            0 <= q < s.len() ==> (#[trigger] t[q] == s[q] || (65 <= s[q] <= 90 && t[q] == s[q]
                + 32) || (97 <= s[q] <= 122 && t[q] == s[q] - 32)),
    ensures
        decode_ok(s) == decode_ok(t),
        decode_ok(s) ==> decode_val(s) == decode_val(t),
        !decode_ok(s) ==> invalid_pos(s) == invalid_pos(t),
{
    assert forall|q: int| 0 <= q < s.len() implies ((#[trigger] s[q] == PADDING) <==> (t[q]
        == PADDING)) && is_symbol(s[q]) == is_symbol(t[q]) && (is_symbol(s[q]) ==> symbol_value(
        s[q],
    ) == symbol_value(t[q])) by {
        assert(t[q] == s[q] || (65 <= s[q] <= 90 && t[q] == s[q] + 32) || (97 <= s[q] <= 122
            && t[q] == s[q] - 32));
    };
    lemma_decode_equiv(s, t);
}

/// Digit aliasing: swapping `0` with `O` or `1` with `I`, position by
/// position, changes nothing about what decoding yields.
pub proof fn lemma_decode_digit_aliases(s: Seq<u8>, t: Seq<u8>)
    requires
        s.len() == t.len(),
        forall|q: int|
            0 <= q < s.len() ==> (#[trigger] t[q] == s[q] || (s[q] == 48 && t[q] == 79) || (s[q]
                == 79 && t[q] == 48) || (s[q] == 49 && t[q] == 73) || (s[q] == 73 && t[q] == 49)),
    ensures
        decode_ok(s) == decode_ok(t),
        decode_ok(s) ==> decode_val(s) == decode_val(t),
        !decode_ok(s) ==> invalid_pos(s) == invalid_pos(t),
{
    assert forall|q: int| 0 <= q < s.len() implies ((#[trigger] s[q] == PADDING) <==> (t[q]
        == PADDING)) && is_symbol(s[q]) == is_symbol(t[q]) && (is_symbol(s[q]) ==> symbol_value(
        s[q],
    ) == symbol_value(t[q])) by {
        assert(t[q] == s[q] || (s[q] == 48 && t[q] == 79) || (s[q] == 79 && t[q] == 48) || (s[q]
            == 49 && t[q] == 73) || (s[q] == 73 && t[q] == 49));
    };
    lemma_decode_equiv(s, t);
}

/// Padding tolerance: everything from the first `=` on may be cut off
/// without changing what decoding yields.
pub proof fn lemma_padding_ignored(s: Seq<u8>)
    ensures
        decode_ok(s.take(sig_end(s))) == decode_ok(s),
        decode_ok(s) ==> decode_val(s.take(sig_end(s))) == decode_val(s),
{
    lemma_sig_end_props(s);
    let e = sig_end(s);
    let p = s.take(e);
    lemma_sig_end_at(p, e);
    assert(decode_ok(p) == decode_ok(s)) by {
        if decode_ok(p) {
            assert forall|q: int| 0 <= q < e implies is_symbol(#[trigger] s[q]) by {
                assert(is_symbol(p[q]));
            };
        }
        if decode_ok(s) {
            assert forall|q: int| 0 <= q < e implies is_symbol(#[trigger] p[q]) by {
                assert(is_symbol(s[q]));
            };
        }
    };
    assert(p.take(e) =~= s.take(e));
}

/// One decoding step.  With `8m` bits already cut into bytes and `8 - sh`
/// bits of byte `m` held, the 5 bits of the symbol at position `k` either
/// complete no byte (`sh > 5`), exactly byte `m` (`sh == 5`), or byte `m`
/// with low bits of the symbol starting byte `m + 1` (`sh < 5`); bytes
/// already cut keep their value.
proof fn lemma_decode_step(s: Seq<u8>, k: int, m: int, sh: u8, carry: u8, v: u8)
    requires
        0 <= k < s.len(),
        1 <= sh <= 8,
        0 <= m,
        8 * m + (8 - sh) == 5 * k,
        is_symbol(s[k]),
        v == symbol_value(s[k]),
        carry as int == byte_val(sym_seq(s.take(k)), m),
        sh == 8 ==> carry == 0,
    ensures
        sh > 5 ==> (carry | (v << ((sh - 5) as u8))) as int == byte_val(sym_seq(s.take(k + 1)), m),
        sh == 5 ==> (carry | v) as int == byte_val(sym_seq(s.take(k + 1)), m) && byte_val(
            sym_seq(s.take(k + 1)),
            m + 1,
        ) == 0,
        sh < 5 ==> (carry | (v >> ((5 - sh) as u8))) as int == byte_val(sym_seq(s.take(k + 1)), m)
            && (v << ((3 + sh) as u8)) as int == byte_val(sym_seq(s.take(k + 1)), m + 1),
        forall|j: int|
            0 <= j < m ==> #[trigger] byte_val(sym_seq(s.take(k + 1)), j) == byte_val(
                sym_seq(s.take(k)),
                j,
            ),
{
    let vs0 = sym_seq(s.take(k));
    let vs1 = sym_seq(s.take(k + 1));
    assert(vs0.len() == k);
    assert(vs1.len() == k + 1);
    assert(vs1[k] == v);
    assert(v < 32);
    lemma_group_stream_bit_at(vs1, k, 0);
    lemma_group_stream_bit_at(vs1, k, 1);
    lemma_group_stream_bit_at(vs1, k, 2);
    lemma_group_stream_bit_at(vs1, k, 3);
    lemma_group_stream_bit_at(vs1, k, 4);
    assert forall|q: int| 0 <= q < 5 * k implies #[trigger] group_stream_bit(vs1, q)
        == group_stream_bit(vs0, q) by {
        lemma_gsb_take(s, k, q);
    };
    let d0 = group_stream_bit(vs0, 8 * m);
    let d1 = group_stream_bit(vs0, 8 * m + 1);
    let d2 = group_stream_bit(vs0, 8 * m + 2);
    let d3 = group_stream_bit(vs0, 8 * m + 3);
    let d4 = group_stream_bit(vs0, 8 * m + 4);
    let d5 = group_stream_bit(vs0, 8 * m + 5);
    let d6 = group_stream_bit(vs0, 8 * m + 6);
    lemma_gsb_bound(vs0, 8 * m);
    lemma_gsb_bound(vs0, 8 * m + 1);
    lemma_gsb_bound(vs0, 8 * m + 2);
    lemma_gsb_bound(vs0, 8 * m + 3);
    lemma_gsb_bound(vs0, 8 * m + 4);
    lemma_gsb_bound(vs0, 8 * m + 5);
    lemma_gsb_bound(vs0, 8 * m + 6);
    if sh == 8 {
        assert((carry | (v << 3)) as int == 128 * ((v >> 4) & 1) + 64 * ((v >> 3) & 1) + 32 * ((v
            >> 2) & 1) + 16 * ((v >> 1) & 1) + 8 * ((v >> 0) & 1)) by (bit_vector)
            requires
                carry == 0,
        ;
    } else if sh == 7 {
        assert((carry | (v << 2)) as int == carry + 64 * ((v >> 4) & 1) + 32 * ((v >> 3) & 1) + 16
            * ((v >> 2) & 1) + 8 * ((v >> 1) & 1) + 4 * ((v >> 0) & 1)) by (bit_vector)
            requires
                carry == 128 * d0,
                d0 <= 1,
                v < 32,
        ;
    } else if sh == 6 {
        assert((carry | (v << 1)) as int == carry + 32 * ((v >> 4) & 1) + 16 * ((v >> 3) & 1) + 8
            * ((v >> 2) & 1) + 4 * ((v >> 1) & 1) + 2 * ((v >> 0) & 1)) by (bit_vector)
            requires
                carry == 128 * d0 + 64 * d1,
                d0 <= 1,
                d1 <= 1,
                v < 32,
        ;
    } else if sh == 5 {
        assert((carry | v) as int == carry + 16 * ((v >> 4) & 1) + 8 * ((v >> 3) & 1) + 4 * ((v
            >> 2) & 1) + 2 * ((v >> 1) & 1) + ((v >> 0) & 1)) by (bit_vector)
            requires
                carry == 128 * d0 + 64 * d1 + 32 * d2,
                d0 <= 1,
                d1 <= 1,
                d2 <= 1,
                v < 32,
        ;
    } else if sh == 4 {
        assert((carry | (v >> 1)) as int == carry + 8 * ((v >> 4) & 1) + 4 * ((v >> 3) & 1) + 2
            * ((v >> 2) & 1) + ((v >> 1) & 1)) by (bit_vector)
            requires
                carry == 128 * d0 + 64 * d1 + 32 * d2 + 16 * d3,
                d0 <= 1,
                d1 <= 1,
                d2 <= 1,
                d3 <= 1,
                v < 32,
        ;
        assert((v << 7) as int == 128 * ((v >> 0) & 1)) by (bit_vector);
    } else if sh == 3 {
        assert((carry | (v >> 2)) as int == carry + 4 * ((v >> 4) & 1) + 2 * ((v >> 3) & 1) + ((v
            >> 2) & 1)) by (bit_vector)
            requires
                carry == 128 * d0 + 64 * d1 + 32 * d2 + 16 * d3 + 8 * d4,
                d0 <= 1,
                d1 <= 1,
                d2 <= 1,
                d3 <= 1,
                d4 <= 1,
                v < 32,
        ;
        assert((v << 6) as int == 128 * ((v >> 1) & 1) + 64 * ((v >> 0) & 1)) by (bit_vector);
    } else if sh == 2 {
        assert((carry | (v >> 3)) as int == carry + 2 * ((v >> 4) & 1) + ((v >> 3) & 1))
            by (bit_vector)
            requires
                carry == 128 * d0 + 64 * d1 + 32 * d2 + 16 * d3 + 8 * d4 + 4 * d5,
                d0 <= 1,
                d1 <= 1,
                d2 <= 1,
                d3 <= 1,
                d4 <= 1,
                d5 <= 1,
                v < 32,
        ;
        assert((v << 5) as int == 128 * ((v >> 2) & 1) + 64 * ((v >> 1) & 1) + 32 * ((v >> 0)
            & 1)) by (bit_vector);
    } else {
        assert((carry | (v >> 4)) as int == carry + ((v >> 4) & 1)) by (bit_vector)
            requires
                carry == 128 * d0 + 64 * d1 + 32 * d2 + 16 * d3 + 8 * d4 + 4 * d5 + 2 * d6,
                d0 <= 1,
                d1 <= 1,
                d2 <= 1,
                d3 <= 1,
                d4 <= 1,
                d5 <= 1,
                d6 <= 1,
                v < 32,
        ;
        assert((v << 4) as int == 128 * ((v >> 3) & 1) + 64 * ((v >> 2) & 1) + 32 * ((v >> 1) & 1)
            + 16 * ((v >> 0) & 1)) by (bit_vector);
    }
}

/// Decodes base32 text: reads symbols up to the first `=`, accumulates
/// their 5-bit values into bytes, and flushes a trailing partial byte when
/// its bits are not all zero.  Fails at the first character before any `=`
/// that is not an accepted symbol, reporting its position.
pub fn decode(string: &[u8]) -> (r: Result<Vec<u8>, Error>)
    ensures
        (r is Ok) <==> decode_ok(string@),
        r matches Ok(bytes) ==> bytes@ == decode_val(string@),
        r matches Err(e) ==> e == (Error::InvalidBase32Character {
            at_position: invalid_pos(string@) as usize,
        }),
{
    let ghost s = string@;
    let n = string.len();
    let mut result: Vec<u8> = Vec::new();
    let mut shift: u8 = 8;
    let mut carry: u8 = 0;
    let mut k: usize = 0;
    let mut done = false;
    while k < n && !done
        invariant
            n == s.len(),
            s == string@,
            k <= n,
            1 <= shift <= 8,
            shift == 8 ==> carry == 0,
            done ==> k < n && s[k as int] == PADDING,
            forall|q: int| 0 <= q < k ==> #[trigger] s[q] != PADDING && is_symbol(s[q]),
            8 * result@.len() + (8 - shift) == 5 * k,
            forall|j: int|
                0 <= j < result@.len() ==> (#[trigger] result@[j]) as int == byte_val(
                    sym_seq(s.take(k as int)),
                    j,
                ),
            carry as int == byte_val(sym_seq(s.take(k as int)), result@.len() as int),
        decreases n - k, (if done {
            0int
        } else {
            1int
        }),
    {
        let c = string[k];
        if c == PADDING {
            done = true;
        } else {
            match ascii_to_value_5bit(c) {
                Some(v) => {
                    let ghost m = result@.len() as int;
                    let ghost sh = shift;
                    proof {
                        lemma_decode_step(s, k as int, m, sh, carry, v);
                    }
                    if shift > 5 {
                        shift = shift - 5;
                        carry = carry | (v << shift);
                    } else if shift == 5 {
                        result.push(carry | v);
                        shift = 8;
                        carry = 0;
                    } else {
                        let rem = 5 - shift;
                        result.push(carry | (v >> rem));
                        shift = 8 - rem;
                        carry = v << shift;
                    }
                    k = k + 1;
                },
                None => {
                    proof {
                        lemma_sig_end_min(s, k as int);
                        lemma_invalid_pos_at(s, k as int);
                    }
                    return Err(Error::InvalidBase32Character { at_position: k });
                },
            }
        }
    }
    let ghost end = k as int;
    let ghost m = result@.len() as int;
    proof {
        lemma_sig_end_at(s, end);
        vstd::arithmetic::div_mod::lemma_fundamental_div_mod_converse(
            5 * end,
            8,
            m,
            8 - shift as int,
        );
    }
    if shift != 8 && carry != 0 {
        result.push(carry);
    }
    proof {
        assert(result@ =~= decode_val(s));
    }
    Ok(result)
}

} // verus!
