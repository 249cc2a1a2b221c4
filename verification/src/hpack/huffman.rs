//! The Huffman code of HPACK.
//!
//! The code is canonical: the codes of one length are consecutive numbers, and
//! go to their symbols in the order of the symbols.

use vstd::arithmetic::power2::{
    lemma2_to64, lemma_pow2_strictly_increases, lemma_pow2_unfold, pow2,
};
use vstd::prelude::*;

verus! {

/// The symbols, by the length of their codes and then by themselves. The last one
/// ends a string and stands in none.
pub const SYMBOLS: [u16; 257] = [
    48, 49, 50, 97, 99, 101, 105, 111, 115, 116, 32, 37, 45, 46, 47, 51, 52, 53, 54, 55, 56, 57,
    61, 65, 95, 98, 100, 102, 103, 104, 108, 109, 110, 112, 114, 117, 58, 66, 67, 68, 69, 70, 71,
    72, 73, 74, 75, 76, 77, 78, 79, 80, 81, 82, 83, 84, 85, 86, 87, 89, 106, 107, 113, 118, 119,
    120, 121, 122, 38, 42, 44, 59, 88, 90, 33, 34, 40, 41, 63, 39, 43, 124, 35, 62, 0, 36, 64, 91,
    93, 126, 94, 125, 60, 96, 123, 92, 195, 208, 128, 130, 131, 162, 184, 194, 224, 226, 153, 161,
    167, 172, 176, 177, 179, 209, 216, 217, 227, 229, 230, 129, 132, 133, 134, 136, 146, 154, 156,
    160, 163, 164, 169, 170, 173, 178, 181, 185, 186, 187, 189, 190, 196, 198, 228, 232, 233, 1,
    135, 137, 138, 139, 140, 141, 143, 147, 149, 150, 151, 152, 155, 157, 158, 165, 166, 168, 174,
    175, 180, 182, 183, 188, 191, 197, 231, 239, 9, 142, 144, 145, 148, 159, 171, 206, 215, 225,
    236, 237, 199, 207, 234, 235, 192, 193, 200, 201, 202, 205, 210, 213, 218, 219, 238, 240, 242,
    243, 255, 203, 204, 211, 212, 214, 221, 222, 223, 241, 244, 245, 246, 247, 248, 250, 251, 252,
    253, 254, 2, 3, 4, 5, 6, 7, 8, 11, 12, 14, 15, 16, 17, 18, 19, 20, 21, 23, 24, 25, 26, 27, 28,
    29, 30, 31, 127, 220, 249, 10, 13, 22, 256,
];

/// The smallest code of each length.
pub const FIRST: [u32; 31] = [
    0, 0, 0, 0, 0, 0, 20, 92, 248, 0, 1016, 2042, 4090, 8184, 16380, 32764, 0, 0, 0, 524272,
    1048550, 2097116, 4194258, 8388568, 16777194, 33554412, 67108832, 134217694, 268435426, 0,
    1073741820,
];

/// The number of codes of each length.
pub const COUNT: [u32; 31] = [
    0, 0, 0, 0, 0, 10, 26, 32, 6, 0, 5, 3, 2, 6, 2, 3, 0, 0, 0, 3, 8, 13, 26, 29, 12, 4, 15, 19,
    29, 0, 4,
];

/// Where the symbols with codes of each length start in `SYMBOLS`.
pub const OFFSET: [usize; 31] = [
    0, 0, 0, 0, 0, 0, 10, 36, 68, 0, 74, 79, 82, 84, 90, 92, 0, 0, 0, 95, 98, 106, 119, 145, 174,
    186, 190, 205, 224, 0, 253,
];

/// The longest code.
pub const LONGEST: usize = 30;

/// The shortest code.
pub const SHORTEST: usize = 5;

/// The symbol that ends a string.
pub const END: u16 = 256;

/// The symbol whose code is `code`, in `len` bits.
pub open spec fn symbol_of(code: int, len: int) -> Option<u16> {
    if SHORTEST <= len <= LONGEST && FIRST@[len] <= code < FIRST@[len] + COUNT@[len] {
        Some(SYMBOLS@[OFFSET@[len] + code - FIRST@[len]])
    } else {
        None
    }
}

/// The bit at `i`, the first bit of each byte being its highest.
pub open spec fn bit_at(s: Seq<u8>, i: int) -> int {
    let b = s[i / 8] as int;
    if i % 8 == 0 {
        b / 128
    } else if i % 8 == 1 {
        b / 64 % 2
    } else if i % 8 == 2 {
        b / 32 % 2
    } else if i % 8 == 3 {
        b / 16 % 2
    } else if i % 8 == 4 {
        b / 8 % 2
    } else if i % 8 == 5 {
        b / 4 % 2
    } else if i % 8 == 6 {
        b / 2 % 2
    } else {
        b % 2
    }
}

/// Bits that may fill up the last byte of a string: fewer than eight, all of
/// them set.
pub open spec fn is_padding(code: int, len: int) -> bool {
    ||| len == 0
    ||| len == 1 && code == 1
    ||| len == 2 && code == 3
    ||| len == 3 && code == 7
    ||| len == 4 && code == 15
    ||| len == 5 && code == 31
    ||| len == 6 && code == 63
    ||| len == 7 && code == 127
}

/// The text that the bits of `s` from `i` on spell, behind `text` and behind
/// `len` bits with the value `code`.
pub open spec fn huffman_from(s: Seq<u8>, i: int, code: int, len: int, text: Seq<u8>) -> Option<
    Seq<u8>,
>
    decreases 8 * s.len() - i,
{
    if i >= 8 * s.len() {
        if is_padding(code, len) {
            Some(text)
        } else {
            None
        }
    } else {
        let code = 2 * code + bit_at(s, i);
        match symbol_of(code, len + 1) {
            Some(symbol) => if symbol == END {
                None
            } else {
                huffman_from(s, i + 1, 0, 0, text.push(symbol as u8))
            },
            None => if len + 1 >= LONGEST {
                None
            } else {
                huffman_from(s, i + 1, code, len + 1, text)
            },
        }
    }
}

/// The text that `s` is the Huffman code of.
pub open spec fn huffman_of(s: Seq<u8>) -> Option<Seq<u8>> {
    huffman_from(s, 0, 0, 0, Seq::empty())
}

fn symbol(code: u32, len: usize) -> (r: Option<u16>)
    requires
        len <= LONGEST,
    ensures
        r == symbol_of(code as int, len as int),
        r matches Some(s) ==> s <= END,
{
    if len < SHORTEST {
        return None;
    }
    if code < FIRST[len] || code - FIRST[len] >= COUNT[len] {
        return None;
    }
    proof {
        lemma_tables(len as int);
    }
    let at: usize = OFFSET[len] + (code - FIRST[len]) as usize;
    proof {
        lemma_symbols(at as int);
    }
    Some(SYMBOLS[at])
}

proof fn lemma_tables(len: int)
    requires
        SHORTEST <= len <= LONGEST,
    ensures
        OFFSET@[len] + COUNT@[len] <= 257,
{
    if len == 5 {
        assert(OFFSET@[5] + COUNT@[5] <= 257);
    } else if len == 6 {
        assert(OFFSET@[6] + COUNT@[6] <= 257);
    } else if len == 7 {
        assert(OFFSET@[7] + COUNT@[7] <= 257);
    } else if len == 8 {
        assert(OFFSET@[8] + COUNT@[8] <= 257);
    } else if len == 9 {
        assert(OFFSET@[9] + COUNT@[9] <= 257);
    } else if len == 10 {
        assert(OFFSET@[10] + COUNT@[10] <= 257);
    } else if len == 11 {
        assert(OFFSET@[11] + COUNT@[11] <= 257);
    } else if len == 12 {
        assert(OFFSET@[12] + COUNT@[12] <= 257);
    } else if len == 13 {
        assert(OFFSET@[13] + COUNT@[13] <= 257);
    } else if len == 14 {
        assert(OFFSET@[14] + COUNT@[14] <= 257);
    } else if len == 15 {
        assert(OFFSET@[15] + COUNT@[15] <= 257);
    } else if len == 16 {
        assert(OFFSET@[16] + COUNT@[16] <= 257);
    } else if len == 17 {
        assert(OFFSET@[17] + COUNT@[17] <= 257);
    } else if len == 18 {
        assert(OFFSET@[18] + COUNT@[18] <= 257);
    } else if len == 19 {
        assert(OFFSET@[19] + COUNT@[19] <= 257);
    } else if len == 20 {
        assert(OFFSET@[20] + COUNT@[20] <= 257);
    } else if len == 21 {
        assert(OFFSET@[21] + COUNT@[21] <= 257);
    } else if len == 22 {
        assert(OFFSET@[22] + COUNT@[22] <= 257);
    } else if len == 23 {
        assert(OFFSET@[23] + COUNT@[23] <= 257);
    } else if len == 24 {
        assert(OFFSET@[24] + COUNT@[24] <= 257);
    } else if len == 25 {
        assert(OFFSET@[25] + COUNT@[25] <= 257);
    } else if len == 26 {
        assert(OFFSET@[26] + COUNT@[26] <= 257);
    } else if len == 27 {
        assert(OFFSET@[27] + COUNT@[27] <= 257);
    } else if len == 28 {
        assert(OFFSET@[28] + COUNT@[28] <= 257);
    } else if len == 29 {
        assert(OFFSET@[29] + COUNT@[29] <= 257);
    } else if len == 30 {
        assert(OFFSET@[30] + COUNT@[30] <= 257);
    }
}

proof fn lemma_symbols(at: int)
    requires
        0 <= at < 257,
    ensures
        SYMBOLS@[at] <= END,
{
}

fn bit(s: &[u8], i: usize) -> (r: u32)
    requires
        i / 8 < s@.len(),
    ensures
        r == bit_at(s@, i as int),
        r <= 1,
{
    let b: u32 = s[i / 8] as u32;
    let k: usize = i % 8;
    if k == 0 {
        b / 128
    } else if k == 1 {
        b / 64 % 2
    } else if k == 2 {
        b / 32 % 2
    } else if k == 3 {
        b / 16 % 2
    } else if k == 4 {
        b / 8 % 2
    } else if k == 5 {
        b / 4 % 2
    } else if k == 6 {
        b / 2 % 2
    } else {
        b % 2
    }
}

fn all_set(code: u32, len: usize) -> (r: bool)
    ensures
        r == is_padding(code as int, len as int),
{
    len == 0 || len == 1 && code == 1 || len == 2 && code == 3 || len == 3 && code == 7 || len == 4
        && code == 15 || len == 5 && code == 31 || len == 6 && code == 63 || len == 7 && code == 127
}

/// Reads a text from its Huffman code.
pub fn decode(src: &[u8]) -> (r: Option<Vec<u8>>)
    requires
        src@.len() < 0x1100_0000,
    ensures
        match r {
            Some(text) => huffman_of(src@) == Some(text@) && text@.len() < 0x2000_0000,
            None => huffman_of(src@) is None,
        },
{
    let total: usize = src.len() * 8;
    let mut text: Vec<u8> = Vec::new();
    let mut code: u32 = 0;
    let mut len: usize = 0;
    let mut i: usize = 0;
    proof {
        lemma2_to64();
    }
    while i < total
        invariant
            total == 8 * src@.len(),
            src@.len() < 0x1100_0000,
            i <= total,
            len < LONGEST,
            len <= i,
            5 * text@.len() + len <= i,
            code < pow2(len as nat),
            huffman_of(src@) == huffman_from(
                src@,
                i as int,
                code as int,
                len as int,
                text@,
            ),
        decreases total - i,
    {
        proof {
            lemma_pow2_unfold((len + 1) as nat);
            lemma2_to64();
            if len < 29 {
                lemma_pow2_strictly_increases(len as nat, 29);
            }
        }
        code = 2 * code + bit(src, i);
        match symbol(code, len + 1) {
            Some(symbol) => {
                if symbol == END {
                    return None;
                }
                text.push(symbol as u8);
                code = 0;
                len = 0;
                proof {
                    lemma2_to64();
                }
            },
            None => {
                if len + 1 >= LONGEST {
                    return None;
                }
                len = len + 1;
            },
        }
        i = i + 1;
    }
    if all_set(code, len) {
        Some(text)
    } else {
        None
    }
}

/// The number that `len` bits of `s` spell, from bit `i` on.
pub open spec fn bits_from(s: Seq<u8>, i: int, len: nat) -> int
    decreases len,
{
    if len == 0 {
        0
    } else {
        2 * bits_from(s, i, (len - 1) as nat) + bit_at(s, i + len - 1)
    }
}

/// The number that `len` set bits spell.
pub open spec fn ones(len: nat) -> int
    decreases len,
{
    if len == 0 {
        0
    } else {
        2 * ones((len - 1) as nat) + 1
    }
}

/// How many numbers of `len` bits start with a code or are one.
spec fn passed(len: nat) -> int
    decreases len,
{
    if len < SHORTEST {
        0
    } else {
        2 * passed((len - 1) as nat) + COUNT@[len as int]
    }
}

proof fn lemma_passed(len: nat)
    requires
        SHORTEST <= len <= LONGEST,
    ensures
        COUNT@[len as int] > 0 ==> FIRST@[len as int] == 2 * passed((len - 1) as nat),
{
    assert(passed(4) == 0);
    assert(passed(5) == 10);
    assert(passed(6) == 46);
    assert(passed(7) == 124);
    assert(passed(8) == 254);
    assert(passed(9) == 508);
    assert(passed(10) == 1021);
    assert(passed(11) == 2045);
    assert(passed(12) == 4092);
    assert(passed(13) == 8190);
    assert(passed(14) == 16382);
    assert(passed(15) == 32767);
    assert(passed(16) == 65534);
    assert(passed(17) == 131068);
    assert(passed(18) == 262136);
    assert(passed(19) == 524275);
    assert(passed(20) == 1048558);
    assert(passed(21) == 2097129);
    assert(passed(22) == 4194284);
    assert(passed(23) == 8388597);
    assert(passed(24) == 16777206);
    assert(passed(25) == 33554416);
    assert(passed(26) == 67108847);
    assert(passed(27) == 134217713);
    assert(passed(28) == 268435455);
    assert(passed(29) == 536870910);
    assert(passed(30) == 1073741824);
}

proof fn lemma_ones(len: nat)
    requires
        len <= LONGEST,
    ensures
        len < LONGEST ==> symbol_of(ones(len), len as int) is None,
        len == LONGEST ==> symbol_of(ones(len), len as int) == Some(END),
        is_padding(ones(len), len as int) == (len < 8),
{
    assert(ones(0) == 0);
    assert(ones(1) == 1);
    assert(ones(2) == 3);
    assert(ones(3) == 7);
    assert(ones(4) == 15);
    assert(ones(5) == 31);
    assert(ones(6) == 63);
    assert(ones(7) == 127);
    assert(ones(8) == 255);
    assert(ones(9) == 511);
    assert(ones(10) == 1023);
    assert(ones(11) == 2047);
    assert(ones(12) == 4095);
    assert(ones(13) == 8191);
    assert(ones(14) == 16383);
    assert(ones(15) == 32767);
    assert(ones(16) == 65535);
    assert(ones(17) == 131071);
    assert(ones(18) == 262143);
    assert(ones(19) == 524287);
    assert(ones(20) == 1048575);
    assert(ones(21) == 2097151);
    assert(ones(22) == 4194303);
    assert(ones(23) == 8388607);
    assert(ones(24) == 16777215);
    assert(ones(25) == 33554431);
    assert(ones(26) == 67108863);
    assert(ones(27) == 134217727);
    assert(ones(28) == 268435455);
    assert(ones(29) == 536870911);
    assert(ones(30) == 1073741823);
}

proof fn lemma_bit(s: Seq<u8>, i: int)
    ensures
        0 <= bit_at(s, i) <= 1,
{
}

proof fn lemma_past_codes(s: Seq<u8>, i: int, len: nat, k: nat)
    requires
        symbol_of(bits_from(s, i, len), len as int) is Some,
        k < len,
    ensures
        bits_from(s, i, k) >= passed(k),
        symbol_of(bits_from(s, i, k), k as int) is None,
    decreases len - k,
{
    lemma_bit(s, i + k);
    assert(bits_from(s, i, k + 1) == 2 * bits_from(s, i, k) + bit_at(s, i + k));
    if k + 1 == len {
        lemma_passed(len);
    } else {
        lemma_past_codes(s, i, len, k + 1);
    }
    if k >= SHORTEST {
        lemma_passed(k);
    }
}

proof fn lemma_no_code_yet(s: Seq<u8>, i: int, k: nat, text: Seq<u8>)
    requires
        0 <= i,
        i + k <= 8 * s.len(),
        k < LONGEST,
        forall|m: nat| 0 < m <= k ==> symbol_of(#[trigger] bits_from(s, i, m), m as int) is None,
    ensures
        huffman_from(s, i, 0, 0, text) == huffman_from(
            s,
            i + k,
            bits_from(s, i, k),
            k as int,
            text,
        ),
    decreases k,
{
    if k > 0 {
        lemma_no_code_yet(s, i, (k - 1) as nat, text);
        assert(symbol_of(bits_from(s, i, k), k as int) is None);
    }
}

/// A text is read code by code: where the next bits are the code of a symbol, the symbol
/// comes next, and reading goes on right behind its code. No code is the start of another,
/// so that the text does not depend on what follows. The symbol that ends a string must not
/// stand in one.
pub proof fn law_symbols_are_read(s: Seq<u8>, i: int, len: nat, text: Seq<u8>)
    requires
        0 <= i,
        0 < len,
        i + len <= 8 * s.len(),
        symbol_of(bits_from(s, i, len), len as int) is Some,
    ensures
        ({
            let symbol = symbol_of(bits_from(s, i, len), len as int)->0;
            huffman_from(s, i, 0, 0, text) == if symbol == END {
                None
            } else {
                huffman_from(s, i + len, 0, 0, text.push(symbol as u8))
            }
        }),
{
    let k = (len - 1) as nat;
    assert forall|m: nat| 0 < m <= k implies symbol_of(
        #[trigger] bits_from(s, i, m),
        m as int,
    ) is None by {
        lemma_past_codes(s, i, len, m);
    }
    lemma_no_code_yet(s, i, k, text);
}

/// What is left at the end of a string and starts with no code fills up the last byte: the
/// string is whole if that is fewer than eight bits, all of them set, and else is none.
pub proof fn law_what_is_left_over(s: Seq<u8>, i: int, text: Seq<u8>)
    requires
        0 <= i <= 8 * s.len() < i + LONGEST,
        forall|m: nat|
            0 < m <= 8 * s.len() - i ==> symbol_of(
                #[trigger] bits_from(s, i, m),
                m as int,
            ) is None,
    ensures
        ({
            let left = (8 * s.len() - i) as nat;
            huffman_from(s, i, 0, 0, text) == if left < 8 && bits_from(s, i, left) == ones(left) {
                Some(text)
            } else {
                None
            }
        }),
{
    let left = (8 * s.len() - i) as nat;
    lemma_no_code_yet(s, i, left, text);
    if left < 8 {
        lemma_short_padding(bits_from(s, i, left), left);
    }
}

proof fn lemma_short_padding(code: int, len: nat)
    requires
        len < 8,
        len == 0 ==> code == 0,
    ensures
        is_padding(code, len as int) == (code == ones(len)),
{
    reveal_with_fuel(ones, 8);
}

/// Set bits at the end of a string are no text: fewer than eight of them are passed over, and
/// with more of them there is no text at all.
pub proof fn law_set_bits_at_the_end(s: Seq<u8>, i: int, text: Seq<u8>)
    requires
        0 <= i <= 8 * s.len(),
        forall|k: int| i <= k < 8 * s.len() ==> #[trigger] bit_at(s, k) == 1,
    ensures
        8 * s.len() - i < 8 ==> huffman_from(s, i, 0, 0, text) == Some(text),
        8 * s.len() - i >= 8 ==> huffman_from(s, i, 0, 0, text) is None,
{
    let left = (8 * s.len() - i) as nat;
    let k = if left < LONGEST {
        left
    } else {
        (LONGEST - 1) as nat
    };
    assert forall|m: nat| 0 < m <= k implies symbol_of(
        #[trigger] bits_from(s, i, m),
        m as int,
    ) is None by {
        lemma_set_bits(s, i, m);
        lemma_ones(m);
    }
    lemma_no_code_yet(s, i, k, text);
    lemma_set_bits(s, i, k);
    lemma_ones(k);
    if left >= LONGEST {
        lemma_set_bits(s, i, LONGEST as nat);
        lemma_ones(LONGEST as nat);
    }
}

proof fn lemma_set_bits(s: Seq<u8>, i: int, len: nat)
    requires
        0 <= i,
        i + len <= 8 * s.len(),
        forall|k: int| i <= k < 8 * s.len() ==> #[trigger] bit_at(s, k) == 1,
    ensures
        bits_from(s, i, len) == ones(len),
    decreases len,
{
    if len > 0 {
        lemma_set_bits(s, i, (len - 1) as nat);
        assert(bit_at(s, i + len - 1) == 1);
    }
}

/// An empty string is the empty text, and reading starts at the first bit.
pub proof fn law_coded_text_starts_at_the_first_bit(s: Seq<u8>)
    ensures
        huffman_of(s) == huffman_from(s, 0, 0, 0, Seq::empty()),
        huffman_of(Seq::empty()) == Some(Seq::<u8>::empty()),
{
}

} // verus!
