//! Percent-decoding of raw query-string bytes into a bounded string:
//! `%XX` escapes become the escaped byte, `+` becomes a space, and
//! everything else passes through byte by byte.

use vstd::prelude::*;

verus! {

use crate::text::char_utf8_len;
use crate::text::lemma_encode_utf8_push;
use crate::text::utf8_len;
use crate::text::StackString;
use vstd::slice::slice_subrange;
use vstd::string::StringSliceAdditionalSpecFns;
use vstd::utf8::is_ascii_chars;
use vstd::utf8::encode_utf8;
use vstd::utf8::is_ascii_chars_encode_utf8;

/// The byte value of `'%'`.
pub const PERCENT: u8 = 37;

/// The byte value of `'+'`.
pub const PLUS: u8 = 43;

/// The value of one hexadecimal digit byte, case-insensitive.
pub open spec fn spec_hex_value(b: u8) -> Option<u8> {
    if 48 <= b <= 57 {
        Some((b - 48) as u8)
    } else if 65 <= b <= 70 {
        Some((b - 65 + 10) as u8)
    } else if 97 <= b <= 102 {
        Some((b - 97 + 10) as u8)
    } else {
        None
    }
}

fn hex_value(byte: u8) -> (r: Option<u8>)
    ensures
        r == spec_hex_value(byte),
{
    if 48 <= byte && byte <= 57 {
        Some(byte - 48)
    } else if 65 <= byte && byte <= 70 {
        Some(byte - 65 + 10)
    } else if 97 <= byte && byte <= 102 {
        Some(byte - 97 + 10)
    } else {
        None
    }
}

/// One decoding step at position `i` of the raw input: the character
/// produced and the number of input bytes consumed. A `%` followed by two
/// available hex digit bytes decodes to the escaped byte; a `%` without
/// them stays literal; `+` becomes a space; any other byte passes through.
pub open spec fn token_at(input: Seq<u8>, i: int) -> (char, int)
    recommends
        0 <= i < input.len(),
{
    if input[i] == PERCENT && i + 2 < input.len() && spec_hex_value(input[i + 1]) is Some
        && spec_hex_value(input[i + 2]) is Some {
        (((spec_hex_value(input[i + 1])->Some_0 * 16 + spec_hex_value(input[i + 2])->Some_0)
            as u8) as char, 3)
    } else if input[i] == PLUS {
        (' ', 1)
    } else {
        (input[i] as char, 1)
    }
}

/// The decoder's pass from position `i` of `input`, with `acc` already
/// produced: decodes tokens left to right, appending each character whose
/// whole encoding still fits within `cap` output bytes, and stopping once
/// the output is full.
pub open spec fn decoded_from(input: Seq<u8>, i: int, acc: Seq<char>, cap: int) -> Seq<char>
    decreases input.len() - i,
{
    if i < 0 || i >= input.len() || utf8_len(acc) >= cap {
        acc
    } else {
        let step = token_at(input, i);
        let acc2 = if utf8_len(acc) + char_utf8_len(step.0) <= cap {
            acc.push(step.0)
        } else {
            acc
        };
        decoded_from(input, i + step.1, acc2, cap)
    }
}

/// The result of percent-decoding `input` into at most `cap` bytes.
pub open spec fn spec_decoded(input: Seq<u8>, cap: int) -> Seq<char> {
    decoded_from(input, 0, Seq::empty(), cap)
}

/// Decodes the byte range `[from, to)` of `bytes` into a bounded string.
pub(crate) fn percent_decode_range<const OUTPUT_SIZE: usize>(
    bytes: &[u8],
    from: usize,
    to: usize,
) -> (r: StackString<OUTPUT_SIZE>)
    requires
        from <= to <= bytes@.len(),
    ensures
        r.wf(),
        r@ == spec_decoded(bytes@.subrange(from as int, to as int), OUTPUT_SIZE as int),
{
    let input: &[u8] = slice_subrange(bytes, from, to);
    let n = input.len();
    let mut result = StackString::<OUTPUT_SIZE>::new();
    let mut i: usize = 0;
    while i < n && result.len < OUTPUT_SIZE
        invariant
            result.wf(),
            i <= n,
            n == input@.len(),
            input@ == bytes@.subrange(from as int, to as int),
            spec_decoded(input@, OUTPUT_SIZE as int) == decoded_from(
                input@,
                i as int,
                result@,
                OUTPUT_SIZE as int,
            ),
        decreases n - i,
    {
        let ghost prev = result@;
        let ghost pi = i as int;
        proof {
            result.lemma_byte_len();
        }
        let b = input[i];
        if b == PERCENT && n - i > 2 {
            let h1 = hex_value(input[i + 1]);
            let h2 = hex_value(input[i + 2]);
            if h1.is_some() && h2.is_some() {
                let hi = h1.unwrap();
                let lo = h2.unwrap();
                let decoded_byte = (hi << 4) | lo;
                proof {
                    assert(decoded_byte == hi * 16 + lo) by (bit_vector)
                        requires
                            hi <= 15 && lo <= 15 && decoded_byte == (hi << 4) | lo,
                    ;
                    assert(token_at(input@, pi) == (decoded_byte as char, 3int));
                }
                result.push(decoded_byte as char);
                i += 3;
            } else {
                proof {
                    assert(token_at(input@, pi) == (b as char, 1int));
                }
                result.push(b as char);
                i += 1;
            }
        } else if b == PLUS {
            proof {
                assert(token_at(input@, pi) == (' ', 1int));
            }
            result.push(' ');
            i += 1;
        } else {
            proof {
                assert(token_at(input@, pi) == (b as char, 1int));
            }
            result.push(b as char);
            i += 1;
        }
        proof {
            assert(decoded_from(input@, pi, prev, OUTPUT_SIZE as int) == decoded_from(
                input@,
                i as int,
                result@,
                OUTPUT_SIZE as int,
            ));
        }
    }
    proof {
        result.lemma_byte_len();
    }
    result
}

/// Decodes percent-encoded text into a fresh bounded string of at most
/// `OUTPUT_SIZE` bytes.
pub fn percent_decode<const OUTPUT_SIZE: usize>(input: &str) -> (r: StackString<OUTPUT_SIZE>)
    ensures
        r.wf(),
        r@ == spec_decoded(input.spec_bytes(), OUTPUT_SIZE as int),
{
    let bytes = input.as_bytes();
    let r = percent_decode_range(bytes, 0, bytes.len());
    proof {
        assert(bytes@.subrange(0, bytes@.len() as int) =~= bytes@);
    }
    r
}

proof fn lemma_decoded_from_fits(input: Seq<u8>, i: int, acc: Seq<char>, cap: int)
    requires
        utf8_len(acc) <= cap,
    ensures
        utf8_len(decoded_from(input, i, acc, cap)) <= cap,
    decreases input.len() - i,
{
    if !(i < 0 || i >= input.len() || utf8_len(acc) >= cap) {
        let step = token_at(input, i);
        let acc2 = if utf8_len(acc) + char_utf8_len(step.0) <= cap {
            acc.push(step.0)
        } else {
            acc
        };
        lemma_encode_utf8_push(acc, step.0);
        lemma_decoded_from_fits(input, i + step.1, acc2, cap);
    }
}

/// The output capacity contract holds: whatever the input, the decoded
/// result occupies at most `cap` bytes.
pub proof fn lemma_decoded_fits(input: Seq<u8>, cap: int)
    requires
        cap >= 0,
    ensures
        utf8_len(spec_decoded(input, cap)) <= cap,
{
    assert(encode_utf8(Seq::<char>::empty()) =~= Seq::<u8>::empty());
    lemma_decoded_from_fits(input, 0, Seq::empty(), cap);
}

proof fn lemma_decoded_from_plain_ascii(input: Seq<u8>, i: int, acc: Seq<char>, cap: int)
    requires
        0 <= i <= input.len(),
        is_ascii_chars(acc),
        forall|j: int|
            i <= j < input.len() ==> input[j] != PERCENT && input[j] != PLUS && input[j] < 0x80,
    ensures
        ({
            let room = cap - acc.len();
            let k = if room < 0 {
                0
            } else if room < input.len() - i {
                room
            } else {
                input.len() - i
            };
            decoded_from(input, i, acc, cap) == acc + Seq::new(
                k as nat,
                |j: int| input[i + j] as char,
            )
        }),
    decreases input.len() - i,
{
    is_ascii_chars_encode_utf8(acc);
    assert(utf8_len(acc) == acc.len());
    let room = cap - acc.len();
    let k = if room < 0 {
        0
    } else if room < input.len() - i {
        room
    } else {
        input.len() - i
    };
    if i >= input.len() || acc.len() >= cap {
        assert(k == 0);
        assert(acc + Seq::new(0nat, |j: int| input[i + j] as char) =~= acc);
    } else {
        let c = input[i] as char;
        assert(token_at(input, i) == (c, 1int));
        assert(c as u32 == input[i] as u32);
        assert(char_utf8_len(c) == 1);
        let acc2 = acc.push(c);
        assert(is_ascii_chars(acc2)) by {
            assert(forall|j: int|
                0 <= j < acc2.len() ==> '\0' <= #[trigger] acc2[j] <= '\u{7f}');
        }
        lemma_decoded_from_plain_ascii(input, i + 1, acc2, cap);
        let k2 = k - 1;
        assert(acc2 + Seq::new(k2 as nat, |j: int| input[i + 1 + j] as char) =~= acc + Seq::new(
            k as nat,
            |j: int| input[i + j] as char,
        ));
    }
}

/// Raw input consisting only of plain ASCII bytes — no `%`, no `+` —
/// decodes to exactly those bytes as characters, truncated to the first
/// `cap` of them; in particular an over-long plain key or value is cut
/// at the capacity, never mid-character.
pub proof fn lemma_decoded_plain_ascii(input: Seq<u8>, cap: int)
    requires
        cap >= 0,
        forall|j: int|
            0 <= j < input.len() ==> input[j] != PERCENT && input[j] != PLUS && input[j] < 0x80,
    ensures
        ({
            let k = if cap < input.len() {
                cap
            } else {
                input.len() as int
            };
            spec_decoded(input, cap) == Seq::new(k as nat, |j: int| input[j] as char)
        }),
{
    lemma_decoded_from_plain_ascii(input, 0, Seq::empty(), cap);
    let k = if cap < input.len() {
        cap
    } else {
        input.len() as int
    };
    assert(Seq::empty() + Seq::new(k as nat, |j: int| input[0 + j] as char) =~= Seq::new(
        k as nat,
        |j: int| input[j] as char,
    ));
}

} // verus!
