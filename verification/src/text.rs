//! A fixed-capacity string: a byte buffer of compile-time size that only
//! ever holds a valid UTF-8 encoding, and silently drops characters that
//! do not fit.

use vstd::prelude::*;

verus! {

use vstd::slice::slice_subrange;
use vstd::string::StringSliceAdditionalSpecFns;
use vstd::utf8::char_is_scalar;
use vstd::utf8::decode_utf8;
use vstd::utf8::decode_utf8_encode_utf8;
use vstd::utf8::decode_utf8_split;
use vstd::utf8::encode_scalar;
use vstd::utf8::encode_utf8;
use vstd::utf8::encode_utf8_decode_utf8;
use vstd::utf8::encode_utf8_first_scalar;
use vstd::utf8::encode_utf8_valid_utf8;
use vstd::utf8::has_width_1_encoding;
use vstd::utf8::last_continuation_byte;
use vstd::utf8::leading_byte_width_1;
use vstd::utf8::leading_byte_width_2;
use vstd::utf8::leading_byte_width_3;
use vstd::utf8::leading_byte_width_4;
use vstd::utf8::second_last_continuation_byte;
use vstd::utf8::third_last_continuation_byte;
use vstd::utf8::is_char_boundary_iff_not_is_continuation_byte;
use vstd::utf8::is_continuation_byte;
use vstd::utf8::valid_first_scalar;
use vstd::utf8::valid_utf8;
use vstd::utf8::valid_utf8_concat;
use vstd::utf8::valid_utf8_split;

/// Length in bytes of the UTF-8 encoding of a character sequence.
pub open spec fn utf8_len(chars: Seq<char>) -> int {
    encode_utf8(chars).len() as int
}

/// Length in bytes of the UTF-8 encoding of one character.
pub open spec fn char_utf8_len(c: char) -> int {
    encode_scalar(c as u32).len() as int
}

/// The UTF-8 encoding of a single character is the encoding of that
/// character's scalar value.
pub proof fn lemma_encode_utf8_singleton(c: char)
    ensures
        encode_utf8(seq![c]) == encode_scalar(c as u32),
{
    assert(seq![c].drop_first() =~= Seq::<char>::empty());
    assert(encode_utf8(Seq::<char>::empty()) =~= Seq::<u8>::empty());
    assert(encode_utf8(seq![c]) =~= encode_scalar(seq![c][0] as u32) + encode_utf8(
        seq![c].drop_first(),
    ));
    assert(encode_utf8(seq![c]) =~= encode_scalar(c as u32));
}

/// Appending the encoding of one more character to a valid encoding stays
/// valid and decodes to the old characters followed by that character.
pub proof fn lemma_decode_utf8_append_char(b: Seq<u8>, c: char)
    requires
        valid_utf8(b),
    ensures
        valid_utf8(b + encode_scalar(c as u32)),
        decode_utf8(b + encode_scalar(c as u32)) == decode_utf8(b).push(c),
{
    let enc = encode_scalar(c as u32);
    let all = b + enc;
    char_is_scalar(c);
    lemma_encode_utf8_singleton(c);
    encode_utf8_valid_utf8(seq![c]);
    valid_utf8_concat(b, enc);
    encode_utf8_decode_utf8(seq![c]);
    assert(decode_utf8(enc) == seq![c]);
    if b.len() == 0 {
        assert(all =~= enc);
        assert(decode_utf8(b).push(c) =~= seq![c]);
    } else {
        encode_utf8_first_scalar(seq![c]);
        assert(valid_first_scalar(enc));
        assert(!is_continuation_byte(enc[0]));
        assert(all[b.len() as int] == enc[0]);
        is_char_boundary_iff_not_is_continuation_byte(all, b.len() as int);
        valid_utf8_split(all, b.len() as int);
        decode_utf8_split(all, b.len() as int);
        assert(all.subrange(0, b.len() as int) =~= b);
        assert(all.subrange(b.len() as int, all.len() as int) =~= enc);
        assert(decode_utf8(b).push(c) =~= decode_utf8(b) + seq![c]);
    }
}

/// Encoding one more character appends that character's encoding.
pub proof fn lemma_encode_utf8_push(s: Seq<char>, c: char)
    ensures
        encode_utf8(s.push(c)) == encode_utf8(s) + encode_scalar(c as u32),
    decreases s.len(),
{
    if s.len() == 0 {
        assert(s.push(c) =~= seq![c]);
        lemma_encode_utf8_singleton(c);
        assert(encode_utf8(s) =~= Seq::<u8>::empty());
        assert(encode_utf8(s) + encode_scalar(c as u32) =~= encode_scalar(c as u32));
    } else {
        assert(s.push(c).drop_first() =~= s.drop_first().push(c));
        lemma_encode_utf8_push(s.drop_first(), c);
        assert(s.push(c)[0] == s[0]);
        assert(encode_scalar(s[0] as u32) + (encode_utf8(s.drop_first()) + encode_scalar(
            c as u32,
        )) =~= encode_utf8(s) + encode_scalar(c as u32));
    }
}

/// A byte below 0x80 in the encoding of a character sequence is the
/// one-byte encoding of one of the characters.
pub proof fn lemma_ascii_byte_in_encoding(chars: Seq<char>, i: int)
    requires
        0 <= i < encode_utf8(chars).len(),
        encode_utf8(chars)[i] < 0x80,
    ensures
        exists|j: int| 0 <= j < chars.len() && (#[trigger] chars[j]) as u32 == encode_utf8(
            chars,
        )[i] as u32,
    decreases chars.len(),
{
    assert(chars.len() > 0);
    let u = chars[0] as u32;
    char_is_scalar(chars[0]);
    let enc0 = encode_scalar(u);
    let rest = encode_utf8(chars.drop_first());
    assert(encode_utf8(chars) == enc0 + rest);
    if i < enc0.len() {
        if has_width_1_encoding(u) {
            assert(enc0 =~= seq![leading_byte_width_1(u)]);
            assert(i == 0);
            assert(leading_byte_width_1(u) as u32 == u) by (bit_vector)
                requires
                    u <= 0x7F,
            ;
            assert(chars[0] as u32 == encode_utf8(chars)[i] as u32);
        } else {
            // every byte of a wider encoding is at least 0x80
            let b = enc0[i];
            assert(0x80 <= leading_byte_width_2(u) && 0x80 <= leading_byte_width_3(u) && 0x80
                <= leading_byte_width_4(u) && 0x80 <= last_continuation_byte(u) && 0x80
                <= second_last_continuation_byte(u) && 0x80 <= third_last_continuation_byte(
                u,
            )) by (bit_vector);
            assert(b >= 0x80);
            assert(false);
        }
    } else {
        lemma_ascii_byte_in_encoding(chars.drop_first(), i - enc0.len());
        let j0 = choose|j: int|
            0 <= j < chars.drop_first().len() && (#[trigger] chars.drop_first()[j]) as u32
                == rest[i - enc0.len()] as u32;
        assert(chars[j0 + 1] as u32 == encode_utf8(chars)[i] as u32);
    }
}

/// Relies on `core::str::from_utf8`: on bytes that are a valid UTF-8
/// encoding it returns `Ok` with the borrowed string those bytes encode.
#[verifier::external_body]
fn utf8_to_str(bytes: &[u8]) -> (r: &str)
    requires
        valid_utf8(bytes@),
    ensures
        r@ == decode_utf8(bytes@),
{
    core::str::from_utf8(bytes).unwrap_or("")
}

/// A stack-based string type with fixed-size storage.
///
/// The first `len` bytes of `buf` always hold a valid UTF-8 encoding:
/// characters are appended whole or not at all, so a view of the buffer
/// as text is always valid.
#[derive(Debug, Clone, Copy)]
pub struct StackString<const SIZE: usize> {
    pub(crate) buf: [u8; SIZE],
    pub(crate) len: usize,
}

impl<const SIZE: usize> View for StackString<SIZE> {
    type V = Seq<char>;

    open(crate) spec fn view(&self) -> Seq<char> {
        decode_utf8(self.buf@.subrange(0, self.len as int))
    }
}

impl<const SIZE: usize> StackString<SIZE> {
    /// The bytes stored so far: the first `len` bytes of the buffer.
    pub open(crate) spec fn spec_bytes(&self) -> Seq<u8> {
        self.buf@.subrange(0, self.len as int)
    }

    /// Invariant: the used length is within capacity and the stored bytes
    /// are a valid UTF-8 encoding (never a partial character).
    pub open(crate) spec fn wf(&self) -> bool {
        &&& self.len <= SIZE
        &&& valid_utf8(self.spec_bytes())
    }

    /// The stored bytes are exactly the encoding of the stored characters.
    pub(crate) proof fn lemma_byte_len(&self)
        requires
            self.wf(),
        ensures
            encode_utf8(self@) == self.spec_bytes(),
            utf8_len(self@) == self.len as int,
            utf8_len(self@) <= SIZE,
    {
        decode_utf8_encode_utf8(self.spec_bytes());
    }

    /// Creates a new empty stack string.
    pub fn new() -> (r: Self)
        ensures
            r.wf(),
            r@ == Seq::<char>::empty(),
    {
        let r = StackString { buf: [0u8; SIZE], len: 0 };
        proof {
            assert(r.spec_bytes() =~= Seq::<u8>::empty());
            assert(r@ =~= Seq::<char>::empty());
        }
        r
    }

    /// Pushes a character if its whole encoding fits in the remaining
    /// capacity; otherwise leaves the string unchanged.
    pub fn push(&mut self, c: char)
        requires
            old(self).wf(),
        ensures
            final(self).wf(),
            utf8_len(old(self)@) + char_utf8_len(c) <= SIZE ==> final(self)@ == old(self)@.push(
                c,
            ),
            utf8_len(old(self)@) + char_utf8_len(c) > SIZE ==> *final(self) == *old(self),
    {
        let u = c as u32;
        proof {
            char_is_scalar(c);
            old(self).lemma_byte_len();
        }
        // The character's UTF-8 encoding, computed as encode_scalar gives it.
        let k: usize;
        let mut b0: u8 = 0;
        let mut b1: u8 = 0;
        let mut b2: u8 = 0;
        let mut b3: u8 = 0;
        if u <= 0x7F {
            k = 1;
            b0 = (u & 0x7F) as u8;
        } else if u <= 0x7FF {
            k = 2;
            b0 = 0xC0 | ((u >> 6) & 0x1F) as u8;
            b1 = 0x80 | (u & 0x3F) as u8;
        } else if u <= 0xFFFF {
            k = 3;
            b0 = 0xE0 | ((u >> 12) & 0x0F) as u8;
            b1 = 0x80 | ((u >> 6) & 0x3F) as u8;
            b2 = 0x80 | (u & 0x3F) as u8;
        } else {
            k = 4;
            b0 = 0xF0 | ((u >> 18) & 0x7) as u8;
            b1 = 0x80 | ((u >> 12) & 0x3F) as u8;
            b2 = 0x80 | ((u >> 6) & 0x3F) as u8;
            b3 = 0x80 | (u & 0x3F) as u8;
        }
        let ghost enc = encode_scalar(c as u32);
        let ghost old_bytes = self.spec_bytes();
        proof {
            if k == 1 {
                assert(enc =~= seq![b0]);
            } else if k == 2 {
                assert(enc =~= seq![b0, b1]);
            } else if k == 3 {
                assert(enc =~= seq![b0, b1, b2]);
            } else {
                assert(enc =~= seq![b0, b1, b2, b3]);
            }
        }
        if k <= SIZE - self.len {
            let pos = self.len;
            self.buf[pos] = b0;
            if k >= 2 {
                self.buf[pos + 1] = b1;
            }
            if k >= 3 {
                self.buf[pos + 2] = b2;
            }
            if k >= 4 {
                self.buf[pos + 3] = b3;
            }
            self.len = pos + k;
            proof {
                assert(self.spec_bytes() =~= old_bytes + enc);
                lemma_decode_utf8_append_char(old_bytes, c);
            }
        }
    }

    /// Returns the current length in bytes.
    pub fn len(&self) -> (r: usize)
        requires
            self.wf(),
        ensures
            r as int == utf8_len(self@),
    {
        proof {
            self.lemma_byte_len();
        }
        self.len
    }

    /// Returns true if the string is empty.
    pub fn is_empty(&self) -> (r: bool)
        requires
            self.wf(),
        ensures
            r == (self@.len() == 0),
    {
        proof {
            self.lemma_byte_len();
            if self.len == 0 {
                assert(self.spec_bytes() =~= Seq::<u8>::empty());
                assert(encode_utf8(Seq::<char>::empty()) =~= Seq::<u8>::empty());
            }
        }
        self.len == 0
    }

    /// Returns the stored text as a string slice.
    pub fn as_str<'a>(&'a self) -> (r: &'a str)
        requires
            self.wf(),
        ensures
            r@ == self@,
    {
        let s: &[u8] = slice_subrange(self.buf.as_slice(), 0, self.len);
        utf8_to_str(s)
    }

    /// True exactly when the stored text equals the given string.
    pub fn eq_str(&self, other: &str) -> (r: bool)
        requires
            self.wf(),
        ensures
            r == (self@ == other@),
    {
        proof {
            self.lemma_byte_len();
            encode_utf8_decode_utf8(other@);
        }
        let ob: &[u8] = other.as_bytes();
        if self.len != ob.len() {
            return false;
        }
        let mut i: usize = 0;
        while i < self.len
            invariant
                self.wf(),
                i <= self.len,
                self.len == ob@.len(),
                ob@ == encode_utf8(other@),
                forall|j: int| 0 <= j < i ==> self.buf@[j] == ob@[j],
            decreases self.len - i,
        {
            if self.buf[i] != ob[i] {
                proof {
                    self.lemma_byte_len();
                    assert(self.spec_bytes()[i as int] != ob@[i as int]);
                }
                return false;
            }
            i += 1;
        }
        proof {
            self.lemma_byte_len();
            assert(self.spec_bytes() =~= ob@);
        }
        true
    }
}

} // verus!
