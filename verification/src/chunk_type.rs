//! The four-byte type code of a chunk.

use vstd::prelude::*;
use vstd::string::*;
use vstd::utf8::*;
use crate::text::push_char;

verus! {

/// `b` is an upper-case ASCII letter.
pub open spec fn is_upper(b: u8) -> bool {
    0x41 <= b <= 0x5A
}

/// `b` is a lower-case ASCII letter.
pub open spec fn is_lower(b: u8) -> bool {
    0x61 <= b <= 0x7A
}

/// `b` is an ASCII letter.
pub open spec fn is_letter(b: u8) -> bool {
    is_upper(b) || is_lower(b)
}

/// Every byte of `bytes` is an ASCII letter.
pub open spec fn all_letters(bytes: Seq<u8>) -> bool {
    forall|i: int| 0 <= i < bytes.len() ==> is_letter(#[trigger] bytes[i])
}

/// Why a text is no chunk type.
#[derive(Debug, Clone, Copy, PartialEq, Eq, Structural)]
pub enum ChunkTypeError {
    /// The text is not exactly four bytes long.
    InvalidChunkTypeLength,
    /// Some byte of the text is not an ASCII letter.
    InvalidChunkTypeAscii,
}

/// A chunk's type code: four bytes, whose letter case carries four property
/// bits. The model of a type is the sequence of its four bytes.
#[derive(Debug, Clone, Copy, Eq)]
pub struct ChunkType {
    bytes: [u8; 4],
    validity: bool,
}

impl View for ChunkType {
    type V = Seq<u8>;

    closed spec fn view(&self) -> Seq<u8> {
        self.bytes@
    }
}

impl PartialEq for ChunkType {
    /// Two types are equal when their bytes are.
    fn eq(&self, other: &Self) -> (r: bool) {
        let r = self.bytes[0] == other.bytes[0] && self.bytes[1] == other.bytes[1] && self.bytes[2]
            == other.bytes[2] && self.bytes[3] == other.bytes[3];
        assert(r == (self.bytes@ =~= other.bytes@));
        r
    }
}

impl vstd::std_specs::cmp::PartialEqSpecImpl for ChunkType {
    open spec fn obeys_eq_spec() -> bool {
        true
    }

    open spec fn eq_spec(&self, other: &Self) -> bool {
        self@ == other@
    }
}

fn upper(b: u8) -> (r: bool)
    ensures
        r == is_upper(b),
{
    0x41 <= b && b <= 0x5A
}

fn lower(b: u8) -> (r: bool)
    ensures
        r == is_lower(b),
{
    0x61 <= b && b <= 0x7A
}

impl ChunkType {
    #[verifier::type_invariant]
    spec fn well_formed(self) -> bool {
        self.validity == is_upper(self.bytes[2])
    }

    /// A type has four bytes.
    pub proof fn lemma_four_bytes(self)
        ensures
            self@.len() == 4,
    {
    }

    /// The type with the given bytes. Nothing is asked of them: where they are
    /// not letters, the property bits mean nothing.
    pub fn from_bytes(bytes: [u8; 4]) -> (t: ChunkType)
        ensures
            t@ == bytes@,
    {
        ChunkType { bytes, validity: upper(bytes[2]) }
    }

    /// The four bytes.
    pub fn bytes(&self) -> (b: [u8; 4])
        ensures
            b@ == self@,
            self@.len() == 4,
    {
        self.bytes
    }

    /// Whether the reserved bit is as the format demands, as recorded when the
    /// type was made.
    pub fn is_valid(&self) -> (r: bool)
        ensures
            r == is_upper(self@[2]),
    {
        proof {
            use_type_invariant(self);
        }
        self.validity
    }

    /// Whether a reader must understand this chunk: the first byte is upper case.
    pub fn is_critical(&self) -> (r: bool)
        ensures
            r == is_upper(self@[0]),
    {
        upper(self.bytes[0])
    }

    /// Whether the type is a public one: the second byte is upper case.
    pub fn is_public(&self) -> (r: bool)
        ensures
            r == is_upper(self@[1]),
    {
        upper(self.bytes[1])
    }

    /// Whether the reserved bit is clear: the third byte is upper case.
    pub fn is_reserved_bit_valid(&self) -> (r: bool)
        ensures
            r == is_upper(self@[2]),
    {
        upper(self.bytes[2])
    }

    /// Whether an editor that does not know the chunk may copy it: the fourth
    /// byte is lower case.
    pub fn is_safe_to_copy(&self) -> (r: bool)
        ensures
            r == is_lower(self@[3]),
    {
        lower(self.bytes[3])
    }

    /// The type as text: one character for each byte.
    pub fn to_string(&self) -> (s: String)
        ensures
            s@ == type_to_text(self@),
    {
        let mut s = String::new();
        let mut i: usize = 0;
        while i < 4
            invariant
                i <= 4,
                s@ == type_to_text(self@.subrange(0, i as int)),
            decreases 4 - i,
        {
            push_char(&mut s, self.bytes[i] as char);
            i += 1;
            assert(s@ =~= type_to_text(self@.subrange(0, i as int)));
        }
        assert(self@.subrange(0, 4) =~= self@);
        s
    }
}

/// What a text is as a chunk type: the bytes of its UTF-8 encoding where they
/// are four ASCII letters, and otherwise the reason why it is none. The length
/// is judged first.
pub open spec fn type_from_text(text: Seq<char>) -> Result<Seq<u8>, ChunkTypeError> {
    let bytes = encode_utf8(text);
    if bytes.len() != 4 {
        Err(ChunkTypeError::InvalidChunkTypeLength)
    } else if !all_letters(bytes) {
        Err(ChunkTypeError::InvalidChunkTypeAscii)
    } else {
        Ok(bytes)
    }
}

/// The text of a type: each byte as the character with that code.
pub open spec fn type_to_text(bytes: Seq<u8>) -> Seq<char> {
    Seq::new(bytes.len(), |i: int| bytes[i] as char)
}

/// Whether `s` consists of ASCII letters only.
pub fn is_within_desired_ascii_range(s: &str) -> (r: bool)
    ensures
        r == all_letters(s.spec_bytes()),
{
    let bytes = s.as_bytes();
    let mut i: usize = 0;
    while i < bytes.len()
        invariant
            i <= bytes.len(),
            bytes@ == s.spec_bytes(),
            forall|j: int| 0 <= j < i ==> is_letter(#[trigger] bytes@[j]),
        decreases bytes.len() - i,
    {
        if !(upper(bytes[i]) || lower(bytes[i])) {
            return false;
        }
        i += 1;
    }
    true
}

impl core::str::FromStr for ChunkType {
    type Err = ChunkTypeError;

    /// Reads a type from text: exactly four bytes, each an ASCII letter. The
    /// length is judged first, so a text of another length is never said to
    /// hold a wrong character.
    fn from_str(s: &str) -> (r: Result<ChunkType, ChunkTypeError>)
        ensures
            match r {
                Ok(t) => type_from_text(s@) == Ok::<Seq<u8>, ChunkTypeError>(t@),
                Err(e) => type_from_text(s@) == Err::<Seq<u8>, ChunkTypeError>(e),
            },
    {
        let bytes = s.as_bytes();
        if bytes.len() != 4 {
            Err(ChunkTypeError::InvalidChunkTypeLength)
        } else if !is_within_desired_ascii_range(s) {
            Err(ChunkTypeError::InvalidChunkTypeAscii)
        } else {
            let t = ChunkType::from_bytes([bytes[0], bytes[1], bytes[2], bytes[3]]);
            assert(t@ =~= bytes@);
            Ok(t)
        }
    }
}

impl TryFrom<[u8; 4]> for ChunkType {
    type Error = ChunkTypeError;

    /// The type with the given bytes; this conversion never fails.
    fn try_from(bytes: [u8; 4]) -> (r: Result<ChunkType, ChunkTypeError>)
        ensures
            r matches Ok(t) && t@ == bytes@,
    {
        Ok(ChunkType { bytes, validity: upper(bytes[2]) })
    }
}

impl vstd::std_specs::convert::TryFromSpecImpl<[u8; 4]> for ChunkType {
    open spec fn obeys_try_from_spec() -> bool {
        true
    }

    closed spec fn try_from_spec(bytes: [u8; 4]) -> Result<ChunkType, ChunkTypeError> {
        Ok(ChunkType { bytes, validity: is_upper(bytes[2]) })
    }
}

/// `c` is an ASCII letter.
pub open spec fn is_letter_char(c: char) -> bool {
    'A' <= c <= 'Z' || 'a' <= c <= 'z'
}

/// A text of four ASCII letters is a chunk type, and the type's text is that
/// text again.
pub proof fn lemma_type_text_round_trip(text: Seq<char>)
    requires
        text.len() == 4,
        forall|i: int| 0 <= i < 4 ==> is_letter_char(#[trigger] text[i]),
    ensures
        type_from_text(text) is Ok,
        type_to_text(type_from_text(text)->Ok_0) == text,
{
    assert(is_ascii_chars(text));
    is_ascii_chars_encode_utf8(text);
    let bytes = encode_utf8(text);
    assert forall|i: int| 0 <= i < bytes.len() implies is_letter(#[trigger] bytes[i]) by {
        assert(is_letter_char(text[i]));
    }
    assert(type_to_text(bytes) =~= text);
}

/// Only texts of four ASCII letters are chunk types.
pub proof fn lemma_type_text_is_letters(text: Seq<char>)
    requires
        type_from_text(text) is Ok,
    ensures
        text.len() == 4,
        forall|i: int| 0 <= i < 4 ==> is_letter_char(#[trigger] text[i]),
        type_to_text(type_from_text(text)->Ok_0) == text,
{
    lemma_letters_are_ascii(text);
    is_ascii_chars_encode_utf8(text);
    let bytes = encode_utf8(text);
    assert forall|i: int| 0 <= i < 4 implies is_letter_char(#[trigger] text[i]) by {
        assert(is_letter(bytes[i]));
    }
    assert(type_to_text(bytes) =~= text);
}

/// A character's code fits in 32 bits.
proof fn lemma_char_code(c: char)
    ensures
        c as int == (c as u32) as int,
        '\0' <= c,
{
}

/// A text whose encoding holds letters only holds ASCII characters only.
proof fn lemma_letters_are_ascii(text: Seq<char>)
    requires
        all_letters(encode_utf8(text)),
    ensures
        is_ascii_chars(text),
    decreases text.len(),
{
    if text.len() > 0 {
        let c = text[0] as u32;
        let head = encode_scalar(c);
        let tail = encode_utf8(text.drop_first());
        assert(encode_utf8(text) == head + tail);
        assert(is_letter((head + tail)[0]));
        assert(head[0] == (head + tail)[0]);
        // The first byte of a longer encoding is 0xC0 or more, and so no letter.
        assert((0xC0u8 | ((c >> 6) & 0x1F) as u8) >= 0xC0 && (0xE0u8 | ((c >> 12) & 0x0F) as u8)
            >= 0xC0 && (0xF0u8 | ((c >> 18) & 0x7) as u8) >= 0xC0) by (bit_vector);
        assert(has_width_1_encoding(c));
        assert(head.len() == 1);
        lemma_char_code(text[0]);
        assert forall|i: int| 0 <= i < tail.len() implies is_letter(#[trigger] tail[i]) by {
            assert(tail[i] == (head + tail)[i + 1]);
        }
        lemma_letters_are_ascii(text.drop_first());
        assert forall|i: int| 0 <= i < text.len() implies '\0' <= #[trigger] text[i] <= '\u{7f}' by {
            if i > 0 {
                assert(text[i] == text.drop_first()[i - 1]);
            } else {
                assert('\0' <= text[0] <= '\u{7f}');
            }
        }
    }
}

} // verus!
