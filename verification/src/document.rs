//! A note: its text, its uuid and its classified lines.
use vstd::prelude::*;
use crate::doc::{classify_document, classifies, ClassifiedLine};
use crate::text::lines;

verus! {

/// A lower-case hexadecimal digit.
pub open spec fn lower_hex(c: char) -> bool {
    ('0' <= c && c <= '9') || ('a' <= c && c <= 'f')
}

/// The text form of a random (version 4) uuid: 36 characters, hyphens at
/// 8, 13, 18 and 23, lower-case hex digits elsewhere, the version digit
/// `4` at 14 and a variant digit `8`, `9`, `a` or `b` at 19.
pub open spec fn uuid_v4_text(s: Seq<char>) -> bool {
    &&& s.len() == 36
    &&& forall|k: int| 0 <= k < 36 ==> (#[trigger] s[k] == '-') == (k == 8 || k == 13 || k == 18 || k == 23)
    &&& forall|k: int| 0 <= k < 36 && k != 8 && k != 13 && k != 18 && k != 23 ==> lower_hex(#[trigger] s[k])
    &&& s[14] == '4'
    &&& (s[19] == '8' || s[19] == '9' || s[19] == 'a' || s[19] == 'b')
}

/// The hexadecimal digit of `n` (below 16), lower case.
pub open spec fn hex_digit(n: u8) -> char {
    if n < 10 {
        ((n as int) + 48) as char
    } else {
        ((n as int) + 87) as char
    }
}

/// Byte `i` of a version-4 uuid made from the random bytes `b`: the
/// version nibble of byte 6 set to 4, the variant bits of byte 8 set to
/// `10`.
pub open spec fn v4_byte(b: Seq<u8>, i: int) -> u8 {
    if i == 6 {
        (b[6] & 0x0f) | 0x40
    } else if i == 8 {
        (b[8] & 0x3f) | 0x80
    } else {
        b[i]
    }
}

/// The byte shown at text position `k` (not a hyphen) of a uuid.
pub open spec fn text_byte(k: int) -> int {
    if k < 8 {
        k / 2
    } else if k < 13 {
        4 + (k - 9) / 2
    } else if k < 18 {
        6 + (k - 14) / 2
    } else if k < 23 {
        8 + (k - 19) / 2
    } else {
        10 + (k - 24) / 2
    }
}

/// Whether text position `k` shows the high half of its byte.
pub open spec fn text_high(k: int) -> bool {
    if k < 8 {
        k % 2 == 0
    } else if k < 13 {
        (k - 9) % 2 == 0
    } else if k < 18 {
        (k - 14) % 2 == 0
    } else if k < 23 {
        (k - 19) % 2 == 0
    } else {
        (k - 24) % 2 == 0
    }
}

/// The hyphenated lower-case text of the version-4 uuid made from the 16
/// random bytes `b`.
pub open spec fn uuid_v4_from(b: Seq<u8>) -> Seq<char> {
    Seq::new(
        36,
        |k: int|
            if k == 8 || k == 13 || k == 18 || k == 23 {
                '-'
            } else {
                let byte = v4_byte(b, text_byte(k));
                hex_digit(if text_high(k) { byte >> 4 } else { byte & 0x0f })
            },
    )
}

/// Wraps `uuid::Builder::from_random_bytes` and the uuid's `Display` text:
/// the bytes with the version and variant bits set, in hyphenated
/// lower-case hexadecimal.
#[verifier::external_body]
fn uuid_text_from_random(bytes: [u8; 16]) -> (r: String)
    ensures
        r@ == uuid_v4_from(bytes@),
{
    uuid::Builder::from_random_bytes(bytes).into_uuid().to_string()
}

/// The text made from any 16 bytes has the form of a random uuid.
pub proof fn lemma_uuid_v4_from(b: Seq<u8>)
    requires
        b.len() == 16,
    ensures
        uuid_v4_text(uuid_v4_from(b)),
{
    let s = uuid_v4_from(b);
    assert forall|k: int| 0 <= k < 36 && k != 8 && k != 13 && k != 18 && k != 23 implies lower_hex(
        #[trigger] s[k],
    ) && s[k] != '-' by {
        let byte = v4_byte(b, text_byte(k));
        assert(byte >> 4 < 16) by (bit_vector);
        assert(byte & 0x0f < 16) by (bit_vector);
    }
    let b6 = b[6];
    let b8 = b[8];
    assert((((b6 & 0x0f) | 0x40) >> 4) == 4) by (bit_vector);
    assert(8 <= (((b8 & 0x3f) | 0x80) >> 4) <= 11) by (bit_vector);
    assert(text_byte(14) == 6 && text_high(14));
    assert(text_byte(19) == 8 && text_high(19));
}

/// A note.
pub struct AcordDoc {
    pub text: String,
    pub uuid: String,
    lines: Vec<ClassifiedLine>,
}

impl AcordDoc {
    /// The classified lines held for the note.
    pub closed spec fn lines_held(&self) -> Seq<ClassifiedLine> {
        self.lines@
    }

    /// The note's text.
    pub closed spec fn text_chars(&self) -> Seq<char> {
        self.text@
    }

    /// The note's uuid.
    pub closed spec fn uuid_chars(&self) -> Seq<char> {
        self.uuid@
    }

    /// An empty note whose uuid is the random (version 4) uuid made from
    /// the 16 random bytes `random`.
    pub fn new(random: [u8; 16]) -> (r: Self)
        ensures
            r.text_chars() == Seq::<char>::empty(),
            r.uuid_chars() == uuid_v4_from(random@),
            uuid_v4_text(r.uuid_chars()),
            r.lines_held().len() == 0,
    {
        let uuid = uuid_text_from_random(random);
        proof {
            lemma_uuid_v4_from(random@);
        }
        AcordDoc { text: String::new(), uuid, lines: Vec::new() }
    }

    /// An empty note with the given uuid.
    pub fn with_uuid(uuid: String) -> (r: Self)
        ensures
            r.text_chars() == Seq::<char>::empty(),
            r.uuid_chars() == uuid@,
            r.lines_held().len() == 0,
    {
        AcordDoc { text: String::new(), uuid, lines: Vec::new() }
    }

    /// Replaces the text and classifies its lines.
    pub fn set_text(&mut self, text: &str)
        ensures
            final(self).text_chars() == text@,
            final(self).uuid_chars() == old(self).uuid_chars(),
            classifies(final(self).lines_held(), lines(text@)),
    {
        self.text = crate::text::string_from(text);
        self.lines = classify_document(text);
    }

    /// The classified lines of the text last set.
    pub fn classified_lines(&self) -> (r: &[ClassifiedLine])
        ensures
            r@ == self.lines_held(),
    {
        self.lines.as_slice()
    }
}

} // verus!
