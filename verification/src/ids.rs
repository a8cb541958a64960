//! The identity of a Session.

use vstd::prelude::*;
use crate::text::chars_of;

verus! {

/// The identity of a Session: 128 bits, spelled as exactly 32 lowercase hex characters.
#[derive(Debug, Clone, Copy, PartialEq, Eq, Hash, PartialOrd, Ord)]
pub struct ClientId {
    bytes: [u8; 16],
}

/// Text that is not a Client ID: of the wrong length, or with a character outside `0-9a-f`.
#[derive(Debug, Clone, Copy, PartialEq, Eq, Structural)]
pub struct ParseClientIdError;

impl View for ClientId {
    type V = Seq<u8>;

    closed spec fn view(&self) -> Seq<u8> {
        self.bytes@
    }
}

/// The hex character of a number below sixteen.
pub open spec fn hex_digit(n: int) -> char {
    if n < 10 {
        (48 + n) as char
    } else {
        (87 + n) as char
    }
}

/// The number that a hex character writes.
pub open spec fn hex_value(c: char) -> Option<int> {
    if '0' <= c <= '9' {
        Some(c as int - 48)
    } else if 'a' <= c <= 'f' {
        Some(c as int - 87)
    } else {
        None
    }
}

/// Bytes as hex characters, two for each.
pub open spec fn hex_text(bytes: Seq<u8>) -> Seq<char> {
    Seq::new(
        2 * bytes.len(),
        |i: int|
            hex_digit(
                if i % 2 == 0 {
                    bytes[i / 2] as int / 16
                } else {
                    bytes[i / 2] as int % 16
                },
            ),
    )
}

/// The bytes that a Client ID's text writes, if it is one.
pub open spec fn hex_bytes(text: Seq<char>) -> Option<Seq<u8>> {
    if text.len() == 32 && forall|i: int| 0 <= i < 32 ==> hex_value(#[trigger] text[i]) is Some {
        Some(Seq::new(16, |i: int| (hex_value(text[2 * i])->0 * 16 + hex_value(text[2 * i + 1])->0) as u8))
    } else {
        None
    }
}

fn digit_of(n: u8) -> (r: char)
    requires
        n < 16,
    ensures
        r == hex_digit(n as int),
{
    if n < 10 {
        (48 + n) as char
    } else {
        (87 + n) as char
    }
}

fn value_of(c: char) -> (r: Option<u8>)
    ensures
        match (r, hex_value(c)) {
            (Some(n), Some(wanted)) => n == wanted && n < 16,
            (None, None) => true,
            _ => false,
        },
{
    if '0' <= c && c <= '9' {
        Some((c as u32 - 48) as u8)
    } else if 'a' <= c && c <= 'f' {
        Some((c as u32 - 87) as u8)
    } else {
        None
    }
}

impl ClientId {
    /// Length of the text form, in characters.
    pub const TEXT_LEN: usize = 32;

    /// Wrap 16 bytes as a Client ID.
    pub fn from_bytes(bytes: [u8; 16]) -> (r: Self)
        ensures
            r@ == bytes@,
    {
        ClientId { bytes }
    }

    /// The id's 16 bytes.
    pub fn as_bytes(&self) -> (r: &[u8; 16])
        ensures
            r@ == self@,
    {
        &self.bytes
    }

    /// The id as text.
    pub fn to_text(&self) -> (r: String)
        ensures
            self@.len() == 16,
            r@ == hex_text(self@),
    {
        let mut text = String::new();
        let mut i: usize = 0;
        while i < 16
            invariant
                i <= 16,
                text@ =~= hex_text(self.bytes@.take(i as int)),
            decreases 16 - i,
        {
            let byte = self.bytes[i];
            text.push(digit_of(byte / 16));
            text.push(digit_of(byte % 16));
            i = i + 1;
        }
        proof {
            assert(self.bytes@.take(16) =~= self@);
        }
        text
    }

    /// Read an id from its text.
    pub fn parse(text: &str) -> (r: Result<Self, ParseClientIdError>)
        ensures
            match (r, hex_bytes(text@)) {
                (Ok(id), Some(bytes)) => id@ == bytes,
                (Err(_), None) => true,
                _ => false,
            },
    {
        let chars = chars_of(text);
        if chars.len() != 32 {
            return Err(ParseClientIdError);
        }
        let mut bytes: [u8; 16] = [0, 0, 0, 0, 0, 0, 0, 0, 0, 0, 0, 0, 0, 0, 0, 0];
        let mut i: usize = 0;
        while i < 16
            invariant
                i <= 16,
                chars@ == text@,
                chars@.len() == 32,
                forall|j: int| 0 <= j < 2 * i ==> hex_value(#[trigger] chars@[j]) is Some,
                forall|j: int|
                    0 <= j < i ==> #[trigger] bytes@[j] == hex_value(chars@[2 * j])->0 * 16 + hex_value(chars@[2 * j + 1])->0,
            decreases 16 - i,
        {
            let high = match value_of(chars[2 * i]) {
                Some(n) => n,
                None => {
                    return Err(ParseClientIdError);
                },
            };
            let low = match value_of(chars[2 * i + 1]) {
                Some(n) => n,
                None => {
                    return Err(ParseClientIdError);
                },
            };
            bytes[i] = high * 16 + low;
            i = i + 1;
        }
        proof {
            let wanted = hex_bytes(text@)->0;
            assert(bytes@ =~= wanted) by {
                assert forall|j: int| 0 <= j < 16 implies bytes@[j] == wanted[j] by {
                    assert(bytes@[j] == hex_value(chars@[2 * j])->0 * 16 + hex_value(chars@[2 * j + 1])->0);
                }
            }
        }
        Ok(ClientId { bytes })
    }
}

impl ParseClientIdError {
    /// The error as text.
    pub fn to_text(&self) -> (r: String)
        ensures
            r@ == "a Client ID is exactly 32 lowercase hex characters"@,
    {
        "a Client ID is exactly 32 lowercase hex characters".to_owned()
    }
}

proof fn lemma_digit(n: int)
    requires
        0 <= n < 16,
    ensures
        hex_value(hex_digit(n)) == Some(n),
{
}

proof fn lemma_value(c: char)
    requires
        hex_value(c) is Some,
    ensures
        0 <= hex_value(c)->0 < 16,
        hex_digit(hex_value(c)->0) == c,
{
}

proof fn lemma_halves(high: int, low: int)
    requires
        0 <= high < 16,
        0 <= low < 16,
    ensures
        0 <= high * 16 + low < 256,
        (high * 16 + low) / 16 == high,
        (high * 16 + low) % 16 == low,
{
}

proof fn lemma_text_reads_back(bytes: Seq<u8>)
    requires
        bytes.len() == 16,
    ensures
        hex_bytes(hex_text(bytes)) == Some(bytes),
{
    let spelled = hex_text(bytes);
    assert forall|i: int| 0 <= i < 32 implies hex_value(#[trigger] spelled[i]) is Some by {
        lemma_digit(
            if i % 2 == 0 {
                bytes[i / 2] as int / 16
            } else {
                bytes[i / 2] as int % 16
            },
        );
    }
    let read = hex_bytes(spelled)->0;
    assert forall|i: int| 0 <= i < 16 implies #[trigger] read[i] == bytes[i] by {
        let byte = bytes[i] as int;
        assert((2 * i) % 2 == 0 && (2 * i) / 2 == i && (2 * i + 1) % 2 == 1 && (2 * i + 1) / 2 == i);
        assert(spelled[2 * i] == hex_digit(byte / 16));
        assert(spelled[2 * i + 1] == hex_digit(byte % 16));
        lemma_digit(byte / 16);
        lemma_digit(byte % 16);
    }
    assert(read =~= bytes);
}

proof fn lemma_only_text(bytes: Seq<u8>, text: Seq<char>)
    requires
        hex_bytes(text) == Some(bytes),
    ensures
        text == hex_text(bytes),
{
    let spelled = hex_text(bytes);
    assert forall|i: int| 0 <= i < 32 implies #[trigger] text[i] == spelled[i] by {
        let k = i / 2;
        let (first, second) = (text[2 * k], text[2 * k + 1]);
        assert(hex_value(first) is Some && hex_value(second) is Some);
        lemma_value(first);
        lemma_value(second);
        lemma_halves(hex_value(first)->0, hex_value(second)->0);
        assert(bytes[k] == (hex_value(first)->0 * 16 + hex_value(second)->0) as u8);
        assert(i == 2 * k || i == 2 * k + 1);
    }
    assert(text =~= spelled);
}

/// An id's text reads back as the id, and an id has no other text: two ids are equal exactly when
/// their texts are.
pub proof fn law_client_id_text(bytes: Seq<u8>, text: Seq<char>)
    requires
        bytes.len() == 16,
    ensures
        hex_bytes(hex_text(bytes)) == Some(bytes),
        hex_bytes(text) == Some(bytes) ==> text == hex_text(bytes),
{
    lemma_text_reads_back(bytes);
    if hex_bytes(text) == Some(bytes) {
        lemma_only_text(bytes, text);
    }
}

/// A Client ID is written in lower-case hex, the high half of each byte first.
pub proof fn law_client_id_digits(bytes: Seq<u8>, i: int)
    requires
        0 <= i < bytes.len(),
    ensures
        hex_text(bytes).len() == 2 * bytes.len(),
        hex_text(bytes)[2 * i] == "0123456789abcdef"@[bytes[i] as int / 16],
        hex_text(bytes)[2 * i + 1] == "0123456789abcdef"@[bytes[i] as int % 16],
{
    reveal_strlit("0123456789abcdef");
}

} // verus!
