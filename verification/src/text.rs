//! Verified string helpers: returning an owned string, exact string
//! comparison, classifying a greeting, and taking the first space-separated
//! word of a string.

use vstd::prelude::*;
use vstd::string::StringSliceAdditionalSpecFns;
use vstd::utf8::encode_utf8_valid_utf8;
use vstd::utf8::encode_utf8_decode_utf8;
use vstd::utf8::is_char_boundary_start_end_of_seq;
use vstd::utf8::is_char_boundary_iff_not_is_continuation_byte;

verus! {

/// Returns an owned greeting, handing ownership to the caller rather than a
/// reference into a dropped local.
pub fn no_dangle() -> (r: String)
    ensures
        r@ == "hello"@,
{
    let s = "hello".to_owned();
    s
}

/// Whether two byte slices hold the same bytes.
fn bytes_eq(a: &[u8], b: &[u8]) -> (r: bool)
    ensures
        r == (a@ == b@),
{
    if a.len() != b.len() {
        return false;
    }
    let mut idx: usize = 0;
    while idx < a.len()
        invariant
            idx <= a@.len() == b@.len(),
            forall|i: int| 0 <= i < idx ==> #[trigger] a@[i] == b@[i],
        decreases a@.len() - idx,
    {
        if a[idx] != b[idx] {
            return false;
        }
        idx = idx + 1;
    }
    proof {
        assert(a@ =~= b@);
    }
    true
}

/// Whether two strings hold the same characters. Equal UTF-8 bytes mean
/// equal character sequences, since decoding inverts encoding.
pub fn str_eq(a: &str, b: &str) -> (r: bool)
    ensures
        r == (a@ == b@),
{
    let r = bytes_eq(a.as_bytes(), b.as_bytes());
    proof {
        if a.spec_bytes() == b.spec_bytes() {
            encode_utf8_decode_utf8(a@);
            encode_utf8_decode_utf8(b@);
        }
    }
    r
}

/// How a text relates to the two greetings the classifier knows.
#[derive(Clone, Copy, Debug, PartialEq, Eq, Structural)]
pub enum Greeting {
    English,
    Spanish,
    Other,
}

/// Classifies a text: the exact greeting `"Hello"`, the exact greeting
/// `"Hola"`, or anything else.
pub fn match_greeting(text: &str) -> (g: Greeting)
    ensures
        (g == Greeting::English) <==> text@ == "Hello"@,
        (g == Greeting::Spanish) <==> text@ == "Hola"@,
{
    proof {
        reveal_strlit("Hello");
        reveal_strlit("Hola");
        assert("Hello"@.len() == 5);
        assert("Hola"@.len() == 4);
    }
    if str_eq(text, "Hello") {
        Greeting::English
    } else if str_eq(text, "Hola") {
        Greeting::Spanish
    } else {
        Greeting::Other
    }
}

/// The number of bytes before the first ASCII space, or the whole length
/// when no space occurs.
pub open spec fn first_space_len(bytes: Seq<u8>) -> nat
    decreases bytes.len(),
{
    if bytes.len() == 0 {
        0
    } else if bytes[0] == 32 {
        0
    } else {
        1 + first_space_len(bytes.drop_first())
    }
}

/// Bytes known not to be spaces push the first space past them.
proof fn lemma_first_space_at_least(bytes: Seq<u8>, m: int)
    requires
        0 <= m <= bytes.len(),
        forall|i: int| 0 <= i < m ==> #[trigger] bytes[i] != 32,
    ensures
        first_space_len(bytes) >= m,
    decreases m,
{
    if m > 0 {
        assert(bytes[0] != 32);
        assert forall|i: int| 0 <= i < m - 1 implies #[trigger] bytes.drop_first()[i] != 32 by {
            assert(bytes[i + 1] != 32);
        }
        lemma_first_space_at_least(bytes.drop_first(), m - 1);
    }
}

/// `first_space_len` never exceeds the length, no byte before it is a
/// space, and the byte at it (when inside) is a space.
proof fn lemma_first_space_bounds(bytes: Seq<u8>)
    ensures
        first_space_len(bytes) <= bytes.len(),
        first_space_len(bytes) < bytes.len() ==> bytes[first_space_len(bytes) as int] == 32,
        forall|i: int| 0 <= i < first_space_len(bytes) ==> #[trigger] bytes[i] != 32,
    decreases bytes.len(),
{
    if bytes.len() == 0 {
    } else if bytes[0] == 32 {
    } else {
        lemma_first_space_bounds(bytes.drop_first());
        assert forall|i: int| 0 <= i < first_space_len(bytes) implies #[trigger] bytes[i]
            != 32 by {
            if i > 0 {
                assert(bytes.drop_first()[i - 1] != 32);
            }
        }
    }
}

/// The first space-separated word of a string: the bytes before the first
/// ASCII space, or the whole string when it holds none. `None` exactly on
/// the empty string.
pub fn get_first_word<'a>(text: &'a str) -> (r: Option<&'a str>)
    ensures
        match r {
            None => text@.len() == 0,
            Some(w) => text@.len() > 0 && w.spec_bytes() == text.spec_bytes().subrange(
                0,
                first_space_len(text.spec_bytes()) as int,
            ),
        },
{
    if text.is_empty() {
        return None;
    }
    let bytes = text.as_bytes();
    let mut j: usize = 0;
    while j < bytes.len() && bytes[j] != 32
        invariant
            j <= bytes@.len(),
            bytes@ == text.spec_bytes(),
            forall|i: int| 0 <= i < j ==> #[trigger] bytes@[i] != 32,
        decreases bytes@.len() - j,
    {
        j = j + 1;
    }
    proof {
        lemma_first_space_at_least(bytes@, j as int);
        lemma_first_space_bounds(bytes@);
        if (j as int) < bytes@.len() && first_space_len(bytes@) > j as nat {
            assert(bytes@[j as int] != 32);
        }
        assert(first_space_len(bytes@) == j as nat);
        encode_utf8_valid_utf8(text@);
        if (j as int) < bytes@.len() {
            is_char_boundary_iff_not_is_continuation_byte(text.spec_bytes(), j as int);
        } else {
            is_char_boundary_start_end_of_seq(text.spec_bytes());
        }
    }
    let (word, _) = text.split_at(j);
    proof {
        assert(word.spec_bytes() == text.spec_bytes().subrange(0, j as int));
    }
    Some(word)
}

} // verus!
