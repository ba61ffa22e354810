//! The spelling of decimal floating-point literals.
//!
//! A number token is kept as text. Its text is a literal when it follows the
//! grammar that the standard library's conversion of a string to a
//! floating-point number accepts:
//!
//! ```text
//! literal  := sign? ( "inf" | "infinity" | "nan" | decimal )
//! decimal  := ( digit+ | digit+ "." digit* | digit* "." digit+ ) exponent?
//! exponent := "e" sign? digit+
//! sign     := "+" | "-"
//! ```
//!
//! Letters are read without regard to case.

use vstd::prelude::*;
use vstd::string::*;
use vstd::utf8::*;

verus! {

const DIGIT_ZERO: u8 = 48;

const DIGIT_NINE: u8 = 57;

const UPPER_A: u8 = 65;

const UPPER_E: u8 = 69;

const UPPER_Z: u8 = 90;

const LOWER_E: u8 = 101;

const PLUS: u8 = 43;

const MINUS: u8 = 45;

const POINT: u8 = 46;

pub open spec fn is_digit(c: char) -> bool {
    '0' <= c <= '9'
}

pub open spec fn is_sign(c: char) -> bool {
    c == '+' || c == '-'
}

/// Whether `c` is `letter`, a lower-case letter, in either case.
pub open spec fn is_letter(c: char, letter: char) -> bool {
    c == letter || ('A' <= c <= 'Z' && c as u32 + 32 == letter as u32)
}

/// Whether `text` spells `word`, a lower-case word, in any mix of cases.
pub open spec fn is_word(text: Seq<char>, word: Seq<char>) -> bool {
    text.len() == word.len() && forall|i: int|
        0 <= i < word.len() ==> is_letter(#[trigger] text[i], word[i])
}

/// The end of the longest run of digits of `text` that starts at `from`.
pub open spec fn digits_end(text: Seq<char>, from: int) -> int
    decreases text.len() - from,
{
    if 0 <= from < text.len() && is_digit(text[from]) {
        digits_end(text, from + 1)
    } else {
        from
    }
}

/// Whether an exponent starts at `from` and runs to the end of `text`.
pub open spec fn is_exponent(text: Seq<char>, from: int) -> bool {
    let start = if from + 1 < text.len() && is_sign(text[from + 1]) {
        from + 2
    } else {
        from + 1
    };
    &&& 0 <= from < text.len()
    &&& is_letter(text[from], 'e')
    &&& start < text.len()
    &&& digits_end(text, start) == text.len()
}

/// Whether a decimal number starts at `from` and runs to the end of `text`.
pub open spec fn is_decimal(text: Seq<char>, from: int) -> bool {
    let int_end = digits_end(text, from);
    let frac_start = if int_end < text.len() && text[int_end] == '.' {
        int_end + 1
    } else {
        int_end
    };
    let frac_end = digits_end(text, frac_start);
    &&& (int_end - from) + (frac_end - frac_start) > 0
    &&& frac_end == text.len() || is_exponent(text, frac_end)
}

/// Whether `text` names infinity or not-a-number.
pub open spec fn is_special(text: Seq<char>) -> bool {
    is_word(text, "inf"@) || is_word(text, "nan"@) || is_word(text, "infinity"@)
}

/// Whether `text` is a floating-point literal.
pub open spec fn is_float_literal(text: Seq<char>) -> bool {
    let from: int = if text.len() > 0 && is_sign(text[0]) {
        1
    } else {
        0
    };
    is_special(text.skip(from)) || is_decimal(text, from)
}

/// A run of digits lies inside the text and holds digits only.
pub proof fn lemma_digits_end(text: Seq<char>, from: int)
    requires
        0 <= from <= text.len(),
    ensures
        from <= digits_end(text, from) <= text.len(),
        forall|i: int| from <= i < digits_end(text, from) ==> is_digit(#[trigger] text[i]),
    decreases text.len() - from,
{
    if from < text.len() && is_digit(text[from]) {
        lemma_digits_end(text, from + 1);
    }
}

/// A floating-point literal is spelled in ASCII.
pub proof fn lemma_literal_is_ascii(text: Seq<char>)
    requires
        is_float_literal(text),
    ensures
        is_ascii_chars(text),
{
    reveal_strlit("inf");
    reveal_strlit("nan");
    reveal_strlit("infinity");
    let from: int = if text.len() > 0 && is_sign(text[0]) {
        1
    } else {
        0
    };
    let body = text.skip(from);
    if is_special(body) {
        assert forall|i: int| 0 <= i < text.len() implies '\0' <= #[trigger] text[i]
            <= '\u{7f}' by {
            if i >= from {
                assert(text[i] == body[i - from]);
            }
        }
    } else {
        let int_end = digits_end(text, from);
        lemma_digits_end(text, from);
        let frac_start = if int_end < text.len() && text[int_end] == '.' {
            int_end + 1
        } else {
            int_end
        };
        lemma_digits_end(text, frac_start);
        let frac_end = digits_end(text, frac_start);
        if frac_end < text.len() {
            let start = if frac_end + 1 < text.len() && is_sign(text[frac_end + 1]) {
                frac_end + 2
            } else {
                frac_end + 1
            };
            lemma_digits_end(text, start);
        }
    }
}

/// Whether `bytes` spells the ASCII text `text`, byte for character.
spec fn spelled_by(text: Seq<char>, bytes: Seq<u8>) -> bool {
    &&& bytes.len() == text.len()
    &&& forall|i: int|
        0 <= i < text.len() ==> '\0' <= #[trigger] text[i] <= '\u{7f}' && bytes[i] == text[i] as u8
}

/// The bytes of an ASCII string spell it.
proof fn lemma_spelled_by(text: &str)
    requires
        is_ascii_chars(text@),
    ensures
        spelled_by(text@, text.spec_bytes()),
{
    is_ascii_spec_bytes(text);
}

/// The end of the run of digits of `text` that starts at `from`.
fn scan_digits(text: &str, from: usize) -> (end: usize)
    requires
        is_ascii_chars(text@),
        from <= text@.len(),
    ensures
        end == digits_end(text@, from as int),
        from <= end <= text@.len(),
{
    let bytes = text.as_bytes();
    proof {
        lemma_spelled_by(text);
    }
    let mut i: usize = from;
    while i < bytes.len() && DIGIT_ZERO <= bytes[i] && bytes[i] <= DIGIT_NINE
        invariant
            from <= i <= bytes.len(),
            spelled_by(text@, bytes@),
            digits_end(text@, from as int) == digits_end(text@, i as int),
        decreases bytes.len() - i,
    {
        assert(is_digit(text@[i as int]));
        i += 1;
    }
    assert(i < bytes.len() ==> !is_digit(text@[i as int]));
    i
}

/// Whether the rest of `text` from `from` on spells `word`, in any mix of cases.
fn spells(text: &str, from: usize, word: &str) -> (yes: bool)
    requires
        is_ascii_chars(text@),
        is_ascii_chars(word@),
        from <= text@.len(),
    ensures
        yes == is_word(text@.skip(from as int), word@),
{
    let bytes = text.as_bytes();
    let letters = word.as_bytes();
    proof {
        lemma_spelled_by(text);
        lemma_spelled_by(word);
    }
    if bytes.len() - from != letters.len() {
        return false;
    }
    let ghost rest = text@.skip(from as int);
    let mut i: usize = 0;
    while i < letters.len()
        invariant
            i <= letters.len(),
            from + letters.len() == bytes.len(),
            spelled_by(text@, bytes@),
            spelled_by(word@, letters@),
            rest == text@.skip(from as int),
            rest.len() == word@.len(),
            forall|j: int| 0 <= j < i ==> is_letter(#[trigger] rest[j], word@[j]),
        decreases letters.len() - i,
    {
        let b = bytes[from + i];
        let l = letters[i];
        assert(rest[i as int] == text@[from + i]);
        let same = b == l || (UPPER_A <= b && b <= UPPER_Z && b + 32 == l);
        if !same {
            assert(!is_letter(rest[i as int], word@[i as int]));
            return false;
        }
        i += 1;
    }
    true
}

/// Whether `text` is a floating-point literal.
pub fn is_number(text: &str) -> (ok: bool)
    ensures
        ok == is_float_literal(text@),
{
    if !text.is_ascii() {
        proof {
            if is_float_literal(text@) {
                lemma_literal_is_ascii(text@);
            }
        }
        return false;
    }
    proof {
        reveal_strlit("inf");
        reveal_strlit("nan");
        reveal_strlit("infinity");
        lemma_spelled_by(text);
    }
    let bytes = text.as_bytes();
    let len = bytes.len();
    let from: usize = if len > 0 && (bytes[0] == PLUS || bytes[0] == MINUS) {
        1
    } else {
        0
    };
    if spells(text, from, "inf") || spells(text, from, "nan") || spells(text, from, "infinity") {
        return true;
    }
    let int_end = scan_digits(text, from);
    let frac_start: usize = if int_end < len && bytes[int_end] == POINT {
        int_end + 1
    } else {
        int_end
    };
    let frac_end = scan_digits(text, frac_start);
    if (int_end - from) + (frac_end - frac_start) == 0 {
        return false;
    }
    if frac_end == len {
        return true;
    }
    if bytes[frac_end] != LOWER_E && bytes[frac_end] != UPPER_E {
        return false;
    }
    let start: usize = if frac_end + 1 < len && (bytes[frac_end + 1] == PLUS || bytes[frac_end + 1]
        == MINUS) {
        frac_end + 2
    } else {
        frac_end + 1
    };
    if start >= len {
        return false;
    }
    scan_digits(text, start) == len
}

} // verus!
