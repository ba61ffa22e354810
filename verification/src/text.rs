//! Text as a sequence of characters, and its UTF-8 encoding.
//!
//! Executable code slices strings by byte offsets; contracts speak of
//! characters. The lemmas here connect the two.

use vstd::prelude::*;
use vstd::string::*;
use vstd::utf8::*;

verus! {

/// Encoding distributes over concatenation, and the seam between the two
/// parts is a character boundary of the whole.
pub proof fn lemma_encode_concat(a: Seq<char>, b: Seq<char>)
    ensures
        encode_utf8(a + b) == encode_utf8(a) + encode_utf8(b),
        is_char_boundary(encode_utf8(a + b), encode_utf8(a).len() as int),
    decreases a.len(),
{
    broadcast use encode_utf8_valid_utf8;

    if a.len() == 0 {
        assert(a + b =~= b);
        assert(encode_utf8(a) + encode_utf8(b) =~= encode_utf8(b));
    } else {
        let whole = a + b;
        let bytes = encode_utf8(whole);
        assert(whole.drop_first() =~= a.drop_first() + b);
        lemma_encode_concat(a.drop_first(), b);
        assert(bytes =~= encode_utf8(a) + encode_utf8(b));
        encode_utf8_first_scalar(whole);
        encode_utf8_first_scalar(a);
        assert(pop_first_scalar(bytes) =~= encode_utf8(whole.drop_first()));
    }
}

/// A string is determined by its bytes.
pub proof fn lemma_same_bytes_same_text(a: Seq<char>, b: Seq<char>)
    requires
        encode_utf8(a) == encode_utf8(b),
    ensures
        a == b,
{
    broadcast use encode_utf8_decode_utf8;

    assert(decode_utf8(encode_utf8(a)) == a);
    assert(decode_utf8(encode_utf8(b)) == b);
}

/// Splitting the bytes of `text` at a character boundary splits `text`.
pub proof fn lemma_split_at_boundary(text: Seq<char>, head: Seq<char>, tail: Seq<char>, mid: int)
    requires
        is_char_boundary(encode_utf8(text), mid),
        0 <= mid <= encode_utf8(text).len(),
        encode_utf8(head) == encode_utf8(text).subrange(0, mid),
        encode_utf8(tail) == encode_utf8(text).subrange(mid, encode_utf8(text).len() as int),
    ensures
        text == head + tail,
{
    broadcast use encode_utf8_decode_utf8, encode_utf8_valid_utf8;

    let bytes = encode_utf8(text);
    decode_utf8_split(bytes, mid);
    assert(decode_utf8(bytes) == text);
    assert(decode_utf8(encode_utf8(head)) == head);
    assert(decode_utf8(encode_utf8(tail)) == tail);
}

/// The length of `text` in bytes.
pub fn byte_len(text: &str) -> (n: usize)
    ensures
        n == text.spec_bytes().len(),
{
    text.as_bytes().len()
}

/// Whether two strings hold the same text.
pub fn same(a: &str, b: &str) -> (equal: bool)
    ensures
        equal == (a@ == b@),
{
    let x = a.as_bytes();
    let y = b.as_bytes();
    if x.len() != y.len() {
        return false;
    }
    let mut i: usize = 0;
    while i < x.len()
        invariant
            i <= x.len(),
            x.len() == y.len(),
            x@ == a.spec_bytes(),
            y@ == b.spec_bytes(),
            forall|j: int| 0 <= j < i ==> x@[j] == y@[j],
        decreases x.len() - i,
    {
        if x[i] != y[i] {
            return false;
        }
        i += 1;
    }
    proof {
        assert(x@ =~= y@);
        lemma_same_bytes_same_text(a@, b@);
    }
    true
}

/// The text after its first character.
pub fn skip_char<'t>(text: &'t str) -> (tail: &'t str)
    requires
        text@.len() > 0,
    ensures
        tail@ == text@.drop_first(),
{
    broadcast use encode_utf8_valid_utf8, encode_utf8_decode_utf8;

    let ghost bytes = text.spec_bytes();
    let ghost width = length_of_first_scalar(bytes);
    proof {
        encode_utf8_first_scalar(text@);
        reveal_with_fuel(is_char_boundary, 2);
        assert(1 <= width <= bytes.len());
        assert(is_char_boundary(bytes, width));
        assert(forall|i: int| 0 < i < width ==> !is_char_boundary(bytes, i));
    }
    let len = byte_len(text);
    let mut n: usize = 1;
    while n < len && !text.is_char_boundary(n)
        invariant
            1 <= n <= width <= bytes.len() == len,
            bytes == text.spec_bytes(),
            valid_utf8(bytes),
            is_char_boundary(bytes, width),
            forall|i: int| 0 < i < width ==> !is_char_boundary(bytes, i),
        decreases len - n,
    {
        n += 1;
    }
    let (_, tail) = text.split_at(n);
    proof {
        assert(n == width);
        assert(tail.spec_bytes() =~= pop_first_scalar(bytes));
        assert(decode_utf8(bytes) == text@);
        assert(decode_utf8(tail.spec_bytes()) == tail@);
        assert(text@.drop_first() =~= decode_utf8(pop_first_scalar(bytes)));
    }
    tail
}

} // verus!
