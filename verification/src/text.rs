//! Splitting strings at characters, stated over their characters and computed
//! on their bytes.
use vstd::prelude::*;
use vstd::string::*;
use vstd::utf8::*;

verus! {

/// The parts of `s` before and after the first `c` in it, if there is one.
pub open spec fn split_first(s: Seq<char>, c: char) -> Option<(Seq<char>, Seq<char>)> {
    match s.index_of_first(c) {
        Some(i) => Some((s.take(i), s.skip(i + 1))),
        None => None,
    }
}

/// `split_first` finds the two parts that surround a `c` when the first part
/// is free of `c`.
pub proof fn lemma_split_first_of_parts(before: Seq<char>, c: char, after: Seq<char>)
    requires
        !before.contains(c),
    ensures
        split_first(before + seq![c] + after, c) == Some((before, after)),
{
    let s = before + seq![c] + after;
    s.index_of_first_ensures(c);
    assert(s[before.len() as int] == c);
    let i = s.index_of_first(c).unwrap();
    assert(i == before.len()) by {
        if i < before.len() {
            assert(before[i] == c);
        }
    }
    assert(s.take(i) =~= before);
    assert(s.skip(i + 1) =~= after);
}

/// What `split_first` finds are the parts around the first `c`.
pub proof fn lemma_split_first(s: Seq<char>, c: char)
    ensures
        match split_first(s, c) {
            Some((before, after)) => s == before + seq![c] + after && !before.contains(c),
            None => !s.contains(c),
        },
        split_first(s, c) is Some <==> s.contains(c),
{
    s.index_of_first_ensures(c);
    if let Some(i) = s.index_of_first(c) {
        assert(s =~= s.take(i) + seq![c] + s.skip(i + 1));
    }
}

/// The encoding of two strings in a row is their encodings in a row.
pub proof fn lemma_encode_concat(a: Seq<char>, b: Seq<char>)
    ensures
        encode_utf8(a + b) == encode_utf8(a) + encode_utf8(b),
    decreases a.len(),
{
    if a.len() == 0 {
        assert(a + b =~= b);
    } else {
        lemma_encode_concat(a.drop_first(), b);
        assert((a + b).drop_first() =~= a.drop_first() + b);
    }
}

/// Strings with the same encoding are the same.
proof fn lemma_encode_injective(a: Seq<char>, b: Seq<char>)
    requires
        encode_utf8(a) == encode_utf8(b),
    ensures
        a == b,
{
    encode_utf8_decode_utf8(a);
    encode_utf8_decode_utf8(b);
}

/// The end of a prefix's encoding is a character boundary.
proof fn lemma_boundary_after_prefix(a: Seq<char>, b: Seq<char>)
    ensures
        is_char_boundary(encode_utf8(a + b), encode_utf8(a).len() as int),
    decreases a.len(),
{
    let bytes = encode_utf8(a + b);
    encode_utf8_valid_utf8(a + b);
    if a.len() > 0 {
        lemma_encode_concat(a, b);
        encode_utf8_first_scalar(a + b);
        assert((a + b).drop_first() =~= a.drop_first() + b);
        assert(pop_first_scalar(bytes) =~= encode_utf8(a.drop_first() + b));
        lemma_boundary_after_prefix(a.drop_first(), b);
    }
}

/// An ASCII character of a string is a byte of its encoding.
proof fn lemma_ascii_char_is_encoded(chars: Seq<char>, c: char)
    requires
        chars.contains(c),
        (c as u32) < 0x80,
    ensures
        encode_utf8(chars).contains(c as u8),
    decreases chars.len(),
{
    let head = encode_scalar(chars[0] as u32);
    let tail = encode_utf8(chars.drop_first());
    let i = choose|i: int| 0 <= i < chars.len() && chars[i] == c;
    if i == 0 {
        let u = c as u32;
        assert(u & 0x7f == u) by (bit_vector)
            requires
                u < 0x80,
        ;
        assert((head + tail)[0] == c as u8);
    } else {
        assert(chars.drop_first()[i - 1] == c);
        lemma_ascii_char_is_encoded(chars.drop_first(), c);
        let j = choose|j: int| 0 <= j < tail.len() && tail[j] == c as u8;
        assert((head + tail)[head.len() + j] == c as u8);
    }
}

/// Whether two strings are the same.
pub fn str_eq(a: &str, b: &str) -> (r: bool)
    ensures
        r == (a@ == b@),
{
    let x = a.as_bytes();
    let y = b.as_bytes();
    if x.len() != y.len() {
        return false;
    }
    let mut i: usize = 0;
    while i < x.len()
        invariant
            x@ == a.spec_bytes(),
            y@ == b.spec_bytes(),
            x@.len() == y@.len(),
            i <= x@.len(),
            forall|j: int| 0 <= j < i ==> x@[j] == y@[j],
        decreases x@.len() - i,
    {
        if x[i] != y[i] {
            return false;
        }
        i += 1;
    }
    proof {
        assert(x@ =~= y@);
        lemma_encode_injective(a@, b@);
    }
    true
}

/// Splits `s` after the prefix `a`, given the length of `a` in bytes.
pub(crate) fn split_after<'a>(
    s: &'a str,
    mid: usize,
    a: Ghost<Seq<char>>,
    b: Ghost<Seq<char>>,
) -> (r: (&'a str, &'a str))
    requires
        s@ == a@ + b@,
        mid == encode_utf8(a@).len(),
    ensures
        r.0@ == a@,
        r.1@ == b@,
{
    proof {
        lemma_boundary_after_prefix(a@, b@);
        lemma_encode_concat(a@, b@);
    }
    let r = s.split_at(mid);
    proof {
        assert(r.0.spec_bytes() =~= encode_utf8(a@));
        assert(r.1.spec_bytes() =~= encode_utf8(b@));
        lemma_encode_injective(r.0@, a@);
        lemma_encode_injective(r.1@, b@);
    }
    r
}

/// Splits `s` around the first `sep`, an ASCII character.
pub fn split_once(s: &str, sep: char) -> (r: Option<(&str, &str)>)
    requires
        (sep as u32) < 0x80,
    ensures
        match r {
            Some((before, after)) => split_first(s@, sep) == Some((before@, after@)),
            None => split_first(s@, sep) is None,
        },
{
    let byte: u8 = sep as u8;
    let bytes = s.as_bytes();
    let mut i: usize = 0;
    while i < bytes.len()
        invariant
            byte < 0x80,
            sep == byte as char,
            bytes@ == s.spec_bytes(),
            i <= bytes@.len(),
            forall|j: int| 0 <= j < i ==> bytes@[j] != byte,
        decreases bytes@.len() - i,
    {
        if bytes[i] == byte {
            proof {
                encode_utf8_valid_utf8(s@);
                is_char_boundary_iff_not_is_continuation_byte(bytes@, i as int);
            }
            let (before, rest) = s.split_at(i);
            proof {
                decode_utf8_split(bytes@, i as int);
                encode_utf8_decode_utf8(s@);
                encode_utf8_decode_utf8(before@);
                encode_utf8_decode_utf8(rest@);
                assert(s@ == before@ + rest@);
                if before@.contains(sep) {
                    lemma_ascii_char_is_encoded(before@, sep);
                }
                assert(rest.spec_bytes()[0] == byte);
                encode_utf8_valid_utf8(rest@);
                assert(byte & 0x7f == byte) by (bit_vector)
                    requires
                        byte < 0x80,
                ;
                assert(rest@[0] == sep);
                assert(rest@ =~= seq![sep] + rest@.skip(1));
                assert(encode_utf8(seq![sep]).len() == 1) by {
                    reveal_with_fuel(encode_utf8, 2);
                }
            }
            let ghost head = seq![sep];
            let ghost tail = rest@.skip(1);
            let (_, after) = split_after(rest, 1, Ghost(head), Ghost(tail));
            proof {
                assert(s@ =~= before@ + seq![sep] + after@);
                lemma_split_first_of_parts(before@, sep, after@);
            }
            return Some((before, after));
        }
        i += 1;
    }
    proof {
        s@.index_of_first_ensures(sep);
        if s@.contains(sep) {
            lemma_ascii_char_is_encoded(s@, sep);
        }
    }
    None
}

} // verus!
