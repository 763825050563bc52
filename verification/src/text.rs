//! UTF-16 encoding of character data.
//!
//! The linear offset space counts UTF-16 code units, so text handed to the
//! library as a string is first encoded: one code unit for characters below
//! `0x10000`, a surrogate pair for the rest.

use vstd::prelude::*;
use vstd::string::StrSliceExecFns;

verus! {

/// The UTF-16 code units of one character.
pub open spec fn utf16_of_char(c: char) -> Seq<u16> {
    let u = c as u32;
    if u < 0x10000 {
        seq![u as u16]
    } else {
        seq![
            (0xD800 + ((u - 0x10000) / 0x400)) as u16,
            (0xDC00 + ((u - 0x10000) % 0x400)) as u16,
        ]
    }
}

/// The UTF-16 encoding of a character sequence.
pub open spec fn utf16_encode(s: Seq<char>) -> Seq<u16>
    decreases s.len(),
{
    if s.len() == 0 {
        Seq::empty()
    } else {
        utf16_of_char(s[0]) + utf16_encode(s.skip(1))
    }
}

/// Appending one character appends its code units.
proof fn lemma_utf16_encode_push(s: Seq<char>, c: char)
    ensures
        utf16_encode(s.push(c)) == utf16_encode(s) + utf16_of_char(c),
    decreases s.len(),
{
    if s.len() == 0 {
        assert(s.push(c).skip(1) =~= Seq::<char>::empty());
        assert(s.push(c)[0] == c);
        assert(utf16_encode(s.push(c)) == utf16_of_char(c) + utf16_encode(Seq::<char>::empty()));
        assert(utf16_of_char(c) + Seq::<u16>::empty() =~= utf16_of_char(c));
        assert(utf16_encode(s) == Seq::<u16>::empty());
        assert(Seq::<u16>::empty() + utf16_of_char(c) =~= utf16_of_char(c));
    } else {
        assert(s.push(c).skip(1) =~= s.skip(1).push(c));
        assert(s.push(c)[0] == s[0]);
        assert(utf16_encode(s.push(c)) == utf16_of_char(s[0]) + utf16_encode(s.skip(1).push(c)));
        lemma_utf16_encode_push(s.skip(1), c);
        assert(utf16_encode(s) == utf16_of_char(s[0]) + utf16_encode(s.skip(1)));
        assert(utf16_of_char(s[0]) + (utf16_encode(s.skip(1)) + utf16_of_char(c)) =~= (
        utf16_of_char(s[0]) + utf16_encode(s.skip(1))) + utf16_of_char(c));
    }
}

/// Encode a string as UTF-16 code units.
pub fn encode_utf16(s: &str) -> (r: Vec<u16>)
    ensures
        r@ == utf16_encode(s@),
{
    let n = s.unicode_len();
    let mut r: Vec<u16> = Vec::new();
    let mut i: usize = 0;
    while i < n
        invariant
            n == s@.len(),
            i <= n,
            r@ == utf16_encode(s@.take(i as int)),
        decreases n - i,
    {
        let c = s.get_char(i);
        proof {
            assert(s@.take(i + 1) =~= s@.take(i as int).push(s@[i as int]));
            lemma_utf16_encode_push(s@.take(i as int), s@[i as int]);
        }
        let u = c as u32;
        if u < 0x10000 {
            r.push(u as u16);
            assert(r@ =~= utf16_encode(s@.take(i + 1)));
        } else {
            let v = u - 0x10000;
            r.push((0xD800 + v / 0x400) as u16);
            r.push((0xDC00 + v % 0x400) as u16);
            assert(r@ =~= utf16_encode(s@.take(i + 1)));
        }
        i = i + 1;
    }
    proof {
        assert(s@.take(n as int) =~= s@);
    }
    r
}

} // verus!
