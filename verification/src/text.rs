//! Shared text helpers: character extraction from strings and the
//! concatenation of character sequences.

use crate::occurrence::key_seq;
use vstd::prelude::*;

verus! {

/// Concatenation of a sequence of character sequences, in order.
pub open spec fn concat_all(ss: Seq<Seq<char>>) -> Seq<char>
    decreases ss.len(),
{
    if ss.len() == 0 {
        Seq::empty()
    } else {
        concat_all(ss.drop_last()) + ss.last()
    }
}

/// Concatenates a list of text parts into one string, such as the line
/// fragments of one transcript block.
pub fn concat_strings(parts: &Vec<String>) -> (r: String)
    ensures
        r@ == concat_all(key_seq(parts@)),
{
    let mut r = String::new();
    let n = parts.len();
    proof {
        assert(key_seq(parts@.subrange(0, 0)) =~= Seq::<Seq<char>>::empty());
        assert(r@ =~= concat_all(key_seq(parts@.subrange(0, 0))));
    }
    for i in 0..n
        invariant
            n == parts@.len(),
            r@ == concat_all(key_seq(parts@.subrange(0, i as int))),
    {
        r.append(parts[i].as_str());
        proof {
            let prev = key_seq(parts@.subrange(0, i as int));
            let cur = key_seq(parts@.subrange(0, i + 1));
            assert(cur.drop_last() =~= prev);
            assert(cur.last() == parts@[i as int]@);
        }
    }
    proof {
        assert(parts@.subrange(0, n as int) =~= parts@);
    }
    r
}

/// Relies on String::push: appends the given character to the end of the
/// string.
#[verifier::external_body]
pub(crate) fn push_char(s: &mut String, c: char)
    ensures
        final(s)@ == old(s)@.push(c),
{
    s.push(c);
}

/// Relies on char::from_u32, which returns a character for every value
/// outside the surrogate range and at most 0x10FFFF; such values are
/// exactly the Unicode scalars.
#[verifier::external_body]
pub(crate) fn char_from_u32(u: u32) -> (c: char)
    requires
        vstd::utf8::is_scalar(u),
    ensures
        c as u32 == u,
{
    char::from_u32(u).unwrap()
}

/// The characters of a string, in order.
pub fn str_to_chars(s: &str) -> (r: Vec<char>)
    ensures
        r@ == s@,
{
    let n = s.unicode_len();
    let mut r: Vec<char> = Vec::new();
    for i in 0..n
        invariant
            n == s@.len(),
            r@ == s@.subrange(0, i as int),
    {
        r.push(s.get_char(i));
        proof {
            assert(r@ =~= s@.subrange(0, i + 1));
        }
    }
    proof {
        assert(s@.subrange(0, n as int) =~= s@);
    }
    r
}

} // verus!
