//! Strings built from and taken apart into characters.
use vstd::prelude::*;

verus! {

/// `String::push` of the standard library: it appends the given character to
/// the end of the string and changes nothing else.
pub assume_specification[ String::push ](s: &mut String, ch: char)
    ensures
        final(s)@ == old(s)@.push(ch),
;

/// The string that holds the characters of `chars` from `from` up to `to`.
pub fn string_of(chars: &Vec<char>, from: usize, to: usize) -> (s: String)
    requires
        from <= to <= chars.len(),
    ensures
        s@ == chars@.subrange(from as int, to as int),
{
    let mut s = String::new();
    let mut i: usize = from;
    while i < to
        invariant
            from <= i <= to <= chars.len(),
            s@ == chars@.subrange(from as int, i as int),
        decreases to - i,
    {
        s.push(chars[i]);
        proof {
            assert(chars@.subrange(from as int, i + 1) =~= chars@.subrange(
                from as int,
                i as int,
            ).push(chars@[i as int]));
        }
        i += 1;
    }
    s
}

/// The characters of a string.
pub fn chars_of(s: &str) -> (v: Vec<char>)
    ensures
        v@ == s@,
{
    let mut v: Vec<char> = Vec::new();
    for c in it: s.chars()
        invariant
            it.seq() == s@,
            v@ == it.seq().take(it.index() as int),
    {
        v.push(c);
        proof {
            assert(it.seq().take(it.index() + 1) =~= it.seq().take(it.index() as int).push(c));
        }
    }
    proof {
        assert(s@.take(s@.len() as int) =~= s@);
    }
    v
}

} // verus!
