use vstd::prelude::*;

verus! {

/// The eight symbols of the source language.
pub open spec fn is_token(c: char) -> bool {
    c == '>' || c == '<' || c == '+' || c == '-' || c == ',' || c == '.' || c == '[' || c == ']'
}

/// Whether `c` is one of the eight symbols of the source language.
pub fn is_valid_bf_token(c: &char) -> (r: bool)
    ensures
        r == is_token(*c),
{
    let c = *c;
    c == '>' || c == '<' || c == '+' || c == '-' || c == ',' || c == '.' || c == '[' || c == ']'
}

/// The symbols of `src`, in order, with every other character dropped.
pub fn tokenize(src: &str) -> (r: Vec<char>)
    ensures
        r@ == src@.filter(|c: char| is_token(c)),
{
    let mut out: Vec<char> = Vec::new();
    let ghost mut seen: Seq<char> = Seq::empty();
    for c in it: src.chars()
        invariant
            seen == it.seq().take(it.index() as int),
            out@ == seen.filter(|c: char| is_token(c)),
            it.seq() == src@,
    {
        proof {
            reveal(Seq::filter);
            let next = seen.push(c);
            assert(next.drop_last() =~= seen);
            seen = next;
        }
        if is_valid_bf_token(&c) {
            out.push(c);
        }
        assert(seen =~= it.seq().take(it.index() as int + 1));
    }
    assert(seen =~= src@);
    out
}

} // verus!
