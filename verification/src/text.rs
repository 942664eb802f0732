//! Conversions between strings and sequences of symbols.

use vstd::prelude::*;

verus! {

/// The symbols of a string, in order.
pub fn symbols_of(s: &str) -> (v: Vec<char>)
    ensures
        v@ == s@,
{
    let mut v: Vec<char> = Vec::new();
    for c in it: s.chars()
        invariant
            v@ == it.seq().take(it.index()),
            it.seq() == s@,
    {
        v.push(c);
    }
    v
}

/// `String::push` appends one symbol to the end of the string and leaves the
/// symbols before it as they were.
pub assume_specification[ String::push ](s: &mut String, ch: char)
    ensures
        final(s)@ == old(s)@.push(ch),
;

/// The string that holds the symbols of `v` from the last to the first.
pub fn reversed_string(v: &Vec<char>) -> (s: String)
    ensures
        s@ == v@.reverse(),
{
    let mut s = String::new();
    let mut k: usize = v.len();
    while k > 0
        invariant
            k <= v@.len(),
            s@.len() == v@.len() - k,
            forall|t: int| 0 <= t < s@.len() ==> s@[t] == v@[v@.len() - 1 - t],
        decreases k,
    {
        k = k - 1;
        s.push(v[k]);
    }
    assert(s@ =~= v@.reverse());
    s
}

} // verus!
