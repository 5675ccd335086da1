//! Helpers on command tokens: comparing without regard to ASCII case, and
//! joining with spaces.
use vstd::prelude::*;
use vstd::string::{StrSliceExecFns, StringExecFns};

verus! {

/// The code of `c`, with an ASCII capital letter taken as its small letter.
pub open spec fn folded(c: char) -> u32 {
    if 0x41 <= c as u32 <= 0x5a {
        (c as u32 + 0x20) as u32
    } else {
        c as u32
    }
}

/// Whether `a` and `b` are the same text but for the case of ASCII letters.
pub open spec fn same_ignoring_case(a: Seq<char>, b: Seq<char>) -> bool {
    &&& a.len() == b.len()
    &&& forall|i: int| 0 <= i < a.len() ==> folded(a[i]) == folded(b[i])
}

/// The texts of `words`, one for one.
pub open spec fn texts(words: Seq<String>) -> Seq<Seq<char>> {
    Seq::new(words.len(), |i: int| words[i]@)
}

/// The texts of `words` in order, with one space between neighbours.
pub open spec fn joined(words: Seq<Seq<char>>) -> Seq<char>
    decreases words.len(),
{
    if words.len() == 0 {
        Seq::empty()
    } else if words.len() == 1 {
        words[0]
    } else {
        joined(words.drop_last()) + seq![' '] + words.last()
    }
}

fn fold(c: char) -> (r: u32)
    ensures
        r == folded(c),
{
    let code = c as u32;
    if 0x41 <= code && code <= 0x5a {
        code + 0x20
    } else {
        code
    }
}

/// Compares `a` and `b` without regard to the case of ASCII letters.
pub fn eq_ignore_case(a: &str, b: &str) -> (r: bool)
    ensures
        r == same_ignoring_case(a@, b@),
{
    let n = a.unicode_len();
    if n != b.unicode_len() {
        return false;
    }
    let mut i: usize = 0;
    while i < n
        invariant
            i <= n,
            n == a@.len(),
            n == b@.len(),
            forall|j: int| 0 <= j < i ==> folded(a@[j]) == folded(b@[j]),
        decreases n - i,
    {
        if fold(a.get_char(i)) != fold(b.get_char(i)) {
            return false;
        }
        i = i + 1;
    }
    true
}

/// Joins `words` with single spaces.
pub fn join_words(words: &Vec<String>) -> (r: String)
    ensures
        r@ == joined(texts(words@)),
{
    let mut out = String::new();
    let mut i: usize = 0;
    while i < words.len()
        invariant
            i <= words.len(),
            out@ == joined(texts(words@).take(i as int)),
        decreases words.len() - i,
    {
        if i > 0 {
            out.append(" ");
        }
        out.append(words[i].as_str());
        proof {
            reveal_strlit(" ");
            let longer = texts(words@).take(i + 1);
            assert(longer.drop_last() =~= texts(words@).take(i as int));
            assert(longer.last() == words[i as int]@);
            if i > 0 {
                assert(" "@ =~= seq![' ']);
            } else {
                assert(joined(longer.drop_last()) =~= Seq::<char>::empty());
                assert(out@ =~= longer[0]);
            }
        }
        i = i + 1;
    }
    assert(texts(words@).take(i as int) =~= texts(words@));
    out
}

} // verus!
