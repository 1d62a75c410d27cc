//! Small helpers for walking and building strings: every public contract of
//! the library speaks about `Seq<char>` views, and these helpers move between
//! `String`/`&str` values and their character sequences.

use vstd::prelude::*;
use vstd::string::StrSliceExecFns;

verus! {

/// `p` is an initial segment of `s`.
pub open spec fn starts_with(s: Seq<char>, p: Seq<char>) -> bool {
    p.len() <= s.len() && s.take(p.len() as int) == p
}

/// Splitting a prefix: when `a + b` starts `s`, then `a` starts `s` and `b`
/// starts what is left of `s` after `a`.
pub proof fn lemma_starts_with_parts(s: Seq<char>, a: Seq<char>, b: Seq<char>)
    requires
        starts_with(s, a + b),
    ensures
        starts_with(s, a),
        starts_with(s.skip(a.len() as int), b),
{
    assert(s.take(a.len() as int) =~= a) by {
        assert forall|m: int| 0 <= m < a.len() implies s.take(a.len() as int)[m] == a[m] by {
            assert(s.take((a + b).len() as int)[m] == (a + b)[m]);
        }
    }
    assert(s.skip(a.len() as int).take(b.len() as int) =~= b) by {
        assert forall|m: int| 0 <= m < b.len() implies s.skip(a.len() as int).take(
            b.len() as int,
        )[m] == b[m] by {
            assert(s.take((a + b).len() as int)[a.len() + m] == (a + b)[a.len() + m]);
        }
    }
}

/// A prefix fixes the characters it covers.
pub proof fn lemma_starts_with_index(s: Seq<char>, p: Seq<char>, m: int)
    requires
        starts_with(s, p),
        0 <= m < p.len(),
    ensures
        s[m] == p[m],
{
    assert(s.take(p.len() as int)[m] == p[m]);
}

/// A prefix of what is left of `s` after `i`, read as a slice of `s` itself.
pub proof fn lemma_starts_with_subrange(s: Seq<char>, i: int, p: Seq<char>)
    requires
        0 <= i,
        i + p.len() <= s.len(),
        starts_with(s.skip(i), p),
    ensures
        s.subrange(i, i + p.len()) == p,
{
    assert(s.subrange(i, i + p.len()) =~= p) by {
        assert forall|m: int| 0 <= m < p.len() implies s.subrange(i, i + p.len())[m] == p[m] by {
            assert(s.skip(i).take(p.len() as int)[m] == p[m]);
        }
    }
}

/// Relies on `String::push`: it appends exactly the one given character at
/// the end of the string.
#[verifier::external_body]
pub(crate) fn push_char(s: &mut String, c: char)
    ensures
        final(s)@ == old(s)@.push(c),
{
    s.push(c);
}

/// Builds the string whose characters are exactly those of `v`.
pub fn string_of_chars(v: &Vec<char>) -> (s: String)
    ensures
        s@ == v@,
{
    let mut s = String::new();
    let mut i: usize = 0;
    while i < v.len()
        invariant
            i <= v@.len(),
            s@ == v@.take(i as int),
        decreases v@.len() - i,
    {
        push_char(&mut s, v[i]);
        i = i + 1;
        proof {
            assert(s@ =~= v@.take(i as int));
        }
    }
    proof {
        assert(v@.take(v@.len() as int) =~= v@);
    }
    s
}

/// Collects the characters of `s` into a vector.
pub fn chars_of(s: &str) -> (v: Vec<char>)
    ensures
        v@ == s@,
{
    let n = s.unicode_len();
    let mut v: Vec<char> = Vec::new();
    let mut i: usize = 0;
    while i < n
        invariant
            i <= n,
            n == s@.len(),
            v@ == s@.take(i as int),
        decreases n - i,
    {
        let c = s.get_char(i);
        v.push(c);
        i = i + 1;
        proof {
            assert(v@ =~= s@.take(i as int));
        }
    }
    proof {
        assert(s@.take(n as int) =~= s@);
    }
    v
}

} // verus!
