//! Small operations on text, stated over sequences of characters.

use vstd::prelude::*;
use vstd::string::*;

verus! {

/// `s` with every occurrence of the character `from` replaced by the text
/// `to`.
pub open spec fn replaced(s: Seq<char>, from: char, to: Seq<char>) -> Seq<char>
    decreases s.len(),
{
    if s.len() == 0 {
        s
    } else if s.last() == from {
        replaced(s.drop_last(), from, to) + to
    } else {
        replaced(s.drop_last(), from, to).push(s.last())
    }
}

/// `s` with every occurrence of `pat` removed, reading from the left; what
/// remains is not searched again.
pub open spec fn without(s: Seq<char>, pat: Seq<char>) -> Seq<char>
    decreases s.len(),
{
    if s.len() == 0 {
        s
    } else if pat.len() > 0 && pat.is_prefix_of(s) {
        without(s.skip(pat.len() as int), pat)
    } else {
        seq![s[0]] + without(s.skip(1), pat)
    }
}

/// The pieces of `parts` in order, with `sep` between any two neighbours.
pub open spec fn joined(parts: Seq<Seq<char>>, sep: Seq<char>) -> Seq<char>
    decreases parts.len(),
{
    if parts.len() == 0 {
        Seq::empty()
    } else if parts.len() == 1 {
        parts[0]
    } else {
        joined(parts.drop_last(), sep) + sep + parts.last()
    }
}

/// Tells whether `text` holds `pat` at character position `at`.
pub fn holds_at(text: &str, at: usize, pat: &str) -> (found: bool)
    requires
        at <= text@.len(),
    ensures
        found == pat@.is_prefix_of(text@.skip(at as int)),
{
    let n = text.unicode_len();
    let m = pat.unicode_len();
    if m > n - at {
        return false;
    }
    let mut i: usize = 0;
    while i < m
        invariant
            i <= m,
            m == pat@.len(),
            n == text@.len(),
            at + m <= n,
            forall|j: int| 0 <= j < i ==> pat@[j] == text@[at + j],
        decreases m - i,
    {
        if pat.get_char(i) != text.get_char(at + i) {
            assert(text@.skip(at as int)[i as int] == text@[at + i]);
            return false;
        }
        i += 1;
    }
    assert(pat@ =~= text@.skip(at as int).subrange(0, m as int));
    true
}

/// Tells whether `text` begins with `pat`.
pub fn has_prefix(text: &str, pat: &str) -> (found: bool)
    ensures
        found == pat@.is_prefix_of(text@),
{
    assert(text@.skip(0) =~= text@);
    holds_at(text, 0, pat)
}

/// Tells whether two texts hold the same characters.
pub fn same_text(a: &str, b: &str) -> (same: bool)
    ensures
        same == (a@ == b@),
{
    let n = a.unicode_len();
    if n != b.unicode_len() {
        return false;
    }
    assert(a@.skip(0) =~= a@);
    let found = holds_at(a, 0, b);
    proof {
        if found {
            assert(b@ =~= a@);
        }
    }
    found
}

/// A copy of `text` in which every `from` is replaced by `to`.
pub fn replace_char(text: &str, from: char, to: &str) -> (out: String)
    ensures
        out@ == replaced(text@, from, to@),
{
    let n = text.unicode_len();
    let mut out = String::new();
    let mut i: usize = 0;
    assert(text@.take(0) =~= Seq::<char>::empty());
    while i < n
        invariant
            i <= n,
            n == text@.len(),
            out@ == replaced(text@.take(i as int), from, to@),
        decreases n - i,
    {
        proof {
            assert(text@.take(i + 1).drop_last() =~= text@.take(i as int));
            assert(text@.subrange(i as int, i + 1) =~= seq![text@[i as int]]);
        }
        if text.get_char(i) == from {
            out.append(to);
        } else {
            out.append(text.substring_char(i, i + 1));
        }
        assert(out@ =~= replaced(text@.take(i + 1), from, to@));
        i += 1;
    }
    assert(text@.take(n as int) =~= text@);
    out
}

/// Removing `pat` from a text that holds it in front skips it.
proof fn lemma_without_skips(s: Seq<char>, pat: Seq<char>)
    requires
        pat.len() > 0,
        pat.is_prefix_of(s),
    ensures
        without(s, pat) == without(s.skip(pat.len() as int), pat),
{
}

/// Removing `pat` from a text that does not hold it in front keeps the first
/// character.
proof fn lemma_without_keeps(s: Seq<char>, pat: Seq<char>)
    requires
        s.len() > 0,
        !(pat.len() > 0 && pat.is_prefix_of(s)),
    ensures
        without(s, pat) == seq![s[0]] + without(s.skip(1), pat),
{
}

/// Removing the empty pattern leaves the text as it is.
proof fn lemma_without_nothing(s: Seq<char>)
    ensures
        without(s, Seq::<char>::empty()) == s,
    decreases s.len(),
{
    if s.len() > 0 {
        lemma_without_nothing(s.skip(1));
        assert(seq![s[0]] + s.skip(1) =~= s);
    }
}

/// A copy of `text` from which every occurrence of `pat` is removed, reading
/// from the left; with an empty `pat`, a plain copy.
pub fn remove_all(text: &str, pat: &str) -> (out: String)
    ensures
        out@ == without(text@, pat@),
{
    let n = text.unicode_len();
    let m = pat.unicode_len();
    if m == 0 {
        proof {
            assert(pat@ =~= Seq::<char>::empty());
            lemma_without_nothing(text@);
        }
        return text.to_owned();
    }
    let mut out = String::new();
    let mut i: usize = 0;
    assert(text@.skip(0) =~= text@);
    assert(out@ + without(text@, pat@) =~= without(text@, pat@));
    while i < n
        invariant
            i <= n,
            n == text@.len(),
            m == pat@.len(),
            m > 0,
            out@ + without(text@.skip(i as int), pat@) == without(text@, pat@),
        decreases n - i,
    {
        let ghost rest = text@.skip(i as int);
        if holds_at(text, i, pat) {
            proof {
                lemma_without_skips(rest, pat@);
                assert(rest.skip(m as int) =~= text@.skip(i + m));
            }
            i += m;
        } else {
            let ghost before = out@;
            out.append(text.substring_char(i, i + 1));
            proof {
                lemma_without_keeps(rest, pat@);
                assert(rest.skip(1) =~= text@.skip(i + 1));
                assert(text@.subrange(i as int, i + 1) =~= seq![rest[0]]);
                assert((before + seq![rest[0]]) + without(rest.skip(1), pat@) =~= before + (
                seq![rest[0]] + without(rest.skip(1), pat@)));
            }
            i += 1;
        }
    }
    assert(text@.skip(n as int) =~= Seq::<char>::empty());
    assert(out@ + Seq::<char>::empty() =~= out@);
    out
}

} // verus!
