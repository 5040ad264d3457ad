//! String helpers the package manager needs: splitting `repo:package:version`
//! arguments and `name:version` dependency references on `':'`, ordinal
//! (lexicographic) comparison of version strings, and taking the file name of
//! a `'/'`-separated path.

use vstd::prelude::*;

verus! {

/// Index of the first `':'` in `s`, or `s.len()` if there is none.
pub open spec fn colon_index(s: Seq<char>) -> int
    decreases s.len(),
{
    if s.len() == 0 {
        0
    } else if s[0] == ':' {
        0
    } else {
        1 + colon_index(s.drop_first())
    }
}

pub proof fn lemma_colon_index(s: Seq<char>)
    ensures
        0 <= colon_index(s) <= s.len(),
        colon_index(s) < s.len() ==> s[colon_index(s)] == ':',
        forall|j: int| 0 <= j < colon_index(s) ==> s[j] != ':',
    decreases s.len(),
{
    if s.len() == 0 {
    } else if s[0] == ':' {
    } else {
        lemma_colon_index(s.drop_first());
        assert forall|j: int| 0 <= j < colon_index(s) implies s[j] != ':' by {
            if j > 0 {
                assert(s.drop_first()[j - 1] == s[j]);
            }
        }
    }
}

/// The segments of `s` between its `':'` separators, in order. A string with
/// no `':'` yields one segment, the string itself.
pub open spec fn split_colon(s: Seq<char>) -> Seq<Seq<char>>
    decreases s.len(),
    via split_colon_decreases
{
    if colon_index(s) == s.len() {
        seq![s]
    } else {
        seq![s.take(colon_index(s))] + split_colon(s.skip(colon_index(s) + 1))
    }
}

#[via_fn]
proof fn split_colon_decreases(s: Seq<char>) {
    lemma_colon_index(s);
}

pub proof fn lemma_split_colon_len(s: Seq<char>)
    ensures
        split_colon(s).len() >= 1,
        split_colon(s).len() >= 2 <==> colon_index(s) < s.len(),
{
    lemma_colon_index(s);
    if colon_index(s) < s.len() {
        lemma_split_colon_len_aux(s.skip(colon_index(s) + 1));
    }
}

proof fn lemma_split_colon_len_aux(s: Seq<char>)
    ensures
        split_colon(s).len() >= 1,
{
    lemma_colon_index(s);
}

/// Whether `s` contains no `':'` at all.
pub open spec fn colon_free(s: Seq<char>) -> bool {
    forall|i: int| 0 <= i < s.len() ==> s[i] != ':'
}

/// Strict lexicographic (ordinal) order on character sequences, by code point.
pub open spec fn lex_lt(a: Seq<char>, b: Seq<char>) -> bool
    decreases a.len(),
{
    if b.len() == 0 {
        false
    } else if a.len() == 0 {
        true
    } else if a[0] == b[0] {
        lex_lt(a.drop_first(), b.drop_first())
    } else {
        (a[0] as u32) < (b[0] as u32)
    }
}

/// Everything after the last `'/'` of `s`; `s` itself if it has no `'/'`.
pub open spec fn file_name(s: Seq<char>) -> Seq<char>
    decreases s.len(),
{
    if s.len() == 0 {
        Seq::empty()
    } else if s.last() == '/' {
        Seq::empty()
    } else {
        file_name(s.drop_last()).push(s.last())
    }
}

proof fn lemma_file_name_suffix(s: Seq<char>, k: int)
    requires
        0 <= k <= s.len(),
        forall|j: int| k <= j < s.len() ==> s[j] != '/',
        k > 0 ==> s[k - 1] == '/',
    ensures
        file_name(s) == s.skip(k),
    decreases s.len(),
{
    if k == s.len() {
        if s.len() == 0 {
            assert(file_name(s) =~= s.skip(k));
        } else {
            assert(s.last() == '/');
            assert(file_name(s) =~= s.skip(k));
        }
    } else {
        assert(s.last() != '/');
        lemma_file_name_suffix(s.drop_last(), k);
        assert(s.drop_last().skip(k).push(s.last()) =~= s.skip(k));
    }
}

/// Index of the first `':'` of `s`, or its length if `s` has none.
pub fn find_colon(s: &str) -> (r: usize)
    ensures
        r as int == colon_index(s@),
{
    let n = s.unicode_len();
    let mut i: usize = 0;
    while i < n
        invariant
            0 <= i <= n,
            n == s@.len(),
            forall|j: int| 0 <= j < i ==> s@[j] != ':',
        decreases n - i,
    {
        if s.get_char(i) == ':' {
            proof {
                lemma_colon_index(s@);
            }
            return i;
        }
        i = i + 1;
    }
    proof {
        lemma_colon_index(s@);
    }
    n
}

/// The segments of `s` between its `':'` separators, in order.
pub fn split_colons(s: &str) -> (parts: Vec<String>)
    ensures
        parts.deep_view() == split_colon(s@),
    decreases s@.len(),
{
    let i = find_colon(s);
    let n = s.unicode_len();
    proof {
        lemma_colon_index(s@);
    }
    if i == n {
        let mut parts: Vec<String> = Vec::new();
        parts.push(s.to_owned());
        proof {
            assert(parts.deep_view() =~= split_colon(s@));
        }
        parts
    } else {
        let head = s.substring_char(0, i);
        let tail = s.substring_char(i + 1, n);
        proof {
            assert(head@ =~= s@.take(i as int));
            assert(tail@ =~= s@.skip(i as int + 1));
        }
        let mut parts = split_colons(tail);
        parts.insert(0, head.to_owned());
        proof {
            assert(parts.deep_view() =~= split_colon(s@));
        }
        parts
    }
}

/// Whether `a` comes strictly before `b` in ordinal (lexicographic) order.
pub fn str_lt(a: &str, b: &str) -> (r: bool)
    ensures
        r == lex_lt(a@, b@),
{
    let an = a.unicode_len();
    let bn = b.unicode_len();
    let mut i: usize = 0;
    proof {
        assert(a@.skip(0) =~= a@);
        assert(b@.skip(0) =~= b@);
    }
    while i < an && i < bn
        invariant
            0 <= i <= an,
            0 <= i <= bn,
            an == a@.len(),
            bn == b@.len(),
            lex_lt(a@, b@) == lex_lt(a@.skip(i as int), b@.skip(i as int)),
        decreases an - i,
    {
        let ca = a.get_char(i);
        let cb = b.get_char(i);
        if ca != cb {
            proof {
                assert(a@.skip(i as int)[0] == ca);
                assert(b@.skip(i as int)[0] == cb);
            }
            return (ca as u32) < (cb as u32);
        }
        proof {
            assert(a@.skip(i as int).drop_first() =~= a@.skip(i as int + 1));
            assert(b@.skip(i as int).drop_first() =~= b@.skip(i as int + 1));
            assert(a@.skip(i as int)[0] == b@.skip(i as int)[0]);
        }
        i = i + 1;
    }
    proof {
        assert(a@.skip(i as int).len() == an - i);
        assert(b@.skip(i as int).len() == bn - i);
    }
    i < bn
}

/// Equality of two string slices.
pub fn str_eq(a: &str, b: &str) -> (r: bool)
    ensures
        r == (a@ == b@),
{
    let sa = a.to_owned();
    let sb = b.to_owned();
    sa == sb
}

/// The file name of `path`: everything after its last `'/'`.
pub fn file_part(path: &str) -> (r: String)
    ensures
        r@ == file_name(path@),
{
    let n = path.unicode_len();
    let mut k = n;
    let mut stop = false;
    while k > 0 && !stop
        invariant
            0 <= k <= n,
            n == path@.len(),
            forall|j: int| k <= j < n ==> path@[j] != '/',
            stop ==> k > 0 && path@[k - 1] == '/',
        decreases k, (if stop { 0int } else { 1int }),
    {
        if path.get_char(k - 1) == '/' {
            stop = true;
        } else {
            k = k - 1;
        }
    }
    let tail = path.substring_char(k, n);
    proof {
        assert(tail@ =~= path@.skip(k as int));
        lemma_file_name_suffix(path@, k as int);
    }
    tail.to_owned()
}

} // verus!

