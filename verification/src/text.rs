use vstd::prelude::*;
use vstd::std_specs::iter::IteratorSpec;

verus! {

/// Appends one character to a string (std `String::push`).
#[verifier::external_body]
pub(crate) fn push_char(s: &mut String, c: char)
    ensures
        final(s)@ == old(s)@.push(c),
{
    s.push(c);
}

/// Whether two strings hold the same characters.
pub(crate) fn str_eq(a: &str, b: &str) -> (r: bool)
    ensures
        r == (a@ == b@),
{
    let x = to_chars(a);
    let y = to_chars(b);
    if x.len() != y.len() {
        return false;
    }
    let mut i: usize = 0;
    while i < x.len()
        invariant
            x@ == a@,
            y@ == b@,
            x@.len() == y@.len(),
            i <= x@.len(),
            forall|j: int| 0 <= j < i ==> x@[j] == y@[j],
        decreases x@.len() - i,
    {
        if x[i] != y[i] {
            return false;
        }
        i = i + 1;
    }
    assert(x@ =~= y@);
    true
}

/// The characters of `s`, in order.
pub fn to_chars(s: &str) -> (v: Vec<char>)
    ensures
        v@ == s@,
{
    broadcast use vstd::string::group_string_axioms;
    let mut v: Vec<char> = Vec::new();
    let mut it = s.chars();
    loop
        invariant
            v@ + it.remaining() == s@,
            it.obeys_prophetic_iter_laws(),
            it.decrease() is Some,
        ensures
            v@ == s@,
        decreases it.decrease()->0,
    {
        match it.next() {
            Some(c) => {
                v.push(c);
            },
            None => {
                assert(v@ + it.remaining() =~= v@);
                break;
            },
        }
    }
    v
}

} // verus!

verus! {

/// `s` begins with `p`.
pub open spec fn starts_with(s: Seq<char>, p: Seq<char>) -> bool {
    p.len() <= s.len() && s.take(p.len() as int) =~= p
}

/// `pat` occurs in `s` starting at index `k`.
pub open spec fn occurs_at(s: Seq<char>, pat: Seq<char>, k: int) -> bool {
    0 <= k && k + pat.len() <= s.len() && s.subrange(k, k + pat.len()) =~= pat
}

/// The first index at or after `k` where `pat` occurs in `s`.
pub open spec fn find_from(s: Seq<char>, pat: Seq<char>, k: int) -> Option<int>
    decreases s.len() - k,
{
    if k < 0 || k + pat.len() > s.len() {
        None
    } else if occurs_at(s, pat, k) {
        Some(k)
    } else {
        find_from(s, pat, k + 1)
    }
}

/// The first index where `pat` occurs in `s` (an empty pattern occurs at 0).
pub open spec fn first_occurrence(s: Seq<char>, pat: Seq<char>) -> Option<int> {
    find_from(s, pat, 0)
}

/// `s` with its first occurrence of `pat` replaced by `new` (`str::replacen(pat, new, 1)`).
pub open spec fn replace_first(s: Seq<char>, pat: Seq<char>, new: Seq<char>) -> Seq<char> {
    match first_occurrence(s, pat) {
        Some(k) => s.take(k) + new + s.skip(k + pat.len()),
        None => s,
    }
}

/// What `find_from` returns is an occurrence, and nothing between the start and it is one.
pub proof fn lemma_find_from(s: Seq<char>, pat: Seq<char>, k: int)
    requires
        0 <= k,
    ensures
        find_from(s, pat, k) matches Some(j) ==> k <= j && occurs_at(s, pat, j) && forall|m: int|
            k <= m < j ==> !occurs_at(s, pat, m),
        find_from(s, pat, k) is None ==> forall|m: int| k <= m ==> !occurs_at(s, pat, m),
    decreases s.len() - k,
{
    if k + pat.len() > s.len() {
    } else if occurs_at(s, pat, k) {
    } else {
        lemma_find_from(s, pat, k + 1);
    }
}

/// Replacing the first occurrence of a pattern by itself changes nothing.
pub proof fn lemma_replace_first_self(s: Seq<char>, pat: Seq<char>)
    ensures
        replace_first(s, pat, pat) =~= s,
{
    lemma_find_from(s, pat, 0);
    if let Some(k) = first_occurrence(s, pat) {
        assert(s =~= s.take(k) + s.subrange(k, k + pat.len()) + s.skip(k + pat.len()));
    }
}

/// A string holding exactly the characters `v[from..to]`.
pub fn string_from_chars(v: &Vec<char>, from: usize, to: usize) -> (s: String)
    requires
        from <= to <= v@.len(),
    ensures
        s@ == v@.subrange(from as int, to as int),
{
    let mut s = String::new();
    append_chars(&mut s, v, from, to);
    s
}

/// Appends `v[from..to]` to `s`.
pub fn append_chars(s: &mut String, v: &Vec<char>, from: usize, to: usize)
    requires
        from <= to <= v@.len(),
    ensures
        final(s)@ == old(s)@ + v@.subrange(from as int, to as int),
{
    let ghost start = s@;
    let mut i = from;
    while i < to
        invariant
            from <= i <= to <= v@.len(),
            s@ == start + v@.subrange(from as int, i as int),
        decreases to - i,
    {
        push_char(s, v[i]);
        assert(v@.subrange(from as int, i + 1) =~= v@.subrange(from as int, i as int).push(v@[i as int]));
        i = i + 1;
    }
}

/// Whether `pat` occurs in `s` at index `k`.
pub fn occurs_at_exec(s: &Vec<char>, pat: &Vec<char>, k: usize) -> (b: bool)
    ensures
        b == occurs_at(s@, pat@, k as int),
{
    if pat.len() > s.len() || k > s.len() - pat.len() {
        return false;
    }
    let mut j: usize = 0;
    while j < pat.len()
        invariant
            k + pat@.len() <= s@.len(),
            s@.len() <= usize::MAX,
            j <= pat@.len(),
            forall|m: int| 0 <= m < j ==> s@[k + m] == pat@[m],
        decreases pat@.len() - j,
    {
        if s[k + j] != pat[j] {
            assert(s@.subrange(k as int, k + pat@.len())[j as int] != pat@[j as int]);
            return false;
        }
        j = j + 1;
    }
    assert(s@.subrange(k as int, k + pat@.len()) =~= pat@);
    true
}

/// The first index where `pat` occurs in `s`.
pub fn first_occurrence_exec(s: &Vec<char>, pat: &Vec<char>) -> (r: Option<usize>)
    ensures
        r matches Some(k) ==> first_occurrence(s@, pat@) == Some(k as int),
        r is None ==> first_occurrence(s@, pat@) is None,
{
    if pat.len() > s.len() {
        return None;
    }
    let mut k: usize = 0;
    while k <= s.len() - pat.len()
        invariant
            pat@.len() <= s@.len(),
            k <= s@.len() - pat@.len() + 1,
            find_from(s@, pat@, 0) == find_from(s@, pat@, k as int),
        decreases s@.len() - pat@.len() + 1 - k,
    {
        if occurs_at_exec(s, pat, k) {
            return Some(k);
        }
        k = k + 1;
    }
    None
}

/// `s` with the first occurrence of `pat` replaced by `new`.
pub fn replace_first_exec(s: &Vec<char>, pat: &Vec<char>, new: &Vec<char>) -> (r: String)
    ensures
        r@ == replace_first(s@, pat@, new@),
{
    match first_occurrence_exec(s, pat) {
        Some(k) => {
            let slen = s.len();
            proof {
                lemma_find_from(s@, pat@, 0);
                assert(occurs_at(s@, pat@, k as int));
            }
            let mut r = string_from_chars(s, 0, k);
            append_chars(&mut r, new, 0, new.len());
            append_chars(&mut r, s, k + pat.len(), slen);
            assert(new@.subrange(0, new@.len() as int) =~= new@);
            r
        },
        None => {
            string_from_chars(s, 0, s.len())
        },
    }
}

/// `line` cut around the first occurrence of `span`: the text before it, the occurrence, and
/// the text after it; `None` where `span` does not occur.
pub fn split_around(line: &str, span: &str) -> (r: Option<(String, String, String)>)
    ensures
        match first_occurrence(line@, span@) {
            Some(k) => r matches Some(parts) && parts.0@ == line@.take(k) && parts.1@ == span@
                && parts.2@ == line@.skip(k + span@.len()),
            None => r is None,
        },
{
    let l = to_chars(line);
    let s = to_chars(span);
    match first_occurrence_exec(&l, &s) {
        Some(k) => {
            let len = l.len();
            proof {
                lemma_find_from(l@, s@, 0);
                assert(occurs_at(l@, s@, k as int));
            }
            let before = string_from_chars(&l, 0, k);
            let middle = string_from_chars(&l, k, k + s.len());
            let after = string_from_chars(&l, k + s.len(), len);
            Some((before, middle, after))
        },
        None => None,
    }
}

} // verus!
