//! Verified helpers over strings viewed as sequences of characters:
//! equality, prefix tests, and whitespace trimming.

use vstd::prelude::*;

verus! {

/// The Unicode `White_Space` characters, the set `str::trim` removes.
pub open spec fn is_space_char(c: char) -> bool {
    c == ' ' || c == '\t' || c == '\n' || c == '\r' || c == '\u{000B}' || c == '\u{000C}'
        || c == '\u{0085}' || c == '\u{00A0}' || c == '\u{1680}'
        || ('\u{2000}' <= c && c <= '\u{200A}')
        || c == '\u{2028}' || c == '\u{2029}' || c == '\u{202F}' || c == '\u{205F}'
        || c == '\u{3000}'
}

/// Whether `c` is whitespace, per [`is_space_char`].
pub fn is_space(c: char) -> (r: bool)
    ensures
        r == is_space_char(c),
{
    c == ' ' || c == '\t' || c == '\n' || c == '\r' || c == '\u{000B}' || c == '\u{000C}'
        || c == '\u{0085}' || c == '\u{00A0}' || c == '\u{1680}'
        || ('\u{2000}' <= c && c <= '\u{200A}')
        || c == '\u{2028}' || c == '\u{2029}' || c == '\u{202F}' || c == '\u{205F}'
        || c == '\u{3000}'
}

/// `s` without its leading whitespace.
pub open spec fn spec_trim_front(s: Seq<char>) -> Seq<char>
    decreases s.len(),
{
    if s.len() == 0 {
        s
    } else if is_space_char(s[0]) {
        spec_trim_front(s.drop_first())
    } else {
        s
    }
}

/// `s` without its trailing whitespace.
pub open spec fn spec_trim_back(s: Seq<char>) -> Seq<char>
    decreases s.len(),
{
    if s.len() == 0 {
        s
    } else if is_space_char(s[s.len() - 1]) {
        spec_trim_back(s.drop_last())
    } else {
        s
    }
}

/// `s` without leading and trailing whitespace, as `str::trim` leaves it.
pub open spec fn spec_trim(s: Seq<char>) -> Seq<char> {
    spec_trim_back(spec_trim_front(s))
}

proof fn lemma_trim_front_suffix(s: Seq<char>, i: int)
    requires
        0 <= i <= s.len(),
        forall|k: int| 0 <= k < i ==> is_space_char(s[k]),
        i < s.len() ==> !is_space_char(s[i]),
    ensures
        spec_trim_front(s) == s.skip(i),
    decreases i,
{
    if i == 0 {
        assert(s.skip(0) =~= s);
        if s.len() != 0 {
            assert(!is_space_char(s[0]));
        }
    } else {
        assert(is_space_char(s[0]));
        let t = s.drop_first();
        assert(t =~= s.skip(1));
        lemma_trim_front_suffix(t, i - 1);
        assert(t.skip(i - 1) =~= s.skip(i));
    }
}

proof fn lemma_trim_back_prefix(s: Seq<char>, j: int)
    requires
        0 <= j <= s.len(),
        forall|k: int| j <= k < s.len() ==> is_space_char(s[k]),
        j > 0 ==> !is_space_char(s[j - 1]),
    ensures
        spec_trim_back(s) == s.take(j),
    decreases s.len(),
{
    if s.len() == j {
        assert(s.take(j) =~= s);
        if j > 0 {
            assert(!is_space_char(s[s.len() - 1]));
        }
    } else {
        assert(is_space_char(s[s.len() - 1]));
        let t = s.drop_last();
        assert(t =~= s.take(s.len() - 1));
        lemma_trim_back_prefix(t, j);
        assert(t.take(j) =~= s.take(j));
    }
}

/// `str::trim`, verified against [`spec_trim`].
pub fn trim_str(s: &str) -> (r: String)
    ensures
        r@ == spec_trim(s@),
{
    let n = s.unicode_len();
    let mut i: usize = 0;
    while i < n && is_space(s.get_char(i))
        invariant
            0 <= i <= n,
            n == s@.len(),
            forall|k: int| 0 <= k < i ==> is_space_char(s@[k]),
        decreases n - i,
    {
        i = i + 1;
    }
    proof {
        lemma_trim_front_suffix(s@, i as int);
    }
    let mut j: usize = n;
    while j > i && is_space(s.get_char(j - 1))
        invariant
            i <= j <= n,
            n == s@.len(),
            forall|k: int| j <= k < n ==> is_space_char(s@[k]),
            spec_trim_front(s@) == s@.skip(i as int),
            i < n ==> !is_space_char(s@[i as int]),
        decreases j,
    {
        j = j - 1;
    }
    proof {
        let f = s@.skip(i as int);
        assert(forall|k: int| j - i <= k < f.len() ==> is_space_char(f[k]));
        if j > i {
            assert(f[j - i - 1] == s@[j - 1]);
        }
        lemma_trim_back_prefix(f, j - i);
        assert(f.take(j - i) =~= s@.subrange(i as int, j as int));
    }
    let out = s.substring_char(i, j);
    out.to_owned()
}

/// Whether two strings hold the same characters.
pub fn str_eq(a: &str, b: &str) -> (r: bool)
    ensures
        r == (a@ == b@),
{
    let na = a.unicode_len();
    let nb = b.unicode_len();
    if na != nb {
        assert(a@ != b@);
        return false;
    }
    let mut i: usize = 0;
    while i < na
        invariant
            0 <= i <= na,
            na == a@.len(),
            na == b@.len(),
            forall|k: int| 0 <= k < i ==> a@[k] == b@[k],
        decreases na - i,
    {
        if a.get_char(i) != b.get_char(i) {
            assert(a@[i as int] != b@[i as int]);
            return false;
        }
        i = i + 1;
    }
    proof {
        assert(a@ =~= b@);
    }
    true
}

/// Whether `p` is a prefix of `s`.
pub open spec fn spec_starts_with(s: Seq<char>, p: Seq<char>) -> bool {
    p.len() <= s.len() && s.take(p.len() as int) == p
}

/// Whether `s` begins with the characters of `p`.
pub fn starts_with_str(s: &str, p: &str) -> (r: bool)
    ensures
        r == spec_starts_with(s@, p@),
{
    let ns = s.unicode_len();
    let np = p.unicode_len();
    if np > ns {
        assert(!spec_starts_with(s@, p@));
        return false;
    }
    let mut i: usize = 0;
    while i < np
        invariant
            0 <= i <= np,
            ns == s@.len(),
            np == p@.len(),
            np <= ns,
            forall|k: int| 0 <= k < i ==> s@[k] == p@[k],
        decreases np - i,
    {
        if s.get_char(i) != p.get_char(i) {
            assert(s@.take(np as int)[i as int] != p@[i as int]);
            return false;
        }
        i = i + 1;
    }
    proof {
        assert(s@.take(np as int) =~= p@);
    }
    true
}

} // verus!
