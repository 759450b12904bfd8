//! Shared helpers for reasoning about strings as sequences of characters:
//! whitespace classification, the first position where a predicate holds,
//! trimming, and executable string equality.

use vstd::prelude::*;

verus! {

/// The whitespace characters recognized when trimming requirement lines and
/// splitting guesser output: the ASCII blank and control characters.
pub open spec fn is_space(c: char) -> bool {
    c == ' ' || c == '\t' || c == '\n' || c == '\r' || c == '\u{b}' || c == '\u{c}'
}

/// Executable counterpart of [`is_space`].
pub fn is_space_char(c: char) -> (r: bool)
    ensures
        r == is_space(c),
{
    c == ' ' || c == '\t' || c == '\n' || c == '\r' || c == '\u{b}' || c == '\u{c}'
}

/// Number of leading characters of `s` for which `p` does not hold; `s.len()`
/// when `p` holds nowhere in `s`.
pub open spec fn count_until(s: Seq<char>, p: spec_fn(char) -> bool) -> nat
    decreases s.len(),
{
    if s.len() == 0 {
        0
    } else if p(s[0]) {
        0
    } else {
        1 + count_until(s.drop_first(), p)
    }
}

/// `count_until` never exceeds the length of the sequence.
pub proof fn lemma_count_until_le(s: Seq<char>, p: spec_fn(char) -> bool)
    ensures
        count_until(s, p) <= s.len(),
    decreases s.len(),
{
    if s.len() != 0 && !p(s[0]) {
        lemma_count_until_le(s.drop_first(), p);
    }
}

/// A position `j` before which `p` holds nowhere, and at which `p` holds
/// (unless `j` is the end), is exactly `count_until`.
pub proof fn lemma_count_until_is(s: Seq<char>, p: spec_fn(char) -> bool, j: int)
    requires
        0 <= j <= s.len(),
        forall|k: int| 0 <= k < j ==> !p(s[k]),
        j < s.len() ==> p(s[j]),
    ensures
        count_until(s, p) == j,
    decreases j,
{
    if j > 0 {
        assert(!p(s[0]));
        let t = s.drop_first();
        assert(forall|k: int| 0 <= k < j - 1 ==> t[k] == s[k + 1] && !p(t[k]));
        lemma_count_until_is(t, p, j - 1);
    }
}

/// `s` with its leading whitespace removed.
pub open spec fn trim_left(s: Seq<char>) -> Seq<char>
    decreases s.len(),
{
    if s.len() == 0 {
        s
    } else if is_space(s[0]) {
        trim_left(s.drop_first())
    } else {
        s
    }
}

/// `s` with its trailing whitespace removed.
pub open spec fn trim_right(s: Seq<char>) -> Seq<char>
    decreases s.len(),
{
    if s.len() == 0 {
        s
    } else if is_space(s.last()) {
        trim_right(s.drop_last())
    } else {
        s
    }
}

/// `s` with both leading and trailing whitespace removed.
pub open spec fn trim(s: Seq<char>) -> Seq<char> {
    trim_right(trim_left(s))
}

/// When every character of `s` is whitespace, trimming from the left leaves
/// nothing.
pub proof fn lemma_trim_left_all_space(s: Seq<char>)
    requires
        forall|k: int| 0 <= k < s.len() ==> is_space(s[k]),
    ensures
        trim_left(s).len() == 0,
    decreases s.len(),
{
    if s.len() != 0 {
        let t = s.drop_first();
        assert(forall|k: int| 0 <= k < t.len() ==> t[k] == s[k + 1] && is_space(t[k]));
        lemma_trim_left_all_space(t);
    }
}

/// When the first non-whitespace character of `s` stands at `a`, trimming
/// from the left keeps exactly the suffix from `a`.
pub proof fn lemma_trim_left_at(s: Seq<char>, a: int)
    requires
        0 <= a < s.len(),
        forall|k: int| 0 <= k < a ==> is_space(s[k]),
        !is_space(s[a]),
    ensures
        trim_left(s) == s.subrange(a, s.len() as int),
    decreases a,
{
    if a == 0 {
        assert(s.subrange(0, s.len() as int) =~= s);
    } else {
        let t = s.drop_first();
        assert(forall|k: int| 0 <= k < a - 1 ==> t[k] == s[k + 1] && is_space(t[k]));
        assert(t[a - 1] == s[a]);
        lemma_trim_left_at(t, a - 1);
        assert(t.subrange(a - 1, t.len() as int) =~= s.subrange(a, s.len() as int));
    }
}

/// When the last non-whitespace character of `s` stands at `b - 1`, trimming
/// from the right keeps exactly the prefix up to `b`.
pub proof fn lemma_trim_right_at(s: Seq<char>, b: int)
    requires
        0 < b <= s.len(),
        forall|k: int| b <= k < s.len() ==> is_space(s[k]),
        !is_space(s[b - 1]),
    ensures
        trim_right(s) == s.subrange(0, b),
    decreases s.len(),
{
    if b == s.len() {
        assert(s.subrange(0, b) =~= s);
    } else {
        let t = s.drop_last();
        assert(forall|k: int| b <= k < t.len() ==> t[k] == s[k]);
        lemma_trim_right_at(t, b);
        assert(t.subrange(0, b) =~= s.subrange(0, b));
    }
}

/// The views of a sequence of strings.
pub open spec fn views(items: Seq<String>) -> Seq<Seq<char>> {
    items.map_values(|s: String| s@)
}

/// Character-for-character string comparison.
pub fn str_eq(a: &str, b: &str) -> (r: bool)
    ensures
        r == (a@ == b@),
{
    let a_len = a.unicode_len();
    let b_len = b.unicode_len();
    if a_len != b_len {
        return false;
    }
    let mut i: usize = 0;
    while i < a_len
        invariant
            i <= a_len,
            a_len == a@.len(),
            b_len == b@.len(),
            a_len == b_len,
            forall|k: int| 0 <= k < i ==> a@[k] == b@[k],
        decreases a_len - i,
    {
        if a.get_char(i) != b.get_char(i) {
            return false;
        }
        i += 1;
    }
    proof {
        assert(a@ =~= b@);
    }
    true
}

} // verus!
