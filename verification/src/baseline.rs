//! The baseline requirement set: the packages considered pre-installed.
//!
//! The set is built once, at startup, from two line-delimited source lists —
//! one of packages always installed, one of packages always skipped — and is
//! read-only afterwards. Each line is stripped of everything from the first
//! comment or extras marker on and of surrounding whitespace; blank results
//! are ignored; the two lists are unioned.

use vstd::prelude::*;
use crate::text::{
    count_until, is_space, is_space_char, lemma_count_until_is, lemma_trim_left_all_space,
    lemma_trim_left_at, lemma_trim_right_at, str_eq, trim, views,
};

verus! {

/// A comment or an extras marker begins at `#` or `[`; the rest of the line
/// is not part of the package name.
pub open spec fn is_marker(c: char) -> bool {
    c == '#' || c == '['
}

/// The requirement named by one line of a package list: the text before the
/// first comment or extras marker, trimmed of surrounding whitespace; empty
/// when the line names none.
pub open spec fn cleaned(line: Seq<char>) -> Seq<char> {
    trim(line.subrange(0, count_until(line, |c: char| is_marker(c)) as int))
}

/// Executable counterpart of [`cleaned`].
pub fn clean_line(line: &str) -> (r: String)
    ensures
        r@ == cleaned(line@),
{
    let n = line.unicode_len();
    let mut m: usize = 0;
    let mut found = false;
    while !found && m < n
        invariant
            m <= n,
            n == line@.len(),
            forall|k: int| 0 <= k < m ==> !is_marker(line@[k]),
            found ==> m < n && is_marker(line@[m as int]),
        decreases n - m + (if found { 0int } else { 1int }),
    {
        let c = line.get_char(m);
        if c == '#' || c == '[' {
            found = true;
        } else {
            m += 1;
        }
    }
    proof {
        lemma_count_until_is(line@, |c: char| is_marker(c), m as int);
    }
    let head = line.substring_char(0, m);
    let h_len = m;
    let mut a: usize = 0;
    let mut found_a = false;
    while !found_a && a < h_len
        invariant
            a <= h_len,
            h_len == head@.len(),
            forall|k: int| 0 <= k < a ==> is_space(head@[k]),
            found_a ==> a < h_len && !is_space(head@[a as int]),
        decreases h_len - a + (if found_a { 0int } else { 1int }),
    {
        if !is_space_char(head.get_char(a)) {
            found_a = true;
        } else {
            a += 1;
        }
    }
    if !found_a {
        proof {
            lemma_trim_left_all_space(head@);
            assert(trim(head@) =~= Seq::<char>::empty());
        }
        return String::new();
    }
    let mut b: usize = h_len;
    while is_space_char(head.get_char(b - 1))
        invariant
            a < b <= h_len,
            h_len == head@.len(),
            !is_space(head@[a as int]),
            forall|k: int| b <= k < h_len ==> is_space(head@[k]),
        decreases b,
    {
        b -= 1;
    }
    proof {
        lemma_trim_left_at(head@, a as int);
        let t = head@.subrange(a as int, h_len as int);
        lemma_trim_right_at(t, b - a);
        assert(t.subrange(0, b - a) =~= head@.subrange(a as int, b as int));
    }
    head.substring_char(a, b).to_owned()
}

/// The requirements a package list text names: the cleaned form of each of
/// its newline-separated lines, blank results skipped, in order.
pub open spec fn requirement_seq(text: Seq<char>) -> Seq<Seq<char>>
    decreases text.len(),
{
    let nl = count_until(text, |c: char| c == '\n');
    let line = cleaned(text.subrange(0, nl as int));
    let head: Seq<Seq<char>> = if line.len() == 0 {
        Seq::empty()
    } else {
        seq![line]
    };
    if nl >= text.len() {
        head
    } else {
        head + requirement_seq(text.subrange(nl + 1 as int, text.len() as int))
    }
}

/// The set of requirements a package list text names.
pub open spec fn requirement_names(text: Seq<char>) -> Set<Seq<char>> {
    requirement_seq(text).to_set()
}

/// Executable counterpart of [`requirement_seq`]: the requirements named by
/// one package list text, in order.
pub fn list_requirements(text: &str) -> (r: Vec<String>)
    ensures
        views(r@) == requirement_seq(text@),
{
    let n = text.unicode_len();
    let mut out: Vec<String> = Vec::new();
    let mut start: usize = 0;
    let mut done = false;
    proof {
        assert(text@.subrange(0, n as int) =~= text@);
        assert(views(out@) + requirement_seq(text@) =~= requirement_seq(text@));
    }
    while !done
        invariant
            start <= n,
            n == text@.len(),
            !done ==> views(out@) + requirement_seq(
                text@.subrange(start as int, n as int),
            ) == requirement_seq(text@),
            done ==> views(out@) == requirement_seq(text@),
        decreases 2 * (n - start) + (if done { 0int } else { 1int }),
    {
        let ghost suffix = text@.subrange(start as int, n as int);
        let mut j = start;
        let mut found_nl = false;
        while !found_nl && j < n
            invariant
                start <= j <= n,
                n == text@.len(),
                forall|k: int| start <= k < j ==> text@[k] != '\n',
                found_nl ==> j < n && text@[j as int] == '\n',
            decreases n - j + (if found_nl { 0int } else { 1int }),
        {
            if text.get_char(j) == '\n' {
                found_nl = true;
            } else {
                j += 1;
            }
        }
        proof {
            assert(forall|k: int| 0 <= k < j - start ==> suffix[k] == text@[k + start]);
            lemma_count_until_is(suffix, |c: char| c == '\n', j - start);
        }
        let line = text.substring_char(start, j);
        let entry = clean_line(line);
        let ghost pre_out = out@;
        let ghost head: Seq<Seq<char>> = if cleaned(line@).len() == 0 {
            Seq::empty()
        } else {
            seq![cleaned(line@)]
        };
        proof {
            assert(suffix.subrange(0, j - start) =~= line@);
        }
        if !entry.as_str().is_empty() {
            out.push(entry);
            proof {
                assert(views(out@) =~= views(pre_out) + head);
            }
        } else {
            proof {
                assert(views(out@) =~= views(pre_out) + head);
            }
        }
        if j == n {
            done = true;
            proof {
                assert(requirement_seq(suffix) == head);
                assert(views(out@) =~= views(pre_out) + requirement_seq(suffix));
            }
        } else {
            proof {
                let rest = suffix.subrange(j - start + 1, suffix.len() as int);
                assert(rest =~= text@.subrange(j + 1 as int, n as int));
                assert(requirement_seq(suffix) == head + requirement_seq(rest));
                assert(views(out@) + requirement_seq(rest) =~= views(pre_out) + (head + requirement_seq(rest)));
            }
            start = j + 1;
        }
    }
    out
}

/// The immutable set of package names considered satisfied by the base
/// environment.
pub struct BaselineSet {
    names: Vec<String>,
}

impl View for BaselineSet {
    type V = Set<Seq<char>>;

    closed spec fn view(&self) -> Set<Seq<char>> {
        views(self.names@).to_set()
    }
}

/// Concatenating two name lists unions the sets they describe.
proof fn lemma_to_set_add(a: Seq<Seq<char>>, b: Seq<Seq<char>>)
    ensures
        (a + b).to_set() == a.to_set().union(b.to_set()),
{
    assert forall|x: Seq<char>| #[trigger]
        (a + b).to_set().contains(x) implies a.to_set().contains(x) || b.to_set().contains(
        x,
    ) by {
        let i = choose|i: int| 0 <= i < (a + b).len() && (a + b)[i] == x;
        if i < a.len() {
            assert(a[i] == x);
        } else {
            assert(b[i - a.len()] == x);
        }
    }
    assert forall|x: Seq<char>|
        a.to_set().contains(x) || b.to_set().contains(x) implies #[trigger] (a + b).to_set()
        .contains(x) by {
        if a.to_set().contains(x) {
            let i = choose|i: int| 0 <= i < a.len() && a[i] == x;
            assert((a + b)[i] == x);
        } else {
            let i = choose|i: int| 0 <= i < b.len() && b[i] == x;
            assert((a + b)[a.len() + i] == x);
        }
    }
    assert((a + b).to_set() =~= a.to_set().union(b.to_set()));
}

impl BaselineSet {
    /// Build the baseline from the two source lists, unioning the
    /// requirements both name.
    pub fn new(installed_list: &str, skip_list: &str) -> (s: BaselineSet)
        ensures
            s@ == requirement_names(installed_list@).union(requirement_names(skip_list@)),
    {
        let mut names = list_requirements(installed_list);
        let mut more = list_requirements(skip_list);
        let ghost a = names@;
        let ghost b = more@;
        names.append(&mut more);
        proof {
            assert(views(names@) =~= views(a) + views(b));
            lemma_to_set_add(views(a), views(b));
        }
        BaselineSet { names }
    }

    /// Whether the baseline already satisfies `name`.
    pub fn contains(&self, name: &str) -> (r: bool)
        ensures
            r == self@.contains(name@),
    {
        let n = self.names.len();
        let mut i: usize = 0;
        while i < n
            invariant
                i <= n,
                n == self.names@.len(),
                forall|k: int| 0 <= k < i ==> self.names@[k]@ != name@,
            decreases n - i,
        {
            if str_eq(self.names[i].as_str(), name) {
                proof {
                    assert(views(self.names@)[i as int] == name@);
                }
                return true;
            }
            i += 1;
        }
        proof {
            assert forall|j: int| 0 <= j < views(self.names@).len() implies views(self.names@)[j]
                != name@ by {
                assert(self.names@[j]@ != name@);
            }
            assert(!views(self.names@).contains(name@));
        }
        false
    }
}

} // verus!
