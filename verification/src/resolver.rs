//! Dependency resolution: from the guesser's output to the packages to
//! install.
//!
//! The external dependency guesser prints a whitespace-delimited list of
//! package names; empty output means no dependencies were detected. The
//! resolver reads that list as an ordered set — first occurrences, in
//! order — and installs the packages the baseline does not already satisfy.
//! A failed installation is not fatal to the run: any consequence surfaces
//! later as ordinary captured stderr of the script itself.

use vstd::prelude::*;
use crate::baseline::BaselineSet;
use crate::text::{count_until, is_space, is_space_char, lemma_count_until_is, views};

verus! {

/// The whitespace-delimited tokens of `s`, in order: the maximal runs of
/// non-whitespace characters.
pub open spec fn split_tokens(s: Seq<char>) -> Seq<Seq<char>>
    decreases s.len(),
{
    if s.len() == 0 {
        Seq::empty()
    } else if is_space(s[0]) {
        split_tokens(s.drop_first())
    } else {
        let j = count_until(s, |c: char| is_space(c));
        if j >= s.len() {
            seq![s]
        } else {
            seq![s.subrange(0, j as int)] + split_tokens(s.subrange(j as int, s.len() as int))
        }
    }
}

/// `items` with every repetition of an earlier element dropped: the first
/// occurrences, in their original order.
pub open spec fn first_occurrences(items: Seq<Seq<char>>) -> Seq<Seq<char>>
    decreases items.len(),
{
    if items.len() == 0 {
        Seq::empty()
    } else {
        let rest = first_occurrences(items.drop_last());
        if rest.contains(items.last()) {
            rest
        } else {
            rest.push(items.last())
        }
    }
}

/// Deduplication keeps membership: an element is among the first
/// occurrences exactly when it is among the items.
pub proof fn lemma_first_occurrences_membership(items: Seq<Seq<char>>, x: Seq<char>)
    ensures
        first_occurrences(items).contains(x) <==> items.contains(x),
    decreases items.len(),
{
    if items.len() != 0 {
        lemma_first_occurrences_membership(items.drop_last(), x);
        let pre = items.drop_last();
        let rest = first_occurrences(pre);
        let last = items.last();
        let fo = first_occurrences(items);
        if items.contains(x) {
            let i = choose|i: int| 0 <= i < items.len() && items[i] == x;
            if i < items.len() - 1 {
                assert(pre[i] == x);
                assert(rest.contains(x));
                let k = choose|k: int| 0 <= k < rest.len() && rest[k] == x;
                assert(fo[k] == x);
            } else {
                if rest.contains(last) {
                    let k = choose|k: int| 0 <= k < rest.len() && rest[k] == last;
                    assert(fo[k] == x);
                } else {
                    assert(fo[fo.len() - 1] == x);
                }
            }
        }
        if fo.contains(x) {
            let k = choose|k: int| 0 <= k < fo.len() && fo[k] == x;
            if k < rest.len() {
                assert(rest[k] == x);
                assert(pre.contains(x));
                let i = choose|i: int| 0 <= i < pre.len() && pre[i] == x;
                assert(items[i] == x);
            } else {
                assert(x == last);
                assert(items[items.len() - 1] == x);
            }
        }
    }
}

/// The first occurrences hold no element twice.
pub proof fn lemma_first_occurrences_distinct(items: Seq<Seq<char>>)
    ensures
        forall|i: int, j: int|
            0 <= i < j < first_occurrences(items).len() ==> first_occurrences(items)[i]
                != first_occurrences(items)[j],
    decreases items.len(),
{
    if items.len() != 0 {
        lemma_first_occurrences_distinct(items.drop_last());
        let rest = first_occurrences(items.drop_last());
        if !rest.contains(items.last()) {
            assert forall|i: int, j: int|
                0 <= i < j < rest.push(items.last()).len() implies rest.push(items.last())[i]
                != rest.push(items.last())[j] by {
                if j == rest.len() {
                    assert(rest[i] == rest.push(items.last())[i]);
                    assert(rest.contains(rest[i]));
                }
            }
        }
    }
}

/// Executable counterpart of [`split_tokens`]: the package names in the
/// guesser's output, in order, repetitions included.
pub fn tokenize(output: &str) -> (r: Vec<String>)
    ensures
        views(r@) == split_tokens(output@),
{
    let n = output.unicode_len();
    let mut out: Vec<String> = Vec::new();
    let mut i: usize = 0;
    proof {
        assert(output@.subrange(0, n as int) =~= output@);
        assert(views(out@) + split_tokens(output@) =~= split_tokens(output@));
    }
    while i < n
        invariant
            i <= n,
            n == output@.len(),
            views(out@) + split_tokens(output@.subrange(i as int, n as int)) == split_tokens(
                output@,
            ),
        decreases n - i,
    {
        let ghost suffix = output@.subrange(i as int, n as int);
        if is_space_char(output.get_char(i)) {
            proof {
                assert(suffix.drop_first() =~= output@.subrange(i + 1 as int, n as int));
            }
            i += 1;
        } else {
            let mut j = i + 1;
            let mut found_sp = false;
            while !found_sp && j < n
                invariant
                    i < j <= n,
                    n == output@.len(),
                    forall|k: int| i <= k < j ==> !is_space(output@[k]),
                    found_sp ==> j < n && is_space(output@[j as int]),
                decreases n - j + (if found_sp { 0int } else { 1int }),
            {
                if is_space_char(output.get_char(j)) {
                    found_sp = true;
                } else {
                    j += 1;
                }
            }
            proof {
                assert(forall|k: int| 0 <= k < j - i ==> suffix[k] == output@[k + i]);
                lemma_count_until_is(suffix, |c: char| is_space(c), j - i);
            }
            let token = output.substring_char(i, j).to_owned();
            let ghost pre_out = out@;
            proof {
                assert(token@ =~= suffix.subrange(0, j - i));
            }
            out.push(token);
            if j == n {
                proof {
                    assert(suffix.subrange(0, j - i) =~= suffix);
                    assert(split_tokens(suffix) == seq![suffix]);
                    assert(views(out@) =~= views(pre_out) + seq![suffix]);
                }
            } else {
                proof {
                    let rest = suffix.subrange(j - i, suffix.len() as int);
                    assert(rest =~= output@.subrange(j as int, n as int));
                    assert(split_tokens(suffix) == seq![suffix.subrange(0, j - i)] + split_tokens(
                        rest,
                    ));
                    assert(views(out@) + split_tokens(rest) =~= views(pre_out) + (seq![
                        suffix.subrange(0, j - i),
                    ] + split_tokens(rest)));
                }
            }
            i = j;
        }
    }
    proof {
        assert(split_tokens(output@.subrange(i as int, n as int)) == Seq::<Seq<char>>::empty());
        assert(views(out@) + Seq::<Seq<char>>::empty() =~= views(out@));
    }
    out
}

/// Membership in the views of a string list.
fn contains_name(items: &Vec<String>, name: &String) -> (r: bool)
    ensures
        r == views(items@).contains(name@),
{
    let n = items.len();
    let mut i: usize = 0;
    while i < n
        invariant
            i <= n,
            n == items@.len(),
            forall|k: int| 0 <= k < i ==> items@[k]@ != name@,
        decreases n - i,
    {
        if crate::text::str_eq(items[i].as_str(), name.as_str()) {
            proof {
                assert(views(items@)[i as int] == name@);
            }
            return true;
        }
        i += 1;
    }
    proof {
        assert forall|k: int| 0 <= k < views(items@).len() implies views(items@)[k] != name@ by {
            assert(items@[k]@ != name@);
        }
    }
    false
}

/// Executable counterpart of [`first_occurrences`]: the guessed names as an
/// ordered set.
pub fn dedup(items: Vec<String>) -> (r: Vec<String>)
    ensures
        views(r@) == first_occurrences(views(items@)),
{
    let n = items.len();
    let mut out: Vec<String> = Vec::new();
    let mut i: usize = 0;
    proof {
        assert(views(items@).subrange(0, 0) =~= Seq::<Seq<char>>::empty());
    }
    while i < n
        invariant
            i <= n,
            n == items@.len(),
            views(out@) == first_occurrences(views(items@).subrange(0, i as int)),
        decreases n - i,
    {
        let ghost pre_out = out@;
        let ghost prefix = views(items@).subrange(0, i as int);
        let item = items[i].clone();
        proof {
            assert(views(items@).subrange(0, i + 1 as int).drop_last() =~= prefix);
            assert(views(items@).subrange(0, i + 1 as int).last() == items@[i as int]@);
        }
        if !contains_name(&out, &item) {
            out.push(item);
            proof {
                assert(views(out@) =~= views(pre_out).push(items@[i as int]@));
            }
        }
        i += 1;
    }
    proof {
        assert(views(items@).subrange(0, n as int) =~= views(items@));
    }
    out
}

/// Keep the packages the baseline does not already satisfy, in order.
pub fn filter_against(packages: Vec<String>, baseline: &BaselineSet) -> (r: Vec<String>)
    ensures
        views(r@) == views(packages@).filter(|p: Seq<char>| !baseline@.contains(p)),
{
    let ghost pred = |p: Seq<char>| !baseline@.contains(p);
    let n = packages.len();
    let mut out: Vec<String> = Vec::new();
    let mut i: usize = 0;
    proof {
        reveal(Seq::filter);
        assert(views(packages@).subrange(0, 0) =~= Seq::<Seq<char>>::empty());
    }
    while i < n
        invariant
            i <= n,
            n == packages@.len(),
            views(out@) == views(packages@).subrange(0, i as int).filter(
                |p: Seq<char>| !baseline@.contains(p),
            ),
        decreases n - i,
    {
        let ghost pre_out = out@;
        let ghost prefix = views(packages@).subrange(0, i as int);
        let item = packages[i].clone();
        proof {
            reveal(Seq::filter);
            assert(views(packages@).subrange(0, i + 1 as int).drop_last() =~= prefix);
            assert(views(packages@).subrange(0, i + 1 as int).last() == packages@[i as int]@);
        }
        if !baseline.contains(item.as_str()) {
            out.push(item);
            proof {
                assert(views(out@) =~= views(pre_out).push(packages@[i as int]@));
            }
        }
        i += 1;
    }
    proof {
        assert(views(packages@).subrange(0, n as int) =~= views(packages@));
    }
    out
}

/// The packages to install for one run: the guessed names, as an ordered
/// set, less those the baseline already satisfies.
pub open spec fn install_plan(guesser_output: Seq<char>, baseline: Set<Seq<char>>) -> Seq<
    Seq<char>,
> {
    first_occurrences(split_tokens(guesser_output)).filter(|p: Seq<char>| !baseline.contains(p))
}

/// Resolve the guesser's output against the baseline: the packages to
/// install, in first-mention order, each named once, none that the baseline
/// already satisfies.
pub fn plan_install(guesser_output: &str, baseline: &BaselineSet) -> (r: Vec<String>)
    ensures
        views(r@) == install_plan(guesser_output@, baseline@),
{
    let tokens = tokenize(guesser_output);
    let distinct = dedup(tokens);
    filter_against(distinct, baseline)
}

/// Deduplication keeps the set of names.
pub proof fn lemma_first_occurrences_same_set(items: Seq<Seq<char>>)
    ensures
        first_occurrences(items).to_set() == items.to_set(),
{
    assert forall|x: Seq<char>| #[trigger]
        first_occurrences(items).to_set().contains(x) == items.to_set().contains(x) by {
        lemma_first_occurrences_membership(items, x);
    }
    assert(first_occurrences(items).to_set() =~= items.to_set());
}

/// What [`plan_install`] returns covers, as a set, exactly the guessed
/// names minus the baseline.
pub proof fn lemma_install_plan_is_difference(guesser_output: Seq<char>, baseline: Set<Seq<char>>)
    ensures
        install_plan(guesser_output, baseline).to_set() == split_tokens(guesser_output).to_set()
            .difference(baseline),
{
    let guessed = first_occurrences(split_tokens(guesser_output));
    lemma_first_occurrences_same_set(split_tokens(guesser_output));
    lemma_install_set_is_difference(guessed, baseline);
}

/// The install set is exactly the guessed set minus the baseline, for any
/// guessed names and any baseline.
pub proof fn lemma_install_set_is_difference(guessed: Seq<Seq<char>>, baseline: Set<Seq<char>>)
    ensures
        guessed.filter(|p: Seq<char>| !baseline.contains(p)).to_set() == guessed.to_set()
            .difference(baseline),
{
    let pred = |p: Seq<char>| !baseline.contains(p);
    let filtered = guessed.filter(pred);
    assert forall|x: Seq<char>| #[trigger]
        filtered.to_set().contains(x) implies guessed.to_set().difference(baseline).contains(
        x,
    ) by {
        let i = choose|i: int| 0 <= i < filtered.len() && filtered[i] == x;
        guessed.lemma_filter_pred(pred, i);
        guessed.lemma_filter_contains_rev(pred, x);
    }
    assert forall|x: Seq<char>|
        guessed.to_set().difference(baseline).contains(x) implies #[trigger] filtered.to_set()
        .contains(x) by {
        let i = choose|i: int| 0 <= i < guessed.len() && guessed[i] == x;
        guessed.lemma_filter_contains(pred, i);
    }
    assert(filtered.to_set() =~= guessed.to_set().difference(baseline));
}

} // verus!
