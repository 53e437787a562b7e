//! Lists of strings that enumerate a set of words without repetition.

use vstd::prelude::*;

verus! {

/// The words that the strings of `list` spell, in order.
pub open spec fn spelled(list: Seq<String>) -> Seq<Seq<char>> {
    Seq::new(list.len(), |i: int| list[i]@)
}

/// `after` is `before` followed by the words that `accept` admits, each of
/// them exactly once and nothing else.
pub open spec fn gathered(
    before: Seq<String>,
    after: Seq<String>,
    accept: spec_fn(Seq<char>) -> bool,
) -> bool {
    &&& before.len() <= after.len()
    &&& after.take(before.len() as int) == before
    &&& forall|i: int, j: int|
        before.len() <= i < j < after.len() ==> #[trigger] after[i]@ != #[trigger] after[j]@
    &&& forall|i: int| before.len() <= i < after.len() ==> accept(#[trigger] after[i]@)
    &&& forall|w: Seq<char>| #[trigger]
        accept(w) ==> exists|i: int| before.len() <= i < after.len() && #[trigger] after[i]@ == w
}

/// Nothing is gathered where nothing is admitted.
pub proof fn lemma_gathered_none(list: Seq<String>, accept: spec_fn(Seq<char>) -> bool)
    requires
        forall|w: Seq<char>| !#[trigger] accept(w),
    ensures
        gathered(list, list, accept),
{
    assert(list.take(list.len() as int) =~= list);
}

/// Pushing one string gathers the single word it spells.
pub proof fn lemma_gathered_one(list: Seq<String>, s: String, accept: spec_fn(Seq<char>) -> bool)
    requires
        forall|w: Seq<char>| #[trigger] accept(w) <==> w == s@,
    ensures
        gathered(list, list.push(s), accept),
{
    let after = list.push(s);
    assert(after.take(list.len() as int) =~= list);
    assert forall|w: Seq<char>| #[trigger] accept(w) implies exists|i: int|
        list.len() <= i < after.len() && #[trigger] after[i]@ == w by {
        assert(after[list.len() as int]@ == w);
    }
}

/// Two gatherings in a row, of word sets that do not overlap, gather the
/// union.
pub proof fn lemma_gathered_then(
    a: Seq<String>,
    b: Seq<String>,
    c: Seq<String>,
    first: spec_fn(Seq<char>) -> bool,
    second: spec_fn(Seq<char>) -> bool,
    both: spec_fn(Seq<char>) -> bool,
)
    requires
        gathered(a, b, first),
        gathered(b, c, second),
        forall|w: Seq<char>| !(#[trigger] first(w) && #[trigger] second(w)),
        forall|w: Seq<char>| #[trigger] both(w) <==> (first(w) || second(w)),
    ensures
        gathered(a, c, both),
{
    assert(c.take(a.len() as int) =~= a) by {
        assert(c.take(b.len() as int) == b);
        assert(b.take(a.len() as int) == a);
        assert forall|i: int| 0 <= i < a.len() implies c[i] == a[i] by {
            assert(c.take(b.len() as int)[i] == c[i]);
            assert(b.take(a.len() as int)[i] == b[i]);
        }
    }
    assert forall|i: int| b.len() > i >= 0 implies c[i] == b[i] by {
        assert(c.take(b.len() as int)[i] == c[i]);
    }
    assert forall|i: int, j: int| a.len() <= i < j < c.len() implies #[trigger] c[i]@
        != #[trigger] c[j]@ by {
        if j < b.len() {
            assert(b[i]@ != b[j]@);
        } else if i < b.len() {
            assert(first(b[i]@));
            assert(second(c[j]@));
        }
    }
    assert forall|i: int| a.len() <= i < c.len() implies both(#[trigger] c[i]@) by {
        if i < b.len() {
            assert(first(b[i]@));
        } else {
            assert(second(c[i]@));
        }
    }
    assert forall|w: Seq<char>| #[trigger] both(w) implies exists|i: int|
        a.len() <= i < c.len() && #[trigger] c[i]@ == w by {
        if first(w) {
            let i = choose|i: int| a.len() <= i < b.len() && #[trigger] b[i]@ == w;
            assert(c[i]@ == w);
        } else {
            assert(second(w));
            let i = choose|i: int| b.len() <= i < c.len() && #[trigger] c[i]@ == w;
            assert(c[i]@ == w);
        }
    }
}

/// What is gathered depends only on which words are admitted.
pub proof fn lemma_gathered_same(
    before: Seq<String>,
    after: Seq<String>,
    accept: spec_fn(Seq<char>) -> bool,
    other: spec_fn(Seq<char>) -> bool,
)
    requires
        gathered(before, after, accept),
        forall|w: Seq<char>| #[trigger] accept(w) <==> #[trigger] other(w),
    ensures
        gathered(before, after, other),
{
    assert forall|i: int| before.len() <= i < after.len() implies other(#[trigger] after[i]@) by {
        assert(accept(after[i]@));
    }
    assert forall|w: Seq<char>| #[trigger] other(w) implies exists|i: int|
        before.len() <= i < after.len() && #[trigger] after[i]@ == w by {
        assert(accept(w));
    }
}

/// A list gathered from nothing spells each admitted word once: it has no
/// repetition, and read as a set it is the set of admitted words.
pub proof fn lemma_gathered_from_empty(list: Seq<String>, accept: spec_fn(Seq<char>) -> bool)
    requires
        gathered(Seq::<String>::empty(), list, accept),
    ensures
        spelled(list).no_duplicates(),
        spelled(list).to_set() == Set::new(accept),
        Set::new(accept).finite(),
        Set::new(accept).len() == list.len(),
{
    let words = spelled(list);
    assert forall|i: int, j: int|
        0 <= i < words.len() && 0 <= j < words.len() && i != j implies words[i] != words[j] by {
        if i < j {
            assert(list[i]@ != list[j]@);
        } else {
            assert(list[j]@ != list[i]@);
        }
    }
    assert forall|w: Seq<char>| words.to_set().contains(w) <==> accept(w) by {
        if words.to_set().contains(w) {
            let i = choose|i: int| 0 <= i < words.len() && words[i] == w;
            assert(accept(list[i]@));
        }
        if accept(w) {
            let i = choose|i: int| 0 <= i < list.len() && #[trigger] list[i]@ == w;
            assert(words[i] == w);
        }
    }
    assert(words.to_set() =~= Set::new(accept));
    words.unique_seq_to_set();
    vstd::seq_lib::seq_to_set_is_finite(words);
}

} // verus!
