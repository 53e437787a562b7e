//! The mathematical model: a dictionary is a set of words, a word is a
//! sequence of characters.

use vstd::prelude::*;

verus! {

/// The dictionary `words` after inserting `word`. The empty word is never
/// stored: inserting it changes nothing.
pub open spec fn with_word(words: Set<Seq<char>>, word: Seq<char>) -> Set<Seq<char>> {
    if word.len() == 0 {
        words
    } else {
        words.insert(word)
    }
}

/// The words of `words` that start with `prefix`.
pub open spec fn completions(words: Set<Seq<char>>, prefix: Seq<char>) -> Set<Seq<char>> {
    Set::new(|w: Seq<char>| words.contains(w) && prefix.is_prefix_of(w))
}

/// Inserting a word a second time changes neither the dictionary nor the
/// completions of any prefix.
pub proof fn lemma_insert_idempotent(words: Set<Seq<char>>, word: Seq<char>, prefix: Seq<char>)
    ensures
        with_word(with_word(words, word), word) == with_word(words, word),
        completions(with_word(with_word(words, word), word), prefix) == completions(
            with_word(words, word),
            prefix,
        ),
{
    assert(with_word(with_word(words, word), word) =~= with_word(words, word));
}

/// Insertion never removes a word, so what was stored stays stored.
pub proof fn lemma_insert_keeps(words: Set<Seq<char>>, word: Seq<char>, other: Seq<char>)
    requires
        words.contains(other),
    ensures
        with_word(words, word).contains(other),
{
}

/// A stored word is among the completions of each of its prefixes, the empty
/// prefix and the word itself included.
pub proof fn lemma_prefix_monotonic(words: Set<Seq<char>>, prefix: Seq<char>, word: Seq<char>)
    requires
        words.contains(word),
        prefix.is_prefix_of(word),
    ensures
        completions(words, prefix).contains(word),
{
}

/// A non-empty word is stored once it has been inserted, hence listed under
/// each of its prefixes.
pub proof fn lemma_inserted_is_completed(
    words: Set<Seq<char>>,
    prefix: Seq<char>,
    word: Seq<char>,
)
    requires
        word.len() > 0,
        prefix.is_prefix_of(word),
    ensures
        with_word(words, word).contains(word),
        completions(with_word(words, word), prefix).contains(word),
{
}

/// Every completion of `prefix` is a stored word that starts with `prefix`.
pub proof fn lemma_completions_contained(
    words: Set<Seq<char>>,
    prefix: Seq<char>,
    word: Seq<char>,
)
    requires
        completions(words, prefix).contains(word),
    ensures
        words.contains(word),
        prefix.is_prefix_of(word),
{
}

/// Where no stored word starts with `prefix`, it has no completions.
pub proof fn lemma_no_match(words: Set<Seq<char>>, prefix: Seq<char>)
    requires
        forall|w: Seq<char>| words.contains(w) ==> !prefix.is_prefix_of(w),
    ensures
        completions(words, prefix) == Set::<Seq<char>>::empty(),
{
    assert(completions(words, prefix) =~= Set::<Seq<char>>::empty());
}

} // verus!
