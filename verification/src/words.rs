use vstd::prelude::*;

use std::collections::HashMap;

use crate::text::{
    ascii_upper, chars_of, is_ascii_letter, is_ascii_letter_exec, string_of, to_ascii_upper, upper_word,
};

verus! {

broadcast use vstd::std_specs::hash::group_hash_axioms;

/// A word list keeps an entry when it is non-empty and made of ASCII
/// letters only.
pub open spec fn keeps_word(w: Seq<char>) -> bool {
    w.len() > 0 && forall|i: int| 0 <= i < w.len() ==> is_ascii_letter(#[trigger] w[i])
}

/// The upper-cased kept entries of `words` that have `len` letters, in the
/// order they were given.
pub open spec fn words_of_len(words: Seq<Seq<char>>, len: nat) -> Seq<Seq<char>>
    decreases words.len(),
{
    if words.len() == 0 {
        seq![]
    } else {
        let prev = words_of_len(words.drop_last(), len);
        let w = words.last();
        if keeps_word(w) && w.len() == len {
            prev.push(upper_word(w))
        } else {
            prev
        }
    }
}

pub open spec fn strs_view(words: Seq<&str>) -> Seq<Seq<char>> {
    words.map_values(|s: &str| s@)
}

pub open spec fn strings_view(words: Seq<String>) -> Seq<Seq<char>> {
    words.map_values(|s: String| s@)
}

/// Upper-case ASCII letter.
pub open spec fn is_upper_letter(c: char) -> bool {
    'A' <= c && c <= 'Z'
}

/// Every kept, upper-cased word of length `len` has `len` letters, all
/// upper-case ASCII.
pub proof fn lemma_words_of_len(words: Seq<Seq<char>>, len: nat)
    ensures
        forall|i: int|
            0 <= i < words_of_len(words, len).len() ==> {
                let w = #[trigger] words_of_len(words, len)[i];
                &&& w.len() == len
                &&& forall|p: int| 0 <= p < len ==> is_upper_letter(#[trigger] w[p])
            },
    decreases words.len(),
{
    if words.len() > 0 {
        lemma_words_of_len(words.drop_last(), len);
        let w = words.last();
        if keeps_word(w) && w.len() == len {
            assert forall|p: int| 0 <= p < len implies is_upper_letter(
                #[trigger] upper_word(w)[p],
            ) by {
                assert(is_ascii_letter(w[p]));
                assert(upper_word(w)[p] == ascii_upper(w[p]));
                if 'a' <= w[p] && w[p] <= 'z' {
                    assert(65 <= (w[p] as int) - 32 <= 90);
                }
            }
            let prev = words_of_len(words.drop_last(), len);
            assert forall|i: int| 0 <= i < prev.push(upper_word(w)).len() implies {
                let x = #[trigger] prev.push(upper_word(w))[i];
                &&& x.len() == len
                &&& forall|p: int| 0 <= p < len ==> is_upper_letter(#[trigger] x[p])
            } by {
                if i < prev.len() {
                    assert(prev.push(upper_word(w))[i] == prev[i]);
                }
            }
        }
    }
}

/// Nothing usable is lost: every non-empty entry made of ASCII letters is
/// among the words of its own length, upper-cased.
pub proof fn lemma_words_of_len_keeps(words: Seq<Seq<char>>, i: int)
    requires
        0 <= i < words.len(),
        words[i].len() > 0,
        forall|p: int| 0 <= p < words[i].len() ==> is_ascii_letter(#[trigger] words[i][p]),
    ensures
        words_of_len(words, words[i].len()).contains(upper_word(words[i])),
    decreases words.len(),
{
    let len = words[i].len();
    let prev = words_of_len(words.drop_last(), len);
    if i == words.len() - 1 {
        assert(keeps_word(words.last()));
        assert(words_of_len(words, len) == prev.push(upper_word(words[i])));
        assert(words_of_len(words, len)[prev.len() as int] == upper_word(words[i]));
    } else {
        assert(words.drop_last()[i] == words[i]);
        lemma_words_of_len_keeps(words.drop_last(), i);
        let k = choose|k: int| 0 <= k < prev.len() && prev[k] == upper_word(words[i]);
        if keeps_word(words.last()) && words.last().len() == len {
            assert(words_of_len(words, len)[k] == prev[k]);
        }
    }
}

/// Nothing is made up: every word of a length is an entry of that length
/// that is made of ASCII letters, upper-cased.
pub proof fn lemma_words_of_len_from_input(words: Seq<Seq<char>>, len: nat, k: int)
    requires
        0 <= k < words_of_len(words, len).len(),
    ensures
        exists|i: int|
            0 <= i < words.len() && words[i].len() == len && len > 0 && (forall|p: int|
                0 <= p < words[i].len() ==> is_ascii_letter(#[trigger] words[i][p]))
                && #[trigger] upper_word(words[i]) == words_of_len(words, len)[k],
    decreases words.len(),
{
    let prev = words_of_len(words.drop_last(), len);
    let w = words.last();
    if k < prev.len() {
        lemma_words_of_len_from_input(words.drop_last(), len, k);
        let i = choose|i: int|
            0 <= i < words.drop_last().len() && words.drop_last()[i].len() == len && len > 0
                && (forall|p: int|
                0 <= p < words.drop_last()[i].len() ==> is_ascii_letter(
                    #[trigger] words.drop_last()[i][p],
                )) && #[trigger] upper_word(words.drop_last()[i]) == prev[k];
        assert(words.drop_last()[i] == words[i]);
        if keeps_word(w) && w.len() == len {
            assert(words_of_len(words, len)[k] == prev[k]);
        }
        assert(upper_word(words[i]) == words_of_len(words, len)[k]);
    } else {
        assert(keeps_word(w) && w.len() == len);
        assert(words[words.len() - 1] == w);
        assert(upper_word(words[words.len() - 1]) == words_of_len(words, len)[k]);
    }
}

/// A pool of candidate fill words, grouped by length so that the words for
/// an entry are found without scanning the whole list.
#[derive(Debug)]
pub struct WordList {
    by_length: HashMap<usize, Vec<String>>,
}

impl Clone for WordList {
    fn clone(&self) -> (res: Self)
        ensures
            forall|len: nat| #[trigger] res.words(len) == self.words(len),
    {
        proof {
            use_type_invariant(self);
        }
        let by_length = self.by_length.clone();
        assert forall|len: nat| #[trigger] (WordList { by_length }).words(len) == self.words(len) by {}
        WordList { by_length }
    }
}

impl Default for WordList {
    /// An empty word list.
    fn default() -> (res: Self)
        ensures
            forall|len: nat| #[trigger] res.words(len) == Seq::<Seq<char>>::empty(),
            res.wf(),
    {
        WordList { by_length: HashMap::new() }
    }
}

impl WordList {
    /// Every word filed under a length has that many letters, all of them
    /// upper-case ASCII.
    #[verifier::type_invariant]
    pub open spec fn wf(self) -> bool {
        forall|len: nat, i: int|
            0 <= i < self.words(len).len() ==> {
                let w = #[trigger] self.words(len)[i];
                &&& w.len() == len
                &&& forall|p: int| 0 <= p < len ==> is_upper_letter(#[trigger] w[p])
            }
    }

    /// The words of length `len`, in the order they were added.
    pub closed spec fn words(self, len: nat) -> Seq<Seq<char>> {
        if self.by_length@.contains_key(len as usize) && len <= usize::MAX {
            strings_view(self.by_length@[len as usize]@)
        } else {
            seq![]
        }
    }

    /// Build a word list. Entries that are not made purely of ASCII letters
    /// (and empty entries) are dropped rather than rejected, since a real
    /// word list always has a few lines with punctuation or digits mixed in;
    /// the others are stored upper-cased.
    pub fn new(words: &[&str]) -> (res: WordList)
        ensures
            forall|len: nat| #[trigger] res.words(len) == words_of_len(strs_view(words@), len),
            res.wf(),
            forall|i: int|
                0 <= i < words@.len() && words@[i]@.len() > 0 && (forall|p: int|
                    0 <= p < words@[i]@.len() ==> is_ascii_letter(#[trigger] words@[i]@[p]))
                    ==> res.words(words@[i]@.len()).contains(upper_word(#[trigger] words@[i]@)),
    {
        let ghost input = strs_view(words@);
        let mut by_length: HashMap<usize, Vec<String>> = HashMap::new();
        for i in 0..words.len()
            invariant
                input == strs_view(words@),
                forall|len: nat|
                    #[trigger] (WordList { by_length }).words(len) == words_of_len(
                        input.take(i as int),
                        len,
                    ),
        {
            let ghost before = by_length;
            let chars = chars_of(words[i]);
            assert(input.take(i + 1).drop_last() =~= input.take(i as int));
            assert(chars@ == input[i as int]);
            let mut keep = chars.len() > 0;
            let mut j: usize = 0;
            while keep && j < chars.len()
                invariant
                    0 <= j <= chars.len(),
                    keep ==> forall|k: int| 0 <= k < j ==> is_ascii_letter(#[trigger] chars@[k]),
                    !keep ==> !keeps_word(chars@),
                    chars.len() == 0 ==> !keep,
                decreases chars.len() - j + (if keep { 1int } else { 0int }),
            {
                if !is_ascii_letter_exec(chars[j]) {
                    keep = false;
                }
                j += 1;
            }
            if keep {
                let mut upper: Vec<char> = Vec::new();
                for k in 0..chars.len()
                    invariant
                        upper@ == upper_word(chars@.take(k as int)),
                {
                    upper.push(to_ascii_upper(chars[k]));
                    assert(upper@ =~= upper_word(chars@.take(k + 1)));
                }
                assert(chars@.take(chars.len() as int) =~= chars@);
                let word = string_of(&upper);
                let n = upper.len();
                let mut list = match by_length.remove(&n) {
                    Some(v) => v,
                    None => Vec::new(),
                };
                list.push(word);
                by_length.insert(n, list);
                assert forall|len: nat| #[trigger]
                    (WordList { by_length }).words(len) == words_of_len(
                        input.take(i + 1),
                        len,
                    ) by {
                    assert((WordList { by_length: before }).words(len) == words_of_len(
                        input.take(i as int),
                        len,
                    ));
                    if len == n {
                        assert(strings_view(list@) =~= (WordList { by_length: before }).words(
                            len,
                        ).push(upper@));
                    }
                }
            } else {
                assert forall|len: nat| #[trigger]
                    (WordList { by_length }).words(len) == words_of_len(
                        input.take(i + 1),
                        len,
                    ) by {
                    assert((WordList { by_length: before }).words(len) == words_of_len(
                        input.take(i as int),
                        len,
                    ));
                }
            }
        }
        assert(input.take(words.len() as int) =~= input);
        let ghost model = WordList { by_length };
        assert forall|len: nat, i: int| 0 <= i < model.words(len).len() implies {
            let w = #[trigger] model.words(len)[i];
            &&& w.len() == len
            &&& forall|p: int| 0 <= p < len ==> is_upper_letter(#[trigger] w[p])
        } by {
            lemma_words_of_len(input, len);
        }
        assert forall|i: int|
            0 <= i < words@.len() && words@[i]@.len() > 0 && (forall|p: int|
                0 <= p < words@[i]@.len() ==> is_ascii_letter(#[trigger] words@[i]@[p]))
                implies model.words(words@[i]@.len()).contains(upper_word(#[trigger] words@[i]@)) by {
            assert(input[i] == words@[i]@);
            lemma_words_of_len_keeps(input, i);
        }
        WordList { by_length }
    }

    /// The words of length `len`, in the order they were added.
    pub fn candidates(&self, len: usize) -> (res: &[String])
        ensures
            strings_view(res@) == self.words(len as nat),
    {
        match self.by_length.get(&len) {
            Some(v) => v.as_slice(),
            None => &[],
        }
    }
}

} // verus!
