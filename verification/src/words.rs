//! The dictionary and the candidate space: the set of dictionary words still
//! consistent with the knowledge accumulated so far. The space is initialized
//! once from the full dictionary and only ever shrinks.

use vstd::prelude::*;

use crate::game::{spec_matches, ActiveState, Letter};

verus! {

/// Copy the characters of a word into a fresh vector.
pub fn copy_word(w: &Vec<char>) -> (r: Vec<char>)
    ensures
        r@ == w@,
{
    let mut r: Vec<char> = Vec::new();
    let mut k: usize = 0;
    while k < w.len()
        invariant
            k <= w@.len(),
            r@ == w@.take(k as int),
        decreases w@.len() - k,
    {
        r.push(w[k]);
        proof {
            assert(r@ =~= w@.take(k + 1 as int));
        }
        k = k + 1;
    }
    proof {
        assert(r@ =~= w@);
    }
    r
}

/// In the depth-two view of a word list, a word stands for its characters.
pub proof fn lemma_word_deep_view(w: Vec<char>)
    ensures
        w.deep_view() == w@,
{
    assert(w.deep_view() =~= w@);
}

/// Copy a list of words into a fresh vector with the same contents.
pub fn copy_words(v: &Vec<Vec<char>>) -> (r: Vec<Vec<char>>)
    ensures
        r.deep_view() == v.deep_view(),
{
    let mut r: Vec<Vec<char>> = Vec::new();
    let mut k: usize = 0;
    proof {
        assert(r.deep_view() =~~= v.deep_view().take(0));
    }
    while k < v.len()
        invariant
            k <= v@.len(),
            r.deep_view() == v.deep_view().take(k as int),
        decreases v@.len() - k,
    {
        let ghost pre = r.deep_view();
        r.push(copy_word(&v[k]));
        proof {
            lemma_word_deep_view(r@[pre.len() as int]);
            lemma_word_deep_view(v@[k as int]);
            assert(r.deep_view() =~~= v.deep_view().take(k as int + 1));
        }
        k = k + 1;
    }
    proof {
        assert(r.deep_view() =~~= v.deep_view());
    }
    r
}

/// Index of the first newline in `text`, or `text.len()` when there is none.
pub open spec fn first_newline(text: Seq<char>) -> int
    decreases text.len(),
{
    if text.len() == 0 {
        0
    } else if text[0] == '\n' {
        0
    } else {
        1 + first_newline(text.drop_first())
    }
}

/// The newline-separated segments of `text`: one more segment than there are
/// newlines, so empty lines (and a trailing newline) yield empty words.
pub open spec fn split_lines(text: Seq<char>) -> Seq<Seq<char>>
    decreases text.len(),
{
    let k = first_newline(text);
    if k == text.len() {
        seq![text]
    } else if 0 <= k < text.len() {
        seq![text.take(k)] + split_lines(text.skip(k + 1))
    } else {
        // unreachable: first_newline is always within 0 ..= text.len()
        seq![text]
    }
}

/// The dictionary: the words the secret word may be drawn from.
#[derive(Clone)]
pub struct Words {
    pub words: Vec<Vec<char>>,
}

impl Words {
    /// Build the dictionary from the text of a word list, one word per line.
    pub fn from(text: &Vec<char>) -> (w: Words)
        ensures
            w.words.deep_view() == split_lines(text@),
    {
        let mut out: Vec<Vec<char>> = Vec::new();
        let mut current: Vec<char> = Vec::new();
        let ghost mut start: int = 0;
        let mut k: usize = 0;
        proof {
            assert(text@.skip(0) =~= text@);
            assert(out.deep_view() =~~= Seq::<Seq<char>>::empty());
            assert(Seq::<Seq<char>>::empty() + split_lines(text@) =~= split_lines(text@));
        }
        while k < text.len()
            invariant
                0 <= start <= k as int <= text@.len(),
                current@ == text@.subrange(start, k as int),
                forall|i: int| start <= i < k as int ==> text@[i] != '\n',
                split_lines(text@) =~= out.deep_view() + split_lines(text@.skip(start)),
            decreases text@.len() - k,
        {
            let ghost pre_out = out.deep_view();
            let ghost pre_current = current@;
            let c = text[k];
            if c == '\n' {
                proof {
                    lemma_split_lines_step(text@, start, k as int);
                }
                out.push(current);
                current = Vec::new();
                proof {
                    lemma_word_deep_view(out@[pre_out.len() as int]);
                    assert(out.deep_view() =~~= pre_out.push(pre_current));
                    assert(pre_out + (seq![text@.subrange(start, k as int)] + split_lines(
                        text@.skip(k as int + 1),
                    )) =~~= pre_out.push(pre_current) + split_lines(text@.skip(k as int + 1)));
                    start = k as int + 1;
                    assert(current@ =~= text@.subrange(start, k as int + 1));
                }
            } else {
                current.push(c);
                proof {
                    assert(current@ =~= text@.subrange(start, k as int + 1));
                }
            }
            k = k + 1;
        }
        let ghost pre_out = out.deep_view();
        let ghost pre_current = current@;
        proof {
            lemma_split_lines_rest(text@, start);
            assert(pre_current =~= text@.skip(start));
        }
        out.push(current);
        proof {
            lemma_word_deep_view(out@[pre_out.len() as int]);
            assert(out.deep_view() =~~= pre_out.push(pre_current));
            assert(pre_out.push(pre_current) =~~= pre_out + seq![pre_current]);
            assert(out.deep_view() =~~= split_lines(text@));
        }
        Words { words: out }
    }

    /// Pick a word from the dictionary; any word may come back.
    pub fn random_word(&self) -> (w: Vec<char>)
        requires
            self.words@.len() > 0,
        ensures
            self.words.deep_view().contains(w@),
    {
        let idx = random_below(self.words.len());
        let w = copy_word(&self.words[idx]);
        proof {
            assert(self.words.deep_view()[idx as int] == w@);
        }
        w
    }
}

/// Relies on rand's `Rng::gen_range`: a sample from the range `0 .. len` is
/// uniformly distributed in it, so it lies below `len`; the call panics only
/// on an empty range, which the precondition excludes.
#[verifier::external_body]
fn random_below(len: usize) -> (r: usize)
    requires
        len > 0,
    ensures
        r < len,
{
    rand::Rng::gen_range(&mut rand::thread_rng(), 0..len)
}

/// When positions `start ..= k` of `text` hold no newline before `k` and a
/// newline at `k`, splitting the tail at `start` peels off exactly the
/// segment `start .. k`.
proof fn lemma_split_lines_step(text: Seq<char>, start: int, k: int)
    requires
        0 <= start <= k < text.len(),
        forall|i: int| start <= i < k ==> text[i] != '\n',
        text[k] == '\n',
    ensures
        split_lines(text.skip(start)) =~= seq![text.subrange(start, k)] + split_lines(
            text.skip(k + 1),
        ),
{
    let tail = text.skip(start);
    lemma_first_newline_at(tail, k - start);
    assert(tail.take(k - start) =~= text.subrange(start, k));
    assert(tail.skip(k - start + 1) =~= text.skip(k + 1));
}

/// When `text` from `start` on holds no newline, splitting the tail yields
/// that single segment.
proof fn lemma_split_lines_rest(text: Seq<char>, start: int)
    requires
        0 <= start <= text.len(),
        forall|i: int| start <= i < text.len() ==> text[i] != '\n',
    ensures
        split_lines(text.skip(start)) =~= seq![text.skip(start)],
{
    let tail = text.skip(start);
    lemma_first_newline_none(tail);
}

proof fn lemma_first_newline_at(s: Seq<char>, j: int)
    requires
        0 <= j < s.len(),
        forall|i: int| 0 <= i < j ==> s[i] != '\n',
        s[j] == '\n',
    ensures
        first_newline(s) == j,
    decreases j,
{
    if j > 0 {
        assert(forall|i: int| 0 <= i < j - 1 ==> s.drop_first()[i] == s[i + 1]);
        lemma_first_newline_at(s.drop_first(), j - 1);
    }
}

proof fn lemma_first_newline_none(s: Seq<char>)
    requires
        forall|i: int| 0 <= i < s.len() ==> s[i] != '\n',
    ensures
        first_newline(s) == s.len(),
    decreases s.len(),
{
    if s.len() > 0 {
        assert(forall|i: int| 0 <= i < s.drop_first().len() ==> s.drop_first()[i] == s[i + 1]);
        lemma_first_newline_none(s.drop_first());
    }
}

/// The words of `words` that are consistent with the given pattern and
/// wrong-guess set, in their original order.
pub open spec fn consistent_words(
    words: Seq<Seq<char>>,
    pattern: Seq<Letter>,
    wrong: Seq<char>,
) -> Seq<Seq<char>> {
    words.filter(|w: Seq<char>| spec_matches(w, pattern, wrong))
}

/// An empty word list has no consistent words.
pub proof fn lemma_consistent_words_empty(pattern: Seq<Letter>, wrong: Seq<char>)
    ensures
        consistent_words(Seq::<Seq<char>>::empty(), pattern, wrong) == Seq::<Seq<char>>::empty(),
{
    reveal(Seq::filter);
    assert(consistent_words(Seq::<Seq<char>>::empty(), pattern, wrong) =~= Seq::<
        Seq<char>,
    >::empty());
}

/// Extending the word list by one word keeps that word among the consistent
/// ones exactly when it matches.
pub proof fn lemma_consistent_words_push(
    words: Seq<Seq<char>>,
    x: Seq<char>,
    pattern: Seq<Letter>,
    wrong: Seq<char>,
)
    ensures
        consistent_words(words.push(x), pattern, wrong) == if spec_matches(x, pattern, wrong) {
            consistent_words(words, pattern, wrong).push(x)
        } else {
            consistent_words(words, pattern, wrong)
        },
{
    reveal(Seq::filter);
    assert((words.push(x)).drop_last() =~= words);
}

/// Filtering the candidate space twice with one snapshot leaves exactly what
/// a single filtering leaves: filtering is idempotent.
pub proof fn lemma_filter_with_guess_idempotent(
    words: Seq<Seq<char>>,
    pattern: Seq<Letter>,
    wrong: Seq<char>,
)
    ensures
        consistent_words(consistent_words(words, pattern, wrong), pattern, wrong)
            == consistent_words(words, pattern, wrong),
    decreases words.len(),
{
    if words.len() == 0 {
        lemma_consistent_words_empty(pattern, wrong);
        assert(words =~= Seq::<Seq<char>>::empty());
    } else {
        let dl = words.drop_last();
        lemma_filter_with_guess_idempotent(dl, pattern, wrong);
        assert(dl.push(words.last()) =~= words);
        lemma_consistent_words_push(dl, words.last(), pattern, wrong);
        if spec_matches(words.last(), pattern, wrong) {
            lemma_consistent_words_push(
                consistent_words(dl, pattern, wrong),
                words.last(),
                pattern,
                wrong,
            );
        }
    }
}

/// The candidate space never grows when filtered.
pub proof fn lemma_filter_with_guess_shrinks(
    words: Seq<Seq<char>>,
    pattern: Seq<Letter>,
    wrong: Seq<char>,
)
    ensures
        consistent_words(words, pattern, wrong).len() <= words.len(),
    decreases words.len(),
{
    if words.len() == 0 {
        lemma_consistent_words_empty(pattern, wrong);
        assert(words =~= Seq::<Seq<char>>::empty());
    } else {
        lemma_filter_with_guess_shrinks(words.drop_last(), pattern, wrong);
        assert(words.drop_last().push(words.last()) =~= words);
        lemma_consistent_words_push(words.drop_last(), words.last(), pattern, wrong);
    }
}

/// Everything the filter keeps is a matching word of the list, and every
/// matching word of the list is kept.
pub proof fn lemma_consistent_words_membership(
    words: Seq<Seq<char>>,
    pattern: Seq<Letter>,
    wrong: Seq<char>,
)
    ensures
        forall|t: int|
            0 <= t < consistent_words(words, pattern, wrong).len() ==> {
                let w = #[trigger] consistent_words(words, pattern, wrong)[t];
                words.contains(w) && spec_matches(w, pattern, wrong)
            },
        forall|w: Seq<char>|
            words.contains(w) && spec_matches(w, pattern, wrong) ==> consistent_words(
                words,
                pattern,
                wrong,
            ).contains(w),
    decreases words.len(),
{
    if words.len() == 0 {
        lemma_consistent_words_empty(pattern, wrong);
        assert(words =~= Seq::<Seq<char>>::empty());
        assert forall|w: Seq<char>|
            words.contains(w) && spec_matches(w, pattern, wrong) implies consistent_words(
            words,
            pattern,
            wrong,
        ).contains(w) by {
            let j = choose|j: int| 0 <= j < words.len() && words[j] == w;
        }
    } else {
        let dl = words.drop_last();
        lemma_consistent_words_membership(dl, pattern, wrong);
        assert(dl.push(words.last()) =~= words);
        lemma_consistent_words_push(dl, words.last(), pattern, wrong);
        let v = consistent_words(words, pattern, wrong);
        let dv = consistent_words(dl, pattern, wrong);
        assert forall|t: int|
            0 <= t < v.len() implies {
            let w = #[trigger] v[t];
            words.contains(w) && spec_matches(w, pattern, wrong)
        } by {
            if t < dv.len() {
                assert(v[t] == dv[t]);
                assert(dl.contains(dv[t]));
                let j = choose|j: int| 0 <= j < dl.len() && dl[j] == dv[t];
                assert(words[j] == dv[t]);
            } else {
                assert(v[t] == words.last());
                assert(words.contains(words.last()));
            }
        }
        assert forall|w: Seq<char>|
            words.contains(w) && spec_matches(w, pattern, wrong) implies v.contains(w) by {
            let j = choose|j: int| 0 <= j < words.len() && words[j] == w;
            if j < dl.len() {
                assert(dl[j] == w);
                assert(dl.contains(w));
                assert(dv.contains(w));
                let t = choose|t: int| 0 <= t < dv.len() && dv[t] == w;
                assert(v[t] == w);
            } else {
                assert(words.last() == w);
                if spec_matches(words.last(), pattern, wrong) {
                    assert(v.last() == w);
                }
            }
        }
    }
}

/// Filtering with a stronger snapshot absorbs a weaker one: filtering first
/// by a snapshot every stronger-matching word also matches changes nothing.
pub proof fn lemma_consistent_words_absorb(
    words: Seq<Seq<char>>,
    pattern1: Seq<Letter>,
    wrong1: Seq<char>,
    pattern2: Seq<Letter>,
    wrong2: Seq<char>,
)
    requires
        forall|w: Seq<char>|
            spec_matches(w, pattern2, wrong2) ==> spec_matches(w, pattern1, wrong1),
    ensures
        consistent_words(consistent_words(words, pattern1, wrong1), pattern2, wrong2)
            == consistent_words(words, pattern2, wrong2),
    decreases words.len(),
{
    if words.len() == 0 {
        lemma_consistent_words_empty(pattern1, wrong1);
        lemma_consistent_words_empty(pattern2, wrong2);
        assert(words =~= Seq::<Seq<char>>::empty());
    } else {
        let dl = words.drop_last();
        let w = words.last();
        lemma_consistent_words_absorb(dl, pattern1, wrong1, pattern2, wrong2);
        assert(dl.push(w) =~= words);
        lemma_consistent_words_push(dl, w, pattern1, wrong1);
        lemma_consistent_words_push(dl, w, pattern2, wrong2);
        if spec_matches(w, pattern1, wrong1) {
            lemma_consistent_words_push(
                consistent_words(dl, pattern1, wrong1),
                w,
                pattern2,
                wrong2,
            );
        }
    }
}

/// A snapshot extended by revealing a character at still-unknown positions
/// is stronger: whatever matches it matched the snapshot before.
pub proof fn lemma_overlay_strengthens(
    pattern: Seq<Letter>,
    c: char,
    idxs: Seq<usize>,
    wrong: Seq<char>,
)
    requires
        forall|t: int|
            0 <= t < idxs.len() ==> idxs[t] < pattern.len() && pattern[#[trigger] idxs[t] as int]
                == Letter::Unknown,
    ensures
        forall|w: Seq<char>|
            spec_matches(w, #[trigger] crate::game::overlay_at(pattern, c, idxs), wrong)
                ==> spec_matches(w, pattern, wrong),
{
    let ov = crate::game::overlay_at(pattern, c, idxs);
    assert forall|w: Seq<char>|
        spec_matches(w, ov, wrong) implies spec_matches(w, pattern, wrong) by {
        assert forall|q: int|
            0 <= q < w.len() implies (#[trigger] pattern[q] == Letter::Unknown || pattern[q]
            == Letter::Character(w[q])) by {
            if pattern[q] != Letter::Unknown {
                if crate::game::idx_in(idxs, q) {
                    let t = choose|t: int| 0 <= t < idxs.len() && idxs[t] as int == q;
                    assert(pattern[q] == Letter::Unknown);
                } else {
                    assert(ov[q] == pattern[q]);
                }
            }
        }
    }
}

/// A snapshot extended by one more wrong character is stronger: whatever
/// matches it matched the snapshot before.
pub proof fn lemma_wrong_push_strengthens(pattern: Seq<Letter>, wrong: Seq<char>, c: char)
    ensures
        forall|w: Seq<char>|
            spec_matches(w, pattern, #[trigger] wrong.push(c)) ==> spec_matches(w, pattern, wrong),
{
    assert forall|w: Seq<char>|
        spec_matches(w, pattern, wrong.push(c)) implies spec_matches(w, pattern, wrong) by {
        assert forall|i: int| 0 <= i < w.len() implies !wrong.contains(#[trigger] w[i]) by {
            if wrong.contains(w[i]) {
                let t = choose|t: int| 0 <= t < wrong.len() && wrong[t] == w[i];
                assert(wrong.push(c)[t] == w[i]);
                assert(wrong.push(c).contains(w[i]));
            }
        }
    }
}

/// A strictly sorted character list holds no character twice.
pub proof fn lemma_sorted_no_duplicates(s: Seq<char>)
    requires
        sorted_strict(s),
    ensures
        s.no_duplicates(),
{
    assert forall|i: int, j: int|
        0 <= i < s.len() && 0 <= j < s.len() && i != j implies s[i] != s[j] by {
        if i < j {
            assert((s[i] as int) < (s[j] as int));
        } else {
            assert((s[j] as int) < (s[i] as int));
        }
    }
}

/// The shrinking set of dictionary words still consistent with everything
/// known about the secret word.
pub struct WordSpace {
    pub words: Vec<Vec<char>>,
}

impl WordSpace {
    /// A fresh candidate space holding the whole dictionary.
    pub fn new(words: &Words) -> (s: Self)
        ensures
            s.words.deep_view() == words.words.deep_view(),
    {
        WordSpace { words: copy_words(&words.words) }
    }

    /// How many candidates are still alive.
    pub fn word_count(&self) -> (n: usize)
        ensures
            n == self.words@.len(),
    {
        self.words.len()
    }

    /// Replace the held candidates with the subset consistent with `state`;
    /// the space never grows here, and repeating the call with the same
    /// snapshot changes nothing more (see `lemma_filter_with_guess_idempotent`).
    pub fn filter_with_guess(&mut self, state: &ActiveState)
        ensures
            final(self).words.deep_view() == consistent_words(
                old(self).words.deep_view(),
                state.guess.0@,
                state.wrong.0@,
            ),
            final(self).words@.len() <= old(self).words@.len(),
    {
        let mut out: Vec<Vec<char>> = Vec::new();
        let mut k: usize = 0;
        proof {
            assert(self.words.deep_view().take(0) =~= Seq::<Seq<char>>::empty());
            lemma_consistent_words_empty(state.guess.0@, state.wrong.0@);
            assert(out.deep_view() =~~= Seq::<Seq<char>>::empty());
        }
        while k < self.words.len()
            invariant
                k <= self.words@.len(),
                out.deep_view() == consistent_words(
                    self.words.deep_view().take(k as int),
                    state.guess.0@,
                    state.wrong.0@,
                ),
                out@.len() <= k,
            decreases self.words@.len() - k,
        {
            let ghost pre = out.deep_view();
            let ghost dv = self.words.deep_view();
            proof {
                lemma_word_deep_view(self.words@[k as int]);
                lemma_consistent_words_push(
                    dv.take(k as int),
                    dv[k as int],
                    state.guess.0@,
                    state.wrong.0@,
                );
                assert(dv.take(k as int).push(dv[k as int]) =~= dv.take(k as int + 1));
            }
            if state.does_match(&self.words[k]) {
                out.push(copy_word(&self.words[k]));
                proof {
                    lemma_word_deep_view(out@[pre.len() as int]);
                    assert(out.deep_view() =~~= pre.push(dv[k as int]));
                }
            }
            k = k + 1;
        }
        proof {
            assert(self.words.deep_view().take(self.words@.len() as int) =~= self.words.deep_view());
            lemma_filter_with_guess_shrinks(self.words.deep_view(), state.guess.0@, state.wrong.0@);
        }
        self.words = out;
    }

    /// How many of the held candidates are consistent with a hypothetical
    /// snapshot; reading only, the space is not changed.
    pub fn matching_state_count(&self, state: &ActiveState) -> (n: usize)
        ensures
            n == consistent_words(
                self.words.deep_view(),
                state.guess.0@,
                state.wrong.0@,
            ).len(),
    {
        let mut n: usize = 0;
        let mut k: usize = 0;
        proof {
            assert(self.words.deep_view().take(0) =~= Seq::<Seq<char>>::empty());
            lemma_consistent_words_empty(state.guess.0@, state.wrong.0@);
        }
        while k < self.words.len()
            invariant
                k <= self.words@.len(),
                n <= k,
                n == consistent_words(
                    self.words.deep_view().take(k as int),
                    state.guess.0@,
                    state.wrong.0@,
                ).len(),
            decreases self.words@.len() - k,
        {
            let ghost dv = self.words.deep_view();
            proof {
                lemma_word_deep_view(self.words@[k as int]);
                lemma_consistent_words_push(
                    dv.take(k as int),
                    dv[k as int],
                    state.guess.0@,
                    state.wrong.0@,
                );
                assert(dv.take(k as int).push(dv[k as int]) =~= dv.take(k as int + 1));
            }
            if state.does_match(&self.words[k]) {
                n = n + 1;
            }
            k = k + 1;
        }
        proof {
            assert(self.words.deep_view().take(self.words@.len() as int) =~= self.words.deep_view());
        }
        n
    }
}

/// A character pool in strictly increasing code-point order: sorted, and
/// therefore free of duplicates.
pub open spec fn sorted_strict(s: Seq<char>) -> bool {
    forall|a: int, b: int| 0 <= a < b < s.len() ==> (s[a] as int) < (s[b] as int)
}

/// Whether any word of the dictionary contains the character `c`.
pub open spec fn dict_has_char(words: Seq<Seq<char>>, c: char) -> bool {
    exists|i: int, j: int|
        0 <= i < words.len() && 0 <= j < words[i].len() && words[i][j] == c
}

/// Compare two characters by code point.
pub fn char_lt(a: char, b: char) -> (r: bool)
    ensures
        r == ((a as int) < (b as int)),
{
    (a as u32) < (b as u32)
}

/// Insert `c` into the sorted pool, keeping it sorted and duplicate-free.
fn sorted_insert(pool: &mut Vec<char>, c: char)
    requires
        sorted_strict(old(pool)@),
    ensures
        sorted_strict(final(pool)@),
        final(pool)@.contains(c),
        forall|d: char| old(pool)@.contains(d) ==> final(pool)@.contains(d),
        forall|d: char| final(pool)@.contains(d) ==> d == c || old(pool)@.contains(d),
{
    let mut k: usize = 0;
    while k < pool.len() && char_lt(pool[k], c)
        invariant
            k <= pool@.len(),
            sorted_strict(pool@),
            pool@ == old(pool)@,
            forall|j: int| 0 <= j < k ==> (pool@[j] as int) < (c as int),
        decreases pool@.len() - k,
    {
        k = k + 1;
    }
    if k < pool.len() && pool[k] == c {
        proof {
            assert(pool@.contains(c));
        }
        return ;
    }
    let ghost pre = pool@;
    proof {
        if k < pre.len() {
            assert((c as int) <= (pre[k as int] as int));
            assert(pre[k as int] != c);
        }
    }
    pool.insert(k, c);
    proof {
        assert(pool@ == pre.insert(k as int, c));
        assert(pool@[k as int] == c);
        assert(pool@.contains(c));
        assert(forall|j: int| 0 <= j < k ==> pool@[j] == pre[j]);
        assert(forall|j: int| k < j < pool@.len() ==> pool@[j] == pre[j - 1]);
        assert forall|a: int, b: int|
            0 <= a < b < pool@.len() implies (pool@[a] as int) < (pool@[b] as int) by {
            if a == k {
                assert(b - 1 >= k && b - 1 < pre.len());
                if b - 1 > k {
                    assert((pre[k as int] as int) < (pre[b - 1] as int));
                }
                assert((c as int) <= (pre[b - 1] as int) && c != pre[b - 1]);
            } else if b == k {
                assert((pre[a] as int) < (c as int));
            }
        }
        assert forall|d: char| pre.contains(d) implies pool@.contains(d) by {
            let j = choose|j: int| 0 <= j < pre.len() && pre[j] == d;
            if j < k {
                assert(pool@[j] == d);
            } else {
                assert(pool@[j + 1] == d);
            }
        }
        assert forall|d: char| pool@.contains(d) implies d == c || pre.contains(d) by {
            let j = choose|j: int| 0 <= j < pool@.len() && pool@[j] == d;
            if j < k {
                assert(pre[j] == d);
            } else if j > k {
                assert(pre[j - 1] == d);
            }
        }
    }
}

/// The distinct characters occurring anywhere in the dictionary, in strictly
/// increasing code-point order. This is the alphabet the guess pool starts
/// from; the game supports arbitrary scripts, so no alphabet is assumed.
pub fn unique_chars(words: &Vec<Vec<char>>) -> (r: Vec<char>)
    ensures
        sorted_strict(r@),
        forall|c: char| r@.contains(c) <==> dict_has_char(words.deep_view(), c),
{
    let mut r: Vec<char> = Vec::new();
    let mut i: usize = 0;
    while i < words.len()
        invariant
            i <= words@.len(),
            sorted_strict(r@),
            forall|c: char| r@.contains(c) ==> dict_has_char(words.deep_view(), c),
            forall|a: int, b: int|
                0 <= a < i && 0 <= b < words.deep_view()[a].len() ==> r@.contains(
                    #[trigger] words.deep_view()[a][b],
                ),
        decreases words@.len() - i,
    {
        let word = &words[i];
        let mut j: usize = 0;
        while j < word.len()
            invariant
                0 <= i < words@.len(),
                j <= word@.len(),
                word == words@[i as int],
                sorted_strict(r@),
                forall|c: char| r@.contains(c) ==> dict_has_char(words.deep_view(), c),
                forall|a: int, b: int|
                    0 <= a < i && 0 <= b < words.deep_view()[a].len() ==> r@.contains(
                        #[trigger] words.deep_view()[a][b],
                    ),
                forall|b: int|
                    0 <= b < j ==> r@.contains(#[trigger] words.deep_view()[i as int][b]),
            decreases word@.len() - j,
        {
            let c = word[j];
            proof {
                lemma_word_deep_view(words@[i as int]);
                assert(words.deep_view()[i as int][j as int] == c);
            }
            sorted_insert(&mut r, c);
            j = j + 1;
        }
        proof {
            lemma_word_deep_view(words@[i as int]);
        }
        i = i + 1;
    }
    proof {
        assert forall|c: char| dict_has_char(words.deep_view(), c) implies r@.contains(c) by {
            let (a, b): (int, int) = choose|a: int, b: int|
                0 <= a < words.deep_view().len() && 0 <= b < words.deep_view()[a].len()
                    && words.deep_view()[a][b] == c;
            assert(r@.contains(words.deep_view()[a][b]));
        }
    }
    r
}

} // verus!
