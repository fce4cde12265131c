//! Clean-up of transcribed text: collapses phrases repeated three or more
//! times in a row, caps runs of one repeated word at two, and trims.

use vstd::prelude::*;
use crate::text::{
    all_words, byte_len, chars_eq, chars_of, is_word, is_ws, join, join_with, lemma_join_bytes,
    lemma_trim_bytes, lemma_trim_edges, lemma_words_bytes, lemma_words_of_join,
    lemma_words_of_trim, lemma_words_wf, seqs_of, space, split_whitespace, string_of, sum_bytes,
    trim, trim_chars, words,
};

verus! {

/// Punctuation ignored at the end of a word when comparing phrases.
pub open spec fn is_trailing_punct(c: char) -> bool {
    c == ',' || c == '.' || c == '!' || c == '?'
}

/// `w` without trailing `,` `.` `!` `?` characters.
pub open spec fn strip_trailing_punct(w: Seq<char>) -> Seq<char>
    decreases w.len(),
{
    if w.len() > 0 && is_trailing_punct(w.last()) {
        strip_trailing_punct(w.drop_last())
    } else {
        w
    }
}

/// Two phrases match when they have the same number of words and the words
/// agree once trailing punctuation is ignored.
pub open spec fn phrases_match(a: Seq<Seq<char>>, b: Seq<Seq<char>>) -> bool {
    &&& a.len() == b.len()
    &&& forall|k: int|
        0 <= k < a.len() ==> #[trigger] strip_trailing_punct(a[k]) == strip_trailing_punct(b[k])
}

/// Scanning from word `j` in steps of `n`, the first index at which the
/// `n` words no longer repeat the phrase `ws[i..i+n]`.
pub open spec fn run_end(ws: Seq<Seq<char>>, n: nat, i: int, j: int) -> int
    decreases ws.len() - j,
{
    if n > 0 && 0 <= i && i + n <= ws.len() && 0 <= j && j + n <= ws.len() && phrases_match(
        ws.subrange(i, i + n),
        ws.subrange(j, j + n),
    ) {
        run_end(ws, n, i, j + n)
    } else {
        j
    }
}

/// `run_end` never moves backwards and stays inside the words.
pub proof fn lemma_run_end_bounds(ws: Seq<Seq<char>>, n: nat, i: int, j: int)
    requires
        j <= ws.len(),
    ensures
        j <= run_end(ws, n, i, j) <= ws.len(),
    decreases ws.len() - j,
{
    if n > 0 && 0 <= i && i + n <= ws.len() && 0 <= j && j + n <= ws.len() && phrases_match(
        ws.subrange(i, i + n),
        ws.subrange(j, j + n),
    ) {
        lemma_run_end_bounds(ws, n, i, j + n);
    }
}

/// The words from index `i` on after collapsing: a phrase of `n` words that
/// occurs three or more times in a row is kept once.
pub open spec fn collapse_from(ws: Seq<Seq<char>>, n: nat, i: int) -> Seq<Seq<char>>
    decreases ws.len() - i,
{
    if n == 0 || i < 0 || i >= ws.len() {
        seq![]
    } else if i + 2 * n <= ws.len() && run_end(ws, n, i, i + n) >= i + 3 * n {
        proof {
            lemma_run_end_bounds(ws, n, i, i + n);
        }
        ws.subrange(i, i + n) + collapse_from(ws, n, run_end(ws, n, i, i + n))
    } else {
        seq![ws[i]] + collapse_from(ws, n, i + 1)
    }
}

/// One pass over phrases of `n` words: texts of fewer than `3 * n` words
/// are returned as they are, others are rebuilt from the collapsed words
/// joined by single spaces.
pub open spec fn collapse_phrases(text: Seq<char>, n: nat) -> Seq<char> {
    let ws = words(text);
    if ws.len() < 3 * n {
        text
    } else {
        join_with(collapse_from(ws, n, 0), space())
    }
}

/// The passes for phrase lengths 2, 3, ..., `n`, in that order.
pub open spec fn collapse_phrases_upto(text: Seq<char>, n: nat) -> Seq<char>
    decreases n,
{
    if n < 2 {
        text
    } else {
        collapse_phrases(collapse_phrases_upto(text, (n - 1) as nat), n)
    }
}

/// Longest phrase length that is collapsed.
pub open spec fn max_phrase_len() -> nat {
    20
}

/// Whether word `i` survives run capping: it is dropped when it is the
/// third (or later) copy of one word in a row.
pub open spec fn keeps_word(ws: Seq<Seq<char>>, i: int) -> bool {
    !(i >= 2 && ws[i] == ws[i - 1] && ws[i - 1] == ws[i - 2])
}

/// `ws` with every run of one word cut down to at most two copies.
pub open spec fn cap_word_runs(ws: Seq<Seq<char>>) -> Seq<Seq<char>>
    decreases ws.len(),
{
    if ws.len() == 0 {
        seq![]
    } else if keeps_word(ws, ws.len() - 1) {
        cap_word_runs(ws.drop_last()).push(ws.last())
    } else {
        cap_word_runs(ws.drop_last())
    }
}

/// Repetition removal: the phrase passes, then (for three or more words)
/// run capping with the words joined by single spaces.
pub open spec fn without_repetitions(text: Seq<char>) -> Seq<char> {
    let r = collapse_phrases_upto(text, max_phrase_len());
    let ws = words(r);
    if ws.len() < 3 {
        r
    } else {
        join_with(cap_word_runs(ws), space())
    }
}

/// What `cleanup` returns for `text`.
pub open spec fn cleaned(text: Seq<char>) -> Seq<char> {
    trim(without_repetitions(text))
}

/// No word occurs three times in a row.
pub open spec fn no_triple_runs(ws: Seq<Seq<char>>) -> bool {
    forall|i: int| 2 <= i < ws.len() ==> !(#[trigger] ws[i] == ws[i - 1] && ws[i - 1] == ws[i - 2])
}

/// Run capping leaves no word three times in a row, ends with the last
/// word, ends in a pair only where the input does, and keeps only input
/// words.
proof fn lemma_cap_word_runs(ws: Seq<Seq<char>>)
    ensures
        no_triple_runs(cap_word_runs(ws)),
        ws.len() > 0 ==> cap_word_runs(ws).len() > 0 && cap_word_runs(ws).last() == ws.last(),
        ({
            let c = cap_word_runs(ws);
            c.len() >= 2 && c[c.len() - 1] == c[c.len() - 2] ==> ws.len() >= 2 && ws[ws.len()
                - 1] == ws[ws.len() - 2]
        }),
        forall|k: int|
            0 <= k < cap_word_runs(ws).len() ==> ws.contains(#[trigger] cap_word_runs(ws)[k]),
    decreases ws.len(),
{
    if ws.len() > 0 {
        let rest = ws.drop_last();
        lemma_cap_word_runs(rest);
        let c0 = cap_word_runs(rest);
        if keeps_word(ws, ws.len() - 1) {
            let c = c0.push(ws.last());
            assert forall|i: int| 2 <= i < c.len() implies !(#[trigger] c[i] == c[i - 1] && c[i
                - 1] == c[i - 2]) by {
                if i < c0.len() {
                    assert(c[i] == c0[i] && c[i - 1] == c0[i - 1] && c[i - 2] == c0[i - 2]);
                } else {
                    assert(c[i - 1] == c0[c0.len() - 1] && c[i - 2] == c0[c0.len() - 2]);
                }
            }
            assert forall|k: int| 0 <= k < c.len() implies ws.contains(#[trigger] c[k]) by {
                if k < c0.len() {
                    assert(rest.contains(c0[k]));
                    let j = choose|j: int| 0 <= j < rest.len() && rest[j] == c0[k];
                    assert(ws[j] == c0[k]);
                } else {
                    assert(ws[ws.len() - 1] == c[k]);
                }
            }
            if c.len() >= 2 && c[c.len() - 1] == c[c.len() - 2] {
                assert(c[c.len() - 2] == c0.last());
            }
        } else {
            assert forall|k: int| 0 <= k < c0.len() implies ws.contains(#[trigger] c0[k]) by {
                assert(rest.contains(c0[k]));
                let j = choose|j: int| 0 <= j < rest.len() && rest[j] == c0[k];
                assert(ws[j] == c0[k]);
            }
        }
    }
}

/// Cleaned-up text never holds one word three times in a row
/// ("так так" is kept, "так так так" is not).
pub proof fn law_no_word_three_times_in_a_row(text: Seq<char>)
    ensures
        no_triple_runs(words(cleaned(text))),
{
    let r = collapse_phrases_upto(text, max_phrase_len());
    let ws = words(r);
    lemma_words_of_trim(without_repetitions(text));
    if ws.len() >= 3 {
        lemma_cap_word_runs(ws);
        lemma_words_wf(r);
        let c = cap_word_runs(ws);
        lemma_drawn_words(ws, c);
        lemma_words_of_join(c);
    }
}

/// Collapsing from `i` keeps at most the words from `i` on, and only words
/// of the input.
proof fn lemma_collapse_from(ws: Seq<Seq<char>>, n: nat, i: int)
    requires
        0 <= i,
    ensures
        i <= ws.len() ==> collapse_from(ws, n, i).len() <= ws.len() - i,
        forall|k: int|
            0 <= k < collapse_from(ws, n, i).len() ==> ws.contains(#[trigger] collapse_from(ws, n, i)[k]),
    decreases ws.len() - i,
{
    if n == 0 || i >= ws.len() {
    } else if i + 2 * n <= ws.len() && run_end(ws, n, i, i + n) >= i + 3 * n {
        let j = run_end(ws, n, i, i + n);
        lemma_run_end_bounds(ws, n, i, i + n);
        lemma_collapse_from(ws, n, j);
        let head = ws.subrange(i, i + n);
        let c = collapse_from(ws, n, i);
        assert(c == head + collapse_from(ws, n, j));
        assert forall|k: int| 0 <= k < c.len() implies ws.contains(#[trigger] c[k]) by {
            if k < n {
                assert(ws[i + k] == c[k]);
            } else {
                assert(c[k] == collapse_from(ws, n, j)[k - n]);
            }
        }
    } else {
        lemma_collapse_from(ws, n, i + 1);
        let c = collapse_from(ws, n, i);
        assert forall|k: int| 0 <= k < c.len() implies ws.contains(#[trigger] c[k]) by {
            if k == 0 {
                assert(ws[i] == c[k]);
            } else {
                assert(c[k] == collapse_from(ws, n, i + 1)[k - 1]);
            }
        }
    }
}

/// Words drawn from the words of a text are well-formed.
proof fn lemma_drawn_words(ws: Seq<Seq<char>>, c: Seq<Seq<char>>)
    requires
        all_words(ws),
        forall|k: int| 0 <= k < c.len() ==> ws.contains(#[trigger] c[k]),
    ensures
        all_words(c),
{
    assert forall|k: int| 0 <= k < c.len() implies is_word(#[trigger] c[k]) by {
        assert(ws.contains(c[k]));
        let j = choose|j: int| 0 <= j < ws.len() && ws[j] == c[k];
        assert(is_word(ws[j]));
    }
}

/// Every word of `a` is a word of `b`, and `a` has no more words.
pub open spec fn words_drawn_from(a: Seq<Seq<char>>, b: Seq<Seq<char>>) -> bool {
    &&& a.len() <= b.len()
    &&& forall|k: int| 0 <= k < a.len() ==> b.contains(#[trigger] a[k])
}

proof fn lemma_drawn_trans(a: Seq<Seq<char>>, b: Seq<Seq<char>>, c: Seq<Seq<char>>)
    requires
        words_drawn_from(a, b),
        words_drawn_from(b, c),
    ensures
        words_drawn_from(a, c),
{
    assert forall|k: int| 0 <= k < a.len() implies c.contains(#[trigger] a[k]) by {
        assert(b.contains(a[k]));
        let j = choose|j: int| 0 <= j < b.len() && b[j] == a[k];
        assert(c.contains(b[j]));
    }
}

proof fn lemma_cap_len(ws: Seq<Seq<char>>)
    ensures
        cap_word_runs(ws).len() <= ws.len(),
    decreases ws.len(),
{
    if ws.len() > 0 {
        lemma_cap_len(ws.drop_last());
    }
}

/// One phrase pass only drops words.
proof fn lemma_pass_drawn(text: Seq<char>, n: nat)
    ensures
        words_drawn_from(words(collapse_phrases(text, n)), words(text)),
{
    let ws = words(text);
    if ws.len() < 3 * n {
        assert(forall|k: int| 0 <= k < ws.len() ==> ws.contains(#[trigger] ws[k]));
    } else {
        let c = collapse_from(ws, n, 0);
        lemma_collapse_from(ws, n, 0);
        lemma_words_wf(text);
        lemma_drawn_words(ws, c);
        lemma_words_of_join(c);
    }
}

proof fn lemma_passes_drawn(text: Seq<char>, n: nat)
    ensures
        words_drawn_from(words(collapse_phrases_upto(text, n)), words(text)),
    decreases n,
{
    if n < 2 {
        let ws = words(text);
        assert(forall|k: int| 0 <= k < ws.len() ==> ws.contains(#[trigger] ws[k]));
    } else {
        let prev = collapse_phrases_upto(text, (n - 1) as nat);
        lemma_passes_drawn(text, (n - 1) as nat);
        lemma_pass_drawn(prev, n);
        lemma_drawn_trans(words(collapse_phrases(prev, n)), words(prev), words(text));
    }
}

/// Clean-up only removes words: every word of the result is a word of the
/// input, and there are no more of them.
pub proof fn law_cleanup_only_removes_words(text: Seq<char>)
    ensures
        words_drawn_from(words(cleaned(text)), words(text)),
{
    let r = collapse_phrases_upto(text, max_phrase_len());
    let ws = words(r);
    lemma_passes_drawn(text, max_phrase_len());
    lemma_words_of_trim(without_repetitions(text));
    if ws.len() >= 3 {
        let c = cap_word_runs(ws);
        lemma_cap_word_runs(ws);
        lemma_cap_len(ws);
        lemma_words_wf(r);
        lemma_drawn_words(ws, c);
        lemma_words_of_join(c);
        lemma_drawn_trans(c, ws, words(text));
    }
}

/// `f` maps each piece of `a`, in order, to an equal piece of `b` at
/// strictly increasing positions.
pub open spec fn index_map_into(a: Seq<Seq<char>>, b: Seq<Seq<char>>, f: Seq<int>) -> bool {
    &&& f.len() == a.len()
    &&& forall|k: int| 0 <= k < f.len() ==> 0 <= #[trigger] f[k] < b.len() && a[k] == b[f[k]]
    &&& forall|k: int, l: int| 0 <= k < l < f.len() ==> #[trigger] f[k] < #[trigger] f[l]
}

/// `a` is `b` with some pieces left out, the rest in their order.
pub open spec fn is_subsequence(a: Seq<Seq<char>>, b: Seq<Seq<char>>) -> bool {
    exists|f: Seq<int>| index_map_into(a, b, f)
}

/// Where the words kept by `collapse_from` come from.
pub open spec fn collapse_map(ws: Seq<Seq<char>>, n: nat, i: int) -> Seq<int>
    decreases ws.len() - i,
{
    if n == 0 || i < 0 || i >= ws.len() {
        seq![]
    } else if i + 2 * n <= ws.len() && run_end(ws, n, i, i + n) >= i + 3 * n {
        proof {
            lemma_run_end_bounds(ws, n, i, i + n);
        }
        Seq::new(n, |k: int| i + k) + collapse_map(ws, n, run_end(ws, n, i, i + n))
    } else {
        seq![i] + collapse_map(ws, n, i + 1)
    }
}

proof fn lemma_collapse_map(ws: Seq<Seq<char>>, n: nat, i: int)
    requires
        0 <= i,
    ensures
        index_map_into(collapse_from(ws, n, i), ws, collapse_map(ws, n, i)),
        forall|k: int| 0 <= k < collapse_map(ws, n, i).len() ==> i <= #[trigger] collapse_map(ws, n, i)[k],
    decreases ws.len() - i,
{
    if n == 0 || i >= ws.len() {
    } else if i + 2 * n <= ws.len() && run_end(ws, n, i, i + n) >= i + 3 * n {
        let j = run_end(ws, n, i, i + n);
        lemma_run_end_bounds(ws, n, i, i + n);
        lemma_collapse_map(ws, n, j);
        let head = Seq::new(n, |k: int| i + k);
        let rest = collapse_map(ws, n, j);
        let f = collapse_map(ws, n, i);
        let c = collapse_from(ws, n, i);
        assert(f == head + rest);
        assert(c == ws.subrange(i, i + n) + collapse_from(ws, n, j));
        assert forall|k: int| 0 <= k < f.len() implies 0 <= #[trigger] f[k] < ws.len() && c[k]
            == ws[f[k]] by {
            if k >= n {
                assert(f[k] == rest[k - n]);
                assert(c[k] == collapse_from(ws, n, j)[k - n]);
            }
        }
        assert forall|k: int, l: int| 0 <= k < l < f.len() implies #[trigger] f[k] < #[trigger] f[l] by {
            if l >= n {
                assert(f[l] == rest[l - n]);
                if k >= n {
                    assert(f[k] == rest[k - n]);
                }
            }
        }
        assert forall|k: int| 0 <= k < f.len() implies i <= #[trigger] f[k] by {
            if k >= n {
                assert(f[k] == rest[k - n]);
            }
        }
    } else {
        lemma_collapse_map(ws, n, i + 1);
        let rest = collapse_map(ws, n, i + 1);
        let f = collapse_map(ws, n, i);
        let c = collapse_from(ws, n, i);
        assert(f == seq![i] + rest);
        assert(c == seq![ws[i]] + collapse_from(ws, n, i + 1));
        assert forall|k: int| 0 <= k < f.len() implies 0 <= #[trigger] f[k] < ws.len() && c[k]
            == ws[f[k]] by {
            if k >= 1 {
                assert(f[k] == rest[k - 1]);
                assert(c[k] == collapse_from(ws, n, i + 1)[k - 1]);
            }
        }
        assert forall|k: int, l: int| 0 <= k < l < f.len() implies #[trigger] f[k] < #[trigger] f[l] by {
            assert(f[l] == rest[l - 1]);
            if k >= 1 {
                assert(f[k] == rest[k - 1]);
            }
        }
        assert forall|k: int| 0 <= k < f.len() implies i <= #[trigger] f[k] by {
            if k >= 1 {
                assert(f[k] == rest[k - 1]);
            }
        }
    }
}

/// Where the words kept by `cap_word_runs` come from.
pub open spec fn cap_map(ws: Seq<Seq<char>>) -> Seq<int>
    decreases ws.len(),
{
    if ws.len() == 0 {
        seq![]
    } else if keeps_word(ws, ws.len() - 1) {
        cap_map(ws.drop_last()).push(ws.len() - 1)
    } else {
        cap_map(ws.drop_last())
    }
}

proof fn lemma_cap_map(ws: Seq<Seq<char>>)
    ensures
        index_map_into(cap_word_runs(ws), ws, cap_map(ws)),
    decreases ws.len(),
{
    if ws.len() > 0 {
        let rest = ws.drop_last();
        lemma_cap_map(rest);
        let f0 = cap_map(rest);
        let c0 = cap_word_runs(rest);
        assert forall|k: int| 0 <= k < f0.len() implies 0 <= #[trigger] f0[k] < ws.len() && c0[k]
            == ws[f0[k]] by {
            assert(rest[f0[k]] == ws[f0[k]]);
        }
        if keeps_word(ws, ws.len() - 1) {
            let f = f0.push(ws.len() - 1);
            let c = c0.push(ws.last());
            assert forall|k: int| 0 <= k < f.len() implies 0 <= #[trigger] f[k] < ws.len() && c[k]
                == ws[f[k]] by {
                if k < f0.len() {
                    assert(f[k] == f0[k] && c[k] == c0[k]);
                }
            }
            assert forall|k: int, l: int| 0 <= k < l < f.len() implies #[trigger] f[k] < #[trigger] f[l] by {
                assert(f[k] == f0[k]);
                if l < f0.len() {
                    assert(f[l] == f0[l]);
                }
            }
        }
    }
}

/// Mapping through two subsequences gives a subsequence.
proof fn lemma_map_compose(
    a: Seq<Seq<char>>,
    b: Seq<Seq<char>>,
    c: Seq<Seq<char>>,
    f: Seq<int>,
    g: Seq<int>,
)
    requires
        index_map_into(a, b, f),
        index_map_into(b, c, g),
    ensures
        index_map_into(a, c, Seq::new(f.len(), |k: int| g[f[k]])),
{
    let h = Seq::new(f.len(), |k: int| g[f[k]]);
    assert forall|k: int| 0 <= k < h.len() implies 0 <= #[trigger] h[k] < c.len() && a[k] == c[h[k]] by {
        assert(0 <= f[k] < b.len());
        assert(0 <= g[f[k]] < c.len());
    }
    assert forall|k: int, l: int| 0 <= k < l < h.len() implies #[trigger] h[k] < #[trigger] h[l] by {
        assert(f[k] < f[l]);
        assert(0 <= f[l] < b.len());
        assert(g[f[k]] < g[f[l]]);
    }
}

proof fn lemma_map_identity(a: Seq<Seq<char>>)
    ensures
        index_map_into(a, a, Seq::new(a.len(), |k: int| k)),
{
}

/// A subsequence has no more pieces and no more bytes.
proof fn lemma_subsequence_bytes(a: Seq<Seq<char>>, b: Seq<Seq<char>>, f: Seq<int>)
    requires
        index_map_into(a, b, f),
    ensures
        a.len() <= b.len(),
        sum_bytes(a) <= sum_bytes(b),
    decreases b.len(),
{
    if b.len() == 0 {
        if a.len() > 0 {
            assert(0 <= f[0] < b.len());
        }
    } else if a.len() > 0 && f.last() == b.len() - 1 {
        let a1 = a.drop_last();
        let f1 = f.drop_last();
        let b1 = b.drop_last();
        assert forall|k: int| 0 <= k < f1.len() implies 0 <= #[trigger] f1[k] < b1.len() && a1[k]
            == b1[f1[k]] by {
            assert(f[k] < f[f.len() - 1]);
        }
        assert forall|k: int, l: int| 0 <= k < l < f1.len() implies #[trigger] f1[k] < #[trigger] f1[l] by {
            assert(f[k] < f[l]);
        }
        lemma_subsequence_bytes(a1, b1, f1);
        assert(a.last() == b.last());
    } else {
        let b1 = b.drop_last();
        assert forall|k: int| 0 <= k < f.len() implies 0 <= #[trigger] f[k] < b1.len() && a[k]
            == b1[f[k]] by {
            if k < f.len() - 1 {
                assert(f[k] < f[f.len() - 1]);
            }
        }
        lemma_subsequence_bytes(a, b1, f);
    }
}

/// One phrase pass keeps the word order, drops words only and never adds
/// bytes.
proof fn lemma_pass_order_bytes(text: Seq<char>, n: nat)
    ensures
        is_subsequence(words(collapse_phrases(text, n)), words(text)),
        byte_len(collapse_phrases(text, n)) <= byte_len(text),
{
    let ws = words(text);
    if ws.len() < 3 * n {
        lemma_map_identity(ws);
    } else {
        let c = collapse_from(ws, n, 0);
        let f = collapse_map(ws, n, 0);
        lemma_collapse_map(ws, n, 0);
        lemma_collapse_from(ws, n, 0);
        lemma_words_wf(text);
        lemma_drawn_words(ws, c);
        lemma_words_of_join(c);
        lemma_subsequence_bytes(c, ws, f);
        lemma_join_bytes(c);
        lemma_words_bytes(text);
    }
}

proof fn lemma_passes_order_bytes(text: Seq<char>, n: nat)
    ensures
        is_subsequence(words(collapse_phrases_upto(text, n)), words(text)),
        byte_len(collapse_phrases_upto(text, n)) <= byte_len(text),
    decreases n,
{
    if n < 2 {
        lemma_map_identity(words(text));
    } else {
        let prev = collapse_phrases_upto(text, (n - 1) as nat);
        lemma_passes_order_bytes(text, (n - 1) as nat);
        lemma_pass_order_bytes(prev, n);
        let a = words(collapse_phrases(prev, n));
        let b = words(prev);
        let c = words(text);
        let f = choose|f: Seq<int>| index_map_into(a, b, f);
        let g = choose|g: Seq<int>| index_map_into(b, c, g);
        lemma_map_compose(a, b, c, f, g);
    }
}

/// Clean-up keeps the order of the words it keeps (the result's words are
/// the input's words with some left out) and never makes the text longer
/// in UTF-8 bytes.
pub proof fn law_cleanup_keeps_order_and_never_grows(text: Seq<char>)
    ensures
        is_subsequence(words(cleaned(text)), words(text)),
        byte_len(cleaned(text)) <= byte_len(text),
{
    let r = collapse_phrases_upto(text, max_phrase_len());
    let ws = words(r);
    lemma_passes_order_bytes(text, max_phrase_len());
    lemma_words_of_trim(without_repetitions(text));
    lemma_trim_bytes(without_repetitions(text));
    let g = choose|g: Seq<int>| index_map_into(ws, words(text), g);
    if ws.len() >= 3 {
        let c = cap_word_runs(ws);
        let f = cap_map(ws);
        lemma_cap_map(ws);
        lemma_cap_word_runs(ws);
        lemma_words_wf(r);
        lemma_drawn_words(ws, c);
        lemma_words_of_join(c);
        lemma_map_compose(c, ws, words(text), f, g);
        lemma_subsequence_bytes(c, ws, f);
        lemma_join_bytes(c);
        lemma_words_bytes(r);
    }
}

/// Cleaned-up text neither starts nor ends with whitespace.
pub proof fn law_cleaned_text_is_trimmed(text: Seq<char>)
    ensures
        cleaned(text).len() > 0 ==> !is_ws(cleaned(text)[0]) && !is_ws(cleaned(text).last()),
{
    lemma_trim_edges(without_repetitions(text));
}

/// The phrase passes leave a text of fewer than six words as it is.
proof fn lemma_short_text_passes(text: Seq<char>, n: nat)
    requires
        words(text).len() < 6,
    ensures
        collapse_phrases_upto(text, n) == text,
    decreases n,
{
    if n >= 2 {
        lemma_short_text_passes(text, (n - 1) as nat);
    }
}

/// A text of fewer than six words loses no phrases: only runs of one word
/// are capped; one of fewer than three words is only trimmed.
pub proof fn law_short_text(text: Seq<char>)
    ensures
        words(text).len() < 6 ==> without_repetitions(text) == (if words(text).len() < 3 {
            text
        } else {
            join_with(cap_word_runs(words(text)), space())
        }),
        words(text).len() < 3 ==> cleaned(text) == trim(text),
{
    if words(text).len() < 6 {
        lemma_short_text_passes(text, max_phrase_len());
    }
}

/// The phrase `p` said `r` times in a row.
pub open spec fn repeat_phrase(p: Seq<Seq<char>>, r: nat) -> Seq<Seq<char>>
    decreases r,
{
    if r == 0 {
        seq![]
    } else {
        repeat_phrase(p, (r - 1) as nat) + p
    }
}

proof fn lemma_repeat_phrase(p: Seq<Seq<char>>, r: nat)
    ensures
        repeat_phrase(p, r).len() == r * p.len(),
        forall|m: int|
            0 <= m < r ==> #[trigger] repeat_phrase(p, r).subrange(m * p.len(), m * p.len() + p.len())
                == p,
    decreases r,
{
    let n = p.len() as int;
    if r > 0 {
        let r1 = (r - 1) as nat;
        lemma_repeat_phrase(p, r1);
        let prev = repeat_phrase(p, r1);
        let all = repeat_phrase(p, r);
        assert(r * n == r1 * n + n) by (nonlinear_arith)
            requires
                r1 == r - 1,
        ;
        assert forall|m: int| 0 <= m < r implies #[trigger] all.subrange(m * n, m * n + n) == p by {
            if m < r1 {
                assert(m * n + n <= r1 * n) by (nonlinear_arith)
                    requires
                        0 <= m < r1,
                        n >= 0,
                ;
                assert(0 <= m * n) by (nonlinear_arith)
                    requires
                        0 <= m,
                        n >= 0,
                ;
                assert(all.subrange(m * n, m * n + n) =~= prev.subrange(m * n, m * n + n));
            } else {
                assert(m * n == r1 * n);
                assert(all.subrange(m * n, m * n + n) =~= p);
            }
        }
    }
}

/// The copy of the phrase at repeat `m`.
proof fn lemma_repeat_at(p: Seq<Seq<char>>, r: nat, m: int)
    requires
        0 <= m < r,
    ensures
        0 <= m * p.len(),
        m * p.len() + p.len() <= r * p.len(),
        repeat_phrase(p, r).len() == r * p.len(),
        repeat_phrase(p, r).subrange(m * p.len(), m * p.len() + p.len()) == p,
{
    lemma_repeat_phrase(p, r);
    let n = p.len() as int;
    assert(0 <= m * n) by (nonlinear_arith)
        requires
            0 <= m,
            n >= 0,
    ;
    assert(m * n + n <= r * n) by (nonlinear_arith)
        requires
            m < r,
            n >= 0,
    ;
}

proof fn lemma_subrange_of_subrange(ws: Seq<Seq<char>>, i: int, e: int, a: int, b: int)
    requires
        0 <= i <= e <= ws.len(),
        0 <= a <= b <= e - i,
    ensures
        ws.subrange(i, e).subrange(a, b) == ws.subrange(i + a, i + b),
{
    assert(ws.subrange(i, e).subrange(a, b) =~= ws.subrange(i + a, i + b));
}

/// Scanning a run of a phrase said `r` times that starts at `i`, from any
/// repeat on, ends where the run does.
proof fn lemma_run_end_run(ws: Seq<Seq<char>>, p: Seq<Seq<char>>, r: nat, i: int, m: nat)
    requires
        p.len() > 0,
        1 <= m <= r,
        0 <= i,
        i + r * p.len() <= ws.len(),
        ws.subrange(i, i + r * p.len()) == repeat_phrase(p, r),
        i + (r + 1) * p.len() > ws.len() || !phrases_match(
            p,
            ws.subrange(i + r * p.len(), i + (r + 1) * p.len()),
        ),
    ensures
        run_end(ws, p.len(), i, i + m * p.len()) == i + r * p.len(),
    decreases r - m,
{
    let n = p.len() as int;
    let rep = repeat_phrase(p, r);
    let j = i + m * n;
    let e = i + r * n;
    assert(i + (r + 1) * n == e + n) by (nonlinear_arith)
        requires
            e == i + r * n,
    ;
    lemma_repeat_at(p, r, 0);
    assert(0 * n == 0);
    lemma_subrange_of_subrange(ws, i, e, 0, n);
    if m < r {
        lemma_repeat_at(p, r, m as int);
        lemma_subrange_of_subrange(ws, i, e, m * n, m * n + n);
        assert(run_end(ws, p.len(), i, j) == run_end(ws, p.len(), i, j + n));
        lemma_run_end_run(ws, p, r, i, m + 1);
        assert(i + (m + 1) * n == j + n) by (nonlinear_arith)
            requires
                j == i + m * n,
        ;
    } else {
        assert(j == e);
        assert(run_end(ws, p.len(), i, j) == j);
    }
}

/// Collapsing at the start of a run of three or more copies of a phrase of
/// `n` words, where the next `n` words (if any) do not match it, keeps the
/// phrase once and goes on after the run.
pub proof fn law_run_of_phrase_collapses(
    ws: Seq<Seq<char>>,
    p: Seq<Seq<char>>,
    r: nat,
    i: int,
)
    requires
        p.len() > 0,
        r >= 3,
        0 <= i,
        i + r * p.len() <= ws.len(),
        ws.subrange(i, i + r * p.len()) == repeat_phrase(p, r),
        i + (r + 1) * p.len() > ws.len() || !phrases_match(
            p,
            ws.subrange(i + r * p.len(), i + (r + 1) * p.len()),
        ),
    ensures
        collapse_from(ws, p.len(), i) == p + collapse_from(ws, p.len(), i + r * p.len()),
{
    let n = p.len() as int;
    lemma_run_end_run(ws, p, r, i, 1);
    lemma_repeat_phrase(p, r);
    assert(1 * n == n);
    assert(r * n >= 3 * n) by (nonlinear_arith)
        requires
            r >= 3,
            n > 0,
    ;
    assert(0 * n == 0);
    assert(repeat_phrase(p, r).subrange(0 * n, 0 * n + n) == p);
    assert(ws.subrange(i, i + n) =~= repeat_phrase(p, r).subrange(0, n));
}

/// Later passes, for phrases longer than the text, leave it as it is.
proof fn lemma_later_passes_keep(text: Seq<char>, n: nat, m: nat)
    requires
        2 <= n <= m,
        words(collapse_phrases_upto(text, n)).len() <= n,
    ensures
        collapse_phrases_upto(text, m) == collapse_phrases_upto(text, n),
    decreases m - n,
{
    if m > n {
        lemma_later_passes_keep(text, n, (m - 1) as nat);
    }
}

/// Run capping leaves words with no triple run as they are.
proof fn lemma_cap_keeps(ws: Seq<Seq<char>>)
    requires
        no_triple_runs(ws),
    ensures
        cap_word_runs(ws) == ws,
    decreases ws.len(),
{
    if ws.len() > 0 {
        let rest = ws.drop_last();
        assert forall|i: int| 2 <= i < rest.len() implies !(#[trigger] rest[i] == rest[i - 1]
            && rest[i - 1] == rest[i - 2]) by {
            assert(ws[i] == rest[i] && ws[i - 1] == rest[i - 1] && ws[i - 2] == rest[i - 2]);
        }
        lemma_cap_keeps(rest);
        if ws.len() >= 3 {
            assert(!(ws[ws.len() - 1] == ws[ws.len() - 2] && ws[ws.len() - 2] == ws[ws.len() - 3]));
        }
        assert(rest.push(ws.last()) =~= ws);
    }
}

/// A phrase of `n` words (`n` from 2 on) said three or more times in a row,
/// with nothing else in the text that the pass for `n` words gets, comes out
/// of that pass said once. When `n` is at most 20 and no word of the phrase
/// stands three times in a row, the cleaned text is that phrase once.
pub proof fn law_repeated_phrase_kept_once(text: Seq<char>, p: Seq<Seq<char>>, r: nat)
    requires
        p.len() >= 2,
        r >= 3,
        words(collapse_phrases_upto(text, (p.len() - 1) as nat)) == repeat_phrase(p, r),
    ensures
        words(collapse_phrases_upto(text, p.len())) == p,
        p.len() <= 20 && no_triple_runs(p) ==> words(cleaned(text)) == p,
{
    let n = p.len();
    let u = collapse_phrases_upto(text, (n - 1) as nat);
    let ws = words(u);
    lemma_repeat_phrase(p, r);
    lemma_words_wf(u);
    assert(0 * n == 0);
    assert(ws.subrange(0, 0 + n as int) == p);
    assert forall|q: int| 0 <= q < p.len() implies is_word(#[trigger] p[q]) by {
        assert(p[q] == ws[q]);
    }
    assert(r * n >= 3 * n) by (nonlinear_arith)
        requires
            r >= 3,
    ;
    assert(ws.subrange(0, 0 + (r * n) as int) =~= ws);
    assert((r + 1) * n == r * n + n) by (nonlinear_arith);
    law_run_of_phrase_collapses(ws, p, r, 0);
    assert(collapse_from(ws, n, (r * n) as int) =~= Seq::<Seq<char>>::empty());
    assert(collapse_from(ws, n, 0) =~= p);
    lemma_words_of_join(p);
    assert(collapse_phrases_upto(text, n) == collapse_phrases(u, n));
    if n <= 20 && no_triple_runs(p) {
        lemma_later_passes_keep(text, n, max_phrase_len());
        lemma_words_of_trim(without_repetitions(text));
        if n >= 3 {
            lemma_cap_keeps(p);
        }
    }
}

/// The pass for phrases of `n` words (`n` from 2 on) runs on what the
/// shorter passes left: where that text opens with a phrase of `n` words
/// said three or more times in a row, the phrase is kept once and the
/// words after the run are collapsed as the pass goes on.
pub proof fn law_pass_collapses_leading_run(text: Seq<char>, p: Seq<Seq<char>>, r: nat)
    requires
        p.len() >= 2,
        r >= 3,
        r * p.len() <= words(collapse_phrases_upto(text, (p.len() - 1) as nat)).len(),
        words(collapse_phrases_upto(text, (p.len() - 1) as nat)).subrange(0, r * p.len() as int)
            == repeat_phrase(p, r),
        (r + 1) * p.len() > words(collapse_phrases_upto(text, (p.len() - 1) as nat)).len()
            || !phrases_match(
            p,
            words(collapse_phrases_upto(text, (p.len() - 1) as nat)).subrange(
                r * p.len() as int,
                (r + 1) * p.len() as int,
            ),
        ),
    ensures
        words(collapse_phrases_upto(text, p.len())) == p + collapse_from(
            words(collapse_phrases_upto(text, (p.len() - 1) as nat)),
            p.len(),
            r * p.len() as int,
        ),
{
    let n = p.len();
    let u = collapse_phrases_upto(text, (n - 1) as nat);
    let ws = words(u);
    let rest = collapse_from(ws, n, (r * n) as int);
    lemma_repeat_at(p, r, 0);
    lemma_words_wf(u);
    assert(0 * n == 0);
    assert(ws.subrange(0, r * n as int).subrange(0, 0 + n as int) =~= ws.subrange(0, 0 + n as int));
    assert forall|q: int| 0 <= q < p.len() implies is_word(#[trigger] p[q]) by {
        assert(p[q] == ws[q]);
    }
    assert(r * n >= 3 * n) by (nonlinear_arith)
        requires
            r >= 3,
    ;
    law_run_of_phrase_collapses(ws, p, r, 0);
    lemma_collapse_from(ws, n, (r * n) as int);
    lemma_drawn_words(ws, rest);
    assert forall|k: int| 0 <= k < (p + rest).len() implies is_word(#[trigger] (p + rest)[k]) by {
        if k < n {
            assert((p + rest)[k] == p[k]);
        } else {
            assert((p + rest)[k] == rest[k - n]);
        }
    }
    lemma_words_of_join(p + rest);
    assert(collapse_phrases_upto(text, n) == collapse_phrases(u, n));
}

/// Clean up transcription text after the speech service returns it.
pub fn cleanup(text: &str) -> (r: String)
    ensures
        r@ == cleaned(text@),
{
    let chars = chars_of(text);
    let without = remove_repetitions(&chars);
    let trimmed = trim_chars(&without);
    string_of(&trimmed)
}

/// Removes phrases repeated three or more times in a row, then caps runs of
/// one word at two copies ("так так" stays, "так так так" does not).
fn remove_repetitions(text: &Vec<char>) -> (r: Vec<char>)
    ensures
        r@ == without_repetitions(text@),
{
    let result = remove_repeated_segments(text);
    let words = split_whitespace(&result);
    if words.len() < 3 {
        return result;
    }
    let ghost ws = seqs_of(words@);
    let mut cleaned: Vec<Vec<char>> = Vec::new();
    let mut repeat_count: usize = 0;
    let mut i: usize = 0;
    while i < words.len()
        invariant
            i <= words.len(),
            ws == seqs_of(words@),
            seqs_of(cleaned@) == cap_word_runs(ws.take(i as int)),
            repeat_count <= i,
            i >= 1 ==> ((repeat_count >= 1) <==> (i >= 2 && ws[i - 1] == ws[i - 2])),
        decreases words.len() - i,
    {
        assert(ws.take(i + 1).drop_last() =~= ws.take(i as int));
        assert(ws.take(i + 1).last() == ws[i as int]);
        let ghost before = cleaned@;
        if i > 0 && chars_eq(&words[i], &words[i - 1]) {
            repeat_count = repeat_count + 1;
            if repeat_count < 2 {
                cleaned.push(words[i].clone());
                assert(cleaned@[cleaned@.len() - 1]@ =~= ws[i as int]);
                assert(seqs_of(cleaned@) =~= seqs_of(before).push(ws[i as int]));
            }
        } else {
            repeat_count = 0;
            cleaned.push(words[i].clone());
            assert(cleaned@[cleaned@.len() - 1]@ =~= ws[i as int]);
            assert(seqs_of(cleaned@) =~= seqs_of(before).push(ws[i as int]));
        }
        i = i + 1;
    }
    assert(ws.take(words.len() as int) =~= ws);
    let sep: Vec<char> = vec![' '];
    assert(sep@ =~= space());
    join(&cleaned, &sep)
}

/// Runs the phrase passes for phrase lengths 2 to 20 words, in that order.
fn remove_repeated_segments(text: &Vec<char>) -> (r: Vec<char>)
    ensures
        r@ == collapse_phrases_upto(text@, max_phrase_len()),
{
    let mut result = text.clone();
    assert(result@ =~= text@);
    let mut segment_len: usize = 2;
    while segment_len <= 20
        invariant
            2 <= segment_len <= 21,
            result@ == collapse_phrases_upto(text@, (segment_len - 1) as nat),
        decreases 21 - segment_len,
    {
        result = remove_repeated_ngram(&result, segment_len);
        segment_len = segment_len + 1;
    }
    result
}

/// One phrase pass over phrases of `n` words.
fn remove_repeated_ngram(text: &Vec<char>, n: usize) -> (r: Vec<char>)
    requires
        1 <= n <= usize::MAX / 3,
    ensures
        r@ == collapse_phrases(text@, n as nat),
{
    let words = split_whitespace(text);
    if words.len() < n * 3 {
        let r = text.clone();
        assert(r@ =~= text@);
        return r;
    }
    let ghost ws = seqs_of(words@);
    let mut result: Vec<Vec<char>> = Vec::new();
    let mut i: usize = 0;
    while i < words.len()
        invariant
            i <= words.len(),
            1 <= n,
            n * 3 <= words.len(),
            ws == seqs_of(words@),
            seqs_of(result@) + collapse_from(ws, n as nat, i as int) == collapse_from(
                ws,
                n as nat,
                0,
            ),
        decreases words.len() - i,
    {
        if n * 2 <= words.len() - i {
            let mut j: usize = i + n;
            while n <= words.len() - j && segments_match(&words, i, j, n)
                invariant
                    i + n <= j <= words.len(),
                    1 <= n,
                    n * 2 <= words.len() - i,
                    ws == seqs_of(words@),
                    run_end(ws, n as nat, i as int, j as int) == run_end(
                        ws,
                        n as nat,
                        i as int,
                        i + n,
                    ),
                decreases words.len() - j,
            {
                j = j + n;
            }
            proof {
                lemma_run_end_bounds(ws, n as nat, i as int, i + n);
            }
            if j - i >= 3 * n {
                let ghost before = seqs_of(result@);
                let mut k: usize = i;
                while k < i + n
                    invariant
                        i <= k <= i + n <= j <= words.len(),
                        ws == seqs_of(words@),
                        seqs_of(result@) == before + ws.subrange(i as int, k as int),
                    decreases i + n - k,
                {
                    let ghost prev = result@;
                    result.push(words[k].clone());
                    assert(result@[result@.len() - 1]@ =~= ws[k as int]);
                    assert(seqs_of(result@) =~= seqs_of(prev).push(ws[k as int]));
                    assert(ws.subrange(i as int, k + 1) =~= ws.subrange(i as int, k as int).push(
                        ws[k as int],
                    ));
                    k = k + 1;
                }
                assert(collapse_from(ws, n as nat, i as int) == ws.subrange(i as int, i + n)
                    + collapse_from(ws, n as nat, j as int));
                assert(seqs_of(result@) + collapse_from(ws, n as nat, j as int) =~= before
                    + collapse_from(ws, n as nat, i as int));
                i = j;
                continue ;
            }
        }
        let ghost before = seqs_of(result@);
        result.push(words[i].clone());
        assert(result@[result@.len() - 1]@ =~= ws[i as int]);
        assert(seqs_of(result@) =~= before.push(ws[i as int]));
        assert(seqs_of(result@) + collapse_from(ws, n as nat, i + 1) =~= before + collapse_from(
            ws,
            n as nat,
            i as int,
        ));
        i = i + 1;
    }
    let sep: Vec<char> = vec![' '];
    assert(sep@ =~= space());
    join(&result, &sep)
}

/// Number of characters of `w` left once trailing punctuation is removed.
fn stripped_len(w: &Vec<char>) -> (k: usize)
    ensures
        k <= w.len(),
        strip_trailing_punct(w@) == w@.take(k as int),
{
    let mut k: usize = w.len();
    assert(w@.take(k as int) =~= w@);
    while k > 0 && (w[k - 1] == ',' || w[k - 1] == '.' || w[k - 1] == '!' || w[k - 1] == '?')
        invariant
            k <= w.len(),
            strip_trailing_punct(w@) == strip_trailing_punct(w@.take(k as int)),
        decreases k,
    {
        assert(w@.take(k as int).drop_last() =~= w@.take(k - 1));
        k = k - 1;
    }
    k
}

/// Whether the phrases of `n` words at `i` and `j` match, ignoring trailing
/// punctuation on each word.
fn segments_match(words: &Vec<Vec<char>>, i: usize, j: usize, n: usize) -> (r: bool)
    requires
        i + n <= words.len(),
        j + n <= words.len(),
    ensures
        r == phrases_match(
            seqs_of(words@).subrange(i as int, i + n),
            seqs_of(words@).subrange(j as int, j + n),
        ),
{
    let ghost a = seqs_of(words@).subrange(i as int, i + n);
    let ghost b = seqs_of(words@).subrange(j as int, j + n);
    let mut k: usize = 0;
    while k < n
        invariant
            k <= n,
            i + n <= words.len(),
            j + n <= words.len(),
            a == seqs_of(words@).subrange(i as int, i + n),
            b == seqs_of(words@).subrange(j as int, j + n),
            forall|m: int| 0 <= m < k ==> #[trigger] strip_trailing_punct(a[m]) == strip_trailing_punct(b[m]),
        decreases n - k,
    {
        let wa = &words[i + k];
        let wb = &words[j + k];
        let la = stripped_len(wa);
        let lb = stripped_len(wb);
        assert(a[k as int] == wa@);
        assert(b[k as int] == wb@);
        if la != lb {
            assert(strip_trailing_punct(a[k as int]).len() != strip_trailing_punct(b[k as int]).len());
            return false;
        }
        let mut m: usize = 0;
        #[verifier::loop_isolation(false)]
        while m < la
            invariant
                m <= la <= wa.len(),
                la <= wb.len(),
                la == lb,
                strip_trailing_punct(a[k as int]) == wa@.take(la as int),
                strip_trailing_punct(b[k as int]) == wb@.take(lb as int),
                forall|q: int| 0 <= q < m ==> wa@[q] == wb@[q],
            decreases la - m,
        {
            if wa[m] != wb[m] {
                assert(wa@.take(la as int)[m as int] != wb@.take(la as int)[m as int]);
                assert(strip_trailing_punct(a[k as int]) != strip_trailing_punct(b[k as int]));
                return false;
            }
            m = m + 1;
        }
        assert(wa@.take(la as int) =~= wb@.take(lb as int));
        k = k + 1;
    }
    true
}

} // verus!
