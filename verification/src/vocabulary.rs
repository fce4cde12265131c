//! Learning vocabulary from user corrections: words a correction brings in
//! are appended to the vocabulary file's text, which biases later
//! transcriptions towards them.

use vstd::prelude::*;
use vstd::utf8::{encode_utf8, encode_scalar, has_width_1_encoding};
use crate::postprocess::index_map_into;
use crate::text::{append_chars, chars_eq, chars_of, join, join_with, seqs_of, split_pieces, string_of, tokens};

verus! {

/// `w` occurs in `s` as a contiguous run (`str::contains`).
pub open spec fn contains_run(s: Seq<char>, w: Seq<char>) -> bool {
    exists|i: int| 0 <= i && i + w.len() <= s.len() && #[trigger] s.subrange(i, i + w.len()) == w
}

/// The words of `ws` (in order, repeats kept) that are not among `olds`
/// and take more than one byte in UTF-8.
pub open spec fn fresh_words(olds: Seq<Seq<char>>, ws: Seq<Seq<char>>) -> Seq<Seq<char>>
    decreases ws.len(),
{
    if ws.len() == 0 {
        seq![]
    } else {
        let w = ws.last();
        let prev = fresh_words(olds, ws.drop_last());
        if !olds.contains(w) && encode_utf8(w).len() > 1 {
            prev.push(w)
        } else {
            prev
        }
    }
}

/// Words that a correction from `old_text` to `new_text` brings in.
pub open spec fn learned_words(old_text: Seq<char>, new_text: Seq<char>) -> Seq<Seq<char>> {
    fresh_words(tokens(old_text), tokens(new_text))
}

/// The words of `ws` that occur in `existing` (`known`) or do not (`!known`).
pub open spec fn split_known(existing: Seq<char>, ws: Seq<Seq<char>>, known: bool) -> Seq<
    Seq<char>,
>
    decreases ws.len(),
{
    if ws.len() == 0 {
        seq![]
    } else {
        let prev = split_known(existing, ws.drop_last(), known);
        if contains_run(existing, ws.last()) == known {
            prev.push(ws.last())
        } else {
            prev
        }
    }
}

/// Marker of the section that learned words go to.
pub open spec fn section_marker() -> Seq<char> {
    "# Auto-learned"@
}

/// Heading written when the section is missing.
pub open spec fn section_heading() -> Seq<char> {
    "\n\n# Auto-learned from corrections\n"@
}

/// Separator of words on one line.
pub open spec fn word_separator() -> Seq<char> {
    seq![',', ' ']
}

/// `content` followed by `ws` on a line of their own, when there are any.
pub open spec fn with_line(content: Seq<char>, ws: Seq<Seq<char>>) -> Seq<char> {
    if ws.len() > 0 {
        content + join_with(ws, word_separator()) + seq!['\n']
    } else {
        content
    }
}

/// The vocabulary text after learning `learned`: the section heading is
/// added when missing, then a line of words new to the text and a line of
/// words it already has (repeating a word strengthens it). `None` when
/// nothing was learned.
pub open spec fn updated_vocabulary(existing: Seq<char>, learned: Seq<Seq<char>>) -> Option<
    Seq<char>,
> {
    if learned.len() == 0 {
        None
    } else {
        let base = if contains_run(existing, section_marker()) {
            existing
        } else {
            existing + section_heading()
        };
        let with_new = with_line(base, split_known(existing, learned, false));
        Some(with_line(with_new, split_known(existing, learned, true)))
    }
}

/// Learning only appends: the existing vocabulary text is kept as it was,
/// at the start.
pub proof fn law_update_only_appends(existing: Seq<char>, learned: Seq<Seq<char>>)
    ensures
        updated_vocabulary(existing, learned) matches Some(v) ==> existing.len() <= v.len()
            && v.take(existing.len() as int) == existing,
{
    if learned.len() > 0 {
        let base = if contains_run(existing, section_marker()) {
            existing
        } else {
            existing + section_heading()
        };
        let with_new = with_line(base, split_known(existing, learned, false));
        let v = with_line(with_new, split_known(existing, learned, true));
        assert(base.take(existing.len() as int) =~= existing);
        assert(with_new.take(existing.len() as int) =~= existing);
        assert(v.take(existing.len() as int) =~= existing);
    }
}

/// Every learned word is a piece of the corrected text, is not a piece of
/// the text it replaced, and takes more than one byte.
pub proof fn law_learned_words_are_new(old_text: Seq<char>, new_text: Seq<char>)
    ensures
        forall|k: int|
            0 <= k < learned_words(old_text, new_text).len() ==> {
                let w = #[trigger] learned_words(old_text, new_text)[k];
                &&& tokens(new_text).contains(w)
                &&& !tokens(old_text).contains(w)
                &&& encode_utf8(w).len() > 1
            },
{
    lemma_fresh_words(tokens(old_text), tokens(new_text));
}

proof fn lemma_fresh_words(olds: Seq<Seq<char>>, ws: Seq<Seq<char>>)
    ensures
        forall|k: int|
            0 <= k < fresh_words(olds, ws).len() ==> {
                let w = #[trigger] fresh_words(olds, ws)[k];
                &&& ws.contains(w)
                &&& !olds.contains(w)
                &&& encode_utf8(w).len() > 1
            },
    decreases ws.len(),
{
    if ws.len() > 0 {
        let rest = ws.drop_last();
        lemma_fresh_words(olds, rest);
        let f = fresh_words(olds, ws);
        let f0 = fresh_words(olds, rest);
        assert forall|k: int| 0 <= k < f.len() implies ws.contains(#[trigger] f[k]) && !olds.contains(
            f[k],
        ) && encode_utf8(f[k]).len() > 1 by {
            if k < f0.len() {
                assert(f[k] == f0[k]);
                let j = choose|j: int| 0 <= j < rest.len() && rest[j] == f0[k];
                assert(ws[j] == f0[k]);
            } else {
                assert(ws[ws.len() - 1] == f[k]);
            }
        }
    }
}

/// Learning misses nothing: the learned words are, in order and with
/// repeats, exactly the pieces of the corrected text that are not equal to a
/// piece of the text it replaced and take more than one byte.
pub proof fn law_learning_is_complete(old_text: Seq<char>, new_text: Seq<char>)
    ensures
        exists|f: Seq<int>|
            {
                &&& index_map_into(learned_words(old_text, new_text), tokens(new_text), f)
                &&& forall|k: int|
                    0 <= k < tokens(new_text).len() ==> ((!tokens(old_text).contains(
                        #[trigger] tokens(new_text)[k],
                    ) && encode_utf8(tokens(new_text)[k]).len() > 1) <==> exists|m: int|
                        0 <= m < f.len() && f[m] == k)
            },
{
    let f = fresh_map(tokens(old_text), tokens(new_text));
    lemma_fresh_map(tokens(old_text), tokens(new_text));
    assert(index_map_into(learned_words(old_text, new_text), tokens(new_text), f));
}

/// Where in `ws` each of `fresh_words(olds, ws)` stands.
pub open spec fn fresh_map(olds: Seq<Seq<char>>, ws: Seq<Seq<char>>) -> Seq<int>
    decreases ws.len(),
{
    if ws.len() == 0 {
        seq![]
    } else {
        let w = ws.last();
        let prev = fresh_map(olds, ws.drop_last());
        if !olds.contains(w) && encode_utf8(w).len() > 1 {
            prev.push(ws.len() - 1)
        } else {
            prev
        }
    }
}

proof fn lemma_fresh_map(olds: Seq<Seq<char>>, ws: Seq<Seq<char>>)
    ensures
        index_map_into(fresh_words(olds, ws), ws, fresh_map(olds, ws)),
        forall|k: int|
            0 <= k < ws.len() ==> ((!olds.contains(#[trigger] ws[k]) && encode_utf8(ws[k]).len() > 1)
                <==> exists|m: int| 0 <= m < fresh_map(olds, ws).len() && fresh_map(olds, ws)[m] == k),
    decreases ws.len(),
{
    if ws.len() > 0 {
        let rest = ws.drop_last();
        lemma_fresh_map(olds, rest);
        let f = fresh_map(olds, ws);
        let f0 = fresh_map(olds, rest);
        let a = fresh_words(olds, ws);
        let a0 = fresh_words(olds, rest);
        let last = ws.len() - 1;
        assert forall|k: int| 0 <= k < f.len() implies 0 <= #[trigger] f[k] < ws.len() && a[k] == ws[f[k]] by {
            if k < f0.len() {
                assert(f[k] == f0[k]);
                assert(a[k] == a0[k]);
                assert(rest[f0[k]] == ws[f0[k]]);
            }
        }
        assert forall|k: int, l: int| 0 <= k < l < f.len() implies #[trigger] f[k] < #[trigger] f[l] by {
            if l < f0.len() {
                assert(f[k] == f0[k] && f[l] == f0[l]);
            } else {
                assert(f[k] == f0[k]);
            }
        }
        assert forall|k: int| 0 <= k < ws.len() implies ((!olds.contains(#[trigger] ws[k])
            && encode_utf8(ws[k]).len() > 1) <==> exists|m: int| 0 <= m < f.len() && f[m] == k) by {
            if k < last {
                assert(rest[k] == ws[k]);
                if exists|m: int| 0 <= m < f0.len() && f0[m] == k {
                    let m = choose|m: int| 0 <= m < f0.len() && f0[m] == k;
                    assert(f[m] == k);
                }
                if exists|m: int| 0 <= m < f.len() && f[m] == k {
                    let m = choose|m: int| 0 <= m < f.len() && f[m] == k;
                    if m >= f0.len() {
                        assert(f[m] == last);
                    }
                    assert(f0[m] == k);
                }
            } else {
                if exists|m: int| 0 <= m < f.len() && f[m] == k {
                    let m = choose|m: int| 0 <= m < f.len() && f[m] == k;
                    if m < f0.len() {
                        assert(f0[m] < rest.len());
                    }
                }
                if !olds.contains(ws[k]) && encode_utf8(ws[k]).len() > 1 {
                    assert(f[f.len() - 1] == k);
                }
            }
        }
    }
}

/// Every learned word is written once: on the line of new words or on the
/// line of reinforced ones.
pub proof fn law_every_learned_word_written(existing: Seq<char>, learned: Seq<Seq<char>>)
    ensures
        split_known(existing, learned, true).len() + split_known(existing, learned, false).len()
            == learned.len(),
    decreases learned.len(),
{
    if learned.len() > 0 {
        law_every_learned_word_written(existing, learned.drop_last());
    }
}

/// What learning appends: after the existing text (and the section heading
/// when the text has none) comes a line with every learned word that the
/// text does not contain, then a line with every learned word that it does,
/// each line words joined by ", " and ended by a newline, left out when it
/// would be empty. Each line holds exactly its learned words, in the order
/// they were learned and with repeats, so every learned word is written
/// once. Nothing is written when nothing was learned.
pub proof fn law_update_writes_both_lines(existing: Seq<char>, learned: Seq<Seq<char>>)
    ensures
        updated_vocabulary(existing, learned) is None <==> learned.len() == 0,
        learned.len() > 0 ==> {
            let fresh = split_known(existing, learned, false);
            let known = split_known(existing, learned, true);
            let base = if contains_run(existing, section_marker()) {
                existing
            } else {
                existing + "\n\n# Auto-learned from corrections\n"@
            };
            let fresh_line = if fresh.len() > 0 {
                join_with(fresh, seq![',', ' ']) + seq!['\n']
            } else {
                seq![]
            };
            let known_line = if known.len() > 0 {
                join_with(known, seq![',', ' ']) + seq!['\n']
            } else {
                seq![]
            };
            updated_vocabulary(existing, learned) == Some(base + fresh_line + known_line)
        },
        forall|known: bool|
            exists|f: Seq<int>|
                {
                    &&& index_map_into(#[trigger] split_known(existing, learned, known), learned, f)
                    &&& forall|k: int|
                        0 <= k < learned.len() ==> (contains_run(existing, #[trigger] learned[k])
                            == known <==> exists|m: int| 0 <= m < f.len() && f[m] == k)
                },
        split_known(existing, learned, false).len() + split_known(existing, learned, true).len()
            == learned.len(),
{
    law_every_learned_word_written(existing, learned);
    if learned.len() > 0 {
        let fresh = split_known(existing, learned, false);
        let known = split_known(existing, learned, true);
        let base = if contains_run(existing, section_marker()) {
            existing
        } else {
            existing + section_heading()
        };
        assert((base + (if fresh.len() > 0 {
            join_with(fresh, word_separator()) + seq!['\n']
        } else {
            seq![]
        })) =~= with_line(base, fresh));
        let with_new = with_line(base, fresh);
        assert((with_new + (if known.len() > 0 {
            join_with(known, word_separator()) + seq!['\n']
        } else {
            seq![]
        })) =~= with_line(with_new, known));
    }
    assert forall|known: bool|
        exists|f: Seq<int>|
            {
                &&& index_map_into(#[trigger] split_known(existing, learned, known), learned, f)
                &&& forall|k: int|
                    0 <= k < learned.len() ==> (contains_run(existing, #[trigger] learned[k])
                        == known <==> exists|m: int| 0 <= m < f.len() && f[m] == k)
            } by {
        lemma_known_map(existing, learned, known);
        assert(index_map_into(split_known(existing, learned, known), learned, known_map(existing, learned, known)));
    }
}

/// Where in `ws` each of `split_known(existing, ws, known)` stands.
pub open spec fn known_map(existing: Seq<char>, ws: Seq<Seq<char>>, known: bool) -> Seq<int>
    decreases ws.len(),
{
    if ws.len() == 0 {
        seq![]
    } else {
        let prev = known_map(existing, ws.drop_last(), known);
        if contains_run(existing, ws.last()) == known {
            prev.push(ws.len() - 1)
        } else {
            prev
        }
    }
}

proof fn lemma_known_map(existing: Seq<char>, ws: Seq<Seq<char>>, known: bool)
    ensures
        index_map_into(split_known(existing, ws, known), ws, known_map(existing, ws, known)),
        forall|k: int|
            0 <= k < ws.len() ==> (contains_run(existing, #[trigger] ws[k]) == known <==> exists|m: int|
                0 <= m < known_map(existing, ws, known).len() && known_map(existing, ws, known)[m] == k),
    decreases ws.len(),
{
    if ws.len() > 0 {
        let rest = ws.drop_last();
        lemma_known_map(existing, rest, known);
        let f = known_map(existing, ws, known);
        let f0 = known_map(existing, rest, known);
        let a = split_known(existing, ws, known);
        let a0 = split_known(existing, rest, known);
        let last = ws.len() - 1;
        assert forall|k: int| 0 <= k < f.len() implies 0 <= #[trigger] f[k] < ws.len() && a[k] == ws[f[k]] by {
            if k < f0.len() {
                assert(f[k] == f0[k]);
                assert(a[k] == a0[k]);
                assert(rest[f0[k]] == ws[f0[k]]);
            }
        }
        assert forall|k: int, l: int| 0 <= k < l < f.len() implies #[trigger] f[k] < #[trigger] f[l] by {
            if l < f0.len() {
                assert(f[k] == f0[k] && f[l] == f0[l]);
            } else {
                assert(f[k] == f0[k]);
            }
        }
        assert forall|k: int| 0 <= k < ws.len() implies (contains_run(existing, #[trigger] ws[k]) == known
            <==> exists|m: int| 0 <= m < f.len() && f[m] == k) by {
            if k < last {
                assert(rest[k] == ws[k]);
                if exists|m: int| 0 <= m < f0.len() && f0[m] == k {
                    let m = choose|m: int| 0 <= m < f0.len() && f0[m] == k;
                    assert(f[m] == k);
                }
                if exists|m: int| 0 <= m < f.len() && f[m] == k {
                    let m = choose|m: int| 0 <= m < f.len() && f[m] == k;
                    if m >= f0.len() {
                        assert(f[m] == last);
                    }
                    assert(f0[m] == k);
                }
            } else {
                if exists|m: int| 0 <= m < f.len() && f[m] == k {
                    let m = choose|m: int| 0 <= m < f.len() && f[m] == k;
                    if m < f0.len() {
                        assert(f0[m] < rest.len());
                    }
                }
                if contains_run(existing, ws[k]) == known {
                    assert(f[f.len() - 1] == k);
                }
            }
        }
    }
}

/// A word's UTF-8 encoding is at least as long as the word.
proof fn lemma_encode_len(w: Seq<char>)
    ensures
        encode_utf8(w).len() >= w.len(),
    decreases w.len(),
{
    if w.len() > 0 {
        lemma_encode_len(w.drop_first());
    }
}

/// Whether `w` takes more than one byte in UTF-8 (`str::len() > 1`).
fn longer_than_one_byte(w: &Vec<char>) -> (r: bool)
    ensures
        r == (encode_utf8(w@).len() > 1),
{
    proof {
        lemma_encode_len(w@);
    }
    if w.len() >= 2 {
        return true;
    }
    if w.len() == 0 {
        return false;
    }
    proof {
        assert(w@.drop_first() =~= Seq::<char>::empty());
        assert(encode_utf8(w@) == encode_scalar(w@[0] as u32) + encode_utf8(w@.drop_first()));
    }
    let u = w[0] as u32;
    u > 0x7F
}

/// Whether `ws` holds a word equal to `w`.
fn holds_word(ws: &Vec<Vec<char>>, w: &Vec<char>) -> (r: bool)
    ensures
        r == seqs_of(ws@).contains(w@),
{
    let mut i: usize = 0;
    while i < ws.len()
        invariant
            i <= ws.len(),
            forall|k: int| 0 <= k < i ==> seqs_of(ws@)[k] != w@,
        decreases ws.len() - i,
    {
        if chars_eq(&ws[i], w) {
            assert(seqs_of(ws@)[i as int] == w@);
            return true;
        }
        i = i + 1;
    }
    false
}

/// Whether `w` occurs in `s` as a contiguous run.
fn contains_chars(s: &Vec<char>, w: &Vec<char>) -> (r: bool)
    ensures
        r == contains_run(s@, w@),
{
    if w.len() > s.len() {
        return false;
    }
    if w.len() == 0 {
        assert(s@.subrange(0, 0 + w@.len() as int) =~= w@);
        return true;
    }
    let mut i: usize = 0;
    while i <= s.len() - w.len()
        invariant
            1 <= w.len() <= s.len(),
            i <= s.len() - w.len() + 1,
            forall|k: int| 0 <= k < i ==> #[trigger] s@.subrange(k, k + w.len()) != w@,
        decreases s.len() - w.len() + 1 - i,
    {
        let mut m: usize = 0;
        let mut same = true;
        while m < w.len()
            invariant
                m <= w.len(),
                i + w.len() <= s.len(),
                same ==> forall|q: int| 0 <= q < m ==> s@[i + q] == w@[q],
                !same ==> s@.subrange(i as int, i + w.len()) != w@,
            decreases w.len() - m,
        {
            if s[i + m] != w[m] {
                assert(s@.subrange(i as int, i + w.len())[m as int] != w@[m as int]);
                same = false;
            }
            m = m + 1;
        }
        if same {
            assert(s@.subrange(i as int, i + w.len()) =~= w@);
            return true;
        }
        i = i + 1;
    }
    assert forall|k: int| 0 <= k && k + w@.len() <= s@.len() implies #[trigger] s@.subrange(
        k,
        k + w@.len(),
    ) != w@ by {}
    false
}

/// Words that a correction from `old_text` to `new_text` brings in: the
/// pieces of the new text (split at whitespace, `,` and `.`) that are not
/// pieces of the old text and are longer than one byte.
pub fn learn_new_words(old_text: &str, new_text: &str) -> (r: Vec<String>)
    ensures
        r@.map_values(|s: String| s@) == learned_words(old_text@, new_text@),
{
    let old_chars = chars_of(old_text);
    let new_chars = chars_of(new_text);
    let olds = split_pieces(&old_chars, true);
    let news = split_pieces(&new_chars, true);
    let ghost ns = seqs_of(news@);
    let mut r: Vec<String> = Vec::new();
    let mut i: usize = 0;
    while i < news.len()
        invariant
            i <= news.len(),
            ns == seqs_of(news@),
            seqs_of(olds@) == tokens(old_text@),
            ns == tokens(new_text@),
            r@.map_values(|s: String| s@) == fresh_words(tokens(old_text@), ns.take(i as int)),
        decreases news.len() - i,
    {
        assert(ns.take(i + 1).drop_last() =~= ns.take(i as int));
        assert(ns.take(i + 1).last() == ns[i as int]);
        let w = &news[i];
        if !holds_word(&olds, w) && longer_than_one_byte(w) {
            let ghost before = r@;
            r.push(string_of(w));
            assert(r@.map_values(|s: String| s@) =~= before.map_values(|s: String| s@).push(
                ns[i as int],
            ));
        }
        i = i + 1;
    }
    assert(ns.take(news.len() as int) =~= ns);
    r
}

/// The vocabulary text `existing` after learning `learned`, or `None` when
/// nothing was learned.
pub fn extend_vocabulary(existing: &str, learned: &Vec<String>) -> (r: Option<String>)
    ensures
        match r {
            Some(s) => updated_vocabulary(existing@, learned@.map_values(|s: String| s@))
                == Some(s@),
            None => updated_vocabulary(existing@, learned@.map_values(|s: String| s@)) is None,
        },
{
    let ghost ls = learned@.map_values(|s: String| s@);
    if learned.len() == 0 {
        return None;
    }
    let text = chars_of(existing);
    let mut to_add: Vec<Vec<char>> = Vec::new();
    let mut to_reinforce: Vec<Vec<char>> = Vec::new();
    let mut i: usize = 0;
    while i < learned.len()
        invariant
            i <= learned.len(),
            ls == learned@.map_values(|s: String| s@),
            text@ == existing@,
            seqs_of(to_add@) == split_known(existing@, ls.take(i as int), false),
            seqs_of(to_reinforce@) == split_known(existing@, ls.take(i as int), true),
        decreases learned.len() - i,
    {
        assert(ls.take(i + 1).drop_last() =~= ls.take(i as int));
        assert(ls.take(i + 1).last() == learned@[i as int]@);
        let w = chars_of(learned[i].as_str());
        if contains_chars(&text, &w) {
            let ghost before = seqs_of(to_reinforce@);
            to_reinforce.push(w);
            assert(seqs_of(to_reinforce@) =~= before.push(learned@[i as int]@));
        } else {
            let ghost before = seqs_of(to_add@);
            to_add.push(w);
            assert(seqs_of(to_add@) =~= before.push(learned@[i as int]@));
        }
        i = i + 1;
    }
    assert(ls.take(learned.len() as int) =~= ls);
    let marker = chars_of("# Auto-learned");
    let mut content = text.clone();
    assert(content@ =~= existing@);
    if !contains_chars(&text, &marker) {
        let heading = chars_of("\n\n# Auto-learned from corrections\n");
        append_chars(&mut content, &heading);
    }
    let sep: Vec<char> = vec![',', ' '];
    assert(sep@ =~= word_separator());
    let newline: Vec<char> = vec!['\n'];
    assert(newline@ =~= seq!['\n']);
    if to_add.len() > 0 {
        let line = join(&to_add, &sep);
        append_chars(&mut content, &line);
        append_chars(&mut content, &newline);
    }
    if to_reinforce.len() > 0 {
        let line = join(&to_reinforce, &sep);
        append_chars(&mut content, &line);
        append_chars(&mut content, &newline);
    }
    Some(string_of(&content))
}

} // verus!
