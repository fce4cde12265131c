//! Character-level text model shared by the rest of the library: Unicode
//! whitespace, splitting into words, joining and trimming.

use vstd::prelude::*;
use vstd::utf8::{encode_scalar, encode_utf8};

verus! {

/// Unicode `White_Space` code points (the set `char::is_whitespace` tests).
pub open spec fn is_ws(c: char) -> bool {
    let u = c as u32;
    ||| 0x9 <= u <= 0xD
    ||| u == 0x20
    ||| u == 0x85
    ||| u == 0xA0
    ||| u == 0x1680
    ||| 0x2000 <= u <= 0x200A
    ||| u == 0x2028
    ||| u == 0x2029
    ||| u == 0x202F
    ||| u == 0x205F
    ||| u == 0x3000
}

/// Whether `c` is Unicode whitespace.
pub fn is_whitespace(c: char) -> (r: bool)
    ensures
        r == is_ws(c),
{
    let u = c as u32;
    (0x9 <= u && u <= 0xD) || u == 0x20 || u == 0x85 || u == 0xA0 || u == 0x1680 || (0x2000
        <= u && u <= 0x200A) || u == 0x2028 || u == 0x2029 || u == 0x202F || u == 0x205F || u
        == 0x3000
}

/// Appends one character to a string (`String::push`).
#[verifier::external_body]
fn string_push(s: &mut String, c: char)
    ensures
        final(s)@ == old(s)@.push(c),
{
    s.push(c);
}

/// The characters of `s`, in order.
pub fn chars_of(s: &str) -> (r: Vec<char>)
    ensures
        r@ == s@,
{
    broadcast use vstd::string::axiom_spec_iter;
    let mut r: Vec<char> = Vec::new();
    for c in it: s.chars()
        invariant
            r@ == it.seq().take(it.index() as int),
            it.seq() == s@,
    {
        r.push(c);
    }
    r
}

/// A string holding exactly the characters `cs`.
pub fn string_of(cs: &Vec<char>) -> (r: String)
    ensures
        r@ == cs@,
{
    let mut r = String::new();
    let mut i: usize = 0;
    while i < cs.len()
        invariant
            i <= cs.len(),
            r@ == cs@.take(i as int),
        decreases cs.len() - i,
    {
        string_push(&mut r, cs[i]);
        assert(cs@.take(i + 1) =~= cs@.take(i as int).push(cs@[i as int]));
        i = i + 1;
    }
    assert(cs@.take(cs.len() as int) =~= cs@);
    r
}


/// The views of a vector of character vectors.
pub open spec fn seqs_of(v: Seq<Vec<char>>) -> Seq<Seq<char>> {
    v.map_values(|w: Vec<char>| w@)
}

/// Separators between pieces: whitespace, and also `,` and `.` when
/// `punct` is set.
pub open spec fn is_separator(c: char, punct: bool) -> bool {
    is_ws(c) || (punct && (c == ',' || c == '.'))
}

/// Left-to-right scan behind `pieces`: the pieces completed so far and the
/// piece being read.
pub open spec fn scan_pieces(s: Seq<char>, punct: bool) -> (Seq<Seq<char>>, Seq<char>)
    decreases s.len(),
{
    if s.len() == 0 {
        (seq![], seq![])
    } else {
        let prev = scan_pieces(s.drop_last(), punct);
        if is_separator(s.last(), punct) {
            if prev.1.len() > 0 {
                (prev.0.push(prev.1), seq![])
            } else {
                (prev.0, seq![])
            }
        } else {
            (prev.0, prev.1.push(s.last()))
        }
    }
}

/// The maximal runs of non-separator characters of `s`, in order.
pub open spec fn pieces(s: Seq<char>, punct: bool) -> Seq<Seq<char>> {
    let st = scan_pieces(s, punct);
    if st.1.len() > 0 {
        st.0.push(st.1)
    } else {
        st.0
    }
}

/// The maximal runs of non-whitespace characters of `s`, in order
/// (what `str::split_whitespace` yields).
pub open spec fn words(s: Seq<char>) -> Seq<Seq<char>> {
    pieces(s, false)
}

/// The non-empty pieces of `s` between whitespace, `,` and `.`.
pub open spec fn tokens(s: Seq<char>) -> Seq<Seq<char>> {
    pieces(s, true)
}

/// The pieces of `ws` with `sep` between neighbours.
pub open spec fn join_with(ws: Seq<Seq<char>>, sep: Seq<char>) -> Seq<char>
    decreases ws.len(),
{
    if ws.len() == 0 {
        seq![]
    } else if ws.len() == 1 {
        ws[0]
    } else {
        join_with(ws.drop_last(), sep) + sep + ws.last()
    }
}

/// A single space.
pub open spec fn space() -> Seq<char> {
    seq![' ']
}

/// `s` without its leading whitespace.
pub open spec fn trim_start(s: Seq<char>) -> Seq<char>
    decreases s.len(),
{
    if s.len() > 0 && is_ws(s[0]) {
        trim_start(s.drop_first())
    } else {
        s
    }
}

/// `s` without its trailing whitespace.
pub open spec fn trim_end(s: Seq<char>) -> Seq<char>
    decreases s.len(),
{
    if s.len() > 0 && is_ws(s.last()) {
        trim_end(s.drop_last())
    } else {
        s
    }
}

/// `s` without leading and trailing whitespace (what `str::trim` gives).
pub open spec fn trim(s: Seq<char>) -> Seq<char> {
    trim_end(trim_start(s))
}

/// A well-formed word: non-empty and free of whitespace.
pub open spec fn is_word(w: Seq<char>) -> bool {
    w.len() > 0 && forall|k: int| 0 <= k < w.len() ==> !is_ws(#[trigger] w[k])
}

/// Every piece of `ws` is a well-formed word.
pub open spec fn all_words(ws: Seq<Seq<char>>) -> bool {
    forall|k: int| 0 <= k < ws.len() ==> is_word(#[trigger] ws[k])
}

/// Reading characters that are not separators extends the current piece.
proof fn lemma_scan_append_word(p: Seq<char>, w: Seq<char>)
    requires
        forall|k: int| 0 <= k < w.len() ==> !is_ws(#[trigger] w[k]),
    ensures
        scan_pieces(p + w, false) == (scan_pieces(p, false).0, scan_pieces(p, false).1 + w),
    decreases w.len(),
{
    if w.len() == 0 {
        assert(p + w =~= p);
        assert(scan_pieces(p, false).1 + w =~= scan_pieces(p, false).1);
    } else {
        let w1 = w.drop_last();
        lemma_scan_append_word(p, w1);
        assert((p + w).drop_last() =~= p + w1);
        assert((p + w).last() == w.last());
        assert(scan_pieces(p, false).1 + w =~= (scan_pieces(p, false).1 + w1).push(w.last()));
    }
}

/// Scanning the words of `ws` joined by single spaces stops inside the last
/// word, having completed all the others.
proof fn lemma_scan_join(ws: Seq<Seq<char>>)
    requires
        ws.len() > 0,
        all_words(ws),
    ensures
        scan_pieces(join_with(ws, space()), false) == (ws.drop_last(), ws.last()),
    decreases ws.len(),
{
    if ws.len() == 1 {
        assert(is_word(ws[0]));
        lemma_scan_append_word(seq![], ws[0]);
        assert(Seq::<char>::empty() + ws[0] =~= ws[0]);
        assert(ws.drop_last() =~= Seq::<Seq<char>>::empty());
        assert(Seq::<char>::empty() + ws[0] =~= ws[0]);
    } else {
        let rest = ws.drop_last();
        assert forall|k: int| 0 <= k < rest.len() implies is_word(#[trigger] rest[k]) by {
            assert(rest[k] == ws[k]);
        }
        lemma_scan_join(rest);
        let j = join_with(rest, space());
        let js = j + space();
        assert(js.drop_last() =~= j);
        assert(is_word(rest[rest.len() - 1]));
        assert(scan_pieces(js, false) == (rest.drop_last().push(rest.last()), Seq::<char>::empty()));
        assert(rest.drop_last().push(rest.last()) =~= rest);
        assert(is_word(ws.last()));
        lemma_scan_append_word(js, ws.last());
        assert(Seq::<char>::empty() + ws.last() =~= ws.last());
    }
}

/// Splitting words joined by single spaces gives the words back.
pub proof fn lemma_words_of_join(ws: Seq<Seq<char>>)
    requires
        all_words(ws),
    ensures
        words(join_with(ws, space())) == ws,
{
    if ws.len() == 0 {
        assert(words(join_with(ws, space())) =~= ws);
    } else {
        lemma_scan_join(ws);
        assert(is_word(ws.last()));
        assert(ws.drop_last().push(ws.last()) =~= ws);
    }
}

/// The pieces found by a scan are well-formed words.
proof fn lemma_scan_wf(s: Seq<char>)
    ensures
        all_words(scan_pieces(s, false).0),
        forall|k: int|
            0 <= k < scan_pieces(s, false).1.len() ==> !is_ws(#[trigger] scan_pieces(s, false).1[k]),
    decreases s.len(),
{
    if s.len() > 0 {
        lemma_scan_wf(s.drop_last());
        let prev = scan_pieces(s.drop_last(), false);
        if !is_ws(s.last()) {
            assert forall|k: int| 0 <= k < prev.1.push(s.last()).len() implies !is_ws(
                #[trigger] prev.1.push(s.last())[k],
            ) by {
                if k < prev.1.len() {
                    assert(prev.1.push(s.last())[k] == prev.1[k]);
                }
            }
        } else if prev.1.len() > 0 {
            assert forall|k: int| 0 <= k < prev.0.push(prev.1).len() implies is_word(
                #[trigger] prev.0.push(prev.1)[k],
            ) by {
                if k < prev.0.len() {
                    assert(prev.0.push(prev.1)[k] == prev.0[k]);
                }
            }
        }
    }
}

/// The words of any text are well-formed.
pub proof fn lemma_words_wf(s: Seq<char>)
    ensures
        all_words(words(s)),
{
    lemma_scan_wf(s);
    let st = scan_pieces(s, false);
    if st.1.len() > 0 {
        assert forall|k: int| 0 <= k < st.0.push(st.1).len() implies is_word(
            #[trigger] st.0.push(st.1)[k],
        ) by {
            if k < st.0.len() {
                assert(st.0.push(st.1)[k] == st.0[k]);
            }
        }
    }
}

/// Scanning only whitespace finds nothing.
proof fn lemma_scan_blank(p: Seq<char>)
    requires
        forall|k: int| 0 <= k < p.len() ==> is_ws(#[trigger] p[k]),
    ensures
        scan_pieces(p, false) == (Seq::<Seq<char>>::empty(), Seq::<char>::empty()),
    decreases p.len(),
{
    if p.len() > 0 {
        assert forall|k: int| 0 <= k < p.drop_last().len() implies is_ws(
            #[trigger] p.drop_last()[k],
        ) by {
            assert(p.drop_last()[k] == p[k]);
        }
        lemma_scan_blank(p.drop_last());
        assert(is_ws(p[p.len() - 1]));
    }
}

/// Leading whitespace does not change a scan.
proof fn lemma_scan_blank_prefix(p: Seq<char>, t: Seq<char>)
    requires
        forall|k: int| 0 <= k < p.len() ==> is_ws(#[trigger] p[k]),
    ensures
        scan_pieces(p + t, false) == scan_pieces(t, false),
    decreases t.len(),
{
    if t.len() == 0 {
        assert(p + t =~= p);
        lemma_scan_blank(p);
    } else {
        lemma_scan_blank_prefix(p, t.drop_last());
        assert((p + t).drop_last() =~= p + t.drop_last());
        assert((p + t).last() == t.last());
    }
}

/// Trimming leaves the words of a text as they are.
pub proof fn lemma_words_of_trim(s: Seq<char>)
    ensures
        words(trim(s)) == words(s),
{
    lemma_words_trim_start(s);
    lemma_words_trim_end(trim_start(s));
}

proof fn lemma_words_trim_start(s: Seq<char>)
    ensures
        words(trim_start(s)) == words(s),
    decreases s.len(),
{
    if s.len() > 0 && is_ws(s[0]) {
        lemma_words_trim_start(s.drop_first());
        let p = seq![s[0]];
        assert forall|k: int| 0 <= k < p.len() implies is_ws(#[trigger] p[k]) by {}
        lemma_scan_blank_prefix(p, s.drop_first());
        assert(p + s.drop_first() =~= s);
    }
}

proof fn lemma_words_trim_end(s: Seq<char>)
    ensures
        words(trim_end(s)) == words(s),
    decreases s.len(),
{
    if s.len() > 0 && is_ws(s.last()) {
        lemma_words_trim_end(s.drop_last());
    }
}

/// A trimmed text neither starts nor ends with whitespace.
pub proof fn lemma_trim_edges(s: Seq<char>)
    ensures
        trim(s).len() > 0 ==> !is_ws(trim(s)[0]) && !is_ws(trim(s).last()),
{
    lemma_trim_start_first(s);
    lemma_trim_end_prefix(trim_start(s));
    lemma_trim_end_last(trim_start(s));
}

proof fn lemma_trim_start_first(s: Seq<char>)
    ensures
        trim_start(s).len() > 0 ==> !is_ws(trim_start(s)[0]),
    decreases s.len(),
{
    if s.len() > 0 && is_ws(s[0]) {
        lemma_trim_start_first(s.drop_first());
    }
}

proof fn lemma_trim_end_prefix(s: Seq<char>)
    ensures
        trim_end(s).len() <= s.len(),
        trim_end(s) == s.take(trim_end(s).len() as int),
    decreases s.len(),
{
    if s.len() > 0 && is_ws(s.last()) {
        lemma_trim_end_prefix(s.drop_last());
        let t = trim_end(s.drop_last());
        assert(s.drop_last().take(t.len() as int) =~= s.take(t.len() as int));
    } else {
        assert(s.take(s.len() as int) =~= s);
    }
}

proof fn lemma_trim_end_last(s: Seq<char>)
    ensures
        trim_end(s).len() > 0 ==> !is_ws(trim_end(s).last()),
    decreases s.len(),
{
    if s.len() > 0 && is_ws(s.last()) {
        lemma_trim_end_last(s.drop_last());
    }
}

/// Length of the UTF-8 encoding of `s`, in bytes.
pub open spec fn byte_len(s: Seq<char>) -> nat {
    encode_utf8(s).len()
}

/// Total UTF-8 length of the pieces of `ws`.
pub open spec fn sum_bytes(ws: Seq<Seq<char>>) -> nat
    decreases ws.len(),
{
    if ws.len() == 0 {
        0
    } else {
        sum_bytes(ws.drop_last()) + byte_len(ws.last())
    }
}

/// The encoding of a concatenation is the concatenation of the encodings.
pub proof fn lemma_byte_len_concat(a: Seq<char>, b: Seq<char>)
    ensures
        byte_len(a + b) == byte_len(a) + byte_len(b),
    decreases a.len(),
{
    if a.len() == 0 {
        assert(a + b =~= b);
    } else {
        assert((a + b).drop_first() =~= a.drop_first() + b);
        assert((a + b)[0] == a[0]);
        lemma_byte_len_concat(a.drop_first(), b);
    }
}

/// One character takes at least one byte; a space takes exactly one.
pub proof fn lemma_byte_len_char(c: char)
    ensures
        byte_len(seq![c]) == encode_scalar(c as u32).len(),
        byte_len(seq![c]) >= 1,
        c == ' ' ==> byte_len(seq![c]) == 1,
{
    assert(seq![c].drop_first() =~= Seq::<char>::empty());
    assert(encode_utf8(seq![c]) == encode_scalar(seq![c][0] as u32) + encode_utf8(
        seq![c].drop_first(),
    ));
}

/// Joining with single spaces adds one byte between neighbours.
pub proof fn lemma_join_bytes(ws: Seq<Seq<char>>)
    ensures
        ws.len() > 0 ==> byte_len(join_with(ws, space())) == sum_bytes(ws) + ws.len() - 1,
        ws.len() == 0 ==> byte_len(join_with(ws, space())) == 0,
    decreases ws.len(),
{
    if ws.len() == 0 {
        assert(encode_utf8(Seq::<char>::empty()) =~= Seq::<u8>::empty());
    } else if ws.len() == 1 {
        assert(ws.drop_last() =~= Seq::<Seq<char>>::empty());
        assert(sum_bytes(ws.drop_last()) == 0);
        assert(sum_bytes(ws) == byte_len(ws[0]));
        assert(join_with(ws, space()) == ws[0]);
    } else {
        let rest = ws.drop_last();
        lemma_join_bytes(rest);
        assert(join_with(ws, space()) == join_with(rest, space()) + space() + ws.last());
        assert(sum_bytes(ws) == sum_bytes(rest) + byte_len(ws.last()));
        let j = join_with(rest, space());
        lemma_byte_len_concat(j + space(), ws.last());
        lemma_byte_len_concat(j, space());
        lemma_byte_len_char(' ');
    }
}

/// A text takes at least as many bytes as its words plus one separator
/// between neighbours.
pub proof fn lemma_words_bytes(s: Seq<char>)
    ensures
        words(s).len() > 0 ==> byte_len(s) >= sum_bytes(words(s)) + words(s).len() - 1,
{
    lemma_scan_bytes(s);
    let st = scan_pieces(s, false);
    if st.1.len() > 0 {
        assert(st.0.push(st.1).drop_last() =~= st.0);
    }
}

proof fn lemma_scan_bytes(s: Seq<char>)
    ensures
        byte_len(s) >= sum_bytes(scan_pieces(s, false).0) + scan_pieces(s, false).0.len()
            + byte_len(scan_pieces(s, false).1),
    decreases s.len(),
{
    if s.len() == 0 {
        assert(encode_utf8(Seq::<char>::empty()) =~= Seq::<u8>::empty());
    } else {
        let s1 = s.drop_last();
        lemma_scan_bytes(s1);
        assert(s1 + seq![s.last()] =~= s);
        lemma_byte_len_concat(s1, seq![s.last()]);
        lemma_byte_len_char(s.last());
        let prev = scan_pieces(s1, false);
        if is_ws(s.last()) {
            if prev.1.len() > 0 {
                assert(prev.0.push(prev.1).drop_last() =~= prev.0);
                assert(encode_utf8(Seq::<char>::empty()) =~= Seq::<u8>::empty());
            }
        } else {
            assert(prev.1 + seq![s.last()] =~= prev.1.push(s.last()));
            lemma_byte_len_concat(prev.1, seq![s.last()]);
        }
    }
}

/// Trimming never adds bytes.
pub proof fn lemma_trim_bytes(s: Seq<char>)
    ensures
        byte_len(trim(s)) <= byte_len(s),
{
    lemma_trim_start_bytes(s);
    lemma_trim_end_bytes(trim_start(s));
}

proof fn lemma_trim_start_bytes(s: Seq<char>)
    ensures
        byte_len(trim_start(s)) <= byte_len(s),
    decreases s.len(),
{
    if s.len() > 0 && is_ws(s[0]) {
        lemma_trim_start_bytes(s.drop_first());
        assert(seq![s[0]] + s.drop_first() =~= s);
        lemma_byte_len_concat(seq![s[0]], s.drop_first());
    }
}

proof fn lemma_trim_end_bytes(s: Seq<char>)
    ensures
        byte_len(trim_end(s)) <= byte_len(s),
    decreases s.len(),
{
    if s.len() > 0 && is_ws(s.last()) {
        lemma_trim_end_bytes(s.drop_last());
        assert(s.drop_last() + seq![s.last()] =~= s);
        lemma_byte_len_concat(s.drop_last(), seq![s.last()]);
    }
}

/// Appends the characters of `other` to `v`.
pub fn append_chars(v: &mut Vec<char>, other: &Vec<char>)
    ensures
        final(v)@ == old(v)@ + other@,
{
    let mut i: usize = 0;
    while i < other.len()
        invariant
            i <= other.len(),
            v@ == old(v)@ + other@.take(i as int),
        decreases other.len() - i,
    {
        v.push(other[i]);
        assert(other@.take(i + 1) =~= other@.take(i as int).push(other@[i as int]));
        i = i + 1;
    }
    assert(other@.take(other.len() as int) =~= other@);
}

/// Whether two character vectors hold the same characters.
pub fn chars_eq(a: &Vec<char>, b: &Vec<char>) -> (r: bool)
    ensures
        r == (a@ == b@),
{
    if a.len() != b.len() {
        return false;
    }
    let mut i: usize = 0;
    while i < a.len()
        invariant
            i <= a.len(),
            a.len() == b.len(),
            forall|k: int| 0 <= k < i ==> a@[k] == b@[k],
        decreases a.len() - i,
    {
        if a[i] != b[i] {
            return false;
        }
        i = i + 1;
    }
    assert(a@ =~= b@);
    true
}

/// Splits `s` into its pieces: runs of characters that are not separators.
pub fn split_pieces(s: &Vec<char>, punct: bool) -> (r: Vec<Vec<char>>)
    ensures
        seqs_of(r@) == pieces(s@, punct),
{
    let mut done: Vec<Vec<char>> = Vec::new();
    let mut cur: Vec<char> = Vec::new();
    let mut i: usize = 0;
    while i < s.len()
        invariant
            i <= s.len(),
            seqs_of(done@) == scan_pieces(s@.take(i as int), punct).0,
            cur@ == scan_pieces(s@.take(i as int), punct).1,
        decreases s.len() - i,
    {
        let c = s[i];
        assert(s@.take(i + 1).drop_last() =~= s@.take(i as int));
        if is_whitespace(c) || (punct && (c == ',' || c == '.')) {
            if cur.len() > 0 {
                let ghost before = done@;
                done.push(cur);
                assert(seqs_of(done@) =~= seqs_of(before).push(
                    scan_pieces(s@.take(i as int), punct).1,
                ));
                cur = Vec::new();
            }
        } else {
            cur.push(c);
        }
        i = i + 1;
    }
    assert(s@.take(s.len() as int) =~= s@);
    if cur.len() > 0 {
        let ghost before = done@;
        let ghost last = cur@;
        done.push(cur);
        assert(seqs_of(done@) =~= seqs_of(before).push(last));
    }
    done
}

/// Splits `s` into its words (`str::split_whitespace`).
pub fn split_whitespace(s: &Vec<char>) -> (r: Vec<Vec<char>>)
    ensures
        seqs_of(r@) == words(s@),
{
    split_pieces(s, false)
}

/// Joins `ws` with `sep` between neighbours (`[&str]::join`).
pub fn join(ws: &Vec<Vec<char>>, sep: &Vec<char>) -> (r: Vec<char>)
    ensures
        r@ == join_with(seqs_of(ws@), sep@),
{
    let mut r: Vec<char> = Vec::new();
    let mut i: usize = 0;
    while i < ws.len()
        invariant
            i <= ws.len(),
            r@ == join_with(seqs_of(ws@).take(i as int), sep@),
        decreases ws.len() - i,
    {
        assert(seqs_of(ws@).take(i + 1).drop_last() =~= seqs_of(ws@).take(i as int));
        if i > 0 {
            append_chars(&mut r, sep);
        }
        append_chars(&mut r, &ws[i]);
        i = i + 1;
    }
    assert(seqs_of(ws@).take(ws.len() as int) =~= seqs_of(ws@));
    r
}

/// `s` without leading and trailing whitespace (`str::trim`).
pub fn trim_chars(s: &Vec<char>) -> (r: Vec<char>)
    ensures
        r@ == trim(s@),
{
    let mut start: usize = 0;
    assert(s@.skip(0) =~= s@);
    while start < s.len() && is_whitespace(s[start])
        invariant
            start <= s.len(),
            trim_start(s@) == trim_start(s@.skip(start as int)),
        decreases s.len() - start,
    {
        assert(s@.skip(start as int).drop_first() =~= s@.skip(start + 1));
        start = start + 1;
    }
    let mut end: usize = s.len();
    let ghost t = s@.skip(start as int);
    assert(trim_start(s@) == t);
    assert(s@.skip(start as int) =~= s@.subrange(start as int, s.len() as int));
    while end > start && is_whitespace(s[end - 1])
        invariant
            start <= end <= s.len(),
            t == s@.skip(start as int),
            trim_end(t) == trim_end(s@.subrange(start as int, end as int)),
        decreases end,
    {
        assert(s@.subrange(start as int, end as int).drop_last() =~= s@.subrange(
            start as int,
            end - 1,
        ));
        end = end - 1;
    }
    assert(s@.skip(start as int) =~= s@.subrange(start as int, s.len() as int));
    let mut r: Vec<char> = Vec::new();
    let mut k: usize = start;
    while k < end
        invariant
            start <= k <= end <= s.len(),
            r@ == s@.subrange(start as int, k as int),
        decreases end - k,
    {
        r.push(s[k]);
        assert(s@.subrange(start as int, k + 1) =~= s@.subrange(start as int, k as int).push(
            s@[k as int],
        ));
        k = k + 1;
    }
    r
}

} // verus!
