//! Splitting documents into fixed-size windows of words.
use vstd::prelude::*;

verus! {

/// Unicode `White_Space`: the characters on which text is split into words.
pub open spec fn is_space(c: char) -> bool {
    let u = c as u32;
    (0x09 <= u <= 0x0D) || u == 0x20 || u == 0x85 || u == 0xA0 || u == 0x1680 || (0x2000 <= u
        <= 0x200A) || u == 0x2028 || u == 0x2029 || u == 0x202F || u == 0x205F || u == 0x3000
}

/// The words of `s`: its maximal runs of non-space characters, in order.
pub open spec fn words_of(s: Seq<char>) -> Seq<Seq<char>>
    decreases s.len(),
{
    if s.len() == 0 {
        Seq::empty()
    } else {
        let w = words_of(s.drop_last());
        let c = s.last();
        if is_space(c) {
            w
        } else if s.len() >= 2 && !is_space(s[s.len() - 2]) {
            w.update(w.len() - 1, w.last().push(c))
        } else {
            w.push(seq![c])
        }
    }
}

/// Relies on `String::push`: appends one character.
pub assume_specification[ String::push ](s: &mut String, ch: char)
    ensures
        final(s)@ == old(s)@.push(ch),
;

/// Whether `c` separates words (the same set as `char::is_whitespace`).
pub fn is_space_char(c: char) -> (r: bool)
    ensures
        r == is_space(c),
{
    let u = c as u32;
    (0x09 <= u && u <= 0x0D) || u == 0x20 || u == 0x85 || u == 0xA0 || u == 0x1680 || (0x2000
        <= u && u <= 0x200A) || u == 0x2028 || u == 0x2029 || u == 0x202F || u == 0x205F || u
        == 0x3000
}

/// The views of a vector of strings.
pub open spec fn strings_view(v: Seq<String>) -> Seq<Seq<char>> {
    v.map_values(|s: String| s@)
}

/// Splits `text` into its words.
pub fn split_words(text: &str) -> (r: Vec<String>)
    ensures
        strings_view(r@) == words_of(text@),
{
    let mut words: Vec<String> = Vec::new();
    let mut cur = String::new();
    let mut in_word = false;
    for c in it: text.chars()
        invariant
            it.seq() == text@,
            in_word <==> (it.index() > 0 && !is_space(text@[it.index() - 1])),
            !in_word ==> cur@.len() == 0,
            in_word ==> strings_view(words@).push(cur@) == words_of(text@.take(it.index() as int)),
            !in_word ==> strings_view(words@) == words_of(text@.take(it.index() as int)),
    {
        let ghost i = it.index() as int;
        let ghost before = strings_view(words@);
        assert(text@.take(i + 1).drop_last() == text@.take(i));
        assert(text@.take(i + 1).last() == c);
        if is_space_char(c) {
            if in_word {
                words.push(cur);
                assert(strings_view(words@) =~= before.push(cur@));
                cur = String::new();
                in_word = false;
            }
        } else {
            let ghost prev = cur@;
            cur.push(c);
            if in_word {
                assert(strings_view(words@).push(cur@) =~= before.push(prev).update(
                    before.len() as int,
                    prev.push(c),
                ));
            } else {
                assert(cur@ =~= seq![c]);
                assert(strings_view(words@).push(cur@) =~= before.push(seq![c]));
            }
            in_word = true;
        }
    }
    assert(text@.take(text@.len() as int) =~= text@);
    if in_word {
        let ghost before = strings_view(words@);
        words.push(cur);
        assert(strings_view(words@) =~= before.push(cur@));
    }
    words
}

/// The words of `ws` joined by single spaces.
pub open spec fn join_words(ws: Seq<Seq<char>>) -> Seq<char>
    decreases ws.len(),
{
    if ws.len() == 0 {
        Seq::empty()
    } else if ws.len() == 1 {
        ws[0]
    } else {
        join_words(ws.drop_last()).push(' ') + ws.last()
    }
}

/// Consecutive windows of at most `m` words of `ws`, each joined by single spaces.
pub open spec fn windows(ws: Seq<Seq<char>>, m: nat) -> Seq<Seq<char>>
    decreases ws.len(),
{
    if ws.len() == 0 || m == 0 {
        Seq::empty()
    } else if ws.len() <= m {
        seq![join_words(ws)]
    } else {
        seq![join_words(ws.take(m as int))] + windows(ws.skip(m as int), m)
    }
}

/// The chunks of `text` for windows of `m` words.
pub open spec fn chunks_of(text: Seq<char>, m: nat) -> Seq<Seq<char>> {
    windows(words_of(text), m)
}

/// Joins `words[start..end]` with single spaces.
fn join_range(words: &Vec<String>, start: usize, end: usize) -> (r: String)
    requires
        start < end <= words.len(),
    ensures
        r@ == join_words(strings_view(words@).subrange(start as int, end as int)),
{
    let ghost ws = strings_view(words@);
    let mut out = String::new();
    out.append(words[start].as_str());
    let mut j: usize = start + 1;
    assert(ws.subrange(start as int, start + 1) =~= seq![ws[start as int]]);
    while j < end
        invariant
            ws == strings_view(words@),
            start < j <= end <= words.len(),
            out@ == join_words(ws.subrange(start as int, j as int)),
        decreases end - j,
    {
        out.push(' ');
        out.append(words[j].as_str());
        assert(ws.subrange(start as int, j + 1).drop_last() =~= ws.subrange(start as int, j as int));
        j = j + 1;
    }
    out
}

/// Splits `text` on runs of whitespace and regroups the words into consecutive,
/// non-overlapping windows of at most `max_words` words, each joined by single
/// spaces. Only the last window may be shorter; text without words gives no chunk.
pub fn chunk_text(text: &str, max_words: usize) -> (r: Vec<String>)
    requires
        max_words >= 1,
    ensures
        strings_view(r@) == chunks_of(text@, max_words as nat),
{
    let words = split_words(text);
    let ghost ws = strings_view(words@);
    let n = words.len();
    let mut chunks: Vec<String> = Vec::new();
    let mut start: usize = 0;
    assert(ws.skip(0) =~= ws);
    assert(strings_view(chunks@) =~= Seq::<Seq<char>>::empty());
    assert(Seq::<Seq<char>>::empty() + windows(ws, max_words as nat) =~= windows(ws, max_words as nat));
    while start < n
        invariant
            ws == strings_view(words@),
            ws == words_of(text@),
            n == words.len(),
            start <= n,
            max_words >= 1,
            strings_view(chunks@) + windows(ws.skip(start as int), max_words as nat) == windows(
                ws,
                max_words as nat,
            ),
        decreases n - start,
    {
        let end = if max_words >= n - start {
            n
        } else {
            start + max_words
        };
        let piece = join_range(&words, start, end);
        let ghost before = strings_view(chunks@);
        chunks.push(piece);
        proof {
            let rest = ws.skip(start as int);
            assert(strings_view(chunks@) =~= before.push(piece@));
            if end == n {
                assert(rest =~= ws.subrange(start as int, end as int));
                assert(ws.skip(end as int) =~= Seq::<Seq<char>>::empty());
            } else {
                assert(rest.take(max_words as int) =~= ws.subrange(start as int, end as int));
                assert(rest.skip(max_words as int) =~= ws.skip(end as int));
            }
            assert(strings_view(chunks@) + windows(ws.skip(end as int), max_words as nat) =~= before
                + windows(rest, max_words as nat));
        }
        start = end;
    }
    assert(ws.skip(n as int) =~= Seq::<Seq<char>>::empty());
    assert(strings_view(chunks@) + Seq::<Seq<char>>::empty() =~= strings_view(chunks@));
    chunks
}

/// A word: non-empty and free of spaces.
pub open spec fn is_word(w: Seq<char>) -> bool {
    w.len() > 0 && forall|i: int| 0 <= i < w.len() ==> !is_space(#[trigger] w[i])
}

proof fn lemma_words_are_words(s: Seq<char>)
    ensures
        forall|i: int| 0 <= i < words_of(s).len() ==> is_word(#[trigger] words_of(s)[i]),
        s.len() > 0 && !is_space(s.last()) ==> words_of(s).len() > 0 && words_of(s).last().last()
            == s.last(),
    decreases s.len(),
{
    if s.len() > 0 {
        lemma_words_are_words(s.drop_last());
        let w = words_of(s.drop_last());
        let c = s.last();
        if !is_space(c) && s.len() >= 2 && !is_space(s[s.len() - 2]) {
            let lw = w.last().push(c);
            assert(is_word(lw)) by {
                assert forall|i: int| 0 <= i < lw.len() implies !is_space(#[trigger] lw[i]) by {
                    if i < lw.len() - 1 {
                        assert(lw[i] == w.last()[i]);
                    }
                }
            }
        } else if !is_space(c) {
            assert(is_word(seq![c]));
        }
    }
}

/// Appending a word after a separator (or at the start) adds exactly that word.
proof fn lemma_words_append_word(p: Seq<char>, w: Seq<char>)
    requires
        p.len() == 0 || is_space(p.last()),
        is_word(w),
    ensures
        words_of(p + w) == words_of(p).push(w),
    decreases w.len(),
{
    let s = p + w;
    if w.len() == 1 {
        assert(s.drop_last() =~= p);
        assert(seq![w[0]] =~= w);
    } else {
        let w0 = w.drop_last();
        assert(is_word(w0)) by {
            assert forall|i: int| 0 <= i < w0.len() implies !is_space(#[trigger] w0[i]) by {
                assert(w0[i] == w[i]);
            }
        }
        lemma_words_append_word(p, w0);
        assert(s.drop_last() =~= p + w0);
        assert(s[s.len() - 2] == w[w.len() - 2]);
        assert(w0.push(w.last()) =~= w);
        assert(words_of(p).push(w0).update(words_of(p).len() as int, w) =~= words_of(p).push(w));
    }
}

/// Splitting words joined by single spaces gives the words back.
proof fn lemma_words_of_join(ws: Seq<Seq<char>>)
    requires
        forall|i: int| 0 <= i < ws.len() ==> is_word(#[trigger] ws[i]),
    ensures
        words_of(join_words(ws)) == ws,
    decreases ws.len(),
{
    if ws.len() == 1 {
        lemma_words_append_word(Seq::empty(), ws[0]);
        assert(Seq::<char>::empty() + ws[0] =~= ws[0]);
        assert(Seq::<Seq<char>>::empty().push(ws[0]) =~= ws);
    } else if ws.len() > 1 {
        let init = ws.drop_last();
        lemma_words_of_join(init);
        let p = join_words(init).push(' ');
        assert(p.drop_last() =~= join_words(init));
        lemma_words_append_word(p, ws.last());
        assert(init.push(ws.last()) =~= ws);
    }
}

proof fn lemma_windows_keep_words(ws: Seq<Seq<char>>, m: nat)
    requires
        m >= 1,
        forall|i: int| 0 <= i < ws.len() ==> is_word(#[trigger] ws[i]),
    ensures
        windows(ws, m).map_values(|c: Seq<char>| words_of(c)).flatten() == ws,
        windows(ws, m).len() == (ws.len() + m - 1) as int / m as int,
    decreases ws.len(),
{
    let f = |c: Seq<char>| words_of(c);
    if ws.len() == 0 {
        assert(windows(ws, m).map_values(f) =~= Seq::<Seq<Seq<char>>>::empty());
        assert((m - 1) as int / m as int == 0) by (nonlinear_arith)
            requires
                m >= 1,
        ;
    } else if ws.len() <= m {
        lemma_words_of_join(ws);
        let mm = windows(ws, m).map_values(f);
        assert(mm =~= seq![ws]);
        mm.lemma_flatten_one_element();
        let n = ws.len();
        assert((n + m - 1) as int / m as int == 1) by (nonlinear_arith)
            requires
                1 <= n <= m,
        ;
    } else {
        let head = ws.take(m as int);
        let tail = ws.skip(m as int);
        assert forall|i: int| 0 <= i < head.len() implies is_word(#[trigger] head[i]) by {
            assert(head[i] == ws[i]);
        }
        assert forall|i: int| 0 <= i < tail.len() implies is_word(#[trigger] tail[i]) by {
            assert(tail[i] == ws[i + m]);
        }
        lemma_words_of_join(head);
        lemma_windows_keep_words(tail, m);
        let mm = windows(ws, m).map_values(f);
        assert(mm.first() == head);
        assert(mm.drop_first() =~= windows(tail, m).map_values(f));
        assert(head + tail =~= ws);
        let n = ws.len();
        assert(1 + (n - m + m - 1) as int / m as int == (n + m - 1) as int / m as int) by {
            vstd::arithmetic::div_mod::lemma_div_plus_one((n - 1) as int, m as int);
        }
    }
}

/// Chunking loses, adds and reorders no word: the words of all chunks, taken
/// in order, are the words of the text, and a text of `n` words gives
/// `ceil(n / m)` chunks.
pub proof fn lemma_chunks_keep_words(text: Seq<char>, m: nat)
    requires
        m >= 1,
    ensures
        chunks_of(text, m).map_values(|c: Seq<char>| words_of(c)).flatten() == words_of(text),
        chunks_of(text, m).len() == (words_of(text).len() + m - 1) as int / m as int,
{
    lemma_words_are_words(text);
    lemma_windows_keep_words(words_of(text), m);
}

} // verus!
