use vstd::prelude::*;

use crate::text::{
    alphanumeric, char_lowercase, chars_of, contains_chars, contains_seq, copy_range,
    extend_chars, is_alphanumeric, is_whitespace, join_chars, join_with, lines_in, lines_of,
    line_state, lowercase_char, matches_at, push_char, run_end, same_text, starts_with, strip_cr,
    string_from, string_of, trim, trim_end, trim_end_char, trim_range, trim_start, views, is_ws,
};

verus! {

/// A heading line: its level (the number of leading `#`, one to six, followed by a
/// space) and its text, trimmed and without closing `#`s, which must not be empty.
pub open spec fn heading_of(line: Seq<char>) -> Option<(nat, Seq<char>)> {
    let h = run_end(line, 0, '#');
    if 1 <= h <= 6 && h < line.len() && line[h] == ' ' {
        let text = trim(trim_end_char(trim(line.skip(h + 1)), '#'));
        if text.len() > 0 {
            Some((h as nat, text))
        } else {
            None
        }
    } else {
        None
    }
}

proof fn lemma_run_end_bounds(s: Seq<char>, k: int, c: char)
    requires
        0 <= k <= s.len(),
    ensures
        k <= run_end(s, k, c) <= s.len(),
        forall|i: int| k <= i < run_end(s, k, c) ==> s[i] == c,
        run_end(s, k, c) < s.len() ==> s[run_end(s, k, c)] != c,
    decreases s.len() - k,
{
    if k < s.len() && s[k] == c {
        lemma_run_end_bounds(s, k + 1, c);
    }
}

/// The heading in `line`, as [`heading_of`] describes it.
pub fn heading_in(line: &Vec<char>) -> (r: Option<(usize, Vec<char>)>)
    ensures
        match heading_of(line@) {
            Some((level, text)) => r matches Some((l, t)) && l == level && t@ == text,
            None => r is None,
        },
{
    let mut h: usize = 0;
    while h < line.len() && line[h] == '#'
        invariant
            h <= line.len(),
            run_end(line@, h as int, '#') == run_end(line@, 0, '#'),
        decreases line.len() - h,
    {
        h = h + 1;
    }
    if !(1 <= h && h <= 6 && h < line.len() && line[h] == ' ') {
        return None;
    }
    let (a, b) = trim_range(line, h + 1, line.len());
    assert(line@.subrange(h + 1, line.len() as int) =~= line@.skip(h + 1));
    let mut b2 = b;
    while b2 > a && line[b2 - 1] == '#'
        invariant
            a <= b2 <= b <= line.len(),
            trim_end_char(line@.subrange(a as int, b2 as int), '#') == trim_end_char(
                line@.subrange(a as int, b as int),
                '#',
            ),
        decreases b2,
    {
        assert(line@.subrange(a as int, b2 as int).drop_last() =~= line@.subrange(
            a as int,
            b2 - 1,
        ));
        b2 = b2 - 1;
    }
    let (a3, b3) = trim_range(line, a, b2);
    if a3 < b3 {
        Some((h, copy_range(line, a3, b3)))
    } else {
        None
    }
}

/// The characters of `s` lowercased one by one, as `char::to_lowercase` gives them.
pub open spec fn lowered(s: Seq<char>) -> Seq<char>
    decreases s.len(),
{
    if s.len() == 0 {
        seq![]
    } else {
        lowered(s.drop_last()) + char_lowercase(s.last())
    }
}

/// The maximal runs of alphanumeric characters of `s` found so far, and the
/// unfinished one.
pub open spec fn run_state(s: Seq<char>) -> (Seq<Seq<char>>, Seq<char>)
    decreases s.len(),
{
    if s.len() == 0 {
        (seq![], seq![])
    } else {
        let (runs, cur) = run_state(s.drop_last());
        if alphanumeric(s.last()) {
            (runs, cur.push(s.last()))
        } else if cur.len() > 0 {
            (runs.push(cur), seq![])
        } else {
            (runs, cur)
        }
    }
}

/// The maximal runs of alphanumeric characters of `s`.
pub open spec fn alnum_runs(s: Seq<char>) -> Seq<Seq<char>> {
    let (runs, cur) = run_state(s);
    if cur.len() > 0 {
        runs.push(cur)
    } else {
        runs
    }
}

/// The anchor of a heading: its lowercased alphanumeric runs joined by `-`.
pub open spec fn slug(s: Seq<char>) -> Seq<char> {
    join_with(alnum_runs(lowered(s)), seq!['-'])
}

fn run_step(runs: &mut Vec<Vec<char>>, cur: &mut Vec<char>, c: char, Ghost(s): Ghost<Seq<char>>)
    requires
        run_state(s) == (views(old(runs)@), old(cur)@),
    ensures
        run_state(s.push(c)) == (views(final(runs)@), final(cur)@),
{
    assert(s.push(c).drop_last() =~= s);
    if is_alphanumeric(c) {
        cur.push(c);
    } else if cur.len() > 0 {
        let finished = copy_range(cur, 0, cur.len());
        assert(finished@ =~= cur@);
        runs.push(finished);
        *cur = Vec::new();
        assert(views(runs@) =~= views(old(runs)@).push(old(cur)@));
    }
}

/// The anchor of an already-lowercased heading: its alphanumeric runs joined by `-`.
pub fn slug_of_lowercased(text: &str) -> (r: String)
    ensures
        r@ == join_with(alnum_runs(text@), seq!['-']),
{
    let v = chars_of(text);
    let mut runs: Vec<Vec<char>> = Vec::new();
    let mut cur: Vec<char> = Vec::new();
    let mut i: usize = 0;
    assert(views(runs@) =~= seq![]);
    assert(v@.take(0) =~= seq![]);
    while i < v.len()
        invariant
            i <= v.len(),
            v@ == text@,
            run_state(v@.take(i as int)) == (views(runs@), cur@),
        decreases v.len() - i,
    {
        run_step(&mut runs, &mut cur, v[i], Ghost(v@.take(i as int)));
        assert(v@.take(i as int).push(v@[i as int]) =~= v@.take(i + 1));
        i = i + 1;
    }
    assert(v@.take(v.len() as int) =~= v@);
    if cur.len() > 0 {
        runs.push(cur);
    }
    assert(views(runs@) =~= alnum_runs(text@));
    let dash = vec!['-'];
    let joined = join_chars(&runs, &dash);
    assert(dash@ =~= seq!['-']);
    string_from(&joined)
}

/// The anchor of a heading, as [`slug`] describes it: each character lowercased,
/// then [`slug_of_lowercased`].
pub fn slugify(value: &str) -> (r: String)
    ensures
        r@ == slug(value@),
{
    let v = chars_of(value);
    let mut low: Vec<char> = Vec::new();
    let mut i: usize = 0;
    assert(v@.take(0) =~= seq![]);
    assert(lowered(seq![]) =~= seq![]);
    while i < v.len()
        invariant
            i <= v.len(),
            v@ == value@,
            low@ == lowered(v@.take(i as int)),
        decreases v.len() - i,
    {
        let lc = lowercase_char(v[i]);
        assert(v@.take(i + 1).drop_last() =~= v@.take(i as int));
        assert(lowered(v@.take(i + 1)) == low@ + lc@);
        extend_chars(&mut low, &lc);
        i = i + 1;
    }
    assert(v@.take(v.len() as int) =~= v@);
    let text = string_from(&low);
    slug_of_lowercased(text.as_str())
}


/// Splitting `s` at non-overlapping `\n\n`, left to right: the pieces found so far,
/// the unfinished one, and whether a line feed is pending.
pub open spec fn blank_state(s: Seq<char>) -> (Seq<Seq<char>>, Seq<char>, bool)
    decreases s.len(),
{
    if s.len() == 0 {
        (seq![], seq![], false)
    } else {
        let (done, cur, pend) = blank_state(s.drop_last());
        let c = s.last();
        if c == '\n' {
            if pend {
                (done.push(cur), seq![], false)
            } else {
                (done, cur, true)
            }
        } else if pend {
            (done, cur.push('\n').push(c), false)
        } else {
            (done, cur.push(c), false)
        }
    }
}

/// The pieces of `s` between non-overlapping `\n\n`, as `str::split("\n\n")` gives them.
pub open spec fn blank_pieces(s: Seq<char>) -> Seq<Seq<char>> {
    let (done, cur, pend) = blank_state(s);
    done.push(if pend { cur.push('\n') } else { cur })
}

/// The trimmed pieces that are not empty.
pub open spec fn nonblank_trimmed(pieces: Seq<Seq<char>>) -> Seq<Seq<char>>
    decreases pieces.len(),
{
    if pieces.len() == 0 {
        seq![]
    } else {
        let prev = nonblank_trimmed(pieces.drop_last());
        let t = trim(pieces.last());
        if t.len() > 0 {
            prev.push(t)
        } else {
            prev
        }
    }
}

/// The paragraphs of `s`: its pieces between blank lines, trimmed, empty ones dropped.
pub open spec fn paragraphs_of(s: Seq<char>) -> Seq<Seq<char>> {
    nonblank_trimmed(blank_pieces(s))
}

/// The words of `s` found so far and the unfinished one.
pub open spec fn word_state(s: Seq<char>) -> (Seq<Seq<char>>, Seq<char>)
    decreases s.len(),
{
    if s.len() == 0 {
        (seq![], seq![])
    } else {
        let (words, cur) = word_state(s.drop_last());
        if crate::text::is_ws(s.last()) {
            if cur.len() > 0 {
                (words.push(cur), seq![])
            } else {
                (words, cur)
            }
        } else {
            (words, cur.push(s.last()))
        }
    }
}

/// The words of `s`, as `str::split_whitespace` gives them.
pub open spec fn words_of(s: Seq<char>) -> Seq<Seq<char>> {
    let (words, cur) = word_state(s);
    if cur.len() > 0 {
        words.push(cur)
    } else {
        words
    }
}

/// The finished pieces and the piece being filled, with the latter closed first
/// when adding `extra` characters to it would pass `max`.
pub open spec fn close_if_full(
    st: (Seq<Seq<char>>, Seq<char>),
    extra: nat,
    max: nat,
) -> (Seq<Seq<char>>, Seq<char>) {
    let (res, cur) = st;
    if cur.len() + extra > max && cur.len() > 0 {
        (res.push(trim(cur)), seq![])
    } else {
        (res, cur)
    }
}

/// Adds one word of an oversized paragraph: a new piece begins when the word and a
/// space would not fit.
pub open spec fn pack_word(st: (Seq<Seq<char>>, Seq<char>), w: Seq<char>, max: nat) -> (
    Seq<Seq<char>>,
    Seq<char>,
) {
    let (res, cur) = close_if_full(st, w.len() + 1, max);
    (res, if cur.len() > 0 { cur.push(' ') + w } else { w })
}

/// Adds the words `ws` one by one.
pub open spec fn pack_words(st: (Seq<Seq<char>>, Seq<char>), ws: Seq<Seq<char>>, max: nat) -> (
    Seq<Seq<char>>,
    Seq<char>,
)
    decreases ws.len(),
{
    if ws.len() == 0 {
        st
    } else {
        pack_word(pack_words(st, ws.drop_last(), max), ws.last(), max)
    }
}

/// `w` cut into consecutive fragments of `max` characters, the last one shorter;
/// whole when it fits, or when `max` is 0.
pub open spec fn cut_word(w: Seq<char>, max: nat) -> Seq<Seq<char>>
    decreases w.len(),
{
    if max == 0 || w.len() <= max {
        seq![w]
    } else {
        seq![w.take(max as int)] + cut_word(w.skip(max as int), max)
    }
}

/// The words `ws`, each cut as [`cut_word`] describes it, in order.
pub open spec fn cut_words(ws: Seq<Seq<char>>, max: nat) -> Seq<Seq<char>>
    decreases ws.len(),
{
    if ws.len() == 0 {
        seq![]
    } else {
        cut_words(ws.drop_last(), max) + cut_word(ws.last(), max)
    }
}

/// Adds one paragraph: one longer than `max` closes the piece being filled and is
/// packed word by word, a word longer than `max` cut into fragments; a shorter one joins the piece being filled after a blank
/// line, or begins a new piece where it would not fit.
pub open spec fn pack_paragraph(st: (Seq<Seq<char>>, Seq<char>), p: Seq<char>, max: nat) -> (
    Seq<Seq<char>>,
    Seq<char>,
) {
    let (res, cur) = st;
    if p.len() > max {
        let st1 = if cur.len() > 0 {
            (res.push(trim(cur)), Seq::<char>::empty())
        } else {
            (res, cur)
        };
        pack_words(st1, cut_words(words_of(p), max), max)
    } else {
        let sep: nat = if cur.len() > 0 { 2 } else { 0 };
        let (res2, cur2) = close_if_full(st, p.len() + sep, max);
        (res2, if cur2.len() > 0 { cur2 + seq!['\n', '\n'] + p } else { p })
    }
}

/// Adds the paragraphs `ps` one by one, starting from nothing.
pub open spec fn pack_paragraphs(ps: Seq<Seq<char>>, max: nat) -> (Seq<Seq<char>>, Seq<char>)
    decreases ps.len(),
{
    if ps.len() == 0 {
        (seq![], seq![])
    } else {
        pack_paragraph(pack_paragraphs(ps.drop_last(), max), ps.last(), max)
    }
}

/// The pieces of at most `max` characters into which a section's text is cut:
/// whole paragraphs packed together, oversized paragraphs cut between words, and
/// oversized words cut into fragments.
pub open spec fn content_pieces(content: Seq<char>, max: nat) -> Seq<Seq<char>> {
    let (res, cur) = pack_paragraphs(paragraphs_of(content), max);
    if cur.len() > 0 {
        res.push(trim(cur))
    } else {
        res
    }
}

/// Whether `a + b + extra > max`.
fn exceeds(a: usize, b: usize, extra: usize, max: usize) -> (r: bool)
    requires
        extra <= 2,
    ensures
        r == (a + b + extra > max),
{
    if a > max {
        true
    } else if b > max - a {
        true
    } else {
        extra > max - a - b
    }
}

/// The pieces of `v` between non-overlapping `\n\n`.
fn blank_pieces_of(v: &Vec<char>) -> (r: Vec<Vec<char>>)
    ensures
        views(r@) == blank_pieces(v@),
{
    let mut done: Vec<Vec<char>> = Vec::new();
    let mut cur: Vec<char> = Vec::new();
    let mut pend = false;
    let mut i: usize = 0;
    assert(v@.take(0) =~= seq![]);
    assert(views(done@) =~= seq![]);
    while i < v.len()
        invariant
            i <= v.len(),
            blank_state(v@.take(i as int)) == (views(done@), cur@, pend),
        decreases v.len() - i,
    {
        let c = v[i];
        assert(v@.take(i + 1).drop_last() =~= v@.take(i as int));
        assert(v@.take(i + 1).last() == c);
        if c == '\n' {
            if pend {
                let ghost old_done = views(done@);
                let ghost old_cur = cur@;
                done.push(cur);
                cur = Vec::new();
                pend = false;
                assert(views(done@) =~= old_done.push(old_cur));
            } else {
                pend = true;
            }
        } else {
            if pend {
                cur.push('\n');
                pend = false;
            }
            cur.push(c);
        }
        i = i + 1;
    }
    assert(v@.take(v.len() as int) =~= v@);
    if pend {
        cur.push('\n');
    }
    let ghost old_done = views(done@);
    let ghost last = cur@;
    done.push(cur);
    assert(views(done@) =~= old_done.push(last));
    done
}

/// The paragraphs of `v`, as [`paragraphs_of`] describes them.
fn paragraphs_in(v: &Vec<char>) -> (r: Vec<Vec<char>>)
    ensures
        views(r@) == paragraphs_of(v@),
{
    let pieces = blank_pieces_of(v);
    let mut r: Vec<Vec<char>> = Vec::new();
    let mut k: usize = 0;
    assert(views(r@) =~= nonblank_trimmed(views(pieces@).take(0)));
    while k < pieces.len()
        invariant
            k <= pieces.len(),
            views(r@) == nonblank_trimmed(views(pieces@).take(k as int)),
        decreases pieces.len() - k,
    {
        let ghost ps = views(pieces@);
        assert(ps.take(k + 1).drop_last() =~= ps.take(k as int));
        assert(ps.take(k + 1).last() == pieces@[k as int]@);
        let p = &pieces[k];
        let (a, b) = trim_range(p, 0, p.len());
        assert(p@.subrange(0, p.len() as int) =~= p@);
        if a < b {
            let t = copy_range(p, a, b);
            let ghost before = views(r@);
            r.push(t);
            assert(views(r@) =~= before.push(t@));
        }
        k = k + 1;
    }
    assert(views(pieces@).take(pieces.len() as int) =~= views(pieces@));
    r
}

/// The words of `v`, as [`words_of`] describes them.
fn words_in(v: &Vec<char>) -> (r: Vec<Vec<char>>)
    ensures
        views(r@) == words_of(v@),
{
    let mut words: Vec<Vec<char>> = Vec::new();
    let mut cur: Vec<char> = Vec::new();
    let mut i: usize = 0;
    assert(v@.take(0) =~= seq![]);
    assert(views(words@) =~= seq![]);
    while i < v.len()
        invariant
            i <= v.len(),
            word_state(v@.take(i as int)) == (views(words@), cur@),
        decreases v.len() - i,
    {
        let c = v[i];
        assert(v@.take(i + 1).drop_last() =~= v@.take(i as int));
        assert(v@.take(i + 1).last() == c);
        if is_whitespace(c) {
            if cur.len() > 0 {
                let ghost old_words = views(words@);
                let ghost old_cur = cur@;
                words.push(cur);
                cur = Vec::new();
                assert(views(words@) =~= old_words.push(old_cur));
            }
        } else {
            cur.push(c);
        }
        i = i + 1;
    }
    assert(v@.take(v.len() as int) =~= v@);
    if cur.len() > 0 {
        let ghost old_words = views(words@);
        let ghost last = cur@;
        words.push(cur);
        assert(views(words@) =~= old_words.push(last));
    }
    words
}

/// Appends the fragments of `w`, as [`cut_word`] describes them, to `out`.
fn push_fragments(out: &mut Vec<Vec<char>>, w: &Vec<char>, max: usize)
    ensures
        views(final(out)@) == views(old(out)@) + cut_word(w@, max as nat),
{
    let mut start: usize = 0;
    assert(w@.skip(0) =~= w@);
    assert(views(out@) + cut_word(w@.skip(0), max as nat) =~= views(old(out)@) + cut_word(
        w@,
        max as nat,
    ));
    while max > 0 && w.len() - start > max
        invariant
            start <= w.len(),
            views(out@) + cut_word(w@.skip(start as int), max as nat) == views(old(out)@)
                + cut_word(w@, max as nat),
        decreases w.len() - start,
    {
        let ghost rest = w@.skip(start as int);
        let piece = copy_range(w, start, start + max);
        assert(piece@ =~= rest.take(max as int));
        assert(rest.skip(max as int) =~= w@.skip(start + max));
        let ghost before = views(out@);
        out.push(piece);
        assert(views(out@) =~= before.push(piece@));
        assert(views(out@) + cut_word(w@.skip(start + max), max as nat) =~= before + cut_word(
            rest,
            max as nat,
        ));
        start = start + max;
    }
    let last = copy_range(w, start, w.len());
    assert(last@ =~= w@.skip(start as int));
    let ghost before = views(out@);
    out.push(last);
    assert(views(out@) =~= before.push(last@));
    assert(before + cut_word(w@.skip(start as int), max as nat) =~= before.push(last@));
}

/// The words `ws` cut as [`cut_words`] describes them.
fn cut_all(ws: &Vec<Vec<char>>, max: usize) -> (r: Vec<Vec<char>>)
    ensures
        views(r@) == cut_words(views(ws@), max as nat),
{
    let mut r: Vec<Vec<char>> = Vec::new();
    let mut j: usize = 0;
    assert(views(ws@).take(0) =~= seq![]);
    assert(views(r@) =~= seq![]);
    while j < ws.len()
        invariant
            j <= ws.len(),
            views(r@) == cut_words(views(ws@).take(j as int), max as nat),
        decreases ws.len() - j,
    {
        let ghost vs = views(ws@);
        assert(vs.take(j + 1).drop_last() =~= vs.take(j as int));
        assert(vs.take(j + 1).last() == ws@[j as int]@);
        push_fragments(&mut r, &ws[j], max);
        j = j + 1;
    }
    assert(views(ws@).take(ws.len() as int) =~= views(ws@));
    r
}

/// Closes the piece being filled, trimmed, when it is not empty.
fn close_piece(res: &mut Vec<Vec<char>>, cur: &mut Vec<char>)
    requires
        old(cur)@.len() > 0,
    ensures
        views(final(res)@) == views(old(res)@).push(trim(old(cur)@)),
        final(cur)@ == Seq::<char>::empty(),
{
    let (a, b) = trim_range(cur, 0, cur.len());
    assert(cur@.subrange(0, cur.len() as int) =~= cur@);
    let t = copy_range(cur, a, b);
    res.push(t);
    *cur = Vec::new();
    assert(views(res@) =~= views(old(res)@).push(trim(old(cur)@)));
}

/// Cuts a section's text into pieces, as [`content_pieces`] describes it.
pub fn split_content(content: &Vec<char>, max: usize) -> (r: Vec<Vec<char>>)
    ensures
        views(r@) == content_pieces(content@, max as nat),
{
    let paragraphs = paragraphs_in(content);
    let mut res: Vec<Vec<char>> = Vec::new();
    let mut cur: Vec<char> = Vec::new();
    let mut k: usize = 0;
    assert(views(res@) =~= seq![]);
    assert(views(paragraphs@).take(0) =~= seq![]);
    while k < paragraphs.len()
        invariant
            k <= paragraphs.len(),
            pack_paragraphs(views(paragraphs@).take(k as int), max as nat) == (views(res@), cur@),
        decreases paragraphs.len() - k,
    {
        let ghost ps = views(paragraphs@);
        assert(ps.take(k + 1).drop_last() =~= ps.take(k as int));
        let p = &paragraphs[k];
        assert(ps.take(k + 1).last() == p@);
        let ghost st = (views(res@), cur@);
        if p.len() > max {
            if cur.len() > 0 {
                close_piece(&mut res, &mut cur);
            }
            let ghost st1 = (views(res@), cur@);
            let whole_words = words_in(p);
            let words = cut_all(&whole_words, max);
            let mut j: usize = 0;
            assert(views(words@).take(0) =~= seq![]);
            while j < words.len()
                invariant
                    j <= words.len(),
                    pack_words(st1, views(words@).take(j as int), max as nat) == (
                        views(res@),
                        cur@,
                    ),
                decreases words.len() - j,
            {
                let ghost ws = views(words@);
                assert(ws.take(j + 1).drop_last() =~= ws.take(j as int));
                let w = &words[j];
                assert(ws.take(j + 1).last() == w@);
                if exceeds(cur.len(), w.len(), 1, max) && cur.len() > 0 {
                    close_piece(&mut res, &mut cur);
                }
                if cur.len() > 0 {
                    cur.push(' ');
                }
                extend_chars(&mut cur, w);
                j = j + 1;
            }
            assert(views(words@).take(words.len() as int) =~= views(words@));
        } else {
            let sep: usize = if cur.len() > 0 { 2 } else { 0 };
            if exceeds(cur.len(), p.len(), sep, max) && cur.len() > 0 {
                close_piece(&mut res, &mut cur);
            }
            if cur.len() > 0 {
                cur.push('\n');
                cur.push('\n');
            }
            extend_chars(&mut cur, p);
            proof {
                let (res2, cur2) = close_if_full(st, (p@.len() + sep) as nat, max as nat);
                if cur2.len() > 0 {
                    assert(cur@ =~= cur2 + seq!['\n', '\n'] + p@);
                } else {
                    assert(cur@ =~= p@);
                }
            }
        }
        k = k + 1;
    }
    assert(views(paragraphs@).take(paragraphs.len() as int) =~= views(paragraphs@));
    if cur.len() > 0 {
        close_piece(&mut res, &mut cur);
    }
    res
}


/// The longest passage, in characters, that a chunk holds.
pub const MAX_CHUNK_CHARS: usize = 1800;

/// One searchable passage of a document.
#[derive(Debug, Clone)]
pub struct SrdChunk {
    pub heading: String,
    pub section_path: String,
    pub content: String,
    pub ordinal: usize,
    pub source_locator: String,
}

/// One source document and its passages.
#[derive(Debug, Clone)]
pub struct SrdDocument {
    pub title: String,
    pub source_path: String,
    pub chunks: Vec<SrdChunk>,
}

/// A bundled, citable copy of the rules.
#[derive(Debug, Clone)]
pub struct SrdSnapshot {
    pub title: String,
    pub edition: String,
    pub license: String,
    pub upstream: String,
    pub revision: String,
    pub documents: Vec<SrdDocument>,
}

/// The path of a section: its headings joined by ` > `, or `Overview` before any heading.
pub open spec fn section_path(headings: Seq<Seq<char>>) -> Seq<char> {
    if headings.len() == 0 {
        "Overview"@
    } else {
        join_with(headings, " > "@)
    }
}

/// The headings in force, the text gathered since the last heading, and the
/// sections found so far (path and trimmed text).
pub type Outline = (Seq<Seq<char>>, Seq<char>, Seq<(Seq<char>, Seq<char>)>);

/// Ends the gathered text: it becomes a section unless it is blank.
pub open spec fn flush(o: Outline) -> Outline {
    let (headings, body, sections) = o;
    let content = trim(body);
    (
        headings,
        seq![],
        if content.len() > 0 {
            sections.push((section_path(headings), content))
        } else {
            sections
        },
    )
}

/// The first `n` headings, or all of them where there are fewer.
pub open spec fn keep_headings(hs: Seq<Seq<char>>, n: int) -> Seq<Seq<char>> {
    if 0 <= n < hs.len() {
        hs.take(n)
    } else if n < 0 {
        seq![]
    } else {
        hs
    }
}

/// Reads one line: a heading of level `l` ends the gathered text and replaces the
/// headings from level `l` on; any other line is gathered without trailing whitespace.
pub open spec fn outline_step(o: Outline, line: Seq<char>) -> Outline {
    match heading_of(line) {
        Some((level, text)) => {
            let (headings, body, sections) = flush(o);
            (keep_headings(headings, level - 1).push(text), body, sections)
        },
        None => (o.0, o.1 + trim_end(line) + seq!['\n'], o.2),
    }
}

/// The outline after reading `lines`.
pub open spec fn outline_of(lines: Seq<Seq<char>>) -> Outline
    decreases lines.len(),
{
    if lines.len() == 0 {
        (seq![], seq![], seq![])
    } else {
        outline_step(outline_of(lines.drop_last()), lines.last())
    }
}

/// The sections of a Markdown text: path and trimmed text, in order.
pub open spec fn sections_of(markdown: Seq<char>) -> Seq<(Seq<char>, Seq<char>)> {
    flush(outline_of(lines_of(markdown))).2
}

/// The greatest position before `k` where ` > ` begins in `p`, or -1.
pub open spec fn last_separator(p: Seq<char>, k: int) -> int
    decreases k,
{
    if k <= 0 {
        -1
    } else if crate::text::occurs_at(p, " > "@, k - 1) {
        k - 1
    } else {
        last_separator(p, k - 1)
    }
}

/// The part of a section path after its last ` > `.
pub open spec fn last_segment(p: Seq<char>) -> Seq<char> {
    let i = last_separator(p, p.len() as int);
    if i >= 0 {
        p.skip(i + 3)
    } else {
        p
    }
}

/// A chunk's heading, section path, text and locator.
pub type ChunkView = (Seq<char>, Seq<char>, Seq<char>, Seq<char>);

/// The chunks of one section: one per piece of its text.
pub open spec fn section_chunks(section: (Seq<char>, Seq<char>), source_path: Seq<char>) -> Seq<
    ChunkView,
> {
    let (path, content) = section;
    let heading = last_segment(path);
    content_pieces(content, MAX_CHUNK_CHARS as nat).map_values(
        |piece: Seq<char>| (heading, path, piece, source_path + seq!['#'] + slug(heading)),
    )
}

/// The chunks of the sections, section after section.
pub open spec fn chunks_of_sections(
    sections: Seq<(Seq<char>, Seq<char>)>,
    source_path: Seq<char>,
) -> Seq<ChunkView>
    decreases sections.len(),
{
    if sections.len() == 0 {
        seq![]
    } else {
        chunks_of_sections(sections.drop_last(), source_path) + section_chunks(
            sections.last(),
            source_path,
        )
    }
}

/// The chunks of a Markdown document.
pub open spec fn markdown_chunks(markdown: Seq<char>, source_path: Seq<char>) -> Seq<ChunkView> {
    chunks_of_sections(sections_of(markdown), source_path)
}

/// What a chunk holds, without its ordinal.
pub open spec fn chunk_view(c: SrdChunk) -> ChunkView {
    (c.heading@, c.section_path@, c.content@, c.source_locator@)
}

/// The sections held by `s`.
pub open spec fn section_views(s: Seq<(Vec<char>, Vec<char>)>) -> Seq<(Seq<char>, Seq<char>)> {
    s.map_values(|x: (Vec<char>, Vec<char>)| (x.0@, x.1@))
}

fn path_of(headings: &Vec<Vec<char>>) -> (r: Vec<char>)
    ensures
        r@ == section_path(views(headings@)),
{
    if headings.len() == 0 {
        chars_of("Overview")
    } else {
        let sep = chars_of(" > ");
        join_chars(headings, &sep)
    }
}

fn flush_body(
    headings: &Vec<Vec<char>>,
    body: &mut Vec<char>,
    sections: &mut Vec<(Vec<char>, Vec<char>)>,
)
    ensures
        flush((views(headings@), old(body)@, section_views(old(sections)@))) == (
            views(headings@),
            final(body)@,
            section_views(final(sections)@),
        ),
{
    let (a, b) = trim_range(body, 0, body.len());
    assert(body@.subrange(0, body.len() as int) =~= body@);
    if a < b {
        let content = copy_range(body, a, b);
        let path = path_of(headings);
        let ghost before = section_views(sections@);
        let ghost entry = (path@, content@);
        sections.push((path, content));
        assert(section_views(sections@) =~= before.push(entry));
    }
    *body = Vec::new();
    assert(body@ =~= Seq::<char>::empty());
}

fn outline_line(
    line: &Vec<char>,
    headings: &mut Vec<Vec<char>>,
    body: &mut Vec<char>,
    sections: &mut Vec<(Vec<char>, Vec<char>)>,
)
    ensures
        outline_step((views(old(headings)@), old(body)@, section_views(old(sections)@)), line@)
            == (views(final(headings)@), final(body)@, section_views(final(sections)@)),
{
    match heading_in(line) {
        Some((level, text)) => {
            flush_body(headings, body, sections);
            let ghost hs = views(headings@);
            headings.truncate(level - 1);
            assert(views(headings@) =~= keep_headings(hs, level - 1));
            let ghost kept = views(headings@);
            let ghost t = text@;
            headings.push(text);
            assert(views(headings@) =~= kept.push(t));
        },
        None => {
            let b = crate::text::trim_end_range(line, 0, line.len());
            assert(line@.subrange(0, line.len() as int) =~= line@);
            let piece = copy_range(line, 0, b);
            extend_chars(body, &piece);
            body.push('\n');
        },
    }
}

/// Where the last ` > ` of `p` begins, if it has one.
fn last_separator_in(p: &Vec<char>) -> (r: Option<usize>)
    ensures
        match r {
            Some(i) => last_separator(p@, p@.len() as int) == i,
            None => last_separator(p@, p@.len() as int) == -1,
        },
{
    let sep = chars_of(" > ");
    let mut last: Option<usize> = None;
    let mut i: usize = 0;
    while i < p.len()
        invariant
            i <= p.len(),
            sep@ == " > "@,
            match last {
                Some(k) => last_separator(p@, i as int) == k,
                None => last_separator(p@, i as int) == -1,
            },
        decreases p.len() - i,
    {
        if crate::text::matches_at(p, &sep, i) {
            last = Some(i);
        }
        i = i + 1;
    }
    last
}

fn last_segment_of(p: &Vec<char>) -> (r: Vec<char>)
    ensures
        r@ == last_segment(p@),
{
    match last_separator_in(p) {
        Some(i) => {
            proof {
                reveal_strlit(" > ");
            }
            assert(crate::text::occurs_at(p@, " > "@, i as int)) by {
                lemma_last_separator(p@, p@.len() as int);
            }
            assert(" > "@.len() == 3);
            assert(i + 3 <= p@.len());
            assert(p@.len() == p.len());
            copy_range(p, i + 3, p.len())
        },
        None => copy_range(p, 0, p.len()),
    }
}

proof fn lemma_last_separator(p: Seq<char>, k: int)
    ensures
        last_separator(p, k) >= 0 ==> crate::text::occurs_at(p, " > "@, last_separator(p, k)),
        last_separator(p, k) >= -1,
    decreases k,
{
    if k > 0 {
        lemma_last_separator(p, k - 1);
    }
}

/// Splits a Markdown document into passages along its heading hierarchy: each
/// section's text, cut into pieces of at most [`MAX_CHUNK_CHARS`] characters,
/// becomes chunks numbered in order, located at the anchor of the section's heading.
pub fn chunk_markdown(markdown: &str, source_path: &str) -> (r: Vec<SrdChunk>)
    ensures
        r@.map_values(|c: SrdChunk| chunk_view(c)) == markdown_chunks(markdown@, source_path@),
        forall|i: int| 0 <= i < r@.len() ==> (#[trigger] r@[i]).ordinal == i,
        forall|i: int| 0 <= i < r@.len() ==> (#[trigger] r@[i]).content@.len() <= MAX_CHUNK_CHARS,
        forall|i: int| 0 <= i < r@.len() ==> is_trimmed((#[trigger] r@[i]).content@),
        forall|i: int|
            0 <= i < r@.len() ==> (#[trigger] r@[i]).heading@ == last_segment(r@[i].section_path@),
        forall|i: int|
            0 <= i < r@.len() ==> (#[trigger] r@[i]).source_locator@ == source_path@ + seq!['#']
                + slug(r@[i].heading@),
{
    let v = chars_of(markdown);
    let mut headings: Vec<Vec<char>> = Vec::new();
    let mut body: Vec<char> = Vec::new();
    let mut sections: Vec<(Vec<char>, Vec<char>)> = Vec::new();
    let ghost mut done: Seq<Seq<char>> = seq![];
    let mut start: usize = 0;
    let mut i: usize = 0;
    assert(v@.take(0) =~= seq![]);
    assert(views(headings@) =~= seq![]);
    assert(section_views(sections@) =~= seq![]);
    assert(v@.subrange(0, 0) =~= seq![]);
    while i < v.len()
        invariant
            start <= i <= v.len(),
            line_state(v@.take(i as int)) == (done, v@.subrange(start as int, i as int)),
            outline_of(done) == (views(headings@), body@, section_views(sections@)),
        decreases v.len() - i,
    {
        let c = v[i];
        assert(v@.take(i + 1).drop_last() =~= v@.take(i as int));
        assert(v@.take(i + 1).last() == c);
        if c == '\n' {
            let end = if i > start && v[i - 1] == '\r' { i - 1 } else { i };
            let line = copy_range(&v, start, end);
            assert(line@ =~= strip_cr(v@.subrange(start as int, i as int)));
            outline_line(&line, &mut headings, &mut body, &mut sections);
            proof {
                assert(done.push(line@).drop_last() =~= done);
                done = done.push(line@);
            }
            start = i + 1;
            assert(v@.subrange(start as int, i + 1) =~= seq![]);
        } else {
            assert(v@.subrange(start as int, i + 1) =~= v@.subrange(start as int, i as int).push(c));
        }
        i = i + 1;
    }
    assert(v@.take(v.len() as int) =~= v@);
    if start < v.len() {
        let line = copy_range(&v, start, v.len());
        outline_line(&line, &mut headings, &mut body, &mut sections);
        proof {
            assert(done.push(line@).drop_last() =~= done);
            done = done.push(line@);
        }
    }
    assert(lines_of(markdown@) == done);
    flush_body(&headings, &mut body, &mut sections);
    let ghost secs = section_views(sections@);
    assert(secs == sections_of(markdown@));
    let src = chars_of(source_path);
    let mut chunks: Vec<SrdChunk> = Vec::new();
    let mut k: usize = 0;
    assert(chunks@.map_values(|c: SrdChunk| chunk_view(c)) =~= chunks_of_sections(secs.take(0), source_path@));
    while k < sections.len()
        invariant
            k <= sections.len(),
            secs == section_views(sections@),
            src@ == source_path@,
            chunks@.map_values(|c: SrdChunk| chunk_view(c)) == chunks_of_sections(secs.take(k as int), source_path@),
            forall|i: int| 0 <= i < chunks@.len() ==> (#[trigger] chunks@[i]).ordinal == i,
        decreases sections.len() - k,
    {
        assert(secs.take(k + 1).drop_last() =~= secs.take(k as int));
        let path = &sections[k].0;
        let content = &sections[k].1;
        assert(secs.take(k + 1).last() == (path@, content@));
        let heading = last_segment_of(path);
        let heading_text = string_from(&heading);
        let anchor = slugify(heading_text.as_str());
        let anchor_chars = chars_of(anchor.as_str());
        let mut locator = copy_range(&src, 0, src.len());
        locator.push('#');
        extend_chars(&mut locator, &anchor_chars);
        assert(locator@ =~= source_path@ + seq!['#'] + slug(heading@));
        let pieces = split_content(content, MAX_CHUNK_CHARS);
        let ghost prefix = chunks@.map_values(|c: SrdChunk| chunk_view(c));
        let ghost whole = section_chunks((path@, content@), source_path@);
        let mut j: usize = 0;
        assert(whole.take(0) =~= seq![]);
        assert(prefix + whole.take(0) =~= prefix);
        while j < pieces.len()
            invariant
                j <= pieces.len(),
                views(pieces@) == content_pieces(content@, MAX_CHUNK_CHARS as nat),
                whole == section_chunks((path@, content@), source_path@),
                whole.len() == pieces@.len(),
                heading@ == last_segment(path@),
                locator@ == source_path@ + seq!['#'] + slug(heading@),
                chunks@.map_values(|c: SrdChunk| chunk_view(c)) == prefix + whole.take(j as int),
                forall|i: int| 0 <= i < chunks@.len() ==> (#[trigger] chunks@[i]).ordinal == i,
            decreases pieces.len() - j,
        {
            let ordinal = chunks.len();
            let chunk = SrdChunk {
                heading: string_from(&heading),
                section_path: string_from(path),
                content: string_from(&pieces[j]),
                ordinal,
                source_locator: string_from(&locator),
            };
            let ghost before = chunks@.map_values(|c: SrdChunk| chunk_view(c));
            chunks.push(chunk);
            assert(whole[j as int] == chunk_view(chunk));
            assert(chunks@.map_values(|c: SrdChunk| chunk_view(c)) =~= before.push(chunk_view(chunk)));
            assert(prefix + whole.take(j + 1) =~= (prefix + whole.take(j as int)).push(whole[j as int]));
            j = j + 1;
        }
        assert(whole.take(pieces.len() as int) =~= whole);
        k = k + 1;
    }
    assert(secs.take(sections.len() as int) =~= secs);
    proof {
        lemma_chunks_bounded(markdown@, source_path@);
        lemma_chunks_trimmed(markdown@, source_path@);
        lemma_chunk_fields(markdown@, source_path@);
        let views = chunks@.map_values(|c: SrdChunk| chunk_view(c));
        assert forall|i: int| 0 <= i < chunks@.len() implies (#[trigger] chunks@[i]).content@.len()
            <= MAX_CHUNK_CHARS by {
            assert(views[i] == chunk_view(chunks@[i]));
            assert(markdown_chunks(markdown@, source_path@)[i].2.len() <= MAX_CHUNK_CHARS);
        }
        assert forall|i: int| 0 <= i < chunks@.len() implies is_trimmed(
            (#[trigger] chunks@[i]).content@,
        ) by {
            assert(views[i] == chunk_view(chunks@[i]));
            assert(is_trimmed(markdown_chunks(markdown@, source_path@)[i].2));
        }
        assert forall|i: int| 0 <= i < chunks@.len() implies (#[trigger] chunks@[i]).heading@
            == last_segment(chunks@[i].section_path@) && chunks@[i].source_locator@ == source_path@
            + seq!['#'] + slug(chunks@[i].heading@) by {
            assert(views[i] == chunk_view(chunks@[i]));
            let c = markdown_chunks(markdown@, source_path@)[i];
            assert(c.0 == last_segment(c.1));
        }
    }
    chunks
}


proof fn lemma_trim_shorter(s: Seq<char>)
    ensures
        trim(s).len() <= s.len(),
{
    lemma_trim_start_shorter(s);
    lemma_trim_end_shorter(crate::text::trim_start(s));
}

proof fn lemma_trim_start_shorter(s: Seq<char>)
    ensures
        crate::text::trim_start(s).len() <= s.len(),
    decreases s.len(),
{
    if s.len() > 0 && crate::text::is_ws(s[0]) {
        lemma_trim_start_shorter(s.drop_first());
    }
}

proof fn lemma_trim_end_shorter(s: Seq<char>)
    ensures
        trim_end(s).len() <= s.len(),
    decreases s.len(),
{
    if s.len() > 0 && crate::text::is_ws(s.last()) {
        lemma_trim_end_shorter(s.drop_last());
    }
}

/// Every finished piece and the piece being filled hold at most `max` characters.
pub open spec fn pack_fits(st: (Seq<Seq<char>>, Seq<char>), max: nat) -> bool {
    &&& forall|i: int| 0 <= i < st.0.len() ==> (#[trigger] st.0[i]).len() <= max
    &&& st.1.len() <= max
}

proof fn lemma_cut_word_fit(w: Seq<char>, max: nat)
    requires
        max > 0,
    ensures
        forall|j: int| 0 <= j < cut_word(w, max).len() ==> (#[trigger] cut_word(w, max)[j]).len()
            <= max,
    decreases w.len(),
{
    if w.len() > max {
        let rest = w.skip(max as int);
        lemma_cut_word_fit(rest, max);
        let c = cut_word(w, max);
        assert forall|j: int| 0 <= j < c.len() implies (#[trigger] c[j]).len() <= max by {
            if j > 0 {
                assert(c[j] == cut_word(rest, max)[j - 1]);
            }
        }
    }
}

proof fn lemma_cut_words_fit(ws: Seq<Seq<char>>, max: nat)
    requires
        max > 0,
    ensures
        forall|j: int| 0 <= j < cut_words(ws, max).len() ==> (#[trigger] cut_words(ws, max)[j]).len()
            <= max,
    decreases ws.len(),
{
    if ws.len() > 0 {
        lemma_cut_words_fit(ws.drop_last(), max);
        lemma_cut_word_fit(ws.last(), max);
        let a = cut_words(ws.drop_last(), max);
        let b = cut_word(ws.last(), max);
        let c = cut_words(ws, max);
        assert(c == a + b);
        assert forall|j: int| 0 <= j < c.len() implies (#[trigger] c[j]).len() <= max by {
            if j < a.len() {
                assert(c[j] == a[j]);
            } else {
                assert(c[j] == b[j - a.len()]);
            }
        }
    }
}

proof fn lemma_close_fits(st: (Seq<Seq<char>>, Seq<char>), max: nat)
    requires
        pack_fits(st, max),
        st.1.len() > 0,
    ensures
        pack_fits((st.0.push(trim(st.1)), Seq::<char>::empty()), max),
        forall|i: int|
            0 <= i < st.0.push(trim(st.1)).len() ==> (#[trigger] st.0.push(trim(st.1))[i]).len()
                <= max,
{
    lemma_trim_shorter(st.1);
    let r = st.0.push(trim(st.1));
    assert forall|i: int| 0 <= i < r.len() implies (#[trigger] r[i]).len() <= max by {
        if i < st.0.len() {
            assert(r[i] == st.0[i]);
        }
    }
}

proof fn lemma_pack_words_fit(st: (Seq<Seq<char>>, Seq<char>), ws: Seq<Seq<char>>, max: nat)
    requires
        pack_fits(st, max),
        forall|j: int| 0 <= j < ws.len() ==> (#[trigger] ws[j]).len() <= max,
    ensures
        pack_fits(pack_words(st, ws, max), max),
    decreases ws.len(),
{
    if ws.len() > 0 {
        let prev = ws.drop_last();
        assert forall|j: int| 0 <= j < prev.len() implies (#[trigger] prev[j]).len() <= max by {
            assert(prev[j] == ws[j]);
        }
        lemma_pack_words_fit(st, prev, max);
        let st0 = pack_words(st, prev, max);
        let w = ws.last();
        assert(w == ws[ws.len() - 1]);
        if st0.1.len() + w.len() + 1 > max && st0.1.len() > 0 {
            lemma_close_fits(st0, max);
        }
    }
}

proof fn lemma_pack_paragraphs_fit(ps: Seq<Seq<char>>, max: nat)
    requires
        max > 0,
    ensures
        pack_fits(pack_paragraphs(ps, max), max),
    decreases ps.len(),
{
    if ps.len() > 0 {
        let prev = ps.drop_last();
        lemma_pack_paragraphs_fit(prev, max);
        let st = pack_paragraphs(prev, max);
        let p = ps.last();
        if p.len() > max {
            let st1 = if st.1.len() > 0 {
                (st.0.push(trim(st.1)), Seq::<char>::empty())
            } else {
                (st.0, st.1)
            };
            if st.1.len() > 0 {
                lemma_close_fits(st, max);
            }
            lemma_cut_words_fit(words_of(p), max);
            lemma_pack_words_fit(st1, cut_words(words_of(p), max), max);
        } else {
            let sep: nat = if st.1.len() > 0 { 2 } else { 0 };
            if st.1.len() + p.len() + sep > max && st.1.len() > 0 {
                lemma_close_fits(st, max);
            }
        }
    }
}

/// A section's text is cut into pieces of at most `max` characters, for any
/// positive `max`.
pub proof fn lemma_content_pieces_bounded(content: Seq<char>, max: nat)
    requires
        max > 0,
    ensures
        forall|i: int|
            0 <= i < content_pieces(content, max).len() ==> (#[trigger] content_pieces(
                content,
                max,
            )[i]).len() <= max,
{
    lemma_pack_paragraphs_fit(paragraphs_of(content), max);
    let st = pack_paragraphs(paragraphs_of(content), max);
    let pieces = content_pieces(content, max);
    if st.1.len() > 0 {
        lemma_close_fits(st, max);
        assert(pieces == st.0.push(trim(st.1)));
    } else {
        assert(pieces == st.0);
    }
    assert forall|i: int| 0 <= i < pieces.len() implies (#[trigger] pieces[i]).len() <= max by {
        if st.1.len() > 0 {
            let r = st.0.push(trim(st.1));
            assert(pack_fits((r, Seq::<char>::empty()), max));
            assert(r[i].len() <= max);
        } else {
            assert(st.0[i].len() <= max);
        }
    }
}

/// The heading on `line`, as [`heading_of`] describes it: its level and its text.
pub fn markdown_heading(line: &str) -> (r: Option<(usize, String)>)
    ensures
        match heading_of(line@) {
            Some((level, text)) => r matches Some((l, t)) && l == level && t@ == text,
            None => r is None,
        },
{
    let v = chars_of(line);
    match heading_in(&v) {
        Some((level, text)) => Some((level, string_from(&text))),
        None => None,
    }
}

/// A run of one or more alphanumeric characters.
pub open spec fn alnum_run(t: Seq<char>) -> bool {
    t.len() > 0 && forall|j: int| 0 <= j < t.len() ==> alphanumeric(#[trigger] t[j])
}

proof fn lemma_run_state_shape(s: Seq<char>)
    ensures
        forall|k: int| 0 <= k < run_state(s).0.len() ==> alnum_run(#[trigger] run_state(s).0[k]),
        forall|j: int| 0 <= j < run_state(s).1.len() ==> alphanumeric(#[trigger] run_state(s).1[j]),
    decreases s.len(),
{
    if s.len() > 0 {
        lemma_run_state_shape(s.drop_last());
        let (runs, cur) = run_state(s.drop_last());
        if alphanumeric(s.last()) {
            let c2 = cur.push(s.last());
            assert forall|j: int| 0 <= j < c2.len() implies alphanumeric(#[trigger] c2[j]) by {
                if j < cur.len() {
                    assert(c2[j] == cur[j]);
                }
            }
        } else if cur.len() > 0 {
            let r2 = runs.push(cur);
            assert forall|k: int| 0 <= k < r2.len() implies alnum_run(#[trigger] r2[k]) by {
                if k < runs.len() {
                    assert(r2[k] == runs[k]);
                }
            }
        }
    }
}

proof fn lemma_alnum_runs_shape(s: Seq<char>)
    ensures
        forall|k: int| 0 <= k < alnum_runs(s).len() ==> alnum_run(#[trigger] alnum_runs(s)[k]),
{
    lemma_run_state_shape(s);
    let (runs, cur) = run_state(s);
    if cur.len() > 0 {
        let r2 = runs.push(cur);
        assert forall|k: int| 0 <= k < r2.len() implies alnum_run(#[trigger] r2[k]) by {
            if k < runs.len() {
                assert(r2[k] == runs[k]);
            }
        }
    }
}

proof fn lemma_join_runs(ts: Seq<Seq<char>>)
    requires
        ts.len() > 0,
        forall|k: int| 0 <= k < ts.len() ==> alnum_run(#[trigger] ts[k]),
    ensures
        ({
            let j = join_with(ts, seq!['-']);
            &&& j.len() > 0
            &&& alphanumeric(j[0])
            &&& alphanumeric(j.last())
            &&& forall|i: int| 0 <= i < j.len() ==> alphanumeric(#[trigger] j[i]) || j[i] == '-'
            &&& forall|i: int|
                0 <= i < j.len() && !alphanumeric(#[trigger] j[i]) ==> 0 < i && i + 1 < j.len()
                    && alphanumeric(j[i - 1]) && alphanumeric(j[i + 1])
        }),
    decreases ts.len(),
{
    if ts.len() == 1 {
        assert(alnum_run(ts[0]));
    } else {
        let prev = ts.drop_last();
        assert forall|k: int| 0 <= k < prev.len() implies alnum_run(#[trigger] prev[k]) by {
            assert(prev[k] == ts[k]);
        }
        lemma_join_runs(prev);
        let p = join_with(prev, seq!['-']);
        let t = ts.last();
        assert(alnum_run(ts[ts.len() - 1]));
        let j = join_with(ts, seq!['-']);
        assert(j == p + seq!['-'] + t);
        assert forall|i: int| 0 <= i < j.len() implies alphanumeric(#[trigger] j[i]) || j[i]
            == '-' by {
            if i < p.len() {
                assert(j[i] == p[i]);
            } else if i > p.len() {
                assert(j[i] == t[i - p.len() - 1]);
            }
        }
        assert forall|i: int| 0 <= i < j.len() && !alphanumeric(#[trigger] j[i]) implies 0 < i
            && i + 1 < j.len() && alphanumeric(j[i - 1]) && alphanumeric(j[i + 1]) by {
            if i < p.len() {
                assert(j[i] == p[i]);
                assert(j[i + 1] == p[i + 1]);
                assert(j[i - 1] == p[i - 1]);
            } else if i == p.len() {
                assert(j[i - 1] == p[p.len() - 1]);
                assert(j[i + 1] == t[0]);
            } else {
                assert(j[i] == t[i - p.len() - 1]);
            }
        }
        assert(j[0] == p[0]);
        assert(j.last() == t.last());
        assert(t.last() == t[t.len() - 1]);
    }
}

/// An anchor is made of alphanumeric runs joined by `-`: each of its characters
/// is alphanumeric or `-`, it begins and ends with an alphanumeric character, and
/// every other character stands between two alphanumeric ones.
pub proof fn lemma_slug_shape(s: Seq<char>)
    ensures
        forall|i: int| 0 <= i < slug(s).len() ==> alphanumeric(#[trigger] slug(s)[i]) || slug(s)[i]
            == '-',
        slug(s).len() > 0 ==> alphanumeric(slug(s)[0]) && alphanumeric(slug(s).last()),
        forall|i: int|
            0 <= i < slug(s).len() && !alphanumeric(#[trigger] slug(s)[i]) ==> 0 < i && i + 1
                < slug(s).len() && alphanumeric(slug(s)[i - 1]) && alphanumeric(slug(s)[i + 1]),
{
    let runs = alnum_runs(lowered(s));
    lemma_alnum_runs_shape(lowered(s));
    if runs.len() > 0 {
        lemma_join_runs(runs);
    }
}

/// Every chunk of a document holds at most [`MAX_CHUNK_CHARS`] characters.
pub proof fn lemma_chunks_bounded(markdown: Seq<char>, source_path: Seq<char>)
    ensures
        forall|i: int|
            0 <= i < markdown_chunks(markdown, source_path).len() ==> (#[trigger] markdown_chunks(
                markdown,
                source_path,
            )[i]).2.len() <= MAX_CHUNK_CHARS,
{
    lemma_sections_chunks_bounded(sections_of(markdown), source_path);
}

proof fn lemma_sections_chunks_bounded(
    sections: Seq<(Seq<char>, Seq<char>)>,
    source_path: Seq<char>,
)
    ensures
        forall|i: int|
            0 <= i < chunks_of_sections(sections, source_path).len() ==> (
            #[trigger] chunks_of_sections(sections, source_path)[i]).2.len() <= MAX_CHUNK_CHARS,
    decreases sections.len(),
{
    if sections.len() > 0 {
        let prev = sections.drop_last();
        lemma_sections_chunks_bounded(prev, source_path);
        let last = sections.last();
        assert(last == sections[sections.len() - 1]);
        lemma_content_pieces_bounded(last.1, MAX_CHUNK_CHARS as nat);
        let a = chunks_of_sections(prev, source_path);
        let b = section_chunks(last, source_path);
        let all = chunks_of_sections(sections, source_path);
        assert(all == a + b);
        assert forall|i: int| 0 <= i < all.len() implies (#[trigger] all[i]).2.len()
            <= MAX_CHUNK_CHARS by {
            if i < a.len() {
                assert(all[i] == a[i]);
            } else {
                assert(all[i] == b[i - a.len()]);
                assert(b[i - a.len()].2 == content_pieces(last.1, MAX_CHUNK_CHARS as nat)[i
                    - a.len()]);
            }
        }
    }
}

/// Text that is not empty and begins and ends with a character other than whitespace.
pub open spec fn is_trimmed(t: Seq<char>) -> bool {
    t.len() > 0 && !is_ws(t[0]) && !is_ws(t.last())
}

proof fn lemma_trim_end_keeps_first(x: Seq<char>)
    requires
        x.len() > 0,
        !is_ws(x[0]),
    ensures
        is_trimmed(trim_end(x)),
        trim_end(x)[0] == x[0],
    decreases x.len(),
{
    if is_ws(x.last()) {
        assert(x.len() > 1);
        lemma_trim_end_keeps_first(x.drop_last());
    }
}

proof fn lemma_trim_start_first(s: Seq<char>)
    ensures
        trim_start(s).len() > 0 ==> !is_ws(trim_start(s)[0]),
    decreases s.len(),
{
    if s.len() > 0 && is_ws(s[0]) {
        lemma_trim_start_first(s.drop_first());
    }
}

proof fn lemma_trim_trimmed(x: Seq<char>)
    ensures
        trim(x).len() > 0 ==> is_trimmed(trim(x)),
{
    lemma_trim_start_first(x);
    let t = trim_start(x);
    if t.len() > 0 {
        lemma_trim_end_keeps_first(t);
    } else {
        assert(trim_end(t) == t);
    }
}

proof fn lemma_trim_from_text(x: Seq<char>)
    requires
        x.len() > 0,
        !is_ws(x[0]),
    ensures
        is_trimmed(trim(x)),
{
    assert(trim_start(x) == x);
    lemma_trim_end_keeps_first(x);
}

proof fn lemma_paragraphs_trimmed(pieces: Seq<Seq<char>>)
    ensures
        forall|i: int| 0 <= i < nonblank_trimmed(pieces).len() ==> is_trimmed(
            #[trigger] nonblank_trimmed(pieces)[i],
        ),
    decreases pieces.len(),
{
    if pieces.len() > 0 {
        lemma_paragraphs_trimmed(pieces.drop_last());
        lemma_trim_trimmed(pieces.last());
        let prev = nonblank_trimmed(pieces.drop_last());
        let r = nonblank_trimmed(pieces);
        assert forall|i: int| 0 <= i < r.len() implies is_trimmed(#[trigger] r[i]) by {
            if i < prev.len() {
                assert(r[i] == prev[i]);
            }
        }
    }
}

/// Text made of one or more characters none of which is whitespace.
pub open spec fn solid(w: Seq<char>) -> bool {
    w.len() > 0 && forall|j: int| 0 <= j < w.len() ==> !is_ws(#[trigger] w[j])
}

proof fn lemma_word_state_solid(s: Seq<char>)
    ensures
        forall|k: int| 0 <= k < word_state(s).0.len() ==> solid(#[trigger] word_state(s).0[k]),
        forall|j: int| 0 <= j < word_state(s).1.len() ==> !is_ws(#[trigger] word_state(s).1[j]),
    decreases s.len(),
{
    if s.len() > 0 {
        lemma_word_state_solid(s.drop_last());
        let (words, cur) = word_state(s.drop_last());
        if is_ws(s.last()) {
            if cur.len() > 0 {
                let w2 = words.push(cur);
                assert forall|k: int| 0 <= k < w2.len() implies solid(#[trigger] w2[k]) by {
                    if k < words.len() {
                        assert(w2[k] == words[k]);
                    }
                }
            }
        } else {
            let c2 = cur.push(s.last());
            assert forall|j: int| 0 <= j < c2.len() implies !is_ws(#[trigger] c2[j]) by {
                if j < cur.len() {
                    assert(c2[j] == cur[j]);
                }
            }
        }
    }
}

proof fn lemma_words_solid(s: Seq<char>)
    ensures
        forall|k: int| 0 <= k < words_of(s).len() ==> solid(#[trigger] words_of(s)[k]),
{
    lemma_word_state_solid(s);
    let (words, cur) = word_state(s);
    if cur.len() > 0 {
        let w2 = words.push(cur);
        assert forall|k: int| 0 <= k < w2.len() implies solid(#[trigger] w2[k]) by {
            if k < words.len() {
                assert(w2[k] == words[k]);
            }
        }
    }
}

proof fn lemma_cut_word_solid(w: Seq<char>, max: nat)
    requires
        solid(w),
    ensures
        forall|j: int| 0 <= j < cut_word(w, max).len() ==> solid(#[trigger] cut_word(w, max)[j]),
    decreases w.len(),
{
    if !(max == 0 || w.len() <= max) {
        let head = w.take(max as int);
        let rest = w.skip(max as int);
        assert forall|j: int| 0 <= j < head.len() implies !is_ws(#[trigger] head[j]) by {
            assert(head[j] == w[j]);
        }
        assert forall|j: int| 0 <= j < rest.len() implies !is_ws(#[trigger] rest[j]) by {
            assert(rest[j] == w[j + max]);
        }
        lemma_cut_word_solid(rest, max);
        let c = cut_word(w, max);
        assert forall|j: int| 0 <= j < c.len() implies solid(#[trigger] c[j]) by {
            if j > 0 {
                assert(c[j] == cut_word(rest, max)[j - 1]);
            }
        }
    }
}

proof fn lemma_cut_words_solid(ws: Seq<Seq<char>>, max: nat)
    requires
        forall|k: int| 0 <= k < ws.len() ==> solid(#[trigger] ws[k]),
    ensures
        forall|j: int| 0 <= j < cut_words(ws, max).len() ==> solid(#[trigger] cut_words(ws, max)[j]),
    decreases ws.len(),
{
    if ws.len() > 0 {
        let prev = ws.drop_last();
        assert forall|k: int| 0 <= k < prev.len() implies solid(#[trigger] prev[k]) by {
            assert(prev[k] == ws[k]);
        }
        lemma_cut_words_solid(prev, max);
        assert(ws.last() == ws[ws.len() - 1]);
        lemma_cut_word_solid(ws.last(), max);
        let a = cut_words(prev, max);
        let b = cut_word(ws.last(), max);
        let c = cut_words(ws, max);
        assert(c == a + b);
        assert forall|j: int| 0 <= j < c.len() implies solid(#[trigger] c[j]) by {
            if j < a.len() {
                assert(c[j] == a[j]);
            } else {
                assert(c[j] == b[j - a.len()]);
            }
        }
    }
}

/// Every finished piece is trimmed text, and the piece being filled is empty or
/// begins with a character other than whitespace.
pub open spec fn pack_clean(st: (Seq<Seq<char>>, Seq<char>)) -> bool {
    &&& forall|i: int| 0 <= i < st.0.len() ==> is_trimmed(#[trigger] st.0[i])
    &&& st.1.len() > 0 ==> !is_ws(st.1[0])
}

proof fn lemma_close_clean(st: (Seq<Seq<char>>, Seq<char>))
    requires
        pack_clean(st),
        st.1.len() > 0,
    ensures
        pack_clean((st.0.push(trim(st.1)), Seq::<char>::empty())),
{
    lemma_trim_from_text(st.1);
    let r = st.0.push(trim(st.1));
    assert forall|i: int| 0 <= i < r.len() implies is_trimmed(#[trigger] r[i]) by {
        if i < st.0.len() {
            assert(r[i] == st.0[i]);
        }
    }
}

proof fn lemma_pack_words_clean(st: (Seq<Seq<char>>, Seq<char>), ws: Seq<Seq<char>>, max: nat)
    requires
        pack_clean(st),
        forall|j: int| 0 <= j < ws.len() ==> solid(#[trigger] ws[j]),
    ensures
        pack_clean(pack_words(st, ws, max)),
    decreases ws.len(),
{
    if ws.len() > 0 {
        let prev = ws.drop_last();
        assert forall|j: int| 0 <= j < prev.len() implies solid(#[trigger] prev[j]) by {
            assert(prev[j] == ws[j]);
        }
        lemma_pack_words_clean(st, prev, max);
        let st0 = pack_words(st, prev, max);
        let w = ws.last();
        assert(solid(ws[ws.len() - 1]));
        if st0.1.len() + w.len() + 1 > max && st0.1.len() > 0 {
            lemma_close_clean(st0);
        }
        let (res, cur) = close_if_full(st0, w.len() + 1, max);
        if cur.len() > 0 {
            assert((cur.push(' ') + w)[0] == cur[0]);
        }
    }
}

proof fn lemma_pack_paragraphs_clean(ps: Seq<Seq<char>>, max: nat)
    requires
        forall|i: int| 0 <= i < ps.len() ==> is_trimmed(#[trigger] ps[i]),
    ensures
        pack_clean(pack_paragraphs(ps, max)),
    decreases ps.len(),
{
    if ps.len() > 0 {
        let prev = ps.drop_last();
        assert forall|i: int| 0 <= i < prev.len() implies is_trimmed(#[trigger] prev[i]) by {
            assert(prev[i] == ps[i]);
        }
        lemma_pack_paragraphs_clean(prev, max);
        let st = pack_paragraphs(prev, max);
        let p = ps.last();
        assert(is_trimmed(ps[ps.len() - 1]));
        if p.len() > max {
            let st1 = if st.1.len() > 0 {
                (st.0.push(trim(st.1)), Seq::<char>::empty())
            } else {
                (st.0, st.1)
            };
            if st.1.len() > 0 {
                lemma_close_clean(st);
            }
            lemma_words_solid(p);
            lemma_cut_words_solid(words_of(p), max);
            lemma_pack_words_clean(st1, cut_words(words_of(p), max), max);
        } else {
            let sep: nat = if st.1.len() > 0 { 2 } else { 0 };
            if st.1.len() + p.len() + sep > max && st.1.len() > 0 {
                lemma_close_clean(st);
            }
            let (res2, cur2) = close_if_full(st, p.len() + sep, max);
            if cur2.len() > 0 {
                assert((cur2 + seq!['\n', '\n'] + p)[0] == cur2[0]);
            }
        }
    }
}

/// Every piece of a section's text is trimmed text: not empty, and beginning and
/// ending with a character other than whitespace.
pub proof fn lemma_content_pieces_trimmed(content: Seq<char>, max: nat)
    ensures
        forall|i: int|
            0 <= i < content_pieces(content, max).len() ==> is_trimmed(
                #[trigger] content_pieces(content, max)[i],
            ),
{
    lemma_paragraphs_trimmed(blank_pieces(content));
    lemma_pack_paragraphs_clean(paragraphs_of(content), max);
    let st = pack_paragraphs(paragraphs_of(content), max);
    let pieces = content_pieces(content, max);
    if st.1.len() > 0 {
        lemma_close_clean(st);
        let r = st.0.push(trim(st.1));
        assert(pieces == r);
        assert(pack_clean((r, Seq::<char>::empty())));
        assert forall|i: int| 0 <= i < pieces.len() implies is_trimmed(#[trigger] pieces[i]) by {
            assert(is_trimmed(r[i]));
        }
    } else {
        assert forall|i: int| 0 <= i < pieces.len() implies is_trimmed(#[trigger] pieces[i]) by {
            assert(is_trimmed(st.0[i]));
        }
    }
}

/// Every chunk of a document holds trimmed text: not empty, and beginning and
/// ending with a character other than whitespace.
pub proof fn lemma_chunks_trimmed(markdown: Seq<char>, source_path: Seq<char>)
    ensures
        forall|i: int|
            0 <= i < markdown_chunks(markdown, source_path).len() ==> is_trimmed(
                (#[trigger] markdown_chunks(markdown, source_path)[i]).2,
            ),
{
    lemma_sections_chunks_trimmed(sections_of(markdown), source_path);
}

proof fn lemma_sections_chunks_trimmed(sections: Seq<(Seq<char>, Seq<char>)>, source_path: Seq<char>)
    ensures
        forall|i: int|
            0 <= i < chunks_of_sections(sections, source_path).len() ==> is_trimmed(
                (#[trigger] chunks_of_sections(sections, source_path)[i]).2,
            ),
    decreases sections.len(),
{
    if sections.len() > 0 {
        let prev = sections.drop_last();
        lemma_sections_chunks_trimmed(prev, source_path);
        let last = sections.last();
        lemma_content_pieces_trimmed(last.1, MAX_CHUNK_CHARS as nat);
        let a = chunks_of_sections(prev, source_path);
        let b = section_chunks(last, source_path);
        let all = chunks_of_sections(sections, source_path);
        assert(all == a + b);
        assert forall|i: int| 0 <= i < all.len() implies is_trimmed((#[trigger] all[i]).2) by {
            if i < a.len() {
                assert(all[i] == a[i]);
            } else {
                assert(all[i] == b[i - a.len()]);
                assert(b[i - a.len()].2 == content_pieces(last.1, MAX_CHUNK_CHARS as nat)[i
                    - a.len()]);
            }
        }
    }
}

/// Every chunk of a document is headed by the last segment of its section path
/// and located at the source path, `#` and the anchor of that heading.
pub proof fn lemma_chunk_fields(markdown: Seq<char>, source_path: Seq<char>)
    ensures
        forall|i: int|
            0 <= i < markdown_chunks(markdown, source_path).len() ==> {
                let c = #[trigger] markdown_chunks(markdown, source_path)[i];
                &&& c.0 == last_segment(c.1)
                &&& c.3 == source_path + seq!['#'] + slug(c.0)
            },
{
    lemma_sections_chunk_fields(sections_of(markdown), source_path);
}

proof fn lemma_sections_chunk_fields(sections: Seq<(Seq<char>, Seq<char>)>, source_path: Seq<char>)
    ensures
        forall|i: int|
            0 <= i < chunks_of_sections(sections, source_path).len() ==> {
                let c = #[trigger] chunks_of_sections(sections, source_path)[i];
                &&& c.0 == last_segment(c.1)
                &&& c.3 == source_path + seq!['#'] + slug(c.0)
            },
    decreases sections.len(),
{
    if sections.len() > 0 {
        let prev = sections.drop_last();
        lemma_sections_chunk_fields(prev, source_path);
        let last = sections.last();
        let a = chunks_of_sections(prev, source_path);
        let b = section_chunks(last, source_path);
        let all = chunks_of_sections(sections, source_path);
        assert(all == a + b);
        assert forall|i: int| 0 <= i < all.len() implies {
            let c = #[trigger] all[i];
            &&& c.0 == last_segment(c.1)
            &&& c.3 == source_path + seq!['#'] + slug(c.0)
        } by {
            if i < a.len() {
                assert(all[i] == a[i]);
            } else {
                assert(all[i] == b[i - a.len()]);
            }
        }
    }
}

proof fn lemma_join_push_extend(ts: Seq<Seq<char>>, x: Seq<char>, y: Seq<char>, sep: Seq<char>)
    ensures
        join_with(ts.push(x + y), sep) == join_with(ts.push(x), sep) + y,
{
    assert(ts.push(x + y).drop_last() =~= ts);
    assert(ts.push(x).drop_last() =~= ts);
    if ts.len() == 0 {
        assert(join_with(ts.push(x + y), sep) == x + y);
        assert(join_with(ts.push(x), sep) == x);
    } else {
        assert(join_with(ts.push(x + y), sep) =~= join_with(ts, sep) + sep + x + y);
    }
}

proof fn lemma_blank_state_join(s: Seq<char>)
    ensures
        ({
            let (done, cur, pend) = blank_state(s);
            join_with(done.push(cur), seq!['\n', '\n']) + (if pend { seq!['\n'] } else { seq![] })
                == s
        }),
    decreases s.len(),
{
    let sep = seq!['\n', '\n'];
    if s.len() == 0 {
        assert(join_with(seq![Seq::<char>::empty()], sep) == Seq::<char>::empty());
        assert(seq![Seq::<char>::empty()] =~= Seq::<Seq<char>>::empty().push(Seq::<char>::empty()));
    } else {
        let prev = s.drop_last();
        lemma_blank_state_join(prev);
        let (done, cur, pend) = blank_state(prev);
        let c = s.last();
        assert(s =~= prev.push(c));
        if c == '\n' {
            if pend {
                let d2 = done.push(cur);
                assert(d2.push(Seq::<char>::empty()).drop_last() =~= d2);
                assert(join_with(d2.push(Seq::<char>::empty()), sep) =~= join_with(d2, sep) + sep);
            } else {
            }
        } else if pend {
            lemma_join_push_extend(done, cur, seq!['\n', c], sep);
            assert(cur.push('\n').push(c) =~= cur + seq!['\n', c]);
        } else {
            lemma_join_push_extend(done, cur, seq![c], sep);
            assert(cur.push(c) =~= cur + seq![c]);
        }
    }
}

/// Cutting a text at its blank lines and joining the pieces with blank lines
/// again gives back the text.
pub proof fn lemma_blank_pieces_join(s: Seq<char>)
    ensures
        join_with(blank_pieces(s), seq!['\n', '\n']) == s,
{
    lemma_blank_state_join(s);
    let (done, cur, pend) = blank_state(s);
    if pend {
        lemma_join_push_extend(done, cur, seq!['\n'], seq!['\n', '\n']);
        assert(cur.push('\n') =~= cur + seq!['\n']);
    } else {
        assert(join_with(done.push(cur), seq!['\n', '\n']) + Seq::<char>::empty() =~= join_with(
            done.push(cur),
            seq!['\n', '\n'],
        ));
    }
}

proof fn lemma_join_len_grows(ts: Seq<Seq<char>>, sep: Seq<char>)
    requires
        ts.len() > 0,
    ensures
        join_with(ts, sep).len() >= join_with(ts.drop_last(), sep).len() + ts.last().len(),
        ts.len() > 1 ==> join_with(ts, sep).len() == join_with(ts.drop_last(), sep).len()
            + sep.len() + ts.last().len(),
{
    if ts.len() == 1 {
        assert(ts.drop_last().len() == 0);
    }
}

proof fn lemma_nonblank_join_shorter(ps: Seq<Seq<char>>)
    ensures
        join_with(nonblank_trimmed(ps), seq!['\n', '\n']).len() <= join_with(ps, seq!['\n', '\n']).len(),
        nonblank_trimmed(ps).len() <= ps.len(),
    decreases ps.len(),
{
    let sep = seq!['\n', '\n'];
    if ps.len() > 0 {
        let prev = ps.drop_last();
        lemma_nonblank_join_shorter(prev);
        lemma_trim_shorter(ps.last());
        lemma_join_len_grows(ps, sep);
        let nb = nonblank_trimmed(prev);
        let t = trim(ps.last());
        if t.len() > 0 {
            let r = nb.push(t);
            assert(r.drop_last() =~= nb);
            lemma_join_len_grows(r, sep);
            if nb.len() == 0 {
                assert(join_with(r, sep) == t);
            }
        }
    }
}

proof fn lemma_join_ends(ts: Seq<Seq<char>>, sep: Seq<char>)
    requires
        ts.len() > 0,
        forall|i: int| 0 <= i < ts.len() ==> (#[trigger] ts[i]).len() > 0,
    ensures
        join_with(ts, sep).len() > 0,
        join_with(ts, sep)[0] == ts[0][0],
        join_with(ts, sep).last() == ts.last().last(),
    decreases ts.len(),
{
    if ts.len() > 1 {
        let prev = ts.drop_last();
        assert forall|i: int| 0 <= i < prev.len() implies (#[trigger] prev[i]).len() > 0 by {
            assert(prev[i] == ts[i]);
        }
        lemma_join_ends(prev, sep);
        assert(prev[0] == ts[0]);
        assert(ts.last() == ts[ts.len() - 1]);
    }
}

proof fn lemma_pack_fitting(ps: Seq<Seq<char>>, max: nat)
    requires
        forall|i: int| 0 <= i < ps.len() ==> is_trimmed(#[trigger] ps[i]),
        join_with(ps, seq!['\n', '\n']).len() <= max,
    ensures
        pack_paragraphs(ps, max) == (Seq::<Seq<char>>::empty(), join_with(ps, seq!['\n', '\n'])),
    decreases ps.len(),
{
    let sep = seq!['\n', '\n'];
    if ps.len() > 0 {
        let prev = ps.drop_last();
        assert forall|i: int| 0 <= i < prev.len() implies is_trimmed(#[trigger] prev[i]) by {
            assert(prev[i] == ps[i]);
        }
        lemma_join_len_grows(ps, sep);
        lemma_pack_fitting(prev, max);
        let p = ps.last();
        assert(is_trimmed(ps[ps.len() - 1]));
        let cur = join_with(prev, sep);
        if prev.len() > 0 {
            lemma_join_len_grows(prev, sep);
            assert(prev.last() == prev[prev.len() - 1]);
            assert(cur.len() > 0);
            assert(join_with(ps, sep) =~= cur + seq!['\n', '\n'] + p);
        } else {
            assert(cur.len() == 0);
            assert(join_with(ps, sep) == p);
        }
    } else {
        assert(pack_paragraphs(ps, max) == (Seq::<Seq<char>>::empty(), Seq::<char>::empty()));
    }
}

/// Text that fits stays in one piece: a section's text of at most `max`
/// characters becomes its paragraphs joined by blank lines, or nothing when it
/// has no paragraph.
pub proof fn lemma_fitting_content_one_piece(content: Seq<char>, max: nat)
    requires
        content.len() <= max,
    ensures
        content_pieces(content, max) == if paragraphs_of(content).len() == 0 {
            Seq::<Seq<char>>::empty()
        } else {
            seq![join_with(paragraphs_of(content), seq!['\n', '\n'])]
        },
{
    let sep = seq!['\n', '\n'];
    let ps = paragraphs_of(content);
    lemma_blank_pieces_join(content);
    lemma_nonblank_join_shorter(blank_pieces(content));
    lemma_paragraphs_trimmed(blank_pieces(content));
    lemma_pack_fitting(ps, max);
    let j = join_with(ps, sep);
    if ps.len() > 0 {
        assert forall|i: int| 0 <= i < ps.len() implies (#[trigger] ps[i]).len() > 0 by {
            assert(is_trimmed(ps[i]));
        }
        lemma_join_ends(ps, sep);
        assert(is_trimmed(ps[0]));
        assert(ps.last() == ps[ps.len() - 1]);
        assert(is_trimmed(ps[ps.len() - 1]));
        assert(trim_start(j) == j);
        assert(trim_end(j) == j);
        assert(content_pieces(content, max) == seq![trim(j)]);
    } else {
        assert(j.len() == 0);
    }
}

/// Text that is not blank has at least one paragraph.
pub proof fn lemma_nonblank_has_paragraph(s: Seq<char>)
    requires
        trim(s).len() > 0,
    ensures
        paragraphs_of(s).len() > 0,
{
    let sep = seq!['\n', '\n'];
    lemma_blank_pieces_join(s);
    lemma_words_join_blank(blank_pieces(s));
    lemma_words_nonblank(blank_pieces(s));
    assert(words_of(s) == words_in_all(paragraphs_of(s)));
    if paragraphs_of(s).len() == 0 {
        assert(words_of(s).len() == 0);
        lemma_no_words_all_ws(s);
        lemma_all_ws_trim_start(s);
        assert(trim(s).len() == 0);
    }
}

proof fn lemma_no_words_all_ws(s: Seq<char>)
    ensures
        word_state(s).0.len() == 0 && word_state(s).1.len() == 0 ==> forall|i: int|
            0 <= i < s.len() ==> is_ws(#[trigger] s[i]),
    decreases s.len(),
{
    if s.len() > 0 {
        let prev = s.drop_last();
        lemma_no_words_all_ws(prev);
        if word_state(s).0.len() == 0 && word_state(s).1.len() == 0 {
            assert(is_ws(s.last()));
            assert forall|i: int| 0 <= i < s.len() implies is_ws(#[trigger] s[i]) by {
                if i < prev.len() {
                    assert(s[i] == prev[i]);
                }
            }
        }
    }
}

proof fn lemma_all_ws_trim_start(s: Seq<char>)
    requires
        forall|i: int| 0 <= i < s.len() ==> is_ws(#[trigger] s[i]),
    ensures
        trim_start(s).len() == 0,
    decreases s.len(),
{
    if s.len() > 0 {
        let rest = s.drop_first();
        assert forall|i: int| 0 <= i < rest.len() implies is_ws(#[trigger] rest[i]) by {
            assert(rest[i] == s[i + 1]);
        }
        lemma_all_ws_trim_start(rest);
    }
}

/// Text that is not blank and fits becomes one piece: its paragraphs joined by
/// blank lines.
pub proof fn lemma_nonblank_fitting_content_one_piece(content: Seq<char>, max: nat)
    requires
        trim(content).len() > 0,
        content.len() <= max,
    ensures
        content_pieces(content, max) == seq![join_with(paragraphs_of(content), seq!['\n', '\n'])],
{
    lemma_nonblank_has_paragraph(content);
    lemma_fitting_content_one_piece(content, max);
}

/// The words of each text of `ps`, in order, one after another.
pub open spec fn words_in_all(ps: Seq<Seq<char>>) -> Seq<Seq<char>>
    decreases ps.len(),
{
    if ps.len() == 0 {
        seq![]
    } else {
        words_in_all(ps.drop_last()) + words_of(ps.last())
    }
}

proof fn lemma_word_state_after_break(z: Seq<char>, y: Seq<char>)
    requires
        word_state(z).1.len() == 0,
    ensures
        word_state(z + y) == (word_state(z).0 + word_state(y).0, word_state(y).1),
    decreases y.len(),
{
    if y.len() == 0 {
        assert(z + y =~= z);
        assert(word_state(z).0 + Seq::<Seq<char>>::empty() =~= word_state(z).0);
    } else {
        let y1 = y.drop_last();
        lemma_word_state_after_break(z, y1);
        assert((z + y).drop_last() =~= z + y1);
        assert((z + y).last() == y.last());
        let (w, c) = word_state(y1);
        if is_ws(y.last()) && c.len() > 0 {
            assert(word_state(z).0 + w.push(c) =~= (word_state(z).0 + w).push(c));
        }
    }
}

proof fn lemma_words_of_break(x: Seq<char>, c: char, y: Seq<char>)
    requires
        is_ws(c),
    ensures
        words_of(x + seq![c] + y) == words_of(x) + words_of(y),
{
    let z = x + seq![c];
    assert(z.drop_last() =~= x);
    assert(word_state(z) == (words_of(x), Seq::<char>::empty()));
    lemma_word_state_after_break(z, y);
    let (wy, cy) = word_state(y);
    if cy.len() > 0 {
        assert(words_of(x) + wy.push(cy) =~= (words_of(x) + wy).push(cy));
    }
}

proof fn lemma_words_of_empty()
    ensures
        words_of(Seq::<char>::empty()) == Seq::<Seq<char>>::empty(),
{
}

proof fn lemma_words_of_trim_start(x: Seq<char>)
    ensures
        words_of(trim_start(x)) == words_of(x),
    decreases x.len(),
{
    if x.len() > 0 && is_ws(x[0]) {
        lemma_words_of_trim_start(x.drop_first());
        lemma_words_of_break(Seq::<char>::empty(), x[0], x.drop_first());
        assert(Seq::<char>::empty() + seq![x[0]] + x.drop_first() =~= x);
        assert(Seq::<Seq<char>>::empty() + words_of(x.drop_first()) =~= words_of(x.drop_first()));
    }
}

proof fn lemma_words_of_trim_end(x: Seq<char>)
    ensures
        words_of(trim_end(x)) == words_of(x),
    decreases x.len(),
{
    if x.len() > 0 && is_ws(x.last()) {
        lemma_words_of_trim_end(x.drop_last());
        lemma_words_of_break(x.drop_last(), x.last(), Seq::<char>::empty());
        assert(x.drop_last() + seq![x.last()] + Seq::<char>::empty() =~= x);
        assert(words_of(x.drop_last()) + Seq::<Seq<char>>::empty() =~= words_of(x.drop_last()));
    }
}

proof fn lemma_words_of_trim(x: Seq<char>)
    ensures
        words_of(trim(x)) == words_of(x),
        trim(x).len() == 0 ==> words_of(x) == Seq::<Seq<char>>::empty(),
{
    lemma_words_of_trim_start(x);
    lemma_words_of_trim_end(trim_start(x));
}

proof fn lemma_words_of_solid(f: Seq<char>)
    requires
        solid(f),
    ensures
        words_of(f) == seq![f],
{
    assert(word_state(f) == (Seq::<Seq<char>>::empty(), f)) by {
        lemma_word_state_solid_prefix(f, f.len() as int);
        assert(f.take(f.len() as int) =~= f);
    }
}

proof fn lemma_word_state_solid_prefix(f: Seq<char>, n: int)
    requires
        solid(f),
        0 <= n <= f.len(),
    ensures
        word_state(f.take(n)) == (Seq::<Seq<char>>::empty(), f.take(n)),
    decreases n,
{
    if n > 0 {
        lemma_word_state_solid_prefix(f, n - 1);
        assert(f.take(n).drop_last() =~= f.take(n - 1));
        assert(f.take(n).last() == f[n - 1]);
        assert(f.take(n - 1).push(f[n - 1]) =~= f.take(n));
    } else {
        assert(f.take(0) =~= Seq::<char>::empty());
    }
}

proof fn lemma_word_lengths(s: Seq<char>)
    ensures
        forall|k: int| 0 <= k < words_of(s).len() ==> (#[trigger] words_of(s)[k]).len() <= s.len(),
{
    lemma_word_state_lengths(s);
    let (w, c) = word_state(s);
    if c.len() > 0 {
        let r = w.push(c);
        assert forall|k: int| 0 <= k < r.len() implies (#[trigger] r[k]).len() <= s.len() by {
            if k < w.len() {
                assert(r[k] == w[k]);
            }
        }
    }
}

proof fn lemma_word_state_lengths(s: Seq<char>)
    ensures
        forall|k: int| 0 <= k < word_state(s).0.len() ==> (#[trigger] word_state(s).0[k]).len()
            <= s.len(),
        word_state(s).1.len() <= s.len(),
    decreases s.len(),
{
    if s.len() > 0 {
        lemma_word_state_lengths(s.drop_last());
        let (w, c) = word_state(s.drop_last());
        if is_ws(s.last()) && c.len() > 0 {
            let r = w.push(c);
            assert forall|k: int| 0 <= k < r.len() implies (#[trigger] r[k]).len() <= s.len() by {
                if k < w.len() {
                    assert(r[k] == w[k]);
                }
            }
        }
    }
}

proof fn lemma_cut_words_fitting(ws: Seq<Seq<char>>, max: nat)
    requires
        forall|k: int| 0 <= k < ws.len() ==> (#[trigger] ws[k]).len() <= max,
    ensures
        cut_words(ws, max) == ws,
    decreases ws.len(),
{
    if ws.len() > 0 {
        let prev = ws.drop_last();
        assert forall|k: int| 0 <= k < prev.len() implies (#[trigger] prev[k]).len() <= max by {
            assert(prev[k] == ws[k]);
        }
        lemma_cut_words_fitting(prev, max);
        assert(ws.last() == ws[ws.len() - 1]);
        assert(prev.push(ws.last()) =~= ws);
        assert(prev + seq![ws.last()] =~= ws);
    }
}

proof fn lemma_cut_words_concat(a: Seq<Seq<char>>, b: Seq<Seq<char>>, max: nat)
    ensures
        cut_words(a + b, max) == cut_words(a, max) + cut_words(b, max),
    decreases b.len(),
{
    if b.len() == 0 {
        assert(a + b =~= a);
        assert(cut_words(a, max) + Seq::<Seq<char>>::empty() =~= cut_words(a, max));
    } else {
        lemma_cut_words_concat(a, b.drop_last(), max);
        assert((a + b).drop_last() =~= a + b.drop_last());
        assert((a + b).last() == b.last());
        assert(cut_words(a, max) + cut_words(b.drop_last(), max) + cut_word(b.last(), max)
            =~= cut_words(a, max) + (cut_words(b.drop_last(), max) + cut_word(b.last(), max)));
    }
}

proof fn lemma_words_join_blank(ps: Seq<Seq<char>>)
    ensures
        words_of(join_with(ps, seq!['\n', '\n'])) == words_in_all(ps),
    decreases ps.len(),
{
    if ps.len() == 1 {
        assert(words_in_all(ps) == words_in_all(ps.drop_last()) + words_of(ps[0]));
        assert(Seq::<Seq<char>>::empty() + words_of(ps[0]) =~= words_of(ps[0]));
    } else if ps.len() > 1 {
        let prev = ps.drop_last();
        lemma_words_join_blank(prev);
        let j = join_with(prev, seq!['\n', '\n']);
        lemma_words_of_break(j + seq!['\n'], '\n', ps.last());
        lemma_words_of_break(j, '\n', Seq::<char>::empty());
        assert(j + seq!['\n'] + Seq::<char>::empty() =~= j + seq!['\n']);
        assert(words_of(j) + Seq::<Seq<char>>::empty() =~= words_of(j));
        assert(join_with(ps, seq!['\n', '\n']) =~= j + seq!['\n'] + seq!['\n'] + ps.last());
    }
}

proof fn lemma_words_nonblank(ps: Seq<Seq<char>>)
    ensures
        words_in_all(nonblank_trimmed(ps)) == words_in_all(ps),
    decreases ps.len(),
{
    if ps.len() > 0 {
        lemma_words_nonblank(ps.drop_last());
        lemma_words_of_trim(ps.last());
        let t = trim(ps.last());
        let nb = nonblank_trimmed(ps.drop_last());
        if t.len() > 0 {
            assert(nb.push(t).drop_last() =~= nb);
        } else {
            assert(words_in_all(ps.drop_last()) + Seq::<Seq<char>>::empty() =~= words_in_all(
                ps.drop_last(),
            ));
        }
    }
}

/// The words of each piece and of the piece being filled, one after another.
pub open spec fn pack_words_all(st: (Seq<Seq<char>>, Seq<char>)) -> Seq<Seq<char>> {
    words_in_all(st.0) + words_of(st.1)
}

proof fn lemma_close_words(st: (Seq<Seq<char>>, Seq<char>))
    ensures
        pack_words_all((st.0.push(trim(st.1)), Seq::<char>::empty())) == pack_words_all(st),
{
    lemma_words_of_trim(st.1);
    assert(st.0.push(trim(st.1)).drop_last() =~= st.0);
    assert(words_in_all(st.0.push(trim(st.1))) + Seq::<Seq<char>>::empty() =~= words_in_all(
        st.0.push(trim(st.1)),
    ));
}

proof fn lemma_pack_words_keep(st: (Seq<Seq<char>>, Seq<char>), fs: Seq<Seq<char>>, max: nat)
    requires
        forall|j: int| 0 <= j < fs.len() ==> solid(#[trigger] fs[j]),
    ensures
        pack_words_all(pack_words(st, fs, max)) == pack_words_all(st) + fs,
    decreases fs.len(),
{
    if fs.len() == 0 {
        assert(pack_words_all(st) + fs =~= pack_words_all(st));
    } else {
        let prev = fs.drop_last();
        assert forall|j: int| 0 <= j < prev.len() implies solid(#[trigger] prev[j]) by {
            assert(prev[j] == fs[j]);
        }
        lemma_pack_words_keep(st, prev, max);
        let st0 = pack_words(st, prev, max);
        let f = fs.last();
        assert(solid(fs[fs.len() - 1]));
        lemma_words_of_solid(f);
        let (res, cur) = close_if_full(st0, f.len() + 1, max);
        if st0.1.len() + f.len() + 1 > max && st0.1.len() > 0 {
            lemma_close_words(st0);
        }
        assert(pack_words_all((res, cur)) == pack_words_all(st0));
        if cur.len() > 0 {
            lemma_words_of_break(cur, ' ', f);
            assert(cur.push(' ') + f =~= cur + seq![' '] + f);
        }
        assert(pack_words_all(st) + prev + seq![f] =~= pack_words_all(st) + fs);
    }
}

proof fn lemma_pack_paragraphs_keep(ps: Seq<Seq<char>>, max: nat)
    ensures
        pack_words_all(pack_paragraphs(ps, max)) == cut_words(words_in_all(ps), max),
    decreases ps.len(),
{
    if ps.len() == 0 {
        lemma_words_of_empty();
    } else {
        let prev = ps.drop_last();
        lemma_pack_paragraphs_keep(prev, max);
        let st = pack_paragraphs(prev, max);
        let p = ps.last();
        lemma_cut_words_concat(words_in_all(prev), words_of(p), max);
        if p.len() > max {
            let st1 = if st.1.len() > 0 {
                (st.0.push(trim(st.1)), Seq::<char>::empty())
            } else {
                (st.0, st.1)
            };
            if st.1.len() > 0 {
                lemma_close_words(st);
            }
            lemma_words_solid(p);
            lemma_cut_words_solid(words_of(p), max);
            lemma_pack_words_keep(st1, cut_words(words_of(p), max), max);
        } else {
            lemma_word_lengths(p);
            lemma_cut_words_fitting(words_of(p), max);
            let sep: nat = if st.1.len() > 0 { 2 } else { 0 };
            if st.1.len() + p.len() + sep > max && st.1.len() > 0 {
                lemma_close_words(st);
            }
            let (res2, cur2) = close_if_full(st, p.len() + sep, max);
            assert(pack_words_all((res2, cur2)) == pack_words_all(st));
            if cur2.len() > 0 {
                lemma_words_of_break(cur2 + seq!['\n'], '\n', p);
                lemma_words_of_break(cur2, '\n', Seq::<char>::empty());
                assert(cur2 + seq!['\n'] + Seq::<char>::empty() =~= cur2 + seq!['\n']);
                assert(words_of(cur2) + Seq::<Seq<char>>::empty() =~= words_of(cur2));
                assert(cur2 + seq!['\n', '\n'] + p =~= cur2 + seq!['\n'] + seq!['\n'] + p);
                assert(words_in_all(res2) + (words_of(cur2) + words_of(p)) =~= words_in_all(res2)
                    + words_of(cur2) + words_of(p));
            } else {
                lemma_words_of_empty();
                assert(words_in_all(res2) + Seq::<Seq<char>>::empty() =~= words_in_all(res2));
            }
        }
    }
}

/// Cutting a section's text into pieces keeps its words: the words of the
/// pieces, one piece after another, are the words of the text in order, a word
/// longer than `max` cut into fragments as [`cut_word`] describes.
pub proof fn lemma_content_pieces_keep_words(content: Seq<char>, max: nat)
    ensures
        words_in_all(content_pieces(content, max)) == cut_words(words_of(content), max),
{
    lemma_blank_pieces_join(content);
    lemma_words_join_blank(blank_pieces(content));
    lemma_words_nonblank(blank_pieces(content));
    lemma_pack_paragraphs_keep(paragraphs_of(content), max);
    let st = pack_paragraphs(paragraphs_of(content), max);
    if st.1.len() > 0 {
        lemma_close_words(st);
        lemma_words_of_empty();
        assert(words_in_all(st.0.push(trim(st.1))) + Seq::<Seq<char>>::empty() =~= words_in_all(
            st.0.push(trim(st.1)),
        ));
    } else {
        lemma_words_of_empty();
        assert(st.1 =~= Seq::<char>::empty());
        assert(words_in_all(st.0) + Seq::<Seq<char>>::empty() =~= words_in_all(st.0));
    }
}

/// The lines of a Markdown text that are not headings, in order.
pub open spec fn body_lines(lines: Seq<Seq<char>>) -> Seq<Seq<char>>
    decreases lines.len(),
{
    if lines.len() == 0 {
        seq![]
    } else if heading_of(lines.last()) is None {
        body_lines(lines.drop_last()).push(lines.last())
    } else {
        body_lines(lines.drop_last())
    }
}

/// The texts of sections.
pub open spec fn section_texts(secs: Seq<(Seq<char>, Seq<char>)>) -> Seq<Seq<char>> {
    secs.map_values(|x: (Seq<char>, Seq<char>)| x.1)
}

/// The texts of chunks.
pub open spec fn chunk_texts(cs: Seq<ChunkView>) -> Seq<Seq<char>> {
    cs.map_values(|c: ChunkView| c.2)
}

proof fn lemma_words_after_ws_end(b: Seq<char>, x: Seq<char>)
    requires
        b.len() == 0 || is_ws(b.last()),
    ensures
        words_of(b + x) == words_of(b) + words_of(x),
{
    if b.len() == 0 {
        assert(b + x =~= x);
        assert(Seq::<Seq<char>>::empty() + words_of(x) =~= words_of(x));
    } else {
        let b1 = b.drop_last();
        lemma_words_of_break(b1, b.last(), x);
        lemma_words_of_break(b1, b.last(), Seq::<char>::empty());
        assert(b1 + seq![b.last()] + x =~= b + x);
        assert(b1 + seq![b.last()] + Seq::<char>::empty() =~= b);
        assert(words_of(b1) + Seq::<Seq<char>>::empty() =~= words_of(b1));
    }
}

proof fn lemma_words_in_all_push(ps: Seq<Seq<char>>, x: Seq<char>)
    ensures
        words_in_all(ps.push(x)) == words_in_all(ps) + words_of(x),
{
    assert(ps.push(x).drop_last() =~= ps);
}

proof fn lemma_flush_words(o: Outline)
    requires
        o.1.len() == 0 || is_ws(o.1.last()),
    ensures
        words_in_all(section_texts(flush(o).2)) == words_in_all(section_texts(o.2)) + words_of(o.1),
        flush(o).1.len() == 0,
{
    let (headings, body, sections) = o;
    lemma_words_of_trim(body);
    let content = trim(body);
    if content.len() > 0 {
        let secs2 = sections.push((section_path(headings), content));
        assert(section_texts(secs2) =~= section_texts(sections).push(content));
        lemma_words_in_all_push(section_texts(sections), content);
    } else {
        assert(words_in_all(section_texts(sections)) + Seq::<Seq<char>>::empty() =~= words_in_all(
            section_texts(sections),
        ));
    }
}

proof fn lemma_outline_words(lines: Seq<Seq<char>>)
    ensures
        outline_of(lines).1.len() == 0 || is_ws(outline_of(lines).1.last()),
        words_in_all(section_texts(outline_of(lines).2)) + words_of(outline_of(lines).1)
            == words_in_all(body_lines(lines)),
    decreases lines.len(),
{
    if lines.len() == 0 {
        lemma_words_of_empty();
        assert(section_texts(Seq::<(Seq<char>, Seq<char>)>::empty()) =~= Seq::<Seq<char>>::empty());
        assert(Seq::<Seq<char>>::empty() + Seq::<Seq<char>>::empty() =~= Seq::<Seq<char>>::empty());
    } else {
        let prev = lines.drop_last();
        lemma_outline_words(prev);
        let o = outline_of(prev);
        let line = lines.last();
        match heading_of(line) {
            Some((level, text)) => {
                lemma_flush_words(o);
                lemma_words_of_empty();
                let f = flush(o);
                assert(words_in_all(section_texts(f.2)) + Seq::<Seq<char>>::empty() =~= words_in_all(
                    section_texts(f.2),
                ));
            },
            None => {
                let body2 = o.1 + trim_end(line) + seq!['\n'];
                lemma_words_of_trim_end(line);
                lemma_words_after_ws_end(o.1, trim_end(line) + seq!['\n']);
                assert(o.1 + (trim_end(line) + seq!['\n']) =~= body2);
                lemma_words_of_break(trim_end(line), '\n', Seq::<char>::empty());
                assert(trim_end(line) + seq!['\n'] + Seq::<char>::empty() =~= trim_end(line) + seq![
                    '\n',
                ]);
                assert(words_of(trim_end(line)) + Seq::<Seq<char>>::empty() =~= words_of(
                    trim_end(line),
                ));
                lemma_words_in_all_push(body_lines(prev), line);
                assert(body2.last() == '\n');
                let w = words_in_all(section_texts(o.2));
                assert(w + (words_of(o.1) + words_of(line)) =~= w + words_of(o.1) + words_of(line));
            },
        }
    }
}

proof fn lemma_section_chunk_words(secs: Seq<(Seq<char>, Seq<char>)>, source_path: Seq<char>)
    ensures
        words_in_all(chunk_texts(chunks_of_sections(secs, source_path))) == cut_words(
            words_in_all(section_texts(secs)),
            MAX_CHUNK_CHARS as nat,
        ),
    decreases secs.len(),
{
    let max = MAX_CHUNK_CHARS as nat;
    if secs.len() == 0 {
        assert(chunk_texts(chunks_of_sections(secs, source_path)) =~= Seq::<Seq<char>>::empty());
        assert(section_texts(secs) =~= Seq::<Seq<char>>::empty());
    } else {
        let prev = secs.drop_last();
        lemma_section_chunk_words(prev, source_path);
        let last = secs.last();
        let a = chunks_of_sections(prev, source_path);
        let b = section_chunks(last, source_path);
        assert(chunk_texts(b) =~= content_pieces(last.1, max));
        assert(chunk_texts(a + b) =~= chunk_texts(a) + chunk_texts(b));
        lemma_words_in_all_concat(chunk_texts(a), chunk_texts(b));
        lemma_content_pieces_keep_words(last.1, max);
        assert(section_texts(secs) =~= section_texts(prev).push(last.1));
        lemma_words_in_all_push(section_texts(prev), last.1);
        lemma_cut_words_concat(words_in_all(section_texts(prev)), words_of(last.1), max);
    }
}

proof fn lemma_words_in_all_concat(a: Seq<Seq<char>>, b: Seq<Seq<char>>)
    ensures
        words_in_all(a + b) == words_in_all(a) + words_in_all(b),
    decreases b.len(),
{
    if b.len() == 0 {
        assert(a + b =~= a);
        assert(words_in_all(a) + Seq::<Seq<char>>::empty() =~= words_in_all(a));
    } else {
        lemma_words_in_all_concat(a, b.drop_last());
        assert((a + b).drop_last() =~= a + b.drop_last());
        assert((a + b).last() == b.last());
        assert(words_in_all(a) + words_in_all(b.drop_last()) + words_of(b.last()) =~= words_in_all(
            a,
        ) + (words_in_all(b.drop_last()) + words_of(b.last())));
    }
}

/// Chunking keeps every word of a document's text: the words of its chunks, in
/// order, are the words of its lines that are not headings, in order, a word
/// longer than [`MAX_CHUNK_CHARS`] cut into fragments as [`cut_word`] describes.
pub proof fn lemma_chunks_keep_words(markdown: Seq<char>, source_path: Seq<char>)
    ensures
        words_in_all(chunk_texts(markdown_chunks(markdown, source_path))) == cut_words(
            words_in_all(body_lines(lines_of(markdown))),
            MAX_CHUNK_CHARS as nat,
        ),
{
    let lines = lines_of(markdown);
    lemma_outline_words(lines);
    lemma_flush_words(outline_of(lines));
    lemma_section_chunk_words(sections_of(markdown), source_path);
}

/// The title of the rules corpus.
pub const SRD_TITLE: &'static str = "System Reference Document 5.1";

/// The edition the rules belong to.
pub const SRD_EDITION: &'static str = "5e 2014";

/// The licence the rules are published under.
pub const SRD_LICENSE: &'static str = "CC BY 4.0";

/// Where the Markdown copy of the rules comes from.
pub const SRD_UPSTREAM: &'static str = "https://github.com/oldmanumby/dnd.srd.5.1";

/// The revision of that copy that the snapshot is built from.
pub const SRD_REVISION: &'static str = "cecde944c90b50e630aad031b76af35933805013";

/// A licence text that carries the expected attribution: it names both the
/// Creative Commons Attribution 4.0 licence and the System Reference Document 5.1.
pub open spec fn srd_attribution(legal: Seq<char>) -> bool {
    contains_seq(legal, "Creative Commons Attribution 4.0"@) && contains_seq(
        legal,
        "System Reference Document 5.1"@,
    )
}

/// Whether the licence text carries the expected attribution.
pub fn has_srd_attribution(legal: &str) -> (b: bool)
    ensures
        b == srd_attribution(legal@),
{
    let v = chars_of(legal);
    contains_chars(&v, &chars_of("Creative Commons Attribution 4.0")) && contains_chars(
        &v,
        &chars_of("System Reference Document 5.1"),
    )
}

/// A directory, by its path below the source root, that the snapshot leaves out:
/// the alphabetical spell and monster lists, and hidden directories.
pub open spec fn skipped_directory(relative: Seq<char>) -> bool {
    contains_seq(relative, "Spells_A-Z"@) || contains_seq(relative, "Monsters_A-Z"@) || (
    relative.len() > 0 && relative[0] == '.')
}

/// Whether the snapshot leaves a directory out.
pub fn is_skipped_directory(relative: &str) -> (b: bool)
    ensures
        b == skipped_directory(relative@),
{
    let v = chars_of(relative);
    contains_chars(&v, &chars_of("Spells_A-Z")) || contains_chars(&v, &chars_of("Monsters_A-Z"))
        || (v.len() > 0 && v[0] == '.')
}

/// A file that becomes a document: a Markdown file other than the README and the
/// licence.
pub open spec fn indexed_markdown(file_name: Seq<char>, extension: Option<Seq<char>>) -> bool {
    extension == Some("md"@) && file_name != "README.md"@ && file_name != "Legal.md"@
}

/// Whether a file, by its name and extension, becomes a document.
pub fn is_indexed_markdown(file_name: &str, extension: Option<&str>) -> (b: bool)
    ensures
        b == indexed_markdown(file_name@, match extension {
            Some(e) => Some(e@),
            None => None,
        }),
{
    match extension {
        Some(e) => same_text(e, "md") && !same_text(file_name, "README.md") && !same_text(
            file_name,
            "Legal.md",
        ),
        None => false,
    }
}

/// `s` with every `from` replaced by `to`.
pub open spec fn replace_char(s: Seq<char>, from: char, to: char) -> Seq<char> {
    s.map_values(|c: char| if c == from { to } else { c })
}

/// `s` with every `from` replaced by `to`, as [`replace_char`] describes it.
pub fn replace_chars(s: &str, from: char, to: char) -> (r: String)
    ensures
        r@ == replace_char(s@, from, to),
{
    let v = chars_of(s);
    let mut r = String::new();
    let mut i: usize = 0;
    while i < v.len()
        invariant
            i <= v.len(),
            r@ == replace_char(v@.take(i as int), from, to),
        decreases v.len() - i,
    {
        let c = if v[i] == from { to } else { v[i] };
        push_char(&mut r, c);
        assert(replace_char(v@.take(i + 1), from, to) =~= replace_char(v@.take(i as int), from, to).push(c));
        i = i + 1;
    }
    assert(v@.take(v.len() as int) =~= v@);
    r
}

/// The text after `# ` on the first line that begins with it.
pub open spec fn first_title(lines: Seq<Seq<char>>) -> Option<Seq<char>>
    decreases lines.len(),
{
    if lines.len() == 0 {
        None
    } else if starts_with(lines[0], "# "@) {
        Some(lines[0].skip(2))
    } else {
        first_title(lines.drop_first())
    }
}

/// A document's title: the first top-level heading, trimmed, where it is not
/// blank; else the file's stem with underscores read as spaces; else its path.
pub open spec fn document_title_of(
    markdown: Seq<char>,
    file_stem: Option<Seq<char>>,
    source_path: Seq<char>,
) -> Seq<char> {
    let t = first_title(lines_of(markdown));
    if t is Some && trim(t->0).len() > 0 {
        trim(t->0)
    } else if file_stem is Some {
        replace_char(file_stem->0, '_', ' ')
    } else {
        source_path
    }
}

/// A document's title, as [`document_title_of`] describes it.
pub fn document_title(markdown: &str, file_stem: Option<&str>, source_path: &str) -> (r: String)
    ensures
        r@ == document_title_of(markdown@, match file_stem {
            Some(s) => Some(s@),
            None => None,
        }, source_path@),
{
    let v = chars_of(markdown);
    let lines = lines_in(&v);
    let prefix = chars_of("# ");
    let ghost all = views(lines@);
    let mut k: usize = 0;
    assert(all.skip(0) =~= all);
    let mut found: Option<usize> = None;
    while k < lines.len()
        invariant_except_break
            found is None,
        invariant
            k <= lines.len(),
            all == views(lines@),
            prefix@ == "# "@,
            first_title(all.skip(k as int)) == first_title(all),
        ensures
            found matches Some(j) ==> j < lines.len() && first_title(all) == Some(
                all[j as int].skip(2),
            ) && starts_with(all[j as int], "# "@),
            found is None ==> k == lines.len(),
        decreases lines.len() - k,
    {
        assert(all.skip(k as int)[0] == lines@[k as int]@);
        if matches_at(&lines[k], &prefix, 0) {
            found = Some(k);
            break;
        }
        assert(all.skip(k as int).drop_first() =~= all.skip(k + 1));
        k = k + 1;
    }
    if let Some(k) = found {
        let line = &lines[k];
        assert(all[k as int] == line@);
        proof {
            reveal_strlit("# ");
        }
        assert(line@.len() >= 2);
        let (a, b) = trim_range(line, 2, line.len());
        assert(line@.subrange(2, line.len() as int) =~= line@.skip(2));
        if a < b {
            return string_of(line, a, b);
        }
    } else {
        assert(all.skip(k as int) =~= seq![]);
    }
    match file_stem {
        Some(stem) => replace_chars(stem, '_', ' '),
        None => string_from(&chars_of(source_path)),
    }
}

/// A document read from its Markdown text: its title as [`document_title_of`]
/// describes it, its path as given, and its chunks as [`chunk_markdown`] gives them.
pub fn parse_document(markdown: &str, source_path: &str, file_stem: Option<&str>) -> (r:
    SrdDocument)
    ensures
        r.title@ == document_title_of(markdown@, match file_stem {
            Some(s) => Some(s@),
            None => None,
        }, source_path@),
        r.source_path@ == source_path@,
        r.chunks@.map_values(|c: SrdChunk| chunk_view(c)) == markdown_chunks(
            markdown@,
            source_path@,
        ),
        forall|i: int| 0 <= i < r.chunks@.len() ==> (#[trigger] r.chunks@[i]).ordinal == i,
{
    let title = document_title(markdown, file_stem, source_path);
    let chunks = chunk_markdown(markdown, source_path);
    SrdDocument { title, source_path: string_from(&chars_of(source_path)), chunks }
}

/// A path below the source root, written with `/` between its parts.
pub fn source_path_text(relative: &str) -> (r: String)
    ensures
        r@ == replace_char(relative@, '\\', '/'),
{
    replace_chars(relative, '\\', '/')
}

/// The snapshot of the rules made of `documents`, under the corpus's title,
/// edition, licence, origin and revision.
pub fn srd_snapshot(documents: Vec<SrdDocument>) -> (r: SrdSnapshot)
    ensures
        r.title@ == SRD_TITLE@,
        r.edition@ == SRD_EDITION@,
        r.license@ == SRD_LICENSE@,
        r.upstream@ == SRD_UPSTREAM@,
        r.revision@ == SRD_REVISION@,
        r.documents@ == documents@,
{
    SrdSnapshot {
        title: string_from(&chars_of(SRD_TITLE)),
        edition: string_from(&chars_of(SRD_EDITION)),
        license: string_from(&chars_of(SRD_LICENSE)),
        upstream: string_from(&chars_of(SRD_UPSTREAM)),
        revision: string_from(&chars_of(SRD_REVISION)),
        documents,
    }
}

/// The pieces of packed paragraphs: the finished ones, then the one being filled,
/// trimmed, when it holds anything.
pub open spec fn packed_pieces(st: (Seq<Seq<char>>, Seq<char>)) -> Seq<Seq<char>> {
    if st.1.len() > 0 {
        st.0.push(trim(st.1))
    } else {
        st.0
    }
}

/// The pieces into which the paragraphs `ps` are packed.
pub open spec fn paragraph_pieces(ps: Seq<Seq<char>>, max: nat) -> Seq<Seq<char>> {
    packed_pieces(pack_paragraphs(ps, max))
}

/// Packing the paragraphs `qs` after the state `st`.
pub open spec fn pack_from(st: (Seq<Seq<char>>, Seq<char>), qs: Seq<Seq<char>>, max: nat) -> (
    Seq<Seq<char>>,
    Seq<char>,
)
    decreases qs.len(),
{
    if qs.len() == 0 {
        st
    } else {
        pack_paragraph(pack_from(st, qs.drop_last(), max), qs.last(), max)
    }
}

/// A paragraph longer than the limit never shares a piece with the text before
/// it: the pieces of paragraphs that contain one are the pieces of the paragraphs
/// before it, then the pieces of that paragraph and those after it, as if the text
/// began there. So the piece before it ends with the preceding paragraph, and the
/// pieces that follow begin with its own words.
pub proof fn lemma_oversized_paragraph_starts_piece(
    ps: Seq<Seq<char>>,
    p: Seq<char>,
    qs: Seq<Seq<char>>,
    max: nat,
)
    requires
        p.len() > max,
    ensures
        paragraph_pieces(ps + seq![p] + qs, max) == paragraph_pieces(ps, max) + paragraph_pieces(
            seq![p] + qs,
            max,
        ),
{
    let e = (Seq::<Seq<char>>::empty(), Seq::<char>::empty());
    let st = pack_paragraphs(ps, max);
    let prefix = packed_pieces(st);
    lemma_pack_concat(ps, seq![p] + qs, max);
    assert(ps + seq![p] + qs =~= ps + (seq![p] + qs));
    lemma_from_concat(st, seq![p], qs, max);
    assert(seq![p].drop_last() =~= Seq::<Seq<char>>::empty());
    assert(pack_from(st, Seq::<Seq<char>>::empty(), max) == st);
    assert(seq![p].last() == p);
    assert(pack_from(st, seq![p], max) == pack_paragraph(st, p, max));
    let ws = cut_words(words_of(p), max);
    let st1 = if st.1.len() > 0 {
        (st.0.push(trim(st.1)), Seq::<char>::empty())
    } else {
        (st.0, st.1)
    };
    assert(st1.0 == prefix);
    assert(st1.1 =~= Seq::<char>::empty());
    assert(prefix + Seq::<Seq<char>>::empty() =~= prefix);
    lemma_words_prefix(prefix, e, ws, max);
    let x = pack_paragraph(e, p, max);
    assert(x == pack_words(e, ws, max));
    assert(pack_paragraph(st, p, max) == (prefix + x.0, x.1));
    lemma_from_prefix(prefix, x, qs, max);
    let y = pack_from(x, qs, max);
    lemma_pack_concat(Seq::<Seq<char>>::empty(), seq![p] + qs, max);
    assert(Seq::<Seq<char>>::empty() + (seq![p] + qs) =~= seq![p] + qs);
    lemma_from_concat(e, seq![p], qs, max);
    assert(pack_from(e, Seq::<Seq<char>>::empty(), max) == e);
    assert(pack_from(e, seq![p], max) == pack_paragraph(e, p, max));
    assert(pack_paragraphs(seq![p] + qs, max) == y);
    if y.1.len() > 0 {
        assert((prefix + y.0).push(trim(y.1)) =~= prefix + y.0.push(trim(y.1)));
    }
}

/// Cut where a paragraph longer than the limit begins, a text's pieces are those
/// of its paragraphs before it, then those of the rest.
pub proof fn lemma_oversized_paragraph_in_content(content: Seq<char>, k: int, max: nat)
    requires
        0 <= k < paragraphs_of(content).len(),
        paragraphs_of(content)[k].len() > max,
    ensures
        content_pieces(content, max) == paragraph_pieces(paragraphs_of(content).take(k), max)
            + paragraph_pieces(paragraphs_of(content).skip(k), max),
{
    let ps = paragraphs_of(content);
    let p = ps[k];
    lemma_oversized_paragraph_starts_piece(ps.take(k), p, ps.skip(k + 1), max);
    assert(ps.take(k) + seq![p] + ps.skip(k + 1) =~= ps);
    assert(seq![p] + ps.skip(k + 1) =~= ps.skip(k));
}

proof fn lemma_pack_concat(ps: Seq<Seq<char>>, qs: Seq<Seq<char>>, max: nat)
    ensures
        pack_paragraphs(ps + qs, max) == pack_from(pack_paragraphs(ps, max), qs, max),
    decreases qs.len(),
{
    if qs.len() == 0 {
        assert(ps + qs =~= ps);
    } else {
        lemma_pack_concat(ps, qs.drop_last(), max);
        assert((ps + qs).drop_last() =~= ps + qs.drop_last());
        assert((ps + qs).last() == qs.last());
    }
}

proof fn lemma_from_concat(
    st: (Seq<Seq<char>>, Seq<char>),
    xs: Seq<Seq<char>>,
    ys: Seq<Seq<char>>,
    max: nat,
)
    ensures
        pack_from(st, xs + ys, max) == pack_from(pack_from(st, xs, max), ys, max),
    decreases ys.len(),
{
    if ys.len() == 0 {
        assert(xs + ys =~= xs);
    } else {
        lemma_from_concat(st, xs, ys.drop_last(), max);
        assert((xs + ys).drop_last() =~= xs + ys.drop_last());
        assert((xs + ys).last() == ys.last());
    }
}

proof fn lemma_close_prefix(r0: Seq<Seq<char>>, st: (Seq<Seq<char>>, Seq<char>), extra: nat, max: nat)
    ensures
        close_if_full((r0 + st.0, st.1), extra, max) == (
            r0 + close_if_full(st, extra, max).0,
            close_if_full(st, extra, max).1,
        ),
{
    if st.1.len() + extra > max && st.1.len() > 0 {
        assert((r0 + st.0).push(trim(st.1)) =~= r0 + st.0.push(trim(st.1)));
    }
}

proof fn lemma_words_prefix(
    r0: Seq<Seq<char>>,
    st: (Seq<Seq<char>>, Seq<char>),
    ws: Seq<Seq<char>>,
    max: nat,
)
    ensures
        pack_words((r0 + st.0, st.1), ws, max) == (
            r0 + pack_words(st, ws, max).0,
            pack_words(st, ws, max).1,
        ),
    decreases ws.len(),
{
    if ws.len() > 0 {
        lemma_words_prefix(r0, st, ws.drop_last(), max);
        let w = ws.last();
        let inner = pack_words(st, ws.drop_last(), max);
        lemma_close_prefix(r0, inner, w.len() + 1, max);
    }
}

proof fn lemma_paragraph_prefix(
    r0: Seq<Seq<char>>,
    st: (Seq<Seq<char>>, Seq<char>),
    p: Seq<char>,
    max: nat,
)
    ensures
        pack_paragraph((r0 + st.0, st.1), p, max) == (
            r0 + pack_paragraph(st, p, max).0,
            pack_paragraph(st, p, max).1,
        ),
{
    let ws = cut_words(words_of(p), max);
    if p.len() > max {
        if st.1.len() > 0 {
            let st1 = (st.0.push(trim(st.1)), Seq::<char>::empty());
            assert((r0 + st.0).push(trim(st.1)) =~= r0 + st.0.push(trim(st.1)));
            lemma_words_prefix(r0, st1, ws, max);
        } else {
            lemma_words_prefix(r0, st, ws, max);
        }
    } else {
        let sep: nat = if st.1.len() > 0 { 2 } else { 0 };
        lemma_close_prefix(r0, st, p.len() + sep, max);
    }
}

proof fn lemma_from_prefix(
    r0: Seq<Seq<char>>,
    st: (Seq<Seq<char>>, Seq<char>),
    qs: Seq<Seq<char>>,
    max: nat,
)
    ensures
        pack_from((r0 + st.0, st.1), qs, max) == (
            r0 + pack_from(st, qs, max).0,
            pack_from(st, qs, max).1,
        ),
    decreases qs.len(),
{
    if qs.len() > 0 {
        lemma_from_prefix(r0, st, qs.drop_last(), max);
        lemma_paragraph_prefix(r0, pack_from(st, qs.drop_last(), max), qs.last(), max);
    }
}

} // verus!
