use vstd::prelude::*;

use crate::text::{
    push_chars, views, alphanumeric, longer_than_one_byte, utf8_len, chars_of, is_alphanumeric, lowercase, push_char, same_text, string_of,
    to_lowercase,
};

verus! {

/// `a` sorts before `b`: character by character, by code point, a proper prefix first.
pub open spec fn lex_lt(a: Seq<char>, b: Seq<char>) -> bool
    decreases a.len(),
{
    if a.len() == 0 {
        b.len() > 0
    } else if b.len() == 0 {
        false
    } else if a[0] == b[0] {
        lex_lt(a.drop_first(), b.drop_first())
    } else {
        (a[0] as u32) < (b[0] as u32)
    }
}

pub proof fn lemma_lex_irreflexive(a: Seq<char>)
    ensures
        !lex_lt(a, a),
    decreases a.len(),
{
    if a.len() > 0 {
        lemma_lex_irreflexive(a.drop_first());
    }
}

pub proof fn lemma_lex_transitive(a: Seq<char>, b: Seq<char>, c: Seq<char>)
    requires
        lex_lt(a, b),
        lex_lt(b, c),
    ensures
        lex_lt(a, c),
    decreases a.len(),
{
    if a.len() > 0 && b.len() > 0 && c.len() > 0 {
        if a[0] == b[0] && b[0] == c[0] {
            lemma_lex_transitive(a.drop_first(), b.drop_first(), c.drop_first());
        }
    }
}

pub proof fn lemma_lex_total(a: Seq<char>, b: Seq<char>)
    requires
        a != b,
    ensures
        lex_lt(a, b) || lex_lt(b, a),
    decreases a.len(),
{
    if a.len() > 0 && b.len() > 0 && a[0] == b[0] {
        if a.drop_first() == b.drop_first() {
            assert(a =~= seq![a[0]] + a.drop_first());
            assert(b =~= seq![b[0]] + b.drop_first());
        }
        lemma_lex_total(a.drop_first(), b.drop_first());
    } else if a.len() > 0 && b.len() > 0 {
        assert((a[0] as u32) != (b[0] as u32)) by {
            vstd::utf8::char_u32_cast(a[0], a[0] as u32);
            vstd::utf8::char_u32_cast(b[0], b[0] as u32);
        }
    } else if a.len() == 0 && b.len() == 0 {
        assert(a =~= b);
    }
}

pub proof fn lemma_lex_asymmetric(a: Seq<char>, b: Seq<char>)
    requires
        lex_lt(a, b),
    ensures
        !lex_lt(b, a),
{
    if lex_lt(b, a) {
        lemma_lex_transitive(a, b, a);
        lemma_lex_irreflexive(a);
    }
}

/// `ts` is in strictly ascending order.
pub open spec fn strictly_sorted(ts: Seq<Seq<char>>) -> bool {
    forall|i: int, j: int| 0 <= i < j < ts.len() ==> lex_lt(#[trigger] ts[i], #[trigger] ts[j])
}

/// `t` added to the ascending sequence `r` at its place, unless it is already there.
pub open spec fn insert_sorted(r: Seq<Seq<char>>, t: Seq<char>) -> Seq<Seq<char>>
    decreases r.len(),
{
    if r.len() == 0 {
        seq![t]
    } else if r[0] == t {
        r
    } else if lex_lt(t, r[0]) {
        seq![t] + r
    } else {
        seq![r[0]] + insert_sorted(r.drop_first(), t)
    }
}

/// The distinct elements of `ts` in ascending order.
pub open spec fn sorted_distinct(ts: Seq<Seq<char>>) -> Seq<Seq<char>>
    decreases ts.len(),
{
    if ts.len() == 0 {
        seq![]
    } else {
        insert_sorted(sorted_distinct(ts.drop_last()), ts.last())
    }
}

proof fn lemma_insert_sorted_at(r: Seq<Seq<char>>, t: Seq<char>, k: int)
    requires
        strictly_sorted(r),
        0 <= k <= r.len(),
        forall|i: int| 0 <= i < k ==> lex_lt(#[trigger] r[i], t),
        k == r.len() || !lex_lt(r[k], t),
    ensures
        insert_sorted(r, t) == (if k < r.len() && r[k] == t {
            r
        } else {
            r.take(k).push(t) + r.skip(k)
        }),
    decreases r.len(),
{
    if r.len() == 0 {
        assert(r.take(k).push(t) + r.skip(k) =~= seq![t]);
    } else if k == 0 {
        if r[0] == t {
        } else {
            lemma_lex_total(t, r[0]);
            assert(r.take(0).push(t) + r.skip(0) =~= seq![t] + r);
        }
    } else {
        let r1 = r.drop_first();
        assert(lex_lt(r[0], t));
        lemma_lex_asymmetric(r[0], t);
        lemma_lex_irreflexive(t);
        assert(r[0] != t);
        assert forall|i: int, j: int| 0 <= i < j < r1.len() implies lex_lt(
            #[trigger] r1[i],
            #[trigger] r1[j],
        ) by {
            assert(r1[i] == r[i + 1] && r1[j] == r[j + 1]);
        }
        assert forall|i: int| 0 <= i < k - 1 implies lex_lt(#[trigger] r1[i], t) by {
            assert(r1[i] == r[i + 1]);
        }
        lemma_insert_sorted_at(r1, t, k - 1);
        if k < r.len() && r[k] == t {
            assert(seq![r[0]] + r1 =~= r);
        } else {
            assert(seq![r[0]] + (r1.take(k - 1).push(t) + r1.skip(k - 1)) =~= r.take(k).push(t)
                + r.skip(k));
        }
    }
}

/// The place of `t` in the ascending list `r`, and whether it is already there.
fn find_place(r: &Vec<Vec<char>>, t: &Vec<char>) -> (res: (usize, bool))
    requires
        strictly_sorted(views(r@)),
    ensures
        res.0 <= r.len(),
        forall|i: int| 0 <= i < res.0 ==> lex_lt(#[trigger] views(r@)[i], t@),
        res.0 == r.len() || !lex_lt(views(r@)[res.0 as int], t@),
        res.1 == (res.0 < r.len() && views(r@)[res.0 as int] == t@),
{
    let mut k: usize = 0;
    while k < r.len() && less_than(&r[k], t)
        invariant
            k <= r.len(),
            forall|i: int| 0 <= i < k ==> lex_lt(#[trigger] views(r@)[i], t@),
        decreases r.len() - k,
    {
        k = k + 1;
    }
    let found = k < r.len() && equal_chars(&r[k], t);
    (k, found)
}

fn equal_chars(a: &Vec<char>, b: &Vec<char>) -> (r: bool)
    ensures
        r == (a@ == b@),
{
    if a.len() != b.len() {
        return false;
    }
    let mut i: usize = 0;
    while i < a.len()
        invariant
            a.len() == b.len(),
            i <= a.len(),
            forall|j: int| 0 <= j < i ==> a@[j] == b@[j],
        decreases a.len() - i,
    {
        if a[i] != b[i] {
            assert(a@[i as int] != b@[i as int]);
            return false;
        }
        i = i + 1;
    }
    assert(a@ =~= b@);
    true
}

/// Whether `a` sorts before `b`.
pub fn less_than(a: &Vec<char>, b: &Vec<char>) -> (r: bool)
    ensures
        r == lex_lt(a@, b@),
{
    let mut i: usize = 0;
    assert(a@.skip(0) =~= a@);
    assert(b@.skip(0) =~= b@);
    while i < a.len() && i < b.len() && a[i] == b[i]
        invariant
            i <= a.len(),
            i <= b.len(),
            lex_lt(a@, b@) == lex_lt(a@.skip(i as int), b@.skip(i as int)),
        decreases a.len() - i,
    {
        assert(a@.skip(i as int).drop_first() =~= a@.skip(i + 1));
        assert(b@.skip(i as int).drop_first() =~= b@.skip(i + 1));
        i = i + 1;
    }
    if i == a.len() {
        i < b.len()
    } else if i == b.len() {
        false
    } else {
        (a[i] as u32) < (b[i] as u32)
    }
}

/// Adds `t` to the ascending list `r` at its place, unless it is already there.
fn insert_term(r: &mut Vec<Vec<char>>, t: Vec<char>)
    requires
        strictly_sorted(views(old(r)@)),
    ensures
        strictly_sorted(views(final(r)@)),
        views(final(r)@) == insert_sorted(views(old(r)@), t@),
{
    let ghost before = views(r@);
    let (k, found) = find_place(r, &t);
    proof {
        lemma_insert_sorted_at(before, t@, k as int);
    }
    if !found {
        let ghost tv = t@;
        r.insert(k, t);
        assert(views(r@) =~= before.take(k as int).push(tv) + before.skip(k as int));
        proof {
            if k < before.len() {
                lemma_lex_total(tv, before[k as int]);
            }
            assert forall|i: int, j: int| 0 <= i < j < views(r@).len() implies lex_lt(
                #[trigger] views(r@)[i],
                #[trigger] views(r@)[j],
            ) by {
                let d = views(r@);
                if j < k {
                    assert(d[i] == before[i] && d[j] == before[j]);
                } else if j == k {
                    assert(d[i] == before[i]);
                } else if i == k {
                    assert(d[j] == before[j - 1]);
                    if j - 1 > k {
                        lemma_lex_transitive(tv, before[k as int], before[j - 1]);
                    }
                } else if i < k {
                    assert(d[i] == before[i] && d[j] == before[j - 1]);
                } else {
                    assert(d[i] == before[i - 1] && d[j] == before[j - 1]);
                }
            }
        }
    }
}


/// The pieces of `s` between the characters that are not alphanumeric, empty
/// pieces included, as `str::split` gives them.
pub open spec fn split_pieces(s: Seq<char>) -> Seq<Seq<char>>
    decreases s.len(),
{
    if s.len() == 0 {
        seq![seq![]]
    } else {
        let p = split_pieces(s.drop_last());
        if alphanumeric(s.last()) {
            p.update(p.len() - 1, p.last().push(s.last()))
        } else {
            p.push(seq![])
        }
    }
}

/// Words that never become search terms.
pub open spec fn stop_words() -> Seq<Seq<char>> {
    seq![
        "a"@, "an"@, "and"@, "are"@, "can"@, "do"@, "does"@, "for"@, "how"@, "i"@, "in"@, "is"@,
        "it"@, "of"@, "on"@, "the"@, "to"@, "what"@, "when"@, "with"@,
    ]
}

/// A lowercased piece becomes a search term: longer than one byte in UTF-8, and
/// not a stop word.
pub open spec fn keeps_term(t: Seq<char>) -> bool {
    utf8_len(t) > 1 && !stop_words().contains(t)
}

/// The lowercased pieces that become search terms, in order.
pub open spec fn kept_terms(pieces: Seq<Seq<char>>) -> Seq<Seq<char>>
    decreases pieces.len(),
{
    if pieces.len() == 0 {
        seq![]
    } else {
        let prev = kept_terms(pieces.drop_last());
        let t = lowercase(pieces.last());
        if keeps_term(t) {
            prev.push(t)
        } else {
            prev
        }
    }
}

/// The first sixteen elements of `ts`, or all of them where there are fewer.
pub open spec fn first16(ts: Seq<Seq<char>>) -> Seq<Seq<char>> {
    if ts.len() <= 16 {
        ts
    } else {
        ts.take(16)
    }
}

/// The first sixteen search terms of a query.
pub open spec fn query_terms(q: Seq<char>) -> Seq<Seq<char>> {
    first16(kept_terms(split_pieces(q)))
}

/// A prefix query for one term: `"term"*`.
pub open spec fn quoted_term(t: Seq<char>) -> Seq<char> {
    seq!['"'] + t + seq!['"', '*']
}

/// The prefix queries of `ts`, joined by ` OR `.
pub open spec fn join_or(ts: Seq<Seq<char>>) -> Seq<char>
    decreases ts.len(),
{
    if ts.len() == 0 {
        seq![]
    } else if ts.len() == 1 {
        quoted_term(ts[0])
    } else {
        join_or(ts.drop_last()) + " OR "@ + quoted_term(ts.last())
    }
}

proof fn lemma_insert_sorted_nonempty(r: Seq<Seq<char>>, t: Seq<char>)
    ensures
        insert_sorted(r, t).len() > 0,
    decreases r.len(),
{
}

proof fn lemma_sorted_distinct_empty(ts: Seq<Seq<char>>)
    ensures
        sorted_distinct(ts).len() == 0 <==> ts.len() == 0,
{
    if ts.len() > 0 {
        lemma_insert_sorted_nonempty(sorted_distinct(ts.drop_last()), ts.last());
    }
}

/// Whether `t` is a stop word.
fn is_stop_word(t: &str) -> (b: bool)
    ensures
        b == stop_words().contains(t@),
{
    let words: [&str; 20] = [
        "a", "an", "and", "are", "can", "do", "does", "for", "how", "i", "in", "is", "it", "of",
        "on", "the", "to", "what", "when", "with",
    ];
    let ghost ws = words@.map_values(|w: &str| w@);
    assert(ws =~= stop_words());
    let mut k: usize = 0;
    while k < 20
        invariant
            k <= 20,
            ws == words@.map_values(|w: &str| w@),
            ws == stop_words(),
            forall|j: int| 0 <= j < k ==> ws[j] != t@,
        decreases 20 - k,
    {
        if same_text(words[k], t) {
            assert(ws[k as int] == t@);
            return true;
        }
        k = k + 1;
    }
    false
}

/// The already-lowercased pieces that become search terms, in order.
pub open spec fn kept_lowered(ls: Seq<Seq<char>>) -> Seq<Seq<char>>
    decreases ls.len(),
{
    if ls.len() == 0 {
        seq![]
    } else {
        let prev = kept_lowered(ls.drop_last());
        if keeps_term(ls.last()) {
            prev.push(ls.last())
        } else {
            prev
        }
    }
}

/// The full-text query made of already-lowercased pieces: the first sixteen of
/// them that are terms, each distinct term once in ascending order as a prefix
/// query, joined by ` OR `; none when no piece is a term.
pub open spec fn terms_expression(ls: Seq<Seq<char>>) -> Option<Seq<char>> {
    let ts = first16(kept_lowered(ls));
    if ts.len() == 0 {
        None
    } else {
        Some(join_or(sorted_distinct(ts)))
    }
}

/// The texts of `v`.
pub open spec fn string_views(v: Seq<String>) -> Seq<Seq<char>> {
    v.map_values(|t: String| t@)
}

/// The pieces of a query, lowercased one by one.
pub open spec fn lowered_pieces(q: Seq<char>) -> Seq<Seq<char>> {
    split_pieces(q).map_values(|p: Seq<char>| lowercase(p))
}

proof fn lemma_kept_lowered(ps: Seq<Seq<char>>)
    ensures
        kept_terms(ps) == kept_lowered(ps.map_values(|p: Seq<char>| lowercase(p))),
    decreases ps.len(),
{
    let ls = ps.map_values(|p: Seq<char>| lowercase(p));
    if ps.len() > 0 {
        lemma_kept_lowered(ps.drop_last());
        assert(ls.drop_last() =~= ps.drop_last().map_values(|p: Seq<char>| lowercase(p)));
        assert(ls.last() == lowercase(ps.last()));
    }
}

/// The full-text query made of already-lowercased pieces, as [`terms_expression`]
/// describes it.
pub fn fts_query_of_terms(terms: &Vec<String>) -> (r: Option<String>)
    ensures
        match terms_expression(string_views(terms@)) {
            Some(e) => r matches Some(x) && x@ == e,
            None => r is None,
        },
{
    let ghost ls = string_views(terms@);
    let mut sorted: Vec<Vec<char>> = Vec::new();
    let mut taken: usize = 0;
    let mut k: usize = 0;
    assert(ls.take(0) =~= seq![]);
    assert(views(sorted@) =~= seq![]);
    while k < terms.len()
        invariant
            k <= terms.len(),
            ls == string_views(terms@),
            taken as int == if kept_lowered(ls.take(k as int)).len() < 16 {
                kept_lowered(ls.take(k as int)).len() as int
            } else {
                16int
            },
            views(sorted@) == sorted_distinct(first16(kept_lowered(ls.take(k as int)))),
            strictly_sorted(views(sorted@)),
        decreases terms.len() - k,
    {
        let ghost prev = kept_lowered(ls.take(k as int));
        assert(ls.take(k + 1).drop_last() =~= ls.take(k as int));
        assert(ls.take(k + 1).last() == terms@[k as int]@);
        let term = &terms[k];
        let t = chars_of(term.as_str());
        if taken < 16 && longer_than_one_byte(&t) && !is_stop_word(term.as_str()) {
            assert(kept_lowered(ls.take(k + 1)) == prev.push(term@));
            assert(first16(kept_lowered(ls.take(k + 1))) =~= first16(prev).push(term@));
            assert(first16(kept_lowered(ls.take(k + 1))).drop_last() =~= first16(prev));
            insert_term(&mut sorted, t);
            taken = taken + 1;
        } else {
            proof {
                if keeps_term(term@) {
                    assert(kept_lowered(ls.take(k + 1)) == prev.push(term@));
                    assert(first16(kept_lowered(ls.take(k + 1))) =~= first16(prev));
                } else {
                    assert(kept_lowered(ls.take(k + 1)) == prev);
                }
            }
        }
        k = k + 1;
    }
    proof {
        assert(ls.take(terms.len() as int) =~= ls);
        lemma_sorted_distinct_empty(first16(kept_lowered(ls)));
    }
    if sorted.len() == 0 {
        return None;
    }
    let mut e = String::new();
    let mut k: usize = 0;
    while k < sorted.len()
        invariant
            k <= sorted.len(),
            e@ == join_or(views(sorted@).take(k as int)),
        decreases sorted.len() - k,
    {
        let ghost ts = views(sorted@);
        assert(ts.take(k + 1).drop_last() =~= ts.take(k as int));
        if k > 0 {
            push_char(&mut e, ' ');
            push_char(&mut e, 'O');
            push_char(&mut e, 'R');
            push_char(&mut e, ' ');
        }
        push_char(&mut e, '"');
        push_chars(&mut e, &sorted[k]);
        push_char(&mut e, '"');
        push_char(&mut e, '*');
        proof {
            reveal_strlit(" OR ");
            assert(ts.take(k + 1).last() == ts[k as int]);
            if k == 0 {
                assert(e@ =~= quoted_term(ts[0]));
            } else {
                assert(e@ =~= join_or(ts.take(k as int)) + " OR "@ + quoted_term(ts[k as int]));
            }
        }
        k = k + 1;
    }
    assert(views(sorted@).take(sorted.len() as int) =~= views(sorted@));
    Some(e)
}

/// Turns a free-text question into a full-text query: its alphanumeric words,
/// lowercased, without stop words and one-byte words, the first sixteen of them,
/// each distinct term once in ascending order as a prefix query, joined by ` OR `.
/// `None` when no word is left. The query's pieces are split and lowercased here;
/// [`fts_query_of_terms`] does the rest.
pub fn fts_expression(query: &str) -> (r: Option<String>)
    ensures
        r is None <==> query_terms(query@).len() == 0,
        r matches Some(e) ==> e@ == join_or(sorted_distinct(query_terms(query@))),
{
    let v = chars_of(query);
    let mut lowered: Vec<String> = Vec::new();
    let ghost mut done: Seq<Seq<char>> = seq![];
    let mut start: usize = 0;
    let mut i: usize = 0;
    assert(v@.take(0) =~= seq![]);
    assert(string_views(lowered@) =~= seq![]);
    while i < v.len()
        invariant
            start <= i <= v.len(),
            split_pieces(v@.take(i as int)) == done.push(v@.subrange(start as int, i as int)),
            string_views(lowered@) == done.map_values(|p: Seq<char>| lowercase(p)),
        decreases v.len() - i,
    {
        let c = v[i];
        assert(v@.take(i + 1).drop_last() =~= v@.take(i as int));
        assert(v@.take(i + 1).last() == c);
        if !is_alphanumeric(c) {
            let piece = string_of(&v, start, i);
            let lower = to_lowercase(piece.as_str());
            let ghost before = string_views(lowered@);
            lowered.push(lower);
            proof {
                let d2 = done.push(v@.subrange(start as int, i as int));
                assert(string_views(lowered@) =~= before.push(lower@));
                assert(d2.map_values(|p: Seq<char>| lowercase(p)) =~= done.map_values(
                    |p: Seq<char>| lowercase(p),
                ).push(lowercase(v@.subrange(start as int, i as int))));
                done = d2;
            }
            start = i + 1;
            assert(v@.subrange(start as int, i + 1) =~= seq![]);
            assert(split_pieces(v@.take(i + 1)) == split_pieces(v@.take(i as int)).push(seq![]));
            assert(split_pieces(v@.take(i + 1)) =~= done.push(v@.subrange(start as int, i + 1)));
        } else {
            assert(v@.subrange(start as int, i + 1) =~= v@.subrange(start as int, i as int).push(c));
            assert(split_pieces(v@.take(i + 1)) =~= done.push(v@.subrange(start as int, i + 1)));
        }
        i = i + 1;
    }
    let piece = string_of(&v, start, v.len());
    let lower = to_lowercase(piece.as_str());
    let ghost before = string_views(lowered@);
    lowered.push(lower);
    proof {
        assert(v@.take(v.len() as int) =~= v@);
        let d2 = done.push(v@.subrange(start as int, v.len() as int));
        assert(string_views(lowered@) =~= before.push(lower@));
        assert(d2.map_values(|p: Seq<char>| lowercase(p)) =~= done.map_values(
            |p: Seq<char>| lowercase(p),
        ).push(lowercase(v@.subrange(start as int, v.len() as int))));
        assert(d2 == split_pieces(query@));
        lemma_kept_lowered(split_pieces(query@));
        assert(string_views(lowered@) == lowered_pieces(query@));
        lemma_sorted_distinct_empty(query_terms(query@));
    }
    fts_query_of_terms(&lowered)
}


proof fn lemma_insert_sorted(r: Seq<Seq<char>>, t: Seq<char>)
    requires
        strictly_sorted(r),
    ensures
        strictly_sorted(insert_sorted(r, t)),
        forall|x: Seq<char>| #[trigger] insert_sorted(r, t).contains(x) <==> (r.contains(x) || x == t),
    decreases r.len(),
{
    let res = insert_sorted(r, t);
    if r.len() == 0 {
        assert forall|x: Seq<char>| #[trigger] res.contains(x) <==> (r.contains(x) || x == t) by {
            if res.contains(x) {
                let k = choose|k: int| 0 <= k < res.len() && res[k] == x;
                assert(k == 0);
            }
            if x == t {
                assert(res[0] == x);
            }
        }
    } else if r[0] == t {
    } else if lex_lt(t, r[0]) {
        assert forall|i: int, j: int| 0 <= i < j < res.len() implies lex_lt(
            #[trigger] res[i],
            #[trigger] res[j],
        ) by {
            if i == 0 {
                if j > 1 {
                    lemma_lex_transitive(t, r[0], r[j - 1]);
                }
            } else {
                assert(res[i] == r[i - 1] && res[j] == r[j - 1]);
            }
        }
        assert forall|x: Seq<char>| #[trigger] res.contains(x) <==> (r.contains(x) || x == t) by {
            if res.contains(x) {
                let k = choose|k: int| 0 <= k < res.len() && res[k] == x;
                if k > 0 {
                    assert(r[k - 1] == x);
                }
            }
            if r.contains(x) {
                let k = choose|k: int| 0 <= k < r.len() && r[k] == x;
                assert(res[k + 1] == x);
            }
            if x == t {
                assert(res[0] == x);
            }
        }
    } else {
        let r1 = r.drop_first();
        assert forall|i: int, j: int| 0 <= i < j < r1.len() implies lex_lt(
            #[trigger] r1[i],
            #[trigger] r1[j],
        ) by {
            assert(r1[i] == r[i + 1] && r1[j] == r[j + 1]);
        }
        lemma_insert_sorted(r1, t);
        let tail = insert_sorted(r1, t);
        assert(res == seq![r[0]] + tail);
        lemma_lex_total(t, r[0]);
        assert forall|i: int, j: int| 0 <= i < j < res.len() implies lex_lt(
            #[trigger] res[i],
            #[trigger] res[j],
        ) by {
            if i == 0 {
                let y = tail[j - 1];
                assert(tail.contains(y));
                if y == t {
                } else {
                    let k = choose|k: int| 0 <= k < r1.len() && r1[k] == y;
                    assert(r[k + 1] == y);
                }
            } else {
                assert(res[i] == tail[i - 1] && res[j] == tail[j - 1]);
            }
        }
        assert forall|x: Seq<char>| #[trigger] res.contains(x) <==> (r.contains(x) || x == t) by {
            if res.contains(x) {
                let k = choose|k: int| 0 <= k < res.len() && res[k] == x;
                if k > 0 {
                    assert(tail[k - 1] == x);
                    assert(tail.contains(x));
                    if r1.contains(x) {
                        let m = choose|m: int| 0 <= m < r1.len() && r1[m] == x;
                        assert(r[m + 1] == x);
                    }
                } else {
                    assert(r[0] == x);
                }
            }
            if r.contains(x) {
                let k = choose|k: int| 0 <= k < r.len() && r[k] == x;
                if k == 0 {
                    assert(res[0] == x);
                } else {
                    assert(r1[k - 1] == x);
                    assert(tail.contains(x));
                    let m = choose|m: int| 0 <= m < tail.len() && tail[m] == x;
                    assert(res[m + 1] == x);
                }
            }
            if x == t {
                assert(tail.contains(x));
                let m = choose|m: int| 0 <= m < tail.len() && tail[m] == x;
                assert(res[m + 1] == x);
            }
        }
    }
}

/// The terms of a full-text query come out in strictly ascending order, and they
/// are exactly the distinct terms taken from the question: each appears once.
pub proof fn lemma_sorted_distinct(ts: Seq<Seq<char>>)
    ensures
        strictly_sorted(sorted_distinct(ts)),
        forall|x: Seq<char>| #[trigger] sorted_distinct(ts).contains(x) <==> ts.contains(x),
    decreases ts.len(),
{
    if ts.len() > 0 {
        let prev = ts.drop_last();
        lemma_sorted_distinct(prev);
        lemma_insert_sorted(sorted_distinct(prev), ts.last());
        assert forall|x: Seq<char>| #[trigger] sorted_distinct(ts).contains(x) <==> ts.contains(x) by {
            if ts.contains(x) && x != ts.last() {
                let k = choose|k: int| 0 <= k < ts.len() && ts[k] == x;
                assert(prev[k] == x);
            }
            if prev.contains(x) {
                let k = choose|k: int| 0 <= k < prev.len() && prev[k] == x;
                assert(ts[k] == x);
            }
            if x == ts.last() {
                assert(ts[ts.len() - 1] == x);
            }
        }
    } else {
        assert forall|x: Seq<char>| #[trigger] sorted_distinct(ts).contains(x) <==> ts.contains(x) by {
        }
    }
}


/// A passage found by the full-text search, without its relevance score.
#[derive(Debug, Clone)]
pub struct SearchHit {
    pub chunk_id: i64,
    pub kind: String,
    pub document_title: String,
    pub heading: String,
    pub section_path: String,
    pub excerpt: String,
    pub source_locator: String,
    pub source_url: Option<String>,
    pub source_revision: Option<String>,
    pub license: Option<String>,
}

/// A complete stored passage.
#[derive(Debug, Clone)]
pub struct SourceChunk {
    pub chunk_id: i64,
    pub kind: String,
    pub document_title: String,
    pub heading: String,
    pub section_path: String,
    pub content: String,
    pub source_locator: String,
    pub source_url: Option<String>,
    pub source_revision: Option<String>,
    pub license: Option<String>,
}

/// Why a search or a passage lookup failed.
#[derive(Debug, Clone, Copy, PartialEq, Eq, Structural)]
pub enum SearchError {
    EmptyQuery,
    NotFound,
    Unavailable,
}

/// Every search term is a lowercased piece of the query, and every piece is made
/// only of characters that the standard library counts as alphanumeric: the
/// characters between pieces (punctuation such as `"` and `*`, and whitespace,
/// wherever the standard library does not count them alphanumeric) never reach a
/// term.
pub proof fn lemma_terms_from_alphanumeric_pieces(q: Seq<char>)
    ensures
        forall|i: int, k: int|
            0 <= i < split_pieces(q).len() && 0 <= k < split_pieces(q)[i].len() ==> alphanumeric(
                #[trigger] split_pieces(q)[i][k],
            ),
        forall|i: int|
            0 <= i < query_terms(q).len() ==> exists|j: int|
                0 <= j < split_pieces(q).len() && #[trigger] query_terms(q)[i] == lowercase(
                    split_pieces(q)[j],
                ),
{
    lemma_pieces_alphanumeric(q);
    let ps = split_pieces(q);
    lemma_kept_from_pieces(ps);
    let kept = kept_terms(ps);
    assert forall|i: int| 0 <= i < query_terms(q).len() implies exists|j: int|
        0 <= j < ps.len() && #[trigger] query_terms(q)[i] == lowercase(ps[j]) by {
        assert(query_terms(q)[i] == kept[i]);
    }
}

/// The terms of a query are its first sixteen keepable words, counted after stop
/// words, one-byte words and empty pieces are set aside: every term is kept (longer
/// than one byte and no stop word), there are sixteen of them or as many as the
/// query has, and a query with at most sixteen keepable words keeps each of them,
/// however many stop words or punctuation marks come before.
pub proof fn lemma_query_keeps_terms(q: Seq<char>)
    ensures
        ({
            let ps = split_pieces(q);
            let n = kept_terms(ps).len();
            &&& query_terms(q).len() == if n <= 16 { n } else { 16 }
            &&& forall|i: int| 0 <= i < query_terms(q).len() ==> keeps_term(#[trigger] query_terms(q)[i])
            &&& n <= 16 ==> forall|j: int|
                0 <= j < ps.len() && keeps_term(lowercase(#[trigger] ps[j])) ==> query_terms(
                    q,
                ).contains(lowercase(ps[j]))
        }),
{
    let ps = split_pieces(q);
    lemma_kept_terms_members(ps);
    let kept = kept_terms(ps);
    assert forall|i: int| 0 <= i < query_terms(q).len() implies keeps_term(
        #[trigger] query_terms(q)[i],
    ) by {
        assert(query_terms(q)[i] == kept[i]);
    }
}

proof fn lemma_kept_terms_members(ps: Seq<Seq<char>>)
    ensures
        forall|i: int| 0 <= i < kept_terms(ps).len() ==> keeps_term(#[trigger] kept_terms(ps)[i]),
        forall|j: int|
            0 <= j < ps.len() && keeps_term(lowercase(#[trigger] ps[j])) ==> kept_terms(
                ps,
            ).contains(lowercase(ps[j])),
    decreases ps.len(),
{
    if ps.len() > 0 {
        let prev = ps.drop_last();
        lemma_kept_terms_members(prev);
        let kp = kept_terms(prev);
        let k = kept_terms(ps);
        let t = lowercase(ps.last());
        assert forall|i: int| 0 <= i < k.len() implies keeps_term(#[trigger] k[i]) by {
            if i < kp.len() {
                assert(k[i] == kp[i]);
            }
        }
        assert forall|j: int| 0 <= j < ps.len() && keeps_term(lowercase(#[trigger] ps[j])) implies k.contains(
            lowercase(ps[j]),
        ) by {
            if j < prev.len() {
                assert(prev[j] == ps[j]);
                let x = choose|x: int| 0 <= x < kp.len() && kp[x] == lowercase(prev[j]);
                assert(k[x] == kp[x]);
            } else {
                assert(ps[j] == ps.last());
                assert(k[kp.len() as int] == t);
            }
        }
    }
}

proof fn lemma_pieces_alphanumeric(q: Seq<char>)
    ensures
        split_pieces(q).len() > 0,
        forall|i: int, k: int|
            0 <= i < split_pieces(q).len() && 0 <= k < split_pieces(q)[i].len() ==> alphanumeric(
                #[trigger] split_pieces(q)[i][k],
            ),
    decreases q.len(),
{
    if q.len() > 0 {
        let prev = q.drop_last();
        lemma_pieces_alphanumeric(prev);
        let p = split_pieces(prev);
        let r = split_pieces(q);
        if alphanumeric(q.last()) {
            assert forall|i: int, k: int| 0 <= i < r.len() && 0 <= k < r[i].len() implies alphanumeric(
                #[trigger] r[i][k],
            ) by {
                if i < p.len() - 1 {
                    assert(r[i] == p[i]);
                } else {
                    assert(r[i] == p.last().push(q.last()));
                    if k < p.last().len() {
                        assert(r[i][k] == p[p.len() - 1][k]);
                    }
                }
            }
        } else {
            assert forall|i: int, k: int| 0 <= i < r.len() && 0 <= k < r[i].len() implies alphanumeric(
                #[trigger] r[i][k],
            ) by {
                assert(r[i] == p[i]);
            }
        }
    }
}

proof fn lemma_kept_from_pieces(ps: Seq<Seq<char>>)
    ensures
        forall|i: int|
            0 <= i < kept_terms(ps).len() ==> exists|j: int|
                0 <= j < ps.len() && #[trigger] kept_terms(ps)[i] == lowercase(ps[j]),
    decreases ps.len(),
{
    if ps.len() > 0 {
        let prev = ps.drop_last();
        lemma_kept_from_pieces(prev);
        let kp = kept_terms(prev);
        let k = kept_terms(ps);
        assert forall|i: int| 0 <= i < k.len() implies exists|j: int|
            0 <= j < ps.len() && #[trigger] k[i] == lowercase(ps[j]) by {
            if i < kp.len() {
                assert(k[i] == kp[i]);
                let j = choose|j: int| 0 <= j < prev.len() && kp[i] == lowercase(prev[j]);
                assert(ps[j] == prev[j]);
            } else {
                assert(k[i] == lowercase(ps.last()));
                assert(ps[ps.len() - 1] == ps.last());
            }
        }
    }
}

pub open spec fn search_error_message(e: SearchError) -> Seq<char> {
    match e {
        SearchError::EmptyQuery => "search query must contain a meaningful word"@,
        SearchError::NotFound => "source passage was not found"@,
        SearchError::Unavailable => "rules search is unavailable"@,
    }
}

impl SearchError {
    /// The message shown for the error.
    pub fn message(&self) -> (r: &'static str)
        ensures
            r@ == search_error_message(*self),
    {
        match self {
            SearchError::EmptyQuery => "search query must contain a meaningful word",
            SearchError::NotFound => "source passage was not found",
            SearchError::Unavailable => "rules search is unavailable",
        }
    }
}

/// The position in `r`, from `k` on, of the first entry that ranks strictly
/// below `key`, or the length of `r`.
pub open spec fn first_below<T>(r: Seq<(i64, T)>, key: i64, k: int) -> int
    decreases r.len() - k,
{
    if k < 0 || k >= r.len() {
        r.len() as int
    } else if r[k].0 < key {
        k
    } else {
        first_below(r, key, k + 1)
    }
}

/// `x` placed after every entry of `r` that ranks as high or higher.
pub open spec fn insert_ranked<T>(r: Seq<(i64, T)>, x: (i64, T)) -> Seq<(i64, T)> {
    let p = first_below(r, x.0, 0);
    r.take(p).push(x) + r.skip(p)
}

/// `s` ordered from the highest rank down, entries of equal rank in the order
/// they came in: what a stable sort by descending score gives.
pub open spec fn rank_sorted<T>(s: Seq<(i64, T)>) -> Seq<(i64, T)>
    decreases s.len(),
{
    if s.len() == 0 {
        seq![]
    } else {
        insert_ranked(rank_sorted(s.drop_last()), s.last())
    }
}

/// The first `n` entries of `s`, or all of them where there are fewer.
pub open spec fn first_n<T>(s: Seq<T>, n: int) -> Seq<T> {
    if 0 <= n < s.len() {
        s.take(n)
    } else if n < 0 {
        seq![]
    } else {
        s
    }
}

/// The results of a search over the rules and the campaign notes: when both
/// corpora matched and at least two results are wanted, the best of each is kept
/// and the rest filled with the best of the others; otherwise the best overall.
/// Either way the results come ranked from the highest down.
pub open spec fn merged_results<T>(srd: Seq<(i64, T)>, campaign: Seq<(i64, T)>, limit: nat) -> Seq<
    (i64, T),
> {
    if limit >= 2 && srd.len() > 0 && campaign.len() > 0 {
        let rest = rank_sorted(srd.drop_first() + campaign.drop_first());
        rank_sorted(seq![srd[0], campaign[0]] + first_n(rest, limit - 2))
    } else {
        rank_sorted(first_n(rank_sorted(srd + campaign), limit as int))
    }
}

proof fn lemma_first_below_range<T>(r: Seq<(i64, T)>, key: i64, k: int)
    requires
        0 <= k <= r.len(),
    ensures
        k <= first_below(r, key, k) <= r.len(),
    decreases r.len() - k,
{
    if k < r.len() && r[k].0 >= key {
        lemma_first_below_range(r, key, k + 1);
    }
}

/// Places `x` in the ranked list `r`, as [`insert_ranked`] describes it.
fn insert_ranked_vec<T>(r: &mut Vec<(i64, T)>, x: (i64, T))
    ensures
        final(r)@ == insert_ranked(old(r)@, x),
{
    let mut p: usize = 0;
    while p < r.len() && r[p].0 >= x.0
        invariant
            p <= r.len(),
            r@ == old(r)@,
            first_below(r@, x.0, p as int) == first_below(r@, x.0, 0),
        decreases r.len() - p,
    {
        p = p + 1;
    }
    let ghost before = r@;
    let ghost xv = x;
    r.insert(p, x);
    assert(r@ =~= before.take(p as int).push(xv) + before.skip(p as int));
}

/// Orders `s` as [`rank_sorted`] describes it.
pub fn rank_sort<T>(s: Vec<(i64, T)>) -> (r: Vec<(i64, T)>)
    ensures
        r@ == rank_sorted(s@),
{
    let ghost orig = s@;
    let mut rest = s;
    let mut r: Vec<(i64, T)> = Vec::new();
    let mut i: usize = 0;
    let n = rest.len();
    assert(orig.take(0) =~= seq![]);
    while rest.len() > 0
        invariant
            i + rest@.len() == n,
            n == orig.len(),
            rest@ == orig.skip(i as int),
            r@ == rank_sorted(orig.take(i as int)),
        decreases rest.len(),
    {
        let x = rest.remove(0);
        assert(orig.take(i + 1).drop_last() =~= orig.take(i as int));
        assert(orig.take(i + 1).last() == x);
        assert(rest@ =~= orig.skip(i + 1));
        insert_ranked_vec(&mut r, x);
        i = i + 1;
    }
    assert(orig.take(i as int) =~= orig);
    r
}

fn append_all<T>(a: &mut Vec<(i64, T)>, b: Vec<(i64, T)>)
    ensures
        final(a)@ == old(a)@ + b@,
{
    let mut b = b;
    a.append(&mut b);
}

/// The results of a search, as [`merged_results`] describes them; `srd` and
/// `campaign` hold each corpus's matches with scores turned into ranks.
pub fn merge_results<T>(srd: Vec<(i64, T)>, campaign: Vec<(i64, T)>, limit: u32) -> (r: Vec<
    (i64, T),
>)
    ensures
        r@ == merged_results(srd@, campaign@, limit as nat),
{
    let ghost s0 = srd@;
    let ghost c0 = campaign@;
    let mut srd = srd;
    let mut campaign = campaign;
    let mut results: Vec<(i64, T)> = Vec::new();
    if limit >= 2 && srd.len() > 0 && campaign.len() > 0 {
        let best_srd = srd.remove(0);
        let best_campaign = campaign.remove(0);
        results.push(best_srd);
        results.push(best_campaign);
        let mut remaining = srd;
        append_all(&mut remaining, campaign);
        let mut sorted = rank_sort(remaining);
        let keep = (limit - 2) as usize;
        sorted.truncate(keep);
        let ghost kept = sorted@;
        append_all(&mut results, sorted);
        assert(results@ =~= seq![s0[0], c0[0]] + kept);
        assert(kept =~= first_n(rank_sorted(s0.drop_first() + c0.drop_first()), limit - 2));
    } else {
        append_all(&mut results, srd);
        append_all(&mut results, campaign);
        let mut sorted = rank_sort(results);
        sorted.truncate(limit as usize);
        assert(sorted@ =~= first_n(rank_sorted(s0 + c0), limit as int));
        results = sorted;
    }
    rank_sort(results)
}


/// `s` is ranked from the highest down.
pub open spec fn ranked_desc<T>(s: Seq<(i64, T)>) -> bool {
    forall|i: int, j: int| 0 <= i < j < s.len() ==> (#[trigger] s[i]).0 >= (#[trigger] s[j]).0
}

proof fn lemma_first_below_props<T>(r: Seq<(i64, T)>, key: i64, k: int)
    requires
        0 <= k <= r.len(),
    ensures
        forall|i: int| k <= i < first_below(r, key, k) ==> (#[trigger] r[i]).0 >= key,
        first_below(r, key, k) < r.len() ==> r[first_below(r, key, k)].0 < key,
    decreases r.len() - k,
{
    if k < r.len() && r[k].0 >= key {
        lemma_first_below_props(r, key, k + 1);
    }
}

proof fn lemma_insert_ranked<T>(r: Seq<(i64, T)>, x: (i64, T))
    requires
        ranked_desc(r),
    ensures
        ranked_desc(insert_ranked(r, x)),
        insert_ranked(r, x).to_multiset() == r.to_multiset().insert(x),
{
    broadcast use vstd::seq_lib::group_to_multiset_ensures;

    let p = first_below(r, x.0, 0);
    lemma_first_below_range(r, x.0, 0);
    lemma_first_below_props(r, x.0, 0);
    let res = insert_ranked(r, x);
    assert(res =~= r.insert(p, x));
    assert forall|i: int, j: int| 0 <= i < j < res.len() implies (#[trigger] res[i]).0 >= (
    #[trigger] res[j]).0 by {
        if j < p {
            assert(res[i] == r[i] && res[j] == r[j]);
        } else if j == p {
            assert(res[i] == r[i]);
        } else if i == p {
            assert(res[j] == r[j - 1]);
            assert(r[p].0 < x.0);
            if j - 1 > p {
                assert(r[p].0 >= r[j - 1].0);
            }
        } else if i < p {
            assert(res[i] == r[i] && res[j] == r[j - 1]);
        } else {
            assert(res[i] == r[i - 1] && res[j] == r[j - 1]);
        }
    }
}

/// Ranking keeps every entry, each as often, and puts them in descending order.
pub proof fn lemma_rank_sorted<T>(s: Seq<(i64, T)>)
    ensures
        ranked_desc(rank_sorted(s)),
        rank_sorted(s).to_multiset() == s.to_multiset(),
        rank_sorted(s).len() == s.len(),
    decreases s.len(),
{
    broadcast use vstd::seq_lib::group_to_multiset_ensures;

    if s.len() > 0 {
        lemma_rank_sorted(s.drop_last());
        lemma_insert_ranked(rank_sorted(s.drop_last()), s.last());
        assert(s =~= s.drop_last().push(s.last()));
        assert(s.to_multiset() == s.drop_last().to_multiset().insert(s.last()));
        assert(rank_sorted(s).to_multiset().len() == s.to_multiset().len());
    } else {
        assert(rank_sorted(s) =~= seq![]);
        assert(s.to_multiset() =~= rank_sorted(s).to_multiset()) by {
            broadcast use vstd::multiset::group_multiset_axioms;
        }
    }
}

/// The entries of `s` whose rank is `k`, in order.
pub open spec fn with_rank<T>(s: Seq<(i64, T)>, k: i64) -> Seq<(i64, T)> {
    s.filter(|x: (i64, T)| x.0 == k)
}

proof fn lemma_with_rank_none<T>(s: Seq<(i64, T)>, k: i64)
    requires
        forall|i: int| 0 <= i < s.len() ==> (#[trigger] s[i]).0 < k,
    ensures
        with_rank(s, k) == Seq::<(i64, T)>::empty(),
    decreases s.len(),
{
    reveal(Seq::filter);
    if s.len() > 0 {
        let prev = s.drop_last();
        assert forall|i: int| 0 <= i < prev.len() implies (#[trigger] prev[i]).0 < k by {
            assert(prev[i] == s[i]);
        }
        lemma_with_rank_none(prev, k);
        assert(s.last() == s[s.len() - 1]);
    } else {
        assert(with_rank(s, k) =~= Seq::<(i64, T)>::empty());
    }
}

proof fn lemma_insert_ranked_stable<T>(r: Seq<(i64, T)>, x: (i64, T), k: i64)
    requires
        ranked_desc(r),
    ensures
        with_rank(insert_ranked(r, x), k) == if x.0 == k {
            with_rank(r, k).push(x)
        } else {
            with_rank(r, k)
        },
{
    broadcast use Seq::filter_distributes_over_add, Seq::lemma_filter_push;

    let p = first_below(r, x.0, 0);
    lemma_first_below_range(r, x.0, 0);
    lemma_first_below_props(r, x.0, 0);
    let head = r.take(p);
    let tail = r.skip(p);
    assert(r =~= head + tail);
    assert(with_rank(r, k) == with_rank(head, k) + with_rank(tail, k));
    assert(with_rank(head.push(x) + tail, k) == with_rank(head.push(x), k) + with_rank(tail, k));
    if x.0 == k {
        assert forall|i: int| 0 <= i < tail.len() implies (#[trigger] tail[i]).0 < k by {
            assert(tail[i] == r[p + i]);
            assert(r[p].0 < x.0);
            if i > 0 {
                assert(r[p].0 >= r[p + i].0);
            }
        }
        lemma_with_rank_none(tail, k);
        assert(with_rank(head, k) + Seq::<(i64, T)>::empty() =~= with_rank(head, k));
        assert(with_rank(head, k).push(x) + Seq::<(i64, T)>::empty() =~= with_rank(head, k).push(
            x,
        ));
    }
}

/// Ranking is stable: the entries of any one rank come out in the order they
/// came in.
pub proof fn lemma_rank_sorted_stable<T>(s: Seq<(i64, T)>, k: i64)
    ensures
        with_rank(rank_sorted(s), k) == with_rank(s, k),
    decreases s.len(),
{
    broadcast use Seq::lemma_filter_push;

    reveal(Seq::filter);
    if s.len() > 0 {
        let prev = s.drop_last();
        lemma_rank_sorted_stable(prev, k);
        lemma_rank_sorted(prev);
        lemma_insert_ranked_stable(rank_sorted(prev), s.last(), k);
        assert(s =~= prev.push(s.last()));
    } else {
        assert(rank_sorted(s) =~= s);
    }
}

proof fn lemma_first_n_multiset<T>(s: Seq<T>, n: int)
    ensures
        first_n(s, n).len() == if n < 0 { 0 } else if n < s.len() { n } else { s.len() as int },
        forall|x: T| first_n(s, n).contains(x) ==> s.contains(x),
{
    assert forall|x: T| first_n(s, n).contains(x) implies s.contains(x) by {
        let t = first_n(s, n);
        let k = choose|k: int| 0 <= k < t.len() && t[k] == x;
        assert(s[k] == x);
    }
}

/// A search returns at most `limit` results, as many as there are matches up to
/// that limit, ranked from the highest down.
pub proof fn lemma_merged_results<T>(srd: Seq<(i64, T)>, campaign: Seq<(i64, T)>, limit: nat)
    ensures
        ranked_desc(merged_results(srd, campaign, limit)),
        merged_results(srd, campaign, limit).len() == if limit < srd.len() + campaign.len() {
            limit as int
        } else {
            (srd.len() + campaign.len()) as int
        },
{
    broadcast use vstd::seq_lib::group_to_multiset_ensures;

    if limit >= 2 && srd.len() > 0 && campaign.len() > 0 {
        let rest = rank_sorted(srd.drop_first() + campaign.drop_first());
        lemma_rank_sorted(srd.drop_first() + campaign.drop_first());
        lemma_first_n_multiset(rest, limit - 2);
        let picked = seq![srd[0], campaign[0]] + first_n(rest, limit - 2);
        lemma_rank_sorted(picked);
    } else {
        lemma_rank_sorted(srd + campaign);
        let top = first_n(rank_sorted(srd + campaign), limit as int);
        lemma_first_n_multiset(rank_sorted(srd + campaign), limit as int);
        lemma_rank_sorted(top);
    }
}

proof fn lemma_first_n_sub_multiset<T>(s: Seq<T>, n: int)
    ensures
        first_n(s, n).to_multiset().subset_of(s.to_multiset()),
{
    broadcast use vstd::seq_lib::lemma_multiset_commutative;
    broadcast use vstd::multiset::group_multiset_axioms;

    if 0 <= n < s.len() {
        assert(s =~= s.take(n) + s.skip(n));
    } else if n < 0 {
        assert(first_n(s, n).to_multiset() =~= vstd::multiset::Multiset::<T>::empty()) by {
            broadcast use vstd::seq_lib::group_to_multiset_ensures;
        }
    }
}

/// A search invents no result: each entry comes out at most as often as the two
/// corpora matched it.
pub proof fn lemma_merged_from_matches<T>(srd: Seq<(i64, T)>, campaign: Seq<(i64, T)>, limit: nat)
    ensures
        merged_results(srd, campaign, limit).to_multiset().subset_of((srd + campaign).to_multiset()),
{
    broadcast use vstd::seq_lib::lemma_multiset_commutative;
    broadcast use vstd::multiset::group_multiset_axioms;

    if limit >= 2 && srd.len() > 0 && campaign.len() > 0 {
        let rest_in = srd.drop_first() + campaign.drop_first();
        let rest = rank_sorted(rest_in);
        lemma_rank_sorted(rest_in);
        lemma_first_n_sub_multiset(rest, limit - 2);
        let picked = seq![srd[0], campaign[0]] + first_n(rest, limit - 2);
        lemma_rank_sorted(picked);
        assert(srd =~= seq![srd[0]] + srd.drop_first());
        assert(campaign =~= seq![campaign[0]] + campaign.drop_first());
        assert(seq![srd[0], campaign[0]] =~= seq![srd[0]] + seq![campaign[0]]);
        let m = merged_results(srd, campaign, limit).to_multiset();
        let whole = (srd + campaign).to_multiset();
        assert forall|x: (i64, T)| m.count(x) <= whole.count(x) by {
            assert(m.count(x) == picked.to_multiset().count(x));
        }
    } else {
        let all = rank_sorted(srd + campaign);
        lemma_rank_sorted(srd + campaign);
        lemma_first_n_sub_multiset(all, limit as int);
        let top = first_n(all, limit as int);
        lemma_rank_sorted(top);
    }
}

/// When both corpora matched and at least two results are wanted, the best match
/// of the rules and the best match of the campaign notes are both among the results.
pub proof fn lemma_merge_keeps_best_of_each<T>(
    srd: Seq<(i64, T)>,
    campaign: Seq<(i64, T)>,
    limit: nat,
)
    requires
        limit >= 2,
        srd.len() > 0,
        campaign.len() > 0,
    ensures
        merged_results(srd, campaign, limit).contains(srd[0]),
        merged_results(srd, campaign, limit).contains(campaign[0]),
{
    broadcast use vstd::seq_lib::group_to_multiset_ensures;

    let rest = rank_sorted(srd.drop_first() + campaign.drop_first());
    let picked = seq![srd[0], campaign[0]] + first_n(rest, limit - 2);
    lemma_rank_sorted(picked);
    let m = merged_results(srd, campaign, limit);
    assert(picked[0] == srd[0]);
    assert(picked[1] == campaign[0]);
    assert(picked.contains(srd[0]));
    assert(picked.contains(campaign[0]));
    assert(m.to_multiset().count(srd[0]) > 0);
    assert(m.to_multiset().count(campaign[0]) > 0);
}

} // verus!
