//! Word frequency: the words of a text are its maximal runs of alphabetic
//! characters, compared in lower case.
use vstd::prelude::*;
use std::collections::HashMap;
use crate::rank::{lex_less, lex_lt, lemma_lex_total, lemma_lex_trans};
use crate::text::{chars_of, string_of};
use crate::types::FrequencyItem;

verus! {

/// Whether `char::is_alphabetic` holds of a character (the Unicode
/// `Alphabetic` property).
pub uninterp spec fn alphabetic(c: char) -> bool;

/// What `str::to_lowercase` returns for a text.
pub uninterp spec fn lowercase_of(s: Seq<char>) -> Seq<char>;

/// Relies on `char::is_alphabetic`.
#[verifier::external_body]
fn is_alphabetic_char(c: char) -> (r: bool)
    ensures
        r == alphabetic(c),
{
    c.is_alphabetic()
}

/// Relies on `str::to_lowercase`, whose result depends on the text alone.
#[verifier::external_body]
fn lowercase(s: &str) -> (r: String)
    ensures
        r@ == lowercase_of(s@),
{
    s.to_lowercase()
}

/// The words found so far in `s`, and the word being read at its end.
pub open spec fn word_split(s: Seq<char>) -> (Seq<Seq<char>>, Seq<char>)
    decreases s.len(),
{
    if s.len() == 0 {
        (seq![], seq![])
    } else {
        let (done, cur) = word_split(s.drop_last());
        if alphabetic(s.last()) {
            (done, cur.push(s.last()))
        } else if cur.len() > 0 {
            (done.push(cur), seq![])
        } else {
            (done, seq![])
        }
    }
}

/// The words of `s`: its maximal runs of alphabetic characters, in order.
pub open spec fn words_of(s: Seq<char>) -> Seq<Seq<char>> {
    let (done, cur) = word_split(s);
    if cur.len() > 0 {
        done.push(cur)
    } else {
        done
    }
}

/// The number of entries of `ws` equal to `w`.
pub open spec fn occurrences(ws: Seq<Seq<char>>, w: Seq<char>) -> nat
    decreases ws.len(),
{
    if ws.len() == 0 {
        0
    } else {
        occurrences(ws.drop_last(), w) + if ws.last() == w {
            1nat
        } else {
            0nat
        }
    }
}

/// The words of `s` in lower case.
pub open spec fn lowered_words(s: Seq<char>) -> Seq<Seq<char>> {
    Seq::new(words_of(s).len(), |i: int| lowercase_of(words_of(s)[i]))
}

/// The views of a sequence of strings.
pub open spec fn string_views(v: Seq<String>) -> Seq<Seq<char>> {
    Seq::new(v.len(), |i: int| v[i]@)
}

/// Whether `items` holds each word of `ws` once, with the number of times
/// it occurs there.
pub open spec fn tallies(items: Seq<FrequencyItem>, ws: Seq<Seq<char>>) -> bool {
    &&& forall|i: int, j: int| 0 <= i < j < items.len() ==> (#[trigger] items[i]).word@ != (#[trigger] items[j]).word@
    &&& forall|i: int| 0 <= i < items.len() ==> (#[trigger] items[i]).count == occurrences(ws, items[i].word@) && items[i].count > 0
    &&& forall|w: Seq<char>| #[trigger] occurrences(ws, w) > 0 ==> exists|i: int| 0 <= i < items.len() && (#[trigger] items[i]).word@ == w
}

proof fn lemma_word_split_bound(s: Seq<char>)
    ensures
        2 * word_split(s).0.len() + word_split(s).1.len() <= s.len(),
    decreases s.len(),
{
    if s.len() > 0 {
        lemma_word_split_bound(s.drop_last());
    }
}

proof fn lemma_occurrences_bound(ws: Seq<Seq<char>>, w: Seq<char>)
    ensures
        occurrences(ws, w) <= ws.len(),
    decreases ws.len(),
{
    if ws.len() > 0 {
        lemma_occurrences_bound(ws.drop_last(), w);
    }
}

/// The words of `text`: its maximal runs of alphabetic characters.
pub fn split_words(text: &str) -> (r: Vec<String>)
    ensures
        string_views(r@) == words_of(text@),
{
    let chars = chars_of(text);
    let mut done: Vec<String> = Vec::new();
    let mut cur: Vec<char> = Vec::new();
    let mut i: usize = 0;
    while i < chars.len()
        invariant
            i <= chars.len(),
            chars@ == text@,
            (string_views(done@), cur@) == word_split(chars@.subrange(0, i as int)),
        decreases chars.len() - i,
    {
        let c = chars[i];
        proof {
            let p = chars@.subrange(0, i + 1);
            assert(p.drop_last() =~= chars@.subrange(0, i as int));
            assert(p.last() == c);
        }
        if is_alphabetic_char(c) {
            cur.push(c);
        } else if cur.len() > 0 {
            let w = string_of(&cur);
            let ghost d0 = done@;
            done.push(w);
            proof {
                assert(string_views(done@) =~= string_views(d0).push(cur@));
            }
            cur = Vec::new();
            proof {
                assert(cur@ =~= seq![]);
            }
        } else {
        }
        i = i + 1;
    }
    proof {
        assert(chars@.subrange(0, chars.len() as int) =~= chars@);
    }
    if cur.len() > 0 {
        let w = string_of(&cur);
        let ghost d0 = done@;
        done.push(w);
        proof {
            assert(string_views(done@) =~= string_views(d0).push(cur@));
        }
    }
    done
}

/// Each distinct word of `words` with the number of times it occurs, in
/// the order of first occurrence.
pub fn tally(words: &Vec<String>) -> (r: Vec<FrequencyItem>)
    requires
        words.len() <= i32::MAX,
    ensures
        tallies(r@, string_views(words@)),
{
    let ghost ws = string_views(words@);
    let mut items: Vec<FrequencyItem> = Vec::new();
    let mut k: usize = 0;
    while k < words.len()
        invariant
            k <= words.len() <= i32::MAX,
            ws == string_views(words@),
            tallies(items@, ws.subrange(0, k as int)),
        decreases words.len() - k,
    {
        let w = &words[k];
        let ghost pre = ws.subrange(0, k as int);
        let ghost post = ws.subrange(0, k + 1);
        proof {
            assert(post.drop_last() =~= pre);
            assert(post.last() == w@);
            lemma_occurrences_bound(pre, w@);
        }
        let mut i: usize = 0;
        while i < items.len() && items[i].word != *w
            invariant
                i <= items@.len(),
                forall|q: int| 0 <= q < i ==> (#[trigger] items@[q]).word@ != w@,
            decreases items@.len() - i,
        {
            i = i + 1;
        }
        let ghost i0 = items@;
        if i < items.len() {
            assert(items@[i as int].count == occurrences(pre, w@));
            items[i].count = items[i].count + 1;
            proof {
                assert forall|q: int| 0 <= q < items@.len() && q != i implies items@[q] == i0[q] by {}
                assert forall|a: int, b: int| 0 <= a < b < items@.len() implies (#[trigger] items@[a]).word@ != (#[trigger] items@[b]).word@ by {
                    assert(items@[a].word@ == i0[a].word@);
                    assert(items@[b].word@ == i0[b].word@);
                }
                assert forall|q: int| 0 <= q < items@.len() implies (#[trigger] items@[q]).count == occurrences(post, items@[q].word@) && items@[q].count > 0 by {
                    assert(items@[q].word@ == i0[q].word@);
                }
                assert forall|x: Seq<char>| #[trigger] occurrences(post, x) > 0 implies exists|q: int| 0 <= q < items@.len() && (#[trigger] items@[q]).word@ == x by {
                    if x != w@ {
                        assert(occurrences(post, x) == occurrences(pre, x));
                        let q = choose|q: int| 0 <= q < i0.len() && (#[trigger] i0[q]).word@ == x;
                        assert(items@[q].word@ == i0[q].word@);
                    } else {
                        assert(items@[i as int].word@ == x);
                    }
                }
            }
        } else {
            items.push(FrequencyItem { word: w.clone(), count: 1 });
            proof {
                assert forall|q: int| 0 <= q < i0.len() implies items@[q] == i0[q] by {}
                assert(occurrences(pre, w@) == 0) by {
                    if occurrences(pre, w@) > 0 {
                        let q = choose|q: int| 0 <= q < i0.len() && (#[trigger] i0[q]).word@ == w@;
                    }
                }
                assert forall|a: int, b: int| 0 <= a < b < items@.len() implies (#[trigger] items@[a]).word@ != (#[trigger] items@[b]).word@ by {
                    assert(items@[a] == i0[a]);
                    if b < i0.len() {
                        assert(items@[b] == i0[b]);
                    }
                }
                assert forall|q: int| 0 <= q < items@.len() implies (#[trigger] items@[q]).count == occurrences(post, items@[q].word@) && items@[q].count > 0 by {
                    if q < i0.len() {
                        assert(items@[q] == i0[q]);
                    }
                }
                assert forall|x: Seq<char>| #[trigger] occurrences(post, x) > 0 implies exists|q: int| 0 <= q < items@.len() && (#[trigger] items@[q]).word@ == x by {
                    if x != w@ {
                        assert(occurrences(post, x) == occurrences(pre, x));
                        let q = choose|q: int| 0 <= q < i0.len() && (#[trigger] i0[q]).word@ == x;
                        assert(items@[q] == i0[q]);
                    } else {
                        assert(items@[i0.len() as int].word@ == x);
                    }
                }
            }
        }
        k = k + 1;
    }
    proof {
        assert(ws.subrange(0, words.len() as int) =~= ws);
    }
    items
}

/// Relies on `FromIterator<(K, V)>` for `HashMap`: each pair is inserted in
/// turn; with keys of distinct text none is overwritten.
#[verifier::external_body]
fn to_map(items: Vec<FrequencyItem>) -> (r: HashMap<String, i32>)
    requires
        forall|i: int, j: int| 0 <= i < j < items@.len() ==> (#[trigger] items@[i]).word@ != (#[trigger] items@[j]).word@,
    ensures
        forall|i: int| 0 <= i < items@.len() ==> r@.contains_key(#[trigger] items@[i].word) && r@[items@[i].word] == items@[i].count,
        forall|k: String| #[trigger] r@.contains_key(k) ==> exists|i: int| 0 <= i < items@.len() && (#[trigger] items@[i]).word == k,
{
    items.into_iter().map(|item| (item.word, item.count)).collect()
}

/// The number of times each word of `text` occurs, words compared in
/// lower case.
pub fn generate_frequency_map(text: &str) -> (r: HashMap<String, i32>)
    requires
        text@.len() <= 2 * i32::MAX,
    ensures
        forall|k: String| #[trigger] r@.contains_key(k) ==> r@[k] == occurrences(lowered_words(text@), k@) && r@[k] > 0,
        forall|w: Seq<char>| #[trigger] occurrences(lowered_words(text@), w) > 0 ==> exists|k: String| #[trigger] r@.contains_key(k) && k@ == w,
{
    let words = split_words(text);
    let mut lowered: Vec<String> = Vec::new();
    let mut i: usize = 0;
    while i < words.len()
        invariant
            i <= words.len(),
            string_views(words@) == words_of(text@),
            lowered@.len() == i,
            forall|j: int| 0 <= j < i ==> (#[trigger] lowered@[j])@ == lowercase_of(words@[j]@),
        decreases words.len() - i,
    {
        lowered.push(lowercase(words[i].as_str()));
        i = i + 1;
    }
    proof {
        lemma_word_split_bound(text@);
        assert(words_of(text@).len() <= i32::MAX);
        assert(string_views(lowered@) =~= lowered_words(text@));
    }
    let items = tally(&lowered);
    let ghost iv = items@;
    let r = to_map(items);
    proof {
        let ws = lowered_words(text@);
        assert forall|k: String| #[trigger] r@.contains_key(k) implies r@[k] == occurrences(ws, k@) && r@[k] > 0 by {
            let i = choose|i: int| 0 <= i < iv.len() && (#[trigger] iv[i]).word == k;
        }
        assert forall|w: Seq<char>| #[trigger] occurrences(ws, w) > 0 implies exists|k: String| #[trigger] r@.contains_key(k) && k@ == w by {
            let i = choose|i: int| 0 <= i < iv.len() && (#[trigger] iv[i]).word@ == w;
            assert(r@.contains_key(iv[i].word));
        }
    }
    r
}

/// A frequency item as the specifications see it.
pub open spec fn item_view(i: FrequencyItem) -> (Seq<char>, i32) {
    (i.word@, i.count)
}

/// Whether item `a` is listed before item `b`: the higher count first, then
/// the word that comes first in lexicographic order.
pub open spec fn listed_before(a: (Seq<char>, i32), b: (Seq<char>, i32)) -> bool {
    a.1 > b.1 || (a.1 == b.1 && lex_lt(a.0, b.0))
}

/// The views of a sequence of frequency items.
pub open spec fn item_views(v: Seq<FrequencyItem>) -> Seq<(Seq<char>, i32)> {
    Seq::new(v.len(), |i: int| item_view(v[i]))
}

/// Whether `v` is in listing order.
pub open spec fn listed(v: Seq<(Seq<char>, i32)>) -> bool {
    forall|i: int, j: int| 0 <= i < j < v.len() ==> listed_before(#[trigger] v[i], #[trigger] v[j])
}

proof fn lemma_listed_order(a: (Seq<char>, i32), b: (Seq<char>, i32), c: (Seq<char>, i32))
    ensures
        a.0 != b.0 ==> listed_before(a, b) || listed_before(b, a),
        listed_before(a, b) && listed_before(b, c) ==> listed_before(a, c),
{
    lemma_lex_total(a.0, b.0);
    if listed_before(a, b) && listed_before(b, c) && a.1 == c.1 {
        lemma_lex_trans(a.0, b.0, c.0);
    }
}

proof fn lemma_listed_insert(r0: Seq<(Seq<char>, i32)>, p: int, x: (Seq<char>, i32), r: Seq<(Seq<char>, i32)>)
    requires
        listed(r0),
        0 <= p <= r0.len(),
        forall|q: int| 0 <= q < p ==> listed_before(#[trigger] r0[q], x),
        forall|q: int| 0 <= q < r0.len() ==> (#[trigger] r0[q]).0 != x.0,
        p < r0.len() ==> !listed_before(r0[p], x),
        r == r0.insert(p, x),
    ensures
        listed(r),
        forall|y: (Seq<char>, i32)| #[trigger] r.contains(y) <==> r0.contains(y) || y == x,
{
    if p < r0.len() {
        lemma_listed_order(x, r0[p], r0[p]);
    }
    assert forall|q: int| p <= q < r0.len() implies listed_before(x, #[trigger] r0[q]) by {
        if q > p {
            assert(listed_before(r0[p], r0[q]));
            lemma_listed_order(x, r0[p], r0[q]);
        }
    }
    assert forall|i: int, j: int| 0 <= i < j < r.len() implies listed_before(#[trigger] r[i], #[trigger] r[j]) by {
        if j < p {
            assert(r[i] == r0[i] && r[j] == r0[j]);
        } else if j == p {
            assert(r[i] == r0[i]);
        } else if i < p {
            assert(r[i] == r0[i] && r[j] == r0[j - 1]);
            lemma_listed_order(r0[i], x, r0[j - 1]);
        } else if i == p {
            assert(r[j] == r0[j - 1]);
        } else {
            assert(r[i] == r0[i - 1] && r[j] == r0[j - 1]);
        }
    }
    assert forall|y: (Seq<char>, i32)| #[trigger] r.contains(y) <==> r0.contains(y) || y == x by {
        if r.contains(y) {
            let k = choose|k: int| 0 <= k < r.len() && r[k] == y;
            if k < p {
                assert(r0[k] == y);
            } else if k > p {
                assert(r0[k - 1] == y);
            }
        }
        if r0.contains(y) {
            let k = choose|k: int| 0 <= k < r0.len() && r0[k] == y;
            if k < p {
                assert(r[k] == y);
            } else {
                assert(r[k + 1] == y);
            }
        }
        if y == x {
            assert(r[p] == x);
        }
    }
}

/// The items of `items`, each word once, listed by count, highest first,
/// and words of equal count in lexicographic order.
pub fn sort_frequency_items(items: Vec<FrequencyItem>) -> (r: Vec<FrequencyItem>)
    requires
        forall|i: int, j: int| 0 <= i < j < items@.len() ==> (#[trigger] items@[i]).word@ != (#[trigger] items@[j]).word@,
    ensures
        r@.len() == items@.len(),
        listed(item_views(r@)),
        forall|y: (Seq<char>, i32)| #[trigger] item_views(r@).contains(y) <==> item_views(items@).contains(y),
{
    let ghost v0 = item_views(items@);
    let mut rest = items;
    let mut r: Vec<FrequencyItem> = Vec::new();
    proof {
        assert(item_views(r@) =~= seq![]);
        assert(v0.subrange(v0.len() as int, v0.len() as int) =~= seq![]);
    }
    while rest.len() > 0
        invariant
            forall|i: int, j: int| 0 <= i < j < v0.len() ==> (#[trigger] v0[i]).0 != (#[trigger] v0[j]).0,
            item_views(rest@) == v0.subrange(0, rest@.len() as int),
            rest@.len() <= v0.len(),
            r@.len() + rest@.len() == v0.len(),
            listed(item_views(r@)),
            forall|y: (Seq<char>, i32)| #[trigger] item_views(r@).contains(y) <==> v0.subrange(rest@.len() as int, v0.len() as int).contains(y),
        decreases rest@.len(),
    {
        let ghost m = (rest@.len() - 1) as int;
        let ghost rest0 = rest@;
        let x = rest.pop().unwrap();
        let ghost xv = item_view(x);
        proof {
            assert(item_views(rest0)[m] == xv);
            assert(v0[m] == xv);
            assert(item_views(rest@) =~= v0.subrange(0, m));
        }
        let xw = chars_of(x.word.as_str());
        let mut p: usize = 0;
        while p < r.len() && (r[p].count > x.count || (r[p].count == x.count && lex_less(&chars_of(r[p].word.as_str()), &xw)))
            invariant
                p <= r@.len(),
                xw@ == x.word@,
                forall|q: int| 0 <= q < p ==> listed_before(#[trigger] item_views(r@)[q], item_view(x)),
            decreases r@.len() - p,
        {
            p = p + 1;
        }
        let ghost r0 = item_views(r@);
        proof {
            let s0 = v0.subrange(m, v0.len() as int);
            let s1 = v0.subrange(m + 1, v0.len() as int);
            assert(s0 =~= s1.insert(0, xv));
            assert forall|q: int| 0 <= q < r0.len() implies (#[trigger] r0[q]).0 != xv.0 by {
                assert(r0.contains(r0[q]));
                assert(s1.contains(r0[q]));
                let k = choose|k: int| 0 <= k < s1.len() && s1[k] == r0[q];
                assert(v0[m + 1 + k] == r0[q]);
            }
            assert forall|y: (Seq<char>, i32)| s0.contains(y) <==> s1.contains(y) || y == xv by {
                if s0.contains(y) {
                    let k = choose|k: int| 0 <= k < s0.len() && s0[k] == y;
                    if k > 0 {
                        assert(s1[k - 1] == y);
                    }
                }
                if s1.contains(y) {
                    let k = choose|k: int| 0 <= k < s1.len() && s1[k] == y;
                    assert(s0[k + 1] == y);
                }
                if y == xv {
                    assert(s0[0] == xv);
                }
            }
        }
        r.insert(p, x);
        proof {
            assert(item_views(r@) =~= r0.insert(p as int, xv));
            lemma_listed_insert(r0, p as int, xv, item_views(r@));
        }
    }
    proof {
        assert(v0.subrange(0, v0.len() as int) =~= v0);
    }
    r
}

} // verus!
