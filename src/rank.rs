//! Ranking of candidate blocks: more non-blank lines first, then longer
//! texts, then texts in lexicographic order, so that the order is total.
use vstd::prelude::*;
use crate::groups::{holds, tidy, heights_ok};
use crate::overlap::Candidate;
use crate::text::{is_blank, is_space, is_space_char, trim_start, trim_end};

verus! {

/// The pieces of `s` between its `'\n'` characters.
pub open spec fn pieces(s: Seq<char>) -> Seq<Seq<char>>
    decreases s.len(),
{
    if s.len() == 0 {
        seq![seq![]]
    } else {
        let p = pieces(s.drop_last());
        if s.last() == '\n' {
            p.push(seq![])
        } else {
            p.update(p.len() - 1, p.last().push(s.last()))
        }
    }
}

/// The number of pieces of `p` that are not blank.
pub open spec fn count_nonblank(p: Seq<Seq<char>>) -> nat
    decreases p.len(),
{
    if p.len() == 0 {
        0
    } else {
        count_nonblank(p.drop_last()) + if is_blank(p.last()) {
            0nat
        } else {
            1nat
        }
    }
}

/// The number of non-blank lines of a block text.
pub open spec fn nonblank_lines(t: Seq<char>) -> nat {
    count_nonblank(pieces(t))
}

/// Lexicographic order of character sequences, by code point.
pub open spec fn lex_lt(x: Seq<char>, y: Seq<char>) -> bool
    decreases x.len(),
{
    if x.len() == 0 {
        y.len() > 0
    } else if y.len() == 0 {
        false
    } else if x[0] != y[0] {
        (x[0] as u32) < (y[0] as u32)
    } else {
        lex_lt(x.drop_first(), y.drop_first())
    }
}

/// Whether block text `x` ranks before block text `y`.
#[verifier::opaque]
pub open spec fn ranks_before(x: Seq<char>, y: Seq<char>) -> bool {
    ||| nonblank_lines(x) > nonblank_lines(y)
    ||| nonblank_lines(x) == nonblank_lines(y) && x.len() > y.len()
    ||| nonblank_lines(x) == nonblank_lines(y) && x.len() == y.len() && lex_lt(x, y)
}

/// Whether the texts of `v` stand in ranking order.
pub open spec fn ranked(v: Seq<Candidate>) -> bool {
    forall|i: int, j: int| 0 <= i < j < v.len() ==> ranks_before((#[trigger] v[i]).text@, (#[trigger] v[j]).text@)
}

pub proof fn lemma_lex_irrefl(x: Seq<char>)
    ensures
        !lex_lt(x, x),
    decreases x.len(),
{
    if x.len() > 0 {
        lemma_lex_irrefl(x.drop_first());
    }
}

pub proof fn lemma_lex_total(x: Seq<char>, y: Seq<char>)
    ensures
        x != y ==> lex_lt(x, y) || lex_lt(y, x),
        !(lex_lt(x, y) && lex_lt(y, x)),
        !lex_lt(x, x),
    decreases x.len(),
{
    lemma_lex_irrefl(x);
    if x.len() > 0 && y.len() > 0 {
        lemma_lex_total(x.drop_first(), y.drop_first());
        if x[0] == y[0] && x != y {
            assert(x =~= seq![x[0]] + x.drop_first());
            assert(y =~= seq![y[0]] + y.drop_first());
        }
        if x[0] != y[0] {
            vstd::utf8::char_u32_cast(x[0], x[0] as u32);
            vstd::utf8::char_u32_cast(y[0], y[0] as u32);
        }
    } else if x.len() == 0 && y.len() == 0 {
        assert(x =~= y);
    }
}

pub proof fn lemma_lex_trans(x: Seq<char>, y: Seq<char>, z: Seq<char>)
    requires
        lex_lt(x, y),
        lex_lt(y, z),
    ensures
        lex_lt(x, z),
    decreases x.len(),
{
    if x.len() > 0 && y.len() > 0 && z.len() > 0 && x[0] == y[0] && y[0] == z[0] {
        lemma_lex_trans(x.drop_first(), y.drop_first(), z.drop_first());
    }
}

/// The ranking order is a strict total order on block texts.
pub proof fn lemma_ranks_order(x: Seq<char>, y: Seq<char>, z: Seq<char>)
    ensures
        x != y ==> ranks_before(x, y) || ranks_before(y, x),
        !(ranks_before(x, y) && ranks_before(y, x)),
        !ranks_before(x, x),
        ranks_before(x, y) && ranks_before(y, z) ==> ranks_before(x, z),
{
    reveal(ranks_before);
    lemma_lex_total(x, y);
    lemma_lex_total(x, x);
    if ranks_before(x, y) && ranks_before(y, z) && nonblank_lines(x) == nonblank_lines(z) && x.len()
        == z.len() {
        lemma_lex_trans(x, y, z);
    }
}

proof fn lemma_lex_from(x: Seq<char>, y: Seq<char>, k: int)
    requires
        0 <= k <= x.len(),
        k <= y.len(),
        forall|m: int| 0 <= m < k ==> x[m] == y[m],
    ensures
        lex_lt(x, y) == lex_lt(x.subrange(k, x.len() as int), y.subrange(k, y.len() as int)),
    decreases k,
{
    if k == 0 {
        assert(x.subrange(0, x.len() as int) =~= x);
        assert(y.subrange(0, y.len() as int) =~= y);
    } else {
        let x1 = x.drop_first();
        let y1 = y.drop_first();
        assert(x[0] == y[0]);
        lemma_lex_from(x1, y1, k - 1);
        assert(x1.subrange(k - 1, x1.len() as int) =~= x.subrange(k, x.len() as int));
        assert(y1.subrange(k - 1, y1.len() as int) =~= y.subrange(k, y.len() as int));
    }
}

/// Whether `x` comes before `y` in lexicographic order.
pub fn lex_less(x: &Vec<char>, y: &Vec<char>) -> (r: bool)
    ensures
        r == lex_lt(x@, y@),
{
    let mut k: usize = 0;
    while k < x.len() && k < y.len() && x[k] == y[k]
        invariant
            k <= x.len(),
            k <= y.len(),
            forall|m: int| 0 <= m < k ==> x@[m] == y@[m],
        decreases x.len() - k,
    {
        k = k + 1;
    }
    proof {
        lemma_lex_from(x@, y@, k as int);
        let xs = x@.subrange(k as int, x.len() as int);
        let ys = y@.subrange(k as int, y.len() as int);
        if k < x.len() && k < y.len() {
            assert(xs[0] == x@[k as int]);
            assert(ys[0] == y@[k as int]);
        }
    }
    if k < x.len() && k < y.len() {
        (x[k] as u32) < (y[k] as u32)
    } else {
        k == x.len() && k < y.len()
    }
}

proof fn lemma_all_space_trim_start(s: Seq<char>)
    ensures
        (trim_start(s).len() == 0) == (forall|k: int| 0 <= k < s.len() ==> is_space(#[trigger] s[k])),
        trim_start(s).len() > 0 ==> !is_space(trim_start(s)[0]),
    decreases s.len(),
{
    if s.len() > 0 && is_space(s[0]) {
        let t = s.drop_first();
        lemma_all_space_trim_start(t);
        if forall|k: int| 0 <= k < t.len() ==> is_space(#[trigger] t[k]) {
            assert forall|k: int| 0 <= k < s.len() implies is_space(#[trigger] s[k]) by {
                if k > 0 {
                    assert(s[k] == t[k - 1]);
                }
            }
        }
        if forall|k: int| 0 <= k < s.len() ==> is_space(#[trigger] s[k]) {
            assert forall|k: int| 0 <= k < t.len() implies is_space(#[trigger] t[k]) by {
                assert(t[k] == s[k + 1]);
            }
        }
    }
}

proof fn lemma_trim_end_keeps_first(t: Seq<char>)
    requires
        t.len() > 0,
        !is_space(t[0]),
    ensures
        trim_end(t).len() > 0,
    decreases t.len(),
{
    if is_space(t.last()) {
        assert(t.len() > 1);
        let u = t.drop_last();
        assert(u[0] == t[0]);
        lemma_trim_end_keeps_first(u);
    }
}

/// A line is blank exactly when all of its characters are white space.
pub proof fn lemma_blank_all_space(s: Seq<char>)
    ensures
        is_blank(s) == (forall|k: int| 0 <= k < s.len() ==> is_space(#[trigger] s[k])),
{
    lemma_all_space_trim_start(s);
    if trim_start(s).len() > 0 {
        lemma_trim_end_keeps_first(trim_start(s));
    }
}

/// The number of non-blank lines of a block text.
pub fn count_nonblank_lines(t: &Vec<char>) -> (n: usize)
    ensures
        n == nonblank_lines(t@),
{
    let mut n: usize = 0;
    let mut filled = false;
    let mut i: usize = 0;
    proof {
        assert(t@.subrange(0, 0) =~= seq![]);
        assert(pieces(seq![]) == seq![Seq::<char>::empty()]);
        assert(pieces(seq![]).drop_last() =~= seq![]);
    }
    while i < t.len()
        invariant
            i <= t.len(),
            n <= i,
            filled ==> n < i,
            pieces(t@.subrange(0, i as int)).len() > 0,
            n == count_nonblank(pieces(t@.subrange(0, i as int)).drop_last()),
            filled == !(forall|k: int|
                0 <= k < pieces(t@.subrange(0, i as int)).last().len() ==> is_space(
                    #[trigger] pieces(t@.subrange(0, i as int)).last()[k],
                )),
        decreases t.len() - i,
    {
        let ghost pre = pieces(t@.subrange(0, i as int));
        let c = t[i];
        proof {
            let s1 = t@.subrange(0, i + 1);
            assert(s1.drop_last() =~= t@.subrange(0, i as int));
            assert(s1.last() == c);
            lemma_blank_all_space(pre.last());
        }
        if c == '\n' {
            if filled {
                n = n + 1;
            }
            filled = false;
            proof {
                let post = pieces(t@.subrange(0, i + 1));
                assert(post == pre.push(seq![]));
                assert(post.drop_last() =~= pre);
                assert(pre =~= pre.drop_last().push(pre.last()));
                assert(post.last() =~= seq![]);
            }
        } else {
            if !is_space_char(c) {
                filled = true;
            }
            proof {
                let post = pieces(t@.subrange(0, i + 1));
                let l1 = pre.last().push(c);
                assert(post == pre.update(pre.len() - 1, l1));
                assert(post.drop_last() =~= pre.drop_last());
                assert(post.last() == l1);
                if !is_space(c) {
                    assert(l1[l1.len() - 1] == c);
                } else {
                    assert forall|k: int| 0 <= k < pre.last().len() implies (#[trigger] l1[k]) == pre.last()[k] by {}
                    if !(forall|k: int| 0 <= k < pre.last().len() ==> is_space(#[trigger] pre.last()[k])) {
                        let k = choose|k: int| 0 <= k < pre.last().len() && !is_space(#[trigger] pre.last()[k]);
                        assert(l1[k] == pre.last()[k]);
                    }
                }
            }
        }
        i = i + 1;
    }
    proof {
        assert(t@.subrange(0, t.len() as int) =~= t@);
        let p = pieces(t@);
        lemma_blank_all_space(p.last());
        assert(p =~= p.drop_last().push(p.last()));
    }
    if filled {
        n = n + 1;
    }
    n
}

/// Whether block text `x` ranks before block text `y`.
pub fn rank_before(x: &Vec<char>, y: &Vec<char>) -> (r: bool)
    ensures
        r == ranks_before(x@, y@),
{
    reveal(ranks_before);
    let nx = count_nonblank_lines(x);
    let ny = count_nonblank_lines(y);
    if nx != ny {
        nx > ny
    } else if x.len() != y.len() {
        x.len() > y.len()
    } else {
        lex_less(x, y)
    }
}

/// Whether `v` holds the text `t` in some entry.
pub open spec fn has_text(v: Seq<Candidate>, t: Seq<char>) -> bool {
    exists|i: int| 0 <= i < v.len() && (#[trigger] v[i]).text@ == t
}

proof fn lemma_insert_ranked(r0: Seq<Candidate>, p: int, c: Candidate, r: Seq<Candidate>)
    requires
        0 <= p <= r0.len(),
        r == r0.insert(p, c),
        ranked(r0),
        forall|q: int| 0 <= q < p ==> ranks_before((#[trigger] r0[q]).text@, c.text@),
        forall|q: int| p <= q < r0.len() ==> ranks_before(c.text@, (#[trigger] r0[q]).text@),
    ensures
        ranked(r),
{
    assert forall|i: int, j: int| 0 <= i < j < r.len() implies ranks_before(
        (#[trigger] r[i]).text@,
        (#[trigger] r[j]).text@,
    ) by {
        if j < p {
            assert(r[i] == r0[i]);
            assert(r[j] == r0[j]);
        } else if j == p {
            assert(r[i] == r0[i]);
        } else if i < p {
            assert(r[i] == r0[i]);
            assert(r[j] == r0[j - 1]);
        } else if i == p {
            assert(r[j] == r0[j - 1]);
        } else {
            assert(r[i] == r0[i - 1]);
            assert(r[j] == r0[j - 1]);
        }
    }
}

proof fn lemma_insert_holds(r0: Seq<Candidate>, p: int, c: Candidate, r: Seq<Candidate>)
    requires
        0 <= p <= r0.len(),
        r == r0.insert(p, c),
    ensures
        forall|t: Seq<char>, l| #[trigger] holds(r, t, l) == (holds(r0, t, l) || (t == c.text@ && c.locs@.contains(l))),
        forall|t: Seq<char>| #[trigger] has_text(r, t) == (has_text(r0, t) || t == c.text@),
{
    assert forall|t: Seq<char>, l| #[trigger] holds(r, t, l) == (holds(r0, t, l) || (t == c.text@ && c.locs@.contains(l))) by {
        if holds(r, t, l) {
            let i = choose|i: int| 0 <= i < r.len() && r[i].text@ == t && (#[trigger] r[i].locs@).contains(l);
            if i < p {
                assert(r[i] == r0[i]);
            } else if i > p {
                assert(r[i] == r0[i - 1]);
            }
        }
        if holds(r0, t, l) {
            let i = choose|i: int| 0 <= i < r0.len() && r0[i].text@ == t && (#[trigger] r0[i].locs@).contains(l);
            if i < p {
                assert(r[i] == r0[i]);
            } else {
                assert(r[i + 1] == r0[i]);
            }
        }
        if t == c.text@ && c.locs@.contains(l) {
            assert(r[p] == c);
        }
    }
    assert forall|t: Seq<char>| #[trigger] has_text(r, t) == (has_text(r0, t) || t == c.text@) by {
        if has_text(r, t) {
            let i = choose|i: int| 0 <= i < r.len() && (#[trigger] r[i]).text@ == t;
            if i < p {
                assert(r[i] == r0[i]);
            } else if i > p {
                assert(r[i] == r0[i - 1]);
            }
        }
        if has_text(r0, t) {
            let i = choose|i: int| 0 <= i < r0.len() && (#[trigger] r0[i]).text@ == t;
            if i < p {
                assert(r[i] == r0[i]);
            } else {
                assert(r[i + 1] == r0[i]);
            }
        }
        if t == c.text@ {
            assert(r[p] == c);
        }
    }
}

proof fn lemma_insert_entries(r0: Seq<Candidate>, p: int, c: Candidate, r: Seq<Candidate>)
    requires
        0 <= p <= r0.len(),
        r == r0.insert(p, c),
        forall|i: int| 0 <= i < r0.len() ==> (#[trigger] r0[i]).text@ != c.text@,
        tidy(r0),
        c.locs@.no_duplicates(),
        c.locs@.len() > 0,
    ensures
        tidy(r),
        heights_ok(r0) && c.height == crate::text::line_count(c.text@) ==> heights_ok(r),
{
    assert forall|i: int| 0 <= i < r.len() implies (#[trigger] r[i]).locs@.no_duplicates() && r[i].locs@.len() > 0 by {
        if i < p {
            assert(r[i] == r0[i]);
        } else if i > p {
            assert(r[i] == r0[i - 1]);
        }
    }
    assert forall|i: int, j: int| 0 <= i < j < r.len() implies (#[trigger] r[i]).text@ != (#[trigger] r[j]).text@ by {
        if j < p {
            assert(r[i] == r0[i]);
            assert(r[j] == r0[j]);
        } else if j == p {
            assert(r[i] == r0[i]);
        } else if i < p {
            assert(r[i] == r0[i]);
            assert(r[j] == r0[j - 1]);
        } else if i == p {
            assert(r[j] == r0[j - 1]);
        } else {
            assert(r[i] == r0[i - 1]);
            assert(r[j] == r0[j - 1]);
        }
    }
    if heights_ok(r0) && c.height == crate::text::line_count(c.text@) {
        assert forall|i: int| 0 <= i < r.len() implies (#[trigger] r[i]).height == crate::text::line_count(r[i].text@) by {
            if i < p {
                assert(r[i] == r0[i]);
            } else if i > p {
                assert(r[i] == r0[i - 1]);
            }
        }
    }
}

proof fn lemma_pop_holds(v0: Seq<Candidate>, m: int)
    requires
        0 <= m < v0.len(),
    ensures
        forall|t: Seq<char>, l| #[trigger] holds(v0.subrange(m, v0.len() as int), t, l) == (holds(
            v0.subrange(m + 1, v0.len() as int),
            t,
            l,
        ) || (t == v0[m].text@ && v0[m].locs@.contains(l))),
        forall|t: Seq<char>| #[trigger] has_text(v0.subrange(m, v0.len() as int), t) == (has_text(
            v0.subrange(m + 1, v0.len() as int),
            t,
        ) || t == v0[m].text@),
{
    let a = v0.subrange(m, v0.len() as int);
    let b = v0.subrange(m + 1, v0.len() as int);
    assert(a =~= b.insert(0, v0[m]));
    lemma_insert_holds(b, 0, v0[m], a);
}

/// The candidates of `v` in ranking order.
pub fn rank_candidates(v: Vec<Candidate>) -> (r: Vec<Candidate>)
    requires
        tidy(v@),
    ensures
        tidy(r@),
        ranked(r@),
        forall|t: Seq<char>, l| #[trigger] holds(r@, t, l) == holds(v@, t, l),
        heights_ok(v@) ==> heights_ok(r@),
{
    let ghost v0 = v@;
    let mut rest = v;
    let mut r: Vec<Candidate> = Vec::new();
    proof {
        assert(v0.subrange(v0.len() as int, v0.len() as int) =~= seq![]);
    }
    while rest.len() > 0
        invariant
            tidy(v0),
            rest@ == v0.subrange(0, rest@.len() as int),
            rest@.len() <= v0.len(),
            tidy(r@),
            ranked(r@),
            heights_ok(v0) ==> heights_ok(r@),
            forall|t: Seq<char>, l| #[trigger] holds(r@, t, l) == holds(v0.subrange(rest@.len() as int, v0.len() as int), t, l),
            forall|t: Seq<char>| #[trigger] has_text(r@, t) == has_text(v0.subrange(rest@.len() as int, v0.len() as int), t),
        decreases rest@.len(),
    {
        let ghost m = (rest@.len() - 1) as int;
        let c = rest.pop().unwrap();
        assert(c == v0[m]);
        proof {
            lemma_pop_holds(v0, m);
            assert(rest@ =~= v0.subrange(0, m));
        }
        let mut p: usize = 0;
        while p < r.len() && rank_before(&r[p].text, &c.text)
            invariant
                p <= r@.len(),
                forall|q: int| 0 <= q < p ==> ranks_before((#[trigger] r@[q]).text@, c.text@),
            decreases r@.len() - p,
        {
            p = p + 1;
        }
        let ghost r0 = r@;
        proof {
            assert forall|i: int| 0 <= i < r0.len() implies (#[trigger] r0[i]).text@ != c.text@ by {
                assert(has_text(r0, r0[i].text@));
                let s = v0.subrange(m + 1, v0.len() as int);
                let j = choose|j: int| 0 <= j < s.len() && (#[trigger] s[j]).text@ == r0[i].text@;
                assert(s[j] == v0[m + 1 + j]);
            }
            assert forall|q: int| p <= q < r0.len() implies ranks_before(c.text@, (#[trigger] r0[q]).text@) by {
                lemma_ranks_order(c.text@, r0[p as int].text@, r0[q].text@);
                lemma_ranks_order(r0[p as int].text@, c.text@, r0[q].text@);
                if q > p {
                    assert(ranks_before(r0[p as int].text@, r0[q].text@));
                }
            }
        }
        r.insert(p, c);
        proof {
            lemma_insert_ranked(r0, p as int, v0[m], r@);
            lemma_insert_holds(r0, p as int, v0[m], r@);
            lemma_insert_entries(r0, p as int, v0[m], r@);
        }
    }
    proof {
        assert(v0.subrange(0, v0.len() as int) =~= v0);
    }
    r
}

} // verus!
