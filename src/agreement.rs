//! Detection is repeatable: its contract fixes the result for given file
//! names and texts.
use vstd::prelude::*;
use crate::blocks::{is_candidate, yields, Corpus};
use crate::duplication::{corpus_files, ranking_of, reported, reports};
use crate::groups::{loc_lt, locs_sorted};
use crate::overlap::{free_locs, lemma_free_locs_sub, resolve, BlockView, Loc};
use crate::text::line_count;
use crate::rank::{lemma_ranks_order, ranks_before};
use crate::types::FileEntry;

verus! {

/// Whether two lists of blocks hold the same texts in the same order, each
/// with the same set of locations, held once each.
pub open spec fn same_blocks(a: Seq<BlockView>, b: Seq<BlockView>) -> bool {
    &&& a.len() == b.len()
    &&& forall|i: int| 0 <= i < a.len() ==> (#[trigger] a[i]).0 == b[i].0
    &&& forall|i: int, l: Loc| 0 <= i < a.len() ==> (#[trigger] a[i].1.contains(l) <==> b[i].1.contains(l))
    &&& forall|i: int| 0 <= i < a.len() ==> (#[trigger] a[i]).1.no_duplicates() && b[i].1.no_duplicates()
}

/// Two texts sequences in strict ranking order with the same members are
/// equal.
proof fn lemma_sorted_unique(a: Seq<Seq<char>>, b: Seq<Seq<char>>)
    requires
        forall|i: int, j: int| 0 <= i < j < a.len() ==> ranks_before(#[trigger] a[i], #[trigger] a[j]),
        forall|i: int, j: int| 0 <= i < j < b.len() ==> ranks_before(#[trigger] b[i], #[trigger] b[j]),
        forall|t: Seq<char>| a.contains(t) <==> b.contains(t),
    ensures
        a == b,
    decreases a.len(),
{
    if a.len() == 0 {
        if b.len() > 0 {
            assert(b.contains(b[0]));
        }
        assert(a =~= b);
    } else {
        assert(a.contains(a[0]));
        let j = choose|j: int| 0 <= j < b.len() && b[j] == a[0];
        assert(b.contains(b[0]));
        let i = choose|i: int| 0 <= i < a.len() && a[i] == b[0];
        if j > 0 {
            lemma_ranks_order(b[0], a[0], a[0]);
            if i == 0 {
                lemma_ranks_order(a[0], a[0], a[0]);
            } else {
                assert(ranks_before(a[0], a[i]));
                assert(ranks_before(b[0], b[j]));
            }
        }
        assert(b[0] == a[0]);
        let a1 = a.drop_first();
        let b1 = b.drop_first();
        assert forall|t: Seq<char>| a1.contains(t) <==> b1.contains(t) by {
            if a1.contains(t) {
                let k = choose|k: int| 0 <= k < a1.len() && a1[k] == t;
                assert(a[k + 1] == t);
                assert(ranks_before(a[0], a[k + 1]));
                lemma_ranks_order(a[0], t, t);
                assert(b.contains(t));
                let m = choose|m: int| 0 <= m < b.len() && b[m] == t;
                assert(m != 0);
                assert(b1[m - 1] == t);
            }
            if b1.contains(t) {
                let k = choose|k: int| 0 <= k < b1.len() && b1[k] == t;
                assert(b[k + 1] == t);
                assert(ranks_before(b[0], b[k + 1]));
                lemma_ranks_order(b[0], t, t);
                assert(a.contains(t));
                let m = choose|m: int| 0 <= m < a.len() && a[m] == t;
                assert(m != 0);
                assert(a1[m - 1] == t);
            }
        }
        assert forall|x: int, y: int| 0 <= x < y < a1.len() implies ranks_before(#[trigger] a1[x], #[trigger] a1[y]) by {
            assert(a1[x] == a[x + 1]);
            assert(a1[y] == a[y + 1]);
        }
        assert forall|x: int, y: int| 0 <= x < y < b1.len() implies ranks_before(#[trigger] b1[x], #[trigger] b1[y]) by {
            assert(b1[x] == b[x + 1]);
            assert(b1[y] == b[y + 1]);
        }
        lemma_sorted_unique(a1, b1);
        assert(a =~= seq![a[0]] + a1);
        assert(b =~= seq![b[0]] + b1);
    }
}

/// The texts of a list of blocks.
pub open spec fn texts(a: Seq<BlockView>) -> Seq<Seq<char>> {
    Seq::new(a.len(), |i: int| a[i].0)
}

/// Two lists of locations in increasing order with the same members are
/// equal.
proof fn lemma_sorted_locs_unique(a: Seq<Loc>, b: Seq<Loc>)
    requires
        locs_sorted(a),
        locs_sorted(b),
        forall|l: Loc| a.contains(l) <==> b.contains(l),
    ensures
        a == b,
    decreases a.len(),
{
    if a.len() == 0 {
        if b.len() > 0 {
            assert(b.contains(b[0]));
        }
        assert(a =~= b);
    } else {
        assert(a.contains(a[0]));
        let j = choose|j: int| 0 <= j < b.len() && b[j] == a[0];
        assert(b.contains(b[0]));
        let i = choose|i: int| 0 <= i < a.len() && a[i] == b[0];
        if j > 0 {
            assert(loc_lt(b[0], b[j]));
            if i > 0 {
                assert(loc_lt(a[0], a[i]));
            }
        }
        assert(b[0] == a[0]);
        let a1 = a.drop_first();
        let b1 = b.drop_first();
        assert forall|l: Loc| a1.contains(l) <==> b1.contains(l) by {
            if a1.contains(l) {
                let k = choose|k: int| 0 <= k < a1.len() && a1[k] == l;
                assert(a[k + 1] == l);
                assert(loc_lt(a[0], a[k + 1]));
                assert(b.contains(l));
                let m = choose|m: int| 0 <= m < b.len() && b[m] == l;
                assert(m != 0);
                assert(b1[m - 1] == l);
            }
            if b1.contains(l) {
                let k = choose|k: int| 0 <= k < b1.len() && b1[k] == l;
                assert(b[k + 1] == l);
                assert(loc_lt(b[0], b[k + 1]));
                assert(a.contains(l));
                let m = choose|m: int| 0 <= m < a.len() && a[m] == l;
                assert(m != 0);
                assert(a1[m - 1] == l);
            }
        }
        assert forall|x: int, y: int| 0 <= x < y < a1.len() implies loc_lt(#[trigger] a1[x], #[trigger] a1[y]) by {
            assert(a1[x] == a[x + 1] && a1[y] == a[y + 1]);
        }
        assert forall|x: int, y: int| 0 <= x < y < b1.len() implies loc_lt(#[trigger] b1[x], #[trigger] b1[y]) by {
            assert(b1[x] == b[x + 1] && b1[y] == b[y + 1]);
        }
        lemma_sorted_locs_unique(a1, b1);
        assert(a =~= seq![a[0]] + a1);
        assert(b =~= seq![b[0]] + b1);
    }
}

/// A corpus has one ranking of its candidates.
pub proof fn lemma_ranking_unique(a: Seq<BlockView>, b: Seq<BlockView>, c: Corpus)
    requires
        ranking_of(a, c),
        ranking_of(b, c),
    ensures
        a == b,
{
    lemma_rankings_agree(a, b, c);
    assert forall|i: int| 0 <= i < a.len() implies a[i] == b[i] by {
        assert forall|l: Loc| a[i].1.contains(l) <==> b[i].1.contains(l) by {
            assert(a[i].1.contains(l) <==> b[i].1.contains(l));
        }
        assert(locs_sorted(a[i].1) && locs_sorted(b[i].1));
        lemma_sorted_locs_unique(a[i].1, b[i].1);
    }
    assert(a =~= b);
}

/// Any two rankings of the candidates of a corpus hold the same texts in
/// the same order, each with the same set of locations.
proof fn lemma_rankings_agree(a: Seq<BlockView>, b: Seq<BlockView>, c: Corpus)
    requires
        ranking_of(a, c),
        ranking_of(b, c),
    ensures
        same_blocks(a, b),
{
    let ta = texts(a);
    let tb = texts(b);
    assert forall|t: Seq<char>| ta.contains(t) <==> tb.contains(t) by {
        if ta.contains(t) {
            let i = choose|i: int| 0 <= i < ta.len() && ta[i] == t;
            let l = a[i].1[0];
            assert(a[i].1.contains(l));
            assert(is_candidate(c, t, l));
            let k = choose|k: int| 0 <= k < b.len() && b[k].0 == t && (#[trigger] b[k].1).contains(l);
            assert(tb[k] == t);
        }
        if tb.contains(t) {
            let i = choose|i: int| 0 <= i < tb.len() && tb[i] == t;
            let l = b[i].1[0];
            assert(b[i].1.contains(l));
            assert(is_candidate(c, t, l));
            let k = choose|k: int| 0 <= k < a.len() && a[k].0 == t && (#[trigger] a[k].1).contains(l);
            assert(ta[k] == t);
        }
    }
    assert forall|i: int, j: int| 0 <= i < j < ta.len() implies ranks_before(#[trigger] ta[i], #[trigger] ta[j]) by {
        assert(ranks_before(a[i].0, a[j].0));
    }
    assert forall|i: int, j: int| 0 <= i < j < tb.len() implies ranks_before(#[trigger] tb[i], #[trigger] tb[j]) by {
        assert(ranks_before(b[i].0, b[j].0));
    }
    lemma_sorted_unique(ta, tb);
    assert(a.len() == ta.len() && b.len() == tb.len());
    assert forall|i: int| 0 <= i < a.len() implies (#[trigger] a[i]).1.no_duplicates() && b[i].1.no_duplicates() by {
        assert(ta[i] == tb[i]);
    }
    assert forall|i: int| 0 <= i < a.len() implies (#[trigger] a[i]).0 == b[i].0 by {
        assert(ta[i] == tb[i]);
    }
    assert forall|i: int, l: Loc| 0 <= i < a.len() implies (#[trigger] a[i].1.contains(l) <==> b[i].1.contains(l)) by {
        assert(ta[i] == tb[i]);
        let t = a[i].0;
        if a[i].1.contains(l) {
            assert(is_candidate(c, t, l));
            let k = choose|k: int| 0 <= k < b.len() && b[k].0 == t && (#[trigger] b[k].1).contains(l);
            if k != i {
                if k < i {
                    assert(ranks_before(b[k].0, b[i].0));
                } else {
                    assert(ranks_before(b[i].0, b[k].0));
                }
                lemma_ranks_order(t, t, t);
            }
        }
        if b[i].1.contains(l) {
            assert(is_candidate(c, t, l));
            let k = choose|k: int| 0 <= k < a.len() && a[k].0 == t && (#[trigger] a[k].1).contains(l);
            if k != i {
                if k < i {
                    assert(ranks_before(a[k].0, a[i].0));
                } else {
                    assert(ranks_before(a[i].0, a[k].0));
                }
                lemma_ranks_order(t, t, t);
            }
        }
    }
}


/// Whether two reported locations are the same.
pub open spec fn same_loc(x: (String, u32), y: (String, u32)) -> bool {
    x.0@ == y.0@ && x.1 == y.1
}

/// Every location that resolution keeps is one of a candidate's with the
/// same text.
proof fn lemma_resolve_from(cands: Seq<BlockView>, b: int, l: Loc)
    requires
        0 <= b < resolve(cands).len(),
        resolve(cands)[b].1.contains(l),
    ensures
        exists|i: int| 0 <= i < cands.len() && cands[i].0 == resolve(cands)[b].0 && (#[trigger] cands[i].1).contains(l),
    decreases cands.len(),
{
    let init = cands.drop_last();
    let acc = resolve(init);
    let (t, ls) = cands.last();
    if b < acc.len() {
        lemma_resolve_from(init, b, l);
        let i = choose|i: int| 0 <= i < init.len() && init[i].0 == acc[b].0 && (#[trigger] init[i].1).contains(l);
        assert(cands[i] == init[i]);
    } else {
        let free = free_locs(acc, ls, line_count(t));
        lemma_free_locs_sub(acc, ls, line_count(t));
        let j = choose|j: int| 0 <= j < free.len() && free[j] == l;
        assert(ls.contains(free[j]));
        assert(cands[cands.len() - 1] == (t, ls));
    }
}

/// Whether two lists of files hold the same names and texts in the same
/// order, whatever the form of their content.
pub open spec fn same_files(a: Seq<FileEntry>, b: Seq<FileEntry>) -> bool {
    &&& a.len() == b.len()
    &&& forall|g: int| 0 <= g < a.len() ==> (#[trigger] a[g]).name@ == b[g].name@ && a[g].text() == b[g].text()
}

/// Detection is repeatable: two results that meet the contract of
/// `find_multi_line_duplications` for files with the same names and texts
/// are the same, block by block and location by location.
pub proof fn lemma_detection_repeatable(
    files1: Seq<FileEntry>,
    files2: Seq<FileEntry>,
    r1: Seq<(String, Vec<(String, u32)>)>,
    r2: Seq<(String, Vec<(String, u32)>)>,
)
    requires
        same_files(files1, files2),
        exists|ranked: Seq<BlockView>| ranking_of(ranked, corpus_files(files1)) && reports(r1, resolve(ranked), files1),
        exists|ranked: Seq<BlockView>| ranking_of(ranked, corpus_files(files2)) && reports(r2, resolve(ranked), files2),
    ensures
        r1.len() == r2.len(),
        forall|i: int| 0 <= i < r1.len() ==> (#[trigger] r1[i]).0@ == r2[i].0@ && r1[i].1@.len() == r2[i].1@.len(),
        forall|i: int, j: int| 0 <= i < r1.len() && 0 <= j < r1[i].1@.len() ==> same_loc(#[trigger] r1[i].1@[j], r2[i].1@[j]),
{
    assert(corpus_files(files1) =~= corpus_files(files2));
    let c = corpus_files(files1);
    let k1 = choose|ranked: Seq<BlockView>| ranking_of(ranked, c) && reports(r1, resolve(ranked), files1);
    let k2 = choose|ranked: Seq<BlockView>| ranking_of(ranked, c) && reports(r2, resolve(ranked), files2);
    lemma_ranking_unique(k1, k2, c);
    let b = resolve(k1);
    assert forall|i: int| 0 <= i < r1.len() implies (#[trigger] r1[i]).0@ == r2[i].0@ && r1[i].1@.len() == r2[i].1@.len() by {
        assert(r1[i].0@ == b[i].0);
    }
    assert forall|i: int, j: int| 0 <= i < r1.len() && 0 <= j < r1[i].1@.len() implies same_loc(#[trigger] r1[i].1@[j], r2[i].1@[j]) by {
        let l = b[i].1[j];
        assert(b[i].1.contains(l));
        lemma_resolve_from(k1, i, l);
        let m = choose|m: int| 0 <= m < k1.len() && k1[m].0 == b[i].0 && (#[trigger] k1[m].1).contains(l);
        assert(is_candidate(c, b[i].0, l));
        let (x, y) = choose|x: Loc, y: Loc| #[trigger] yields(c, x, y, b[i].0, l);
        assert(l.0 < c.len());
        assert(((r1[i].1@[j]).0@, r1[i].1@[j].1 as int) == reported(files1, l));
        assert(((r2[i].1@[j]).0@, r2[i].1@[j].1 as int) == reported(files2, l));
        assert(files1[l.0 as int].name@ == files2[l.0 as int].name@);
    }
}

} // verus!
