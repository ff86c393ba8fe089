//! Detection of duplicated blocks of lines across files.
use vstd::prelude::*;
use rayon::iter::{IndexedParallelIterator, IntoParallelIterator, IntoParallelRefIterator, ParallelIterator};
use crate::blocks::{
    corpus_of, expand_file, index_lines, indexes, is_candidate, match_len,
    prepared, valid_loc, yields, common_run, lemma_normalize_line_count, Corpus,
};
use crate::groups::{add_loc, heights_ok, holds, locs_sorted, sort_locs, sorted_below, sorted_upto, tidy};
use crate::overlap::{
    block_views, resolve, resolve_overlaps, well_placed, BlockView, Candidate, Loc, lemma_resolve_sound,
    lemma_resolve_sorted,
    disjoint_blocks,
};
use crate::rank::{rank_candidates, ranked, ranks_before};
use crate::text::{
    byte_len, utf8_len,
    chars_of, line_count, lines_of, no_newline, split_into_lines, string_of, trim, trim_chars, views,
    lemma_lines_no_newline,
};
use crate::types::FileEntry;

verus! {

/// The lines of each file.
pub open spec fn corpus_files(files: Seq<FileEntry>) -> Corpus {
    Seq::new(files.len(), |g: int| lines_of(files[g].text()))
}

/// Whether every file has fewer lines than `u32::MAX`, so that line
/// numbers fit in a `u32`.
pub open spec fn numbered(files: Seq<FileEntry>) -> bool {
    forall|g: int| 0 <= g < files.len() ==> lines_of((#[trigger] files[g]).text()).len() < u32::MAX
}

/// Whether `ranked` lists every candidate block of `c` once, in ranking
/// order, with all of its locations once each in increasing (file, line)
/// order.
pub open spec fn ranking_of(ranked: Seq<BlockView>, c: Corpus) -> bool {
    &&& forall|i: int, j: int| 0 <= i < j < ranked.len() ==> ranks_before((#[trigger] ranked[i]).0, (#[trigger] ranked[j]).0)
    &&& forall|i: int| 0 <= i < ranked.len() ==> (#[trigger] ranked[i]).1.no_duplicates() && ranked[i].1.len() > 0
    &&& forall|i: int| 0 <= i < ranked.len() ==> locs_sorted((#[trigger] ranked[i]).1)
    &&& forall|t: Seq<char>, l: Loc|
        (exists|i: int| 0 <= i < ranked.len() && ranked[i].0 == t && (#[trigger] ranked[i].1).contains(l))
            <==> #[trigger] is_candidate(c, t, l)
}

/// A reported location: a file name and a line number from one.
pub open spec fn reported(files: Seq<FileEntry>, l: Loc) -> (Seq<char>, int) {
    (files[l.0 as int].name@, l.1 + 1)
}

/// Whether `out` reports the blocks `blocks` of `files`.
pub open spec fn reports(out: Seq<(String, Vec<(String, u32)>)>, blocks: Seq<BlockView>, files: Seq<FileEntry>) -> bool {
    &&& out.len() == blocks.len()
    &&& forall|i: int|
        0 <= i < out.len() ==> {
            &&& (#[trigger] out[i]).0@ == blocks[i].0
            &&& out[i].1@.len() == blocks[i].1.len()
            &&& forall|j: int|
                0 <= j < out[i].1@.len() ==> ((#[trigger] out[i].1@[j]).0@, out[i].1@[j].1 as int) == reported(
                    files,
                    blocks[i].1[j],
                )
        }
}

/// Whether accepted blocks share no line of a file (files told apart by
/// their index), and each holds at least two locations, once each, in
/// increasing (file, line) order.
pub open spec fn accepted_well(blocks: Seq<BlockView>) -> bool {
    &&& forall|b: int| 0 <= b < blocks.len() ==> (#[trigger] blocks[b]).1.len() >= 2 && locs_sorted(blocks[b].1)
    &&& forall|b1: int, b2: int|
        0 <= b1 < blocks.len() && 0 <= b2 < blocks.len() && b1 != b2 ==> disjoint_blocks(
            #[trigger] blocks[b1],
            #[trigger] blocks[b2],
        )
}

/// Whether the files' names are distinct.
pub open spec fn distinct_names(files: Seq<FileEntry>) -> bool {
    forall|a: int, b: int| 0 <= a < b < files.len() ==> (#[trigger] files[a]).name@ != (#[trigger] files[b]).name@
}

/// Whether no line of a file lies in two reported blocks.
pub open spec fn no_shared_lines(out: Seq<(String, Vec<(String, u32)>)>) -> bool {
    forall|b1: int, b2: int, i: int, j: int|
        0 <= b1 < out.len() && 0 <= b2 < out.len() && b1 != b2 && 0 <= i < out[b1].1@.len() && 0 <= j
            < out[b2].1@.len() && (#[trigger] out[b1].1@[i]).0@ == (#[trigger] out[b2].1@[j]).0@ ==> {
            ||| out[b1].1@[i].1 + line_count(out[b1].0@) <= out[b2].1@[j].1
            ||| out[b2].1@[j].1 + line_count(out[b2].0@) <= out[b1].1@[i].1
        }
}

/// Whether `p` holds the lines of `file`, which hold no `'\n'`, and
/// their trimmed forms.
pub open spec fn file_prepared(file: FileEntry, p: (Vec<Vec<char>>, Vec<Vec<char>>)) -> bool {
    &&& views(p.0@) == lines_of(file.text())
    &&& p.1@.len() == p.0@.len()
    &&& forall|x: int| 0 <= x < p.0@.len() ==> (#[trigger] p.1@[x])@ == trim(p.0@[x]@) && no_newline(p.0@[x]@)
}

/// The lines of a file and their trimmed forms.
pub fn prepare_file(file: &FileEntry) -> (r: (Vec<Vec<char>>, Vec<Vec<char>>))
    ensures
        file_prepared(*file, r),
{
    let chars: Vec<char> = match file.content.as_str() {
        Some(s) => chars_of(s),
        None => Vec::new(),
    };
    let ls = split_into_lines(&chars);
    proof {
        lemma_lines_no_newline(chars@);
    }
    let mut ts: Vec<Vec<char>> = Vec::new();
    let mut i: usize = 0;
    while i < ls.len()
        invariant
            i <= ls.len(),
            ts@.len() == i,
            forall|x: int| 0 <= x < i ==> (#[trigger] ts@[x])@ == trim(ls@[x]@),
        decreases ls.len() - i,
    {
        ts.push(trim_chars(&ls[i]));
        i = i + 1;
    }
    proof {
        assert forall|x: int| 0 <= x < ls@.len() implies no_newline(ls@[x]@) by {
            assert(views(ls@)[x] == ls@[x]@);
        }
    }
    (ls, ts)
}

proof fn lemma_prepared_push(
    lines: Seq<Vec<Vec<char>>>,
    trimmed: Seq<Vec<Vec<char>>>,
    ls: Vec<Vec<char>>,
    ts: Vec<Vec<char>>,
    file: FileEntry,
)
    requires
        prepared(lines, trimmed),
        file_prepared(file, (ls, ts)),
    ensures
        prepared(lines.push(ls), trimmed.push(ts)),
{
    let l1 = lines.push(ls);
    let t1 = trimmed.push(ts);
    assert forall|h: int| 0 <= h < l1.len() implies (#[trigger] t1[h]).len() == l1[h].len() by {
        if h < lines.len() {
            assert(l1[h] == lines[h]);
            assert(t1[h] == trimmed[h]);
        }
    }
    assert forall|h: int, x: int| 0 <= h < l1.len() && 0 <= x < l1[h].len() implies (#[trigger] t1[h]@[x])@ == trim(
        l1[h]@[x]@,
    ) && no_newline(l1[h]@[x]@) by {
        if h < lines.len() {
            assert(l1[h] == lines[h]);
            assert(t1[h] == trimmed[h]);
        } else {
            assert(l1[h] == ls);
            assert(t1[h] == ts);
            assert(ts@[x]@ == trim(ls@[x]@));
        }
    }
}

/// Relies on rayon's indexed parallel iterators: `collect_into_vec` puts at
/// position `g` what the closure returned for file `g`, and the closure is
/// the verified `prepare_file`.
#[verifier::external_body]
fn prepare_in_parallel(files: &Vec<FileEntry>) -> (r: Vec<(Vec<Vec<char>>, Vec<Vec<char>>)>)
    ensures
        r@.len() == files@.len(),
        forall|g: int| 0 <= g < r@.len() ==> file_prepared(files@[g], #[trigger] r@[g]),
{
    let mut r = Vec::new();
    files.par_iter().map(|f| prepare_file(f)).collect_into_vec(&mut r);
    r
}

/// The lines of each file and their trimmed forms.
fn prepare_files(files: &Vec<FileEntry>) -> (r: (Vec<Vec<Vec<char>>>, Vec<Vec<Vec<char>>>))
    ensures
        prepared(r.0@, r.1@),
        corpus_of(r.0@) == corpus_files(files@),
{
    let mut parts = prepare_in_parallel(files);
    let ghost all = parts@;
    assert(files@.len() == files.len());
    let mut lines: Vec<Vec<Vec<char>>> = Vec::new();
    let mut trimmed: Vec<Vec<Vec<char>>> = Vec::new();
    let mut g: usize = 0;
    while parts.len() > 0
        invariant
            g + parts@.len() == files@.len(),
            files@.len() <= usize::MAX,
            all.len() == files@.len(),
            parts@ == all.subrange(g as int, all.len() as int),
            forall|h: int| 0 <= h < all.len() ==> file_prepared(files@[h], #[trigger] all[h]),
            lines@.len() == g,
            prepared(lines@, trimmed@),
            forall|h: int| 0 <= h < g ==> views((#[trigger] lines@[h])@) == lines_of(files@[h].text()),
        decreases parts@.len(),
    {
        let (ls, ts) = parts.remove(0);
        assert(all[g as int] == (ls, ts));
        assert(file_prepared(files@[g as int], (ls, ts)));
        let ghost l0 = lines@;
        let ghost t0 = trimmed@;
        lines.push(ls);
        trimmed.push(ts);
        proof {
            assert(parts@ =~= all.subrange(g + 1, all.len() as int));
            lemma_prepared_push(l0, t0, all[g as int].0, all[g as int].1, files@[g as int]);
            assert(lines@ == l0.push(all[g as int].0));
            assert(trimmed@ == t0.push(all[g as int].1));
            assert forall|h: int| 0 <= h <= g implies views((#[trigger] lines@[h])@) == lines_of(files@[h].text()) by {
                if h < g {
                    assert(lines@[h] == l0[h]);
                }
            }
        }
        g = g + 1;
    }
    proof {
        assert(corpus_of(lines@) =~= corpus_files(files@));
    }
    (lines, trimmed)
}

/// Whether `v` holds exactly the candidate blocks that start in file `f`.
pub open spec fn expansion_of(lines: Seq<Vec<Vec<char>>>, f: int, v: Seq<Candidate>) -> bool {
    &&& tidy(v)
    &&& heights_ok(v)
    &&& forall|t: Seq<char>, l: Loc|
        #[trigger] holds(v, t, l) <==> exists|a: Loc, b: Loc| a.0 == f && #[trigger] yields(
            corpus_of(lines),
            a,
            b,
            t,
            l,
        )
}

/// Relies on rayon's indexed parallel iterators: `collect_into_vec` puts at
/// position `f` what the closure returned for `f`, and the closure is the
/// verified `expand_file`.
#[verifier::external_body]
fn expand_files(
    lines: &Vec<Vec<Vec<char>>>,
    trimmed: &Vec<Vec<Vec<char>>>,
    index: &Vec<Candidate>,
) -> (r: Vec<Vec<Candidate>>)
    requires
        prepared(lines@, trimmed@),
        indexes(index@, corpus_of(lines@)),
    ensures
        r@.len() == lines@.len(),
        forall|f: int| 0 <= f < r@.len() ==> expansion_of(lines@, f, #[trigger] r@[f]@),
{
    let mut r = Vec::new();
    (0..lines.len()).into_par_iter().map(|f| expand_file(lines, trimmed, index, f)).collect_into_vec(&mut r);
    r
}

/// Adds every location of `local` to `v` under its text.
fn merge_groups(v: &mut Vec<Candidate>, local: &Vec<Candidate>)
    requires
        tidy(old(v)@),
        heights_ok(old(v)@),
        heights_ok(local@),
    ensures
        tidy(final(v)@),
        heights_ok(final(v)@),
        forall|t: Seq<char>, l: Loc|
            #[trigger] holds(final(v)@, t, l) <==> (holds(old(v)@, t, l) || holds(local@, t, l)),
{
    let ghost v0 = v@;
    let mut k: usize = 0;
    while k < local.len()
        invariant
            k <= local.len(),
            tidy(v@),
            heights_ok(v@),
            heights_ok(local@),
            forall|t: Seq<char>, l: Loc|
                #[trigger] holds(v@, t, l) <==> (holds(v0, t, l) || holds(local@.subrange(0, k as int), t, l)),
        decreases local.len() - k,
    {
        let e = &local[k];
        assert(e.height == line_count(e.text@));
        let mut j: usize = 0;
        while j < e.locs.len()
            invariant
                k < local.len(),
                e == &local@[k as int],
                e.height == line_count(e.text@),
                j <= e.locs.len(),
                tidy(v@),
                heights_ok(v@),
                forall|t: Seq<char>, l: Loc|
                    #[trigger] holds(v@, t, l) <==> (holds(v0, t, l) || holds(local@.subrange(0, k as int), t, l)
                        || (t == e.text@ && e.locs@.subrange(0, j as int).contains(l))),
            decreases e.locs.len() - j,
        {
            let ghost before = v@;
            add_loc(v, &e.text, e.height, e.locs[j]);
            proof {
                assert forall|t: Seq<char>, l: Loc|
                    #[trigger] holds(v@, t, l) <==> (holds(v0, t, l) || holds(local@.subrange(0, k as int), t, l)
                        || (t == e.text@ && e.locs@.subrange(0, j + 1).contains(l))) by {
                    let s0 = e.locs@.subrange(0, j as int);
                    let s1 = e.locs@.subrange(0, j + 1);
                    if s0.contains(l) {
                        let m = choose|m: int| 0 <= m < s0.len() && s0[m] == l;
                        assert(s1[m] == l);
                    }
                    if s1.contains(l) {
                        let m = choose|m: int| 0 <= m < s1.len() && s1[m] == l;
                        if m < j {
                            assert(s0[m] == l);
                        }
                    }
                    assert(s1[j as int] == e.locs@[j as int]);
                }
            }
            j = j + 1;
        }
        proof {
            assert(e.locs@.subrange(0, e.locs.len() as int) =~= e.locs@);
            assert forall|t: Seq<char>, l: Loc|
                #[trigger] holds(v@, t, l) <==> (holds(v0, t, l) || holds(local@.subrange(0, k + 1), t, l)) by {
                let pre = local@.subrange(0, k as int);
                let post = local@.subrange(0, k + 1);
                if holds(pre, t, l) {
                    let i = choose|i: int| 0 <= i < pre.len() && pre[i].text@ == t && (#[trigger] pre[i].locs@).contains(l);
                    assert(post[i] == pre[i]);
                }
                if holds(post, t, l) {
                    let i = choose|i: int| 0 <= i < post.len() && post[i].text@ == t && (#[trigger] post[i].locs@).contains(l);
                    if i < k {
                        assert(pre[i] == post[i]);
                        assert(pre[i].locs@.contains(l));
                        assert(holds(pre, t, l));
                    } else {
                        assert(post[i] == *e);
                    }
                }
                if t == e.text@ && e.locs@.contains(l) {
                    assert(post[k as int] == *e);
                    assert(post[k as int].locs@.contains(l));
                    assert(holds(post, t, l));
                }
            }
        }
        k = k + 1;
    }
    proof {
        assert(local@.subrange(0, local.len() as int) =~= local@);
    }
}

proof fn lemma_common_run_bound(x: Seq<Seq<char>>, y: Seq<Seq<char>>)
    ensures
        common_run(x, y) <= x.len(),
        common_run(x, y) <= y.len(),
    decreases x.len(),
{
    if x.len() > 0 && y.len() > 0 && trim(x[0]) == trim(y[0]) {
        lemma_common_run_bound(x.drop_first(), y.drop_first());
    }
}

/// A candidate block at `l` lies inside `l`'s file, and its text has as
/// many lines as the block.
proof fn lemma_candidate_placed(c: Corpus, a: Loc, b: Loc, t: Seq<char>, l: Loc)
    requires
        yields(c, a, b, t, l),
        forall|g: int, x: int| 0 <= g < c.len() && 0 <= x < c[g].len() ==> no_newline(#[trigger] c[g][x]),
    ensures
        l.0 < c.len(),
        l.1 + line_count(t) <= c[l.0 as int].len(),
        line_count(t) == match_len(c, a, b),
{
    let k = match_len(c, a, b);
    let x = c[a.0 as int].subrange(a.1 as int, c[a.0 as int].len() as int);
    let y = c[b.0 as int].subrange(b.1 as int, c[b.0 as int].len() as int);
    lemma_common_run_bound(x, y);
    assert(x[0] == c[a.0 as int][a.1 as int]);
    assert(y[0] == c[b.0 as int][b.1 as int]);
    assert(k >= 1);
    let ls = c[a.0 as int].subrange(a.1 as int, a.1 + k);
    assert forall|q: int| 0 <= q < ls.len() implies no_newline(#[trigger] ls[q]) by {
        assert(ls[q] == c[a.0 as int][a.1 + q]);
    }
    lemma_normalize_line_count(ls);
}

/// Each entry of `v` with its locations in increasing (file, line) order.
fn sort_candidate_locs(v: &Vec<Candidate>) -> (r: Vec<Candidate>)
    ensures
        r@.len() == v@.len(),
        forall|i: int| 0 <= i < v@.len() ==> {
            &&& (#[trigger] r@[i]).text@ == v@[i].text@
            &&& r@[i].height == v@[i].height
            &&& locs_sorted(r@[i].locs@)
            &&& r@[i].locs@.no_duplicates()
            &&& forall|l: Loc| #[trigger] r@[i].locs@.contains(l) <==> v@[i].locs@.contains(l)
        },
{
    let mut r: Vec<Candidate> = Vec::new();
    let mut i: usize = 0;
    while i < v.len()
        invariant
            i <= v.len(),
            r@.len() == i,
            forall|k: int| 0 <= k < i ==> {
                &&& (#[trigger] r@[k]).text@ == v@[k].text@
                &&& r@[k].height == v@[k].height
                &&& locs_sorted(r@[k].locs@)
                &&& r@[k].locs@.no_duplicates()
                &&& forall|l: Loc| #[trigger] r@[k].locs@.contains(l) <==> v@[k].locs@.contains(l)
            },
        decreases v.len() - i,
    {
        let e = &v[i];
        let text = crate::text::slice_chars(&e.text, 0, e.text.len());
        proof {
            assert(text@ =~= e.text@);
        }
        r.push(Candidate { text, height: e.height, locs: sort_locs(&e.locs) });
        i = i + 1;
    }
    r
}

/// Entries with the same texts, heights and sets of locations, held once
/// each, keep the properties that the detection relies on.
proof fn lemma_same_entries(v: Seq<Candidate>, r: Seq<Candidate>)
    requires
        tidy(v),
        ranked(v),
        heights_ok(v),
        r.len() == v.len(),
        forall|i: int| 0 <= i < v.len() ==> {
            &&& (#[trigger] r[i]).text@ == v[i].text@
            &&& r[i].height == v[i].height
            &&& locs_sorted(r[i].locs@)
            &&& r[i].locs@.no_duplicates()
            &&& forall|l: Loc| #[trigger] r[i].locs@.contains(l) <==> v[i].locs@.contains(l)
        },
    ensures
        tidy(r),
        ranked(r),
        heights_ok(r),
        forall|i: int| 0 <= i < r.len() ==> locs_sorted((#[trigger] r[i]).locs@),
        forall|t: Seq<char>, l: Loc| #[trigger] holds(r, t, l) == holds(v, t, l),
{
    assert forall|i: int, j: int| 0 <= i < j < r.len() implies (#[trigger] r[i]).text@ != (#[trigger] r[j]).text@ by {
        assert(v[i].text@ != v[j].text@);
    }
    assert forall|i: int| 0 <= i < r.len() implies (#[trigger] r[i]).locs@.no_duplicates() && r[i].locs@.len() > 0 by {
        assert(v[i].locs@.contains(v[i].locs@[0]));
        assert(r[i].locs@.contains(v[i].locs@[0]));
    }
    assert forall|i: int, j: int| 0 <= i < j < r.len() implies crate::rank::ranks_before((#[trigger] r[i]).text@, (#[trigger] r[j]).text@) by {
        assert(crate::rank::ranks_before(v[i].text@, v[j].text@));
    }
    assert forall|i: int| 0 <= i < r.len() implies (#[trigger] r[i]).height == line_count(r[i].text@) by {
        assert(v[i].height == line_count(v[i].text@));
    }
    assert forall|t: Seq<char>, l: Loc| #[trigger] holds(r, t, l) == holds(v, t, l) by {
        if holds(r, t, l) {
            let i = choose|i: int| 0 <= i < r.len() && r[i].text@ == t && (#[trigger] r[i].locs@).contains(l);
            assert(v[i].locs@.contains(l));
        }
        if holds(v, t, l) {
            let i = choose|i: int| 0 <= i < v.len() && v[i].text@ == t && (#[trigger] v[i].locs@).contains(l);
            assert(r[i].locs@.contains(l));
        }
    }
}

/// The views of `v`'s blocks list the candidates of `c`, in ranking order.
proof fn lemma_ranking(v: Seq<Candidate>, c: Corpus)
    requires
        tidy(v),
        ranked(v),
        forall|i: int| 0 <= i < v.len() ==> locs_sorted((#[trigger] v[i]).locs@),
        forall|t: Seq<char>, l: Loc| #[trigger] holds(v, t, l) <==> is_candidate(c, t, l),
    ensures
        ranking_of(block_views(v), c),
{
    let bv = block_views(v);
    assert forall|t: Seq<char>, l: Loc|
        (exists|i: int| 0 <= i < bv.len() && bv[i].0 == t && (#[trigger] bv[i].1).contains(l))
            <==> #[trigger] is_candidate(c, t, l) by {
        if exists|i: int| 0 <= i < bv.len() && bv[i].0 == t && (#[trigger] bv[i].1).contains(l) {
            let i = choose|i: int| 0 <= i < bv.len() && bv[i].0 == t && (#[trigger] bv[i].1).contains(l);
            assert(v[i].locs@.contains(l));
            assert(holds(v, t, l));
        }
        if is_candidate(c, t, l) {
            assert(holds(v, t, l));
            let i = choose|i: int| 0 <= i < v.len() && v[i].text@ == t && (#[trigger] v[i].locs@).contains(l);
            assert(bv[i].1.contains(l));
        }
    }
    assert forall|i: int, j: int| 0 <= i < j < bv.len() implies ranks_before((#[trigger] bv[i]).0, (#[trigger] bv[j]).0) by {
        assert(ranks_before(v[i].text@, v[j].text@));
    }
}

/// Every duplicated block of lines across `files`, and within a file: the
/// candidate blocks are ranked (more non-blank lines first, then longer
/// texts) and accepted in turn with the locations that no block accepted
/// before overlaps, where at least two such locations are left.
pub fn find_multi_line_duplications(files: Vec<FileEntry>) -> (r: Vec<(String, Vec<(String, u32)>)>)
    requires
        numbered(files@),
    ensures
        exists|ranked: Seq<BlockView>|
            ranking_of(ranked, corpus_files(files@)) && reports(r@, resolve(ranked), files@) && accepted_well(
                resolve(ranked),
            ),
        forall|b: int| 0 <= b < r@.len() ==> (#[trigger] r@[b]).1@.len() >= 2,
        distinct_names(files@) ==> no_shared_lines(r@),
{
    let (lines, trimmed) = prepare_files(&files);
    let ghost c = corpus_of(lines@);
    let index = index_lines(&lines, &trimmed);
    let locals = expand_files(&lines, &trimmed, &index);
    let mut all: Vec<Candidate> = Vec::new();
    let mut f: usize = 0;
    while f < locals.len()
        invariant
            f <= locals.len(),
            locals@.len() == lines@.len(),
            c == corpus_of(lines@),
            prepared(lines@, trimmed@),
            c == corpus_files(files@),
            forall|g: int| 0 <= g < locals@.len() ==> expansion_of(lines@, g, #[trigger] locals@[g]@),
            tidy(all@),
            heights_ok(all@),
            forall|t: Seq<char>, l: Loc|
                #[trigger] holds(all@, t, l) <==> exists|a: Loc, b: Loc| a.0 < f && #[trigger] yields(c, a, b, t, l),
        decreases locals.len() - f,
    {
        assert(expansion_of(lines@, f as int, locals@[f as int]@));
        merge_groups(&mut all, &locals[f]);
        proof {
            assert forall|t: Seq<char>, l: Loc|
                #[trigger] holds(all@, t, l) <==> exists|a: Loc, b: Loc| a.0 < f + 1 && #[trigger] yields(c, a, b, t, l) by {
                if exists|a: Loc, b: Loc| a.0 < f + 1 && #[trigger] yields(c, a, b, t, l) {
                    let (a, b) = choose|a: Loc, b: Loc| a.0 < f + 1 && #[trigger] yields(c, a, b, t, l);
                    if a.0 == f {
                        assert(holds(locals@[f as int]@, t, l));
                    }
                }
            }
        }
        f = f + 1;
    }
    proof {
        assert forall|t: Seq<char>, l: Loc| #[trigger] holds(all@, t, l) <==> is_candidate(c, t, l) by {
            if is_candidate(c, t, l) {
                let (a, b) = choose|a: Loc, b: Loc| #[trigger] yields(c, a, b, t, l);
                assert(a.0 < lines@.len());
            }
        }
    }
    let ranked_cands = rank_candidates(all);
    let cands = sort_candidate_locs(&ranked_cands);
    proof {
        lemma_same_entries(ranked_cands@, cands@);
    }
    let mut file_lens: Vec<usize> = Vec::new();
    let mut g: usize = 0;
    while g < lines.len()
        invariant
            g <= lines.len(),
            file_lens@.len() == g,
            forall|h: int| 0 <= h < g ==> file_lens@[h] == (#[trigger] lines@[h])@.len(),
            prepared(lines@, trimmed@),
            c == corpus_of(lines@),
            c == corpus_files(files@),
        decreases lines.len() - g,
    {
        file_lens.push(lines[g].len());
        g = g + 1;
    }
    proof {
        assert forall|h: int, x: int| 0 <= h < c.len() && 0 <= x < c[h].len() implies no_newline(#[trigger] c[h][x]) by {
            assert(c[h] == views(lines@[h]@));
            assert(c[h][x] == lines@[h]@[x]@);
            assert(trimmed@[h]@[x]@ == trim(lines@[h]@[x]@));
        }
        assert forall|h: int| 0 <= h < file_lens@.len() implies file_lens@[h] == lines_of((#[trigger] files@[h]).text()).len() by {
            assert(c[h] == views(lines@[h]@));
        }
        assert forall|i: int| 0 <= i < cands@.len() implies {
            &&& (#[trigger] cands@[i]).height == line_count(cands@[i].text@)
            &&& forall|j: int|
                0 <= j < cands@[i].locs.len() ==> (#[trigger] cands@[i].locs@[j]).0 < file_lens@.len()
                    && cands@[i].locs@[j].1 + cands@[i].height <= file_lens@[cands@[i].locs@[j].0 as int]
        } by {
            assert forall|j: int| 0 <= j < cands@[i].locs.len() implies (#[trigger] cands@[i].locs@[j]).0
                < file_lens@.len() && cands@[i].locs@[j].1 + cands@[i].height <= file_lens@[cands@[i].locs@[j].0 as int] by {
                let l = cands@[i].locs@[j];
                let t = cands@[i].text@;
                assert(holds(cands@, t, l));
                assert(is_candidate(c, t, l));
                let (a, b) = choose|a: Loc, b: Loc| #[trigger] yields(c, a, b, t, l);
                lemma_candidate_placed(c, a, b, t, l);
            }
        }
        lemma_ranking(cands@, c);
    }
    let accepted = resolve_overlaps(&cands, &file_lens);
    let ghost blocks = block_views(accepted@);
    proof {
        lemma_resolve_sound(block_views(cands@));
    }
    proof {
        assert forall|h: int| 0 <= h < file_lens@.len() implies file_lens@[h] == lines_of((#[trigger] files@[h]).text()).len() by {
            assert(c[h] == views(lines@[h]@));
        }
        assert forall|i: int, j: int| 0 <= i < accepted@.len() && 0 <= j < accepted@[i].locs@.len() implies
            (#[trigger] accepted@[i].locs@[j]).0 < files@.len() && accepted@[i].locs@[j].1 < lines_of(files@[accepted@[i].locs@[j].0 as int].text()).len() by {
            assert(accepted@[i].height == line_count(accepted@[i].text@));
        }
    }
    let out = report_blocks(&accepted, &files);
    proof {
        let rk = block_views(cands@);
        lemma_resolve_sorted(rk);
        assert(ranking_of(rk, corpus_files(files@)));
        assert(reports(out@, resolve(rk), files@));
        if distinct_names(files@) {
            assert forall|b1: int, b2: int, i: int, j: int|
                0 <= b1 < out@.len() && 0 <= b2 < out@.len() && b1 != b2 && 0 <= i < out@[b1].1@.len() && 0 <= j
                    < out@[b2].1@.len() && (#[trigger] out@[b1].1@[i]).0@ == (#[trigger] out@[b2].1@[j]).0@ implies {
                ||| out@[b1].1@[i].1 + line_count(out@[b1].0@) <= out@[b2].1@[j].1
                ||| out@[b2].1@[j].1 + line_count(out@[b2].0@) <= out@[b1].1@[i].1
            } by {
                let l1 = blocks[b1].1[i];
                let l2 = blocks[b2].1[j];
                assert(reported(files@, l1).0 == reported(files@, l2).0);
                assert(l1.0 == l2.0);
                assert(disjoint_blocks(blocks[b1], blocks[b2]));
                let x: int = if l1.1 >= l2.1 { l1.1 as int } else { l2.1 as int };
                assert(!(crate::overlap::covers(l1, line_count(blocks[b1].0), l1.0 as int, x)
                    && crate::overlap::covers(l2, line_count(blocks[b2].0), l1.0 as int, x)));
            }
        }
    }
    out
}

/// Whether line `l` of `c`, trimmed, is `t` and longer than five
/// characters.
pub open spec fn long_line_at(c: Corpus, t: Seq<char>, l: Loc) -> bool {
    valid_loc(c, l) && trim(crate::blocks::line_at(c, l)) == t && t.len() > 5
}

/// Whether `dups` lists each trimmed line longer than five characters that
/// occurs at two or more locations of `c`, once, with all of its locations
/// once each in increasing (file, line) order; longer texts, counted in
/// UTF-8 bytes, come first.
pub open spec fn line_dups_of(dups: Seq<BlockView>, c: Corpus) -> bool {
    &&& forall|i: int, j: int| 0 <= i < j < dups.len() ==> byte_len((#[trigger] dups[i]).0) >= byte_len((#[trigger] dups[j]).0)
    &&& forall|i: int, j: int| 0 <= i < j < dups.len() ==> (#[trigger] dups[i]).0 != (#[trigger] dups[j]).0
    &&& forall|i: int| 0 <= i < dups.len() ==> (#[trigger] dups[i]).1.no_duplicates() && dups[i].1.len() >= 2
    &&& forall|i: int| 0 <= i < dups.len() ==> locs_sorted((#[trigger] dups[i]).1)
    &&& forall|i: int, l: Loc| 0 <= i < dups.len() ==> (#[trigger] dups[i].1.contains(l) <==> long_line_at(c, dups[i].0, l))
    &&& forall|t: Seq<char>, l1: Loc, l2: Loc|
        l1 != l2 && #[trigger] long_line_at(c, t, l1) && #[trigger] long_line_at(c, t, l2) ==> exists|i: int|
            0 <= i < dups.len() && (#[trigger] dups[i]).0 == t
}

/// On the single-line path every reported text is a trimmed line longer
/// than five characters, and a trimmed line longer than five characters found at two
/// locations is reported exactly once, with both locations.
pub proof fn lemma_single_line_reports(dups: Seq<BlockView>, c: Corpus, t: Seq<char>, l1: Loc, l2: Loc)
    requires
        line_dups_of(dups, c),
    ensures
        forall|i: int| 0 <= i < dups.len() ==> (#[trigger] dups[i]).0.len() > 5 && trim(dups[i].0) == dups[i].0,
        l1 != l2 && long_line_at(c, t, l1) && long_line_at(c, t, l2) ==> exists|i: int|
            0 <= i < dups.len() && (#[trigger] dups[i]).0 == t && dups[i].1.contains(l1) && dups[i].1.contains(l2)
                && forall|j: int| 0 <= j < dups.len() && j != i ==> (#[trigger] dups[j]).0 != t,
{
    assert forall|i: int| 0 <= i < dups.len() implies (#[trigger] dups[i]).0.len() > 5 && trim(dups[i].0) == dups[i].0 by {
        let l = dups[i].1[0];
        assert(dups[i].1.contains(l));
        crate::text::lemma_trim_idempotent(crate::blocks::line_at(c, l));
    }
    if l1 != l2 && long_line_at(c, t, l1) && long_line_at(c, t, l2) {
        let i = choose|i: int| 0 <= i < dups.len() && (#[trigger] dups[i]).0 == t;
        assert(dups[i].1.contains(l1));
        assert(dups[i].1.contains(l2));
        assert forall|j: int| 0 <= j < dups.len() && j != i implies (#[trigger] dups[j]).0 != t by {
            if j < i {
                assert(dups[j].0 != dups[i].0);
            } else {
                assert(dups[i].0 != dups[j].0);
            }
        }
    }
}

/// Whether `kv`, longest text (in UTF-8 bytes) first, holds the groups among the first `k`
/// of `gv` that have two or more locations.
pub open spec fn kept_from(kv: Seq<BlockView>, gv: Seq<BlockView>, k: int) -> bool {
    &&& forall|i: int, j: int| 0 <= i < j < kv.len() ==> byte_len((#[trigger] kv[i]).0) >= byte_len((#[trigger] kv[j]).0)
    &&& drawn_from(kv, gv, k)
    &&& keeps_all(kv, gv, k)
    &&& forall|i: int| 0 <= i < kv.len() ==> (#[trigger] kv[i]).1.len() >= 2
    &&& forall|i: int, j: int| 0 <= i < j < kv.len() ==> (#[trigger] kv[i]).0 != (#[trigger] kv[j]).0
}

/// Whether each entry of `kv` is one of the first `k` of `gv`.
#[verifier::opaque]
pub open spec fn drawn_from(kv: Seq<BlockView>, gv: Seq<BlockView>, k: int) -> bool {
    forall|i: int| 0 <= i < kv.len() ==> exists|j: int| 0 <= j < k && #[trigger] gv[j] == #[trigger] kv[i]
}

/// Whether each of the first `k` of `gv` with two or more locations is in
/// `kv`.
#[verifier::opaque]
pub open spec fn keeps_all(kv: Seq<BlockView>, gv: Seq<BlockView>, k: int) -> bool {
    forall|j: int| 0 <= j < k && (#[trigger] gv[j]).1.len() >= 2 ==> exists|i: int| 0 <= i < kv.len() && kv[i] == gv[j]
}

proof fn lemma_kept_skip(gv: Seq<BlockView>, k: int, kv: Seq<BlockView>)
    requires
        0 <= k < gv.len(),
        gv[k].1.len() < 2,
        kept_from(kv, gv, k),
    ensures
        kept_from(kv, gv, k + 1),
{
    reveal(drawn_from);
    reveal(keeps_all);
    assert forall|i: int| 0 <= i < kv.len() implies exists|j: int| 0 <= j < k + 1 && #[trigger] gv[j] == #[trigger] kv[i] by {
        let j = choose|j: int| 0 <= j < k && #[trigger] gv[j] == #[trigger] kv[i];
    }
}

proof fn lemma_kept_insert_order(e: BlockView, k0: Seq<BlockView>, p: int, kv: Seq<BlockView>)
    requires
        e.1.len() >= 2,
        forall|i: int, j: int| 0 <= i < j < k0.len() ==> byte_len((#[trigger] k0[i]).0) >= byte_len((#[trigger] k0[j]).0),
        forall|i: int| 0 <= i < k0.len() ==> (#[trigger] k0[i]).1.len() >= 2,
        forall|i: int, j: int| 0 <= i < j < k0.len() ==> (#[trigger] k0[i]).0 != (#[trigger] k0[j]).0,
        forall|i: int| 0 <= i < k0.len() ==> (#[trigger] k0[i]).0 != e.0,
        0 <= p <= k0.len(),
        forall|q: int| 0 <= q < p ==> byte_len((#[trigger] k0[q]).0) >= byte_len(e.0),
        p < k0.len() ==> byte_len(k0[p].0) < byte_len(e.0),
        kv == k0.insert(p, e),
    ensures
        forall|i: int, j: int| 0 <= i < j < kv.len() ==> byte_len((#[trigger] kv[i]).0) >= byte_len((#[trigger] kv[j]).0),
        forall|i: int| 0 <= i < kv.len() ==> (#[trigger] kv[i]).1.len() >= 2,
        forall|i: int, j: int| 0 <= i < j < kv.len() ==> (#[trigger] kv[i]).0 != (#[trigger] kv[j]).0,
{
    assert forall|i: int, j: int| 0 <= i < j < kv.len() implies byte_len((#[trigger] kv[i]).0) >= byte_len((#[trigger] kv[j]).0)
        && kv[i].0 != kv[j].0 by {
        if j < p {
            assert(kv[i] == k0[i]);
            assert(kv[j] == k0[j]);
        } else if j == p {
            assert(kv[i] == k0[i]);
        } else if i < p {
            assert(kv[i] == k0[i]);
            assert(kv[j] == k0[j - 1]);
        } else if i == p {
            assert(kv[j] == k0[j - 1]);
        } else {
            assert(kv[i] == k0[i - 1]);
            assert(kv[j] == k0[j - 1]);
        }
    }
    assert forall|i: int| 0 <= i < kv.len() implies (#[trigger] kv[i]).1.len() >= 2 by {
        if i < p {
            assert(kv[i] == k0[i]);
        } else if i > p {
            assert(kv[i] == k0[i - 1]);
        }
    }
}

proof fn lemma_kept_insert_members(gv: Seq<BlockView>, k: int, k0: Seq<BlockView>, p: int, kv: Seq<BlockView>)
    requires
        0 <= k < gv.len(),
        drawn_from(k0, gv, k),
        keeps_all(k0, gv, k),
        0 <= p <= k0.len(),
        kv == k0.insert(p, gv[k]),
    ensures
        drawn_from(kv, gv, k + 1),
        keeps_all(kv, gv, k + 1),
{
    reveal(drawn_from);
    reveal(keeps_all);
    assert forall|i: int| 0 <= i < kv.len() implies exists|j: int| 0 <= j < k + 1 && #[trigger] gv[j] == #[trigger] kv[i] by {
        if i < p {
            assert(kv[i] == k0[i]);
            let j = choose|j: int| 0 <= j < k && #[trigger] gv[j] == #[trigger] k0[i];
        } else if i == p {
            assert(gv[k] == kv[i]);
        } else {
            assert(kv[i] == k0[i - 1]);
            let j = choose|j: int| 0 <= j < k && #[trigger] gv[j] == #[trigger] k0[i - 1];
        }
    }
    assert forall|j: int| 0 <= j < k + 1 && (#[trigger] gv[j]).1.len() >= 2 implies exists|i: int| 0 <= i < kv.len() && kv[i] == gv[j] by {
        if j == k {
            assert(kv[p] == gv[j]);
        } else {
            let i = choose|i: int| 0 <= i < k0.len() && k0[i] == gv[j];
            if i < p {
                assert(kv[i] == k0[i]);
            } else {
                assert(kv[i + 1] == k0[i]);
            }
        }
    }
}

proof fn lemma_kept_insert(gv: Seq<BlockView>, k: int, k0: Seq<BlockView>, p: int, kv: Seq<BlockView>)
    requires
        0 <= k < gv.len(),
        gv[k].1.len() >= 2,
        forall|a: int, b: int| 0 <= a < b < gv.len() ==> (#[trigger] gv[a]).0 != (#[trigger] gv[b]).0,
        kept_from(k0, gv, k),
        0 <= p <= k0.len(),
        forall|q: int| 0 <= q < p ==> byte_len((#[trigger] k0[q]).0) >= byte_len(gv[k].0),
        p < k0.len() ==> byte_len(k0[p].0) < byte_len(gv[k].0),
        kv == k0.insert(p, gv[k]),
    ensures
        kept_from(kv, gv, k + 1),
{
    assert forall|i: int| 0 <= i < k0.len() implies (#[trigger] k0[i]).0 != gv[k].0 by {
        reveal(drawn_from);
        let j = choose|j: int| 0 <= j < k && #[trigger] gv[j] == #[trigger] k0[i];
        assert(gv[j].0 != gv[k].0);
    }
    lemma_kept_insert_order(gv[k], k0, p, kv);
    lemma_kept_insert_members(gv, k, k0, p, kv);
}

/// Groups the trimmed lines longer than five characters by their text.
fn group_long_lines(lines: &Vec<Vec<Vec<char>>>, trimmed: &Vec<Vec<Vec<char>>>) -> (g: Vec<Candidate>)
    requires
        prepared(lines@, trimmed@),
    ensures
        tidy(g@),
        forall|t: Seq<char>, l: Loc| #[trigger] holds(g@, t, l) <==> long_line_at(corpus_of(lines@), t, l),
        forall|i: int| 0 <= i < g@.len() ==> locs_sorted((#[trigger] g@[i]).locs@),
{
    let ghost c = corpus_of(lines@);
    let mut g: Vec<Candidate> = Vec::new();
    let mut f: usize = 0;
    while f < lines.len()
        invariant
            f <= lines.len(),
            prepared(lines@, trimmed@),
            c == corpus_of(lines@),
            tidy(g@),
            forall|t: Seq<char>, l: Loc| #[trigger] holds(g@, t, l) <==> (long_line_at(c, t, l) && l.0 < f),
            sorted_below(g@, (f, 0)),
        decreases lines.len() - f,
    {
        let mut i: usize = 0;
        while i < trimmed[f].len()
            invariant
                f < lines.len(),
                i <= trimmed@[f as int].len(),
                prepared(lines@, trimmed@),
                c == corpus_of(lines@),
                tidy(g@),
                forall|t: Seq<char>, l: Loc|
                    #[trigger] holds(g@, t, l) <==> (long_line_at(c, t, l) && (l.0 < f || (l.0 == f && l.1 < i))),
                sorted_below(g@, (f, i)),
            decreases trimmed@[f as int].len() - i,
        {
            let ghost g0 = g@;
            assert(trimmed@[f as int]@[i as int]@ == trim(lines@[f as int]@[i as int]@));
            assert(crate::blocks::line_at(c, (f, i)) == lines@[f as int]@[i as int]@);
            if trimmed[f][i].len() > 5 {
                add_loc(&mut g, &trimmed[f][i], 0, (f, i));
                assert(sorted_upto(g@, (f, i)));
            }
            assert(sorted_below(g@, (f, (i + 1) as usize)));
            assert forall|t: Seq<char>, l: Loc|
                #[trigger] holds(g@, t, l) <==> (long_line_at(c, t, l) && (l.0 < f || (l.0 == f && l.1 < i + 1))) by {
                if trimmed@[f as int]@[i as int]@.len() <= 5 {
                    assert(holds(g@, t, l) == holds(g0, t, l));
                }
            }
            i = i + 1;
        }
        proof {
            assert forall|t: Seq<char>, l: Loc| #[trigger] holds(g@, t, l) <==> (long_line_at(c, t, l) && l.0 < f + 1) by {
                if long_line_at(c, t, l) && l.0 == f {
                    assert(c[f as int] == views(lines@[f as int]@));
                }
            }
            assert(sorted_below(g@, ((f + 1) as usize, 0usize)));
        }
        f = f + 1;
    }
    g
}

/// Every trimmed line longer than five characters that occurs at two or
/// more locations of `files`, with all of its locations in file and line
/// order, longest text (in UTF-8 bytes) first.
pub fn find_duplicate_lines(files: Vec<FileEntry>) -> (r: Vec<(String, Vec<(String, u32)>)>)
    requires
        numbered(files@),
    ensures
        exists|dups: Seq<BlockView>| line_dups_of(dups, corpus_files(files@)) && reports(r@, dups, files@),
{
    let (lines, trimmed) = prepare_files(&files);
    let ghost c = corpus_of(lines@);
    let groups = group_long_lines(&lines, &trimmed);
    // keep the groups of two or more locations, longest text first
    let ghost gv = block_views(groups@);
    let mut kept: Vec<Candidate> = Vec::new();
    let mut k: usize = 0;
    proof {
        assert(block_views(kept@) =~= seq![]);
        reveal(drawn_from);
        reveal(keeps_all);
    }
    while k < groups.len()
        invariant
            k <= groups.len(),
            gv == block_views(groups@),
            tidy(groups@),
            forall|t: Seq<char>, l: Loc| #[trigger] holds(groups@, t, l) <==> long_line_at(c, t, l),
            kept_from(block_views(kept@), gv, k as int),
        decreases groups.len() - k,
    {
        let e = &groups[k];
        if e.locs.len() >= 2 {
            let e_bytes = utf8_len(&e.text);
            let mut p: usize = 0;
            while p < kept.len() && utf8_len(&kept[p].text) >= e_bytes
                invariant
                    p <= kept@.len(),
                    e_bytes == byte_len(e.text@),
                    forall|q: int| 0 <= q < p ==> byte_len((#[trigger] kept@[q]).text@) >= byte_len(e.text@),
                decreases kept@.len() - p,
            {
                p = p + 1;
            }
            let copy = Candidate {
                text: crate::text::slice_chars(&e.text, 0, e.text.len()),
                height: e.height,
                locs: copy_locs(&e.locs),
            };
            let ghost k0 = kept@;
            proof {
                assert(copy.text@ =~= e.text@);
                assert(copy.view_block() == gv[k as int]);
                assert(p == k0.len() || byte_len(block_views(k0)[p as int].0) < byte_len(gv[k as int].0));
            }
            kept.insert(p, copy);
            proof {
                assert(block_views(kept@) =~= block_views(k0).insert(p as int, gv[k as int]));
                lemma_kept_insert(gv, k as int, block_views(k0), p as int, block_views(kept@));
            }
        } else {
            proof {
                lemma_kept_skip(gv, k as int, block_views(kept@));
            }
        }
        k = k + 1;
    }
    let ghost dups = block_views(kept@);
    proof {
        lemma_line_dups(groups@, gv, dups, c, files@);
        assert forall|i: int, j: int| 0 <= i < kept@.len() && 0 <= j < kept@[i].locs@.len() implies
            (#[trigger] kept@[i].locs@[j]).0 < files@.len() && kept@[i].locs@[j].1 < lines_of(files@[kept@[i].locs@[j].0 as int].text()).len() by {
            assert(dups[i].1[j] == kept@[i].locs@[j]);
        }
    }
    report_blocks(&kept, &files)
}

/// The blocks of `blocks`, each location given as its file's name and a
/// line number from one.
fn report_blocks(blocks: &Vec<Candidate>, files: &Vec<FileEntry>) -> (out: Vec<(String, Vec<(String, u32)>)>)
    requires
        numbered(files@),
        forall|i: int, j: int| 0 <= i < blocks@.len() && 0 <= j < blocks@[i].locs@.len() ==>
            (#[trigger] blocks@[i].locs@[j]).0 < files@.len() && blocks@[i].locs@[j].1 < lines_of(files@[blocks@[i].locs@[j].0 as int].text()).len(),
    ensures
        reports(out@, block_views(blocks@), files@),
{
    let ghost bv = block_views(blocks@);
    let mut out: Vec<(String, Vec<(String, u32)>)> = Vec::new();
    let mut b: usize = 0;
    while b < blocks.len()
        invariant
            b <= blocks.len(),
            bv == block_views(blocks@),
            numbered(files@),
            forall|i: int, j: int| 0 <= i < blocks@.len() && 0 <= j < blocks@[i].locs@.len() ==>
                (#[trigger] blocks@[i].locs@[j]).0 < files@.len() && blocks@[i].locs@[j].1 < lines_of(files@[blocks@[i].locs@[j].0 as int].text()).len(),
            reports(out@, bv.subrange(0, b as int), files@),
        decreases blocks.len() - b,
    {
        let blk = &blocks[b];
        let mut locs: Vec<(String, u32)> = Vec::new();
        let mut j: usize = 0;
        while j < blk.locs.len()
            invariant
                b < blocks.len(),
                blk == &blocks@[b as int],
                numbered(files@),
                forall|i: int, j: int| 0 <= i < blocks@.len() && 0 <= j < blocks@[i].locs@.len() ==>
                    (#[trigger] blocks@[i].locs@[j]).0 < files@.len() && blocks@[i].locs@[j].1 < lines_of(files@[blocks@[i].locs@[j].0 as int].text()).len(),
                j <= blk.locs.len(),
                locs@.len() == j,
                forall|q: int| 0 <= q < j ==> ((#[trigger] locs@[q]).0@, locs@[q].1 as int) == reported(files@, blk.locs@[q]),
            decreases blk.locs.len() - j,
        {
            let l = blk.locs[j];
            assert(blocks@[b as int].locs@[j as int] == l);
            assert(lines_of(files@[l.0 as int].text()).len() < u32::MAX);
            let name = files[l.0].name.clone();
            locs.push((name, (l.1 + 1) as u32));
            j = j + 1;
        }
        let text = string_of(&blk.text);
        let ghost o0 = out@;
        out.push((text, locs));
        proof {
            assert forall|i: int| 0 <= i < out@.len() implies {
                &&& (#[trigger] out@[i]).0@ == bv.subrange(0, b + 1)[i].0
                &&& out@[i].1@.len() == bv.subrange(0, b + 1)[i].1.len()
                &&& forall|j: int|
                    0 <= j < out@[i].1@.len() ==> ((#[trigger] out@[i].1@[j]).0@, out@[i].1@[j].1 as int) == reported(
                        files@,
                        bv.subrange(0, b + 1)[i].1[j],
                    )
            } by {
                if i < b {
                    assert(out@[i] == o0[i]);
                    assert(bv.subrange(0, b + 1)[i] == bv.subrange(0, b as int)[i]);
                }
            }
        }
        b = b + 1;
    }
    proof {
        assert(bv.subrange(0, blocks.len() as int) =~= bv);
    }
    out
}

proof fn lemma_line_dups(groups: Seq<Candidate>, gv: Seq<BlockView>, dups: Seq<BlockView>, c: Corpus, files: Seq<FileEntry>)
    requires
        gv == block_views(groups),
        tidy(groups),
        forall|t: Seq<char>, l: Loc| #[trigger] holds(groups, t, l) <==> long_line_at(c, t, l),
        kept_from(dups, gv, groups.len() as int),
        c == corpus_files(files),
        forall|j: int| 0 <= j < groups.len() ==> locs_sorted((#[trigger] groups[j]).locs@),
    ensures
        line_dups_of(dups, c),
        forall|i: int, j: int| 0 <= i < dups.len() && 0 <= j < dups[i].1.len() ==>
            (#[trigger] dups[i].1[j]).0 < files.len() && dups[i].1[j].1 < lines_of(files[dups[i].1[j].0 as int].text()).len(),
{
    reveal(drawn_from);
    reveal(keeps_all);
    let k = groups.len() as int;
    assert forall|i: int| 0 <= i < dups.len() implies locs_sorted((#[trigger] dups[i]).1) by {
        let j = choose|j: int| 0 <= j < k && #[trigger] gv[j] == #[trigger] dups[i];
        assert(locs_sorted(groups[j].locs@));
    }
    assert forall|a: int, b: int| 0 <= a < b < gv.len() implies (#[trigger] gv[a]).0 != (#[trigger] gv[b]).0 by {
        assert(groups[a].text@ != groups[b].text@);
    }
    assert forall|i: int, l: Loc| 0 <= i < dups.len() implies (#[trigger] dups[i].1.contains(l) <==> long_line_at(c, dups[i].0, l)) by {
        let j = choose|j: int| 0 <= j < k && #[trigger] gv[j] == #[trigger] dups[i];
        if long_line_at(c, dups[i].0, l) {
            assert(holds(groups, dups[i].0, l));
            let m = choose|m: int| 0 <= m < groups.len() && groups[m].text@ == dups[i].0 && (#[trigger] groups[m].locs@).contains(l);
            if m != j {
                assert(groups[m].text@ != groups[j].text@);
            }
        }
        if dups[i].1.contains(l) {
            assert(groups[j].locs@.contains(l));
            assert(holds(groups, dups[i].0, l));
        }
    }
    assert forall|t: Seq<char>, l1: Loc, l2: Loc|
        l1 != l2 && #[trigger] long_line_at(c, t, l1) && #[trigger] long_line_at(c, t, l2) implies exists|i: int|
            0 <= i < dups.len() && (#[trigger] dups[i]).0 == t by {
        assert(holds(groups, t, l1));
        assert(holds(groups, t, l2));
        let m1 = choose|m: int| 0 <= m < groups.len() && groups[m].text@ == t && (#[trigger] groups[m].locs@).contains(l1);
        let m2 = choose|m: int| 0 <= m < groups.len() && groups[m].text@ == t && (#[trigger] groups[m].locs@).contains(l2);
        if m1 != m2 {
            if m1 < m2 {
                assert(groups[m1].text@ != groups[m2].text@);
            } else {
                assert(groups[m2].text@ != groups[m1].text@);
            }
        }
        let ls = groups[m1].locs@;
        let q1 = choose|q: int| 0 <= q < ls.len() && ls[q] == l1;
        let q2 = choose|q: int| 0 <= q < ls.len() && ls[q] == l2;
        assert(ls.len() >= 2);
        assert(gv[m1].1.len() >= 2);
        let i = choose|i: int| 0 <= i < dups.len() && dups[i] == gv[m1];
        assert(dups[i].0 == t);
    }
    assert forall|i: int| 0 <= i < dups.len() implies (#[trigger] dups[i]).1.no_duplicates() && dups[i].1.len() >= 2 by {
        let j = choose|j: int| 0 <= j < k && #[trigger] gv[j] == #[trigger] dups[i];
        assert(groups[j].locs@.no_duplicates());
    }
    assert(line_dups_of(dups, c));
    assert forall|i: int, j: int| 0 <= i < dups.len() && 0 <= j < dups[i].1.len() implies
        (#[trigger] dups[i].1[j]).0 < files.len() && dups[i].1[j].1 < lines_of(files[dups[i].1[j].0 as int].text()).len() by {
        assert(dups[i].1.contains(dups[i].1[j]));
    }
}

/// A copy of a list of locations.
fn copy_locs(v: &Vec<Loc>) -> (r: Vec<Loc>)
    ensures
        r@ == v@,
{
    let mut r: Vec<Loc> = Vec::new();
    let mut i: usize = 0;
    while i < v.len()
        invariant
            i <= v.len(),
            r@ == v@.subrange(0, i as int),
        decreases v.len() - i,
    {
        r.push(v[i]);
        proof {
            assert(v@.subrange(0, i + 1) =~= v@.subrange(0, i as int).push(v@[i as int]));
        }
        i = i + 1;
    }
    proof {
        assert(v@.subrange(0, v.len() as int) =~= v@);
    }
    r
}

/// The blocks of `bs` that have at least `m` non-blank lines, in order.
pub open spec fn keep_min(bs: Seq<BlockView>, m: nat) -> Seq<BlockView>
    decreases bs.len(),
{
    if bs.len() == 0 {
        seq![]
    } else {
        let r = keep_min(bs.drop_last(), m);
        if crate::rank::nonblank_lines(bs.last().0) >= m {
            r.push(bs.last())
        } else {
            r
        }
    }
}

/// The reported blocks of `r` that have at least `min_lines` non-blank
/// lines, in order.
fn keep_long_blocks(r: Vec<(String, Vec<(String, u32)>)>, min_lines: usize, Ghost(blocks): Ghost<Seq<BlockView>>, Ghost(files): Ghost<Seq<FileEntry>>) -> (out: Vec<(String, Vec<(String, u32)>)>)
    requires
        reports(r@, blocks, files),
    ensures
        reports(out@, keep_min(blocks, min_lines as nat), files),
{
    let ghost r0 = r@;
    assert(r0.len() == r.len());
    let mut src = r;
    let mut out: Vec<(String, Vec<(String, u32)>)> = Vec::new();
    let mut k: usize = 0;
    while src.len() > 0
        invariant
            reports(r0, blocks, files),
            r0.len() <= usize::MAX,
            k + src@.len() == r0.len(),
            src@ == r0.subrange(k as int, r0.len() as int),
            reports(out@, keep_min(blocks.subrange(0, k as int), min_lines as nat), files),
        decreases src@.len(),
    {
        let e = src.remove(0);
        assert(e == r0[k as int]);
        let chars = chars_of(e.0.as_str());
        let n = crate::rank::count_nonblank_lines(&chars);
        let ghost o0 = out@;
        proof {
            let b1 = blocks.subrange(0, k + 1);
            assert(b1.drop_last() =~= blocks.subrange(0, k as int));
            assert(b1.last() == blocks[k as int]);
            assert(src@ =~= r0.subrange(k + 1, r0.len() as int));
        }
        if n >= min_lines {
            out.push(e);
            proof {
                let kb = keep_min(blocks.subrange(0, k as int), min_lines as nat);
                let kb1 = keep_min(blocks.subrange(0, k + 1), min_lines as nat);
                assert(kb1 == kb.push(blocks[k as int]));
                assert forall|i: int| 0 <= i < out@.len() implies {
                    &&& (#[trigger] out@[i]).0@ == kb1[i].0
                    &&& out@[i].1@.len() == kb1[i].1.len()
                    &&& forall|j: int|
                        0 <= j < out@[i].1@.len() ==> ((#[trigger] out@[i].1@[j]).0@, out@[i].1@[j].1 as int) == reported(
                            files,
                            kb1[i].1[j],
                        )
                } by {
                    if i < o0.len() {
                        assert(out@[i] == o0[i]);
                    } else {
                        assert(out@[i] == r0[k as int]);
                    }
                }
            }
        }
        k = k + 1;
    }
    proof {
        assert(blocks.subrange(0, blocks.len() as int) =~= blocks);
    }
    out
}

/// The duplications of `files` that a caller asking for at least
/// `min_lines` non-blank lines is shown: with `min_lines` at most one, the
/// duplicated long lines; above one, the duplicated blocks with at least
/// `min_lines` non-blank lines.
pub fn find_duplications(files: Vec<FileEntry>, min_lines: usize) -> (r: Vec<(String, Vec<(String, u32)>)>)
    requires
        numbered(files@),
    ensures
        min_lines <= 1 ==> exists|dups: Seq<BlockView>|
            line_dups_of(dups, corpus_files(files@)) && reports(r@, dups, files@),
        min_lines > 1 ==> exists|ranked: Seq<BlockView>|
            ranking_of(ranked, corpus_files(files@)) && reports(r@, keep_min(resolve(ranked), min_lines as nat), files@),
{
    let ghost fs = files@;
    if min_lines <= 1 {
        find_duplicate_lines(files)
    } else {
        let all = find_multi_line_duplications(files);
        let ghost ranked = choose|ranked: Seq<BlockView>|
            ranking_of(ranked, corpus_files(fs)) && reports(all@, resolve(ranked), fs);
        keep_long_blocks(all, min_lines, Ghost(resolve(ranked)), Ghost(fs))
    }
}

} // verus!
