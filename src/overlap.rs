//! Overlap resolution: ranked candidate blocks are accepted greedily, each
//! keeping only the locations whose lines no earlier accepted block claims.
use vstd::prelude::*;
use crate::groups::{loc_lt, locs_sorted};
use crate::text::line_count;

verus! {

/// A location: a file's index among the inputs and a line's index
/// (from zero) in that file.
pub type Loc = (usize, usize);

/// A block as the specifications see it: its text and its locations.
pub type BlockView = (Seq<char>, Seq<Loc>);

/// A candidate or accepted block.
pub struct Candidate {
    pub text: Vec<char>,
    pub height: usize,
    pub locs: Vec<Loc>,
}

impl Candidate {
    pub open spec fn view_block(&self) -> BlockView {
        (self.text@, self.locs@)
    }
}

/// The blocks of a sequence of candidates.
pub open spec fn block_views(v: Seq<Candidate>) -> Seq<BlockView> {
    Seq::new(v.len(), |i: int| v[i].view_block())
}

/// Whether a block of `h` lines at `l` covers line `x` of file `f`.
pub open spec fn covers(l: Loc, h: nat, f: int, x: int) -> bool {
    l.0 == f && l.1 <= x < l.1 + h
}

/// Whether some block of `acc` covers line `x` of file `f`.
pub open spec fn claimed(acc: Seq<BlockView>, f: int, x: int) -> bool {
    exists|b: int, j: int|
        0 <= b < acc.len() && 0 <= j < acc[b].1.len() && #[trigger] covers(
            acc[b].1[j],
            line_count(acc[b].0),
            f,
            x,
        )
}

/// Whether no line of a block of `h` lines at `l` is claimed in `acc`.
pub open spec fn is_free(acc: Seq<BlockView>, l: Loc, h: nat) -> bool {
    forall|x: int| l.1 <= x < l.1 + h ==> !#[trigger] claimed(acc, l.0 as int, x)
}

/// The locations of `ls` that are free in `acc` for a block of `h` lines,
/// in their order.
pub open spec fn free_locs(acc: Seq<BlockView>, ls: Seq<Loc>, h: nat) -> Seq<Loc>
    decreases ls.len(),
{
    if ls.len() == 0 {
        seq![]
    } else {
        let r = free_locs(acc, ls.drop_last(), h);
        if is_free(acc, ls.last(), h) {
            r.push(ls.last())
        } else {
            r
        }
    }
}

/// The blocks accepted from the ranked candidates `cands`: each in turn is
/// kept, with its free locations, where at least two are free.
pub open spec fn resolve(cands: Seq<BlockView>) -> Seq<BlockView>
    decreases cands.len(),
{
    if cands.len() == 0 {
        seq![]
    } else {
        let acc = resolve(cands.drop_last());
        let (t, ls) = cands.last();
        let free = free_locs(acc, ls, line_count(t));
        if free.len() >= 2 {
            acc.push((t, free))
        } else {
            acc
        }
    }
}

/// Whether two blocks share no line of any file.
pub open spec fn disjoint_blocks(a: BlockView, b: BlockView) -> bool {
    forall|i: int, j: int, x: int|
        0 <= i < a.1.len() && 0 <= j < b.1.len() ==> !(#[trigger] covers(
            a.1[i],
            line_count(a.0),
            a.1[i].0 as int,
            x,
        ) && #[trigger] covers(b.1[j], line_count(b.0), a.1[i].0 as int, x))
}

pub proof fn lemma_free_locs_sub(acc: Seq<BlockView>, ls: Seq<Loc>, h: nat)
    ensures
        free_locs(acc, ls, h).len() <= ls.len(),
        forall|j: int|
            0 <= j < free_locs(acc, ls, h).len() ==> is_free(acc, #[trigger] free_locs(acc, ls, h)[j], h)
                && ls.contains(free_locs(acc, ls, h)[j]),
    decreases ls.len(),
{
    if ls.len() > 0 {
        let init = ls.drop_last();
        lemma_free_locs_sub(acc, init, h);
        let r = free_locs(acc, init, h);
        assert forall|j: int| 0 <= j < r.len() implies ls.contains(#[trigger] r[j]) by {
            let k = choose|k: int| 0 <= k < init.len() && init[k] == r[j];
            assert(ls[k] == r[j]);
        }
        assert(ls[ls.len() - 1] == ls.last());
    }
}

/// No two accepted blocks share a line of a file, and each holds at least
/// two locations.
pub proof fn lemma_resolve_sound(cands: Seq<BlockView>)
    ensures
        forall|b: int| 0 <= b < resolve(cands).len() ==> (#[trigger] resolve(cands)[b]).1.len() >= 2,
        forall|b1: int, b2: int|
            0 <= b1 < resolve(cands).len() && 0 <= b2 < resolve(cands).len() && b1 != b2
                ==> disjoint_blocks(#[trigger] resolve(cands)[b1], #[trigger] resolve(cands)[b2]),
    decreases cands.len(),
{
    if cands.len() > 0 {
        let init = cands.drop_last();
        lemma_resolve_sound(init);
        let acc = resolve(init);
        let (t, ls) = cands.last();
        let free = free_locs(acc, ls, line_count(t));
        lemma_free_locs_sub(acc, ls, line_count(t));
        if free.len() >= 2 {
            let r = acc.push((t, free));
            assert forall|b1: int, b2: int|
                0 <= b1 < r.len() && 0 <= b2 < r.len() && b1 != b2 implies disjoint_blocks(
                #[trigger] r[b1],
                #[trigger] r[b2],
            ) by {
                if b1 == acc.len() {
                    assert forall|i: int, j: int, x: int|
                        0 <= i < r[b1].1.len() && 0 <= j < r[b2].1.len() implies !(#[trigger] covers(
                        r[b1].1[i],
                        line_count(r[b1].0),
                        r[b1].1[i].0 as int,
                        x,
                    ) && #[trigger] covers(r[b2].1[j], line_count(r[b2].0), r[b1].1[i].0 as int, x)) by {
                        if covers(r[b1].1[i], line_count(r[b1].0), r[b1].1[i].0 as int, x) && covers(
                            r[b2].1[j],
                            line_count(r[b2].0),
                            r[b1].1[i].0 as int,
                            x,
                        ) {
                            assert(is_free(acc, free[i], line_count(t)));
                            assert(claimed(acc, free[i].0 as int, x));
                        }
                    }
                } else if b2 == acc.len() {
                    assert forall|i: int, j: int, x: int|
                        0 <= i < r[b1].1.len() && 0 <= j < r[b2].1.len() implies !(#[trigger] covers(
                        r[b1].1[i],
                        line_count(r[b1].0),
                        r[b1].1[i].0 as int,
                        x,
                    ) && #[trigger] covers(r[b2].1[j], line_count(r[b2].0), r[b1].1[i].0 as int, x)) by {
                        if covers(r[b1].1[i], line_count(r[b1].0), r[b1].1[i].0 as int, x) && covers(
                            r[b2].1[j],
                            line_count(r[b2].0),
                            r[b1].1[i].0 as int,
                            x,
                        ) {
                            assert(is_free(acc, free[j], line_count(t)));
                            assert(claimed(acc, free[j].0 as int, x));
                        }
                    }
                } else {
                    assert(r[b1] == acc[b1]);
                    assert(r[b2] == acc[b2]);
                }
            }
        }
    }
}

/// Keeping the free locations of a sorted list keeps it sorted.
pub proof fn lemma_free_locs_sorted(acc: Seq<BlockView>, ls: Seq<Loc>, h: nat)
    requires
        locs_sorted(ls),
    ensures
        locs_sorted(free_locs(acc, ls, h)),
    decreases ls.len(),
{
    if ls.len() > 0 {
        let init = ls.drop_last();
        assert forall|i: int, j: int| 0 <= i < j < init.len() implies loc_lt(#[trigger] init[i], #[trigger] init[j]) by {
            assert(init[i] == ls[i] && init[j] == ls[j]);
        }
        lemma_free_locs_sorted(acc, init, h);
        lemma_free_locs_sub(acc, init, h);
        let r = free_locs(acc, init, h);
        if is_free(acc, ls.last(), h) {
            let s = r.push(ls.last());
            assert forall|i: int, j: int| 0 <= i < j < s.len() implies loc_lt(#[trigger] s[i], #[trigger] s[j]) by {
                if j == s.len() - 1 {
                    assert(s[i] == r[i]);
                    assert(init.contains(r[i]));
                    let k = choose|k: int| 0 <= k < init.len() && init[k] == r[i];
                    assert(ls[k] == r[i]);
                    assert(ls[ls.len() - 1] == ls.last());
                } else {
                    assert(s[i] == r[i] && s[j] == r[j]);
                }
            }
        }
    }
}

/// Resolving candidates whose locations stand in increasing order gives
/// blocks whose locations do too.
pub proof fn lemma_resolve_sorted(cands: Seq<BlockView>)
    requires
        forall|i: int| 0 <= i < cands.len() ==> locs_sorted((#[trigger] cands[i]).1),
    ensures
        forall|b: int| 0 <= b < resolve(cands).len() ==> locs_sorted((#[trigger] resolve(cands)[b]).1),
    decreases cands.len(),
{
    if cands.len() > 0 {
        let init = cands.drop_last();
        assert forall|i: int| 0 <= i < init.len() implies locs_sorted((#[trigger] init[i]).1) by {
            assert(init[i] == cands[i]);
        }
        lemma_resolve_sorted(init);
        let acc = resolve(init);
        let (t, ls) = cands.last();
        assert(locs_sorted(cands[cands.len() - 1].1));
        lemma_free_locs_sorted(acc, ls, line_count(t));
    }
}

/// Marks line `x` of file `f` as claimed.
fn set_claim(table: &mut Vec<Vec<bool>>, f: usize, x: usize)
    requires
        f < old(table).len(),
        x < old(table)@[f as int].len(),
    ensures
        final(table)@.len() == old(table)@.len(),
        forall|i: int| 0 <= i < old(table)@.len() && i != f ==> final(table)@[i] == old(table)@[i],
        final(table)@[f as int]@ == old(table)@[f as int]@.update(x as int, true),
{
    table[f].set(x, true);
}

/// Whether some location of `ls` starts a block of `h` lines that covers
/// line `x` of file `f`.
pub open spec fn claimed_by(ls: Seq<Loc>, h: nat, f: int, x: int) -> bool {
    exists|j: int| 0 <= j < ls.len() && #[trigger] covers(ls[j], h, f, x)
}

proof fn lemma_claimed_push(acc: Seq<BlockView>, t: Seq<char>, ls: Seq<Loc>, f: int, x: int)
    ensures
        claimed(acc.push((t, ls)), f, x) == (claimed(acc, f, x) || claimed_by(ls, line_count(t), f, x)),
{
    let r = acc.push((t, ls));
    if claimed(r, f, x) {
        let (b, j) = choose|b: int, j: int|
            0 <= b < r.len() && 0 <= j < r[b].1.len() && #[trigger] covers(
                r[b].1[j],
                line_count(r[b].0),
                f,
                x,
            );
        if b < acc.len() {
            assert(r[b] == acc[b]);
        }
    }
    if claimed(acc, f, x) {
        let (b, j) = choose|b: int, j: int|
            0 <= b < acc.len() && 0 <= j < acc[b].1.len() && #[trigger] covers(
                acc[b].1[j],
                line_count(acc[b].0),
                f,
                x,
            );
        assert(r[b] == acc[b]);
        assert(covers(r[b].1[j], line_count(r[b].0), f, x));
    }
    if claimed_by(ls, line_count(t), f, x) {
        let j = choose|j: int| 0 <= j < ls.len() && #[trigger] covers(ls[j], line_count(t), f, x);
        assert(r[acc.len() as int] == (t, ls));
        assert(covers(r[acc.len() as int].1[j], line_count(r[acc.len() as int].0), f, x));
    }
}

/// Whether every location of every candidate starts `height` lines inside
/// a file of `file_lens`, `height` being the line count of the text.
pub open spec fn well_placed(cands: Seq<Candidate>, file_lens: Seq<usize>) -> bool {
    forall|i: int|
        0 <= i < cands.len() ==> {
            &&& (#[trigger] cands[i]).height == line_count(cands[i].text@)
            &&& forall|j: int|
                0 <= j < cands[i].locs.len() ==> (#[trigger] cands[i].locs@[j]).0 < file_lens.len()
                    && cands[i].locs@[j].1 + cands[i].height <= file_lens[cands[i].locs@[j].0 as int]
        }
}

/// Whether `table` records exactly the lines claimed by `acc`.
pub open spec fn table_matches(table: Seq<Vec<bool>>, file_lens: Seq<usize>, acc: Seq<BlockView>) -> bool {
    &&& table.len() == file_lens.len()
    &&& forall|f: int| 0 <= f < table.len() ==> (#[trigger] table[f])@.len() == file_lens[f]
    &&& forall|f: int, x: int|
        0 <= f < table.len() && 0 <= x < file_lens[f] ==> (#[trigger] table[f]@[x] == claimed(acc, f, x))
}

/// The blocks accepted from `cands`, taken in their order: each keeps the
/// locations that no earlier accepted block overlaps, and is dropped where
/// fewer than two are left.
pub fn resolve_overlaps(cands: &Vec<Candidate>, file_lens: &Vec<usize>) -> (r: Vec<Candidate>)
    requires
        well_placed(cands@, file_lens@),
    ensures
        block_views(r@) == resolve(block_views(cands@)),
        well_placed(r@, file_lens@),
{
    let ghost all = block_views(cands@);
    let mut table: Vec<Vec<bool>> = Vec::new();
    let mut f: usize = 0;
    while f < file_lens.len()
        invariant
            f <= file_lens.len(),
            table@.len() == f,
            forall|g: int| 0 <= g < f ==> (#[trigger] table@[g])@.len() == file_lens@[g],
            forall|g: int, x: int| 0 <= g < f && 0 <= x < file_lens@[g] ==> !(#[trigger] table@[g]@[x]),
        decreases file_lens.len() - f,
    {
        let mut row: Vec<bool> = Vec::new();
        let mut x: usize = 0;
        while x < file_lens[f]
            invariant
                f < file_lens.len(),
                x <= file_lens@[f as int],
                row@.len() == x,
                forall|y: int| 0 <= y < x ==> !(#[trigger] row@[y]),
            decreases file_lens@[f as int] - x,
        {
            row.push(false);
            x = x + 1;
        }
        table.push(row);
        f = f + 1;
    }
    let mut acc: Vec<Candidate> = Vec::new();
    proof {
        assert forall|g: int, x: int| 0 <= g < table@.len() && 0 <= x < file_lens@[g] implies (#[trigger] table@[g]@[x]
            == claimed(block_views(acc@), g, x)) by {}
        assert(all.subrange(0, 0) =~= seq![]);
        assert(block_views(acc@) =~= seq![]);
    }
    let mut n: usize = 0;
    while n < cands.len()
        invariant
            n <= cands.len(),
            all == block_views(cands@),
            well_placed(cands@, file_lens@),
            well_placed(acc@, file_lens@),
            block_views(acc@) == resolve(all.subrange(0, n as int)),
            table_matches(table@, file_lens@, block_views(acc@)),
        decreases cands.len() - n,
    {
        let c = &cands[n];
        let h = c.height;
        let ghost av = block_views(acc@);
        assert(c.height == line_count(c.text@));
        // the locations that no accepted block overlaps
        let mut free: Vec<Loc> = Vec::new();
        let mut j: usize = 0;
        while j < c.locs.len()
            invariant
                n < cands.len(),
                c == &cands@[n as int],
                h == c.height,
                well_placed(cands@, file_lens@),
                j <= c.locs.len(),
                av == block_views(acc@),
                table_matches(table@, file_lens@, av),
                free@ == free_locs(av, c.locs@.subrange(0, j as int), h as nat),
            decreases c.locs.len() - j,
        {
            let l = c.locs[j];
            assert(c.locs@[j as int] == l);
            let mut x: usize = l.1;
            let mut ok = true;
            while x < l.1 + h
                invariant
                    l.0 < file_lens.len(),
                    l.1 + h <= file_lens@[l.0 as int],
                    l.1 <= x <= l.1 + h,
                    table_matches(table@, file_lens@, av),
                    ok == forall|y: int| l.1 <= y < x ==> !#[trigger] claimed(av, l.0 as int, y),
                decreases l.1 + h - x,
            {
                if table[l.0][x] {
                    ok = false;
                }
                assert(table@[l.0 as int]@[x as int] == claimed(av, l.0 as int, x as int));
                x = x + 1;
            }
            proof {
                let p = c.locs@.subrange(0, j + 1);
                assert(p.drop_last() =~= c.locs@.subrange(0, j as int));
                assert(p.last() == l);
            }
            if ok {
                free.push(l);
            }
            j = j + 1;
        }
        proof {
            assert(c.locs@.subrange(0, c.locs.len() as int) =~= c.locs@);
            assert(all.subrange(0, n + 1).drop_last() =~= all.subrange(0, n as int));
            assert(all.subrange(0, n + 1).last() == c.view_block());
            lemma_free_locs_sub(av, c.locs@, h as nat);
        }
        if free.len() >= 2 {
            // claim the lines of each kept location
            let mut j: usize = 0;
            while j < free.len()
                invariant
                    j <= free.len(),
                    forall|k: int| 0 <= k < free.len() ==> c.locs@.contains(#[trigger] free@[k]),
                    n < cands.len(),
                    c == &cands@[n as int],
                    h == c.height,
                    well_placed(cands@, file_lens@),
                    table@.len() == file_lens@.len(),
                    forall|g: int| 0 <= g < table@.len() ==> (#[trigger] table@[g])@.len() == file_lens@[g],
                    forall|g: int, x: int|
                        0 <= g < table@.len() && 0 <= x < file_lens@[g] ==> (#[trigger] table@[g]@[x]
                            == (claimed(av, g, x) || claimed_by(free@.subrange(0, j as int), h as nat, g, x))),
                decreases free.len() - j,
            {
                let l = free[j];
                proof {
                    assert(c.locs@.contains(free@[j as int]));
                    let k = choose|k: int| 0 <= k < c.locs@.len() && c.locs@[k] == l;
                    assert(c.locs@[k] == l);
                }
                let mut x: usize = l.1;
                while x < l.1 + h
                    invariant
                        l.0 < file_lens.len(),
                        l.1 + h <= file_lens@[l.0 as int],
                        l.1 <= x <= l.1 + h,
                        j < free.len(),
                        l == free@[j as int],
                        table@.len() == file_lens@.len(),
                        forall|g: int| 0 <= g < table@.len() ==> (#[trigger] table@[g])@.len() == file_lens@[g],
                        forall|g: int, y: int|
                            0 <= g < table@.len() && 0 <= y < file_lens@[g] ==> (#[trigger] table@[g]@[y]
                                == (claimed(av, g, y) || claimed_by(free@.subrange(0, j as int), h as nat, g, y)
                                || (g == l.0 && l.1 <= y < x))),
                    decreases l.1 + h - x,
                {
                    set_claim(&mut table, l.0, x);
                    x = x + 1;
                }
                proof {
                    let s1 = free@.subrange(0, j + 1);
                    assert forall|g: int, y: int|
                        0 <= g < table@.len() && 0 <= y < file_lens@[g] implies (#[trigger] table@[g]@[y]
                            == (claimed(av, g, y) || claimed_by(s1, h as nat, g, y))) by {
                        let s0 = free@.subrange(0, j as int);
                        if claimed_by(s0, h as nat, g, y) {
                            let k = choose|k: int| 0 <= k < s0.len() && #[trigger] covers(s0[k], h as nat, g, y);
                            assert(s1[k] == s0[k]);
                        }
                        if g == l.0 && l.1 <= y < l.1 + h {
                            assert(s1[j as int] == l);
                            assert(covers(s1[j as int], h as nat, g, y));
                        }
                        if claimed_by(s1, h as nat, g, y) {
                            let k = choose|k: int| 0 <= k < s1.len() && #[trigger] covers(s1[k], h as nat, g, y);
                            if k < j {
                                assert(s0[k] == s1[k]);
                            }
                        }
                    }
                }
                j = j + 1;
            }
            let text = crate::text::slice_chars(&c.text, 0, c.text.len());
            proof {
                assert(text@ =~= c.text@);
                assert(free@.subrange(0, free.len() as int) =~= free@);
            }
            let ghost fv = free@;
            acc.push(Candidate { text, height: h, locs: free });
            proof {
                assert(block_views(acc@) =~= av.push((c.text@, fv)));
                assert forall|g: int, y: int|
                    0 <= g < table@.len() && 0 <= y < file_lens@[g] implies (#[trigger] table@[g]@[y]
                        == claimed(block_views(acc@), g, y)) by {
                    lemma_claimed_push(av, c.text@, fv, g, y);
                }
                assert forall|i: int| 0 <= i < acc@.len() implies {
                    &&& (#[trigger] acc@[i]).height == line_count(acc@[i].text@)
                    &&& forall|j: int|
                        0 <= j < acc@[i].locs.len() ==> (#[trigger] acc@[i].locs@[j]).0 < file_lens@.len()
                            && acc@[i].locs@[j].1 + acc@[i].height <= file_lens@[acc@[i].locs@[j].0 as int]
                } by {
                    if i == acc@.len() - 1 {
                        assert forall|j: int| 0 <= j < acc@[i].locs.len() implies (#[trigger] acc@[i].locs@[j]).0
                            < file_lens@.len() && acc@[i].locs@[j].1 + acc@[i].height
                            <= file_lens@[acc@[i].locs@[j].0 as int] by {
                            assert(c.locs@.contains(fv[j]));
                            let k = choose|k: int| 0 <= k < c.locs@.len() && c.locs@[k] == fv[j];
                            assert(c.locs@[k] == fv[j]);
                        }
                    }
                }
            }
        }
        n = n + 1;
    }
    proof {
        assert(all.subrange(0, cands.len() as int) =~= all);
    }
    acc
}

} // verus!
