//! Texts grouped with the locations where they occur: a list with one entry
//! per distinct text, each holding its locations once.
use vstd::prelude::*;
use crate::overlap::{Candidate, Loc};
use crate::text::{chars_eq, line_count, slice_chars};

verus! {

/// Whether `v` records location `l` under text `t`.
pub open spec fn holds(v: Seq<Candidate>, t: Seq<char>, l: Loc) -> bool {
    exists|i: int| 0 <= i < v.len() && v[i].text@ == t && (#[trigger] v[i].locs@).contains(l)
}

/// Whether the texts of `v` are distinct and each entry holds its
/// locations once, and at least one.
pub open spec fn tidy(v: Seq<Candidate>) -> bool {
    &&& forall|i: int, j: int| 0 <= i < j < v.len() ==> (#[trigger] v[i]).text@ != (#[trigger] v[j]).text@
    &&& forall|i: int| 0 <= i < v.len() ==> (#[trigger] v[i]).locs@.no_duplicates() && v[i].locs@.len() > 0
}

/// Whether location `a` comes before location `b`: by file, then by line.
pub open spec fn loc_lt(a: Loc, b: Loc) -> bool {
    a.0 < b.0 || (a.0 == b.0 && a.1 < b.1)
}

/// Whether the locations of `s` stand in increasing order.
pub open spec fn locs_sorted(s: Seq<Loc>) -> bool {
    forall|i: int, j: int| 0 <= i < j < s.len() ==> loc_lt(#[trigger] s[i], #[trigger] s[j])
}

/// Whether every entry of `v` holds its locations in increasing order, all
/// of them before `l`.
pub open spec fn sorted_below(v: Seq<Candidate>, l: Loc) -> bool {
    forall|i: int| 0 <= i < v.len() ==> {
        &&& locs_sorted((#[trigger] v[i]).locs@)
        &&& forall|k: int| 0 <= k < v[i].locs@.len() ==> loc_lt(#[trigger] v[i].locs@[k], l)
    }
}

/// Whether every entry of `v` holds its locations in increasing order, all
/// of them at `l` or before.
pub open spec fn sorted_upto(v: Seq<Candidate>, l: Loc) -> bool {
    forall|i: int| 0 <= i < v.len() ==> {
        &&& locs_sorted((#[trigger] v[i]).locs@)
        &&& forall|k: int| 0 <= k < v[i].locs@.len() ==> (loc_lt(#[trigger] v[i].locs@[k], l) || v[i].locs@[k] == l)
    }
}

/// Whether each entry's height is its text's line count.
pub open spec fn heights_ok(v: Seq<Candidate>) -> bool {
    forall|i: int| 0 <= i < v.len() ==> (#[trigger] v[i]).height == line_count(v[i].text@)
}

/// The position of the entry of `v` with text `t`, if there is one.
pub fn find_text(v: &Vec<Candidate>, t: &Vec<char>) -> (r: Option<usize>)
    ensures
        match r {
            Some(i) => i < v.len() && v@[i as int].text@ == t@,
            None => forall|i: int| 0 <= i < v.len() ==> (#[trigger] v@[i]).text@ != t@,
        },
{
    let mut i: usize = 0;
    while i < v.len()
        invariant
            i <= v.len(),
            forall|k: int| 0 <= k < i ==> (#[trigger] v@[k]).text@ != t@,
        decreases v.len() - i,
    {
        if chars_eq(&v[i].text, t) {
            return Some(i);
        }
        i = i + 1;
    }
    None
}

/// Whether `locs` holds `l`.
pub fn has_loc(locs: &Vec<Loc>, l: Loc) -> (r: bool)
    ensures
        r == locs@.contains(l),
{
    let mut i: usize = 0;
    while i < locs.len()
        invariant
            i <= locs.len(),
            forall|k: int| 0 <= k < i ==> locs@[k] != l,
        decreases locs.len() - i,
    {
        if locs[i].0 == l.0 && locs[i].1 == l.1 {
            assert(locs@[i as int] == l);
            return true;
        }
        i = i + 1;
    }
    false
}

/// Records location `l` under text `t`; an entry made for `t` gets height
/// `h`.
pub fn add_loc(v: &mut Vec<Candidate>, t: &Vec<char>, h: usize, l: Loc)
    requires
        tidy(old(v)@),
    ensures
        tidy(final(v)@),
        forall|t2: Seq<char>, l2: Loc|
            #[trigger] holds(final(v)@, t2, l2) <==> (holds(old(v)@, t2, l2) || (t2 == t@ && l2 == l)),
        heights_ok(old(v)@) && h == line_count(t@) ==> heights_ok(final(v)@),
        sorted_below(old(v)@, l) ==> sorted_upto(final(v)@, l),
{
    let ghost v0 = v@;
    match find_text(v, t) {
        Some(i) => {
            if !has_loc(&v[i].locs, l) {
                v[i].locs.push(l);
                proof {
                    assert(v@.len() == v0.len());
                    assert forall|k: int| 0 <= k < v@.len() && k != i implies v@[k] == v0[k] by {}
                    assert(v@[i as int].locs@ == v0[i as int].locs@.push(l));
                    assert(v@[i as int].text@ == v0[i as int].text@);
                    assert(v@[i as int].height == v0[i as int].height);
                    assert forall|t2: Seq<char>, l2: Loc|
                        #[trigger] holds(v@, t2, l2) <==> (holds(v0, t2, l2) || (t2 == t@ && l2 == l)) by {
                        if holds(v@, t2, l2) {
                            let k = choose|k: int| 0 <= k < v@.len() && v@[k].text@ == t2 && (#[trigger] v@[k].locs@).contains(l2);
                            if k != i {
                                assert(v0[k] == v@[k]);
                            } else if l2 != l {
                                let m = choose|m: int| 0 <= m < v@[k].locs@.len() && v@[k].locs@[m] == l2;
                                assert(v0[k].locs@[m] == l2);
                            }
                        }
                        if holds(v0, t2, l2) {
                            let k = choose|k: int| 0 <= k < v0.len() && v0[k].text@ == t2 && (#[trigger] v0[k].locs@).contains(l2);
                            if k != i {
                                assert(v0[k] == v@[k]);
                            } else {
                                let m = choose|m: int| 0 <= m < v0[k].locs@.len() && v0[k].locs@[m] == l2;
                                assert(v@[k].locs@[m] == l2);
                            }
                        }
                        if t2 == t@ && l2 == l {
                            assert(v@[i as int].locs@.last() == l);
                            assert(v@[i as int].locs@.contains(l));
                        }
                    }
                    assert forall|k: int| 0 <= k < v@.len() implies (#[trigger] v@[k]).locs@.no_duplicates()
                        && v@[k].locs@.len() > 0 by {
                        if k == i {
                            let s = v@[k].locs@;
                            assert forall|a: int, b: int| 0 <= a < b < s.len() implies s[a] != s[b] by {
                                if b == s.len() - 1 {
                                    assert(s[b] == l);
                                    assert(s[a] == v0[k].locs@[a]);
                                } else {
                                    assert(s[a] == v0[k].locs@[a]);
                                    assert(s[b] == v0[k].locs@[b]);
                                }
                            }
                        } else {
                            assert(v@[k] == v0[k]);
                        }
                    }
                    assert forall|a: int, b: int| 0 <= a < b < v@.len() implies (#[trigger] v@[a]).text@
                        != (#[trigger] v@[b]).text@ by {
                        assert(v@[a].text@ == v0[a].text@);
                        assert(v@[b].text@ == v0[b].text@);
                    }
                }
            } else {
                proof {
                    assert forall|t2: Seq<char>, l2: Loc|
                        #[trigger] holds(v@, t2, l2) <==> (holds(v0, t2, l2) || (t2 == t@ && l2 == l)) by {
                        if t2 == t@ && l2 == l {
                            assert(v@[i as int].locs@.contains(l));
                        }
                    }
                }
            }
        },
        None => {
            let text = slice_chars(t, 0, t.len());
            let mut locs: Vec<Loc> = Vec::new();
            locs.push(l);
            proof {
                assert(text@ =~= t@);
                assert(locs@ =~= seq![l]);
            }
            v.push(Candidate { text, height: h, locs });
            proof {
                let n = v0.len() as int;
                assert forall|k: int| 0 <= k < n implies v@[k] == v0[k] by {}
                assert forall|t2: Seq<char>, l2: Loc|
                    #[trigger] holds(v@, t2, l2) <==> (holds(v0, t2, l2) || (t2 == t@ && l2 == l)) by {
                    if holds(v@, t2, l2) {
                        let k = choose|k: int| 0 <= k < v@.len() && v@[k].text@ == t2 && (#[trigger] v@[k].locs@).contains(l2);
                        if k < n {
                            assert(v0[k] == v@[k]);
                        } else {
                            assert(v@[k].locs@ == seq![l]);
                            let m = choose|m: int| 0 <= m < v@[k].locs@.len() && v@[k].locs@[m] == l2;
                        }
                    }
                    if holds(v0, t2, l2) {
                        let k = choose|k: int| 0 <= k < v0.len() && v0[k].text@ == t2 && (#[trigger] v0[k].locs@).contains(l2);
                        assert(v0[k] == v@[k]);
                    }
                    if t2 == t@ && l2 == l {
                        assert(v@[n].locs@[0] == l);
                        assert(v@[n].locs@.contains(l));
                    }
                }
                assert forall|k: int| 0 <= k < v@.len() implies (#[trigger] v@[k]).locs@.no_duplicates()
                    && v@[k].locs@.len() > 0 by {
                    if k < n {
                        assert(v@[k] == v0[k]);
                    }
                }
                assert forall|a: int, b: int| 0 <= a < b < v@.len() implies (#[trigger] v@[a]).text@
                    != (#[trigger] v@[b]).text@ by {
                    assert(v@[a] == v0[a]);
                    if b < n {
                        assert(v@[b] == v0[b]);
                    }
                }
            }
        },
    }
}

proof fn lemma_sorted_insert(r0: Seq<Loc>, p: int, x: Loc, r: Seq<Loc>)
    requires
        locs_sorted(r0),
        0 <= p <= r0.len(),
        forall|q: int| 0 <= q < p ==> loc_lt(#[trigger] r0[q], x),
        p < r0.len() ==> loc_lt(x, r0[p]),
        r == r0.insert(p, x),
    ensures
        locs_sorted(r),
        forall|l: Loc| #[trigger] r.contains(l) <==> r0.contains(l) || l == x,
{
    assert forall|i: int, j: int| 0 <= i < j < r.len() implies loc_lt(#[trigger] r[i], #[trigger] r[j]) by {
        if j < p {
            assert(r[i] == r0[i] && r[j] == r0[j]);
        } else if j == p {
            assert(r[i] == r0[i]);
        } else if i < p {
            assert(r[i] == r0[i] && r[j] == r0[j - 1]);
            assert(loc_lt(r0[p], r0[j - 1]) || p == j - 1);
        } else if i == p {
            assert(r[j] == r0[j - 1]);
            assert(loc_lt(r0[p], r0[j - 1]) || p == j - 1);
        } else {
            assert(r[i] == r0[i - 1] && r[j] == r0[j - 1]);
        }
    }
    assert forall|l: Loc| #[trigger] r.contains(l) <==> r0.contains(l) || l == x by {
        if r.contains(l) {
            let k = choose|k: int| 0 <= k < r.len() && r[k] == l;
            if k < p {
                assert(r0[k] == l);
            } else if k > p {
                assert(r0[k - 1] == l);
            }
        }
        if r0.contains(l) {
            let k = choose|k: int| 0 <= k < r0.len() && r0[k] == l;
            if k < p {
                assert(r[k] == l);
            } else {
                assert(r[k + 1] == l);
            }
        }
        if l == x {
            assert(r[p] == x);
        }
    }
}

/// Locations in increasing order strictly hold each location once.
pub proof fn lemma_sorted_no_duplicates(s: Seq<Loc>)
    requires
        locs_sorted(s),
    ensures
        s.no_duplicates(),
{
    assert forall|i: int, j: int| 0 <= i < j < s.len() implies s[i] != s[j] by {
        assert(loc_lt(s[i], s[j]));
    }
}

/// The locations of `v` in increasing (file, line) order, each once.
pub fn sort_locs(v: &Vec<Loc>) -> (r: Vec<Loc>)
    ensures
        locs_sorted(r@),
        r@.no_duplicates(),
        forall|l: Loc| #[trigger] r@.contains(l) <==> v@.contains(l),
{
    let mut r: Vec<Loc> = Vec::new();
    let mut k: usize = 0;
    while k < v.len()
        invariant
            k <= v.len(),
            locs_sorted(r@),
            forall|l: Loc| #[trigger] r@.contains(l) <==> v@.subrange(0, k as int).contains(l),
        decreases v.len() - k,
    {
        let x = v[k];
        let mut p: usize = 0;
        while p < r.len() && (r[p].0 < x.0 || (r[p].0 == x.0 && r[p].1 < x.1))
            invariant
                p <= r@.len(),
                forall|q: int| 0 <= q < p ==> loc_lt(#[trigger] r@[q], x),
            decreases r@.len() - p,
        {
            p = p + 1;
        }
        let ghost r0 = r@;
        proof {
            let s0 = v@.subrange(0, k as int);
            let s1 = v@.subrange(0, k + 1);
            assert(s1 =~= s0.push(x));
            assert forall|l: Loc| s1.contains(l) <==> s0.contains(l) || l == x by {
                if s1.contains(l) {
                    let m = choose|m: int| 0 <= m < s1.len() && s1[m] == l;
                    if m < k {
                        assert(s0[m] == l);
                    }
                }
                if s0.contains(l) {
                    let m = choose|m: int| 0 <= m < s0.len() && s0[m] == l;
                    assert(s1[m] == l);
                }
                if l == x {
                    assert(s1[k as int] == x);
                }
            }
        }
        if p < r.len() && r[p].0 == x.0 && r[p].1 == x.1 {
            proof {
                assert(r@[p as int] == x);
                assert(r@.contains(x));
            }
        } else {
            r.insert(p, x);
            proof {
                lemma_sorted_insert(r0, p as int, x, r@);
            }
        }
        k = k + 1;
    }
    proof {
        assert(v@.subrange(0, v.len() as int) =~= v@);
        lemma_sorted_no_duplicates(r@);
    }
    r
}

} // verus!
