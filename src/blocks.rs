//! Candidate blocks: every run of consecutive lines that starts at a
//! non-blank line and matches, line by line after trimming, the run at some
//! other location.
use vstd::prelude::*;
use crate::groups::{add_loc, find_text, heights_ok, holds, tidy};
use crate::overlap::{Candidate, Loc};
use crate::text::{
    chars_eq, is_blank, lemma_join_line_count, line_count, no_newline, normalize, normalized_block,
    strip_indent, common_indent, trim, views,
};

verus! {

/// Files as sequences of lines.
pub type Corpus = Seq<Seq<Seq<char>>>;

/// The corpus that nested character vectors hold.
pub open spec fn corpus_of(lines: Seq<Vec<Vec<char>>>) -> Corpus {
    Seq::new(lines.len(), |g: int| views(lines[g]@))
}

/// Whether `l` names a line of `c`.
pub open spec fn valid_loc(c: Corpus, l: Loc) -> bool {
    l.0 < c.len() && l.1 < c[l.0 as int].len()
}

/// The line at `l`.
pub open spec fn line_at(c: Corpus, l: Loc) -> Seq<char> {
    c[l.0 as int][l.1 as int]
}

/// Whether a block can start at `a` and match at another location `b`: the
/// line at `a` is not blank, has no white space at either end, and equals
/// the line at `b` after trimming.
pub open spec fn is_pair(c: Corpus, a: Loc, b: Loc) -> bool {
    &&& valid_loc(c, a)
    &&& valid_loc(c, b)
    &&& a != b
    &&& !is_blank(line_at(c, a))
    &&& line_at(c, a) == trim(line_at(c, a))
    &&& trim(line_at(c, a)) == trim(line_at(c, b))
}

/// The number of leading positions at which the lines of `x` and `y` are
/// equal after trimming.
pub open spec fn common_run(x: Seq<Seq<char>>, y: Seq<Seq<char>>) -> nat
    decreases x.len(),
{
    if x.len() > 0 && y.len() > 0 && trim(x[0]) == trim(y[0]) {
        1 + common_run(x.drop_first(), y.drop_first())
    } else {
        0
    }
}

/// The number of consecutive lines, from `a` and from `b`, that match.
pub open spec fn match_len(c: Corpus, a: Loc, b: Loc) -> nat {
    common_run(
        c[a.0 as int].subrange(a.1 as int, c[a.0 as int].len() as int),
        c[b.0 as int].subrange(b.1 as int, c[b.0 as int].len() as int),
    )
}

/// The text of the block that `a` and `b` start: the matching lines at `a`,
/// without their common indentation.
pub open spec fn pair_text(c: Corpus, a: Loc, b: Loc) -> Seq<char> {
    normalize(c[a.0 as int].subrange(a.1 as int, a.1 + match_len(c, a, b)))
}

/// Whether the pair `a`, `b` yields the block text `t` at location `l`.
pub open spec fn yields(c: Corpus, a: Loc, b: Loc, t: Seq<char>, l: Loc) -> bool {
    is_pair(c, a, b) && pair_text(c, a, b) == t && (l == a || l == b)
}

/// Whether `t` is a candidate block at `l`: some pair yields it there.
pub open spec fn is_candidate(c: Corpus, t: Seq<char>, l: Loc) -> bool {
    exists|a: Loc, b: Loc| #[trigger] yields(c, a, b, t, l)
}

/// Whether `trimmed` holds the trimmed lines of `lines`, which hold no
/// `'\n'`.
pub open spec fn prepared(lines: Seq<Vec<Vec<char>>>, trimmed: Seq<Vec<Vec<char>>>) -> bool {
    &&& trimmed.len() == lines.len()
    &&& forall|g: int| 0 <= g < lines.len() ==> (#[trigger] trimmed[g]).len() == lines[g].len()
    &&& forall|g: int, x: int|
        0 <= g < lines.len() && 0 <= x < lines[g].len() ==> (#[trigger] trimmed[g]@[x])@ == trim(
            lines[g]@[x]@,
        ) && no_newline(lines[g]@[x]@)
}

/// Whether `index` groups every non-blank line of `c` under its trimmed
/// text.
pub open spec fn indexes(index: Seq<Candidate>, c: Corpus) -> bool {
    &&& tidy(index)
    &&& forall|t: Seq<char>, l: Loc|
        #[trigger] holds(index, t, l) <==> (valid_loc(c, l) && !is_blank(line_at(c, l)) && t == trim(
            line_at(c, l),
        ))
}

/// Groups every non-blank line under its trimmed text.
pub fn index_lines(lines: &Vec<Vec<Vec<char>>>, trimmed: &Vec<Vec<Vec<char>>>) -> (index: Vec<Candidate>)
    requires
        prepared(lines@, trimmed@),
    ensures
        indexes(index@, corpus_of(lines@)),
{
    let ghost c = corpus_of(lines@);
    let mut index: Vec<Candidate> = Vec::new();
    let mut f: usize = 0;
    while f < lines.len()
        invariant
            f <= lines.len(),
            prepared(lines@, trimmed@),
            c == corpus_of(lines@),
            tidy(index@),
            forall|t: Seq<char>, l: Loc|
                #[trigger] holds(index@, t, l) <==> (valid_loc(c, l) && l.0 < f && !is_blank(line_at(c, l)) && t
                    == trim(line_at(c, l))),
        decreases lines.len() - f,
    {
        let mut i: usize = 0;
        while i < trimmed[f].len()
            invariant
                f < lines.len(),
                i <= trimmed@[f as int].len(),
                prepared(lines@, trimmed@),
                c == corpus_of(lines@),
                tidy(index@),
                forall|t: Seq<char>, l: Loc|
                    #[trigger] holds(index@, t, l) <==> (valid_loc(c, l) && (l.0 < f || (l.0 == f && l.1 < i))
                        && !is_blank(line_at(c, l)) && t == trim(line_at(c, l))),
            decreases trimmed@[f as int].len() - i,
        {
            let ghost old_index = index@;
            assert(trimmed@[f as int]@[i as int]@ == trim(lines@[f as int]@[i as int]@));
            assert(line_at(c, (f, i)) == lines@[f as int]@[i as int]@);
            if trimmed[f][i].len() > 0 {
                add_loc(&mut index, &trimmed[f][i], 0, (f, i));
            }
            assert forall|t: Seq<char>, l: Loc|
                #[trigger] holds(index@, t, l) <==> (valid_loc(c, l) && (l.0 < f || (l.0 == f && l.1 < i + 1))
                    && !is_blank(line_at(c, l)) && t == trim(line_at(c, l))) by {
                if trimmed@[f as int]@[i as int]@.len() == 0 {
                    assert(holds(index@, t, l) == holds(old_index, t, l));
                }
            }
            i = i + 1;
        }
        f = f + 1;
    }
    index
}

proof fn lemma_common_run_at(x: Seq<Seq<char>>, y: Seq<Seq<char>>, k: int)
    requires
        0 <= k <= x.len(),
        k <= y.len(),
        forall|t: int| 0 <= t < k ==> trim(#[trigger] x[t]) == trim(y[t]),
        k == x.len() || k == y.len() || trim(x[k]) != trim(y[k]),
    ensures
        common_run(x, y) == k,
    decreases k,
{
    if k > 0 {
        let x1 = x.drop_first();
        let y1 = y.drop_first();
        assert(trim(x[0]) == trim(y[0]));
        assert forall|t: int| 0 <= t < k - 1 implies trim(#[trigger] x1[t]) == trim(y1[t]) by {
            assert(x1[t] == x[t + 1]);
            assert(y1[t] == y[t + 1]);
        }
        if k - 1 < x1.len() && k - 1 < y1.len() {
            assert(x1[k - 1] == x[k]);
            assert(y1[k - 1] == y[k]);
        }
        lemma_common_run_at(x1, y1, k - 1);
    }
}

/// The number of consecutive lines from `a` and from `b` that match.
fn run_length(lines: &Vec<Vec<Vec<char>>>, trimmed: &Vec<Vec<Vec<char>>>, a: Loc, b: Loc) -> (k: usize)
    requires
        prepared(lines@, trimmed@),
        valid_loc(corpus_of(lines@), a),
        valid_loc(corpus_of(lines@), b),
    ensures
        k == match_len(corpus_of(lines@), a, b),
        a.1 + k <= lines@[a.0 as int].len(),
        b.1 + k <= lines@[b.0 as int].len(),
{
    let ghost c = corpus_of(lines@);
    let ghost x = c[a.0 as int].subrange(a.1 as int, c[a.0 as int].len() as int);
    let ghost y = c[b.0 as int].subrange(b.1 as int, c[b.0 as int].len() as int);
    let ta = &trimmed[a.0];
    let tb = &trimmed[b.0];
    let mut k: usize = 0;
    while a.1 + k < ta.len() && b.1 + k < tb.len() && chars_eq(&ta[a.1 + k], &tb[b.1 + k])
        invariant
            prepared(lines@, trimmed@),
            c == corpus_of(lines@),
            a.0 < lines.len(),
            b.0 < lines.len(),
            ta == &trimmed@[a.0 as int],
            tb == &trimmed@[b.0 as int],
            x == c[a.0 as int].subrange(a.1 as int, c[a.0 as int].len() as int),
            y == c[b.0 as int].subrange(b.1 as int, c[b.0 as int].len() as int),
            a.1 + k <= ta.len(),
            b.1 + k <= tb.len(),
            forall|t: int| 0 <= t < k ==> trim(#[trigger] x[t]) == trim(y[t]),
        decreases ta.len() - k,
    {
        assert(x[k as int] == lines@[a.0 as int]@[a.1 + k]@);
        assert(y[k as int] == lines@[b.0 as int]@[b.1 + k]@);
        assert(ta@[a.1 + k]@ == trim(lines@[a.0 as int]@[a.1 + k]@));
        assert(tb@[b.1 + k]@ == trim(lines@[b.0 as int]@[b.1 + k]@));
        k = k + 1;
    }
    proof {
        if a.1 + k < ta.len() && b.1 + k < tb.len() {
            assert(x[k as int] == lines@[a.0 as int]@[a.1 + k]@);
            assert(y[k as int] == lines@[b.0 as int]@[b.1 + k]@);
            assert(ta@[a.1 + k]@ == trim(lines@[a.0 as int]@[a.1 + k]@));
            assert(tb@[b.1 + k]@ == trim(lines@[b.0 as int]@[b.1 + k]@));
        }
        lemma_common_run_at(x, y, k as int);
    }
    k
}

/// Joining lines that hold no `'\n'`, with their indentation stripped,
/// gives a text of as many lines.
pub proof fn lemma_normalize_line_count(ls: Seq<Seq<char>>)
    requires
        ls.len() > 0,
        forall|i: int| 0 <= i < ls.len() ==> no_newline(#[trigger] ls[i]),
    ensures
        line_count(normalize(ls)) == ls.len(),
{
    let s = Seq::new(ls.len(), |i: int| strip_indent(ls[i], common_indent(ls)));
    assert forall|i: int| 0 <= i < s.len() implies no_newline(#[trigger] s[i]) by {
        let l = ls[i];
        if l.len() >= common_indent(ls) {
            assert forall|k: int| 0 <= k < s[i].len() implies s[i][k] != '\n' by {
                assert(s[i][k] == l[k + common_indent(ls)]);
            }
        }
    }
    lemma_join_line_count(s);
}

/// The candidate blocks that start in file `f`: for each non-blank line of
/// `f` and each other location of its trimmed text, the block of the lines
/// that match from there, recorded at both locations.
pub fn expand_file(
    lines: &Vec<Vec<Vec<char>>>,
    trimmed: &Vec<Vec<Vec<char>>>,
    index: &Vec<Candidate>,
    f: usize,
) -> (r: Vec<Candidate>)
    requires
        prepared(lines@, trimmed@),
        indexes(index@, corpus_of(lines@)),
        f < lines.len(),
    ensures
        tidy(r@),
        heights_ok(r@),
        forall|t: Seq<char>, l: Loc|
            #[trigger] holds(r@, t, l) <==> exists|a: Loc, b: Loc| a.0 == f && #[trigger] yields(
                corpus_of(lines@),
                a,
                b,
                t,
                l,
            ),
{
    let ghost c = corpus_of(lines@);
    let mut r: Vec<Candidate> = Vec::new();
    let mut i: usize = 0;
    while i < lines[f].len()
        invariant
            f < lines.len(),
            i <= lines@[f as int].len(),
            prepared(lines@, trimmed@),
            c == corpus_of(lines@),
            indexes(index@, c),
            tidy(r@),
            heights_ok(r@),
            forall|t: Seq<char>, l: Loc|
                #[trigger] holds(r@, t, l) <==> exists|a: Loc, b: Loc|
                    a.0 == f && a.1 < i && #[trigger] yields(c, a, b, t, l),
        decreases lines@[f as int].len() - i,
    {
        let a: Loc = (f, i);
        assert(trimmed@[f as int]@[i as int]@ == trim(lines@[f as int]@[i as int]@));
        assert(line_at(c, a) == lines@[f as int]@[i as int]@);
        if trimmed[f][i].len() > 0 && chars_eq(&lines[f][i], &trimmed[f][i]) {
            assert(holds(index@, trim(line_at(c, a)), a));
            let found = find_text(index, &trimmed[f][i]);
            let e = match found {
                Some(e) => e,
                None => {
                    proof {
                        let k = choose|k: int| 0 <= k < index@.len() && index@[k].text@ == trim(line_at(c, a))
                            && (#[trigger] index@[k].locs@).contains(a);
                    }
                    return r;
                },
            };
            let os = &index[e].locs;
            let ghost t0 = trim(line_at(c, a));
            assert(index@[e as int].text@ == t0);
            let mut j: usize = 0;
            while j < os.len()
                invariant
                    f < lines.len(),
                    i < lines@[f as int].len(),
                    a == (f, i),
                    !is_blank(line_at(c, a)),
                    line_at(c, a) == t0,
                    t0 == trim(line_at(c, a)),
                    prepared(lines@, trimmed@),
                    c == corpus_of(lines@),
                    indexes(index@, c),
                    e < index@.len(),
                    os == &index@[e as int].locs,
                    index@[e as int].text@ == t0,
                    j <= os.len(),
                    tidy(r@),
                    heights_ok(r@),
                    forall|t: Seq<char>, l: Loc|
                        #[trigger] holds(r@, t, l) <==> exists|a2: Loc, b: Loc|
                            a2.0 == f && (a2.1 < i || (a2.1 == i && os@.subrange(0, j as int).contains(b)))
                                && #[trigger] yields(c, a2, b, t, l),
                decreases os.len() - j,
            {
                let b = os[j];
                assert(os@[j as int] == b);
                assert(holds(index@, t0, b));
                let ghost r0 = r@;
                if !(b.0 == f && b.1 == i) {
                    let k = run_length(lines, trimmed, a, b);
                    assert(is_pair(c, a, b));
                    let text = normalized_block(&lines[f], &trimmed[f], i, i + k);
                    proof {
                        assert(views(lines@[f as int]@) == c[f as int]);
                        let ls = c[f as int].subrange(i as int, i + k);
                        assert forall|q: int| 0 <= q < ls.len() implies no_newline(#[trigger] ls[q]) by {
                            assert(ls[q] == lines@[f as int]@[i + q]@);
                            assert(trimmed@[f as int]@[i + q]@ == trim(lines@[f as int]@[i + q]@));
                        }
                        assert(trimmed@[f as int]@[i as int]@ == trim(lines@[f as int]@[i as int]@));
                        assert(k >= 1) by {
                            let x = c[a.0 as int].subrange(a.1 as int, c[a.0 as int].len() as int);
                            let y = c[b.0 as int].subrange(b.1 as int, c[b.0 as int].len() as int);
                            assert(x[0] == line_at(c, a));
                            assert(y[0] == line_at(c, b));
                        }
                        lemma_normalize_line_count(ls);
                        assert(text@ == pair_text(c, a, b));
                    }
                    add_loc(&mut r, &text, k, a);
                    add_loc(&mut r, &text, k, b);
                    proof {
                        assert forall|t: Seq<char>, l: Loc|
                            #[trigger] holds(r@, t, l) <==> exists|a2: Loc, b2: Loc|
                                a2.0 == f && (a2.1 < i || (a2.1 == i && os@.subrange(0, j + 1).contains(b2)))
                                    && #[trigger] yields(c, a2, b2, t, l) by {
                            let s0 = os@.subrange(0, j as int);
                            let s1 = os@.subrange(0, j + 1);
                            if holds(r@, t, l) {
                                if holds(r0, t, l) {
                                    let (a2, b2) = choose|a2: Loc, b2: Loc|
                                        a2.0 == f && (a2.1 < i || (a2.1 == i && s0.contains(b2)))
                                            && #[trigger] yields(c, a2, b2, t, l);
                                    if a2.1 == i {
                                        let m = choose|m: int| 0 <= m < s0.len() && s0[m] == b2;
                                        assert(s1[m] == b2);
                                    }
                                } else {
                                    assert(s1[j as int] == b);
                                    assert(yields(c, a, b, t, l));
                                }
                            }
                            if exists|a2: Loc, b2: Loc|
                                a2.0 == f && (a2.1 < i || (a2.1 == i && s1.contains(b2))) && #[trigger] yields(
                                    c,
                                    a2,
                                    b2,
                                    t,
                                    l,
                                ) {
                                let (a2, b2) = choose|a2: Loc, b2: Loc|
                                    a2.0 == f && (a2.1 < i || (a2.1 == i && s1.contains(b2)))
                                        && #[trigger] yields(c, a2, b2, t, l);
                                if a2.1 == i && b2 != b {
                                    let m = choose|m: int| 0 <= m < s1.len() && s1[m] == b2;
                                    assert(s0[m] == b2);
                                    assert(holds(r0, t, l));
                                } else if a2.1 == i {
                                    assert(a2 == a);
                                    assert(t == text@);
                                } else {
                                    assert(holds(r0, t, l));
                                }
                            }
                        }
                    }
                } else {
                    proof {
                        assert forall|t: Seq<char>, l: Loc|
                            #[trigger] holds(r@, t, l) <==> exists|a2: Loc, b2: Loc|
                                a2.0 == f && (a2.1 < i || (a2.1 == i && os@.subrange(0, j + 1).contains(b2)))
                                    && #[trigger] yields(c, a2, b2, t, l) by {
                            let s0 = os@.subrange(0, j as int);
                            let s1 = os@.subrange(0, j + 1);
                            if holds(r@, t, l) {
                                let (a2, b2) = choose|a2: Loc, b2: Loc|
                                    a2.0 == f && (a2.1 < i || (a2.1 == i && s0.contains(b2)))
                                        && #[trigger] yields(c, a2, b2, t, l);
                                if a2.1 == i {
                                    let m = choose|m: int| 0 <= m < s0.len() && s0[m] == b2;
                                    assert(s1[m] == b2);
                                }
                            }
                            if exists|a2: Loc, b2: Loc|
                                a2.0 == f && (a2.1 < i || (a2.1 == i && s1.contains(b2))) && #[trigger] yields(
                                    c,
                                    a2,
                                    b2,
                                    t,
                                    l,
                                ) {
                                let (a2, b2) = choose|a2: Loc, b2: Loc|
                                    a2.0 == f && (a2.1 < i || (a2.1 == i && s1.contains(b2)))
                                        && #[trigger] yields(c, a2, b2, t, l);
                                if a2.1 == i {
                                    let m = choose|m: int| 0 <= m < s1.len() && s1[m] == b2;
                                    if m == j {
                                        assert(b2 == b);
                                        assert(b2 == a2);
                                    }
                                    assert(s0[m] == b2);
                                }
                            }
                        }
                    }
                }
                j = j + 1;
            }
            proof {
                assert(os@.subrange(0, os.len() as int) =~= os@);
                assert forall|t: Seq<char>, l: Loc|
                    #[trigger] holds(r@, t, l) <==> exists|a2: Loc, b: Loc|
                        a2.0 == f && a2.1 < i + 1 && #[trigger] yields(c, a2, b, t, l) by {
                    if exists|a2: Loc, b: Loc| a2.0 == f && a2.1 < i + 1 && #[trigger] yields(c, a2, b, t, l) {
                        let (a2, b) = choose|a2: Loc, b: Loc| a2.0 == f && a2.1 < i + 1 && #[trigger] yields(c, a2, b, t, l);
                        if a2.1 == i {
                            assert(a2 == a);
                            assert(holds(index@, t0, b));
                            let k = choose|k: int| 0 <= k < index@.len() && index@[k].text@ == t0
                                && (#[trigger] index@[k].locs@).contains(b);
                            assert(k == e);
                        }
                    }
                }
            }
        } else {
            proof {
                assert forall|t: Seq<char>, l: Loc|
                    #[trigger] holds(r@, t, l) <==> exists|a2: Loc, b: Loc|
                        a2.0 == f && a2.1 < i + 1 && #[trigger] yields(c, a2, b, t, l) by {
                    if exists|a2: Loc, b: Loc| a2.0 == f && a2.1 < i + 1 && #[trigger] yields(c, a2, b, t, l) {
                        let (a2, b) = choose|a2: Loc, b: Loc| a2.0 == f && a2.1 < i + 1 && #[trigger] yields(c, a2, b, t, l);
                        if a2.1 == i {
                            assert(a2 == a);
                        }
                    }
                }
            }
        }
        i = i + 1;
    }
    r
}

} // verus!
