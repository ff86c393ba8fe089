//! Line lengths: how many lines of each display width the files hold.
use vstd::prelude::*;
use std::collections::HashMap;
use unicode_width::UnicodeWidthStr;
use crate::text::{chars_of, lines_of, split_into_lines, string_of, views};
use crate::types::FileEntry;

verus! {

broadcast use vstd::std_specs::hash::group_hash_axioms;

/// The number of columns that a line takes on a terminal, as the
/// unicode-width crate measures it.
pub uninterp spec fn display_width(s: Seq<char>) -> usize;

/// Relies on `UnicodeWidthStr::width` of unicode-width, whose result
/// depends on the text alone.
#[verifier::external_body]
fn width_of(s: &str) -> (r: usize)
    ensures
        r == display_width(s@),
{
    UnicodeWidthStr::width(s)
}

/// How many times each value occurs in `ws`.
pub open spec fn counts(ws: Seq<usize>) -> Map<usize, nat>
    decreases ws.len(),
{
    if ws.len() == 0 {
        Map::empty()
    } else {
        let m = counts(ws.drop_last());
        let w = ws.last();
        m.insert(
            w,
            if m.contains_key(w) {
                m[w] + 1
            } else {
                1
            },
        )
    }
}

/// Whether `h` maps each value of `ws` to the number of times it occurs.
pub open spec fn histogram_matches(h: Map<usize, usize>, ws: Seq<usize>) -> bool {
    &&& h.dom() == counts(ws).dom()
    &&& forall|w: usize| #[trigger] h.contains_key(w) ==> h[w] as nat == counts(ws)[w]
}

/// The widths of the lines of `files`, file after file.
pub open spec fn line_widths(files: Seq<FileEntry>) -> Seq<usize>
    decreases files.len(),
{
    if files.len() == 0 {
        seq![]
    } else {
        line_widths(files.drop_last()) + Seq::new(
            lines_of(files.last().text()).len(),
            |i: int| display_width(lines_of(files.last().text())[i]),
        )
    }
}

proof fn lemma_counts_bound(ws: Seq<usize>, w: usize)
    ensures
        counts(ws).contains_key(w) ==> counts(ws)[w] <= ws.len(),
    decreases ws.len(),
{
    if ws.len() > 0 {
        lemma_counts_bound(ws.drop_last(), w);
    }
}

/// The number of times each value occurs in `widths`.
pub fn histogram_of(widths: &Vec<usize>) -> (r: HashMap<usize, usize>)
    ensures
        histogram_matches(r@, widths@),
{
    let mut h: HashMap<usize, usize> = HashMap::new();
    let mut k: usize = 0;
    proof {
        assert(widths@.subrange(0, 0) =~= seq![]);
        assert(h@.dom() =~= counts(seq![]).dom());
    }
    while k < widths.len()
        invariant
            k <= widths.len(),
            histogram_matches(h@, widths@.subrange(0, k as int)),
        decreases widths.len() - k,
    {
        let w = widths[k];
        let ghost pre = widths@.subrange(0, k as int);
        let ghost post = widths@.subrange(0, k + 1);
        proof {
            assert(post.drop_last() =~= pre);
            assert(post.last() == w);
            lemma_counts_bound(pre, w);
        }
        let n: usize = match h.get(&w) {
            Some(c) => *c,
            None => 0,
        };
        proof {
            if h@.contains_key(w) {
                assert(n as nat == counts(pre)[w]);
            }
        }
        h.insert(w, n + 1);
        proof {
            assert(h@.dom() =~= counts(post).dom());
        }
        k = k + 1;
    }
    proof {
        assert(widths@.subrange(0, widths.len() as int) =~= widths@);
    }
    h
}

/// The widths of the lines of `files`, file after file.
pub fn widths_of_lines(files: &[FileEntry]) -> (r: Vec<usize>)
    ensures
        r@ == line_widths(files@),
{
    let mut r: Vec<usize> = Vec::new();
    let mut g: usize = 0;
    proof {
        assert(files@.subrange(0, 0) =~= seq![]);
    }
    while g < files.len()
        invariant
            g <= files@.len(),
            r@ == line_widths(files@.subrange(0, g as int)),
        decreases files@.len() - g,
    {
        let chars: Vec<char> = match files[g].content.as_str() {
            Some(s) => chars_of(s),
            None => Vec::new(),
        };
        let ls = split_into_lines(&chars);
        let ghost r0 = r@;
        let mut i: usize = 0;
        while i < ls.len()
            invariant
                i <= ls.len(),
                views(ls@) == lines_of(chars@),
                r@.len() == r0.len() + i,
                r@.subrange(0, r0.len() as int) == r0,
                forall|q: int| 0 <= q < i ==> r@[r0.len() + q] == display_width(#[trigger] ls@[q]@),
            decreases ls.len() - i,
        {
            let s = string_of(&ls[i]);
            let w = width_of(s.as_str());
            r.push(w);
            proof {
                assert(r@.subrange(0, r0.len() as int) =~= r0);
            }
            i = i + 1;
        }
        proof {
            let f1 = files@.subrange(0, g + 1);
            assert(f1.drop_last() =~= files@.subrange(0, g as int));
            assert(f1.last() == files@[g as int]);
            assert(chars@ == files@[g as int].text());
            let ext = Seq::new(lines_of(f1.last().text()).len(), |q: int| display_width(lines_of(f1.last().text())[q]));
            assert forall|q: int| 0 <= q < ext.len() implies ext[q] == r@[r0.len() + q] by {
                assert(views(ls@)[q] == ls@[q]@);
            }
            assert(r@ =~= r0 + ext);
        }
        g = g + 1;
    }
    proof {
        assert(files@.subrange(0, files@.len() as int) =~= files@);
    }
    r
}

/// How many lines of each display width `files` hold.
pub fn calculate_line_length_histogram(files: &[FileEntry]) -> (r: HashMap<usize, usize>)
    ensures
        histogram_matches(r@, line_widths(files@)),
{
    let widths = widths_of_lines(files);
    histogram_of(&widths)
}

} // verus!
