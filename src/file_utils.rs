//! Which file contents the analyses take.
use vstd::prelude::*;
use crate::text::{chars_of, is_blank, lines_of, split_into_lines, string_of, trim_chars, utf8_text, views};
use crate::types::{FileEntry, LineEntry};

verus! {

/// Whether a file's bytes are text that the analyses take: valid UTF-8
/// without a NUL byte, which marks a binary file.
pub open spec fn is_text(bytes: Seq<u8>) -> bool {
    !bytes.contains(0u8) && vstd::utf8::valid_utf8(bytes)
}

/// Whether a file's bytes are valid UTF-8 without a NUL byte.
pub fn is_text_content(bytes: &[u8]) -> (r: bool)
    ensures
        r == is_text(bytes@),
{
    let mut i: usize = 0;
    while i < bytes.len()
        invariant
            i <= bytes@.len(),
            forall|k: int| 0 <= k < i ==> bytes@[k] != 0u8,
        decreases bytes@.len() - i,
    {
        if bytes[i] == 0u8 {
            assert(bytes@[i as int] == 0u8);
            return false;
        }
        i = i + 1;
    }
    utf8_text(bytes).is_some()
}

/// A line of a file: the file's index, the line's index from zero, and its
/// text.
pub type LineAt = (int, int, Seq<char>);

/// The non-blank lines of `ls`, which are the lines of file `g`, in order.
pub open spec fn nonblank_of(g: int, ls: Seq<Seq<char>>) -> Seq<LineAt>
    decreases ls.len(),
{
    if ls.len() == 0 {
        seq![]
    } else {
        let r = nonblank_of(g, ls.drop_last());
        if is_blank(ls.last()) {
            r
        } else {
            r.push((g, ls.len() - 1, ls.last()))
        }
    }
}

/// The non-blank lines of `files`, file after file and in line order.
pub open spec fn nonblank_lines_of(files: Seq<FileEntry>) -> Seq<LineAt>
    decreases files.len(),
{
    if files.len() == 0 {
        seq![]
    } else {
        nonblank_lines_of(files.drop_last()) + nonblank_of(files.len() - 1, lines_of(files.last().text()))
    }
}

/// The entries of `ls` whose pick is true, in order.
pub open spec fn picked(ls: Seq<LineAt>, picks: Seq<bool>) -> Seq<LineAt>
    decreases ls.len(),
{
    if ls.len() == 0 || picks.len() != ls.len() {
        seq![]
    } else {
        let r = picked(ls.drop_last(), picks.drop_last());
        if picks.last() {
            r.push(ls.last())
        } else {
            r
        }
    }
}

/// Whether line entry `e` of `files` is the line `l`.
pub open spec fn entry_is(files: Seq<FileEntry>, e: LineEntry, l: LineAt) -> bool {
    &&& e.file_name@ == files[l.0].name@
    &&& e.line_number == l.1 + 1
    &&& e.content@ == l.2
}

/// Whether `filter` gave `picks[k]` on the text of line `ls[k]`, for each
/// `k`.
pub open spec fn answers<F: Fn(&&str) -> bool>(filter: F, ls: Seq<LineAt>, picks: Seq<bool>) -> bool {
    &&& picks.len() == ls.len()
    &&& forall|k: int| 0 <= k < ls.len() ==> exists|s: &str| s@ == (#[trigger] ls[k]).2 && filter.ensures((&s,), picks[k])
}

/// The non-blank lines of `files` that `filter` accepts, as line entries,
/// file after file and in line order.
pub fn merge_file_lines<F: Fn(&&str) -> bool>(filter: &F, files: Vec<FileEntry>) -> (r: Vec<LineEntry>)
    requires
        forall|s: &str| filter.requires((&s,)),
        crate::duplication::numbered(files@),
    ensures
        exists|picks: Seq<bool>| {
            &&& answers(*filter, nonblank_lines_of(files@), picks)
            &&& r@.len() == picked(nonblank_lines_of(files@), picks).len()
            &&& forall|k: int| 0 <= k < r@.len() ==> entry_is(files@, #[trigger] r@[k], picked(nonblank_lines_of(files@), picks)[k])
        },
{
    let mut r: Vec<LineEntry> = Vec::new();
    let ghost mut picks: Seq<bool> = seq![];
    let mut g: usize = 0;
    proof {
        assert(files@.subrange(0, 0) =~= seq![]);
    }
    while g < files.len()
        invariant
            g <= files@.len(),
            forall|s: &str| filter.requires((&s,)),
            crate::duplication::numbered(files@),
            answers(*filter, nonblank_lines_of(files@.subrange(0, g as int)), picks),
            r@.len() == picked(nonblank_lines_of(files@.subrange(0, g as int)), picks).len(),
            forall|k: int| 0 <= k < r@.len() ==> entry_is(files@, #[trigger] r@[k], picked(nonblank_lines_of(files@.subrange(0, g as int)), picks)[k]),
        decreases files@.len() - g,
    {
        let chars: Vec<char> = match files[g].content.as_str() {
            Some(s) => chars_of(s),
            None => Vec::new(),
        };
        let ls = split_into_lines(&chars);
        let ghost lv = views(ls@);
        let ghost before = nonblank_lines_of(files@.subrange(0, g as int));
        proof {
            assert(lv == lines_of(files@[g as int].text()));
            assert(lines_of(files@[g as int].text()).len() < u32::MAX);
            assert(lv.subrange(0, 0) =~= seq![]);
            assert(before + nonblank_of(g as int, seq![]) =~= before);
        }
        let mut i: usize = 0;
        while i < ls.len()
            invariant
                g < files@.len(),
                i <= ls.len(),
                ls.len() < u32::MAX,
                lv == views(ls@),
                forall|s: &str| filter.requires((&s,)),
                answers(*filter, before + nonblank_of(g as int, lv.subrange(0, i as int)), picks),
                r@.len() == picked(before + nonblank_of(g as int, lv.subrange(0, i as int)), picks).len(),
                forall|k: int| 0 <= k < r@.len() ==> entry_is(files@, #[trigger] r@[k], picked(before + nonblank_of(g as int, lv.subrange(0, i as int)), picks)[k]),
            decreases ls.len() - i,
        {
            let ghost all0 = before + nonblank_of(g as int, lv.subrange(0, i as int));
            let ghost pre = picks;
            proof {
                let q = lv.subrange(0, i + 1);
                assert(q.drop_last() =~= lv.subrange(0, i as int));
                assert(q.last() == ls@[i as int]@);
            }
            let t = trim_chars(&ls[i]);
            if t.len() > 0 {
                let text = string_of(&ls[i]);
                let line: &str = text.as_str();
                let keep = filter(&line);
                proof {
                    picks = picks.push(keep);
                    let all1 = before + nonblank_of(g as int, lv.subrange(0, i + 1));
                    let item: LineAt = (g as int, i as int, ls@[i as int]@);
                    assert(all1 =~= all0.push(item));
                    assert(all1.drop_last() =~= all0);
                    assert(picks.drop_last() =~= pre);
                    assert forall|k: int| 0 <= k < all1.len() implies exists|s: &str| s@ == (#[trigger] all1[k]).2 && filter.ensures((&s,), picks[k]) by {
                        if k < all0.len() {
                            assert(all1[k] == all0[k]);
                            assert(picks[k] == pre[k]);
                        } else {
                            assert(line@ == all1[k].2);
                        }
                    }
                }
                if keep {
                    let ghost r0 = r@;
                    r.push(LineEntry { file_name: files[g].name.clone(), line_number: (i + 1) as u32, content: text });
                    proof {
                        let all1 = before + nonblank_of(g as int, lv.subrange(0, i + 1));
                        assert(picked(all1, picks) == picked(all0, pre).push(all1.last()));
                        assert forall|k: int| 0 <= k < r@.len() implies entry_is(files@, #[trigger] r@[k], picked(all1, picks)[k]) by {
                            if k < r0.len() {
                                assert(r@[k] == r0[k]);
                            }
                        }
                    }
                } else {
                    proof {
                        let all1 = before + nonblank_of(g as int, lv.subrange(0, i + 1));
                        assert(picked(all1, picks) == picked(all0, pre));
                    }
                }
            } else {
                proof {
                    assert(before + nonblank_of(g as int, lv.subrange(0, i + 1)) =~= all0);
                }
            }
            i = i + 1;
        }
        proof {
            assert(lv.subrange(0, ls.len() as int) =~= lv);
            let f1 = files@.subrange(0, g + 1);
            assert(f1.drop_last() =~= files@.subrange(0, g as int));
            assert(f1.last() == files@[g as int]);
            assert(nonblank_lines_of(f1) == before + nonblank_of(g as int, lv));
        }
        g = g + 1;
    }
    proof {
        assert(files@.subrange(0, files@.len() as int) =~= files@);
    }
    r
}

} // verus!
