//! Text as sequences of characters: line splitting, trimming and
//! indentation, stated over `Seq<char>` and carried out on `Vec<char>`.
use vstd::prelude::*;
use vstd::string::StringSliceAdditionalSpecFns;

verus! {

/// The characters that have the Unicode `White_Space` property, the set
/// that `char::is_whitespace` and `str::trim` go by.
pub open spec fn is_space(c: char) -> bool {
    let u = c as u32;
    ||| 0x09 <= u <= 0x0D
    ||| u == 0x20
    ||| u == 0x85
    ||| u == 0xA0
    ||| u == 0x1680
    ||| 0x2000 <= u <= 0x200A
    ||| u == 0x2028
    ||| u == 0x2029
    ||| u == 0x202F
    ||| u == 0x205F
    ||| u == 0x3000
}

/// `s` without its leading white space.
pub open spec fn trim_start(s: Seq<char>) -> Seq<char>
    decreases s.len(),
{
    if s.len() > 0 && is_space(s[0]) {
        trim_start(s.drop_first())
    } else {
        s
    }
}

/// `s` without its trailing white space.
pub open spec fn trim_end(s: Seq<char>) -> Seq<char>
    decreases s.len(),
{
    if s.len() > 0 && is_space(s.last()) {
        trim_end(s.drop_last())
    } else {
        s
    }
}

/// `s` without white space at either end.
pub open spec fn trim(s: Seq<char>) -> Seq<char> {
    trim_end(trim_start(s))
}

/// Whether a line holds anything but white space.
pub open spec fn is_blank(s: Seq<char>) -> bool {
    trim(s).len() == 0
}

/// The number of white-space characters that start `s`.
pub open spec fn indent_of(s: Seq<char>) -> nat {
    (s.len() - trim_start(s).len()) as nat
}

/// Splits `s` at each `'\n'`: the lines ended so far (a `'\r'` right
/// before the `'\n'` dropped) and the unterminated rest.
pub open spec fn split_lines(s: Seq<char>) -> (Seq<Seq<char>>, Seq<char>)
    decreases s.len(),
{
    if s.len() == 0 {
        (seq![], seq![])
    } else {
        let (done, cur) = split_lines(s.drop_last());
        if s.last() == '\n' {
            (done.push(strip_cr(cur)), seq![])
        } else {
            (done, cur.push(s.last()))
        }
    }
}

/// `l` without one final `'\r'`.
pub open spec fn strip_cr(l: Seq<char>) -> Seq<char> {
    if l.len() > 0 && l.last() == '\r' {
        l.drop_last()
    } else {
        l
    }
}

/// The lines of `s`, as `str::lines` yields them: split at `"\n"` or
/// `"\r\n"`, with no empty line after a final line ending.
pub open spec fn lines_of(s: Seq<char>) -> Seq<Seq<char>> {
    let (done, cur) = split_lines(s);
    if cur.len() == 0 {
        done
    } else {
        done.push(cur)
    }
}

/// Lines joined with `'\n'` between them.
pub open spec fn join_lines(ls: Seq<Seq<char>>) -> Seq<char>
    decreases ls.len(),
{
    if ls.len() == 0 {
        seq![]
    } else if ls.len() == 1 {
        ls[0]
    } else {
        join_lines(ls.drop_last()) + seq!['\n'] + ls.last()
    }
}

/// The views of a sequence of character vectors.
pub open spec fn views(v: Seq<Vec<char>>) -> Seq<Seq<char>> {
    Seq::new(v.len(), |i: int| v[i]@)
}

/// Whether a character is white space.
pub fn is_space_char(c: char) -> (r: bool)
    ensures
        r == is_space(c),
{
    let u = c as u32;
    (0x09 <= u && u <= 0x0D) || u == 0x20 || u == 0x85 || u == 0xA0 || u == 0x1680 || (0x2000
        <= u && u <= 0x200A) || u == 0x2028 || u == 0x2029 || u == 0x202F || u == 0x205F || u
        == 0x3000
}

proof fn lemma_trim_start_at(s: Seq<char>, i: int)
    requires
        0 <= i <= s.len(),
        forall|k: int| 0 <= k < i ==> is_space(#[trigger] s[k]),
        i == s.len() || !is_space(s[i]),
    ensures
        trim_start(s) == s.subrange(i, s.len() as int),
    decreases i,
{
    if i == 0 {
        assert(s.subrange(0, s.len() as int) =~= s);
    } else {
        let t = s.drop_first();
        assert forall|k: int| 0 <= k < i - 1 implies is_space(#[trigger] t[k]) by {
            assert(t[k] == s[k + 1]);
        }
        lemma_trim_start_at(t, i - 1);
        assert(t.subrange(i - 1, t.len() as int) =~= s.subrange(i, s.len() as int));
    }
}

proof fn lemma_trim_end_at(s: Seq<char>, j: int)
    requires
        0 <= j <= s.len(),
        forall|k: int| j <= k < s.len() ==> is_space(#[trigger] s[k]),
        j == 0 || !is_space(s[j - 1]),
    ensures
        trim_end(s) == s.subrange(0, j),
    decreases s.len() - j,
{
    if j == s.len() {
        assert(s.subrange(0, j) =~= s);
    } else {
        let t = s.drop_last();
        lemma_trim_end_at(t, j);
        assert(t.subrange(0, j) =~= s.subrange(0, j));
    }
}

proof fn lemma_trim_start_head(s: Seq<char>)
    ensures
        trim_start(s).len() > 0 ==> !is_space(trim_start(s)[0]),
    decreases s.len(),
{
    if s.len() > 0 && is_space(s[0]) {
        lemma_trim_start_head(s.drop_first());
    }
}

proof fn lemma_trim_end_prefix(u: Seq<char>)
    ensures
        trim_end(u).len() <= u.len(),
        trim_end(u) == u.subrange(0, trim_end(u).len() as int),
        trim_end(u).len() > 0 ==> !is_space(trim_end(u).last()),
    decreases u.len(),
{
    if u.len() > 0 && is_space(u.last()) {
        let v = u.drop_last();
        lemma_trim_end_prefix(v);
        assert(v.subrange(0, trim_end(v).len() as int) =~= u.subrange(0, trim_end(v).len() as int));
    } else {
        assert(u.subrange(0, u.len() as int) =~= u);
    }
}

/// Trimming a trimmed text leaves it as it is.
pub proof fn lemma_trim_idempotent(s: Seq<char>)
    ensures
        trim(trim(s)) == trim(s),
{
    let u = trim_start(s);
    let t = trim_end(u);
    lemma_trim_start_head(s);
    lemma_trim_end_prefix(u);
    if t.len() > 0 {
        assert(t[0] == u[0]);
        assert(trim_start(t) == t);
        assert(trim_end(t) == t);
    } else {
        assert(trim_start(t) == t);
        assert(trim_end(t) == t);
    }
}

/// The first position in `s` that does not hold white space.
fn first_non_space(s: &Vec<char>) -> (i: usize)
    ensures
        i <= s.len(),
        trim_start(s@) == s@.subrange(i as int, s.len() as int),
        indent_of(s@) == i,
{
    let mut i: usize = 0;
    while i < s.len() && is_space_char(s[i])
        invariant
            i <= s.len(),
            forall|k: int| 0 <= k < i ==> is_space(#[trigger] s@[k]),
        decreases s.len() - i,
    {
        i = i + 1;
    }
    proof {
        lemma_trim_start_at(s@, i as int);
    }
    i
}

/// The number of white-space characters that start `s`.
pub fn indent_width(s: &Vec<char>) -> (n: usize)
    ensures
        n == indent_of(s@),
{
    first_non_space(s)
}

/// `s` without white space at either end.
pub fn trim_chars(s: &Vec<char>) -> (r: Vec<char>)
    ensures
        r@ == trim(s@),
{
    let i = first_non_space(s);
    let mut j: usize = s.len();
    while j > i && is_space_char(s[j - 1])
        invariant
            i <= j <= s.len(),
            forall|k: int| j <= k < s.len() ==> is_space(#[trigger] s@[k]),
        decreases j,
    {
        j = j - 1;
    }
    let ghost t = s@.subrange(i as int, s.len() as int);
    proof {
        assert forall|k: int| j - i <= k < t.len() implies is_space(#[trigger] t[k]) by {
            assert(t[k] == s@[k + i]);
        }
        if j > i {
            assert(t[j - i - 1] == s@[j - 1]);
        }
        lemma_trim_end_at(t, j - i);
        assert(t.subrange(0, j - i) =~= s@.subrange(i as int, j as int));
    }
    slice_chars(s, i, j)
}

/// The characters of `s` from `lo` up to `hi`.
pub fn slice_chars(s: &Vec<char>, lo: usize, hi: usize) -> (r: Vec<char>)
    requires
        lo <= hi <= s.len(),
    ensures
        r@ == s@.subrange(lo as int, hi as int),
{
    let mut r: Vec<char> = Vec::new();
    let mut k: usize = lo;
    while k < hi
        invariant
            lo <= k <= hi <= s.len(),
            r@ == s@.subrange(lo as int, k as int),
        decreases hi - k,
    {
        r.push(s[k]);
        proof {
            assert(s@.subrange(lo as int, k + 1) =~= s@.subrange(lo as int, k as int).push(s@[k as int]));
        }
        k = k + 1;
    }
    r
}

/// Whether two character vectors hold the same characters.
pub fn chars_eq(a: &Vec<char>, b: &Vec<char>) -> (r: bool)
    ensures
        r == (a@ == b@),
{
    if a.len() != b.len() {
        return false;
    }
    let mut k: usize = 0;
    while k < a.len()
        invariant
            a.len() == b.len(),
            k <= a.len(),
            forall|m: int| 0 <= m < k ==> a@[m] == b@[m],
        decreases a.len() - k,
    {
        if a[k] != b[k] {
            return false;
        }
        k = k + 1;
    }
    assert(a@ =~= b@);
    true
}

/// Whether `l` holds no `'\n'`.
pub open spec fn no_newline(l: Seq<char>) -> bool {
    forall|k: int| 0 <= k < l.len() ==> l[k] != '\n'
}

/// The smallest indentation among the lines of `ls` that are not blank.
pub open spec fn min_indent(ls: Seq<Seq<char>>) -> Option<nat>
    decreases ls.len(),
{
    if ls.len() == 0 {
        None
    } else {
        let rest = min_indent(ls.drop_last());
        let l = ls.last();
        if is_blank(l) {
            rest
        } else {
            match rest {
                None => Some(indent_of(l)),
                Some(m) => Some(if m <= indent_of(l) { m } else { indent_of(l) }),
            }
        }
    }
}

/// `l` without its first `m` characters, where it has that many.
pub open spec fn strip_indent(l: Seq<char>, m: nat) -> Seq<char> {
    if l.len() >= m {
        l.subrange(m as int, l.len() as int)
    } else {
        l
    }
}

/// The common indentation of `ls`, zero where every line is blank.
pub open spec fn common_indent(ls: Seq<Seq<char>>) -> nat {
    match min_indent(ls) {
        Some(m) => m,
        None => 0,
    }
}

/// The lines of `ls` with their common indentation removed, joined by
/// `'\n'`.
pub open spec fn normalize(ls: Seq<Seq<char>>) -> Seq<char> {
    join_lines(Seq::new(ls.len(), |i: int| strip_indent(ls[i], common_indent(ls))))
}

/// The number of lines in a text: one more than its `'\n'` characters.
pub open spec fn line_count(t: Seq<char>) -> nat {
    t.filter(|c: char| c == '\n').len() + 1
}

pub proof fn lemma_split_lines_no_newline(s: Seq<char>)
    ensures
        forall|i: int| 0 <= i < split_lines(s).0.len() ==> no_newline(#[trigger] split_lines(s).0[i]),
        no_newline(split_lines(s).1),
    decreases s.len(),
{
    if s.len() > 0 {
        lemma_split_lines_no_newline(s.drop_last());
    }
}

pub proof fn lemma_lines_no_newline(s: Seq<char>)
    ensures
        forall|i: int| 0 <= i < lines_of(s).len() ==> no_newline(#[trigger] lines_of(s)[i]),
{
    lemma_split_lines_no_newline(s);
}

proof fn lemma_filter_push_newline(t: Seq<char>, c: char)
    ensures
        t.push(c).filter(|x: char| x == '\n').len() == t.filter(|x: char| x == '\n').len() + (if c
            == '\n' {
            1int
        } else {
            0int
        }),
{
    reveal(Seq::filter);
    assert(t.push(c).drop_last() =~= t);
}

proof fn lemma_newlines_concat(a: Seq<char>, b: Seq<char>)
    ensures
        (a + b).filter(|x: char| x == '\n').len() == a.filter(|x: char| x == '\n').len() + b.filter(
            |x: char| x == '\n',
        ).len(),
    decreases b.len(),
{
    if b.len() == 0 {
        assert(a + b =~= a);
        assert(b.filter(|x: char| x == '\n') =~= seq![]) by {
            reveal(Seq::filter);
        }
    } else {
        let b0 = b.drop_last();
        lemma_newlines_concat(a, b0);
        assert(a + b =~= (a + b0).push(b.last()));
        assert(b =~= b0.push(b.last()));
        lemma_filter_push_newline(a + b0, b.last());
        lemma_filter_push_newline(b0, b.last());
    }
}

proof fn lemma_no_newline_count(l: Seq<char>)
    requires
        no_newline(l),
    ensures
        l.filter(|x: char| x == '\n').len() == 0,
    decreases l.len(),
{
    if l.len() > 0 {
        let l0 = l.drop_last();
        lemma_no_newline_count(l0);
        assert(l =~= l0.push(l.last()));
        lemma_filter_push_newline(l0, l.last());
    } else {
        assert(l.filter(|x: char| x == '\n') =~= seq![]) by {
            reveal(Seq::filter);
        }
    }
}

/// Joining `k > 0` lines that hold no `'\n'` gives a text of `k` lines.
pub proof fn lemma_join_line_count(ls: Seq<Seq<char>>)
    requires
        ls.len() > 0,
        forall|i: int| 0 <= i < ls.len() ==> no_newline(#[trigger] ls[i]),
    ensures
        line_count(join_lines(ls)) == ls.len(),
    decreases ls.len(),
{
    if ls.len() == 1 {
        lemma_no_newline_count(ls[0]);
    } else {
        let init = ls.drop_last();
        assert forall|i: int| 0 <= i < init.len() implies no_newline(#[trigger] init[i]) by {
            assert(init[i] == ls[i]);
        }
        lemma_join_line_count(init);
        let j = join_lines(init);
        lemma_newlines_concat(j, seq!['\n']);
        lemma_newlines_concat(j + seq!['\n'], ls.last());
        lemma_filter_push_newline(seq![], '\n');
        assert(seq!['\n'] =~= Seq::<char>::empty().push('\n'));
        assert(Seq::<char>::empty().filter(|x: char| x == '\n') =~= seq![]) by {
            reveal(Seq::filter);
        }
        lemma_no_newline_count(ls.last());
    }
}

/// The lines of `s`.
pub fn split_into_lines(s: &Vec<char>) -> (r: Vec<Vec<char>>)
    ensures
        views(r@) == lines_of(s@),
{
    let mut done: Vec<Vec<char>> = Vec::new();
    let mut cur: Vec<char> = Vec::new();
    let mut i: usize = 0;
    while i < s.len()
        invariant
            i <= s.len(),
            (views(done@), cur@) == split_lines(s@.subrange(0, i as int)),
        decreases s.len() - i,
    {
        let c = s[i];
        proof {
            let p = s@.subrange(0, i + 1);
            assert(p.drop_last() =~= s@.subrange(0, i as int));
            assert(p.last() == c);
        }
        if c == '\n' {
            if cur.len() > 0 && cur[cur.len() - 1] == '\r' {
                cur.pop();
            }
            let ghost old_done = done@;
            done.push(cur);
            proof {
                assert(views(done@) =~= views(old_done).push(done@.last()@));
            }
            cur = Vec::new();
            proof {
                assert(cur@ =~= seq![]);
            }
        } else {
            cur.push(c);
        }
        i = i + 1;
    }
    proof {
        assert(s@.subrange(0, s.len() as int) =~= s@);
    }
    if cur.len() > 0 {
        let ghost old_done = done@;
        done.push(cur);
        proof {
            assert(views(done@) =~= views(old_done).push(done@.last()@));
        }
    }
    done
}

/// The lines `lines[lo..hi]` (with `trimmed` their trimmed forms) with their
/// common indentation removed, joined by `'\n'`.
pub fn normalized_block(lines: &Vec<Vec<char>>, trimmed: &Vec<Vec<char>>, lo: usize, hi: usize) -> (r:
    Vec<char>)
    requires
        lo < hi <= lines.len(),
        trimmed.len() == lines.len(),
        forall|i: int| 0 <= i < lines.len() ==> trimmed@[i]@ == trim(#[trigger] lines@[i]@),
    ensures
        r@ == normalize(views(lines@).subrange(lo as int, hi as int)),
{
    let ghost ls = views(lines@).subrange(lo as int, hi as int);
    // the smallest indentation of a non-blank line
    let mut found = false;
    let mut m: usize = 0;
    let mut k: usize = lo;
    while k < hi
        invariant
            lo <= k <= hi <= lines.len(),
            trimmed.len() == lines.len(),
            forall|i: int| 0 <= i < lines.len() ==> trimmed@[i]@ == trim(#[trigger] lines@[i]@),
            ls == views(lines@).subrange(lo as int, hi as int),
            found ==> min_indent(ls.subrange(0, k - lo)) == Some(m as nat),
            !found ==> min_indent(ls.subrange(0, k - lo)) == None::<nat> && m == 0,
        decreases hi - k,
    {
        proof {
            let p = ls.subrange(0, k + 1 - lo);
            assert(p.drop_last() =~= ls.subrange(0, k - lo));
            assert(p.last() == lines@[k as int]@);
        }
        if trimmed[k].len() > 0 {
            let w = indent_width(&lines[k]);
            if !found || w < m {
                m = w;
            }
            found = true;
        }
        k = k + 1;
    }
    proof {
        assert(ls.subrange(0, hi - lo) =~= ls);
    }
    let ghost stripped = Seq::new(ls.len(), |i: int| strip_indent(ls[i], common_indent(ls)));
    let mut r: Vec<char> = Vec::new();
    let mut k: usize = lo;
    while k < hi
        invariant
            lo <= k <= hi <= lines.len(),
            ls == views(lines@).subrange(lo as int, hi as int),
            m == common_indent(ls),
            stripped == Seq::new(ls.len(), |i: int| strip_indent(ls[i], common_indent(ls))),
            r@ == join_lines(stripped.subrange(0, k - lo)),
        decreases hi - k,
    {
        let line = &lines[k];
        proof {
            let p = stripped.subrange(0, k + 1 - lo);
            assert(p.drop_last() =~= stripped.subrange(0, k - lo));
            assert(p.last() == stripped[k - lo]);
            assert(ls[k - lo] == line@);
        }
        if k > lo {
            r.push('\n');
        }
        let start: usize = if line.len() >= m {
            m
        } else {
            0
        };
        let piece = slice_chars(line, start, line.len());
        proof {
            if line.len() < m {
                assert(piece@ =~= line@);
            }
        }
        let ghost before = r@;
        let mut t: usize = 0;
        while t < piece.len()
            invariant
                t <= piece.len(),
                r@ == before + piece@.subrange(0, t as int),
            decreases piece.len() - t,
        {
            r.push(piece[t]);
            proof {
                assert(piece@.subrange(0, t + 1) =~= piece@.subrange(0, t as int).push(piece@[t as int]));
            }
            t = t + 1;
        }
        proof {
            assert(piece@.subrange(0, piece.len() as int) =~= piece@);
            if k > lo {
                assert(r@ =~= join_lines(stripped.subrange(0, k - lo)) + seq!['\n'] + piece@);
            } else {
                assert(r@ =~= piece@);
            }
        }
        k = k + 1;
    }
    proof {
        assert(stripped.subrange(0, hi - lo) =~= stripped);
    }
    r
}

/// The number of bytes of the UTF-8 encoding of `t`.
pub open spec fn byte_len(t: Seq<char>) -> nat {
    vstd::utf8::encode_utf8(t).len()
}

/// The number of bytes that character `c` takes in UTF-8.
fn utf8_width(c: char) -> (w: u128)
    ensures
        w == vstd::utf8::encode_scalar(c as u32).len(),
        w <= 4,
{
    let u = c as u32;
    if u <= 0x7F {
        1
    } else if u <= 0x7FF {
        2
    } else if u <= 0xFFFF && !(0xD800 <= u && u <= 0xDFFF) {
        3
    } else {
        4
    }
}

/// The number of bytes of the UTF-8 encoding of `t`.
pub fn utf8_len(t: &Vec<char>) -> (n: u128)
    ensures
        n == byte_len(t@),
{
    let mut n: u128 = 0;
    let mut i: usize = t.len();
    proof {
        assert(t@.subrange(i as int, t.len() as int) =~= seq![]);
    }
    while i > 0
        invariant
            i <= t.len(),
            n == byte_len(t@.subrange(i as int, t.len() as int)),
            n <= 4 * (t.len() - i),
        decreases i,
    {
        let w = utf8_width(t[i - 1]);
        proof {
            let s = t@.subrange(i - 1, t.len() as int);
            assert(s.drop_first() =~= t@.subrange(i as int, t.len() as int));
            assert(s[0] == t@[i - 1]);
        }
        n = n + w;
        i = i - 1;
    }
    proof {
        assert(t@.subrange(0, t.len() as int) =~= t@);
    }
    n
}

/// Relies on `str::chars`: the characters of `s`, in order.
#[verifier::external_body]
pub(crate) fn chars_of(s: &str) -> (r: Vec<char>)
    ensures
        r@ == s@,
{
    s.chars().collect()
}

/// Relies on `FromIterator<&char>` for `String`: a string of exactly the
/// characters of `v`.
#[verifier::external_body]
pub(crate) fn string_of(v: &Vec<char>) -> (r: String)
    ensures
        r@ == v@,
{
    v.iter().collect()
}

/// Relies on `std::str::from_utf8`: `Some` exactly when the bytes are valid
/// UTF-8, holding the text that they encode.
#[verifier::external_body]
pub(crate) fn utf8_text(b: &[u8]) -> (r: Option<&str>)
    ensures
        r.is_some() <==> vstd::utf8::valid_utf8(b@),
        r.is_some() ==> r.unwrap().spec_bytes() == b@,
{
    std::str::from_utf8(b).ok()
}

} // verus!
