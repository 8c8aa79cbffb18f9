use vstd::prelude::*;
use crate::text::{is_ws, trim_end, trim_start, leading_spaces, is_white, slice_of, trim_end_chars, trim_start_chars, chars_of};
use crate::error::ParseError;

verus! {

/// The quoting state after one more character: inside single quotes, inside
/// double quotes, and whether the previous character escapes the next one.
pub open spec fn scan_step(st: (bool, bool, bool), ch: char) -> (bool, bool, bool) {
    let single = if ch == '\'' && !st.1 { !st.0 } else { st.0 };
    let double = if ch == '"' && !st.0 {
        if st.1 && !st.2 { false } else if !st.1 { true } else { st.1 }
    } else {
        st.1
    };
    (single, double, ch == '\\' && double && !st.2)
}

/// The quoting state before the character at `i`.
pub open spec fn scan_state(line: Seq<char>, i: int) -> (bool, bool, bool)
    decreases i,
{
    if i <= 0 {
        (false, false, false)
    } else {
        scan_step(scan_state(line, i - 1), line[i - 1])
    }
}

/// A `#` outside quotes, first on the line or after white space, starts a comment.
pub open spec fn comment_at(line: Seq<char>, i: int) -> bool {
    &&& 0 <= i < line.len()
    &&& line[i] == '#'
    &&& !scan_state(line, i).0
    &&& !scan_state(line, i).1
    &&& (i == 0 || is_ws(line[i - 1]))
}

/// Where the comment of a line starts, if it has one.
pub open spec fn first_comment(line: Seq<char>) -> Option<int> {
    if exists|i: int| comment_at(line, i) {
        Some(choose|i: int| comment_at(line, i) && forall|j: int| 0 <= j < i ==> !comment_at(line, j))
    } else {
        None
    }
}

/// A line's content without its comment and trailing white space, and its comment.
pub open spec fn comment_split(line: Seq<char>) -> (Seq<char>, Option<Seq<char>>) {
    match first_comment(line) {
        Some(i) => (trim_end(line.subrange(0, i)), Some(line.subrange(i, line.len() as int))),
        None => (trim_end(line), None),
    }
}

pub open spec fn opt_chars(o: Option<Vec<char>>) -> Option<Seq<char>> {
    match o {
        Some(v) => Some(v@),
        None => None,
    }
}

/// Splits a line into its content, without trailing white space, and the
/// comment that ends it, `#` included.
pub fn split_inline_comment(line: &[char]) -> (r: (Vec<char>, Option<Vec<char>>))
    ensures
        (r.0@, opt_chars(r.1)) == comment_split(line@),
        match r.1 {
            Some(c) => exists|i: int| {
                &&& comment_at(line@, i)
                &&& forall|j: int| 0 <= j < i ==> !comment_at(line@, j)
                &&& r.0@ == trim_end(line@.subrange(0, i))
                &&& c@ == line@.subrange(i, line@.len() as int)
            },
            None => {
                &&& forall|j: int| 0 <= j < line@.len() ==> !comment_at(line@, j)
                &&& r.0@ == trim_end(line@)
            },
        },
{
    let mut single = false;
    let mut double = false;
    let mut escaped = false;
    let mut i: usize = 0;
    while i < line.len()
        invariant
            i <= line@.len(),
            (single, double, escaped) == scan_state(line@, i as int),
            forall|j: int| 0 <= j < i ==> !comment_at(line@, j),
        decreases line.len() - i,
    {
        let ch = line[i];
        if ch == '#' && !single && !double && (i == 0 || is_white(line[i - 1])) {
            let before = slice_of(line, 0, i);
            let content = trim_end_chars(&before);
            let comment = slice_of(line, i, line.len());
            assert(comment_at(line@, i as int));
            proof {
                let k = choose|k: int| comment_at(line@, k) && forall|j: int| 0 <= j < k ==> !comment_at(line@, j);
                assert(k == i);
            }
            return (content, Some(comment));
        }
        if ch == '\'' && !double {
            single = !single;
        } else if ch == '"' && !single {
            if double && !escaped {
                double = false;
            } else if !double {
                double = true;
            }
        }
        escaped = ch == '\\' && double && !escaped;
        i = i + 1;
    }
    assert(line@.subrange(0, line@.len() as int) =~= line@);
    (trim_end_chars(line), None)
}

/// One non-blank line of a document: its indentation in spaces, its content
/// without surrounding white space, and its line number counted from one.
pub struct Line {
    pub indent: usize,
    pub content: Vec<char>,
    pub line_no: usize,
}

pub open spec fn line_view(l: Line) -> (nat, Seq<char>, nat) {
    (l.indent as nat, l.content@, l.line_no as nat)
}

pub open spec fn lines_view(ls: Seq<Line>) -> Seq<(nat, Seq<char>, nat)> {
    ls.map_values(|l: Line| line_view(l))
}

/// The physical lines of a text, split at each line feed.
pub open spec fn split_newlines(s: Seq<char>) -> Seq<Seq<char>>
    decreases s.len(),
{
    if s.len() == 0 {
        seq![Seq::<char>::empty()]
    } else {
        let r = split_newlines(s.drop_last());
        if s.last() == '\n' {
            r.push(Seq::<char>::empty())
        } else {
            r.update(r.len() - 1, r.last().push(s.last()))
        }
    }
}

pub proof fn lemma_split_newlines_len(s: Seq<char>)
    ensures
        split_newlines(s).len() >= 1,
    decreases s.len(),
{
    if s.len() > 0 {
        lemma_split_newlines_len(s.drop_last());
    }
}

pub proof fn lemma_split_prefix(s: Seq<char>, n: int)
    requires
        0 <= n <= s.len(),
    ensures
        split_newlines(s).len() >= split_newlines(s.take(n)).len(),
        forall|j: int| 0 <= j < split_newlines(s.take(n)).len() - 1
            ==> split_newlines(s)[j] == #[trigger] split_newlines(s.take(n))[j],
    decreases s.len() - n,
{
    lemma_split_newlines_len(s.take(n));
    if n < s.len() {
        lemma_split_prefix(s, n + 1);
        assert(s.take(n + 1).drop_last() =~= s.take(n));
        let a = split_newlines(s.take(n));
        let b = split_newlines(s.take(n + 1));
        assert(s.take(n + 1).last() == s[n]);
        assert forall|j: int| 0 <= j < a.len() - 1 implies split_newlines(s)[j] == #[trigger] a[j] by {
            assert(b[j] == a[j]);
        }
    } else {
        assert(s.take(n) =~= s);
    }
}

/// The indentation and content of a physical line; none where it is blank.
pub open spec fn logical_line(raw: Seq<char>) -> Option<(nat, Seq<char>)> {
    let t = trim_end(raw);
    let c = trim_start(t);
    if c.len() == 0 {
        None
    } else {
        Some((leading_spaces(t), c))
    }
}

/// The non-blank lines among the first `n` physical lines.
pub open spec fn logical_lines(raws: Seq<Seq<char>>, n: int) -> Seq<(nat, Seq<char>, nat)>
    decreases n,
{
    if n <= 0 {
        seq![]
    } else {
        let prev = logical_lines(raws, n - 1);
        match logical_line(raws[n - 1]) {
            Some(l) => prev.push((l.0, l.1, n as nat)),
            None => prev,
        }
    }
}

pub proof fn lemma_logical_lines_prefix(r1: Seq<Seq<char>>, r2: Seq<Seq<char>>, n: int)
    requires
        0 <= n <= r1.len(),
        n <= r2.len(),
        forall|j: int| 0 <= j < n ==> r1[j] == r2[j],
    ensures
        logical_lines(r1, n) == logical_lines(r2, n),
    decreases n,
{
    if n > 0 {
        lemma_logical_lines_prefix(r1, r2, n - 1);
    }
}

pub open spec fn has_tab(raw: Seq<char>) -> bool {
    exists|i: int| 0 <= i < raw.len() && raw[i] == '\t'
}

fn contains_tab(raw: &[char]) -> (r: bool)
    ensures
        r == has_tab(raw@),
{
    let mut i: usize = 0;
    while i < raw.len()
        invariant
            i <= raw@.len(),
            forall|j: int| 0 <= j < i ==> raw@[j] != '\t',
        decreases raw.len() - i,
    {
        if raw[i] == '\t' {
            return true;
        }
        i = i + 1;
    }
    false
}

fn count_leading_spaces(t: &[char]) -> (n: usize)
    ensures
        n as nat == leading_spaces(t@),
{
    let mut n: usize = 0;
    assert(t@.skip(0) =~= t@);
    while n < t.len() && t[n] == ' '
        invariant
            n <= t@.len(),
            leading_spaces(t@) == n + leading_spaces(t@.skip(n as int)),
        decreases t.len() - n,
    {
        assert(t@.skip(n as int).drop_first() =~= t@.skip(n + 1));
        n = n + 1;
    }
    n
}

/// The logical line of a physical line, where it is not blank.
fn make_line(raw: &[char], line_no: usize) -> (r: Option<Line>)
    ensures
        match logical_line(raw@) {
            Some(l) => r is Some && line_view(r->0) == (l.0, l.1, line_no as nat),
            None => r is None,
        },
{
    let t = trim_end_chars(raw);
    let c = trim_start_chars(&t);
    if c.len() == 0 {
        return None;
    }
    let indent = count_leading_spaces(&t);
    Some(Line { indent, content: c, line_no })
}

/// Splits a document into its non-blank lines. A tab anywhere is refused, at
/// the first line that holds one.
pub fn preprocess(input: &str) -> (r: Result<Vec<Line>, ParseError>)
    ensures
        match r {
            Ok(ls) => {
                &&& forall|k: int| 0 <= k < split_newlines(input@).len() ==> !has_tab(#[trigger] split_newlines(input@)[k])
                &&& lines_view(ls@) == logical_lines(split_newlines(input@), split_newlines(input@).len() as int)
            },
            Err(e) => exists|k: int| {
                &&& 0 <= k < split_newlines(input@).len()
                &&& has_tab(#[trigger] split_newlines(input@)[k])
                &&& forall|j: int| 0 <= j < k ==> !has_tab(#[trigger] split_newlines(input@)[j])
                &&& e.line() == k + 1
                &&& e.column() == 1
                &&& e.place() == ((k + 1) as nat, 1nat, crate::error::tab_message())
            },
        },
{
    let s = chars_of(input);
    let mut out: Vec<Line> = Vec::new();
    let mut cur: Vec<char> = Vec::new();
    let mut k: usize = 0;
    let mut i: usize = 0;
    assert(s@.take(0) =~= Seq::<char>::empty());
    while i < s.len()
        invariant
            i <= s@.len(),
            k + cur@.len() <= i,
            s@ == input@,
            split_newlines(s@.take(i as int)).len() == k + 1,
            cur@ == split_newlines(s@.take(i as int))[k as int],
            forall|j: int| 0 <= j < k ==> !has_tab(#[trigger] split_newlines(s@.take(i as int))[j]),
            lines_view(out@) == logical_lines(split_newlines(s@.take(i as int)), k as int),
        decreases s.len() - i,
    {
        let ghost r = split_newlines(s@.take(i as int));
        let ghost r2 = split_newlines(s@.take(i + 1));
        assert(s@.take(i + 1).drop_last() =~= s@.take(i as int));
        let c = s[i];
        if c == '\n' {
            proof {
                assert(r2 == r.push(Seq::<char>::empty()));
                lemma_split_prefix(s@, i + 1);
            }
            if contains_tab(&cur) {
                proof {
                    let f = split_newlines(input@);
                    assert(f[k as int] == r2[k as int]);
                    assert(has_tab(f[k as int]));
                    assert forall|j: int| 0 <= j < k implies !has_tab(#[trigger] f[j]) by {
                        assert(f[j] == r2[j]);
                    }
                }
                return Err(ParseError::tab_error(k + 1));
            }
            let ml = make_line(&cur, k + 1);
            match ml {
                Some(l) => {
                    out.push(l);
                }
                None => {}
            }
            proof {
                assert(r2 == r.push(Seq::<char>::empty()));
                lemma_logical_lines_prefix(r, r2, k as int);
                assert(lines_view(out@) =~= logical_lines(r2, k + 1));
            }
            cur = Vec::new();
            k = k + 1;
        } else {
            cur.push(c);
            proof {
                assert(r2 == r.update(k as int, r[k as int].push(c)));
                lemma_logical_lines_prefix(r, r2, k as int);
            }
        }
        i = i + 1;
    }
    assert(s@.take(i as int) =~= s@);
    if cur.len() == 0 {
        proof {
            assert(trim_end(cur@) =~= cur@);
            assert(trim_start(cur@) =~= cur@);
            assert(lines_view(out@) =~= logical_lines(split_newlines(input@), k + 1));
        }
        return Ok(out);
    }
    if contains_tab(&cur) {
        return Err(ParseError::tab_error(k + 1));
    }
    let ml = make_line(&cur, k + 1);
    match ml {
        Some(l) => {
            out.push(l);
        }
        None => {}
    }
    assert(lines_view(out@) =~= logical_lines(split_newlines(input@), k + 1));
    Ok(out)
}

/// Where a block literal that starts at `start` ends: at the first line not
/// indented deeper than `min_indent`, or at the end.
pub open spec fn block_end(ls: Seq<(nat, Seq<char>, nat)>, start: int, min_indent: nat) -> int
    decreases ls.len() - start,
{
    if start < 0 || start >= ls.len() || ls[start].0 <= min_indent {
        start
    } else {
        block_end(ls, start + 1, min_indent)
    }
}

/// The least indentation among the lines from `a` up to `b`.
pub open spec fn least_indent(ls: Seq<(nat, Seq<char>, nat)>, a: int, b: int) -> nat
    decreases b - a,
{
    if b <= a + 1 {
        ls[a].0
    } else {
        let m = least_indent(ls, a, b - 1);
        if ls[b - 1].0 < m { ls[b - 1].0 } else { m }
    }
}

pub open spec fn spaces(n: nat) -> Seq<char> {
    Seq::new(n, |i: int| ' ')
}

/// A line of a block literal: its indentation beyond `m` as spaces, then its content.
pub open spec fn block_line(l: (nat, Seq<char>, nat), m: nat) -> Seq<char> {
    spaces((l.0 - m) as nat) + l.1
}

/// The lines from `a` up to `b`, each dedented by `m`, joined by line feeds.
pub open spec fn block_body(ls: Seq<(nat, Seq<char>, nat)>, a: int, b: int, m: nat) -> Seq<char>
    decreases b - a,
{
    if b <= a {
        Seq::<char>::empty()
    } else if b == a + 1 {
        block_line(ls[a], m)
    } else {
        block_body(ls, a, b - 1, m) + seq!['\n'] + block_line(ls[b - 1], m)
    }
}

/// The text of the block literal that starts at `start`, and where it ends.
pub open spec fn block_scalar(ls: Seq<(nat, Seq<char>, nat)>, start: int, min_indent: nat) -> (Seq<char>, int) {
    let e = block_end(ls, start, min_indent);
    if e == start {
        (Seq::<char>::empty(), start)
    } else {
        (block_body(ls, start, e, least_indent(ls, start, e)), e)
    }
}

pub proof fn lemma_least_indent(ls: Seq<(nat, Seq<char>, nat)>, a: int, b: int)
    requires
        0 <= a < b <= ls.len(),
    ensures
        forall|j: int| a <= j < b ==> least_indent(ls, a, b) <= #[trigger] ls[j].0,
        exists|j: int| a <= j < b && least_indent(ls, a, b) == ls[j].0,
    decreases b - a,
{
    if b > a + 1 {
        lemma_least_indent(ls, a, b - 1);
    } else {
        assert(least_indent(ls, a, b) == ls[a].0);
    }
}

/// Reads the block literal that starts at `*index`, and moves `*index` past it.
pub fn parse_block_scalar(lines: &Vec<Line>, index: &mut usize, min_indent: usize) -> (r: Vec<char>)
    requires
        *old(index) <= lines@.len(),
    ensures
        *old(index) <= *final(index) <= lines@.len(),
        (r@, *final(index) as int) == block_scalar(lines_view(lines@), *old(index) as int, min_indent as nat),
{
    let ghost ls = lines_view(lines@);
    let start = *index;
    let mut e = start;
    while e < lines.len() && lines[e].indent > min_indent
        invariant
            start <= e <= lines@.len(),
            ls == lines_view(lines@),
            block_end(ls, start as int, min_indent as nat) == block_end(ls, e as int, min_indent as nat),
            forall|j: int| start <= j < e ==> ls[j].0 > min_indent,
        decreases lines.len() - e,
    {
        e = e + 1;
    }
    *index = e;
    if e == start {
        return Vec::new();
    }
    let mut m = lines[start].indent;
    let mut j = start + 1;
    while j < e
        invariant
            start < j <= e,
            e <= lines@.len(),
            ls == lines_view(lines@),
            m as nat == least_indent(ls, start as int, j as int),
        decreases e - j,
    {
        if lines[j].indent < m {
            m = lines[j].indent;
        }
        j = j + 1;
    }
    proof {
        lemma_least_indent(ls, start as int, e as int);
    }
    let mut out: Vec<char> = Vec::new();
    let mut j = start;
    while j < e
        invariant
            start <= j <= e,
            e <= lines@.len(),
            ls == lines_view(lines@),
            m as nat == least_indent(ls, start as int, e as int),
            forall|q: int| start <= q < e ==> m <= #[trigger] ls[q].0,
            out@ == block_body(ls, start as int, j as int, m as nat),
        decreases e - j,
    {
        let ghost before = out@;
        if j > start {
            out.push('\n');
        }
        assert(ls[j as int] == line_view(lines@[j as int]));
        assert(m <= ls[j as int].0);
        let pad = lines[j].indent - m;
        let mut p: usize = 0;
        while p < pad
            invariant
                p <= pad,
                j > start ==> out@ == before + seq!['\n'] + spaces(p as nat),
                j == start ==> out@ == before + spaces(p as nat),
            decreases pad - p,
        {
            out.push(' ');
            p = p + 1;
            assert(spaces(p as nat) =~= spaces((p - 1) as nat).push(' '));
        }
        let content = &lines[j].content;
        let mut q: usize = 0;
        while q < content.len()
            invariant
                q <= content@.len(),
                j > start ==> out@ == before + seq!['\n'] + spaces(pad as nat) + content@.subrange(0, q as int),
                j == start ==> out@ == before + spaces(pad as nat) + content@.subrange(0, q as int),
            decreases content.len() - q,
        {
            out.push(content[q]);
            q = q + 1;
            assert(content@.subrange(0, q as int) =~= content@.subrange(0, q - 1).push(content@[q - 1]));
        }
        proof {
            assert(content@.subrange(0, q as int) =~= content@);
            if j > start {
                assert(out@ =~= block_body(ls, start as int, j + 1, m as nat));
            } else {
                assert(before =~= Seq::<char>::empty());
                assert(out@ =~= block_body(ls, start as int, j + 1, m as nat));
            }
        }
        j = j + 1;
    }
    out
}

} // verus!
