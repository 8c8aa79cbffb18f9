use vstd::prelude::*;
use vstd::std_specs::iter::IteratorSpec;

verus! {

/// The characters of `s`, in order.
pub(crate) fn chars_of(s: &str) -> (r: Vec<char>)
    ensures
        r@ == s@,
{
    broadcast use vstd::string::group_string_axioms;
    let mut it = s.chars();
    let mut out: Vec<char> = Vec::new();
    loop
        invariant
            out@ + it.remaining() == s@,
            it.decrease() is Some,
        ensures
            out@ == s@,
        decreases it.decrease()->0,
    {
        match it.next() {
            Some(c) => {
                out.push(c);
            }
            None => {
                assert(out@ + it.remaining() =~= out@);
                break;
            }
        }
    }
    out
}

/// Relies on `String: FromIterator<char>`: the string holds the characters in order.
#[verifier::external_body]
pub(crate) fn string_of(v: &[char]) -> (r: String)
    ensures
        r@ == v@,
{
    v.iter().collect()
}

/// Whether `a` comes strictly before `b` in code-point order.
pub fn key_less(a: &[char], b: &[char]) -> (r: bool)
    ensures
        r == crate::model::key_lt(a@, b@),
{
    let mut i: usize = 0;
    assert(a@.skip(0) =~= a@);
    assert(b@.skip(0) =~= b@);
    while i < a.len() && i < b.len()
        invariant
            i <= a@.len(),
            i <= b@.len(),
            crate::model::key_lt(a@, b@) == crate::model::key_lt(a@.skip(i as int), b@.skip(i as int)),
        decreases a.len() - i,
    {
        if a[i] != b[i] {
            return a[i] < b[i];
        }
        assert(a@.skip(i as int).drop_first() =~= a@.skip(i + 1));
        assert(b@.skip(i as int).drop_first() =~= b@.skip(i + 1));
        i = i + 1;
    }
    i == a.len() && i < b.len()
}

/// Whether the two character sequences are equal.
pub fn chars_eq(a: &[char], b: &[char]) -> (r: bool)
    ensures
        r == (a@ == b@),
{
    if a.len() != b.len() {
        return false;
    }
    let mut i: usize = 0;
    while i < a.len()
        invariant
            i <= a@.len(),
            a@.len() == b@.len(),
            a@.subrange(0, i as int) == b@.subrange(0, i as int),
        decreases a.len() - i,
    {
        if a[i] != b[i] {
            return false;
        }
        assert(a@.subrange(0, i + 1) =~= a@.subrange(0, i as int).push(a@[i as int]));
        assert(b@.subrange(0, i + 1) =~= b@.subrange(0, i as int).push(b@[i as int]));
        i = i + 1;
    }
    assert(a@ =~= a@.subrange(0, i as int));
    assert(b@ =~= b@.subrange(0, i as int));
    true
}

/// The characters that Unicode classes as white space.
pub open spec fn is_ws(c: char) -> bool {
    ('\u{9}' <= c && c <= '\u{d}') || c == ' ' || c == '\u{85}' || c == '\u{a0}' || c == '\u{1680}'
        || ('\u{2000}' <= c && c <= '\u{200a}') || c == '\u{2028}' || c == '\u{2029}'
        || c == '\u{202f}' || c == '\u{205f}' || c == '\u{3000}'
}

/// White space in the ASCII sense: space, tab, line feed, form feed, carriage return.
pub open spec fn is_ascii_ws(c: char) -> bool {
    c == ' ' || c == '\t' || c == '\n' || c == '\u{c}' || c == '\r'
}

pub fn is_white(c: char) -> (r: bool)
    ensures
        r == is_ws(c),
{
    ('\u{9}' <= c && c <= '\u{d}') || c == ' ' || c == '\u{85}' || c == '\u{a0}' || c == '\u{1680}'
        || ('\u{2000}' <= c && c <= '\u{200a}') || c == '\u{2028}' || c == '\u{2029}'
        || c == '\u{202f}' || c == '\u{205f}' || c == '\u{3000}'
}

pub open spec fn trim_end(s: Seq<char>) -> Seq<char>
    decreases s.len(),
{
    if s.len() > 0 && is_ws(s.last()) {
        trim_end(s.drop_last())
    } else {
        s
    }
}

pub open spec fn trim_start(s: Seq<char>) -> Seq<char>
    decreases s.len(),
{
    if s.len() > 0 && is_ws(s[0]) {
        trim_start(s.drop_first())
    } else {
        s
    }
}

pub open spec fn trim(s: Seq<char>) -> Seq<char> {
    trim_start(trim_end(s))
}

/// The number of space characters that `s` starts with.
pub open spec fn leading_spaces(s: Seq<char>) -> nat
    decreases s.len(),
{
    if s.len() > 0 && s[0] == ' ' {
        1 + leading_spaces(s.drop_first())
    } else {
        0
    }
}

/// The characters of `s` from `a` up to `b`.
pub fn slice_of(s: &[char], a: usize, b: usize) -> (r: Vec<char>)
    requires
        a <= b <= s@.len(),
    ensures
        r@ == s@.subrange(a as int, b as int),
{
    let mut out: Vec<char> = Vec::new();
    let mut i: usize = a;
    while i < b
        invariant
            a <= i <= b,
            b <= s@.len(),
            out@ == s@.subrange(a as int, i as int),
        decreases b - i,
    {
        out.push(s[i]);
        assert(out@ =~= s@.subrange(a as int, i + 1));
        i = i + 1;
    }
    out
}

/// The length of `s` without its trailing white space.
pub fn trim_end_len(s: &[char]) -> (e: usize)
    ensures
        e <= s@.len(),
        trim_end(s@) == s@.subrange(0, e as int),
{
    let mut e: usize = s.len();
    assert(s@.subrange(0, e as int) =~= s@);
    while e > 0 && is_white(s[e - 1])
        invariant
            e <= s@.len(),
            trim_end(s@) == trim_end(s@.subrange(0, e as int)),
        decreases e,
    {
        assert(s@.subrange(0, e as int).drop_last() =~= s@.subrange(0, e - 1));
        e = e - 1;
    }
    e
}

/// The position of the first character of `s` that is not white space.
pub fn trim_start_pos(s: &[char]) -> (b: usize)
    ensures
        b <= s@.len(),
        trim_start(s@) == s@.subrange(b as int, s@.len() as int),
{
    let mut b: usize = 0;
    assert(s@.subrange(0, s@.len() as int) =~= s@);
    while b < s.len() && is_white(s[b])
        invariant
            b <= s@.len(),
            trim_start(s@) == trim_start(s@.subrange(b as int, s@.len() as int)),
        decreases s.len() - b,
    {
        assert(s@.subrange(b as int, s@.len() as int).drop_first() =~= s@.subrange(b + 1, s@.len() as int));
        b = b + 1;
    }
    b
}

/// `s` without white space at either end.
pub fn trim_chars(s: &[char]) -> (r: Vec<char>)
    ensures
        r@ == trim(s@),
{
    let e = trim_end_len(s);
    let t = slice_of(s, 0, e);
    let b = trim_start_pos(&t);
    slice_of(&t, b, t.len())
}

/// `s` without white space at its start.
pub fn trim_start_chars(s: &[char]) -> (r: Vec<char>)
    ensures
        r@ == trim_start(s@),
{
    let b = trim_start_pos(s);
    slice_of(s, b, s.len())
}

/// `s` without white space at its end.
pub fn trim_end_chars(s: &[char]) -> (r: Vec<char>)
    ensures
        r@ == trim_end(s@),
{
    let e = trim_end_len(s);
    slice_of(s, 0, e)
}

/// Whether a line's content opens a sequence item: a dash, then white space or nothing.
pub open spec fn seq_item_shape(content: Seq<char>) -> bool {
    content.len() > 0 && content[0] == '-' && (content.len() == 1 || is_ascii_ws(content[1]))
}

pub fn looks_like_seq(content: &[char]) -> (r: bool)
    ensures
        r == seq_item_shape(content@),
{
    if content.len() == 0 || content[0] != '-' {
        return false;
    }
    if content.len() == 1 {
        return true;
    }
    let c = content[1];
    c == ' ' || c == '\t' || c == '\n' || c == '\u{c}' || c == '\r'
}

/// Whether `s` is wholly wrapped in a matching pair of single or double quotes.
pub open spec fn is_quoted(s: Seq<char>) -> bool {
    s.len() >= 2 && ((s[0] == '"' && s.last() == '"') || (s[0] == '\'' && s.last() == '\''))
}

/// `s` without its outer quotes, where it is wholly quoted.
pub open spec fn unquote(s: Seq<char>) -> Seq<char> {
    if is_quoted(s) {
        s.subrange(1, s.len() - 1)
    } else {
        s
    }
}

pub fn is_quoted_chars(s: &[char]) -> (r: bool)
    ensures
        r == is_quoted(s@),
{
    s.len() >= 2 && ((s[0] == '"' && s[s.len() - 1] == '"') || (s[0] == '\'' && s[s.len() - 1] == '\''))
}

pub fn strip_quotes(s: &[char]) -> (r: Vec<char>)
    ensures
        r@ == unquote(s@),
{
    if is_quoted_chars(s) {
        slice_of(s, 1, s.len() - 1)
    } else {
        slice_of(s, 0, s.len())
    }
}

/// The position of the first occurrence of `c` in `s`.
pub open spec fn first_index(s: Seq<char>, c: char) -> Option<int> {
    if exists|i: int| 0 <= i < s.len() && s[i] == c {
        Some(choose|i: int| 0 <= i < s.len() && s[i] == c && forall|j: int| 0 <= j < i ==> s[j] != c)
    } else {
        None
    }
}

pub fn find_char(s: &[char], c: char) -> (r: Option<usize>)
    ensures
        match r {
            Some(i) => i < s@.len() && s@[i as int] == c && forall|j: int| 0 <= j < i ==> s@[j] != c,
            None => forall|j: int| 0 <= j < s@.len() ==> s@[j] != c,
        },
        match r {
            Some(i) => first_index(s@, c) == Some(i as int),
            None => first_index(s@, c) is None,
        },
{
    let mut i: usize = 0;
    while i < s.len()
        invariant
            i <= s@.len(),
            forall|j: int| 0 <= j < i ==> s@[j] != c,
        decreases s.len() - i,
    {
        if s[i] == c {
            proof {
                let k = choose|k: int| 0 <= k < s@.len() && s@[k] == c && forall|j: int| 0 <= j < k ==> s@[j] != c;
                assert(k == i);
            }
            return Some(i);
        }
        i = i + 1;
    }
    None
}

pub fn starts_with(s: &[char], c: char) -> (r: bool)
    ensures
        r == (s@.len() > 0 && s@[0] == c),
{
    s.len() > 0 && s[0] == c
}

/// Whether `s` is the single character `a`.
pub fn is_one(s: &[char], a: char) -> (r: bool)
    ensures
        r == (s@ == seq![a]),
{
    let r = s.len() == 1 && s[0] == a;
    proof {
        if s@.len() == 1 && s@[0] == a {
            assert(s@ =~= seq![a]);
        }
    }
    r
}

/// Whether `s` is the two characters `a` and `b`.
pub fn is_two(s: &[char], a: char, b: char) -> (r: bool)
    ensures
        r == (s@ == seq![a, b]),
{
    let r = s.len() == 2 && s[0] == a && s[1] == b;
    proof {
        if s@.len() == 2 && s@[0] == a && s@[1] == b {
            assert(s@ =~= seq![a, b]);
        }
    }
    r
}

} // verus!
