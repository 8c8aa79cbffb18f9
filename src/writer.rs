use vstd::prelude::*;
use crate::model::{
    YamlValue, YamlNode, CommentLine, ValueModel, NodeModel, nodes_view,
    entries_view, comments_view, opt_view, lemma_nodes_view, lemma_entries_view,
};
use crate::text::{chars_of, string_of, is_ws, is_white};
use crate::lines::spaces;
use crate::error::DumpError;
use crate::model::{wf_value, keys_sorted, key_lt, lemma_key_lt_trans};
use crate::text::key_less;

verus! {

pub open spec fn esc_char(c: char) -> Seq<char> {
    if c == '"' {
        seq!['\\', '"']
    } else if c == '\\' {
        seq!['\\', '\\']
    } else {
        seq![c]
    }
}

/// `s` with each `"` and `\` preceded by a backslash.
pub open spec fn escape(s: Seq<char>) -> Seq<char>
    decreases s.len(),
{
    if s.len() == 0 {
        Seq::<char>::empty()
    } else {
        escape(s.drop_last()) + esc_char(s.last())
    }
}

/// `s` with `pad` spaces after each line feed.
pub open spec fn reindent(s: Seq<char>, pad: nat) -> Seq<char>
    decreases s.len(),
{
    if s.len() == 0 {
        Seq::<char>::empty()
    } else {
        reindent(s.drop_last(), pad) + (if s.last() == '\n' {
            seq!['\n'] + spaces(pad)
        } else {
            seq![s.last()]
        })
    }
}

pub open spec fn has_newline(s: Seq<char>) -> bool {
    exists|i: int| 0 <= i < s.len() && s[i] == '\n'
}

/// A space and the comment, where there is one.
pub open spec fn comment_suffix(c: Option<Seq<char>>) -> Seq<char> {
    match c {
        Some(t) => seq![' '] + t,
        None => Seq::<char>::empty(),
    }
}

/// A scalar and its comment: a block literal, with each line indented two
/// spaces deeper than `indent`, where it holds a line feed; else a quoted string.
pub open spec fn scalar_text(indent: nat, s: Seq<char>, c: Option<Seq<char>>) -> Seq<char> {
    if has_newline(s) {
        seq!['|'] + comment_suffix(c) + seq!['\n'] + spaces(indent + 2) + reindent(s, indent + 2)
            + seq!['\n']
    } else {
        seq!['"'] + escape(s) + seq!['"'] + comment_suffix(c) + seq!['\n']
    }
}

/// A key that holds white space, `:`, `?` or `#` is written quoted.
pub open spec fn key_needs_quotes(k: Seq<char>) -> bool {
    exists|i: int| 0 <= i < k.len() && (is_ws(k[i]) || k[i] == ':' || k[i] == '?' || k[i] == '#')
}

pub open spec fn key_text(k: Seq<char>) -> Seq<char> {
    if key_needs_quotes(k) {
        seq!['"'] + escape(k) + seq!['"']
    } else {
        k
    }
}

/// Comment lines, each at its own indentation.
pub open spec fn comments_text(cs: Seq<(nat, Seq<char>)>) -> Seq<char>
    decreases cs.len(),
{
    if cs.len() == 0 {
        Seq::<char>::empty()
    } else {
        comments_text(cs.drop_last()) + spaces(cs.last().0) + cs.last().1 + seq!['\n']
    }
}

/// What follows the marker of an item (`- `) or of an entry (`key:`); `sep`
/// separates the marker from a scalar or an empty collection.
pub open spec fn body_text(n: NodeModel, indent: nat, sep: Seq<char>) -> Seq<char>
    decreases n,
{
    match n.value {
        ValueModel::Str(s) => sep + scalar_text(indent, s, n.inline),
        ValueModel::Sequence(c) => if c.len() == 0 {
            sep + seq!['[', ']'] + comment_suffix(n.inline) + seq!['\n']
        } else {
            comment_suffix(n.inline) + seq!['\n'] + seq_text(c, indent + 2)
        },
        ValueModel::Mapping(c) => if c.len() == 0 {
            sep + seq!['{', '}'] + comment_suffix(n.inline) + seq!['\n']
        } else {
            comment_suffix(n.inline) + seq!['\n'] + map_text(c, indent + 2)
        },
    }
}

/// The items of a sequence, each after its comments, at `indent`.
pub open spec fn seq_text(ns: Seq<NodeModel>, indent: nat) -> Seq<char>
    decreases ns,
{
    if ns.len() == 0 {
        Seq::<char>::empty()
    } else {
        let n = ns[ns.len() - 1];
        seq_text(ns.subrange(0, ns.len() - 1), indent) + comments_text(n.leading) + spaces(indent)
            + seq!['-', ' '] + body_text(n, indent, Seq::<char>::empty())
    }
}

/// The entries of a mapping, in the order they stand, at `indent`.
pub open spec fn map_text(es: Seq<(Seq<char>, NodeModel)>, indent: nat) -> Seq<char>
    decreases es,
{
    if es.len() == 0 {
        Seq::<char>::empty()
    } else {
        let e = es[es.len() - 1];
        map_text(es.subrange(0, es.len() - 1), indent) + comments_text(e.1.leading) + spaces(indent)
            + key_text(e.0) + seq![':'] + body_text(e.1, indent, seq![' '])
    }
}

/// The text of a whole value.
pub open spec fn value_text(v: ValueModel, indent: nat) -> Seq<char> {
    match v {
        ValueModel::Str(s) => scalar_text(indent, s, None),
        ValueModel::Sequence(ns) => if ns.len() == 0 {
            spaces(indent) + seq!['[', ']', '\n']
        } else {
            seq_text(ns, indent)
        },
        ValueModel::Mapping(es) => if es.len() == 0 {
            spaces(indent) + seq!['{', '}', '\n']
        } else {
            map_text(es, indent)
        },
    }
}

fn push_str(out: &mut Vec<char>, s: &[char])
    ensures
        final(out)@ == old(out)@ + s@,
{
    let mut i: usize = 0;
    while i < s.len()
        invariant
            i <= s@.len(),
            out@ == old(out)@ + s@.subrange(0, i as int),
        decreases s.len() - i,
    {
        out.push(s[i]);
        i = i + 1;
        assert(s@.subrange(0, i as int) =~= s@.subrange(0, i - 1).push(s@[i - 1]));
    }
    assert(s@.subrange(0, i as int) =~= s@);
}

fn push_spaces(out: &mut Vec<char>, n: usize)
    ensures
        final(out)@ == old(out)@ + spaces(n as nat),
{
    let mut i: usize = 0;
    while i < n
        invariant
            i <= n,
            out@ == old(out)@ + spaces(i as nat),
        decreases n - i,
    {
        out.push(' ');
        i = i + 1;
        assert(spaces(i as nat) =~= spaces((i - 1) as nat).push(' '));
    }
}

fn push_escaped(out: &mut Vec<char>, s: &[char])
    ensures
        final(out)@ == old(out)@ + escape(s@),
{
    let mut i: usize = 0;
    assert(s@.subrange(0, 0) =~= Seq::<char>::empty());
    while i < s.len()
        invariant
            i <= s@.len(),
            out@ == old(out)@ + escape(s@.subrange(0, i as int)),
        decreases s.len() - i,
    {
        let c = s[i];
        if c == '"' {
            out.push('\\');
            out.push('"');
        } else if c == '\\' {
            out.push('\\');
            out.push('\\');
        } else {
            out.push(c);
        }
        assert(s@.subrange(0, i + 1).drop_last() =~= s@.subrange(0, i as int));
        assert(out@ =~= old(out)@ + escape(s@.subrange(0, i + 1)));
        i = i + 1;
    }
    assert(s@.subrange(0, i as int) =~= s@);
}

fn push_reindented(out: &mut Vec<char>, s: &[char], pad: usize)
    ensures
        final(out)@ == old(out)@ + reindent(s@, pad as nat),
{
    let mut i: usize = 0;
    assert(s@.subrange(0, 0) =~= Seq::<char>::empty());
    while i < s.len()
        invariant
            i <= s@.len(),
            out@ == old(out)@ + reindent(s@.subrange(0, i as int), pad as nat),
        decreases s.len() - i,
    {
        let ghost before = out@;
        let c = s[i];
        if c == '\n' {
            out.push('\n');
            push_spaces(out, pad);
        } else {
            out.push(c);
        }
        assert(s@.subrange(0, i + 1).drop_last() =~= s@.subrange(0, i as int));
        assert(out@ =~= old(out)@ + reindent(s@.subrange(0, i + 1), pad as nat));
        i = i + 1;
    }
    assert(s@.subrange(0, i as int) =~= s@);
}

fn contains_newline(s: &[char]) -> (r: bool)
    ensures
        r == has_newline(s@),
{
    let mut i: usize = 0;
    while i < s.len()
        invariant
            i <= s@.len(),
            forall|j: int| 0 <= j < i ==> s@[j] != '\n',
        decreases s.len() - i,
    {
        if s[i] == '\n' {
            return true;
        }
        i = i + 1;
    }
    false
}

fn push_comment_suffix(out: &mut Vec<char>, c: &Option<String>)
    ensures
        final(out)@ == old(out)@ + comment_suffix(opt_view(*c)),
{
    match c {
        Some(t) => {
            out.push(' ');
            let tc = chars_of(t.as_str());
            push_str(out, &tc);
        }
        None => {}
    }
}

fn write_scalar(out: &mut Vec<char>, indent: usize, s: &String, c: &Option<String>)
    requires
        indent + 2 <= usize::MAX,
    ensures
        final(out)@ == old(out)@ + scalar_text(indent as nat, s@, opt_view(*c)),
{
    let sc = chars_of(s.as_str());
    if contains_newline(&sc) {
        out.push('|');
        push_comment_suffix(out, c);
        out.push('\n');
        push_spaces(out, indent + 2);
        push_reindented(out, &sc, indent + 2);
        out.push('\n');
    } else {
        out.push('"');
        push_escaped(out, &sc);
        out.push('"');
        push_comment_suffix(out, c);
        out.push('\n');
    }
}

fn write_comments(out: &mut Vec<char>, comments: &Vec<CommentLine>)
    ensures
        final(out)@ == old(out)@ + comments_text(comments_view(comments@)),
{
    let mut i: usize = 0;
    let ghost cv = comments_view(comments@);
    assert(cv.subrange(0, 0) =~= Seq::<(nat, Seq<char>)>::empty());
    while i < comments.len()
        invariant
            i <= comments@.len(),
            cv == comments_view(comments@),
            out@ == old(out)@ + comments_text(cv.subrange(0, i as int)),
        decreases comments.len() - i,
    {
        push_spaces(out, comments[i].indent);
        let tc = chars_of(comments[i].text.as_str());
        push_str(out, &tc);
        out.push('\n');
        assert(cv.subrange(0, i + 1).drop_last() =~= cv.subrange(0, i as int));
        i = i + 1;
    }
    assert(cv.subrange(0, i as int) =~= cv);
}

fn key_needs_quoting(k: &[char]) -> (r: bool)
    ensures
        r == key_needs_quotes(k@),
{
    let mut i: usize = 0;
    while i < k.len()
        invariant
            i <= k@.len(),
            forall|j: int| 0 <= j < i ==> !(is_ws(k@[j]) || k@[j] == ':' || k@[j] == '?' || k@[j] == '#'),
        decreases k.len() - i,
    {
        let c = k[i];
        if is_white(c) || c == ':' || c == '?' || c == '#' {
            return true;
        }
        i = i + 1;
    }
    false
}

fn write_key(out: &mut Vec<char>, k: &String)
    ensures
        final(out)@ == old(out)@ + key_text(k@),
{
    let kc = chars_of(k.as_str());
    if key_needs_quoting(&kc) {
        out.push('"');
        push_escaped(out, &kc);
        out.push('"');
    } else {
        push_str(out, &kc);
    }
}

/// Every indentation that writing `v` at `indent` needs fits in a `usize`.
pub open spec fn fits(v: ValueModel, indent: nat) -> bool
    decreases v,
{
    indent + 2 <= usize::MAX && match v {
        ValueModel::Str(_) => true,
        ValueModel::Sequence(ns) => forall|i: int|
            #![trigger ns[i]]
            0 <= i < ns.len() ==> fits(ns[i].value, (indent + 2) as nat),
        ValueModel::Mapping(es) => forall|i: int|
            #![trigger es[i]]
            0 <= i < es.len() ==> fits(es[i].1.value, (indent + 2) as nat),
    }
}

/// Every indentation that writing `v` as a whole document needs fits in a `usize`.
pub open spec fn fits_document(v: ValueModel) -> bool {
    match v {
        ValueModel::Str(_) => true,
        ValueModel::Sequence(ns) => forall|i: int|
            #![trigger ns[i]]
            0 <= i < ns.len() ==> fits(ns[i].value, 0),
        ValueModel::Mapping(es) => forall|i: int|
            #![trigger es[i]]
            0 <= i < es.len() ==> fits(es[i].1.value, 0),
    }
}

fn nodes_fit(items: &Vec<YamlNode>, indent: usize) -> (r: bool)
    ensures
        r == forall|i: int| 0 <= i < items@.len() ==> fits(#[trigger] items@[i]@.value, indent as nat),
    decreases items,
{
    let mut i: usize = 0;
    while i < items.len()
        invariant
            i <= items@.len(),
            forall|j: int| 0 <= j < i ==> fits(#[trigger] items@[j]@.value, indent as nat),
        decreases items.len() - i,
    {
        proof {
            assert(decreases_to!(*items => items[i as int]));
            assert(decreases_to!(items[i as int] => items[i as int].value));
        }
        assert(items@[i as int]@.value == items@[i as int].value@);
        if !value_fits(&items[i].value, indent) {
            return false;
        }
        i = i + 1;
    }
    true
}

fn entries_fit(entries: &Vec<(String, YamlNode)>, indent: usize) -> (r: bool)
    ensures
        r == forall|i: int| 0 <= i < entries@.len() ==> fits(#[trigger] entries@[i].1@.value, indent as nat),
    decreases entries,
{
    let mut i: usize = 0;
    while i < entries.len()
        invariant
            i <= entries@.len(),
            forall|j: int| 0 <= j < i ==> fits(#[trigger] entries@[j].1@.value, indent as nat),
        decreases entries.len() - i,
    {
        proof {
            assert(decreases_to!(*entries => entries[i as int]));
            assert(decreases_to!(entries[i as int] => entries[i as int].1));
            assert(decreases_to!(entries[i as int].1 => entries[i as int].1.value));
        }
        assert(entries@[i as int].1@.value == entries@[i as int].1.value@);
        if !value_fits(&entries[i].1.value, indent) {
            return false;
        }
        i = i + 1;
    }
    true
}

fn value_fits(v: &YamlValue, indent: usize) -> (r: bool)
    ensures
        r == fits(v@, indent as nat),
    decreases v,
{
    if indent > usize::MAX - 2 {
        return false;
    }
    match v {
        YamlValue::Str(_) => true,
        YamlValue::Sequence(items) => {
            proof {
                assert(decreases_to!(*v => v->Sequence_0));
                lemma_nodes_view(items@);
            }
            let r = nodes_fit(items, indent + 2);
            proof {
                let ns = nodes_view(items@);
                assert(r == forall|i: int| #![trigger ns[i]] 0 <= i < ns.len() ==> fits(ns[i].value, (indent + 2) as nat)) by {
                    if r {
                        assert forall|i: int| #![trigger ns[i]] 0 <= i < ns.len() implies fits(ns[i].value, (indent + 2) as nat) by {
                            assert(ns[i] == items@[i]@);
                        }
                    } else {
                        let i = choose|i: int| 0 <= i < items@.len() && !fits(#[trigger] items@[i]@.value, (indent + 2) as nat);
                        assert(ns[i] == items@[i]@);
                    }
                }
            }
            r
        }
        YamlValue::Mapping(entries) => {
            proof {
                assert(decreases_to!(*v => v->Mapping_0));
                lemma_entries_view(entries@);
            }
            let r = entries_fit(entries, indent + 2);
            proof {
                let es = entries_view(entries@);
                assert(r == forall|i: int| #![trigger es[i]] 0 <= i < es.len() ==> fits(es[i].1.value, (indent + 2) as nat)) by {
                    if r {
                        assert forall|i: int| #![trigger es[i]] 0 <= i < es.len() implies fits(es[i].1.value, (indent + 2) as nat) by {
                            assert(es[i].1 == entries@[i].1@);
                        }
                    } else {
                        let i = choose|i: int| 0 <= i < entries@.len() && !fits(#[trigger] entries@[i].1@.value, (indent + 2) as nat);
                        assert(es[i].1 == entries@[i].1@);
                    }
                }
            }
            r
        }
    }
}

/// Whether every mapping in `v`, at any depth, holds its keys in strictly
/// increasing order.
pub fn is_well_formed(v: &YamlValue) -> (r: bool)
    ensures
        r == wf_value(v@),
    decreases v,
{
    match v {
        YamlValue::Str(_) => true,
        YamlValue::Sequence(items) => {
            proof {
                assert(decreases_to!(*v => v->Sequence_0));
                lemma_nodes_view(items@);
            }
            let ghost ns = nodes_view(items@);
            let mut i: usize = 0;
            while i < items.len()
                invariant
                    i <= items@.len(),
                    *v is Sequence,
                    v->Sequence_0 == *items,
                    ns == nodes_view(items@),
                    ns.len() == items@.len(),
                    forall|j: int| 0 <= j < items@.len() ==> #[trigger] ns[j] == items@[j]@,
                    forall|j: int| 0 <= j < i ==> wf_value(#[trigger] ns[j].value),
                decreases items.len() - i,
            {
                proof {
                    assert(decreases_to!(*v => v->Sequence_0));
                    assert(decreases_to!(*items => items[i as int]));
                    assert(decreases_to!(items[i as int] => items[i as int].value));
                    assert(ns[i as int].value == items@[i as int].value@);
                }
                if !is_well_formed(&items[i].value) {
                    return false;
                }
                i = i + 1;
            }
            true
        }
        YamlValue::Mapping(entries) => {
            proof {
                assert(decreases_to!(*v => v->Mapping_0));
                lemma_entries_view(entries@);
            }
            let ghost es = entries_view(entries@);
            let mut i: usize = 0;
            while i < entries.len()
                invariant
                    i <= entries@.len(),
                    *v is Mapping,
                    v->Mapping_0 == *entries,
                    es == entries_view(entries@),
                    es.len() == entries@.len(),
                    forall|j: int| 0 <= j < entries@.len() ==> #[trigger] es[j] == (entries@[j].0@, entries@[j].1@),
                    forall|j: int| 0 <= j < i ==> wf_value(#[trigger] es[j].1.value),
                    forall|a: int, b: int| 0 <= a < b < i ==> key_lt(#[trigger] es[a].0, #[trigger] es[b].0),
                decreases entries.len() - i,
            {
                proof {
                    assert(decreases_to!(*v => v->Mapping_0));
                    assert(decreases_to!(*entries => entries[i as int]));
                    assert(decreases_to!(entries[i as int] => entries[i as int].1));
                    assert(decreases_to!(entries[i as int].1 => entries[i as int].1.value));
                    assert(es[i as int].1.value == entries@[i as int].1.value@);
                }
                if !is_well_formed(&entries[i].1.value) {
                    return false;
                }
                if i > 0 {
                    let prev = chars_of(entries[i - 1].0.as_str());
                    let cur = chars_of(entries[i].0.as_str());
                    if !key_less(&prev, &cur) {
                        proof {
                            assert(!keys_sorted(es)) by {
                                assert(!key_lt(es[i - 1].0, es[i as int].0));
                            }
                        }
                        return false;
                    }
                    proof {
                        assert forall|a: int, b: int| 0 <= a < b < i + 1 implies key_lt(#[trigger] es[a].0, #[trigger] es[b].0) by {
                            if b == i && a < i - 1 {
                                lemma_key_lt_trans(es[a].0, es[i - 1].0, es[b].0);
                            }
                        }
                    }
                }
                i = i + 1;
            }
            true
        }
    }
}

pub open spec fn sep_of(space: bool) -> Seq<char> {
    if space { seq![' '] } else { Seq::<char>::empty() }
}

fn write_body(out: &mut Vec<char>, n: &YamlNode, indent: usize, space: bool)
    requires
        fits(n@.value, indent as nat),
    ensures
        final(out)@ == old(out)@ + body_text(n@, indent as nat, sep_of(space)),
    decreases n,
{
    let ghost nv = n@;
    match &n.value {
        YamlValue::Str(s) => {
            if space {
                out.push(' ');
            }
            write_scalar(out, indent, s, &n.inline_comment);
            assert(out@ =~= old(out)@ + body_text(nv, indent as nat, sep_of(space)));
        }
        YamlValue::Sequence(c) => {
            proof {
                lemma_nodes_view(c@);
            }
            if c.len() == 0 {
                if space {
                    out.push(' ');
                }
                out.push('[');
                out.push(']');
                push_comment_suffix(out, &n.inline_comment);
                out.push('\n');
                assert(out@ =~= old(out)@ + body_text(nv, indent as nat, sep_of(space)));
            } else {
                push_comment_suffix(out, &n.inline_comment);
                out.push('\n');
                proof {
                    assert(decreases_to!(*n => n.value));
                    assert(decreases_to!(n.value => n.value->Sequence_0));
                    assert forall|i: int| 0 <= i < c@.len() implies fits(#[trigger] c@[i]@.value, (indent + 2) as nat) by {
                        assert(nodes_view(c@)[i] == c@[i]@);
                    }
                }
                let ghost mid = out@;
                write_seq(out, c, indent + 2);
                assert(out@ =~= old(out)@ + body_text(nv, indent as nat, sep_of(space)));
            }
        }
        YamlValue::Mapping(c) => {
            proof {
                lemma_entries_view(c@);
            }
            if c.len() == 0 {
                if space {
                    out.push(' ');
                }
                out.push('{');
                out.push('}');
                push_comment_suffix(out, &n.inline_comment);
                out.push('\n');
                assert(out@ =~= old(out)@ + body_text(nv, indent as nat, sep_of(space)));
            } else {
                push_comment_suffix(out, &n.inline_comment);
                out.push('\n');
                proof {
                    assert(decreases_to!(*n => n.value));
                    assert(decreases_to!(n.value => n.value->Mapping_0));
                    assert forall|i: int| 0 <= i < c@.len() implies fits(#[trigger] c@[i].1@.value, (indent + 2) as nat) by {
                        assert(entries_view(c@)[i].1 == c@[i].1@);
                    }
                }
                write_map(out, c, indent + 2);
                assert(out@ =~= old(out)@ + body_text(nv, indent as nat, sep_of(space)));
            }
        }
    }
}

fn write_seq(out: &mut Vec<char>, items: &Vec<YamlNode>, indent: usize)
    requires
        forall|i: int| 0 <= i < items@.len() ==> fits(#[trigger] items@[i]@.value, indent as nat),
    ensures
        final(out)@ == old(out)@ + seq_text(nodes_view(items@), indent as nat),
    decreases items,
{
    let ghost ns = nodes_view(items@);
    proof {
        lemma_nodes_view(items@);
        assert(ns.subrange(0, 0) =~= Seq::<NodeModel>::empty());
    }
    let mut i: usize = 0;
    while i < items.len()
        invariant
            i <= items@.len(),
            ns == nodes_view(items@),
            ns.len() == items@.len(),
            forall|j: int| 0 <= j < items@.len() ==> #[trigger] ns[j] == items@[j]@,
            forall|j: int| 0 <= j < items@.len() ==> fits(#[trigger] items@[j]@.value, indent as nat),
            out@ == old(out)@ + seq_text(ns.subrange(0, i as int), indent as nat),
        decreases items.len() - i,
    {
        let n = &items[i];
        proof {
            assert(decreases_to!(*items => items[i as int]));
        }
        write_comments(out, &n.leading_comments);
        push_spaces(out, indent);
        out.push('-');
        out.push(' ');
        write_body(out, n, indent, false);
        proof {
            assert(ns.subrange(0, i + 1).subrange(0, i as int) =~= ns.subrange(0, i as int));
            assert(ns.subrange(0, i + 1)[i as int] == n@);
            assert(out@ =~= old(out)@ + seq_text(ns.subrange(0, i + 1), indent as nat));
        }
        i = i + 1;
    }
    assert(ns.subrange(0, i as int) =~= ns);
}

fn write_map(out: &mut Vec<char>, entries: &Vec<(String, YamlNode)>, indent: usize)
    requires
        forall|i: int| 0 <= i < entries@.len() ==> fits(#[trigger] entries@[i].1@.value, indent as nat),
    ensures
        final(out)@ == old(out)@ + map_text(entries_view(entries@), indent as nat),
    decreases entries,
{
    let ghost es = entries_view(entries@);
    proof {
        lemma_entries_view(entries@);
        assert(es.subrange(0, 0) =~= Seq::<(Seq<char>, NodeModel)>::empty());
    }
    let mut i: usize = 0;
    while i < entries.len()
        invariant
            i <= entries@.len(),
            es == entries_view(entries@),
            es.len() == entries@.len(),
            forall|j: int| 0 <= j < entries@.len() ==> #[trigger] es[j] == (entries@[j].0@, entries@[j].1@),
            forall|j: int| 0 <= j < entries@.len() ==> fits(#[trigger] entries@[j].1@.value, indent as nat),
            out@ == old(out)@ + map_text(es.subrange(0, i as int), indent as nat),
        decreases entries.len() - i,
    {
        let e = &entries[i];
        proof {
            assert(decreases_to!(*entries => entries[i as int]));
            assert(decreases_to!(entries[i as int] => entries[i as int].1));
        }
        write_comments(out, &e.1.leading_comments);
        push_spaces(out, indent);
        write_key(out, &e.0);
        out.push(':');
        write_body(out, &e.1, indent, true);
        proof {
            assert(es.subrange(0, i + 1).subrange(0, i as int) =~= es.subrange(0, i as int));
            assert(es.subrange(0, i + 1)[i as int] == (e.0@, e.1@));
            assert(out@ =~= old(out)@ + map_text(es.subrange(0, i + 1), indent as nat));
        }
        i = i + 1;
    }
    assert(es.subrange(0, i as int) =~= es);
}

/// The canonical text of a value: mappings in key order, scalars quoted or as
/// block literals, comments kept. The value must be well formed (every
/// mapping's keys strictly increasing, which `is_well_formed` tests and
/// `map_insert` keeps), so entries are written in key order. It fails only
/// where the nesting is too deep for its indentation to be counted.
pub fn dump_naay(value: &YamlValue) -> (r: Result<String, DumpError>)
    requires
        wf_value(value@),
    ensures
        r is Ok <==> fits_document(value@),
        r is Ok ==> r->Ok_0@ == value_text(value@, 0),
{
    let mut out: Vec<char> = Vec::new();
    match value {
        YamlValue::Str(s) => {
            write_scalar(&mut out, 0, s, &None);
        }
        YamlValue::Sequence(items) => {
            proof {
                lemma_nodes_view(items@);
            }
            if !nodes_fit(items, 0) {
                proof {
                    let i = choose|i: int| 0 <= i < items@.len() && !fits(#[trigger] items@[i]@.value, 0);
                    assert(nodes_view(items@)[i] == items@[i]@);
                }
                return Err(DumpError::TooDeep);
            }
            proof {
                assert forall|i: int| #![trigger nodes_view(items@)[i]] 0 <= i < items@.len() implies fits(nodes_view(items@)[i].value, 0) by {
                    assert(nodes_view(items@)[i] == items@[i]@);
                }
            }
            if items.len() == 0 {
                out.push('[');
                out.push(']');
                out.push('\n');
            } else {
                write_seq(&mut out, items, 0);
            }
        }
        YamlValue::Mapping(entries) => {
            proof {
                lemma_entries_view(entries@);
            }
            if !entries_fit(entries, 0) {
                proof {
                    let i = choose|i: int| 0 <= i < entries@.len() && !fits(#[trigger] entries@[i].1@.value, 0);
                    assert(entries_view(entries@)[i].1 == entries@[i].1@);
                }
                return Err(DumpError::TooDeep);
            }
            proof {
                assert forall|i: int| #![trigger entries_view(entries@)[i]] 0 <= i < entries@.len() implies fits(entries_view(entries@)[i].1.value, 0) by {
                    assert(entries_view(entries@)[i].1 == entries@[i].1@);
                }
            }
            if entries.len() == 0 {
                out.push('{');
                out.push('}');
                out.push('\n');
            } else {
                write_map(&mut out, entries, 0);
            }
        }
    }
    assert(out@ =~= value_text(value@, 0));
    Ok(string_of(&out))
}

} // verus!
