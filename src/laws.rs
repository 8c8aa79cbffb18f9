use vstd::prelude::*;
use crate::model::{
    NodeModel, ValueModel, key_lt, keys_sorted, entries_map, lemma_key_lt_total,
};
use crate::mapping::{lemma_entries_map_insert, lemma_entries_map_at, merge_under};
use crate::semantics::{MapFrameModel, EnvModel, StepModel, Place, map_step, map_child, col_after, with_index};
use crate::text::{seq_item_shape, first_index, unquote, trim, trim_start};
use crate::lines::comment_split;
use crate::writer::{map_text, value_text, scalar_text, reindent, has_newline};
use crate::lines::{block_scalar, block_end, least_indent, block_body, block_line, spaces};
use crate::semantics::LineModel;
use crate::document::{parse_document, version_ok, version_error, version_key, required_version, date_version_shape};

verus! {

proof fn lemma_last_is_greatest(a: Seq<(Seq<char>, NodeModel)>, k: Seq<char>)
    requires
        keys_sorted(a),
        a.len() > 0,
        entries_map(a).contains_key(k),
        k != a.last().0,
    ensures
        key_lt(k, a.last().0),
{
    let i = choose|i: int| 0 <= i < a.len() && a[i].0 == k;
    assert(i != a.len() - 1);
}

/// Two key-sorted entry lists that hold the same key-to-node map are the same list.
pub proof fn lemma_sorted_entries_unique(a: Seq<(Seq<char>, NodeModel)>, b: Seq<(Seq<char>, NodeModel)>)
    requires
        keys_sorted(a),
        keys_sorted(b),
        entries_map(a) == entries_map(b),
    ensures
        a == b,
    decreases a.len() + b.len(),
{
    if a.len() == 0 || b.len() == 0 {
        if a.len() > 0 {
            lemma_entries_map_at(a, 0);
        }
        if b.len() > 0 {
            lemma_entries_map_at(b, 0);
        }
        assert(a =~= b);
    } else {
        let ka = a.last().0;
        let kb = b.last().0;
        lemma_entries_map_at(a, a.len() - 1);
        lemma_entries_map_at(b, b.len() - 1);
        if ka != kb {
            lemma_last_is_greatest(b, ka);
            lemma_last_is_greatest(a, kb);
            lemma_key_lt_total(ka, kb);
        }
        let a0 = a.drop_last();
        let b0 = b.drop_last();
        assert(a0.insert(a0.len() as int, a.last()) =~= a);
        assert(b0.insert(b0.len() as int, b.last()) =~= b);
        lemma_entries_map_insert(a0, a0.len() as int, ka, a.last().1);
        lemma_entries_map_insert(b0, b0.len() as int, kb, b.last().1);
        assert(entries_map(a0) =~= entries_map(a).remove(ka));
        assert(entries_map(b0) =~= entries_map(b).remove(kb));
        lemma_sorted_entries_unique(a0, b0);
        assert(a =~= b);
    }
}

/// A mapping is written with its entries in key order, whatever order they
/// were given in: two well-formed mappings with the same entries are written
/// alike.
pub proof fn law_canonical_key_order(
    a: Seq<(Seq<char>, NodeModel)>,
    b: Seq<(Seq<char>, NodeModel)>,
    indent: nat,
)
    requires
        keys_sorted(a),
        keys_sorted(b),
        entries_map(a) == entries_map(b),
    ensures
        map_text(a, indent) == map_text(b, indent),
        value_text(ValueModel::Mapping(a), indent) == value_text(ValueModel::Mapping(b), indent),
        forall|i: int, j: int| 0 <= i < j < a.len() ==> key_lt(#[trigger] a[i].0, #[trigger] a[j].0),
{
    lemma_sorted_entries_unique(a, b);
}

/// The line at the parse position is an entry of the mapping frame `f`, with
/// its first colon at `p`.
pub open spec fn entry_at(f: MapFrameModel, env: EnvModel, p: int) -> bool {
    &&& f.waiting is None
    &&& env.index < env.lines.len()
    &&& env.lines[env.index as int].0 == f.base
    &&& !seq_item_shape(env.lines[env.index as int].1)
    &&& !(env.lines[env.index as int].1.len() > 0 && env.lines[env.index as int].1[0] == '#')
    &&& first_index(comment_split(env.lines[env.index as int].1).0, ':') == Some(p)
}

/// The key of the entry line at the parse position.
pub open spec fn entry_key(env: EnvModel, p: int) -> Seq<char> {
    unquote(trim(comment_split(env.lines[env.index as int].1).0.subrange(0, p)))
}

/// What follows the colon of the entry line at the parse position.
pub open spec fn entry_value(env: EnvModel, p: int) -> Seq<char> {
    let cnc = comment_split(env.lines[env.index as int].1).0;
    trim_start(cnc.subrange(p + 1, cnc.len() as int))
}

/// A merge line `<<: *name` keeps every entry the mapping already holds,
/// adds each entry of the anchored mapping whose key it lacks, and nothing else.
pub proof fn law_merge_precedence_and_fill(f: MapFrameModel, env: EnvModel, p: int, es: Seq<(Seq<char>, NodeModel)>)
    requires
        entry_at(f, env, p),
        entry_key(env, p) == seq!['<', '<'],
        entry_value(env, p).len() > 0,
        entry_value(env, p)[0] == '*',
        env.anchors.contains_key(trim(entry_value(env, p).subrange(1, entry_value(env, p).len() as int))),
        env.anchors[trim(entry_value(env, p).subrange(1, entry_value(env, p).len() as int))] == ValueModel::Mapping(es),
    ensures
        map_step(f, env).0 == Ok::<StepModel, Place>(StepModel::Continue),
        forall|k: Seq<char>| #[trigger] f.entries.contains_key(k) ==> map_step(f, env).1.entries.contains_key(k)
            && map_step(f, env).1.entries[k] == f.entries[k],
        forall|k: Seq<char>| #[trigger] entries_map(es).contains_key(k) && !f.entries.contains_key(k)
            ==> map_step(f, env).1.entries.contains_key(k) && map_step(f, env).1.entries[k] == entries_map(es)[k],
        map_step(f, env).1.entries.dom() == f.entries.dom().union(entries_map(es).dom()),
{
    let r = map_step(f, env);
    assert(r.1.entries == merge_under(f.entries, entries_map(es)));
    assert(r.1.entries.dom() =~= f.entries.dom().union(entries_map(es).dom()));
}

/// An entry line with a plain scalar value sets its key to that scalar,
/// replacing any entry there, merged or not: an explicit entry wins over a
/// merge in either order.
pub proof fn law_explicit_entry_wins(f: MapFrameModel, env: EnvModel, p: int)
    requires
        entry_at(f, env, p),
        entry_value(env, p).len() > 0,
        entry_value(env, p) != seq!['|'],
        entry_value(env, p) != seq!['[', ']'],
        entry_value(env, p) != seq!['{', '}'],
        entry_value(env, p)[0] != '&',
        entry_value(env, p)[0] != '*',
    ensures
        map_step(f, env).0 == Ok::<StepModel, Place>(StepModel::Continue),
        map_step(f, env).1.entries.contains_key(entry_key(env, p)),
        map_step(f, env).1.entries[entry_key(env, p)].value == ValueModel::Str(unquote(entry_value(env, p))),
{
}

/// An alias entry `key: *name` takes the value bound to `name`; where `name`
/// is not bound, the parse fails with an unknown-anchor error on that line.
pub proof fn law_alias_identity(f: MapFrameModel, env: EnvModel, p: int)
    requires
        entry_at(f, env, p),
        entry_key(env, p) != seq!['<', '<'],
        entry_value(env, p).len() > 0,
        entry_value(env, p)[0] == '*',
    ensures
        ({
            let name = trim(entry_value(env, p).subrange(1, entry_value(env, p).len() as int));
            let r = map_step(f, env);
            if env.anchors.contains_key(name) {
                &&& r.0 == Ok::<StepModel, Place>(StepModel::Continue)
                &&& r.1.entries.contains_key(entry_key(env, p))
                &&& r.1.entries[entry_key(env, p)].value == env.anchors[name]
            } else {
                r.0 == Err::<StepModel, Place>((env.lines[env.index as int].2, col_after(p as nat), "unknown anchor: "@ + name))
            }
        }),
{
    let v = entry_value(env, p);
    assert(v != seq!['|']) by {
        if v == seq!['|'] {
            assert(v[0] == '|');
        }
    }
    assert(v != seq!['[', ']']) by {
        if v == seq!['[', ']'] {
            assert(v[0] == '[');
        }
    }
    assert(v != seq!['{', '}']) by {
        if v == seq!['{', '}'] {
            assert(v[0] == '{');
        }
    }
}

/// A mapping entry whose value is an anchored block binds the anchor to the
/// block's value, replacing any earlier binding of that name.
pub proof fn law_anchor_binds_block(f: MapFrameModel, v: ValueModel, env: EnvModel)
    requires
        f.waiting is Some,
        f.waiting->0.anchor is Some,
    ensures
        map_child(f, v, env).0 == Ok::<(), Place>(()),
        map_child(f, v, env).2.anchors == env.anchors.insert(f.waiting->0.anchor->0, v),
        map_child(f, v, env).1.entries[f.waiting->0.key].value == v,
{
}

/// A document is accepted only with the required version: whatever its
/// text, a successful parse yields a mapping whose version entry is a scalar
/// equal to the required version.
pub proof fn law_version_gate(input: Seq<char>)
    ensures
        parse_document(input) is Ok ==> version_ok(parse_document(input)->Ok_0),
{
}

/// Lines joined by line feeds.
pub open spec fn join_lines(cs: Seq<Seq<char>>) -> Seq<char>
    decreases cs.len(),
{
    if cs.len() == 0 {
        Seq::<char>::empty()
    } else if cs.len() == 1 {
        cs[0]
    } else {
        join_lines(cs.drop_last()) + seq!['\n'] + cs.last()
    }
}

/// The lines from `start` hold `cs`, each at indentation `pad`.
pub open spec fn holds_block(ls: Seq<LineModel>, start: int, pad: nat, cs: Seq<Seq<char>>) -> bool {
    &&& 0 <= start
    &&& start + cs.len() <= ls.len()
    &&& forall|j: int| 0 <= j < cs.len() ==> (#[trigger] ls[start + j]).0 == pad && ls[start + j].1 == cs[j]
}

proof fn lemma_block_end_run(ls: Seq<LineModel>, start: int, min_indent: nat, pad: nat, cs: Seq<Seq<char>>, j: int)
    requires
        holds_block(ls, start, pad, cs),
        pad > min_indent,
        start + cs.len() == ls.len() || ls[start + cs.len()].0 <= min_indent,
        0 <= j <= cs.len(),
    ensures
        block_end(ls, start + j, min_indent) == start + cs.len(),
    decreases cs.len() - j,
{
    if j < cs.len() {
        assert(ls[start + j].0 == pad);
        lemma_block_end_run(ls, start, min_indent, pad, cs, j + 1);
    }
}

proof fn lemma_block_least_run(ls: Seq<LineModel>, start: int, pad: nat, cs: Seq<Seq<char>>, k: int)
    requires
        holds_block(ls, start, pad, cs),
        1 <= k <= cs.len(),
    ensures
        least_indent(ls, start, start + k) == pad,
    decreases k,
{
    assert(ls[start + (k - 1)].0 == pad);
    if k > 1 {
        lemma_block_least_run(ls, start, pad, cs, k - 1);
    } else {
        assert(ls[start + 0].0 == pad);
    }
}

proof fn lemma_block_body_run(ls: Seq<LineModel>, start: int, pad: nat, cs: Seq<Seq<char>>, k: int)
    requires
        holds_block(ls, start, pad, cs),
        0 <= k <= cs.len(),
    ensures
        block_body(ls, start, start + k, pad) == join_lines(cs.take(k)),
    decreases k,
{
    if k > 0 {
        assert(ls[start + (k - 1)].0 == pad && ls[start + (k - 1)].1 == cs[k - 1]);
        assert(block_line(ls[start + (k - 1)], pad) =~= cs[k - 1]);
        assert(cs.take(k).drop_last() =~= cs.take(k - 1));
        if k > 1 {
            lemma_block_body_run(ls, start, pad, cs, k - 1);
        } else {
            assert(cs.take(0) =~= Seq::<Seq<char>>::empty());
        }
    } else {
        assert(cs.take(0) =~= Seq::<Seq<char>>::empty());
    }
}

/// A block literal whose lines all stand at one indentation, deeper than the
/// marker's `min_indent`, reads back as those lines joined by line feeds, and
/// reading goes on at the first line that is not deeper.
pub proof fn law_block_literal_reads_back(ls: Seq<LineModel>, start: int, min_indent: nat, pad: nat, cs: Seq<Seq<char>>)
    requires
        holds_block(ls, start, pad, cs),
        cs.len() > 0,
        pad > min_indent,
        start + cs.len() == ls.len() || ls[start + cs.len()].0 <= min_indent,
    ensures
        block_scalar(ls, start, min_indent) == (join_lines(cs), start + cs.len()),
{
    lemma_block_end_run(ls, start, min_indent, pad, cs, 0);
    lemma_block_least_run(ls, start, pad, cs, cs.len() as int);
    lemma_block_body_run(ls, start, pad, cs, cs.len() as int);
    assert(cs.take(cs.len() as int) =~= cs);
    assert(ls[start + 0].0 == pad);
}

/// Lines, each after `pad` spaces and followed by a line feed.
pub open spec fn indented_lines(cs: Seq<Seq<char>>, pad: nat) -> Seq<char>
    decreases cs.len(),
{
    if cs.len() == 0 {
        Seq::<char>::empty()
    } else {
        indented_lines(cs.drop_last(), pad) + spaces(pad) + cs.last() + seq!['\n']
    }
}

proof fn lemma_reindent_append(a: Seq<char>, b: Seq<char>, pad: nat)
    ensures
        reindent(a + b, pad) == reindent(a, pad) + reindent(b, pad),
    decreases b.len(),
{
    if b.len() == 0 {
        assert(a + b =~= a);
        assert(reindent(a, pad) + reindent(b, pad) =~= reindent(a, pad));
    } else {
        assert((a + b).drop_last() =~= a + b.drop_last());
        lemma_reindent_append(a, b.drop_last(), pad);
    }
}

proof fn lemma_reindent_plain(c: Seq<char>, pad: nat)
    requires
        !has_newline(c),
    ensures
        reindent(c, pad) == c,
    decreases c.len(),
{
    if c.len() > 0 {
        assert(!has_newline(c.drop_last())) by {
            if has_newline(c.drop_last()) {
                let i = choose|i: int| 0 <= i < c.drop_last().len() && c.drop_last()[i] == '\n';
                assert(c[i] == '\n');
            }
        }
        lemma_reindent_plain(c.drop_last(), pad);
        assert(c.last() != '\n') by {
            if c.last() == '\n' {
                assert(c[c.len() - 1] == '\n');
            }
        }
        assert(c.drop_last().push(c.last()) =~= c);
    }
}

proof fn lemma_block_layout(cs: Seq<Seq<char>>, pad: nat, k: int)
    requires
        1 <= k <= cs.len(),
        forall|j: int| 0 <= j < cs.len() ==> !has_newline(#[trigger] cs[j]),
    ensures
        spaces(pad) + reindent(join_lines(cs.take(k)), pad) + seq!['\n'] == indented_lines(cs.take(k), pad),
    decreases k,
{
    let t = cs.take(k);
    assert(t.drop_last() =~= cs.take(k - 1));
    assert(t.last() == cs[k - 1]);
    lemma_reindent_plain(cs[k - 1], pad);
    if k == 1 {
        assert(cs.take(0) =~= Seq::<Seq<char>>::empty());
        assert(indented_lines(cs.take(0), pad) =~= Seq::<char>::empty());
        assert(spaces(pad) + reindent(join_lines(t), pad) + seq!['\n'] =~= indented_lines(t, pad));
    } else {
        lemma_block_layout(cs, pad, k - 1);
        let j = join_lines(cs.take(k - 1));
        lemma_reindent_append(j + seq!['\n'], cs[k - 1], pad);
        lemma_reindent_append(j, seq!['\n'], pad);
        assert(reindent(seq!['\n'], pad) =~= seq!['\n'] + spaces(pad)) by {
            let n1 = seq!['\n'];
            assert(n1.drop_last() =~= Seq::<char>::empty());
            assert(n1.last() == '\n');
            assert(reindent(n1.drop_last(), pad) == Seq::<char>::empty());
            assert(reindent(n1, pad) == reindent(n1.drop_last(), pad) + (seq!['\n'] + spaces(pad)));
        }
        assert(spaces(pad) + reindent(join_lines(t), pad) + seq!['\n'] =~= indented_lines(t, pad));
    }
}

/// A scalar of two or more lines is written as `|` and a line feed, then each
/// of its lines two spaces deeper than `indent`, each ending in a line feed.
pub proof fn law_block_literal_layout(cs: Seq<Seq<char>>, indent: nat)
    requires
        cs.len() >= 2,
        forall|j: int| 0 <= j < cs.len() ==> !has_newline(#[trigger] cs[j]),
    ensures
        scalar_text(indent, join_lines(cs), None) == seq!['|', '\n'] + indented_lines(cs, indent + 2),
{
    let s = join_lines(cs);
    let a = join_lines(cs.drop_last());
    assert(s[a.len() as int] == '\n');
    assert(has_newline(s));
    lemma_block_layout(cs, indent + 2, cs.len() as int);
    assert(cs.take(cs.len() as int) =~= cs);
    assert(scalar_text(indent, s, None) =~= seq!['|', '\n'] + indented_lines(cs, indent + 2));
}

/// A root whose version entry is a well-formed `YYYY.MM.DD-REV` other than
/// the required one is refused, with a message that names the version; one
/// that does not have that shape is refused as malformed.
pub proof fn law_version_gate_refuses(es: Seq<(Seq<char>, NodeModel)>, s: Seq<char>)
    requires
        entries_map(es).contains_key(version_key()),
        entries_map(es)[version_key()].value == ValueModel::Str(s),
        s != required_version() || !date_version_shape(s),
    ensures
        !version_ok(ValueModel::Mapping(es)),
        date_version_shape(s) ==> version_error(ValueModel::Mapping(es))
            == "unsupported _naay_version, expected 2025.01.01-0: "@ + s,
        !date_version_shape(s) ==> version_error(ValueModel::Mapping(es))
            == "malformed _naay_version, expected YYYY.MM.DD-REV: "@ + s,
{
}

/// A comment line at a mapping's indentation is kept, and the next entry
/// carries it as its leading comment, together with the comment that ends
/// the entry's own line.
pub proof fn law_comments_attach_to_entry(f: MapFrameModel, env: EnvModel, p: int)
    requires
        f.waiting is None,
        env.index < env.lines.len(),
        env.lines[env.index as int].0 == f.base,
        env.lines[env.index as int].1.len() > 0,
        env.lines[env.index as int].1[0] == '#',
        entry_at(
            MapFrameModel { pending: f.pending.push((f.base, env.lines[env.index as int].1)), ..f },
            with_index(env, env.index + 1),
            p,
        ),
        entry_value(with_index(env, env.index + 1), p).len() > 0,
        entry_value(with_index(env, env.index + 1), p) != seq!['|'],
        entry_value(with_index(env, env.index + 1), p) != seq!['[', ']'],
        entry_value(with_index(env, env.index + 1), p) != seq!['{', '}'],
        entry_value(with_index(env, env.index + 1), p)[0] != '&',
        entry_value(with_index(env, env.index + 1), p)[0] != '*',
    ensures
        ({
            let c = env.lines[env.index as int].1;
            let f1 = MapFrameModel { pending: f.pending.push((f.base, c)), ..f };
            let env1 = with_index(env, env.index + 1);
            let r1 = map_step(f, env);
            let r2 = map_step(f1, env1);
            let key = entry_key(env1, p);
            &&& r1.0 == Ok::<StepModel, Place>(StepModel::Continue)
            &&& r1.1 == f1
            &&& r1.2 == env1
            &&& r2.0 == Ok::<StepModel, Place>(StepModel::Continue)
            &&& r2.1.entries.contains_key(key)
            &&& r2.1.entries[key] == (NodeModel {
                value: ValueModel::Str(unquote(entry_value(env1, p))),
                leading: f.pending.push((f.base, c)),
                inline: comment_split(env1.lines[env1.index as int].1).1,
            })
            &&& r2.1.pending.len() == 0
        }),
{
    let c = env.lines[env.index as int].1;
    assert(!seq_item_shape(c));
}

} // verus!
