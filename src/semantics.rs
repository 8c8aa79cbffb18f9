use vstd::prelude::*;
use crate::model::{ValueModel, NodeModel, entries_map};
use crate::mapping::{canonical, merge_under};
use crate::text::{trim, trim_start, unquote, is_quoted, seq_item_shape, first_index};
use crate::lines::{comment_split, block_scalar};

verus! {

/// A line of the document: indentation, content, line number.
pub type LineModel = (nat, Seq<char>, nat);

/// An error: its line and column, and its message.
pub type Place = (nat, nat, Seq<char>);

pub enum SeqWaitModel {
    Child { inline: Option<Seq<char>>, anchor: Option<Seq<char>>, child_indent: nat },
    Continuation {
        map: Map<Seq<char>, NodeModel>,
        inline: Option<Seq<char>>,
        child_indent: nat,
        line_no: nat,
        column: nat,
    },
    AnchorValue {
        map: Map<Seq<char>, NodeModel>,
        key: Seq<char>,
        inline: Option<Seq<char>>,
        anchor_name: Seq<char>,
        child_indent: nat,
        line_no: nat,
        column: nat,
    },
}

pub struct MapWaitModel {
    pub key: Seq<char>,
    pub inline: Option<Seq<char>>,
    pub anchor: Option<Seq<char>>,
    pub child_indent: nat,
}

pub struct SeqFrameModel {
    pub base: nat,
    pub items: Seq<NodeModel>,
    pub pending: Seq<(nat, Seq<char>)>,
    pub waiting: Option<SeqWaitModel>,
}

pub struct MapFrameModel {
    pub base: nat,
    pub entries: Map<Seq<char>, NodeModel>,
    pub pending: Seq<(nat, Seq<char>)>,
    pub waiting: Option<MapWaitModel>,
}

pub enum FrameModel {
    Sequence(SeqFrameModel),
    Mapping(MapFrameModel),
}

pub struct EnvModel {
    pub lines: Seq<LineModel>,
    pub index: nat,
    pub anchors: Map<Seq<char>, ValueModel>,
}

pub enum StepModel {
    Continue,
    NeedChild(nat),
    Return(ValueModel),
}

/// The value of an inline mapping entry, or the anchor whose nested block it waits for.
pub enum InlineModel {
    Ready(NodeModel),
    NeedsBlock(Seq<char>, nat),
}

pub open spec fn bare_node(v: ValueModel) -> NodeModel {
    NodeModel { value: v, leading: Seq::empty(), inline: None }
}

pub open spec fn col_after(p: nat) -> nat {
    if p < usize::MAX { p + 1 } else { p }
}

pub open spec fn deeper_at(env: EnvModel, base: nat) -> bool {
    env.index < env.lines.len() && env.lines[env.index as int].0 > base
}

pub open spec fn with_index(env: EnvModel, i: nat) -> EnvModel {
    EnvModel { index: i, ..env }
}

/// The value that follows `key:` on a sequence item's line.
pub open spec fn inline_value(env: EnvModel, vpart: Seq<char>, line_no: nat, expected: nat, column: nat) -> (Result<InlineModel, Place>, EnvModel) {
    if is_quoted(vpart) {
        (Ok(InlineModel::Ready(bare_node(ValueModel::Str(unquote(vpart))))), env)
    } else if vpart == seq!['|'] {
        let b = block_scalar(env.lines, env.index as int, expected);
        (Ok(InlineModel::Ready(bare_node(ValueModel::Str(b.0)))), with_index(env, b.1 as nat))
    } else if vpart == seq!['[', ']'] {
        (Ok(InlineModel::Ready(bare_node(ValueModel::Sequence(Seq::empty())))), env)
    } else if vpart == seq!['{', '}'] {
        (Ok(InlineModel::Ready(bare_node(ValueModel::Mapping(Seq::empty())))), env)
    } else if vpart.len() > 0 && vpart[0] == '&' {
        if env.index >= env.lines.len() || env.lines[env.index as int].0 < expected {
            (Err((line_no, column, "anchor without nested value"@)), env)
        } else {
            (Ok(InlineModel::NeedsBlock(trim(vpart.subrange(1, vpart.len() as int)), env.lines[env.index as int].0)), env)
        }
    } else if vpart.len() > 0 && vpart[0] == '*' {
        let name = trim(vpart.subrange(1, vpart.len() as int));
        if env.anchors.contains_key(name) {
            (Ok(InlineModel::Ready(bare_node(env.anchors[name]))), env)
        } else {
            (Err((line_no, column, "unknown anchor: "@ + name)), env)
        }
    } else {
        (Ok(InlineModel::Ready(bare_node(ValueModel::Str(vpart)))), env)
    }
}

/// One entry of an inline mapping added; see `insert_inline_entry`.
pub open spec fn inline_entry(map: Map<Seq<char>, NodeModel>, key: Seq<char>, node: NodeModel, line_no: nat, column: nat) -> Result<Map<Seq<char>, NodeModel>, Place> {
    if key == seq!['<', '<'] {
        match node.value {
            ValueModel::Mapping(es) => Ok(merge_under(map, entries_map(es))),
            _ => Err((line_no, column, "merge source must be a mapping"@)),
        }
    } else {
        Ok(map.insert(key, bare_node(node.value)))
    }
}

pub open spec fn seq_push(f: SeqFrameModel, v: ValueModel, inline: Option<Seq<char>>) -> SeqFrameModel {
    SeqFrameModel {
        items: f.items.push(NodeModel { value: v, leading: f.pending, inline }),
        pending: Seq::empty(),
        ..f
    }
}

pub open spec fn map_push(f: MapFrameModel, key: Seq<char>, v: ValueModel, inline: Option<Seq<char>>) -> MapFrameModel {
    MapFrameModel {
        entries: f.entries.insert(key, NodeModel { value: v, leading: f.pending, inline }),
        pending: Seq::empty(),
        ..f
    }
}

pub open spec fn seq_wait_indent(w: SeqWaitModel) -> nat {
    match w {
        SeqWaitModel::Child { child_indent, .. } => child_indent,
        SeqWaitModel::Continuation { child_indent, .. } => child_indent,
        SeqWaitModel::AnchorValue { child_indent, .. } => child_indent,
    }
}

/// The rest of a sequence item of the form `- key: value`.
pub open spec fn seq_inline_map(
    f: SeqFrameModel,
    env: EnvModel,
    line_no: nat,
    after_dash: Seq<char>,
    p: nat,
    inline: Option<Seq<char>>,
) -> (Result<StepModel, Place>, SeqFrameModel, EnvModel) {
    let key = unquote(trim(after_dash.subrange(0, p as int)));
    let vpart = trim_start(after_dash.subrange(p as int + 1, after_dash.len() as int));
    let column = col_after(p);
    let expected = col_after(col_after(f.base));
    let o = inline_value(env, vpart, line_no, expected, column);
    let env1 = o.1;
    match o.0 {
        Err(e) => (Err(e), f, env1),
        Ok(InlineModel::Ready(node)) => match inline_entry(Map::empty(), key, node, line_no, column) {
            Err(e) => (Err(e), f, env1),
            Ok(map) => if deeper_at(env1, f.base) {
                let ci = env1.lines[env1.index as int].0;
                (
                    Ok(StepModel::NeedChild(ci)),
                    SeqFrameModel {
                        waiting: Some(SeqWaitModel::Continuation { map, inline, child_indent: ci, line_no, column }),
                        ..f
                    },
                    env1,
                )
            } else {
                (Ok(StepModel::Continue), seq_push(f, ValueModel::Mapping(canonical(map)), inline), env1)
            },
        },
        Ok(InlineModel::NeedsBlock(anchor_name, ci)) => (
            Ok(StepModel::NeedChild(ci)),
            SeqFrameModel {
                waiting: Some(SeqWaitModel::AnchorValue {
                    map: Map::empty(),
                    key,
                    inline,
                    anchor_name,
                    child_indent: ci,
                    line_no,
                    column,
                }),
                ..f
            },
            env1,
        ),
    }
}

/// One step of a sequence frame: it waits for its nested block, reads its
/// next line, or ends.
pub open spec fn seq_step(f: SeqFrameModel, env: EnvModel) -> (Result<StepModel, Place>, SeqFrameModel, EnvModel) {
    let ret = (Ok(StepModel::Return(ValueModel::Sequence(f.items))), f, env);
    if f.waiting is Some {
        (Ok(StepModel::NeedChild(seq_wait_indent(f.waiting->0))), f, env)
    } else if env.index >= env.lines.len() {
        ret
    } else {
        let line = env.lines[env.index as int];
        let content = line.1;
        if line.0 < f.base {
            ret
        } else {
            if content.len() > 0 && content[0] == '#' {
                (
                    Ok(StepModel::Continue),
                    SeqFrameModel { pending: f.pending.push((line.0, content)), ..f },
                    with_index(env, env.index + 1),
                )
            } else if line.0 > f.base || !seq_item_shape(content) {
                (Ok(StepModel::Return(ValueModel::Sequence(f.items))), f, env)
            } else {
                let cs = comment_split(content);
                let cnc = cs.0;
                let inline = cs.1;
                if !seq_item_shape(cnc) {
                    (Ok(StepModel::Return(ValueModel::Sequence(f.items))), f, env)
                } else {
                    let after_dash = trim_start(cnc.subrange(1, cnc.len() as int));
                    let env1 = with_index(env, env.index + 1);
                    if after_dash.len() == 0 {
                        if !deeper_at(env1, f.base) {
                            (Ok(StepModel::Continue), seq_push(f, ValueModel::Str(after_dash), inline), env1)
                        } else {
                            let ci = env1.lines[env1.index as int].0;
                            (
                                Ok(StepModel::NeedChild(ci)),
                                SeqFrameModel {
                                    waiting: Some(SeqWaitModel::Child { inline, anchor: None, child_indent: ci }),
                                    ..f
                                },
                                env1,
                            )
                        }
                    } else if after_dash == seq!['|'] {
                        let b = block_scalar(env1.lines, env1.index as int, col_after(f.base));
                        (Ok(StepModel::Continue), seq_push(f, ValueModel::Str(b.0), inline), with_index(env1, b.1 as nat))
                    } else if after_dash == seq!['[', ']'] {
                        (Ok(StepModel::Continue), seq_push(f, ValueModel::Sequence(Seq::empty()), inline), env1)
                    } else if after_dash == seq!['{', '}'] {
                        (Ok(StepModel::Continue), seq_push(f, ValueModel::Mapping(Seq::empty()), inline), env1)
                    } else if first_index(after_dash, ':') is Some {
                        seq_inline_map(f, env1, line.2, after_dash, first_index(after_dash, ':')->0 as nat, inline)
                    } else if after_dash[0] == '&' {
                        if !deeper_at(env1, f.base) {
                            (Err((line.2, 1, "anchor without nested value"@)), f, env1)
                        } else {
                            let ci = env1.lines[env1.index as int].0;
                            let name = trim(after_dash.subrange(1, after_dash.len() as int));
                            (
                                Ok(StepModel::NeedChild(ci)),
                                SeqFrameModel {
                                    waiting: Some(SeqWaitModel::Child { inline, anchor: Some(name), child_indent: ci }),
                                    ..f
                                },
                                env1,
                            )
                        }
                    } else if after_dash[0] == '*' {
                        let name = trim(after_dash.subrange(1, after_dash.len() as int));
                        if env1.anchors.contains_key(name) {
                            (Ok(StepModel::Continue), seq_push(f, env1.anchors[name], inline), env1)
                        } else {
                            (Err((line.2, 1, "unknown anchor: "@ + name)), f, env1)
                        }
                    } else {
                        (Ok(StepModel::Continue), seq_push(f, ValueModel::Str(unquote(after_dash)), inline), env1)
                    }
                }
            }
        }
    }
}

/// A sequence frame takes the value of the nested block it waited for.
pub open spec fn seq_child(f: SeqFrameModel, v: ValueModel, env: EnvModel) -> (Result<(), Place>, SeqFrameModel, EnvModel) {
    let f0 = SeqFrameModel { waiting: None, ..f };
    match f.waiting {
        None => (Err((1, 1, "sequence not awaiting child"@)), f0, env),
        Some(SeqWaitModel::Child { inline, anchor, .. }) => {
            let env1 = match anchor {
                Some(name) => EnvModel { anchors: env.anchors.insert(name, v), ..env },
                None => env,
            };
            (Ok(()), seq_push(f0, v, inline), env1)
        },
        Some(SeqWaitModel::Continuation { map, inline, line_no, column, .. }) => match v {
            ValueModel::Mapping(es) => (
                Ok(()),
                seq_push(f0, ValueModel::Mapping(canonical(map.union_prefer_right(entries_map(es)))), inline),
                env,
            ),
            _ => (Err((line_no, column, "inline mapping continuation must be a mapping"@)), f0, env),
        },
        Some(SeqWaitModel::AnchorValue { map, key, inline, anchor_name, line_no, column, .. }) => {
            let env1 = EnvModel { anchors: env.anchors.insert(anchor_name, v), ..env };
            match inline_entry(map, key, bare_node(v), line_no, column) {
                Err(e) => (Err(e), f0, env1),
                Ok(map1) => if deeper_at(env1, f.base) {
                    let ci = env1.lines[env1.index as int].0;
                    (
                        Ok(()),
                        SeqFrameModel {
                            waiting: Some(SeqWaitModel::Continuation { map: map1, inline, child_indent: ci, line_no, column }),
                            ..f0
                        },
                        env1,
                    )
                } else {
                    (Ok(()), seq_push(f0, ValueModel::Mapping(canonical(map1)), inline), env1)
                },
            }
        },
    }
}

/// One step of a mapping frame.
pub open spec fn map_step(f: MapFrameModel, env: EnvModel) -> (Result<StepModel, Place>, MapFrameModel, EnvModel) {
    let ret = (Ok(StepModel::Return(ValueModel::Mapping(canonical(f.entries)))), f, env);
    if f.waiting is Some {
        (Ok(StepModel::NeedChild(f.waiting->0.child_indent)), f, env)
    } else if env.index >= env.lines.len() {
        ret
    } else {
        let line = env.lines[env.index as int];
        let content = line.1;
        if line.0 < f.base || seq_item_shape(content) {
            ret
        } else {
            if content.len() > 0 && content[0] == '#' {
                (
                    Ok(StepModel::Continue),
                    MapFrameModel { pending: f.pending.push((line.0, content)), ..f },
                    with_index(env, env.index + 1),
                )
            } else if line.0 > f.base {
                (Ok(StepModel::Return(ValueModel::Mapping(canonical(f.entries)))), f, env)
            } else {
                let cs = comment_split(content);
                let cnc = cs.0;
                let inline = cs.1;
                match first_index(cnc, ':') {
                    None => (Err((line.2, 1, "expected ':' in mapping entry"@)), f, env),
                    Some(p) => {
                        let key = unquote(trim(cnc.subrange(0, p)));
                        let vpart = trim_start(cnc.subrange(p + 1, cnc.len() as int));
                        let env1 = with_index(env, env.index + 1);
                        let column = col_after(p as nat);
                        if key == seq!['<', '<'] && vpart.len() > 0 && vpart[0] == '*' {
                            let name = trim(vpart.subrange(1, vpart.len() as int));
                            if !env1.anchors.contains_key(name) {
                                (Err((line.2, column, "unknown anchor: "@ + name)), f, env1)
                            } else {
                                match env1.anchors[name] {
                                    ValueModel::Mapping(es) => (
                                        Ok(StepModel::Continue),
                                        MapFrameModel {
                                            entries: merge_under(f.entries, entries_map(es)),
                                            pending: Seq::empty(),
                                            ..f
                                        },
                                        env1,
                                    ),
                                    _ => (Err((line.2, column, "merge source must be a mapping"@)), f, env1),
                                }
                            }
                        } else if vpart.len() == 0 {
                            if !deeper_at(env1, f.base) {
                                (Ok(StepModel::Continue), map_push(f, key, ValueModel::Str(vpart), inline), env1)
                            } else {
                                let ci = env1.lines[env1.index as int].0;
                                (
                                    Ok(StepModel::NeedChild(ci)),
                                    MapFrameModel {
                                        waiting: Some(MapWaitModel { key, inline, anchor: None, child_indent: ci }),
                                        ..f
                                    },
                                    env1,
                                )
                            }
                        } else if vpart == seq!['|'] {
                            let b = block_scalar(env1.lines, env1.index as int, col_after(f.base));
                            (Ok(StepModel::Continue), map_push(f, key, ValueModel::Str(b.0), inline), with_index(env1, b.1 as nat))
                        } else if vpart == seq!['[', ']'] {
                            (Ok(StepModel::Continue), map_push(f, key, ValueModel::Sequence(Seq::empty()), inline), env1)
                        } else if vpart == seq!['{', '}'] {
                            (Ok(StepModel::Continue), map_push(f, key, ValueModel::Mapping(Seq::empty()), inline), env1)
                        } else if vpart[0] == '&' {
                            if !deeper_at(env1, f.base) {
                                (Err((line.2, column, "anchor without nested value"@)), f, env1)
                            } else {
                                let ci = env1.lines[env1.index as int].0;
                                let name = trim(vpart.subrange(1, vpart.len() as int));
                                (
                                    Ok(StepModel::NeedChild(ci)),
                                    MapFrameModel {
                                        waiting: Some(MapWaitModel { key, inline, anchor: Some(name), child_indent: ci }),
                                        ..f
                                    },
                                    env1,
                                )
                            }
                        } else if vpart[0] == '*' {
                            let name = trim(vpart.subrange(1, vpart.len() as int));
                            if env1.anchors.contains_key(name) {
                                (Ok(StepModel::Continue), map_push(f, key, env1.anchors[name], inline), env1)
                            } else {
                                (Err((line.2, column, "unknown anchor: "@ + name)), f, env1)
                            }
                        } else {
                            (Ok(StepModel::Continue), map_push(f, key, ValueModel::Str(unquote(vpart)), inline), env1)
                        }
                    },
                }
            }
        }
    }
}

/// A mapping frame takes the value of the nested block it waited for.
pub open spec fn map_child(f: MapFrameModel, v: ValueModel, env: EnvModel) -> (Result<(), Place>, MapFrameModel, EnvModel) {
    let f0 = MapFrameModel { waiting: None, ..f };
    match f.waiting {
        None => (Err((1, 1, "mapping not awaiting child"@)), f0, env),
        Some(w) => {
            let env1 = match w.anchor {
                Some(name) => EnvModel { anchors: env.anchors.insert(name, v), ..env },
                None => env,
            };
            (Ok(()), map_push(f0, w.key, v, w.inline), env1)
        },
    }
}

pub open spec fn frame_step_model(f: FrameModel, env: EnvModel) -> (Result<StepModel, Place>, FrameModel, EnvModel) {
    match f {
        FrameModel::Sequence(q) => {
            let r = seq_step(q, env);
            (r.0, FrameModel::Sequence(r.1), r.2)
        },
        FrameModel::Mapping(m) => {
            let r = map_step(m, env);
            (r.0, FrameModel::Mapping(r.1), r.2)
        },
    }
}

pub open spec fn frame_child_model(f: FrameModel, v: ValueModel, env: EnvModel) -> (Result<(), Place>, FrameModel, EnvModel) {
    match f {
        FrameModel::Sequence(q) => {
            let r = seq_child(q, v, env);
            (r.0, FrameModel::Sequence(r.1), r.2)
        },
        FrameModel::Mapping(m) => {
            let r = map_child(m, v, env);
            (r.0, FrameModel::Mapping(r.1), r.2)
        },
    }
}

/// A fresh frame: a sequence where the line that opens it is a sequence item.
pub open spec fn new_frame(is_seq: bool, base: nat) -> FrameModel {
    if is_seq {
        FrameModel::Sequence(SeqFrameModel { base, items: Seq::empty(), pending: Seq::empty(), waiting: None })
    } else {
        FrameModel::Mapping(MapFrameModel { base, entries: Map::empty(), pending: Seq::empty(), waiting: None })
    }
}

/// The whole parser state: lines, position, anchors, and the frames, outermost first.
pub struct MachineModel {
    pub env: EnvModel,
    pub stack: Seq<FrameModel>,
}

pub enum Outcome {
    Running(MachineModel),
    Done(ValueModel),
    Failed(Place),
}

pub open spec fn frame_base(f: FrameModel) -> nat {
    match f {
        FrameModel::Sequence(q) => q.base,
        FrameModel::Mapping(m) => m.base,
    }
}

pub open spec fn frame_waiting(f: FrameModel) -> bool {
    match f {
        FrameModel::Sequence(q) => q.waiting is Some,
        FrameModel::Mapping(m) => m.waiting is Some,
    }
}

pub open spec fn with_base(f: FrameModel, base: nat) -> FrameModel {
    match f {
        FrameModel::Sequence(q) => FrameModel::Sequence(SeqFrameModel { base, ..q }),
        FrameModel::Mapping(m) => FrameModel::Mapping(MapFrameModel { base, ..m }),
    }
}

/// Whether a line carries on the kind of block that `f` reads: an item or a
/// comment for a sequence, anything but an item for a mapping.
pub open spec fn continues_block(f: FrameModel, content: Seq<char>) -> bool {
    match f {
        FrameModel::Sequence(_) => seq_item_shape(content) || (content.len() > 0 && content[0] == '#'),
        FrameModel::Mapping(_) => !seq_item_shape(content),
    }
}

/// The outermost block has no parent to hand a less indented line to. Where
/// that line carries on the block's kind, the block takes the line's
/// indentation, and the document goes on in it.
pub open spec fn outermost_follows(m: MachineModel) -> MachineModel {
    if m.stack.len() == 1 && m.env.index < m.env.lines.len() {
        let f = m.stack[0];
        let line = m.env.lines[m.env.index as int];
        if !frame_waiting(f) && line.0 < frame_base(f) && continues_block(f, line.1) {
            MachineModel { stack: seq![with_base(f, line.0)], ..m }
        } else {
            m
        }
    } else {
        m
    }
}

/// One step of the parser: the outermost frame may follow a less indented
/// line; then the innermost frame steps; a frame that needs a nested block
/// gets a new frame above it; a frame that ends hands its value to the frame
/// below, or is the result when it was the last.
pub open spec fn machine_step(m0: MachineModel) -> Outcome {
    let m = outermost_follows(m0);
    if m.stack.len() == 0 {
        Outcome::Failed((1, 1, "unexpected empty parser stack"@))
    } else {
        let rest = m.stack.drop_last();
        let r = frame_step_model(m.stack.last(), m.env);
        match r.0 {
            Err(e) => Outcome::Failed(e),
            Ok(StepModel::Continue) => Outcome::Running(MachineModel { env: r.2, stack: rest.push(r.1) }),
            Ok(StepModel::NeedChild(indent)) => if r.2.index >= r.2.lines.len() {
                Outcome::Failed((1, 1, "expected nested block"@))
            } else {
                let opener = r.2.lines[r.2.index as int].1;
                Outcome::Running(MachineModel {
                    env: r.2,
                    stack: rest.push(r.1).push(new_frame(seq_item_shape(opener), indent)),
                })
            },
            Ok(StepModel::Return(v)) => if rest.len() == 0 {
                Outcome::Done(v)
            } else {
                let c = frame_child_model(rest.last(), v, r.2);
                match c.0 {
                    Err(e) => Outcome::Failed(e),
                    Ok(()) => Outcome::Running(MachineModel { env: c.2, stack: rest.drop_last().push(c.1) }),
                }
            },
        }
    }
}

/// The parser run for at most `fuel` steps.
pub open spec fn machine_run(m: MachineModel, fuel: nat) -> Result<ValueModel, Place>
    decreases fuel,
{
    if fuel == 0 {
        Err((1, 1, "parser ran out of steps"@))
    } else {
        match machine_step(m) {
            Outcome::Running(m2) => machine_run(m2, (fuel - 1) as nat),
            Outcome::Done(v) => Ok(v),
            Outcome::Failed(e) => Err(e),
        }
    }
}

/// The parser at the start of a document's lines.
pub open spec fn initial_machine(ls: Seq<LineModel>) -> MachineModel {
    MachineModel {
        env: EnvModel { lines: ls, index: 0, anchors: Map::empty() },
        stack: seq![new_frame(seq_item_shape(ls[0].1), ls[0].0)],
    }
}

} // verus!
