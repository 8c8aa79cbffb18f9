use vstd::prelude::*;
use crate::model::{
    YamlValue, YamlNode, CommentLine, ValueModel, NodeModel, wf_value, nodes_view, entries_view,
    entries_map, lemma_nodes_view, lemma_entries_view, copy_value,
};
use crate::mapping::{map_insert, absorb_entries, merge_under};
use crate::text::{
    chars_of, string_of, looks_like_seq, seq_item_shape, find_char, starts_with, is_one, is_two, slice_of,
    trim_chars, trim_start_chars, strip_quotes, is_quoted_chars,
};
use crate::lines::{Line, split_inline_comment, parse_block_scalar};
use crate::anchors::{AnchorTable, anchors_wf};
use crate::error::ParseError;
use crate::lines::lines_view;
use crate::semantics::{
    EnvModel, InlineModel, Place, inline_value, inline_entry, SeqWaitModel, MapWaitModel,
    SeqFrameModel, MapFrameModel, StepModel, seq_step, seq_child, seq_inline_map, seq_push, map_step,
    map_child, map_push, FrameModel, MachineModel, Outcome, frame_step_model, frame_child_model, new_frame,
    machine_step, machine_run, frame_waiting, frame_base, continues_block, with_base, outermost_follows,
};
use crate::lines::opt_chars;
use crate::model::{opt_view, comments_view, node_view};

verus! {

/// A column one to the right of `p`, where there is one.
fn next_col(p: usize) -> (r: usize)
    ensures
        r as nat == crate::semantics::col_after(p as nat),
{
    if p < usize::MAX { p + 1 } else { p }
}

pub open spec fn nodes_wf(s: Seq<YamlNode>) -> bool {
    forall|i: int| 0 <= i < s.len() ==> wf_value(#[trigger] s[i].value@)
}

pub open spec fn entries_ok(s: Seq<(String, YamlNode)>) -> bool {
    wf_value(ValueModel::Mapping(entries_view(s)))
}

pub proof fn lemma_nodes_wf(s: Seq<YamlNode>)
    requires
        nodes_wf(s),
    ensures
        wf_value(ValueModel::Sequence(nodes_view(s))),
{
    lemma_nodes_view(s);
    let ns = nodes_view(s);
    assert forall|i: int| #![trigger ns[i]] 0 <= i < ns.len() implies wf_value(ns[i].value) by {
        assert(ns[i].value == s[i].value@);
    }
}

pub proof fn lemma_empty_entries_ok()
    ensures
        entries_ok(Seq::<(String, YamlNode)>::empty()),
{
    lemma_entries_view(Seq::<(String, YamlNode)>::empty());
}

/// Whether a block opens as a sequence or as a mapping.
pub enum BlockKind {
    Sequence,
    Mapping,
}

pub fn detect_block_kind(line: &Line) -> (r: BlockKind)
    ensures
        (r is Sequence) == seq_item_shape(line.content@),
{
    if looks_like_seq(&line.content) {
        BlockKind::Sequence
    } else {
        BlockKind::Mapping
    }
}

/// The lines of a document, how far the parse has read, and its anchors.
pub struct ParseEnv {
    pub lines: Vec<Line>,
    pub index: usize,
    pub anchors: AnchorTable,
}

pub open spec fn env_wf(e: ParseEnv) -> bool {
    e.index <= e.lines@.len() && anchors_wf(e.anchors@)
}

pub open spec fn env_view(e: ParseEnv) -> EnvModel {
    EnvModel { lines: lines_view(e.lines@), index: e.index as nat, anchors: e.anchors@ }
}

/// Whether the next line, if any, is indented deeper than `base`.
fn deeper_next(env: &ParseEnv, base: usize) -> (r: bool)
    ensures
        r == (env.index < env.lines@.len() && env.lines@[env.index as int].indent > base),
{
    env.index < env.lines.len() && env.lines[env.index].indent > base
}

/// What a frame asks of the machine after a step.
pub enum FrameStep {
    Continue,
    NeedChild { indent: usize },
    Return(YamlValue),
}

/// The value of a mapping entry or a sequence item, once read from its line.
pub enum InlineValueOutcome {
    Ready(YamlNode),
    NeedsBlock { anchor_name: Vec<char>, child_indent: usize },
}

pub open spec fn inline_view(o: InlineValueOutcome) -> InlineModel {
    match o {
        InlineValueOutcome::Ready(n) => InlineModel::Ready(n@),
        InlineValueOutcome::NeedsBlock { anchor_name, child_indent } => InlineModel::NeedsBlock(anchor_name@, child_indent as nat),
    }
}

/// The entries of `value`, where it is a mapping.
pub fn expect_map(value: YamlValue, line_no: usize, column: usize, message: &str) -> (r: Result<Vec<(String, YamlNode)>, ParseError>)
    ensures
        r is Ok <==> value is Mapping,
        r is Ok ==> r->Ok_0 == value->Mapping_0,
        r is Err ==> r->Err_0.line() == line_no && r->Err_0.column() == column,
        r is Err ==> r->Err_0.place() == (line_no as nat, column as nat, message@),
{
    match value {
        YamlValue::Mapping(map) => Ok(map),
        _ => Err(ParseError::new(line_no, column, message)),
    }
}

/// The key that merges another mapping into this one.
pub open spec fn merge_key() -> Seq<char> {
    seq!['<', '<']
}

/// Adds one entry of an inline mapping. Under the merge key the value must be
/// a mapping, whose entries are added where the key is not yet present;
/// otherwise the entry is set, without comments.
pub fn insert_inline_entry(
    map: &mut Vec<(String, YamlNode)>,
    key: String,
    node: YamlNode,
    line_no: usize,
    column: usize,
) -> (r: Result<(), ParseError>)
    requires
        entries_ok(old(map)@),
        wf_value(node.value@),
    ensures
        r is Ok ==> entries_ok(final(map)@),
        key@ == merge_key() ==> (r is Ok <==> node.value is Mapping),
        key@ == merge_key() && r is Ok ==> entries_map(entries_view(final(map)@))
            == merge_under(entries_map(entries_view(old(map)@)), entries_map(entries_view(node.value->Mapping_0@))),
        key@ != merge_key() ==> r is Ok && entries_map(entries_view(final(map)@))
            == entries_map(entries_view(old(map)@)).insert(key@, NodeModel { value: node.value@, leading: Seq::empty(), inline: None }),
        r is Err ==> r->Err_0.line() == line_no && r->Err_0.column() == column,
        r is Err ==> final(map)@ == old(map)@,
        ({
            let s = inline_entry(entries_map(entries_view(old(map)@)), key@, node@, line_no as nat, column as nat);
            match r {
                Ok(()) => s == Ok::<Map<Seq<char>, NodeModel>, Place>(entries_map(entries_view(final(map)@))),
                Err(e) => s == Err::<Map<Seq<char>, NodeModel>, Place>(e.place()),
            }
        }),
{
    let kc = chars_of(key.as_str());
    if is_two(&kc, '<', '<') {
        match node.value {
            YamlValue::Mapping(extra) => {
                absorb_entries(map, extra, true);
                return Ok(());
            }
            _ => {
                return Err(ParseError::new(line_no, column, "merge source must be a mapping"));
            }
        }
    }
    let bare = YamlNode { value: node.value, leading_comments: Vec::new(), inline_comment: None };
    assert(bare@.leading =~= Seq::<(nat, Seq<char>)>::empty());
    map_insert(map, key, bare);
    Ok(())
}

/// Reads the value that follows `key:` on a sequence item's line.
pub fn parse_inline_value(
    env: &mut ParseEnv,
    vpart: &[char],
    line_no: usize,
    expected_indent: usize,
    column: usize,
) -> (r: Result<InlineValueOutcome, ParseError>)
    requires
        env_wf(*old(env)),
    ensures
        env_wf(*final(env)),
        final(env).lines == old(env).lines,
        final(env).anchors == old(env).anchors,
        old(env).index <= final(env).index,
        r is Err ==> final(env).index == old(env).index && final(env).anchors == old(env).anchors,
        ({
            let s = inline_value(env_view(*old(env)), vpart@, line_no as nat, expected_indent as nat, column as nat);
            match r {
                Ok(o) => s.0 == Ok::<InlineModel, Place>(inline_view(o)) && s.1 == env_view(*final(env)),
                Err(e) => s.0 == Err::<InlineModel, Place>(e.place()) && s.1 == env_view(*final(env)),
            }
        }),
        match r {
            Ok(InlineValueOutcome::Ready(n)) => wf_value(n.value@),
            Ok(InlineValueOutcome::NeedsBlock { anchor_name, child_indent }) => final(env).index
                < final(env).lines@.len(),
            Err(e) => e.line() == line_no,
        },
{
    if is_quoted_chars(vpart) {
        let s = strip_quotes(vpart);
        return Ok(InlineValueOutcome::Ready(YamlNode::new(YamlValue::Str(string_of(&s)))));
    }
    if is_one(vpart, '|') {
        let s = parse_block_scalar(&env.lines, &mut env.index, expected_indent);
        return Ok(InlineValueOutcome::Ready(YamlNode::new(YamlValue::Str(string_of(&s)))));
    }
    if is_two(vpart, '[', ']') {
        let ghost e = Seq::<YamlNode>::empty();
        proof { lemma_nodes_view(e); }
        return Ok(InlineValueOutcome::Ready(YamlNode::new(YamlValue::Sequence(Vec::new()))));
    }
    if is_two(vpart, '{', '}') {
        proof { lemma_empty_entries_ok(); }
        return Ok(InlineValueOutcome::Ready(YamlNode::new(YamlValue::Mapping(Vec::new()))));
    }
    if starts_with(vpart, '&') {
        if env.index >= env.lines.len() || env.lines[env.index].indent < expected_indent {
            return Err(ParseError::new(line_no, column, "anchor without nested value"));
        }
        let rest = slice_of(vpart, 1, vpart.len());
        let name = trim_chars(&rest);
        return Ok(InlineValueOutcome::NeedsBlock { anchor_name: name, child_indent: env.lines[env.index].indent });
    }
    if starts_with(vpart, '*') {
        let rest = slice_of(vpart, 1, vpart.len());
        let name = trim_chars(&rest);
        match env.anchors.resolve(&name) {
            Some(v) => {
                return Ok(InlineValueOutcome::Ready(YamlNode::new(v)));
            }
            None => {
                return Err(ParseError::named(line_no, column, "unknown anchor: ", &name));
            }
        }
    }
    Ok(InlineValueOutcome::Ready(YamlNode::new(YamlValue::Str(string_of(vpart)))))
}

/// What a sequence frame waits for: the nested block of an item.
pub enum SeqWaiting {
    /// The block is the item itself, bound to an anchor where one was named.
    Child { inline_comment: Option<String>, anchor: Option<Vec<char>>, child_indent: usize },
    /// The block holds more entries of an item's inline mapping.
    InlineMapContinuation {
        map: Vec<(String, YamlNode)>,
        inline_comment: Option<String>,
        child_indent: usize,
        line_no: usize,
        column: usize,
    },
    /// The block is the anchored value of an item's inline mapping entry.
    InlineAnchorValue {
        map: Vec<(String, YamlNode)>,
        key: String,
        inline_comment: Option<String>,
        anchor_name: Vec<char>,
        child_indent: usize,
        line_no: usize,
        column: usize,
    },
}

impl SeqWaiting {
    pub fn child_indent(&self) -> (r: usize)
        ensures
            r as nat == crate::semantics::seq_wait_indent(seq_wait_view(*self)),
    {
        match self {
            SeqWaiting::Child { child_indent, .. } => *child_indent,
            SeqWaiting::InlineMapContinuation { child_indent, .. } => *child_indent,
            SeqWaiting::InlineAnchorValue { child_indent, .. } => *child_indent,
        }
    }
}

/// A sequence being read: its indentation, its items so far, the comments
/// waiting for the next item, and the nested block it waits for, if any.
pub struct SeqFrame {
    pub base_indent: usize,
    pub items: Vec<YamlNode>,
    pub pending_comments: Vec<CommentLine>,
    pub waiting: Option<SeqWaiting>,
}

pub open spec fn seq_wait_view(w: SeqWaiting) -> SeqWaitModel {
    match w {
        SeqWaiting::Child { inline_comment, anchor, child_indent } => SeqWaitModel::Child {
            inline: opt_view(inline_comment),
            anchor: opt_chars(anchor),
            child_indent: child_indent as nat,
        },
        SeqWaiting::InlineMapContinuation { map, inline_comment, child_indent, line_no, column } => SeqWaitModel::Continuation {
            map: entries_map(entries_view(map@)),
            inline: opt_view(inline_comment),
            child_indent: child_indent as nat,
            line_no: line_no as nat,
            column: column as nat,
        },
        SeqWaiting::InlineAnchorValue { map, key, inline_comment, anchor_name, child_indent, line_no, column } => SeqWaitModel::AnchorValue {
            map: entries_map(entries_view(map@)),
            key: key@,
            inline: opt_view(inline_comment),
            anchor_name: anchor_name@,
            child_indent: child_indent as nat,
            line_no: line_no as nat,
            column: column as nat,
        },
    }
}

pub open spec fn seq_frame_view(f: SeqFrame) -> SeqFrameModel {
    SeqFrameModel {
        base: f.base_indent as nat,
        items: nodes_view(f.items@),
        pending: comments_view(f.pending_comments@),
        waiting: match f.waiting {
            Some(w) => Some(seq_wait_view(w)),
            None => None,
        },
    }
}

pub open spec fn step_view(s: FrameStep) -> StepModel {
    match s {
        FrameStep::Continue => StepModel::Continue,
        FrameStep::NeedChild { indent } => StepModel::NeedChild(indent as nat),
        FrameStep::Return(v) => StepModel::Return(v@),
    }
}

pub open spec fn seq_waiting_wf(w: SeqWaiting) -> bool {
    match w {
        SeqWaiting::Child { .. } => true,
        SeqWaiting::InlineMapContinuation { map, .. } => entries_ok(map@),
        SeqWaiting::InlineAnchorValue { map, .. } => entries_ok(map@),
    }
}

pub open spec fn seq_frame_wf(f: SeqFrame) -> bool {
    nodes_wf(f.items@) && (f.waiting is Some ==> seq_waiting_wf(f.waiting->0))
}

/// How many nested blocks a sequence frame still waits for.
pub open spec fn seq_stage(f: SeqFrame) -> nat {
    match f.waiting {
        None => 0,
        Some(SeqWaiting::InlineAnchorValue { .. }) => 2,
        Some(_) => 1,
    }
}

impl SeqFrame {
    pub fn new(base_indent: usize) -> (r: SeqFrame)
        ensures
            seq_frame_wf(r),
            r.waiting is None,
            new_frame(true, base_indent as nat) == FrameModel::Sequence(seq_frame_view(r)),
    {
        let r = SeqFrame { base_indent, items: Vec::new(), pending_comments: Vec::new(), waiting: None };
        assert(comments_view(r.pending_comments@) =~= Seq::<(nat, Seq<char>)>::empty());
        assert(nodes_view(r.items@) =~= Seq::<NodeModel>::empty());
        r
    }

    fn push_node(&mut self, value: YamlValue, inline_comment: Option<String>)
        requires
            seq_frame_wf(*old(self)),
            wf_value(value@),
        ensures
            nodes_wf(final(self).items@),
            final(self).waiting == old(self).waiting,
            final(self).base_indent == old(self).base_indent,
            seq_frame_view(*final(self)) == seq_push(seq_frame_view(*old(self)), value@, opt_view(inline_comment)),
    {
        let mut comments: Vec<CommentLine> = Vec::new();
        std::mem::swap(&mut comments, &mut self.pending_comments);
        self.items.push(YamlNode { value, leading_comments: comments, inline_comment });
        assert(self.items@.subrange(0, self.items@.len() - 1) =~= old(self).items@);
        assert(nodes_view(self.items@) == nodes_view(old(self).items@).push(node_view(self.items@[self.items@.len() - 1])));
        assert(comments_view(self.pending_comments@) =~= Seq::<(nat, Seq<char>)>::empty());
        assert forall|i: int| 0 <= i < self.items@.len() implies wf_value(#[trigger] self.items@[i].value@) by {
            if i < old(self).items@.len() {
                assert(self.items@[i] == old(self).items@[i]);
            }
        }
    }

    fn take_items(&mut self) -> (r: YamlValue)
        requires
            seq_frame_wf(*old(self)),
        ensures
            wf_value(r@),
            seq_frame_wf(*final(self)),
            final(self).waiting == old(self).waiting,
            r@ == ValueModel::Sequence(nodes_view(old(self).items@)),
    {
        let mut items: Vec<YamlNode> = Vec::new();
        std::mem::swap(&mut items, &mut self.items);
        proof {
            lemma_nodes_wf(items@);
        }
        YamlValue::Sequence(items)
    }

    pub fn step(&mut self, env: &mut ParseEnv) -> (r: Result<FrameStep, ParseError>)
        requires
            seq_frame_wf(*old(self)),
            env_wf(*old(env)),
        ensures
            seq_frame_wf(*final(self)),
            env_wf(*final(env)),
            final(env).lines == old(env).lines,
            old(env).index <= final(env).index,
            match r {
                Ok(FrameStep::Continue) => old(self).waiting is None && final(self).waiting is None
                    && old(env).index < final(env).index,
                Ok(FrameStep::NeedChild { .. }) => if old(self).waiting is Some {
                    seq_stage(*final(self)) == seq_stage(*old(self)) && final(self).waiting is Some
                        && final(env).index == old(env).index
                } else {
                    final(self).waiting is Some && seq_stage(*final(self)) <= 2
                        && old(env).index < final(env).index
                },
                Ok(FrameStep::Return(v)) => old(self).waiting is None && wf_value(v@),
                Err(_) => true,
            },
            ({
                let s = seq_step(seq_frame_view(*old(self)), env_view(*old(env)));
                match r {
                    Ok(FrameStep::Return(v)) => s.0 == Ok::<StepModel, Place>(StepModel::Return(v@)) && s.2 == env_view(*final(env)),
                    Ok(st) => s.0 == Ok::<StepModel, Place>(step_view(st)) && s.1 == seq_frame_view(*final(self))
                        && s.2 == env_view(*final(env)),
                    Err(e) => s.0 == Err::<StepModel, Place>(e.place()) && s.2 == env_view(*final(env)),
                }
            }),
    {
        if let Some(w) = &self.waiting {
            return Ok(FrameStep::NeedChild { indent: w.child_indent() });
        }
        if env.index >= env.lines.len() {
            return Ok(FrameStep::Return(self.take_items()));
        }
        let line_indent = env.lines[env.index].indent;
        let line_no = env.lines[env.index].line_no;
        let content = slice_of(&env.lines[env.index].content, 0, env.lines[env.index].content.len());
        proof {
            assert(content@ =~= env.lines@[env.index as int].content@);
            assert(env_view(*env).lines[env.index as int] == crate::lines::line_view(env.lines@[env.index as int]));
        }
        if line_indent < self.base_indent {
            return Ok(FrameStep::Return(self.take_items()));
        }
        if starts_with(&content, '#') {
            let ghost before = self.pending_comments@;
            self.pending_comments.push(CommentLine { indent: line_indent, text: string_of(&content) });
            assert(comments_view(self.pending_comments@) =~= comments_view(before).push((line_indent as nat, content@)));
            env.index = env.index + 1;
            return Ok(FrameStep::Continue);
        }
        if line_indent > self.base_indent || !looks_like_seq(&content) {
            return Ok(FrameStep::Return(self.take_items()));
        }
        let (cnc, comment) = split_inline_comment(&content);
        if !looks_like_seq(&cnc) {
            return Ok(FrameStep::Return(self.take_items()));
        }
        let dash_rest = slice_of(&cnc, 1, cnc.len());
        let after_dash = trim_start_chars(&dash_rest);
        env.index = env.index + 1;
        let ghost comment_model = opt_chars(comment);
        let inline_comment = match comment {
            Some(c) => Some(string_of(&c)),
            None => None,
        };
        proof {
            assert(opt_view(inline_comment) == comment_model);
            if env.index < env.lines@.len() {
                assert(env_view(*env).lines[env.index as int] == crate::lines::line_view(env.lines@[env.index as int]));
            }
        }
        if after_dash.len() == 0 {
            if !deeper_next(env, self.base_indent) {
                self.push_node(YamlValue::Str(string_of(&after_dash)), inline_comment);
                return Ok(FrameStep::Continue);
            }
            let child_indent = env.lines[env.index].indent;
            self.waiting = Some(SeqWaiting::Child { inline_comment, anchor: None, child_indent });
            return Ok(FrameStep::NeedChild { indent: child_indent });
        }
        if is_one(&after_dash, '|') {
            let s = parse_block_scalar(&env.lines, &mut env.index, next_col(self.base_indent));
            self.push_node(YamlValue::Str(string_of(&s)), inline_comment);
            return Ok(FrameStep::Continue);
        }
        if is_two(&after_dash, '[', ']') {
            proof { lemma_nodes_wf(Seq::<YamlNode>::empty()); }
            self.push_node(YamlValue::Sequence(Vec::new()), inline_comment);
            return Ok(FrameStep::Continue);
        }
        if is_two(&after_dash, '{', '}') {
            proof { lemma_empty_entries_ok(); }
            self.push_node(YamlValue::Mapping(Vec::new()), inline_comment);
            return Ok(FrameStep::Continue);
        }
        if let Some(colon_pos) = find_char(&after_dash, ':') {
            return self.handle_inline_map(env, line_no, &after_dash, colon_pos, inline_comment);
        }
        if starts_with(&after_dash, '&') {
            if !deeper_next(env, self.base_indent) {
                return Err(ParseError::new(line_no, 1, "anchor without nested value"));
            }
            let child_indent = env.lines[env.index].indent;
            let rest = slice_of(&after_dash, 1, after_dash.len());
            let name = trim_chars(&rest);
            self.waiting = Some(SeqWaiting::Child { inline_comment, anchor: Some(name), child_indent });
            return Ok(FrameStep::NeedChild { indent: child_indent });
        }
        if starts_with(&after_dash, '*') {
            let rest = slice_of(&after_dash, 1, after_dash.len());
            let name = trim_chars(&rest);
            match env.anchors.resolve(&name) {
                Some(v) => {
                    self.push_node(v, inline_comment);
                    return Ok(FrameStep::Continue);
                }
                None => {
                    return Err(ParseError::named(line_no, 1, "unknown anchor: ", &name));
                }
            }
        }
        let scalar = strip_quotes(&after_dash);
        self.push_node(YamlValue::Str(string_of(&scalar)), inline_comment);
        Ok(FrameStep::Continue)
    }

    fn handle_inline_map(
        &mut self,
        env: &mut ParseEnv,
        line_no: usize,
        after_dash: &[char],
        colon_pos: usize,
        inline_comment: Option<String>,
    ) -> (r: Result<FrameStep, ParseError>)
        requires
            seq_frame_wf(*old(self)),
            old(self).waiting is None,
            env_wf(*old(env)),
            colon_pos < after_dash@.len(),
        ensures
            seq_frame_wf(*final(self)),
            env_wf(*final(env)),
            final(env).lines == old(env).lines,
            old(env).index <= final(env).index,
            match r {
                Ok(FrameStep::Continue) => final(self).waiting is None,
                Ok(FrameStep::NeedChild { .. }) => final(self).waiting is Some && seq_stage(*final(self)) <= 2,
                Ok(FrameStep::Return(_)) => false,
                Err(_) => true,
            },
            ({
                let s = seq_inline_map(seq_frame_view(*old(self)), env_view(*old(env)), line_no as nat, after_dash@,
                    colon_pos as nat, opt_view(inline_comment));
                match r {
                    Ok(st) => s.0 == Ok::<StepModel, Place>(step_view(st)) && s.1 == seq_frame_view(*final(self))
                        && s.2 == env_view(*final(env)),
                    Err(e) => s.0 == Err::<StepModel, Place>(e.place()) && s.2 == env_view(*final(env)),
                }
            }),
    {
        let kpart = slice_of(after_dash, 0, colon_pos);
        let key_raw = trim_chars(&kpart);
        let key = string_of(&strip_quotes(&key_raw));
        let n = after_dash.len();
        let rest = slice_of(after_dash, colon_pos + 1, n);
        let vpart = trim_start_chars(&rest);
        let mut map: Vec<(String, YamlNode)> = Vec::new();
        proof {
            lemma_empty_entries_ok();
            lemma_entries_view(map@);
            assert(entries_map(entries_view(map@)) =~= Map::<Seq<char>, NodeModel>::empty());
        }
        let column = next_col(colon_pos);
        let expected_indent = next_col(next_col(self.base_indent));
        let outcome = parse_inline_value(env, &vpart, line_no, expected_indent, column);
        match outcome {
            Err(e) => Err(e),
            Ok(InlineValueOutcome::Ready(node)) => {
                match insert_inline_entry(&mut map, key, node, line_no, column) {
                    Err(e) => {
                        return Err(e);
                    }
                    Ok(()) => {}
                }
                if deeper_next(env, self.base_indent) {
                    proof {
                        assert(env_view(*env).lines[env.index as int] == crate::lines::line_view(env.lines@[env.index as int]));
                    }
                    let child_indent = env.lines[env.index].indent;
                    self.waiting = Some(SeqWaiting::InlineMapContinuation { map, inline_comment, child_indent, line_no, column });
                    return Ok(FrameStep::NeedChild { indent: child_indent });
                }
                proof {
                    lemma_entries_view(map@);
                    crate::mapping::lemma_canonical(entries_view(map@));
                }
                self.push_node(YamlValue::Mapping(map), inline_comment);
                Ok(FrameStep::Continue)
            }
            Ok(InlineValueOutcome::NeedsBlock { anchor_name, child_indent }) => {
                self.waiting = Some(SeqWaiting::InlineAnchorValue {
                    map,
                    key,
                    inline_comment,
                    anchor_name,
                    child_indent,
                    line_no,
                    column,
                });
                Ok(FrameStep::NeedChild { indent: child_indent })
            }
        }
    }

    pub fn handle_child(&mut self, value: YamlValue, env: &mut ParseEnv) -> (r: Result<(), ParseError>)
        requires
            seq_frame_wf(*old(self)),
            env_wf(*old(env)),
            wf_value(value@),
        ensures
            seq_frame_wf(*final(self)),
            env_wf(*final(env)),
            final(env).lines == old(env).lines,
            final(env).index == old(env).index,
            r is Ok ==> seq_stage(*final(self)) < seq_stage(*old(self)),
            ({
                let s = seq_child(seq_frame_view(*old(self)), value@, env_view(*old(env)));
                match r {
                    Ok(()) => s.0 == Ok::<(), Place>(()) && s.1 == seq_frame_view(*final(self))
                        && s.2 == env_view(*final(env)),
                    Err(e) => s.0 == Err::<(), Place>(e.place()) && s.2 == env_view(*final(env)),
                }
            }),
    {
        let waiting = self.waiting.take();
        match waiting {
            None => Err(ParseError::new(1, 1, "sequence not awaiting child")),
            Some(SeqWaiting::Child { inline_comment, anchor, .. }) => {
                match anchor {
                    Some(name) => {
                        let copy = copy_value(&value);
                        env.anchors.define(name, copy);
                    }
                    None => {}
                }
                self.push_node(value, inline_comment);
                Ok(())
            }
            Some(SeqWaiting::InlineMapContinuation { map, inline_comment, line_no, column, .. }) => {
                let mut map = map;
                match expect_map(value, line_no, column, "inline mapping continuation must be a mapping") {
                    Err(e) => Err(e),
                    Ok(extra) => {
                        proof { lemma_entries_view(extra@); }
                        absorb_entries(&mut map, extra, false);
                        proof {
                            lemma_entries_view(map@);
                            crate::mapping::lemma_canonical(entries_view(map@));
                        }
                        self.push_node(YamlValue::Mapping(map), inline_comment);
                        Ok(())
                    }
                }
            }
            Some(SeqWaiting::InlineAnchorValue { map, key, inline_comment, anchor_name, line_no, column, .. }) => {
                let mut map = map;
                let copy = copy_value(&value);
                env.anchors.define(anchor_name, copy);
                let node = YamlNode::new(value);
                match insert_inline_entry(&mut map, key, node, line_no, column) {
                    Err(e) => {
                        return Err(e);
                    }
                    Ok(()) => {}
                }
                if deeper_next(env, self.base_indent) {
                    proof {
                        assert(env_view(*env).lines[env.index as int] == crate::lines::line_view(env.lines@[env.index as int]));
                    }
                    let child_indent = env.lines[env.index].indent;
                    self.waiting = Some(SeqWaiting::InlineMapContinuation { map, inline_comment, child_indent, line_no, column });
                    return Ok(());
                }
                proof {
                    lemma_entries_view(map@);
                    crate::mapping::lemma_canonical(entries_view(map@));
                }
                self.push_node(YamlValue::Mapping(map), inline_comment);
                Ok(())
            }
        }
    }
}

/// What a mapping frame waits for: the nested block that is an entry's value.
pub struct MapWaiting {
    pub key: String,
    pub inline_comment: Option<String>,
    pub anchor: Option<Vec<char>>,
    pub child_indent: usize,
}

/// A mapping being read: its indentation, its entries so far, the comments
/// waiting for the next entry, and the nested block it waits for, if any.
pub struct MapFrame {
    pub base_indent: usize,
    pub entries: Vec<(String, YamlNode)>,
    pub pending_comments: Vec<CommentLine>,
    pub waiting: Option<MapWaiting>,
}

pub open spec fn map_frame_view(f: MapFrame) -> MapFrameModel {
    MapFrameModel {
        base: f.base_indent as nat,
        entries: entries_map(entries_view(f.entries@)),
        pending: comments_view(f.pending_comments@),
        waiting: match f.waiting {
            Some(w) => Some(MapWaitModel {
                key: w.key@,
                inline: opt_view(w.inline_comment),
                anchor: opt_chars(w.anchor),
                child_indent: w.child_indent as nat,
            }),
            None => None,
        },
    }
}

pub open spec fn map_frame_wf(f: MapFrame) -> bool {
    entries_ok(f.entries@)
}

pub open spec fn map_stage(f: MapFrame) -> nat {
    if f.waiting is Some { 1 } else { 0 }
}

impl MapFrame {
    pub fn new(base_indent: usize) -> (r: MapFrame)
        ensures
            map_frame_wf(r),
            r.waiting is None,
            new_frame(false, base_indent as nat) == FrameModel::Mapping(map_frame_view(r)),
    {
        proof { lemma_empty_entries_ok(); }
        let r = MapFrame { base_indent, entries: Vec::new(), pending_comments: Vec::new(), waiting: None };
        proof {
            lemma_entries_view(r.entries@);
            assert(entries_map(entries_view(r.entries@)) =~= Map::<Seq<char>, NodeModel>::empty());
        }
        assert(comments_view(r.pending_comments@) =~= Seq::<(nat, Seq<char>)>::empty());
        r
    }

    fn push_entry(&mut self, key: String, value: YamlValue, inline_comment: Option<String>)
        requires
            map_frame_wf(*old(self)),
            wf_value(value@),
        ensures
            map_frame_wf(*final(self)),
            final(self).waiting == old(self).waiting,
            final(self).base_indent == old(self).base_indent,
            map_frame_view(*final(self)) == map_push(map_frame_view(*old(self)), key@, value@, opt_view(inline_comment)),
    {
        let mut comments: Vec<CommentLine> = Vec::new();
        std::mem::swap(&mut comments, &mut self.pending_comments);
        map_insert(&mut self.entries, key, YamlNode { value, leading_comments: comments, inline_comment });
        assert(comments_view(self.pending_comments@) =~= Seq::<(nat, Seq<char>)>::empty());
    }

    fn take_entries(&mut self) -> (r: YamlValue)
        requires
            map_frame_wf(*old(self)),
        ensures
            wf_value(r@),
            map_frame_wf(*final(self)),
            final(self).waiting == old(self).waiting,
            r@ == ValueModel::Mapping(crate::mapping::canonical(entries_map(entries_view(old(self).entries@)))),
    {
        let mut entries: Vec<(String, YamlNode)> = Vec::new();
        std::mem::swap(&mut entries, &mut self.entries);
        proof {
            lemma_empty_entries_ok();
            crate::mapping::lemma_canonical(entries_view(entries@));
        }
        YamlValue::Mapping(entries)
    }

    pub fn step(&mut self, env: &mut ParseEnv) -> (r: Result<FrameStep, ParseError>)
        requires
            map_frame_wf(*old(self)),
            env_wf(*old(env)),
        ensures
            map_frame_wf(*final(self)),
            env_wf(*final(env)),
            final(env).lines == old(env).lines,
            old(env).index <= final(env).index,
            match r {
                Ok(FrameStep::Continue) => old(self).waiting is None && final(self).waiting is None
                    && old(env).index < final(env).index,
                Ok(FrameStep::NeedChild { .. }) => if old(self).waiting is Some {
                    map_stage(*final(self)) == map_stage(*old(self)) && final(env).index == old(env).index
                } else {
                    final(self).waiting is Some && old(env).index < final(env).index
                },
                Ok(FrameStep::Return(v)) => old(self).waiting is None && wf_value(v@),
                Err(_) => true,
            },
            ({
                let s = map_step(map_frame_view(*old(self)), env_view(*old(env)));
                match r {
                    Ok(FrameStep::Return(v)) => s.0 == Ok::<StepModel, Place>(StepModel::Return(v@)) && s.2 == env_view(*final(env)),
                    Ok(st) => s.0 == Ok::<StepModel, Place>(step_view(st)) && s.1 == map_frame_view(*final(self))
                        && s.2 == env_view(*final(env)),
                    Err(e) => s.0 == Err::<StepModel, Place>(e.place()) && s.2 == env_view(*final(env)),
                }
            }),
    {
        if let Some(w) = &self.waiting {
            return Ok(FrameStep::NeedChild { indent: w.child_indent });
        }
        if env.index >= env.lines.len() {
            return Ok(FrameStep::Return(self.take_entries()));
        }
        let line_indent = env.lines[env.index].indent;
        let line_no = env.lines[env.index].line_no;
        let content = slice_of(&env.lines[env.index].content, 0, env.lines[env.index].content.len());
        proof {
            assert(content@ =~= env.lines@[env.index as int].content@);
            assert(env_view(*env).lines[env.index as int] == crate::lines::line_view(env.lines@[env.index as int]));
        }
        if line_indent < self.base_indent || looks_like_seq(&content) {
            return Ok(FrameStep::Return(self.take_entries()));
        }
        if starts_with(&content, '#') {
            let ghost before = self.pending_comments@;
            self.pending_comments.push(CommentLine { indent: line_indent, text: string_of(&content) });
            assert(comments_view(self.pending_comments@) =~= comments_view(before).push((line_indent as nat, content@)));
            env.index = env.index + 1;
            return Ok(FrameStep::Continue);
        }
        if line_indent > self.base_indent {
            return Ok(FrameStep::Return(self.take_entries()));
        }
        let (cnc, comment) = split_inline_comment(&content);
        let colon_pos = match find_char(&cnc, ':') {
            Some(p) => p,
            None => {
                return Err(ParseError::new(line_no, 1, "expected ':' in mapping entry"));
            }
        };
        let kpart = slice_of(&cnc, 0, colon_pos);
        let key_raw = trim_chars(&kpart);
        let key_chars = strip_quotes(&key_raw);
        let n = cnc.len();
        let rest = slice_of(&cnc, colon_pos + 1, n);
        let vpart = trim_start_chars(&rest);
        env.index = env.index + 1;
        let ghost comment_model = opt_chars(comment);
        let inline_comment = match comment {
            Some(c) => Some(string_of(&c)),
            None => None,
        };
        proof {
            assert(opt_view(inline_comment) == comment_model);
            if env.index < env.lines@.len() {
                assert(env_view(*env).lines[env.index as int] == crate::lines::line_view(env.lines@[env.index as int]));
            }
        }
        let column = next_col(colon_pos);
        if is_two(&key_chars, '<', '<') && starts_with(&vpart, '*') {
            let vrest = slice_of(&vpart, 1, vpart.len());
            let name = trim_chars(&vrest);
            let aliased = match env.anchors.resolve(&name) {
                Some(v) => v,
                None => {
                    return Err(ParseError::named(line_no, column, "unknown anchor: ", &name));
                }
            };
            let map = match expect_map(aliased, line_no, column, "merge source must be a mapping") {
                Ok(m) => m,
                Err(e) => {
                    return Err(e);
                }
            };
            proof { lemma_entries_view(map@); }
            absorb_entries(&mut self.entries, map, true);
            self.pending_comments.clear();
            assert(comments_view(self.pending_comments@) =~= Seq::<(nat, Seq<char>)>::empty());
            return Ok(FrameStep::Continue);
        }
        let key = string_of(&key_chars);
        if vpart.len() == 0 {
            if !deeper_next(env, self.base_indent) {
                self.push_entry(key, YamlValue::Str(string_of(&vpart)), inline_comment);
                return Ok(FrameStep::Continue);
            }
            let child_indent = env.lines[env.index].indent;
            self.waiting = Some(MapWaiting { key, inline_comment, anchor: None, child_indent });
            return Ok(FrameStep::NeedChild { indent: child_indent });
        }
        if is_one(&vpart, '|') {
            let s = parse_block_scalar(&env.lines, &mut env.index, next_col(self.base_indent));
            self.push_entry(key, YamlValue::Str(string_of(&s)), inline_comment);
            return Ok(FrameStep::Continue);
        }
        if is_two(&vpart, '[', ']') {
            proof { lemma_nodes_wf(Seq::<YamlNode>::empty()); }
            self.push_entry(key, YamlValue::Sequence(Vec::new()), inline_comment);
            return Ok(FrameStep::Continue);
        }
        if is_two(&vpart, '{', '}') {
            proof { lemma_empty_entries_ok(); }
            self.push_entry(key, YamlValue::Mapping(Vec::new()), inline_comment);
            return Ok(FrameStep::Continue);
        }
        if starts_with(&vpart, '&') {
            if !deeper_next(env, self.base_indent) {
                return Err(ParseError::new(line_no, column, "anchor without nested value"));
            }
            let child_indent = env.lines[env.index].indent;
            let vrest = slice_of(&vpart, 1, vpart.len());
            let name = trim_chars(&vrest);
            self.waiting = Some(MapWaiting { key, inline_comment, anchor: Some(name), child_indent });
            return Ok(FrameStep::NeedChild { indent: child_indent });
        }
        if starts_with(&vpart, '*') {
            let vrest = slice_of(&vpart, 1, vpart.len());
            let name = trim_chars(&vrest);
            match env.anchors.resolve(&name) {
                Some(v) => {
                    self.push_entry(key, v, inline_comment);
                    return Ok(FrameStep::Continue);
                }
                None => {
                    return Err(ParseError::named(line_no, column, "unknown anchor: ", &name));
                }
            }
        }
        let scalar = strip_quotes(&vpart);
        self.push_entry(key, YamlValue::Str(string_of(&scalar)), inline_comment);
        Ok(FrameStep::Continue)
    }

    pub fn handle_child(&mut self, value: YamlValue, env: &mut ParseEnv) -> (r: Result<(), ParseError>)
        requires
            map_frame_wf(*old(self)),
            env_wf(*old(env)),
            wf_value(value@),
        ensures
            map_frame_wf(*final(self)),
            env_wf(*final(env)),
            final(env).lines == old(env).lines,
            final(env).index == old(env).index,
            r is Ok ==> map_stage(*final(self)) < map_stage(*old(self)),
            ({
                let s = map_child(map_frame_view(*old(self)), value@, env_view(*old(env)));
                match r {
                    Ok(()) => s.0 == Ok::<(), Place>(()) && s.1 == map_frame_view(*final(self))
                        && s.2 == env_view(*final(env)),
                    Err(e) => s.0 == Err::<(), Place>(e.place()) && s.2 == env_view(*final(env)),
                }
            }),
    {
        let waiting = self.waiting.take();
        match waiting {
            None => Err(ParseError::new(1, 1, "mapping not awaiting child")),
            Some(w) => {
                match w.anchor {
                    Some(name) => {
                        let copy = copy_value(&value);
                        env.anchors.define(name, copy);
                    }
                    None => {}
                }
                self.push_entry(w.key, value, w.inline_comment);
                Ok(())
            }
        }
    }
}

/// One level of nesting being read.
pub enum Frame {
    Sequence(SeqFrame),
    Mapping(MapFrame),
}

pub open spec fn frame_view(f: Frame) -> FrameModel {
    match f {
        Frame::Sequence(q) => FrameModel::Sequence(seq_frame_view(q)),
        Frame::Mapping(m) => FrameModel::Mapping(map_frame_view(m)),
    }
}

pub open spec fn stack_view(s: Seq<Frame>) -> Seq<FrameModel> {
    s.map_values(|f: Frame| frame_view(f))
}

pub open spec fn machine_view(m: ParseMachine) -> MachineModel {
    MachineModel { env: env_view(m.env), stack: stack_view(m.stack@) }
}

pub open spec fn frame_wf(f: Frame) -> bool {
    match f {
        Frame::Sequence(s) => seq_frame_wf(s),
        Frame::Mapping(m) => map_frame_wf(m),
    }
}

pub open spec fn frame_stage(f: Frame) -> nat {
    match f {
        Frame::Sequence(s) => seq_stage(s),
        Frame::Mapping(m) => map_stage(m),
    }
}

pub open spec fn frame_waits(f: Frame) -> bool {
    match f {
        Frame::Sequence(s) => s.waiting is Some,
        Frame::Mapping(m) => m.waiting is Some,
    }
}

/// The nested blocks that the frames of a stack still wait for, in all.
pub open spec fn stack_stage(s: Seq<Frame>) -> nat
    decreases s.len(),
{
    if s.len() == 0 {
        0
    } else {
        stack_stage(s.drop_last()) + frame_stage(s.last())
    }
}

/// One where the top frame waits for a nested block that is not yet opened.
pub open spec fn top_waits(s: Seq<Frame>) -> nat {
    if s.len() > 0 && frame_waits(s.last()) { 1 } else { 0 }
}

/// A bound on the steps left to the machine: each step reads a line, opens a
/// nested block that a frame waits for, or closes one.
pub open spec fn progress(lines_len: nat, index: nat, s: Seq<Frame>) -> int {
    6 * (lines_len - index) + 2 * stack_stage(s) + top_waits(s)
}

impl Frame {
    /// A frame for a block at `base_indent`.
    pub fn new(kind: BlockKind, base_indent: usize) -> (r: Frame)
        ensures
            frame_wf(r),
            frame_stage(r) == 0,
            !frame_waits(r),
            frame_view(r) == new_frame(kind is Sequence, base_indent as nat),
    {
        match kind {
            BlockKind::Sequence => Frame::Sequence(SeqFrame::new(base_indent)),
            BlockKind::Mapping => Frame::Mapping(MapFrame::new(base_indent)),
        }
    }

    pub fn step(&mut self, env: &mut ParseEnv) -> (r: Result<FrameStep, ParseError>)
        requires
            frame_wf(*old(self)),
            env_wf(*old(env)),
        ensures
            frame_wf(*final(self)),
            env_wf(*final(env)),
            final(env).lines == old(env).lines,
            old(env).index <= final(env).index,
            match r {
                Ok(FrameStep::Continue) => !frame_waits(*old(self)) && !frame_waits(*final(self))
                    && frame_stage(*final(self)) == 0 && old(env).index < final(env).index,
                Ok(FrameStep::NeedChild { .. }) => if frame_waits(*old(self)) {
                    frame_stage(*final(self)) == frame_stage(*old(self)) && frame_waits(*final(self))
                        && final(env).index == old(env).index
                } else {
                    frame_waits(*final(self)) && frame_stage(*final(self)) <= 2
                        && old(env).index < final(env).index
                },
                Ok(FrameStep::Return(v)) => !frame_waits(*old(self)) && wf_value(v@),
                Err(_) => true,
            },
            ({
                let s = frame_step_model(frame_view(*old(self)), env_view(*old(env)));
                match r {
                    Ok(FrameStep::Return(v)) => s.0 == Ok::<StepModel, Place>(StepModel::Return(v@)) && s.2 == env_view(*final(env)),
                    Ok(st) => s.0 == Ok::<StepModel, Place>(step_view(st)) && s.1 == frame_view(*final(self))
                        && s.2 == env_view(*final(env)),
                    Err(e) => s.0 == Err::<StepModel, Place>(e.place()) && s.2 == env_view(*final(env)),
                }
            }),
    {
        match self {
            Frame::Sequence(seq) => seq.step(env),
            Frame::Mapping(map) => map.step(env),
        }
    }

    /// Moves the frame's indentation to `line`'s where the frame does not wait,
    /// `line` is less indented and carries on the frame's kind of block.
    pub fn follow_line(&mut self, line: &Line)
        requires
            frame_wf(*old(self)),
        ensures
            frame_wf(*final(self)),
            frame_stage(*final(self)) == frame_stage(*old(self)),
            frame_waits(*final(self)) == frame_waits(*old(self)),
            frame_view(*final(self)) == (if !frame_waiting(frame_view(*old(self)))
                && (line.indent as nat) < frame_base(frame_view(*old(self)))
                && continues_block(frame_view(*old(self)), line.content@) {
                with_base(frame_view(*old(self)), line.indent as nat)
            } else {
                frame_view(*old(self))
            }),
    {
        match self {
            Frame::Sequence(q) => {
                if q.waiting.is_none() && line.indent < q.base_indent
                    && (looks_like_seq(&line.content) || starts_with(&line.content, '#')) {
                    q.base_indent = line.indent;
                }
            }
            Frame::Mapping(m) => {
                if m.waiting.is_none() && line.indent < m.base_indent && !looks_like_seq(&line.content) {
                    m.base_indent = line.indent;
                }
            }
        }
    }

    pub fn handle_child(&mut self, value: YamlValue, env: &mut ParseEnv) -> (r: Result<(), ParseError>)
        requires
            frame_wf(*old(self)),
            env_wf(*old(env)),
            wf_value(value@),
        ensures
            frame_wf(*final(self)),
            env_wf(*final(env)),
            final(env).lines == old(env).lines,
            final(env).index == old(env).index,
            r is Ok ==> frame_stage(*final(self)) < frame_stage(*old(self)),
            r is Ok && frame_waits(*final(self)) ==> frame_stage(*final(self)) >= 1,
            ({
                let s = frame_child_model(frame_view(*old(self)), value@, env_view(*old(env)));
                match r {
                    Ok(()) => s.0 == Ok::<(), Place>(()) && s.1 == frame_view(*final(self))
                        && s.2 == env_view(*final(env)),
                    Err(e) => s.0 == Err::<(), Place>(e.place()) && s.2 == env_view(*final(env)),
                }
            }),
    {
        match self {
            Frame::Sequence(seq) => seq.handle_child(value, env),
            Frame::Mapping(map) => map.handle_child(value, env),
        }
    }
}

/// The parser: the lines and anchors, and a stack of frames in place of recursion.
pub struct ParseMachine {
    pub env: ParseEnv,
    pub stack: Vec<Frame>,
}

pub open spec fn stack_wf(s: Seq<Frame>) -> bool {
    forall|i: int| 0 <= i < s.len() ==> frame_wf(#[trigger] s[i])
}

impl ParseMachine {
    pub fn new(lines: Vec<Line>) -> (r: Result<ParseMachine, ParseError>)
        ensures
            r is Ok <==> lines@.len() > 0,
            r is Ok ==> env_wf(r->Ok_0.env) && stack_wf(r->Ok_0.stack@) && r->Ok_0.stack@.len() == 1
                && r->Ok_0.env.lines == lines && r->Ok_0.env.index == 0,
            r is Ok ==> machine_view(r->Ok_0) == crate::semantics::initial_machine(lines_view(lines@))
                && progress(r->Ok_0.env.lines@.len(), r->Ok_0.env.index as nat, r->Ok_0.stack@) == 6 * lines@.len(),
            r is Err ==> r->Err_0.line() == 1,
    {
        if lines.len() == 0 {
            return Err(ParseError::new(1, 1, "document must contain at least one line"));
        }
        let kind = detect_block_kind(&lines[0]);
        let indent = lines[0].indent;
        let mut stack: Vec<Frame> = Vec::new();
        let first = Frame::new(kind, indent);
        assert(frame_stage(first) == 0);
        stack.push(first);
        let ghost lv = lines_view(lines@);
        proof {
            assert(lv[0] == crate::lines::line_view(lines@[0]));
        }
        let env = ParseEnv { lines, index: 0, anchors: AnchorTable::new() };
        let m = ParseMachine { env, stack };
        proof {
            assert(stack_view(m.stack@) =~= seq![frame_view(m.stack@[0])]);
            assert(m.stack@.drop_last() =~= Seq::<Frame>::empty());
            assert(stack_stage(m.stack@.drop_last()) == 0);
            assert(frame_stage(m.stack@.last()) == 0);
            assert(stack_stage(m.stack@) == 0);
            assert(machine_view(m) == crate::semantics::initial_machine(lv));
        }
        Ok(m)
    }

    /// Steps the frames until the outermost one returns its value.
    pub fn run_step(&mut self) -> (r: Result<YamlValue, ParseError>)
        requires
            env_wf(old(self).env),
            stack_wf(old(self).stack@),
            old(self).stack@.len() > 0,
        ensures
            r is Ok ==> wf_value(r->Ok_0@),
            ({
                let fuel = (progress(old(self).env.lines@.len(), old(self).env.index as nat, old(self).stack@) + 1) as nat;
                match r {
                    Ok(v) => machine_run(machine_view(*old(self)), fuel) == Ok::<ValueModel, Place>(v@),
                    Err(e) => machine_run(machine_view(*old(self)), fuel) == Err::<ValueModel, Place>(e.place()),
                }
            }),
    {
        let ghost fuel0 = (progress(self.env.lines@.len(), self.env.index as nat, self.stack@) + 1) as nat;
        let ghost m0 = machine_view(*self);
        let ghost mut fuel: nat = fuel0;
        loop
            invariant
                env_wf(self.env),
                stack_wf(self.stack@),
                self.stack@.len() > 0,
                fuel > progress(self.env.lines@.len(), self.env.index as nat, self.stack@),
                machine_run(machine_view(*self), fuel) == machine_run(m0, fuel0),
                m0 == machine_view(*old(self)),
                fuel0 == (progress(old(self).env.lines@.len(), old(self).env.index as nat, old(self).stack@) + 1) as nat,
            decreases progress(self.env.lines@.len(), self.env.index as nat, self.stack@),
        {
            let ghost pre = machine_view(*self);
            if self.stack.len() == 1 && self.env.index < self.env.lines.len() {
                let ghost s_pre = self.stack@;
                let mut root = self.stack.pop().unwrap();
                proof {
                    assert(root == s_pre[0]);
                    assert(env_view(self.env).lines[self.env.index as int] == crate::lines::line_view(self.env.lines@[self.env.index as int]));
                    assert(stack_view(s_pre) =~= seq![frame_view(s_pre[0])]);
                }
                root.follow_line(&self.env.lines[self.env.index]);
                self.stack.push(root);
                proof {
                    assert(self.stack@ =~= seq![root]);
                    assert(stack_view(self.stack@) =~= seq![frame_view(root)]);
                    assert(self.stack@.drop_last() =~= Seq::<Frame>::empty());
                    assert(s_pre.drop_last() =~= Seq::<Frame>::empty());
                    assert(stack_stage(self.stack@) == stack_stage(s_pre));
                    assert(machine_view(*self) == outermost_follows(pre));
                }
            } else {
                assert(machine_view(*self) == outermost_follows(pre));
            }
            let ghost mv = machine_view(*self);
            proof {
                assert(stack_view(self.stack@).drop_last() =~= stack_view(self.stack@.drop_last()));
                assert(stack_view(self.stack@).last() == frame_view(self.stack@.last()));
            }
            let ghost s0 = self.stack@;
            let ghost i0 = self.env.index;
            let ghost n = self.env.lines@.len();
            let mut frame = self.stack.pop().unwrap();
            proof {
                assert(s0.drop_last() == self.stack@);
                assert(frame_wf(frame)) by {
                    assert(frame == s0[s0.len() - 1]);
                }
            }
            let ghost f0 = frame;
            proof {
                assert(f0 == s0.last());
                assert(stack_stage(s0) == stack_stage(s0.drop_last()) + frame_stage(f0));
                assert(top_waits(s0) == (if frame_waits(f0) { 1nat } else { 0nat }));
            }
            let step = frame.step(&mut self.env);
            match step {
                Err(e) => {
                    return Err(e);
                }
                Ok(FrameStep::Continue) => {
                    self.stack.push(frame);
                    proof {
                        assert(self.stack@.drop_last() == s0.drop_last());
                        assert(stack_stage(self.stack@) == stack_stage(s0.drop_last()) + frame_stage(frame));
                        assert(frame_stage(f0) == 0);
                        assert(top_waits(self.stack@) == 0);
                        assert(stack_view(self.stack@) =~= stack_view(s0.drop_last()).push(frame_view(frame)));
                        assert(machine_step(pre) == Outcome::Running(machine_view(*self)));
                    }
                }
                Ok(FrameStep::NeedChild { indent }) => {
                    if self.env.index >= self.env.lines.len() {
                        return Err(ParseError::new(1, 1, "expected nested block"));
                    }
                    proof {
                        assert(env_view(self.env).lines[self.env.index as int] == crate::lines::line_view(self.env.lines@[self.env.index as int]));
                    }
                    let kind = detect_block_kind(&self.env.lines[self.env.index]);
                    self.stack.push(frame);
                    let ghost s1 = self.stack@;
                    self.stack.push(Frame::new(kind, indent));
                    proof {
                        assert(s1.drop_last() == s0.drop_last());
                        assert(self.stack@.drop_last() == s1);
                        assert(stack_stage(s1) == stack_stage(s0.drop_last()) + frame_stage(frame));
                        assert(stack_stage(self.stack@) == stack_stage(s1) + 0);
                        assert(top_waits(self.stack@) == 0);
                        if !frame_waits(f0) {
                            assert(frame_stage(f0) == 0);
                        }
                        assert(stack_view(self.stack@) =~= stack_view(s0.drop_last()).push(frame_view(frame)).push(frame_view(self.stack@.last())));
                        assert(machine_step(pre) == Outcome::Running(machine_view(*self)));
                    }
                }
                Ok(FrameStep::Return(value)) => {
                    if self.stack.len() == 0 {
                        return Ok(value);
                    }
                    let ghost s1 = self.stack@;
                    let mut parent = self.stack.pop().unwrap();
                    let ghost p0 = parent;
                    proof {
                        assert(s1.drop_last() == self.stack@);
                        assert(frame_wf(parent)) by {
                            assert(parent == s1[s1.len() - 1]);
                            assert(s1[s1.len() - 1] == s0[s0.len() - 2]);
                        }
                    }
                    assert(p0 == s1.last());
                    match parent.handle_child(value, &mut self.env) {
                        Err(e) => {
                            return Err(e);
                        }
                        Ok(()) => {}
                    }
                    self.stack.push(parent);
                    proof {
                        assert(self.stack@.drop_last() == s1.drop_last());
                        assert(stack_stage(s1) == stack_stage(s1.drop_last()) + frame_stage(s1.last()));
                        assert(stack_stage(self.stack@) == stack_stage(s1.drop_last()) + frame_stage(parent));
                        assert(frame_stage(f0) == 0);
                        assert(s1 == s0.drop_last());
                        assert(stack_view(s1).drop_last() =~= stack_view(s1.drop_last()));
                        assert(stack_view(s1).last() == frame_view(p0));
                        assert(stack_view(self.stack@) =~= stack_view(s1.drop_last()).push(frame_view(parent)));
                        assert(machine_step(pre) == Outcome::Running(machine_view(*self)));
                    }
                }
            }
            proof {
                assert forall|i: int| 0 <= i < self.stack@.len() implies frame_wf(#[trigger] self.stack@[i]) by {
                    if i < self.stack@.len() - 1 {
                        assert(self.stack@[i] == self.stack@.drop_last()[i]);
                    }
                }
                assert(machine_run(pre, fuel) == machine_run(machine_view(*self), (fuel - 1) as nat));
                fuel = (fuel - 1) as nat;
            }
        }
    }
}

} // verus!
