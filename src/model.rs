use vstd::prelude::*;

verus! {

/// A comment line kept above a node: its indentation and its text, `#` included.
#[derive(Debug, PartialEq)]
pub struct CommentLine {
    pub indent: usize,
    pub text: String,
}

/// A value together with the comments attached to it.
#[derive(Debug, PartialEq)]
pub struct YamlNode {
    pub value: YamlValue,
    pub leading_comments: Vec<CommentLine>,
    pub inline_comment: Option<String>,
}

/// A document value. A mapping holds its entries sorted by key, each key once.
#[derive(Debug, PartialEq)]
pub enum YamlValue {
    Str(String),
    Sequence(Vec<YamlNode>),
    Mapping(Vec<(String, YamlNode)>),
}

/// The mathematical content of a value.
pub enum ValueModel {
    Str(Seq<char>),
    Sequence(Seq<NodeModel>),
    Mapping(Seq<(Seq<char>, NodeModel)>),
}

/// The mathematical content of a node.
pub struct NodeModel {
    pub value: ValueModel,
    pub leading: Seq<(nat, Seq<char>)>,
    pub inline: Option<Seq<char>>,
}

pub open spec fn opt_view(o: Option<String>) -> Option<Seq<char>> {
    match o {
        Some(s) => Some(s@),
        None => None,
    }
}

pub open spec fn comments_view(c: Seq<CommentLine>) -> Seq<(nat, Seq<char>)> {
    c.map_values(|l: CommentLine| (l.indent as nat, l.text@))
}

pub open spec fn value_view(v: YamlValue) -> ValueModel
    decreases v,
{
    match v {
        YamlValue::Str(s) => ValueModel::Str(s@),
        YamlValue::Sequence(items) => ValueModel::Sequence(nodes_view(items@)),
        YamlValue::Mapping(entries) => ValueModel::Mapping(entries_view(entries@)),
    }
}

pub open spec fn node_view(n: YamlNode) -> NodeModel
    decreases n,
{
    NodeModel {
        value: value_view(n.value),
        leading: comments_view(n.leading_comments@),
        inline: opt_view(n.inline_comment),
    }
}

pub open spec fn nodes_view(s: Seq<YamlNode>) -> Seq<NodeModel>
    decreases s,
{
    if s.len() == 0 {
        seq![]
    } else {
        nodes_view(s.subrange(0, s.len() - 1)).push(node_view(s[s.len() - 1]))
    }
}

pub open spec fn entries_view(s: Seq<(String, YamlNode)>) -> Seq<(Seq<char>, NodeModel)>
    decreases s,
{
    if s.len() == 0 {
        seq![]
    } else {
        entries_view(s.subrange(0, s.len() - 1)).push(
            (s[s.len() - 1].0@, node_view(s[s.len() - 1].1)),
        )
    }
}

/// Strict lexicographic order on keys, by code point.
pub open spec fn key_lt(a: Seq<char>, b: Seq<char>) -> bool
    decreases a.len(),
{
    if a.len() == 0 {
        b.len() > 0
    } else if b.len() == 0 {
        false
    } else if a[0] != b[0] {
        a[0] < b[0]
    } else {
        key_lt(a.drop_first(), b.drop_first())
    }
}

/// Entries stand in strictly increasing key order, so each key occurs once.
pub open spec fn keys_sorted(es: Seq<(Seq<char>, NodeModel)>) -> bool {
    forall|i: int, j: int| 0 <= i < j < es.len() ==> key_lt(#[trigger] es[i].0, #[trigger] es[j].0)
}

/// The entries of a mapping as a finite map from key to node.
pub open spec fn entries_map(es: Seq<(Seq<char>, NodeModel)>) -> Map<Seq<char>, NodeModel> {
    Map::new(
        |k: Seq<char>| exists|i: int| 0 <= i < es.len() && es[i].0 == k,
        |k: Seq<char>| es[choose|i: int| 0 <= i < es.len() && es[i].0 == k].1,
    )
}

/// Every mapping in the value, at any depth, has its keys sorted.
pub open spec fn wf_value(v: ValueModel) -> bool
    decreases v,
{
    match v {
        ValueModel::Str(_) => true,
        ValueModel::Sequence(ns) => forall|i: int|
            #![trigger ns[i]]
            0 <= i < ns.len() ==> wf_value(ns[i].value),
        ValueModel::Mapping(es) => keys_sorted(es) && forall|i: int|
            #![trigger es[i]]
            0 <= i < es.len() ==> wf_value(es[i].1.value),
    }
}

impl View for YamlValue {
    type V = ValueModel;

    open spec fn view(&self) -> ValueModel {
        value_view(*self)
    }
}

impl View for YamlNode {
    type V = NodeModel;

    open spec fn view(&self) -> NodeModel {
        node_view(*self)
    }
}

pub proof fn lemma_nodes_view(s: Seq<YamlNode>)
    ensures
        nodes_view(s).len() == s.len(),
        forall|i: int| 0 <= i < s.len() ==> #[trigger] nodes_view(s)[i] == node_view(s[i]),
    decreases s.len(),
{
    if s.len() > 0 {
        lemma_nodes_view(s.subrange(0, s.len() - 1));
    }
}

pub proof fn lemma_entries_view(s: Seq<(String, YamlNode)>)
    ensures
        entries_view(s).len() == s.len(),
        forall|i: int|
            0 <= i < s.len() ==> #[trigger] entries_view(s)[i] == (s[i].0@, node_view(s[i].1)),
    decreases s.len(),
{
    if s.len() > 0 {
        lemma_entries_view(s.subrange(0, s.len() - 1));
    }
}

pub proof fn lemma_wf_entry(es: Seq<(Seq<char>, NodeModel)>, j: int)
    requires
        wf_value(ValueModel::Mapping(es)),
        0 <= j < es.len(),
    ensures
        wf_value(es[j].1.value),
{
    assert(wf_value(es[j].1.value));
}

pub proof fn lemma_key_lt_irrefl(a: Seq<char>)
    ensures
        !key_lt(a, a),
    decreases a.len(),
{
    if a.len() > 0 {
        lemma_key_lt_irrefl(a.drop_first());
    }
}

pub proof fn lemma_key_lt_total(a: Seq<char>, b: Seq<char>)
    ensures
        a != b ==> key_lt(a, b) || key_lt(b, a),
        !(key_lt(a, b) && key_lt(b, a)),
    decreases a.len(),
{
    if a.len() > 0 && b.len() > 0 {
        lemma_key_lt_total(a.drop_first(), b.drop_first());
        if a != b && a[0] == b[0] {
            assert(a =~= seq![a[0]] + a.drop_first());
            assert(b =~= seq![b[0]] + b.drop_first());
        }
        if a[0] != b[0] {
            assert((a[0] as int) != (b[0] as int));
        }
    } else if a.len() == 0 && b.len() == 0 {
        assert(a =~= b);
    }
}

pub proof fn lemma_key_lt_trans(a: Seq<char>, b: Seq<char>, c: Seq<char>)
    requires
        key_lt(a, b),
        key_lt(b, c),
    ensures
        key_lt(a, c),
    decreases a.len(),
{
    if a.len() > 0 && b.len() > 0 && c.len() > 0 && a[0] == b[0] && b[0] == c[0] {
        lemma_key_lt_trans(a.drop_first(), b.drop_first(), c.drop_first());
    }
}

impl YamlNode {
    /// A node holding `value`, with no comments.
    pub fn new(value: YamlValue) -> (r: YamlNode)
        ensures
            r.value == value,
            r@.value == value@,
            r@.leading.len() == 0,
            r@.inline is None,
            r@ == (NodeModel { value: value@, leading: Seq::empty(), inline: None }),
    {
        let r = YamlNode { value, leading_comments: Vec::new(), inline_comment: None };
        assert(comments_view(r.leading_comments@) =~= Seq::<(nat, Seq<char>)>::empty());
        r
    }
}

/// A copy of the comment lines.
pub fn copy_comments(c: &Vec<CommentLine>) -> (r: Vec<CommentLine>)
    ensures
        comments_view(r@) == comments_view(c@),
{
    let mut out: Vec<CommentLine> = Vec::new();
    let mut i: usize = 0;
    while i < c.len()
        invariant
            i <= c@.len(),
            out@.len() == i,
            forall|j: int| 0 <= j < i ==> #[trigger] out@[j].indent == c@[j].indent && out@[j].text@ == c@[j].text@,
        decreases c.len() - i,
    {
        out.push(CommentLine { indent: c[i].indent, text: c[i].text.clone() });
        i = i + 1;
    }
    assert(comments_view(out@) =~= comments_view(c@));
    out
}

/// A copy of an optional comment.
pub fn copy_opt(o: &Option<String>) -> (r: Option<String>)
    ensures
        opt_view(r) == opt_view(*o),
{
    match o {
        Some(s) => Some(s.clone()),
        None => None,
    }
}

/// A deep copy of a node.
pub fn copy_node(n: &YamlNode) -> (r: YamlNode)
    ensures
        r@ == n@,
    decreases n,
{
    let value = copy_value(&n.value);
    YamlNode {
        value,
        leading_comments: copy_comments(&n.leading_comments),
        inline_comment: copy_opt(&n.inline_comment),
    }
}

/// A deep copy of a value.
pub fn copy_value(v: &YamlValue) -> (r: YamlValue)
    ensures
        r@ == v@,
    decreases v,
{
    match v {
        YamlValue::Str(s) => YamlValue::Str(s.clone()),
        YamlValue::Sequence(items) => {
            let mut out: Vec<YamlNode> = Vec::new();
            let mut i: usize = 0;
            while i < items.len()
                invariant
                    i <= items@.len(),
                    out@.len() == i,
                    *v is Sequence,
                    v->Sequence_0 == *items,
                    forall|j: int| 0 <= j < i ==> #[trigger] node_view(out@[j]) == node_view(items@[j]),
                decreases items.len() - i,
            {
                proof {
                    assert(decreases_to!(*v => v->Sequence_0));
                    assert(decreases_to!(*items => items[i as int]));
                }
                let n = copy_node(&items[i]);
                out.push(n);
                i = i + 1;
            }
            proof {
                lemma_nodes_view(out@);
                lemma_nodes_view(items@);
                assert(nodes_view(out@) =~= nodes_view(items@));
            }
            YamlValue::Sequence(out)
        }
        YamlValue::Mapping(entries) => {
            let mut out: Vec<(String, YamlNode)> = Vec::new();
            let mut i: usize = 0;
            while i < entries.len()
                invariant
                    i <= entries@.len(),
                    out@.len() == i,
                    *v is Mapping,
                    v->Mapping_0 == *entries,
                    forall|j: int| 0 <= j < i ==> #[trigger] out@[j].0@ == entries@[j].0@
                        && node_view(out@[j].1) == node_view(entries@[j].1),
                decreases entries.len() - i,
            {
                proof {
                    assert(decreases_to!(*v => v->Mapping_0));
                    assert(decreases_to!(*entries => entries[i as int]));
                    assert(decreases_to!(entries[i as int] => entries[i as int].1));
                }
                let n = copy_node(&entries[i].1);
                out.push((entries[i].0.clone(), n));
                i = i + 1;
            }
            proof {
                lemma_entries_view(out@);
                lemma_entries_view(entries@);
                assert(entries_view(out@) =~= entries_view(entries@));
            }
            YamlValue::Mapping(out)
        }
    }
}

} // verus!
