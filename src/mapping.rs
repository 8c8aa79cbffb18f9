use vstd::prelude::*;
use crate::model::{
    YamlNode, NodeModel, ValueModel, key_lt, keys_sorted, entries_map, entries_view, node_view,
    wf_value, lemma_entries_view, lemma_wf_entry, lemma_key_lt_irrefl, lemma_key_lt_total, lemma_key_lt_trans,
};
use crate::text::{chars_of, key_less, chars_eq};

verus! {

pub proof fn lemma_entries_map_at(es: Seq<(Seq<char>, NodeModel)>, j: int)
    requires
        keys_sorted(es),
        0 <= j < es.len(),
    ensures
        entries_map(es).contains_key(es[j].0),
        entries_map(es)[es[j].0] == es[j].1,
{
    let k = es[j].0;
    assert(exists|i: int| 0 <= i < es.len() && es[i].0 == k);
    let m = choose|i: int| 0 <= i < es.len() && es[i].0 == k;
    lemma_key_lt_irrefl(k);
    if m < j {
        assert(key_lt(es[m].0, es[j].0));
    } else if m > j {
        assert(key_lt(es[j].0, es[m].0));
    }
}

pub proof fn lemma_entries_map_insert(es: Seq<(Seq<char>, NodeModel)>, i: int, k: Seq<char>, n: NodeModel)
    requires
        0 <= i <= es.len(),
        keys_sorted(es.insert(i, (k, n))),
    ensures
        keys_sorted(es),
        !entries_map(es).contains_key(k),
        entries_map(es.insert(i, (k, n))) =~= entries_map(es).insert(k, n),
{
    let es2 = es.insert(i, (k, n));
    assert forall|a: int, b: int| 0 <= a < b < es.len() implies key_lt(#[trigger] es[a].0, #[trigger] es[b].0) by {
        let a2 = if a < i { a } else { a + 1 };
        let b2 = if b < i { b } else { b + 1 };
        assert(es2[a2] == es[a]);
        assert(es2[b2] == es[b]);
    }
    lemma_key_lt_irrefl(k);
    if entries_map(es).contains_key(k) {
        let m = choose|x: int| 0 <= x < es.len() && es[x].0 == k;
        if m < i {
            assert(es2[m] == es[m]);
            assert(key_lt(es2[m].0, es2[i].0));
        } else {
            assert(es2[m + 1] == es[m]);
            assert(key_lt(es2[i].0, es2[m + 1].0));
        }
    }
    assert forall|j: int| 0 <= j < es2.len() implies entries_map(es2).contains_key(#[trigger] es2[j].0)
        && entries_map(es2)[es2[j].0] == entries_map(es).insert(k, n)[es2[j].0]
        && entries_map(es).insert(k, n).contains_key(es2[j].0) by {
        lemma_entries_map_at(es2, j);
        if j < i {
            lemma_entries_map_at(es, j);
        } else if j > i {
            lemma_entries_map_at(es, j - 1);
        }
    }
    assert forall|q: Seq<char>| #[trigger] entries_map(es).insert(k, n).contains_key(q) implies entries_map(es2).contains_key(q) by {
        if q != k {
            let m = choose|x: int| 0 <= x < es.len() && es[x].0 == q;
            if m < i {
                assert(es2[m] == es[m]);
            } else {
                assert(es2[m + 1] == es[m]);
            }
        } else {
            assert(es2[i].0 == k);
        }
    }
}

pub proof fn lemma_entries_map_update(es: Seq<(Seq<char>, NodeModel)>, i: int, n: NodeModel)
    requires
        0 <= i < es.len(),
        keys_sorted(es),
    ensures
        keys_sorted(es.update(i, (es[i].0, n))),
        entries_map(es.update(i, (es[i].0, n))) =~= entries_map(es).insert(es[i].0, n),
{
    let k = es[i].0;
    let es2 = es.update(i, (k, n));
    assert(keys_sorted(es2));
    assert forall|j: int| 0 <= j < es2.len() implies entries_map(es2).contains_key(#[trigger] es2[j].0)
        && entries_map(es2)[es2[j].0] == entries_map(es).insert(k, n)[es2[j].0]
        && entries_map(es).insert(k, n).contains_key(es2[j].0) by {
        lemma_entries_map_at(es2, j);
        lemma_entries_map_at(es, j);
        lemma_key_lt_irrefl(k);
        if j < i {
            assert(key_lt(es[j].0, es[i].0));
        } else if j > i {
            assert(key_lt(es[i].0, es[j].0));
        }
    }
    assert forall|q: Seq<char>| #[trigger] entries_map(es).insert(k, n).contains_key(q) implies entries_map(es2).contains_key(q) by {
        if q != k {
            let m = choose|x: int| 0 <= x < es.len() && es[x].0 == q;
            assert(es2[m] == es[m]);
        } else {
            assert(es2[i].0 == k);
        }
    }
}

pub proof fn lemma_entries_view_insert(s: Seq<(String, YamlNode)>, i: int, e: (String, YamlNode))
    requires
        0 <= i <= s.len(),
    ensures
        entries_view(s.insert(i, e)) == entries_view(s).insert(i, (e.0@, node_view(e.1))),
{
    lemma_entries_view(s);
    lemma_entries_view(s.insert(i, e));
    assert(entries_view(s.insert(i, e)) =~= entries_view(s).insert(i, (e.0@, node_view(e.1))));
}

pub proof fn lemma_entries_view_update(s: Seq<(String, YamlNode)>, i: int, e: (String, YamlNode))
    requires
        0 <= i < s.len(),
    ensures
        entries_view(s.update(i, e)) == entries_view(s).update(i, (e.0@, node_view(e.1))),
{
    lemma_entries_view(s);
    lemma_entries_view(s.update(i, e));
    assert(entries_view(s.update(i, e)) =~= entries_view(s).update(i, (e.0@, node_view(e.1))));
}

/// The key-sorted entry list that holds exactly the map `m`.
pub open spec fn canonical(m: Map<Seq<char>, NodeModel>) -> Seq<(Seq<char>, NodeModel)> {
    choose|s: Seq<(Seq<char>, NodeModel)>| keys_sorted(s) && entries_map(s) == m
}

pub proof fn lemma_canonical(s: Seq<(Seq<char>, NodeModel)>)
    requires
        keys_sorted(s),
    ensures
        canonical(entries_map(s)) == s,
{
    let m = entries_map(s);
    assert(exists|t: Seq<(Seq<char>, NodeModel)>| keys_sorted(t) && entries_map(t) == m);
    let c = canonical(m);
    crate::laws::lemma_sorted_entries_unique(c, s);
}

/// The position of the first entry whose key is not below `key`.
fn find_slot(entries: &Vec<(String, YamlNode)>, key: &[char]) -> (i: usize)
    ensures
        i <= entries@.len(),
        forall|j: int| 0 <= j < i ==> key_lt(#[trigger] entries@[j].0@, key@),
        i < entries@.len() ==> !key_lt(entries@[i as int].0@, key@),
{
    let mut i: usize = 0;
    while i < entries.len()
        invariant
            i <= entries@.len(),
            forall|j: int| 0 <= j < i ==> key_lt(#[trigger] entries@[j].0@, key@),
        decreases entries.len() - i,
    {
        let ec = chars_of(entries[i].0.as_str());
        if !key_less(&ec, key) {
            return i;
        }
        i = i + 1;
    }
    i
}

/// Sets `key` to `node`, replacing the entry already there.
pub fn map_insert(entries: &mut Vec<(String, YamlNode)>, key: String, node: YamlNode)
    requires
        keys_sorted(entries_view(old(entries)@)),
    ensures
        keys_sorted(entries_view(final(entries)@)),
        entries_map(entries_view(final(entries)@)) == entries_map(entries_view(old(entries)@)).insert(key@, node@),
        wf_value(ValueModel::Mapping(entries_view(old(entries)@))) && wf_value(node@.value)
            ==> wf_value(ValueModel::Mapping(entries_view(final(entries)@))),
{
    let kc = chars_of(key.as_str());
    let i = find_slot(entries, &kc);
    let ghost ov = entries_view(entries@);
    let ghost kv = key@;
    let ghost nv = node@;
    proof {
        lemma_entries_view(entries@);
    }
    if i < entries.len() {
        let ec = chars_of(entries[i].0.as_str());
        if chars_eq(&ec, &kc) {
            proof {
                lemma_entries_view_update(entries@, i as int, (key, node));
                lemma_entries_map_update(ov, i as int, nv);
            }
            entries.set(i, (key, node));
            proof {
                let nw = entries_view(entries@);
                lemma_entries_view(entries@);
                if wf_value(ValueModel::Mapping(ov)) && wf_value(nv.value) {
                    assert forall|j: int| 0 <= j < nw.len() implies #[trigger] wf_value(nw[j].1.value) by {
                        if j != i {
                            assert(nw[j] == ov[j]);
                            lemma_wf_entry(ov, j);
                        } else {
                            assert(nw[j].1 == nv);
                        }
                    }
                    assert(wf_value(ValueModel::Mapping(nw)));
                }
            }
            return;
        }
    }
    proof {
        let ins = ov.insert(i as int, (kv, nv));
        assert forall|a: int, b: int| 0 <= a < b < ins.len() implies key_lt(#[trigger] ins[a].0, #[trigger] ins[b].0) by {
            if i < ov.len() {
                lemma_key_lt_total(ov[i as int].0, kv);
            }
            if a < i && b == i {
            } else if a < i && b > i {
                assert(ins[b] == ov[b - 1]);
                if b - 1 > i {
                    assert(key_lt(ov[i as int].0, ov[b - 1].0));
                    lemma_key_lt_trans(kv, ov[i as int].0, ov[b - 1].0);
                }
                lemma_key_lt_trans(ins[a].0, kv, ins[b].0);
            } else if a == i {
                assert(ins[b] == ov[b - 1]);
                if b - 1 > i {
                    assert(key_lt(ov[i as int].0, ov[b - 1].0));
                    lemma_key_lt_trans(kv, ov[i as int].0, ov[b - 1].0);
                }
            } else if a > i {
                assert(ins[a] == ov[a - 1]);
                assert(ins[b] == ov[b - 1]);
            } else {
                assert(ins[a] == ov[a]);
                assert(ins[b] == ov[b]);
            }
        }
        lemma_entries_view_insert(entries@, i as int, (key, node));
        lemma_entries_map_insert(ov, i as int, kv, nv);
    }
    entries.insert(i, (key, node));
    proof {
        let nw = entries_view(entries@);
        if wf_value(ValueModel::Mapping(ov)) && wf_value(nv.value) {
            assert forall|j: int| 0 <= j < nw.len() implies #[trigger] wf_value(nw[j].1.value) by {
                if j < i {
                    assert(nw[j] == ov[j]);
                    lemma_wf_entry(ov, j);
                } else if j > i {
                    assert(nw[j] == ov[j - 1]);
                    lemma_wf_entry(ov, j - 1);
                } else {
                    assert(nw[j].1 == nv);
                }
            }
            assert(wf_value(ValueModel::Mapping(nw)));
        }
    }
}

/// Whether some entry has the key `key`.
pub fn map_contains(entries: &Vec<(String, YamlNode)>, key: &[char]) -> (r: bool)
    requires
        keys_sorted(entries_view(entries@)),
    ensures
        r == entries_map(entries_view(entries@)).contains_key(key@),
{
    let i = find_slot(entries, key);
    let ghost ev = entries_view(entries@);
    proof {
        lemma_entries_view(entries@);
    }
    if i < entries.len() {
        let ec = chars_of(entries[i].0.as_str());
        if chars_eq(&ec, key) {
            proof {
                lemma_entries_map_at(ev, i as int);
            }
            return true;
        }
        proof {
            lemma_key_lt_total(ev[i as int].0, key@);
        }
    }
    proof {
        if entries_map(ev).contains_key(key@) {
            let m = choose|x: int| 0 <= x < ev.len() && ev[x].0 == key@;
            lemma_key_lt_irrefl(key@);
            if m > i {
                assert(key_lt(ev[i as int].0, ev[m].0));
                lemma_key_lt_trans(key@, ev[i as int].0, ev[m].0);
            } else if m < i {
                assert(key_lt(entries@[m].0@, key@));
            }
        }
    }
    false
}

/// The entries of `existing`, with those of `source` added under the keys
/// that `existing` lacks: what a merge key does.
pub open spec fn merge_under(existing: Map<Seq<char>, NodeModel>, source: Map<Seq<char>, NodeModel>) -> Map<Seq<char>, NodeModel> {
    source.union_prefer_right(existing)
}

/// The entries of `es` that stand before position `c`, as a map.
pub open spec fn prefix_map(es: Seq<(Seq<char>, NodeModel)>, c: int) -> Map<Seq<char>, NodeModel> {
    entries_map(es.take(c))
}

pub proof fn lemma_prefix_map_step(es: Seq<(Seq<char>, NodeModel)>, c: int)
    requires
        keys_sorted(es),
        0 <= c < es.len(),
    ensures
        prefix_map(es, c + 1) == prefix_map(es, c).insert(es[c].0, es[c].1),
        !prefix_map(es, c).contains_key(es[c].0),
{
    assert(es.take(c + 1) =~= es.take(c).insert(c, es[c]));
    lemma_entries_map_insert(es.take(c), c, es[c].0, es[c].1);
}

/// Adds the entries of `extra`. Where both hold a key, the entry already in
/// `entries` stays when `keep_existing` is set and is replaced otherwise.
pub fn absorb_entries(entries: &mut Vec<(String, YamlNode)>, extra: Vec<(String, YamlNode)>, keep_existing: bool)
    requires
        keys_sorted(entries_view(old(entries)@)),
        keys_sorted(entries_view(extra@)),
    ensures
        keys_sorted(entries_view(final(entries)@)),
        entries_map(entries_view(final(entries)@)) == (if keep_existing {
            merge_under(entries_map(entries_view(old(entries)@)), entries_map(entries_view(extra@)))
        } else {
            entries_map(entries_view(old(entries)@)).union_prefer_right(entries_map(entries_view(extra@)))
        }),
        wf_value(ValueModel::Mapping(entries_view(old(entries)@))) && wf_value(ValueModel::Mapping(entries_view(extra@)))
            ==> wf_value(ValueModel::Mapping(entries_view(final(entries)@))),
{
    let ghost xs = entries_view(extra@);
    let ghost om = entries_map(entries_view(entries@));
    let ghost wf0 = wf_value(ValueModel::Mapping(entries_view(entries@))) && wf_value(ValueModel::Mapping(xs));
    let mut rest = extra;
    let mut c: usize = 0;
    let total = rest.len();
    proof {
        lemma_entries_view(rest@);
        assert(xs.take(0) =~= Seq::<(Seq<char>, NodeModel)>::empty());
        assert(entries_map(xs.take(0)) =~= Map::<Seq<char>, NodeModel>::empty());
        assert(om =~= Map::<Seq<char>, NodeModel>::empty().union_prefer_right(om));
        assert(om =~= om.union_prefer_right(Map::<Seq<char>, NodeModel>::empty()));
    }
    while rest.len() > 0
        invariant
            c + rest@.len() == xs.len(),
            xs.len() == total,
            forall|j: int| 0 <= j < rest@.len() ==> (#[trigger] rest@[j]).0@ == xs[c + j].0
                && node_view(rest@[j].1) == xs[c + j].1,
            keys_sorted(xs),
            keys_sorted(entries_view(entries@)),
            entries_map(entries_view(entries@)) == (if keep_existing {
                prefix_map(xs, c as int).union_prefer_right(om)
            } else {
                om.union_prefer_right(prefix_map(xs, c as int))
            }),
            wf0 ==> wf_value(ValueModel::Mapping(entries_view(entries@))),
            wf0 ==> wf_value(ValueModel::Mapping(xs)),
        decreases rest.len(),
    {
        let (k, n) = rest.remove(0);
        proof {
            lemma_prefix_map_step(xs, c as int);
            if wf0 {
                lemma_wf_entry(xs, c as int);
            }
        }
        let ghost prev = entries_map(entries_view(entries@));
        let ghost kv = k@;
        let ghost nv = n@;
        if keep_existing {
            let kc = chars_of(k.as_str());
            if !map_contains(entries, &kc) {
                map_insert(entries, k, n);
            }
            proof {
                assert(entries_map(entries_view(entries@)) =~= prefix_map(xs, c + 1).union_prefer_right(om));
            }
        } else {
            map_insert(entries, k, n);
            proof {
                assert(entries_map(entries_view(entries@)) =~= om.union_prefer_right(prefix_map(xs, c + 1)));
            }
        }
        c = c + 1;
    }
    proof {
        assert(xs.take(c as int) =~= xs);
    }
}

} // verus!
