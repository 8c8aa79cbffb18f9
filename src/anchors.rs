use vstd::prelude::*;
use crate::model::{YamlValue, ValueModel, wf_value, copy_value};
use crate::text::chars_eq;

verus! {

/// The anchors defined so far in one parse: each name with its latest value.
pub struct AnchorTable {
    defs: Vec<(Vec<char>, YamlValue)>,
}

/// The bindings that a list of definitions makes, later ones winning.
pub open spec fn defs_map(s: Seq<(Vec<char>, YamlValue)>) -> Map<Seq<char>, ValueModel>
    decreases s.len(),
{
    if s.len() == 0 {
        Map::empty()
    } else {
        defs_map(s.drop_last()).insert(s.last().0@, s.last().1@)
    }
}

impl View for AnchorTable {
    type V = Map<Seq<char>, ValueModel>;

    closed spec fn view(&self) -> Map<Seq<char>, ValueModel> {
        defs_map(self.defs@)
    }
}

/// Every value bound in the table is well formed.
pub open spec fn anchors_wf(t: Map<Seq<char>, ValueModel>) -> bool {
    forall|k: Seq<char>| #[trigger] t.contains_key(k) ==> wf_value(t[k])
}

impl AnchorTable {
    pub fn new() -> (r: AnchorTable)
        ensures
            r@ == Map::<Seq<char>, ValueModel>::empty(),
    {
        AnchorTable { defs: Vec::new() }
    }

    /// Binds `name` to `value`, replacing any earlier binding.
    pub fn define(&mut self, name: Vec<char>, value: YamlValue)
        ensures
            final(self)@ == old(self)@.insert(name@, value@),
    {
        self.defs.push((name, value));
        assert(self.defs@.drop_last() =~= old(self).defs@);
    }

    /// A copy of the value bound to `name`, if any.
    pub fn resolve(&self, name: &[char]) -> (r: Option<YamlValue>)
        ensures
            r is Some <==> self@.contains_key(name@),
            r is Some ==> r->0@ == self@[name@],
    {
        let mut i: usize = self.defs.len();
        assert(self.defs@.take(i as int) =~= self.defs@);
        while i > 0
            invariant
                i <= self.defs@.len(),
                self@.contains_key(name@) == defs_map(self.defs@.take(i as int)).contains_key(name@),
                self@.contains_key(name@) ==> self@[name@] == defs_map(self.defs@.take(i as int))[name@],
            decreases i,
        {
            let ghost t = self.defs@.take(i as int);
            assert(t.drop_last() =~= self.defs@.take(i - 1));
            if chars_eq(&self.defs[i - 1].0, name) {
                return Some(copy_value(&self.defs[i - 1].1));
            }
            i = i - 1;
        }
        None
    }
}

} // verus!
