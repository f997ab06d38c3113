use crate::type_info::TypeInfo;
use vstd::prelude::*;

verus! {

/// An insert-only association table from `u64` keys to dependency lists,
/// viewed as a `Map<u64, Seq<TypeInfo>>` so that contracts speak of the
/// lists' contents rather than of vector values. A later entry for a key
/// shadows an earlier one.
pub struct DepsMap {
    entries: Vec<(u64, Vec<TypeInfo>)>,
}

impl View for DepsMap {
    type V = Map<u64, Seq<TypeInfo>>;

    closed spec fn view(&self) -> Map<u64, Seq<TypeInfo>> {
        DepsMap::seq_map(self.entries@)
    }
}

impl DepsMap {
    /// The map described by a sequence of entries, later entries winning.
    pub closed spec fn seq_map(s: Seq<(u64, Vec<TypeInfo>)>) -> Map<u64, Seq<TypeInfo>>
        decreases s.len(),
    {
        if s.len() == 0 {
            Map::empty()
        } else {
            Self::seq_map(s.drop_last()).insert(s.last().0, s.last().1@)
        }
    }

    /// An empty table.
    pub fn new() -> (r: Self)
        ensures
            r@ == Map::<u64, Seq<TypeInfo>>::empty(),
    {
        let entries: Vec<(u64, Vec<TypeInfo>)> = Vec::new();
        DepsMap { entries }
    }

    /// Look the key up, returning the list most recently inserted for it.
    pub fn get(&self, k: u64) -> (r: Option<&Vec<TypeInfo>>)
        ensures
            match r {
                Some(v) => self@.contains_key(k) && self@[k] == v@,
                None => !self@.contains_key(k),
            },
    {
        let mut i: usize = self.entries.len();
        proof {
            assert(self.entries@.take(i as int) =~= self.entries@);
        }
        while i > 0
            invariant
                i <= self.entries@.len(),
                self@.contains_key(k) == Self::seq_map(self.entries@.take(i as int)).contains_key(
                    k,
                ),
                Self::seq_map(self.entries@.take(i as int)).contains_key(k) ==> self@[k]
                    == Self::seq_map(self.entries@.take(i as int))[k],
            decreases i,
        {
            proof {
                let pre = self.entries@.take(i as int);
                assert(pre.drop_last() =~= self.entries@.take(i - 1));
                assert(pre.last() == self.entries@[i - 1]);
            }
            i = i - 1;
            if self.entries[i].0 == k {
                return Some(&self.entries[i].1);
            }
        }
        proof {
            assert(self.entries@.take(0) =~= Seq::<(u64, Vec<TypeInfo>)>::empty());
        }
        None
    }

    /// Whether the key is present.
    pub fn contains_key(&self, k: u64) -> (r: bool)
        ensures
            r == self@.contains_key(k),
    {
        self.get(k).is_some()
    }

    /// Bind the key to the list, shadowing any earlier binding.
    pub fn insert(&mut self, k: u64, v: Vec<TypeInfo>)
        ensures
            final(self)@ == old(self)@.insert(k, v@),
    {
        self.entries.push((k, v));
        proof {
            assert(self.entries@.drop_last() =~= old(self).entries@);
        }
    }
}

} // verus!
