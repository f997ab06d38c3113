use vstd::prelude::*;

verus! {

/// An insert-only association table from `u64` keys to values, viewed as a
/// `Map<u64, V>`. A later entry for a key shadows an earlier one, so `insert`
/// is a plain push and the view follows `Map::insert`.
pub struct KeyMap<V> {
    entries: Vec<(u64, V)>,
}

impl<V> View for KeyMap<V> {
    type V = Map<u64, V>;

    closed spec fn view(&self) -> Map<u64, V> {
        KeyMap::<V>::seq_map(self.entries@)
    }
}

impl<V> KeyMap<V> {
    /// The map described by a sequence of entries, later entries winning.
    pub closed spec fn seq_map(s: Seq<(u64, V)>) -> Map<u64, V>
        decreases s.len(),
    {
        if s.len() == 0 {
            Map::empty()
        } else {
            Self::seq_map(s.drop_last()).insert(s.last().0, s.last().1)
        }
    }

    proof fn lemma_seq_map_finite(s: Seq<(u64, V)>)
        ensures
            Self::seq_map(s).dom().finite(),
        decreases s.len(),
    {
        if s.len() > 0 {
            Self::lemma_seq_map_finite(s.drop_last());
        }
    }

    /// The view's domain is finite.
    pub proof fn lemma_finite(&self)
        ensures
            self@.dom().finite(),
    {
        Self::lemma_seq_map_finite(self.entries@);
    }

    /// An empty table.
    pub fn new() -> (r: Self)
        ensures
            r@ == Map::<u64, V>::empty(),
    {
        let entries: Vec<(u64, V)> = Vec::new();
        KeyMap { entries }
    }

    /// Look the key up, returning the value most recently inserted for it.
    pub fn get(&self, k: u64) -> (r: Option<&V>)
        ensures
            match r {
                Some(v) => self@.contains_key(k) && self@[k] == *v,
                None => !self@.contains_key(k),
            },
    {
        let mut i: usize = self.entries.len();
        proof {
            assert(self.entries@.take(i as int) =~= self.entries@);
        }
        while i > 0
            invariant
                i <= self.entries@.len(),
                self@.contains_key(k) == Self::seq_map(self.entries@.take(i as int)).contains_key(
                    k,
                ),
                Self::seq_map(self.entries@.take(i as int)).contains_key(k) ==> self@[k]
                    == Self::seq_map(self.entries@.take(i as int))[k],
            decreases i,
        {
            proof {
                let pre = self.entries@.take(i as int);
                assert(pre.drop_last() =~= self.entries@.take(i - 1));
                assert(pre.last() == self.entries@[i - 1]);
            }
            i = i - 1;
            if self.entries[i].0 == k {
                return Some(&self.entries[i].1);
            }
        }
        proof {
            assert(self.entries@.take(0) =~= Seq::<(u64, V)>::empty());
        }
        None
    }

    /// Whether the key is present.
    pub fn contains_key(&self, k: u64) -> (r: bool)
        ensures
            r == self@.contains_key(k),
    {
        self.get(k).is_some()
    }

    /// Bind the key to the value, shadowing any earlier binding.
    pub fn insert(&mut self, k: u64, v: V)
        ensures
            final(self)@ == old(self)@.insert(k, v),
    {
        self.entries.push((k, v));
        proof {
            assert(self.entries@.drop_last() =~= old(self).entries@);
        }
    }
}

} // verus!
