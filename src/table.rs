//! An insertion-ordered string-keyed table in which a later entry for a key
//! shadows every earlier one.

use vstd::prelude::*;

verus! {

/// The value of the last entry of `p` whose key is `k`.
pub open spec fn find_last<U>(p: Seq<(Seq<char>, U)>, k: Seq<char>) -> Option<U>
    decreases p.len(),
{
    if p.len() == 0 {
        None
    } else if p.last().0 == k {
        Some(p.last().1)
    } else {
        find_last(p.drop_last(), k)
    }
}

#[derive(Debug)]
pub struct Table<V> {
    entries: Vec<(String, V)>,
}

impl<V> View for Table<V> {
    type V = Map<Seq<char>, V>;

    /// Each key mapped to the value of its last entry.
    open spec fn view(&self) -> Map<Seq<char>, V> {
        Map::new(
            |k: Seq<char>| find_last(self.keyed(), k) is Some,
            |k: Seq<char>| find_last(self.keyed(), k)->Some_0,
        )
    }
}

impl<V> Table<V> {
    /// The entries in insertion order, keys seen as character sequences.
    pub closed spec fn keyed(&self) -> Seq<(Seq<char>, V)> {
        self.entries@.map_values(|e: (String, V)| (e.0@, e.1))
    }

    /// An empty table.
    pub fn new() -> (r: Self)
        ensures
            r.keyed() == Seq::<(Seq<char>, V)>::empty(),
            r@ == Map::<Seq<char>, V>::empty(),
    {
        let r = Table { entries: Vec::new() };
        assert(r.keyed() =~= Seq::<(Seq<char>, V)>::empty());
        assert(r@ =~= Map::<Seq<char>, V>::empty());
        r
    }

    /// Records `value` under `key`; it shadows any earlier value of `key`.
    pub fn insert(&mut self, key: String, value: V)
        ensures
            final(self).keyed() == old(self).keyed().push((key@, value)),
            final(self)@ == old(self)@.insert(key@, value),
    {
        self.entries.push((key, value));
        assert(self.keyed() =~= old(self).keyed().push((key@, value)));
        let ghost p = old(self).keyed().push((key@, value));
        assert(p.drop_last() =~= old(self).keyed());
        assert forall|k: Seq<char>| #[trigger]
            find_last(p, k) == if k == key@ {
                Some(value)
            } else {
                find_last(old(self).keyed(), k)
            } by {}
        assert(self@ =~= old(self)@.insert(key@, value));
    }

    /// The number of entries, shadowed ones included.
    pub fn entry_count(&self) -> (r: usize)
        ensures
            r == self.keyed().len(),
    {
        self.entries.len()
    }

    /// The value of the last entry whose key is `key`.
    pub fn get(&self, key: &str) -> (r: Option<&V>)
        ensures
            match r {
                Some(v) => find_last(self.keyed(), key@) == Some(*v),
                None => find_last(self.keyed(), key@) is None,
            },
            match r {
                Some(v) => self@.contains_key(key@) && self@[key@] == *v,
                None => !self@.contains_key(key@),
            },
    {
        let k = key.to_owned();
        let mut i = self.entries.len();
        assert(self.keyed().subrange(0, i as int) =~= self.keyed());
        while i > 0
            invariant
                i <= self.keyed().len(),
                k@ == key@,
                find_last(self.keyed().subrange(0, i as int), key@) == find_last(
                    self.keyed(),
                    key@,
                ),
            decreases i,
        {
            let ghost pre = self.keyed().subrange(0, i as int);
            assert(pre.drop_last() =~= self.keyed().subrange(0, i - 1));
            assert(pre.last() == (self.entries@[i - 1].0@, self.entries@[i - 1].1));
            if self.entries[i - 1].0 == k {
                return Some(&self.entries[i - 1].1);
            }
            i = i - 1;
        }
        None
    }
}

impl<V: DeepView> Table<V> {
    /// The entries in insertion order, keys and values seen as their models.
    pub open spec fn deep(&self) -> Seq<(Seq<char>, V::V)> {
        self.keyed().map_values(|e: (Seq<char>, V)| (e.0, e.1.deep_view()))
    }

    /// An insertion adds one entry to the model.
    pub proof fn lemma_deep_push(old_t: &Self, new_t: &Self, key: Seq<char>, value: V)
        requires
            new_t.keyed() == old_t.keyed().push((key, value)),
        ensures
            new_t.deep() == old_t.deep().push((key, value.deep_view())),
    {
        assert(new_t.deep() =~= old_t.deep().push((key, value.deep_view())));
    }

    /// Looking a key up in the model gives the model of the value looked up.
    pub proof fn lemma_deep_find(t: &Self, k: Seq<char>)
        ensures
            find_last(t.deep(), k) == match find_last(t.keyed(), k) {
                Some(v) => Some(v.deep_view()),
                None => None,
            },
    {
        lemma_find_last_map(t.keyed(), k);
    }

    /// An empty table has an empty model.
    pub proof fn lemma_deep_empty(t: &Self)
        requires
            t.keyed() == Seq::<(Seq<char>, V)>::empty(),
        ensures
            t.deep() == Seq::<(Seq<char>, V::V)>::empty(),
    {
        assert(t.deep() =~= Seq::<(Seq<char>, V::V)>::empty());
    }
}

proof fn lemma_find_last_map<V: DeepView>(p: Seq<(Seq<char>, V)>, k: Seq<char>)
    ensures
        find_last(p.map_values(|e: (Seq<char>, V)| (e.0, e.1.deep_view())), k) == match find_last(
            p,
            k,
        ) {
            Some(v) => Some(v.deep_view()),
            None => None,
        },
    decreases p.len(),
{
    let m = p.map_values(|e: (Seq<char>, V)| (e.0, e.1.deep_view()));
    if p.len() > 0 {
        lemma_find_last_map(p.drop_last(), k);
        assert(m.drop_last() =~= p.drop_last().map_values(
            |e: (Seq<char>, V)| (e.0, e.1.deep_view()),
        ));
    }
}

} // verus!
