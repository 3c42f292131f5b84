//! A namespace of named values: an association list with pairwise-distinct
//! names, viewed as a mathematical map from name to value model. Both levels
//! of the store (table name to table, field name to bytes) are instances.

use vstd::prelude::*;

verus! {

/// A value that can live in a namespace: it has a mathematical view, and a
/// well-formedness condition that the namespace maintains for every stored
/// value.
pub trait ListedValue: View {
    spec fn value_wf(&self) -> bool;
}

impl ListedValue for Vec<u8> {
    /// Machine limit: a stored byte payload's length must fit the snapshot
    /// encoding's 64-bit length fields.
    open spec fn value_wf(&self) -> bool {
        self@.len() <= u64::MAX
    }
}

/// The map denoted by a sequence of (name, value) pairs; a later entry for
/// the same name wins.
pub open spec fn assoc_model<V: View>(s: Seq<(String, V)>) -> Map<Seq<char>, V::V>
    decreases s.len(),
{
    if s.len() == 0 {
        Map::empty()
    } else {
        assoc_model(s.drop_last()).insert(s.last().0@, s.last().1@)
    }
}

pub open spec fn unique_keys<V>(s: Seq<(String, V)>) -> bool {
    forall|i: int, j: int| 0 <= i < j < s.len() ==> (#[trigger] s[i]).0@ != (#[trigger] s[j]).0@
}

/// Names mapped to values, stored as a list of pairs with pairwise-distinct
/// names.
#[derive(Debug)]
pub struct AssocList<V> {
    pub entries: Vec<(String, V)>,
}

impl<V: ListedValue> View for AssocList<V> {
    type V = Map<Seq<char>, V::V>;

    open spec fn view(&self) -> Map<Seq<char>, V::V> {
        assoc_model(self.entries@)
    }
}

pub proof fn lemma_model_contains<V: View>(s: Seq<(String, V)>, k: Seq<char>)
    ensures
        assoc_model(s).contains_key(k) <==> exists|i: int|
            0 <= i < s.len() && (#[trigger] s[i]).0@ == k,
    decreases s.len(),
{
    if s.len() == 0 {
    } else {
        lemma_model_contains(s.drop_last(), k);
        if s.last().0@ == k {
            assert(s[s.len() - 1].0@ == k);
        } else {
            if exists|i: int| 0 <= i < s.len() && (#[trigger] s[i]).0@ == k {
                let i = choose|i: int| 0 <= i < s.len() && (#[trigger] s[i]).0@ == k;
                assert(s.drop_last()[i].0@ == k);
            }
            if assoc_model(s).contains_key(k) {
                let i = choose|i: int|
                    0 <= i < s.drop_last().len() && (#[trigger] s.drop_last()[i]).0@ == k;
                assert(s[i].0@ == k);
            }
        }
    }
}

pub proof fn lemma_model_get<V: View>(s: Seq<(String, V)>, i: int)
    requires
        unique_keys(s),
        0 <= i < s.len(),
    ensures
        assoc_model(s).contains_key(s[i].0@),
        assoc_model(s)[s[i].0@] == s[i].1@,
    decreases s.len(),
{
    if i < s.len() - 1 {
        assert(unique_keys(s.drop_last())) by {
            assert(forall|a: int, b: int|
                0 <= a < b < s.drop_last().len() ==> (#[trigger] s.drop_last()[a]).0@
                    != (#[trigger] s.drop_last()[b]).0@) by {
                assert(forall|a: int|
                    0 <= a < s.drop_last().len() ==> #[trigger] s.drop_last()[a] == s[a]);
            }
        }
        lemma_model_get(s.drop_last(), i);
        assert(s[i].0@ != s.last().0@);
    }
}

pub proof fn lemma_unique_drop_last<V: View>(s: Seq<(String, V)>)
    requires
        unique_keys(s),
        s.len() > 0,
    ensures
        unique_keys(s.drop_last()),
{
    assert(forall|a: int| 0 <= a < s.drop_last().len() ==> #[trigger] s.drop_last()[a] == s[a]);
}

pub proof fn lemma_model_remove<V: View>(s: Seq<(String, V)>, i: int)
    requires
        unique_keys(s),
        0 <= i < s.len(),
    ensures
        assoc_model(s.remove(i)) == assoc_model(s).remove(s[i].0@),
        unique_keys(s.remove(i)),
    decreases s.len(),
{
    s.remove_ensures(i);
    let k = s[i].0@;
    assert(unique_keys(s.remove(i))) by {
        assert(forall|a: int|
            0 <= a < i ==> #[trigger] s.remove(i)[a] == s[a]);
        assert(forall|a: int|
            i <= a < s.len() - 1 ==> #[trigger] s.remove(i)[a] == s[a + 1]);
    }
    if i == s.len() - 1 {
        assert(s.remove(i) =~= s.drop_last());
        lemma_unique_drop_last(s);
        lemma_model_contains(s.drop_last(), k);
        assert(forall|a: int|
            0 <= a < s.drop_last().len() ==> #[trigger] s.drop_last()[a] == s[a]);
        assert(!assoc_model(s.drop_last()).contains_key(k));
        assert(assoc_model(s).remove(k) =~= assoc_model(s.drop_last()));
    } else {
        let t = s.drop_last();
        lemma_unique_drop_last(s);
        lemma_model_remove(t, i);
        assert(s.remove(i).drop_last() =~= t.remove(i));
        assert(s.remove(i).last() == s.last());
        assert(s.remove(i).len() > 0);
        assert(t[i] == s[i]);
        assert(s.last().0@ != k);
        assert(assoc_model(s.remove(i)) == assoc_model(t.remove(i)).insert(
            s.last().0@,
            s.last().1@,
        ));
        assert(assoc_model(t).remove(k).insert(s.last().0@, s.last().1@) =~= assoc_model(
            t,
        ).insert(s.last().0@, s.last().1@).remove(k));
    }
}

pub proof fn lemma_model_push<V: View>(s: Seq<(String, V)>, p: (String, V))
    ensures
        assoc_model(s.push(p)) == assoc_model(s).insert(p.0@, p.1@),
{
    assert(s.push(p).drop_last() =~= s);
    assert(s.push(p).last() == p);
}

impl<V: ListedValue> AssocList<V> {
    pub open spec fn wf(&self) -> bool {
        &&& unique_keys(self.entries@)
        &&& forall|i: int|
            0 <= i < self.entries@.len() ==> (#[trigger] self.entries@[i]).1.value_wf()
        &&& forall|i: int|
            0 <= i < self.entries@.len() ==> (#[trigger] self.entries@[i]).0@.len() <= u64::MAX
    }

    pub fn new() -> (r: Self)
        ensures
            r.wf(),
            r@ == Map::<Seq<char>, V::V>::empty(),
            r.entries@.len() == 0,
    {
        AssocList { entries: Vec::new() }
    }

    /// Index of the entry for `key`, if one exists.
    fn find(&self, key: &String) -> (r: Option<usize>)
        ensures
            match r {
                Some(i) => i < self.entries@.len() && self.entries@[i as int].0@ == key@,
                None => forall|i: int|
                    0 <= i < self.entries@.len() ==> (#[trigger] self.entries@[i]).0@ != key@,
            },
    {
        let n = self.entries.len();
        let mut i: usize = 0;
        while i < n
            invariant
                n == self.entries@.len(),
                i <= n,
                forall|j: int| 0 <= j < i ==> (#[trigger] self.entries@[j]).0@ != key@,
            decreases n - i,
        {
            if self.entries[i].0 == *key {
                return Some(i);
            }
            i = i + 1;
        }
        None
    }

    pub fn contains(&self, key: &String) -> (r: bool)
        ensures
            r == self@.contains_key(key@),
    {
        proof {
            lemma_model_contains(self.entries@, key@);
        }
        match self.find(key) {
            Some(_) => true,
            None => false,
        }
    }

    pub fn get(&self, key: &String) -> (r: Option<&V>)
        requires
            self.wf(),
        ensures
            match r {
                Some(v) => self@.contains_key(key@) && v@ == self@[key@] && v.value_wf(),
                None => !self@.contains_key(key@),
            },
    {
        match self.find(key) {
            Some(i) => {
                proof {
                    lemma_model_get(self.entries@, i as int);
                }
                Some(&self.entries[i].1)
            },
            None => {
                proof {
                    lemma_model_contains(self.entries@, key@);
                }
                None
            },
        }
    }

    /// Insert `value` under `key`, replacing any previous value.
    pub fn put(&mut self, key: String, value: V)
        requires
            old(self).wf(),
            key@.len() <= u64::MAX,
            value.value_wf(),
        ensures
            final(self).wf(),
            final(self)@ == old(self)@.insert(key@, value@),
    {
        let ghost s0 = self.entries@;
        match self.find(&key) {
            Some(i) => {
                proof {
                    lemma_model_remove(s0, i as int);
                }
                let _previous = self.entries.remove(i);
                let ghost s1 = self.entries@;
                proof {
                    s0.remove_ensures(i as int);
                    assert(forall|a: int| 0 <= a < i ==> #[trigger] s1[a] == s0[a]);
                    assert(forall|a: int|
                        i <= a < s0.len() - 1 ==> #[trigger] s1[a] == s0[a + 1]);
                    lemma_model_push(s1, (key, value));
                }
                self.entries.push((key, value));
                proof {
                    assert(self@ =~= old(self)@.insert(key@, value@));
                    assert(forall|a: int|
                        0 <= a < s1.len() ==> (#[trigger] s1[a]).0@ != key@);
                }
            },
            None => {
                proof {
                    lemma_model_push(s0, (key, value));
                }
                self.entries.push((key, value));
            },
        }
    }

    /// Remove the entry for `key`, handing back its value, if one exists.
    pub fn remove_entry(&mut self, key: &String) -> (r: Option<V>)
        requires
            old(self).wf(),
        ensures
            final(self).wf(),
            match r {
                Some(v) => old(self)@.contains_key(key@) && v@ == old(self)@[key@]
                    && v.value_wf() && final(self)@ == old(self)@.remove(key@),
                None => !old(self)@.contains_key(key@) && final(self)@ == old(self)@,
            },
    {
        let ghost s0 = self.entries@;
        match self.find(key) {
            Some(i) => {
                proof {
                    lemma_model_get(s0, i as int);
                    lemma_model_remove(s0, i as int);
                    s0.remove_ensures(i as int);
                }
                let entry = self.entries.remove(i);
                proof {
                    let s1 = self.entries@;
                    assert(forall|a: int| 0 <= a < i ==> #[trigger] s1[a] == s0[a]);
                    assert(forall|a: int|
                        i <= a < s0.len() - 1 ==> #[trigger] s1[a] == s0[a + 1]);
                }
                Some(entry.1)
            },
            None => {
                proof {
                    lemma_model_contains(s0, key@);
                }
                None
            },
        }
    }
}

} // verus!
