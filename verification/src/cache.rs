//! The run-scoped substitution memo: a mapping from original field text to
//! the synthetic text that replaced it. It is created empty at run start,
//! grows insert-only while the run lasts, and is never persisted.

use vstd::prelude::*;

verus! {

/// Maps an original field value (exact text) to its substitute. Owned by
/// one engine invocation; keys are never stored twice.
pub struct SubstitutionCache {
    keys: Vec<String>,
    vals: Vec<String>,
}

/// The mapping held by parallel key/value sequences; a later entry for the
/// same key would take precedence, but a well-formed cache has none.
pub closed spec fn map_of(keys: Seq<Seq<char>>, vals: Seq<Seq<char>>) -> Map<Seq<char>, Seq<char>>
    decreases keys.len(),
{
    if keys.len() == 0 || vals.len() == 0 {
        Map::empty()
    } else {
        map_of(keys.drop_last(), vals.drop_last()).insert(keys.last(), vals.last())
    }
}

proof fn lemma_map_of_dom(keys: Seq<Seq<char>>, vals: Seq<Seq<char>>)
    requires
        keys.len() == vals.len(),
    ensures
        forall|k: Seq<char>| #[trigger] map_of(keys, vals).contains_key(k) ==> keys.contains(k),
        forall|k: Seq<char>| #[trigger] keys.contains(k) ==> map_of(keys, vals).contains_key(k),
    decreases keys.len(),
{
    if keys.len() > 0 {
        lemma_map_of_dom(keys.drop_last(), vals.drop_last());
        assert forall|k: Seq<char>| #[trigger] map_of(keys, vals).contains_key(k) implies keys.contains(
            k,
        ) by {
            if k == keys.last() {
                assert(keys[keys.len() - 1] == k);
            } else {
                assert(map_of(keys.drop_last(), vals.drop_last()).contains_key(k));
                assert(keys.drop_last().contains(k));
                let i = choose|i: int|
                    0 <= i < keys.drop_last().len() && keys.drop_last()[i] == k;
                assert(keys[i] == k);
            }
        }
        assert forall|k: Seq<char>| #[trigger] keys.contains(k) implies map_of(
            keys,
            vals,
        ).contains_key(k) by {
            let i = choose|i: int| 0 <= i < keys.len() && keys[i] == k;
            if i < keys.len() - 1 {
                assert(keys.drop_last()[i] == k);
                assert(keys.drop_last().contains(k));
                assert(map_of(keys.drop_last(), vals.drop_last()).contains_key(k));
            } else {
                assert(k == keys.last());
            }
        }
    }
}

proof fn lemma_map_of_index(keys: Seq<Seq<char>>, vals: Seq<Seq<char>>, i: int)
    requires
        keys.len() == vals.len(),
        0 <= i < keys.len(),
        forall|a: int, b: int| 0 <= a < b < keys.len() ==> keys[a] != keys[b],
    ensures
        map_of(keys, vals)[keys[i]] == vals[i],
    decreases keys.len(),
{
    if i == keys.len() - 1 {
    } else {
        assert(keys[i] != keys.last());
        assert(keys.drop_last()[i] == keys[i]);
        assert(vals.drop_last()[i] == vals[i]);
        lemma_map_of_index(keys.drop_last(), vals.drop_last(), i);
    }
}

impl View for SubstitutionCache {
    type V = Map<Seq<char>, Seq<char>>;

    closed spec fn view(&self) -> Map<Seq<char>, Seq<char>> {
        map_of(self.keys.deep_view(), self.vals.deep_view())
    }
}

impl SubstitutionCache {
    /// One key/value pair per entry, and no key stored twice.
    pub closed spec fn wf(self) -> bool {
        &&& self.keys@.len() == self.vals@.len()
        &&& (forall|a: int, b: int|
            0 <= a < b < self.keys@.len() ==> self.keys@[a]@ != self.keys@[b]@)
    }

    /// The empty cache every run starts from.
    pub fn new() -> (c: SubstitutionCache)
        ensures
            c.wf(),
            c@ == Map::<Seq<char>, Seq<char>>::empty(),
    {
        let c = SubstitutionCache { keys: Vec::new(), vals: Vec::new() };
        proof {
            assert(c@ =~= Map::<Seq<char>, Seq<char>>::empty());
        }
        c
    }

    /// The substitute already recorded for `key`, if any.
    pub fn lookup(&self, key: &String) -> (r: Option<String>)
        requires
            self.wf(),
        ensures
            match r {
                Some(v) => self@.contains_key(key@) && v@ == self@[key@],
                None => !self@.contains_key(key@),
            },
    {
        let mut i: usize = 0;
        while i < self.keys.len()
            invariant
                self.wf(),
                i <= self.keys@.len(),
                forall|j: int| 0 <= j < i ==> self.keys@[j]@ != key@,
            decreases self.keys@.len() - i,
        {
            if self.keys[i] == *key {
                proof {
                    lemma_map_of_dom(self.keys.deep_view(), self.vals.deep_view());
                    assert forall|a: int, b: int|
                        0 <= a < b < self.keys.deep_view().len() implies self.keys.deep_view()[a]
                        != self.keys.deep_view()[b] by {
                        assert(self.keys.deep_view()[a] == self.keys@[a]@);
                        assert(self.keys.deep_view()[b] == self.keys@[b]@);
                    }
                    lemma_map_of_index(self.keys.deep_view(), self.vals.deep_view(), i as int);
                    assert(self.keys.deep_view()[i as int] == key@);
                    assert(self.keys.deep_view().contains(key@));
                    assert(self@ == map_of(self.keys.deep_view(), self.vals.deep_view()));
                    assert(map_of(self.keys.deep_view(), self.vals.deep_view()).contains_key(
                        key@,
                    ));
                    assert(self@.contains_key(key@));
                    assert(self.vals.deep_view()[i as int] == self.vals@[i as int]@);
                    assert(self@[key@] == self.vals@[i as int]@);
                }
                return Some(self.vals[i].clone());
            }
            i += 1;
        }
        proof {
            lemma_map_of_dom(self.keys.deep_view(), self.vals.deep_view());
            assert(!self.keys.deep_view().contains(key@)) by {
                if self.keys.deep_view().contains(key@) {
                    let j = choose|j: int|
                        0 <= j < self.keys.deep_view().len() && self.keys.deep_view()[j] == key@;
                    assert(self.keys@[j]@ == key@);
                }
            }
        }
        None
    }

    /// Records the substitute for a key seen for the first time.
    pub fn put(&mut self, key: String, val: String)
        requires
            old(self).wf(),
            !old(self)@.contains_key(key@),
        ensures
            final(self).wf(),
            final(self)@ == old(self)@.insert(key@, val@),
    {
        proof {
            lemma_map_of_dom(self.keys.deep_view(), self.vals.deep_view());
            assert(!self.keys.deep_view().contains(key@));
            assert forall|a: int| 0 <= a < self.keys@.len() implies self.keys@[a]@ != key@ by {
                assert(self.keys.deep_view()[a] == self.keys@[a]@);
            }
        }
        self.keys.push(key);
        self.vals.push(val);
        proof {
            assert(self.keys.deep_view().drop_last() =~= old(self).keys.deep_view());
            assert(self.vals.deep_view().drop_last() =~= old(self).vals.deep_view());
            assert(self.keys.deep_view().last() == key@);
            assert(self.vals.deep_view().last() == val@);
            assert(self@ == old(self)@.insert(key@, val@));
        }
    }
}

} // verus!
