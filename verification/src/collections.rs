//! Sets and maps of texts that can be listed.
use crate::text;
use vstd::hash_map::StringHashMap;
use vstd::hash_set::StringHashSet;
use vstd::prelude::*;
use vstd::string::*;

verus! {

/// A set of texts, listed in the order in which they came.
pub struct TextSet {
    set: StringHashSet,
    list: Vec<String>,
}

impl View for TextSet {
    type V = Set<Seq<char>>;

    closed spec fn view(&self) -> Set<Seq<char>> {
        self.set@
    }
}

impl TextSet {
    /// The list holds each text of the set, and each once.
    pub closed spec fn wf(&self) -> bool {
        let all = text::texts(self.list@);
        &&& all.no_duplicates()
        &&& forall|k: Seq<char>| #[trigger] self.set@.contains(k) <==> all.contains(k)
    }

    /// The set without texts.
    pub fn new() -> (r: TextSet)
        ensures
            r.wf(),
            r@ == Set::<Seq<char>>::empty(),
    {
        TextSet { set: StringHashSet::new(), list: Vec::new() }
    }

    /// Tells whether a text is in the set.
    pub fn contains(&self, k: &str) -> (r: bool)
        ensures
            r == self@.contains(k@),
    {
        self.set.contains(k)
    }

    /// Puts a text in the set.
    pub fn insert(&mut self, k: String)
        requires
            old(self).wf(),
        ensures
            final(self).wf(),
            final(self)@ == old(self)@.insert(k@),
    {
        if self.set.contains(k.as_str()) {
            assert(self.set@.insert(k@) =~= self.set@);
            return;
        }
        let copy = String::from_str(k.as_str());
        let ghost before = text::texts(self.list@);
        self.set.insert(copy);
        self.list.push(k);
        proof {
            let after = text::texts(self.list@);
            assert(after =~= before.push(k@));
            assert forall|t: Seq<char>| #[trigger] self.set@.contains(t) <==> after.contains(t) by {
                if before.contains(t) {
                    let i = choose|i: int| 0 <= i < before.len() && before[i] == t;
                    assert(after[i] == t);
                }
                if t == k@ {
                    assert(after[before.len() as int] == t);
                }
            }
        }
    }

    /// The texts of the set, each once.
    pub fn items(&self) -> (r: &Vec<String>)
        requires
            self.wf(),
        ensures
            text::texts(r@).no_duplicates(),
            text::texts(r@).to_set() == self@,
    {
        proof {
            let all = text::texts(self.list@);
            assert forall|k: Seq<char>| #[trigger] all.to_set().contains(k) <==> self.set@.contains(
                k,
            ) by {}
            assert(all.to_set() =~= self@);
        }
        &self.list
    }
}

/// A map from texts, whose keys are listed in the order in which they came.
#[verifier::reject_recursive_types(V)]
pub struct TextMap<V> {
    map: StringHashMap<V>,
    list: Vec<String>,
}

impl<V> View for TextMap<V> {
    type V = Map<Seq<char>, V>;

    closed spec fn view(&self) -> Map<Seq<char>, V> {
        self.map@
    }
}

impl<V> TextMap<V> {
    /// The list holds each key of the map, and each once.
    pub closed spec fn wf(&self) -> bool {
        let all = text::texts(self.list@);
        &&& all.no_duplicates()
        &&& forall|k: Seq<char>| #[trigger] self.map@.contains_key(k) <==> all.contains(k)
    }

    /// The map without keys.
    pub fn new() -> (r: TextMap<V>)
        ensures
            r.wf(),
            r@ == Map::<Seq<char>, V>::empty(),
    {
        TextMap { map: StringHashMap::new(), list: Vec::new() }
    }

    /// Tells whether a text is a key.
    pub fn contains_key(&self, k: &str) -> (r: bool)
        ensures
            r == self@.contains_key(k@),
    {
        self.map.contains_key(k)
    }

    /// The value of a key.
    pub fn get(&self, k: &str) -> (r: Option<&V>)
        ensures
            match r {
                Some(v) => self@.contains_key(k@) && *v == self@[k@],
                None => !self@.contains_key(k@),
            },
    {
        self.map.get(k)
    }

    /// Gives a key a value.
    pub fn insert(&mut self, k: String, v: V)
        requires
            old(self).wf(),
        ensures
            final(self).wf(),
            final(self)@ == old(self)@.insert(k@, v),
    {
        let known = self.map.contains_key(k.as_str());
        let copy = String::from_str(k.as_str());
        let ghost before = text::texts(self.list@);
        self.map.insert(copy, v);
        if !known {
            self.list.push(k);
            proof {
                let after = text::texts(self.list@);
                assert(after =~= before.push(k@));
                assert forall|t: Seq<char>| #[trigger] self.map@.contains_key(t) <==> after.contains(
                    t,
                ) by {
                    if before.contains(t) {
                        let i = choose|i: int| 0 <= i < before.len() && before[i] == t;
                        assert(after[i] == t);
                    }
                    if t == k@ {
                        assert(after[before.len() as int] == t);
                    }
                }
            }
        }
    }

    /// The keys of the map, each once.
    pub fn keys(&self) -> (r: &Vec<String>)
        requires
            self.wf(),
        ensures
            text::texts(r@).no_duplicates(),
            text::texts(r@).to_set() == self@.dom(),
    {
        proof {
            let all = text::texts(self.list@);
            assert forall|k: Seq<char>| #[trigger] all.to_set().contains(k) <==> self.map@.dom().contains(
                k,
            ) by {
                assert(self.map@.contains_key(k) <==> all.contains(k));
            }
            assert(all.to_set() =~= self@.dom());
        }
        &self.list
    }
}

} // verus!
