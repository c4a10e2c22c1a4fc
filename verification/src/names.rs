//! Maps from one name to another: authors, and branches. Sets of names:
//! remotes.
use vstd::prelude::*;
use vstd::hash_map::StringHashMap;
use vstd::hash_set::StringHashSet;

verus! {

/// A finite map from names to names.
pub struct NameMap {
    names: StringHashMap<String>,
}

impl View for NameMap {
    type V = Map<Seq<char>, Seq<char>>;

    closed spec fn view(&self) -> Map<Seq<char>, Seq<char>> {
        Map::new(|k: Seq<char>| self.names@.contains_key(k), |k: Seq<char>| self.names@[k]@)
    }
}

/// The view of a map that may be absent.
pub open spec fn names_view(names: Option<NameMap>) -> Option<Map<Seq<char>, Seq<char>>> {
    match names {
        Some(m) => Some(m@),
        None => None,
    }
}

impl NameMap {
    /// The empty map.
    pub fn new() -> (names: NameMap)
        ensures
            names@ == Map::<Seq<char>, Seq<char>>::empty(),
    {
        let names = NameMap { names: StringHashMap::new() };
        assert(names@ =~= Map::<Seq<char>, Seq<char>>::empty());
        names
    }

    /// Binds `name` to `value`, in place of what it was bound to.
    pub fn insert(&mut self, name: String, value: String)
        ensures
            final(self)@ == old(self)@.insert(name@, value@),
    {
        self.names.insert(name, value);
        assert(self@ =~= old(self)@.insert(name@, value@));
    }

    /// What `name` is bound to, if it is bound.
    pub fn get(&self, name: &str) -> (value: Option<&String>)
        ensures
            match value {
                Some(v) => self@.contains_key(name@) && v@ == self@[name@],
                None => !self@.contains_key(name@),
            },
    {
        self.names.get(name)
    }

    /// Whether `name` is bound.
    pub fn contains_key(&self, name: &str) -> (bound: bool)
        ensures
            bound == self@.contains_key(name@),
    {
        self.names.contains_key(name)
    }
}

/// A finite set of names.
pub struct NameSet {
    names: StringHashSet,
}

impl View for NameSet {
    type V = Set<Seq<char>>;

    closed spec fn view(&self) -> Set<Seq<char>> {
        self.names@
    }
}

impl NameSet {
    /// The empty set.
    pub fn new() -> (names: NameSet)
        ensures
            names@ == Set::<Seq<char>>::empty(),
    {
        NameSet { names: StringHashSet::new() }
    }

    /// Puts a name into the set; tells whether it was not there before.
    pub fn insert(&mut self, name: String) -> (fresh: bool)
        ensures
            final(self)@ == old(self)@.insert(name@),
            fresh == !old(self)@.contains(name@),
    {
        self.names.insert(name)
    }

    /// Whether a name is in the set.
    pub fn contains(&self, name: &str) -> (held: bool)
        ensures
            held == self@.contains(name@),
    {
        self.names.contains(name)
    }
}

} // verus!
