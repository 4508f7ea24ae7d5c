//! Texts looked up by text, and sets of names.

use vstd::hash_map::StringHashMap;
use vstd::hash_set::StringHashSet;
use vstd::prelude::*;

use crate::text::opt_view;

verus! {

/// A map from text to text.
pub struct TextMap {
    entries: StringHashMap<String>,
}

impl View for TextMap {
    type V = Map<Seq<char>, Seq<char>>;

    closed spec fn view(&self) -> Map<Seq<char>, Seq<char>> {
        self.entries@.map_values(|s: String| s@)
    }
}

impl TextMap {
    /// The empty map.
    pub fn new() -> (r: Self)
        ensures
            r@ == Map::<Seq<char>, Seq<char>>::empty(),
    {
        let r = TextMap { entries: StringHashMap::new() };
        assert(r@ =~= Map::<Seq<char>, Seq<char>>::empty());
        r
    }

    /// Sets the text of a key; an earlier one is replaced.
    pub fn insert(&mut self, key: String, text: String)
        ensures
            final(self)@ == old(self)@.insert(key@, text@),
    {
        let ghost k = key@;
        let ghost before = self@;
        self.entries.insert(key, text);
        assert(self@ =~= before.insert(k, text@));
    }

    /// The text of a key.
    pub fn get(&self, key: &str) -> (r: Option<&String>)
        ensures
            match r {
                Some(s) => self@.contains_key(key@) && s@ == self@[key@],
                None => !self@.contains_key(key@),
            },
    {
        self.entries.get(key)
    }

    /// Whether the map holds nothing.
    pub fn is_empty(&self) -> (r: bool)
        ensures
            r == (self@ == Map::<Seq<char>, Seq<char>>::empty()),
    {
        let r = self.entries.is_empty();
        proof {
            if r {
                assert forall|k: Seq<char>| !self.entries@.contains_key(k) by {}
                assert(self@ =~= Map::<Seq<char>, Seq<char>>::empty());
            } else {
                let k = choose|k: Seq<char>| self.entries@.contains_key(k);
                assert(self@.contains_key(k));
            }
        }
        r
    }
}

/// What has been asked for: the text that came, or nothing where none came.
pub struct AnswerMap {
    answers: StringHashMap<Option<String>>,
}

impl View for AnswerMap {
    type V = Map<Seq<char>, Option<Seq<char>>>;

    closed spec fn view(&self) -> Map<Seq<char>, Option<Seq<char>>> {
        self.answers@.map_values(|o: Option<String>| opt_view(o))
    }
}

impl AnswerMap {
    /// The empty map.
    pub fn new() -> (r: Self)
        ensures
            r@ == Map::<Seq<char>, Option<Seq<char>>>::empty(),
    {
        let r = AnswerMap { answers: StringHashMap::new() };
        assert(r@ =~= Map::<Seq<char>, Option<Seq<char>>>::empty());
        r
    }

    /// Notes the answer to a question.
    pub fn insert(&mut self, question: String, answer: Option<String>)
        ensures
            final(self)@ == old(self)@.insert(question@, opt_view(answer)),
    {
        let ghost q = question@;
        let ghost before = self@;
        self.answers.insert(question, answer);
        assert(self@ =~= before.insert(q, opt_view(answer)));
    }

    /// The answer to a question; none where it has not been asked.
    pub fn get(&self, question: &str) -> (r: Option<Option<String>>)
        ensures
            match r {
                Some(answer) => self@.contains_key(question@) && opt_view(answer)
                    == self@[question@],
                None => !self@.contains_key(question@),
            },
    {
        match self.answers.get(question) {
            Some(Some(text)) => Some(Some(text.clone())),
            Some(None) => Some(None),
            None => None,
        }
    }
}

/// Counts by text.
pub struct CountMap {
    counts: StringHashMap<usize>,
}

impl View for CountMap {
    type V = Map<Seq<char>, usize>;

    closed spec fn view(&self) -> Map<Seq<char>, usize> {
        self.counts@
    }
}

impl CountMap {
    /// The map has finitely many keys.
    #[verifier::type_invariant]
    spec fn is_finite(&self) -> bool {
        self.counts@.dom().finite()
    }

    /// The empty map.
    pub fn new() -> (r: Self)
        ensures
            r@ == Map::<Seq<char>, usize>::empty(),
    {
        CountMap { counts: StringHashMap::new() }
    }

    /// How many texts have a count.
    pub fn len(&self) -> (r: usize)
        ensures
            r == self@.len(),
            self@.dom().finite(),
    {
        proof {
            use_type_invariant(&*self);
        }
        self.counts.len()
    }

    /// The count of a text.
    pub fn get(&self, key: &str) -> (r: Option<usize>)
        ensures
            match r {
                Some(n) => self@.contains_key(key@) && n == self@[key@],
                None => !self@.contains_key(key@),
            },
    {
        match self.counts.get(key) {
            Some(n) => Some(*n),
            None => None,
        }
    }

    /// Sets the count of a text.
    pub fn insert(&mut self, key: String, count: usize)
        ensures
            final(self)@ == old(self)@.insert(key@, count),
    {
        let mut whole = CountMap::new();
        std::mem::swap(self, &mut whole);
        proof {
            use_type_invariant(&whole);
        }
        let mut counts = whole.counts;
        counts.insert(key, count);
        *self = CountMap { counts };
    }
}

/// A set of names.
pub struct NameSet {
    names: StringHashSet,
}

impl View for NameSet {
    type V = Set<Seq<char>>;

    closed spec fn view(&self) -> Set<Seq<char>> {
        self.names@
    }
}

impl NameSet {
    /// The set is finite.
    #[verifier::type_invariant]
    spec fn is_finite(&self) -> bool {
        self.names@.finite()
    }

    /// How many names the set holds.
    pub open spec fn count(&self) -> nat {
        self@.len()
    }

    /// The empty set.
    pub fn new() -> (r: Self)
        ensures
            r@ == Set::<Seq<char>>::empty(),
            r.count() == 0,
    {
        NameSet { names: StringHashSet::new() }
    }

    /// How many names the set holds.
    pub fn len(&self) -> (r: usize)
        ensures
            r == self.count(),
            self@.finite(),
    {
        proof {
            use_type_invariant(&*self);
        }
        self.names.len()
    }

    /// Whether the set holds a name.
    pub fn contains(&self, name: &str) -> (r: bool)
        ensures
            r == self@.contains(name@),
    {
        self.names.contains(name)
    }

    /// Puts a name in.
    pub fn insert(&mut self, name: &str)
        ensures
            final(self)@ == old(self)@.insert(name@),
            final(self).count() == old(self).count() + if old(self)@.contains(name@) {
                0nat
            } else {
                1nat
            },
    {
        let mut whole = NameSet::new();
        std::mem::swap(self, &mut whole);
        proof {
            use_type_invariant(&whole);
            if whole@.contains(name@) {
                assert(whole@.insert(name@) =~= whole@);
            }
        }
        let mut names = whole.names;
        names.insert(name.to_owned());
        *self = NameSet { names };
    }
}

} // verus!
