//! An ordered header table with at most one entry per name.

use vstd::prelude::*;

use crate::text::{eq_ignore_ascii_case, str_eq_ignore_ascii_case};

verus! {

/// A header entry as the specification sees it: name and value.
pub type HeaderView = (Seq<char>, Seq<char>);

/// Index of the first entry at or after `from` whose name is `name`.
pub open spec fn header_index(h: Seq<HeaderView>, name: Seq<char>, from: int) -> Option<int>
    decreases h.len() - from,
{
    if from < 0 || from >= h.len() {
        None
    } else if h[from].0 == name {
        Some(from)
    } else {
        header_index(h, name, from + 1)
    }
}

/// The value stored under `name`, if any.
pub open spec fn header_get(h: Seq<HeaderView>, name: Seq<char>) -> Option<Seq<char>> {
    match header_index(h, name, 0) {
        Some(i) => Some(h[i].1),
        None => None,
    }
}

/// The table after storing `value` under `name`: an existing entry of that
/// name keeps its place and takes the new value, otherwise the entry goes
/// at the end.
pub open spec fn header_insert(h: Seq<HeaderView>, name: Seq<char>, value: Seq<char>) -> Seq<
    HeaderView,
> {
    match header_index(h, name, 0) {
        Some(i) => h.update(i, (name, value)),
        None => h.push((name, value)),
    }
}

pub proof fn lemma_header_index(h: Seq<HeaderView>, name: Seq<char>, from: int)
    requires
        0 <= from,
    ensures
        header_index(h, name, from) matches Some(i) ==> {
            &&& from <= i < h.len()
            &&& h[i].0 == name
            &&& forall|j: int| from <= j < i ==> h[j].0 != name
        },
        header_index(h, name, from) is None ==> forall|j: int|
            from <= j < h.len() ==> h[j].0 != name,
    decreases h.len() - from,
{
    if from < h.len() && h[from].0 != name {
        lemma_header_index(h, name, from + 1);
    }
}

/// Characterizes `header_index` from 0 by the first matching position.
pub proof fn lemma_header_index_unique(h: Seq<HeaderView>, name: Seq<char>, i: int)
    requires
        0 <= i < h.len(),
        h[i].0 == name,
        forall|j: int| 0 <= j < i ==> h[j].0 != name,
    ensures
        header_index(h, name, 0) == Some(i),
{
    lemma_header_index(h, name, 0);
    if let Some(k) = header_index(h, name, 0) {
        assert(k == i);
    } else {
        assert(h[i].0 != name);
    }
}

/// A read after a write gives back what was written, and leaves every
/// other name as it was.
pub proof fn lemma_header_insert_get(h: Seq<HeaderView>, name: Seq<char>, value: Seq<char>, other: Seq<char>)
    ensures
        header_get(header_insert(h, name, value), name) == Some(value),
        other != name ==> header_get(header_insert(h, name, value), other) == header_get(h, other),
{
    let h2 = header_insert(h, name, value);
    lemma_header_index(h, name, 0);
    lemma_header_index(h, other, 0);
    match header_index(h, name, 0) {
        Some(i) => {
            lemma_header_index_unique(h2, name, i);
            if other != name {
                match header_index(h, other, 0) {
                    Some(k) => {
                        lemma_header_index_unique(h2, other, k);
                    },
                    None => {
                        lemma_header_index(h2, other, 0);
                    },
                }
            }
        },
        None => {
            lemma_header_index_unique(h2, name, h.len() as int);
            if other != name {
                match header_index(h, other, 0) {
                    Some(k) => {
                        lemma_header_index_unique(h2, other, k);
                    },
                    None => {
                        lemma_header_index(h2, other, 0);
                    },
                }
            }
        },
    }
}

/// Whether some entry is named `name` when ASCII case is ignored, as HTTP
/// compares header names.
pub open spec fn has_header_ignoring_case(h: Seq<HeaderView>, name: Seq<char>) -> bool {
    exists|i: int| 0 <= i < h.len() && eq_ignore_ascii_case(#[trigger] h[i].0, name)
}

/// No name occurs twice.
pub open spec fn names_distinct(h: Seq<HeaderView>) -> bool {
    forall|i: int, j: int| 0 <= i < j < h.len() ==> h[i].0 != h[j].0
}

/// Header names and values, in the order in which they were first set;
/// no name occurs twice.
#[derive(Debug)]
pub struct Headers {
    entries: Vec<(String, String)>,
}

impl View for Headers {
    type V = Seq<HeaderView>;

    closed spec fn view(&self) -> Seq<HeaderView> {
        self.entries@.map_values(|e: (String, String)| (e.0@, e.1@))
    }
}

impl Headers {
    #[verifier::type_invariant]
    spec fn distinct(self) -> bool {
        names_distinct(self@)
    }

    /// An empty table.
    pub fn new() -> (h: Headers)
        ensures
            h@ == Seq::<HeaderView>::empty(),
    {
        let h = Headers { entries: Vec::new() };
        assert(h@ =~= Seq::<HeaderView>::empty());
        h
    }

    /// Number of entries.
    pub fn len(&self) -> (n: usize)
        ensures
            n == self@.len(),
    {
        self.entries.len()
    }

    /// Name of entry `i`.
    pub fn name_at(&self, i: usize) -> (r: &str)
        requires
            i < self@.len(),
        ensures
            r@ == self@[i as int].0,
    {
        self.entries[i].0.as_str()
    }

    /// Value of entry `i`.
    pub fn value_at(&self, i: usize) -> (r: &str)
        requires
            i < self@.len(),
        ensures
            r@ == self@[i as int].1,
    {
        self.entries[i].1.as_str()
    }

    fn position(&self, name: &str) -> (r: Option<usize>)
        ensures
            match r {
                Some(i) => header_index(self@, name@, 0) == Some(i as int) && i < self@.len(),
                None => header_index(self@, name@, 0) is None,
            },
    {
        let key: String = name.to_owned();
        let mut i: usize = 0;
        while i < self.entries.len()
            invariant
                i <= self.entries.len(),
                key@ == name@,
                forall|j: int| 0 <= j < i ==> self@[j].0 != name@,
            decreases self.entries.len() - i,
        {
            if self.entries[i].0 == key {
                proof {
                    lemma_header_index_unique(self@, name@, i as int);
                }
                return Some(i);
            }
            i = i + 1;
        }
        proof {
            lemma_header_index(self@, name@, 0);
            if let Some(k) = header_index(self@, name@, 0) {
                assert(self@[k].0 == name@);
            }
        }
        None
    }

    /// The value stored under `name` (names compare exactly).
    pub fn get(&self, name: &str) -> (r: Option<&str>)
        ensures
            match r {
                Some(v) => header_get(self@, name@) == Some(v@),
                None => header_get(self@, name@) is None,
            },
    {
        match self.position(name) {
            Some(i) => Some(self.entries[i].1.as_str()),
            None => None,
        }
    }

    /// Whether a value is stored under `name`.
    pub fn contains_key(&self, name: &str) -> (r: bool)
        ensures
            r == header_get(self@, name@) is Some,
    {
        self.position(name).is_some()
    }

    /// Whether some entry is named `name` when ASCII case is ignored.
    pub fn contains_ignoring_case(&self, name: &str) -> (r: bool)
        ensures
            r == has_header_ignoring_case(self@, name@),
    {
        let mut i: usize = 0;
        while i < self.entries.len()
            invariant
                i <= self.entries.len(),
                forall|j: int| 0 <= j < i ==> !eq_ignore_ascii_case(#[trigger] self@[j].0, name@),
            decreases self.entries.len() - i,
        {
            if str_eq_ignore_ascii_case(self.entries[i].0.as_str(), name) {
                assert(self@[i as int].0 == self.entries@[i as int].0@);
                return true;
            }
            i = i + 1;
        }
        false
    }

    /// Stores `value` under `name`, replacing an earlier value of that name.
    pub fn insert(&mut self, name: String, value: String)
        ensures
            final(self)@ == header_insert(old(self)@, name@, value@),
            names_distinct(final(self)@),
    {
        proof {
            use_type_invariant(&*self);
            lemma_header_index(self@, name@, 0);
        }
        let pos = self.position(name.as_str());
        let mut entries: Vec<(String, String)> = Vec::new();
        std::mem::swap(&mut entries, &mut self.entries);
        let ghost before = entries@;
        match pos {
            Some(i) => {
                entries.set(i, (name, value));
            },
            None => {
                entries.push((name, value));
            },
        }
        proof {
            let h = old(self)@;
            let h2 = header_insert(h, name@, value@);
            assert(entries@.map_values(|e: (String, String)| (e.0@, e.1@)) =~= h2);
            assert(names_distinct(h2)) by {
                assert forall|a: int, b: int| 0 <= a < b < h2.len() implies h2[a].0 != h2[b].0 by {
                    if let Some(i) = header_index(h, name@, 0) {
                        assert(h2[a].0 == h[a].0);
                        assert(h2[b].0 == h[b].0);
                    } else {
                        if b == h.len() {
                            assert(h[a].0 != name@);
                        } else {
                            assert(h2[a].0 == h[a].0);
                        }
                    }
                }
            }
        }
        self.entries = entries;
        assert(self@ =~= header_insert(old(self)@, name@, value@));
    }
}

impl Clone for Headers {
    /// A table with the same entries.
    fn clone(&self) -> (r: Headers)
        ensures
            r@ == self@,
    {
        proof {
            use_type_invariant(self);
        }
        let mut entries: Vec<(String, String)> = Vec::new();
        let mut i: usize = 0;
        while i < self.entries.len()
            invariant
                i <= self.entries@.len(),
                entries@.map_values(|e: (String, String)| (e.0@, e.1@)) =~= self@.subrange(0, i as int),
            decreases self.entries@.len() - i,
        {
            let name = self.entries[i].0.clone();
            let value = self.entries[i].1.clone();
            assert(name@ == self@[i as int].0 && value@ == self@[i as int].1);
            let ghost prev = entries@;
            entries.push((name, value));
            assert(entries@.map_values(|e: (String, String)| (e.0@, e.1@)) =~= prev.map_values(
                |e: (String, String)| (e.0@, e.1@),
            ).push(self@[i as int]));
            assert(entries@.map_values(|e: (String, String)| (e.0@, e.1@)) =~= self@.subrange(0, i + 1));
            i = i + 1;
        }
        assert(self@.subrange(0, self@.len() as int) =~= self@);
        Headers { entries }
    }
}

} // verus!
