//! The surface-form map: stem to first-seen original word, kept only so the
//! report can show a real word for an opaque stem. First writer wins; an
//! entry is never overwritten.

use vstd::prelude::*;
use crate::assoc::assoc_has;
use crate::assoc::assoc_map;
use crate::assoc::keys_distinct;
use crate::assoc::lemma_assoc_at_unique;
use crate::assoc::lemma_assoc_push_new;

verus! {

/// Stem-to-representative-word lookup, shared by both language buckets.
pub struct Unstemmed {
    entries: Vec<(String, String)>,
}

impl View for Unstemmed {
    type V = Map<Seq<char>, Seq<char>>;

    closed spec fn view(&self) -> Map<Seq<char>, Seq<char>> {
        assoc_map(self.pairs())
    }
}

impl Unstemmed {
    /// The stored entries, read as key/value view pairs.
    pub closed spec fn pairs(&self) -> Seq<(Seq<char>, Seq<char>)> {
        self.entries@.map_values(|p: (String, String)| (p.0@, p.1@))
    }

    /// Stems are unique.
    pub closed spec fn wf(&self) -> bool {
        keys_distinct(self.pairs())
    }

    /// A fresh, empty map.
    pub fn new() -> (u: Self)
        ensures
            u.wf(),
            u@ == Map::<Seq<char>, Seq<char>>::empty(),
    {
        let u = Unstemmed { entries: Vec::new() };
        proof {
            assert(u.pairs() =~= Seq::<(Seq<char>, Seq<char>)>::empty());
            assert(u@ =~= Map::<Seq<char>, Seq<char>>::empty());
        }
        u
    }

    /// The index of the pair holding `stem`, if present.
    fn find_key(&self, stem: &String) -> (r: Option<usize>)
        requires
            self.wf(),
        ensures
            match r {
                Some(i) => 0 <= i < self.pairs().len() && self.pairs()[i as int].0 == stem@,
                None => !assoc_has(self.pairs(), stem@),
            },
    {
        let len = self.entries.len();
        let mut i: usize = 0;
        while i < len
            invariant
                len == self.entries@.len(),
                0 <= i <= len,
                forall|j: int| 0 <= j < i ==> (#[trigger] self.pairs()[j]).0 != stem@,
            decreases len - i,
        {
            if self.entries[i].0 == *stem {
                return Some(i);
            }
            i = i + 1;
        }
        None
    }

    /// Whether a representative word is already recorded for `stem`.
    pub fn contains_key(&self, stem: &String) -> (b: bool)
        requires
            self.wf(),
        ensures
            b == self@.contains_key(stem@),
    {
        match self.find_key(stem) {
            Some(i) => {
                proof {
                    lemma_assoc_at_unique(self.pairs(), i as int);
                }
                true
            },
            None => false,
        }
    }

    /// Record `word` as the representative surface form of `stem`.
    pub fn insert(&mut self, stem: String, word: String)
        requires
            old(self).wf(),
            !old(self)@.contains_key(stem@),
        ensures
            final(self).wf(),
            final(self)@ == old(self)@.insert(stem@, word@),
    {
        let ghost old_pairs = self.pairs();
        let ghost sview = stem@;
        let ghost wview = word@;
        self.entries.push((stem, word));
        proof {
            assert(self.pairs() =~= old_pairs.push((sview, wview)));
            if assoc_has(old_pairs, sview) {
                let i = choose|i: int| 0 <= i < old_pairs.len() && old_pairs[i].0 == sview;
                lemma_assoc_at_unique(old_pairs, i);
            }
            lemma_assoc_push_new(old_pairs, sview, wview);
        }
    }

    /// The representative surface form recorded for `stem`, if any.
    pub fn get(&self, stem: &String) -> (r: Option<&String>)
        requires
            self.wf(),
        ensures
            match r {
                Some(w) => self@.contains_key(stem@) && w@ == self@[stem@],
                None => !self@.contains_key(stem@),
            },
    {
        match self.find_key(stem) {
            Some(i) => {
                proof {
                    lemma_assoc_at_unique(self.pairs(), i as int);
                }
                Some(&self.entries[i].1)
            },
            None => None,
        }
    }
}

} // verus!
