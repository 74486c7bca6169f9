//! Vocabulary lookup and token decoding against a plain name-to-id table.
//!
//! The tokenizer proper is an external collaborator; what the core needs
//! from it is modelled here as a table of `(name, id)` entries: looking up a
//! special token's id (the end-of-sequence marker), and decoding a token id
//! back to its text fragment.

use vstd::prelude::*;
use crate::GenError;

verus! {

/// The id of the first entry named `name`, if any.
pub open spec fn spec_lookup(s: Seq<(String, u32)>, name: Seq<char>) -> Option<u32>
    decreases s.len(),
{
    if s.len() == 0 {
        None
    } else if s[0].0@ == name {
        Some(s[0].1)
    } else {
        spec_lookup(s.drop_first(), name)
    }
}

/// The name of the first entry with id `id`, if any.
pub open spec fn spec_decode(s: Seq<(String, u32)>, id: u32) -> Option<Seq<char>>
    decreases s.len(),
{
    if s.len() == 0 {
        None
    } else if s[0].1 == id {
        Some(s[0].0@)
    } else {
        spec_decode(s.drop_first(), id)
    }
}

/// The text fragment a token id decodes to: its first entry's name, or the
/// empty fragment for an id the table does not know.
pub open spec fn spec_fragment(s: Seq<(String, u32)>, id: u32) -> Seq<char> {
    match spec_decode(s, id) {
        Some(t) => t,
        None => Seq::empty(),
    }
}

/// A name-to-id table standing in for the tokenizer's vocabulary.
pub struct Vocab {
    pub entries: Vec<(String, u32)>,
}

impl Vocab {
    pub fn new() -> (r: Vocab)
        ensures
            r.entries@.len() == 0,
    {
        Vocab { entries: Vec::new() }
    }

    /// Append one entry to the table.
    pub fn add(&mut self, name: String, id: u32)
        ensures
            final(self).entries@ == old(self).entries@.push((name, id)),
    {
        self.entries.push((name, id));
    }

    /// Find the id of the first entry with this name.
    pub fn lookup(&self, name: &String) -> (r: Option<u32>)
        ensures
            r == spec_lookup(self.entries@, name@),
    {
        proof {
            assert(self.entries@.skip(0) =~= self.entries@);
        }
        let mut i: usize = 0;
        while i < self.entries.len()
            invariant
                i <= self.entries@.len(),
                spec_lookup(self.entries@, name@) == spec_lookup(
                    self.entries@.skip(i as int),
                    name@,
                ),
            decreases self.entries@.len() - i,
        {
            proof {
                assert(self.entries@.skip(i as int).drop_first() =~= self.entries@.skip(
                    i + 1,
                ));
                assert(self.entries@.skip(i as int)[0] == self.entries@[i as int]);
            }
            if self.entries[i].0 == *name {
                return Some(self.entries[i].1);
            }
            i = i + 1;
        }
        proof {
            assert(self.entries@.skip(self.entries@.len() as int) =~= Seq::<(String, u32)>::empty());
        }
        None
    }

    /// Find a required special token, the end-of-sequence marker above all;
    /// a missing entry is fatal to the session.
    pub fn special_token(&self, name: &String) -> (r: Result<u32, GenError>)
        ensures
            match spec_lookup(self.entries@, name@) {
                Some(t) => r == Ok::<u32, GenError>(t),
                None => r == Err::<u32, GenError>(GenError::UnknownSpecialToken),
            },
    {
        match self.lookup(name) {
            Some(t) => Ok(t),
            None => Err(GenError::UnknownSpecialToken),
        }
    }

    /// Decode one token id to its text fragment.
    pub fn decode(&self, id: u32) -> (r: Option<String>)
        ensures
            match spec_decode(self.entries@, id) {
                Some(t) => r is Some && r->0@ == t,
                None => r is None,
            },
    {
        proof {
            assert(self.entries@.skip(0) =~= self.entries@);
        }
        let mut i: usize = 0;
        while i < self.entries.len()
            invariant
                i <= self.entries@.len(),
                spec_decode(self.entries@, id) == spec_decode(self.entries@.skip(i as int), id),
            decreases self.entries@.len() - i,
        {
            proof {
                assert(self.entries@.skip(i as int).drop_first() =~= self.entries@.skip(
                    i + 1,
                ));
                assert(self.entries@.skip(i as int)[0] == self.entries@[i as int]);
            }
            if self.entries[i].1 == id {
                return Some(self.entries[i].0.clone());
            }
            i = i + 1;
        }
        proof {
            assert(self.entries@.skip(self.entries@.len() as int) =~= Seq::<(String, u32)>::empty());
        }
        None
    }

    /// Decode a run of token ids to fragments, in order; unknown ids decode
    /// to the empty fragment.
    pub fn decode_fragments(&self, ids: &Vec<u32>) -> (r: Vec<String>)
        ensures
            r@.len() == ids@.len(),
            forall|i: int| 0 <= i < ids@.len() ==> (#[trigger] r@[i])@ == spec_fragment(
                self.entries@,
                ids@[i],
            ),
    {
        let mut r: Vec<String> = Vec::new();
        let mut i: usize = 0;
        while i < ids.len()
            invariant
                i <= ids@.len(),
                r@.len() == i,
                forall|j: int| 0 <= j < i ==> (#[trigger] r@[j])@ == spec_fragment(
                    self.entries@,
                    ids@[j],
                ),
            decreases ids@.len() - i,
        {
            match self.decode(ids[i]) {
                Some(t) => r.push(t),
                None => r.push(String::new()),
            }
            i = i + 1;
        }
        r
    }
}

} // verus!
