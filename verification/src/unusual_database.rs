//! A store of keys and values that is asked and filled by datagrams.
//!
//! A datagram with a `=` inserts: what stands before the first `=` is the
//! key, what stands behind it is the value. A datagram without one asks for
//! the value of the key that it holds. The key `version` cannot be set and
//! tells what the store is.

use crate::text::{find_byte, first_of, same_bytes};
use vstd::prelude::*;
use vstd::slice::slice_subrange;

verus! {

pub const EQUALS: u8 = 0x3d;

/// `version`
pub open spec fn version_key() -> Seq<u8> {
    seq![0x76u8, 0x65, 0x72, 0x73, 0x69, 0x6f, 0x6e]
}

/// `Ken's Key-Value Store 1.0`
pub open spec fn version_value() -> Seq<u8> {
    seq![
        0x4bu8,
        0x65,
        0x6e,
        0x27,
        0x73,
        0x20,
        0x4b,
        0x65,
        0x79,
        0x2d,
        0x56,
        0x61,
        0x6c,
        0x75,
        0x65,
        0x20,
        0x53,
        0x74,
        0x6f,
        0x72,
        0x65,
        0x20,
        0x31,
        0x2e,
        0x30,
    ]
}

/// Whether the datagram inserts.
pub open spec fn is_insert(message: Seq<u8>) -> bool {
    first_of(message, EQUALS) < message.len()
}

/// The key of a datagram: all of it, or what stands before its first `=`.
pub open spec fn key_of(message: Seq<u8>) -> Seq<u8> {
    message.take(first_of(message, EQUALS))
}

/// The value of a datagram that inserts: what stands behind its first `=`.
pub open spec fn value_of(message: Seq<u8>) -> Seq<u8> {
    message.skip(first_of(message, EQUALS) + 1)
}

/// The store after the datagram.
pub open spec fn stored(store: Map<Seq<u8>, Seq<u8>>, message: Seq<u8>) -> Map<Seq<u8>, Seq<u8>> {
    if is_insert(message) && key_of(message) != version_key() {
        store.insert(key_of(message), value_of(message))
    } else {
        store
    }
}

/// The value that the store gives for a key: the one that was set last, the
/// version for `version`, and nothing for a key that was never set.
pub open spec fn value_for(store: Map<Seq<u8>, Seq<u8>>, key: Seq<u8>) -> Seq<u8> {
    if key == version_key() {
        version_value()
    } else if store.contains_key(key) {
        store[key]
    } else {
        Seq::empty()
    }
}

/// The datagram that answers `message`: none if it inserts, else its key, a
/// `=` and the value for the key.
pub open spec fn reply_to(store: Map<Seq<u8>, Seq<u8>>, message: Seq<u8>) -> Option<Seq<u8>> {
    if is_insert(message) {
        None
    } else {
        Some(message + seq![EQUALS] + value_for(store, message))
    }
}

pub struct Store {
    entries: Vec<(Vec<u8>, Vec<u8>)>,
}

impl Store {
    spec fn holds_at(&self, key: Seq<u8>, i: int) -> bool {
        0 <= i < self.entries@.len() && self.entries@[i].0@ == key
    }

    /// No key stands twice.
    pub closed spec fn wf(&self) -> bool {
        forall|i: int, j: int|
            0 <= i < j < self.entries@.len() ==> self.entries@[i].0@ != self.entries@[j].0@
    }
}

impl View for Store {
    type V = Map<Seq<u8>, Seq<u8>>;

    closed spec fn view(&self) -> Map<Seq<u8>, Seq<u8>> {
        Map::new(
            |key: Seq<u8>| exists|i: int| self.holds_at(key, i),
            |key: Seq<u8>| self.entries@[choose|i: int| self.holds_at(key, i)].1@,
        )
    }
}

impl Store {
    /// Where a key stands, there its value stands, and nowhere else.
    proof fn lemma_found(&self, key: Seq<u8>, i: int)
        requires
            self.wf(),
            self.holds_at(key, i),
        ensures
            self@.contains_key(key),
            self@[key] == self.entries@[i].1@,
    {
        let chosen = choose|j: int| self.holds_at(key, j);
        if chosen < i {
            assert(self.entries@[chosen].0@ != self.entries@[i].0@);
        } else if chosen > i {
            assert(self.entries@[i].0@ != self.entries@[chosen].0@);
        }
    }

    /// The store after `entry` was put into it, at `at` if a key stands
    /// there and at its end else, holds what it held and the entry.
    proof fn lemma_put(&self, before: Store, at: Option<int>, key: Seq<u8>, value: Seq<u8>)
        requires
            before.wf(),
            match at {
                Some(i) => before.holds_at(key, i) && self.entries@.len() == before.entries@.len(),
                None => (forall|j: int| !before.holds_at(key, j)) && self.entries@.len()
                    == before.entries@.len() + 1,
            },
            forall|j: int|
                0 <= j < before.entries@.len() && Some(j) != at ==> self.entries@[j]
                    == before.entries@[j],
            self.holds_at(
                key,
                match at {
                    Some(i) => i,
                    None => before.entries@.len() as int,
                },
            ),
            self.entries@[match at {
                Some(i) => i,
                None => before.entries@.len() as int,
            }].1@ == value,
        ensures
            self.wf(),
            self@ == before@.insert(key, value),
    {
        let place = match at {
            Some(i) => i,
            None => before.entries@.len() as int,
        };
        assert forall|q: Seq<u8>, j: int| q != key implies self.holds_at(q, j) == before.holds_at(
            q,
            j,
        ) by {
            if 0 <= j < before.entries@.len() && j != place {
                assert(self.entries@[j] == before.entries@[j]);
            }
        }
        assert forall|a: int, b: int| 0 <= a < b < self.entries@.len() implies self.entries@[a].0@
            != self.entries@[b].0@ by {
            if a == place {
                assert(!before.holds_at(key, b));
                assert(self.entries@[b] == before.entries@[b]);
            } else if b == place {
                assert(!before.holds_at(key, a));
                assert(self.entries@[a] == before.entries@[a]);
            } else {
                assert(self.entries@[a] == before.entries@[a]);
                assert(self.entries@[b] == before.entries@[b]);
            }
        }
        assert forall|q: Seq<u8>| self@.contains_key(q) == before@.insert(key, value).contains_key(
            q,
        ) && (self@.contains_key(q) ==> self@[q] == before@.insert(key, value)[q]) by {
            if q == key {
                self.lemma_found(key, place);
            } else {
                if before@.contains_key(q) {
                    let j = choose|j: int| before.holds_at(q, j);
                    assert(self.holds_at(q, j));
                    before.lemma_found(q, j);
                    self.lemma_found(q, j);
                }
                if self@.contains_key(q) {
                    let j = choose|j: int| self.holds_at(q, j);
                    assert(before.holds_at(q, j));
                }
            }
        }
        assert(self@ =~= before@.insert(key, value));
    }

    pub fn new() -> (store: Self)
        ensures
            store.wf(),
            store@ == Map::<Seq<u8>, Seq<u8>>::empty(),
    {
        let store = Store { entries: Vec::new() };
        proof {
            assert(store@ =~= Map::<Seq<u8>, Seq<u8>>::empty());
        }
        store
    }

    /// Where `key` stands.
    fn find(&self, key: &[u8]) -> (at: Option<usize>)
        requires
            self.wf(),
        ensures
            match at {
                Some(i) => self.holds_at(key@, i as int) && self@.contains_key(key@) && self@[key@]
                    == self.entries@[i as int].1@,
                None => !self@.contains_key(key@) && forall|i: int| !self.holds_at(key@, i),
            },
    {
        let mut i: usize = 0;
        while i < self.entries.len()
            invariant
                i <= self.entries.len(),
                self.wf(),
                forall|j: int| 0 <= j < i ==> !self.holds_at(key@, j),
            decreases self.entries.len() - i,
        {
            if same_bytes(self.entries[i].0.as_slice(), key) {
                proof {
                    self.lemma_found(key@, i as int);
                }
                return Some(i);
            }
            i += 1;
        }
        None
    }

    /// Sets the value of `key`.
    fn insert(&mut self, key: &[u8], value: &[u8])
        requires
            old(self).wf(),
        ensures
            final(self).wf(),
            final(self)@ == old(self)@.insert(key@, value@),
    {
        let mut new_key: Vec<u8> = Vec::new();
        new_key.extend_from_slice(key);
        let mut new_value: Vec<u8> = Vec::new();
        new_value.extend_from_slice(value);
        proof {
            assert(new_key@ =~= key@);
            assert(new_value@ =~= value@);
        }
        let ghost before = *self;
        match self.find(key) {
            Some(i) => {
                self.entries.set(i, (new_key, new_value));
                proof {
                    self.lemma_put(before, Some(i as int), key@, value@);
                }
            },
            None => {
                self.entries.push((new_key, new_value));
                proof {
                    self.lemma_put(before, None, key@, value@);
                }
            },
        }
    }

    /// Takes one datagram. The result is the datagram that answers it, if
    /// it asks.
    pub fn handle(&mut self, message: &[u8]) -> (reply: Option<Vec<u8>>)
        requires
            old(self).wf(),
        ensures
            final(self).wf(),
            final(self)@ == stored(old(self)@, message@),
            match reply {
                Some(datagram) => reply_to(old(self)@, message@) == Some(datagram@),
                None => reply_to(old(self)@, message@) is None,
            },
    {
        let version: [u8; 7] = [0x76, 0x65, 0x72, 0x73, 0x69, 0x6f, 0x6e];
        proof {
            assert(message@.skip(0) =~= message@);
        }
        let split = find_byte(message, 0, EQUALS);
        if split < message.len() {
            let key = slice_subrange(message, 0, split);
            let value = slice_subrange(message, split + 1, message.len());
            proof {
                assert(key@ =~= key_of(message@));
            }
            if !same_bytes(key, version.as_slice()) {
                self.insert(key, value);
            }
            return None;
        }
        let mut reply: Vec<u8> = Vec::new();
        reply.extend_from_slice(message);
        reply.push(EQUALS);
        if same_bytes(message, version.as_slice()) {
            let value: [u8; 25] = [
                0x4b,
                0x65,
                0x6e,
                0x27,
                0x73,
                0x20,
                0x4b,
                0x65,
                0x79,
                0x2d,
                0x56,
                0x61,
                0x6c,
                0x75,
                0x65,
                0x20,
                0x53,
                0x74,
                0x6f,
                0x72,
                0x65,
                0x20,
                0x31,
                0x2e,
                0x30,
            ];
            proof {
                assert(value@ =~= version_value());
            }
            reply.extend_from_slice(value.as_slice());
        } else {
            match self.find(message) {
                Some(i) => {
                    reply.extend_from_slice(self.entries[i].1.as_slice());
                },
                None => {},
            }
        }
        proof {
            assert(reply@ =~= message@ + seq![EQUALS] + value_for(self@, message@));
        }
        Some(reply)
    }
}

} // verus!
