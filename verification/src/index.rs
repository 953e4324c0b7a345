//! Interning of payloads: each distinct payload is stored once and named by its index.

use vstd::prelude::*;
use crate::bundle_index::Bundle;
use rustc_hash::FxHashMap;
use crate::collections::{payload_ids, payload_map_get, payload_map_insert, payload_map_new};
use crate::path_index::Path;

verus! {

/// A value that an [`Index`] can intern, identified by its key: a sequence of indices.
pub trait Payload {
    /// The key that identifies the payload.
    spec fn key(&self) -> Seq<usize>;

    /// The key, as a slice.
    fn key_slice(&self) -> (r: &[usize])
        ensures
            r@ == self.key(),
    ;
}

impl Payload for Bundle {
    open spec fn key(&self) -> Seq<usize> {
        self@
    }

    fn key_slice(&self) -> (r: &[usize]) {
        self.permits()
    }
}

impl Payload for Path {
    open spec fn key(&self) -> Seq<usize> {
        self@
    }

    fn key_slice(&self) -> (r: &[usize]) {
        self.edges()
    }
}

/// The keys of a sequence of payloads.
pub open spec fn keys_of<P: Payload>(elements: Seq<P>) -> Seq<Seq<usize>> {
    elements.map_values(|p: P| p.key())
}

/// Whether the payload at some index of `elements` has key `key`.
pub open spec fn holds_key<P: Payload>(elements: Seq<P>, key: Seq<usize>) -> bool {
    exists|i: int| 0 <= i < elements.len() && #[trigger] elements[i].key() == key
}

/// Whether the keys of `elements` are pairwise distinct.
pub open spec fn distinct_keys<P: Payload>(elements: Seq<P>) -> bool {
    forall|i: int, j: int| 0 <= i < j < elements.len() ==> #[trigger] elements[i].key() != #[trigger] elements[j].key()
}

/// Interning `element` into the payloads `elements`: where a payload with its
/// key is stored, the payloads stay as they are and the index is that of the
/// payload; otherwise `element` is appended and gets the next index.
pub open spec fn interned<P: Payload>(elements: Seq<P>, element: P) -> (Seq<P>, int) {
    if holds_key(elements, element.key()) {
        (elements, choose|i: int| 0 <= i < elements.len() && #[trigger] elements[i].key() == element.key())
    } else {
        (elements.push(element), elements.len() as int)
    }
}

/// Interning gives an index whose payload has the key of the interned
/// element, keeps the keys pairwise distinct, and leaves the payloads that
/// were stored where they were.
pub proof fn law_interned_holds_element<P: Payload>(elements: Seq<P>, element: P)
    requires
        distinct_keys(elements),
    ensures
        0 <= interned(elements, element).1 < interned(elements, element).0.len(),
        interned(elements, element).0[interned(elements, element).1].key() == element.key(),
        distinct_keys(interned(elements, element).0),
        interned(elements, element).0.take(elements.len() as int) == elements,
{
    let t = interned(elements, element).0;
    if !holds_key(elements, element.key()) {
        assert forall|i: int, j: int| 0 <= i < j < t.len() implies #[trigger] t[i].key() != #[trigger] t[j].key() by {
            if j == elements.len() {
                assert(t[i] == elements[i]);
            } else {
                assert(t[i] == elements[i] && t[j] == elements[j]);
            }
        }
    }
    assert(t.take(elements.len() as int) =~= elements);
}

/// Interning is idempotent: interning an element a second time changes
/// nothing and gives the same index.
pub proof fn law_interned_idempotent<P: Payload>(elements: Seq<P>, element: P)
    requires
        distinct_keys(elements),
    ensures
        interned(interned(elements, element).0, element) == interned(elements, element),
{
    law_interned_holds_element(elements, element);
    let (t, i) = interned(elements, element);
    assert(holds_key(t, element.key()));
    let j = choose|j: int| 0 <= j < t.len() && #[trigger] t[j].key() == element.key();
    assert(t[j].key() == t[i].key());
    assert(j == i);
}

/// Two elements with the same key are interned to the same index.
pub proof fn law_interned_same_key<P: Payload>(elements: Seq<P>, a: P, b: P)
    requires
        distinct_keys(elements),
        a.key() == b.key(),
    ensures
        interned(interned(elements, a).0, b).1 == interned(elements, a).1,
        interned(interned(elements, a).0, b).0 == interned(elements, a).0,
{
    law_interned_holds_element(elements, a);
    let (t, i) = interned(elements, a);
    assert(holds_key(t, b.key()));
    let j = choose|j: int| 0 <= j < t.len() && #[trigger] t[j].key() == b.key();
    assert(t[j].key() == t[i].key());
}

/// An interning table: payloads with pairwise distinct keys, indexed from 0 in
/// the order in which they were added. Payloads are never removed.
pub struct Index<P: Payload> {
    elements: Vec<P>,
    by_key: FxHashMap<Vec<usize>, usize>,
}

impl<P: Payload> View for Index<P> {
    type V = Seq<P>;

    /// The payloads, by index.
    closed spec fn view(&self) -> Seq<P> {
        self.elements@
    }
}

impl<P: Payload> Index<P> {
    #[verifier::type_invariant]
    spec fn inv(self) -> bool {
        &&& forall|i: int, j: int|
            0 <= i < j < self.elements@.len() ==> #[trigger] self.elements@[i].key()
                != #[trigger] self.elements@[j].key()
        &&& forall|k: Seq<usize>|
            #[trigger] payload_ids(self.by_key).contains_key(k) <==> holds_key(self.elements@, k)
        &&& forall|i: int|
            0 <= i < self.elements@.len() ==> payload_ids(self.by_key)[#[trigger] self.elements@[
                i
            ].key()] == i
    }

    /// An empty index.
    pub fn new() -> (r: Self)
        ensures
            r@ == Seq::<P>::empty(),
    {
        Index { elements: Vec::new(), by_key: payload_map_new() }
    }

    /// The number of stored payloads; their keys are pairwise distinct.
    pub fn len(&self) -> (r: usize)
        ensures
            r == self@.len(),
            forall|i: int, j: int|
                0 <= i < j < self@.len() ==> #[trigger] self@[i].key() != #[trigger] self@[j].key(),
    {
        proof {
            use_type_invariant(self);
        }
        self.elements.len()
    }

    /// The index of the payload whose key equals that of `element`, if one is stored.
    pub fn find_idx(&self, element: &P) -> (r: Option<usize>)
        ensures
            match r {
                Some(i) => i < self@.len() && self@[i as int].key() == element.key(),
                None => !holds_key(self@, element.key()),
            },
    {
        proof {
            use_type_invariant(self);
        }
        let key = element.key_slice();
        let r = payload_map_get(&self.by_key, key);
        proof {
            if let Some(i) = r {
                let j = choose|j: int| 0 <= j < self.elements@.len() && #[trigger] self.elements@[j].key() == key@;
                assert(payload_ids(self.by_key)[self.elements@[j].key()] == j);
            }
        }
        r
    }

    /// The payload with index `idx`.
    pub fn get_by_idx(&self, idx: usize) -> (r: &P)
        requires
            idx < self@.len(),
        ensures
            *r == self@[idx as int],
    {
        &self.elements[idx]
    }

    /// The indices of all stored payloads, `0..len`.
    pub fn element_ids(&self) -> (r: std::ops::Range<usize>)
        ensures
            r.start == 0,
            r.end == self@.len(),
    {
        0..self.elements.len()
    }

    /// Stores `element` unless a payload with its key is stored already, and
    /// returns the index of the payload with that key.
    pub fn transfer_element(&mut self, element: P) -> (r: usize)
        ensures
            (final(self)@, r as int) == interned(old(self)@, element),
            holds_key(old(self)@, element.key()) ==> {
                &&& final(self)@ == old(self)@
                &&& r < old(self)@.len()
                &&& old(self)@[r as int].key() == element.key()
            },
            !holds_key(old(self)@, element.key()) ==> {
                &&& final(self)@ == old(self)@.push(element)
                &&& r == old(self)@.len()
            },
    {
        proof {
            use_type_invariant(&*self);
        }
        match payload_map_get(&self.by_key, element.key_slice()) {
            Some(i) => {
                proof {
                    let ghost k = element.key();
                    let j = choose|j: int| 0 <= j < self.elements@.len() && #[trigger] self.elements@[j].key() == k;
                    assert(payload_ids(self.by_key)[self.elements@[j].key()] == j);
                    assert(self.elements@[i as int].key() == k);
                    if i != j {
                        if i < j {
                            assert(self.elements@[i as int].key() != self.elements@[j].key());
                        } else {
                            assert(self.elements@[j].key() != self.elements@[i as int].key());
                        }
                    }
                }
                i
            },
            None => {
                let key = vstd::slice::slice_to_vec(element.key_slice());
                let ghost k = key@;
                let ghost old_elements = self.elements@;
                let mut taken = Index::new();
                std::mem::swap(&mut taken, self);
                let Index { elements, by_key } = taken;
                let mut elements = elements;
                let mut by_key = by_key;
                elements.push(element);
                let id = elements.len() - 1;
                payload_map_insert(&mut by_key, key, id);
                proof {
                    assert forall|i: int, j: int|
                        0 <= i < j < elements@.len() implies #[trigger] elements@[i].key()
                        != #[trigger] elements@[j].key() by {
                        if j == old_elements.len() {
                            if elements@[i].key() == k {
                                assert(old_elements[i] == elements@[i]);
                                assert(holds_key(old_elements, k));
                            }
                        } else {
                            assert(old_elements[i] == elements@[i]);
                            assert(old_elements[j] == elements@[j]);
                        }
                    }
                    assert forall|kk: Seq<usize>| #[trigger]
                        payload_ids(by_key).contains_key(kk) <==> holds_key(elements@, kk) by {
                        if kk == k {
                            assert(elements@[old_elements.len() as int].key() == k);
                        } else {
                            if holds_key(elements@, kk) {
                                let j = choose|j: int| 0 <= j < elements@.len() && #[trigger] elements@[j].key() == kk;
                                assert(old_elements[j] == elements@[j]);
                            }
                            if holds_key(old_elements, kk) {
                                let j = choose|j: int| 0 <= j < old_elements.len() && #[trigger] old_elements[j].key() == kk;
                                assert(old_elements[j] == elements@[j]);
                            }
                        }
                    }
                    assert forall|i: int| 0 <= i < elements@.len() implies payload_ids(by_key)[#[trigger] elements@[i].key()] == i by {
                        if i < old_elements.len() {
                            assert(old_elements[i] == elements@[i]);
                            if elements@[i].key() == k {
                                assert(holds_key(old_elements, k));
                            }
                        }
                    }
                }
                *self = Index { elements, by_key };
                id
            },
        }
    }
}

} // verus!
