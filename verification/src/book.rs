//! The home-book root: every neuron roots exactly one home book, whose token
//! id is `hemera("oikos-book-v0" ‖ neuron)`, a pure function of the neuron.
//!
//! Rooting is the one-time act of registering that a neuron has claimed its
//! book; a second `root` for the same neuron fails. Rooting mints nothing and
//! settles nothing: conservation of the book token is the `MintLedger`
//! applied to `BookRegistry::book_token(neuron)` as the token id. The
//! registry owns only the one-neuron-one-book invariant.

use vstd::prelude::*;

use crate::hashing::{hemera_digest, hemera_hash, push_id};
use crate::ids::{id_eq, NeuronId, TokenId};

verus! {

/// The domain tag `"oikos-book-v0"`.
pub open spec fn book_tag() -> Seq<u8> {
    seq![111u8, 105u8, 107u8, 111u8, 115u8, 45u8, 98u8, 111u8, 111u8, 107u8, 45u8, 118u8, 48u8]
}

/// The book token of `neuron`: `hemera("oikos-book-v0" ‖ neuron)`.
pub open spec fn book_token_spec(neuron: NeuronId) -> Seq<u8> {
    hemera_digest(book_tag() + neuron@)
}

/// Why rooting was refused.
#[derive(Clone, Copy, Debug, PartialEq, Eq, Structural)]
pub enum BookError {
    /// The neuron has rooted its home book already.
    AlreadyRooted,
}

/// The neurons that have rooted their home book.
pub struct BookRegistry {
    rooted: Vec<NeuronId>,
}

impl BookRegistry {
    /// The neurons that have rooted their book.
    pub closed spec fn rooted_set(&self) -> Set<NeuronId> {
        self.rooted@.to_set()
    }

    /// An empty registry: no neuron has rooted a book.
    pub fn new() -> (r: BookRegistry)
        ensures
            r.rooted_set() == Set::<NeuronId>::empty(),
    {
        let r = BookRegistry { rooted: Vec::new() };
        assert(r.rooted_set() =~= Set::<NeuronId>::empty());
        r
    }

    /// The neuron's book token id; no state is read.
    pub fn book_token(neuron: &NeuronId) -> (r: TokenId)
        ensures
            r@ == book_token_spec(*neuron),
    {
        let mut buf: Vec<u8> = Vec::new();
        let tag: [u8; 13] = [111, 105, 107, 111, 115, 45, 98, 111, 111, 107, 45, 118, 48];
        assert(tag@ =~= book_tag());
        let mut i: usize = 0;
        while i < 13
            invariant
                i <= 13,
                buf@ == tag@.subrange(0, i as int),
            decreases 13 - i,
        {
            buf.push(tag[i]);
            i = i + 1;
            proof {
                assert(buf@ =~= tag@.subrange(0, i as int));
            }
        }
        assert(tag@.subrange(0, 13) =~= tag@);
        push_id(&mut buf, neuron);
        assert(buf@ =~= book_tag() + neuron@);
        hemera_hash(buf.as_slice())
    }

    /// Whether `neuron` has rooted its book.
    pub fn is_rooted(&self, neuron: &NeuronId) -> (r: bool)
        ensures
            r == self.rooted_set().contains(*neuron),
    {
        let mut i: usize = 0;
        while i < self.rooted.len()
            invariant
                i <= self.rooted.len(),
                forall|j: int| 0 <= j < i ==> self.rooted@[j] != *neuron,
            decreases self.rooted.len() - i,
        {
            if id_eq(&self.rooted[i], neuron) {
                proof {
                    assert(self.rooted@.contains(*neuron));
                }
                return true;
            }
            i = i + 1;
        }
        false
    }

    /// Claim the neuron's one home book, returning its token id; a second
    /// call for the same neuron fails and changes nothing.
    pub fn root(&mut self, neuron: NeuronId) -> (r: Result<TokenId, BookError>)
        ensures
            old(self).rooted_set().contains(neuron) ==> r == Err::<TokenId, BookError>(BookError::AlreadyRooted)
                && final(self).rooted_set() == old(self).rooted_set(),
            !old(self).rooted_set().contains(neuron) ==> (r matches Ok(t) && t@ == book_token_spec(neuron)
                && final(self).rooted_set() == old(self).rooted_set().insert(neuron)),
    {
        if self.is_rooted(&neuron) {
            return Err(BookError::AlreadyRooted);
        }
        let ghost before = self.rooted@;
        self.rooted.push(neuron);
        assert(self.rooted@.to_set() =~= before.to_set().insert(neuron)) by {
            assert forall|n: NeuronId| self.rooted@.contains(n) <==> (before.contains(n) || n == neuron) by {
                if self.rooted@.contains(n) {
                    let j = choose|j: int| 0 <= j < self.rooted@.len() && self.rooted@[j] == n;
                    if j < before.len() {
                        assert(before[j] == n);
                    }
                }
                if before.contains(n) {
                    let j = choose|j: int| 0 <= j < before.len() && before[j] == n;
                    assert(self.rooted@[j] == n);
                }
                if n == neuron {
                    assert(self.rooted@[before.len() as int] == n);
                }
            }
        }
        Ok(BookRegistry::book_token(&neuron))
    }

    /// The rooted book token of `neuron`, if it has rooted one.
    pub fn book_of(&self, neuron: &NeuronId) -> (r: Option<TokenId>)
        ensures
            self.rooted_set().contains(*neuron) ==> (r matches Some(t) && t@ == book_token_spec(*neuron)),
            !self.rooted_set().contains(*neuron) ==> r is None,
    {
        if self.is_rooted(neuron) {
            Some(BookRegistry::book_token(neuron))
        } else {
            None
        }
    }
}

} // verus!
