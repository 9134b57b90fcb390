//! Changes: the atomic units of a document's history, and their codec.

use crate::crdt::{engine_made, harmless, parse_change, parsed_change, ChangeFacts};
pub use crate::value::same_bytes;
use vstd::prelude::*;

verus! {

/// The byte strings of a list of hashes.
pub open spec fn hashes(list: Seq<Vec<u8>>) -> Seq<Seq<u8>> {
    list.map_values(|h: Vec<u8>| h@)
}

/// What a change declares of itself: its hash, the actor that made it, its
/// number among that actor's changes, the hashes of the changes it was made
/// on, and its message.
#[derive(Debug, Clone, PartialEq, Eq)]
pub struct ChangeHeader {
    pub id: Vec<u8>,
    pub actor: Vec<u8>,
    pub seq: u64,
    pub deps: Vec<Vec<u8>>,
    pub message: Option<String>,
}

impl ChangeHeader {
    pub open spec fn facts(self) -> ChangeFacts {
        ChangeFacts {
            id: self.id@,
            actor: self.actor@,
            seq: self.seq,
            deps: hashes(self.deps@),
            message: match self.message {
                Some(m) => Some(m@),
                None => None,
            },
        }
    }
}

/// Why bytes are no change.
#[derive(Debug, PartialEq, Eq, Structural, Clone, Copy)]
pub enum DecodeError {
    /// There are no bytes at all.
    Empty,
    /// The bytes do not hold one well-formed change.
    Malformed,
}

/// A change in its transportable form, with what it declares of itself.
#[derive(Debug)]
pub struct Change {
    bytes: Vec<u8>,
    header: ChangeHeader,
}

/// What `decode` makes of `bytes`.
pub open spec fn decode_spec(bytes: Seq<u8>) -> Result<ChangeFacts, DecodeError> {
    if bytes.len() == 0 {
        Err(DecodeError::Empty)
    } else {
        match parsed_change(bytes) {
            Some(facts) => Ok(facts),
            None => Err(DecodeError::Malformed),
        }
    }
}

impl Change {
    /// The bytes are those of a change as the engine makes one, and the
    /// header is what they declare.
    #[verifier::type_invariant]
    pub closed spec fn sound(self) -> bool {
        &&& decode_spec(self.bytes@) == Ok::<ChangeFacts, DecodeError>(self.header.facts())
        &&& engine_made(self.bytes@)
    }

    /// The transportable form.
    pub closed spec fn bytes(self) -> Seq<u8> {
        self.bytes@
    }

    /// What the change declares of itself.
    pub closed spec fn facts(self) -> ChangeFacts {
        self.header.facts()
    }

    /// Reads a change from its transportable form.
    ///
    /// This is proved for bytes that hold a change as the engine makes one,
    /// or no change at all. The library cannot test that: of bytes from
    /// elsewhere the caller vouches.
    pub fn decode(bytes: Vec<u8>) -> (r: Result<Change, DecodeError>)
        requires
            harmless(bytes@),
        ensures
            r matches Ok(c) ==> c.sound() && c.bytes() == bytes@ && decode_spec(bytes@) == Ok::<
                ChangeFacts,
                DecodeError,
            >(c.facts()),
            r matches Err(e) ==> decode_spec(bytes@) == Err::<ChangeFacts, DecodeError>(e),
    {
        if bytes.len() == 0 {
            return Err(DecodeError::Empty);
        }
        match parse_change(&bytes) {
            Some(header) => Ok(Change { bytes, header }),
            None => Err(DecodeError::Malformed),
        }
    }

    /// The transportable form of the change.
    pub fn encode(&self) -> (bytes: Vec<u8>)
        ensures
            bytes@ == self.bytes(),
            decode_spec(bytes@) == Ok::<ChangeFacts, DecodeError>(self.facts()),
            engine_made(bytes@),
    {
        proof {
            use_type_invariant(self);
        }
        self.bytes.clone()
    }

    /// What the change declares of itself.
    pub fn header(&self) -> (h: &ChangeHeader)
        ensures
            h.facts() == self.facts(),
            self.sound(),
    {
        proof {
            use_type_invariant(self);
        }
        &self.header
    }

    /// The transportable form of the change, borrowed.
    pub fn raw(&self) -> (bytes: &Vec<u8>)
        ensures
            bytes@ == self.bytes(),
            parsed_change(bytes@) == Some(self.facts()),
            decode_spec(bytes@) == Ok::<ChangeFacts, DecodeError>(self.facts()),
            engine_made(bytes@),
    {
        proof {
            use_type_invariant(self);
        }
        &self.bytes
    }

    /// A copy of the change.
    pub fn copy(&self) -> (c: Change)
        ensures
            c.bytes() == self.bytes(),
            c.facts() == self.facts(),
    {
        proof {
            use_type_invariant(self);
        }
        let mut deps: Vec<Vec<u8>> = Vec::new();
        let mut k: usize = 0;
        while k < self.header.deps.len()
            invariant
                k <= self.header.deps.len(),
                deps@.len() == k,
                forall|j: int| 0 <= j < k ==> (#[trigger] deps@[j])@ == self.header.deps@[j]@,
            decreases self.header.deps.len() - k,
        {
            let dep = self.header.deps[k].clone();
            deps.push(dep);
            k += 1;
        }
        proof {
            assert(hashes(deps@) =~= hashes(self.header.deps@));
        }
        let message = match &self.header.message {
            Some(m) => Some(m.clone()),
            None => None,
        };
        let header = ChangeHeader {
            id: self.header.id.clone(),
            actor: self.header.actor.clone(),
            seq: self.header.seq,
            deps,
            message,
        };
        Change { bytes: self.bytes.clone(), header }
    }
}

/// The codec round-trips: the transportable form of a change is read as
/// that change again.
pub proof fn law_decode_inverts_encode(c: Change)
    requires
        c.sound(),
    ensures
        decode_spec(c.bytes()) == Ok::<ChangeFacts, DecodeError>(c.facts()),
{
}

/// Whether `hash` is among the hashes of the list.
pub fn has_hash(list: &Vec<Vec<u8>>, hash: &Vec<u8>) -> (r: bool)
    ensures
        r == hashes(list@).contains(hash@),
{
    let mut i: usize = 0;
    while i < list.len()
        invariant
            i <= list.len(),
            forall|j: int| 0 <= j < i ==> (#[trigger] hashes(list@)[j]) != hash@,
        decreases list.len() - i,
    {
        if same_bytes(&list[i], hash) {
            proof {
                assert(hashes(list@)[i as int] == hash@);
            }
            return true;
        }
        i += 1;
    }
    false
}

} // verus!
