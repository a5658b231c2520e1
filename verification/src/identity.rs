//! The canonical caller/participant identity: an opaque byte token with one
//! reserved sentinel meaning "anonymous", plus the fallible decoding of a
//! string label back into an identity.

use vstd::prelude::*;

verus! {

/// The byte representation of the reserved anonymous identity.
pub open spec fn anonymous_bytes() -> Seq<u8> {
    seq![4u8]
}

/// An opaque, comparable caller or participant identity.
pub struct Identity {
    pub bytes: Vec<u8>,
}

impl View for Identity {
    type V = Seq<u8>;

    open spec fn view(&self) -> Seq<u8> {
        self.bytes@
    }
}

impl Identity {
    pub fn from_bytes(bytes: Vec<u8>) -> (r: Identity)
        ensures
            r@ == bytes@,
    {
        Identity { bytes }
    }

    /// The reserved anonymous identity: the principal whose representation
    /// is the single byte `0x04`.
    pub fn anonymous() -> (r: Identity)
        ensures
            r@ == anonymous_bytes(),
    {
        let r = Identity { bytes: vec![4u8] };
        proof {
            assert(r@ =~= anonymous_bytes());
        }
        r
    }

    /// Whether this is the reserved anonymous identity, which every mutating
    /// ledger operation rejects.
    pub fn is_anonymous(&self) -> (r: bool)
        ensures
            r == (self@ == anonymous_bytes()),
    {
        if self.bytes.len() == 1 && self.bytes[0] == 4u8 {
            proof {
                assert(self@ =~= anonymous_bytes());
            }
            true
        } else {
            proof {
                if self@ == anonymous_bytes() {
                    assert(self@.len() == 1 && self@[0] == 4u8);
                }
            }
            false
        }
    }

    /// Byte-for-byte equality of two identities.
    pub fn same_as(&self, other: &Identity) -> (r: bool)
        ensures
            r == (self@ == other@),
    {
        bytes_eq(&self.bytes, &other.bytes)
    }

    /// A copy of this identity with the same bytes.
    pub fn duplicate(&self) -> (r: Identity)
        ensures
            r@ == self@,
    {
        let mut bytes: Vec<u8> = Vec::new();
        let mut i: usize = 0;
        while i < self.bytes.len()
            invariant
                i <= self.bytes.len(),
                bytes@ =~= self.bytes@.take(i as int),
            decreases self.bytes.len() - i,
        {
            bytes.push(self.bytes[i]);
            i = i + 1;
        }
        proof {
            assert(bytes@ =~= self.bytes@);
        }
        Identity { bytes }
    }
}

fn bytes_eq(a: &Vec<u8>, b: &Vec<u8>) -> (r: bool)
    ensures
        r == (a@ == b@),
{
    if a.len() != b.len() {
        return false;
    }
    let mut i: usize = 0;
    while i < a.len()
        invariant
            i <= a.len(),
            a@.len() == b@.len(),
            forall|j: int| 0 <= j < i ==> a@[j] == b@[j],
        decreases a.len() - i,
    {
        if a[i] != b[i] {
            return false;
        }
        i = i + 1;
    }
    proof {
        assert(a@ =~= b@);
    }
    true
}

/// What `candid::Principal::from_text` decodes a string label to: the bytes
/// of the principal it denotes, or nothing when the string is not a valid
/// principal encoding. The result depends on the characters alone.
pub uninterp spec fn decoded_identity(s: Seq<char>) -> Option<Seq<u8>>;

/// Relies on `candid::Principal::from_text`: parses the textual form of a
/// principal, failing exactly on strings that are not a valid encoding.
#[verifier::external_body]
pub fn identity_from_text(s: &String) -> (r: Option<Identity>)
    ensures
        match r {
            Some(id) => decoded_identity(s@) == Some(id@),
            None => decoded_identity(s@) is None,
        },
{
    match candid::Principal::from_text(s.as_str()) {
        Ok(p) => Some(Identity { bytes: p.as_slice().to_vec() }),
        Err(_) => None,
    }
}

} // verus!
