//! Identities of nodes and callers.

use vstd::prelude::*;
use vstd::std_specs::cmp::PartialEqSpecImpl;

verus! {

/// The largest number of bytes in an identity.
pub const MAX_LENGTH_IN_BYTES: usize = 29;

/// Identity of a node or of a caller: between 0 and 29 opaque bytes. The
/// bytes behind the length are zero, so that two identities are equal
/// exactly when their bytes are.
#[derive(Clone, Copy, Debug, Hash)]
pub struct Principal {
    len: u8,
    bytes: [u8; 29],
}

/// The error with which `candid` tells why a text or a run of bytes is no
/// identity. It is passed on as it is; nothing inside it is looked at.
#[verifier::external_type_specification]
#[verifier::external_body]
pub struct ExPrincipalError(candid::types::principal::PrincipalError);

/// Why no identity could be made.
#[derive(Clone, Copy, Debug, PartialEq, Eq, Structural)]
pub enum IdentityError {
    /// The text is no textual form of an identity.
    InvalidText,
}

/// What `candid::Principal::from_text` makes of `text`: the bytes of the
/// identity that the text stands for, or `None` where it turns the text
/// down.
pub uninterp spec fn principal_text_bytes(text: Seq<char>) -> Option<Seq<u8>>;

impl View for Principal {
    type V = Seq<u8>;

    closed spec fn view(&self) -> Seq<u8> {
        self.bytes@.take(self.len as int)
    }
}

impl PartialEq for Principal {
    fn eq(&self, other: &Self) -> (r: bool) {
        if self.len != other.len {
            return false;
        }
        let mut i: usize = 0;
        while i < 29
            invariant
                i <= 29,
                self.len == other.len,
                forall|j: int| 0 <= j < i ==> self.bytes@[j] == other.bytes@[j],
            decreases 29 - i,
        {
            if self.bytes[i] != other.bytes[i] {
                return false;
            }
            i = i + 1;
        }
        proof {
            assert(self.bytes =~= other.bytes);
        }
        true
    }
}

impl Eq for Principal {

}

impl PartialEqSpecImpl for Principal {
    open spec fn obeys_eq_spec() -> bool {
        true
    }

    open spec fn eq_spec(&self, other: &Self) -> bool {
        *self == *other
    }
}

/// Calls `candid::Principal::from_text`, which is not verified here. That
/// function decodes the text (base 32 with a checksum in front) and accepts
/// it only in its canonical grouping. What is taken on trust: its result
/// depends on the text alone, and a decoded identity has at most 29 bytes.
#[verifier::external_body]
fn decode_text(text: &str) -> (bytes: Result<Vec<u8>, candid::types::principal::PrincipalError>)
    ensures
        bytes.is_ok() == principal_text_bytes(text@).is_some(),
        bytes.is_ok() ==> bytes.unwrap()@ == principal_text_bytes(text@).unwrap(),
        bytes.is_ok() ==> bytes.unwrap()@.len() <= MAX_LENGTH_IN_BYTES,
{
    match candid::Principal::from_text(text) {
        Ok(p) => Ok(p.as_slice().to_vec()),
        Err(e) => Err(e),
    }
}

impl Principal {
    /// The length is in range and the unused bytes are zero. This holds of
    /// every identity that a program holds.
    #[verifier::type_invariant]
    pub closed spec fn wf(self) -> bool {
        &&& self.len <= 29
        &&& forall|j: int| self.len <= j < 29 ==> self.bytes@[j] == 0
    }

    /// The identity with the bytes `bytes`, or `None` where there are more
    /// than 29 of them.
    pub fn from_slice(bytes: &[u8]) -> (principal: Option<Principal>)
        ensures
            principal.is_some() == (bytes@.len() <= MAX_LENGTH_IN_BYTES),
            principal.is_some() ==> principal.unwrap()@ == bytes@ && principal.unwrap().wf(),
    {
        if bytes.len() > 29 {
            return None;
        }
        let mut buffer = [0u8; 29];
        let mut i: usize = 0;
        while i < bytes.len()
            invariant
                i <= bytes@.len() <= 29,
                forall|j: int| 0 <= j < i ==> buffer@[j] == bytes@[j],
                forall|j: int| i <= j < 29 ==> buffer@[j] == 0,
            decreases bytes@.len() - i,
        {
            buffer[i] = bytes[i];
            i = i + 1;
        }
        let principal = Principal { len: bytes.len() as u8, bytes: buffer };
        proof {
            assert(principal@ =~= bytes@);
        }
        Some(principal)
    }

    /// The bytes of the identity.
    pub fn to_vec(&self) -> (bytes: Vec<u8>)
        ensures
            bytes@ == self@,
    {
        proof {
            use_type_invariant(self);
        }
        let mut bytes: Vec<u8> = Vec::new();
        let mut i: usize = 0;
        while i < self.len as usize
            invariant
                i <= self.len <= 29,
                bytes@ == self.bytes@.take(i as int),
            decreases self.len - i,
        {
            bytes.push(self.bytes[i]);
            proof {
                assert(self.bytes@.take(i as int).push(self.bytes@[i as int])
                    =~= self.bytes@.take(i as int + 1));
            }
            i = i + 1;
        }
        bytes
    }

    /// The number of bytes of the identity.
    pub fn len(&self) -> (n: usize)
        ensures
            n == self@.len(),
            n <= MAX_LENGTH_IN_BYTES,
    {
        proof {
            use_type_invariant(self);
        }
        self.len as usize
    }

    /// Parses the textual form of an identity.
    pub fn from_text(text: &str) -> (principal: Result<Principal, IdentityError>)
        ensures
            principal.is_ok() == principal_text_bytes(text@).is_some(),
            principal.is_ok() ==> principal.unwrap()@ == principal_text_bytes(text@).unwrap()
                && principal.unwrap().wf(),
            principal.is_err() ==> principal.unwrap_err() == IdentityError::InvalidText,
    {
        match decode_text(text) {
            Ok(bytes) => match Principal::from_slice(bytes.as_slice()) {
                Some(principal) => Ok(principal),
                None => Err(IdentityError::InvalidText),
            },
            Err(_) => Err(IdentityError::InvalidText),
        }
    }

    /// The identity of a caller that has not identified itself: the single
    /// byte 4.
    pub fn anonymous() -> (principal: Principal)
        ensures
            principal@ == seq![4u8],
            principal.wf(),
    {
        let mut bytes = [0u8; 29];
        bytes[0] = 4;
        let principal = Principal { len: 1, bytes };
        proof {
            assert(principal@ =~= seq![4u8]);
        }
        principal
    }

    /// The identity of the platform's node management facility: no byte.
    pub fn management_canister() -> (principal: Principal)
        ensures
            principal@ == Seq::<u8>::empty(),
            principal.wf(),
    {
        let principal = Principal { len: 0, bytes: [0u8; 29] };
        proof {
            assert(principal@ =~= Seq::<u8>::empty());
        }
        principal
    }

    /// Two identities with the same bytes are the same identity.
    pub proof fn lemma_equal_by_bytes(a: Principal, b: Principal)
        requires
            a.wf(),
            b.wf(),
            a@ == b@,
        ensures
            a == b,
    {
        assert(a@.len() == a.len);
        assert(b@.len() == b.len);
        assert forall|j: int| 0 <= j < 29 implies a.bytes@[j] == b.bytes@[j] by {
            if j < a.len {
                assert(a@[j] == a.bytes@[j]);
                assert(b@[j] == b.bytes@[j]);
            }
        }
        assert(a.bytes =~= b.bytes);
    }
}

} // verus!
