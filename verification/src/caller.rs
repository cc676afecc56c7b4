//! The caller identity: the partition key of every stored record.
//!
//! An identity is carried as the significant bytes of an Internet
//! Computer principal.  Conversion between the byte form and the textual
//! form goes through the `candid` crate.

use vstd::prelude::*;

verus! {

/// What `candid::Principal::from_text` decodes a textual identity to: the
/// principal's significant bytes, or nothing when the text is not a valid
/// encoding.  Decoding is a function of the text alone.
pub uninterp spec fn principal_of_text(s: Seq<char>) -> Option<Seq<u8>>;

/// What `candid::Principal::to_text` prints for a principal with the
/// given significant bytes.  Printing is a function of the bytes alone.
pub uninterp spec fn text_of_principal(b: Seq<u8>) -> Seq<char>;

/// Relies on `candid::Principal::from_text`: the result depends on the
/// text alone, and a decoded principal holds at most 29 significant
/// bytes.
#[verifier::external_body]
fn parse_principal(text: &str) -> (r: Option<Vec<u8>>)
    ensures
        r is Some <==> principal_of_text(text@) is Some,
        r matches Some(b) ==> principal_of_text(text@) == Some(b@) && b@.len() <= 29,
{
    match candid::Principal::from_text(text) {
        Ok(p) => Some(p.as_slice().to_vec()),
        Err(_) => None,
    }
}

/// Relies on `candid::Principal::to_text`: the textual form depends on
/// the principal's bytes alone.  `Principal::from_slice` accepts at most
/// 29 bytes.
#[verifier::external_body]
fn principal_to_text(bytes: &Vec<u8>) -> (r: String)
    requires
        bytes@.len() <= 29,
    ensures
        r@ == text_of_principal(bytes@),
{
    candid::Principal::from_slice(bytes.as_slice()).to_text()
}

/// An opaque caller identity, used as the partition key of the stores.
pub struct CallerId {
    bytes: Vec<u8>,
}

impl View for CallerId {
    type V = Seq<u8>;

    closed spec fn view(&self) -> Seq<u8> {
        self.bytes@
    }
}

impl CallerId {
    /// The principal encoding allows at most 29 significant bytes.
    pub closed spec fn wf(self) -> bool {
        self.bytes@.len() <= 29
    }

    /// Wraps raw identity bytes; rejects byte strings too long to be a
    /// principal.
    pub fn from_bytes(bytes: Vec<u8>) -> (r: Option<CallerId>)
        ensures
            bytes@.len() <= 29 ==> (match r {
                Some(c) => c@ == bytes@ && c.wf(),
                None => false,
            }),
            bytes@.len() > 29 ==> r is None,
    {
        if bytes.len() <= 29 {
            Some(CallerId { bytes })
        } else {
            None
        }
    }

    /// Decodes the textual form of an identity; fails exactly on text
    /// that is not a valid principal encoding.
    pub fn from_text(text: &str) -> (r: Option<CallerId>)
        ensures
            r is Some <==> principal_of_text(text@) is Some,
            r matches Some(c) ==> Some(c@) == principal_of_text(text@) && c.wf(),
    {
        match parse_principal(text) {
            Some(bytes) => Some(CallerId { bytes }),
            None => None,
        }
    }

    /// The textual form of this identity.
    pub fn to_text(&self) -> (r: String)
        requires
            self.wf(),
        ensures
            r@ == text_of_principal(self@),
    {
        principal_to_text(&self.bytes)
    }

    /// Byte-for-byte equality of two identities.
    pub fn same_as(&self, other: &CallerId) -> (r: bool)
        ensures
            r == (self@ == other@),
    {
        if self.bytes.len() != other.bytes.len() {
            return false;
        }
        let n = self.bytes.len();
        let mut i: usize = 0;
        while i < n
            invariant
                i <= n,
                n == self.bytes@.len(),
                n == other.bytes@.len(),
                forall|j: int| 0 <= j < i ==> self.bytes@[j] == other.bytes@[j],
            decreases n - i,
        {
            if self.bytes[i] != other.bytes[i] {
                return false;
            }
            i = i + 1;
        }
        proof {
            assert(self.bytes@ =~= other.bytes@);
        }
        true
    }

    /// An identical copy of this identity.
    pub fn duplicate(&self) -> (r: CallerId)
        ensures
            r@ == self@,
    {
        let n = self.bytes.len();
        let mut out: Vec<u8> = Vec::new();
        let mut i: usize = 0;
        while i < n
            invariant
                i <= n,
                n == self.bytes@.len(),
                out@ == self.bytes@.subrange(0, i as int),
            decreases n - i,
        {
            out.push(self.bytes[i]);
            proof {
                assert(out@ =~= self.bytes@.subrange(0, i + 1));
            }
            i = i + 1;
        }
        proof {
            assert(out@ =~= self.bytes@);
        }
        CallerId { bytes: out }
    }
}

} // verus!
