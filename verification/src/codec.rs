//! Position datagrams: a count in front of the updates.
//!
//! The count mirrors the number of updates, so that a receiver knows how much
//! to expect. It has 16 bits: a longer list is sent whole under the highest
//! count, and the receiver sees that the two differ.

use vstd::prelude::*;
use vstd::string::StringExecFns;
use crate::protocol::PosUpdate;
use crate::text::{decimal, decimal_text};

verus! {

/// Something could not be encoded or decoded.
#[derive(Debug, Clone, PartialEq, Eq)]
pub struct CodecError {
    pub message: String,
}

/// A count and the updates it stands for.
#[derive(Debug, Clone, PartialEq)]
pub struct PosDatagram {
    pub count: u16,
    pub updates: Vec<PosUpdate>,
}

/// The count for `n` updates.
pub open spec fn count_for(n: nat) -> nat {
    if n <= u16::MAX {
        n
    } else {
        u16::MAX as nat
    }
}

/// The count for a list of updates; a list too long gets the highest count.
pub fn pos_count(updates: &[PosUpdate]) -> (n: u16)
    ensures
        n == count_for(updates@.len()),
{
    if updates.len() <= 65_535 {
        updates.len() as u16
    } else {
        u16::MAX
    }
}

impl PosDatagram {
    /// The datagram of a list of updates.
    pub fn of_updates(updates: Vec<PosUpdate>) -> (d: Self)
        ensures
            d.count == count_for(updates@.len()),
            d.updates == updates,
    {
        PosDatagram { count: pos_count(updates.as_slice()), updates }
    }

    /// Whether the count is the number of updates.
    pub fn is_consistent(&self) -> (b: bool)
        ensures
            b == (self.count == self.updates@.len()),
    {
        self.count as usize == self.updates.len()
    }

    /// Number of updates.
    pub fn len(&self) -> (n: usize)
        ensures
            n == self.updates@.len(),
    {
        self.updates.len()
    }

    pub fn is_empty(&self) -> (b: bool)
        ensures
            b == (self.updates@.len() == 0),
    {
        self.updates.len() == 0
    }

    /// The datagram, or an error that names both numbers if they differ.
    pub fn strict(self) -> (r: Result<PosDatagram, CodecError>)
        ensures
            r is Ok <==> self.count == self.updates@.len(),
            r matches Ok(d) ==> d == self,
            r matches Err(e) ==> e.message@ == "decode pos: count "@ + decimal(self.count as nat)
                + " != updates "@ + decimal(self.updates@.len()),
    {
        if self.is_consistent() {
            return Ok(self);
        }
        let mut message = String::from_str("decode pos: count ");
        let count = decimal_text(self.count as u64);
        let length = decimal_text(self.updates.len() as u64);
        message.append(count.as_str());
        message.append(" != updates ");
        message.append(length.as_str());
        Err(CodecError { message })
    }
}

/// Decodes a datagram and refuses one whose count is wrong.
pub fn decode_pos_strict<D: Fn(&[u8]) -> Result<PosDatagram, CodecError>>(
    bytes: &[u8],
    decode: &D,
) -> (r: Result<PosDatagram, CodecError>)
    requires
        call_requires(*decode, (bytes,)),
    ensures
        exists|decoded: Result<PosDatagram, CodecError>| #[trigger]
            call_ensures(*decode, (bytes,), decoded) && match decoded {
                Ok(datagram) => {
                    &&& r is Ok <==> datagram.count == datagram.updates@.len()
                    &&& r matches Ok(d) ==> d == datagram
                    &&& r matches Err(e) ==> e.message@ == "decode pos: count "@ + decimal(
                        datagram.count as nat,
                    ) + " != updates "@ + decimal(datagram.updates@.len())
                },
                Err(error) => r == Err::<PosDatagram, CodecError>(error),
            },
{
    match decode(bytes) {
        Ok(datagram) => datagram.strict(),
        Err(error) => Err(error),
    }
}

/// The datagram of a list is consistent unless the list is too long for the
/// count, and a datagram that passes the strict test says its true length.
pub proof fn lemma_mirrored_count(n: nat)
    ensures
        count_for(n) == n <==> n <= u16::MAX,
        count_for(n) <= u16::MAX,
{
}

/// The count is the number of updates as far as sixteen bits reach.
pub proof fn lemma_count_stops_at_the_top(n: nat)
    ensures
        n <= 65_535 ==> count_for(n) == n,
        n > 65_535 ==> count_for(n) == 65_535,
{
}

} // verus!
