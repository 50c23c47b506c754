use vstd::prelude::*;

verus! {

/// Why a reply could not be decoded.
#[derive(Debug, Clone, Copy, PartialEq, Eq, Structural)]
pub enum DnsError {
    /// A length in the reply points past the end of the bytes received.
    InvalidPacketSize,
}

impl DnsError {
    /// The human-readable message for this error.
    pub fn message(&self) -> (res: String)
        ensures
            res@ == self.spec_message(),
    {
        match self {
            DnsError::InvalidPacketSize => String::from_str("Invalid Packet Size"),
        }
    }

    /// What `message` returns.
    pub open spec fn spec_message(&self) -> Seq<char> {
        match self {
            DnsError::InvalidPacketSize => "Invalid Packet Size"@,
        }
    }
}

} // verus!
