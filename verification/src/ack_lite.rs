//! The four-byte link acknowledgement.
use crate::text;
use crate::text::labelled;
use vstd::prelude::*;

verus! {

#[derive(Debug, Clone, Copy, PartialEq, Eq, Structural)]
pub struct AckLite {
    pub child_relay_id: u8,
    pub uplink_id: u16,
    pub status: AckStatus,
}

#[derive(Debug, Clone, Copy, PartialEq, Eq, Structural)]
pub enum AckStatus {
    Success,
    Failed,
}

/// Why a byte string is not an acknowledgement.
#[derive(Debug, Clone, Copy, PartialEq, Eq, Structural)]
pub enum AckLiteError {
    /// The number of bytes is not `AckLite::LEN`.
    InvalidLength(usize),
    /// The status byte is neither 0 nor 1.
    InvalidStatus(u8),
}

/// The status as it stands on the wire.
pub open spec fn status_byte(status: AckStatus) -> u8 {
    match status {
        AckStatus::Success => 1,
        AckStatus::Failed => 0,
    }
}

impl AckLite {
    pub const LEN: usize = 4;

    /// The wire form: child id, uplink id in network byte order, status.
    pub open spec fn wire(self) -> Seq<u8> {
        seq![
            self.child_relay_id,
            (self.uplink_id / 256) as u8,
            (self.uplink_id % 256) as u8,
            status_byte(self.status),
        ]
    }

    pub fn encode(&self) -> (buf: [u8; 4])
        ensures
            buf@ == self.wire(),
    {
        [
            self.child_relay_id,
            (self.uplink_id / 256) as u8,
            (self.uplink_id % 256) as u8,
            match self.status {
                AckStatus::Success => 1,
                AckStatus::Failed => 0,
            },
        ]
    }

    /// Accepts exactly the byte strings that `encode` can produce.
    pub fn decode(data: &[u8]) -> (res: Result<Self, AckLiteError>)
        ensures
            reads_as(data@, res),
    {
        if data.len() != Self::LEN {
            return Err(AckLiteError::InvalidLength(data.len()));
        }
        let uplink_id: u16 = (data[1] as u16) * 256 + data[2] as u16;
        let status = match data[3] {
            0 => AckStatus::Failed,
            1 => AckStatus::Success,
            v => return Err(AckLiteError::InvalidStatus(v)),
        };
        let ack = AckLite { child_relay_id: data[0], uplink_id, status };
        assert(ack.wire() =~= data@);
        Ok(ack)
    }
}

/// Whether reading a byte string gives `res`.
pub open spec fn reads_as(data: Seq<u8>, res: Result<AckLite, AckLiteError>) -> bool {
    match res {
        Ok(ack) => ack.wire() == data,
        Err(AckLiteError::InvalidLength(n)) => n == data.len() && n != AckLite::LEN,
        Err(AckLiteError::InvalidStatus(v)) => {
            &&& data.len() == AckLite::LEN
            &&& v == data[3]
            &&& v != 0
            &&& v != 1
        },
    }
}

impl AckLiteError {
    /// The error as a line of text.
    pub fn message(&self) -> (text: String)
        ensures
            text@ == match *self {
                AckLiteError::InvalidLength(n) => "invalid ack-lite length: "@ + text::decimal(n as nat),
                AckLiteError::InvalidStatus(v) => "invalid ack-lite status: "@ + text::decimal(v as nat),
            },
    {
        match self {
            AckLiteError::InvalidLength(n) => labelled("invalid ack-lite length: ", *n as u64),
            AckLiteError::InvalidStatus(v) => labelled("invalid ack-lite status: ", *v as u64),
        }
    }
}

/// Two acknowledgements with the same wire form are the same.
pub proof fn wire_is_injective(a: AckLite, b: AckLite)
    requires
        a.wire() == b.wire(),
    ensures
        a == b,
{
    assert(a.wire()[0] == b.wire()[0]);
    assert(a.wire()[1] == b.wire()[1]);
    assert(a.wire()[2] == b.wire()[2]);
    assert(a.wire()[3] == b.wire()[3]);
    assert(a.uplink_id as int == (a.uplink_id / 256) * 256 + a.uplink_id % 256);
    assert(b.uplink_id as int == (b.uplink_id / 256) * 256 + b.uplink_id % 256);
}

/// Reading what was written gives the acknowledgement back.
pub proof fn decode_inverts_encode(ack: AckLite, res: Result<AckLite, AckLiteError>)
    requires
        reads_as(ack.wire(), res),
    ensures
        res == Ok::<AckLite, AckLiteError>(ack),
{
    match res {
        Ok(read) => wire_is_injective(read, ack),
        Err(_) => {},
    }
}

/// On the wire stand the child, the identifier of the uplink with its high byte first, and
/// one for a success or zero for a failure. Every byte string of that form is read, and no
/// other.
pub proof fn wire_is_in_network_order(
    ack: AckLite,
    data: Seq<u8>,
    res: Result<AckLite, AckLiteError>,
)
    requires
        reads_as(data, res),
    ensures
        ack.wire().len() == 4,
        ack.wire()[0] == ack.child_relay_id,
        ack.wire()[1] * 256 + ack.wire()[2] == ack.uplink_id,
        ack.status == AckStatus::Success <==> ack.wire()[3] == 1,
        ack.status == AckStatus::Failed <==> ack.wire()[3] == 0,
        res is Ok <==> data.len() == 4 && data[3] <= 1,
        res matches Ok(read) ==> {
            &&& read.child_relay_id == data[0]
            &&& read.uplink_id == data[1] * 256 + data[2]
            &&& read.status == AckStatus::Success <==> data[3] == 1
        },
        data.len() != 4 <==> res == Err::<AckLite, AckLiteError>(
            AckLiteError::InvalidLength(data.len() as usize),
        ),
{
    if let Ok(read) = res {
        assert(read.wire()[0] == data[0]);
        assert(read.wire()[1] == data[1]);
        assert(read.wire()[2] == data[2]);
        assert(read.wire()[3] == data[3]);
    }
}

} // verus!
