use vstd::prelude::*;

verus! {

/// Type tag of the heartbeat message.
pub const TYPE_ID_MESSAGE_HEARTBEAT: u8 = 6;

/// Length of a heartbeat's payload: three big-endian 32-bit indices.
pub const HEARTBEAT_SIZE: usize = 12;

/// The milestone indices a node announces to its peers.
#[derive(Clone, Copy, Debug, PartialEq, Eq, Structural)]
pub struct Heartbeat {
    pub last_solid_milestone_index: u32,
    pub snapshot_milestone_index: u32,
    pub last_milestone_index: u32,
}

/// The `k`-th byte of `x` in big-endian order.
pub open spec fn be_byte(x: u32, k: int) -> u8 {
    ((x >> ((24 - 8 * k) as u32)) & 0xff) as u8
}

/// The 32-bit value of four big-endian bytes.
pub open spec fn be_u32(b0: u8, b1: u8, b2: u8, b3: u8) -> u32 {
    ((b0 as u32) << 24u32) | ((b1 as u32) << 16u32) | ((b2 as u32) << 8u32) | (b3 as u32)
}

pub open spec fn be_bytes(x: u32) -> Seq<u8> {
    seq![be_byte(x, 0), be_byte(x, 1), be_byte(x, 2), be_byte(x, 3)]
}

/// Reading back the big-endian bytes of a value gives the value.
pub proof fn lemma_be_round_trip(x: u32)
    ensures
        be_u32(be_byte(x, 0), be_byte(x, 1), be_byte(x, 2), be_byte(x, 3)) == x,
{
    assert(((((x >> 24u32) & 0xff) as u8 as u32) << 24u32) | ((((x >> 16u32) & 0xff) as u8 as u32) << 16u32)
        | ((((x >> 8u32) & 0xff) as u8 as u32) << 8u32) | (((x >> 0u32) & 0xff) as u8 as u32) == x) by (bit_vector);
}

pub fn push_be(v: &mut Vec<u8>, x: u32)
    ensures
        final(v)@ == old(v)@ + be_bytes(x),
{
    v.push(((x >> 24u32) & 0xff) as u8);
    v.push(((x >> 16u32) & 0xff) as u8);
    v.push(((x >> 8u32) & 0xff) as u8);
    v.push((x & 0xff) as u8);
    proof {
        assert((x & 0xff) == ((x >> 0u32) & 0xff)) by (bit_vector);
    }
    assert(v@ =~= old(v)@ + be_bytes(x));
}

fn read_be(b: &[u8], i: usize) -> (r: u32)
    requires
        i + 4 <= b@.len(),
    ensures
        r == be_u32(b@[i as int], b@[i + 1], b@[i + 2], b@[i + 3]),
{
    ((b[i] as u32) << 24u32) | ((b[i + 1] as u32) << 16u32) | ((b[i + 2] as u32) << 8u32) | (b[i + 3] as u32)
}

impl Heartbeat {
    pub open spec fn new_spec(last_solid: u32, snapshot: u32, last: u32) -> Heartbeat {
        Heartbeat { last_solid_milestone_index: last_solid, snapshot_milestone_index: snapshot, last_milestone_index: last }
    }

    pub fn new(last_solid_milestone_index: u32, snapshot_milestone_index: u32, last_milestone_index: u32) -> (r: Heartbeat)
        ensures
            r.last_solid_milestone_index == last_solid_milestone_index,
            r.snapshot_milestone_index == snapshot_milestone_index,
            r.last_milestone_index == last_milestone_index,
    {
        Heartbeat { last_solid_milestone_index, snapshot_milestone_index, last_milestone_index }
    }

    /// Smallest and largest payload length.
    pub fn size_range() -> (r: (usize, usize))
        ensures
            r == (HEARTBEAT_SIZE, HEARTBEAT_SIZE),
    {
        (HEARTBEAT_SIZE, HEARTBEAT_SIZE)
    }

    pub open spec fn bytes_spec(&self) -> Seq<u8> {
        be_bytes(self.last_solid_milestone_index) + be_bytes(self.snapshot_milestone_index) + be_bytes(
            self.last_milestone_index,
        )
    }

    /// The payload: last solid, snapshot and last milestone index, each as
    /// four big-endian bytes.
    pub fn to_bytes(&self) -> (r: Vec<u8>)
        ensures
            r@ == self.bytes_spec(),
    {
        let mut v: Vec<u8> = Vec::new();
        push_be(&mut v, self.last_solid_milestone_index);
        push_be(&mut v, self.snapshot_milestone_index);
        push_be(&mut v, self.last_milestone_index);
        assert(v@ =~= self.bytes_spec());
        v
    }

    /// Reads a payload of exactly twelve bytes; `None` for any other length.
    pub fn from_bytes(bytes: &[u8]) -> (r: Option<Heartbeat>)
        ensures
            r is Some <==> bytes@.len() == HEARTBEAT_SIZE,
            r matches Some(h) ==> {
                &&& h.last_solid_milestone_index == be_u32(bytes@[0], bytes@[1], bytes@[2], bytes@[3])
                &&& h.snapshot_milestone_index == be_u32(bytes@[4], bytes@[5], bytes@[6], bytes@[7])
                &&& h.last_milestone_index == be_u32(bytes@[8], bytes@[9], bytes@[10], bytes@[11])
            },
    {
        if bytes.len() != HEARTBEAT_SIZE {
            return None;
        }
        Some(
            Heartbeat {
                last_solid_milestone_index: read_be(bytes, 0),
                snapshot_milestone_index: read_be(bytes, 4),
                last_milestone_index: read_be(bytes, 8),
            },
        )
    }
}

/// Reading a heartbeat's payload gives the heartbeat back.
pub proof fn lemma_heartbeat_round_trip(h: Heartbeat)
    ensures
        h.bytes_spec().len() == HEARTBEAT_SIZE,
        be_u32(h.bytes_spec()[0], h.bytes_spec()[1], h.bytes_spec()[2], h.bytes_spec()[3]) == h.last_solid_milestone_index,
        be_u32(h.bytes_spec()[4], h.bytes_spec()[5], h.bytes_spec()[6], h.bytes_spec()[7]) == h.snapshot_milestone_index,
        be_u32(h.bytes_spec()[8], h.bytes_spec()[9], h.bytes_spec()[10], h.bytes_spec()[11]) == h.last_milestone_index,
{
    lemma_be_round_trip(h.last_solid_milestone_index);
    lemma_be_round_trip(h.snapshot_milestone_index);
    lemma_be_round_trip(h.last_milestone_index);
}

/// What a peer connection reports.
pub enum NeighborEvent {
    Connected,
    Disconnected,
    Message { size: usize, bytes: Vec<u8> },
}

} // verus!
