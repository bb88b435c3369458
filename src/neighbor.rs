use vstd::prelude::*;
use crate::hash::slice_eq;
use crate::messages::{Heartbeat, NeighborEvent, be_u32};

verus! {

/// Length of a message header: a type byte and a big-endian 16-bit length.
pub const HEADER_SIZE: usize = 3;

/// Bytes of a handshake before its version bitmap: port (2), timestamp (8),
/// coordinator public key (49), minimum weight magnitude (1).
pub const HANDSHAKE_FIXED_SIZE: usize = 60;

/// What a peer announces when it connects.
pub struct Handshake {
    pub port: u16,
    pub timestamp: u64,
    pub coordinator: [u8; 49],
    pub mwm: u8,
    /// Bit `i % 8` of byte `i / 8` is set when protocol version `i + 1` is supported.
    pub supported_versions: Vec<u8>,
}

pub open spec fn be_u16(b0: u8, b1: u8) -> u16 {
    (((b0 as u16) << 8u16) | (b1 as u16)) as u16
}

pub open spec fn be_u64(b: Seq<u8>, i: int) -> u64 {
    (((be_u32(b[i], b[i + 1], b[i + 2], b[i + 3]) as u64) << 32u64) | (be_u32(b[i + 4], b[i + 5], b[i + 6], b[i + 7]) as u64)) as u64
}

impl Handshake {
    /// Reads a handshake: the fixed fields, then at least one byte of version
    /// bitmap. `None` on a shorter payload.
    pub fn from_bytes(b: &[u8]) -> (r: Option<Handshake>)
        ensures
            r is Some <==> b@.len() > HANDSHAKE_FIXED_SIZE,
            r matches Some(h) ==> {
                &&& h.port == be_u16(b@[0], b@[1])
                &&& h.timestamp == be_u64(b@, 2)
                &&& h.coordinator@ == b@.subrange(10, 59)
                &&& h.mwm == b@[59]
                &&& h.supported_versions@ == b@.subrange(60, b@.len() as int)
            },
    {
        if b.len() <= HANDSHAKE_FIXED_SIZE {
            return None;
        }
        let port = ((b[0] as u16) << 8u16) | (b[1] as u16);
        let hi = ((b[2] as u32) << 24u32) | ((b[3] as u32) << 16u32) | ((b[4] as u32) << 8u32) | (b[5] as u32);
        let lo = ((b[6] as u32) << 24u32) | ((b[7] as u32) << 16u32) | ((b[8] as u32) << 8u32) | (b[9] as u32);
        let timestamp = ((hi as u64) << 32u64) | (lo as u64);
        let mut coordinator = [0u8; 49];
        let mut i: usize = 0;
        while i < 49
            invariant
                i <= 49,
                b@.len() > 60,
                forall|j: int| 0 <= j < i ==> coordinator@[j] == b@[10 + j],
            decreases 49 - i,
        {
            coordinator[i] = b[10 + i];
            i += 1;
        }
        assert(coordinator@ =~= b@.subrange(10, 59));
        let mut versions: Vec<u8> = Vec::new();
        let mut k: usize = HANDSHAKE_FIXED_SIZE;
        while k < b.len()
            invariant
                60 <= k <= b@.len(),
                versions@ == b@.subrange(60, k as int),
            decreases b@.len() - k,
        {
            versions.push(b[k]);
            k += 1;
            assert(versions@ =~= b@.subrange(60, k as int));
        }
        Some(Handshake { port, timestamp, coordinator, mwm: b[59], supported_versions: versions })
    }
}

impl Handshake {
    pub open spec fn bytes_spec(&self) -> Seq<u8> {
        seq![(self.port >> 8u16) as u8, (self.port & 0xffu16) as u8] + crate::messages::be_bytes((self.timestamp >> 32u64) as u32)
            + crate::messages::be_bytes((self.timestamp & 0xffff_ffffu64) as u32) + self.coordinator@ + seq![self.mwm]
            + self.supported_versions@
    }

    /// The payload to send: port and timestamp big-endian, then the
    /// coordinator key, the minimum weight magnitude and the version bitmap.
    pub fn to_bytes(&self) -> (r: Vec<u8>)
        ensures
            r@ == self.bytes_spec(),
    {
        let mut v: Vec<u8> = Vec::new();
        v.push((self.port >> 8u16) as u8);
        v.push((self.port & 0xffu16) as u8);
        crate::messages::push_be(&mut v, (self.timestamp >> 32u64) as u32);
        crate::messages::push_be(&mut v, (self.timestamp & 0xffff_ffffu64) as u32);
        let mut i: usize = 0;
        while i < 49
            invariant
                i <= 49,
                v@ == seq![(self.port >> 8u16) as u8, (self.port & 0xffu16) as u8] + crate::messages::be_bytes((self.timestamp >> 32u64) as u32)
                    + crate::messages::be_bytes((self.timestamp & 0xffff_ffffu64) as u32) + self.coordinator@.subrange(0, i as int),
            decreases 49 - i,
        {
            v.push(self.coordinator[i]);
            i += 1;
            assert(v@ =~= seq![(self.port >> 8u16) as u8, (self.port & 0xffu16) as u8] + crate::messages::be_bytes((self.timestamp >> 32u64) as u32)
                    + crate::messages::be_bytes((self.timestamp & 0xffff_ffffu64) as u32) + self.coordinator@.subrange(0, i as int));
        }
        v.push(self.mwm);
        let mut k: usize = 0;
        let ghost prefix = v@;
        while k < self.supported_versions.len()
            invariant
                k <= self.supported_versions@.len(),
                v@ == prefix + self.supported_versions@.subrange(0, k as int),
            decreases self.supported_versions@.len() - k,
        {
            v.push(self.supported_versions[k]);
            k += 1;
            assert(v@ =~= prefix + self.supported_versions@.subrange(0, k as int));
        }
        assert(self.coordinator@.subrange(0, 49) =~= self.coordinator@);
        assert(self.supported_versions@.subrange(0, k as int) =~= self.supported_versions@);
        assert(v@ =~= self.bytes_spec());
        v
    }
}

/// The two bitmap bytes share a set bit.
pub open spec fn share_bit(x: u8, y: u8) -> bool {
    x & y != 0
}

/// Some version is supported on both sides.
pub open spec fn versions_overlap(a: Seq<u8>, b: Seq<u8>) -> bool {
    exists|i: int| 0 <= i < a.len() && i < b.len() && #[trigger] share_bit(a[i], b[i])
}

/// A peer's handshake fits ours: the same coordinator, a common version,
/// and a minimum weight magnitude no lower than ours.
pub open spec fn compatible_spec(local: &Handshake, remote: &Handshake) -> bool {
    &&& remote.coordinator@ == local.coordinator@
    &&& versions_overlap(local.supported_versions@, remote.supported_versions@)
    &&& remote.mwm >= local.mwm
}

pub fn compatible(local: &Handshake, remote: &Handshake) -> (r: bool)
    ensures
        r == compatible_spec(local, remote),
{
    let same_key = slice_eq(&remote.coordinator, &local.coordinator);
    if !same_key || remote.mwm < local.mwm {
        return false;
    }
    assert(remote.coordinator@ == local.coordinator@);
    let a = &local.supported_versions;
    let b = &remote.supported_versions;
    let mut i: usize = 0;
    while i < a.len() && i < b.len()
        invariant
            i <= a@.len(),
            i <= b@.len(),
            a@ == local.supported_versions@,
            b@ == remote.supported_versions@,
            remote.coordinator@ == local.coordinator@,
            remote.mwm >= local.mwm,
            forall|j: int| 0 <= j < i ==> !#[trigger] share_bit(a@[j], b@[j]),
        decreases a@.len() - i,
    {
        if a[i] & b[i] != 0 {
            assert(share_bit(a@[i as int], b@[i as int]));
            assert(versions_overlap(local.supported_versions@, remote.supported_versions@));
            return true;
        }
        i += 1;
    }
    false
}

/// Where a peer connection stands.
#[derive(Clone, Copy, Debug)]
pub enum NeighborState {
    /// Waiting for the connection.
    Connecting,
    /// Connected; waiting for the peer's handshake, header first.
    Handshaking { header: Option<[u8; 3]> },
    /// Handshakes exchanged and compatible.
    Ready,
}

/// What the connection asks of its surroundings.
#[derive(Clone, Copy, Debug, PartialEq, Eq, Structural)]
pub enum NeighborAction {
    SendHandshake,
    Nothing,
}

/// The handshake carried by a message, and whether it fits ours.
pub open spec fn handshake_ok(local: &Handshake, payload: Seq<u8>) -> bool {
    payload.len() > HANDSHAKE_FIXED_SIZE && exists|h: Handshake| {
        &&& #[trigger] h.supported_versions@ == payload.subrange(60, payload.len() as int)
        &&& h.coordinator@ == payload.subrange(10, 59)
        &&& h.mwm == payload[59]
        &&& compatible_spec(local, &h)
    }
}

fn check_payload(local: &Handshake, payload: &[u8]) -> (r: bool)
    ensures
        r == handshake_ok(local, payload@),
{
    match Handshake::from_bytes(payload) {
        Some(h) => {
            let ok = compatible(local, &h);
            proof {
                if !ok && handshake_ok(local, payload@) {
                    let g = choose|g: Handshake| {
                        &&& #[trigger] g.supported_versions@ == payload@.subrange(60, payload@.len() as int)
                        &&& g.coordinator@ == payload@.subrange(10, 59)
                        &&& g.mwm == payload@[59]
                        &&& compatible_spec(local, &g)
                    };
                    assert(compatible_spec(local, &h));
                }
            }
            ok
        },
        None => false,
    }
}

fn copy_tail(bytes: &Vec<u8>, from: usize, to: usize) -> (r: Vec<u8>)
    requires
        from <= to <= bytes@.len(),
    ensures
        r@ == bytes@.subrange(from as int, to as int),
{
    let mut r: Vec<u8> = Vec::new();
    let mut k = from;
    while k < to
        invariant
            from <= k <= to,
            to <= bytes@.len(),
            r@ == bytes@.subrange(from as int, k as int),
        decreases to - k,
    {
        r.push(bytes[k]);
        k += 1;
        assert(r@ =~= bytes@.subrange(from as int, k as int));
    }
    r
}

/// `next` and `action` are what a connection in `state` does on `event`.
pub open spec fn steps_to(local: &Handshake, state: NeighborState, event: NeighborEvent, next: NeighborState, action: NeighborAction) -> bool {
    &&& action == if (state matches NeighborState::Connecting && event matches NeighborEvent::Connected) {
        NeighborAction::SendHandshake
    } else {
        NeighborAction::Nothing
    }
    &&& match state {
        NeighborState::Connecting => if (event matches NeighborEvent::Connected) {
            next == NeighborState::Handshaking { header: None }
        } else {
            next == state
        },
        NeighborState::Ready => next == state,
        NeighborState::Handshaking { header } => match event {
            NeighborEvent::Message { size, bytes } => if size < HEADER_SIZE || size > bytes@.len() {
                next == state
            } else {
                match header {
                    None => if handshake_ok(local, bytes@.subrange(3, size as int)) {
                        next == NeighborState::Ready
                    } else {
                        (next matches NeighborState::Handshaking { header: Some(hd) } && hd@ == bytes@.subrange(0, 3))
                    },
                    Some(_) => if handshake_ok(local, bytes@.subrange(0, size as int)) {
                        next == NeighborState::Ready
                    } else {
                        next == state
                    },
                }
            },
            _ => next == state,
        },
    }
}

/// The next state of a connection on an event, and what to do. A connection
/// sends its handshake once connected; a message of fewer than three bytes
/// is ignored; the first message's three bytes are the header, and the
/// bytes after the header carry the handshake; a compatible handshake makes
/// the connection ready. Other events leave the state as it is.
pub fn neighbor_step(local: &Handshake, state: NeighborState, event: NeighborEvent) -> (r: (NeighborState, NeighborAction))
    ensures
        steps_to(local, state, event, r.0, r.1),
{
    match state {
        NeighborState::Connecting => match event {
            NeighborEvent::Connected => (NeighborState::Handshaking { header: None }, NeighborAction::SendHandshake),
            _ => (NeighborState::Connecting, NeighborAction::Nothing),
        },
        NeighborState::Handshaking { header } => match event {
            NeighborEvent::Message { size, bytes } => {
                if size < HEADER_SIZE || size > bytes.len() {
                    return (NeighborState::Handshaking { header }, NeighborAction::Nothing);
                }
                match header {
                    Some(hd) => {
                        let payload = copy_tail(&bytes, 0, size);
                        if check_payload(local, payload.as_slice()) {
                            (NeighborState::Ready, NeighborAction::Nothing)
                        } else {
                            (NeighborState::Handshaking { header: Some(hd) }, NeighborAction::Nothing)
                        }
                    },
                    None => {
                        let hd: [u8; 3] = [bytes[0], bytes[1], bytes[2]];
                        proof {
                            assert(hd@ =~= bytes@.subrange(0, 3));
                        }
                        let payload = copy_tail(&bytes, HEADER_SIZE, size);
                        if size > HEADER_SIZE && check_payload(local, payload.as_slice()) {
                            (NeighborState::Ready, NeighborAction::Nothing)
                        } else {
                            (NeighborState::Handshaking { header: Some(hd) }, NeighborAction::Nothing)
                        }
                    },
                }
            },
            _ => (NeighborState::Handshaking { header }, NeighborAction::Nothing),
        },
        NeighborState::Ready => (NeighborState::Ready, NeighborAction::Nothing),
    }
}


/// A peer: where its connection stands, and the last heartbeat it sent.
pub struct Neighbor {
    pub state: NeighborState,
    pub heartbeat: Heartbeat,
}

impl Neighbor {
    /// A peer not yet connected, with an all-zero heartbeat.
    pub fn new() -> (r: Neighbor)
        ensures
            r.state matches NeighborState::Connecting,
            r.heartbeat == Heartbeat::new_spec(0, 0, 0),
    {
        Neighbor { state: NeighborState::Connecting, heartbeat: Heartbeat::new(0, 0, 0) }
    }

    /// Moves the connection on by one event (see `neighbor_step`).
    pub fn on_event(&mut self, local: &Handshake, event: NeighborEvent) -> (r: NeighborAction)
        ensures
            final(self).heartbeat == old(self).heartbeat,
            steps_to(local, old(self).state, event, final(self).state, r),
    {
        let (s, a) = neighbor_step(local, self.state, event);
        self.state = s;
        a
    }
}
} // verus!
