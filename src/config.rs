use vstd::prelude::*;
use vstd::utf8::encode_utf8;

verus! {

pub const DEFAULT_MWM: u8 = 14;

pub const DEFAULT_COO_DEPTH: u8 = 25;

pub const DEFAULT_COO_PUBLIC_KEY: &'static str =
    "UDYXTZBE9GZGPM9SSQV9LTZNDLJIZMPUVVXYXFYVBLIEUHLSEWFTKZZLXYRHHWVQV9MNNX9KZC9D9UZWZ";

pub const DEFAULT_COO_SECURITY: u8 = 2;

pub const DEFAULT_TRANSACTION_WORKER_CACHE: usize = 10000;

pub const DEFAULT_RECEIVER_WORKER_BOUND: usize = 10000;

pub const DEFAULT_STATUS_INTERVAL: u64 = 10;

pub const DEFAULT_HANDSHAKE_WINDOW: u64 = 10;

/// Number of trytes of a coordinator public key (an address).
pub const ADDRESS_TRYTES: usize = 81;

/// The sponge that hashes the coordinator's milestone bundles.
#[derive(Clone, Copy, Debug, PartialEq, Eq, Structural)]
pub enum SpongeKind {
    Kerl,
    CurlP27,
    CurlP81,
}

pub open spec fn curl27_bytes() -> Seq<u8> {
    seq![99u8, 117u8, 114u8, 108u8, 50u8, 55u8]
}

pub open spec fn curl81_bytes() -> Seq<u8> {
    seq![99u8, 117u8, 114u8, 108u8, 56u8, 49u8]
}

/// The sponge that a configured name selects: "curl27", "curl81", and Kerl
/// for "kerl" and any other name.
pub open spec fn sponge_kind_of(name: Seq<u8>) -> SpongeKind {
    if name == curl27_bytes() {
        SpongeKind::CurlP27
    } else if name == curl81_bytes() {
        SpongeKind::CurlP81
    } else {
        SpongeKind::Kerl
    }
}

/// A tryte character: '9' or 'A' to 'Z'.
pub open spec fn is_tryte_byte(b: u8) -> bool {
    b == 57u8 || (65u8 <= b && b <= 90u8)
}

/// The bytes spell an address: 81 tryte characters.
pub open spec fn is_address_trytes(b: Seq<u8>) -> bool {
    b.len() == 81 && forall|i: int| 0 <= i < b.len() ==> is_tryte_byte(#[trigger] b[i])
}

fn bytes_eq(a: &[u8], b: &[u8]) -> (r: bool)
    ensures
        r == (a@ == b@),
{
    if a.len() != b.len() {
        return false;
    }
    let mut i: usize = 0;
    while i < a.len()
        invariant
            a@.len() == b@.len(),
            i <= a@.len(),
            forall|j: int| 0 <= j < i ==> a@[j] == b@[j],
        decreases a@.len() - i,
    {
        if a[i] != b[i] {
            return false;
        }
        i += 1;
    }
    assert(a@ =~= b@);
    true
}

fn parse_sponge_kind(name: &str) -> (r: SpongeKind)
    ensures
        r == sponge_kind_of(encode_utf8(name@)),
{
    let b = name.as_bytes();
    let curl27: [u8; 6] = [99u8, 117u8, 114u8, 108u8, 50u8, 55u8];
    let curl81: [u8; 6] = [99u8, 117u8, 114u8, 108u8, 56u8, 49u8];
    assert(curl27@ =~= curl27_bytes());
    assert(curl81@ =~= curl81_bytes());
    if bytes_eq(b, curl27.as_slice()) {
        SpongeKind::CurlP27
    } else if bytes_eq(b, curl81.as_slice()) {
        SpongeKind::CurlP81
    } else {
        SpongeKind::Kerl
    }
}

fn is_address(key: &str) -> (r: bool)
    ensures
        r == is_address_trytes(encode_utf8(key@)),
{
    let b = key.as_bytes();
    if b.len() != ADDRESS_TRYTES {
        return false;
    }
    let mut i: usize = 0;
    while i < b.len()
        invariant
            b@ == encode_utf8(key@),
            b@.len() == 81,
            i <= 81,
            forall|j: int| 0 <= j < i ==> is_tryte_byte(#[trigger] b@[j]),
        decreases 81 - i,
    {
        if !(b[i] == 57u8 || (65u8 <= b[i] && b[i] <= 90u8)) {
            return false;
        }
        i += 1;
    }
    true
}

/// Balanced value of a tryte character: '9' is 0, 'A' to 'M' are 1 to 13,
/// 'N' to 'Z' are -13 to -1.
pub open spec fn tryte_char_value(b: u8) -> int {
    if b == 57u8 {
        0
    } else if b <= 77u8 {
        b - 64
    } else {
        b - 91
    }
}

/// The lowest balanced trit of `v`, and what remains of `v` above it.
pub open spec fn low_trit(v: int) -> int {
    ((v + 13) % 3) - 1
}

pub open spec fn above_trit(v: int) -> int {
    (v - low_trit(v) + 15) / 3 - 5
}

/// The `j`-th balanced trit (least significant first) of a tryte value.
pub open spec fn tryte_trit(v: int, j: int) -> int {
    if j == 0 {
        low_trit(v)
    } else if j == 1 {
        low_trit(above_trit(v))
    } else {
        above_trit(above_trit(v))
    }
}

/// The `n`-th trit of an address spelled in tryte characters; 0 past its 243 trits.
pub open spec fn address_trit(key: Seq<u8>, n: int) -> int {
    if 0 <= n < 243 {
        tryte_trit(tryte_char_value(key[n / 3]), n % 3)
    } else {
        0
    }
}

/// The value of the `k`-th byte of the 5-trits-per-byte encoding.
pub open spec fn address_byte(key: Seq<u8>, k: int) -> int {
    address_trit(key, 5 * k) + 3 * address_trit(key, 5 * k + 1) + 9 * address_trit(key, 5 * k + 2) + 27
        * address_trit(key, 5 * k + 3) + 81 * address_trit(key, 5 * k + 4)
}

/// The 49 bytes that carry an address, five trits to a byte.
pub open spec fn address_bytes(key: Seq<u8>) -> Seq<u8> {
    Seq::new(49, |k: int| address_byte(key, k) as i8 as u8)
}

fn address_trit_exec(key: &[u8], n: usize) -> (r: i8)
    requires
        is_address_trytes(key@),
    ensures
        r == address_trit(key@, n as int),
        -1 <= r <= 1,
{
    if n >= 243 {
        return 0;
    }
    let b = key[n / 3];
    let v: i32 = if b == 57u8 {
        0
    } else if b <= 77u8 {
        b as i32 - 64
    } else {
        b as i32 - 91
    };
    let d0: i32 = (v + 13) % 3 - 1;
    let v1: i32 = (v - d0 + 15) / 3 - 5;
    let d1: i32 = (v1 + 13) % 3 - 1;
    let v2: i32 = (v1 - d1 + 15) / 3 - 5;
    let j = n % 3;
    proof {
        assert(is_tryte_byte(key@[(n / 3) as int]));
        assert(-13 <= v <= 13);
        assert(-5 <= v1 <= 5);
        assert(-2 <= v2 <= 2);
    }
    let r = if j == 0 {
        d0
    } else if j == 1 {
        d1
    } else {
        v2
    };
    assert(-1 <= r <= 1) by {
        assert(-13 <= v <= 13);
        assert(v == (v1 + 5) * 3 - 15 + d0) by (nonlinear_arith)
            requires v1 == (v - d0 + 15) / 3 - 5, (v - d0 + 15) % 3 == 0, d0 == (v + 13) % 3 - 1;
    }
    r as i8
}

fn address_byte_exec(key: &[u8], k: usize) -> (r: i32)
    requires
        is_address_trytes(key@),
        k < 49,
    ensures
        r == address_byte(key@, k as int),
{
    let t0 = address_trit_exec(key, 5 * k) as i32;
    let t1 = address_trit_exec(key, 5 * k + 1) as i32;
    let t2 = address_trit_exec(key, 5 * k + 2) as i32;
    let t3 = address_trit_exec(key, 5 * k + 3) as i32;
    let t4 = address_trit_exec(key, 5 * k + 4) as i32;
    t0 + 3 * t1 + 9 * t2 + 27 * t3 + 81 * t4
}

/// Encodes an address, given as 81 tryte characters, five trits to a byte.
pub fn address_to_bytes(key: &[u8]) -> (r: [u8; 49])
    requires
        is_address_trytes(key@),
    ensures
        r@ == address_bytes(key@),
{
    let mut out = [0u8; 49];
    let mut k: usize = 0;
    while k < 49
        invariant
            is_address_trytes(key@),
            k <= 49,
            forall|j: int| 0 <= j < k ==> #[trigger] out@[j] == address_byte(key@, j) as i8 as u8,
        decreases 49 - k,
    {
        let v = address_byte_exec(key, k);
        out[k] = v as i8 as u8;
        k += 1;
    }
    assert(out@ =~= address_bytes(key@));
    out
}

pub struct ProtocolCoordinatorConfigBuilder {
    pub depth: Option<u8>,
    pub public_key: Option<String>,
    pub security_level: Option<u8>,
    pub sponge_type: Option<String>,
}

pub struct ProtocolWorkersConfigBuilder {
    pub transaction_worker_cache: Option<usize>,
    pub receiver_worker_bound: Option<usize>,
    pub status_interval: Option<u64>,
}

/// Protocol settings, each one optional until `finish` fills in the defaults.
pub struct ProtocolConfigBuilder {
    pub mwm: Option<u8>,
    pub coordinator: ProtocolCoordinatorConfigBuilder,
    pub workers: ProtocolWorkersConfigBuilder,
    pub handshake_window: Option<u64>,
}

pub struct ProtocolCoordinatorConfig {
    pub depth: u8,
    /// The coordinator's address, as 81 trytes.
    pub public_key: String,
    /// The same address, five trits to a byte.
    pub public_key_bytes: [u8; 49],
    pub security_level: u8,
    pub sponge_type: SpongeKind,
}

pub struct ProtocolWorkersConfig {
    pub transaction_worker_cache: usize,
    pub receiver_worker_bound: usize,
    pub status_interval: u64,
}

pub struct ProtocolConfig {
    pub mwm: u8,
    pub coordinator: ProtocolCoordinatorConfig,
    pub workers: ProtocolWorkersConfig,
    pub handshake_window: u64,
}

impl ProtocolConfigBuilder {
    /// A builder with nothing set.
    pub fn new() -> (r: ProtocolConfigBuilder)
        ensures
            r.mwm is None,
            r.coordinator.depth is None,
            r.coordinator.public_key is None,
            r.coordinator.security_level is None,
            r.coordinator.sponge_type is None,
            r.workers.transaction_worker_cache is None,
            r.workers.receiver_worker_bound is None,
            r.workers.status_interval is None,
            r.handshake_window is None,
    {
        ProtocolConfigBuilder {
            mwm: None,
            coordinator: ProtocolCoordinatorConfigBuilder {
                depth: None,
                public_key: None,
                security_level: None,
                sponge_type: None,
            },
            workers: ProtocolWorkersConfigBuilder {
                transaction_worker_cache: None,
                receiver_worker_bound: None,
                status_interval: None,
            },
            handshake_window: None,
        }
    }

    pub fn mwm(self, mwm: u8) -> (r: ProtocolConfigBuilder)
        ensures
            r == (ProtocolConfigBuilder { mwm: Some(mwm), ..self }),
    {
        let mut b = self;
        b.mwm = Some(mwm);
        b
    }

    pub fn coo_depth(self, coo_depth: u8) -> (r: ProtocolConfigBuilder)
        ensures
            r == (ProtocolConfigBuilder {
                coordinator: ProtocolCoordinatorConfigBuilder { depth: Some(coo_depth), ..self.coordinator },
                ..self
            }),
    {
        let mut b = self;
        b.coordinator.depth = Some(coo_depth);
        b
    }

    pub fn coo_public_key(self, coo_public_key: String) -> (r: ProtocolConfigBuilder)
        ensures
            r == (ProtocolConfigBuilder {
                coordinator: ProtocolCoordinatorConfigBuilder {
                    public_key: Some(coo_public_key),
                    ..self.coordinator
                },
                ..self
            }),
    {
        let mut b = self;
        b.coordinator.public_key = Some(coo_public_key);
        b
    }

    pub fn coo_security_level(self, coo_security_level: u8) -> (r: ProtocolConfigBuilder)
        ensures
            r == (ProtocolConfigBuilder {
                coordinator: ProtocolCoordinatorConfigBuilder {
                    security_level: Some(coo_security_level),
                    ..self.coordinator
                },
                ..self
            }),
    {
        let mut b = self;
        b.coordinator.security_level = Some(coo_security_level);
        b
    }

    pub fn coo_sponge_type(self, coo_sponge_type: &str) -> (r: ProtocolConfigBuilder)
        ensures
            r.coordinator.sponge_type matches Some(s) && s@ == coo_sponge_type@,
            r.coordinator.depth == self.coordinator.depth,
            r.coordinator.public_key == self.coordinator.public_key,
            r.coordinator.security_level == self.coordinator.security_level,
            r.mwm == self.mwm,
            r.workers == self.workers,
            r.handshake_window == self.handshake_window,
    {
        let mut b = self;
        b.coordinator.sponge_type = Some(coo_sponge_type.to_owned());
        b
    }

    pub fn transaction_worker_cache(self, transaction_worker_cache: usize) -> (r: ProtocolConfigBuilder)
        ensures
            r == (ProtocolConfigBuilder {
                workers: ProtocolWorkersConfigBuilder {
                    transaction_worker_cache: Some(transaction_worker_cache),
                    ..self.workers
                },
                ..self
            }),
    {
        let mut b = self;
        b.workers.transaction_worker_cache = Some(transaction_worker_cache);
        b
    }

    pub fn receiver_worker_bound(self, receiver_worker_bound: usize) -> (r: ProtocolConfigBuilder)
        ensures
            r == (ProtocolConfigBuilder {
                workers: ProtocolWorkersConfigBuilder {
                    receiver_worker_bound: Some(receiver_worker_bound),
                    ..self.workers
                },
                ..self
            }),
    {
        let mut b = self;
        b.workers.receiver_worker_bound = Some(receiver_worker_bound);
        b
    }

    pub fn status_interval(self, status_interval: u64) -> (r: ProtocolConfigBuilder)
        ensures
            r == (ProtocolConfigBuilder {
                workers: ProtocolWorkersConfigBuilder { status_interval: Some(status_interval), ..self.workers },
                ..self
            }),
    {
        let mut b = self;
        b.workers.status_interval = Some(status_interval);
        b
    }

    pub fn handshake_window(self, handshake_window: u64) -> (r: ProtocolConfigBuilder)
        ensures
            r == (ProtocolConfigBuilder { handshake_window: Some(handshake_window), ..self }),
    {
        let mut b = self;
        b.handshake_window = Some(handshake_window);
        b
    }

    /// The configuration: each unset value takes its default; an unknown
    /// sponge name selects Kerl, and a public key that is not 81 trytes is
    /// replaced by the default key.
    pub fn finish(self) -> (r: ProtocolConfig)
        ensures
            r.mwm == opt_or(self.mwm, DEFAULT_MWM),
            r.coordinator.depth == opt_or(self.coordinator.depth, DEFAULT_COO_DEPTH),
            r.coordinator.security_level == opt_or(self.coordinator.security_level, DEFAULT_COO_SECURITY),
            r.coordinator.sponge_type == match self.coordinator.sponge_type {
                Some(s) => sponge_kind_of(encode_utf8(s@)),
                None => SpongeKind::Kerl,
            },
            r.coordinator.public_key@ == match self.coordinator.public_key {
                Some(k) => if is_address_trytes(encode_utf8(k@)) {
                    k@
                } else {
                    DEFAULT_COO_PUBLIC_KEY@
                },
                None => DEFAULT_COO_PUBLIC_KEY@,
            },
            is_address_trytes(encode_utf8(r.coordinator.public_key@)) ==> r.coordinator.public_key_bytes@ == address_bytes(
                encode_utf8(r.coordinator.public_key@),
            ),
            r.workers.transaction_worker_cache == opt_or(
                self.workers.transaction_worker_cache,
                DEFAULT_TRANSACTION_WORKER_CACHE,
            ),
            r.workers.receiver_worker_bound == opt_or(
                self.workers.receiver_worker_bound,
                DEFAULT_RECEIVER_WORKER_BOUND,
            ),
            r.workers.status_interval == opt_or(self.workers.status_interval, DEFAULT_STATUS_INTERVAL),
            r.handshake_window == opt_or(self.handshake_window, DEFAULT_HANDSHAKE_WINDOW),
    {
        let sponge_type = match &self.coordinator.sponge_type {
            Some(s) => parse_sponge_kind(s.as_str()),
            None => SpongeKind::Kerl,
        };
        let public_key = match self.coordinator.public_key {
            Some(k) => if is_address(k.as_str()) {
                k
            } else {
                DEFAULT_COO_PUBLIC_KEY.to_owned()
            },
            None => DEFAULT_COO_PUBLIC_KEY.to_owned(),
        };
        let public_key_bytes = if is_address(public_key.as_str()) {
            address_to_bytes(public_key.as_str().as_bytes())
        } else {
            [0u8; 49]
        };
        ProtocolConfig {
            mwm: unwrap_or(self.mwm, DEFAULT_MWM),
            coordinator: ProtocolCoordinatorConfig {
                depth: unwrap_or(self.coordinator.depth, DEFAULT_COO_DEPTH),
                public_key,
                public_key_bytes,
                security_level: unwrap_or(self.coordinator.security_level, DEFAULT_COO_SECURITY),
                sponge_type,
            },
            workers: ProtocolWorkersConfig {
                transaction_worker_cache: unwrap_or(
                    self.workers.transaction_worker_cache,
                    DEFAULT_TRANSACTION_WORKER_CACHE,
                ),
                receiver_worker_bound: unwrap_or(
                    self.workers.receiver_worker_bound,
                    DEFAULT_RECEIVER_WORKER_BOUND,
                ),
                status_interval: unwrap_or(self.workers.status_interval, DEFAULT_STATUS_INTERVAL),
            },
            handshake_window: unwrap_or(self.handshake_window, DEFAULT_HANDSHAKE_WINDOW),
        }
    }
}

/// The value held, or the default.
pub open spec fn opt_or<T>(o: Option<T>, d: T) -> T {
    match o {
        Some(v) => v,
        None => d,
    }
}

fn unwrap_or<T>(o: Option<T>, d: T) -> (r: T)
    ensures
        r == opt_or(o, d),
{
    match o {
        Some(v) => v,
        None => d,
    }
}

impl ProtocolCoordinatorConfig {
    pub fn depth(&self) -> (r: u8)
        ensures
            r == self.depth,
    {
        self.depth
    }
}

impl ProtocolConfig {
    /// A builder with nothing set.
    pub fn build() -> (r: ProtocolConfigBuilder)
        ensures
            r.mwm is None,
            r.coordinator.depth is None,
            r.coordinator.public_key is None,
            r.coordinator.security_level is None,
            r.coordinator.sponge_type is None,
            r.workers.transaction_worker_cache is None,
            r.workers.receiver_worker_bound is None,
            r.workers.status_interval is None,
            r.handshake_window is None,
    {
        ProtocolConfigBuilder::new()
    }

    pub fn coordinator(&self) -> (r: &ProtocolCoordinatorConfig)
        ensures
            *r == self.coordinator,
    {
        &self.coordinator
    }
}

} // verus!
