//! The scan itself: which addresses are asked, in what rhythm the requests
//! go out, and for how long replies are listened for.
//!
//! Sending and listening are each a small machine that is told what has
//! happened and says what to do next; whoever owns the link does the
//! sending, the sleeping and the reading.

use vstd::arithmetic::power2::{lemma2_to64, lemma_pow2_strictly_increases, lemma_pow2_unfold, pow2};
use vstd::prelude::*;

use crate::address::{HardwareAddress, NetworkAddress};
use crate::frame::{decode, decoded, encode, request_frame};
use crate::registry::{has_address, offered, DiscoveredHost, HostRegistry};

verus! {

/// The number of requests that go out in one batch.
pub const BATCH_SIZE: u64 = 32;

/// The pause behind every batch, in microseconds.
pub const BATCH_PAUSE_MICROS: u64 = 100;

/// What can keep a scan from starting.
#[derive(Clone, Copy, Debug, PartialEq, Eq, Structural)]
pub enum SetupError {
    /// No interface has the local address.
    NoInterface,
    /// The interface has no network that holds the local address, and no
    /// range was given.
    NoNetwork,
    /// A range is not written as a network, or its prefix is longer than
    /// 32 bits.
    InvalidRange,
    /// An address or a range is not of IPv4.
    NotIpv4,
    /// The mapping file is to be updated, but labels are not looked up.
    InvalidOptions,
}

/// How long a scan waits for replies.
#[derive(Clone, Copy, Debug, PartialEq, Eq, Structural)]
pub enum TimingMode {
    Normal,
    Fast,
}

impl TimingMode {
    /// The time during which replies are listened for, in milliseconds.
    pub open spec fn window(self) -> int {
        match self {
            TimingMode::Normal => 2000,
            TimingMode::Fast => 500,
        }
    }

    /// The longest that one read waits, in milliseconds.
    pub open spec fn read_timeout(self) -> int {
        match self {
            TimingMode::Normal => 10,
            TimingMode::Fast => 5,
        }
    }

    /// The number of reads that follow the window, for replies that come
    /// just behind it.
    pub open spec fn sweep_reads(self) -> int {
        match self {
            TimingMode::Normal => 10,
            TimingMode::Fast => 5,
        }
    }

    /// The time during which replies are listened for, in milliseconds.
    pub fn window_millis(self) -> (r: u64)
        ensures
            r == self.window(),
    {
        match self {
            TimingMode::Normal => 2000,
            TimingMode::Fast => 500,
        }
    }

    /// The longest that one read waits, in milliseconds.
    pub fn read_timeout_millis(self) -> (r: u64)
        ensures
            r == self.read_timeout(),
    {
        match self {
            TimingMode::Normal => 10,
            TimingMode::Fast => 5,
        }
    }

    /// The number of reads that follow the window.
    pub fn sweep_count(self) -> (r: u32)
        ensures
            r == self.sweep_reads(),
    {
        match self {
            TimingMode::Normal => 10,
            TimingMode::Fast => 5,
        }
    }
}

/// A block of addresses: all that share the first `prefix` bits of `base`.
#[derive(Clone, Copy, Debug, PartialEq, Eq, Structural)]
pub struct AddressRange {
    pub base: NetworkAddress,
    pub prefix: u8,
}

impl AddressRange {
    /// A prefix has 32 bits at most.
    pub open spec fn wf(self) -> bool {
        self.prefix <= 32
    }

    /// The number of addresses in the block.
    pub open spec fn size(self) -> int {
        pow2((32 - self.prefix) as nat) as int
    }

    /// The lowest address of the block, as a number.
    pub open spec fn first(self) -> int {
        self.base.value as int - (self.base.value as int) % self.size()
    }

    /// The highest address of the block, as a number.
    pub open spec fn last(self) -> int {
        self.first() + self.size() - 1
    }

    /// The address at place `i` of the block, counted from 0.
    pub open spec fn address(self, i: int) -> NetworkAddress {
        NetworkAddress { value: (self.first() + i) as u32 }
    }

    /// Whether `a` is an address of the block.
    pub open spec fn contains(self, a: NetworkAddress) -> bool {
        self.first() <= a.value <= self.last()
    }

    /// The block of `base` with the given length of prefix.
    pub fn new(base: NetworkAddress, prefix: u8) -> (r: Result<AddressRange, SetupError>)
        ensures
            match r {
                Ok(range) => prefix <= 32 && range == (AddressRange { base, prefix }),
                Err(e) => prefix > 32 && e == SetupError::InvalidRange,
            },
    {
        if prefix > 32 {
            Err(SetupError::InvalidRange)
        } else {
            Ok(AddressRange { base, prefix })
        }
    }

    /// The number of addresses in the block.
    pub fn count(&self) -> (n: u64)
        requires
            self.wf(),
        ensures
            n == self.size(),
            1 <= n <= 0x1_0000_0000,
    {
        let bits: u8 = 32 - self.prefix;
        let mut n: u64 = 1;
        let mut i: u8 = 0;
        proof {
            lemma2_to64();
        }
        while i < bits
            invariant
                i <= bits <= 32,
                n == pow2(i as nat),
                1 <= n <= 0x1_0000_0000,
            decreases bits - i,
        {
            proof {
                lemma_pow2_unfold((i + 1) as nat);
                lemma2_to64();
                if i + 1 < 32 {
                    lemma_pow2_strictly_increases((i + 1) as nat, 32);
                }
            }
            n = n * 2;
            i = i + 1;
        }
        n
    }

    /// The lowest and the highest address of the block.
    pub fn bounds(&self) -> (r: (NetworkAddress, NetworkAddress))
        requires
            self.wf(),
        ensures
            r.0.value == self.first(),
            r.1.value == self.last(),
            r.0 == self.address(0),
            r.1 == self.address(self.size() - 1),
    {
        let n = self.count();
        let v: u64 = self.base.value as u64;
        proof {
            lemma_block_fits(v as int, (32 - self.prefix) as nat);
        }
        let first: u64 = v - v % n;
        let last: u64 = first + n - 1;
        (NetworkAddress { value: first as u32 }, NetworkAddress { value: last as u32 })
    }
}

/// What `IpNetwork::from_str` of the crate `ipnetwork` makes of a text: for
/// an IPv4 network the address as a number and the length of the prefix;
/// `Err(true)` for an IPv6 network; `Err(false)` for a text that it refuses.
pub uninterp spec fn network_of_text(s: Seq<char>) -> Result<(u32, u8), bool>;

/// `IpNetwork::from_str` of the crate `ipnetwork`, which reads a network
/// in the forms `ADDRESS`, `ADDRESS/PREFIX` and `ADDRESS/NETMASK`. Believed
/// of it: what it returns depends on the characters of `text` alone.
/// Nothing is claimed of which texts it takes.
#[verifier::external_body]
fn parse_network(text: &str) -> (r: Result<(u32, u8), bool>)
    ensures
        r == network_of_text(text@),
{
    match text.parse::<ipnetwork::IpNetwork>() {
        Ok(ipnetwork::IpNetwork::V4(n)) => Ok((u32::from(n.ip()), n.prefix())),
        Ok(ipnetwork::IpNetwork::V6(_)) => Err(true),
        Err(_) => Err(false),
    }
}

/// The range that a parsed network names: an IPv4 network with a prefix of
/// 32 bits at most is that range, with the address as it was written.
pub open spec fn range_named(parsed: Result<(u32, u8), bool>) -> Result<AddressRange, SetupError> {
    match parsed {
        Ok((value, prefix)) => if prefix <= 32 {
            Ok(AddressRange { base: NetworkAddress { value }, prefix })
        } else {
            Err(SetupError::InvalidRange)
        },
        Err(other_family) => if other_family {
            Err(SetupError::NotIpv4)
        } else {
            Err(SetupError::InvalidRange)
        },
    }
}

/// The range that a parsed network names.
pub fn range_of_network(parsed: Result<(u32, u8), bool>) -> (r: Result<AddressRange, SetupError>)
    ensures
        r == range_named(parsed),
{
    match parsed {
        Ok((value, prefix)) => AddressRange::new(NetworkAddress { value }, prefix),
        Err(other_family) => if other_family {
            Err(SetupError::NotIpv4)
        } else {
            Err(SetupError::InvalidRange)
        },
    }
}

/// Reads the range that the user has given.
pub fn parse_range(text: &str) -> (r: Result<AddressRange, SetupError>)
    ensures
        r == range_named(network_of_text(text@)),
{
    range_of_network(parse_network(text))
}

/// A block of `2^bits` addresses that begins at a multiple of its size ends
/// below `2^32`.
proof fn lemma_block_fits(v: int, bits: nat)
    requires
        0 <= v < 0x1_0000_0000,
        bits <= 32,
    ensures
        0 <= v - v % (pow2(bits) as int),
        v - v % (pow2(bits) as int) + pow2(bits) <= 0x1_0000_0000,
{
    let n = pow2(bits) as int;
    let m = pow2((32 - bits) as nat) as int;
    vstd::arithmetic::power2::lemma_pow2_pos(bits);
    vstd::arithmetic::power2::lemma_pow2_adds(bits, (32 - bits) as nat);
    lemma2_to64();
    assert(n * m == 0x1_0000_0000);
    let q = v / n;
    vstd::arithmetic::div_mod::lemma_fundamental_div_mod(v, n);
    assert(v - v % n == n * q);
    assert(0 <= v % n < n) by {
        vstd::arithmetic::div_mod::lemma_mod_bound(v, n);
    }
    assert(q < m) by (nonlinear_arith)
        requires
            n * q <= v,
            v < n * m,
            n > 0,
    ;
    assert(n * q + n <= n * m) by (nonlinear_arith)
        requires
            q < m,
            n > 0,
    ;
}

/// What is known of a network interface: its hardware address, and the
/// addresses assigned to it, each with its prefix.
#[derive(Clone, Debug, PartialEq, Eq)]
pub struct Interface {
    pub hardware: HardwareAddress,
    pub addresses: Vec<AddressRange>,
}

/// Whether `a` is one of the assigned addresses.
pub open spec fn is_assigned(addresses: Seq<AddressRange>, a: NetworkAddress) -> bool {
    exists|i: int| 0 <= i < addresses.len() && (#[trigger] addresses[i]).base == a
}

/// The first of the assigned addresses that is `local`, with its prefix.
pub open spec fn assigned_range(addresses: Seq<AddressRange>, local: NetworkAddress) -> Option<
    AddressRange,
>
    decreases addresses.len(),
{
    if addresses.len() == 0 {
        None
    } else if addresses[0].base == local {
        Some(addresses[0])
    } else {
        assigned_range(addresses.drop_first(), local)
    }
}

/// An address is assigned where it has a network, and only there.
pub proof fn lemma_assigned_range(addresses: Seq<AddressRange>, local: NetworkAddress)
    ensures
        assigned_range(addresses, local) is Some <==> is_assigned(addresses, local),
        assigned_range(addresses, local) matches Some(r) ==> r.base == local && addresses.contains(r),
    decreases addresses.len(),
{
    if addresses.len() > 0 {
        let rest = addresses.drop_first();
        lemma_assigned_range(rest, local);
        if addresses[0].base == local {
            assert(addresses[0] == addresses[0]);
        } else {
            if is_assigned(rest, local) {
                let i = choose|i: int| 0 <= i < rest.len() && (#[trigger] rest[i]).base == local;
                assert(addresses[i + 1] == rest[i]);
            }
            if is_assigned(addresses, local) {
                let i = choose|i: int|
                    0 <= i < addresses.len() && (#[trigger] addresses[i]).base == local;
                assert(rest[i - 1] == addresses[i]);
            }
            if assigned_range(rest, local) is Some {
                let r = assigned_range(rest, local)->0;
                let i = choose|i: int| 0 <= i < rest.len() && rest[i] == r;
                assert(addresses[i + 1] == r);
            }
        }
    }
}

/// The first of the assigned addresses that is `local`, with its prefix.
fn assigned_network(addresses: &Vec<AddressRange>, local: NetworkAddress) -> (r: Option<
    AddressRange,
>)
    ensures
        r == assigned_range(addresses@, local),
{
    let mut i: usize = 0;
    assert(addresses@.subrange(0, addresses@.len() as int) == addresses@);
    while i < addresses.len()
        invariant
            i <= addresses.len(),
            assigned_range(addresses@, local) == assigned_range(
                addresses@.subrange(i as int, addresses@.len() as int),
                local,
            ),
        decreases addresses.len() - i,
    {
        let ghost rest = addresses@.subrange(i as int, addresses@.len() as int);
        assert(rest[0] == addresses@[i as int]);
        assert(rest.drop_first() == addresses@.subrange(i + 1, addresses@.len() as int));
        if addresses[i].base.value == local.value {
            return Some(addresses[i]);
        }
        i = i + 1;
    }
    None
}

/// The interface to scan through: the first that has the local address
/// assigned.
pub fn select_interface(interfaces: &Vec<Interface>, local: NetworkAddress) -> (r: Result<
    usize,
    SetupError,
>)
    ensures
        match r {
            Ok(i) => i < interfaces@.len() && is_assigned(interfaces@[i as int].addresses@, local)
                && forall|j: int|
                0 <= j < i ==> !is_assigned((#[trigger] interfaces@[j]).addresses@, local),
            Err(e) => e == SetupError::NoInterface && forall|j: int|
                0 <= j < interfaces@.len() ==> !is_assigned(
                    (#[trigger] interfaces@[j]).addresses@,
                    local,
                ),
        },
{
    let mut i: usize = 0;
    while i < interfaces.len()
        invariant
            i <= interfaces.len(),
            forall|j: int|
                0 <= j < i ==> !is_assigned((#[trigger] interfaces@[j]).addresses@, local),
        decreases interfaces.len() - i,
    {
        proof {
            lemma_assigned_range(interfaces@[i as int].addresses@, local);
        }
        if assigned_network(&interfaces[i].addresses, local).is_some() {
            return Ok(i);
        }
        i = i + 1;
    }
    Err(SetupError::NoInterface)
}

/// The range to scan: the range that was given, as it is; without one, the
/// network of the interface that the local address is assigned in.
pub open spec fn resolved_range(
    given: Option<AddressRange>,
    addresses: Seq<AddressRange>,
    local: NetworkAddress,
) -> Result<AddressRange, SetupError> {
    match given {
        Some(g) => Ok(g),
        None => match assigned_range(addresses, local) {
            Some(r) => Ok(r),
            None => Err(SetupError::NoNetwork),
        },
    }
}

/// Resolves the range to scan.
pub fn resolve_range(
    given: Option<AddressRange>,
    interface: &Interface,
    local: NetworkAddress,
) -> (r: Result<AddressRange, SetupError>)
    ensures
        r == resolved_range(given, interface.addresses@, local),
{
    match given {
        Some(g) => Ok(g),
        None => match assigned_network(&interface.addresses, local) {
            Some(range) => Ok(range),
            None => Err(SetupError::NoNetwork),
        },
    }
}

/// What the sender does next.
#[derive(Clone, Copy, Debug, PartialEq, Eq)]
pub enum SendAction {
    /// Put this frame on the link.
    Send([u8; 42]),
    /// Hold for so many microseconds.
    Pause(u64),
    /// Nothing is left to send.
    Done,
}

/// What the sender does next, as mathematical data.
pub enum SendStep {
    Send(Seq<u8>),
    Pause(int),
    Done,
}

impl View for SendAction {
    type V = SendStep;

    open spec fn view(&self) -> SendStep {
        match self {
            SendAction::Send(f) => SendStep::Send(f@),
            SendAction::Pause(t) => SendStep::Pause(*t as int),
            SendAction::Done => SendStep::Done,
        }
    }
}

/// The state of the sender: who asks, the block that is asked for, how many
/// of its addresses have been asked for, and whether the pause behind the
/// last of them has been taken.
pub struct Sending {
    pub source_hardware: HardwareAddress,
    pub source: NetworkAddress,
    pub first: int,
    pub total: int,
    pub sent: int,
    pub paused: bool,
}

impl Sending {
    /// The block lies within the address space, and no more is sent than
    /// it has addresses.
    pub open spec fn wf(self) -> bool {
        &&& 0 <= self.first
        &&& 1 <= self.total
        &&& self.first + self.total <= 0x1_0000_0000
        &&& 0 <= self.sent <= self.total
    }

    /// The request for the address at place `i` of the block.
    pub open spec fn request(self, i: int) -> Seq<u8> {
        request_frame(
            self.source_hardware,
            self.source,
            NetworkAddress { value: (self.first + i) as u32 },
        )
    }

    /// A pause is due behind every full batch, and behind the last request.
    pub open spec fn pause_due(self) -> bool {
        !self.paused && self.sent > 0 && (self.sent % 32 == 0 || self.sent == self.total)
    }

    /// What is done in this state.
    pub open spec fn step(self) -> SendStep {
        if self.pause_due() {
            SendStep::Pause(100)
        } else if self.sent < self.total {
            SendStep::Send(self.request(self.sent))
        } else {
            SendStep::Done
        }
    }

    /// The state after that.
    pub open spec fn after(self) -> Sending {
        if self.pause_due() {
            Sending { paused: true, ..self }
        } else if self.sent < self.total {
            Sending { sent: self.sent + 1, paused: false, ..self }
        } else {
            self
        }
    }

    /// The state at the beginning, for the given block.
    pub open spec fn start(
        source_hardware: HardwareAddress,
        source: NetworkAddress,
        range: AddressRange,
    ) -> Sending {
        Sending {
            source_hardware,
            source,
            first: range.first(),
            total: range.size(),
            sent: 0,
            paused: false,
        }
    }

    /// The frames that are sent from this state on, in their order.
    pub open spec fn frames(self) -> Seq<Seq<u8>>
        decreases 2 * (self.total - self.sent) + (if self.paused { 0int } else { 1int }),
    {
        if !self.wf() {
            Seq::empty()
        } else {
            match self.step() {
                SendStep::Send(f) => seq![f] + self.after().frames(),
                SendStep::Pause(_) => self.after().frames(),
                SendStep::Done => Seq::empty(),
            }
        }
    }
}

impl Sending {
    /// The number of pauses that are taken from this state on.
    pub open spec fn pauses(self) -> int
        decreases 2 * (self.total - self.sent) + (if self.paused { 0int } else { 1int }),
    {
        if !self.wf() {
            0
        } else {
            match self.step() {
                SendStep::Send(_) => self.after().pauses(),
                SendStep::Pause(_) => 1 + self.after().pauses(),
                SendStep::Done => 0,
            }
        }
    }

    /// The number of pauses that lie behind requests still to be sent.
    pub open spec fn pauses_ahead(self) -> int {
        if self.sent < self.total {
            (self.total + 31) / 32 - self.sent / 32
        } else {
            0
        }
    }
}

/// From any state on there is one pause for every batch that is not yet
/// full or not yet sent, and one more where a pause is due.
pub proof fn lemma_pauses_left(s: Sending)
    requires
        s.wf(),
    ensures
        s.pauses() == s.pauses_ahead() + (if s.pause_due() { 1int } else { 0int }),
    decreases 2 * (s.total - s.sent) + (if s.paused { 0int } else { 1int }),
{
    if s.pause_due() {
        lemma_pauses_left(s.after());
    } else if s.sent < s.total {
        lemma_pauses_left(s.after());
    }
}

/// A scan pauses once behind every batch of 32 requests, the last batch
/// included, however few requests it holds.
pub proof fn lemma_one_pause_per_batch(
    source_hardware: HardwareAddress,
    source: NetworkAddress,
    range: AddressRange,
)
    requires
        range.wf(),
    ensures
        Sending::start(source_hardware, source, range).pauses() == (range.size() + 31) / 32,
{
    let s = Sending::start(source_hardware, source, range);
    lemma_block_fits(range.base.value as int, (32 - range.prefix) as nat);
    vstd::arithmetic::power2::lemma_pow2_pos((32 - range.prefix) as nat);
    lemma_pauses_left(s);
}

/// From any state on, the addresses that are left are asked for in
/// ascending order, each once.
pub proof fn lemma_frames_left(s: Sending)
    requires
        s.wf(),
    ensures
        s.frames() == Seq::new((s.total - s.sent) as nat, |i: int| s.request(s.sent + i)),
    decreases 2 * (s.total - s.sent) + (if s.paused { 0int } else { 1int }),
{
    let want = Seq::new((s.total - s.sent) as nat, |i: int| s.request(s.sent + i));
    if s.pause_due() {
        lemma_frames_left(s.after());
        assert(s.frames() =~= want);
    } else if s.sent < s.total {
        lemma_frames_left(s.after());
        let rest = Seq::new(
            (s.total - s.sent - 1) as nat,
            |i: int| s.after().request(s.sent + 1 + i),
        );
        assert(s.after().frames() == rest);
        assert(seq![s.request(s.sent)] + rest =~= want);
    } else {
        assert(s.frames() =~= want);
    }
}

/// A scan asks for every address of its range once: the frames that go
/// out are as many as the range has addresses, and the frame at place `i`
/// is the request for the address at place `i`, the lowest and the highest
/// address of the range included.
pub proof fn lemma_every_address_once(
    source_hardware: HardwareAddress,
    source: NetworkAddress,
    range: AddressRange,
)
    requires
        range.wf(),
    ensures
        Sending::start(source_hardware, source, range).frames() == Seq::new(
            range.size() as nat,
            |i: int| request_frame(source_hardware, source, range.address(i)),
        ),
{
    let s = Sending::start(source_hardware, source, range);
    lemma_block_fits(range.base.value as int, (32 - range.prefix) as nat);
    vstd::arithmetic::power2::lemma_pow2_pos((32 - range.prefix) as nat);
    lemma_frames_left(s);
    assert(s.frames() =~= Seq::new(
        range.size() as nat,
        |i: int| request_frame(source_hardware, source, range.address(i)),
    ));
}

/// The sender of a scan.
pub struct Transmission {
    source_hardware: HardwareAddress,
    source: NetworkAddress,
    first: u32,
    total: u64,
    sent: u64,
    paused: bool,
}

impl Transmission {
    /// The state of the sender.
    pub closed spec fn view(&self) -> Sending {
        Sending {
            source_hardware: self.source_hardware,
            source: self.source,
            first: self.first as int,
            total: self.total as int,
            sent: self.sent as int,
            paused: self.paused,
        }
    }

    /// The sender at the beginning of a scan of `range`.
    pub fn start(source_hardware: HardwareAddress, source: NetworkAddress, range: AddressRange) -> (r:
        Transmission)
        requires
            range.wf(),
        ensures
            r@ == Sending::start(source_hardware, source, range),
            r@.wf(),
    {
        let total = range.count();
        let (first, _last) = range.bounds();
        Transmission { source_hardware, source, first: first.value, total, sent: 0, paused: false }
    }

    /// The number of requests that have been handed out.
    pub fn sent(&self) -> (n: u64)
        ensures
            n == self@.sent,
    {
        self.sent
    }

    /// The number of addresses of the range.
    pub fn total(&self) -> (n: u64)
        ensures
            n == self@.total,
    {
        self.total
    }

    /// What to do next. A frame that is handed out counts as sent.
    pub fn next(&mut self) -> (action: SendAction)
        requires
            old(self)@.wf(),
        ensures
            final(self)@.wf(),
            action@ == old(self)@.step(),
            final(self)@ == old(self)@.after(),
    {
        if !self.paused && self.sent > 0 && (self.sent % BATCH_SIZE == 0 || self.sent
            == self.total) {
            self.paused = true;
            SendAction::Pause(BATCH_PAUSE_MICROS)
        } else if self.sent < self.total {
            let target = NetworkAddress { value: (self.first as u64 + self.sent) as u32 };
            let frame = encode(self.source_hardware, self.source, target);
            self.sent = self.sent + 1;
            self.paused = false;
            SendAction::Send(frame)
        } else {
            SendAction::Done
        }
    }
}

/// The state of the listener: whether the window is over, and how many
/// reads are left behind it.
pub struct Listening {
    pub mode: TimingMode,
    pub sweeping: bool,
    pub sweeps_left: int,
}

impl Listening {
    /// The state at the beginning of the window.
    pub open spec fn start(mode: TimingMode) -> Listening {
        Listening { mode, sweeping: false, sweeps_left: mode.sweep_reads() }
    }

    /// Whether the window is still open, `elapsed` milliseconds after the
    /// listener began.
    pub open spec fn in_window(self, elapsed: int) -> bool {
        !self.sweeping && elapsed < self.mode.window()
    }

    /// Whether one more read is made.
    pub open spec fn reads(self, elapsed: int) -> bool {
        self.in_window(elapsed) || self.sweeps_left > 0
    }

    /// The state after the read, or after the end.
    pub open spec fn after(self, elapsed: int) -> Listening {
        if self.in_window(elapsed) {
            self
        } else {
            Listening {
                sweeping: true,
                sweeps_left: if self.sweeps_left > 0 {
                    self.sweeps_left - 1
                } else {
                    0
                },
                ..self
            }
        }
    }
}

/// The listener of a scan.
pub struct Listener {
    mode: TimingMode,
    sweeping: bool,
    sweeps_left: u32,
}

impl Listener {
    /// The state of the listener.
    pub closed spec fn view(&self) -> Listening {
        Listening {
            mode: self.mode,
            sweeping: self.sweeping,
            sweeps_left: self.sweeps_left as int,
        }
    }

    /// The listener at the beginning of its window.
    pub fn start(mode: TimingMode) -> (r: Listener)
        ensures
            r@ == Listening::start(mode),
    {
        Listener { mode, sweeping: false, sweeps_left: mode.sweep_count() }
    }

    /// The longest that one read may wait, in milliseconds.
    pub fn read_timeout_millis(&self) -> (r: u64)
        ensures
            r == self@.mode.read_timeout(),
    {
        self.mode.read_timeout_millis()
    }

    /// Whether to read once more, `elapsed_millis` after the listener
    /// began. While the window is open there is always one more read; once
    /// it has been found closed, the time is no longer asked for, and the
    /// reads that are left are counted down. What a read brings, or that it
    /// brings nothing, changes neither.
    pub fn next(&mut self, elapsed_millis: u64) -> (read: bool)
        ensures
            read == old(self)@.reads(elapsed_millis as int),
            final(self)@ == old(self)@.after(elapsed_millis as int),
    {
        if !self.sweeping && elapsed_millis < self.mode.window_millis() {
            true
        } else {
            self.sweeping = true;
            if self.sweeps_left > 0 {
                self.sweeps_left = self.sweeps_left - 1;
                true
            } else {
                false
            }
        }
    }
}

/// Takes in a frame that was read from the link. The sender of a reply is
/// offered to the registry; the result is that host where it was not known
/// before, and nothing where the frame is no reply or the address was
/// known.
pub fn process_frame(registry: &mut HostRegistry, frame: &[u8]) -> (r: Option<DiscoveredHost>)
    requires
        old(registry).wf(),
    ensures
        final(registry).wf(),
        match decoded(frame@) {
            Some(host) => final(registry)@ == offered(old(registry)@, host) && r == (if has_address(
                old(registry)@,
                host.address,
            ) {
                None
            } else {
                Some(host)
            }),
            None => final(registry)@ == old(registry)@ && r is None,
        },
{
    match decode(frame) {
        Some(host) => {
            if registry.insert_if_absent(host.address, host.hardware) {
                Some(host)
            } else {
                None
            }
        },
        None => None,
    }
}

/// What a scan begins with.
pub struct ScanPlan {
    /// The range that is scanned.
    pub range: AddressRange,
    /// The registry, which knows the local host already.
    pub registry: HostRegistry,
    /// The sender, before its first request.
    pub transmission: Transmission,
    /// The listener, before its first read.
    pub listener: Listener,
}

/// Prepares a scan through `interface`, whose address is `local`: resolves
/// the range, enters the local host into a new registry, which needs no
/// request to be known, and sets up the sender and the listener. A range
/// with a prefix of more than 32 bits is refused.
pub fn plan_scan(interface: &Interface, local: NetworkAddress, options: &ScanOptions) -> (r: Result<
    ScanPlan,
    SetupError,
>)
    ensures
        match resolved_range(options.custom_range, interface.addresses@, local) {
            Ok(range) => if range.wf() {
                &&& r matches Ok(plan)
                &&& plan.range == range
                &&& plan.registry.wf()
                &&& plan.registry@ == seq![
                    DiscoveredHost { address: local, hardware: interface.hardware },
                ]
                &&& plan.transmission@ == Sending::start(interface.hardware, local, range)
                &&& plan.transmission@.wf()
                &&& plan.listener@ == Listening::start(options.mode())
            } else {
                r matches Err(e) && e == SetupError::InvalidRange
            },
            Err(e) => r matches Err(f) && f == e,
        },
{
    let range = match resolve_range(options.custom_range, interface, local) {
        Ok(range) => range,
        Err(e) => {
            return Err(e);
        },
    };
    if range.prefix > 32 {
        return Err(SetupError::InvalidRange);
    }
    let mut registry = HostRegistry::new();
    registry.insert_if_absent(local, interface.hardware);
    assert(registry@ =~= seq![DiscoveredHost { address: local, hardware: interface.hardware }]);
    let transmission = Transmission::start(interface.hardware, local, range);
    let listener = Listener::start(options.timing());
    Ok(ScanPlan { range, registry, transmission, listener })
}

/// What the user has asked for.
#[derive(Clone, Copy, Debug)]
pub struct ScanOptions {
    pub verbose: bool,
    pub fast_mode: bool,
    pub custom_range: Option<AddressRange>,
    pub lookup_labels: bool,
    pub update_hosts: bool,
    pub dummy_mode: bool,
}

impl ScanOptions {
    /// The mapping file can only be updated from labels that are looked up.
    pub fn validate(&self) -> (r: Result<(), SetupError>)
        ensures
            match r {
                Ok(_) => !(self.update_hosts && !self.lookup_labels),
                Err(e) => self.update_hosts && !self.lookup_labels && e
                    == SetupError::InvalidOptions,
            },
    {
        if self.update_hosts && !self.lookup_labels {
            Err(SetupError::InvalidOptions)
        } else {
            Ok(())
        }
    }

    /// The timing that was asked for.
    pub open spec fn mode(&self) -> TimingMode {
        if self.fast_mode {
            TimingMode::Fast
        } else {
            TimingMode::Normal
        }
    }

    /// The timing that was asked for.
    pub fn timing(&self) -> (r: TimingMode)
        ensures
            r == self.mode(),
    {
        if self.fast_mode {
            TimingMode::Fast
        } else {
            TimingMode::Normal
        }
    }
}

} // verus!
