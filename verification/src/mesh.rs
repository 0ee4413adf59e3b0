//! Forwarding of frames through the mesh.
use crate::config::MeshConfig;
use crate::frames::DownlinkFrame;
use crate::frames::DownlinkFrameItem;
use crate::frames::DownlinkTxInfo;
use crate::frames::Timing;
use crate::hexadecimal;
use crate::hexadecimal::bad_digit_text;
use crate::hexadecimal::HexError;
use crate::packets::PayloadType;
use crate::text;
use crate::text::labelled;
use std::collections::HashMap;
use vstd::arithmetic::div_mod::*;
use vstd::prelude::*;
use vstd::slice::slice_to_vec;
use vstd::std_specs::hash::*;
use vstd::string::StringExecFns;

pub mod beacon;
pub mod command;
pub mod ctp;
pub mod downlink;
pub mod forward;
pub mod proxy;
pub mod scheduler;
pub mod uplink;

verus! {

/// The largest uplink identifier of the mesh.
pub const MAX_UPLINK_ID: u16 = 4095;

/// Why the mesh cannot handle something.
#[derive(Debug, Clone, Copy, PartialEq, Eq, Structural)]
pub enum MeshError {
    NoFrequencies,
    NoUplinkContext(u16),
    MissingRxInfo,
    MissingTxInfo,
    MissingModulation,
    MissingTiming,
    UnsupportedTiming,
    ShortContext,
    NotAnUplink,
    NotAnEvent,
    MaxHopCount,
    InvalidRelayId(HexError),
}

impl MeshError {
    /// The text of an error.
    pub open spec fn text(self) -> Seq<char> {
        match self {
            MeshError::NoFrequencies => "No mesh frequencies are configured"@,
            MeshError::NoUplinkContext(id) => "No uplink context for uplink_id: "@ + text::decimal(
                id as nat,
            ),
            MeshError::MissingRxInfo => "rx_info is None"@,
            MeshError::MissingTxInfo => "tx_info is None"@,
            MeshError::MissingModulation => "modulation is None"@,
            MeshError::MissingTiming => "timing is None"@,
            MeshError::UnsupportedTiming => "Only Delay timing is supported"@,
            MeshError::ShortContext => "context does not contain enough bytes"@,
            MeshError::NotAnUplink => "Expected Uplink payload"@,
            MeshError::NotAnEvent => "Expected Heartbeat payload"@,
            MeshError::MaxHopCount => "Max hop count exceeded"@,
            MeshError::InvalidRelayId(HexError::OddLength) => "Odd number of digits"@,
            MeshError::InvalidRelayId(HexError::InvalidLength) => "Invalid string length"@,
            MeshError::InvalidRelayId(HexError::InvalidCharacter { c, index }) =>
                hexadecimal::bad_digit_message(c, index as nat),
        }
    }

    /// The error as a line of text.
    pub fn message(&self) -> (res: String)
        ensures
            res@ == self.text(),
    {
        match self {
            MeshError::NoFrequencies => String::from_str("No mesh frequencies are configured"),
            MeshError::NoUplinkContext(id) => labelled(
                "No uplink context for uplink_id: ",
                *id as u64,
            ),
            MeshError::MissingRxInfo => String::from_str("rx_info is None"),
            MeshError::MissingTxInfo => String::from_str("tx_info is None"),
            MeshError::MissingModulation => String::from_str("modulation is None"),
            MeshError::MissingTiming => String::from_str("timing is None"),
            MeshError::UnsupportedTiming => String::from_str("Only Delay timing is supported"),
            MeshError::ShortContext => String::from_str("context does not contain enough bytes"),
            MeshError::NotAnUplink => String::from_str("Expected Uplink payload"),
            MeshError::NotAnEvent => String::from_str("Expected Heartbeat payload"),
            MeshError::MaxHopCount => String::from_str("Max hop count exceeded"),
            MeshError::InvalidRelayId(HexError::OddLength) => String::from_str(
                "Odd number of digits",
            ),
            MeshError::InvalidRelayId(HexError::InvalidLength) => String::from_str(
                "Invalid string length",
            ),
            MeshError::InvalidRelayId(HexError::InvalidCharacter { c, index }) => bad_digit_text(
                *c,
                *index,
            ),
        }
    }
}

/// A failure of the mesh itself, or of a service that it asked.
#[derive(Debug)]
pub enum Failure<E> {
    Mesh(MeshError),
    Service(E),
}

/// What a node remembers between frames.
#[derive(Debug)]
pub struct MeshState {
    channel: usize,
    uplink_id: u16,
    contexts: HashMap<u16, Vec<u8>>,
}

/// The uplink identifier after `id`.
pub open spec fn next_uplink_id(id: u16) -> u16 {
    if id < MAX_UPLINK_ID {
        (id + 1) as u16
    } else {
        0
    }
}

/// The channel after `channel` of `count` channels.
pub open spec fn next_channel(channel: int, count: int) -> int {
    if channel + 1 < count {
        channel + 1
    } else {
        0
    }
}

impl MeshState {
    /// The channel that was used last.
    pub closed spec fn last_channel(&self) -> nat {
        self.channel as nat
    }

    /// The uplink identifier that was given out last.
    pub closed spec fn last_uplink_id(&self) -> u16 {
        self.uplink_id
    }

    /// The contexts of the uplinks.
    pub closed spec fn stored(&self) -> Map<u16, Seq<u8>> {
        self.contexts@.map_values(|v: Vec<u8>| v@)
    }

    pub closed spec fn wf(&self) -> bool {
        self.channel < usize::MAX && self.uplink_id <= MAX_UPLINK_ID
    }

    pub fn new() -> (state: Self)
        ensures
            state.wf(),
            state.last_channel() == 0,
            state.last_uplink_id() == 0,
            state.stored() == Map::<u16, Seq<u8>>::empty(),
    {
        let state = MeshState { channel: 0, uplink_id: 0, contexts: HashMap::new() };
        assert(state.stored() =~= Map::<u16, Seq<u8>>::empty());
        state
    }
}

/// The frequency of the next transmission: the configured ones take turns.
pub fn get_mesh_frequency(state: &mut MeshState, conf: &MeshConfig) -> (res: Result<u32, MeshError>)
    requires
        old(state).wf(),
    ensures
        final(state).wf(),
        final(state).last_uplink_id() == old(state).last_uplink_id(),
        final(state).stored() == old(state).stored(),
        match res {
            Ok(frequency) => {
                let channel = next_channel(
                    old(state).last_channel() as int,
                    conf.frequencies@.len() as int,
                );
                &&& conf.frequencies@.len() > 0
                &&& final(state).last_channel() == channel
                &&& frequency == conf.frequencies@[channel]
            },
            Err(e) => {
                &&& e == MeshError::NoFrequencies
                &&& conf.frequencies@.len() == 0
                &&& final(state).last_channel() == old(state).last_channel()
            },
        },
{
    if conf.frequencies.len() == 0 {
        return Err(MeshError::NoFrequencies);
    }
    state.channel = state.channel + 1;
    if state.channel >= conf.frequencies.len() {
        state.channel = 0;
    }
    Ok(conf.frequencies[state.channel])
}

/// The identifier of the next uplink.
pub fn get_uplink_id(state: &mut MeshState) -> (id: u16)
    requires
        old(state).wf(),
    ensures
        final(state).wf(),
        id == next_uplink_id(old(state).last_uplink_id()),
        id <= MAX_UPLINK_ID,
        final(state).last_uplink_id() == id,
        final(state).last_channel() == old(state).last_channel(),
        final(state).stored() == old(state).stored(),
{
    state.uplink_id = state.uplink_id + 1;
    if state.uplink_id > MAX_UPLINK_ID {
        state.uplink_id = 0;
    }
    state.uplink_id
}

/// Keeps the context of an uplink under a new identifier.
pub fn store_uplink_context(state: &mut MeshState, ctx: &[u8]) -> (id: u16)
    requires
        old(state).wf(),
    ensures
        final(state).wf(),
        id == next_uplink_id(old(state).last_uplink_id()),
        final(state).last_uplink_id() == id,
        final(state).last_channel() == old(state).last_channel(),
        final(state).stored() == old(state).stored().insert(id, ctx@),
{
    let id: u16 = get_uplink_id(state);
    let ghost before = state.stored();
    state.contexts.insert(id, slice_to_vec(ctx));
    assert(state.stored() =~= before.insert(id, ctx@));
    id
}

/// The context of an uplink.
pub fn get_uplink_context(state: &MeshState, uplink_id: u16) -> (res: Result<Vec<u8>, MeshError>)
    ensures
        match res {
            Ok(ctx) => state.stored().contains_key(uplink_id) && ctx@ == state.stored()[uplink_id],
            Err(e) => e == MeshError::NoUplinkContext(uplink_id) && !state.stored().contains_key(
                uplink_id,
            ),
        },
{
    match state.contexts.get(&uplink_id) {
        Some(ctx) => Ok(slice_to_vec(ctx.as_slice())),
        None => Err(MeshError::NoUplinkContext(uplink_id)),
    }
}

/// The key that packets are signed with: the configured one, or the derived one
/// where none is configured.
pub fn signing_key(configured: [u8; 16], derived: [u8; 16]) -> (key: [u8; 16])
    ensures
        key == if configured@ == Seq::new(16, |i: int| 0u8) {
            derived
        } else {
            configured
        },
{
    let mut i: usize = 0;
    while i < 16
        invariant
            i <= 16,
            forall|j: int| 0 <= j < i ==> configured@[j] == 0,
        decreases 16 - i,
    {
        if configured[i] != 0 {
            assert(configured@ != Seq::new(16, |i: int| 0u8)) by {
                assert(Seq::new(16, |i: int| 0u8)[i as int] == 0);
            }
            return configured;
        }
        i = i + 1;
    }
    assert(configured@ =~= Seq::new(16, |i: int| 0u8));
    derived
}

/// What is done with a LoRaWAN uplink.
#[derive(Debug, Clone, Copy, PartialEq, Eq, Structural)]
pub enum UplinkAction {
    Proxy,
    Relay,
}

/// A border gateway hands a LoRaWAN uplink to the network server, a relay sends
/// it into the mesh.
pub fn handle_uplink(border_gateway: bool) -> (action: UplinkAction)
    ensures
        action == if border_gateway {
            UplinkAction::Proxy
        } else {
            UplinkAction::Relay
        },
{
    if border_gateway {
        UplinkAction::Proxy
    } else {
        UplinkAction::Relay
    }
}

/// What is known of a mesh packet that came in.
#[derive(Debug, Clone, Copy, PartialEq, Eq, Structural)]
pub enum MeshRxEvent {
    Parsed,
    /// Whether the integrity code is valid.
    MicChecked(bool),
    /// Whether the packet was not seen before.
    CacheChecked(bool),
    Decrypted(PayloadType),
}

/// What is done next with a mesh packet that came in.
#[derive(Debug, Clone, Copy, PartialEq, Eq, Structural)]
pub enum MeshRxAction {
    CheckMic,
    /// Add the packet to the cache of those that were seen.
    CheckCache,
    Decrypt,
    DropInvalidMic,
    DropSeen,
    ProxyUplink,
    ProxyEvent,
    Ignore,
    Relay,
}

/// The next step for a mesh packet: only an authentic packet reaches the cache,
/// only a new one is decrypted, and only a decrypted one is handled.
pub fn handle_mesh(border_gateway: bool, event: MeshRxEvent) -> (action: MeshRxAction)
    ensures
        action == match event {
            MeshRxEvent::Parsed => MeshRxAction::CheckMic,
            MeshRxEvent::MicChecked(valid) => if valid {
                MeshRxAction::CheckCache
            } else {
                MeshRxAction::DropInvalidMic
            },
            MeshRxEvent::CacheChecked(is_new) => if is_new {
                MeshRxAction::Decrypt
            } else {
                MeshRxAction::DropSeen
            },
            MeshRxEvent::Decrypted(payload_type) => if !border_gateway {
                MeshRxAction::Relay
            } else if payload_type == PayloadType::Uplink {
                MeshRxAction::ProxyUplink
            } else if payload_type == PayloadType::Event {
                MeshRxAction::ProxyEvent
            } else {
                MeshRxAction::Ignore
            },
        },
{
    match event {
        MeshRxEvent::Parsed => MeshRxAction::CheckMic,
        MeshRxEvent::MicChecked(true) => MeshRxAction::CheckCache,
        MeshRxEvent::MicChecked(false) => MeshRxAction::DropInvalidMic,
        MeshRxEvent::CacheChecked(true) => MeshRxAction::Decrypt,
        MeshRxEvent::CacheChecked(false) => MeshRxAction::DropSeen,
        MeshRxEvent::Decrypted(payload_type) => match (border_gateway, payload_type) {
            (false, _) => MeshRxAction::Relay,
            (true, PayloadType::Uplink) => MeshRxAction::ProxyUplink,
            (true, PayloadType::Event) => MeshRxAction::ProxyEvent,
            (true, _) => MeshRxAction::Ignore,
        },
    }
}

/// Whether a frame carries one payload, to be sent at once in the mesh.
pub open spec fn is_mesh_frame<M>(
    frame: DownlinkFrame<M>,
    downlink_id: u32,
    phy_payload: Seq<u8>,
    frequency: u32,
    power: i32,
    modulation: M,
) -> bool {
    &&& frame.downlink_id == downlink_id
    &&& frame.gateway_id@ == Seq::<char>::empty()
    &&& frame.items@.len() == 1
    &&& frame.items@[0].phy_payload@ == phy_payload
    &&& frame.items@[0].tx_info matches Some(tx) && {
        &&& tx.frequency == frequency
        &&& tx.power == power
        &&& tx.modulation == Some(modulation)
        &&& tx.timing == Some(Timing::Immediately)
        &&& tx.context@ == Seq::<u8>::empty()
    }
}

pub(crate) fn immediate_frame<M>(
    downlink_id: u32,
    phy_payload: Vec<u8>,
    frequency: u32,
    power: i32,
    modulation: M,
) -> (frame: DownlinkFrame<M>)
    ensures
        is_mesh_frame(frame, downlink_id, phy_payload@, frequency, power, modulation),
{
    let mut items = Vec::new();
    items.push(
        DownlinkFrameItem {
            phy_payload,
            tx_info: Some(
                DownlinkTxInfo {
                    frequency,
                    power,
                    modulation: Some(modulation),
                    timing: Some(Timing::Immediately),
                    context: Vec::new(),
                },
            ),
        },
    );
    DownlinkFrame { downlink_id, gateway_id: String::new(), items }
}

/// The frame that sends a packet into the mesh, on the next frequency.
pub fn mesh_frame<M>(
    state: &mut MeshState,
    conf: &MeshConfig,
    downlink_id: u32,
    phy_payload: Vec<u8>,
    modulation: M,
) -> (res: Result<DownlinkFrame<M>, MeshError>)
    requires
        old(state).wf(),
    ensures
        final(state).wf(),
        final(state).last_uplink_id() == old(state).last_uplink_id(),
        final(state).stored() == old(state).stored(),
        match res {
            Ok(frame) => {
                let channel = next_channel(
                    old(state).last_channel() as int,
                    conf.frequencies@.len() as int,
                );
                &&& conf.frequencies@.len() > 0
                &&& final(state).last_channel() == channel
                &&& is_mesh_frame(
                    frame,
                    downlink_id,
                    phy_payload@,
                    conf.frequencies@[channel],
                    conf.tx_power,
                    modulation,
                )
            },
            Err(e) => {
                &&& e == MeshError::NoFrequencies
                &&& conf.frequencies@.len() == 0
                &&& final(state).last_channel() == old(state).last_channel()
            },
        },
{
    let frequency: u32 = match get_mesh_frequency(state, conf) {
        Ok(frequency) => frequency,
        Err(e) => return Err(e),
    };
    Ok(immediate_frame(downlink_id, phy_payload, frequency, conf.tx_power, modulation))
}

/// `rand::random` at 32 bits: any number may come back.
#[verifier::external_body]
pub(crate) fn random_id() -> u32 {
    rand::random()
}

/// The frame that sends a packet into the mesh, under an identifier of its own.
pub fn new_mesh_frame<M>(
    state: &mut MeshState,
    conf: &MeshConfig,
    phy_payload: Vec<u8>,
    modulation: M,
) -> (res: Result<DownlinkFrame<M>, MeshError>)
    requires
        old(state).wf(),
    ensures
        final(state).wf(),
        final(state).last_uplink_id() == old(state).last_uplink_id(),
        final(state).stored() == old(state).stored(),
        match res {
            Ok(frame) => {
                let channel = next_channel(
                    old(state).last_channel() as int,
                    conf.frequencies@.len() as int,
                );
                &&& conf.frequencies@.len() > 0
                &&& final(state).last_channel() == channel
                &&& is_mesh_frame(
                    frame,
                    frame.downlink_id,
                    phy_payload@,
                    conf.frequencies@[channel],
                    conf.tx_power,
                    modulation,
                )
            },
            Err(e) => {
                &&& e == MeshError::NoFrequencies
                &&& conf.frequencies@.len() == 0
                &&& final(state).last_channel() == old(state).last_channel()
            },
        },
{
    mesh_frame(state, conf, random_id(), phy_payload, modulation)
}

/// The identifier that is given out `n` uplinks after `id`.
pub open spec fn nth_uplink_id(id: u16, n: nat) -> u16
    decreases n,
{
    if n == 0 {
        id
    } else {
        next_uplink_id(nth_uplink_id(id, (n - 1) as nat))
    }
}

/// The identifiers count up and begin anew after the largest one.
pub proof fn uplink_ids_go_round(id: u16, n: nat)
    requires
        id <= MAX_UPLINK_ID,
    ensures
        nth_uplink_id(id, n) == (id + n) % (MAX_UPLINK_ID + 1),
    decreases n,
{
    if n > 0 {
        uplink_ids_go_round(id, (n - 1) as nat);
    }
}

/// An identifier is not given out again before all others were.
pub proof fn uplink_ids_differ(id: u16, m: nat, n: nat)
    requires
        id <= MAX_UPLINK_ID,
        m < n < m + MAX_UPLINK_ID + 1,
    ensures
        nth_uplink_id(id, m) != nth_uplink_id(id, n),
{
    uplink_ids_go_round(id, m);
    uplink_ids_go_round(id, n);
}

/// The contexts after more uplinks came in, the last identifier being `id`.
pub open spec fn stored_after(
    stored: Map<u16, Seq<u8>>,
    id: u16,
    contexts: Seq<Seq<u8>>,
) -> Map<u16, Seq<u8>>
    decreases contexts.len(),
{
    if contexts.len() == 0 {
        stored
    } else {
        stored_after(stored, id, contexts.drop_last()).insert(
            nth_uplink_id(id, contexts.len()),
            contexts.last(),
        )
    }
}

/// A context that was kept is found again until its identifier is given out anew.
pub proof fn kept_context_is_found_again(
    stored: Map<u16, Seq<u8>>,
    id: u16,
    contexts: Seq<Seq<u8>>,
)
    requires
        id <= MAX_UPLINK_ID,
        stored.contains_key(id),
        contexts.len() <= MAX_UPLINK_ID,
    ensures
        stored_after(stored, id, contexts).contains_key(id),
        stored_after(stored, id, contexts)[id] == stored[id],
    decreases contexts.len(),
{
    if contexts.len() > 0 {
        kept_context_is_found_again(stored, id, contexts.drop_last());
        uplink_ids_differ(id, 0, contexts.len());
    }
}

/// The channel that is used `n` transmissions after `channel`.
pub open spec fn nth_channel(channel: int, count: int, n: nat) -> int
    decreases n,
{
    if n == 0 {
        channel
    } else {
        next_channel(nth_channel(channel, count, (n - 1) as nat), count)
    }
}

/// From the second transmission on, the channels count up and begin anew after the
/// last one, whatever the channel was before.
proof fn lemma_channels_count_up(channel: int, count: int, n: nat)
    requires
        0 <= channel,
        count >= 1,
        n >= 1,
    ensures
        nth_channel(channel, count, n) == (next_channel(channel, count) + n - 1) % count,
        0 <= nth_channel(channel, count, n) < count,
    decreases n,
{
    let first = next_channel(channel, count);
    if n == 1 {
        assert(nth_channel(channel, count, 0) == channel);
        lemma_small_mod(first as nat, count as nat);
    } else {
        lemma_channels_count_up(channel, count, (n - 1) as nat);
        let before = nth_channel(channel, count, (n - 1) as nat);
        let total = first + n - 1;
        let q = (total - 1) / count;
        lemma_fundamental_div_mod(total - 1, count);
        assert(total == q * count + (before + 1)) by (nonlinear_arith)
            requires
                total - 1 == count * q + before,
        ;
        if before + 1 < count {
            lemma_fundamental_div_mod_converse(total, count, q, before + 1);
        } else {
            assert(total == (q + 1) * count + 0) by (nonlinear_arith)
                requires
                    total == q * count + (before + 1),
                    before + 1 == count,
            ;
            lemma_fundamental_div_mod_converse(total, count, q + 1, 0);
        }
    }
}

/// The frequencies take turns in their order, whatever the channel was before: each
/// transmission uses the frequency after that of the one before it, and after as
/// many transmissions as there are frequencies the same one comes again. From the
/// start, the second frequency comes first.
pub proof fn frequencies_take_turns(channel: int, count: int, n: nat)
    requires
        0 <= channel,
        count >= 1,
        n >= 1,
    ensures
        0 <= nth_channel(channel, count, n) < count,
        nth_channel(channel, count, n + 1) == (nth_channel(channel, count, n) + 1) % count,
        nth_channel(channel, count, (n + count) as nat) == nth_channel(channel, count, n),
        channel == 0 ==> nth_channel(channel, count, 1) == 1int % count,
{
    let first = next_channel(channel, count);
    lemma_channels_count_up(channel, count, n);
    lemma_channels_count_up(channel, count, n + 1);
    lemma_channels_count_up(channel, count, (n + count) as nat);
    lemma_mod_add_multiples_vanish(first + n - 1, count);
    let here = nth_channel(channel, count, n);
    if here + 1 < count {
        lemma_small_mod((here + 1) as nat, count as nat);
    } else {
        lemma_mod_self_0(count);
    }
    if channel == 0 {
        assert(nth_channel(0, count, 0) == 0);
        if count > 1 {
            lemma_small_mod(1, count as nat);
        }
    }
}

/// Of as many transmissions in a row as there are frequencies, no two use the same
/// one, and every one gets its turn.
pub proof fn every_frequency_gets_its_turn(channel: int, count: int, n: nat, place: int)
    requires
        0 <= channel,
        count >= 1,
        n >= 1,
        0 <= place < count,
    ensures
        exists|k: nat|
            n <= k < n + count && #[trigger] nth_channel(channel, count, k) == place,
        forall|j: nat, k: nat|
            n <= j < k < n + count ==> #[trigger] nth_channel(channel, count, j)
                != #[trigger] nth_channel(channel, count, k),
{
    let first = next_channel(channel, count);
    let here = nth_channel(channel, count, n);
    lemma_channels_count_up(channel, count, n);
    let gap = if place >= here {
        place - here
    } else {
        place - here + count
    };
    let k = (n + gap) as nat;
    let q = (first + n - 1) / count;
    lemma_channels_count_up(channel, count, k);
    lemma_fundamental_div_mod(first + n - 1, count);
    if place >= here {
        assert(first + k - 1 == q * count + place) by (nonlinear_arith)
            requires
                first + n - 1 == count * q + here,
                k == n + (place - here),
        ;
        lemma_fundamental_div_mod_converse(first + k - 1, count, q, place);
    } else {
        assert(first + k - 1 == (q + 1) * count + place) by (nonlinear_arith)
            requires
                first + n - 1 == count * q + here,
                k == n + (place - here + count),
        ;
        lemma_fundamental_div_mod_converse(first + k - 1, count, q + 1, place);
    }
    assert(nth_channel(channel, count, k) == place);
    assert forall|j: nat, k: nat| n <= j < k < n + count implies #[trigger] nth_channel(
        channel,
        count,
        j,
    ) != #[trigger] nth_channel(channel, count, k) by {
        lemma_channels_count_up(channel, count, j);
        lemma_channels_count_up(channel, count, k);
        lemma_fundamental_div_mod(first + j - 1, count);
        lemma_fundamental_div_mod(first + k - 1, count);
        let a = (first + j - 1) / count;
        let b = (first + k - 1) / count;
        let r = (first + j - 1) % count;
        if (first + k - 1) % count == r {
            assert(false) by (nonlinear_arith)
                requires
                    first + j - 1 == count * a + r,
                    first + k - 1 == count * b + r,
                    0 < k - j < count,
            ;
        }
    }
}

/// A frame of the mesh carries one payload as it is, is sent at once, and names neither a
/// gateway nor a context.
pub proof fn mesh_frame_is_sent_at_once<M>(
    frame: DownlinkFrame<M>,
    downlink_id: u32,
    phy_payload: Seq<u8>,
    frequency: u32,
    power: i32,
    modulation: M,
)
    requires
        is_mesh_frame(frame, downlink_id, phy_payload, frequency, power, modulation),
    ensures
        frame.downlink_id == downlink_id,
        frame.gateway_id@.len() == 0,
        frame.items@.len() == 1,
        frame.items@[0].phy_payload@ == phy_payload,
        frame.items@[0].tx_info is Some,
        ({
            let tx = frame.items@[0].tx_info->0;
            &&& tx.frequency == frequency
            &&& tx.power == power
            &&& tx.modulation == Some(modulation)
            &&& tx.timing == Some(Timing::Immediately)
            &&& tx.context@.len() == 0
        }),
{
}

} // verus!
