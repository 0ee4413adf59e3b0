//! Downlinks that a border gateway sends into the mesh, and that the relay of
//! the device takes out again.
use crate::frames::DownlinkFrame;
use crate::frames::DownlinkFrameItem;
use crate::frames::DownlinkTxAck;
use crate::frames::DownlinkTxInfo;
use crate::frames::Timing;
use crate::frames::TxAckStatus;
use crate::hexadecimal;
use crate::hexadecimal::encode;
use crate::mesh;
use crate::mesh::get_uplink_context;
use crate::mesh::random_id;
use crate::mesh::Failure;
use crate::mesh::MeshError;
use crate::mesh::MeshState;
use crate::narrow;
use crate::narrow::to_low_byte;
use crate::packets::DownlinkMetadata;
use crate::packets::DownlinkPayload;
use crate::packets::MeshPacket;
use crate::packets::Mhdr;
use crate::packets::Payload;
use crate::packets::PayloadType;
use vstd::prelude::*;
use vstd::slice::slice_to_vec;

verus! {

/// The mark of a context that was made in the mesh.
pub const CTX_PREFIX: [u8; 3] = [1, 2, 3];

/// The length of such a context: mark, relay identifier and uplink identifier.
pub const CTX_LEN: usize = 9;

/// The context of an uplink that came through the mesh.
pub open spec fn context_bytes(relay_id: [u8; 4], uplink_id: u16) -> Seq<u8> {
    CTX_PREFIX@ + relay_id@ + seq![(uplink_id / 0x100) as u8, (uplink_id % 0x100) as u8]
}

/// Makes the context of an uplink that came through the mesh.
pub fn make_context(relay_id: &[u8; 4], uplink_id: u16) -> (ctx: Vec<u8>)
    ensures
        ctx@ == context_bytes(*relay_id, uplink_id),
{
    let mut ctx: Vec<u8> = Vec::new();
    ctx.push(1);
    ctx.push(2);
    ctx.push(3);
    ctx.push(relay_id[0]);
    ctx.push(relay_id[1]);
    ctx.push(relay_id[2]);
    ctx.push(relay_id[3]);
    ctx.push((uplink_id / 0x100) as u8);
    ctx.push((uplink_id % 0x100) as u8);
    assert(ctx@ =~= context_bytes(*relay_id, uplink_id));
    ctx
}

/// Whether a context was made in the mesh.
pub open spec fn is_mesh_context(ctx: Seq<u8>) -> bool {
    ctx.len() == CTX_LEN && ctx.take(3) == CTX_PREFIX@
}

fn has_mesh_context(ctx: &Vec<u8>) -> (res: bool)
    ensures
        res == is_mesh_context(ctx@),
{
    if ctx.len() != CTX_LEN {
        return false;
    }
    proof {
        if ctx@[0] == 1 && ctx@[1] == 2 && ctx@[2] == 3 {
            assert(ctx@.take(3) =~= CTX_PREFIX@);
        } else {
            assert(ctx@.take(3)[0] == ctx@[0]);
            assert(ctx@.take(3)[1] == ctx@[1]);
            assert(ctx@.take(3)[2] == ctx@[2]);
            assert(CTX_PREFIX@ =~= seq![1u8, 2, 3]);
        }
    }
    ctx[0] == 1 && ctx[1] == 2 && ctx[2] == 3
}

/// The relay that a context names.
pub open spec fn context_relay(ctx: Seq<u8>) -> [u8; 4] {
    [ctx[3], ctx[4], ctx[5], ctx[6]]
}

/// The uplink that a context names.
pub open spec fn context_uplink_id(ctx: Seq<u8>) -> u16 {
    (ctx[7] * 0x100 + ctx[8]) as u16
}

/// A context gives back the relay and the uplink that it was made of.
pub proof fn context_reads_back(relay_id: [u8; 4], uplink_id: u16)
    ensures
        is_mesh_context(context_bytes(relay_id, uplink_id)),
        context_relay(context_bytes(relay_id, uplink_id)) == relay_id,
        context_uplink_id(context_bytes(relay_id, uplink_id)) == uplink_id,
{
    let ctx = context_bytes(relay_id, uplink_id);
    assert(CTX_PREFIX@.len() == 3);
    assert(ctx.take(3) =~= CTX_PREFIX@);
    assert(context_relay(ctx)@ =~= relay_id@);
    assert(context_relay(ctx) =~= relay_id);
}

/// What is done with a downlink of the network server.
#[derive(Debug, Clone, Copy, PartialEq, Eq, Structural)]
pub enum DownlinkAction {
    /// Hand it to the packet forwarder.
    Proxy,
    /// Send it into the mesh.
    Relay,
}

/// A downlink whose context was made in the mesh goes back into the mesh.
pub fn handle_downlink<M>(frame: &DownlinkFrame<M>) -> (res: Result<DownlinkAction, MeshError>)
    ensures
        res == if frame.items@.len() == 0 {
            Ok(DownlinkAction::Relay)
        } else {
            match frame.items@[0].tx_info {
                None => Err(MeshError::MissingTxInfo),
                Some(tx_info) => if is_mesh_context(tx_info.context@) {
                    Ok(DownlinkAction::Relay)
                } else {
                    Ok(DownlinkAction::Proxy)
                },
            }
        },
{
    if frame.items.len() == 0 {
        return Ok(DownlinkAction::Relay);
    }
    match &frame.items[0].tx_info {
        None => Err(MeshError::MissingTxInfo),
        Some(tx_info) => if has_mesh_context(&tx_info.context) {
            Ok(DownlinkAction::Relay)
        } else {
            Ok(DownlinkAction::Proxy)
        },
    }
}

/// Where a downlink goes, and when and how it is to be sent there.
#[derive(Debug, Clone, Copy, PartialEq, Eq)]
pub struct DownlinkTarget {
    pub relay_id: [u8; 4],
    pub uplink_id: u16,
    pub frequency: u32,
    pub power: i32,
    pub delay: u8,
}

/// Why an item cannot be sent into the mesh.
pub open spec fn item_gap<M>(item: DownlinkFrameItem<M>) -> Option<MeshError> {
    match item.tx_info {
        None => Some(MeshError::MissingTxInfo),
        Some(tx_info) => if tx_info.modulation is None {
            Some(MeshError::MissingModulation)
        } else {
            match tx_info.timing {
                None => Some(MeshError::MissingTiming),
                Some(Timing::Delay(_)) => if tx_info.context@.len() < CTX_LEN {
                    Some(MeshError::ShortContext)
                } else {
                    None
                },
                Some(_) => Some(MeshError::UnsupportedTiming),
            }
        },
    }
}

/// The seconds of a delay, cut to a byte.
pub open spec fn delay_byte(timing: Option<Timing>) -> u8 {
    match timing {
        Some(Timing::Delay(Some(seconds))) => narrow::low_byte(seconds) as u8,
        _ => 0,
    }
}

/// The target of an item.
pub open spec fn item_target<M>(tx_info: DownlinkTxInfo<M>) -> DownlinkTarget {
    DownlinkTarget {
        relay_id: context_relay(tx_info.context@),
        uplink_id: context_uplink_id(tx_info.context@),
        frequency: tx_info.frequency,
        power: tx_info.power,
        delay: delay_byte(tx_info.timing),
    }
}

/// Reads the target of an item.
pub fn read_item<M>(item: &DownlinkFrameItem<M>) -> (res: Result<DownlinkTarget, MeshError>)
    ensures
        match res {
            Ok(target) => item_gap(*item) is None && target == item_target(item.tx_info->0),
            Err(e) => item_gap(*item) == Some(e),
        },
{
    let tx_info = match &item.tx_info {
        Some(tx_info) => tx_info,
        None => return Err(MeshError::MissingTxInfo),
    };
    if tx_info.modulation.is_none() {
        return Err(MeshError::MissingModulation);
    }
    let delay: u8 = match tx_info.timing {
        None => return Err(MeshError::MissingTiming),
        Some(Timing::Delay(Some(seconds))) => to_low_byte(seconds),
        Some(Timing::Delay(None)) => 0,
        Some(_) => return Err(MeshError::UnsupportedTiming),
    };
    let ctx = &tx_info.context;
    if ctx.len() < CTX_LEN {
        return Err(MeshError::ShortContext);
    }
    let target = DownlinkTarget {
        relay_id: [ctx[3], ctx[4], ctx[5], ctx[6]],
        uplink_id: ctx[7] as u16 * 0x100 + ctx[8] as u16,
        frequency: tx_info.frequency,
        power: tx_info.power,
        delay,
    };
    Ok(target)
}

/// The packet that carries a downlink into the mesh. `dr` and `tx_power` are the
/// codes of its modulation and its power. It has to be signed before it is sent.
pub fn relay_downlink_lora_packet<E>(
    target: &DownlinkTarget,
    phy_payload: &[u8],
    dr: Result<u8, E>,
    tx_power: Result<u8, E>,
) -> (res: Result<MeshPacket, E>)
    ensures
        match res {
            Ok(packet) => {
                &&& dr is Ok
                &&& tx_power is Ok
                &&& packet.mhdr == (Mhdr { payload_type: PayloadType::Downlink, hop_count: 1 })
                &&& packet.mic is None
                &&& packet.payload matches Payload::Downlink(pl) && {
                    &&& pl.relay_id == target.relay_id
                    &&& pl.phy_payload@ == phy_payload@
                    &&& pl.metadata == (DownlinkMetadata {
                        uplink_id: target.uplink_id,
                        dr: dr->Ok_0,
                        frequency: target.frequency,
                        tx_power: tx_power->Ok_0,
                        delay: target.delay,
                    })
                }
            },
            Err(e) => match dr {
                Err(d) => e == d,
                Ok(_) => tx_power == Err::<u8, E>(e),
            },
        },
{
    let dr: u8 = match dr {
        Ok(dr) => dr,
        Err(e) => return Err(e),
    };
    let tx_power: u8 = match tx_power {
        Ok(tx_power) => tx_power,
        Err(e) => return Err(e),
    };
    Ok(
        MeshPacket {
            mhdr: Mhdr { payload_type: PayloadType::Downlink, hop_count: 1 },
            payload: Payload::Downlink(
                DownlinkPayload {
                    metadata: DownlinkMetadata {
                        uplink_id: target.uplink_id,
                        dr,
                        frequency: target.frequency,
                        tx_power,
                        delay: target.delay,
                    },
                    relay_id: target.relay_id,
                    phy_payload: slice_to_vec(phy_payload),
                },
            ),
            mic: None,
        },
    )
}

/// How far the items of a downlink were tried. They are tried in their order until
/// one is sent.
#[derive(Debug)]
pub struct DownlinkProgress {
    items: Vec<TxAckStatus>,
    tried: usize,
    sent: bool,
}

/// The status of each of `count` items after the first ones were tried.
pub open spec fn statuses(count: nat, outcomes: Seq<bool>) -> Seq<TxAckStatus> {
    Seq::new(
        count,
        |i: int|
            if i >= outcomes.len() {
                TxAckStatus::Ignored
            } else if outcomes[i] {
                TxAckStatus::Success
            } else {
                TxAckStatus::InternalError
            },
    )
}

impl DownlinkProgress {
    /// The number of items.
    pub closed spec fn count(&self) -> nat {
        self.items@.len()
    }

    /// Whether each item that was tried could be sent.
    pub closed spec fn outcomes(&self) -> Seq<bool> {
        Seq::new(self.tried as nat, |i: int| self.items@[i] == TxAckStatus::Success)
    }

    /// The item that comes next: none once one was sent or all were tried.
    pub open spec fn next(&self) -> Option<int> {
        if self.outcomes().len() == self.count() || (self.outcomes().len() > 0
            && self.outcomes().last()) {
            None
        } else {
            Some(self.outcomes().len() as int)
        }
    }

    pub closed spec fn wf(&self) -> bool {
        &&& self.tried <= self.items@.len()
        &&& self.items@ == statuses(self.items@.len(), self.outcomes())
        &&& self.sent == (self.outcomes().len() > 0 && self.outcomes().last())
        &&& self.in_order()
    }

    /// Only the last item that was tried can have been sent.
    pub open spec fn in_order(&self) -> bool {
        forall|k: int| 0 <= k < self.outcomes().len() - 1 ==> !#[trigger] self.outcomes()[k]
    }

    /// What `wf` says of the outcomes.
    pub proof fn later_items_are_not_tried(&self)
        requires
            self.wf(),
        ensures
            self.in_order(),
            self.outcomes().len() <= self.count(),
    {
    }

    pub fn new(count: usize) -> (res: Self)
        ensures
            res.wf(),
            res.count() == count,
            res.outcomes() == Seq::<bool>::empty(),
    {
        let mut items: Vec<TxAckStatus> = Vec::new();
        let mut i: usize = 0;
        while i < count
            invariant
                i <= count,
                items@.len() == i,
                forall|j: int| 0 <= j < i ==> items@[j] == TxAckStatus::Ignored,
            decreases count - i,
        {
            items.push(TxAckStatus::Ignored);
            i = i + 1;
        }
        let res = DownlinkProgress { items, tried: 0, sent: false };
        assert(res.outcomes() =~= Seq::<bool>::empty());
        assert(res.items@ =~= statuses(res.items@.len(), res.outcomes()));
        res
    }

    pub fn next_item(&self) -> (res: Option<usize>)
        requires
            self.wf(),
        ensures
            match res {
                Some(i) => self.next() == Some(i as int) && i < self.count(),
                None => self.next() is None,
            },
    {
        if self.sent || self.tried == self.items.len() {
            None
        } else {
            Some(self.tried)
        }
    }

    /// Notes whether the next item could be sent.
    pub fn record(&mut self, sent: bool)
        requires
            old(self).wf(),
            old(self).next() is Some,
        ensures
            final(self).wf(),
            final(self).count() == old(self).count(),
            final(self).outcomes() == old(self).outcomes().push(sent),
    {
        let status = if sent {
            TxAckStatus::Success
        } else {
            TxAckStatus::InternalError
        };
        assert(self.tried < self.items.len());
        self.items.set(self.tried, status);
        self.tried = self.tried + 1;
        self.sent = sent;
        proof {
            assert(self.outcomes() =~= old(self).outcomes().push(sent));
            assert forall|i: int| 0 <= i < self.items@.len() implies self.items@[i] == statuses(
                self.items@.len(),
                self.outcomes(),
            )[i] by {
                assert(old(self).items@[i] == statuses(
                    old(self).items@.len(),
                    old(self).outcomes(),
                )[i]);
            }
            assert(self.items@ =~= statuses(self.items@.len(), self.outcomes()));
        }
    }

    /// The acknowledgement of a downlink.
    pub fn finish(self, gateway_id: String, downlink_id: u32) -> (ack: DownlinkTxAck)
        requires
            self.wf(),
        ensures
            ack.gateway_id == gateway_id,
            ack.downlink_id == downlink_id,
            ack.items@ == statuses(self.count(), self.outcomes()),
    {
        DownlinkTxAck { gateway_id, downlink_id, items: self.items }
    }
}

/// Whether a frame hands a downlink to its device, so many seconds after the
/// uplink.
pub open spec fn is_delivery<M>(
    frame: DownlinkFrame<M>,
    downlink_id: u32,
    payload: DownlinkPayload,
    power: i32,
    modulation: M,
    context: Seq<u8>,
) -> bool {
    &&& frame.downlink_id == downlink_id
    &&& frame.items@.len() == 1
    &&& frame.items@[0].phy_payload@ == payload.phy_payload@
    &&& frame.items@[0].tx_info matches Some(tx) && {
        &&& tx.frequency == payload.metadata.frequency
        &&& tx.power == power
        &&& tx.modulation == Some(modulation)
        &&& tx.timing == Some(Timing::Delay(Some(payload.metadata.delay as i64)))
        &&& tx.context@ == context
    }
}

/// What stands in the way of handing a downlink to its device.
pub open spec fn delivery_failure<M, E>(
    state: MeshState,
    uplink_id: u16,
    power: Result<i32, E>,
    modulation: Result<M, E>,
    gateway_id: Result<[u8; 8], E>,
) -> Option<Failure<E>> {
    if power is Err {
        Some(Failure::Service(power->Err_0))
    } else if modulation is Err {
        Some(Failure::Service(modulation->Err_0))
    } else if !state.stored().contains_key(uplink_id) {
        Some(Failure::Mesh(MeshError::NoUplinkContext(uplink_id)))
    } else if gateway_id is Err {
        Some(Failure::Service(gateway_id->Err_0))
    } else {
        None
    }
}

/// The frame that hands a downlink to its device. `power` and `modulation` are
/// what its codes stand for.
pub fn delivery_frame<M, E>(
    state: &MeshState,
    downlink_id: u32,
    payload: &DownlinkPayload,
    power: Result<i32, E>,
    modulation: Result<M, E>,
    gateway_id: Result<[u8; 8], E>,
) -> (res: Result<DownlinkFrame<M>, Failure<E>>)
    ensures
        match res {
            Ok(frame) => {
                let uplink_id = payload.metadata.uplink_id;
                &&& delivery_failure(*state, uplink_id, power, modulation, gateway_id) is None
                &&& frame.gateway_id@ == hexadecimal::hex_text(gateway_id->Ok_0@)
                &&& is_delivery(
                    frame,
                    downlink_id,
                    *payload,
                    power->Ok_0,
                    modulation->Ok_0,
                    state.stored()[uplink_id],
                )
            },
            Err(e) => delivery_failure(
                *state,
                payload.metadata.uplink_id,
                power,
                modulation,
                gateway_id,
            ) == Some(e),
        },
{
    let power: i32 = match power {
        Ok(power) => power,
        Err(e) => return Err(Failure::Service(e)),
    };
    let modulation = match modulation {
        Ok(modulation) => modulation,
        Err(e) => return Err(Failure::Service(e)),
    };
    let context = match get_uplink_context(state, payload.metadata.uplink_id) {
        Ok(context) => context,
        Err(e) => return Err(Failure::Mesh(e)),
    };
    let gateway_id = match gateway_id {
        Ok(gateway_id) => gateway_id,
        Err(e) => return Err(Failure::Service(e)),
    };
    let mut items = Vec::new();
    items.push(
        DownlinkFrameItem {
            phy_payload: slice_to_vec(payload.phy_payload.as_slice()),
            tx_info: Some(
                DownlinkTxInfo {
                    frequency: payload.metadata.frequency,
                    power,
                    modulation: Some(modulation),
                    timing: Some(Timing::Delay(Some(payload.metadata.delay as i64))),
                    context,
                },
            ),
        },
    );
    Ok(DownlinkFrame { downlink_id, gateway_id: encode(gateway_id.as_slice()), items })
}

/// The frame that hands a downlink to its device, under an identifier of its own.
pub fn new_delivery_frame<M, E>(
    state: &MeshState,
    payload: &DownlinkPayload,
    power: Result<i32, E>,
    modulation: Result<M, E>,
    gateway_id: Result<[u8; 8], E>,
) -> (res: Result<DownlinkFrame<M>, Failure<E>>)
    ensures
        match res {
            Ok(frame) => {
                let uplink_id = payload.metadata.uplink_id;
                &&& delivery_failure(*state, uplink_id, power, modulation, gateway_id) is None
                &&& frame.gateway_id@ == hexadecimal::hex_text(gateway_id->Ok_0@)
                &&& is_delivery(
                    frame,
                    frame.downlink_id,
                    *payload,
                    power->Ok_0,
                    modulation->Ok_0,
                    state.stored()[uplink_id],
                )
            },
            Err(e) => delivery_failure(
                *state,
                payload.metadata.uplink_id,
                power,
                modulation,
                gateway_id,
            ) == Some(e),
        },
{
    delivery_frame(state, random_id(), payload, power, modulation, gateway_id)
}

/// A downlink finds its way back: the context that the border gateway gives an
/// uplink leads the answer into the mesh, to the relay that received the uplink,
/// under the identifier of the uplink.
pub proof fn downlink_returns_to_its_relay<M>(
    item: DownlinkFrameItem<M>,
    relay_id: [u8; 4],
    uplink_id: u16,
)
    requires
        item.tx_info is Some,
        item.tx_info->0.modulation is Some,
        item.tx_info->0.timing matches Some(Timing::Delay(_)),
        item.tx_info->0.context@ == context_bytes(relay_id, uplink_id),
    ensures
        is_mesh_context(item.tx_info->0.context@),
        item_gap(item) is None,
        item_target(item.tx_info->0).relay_id == relay_id,
        item_target(item.tx_info->0).uplink_id == uplink_id,
{
    context_reads_back(relay_id, uplink_id);
}

/// The relay hands the answer to an uplink on with the context that the uplink
/// came with, as long as fewer than 4096 uplinks came after it.
pub proof fn answer_gets_the_context_of_its_uplink(
    stored: Map<u16, Seq<u8>>,
    id: u16,
    context: Seq<u8>,
    later: Seq<Seq<u8>>,
)
    requires
        id <= mesh::MAX_UPLINK_ID,
        later.len() <= mesh::MAX_UPLINK_ID,
    ensures
        mesh::stored_after(stored.insert(id, context), id, later).contains_key(id),
        mesh::stored_after(stored.insert(id, context), id, later)[id] == context,
{
    mesh::kept_context_is_found_again(stored.insert(id, context), id, later);
}

/// Of the items at most one is sent, and none is tried after it.
pub proof fn at_most_one_item_is_sent(count: nat, outcomes: Seq<bool>, i: int, j: int)
    requires
        forall|k: int| 0 <= k < outcomes.len() - 1 ==> !#[trigger] outcomes[k],
        outcomes.len() <= count,
        0 <= i < count,
        0 <= j < count,
        statuses(count, outcomes)[i] == TxAckStatus::Success,
        i != j,
    ensures
        statuses(count, outcomes)[j] == if j < i {
            TxAckStatus::InternalError
        } else {
            TxAckStatus::Ignored
        },
{
    assert(i == outcomes.len() - 1);
}

/// An item is read as it stands: the frequency and the power that it asks for, and its delay
/// in seconds where a byte holds it. A delay that is not given is none.
pub proof fn target_is_what_the_item_asks_for<M>(tx_info: DownlinkTxInfo<M>)
    ensures
        ({
            let target = item_target(tx_info);
            &&& target.frequency == tx_info.frequency
            &&& target.power == tx_info.power
            &&& tx_info.timing matches Some(Timing::Delay(Some(seconds))) ==> (0 <= seconds < 0x100
                ==> target.delay == seconds)
            &&& tx_info.timing == Some(Timing::Delay(None)) ==> target.delay == 0
        }),
{
    if let Some(Timing::Delay(Some(seconds))) = tx_info.timing {
        narrow::cut_numbers_are_congruent(0, seconds);
    }
}

/// An item can be sent into the mesh exactly where it tells how to send it, after a delay and
/// with a context that names a relay.
pub proof fn complete_items_are_sent<M>(item: DownlinkFrameItem<M>)
    ensures
        item_gap(item) is None <==> {
            &&& item.tx_info is Some
            &&& item.tx_info->0.modulation is Some
            &&& item.tx_info->0.timing is Some
            &&& item.tx_info->0.timing->0 is Delay
            &&& item.tx_info->0.context@.len() >= 9
        },
{
}

/// Only contexts that were made in the mesh lead into it: those of nine bytes that begin with
/// the mark.
pub proof fn mesh_contexts_have_the_mark(ctx: Seq<u8>)
    ensures
        is_mesh_context(ctx) <==> ctx.len() == 9 && ctx[0] == 1 && ctx[1] == 2 && ctx[2] == 3,
{
    assert(CTX_PREFIX@ =~= seq![1u8, 2, 3]);
    if ctx.len() == 9 {
        if ctx[0] == 1 && ctx[1] == 2 && ctx[2] == 3 {
            assert(ctx.take(3) =~= CTX_PREFIX@);
        } else {
            assert(ctx.take(3)[0] == ctx[0]);
            assert(ctx.take(3)[1] == ctx[1]);
            assert(ctx.take(3)[2] == ctx[2]);
        }
    }
}

/// The status of an item tells what became of it: sent, failed, or never tried.
pub proof fn status_tells_the_outcome(count: nat, outcomes: Seq<bool>, i: int)
    requires
        0 <= i < count,
        outcomes.len() <= count,
    ensures
        statuses(count, outcomes).len() == count,
        statuses(count, outcomes)[i] == TxAckStatus::Success <==> i < outcomes.len()
            && outcomes[i],
        statuses(count, outcomes)[i] == TxAckStatus::InternalError <==> i < outcomes.len()
            && !outcomes[i],
        statuses(count, outcomes)[i] == TxAckStatus::Ignored <==> i >= outcomes.len(),
{
}

/// A downlink is handed over as the mesh packet asks for: one frame with its bytes, on its
/// frequency, so many seconds after the uplink as its delay says, with the context that the
/// uplink came with.
pub proof fn delivery_follows_the_packet<M>(
    frame: DownlinkFrame<M>,
    downlink_id: u32,
    payload: DownlinkPayload,
    power: i32,
    modulation: M,
    context: Seq<u8>,
)
    requires
        is_delivery(frame, downlink_id, payload, power, modulation, context),
    ensures
        frame.downlink_id == downlink_id,
        frame.items@.len() == 1,
        frame.items@[0].phy_payload@ == payload.phy_payload@,
        frame.items@[0].tx_info is Some,
        ({
            let tx = frame.items@[0].tx_info->0;
            &&& tx.frequency == payload.metadata.frequency
            &&& tx.power == power
            &&& tx.modulation == Some(modulation)
            &&& tx.timing matches Some(Timing::Delay(Some(seconds))) && seconds
                == payload.metadata.delay
            &&& tx.context@ == context
        }),
{
}

/// A downlink can be handed over exactly where its codes stand for something, the context of
/// its uplink is still kept and the gateway is known.
pub proof fn known_downlinks_are_delivered<M, E>(
    state: MeshState,
    uplink_id: u16,
    power: Result<i32, E>,
    modulation: Result<M, E>,
    gateway_id: Result<[u8; 8], E>,
)
    ensures
        delivery_failure(state, uplink_id, power, modulation, gateway_id) is None <==> {
            &&& power is Ok
            &&& modulation is Ok
            &&& gateway_id is Ok
            &&& state.stored().contains_key(uplink_id)
        },
{
}

} // verus!
