//! Commands of the network server for a relay.
use crate::frames::MeshCommand;
use crate::frames::ProprietaryCommand;
use crate::hexadecimal;
use crate::hexadecimal::parse_relay;
use crate::mesh::MeshError;
use crate::packets;
use crate::packets::Command;
use crate::packets::CommandPayload;
use crate::packets::CommandView;
use crate::packets::MeshPacket;
use crate::packets::Mhdr;
use crate::packets::Payload;
use crate::packets::PayloadType;
use crate::packets::Timestamp;
use vstd::prelude::*;
use vstd::slice::slice_to_vec;
use vstd::string::*;

verus! {

/// The commands that a list of items holds. Of the type, the low byte counts.
pub open spec fn commands_of(items: Seq<Option<ProprietaryCommand>>) -> Seq<CommandView>
    decreases items.len(),
{
    if items.len() == 0 {
        Seq::empty()
    } else {
        match items.last() {
            Some(c) => commands_of(items.drop_last()).push(
                CommandView::Proprietary((c.command_type % 0x100) as u8, c.payload@),
            ),
            None => commands_of(items.drop_last()),
        }
    }
}

fn collect_commands(items: &Vec<Option<ProprietaryCommand>>) -> (commands: Vec<Command>)
    ensures
        packets::command_views(commands@) == commands_of(items@),
{
    let ghost all = items@;
    let mut commands: Vec<Command> = Vec::new();
    let mut i: usize = 0;
    assert(packets::command_views(commands@) =~= Seq::<CommandView>::empty());
    while i < items.len()
        invariant
            all == items@,
            i <= all.len(),
            packets::command_views(commands@) == commands_of(all.take(i as int)),
        decreases all.len() - i,
    {
        let ghost before = commands@;
        proof {
            assert(all.take(i + 1).drop_last() =~= all.take(i as int));
            assert(all.take(i + 1).last() == all[i as int]);
        }
        if let Some(c) = &items[i] {
            let command = Command::Proprietary(
                (c.command_type % 0x100) as u8,
                slice_to_vec(c.payload.as_slice()),
            );
            commands.push(command);
            assert(packets::command_views(commands@) =~= packets::command_views(before).push(
                command@,
            ));
        }
        i = i + 1;
    }
    assert(all.take(all.len() as int) =~= all);
    commands
}

/// The packet that carries commands to a relay. It has to be encrypted and signed
/// before it is sent.
pub fn send_mesh_command(pl: &MeshCommand, timestamp: Timestamp) -> (res: Result<
    MeshPacket,
    MeshError,
>)
    ensures
        match res {
            Ok(packet) => {
                &&& packet.mhdr == (Mhdr { payload_type: PayloadType::Command, hop_count: 1 })
                &&& packet.mic is None
                &&& packet.payload matches Payload::Command(c) && {
                    &&& c.timestamp == timestamp
                    &&& hexadecimal::decodes_to(encoded(pl.relay_id@), Ok(c.relay_id))
                    &&& packets::command_views(c.commands@) == commands_of(pl.commands@)
                }
            },
            Err(e) => e matches MeshError::InvalidRelayId(h) && hexadecimal::decodes_to(
                encoded(pl.relay_id@),
                Err(h),
            ),
        },
{
    let relay_id = match parse_relay(pl.relay_id.as_str()) {
        Ok(id) => id,
        Err(e) => return Err(MeshError::InvalidRelayId(e)),
    };
    Ok(
        MeshPacket {
            mhdr: Mhdr { payload_type: PayloadType::Command, hop_count: 1 },
            payload: Payload::Command(
                CommandPayload { timestamp, relay_id, commands: collect_commands(&pl.commands) },
            ),
            mic: None,
        },
    )
}

/// The UTF-8 form of a text.
pub open spec fn encoded(text: Seq<char>) -> Seq<u8> {
    vstd::utf8::encode_utf8(text)
}

/// Each item that holds a command gives one, in the order of the items and with its payload.
/// Items that hold none give none.
pub proof fn commands_keep_their_order(
    first: Seq<Option<ProprietaryCommand>>,
    rest: Seq<Option<ProprietaryCommand>>,
)
    ensures
        commands_of(first + rest) == commands_of(first) + commands_of(rest),
        rest.len() == 1 && rest[0] is None ==> commands_of(rest).len() == 0,
        rest.len() == 1 && rest[0] is Some ==> commands_of(rest).len() == 1 && (commands_of(
            rest,
        )[0] matches CommandView::Proprietary(kind, payload) && {
            &&& payload == rest[0]->0.payload@
            &&& (rest[0]->0.command_type - kind) % 0x100 == 0
            &&& rest[0]->0.command_type < 0x100 ==> kind == rest[0]->0.command_type
        }),
    decreases rest.len(),
{
    if rest.len() == 0 {
        assert(first + rest =~= first);
        assert(commands_of(first) + commands_of(rest) =~= commands_of(first));
    } else {
        let front = rest.drop_last();
        commands_keep_their_order(first, front);
        assert((first + rest).drop_last() =~= first + front);
        assert((first + rest).last() == rest.last());
        assert(commands_of(first + rest) =~= commands_of(first) + commands_of(rest));
        if rest.len() == 1 {
            assert(front =~= Seq::<Option<ProprietaryCommand>>::empty());
            assert(commands_of(front).len() == 0);
        }
    }
}

} // verus!
