//! The simulator's decisions: what it does with a packet from the
//! coprocessor, and with a message from the frontend.

use vstd::prelude::*;
use crate::messages::{SetDebugLed, SetRgbLed, SimMessage};

verus! {

/// First byte of every packet of the command protocol.
pub const PACKET_PREFIX: u8 = 0xde;

/// Command: switch the debug LED; one more byte follows, zero for off.
pub const CMD_SET_DEBUG_LED: u8 = 0x00;

/// Acknowledgement of [`CMD_SET_DEBUG_LED`].
pub const ACK_SET_DEBUG_LED: u8 = 0x01;

/// Command: set the RGB LED; the red, green and blue bytes follow.
pub const CMD_SET_RGB_LED: u8 = 0x02;

/// Acknowledgement of [`CMD_SET_RGB_LED`].
pub const ACK_SET_RGB_LED: u8 = 0x03;

/// Notification sent to the coprocessor: the user button was pressed.
pub const CMD_BUTTON_PRESSED: u8 = 0x04;

/// What the simulator does with one packet from the coprocessor: the message
/// it forwards to the frontend, and the reply it sends back over the serial
/// line.
#[derive(Debug, PartialEq, Eq)]
pub struct SerialOutcome {
    pub to_frontend: Option<SimMessage>,
    pub reply: Option<Vec<u8>>,
}

/// The message forwarded to the frontend, and the reply to the coprocessor,
/// for the packet `msg`: a debug LED command needs at least three bytes, an RGB
/// LED command at least five; any other packet is ignored.
pub open spec fn serial_outcome(msg: Seq<u8>) -> (Option<SimMessage>, Option<Seq<u8>>) {
    if msg.len() >= 3 && msg[0] == PACKET_PREFIX && msg[1] == CMD_SET_DEBUG_LED {
        (
            Some(SimMessage::SetDebugLed(SetDebugLed { new_state: msg[2] != 0 })),
            Some(seq![PACKET_PREFIX, ACK_SET_DEBUG_LED, 0u8]),
        )
    } else if msg.len() >= 5 && msg[0] == PACKET_PREFIX && msg[1] == CMD_SET_RGB_LED {
        (
            Some(SimMessage::SetRgbLed(SetRgbLed { r: msg[2], g: msg[3], b: msg[4] })),
            Some(seq![PACKET_PREFIX, ACK_SET_RGB_LED, 0u8]),
        )
    } else {
        (None, None)
    }
}

/// The packet sent to the coprocessor for a message from the frontend: only
/// a button press is passed on.
pub open spec fn frontend_outcome(msg: SimMessage) -> Option<Seq<u8>> {
    match msg {
        SimMessage::ReportButtonPress => Some(seq![PACKET_PREFIX, CMD_BUTTON_PRESSED]),
        _ => None,
    }
}

/// Decides what to do with one packet received from the coprocessor.
pub fn handle_serial_message(msg: &[u8]) -> (out: SerialOutcome)
    ensures
        (out.to_frontend, out.reply.deep_view()) == serial_outcome(msg@),
        msg@.len() >= 3 && msg@[0] == 0xde && msg@[1] == 0x00 ==> out.to_frontend == Some(
            SimMessage::SetDebugLed(SetDebugLed { new_state: msg@[2] != 0 }),
        ) && out.reply.deep_view() == Some(seq![0xdeu8, 0x01u8, 0x00u8]),
        msg@.len() >= 5 && msg@[0] == 0xde && msg@[1] == 0x02 ==> out.to_frontend == Some(
            SimMessage::SetRgbLed(SetRgbLed { r: msg@[2], g: msg@[3], b: msg@[4] }),
        ) && out.reply.deep_view() == Some(seq![0xdeu8, 0x03u8, 0x00u8]),
        !(msg@.len() >= 3 && msg@[0] == 0xde && (msg@[1] == 0x00 || (msg@[1] == 0x02
            && msg@.len() >= 5))) ==> out.to_frontend is None && out.reply is None,
{
    let len = msg.len();
    if len >= 3 && msg[0] == PACKET_PREFIX && msg[1] == CMD_SET_DEBUG_LED {
        let new_state = msg[2] != 0;
        let reply = vec![PACKET_PREFIX, ACK_SET_DEBUG_LED, 0u8];
        proof {
            assert(reply@ =~= seq![PACKET_PREFIX, ACK_SET_DEBUG_LED, 0u8]);
        }
        SerialOutcome {
            to_frontend: Some(SimMessage::SetDebugLed(SetDebugLed { new_state })),
            reply: Some(reply),
        }
    } else if len >= 5 && msg[0] == PACKET_PREFIX && msg[1] == CMD_SET_RGB_LED {
        let reply = vec![PACKET_PREFIX, ACK_SET_RGB_LED, 0u8];
        proof {
            assert(reply@ =~= seq![PACKET_PREFIX, ACK_SET_RGB_LED, 0u8]);
        }
        SerialOutcome {
            to_frontend: Some(
                SimMessage::SetRgbLed(SetRgbLed { r: msg[2], g: msg[3], b: msg[4] }),
            ),
            reply: Some(reply),
        }
    } else {
        SerialOutcome { to_frontend: None, reply: None }
    }
}

/// Decides what to send to the coprocessor for one message from the frontend.
pub fn handle_ws_message(msg: &SimMessage) -> (packet: Option<Vec<u8>>)
    ensures
        packet.deep_view() == frontend_outcome(*msg),
        *msg is ReportButtonPress ==> packet.deep_view() == Some(seq![0xdeu8, 0x04u8]),
        !(*msg is ReportButtonPress) ==> packet is None,
{
    match msg {
        SimMessage::ReportButtonPress => {
            let packet = vec![PACKET_PREFIX, CMD_BUTTON_PRESSED];
            proof {
                assert(packet@ =~= seq![PACKET_PREFIX, CMD_BUTTON_PRESSED]);
            }
            Some(packet)
        },
        _ => None,
    }
}

/// A command from the coprocessor is acknowledged exactly when it is passed
/// on to the frontend, and the acknowledgement is the three bytes: the
/// packet prefix, the command's code plus one, and zero.
pub proof fn lemma_commands_acknowledged(msg: Seq<u8>)
    ensures
        serial_outcome(msg).0 is Some <==> serial_outcome(msg).1 is Some,
        serial_outcome(msg).1 matches Some(reply) ==> {
            &&& msg.len() >= 2
            &&& reply =~= seq![PACKET_PREFIX, (msg[1] + 1) as u8, 0u8]
        },
{
}

/// A packet of the command protocol that does not start with the prefix is
/// ignored.
pub proof fn lemma_foreign_packets_ignored(msg: Seq<u8>)
    requires
        msg.len() == 0 || msg[0] != PACKET_PREFIX,
    ensures
        serial_outcome(msg) == (None::<SimMessage>, None::<Seq<u8>>),
{
}

/// A set-RGB-LED packet passes its three colour bytes on unchanged, whatever
/// bytes follow them, and is acknowledged with `de 03 00`.
pub proof fn lemma_rgb_colour_passed_on(msg: Seq<u8>)
    requires
        msg.len() >= 5,
        msg[0] == 0xde,
        msg[1] == 0x02,
    ensures
        serial_outcome(msg).0 == Some(
            SimMessage::SetRgbLed(SetRgbLed { r: msg[2], g: msg[3], b: msg[4] }),
        ),
        serial_outcome(msg).1 == Some(seq![0xdeu8, 0x03u8, 0x00u8]),
        serial_outcome(msg) == serial_outcome(msg.take(5)),
{
    assert(msg.take(5)[2] == msg[2]);
}

/// A set-debug-LED packet switches the LED on exactly when its state byte is
/// not zero, whatever bytes follow it, and is acknowledged with `de 01 00`.
pub proof fn lemma_debug_led_follows_state_byte(msg: Seq<u8>)
    requires
        msg.len() >= 3,
        msg[0] == 0xde,
        msg[1] == 0x00,
    ensures
        serial_outcome(msg).0 == Some(SimMessage::SetDebugLed(SetDebugLed { new_state: msg[2] != 0 })),
        msg[2] == 0 ==> serial_outcome(msg).0 == Some(
            SimMessage::SetDebugLed(SetDebugLed { new_state: false }),
        ),
        msg[2] != 0 ==> serial_outcome(msg).0 == Some(
            SimMessage::SetDebugLed(SetDebugLed { new_state: true }),
        ),
        serial_outcome(msg).1 == Some(seq![0xdeu8, 0x01u8, 0x00u8]),
        serial_outcome(msg) == serial_outcome(msg.take(3)),
{
    assert(msg.take(3)[2] == msg[2]);
}

/// Only a button press from the frontend reaches the coprocessor, as the two
/// bytes `de 04`.
pub proof fn lemma_only_button_press_forwarded(msg: SimMessage)
    ensures
        frontend_outcome(msg) is Some <==> msg is ReportButtonPress,
        msg is ReportButtonPress ==> frontend_outcome(msg) == Some(seq![0xdeu8, 0x04u8]),
{
}

} // verus!
