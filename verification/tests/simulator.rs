use megabit_coproc_simulator::messages::{FrontendStarted, SetDebugLed, SetRgbLed, SimMessage};
use megabit_coproc_simulator::simulator::{handle_serial_message, handle_ws_message, SerialOutcome};

#[test]
fn debug_led_on_and_off() {
    assert_eq!(
        handle_serial_message(&[0xde, 0x00, 0x01]),
        SerialOutcome {
            to_frontend: Some(SimMessage::SetDebugLed(SetDebugLed { new_state: true })),
            reply: Some(vec![0xde, 0x01, 0x00]),
        }
    );
    assert_eq!(
        handle_serial_message(&[0xde, 0x00, 0x00, 0x55]),
        SerialOutcome {
            to_frontend: Some(SimMessage::SetDebugLed(SetDebugLed { new_state: false })),
            reply: Some(vec![0xde, 0x01, 0x00]),
        }
    );
}

#[test]
fn rgb_led() {
    assert_eq!(
        handle_serial_message(&[0xde, 0x02, 10, 20, 30]),
        SerialOutcome {
            to_frontend: Some(SimMessage::SetRgbLed(SetRgbLed { r: 10, g: 20, b: 30 })),
            reply: Some(vec![0xde, 0x03, 0x00]),
        }
    );
}

#[test]
fn ignored_packets() {
    let none = SerialOutcome { to_frontend: None, reply: None };
    assert_eq!(handle_serial_message(&[]), none);
    assert_eq!(handle_serial_message(&[0xde]), none);
    assert_eq!(handle_serial_message(&[0xde, 0x00]), none);
    assert_eq!(handle_serial_message(&[0xde, 0x02, 1, 2]), none);
    assert_eq!(handle_serial_message(&[0xad, 0x00, 0x01]), none);
    assert_eq!(handle_serial_message(&[0xde, 0x05, 1, 2, 3]), none);
    assert_eq!(handle_serial_message(&[0xde, 0x01, 0x00]), none);
}

#[test]
fn frontend_messages() {
    assert_eq!(handle_ws_message(&SimMessage::ReportButtonPress), Some(vec![0xde, 0x04]));
    assert_eq!(handle_ws_message(&SimMessage::FrontendStarted(FrontendStarted {})), None);
    assert_eq!(
        handle_ws_message(&SimMessage::SetDebugLed(SetDebugLed { new_state: true })),
        None
    );
    assert_eq!(handle_ws_message(&SimMessage::SetRgbLed(SetRgbLed { r: 1, g: 2, b: 3 })), None);
}

#[test]
fn every_acknowledgement_is_command_plus_one() {
    for cmd in 0..=255u8 {
        let out = handle_serial_message(&[0xde, cmd, 1, 2, 3]);
        assert_eq!(out.to_frontend.is_some(), out.reply.is_some());
        if let Some(reply) = out.reply {
            assert_eq!(reply, vec![0xde, cmd + 1, 0]);
        }
    }
}
