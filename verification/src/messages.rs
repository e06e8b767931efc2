//! Messages exchanged between the simulator backend and the browser frontend.

use vstd::prelude::*;

verus! {

/// A message sent over the websocket between the backend and the frontend.
#[derive(Debug, Clone, Copy, PartialEq, Eq, Structural)]
pub enum SimMessage {
    /// The frontend announces that it has started.
    FrontendStarted(FrontendStarted),
    /// The coprocessor asked to switch the debug LED on or off.
    SetDebugLed(SetDebugLed),
    /// The coprocessor asked to set the colour of the RGB LED.
    SetRgbLed(SetRgbLed),
    /// The user pressed the simulated button.
    ReportButtonPress,
}

/// Payload of [`SimMessage::FrontendStarted`].
#[derive(Debug, Clone, Copy, PartialEq, Eq, Structural)]
pub struct FrontendStarted {}

/// Payload of [`SimMessage::SetDebugLed`].
#[derive(Debug, Clone, Copy, PartialEq, Eq, Structural)]
pub struct SetDebugLed {
    pub new_state: bool,
}

/// Payload of [`SimMessage::SetRgbLed`].
#[derive(Debug, Clone, Copy, PartialEq, Eq, Structural)]
pub struct SetRgbLed {
    pub r: u8,
    pub g: u8,
    pub b: u8,
}

} // verus!
