//! Data model of the two legacy macro-recorder formats whose scripts are
//! converted into workflow schemas, and the small decisions made on them.
//! Reading and writing the files, and the serialized field spellings,
//! live with the application around the library.

use vstd::prelude::*;

verus! {

/// How a keyboard key is driven.
#[derive(Clone, Copy, PartialEq, Eq, Structural, Debug)]
pub enum KeyBoardKeyMode {
    Down,
    Up,
}

/// Mouse gestures of the first recorder format.
#[derive(Clone, Copy, PartialEq, Eq, Structural, Debug)]
pub enum MouseAction {
    LeftDown,
    LeftUp,
    RightDown,
    RightUp,
    Move,
}

/// Coordinates of a mouse gesture: either percentages of the screen kept
/// as the recorder wrote them, or the current position marker.
#[derive(Clone, PartialEq, Eq, Debug)]
pub enum MouseActionParam {
    Percent([String; 2]),
    CurrentPosition([i32; 2]),
}

/// Keyboard gestures of the first recorder format.
#[derive(Clone, Copy, PartialEq, Eq, Structural, Debug)]
pub enum KeyAction {
    KeyDown,
    KeyUp,
}

impl KeyAction {
    /// The key mode a gesture maps to.
    pub open spec fn key_mode_spec(self) -> KeyBoardKeyMode {
        match self {
            KeyAction::KeyDown => KeyBoardKeyMode::Down,
            KeyAction::KeyUp => KeyBoardKeyMode::Up,
        }
    }

    /// Maps the gesture onto the key mode that drives it.
    pub fn to_key_mode(&self) -> (r: KeyBoardKeyMode)
        ensures
            r == self.key_mode_spec(),
    {
        match self {
            KeyAction::KeyDown => KeyBoardKeyMode::Down,
            KeyAction::KeyUp => KeyBoardKeyMode::Up,
        }
    }
}

/// Payload of a keyboard gesture: key code, character and modifier flag,
/// kept as the recorder wrote them.
pub enum KeyActionParam {
    Key(Vec<serde_json::Value>),
}

/// One recorded event of the first format: mouse, keyboard, or an
/// extension entry carried verbatim.
pub enum Event {
    EM { delay: u64, action_type: MouseAction, action: MouseActionParam },
    EK { delay: u64, action_type: KeyAction, action: KeyActionParam },
    EX { delay: u64, action_type: String, action: String },
}

/// A whole recorded script of the first format.
pub struct Script {
    pub scripts: Vec<Event>,
}

/// One action of the second recorder format; which fields matter depends
/// on `kind`.
#[derive(Clone, PartialEq, Eq, Debug)]
pub struct Action {
    pub kind: i32,
    pub dis: bool,
    pub mark: String,
    pub min: Option<i32>,
    pub max: Option<i32>,
    pub v_min: Option<String>,
    pub v_max: Option<String>,
    pub ms: Option<i32>,
    pub ex: Option<i32>,
    pub vk: Option<i32>,
    pub state: Option<i32>,
    pub move_flag: Option<bool>,
    pub track: Option<bool>,
    pub speed: Option<i32>,
    pub x: Option<i32>,
    pub y: Option<i32>,
}

/// Action kind marking the end of a script.
pub const ACTION_END: i32 = 1;

/// Action kind of a delay step.
pub const ACTION_DELAY: i32 = 2;

/// Action kind of a key step.
pub const ACTION_KEY: i32 = 3;

} // verus!
