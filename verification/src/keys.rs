//! Keyboard and mouse state of the viewer: which movement keys are held,
//! how a key event changes them, and which camera moves a tick makes.

use vstd::prelude::*;

verus! {

/// Flag of the key that moves forward.
pub const KEY_FORWARD: u32 = 1;
/// Flag of the key that moves back.
pub const KEY_BACK: u32 = 2;
/// Flag of the key that strafes left.
pub const KEY_MOVE_LEFT: u32 = 4;
/// Flag of the key that strafes right.
pub const KEY_MOVE_RIGHT: u32 = 8;
/// Flag of the key that turns left.
pub const KEY_LEFT: u32 = 16;
/// Flag of the key that turns right.
pub const KEY_RIGHT: u32 = 32;
/// Flag of the key that looks up.
pub const KEY_UP: u32 = 64;
/// Flag of the key that looks down.
pub const KEY_DOWN: u32 = 128;
/// Flag of the key that speeds moves up.
pub const KEY_SHIFT: u32 = 256;
/// Flag of the key that slows moves down.
pub const KEY_CONTROL: u32 = 512;
/// All the key flags together.
pub const KEY_ALL: u32 = 1023;

/// The set of keys held down, one bit per key flag.
#[derive(Clone, Copy, PartialEq, Eq, Structural)]
pub struct Key {
    pub bits: u32,
}

impl Key {
    /// No key held.
    pub fn empty() -> (res: Key)
        ensures
            res.bits == 0,
    {
        Key { bits: 0 }
    }

    /// The keys of one flag value.
    pub fn from_flag(flag: u32) -> (res: Key)
        ensures
            res.bits == flag,
    {
        Key { bits: flag }
    }

    /// Whether every key of `other` is held.
    pub fn contains(&self, other: Key) -> (res: bool)
        ensures
            res == (self.bits & other.bits == other.bits),
    {
        self.bits & other.bits == other.bits
    }

    /// The keys held in either set.
    pub fn union(&self, other: Key) -> (res: Key)
        ensures
            res.bits == self.bits | other.bits,
    {
        Key { bits: self.bits | other.bits }
    }

    /// The keys held in both sets.
    pub fn intersection(&self, other: Key) -> (res: Key)
        ensures
            res.bits == self.bits & other.bits,
    {
        Key { bits: self.bits & other.bits }
    }

    /// The known keys that are not in the set.
    pub fn complement(&self) -> (res: Key)
        ensures
            res.bits == !self.bits & KEY_ALL,
    {
        Key { bits: !self.bits & KEY_ALL }
    }
}

/// The physical keys that the viewer reacts to.
#[derive(Clone, Copy, PartialEq, Eq, Structural)]
pub enum KeyCode {
    KeyW,
    KeyS,
    KeyA,
    KeyD,
    ArrowLeft,
    ArrowRight,
    ArrowUp,
    ArrowDown,
    ShiftLeft,
    ControlLeft,
    KeyQ,
    /// Any other key, or a key that has no code.
    Other,
}

/// The flag that a key code holds down, if any.
pub open spec fn spec_key_flag(code: KeyCode) -> Option<u32> {
    match code {
        KeyCode::KeyW => Some(KEY_FORWARD),
        KeyCode::KeyS => Some(KEY_BACK),
        KeyCode::KeyA => Some(KEY_MOVE_LEFT),
        KeyCode::KeyD => Some(KEY_MOVE_RIGHT),
        KeyCode::ArrowLeft => Some(KEY_LEFT),
        KeyCode::ArrowRight => Some(KEY_RIGHT),
        KeyCode::ArrowUp => Some(KEY_UP),
        KeyCode::ArrowDown => Some(KEY_DOWN),
        KeyCode::ShiftLeft => Some(KEY_SHIFT),
        KeyCode::ControlLeft => Some(KEY_CONTROL),
        KeyCode::KeyQ => None,
        KeyCode::Other => None,
    }
}

/// The flag that a key code holds down, if any.
pub fn key_flag(code: KeyCode) -> (res: Option<u32>)
    ensures
        res == spec_key_flag(code),
        code == KeyCode::KeyW ==> res == Some(KEY_FORWARD),
        code == KeyCode::KeyS ==> res == Some(KEY_BACK),
        code == KeyCode::KeyA ==> res == Some(KEY_MOVE_LEFT),
        code == KeyCode::KeyD ==> res == Some(KEY_MOVE_RIGHT),
        code == KeyCode::ArrowLeft ==> res == Some(KEY_LEFT),
        code == KeyCode::ArrowRight ==> res == Some(KEY_RIGHT),
        code == KeyCode::ArrowUp ==> res == Some(KEY_UP),
        code == KeyCode::ArrowDown ==> res == Some(KEY_DOWN),
        code == KeyCode::ShiftLeft ==> res == Some(KEY_SHIFT),
        code == KeyCode::ControlLeft ==> res == Some(KEY_CONTROL),
        (code == KeyCode::KeyQ || code == KeyCode::Other) ==> res is None,
{
    match code {
        KeyCode::KeyW => Some(KEY_FORWARD),
        KeyCode::KeyS => Some(KEY_BACK),
        KeyCode::KeyA => Some(KEY_MOVE_LEFT),
        KeyCode::KeyD => Some(KEY_MOVE_RIGHT),
        KeyCode::ArrowLeft => Some(KEY_LEFT),
        KeyCode::ArrowRight => Some(KEY_RIGHT),
        KeyCode::ArrowUp => Some(KEY_UP),
        KeyCode::ArrowDown => Some(KEY_DOWN),
        KeyCode::ShiftLeft => Some(KEY_SHIFT),
        KeyCode::ControlLeft => Some(KEY_CONTROL),
        KeyCode::KeyQ => None,
        KeyCode::Other => None,
    }
}

/// The keys held after a key event: pressing a movement key adds its
/// flag, releasing it removes the flag (and any unknown bit); other keys
/// change nothing.
pub open spec fn spec_handle_keyboard_input(keys: Key, code: KeyCode, pressed: bool) -> Key {
    match spec_key_flag(code) {
        Some(f) => if pressed {
            Key { bits: keys.bits | f }
        } else {
            Key { bits: keys.bits & (!f & KEY_ALL) }
        },
        None => keys,
    }
}

/// Updates the held keys for a key event. Pressing `Q` quits the viewer,
/// so that event is for the caller to handle.
pub fn handle_keyboard_input(keys: Key, code: KeyCode, pressed: bool) -> (res: Key)
    requires
        !(code == KeyCode::KeyQ && pressed),
    ensures
        res == spec_handle_keyboard_input(keys, code, pressed),
{
    match key_flag(code) {
        Some(f) => {
            let flag = Key::from_flag(f);
            if pressed {
                keys.union(flag)
            } else {
                keys.intersection(flag.complement())
            }
        },
        None => keys,
    }
}

/// Each key holds down its own movement: pressing `W`, `S`, `A`, `D`
/// moves forward, back, left and right; the arrows turn left and right
/// and look up and down; left shift and control speed up and slow down.
/// Whatever keys are already held, pressing one adds exactly that flag.
pub proof fn lemma_key_bindings(keys: Key)
    ensures
        spec_handle_keyboard_input(keys, KeyCode::KeyW, true).bits == keys.bits | KEY_FORWARD,
        spec_handle_keyboard_input(keys, KeyCode::KeyS, true).bits == keys.bits | KEY_BACK,
        spec_handle_keyboard_input(keys, KeyCode::KeyA, true).bits == keys.bits | KEY_MOVE_LEFT,
        spec_handle_keyboard_input(keys, KeyCode::KeyD, true).bits == keys.bits | KEY_MOVE_RIGHT,
        spec_handle_keyboard_input(keys, KeyCode::ArrowLeft, true).bits == keys.bits | KEY_LEFT,
        spec_handle_keyboard_input(keys, KeyCode::ArrowRight, true).bits == keys.bits | KEY_RIGHT,
        spec_handle_keyboard_input(keys, KeyCode::ArrowUp, true).bits == keys.bits | KEY_UP,
        spec_handle_keyboard_input(keys, KeyCode::ArrowDown, true).bits == keys.bits | KEY_DOWN,
        spec_handle_keyboard_input(keys, KeyCode::ShiftLeft, true).bits == keys.bits | KEY_SHIFT,
        spec_handle_keyboard_input(keys, KeyCode::ControlLeft, true).bits == keys.bits | KEY_CONTROL,
        spec_handle_keyboard_input(keys, KeyCode::Other, true) == keys,
        spec_handle_keyboard_input(keys, KeyCode::KeyQ, false) == keys,
{
}

/// Pressing a movement key holds it and touches no other key; releasing
/// it afterwards lets it go, again touching no other known key.
pub proof fn lemma_press_release(keys: Key, code: KeyCode)
    requires
        spec_key_flag(code) is Some,
    ensures
        ({
            let f = spec_key_flag(code).unwrap();
            let pressed = spec_handle_keyboard_input(keys, code, true);
            let released = spec_handle_keyboard_input(pressed, code, false);
            &&& pressed.bits & f == f
            &&& pressed.bits & !f == keys.bits & !f
            &&& released.bits & f == 0
            &&& released.bits & (!f & KEY_ALL) == keys.bits & (!f & KEY_ALL)
            &&& spec_handle_keyboard_input(pressed, code, true) == pressed
        }),
{
    let f = spec_key_flag(code).unwrap();
    let k = keys.bits;
    assert(f & KEY_ALL == f && f != 0) by {
        assert(f == 1 || f == 2 || f == 4 || f == 8 || f == 16 || f == 32 || f == 64 || f == 128 || f == 256 || f == 512);
        assert(f == 1u32 || f == 2u32 || f == 4u32 || f == 8u32 || f == 16u32 || f == 32u32 || f == 64u32 || f == 128u32 || f == 256u32 || f == 512u32 ==> f & 1023u32 == f && f != 0u32) by (bit_vector);
    }
    assert((k | f) & f == f) by (bit_vector);
    assert((k | f) & !f == k & !f) by (bit_vector);
    assert(((k | f) & (!f & 1023u32)) & f == 0) by (bit_vector);
    assert(((k | f) & (!f & 1023u32)) & (!f & 1023u32) == k & (!f & 1023u32)) by (bit_vector);
    assert((k | f) | f == k | f) by (bit_vector);
}

/// How much the held keys scale a move.
#[derive(Clone, Copy, PartialEq, Eq, Structural)]
pub enum SpeedMultiplier {
    /// Twice as far, while shift is held.
    Double,
    /// Half as far, while control is held and shift is not.
    Half,
    /// Unchanged.
    Normal,
}

/// Shift doubles a move; otherwise control halves it.
pub fn get_multiplier(keys: Key) -> (res: SpeedMultiplier)
    ensures
        res == (if keys.bits & KEY_SHIFT == KEY_SHIFT {
            SpeedMultiplier::Double
        } else if keys.bits & KEY_CONTROL == KEY_CONTROL {
            SpeedMultiplier::Half
        } else {
            SpeedMultiplier::Normal
        }),
{
    if keys.contains(Key::from_flag(KEY_SHIFT)) {
        SpeedMultiplier::Double
    } else if keys.contains(Key::from_flag(KEY_CONTROL)) {
        SpeedMultiplier::Half
    } else {
        SpeedMultiplier::Normal
    }
}

/// One camera move of a tick.
#[derive(Clone, Copy, PartialEq, Eq, Structural)]
pub enum CameraMove {
    Forward,
    Back,
    MoveLeft,
    MoveRight,
    Left,
    Right,
    Up,
    Down,
}

/// The flag that makes a camera move.
pub open spec fn move_flag(m: CameraMove) -> u32 {
    match m {
        CameraMove::Forward => KEY_FORWARD,
        CameraMove::Back => KEY_BACK,
        CameraMove::MoveLeft => KEY_MOVE_LEFT,
        CameraMove::MoveRight => KEY_MOVE_RIGHT,
        CameraMove::Left => KEY_LEFT,
        CameraMove::Right => KEY_RIGHT,
        CameraMove::Up => KEY_UP,
        CameraMove::Down => KEY_DOWN,
    }
}

/// All camera moves in the order in which a tick makes them.
pub open spec fn all_moves() -> Seq<CameraMove> {
    seq![
        CameraMove::Forward,
        CameraMove::Back,
        CameraMove::MoveLeft,
        CameraMove::MoveRight,
        CameraMove::Left,
        CameraMove::Right,
        CameraMove::Up,
        CameraMove::Down,
    ]
}

/// The moves among `moves` whose key is held, in order.
pub open spec fn held_moves(keys: Key, moves: Seq<CameraMove>) -> Seq<CameraMove>
    decreases moves.len(),
{
    if moves.len() == 0 {
        Seq::empty()
    } else {
        let prev = held_moves(keys, moves.drop_last());
        if keys.bits & move_flag(moves.last()) == move_flag(moves.last()) {
            prev.push(moves.last())
        } else {
            prev
        }
    }
}

/// The camera moves that a tick makes for the held keys, in order:
/// forward, back, left and right strafes, left and right turns, then up
/// and down.
pub fn interaction_tick(keys: Key) -> (res: Vec<CameraMove>)
    ensures
        res@ == held_moves(keys, all_moves()),
{
    let mut res: Vec<CameraMove> = Vec::new();
    let moves = [
        CameraMove::Forward,
        CameraMove::Back,
        CameraMove::MoveLeft,
        CameraMove::MoveRight,
        CameraMove::Left,
        CameraMove::Right,
        CameraMove::Up,
        CameraMove::Down,
    ];
    let mut i: usize = 0;
    proof {
        assert(moves@ =~= all_moves());
        assert(all_moves().take(0) =~= Seq::<CameraMove>::empty());
    }
    while i < 8
        invariant
            i <= 8,
            moves@ == all_moves(),
            res@ == held_moves(keys, all_moves().take(i as int)),
        decreases 8 - i,
    {
        let m = moves[i];
        let f = match m {
            CameraMove::Forward => KEY_FORWARD,
            CameraMove::Back => KEY_BACK,
            CameraMove::MoveLeft => KEY_MOVE_LEFT,
            CameraMove::MoveRight => KEY_MOVE_RIGHT,
            CameraMove::Left => KEY_LEFT,
            CameraMove::Right => KEY_RIGHT,
            CameraMove::Up => KEY_UP,
            CameraMove::Down => KEY_DOWN,
        };
        proof {
            assert(all_moves().take(i + 1).drop_last() =~= all_moves().take(i as int));
            assert(all_moves().take(i + 1).last() == m);
        }
        if keys.contains(Key::from_flag(f)) {
            res.push(m);
        }
        i = i + 1;
    }
    proof {
        assert(all_moves().take(8) =~= all_moves());
    }
    res
}

/// Whether the right mouse button is held after a mouse button event;
/// while it is held the cursor is hidden and locked.
pub fn handle_mouse_input(right_hold: bool, is_right_button: bool, pressed: bool) -> (res: bool)
    ensures
        res == (if is_right_button { pressed } else { right_hold }),
{
    if is_right_button {
        pressed
    } else {
        right_hold
    }
}

} // verus!
