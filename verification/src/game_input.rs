//! Turning the player's key presses into camera commands, and the debug
//! switch.
use vstd::prelude::*;

verus! {

/// What the camera keys ask for.
#[derive(Clone, Copy, Debug, PartialEq, Eq, Hash, Structural)]
pub enum CameraAction {
    PanUp,
    PanDown,
    PanLeft,
    PanRight,
    ZoomIn,
    ZoomOut,
}

/// Which camera actions are held down this frame.
#[derive(Clone, Copy, Debug, PartialEq, Eq, Structural)]
pub struct CameraInputState {
    pub pan_up: bool,
    pub pan_down: bool,
    pub pan_left: bool,
    pub pan_right: bool,
    pub zoom_in: bool,
    pub zoom_out: bool,
}

impl CameraInputState {
    /// Whether `action` is held down.
    pub fn pressed(&self, action: CameraAction) -> (b: bool)
        ensures
            b == self.spec_pressed(action),
    {
        match action {
            CameraAction::PanUp => self.pan_up,
            CameraAction::PanDown => self.pan_down,
            CameraAction::PanLeft => self.pan_left,
            CameraAction::PanRight => self.pan_right,
            CameraAction::ZoomIn => self.zoom_in,
            CameraAction::ZoomOut => self.zoom_out,
        }
    }

    pub open spec fn spec_pressed(&self, action: CameraAction) -> bool {
        match action {
            CameraAction::PanUp => self.pan_up,
            CameraAction::PanDown => self.pan_down,
            CameraAction::PanLeft => self.pan_left,
            CameraAction::PanRight => self.pan_right,
            CameraAction::ZoomIn => self.zoom_in,
            CameraAction::ZoomOut => self.zoom_out,
        }
    }
}

/// The camera commands of one frame: a pan direction (each component -1, 0
/// or 1, before it is scaled to unit length) and the zoom steps in the order
/// they are sent (+1 zooms out, -1 zooms in).
pub struct CameraCommands {
    pub pan: Option<(i32, i32)>,
    pub zoom_deltas: Vec<i32>,
}

pub open spec fn flag(b: bool) -> int {
    if b {
        1
    } else {
        0
    }
}

/// The pan direction that the held keys add up to: right minus left, up
/// minus down.
pub open spec fn pan_direction(input: CameraInputState) -> (int, int) {
    (flag(input.pan_right) - flag(input.pan_left), flag(input.pan_up) - flag(input.pan_down))
}

/// The zoom steps that the held keys send: zooming out first, then in.
pub open spec fn zoom_steps(input: CameraInputState) -> Seq<i32> {
    (if input.zoom_out {
        seq![1i32]
    } else {
        Seq::<i32>::empty()
    }) + (if input.zoom_in {
        seq![-1i32]
    } else {
        Seq::<i32>::empty()
    })
}

/// Each camera action reads the key of its own name: up, down, left, right,
/// zoom in, zoom out.
pub proof fn law_pressed_reads_own_key(input: CameraInputState)
    ensures
        input.spec_pressed(CameraAction::PanUp) == input.pan_up,
        input.spec_pressed(CameraAction::PanDown) == input.pan_down,
        input.spec_pressed(CameraAction::PanLeft) == input.pan_left,
        input.spec_pressed(CameraAction::PanRight) == input.pan_right,
        input.spec_pressed(CameraAction::ZoomIn) == input.zoom_in,
        input.spec_pressed(CameraAction::ZoomOut) == input.zoom_out,
{
}

/// The pan follows the held actions: it goes right (x = 1) exactly when
/// right is held and left is not, left (x = -1) exactly when left is held
/// and right is not, up (y = 1) exactly when up is held and down is not, and
/// down (y = -1) exactly when down is held and up is not; otherwise that
/// component is 0. Nothing else moves it.
pub proof fn law_pan_follows_held_actions(input: CameraInputState)
    ensures
        pan_direction(input).0 == 1 <==> input.spec_pressed(CameraAction::PanRight) && !input.spec_pressed(
            CameraAction::PanLeft,
        ),
        pan_direction(input).0 == -1 <==> input.spec_pressed(CameraAction::PanLeft) && !input.spec_pressed(
            CameraAction::PanRight,
        ),
        pan_direction(input).0 == 0 <==> input.spec_pressed(CameraAction::PanLeft) == input.spec_pressed(
            CameraAction::PanRight,
        ),
        pan_direction(input).1 == 1 <==> input.spec_pressed(CameraAction::PanUp) && !input.spec_pressed(
            CameraAction::PanDown,
        ),
        pan_direction(input).1 == -1 <==> input.spec_pressed(CameraAction::PanDown) && !input.spec_pressed(
            CameraAction::PanUp,
        ),
        pan_direction(input).1 == 0 <==> input.spec_pressed(CameraAction::PanDown) == input.spec_pressed(
            CameraAction::PanUp,
        ),
{
}

/// The same over the key flags: holding only the right key pans right,
/// only the left key left, only the up key up, only the down key down.
pub proof fn law_pan_follows_keys(input: CameraInputState)
    ensures
        pan_direction(input).0 == (if input.pan_right && !input.pan_left {
            1int
        } else if input.pan_left && !input.pan_right {
            -1int
        } else {
            0int
        }),
        pan_direction(input).1 == (if input.pan_up && !input.pan_down {
            1int
        } else if input.pan_down && !input.pan_up {
            -1int
        } else {
            0int
        }),
{
}

/// The zoom steps follow the held zoom actions: one step out (+1) when zoom
/// out is held, then one step in (-1) when zoom in is held.
pub proof fn law_zoom_follows_held_actions(input: CameraInputState)
    ensures
        zoom_steps(input).len() == (if input.spec_pressed(CameraAction::ZoomOut) { 1int } else { 0int })
            + (if input.spec_pressed(CameraAction::ZoomIn) { 1int } else { 0int }),
        input.spec_pressed(CameraAction::ZoomOut) ==> zoom_steps(input)[0] == 1,
        input.spec_pressed(CameraAction::ZoomIn) ==> zoom_steps(input).last() == -1,
{
}

/// Translates held camera keys into commands: a pan only when the pan keys
/// do not cancel out, and one zoom step per held zoom key.
pub fn translate_camera_input(input: &CameraInputState) -> (cmds: CameraCommands)
    ensures
        pan_direction(*input) == (0int, 0int) ==> cmds.pan is None,
        pan_direction(*input) != (0int, 0int) ==> (cmds.pan matches Some(d) && d.0 == pan_direction(
            *input,
        ).0 && d.1 == pan_direction(*input).1),
        cmds.zoom_deltas@ == zoom_steps(*input),
        cmds.pan is None <==> (input.pan_left == input.pan_right && input.pan_up == input.pan_down),
        cmds.pan matches Some(d) ==> d.0 == (if input.pan_right && !input.pan_left {
            1i32
        } else if input.pan_left && !input.pan_right {
            -1i32
        } else {
            0i32
        }) && d.1 == (if input.pan_up && !input.pan_down {
            1i32
        } else if input.pan_down && !input.pan_up {
            -1i32
        } else {
            0i32
        }),
{
    let mut x: i32 = 0;
    let mut y: i32 = 0;
    if input.pressed(CameraAction::PanLeft) {
        x = x - 1;
    }
    if input.pressed(CameraAction::PanRight) {
        x = x + 1;
    }
    if input.pressed(CameraAction::PanDown) {
        y = y - 1;
    }
    if input.pressed(CameraAction::PanUp) {
        y = y + 1;
    }
    let pan = if x != 0 || y != 0 {
        Some((x, y))
    } else {
        None
    };
    let mut zoom_deltas: Vec<i32> = Vec::new();
    if input.pressed(CameraAction::ZoomOut) {
        zoom_deltas.push(1);
    }
    if input.pressed(CameraAction::ZoomIn) {
        zoom_deltas.push(-1);
    }
    assert(zoom_deltas@ =~= zoom_steps(*input));
    CameraCommands { pan, zoom_deltas }
}

/// Whether the debug view is on.
#[derive(Clone, Copy, Debug, PartialEq, Eq, Structural)]
pub struct DebugMode(pub bool);

/// Flips the debug view on the frame the toggle key goes down.
pub fn toggle_debug_mode(debug_mode: &mut DebugMode, toggle_just_pressed: bool)
    ensures
        final(debug_mode).0 == (old(debug_mode).0 != toggle_just_pressed),
{
    if toggle_just_pressed {
        debug_mode.0 = !debug_mode.0;
    }
}

} // verus!
