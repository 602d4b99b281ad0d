//! Decisions of the desktop application: placement of the overlay in the
//! editor (keyboard nudges, keeping the overlay at least partly over the base
//! image), when a run may start and when saving asks for a file.
use vstd::prelude::*;
use crate::compose::covers;

verus! {

/// The two views of the application.
#[derive(Debug, Clone, Copy, PartialEq, Eq, Structural)]
pub enum Tab {
    Editor,
    Runner,
}

/// `v` limited to `[lo, hi]`.
pub open spec fn clamp(v: int, lo: int, hi: int) -> int {
    if v < lo {
        lo
    } else if v > hi {
        hi
    } else {
        v
    }
}

fn clamp_i64(v: i64, lo: i64, hi: i64) -> (res: i64)
    requires
        lo <= hi,
    ensures
        res == clamp(v as int, lo as int, hi as int),
{
    if v < lo {
        lo
    } else if v > hi {
        hi
    } else {
        v
    }
}

/// The overlay position (x, y) moved the least so that the overlay keeps at
/// least one column and one row over the base image: x within
/// `[-(overlay_w - 1), base_w - 1]`, y within `[-(overlay_h - 1), base_h - 1]`.
pub fn clamp_overlay_position(
    x: i64,
    y: i64,
    base_w: u32,
    base_h: u32,
    overlay_w: u32,
    overlay_h: u32,
) -> (res: (i64, i64))
    requires
        1 - overlay_w <= base_w - 1,
        1 - overlay_h <= base_h - 1,
    ensures
        res.0 == clamp(x as int, 1 - overlay_w, base_w - 1),
        res.1 == clamp(y as int, 1 - overlay_h, base_h - 1),
{
    let max_x: i64 = base_w as i64 - 1;
    let max_y: i64 = base_h as i64 - 1;
    let min_x: i64 = -(overlay_w as i64 - 1);
    let min_y: i64 = -(overlay_h as i64 - 1);
    (clamp_i64(x, min_x, max_x), clamp_i64(y, min_y, max_y))
}

/// The step of one arrow-key press: 10 pixels with Shift held, else 1.
pub open spec fn nudge_step(shift: bool) -> int {
    if shift {
        10
    } else {
        1
    }
}

/// How far the arrow keys pressed in one frame move the overlay: left and
/// right, up and down each cancel out.
pub fn nudge_delta(shift: bool, left: bool, right: bool, up: bool, down: bool) -> (res: (
    i64,
    i64,
))
    ensures
        res.0 == (if right { nudge_step(shift) } else { 0 }) - (if left {
            nudge_step(shift)
        } else {
            0
        }),
        res.1 == (if down { nudge_step(shift) } else { 0 }) - (if up {
            nudge_step(shift)
        } else {
            0
        }),
{
    let step: i64 = if shift { 10 } else { 1 };
    let mut dx: i64 = 0;
    let mut dy: i64 = 0;
    if left {
        dx = dx - step;
    }
    if right {
        dx = dx + step;
    }
    if up {
        dy = dy - step;
    }
    if down {
        dy = dy + step;
    }
    (dx, dy)
}

/// The overlay position after a nudge by (dx, dy): unchanged when the nudge is
/// zero, else moved and then clamped as `clamp_overlay_position` does.
pub fn nudge_overlay(
    pos: (i64, i64),
    delta: (i64, i64),
    base_w: u32,
    base_h: u32,
    overlay_w: u32,
    overlay_h: u32,
) -> (res: (i64, i64))
    requires
        i64::MIN <= pos.0 + delta.0 <= i64::MAX,
        i64::MIN <= pos.1 + delta.1 <= i64::MAX,
        1 - overlay_w <= base_w - 1,
        1 - overlay_h <= base_h - 1,
    ensures
        delta.0 == 0 && delta.1 == 0 ==> res == pos,
        !(delta.0 == 0 && delta.1 == 0) ==> res.0 == clamp(
            pos.0 + delta.0,
            1 - overlay_w,
            base_w - 1,
        ) && res.1 == clamp(pos.1 + delta.1, 1 - overlay_h, base_h - 1),
{
    if delta.0 != 0 || delta.1 != 0 {
        clamp_overlay_position(
            pos.0 + delta.0,
            pos.1 + delta.1,
            base_w,
            base_h,
            overlay_w,
            overlay_h,
        )
    } else {
        pos
    }
}

/// After clamping, a non-empty overlay covers at least one pixel of a
/// non-empty base image.
pub proof fn lemma_clamped_overlay_overlaps_base(
    x: int,
    y: int,
    base_w: nat,
    base_h: nat,
    overlay_w: nat,
    overlay_h: nat,
)
    requires
        base_w >= 1,
        base_h >= 1,
        overlay_w >= 1,
        overlay_h >= 1,
    ensures
        ({
            let cx = clamp(x, 1 - overlay_w, base_w - 1);
            let cy = clamp(y, 1 - overlay_h, base_h - 1);
            let px = if cx > 0 { cx } else { 0 };
            let py = if cy > 0 { cy } else { 0 };
            &&& 0 <= px < base_w
            &&& 0 <= py < base_h
            &&& covers(cx, cy, overlay_w as int, overlay_h as int, px, py)
        }),
{
}

/// Clamping is idempotent, and leaves a position already in range unchanged.
pub proof fn lemma_clamp_idempotent(v: int, lo: int, hi: int)
    requires
        lo <= hi,
    ensures
        clamp(clamp(v, lo, hi), lo, hi) == clamp(v, lo, hi),
        lo <= v <= hi ==> clamp(v, lo, hi) == v,
{
}

/// The size of a loaded image, in pixels.
#[derive(Debug, Clone, Copy, PartialEq, Eq, Structural)]
pub struct ImageSize {
    pub width: u32,
    pub height: u32,
}

/// What the editor knows of the overlay's placement: its position, and the
/// size of the base image and of the overlay, each `None` until that image is
/// loaded.
#[derive(Debug, Clone, Copy, PartialEq, Eq, Structural)]
pub struct OverlayPlacement {
    pub x: i64,
    pub y: i64,
    pub base: Option<ImageSize>,
    pub overlay: Option<ImageSize>,
}

/// Whether the clamping bounds of `p` are ordered (or there is nothing to
/// clamp against): a loaded overlay and base can keep a column and a row in
/// common.
pub open spec fn clamp_bounds_ordered(p: OverlayPlacement) -> bool {
    match (p.base, p.overlay) {
        (Some(b), Some(o)) => 1 - o.width <= b.width - 1 && 1 - o.height <= b.height - 1,
        _ => true,
    }
}

/// The placement once clamped: with both images loaded, the position is
/// clamped as `clamp_overlay_position` does; otherwise nothing changes.
pub open spec fn clamped(p: OverlayPlacement) -> OverlayPlacement {
    match (p.base, p.overlay) {
        (Some(b), Some(o)) => OverlayPlacement {
            x: clamp(p.x as int, 1 - o.width, b.width - 1) as i64,
            y: clamp(p.y as int, 1 - o.height, b.height - 1) as i64,
            ..p
        },
        _ => p,
    }
}

impl OverlayPlacement {
    /// Keeps the overlay at least partly over the base image, once both are
    /// loaded; does nothing before.
    pub fn clamp_overlay_position(&mut self)
        requires
            clamp_bounds_ordered(*old(self)),
        ensures
            *final(self) == clamped(*old(self)),
    {
        match (self.base, self.overlay) {
            (Some(b), Some(o)) => {
                let (x, y) = clamp_overlay_position(
                    self.x,
                    self.y,
                    b.width,
                    b.height,
                    o.width,
                    o.height,
                );
                self.x = x;
                self.y = y;
            },
            _ => {},
        }
    }
}

/// Clamping a placement twice leaves it as clamping it once; and before both
/// images are loaded clamping changes nothing.
pub proof fn lemma_clamp_placement_idempotent(p: OverlayPlacement)
    requires
        clamp_bounds_ordered(p),
    ensures
        clamped(clamped(p)) == clamped(p),
        clamp_bounds_ordered(clamped(p)),
        p.base is None || p.overlay is None ==> clamped(p) == p,
{
}

/// Whether the Run button is enabled: no run is going on, and both a
/// configuration file and an input directory have been chosen.
pub fn can_run(running: bool, config_chosen: bool, input_chosen: bool) -> (res: bool)
    ensures
        res == (!running && config_chosen && input_chosen),
{
    !running && config_chosen && input_chosen
}

/// Whether saving asks the user for a file: when saving as a new file, or when
/// no configuration file is known yet; otherwise the known file is written.
pub fn save_asks_for_target(as_new: bool, has_config_path: bool) -> (res: bool)
    ensures
        res == (as_new || !has_config_path),
{
    as_new || !has_config_path
}

/// The status shown when a run starts: a warning when originals are about to
/// be overwritten, else none.
pub fn run_start_status(in_place: bool) -> (res: Option<String>)
    ensures
        in_place ==> (res matches Some(s) && s@
            == "Running in-place (originals will be overwritten)."@),
        !in_place ==> res is None,
{
    if in_place {
        Some(String::from_str("Running in-place (originals will be overwritten)."))
    } else {
        None
    }
}

} // verus!
