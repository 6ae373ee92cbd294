//! What the tray icon shows: a filled disc whose colour tells the state.

use vstd::prelude::*;

verus! {

#[derive(Debug, Clone, Copy, PartialEq, Eq, Structural)]
pub enum TrayState {
    Idle,
    Streaming,
    Paused,
}

/// Width and height of the tray icon, in pixels.
pub const ICON_SIZE: usize = 22;

/// Pixel `(x, y)` lies on the icon's disc: within 10 pixels of the point
/// (11, 11).
pub open spec fn on_disc(x: int, y: int) -> bool {
    (x - 11) * (x - 11) + (y - 11) * (y - 11) <= 100
}

/// The colour of the disc in each state: grey when idle, green while
/// streaming, orange when paused.
pub open spec fn state_color(state: TrayState) -> (u8, u8, u8) {
    match state {
        TrayState::Idle => (128, 128, 128),
        TrayState::Streaming => (39, 174, 96),
        TrayState::Paused => (243, 156, 18),
    }
}

impl TrayState {
    /// The colour of the icon's disc in this state.
    pub fn icon_color(self) -> (c: (u8, u8, u8))
        ensures
            c == state_color(self),
    {
        match self {
            TrayState::Idle => (128, 128, 128),
            TrayState::Streaming => (39, 174, 96),
            TrayState::Paused => (243, 156, 18),
        }
    }
}

/// The byte of the RGBA icon at `(x, y)`, channel `c`: the colour, opaque,
/// on the disc; transparent black elsewhere.
pub open spec fn icon_byte(r: u8, g: u8, b: u8, x: int, y: int, c: int) -> u8 {
    if on_disc(x, y) {
        if c == 0 {
            r
        } else if c == 1 {
            g
        } else if c == 2 {
            b
        } else {
            255
        }
    } else {
        0
    }
}

/// The RGBA pixels, row by row, of a 22x22 icon showing a disc of colour
/// `(r, g, b)`.
pub fn icon_rgba(r: u8, g: u8, b: u8) -> (px: Vec<u8>)
    ensures
        px@.len() == ICON_SIZE * ICON_SIZE * 4,
        forall|y: int, x: int, c: int|
            0 <= y < 22 && 0 <= x < 22 && 0 <= c < 4 ==> #[trigger] px@[(y * 22 + x) * 4 + c]
                == icon_byte(r, g, b, x, y, c),
{
    let mut px: Vec<u8> = Vec::new();
    let mut y: usize = 0;
    while y < 22
        invariant
            y <= 22,
            px@.len() == y * 88,
            forall|yy: int, x: int, c: int|
                0 <= yy < y && 0 <= x < 22 && 0 <= c < 4 ==> #[trigger] px@[(yy * 22 + x) * 4 + c]
                    == icon_byte(r, g, b, x, yy, c),
        decreases 22 - y,
    {
        let mut x: usize = 0;
        while x < 22
            invariant
                y < 22,
                x <= 22,
                px@.len() == y * 88 + x * 4,
                forall|yy: int, xx: int, c: int|
                    0 <= yy < y && 0 <= xx < 22 && 0 <= c < 4 ==> #[trigger] px@[(yy * 22 + xx) * 4
                        + c] == icon_byte(r, g, b, xx, yy, c),
                forall|xx: int, c: int|
                    0 <= xx < x && 0 <= c < 4 ==> #[trigger] px@[(y * 22 + xx) * 4 + c]
                        == icon_byte(r, g, b, xx, y as int, c),
            decreases 22 - x,
        {
            let ax: usize = if x >= 11 {
                x - 11
            } else {
                11 - x
            };
            let ay: usize = if y >= 11 {
                y - 11
            } else {
                11 - y
            };
            assert(ax * ax <= 121 && ay * ay <= 121) by (nonlinear_arith)
                requires
                    ax <= 11,
                    ay <= 11,
            ;
            let inside = ax * ax + ay * ay <= 100;
            assert(ax * ax == (x - 11) * (x - 11) && ay * ay == (y - 11) * (y - 11)) by (nonlinear_arith)
                requires
                    ax == x - 11 || ax == 11 - x,
                    ay == y - 11 || ay == 11 - y,
            ;
            let ghost before = px@;
            if inside {
                px.push(r);
                px.push(g);
                px.push(b);
                px.push(255);
            } else {
                px.push(0);
                px.push(0);
                px.push(0);
                px.push(0);
            }
            proof {
                assert(inside == on_disc(x as int, y as int));
                assert((y * 22 + x) * 4 == y * 88 + x * 4) by (nonlinear_arith);
                assert forall|yy: int, xx: int, c: int|
                    0 <= yy < y && 0 <= xx < 22 && 0 <= c < 4 implies #[trigger] px@[(yy * 22 + xx) * 4
                        + c] == icon_byte(r, g, b, xx, yy, c) by {
                    assert((yy * 22 + xx) * 4 + c < y * 88) by (nonlinear_arith)
                        requires
                            0 <= yy < y,
                            0 <= xx < 22,
                            0 <= c < 4,
                    ;
                    assert(px@[(yy * 22 + xx) * 4 + c] == before[(yy * 22 + xx) * 4 + c]);
                }
                assert forall|xx: int, c: int|
                    0 <= xx < x + 1 && 0 <= c < 4 implies #[trigger] px@[(y * 22 + xx) * 4 + c]
                        == icon_byte(r, g, b, xx, y as int, c) by {
                    assert((y * 22 + xx) * 4 + c == y * 88 + xx * 4 + c) by (nonlinear_arith);
                    if xx < x {
                        assert(px@[(y * 22 + xx) * 4 + c] == before[(y * 22 + xx) * 4 + c]);
                    }
                }
            }
            x = x + 1;
        }
        y = y + 1;
    }
    px
}

} // verus!
