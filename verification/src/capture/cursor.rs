//! Drawing the mouse cursor into a captured frame.  Frames are 4 bytes per
//! pixel, rows `pitch` bytes apart; the cursor is `cw` x `ch` pixels of
//! 4 bytes whose fourth byte is the alpha.  Opaque cursor pixels replace
//! the frame's, transparent ones leave it, and the others are blended.

use vstd::prelude::*;
use vstd::arithmetic::div_mod::{lemma_fundamental_div_mod, lemma_fundamental_div_mod_converse};

verus! {

/// `s` over `d` with opacity `alpha` (out of 255), rounded down.
pub open spec fn blend(s: u8, d: u8, alpha: u8) -> u8 {
    ((s * alpha + d * (255 - alpha)) / 255) as u8
}

/// Frame row of byte `i`.
pub open spec fn byte_row(i: int, pitch: int) -> int {
    i / pitch
}

/// Frame column of byte `i`.
pub open spec fn byte_col(i: int, pitch: int) -> int {
    (i % pitch) / 4
}

/// Channel of byte `i` within its pixel.
pub open spec fn byte_chan(i: int, pitch: int) -> int {
    (i % pitch) % 4
}

/// Where the cursor pixel `(row, col)` starts in the cursor data.
pub open spec fn cursor_offset(cw: int, row: int, col: int) -> int {
    (row * cw + col) * 4
}

/// Where a cursor and the frame meet: a cursor pixel lies on frame byte
/// `i` (inside the frame's width and height), and the cursor data holds it.
pub open spec fn covers(
    pitch: int,
    fw: int,
    fh: int,
    cursor_len: int,
    cx: int,
    cy: int,
    cw: int,
    ch: int,
    i: int,
) -> bool {
    let row = byte_row(i, pitch) - cy;
    let col = byte_col(i, pitch) - cx;
    &&& pitch > 0
    &&& 0 <= i
    &&& byte_row(i, pitch) < fh
    &&& byte_col(i, pitch) < fw
    &&& 0 <= row < ch
    &&& 0 <= col < cw
    &&& cursor_offset(cw, row, col) + 3 < cursor_len
}

/// Byte `i` of the frame once the cursor at `(cx, cy)` is drawn.
pub open spec fn composited_byte(
    frame: Seq<u8>,
    pitch: int,
    fw: int,
    fh: int,
    cursor: Seq<u8>,
    cx: int,
    cy: int,
    cw: int,
    ch: int,
    i: int,
) -> u8 {
    if covers(pitch, fw, fh, cursor.len() as int, cx, cy, cw, ch, i) {
        let off = cursor_offset(cw, byte_row(i, pitch) - cy, byte_col(i, pitch) - cx);
        let alpha = cursor[off + 3];
        let c = byte_chan(i, pitch);
        if alpha == 0 {
            frame[i]
        } else if alpha == 255 {
            cursor[off + c]
        } else if c < 3 {
            blend(cursor[off + c], frame[i], alpha)
        } else {
            frame[i]
        }
    } else {
        frame[i]
    }
}

/// Byte `dy * pitch + dx * 4 + c` lies in row `dy`, column `dx`, channel `c`.
proof fn lemma_byte_position(pitch: int, dy: int, dx: int, c: int)
    requires
        pitch > 0,
        0 <= dy,
        0 <= dx,
        0 <= c < 4,
        dx * 4 + c < pitch,
    ensures
        byte_row(dy * pitch + dx * 4 + c, pitch) == dy,
        byte_col(dy * pitch + dx * 4 + c, pitch) == dx,
        byte_chan(dy * pitch + dx * 4 + c, pitch) == c,
{
    lemma_fundamental_div_mod_converse(dy * pitch + dx * 4 + c, pitch, dy, dx * 4 + c);
    lemma_fundamental_div_mod_converse(dx * 4 + c, 4, dx, c);
}

/// A byte lies at its row, column and channel.
proof fn lemma_byte_decompose(pitch: int, i: int)
    requires
        pitch > 0,
        0 <= i,
    ensures
        i == byte_row(i, pitch) * pitch + byte_col(i, pitch) * 4 + byte_chan(i, pitch),
        0 <= byte_chan(i, pitch) < 4,
        0 <= byte_row(i, pitch),
        0 <= byte_col(i, pitch),
        byte_col(i, pitch) * 4 + byte_chan(i, pitch) < pitch,
{
    lemma_fundamental_div_mod(i, pitch);
    lemma_fundamental_div_mod(i % pitch, 4);
    assert(pitch * (i / pitch) == (i / pitch) * pitch) by (nonlinear_arith);
    assert(4 * ((i % pitch) / 4) == ((i % pitch) / 4) * 4) by (nonlinear_arith);
}

/// Cursor pixels further on start further on in the cursor data.
proof fn lemma_offset_grows(cw: int, row: int, col: int, col2: int)
    requires
        0 <= cw,
        col <= col2,
    ensures
        cursor_offset(cw, row, col) <= cursor_offset(cw, row, col2),
{
}

/// Draws the cursor, whose top-left pixel is at `(cx, cy)`, into the
/// `fw` x `fh` frame.
pub fn composite_cursor(
    frame: &mut [u8],
    pitch: usize,
    fw: u32,
    fh: u32,
    cursor: &[u8],
    cx: i32,
    cy: i32,
    cw: u32,
    ch: u32,
)
    requires
        4 * fw <= pitch,
        pitch * fh <= old(frame)@.len(),
        fw <= i32::MAX,
        fh <= i32::MAX,
        cw <= i32::MAX,
        ch <= i32::MAX,
        cx + cw <= i32::MAX,
        cy + ch <= i32::MAX,
        ch * cw * 4 <= u32::MAX,
    ensures
        final(frame)@.len() == old(frame)@.len(),
        forall|i: int|
            0 <= i < old(frame)@.len() ==> #[trigger] final(frame)@[i] == composited_byte(
                old(frame)@,
                pitch as int,
                fw as int,
                fh as int,
                cursor@,
                cx as int,
                cy as int,
                cw as int,
                ch as int,
                i,
            ),
{
    let ghost old_frame = frame@;
    let ghost p = pitch as int;
    let ghost len = old_frame.len() as int;
    let flen: usize = frame.len();
    if fw == 0 || fh == 0 {
        proof {
            assert forall|i: int| 0 <= i < len implies #[trigger] frame@[i] == composited_byte(
                old_frame,
                p,
                fw as int,
                fh as int,
                cursor@,
                cx as int,
                cy as int,
                cw as int,
                ch as int,
                i,
            ) by {
                if p > 0 {
                    lemma_byte_decompose(p, i);
                }
            }
        }
        return;
    }
    let mut row: u32 = 0;
    while row < ch
        invariant
            0 < fw,
            0 < fh,
            4 * fw <= pitch,
            pitch * fh <= len,
            p == pitch,
            len == frame@.len(),
            len == flen,
            fw <= i32::MAX,
            fh <= i32::MAX,
            cw <= i32::MAX,
            ch <= i32::MAX,
            cx + cw <= i32::MAX,
            cy + ch <= i32::MAX,
            ch * cw * 4 <= u32::MAX,
            row <= ch,
            forall|i: int|
                0 <= i < len ==> #[trigger] frame@[i] == if covers(
                    p,
                    fw as int,
                    fh as int,
                    cursor@.len() as int,
                    cx as int,
                    cy as int,
                    cw as int,
                    ch as int,
                    i,
                ) && byte_row(i, p) - cy < row {
                    composited_byte(
                        old_frame,
                        p,
                        fw as int,
                        fh as int,
                        cursor@,
                        cx as int,
                        cy as int,
                        cw as int,
                        ch as int,
                        i,
                    )
                } else {
                    old_frame[i]
                },
        decreases ch - row,
    {
        let dy: i64 = cy as i64 + row as i64;
        if 0 <= dy && dy < fh as i64 {
            let mut col: u32 = 0;
            let mut stop = false;
            while col < cw && !stop
                invariant
                    0 < fw,
                    0 < fh,
                    4 * fw <= pitch,
                    pitch * fh <= len,
                    p == pitch,
                    len == frame@.len(),
                    len == flen,
                    fw <= i32::MAX,
                    cw <= i32::MAX,
                    cx + cw <= i32::MAX,
                    ch * cw * 4 <= u32::MAX,
                    row < ch,
                    dy == cy + row,
                    0 <= dy < fh,
                    col <= cw,
                    stop ==> cursor_offset(cw as int, row as int, col as int) + 3 >= cursor@.len(),
                    forall|i: int|
                        0 <= i < len ==> #[trigger] frame@[i] == if covers(
                            p,
                            fw as int,
                            fh as int,
                            cursor@.len() as int,
                            cx as int,
                            cy as int,
                            cw as int,
                            ch as int,
                            i,
                        ) && (byte_row(i, p) - cy < row || (byte_row(i, p) - cy == row
                            && byte_col(i, p) - cx < col)) {
                            composited_byte(
                                old_frame,
                                p,
                                fw as int,
                                fh as int,
                                cursor@,
                                cx as int,
                                cy as int,
                                cw as int,
                                ch as int,
                                i,
                            )
                        } else {
                            old_frame[i]
                        },
                decreases cw - col + if stop {
                    0int
                } else {
                    1int
                },
            {
                let dx: i64 = cx as i64 + col as i64;
                proof {
                    assert((row as int) * (cw as int) + col < (ch as int) * (cw as int)) by (
                    nonlinear_arith)
                        requires
                            row < ch,
                            col < cw,
                    ;
                }
                let src_offset: usize = ((row * cw + col) as usize) * 4;
                if src_offset + 3 >= cursor.len() {
                    stop = true;
                } else {
                    if 0 <= dx && dx < fw as i64 {
                        proof {
                            assert((dy as int) * p + (dx as int) * 4 + 3 < p * fh) by (nonlinear_arith)
                                requires
                                    0 <= dy < fh,
                                    0 <= dx < fw,
                                    4 * fw <= p,
                            ;
                            assert(0 <= (dy as int) * p) by (nonlinear_arith)
                                requires
                                    0 <= dy,
                                    0 <= p,
                            ;
                        }
                        let base: usize = (dy as usize) * pitch + (dx as usize) * 4;
                        proof {
                            lemma_byte_position(p, dy as int, dx as int, 0);
                            lemma_byte_position(p, dy as int, dx as int, 1);
                            lemma_byte_position(p, dy as int, dx as int, 2);
                            lemma_byte_position(p, dy as int, dx as int, 3);
                        }
                        let alpha = cursor[src_offset + 3];
                        let ghost before = frame@;
                        if alpha == 255 {
                            frame[base] = cursor[src_offset];
                            frame[base + 1] = cursor[src_offset + 1];
                            frame[base + 2] = cursor[src_offset + 2];
                            frame[base + 3] = cursor[src_offset + 3];
                        } else if alpha != 0 {
                            let inv: u32 = 255 - alpha as u32;
                            let a: u32 = alpha as u32;
                            let s0 = cursor[src_offset] as u32;
                            let s1 = cursor[src_offset + 1] as u32;
                            let s2 = cursor[src_offset + 2] as u32;
                            let d0 = frame[base] as u32;
                            let d1 = frame[base + 1] as u32;
                            let d2 = frame[base + 2] as u32;
                            proof {
                                assert(s0 * a + d0 * inv <= 255 * 255 && s1 * a + d1 * inv <= 255 * 255
                                    && s2 * a + d2 * inv <= 255 * 255) by (nonlinear_arith)
                                    requires
                                        s0 < 256,
                                        s1 < 256,
                                        s2 < 256,
                                        d0 < 256,
                                        d1 < 256,
                                        d2 < 256,
                                        a + inv == 255,
                                ;
                            }
                            frame[base] = ((s0 * a + d0 * inv) / 255) as u8;
                            frame[base + 1] = ((s1 * a + d1 * inv) / 255) as u8;
                            frame[base + 2] = ((s2 * a + d2 * inv) / 255) as u8;
                        }
                        proof {
                            assert forall|i: int| 0 <= i < len implies #[trigger] frame@[i] == if covers(
                                p,
                                fw as int,
                                fh as int,
                                cursor@.len() as int,
                                cx as int,
                                cy as int,
                                cw as int,
                                ch as int,
                                i,
                            ) && (byte_row(i, p) - cy < row || (byte_row(i, p) - cy == row
                                && byte_col(i, p) - cx < col + 1)) {
                                composited_byte(
                                    old_frame,
                                    p,
                                    fw as int,
                                    fh as int,
                                    cursor@,
                                    cx as int,
                                    cy as int,
                                    cw as int,
                                    ch as int,
                                    i,
                                )
                            } else {
                                old_frame[i]
                            } by {
                                lemma_byte_decompose(p, i);
                                if base <= i < base + 4 {
                                    assert(i == (dy as int) * p + (dx as int) * 4 + (i - base));
                                    assert(byte_row(i, p) == dy);
                                    assert(byte_col(i, p) == dx);
                                    assert(byte_chan(i, p) == i - base);
                                    assert(before[i] == old_frame[i]);
                                } else {
                                    assert(frame@[i] == before[i]);
                                    if byte_row(i, p) == dy && byte_col(i, p) == dx {
                                        assert(i == (dy as int) * p + (dx as int) * 4 + byte_chan(i, p));
                                    }
                                }
                            }
                        }
                    } else {
                        proof {
                            assert forall|i: int| 0 <= i < len implies #[trigger] frame@[i] == if covers(
                                p,
                                fw as int,
                                fh as int,
                                cursor@.len() as int,
                                cx as int,
                                cy as int,
                                cw as int,
                                ch as int,
                                i,
                            ) && (byte_row(i, p) - cy < row || (byte_row(i, p) - cy == row
                                && byte_col(i, p) - cx < col + 1)) {
                                composited_byte(
                                    old_frame,
                                    p,
                                    fw as int,
                                    fh as int,
                                    cursor@,
                                    cx as int,
                                    cy as int,
                                    cw as int,
                                    ch as int,
                                    i,
                                )
                            } else {
                                old_frame[i]
                            } by {
                                lemma_byte_decompose(p, i);
                            }
                        }
                    }
                    col = col + 1;
                }
            }
            proof {
                assert forall|i: int| 0 <= i < len implies #[trigger] frame@[i] == if covers(
                    p,
                    fw as int,
                    fh as int,
                    cursor@.len() as int,
                    cx as int,
                    cy as int,
                    cw as int,
                    ch as int,
                    i,
                ) && byte_row(i, p) - cy < row + 1 {
                    composited_byte(
                        old_frame,
                        p,
                        fw as int,
                        fh as int,
                        cursor@,
                        cx as int,
                        cy as int,
                        cw as int,
                        ch as int,
                        i,
                    )
                } else {
                    old_frame[i]
                } by {
                    lemma_byte_decompose(p, i);
                    if stop && byte_row(i, p) - cy == row && byte_col(i, p) - cx >= col {
                        lemma_offset_grows(cw as int, row as int, col as int, byte_col(i, p) - cx);
                    }
                }
            }
        } else {
            proof {
                assert forall|i: int| 0 <= i < len implies #[trigger] frame@[i] == if covers(
                    p,
                    fw as int,
                    fh as int,
                    cursor@.len() as int,
                    cx as int,
                    cy as int,
                    cw as int,
                    ch as int,
                    i,
                ) && byte_row(i, p) - cy < row + 1 {
                    composited_byte(
                        old_frame,
                        p,
                        fw as int,
                        fh as int,
                        cursor@,
                        cx as int,
                        cy as int,
                        cw as int,
                        ch as int,
                        i,
                    )
                } else {
                    old_frame[i]
                } by {
                    lemma_byte_decompose(p, i);
                }
            }
        }
        row = row + 1;
    }
    proof {
        assert forall|i: int| 0 <= i < len implies #[trigger] frame@[i] == composited_byte(
            old_frame,
            p,
            fw as int,
            fh as int,
            cursor@,
            cx as int,
            cy as int,
            cw as int,
            ch as int,
            i,
        ) by {
            lemma_byte_decompose(p, i);
        }
    }
}

/// The cursor as the capture loop tracks it from frame to frame: its shape
/// (4 bytes per pixel), size, visibility and position on the frame.
#[derive(Debug, Clone)]
pub struct CursorState {
    pub shape: Vec<u8>,
    pub width: u32,
    pub height: u32,
    pub visible: bool,
    pub x: i32,
    pub y: i32,
}

impl CursorState {
    /// No shape known yet, visible, at the origin.
    pub fn new() -> (s: Self)
        ensures
            s.shape@.len() == 0,
            s.width == 0,
            s.height == 0,
            s.visible,
            s.x == 0,
            s.y == 0,
    {
        CursorState { shape: Vec::new(), width: 0, height: 0, visible: true, x: 0, y: 0 }
    }

    /// A captured frame reports the pointer: when the mouse moved since the
    /// last frame (`mouse_updated`), its visibility and position are taken.
    pub fn on_pointer(&mut self, mouse_updated: bool, visible: bool, x: i32, y: i32)
        ensures
            final(self).shape == old(self).shape,
            final(self).width == old(self).width,
            final(self).height == old(self).height,
            mouse_updated ==> final(self).visible == visible && final(self).x == x && final(self).y == y,
            !mouse_updated ==> final(self).visible == old(self).visible && final(self).x == old(self).x
                && final(self).y == old(self).y,
    {
        if mouse_updated {
            self.visible = visible;
            self.x = x;
            self.y = y;
        }
    }

    /// A captured frame brings a new pointer shape.
    pub fn on_shape(&mut self, shape: Vec<u8>, width: u32, height: u32)
        ensures
            final(self).shape@ == shape@,
            final(self).width == width,
            final(self).height == height,
            final(self).visible == old(self).visible,
            final(self).x == old(self).x,
            final(self).y == old(self).y,
    {
        self.shape = shape;
        self.width = width;
        self.height = height;
    }

    /// The cursor is drawn into frames when visible and its shape is known.
    pub fn should_draw(&self) -> (b: bool)
        ensures
            b == (self.visible && self.shape@.len() > 0 && self.width > 0),
    {
        self.visible && self.shape.len() > 0 && self.width > 0
    }
}

} // verus!
