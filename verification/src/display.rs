//! Display controller for a monochrome OLED with page/column addressing.
//!
//! [`Ssd1306`] owns a [`LocalI2C`] bus master, a fixed 1024-byte off-screen
//! pixel buffer, and the display geometry. Drawing operations mutate only
//! the buffer; [`Ssd1306::display`] pushes the buffer to the device page by
//! page over the bus. Each byte of the buffer encodes eight vertically
//! stacked pixels of one column within one page: bit `n` of the byte at
//! `x + (y / 8) * width` is the pixel at row `(y / 8) * 8 + n`.

use vstd::prelude::*;

use crate::bus::rep_mt_acked;
use crate::bus::rep_started;
use crate::bus::sla_w;
use crate::bus::writes_of;
use crate::bus::BusEvent;
use crate::bus::I2cError;
use crate::bus::LocalI2C;
use crate::bus::TwiPort;
use crate::bus::TwiReply;

verus! {

/// Fixed 7-bit device address of the display controller.
pub const SSD1306_ADDRESS: u8 = 0x3C;

/// Control byte announcing that a command stream follows.
pub const CTRL_COMMAND: u8 = 0x00;
/// Control byte announcing that display data follows.
pub const CTRL_DATA: u8 = 0x40;

/// Opcode: display off.
pub const CMD_DISPLAY_OFF: u8 = 0xAE;
/// Opcode: display on.
pub const CMD_DISPLAY_ON: u8 = 0xAF;
/// Opcode: set contrast; followed by the contrast byte.
pub const CMD_CONTRAST: u8 = 0x81;
/// Opcode: set column address window; followed by start and end columns.
pub const CMD_COLUMN_ADDR: u8 = 0x21;
/// Opcode base: set page start address; the page number is added to it.
pub const CMD_PAGE_START: u8 = 0xB0;
/// Opcode: set lower column start address (legacy paged mode).
pub const CMD_LOWER_COL: u8 = 0x00;
/// Opcode: set higher column start address (legacy paged mode).
pub const CMD_HIGHER_COL: u8 = 0x10;
/// Opcode: set display start line.
pub const CMD_START_LINE: u8 = 0x40;
/// Contrast value used by the initialization sequence.
pub const DEFAULT_CONTRAST: u8 = 0xCF;

/// Number of device pages; each page is eight pixel rows.
pub const PAGES: u8 = 8;
/// Fixed capacity of the off-screen buffer in bytes.
pub const BUFFER_LEN: usize = 1024;

/// Errors of the display layer: a bus error is wrapped together with the
/// command or page that failed, for diagnostics.
#[derive(Clone, Copy, PartialEq, Eq, Debug)]
pub enum DisplayError {
    /// A command transaction failed; carries the opcode that was being sent.
    Command { opcode: u8, cause: I2cError },
    /// A page data transfer failed; carries the page that was being sent.
    Data { page: u8, cause: I2cError },
}

/// Index of the buffer byte that holds pixel (x, y).
pub open spec fn pixel_index(w: u8, x: u8, y: u8) -> int {
    x + (y / 8) * w
}

/// Mask selecting the bit of pixel (x, y) within its buffer byte.
pub open spec fn pixel_mask(y: u8) -> u8 {
    1u8 << (y % 8)
}

/// Whether pixel (x, y) is set in the buffer.
pub open spec fn pixel_at(buf: Seq<u8>, w: u8, x: u8, y: u8) -> bool {
    buf[pixel_index(w, x, y)] & pixel_mask(y) != 0
}

/// The buffer after writing one pixel: the addressed bit is set or cleared
/// when (x, y) is on screen, and the buffer is untouched otherwise.
pub open spec fn pixel_written(buf: Seq<u8>, w: u8, h: u8, x: u8, y: u8, on: bool) -> Seq<u8> {
    if x < w && y < h {
        let idx = pixel_index(w, x, y);
        let m = pixel_mask(y);
        buf.update(
            idx,
            if on {
                buf[idx] | m
            } else {
                buf[idx] & !m
            },
        )
    } else {
        buf
    }
}

/// Distinct on-screen coordinates live in distinct buffer slots: equal byte
/// indexes force equal columns and equal page rows.
proof fn lemma_pixel_index_injective(w: u8, x: u8, y: u8, a: u8, b: u8)
    requires
        x < w,
        a < w,
        pixel_index(w, x, y) == pixel_index(w, a, b),
    ensures
        x == a,
        y / 8 == b / 8,
{
    let q1 = (y / 8) as int;
    let q2 = (b / 8) as int;
    assert(x == a && q1 == q2) by (nonlinear_arith)
        requires
            x < w,
            a < w,
            x >= 0,
            a >= 0,
            q1 >= 0,
            q2 >= 0,
            x + q1 * (w as int) == a + q2 * (w as int),
    ;
}

/// After an in-bounds pixel write the addressed pixel reads back as
/// written, and every other on-screen pixel is unchanged.
pub proof fn lemma_pixel_written(buf: Seq<u8>, w: u8, h: u8, x: u8, y: u8, on: bool)
    requires
        buf.len() == BUFFER_LEN,
        x < w,
        y < h,
        w <= 128,
        h <= 64,
    ensures
        pixel_at(pixel_written(buf, w, h, x, y, on), w, x, y) == on,
        forall|a: u8, b: u8|
            a < w && b < h && !(a == x && b == y) ==> pixel_at(
                pixel_written(buf, w, h, x, y, on),
                w,
                a,
                b,
            ) == pixel_at(buf, w, a, b),
{
    let newbuf = pixel_written(buf, w, h, x, y, on);
    let idx = pixel_index(w, x, y);
    let s = y % 8;
    let b0 = buf[idx];
    lemma_pixel_index_bound(w, h, x, y);
    if on {
        assert(((b0 | (1u8 << s)) & (1u8 << s)) != 0) by (bit_vector)
            requires
                s < 8,
        ;
    } else {
        assert(((b0 & !(1u8 << s)) & (1u8 << s)) == 0) by (bit_vector);
    }
    assert forall|a: u8, b: u8| a < w && b < h && !(a == x && b == y) implies pixel_at(
        newbuf,
        w,
        a,
        b,
    ) == pixel_at(buf, w, a, b) by {
        let idx2 = pixel_index(w, a, b);
        lemma_pixel_index_bound(w, h, a, b);
        if idx2 == idx {
            lemma_pixel_index_injective(w, x, y, a, b);
            let t = b % 8;
            assert(s != t) by (bit_vector)
                requires
                    y != b,
                    y / 8 == b / 8,
                    s == y % 8,
                    t == b % 8,
            ;
            if on {
                assert(((b0 | (1u8 << s)) & (1u8 << t)) == (b0 & (1u8 << t))) by (bit_vector)
                    requires
                        s != t,
                        s < 8,
                        t < 8,
                ;
            } else {
                assert(((b0 & !(1u8 << s)) & (1u8 << t)) == (b0 & (1u8 << t))) by (bit_vector)
                    requires
                        s != t,
                        s < 8,
                        t < 8,
                ;
            }
        }
    };
}

/// The byte slot of an on-screen pixel lies inside the fixed buffer.
proof fn lemma_pixel_index_bound(w: u8, h: u8, x: u8, y: u8)
    requires
        x < w,
        y < h,
        w <= 128,
        h <= 64,
    ensures
        0 <= pixel_index(w, x, y) < BUFFER_LEN,
{
    let q = (y / 8) as int;
    assert(q <= 7);
    assert(q * (w as int) <= 7 * 128) by (nonlinear_arith)
        requires
            0 <= q <= 7,
            0 <= w <= 128,
    ;
}

/// Law: drawing the same pixel twice with the same arguments leaves the
/// buffer exactly as drawing it once does.
pub proof fn lemma_draw_pixel_idempotent(buf: Seq<u8>, w: u8, h: u8, x: u8, y: u8, on: bool)
    requires
        buf.len() == BUFFER_LEN,
        w <= 128,
        h <= 64,
    ensures
        pixel_written(pixel_written(buf, w, h, x, y, on), w, h, x, y, on) == pixel_written(
            buf,
            w,
            h,
            x,
            y,
            on,
        ),
{
    if x < w && y < h {
        lemma_pixel_index_bound(w, h, x, y);
        let idx = pixel_index(w, x, y);
        let s = y % 8;
        let b0 = buf[idx];
        let once = pixel_written(buf, w, h, x, y, on);
        assert(((b0 | (1u8 << s)) | (1u8 << s)) == (b0 | (1u8 << s))) by (bit_vector);
        assert(((b0 & !(1u8 << s)) & !(1u8 << s)) == (b0 & !(1u8 << s))) by (bit_vector);
        assert(pixel_written(once, w, h, x, y, on) =~= once);
    }
}

/// The absolute value of an integer.
pub open spec fn abs_val(v: int) -> int {
    if v < 0 {
        -v
    } else {
        v
    }
}

/// The points Bresenham's stepping rule visits from (x, y) to (x1, y1),
/// endpoints inclusive: plot, double the error accumulator, step in x
/// when it exceeds `-dy`, step in y when it is below `dx`. `fuel` bounds
/// the recursion; for well-formed arguments it is the remaining axis
/// distance, so it never runs out.
pub open spec fn bres_points(
    x: int,
    y: int,
    x1: int,
    y1: int,
    dx: int,
    dy: int,
    sx: int,
    sy: int,
    err: int,
    fuel: nat,
) -> Seq<(int, int)>
    decreases fuel,
{
    if x == x1 && y == y1 {
        seq![(x, y)]
    } else {
        let e2 = 2 * err;
        let xs = e2 > -dy;
        let ys = e2 < dx;
        let steps: int = (if xs {
            1int
        } else {
            0int
        }) + (if ys {
            1int
        } else {
            0int
        });
        if steps == 0 || fuel < steps {
            seq![(x, y)]
        } else {
            seq![(x, y)] + bres_points(
                if xs {
                    x + sx
                } else {
                    x
                },
                if ys {
                    y + sy
                } else {
                    y
                },
                x1,
                y1,
                dx,
                dy,
                sx,
                sy,
                err - (if xs {
                    dy
                } else {
                    0
                }) + (if ys {
                    dx
                } else {
                    0
                }),
                (fuel - steps) as nat,
            )
        }
    }
}

/// The points of the line from (x0, y0) to (x1, y1) under Bresenham's
/// rule, with distances, step signs and error accumulator computed from
/// the endpoints.
pub open spec fn line_points(x0: u8, y0: u8, x1: u8, y1: u8) -> Seq<(int, int)> {
    let dx = abs_val(x1 - x0);
    let dy = abs_val(y1 - y0);
    let sx: int = if x1 > x0 {
        1
    } else {
        -1
    };
    let sy: int = if y1 > y0 {
        1
    } else {
        -1
    };
    bres_points(x0 as int, y0 as int, x1 as int, y1 as int, dx, dy, sx, sy, dx - dy, (dx + dy) as nat)
}

/// The buffer after drawing every point of `pts` in order, each clipped
/// to the screen as one pixel write.
pub open spec fn pixels_written(buf: Seq<u8>, w: u8, h: u8, pts: Seq<(int, int)>, on: bool) -> Seq<
    u8,
>
    decreases pts.len(),
{
    if pts.len() == 0 {
        buf
    } else {
        pixels_written(
            pixel_written(buf, w, h, pts[0].0 as u8, pts[0].1 as u8, on),
            w,
            h,
            pts.drop_first(),
            on,
        )
    }
}

/// The bounds and error-accumulator relation that Bresenham's loop
/// maintains: the remaining distances along each axis lie between zero
/// and the full distances, and the accumulator measures how far the walk
/// is from the ideal line.
spec fn bres_inv(x: int, y: int, x1: int, y1: int, dx: int, dy: int, sx: int, sy: int, err: int) -> bool {
    let rx = (x1 - x) * sx;
    let ry = (y1 - y) * sy;
    &&& 0 <= rx <= dx
    &&& 0 <= ry <= dy
    &&& err == dx - dy + rx * dy - ry * dx
}

/// One Bresenham step from a state that satisfies the invariant makes
/// progress, never overshoots an axis whose distance is spent, keeps the
/// invariant, and keeps the accumulator small.
proof fn lemma_bres_step(
    x: int,
    y: int,
    x1: int,
    y1: int,
    dx: int,
    dy: int,
    sx: int,
    sy: int,
    err: int,
)
    requires
        bres_inv(x, y, x1, y1, dx, dy, sx, sy, err),
        sx == 1 || sx == -1,
        sy == 1 || sy == -1,
        0 <= dx <= 255,
        0 <= dy <= 255,
        !(x == x1 && y == y1),
    ensures
        ({
            let e2 = 2 * err;
            let xs = e2 > -dy;
            let ys = e2 < dx;
            let x2 = if xs {
                x + sx
            } else {
                x
            };
            let y2 = if ys {
                y + sy
            } else {
                y
            };
            let err2 = err - (if xs {
                dy
            } else {
                0
            }) + (if ys {
                dx
            } else {
                0
            });
            &&& xs || ys
            &&& (xs ==> (x1 - x) * sx >= 1)
            &&& (ys ==> (y1 - y) * sy >= 1)
            &&& bres_inv(x2, y2, x1, y1, dx, dy, sx, sy, err2)
            &&& (x1 - x2) * sx == (x1 - x) * sx - (if xs {
                1int
            } else {
                0int
            })
            &&& (y1 - y2) * sy == (y1 - y) * sy - (if ys {
                1int
            } else {
                0int
            })
            &&& -66000 <= err <= 66000
        }),
{
    let rx = (x1 - x) * sx;
    let ry = (y1 - y) * sy;
    assert(0 <= rx * dy <= 65025 && 0 <= ry * dx <= 65025) by (nonlinear_arith)
        requires
            0 <= rx <= dx <= 255,
            0 <= ry <= dy <= 255,
    ;
    assert(sx * sx == 1 && sy * sy == 1) by (nonlinear_arith)
        requires
            sx == 1 || sx == -1,
            sy == 1 || sy == -1,
    ;
    assert(rx == 0 ==> x == x1) by (nonlinear_arith)
        requires
            rx == (x1 - x) * sx,
            sx * sx == 1,
    ;
    assert(ry == 0 ==> y == y1) by (nonlinear_arith)
        requires
            ry == (y1 - y) * sy,
            sy * sy == 1,
    ;
    if rx == 0 {
        assert(rx * dy == 0) by (nonlinear_arith)
            requires
                rx == 0,
        ;
        assert(2 * err <= -dy) by (nonlinear_arith)
            requires
                err == dx - dy - ry * dx,
                ry >= 1,
                ry <= dy,
                dx >= 0,
        ;
    }
    if ry == 0 {
        assert(ry * dx == 0) by (nonlinear_arith)
            requires
                ry == 0,
        ;
        assert(2 * err >= dx) by (nonlinear_arith)
            requires
                err == dx - dy + rx * dy,
                rx >= 1,
                rx <= dx,
                dy >= 0,
        ;
    }
    assert((x1 - (x + sx)) * sx == rx - 1) by (nonlinear_arith)
        requires
            rx == (x1 - x) * sx,
            sx * sx == 1,
    ;
    assert((y1 - (y + sy)) * sy == ry - 1) by (nonlinear_arith)
        requires
            ry == (y1 - y) * sy,
            sy * sy == 1,
    ;
    assert((rx - 1) * dy == rx * dy - dy) by (nonlinear_arith);
    assert((ry - 1) * dx == ry * dx - dx) by (nonlinear_arith);
}

/// The wire events of one command transaction: start, the device address
/// byte, the command control byte, the opcode, stop.
pub open spec fn cmd_events(c: u8) -> Seq<BusEvent> {
    seq![
        BusEvent::Start,
        BusEvent::Write(sla_w(SSD1306_ADDRESS)),
        BusEvent::Write(CTRL_COMMAND),
        BusEvent::Write(c),
        BusEvent::Stop,
    ]
}

/// The wire events of a list of command transactions, in order.
pub open spec fn cmds_events(ops: Seq<u8>) -> Seq<BusEvent>
    decreases ops.len(),
{
    if ops.len() == 0 {
        Seq::<BusEvent>::empty()
    } else {
        cmds_events(ops.drop_last()) + cmd_events(ops.last())
    }
}

/// The opcodes of the one-time initialization sequence: display off,
/// column start addresses, start line, contrast, display on.
pub open spec fn init_opcodes() -> Seq<u8> {
    seq![
        CMD_DISPLAY_OFF,
        CMD_LOWER_COL,
        CMD_HIGHER_COL,
        CMD_START_LINE,
        CMD_CONTRAST,
        DEFAULT_CONTRAST,
        CMD_DISPLAY_ON,
    ]
}

/// The wire events of the whole initialization sequence.
pub open spec fn init_events() -> Seq<BusEvent> {
    cmds_events(init_opcodes())
}

/// The wire events of one page data transfer: start, address byte, the
/// data control byte, the page's bytes, stop.
pub open spec fn data_events(row: Seq<u8>) -> Seq<BusEvent> {
    seq![
        BusEvent::Start,
        BusEvent::Write(sla_w(SSD1306_ADDRESS)),
        BusEvent::Write(CTRL_DATA),
    ] + writes_of(row) + seq![BusEvent::Stop]
}

/// The four addressing commands that precede the data of page `p`: page
/// start address, then the full column window (start column 0, end column
/// `w - 1`).
pub open spec fn page_cmds(w: u8, p: int) -> Seq<u8> {
    seq![(CMD_PAGE_START + p) as u8, CMD_COLUMN_ADDR, 0u8, (w - 1) as u8]
}

/// The wire events of flushing page `p`: its addressing commands followed
/// by its `w` buffer bytes as one data transaction.
pub open spec fn page_events(buf: Seq<u8>, w: u8, p: int) -> Seq<BusEvent> {
    cmds_events(page_cmds(w, p)) + data_events(buf.subrange(p * w, (p + 1) * w))
}

/// The wire events of flushing the first `pages` pages in ascending order.
pub open spec fn flush_events(buf: Seq<u8>, w: u8, pages: int) -> Seq<BusEvent>
    decreases pages,
{
    if pages <= 0 {
        Seq::<BusEvent>::empty()
    } else {
        flush_events(buf, w, pages - 1) + page_events(buf, w, pages - 1)
    }
}

/// How many hardware replies flushing one page consumes when everything
/// is acknowledged: four commands of four replies each, then the data
/// transaction (one start reply plus `w + 2` transmitted bytes).
pub open spec fn page_reply_cost(w: u8) -> int {
    19 + w
}

/// The display controller: a bus master, the display geometry, and the
/// off-screen pixel buffer.
pub struct Ssd1306<P: TwiPort> {
    i2c: LocalI2C<P>,
    width: u8,
    height: u8,
    buffer: Vec<u8>,
}

impl<P: TwiPort> Ssd1306<P> {
    /// Geometry consistent with the fixed buffer capacity: at most 128
    /// columns and 64 rows (8 pages of 8 rows), and at least one column.
    pub closed spec fn wf(&self) -> bool {
        &&& self.buffer@.len() == BUFFER_LEN
        &&& 1 <= self.width <= 128
        &&& self.height <= 64
    }

    /// The off-screen buffer contents.
    pub closed spec fn buf(&self) -> Seq<u8> {
        self.buffer@
    }

    /// Display width in pixels.
    pub closed spec fn w(&self) -> u8 {
        self.width
    }

    /// Display height in pixels.
    pub closed spec fn h(&self) -> u8 {
        self.height
    }

    /// Everything the bus master has put on the wire.
    pub closed spec fn wire(&self) -> Seq<BusEvent> {
        self.i2c.wire()
    }

    /// The hardware reply stream seen through the bus master.
    pub closed spec fn reply(&self, i: nat) -> TwiReply {
        self.i2c.reply(i)
    }

    /// How many hardware replies have been consumed.
    pub closed spec fn consumed(&self) -> nat {
        self.i2c.consumed()
    }

    /// Build a controller over `i2c` with a zeroed pixel buffer.
    pub fn new(i2c: LocalI2C<P>, width: u8, height: u8) -> (r: Self)
        requires
            1 <= width <= 128,
            height <= 64,
        ensures
            r.wf(),
            r.w() == width,
            r.h() == height,
            r.buf() == Seq::<u8>::new(BUFFER_LEN as nat, |j: int| 0u8),
            r.wire() == i2c.wire(),
            r.consumed() == i2c.consumed(),
            forall|i: nat| r.reply(i) == i2c.reply(i),
    {
        let mut buffer: Vec<u8> = Vec::new();
        let mut k: usize = 0;
        while k < BUFFER_LEN
            invariant
                k <= BUFFER_LEN,
                buffer@.len() == k,
                forall|j: int| 0 <= j < k ==> buffer@[j] == 0u8,
            decreases BUFFER_LEN - k,
        {
            buffer.push(0);
            k = k + 1;
        }
        proof {
            assert(buffer@ =~= Seq::<u8>::new(BUFFER_LEN as nat, |j: int| 0u8));
        }
        Ssd1306 { i2c, width, height, buffer }
    }

    /// Borrow the bus master, e.g. to inspect a simulated port underneath.
    pub fn bus(&self) -> (r: &LocalI2C<P>)
        ensures
            r.wire() == self.wire(),
            r.consumed() == self.consumed(),
            forall|i: nat| r.reply(i) == self.reply(i),
    {
        &self.i2c
    }

    /// Read one byte of the off-screen buffer.
    pub fn buffer_byte(&self, i: usize) -> (b: u8)
        requires
            self.wf(),
            i < BUFFER_LEN,
        ensures
            b == self.buf()[i as int],
    {
        self.buffer[i]
    }

    /// Set or clear one pixel of the off-screen buffer. Out-of-bounds
    /// coordinates are silently ignored, so rasterization code may draw
    /// unconditionally; nothing is put on the bus.
    pub fn draw_pixel(&mut self, x: u8, y: u8, color: bool)
        requires
            old(self).wf(),
        ensures
            final(self).wf(),
            final(self).w() == old(self).w(),
            final(self).h() == old(self).h(),
            final(self).wire() == old(self).wire(),
            final(self).consumed() == old(self).consumed(),
            forall|i: nat| final(self).reply(i) == old(self).reply(i),
            final(self).buf() == pixel_written(
                old(self).buf(),
                old(self).w(),
                old(self).h(),
                x,
                y,
                color,
            ),
            x < old(self).w() && y < old(self).h() ==> pixel_at(
                final(self).buf(),
                old(self).w(),
                x,
                y,
            ) == color,
            x >= old(self).w() || y >= old(self).h() ==> final(self).buf() == old(self).buf(),
    {
        if x >= self.width || y >= self.height {
            return ;
        }
        proof {
            lemma_pixel_index_bound(self.width, self.height, x, y);
            lemma_pixel_written(self.buffer@, self.width, self.height, x, y, color);
        }
        let byte_index: usize = x as usize + (y as usize / 8) * (self.width as usize);
        let bit_index: u8 = y % 8;
        let b = self.buffer[byte_index];
        if color {
            self.buffer.set(byte_index, b | (1u8 << bit_index));
        } else {
            self.buffer.set(byte_index, b & !(1u8 << bit_index));
        }
    }

    /// Rasterize the line from (x0, y0) to (x1, y1) into the off-screen
    /// buffer with integer Bresenham stepping, both endpoints inclusive
    /// and each plotted exactly once. Every point is clipped by the
    /// bounds check of [`Self::draw_pixel`], so a line that leaves the
    /// screen is clipped pixel by pixel rather than rejected; nothing is
    /// put on the bus.
    pub fn draw_line(&mut self, x0: u8, y0: u8, x1: u8, y1: u8, color: bool)
        requires
            old(self).wf(),
        ensures
            final(self).wf(),
            final(self).w() == old(self).w(),
            final(self).h() == old(self).h(),
            final(self).wire() == old(self).wire(),
            final(self).consumed() == old(self).consumed(),
            forall|i: nat| final(self).reply(i) == old(self).reply(i),
            final(self).buf() == pixels_written(
                old(self).buf(),
                old(self).w(),
                old(self).h(),
                line_points(x0, y0, x1, y1),
                color,
            ),
    {
        let dx_s: i32 = x1 as i32 - x0 as i32;
        let dy_s: i32 = y1 as i32 - y0 as i32;
        let sx: i32 = if dx_s > 0 {
            1
        } else {
            -1
        };
        let sy: i32 = if dy_s > 0 {
            1
        } else {
            -1
        };
        let dx: i32 = if dx_s < 0 {
            -dx_s
        } else {
            dx_s
        };
        let dy: i32 = if dy_s < 0 {
            -dy_s
        } else {
            dy_s
        };
        let mut err: i32 = dx - dy;
        let mut x: i32 = x0 as i32;
        let mut y: i32 = y0 as i32;
        proof {
            assert((x1 as int - x0 as int) * (sx as int) == dx as int) by (nonlinear_arith)
                requires
                    sx == (if x1 as int - x0 as int > 0 {
                        1int
                    } else {
                        -1int
                    }),
                    dx == abs_val(x1 as int - x0 as int),
            ;
            assert((y1 as int - y0 as int) * (sy as int) == dy as int) by (nonlinear_arith)
                requires
                    sy == (if y1 as int - y0 as int > 0 {
                        1int
                    } else {
                        -1int
                    }),
                    dy == abs_val(y1 as int - y0 as int),
            ;
        }
        while x != x1 as i32 || y != y1 as i32
            invariant
                self.wf(),
                self.w() == old(self).w(),
                self.h() == old(self).h(),
                self.wire() == old(self).wire(),
                self.consumed() == old(self).consumed(),
                forall|i: nat| self.reply(i) == old(self).reply(i),
                sx == 1 || sx == -1,
                sy == 1 || sy == -1,
                0 <= dx <= 255,
                0 <= dy <= 255,
                0 <= x <= 255,
                0 <= y <= 255,
                bres_inv(
                    x as int,
                    y as int,
                    x1 as int,
                    y1 as int,
                    dx as int,
                    dy as int,
                    sx as int,
                    sy as int,
                    err as int,
                ),
                pixels_written(
                    self.buf(),
                    old(self).w(),
                    old(self).h(),
                    bres_points(
                        x as int,
                        y as int,
                        x1 as int,
                        y1 as int,
                        dx as int,
                        dy as int,
                        sx as int,
                        sy as int,
                        err as int,
                        ((x1 as int - x) * sx + (y1 as int - y) * sy) as nat,
                    ),
                    color,
                ) == pixels_written(
                    old(self).buf(),
                    old(self).w(),
                    old(self).h(),
                    line_points(x0, y0, x1, y1),
                    color,
                ),
            decreases (x1 as int - x) * sx + (y1 as int - y) * sy,
        {
            let ghost rx = (x1 as int - x) * (sx as int);
            let ghost ry = (y1 as int - y) * (sy as int);
            let ghost pts = bres_points(
                x as int,
                y as int,
                x1 as int,
                y1 as int,
                dx as int,
                dy as int,
                sx as int,
                sy as int,
                err as int,
                (rx + ry) as nat,
            );
            let ghost buf0 = self.buf();
            proof {
                lemma_bres_step(
                    x as int,
                    y as int,
                    x1 as int,
                    y1 as int,
                    dx as int,
                    dy as int,
                    sx as int,
                    sy as int,
                    err as int,
                );
            }
            self.draw_pixel(x as u8, y as u8, color);
            let e2: i32 = 2 * err;
            if e2 > -dy {
                err = err - dy;
                x = x + sx;
            }
            if e2 < dx {
                err = err + dx;
                y = y + sy;
            }
            proof {
                let rest = bres_points(
                    x as int,
                    y as int,
                    x1 as int,
                    y1 as int,
                    dx as int,
                    dy as int,
                    sx as int,
                    sy as int,
                    err as int,
                    ((x1 as int - x) * sx + (y1 as int - y) * sy) as nat,
                );
                assert(pts.drop_first() =~= rest);
                assert(self.buf() == pixel_written(
                    buf0,
                    old(self).w(),
                    old(self).h(),
                    pts[0].0 as u8,
                    pts[0].1 as u8,
                    color,
                ));
            }
        }
        let ghost buf_exit = self.buf();
        self.draw_pixel(x as u8, y as u8, color);
        proof {
            let pts = bres_points(
                x as int,
                y as int,
                x1 as int,
                y1 as int,
                dx as int,
                dy as int,
                sx as int,
                sy as int,
                err as int,
                ((x1 as int - x) * sx + (y1 as int - y) * sy) as nat,
            );
            assert(pts == seq![(x as int, y as int)]);
            assert(pts.drop_first() =~= Seq::<(int, int)>::empty());
            assert(pixels_written(self.buf(), old(self).w(), old(self).h(), pts.drop_first(), color)
                == self.buf());
        }
    }

    /// All replies of one transaction that transmits `n` bytes after its
    /// start report success: the start is seen transmitted and every byte
    /// is acknowledged without a write collision.
    pub open spec fn txn_acked(&self, base: nat, n: nat) -> bool {
        &&& rep_started(self.reply(base))
        &&& forall|j: nat| base + 1 <= j < base + 1 + n ==> rep_mt_acked(#[trigger] self.reply(j))
    }

    /// How many leading transmit steps of a transaction go through.
    pub closed spec fn acked(&self, base: nat, n: nat) -> nat {
        self.i2c.acked_steps(base, n)
    }

    /// The bus error a failing transaction reports: a bad start is a
    /// protocol error; otherwise the first failing byte decides between a
    /// write collision and a missing acknowledge.
    pub open spec fn txn_cause(&self, base: nat, n: nat) -> I2cError {
        if !rep_started(self.reply(base)) {
            I2cError::ProtocolError
        } else if self.acked(base + 1, n) < n && self.reply(base + 1 + self.acked(base + 1, n)).wc {
            I2cError::WriteCollision
        } else {
            I2cError::NackError
        }
    }

    /// All of `k` consecutive command transactions, whose replies start at
    /// index `base`, are fully acknowledged.
    pub open spec fn cmds_all_acked(&self, base: nat, k: nat) -> bool
        decreases k,
    {
        k == 0 || (self.txn_acked(base, 3) && self.cmds_all_acked(base + 4, (k - 1) as nat))
    }

    /// The error of the first failing transaction of a command list.
    pub open spec fn cmds_error(&self, base: nat, ops: Seq<u8>) -> DisplayError
        decreases ops.len(),
    {
        if ops.len() == 0 {
            DisplayError::Command { opcode: 0, cause: I2cError::ProtocolError }
        } else if !self.txn_acked(base, 3) {
            DisplayError::Command { opcode: ops[0], cause: self.txn_cause(base, 3) }
        } else {
            self.cmds_error(base + 4, ops.drop_first())
        }
    }

    /// Relates the per-transaction success predicate to the acknowledged
    /// step count of the underlying reply stream.
    proof fn lemma_txn_acked_count(&self, base: nat, n: nat)
        ensures
            self.txn_acked(base, n) <==> (rep_started(self.reply(base)) && self.acked(base + 1, n)
                == n),
            self.acked(base + 1, n) <= n,
            self.acked(base + 1, n) < n ==> !rep_mt_acked(
                self.reply(base + 1 + self.acked(base + 1, n)),
            ),
    {
        self.i2c.lemma_acked_steps_props(base + 1, n);
        if rep_started(self.reply(base)) && self.acked(base + 1, n) == n {
            assert forall|j: nat| base + 1 <= j < base + 1 + n implies rep_mt_acked(
                #[trigger] self.reply(j),
            ) by {
                assert(rep_mt_acked(self.i2c.reply(j)));
            }
        }
        if self.txn_acked(base, n) {
            assert forall|j: nat| base + 1 <= j < base + 1 + n implies rep_mt_acked(
                #[trigger] self.i2c.reply(j),
            ) by {
                assert(rep_mt_acked(self.reply(j)));
            }
            self.i2c.lemma_acked_steps_full(base + 1, n);
        }
    }

    /// A transaction's outcome depends only on the replies it consumes.
    proof fn lemma_txn_frame(a: &Self, b: &Self, base: nat, n: nat)
        requires
            forall|j: nat| base <= j < base + 1 + n ==> #[trigger] a.reply(j) == b.reply(j),
        ensures
            a.txn_acked(base, n) == b.txn_acked(base, n),
            a.txn_cause(base, n) == b.txn_cause(base, n),
    {
        assert forall|j: nat| base + 1 <= j < base + 1 + n implies #[trigger] a.i2c.reply(j)
            == b.i2c.reply(j) by {
            assert(a.reply(j) == b.reply(j));
        }
        LocalI2C::lemma_acked_steps_frame(&a.i2c, &b.i2c, base + 1, n);
        a.i2c.lemma_acked_steps_props(base + 1, n);
        assert(a.reply(base) == b.reply(base));
        if a.txn_acked(base, n) {
            assert forall|j: nat| base + 1 <= j < base + 1 + n implies rep_mt_acked(
                #[trigger] b.reply(j),
            ) by {
                assert(rep_mt_acked(a.reply(j)));
            }
        }
        if b.txn_acked(base, n) {
            assert forall|j: nat| base + 1 <= j < base + 1 + n implies rep_mt_acked(
                #[trigger] a.reply(j),
            ) by {
                assert(rep_mt_acked(b.reply(j)));
            }
        }
        if a.acked(base + 1, n) < n {
            assert(a.reply(base + 1 + a.acked(base + 1, n)) == b.reply(base + 1 + a.acked(base + 1, n)));
        }
    }

    /// A command list is fully acknowledged exactly when each of its
    /// transactions is.
    proof fn lemma_cmds_all_acked_iff(&self, base: nat, k: nat)
        ensures
            self.cmds_all_acked(base, k) <==> (forall|g: int|
                0 <= g < k ==> #[trigger] self.txn_acked((base + 4 * g) as nat, 3)),
        decreases k,
    {
        if k > 0 {
            self.lemma_cmds_all_acked_iff(base + 4, (k - 1) as nat);
            if self.cmds_all_acked(base, k) {
                assert forall|g: int| 0 <= g < k implies #[trigger] self.txn_acked(
                    (base + 4 * g) as nat,
                    3,
                ) by {
                    if g > 0 {
                        assert(self.txn_acked((base + 4 + 4 * (g - 1)) as nat, 3));
                    }
                }
            }
            if forall|g: int| 0 <= g < k ==> #[trigger] self.txn_acked((base + 4 * g) as nat, 3) {
                assert(self.txn_acked((base + 4 * 0) as nat, 3));
                assert forall|g: int| 0 <= g < k - 1 implies #[trigger] self.txn_acked(
                    ((base + 4) + 4 * g) as nat,
                    3,
                ) by {
                    assert(self.txn_acked((base + 4 * (g + 1)) as nat, 3));
                }
            }
        }
    }

    /// When the first `f` transactions of a command list are acknowledged
    /// and the next one fails, that one decides the list's error.
    proof fn lemma_cmds_error_at(&self, base: nat, ops: Seq<u8>, f: int)
        requires
            0 <= f < ops.len(),
            forall|g: int| 0 <= g < f ==> #[trigger] self.txn_acked((base + 4 * g) as nat, 3),
            !self.txn_acked((base + 4 * f) as nat, 3),
        ensures
            self.cmds_error(base, ops) == (DisplayError::Command {
                opcode: ops[f],
                cause: self.txn_cause((base + 4 * f) as nat, 3),
            }),
            !self.cmds_all_acked(base, ops.len()),
        decreases f,
    {
        if f == 0 {
            self.lemma_cmds_all_acked_iff(base, ops.len());
        } else {
            assert(self.txn_acked((base + 4 * 0) as nat, 3));
            assert forall|g: int| 0 <= g < f - 1 implies #[trigger] self.txn_acked(
                ((base + 4) + 4 * g) as nat,
                3,
            ) by {
                assert(self.txn_acked((base + 4 * (g + 1)) as nat, 3));
            }
            assert((base + 4) + 4 * (f - 1) == base + 4 * f);
            self.lemma_cmds_error_at(base + 4, ops.drop_first(), f - 1);
            assert(ops.drop_first()[f - 1] == ops[f]);
        }
    }

    /// A command list's outcome depends only on the replies it consumes.
    proof fn lemma_cmds_frame(a: &Self, b: &Self, base: nat, ops: Seq<u8>)
        requires
            forall|j: nat| base <= j < base + 4 * ops.len() ==> #[trigger] a.reply(j) == b.reply(j),
        ensures
            a.cmds_all_acked(base, ops.len()) == b.cmds_all_acked(base, ops.len()),
            a.cmds_error(base, ops) == b.cmds_error(base, ops),
        decreases ops.len(),
    {
        if ops.len() > 0 {
            assert forall|j: nat| base <= j < base + 4 implies #[trigger] a.reply(j) == b.reply(
                j,
            ) by {}
            Self::lemma_txn_frame(a, b, base, 3);
            Self::lemma_cmds_frame(a, b, base + 4, ops.drop_first());
        }
    }

    /// Send one single-byte command: a write transaction carrying the
    /// command control byte and the opcode.
    pub fn command(&mut self, cmd: u8) -> (r: Result<(), DisplayError>)
        requires
            old(self).wf(),
        ensures
            final(self).wf(),
            final(self).w() == old(self).w(),
            final(self).h() == old(self).h(),
            final(self).buf() == old(self).buf(),
            final(self).consumed() >= old(self).consumed(),
            forall|i: nat|
                i >= final(self).consumed() ==> final(self).reply(i) == old(self).reply(i),
            r is Ok <==> old(self).txn_acked(old(self).consumed(), 3),
            r is Ok ==> final(self).wire() == old(self).wire() + cmd_events(cmd) && final(self).consumed() == old(self).consumed() + 4,
            r is Err ==> r == Err::<(), DisplayError>(
                DisplayError::Command { opcode: cmd, cause: old(self).txn_cause(old(self).consumed(), 3) },
            ),
    {
        let mut payload: Vec<u8> = Vec::new();
        payload.push(CTRL_COMMAND);
        payload.push(cmd);
        let r = self.i2c.write(SSD1306_ADDRESS, payload.as_slice());
        proof {
            old(self).lemma_txn_acked_count(old(self).consumed(), 3);
        }
        match r {
            Ok(()) => {
                proof {
                    assert(self.wire() =~= old(self).wire() + cmd_events(cmd));
                }
                Ok(())
            },
            Err(e) => Err(DisplayError::Command { opcode: cmd, cause: e }),
        }
    }

    /// Send a list of single-byte commands in order, stopping at the first
    /// transaction that fails.
    pub fn run_commands(&mut self, cmds: &[u8]) -> (r: Result<(), DisplayError>)
        requires
            old(self).wf(),
        ensures
            final(self).wf(),
            final(self).w() == old(self).w(),
            final(self).h() == old(self).h(),
            final(self).buf() == old(self).buf(),
            final(self).consumed() >= old(self).consumed(),
            forall|i: nat|
                i >= final(self).consumed() ==> final(self).reply(i) == old(self).reply(i),
            r is Ok <==> old(self).cmds_all_acked(old(self).consumed(), cmds@.len()),
            r is Ok ==> final(self).wire() == old(self).wire() + cmds_events(cmds@) && final(self).consumed() == old(self).consumed() + 4 * cmds@.len(),
            r is Err ==> r == Err::<(), DisplayError>(
                old(self).cmds_error(old(self).consumed(), cmds@),
            ),
    {
        let ghost c0 = self.consumed();
        let mut i: usize = 0;
        while i < cmds.len()
            invariant
                old(self).wf(),
                self.wf(),
                i <= cmds@.len(),
                c0 == old(self).consumed(),
                self.w() == old(self).w(),
                self.h() == old(self).h(),
                self.buf() == old(self).buf(),
                self.consumed() == c0 + 4 * i,
                self.wire() == old(self).wire() + cmds_events(cmds@.take(i as int)),
                forall|j: nat| j >= self.consumed() ==> self.reply(j) == old(self).reply(j),
                forall|g: int| 0 <= g < i ==> #[trigger] old(self).txn_acked((c0 + 4 * g) as nat, 3),
            decreases cmds@.len() - i,
        {
            let ghost mid = *self;
            let c = cmds[i];
            let r = self.command(c);
            match r {
                Ok(()) => {
                    proof {
                        Self::lemma_txn_frame(&mid, old(self), (c0 + 4 * i) as nat, 3);
                        assert(old(self).txn_acked((c0 + 4 * (i as int)) as nat, 3));
                        assert(cmds@.take(i + 1).drop_last() =~= cmds@.take(i as int));
                        assert(self.wire() =~= old(self).wire() + cmds_events(cmds@.take(i + 1)));
                    }
                    i = i + 1;
                },
                Err(e) => {
                    proof {
                        Self::lemma_txn_frame(&mid, old(self), (c0 + 4 * i) as nat, 3);
                        assert(!old(self).txn_acked((c0 + 4 * (i as int)) as nat, 3));
                        old(self).lemma_cmds_error_at(c0, cmds@, i as int);
                    }
                    return Err(e);
                },
            }
        }
        proof {
            old(self).lemma_cmds_all_acked_iff(c0, cmds@.len());
            assert(cmds@.take(cmds@.len() as int) =~= cmds@);
        }
        Ok(())
    }

    /// Set the page start address (page 0 through 7) for the data bytes
    /// that follow.
    pub fn set_page_address(&mut self, start_page: u8) -> (r: Result<(), DisplayError>)
        requires
            old(self).wf(),
            start_page < PAGES,
        ensures
            final(self).wf(),
            final(self).w() == old(self).w(),
            final(self).h() == old(self).h(),
            final(self).buf() == old(self).buf(),
            final(self).consumed() >= old(self).consumed(),
            forall|i: nat|
                i >= final(self).consumed() ==> final(self).reply(i) == old(self).reply(i),
            r is Ok <==> old(self).txn_acked(old(self).consumed(), 3),
            r is Ok ==> final(self).wire() == old(self).wire() + cmd_events(
                (CMD_PAGE_START + start_page) as u8,
            ) && final(self).consumed() == old(self).consumed() + 4,
            r is Err ==> r == Err::<(), DisplayError>(
                DisplayError::Command {
                    opcode: (CMD_PAGE_START + start_page) as u8,
                    cause: old(self).txn_cause(old(self).consumed(), 3),
                },
            ),
    {
        self.command(CMD_PAGE_START + start_page)
    }

    /// Set the column address window for the data bytes that follow:
    /// three commands carrying the opcode, the start column and the end
    /// column.
    pub fn set_column_address(&mut self, start_column: u8, end_column: u8) -> (r: Result<
        (),
        DisplayError,
    >)
        requires
            old(self).wf(),
        ensures
            final(self).wf(),
            final(self).w() == old(self).w(),
            final(self).h() == old(self).h(),
            final(self).buf() == old(self).buf(),
            final(self).consumed() >= old(self).consumed(),
            forall|i: nat|
                i >= final(self).consumed() ==> final(self).reply(i) == old(self).reply(i),
            r is Ok <==> old(self).cmds_all_acked(old(self).consumed(), 3),
            r is Ok ==> final(self).wire() == old(self).wire() + cmds_events(
                seq![CMD_COLUMN_ADDR, start_column, end_column],
            ) && final(self).consumed() == old(self).consumed() + 12,
            r is Err ==> r == Err::<(), DisplayError>(
                old(self).cmds_error(
                    old(self).consumed(),
                    seq![CMD_COLUMN_ADDR, start_column, end_column],
                ),
            ),
    {
        let mut cmds: Vec<u8> = Vec::new();
        cmds.push(CMD_COLUMN_ADDR);
        cmds.push(start_column);
        cmds.push(end_column);
        let r = self.run_commands(cmds.as_slice());
        proof {
            assert(cmds@ =~= seq![CMD_COLUMN_ADDR, start_column, end_column]);
        }
        r
    }

    /// All replies of flushing one page whose replies start at `base` are
    /// positive: the four addressing commands and the data transaction of
    /// `w + 2` transmitted bytes.
    pub open spec fn page_acked(&self, base: nat, w: u8) -> bool {
        self.cmds_all_acked(base, 4) && self.txn_acked(base + 16, (w + 2) as nat)
    }

    /// All replies of flushing `k` consecutive pages from `base` are
    /// positive.
    pub open spec fn flush_acked(&self, base: nat, w: u8, k: nat) -> bool
        decreases k,
    {
        k == 0 || (self.page_acked(base, w) && self.flush_acked(
            (base + page_reply_cost(w)) as nat,
            w,
            (k - 1) as nat,
        ))
    }

    /// The error reported by the first failing page of a flush of `k`
    /// pages starting at page `p` with replies from `base`: a failing
    /// addressing command is reported as that command's error, a failing
    /// data transaction carries the page number.
    pub open spec fn flush_error(&self, base: nat, w: u8, p: u8, k: nat) -> DisplayError
        decreases k,
    {
        if k == 0 {
            DisplayError::Data { page: PAGES, cause: I2cError::ProtocolError }
        } else if !self.cmds_all_acked(base, 4) {
            self.cmds_error(base, page_cmds(w, p as int))
        } else if !self.txn_acked(base + 16, (w + 2) as nat) {
            DisplayError::Data { page: p, cause: self.txn_cause(base + 16, (w + 2) as nat) }
        } else {
            self.flush_error((base + page_reply_cost(w)) as nat, w, (p + 1) as u8, (k - 1) as nat)
        }
    }

    /// Flush the whole off-screen buffer to the device: for each of the
    /// eight pages in ascending order, set its page address and the full
    /// column window, then stream the page's `w()` buffer bytes as one
    /// data transaction. The device auto-increments only within a page,
    /// so each page is re-addressed and transferred contiguously.
    ///
    /// A bus error aborts the remaining pages: the display may then be
    /// partially updated, and the caller may retry the whole flush.
    pub fn display(&mut self) -> (r: Result<(), DisplayError>)
        requires
            old(self).wf(),
        ensures
            final(self).wf(),
            final(self).w() == old(self).w(),
            final(self).h() == old(self).h(),
            final(self).buf() == old(self).buf(),
            final(self).consumed() >= old(self).consumed(),
            forall|i: nat|
                i >= final(self).consumed() ==> final(self).reply(i) == old(self).reply(i),
            r is Ok <==> old(self).flush_acked(old(self).consumed(), old(self).w(), 8),
            r is Ok ==> final(self).wire() == old(self).wire() + flush_events(
                old(self).buf(),
                old(self).w(),
                8,
            ) && final(self).consumed() == old(self).consumed() + 8 * page_reply_cost(old(self).w()),
            r is Err ==> r == Err::<(), DisplayError>(
                old(self).flush_error(old(self).consumed(), old(self).w(), 0, 8),
            ),
    {
        let ghost c0 = self.consumed();
        let ghost wv = self.width;
        let mut page: u8 = 0;
        while page < PAGES
            invariant
                old(self).wf(),
                self.wf(),
                page <= PAGES,
                c0 == old(self).consumed(),
                wv == old(self).w(),
                self.w() == old(self).w(),
                self.h() == old(self).h(),
                self.buf() == old(self).buf(),
                self.consumed() == c0 + page * page_reply_cost(wv),
                self.wire() == old(self).wire() + flush_events(old(self).buf(), wv, page as int),
                forall|j: nat| j >= self.consumed() ==> self.reply(j) == old(self).reply(j),
                old(self).flush_acked(c0, wv, 8) <==> old(self).flush_acked(
                    self.consumed(),
                    wv,
                    (8 - page) as nat,
                ),
                old(self).flush_error(c0, wv, 0, 8) == old(self).flush_error(
                    self.consumed(),
                    wv,
                    page,
                    (8 - page) as nat,
                ),
            decreases 8 - page,
        {
            let ghost base = self.consumed();
            let ghost mid = *self;
            let mut cmds: Vec<u8> = Vec::new();
            cmds.push(CMD_PAGE_START + page);
            cmds.push(CMD_COLUMN_ADDR);
            cmds.push(0);
            cmds.push(self.width - 1);
            proof {
                assert(cmds@ =~= page_cmds(wv, page as int));
            }
            let rc = self.run_commands(cmds.as_slice());
            if let Err(e) = rc {
                proof {
                    Self::lemma_cmds_frame(&mid, old(self), base, page_cmds(wv, page as int));
                }
                return Err(e);
            }
            proof {
                Self::lemma_cmds_frame(&mid, old(self), base, page_cmds(wv, page as int));
            }
            proof {
                assert((page as int) * (wv as int) + (wv as int) <= 8 * 128) by (nonlinear_arith)
                    requires
                        0 <= page < 8,
                        1 <= wv <= 128,
                ;
            }
            let row_base: usize = (page as usize) * (self.width as usize);
            let mut data: Vec<u8> = Vec::new();
            data.push(CTRL_DATA);
            let mut j: usize = 0;
            while j < self.width as usize
                invariant
                    j <= self.width as usize,
                    self.wf(),
                    wv == self.w(),
                    row_base == (page as int) * (wv as int),
                    row_base + wv <= BUFFER_LEN,
                    data@ == seq![CTRL_DATA] + self.buf().subrange(
                        row_base as int,
                        row_base + j,
                    ),
                decreases self.width as usize - j,
            {
                let b = self.buffer[row_base + j];
                data.push(b);
                j = j + 1;
                proof {
                    assert(data@ =~= seq![CTRL_DATA] + self.buf().subrange(
                        row_base as int,
                        row_base + j,
                    ));
                }
            }
            let ghost mid2 = *self;
            let rd = self.i2c.write(SSD1306_ADDRESS, data.as_slice());
            proof {
                mid2.lemma_txn_acked_count(base + 16, (wv + 2) as nat);
                Self::lemma_txn_frame(&mid2, old(self), base + 16, (wv + 2) as nat);
            }
            if let Err(e) = rd {
                return Err(DisplayError::Data { page, cause: e });
            }
            proof {
                let row = old(self).buf().subrange(
                    (page as int) * (wv as int),
                    (page as int + 1) * (wv as int),
                );
                assert((page as int + 1) * (wv as int) == (page as int) * (wv as int) + (
                wv as int)) by (nonlinear_arith);
                assert(self.wire() =~= mid2.wire() + data_events(row));
                assert(self.wire() =~= old(self).wire() + flush_events(
                    old(self).buf(),
                    wv,
                    page as int + 1,
                ));
                assert((page as int + 1) * page_reply_cost(wv) == (page as int) * page_reply_cost(
                    wv,
                ) + page_reply_cost(wv)) by (nonlinear_arith);
            }
            page = page + 1;
        }
        Ok(())
    }

    /// One-time initialization: display off, column start addresses,
    /// start line, contrast, display on. The sequence only configures the
    /// device, so running it twice leaves the device in the same state.
    pub fn init(&mut self) -> (r: Result<(), DisplayError>)
        requires
            old(self).wf(),
        ensures
            final(self).wf(),
            final(self).w() == old(self).w(),
            final(self).h() == old(self).h(),
            final(self).buf() == old(self).buf(),
            final(self).consumed() >= old(self).consumed(),
            forall|i: nat|
                i >= final(self).consumed() ==> final(self).reply(i) == old(self).reply(i),
            r is Ok <==> old(self).cmds_all_acked(old(self).consumed(), 7),
            r is Ok ==> final(self).wire() == old(self).wire() + init_events() && final(self).consumed() == old(self).consumed() + 28,
            r is Err ==> r == Err::<(), DisplayError>(
                old(self).cmds_error(old(self).consumed(), init_opcodes()),
            ),
    {
        let mut cmds: Vec<u8> = Vec::new();
        cmds.push(CMD_DISPLAY_OFF);
        cmds.push(CMD_LOWER_COL);
        cmds.push(CMD_HIGHER_COL);
        cmds.push(CMD_START_LINE);
        cmds.push(CMD_CONTRAST);
        cmds.push(DEFAULT_CONTRAST);
        cmds.push(CMD_DISPLAY_ON);
        let r = self.run_commands(cmds.as_slice());
        proof {
            assert(cmds@ =~= init_opcodes());
        }
        r
    }
}

} // verus!
