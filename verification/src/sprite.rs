//! Pixel art of the rig (banner, tow line, plane) and of the tray icon,
//! painted as filled rectangles into premultiplied BGRA bitmaps.

use vstd::prelude::*;
use vstd::arithmetic::div_mod::lemma_fundamental_div_mod_converse;

verus! {

/// A filled rectangle: left, top, width, height and 0xRRGGBB color.
pub type Fill = (i32, i32, i32, i32, u32);

pub const C_RED: u32 = 0xe23b3b;
pub const C_RED_D: u32 = 0xc62f2f;
pub const C_RED_DD: u32 = 0xa81f1f;
pub const C_PINK: u32 = 0xf7a9a9;
pub const C_GREY: u32 = 0xc9d4e0;
pub const C_GREY_L: u32 = 0xe6edf4;
pub const C_GLASS: u32 = 0xbfe3ff;
pub const C_DARK: u32 = 0x3b3f47;
pub const C_DARKER: u32 = 0x2b2f36;
pub const C_HUB: u32 = 0xffcf3f;

/// Width and height of the unscaled rig.
pub const RIG_WIDTH: usize = 900;
pub const RIG_HEIGHT: usize = 200;

/// Side of the tray icon.
pub const ICON_SIZE: usize = 32;

/// A bitmap: `w` by `h` pixels, four bytes each (blue, green, red, alpha,
/// premultiplied), rows from the top.
pub struct Bitmap {
    pub w: usize,
    pub h: usize,
    pub px: Vec<u8>,
}

/// Offset of channel `c` of pixel (`x`, `y`) in a bitmap `w` pixels wide.
pub open spec fn offset(w: int, x: int, y: int, c: int) -> int {
    (y * w + x) * 4 + c
}

/// Channel `c` (0 blue, 1 green, 2 red, 3 alpha) of an opaque 0xRRGGBB color.
pub open spec fn channel(rgb: u32, c: int) -> u8 {
    if c == 0 {
        (rgb % 256) as u8
    } else if c == 1 {
        ((rgb / 256) % 256) as u8
    } else if c == 2 {
        ((rgb / 65536) % 256) as u8
    } else {
        255
    }
}

/// The rectangle covers pixel (`x`, `y`).
pub open spec fn covers(f: Fill, x: int, y: int) -> bool {
    f.0 <= x < f.0 + f.2 && f.1 <= y < f.1 + f.3
}

/// Channel `c` of pixel (`x`, `y`) once `fills` are painted in order over a
/// pixel whose channel was `base`: the last rectangle that covers the pixel
/// decides.
pub open spec fn painted(fills: Seq<Fill>, x: int, y: int, c: int, base: u8) -> u8
    decreases fills.len(),
{
    if fills.len() == 0 {
        base
    } else if covers(fills.last(), x, y) {
        channel(fills.last().4, c)
    } else {
        painted(fills.drop_last(), x, y, c, base)
    }
}

impl Bitmap {
    /// The bytes are exactly the pixels.
    pub open spec fn wf(&self) -> bool {
        self.px@.len() == self.w * self.h * 4
    }

    /// The sides fit in an `i32`, the type of painting coordinates.
    pub open spec fn sides_fit(&self) -> bool {
        self.w <= i32::MAX && self.h <= i32::MAX
    }

    /// Channel `c` of pixel (`x`, `y`).
    pub open spec fn at(&self, x: int, y: int, c: int) -> u8 {
        self.px@[offset(self.w as int, x, y, c)]
    }

    /// No color channel exceeds the alpha of its pixel (premultiplied alpha).
    pub open spec fn premultiplied(&self) -> bool {
        forall|x: int, y: int, c: int|
            0 <= x < self.w && 0 <= y < self.h && 0 <= c < 3 ==> #[trigger] self.at(x, y, c)
                <= self.at(x, y, 3)
    }

    /// A fully transparent bitmap.
    pub fn new(w: usize, h: usize) -> (b: Bitmap)
        requires
            w * h * 4 <= usize::MAX,
        ensures
            b.wf(),
            b.w == w,
            b.h == h,
            forall|i: int| 0 <= i < b.px@.len() ==> b.px@[i] == 0,
    {
        let n = w * h * 4;
        let mut px: Vec<u8> = Vec::new();
        let mut i: usize = 0;
        while i < n
            invariant
                i <= n,
                px@.len() == i,
                forall|k: int| 0 <= k < i ==> px@[k] == 0,
            decreases n - i,
        {
            px.push(0);
            i = i + 1;
        }
        Bitmap { w, h, px }
    }

    /// Paints the rectangle (`x`, `y`, `w`, `h`) with the opaque color
    /// `rgb`, clipped to the bitmap.
    pub fn fill_rect(&mut self, x: i32, y: i32, w: i32, h: i32, rgb: u32)
        requires
            old(self).wf(),
            old(self).sides_fit(),
            i32::MIN <= x + w <= i32::MAX,
            i32::MIN <= y + h <= i32::MAX,
        ensures
            final(self).wf(),
            final(self).w == old(self).w,
            final(self).h == old(self).h,
            forall|xx: int, yy: int, c: int|
                0 <= xx < old(self).w && 0 <= yy < old(self).h && 0 <= c < 4
                    ==> #[trigger] final(self).at(xx, yy, c) == if covers((x, y, w, h, rgb), xx, yy) {
                    channel(rgb, c)
                } else {
                    old(self).at(xx, yy, c)
                },
    {
        let bw = self.w;
        let bh = self.h;
        let b = (rgb % 256) as u8;
        let g = ((rgb / 256) % 256) as u8;
        let r = ((rgb / 65536) % 256) as u8;
        let y0: i32 = if y > 0 {
            y
        } else {
            0
        };
        let y1: i32 = if y + h < bh as i32 {
            y + h
        } else {
            bh as i32
        };
        let x0: i32 = if x > 0 {
            x
        } else {
            0
        };
        let x1: i32 = if x + w < bw as i32 {
            x + w
        } else {
            bw as i32
        };
        let ghost f: Fill = (x, y, w, h, rgb);
        let mut yy: i32 = y0;
        while yy < y1
            invariant
                self.wf(),
                bw <= i32::MAX,
                bh <= i32::MAX,
                self.w == bw,
                self.h == bh,
                self.w == old(self).w,
                self.h == old(self).h,
                0 <= y0 <= yy,
                yy <= y1 || yy == y0,
                y1 <= bh,
                0 <= x0,
                x1 <= bw,
                y0 == (if y > 0 { y } else { 0 }),
                y1 == (if y + h < bh { y + h } else { bh as int }),
                x0 == (if x > 0 { x } else { 0 }),
                x1 == (if x + w < bw { x + w } else { bw as int }),
                f == (x, y, w, h, rgb),
                b == channel(rgb, 0),
                g == channel(rgb, 1),
                r == channel(rgb, 2),
                forall|xx: int, yy2: int, c: int|
                    0 <= xx < bw && 0 <= yy2 < bh && 0 <= c < 4 ==> #[trigger] self.at(xx, yy2, c)
                        == if covers(f, xx, yy2) && yy2 < yy {
                        channel(rgb, c)
                    } else {
                        old(self).at(xx, yy2, c)
                    },
            decreases y1 - yy,
        {
            let mut xx: i32 = x0;
            while xx < x1
                invariant
                    self.wf(),
                    bw <= i32::MAX,
                    bh <= i32::MAX,
                    self.w == bw,
                    self.h == bh,
                    0 <= y0 <= yy < y1 <= bh,
                    0 <= x0 <= xx,
                    xx <= x1 || xx == x0,
                    x1 <= bw,
                    x0 == (if x > 0 { x } else { 0 }),
                    x1 == (if x + w < bw { x + w } else { bw as int }),
                    y0 == (if y > 0 { y } else { 0 }),
                    y1 == (if y + h < bh { y + h } else { bh as int }),
                    f == (x, y, w, h, rgb),
                    b == channel(rgb, 0),
                    g == channel(rgb, 1),
                    r == channel(rgb, 2),
                    forall|px: int, py: int, c: int|
                        0 <= px < bw && 0 <= py < bh && 0 <= c < 4 ==> #[trigger] self.at(px, py, c)
                            == if covers(f, px, py) && (py < yy || (py == yy && px < xx)) {
                            channel(rgb, c)
                        } else {
                            old(self).at(px, py, c)
                        },
                decreases x1 - xx,
            {
                let n = self.px.len();
                proof {
                    lemma_offset_bounds(bw as int, bh as int, xx as int, yy as int);
                    assert(n == bw * bh * 4);
                    assert((yy * bw + xx) * 4 + 3 < n);
                    assert(0 <= yy * bw) by (nonlinear_arith)
                        requires
                            0 <= yy,
                            0 <= bw,
                    ;
                }
                let i = (yy as usize * bw + xx as usize) * 4;
                let ghost before = *self;
                self.px.set(i, b);
                self.px.set(i + 1, g);
                self.px.set(i + 2, r);
                self.px.set(i + 3, 255);
                proof {
                    assert forall|px: int, py: int, c: int|
                        0 <= px < bw && 0 <= py < bh && 0 <= c < 4 implies #[trigger] self.at(
                            px,
                            py,
                            c,
                        ) == if covers(f, px, py) && (py < yy || (py == yy && px < xx + 1)) {
                            channel(rgb, c)
                        } else {
                            old(self).at(px, py, c)
                        } by {
                        let k = offset(bw as int, px, py, c);
                        lemma_offset_bounds(bw as int, bh as int, px, py);
                        if px == xx && py == yy {
                            assert(k == i + c);
                        } else {
                            if i <= k < i + 4 {
                                lemma_offset_injective(bw as int, px, py, c, xx as int, yy as int, k - i);
                            }
                            assert(self.px@[k] == before.px@[k]);
                            assert(before.at(px, py, c) == self.at(px, py, c));
                        }
                    }
                }
                xx = xx + 1;
            }
            yy = yy + 1;
        }
    }
}

/// Each rectangle's right and bottom edges fit in an `i32`.
pub open spec fn fills_fit(fills: Seq<Fill>) -> bool {
    forall|k: int|
        0 <= k < fills.len() ==> i32::MIN <= (#[trigger] fills[k]).0 + fills[k].2 <= i32::MAX
            && i32::MIN <= fills[k].1 + fills[k].3 <= i32::MAX
}

/// Paints `fills` in order.
pub fn paint(b: &mut Bitmap, fills: &Vec<Fill>)
    requires
        old(b).wf(),
        old(b).sides_fit(),
        fills_fit(fills@),
    ensures
        final(b).wf(),
        final(b).w == old(b).w,
        final(b).h == old(b).h,
        forall|x: int, y: int, c: int|
            0 <= x < old(b).w && 0 <= y < old(b).h && 0 <= c < 4 ==> #[trigger] final(b).at(x, y, c)
                == painted(fills@, x, y, c, old(b).at(x, y, c)),
{
    let mut k: usize = 0;
    while k < fills.len()
        invariant
            k <= fills@.len(),
            fills_fit(fills@),
            b.wf(),
            b.sides_fit(),
            b.w == old(b).w,
            b.h == old(b).h,
            forall|x: int, y: int, c: int|
                0 <= x < old(b).w && 0 <= y < old(b).h && 0 <= c < 4 ==> #[trigger] b.at(x, y, c)
                    == painted(fills@.take(k as int), x, y, c, old(b).at(x, y, c)),
        decreases fills@.len() - k,
    {
        let f = fills[k];
        assert(fills@.take(k + 1).drop_last() =~= fills@.take(k as int));
        assert(fills@.take(k + 1).last() == f);
        assert(i32::MIN <= fills@[k as int].0 + fills@[k as int].2 <= i32::MAX);
        b.fill_rect(f.0, f.1, f.2, f.3, f.4);
        k = k + 1;
    }
    assert(fills@.take(k as int) =~= fills@);
}

/// The banner that carries the text.
pub open spec fn banner_fills() -> Seq<Fill> {
    seq![
        (40i32, 86i32, 10i32, 28i32, C_RED_DD),
        (50i32, 78i32, 10i32, 44i32, C_RED_D),
        (60i32, 72i32, 500i32, 56i32, C_RED),
        (60i32, 72i32, 500i32, 6i32, C_PINK),
        (60i32, 122i32, 500i32, 6i32, C_RED_DD),
    ]
}

/// The plane: fin, fuselage, windows, wing, landing gear, nose, propeller.
pub open spec fn plane_fills() -> Seq<Fill> {
    seq![
        (716i32, 60i32, 16i32, 34i32, C_GREY),
        (716i32, 60i32, 16i32, 6i32, C_GREY_L),
        (730i32, 82i32, 92i32, 10i32, C_RED),
        (720i32, 92i32, 112i32, 10i32, C_RED),
        (720i32, 102i32, 112i32, 10i32, C_RED_D),
        (730i32, 112i32, 92i32, 10i32, C_RED_D),
        (786i32, 84i32, 14i32, 8i32, C_GLASS),
        (804i32, 84i32, 14i32, 8i32, C_GLASS),
        (738i32, 122i32, 72i32, 10i32, C_GREY),
        (738i32, 122i32, 72i32, 4i32, C_GREY_L),
        (754i32, 132i32, 4i32, 12i32, C_DARK),
        (794i32, 132i32, 4i32, 12i32, C_DARK),
        (746i32, 144i32, 20i32, 8i32, C_DARKER),
        (786i32, 144i32, 20i32, 8i32, C_DARKER),
        (832i32, 92i32, 12i32, 20i32, C_DARKER),
        (840i32, 94i32, 10i32, 10i32, C_HUB),
        (850i32, 74i32, 6i32, 56i32, C_DARK),
    ]
}

/// The dashed tow line from (560, 96) to (700, 92): fourteen 3×5 dashes,
/// 10 pixels apart, the height interpolated.
pub open spec fn tow_line_fills() -> Seq<Fill> {
    Seq::new(14, |i: int| ((560 + 10 * i) as i32, (94 - (4 * i) / 14) as i32, 3i32, 5i32, C_DARK))
}

/// Everything of the rig but its text, in painting order.
pub open spec fn rig_fills() -> Seq<Fill> {
    banner_fills() + tow_line_fills() + plane_fills()
}

/// A plane rectangle moved into the 32×32 icon: offsets from (716, 60) and
/// sizes scaled by 32/140 (truncated; sizes at least 1), 5 pixels down.
pub open spec fn icon_fill(f: Fill) -> Fill {
    let w = (f.2 * 32) / 140;
    let h = (f.3 * 32) / 140;
    (
        (((f.0 - 716) * 32) / 140) as i32,
        (((f.1 - 60) * 32) / 140 + 5) as i32,
        (if w < 1 { 1 } else { w }) as i32,
        (if h < 1 { 1 } else { h }) as i32,
        f.4,
    )
}

/// The rectangles of the tray icon.
pub open spec fn icon_fills() -> Seq<Fill> {
    plane_fills().map_values(|f: Fill| icon_fill(f))
}

fn banner_rects() -> (r: Vec<Fill>)
    ensures
        r@ == banner_fills(),
{
    let r: Vec<Fill> = vec![
        (40, 86, 10, 28, C_RED_DD),
        (50, 78, 10, 44, C_RED_D),
        (60, 72, 500, 56, C_RED),
        (60, 72, 500, 6, C_PINK),
        (60, 122, 500, 6, C_RED_DD),
    ];
    assert(r@ =~= banner_fills());
    r
}

fn plane_rects() -> (r: Vec<Fill>)
    ensures
        r@ == plane_fills(),
{
    let r: Vec<Fill> = vec![
        (716, 60, 16, 34, C_GREY),
        (716, 60, 16, 6, C_GREY_L),
        (730, 82, 92, 10, C_RED),
        (720, 92, 112, 10, C_RED),
        (720, 102, 112, 10, C_RED_D),
        (730, 112, 92, 10, C_RED_D),
        (786, 84, 14, 8, C_GLASS),
        (804, 84, 14, 8, C_GLASS),
        (738, 122, 72, 10, C_GREY),
        (738, 122, 72, 4, C_GREY_L),
        (754, 132, 4, 12, C_DARK),
        (794, 132, 4, 12, C_DARK),
        (746, 144, 20, 8, C_DARKER),
        (786, 144, 20, 8, C_DARKER),
        (832, 92, 12, 20, C_DARKER),
        (840, 94, 10, 10, C_HUB),
        (850, 74, 6, 56, C_DARK),
    ];
    assert(r@ =~= plane_fills());
    r
}

/// The dashes of the tow line.
pub fn tow_line_rects() -> (r: Vec<Fill>)
    ensures
        r@ == tow_line_fills(),
{
    let mut r: Vec<Fill> = Vec::new();
    let mut i: i32 = 0;
    while i < 14
        invariant
            0 <= i <= 14,
            r@ == tow_line_fills().take(i as int),
        decreases 14 - i,
    {
        let x = 560 + i * 10;
        let y = 96 - (i * 4) / 14;
        r.push((x, y - 2, 3, 5, C_DARK));
        assert(r@ =~= tow_line_fills().take(i + 1));
        i = i + 1;
    }
    assert(tow_line_fills().take(14) =~= tow_line_fills());
    r
}

/// The rig (banner, tow line and plane) before its text, 900×200 pixels.
pub fn render_rig_shapes() -> (b: Bitmap)
    ensures
        b.wf(),
        b.w == RIG_WIDTH,
        b.h == RIG_HEIGHT,
        forall|x: int, y: int, c: int|
            0 <= x < RIG_WIDTH && 0 <= y < RIG_HEIGHT && 0 <= c < 4 ==> #[trigger] b.at(x, y, c)
                == painted(rig_fills(), x, y, c, 0),
{
    let mut b = Bitmap::new(RIG_WIDTH, RIG_HEIGHT);
    let mut fills = banner_rects();
    let mut tow = tow_line_rects();
    let mut plane = plane_rects();
    fills.append(&mut tow);
    fills.append(&mut plane);
    assert(fills@ =~= rig_fills());
    assert(fills_fit(fills@));
    let ghost blank = b;
    proof {
        assert forall|x: int, y: int, c: int|
            0 <= x < RIG_WIDTH && 0 <= y < RIG_HEIGHT && 0 <= c < 4 implies #[trigger] blank.at(x, y, c) == 0 by {
            lemma_offset_bounds(RIG_WIDTH as int, RIG_HEIGHT as int, x, y);
        }
    }
    paint(&mut b, &fills);
    b
}

/// The 32×32 tray icon: the plane alone, moved and scaled down.
pub fn render_icon() -> (b: Bitmap)
    ensures
        b.wf(),
        b.w == ICON_SIZE,
        b.h == ICON_SIZE,
        forall|x: int, y: int, c: int|
            0 <= x < ICON_SIZE && 0 <= y < ICON_SIZE && 0 <= c < 4 ==> #[trigger] b.at(x, y, c)
                == painted(icon_fills(), x, y, c, 0),
{
    let mut b = Bitmap::new(ICON_SIZE, ICON_SIZE);
    let plane = plane_rects();
    let mut fills: Vec<Fill> = Vec::new();
    let mut k: usize = 0;
    while k < plane.len()
        invariant
            k <= plane@.len(),
            plane@ == plane_fills(),
            fills@ == icon_fills().take(k as int),
        decreases plane@.len() - k,
    {
        let (x, y, w, h, c) = plane[k];
        let sx = ((x - 716) * 32) / 140;
        let sy = ((y - 60) * 32) / 140 + 5;
        let sw0 = (w * 32) / 140;
        let sh0 = (h * 32) / 140;
        let sw = if sw0 < 1 {
            1
        } else {
            sw0
        };
        let sh = if sh0 < 1 {
            1
        } else {
            sh0
        };
        fills.push((sx, sy, sw, sh, c));
        assert(icon_fills()[k as int] == icon_fill(plane_fills()[k as int]));
        assert(fills@ =~= icon_fills().take(k + 1));
        k = k + 1;
    }
    assert(icon_fills().take(17) =~= icon_fills());
    let ghost blank = b;
    proof {
        assert forall|x: int, y: int, c: int|
            0 <= x < ICON_SIZE && 0 <= y < ICON_SIZE && 0 <= c < 4 implies #[trigger] blank.at(x, y, c) == 0 by {
            lemma_offset_bounds(ICON_SIZE as int, ICON_SIZE as int, x, y);
        }
    }
    paint(&mut b, &fills);
    b
}

/// Painting over a transparent pixel leaves it premultiplied: each color
/// channel is at most the alpha.
pub proof fn law_painted_pixels_are_premultiplied(fills: Seq<Fill>, x: int, y: int, c: int)
    requires
        0 <= c < 3,
    ensures
        painted(fills, x, y, c, 0) <= painted(fills, x, y, 3, 0),
    decreases fills.len(),
{
    if fills.len() > 0 && !covers(fills.last(), x, y) {
        law_painted_pixels_are_premultiplied(fills.drop_last(), x, y, c);
    }
}

/// The icon is the plane scaled down, each rectangle keeping its place and
/// its orientation: left and top move by (716, 60), scale by 32/140 and go 5
/// pixels down; the width scales from the width and the height from the
/// height (both at least 1); the color stays.
pub proof fn law_icon_rectangles_scale_the_plane()
    ensures
        icon_fills().len() == plane_fills().len(),
        forall|k: int|
            0 <= k < plane_fills().len() ==> {
                let p = plane_fills()[k];
                let q = #[trigger] icon_fills()[k];
                &&& q.0 == ((p.0 - 716) * 32) / 140
                &&& q.1 == ((p.1 - 60) * 32) / 140 + 5
                &&& q.2 == if (p.2 * 32) / 140 < 1 { 1 } else { (p.2 * 32) / 140 }
                &&& q.3 == if (p.3 * 32) / 140 < 1 { 1 } else { (p.3 * 32) / 140 }
                &&& q.4 == p.4
            },
{
}

proof fn lemma_painted_uncovered_tail(f: Seq<Fill>, k: int, x: int, y: int, c: int)
    requires
        0 <= k <= f.len(),
        forall|j: int| k <= j < f.len() ==> !covers(#[trigger] f[j], x, y),
    ensures
        painted(f, x, y, c, 0) == painted(f.take(k), x, y, c, 0),
    decreases f.len() - k,
{
    if k < f.len() {
        lemma_painted_uncovered_tail(f, k + 1, x, y, c);
        let t = f.take(k + 1);
        assert(t.last() == f[k]);
        assert(t.drop_last() =~= f.take(k));
    } else {
        assert(f.take(k) =~= f);
    }
}

/// Pixel (10, 12) of the icon lies on the fuselage, (0, 12) to (25, 14): it
/// is opaque red.
pub proof fn law_icon_fuselage_is_red(c: int)
    requires
        0 <= c < 4,
    ensures
        painted(icon_fills(), 10, 12, c, 0) == channel(C_RED, c),
{
    let f = icon_fills();
    let p = plane_fills();
    assert(f.len() == 17);
    assert forall|j: int| 4 <= j < 17 implies !covers(#[trigger] f[j], 10, 12) by {
        assert(f[j] == icon_fill(p[j]));
    }
    lemma_painted_uncovered_tail(f, 4, 10, 12, c);
    let t = f.take(4);
    assert(t.last() == f[3]);
    assert(f[3] == icon_fill(p[3]));
    assert(covers(f[3], 10, 12));
    assert(f[3].4 == C_RED);
}

proof fn lemma_offset_bounds(w: int, h: int, x: int, y: int)
    requires
        0 <= x < w,
        0 <= y < h,
    ensures
        0 <= offset(w, x, y, 0),
        offset(w, x, y, 3) < w * h * 4,
        offset(w, x, y, 0) + 4 <= w * h * 4,
{
    assert(y * w + x < w * h) by (nonlinear_arith)
        requires
            0 <= x < w,
            0 <= y < h,
    ;
    assert(0 <= y * w) by (nonlinear_arith)
        requires
            0 <= y,
            0 <= w,
    ;
}

proof fn lemma_offset_injective(w: int, x1: int, y1: int, c1: int, x2: int, y2: int, c2: int)
    requires
        0 <= x1 < w,
        0 <= x2 < w,
        0 <= y1,
        0 <= y2,
        0 <= c1 < 4,
        0 <= c2 < 4,
        offset(w, x1, y1, c1) == offset(w, x2, y2, c2),
    ensures
        x1 == x2 && y1 == y2 && c1 == c2,
{
    let k = offset(w, x1, y1, c1);
    lemma_fundamental_div_mod_converse(k, 4, y1 * w + x1, c1);
    lemma_fundamental_div_mod_converse(k, 4, y2 * w + x2, c2);
    let p = y1 * w + x1;
    lemma_fundamental_div_mod_converse(p, w, y1, x1);
    lemma_fundamental_div_mod_converse(p, w, y2, x2);
}

} // verus!
