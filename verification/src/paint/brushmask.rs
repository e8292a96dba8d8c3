//! Brush masks
use crate::strings::{ascii_art, ascii_row, string_push};
use vstd::prelude::*;

verus! {

pub struct BrushMask {
    /// Brush diameter (mask shape is a square)
    pub diameter: u32,
    /// Brush mask (length is diameter^2)
    pub mask: Vec<u8>,
}

impl BrushMask {
    /// The mask holds diameter² values
    pub open spec fn wf(&self) -> bool {
        self.mask@.len() == self.diameter * self.diameter
    }

    /// Whether the pixel at column `x`, row `y` of a round mask of the given
    /// diameter lies inside the circle: its center, at `x + 0.5, y + 0.5`, is
    /// closer than `diameter / 2` to the mask's center. (Doubled, so that
    /// every quantity is an integer.)
    pub open spec fn in_round(diameter: int, x: int, y: int) -> bool {
        (2 * x - diameter + 1) * (2 * x - diameter + 1) + (2 * y - diameter + 1) * (2 * y
            - diameter + 1) < diameter * diameter
    }

    /// A round brush mask of whole pixels: `opacity` inside the circle,
    /// 0 outside
    pub fn new_round_pixel(diameter: u32, opacity: u8) -> (m: BrushMask)
        requires
            diameter * diameter <= u32::MAX,
        ensures
            m.diameter == diameter,
            m.wf(),
            forall|i: int|
                0 <= i < diameter * diameter ==> #[trigger] m.mask@[i] == if BrushMask::in_round(
                    diameter as int,
                    i % diameter as int,
                    i / diameter as int,
                ) {
                    opacity
                } else {
                    0
                },
    {
        let d = diameter as i64;
        let rr: i64 = d * d;
        let mut mask: Vec<u8> = Vec::new();
        let mut y: u32 = 0;
        while y < diameter
            invariant
                y <= diameter,
                d == diameter,
                rr == d * d,
                diameter * diameter <= u32::MAX,
                mask@.len() == y * diameter,
                forall|i: int|
                    0 <= i < mask@.len() ==> #[trigger] mask@[i] == if BrushMask::in_round(
                        diameter as int,
                        i % diameter as int,
                        i / diameter as int,
                    ) {
                        opacity
                    } else {
                        0
                    },
            decreases diameter - y,
        {
            let dy: i64 = 2 * (y as i64) - d + 1;
            proof {
                assert(0 <= dy * dy <= d * d <= u32::MAX) by (nonlinear_arith)
                    requires
                        dy == 2 * y - d + 1,
                        0 <= y < d,
                        d == diameter,
                        diameter * diameter <= u32::MAX,
                ;
            }
            let yy: i64 = dy * dy;
            let mut x: u32 = 0;
            while x < diameter
                invariant
                    x <= diameter,
                    y < diameter,
                    d == diameter,
                    rr == d * d,
                    dy == 2 * y - d + 1,
                    yy == dy * dy,
                    0 <= yy <= d * d <= u32::MAX,
                    diameter * diameter <= u32::MAX,
                    mask@.len() == y * diameter + x,
                    forall|i: int|
                        0 <= i < mask@.len() ==> #[trigger] mask@[i] == if BrushMask::in_round(
                            diameter as int,
                            i % diameter as int,
                            i / diameter as int,
                        ) {
                            opacity
                        } else {
                            0
                        },
                decreases diameter - x,
            {
                let dx: i64 = 2 * (x as i64) - d + 1;
                proof {
                    assert(0 <= dx * dx <= d * d <= u32::MAX) by (nonlinear_arith)
                        requires
                            dx == 2 * x - d + 1,
                            0 <= x < d,
                            d == diameter,
                            diameter * diameter <= u32::MAX,
                    ;
                    vstd::arithmetic::div_mod::lemma_fundamental_div_mod_converse(
                        y * diameter + x,
                        diameter as int,
                        y as int,
                        x as int,
                    );
                }
                let xx: i64 = dx * dx;
                let v: u8 = if xx + yy < rr {
                    opacity
                } else {
                    0
                };
                mask.push(v);
                x += 1;
            }
            proof {
                assert((y + 1) * diameter == y * diameter + diameter) by (nonlinear_arith);
            }
            y += 1;
        }
        BrushMask { diameter, mask }
    }

    /// A square brush mask of whole pixels: `opacity` everywhere
    pub fn new_square_pixel(diameter: u32, opacity: u8) -> (m: BrushMask)
        requires
            diameter * diameter <= u32::MAX,
        ensures
            m.diameter == diameter,
            m.wf(),
            forall|i: int| 0 <= i < diameter * diameter ==> #[trigger] m.mask@[i] == opacity,
    {
        let n = diameter * diameter;
        let mut mask: Vec<u8> = Vec::new();
        let mut i: u32 = 0;
        while i < n
            invariant
                i <= n,
                n == diameter * diameter,
                mask@.len() == i,
                forall|j: int| 0 <= j < i ==> #[trigger] mask@[j] == opacity,
            decreases n - i,
        {
            mask.push(opacity);
            i += 1;
        }
        BrushMask { diameter, mask }
    }

    /// Draw the mask as text: `X` where the mask is nonzero, `.` elsewhere
    pub fn to_ascii_art(&self) -> (art: String)
        requires
            self.wf(),
        ensures
            art@ == ascii_art(
                |y: int, x: int| self.mask@[y * self.diameter + x] != 0,
                self.diameter as int,
                self.diameter as int,
            ),
    {
        let ghost filled = |y: int, x: int| self.mask@[y * self.diameter + x] != 0;
        let d = self.diameter;
        let n = self.mask.len();
        let mut art = String::new();
        let mut y: u32 = 0;
        while y < d
            invariant
                y <= d,
                d == self.diameter,
                n == self.mask@.len(),
                self.wf(),
                filled == (|y: int, x: int| self.mask@[y * self.diameter + x] != 0),
                art@ == ascii_art(filled, d as int, y as int),
            decreases d - y,
        {
            let ghost start = art@;
            let mut x: u32 = 0;
            while x < d
                invariant
                    x <= d,
                    y < d,
                    d == self.diameter,
                    n == self.mask@.len(),
                    self.wf(),
                    filled == (|y: int, x: int| self.mask@[y * self.diameter + x] != 0),
                    art@ == start + ascii_row(filled, x as int, y as int),
                decreases d - x,
            {
                proof {
                    assert(y * d + x < d * d) by (nonlinear_arith)
                        requires
                            y < d,
                            x < d,
                    ;
                }
                let v = self.mask[y as usize * d as usize + x as usize];
                string_push(&mut art, if v == 0 { '.' } else { 'X' });
                x += 1;
                assert(art@ =~= start + ascii_row(filled, x as int, y as int));
            }
            string_push(&mut art, '\n');
            y += 1;
            assert(art@ =~= ascii_art(filled, d as int, y as int));
        }
        art
    }
}

} // verus!
