use vstd::prelude::*;
use crate::item::ColorItem;

verus! {

/// The settings of a blocks pattern: an image of `width` by `height`
/// pixels cut into `x_num` by `y_num` blocks, one color each.
#[derive(Debug, Clone, Copy, PartialEq, Eq, Structural)]
pub struct Blocks {
    pub width: u32,
    pub height: u32,
    pub x_num: u32,
    pub y_num: u32,
}

impl Blocks {
    /// A 512 by 512 image of 8 by 8 blocks.
    pub fn new() -> (b: Blocks)
        ensures
            b == (Blocks { width: 512, height: 512, x_num: 8, y_num: 8 }),
    {
        Blocks { width: 512, height: 512, x_num: 8, y_num: 8 }
    }
}

/// The color of block `index` in row-major order: the list's color at that
/// position, or black past its end.
pub open spec fn block_color(colors: Seq<ColorItem>, index: int) -> (u8, u8, u8) {
    if index < colors.len() {
        (colors[index].r, colors[index].g, colors[index].b)
    } else {
        (0u8, 0u8, 0u8)
    }
}

/// A pixel before `size` falls in one of the `num` blocks.
proof fn lemma_block_index(p: int, num: int, size: int)
    requires
        0 <= p < size,
        num > 0,
    ensures
        0 <= p * num / size < num,
{
    let a = p * num;
    assert(0 <= a < size * num) by (nonlinear_arith)
        requires
            0 <= p < size,
            num > 0,
            a == p * num,
    ;
    vstd::arithmetic::div_mod::lemma_fundamental_div_mod(a, size);
    vstd::arithmetic::div_mod::lemma_mod_bound(a, size);
    let q = a / size;
    assert(q >= 0) by (nonlinear_arith)
        requires
            a >= 0,
            size > 0,
            q == a / size,
    ;
    assert(q < num) by (nonlinear_arith)
        requires
            a == size * q + a % size,
            0 <= a % size,
            a < size * num,
            size > 0,
    ;
}

/// Paints a blocks pattern: the blocks take the colors of a list in
/// row-major order.
#[derive(Debug, Clone)]
pub struct BlocksGenerator {
    data: Vec<Vec<(u8, u8, u8)>>,
    width: u32,
    height: u32,
    x_num: u32,
    y_num: u32,
}

impl BlocksGenerator {
    /// The color of block (`i`, `j`), row `i`, column `j`.
    pub closed spec fn cell(&self, i: int, j: int) -> (u8, u8, u8) {
        self.data@[i]@[j]
    }

    /// The grid holds `y_num` rows of `x_num` blocks.
    pub closed spec fn wf(&self) -> bool {
        &&& self.data@.len() == self.y_num
        &&& forall|i: int| 0 <= i < self.y_num ==> (#[trigger] self.data@[i])@.len() == self.x_num
    }

    /// The image width.
    pub closed spec fn spec_width(&self) -> nat {
        self.width as nat
    }

    /// The image height.
    pub closed spec fn spec_height(&self) -> nat {
        self.height as nat
    }

    /// The number of block columns.
    pub closed spec fn spec_x_num(&self) -> nat {
        self.x_num as nat
    }

    /// The number of block rows.
    pub closed spec fn spec_y_num(&self) -> nat {
        self.y_num as nat
    }

    /// Lays the colors out over `y_num` rows of `x_num` blocks.
    pub fn new(colors: &Vec<ColorItem>, width: u32, height: u32, x_num: u32, y_num: u32) -> (g: BlocksGenerator)
        requires
            (x_num as int) * (y_num as int) <= u32::MAX,
        ensures
            g.wf(),
            g.spec_width() == width && g.spec_height() == height,
            g.spec_x_num() == x_num && g.spec_y_num() == y_num,
            forall|i: int, j: int| 0 <= i < y_num && 0 <= j < x_num
                ==> #[trigger] g.cell(i, j) == block_color(colors@, i * (x_num as int) + j),
    {
        let mut data: Vec<Vec<(u8, u8, u8)>> = Vec::new();
        let mut i: u32 = 0;
        while i < y_num
            invariant
                i <= y_num,
                (x_num as int) * (y_num as int) <= u32::MAX,
                data@.len() == i,
                forall|a: int| 0 <= a < i ==> (#[trigger] data@[a])@.len() == x_num,
                forall|a: int, b: int| 0 <= a < i && 0 <= b < x_num
                    ==> #[trigger] data@[a]@[b] == block_color(colors@, a * (x_num as int) + b),
            decreases y_num - i,
        {
            let mut row: Vec<(u8, u8, u8)> = Vec::new();
            let mut j: u32 = 0;
            while j < x_num
                invariant
                    i < y_num,
                    j <= x_num,
                    (x_num as int) * (y_num as int) <= u32::MAX,
                    row@.len() == j,
                    forall|b: int| 0 <= b < j ==> #[trigger] row@[b] == block_color(colors@, (i as int) * (x_num as int) + b),
                decreases x_num - j,
            {
                assert((i as int) * (x_num as int) + (j as int) < (x_num as int) * (y_num as int)) by (nonlinear_arith)
                    requires
                        i < y_num,
                        j < x_num,
                ;
                let index = (i * x_num + j) as usize;
                let cell = if index < colors.len() {
                    (colors[index].r, colors[index].g, colors[index].b)
                } else {
                    (0u8, 0u8, 0u8)
                };
                row.push(cell);
                j = j + 1;
            }
            data.push(row);
            i = i + 1;
        }
        BlocksGenerator { data, width, height, x_num, y_num }
    }

    /// The color of pixel (`x`, `y`): that of the block it falls in.
    pub fn get_color(&self, x: u32, y: u32) -> (c: (u8, u8, u8))
        requires
            self.wf(),
            x < self.spec_width(),
            y < self.spec_height(),
            self.spec_x_num() > 0,
            self.spec_y_num() > 0,
            (x as int) * (self.spec_x_num() as int) <= u32::MAX,
            (y as int) * (self.spec_y_num() as int) <= u32::MAX,
        ensures
            c == self.cell(
                (y as int) * (self.spec_y_num() as int) / (self.spec_height() as int),
                (x as int) * (self.spec_x_num() as int) / (self.spec_width() as int),
            ),
    {
        let x_index = x * self.x_num / self.width;
        let y_index = y * self.y_num / self.height;
        proof {
            lemma_block_index(x as int, self.x_num as int, self.width as int);
            lemma_block_index(y as int, self.y_num as int, self.height as int);
        }
        self.data[y_index as usize][x_index as usize]
    }
}

} // verus!
