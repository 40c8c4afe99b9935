use vstd::prelude::*;

verus! {

/// An RGB image with one byte per channel, stored row by row, top row first.
#[derive(Debug, Clone)]
pub struct ImageTexture {
    data: Vec<u8>,
    width: u32,
    height: u32,
}

impl ImageTexture {
    /// The channel bytes.
    pub closed spec fn data(self) -> Seq<u8> {
        self.data@
    }

    /// Number of texels in a row.
    pub closed spec fn width(self) -> u32 {
        self.width
    }

    /// Number of rows.
    pub closed spec fn height(self) -> u32 {
        self.height
    }

    /// Position of the red byte of texel `(x, y)`; green and blue follow it.
    pub open spec fn texel_offset(self, x: int, y: int) -> int {
        (y * self.width() + x) * 3
    }

    /// The three bytes of texel `(x, y)` lie in the data.
    pub open spec fn has_texel(self, x: int, y: int) -> bool {
        &&& 0 <= x
        &&& 0 <= y
        &&& self.texel_offset(x, y) + 3 <= self.data().len()
    }

    /// Texels are laid out row by row, `width` texels to a row, whatever the height: texel
    /// `(0, 0)` starts the data, the next texel of a row starts three bytes later, and the
    /// texel below starts one whole row, `3 * width` bytes, later; so texel `(x, y)` is the
    /// texel at linear position `y * width + x`.
    pub proof fn lemma_texel_layout(self, x: int, y: int)
        requires
            0 <= x,
            0 <= y,
        ensures
            self.texel_offset(0, 0) == 0,
            self.texel_offset(x + 1, y) == self.texel_offset(x, y) + 3,
            self.texel_offset(x, y + 1) == self.texel_offset(x, y) + 3 * self.width(),
            self.texel_offset(x, y) == 3 * (y * self.width() + x),
            self.texel_offset(0, 1) == 3 * self.width(),
    {
        let w = self.width() as int;
        assert((y + 1) * w == y * w + w) by (nonlinear_arith);
    }

    /// An image of `width` by `height` texels over the given channel bytes.
    pub fn new(data: Vec<u8>, width: u32, height: u32) -> (texture: Self)
        ensures
            texture.data() == data@,
            texture.width() == width,
            texture.height() == height,
    {
        ImageTexture { data, width, height }
    }

    /// Number of texels in a row.
    pub fn get_width(&self) -> (width: u32)
        ensures
            width == self.width(),
    {
        self.width
    }

    /// Number of rows.
    pub fn get_height(&self) -> (height: u32)
        ensures
            height == self.height(),
    {
        self.height
    }

    /// Whether the three bytes of texel `(x, y)` lie in the data.
    pub fn contains_texel(&self, x: usize, y: usize) -> (inside: bool)
        ensures
            inside == self.has_texel(x as int, y as int),
    {
        let w = self.width as usize;
        let n = self.data.len();
        proof {
            assert(0 <= y * w) by (nonlinear_arith)
                requires
                    y >= 0,
                    w >= 0,
            ;
        }
        match y.checked_mul(w) {
            None => false,
            Some(row) => match row.checked_add(x) {
                None => false,
                Some(cell) => match cell.checked_mul(3) {
                    None => false,
                    Some(offset) => offset <= n && n - offset >= 3,
                },
            },
        }
    }

    /// The red, green and blue bytes of texel `(x, y)`.
    pub fn texel(&self, x: usize, y: usize) -> (rgb: (u8, u8, u8))
        requires
            self.has_texel(x as int, y as int),
        ensures
            rgb.0 == self.data()[self.texel_offset(x as int, y as int)],
            rgb.1 == self.data()[self.texel_offset(x as int, y as int) + 1],
            rgb.2 == self.data()[self.texel_offset(x as int, y as int) + 2],
    {
        let w = self.width as usize;
        let n = self.data.len();
        proof {
            assert(w as int == self.width() as int);
            assert((y * w + x) * 3 + 3 <= self.data().len());
            assert(0 <= y * w) by (nonlinear_arith)
                requires
                    y >= 0,
                    w >= 0,
            ;
            assert(n == self.data().len());
        }
        let idx = (y * w + x) * 3;
        (self.data[idx], self.data[idx + 1], self.data[idx + 2])
    }

    /// The column that follows `x` for bilinear filtering, held at the last column.
    pub fn next_column(&self, x: usize) -> (next: usize)
        requires
            self.width() >= 1,
            x < usize::MAX,
        ensures
            next == if x + 1 < self.width() - 1 { x + 1 } else { self.width() - 1 },
    {
        let last = self.width as usize - 1;
        if x + 1 < last {
            x + 1
        } else {
            last
        }
    }

    /// The row that follows `y` for bilinear filtering, held at the last row.
    pub fn next_row(&self, y: usize) -> (next: usize)
        requires
            self.height() >= 1,
            y < usize::MAX,
        ensures
            next == if y + 1 < self.height() - 1 { y + 1 } else { self.height() - 1 },
    {
        let last = self.height as usize - 1;
        if y + 1 < last {
            y + 1
        } else {
            last
        }
    }
}

} // verus!
