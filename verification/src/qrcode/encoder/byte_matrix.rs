use vstd::prelude::*;

verus! {

/// A grid of small numbers, one per module of a symbol under construction:
/// -1 for a cell not yet decided, 0 for a white one, 1 for a black one.
#[derive(Debug)]
pub struct ByteMatrix {
    bytes: Vec<Vec<i8>>,
    width: usize,
    height: usize,
}

impl View for ByteMatrix {
    type V = Seq<Seq<i8>>;

    /// The rows, top to bottom, each left to right.
    open spec fn view(&self) -> Seq<Seq<i8>> {
        Seq::new(
            self.spec_height() as nat,
            |y: int| Seq::new(self.spec_width() as nat, |x: int| self.at(x, y)),
        )
    }
}

impl ByteMatrix {
    pub closed spec fn spec_width(&self) -> int {
        self.width as int
    }

    pub closed spec fn spec_height(&self) -> int {
        self.height as int
    }

    /// There are `height` rows of `width` cells each.
    pub closed spec fn wf(&self) -> bool {
        &&& self.bytes@.len() == self.height
        &&& forall|y: int| 0 <= y < self.height ==> (#[trigger] self.bytes@[y])@.len() == self.width
    }

    /// The value at column `x` of row `y`.
    pub closed spec fn at(&self, x: int, y: int) -> i8 {
        self.bytes@[y]@[x]
    }

    /// The view has the height and the width of the matrix.
    pub proof fn lemma_view(&self)
        ensures
            self.spec_width() >= 0,
            self.spec_height() >= 0,
            self@.len() == self.spec_height() as nat,
            forall|y: int|
                0 <= y < self.spec_height() ==> (#[trigger] self@[y]).len() == self.spec_width() as nat,
            forall|x: int, y: int|
                0 <= y < self.spec_height() && 0 <= x < self.spec_width() ==> self@[y][x]
                    == #[trigger] self.at(x, y),
    {
    }

    /// A matrix of zeros.
    pub fn new(width: usize, height: usize) -> (m: ByteMatrix)
        ensures
            m.wf(),
            m.spec_width() == width,
            m.spec_height() == height,
            forall|x: int, y: int| 0 <= x < width && 0 <= y < height ==> #[trigger] m.at(x, y) == 0,
    {
        let mut bytes: Vec<Vec<i8>> = Vec::new();
        let mut y: usize = 0;
        while y < height
            invariant
                y <= height,
                bytes@.len() == y,
                forall|r: int| 0 <= r < y ==> (#[trigger] bytes@[r])@.len() == width,
                forall|r: int, c: int| 0 <= r < y && 0 <= c < width ==> #[trigger] bytes@[r]@[c] == 0,
            decreases height - y,
        {
            let row: Vec<i8> = vec![0i8; width];
            bytes.push(row);
            y += 1;
        }
        ByteMatrix { bytes, width, height }
    }

    /// The number of columns.
    pub fn get_width(&self) -> (w: usize)
        ensures
            w == self.spec_width(),
    {
        self.width
    }

    /// The number of rows.
    pub fn get_height(&self) -> (h: usize)
        ensures
            h == self.spec_height(),
    {
        self.height
    }

    /// The value at column `x` of row `y`.
    pub fn get(&self, x: usize, y: usize) -> (v: i8)
        requires
            self.wf(),
            x < self.spec_width(),
            y < self.spec_height(),
        ensures
            v == self.at(x as int, y as int),
    {
        self.bytes[y][x]
    }

    /// The rows themselves.
    pub fn get_array(&self) -> (rows: &Vec<Vec<i8>>)
        requires
            self.wf(),
        ensures
            rows@.len() == self.spec_height(),
            forall|y: int| 0 <= y < self.spec_height() ==> (#[trigger] rows@[y])@.len() == self.spec_width(),
            forall|x: int, y: int|
                0 <= y < self.spec_height() && 0 <= x < self.spec_width() ==> rows@[y]@[x]
                    == #[trigger] self.at(x, y),
    {
        &self.bytes
    }

    /// Stores `value` at column `x` of row `y`; every other cell stays as it was.
    pub fn set(&mut self, x: usize, y: usize, value: i8)
        requires
            old(self).wf(),
            x < old(self).spec_width(),
            y < old(self).spec_height(),
        ensures
            final(self).wf(),
            final(self).spec_width() == old(self).spec_width(),
            final(self).spec_height() == old(self).spec_height(),
            forall|x2: int, y2: int|
                0 <= x2 < old(self).spec_width() && 0 <= y2 < old(self).spec_height()
                    ==> #[trigger] final(self).at(x2, y2) == if x2 == x && y2 == y {
                    value
                } else {
                    old(self).at(x2, y2)
                },
    {
        self.bytes[y][x] = value;
    }

    /// Stores 1 for `true` and 0 for `false` at column `x` of row `y`.
    pub fn set_bit(&mut self, x: usize, y: usize, value: bool)
        requires
            old(self).wf(),
            x < old(self).spec_width(),
            y < old(self).spec_height(),
        ensures
            final(self).wf(),
            final(self).spec_width() == old(self).spec_width(),
            final(self).spec_height() == old(self).spec_height(),
            forall|x2: int, y2: int|
                0 <= x2 < old(self).spec_width() && 0 <= y2 < old(self).spec_height()
                    ==> #[trigger] final(self).at(x2, y2) == if x2 == x && y2 == y {
                    if value {
                        1i8
                    } else {
                        0i8
                    }
                } else {
                    old(self).at(x2, y2)
                },
    {
        if value {
            self.set(x, y, 1);
        } else {
            self.set(x, y, 0);
        }
    }

    /// Stores `value` in every cell.
    pub fn clear(&mut self, value: i8)
        requires
            old(self).wf(),
        ensures
            final(self).wf(),
            final(self).spec_width() == old(self).spec_width(),
            final(self).spec_height() == old(self).spec_height(),
            forall|x: int, y: int|
                0 <= x < old(self).spec_width() && 0 <= y < old(self).spec_height()
                    ==> #[trigger] final(self).at(x, y) == value,
    {
        let mut y: usize = 0;
        while y < self.height
            invariant
                self.wf(),
                self.width == old(self).width,
                self.height == old(self).height,
                y <= self.height,
                forall|x2: int, y2: int|
                    0 <= x2 < self.width && 0 <= y2 < y ==> #[trigger] self.at(x2, y2) == value,
            decreases self.height - y,
        {
            let mut x: usize = 0;
            while x < self.width
                invariant
                    self.wf(),
                    self.width == old(self).width,
                    self.height == old(self).height,
                    y < self.height,
                    x <= self.width,
                    forall|x2: int, y2: int|
                        0 <= x2 < self.width && 0 <= y2 < y ==> #[trigger] self.at(x2, y2) == value,
                    forall|x2: int| 0 <= x2 < x ==> #[trigger] self.at(x2, y as int) == value,
                decreases self.width - x,
            {
                self.set(x, y, value);
                x += 1;
            }
            y += 1;
        }
    }
}

} // verus!
