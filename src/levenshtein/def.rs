use vstd::prelude::*;
use vstd::string::StringSliceAdditionalSpecFns;
use super::language::{edit_distance, lemma_prefix_distance_bounds, prefix_distance};

verus! {

pub open spec fn min3(a: int, b: int, c: int) -> int {
    if a <= b && a <= c {
        a
    } else if b <= c {
        b
    } else {
        c
    }
}

proof fn lemma_cell_index(w: int, h: int, x: int, y: int)
    requires
        0 <= x < w,
        0 <= y < h,
    ensures
        0 <= y * w + x < w * h,
{
    assert(0 <= y * w) by (nonlinear_arith)
        requires
            0 <= y,
            0 <= w,
    ;
    assert(y * w + x < (y + 1) * w) by (nonlinear_arith)
        requires
            x < w,
    ;
    assert((y + 1) * w <= h * w) by (nonlinear_arith)
        requires
            y + 1 <= h,
            0 <= w,
    ;
    assert(h * w == w * h) by (nonlinear_arith);
}

proof fn lemma_cell_distinct(w: int, x: int, y: int, x2: int, y2: int)
    requires
        0 <= x < w,
        0 <= x2 < w,
        0 <= y,
        0 <= y2,
        x != x2 || y != y2,
    ensures
        y * w + x != y2 * w + x2,
{
    if y < y2 {
        assert(y * w + x < (y + 1) * w) by (nonlinear_arith)
            requires
                x < w,
        ;
        assert((y + 1) * w <= y2 * w) by (nonlinear_arith)
            requires
                y + 1 <= y2,
                0 <= w,
        ;
    } else if y2 < y {
        assert(y2 * w + x2 < (y2 + 1) * w) by (nonlinear_arith)
            requires
                x2 < w,
        ;
        assert((y2 + 1) * w <= y * w) by (nonlinear_arith)
            requires
                y2 + 1 <= y,
                0 <= w,
        ;
    }
}

/// A `width` by `height` grid of counts, stored row by row.
pub struct Table {
    storage: Vec<usize>,
    width: usize,
    height: usize,
}

impl Table {
    pub closed spec fn wf(&self) -> bool {
        self.storage@.len() == self.width * self.height
    }

    pub closed spec fn spec_width(&self) -> int {
        self.width as int
    }

    pub closed spec fn spec_height(&self) -> int {
        self.height as int
    }

    /// The count in column `x` of row `y`.
    pub closed spec fn cell(&self, x: int, y: int) -> usize {
        self.storage@[y * self.width + x]
    }

    /// A grid of zeros.
    pub fn new(width: usize, height: usize) -> (r: Self)
        requires
            width * height <= usize::MAX,
        ensures
            r.wf(),
            r.spec_width() == width,
            r.spec_height() == height,
            forall|x: int, y: int| 0 <= x < width && 0 <= y < height ==> #[trigger] r.cell(x, y) == 0,
    {
        let n = width * height;
        let mut storage: Vec<usize> = Vec::new();
        while storage.len() < n
            invariant
                storage@.len() <= n,
                forall|i: int| 0 <= i < storage@.len() ==> storage@[i] == 0,
            decreases n - storage@.len(),
        {
            storage.push(0);
        }
        let r = Table { storage, width, height };
        assert forall|x: int, y: int| 0 <= x < width && 0 <= y < height implies #[trigger] r.cell(x, y) == 0 by {
            lemma_cell_index(width as int, height as int, x, y);
        }
        r
    }

    /// The number of cells.
    pub fn len(&self) -> (r: usize)
        requires
            self.wf(),
        ensures
            r == self.spec_width() * self.spec_height(),
    {
        self.storage.len()
    }

    pub fn width(&self) -> (r: usize)
        ensures
            r == self.spec_width(),
    {
        self.width
    }

    pub fn height(&self) -> (r: usize)
        ensures
            r == self.spec_height(),
    {
        self.height
    }

    pub fn get(&self, x: usize, y: usize) -> (r: usize)
        requires
            self.wf(),
            x < self.spec_width(),
            y < self.spec_height(),
        ensures
            r == self.cell(x as int, y as int),
    {
        let n = self.storage.len();
        proof {
            lemma_cell_index(self.width as int, self.height as int, x as int, y as int);
            assert(0 <= y * self.width <= y * self.width + x < n);
        }
        self.storage[y * self.width + x]
    }

    /// Writes `value` into column `x` of row `y`; every other cell keeps its count.
    pub fn set(&mut self, x: usize, y: usize, value: usize)
        requires
            old(self).wf(),
            x < old(self).spec_width(),
            y < old(self).spec_height(),
        ensures
            final(self).wf(),
            final(self).spec_width() == old(self).spec_width(),
            final(self).spec_height() == old(self).spec_height(),
            final(self).cell(x as int, y as int) == value,
            forall|x2: int, y2: int|
                0 <= x2 < old(self).spec_width() && 0 <= y2 < old(self).spec_height() && (x2 != x
                    || y2 != y) ==> #[trigger] final(self).cell(x2, y2) == old(self).cell(x2, y2),
    {
        let n = self.storage.len();
        proof {
            lemma_cell_index(self.width as int, self.height as int, x as int, y as int);
            assert(0 <= y * self.width <= y * self.width + x < n);
        }
        let i = y * self.width + x;
        self.storage.set(i, value);
        assert forall|x2: int, y2: int|
            0 <= x2 < old(self).spec_width() && 0 <= y2 < old(self).spec_height() && (x2 != x
                || y2 != y) implies #[trigger] self.cell(x2, y2) == old(self).cell(x2, y2) by {
            lemma_cell_index(self.width as int, self.height as int, x2, y2);
            lemma_cell_distinct(self.width as int, x as int, y as int, x2, y2);
        }
    }
}

/// The Levenshtein distance between the bytes of `a` and of `b`: the
/// fewest insertions, deletions and substitutions, each counting one, that
/// turn one into the other. Computed by dynamic programming over a table
/// whose cell (x, y) holds the distance between the first x bytes of `a` and
/// the first y bytes of `b`.
pub fn distance(a: &str, b: &str) -> (r: usize)
    requires
        (a.spec_bytes().len() + 1) * (b.spec_bytes().len() + 1) <= usize::MAX,
    ensures
        r == edit_distance(a.spec_bytes(), b.spec_bytes()),
{
    let a = a.as_bytes();
    let b = b.as_bytes();
    proof {
        let la = a@.len() as int;
        let lb = b@.len() as int;
        assert(la + 1 <= (la + 1) * (lb + 1) && lb + 1 <= (la + 1) * (lb + 1)) by (nonlinear_arith)
            requires
                la >= 0,
                lb >= 0,
        ;
    }
    let w = a.len() + 1;
    let h = b.len() + 1;
    let ghost sa = a@;
    let ghost sb = b@;
    let mut table = Table::new(w, h);
    proof {
        assert(w + h <= w * h + 1) by (nonlinear_arith)
            requires
                w >= 1,
                h >= 1,
        ;
    }
    let mut x: usize = 1;
    while x < w
        invariant
            table.wf(),
            table.spec_width() == w,
            table.spec_height() == h,
            1 <= x <= w,
            w == sa.len() + 1,
            h == sb.len() + 1,
            forall|x2: int| 0 <= x2 < x ==> #[trigger] table.cell(x2, 0) == x2,
        decreases w - x,
    {
        table.set(x, 0, x);
        x += 1;
    }
    let mut y: usize = 1;
    while y < h
        invariant
            table.wf(),
            table.spec_width() == w,
            table.spec_height() == h,
            1 <= y <= h,
            w == sa.len() + 1,
            h == sb.len() + 1,
            forall|x2: int| 0 <= x2 < w ==> #[trigger] table.cell(x2, 0) == x2,
            forall|y2: int| 0 <= y2 < y ==> #[trigger] table.cell(0, y2) == y2,
        decreases h - y,
    {
        table.set(0, y, y);
        y += 1;
    }
    assert forall|x2: int| 0 <= x2 < w implies #[trigger] table.cell(x2, 0) == prefix_distance(
        sa,
        sb,
        x2 as nat,
        0,
    ) by {
    }
    assert forall|y2: int| 0 <= y2 < h implies #[trigger] table.cell(0, y2) == prefix_distance(
        sa,
        sb,
        0,
        y2 as nat,
    ) by {
    }
    let mut y: usize = 1;
    while y < h
        invariant
            table.wf(),
            table.spec_width() == w,
            table.spec_height() == h,
            1 <= y <= h,
            w == sa.len() + 1,
            h == sb.len() + 1,
            w * h <= usize::MAX,
            w + h <= w * h + 1,
            a@ == sa,
            b@ == sb,
            forall|x2: int| 0 <= x2 < w ==> #[trigger] table.cell(x2, 0) == prefix_distance(
                sa,
                sb,
                x2 as nat,
                0,
            ),
            forall|x2: int, y2: int|
                0 <= x2 < w && 0 <= y2 < y ==> #[trigger] table.cell(x2, y2) == prefix_distance(
                    sa,
                    sb,
                    x2 as nat,
                    y2 as nat,
                ),
            forall|y2: int| 0 <= y2 < h ==> #[trigger] table.cell(0, y2) == prefix_distance(
                sa,
                sb,
                0,
                y2 as nat,
            ),
        decreases h - y,
    {
        let mut x: usize = 1;
        while x < w
            invariant
                table.wf(),
                table.spec_width() == w,
                table.spec_height() == h,
                1 <= y < h,
                1 <= x <= w,
                w == sa.len() + 1,
                h == sb.len() + 1,
                w * h <= usize::MAX,
                w + h <= w * h + 1,
                a@ == sa,
                b@ == sb,
                forall|x2: int| 0 <= x2 < w ==> #[trigger] table.cell(x2, 0) == prefix_distance(
                    sa,
                    sb,
                    x2 as nat,
                    0,
                ),
                forall|x2: int, y2: int|
                    0 <= x2 < w && 0 <= y2 < y ==> #[trigger] table.cell(x2, y2) == prefix_distance(
                        sa,
                        sb,
                        x2 as nat,
                        y2 as nat,
                    ),
                forall|x2: int| 0 <= x2 < x ==> #[trigger] table.cell(x2, y as int) == prefix_distance(
                    sa,
                    sb,
                    x2 as nat,
                    y as nat,
                ),
                forall|y2: int| 0 <= y2 < h ==> #[trigger] table.cell(0, y2) == prefix_distance(
                    sa,
                    sb,
                    0,
                    y2 as nat,
                ),
            decreases w - x,
        {
            proof {
                lemma_prefix_distance_bounds(sa, sb, (x - 1) as nat, (y - 1) as nat);
                lemma_prefix_distance_bounds(sa, sb, (x - 1) as nat, y as nat);
                lemma_prefix_distance_bounds(sa, sb, x as nat, (y - 1) as nat);
                assert(x + y <= usize::MAX);
            }
            let diag = table.get(x - 1, y - 1);
            let up = table.get(x - 1, y) + 1;
            let left = table.get(x, y - 1) + 1;
            let change = if a[x - 1] == b[y - 1] {
                diag
            } else {
                diag + 1
            };
            let d = if change <= up && change <= left {
                change
            } else if up <= left {
                up
            } else {
                left
            };
            table.set(x, y, d);
            x += 1;
        }
        y += 1;
    }
    table.get(w - 1, h - 1)
}

} // verus!
