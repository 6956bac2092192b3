use vstd::arithmetic::div_mod::{
    lemma_div_is_ordered,
    lemma_div_pos_is_pos,
    lemma_fundamental_div_mod,
    lemma_fundamental_div_mod_converse,
    lemma_mod_bound,
};
use vstd::prelude::*;

verus! {

/// Vertical layer (outermost coordinate x) of the 1-based cell `index` in a
/// cube of side `n`.
pub open spec fn vertical_of(n: int, index: int) -> int {
    (index - 1) / (n * n)
}

/// Horizontal layer (middle coordinate y) of the 1-based cell `index` in a
/// cube of side `n`.
pub open spec fn horizontal_of(n: int, index: int) -> int {
    ((index - 1) % (n * n)) / n
}

/// The 0-based positions of the cells of vertical layer `x`, ascending.
pub open spec fn vertical_positions(n: int, x: int) -> Seq<int> {
    Seq::new((n * n) as nat, |k: int| n * n * x + k)
}

/// The 0-based positions of the cells of horizontal layer `y`: the row `y`
/// of each vertical layer in turn, each row in ascending order.
pub open spec fn horizontal_positions(n: int, y: int) -> Seq<int> {
    Seq::new((n * n) as nat, |k: int| n * n * (k / n) + n * y + k % n)
}

/// The cells found at the given positions, in the same order.
pub open spec fn cells_at<C>(cells: Seq<C>, ps: Seq<int>) -> Seq<C> {
    ps.map_values(|p: int| cells[p])
}

/// The cell at coordinates (x, y, z) of a cube of side `n` sits at position
/// `n²·x + n·y + z`, whose layers are x and y.
pub proof fn lemma_coords(n: int, x: int, y: int, z: int)
    requires
        0 <= x < n,
        0 <= y < n,
        0 <= z < n,
    ensures
        0 <= n * n * x + n * y + z < n * n * n,
        vertical_of(n, n * n * x + n * y + z + 1) == x,
        horizontal_of(n, n * n * x + n * y + z + 1) == y,
        (n * n * x + n * y + z) % (n * n) % n == z,
{
    let p = n * n * x + n * y + z;
    let r = n * y + z;
    assert(0 <= r < n * n) by (nonlinear_arith)
        requires 0 <= y < n, 0 <= z < n, r == n * y + z;
    assert(p == x * (n * n) + r) by (nonlinear_arith)
        requires p == n * n * x + n * y + z, r == n * y + z;
    lemma_fundamental_div_mod_converse(p, n * n, x, r);
    assert(r == y * n + z) by (nonlinear_arith)
        requires r == n * y + z;
    lemma_fundamental_div_mod_converse(r, n, y, z);
    assert((p + 1 - 1) == p);
    assert(0 <= p < n * n * n) by (nonlinear_arith)
        requires p == x * (n * n) + r, 0 <= r < n * n, 0 <= x < n;
}

/// Every position `p` of a cube of side `n` is the position of the cell at
/// the coordinates its layers give.
proof fn lemma_decompose(n: int, p: int) -> (xyz: (int, int, int))
    requires
        n >= 1,
        0 <= p < n * n * n,
    ensures
        0 <= xyz.0 < n,
        0 <= xyz.1 < n,
        0 <= xyz.2 < n,
        p == n * n * xyz.0 + n * xyz.1 + xyz.2,
{
    let nn = n * n;
    assert(nn >= 1) by (nonlinear_arith)
        requires n >= 1, nn == n * n;
    assert(n * n * n == n * nn) by (nonlinear_arith)
        requires nn == n * n;
    let x = p / nn;
    let m = p % nn;
    lemma_fundamental_div_mod(p, nn);
    lemma_mod_bound(p, nn);
    let y = m / n;
    let z = m % n;
    lemma_fundamental_div_mod(m, n);
    lemma_mod_bound(m, n);
    assert(0 <= x < n) by (nonlinear_arith)
        requires p == nn * x + m, 0 <= m < nn, 0 <= p < n * nn, nn >= 1;
    assert(0 <= y < n) by (nonlinear_arith)
        requires m == n * y + z, 0 <= z < n, 0 <= m < n * n, n >= 1;
    assert(p == n * n * x + n * y + z) by (nonlinear_arith)
        requires p == nn * x + m, nn == n * n, m == n * y + z;
    (x, y, z)
}

/// A position within a layer of `n²` cells is `n·a + c` for a row `a` and a
/// column `c`, both in `[0, n)`.
proof fn lemma_row_col(n: int, k: int)
    requires
        n >= 1,
        0 <= k < n * n,
    ensures
        0 <= k / n < n,
        0 <= k % n < n,
        k == n * (k / n) + k % n,
{
    lemma_fundamental_div_mod(k, n);
    lemma_mod_bound(k, n);
    let a = k / n;
    let c = k % n;
    assert(0 <= a < n) by (nonlinear_arith)
        requires k == n * a + c, 0 <= c < n, 0 <= k < n * n, n >= 1;
}

/// Vertical layers are monotone in the index and lie in `[0, n)`.
pub proof fn lemma_vertical_monotone(n: int, i: int, j: int)
    requires
        1 <= i <= j <= n * n * n,
    ensures
        0 <= vertical_of(n, i) <= vertical_of(n, j) < n,
{
    assert(n >= 1) by (nonlinear_arith)
        requires 1 <= j <= n * n * n;
    let (x, y, z) = lemma_decompose(n, j - 1);
    lemma_coords(n, x, y, z);
    assert(n * n >= 1) by (nonlinear_arith)
        requires n >= 1;
    lemma_div_is_ordered(i - 1, j - 1, n * n);
    lemma_div_pos_is_pos(i - 1, n * n);
}

/// Each cell lies in its own vertical and horizontal layer: its position is
/// among the layer's positions, so the cell is among the layer's cells.
pub proof fn lemma_own_layers<C>(cells: Seq<C>, n: int, index: int)
    requires
        cells.len() == n * n * n,
        1 <= index <= n * n * n,
    ensures
        vertical_positions(n, vertical_of(n, index)).contains(index - 1),
        horizontal_positions(n, horizontal_of(n, index)).contains(index - 1),
        cells_at(cells, vertical_positions(n, vertical_of(n, index))).contains(cells[index - 1]),
        cells_at(cells, horizontal_positions(n, horizontal_of(n, index))).contains(
            cells[index - 1],
        ),
{
    assert(n >= 1) by (nonlinear_arith)
        requires 1 <= index <= n * n * n;
    let (x, y, z) = lemma_decompose(n, index - 1);
    lemma_coords(n, x, y, z);
    let vp = vertical_positions(n, x);
    let hp = horizontal_positions(n, y);
    let kv = n * y + z;
    assert(0 <= kv < n * n) by (nonlinear_arith)
        requires 0 <= y < n, 0 <= z < n, kv == n * y + z;
    assert(vp[kv] == index - 1);
    let kh = n * x + z;
    assert(0 <= kh < n * n) by (nonlinear_arith)
        requires 0 <= x < n, 0 <= z < n, kh == n * x + z;
    assert(kh == x * n + z) by (nonlinear_arith)
        requires kh == n * x + z;
    lemma_fundamental_div_mod_converse(kh, n, x, z);
    assert(hp[kh] == index - 1);
    assert(cells_at(cells, vp)[kv] == cells[index - 1]);
    assert(cells_at(cells, hp)[kh] == cells[index - 1]);
}

/// Each vertical layer holds `n²` distinct positions of the cube, and a
/// position lies in layer `x` exactly when `x` is its vertical layer: the
/// vertical layers are pairwise disjoint and cover every cell once.
pub proof fn lemma_vertical_partition(n: int, x: int, p: int)
    requires
        0 <= x < n,
        0 <= p < n * n * n,
    ensures
        vertical_positions(n, x).len() == n * n,
        vertical_positions(n, x).no_duplicates(),
        forall|k: int|
            0 <= k < n * n ==> 0 <= #[trigger] vertical_positions(n, x)[k] < n * n * n,
        vertical_positions(n, x).contains(p) <==> x == vertical_of(n, p + 1),
{
    let vp = vertical_positions(n, x);
    assert(n * n >= 1) by (nonlinear_arith)
        requires n >= 1;
    assert forall|k: int| 0 <= k < n * n implies 0 <= #[trigger] vp[k] < n * n * n by {
        assert(0 <= n * n * x + k < n * n * n) by (nonlinear_arith)
            requires 0 <= x < n, 0 <= k < n * n;
    }
    if vp.contains(p) {
        let k = choose|k: int| 0 <= k < vp.len() && vp[k] == p;
        assert(p == x * (n * n) + k) by (nonlinear_arith)
            requires p == n * n * x + k;
        lemma_fundamental_div_mod_converse(p, n * n, x, k);
    }
    if x == vertical_of(n, p + 1) {
        lemma_fundamental_div_mod(p, n * n);
        lemma_mod_bound(p, n * n);
        let k = p % (n * n);
        assert(p == n * n * x + k);
        assert(vp[k] == p);
    }
}

/// Each horizontal layer holds `n²` distinct positions of the cube, and a
/// position lies in layer `y` exactly when `y` is its horizontal layer: the
/// horizontal layers are pairwise disjoint and cover every cell once.
pub proof fn lemma_horizontal_partition(n: int, y: int, p: int)
    requires
        0 <= y < n,
        0 <= p < n * n * n,
    ensures
        horizontal_positions(n, y).len() == n * n,
        horizontal_positions(n, y).no_duplicates(),
        forall|k: int|
            0 <= k < n * n ==> 0 <= #[trigger] horizontal_positions(n, y)[k] < n * n * n,
        horizontal_positions(n, y).contains(p) <==> y == horizontal_of(n, p + 1),
{
    let hp = horizontal_positions(n, y);
    assert(n * n >= 1) by (nonlinear_arith)
        requires n >= 1;
    assert forall|k: int| 0 <= k < n * n implies 0 <= #[trigger] hp[k] < n * n * n by {
        lemma_row_col(n, k);
        lemma_coords(n, k / n, y, k % n);
    }
    assert forall|k1: int, k2: int|
        0 <= k1 < hp.len() && 0 <= k2 < hp.len() && k1 != k2 implies hp[k1] != hp[k2] by {
        lemma_row_col(n, k1);
        lemma_row_col(n, k2);
        lemma_coords(n, k1 / n, y, k1 % n);
        lemma_coords(n, k2 / n, y, k2 % n);
    }
    if hp.contains(p) {
        let k = choose|k: int| 0 <= k < hp.len() && hp[k] == p;
        lemma_row_col(n, k);
        lemma_coords(n, k / n, y, k % n);
    }
    if y == horizontal_of(n, p + 1) {
        let (x1, y1, z1) = lemma_decompose(n, p);
        lemma_coords(n, x1, y1, z1);
        let k = n * x1 + z1;
        assert(0 <= k < n * n) by (nonlinear_arith)
            requires 0 <= x1 < n, 0 <= z1 < n, k == n * x1 + z1;
        assert(k == x1 * n + z1) by (nonlinear_arith)
            requires k == n * x1 + z1;
        lemma_fundamental_div_mod_converse(k, n, x1, z1);
        assert(hp[k] == p);
    }
}

/// The 1-based index `n²·x + n·y + z + 1` of the cell at (x, y, z) in a cube
/// of side `n`.
pub fn cell_index(n: u32, x: u32, y: u32, z: u32) -> (r: usize)
    requires
        x < n,
        y < n,
        z < n,
        n * n * n <= usize::MAX,
    ensures
        r == n * n * x + n * y + z + 1,
{
    let n = n as usize;
    proof {
        lemma_coords(n as int, x as int, y as int, z as int);
        assert(n * n <= n * n * n && 0 <= n * n * x && 0 <= n * y) by (nonlinear_arith)
            requires n >= 1;
    }
    n * n * x as usize + n * y as usize + z as usize + 1
}

/// A cube puzzle of side `side_size`, whose `side_size³` cells are held in
/// scan order: the cell at (x, y, z) has the 1-based index
/// `side_size²·x + side_size·y + z + 1` and sits at position `index - 1`.
#[derive(Debug, Clone)]
pub struct RubiksCube<C> {
    side_size: u32,
    cubes: Vec<C>,
}

impl<C: Copy> RubiksCube<C> {
    pub closed spec fn side(&self) -> int {
        self.side_size as int
    }

    pub closed spec fn cells(&self) -> Seq<C> {
        self.cubes@
    }

    /// The cube holds exactly `side³` cells.
    pub open spec fn wf(&self) -> bool {
        self.cells().len() == self.side() * self.side() * self.side()
    }

    /// A cube of side `side_size` over `cubes`, given in scan order; `None`
    /// unless there are exactly `side_size³` cells.
    pub fn new(side_size: u32, cubes: Vec<C>) -> (r: Option<Self>)
        ensures
            r.is_some() <==> cubes@.len() == side_size * side_size * side_size,
            r matches Some(c) ==> c.wf() && c.side() == side_size && c.cells() == cubes@,
    {
        let n = side_size as usize;
        let len = cubes.len();
        let total = match n.checked_mul(n) {
            Some(nn) => nn.checked_mul(n),
            None => None,
        };
        match total {
            Some(t) => {
                if t == len {
                    Some(RubiksCube { side_size, cubes })
                } else {
                    None
                }
            },
            None => {
                proof {
                    if n * n <= usize::MAX {
                        assert(n * n * n > usize::MAX);
                    } else {
                        assert(n * n <= n * n * n) by (nonlinear_arith)
                            requires n * n > usize::MAX;
                    }
                }
                None
            },
        }
    }

    /// The side length N of the cube.
    pub fn side_size(&self) -> (r: u32)
        ensures
            r == self.side(),
    {
        self.side_size
    }

    /// The cell with the 1-based `index`.
    pub fn cell(&self, index: usize) -> (r: C)
        requires
            self.wf(),
            1 <= index <= self.side() * self.side() * self.side(),
        ensures
            r == self.cells()[index - 1],
    {
        self.cubes[index - 1]
    }

    /// Vertical layer of cell `index`: the `x` in `[0, side)` with
    /// `side²·x < index <= side²·(x + 1)`.
    pub fn vertical_layer(&self, index: usize) -> (r: u32)
        requires
            self.wf(),
            1 <= index <= self.side() * self.side() * self.side(),
        ensures
            r < self.side(),
            self.side() * self.side() * r < index <= self.side() * self.side() * (r + 1),
            r == vertical_of(self.side(), index as int),
    {
        let n = self.side_size as usize;
        let total = self.cubes.len();
        proof {
            assert(n >= 1) by (nonlinear_arith)
                requires 1 <= index <= n * n * n;
            assert(1 <= n * n <= n * n * n) by (nonlinear_arith)
                requires n >= 1;
        }
        let layer_size = n * n;
        let mut i: u32 = 0;
        while i < self.side_size
            invariant
                self.wf(),
                n == self.side(),
                layer_size == n * n,
                1 <= index <= n * n * n,
                n * n * n == total,
                layer_size >= 1,
                i <= n,
                layer_size * i < index,
            decreases self.side_size - i,
        {
            proof {
                assert(layer_size * (i + 1) <= layer_size * n) by (nonlinear_arith)
                    requires i < n;
                assert(layer_size * n == n * n * n) by (nonlinear_arith)
                    requires layer_size == n * n;
            }
            if index <= layer_size * (i as usize + 1) {
                proof {
                    let x = i as int;
                    let ls = layer_size as int;
                    let k = index as int - 1;
                    assert(ls * x <= k < ls * (x + 1));
                    assert(k / ls == x) by (nonlinear_arith)
                        requires ls * x <= k < ls * (x + 1), ls > 0;
                }
                return i;
            }
            i = i + 1;
        }
        proof {
            assert(layer_size * n == n * n * n) by (nonlinear_arith)
                requires layer_size == n * n;
        }
        i
    }

    /// Horizontal layer of cell `index`: the `y` in `[0, side)` with
    /// `side·y + 1 + off <= index <= side·y + side + off`, where
    /// `off = side²·vertical_layer(index)`.
    pub fn horizontal_layer(&self, index: usize) -> (r: u32)
        requires
            self.wf(),
            1 <= index <= self.side() * self.side() * self.side(),
        ensures
            r < self.side(),
            self.side() * r + 1 + self.side() * self.side() * vertical_of(self.side(), index as int)
                <= index,
            index <= self.side() * r + self.side() + self.side() * self.side() * vertical_of(
                self.side(),
                index as int,
            ),
            r == horizontal_of(self.side(), index as int),
    {
        let vert_layer = self.vertical_layer(index);
        let n = self.side_size as usize;
        let total = self.cubes.len();
        proof {
            assert(n >= 1) by (nonlinear_arith)
                requires 1 <= index <= n * n * n;
            assert(1 <= n * n <= n * n * n) by (nonlinear_arith)
                requires n >= 1;
            assert(n * n * vert_layer + n * n <= n * n * n) by (nonlinear_arith)
                requires vert_layer < n;
            assert(n * n * (vert_layer + 1) == n * n * vert_layer + n * n) by (nonlinear_arith);
        }
        let layer_size = n * n;
        let off = layer_size * vert_layer as usize;
        proof {
            let k = index as int - 1;
            assert(off + layer_size <= total);
            assert(0 <= k - off < layer_size);
            assert(k == vert_layer * (n * n) + (k - off)) by (nonlinear_arith)
                requires off == (n * n) * vert_layer;
            lemma_fundamental_div_mod_converse(k, n * n, vert_layer as int, k - off);
        }
        let mut i: u32 = 0;
        while i < self.side_size
            invariant
                self.wf(),
                n == self.side(),
                n >= 1,
                layer_size == n * n,
                off == n * n * vertical_of(n as int, index as int),
                off < index <= off + layer_size,
                off + layer_size <= total,
                (index as int - 1) % (n * n) == index - 1 - off,
                i <= n,
                n * i + off < index,
            decreases self.side_size - i,
        {
            proof {
                assert(n * i + n <= n * n) by (nonlinear_arith)
                    requires i < n;
            }
            if n * i as usize + 1 + off <= index && index <= n * i as usize + n + off {
                proof {
                    let m = index as int - 1 - off;
                    assert(m == i * n + (m - n * i)) by (nonlinear_arith);
                    lemma_fundamental_div_mod_converse(m, n as int, i as int, m - n * i);
                }
                return i;
            }
            proof {
                assert(n * (i + 1) == n * i + n) by (nonlinear_arith);
            }
            i = i + 1;
        }
        proof {
            assert(n * i == n * n) by (nonlinear_arith)
                requires i == n;
        }
        i
    }

    /// All cells of the vertical layer of cell `index`, in ascending index
    /// order.
    pub fn select_vertical(&self, index: usize) -> (r: Vec<C>)
        requires
            self.wf(),
            1 <= index <= self.side() * self.side() * self.side(),
        ensures
            r@ == cells_at(
                self.cells(),
                vertical_positions(self.side(), vertical_of(self.side(), index as int)),
            ),
            r@.len() == self.side() * self.side(),
    {
        let vert_layer = self.vertical_layer(index);
        let n = self.side_size as usize;
        let total = self.cubes.len();
        proof {
            assert(n >= 1) by (nonlinear_arith)
                requires 1 <= index <= n * n * n;
            assert(1 <= n * n <= n * n * n) by (nonlinear_arith)
                requires n >= 1;
            assert(n * n * vert_layer + n * n <= n * n * n) by (nonlinear_arith)
                requires vert_layer < n;
        }
        let layer_size = n * n;
        let start = layer_size * vert_layer as usize;
        let ghost ps = vertical_positions(n as int, vert_layer as int);
        let mut r: Vec<C> = Vec::new();
        let mut k: usize = 0;
        while k < layer_size
            invariant
                self.wf(),
                total == self.cells().len(),
                n == self.side(),
                layer_size == n * n,
                start + layer_size <= total,
                ps == vertical_positions(n as int, vert_layer as int),
                start == n * n * vert_layer,
                k <= layer_size,
                r@ == cells_at(self.cells(), ps.take(k as int)),
            decreases layer_size - k,
        {
            r.push(self.cubes[start + k]);
            proof {
                assert(ps.take(k + 1) == ps.take(k as int).push(start + k));
                assert(r@ =~= cells_at(self.cells(), ps.take(k + 1)));
            }
            k = k + 1;
        }
        proof {
            assert(ps.take(k as int) == ps);
        }
        r
    }

    /// All cells of the horizontal layer of cell `index`: the matching row of
    /// every vertical layer, vertical layers ascending, each row ascending.
    pub fn select_horizontal(&self, index: usize) -> (r: Vec<C>)
        requires
            self.wf(),
            1 <= index <= self.side() * self.side() * self.side(),
        ensures
            r@ == cells_at(
                self.cells(),
                horizontal_positions(self.side(), horizontal_of(self.side(), index as int)),
            ),
            r@.len() == self.side() * self.side(),
    {
        let hor_layer = self.horizontal_layer(index);
        let n = self.side_size as usize;
        let total = self.cubes.len();
        proof {
            assert(n >= 1) by (nonlinear_arith)
                requires 1 <= index <= n * n * n;
            assert(1 <= n * n <= n * n * n) by (nonlinear_arith)
                requires n >= 1;
        }
        let ghost ps = horizontal_positions(n as int, hor_layer as int);
        let mut r: Vec<C> = Vec::new();
        let mut v: usize = 0;
        while v < n
            invariant
                self.wf(),
                total == self.cells().len(),
                n == self.side(),
                n >= 1,
                total == n * n * n,
                hor_layer < n,
                ps == horizontal_positions(n as int, hor_layer as int),
                v <= n,
                r@ == cells_at(self.cells(), ps.take(n * v)),
            decreases n - v,
        {
            proof {
                assert(n * n * v + n * hor_layer + n <= n * n * n) by (nonlinear_arith)
                    requires v < n, hor_layer < n;
                assert(n * n <= n * n * n) by (nonlinear_arith)
                    requires n >= 1;
                assert(0 <= n * n * v && 0 <= n * hor_layer) by (nonlinear_arith);
                assert(n * v + n <= n * n) by (nonlinear_arith)
                    requires v < n;
            }
            let row = n * n * v + n * hor_layer as usize;
            let mut z: usize = 0;
            while z < n
                invariant
                    self.wf(),
                    total == self.cells().len(),
                    n == self.side(),
                    n >= 1,
                    ps == horizontal_positions(n as int, hor_layer as int),
                    v < n,
                    n * v + n <= n * n,
                    row == n * n * v + n * hor_layer,
                    row + n <= total,
                    z <= n,
                    r@ == cells_at(self.cells(), ps.take(n * v + z)),
                decreases n - z,
            {
                r.push(self.cubes[row + z]);
                proof {
                    let k = n * v + z;
                    assert(k == v * n + z) by (nonlinear_arith)
                        requires k == n * v + z;
                    lemma_fundamental_div_mod_converse(k, n as int, v as int, z as int);
                    assert(ps[k] == row + z);
                    assert(ps.take(k + 1) == ps.take(k).push(row + z));
                    assert(r@ =~= cells_at(self.cells(), ps.take(k + 1)));
                }
                z = z + 1;
            }
            proof {
                assert(n * v + n == n * (v + 1)) by (nonlinear_arith);
            }
            v = v + 1;
        }
        proof {
            assert(ps.take(n * v) == ps);
        }
        r
    }
}

} // verus!
