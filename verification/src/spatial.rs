//! A uniform grid over the points of a layout, which answers which points
//! lie in the cell of a point or in one of the cells around it.
//!
//! The grid never looks at a coordinate. Which cell a point falls into is
//! worked out by the caller, who knows the arithmetic of the coordinates;
//! the grid files each point under its cell and hands the points of a
//! neighbourhood back.

use vstd::prelude::*;

verus! {

/// The cell of a point: its column and row in the grid, or nothing for a
/// point that has no place (a coordinate that is not finite).
pub type Cell = Option<(usize, usize)>;

/// Every cell that is present lies inside a grid of `k` by `k` blocks.
pub open spec fn cells_within(cells: Seq<Cell>, k: int) -> bool {
    forall|i: int|
        0 <= i < cells.len() ==> match #[trigger] cells[i] {
            Some((x, y)) => x < k && y < k,
            None => true,
        }
}

/// Whether every cell that is present lies inside a grid of `k` by `k`
/// blocks.
pub fn cells_fit(cells: &Vec<Cell>, k: usize) -> (ok: bool)
    ensures
        ok == cells_within(cells@, k as int),
{
    let mut i: usize = 0;
    while i < cells.len()
        invariant
            i <= cells@.len(),
            cells_within(cells@.take(i as int), k as int),
        decreases cells@.len() - i,
    {
        match cells[i] {
            Some((x, y)) => {
                if x >= k || y >= k {
                    return false;
                }
            },
            None => {},
        }
        assert forall|j: int| 0 <= j < i + 1 implies match #[trigger] cells@.take(i + 1)[j] {
            Some((x, y)) => x < k && y < k,
            None => true,
        } by {
            if j < i {
                assert(cells@.take(i as int)[j] == cells@[j]);
            }
        }
        i += 1;
    }
    assert(cells@.take(cells@.len() as int) == cells@);
    true
}

/// The points of a flat coordinate vector: point `i` carries its id and the
/// two entries at `2 i` and `2 i + 1`. A last odd entry belongs to no point.
pub open spec fn points<T>(xs: Seq<T>) -> Seq<(usize, T, T)> {
    Seq::new((xs.len() / 2) as nat, |i: int| (i as usize, xs[2 * i], xs[2 * i + 1]))
}

/// The test that a point is filed under the cell `(x, y)`.
pub open spec fn in_cell<T>(cells: Seq<Cell>, x: int, y: int) -> spec_fn((usize, T, T)) -> bool {
    |p: (usize, T, T)| p.0 < cells.len() && cells[p.0 as int] == Some((x as usize, y as usize))
}

/// The points of `xs` that are filed under the cell `(x, y)`, by rising id.
pub open spec fn bucket<T>(xs: Seq<T>, cells: Seq<Cell>, x: int, y: int) -> Seq<(usize, T, T)> {
    points(xs).filter(in_cell(cells, x, y))
}

/// The block at `(x, y)` of a grid of `k` by `k` blocks, and nothing
/// outside the grid.
pub open spec fn block_at<T>(grid: Seq<Seq<Seq<(usize, T, T)>>>, k: int, x: int, y: int) -> Seq<
    (usize, T, T),
> {
    if 0 <= x < k && 0 <= y < k {
        grid[x][y]
    } else {
        Seq::empty()
    }
}

/// The points near a cell: those of its own block, then those of the
/// blocks around it, column to the left first, then the column to the
/// right, then the blocks below and above.
pub open spec fn nearby_points<T>(grid: Seq<Seq<Seq<(usize, T, T)>>>, k: int, cell: Cell) -> Seq<
    (usize, T, T),
> {
    match cell {
        None => Seq::empty(),
        Some((x, y)) => block_at(grid, k, x as int, y as int) + block_at(grid, k, x - 1, y - 1)
            + block_at(grid, k, x - 1, y + 1) + block_at(grid, k, x - 1, y as int) + block_at(
            grid,
            k,
            x + 1,
            y - 1,
        ) + block_at(grid, k, x + 1, y + 1) + block_at(grid, k, x + 1, y as int) + block_at(
            grid,
            k,
            x as int,
            y - 1,
        ) + block_at(grid, k, x as int, y + 1),
    }
}

/// One more point changes the block of its own cell only.
pub proof fn lemma_bucket_step<T>(xs: Seq<T>, cells: Seq<Cell>, i: int, x: int, y: int)
    requires
        0 <= i < points(xs).len(),
        cells.len() == points(xs).len(),
        xs.len() <= usize::MAX,
    ensures
        points(xs).take(i + 1).filter(in_cell(cells, x, y)) == if cells[i] == Some(
            (x as usize, y as usize),
        ) {
            points(xs).take(i).filter(in_cell(cells, x, y)).push(points(xs)[i])
        } else {
            points(xs).take(i).filter(in_cell(cells, x, y))
        },
{
    let all = points(xs);
    let filed = in_cell::<T>(cells, x, y);
    assert(all[i].0 == i);
    assert(filed(all[i]) == (cells[i] == Some((x as usize, y as usize))));
    all.lemma_take_succ_push(i);
    all.take(i).lemma_filter_push(all[i], filed);
}

/// Appends `point` to the block at `(x, y)` and leaves the others alone.
fn file_point<T: Copy>(blocks: &mut Vec<Vec<Vec<(usize, T, T)>>>, x: usize, y: usize, point: (usize, T, T))
    requires
        x < old(blocks)@.len(),
        y < old(blocks)@[x as int]@.len(),
    ensures
        final(blocks)@.len() == old(blocks)@.len(),
        forall|a: int|
            0 <= a < old(blocks)@.len() ==> (#[trigger] final(blocks)@[a])@.len() == old(
                blocks,
            )@[a]@.len(),
        final(blocks)@[x as int]@[y as int]@ == old(blocks)@[x as int]@[y as int]@.push(point),
        forall|a: int, b: int|
            0 <= a < old(blocks)@.len() && 0 <= b < old(blocks)@[a]@.len() && (a != x || b != y)
                ==> (#[trigger] final(blocks)@[a]@[b])@ == old(blocks)@[a]@[b]@,
{
    blocks[x][y].push(point);
}

/// Appends the points of `block` to `out`, in their order.
fn append_block<T: Copy>(out: &mut Vec<(usize, T, T)>, block: &Vec<(usize, T, T)>)
    ensures
        final(out)@ == old(out)@ + block@,
{
    let mut j: usize = 0;
    while j < block.len()
        invariant
            j <= block@.len(),
            out@ == old(out)@ + block@.take(j as int),
        decreases block@.len() - j,
    {
        out.push(block[j]);
        assert(block@.take(j + 1) == block@.take(j as int).push(block@[j as int]));
        j += 1;
    }
    assert(block@.take(block@.len() as int) == block@);
}

/// A grid of `n_blocks` by `n_blocks` blocks, each with the points filed
/// under it.
pub struct Blocking<T> {
    /// The blocks, by column and then by row.
    pub blocks: Vec<Vec<Vec<(usize, T, T)>>>,
    /// The number of blocks along each side.
    pub n_blocks: usize,
}

impl<T: Copy> Blocking<T> {
    /// The blocks as sequences.
    pub open spec fn grid(&self) -> Seq<Seq<Seq<(usize, T, T)>>> {
        Seq::new(
            self.blocks@.len(),
            |x: int| Seq::new(self.blocks@[x]@.len(), |y: int| self.blocks@[x]@[y]@),
        )
    }

    /// The grid is square: `n_blocks` columns of `n_blocks` blocks.
    pub open spec fn wf(&self) -> bool {
        &&& self.blocks@.len() == self.n_blocks
        &&& forall|x: int| 0 <= x < self.n_blocks ==> (#[trigger] self.blocks@[x])@.len() == self.n_blocks
    }

    /// The grid files the points of `xs` under the cells in `cells`: each
    /// block holds the points of its cell, by rising id.
    pub open spec fn holds(&self, xs: Seq<T>, cells: Seq<Cell>) -> bool {
        &&& self.wf()
        &&& forall|x: int, y: int|
            0 <= x < self.n_blocks && 0 <= y < self.n_blocks ==> #[trigger] self.grid()[x][y]
                == bucket(xs, cells, x, y)
    }

    /// Files the points of `xs` under their cells.
    pub fn create(xs: &Vec<T>, cells: &Vec<Cell>, n_blocks: usize) -> (index: Blocking<T>)
        requires
            cells@.len() == xs@.len() / 2,
            cells_within(cells@, n_blocks as int),
        ensures
            index.n_blocks == n_blocks,
            index.holds(xs@, cells@),
    {
        let mut blocks: Vec<Vec<Vec<(usize, T, T)>>> = Vec::new();
        let mut c: usize = 0;
        while c < n_blocks
            invariant
                c <= n_blocks,
                blocks@.len() == c,
                forall|x: int| 0 <= x < c ==> (#[trigger] blocks@[x])@.len() == n_blocks,
                forall|x: int, y: int|
                    0 <= x < c && 0 <= y < n_blocks ==> (#[trigger] blocks@[x]@[y])@
                        == Seq::<(usize, T, T)>::empty(),
            decreases n_blocks - c,
        {
            let mut column: Vec<Vec<(usize, T, T)>> = Vec::new();
            let mut r: usize = 0;
            while r < n_blocks
                invariant
                    r <= n_blocks,
                    column@.len() == r,
                    forall|y: int| 0 <= y < r ==> (#[trigger] column@[y])@ == Seq::<
                        (usize, T, T),
                    >::empty(),
                decreases n_blocks - r,
            {
                column.push(Vec::new());
                r += 1;
            }
            blocks.push(column);
            c += 1;
        }
        let mut i: usize = 0;
        let count = xs.len();
        proof {
            assert forall|x: int, y: int| 0 <= x < n_blocks && 0 <= y < n_blocks implies (
            #[trigger] blocks@[x]@[y])@ == points(xs@).take(0).filter(in_cell(cells@, x, y)) by {
                reveal(Seq::filter);
            }
        }
        while i < cells.len()
            invariant
                i <= cells@.len(),
                cells@.len() == xs@.len() / 2,
                xs@.len() == count,
                cells_within(cells@, n_blocks as int),
                blocks@.len() == n_blocks,
                forall|x: int| 0 <= x < n_blocks ==> (#[trigger] blocks@[x])@.len() == n_blocks,
                forall|x: int, y: int|
                    0 <= x < n_blocks && 0 <= y < n_blocks ==> (#[trigger] blocks@[x]@[y])@
                        == points(xs@).take(i as int).filter(in_cell(cells@, x, y)),
            decreases cells@.len() - i,
        {
            let ghost before = blocks@;
            let point = (i, xs[2 * i], xs[2 * i + 1]);
            assert(point == points(xs@)[i as int]);
            match cells[i] {
                Some((x, y)) => {
                    file_point(&mut blocks, x, y, point);
                },
                None => {},
            }
            proof {
                assert forall|x: int, y: int| 0 <= x < n_blocks && 0 <= y < n_blocks implies (
                #[trigger] blocks@[x]@[y])@ == points(xs@).take(i + 1).filter(
                    in_cell(cells@, x, y),
                ) by {
                    lemma_bucket_step(xs@, cells@, i as int, x, y);
                    assert(before[x]@[y]@ == points(xs@).take(i as int).filter(
                        in_cell(cells@, x, y),
                    ));
                }
            }
            i += 1;
        }
        let index = Blocking { blocks, n_blocks };
        proof {
            assert(points(xs@).take(cells@.len() as int) == points(xs@));
            assert forall|x: int, y: int|
                0 <= x < n_blocks && 0 <= y < n_blocks implies #[trigger] index.grid()[x][y]
                == bucket(xs@, cells@, x, y) by {
                assert(index.grid()[x][y] == index.blocks@[x]@[y]@);
            }
        }
        index
    }

    /// The points in the block of `cell` and in the blocks around it; none
    /// for a point without a cell.
    pub fn nearby(&self, cell: Cell) -> (elems: Vec<(usize, T, T)>)
        requires
            self.wf(),
            cell matches Some((x, y)) ==> x < self.n_blocks && y < self.n_blocks,
        ensures
            elems@ == nearby_points(self.grid(), self.n_blocks as int, cell),
    {
        let mut elems: Vec<(usize, T, T)> = Vec::new();
        match cell {
            Some((x_id, y_id)) => {
                let ghost g = self.grid();
                let ghost k = self.n_blocks as int;
                assert forall|a: int, b: int| 0 <= a < k && 0 <= b < k implies #[trigger] g[a][b]
                    == self.blocks@[a]@[b]@ by {}
                append_block(&mut elems, &self.blocks[x_id][y_id]);
                assert(elems@ == block_at(g, k, x_id as int, y_id as int));
                if x_id > 0 {
                    if y_id > 0 {
                        append_block(&mut elems, &self.blocks[x_id - 1][y_id - 1]);
                    }
                    if y_id < self.n_blocks - 1 {
                        append_block(&mut elems, &self.blocks[x_id - 1][y_id + 1]);
                    }
                    append_block(&mut elems, &self.blocks[x_id - 1][y_id]);
                }
                assert(elems@ == block_at(g, k, x_id as int, y_id as int) + block_at(
                    g,
                    k,
                    x_id - 1,
                    y_id - 1,
                ) + block_at(g, k, x_id - 1, y_id + 1) + block_at(g, k, x_id - 1, y_id as int));
                if x_id < self.n_blocks - 1 {
                    if y_id > 0 {
                        append_block(&mut elems, &self.blocks[x_id + 1][y_id - 1]);
                    }
                    if y_id < self.n_blocks - 1 {
                        append_block(&mut elems, &self.blocks[x_id + 1][y_id + 1]);
                    }
                    append_block(&mut elems, &self.blocks[x_id + 1][y_id]);
                }
                assert(elems@ == block_at(g, k, x_id as int, y_id as int) + block_at(
                    g,
                    k,
                    x_id - 1,
                    y_id - 1,
                ) + block_at(g, k, x_id - 1, y_id + 1) + block_at(g, k, x_id - 1, y_id as int)
                    + block_at(g, k, x_id + 1, y_id - 1) + block_at(g, k, x_id + 1, y_id + 1)
                    + block_at(g, k, x_id + 1, y_id as int));
                if y_id > 0 {
                    append_block(&mut elems, &self.blocks[x_id][y_id - 1]);
                }
                if y_id < self.n_blocks - 1 {
                    append_block(&mut elems, &self.blocks[x_id][y_id + 1]);
                }
            },
            None => {},
        }
        elems
    }
}

/// Two cells touch: they are at most one column and one row apart.
pub open spec fn touching(c: (usize, usize), d: (usize, usize)) -> bool {
    -1 <= c.0 - d.0 <= 1 && -1 <= c.1 - d.1 <= 1
}

/// The column and row of a cell as integers; a point without a cell is
/// placed outside every grid.
pub open spec fn place(cell: Cell) -> (int, int) {
    match cell {
        Some((x, y)) => (x as int, y as int),
        None => (-1, -1),
    }
}

/// `s` lists, each once, exactly the points of `xs` whose cell lies in
/// `region`.
pub open spec fn files<T>(
    s: Seq<(usize, T, T)>,
    xs: Seq<T>,
    cells: Seq<Cell>,
    region: Set<(int, int)>,
) -> bool {
    &&& s.no_duplicates()
    &&& forall|j: int|
        0 <= j < s.len() ==> {
            let p = #[trigger] s[j];
            &&& p.0 < cells.len()
            &&& p == points(xs)[p.0 as int]
            &&& cells[p.0 as int] is Some
            &&& region.contains(place(cells[p.0 as int]))
        }
    &&& forall|i: int|
        0 <= i < cells.len() && (#[trigger] cells[i]) is Some && region.contains(
            place(cells[i]),
        ) ==> s.contains(points(xs)[i])
}

/// Filtering keeps a sequence free of duplicates.
pub proof fn lemma_filter_no_duplicates<A>(s: Seq<A>, pred: spec_fn(A) -> bool)
    requires
        s.no_duplicates(),
    ensures
        s.filter(pred).no_duplicates(),
    decreases s.len(),
{
    reveal(Seq::filter);
    if s.len() > 0 {
        let rest = s.drop_last();
        lemma_filter_no_duplicates(rest, pred);
        if pred(s.last()) {
            if rest.filter(pred).contains(s.last()) {
                rest.lemma_filter_contains_rev(pred, s.last());
                let k = choose|k: int| 0 <= k < rest.len() && rest[k] == s.last();
                assert(s[k] == s[s.len() - 1]);
            }
        }
    }
}

/// The block of a cell lists the points of that cell and no others.
pub proof fn lemma_bucket_files<T>(xs: Seq<T>, cells: Seq<Cell>, x: int, y: int)
    requires
        xs.len() <= usize::MAX,
        cells.len() == points(xs).len(),
        0 <= x <= usize::MAX,
        0 <= y <= usize::MAX,
    ensures
        files(bucket(xs, cells, x, y), xs, cells, set![(x, y)]),
{
    broadcast use vstd::seq_lib::group_filter_ensures;

    let all = points(xs);
    let filed = in_cell::<T>(cells, x, y);
    let b = bucket(xs, cells, x, y);
    assert(all.no_duplicates());
    lemma_filter_no_duplicates(all, filed);
    assert forall|j: int| 0 <= j < b.len() implies {
        let p = #[trigger] b[j];
        &&& p.0 < cells.len()
        &&& p == all[p.0 as int]
        &&& cells[p.0 as int] is Some
        &&& set![(x, y)].contains(place(cells[p.0 as int]))
    } by {
        let p = b[j];
        all.lemma_filter_pred(filed, j);
        assert(filed(p));
        assert(b.contains(p));
        all.lemma_filter_contains_rev(filed, p);
        let i = choose|i: int| 0 <= i < all.len() && all[i] == p;
        assert(p.0 == i);
    }
    assert forall|i: int|
        0 <= i < cells.len() && (#[trigger] cells[i]) is Some && set![(x, y)].contains(
            place(cells[i]),
        ) implies b.contains(all[i]) by {
        assert(all[i].0 == i);
        assert(filed(all[i]));
        all.lemma_filter_contains(filed, i);
    }
}

/// Two lists over regions that share no cell join into a list over both.
pub proof fn lemma_files_join<T>(
    a: Seq<(usize, T, T)>,
    ra: Set<(int, int)>,
    b: Seq<(usize, T, T)>,
    rb: Set<(int, int)>,
    xs: Seq<T>,
    cells: Seq<Cell>,
)
    requires
        files(a, xs, cells, ra),
        files(b, xs, cells, rb),
        ra.disjoint(rb),
    ensures
        files(a + b, xs, cells, ra.union(rb)),
{
    let s = a + b;
    assert forall|i: int, j: int| 0 <= i < a.len() && 0 <= j < b.len() implies a[i] != b[j] by {
        let p = a[i];
        let q = b[j];
        let cp = place(cells[p.0 as int]);
        assert(ra.contains(cp));
        if p == q {
            assert(rb.contains(cp));
        }
    }
    vstd::seq_lib::lemma_no_dup_in_concat(a, b);
    assert forall|j: int| 0 <= j < s.len() implies {
        let p = #[trigger] s[j];
        &&& p.0 < cells.len()
        &&& p == points(xs)[p.0 as int]
        &&& cells[p.0 as int] is Some
        &&& ra.union(rb).contains(
            place(cells[p.0 as int]),
        )
    } by {
        if j < a.len() {
            assert(s[j] == a[j]);
        } else {
            assert(s[j] == b[j - a.len()]);
        }
    }
    assert forall|i: int|
        0 <= i < cells.len() && (#[trigger] cells[i]) is Some && ra.union(rb).contains(
            place(cells[i]),
        ) implies s.contains(points(xs)[i]) by {
        let p = points(xs)[i];
        if ra.contains(place(cells[i])) {
            let j = choose|j: int| 0 <= j < a.len() && a[j] == p;
            assert(s[j] == p);
        } else {
            let j = choose|j: int| 0 <= j < b.len() && b[j] == p;
            assert(s[a.len() + j] == p);
        }
    }
}

/// The cells of a grid of `k` by `k` blocks that touch the cell `(x, y)`,
/// that cell among them.
pub open spec fn neighbourhood(k: int, x: int, y: int) -> Set<(int, int)> {
    Set::new(
        |c: (int, int)|
            0 <= c.0 < k && 0 <= c.1 < k && x - 1 <= c.0 <= x + 1 && y - 1 <= c.1 <= y + 1,
    )
}

/// The region that the block at `(a, b)` stands for: its cell, or nothing
/// outside the grid.
pub open spec fn block_region(k: int, a: int, b: int) -> Set<(int, int)> {
    if 0 <= a < k && 0 <= b < k {
        set![(a, b)]
    } else {
        Set::empty()
    }
}

impl<T: Copy> Blocking<T> {
    /// A block lists the points of its cell; outside the grid there is
    /// nothing to list.
    pub proof fn lemma_block_files(&self, xs: Seq<T>, cells: Seq<Cell>, a: int, b: int)
        requires
            self.holds(xs, cells),
            xs.len() <= usize::MAX,
            cells.len() == points(xs).len(),
        ensures
            files(
                block_at(self.grid(), self.n_blocks as int, a, b),
                xs,
                cells,
                block_region(self.n_blocks as int, a, b),
            ),
    {
        if 0 <= a < self.n_blocks && 0 <= b < self.n_blocks {
            assert(self.grid()[a][b] == bucket(xs, cells, a, b));
            lemma_bucket_files(xs, cells, a, b);
        }
    }

    /// What `nearby` returns for a cell of the grid: each point whose cell
    /// touches the given one, once, and no other point.
    pub proof fn lemma_nearby_files(&self, xs: Seq<T>, cells: Seq<Cell>, x: usize, y: usize)
        requires
            self.holds(xs, cells),
            xs.len() <= usize::MAX,
            cells.len() == points(xs).len(),
            x < self.n_blocks,
            y < self.n_blocks,
        ensures
            files(
                nearby_points(self.grid(), self.n_blocks as int, Some((x, y))),
                xs,
                cells,
                neighbourhood(self.n_blocks as int, x as int, y as int),
            ),
    {
        let g = self.grid();
        let k = self.n_blocks as int;
        let xi = x as int;
        let yi = y as int;
        self.lemma_block_files(xs, cells, xi, yi);
        self.lemma_block_files(xs, cells, xi - 1, yi - 1);
        self.lemma_block_files(xs, cells, xi - 1, yi + 1);
        self.lemma_block_files(xs, cells, xi - 1, yi);
        self.lemma_block_files(xs, cells, xi + 1, yi - 1);
        self.lemma_block_files(xs, cells, xi + 1, yi + 1);
        self.lemma_block_files(xs, cells, xi + 1, yi);
        self.lemma_block_files(xs, cells, xi, yi - 1);
        self.lemma_block_files(xs, cells, xi, yi + 1);
        let s0 = block_at(g, k, xi, yi);
        let r0 = block_region(k, xi, yi);
        let s1 = s0 + block_at(g, k, xi - 1, yi - 1);
        let r1 = r0.union(block_region(k, xi - 1, yi - 1));
        lemma_files_join(s0, r0, block_at(g, k, xi - 1, yi - 1), block_region(k, xi - 1, yi - 1), xs, cells);
        let s2 = s1 + block_at(g, k, xi - 1, yi + 1);
        let r2 = r1.union(block_region(k, xi - 1, yi + 1));
        lemma_files_join(s1, r1, block_at(g, k, xi - 1, yi + 1), block_region(k, xi - 1, yi + 1), xs, cells);
        let s3 = s2 + block_at(g, k, xi - 1, yi);
        let r3 = r2.union(block_region(k, xi - 1, yi));
        lemma_files_join(s2, r2, block_at(g, k, xi - 1, yi), block_region(k, xi - 1, yi), xs, cells);
        let s4 = s3 + block_at(g, k, xi + 1, yi - 1);
        let r4 = r3.union(block_region(k, xi + 1, yi - 1));
        lemma_files_join(s3, r3, block_at(g, k, xi + 1, yi - 1), block_region(k, xi + 1, yi - 1), xs, cells);
        let s5 = s4 + block_at(g, k, xi + 1, yi + 1);
        let r5 = r4.union(block_region(k, xi + 1, yi + 1));
        lemma_files_join(s4, r4, block_at(g, k, xi + 1, yi + 1), block_region(k, xi + 1, yi + 1), xs, cells);
        let s6 = s5 + block_at(g, k, xi + 1, yi);
        let r6 = r5.union(block_region(k, xi + 1, yi));
        lemma_files_join(s5, r5, block_at(g, k, xi + 1, yi), block_region(k, xi + 1, yi), xs, cells);
        let s7 = s6 + block_at(g, k, xi, yi - 1);
        let r7 = r6.union(block_region(k, xi, yi - 1));
        lemma_files_join(s6, r6, block_at(g, k, xi, yi - 1), block_region(k, xi, yi - 1), xs, cells);
        let s8 = s7 + block_at(g, k, xi, yi + 1);
        let r8 = r7.union(block_region(k, xi, yi + 1));
        lemma_files_join(s7, r7, block_at(g, k, xi, yi + 1), block_region(k, xi, yi + 1), xs, cells);
        assert(s8 == nearby_points(g, k, Some((x, y))));
        assert(r8 =~= neighbourhood(k, xi, yi));
    }
}

/// A list over any region holds points of `xs` only, each at most once.
pub proof fn lemma_files_are_points<T>(
    s: Seq<(usize, T, T)>,
    xs: Seq<T>,
    cells: Seq<Cell>,
    region: Set<(int, int)>,
)
    requires
        files(s, xs, cells, region),
        cells.len() == points(xs).len(),
    ensures
        s.no_duplicates(),
        forall|j: int| 0 <= j < s.len() ==> points(xs).contains(#[trigger] s[j]),
        s.to_multiset().subset_of(points(xs).to_multiset()),
{
    broadcast use vstd::seq_lib::to_multiset_contains;

    let all = points(xs);
    assert forall|j: int| 0 <= j < s.len() implies all.contains(#[trigger] s[j]) by {
        let p = s[j];
        assert(all[p.0 as int] == p);
    }
    s.lemma_multiset_has_no_duplicates();
    assert forall|p: (usize, T, T)| s.to_multiset().count(p) <= all.to_multiset().count(p) by {
        if s.to_multiset().count(p) > 0 {
            assert(s.contains(p));
            let j = choose|j: int| 0 <= j < s.len() && s[j] == p;
            assert(all.contains(s[j]));
        }
    }
}

/// Where every point has a cell inside the region, the list holds the
/// very points of `xs`: the same points, each once.
pub proof fn lemma_files_are_all_points<T>(
    s: Seq<(usize, T, T)>,
    xs: Seq<T>,
    cells: Seq<Cell>,
    region: Set<(int, int)>,
)
    requires
        files(s, xs, cells, region),
        cells.len() == points(xs).len(),
        xs.len() <= usize::MAX,
        forall|i: int| 0 <= i < cells.len() ==> region.contains(#[trigger] place(cells[i])),
        !region.contains((-1, -1)),
    ensures
        s.to_multiset() == points(xs).to_multiset(),
        s.len() == points(xs).len(),
{
    broadcast use vstd::seq_lib::to_multiset_contains;

    let all = points(xs);
    lemma_files_are_points(s, xs, cells, region);
    assert(all.no_duplicates());
    all.lemma_multiset_has_no_duplicates();
    s.lemma_multiset_has_no_duplicates();
    assert forall|p: (usize, T, T)| s.to_multiset().count(p) == all.to_multiset().count(p) by {
        if all.to_multiset().count(p) > 0 {
            assert(all.contains(p));
            let i = choose|i: int| 0 <= i < all.len() && all[i] == p;
            assert(region.contains(place(cells[i])));
            assert(cells[i] is Some);
            assert(s.contains(all[i]));
        }
    }
    assert(s.to_multiset() =~= all.to_multiset());
    s.to_multiset_ensures();
    all.to_multiset_ensures();
}

impl<T: Copy> Blocking<T> {
    /// The grid never finds more than going through all points would: what
    /// `nearby` returns are points of `xs`, none of them twice.
    pub proof fn lemma_grid_within_all(&self, xs: Seq<T>, cells: Seq<Cell>, x: usize, y: usize)
        requires
            self.holds(xs, cells),
            xs.len() <= usize::MAX,
            cells.len() == points(xs).len(),
            x < self.n_blocks,
            y < self.n_blocks,
        ensures
            nearby_points(self.grid(), self.n_blocks as int, Some((x, y))).no_duplicates(),
            nearby_points(self.grid(), self.n_blocks as int, Some((x, y))).to_multiset().subset_of(
                points(xs).to_multiset(),
            ),
    {
        self.lemma_nearby_files(xs, cells, x, y);
        lemma_files_are_points(
            nearby_points(self.grid(), self.n_blocks as int, Some((x, y))),
            xs,
            cells,
            neighbourhood(self.n_blocks as int, x as int, y as int),
        );
    }

    /// Where the cell of every point touches `(x, y)`, the grid finds what
    /// going through all points finds: the same points, each once.
    pub proof fn lemma_grid_equals_all(&self, xs: Seq<T>, cells: Seq<Cell>, x: usize, y: usize)
        requires
            self.holds(xs, cells),
            xs.len() <= usize::MAX,
            cells.len() == points(xs).len(),
            cells_within(cells, self.n_blocks as int),
            x < self.n_blocks,
            y < self.n_blocks,
            forall|i: int|
                0 <= i < cells.len() ==> ((#[trigger] cells[i]) matches Some(c) && touching(
                    c,
                    (x, y),
                )),
        ensures
            nearby_points(self.grid(), self.n_blocks as int, Some((x, y))).to_multiset() == points(
                xs,
            ).to_multiset(),
    {
        let region = neighbourhood(self.n_blocks as int, x as int, y as int);
        self.lemma_nearby_files(xs, cells, x, y);
        assert forall|i: int| 0 <= i < cells.len() implies region.contains(
            #[trigger] place(cells[i]),
        ) by {
            assert(cells[i] is Some);
        }
        lemma_files_are_all_points(
            nearby_points(self.grid(), self.n_blocks as int, Some((x, y))),
            xs,
            cells,
            region,
        );
    }
}

/// The test that a point is not point `v`.
pub open spec fn is_other<T>(v: usize) -> spec_fn((usize, T, T)) -> bool {
    |p: (usize, T, T)| p.0 != v
}

impl<T: Copy> Blocking<T> {
    /// Being near goes both ways: the grid finds point `j` near the cell
    /// of point `i` exactly if it finds point `i` near the cell of `j`.
    pub proof fn lemma_nearby_both_ways(&self, xs: Seq<T>, cells: Seq<Cell>, i: int, j: int)
        requires
            self.holds(xs, cells),
            xs.len() <= usize::MAX,
            cells.len() == points(xs).len(),
            cells_within(cells, self.n_blocks as int),
            0 <= i < cells.len(),
            0 <= j < cells.len(),
            cells[i] is Some,
            cells[j] is Some,
        ensures
            nearby_points(self.grid(), self.n_blocks as int, cells[i]).contains(points(xs)[j])
                <==> nearby_points(self.grid(), self.n_blocks as int, cells[j]).contains(
                points(xs)[i],
            ),
    {
        let k = self.n_blocks as int;
        let ci = cells[i]->0;
        let cj = cells[j]->0;
        self.lemma_nearby_files(xs, cells, ci.0, ci.1);
        self.lemma_nearby_files(xs, cells, cj.0, cj.1);
        let near_i = nearby_points(self.grid(), k, cells[i]);
        let near_j = nearby_points(self.grid(), k, cells[j]);
        assert(cells[i] == Some((ci.0, ci.1)));
        assert(cells[j] == Some((cj.0, cj.1)));
        if near_i.contains(points(xs)[j]) {
            let a = choose|a: int| 0 <= a < near_i.len() && near_i[a] == points(xs)[j];
            assert(near_i[a].0 == j);
            assert(neighbourhood(k, ci.0 as int, ci.1 as int).contains(place(cells[j])));
            assert(neighbourhood(k, cj.0 as int, cj.1 as int).contains(place(cells[i])));
        }
        if near_j.contains(points(xs)[i]) {
            let a = choose|a: int| 0 <= a < near_j.len() && near_j[a] == points(xs)[i];
            assert(near_j[a].0 == i);
            assert(neighbourhood(k, cj.0 as int, cj.1 as int).contains(place(cells[i])));
            assert(neighbourhood(k, ci.0 as int, ci.1 as int).contains(place(cells[j])));
        }
    }
}

/// The way in which the points near a point are found: by going through
/// all of them, or through the blocks of a grid.
pub enum Neighbours<T> {
    /// Every point is near every point.
    All(Vec<(usize, T, T)>),
    /// The points in touching cells of a grid are near each other.
    Grid(Blocking<T>),
}

/// The points of `xs`, each with its id.
pub fn all_points<T: Copy>(xs: &Vec<T>) -> (all: Vec<(usize, T, T)>)
    ensures
        all@ == points(xs@),
{
    let mut all: Vec<(usize, T, T)> = Vec::new();
    let len = xs.len();
    let count = len / 2;
    let mut i: usize = 0;
    while i < count
        invariant
            i <= count,
            len == xs@.len(),
            count == len / 2,
            all@ == points(xs@).take(i as int),
        decreases count - i,
    {
        all.push((i, xs[2 * i], xs[2 * i + 1]));
        assert(points(xs@).take(i + 1) == points(xs@).take(i as int).push(points(xs@)[i as int]));
        i += 1;
    }
    assert(points(xs@).take(count as int) == points(xs@));
    all
}

impl<T: Copy> Neighbours<T> {
    /// The search agrees with the points of `xs` filed under `cells`.
    pub open spec fn holds(&self, xs: Seq<T>, cells: Seq<Cell>) -> bool {
        match self {
            Neighbours::All(all) => all@ == points(xs),
            Neighbours::Grid(index) => index.holds(xs, cells),
        }
    }

    /// The points near a cell.
    pub open spec fn near(&self, cell: Cell) -> Seq<(usize, T, T)> {
        match self {
            Neighbours::All(all) => all@,
            Neighbours::Grid(index) => nearby_points(index.grid(), index.n_blocks as int, cell),
        }
    }

    /// Chooses the search by the resolution: a grid of `resolution` blocks
    /// a side where that is more than one, and all points otherwise.
    pub fn build(xs: &Vec<T>, cells: &Vec<Cell>, resolution: usize) -> (search: Neighbours<T>)
        requires
            resolution > 1 ==> cells@.len() == xs@.len() / 2 && cells_within(
                cells@,
                resolution as int,
            ),
        ensures
            search.holds(xs@, cells@),
            resolution <= 1 <==> search is All,
            search matches Neighbours::Grid(index) ==> index.n_blocks == resolution,
    {
        if resolution > 1 {
            Neighbours::Grid(Blocking::create(xs, cells, resolution))
        } else {
            Neighbours::All(all_points(xs))
        }
    }

    /// The points other than point `v` that are near a point in `cell`,
    /// in the order in which `nearby` gives them.
    pub fn others(&self, v: usize, cell: Cell) -> (elems: Vec<(usize, T, T)>)
        requires
            self matches Neighbours::Grid(index) ==> index.wf() && (cell matches Some((x, y))
                ==> x < index.n_blocks && y < index.n_blocks),
        ensures
            elems@ == self.near(cell).filter(is_other(v)),
    {
        let near = self.nearby(cell);
        let mut elems: Vec<(usize, T, T)> = Vec::new();
        let mut j: usize = 0;
        proof {
            reveal(Seq::filter);
            assert(near@.take(0).filter(is_other::<T>(v)) == Seq::<(usize, T, T)>::empty());
        }
        while j < near.len()
            invariant
                j <= near@.len(),
                elems@ == near@.take(j as int).filter(is_other(v)),
            decreases near@.len() - j,
        {
            proof {
                near@.lemma_take_succ_push(j as int);
                near@.take(j as int).lemma_filter_push(near@[j as int], is_other(v));
            }
            if near[j].0 != v {
                elems.push(near[j]);
            }
            j += 1;
        }
        assert(near@.take(near@.len() as int) == near@);
        elems
    }

    /// The points that are near a point in `cell`. The point itself is
    /// among them where it has a cell.
    pub fn nearby(&self, cell: Cell) -> (elems: Vec<(usize, T, T)>)
        requires
            self matches Neighbours::Grid(index) ==> index.wf() && (cell matches Some((x, y))
                ==> x < index.n_blocks && y < index.n_blocks),
        ensures
            elems@ == self.near(cell),
    {
        match self {
            Neighbours::All(all) => {
                let mut elems: Vec<(usize, T, T)> = Vec::new();
                append_block(&mut elems, all);
                elems
            },
            Neighbours::Grid(index) => index.nearby(cell),
        }
    }
}

} // verus!
