//! Conway's life on a rectangular grid of cells, each dead (0) or alive (1).
//! The stepping rule and the block bookkeeping of the parallel workers are
//! verified here; thread spawning, the shared-grid lock and the printing
//! stay in the binary around the library.

use vstd::prelude::*;

verus! {

/// The rows of a grid value, as mathematical sequences.
pub open spec fn rows(g: Vec<Vec<u8>>) -> Seq<Seq<u8>> {
    g@.map_values(|r: Vec<u8>| r@)
}

/// The rows of a grid value are its vectors' views, slot by slot.
pub proof fn lemma_rows(g: Vec<Vec<u8>>)
    ensures
        rows(g).len() == g@.len(),
        forall|j: int| 0 <= j < g@.len() ==> (#[trigger] g@[j]@) == rows(g)[j],
{
}

/// A well-formed grid: `height` rows of `width` cells, every cell 0 or 1.
pub open spec fn grid_wf(g: Seq<Seq<u8>>, height: nat, width: nat) -> bool {
    &&& g.len() == height
    &&& forall|y: int| 0 <= y < height ==> (#[trigger] g[y]).len() == width
    &&& forall|y: int, x: int| 0 <= y < height && 0 <= x < width ==> (#[trigger] g[y][x]) <= 1
}

/// The cell at `(y, x)`, reading 0 outside the grid.
pub open spec fn cell_at(g: Seq<Seq<u8>>, y: int, x: int) -> nat {
    if 0 <= y < g.len() && 0 <= x < g[y].len() {
        g[y][x] as nat
    } else {
        0
    }
}

/// How many of the eight neighbours of `(y, x)` are alive.
pub open spec fn neighbor_count(g: Seq<Seq<u8>>, y: int, x: int) -> nat {
    cell_at(g, y - 1, x - 1) + cell_at(g, y - 1, x) + cell_at(g, y - 1, x + 1) + cell_at(
        g,
        y,
        x - 1,
    ) + cell_at(g, y, x + 1) + cell_at(g, y + 1, x - 1) + cell_at(g, y + 1, x) + cell_at(
        g,
        y + 1,
        x + 1,
    )
}

/// The stepping rule: a live cell survives with two or three live
/// neighbours, a dead cell is born with exactly three, all else dies.
pub open spec fn life_rule(cell: u8, neighbors: nat) -> u8 {
    if cell == 1 && (neighbors == 2 || neighbors == 3) {
        1
    } else if cell == 0 && neighbors == 3 {
        1
    } else {
        0
    }
}

/// One whole generation of the rule, as a value.
pub open spec fn step_spec(g: Seq<Seq<u8>>) -> Seq<Seq<u8>> {
    Seq::new(g.len(), |y: int| Seq::new(g[y].len(), |x: int| life_rule(g[y][x], neighbor_count(g, y, x))))
}

/// `n` generations of the rule.
pub open spec fn iterate_spec(g: Seq<Seq<u8>>, n: nat) -> Seq<Seq<u8>>
    decreases n,
{
    if n == 0 {
        g
    } else {
        iterate_spec(step_spec(g), (n - 1) as nat)
    }
}

/// Count the live neighbours of `(y, x)`, reading nothing outside the grid.
pub fn count_neighbors(grid: &Vec<Vec<u8>>, y: usize, x: usize) -> (count: u8)
    requires
        grid_wf(rows(*grid), rows(*grid).len(), grid@[0]@.len() as nat),
        grid@.len() > 0,
        y < grid@.len(),
        x < grid@[0]@.len(),
    ensures
        count as nat == neighbor_count(rows(*grid), y as int, x as int),
        count <= 8,
{
    proof {
        lemma_rows(*grid);
    }
    let height = grid.len();
    let width = grid[0].len();
    let mut count: u8 = 0;
    if y > 0 {
        if x > 0 {
            count = count + grid[y - 1][x - 1];
        }
        count = count + grid[y - 1][x];
        if x + 1 < width {
            count = count + grid[y - 1][x + 1];
        }
    }
    if x > 0 {
        count = count + grid[y][x - 1];
    }
    if x + 1 < width {
        count = count + grid[y][x + 1];
    }
    if y + 1 < height {
        if x > 0 {
            count = count + grid[y + 1][x - 1];
        }
        count = count + grid[y + 1][x];
        if x + 1 < width {
            count = count + grid[y + 1][x + 1];
        }
    }
    count
}

/// One generation: build the next grid by applying the rule to every cell of
/// the current one.
pub fn step(current: &Vec<Vec<u8>>) -> (next: Vec<Vec<u8>>)
    requires
        grid_wf(rows(*current), rows(*current).len(), current@[0]@.len() as nat),
        current@.len() > 0,
    ensures
        rows(next) == step_spec(rows(*current)),
        grid_wf(rows(next), rows(*current).len(), current@[0]@.len() as nat),
{
    proof {
        lemma_rows(*current);
    }
    let ghost g = rows(*current);
    let height = current.len();
    let width = current[0].len();
    let mut next: Vec<Vec<u8>> = Vec::new();
    let mut y: usize = 0;
    while y < height
        invariant
            grid_wf(g, height as nat, width as nat),
            g == rows(*current),
            height == g.len(),
            width == g[0].len(),
            y <= height,
            next@.len() == y,
            forall|j: int| 0 <= j < y ==> (#[trigger] next@[j])@ == step_spec(g)[j],
        decreases height - y,
    {
        let mut row: Vec<u8> = Vec::new();
        let mut x: usize = 0;
        while x < width
            invariant
                grid_wf(g, height as nat, width as nat),
                g == rows(*current),
                height == g.len(),
                width == g[0].len(),
                y < height,
                x <= width,
                row@.len() == x,
                forall|k: int| 0 <= k < x ==> (#[trigger] row@[k]) == step_spec(g)[y as int][k],
            decreases width - x,
        {
            proof {
                lemma_rows(*current);
            }
            let neighbors = count_neighbors(current, y, x);
            let cell = current[y][x];
            let new_cell: u8 = if cell == 1 && (neighbors == 2 || neighbors == 3) {
                1
            } else if cell == 0 && neighbors == 3 {
                1
            } else {
                0
            };
            row.push(new_cell);
            x = x + 1;
        }
        next.push(row);
        y = y + 1;
    }
    proof {
        assert forall|j: int| 0 <= j < height implies (#[trigger] rows(next)[j]) == step_spec(
            g,
        )[j] by {
            assert(rows(next)[j] == next@[j]@);
            assert(next@[j]@ =~= step_spec(g)[j]);
        }
        assert(rows(next) =~= step_spec(g));
    }
    next
}

/// Run `iterations` generations from `grid`: the evolution loop of one
/// worker, on its private block.
pub fn evolve(grid: Vec<Vec<u8>>, iterations: usize) -> (r: Vec<Vec<u8>>)
    requires
        grid_wf(rows(grid), rows(grid).len(), grid@[0]@.len() as nat),
        grid@.len() > 0,
        forall|y: int| 0 <= y < grid@.len() ==> (#[trigger] grid@[y])@.len() > 0,
    ensures
        rows(r) == iterate_spec(rows(grid), iterations as nat),
        grid_wf(rows(r), rows(grid).len(), grid@[0]@.len() as nat),
        r@.len() == grid@.len(),
{
    proof {
        lemma_rows(grid);
    }
    let ghost g0 = rows(grid);
    let height = grid.len();
    let width = grid[0].len();
    let mut local = grid;
    let mut it: usize = 0;
    while it < iterations
        invariant
            it <= iterations,
            grid_wf(rows(local), height as nat, width as nat),
            height > 0,
            width > 0,
            rows(local) == iterate_spec(g0, it as nat),
        decreases iterations - it,
    {
        let ghost before = rows(local);
        proof {
            lemma_rows(local);
        }
        local = step(&local);
        proof {
            lemma_iterate_snoc(g0, it as nat);
            assert(rows(local) == step_spec(before));
        }
        it = it + 1;
    }
    local
}

/// Unrolling the iteration from the back: one more generation is a step of
/// the result so far.
pub proof fn lemma_iterate_snoc(g: Seq<Seq<u8>>, n: nat)
    ensures
        iterate_spec(g, n + 1) == step_spec(iterate_spec(g, n)),
    decreases n,
{
    reveal_with_fuel(iterate_spec, 2);
    if n > 0 {
        lemma_iterate_snoc(step_spec(g), (n - 1) as nat);
    }
}

/// Relies on rand::random_range: a sample drawn from `0..=1` lies in that
/// range.
#[verifier::external_body]
fn coin() -> (r: u8)
    ensures
        r <= 1,
{
    rand::random_range(0..=1u8)
}

/// A freshly rolled square block of dead and alive cells, the random initial
/// state of one worker's region.
pub fn random_block(block_size: usize) -> (r: Vec<Vec<u8>>)
    ensures
        grid_wf(rows(r), block_size as nat, block_size as nat),
{
    let mut block: Vec<Vec<u8>> = Vec::new();
    let mut y: usize = 0;
    while y < block_size
        invariant
            y <= block_size,
            block@.len() == y,
            forall|j: int| 0 <= j < y ==> (#[trigger] block@[j])@.len() == block_size,
            forall|j: int, k: int|
                0 <= j < y && 0 <= k < block_size ==> (#[trigger] block@[j]@[k]) <= 1,
        decreases block_size - y,
    {
        let mut row: Vec<u8> = Vec::new();
        let mut x: usize = 0;
        while x < block_size
            invariant
                x <= block_size,
                row@.len() == x,
                forall|k: int| 0 <= k < x ==> (#[trigger] row@[k]) <= 1,
            decreases block_size - x,
        {
            row.push(coin());
            x = x + 1;
        }
        block.push(row);
        y = y + 1;
    }
    block
}

/// Copy a worker's finished block into its quadrant of the shared grid:
/// cells inside the quadrant become the block's, every other cell stays.
/// In a threaded run this happens while holding the shared grid's lock.
pub fn copy_block(
    result: &mut Vec<Vec<u8>>,
    local: &Vec<Vec<u8>>,
    row: usize,
    col: usize,
    block_size: usize,
)
    requires
        block_size > 0,
        row * block_size + block_size <= old(result)@.len(),
        col * block_size + block_size <= old(result)@.len(),
        forall|y: int| 0 <= y < old(result)@.len() ==> (#[trigger] old(result)@[y])@.len()
            == old(result)@.len(),
        grid_wf(rows(*local), block_size as nat, block_size as nat),
    ensures
        final(result)@.len() == old(result)@.len(),
        forall|y: int| 0 <= y < final(result)@.len() ==> (#[trigger] final(result)@[y])@.len()
            == old(result)@.len(),
        forall|y: int, x: int|
            row * block_size <= y < row * block_size + block_size && col * block_size <= x < col
                * block_size + block_size ==> (#[trigger] final(result)@[y]@[x]) == rows(*local)[y
                - row * block_size][x - col * block_size],
        forall|y: int, x: int|
            0 <= y < final(result)@.len() && 0 <= x < final(result)@.len() && !(row * block_size
                <= y < row * block_size + block_size && col * block_size <= x < col * block_size
                + block_size) ==> (#[trigger] final(result)@[y]@[x]) == old(result)@[y]@[x],
{
    let n = result.len();
    proof {
        lemma_rows(*local);
    }
    let base_y = row * block_size;
    let base_x = col * block_size;
    let mut y: usize = 0;
    while y < block_size
        invariant
            y <= block_size,
            n == result@.len(),
            base_y == row * block_size,
            base_x == col * block_size,
            base_y + block_size <= result@.len(),
            base_x + block_size <= result@.len(),
            result@.len() == old(result)@.len(),
            grid_wf(rows(*local), block_size as nat, block_size as nat),
            forall|j: int| 0 <= j < result@.len() ==> (#[trigger] result@[j])@.len()
                == result@.len(),
            forall|j: int, x: int|
                base_y <= j < base_y + y && base_x <= x < base_x + block_size
                    ==> (#[trigger] result@[j]@[x]) == rows(*local)[j - base_y][x - base_x],
            forall|j: int, x: int|
                0 <= j < result@.len() && 0 <= x < result@.len() && !(base_y <= j < base_y + y
                    && base_x <= x < base_x + block_size) ==> (#[trigger] result@[j]@[x])
                    == old(result)@[j]@[x],
        decreases block_size - y,
    {
        let mut x: usize = 0;
        while x < block_size
            invariant
                y < block_size,
                x <= block_size,
                n == result@.len(),
                base_y == row * block_size,
                base_x == col * block_size,
                base_y + block_size <= result@.len(),
                base_x + block_size <= result@.len(),
                result@.len() == old(result)@.len(),
                grid_wf(rows(*local), block_size as nat, block_size as nat),
                forall|j: int| 0 <= j < result@.len() ==> (#[trigger] result@[j])@.len()
                    == result@.len(),
                forall|j: int, k: int|
                    base_y <= j < base_y + y && base_x <= k < base_x + block_size
                        ==> (#[trigger] result@[j]@[k]) == rows(*local)[j - base_y][k - base_x],
                forall|k: int|
                    base_x <= k < base_x + x ==> (#[trigger] result@[base_y + y]@[k]) == rows(
                        *local,
                    )[y as int][k - base_x],
                forall|j: int, k: int|
                    0 <= j < result@.len() && 0 <= k < result@.len() && !(base_y <= j < base_y + y
                        && base_x <= k < base_x + block_size) && !(j == base_y + y && base_x <= k
                        < base_x + x) ==> (#[trigger] result@[j]@[k]) == old(result)@[j]@[k],
            decreases block_size - x,
        {
            proof {
                lemma_rows(*local);
            }
            let v = local[y][x];
            result[base_y + y][base_x + x] = v;
            x = x + 1;
        }
        y = y + 1;
    }
}

} // verus!
