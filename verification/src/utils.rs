//! A small fixed world of numbered cells, used to try routes by hand, and
//! helpers that turn a route over numbered cells into named moves.
//!
//! The world has five rows of five cells, numbered from 1 row by row. Some of
//! its cells are locked: they cannot be entered or left.

use vstd::prelude::*;

verus! {

/// The side of the world.
pub const WORLD_SIZE: u32 = 5;

/// The price of every move in the world.
pub const PRICE: usize = 10;

/// The locked cells of the world.
pub open spec fn locked_cells() -> Seq<u32> {
    seq![2, 3, 4, 5, 7, 8, 13, 15, 16, 20, 21, 22, 25]
}

/// `n` is a cell of the world that is not locked.
pub open spec fn is_open_cell(n: int) -> bool {
    1 <= n <= 25 && !locked_cells().contains(n as u32)
}

/// The neighbours of the cell `n`, in the order in which they are offered:
/// above and below first, except that the top row starts below and the rows
/// at the top and at the bottom look left before right.
pub open spec fn neighbour_order(n: int) -> Seq<int> {
    if n <= 5 {
        if n == 1 {
            seq![n + 5, n + 1]
        } else if n == 5 {
            seq![n + 5, n - 1]
        } else {
            seq![n + 5, n - 1, n + 1]
        }
    } else if n >= 21 {
        if n == 21 {
            seq![n - 5, n + 1]
        } else if n == 25 {
            seq![n - 5, n - 1]
        } else {
            seq![n - 5, n - 1, n + 1]
        }
    } else {
        if n % 5 == 1 {
            seq![n - 5, n + 5, n + 1]
        } else if n % 5 == 0 {
            seq![n - 5, n + 5, n - 1]
        } else {
            seq![n - 5, n + 5, n + 1, n - 1]
        }
    }
}

/// Those of `cells` that are open, each with the price of the move, in the
/// same order.
pub open spec fn open_among(cells: Seq<int>) -> Seq<(u32, usize)>
    decreases cells.len(),
{
    if cells.len() == 0 {
        seq![]
    } else if is_open_cell(cells.last()) {
        open_among(cells.drop_last()).push((cells.last() as u32, PRICE))
    } else {
        open_among(cells.drop_last())
    }
}

/// The cells that can be entered from `n`, each with the price of the move:
/// the open neighbours of an open cell, and nothing for any other number.
pub open spec fn cell_successors(n: u32) -> Seq<(u32, usize)> {
    if is_open_cell(n as int) {
        open_among(neighbour_order(n as int))
    } else {
        seq![]
    }
}

/// Says whether `n` is a locked cell.
fn is_locked(n: u32) -> (b: bool)
    ensures
        b == locked_cells().contains(n),
{
    let b = n == 2 || n == 3 || n == 4 || n == 5 || n == 7 || n == 8 || n == 13 || n == 15 || n
        == 16 || n == 20 || n == 21 || n == 22 || n == 25;
    proof {
        let l = locked_cells();
        if b {
            let i: int = if n == 2 {
                0
            } else if n == 3 {
                1
            } else if n == 4 {
                2
            } else if n == 5 {
                3
            } else if n == 7 {
                4
            } else if n == 8 {
                5
            } else if n == 13 {
                6
            } else if n == 15 {
                7
            } else if n == 16 {
                8
            } else if n == 20 {
                9
            } else if n == 21 {
                10
            } else if n == 22 {
                11
            } else {
                12
            };
            assert(l[i] == n);
        }
    }
    b
}

/// The neighbours of the open cell `n`, in the order of [`neighbour_order`].
fn neighbours(n: u32) -> (cells: Vec<u32>)
    requires
        1 <= n <= 25,
    ensures
        cells@.len() == neighbour_order(n as int).len(),
        forall|i: int| 0 <= i < cells@.len() ==> cells@[i] == #[trigger] neighbour_order(n as int)[i],
{
    let mut cells: Vec<u32> = Vec::new();
    if n <= WORLD_SIZE {
        cells.push(n + WORLD_SIZE);
        if n != WORLD_SIZE {
            if n != 1 {
                cells.push(n - 1);
            }
            cells.push(n + 1);
        } else {
            cells.push(n - 1);
        }
    } else if n >= 21 {
        cells.push(n - WORLD_SIZE);
        if n == 21 {
            cells.push(n + 1);
        } else if n == 25 {
            cells.push(n - 1);
        } else {
            cells.push(n - 1);
            cells.push(n + 1);
        }
    } else {
        cells.push(n - WORLD_SIZE);
        cells.push(n + WORLD_SIZE);
        if n % WORLD_SIZE == 1 {
            cells.push(n + 1);
        } else if n % WORLD_SIZE == 0 {
            cells.push(n - 1);
        } else {
            cells.push(n + 1);
            cells.push(n - 1);
        }
    }
    cells
}

/// The cells that can be entered from `n` in the fixed world, each with the
/// price of the move.
pub fn successors(n: &u32) -> (result: Vec<(u32, usize)>)
    ensures
        result@ == cell_successors(*n),
{
    let n: u32 = *n;
    let mut result: Vec<(u32, usize)> = Vec::new();
    if n == 0 || n > WORLD_SIZE * WORLD_SIZE || is_locked(n) {
        return result;
    }
    let around = neighbours(n);
    let ghost order = neighbour_order(n as int);
    let mut i: usize = 0;
    assert(order.take(0) =~= Seq::<int>::empty());
    while i < around.len()
        invariant
            i <= around.len(),
            1 <= n <= 25,
            order == neighbour_order(n as int),
            around@.len() == order.len(),
            forall|k: int| 0 <= k < around@.len() ==> around@[k] == #[trigger] order[k],
            result@ == open_among(order.take(i as int)),
        decreases around.len() - i,
    {
        let cell: u32 = around[i];
        proof {
            assert(order.take(i + 1).drop_last() =~= order.take(i as int));
            assert(order.take(i + 1).last() == order[i as int]);
            assert(1 <= order[i as int] <= 30);
        }
        if cell <= WORLD_SIZE * WORLD_SIZE && !is_locked(cell) {
            result.push((cell, PRICE));
        }
        i = i + 1;
    }
    assert(order.take(around.len() as int) =~= order);
    result
}

/// Every cell offered by [`successors`] is an open cell at the price of one move.
pub proof fn lemma_successors_are_open(n: u32, i: int)
    requires
        0 <= i < cell_successors(n).len(),
    ensures
        is_open_cell(cell_successors(n)[i].0 as int),
        cell_successors(n)[i].1 == PRICE,
        is_open_cell(n as int),
{
    lemma_open_among(neighbour_order(n as int), i);
}

proof fn lemma_open_among(cells: Seq<int>, i: int)
    requires
        0 <= i < open_among(cells).len(),
    ensures
        is_open_cell(open_among(cells)[i].0 as int),
        open_among(cells)[i].1 == PRICE,
    decreases cells.len(),
{
    if cells.len() > 0 {
        let rest = open_among(cells.drop_last());
        if i < rest.len() {
            lemma_open_among(cells.drop_last(), i);
        }
    }
}

/// The least multiple of `base` that is not below `n`.
pub open spec fn least_multiple_from(n: int, base: int) -> int {
    ((n + base - 1) / base) * base
}

/// The least multiple of `base` that is not below `n`.
pub fn closest_multiple(n: u32, base: u32) -> (m: u32)
    requires
        base > 0,
        least_multiple_from(n as int, base as int) <= u32::MAX,
    ensures
        m == least_multiple_from(n as int, base as int),
        m % base == 0,
        n <= m < n + base,
{
    proof {
        lemma_least_multiple(n as int, base as int);
        let up = (n + base - 1) / (base as int);
        assert(up <= u32::MAX) by (nonlinear_arith)
            requires
                up * base <= u32::MAX,
                base >= 1,
                up >= 0,
        ;
    }
    let quotient: u32 = if n % base == 0 {
        n / base
    } else {
        n / base + 1
    };
    quotient * base
}

/// What [`least_multiple_from`] gives is a multiple of `base`, is not below
/// `n` and is the least such.
pub proof fn lemma_least_multiple(n: int, base: int)
    requires
        n >= 0,
        base > 0,
    ensures
        least_multiple_from(n, base) % base == 0,
        n <= least_multiple_from(n, base) < n + base,
        (n + base - 1) / base == if n % base == 0 {
            n / base
        } else {
            n / base + 1
        },
{
    let q = n / base;
    let r = n % base;
    assert(n == q * base + r && 0 <= r < base) by (nonlinear_arith)
        requires
            q == n / base,
            r == n % base,
            base > 0,
    ;
    let up = (n + base - 1) / base;
    if r == 0 {
        assert(up == q) by (nonlinear_arith)
            requires
                up == (q * base + base - 1) / base,
                base > 0,
        ;
    } else {
        assert(up == q + 1) by (nonlinear_arith)
            requires
                up == (q * base + r + base - 1) / base,
                0 < r < base,
        ;
    }
    assert((up * base) % base == 0) by (nonlinear_arith)
        requires
            base > 0,
    ;
    assert(n <= up * base < n + base) by (nonlinear_arith)
        requires
            n == q * base + r,
            0 <= r < base,
            r == 0 ==> up == q,
            r != 0 ==> up == q + 1,
    ;
}

/// The name of the move from the cell `from` to the cell `to` in a world of
/// rows of `map_size` cells: along the row when both lie in the same row,
/// else along the column.
pub open spec fn move_name(from: u32, to: u32, map_size: u32) -> Seq<char> {
    let same_row = least_multiple_from(to as int, map_size as int) == least_multiple_from(
        from as int,
        map_size as int,
    );
    if to > from {
        if same_row {
            "Right"@
        } else {
            "Down"@
        }
    } else {
        if same_row {
            "Left"@
        } else {
            "Up"@
        }
    }
}

/// The names of the moves of the route `cells`, one for each pair of
/// consecutive cells.
pub fn convert_to_directions(cells: Vec<u32>, map_size: u32) -> (commands: Vec<String>)
    requires
        map_size > 0,
        forall|i: int|
            0 <= i < cells@.len() ==> least_multiple_from(
                #[trigger] cells@[i] as int,
                map_size as int,
            ) <= u32::MAX,
    ensures
        commands@.len() == if cells@.len() == 0 {
            0
        } else {
            cells@.len() - 1
        },
        forall|i: int|
            0 <= i < commands@.len() ==> (#[trigger] commands@[i])@ == move_name(
                cells@[i],
                cells@[i + 1],
                map_size,
            ),
{
    let mut commands: Vec<String> = Vec::new();
    let mut i: usize = 1;
    while i < cells.len()
        invariant
            1 <= i,
            i <= cells.len() || (cells.len() == 0 && i == 1),
            map_size > 0,
            forall|k: int|
                0 <= k < cells@.len() ==> least_multiple_from(
                    #[trigger] cells@[k] as int,
                    map_size as int,
                ) <= u32::MAX,
            commands@.len() == i - 1,
            forall|k: int|
                0 <= k < commands@.len() ==> (#[trigger] commands@[k])@ == move_name(
                    cells@[k],
                    cells@[k + 1],
                    map_size,
                ),
        decreases cells.len() - i,
    {
        let same_row: bool = closest_multiple(cells[i], map_size) == closest_multiple(
            cells[i - 1],
            map_size,
        );
        let name: &str = if cells[i] > cells[i - 1] {
            if same_row {
                "Right"
            } else {
                "Down"
            }
        } else {
            if same_row {
                "Left"
            } else {
                "Up"
            }
        };
        commands.push(name.to_owned());
        i = i + 1;
    }
    commands
}

/// The sum of the terms of `terms`.
pub open spec fn sum_of(terms: Seq<u64>) -> nat
    decreases terms.len(),
{
    if terms.len() == 0 {
        0
    } else {
        sum_of(terms.drop_last()) + terms.last() as nat
    }
}

/// `terms` holds, for each item of `v`, what `transformer` may return for it,
/// and nothing for an item that is absent.
pub open spec fn terms_of<U, F: Fn(U) -> u64>(v: Seq<Option<U>>, transformer: F, terms: Seq<u64>) -> bool {
    &&& terms.len() == v.len()
    &&& forall|i: int|
        0 <= i < v.len() ==> match #[trigger] v[i] {
            Some(u) => transformer.ensures((u,), terms[i]),
            None => terms[i] == 0,
        }
}

/// The sum of what `transformer` returns for the items of `v` that are
/// present.
pub fn fold_sum_option_vec<U: Copy, F: Fn(U) -> u64>(v: &Vec<Option<U>>, transformer: F) -> (total:
    u128)
    requires
        forall|u: U| transformer.requires((u,)),
    ensures
        exists|terms: Seq<u64>| terms_of(v@, transformer, terms) && total == sum_of(terms),
{
    let mut total: u128 = 0;
    let ghost mut terms: Seq<u64> = Seq::empty();
    let mut i: usize = 0;
    while i < v.len()
        invariant
            i <= v.len(),
            forall|u: U| transformer.requires((u,)),
            terms_of(v@.take(i as int), transformer, terms),
            total == sum_of(terms),
            total <= i * 0xffff_ffff_ffff_ffff,
        decreases v.len() - i,
    {
        let term: u64 = match v[i] {
            Some(u) => transformer(u),
            None => 0,
        };
        proof {
            let next = terms.push(term);
            assert(next.drop_last() =~= terms);
            assert forall|k: int| 0 <= k < i + 1 implies match #[trigger] v@.take(i + 1)[k] {
                Some(u) => transformer.ensures((u,), next[k]),
                None => next[k] == 0,
            } by {
                if k < i {
                    assert(v@.take(i as int)[k] == v@.take(i + 1)[k]);
                }
            }
            terms = next;
            assert((i + 1) * 0xffff_ffff_ffff_ffff == i * 0xffff_ffff_ffff_ffff
                + 0xffff_ffff_ffff_ffff) by (nonlinear_arith);
            assert((i + 1) * 0xffff_ffff_ffff_ffff <= 0xffff_ffff_ffff_ffff
                * 0xffff_ffff_ffff_ffff) by (nonlinear_arith)
                requires
                    i + 1 <= 0xffff_ffff_ffff_ffff,
            ;
        }
        total = total + term as u128;
        i = i + 1;
    }
    assert(v@.take(v.len() as int) =~= v@);
    total
}

} // verus!
