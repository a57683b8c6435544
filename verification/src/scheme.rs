use vstd::prelude::*;

verus! {

/// `next` is one time step of `prev` under the cell rule `update`.
///
/// The rule is handed the cell's value and the value of its left neighbour.
/// The two ends do not go through the rule: the first cell takes the value
/// of the last cell and the last cell takes the value of the one before it.
pub open spec fn is_step<T, F: Fn(T, T) -> T>(prev: Seq<T>, next: Seq<T>, update: F) -> bool {
    &&& next.len() == prev.len()
    &&& next[0] == prev[prev.len() - 1]
    &&& next[next.len() - 1] == prev[prev.len() - 2]
    &&& forall|x: int|
        1 <= x < prev.len() - 1 ==> call_ensures(update, (#[trigger] prev[x], prev[x - 1]), next[x])
}

/// `update` can be applied to any pair of values.
pub open spec fn total_rule<T, F: Fn(T, T) -> T>(update: F) -> bool {
    forall|a: T, b: T| call_requires(update, (a, b))
}

/// Advances the grid `prev` by one time step of the explicit upwind scheme.
///
/// Every interior cell `x` becomes `update(prev[x], prev[x - 1])`; the first
/// cell takes the last cell's value and the last cell takes the value of the
/// cell before it. The grid needs at least two cells for the ends to exist.
pub fn advance<T: Copy, F: Fn(T, T) -> T>(prev: &Vec<T>, update: &F) -> (next: Vec<T>)
    requires
        prev@.len() >= 2,
        total_rule(*update),
    ensures
        is_step(prev@, next@, *update),
        next@.len() == prev@.len(),
        next@[0] == prev@[prev@.len() - 1],
        next@[prev@.len() - 1] == prev@[prev@.len() - 2],
        forall|x: int|
            1 <= x < prev@.len() - 1 ==> call_ensures(*update, (#[trigger] prev@[x], prev@[x - 1]), next@[x]),
{
    let n: usize = prev.len();
    let mut next: Vec<T> = Vec::new();
    next.push(prev[n - 1]);
    let mut x: usize = 1;
    while x < n - 1
        invariant
            n == prev@.len(),
            n >= 2,
            1 <= x <= n - 1,
            total_rule(*update),
            next@.len() == x,
            next@[0] == prev@[n - 1],
            forall|k: int|
                1 <= k < x ==> call_ensures(*update, (#[trigger] prev@[k], prev@[k - 1]), next@[k]),
        decreases n - x,
    {
        let v = update(prev[x], prev[x - 1]);
        next.push(v);
        x = x + 1;
    }
    next.push(prev[n - 2]);
    next
}

/// `rows` is a run of the scheme from `initial`: its first row is
/// `initial` and every further row is one step of the row before it.
pub open spec fn is_run<T, F: Fn(T, T) -> T>(initial: Seq<T>, rows: Seq<Seq<T>>, update: F) -> bool {
    &&& rows.len() >= 1
    &&& rows[0] == initial
    &&& forall|t: int| 0 <= t < rows.len() - 1 ==> is_step(#[trigger] rows[t], rows[t + 1], update)
}

/// The grids of a `Vec` of rows, each taken by its view.
pub open spec fn rows_view<T>(rows: Seq<Vec<T>>) -> Seq<Seq<T>> {
    rows.map_values(|r: Vec<T>| r@)
}

/// A copy of `grid`, cell by cell.
fn copy_grid<T: Copy>(grid: &Vec<T>) -> (copy: Vec<T>)
    ensures
        copy@ == grid@,
{
    let mut copy: Vec<T> = Vec::new();
    let mut i: usize = 0;
    while i < grid.len()
        invariant
            i <= grid@.len(),
            copy@ == grid@.subrange(0, i as int),
        decreases grid@.len() - i,
    {
        copy.push(grid[i]);
        i = i + 1;
    }
    copy
}

/// Runs the scheme for `time_points` time points: the returned history holds
/// `time_points` grids, the first of them `initial`, each further one the
/// step of the grid before it. Every grid of the history has the length of
/// `initial`. A run of one time point takes no step and accepts a grid of
/// any length; a longer run needs the two end cells of a step.
pub fn simulate<T: Copy, F: Fn(T, T) -> T>(initial: &Vec<T>, time_points: usize, update: &F) -> (rows:
    Vec<Vec<T>>)
    requires
        time_points >= 1,
        time_points >= 2 ==> initial@.len() >= 2,
        total_rule(*update),
    ensures
        rows@.len() == time_points,
        is_run(initial@, rows_view(rows@), *update),
        forall|t: int| 0 <= t < time_points ==> (#[trigger] rows@[t])@.len() == initial@.len(),
        rows@[0]@ == initial@,
        forall|t: int|
            0 <= t < time_points - 1 ==> (#[trigger] rows@[t + 1])@[0] == rows@[t]@[initial@.len() - 1]
                && rows@[t + 1]@[initial@.len() - 1] == rows@[t]@[initial@.len() - 2],
        forall|t: int, x: int|
            0 <= t < time_points - 1 && 1 <= x < initial@.len() - 1 ==> call_ensures(
                *update,
                (rows@[t]@[x], rows@[t]@[x - 1]),
                #[trigger] rows@[t + 1]@[x],
            ),
{
    let mut rows: Vec<Vec<T>> = Vec::new();
    rows.push(copy_grid(initial));
    let mut t: usize = 1;
    while t < time_points
        invariant
            1 <= t <= time_points,
            time_points >= 2 ==> initial@.len() >= 2,
            total_rule(*update),
            rows@.len() == t,
            is_run(initial@, rows_view(rows@), *update),
            forall|k: int| 0 <= k < t ==> (#[trigger] rows@[k])@.len() == initial@.len(),
        decreases time_points - t,
    {
        let next = advance(&rows[t - 1], update);
        let ghost before = rows@;
        rows.push(next);
        assert(rows_view(rows@) =~= rows_view(before).push(next@));
        t = t + 1;
    }
    proof {
        let v = rows_view(rows@);
        assert(v[0] == rows@[0]@);
        assert forall|t: int| 0 <= t < time_points - 1 implies (#[trigger] rows@[t + 1])@[0]
            == rows@[t]@[initial@.len() - 1] && rows@[t + 1]@[initial@.len() - 1]
            == rows@[t]@[initial@.len() - 2] by {
            assert(v[t] == rows@[t]@ && v[t + 1] == rows@[t + 1]@);
            assert(is_step(v[t], v[t + 1], *update));
            lemma_step_ends(v[t], v[t + 1], *update);
        }
        assert forall|t: int, x: int|
            0 <= t < time_points - 1 && 1 <= x < initial@.len() - 1 implies call_ensures(
            *update,
            (rows@[t]@[x], rows@[t]@[x - 1]),
            #[trigger] rows@[t + 1]@[x],
        ) by {
            assert(v[t] == rows@[t]@ && v[t + 1] == rows@[t + 1]@);
            assert(is_step(v[t], v[t + 1], *update));
            lemma_step_cells(v[t], v[t + 1], *update, x);
        }
    }
    rows
}

/// Whatever the rule, a step keeps the grid's length, gives the first cell
/// the value of the last cell and the last cell the value of the one before
/// it: the ends never go through the rule.
pub proof fn lemma_step_ends<T, F: Fn(T, T) -> T>(prev: Seq<T>, next: Seq<T>, update: F)
    requires
        prev.len() >= 2,
        is_step(prev, next, update),
    ensures
        next.len() == prev.len(),
        next[0] == prev[prev.len() - 1],
        next[prev.len() - 1] == prev[prev.len() - 2],
{
}

/// Whatever the rule, a step sets each interior cell to a result of the rule
/// on that cell's old value and its left neighbour's old value.
pub proof fn lemma_step_cells<T, F: Fn(T, T) -> T>(prev: Seq<T>, next: Seq<T>, update: F, x: int)
    requires
        prev.len() >= 2,
        is_step(prev, next, update),
        1 <= x < prev.len() - 1,
    ensures
        call_ensures(update, (prev[x], prev[x - 1]), next[x]),
{
}

/// The grids of a run all have the initial length, the run starts at the
/// initial grid, and each grid's ends are the previous grid's last cell and
/// the cell before it.
pub proof fn lemma_run_rows<T, F: Fn(T, T) -> T>(initial: Seq<T>, rows: Seq<Seq<T>>, update: F, t: int)
    requires
        initial.len() >= 2,
        is_run(initial, rows, update),
        0 <= t < rows.len() - 1,
    ensures
        rows[0] == initial,
        rows[t].len() == initial.len(),
        rows[t + 1].len() == initial.len(),
        rows[t + 1][0] == rows[t][initial.len() - 1],
        rows[t + 1][initial.len() - 1] == rows[t][initial.len() - 2],
    decreases t,
{
    if t > 0 {
        lemma_run_rows(initial, rows, update, t - 1);
    }
    assert(is_step(rows[t], rows[t + 1], update));
    lemma_step_ends(rows[t], rows[t + 1], update);
}

/// `update` gives at most one result for each pair of values.
pub open spec fn deterministic_rule<T, F: Fn(T, T) -> T>(update: F) -> bool {
    forall|a: T, b: T, r1: T, r2: T|
        call_ensures(update, (a, b), r1) && call_ensures(update, (a, b), r2) ==> r1 == r2
}

/// Every cell of `grid` holds `c`.
pub open spec fn uniform<T>(grid: Seq<T>, c: T) -> bool {
    forall|x: int| 0 <= x < grid.len() ==> #[trigger] grid[x] == c
}

/// `update` leaves a flat state at `c` where it is: applied to a cell at `c`
/// whose left neighbour is at `c`, it gives `c`.
pub open spec fn keeps_level<T, F: Fn(T, T) -> T>(update: F, c: T) -> bool {
    forall|r: T| call_ensures(update, (c, c), r) ==> r == c
}

/// `update` hands on the left neighbour's value: pure transport by one cell.
pub open spec fn takes_left<T, F: Fn(T, T) -> T>(update: F) -> bool {
    forall|a: T, b: T, r: T| call_ensures(update, (a, b), r) ==> r == b
}

/// A flat state is steady: where the rule keeps the level `c`, one step of
/// a grid that is `c` everywhere is again `c` everywhere.
pub proof fn lemma_uniform_step<T, F: Fn(T, T) -> T>(prev: Seq<T>, next: Seq<T>, update: F, c: T)
    requires
        prev.len() >= 2,
        uniform(prev, c),
        keeps_level(update, c),
        is_step(prev, next, update),
    ensures
        uniform(next, c),
{
    assert forall|x: int| 0 <= x < next.len() implies #[trigger] next[x] == c by {
        if 1 <= x < prev.len() - 1 {
            assert(prev[x] == c);
            assert(prev[x - 1] == c);
        } else if x == 0 {
            assert(prev[prev.len() - 1] == c);
        } else {
            assert(prev[prev.len() - 2] == c);
        }
    }
}

/// A flat state stays flat for the whole run: where the rule keeps the level
/// `c` and the run starts `c` everywhere, every grid of the run is `c`
/// everywhere.
pub proof fn lemma_uniform_run<T, F: Fn(T, T) -> T>(
    initial: Seq<T>,
    rows: Seq<Seq<T>>,
    update: F,
    c: T,
)
    requires
        initial.len() >= 2,
        uniform(initial, c),
        keeps_level(update, c),
        is_run(initial, rows, update),
    ensures
        forall|t: int| 0 <= t < rows.len() ==> uniform(#[trigger] rows[t], c),
{
    assert forall|t: int| 0 <= t < rows.len() implies uniform(#[trigger] rows[t], c) by {
        lemma_uniform_prefix(initial, rows, update, c, t);
    }
}

proof fn lemma_uniform_prefix<T, F: Fn(T, T) -> T>(
    initial: Seq<T>,
    rows: Seq<Seq<T>>,
    update: F,
    c: T,
    t: int,
)
    requires
        initial.len() >= 2,
        uniform(initial, c),
        keeps_level(update, c),
        is_run(initial, rows, update),
        0 <= t < rows.len(),
    ensures
        uniform(rows[t], c),
        rows[t].len() == initial.len(),
    decreases t,
{
    if t > 0 {
        lemma_uniform_prefix(initial, rows, update, c, t - 1);
        assert(is_step(rows[t - 1], rows[t], update));
        lemma_uniform_step(rows[t - 1], rows[t], update, c);
    }
}

/// Two runs from one initial grid under a rule with one result per input
/// agree on every time point that both reach: a shorter run is a prefix of
/// a longer one.
pub proof fn lemma_runs_agree<T, F: Fn(T, T) -> T>(
    initial: Seq<T>,
    a: Seq<Seq<T>>,
    b: Seq<Seq<T>>,
    update: F,
)
    requires
        initial.len() >= 2,
        deterministic_rule(update),
        is_run(initial, a, update),
        is_run(initial, b, update),
    ensures
        forall|t: int| 0 <= t < a.len() && t < b.len() ==> #[trigger] a[t] == b[t],
{
    assert forall|t: int| 0 <= t < a.len() && t < b.len() implies #[trigger] a[t] == b[t] by {
        lemma_runs_agree_at(initial, a, b, update, t);
    }
}

proof fn lemma_runs_agree_at<T, F: Fn(T, T) -> T>(
    initial: Seq<T>,
    a: Seq<Seq<T>>,
    b: Seq<Seq<T>>,
    update: F,
    t: int,
)
    requires
        initial.len() >= 2,
        deterministic_rule(update),
        is_run(initial, a, update),
        is_run(initial, b, update),
        0 <= t < a.len(),
        t < b.len(),
    ensures
        a[t] == b[t],
    decreases t,
{
    if t > 0 {
        lemma_runs_agree_at(initial, a, b, update, t - 1);
        let p = a[t - 1];
        assert(is_step(a[t - 1], a[t], update));
        assert(is_step(b[t - 1], b[t], update));
        assert forall|x: int| 0 <= x < a[t].len() implies a[t][x] == b[t][x] by {
            if 1 <= x < p.len() - 1 {
                assert(call_ensures(update, (p[x], p[x - 1]), a[t][x]));
                assert(call_ensures(update, (p[x], p[x - 1]), b[t][x]));
            }
        }
        assert(a[t] =~= b[t]);
    }
}

/// Under pure transport a step is a rotation: every cell takes the value of
/// its left neighbour, the first cell that of the last.
pub proof fn lemma_transport_step<T, F: Fn(T, T) -> T>(prev: Seq<T>, next: Seq<T>, update: F)
    requires
        prev.len() >= 2,
        takes_left(update),
        is_step(prev, next, update),
    ensures
        forall|x: int| 0 <= x < next.len() ==> #[trigger] next[x] == prev[(x - 1) % (prev.len() as int)],
{
    let n: int = prev.len() as int;
    assert forall|x: int| 0 <= x < next.len() implies #[trigger] next[x] == prev[(x - 1) % n] by {
        if x == 0 {
            vstd::arithmetic::div_mod::lemma_mod_add_multiples_vanish(-1, n);
            vstd::arithmetic::div_mod::lemma_small_mod((n - 1) as nat, n as nat);
            assert((x - 1) % n == n - 1);
        } else {
            vstd::arithmetic::div_mod::lemma_small_mod((x - 1) as nat, n as nat);
            assert((x - 1) % n == x - 1);
            if x < n - 1 {
                assert(call_ensures(update, (prev[x], prev[x - 1]), next[x]));
            }
        }
    }
}

/// Under pure transport the run shifts the initial grid one cell to the
/// right at each time point, cyclically: the grid at time `t` holds at cell
/// `x` the initial value of cell `(x - t) mod n`.
pub proof fn lemma_transport_run<T, F: Fn(T, T) -> T>(initial: Seq<T>, rows: Seq<Seq<T>>, update: F)
    requires
        initial.len() >= 2,
        takes_left(update),
        is_run(initial, rows, update),
    ensures
        forall|t: int, x: int|
            0 <= t < rows.len() && 0 <= x < initial.len() ==> #[trigger] rows[t][x] == initial[(x - t)
                % (initial.len() as int)],
        forall|t: int| 0 <= t < rows.len() ==> (#[trigger] rows[t]).len() == initial.len(),
{
    assert forall|t: int, x: int|
        0 <= t < rows.len() && 0 <= x < initial.len() implies #[trigger] rows[t][x] == initial[(x - t)
        % (initial.len() as int)] by {
        lemma_transport_at(initial, rows, update, t);
    }
    assert forall|t: int| 0 <= t < rows.len() implies (#[trigger] rows[t]).len() == initial.len() by {
        lemma_transport_at(initial, rows, update, t);
    }
}

proof fn lemma_transport_at<T, F: Fn(T, T) -> T>(
    initial: Seq<T>,
    rows: Seq<Seq<T>>,
    update: F,
    t: int,
)
    requires
        initial.len() >= 2,
        takes_left(update),
        is_run(initial, rows, update),
        0 <= t < rows.len(),
    ensures
        rows[t].len() == initial.len(),
        forall|x: int|
            0 <= x < initial.len() ==> #[trigger] rows[t][x] == initial[(x - t) % (initial.len() as int)],
    decreases t,
{
    let n: int = initial.len() as int;
    if t == 0 {
        assert forall|x: int| 0 <= x < n implies #[trigger] rows[t][x] == initial[(x - t) % n] by {
            vstd::arithmetic::div_mod::lemma_small_mod(x as nat, n as nat);
        }
    } else {
        lemma_transport_at(initial, rows, update, t - 1);
        assert(is_step(rows[t - 1], rows[t], update));
        lemma_transport_step(rows[t - 1], rows[t], update);
        assert forall|x: int| 0 <= x < n implies #[trigger] rows[t][x] == initial[(x - t) % n] by {
            let y: int = (x - 1) % n;
            assert(rows[t][x] == rows[t - 1][y]);
            vstd::arithmetic::div_mod::lemma_mod_bound(x - 1, n);
            assert(0 <= y < n);
            assert(rows[t - 1][y] == initial[(y - (t - 1)) % n]);
            lemma_mod_shift(x, t, n);
        }
    }
}

proof fn lemma_mod_shift(x: int, t: int, n: int)
    requires
        n > 0,
    ensures
        (((x - 1) % n) - (t - 1)) % n == (x - t) % n,
{
    vstd::arithmetic::div_mod::lemma_add_mod_noop(x - 1, 1 - t, n);
    vstd::arithmetic::div_mod::lemma_mod_twice(x - 1, n);
    vstd::arithmetic::div_mod::lemma_add_mod_noop((x - 1) % n, 1 - t, n);
}

/// Under pure transport a run comes back to where it started after as many
/// time points as the grid has cells.
pub proof fn lemma_transport_period<T, F: Fn(T, T) -> T>(initial: Seq<T>, rows: Seq<Seq<T>>, update: F)
    requires
        initial.len() >= 2,
        takes_left(update),
        is_run(initial, rows, update),
    ensures
        forall|t: int| 0 <= t && t + initial.len() < rows.len() ==> #[trigger] rows[t + initial.len()] == rows[t],
{
    let n: int = initial.len() as int;
    assert forall|t: int| 0 <= t && t + n < rows.len() implies #[trigger] rows[t + n] == rows[t] by {
        lemma_transport_at(initial, rows, update, t);
        lemma_transport_at(initial, rows, update, t + n);
        assert forall|x: int| 0 <= x < n implies rows[t + n][x] == rows[t][x] by {
            let d: int = x - t;
            assert(rows[t + n][x] == initial[(x - (t + n)) % n]);
            assert(x - (t + n) == -n + d);
            vstd::arithmetic::div_mod::lemma_mod_sub_multiples_vanish(d, n);
        }
        assert(rows[t + n] =~= rows[t]);
    }
}

} // verus!
