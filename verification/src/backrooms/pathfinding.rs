//! The way the entity chases the player: a breadth-first search over the
//! maze from the player's cell gives every cell its distance to the player,
//! and the entity steps to the neighbouring cell that is nearest.
use vstd::prelude::*;
use crate::backrooms::is_walkable;

verus! {

/// The distance of a cell that the search has not reached.
pub const UNREACHED: u16 = 65535;

/// A cell `(column, row)`.
pub type Cell = (int, int);

pub open spec fn in_grid(c: Cell) -> bool {
    0 <= c.0 < 32 && 0 <= c.1 < 32
}

/// The index of a cell in the maze, row by row.
pub open spec fn cell_index(c: Cell) -> int {
    c.1 * 32 + c.0
}

/// `b` is one of the four cells next to `a`: left, right, above or below.
pub open spec fn adjacent(a: Cell, b: Cell) -> bool {
    b == (a.0 - 1, a.1) || b == (a.0 + 1, a.1) || b == (a.0, a.1 - 1) || b == (a.0, a.1 + 1)
}

/// A step may go from a cell to a neighbour in the maze that may be stood on.
pub open spec fn can_step(map: Seq<u8>, a: Cell, b: Cell) -> bool {
    adjacent(a, b) && in_grid(a) && in_grid(b) && is_walkable(map[cell_index(b)])
}

/// `c` can be reached from `s` in at most `k` steps.
pub open spec fn within(map: Seq<u8>, s: Cell, c: Cell, k: nat) -> bool
    decreases k,
{
    c == s || (k > 0 && exists|n: Cell| #[trigger] can_step(map, n, c) && within(map, s, n, (k - 1) as nat))
}

/// The number of steps on a shortest way from `s` to `c`, if there is one.
pub open spec fn shortest(map: Seq<u8>, s: Cell, c: Cell) -> Option<nat> {
    if exists|k: nat| within(map, s, c, k) {
        Some(choose|k: nat| within(map, s, c, k) && forall|j: nat| j < k ==> !within(map, s, c, j))
    } else {
        None
    }
}

/// The distance from `s` to `c` as the search records it: `UNREACHED` when
/// there is no way.
pub open spec fn distance(map: Seq<u8>, s: Cell, c: Cell) -> int {
    match shortest(map, s, c) {
        Some(k) => k as int,
        None => UNREACHED as int,
    }
}

/// A shortest distance is the least `k` with a way of `k` steps.
proof fn lemma_shortest_is(map: Seq<u8>, s: Cell, c: Cell, d: nat)
    requires
        within(map, s, c, d),
        forall|k: nat| within(map, s, c, k) ==> d <= k,
    ensures
        shortest(map, s, c) == Some(d),
{
    assert(within(map, s, c, d) && forall|j: nat| j < d ==> !within(map, s, c, j));
    let k = choose|k: nat| within(map, s, c, k) && forall|j: nat| j < k ==> !within(map, s, c, j);
    assert(k <= d);
    assert(d <= k);
}

/// The state of the search: the queue of cells reached, in the order
/// reached, their distances, and where each reached cell stands in the queue.
#[verifier::opaque]
pub open spec fn search_ok(
    map: Seq<u8>,
    s: Cell,
    q: Seq<Cell>,
    d: Seq<u16>,
    pos: Map<int, int>,
    tail: int,
) -> bool {
    &&& map.len() == 1024
    &&& d.len() == 1024
    &&& in_grid(s)
    &&& 1 <= q.len()
    &&& 0 <= tail <= q.len()
    &&& q[0] == s
    &&& d[cell_index(s)] == 0
    &&& forall|j: int| 0 <= j < q.len() ==> in_grid(#[trigger] q[j])
    &&& forall|j: int| 0 <= j < q.len() ==> d[cell_index(#[trigger] q[j])] != UNREACHED
    &&& forall|j: int| 0 <= j < q.len() ==> d[cell_index(#[trigger] q[j])] <= j
    &&& forall|i: int, j: int| 0 <= i < j < q.len() ==> #[trigger] q[i] != #[trigger] q[j]
    &&& forall|c: Cell|
        in_grid(c) && #[trigger] d[cell_index(c)] != UNREACHED ==> pos.dom().contains(cell_index(c))
            && 0 <= pos[cell_index(c)] < q.len() && q[pos[cell_index(c)]] == c
    &&& forall|j: int| 0 <= j < q.len() ==> within(map, s, #[trigger] q[j], d[cell_index(q[j])] as nat)
    &&& forall|i: int, j: int| 0 <= i <= j < q.len() ==> d[cell_index(#[trigger] q[i])] <= d[cell_index(#[trigger] q[j])]
    &&& tail < q.len() ==> forall|j: int| 0 <= j < q.len() ==> d[cell_index(#[trigger] q[j])] <= d[cell_index(q[tail])] + 1
}

/// Every neighbour of the cells before `upto` in the queue has been reached,
/// at most one step further.
pub open spec fn expanded(map: Seq<u8>, q: Seq<Cell>, d: Seq<u16>, upto: int) -> bool {
    forall|i: int, n: Cell|
        0 <= i < upto && #[trigger] can_step(map, q[i], n) ==> d[cell_index(n)] != UNREACHED && d[cell_index(n)] <= d[
            cell_index(q[i])] + 1
}

/// No more than 1024 distinct cells can be queued.
proof fn lemma_queue_bound(q: Seq<Cell>, extra: Cell)
    requires
        forall|j: int| 0 <= j < q.len() ==> in_grid(#[trigger] q[j]),
        forall|i: int, j: int| 0 <= i < j < q.len() ==> #[trigger] q[i] != #[trigger] q[j],
        in_grid(extra),
        forall|j: int| 0 <= j < q.len() ==> #[trigger] q[j] != extra,
    ensures
        q.len() < 1024,
{
    let qi = q.push(extra).map_values(|c: Cell| cell_index(c));
    assert forall|i: int, j: int| 0 <= i < qi.len() && 0 <= j < qi.len() && i != j implies qi[i] != qi[j] by {
        let a = q.push(extra)[i];
        let b = q.push(extra)[j];
        if i < j {
            if j < q.len() {
                assert(q[i] != q[j]);
            }
        } else {
            if i < q.len() {
                assert(q[j] != q[i]);
            }
        }
        assert(a != b);
    }
    assert(qi.no_duplicates());
    qi.unique_seq_to_set();
    vstd::set_lib::lemma_int_range(0, 1024);
    assert(qi.to_set().subset_of(vstd::set_lib::set_int_range(0, 1024))) by {
        assert forall|x: int| qi.to_set().contains(x) implies vstd::set_lib::set_int_range(0, 1024).contains(x) by {
            let j = choose|j: int| 0 <= j < qi.len() && qi[j] == x;
            assert(in_grid(q.push(extra)[j]));
        }
    }
    vstd::set_lib::lemma_len_subset(qi.to_set(), vstd::set_lib::set_int_range(0, 1024));
}

/// Reaches the cell `(nx, ny)` from a cell at distance `d` if it is in the
/// maze, may be stood on, and was not reached before.
fn visit(map: &[u8], dist: &mut Vec<u16>, queue: &mut Vec<(u8, u8)>, nx: i32, ny: i32, d: u16)
    requires
        map@.len() == 1024,
        old(dist)@.len() == 1024,
        d < UNREACHED,
    ensures
        if 0 <= nx < 32 && 0 <= ny < 32 && is_walkable(map@[ny * 32 + nx]) && old(dist)@[ny * 32 + nx]
            == UNREACHED {
            &&& final(dist)@ == old(dist)@.update(ny * 32 + nx, (d + 1) as u16)
            &&& final(queue)@ == old(queue)@.push((nx as u8, ny as u8))
        } else {
            &&& final(dist)@ == old(dist)@
            &&& final(queue)@ == old(queue)@
        },
{
    if nx >= 0 && nx < 32 && ny >= 0 && ny < 32 {
        let idx = ny as usize * 32 + nx as usize;
        if map[idx] == 0 || map[idx] == 2 {
            if dist[idx] == UNREACHED {
                dist.set(idx, d + 1);
                queue.push((nx as u8, ny as u8));
            }
        }
    }
}

/// The cells of the queue.
pub open spec fn queue_cells(queue: Seq<(u8, u8)>) -> Seq<Cell> {
    queue.map_values(|t: (u8, u8)| (t.0 as int, t.1 as int))
}

/// The cells before `upto` in the queue are expanded, and so are the first
/// `k` neighbours of `from`.
pub open spec fn partly_expanded(map: Seq<u8>, q: Seq<Cell>, d: Seq<u16>, upto: int, from: Cell, k: int) -> bool {
    &&& expanded(map, q, d, upto)
    &&& forall|i: int|
        0 <= i < k && #[trigger] can_step(map, from, neighbour(from, i)) ==> d[cell_index(neighbour(from, i))]
            != UNREACHED && d[cell_index(neighbour(from, i))] <= d[cell_index(from)] + 1
}

/// Cell indices of distinct cells of the maze differ.
proof fn lemma_cell_index_injective(a: Cell, b: Cell)
    requires
        in_grid(a),
        in_grid(b),
        a != b,
    ensures
        cell_index(a) != cell_index(b),
{
    if a.1 < b.1 {
        assert(a.1 * 32 + a.0 < b.1 * 32 + b.0) by (nonlinear_arith)
            requires
                a.1 < b.1,
                0 <= a.0 < 32,
                0 <= b.0 < 32,
        ;
    } else if a.1 > b.1 {
        assert(a.1 * 32 + a.0 > b.1 * 32 + b.0) by (nonlinear_arith)
            requires
                a.1 > b.1,
                0 <= a.0 < 32,
                0 <= b.0 < 32,
        ;
    }
}

/// Visiting neighbour `k` of the cell at `tail` keeps the search state and
/// expands one more neighbour.
proof fn lemma_visit(
    map: Seq<u8>,
    s: Cell,
    q: Seq<Cell>,
    d: Seq<u16>,
    pos: Map<int, int>,
    tail: int,
    from: Cell,
    k: int,
    q2: Seq<Cell>,
    d2: Seq<u16>,
) -> (pos2: Map<int, int>)
    requires
        search_ok(map, s, q, d, pos, tail),
        partly_expanded(map, q, d, tail, from, k),
        tail < q.len(),
        from == q[tail],
        0 <= k < 4,
        ({
            let n = neighbour(from, k);
            if in_grid(n) && is_walkable(map[cell_index(n)]) && d[cell_index(n)] == UNREACHED {
                d2 == d.update(cell_index(n), (d[cell_index(from)] + 1) as u16) && q2 == q.push(n)
            } else {
                d2 == d && q2 == q
            }
        }),
    ensures
        search_ok(map, s, q2, d2, pos2, tail),
        partly_expanded(map, q2, d2, tail, from, k + 1),
        q2.len() <= 1024,
        tail < q2.len(),
        q2[tail] == from,
        d2[cell_index(from)] == d[cell_index(from)],
{
    reveal(search_ok);
    let n = neighbour(from, k);
    let fresh = in_grid(n) && is_walkable(map[cell_index(n)]) && d[cell_index(n)] == UNREACHED;
    assert(in_grid(from) && d[cell_index(from)] != UNREACHED);
    if !fresh {
        if can_step(map, from, n) {
            let j = pos[cell_index(n)];
            assert(q[j] == n);
            assert(d[cell_index(q[j])] <= d[cell_index(q[tail])] + 1);
        }
        assert forall|i: int| 0 <= i < k + 1 && #[trigger] can_step(map, from, neighbour(from, i)) implies d2[
            cell_index(neighbour(from, i))] != UNREACHED && d2[cell_index(neighbour(from, i))] <= d2[cell_index(from)]
            + 1 by {
            if i == k {
                let j = pos[cell_index(n)];
                assert(q[j] == n);
                assert(d[cell_index(q[j])] <= d[cell_index(q[tail])] + 1);
            }
        }
        lemma_queue_bound(q.drop_last(), q.last());
        return pos;
    }
    assert forall|j: int| 0 <= j < q.len() implies #[trigger] q[j] != n by {
        assert(d[cell_index(q[j])] != UNREACHED);
    }
    lemma_queue_bound(q, n);
    let pos2 = pos.insert(cell_index(n), q.len() as int);
    let kk = q.len() as int;
    let dn = (d[cell_index(from)] + 1) as u16;
    assert(d[cell_index(from)] <= tail);
    assert forall|c: Cell| in_grid(c) && c != n implies cell_index(c) != cell_index(n) by {
        lemma_cell_index_injective(c, n);
    }
    // The new cell is one step past `from`.
    assert(can_step(map, from, n));
    assert(within(map, s, from, d[cell_index(from)] as nat));
    assert(within(map, s, n, dn as nat));
    assert forall|j: int| 0 <= j < q2.len() implies within(map, s, #[trigger] q2[j], d2[cell_index(q2[j])] as nat) by {
        if j < kk {
            assert(q2[j] == q[j]);
            assert(cell_index(q[j]) != cell_index(n));
        }
    }
    assert forall|c: Cell|
        in_grid(c) && #[trigger] d2[cell_index(c)] != UNREACHED implies pos2.dom().contains(cell_index(c)) && 0
            <= pos2[cell_index(c)] < q2.len() && q2[pos2[cell_index(c)]] == c by {
        if c != n {
            assert(d[cell_index(c)] != UNREACHED);
        }
    }
    assert forall|i: int, j: int| 0 <= i < j < q2.len() implies #[trigger] q2[i] != #[trigger] q2[j] by {
        if j == kk {
            assert(q[i] != n);
        }
    }
    assert forall|i: int, j: int| 0 <= i <= j < q2.len() implies d2[cell_index(#[trigger] q2[i])] <= d2[cell_index(
        #[trigger] q2[j],
    )] by {
        if j == kk && i < kk {
            assert(d[cell_index(q[i])] <= d[cell_index(q[tail])] + 1);
        }
    }
    assert forall|j: int| 0 <= j < q2.len() implies d2[cell_index(#[trigger] q2[j])] <= d2[cell_index(q2[tail])] + 1 by {
    }
    assert forall|j: int| 0 <= j < q2.len() implies d2[cell_index(#[trigger] q2[j])] <= j by {
    }
    assert forall|j: int| 0 <= j < q2.len() implies d2[cell_index(#[trigger] q2[j])] != UNREACHED by {
    }
    // Distances already recorded stay.
    assert forall|i: int, m: Cell|
        0 <= i < tail && #[trigger] can_step(map, q2[i], m) implies d2[cell_index(m)] != UNREACHED && d2[cell_index(m)]
            <= d2[cell_index(q2[i])] + 1 by {
        assert(q2[i] == q[i]);
        assert(can_step(map, q[i], m));
        assert(d[cell_index(m)] != UNREACHED);
        assert(in_grid(q[i]));
        assert(d[cell_index(q[i])] != UNREACHED);
    }
    assert forall|i: int| 0 <= i < k + 1 && #[trigger] can_step(map, from, neighbour(from, i)) implies d2[cell_index(
        neighbour(from, i),
    )] != UNREACHED && d2[cell_index(neighbour(from, i))] <= d2[cell_index(from)] + 1 by {
        if i < k {
            assert(d[cell_index(neighbour(from, i))] != UNREACHED);
        }
    }
    assert(cell_index(s) != cell_index(n));
    pos2
}

/// Once all four neighbours of the cell at `tail` are expanded, the cells up
/// to and including it are.
proof fn lemma_expand_done(map: Seq<u8>, s: Cell, q: Seq<Cell>, d: Seq<u16>, pos: Map<int, int>, tail: int, from: Cell)
    requires
        search_ok(map, s, q, d, pos, tail),
        partly_expanded(map, q, d, tail, from, 4),
        tail < q.len(),
        from == q[tail],
    ensures
        search_ok(map, s, q, d, pos, tail + 1),
        expanded(map, q, d, tail + 1),
{
    reveal(search_ok);
    assert forall|i: int, n: Cell|
        0 <= i < tail + 1 && #[trigger] can_step(map, q[i], n) implies d[cell_index(n)] != UNREACHED && d[cell_index(n)]
            <= d[cell_index(q[i])] + 1 by {
        if i == tail {
            if n == neighbour(from, 0) {
            } else if n == neighbour(from, 1) {
            } else if n == neighbour(from, 2) {
            } else {
                assert(n == neighbour(from, 3));
                assert(can_step(map, from, neighbour(from, 3)));
            }
        }
    }
    if tail + 1 < q.len() {
        assert(d[cell_index(q[tail])] <= d[cell_index(q[tail + 1])]);
    }
}

/// Expands the cell at `tail` of the queue: reaches each of its neighbours
/// (left, right, above, below) not reached before.
fn expand(
    map: &[u8],
    dist: &mut Vec<u16>,
    queue: &mut Vec<(u8, u8)>,
    tail: usize,
    Ghost(s): Ghost<Cell>,
    Ghost(pos0): Ghost<Map<int, int>>,
) -> (pos2: Ghost<Map<int, int>>)
    requires
        search_ok(map@, s, queue_cells(old(queue)@), old(dist)@, pos0, tail as int),
        expanded(map@, queue_cells(old(queue)@), old(dist)@, tail as int),
        tail < old(queue)@.len(),
        old(queue)@.len() <= 1024,
    ensures
        search_ok(map@, s, queue_cells(final(queue)@), final(dist)@, pos2@, tail + 1),
        expanded(map@, queue_cells(final(queue)@), final(dist)@, tail + 1),
        final(queue)@.len() <= 1024,
{
    let ghost mut pos = pos0;
    let (cx, cy) = queue[tail];
    let ghost from: Cell = (cx as int, cy as int);
    proof {
        reveal(search_ok);
        assert(from == queue_cells(queue@)[tail as int]);
        assert(in_grid(from));
    }
    let current_dist = dist[cy as usize * 32 + cx as usize];
    proof {
        assert(current_dist == dist@[cell_index(from)]);
        assert(current_dist <= tail);
    }
    let x = cx as i32;
    let y = cy as i32;
    let mut k: usize = 0;
    while k < 4
        invariant
            search_ok(map@, s, queue_cells(queue@), dist@, pos, tail as int),
            partly_expanded(map@, queue_cells(queue@), dist@, tail as int, from, k as int),
            map@.len() == 1024,
            dist@.len() == 1024,
            k <= 4,
            tail < queue@.len(),
            queue@.len() <= 1024,
            queue_cells(queue@)[tail as int] == from,
            dist@[cell_index(from)] == current_dist,
            current_dist < UNREACHED,
            x == from.0,
            y == from.1,
            0 <= x < 32,
            0 <= y < 32,
        decreases 4 - k,
    {
        let (nx, ny) = if k == 0 {
            (x - 1, y)
        } else if k == 1 {
            (x + 1, y)
        } else if k == 2 {
            (x, y - 1)
        } else {
            (x, y + 1)
        };
        let ghost n = neighbour(from, k as int);
        assert(n == (nx as int, ny as int));
        let ghost q = queue_cells(queue@);
        let ghost d = dist@;
        visit(map, dist, queue, nx, ny, current_dist);
        proof {
            let q2 = queue_cells(queue@);
            let fresh = in_grid(n) && is_walkable(map@[cell_index(n)]) && d[cell_index(n)] == UNREACHED;
            assert(q2 =~= (if fresh { q.push(n) } else { q }));
            pos = lemma_visit(map@, s, q, d, pos, tail as int, from, k as int, q2, dist@);
        }
        k = k + 1;
    }
    proof {
        lemma_expand_done(map@, s, queue_cells(queue@), dist@, pos, tail as int, from);
    }
    Ghost(pos)
}

/// The distance of every cell in the maze to the cell `(px, py)`.
fn distances(map: &[u8], px: usize, py: usize) -> (dist: Vec<u16>)
    requires
        map@.len() == 1024,
        px < 32,
        py < 32,
    ensures
        dist@.len() == 1024,
        forall|c: Cell| in_grid(c) ==> #[trigger] dist@[cell_index(c)] == distance(map@, (px as int, py as int), c),
{
    let ghost s: Cell = (px as int, py as int);
    let mut dist: Vec<u16> = vec![UNREACHED; 1024];
    let mut queue: Vec<(u8, u8)> = Vec::new();
    dist.set(py * 32 + px, 0);
    queue.push((px as u8, py as u8));
    let ghost mut pos: Map<int, int> = Map::empty().insert(cell_index(s), 0);
    let mut tail: usize = 0;
    proof {
        let q = queue_cells(queue@);
        assert(q[0] == s);
        assert forall|c: Cell| in_grid(c) && #[trigger] dist@[cell_index(c)] != UNREACHED implies c == s by {
            if c != s {
                if c.1 == s.1 {
                } else if c.1 < s.1 {
                    assert(c.1 * 32 + c.0 < s.1 * 32 + s.0) by (nonlinear_arith)
                        requires c.1 < s.1, 0 <= c.0 < 32, 0 <= s.0 < 32;
                } else {
                    assert(c.1 * 32 + c.0 > s.1 * 32 + s.0) by (nonlinear_arith)
                        requires c.1 > s.1, 0 <= c.0 < 32, 0 <= s.0 < 32;
                }
            }
        }
        reveal(search_ok);
        assert(search_ok(map@, s, q, dist@, pos, 0));
    }
    while tail < queue.len()
        invariant
            search_ok(map@, s, queue_cells(queue@), dist@, pos, tail as int),
            expanded(map@, queue_cells(queue@), dist@, tail as int),
            queue@.len() <= 1024,
        decreases 1024 - tail,
    {
        let Ghost(p2) = expand(map, &mut dist, &mut queue, tail, Ghost(s), Ghost(pos));
        proof {
            pos = p2;
        }
        tail = tail + 1;
    }
    proof {
        reveal(search_ok);
        let q = queue_cells(queue@);
        let d = dist@;
        // Every way is at least as long as the recorded distance.
        assert forall|k: nat, c: Cell| in_grid(c) && within(map@, s, c, k) implies d[cell_index(c)] != UNREACHED
            && d[cell_index(c)] <= k by {
            lemma_search_complete(map@, s, q, d, pos, k, c);
        }
        assert forall|c: Cell| in_grid(c) implies #[trigger] dist@[cell_index(c)] == distance(map@, s, c) by {
            if d[cell_index(c)] != UNREACHED {
                let j = pos[cell_index(c)];
                assert(q[j] == c);
                assert(within(map@, s, q[j], d[cell_index(q[j])] as nat));
                lemma_shortest_is(map@, s, c, d[cell_index(c)] as nat);
            } else {
                assert forall|k: nat| !within(map@, s, c, k) by {
                    if within(map@, s, c, k) {
                        lemma_search_complete(map@, s, q, d, pos, k, c);
                    }
                }
            }
        }
    }
    dist
}

/// When every reached cell has been expanded, every cell that a way of `k`
/// steps reaches has been reached, at distance at most `k`.
proof fn lemma_search_complete(
    map: Seq<u8>,
    s: Cell,
    q: Seq<Cell>,
    d: Seq<u16>,
    pos: Map<int, int>,
    k: nat,
    c: Cell,
)
    requires
        search_ok(map, s, q, d, pos, q.len() as int),
        expanded(map, q, d, q.len() as int),
        in_grid(c),
        within(map, s, c, k),
    ensures
        d[cell_index(c)] != UNREACHED,
        d[cell_index(c)] <= k,
    decreases k,
{
    reveal(search_ok);
    if c != s {
        let n = choose|n: Cell| #[trigger] can_step(map, n, c) && within(map, s, n, (k - 1) as nat);
        lemma_search_complete(map, s, q, d, pos, (k - 1) as nat, n);
        let j = pos[cell_index(n)];
        assert(q[j] == n);
        assert(can_step(map, q[j], c));
    }
}

/// The cell next to `m` that is `i` places along: left, right, above, below.
pub open spec fn neighbour(m: Cell, i: int) -> Cell {
    if i == 0 {
        (m.0 - 1, m.1)
    } else if i == 1 {
        (m.0 + 1, m.1)
    } else if i == 2 {
        (m.0, m.1 - 1)
    } else {
        (m.0, m.1 + 1)
    }
}

/// The distance to `p` of the neighbour `i` of `m`, or `UNREACHED` off the
/// maze.
pub open spec fn neighbour_distance(map: Seq<u8>, m: Cell, p: Cell, i: int) -> int {
    if in_grid(neighbour(m, i)) {
        distance(map, p, neighbour(m, i))
    } else {
        UNREACHED as int
    }
}

/// Among the neighbours of `m` before `i`, the first nearest to `p`, and its
/// distance; `-1` and `UNREACHED` when none is reached.
pub open spec fn nearest_before(map: Seq<u8>, m: Cell, p: Cell, i: int) -> (int, int)
    decreases i,
{
    if i <= 0 {
        (-1, UNREACHED as int)
    } else {
        let (b, e) = nearest_before(map, m, p, i - 1);
        if neighbour_distance(map, m, p, i - 1) < e {
            (i - 1, neighbour_distance(map, m, p, i - 1))
        } else {
            (b, e)
        }
    }
}

/// The cell the entity at `m` heads for to reach the player at `p`: the first
/// neighbour (left, right, above, below) nearest to the player, if the player
/// can be reached from any of them; none when the entity is on the player's
/// cell.
pub open spec fn next_cell(map: Seq<u8>, m: Cell, p: Cell) -> Option<Cell> {
    if m == p {
        None
    } else {
        let (b, e) = nearest_before(map, m, p, 4);
        if b >= 0 {
            Some(neighbour(m, b))
        } else {
            None
        }
    }
}

/// The cell that the entity at `(mx, my)` heads for to reach the player at
/// `(px, py)` (see `next_cell`).
pub fn monster_step(map: &[u8], mx: usize, my: usize, px: usize, py: usize) -> (r: Option<(usize, usize)>)
    requires
        map@.len() == 1024,
        mx < 32,
        my < 32,
        px < 32,
        py < 32,
    ensures
        match next_cell(map@, (mx as int, my as int), (px as int, py as int)) {
            Some(c) => r == Some((c.0 as usize, c.1 as usize)),
            None => r is None,
        },
{
    let ghost m: Cell = (mx as int, my as int);
    let ghost p: Cell = (px as int, py as int);
    if mx == px && my == py {
        return None;
    }
    let dist = distances(map, px, py);
    let mut min_dist: u16 = UNREACHED;
    let mut best_nx = mx;
    let mut best_ny = my;
    let ghost mut best: int = -1;
    let mx_i = mx as i32;
    let my_i = my as i32;
    let mut i: usize = 0;
    while i < 4
        invariant
            i <= 4,
            dist@.len() == 1024,
            forall|c: Cell| in_grid(c) ==> #[trigger] dist@[cell_index(c)] == distance(map@, p, c),
            nearest_before(map@, m, p, i as int) == (best, min_dist as int),
            best >= 0 ==> best < i && neighbour(m, best) == (best_nx as int, best_ny as int),
            mx_i == mx,
            my_i == my,
            mx < 32,
            my < 32,
            m == (mx as int, my as int),
            p == (px as int, py as int),
        decreases 4 - i,
    {
        let (nx, ny) = if i == 0 {
            (mx_i - 1, my_i)
        } else if i == 1 {
            (mx_i + 1, my_i)
        } else if i == 2 {
            (mx_i, my_i - 1)
        } else {
            (mx_i, my_i + 1)
        };
        assert(neighbour(m, i as int) == (nx as int, ny as int));
        if nx >= 0 && nx < 32 && ny >= 0 && ny < 32 {
            let idx = ny as usize * 32 + nx as usize;
            assert(cell_index(neighbour(m, i as int)) == idx as int);
            assert(dist@[cell_index(neighbour(m, i as int))] == distance(map@, p, neighbour(m, i as int)));
            assert(dist@[idx as int] == neighbour_distance(map@, m, p, i as int));
            if dist[idx] < min_dist {
                min_dist = dist[idx];
                best_nx = nx as usize;
                best_ny = ny as usize;
                proof {
                    best = i as int;
                }
            }
        } else {
            assert(neighbour_distance(map@, m, p, i as int) == UNREACHED);
        }
        i = i + 1;
    }
    if min_dist < UNREACHED {
        proof {
            lemma_nearest(map@, m, p, 4);
        }
        Some((best_nx, best_ny))
    } else {
        proof {
            lemma_nearest(map@, m, p, 4);
        }
        None
    }
}

/// A neighbour is chosen exactly when the distance found is below
/// `UNREACHED`; it is then in the maze, and the distance found is its own.
proof fn lemma_nearest(map: Seq<u8>, m: Cell, p: Cell, i: int)
    requires
        0 <= i,
    ensures
        nearest_before(map, m, p, i).1 <= UNREACHED,
        nearest_before(map, m, p, i).0 >= 0 <==> nearest_before(map, m, p, i).1 < UNREACHED,
        nearest_before(map, m, p, i).0 < i,
        nearest_before(map, m, p, i).0 >= 0 ==> in_grid(neighbour(m, nearest_before(map, m, p, i).0))
            && neighbour_distance(map, m, p, nearest_before(map, m, p, i).0) == nearest_before(map, m, p, i).1
            && 0 <= nearest_before(map, m, p, i).0,
    decreases i,
{
    if i > 0 {
        lemma_nearest(map, m, p, i - 1);
        let prev = nearest_before(map, m, p, i - 1);
        let nd = neighbour_distance(map, m, p, i - 1);
        if nd < prev.1 {
            assert(nearest_before(map, m, p, i) == (i - 1, nd));
        } else {
            assert(nearest_before(map, m, p, i) == prev);
        }
    }
}

/// A way of `k` steps gives a shortest way, of at most `k` steps.
proof fn lemma_within_shortest(map: Seq<u8>, s: Cell, c: Cell, k: nat)
    requires
        within(map, s, c, k),
    ensures
        shortest(map, s, c) matches Some(j) && j <= k && within(map, s, c, j) && forall|i: nat|
            i < j ==> !within(map, s, c, i),
    decreases k,
{
    if exists|j: nat| j < k && within(map, s, c, j) {
        let j = choose|j: nat| j < k && within(map, s, c, j);
        lemma_within_shortest(map, s, c, j);
    } else {
        lemma_shortest_is(map, s, c, k);
    }
}

/// The nearest neighbour found is no farther than any neighbour looked at.
proof fn lemma_nearest_is_least(map: Seq<u8>, m: Cell, p: Cell, i: int, j: int)
    requires
        0 <= j < i,
    ensures
        nearest_before(map, m, p, i).1 <= neighbour_distance(map, m, p, j),
    decreases i,
{
    lemma_nearest(map, m, p, i - 1);
    if j < i - 1 {
        lemma_nearest_is_least(map, m, p, i - 1, j);
    }
}

/// Law: the entity's next cell is next to it and in the maze, the player can
/// be reached from it, and, whenever the player can reach the entity's cell,
/// it is exactly one step nearer to the player than that cell.
pub proof fn law_step_gets_closer(map: Seq<u8>, m: Cell, p: Cell)
    requires
        map.len() == 1024,
        in_grid(m),
        in_grid(p),
        next_cell(map, m, p) is Some,
    ensures
        ({
            let c = next_cell(map, m, p)->0;
            &&& adjacent(m, c)
            &&& in_grid(c)
            &&& distance(map, p, c) < UNREACHED
            &&& shortest(map, p, m) is Some ==> distance(map, p, c) == distance(map, p, m) - 1
        }),
{
    lemma_nearest(map, m, p, 4);
    let (b, e) = nearest_before(map, m, p, 4);
    let c = neighbour(m, b);
    if shortest(map, p, m) is Some {
        let k0 = choose|k: nat| within(map, p, m, k);
        lemma_within_shortest(map, p, m, k0);
        let d = shortest(map, p, m)->0;
        assert(m != p);
        assert(d > 0);
        let n = choose|n: Cell| #[trigger] can_step(map, n, m) && within(map, p, n, (d - 1) as nat);
        let i: int = if n == neighbour(m, 0) {
            0
        } else if n == neighbour(m, 1) {
            1
        } else if n == neighbour(m, 2) {
            2
        } else {
            3
        };
        assert(n == neighbour(m, i));
        lemma_within_shortest(map, p, n, (d - 1) as nat);
        lemma_nearest_is_least(map, m, p, 4, i);
        assert(e <= d - 1);
        // The way to the chosen cell, one step longer, reaches `m`.
        let k1 = choose|k: nat| within(map, p, c, k);
        lemma_within_shortest(map, p, c, k1);
        let f = shortest(map, p, c)->0;
        assert(f == e);
        assert(can_step(map, c, m));
        assert(within(map, p, m, f + 1));
        assert(d <= f + 1);
    }
}

} // verus!
