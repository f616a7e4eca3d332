//! The generator: a randomised backtracking walk that carves a spanning tree
//! of passages into the maze and breaks one exit through its top edge.

use crate::carving::{
    above, lemma_carve, lemma_closed_is_whole, lemma_one_more_passage, lemma_same_passages,
    lemma_tile_count, lemma_with_open, lowered, with_open,
};
use crate::grid::{Direction, TilePos, MAZE_SIZE};
use crate::params::{
    lemma_center_in_maze, lemma_neighbor_in_maze, neighbors, sides, DirectionalBias, MazeParams,
};
use crate::passages::{
    canvas, lemma_linked_monotone, lemma_linked_step, lemma_reaches_self, linked, passage,
    passages, sealed, spanning_tree, tile_at, walls_agree, connected,
};
use crate::random::{random_u32, sample_index};
use crate::tile::Tile;
use core::ops::Neg;
use turborand::rng::AtomicRng;
use vstd::prelude::*;

verus! {

/// The neighbour of `pos` towards `side` with that side, unless it has been
/// visited.
pub open spec fn unvisited_toward(
    params: MazeParams,
    pos: TilePos,
    visited: Seq<TilePos>,
    side: Direction,
) -> Seq<(TilePos, Direction)> {
    if visited.contains(params.neighbor(pos, side)) {
        Seq::empty()
    } else {
        seq![(params.neighbor(pos, side), side)]
    }
}

/// The steps that lead from `pos` to a tile not yet visited.
pub open spec fn candidates(params: MazeParams, pos: TilePos, visited: Seq<TilePos>) -> Seq<
    (TilePos, Direction),
> {
    unvisited_toward(params, pos, visited, Direction::Top) + unvisited_toward(
        params,
        pos,
        visited,
        Direction::Right,
    ) + unvisited_toward(params, pos, visited, Direction::Bottom) + unvisited_toward(
        params,
        pos,
        visited,
        Direction::Left,
    )
}

/// The candidates to the right and to the left.
pub open spec fn horizontal_candidates(
    params: MazeParams,
    pos: TilePos,
    visited: Seq<TilePos>,
) -> Seq<(TilePos, Direction)> {
    unvisited_toward(params, pos, visited, Direction::Right) + unvisited_toward(
        params,
        pos,
        visited,
        Direction::Left,
    )
}

/// The candidates above and below.
pub open spec fn vertical_candidates(
    params: MazeParams,
    pos: TilePos,
    visited: Seq<TilePos>,
) -> Seq<(TilePos, Direction)> {
    unvisited_toward(params, pos, visited, Direction::Top) + unvisited_toward(
        params,
        pos,
        visited,
        Direction::Bottom,
    )
}

/// The list from which the next step is drawn with equal chances: every
/// candidate once, and those along a favoured axis once more under a plain
/// bias, four times more under a strong one.
pub open spec fn pool(params: MazeParams, pos: TilePos, visited: Seq<TilePos>) -> Seq<
    (TilePos, Direction),
> {
    let all = candidates(params, pos, visited);
    let hor = horizontal_candidates(params, pos, visited);
    let ver = vertical_candidates(params, pos, visited);
    match params.bias {
        DirectionalBias::Unbiased => all,
        DirectionalBias::Horizontal => hor + all,
        DirectionalBias::Vertical => ver + all,
        DirectionalBias::VeryHorizontal => hor + hor + hor + hor + all,
        DirectionalBias::VeryVertical => ver + ver + ver + ver + all,
    }
}

/// `step` leads from `pos` to a neighbour that has not been visited.
pub open spec fn fresh_step(
    params: MazeParams,
    pos: TilePos,
    visited: Seq<TilePos>,
    step: (TilePos, Direction),
) -> bool {
    step.0 == params.neighbor(pos, step.1) && !visited.contains(step.0)
}

/// Every entry of `list` is a step to an unvisited neighbour of `pos`.
pub open spec fn fresh_steps(
    params: MazeParams,
    pos: TilePos,
    visited: Seq<TilePos>,
    list: Seq<(TilePos, Direction)>,
) -> bool {
    forall|k: int| 0 <= k < list.len() ==> fresh_step(params, pos, visited, #[trigger] list[k])
}

proof fn lemma_fresh_concat(
    params: MazeParams,
    pos: TilePos,
    visited: Seq<TilePos>,
    a: Seq<(TilePos, Direction)>,
    b: Seq<(TilePos, Direction)>,
)
    requires
        fresh_steps(params, pos, visited, a),
        fresh_steps(params, pos, visited, b),
    ensures
        fresh_steps(params, pos, visited, a + b),
        (a + b).len() == a.len() + b.len(),
{
    assert forall|k: int| 0 <= k < (a + b).len() implies fresh_step(
        params,
        pos,
        visited,
        #[trigger] (a + b)[k],
    ) by {
        if k < a.len() {
            assert((a + b)[k] == a[k]);
        } else {
            assert((a + b)[k] == b[k - a.len()]);
        }
    }
}

/// Every entry of the pool is a step to an unvisited neighbour, and the pool
/// is empty only where every neighbour has been visited.
pub proof fn lemma_pool(params: MazeParams, pos: TilePos, visited: Seq<TilePos>)
    ensures
        fresh_steps(params, pos, visited, pool(params, pos, visited)),
        pool(params, pos, visited).len() == 0 <==> forall|side: Direction|
            visited.contains(#[trigger] params.neighbor(pos, side)),
{
    let t = unvisited_toward(params, pos, visited, Direction::Top);
    let r = unvisited_toward(params, pos, visited, Direction::Right);
    let b = unvisited_toward(params, pos, visited, Direction::Bottom);
    let l = unvisited_toward(params, pos, visited, Direction::Left);
    let all = candidates(params, pos, visited);
    let hor = horizontal_candidates(params, pos, visited);
    let ver = vertical_candidates(params, pos, visited);
    assert(fresh_steps(params, pos, visited, t));
    assert(fresh_steps(params, pos, visited, r));
    assert(fresh_steps(params, pos, visited, b));
    assert(fresh_steps(params, pos, visited, l));
    lemma_fresh_concat(params, pos, visited, t, r);
    lemma_fresh_concat(params, pos, visited, t + r, b);
    lemma_fresh_concat(params, pos, visited, t + r + b, l);
    lemma_fresh_concat(params, pos, visited, r, l);
    lemma_fresh_concat(params, pos, visited, t, b);
    assert(all.len() == t.len() + r.len() + b.len() + l.len());
    match params.bias {
        DirectionalBias::Unbiased => {},
        DirectionalBias::Horizontal => {
            lemma_fresh_concat(params, pos, visited, hor, all);
        },
        DirectionalBias::Vertical => {
            lemma_fresh_concat(params, pos, visited, ver, all);
        },
        DirectionalBias::VeryHorizontal => {
            lemma_fresh_concat(params, pos, visited, hor, hor);
            lemma_fresh_concat(params, pos, visited, hor + hor, hor);
            lemma_fresh_concat(params, pos, visited, hor + hor + hor, hor);
            lemma_fresh_concat(params, pos, visited, hor + hor + hor + hor, all);
        },
        DirectionalBias::VeryVertical => {
            lemma_fresh_concat(params, pos, visited, ver, ver);
            lemma_fresh_concat(params, pos, visited, ver + ver, ver);
            lemma_fresh_concat(params, pos, visited, ver + ver + ver, ver);
            lemma_fresh_concat(params, pos, visited, ver + ver + ver + ver, all);
        },
    }
    assert(pool(params, pos, visited).len() == 0 <==> all.len() == 0);
    if all.len() == 0 {
        assert forall|side: Direction| visited.contains(
            #[trigger] params.neighbor(pos, side),
        ) by {
            assert(unvisited_toward(params, pos, visited, side).len() == 0);
        }
    } else {
        let side = if t.len() > 0 {
            Direction::Top
        } else if r.len() > 0 {
            Direction::Right
        } else if b.len() > 0 {
            Direction::Bottom
        } else {
            Direction::Left
        };
        assert(!visited.contains(params.neighbor(pos, side)));
    }
}

/// Whether `pos` is among the visited tiles.
fn seen(visited: &[TilePos], pos: TilePos) -> (r: bool)
    ensures
        r == visited@.contains(pos),
{
    let mut i: usize = 0;
    while i < visited.len()
        invariant
            i <= visited@.len(),
            forall|j: int| 0 <= j < i ==> visited@[j] != pos,
        decreases visited@.len() - i,
    {
        if visited[i] == pos {
            return true;
        }
        i += 1;
    }
    false
}

/// Appends the entries of `more` to `list`.
fn push_all(list: &mut Vec<(TilePos, Direction)>, more: &Vec<(TilePos, Direction)>)
    ensures
        final(list)@ == old(list)@ + more@,
{
    let mut i: usize = 0;
    while i < more.len()
        invariant
            i <= more@.len(),
            list@ == old(list)@ + more@.subrange(0, i as int),
        decreases more@.len() - i,
    {
        list.push(more[i]);
        proof {
            assert(more@.subrange(0, i + 1) =~= more@.subrange(0, i as int).push(more@[i as int]));
            assert(list@ =~= old(list)@ + more@.subrange(0, i + 1));
        }
        i += 1;
    }
    proof {
        assert(more@.subrange(0, more@.len() as int) =~= more@);
    }
}

/// The list from which the next step out of `pos` is drawn.
pub fn step_pool(pos: TilePos, visited: &[TilePos], params: MazeParams) -> (r: Vec<
    (TilePos, Direction),
>)
    requires
        params.width <= MAZE_SIZE,
        params.height <= MAZE_SIZE,
        1 <= pos.x < u32::MAX,
        1 <= pos.y < u32::MAX,
    ensures
        r@ == pool(params, pos, visited@),
{
    let around = neighbors(pos, params);
    let mut all: Vec<(TilePos, Direction)> = Vec::new();
    let mut hor: Vec<(TilePos, Direction)> = Vec::new();
    let mut ver: Vec<(TilePos, Direction)> = Vec::new();
    proof {
        assert(sides()[0] == Direction::Top);
        assert(sides()[1] == Direction::Right);
        assert(sides()[2] == Direction::Bottom);
        assert(sides()[3] == Direction::Left);
    }
    if !seen(visited, around[0].0) {
        all.push(around[0]);
        ver.push(around[0]);
    }
    if !seen(visited, around[1].0) {
        all.push(around[1]);
        hor.push(around[1]);
    }
    if !seen(visited, around[2].0) {
        all.push(around[2]);
        ver.push(around[2]);
    }
    if !seen(visited, around[3].0) {
        all.push(around[3]);
        hor.push(around[3]);
    }
    proof {
        assert(all@ =~= candidates(params, pos, visited@));
        assert(hor@ =~= horizontal_candidates(params, pos, visited@));
        assert(ver@ =~= vertical_candidates(params, pos, visited@));
    }
    let mut list: Vec<(TilePos, Direction)> = Vec::new();
    match params.bias {
        DirectionalBias::Unbiased => {},
        DirectionalBias::Horizontal => {
            push_all(&mut list, &hor);
        },
        DirectionalBias::Vertical => {
            push_all(&mut list, &ver);
        },
        DirectionalBias::VeryHorizontal => {
            push_all(&mut list, &hor);
            push_all(&mut list, &hor);
            push_all(&mut list, &hor);
            push_all(&mut list, &hor);
        },
        DirectionalBias::VeryVertical => {
            push_all(&mut list, &ver);
            push_all(&mut list, &ver);
            push_all(&mut list, &ver);
            push_all(&mut list, &ver);
        },
    }
    push_all(&mut list, &all);
    proof {
        assert(list@ =~= pool(params, pos, visited@));
    }
    list
}

/// Randomly get the next tile in the maze for the usual recursive
/// backtracking algorithm.
pub fn next_maze(pos: TilePos, visited: &[TilePos], rng: &AtomicRng, params: MazeParams) -> (r:
    Option<(TilePos, Direction)>)
    requires
        params.width <= MAZE_SIZE,
        params.height <= MAZE_SIZE,
        1 <= pos.x < u32::MAX,
        1 <= pos.y < u32::MAX,
    ensures
        r is None <==> forall|side: Direction|
            visited@.contains(#[trigger] params.neighbor(pos, side)),
        r is Some ==> pool(params, pos, visited@).contains(r.unwrap()),
        r is Some ==> fresh_step(params, pos, visited@, r.unwrap()),
{
    let list = step_pool(pos, visited, params);
    proof {
        lemma_pool(params, pos, visited@);
    }
    match sample_index(rng, list.len()) {
        Some(k) => Some(list[k]),
        None => None,
    }
}

/// The place of the tile at `pos` in the flat table.
pub fn slot(pos: TilePos) -> (i: usize)
    requires
        pos.on_canvas(),
    ensures
        i == pos.flat(),
{
    (pos.y * MAZE_SIZE + pos.x) as usize
}

/// All four neighbours of `pos` have been visited.
pub open spec fn settled(params: MazeParams, visited: Seq<TilePos>, pos: TilePos) -> bool {
    forall|side: Direction| visited.contains(#[trigger] params.neighbor(pos, side))
}

/// Every visited tile can be walked to from the middle.
pub open spec fn visited_linked(tiles: Seq<Tile>, params: MazeParams, visited: Seq<TilePos>) -> bool {
    forall|i: int|
        0 <= i < visited.len() ==> linked(tiles, params, MazeParams::center(), #[trigger] visited[i])
}

/// What holds of the walk while the tiles of a maze without passages are
/// visited one by one: passages run between visited tiles only, and there is
/// one passage fewer than there are visited tiles.
pub open spec fn growing_tree(tiles: Seq<Tile>, params: MazeParams, visited: Seq<TilePos>) -> bool {
    &&& forall|q: TilePos, s: Direction| #[trigger]
        passage(tiles, params, q, s) ==> visited.contains(q) && visited.contains(
            params.neighbor(q, s),
        )
    &&& passages(tiles, params).finite()
    &&& passages(tiles, params).len() == visited.len() - 1
}

/// Stepping from a visited tile through a new passage keeps every visited
/// tile, and the tile behind the passage, within reach of the middle.
proof fn lemma_stay_linked(
    before: Seq<Tile>,
    after: Seq<Tile>,
    params: MazeParams,
    visited: Seq<TilePos>,
    pos: TilePos,
    side: Direction,
)
    requires
        params.valid(),
        params.contains(pos),
        visited.contains(pos),
        visited_linked(before, params, visited),
        forall|q: TilePos, s: Direction| #[trigger]
            passage(after, params, q, s) <==> (passage(before, params, q, s) || (q == pos && s
                == side) || (q == params.neighbor(pos, side) && s == side.opposite())),
        params.neighbor(pos, side) != pos,
    ensures
        visited_linked(after, params, visited.push(params.neighbor(pos, side))),
{
    let more = visited.push(params.neighbor(pos, side));
    assert forall|i: int| 0 <= i < more.len() implies linked(
        after,
        params,
        MazeParams::center(),
        #[trigger] more[i],
    ) by {
        if i < visited.len() {
            assert(more[i] == visited[i]);
            lemma_linked_monotone(before, after, params, MazeParams::center(), visited[i]);
        } else {
            let k = choose|k: int| 0 <= k < visited.len() && visited[k] == pos;
            lemma_linked_monotone(before, after, params, MazeParams::center(), visited[k]);
            assert(passage(after, params, pos, side));
            lemma_linked_step(after, params, MazeParams::center(), pos, side);
        }
    }
}

/// Stepping from a visited tile through a fresh passage to an unvisited one
/// keeps the tree growing.
proof fn lemma_grow(
    before: Seq<Tile>,
    after: Seq<Tile>,
    params: MazeParams,
    visited: Seq<TilePos>,
    pos: TilePos,
    side: Direction,
)
    requires
        params.valid(),
        params.contains(pos),
        visited.contains(pos),
        !visited.contains(params.neighbor(pos, side)),
        growing_tree(before, params, visited),
        forall|q: TilePos, s: Direction| #[trigger]
            passage(after, params, q, s) <==> (passage(before, params, q, s) || (q == pos && s
                == side) || (q == params.neighbor(pos, side) && s == side.opposite())),
    ensures
        growing_tree(after, params, visited.push(params.neighbor(pos, side))),
{
    let next = params.neighbor(pos, side);
    let more = visited.push(next);
    lemma_neighbor_in_maze(params, pos, side);
    lemma_one_more_passage(before, after, params, pos, side);
    assert forall|q: TilePos, s: Direction| #[trigger] passage(after, params, q, s) implies more.contains(
        q,
    ) && more.contains(params.neighbor(q, s)) by {
        assert(more[visited.len() as int] == next);
        if passage(before, params, q, s) {
            let i = choose|i: int| 0 <= i < visited.len() && visited[i] == q;
            assert(more[i] == q);
            let j = choose|j: int| 0 <= j < visited.len() && visited[j] == params.neighbor(q, s);
            assert(more[j] == params.neighbor(q, s));
        } else {
            let i = choose|i: int| 0 <= i < visited.len() && visited[i] == pos;
            assert(more[i] == pos);
        }
    }
}

/// Generate the maze: carve passages with a randomised backtracking walk from
/// the middle tile until every tile of the maze has been visited, then break
/// an exit through the top edge. Returns the tile below the exit.
pub fn gen_maze(maze: &mut [Tile], rng: &AtomicRng, params: MazeParams) -> (exit: TilePos)
    requires
        canvas(old(maze)@),
        params.valid(),
    ensures
        canvas(final(maze)@),
        params.contains(exit),
        exit.y == params.bottom() + params.height - 1,
        tile_at(final(maze)@, exit).has_open(Direction::Top),
        tile_at(final(maze)@, above(exit)).has_open(Direction::Bottom),
        forall|pos: TilePos|
            pos.on_canvas() ==> lowered(
                tile_at(old(maze)@, pos),
                #[trigger] tile_at(final(maze)@, pos),
            ),
        forall|pos: TilePos|
            pos.on_canvas() && !params.contains(pos) ==> #[trigger] tile_at(final(maze)@, pos)
                == if pos == above(exit) {
                tile_at(old(maze)@, pos).opened(Direction::Bottom)
            } else {
                tile_at(old(maze)@, pos)
            },
        forall|pos: TilePos, side: Direction|
            params.contains(pos) && params.neighbor(pos, side) == pos ==> (#[trigger] tile_at(
                final(maze)@,
                pos,
            ).has_open(side) <==> (tile_at(old(maze)@, pos).has_open(side) || (pos == exit && side
                == Direction::Top))),
        connected(final(maze)@, params),
        walls_agree(old(maze)@, params) ==> walls_agree(final(maze)@, params),
        sealed(old(maze)@, params) ==> spanning_tree(final(maze)@, params),
{
    let ghost before = maze@;
    let ghost center = MazeParams::center();
    let mut pos = TilePos { x: MAZE_SIZE / 2, y: MAZE_SIZE / 2 };
    let width = params.width as usize;
    let height = params.height as usize;
    assert(width * height <= 128 * 128) by (nonlinear_arith)
        requires
            width <= 128,
            height <= 128,
    ;
    let mut visited: Vec<TilePos> = Vec::with_capacity(width * height);
    visited.push(pos);
    let mut route: Vec<TilePos> = Vec::new();
    route.push(pos);
    proof {
        lemma_center_in_maze(params);
        lemma_tile_count(params, visited@);
        lemma_reaches_self(before, params, center);
        if sealed(before, params) {
            assert(passages(before, params) =~= Set::empty());
        }
    }
    loop
        invariant_except_break
            route@.len() >= 1,
            pos == route@.last(),
        invariant
            params.valid(),
            canvas(before),
            canvas(maze@),
            center == MazeParams::center(),
            visited@.len() >= 1,
            visited@[0] == center,
            visited@.no_duplicates(),
            visited@.len() <= params.width * params.height,
            forall|i: int| 0 <= i < visited@.len() ==> params.contains(#[trigger] visited@[i]),
            forall|i: int| 0 <= i < route@.len() ==> visited@.contains(#[trigger] route@[i]),
            forall|i: int|
                0 <= i < visited@.len() ==> route@.contains(#[trigger] visited@[i]) || settled(
                    params,
                    visited@,
                    visited@[i],
                ),
            forall|q: TilePos|
                q.on_canvas() ==> lowered(tile_at(before, q), #[trigger] tile_at(maze@, q)),
            forall|q: TilePos|
                q.on_canvas() && !params.contains(q) ==> #[trigger] tile_at(maze@, q) == tile_at(
                    before,
                    q,
                ),
            forall|q: TilePos, s: Direction|
                params.contains(q) && params.neighbor(q, s) == q ==> (#[trigger] tile_at(
                    maze@,
                    q,
                ).has_open(s) <==> tile_at(before, q).has_open(s)),
            walls_agree(before, params) ==> walls_agree(maze@, params),
            visited_linked(maze@, params, visited@),
            sealed(before, params) ==> growing_tree(maze@, params, visited@),
        ensures
            forall|i: int|
                0 <= i < visited@.len() ==> settled(params, visited@, #[trigger] visited@[i]),
        decreases params.width * params.height - visited@.len(), route@.len(),
    {
        proof {
            assert(visited@.contains(route@[route@.len() - 1]));
        }
        match next_maze(pos, visited.as_slice(), rng, params) {
            Some((next, dir)) => {
                let ghost t0 = maze@;
                let ghost v0 = visited@;
                let ghost r0 = route@;
                proof {
                    lemma_neighbor_in_maze(params, pos, dir);
                    lemma_carve(t0, params, pos, dir);
                }
                maze[slot(pos)].open(dir);
                maze[slot(next)].open(dir.neg());
                visited.push(next);
                route.push(next);
                proof {
                    assert(maze@ == with_open(with_open(t0, pos, dir), next, dir.opposite()));
                    assert forall|q: TilePos, s: Direction|
                        params.contains(q) && params.neighbor(q, s) == q implies (
                    #[trigger] tile_at(maze@, q).has_open(s) <==> tile_at(before, q).has_open(
                        s,
                    )) by {
                        assert(tile_at(maze@, q).has_open(s) <==> tile_at(t0, q).has_open(s));
                    }
                    assert forall|q: TilePos| q.on_canvas() implies lowered(
                        tile_at(before, q),
                        #[trigger] tile_at(maze@, q),
                    ) by {
                        assert(lowered(tile_at(before, q), tile_at(t0, q)));
                        assert(lowered(tile_at(t0, q), tile_at(maze@, q)));
                        assert forall|s: Direction|
                            tile_at(before, q).has_open(s) implies #[trigger] tile_at(
                            maze@,
                            q,
                        ).has_open(s) by {
                            assert(tile_at(t0, q).has_open(s));
                        }
                    }
                    assert forall|i: int| 0 <= i < route@.len() implies visited@.contains(
                        #[trigger] route@[i],
                    ) by {
                        if i < r0.len() {
                            let k = choose|k: int| 0 <= k < v0.len() && v0[k] == r0[i];
                            assert(visited@[k] == route@[i]);
                        } else {
                            assert(visited@[v0.len() as int] == next);
                        }
                    }
                    assert forall|i: int| 0 <= i < visited@.len() implies route@.contains(
                        #[trigger] visited@[i],
                    ) || settled(params, visited@, visited@[i]) by {
                        if i < v0.len() {
                            if r0.contains(v0[i]) {
                                let k = choose|k: int| 0 <= k < r0.len() && r0[k] == v0[i];
                                assert(route@[k] == visited@[i]);
                            } else {
                                assert forall|s: Direction|
                                    visited@.contains(
                                        #[trigger] params.neighbor(visited@[i], s),
                                    ) by {
                                    let n = params.neighbor(v0[i], s);
                                    assert(v0.contains(n));
                                    let k = choose|k: int| 0 <= k < v0.len() && v0[k] == n;
                                    assert(visited@[k] == n);
                                }
                            }
                        } else {
                            assert(route@[r0.len() as int] == next);
                        }
                    }
                    lemma_tile_count(params, visited@);
                    lemma_stay_linked(t0, maze@, params, v0, pos, dir);
                    if sealed(before, params) {
                        lemma_grow(t0, maze@, params, v0, pos, dir);
                    }
                }
                pos = next;
            },
            None => {
                let ghost r0 = route@;
                route.pop();
                proof {
                    assert forall|i: int| 0 <= i < visited@.len() implies route@.contains(
                        #[trigger] visited@[i],
                    ) || settled(params, visited@, visited@[i]) by {
                        if r0.contains(visited@[i]) && visited@[i] != pos {
                            let k = choose|k: int| 0 <= k < r0.len() && r0[k] == visited@[i];
                            assert(route@[k] == visited@[i]);
                        }
                    }
                }
                if route.len() == 0 {
                    break ;
                }
                pos = route[route.len() - 1];
            },
        }
    }
    proof {
        assert forall|q: TilePos, s: Direction|
            visited@.contains(q) && params.contains(q) implies visited@.contains(
            #[trigger] params.neighbor(q, s),
        ) by {
            let i = choose|i: int| 0 <= i < visited@.len() && visited@[i] == q;
            assert(settled(params, visited@, visited@[i]));
        }
        assert forall|q: TilePos| params.contains(q) implies visited@.contains(q) by {
            lemma_closed_is_whole(params, visited@, q);
        }
        lemma_tile_count(params, visited@);
    }
    let exit = TilePos {
        x: random_u32(rng, params.margin_x(), params.margin_x() + params.width()),
        y: params.margin_y() + params.height() - 1,
    };
    let ghost t1 = maze@;
    maze[slot(TilePos { x: exit.x, y: exit.y + 1 })].open(Direction::Bottom);
    maze[slot(exit)].open(Direction::Top);
    proof {
        let mid = with_open(t1, above(exit), Direction::Bottom);
        assert(maze@ == with_open(mid, exit, Direction::Top));
        lemma_with_open(t1, above(exit), Direction::Bottom);
        lemma_with_open(mid, exit, Direction::Top);
        assert forall|q: TilePos, s: Direction| #[trigger]
            passage(maze@, params, q, s) <==> passage(t1, params, q, s) by {
            if params.contains(q) {
                assert(tile_at(maze@, q).has_open(s) <==> (tile_at(mid, q).has_open(s) || (q
                    == exit && s == Direction::Top)));
                assert(tile_at(mid, q).has_open(s) <==> (tile_at(t1, q).has_open(s) || (q
                    == above(exit) && s == Direction::Bottom)));
            }
        }
        assert forall|q: TilePos, s: Direction|
            params.contains(q) && params.neighbor(q, s) == q implies (#[trigger] tile_at(
                maze@,
                q,
            ).has_open(s) <==> (tile_at(before, q).has_open(s) || (q == exit && s
                == Direction::Top))) by {
            assert(tile_at(maze@, q).has_open(s) <==> (tile_at(mid, q).has_open(s) || (q == exit
                && s == Direction::Top)));
            assert(tile_at(mid, q).has_open(s) <==> (tile_at(t1, q).has_open(s) || (q == above(
                exit,
            ) && s == Direction::Bottom)));
            assert(tile_at(t1, q).has_open(s) <==> tile_at(before, q).has_open(s));
        }
        assert forall|q: TilePos| q.on_canvas() implies lowered(
            tile_at(before, q),
            #[trigger] tile_at(maze@, q),
        ) by {
            assert(lowered(tile_at(before, q), tile_at(t1, q)));
            assert(lowered(tile_at(t1, q), tile_at(mid, q)));
            assert(lowered(tile_at(mid, q), tile_at(maze@, q)));
            assert forall|s: Direction| tile_at(before, q).has_open(s) implies #[trigger] tile_at(
                maze@,
                q,
            ).has_open(s) by {
                assert(tile_at(t1, q).has_open(s));
                assert(tile_at(mid, q).has_open(s));
            }
        }
        if walls_agree(before, params) {
            assert forall|q: TilePos, s: Direction|
                params.contains(q) && params.neighbor(q, s) != q implies (#[trigger] tile_at(
                    maze@,
                    q,
                ).has_open(s) <==> tile_at(maze@, params.neighbor(q, s)).has_open(
                    s.opposite(),
                )) by {
                let n = params.neighbor(q, s);
                lemma_neighbor_in_maze(params, q, s);
                assert(passage(maze@, params, q, s) <==> passage(t1, params, q, s));
                assert(passage(maze@, params, n, s.opposite()) <==> passage(
                    t1,
                    params,
                    n,
                    s.opposite(),
                ));
                assert(tile_at(t1, q).has_open(s) <==> tile_at(t1, n).has_open(s.opposite()));
            }
        }
        assert forall|q: TilePos| params.contains(q) implies #[trigger] linked(
            maze@,
            params,
            MazeParams::center(),
            q,
        ) by {
            let i = choose|i: int| 0 <= i < visited@.len() && visited@[i] == q;
            lemma_linked_monotone(t1, maze@, params, MazeParams::center(), visited@[i]);
        }
        if sealed(before, params) {
            lemma_same_passages(t1, maze@, params);
        }
    }
    exit
}

} // verus!
