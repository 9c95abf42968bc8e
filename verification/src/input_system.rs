//! The movement resolver: once per tick, each player entity consumes the most
//! recently pressed key; a direction key pushes the chain of consecutive
//! movable pieces ahead of the player one step, unless the chain ends at an
//! immovable entity or at the grid edge, in which case nothing moves. A tick
//! in which anything moved raises the move counter by exactly one.

use vstd::prelude::*;

use crate::components::Position;
use crate::resources::KeyCode;
use crate::world::{at_cell, immovable_at, movable_at, same_xy, wf_entities, wf_entity, Entity,
    EntityView, World};

verus! {

/// Whether the key names one of the four movement directions.
pub open spec fn is_direction(k: KeyCode) -> bool {
    k is Up || k is Down || k is Left || k is Right
}

/// Horizontal step of a key: -1, 0 or 1.
pub open spec fn key_dx(k: KeyCode) -> int {
    match k {
        KeyCode::Left => -1,
        KeyCode::Right => 1,
        _ => 0,
    }
}

/// Vertical step of a key: -1, 0 or 1.
pub open spec fn key_dy(k: KeyCode) -> int {
    match k {
        KeyCode::Up => -1,
        KeyCode::Down => 1,
        _ => 0,
    }
}

/// Whether `(x, y)` lies on the grid.
pub open spec fn in_bounds(x: int, y: int, w: int, h: int) -> bool {
    0 <= x < w && 0 <= y < h
}

/// How many cells remain from `(x, y)` to the grid edge in direction `k`,
/// the cell itself included: the scan's termination measure.
pub open spec fn scan_bound(x: int, y: int, k: KeyCode, w: int, h: int) -> int {
    match k {
        KeyCode::Up => y + 1,
        KeyCode::Down => h - y,
        KeyCode::Left => x + 1,
        KeyCode::Right => w - x,
        KeyCode::Other => 0,
    }
}

/// The length of the run of movable entities from cell `(x, y)` in direction
/// `k`, up to the first free in-grid cell. `None` when the run is blocked: an
/// immovable entity stands in it, or it reaches past the grid edge.
pub open spec fn run_len(es: Seq<EntityView>, x: int, y: int, k: KeyCode, w: int, h: int) -> Option<
    nat,
>
    decreases scan_bound(x, y, k, w, h),
{
    if !is_direction(k) || !in_bounds(x, y, w, h) {
        None
    } else if immovable_at(es, x, y) {
        None
    } else if movable_at(es, x, y) {
        match run_len(es, x + key_dx(k), y + key_dy(k), k, w, h) {
            Some(m) => Some((m + 1) as nat),
            None => None,
        }
    } else {
        Some(0)
    }
}

/// The column of the `j`-th cell of a run that starts at column `x` and goes
/// in direction `k`.
pub open spec fn chain_cell_x(x: int, j: int, k: KeyCode) -> int {
    x + j * key_dx(k)
}

/// The row of the `j`-th cell of a run that starts at row `y` and goes in
/// direction `k`.
pub open spec fn chain_cell_y(y: int, j: int, k: KeyCode) -> int {
    y + j * key_dy(k)
}

/// Whether position `p` lies on one of the first `n` cells of the run that
/// starts at `(x, y)` and goes in direction `k`.
pub open spec fn on_chain(p: Position, x: int, y: int, k: KeyCode, n: int) -> bool {
    exists|j: int|
        0 <= j < n && p.x == #[trigger] chain_cell_x(x, j, k) && p.y == chain_cell_y(y, j, k)
}

/// The entity one step further in direction `k`, all else unchanged.
pub open spec fn shifted(e: EntityView, k: KeyCode) -> EntityView {
    EntityView {
        position: Some(
            Position {
                x: (e.position->Some_0.x + key_dx(k)) as u8,
                y: (e.position->Some_0.y + key_dy(k)) as u8,
                z: e.position->Some_0.z,
            },
        ),
        ..e
    }
}

/// Every movable entity on the first `n` cells of the run shifted one step in
/// direction `k`; everything else unchanged.
pub open spec fn apply_move(es: Seq<EntityView>, x: int, y: int, k: KeyCode, n: int) -> Seq<
    EntityView,
> {
    Seq::new(
        es.len(),
        |i: int|
            if es[i].movable && (es[i].position matches Some(p) && on_chain(p, x, y, k, n)) {
                shifted(es[i], k)
            } else {
                es[i]
            },
    )
}

/// One player's action on key `k` from cell `(x, y)`: the new entities and
/// whether anything moved. A non-direction key is consumed without effect; a
/// blocked run moves nothing.
pub open spec fn resolve_key(es: Seq<EntityView>, x: int, y: int, k: KeyCode, w: int, h: int) -> (
    Seq<EntityView>,
    bool,
) {
    if !is_direction(k) {
        (es, false)
    } else {
        match run_len(es, x, y, k, w, h) {
            Some(n) => if n > 0 {
                (apply_move(es, x, y, k, n as int), true)
            } else {
                (es, false)
            },
            None => (es, false),
        }
    }
}

/// The whole tick's movement: players act in arena order from index `i` on,
/// each popping the most recent key while any is queued. Yields the final
/// entities, the remaining queue, and whether any player's action moved
/// anything.
pub open spec fn run_players(es: Seq<EntityView>, q: Seq<KeyCode>, i: int, w: int, h: int) -> (
    Seq<EntityView>,
    Seq<KeyCode>,
    bool,
)
    decreases es.len() - i,
{
    if i < 0 || i >= es.len() {
        (es, q, false)
    } else if es[i].player && es[i].position is Some && q.len() > 0 {
        let p = es[i].position->Some_0;
        let k = q.last();
        let r = resolve_key(es, p.x as int, p.y as int, k, w, h);
        let rest = run_players(r.0, q.drop_last(), i + 1, w, h);
        (rest.0, rest.1, r.1 || rest.2)
    } else {
        run_players(es, q, i + 1, w, h)
    }
}

/// Scans the run of movable entities from `(px, py)` in direction `key`:
/// returns the arena indices of the run's members in order, or `None` when
/// the run is blocked by an immovable entity or by the grid edge.
fn scan_chain(entities: &Vec<Entity>, px: u8, py: u8, key: KeyCode, width: u16, height: u16) -> (r:
    Option<Vec<usize>>)
    requires
        wf_entities(entities.deep_view(), width as int, height as int),
        width <= 256,
        height <= 256,
        is_direction(key),
        in_bounds(px as int, py as int, width as int, height as int),
    ensures
        ({
            let es = entities.deep_view();
            let w = width as int;
            let h = height as int;
            match r {
                Some(chain) => {
                    &&& run_len(es, px as int, py as int, key, w, h) == Some(
                        chain@.len() as nat,
                    )
                    &&& forall|j: int|
                        0 <= j < chain@.len() ==> #[trigger] chain@[j] < es.len()
                            && es[chain@[j] as int].movable && at_cell(
                            es[chain@[j] as int],
                            chain_cell_x(px as int, j, key),
                            chain_cell_y(py as int, j, key),
                        )
                    &&& in_bounds(
                        chain_cell_x(px as int, chain@.len() as int, key),
                        chain_cell_y(py as int, chain@.len() as int, key),
                        w,
                        h,
                    )
                    &&& !movable_at(
                        es,
                        chain_cell_x(px as int, chain@.len() as int, key),
                        chain_cell_y(py as int, chain@.len() as int, key),
                    )
                    &&& !immovable_at(
                        es,
                        chain_cell_x(px as int, chain@.len() as int, key),
                        chain_cell_y(py as int, chain@.len() as int, key),
                    )
                },
                None => run_len(es, px as int, py as int, key, w, h) is None,
            }
        }),
{
    let ghost es = entities.deep_view();
    let ghost w = width as int;
    let ghost h = height as int;
    let dxi: i32 = match key {
        KeyCode::Left => -1,
        KeyCode::Right => 1,
        _ => 0,
    };
    let dyi: i32 = match key {
        KeyCode::Up => -1,
        KeyCode::Down => 1,
        _ => 0,
    };
    proof {
        assert(dxi as int == key_dx(key));
        assert(dyi as int == key_dy(key));
    }
    let wi = width as i32;
    let hi = height as i32;
    let mut cx: i32 = px as i32;
    let mut cy: i32 = py as i32;
    let mut chain: Vec<usize> = Vec::new();
    loop
        invariant
            es == entities.deep_view(),
            w == width as int,
            h == height as int,
            width <= 256,
            height <= 256,
            wi == width as i32,
            hi == height as i32,
            dxi as int == key_dx(key),
            dyi as int == key_dy(key),
            is_direction(key),
            wf_entities(es, w, h),
            in_bounds(cx as int, cy as int, w, h),
            cx as int == chain_cell_x(px as int, chain@.len() as int, key),
            cy as int == chain_cell_y(py as int, chain@.len() as int, key),
            forall|j: int|
                0 <= j < chain@.len() ==> #[trigger] chain@[j] < es.len()
                    && es[chain@[j] as int].movable && at_cell(
                    es[chain@[j] as int],
                    chain_cell_x(px as int, j, key),
                    chain_cell_y(py as int, j, key),
                ),
            run_len(es, px as int, py as int, key, w, h) == (match run_len(
                es,
                cx as int,
                cy as int,
                key,
                w,
                h,
            ) {
                Some(m) => Some((m + chain@.len()) as nat),
                None => None,
            }),
        decreases scan_bound(cx as int, cy as int, key, w, h),
    {
        proof {
            assert(cx as u8 as int == cx as int);
            assert(cy as u8 as int == cy as int);
        }
        match find_immovable_at_idx(entities, cx as u8, cy as u8) {
            Some(bi) => {
                proof {
                    assert(es[bi as int].immovable && at_cell(es[bi as int], cx as int, cy as int));
                    assert(immovable_at(es, cx as int, cy as int));
                    assert(run_len(es, cx as int, cy as int, key, w, h) is None);
                }
                return None;
            },
            None => {},
        }
        match find_movable_at_idx(entities, cx as u8, cy as u8) {
            Some(idx) => {
                proof {
                    assert(es[idx as int].movable && at_cell(es[idx as int], cx as int, cy as int));
                    assert(movable_at(es, cx as int, cy as int));
                }
                let ghost len0 = chain@.len() as int;
                chain.push(idx);
                proof {
                    assert(chain@[len0] == idx);
                    assert(forall|j: int|
                        0 <= j < chain@.len() ==> #[trigger] chain@[j] < es.len()
                            && es[chain@[j] as int].movable && at_cell(
                            es[chain@[j] as int],
                            chain_cell_x(px as int, j, key),
                            chain_cell_y(py as int, j, key),
                        ));
                }
                let nx = cx + dxi;
                let ny = cy + dyi;
                proof {
                    assert(nx as int == chain_cell_x(px as int, chain@.len() as int, key));
                    assert(ny as int == chain_cell_y(py as int, chain@.len() as int, key));
                }
                if nx < 0 || nx >= wi || ny < 0 || ny >= hi {
                    proof {
                        assert(!in_bounds(nx as int, ny as int, w, h));
                        assert(run_len(es, nx as int, ny as int, key, w, h) is None);
                        assert(run_len(es, cx as int, cy as int, key, w, h) is None);
                    }
                    return None;
                }
                proof {
                    assert(run_len(es, cx as int, cy as int, key, w, h) == (match run_len(
                        es,
                        nx as int,
                        ny as int,
                        key,
                        w,
                        h,
                    ) {
                        Some(m) => Some((m + 1) as nat),
                        None => None,
                    }));
                }
                cx = nx;
                cy = ny;
            },
            None => {
                proof {
                    assert(run_len(es, cx as int, cy as int, key, w, h) == Some(0nat));
                }
                return Some(chain);
            },
        }
    }
}

/// The entities after the first `j` chain members were shifted one step, in
/// order: the exec apply loop's intermediate states.
pub open spec fn applied_prefix(
    es0: Seq<EntityView>,
    chain: Seq<usize>,
    k: KeyCode,
    j: int,
) -> Seq<EntityView>
    decreases j,
{
    if j <= 0 {
        es0
    } else {
        applied_prefix(es0, chain, k, j - 1).update(
            chain[j - 1] as int,
            shifted(es0[chain[j - 1] as int], k),
        )
    }
}

/// Some of the first `j` chain entries names arena index `t`.
pub open spec fn has_chain_idx(chain: Seq<usize>, j: int, t: int) -> bool {
    exists|jj: int| 0 <= jj < j && #[trigger] chain[jj] == t
}

/// Stepping to the next chain cell adds one unit step.
proof fn lemma_cell_step(px: int, py: int, j: int, k: KeyCode)
    ensures
        chain_cell_x(px, j + 1, k) == chain_cell_x(px, j, k) + key_dx(k),
        chain_cell_y(py, j + 1, k) == chain_cell_y(py, j, k) + key_dy(k),
{
    let dx = key_dx(k);
    let dy = key_dy(k);
    assert((j + 1) * dx == j * dx + dx) by (nonlinear_arith);
    assert((j + 1) * dy == j * dy + dy) by (nonlinear_arith);
}

/// Distinct chain steps of a direction key land on distinct cells.
proof fn lemma_cell_inj(px: int, py: int, j1: int, j2: int, k: KeyCode)
    requires
        is_direction(k),
        chain_cell_x(px, j1, k) == chain_cell_x(px, j2, k),
        chain_cell_y(py, j1, k) == chain_cell_y(py, j2, k),
    ensures
        j1 == j2,
{
    let dx = key_dx(k);
    let dy = key_dy(k);
    assert(j1 * dx == j2 * dx);
    assert(j1 * dy == j2 * dy);
    assert(dx != 0 || dy != 0);
    assert(j1 == j2) by (nonlinear_arith)
        requires
            j1 * dx == j2 * dx,
            j1 * dy == j2 * dy,
            dx != 0 || dy != 0,
    ;
}

/// Element-wise description of `applied_prefix`.
proof fn lemma_applied_prefix_props(es0: Seq<EntityView>, chain: Seq<usize>, k: KeyCode, j: int)
    requires
        0 <= j <= chain.len(),
        forall|jj: int| 0 <= jj < chain.len() ==> (#[trigger] chain[jj]) < es0.len(),
    ensures
        applied_prefix(es0, chain, k, j).len() == es0.len(),
        forall|t: int|
            0 <= t < es0.len() ==> #[trigger] applied_prefix(es0, chain, k, j)[t] == (
            if has_chain_idx(chain, j, t) {
                shifted(es0[t], k)
            } else {
                es0[t]
            }),
    decreases j,
{
    if j > 0 {
        lemma_applied_prefix_props(es0, chain, k, j - 1);
        let prev = applied_prefix(es0, chain, k, j - 1);
        let curr = applied_prefix(es0, chain, k, j);
        let u = chain[j - 1] as int;
        assert forall|t: int| 0 <= t < es0.len() implies #[trigger] curr[t] == (
        if has_chain_idx(chain, j, t) {
            shifted(es0[t], k)
        } else {
            es0[t]
        }) by {
            if t == u {
                assert(chain[j - 1] == t);
                assert(has_chain_idx(chain, j, t));
            } else {
                assert(curr[t] == prev[t]);
                if has_chain_idx(chain, j, t) {
                    let jj = choose|jj: int| 0 <= jj < j && #[trigger] chain[jj] == t;
                    assert(jj != j - 1);
                    assert(has_chain_idx(chain, j - 1, t));
                }
                if has_chain_idx(chain, j - 1, t) {
                    assert(has_chain_idx(chain, j, t));
                }
            }
        }
    }
}

/// Resolves one player's key press from cell `(px, py)`: scans the run ahead
/// and, when it ends at a free in-grid cell, shifts the whole chain one step.
fn resolve_one(world: &mut World, px: u8, py: u8, key: KeyCode) -> (moved: bool)
    requires
        old(world).wf(),
        in_bounds(px as int, py as int, old(world).width as int, old(world).height as int),
    ensures
        final(world).wf(),
        ({
            let r = resolve_key(
                old(world).ents(),
                px as int,
                py as int,
                key,
                old(world).width as int,
                old(world).height as int,
            );
            final(world).ents() == r.0 && moved == r.1
        }),
        final(world).input_queue == old(world).input_queue,
        final(world).gameplay == old(world).gameplay,
        final(world).time == old(world).time,
        final(world).width == old(world).width,
        final(world).height == old(world).height,
{
    let ghost es0 = world.ents();
    let ghost w = world.width as int;
    let ghost h = world.height as int;
    let is_dir = match key {
        KeyCode::Other => false,
        _ => true,
    };
    if !is_dir {
        return false;
    }
    let chainopt = scan_chain(&world.entities, px, py, key, world.width, world.height);
    let chain = match chainopt {
        None => {
            return false;
        },
        Some(chain) => chain,
    };
    let m = chain.len();
    if m == 0 {
        return false;
    }
    let ghost tx = chain_cell_x(px as int, m as int, key);
    let ghost ty = chain_cell_y(py as int, m as int, key);
    proof {
        // Chain entries are pairwise distinct: they stand on distinct cells.
        assert forall|j1: int, j2: int|
            0 <= j1 < m && 0 <= j2 < m && j1 != j2 implies chain@[j1] != chain@[j2] by {
            if chain@[j1] == chain@[j2] {
                let e = es0[chain@[j1] as int];
                assert(at_cell(e, chain_cell_x(px as int, j1, key), chain_cell_y(py as int, j1, key)));
                assert(at_cell(e, chain_cell_x(px as int, j2, key), chain_cell_y(py as int, j2, key)));
                lemma_cell_inj(
                    px as int,
                    py as int,
                    j1,
                    j2,
                    key,
                );
            }
        }
    }
    let dxi: i32 = match key {
        KeyCode::Left => -1,
        KeyCode::Right => 1,
        _ => 0,
    };
    let dyi: i32 = match key {
        KeyCode::Up => -1,
        KeyCode::Down => 1,
        _ => 0,
    };
    let ghost w0 = *world;
    let mut j: usize = 0;
    while j < m
        invariant
            j <= m,
            m == chain@.len(),
            es0 == w0.ents(),
            es0.len() == world.entities@.len(),
            dxi as int == key_dx(key),
            dyi as int == key_dy(key),
            is_direction(key),
            wf_entities(es0, w, h),
            w == world.width as int,
            h == world.height as int,
            w <= 256,
            h <= 256,
            forall|jj: int|
                0 <= jj < m ==> #[trigger] chain@[jj] < es0.len()
                    && es0[chain@[jj] as int].movable && at_cell(
                    es0[chain@[jj] as int],
                    chain_cell_x(px as int, jj, key),
                    chain_cell_y(py as int, jj, key),
                ),
            forall|j1: int, j2: int|
                0 <= j1 < m && 0 <= j2 < m && j1 != j2 ==> #[trigger] chain@[j1] != #[trigger] chain@[j2],
            in_bounds(tx, ty, w, h),
            tx == chain_cell_x(px as int, m as int, key),
            ty == chain_cell_y(py as int, m as int, key),
            world.ents() == applied_prefix(es0, chain@, key, j as int),
            world.input_queue == w0.input_queue,
            world.gameplay == w0.gameplay,
            world.time == w0.time,
            world.width == w0.width,
            world.height == w0.height,
        decreases m - j,
    {
        let idx = chain[j];
        proof {
            lemma_applied_prefix_props(es0, chain@, key, j as int);
            assert(!has_chain_idx(chain@, j as int, idx as int));
            assert(world.ents()[idx as int] == es0[idx as int]);
            assert(world.entities@[idx as int]@ == es0[idx as int]);
            // The cell one step on is in bounds, so the new coordinates fit.
            let jj = j as int;
            lemma_cell_step(px as int, py as int, jj, key);
            if jj + 1 < m {
                assert(at_cell(
                    es0[chain@[jj + 1] as int],
                    chain_cell_x(px as int, jj + 1, key),
                    chain_cell_y(py as int, jj + 1, key),
                ));
                assert(wf_entity(es0[chain@[jj + 1] as int], w, h));
            }
        }
        let posopt = world.entities[idx].position;
        match posopt {
            Some(p) => {
                let np = Position {
                    x: (p.x as i32 + dxi) as u8,
                    y: (p.y as i32 + dyi) as u8,
                    z: p.z,
                };
                let ghost pre = world.ents();
                let er = &mut world.entities[idx];
                er.position = Some(np);
                proof {
                    assert(world.ents() =~= pre.update(
                        idx as int,
                        shifted(es0[idx as int], key),
                    ));
                    assert(world.ents() == applied_prefix(es0, chain@, key, j + 1));
                }
            },
            None => {
                proof {
                    assert(false);
                }
            },
        }
        j += 1;
    }
    proof {
        lemma_applied_prefix_props(es0, chain@, key, m as int);
        let es1 = world.ents();
        let am = apply_move(es0, px as int, py as int, key, m as int);
        assert forall|t: int| 0 <= t < es0.len() implies es1[t] == am[t] by {
            if has_chain_idx(chain@, m as int, t) {
                let jj = choose|jj: int| 0 <= jj < m && #[trigger] chain@[jj] == t;
                assert(at_cell(es0[t], chain_cell_x(px as int, jj, key), chain_cell_y(py as int, jj, key)));
                assert(es0[t].movable);
                assert(on_chain(es0[t].position->Some_0, px as int, py as int, key, m as int));
                assert(es1[t] == shifted(es0[t], key));
            } else {
                assert(es1[t] == es0[t]);
                if es0[t].movable && (es0[t].position matches Some(p) && on_chain(
                    p,
                    px as int,
                    py as int,
                    key,
                    m as int,
                )) {
                    let p = es0[t].position->Some_0;
                    let jj = choose|jj: int|
                        0 <= jj < m && p.x == #[trigger] chain_cell_x(px as int, jj, key) && p.y
                            == chain_cell_y(py as int, jj, key);
                    // The movable at that chain cell is the chain entry itself.
                    assert(es0[chain@[jj] as int].movable && at_cell(
                        es0[chain@[jj] as int],
                        chain_cell_x(px as int, jj, key),
                        chain_cell_y(py as int, jj, key),
                    ));
                    assert(same_xy(es0[t], es0[chain@[jj] as int]));
                    assert(t == chain@[jj]);
                    assert(has_chain_idx(chain@, m as int, t));
                    assert(false);
                }
            }
        }
        assert(es1 =~= am);
        lemma_apply_move_wf(es0, px as int, py as int, key, m as int, w, h, chain@);
        assert(run_len(es0, px as int, py as int, key, w, h) == Some(m as nat));
    }
    true
}

/// A blocked or trivial move leaves the world alone; a real move applies
/// `apply_move` and keeps the store well formed.
proof fn lemma_apply_move_wf(
    es0: Seq<EntityView>,
    px: int,
    py: int,
    key: KeyCode,
    m: int,
    w: int,
    h: int,
    chain: Seq<usize>,
)
    requires
        wf_entities(es0, w, h),
        is_direction(key),
        m == chain.len(),
        m >= 1,
        forall|j: int|
            0 <= j < m ==> (#[trigger] chain[j]) < es0.len() && es0[chain[j] as int].movable
                && at_cell(
                es0[chain[j] as int],
                chain_cell_x(px, j, key),
                chain_cell_y(py, j, key),
            ),
        in_bounds(chain_cell_x(px, m, key), chain_cell_y(py, m, key), w, h),
        !movable_at(es0, chain_cell_x(px, m, key), chain_cell_y(py, m, key)),
        w <= 256,
        h <= 256,
    ensures
        wf_entities(apply_move(es0, px, py, key, m), w, h),
{
    let es1 = apply_move(es0, px, py, key, m);
    // Every moved entity lands on the next chain cell, which is in bounds.
    assert forall|t: int| 0 <= t < es1.len() implies wf_entity(#[trigger] es1[t], w, h) by {
        if es0[t].movable && (es0[t].position matches Some(p) && on_chain(p, px, py, key, m)) {
            let p = es0[t].position->Some_0;
            let jj = choose|jj: int|
                0 <= jj < m && p.x == #[trigger] chain_cell_x(px, jj, key) && p.y == chain_cell_y(
                    py,
                    jj,
                    key,
                );
            lemma_cell_step(px, py, jj, key);
            if jj + 1 < m {
                assert(at_cell(
                    es0[chain[jj + 1] as int],
                    chain_cell_x(px, jj + 1, key),
                    chain_cell_y(py, jj + 1, key),
                ));
                assert(wf_entity(es0[chain[jj + 1] as int], w, h));
            }
            assert(0 <= p.x + key_dx(key) < w);
            assert(0 <= p.y + key_dy(key) < h);
            assert(wf_entity(es1[t], w, h));
        } else {
            assert(es1[t] == es0[t]);
        }
    }
    // At most one movable per cell is preserved.
    assert forall|t1: int, t2: int|
        0 <= t1 < es1.len() && 0 <= t2 < es1.len() && (#[trigger] es1[t1]).movable
            && (#[trigger] es1[t2]).movable && same_xy(es1[t1], es1[t2]) implies t1 == t2 by {
        lemma_apply_move_movable_unique(es0, px, py, key, m, w, h, chain, t1, t2);
    }
    // Immovable entities do not move at all.
    assert forall|t1: int, t2: int|
        0 <= t1 < es1.len() && 0 <= t2 < es1.len() && (#[trigger] es1[t1]).immovable
            && (#[trigger] es1[t2]).immovable && same_xy(es1[t1], es1[t2]) implies t1 == t2 by {
        assert(es1[t1] == es0[t1]);
        assert(es1[t2] == es0[t2]);
    }
}

/// Two movables on one cell after a move must be the same entity.
proof fn lemma_apply_move_movable_unique(
    es0: Seq<EntityView>,
    px: int,
    py: int,
    key: KeyCode,
    m: int,
    w: int,
    h: int,
    chain: Seq<usize>,
    t1: int,
    t2: int,
)
    requires
        wf_entities(es0, w, h),
        is_direction(key),
        m == chain.len(),
        m >= 1,
        forall|j: int|
            0 <= j < m ==> (#[trigger] chain[j]) < es0.len() && es0[chain[j] as int].movable
                && at_cell(
                es0[chain[j] as int],
                chain_cell_x(px, j, key),
                chain_cell_y(py, j, key),
            ),
        in_bounds(chain_cell_x(px, m, key), chain_cell_y(py, m, key), w, h),
        !movable_at(es0, chain_cell_x(px, m, key), chain_cell_y(py, m, key)),
        w <= 256,
        h <= 256,
        0 <= t1 < es0.len(),
        0 <= t2 < es0.len(),
        apply_move(es0, px, py, key, m)[t1].movable,
        apply_move(es0, px, py, key, m)[t2].movable,
        same_xy(apply_move(es0, px, py, key, m)[t1], apply_move(es0, px, py, key, m)[t2]),
    ensures
        t1 == t2,
{
    let es1 = apply_move(es0, px, py, key, m);
    let c1 = es0[t1].movable && (es0[t1].position matches Some(p) && on_chain(p, px, py, key, m));
    let c2 = es0[t2].movable && (es0[t2].position matches Some(p) && on_chain(p, px, py, key, m));
    // Where an entity of es1 stands, in chain-cell terms when it moved.
    if c1 && c2 {
        let p1 = es0[t1].position->Some_0;
        let p2 = es0[t2].position->Some_0;
        let j1 = choose|j: int|
            0 <= j < m && p1.x == #[trigger] chain_cell_x(px, j, key) && p1.y == chain_cell_y(
                py,
                j,
                key,
            );
        let j2 = choose|j: int|
            0 <= j < m && p2.x == #[trigger] chain_cell_x(px, j, key) && p2.y == chain_cell_y(
                py,
                j,
                key,
            );
        lemma_cell_step(px, py, j1, key);
        lemma_cell_step(px, py, j2, key);
        lemma_bounded_cells(es0, px, py, key, m, w, h, chain, j1);
        lemma_bounded_cells(es0, px, py, key, m, w, h, chain, j2);
        lemma_cell_inj(px, py, j1 + 1, j2 + 1, key);
        assert(same_xy(es0[t1], es0[t2]));
    } else if c1 && !c2 {
        lemma_apply_move_mixed(es0, px, py, key, m, w, h, chain, t1, t2);
    } else if !c1 && c2 {
        lemma_apply_move_mixed(es0, px, py, key, m, w, h, chain, t2, t1);
    } else {
        assert(es1[t1] == es0[t1]);
        assert(es1[t2] == es0[t2]);
        assert(same_xy(es0[t1], es0[t2]));
    }
}

/// A moved entity cannot share its new cell with an unmoved movable.
proof fn lemma_apply_move_mixed(
    es0: Seq<EntityView>,
    px: int,
    py: int,
    key: KeyCode,
    m: int,
    w: int,
    h: int,
    chain: Seq<usize>,
    tm: int,
    ts: int,
)
    requires
        wf_entities(es0, w, h),
        is_direction(key),
        m == chain.len(),
        m >= 1,
        forall|j: int|
            0 <= j < m ==> (#[trigger] chain[j]) < es0.len() && es0[chain[j] as int].movable
                && at_cell(
                es0[chain[j] as int],
                chain_cell_x(px, j, key),
                chain_cell_y(py, j, key),
            ),
        in_bounds(chain_cell_x(px, m, key), chain_cell_y(py, m, key), w, h),
        !movable_at(es0, chain_cell_x(px, m, key), chain_cell_y(py, m, key)),
        w <= 256,
        h <= 256,
        0 <= tm < es0.len(),
        0 <= ts < es0.len(),
        es0[tm].movable && (es0[tm].position matches Some(p) && on_chain(p, px, py, key, m)),
        !(es0[ts].movable && (es0[ts].position matches Some(p) && on_chain(p, px, py, key, m))),
        apply_move(es0, px, py, key, m)[ts].movable,
        same_xy(apply_move(es0, px, py, key, m)[tm], apply_move(es0, px, py, key, m)[ts]),
    ensures
        tm == ts,
{
    let es1 = apply_move(es0, px, py, key, m);
    assert(es1[ts] == es0[ts]);
    let pm = es0[tm].position->Some_0;
    let jm = choose|j: int|
        0 <= j < m && pm.x == #[trigger] chain_cell_x(px, j, key) && pm.y == chain_cell_y(
            py,
            j,
            key,
        );
    lemma_cell_step(px, py, jm, key);
    lemma_bounded_cells(es0, px, py, key, m, w, h, chain, jm);
    // The unmoved movable stands on the chain cell jm + 1.
    let ps = es0[ts].position->Some_0;
    assert(ps.x == chain_cell_x(px, jm + 1, key) && ps.y == chain_cell_y(py, jm + 1, key));
    if jm + 1 < m {
        // That cell's movable is the chain entry, which moved: contradiction.
        assert(es0[chain[jm + 1] as int].movable && at_cell(
            es0[chain[jm + 1] as int],
            chain_cell_x(px, jm + 1, key),
            chain_cell_y(py, jm + 1, key),
        ));
        assert(same_xy(es0[ts], es0[chain[jm + 1] as int]));
        assert(ts == chain[jm + 1]);
        assert(on_chain(ps, px, py, key, m));
        assert(false);
    } else {
        // The free cell the chain moves into held no movable.
        assert(es0[ts].movable && at_cell(es0[ts], chain_cell_x(px, m, key), chain_cell_y(py, m, key)));
        assert(movable_at(es0, chain_cell_x(px, m, key), chain_cell_y(py, m, key)));
        assert(false);
    }
}

/// The new cell of chain member `j` stays on the grid.
proof fn lemma_bounded_cells(
    es0: Seq<EntityView>,
    px: int,
    py: int,
    key: KeyCode,
    m: int,
    w: int,
    h: int,
    chain: Seq<usize>,
    j: int,
)
    requires
        wf_entities(es0, w, h),
        is_direction(key),
        m == chain.len(),
        forall|jj: int|
            0 <= jj < m ==> (#[trigger] chain[jj]) < es0.len() && es0[chain[jj] as int].movable
                && at_cell(
                es0[chain[jj] as int],
                chain_cell_x(px, jj, key),
                chain_cell_y(py, jj, key),
            ),
        in_bounds(chain_cell_x(px, m, key), chain_cell_y(py, m, key), w, h),
        0 <= j < m,
    ensures
        in_bounds(chain_cell_x(px, j + 1, key), chain_cell_y(py, j + 1, key), w, h),
{
    if j + 1 < m {
        assert(at_cell(
            es0[chain[j + 1] as int],
            chain_cell_x(px, j + 1, key),
            chain_cell_y(py, j + 1, key),
        ));
        assert(wf_entity(es0[chain[j + 1] as int], w, h));
    }
}

/// `find_movable_at` over `u8` coordinates, shared by the scan.
fn find_movable_at_idx(entities: &Vec<Entity>, x: u8, y: u8) -> (r: Option<usize>)
    ensures
        match r {
            Some(i) => i < entities@.len() && entities.deep_view()[i as int].movable && at_cell(
                entities.deep_view()[i as int],
                x as int,
                y as int,
            ),
            None => !movable_at(entities.deep_view(), x as int, y as int),
        },
{
    crate::world::find_movable_at(entities, x, y)
}

/// `find_immovable_at` over `u8` coordinates, shared by the scan.
fn find_immovable_at_idx(entities: &Vec<Entity>, x: u8, y: u8) -> (r: Option<usize>)
    ensures
        match r {
            Some(i) => i < entities@.len() && entities.deep_view()[i as int].immovable && at_cell(
                entities.deep_view()[i as int],
                x as int,
                y as int,
            ),
            None => !immovable_at(entities.deep_view(), x as int, y as int),
        },
{
    crate::world::find_immovable_at(entities, x, y)
}

/// The movement resolver system.
pub struct InputSystem {}

impl InputSystem {
    /// Runs the resolver for one tick: players act in arena order, each
    /// popping the most recently pressed key while any is queued; a direction
    /// key pushes the player's chain one step when the run ahead ends at a
    /// free in-grid cell. The move counter rises by exactly one when anything
    /// moved this tick, regardless of chain length, and is otherwise
    /// unchanged. The play state and clock are untouched.
    pub fn run(&mut self, world: &mut World)
        requires
            old(world).wf(),
            old(world).gameplay.move_count < u32::MAX,
        ensures
            final(world).wf(),
            ({
                let r = run_players(
                    old(world).ents(),
                    old(world).input_queue.keys_pressed@,
                    0,
                    old(world).width as int,
                    old(world).height as int,
                );
                &&& final(world).ents() == r.0
                &&& final(world).input_queue.keys_pressed@ == r.1
                &&& final(world).gameplay.move_count == old(world).gameplay.move_count + (
                if r.2 {
                    1int
                } else {
                    0int
                })
            }),
            final(world).gameplay.state == old(world).gameplay.state,
            final(world).time == old(world).time,
            final(world).width == old(world).width,
            final(world).height == old(world).height,
    {
        let ghost w0 = *world;
        let ghost w = world.width as int;
        let ghost h = world.height as int;
        let ghost target = run_players(w0.ents(), w0.input_queue.keys_pressed@, 0, w, h);
        let n = world.entities.len();
        let mut moved_any = false;
        let mut i: usize = 0;
        while i < n
            invariant
                i <= n,
                n == world.entities@.len(),
                world.wf(),
                w == world.width as int,
                h == world.height as int,
                world.width == w0.width,
                world.height == w0.height,
                world.gameplay == w0.gameplay,
                world.time == w0.time,
                target == run_players(w0.ents(), w0.input_queue.keys_pressed@, 0, w, h),
                ({
                    let cont = run_players(
                        world.ents(),
                        world.input_queue.keys_pressed@,
                        i as int,
                        w,
                        h,
                    );
                    &&& target.0 == cont.0
                    &&& target.1 == cont.1
                    &&& target.2 == (moved_any || cont.2)
                }),
            decreases n - i,
        {
            let ghost es_i = world.ents();
            let ghost q_i = world.input_queue.keys_pressed@;
            let is_player = world.entities[i].player.is_some();
            let posopt = world.entities[i].position;
            proof {
                assert(es_i[i as int].player == is_player);
                assert(es_i[i as int].position == posopt);
            }
            let mut acted = false;
            if is_player {
                if let Some(p) = posopt {
                    if world.input_queue.keys_pressed.len() > 0 {
                        let keyopt = world.input_queue.keys_pressed.pop();
                        let key = match keyopt {
                            Some(k) => k,
                            None => {
                                proof {
                                    assert(false);
                                }
                                KeyCode::Other
                            },
                        };
                        proof {
                            assert(key == q_i.last());
                            assert(world.input_queue.keys_pressed@ == q_i.drop_last());
                            assert(wf_entity(es_i[i as int], w, h));
                            assert(in_bounds(p.x as int, p.y as int, w, h));
                        }
                        let moved = resolve_one(world, p.x, p.y, key);
                        if moved {
                            moved_any = true;
                        }
                        acted = true;
                        proof {
                            let r = resolve_key(es_i, p.x as int, p.y as int, key, w, h);
                            assert(world.ents() == r.0);
                            assert(run_players(es_i, q_i, i as int, w, h) == {
                                let rest = run_players(r.0, q_i.drop_last(), i + 1, w, h);
                                (rest.0, rest.1, r.1 || rest.2)
                            });
                        }
                    }
                }
            }
            proof {
                if !acted {
                    assert(!(es_i[i as int].player && es_i[i as int].position is Some
                        && q_i.len() > 0));
                    assert(run_players(es_i, q_i, i as int, w, h) == run_players(
                        es_i,
                        q_i,
                        i + 1,
                        w,
                        h,
                    ));
                }
            }
            i += 1;
        }
        proof {
            assert(run_players(world.ents(), world.input_queue.keys_pressed@, n as int, w, h) == (
                world.ents(),
                world.input_queue.keys_pressed@,
                false,
            ));
        }
        if moved_any {
            world.gameplay.move_count = world.gameplay.move_count + 1;
        }
    }
}

/// The run of movable pieces from cell `(px, py)`: when cells 0..=k of the
/// run hold movables with nothing immovable on them and the cell beyond is a
/// free in-grid cell, the run's length is exactly k + 1.
proof fn lemma_run_len_chain(
    es: Seq<EntityView>,
    px: int,
    py: int,
    key: KeyCode,
    k: int,
    w: int,
    h: int,
)
    requires
        wf_entities(es, w, h),
        is_direction(key),
        k >= 0,
        forall|j: int|
            0 <= j <= k ==> movable_at(es, #[trigger] chain_cell_x(px, j, key), chain_cell_y(py, j, key))
                && !immovable_at(es, chain_cell_x(px, j, key), chain_cell_y(py, j, key)),
        in_bounds(chain_cell_x(px, k + 1, key), chain_cell_y(py, k + 1, key), w, h),
        !movable_at(es, chain_cell_x(px, k + 1, key), chain_cell_y(py, k + 1, key)),
        !immovable_at(es, chain_cell_x(px, k + 1, key), chain_cell_y(py, k + 1, key)),
    ensures
        run_len(es, px, py, key, w, h) == Some((k + 1) as nat),
    decreases k,
{
    assert(chain_cell_x(px, 0, key) == px && chain_cell_y(py, 0, key) == py);
    assert(movable_at(es, px, py));
    let wit = choose|t: int| 0 <= t < es.len() && (#[trigger] es[t]).movable && at_cell(es[t], px, py);
    assert(wf_entity(es[wit], w, h));
    assert(in_bounds(px, py, w, h));
    let px2 = px + key_dx(key);
    let py2 = py + key_dy(key);
    lemma_cell_step(px, py, 0, key);
    if k == 0 {
        assert(chain_cell_x(px, 1, key) == px2 && chain_cell_y(py, 1, key) == py2);
        assert(run_len(es, px2, py2, key, w, h) == Some(0nat));
        assert(run_len(es, px, py, key, w, h) == Some(1nat));
    } else {
        assert forall|j: int| 0 <= j <= k - 1 implies movable_at(
            es,
            #[trigger] chain_cell_x(px2, j, key),
            chain_cell_y(py2, j, key),
        ) && !immovable_at(es, chain_cell_x(px2, j, key), chain_cell_y(py2, j, key)) by {
            lemma_cell_step(px, py, j, key);
            assert(chain_cell_x(px2, j, key) == chain_cell_x(px, j + 1, key));
            assert(chain_cell_y(py2, j, key) == chain_cell_y(py, j + 1, key));
        }
        lemma_cell_step(px, py, k, key);
        assert(chain_cell_x(px2, k, key) == chain_cell_x(px, k + 1, key));
        assert(chain_cell_y(py2, k, key) == chain_cell_y(py, k + 1, key));
        lemma_run_len_chain(es, px2, py2, key, k - 1, w, h);
        assert(run_len(es, px, py, key, w, h) == Some((k + 1) as nat));
    }
}

/// When the run's cells 0..=k hold movables and the cell beyond is immovable
/// or off the grid, the run is blocked.
proof fn lemma_run_len_blocked(
    es: Seq<EntityView>,
    px: int,
    py: int,
    key: KeyCode,
    k: int,
    w: int,
    h: int,
)
    requires
        wf_entities(es, w, h),
        is_direction(key),
        k >= 0,
        forall|j: int|
            0 <= j <= k ==> movable_at(es, #[trigger] chain_cell_x(px, j, key), chain_cell_y(py, j, key))
                && !immovable_at(es, chain_cell_x(px, j, key), chain_cell_y(py, j, key)),
        immovable_at(es, chain_cell_x(px, k + 1, key), chain_cell_y(py, k + 1, key)) || !in_bounds(
            chain_cell_x(px, k + 1, key),
            chain_cell_y(py, k + 1, key),
            w,
            h,
        ),
    ensures
        run_len(es, px, py, key, w, h) is None,
    decreases k,
{
    assert(chain_cell_x(px, 0, key) == px && chain_cell_y(py, 0, key) == py);
    assert(movable_at(es, px, py));
    let wit = choose|t: int| 0 <= t < es.len() && (#[trigger] es[t]).movable && at_cell(es[t], px, py);
    assert(wf_entity(es[wit], w, h));
    assert(in_bounds(px, py, w, h));
    let px2 = px + key_dx(key);
    let py2 = py + key_dy(key);
    lemma_cell_step(px, py, 0, key);
    if k == 0 {
        assert(chain_cell_x(px, 1, key) == px2 && chain_cell_y(py, 1, key) == py2);
        assert(run_len(es, px2, py2, key, w, h) is None);
    } else {
        assert forall|j: int| 0 <= j <= k - 1 implies movable_at(
            es,
            #[trigger] chain_cell_x(px2, j, key),
            chain_cell_y(py2, j, key),
        ) && !immovable_at(es, chain_cell_x(px2, j, key), chain_cell_y(py2, j, key)) by {
            lemma_cell_step(px, py, j, key);
            assert(chain_cell_x(px2, j, key) == chain_cell_x(px, j + 1, key));
            assert(chain_cell_y(py2, j, key) == chain_cell_y(py, j + 1, key));
        }
        lemma_cell_step(px, py, k, key);
        assert(chain_cell_x(px2, k, key) == chain_cell_x(px, k + 1, key));
        assert(chain_cell_y(py2, k, key) == chain_cell_y(py, k + 1, key));
        lemma_run_len_blocked(es, px2, py2, key, k - 1, w, h);
    }
}

/// A move changes positions only: tags and render data stay with their
/// entities, and an entity has a position afterwards iff it had one before.
proof fn lemma_apply_move_fields(es: Seq<EntityView>, px: int, py: int, key: KeyCode, n: int)
    ensures
        apply_move(es, px, py, key, n).len() == es.len(),
        forall|t: int|
            0 <= t < es.len() ==> {
                let e2 = #[trigger] apply_move(es, px, py, key, n)[t];
                e2.player == es[t].player && e2.movable == es[t].movable && e2.immovable
                    == es[t].immovable && e2.box_color == es[t].box_color && e2.spot_color
                    == es[t].spot_color && e2.paths == es[t].paths && (e2.position is Some
                    <==> es[t].position is Some)
            },
{
}

/// With no acting player from index `i` on, the tick's movement does nothing.
proof fn lemma_run_players_no_actor(es: Seq<EntityView>, q: Seq<KeyCode>, i: int, w: int, h: int)
    requires
        forall|j: int| i <= j < es.len() ==> !((#[trigger] es[j]).player && es[j].position is Some),
    ensures
        run_players(es, q, i, w, h) == (es, q, false),
    decreases es.len() - i,
{
    if 0 <= i < es.len() {
        lemma_run_players_no_actor(es, q, i + 1, w, h);
    }
}

/// With exactly one acting player, at index `pi`, the tick's movement is
/// that player's single action on the most recent key.
proof fn lemma_run_players_single(
    es: Seq<EntityView>,
    q: Seq<KeyCode>,
    i: int,
    pi: int,
    w: int,
    h: int,
)
    requires
        0 <= i <= pi < es.len(),
        es[pi].player && es[pi].position is Some,
        forall|j: int|
            i <= j < es.len() && j != pi ==> !((#[trigger] es[j]).player && es[j].position is Some),
        q.len() > 0,
    ensures
        run_players(es, q, i, w, h) == ({
            let p = es[pi].position->Some_0;
            let r = resolve_key(es, p.x as int, p.y as int, q.last(), w, h);
            (r.0, q.drop_last(), r.1)
        }),
    decreases pi - i,
{
    if i < pi {
        lemma_run_players_single(es, q, i + 1, pi, w, h);
    } else {
        let p = es[pi].position->Some_0;
        let r = resolve_key(es, p.x as int, p.y as int, q.last(), w, h);
        lemma_apply_move_fields(es, p.x as int, p.y as int, q.last(), run_len(es, p.x as int, p.y as int, q.last(), w, h)->Some_0 as int);
        assert(r.0.len() == es.len());
        assert forall|j: int| pi + 1 <= j < r.0.len() implies !((#[trigger] r.0[j]).player
            && r.0[j].position is Some) by {
            assert(r.0[j].player == es[j].player);
            assert(r.0[j].position is Some <==> es[j].position is Some);
        }
        lemma_run_players_no_actor(r.0, q.drop_last(), pi + 1, w, h);
    }
}

/// Law: with a single player, a direction key whose run ahead holds `k`
/// consecutive movable pieces and then a free in-grid cell moves the player
/// and all `k` pieces one step each (`k` = 1 is the single-box push), and the
/// tick reports exactly one move, however long the chain. Combined with the
/// resolver's contract, the move counter rises by exactly one.
pub proof fn lemma_push_chain(
    es: Seq<EntityView>,
    q: Seq<KeyCode>,
    pi: int,
    k: int,
    w: int,
    h: int,
)
    requires
        wf_entities(es, w, h),
        0 <= pi < es.len(),
        es[pi].player && es[pi].position is Some,
        forall|j: int|
            0 <= j < es.len() && j != pi ==> !((#[trigger] es[j]).player && es[j].position is Some),
        q.len() > 0,
        is_direction(q.last()),
        k >= 0,
        ({
            let px = es[pi].position->Some_0.x as int;
            let py = es[pi].position->Some_0.y as int;
            let key = q.last();
            &&& forall|j: int|
                0 <= j <= k ==> movable_at(es, #[trigger] chain_cell_x(px, j, key), chain_cell_y(py, j, key))
                    && !immovable_at(es, chain_cell_x(px, j, key), chain_cell_y(py, j, key))
            &&& in_bounds(chain_cell_x(px, k + 1, key), chain_cell_y(py, k + 1, key), w, h)
            &&& !movable_at(es, chain_cell_x(px, k + 1, key), chain_cell_y(py, k + 1, key))
            &&& !immovable_at(es, chain_cell_x(px, k + 1, key), chain_cell_y(py, k + 1, key))
        }),
    ensures
        ({
            let px = es[pi].position->Some_0.x as int;
            let py = es[pi].position->Some_0.y as int;
            let key = q.last();
            let r = run_players(es, q, 0, w, h);
            &&& r.0 == apply_move(es, px, py, key, k + 1)
            &&& r.1 == q.drop_last()
            &&& r.2 == true
            &&& forall|t: int|
                0 <= t < es.len() && (#[trigger] es[t]).movable && (es[t].position matches Some(p)
                    && on_chain(p, px, py, key, k + 1)) ==> r.0[t] == shifted(es[t], key)
            &&& forall|t: int|
                0 <= t < es.len() && !((#[trigger] es[t]).movable && (es[t].position matches Some(
                    p,
                ) && on_chain(p, px, py, key, k + 1))) ==> r.0[t] == es[t]
        }),
{
    let px = es[pi].position->Some_0.x as int;
    let py = es[pi].position->Some_0.y as int;
    let key = q.last();
    lemma_run_len_chain(es, px, py, key, k, w, h);
    lemma_run_players_single(es, q, 0, pi, w, h);
}

/// Law: with a single player, a push whose run of `k` movable pieces ends at
/// an immovable entity, or at the grid edge, moves nothing: the entities are
/// unchanged and the tick reports no move, so the move counter stays as it
/// was.
pub proof fn lemma_push_blocked(
    es: Seq<EntityView>,
    q: Seq<KeyCode>,
    pi: int,
    k: int,
    w: int,
    h: int,
)
    requires
        wf_entities(es, w, h),
        0 <= pi < es.len(),
        es[pi].player && es[pi].position is Some,
        forall|j: int|
            0 <= j < es.len() && j != pi ==> !((#[trigger] es[j]).player && es[j].position is Some),
        q.len() > 0,
        is_direction(q.last()),
        k >= 0,
        ({
            let px = es[pi].position->Some_0.x as int;
            let py = es[pi].position->Some_0.y as int;
            let key = q.last();
            &&& forall|j: int|
                0 <= j <= k ==> movable_at(es, #[trigger] chain_cell_x(px, j, key), chain_cell_y(py, j, key))
                    && !immovable_at(es, chain_cell_x(px, j, key), chain_cell_y(py, j, key))
            &&& (immovable_at(es, chain_cell_x(px, k + 1, key), chain_cell_y(py, k + 1, key))
                || !in_bounds(chain_cell_x(px, k + 1, key), chain_cell_y(py, k + 1, key), w, h))
        }),
    ensures
        run_players(es, q, 0, w, h) == (es, q.drop_last(), false),
{
    let px = es[pi].position->Some_0.x as int;
    let py = es[pi].position->Some_0.y as int;
    let key = q.last();
    lemma_run_len_blocked(es, px, py, key, k, w, h);
    lemma_run_players_single(es, q, 0, pi, w, h);
}

} // verus!
