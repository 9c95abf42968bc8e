//! What the core hands a renderer: for every entity with a position and
//! render data, the asset to draw right now (animation frames chosen from
//! elapsed time) at its grid position, in draw order of ascending layer.

use vstd::prelude::*;

use crate::components::Position;
use vstd::multiset::Multiset;
use crate::world::{EntityView, World};

verus! {

/// One item for the host to draw: a grid position and the asset reference
/// that is active at the queried time.
pub struct DrawItem {
    pub position: Position,
    pub path: String,
}

/// The mathematical image of a draw item.
#[verifier::ext_equal]
pub struct DrawItemView {
    pub position: Position,
    pub path: Seq<char>,
}

impl View for DrawItem {
    type V = DrawItemView;

    open spec fn view(&self) -> DrawItemView {
        DrawItemView { position: self.position, path: self.path@ }
    }
}

impl DeepView for DrawItem {
    type V = DrawItemView;

    open spec fn deep_view(&self) -> DrawItemView {
        self.view()
    }
}

/// Whether the renderer draws this entity at all.
pub open spec fn is_drawable(e: EntityView) -> bool {
    e.position is Some && e.paths is Some
}

/// The active frame of a renderable with the given references after
/// `delta_ms` elapsed milliseconds: frame 0 when static, else one step every
/// 250 ms within a 1000 ms cycle.
pub open spec fn frame_for(paths: Seq<Seq<char>>, delta_ms: u64) -> int {
    if paths.len() == 1 {
        0
    } else {
        (delta_ms as int % 1000) / 250
    }
}

/// The draw item of one drawable entity at the queried time.
pub open spec fn item_of(e: EntityView, delta_ms: u64) -> DrawItemView {
    let ps = e.paths->Some_0;
    DrawItemView {
        position: e.position->Some_0,
        path: ps[frame_for(ps, delta_ms) % ps.len() as int],
    }
}

/// The draw items of the first `i` entities, in arena order.
pub open spec fn draw_items_upto(es: Seq<EntityView>, delta_ms: u64, i: int) -> Seq<DrawItemView>
    decreases i,
{
    if i <= 0 {
        Seq::empty()
    } else {
        draw_items_upto(es, delta_ms, i - 1) + (if is_drawable(es[i - 1]) {
            seq![item_of(es[i - 1], delta_ms)]
        } else {
            Seq::empty()
        })
    }
}

/// The draw items of every entity, in arena order.
pub open spec fn draw_items(es: Seq<EntityView>, delta_ms: u64) -> Seq<DrawItemView> {
    draw_items_upto(es, delta_ms, es.len() as int)
}

/// Draw order: layers never decrease along the sequence.
pub open spec fn sorted_by_layer(s: Seq<DrawItemView>) -> bool {
    forall|i: int, j: int| 0 <= i <= j < s.len() ==> (#[trigger] s[i]).position.z <= (#[trigger] s[j]).position.z
}

proof fn lemma_insert_to_multiset(s: Seq<DrawItemView>, i: int, v: DrawItemView)
    requires
        0 <= i <= s.len(),
    ensures
        s.insert(i, v).to_multiset() =~= s.to_multiset().insert(v),
{
    broadcast use vstd::seq_lib::group_to_multiset_ensures;

    let t = s.insert(i, v);
    assert(t.remove(i) =~= s);
    assert(t.remove(i).to_multiset() =~= t.to_multiset().remove(t[i]));
    assert(t[i] == v);
    assert(t.to_multiset().count(v) > 0) by {
        assert(t.contains(v));
    }
    assert forall|x: DrawItemView| t.to_multiset().count(x) == s.to_multiset().insert(v).count(
        x,
    ) by {
        if x == v {
            assert(s.to_multiset().count(v) == t.to_multiset().remove(v).count(v));
        } else {
            assert(s.to_multiset().count(x) == t.to_multiset().remove(v).count(x));
        }
    }
}

/// Everything to draw this frame, in ascending layer order (`z`): the same
/// items, as a multiset, that the entities describe at the queried time, with
/// ties broken arbitrarily.
pub fn rendering_order(world: &World, delta_ms: u64) -> (r: Vec<DrawItem>)
    ensures
        r.deep_view().to_multiset() == draw_items(world.ents(), delta_ms).to_multiset(),
        sorted_by_layer(r.deep_view()),
{
    let ghost es = world.ents();
    let ghost target = draw_items(es, delta_ms);
    let mut items: Vec<DrawItem> = Vec::new();
    proof {
        assert(items.deep_view() =~= draw_items_upto(es, delta_ms, 0));
    }
    let n = world.entities.len();
    let mut i: usize = 0;
    while i < n
        invariant
            i <= n,
            n == world.entities@.len(),
            es == world.ents(),
            target == draw_items(es, delta_ms),
            items.deep_view() == draw_items_upto(es, delta_ms, i as int),
        decreases n - i,
    {
        let posopt = world.entities[i].position;
        let ghost pre = items.deep_view();
        if let Some(p) = posopt {
            match &world.entities[i].renderable {
                Some(rend) => {
                    let frame = rend.frame_index(delta_ms);
                    let path = rend.path(frame);
                    items.push(DrawItem { position: p, path });
                    proof {
                        assert(is_drawable(es[i as int]));
                        assert(items.deep_view() =~= pre.push(item_of(es[i as int], delta_ms)));
                        assert(pre.push(item_of(es[i as int], delta_ms)) =~= pre + seq![
                            item_of(es[i as int], delta_ms),
                        ]);
                    }
                },
                None => {
                    proof {
                        assert(!is_drawable(es[i as int]));
                        assert(items.deep_view() =~= draw_items_upto(es, delta_ms, i + 1));
                    }
                },
            }
        } else {
            proof {
                assert(!is_drawable(es[i as int]));
                assert(items.deep_view() =~= draw_items_upto(es, delta_ms, i + 1));
            }
        }
        i += 1;
    }
    proof {
        assert(items.deep_view() == target);
    }

    // Insertion sort by layer.
    broadcast use vstd::seq_lib::group_to_multiset_ensures;

    let mut out: Vec<DrawItem> = Vec::new();
    proof {
        assert(out.deep_view() =~= Seq::<DrawItemView>::empty());
        assert(out.deep_view().to_multiset().add(items.deep_view().to_multiset())
            =~= target.to_multiset());
    }
    while items.len() > 0
        invariant
            target == draw_items(es, delta_ms),
            sorted_by_layer(out.deep_view()),
            out.deep_view().to_multiset().add(items.deep_view().to_multiset())
                == target.to_multiset(),
        decreases items@.len(),
    {
        let ghost items_pre = items.deep_view();
        let it = match items.pop() {
            Some(it) => it,
            None => {
                proof {
                    assert(false);
                }
                DrawItem { position: Position { x: 0, y: 0, z: 0 }, path: String::new() }
            },
        };
        proof {
            assert(items_pre =~= items.deep_view().push(it@));
            items.deep_view().to_multiset_ensures();
            assert(items.deep_view().push(it@).to_multiset() =~= items.deep_view().to_multiset()
                .insert(it@));
            assert(items_pre.to_multiset() =~= items.deep_view().to_multiset().insert(it@));
        }
        let mut idx: usize = 0;
        while idx < out.len() && out[idx].position.z <= it.position.z
            invariant
                idx <= out@.len(),
                forall|j: int| 0 <= j < idx ==> (#[trigger] out.deep_view()[j]).position.z <= it@.position.z,
            decreases out@.len() - idx,
        {
            idx += 1;
        }
        let ghost out_pre = out.deep_view();
        out.insert(idx, it);
        proof {
            assert(out.deep_view() =~= out_pre.insert(idx as int, it@));
            lemma_insert_to_multiset(out_pre, idx as int, it@);
            let cur = out.deep_view();
            assert forall|a: int, b: int| 0 <= a <= b < cur.len() implies (
            #[trigger] cur[a]).position.z <= (#[trigger] cur[b]).position.z by {
                if a < idx {
                    assert(cur[a] == out_pre[a]);
                } else if a == idx {
                    assert(cur[a] == it@);
                } else {
                    assert(cur[a] == out_pre[a - 1]);
                }
                if b < idx {
                    assert(cur[b] == out_pre[b]);
                } else if b == idx {
                    assert(cur[b] == it@);
                } else {
                    assert(cur[b] == out_pre[b - 1]);
                }
                if idx < out_pre.len() {
                    assert(out_pre[idx as int].position.z > it@.position.z);
                }
            }
        }
    }
    proof {
        assert(items.deep_view() =~= Seq::<DrawItemView>::empty());
        assert(items.deep_view().to_multiset() =~= Multiset::<DrawItemView>::empty());
        assert(out.deep_view().to_multiset() =~= target.to_multiset());
    }
    out
}

} // verus!
