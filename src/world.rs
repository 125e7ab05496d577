//! A world of entities: their components, their ordered children, and the
//! bookkeeping that reconciliation keeps on them.
use vstd::prelude::*;
use vstd::hash_map::HashMapWithView;
use vstd::hash_set::HashSetWithView;

use crate::byte_holder::{ByteHolder, PlainData};
use crate::component_holder::ComponentHolder;
use crate::tree::{
    holders_map, queued_types, lemma_queued_push, lemma_depth_exists, lemma_depth_monotone, lemma_holders_map_contains,
    lemma_holders_map_push, lemma_types_no_duplicates, NodeTree,
};

verus! {

broadcast use vstd::std_specs::hash::axiom_u64_obeys_hash_table_key_model;

/// What was applied to an entity by its last reconciliation: the component
/// types, in the order in which the node listed them.
pub struct PreviousTemplate {
    pub component_types: Vec<u64>,
}

/// One entity of the world. A despawned entity keeps its slot, marked dead.
pub struct EntityRecord {
    pub alive: bool,
    pub parent: Option<usize>,
    pub children: Vec<usize>,
    pub components: HashMapWithView<u64, ByteHolder>,
    pub template: Option<PreviousTemplate>,
    /// Child trees still waiting to be unpacked into child entities.
    pub pending: Option<Vec<NodeTree>>,
}

/// The component types that a previous template records, as a set.
pub open spec fn template_types(t: Option<PreviousTemplate>) -> Set<u64> {
    match t {
        Some(p) => p.component_types@.to_set(),
        None => Set::empty(),
    }
}

/// The components that an entity has once a node describing `node` is applied
/// to it: those of the last template that the node no longer has are gone, the
/// node's own are set, and the others stay as they were.
pub open spec fn applied_components(
    before: Map<u64, ByteHolder>,
    template: Set<u64>,
    node: Map<u64, ByteHolder>,
) -> Map<u64, ByteHolder> {
    before.remove_keys(template.difference(node.dom())).union_prefer_right(node)
}

/// The types that a template records after a node is applied are the types
/// of the node's components.
pub proof fn lemma_recorded_types(t: &NodeTree)
    ensures
        t.components@.map_values(|h: ComponentHolder| h.spec_type_id()).to_set() == t.component_map().dom(),
{
    let s = t.components@;
    let ks = s.map_values(|h: ComponentHolder| h.spec_type_id());
    assert forall|k: u64| ks.to_set().contains(k) <==> t.component_map().dom().contains(k) by {
        lemma_holders_map_contains(s, k);
        if ks.contains(k) {
            let i = choose|i: int| 0 <= i < ks.len() && ks[i] == k;
            assert(s[i].spec_type_id() == k);
        }
        if exists|i: int| 0 <= i < s.len() && (#[trigger] s[i]).spec_type_id() == k {
            let i = choose|i: int| 0 <= i < s.len() && (#[trigger] s[i]).spec_type_id() == k;
            assert(ks[i] == k);
        }
    };
    assert(ks.to_set() =~= t.component_map().dom());
}

/// Applying a second node with the same component types right after a first
/// one leaves the entity as if only the second had been applied: nothing is
/// added twice and nothing is removed that the second node has. With equal
/// values, the entity stays as the first application left it.
pub proof fn lemma_reapply_same_shape(
    before: Map<u64, ByteHolder>,
    template: Set<u64>,
    first: Map<u64, ByteHolder>,
    second: Map<u64, ByteHolder>,
)
    requires
        first.dom() == second.dom(),
    ensures
        applied_components(applied_components(before, template, first), first.dom(), second)
            == applied_components(before, template, second),
        first == second ==> applied_components(
            applied_components(before, template, first),
            first.dom(),
            second,
        ) == applied_components(before, template, first),
{
    assert(first.dom().difference(second.dom()) =~= Set::empty());
    assert(applied_components(applied_components(before, template, first), first.dom(), second)
        =~= applied_components(before, template, second));
}

/// A component type that the last node had and the next one lacks is gone
/// after the next one is applied; the next node's components are all there,
/// with its values.
pub proof fn lemma_disappeared_removed(
    before: Map<u64, ByteHolder>,
    template: Set<u64>,
    first: Map<u64, ByteHolder>,
    second: Map<u64, ByteHolder>,
)
    ensures
        forall|k: u64|
            first.contains_key(k) && !second.contains_key(k) ==> !#[trigger] applied_components(
                applied_components(before, template, first),
                first.dom(),
                second,
            ).contains_key(k),
        forall|k: u64|
            #[trigger] second.contains_key(k) ==> applied_components(
                applied_components(before, template, first),
                first.dom(),
                second,
            )[k] == second[k],
        before.dom().subset_of(template) ==> applied_components(
            applied_components(before, template, first),
            first.dom(),
            second,
        ).dom() == second.dom(),
{
    let after = applied_components(applied_components(before, template, first), first.dom(), second);
    if before.dom().subset_of(template) {
        assert(after.dom() =~= second.dom());
    }
}

/// In a well-formed world everything below a despawned entity is despawned.
pub proof fn lemma_dead_subtree(w: &World, e: int, j: int)
    requires
        w.wf(),
        0 <= e < w.len(),
        !w.alive(e),
        0 <= j < w.children_of(e).len(),
    ensures
        !w.alive(w.children_of(e)[j] as int),
{
}

/// A world whose waiting trees are at most `d` deep has nothing waiting after
/// `d + 1` scheduler passes: `ws` are the states between passes, each pass
/// taking a depth bound one level down.
pub proof fn lemma_passes_to_rest(ws: Seq<World>, d: int)
    requires
        d >= -1,
        ws.len() == d + 2,
        ws[0].pending_within(d),
        forall|k: int, b: int|
            0 <= k < d + 1 && b >= 0 && #[trigger] ws[k].pending_within(b) ==> ws[k + 1].pending_within(b - 1),
    ensures
        ws[d + 1].pending_within(-1),
    decreases d + 1,
{
    if d >= 0 {
        assert(ws[1].pending_within(d - 1));
        lemma_passes_to_rest(ws.subrange(1, ws.len() as int), d - 1);
        assert(ws.subrange(1, ws.len() as int)[d] == ws[d + 1]);
    }
}

/// `after` is `before` despawned: dead, with no components and nothing pending.
pub open spec fn killed(before: EntityRecord, after: EntityRecord) -> bool {
    &&& !after.alive
    &&& after.pending.is_none()
    &&& after.components@.is_empty()
    &&& after.parent == before.parent
    &&& after.children == before.children
    &&& after.template == before.template
}

/// Well-formedness is a property of the entities alone.
pub proof fn lemma_wf_depends_on_entities(a: &World, b: &World)
    requires
        a.wf(),
        a.entities@ == b.entities@,
    ensures
        b.wf(),
{
    assert forall|e: int, j: int|
        0 <= e < b.len() && 0 <= j < b.children_of(e).len() implies {
        let c = #[trigger] b.children_of(e)[j] as int;
        &&& e < c < b.len()
        &&& b.entities@[c].parent == Some(e as usize)
        &&& b.alive(c) == b.alive(e)
    } by {
        assert(a.children_of(e)[j] == b.children_of(e)[j]);
    };
    assert forall|e: int, j1: int, j2: int|
        0 <= e < b.len() && 0 <= j1 < j2 < b.children_of(e).len() implies #[trigger] b.children_of(e)[j1]
            != #[trigger] b.children_of(e)[j2] by {
        assert(a.children_of(e)[j1] == b.children_of(e)[j1]);
        assert(a.children_of(e)[j2] == b.children_of(e)[j2]);
    };
}

/// A pending list that stems from the lists waiting in `w`: the children of
/// one of their trees.
pub open spec fn stems_from(w: World, p: Option<Vec<NodeTree>>) -> bool {
    p.is_none() || exists|y: int, i: int|
        0 <= y < w.len() && (#[trigger] w.entities@[y]).pending.is_some() && 0 <= i
            < w.entities@[y].pending.unwrap()@.len() && p == Some(
            #[trigger] w.entities@[y].pending.unwrap()@[i].children,
        )
}

/// Some depth bounds every tree waiting in a world.
pub proof fn lemma_pending_depth_exists(w: &World, n: int) -> (d: int)
    requires
        0 <= n <= w.len(),
    ensures
        d >= -1,
        forall|e: int| 0 <= e < n ==> match (#[trigger] w.entities@[e]).pending {
            None => true,
            Some(l) => d >= 0 && forall|i: int| 0 <= i < l@.len() ==> (#[trigger] l@[i]).depth_within(d),
        },
    decreases n,
{
    if n == 0 {
        -1
    } else {
        let d0 = lemma_pending_depth_exists(w, n - 1);
        match w.entities@[n - 1].pending {
            None => d0,
            Some(l) => {
                let dl = lemma_list_depth_exists(l@, l@.len() as int);
                let d = if d0 > dl { d0 } else { dl };
                assert forall|e: int| 0 <= e < n implies match (#[trigger] w.entities@[e]).pending {
                    None => true,
                    Some(l) => d >= 0 && forall|i: int| 0 <= i < l@.len() ==> (#[trigger] l@[i]).depth_within(d),
                } by {
                    if let Some(le) = w.entities@[e].pending {
                        assert forall|i: int| 0 <= i < le@.len() implies (#[trigger] le@[i]).depth_within(d) by {
                            if e < n - 1 {
                                lemma_depth_monotone(&le@[i], d0, d);
                            } else {
                                lemma_depth_monotone(&le@[i], dl, d);
                            }
                        };
                    }
                };
                d
            },
        }
    }
}

/// Some depth bounds the first `n` trees of a list.
proof fn lemma_list_depth_exists(l: Seq<NodeTree>, n: int) -> (d: int)
    requires
        0 <= n <= l.len(),
    ensures
        d >= 0,
        forall|i: int| 0 <= i < n ==> (#[trigger] l[i]).depth_within(d),
    decreases n,
{
    if n == 0 {
        0
    } else {
        let d0 = lemma_list_depth_exists(l, n - 1);
        let dt = lemma_depth_exists(&l[n - 1]);
        let d = if d0 > dt { d0 } else { dt };
        assert forall|i: int| 0 <= i < n implies (#[trigger] l[i]).depth_within(d) by {
            if i < n - 1 {
                lemma_depth_monotone(&l[i], d0, d);
            } else {
                lemma_depth_monotone(&l[i], dt, d);
            }
        };
        d
    }
}

/// Once every pending list stems from those of `before`, whose trees are at
/// most `d` deep, every pending list holds trees at most `d - 1` deep.
pub proof fn lemma_stems_shallower(before: World, after: World, d: int)
    requires
        before.pending_within(d),
        forall|x: int| 0 <= x < after.len() ==> stems_from(before, #[trigger] after.entities@[x].pending),
    ensures
        after.pending_within(d - 1),
{
    assert forall|x: int| 0 <= x < after.len() implies match (#[trigger] after.entities@[x]).pending {
        None => true,
        Some(l) => d - 1 >= 0 && forall|i: int| 0 <= i < l@.len() ==> (#[trigger] l@[i]).depth_within(d - 1),
    } by {
        if after.entities@[x].pending.is_some() {
            assert(stems_from(before, after.entities@[x].pending));
            let (y, i) = choose|y: int, i: int|
                0 <= y < before.len() && (#[trigger] before.entities@[y]).pending.is_some() && 0 <= i
                    < before.entities@[y].pending.unwrap()@.len() && after.entities@[x].pending == Some(
                    #[trigger] before.entities@[y].pending.unwrap()@[i].children,
                );
            let t = before.entities@[y].pending.unwrap()@[i];
            assert(t.depth_within(d));
        }
    };
}

/// Changing only the components of entities keeps a world well formed.
pub proof fn lemma_wf_same_shape(a: &World, b: &World)
    requires
        a.wf(),
        a.len() == b.len(),
        forall|x: int| 0 <= x < b.len() ==> {
            &&& #[trigger] b.entities@[x].alive == a.entities@[x].alive
            &&& b.entities@[x].parent == a.entities@[x].parent
            &&& b.entities@[x].children == a.entities@[x].children
            &&& b.entities@[x].pending == a.entities@[x].pending
        },
    ensures
        b.wf(),
{
    assert forall|e: int, j: int|
        0 <= e < b.len() && 0 <= j < b.children_of(e).len() implies {
        let c = #[trigger] b.children_of(e)[j] as int;
        &&& e < c < b.len()
        &&& b.entities@[c].parent == Some(e as usize)
        &&& b.alive(c) == b.alive(e)
    } by {
        assert(b.entities@[e].alive == a.entities@[e].alive);
        assert(a.children_of(e)[j] == b.children_of(e)[j]);
        let c = a.children_of(e)[j] as int;
        assert(b.entities@[c].alive == a.entities@[c].alive);
    };
    assert forall|e: int, j1: int, j2: int|
        0 <= e < b.len() && 0 <= j1 < j2 < b.children_of(e).len() implies #[trigger] b.children_of(e)[j1]
            != #[trigger] b.children_of(e)[j2] by {
        assert(b.entities@[e].alive == a.entities@[e].alive);
        assert(a.children_of(e)[j1] == b.children_of(e)[j1]);
        assert(a.children_of(e)[j2] == b.children_of(e)[j2]);
    };
    assert forall|e: int, i: int|
        0 <= e < b.len() && b.entities@[e].pending.is_some() && 0 <= i
            < b.entities@[e].pending.unwrap()@.len() implies (
        #[trigger] b.entities@[e].pending.unwrap()@[i]).wf() by {
        assert(b.entities@[e].alive == a.entities@[e].alive);
    };
    assert forall|e: int| 0 <= e < b.len() && !b.alive(e) implies (
    #[trigger] b.entities@[e]).pending.is_none() by {
        assert(b.entities@[e].alive == a.entities@[e].alive);
    };
}

/// Taking pending lists away keeps a world well formed.
pub proof fn lemma_wf_after_taking(a: &World, b: &World)
    requires
        a.wf(),
        a.len() == b.len(),
        forall|x: int| 0 <= x < b.len() ==> (#[trigger] b.entities@[x]).pending.is_none(),
        forall|x: int| 0 <= x < b.len() ==> {
            &&& #[trigger] b.entities@[x].alive == a.entities@[x].alive
            &&& b.entities@[x].parent == a.entities@[x].parent
            &&& b.entities@[x].children == a.entities@[x].children
        },
    ensures
        b.wf(),
{
    assert forall|e: int, j: int|
        0 <= e < b.len() && 0 <= j < b.children_of(e).len() implies {
        let c = #[trigger] b.children_of(e)[j] as int;
        &&& e < c < b.len()
        &&& b.entities@[c].parent == Some(e as usize)
        &&& b.alive(c) == b.alive(e)
    } by {
        assert(b.entities@[e].alive == a.entities@[e].alive);
        assert(a.children_of(e)[j] == b.children_of(e)[j]);
        let c = a.children_of(e)[j] as int;
        assert(b.entities@[c].alive == a.entities@[c].alive);
    };
    assert forall|e: int, j1: int, j2: int|
        0 <= e < b.len() && 0 <= j1 < j2 < b.children_of(e).len() implies #[trigger] b.children_of(e)[j1]
            != #[trigger] b.children_of(e)[j2] by {
        assert(b.entities@[e].alive == a.entities@[e].alive);
        assert(a.children_of(e)[j1] == b.children_of(e)[j1]);
        assert(a.children_of(e)[j2] == b.children_of(e)[j2]);
    };
}

/// `x` is dead in `after`, and so is the parent it had in `before`.
pub open spec fn died_with_parent(before: World, after: World, x: int) -> bool {
    &&& !after.alive(x)
    &&& before.entities@[x].parent.is_some()
    &&& !after.alive(before.entities@[x].parent.unwrap() as int)
}

/// `a + b`, or the largest `usize` where that overflows.
pub open spec fn sat_add(a: usize, b: nat) -> usize {
    if a + b > usize::MAX {
        usize::MAX
    } else {
        (a + b) as usize
    }
}

/// `y` is being built after the trees `l`, with `work` the lists taken out
/// for the current pass: either `l` still waits on `y` (as its pending list or
/// in `work`), or `y` has one child per tree, each carrying that tree's
/// components and template and, recursively, being built after its children.
pub open spec fn growing_in(w: World, y: int, l: Vec<NodeTree>, work: Seq<(usize, Vec<NodeTree>)>) -> bool
    decreases l,
{
    &&& 0 <= y < w.len()
    &&& w.alive(y)
    &&& (w.entities@[y].pending == Some(l) || (w.entities@[y].pending.is_none() && exists|m: int|
        0 <= m < work.len() && (#[trigger] work[m]).0 == y && work[m].1 == l) || (w.entities@[y].pending.is_none()
        && (forall|m: int| 0 <= m < work.len() ==> (#[trigger] work[m]).0 != y) && w.children_of(y).len()
        == l@.len() && forall|i: int|
        0 <= i < l@.len() ==> {
            let c = w.children_of(y)[i] as int;
            &&& template_types(w.entities@[c].template) == (#[trigger] l@[i]).component_map().dom()
            &&& l@[i].component_map().submap_of(w.components_of(c))
            &&& growing_in(w, c, l@[i].children, work)
        }))
}

/// `y` has been built after the trees `l`: one live child per tree, in order,
/// each with the tree's components and a template of exactly its types, and
/// so on down; nothing waits anywhere in it.
pub open spec fn built(w: World, y: int, l: Vec<NodeTree>) -> bool
    decreases l,
{
    &&& 0 <= y < w.len()
    &&& w.alive(y)
    &&& w.entities@[y].pending.is_none()
    &&& w.children_of(y).len() == l@.len()
    &&& forall|i: int|
        0 <= i < l@.len() ==> {
            let c = w.children_of(y)[i] as int;
            &&& template_types(w.entities@[c].template) == (#[trigger] l@[i]).component_map().dom()
            &&& l@[i].component_map().submap_of(w.components_of(c))
            &&& built(w, c, l@[i].children)
        }
}

/// What unpacking `lf` into the children of `f` does, as far as the building
/// of trees needs it; a despawned `f` is passed over.
pub open spec fn unpack_step(pre: World, post: World, f: int, lf: Vec<NodeTree>) -> bool {
    if pre.alive(f) {
        &&& 0 <= f < pre.len() <= post.len()
        &&& post.alive(f)
        &&& post.entities@[f].pending == pre.entities@[f].pending
        &&& post.entities@[f].template == pre.entities@[f].template
        &&& post.entities@[f].components == pre.entities@[f].components
        &&& post.children_of(f).len() == lf@.len()
        &&& forall|z: int| 0 <= z < pre.len() ==> #[trigger] post.entities@[z].parent == pre.entities@[z].parent
        &&& forall|i: int|
            0 <= i < lf@.len() ==> {
                let c = #[trigger] post.children_of(f)[i] as int;
                &&& post.alive(c)
                &&& post.entities@[c].pending == Some(lf@[i].children)
                &&& template_types(post.entities@[c].template) == lf@[i].component_map().dom()
                &&& lf@[i].component_map().submap_of(post.components_of(c))
            }
        &&& forall|x: int|
            0 <= x < pre.len() && x != f && pre.entities@[x].parent != Some(f as usize)
                ==> #[trigger] post.entities@[x] == pre.entities@[x] || died_with_parent(pre, post, x)
    } else {
        post.entities@ == pre.entities@
    }
}

/// A node's components are among those of the entity it is applied to.
pub proof fn lemma_applied_has_node(before: Map<u64, ByteHolder>, template: Set<u64>, node: Map<u64, ByteHolder>)
    ensures
        node.submap_of(applied_components(before, template, node)),
{
}

/// One unpacking step keeps every tree under construction growing, provided
/// its top is no child of the unpacked entity and its parent survives.
pub proof fn lemma_growing_step(
    pre: World,
    post: World,
    f: usize,
    lf: Vec<NodeTree>,
    rest: Seq<(usize, Vec<NodeTree>)>,
    y: int,
    l: Vec<NodeTree>,
)
    requires
        pre.wf(),
        post.wf(),
        f < pre.len(),
        unpack_step(pre, post, f as int, lf),
        forall|m: int| 0 <= m < rest.len() ==> (#[trigger] rest[m]).0 != f,
        growing_in(pre, y, l, seq![(f, lf)] + rest),
        pre.entities@[y].parent != Some(f),
        pre.entities@[y].parent.is_some() ==> post.alive(pre.entities@[y].parent.unwrap() as int),
    ensures
        growing_in(post, y, l, rest),
        y != f ==> post.entities@[y] == pre.entities@[y],
    decreases l,
{
    let work = seq![(f, lf)] + rest;
    assert(work[0] == (f, lf));
    assert forall|m: int| 0 <= m < rest.len() implies work[m + 1] == #[trigger] rest[m] by {};
    if y == f {
        assert(pre.alive(f as int));
        if pre.entities@[y].pending != Some(l) {
            assert(exists|m: int| 0 <= m < work.len() && (#[trigger] work[m]).0 == y && work[m].1 == l) by {
                if !(exists|m: int| 0 <= m < work.len() && (#[trigger] work[m]).0 == y && work[m].1 == l) {
                    assert(work[0].0 == y);
                }
            };
            let m = choose|m: int| 0 <= m < work.len() && (#[trigger] work[m]).0 == y && work[m].1 == l;
            if m > 0 {
                assert(rest[m - 1] == work[m]);
                assert(rest[m - 1].0 != f);
                assert(false);
            }
            assert(l == lf);
            assert forall|i: int| 0 <= i < l@.len() implies {
                let c = post.children_of(y)[i] as int;
                &&& template_types(post.entities@[c].template) == (#[trigger] l@[i]).component_map().dom()
                &&& l@[i].component_map().submap_of(post.components_of(c))
                &&& growing_in(post, c, l@[i].children, rest)
            } by {
                let c = post.children_of(y)[i] as int;
                assert(post.alive(c));
                assert(0 <= c < post.len());
            };
        }
    } else {
        let ghost p = pre.entities@[y].parent;
        if pre.alive(f as int) {
            assert(post.entities@[y] == pre.entities@[y] || died_with_parent(pre, post, y));
            assert(pre.entities@[y].parent != Some(f));
        }
        assert(post.entities@[y] == pre.entities@[y]);
        assert(post.children_of(y) == pre.children_of(y));
        if pre.entities@[y].pending == Some(l) {
        } else if exists|m: int| 0 <= m < work.len() && (#[trigger] work[m]).0 == y && work[m].1 == l {
            let m = choose|m: int| 0 <= m < work.len() && (#[trigger] work[m]).0 == y && work[m].1 == l;
            assert(m != 0);
            assert(rest[m - 1] == work[m]);
        } else {
            assert forall|m: int| 0 <= m < rest.len() implies (#[trigger] rest[m]).0 != y by {
                assert(work[m + 1] == rest[m]);
            };
            assert forall|i: int| 0 <= i < l@.len() implies {
                let c = post.children_of(y)[i] as int;
                &&& template_types(post.entities@[c].template) == (#[trigger] l@[i]).component_map().dom()
                &&& l@[i].component_map().submap_of(post.components_of(c))
                &&& growing_in(post, c, l@[i].children, rest)
            } by {
                let c = pre.children_of(y)[i] as int;
                assert(pre.entities@[c].parent == Some(y as usize));
                lemma_growing_step(pre, post, f, lf, rest, c, l@[i].children);
            };
        }
    }
}

/// Taking every pending list into `taken` keeps each tree growing.
pub proof fn lemma_growing_taken(
    start: World,
    mid: World,
    taken: Seq<(usize, Vec<NodeTree>)>,
    y: int,
    l: Vec<NodeTree>,
)
    requires
        start.wf(),
        mid.len() == start.len(),
        forall|x: int| 0 <= x < mid.len() ==> {
            &&& (#[trigger] mid.entities@[x]).pending.is_none()
            &&& mid.entities@[x].alive == start.entities@[x].alive
            &&& mid.entities@[x].children == start.entities@[x].children
            &&& mid.entities@[x].components == start.entities@[x].components
            &&& mid.entities@[x].template == start.entities@[x].template
        },
        forall|x: int|
            0 <= x < start.len() && (#[trigger] start.entities@[x]).pending.is_some() ==> exists|m: int|
                0 <= m < taken.len() && taken[m].0 == x && taken[m].1 == start.entities@[x].pending.unwrap(),
        forall|m: int|
            0 <= m < taken.len() ==> (#[trigger] taken[m]).0 < start.len() && start.entities@[taken[m].0 as int].pending
                == Some(taken[m].1),
        growing_in(start, y, l, Seq::empty()),
    ensures
        growing_in(mid, y, l, taken),
    decreases l,
{
    assert(mid.entities@[y].pending.is_none());
    if start.entities@[y].pending == Some(l) {
        let m = choose|m: int|
            0 <= m < taken.len() && taken[m].0 == y && taken[m].1 == start.entities@[y].pending.unwrap();
        assert((#[trigger] taken[m]).0 == y && taken[m].1 == l);
    } else {
        assert forall|m: int| 0 <= m < taken.len() implies (#[trigger] taken[m]).0 != y by {};
        assert(mid.children_of(y) == start.children_of(y));
        assert forall|i: int| 0 <= i < l@.len() implies {
            let c = mid.children_of(y)[i] as int;
            &&& template_types(mid.entities@[c].template) == (#[trigger] l@[i]).component_map().dom()
            &&& l@[i].component_map().submap_of(mid.components_of(c))
            &&& growing_in(mid, c, l@[i].children, taken)
        } by {
            let c = start.children_of(y)[i] as int;
            assert(0 <= c < start.len());
            assert(mid.entities@[c].pending.is_none());
            lemma_growing_taken(start, mid, taken, c, l@[i].children);
        };
    }
}

/// With nothing waiting anywhere, a tree that is growing is built.
pub proof fn lemma_growing_built(w: World, y: int, l: Vec<NodeTree>)
    requires
        w.wf(),
        w.pending_within(-1),
        growing_in(w, y, l, Seq::empty()),
    ensures
        built(w, y, l),
    decreases l,
{
    assert(w.entities@[y].pending.is_none());
    assert forall|i: int| 0 <= i < l@.len() implies {
        let c = w.children_of(y)[i] as int;
        &&& template_types(w.entities@[c].template) == (#[trigger] l@[i]).component_map().dom()
        &&& l@[i].component_map().submap_of(w.components_of(c))
        &&& built(w, c, l@[i].children)
    } by {
        let c = w.children_of(y)[i] as int;
        lemma_growing_built(w, c, l@[i].children);
    };
}

/// Whether a tree is growing depends on the entities alone.
pub proof fn lemma_growing_same_entities(
    a: World,
    b: World,
    y: int,
    l: Vec<NodeTree>,
    work: Seq<(usize, Vec<NodeTree>)>,
)
    requires
        a.entities@ == b.entities@,
        growing_in(a, y, l, work),
    ensures
        growing_in(b, y, l, work),
    decreases l,
{
    if a.entities@[y].pending != Some(l) && !(exists|m: int|
        0 <= m < work.len() && (#[trigger] work[m]).0 == y && work[m].1 == l) {
        assert forall|i: int| 0 <= i < l@.len() implies {
            let c = b.children_of(y)[i] as int;
            &&& template_types(b.entities@[c].template) == (#[trigger] l@[i]).component_map().dom()
            &&& l@[i].component_map().submap_of(b.components_of(c))
            &&& growing_in(b, c, l@[i].children, work)
        } by {
            assert(a.children_of(y) == b.children_of(y));
            let c = a.children_of(y)[i] as int;
            lemma_growing_same_entities(a, b, c, l@[i].children, work);
        };
    }
}

/// The work that a pass from `before` to `after` counts over the first `n`
/// entities: one for each entity that had a pending list, and one more for
/// each tree of that list when the entity is still alive.
pub open spec fn pass_work(before: World, after: World, n: int) -> nat
    decreases n,
{
    if n <= 0 {
        0
    } else {
        pass_work(before, after, n - 1) + match before.entities@[n - 1].pending {
            Some(l) => 1 + if after.alive(n - 1) { l@.len() } else { 0nat },
            None => 0nat,
        }
    }
}

/// The same count over the first `k` lists taken out for a pass.
pub open spec fn taken_work(taken: Seq<(usize, Vec<NodeTree>)>, k: int, w: World) -> nat
    decreases k,
{
    if k <= 0 {
        0
    } else {
        taken_work(taken, k - 1, w) + 1 + if w.alive(taken[k - 1].0 as int) { taken[k - 1].1@.len() } else { 0nat }
    }
}

/// The count over taken lists only looks at whether their entities live.
pub proof fn lemma_taken_work_stable(taken: Seq<(usize, Vec<NodeTree>)>, k: int, a: World, b: World)
    requires
        forall|m: int| 0 <= m < k ==> a.alive((#[trigger] taken[m]).0 as int) == b.alive(taken[m].0 as int),
    ensures
        taken_work(taken, k, a) == taken_work(taken, k, b),
    decreases k,
{
    if k > 0 {
        lemma_taken_work_stable(taken, k - 1, a, b);
    }
}

/// Counting over the sorted taken lists is counting over the entities.
pub proof fn lemma_taken_work_matches(
    start: World,
    w: World,
    taken: Seq<(usize, Vec<NodeTree>)>,
    n: int,
    k: int,
)
    requires
        0 <= n <= start.len(),
        0 <= k <= taken.len(),
        forall|m1: int, m2: int| 0 <= m1 < m2 < taken.len() ==> #[trigger] taken[m1].0 < #[trigger] taken[m2].0,
        forall|m: int| 0 <= m < taken.len() ==> (#[trigger] taken[m]).0 < start.len()
            && start.entities@[taken[m].0 as int].pending == Some(taken[m].1),
        forall|x: int|
            0 <= x < start.len() && (#[trigger] start.entities@[x]).pending.is_some() ==> exists|m: int|
                0 <= m < taken.len() && taken[m].0 == x,
        forall|m: int| 0 <= m < k ==> (#[trigger] taken[m]).0 < n,
        forall|m: int| k <= m < taken.len() ==> (#[trigger] taken[m]).0 >= n,
    ensures
        pass_work(start, w, n) == taken_work(taken, k, w),
    decreases n,
{
    if n == 0 {
        if k > 0 {
            assert(taken[0].0 < 0);
        }
    } else {
        let x = n - 1;
        if start.entities@[x].pending.is_some() {
            let m = choose|m: int| 0 <= m < taken.len() && taken[m].0 == x;
            assert(m < k);
            if m < k - 1 {
                assert(taken[m].0 < taken[k - 1].0);
                assert(taken[k - 1].0 < n);
            }
            assert(m == k - 1);
            assert forall|m2: int| 0 <= m2 < k - 1 implies (#[trigger] taken[m2]).0 < n - 1 by {
                assert(taken[m2].0 < taken[k - 1].0);
            };
            lemma_taken_work_matches(start, w, taken, n - 1, k - 1);
            assert(start.entities@[x].pending == Some(taken[k - 1].1));
        } else {
            assert forall|m2: int| 0 <= m2 < k implies (#[trigger] taken[m2]).0 < n - 1 by {
                if taken[m2].0 == x {
                    assert(start.entities@[x].pending == Some(taken[m2].1));
                }
            };
            lemma_taken_work_matches(start, w, taken, n - 1, k);
        }
    }
}

/// Appending to a sequence adds the element to its set.
pub proof fn lemma_to_set_push(s: Seq<u64>, x: u64)
    ensures
        s.push(x).to_set() == s.to_set().insert(x),
{
    assert forall|y: u64| s.push(x).contains(y) <==> s.to_set().insert(x).contains(y) by {
        if s.push(x).contains(y) {
            let k = choose|k: int| 0 <= k < s.push(x).len() && s.push(x)[k] == y;
            if k < s.len() {
                assert(s[k] == y);
            }
        }
        if s.contains(y) {
            let k = choose|k: int| 0 <= k < s.len() && s[k] == y;
            assert(s.push(x)[k] == y);
        }
        if y == x {
            assert(s.push(x)[s.len() as int] == y);
        }
    };
    assert(s.push(x).to_set() =~= s.to_set().insert(x));
}

/// Every ancestor of `x`, by parent links, comes before it, is alive and has
/// nothing waiting on it.
pub open spec fn clear_above(w: World, x: int) -> bool
    decreases x,
{
    match w.entities@[x].parent {
        None => true,
        Some(p) => 0 <= p < x && w.alive(p as int) && w.entities@[p as int].pending.is_none() && clear_above(
            w,
            p as int,
        ),
    }
}

/// `x` keeps in `w` the parent link it had in `start`, and so does each of its
/// ancestors there; these ancestors had nothing waiting in `start` and are
/// alive in `w`.
pub open spec fn chain_kept(start: World, w: World, x: int) -> bool
    decreases x,
{
    &&& w.entities@[x].parent == start.entities@[x].parent
    &&& match start.entities@[x].parent {
        None => true,
        Some(p) => 0 <= p < x && start.entities@[p as int].pending.is_none() && w.alive(p as int)
            && chain_kept(start, w, p as int),
    }
}

/// Whether a chain is clear depends on the entities alone.
pub proof fn lemma_clear_same_entities(a: World, b: World, x: int)
    requires
        a.entities@ == b.entities@,
        clear_above(a, x),
    ensures
        clear_above(b, x),
    decreases x,
{
    if let Some(p) = a.entities@[x].parent {
        lemma_clear_same_entities(a, b, p as int);
    }
}

/// A clear chain is kept in the world it was read from.
pub proof fn lemma_clear_chain_kept(w: World, x: int)
    requires
        clear_above(w, x),
    ensures
        chain_kept(w, w, x),
    decreases x,
{
    if let Some(p) = w.entities@[x].parent {
        lemma_clear_chain_kept(w, p as int);
    }
}

/// A kept chain stays kept in a world that agrees on parent links and life.
pub proof fn lemma_chain_kept_same(start: World, a: World, b: World, x: int)
    requires
        0 <= x,
        chain_kept(start, a, x),
        forall|z: int| 0 <= z <= x ==> #[trigger] b.entities@[z].parent == a.entities@[z].parent && b.alive(z) == a.alive(z),
    ensures
        chain_kept(start, b, x),
    decreases x,
{
    assert(b.entities@[x].parent == a.entities@[x].parent);
    if let Some(p) = start.entities@[x].parent {
        assert(b.entities@[p as int].parent == a.entities@[p as int].parent);
        lemma_chain_kept_same(start, a, b, p as int);
    }
}

/// One unpacking step keeps a chain whose ancestors were not waiting: they are
/// untouched, since the unpacked entity was.
pub proof fn lemma_chain_step(start: World, pre: World, post: World, f: usize, lf: Vec<NodeTree>, x: int)
    requires
        0 <= x < start.len() <= pre.len(),
        f < pre.len(),
        start.entities@[f as int].pending.is_some(),
        unpack_step(pre, post, f as int, lf),
        chain_kept(start, pre, x),
    ensures
        chain_kept(start, post, x),
        start.entities@[x].parent.is_some() ==> post.entities@[start.entities@[x].parent.unwrap() as int]
            == pre.entities@[start.entities@[x].parent.unwrap() as int],
    decreases x,
{
    if pre.alive(f as int) {
        assert(post.entities@[x].parent == pre.entities@[x].parent);
    }
    if let Some(p) = start.entities@[x].parent {
        let p = p as int;
        lemma_chain_step(start, pre, post, f, lf, p);
        assert(chain_kept(start, pre, p));
        assert(p != f);
        if pre.alive(f as int) {
            assert(pre.entities@[p].parent == start.entities@[p].parent);
            if let Some(q) = start.entities@[p].parent {
                assert(q != f);
            }
            assert(post.entities@[p] == pre.entities@[p] || died_with_parent(pre, post, p));
        }
        assert(post.entities@[p] == pre.entities@[p]);
    }
}

/// When every waiting list sits on a child of an entity that was waiting in
/// `start`, a kept chain is clear.
pub proof fn lemma_chain_clear(start: World, w: World, x: int)
    requires
        0 <= x < start.len() <= usize::MAX,
        start.len() <= w.len(),
        chain_kept(start, w, x),
        forall|z: int|
            0 <= z < w.len() && (#[trigger] w.entities@[z]).pending.is_some() ==> exists|p: int|
                0 <= p < start.len() && start.entities@[p].pending.is_some() && w.entities@[z].parent == Some(
                    p as usize,
                ),
    ensures
        clear_above(w, x),
    decreases x,
{
    if let Some(p) = start.entities@[x].parent {
        let p = p as int;
        lemma_chain_clear(start, w, p);
        assert(chain_kept(start, w, p));
        assert(w.entities@[x].parent == start.entities@[x].parent);
        if w.entities@[p].pending.is_some() {
            let q = choose|q: int|
                0 <= q < start.len() && start.entities@[q].pending.is_some() && w.entities@[p].parent == Some(q as usize);
            assert(w.entities@[p].parent == start.entities@[p].parent);
            match start.entities@[p].parent {
                Some(pp) => {
                    assert(q == pp as int);
                    assert(start.entities@[pp as int].pending.is_none());
                    assert(false);
                },
                None => {
                    assert(false);
                },
            }
        }
        assert(clear_above(w, x));
    } else {
        assert(w.entities@[x].parent.is_none());
    }
}

/// All entities, the registered component types, and the count of work done
/// in the current scheduler pass.
pub struct World {
    pub entities: Vec<EntityRecord>,
    pub registered: HashSetWithView<u64>,
    pub spawned_count: usize,
}

impl World {
    pub open spec fn len(&self) -> nat {
        self.entities@.len()
    }

    pub open spec fn alive(&self, e: int) -> bool {
        self.entities@[e].alive
    }

    pub open spec fn children_of(&self, e: int) -> Seq<usize> {
        self.entities@[e].children@
    }

    pub open spec fn components_of(&self, e: int) -> Map<u64, ByteHolder> {
        self.entities@[e].components@
    }

    /// The hierarchy is a forest whose children come after their parent, and
    /// an entity lives exactly as long as its parent does.
    pub open spec fn wf_links(&self) -> bool {
        forall|e: int, j: int|
            0 <= e < self.len() && 0 <= j < self.children_of(e).len() ==> {
                let c = #[trigger] self.children_of(e)[j] as int;
                &&& e < c < self.len()
                &&& self.entities@[c].parent == Some(e as usize)
                &&& self.alive(c) == self.alive(e)
            }
    }

    /// No entity is listed twice among the children of one parent.
    pub open spec fn wf_distinct(&self) -> bool {
        forall|e: int, j1: int, j2: int|
            0 <= e < self.len() && 0 <= j1 < j2 < self.children_of(e).len() ==> #[trigger] self.children_of(e)[j1]
                != #[trigger] self.children_of(e)[j2]
    }

    /// Every child tree waiting on an entity is well formed.
    pub open spec fn wf_pending(&self) -> bool {
        forall|e: int, i: int|
            0 <= e < self.len() && self.entities@[e].pending.is_some() && 0 <= i
                < self.entities@[e].pending.unwrap()@.len() ==> (
            #[trigger] self.entities@[e].pending.unwrap()@[i]).wf()
    }

    /// A despawned entity has nothing waiting on it.
    pub open spec fn wf_dead(&self) -> bool {
        forall|e: int| 0 <= e < self.len() && !self.alive(e) ==> (#[trigger] self.entities@[e]).pending.is_none()
    }

    /// Every child tree waiting in the world is at most `d` deep; below zero,
    /// nothing waits at all.
    pub open spec fn pending_within(&self, d: int) -> bool {
        forall|e: int|
            0 <= e < self.len() ==> match (#[trigger] self.entities@[e]).pending {
                None => true,
                Some(l) => d >= 0 && forall|i: int| 0 <= i < l@.len() ==> (#[trigger] l@[i]).depth_within(d),
            }
    }

    /// The invariant that every operation on a world keeps.
    pub open spec fn wf(&self) -> bool {
        self.wf_links() && self.wf_distinct() && self.wf_pending() && self.wf_dead()
    }

    /// An empty world.
    pub fn new() -> (r: World)
        ensures
            r.wf(),
            r.len() == 0,
            r.registered@ == Set::<u64>::empty(),
            r.spawned_count == 0,
    {
        World { entities: Vec::new(), registered: HashSetWithView::new(), spawned_count: 0 }
    }

    /// Spawns a live entity with nothing on it and no parent.
    pub fn spawn_empty(&mut self) -> (r: usize)
        requires
            old(self).wf(),
        ensures
            final(self).wf(),
            r == old(self).len(),
            final(self).entities@ == old(self).entities@.push(final(self).entities@[r as int]),
            final(self).alive(r as int),
            final(self).entities@[r as int].parent.is_none(),
            final(self).children_of(r as int).len() == 0,
            final(self).components_of(r as int).is_empty(),
            final(self).entities@[r as int].template.is_none(),
            final(self).entities@[r as int].pending.is_none(),
            final(self).registered == old(self).registered,
            final(self).spawned_count == old(self).spawned_count,
    {
        let r = self.entities.len();
        let rec = EntityRecord {
            alive: true,
            parent: None,
            children: Vec::new(),
            components: HashMapWithView::new(),
            template: None,
            pending: None,
        };
        self.entities.push(rec);
        proof {
            assert forall|e: int, j: int|
                0 <= e < self.len() && 0 <= j < self.children_of(e).len() implies {
                let c = #[trigger] self.children_of(e)[j] as int;
                &&& e < c < self.len()
                &&& self.entities@[c].parent == Some(e as usize)
                &&& self.alive(c) == self.alive(e)
            } by {
                assert(self.entities@[e] == old(self).entities@[e]);
                let c = old(self).children_of(e)[j] as int;
                assert(self.entities@[c] == old(self).entities@[c]);
            };
            assert forall|e: int, j1: int, j2: int|
                0 <= e < self.len() && 0 <= j1 < j2 < self.children_of(e).len() implies #[trigger] self.children_of(e)[j1]
                    != #[trigger] self.children_of(e)[j2] by {
                if e < old(self).len() {
                    assert(self.entities@[e] == old(self).entities@[e]);
                    assert(self.children_of(e)[j1] == old(self).children_of(e)[j1]);
                    assert(self.children_of(e)[j2] == old(self).children_of(e)[j2]);
                }
            };
            assert forall|e: int, i: int|
                0 <= e < self.len() && self.entities@[e].pending.is_some() && 0 <= i
                    < self.entities@[e].pending.unwrap()@.len() implies (
                #[trigger] self.entities@[e].pending.unwrap()@[i]).wf() by {
                assert(self.entities@[e] == old(self).entities@[e]);
            };
        }
        r
    }

    /// Applies `tree` to `entity`: registers the tree's types, sets its
    /// components, removes those of the previous template that it no longer
    /// has, records the new template, and leaves its children pending.
    pub fn apply_node(&mut self, entity: usize, tree: NodeTree)
        requires
            old(self).wf(),
            entity < old(self).len(),
            old(self).alive(entity as int),
            tree.wf(),
        ensures
            final(self).wf(),
            final(self).len() == old(self).len(),
            forall|e: int|
                0 <= e < old(self).len() && e != entity ==> final(self).entities@[e] == old(
                    self,
                ).entities@[e],
            final(self).alive(entity as int),
            final(self).entities@[entity as int].parent == old(self).entities@[entity as int].parent,
            final(self).children_of(entity as int) == old(self).children_of(entity as int),
            final(self).components_of(entity as int) == applied_components(
                old(self).components_of(entity as int),
                template_types(old(self).entities@[entity as int].template),
                tree.component_map(),
            ),
            final(self).entities@[entity as int].template matches Some(t) && t.component_types@
                == tree.components@.map_values(|h: ComponentHolder| h.spec_type_id())
                && t.component_types@.no_duplicates(),
            template_types(final(self).entities@[entity as int].template) == tree.component_map().dom(),
            final(self).entities@[entity as int].pending == Some(tree.children),
            final(self).registered@ == old(self).registered@.union(queued_types(tree.register_queue@)),
            final(self).spawned_count == old(self).spawned_count.saturating_add(1),
            forall|d: int|
                #[trigger] tree.depth_within(d) && old(self).pending_within(d - 1)
                    ==> final(self).pending_within(d - 1),
    {
        let NodeTree { components, children, register_queue } = tree;
        let mut i: usize = 0;
        while i < register_queue.len()
            invariant
                i <= register_queue@.len(),
                self.registered@ == old(self).registered@.union(queued_types(register_queue@.subrange(0, i as int))),
                self.entities == old(self).entities,
                self.spawned_count == old(self).spawned_count,
            decreases register_queue@.len() - i,
        {
            let entry = &register_queue[i];
            let mut j: usize = 0;
            while j < entry.len()
                invariant
                    j <= entry@.len(),
                    *entry == register_queue@[i as int],
                    self.registered@ == old(self).registered@.union(
                        queued_types(register_queue@.subrange(0, i as int)),
                    ).union(entry@.subrange(0, j as int).to_set()),
                    self.entities == old(self).entities,
                    self.spawned_count == old(self).spawned_count,
                decreases entry@.len() - j,
            {
                self.registered.insert(entry[j]);
                proof {
                    assert(entry@.subrange(0, j + 1) =~= entry@.subrange(0, j as int).push(entry@[j as int]));
                    lemma_to_set_push(entry@.subrange(0, j as int), entry@[j as int]);
                    assert(self.registered@ =~= old(self).registered@.union(
                        queued_types(register_queue@.subrange(0, i as int)),
                    ).union(entry@.subrange(0, j + 1).to_set()));
                }
                j = j + 1;
            }
            proof {
                assert(entry@.subrange(0, j as int) =~= entry@);
                assert(register_queue@.subrange(0, i + 1) =~= register_queue@.subrange(0, i as int).push(*entry));
                lemma_queued_push(register_queue@.subrange(0, i as int), *entry);
                assert(self.registered@ =~= old(self).registered@.union(
                    queued_types(register_queue@.subrange(0, i + 1)),
                ));
            }
            i = i + 1;
        }
        proof {
            assert(register_queue@.subrange(0, i as int) =~= register_queue@);
        }
        self.spawned_count = self.spawned_count.saturating_add(1);
        proof {
            lemma_wf_depends_on_entities(&*old(self), self);
        }
        let ghost registered_now = self.registered@;
        let ghost count_now = self.spawned_count;
        let ghost before = self.entities@[entity as int];
        let ghost all = components@;
        let mut rest = components;
        let mut new_types: Vec<u64> = Vec::new();
        let mut new_set: HashSetWithView<u64> = HashSetWithView::new();
        let ghost mut n: int = 0;
        while rest.len() > 0
            invariant
                0 <= n <= all.len(),
                rest@ == all.subrange(n, all.len() as int),
                self.entities@.len() == old(self).entities@.len(),
                forall|e: int|
                    0 <= e < old(self).len() && e != entity ==> self.entities@[e] == old(
                        self,
                    ).entities@[e],
                self.entities@[entity as int].alive == before.alive,
                self.entities@[entity as int].parent == before.parent,
                self.entities@[entity as int].children == before.children,
                self.entities@[entity as int].template == before.template,
                self.entities@[entity as int].pending == before.pending,
                self.entities@[entity as int].components@ == before.components@.union_prefer_right(
                    holders_map(all.subrange(0, n)),
                ),
                new_types@ == all.subrange(0, n).map_values(|h: ComponentHolder| h.spec_type_id()),
                new_set@ == holders_map(all.subrange(0, n)).dom(),
                self.registered@ == registered_now,
                self.spawned_count == count_now,
                entity < self.entities@.len(),
                self.wf(),
            decreases rest@.len(),
        {
            let h = rest.remove(0);
            let k = h.type_id();
            proof {
                assert(all.subrange(0, n + 1) =~= all.subrange(0, n).push(h));
                lemma_holders_map_push(all.subrange(0, n), h);
            }
            let v = h.into_val();
            if self.entities[entity].components.contains_key(&k) {
                self.write_component(entity, k, v);
            } else {
                self.insert_component(entity, k, v);
            }
            new_types.push(k);
            new_set.insert(k);
            proof {
                n = n + 1;
                assert(rest@ =~= all.subrange(n, all.len() as int));
                assert(new_types@ =~= all.subrange(0, n).map_values(|h: ComponentHolder| h.spec_type_id()));
                assert(self.entities@[entity as int].components@ =~= before.components@.union_prefer_right(
                    holders_map(all.subrange(0, n)),
                ));
                assert(new_set@ =~= holders_map(all.subrange(0, n)).dom());
            }
        }
        proof {
            assert(all.subrange(0, n) =~= all);
        }
        let ghost node = holders_map(all);
        let old_template = self.entities[entity].template.take();
        match old_template {
            Some(t) => {
                let types = t.component_types;
                let mut j: usize = 0;
                while j < types.len()
                    invariant
                        j <= types@.len(),
                        self.entities@.len() == old(self).entities@.len(),
                        forall|e: int|
                            0 <= e < old(self).len() && e != entity ==> self.entities@[e] == old(
                                self,
                            ).entities@[e],
                        self.entities@[entity as int].alive == before.alive,
                        self.entities@[entity as int].parent == before.parent,
                        self.entities@[entity as int].children == before.children,
                        self.entities@[entity as int].pending == before.pending,
                        self.entities@[entity as int].components@ == before.components@.union_prefer_right(
                            node,
                        ).remove_keys(types@.subrange(0, j as int).to_set().difference(node.dom())),
                        new_set@ == node.dom(),
                        self.registered@ == registered_now,
                        self.spawned_count == count_now,
                        entity < self.entities@.len(),
                    decreases types@.len() - j,
                {
                    let k = types[j];
                    if !new_set.contains(&k) {
                        self.entities[entity].components.remove(&k);
                    }
                    proof {
                        let s = types@.subrange(0, j as int);
                        assert(types@.subrange(0, j + 1) =~= s.push(k));
                        assert(s.push(k).to_set() =~= s.to_set().insert(k)) by {
                            assert forall|y: u64| s.push(k).contains(y) <==> s.to_set().insert(k).contains(y) by {
                                if s.push(k).contains(y) {
                                    let x = choose|x: int| 0 <= x < s.push(k).len() && s.push(k)[x] == y;
                                    if x < s.len() {
                                        assert(s[x] == y);
                                    }
                                }
                                if s.contains(y) {
                                    let x = choose|x: int| 0 <= x < s.len() && s[x] == y;
                                    assert(s.push(k)[x] == y);
                                }
                                if y == k {
                                    assert(s.push(k)[s.len() as int] == y);
                                }
                            };
                        };
                        assert(self.entities@[entity as int].components@ =~= before.components@.union_prefer_right(
                            node,
                        ).remove_keys(types@.subrange(0, j + 1).to_set().difference(node.dom())));
                    }
                    j = j + 1;
                }
                proof {
                    assert(types@.subrange(0, j as int) =~= types@);
                }
            },
            None => {
                proof {
                    assert(before.components@.union_prefer_right(node) =~= before.components@.union_prefer_right(
                        node,
                    ).remove_keys(Set::<u64>::empty().difference(node.dom())));
                }
            },
        }
        let ghost stale = template_types(before.template).difference(node.dom());
        assert(self.entities@[entity as int].components@ =~= before.components@.remove_keys(stale).union_prefer_right(node));
        self.entities[entity].template = Some(PreviousTemplate { component_types: new_types });
        self.entities[entity].pending = Some(children);
        proof {
            lemma_recorded_types(&tree);
            lemma_types_no_duplicates(&tree);
            assert forall|e: int, j: int|
                0 <= e < self.len() && 0 <= j < self.children_of(e).len() implies {
                let c = #[trigger] self.children_of(e)[j] as int;
                &&& e < c < self.len()
                &&& self.entities@[c].parent == Some(e as usize)
                &&& self.alive(c) == self.alive(e)
            } by {
                assert(self.children_of(e) == old(self).children_of(e));
                let c = old(self).children_of(e)[j] as int;
                assert(old(self).entities@[c].parent == Some(e as usize));
                assert(self.entities@[c].parent == old(self).entities@[c].parent);
                assert(self.alive(c) == old(self).alive(c));
                assert(self.alive(e) == old(self).alive(e));
            };
            assert forall|e: int, j1: int, j2: int|
                0 <= e < self.len() && 0 <= j1 < j2 < self.children_of(e).len() implies #[trigger] self.children_of(e)[j1]
                    != #[trigger] self.children_of(e)[j2] by {
                assert(self.children_of(e) == old(self).children_of(e));
                assert(self.children_of(e)[j1] == old(self).children_of(e)[j1]);
                assert(self.children_of(e)[j2] == old(self).children_of(e)[j2]);
            };
            assert forall|e: int, i: int|
                0 <= e < self.len() && self.entities@[e].pending.is_some() && 0 <= i
                    < self.entities@[e].pending.unwrap()@.len() implies (
                #[trigger] self.entities@[e].pending.unwrap()@[i]).wf() by {
                if e != entity {
                    assert(self.entities@[e] == old(self).entities@[e]);
                }
            };
            assert forall|d: int|
                #[trigger] tree.depth_within(d) && old(self).pending_within(d - 1) implies self.pending_within(d - 1) by {
                assert forall|e: int| 0 <= e < self.len() implies match (#[trigger] self.entities@[e]).pending {
                    None => true,
                    Some(l) => d - 1 >= 0 && forall|i: int| 0 <= i < l@.len() ==> (#[trigger] l@[i]).depth_within(d - 1),
                } by {
                    if e != entity {
                        assert(self.entities@[e] == old(self).entities@[e]);
                    } else {
                        assert(tree.children@ == children@);
                    }
                };
            };
            assert forall|e: int| 0 <= e < self.len() && !self.alive(e) implies (
            #[trigger] self.entities@[e]).pending.is_none() by {
                assert(self.entities@[e] == old(self).entities@[e]);
            };
        }
    }

    /// Spawns a live entity with nothing on it and appends it to the children of `parent`.
    pub fn spawn_child(&mut self, parent: usize) -> (r: usize)
        requires
            old(self).wf(),
            parent < old(self).len(),
            old(self).alive(parent as int),
        ensures
            final(self).wf(),
            r == old(self).len(),
            final(self).len() == old(self).len() + 1,
            forall|e: int|
                0 <= e < old(self).len() && e != parent ==> final(self).entities@[e] == old(
                    self,
                ).entities@[e],
            final(self).children_of(parent as int) == old(self).children_of(parent as int).push(r),
            final(self).alive(parent as int),
            final(self).entities@[parent as int].parent == old(self).entities@[parent as int].parent,
            final(self).entities@[parent as int].components == old(self).entities@[parent as int].components,
            final(self).entities@[parent as int].template == old(self).entities@[parent as int].template,
            final(self).entities@[parent as int].pending == old(self).entities@[parent as int].pending,
            final(self).alive(r as int),
            final(self).entities@[r as int].parent == Some(parent),
            final(self).children_of(r as int).len() == 0,
            final(self).components_of(r as int).is_empty(),
            final(self).entities@[r as int].template.is_none(),
            final(self).entities@[r as int].pending.is_none(),
            final(self).registered == old(self).registered,
            final(self).spawned_count == old(self).spawned_count,
    {
        let r = self.entities.len();
        let rec = EntityRecord {
            alive: true,
            parent: Some(parent),
            children: Vec::new(),
            components: HashMapWithView::new(),
            template: None,
            pending: None,
        };
        self.entities.push(rec);
        self.entities[parent].children.push(r);
        proof {
            assert forall|e: int, j: int|
                0 <= e < self.len() && 0 <= j < self.children_of(e).len() implies {
                let c = #[trigger] self.children_of(e)[j] as int;
                &&& e < c < self.len()
                &&& self.entities@[c].parent == Some(e as usize)
                &&& self.alive(c) == self.alive(e)
            } by {
                if e == parent && j == self.children_of(e).len() - 1 {
                } else if e < old(self).len() {
                    assert(self.children_of(e)[j] == old(self).children_of(e)[j]);
                    let c = old(self).children_of(e)[j] as int;
                    assert(self.entities@[c].parent == old(self).entities@[c].parent);
                    assert(self.alive(c) == old(self).alive(c));
                }
            };
            assert forall|e: int, j1: int, j2: int|
                0 <= e < self.len() && 0 <= j1 < j2 < self.children_of(e).len() implies #[trigger] self.children_of(e)[j1]
                    != #[trigger] self.children_of(e)[j2] by {
                if e == parent && j2 == self.children_of(e).len() - 1 {
                    assert(self.children_of(e)[j1] == old(self).children_of(e)[j1]);
                    assert(old(self).children_of(e)[j1] < old(self).len());
                } else if e < old(self).len() {
                    assert(self.children_of(e)[j1] == old(self).children_of(e)[j1]);
                    assert(self.children_of(e)[j2] == old(self).children_of(e)[j2]);
                }
            };
            assert forall|e: int, i: int|
                0 <= e < self.len() && self.entities@[e].pending.is_some() && 0 <= i
                    < self.entities@[e].pending.unwrap()@.len() implies (
                #[trigger] self.entities@[e].pending.unwrap()@[i]).wf() by {
                assert(self.entities@[e].pending == old(self).entities@[e].pending);
            };
            assert forall|e: int| 0 <= e < self.len() && !self.alive(e) implies (
            #[trigger] self.entities@[e]).pending.is_none() by {
                assert(self.entities@[e].pending == old(self).entities@[e].pending);
            };
        }
        r
    }

    /// Despawns the children of `parent` from position `keep` on, together with
    /// everything below them, and drops them from its child list.
    pub fn despawn_children_from(&mut self, parent: usize, keep: usize)
        requires
            old(self).wf(),
            parent < old(self).len(),
            keep <= old(self).children_of(parent as int).len(),
        ensures
            final(self).wf(),
            final(self).len() == old(self).len(),
            final(self).children_of(parent as int) == old(self).children_of(parent as int).subrange(
                0,
                keep as int,
            ),
            final(self).alive(parent as int) == old(self).alive(parent as int),
            final(self).entities@[parent as int].parent == old(self).entities@[parent as int].parent,
            final(self).entities@[parent as int].components == old(self).entities@[parent as int].components,
            final(self).entities@[parent as int].template == old(self).entities@[parent as int].template,
            final(self).entities@[parent as int].pending == old(self).entities@[parent as int].pending,
            forall|j: int|
                keep <= j < old(self).children_of(parent as int).len() ==> !final(self).alive(
                    #[trigger] old(self).children_of(parent as int)[j] as int,
                ),
            forall|x: int|
                0 <= x < old(self).len() && x != parent ==> (#[trigger] final(self).entities@[x]
                    == old(self).entities@[x]) || (killed(old(self).entities@[x], final(self).entities@[x])
                    && ((exists|j: int|
                    keep <= j < old(self).children_of(parent as int).len() && old(self).children_of(
                        parent as int,
                    )[j] == x) || (old(self).entities@[x].parent matches Some(p) && killed(
                    old(self).entities@[p as int],
                    final(self).entities@[p as int],
                )))),
            forall|x: int| 0 <= x < parent ==> #[trigger] final(self).entities@[x] == old(self).entities@[x],
            final(self).registered == old(self).registered,
            final(self).spawned_count == old(self).spawned_count,
    {
        let ghost start = *self;
        let ghost ch = old(self).children_of(parent as int);
        let n = self.entities.len();
        let mut doomed: Vec<bool> = Vec::new();
        let mut i: usize = 0;
        while i < n
            invariant
                i <= n,
                doomed@.len() == i,
                forall|x: int| 0 <= x < i ==> !doomed@[x],
            decreases n - i,
        {
            doomed.push(false);
            i = i + 1;
        }
        let cnt = self.entities[parent].children.len();
        let mut j: usize = keep;
        while j < cnt
            invariant
                keep <= j <= cnt,
                cnt == ch.len(),
                *self == start,
                n == start.len(),
                start.wf(),
                parent < n,
                ch == start.children_of(parent as int),
                doomed@.len() == n,
                forall|x: int|
                    0 <= x < n ==> (doomed@[x] <==> exists|jj: int|
                        keep <= jj < j && ch[jj] == x),
            decreases cnt - j,
        {
            let c = self.entities[parent].children[j];
            proof {
                assert(ch[j as int] == c);
            }
            doomed.set(c, true);
            proof {
                assert forall|x: int|
                    0 <= x < n implies (doomed@[x] <==> exists|jj: int| keep <= jj < j + 1 && ch[jj] == x) by {
                    if x == c {
                        assert(ch[j as int] == x);
                    } else if doomed@[x] {
                        let jj = choose|jj: int| keep <= jj < j && ch[jj] == x;
                    } else if exists|jj: int| keep <= jj < j + 1 && ch[jj] == x {
                        let jj = choose|jj: int| keep <= jj < j + 1 && ch[jj] == x;
                        assert(jj != j);
                    }
                };
            }
            j = j + 1;
        }
        self.entities[parent].children.truncate(keep);
        let ghost trailing = |x: int| exists|jj: int| keep <= jj < cnt && ch[jj] == x;
        let mut i: usize = 0;
        while i < n
            invariant
                i <= n,
                n == start.len(),
                self.len() == n,
                doomed@.len() == n,
                start.wf(),
                parent < n,
                self.entities@[parent as int].children@ == ch.subrange(0, keep as int),
                self.entities@[parent as int].alive == start.entities@[parent as int].alive,
                self.entities@[parent as int].parent == start.entities@[parent as int].parent,
                self.entities@[parent as int].components == start.entities@[parent as int].components,
                self.entities@[parent as int].template == start.entities@[parent as int].template,
                self.entities@[parent as int].pending == start.entities@[parent as int].pending,
                self.registered == start.registered,
                self.spawned_count == start.spawned_count,
                forall|x: int| 0 <= x < n && #[trigger] doomed@[x] ==> parent < x,
                forall|x: int| 0 <= x < n && trailing(x) ==> #[trigger] doomed@[x],
                forall|x: int|
                    0 <= x < n && #[trigger] doomed@[x] ==> trailing(x) || (start.entities@[x].parent matches Some(p) && p < i && doomed@[p as int]),
                forall|x: int|
                    0 <= x < i && #[trigger] doomed@[x] ==> killed(start.entities@[x], self.entities@[x]),
                forall|x: int, k: int|
                    0 <= x < i && doomed@[x] && 0 <= k < start.children_of(x).len() ==> doomed@[#[trigger] start.children_of(x)[k] as int],
                forall|x: int|
                    0 <= x < n && x != parent && !(x < i && doomed@[x]) ==> #[trigger] self.entities@[x] == start.entities@[x],
            decreases n - i,
        {
            let ghost snap = *self;
            let ghost snap_doomed = doomed@;
            if doomed[i] {
                let m = self.entities[i].children.len();
                let mut k: usize = 0;
                while k < m
                    invariant
                        k <= m,
                        i < n,
                        doomed@[i as int],
                        i != parent,
                        *self == snap,
                        forall|x: int| 0 <= x < n && #[trigger] snap_doomed[x] ==> doomed@[x],
                        forall|x: int| 0 <= x < n && #[trigger] doomed@[x] && !snap_doomed[x] ==> i < x,
                        snap_doomed.len() == n,
                        n == start.len(),
                        self.len() == n,
                        self.entities@[i as int] == start.entities@[i as int],
                        m == start.children_of(i as int).len(),
                        doomed@.len() == n,
                        start.wf(),
                        forall|x: int| 0 <= x < n && #[trigger] doomed@[x] ==> parent < x,
                        forall|x: int| 0 <= x < n && trailing(x) ==> #[trigger] doomed@[x],
                        forall|x: int|
                            0 <= x < n && #[trigger] doomed@[x] ==> trailing(x) || (start.entities@[x].parent matches Some(p) && p <= i && doomed@[p as int]),
                        forall|x: int|
                            0 <= x < i && #[trigger] doomed@[x] ==> killed(start.entities@[x], self.entities@[x]),
                        forall|x: int, kk: int|
                            0 <= x < i && doomed@[x] && 0 <= kk < start.children_of(x).len() ==> doomed@[#[trigger] start.children_of(x)[kk] as int],
                        forall|kk: int| 0 <= kk < k ==> doomed@[#[trigger] start.children_of(i as int)[kk] as int],
                    decreases m - k,
                {
                    let c = self.entities[i].children[k];
                    proof {
                        assert(start.children_of(i as int)[k as int] == c);
                        assert(c < n);
                        assert(start.entities@[c as int].parent == Some(i));
                    }
                    doomed.set(c, true);
                    k = k + 1;
                }
                self.entities[i].alive = false;
                self.entities[i].pending = None;
                self.entities[i].components.clear();
            }
            proof {
                assert forall|x: int|
                    0 <= x < n && #[trigger] doomed@[x] implies trailing(x) || (start.entities@[x].parent matches Some(p) && p < i + 1 && doomed@[p as int]) by {
                };
                assert forall|x: int|
                    0 <= x < n && x != parent && !(x < i + 1 && doomed@[x]) implies #[trigger] self.entities@[x] == start.entities@[x] by {
                    if x != i {
                        assert(self.entities@[x] == snap.entities@[x]);
                        if x < i {
                            assert(!snap_doomed[x]);
                        }
                    }
                };
            }
            i = i + 1;
        }
        proof {
            assert forall|jj: int| keep <= jj < cnt implies #[trigger] doomed@[ch[jj] as int] && parent < ch[jj] < n by {
                assert(trailing(ch[jj] as int));
            };
            assert forall|j: int|
                keep <= j < old(self).children_of(parent as int).len() implies !self.alive(
                    #[trigger] old(self).children_of(parent as int)[j] as int,
                ) by {
                assert(doomed@[ch[j] as int]);
            };
            assert forall|x: int|
                0 <= x < old(self).len() && x != parent implies (#[trigger] self.entities@[x]
                    == old(self).entities@[x]) || (killed(old(self).entities@[x], self.entities@[x])
                    && ((exists|j: int|
                    keep <= j < old(self).children_of(parent as int).len() && old(self).children_of(
                        parent as int,
                    )[j] == x) || (old(self).entities@[x].parent matches Some(p) && killed(
                    old(self).entities@[p as int],
                    self.entities@[p as int],
                )))) by {
                if doomed@[x] {
                    if !trailing(x) {
                        let p = start.entities@[x].parent.unwrap() as int;
                        assert(doomed@[p]);
                    }
                }
            };
            assert forall|e: int, j: int|
                0 <= e < self.len() && 0 <= j < self.children_of(e).len() implies {
                let c = #[trigger] self.children_of(e)[j] as int;
                &&& e < c < self.len()
                &&& self.entities@[c].parent == Some(e as usize)
                &&& self.alive(c) == self.alive(e)
            } by {
                let c = self.children_of(e)[j] as int;
                if e == parent {
                    assert(c == ch[j]);
                    assert(start.entities@[c].parent == Some(parent));
                    if doomed@[c] {
                        if trailing(c) {
                            let jj = choose|jj: int| keep <= jj < cnt && ch[jj] == c;
                            assert(ch[j] != ch[jj]);
                        }
                    }
                    assert(!doomed@[c]);
                } else {
                    assert(self.children_of(e) == start.children_of(e)) by {
                        if !doomed@[e] {
                            assert(self.entities@[e] == start.entities@[e]);
                        }
                    };
                    assert(start.children_of(e)[j] == c);
                    assert(start.entities@[c].parent == Some(e as usize));
                    if doomed@[e] {
                        assert(doomed@[c]);
                    } else {
                        assert(self.entities@[e] == start.entities@[e]);
                        if doomed@[c] {
                            if trailing(c) {
                                let jj = choose|jj: int| keep <= jj < cnt && ch[jj] == c;
                                assert(start.entities@[c].parent == Some(parent));
                            }
                        }
                        assert(!doomed@[c]);
                        if c != parent {
                            assert(self.entities@[c] == start.entities@[c]);
                        }
                    }
                }
            };
            assert forall|e: int, j1: int, j2: int|
                0 <= e < self.len() && 0 <= j1 < j2 < self.children_of(e).len() implies #[trigger] self.children_of(e)[j1]
                    != #[trigger] self.children_of(e)[j2] by {
                if e == parent {
                    assert(self.children_of(e)[j1] == ch[j1]);
                    assert(self.children_of(e)[j2] == ch[j2]);
                } else {
                    assert(self.children_of(e) == start.children_of(e)) by {
                        if !doomed@[e] {
                            assert(self.entities@[e] == start.entities@[e]);
                        }
                    };
                    assert(start.children_of(e)[j1] != start.children_of(e)[j2]);
                }
            };
            assert forall|e: int, k: int|
                0 <= e < self.len() && self.entities@[e].pending.is_some() && 0 <= k
                    < self.entities@[e].pending.unwrap()@.len() implies (
                #[trigger] self.entities@[e].pending.unwrap()@[k]).wf() by {
                if e != parent && !doomed@[e] {
                    assert(self.entities@[e] == start.entities@[e]);
                }
            };
            assert forall|e: int| 0 <= e < self.len() && !self.alive(e) implies (
            #[trigger] self.entities@[e]).pending.is_none() by {
                if e != parent && !doomed@[e] {
                    assert(self.entities@[e] == start.entities@[e]);
                }
            };
        }
    }

    /// Unpacks the child trees `trees` of `entity`: the child at each position
    /// is reused, or spawned where there is none, and has its tree applied;
    /// children past the last tree are despawned with everything below them.
    pub fn unpack_entity(&mut self, entity: usize, trees: Vec<NodeTree>)
        requires
            old(self).wf(),
            entity < old(self).len(),
            old(self).alive(entity as int),
            forall|i: int| 0 <= i < trees@.len() ==> (#[trigger] trees@[i]).wf(),
        ensures
            final(self).wf(),
            old(self).len() <= final(self).len(),
            final(self).alive(entity as int),
            final(self).entities@[entity as int].parent == old(self).entities@[entity as int].parent,
            final(self).entities@[entity as int].components == old(self).entities@[entity as int].components,
            final(self).entities@[entity as int].template == old(self).entities@[entity as int].template,
            final(self).entities@[entity as int].pending == old(self).entities@[entity as int].pending,
            final(self).children_of(entity as int).len() == trees@.len(),
            forall|i: int|
                0 <= i < trees@.len() && i < old(self).children_of(entity as int).len()
                    ==> #[trigger] final(self).children_of(entity as int)[i] == old(self).children_of(entity as int)[i],
            forall|i: int|
                old(self).children_of(entity as int).len() <= i < trees@.len() ==> old(self).len()
                    <= #[trigger] final(self).children_of(entity as int)[i],
            forall|i: int|
                0 <= i < trees@.len() ==> {
                    let c = #[trigger] final(self).children_of(entity as int)[i] as int;
                    let reused = i < old(self).children_of(entity as int).len();
                    &&& final(self).alive(c)
                    &&& final(self).entities@[c].pending == Some(trees@[i].children)
                    &&& template_types(final(self).entities@[c].template) == trees@[i].component_map().dom()
                    &&& final(self).children_of(c) == if reused { old(self).children_of(c) } else { Seq::empty() }
                    &&& final(self).entities@[c].template matches Some(t) && t.component_types@
                        == trees@[i].components@.map_values(|h: ComponentHolder| h.spec_type_id())
                    &&& final(self).components_of(c) == applied_components(
                        if reused { old(self).components_of(c) } else { Map::empty() },
                        if reused { template_types(old(self).entities@[c].template) } else { Set::empty() },
                        trees@[i].component_map(),
                    )
                },
            forall|j: int|
                trees@.len() <= j < old(self).children_of(entity as int).len() ==> !final(self).alive(
                    #[trigger] old(self).children_of(entity as int)[j] as int,
                ),
            forall|x: int|
                0 <= x < final(self).len() ==> (#[trigger] final(self).entities@[x]).pending.is_none()
                    || (x < old(self).len() && final(self).entities@[x].pending == old(self).entities@[x].pending)
                    || (exists|i: int|
                    0 <= i < trees@.len() && final(self).children_of(entity as int)[i] == x
                        && final(self).entities@[x].pending == Some(#[trigger] trees@[i].children)),
            forall|x: int| 0 <= x < entity ==> #[trigger] final(self).entities@[x] == old(self).entities@[x],
            forall|x: int|
                0 <= x < old(self).len() && x != entity && old(self).entities@[x].parent != Some(entity)
                    ==> #[trigger] final(self).entities@[x] == old(self).entities@[x] || died_with_parent(
                    *old(self),
                    *final(self),
                    x,
                ),
            final(self).len() == old(self).len() + if trees@.len() > old(self).children_of(entity as int).len() {
                trees@.len() - old(self).children_of(entity as int).len()
            } else {
                0
            },
            final(self).spawned_count == sat_add(old(self).spawned_count, trees@.len() + 1),
            forall|x: int|
                0 <= x < old(self).len() && x != entity ==> #[trigger] final(self).children_of(x) == old(self).children_of(x),
            forall|x: int| 0 <= x < old(self).len() && !old(self).alive(x) ==> !#[trigger] final(self).alive(x),
            forall|x: int|
                0 <= x < old(self).len() ==> #[trigger] final(self).entities@[x].parent == old(self).entities@[x].parent,
            old(self).spawned_count <= final(self).spawned_count,
            0 < final(self).spawned_count,
    {
        let ghost start = *self;
        let ghost old_children = start.children_of(entity as int);
        let ghost all = trees@;
        let count = trees.len();
        let mut rest = trees;
        let mut idx: usize = 0;
        while rest.len() > 0
            invariant
                idx <= all.len(),
                count == all.len(),
                rest@ == all.subrange(idx as int, all.len() as int),
                forall|i: int| 0 <= i < all.len() ==> (#[trigger] all[i]).wf(),
                self.wf(),
                start.wf(),
                old_children == start.children_of(entity as int),
                entity < start.len(),
                self.len() == start.len() + if idx > old_children.len() { idx - old_children.len() } else { 0 },
                self.spawned_count == sat_add(start.spawned_count, idx as nat),
                forall|x: int|
                    0 <= x < start.len() && x != entity ==> #[trigger] self.children_of(x) == start.children_of(x),
                forall|x: int| 0 <= x < start.len() && !start.alive(x) ==> !#[trigger] self.alive(x),
                forall|x: int|
                    0 <= x < start.len() ==> #[trigger] self.entities@[x].parent == start.entities@[x].parent,
                self.alive(entity as int),
                self.entities@[entity as int].parent == start.entities@[entity as int].parent,
                self.entities@[entity as int].components == start.entities@[entity as int].components,
                self.entities@[entity as int].template == start.entities@[entity as int].template,
                self.entities@[entity as int].pending == start.entities@[entity as int].pending,
                self.children_of(entity as int).len() == if idx < old_children.len() { old_children.len() } else { idx as nat },
                forall|i: int| 0 <= i < old_children.len() ==> #[trigger] self.children_of(entity as int)[i] == old_children[i],
                forall|i: int|
                    old_children.len() <= i < idx ==> start.len() <= #[trigger] self.children_of(entity as int)[i],
                forall|i: int|
                    0 <= i < idx ==> {
                        let c = #[trigger] self.children_of(entity as int)[i] as int;
                        let reused = i < old_children.len();
                        &&& self.alive(c)
                        &&& self.entities@[c].pending == Some(all[i].children)
                        &&& template_types(self.entities@[c].template) == all[i].component_map().dom()
                        &&& self.children_of(c) == if reused { start.children_of(c) } else { Seq::empty() }
                        &&& self.entities@[c].template matches Some(t) && t.component_types@
                            == all[i].components@.map_values(|h: ComponentHolder| h.spec_type_id())
                        &&& self.components_of(c) == applied_components(
                            if reused { start.components_of(c) } else { Map::empty() },
                            if reused { template_types(start.entities@[c].template) } else { Set::empty() },
                            all[i].component_map(),
                        )
                    },
                forall|x: int|
                    0 <= x < start.len() && x != entity && !(exists|i: int| 0 <= i < idx && self.children_of(entity as int)[i] == x)
                        ==> #[trigger] self.entities@[x] == start.entities@[x],
                forall|x: int|
                    0 <= x < self.len() ==> (#[trigger] self.entities@[x]).pending.is_none()
                        || (x < start.len() && self.entities@[x].pending == start.entities@[x].pending)
                        || (exists|i: int|
                        0 <= i < idx && self.children_of(entity as int)[i] == x
                            && self.entities@[x].pending == Some(#[trigger] all[i].children)),
                start.spawned_count <= self.spawned_count,
            decreases rest@.len(),
        {
            let t = rest.remove(0);
            proof {
                assert(t == all[idx as int]);
            }
            let ghost pre = *self;
            let child = if idx < self.entities[entity].children.len() {
                self.entities[entity].children[idx]
            } else {
                self.spawn_child(entity)
            };
            let ghost mid = *self;
            proof {
                assert(child < self.len());
                assert(self.alive(child as int));
            }
            proof {
                let ch = mid.children_of(entity as int);
                assert(ch[idx as int] == child);
                assert(entity < child);
                assert forall|i: int| 0 <= i < ch.len() && i != idx implies #[trigger] ch[i] != child by {
                    if i < idx {
                        assert(ch[i] != ch[idx as int]);
                    } else {
                        assert(ch[idx as int] != ch[i]);
                    }
                };
                if idx < old_children.len() {
                    assert(mid == pre);
                    assert(!(exists|i: int| 0 <= i < idx && pre.children_of(entity as int)[i] == child));
                    assert(old_children[idx as int] == child);
                    assert(child < start.len());
                    assert(mid.entities@[child as int] == start.entities@[child as int]);
                }
                assert forall|x: int| 0 <= x < pre.len() && x != entity implies #[trigger] mid.entities@[x] == pre.entities@[x] by {};
                assert forall|i: int| 0 <= i < pre.children_of(entity as int).len() implies #[trigger] mid.children_of(entity as int)[i] == pre.children_of(entity as int)[i] by {};
            }
            self.apply_node(child, t);
            proof {
                let ch = self.children_of(entity as int);
                assert(ch == mid.children_of(entity as int));
                assert forall|i: int| 0 <= i < ch.len() && i != idx implies #[trigger] ch[i] != child by {
                    if i < idx {
                        assert(ch[i] != ch[idx as int]);
                    } else {
                        assert(ch[idx as int] != ch[i]);
                    }
                };
                assert forall|i: int|
                    0 <= i < idx + 1 implies {
                        let c = #[trigger] self.children_of(entity as int)[i] as int;
                        let reused = i < old_children.len();
                        &&& self.alive(c)
                        &&& self.entities@[c].pending == Some(all[i].children)
                        &&& template_types(self.entities@[c].template) == all[i].component_map().dom()
                        &&& self.children_of(c) == if reused { start.children_of(c) } else { Seq::empty() }
                        &&& self.entities@[c].template matches Some(t) && t.component_types@
                            == all[i].components@.map_values(|h: ComponentHolder| h.spec_type_id())
                        &&& self.components_of(c) == applied_components(
                            if reused { start.components_of(c) } else { Map::empty() },
                            if reused { template_types(start.entities@[c].template) } else { Set::empty() },
                            all[i].component_map(),
                        )
                    } by {
                    if i < idx {
                        let c = ch[i] as int;
                        assert(c != child);
                        assert(self.entities@[c] == mid.entities@[c]);
                        assert(pre.children_of(entity as int)[i] == c);
                        assert(mid.entities@[c] == pre.entities@[c]);
                    } else {
                        if idx >= old_children.len() {
                            assert(template_types(None) =~= Set::<u64>::empty());
                        }
                    }
                };
                assert forall|x: int|
                    0 <= x < start.len() && x != entity && !(exists|i: int| 0 <= i < idx + 1 && self.children_of(entity as int)[i] == x)
                        implies #[trigger] self.entities@[x] == start.entities@[x] by {
                    assert(self.children_of(entity as int)[idx as int] == child);
                    assert(x != child);
                    assert(self.entities@[x] == mid.entities@[x]);
                    assert(mid.entities@[x] == pre.entities@[x]);
                    assert forall|i: int| 0 <= i < idx implies pre.children_of(entity as int)[i] != x by {
                        assert(self.children_of(entity as int)[i] == pre.children_of(entity as int)[i]);
                    };
                };
                assert forall|x: int|
                    0 <= x < self.len() implies (#[trigger] self.entities@[x]).pending.is_none()
                        || (x < start.len() && self.entities@[x].pending == start.entities@[x].pending)
                        || (exists|i: int|
                        0 <= i < idx + 1 && self.children_of(entity as int)[i] == x
                            && self.entities@[x].pending == Some(#[trigger] all[i].children)) by {
                    if x == child {
                        assert(self.children_of(entity as int)[idx as int] == x);
                        assert(self.entities@[x].pending == Some(all[idx as int].children));
                    } else {
                        assert(self.entities@[x] == mid.entities@[x]);
                        if x < pre.len() {
                            assert(mid.entities@[x].pending == pre.entities@[x].pending);
                            if exists|i: int|
                                0 <= i < idx && pre.children_of(entity as int)[i] == x
                                    && pre.entities@[x].pending == Some(#[trigger] all[i].children) {
                                let i = choose|i: int|
                                    0 <= i < idx && pre.children_of(entity as int)[i] == x
                                        && pre.entities@[x].pending == Some(#[trigger] all[i].children);
                                assert(self.children_of(entity as int)[i] == x);
                            }
                        }
                    }
                };
                assert(rest@ =~= all.subrange(idx + 1, all.len() as int));
            }
            idx = idx + 1;
        }
        let ghost looped = *self;
        let have = self.entities[entity].children.len();
        if have > count {
            self.despawn_children_from(entity, count);
            proof {
                let lc = looped.children_of(entity as int);
                assert forall|i: int| 0 <= i < count implies #[trigger] self.entities@[lc[i] as int] == looped.entities@[lc[i] as int] by {
                    let c = lc[i] as int;
                    assert(entity < c < looped.len());
                    assert(looped.entities@[c].parent == Some(entity));
                    if exists|j: int| count <= j < lc.len() && lc[j] == c {
                        let j = choose|j: int| count <= j < lc.len() && lc[j] == c;
                        assert(lc[i] != lc[j]);
                    }
                };
                assert forall|j: int| count <= j < old_children.len() implies !self.alive(
                    #[trigger] old_children[j] as int) by {
                    assert(lc[j] == old_children[j]);
                };
                assert forall|x: int|
                    0 <= x < self.len() implies (#[trigger] self.entities@[x]).pending.is_none()
                        || (x < start.len() && self.entities@[x].pending == start.entities@[x].pending)
                        || (exists|i: int|
                        0 <= i < count && self.children_of(entity as int)[i] == x
                            && self.entities@[x].pending == Some(#[trigger] all[i].children)) by {
                    if x != entity && self.entities@[x] == looped.entities@[x] {
                        if exists|i: int|
                            0 <= i < count && lc[i] == x && looped.entities@[x].pending == Some(#[trigger] all[i].children) {
                            let i = choose|i: int|
                                0 <= i < count && lc[i] == x && looped.entities@[x].pending == Some(#[trigger] all[i].children);
                            assert(self.children_of(entity as int)[i] == x);
                        }
                    }
                };
                assert forall|i: int|
                    0 <= i < count implies {
                        let c = #[trigger] self.children_of(entity as int)[i] as int;
                        let reused = i < old_children.len();
                        &&& self.alive(c)
                        &&& self.entities@[c].pending == Some(all[i].children)
                        &&& template_types(self.entities@[c].template) == all[i].component_map().dom()
                        &&& self.children_of(c) == if reused { start.children_of(c) } else { Seq::empty() }
                        &&& self.entities@[c].template matches Some(t) && t.component_types@
                            == all[i].components@.map_values(|h: ComponentHolder| h.spec_type_id())
                        &&& self.components_of(c) == applied_components(
                            if reused { start.components_of(c) } else { Map::empty() },
                            if reused { template_types(start.entities@[c].template) } else { Set::empty() },
                            all[i].component_map(),
                        )
                    } by {
                    assert(self.children_of(entity as int)[i] == lc[i]);
                    assert(self.entities@[lc[i] as int] == looped.entities@[lc[i] as int]);
                };
            }
        }
        let ghost trimmed = *self;
        self.spawned_count = self.spawned_count.saturating_add(1);
        proof {
            lemma_wf_depends_on_entities(&trimmed, self);
            assert forall|i: int|
                0 <= i < all.len() && i < old_children.len() implies #[trigger] self.children_of(entity as int)[i] == old_children[i] by {
                assert(looped.children_of(entity as int)[i] == old_children[i]);
            };
            assert forall|i: int|
                old_children.len() <= i < all.len() implies start.len() <= #[trigger] self.children_of(entity as int)[i] by {
                assert(self.children_of(entity as int)[i] == looped.children_of(entity as int)[i]);
            };
        }
    }

    /// One scheduler pass: takes every pending child list in the world, then
    /// unpacks each into the children of its entity. Lists that this creates
    /// wait for the next pass.
    pub fn unpack_children(&mut self)
        requires
            old(self).wf(),
        ensures
            final(self).wf(),
            old(self).len() <= final(self).len(),
            forall|x: int| 0 <= x < final(self).len() ==> stems_from(*old(self), #[trigger] final(self).entities@[x].pending),
            forall|d: int| d >= 0 && #[trigger] old(self).pending_within(d) ==> final(self).pending_within(d - 1),
            old(self).pending_within(-1) ==> final(self).entities@ == old(self).entities@
                && final(self).spawned_count == old(self).spawned_count,
            !old(self).pending_within(-1) ==> 0 < final(self).spawned_count,
            old(self).spawned_count <= final(self).spawned_count,
            final(self).spawned_count == sat_add(old(self).spawned_count, pass_work(*old(self), *final(self), old(self).len() as int)),
            forall|y: int|
                0 <= y < old(self).len() && (#[trigger] old(self).entities@[y]).pending.is_some()
                    && final(self).alive(y) ==> final(self).children_of(y).len()
                    == old(self).entities@[y].pending.unwrap()@.len(),
            forall|y: int, i: int|
                0 <= y < old(self).len() && old(self).entities@[y].pending.is_some() && final(self).alive(y)
                    && 0 <= i < old(self).entities@[y].pending.unwrap()@.len() ==> {
                    let l = old(self).entities@[y].pending.unwrap();
                    let c = #[trigger] final(self).children_of(y)[i] as int;
                    &&& final(self).alive(c)
                    &&& final(self).entities@[c].pending == Some(l@[i].children)
                    &&& template_types(final(self).entities@[c].template) == l@[i].component_map().dom()
                    &&& l@[i].component_map().submap_of(final(self).components_of(c))
                    &&& i < old(self).children_of(y).len() ==> c == old(self).children_of(y)[i]
                },
            forall|y: int, j: int|
                0 <= y < old(self).len() && old(self).entities@[y].pending.is_some()
                    && old(self).entities@[y].pending.unwrap()@.len() <= j < old(self).children_of(y).len()
                    ==> !final(self).alive(#[trigger] old(self).children_of(y)[j] as int),
            forall|y: int, l: Vec<NodeTree>|
                #[trigger] growing_in(*old(self), y, l, Seq::empty()) && clear_above(*old(self), y)
                    ==> growing_in(*final(self), y, l, Seq::empty()) && clear_above(*final(self), y),
            forall|x: int|
                0 <= x < old(self).len() && old(self).entities@[x].pending.is_none()
                    ==> #[trigger] final(self).children_of(x) == old(self).children_of(x),
            forall|x: int|
                0 <= x < final(self).len() && (#[trigger] final(self).entities@[x]).pending.is_some()
                    ==> final(self).entities@[x].parent.is_some(),
            forall|x: int|
                0 <= x < final(self).len() && (#[trigger] final(self).entities@[x]).pending.is_some()
                    ==> exists|p: int, i: int|
                    0 <= p < old(self).len() && old(self).entities@[p].pending.is_some() && 0 <= i
                        < old(self).entities@[p].pending.unwrap()@.len() && final(self).children_of(p)[i] == x
                        && final(self).entities@[x].parent == Some(p as usize) && final(self).entities@[x].pending
                        == Some(old(self).entities@[p].pending.unwrap()@[i].children),
            forall|x: int|
                0 <= x < old(self).len() && (#[trigger] old(self).entities@[x]).parent.is_none() ==> {
                    &&& final(self).entities@[x].parent.is_none()
                    &&& final(self).alive(x) == old(self).alive(x)
                    &&& final(self).entities@[x].components == old(self).entities@[x].components
                    &&& final(self).entities@[x].template == old(self).entities@[x].template
                },
    {
        let ghost start = *self;
        let n = self.entities.len();
        let mut work: Vec<(usize, Vec<NodeTree>)> = Vec::new();
        let mut e: usize = 0;
        while e < n
            invariant
                e <= n,
                n == start.len(),
                self.len() == n,
                self.spawned_count == start.spawned_count,
                start.wf(),
                forall|x: int| 0 <= x < n && (x >= e || start.entities@[x].pending.is_none())
                    ==> #[trigger] self.entities@[x] == start.entities@[x],
                forall|x: int| 0 <= x < e && start.entities@[x].pending.is_some() ==> {
                    &&& #[trigger] self.entities@[x].pending.is_none()
                    &&& self.entities@[x].alive == start.entities@[x].alive
                    &&& self.entities@[x].parent == start.entities@[x].parent
                    &&& self.entities@[x].children == start.entities@[x].children
                    &&& self.entities@[x].components == start.entities@[x].components
                    &&& self.entities@[x].template == start.entities@[x].template
                },
                forall|k: int| 0 <= k < work@.len() ==> {
                    let (y, l) = #[trigger] work@[k];
                    &&& y < e
                    &&& start.entities@[y as int].pending == Some(l)
                    &&& forall|k2: int| k < k2 < work@.len() ==> y < work@[k2].0
                },
                !start.pending_within(-1) ==> work@.len() > 0 || exists|x: int| e <= x < n && (#[trigger] start.entities@[x]).pending.is_some(),
                start.pending_within(-1) ==> work@.len() == 0,
                forall|x: int| 0 <= x < e && (#[trigger] start.entities@[x]).pending.is_some()
                    ==> exists|m: int| 0 <= m < work@.len() && work@[m].0 == x,
            decreases n - e,
        {
            if self.entities[e].pending.is_some() {
                let l = self.entities[e].pending.take();
                let ghost before = work@;
                work.push((e, l.unwrap()));
                proof {
                    assert forall|x: int| 0 <= x < e + 1 && (#[trigger] start.entities@[x]).pending.is_some()
                        implies exists|m: int| 0 <= m < work@.len() && work@[m].0 == x by {
                        if x == e {
                            assert(work@[work@.len() - 1].0 == x);
                        } else {
                            let m = choose|m: int| 0 <= m < before.len() && before[m].0 == x;
                            assert(work@[m] == before[m]);
                        }
                    };
                }
            }
            e = e + 1;
        }
        let ghost taken = work@;
        let ghost mut done: int = 0;
        proof {
            if start.pending_within(-1) {
                assert(self.entities@ =~= start.entities@);
            }
            assert forall|x: int| 0 <= x < self.len() implies (#[trigger] self.entities@[x]).pending.is_none() by {
                if start.entities@[x].pending.is_none() {
                    assert(self.entities@[x] == start.entities@[x]);
                }
            };
            lemma_wf_after_taking(&start, self);
            assert forall|x: int| 0 <= x < self.len() implies {
                &&& (#[trigger] self.entities@[x]).pending.is_none()
                &&& self.entities@[x].alive == start.entities@[x].alive
                &&& self.entities@[x].children == start.entities@[x].children
                &&& self.entities@[x].components == start.entities@[x].components
                &&& self.entities@[x].template == start.entities@[x].template
            } by {
                if start.entities@[x].pending.is_none() {
                    assert(self.entities@[x] == start.entities@[x]);
                }
            };
            assert forall|x: int|
                0 <= x < start.len() && (#[trigger] start.entities@[x]).pending.is_some() implies exists|m: int|
                    0 <= m < taken.len() && taken[m].0 == x && taken[m].1 == start.entities@[x].pending.unwrap() by {
                let m = choose|m: int| 0 <= m < work@.len() && work@[m].0 == x;
                assert(start.entities@[work@[m].0 as int].pending == Some(work@[m].1));
            };
            assert forall|x: int|
                0 <= x < start.len() && (#[trigger] start.entities@[x]).parent.is_none() implies {
                    &&& self.entities@[x].parent.is_none()
                    &&& self.alive(x) == start.alive(x)
                    &&& self.entities@[x].components == start.entities@[x].components
                    &&& self.entities@[x].template == start.entities@[x].template
                } by {
                if start.entities@[x].pending.is_none() {
                    assert(self.entities@[x] == start.entities@[x]);
                }
            };
            assert forall|y: int, l: Vec<NodeTree>|
                #[trigger] growing_in(start, y, l, Seq::empty()) && clear_above(start, y)
                    implies growing_in(*self, y, l, work@) && chain_kept(start, *self, y) by {
                lemma_growing_taken(start, *self, taken, y, l);
                lemma_clear_chain_kept(start, y);
                assert forall|z: int| 0 <= z <= y implies #[trigger] self.entities@[z].parent == start.entities@[z].parent
                    && self.alive(z) == start.alive(z) by {
                    if start.entities@[z].pending.is_none() {
                        assert(self.entities@[z] == start.entities@[z]);
                    }
                };
                lemma_chain_kept_same(start, start, *self, y);
            };
        }
        while work.len() > 0
            invariant
                self.wf(),
                start.wf(),
                start.len() <= self.len(),
                forall|x: int| 0 <= x < self.len() ==> stems_from(start, #[trigger] self.entities@[x].pending),
                forall|k: int| 0 <= k < work@.len() ==> {
                    let (y, l) = #[trigger] work@[k];
                    &&& y < start.len()
                    &&& start.entities@[y as int].pending == Some(l)
                },
                start.spawned_count <= self.spawned_count,
                !start.pending_within(-1) ==> work@.len() > 0 || self.spawned_count > 0,
                start.pending_within(-1) ==> work@.len() == 0 && self.entities@ == start.entities@
                    && self.spawned_count == start.spawned_count,
                0 <= done <= taken.len(),
                work@ == taken.subrange(done, taken.len() as int),
                forall|m1: int, m2: int| 0 <= m1 < m2 < taken.len() ==> #[trigger] taken[m1].0 < #[trigger] taken[m2].0,
                forall|m: int| 0 <= m < taken.len() ==> (#[trigger] taken[m]).0 < start.len()
                    && start.entities@[taken[m].0 as int].pending == Some(taken[m].1),
                forall|m: int| 0 <= m < done && self.alive((#[trigger] taken[m]).0 as int)
                    ==> self.children_of(taken[m].0 as int).len() == taken[m].1@.len(),
                forall|y: int, l: Vec<NodeTree>|
                    #[trigger] growing_in(start, y, l, Seq::empty()) && clear_above(start, y)
                        ==> growing_in(*self, y, l, work@) && chain_kept(start, *self, y),
                n == start.len(),
                self.spawned_count == sat_add(start.spawned_count, taken_work(taken, done, *self)),
                forall|x: int|
                    0 <= x < start.len() && start.entities@[x].pending.is_none() ==> #[trigger] self.children_of(x)
                        == start.children_of(x),
                forall|x: int|
                    0 <= x < self.len() && (#[trigger] self.entities@[x]).pending.is_some()
                        ==> self.entities@[x].parent.is_some(),
                forall|m: int| 0 <= m < taken.len() ==> (#[trigger] taken[m]).0 < start.len(),
                forall|x: int|
                    0 <= x < start.len() && (#[trigger] start.entities@[x]).pending.is_some() ==> exists|m: int|
                        0 <= m < taken.len() && taken[m].0 == x,
                forall|m: int|
                    done <= m < taken.len() ==> self.children_of((#[trigger] taken[m]).0 as int) == start.children_of(
                        taken[m].0 as int,
                    ),
                forall|m: int, i: int|
                    #![trigger self.children_of(taken[m].0 as int)[i]]
                    0 <= m < done && self.alive(taken[m].0 as int) && 0 <= i < taken[m].1@.len() ==> {
                        let y = taken[m].0 as int;
                        let l = taken[m].1;
                        let c = self.children_of(y)[i] as int;
                        &&& self.alive(c)
                        &&& self.entities@[c].pending == Some(l@[i].children)
                        &&& template_types(self.entities@[c].template) == l@[i].component_map().dom()
                        &&& l@[i].component_map().submap_of(self.components_of(c))
                        &&& i < start.children_of(y).len() ==> c == start.children_of(y)[i]
                    },
                forall|m: int, j: int|
                    0 <= m < done && taken[m].1@.len() <= j < start.children_of(taken[m].0 as int).len()
                        ==> !self.alive(#[trigger] start.children_of(taken[m].0 as int)[j] as int),
                forall|x: int|
                    0 <= x < self.len() && (#[trigger] self.entities@[x]).pending.is_some()
                        ==> exists|m: int, i: int|
                        0 <= m < done && 0 <= i < taken[m].1@.len() && self.children_of(taken[m].0 as int)[i] == x
                            && self.entities@[x].parent == Some(taken[m].0) && self.entities@[x].pending
                            == Some(taken[m].1@[i].children),
                forall|x: int|
                    0 <= x < start.len() && (#[trigger] start.entities@[x]).parent.is_none() ==> {
                        &&& self.entities@[x].parent.is_none()
                        &&& self.alive(x) == start.alive(x)
                        &&& self.entities@[x].components == start.entities@[x].components
                        &&& self.entities@[x].template == start.entities@[x].template
                    },
            decreases work@.len(),
        {
            let ghost work_before = work@;
            let (y, l) = work.remove(0);
            proof {
                assert(taken[done] == (y, l));
            }
            let ghost pre_item = *self;
            proof {
                assert(start.entities@[y as int].pending == Some(l));
                assert forall|i: int| 0 <= i < l@.len() implies (#[trigger] l@[i]).wf() by {
                    assert(start.entities@[y as int].pending.unwrap()@[i] == l@[i]);
                };
            }
            if self.entities[y].alive {
                let ghost pre = *self;
                self.unpack_entity(y, l);
                proof {
                    assert forall|x: int| 0 <= x < self.len() implies stems_from(start, #[trigger] self.entities@[x].pending) by {
                        if self.entities@[x].pending.is_some() {
                            if x < pre.len() && self.entities@[x].pending == pre.entities@[x].pending {
                                assert(stems_from(start, pre.entities@[x].pending));
                            } else {
                                let i = choose|i: int|
                                    0 <= i < l@.len() && self.children_of(y as int)[i] == x
                                        && self.entities@[x].pending == Some(#[trigger] l@[i].children);
                                assert(start.entities@[y as int].pending.unwrap()@[i] == l@[i]);
                            }
                        }
                    };
                }
            } else {
                let ghost pre = *self;
                self.spawned_count = self.spawned_count.saturating_add(1);
                proof {
                    lemma_wf_depends_on_entities(&pre, self);
                    assert forall|x: int| 0 <= x < self.len() implies stems_from(start, #[trigger] self.entities@[x].pending) by {
                        assert(self.entities@[x] == pre.entities@[x]);
                    };
                }
            }
            proof {
                if pre_item.alive(y as int) {
                    assert forall|i: int| 0 <= i < l@.len() implies {
                        let c = #[trigger] self.children_of(y as int)[i] as int;
                        &&& self.alive(c)
                        &&& self.entities@[c].pending == Some(l@[i].children)
                        &&& template_types(self.entities@[c].template) == l@[i].component_map().dom()
                        &&& l@[i].component_map().submap_of(self.components_of(c))
                    } by {
                        let c = self.children_of(y as int)[i] as int;
                        let reused = i < pre_item.children_of(y as int).len();
                        lemma_applied_has_node(
                            if reused { pre_item.components_of(c) } else { Map::empty() },
                            if reused { template_types(pre_item.entities@[c].template) } else { Set::empty() },
                            l@[i].component_map(),
                        );
                    };
                }
                assert(unpack_step(pre_item, *self, y as int, l));
                assert(work_before =~= seq![(y, l)] + work@);
                assert forall|m: int| 0 <= m < work@.len() implies (#[trigger] work@[m]).0 != y by {
                    assert(work@[m] == taken[done + 1 + m]);
                    assert(taken[done].0 < taken[done + 1 + m].0);
                };
                assert(pre_item.children_of(y as int) == start.children_of(y as int));
                assert forall|x: int|
                    0 <= x < start.len() && start.entities@[x].pending.is_none() implies #[trigger] self.children_of(x)
                        == start.children_of(x) by {
                    assert(x != y);
                    assert(pre_item.children_of(x) == start.children_of(x));
                };
                assert forall|x: int|
                    0 <= x < self.len() && (#[trigger] self.entities@[x]).pending.is_some()
                        implies self.entities@[x].parent.is_some() by {
                    if pre_item.alive(y as int) {
                        if x < pre_item.len() && self.entities@[x].pending == pre_item.entities@[x].pending {
                            assert(pre_item.entities@[x].pending.is_some());
                        } else {
                            let i = choose|i: int|
                                0 <= i < l@.len() && self.children_of(y as int)[i] == x
                                    && self.entities@[x].pending == Some(#[trigger] l@[i].children);
                            assert(self.children_of(y as int)[i] == x);
                        }
                    } else {
                        assert(self.entities@[x] == pre_item.entities@[x]);
                    }
                };
                assert forall|m: int| 0 <= m < done implies pre_item.alive((#[trigger] taken[m]).0 as int)
                    == self.alive(taken[m].0 as int) by {
                    assert(taken[m].0 < taken[done].0);
                };
                lemma_taken_work_stable(taken, done, pre_item, *self);
                assert(self.alive(y as int) == pre_item.alive(y as int));
                let tw = taken_work(taken, done, pre_item);
                assert(taken_work(taken, done + 1, *self) == tw + 1 + if self.alive(y as int) { l@.len() } else { 0nat });
                assert forall|m: int|
                    done + 1 <= m < taken.len() implies self.children_of((#[trigger] taken[m]).0 as int)
                        == start.children_of(taken[m].0 as int) by {
                    assert(taken[done].0 < taken[m].0);
                    assert(pre_item.children_of(taken[m].0 as int) == start.children_of(taken[m].0 as int));
                };
                assert forall|m: int, i: int|
                    #![trigger self.children_of(taken[m].0 as int)[i]]
                    0 <= m < done + 1 && self.alive(taken[m].0 as int) && 0 <= i < taken[m].1@.len() implies {
                        let y = taken[m].0 as int;
                        let l = taken[m].1;
                        let c = self.children_of(y)[i] as int;
                        &&& self.alive(c)
                        &&& self.entities@[c].pending == Some(l@[i].children)
                        &&& template_types(self.entities@[c].template) == l@[i].component_map().dom()
                        &&& l@[i].component_map().submap_of(self.components_of(c))
                        &&& i < start.children_of(y).len() ==> c == start.children_of(y)[i]
                    } by {
                    let ym = taken[m].0 as int;
                    if m < done {
                        assert(taken[m].0 < taken[done].0);
                        assert(self.entities@[ym] == pre_item.entities@[ym]);
                        assert(self.children_of(ym) == pre_item.children_of(ym));
                        let c = pre_item.children_of(ym)[i] as int;
                        assert(pre_item.entities@[c].parent == Some(ym as usize));
                        if c != y {
                            assert(self.entities@[c] == pre_item.entities@[c]);
                        }
                    } else {
                        assert(ym == y);
                    }
                };
                assert forall|m: int, j: int|
                    0 <= m < done + 1 && taken[m].1@.len() <= j < start.children_of(taken[m].0 as int).len()
                        implies !self.alive(#[trigger] start.children_of(taken[m].0 as int)[j] as int) by {
                    let x = start.children_of(taken[m].0 as int)[j] as int;
                    assert(0 <= x < start.len());
                    if m < done {
                        assert(!pre_item.alive(x));
                    } else if !pre_item.alive(y as int) {
                        assert(pre_item.children_of(y as int)[j] == x);
                    }
                };
                assert forall|x: int|
                    0 <= x < start.len() && (#[trigger] start.entities@[x]).parent.is_none() implies {
                        &&& self.entities@[x].parent.is_none()
                        &&& self.alive(x) == start.alive(x)
                        &&& self.entities@[x].components == start.entities@[x].components
                        &&& self.entities@[x].template == start.entities@[x].template
                    } by {
                    assert(pre_item.entities@[x].parent.is_none());
                    if pre_item.alive(y as int) && x != y {
                        assert(self.entities@[x] == pre_item.entities@[x] || died_with_parent(pre_item, *self, x));
                    }
                };
                assert forall|x: int|
                    0 <= x < self.len() && (#[trigger] self.entities@[x]).pending.is_some()
                        implies exists|m: int, i: int|
                        0 <= m < done + 1 && 0 <= i < taken[m].1@.len() && self.children_of(taken[m].0 as int)[i] == x
                            && self.entities@[x].parent == Some(taken[m].0) && self.entities@[x].pending
                            == Some(taken[m].1@[i].children) by {
                    if pre_item.alive(y as int) {
                        if x < pre_item.len() && self.entities@[x].pending == pre_item.entities@[x].pending {
                            let (m, i) = choose|m: int, i: int|
                                0 <= m < done && 0 <= i < taken[m].1@.len() && pre_item.children_of(taken[m].0 as int)[i] == x
                                    && pre_item.entities@[x].parent == Some(taken[m].0) && pre_item.entities@[x].pending
                                    == Some(taken[m].1@[i].children);
                            assert(taken[m].0 < taken[done].0);
                            assert(self.children_of(taken[m].0 as int) == pre_item.children_of(taken[m].0 as int));
                            assert(self.entities@[x].parent == pre_item.entities@[x].parent);
                        } else {
                            let i = choose|i: int|
                                0 <= i < l@.len() && self.children_of(y as int)[i] == x
                                    && self.entities@[x].pending == Some(#[trigger] l@[i].children);
                            assert(self.children_of(y as int)[i] == x);
                            assert(taken[done] == (y, l));
                        }
                    } else {
                        assert(self.entities@[x] == pre_item.entities@[x]);
                        let (m, i) = choose|m: int, i: int|
                            0 <= m < done && 0 <= i < taken[m].1@.len() && pre_item.children_of(taken[m].0 as int)[i] == x
                                && pre_item.entities@[x].parent == Some(taken[m].0) && pre_item.entities@[x].pending
                                == Some(taken[m].1@[i].children);
                        assert(self.children_of(taken[m].0 as int) == pre_item.children_of(taken[m].0 as int));
                    }
                };
                assert forall|y0: int, l0: Vec<NodeTree>|
                    #[trigger] growing_in(start, y0, l0, Seq::empty()) && clear_above(start, y0)
                        implies growing_in(*self, y0, l0, work@) && chain_kept(start, *self, y0) by {
                    assert(chain_kept(start, pre_item, y0));
                    lemma_chain_step(start, pre_item, *self, y, l, y0);
                    if let Some(p) = start.entities@[y0].parent {
                        assert(start.entities@[p as int].pending.is_none());
                        assert(p != y);
                    }
                    lemma_growing_step(pre_item, *self, y, l, work@, y0, l0);
                };
                assert forall|m: int| 0 <= m < done + 1 && self.alive((#[trigger] taken[m]).0 as int)
                    implies self.children_of(taken[m].0 as int).len() == taken[m].1@.len() by {
                    if m < done {
                        assert(taken[m].0 < taken[done].0);
                        assert(self.entities@[taken[m].0 as int] == pre_item.entities@[taken[m].0 as int]);
                    }
                };
                done = done + 1;
                assert(work@ =~= taken.subrange(done, taken.len() as int));
            }
        }
        proof {
            assert forall|d: int| d >= 0 && #[trigger] start.pending_within(d) implies self.pending_within(d - 1) by {
                lemma_stems_shallower(start, *self, d);
            };
            assert forall|y: int|
                0 <= y < start.len() && (#[trigger] start.entities@[y]).pending.is_some()
                    && self.alive(y) implies self.children_of(y).len()
                    == start.entities@[y].pending.unwrap()@.len() by {
                let m = choose|m: int| 0 <= m < taken.len() && taken[m].0 == y;
                assert(taken[m].0 == y);
            };
            assert(work@ =~= Seq::<(usize, Vec<NodeTree>)>::empty());
            lemma_taken_work_matches(start, *self, taken, start.len() as int, taken.len() as int);
            assert forall|x: int|
                0 <= x < self.len() && (#[trigger] self.entities@[x]).pending.is_some()
                    implies exists|p: int, i: int|
                    0 <= p < start.len() && start.entities@[p].pending.is_some() && 0 <= i
                        < start.entities@[p].pending.unwrap()@.len() && self.children_of(p)[i] == x
                        && self.entities@[x].parent == Some(p as usize) && self.entities@[x].pending
                        == Some(start.entities@[p].pending.unwrap()@[i].children) by {
                let (m, i) = choose|m: int, i: int|
                    0 <= m < done && 0 <= i < taken[m].1@.len() && self.children_of(taken[m].0 as int)[i] == x
                        && self.entities@[x].parent == Some(taken[m].0) && self.entities@[x].pending
                        == Some(taken[m].1@[i].children);
                let p = taken[m].0 as int;
                assert(start.entities@[p].pending == Some(taken[m].1));
            };
            assert forall|y: int, i: int|
                0 <= y < start.len() && start.entities@[y].pending.is_some() && self.alive(y)
                    && 0 <= i < start.entities@[y].pending.unwrap()@.len() implies {
                    let l = start.entities@[y].pending.unwrap();
                    let c = #[trigger] self.children_of(y)[i] as int;
                    &&& self.alive(c)
                    &&& self.entities@[c].pending == Some(l@[i].children)
                    &&& template_types(self.entities@[c].template) == l@[i].component_map().dom()
                    &&& l@[i].component_map().submap_of(self.components_of(c))
                    &&& i < start.children_of(y).len() ==> c == start.children_of(y)[i]
                } by {
                let m = choose|m: int| 0 <= m < taken.len() && taken[m].0 == y;
                assert(taken[m].0 == y);
            };
            assert forall|y: int, j: int|
                0 <= y < start.len() && start.entities@[y].pending.is_some()
                    && start.entities@[y].pending.unwrap()@.len() <= j < start.children_of(y).len()
                    implies !self.alive(#[trigger] start.children_of(y)[j] as int) by {
                let m = choose|m: int| 0 <= m < taken.len() && taken[m].0 == y;
                assert(taken[m].0 == y);
            };
            assert forall|y: int, l: Vec<NodeTree>|
                #[trigger] growing_in(start, y, l, Seq::empty()) && clear_above(start, y)
                    implies growing_in(*self, y, l, Seq::empty()) && clear_above(*self, y) by {
                lemma_chain_clear(start, *self, y);
            };
        }
    }

    /// Runs scheduler passes until one of them does no work. Each pass removes
    /// a level of waiting trees, so this ends, and then nothing waits anywhere.
    pub fn run_spawn_schedule(&mut self)
        requires
            old(self).wf(),
        ensures
            final(self).wf(),
            old(self).len() <= final(self).len(),
            final(self).pending_within(-1),
            final(self).spawned_count == 0,
            forall|r: int|
                0 <= r < old(self).len() && old(self).alive(r) && clear_above(*old(self), r)
                    && (#[trigger] old(self).entities@[r]).pending.is_some() ==> built(
                    *final(self),
                    r,
                    old(self).entities@[r].pending.unwrap(),
                ),
            forall|r: int, i: int|
                0 <= r < old(self).len() && old(self).alive(r) && old(self).entities@[r].parent.is_none()
                    && old(self).entities@[r].pending.is_some() && 0 <= i
                    < old(self).entities@[r].pending.unwrap()@.len() && i < old(self).children_of(r).len()
                    ==> #[trigger] final(self).children_of(r)[i] == old(self).children_of(r)[i],
            forall|r: int|
                0 <= r < old(self).len() && (#[trigger] old(self).entities@[r]).parent.is_none() ==> {
                    &&& final(self).entities@[r].parent.is_none()
                    &&& final(self).alive(r) == old(self).alive(r)
                    &&& final(self).entities@[r].components == old(self).entities@[r].components
                    &&& final(self).entities@[r].template == old(self).entities@[r].template
                },
            old(self).pending_within(-1) ==> final(self).entities@ == old(self).entities@,
    {
        let ghost d0 = lemma_pending_depth_exists(self, self.len() as int);
        let ghost pre = *self;
        self.spawned_count = 0;
        proof {
            lemma_wf_depends_on_entities(&pre, self);
            assert forall|r: int|
                0 <= r < pre.len() && pre.alive(r) && pre.entities@[r].parent.is_none()
                    && (#[trigger] pre.entities@[r]).pending.is_some() implies growing_in(
                    *self,
                    r,
                    pre.entities@[r].pending.unwrap(),
                    Seq::empty(),
                ) by {};
        }
        let ghost mut d: int = d0;
        let ghost prev: int = d;
        let ghost reset = *self;
        proof {
            assert forall|r: int|
                0 <= r < pre.len() && pre.alive(r) && clear_above(pre, r)
                    && (#[trigger] pre.entities@[r]).pending.is_some() implies growing_in(
                    *self,
                    r,
                    pre.entities@[r].pending.unwrap(),
                    Seq::empty(),
                ) && clear_above(*self, r) by {
                lemma_clear_same_entities(pre, *self, r);
            };
        }
        self.unpack_children();
        proof {
            assert forall|r: int|
                0 <= r < pre.len() && pre.alive(r) && clear_above(pre, r)
                    && (#[trigger] pre.entities@[r]).pending.is_some() implies growing_in(
                    *self,
                    r,
                    pre.entities@[r].pending.unwrap(),
                    Seq::empty(),
                ) && clear_above(*self, r) by {
                assert(growing_in(reset, r, pre.entities@[r].pending.unwrap(), Seq::empty()));
                assert(clear_above(reset, r));
            };
            d = if prev >= 0 { prev - 1 } else { -2 };
            assert forall|r: int|
                0 <= r < pre.len() && pre.alive(r) && pre.entities@[r].parent.is_none()
                    && (#[trigger] pre.entities@[r]).pending.is_some() implies growing_in(
                    *self,
                    r,
                    pre.entities@[r].pending.unwrap(),
                    Seq::empty(),
                ) && self.entities@[r].parent.is_none() by {
                assert(growing_in(reset, r, pre.entities@[r].pending.unwrap(), Seq::empty()));
            };
            assert forall|r: int|
                0 <= r < pre.len() && pre.alive(r) && pre.entities@[r].parent.is_none()
                    && (#[trigger] pre.entities@[r]).pending.is_some() implies self.entities@[r].pending.is_none()
                    && forall|i: int|
                    0 <= i < pre.entities@[r].pending.unwrap()@.len() && i < pre.children_of(r).len()
                        ==> self.children_of(r)[i] == pre.children_of(r)[i] by {
                assert(growing_in(reset, r, pre.entities@[r].pending.unwrap(), Seq::empty()));
                assert(self.alive(r));
                assert(reset.entities@[r] == pre.entities@[r]);
                assert forall|i: int|
                    0 <= i < pre.entities@[r].pending.unwrap()@.len() && i < pre.children_of(r).len()
                        implies self.children_of(r)[i] == pre.children_of(r)[i] by {
                    assert(self.children_of(r)[i] == reset.children_of(r)[i]);
                };
            };
        }
        assert forall|r: int|
            0 <= r < pre.len() && (#[trigger] pre.entities@[r]).parent.is_none() implies {
                &&& self.entities@[r].parent.is_none()
                &&& self.alive(r) == pre.alive(r)
                &&& self.entities@[r].components == pre.entities@[r].components
                &&& self.entities@[r].template == pre.entities@[r].template
            } by {
            assert(reset.entities@[r] == pre.entities@[r]);
        };
        while self.spawned_count != 0
            invariant
                self.wf(),
                old(self).len() <= self.len(),
                pre == *old(self),
                d >= -2,
                self.pending_within(d),
                d == -2 ==> self.spawned_count == 0,
                self.spawned_count == 0 ==> self.pending_within(-1),
                pre.pending_within(-1) ==> self.spawned_count == 0 && self.entities@ == pre.entities@,
                forall|r: int|
                    0 <= r < pre.len() && pre.alive(r) && pre.entities@[r].parent.is_none()
                        && (#[trigger] pre.entities@[r]).pending.is_some() ==> growing_in(
                        *self,
                        r,
                        pre.entities@[r].pending.unwrap(),
                        Seq::empty(),
                    ) && self.entities@[r].parent.is_none(),
                forall|r: int|
                    0 <= r < pre.len() && pre.alive(r) && pre.entities@[r].parent.is_none()
                        && (#[trigger] pre.entities@[r]).pending.is_some() ==> self.entities@[r].pending.is_none()
                        && forall|i: int|
                        0 <= i < pre.entities@[r].pending.unwrap()@.len() && i < pre.children_of(r).len()
                            ==> self.children_of(r)[i] == pre.children_of(r)[i],
                forall|r: int|
                    0 <= r < pre.len() && (#[trigger] pre.entities@[r]).parent.is_none() ==> {
                        &&& self.entities@[r].parent.is_none()
                        &&& self.alive(r) == pre.alive(r)
                        &&& self.entities@[r].components == pre.entities@[r].components
                        &&& self.entities@[r].template == pre.entities@[r].template
                    },
                forall|r: int|
                    0 <= r < pre.len() && pre.alive(r) && clear_above(pre, r)
                        && (#[trigger] pre.entities@[r]).pending.is_some() ==> growing_in(
                        *self,
                        r,
                        pre.entities@[r].pending.unwrap(),
                        Seq::empty(),
                    ) && clear_above(*self, r),
            decreases d + 2,
        {
            let ghost before = *self;
            self.spawned_count = 0;
            proof {
                lemma_wf_depends_on_entities(&before, self);
                assert forall|r: int|
                    0 <= r < pre.len() && pre.alive(r) && pre.entities@[r].parent.is_none()
                        && (#[trigger] pre.entities@[r]).pending.is_some() implies growing_in(
                        *self,
                        r,
                        pre.entities@[r].pending.unwrap(),
                        Seq::empty(),
                    ) by {
                    lemma_growing_same_entities(before, *self, r, pre.entities@[r].pending.unwrap(), Seq::empty());
                };
                assert forall|r: int|
                    0 <= r < pre.len() && pre.alive(r) && clear_above(pre, r)
                        && (#[trigger] pre.entities@[r]).pending.is_some() implies growing_in(
                        *self,
                        r,
                        pre.entities@[r].pending.unwrap(),
                        Seq::empty(),
                    ) && clear_above(*self, r) by {
                    lemma_growing_same_entities(before, *self, r, pre.entities@[r].pending.unwrap(), Seq::empty());
                    lemma_clear_same_entities(before, *self, r);
                };
            }
            let ghost prev: int = d;
            let ghost reset = *self;
            self.unpack_children();
            proof {
                d = if prev >= 0 { prev - 1 } else { -2 };
                assert forall|r: int|
                    0 <= r < pre.len() && pre.alive(r) && pre.entities@[r].parent.is_none()
                        && (#[trigger] pre.entities@[r]).pending.is_some() implies growing_in(
                        *self,
                        r,
                        pre.entities@[r].pending.unwrap(),
                        Seq::empty(),
                    ) && self.entities@[r].parent.is_none() by {
                    assert(growing_in(reset, r, pre.entities@[r].pending.unwrap(), Seq::empty()));
                };
                assert forall|r: int|
                    0 <= r < pre.len() && pre.alive(r) && pre.entities@[r].parent.is_none()
                        && (#[trigger] pre.entities@[r]).pending.is_some() implies self.entities@[r].pending.is_none()
                        && forall|i: int|
                        0 <= i < pre.entities@[r].pending.unwrap()@.len() && i < pre.children_of(r).len()
                            ==> self.children_of(r)[i] == pre.children_of(r)[i] by {
                    assert(growing_in(reset, r, pre.entities@[r].pending.unwrap(), Seq::empty()));
                    assert(reset.entities@[r] == before.entities@[r]);
                    assert(self.children_of(r) == reset.children_of(r));
                };
                assert forall|r: int|
                    0 <= r < pre.len() && (#[trigger] pre.entities@[r]).parent.is_none() implies {
                        &&& self.entities@[r].parent.is_none()
                        &&& self.alive(r) == pre.alive(r)
                        &&& self.entities@[r].components == pre.entities@[r].components
                        &&& self.entities@[r].template == pre.entities@[r].template
                    } by {
                    assert(reset.entities@[r] == before.entities@[r]);
                };
                assert forall|r: int|
                    0 <= r < pre.len() && pre.alive(r) && clear_above(pre, r)
                        && (#[trigger] pre.entities@[r]).pending.is_some() implies growing_in(
                        *self,
                        r,
                        pre.entities@[r].pending.unwrap(),
                        Seq::empty(),
                    ) && clear_above(*self, r) by {
                    assert(growing_in(reset, r, pre.entities@[r].pending.unwrap(), Seq::empty()));
                    assert(clear_above(reset, r));
                };
            }
        }
        proof {
            assert forall|r: int|
                0 <= r < pre.len() && pre.alive(r) && clear_above(pre, r)
                    && (#[trigger] pre.entities@[r]).pending.is_some() implies built(
                    *self,
                    r,
                    pre.entities@[r].pending.unwrap(),
                ) by {
                lemma_growing_built(*self, r, pre.entities@[r].pending.unwrap());
            };
            assert forall|r: int, i: int|
                0 <= r < pre.len() && pre.alive(r) && pre.entities@[r].parent.is_none()
                    && pre.entities@[r].pending.is_some() && 0 <= i
                    < pre.entities@[r].pending.unwrap()@.len() && i < pre.children_of(r).len()
                    implies #[trigger] self.children_of(r)[i] == pre.children_of(r)[i] by {
                assert(pre.entities@[r].pending.is_some());
            };
        }
    }

    /// Attaches `value` as the component of type `type_id` of `entity`.
    pub fn insert_component(&mut self, entity: usize, type_id: u64, value: ByteHolder)
        requires
            old(self).wf(),
            entity < old(self).len(),
        ensures
            final(self).wf(),
            final(self).len() == old(self).len(),
            forall|e: int| 0 <= e < old(self).len() && e != entity ==> final(self).entities@[e] == old(self).entities@[e],
            final(self).components_of(entity as int) == old(self).components_of(entity as int).insert(type_id, value),
            final(self).entities@[entity as int].alive == old(self).entities@[entity as int].alive,
            final(self).entities@[entity as int].parent == old(self).entities@[entity as int].parent,
            final(self).entities@[entity as int].children == old(self).entities@[entity as int].children,
            final(self).entities@[entity as int].template == old(self).entities@[entity as int].template,
            final(self).entities@[entity as int].pending == old(self).entities@[entity as int].pending,
            final(self).registered == old(self).registered,
            final(self).spawned_count == old(self).spawned_count,
    {
        let ghost pre = *self;
        self.entities[entity].components.insert(type_id, value);
        proof {
            lemma_wf_same_shape(&pre, self);
        }
    }

    /// Replaces the value of the existing component of type `type_id` of `entity`.
    pub fn write_component(&mut self, entity: usize, type_id: u64, value: ByteHolder)
        requires
            old(self).wf(),
            entity < old(self).len(),
            old(self).components_of(entity as int).contains_key(type_id),
        ensures
            final(self).wf(),
            final(self).len() == old(self).len(),
            forall|e: int| 0 <= e < old(self).len() && e != entity ==> final(self).entities@[e] == old(self).entities@[e],
            final(self).components_of(entity as int) == old(self).components_of(entity as int).insert(type_id, value),
            final(self).entities@[entity as int].alive == old(self).entities@[entity as int].alive,
            final(self).entities@[entity as int].parent == old(self).entities@[entity as int].parent,
            final(self).entities@[entity as int].children == old(self).entities@[entity as int].children,
            final(self).entities@[entity as int].template == old(self).entities@[entity as int].template,
            final(self).entities@[entity as int].pending == old(self).entities@[entity as int].pending,
            final(self).registered == old(self).registered,
            final(self).spawned_count == old(self).spawned_count,
    {
        self.insert_component(entity, type_id, value);
    }

    /// Detaches the component of type `type_id` from `entity`, if it has one.
    pub fn remove_component(&mut self, entity: usize, type_id: u64)
        requires
            old(self).wf(),
            entity < old(self).len(),
        ensures
            final(self).wf(),
            final(self).len() == old(self).len(),
            forall|e: int| 0 <= e < old(self).len() && e != entity ==> final(self).entities@[e] == old(self).entities@[e],
            final(self).components_of(entity as int) == old(self).components_of(entity as int).remove(type_id),
            final(self).entities@[entity as int].alive == old(self).entities@[entity as int].alive,
            final(self).entities@[entity as int].parent == old(self).entities@[entity as int].parent,
            final(self).entities@[entity as int].children == old(self).entities@[entity as int].children,
            final(self).entities@[entity as int].template == old(self).entities@[entity as int].template,
            final(self).entities@[entity as int].pending == old(self).entities@[entity as int].pending,
            final(self).registered == old(self).registered,
            final(self).spawned_count == old(self).spawned_count,
    {
        let ghost pre = *self;
        self.entities[entity].components.remove(&type_id);
        proof {
            lemma_wf_same_shape(&pre, self);
            assert(self.components_of(entity as int) =~= pre.components_of(entity as int).remove(type_id));
        }
    }

    /// Whether `entity` has a component of type `type_id`.
    pub fn contains_component(&self, entity: usize, type_id: u64) -> (r: bool)
        requires
            entity < self.len(),
        ensures
            r == self.components_of(entity as int).contains_key(type_id),
    {
        self.entities[entity].components.contains_key(&type_id)
    }

    /// The component of type `type_id` of `entity` read as a `T`: nothing when
    /// there is none or its bytes do not encode a `T`.
    pub fn get_component<T: PlainData>(&self, entity: usize, type_id: u64) -> (r: Option<T>)
        requires
            entity < self.len(),
        ensures
            r.is_some() <==> self.components_of(entity as int).contains_key(type_id)
                && T::spec_decodable(self.components_of(entity as int)[type_id].bytes@),
            r.is_some() ==> r.unwrap().spec_encode() == self.components_of(entity as int)[type_id].bytes@,
    {
        match self.entities[entity].components.get(&type_id) {
            Some(v) => {
                if T::decodable(v.bytes.as_slice()) {
                    Some(v.downcast_ref())
                } else {
                    None
                }
            },
            None => None,
        }
    }

    /// How many components `entity` has.
    pub fn component_count(&self, entity: usize) -> (r: usize)
        requires
            entity < self.len(),
        ensures
            r == self.components_of(entity as int).len(),
    {
        self.entities[entity].components.len()
    }
}

} // verus!
