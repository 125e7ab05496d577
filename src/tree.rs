//! Declarative node trees: the components and children that an entity should have.
use vstd::prelude::*;

use crate::byte_holder::{ByteHolder, ByteLayout, PlainData};
use crate::component_holder::ComponentHolder;
use crate::raw_component_holder::RawComponentHolder;
use crate::typed_component_holder::TypedComponentHolder;

verus! {

/// What a list of components describes: for each type identifier, the value of
/// the last component of that type in the list.
pub open spec fn holders_map(s: Seq<ComponentHolder>) -> Map<u64, ByteHolder>
    decreases s.len(),
{
    if s.len() == 0 {
        Map::empty()
    } else {
        holders_map(s.drop_last()).insert(s.last().spec_type_id(), s.last().spec_val())
    }
}

/// Appending a component sets its type to its value.
pub proof fn lemma_holders_map_push(s: Seq<ComponentHolder>, h: ComponentHolder)
    ensures
        holders_map(s.push(h)) == holders_map(s).insert(h.spec_type_id(), h.spec_val()),
{
    assert(s.push(h).drop_last() =~= s);
}

/// The map holds a key exactly when some component has it.
pub proof fn lemma_holders_map_contains(s: Seq<ComponentHolder>, k: u64)
    ensures
        holders_map(s).contains_key(k) <==> exists|i: int|
            0 <= i < s.len() && (#[trigger] s[i]).spec_type_id() == k,
    decreases s.len(),
{
    if s.len() > 0 {
        let t = s.drop_last();
        lemma_holders_map_contains(t, k);
        if s.last().spec_type_id() != k {
            if holders_map(s).contains_key(k) {
                let i = choose|i: int| 0 <= i < t.len() && (#[trigger] t[i]).spec_type_id() == k;
                assert(s[i] == t[i]);
            }
            if exists|i: int| 0 <= i < s.len() && (#[trigger] s[i]).spec_type_id() == k {
                let i = choose|i: int| 0 <= i < s.len() && (#[trigger] s[i]).spec_type_id() == k;
                assert(s[i] == t[i]);
            }
        } else {
            assert(s[s.len() - 1].spec_type_id() == k);
        }
    }
}

/// The value under a key is that of the last component with the key.
pub proof fn lemma_holders_map_value(s: Seq<ComponentHolder>, i: int)
    requires
        0 <= i < s.len(),
        forall|j: int| i < j < s.len() ==> (#[trigger] s[j]).spec_type_id() != s[i].spec_type_id(),
    ensures
        holders_map(s).contains_key(s[i].spec_type_id()),
        holders_map(s)[s[i].spec_type_id()] == s[i].spec_val(),
    decreases s.len(),
{
    let t = s.drop_last();
    if i < s.len() - 1 {
        assert(s[s.len() - 1].spec_type_id() != s[i].spec_type_id());
        assert forall|j: int| i < j < t.len() implies (#[trigger] t[j]).spec_type_id() != t[i].spec_type_id() by {
            assert(t[j] == s[j]);
        };
        lemma_holders_map_value(t, i);
    }
}

/// A depth bound stays a bound when it grows.
pub proof fn lemma_depth_monotone(t: &NodeTree, d: int, e: int)
    requires
        t.depth_within(d),
        d <= e,
    ensures
        t.depth_within(e),
    decreases t,
{
    assert forall|i: int| 0 <= i < t.children@.len() implies (#[trigger] t.children@[i]).depth_within(e - 1) by {
        lemma_depth_monotone(&t.children@[i], d - 1, e - 1);
    };
}

/// The first `i` children of a tree share a depth bound one below `m`.
proof fn lemma_children_depth(t: &NodeTree, i: int) -> (m: int)
    requires
        0 <= i <= t.children@.len(),
    ensures
        m >= 1,
        forall|j: int| 0 <= j < i ==> (#[trigger] t.children@[j]).depth_within(m - 1),
    decreases t, i,
{
    if i == 0 {
        1
    } else {
        let m0 = lemma_children_depth(t, i - 1);
        let c = &t.children@[i - 1];
        let dc = lemma_children_depth(c, c.children@.len() as int);
        if dc + 1 > m0 {
            assert forall|j: int| 0 <= j < i - 1 implies (#[trigger] t.children@[j]).depth_within(dc) by {
                lemma_depth_monotone(&t.children@[j], m0 - 1, dc);
            };
            dc + 1
        } else {
            lemma_depth_monotone(c, dc, m0 - 1);
            m0
        }
    }
}

/// Every tree has a depth bound.
pub proof fn lemma_depth_exists(t: &NodeTree) -> (d: int)
    ensures
        t.depth_within(d),
{
    lemma_children_depth(t, t.children@.len() as int)
}

/// Replacing a component by one of the same type, with no later component of
/// that type, sets the type to the new value.
pub proof fn lemma_holders_map_update(s: Seq<ComponentHolder>, i: int, h: ComponentHolder)
    requires
        0 <= i < s.len(),
        s[i].spec_type_id() == h.spec_type_id(),
        forall|j: int| i < j < s.len() ==> (#[trigger] s[j]).spec_type_id() != h.spec_type_id(),
    ensures
        holders_map(s.update(i, h)) == holders_map(s).insert(h.spec_type_id(), h.spec_val()),
    decreases s.len(),
{
    let u = s.update(i, h);
    let t = s.drop_last();
    if i == s.len() - 1 {
        assert(u.drop_last() =~= t);
        assert(holders_map(u) =~= holders_map(s).insert(h.spec_type_id(), h.spec_val()));
    } else {
        assert(u.drop_last() =~= t.update(i, h));
        assert forall|j: int| i < j < t.len() implies (#[trigger] t[j]).spec_type_id() != h.spec_type_id() by {
            assert(t[j] == s[j]);
        };
        lemma_holders_map_update(t, i, h);
        assert(u.last() == s.last());
        assert(s.last().spec_type_id() != h.spec_type_id());
        assert(holders_map(u) =~= holders_map(s).insert(h.spec_type_id(), h.spec_val()));
    }
}

/// The type identifiers that a registration queue names, over all its entries.
pub open spec fn queued_types(q: Seq<Vec<u64>>) -> Set<u64> {
    Set::new(|k: u64| exists|a: int, b: int| 0 <= a < q.len() && 0 <= b < q[a]@.len() && q[a]@[b] == k)
}

/// Adding an entry to a queue adds the types it names.
pub proof fn lemma_queued_push(q: Seq<Vec<u64>>, e: Vec<u64>)
    ensures
        queued_types(q.push(e)) == queued_types(q).union(e@.to_set()),
{
    let p = q.push(e);
    assert forall|k: u64| queued_types(p).contains(k) <==> queued_types(q).union(e@.to_set()).contains(k) by {
        if queued_types(p).contains(k) {
            let (a, b) = choose|a: int, b: int| 0 <= a < p.len() && 0 <= b < p[a]@.len() && p[a]@[b] == k;
            if a < q.len() {
                assert(q[a]@[b] == k);
            } else {
                assert(e@[b] == k);
            }
        }
        if queued_types(q).contains(k) {
            let (a, b) = choose|a: int, b: int| 0 <= a < q.len() && 0 <= b < q[a]@.len() && q[a]@[b] == k;
            assert(p[a]@[b] == k);
        }
        if e@.to_set().contains(k) {
            let b = choose|b: int| 0 <= b < e@.len() && e@[b] == k;
            assert(p[q.len() as int]@[b] == k);
        }
    };
    assert(queued_types(p) =~= queued_types(q).union(e@.to_set()));
}

/// A node with one component per type lists each type once.
pub proof fn lemma_types_no_duplicates(t: &NodeTree)
    requires
        t.types_unique(),
    ensures
        t.component_types().no_duplicates(),
{
    let s = t.component_types();
    assert forall|i: int, j: int| 0 <= i < s.len() && 0 <= j < s.len() && i != j implies s[i] != s[j] by {
        if i < j {
            assert(t.components@[i].spec_type_id() != t.components@[j].spec_type_id());
        } else {
            assert(t.components@[j].spec_type_id() != t.components@[i].spec_type_id());
        }
    };
}

/// A described entity: its components, at most one of each type, its ordered
/// children, and the registrations it asks of a world before it is applied,
/// one entry per component or bundle added, each naming the types it brings.
pub struct NodeTree {
    pub components: Vec<ComponentHolder>,
    pub children: Vec<NodeTree>,
    pub register_queue: Vec<Vec<u64>>,
}

impl NodeTree {
    /// For each type identifier, the value that this node gives it.
    pub open spec fn component_map(&self) -> Map<u64, ByteHolder> {
        holders_map(self.components@)
    }

    /// The types of this node's components, in order.
    pub open spec fn component_types(&self) -> Seq<u64> {
        self.components@.map_values(|h: ComponentHolder| h.spec_type_id())
    }

    /// No two components of this node have the same type.
    pub open spec fn types_unique(&self) -> bool {
        forall|i: int, j: int|
            0 <= i < j < self.components@.len() ==> (#[trigger] self.components@[i]).spec_type_id()
                != (#[trigger] self.components@[j]).spec_type_id()
    }

    /// Every component type of this node is queued for registration.
    pub open spec fn registers_own_types(&self) -> bool {
        forall|i: int|
            0 <= i < self.components@.len() ==> queued_types(self.register_queue@).contains(
                (#[trigger] self.components@[i]).spec_type_id(),
            )
    }

    /// This node and every node below it hold one component per type and
    /// queue their component types for registration.
    pub open spec fn wf(&self) -> bool
        decreases self,
    {
        &&& self.types_unique()
        &&& self.registers_own_types()
        &&& forall|i: int|
            0 <= i < self.children@.len() ==> (#[trigger] self.children@[i]).wf()
    }

    /// No path from this node downwards holds more than `d` nodes.
    pub open spec fn depth_within(&self, d: int) -> bool
        decreases self,
    {
        &&& d >= 1
        &&& forall|i: int|
            0 <= i < self.children@.len() ==> (#[trigger] self.children@[i]).depth_within(d - 1)
    }

    /// Whether some entry of the registration queue names `k`.
    fn queue_names(&self, k: u64) -> (r: bool)
        ensures
            r == queued_types(self.register_queue@).contains(k),
    {
        let mut a: usize = 0;
        while a < self.register_queue.len()
            invariant
                a <= self.register_queue@.len(),
                forall|x: int, y: int|
                    0 <= x < a && 0 <= y < self.register_queue@[x]@.len() ==> self.register_queue@[x]@[y] != k,
            decreases self.register_queue@.len() - a,
        {
            let entry = &self.register_queue[a];
            let mut b: usize = 0;
            while b < entry.len()
                invariant
                    b <= entry@.len(),
                    a < self.register_queue@.len(),
                    *entry == self.register_queue@[a as int],
                    forall|y: int| 0 <= y < b ==> entry@[y] != k,
                decreases entry@.len() - b,
            {
                if entry[b] == k {
                    proof {
                        assert(self.register_queue@[a as int]@[b as int] == k);
                        assert(queued_types(self.register_queue@).contains(k));
                    }
                    return true;
                }
                b = b + 1;
            }
            a = a + 1;
        }
        false
    }

    /// Whether this node and every node below it hold one component per type
    /// and queue their component types for registration.
    pub fn is_wf(&self) -> (r: bool)
        ensures
            r == self.wf(),
        decreases self,
    {
        let mut i: usize = 0;
        while i < self.components.len()
            invariant
                i <= self.components@.len(),
                forall|x: int, y: int|
                    0 <= x < y < self.components@.len() && x < i ==> (#[trigger] self.components@[x]).spec_type_id()
                        != (#[trigger] self.components@[y]).spec_type_id(),
                forall|j: int| 0 <= j < i ==> queued_types(self.register_queue@).contains(
                    (#[trigger] self.components@[j]).spec_type_id(),
                ),
            decreases self.components@.len() - i,
        {
            let k = self.components[i].type_id();
            if !self.queue_names(k) {
                return false;
            }
            let mut j: usize = i + 1;
            while j < self.components.len()
                invariant
                    i < j <= self.components@.len(),
                    k == self.components@[i as int].spec_type_id(),
                    forall|y: int| i < y < j ==> self.components@[y].spec_type_id() != k,
                decreases self.components@.len() - j,
            {
                if self.components[j].type_id() == k {
                    return false;
                }
                j = j + 1;
            }
            i = i + 1;
        }
        let mut c: usize = 0;
        while c < self.children.len()
            invariant
                c <= self.children@.len(),
                self.types_unique(),
                self.registers_own_types(),
                forall|j: int| 0 <= j < c ==> (#[trigger] self.children@[j]).wf(),
            decreases self.children@.len() - c,
        {
            if !self.children[c].is_wf() {
                return false;
            }
            c = c + 1;
        }
        true
    }

    /// A node with no components and no children.
    pub fn new() -> (r: NodeTree)
        ensures
            r.wf(),
            r.components@.len() == 0,
            r.children@.len() == 0,
            r.register_queue@.len() == 0,
    {
        NodeTree { components: Vec::new(), children: Vec::new(), register_queue: Vec::new() }
    }

    /// Sets `h` as this node's component of its type: it replaces the one of
    /// that type in place, or is appended when there is none.
    fn set_component(&mut self, h: ComponentHolder)
        requires
            old(self).types_unique(),
        ensures
            final(self).types_unique(),
            final(self).component_map() == old(self).component_map().insert(h.spec_type_id(), h.spec_val()),
            final(self).component_types() == if old(self).component_map().contains_key(h.spec_type_id()) {
                old(self).component_types()
            } else {
                old(self).component_types().push(h.spec_type_id())
            },
            final(self).children == old(self).children,
            final(self).register_queue == old(self).register_queue,
    {
        let k = h.type_id();
        proof {
            lemma_holders_map_contains(self.components@, k);
        }
        match self.find(k) {
            Some(i) => {
                proof {
                    assert forall|j: int| i < j < self.components@.len() implies (#[trigger] self.components@[j]).spec_type_id()
                        != h.spec_type_id() by {
                        assert(self.components@[i as int].spec_type_id() != self.components@[j].spec_type_id());
                    };
                    lemma_holders_map_update(self.components@, i as int, h);
                }
                let ghost before = *self;
                self.components.set(i, h);
                proof {
                    assert(self.component_types() =~= before.component_types());
                    assert forall|x: int, y: int|
                        0 <= x < y < self.components@.len() implies (#[trigger] self.components@[x]).spec_type_id()
                            != (#[trigger] self.components@[y]).spec_type_id() by {
                        assert(self.components@[x].spec_type_id() == before.components@[x].spec_type_id());
                        assert(self.components@[y].spec_type_id() == before.components@[y].spec_type_id());
                    };
                }
            },
            None => {
                proof {
                    lemma_holders_map_push(self.components@, h);
                }
                let ghost before = *self;
                self.components.push(h);
                proof {
                    assert(self.component_types() =~= before.component_types().push(k));
                    assert forall|x: int, y: int|
                        0 <= x < y < self.components@.len() implies (#[trigger] self.components@[x]).spec_type_id()
                            != (#[trigger] self.components@[y]).spec_type_id() by {
                        assert(self.components@[x] == before.components@[x]);
                        if y < before.components@.len() {
                            assert(self.components@[y] == before.components@[y]);
                        } else {
                            assert(before.components@[x].spec_type_id() != k);
                        }
                    };
                }
            },
        }
    }

    /// This node with the component `component` of type `type_id`, which
    /// replaces any earlier component of that type; one registration entry
    /// naming `type_id` is queued.
    pub fn with<T: PlainData>(self, type_id: u64, component: T) -> (r: NodeTree)
        requires
            self.wf(),
        ensures
            r.wf(),
            r.component_map() == self.component_map().insert(type_id, r.component_map()[type_id]),
            r.component_map()[type_id].wf(),
            r.component_map()[type_id].bytes@ == component.spec_encode(),
            r.component_types() == if self.component_map().contains_key(type_id) {
                self.component_types()
            } else {
                self.component_types().push(type_id)
            },
            r.children == self.children,
            r.register_queue@.len() == self.register_queue@.len() + 1,
            r.register_queue@.drop_last() == self.register_queue@,
            r.register_queue@.last()@ == seq![type_id],
    {
        let mut node = self;
        let holder = ComponentHolder::Typed(TypedComponentHolder::new(type_id, component));
        node.set_component(holder);
        let ghost mid = node;
        node.register_queue.push(vec![type_id]);
        proof {
            assert(node.register_queue@.drop_last() =~= self.register_queue@);
            lemma_queued_push(self.register_queue@, node.register_queue@.last());
            assert(node.register_queue@ =~= self.register_queue@.push(node.register_queue@.last()));
            assert(node.register_queue@.last()@ =~= seq![type_id]);
            assert forall|i: int| 0 <= i < node.components@.len() implies queued_types(node.register_queue@).contains(
                (#[trigger] node.components@[i]).spec_type_id(),
            ) by {
                let t = node.components@[i].spec_type_id();
                assert(node.component_types()[i] == t);
                assert(node.component_types().len() == node.components@.len());
                assert(self.component_types().len() == self.components@.len());
                if i < self.components@.len() {
                    assert(self.component_types()[i] == t);
                    assert(queued_types(self.register_queue@).contains(self.components@[i].spec_type_id()));
                } else {
                    assert(!self.component_map().contains_key(type_id));
                    assert(t == type_id);
                    assert(node.register_queue@.last()@[0] == type_id);
                }
            };
            assert(forall|i: int|
                0 <= i < node.children@.len() ==> (#[trigger] node.children@[i]).wf());
        }
        node
    }

    /// Whether this node has a component of type `type_id`.
    pub fn contains(&self, type_id: u64) -> (r: bool)
        ensures
            r == self.component_map().contains_key(type_id),
    {
        self.find(type_id).is_some()
    }

    /// The position of the last component of type `type_id`.
    fn find(&self, type_id: u64) -> (r: Option<usize>)
        ensures
            r.is_none() ==> !self.component_map().contains_key(type_id),
            r.is_some() ==> r.unwrap() < self.components@.len() && self.component_map().contains_key(
                type_id,
            ) && self.component_map()[type_id] == self.components@[r.unwrap() as int].spec_val()
                && self.components@[r.unwrap() as int].spec_type_id() == type_id,
    {
        let mut i: usize = self.components.len();
        while i > 0
            invariant
                i <= self.components@.len(),
                forall|j: int| i <= j < self.components@.len() ==> self.components@[j].spec_type_id() != type_id,
            decreases i,
        {
            if self.components[i - 1].type_id() == type_id {
                proof {
                    lemma_holders_map_value(self.components@, i - 1);
                }
                return Some(i - 1);
            }
            i = i - 1;
        }
        proof {
            lemma_holders_map_contains(self.components@, type_id);
        }
        None
    }

    /// The component of type `type_id` read as a `T`: nothing when the node
    /// has no such component or its bytes do not encode a `T`.
    pub fn get<T: PlainData>(&self, type_id: u64) -> (r: Option<T>)
        ensures
            r.is_some() <==> self.component_map().contains_key(type_id) && T::spec_decodable(
                self.component_map()[type_id].bytes@,
            ),
            r.is_some() ==> r.unwrap().spec_encode() == self.component_map()[type_id].bytes@,
    {
        match self.find(type_id) {
            Some(i) => self.components[i].downcast_ref(type_id),
            None => None,
        }
    }

    /// A copy of the bytes of the component of type `type_id`, if there is one.
    pub fn get_bytes(&self, type_id: u64) -> (r: Option<Vec<u8>>)
        ensures
            r.is_some() == self.component_map().contains_key(type_id),
            r.is_some() ==> r.unwrap()@ == self.component_map()[type_id].bytes@,
    {
        match self.find(type_id) {
            Some(i) => {
                let v = match &self.components[i] {
                    ComponentHolder::Raw(h) => &h.val,
                    ComponentHolder::Typed(h) => &h.val,
                };
                Some(v.clone().bytes)
            },
            None => None,
        }
    }

    /// This node with `child` appended to its children.
    pub fn with_child(self, child: NodeTree) -> (r: NodeTree)
        requires
            self.wf(),
            child.wf(),
        ensures
            r.wf(),
            r.children@ == self.children@.push(child),
            r.components == self.components,
            r.register_queue == self.register_queue,
    {
        let mut node = self;
        node.children.push(child);
        proof {
            assert forall|i: int| 0 <= i < node.children@.len() implies (#[trigger] node.children@[i]).wf() by {
                if i < self.children@.len() {
                    assert(node.children@[i] == self.children@[i]);
                }
            };
        }
        node
    }

    /// This node with `children` appended to its children, in order.
    pub fn with_children(self, children: Vec<NodeTree>) -> (r: NodeTree)
        requires
            self.wf(),
            forall|i: int| 0 <= i < children@.len() ==> (#[trigger] children@[i]).wf(),
        ensures
            r.wf(),
            r.children@ == self.children@ + children@,
            r.components == self.components,
            r.register_queue == self.register_queue,
    {
        let mut node = self;
        let mut rest = children;
        node.children.append(&mut rest);
        proof {
            assert forall|i: int| 0 <= i < node.children@.len() implies (#[trigger] node.children@[i]).wf() by {
                if i < self.children@.len() {
                    assert(node.children@[i] == self.children@[i]);
                } else {
                    assert(node.children@[i] == children@[i - self.children@.len()]);
                }
            };
        }
        node
    }
}

impl Default for NodeTree {
    /// A node with no components and no children.
    fn default() -> (r: NodeTree)
        ensures
            r.wf(),
            r.components@.len() == 0,
            r.children@.len() == 0,
            r.register_queue@.len() == 0,
    {
        NodeTree::new()
    }
}

/// Components given together, each as raw bytes under its type identifier, in
/// the order in which they were added.
pub struct Bundle {
    pub fields: Vec<RawComponentHolder>,
}

/// Bundle fields seen as components.
pub open spec fn raw_holders(s: Seq<RawComponentHolder>) -> Seq<ComponentHolder> {
    s.map_values(|f: RawComponentHolder| ComponentHolder::Raw(f))
}

impl Bundle {
    /// For each type identifier, the value of the last field of that type.
    pub open spec fn field_map(&self) -> Map<u64, ByteHolder> {
        holders_map(raw_holders(self.fields@))
    }

    /// A bundle with no fields.
    pub fn new() -> (r: Bundle)
        ensures
            r.fields@.len() == 0,
    {
        Bundle { fields: Vec::new() }
    }

    /// This bundle with a field of type `type_id` holding a copy of the bytes of `value`.
    pub fn with_field<T: PlainData>(self, type_id: u64, value: &T) -> (r: Bundle)
        ensures
            r.fields@.len() == self.fields@.len() + 1,
            r.fields@.drop_last() == self.fields@,
            r.fields@.last().type_id == type_id,
            r.fields@.last().val.wf(),
            r.fields@.last().val.bytes@ == value.spec_encode(),
    {
        let mut b = self;
        b.fields.push(RawComponentHolder::new(ByteHolder::from_ref(value), type_id));
        assert(b.fields@.drop_last() =~= self.fields@);
        b
    }

    /// This bundle with a field of type `type_id` holding a copy of `bytes`,
    /// which fill `layout` exactly.
    pub fn with_bytes(self, type_id: u64, bytes: &[u8], layout: ByteLayout) -> (r: Bundle)
        requires
            layout.wf(),
            bytes@.len() == layout.spec_size(),
        ensures
            r.fields@.len() == self.fields@.len() + 1,
            r.fields@.drop_last() == self.fields@,
            r.fields@.last().type_id == type_id,
            r.fields@.last().val.wf(),
            r.fields@.last().val.bytes@ == bytes@,
            r.fields@.last().val.layout == layout,
    {
        let mut b = self;
        b.fields.push(RawComponentHolder::new(ByteHolder::from_slice(bytes, layout), type_id));
        assert(b.fields@.drop_last() =~= self.fields@);
        b
    }
}

impl NodeTree {
    /// Splits `bundle` into one raw component per field, each replacing any
    /// earlier component of its type, and queues one registration entry for
    /// the whole bundle, naming its field types in order.
    pub fn insert_bundle(&mut self, bundle: Bundle)
        requires
            old(self).wf(),
        ensures
            final(self).wf(),
            final(self).component_map() == old(self).component_map().union_prefer_right(
                bundle.field_map(),
            ),
            final(self).children == old(self).children,
            final(self).register_queue@.len() == old(self).register_queue@.len() + 1,
            final(self).register_queue@.drop_last() == old(self).register_queue@,
            final(self).register_queue@.last()@ == bundle.fields@.map_values(|f: RawComponentHolder| f.type_id),
    {
        let ghost start = *self;
        let mut fields = bundle.fields;
        let ghost all = fields@;
        let ghost mut i: int = 0;
        let mut ids: Vec<u64> = Vec::new();
        while fields.len() > 0
            invariant
                0 <= i <= all.len(),
                fields@ == all.subrange(i, all.len() as int),
                self.children == start.children,
                self.register_queue == start.register_queue,
                self.types_unique(),
                forall|c: int|
                    0 <= c < self.components@.len() ==> queued_types(start.register_queue@).contains(
                        (#[trigger] self.components@[c]).spec_type_id(),
                    ) || ids@.contains(self.components@[c].spec_type_id()),
                forall|c: int| 0 <= c < self.children@.len() ==> (#[trigger] self.children@[c]).wf(),
                self.component_map() == start.component_map().union_prefer_right(
                    holders_map(raw_holders(all.subrange(0, i))),
                ),
                ids@ == all.subrange(0, i).map_values(|f: RawComponentHolder| f.type_id),
            decreases fields@.len(),
        {
            let f = fields.remove(0);
            let type_id = f.type_id;
            let h = ComponentHolder::Raw(f);
            proof {
                lemma_holders_map_push(raw_holders(all.subrange(0, i)), h);
                assert(raw_holders(all.subrange(0, i + 1)) =~= raw_holders(all.subrange(0, i)).push(h));
            }
            let ghost before = *self;
            let ghost ids_before = ids@;
            self.set_component(h);
            ids.push(type_id);
            proof {
                i = i + 1;
                assert(fields@ =~= all.subrange(i, all.len() as int));
                assert(ids@ =~= all.subrange(0, i).map_values(|f: RawComponentHolder| f.type_id));
                assert(self.component_map() =~= start.component_map().union_prefer_right(
                    holders_map(raw_holders(all.subrange(0, i))),
                ));
                assert forall|c: int|
                    0 <= c < self.components@.len() implies queued_types(start.register_queue@).contains(
                        (#[trigger] self.components@[c]).spec_type_id(),
                    ) || ids@.contains(self.components@[c].spec_type_id()) by {
                    let t = self.components@[c].spec_type_id();
                    assert(self.component_types()[c] == t);
                    assert(self.component_types().len() == self.components@.len());
                    assert(before.component_types().len() == before.components@.len());
                    if c < before.components@.len() {
                        assert(before.component_types()[c] == t);
                        assert(before.components@[c].spec_type_id() == t);
                        if ids_before.contains(t) {
                            let x = choose|x: int| 0 <= x < ids_before.len() && ids_before[x] == t;
                            assert(ids@[x] == t);
                        }
                    } else {
                        assert(t == type_id);
                        assert(ids@[ids@.len() - 1] == t);
                    }
                };
            }
        }
        let ghost queue_before = self.register_queue@;
        self.register_queue.push(ids);
        proof {
            assert(all.subrange(0, i) =~= all);
            assert(self.register_queue@.drop_last() =~= start.register_queue@);
            lemma_queued_push(start.register_queue@, self.register_queue@.last());
            assert(self.register_queue@ =~= start.register_queue@.push(self.register_queue@.last()));
            assert forall|c: int| 0 <= c < self.components@.len() implies queued_types(self.register_queue@).contains(
                (#[trigger] self.components@[c]).spec_type_id(),
            ) by {
                let t = self.components@[c].spec_type_id();
                if !queued_types(start.register_queue@).contains(t) {
                    assert(self.register_queue@.last()@.contains(t));
                }
            };
            assert(forall|c: int| 0 <= c < self.children@.len() ==> (#[trigger] self.children@[c]).wf());
        }
    }

    /// This node with the fields of `bundle` added as components, under one
    /// registration entry for the whole bundle.
    pub fn with_bundle(self, bundle: Bundle) -> (r: NodeTree)
        requires
            self.wf(),
        ensures
            r.wf(),
            r.component_map() == self.component_map().union_prefer_right(bundle.field_map()),
            r.children == self.children,
            r.register_queue@.len() == self.register_queue@.len() + 1,
            r.register_queue@.drop_last() == self.register_queue@,
            r.register_queue@.last()@ == bundle.fields@.map_values(|f: RawComponentHolder| f.type_id),
    {
        let mut node = self;
        node.insert_bundle(bundle);
        node
    }
}

/// Each field of a bundle added to a node can be found on the node under its
/// type, with the field's own bytes, unless a later field has the same type.
pub proof fn lemma_bundle_fields_found(node: Map<u64, ByteHolder>, bundle: &Bundle, i: int)
    requires
        0 <= i < bundle.fields@.len(),
        forall|j: int| i < j < bundle.fields@.len() ==> (#[trigger] bundle.fields@[j]).type_id != bundle.fields@[i].type_id,
    ensures
        node.union_prefer_right(bundle.field_map()).contains_key(bundle.fields@[i].type_id),
        node.union_prefer_right(bundle.field_map())[bundle.fields@[i].type_id] == bundle.fields@[i].val,
{
    let s = raw_holders(bundle.fields@);
    assert forall|j: int| i < j < s.len() implies (#[trigger] s[j]).spec_type_id() != s[i].spec_type_id() by {
        assert(bundle.fields@[j].type_id != bundle.fields@[i].type_id);
    };
    lemma_holders_map_value(s, i);
}

} // verus!
