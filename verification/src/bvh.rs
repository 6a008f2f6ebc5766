//! The bounding volume hierarchy: a full binary tree of nested boxes with
//! one leaf ("Fruit") per entity, used as the broad phase of collision
//! detection.
//!
//! The tree's conservative invariant ([`Node::wf`]) says every Branch box
//! contains both children's boxes; the tight invariant ([`Node::tight`])
//! says it equals their union. Build and shrink establish tightness;
//! update, insert and delete keep the conservative invariant.

use vstd::prelude::*;
use vstd::multiset::Multiset;
use vstd::seq_lib::lemma_multiset_commutative;
use crate::collider::Collider;
use crate::collider::LAYERS;
use crate::collider::layers_hit;
use crate::collider::layers_intersect;
use crate::geometry::Aabb;
use crate::geometry::Vec2;
use crate::geometry::lemma_contains_overlap;
use crate::geometry::lemma_contains_point;

verus! {

/// Everything the index stores about one entity: its collider, its
/// position, the collider's box at that position, and its identifier.
#[derive(Clone, Debug)]
pub struct EntityData {
    pub collider: Collider,
    pub position: Vec2,
    pub aabb: Aabb,
    pub id: u32,
}

impl EntityData {
    /// The recorded box really is the collider's box at the position.
    pub open spec fn wf(self) -> bool {
        &&& self.collider.wf()
        &&& self.position.pos_wf()
        &&& self.aabb == self.collider.bb_spec(self.position)
    }
}

/// A single node in the bounding volume hierarchy: either a Branch with two
/// children, or a Fruit holding one entity id and its collision layer set.
#[derive(Debug, PartialEq)]
pub enum Node {
    Branch(Aabb, Box<Node>, Box<Node>),
    Fruit(Aabb, u32, [bool; LAYERS]),
}

/// The Fruit a given entity would occupy in the tree.
pub open spec fn entity_fruit(e: EntityData) -> Node {
    Node::Fruit(e.aabb, e.id, e.collider.collision_layers)
}

impl Node {
    /// The bounding box stored at this node.
    pub open spec fn bb(self) -> Aabb {
        match self {
            Node::Branch(bb, _, _) => bb,
            Node::Fruit(bb, _, _) => bb,
        }
    }

    /// All entity ids under this node, leaves left to right.
    pub open spec fn ids(self) -> Seq<u32>
        decreases self,
    {
        match self {
            Node::Branch(_, c0, c1) => c0.ids() + c1.ids(),
            Node::Fruit(_, id, _) => seq![id],
        }
    }

    /// All Fruit nodes under this node, left to right.
    pub open spec fn fruits(self) -> Seq<Node>
        decreases self,
    {
        match self {
            Node::Branch(_, c0, c1) => c0.fruits() + c1.fruits(),
            Node::Fruit(_, _, _) => seq![self],
        }
    }

    /// The number of levels below this node, counting this one.
    pub open spec fn height(self) -> nat
        decreases self,
    {
        match self {
            Node::Branch(_, c0, c1) => 1 + (if c0.height() >= c1.height() {
                c0.height()
            } else {
                c1.height()
            }),
            Node::Fruit(_, _, _) => 1,
        }
    }

    /// Conservative invariant: boxes are well formed and every Branch box
    /// contains both children's boxes (possibly loosely).
    pub open spec fn wf(self) -> bool
        decreases self,
    {
        match self {
            Node::Branch(bb, c0, c1) => {
                &&& bb.wf()
                &&& Aabb::contains_spec(bb, c0.bb())
                &&& Aabb::contains_spec(bb, c1.bb())
                &&& c0.wf()
                &&& c1.wf()
            },
            Node::Fruit(bb, _, _) => bb.wf(),
        }
    }

    /// Tight invariant: every Branch box equals the exact union of its two
    /// children's boxes.
    pub open spec fn tight(self) -> bool
        decreases self,
    {
        match self {
            Node::Branch(bb, c0, c1) => {
                &&& bb == Aabb::union_spec(c0.bb(), c1.bb())
                &&& c0.tight()
                &&& c1.tight()
            },
            Node::Fruit(_, _, _) => true,
        }
    }

    /// The ids a rectangle query must report: every Fruit whose box overlaps
    /// `r` and whose layer set intersects `mask`.
    pub open spec fn query_rect_spec(self, r: Aabb, mask: Seq<bool>) -> Seq<u32>
        decreases self,
    {
        match self {
            Node::Branch(_, c0, c1) => c0.query_rect_spec(r, mask) + c1.query_rect_spec(r, mask),
            Node::Fruit(bb, id, l) => if Aabb::overlaps_spec(bb, r) && layers_intersect(l@, mask) {
                seq![id]
            } else {
                Seq::empty()
            },
        }
    }

    /// The ids a point query must report.
    pub open spec fn query_point_spec(self, p: Vec2, mask: Seq<bool>) -> Seq<u32>
        decreases self,
    {
        match self {
            Node::Branch(_, c0, c1) => c0.query_point_spec(p, mask) + c1.query_point_spec(p, mask),
            Node::Fruit(bb, id, l) => if Aabb::contains_point_spec(bb, p) && layers_intersect(
                l@,
                mask,
            ) {
                seq![id]
            } else {
                Seq::empty()
            },
        }
    }

    /// A well-formed node has a well-formed box.
    pub proof fn lemma_node_bb_wf(self)
        requires
            self.wf(),
        ensures
            self.bb().wf(),
    {
        match self {
            Node::Branch(_, _, _) => {},
            Node::Fruit(_, _, _) => {},
        }
    }

    /// Tightness implies the conservative invariant (given well-formed
    /// leaf boxes).
    pub proof fn lemma_tight_wf(self)
        requires
            self.tight(),
            self.leaves_wf(),
        ensures
            self.wf(),
        decreases self,
    {
        match self {
            Node::Branch(bb, c0, c1) => {
                c0.lemma_tight_wf();
                c1.lemma_tight_wf();
            },
            Node::Fruit(_, _, _) => {},
        }
    }

    /// Every Fruit box under this node is well formed.
    pub open spec fn leaves_wf(self) -> bool
        decreases self,
    {
        match self {
            Node::Branch(_, c0, c1) => c0.leaves_wf() && c1.leaves_wf(),
            Node::Fruit(bb, _, _) => bb.wf(),
        }
    }

    /// The build invariant, stated both ways: under the tight invariant a
    /// Branch box equals the union of its children's boxes, and under the
    /// conservative invariant it still contains that union.
    pub proof fn lemma_branch_box_covers_children(self)
        requires
            self.wf(),
        ensures
            self matches Node::Branch(bb, c0, c1) ==> Aabb::contains_spec(
                bb,
                Aabb::union_spec(c0.bb(), c1.bb()),
            ),
            self.tight() ==> (self matches Node::Branch(bb, c0, c1) ==> bb == Aabb::union_spec(
                c0.bb(),
                c1.bb(),
            )),
    {
    }

    /// Build a balanced tree from some entities: one entity becomes a
    /// Fruit; otherwise the list is split at the median of the axis with
    /// the wider position spread and the halves become the two children of
    /// a Branch whose box is the exact union of theirs.
    pub fn new(data: Vec<EntityData>) -> (r: Node)
        requires
            data@.len() >= 1,
            forall|i: int| 0 <= i < data@.len() ==> (#[trigger] data@[i]).wf(),
        ensures
            r.tight(),
            r.leaves_wf(),
            r.wf(),
            r.fruits().to_multiset() == data@.map_values(
                |e: EntityData| entity_fruit(e),
            ).to_multiset(),
            r.ids().to_multiset() == data@.map_values(|e: EntityData| e.id).to_multiset(),
            r.height() <= log2_up(data@.len() as nat) + 1,
        decreases data@.len(),
    {
        let ghost orig = data@;
        let mut data = data;
        if data.len() == 1 {
            let owned = data.remove(0);
            let node = Node::Fruit(owned.aabb, owned.id, owned.collider.collision_layers);
            proof {
                broadcast use vstd::seq_lib::group_to_multiset_ensures;

                crate::collider::lemma_bb_wf(owned.collider, owned.position);
                assert(node.fruits() =~= Seq::empty().push(entity_fruit(orig[0])));
                assert(node.ids() =~= Seq::empty().push(orig[0].id));
                assert(orig.map_values(|e: EntityData| entity_fruit(e)) =~= Seq::empty().push(
                    entity_fruit(orig[0]),
                ));
                assert(orig.map_values(|e: EntityData| e.id) =~= Seq::empty().push(orig[0].id));
            }
            node
        } else {
            let mut total_bb = data[0].aabb;
            proof {
                crate::collider::lemma_bb_wf(data@[0].collider, data@[0].position);
            }
            let mut i: usize = 0;
            while i < data.len()
                invariant
                    total_bb.wf(),
                    0 <= i <= data@.len(),
                    data@ == orig,
                    forall|k: int| 0 <= k < data@.len() ==> (#[trigger] data@[k]).wf(),
                decreases data@.len() - i,
            {
                total_bb = total_bb.with_point(&data[i].position);
                i = i + 1;
            }
            let x_axis = (total_bb.rx - total_bb.lx) > (total_bb.ry - total_bb.ly);
            let (first_half, second_half) = split_at_mid(data, x_axis);
            proof {
                broadcast use vstd::seq_lib::group_to_multiset_ensures;

                assert forall|k: int| 0 <= k < first_half@.len() implies (
                #[trigger] first_half@[k]).wf() by {
                    assert((first_half@ + second_half@)[k] == first_half@[k]);
                    assert((first_half@ + second_half@).contains(first_half@[k]));
                    assert(orig.to_multiset().count(first_half@[k]) > 0);
                    assert(orig.contains(first_half@[k]));
                }
                assert forall|k: int| 0 <= k < second_half@.len() implies (
                #[trigger] second_half@[k]).wf() by {
                    assert((first_half@ + second_half@)[first_half@.len() + k]
                        == second_half@[k]);
                    assert((first_half@ + second_half@).contains(second_half@[k]));
                    assert(orig.to_multiset().count(second_half@[k]) > 0);
                    assert(orig.contains(second_half@[k]));
                }
            }
            let ghost fh = first_half@;
            let ghost sh = second_half@;
            let node1 = Node::new(first_half);
            let node2 = Node::new(second_half);
            let bb = node1.get_bb().get_union(node2.get_bb());
            let node = Node::Branch(bb, Box::new(node1), Box::new(node2));
            proof {
                node.lemma_tight_wf();
                let fruit_of = |e: EntityData| entity_fruit(e);
                let id_of = |e: EntityData| e.id;
                assert((fh + sh).map_values(fruit_of) =~= fh.map_values(fruit_of) + sh.map_values(
                    fruit_of,
                ));
                assert((fh + sh).map_values(id_of) =~= fh.map_values(id_of) + sh.map_values(id_of));
                lemma_multiset_commutative(node1.fruits(), node2.fruits());
                lemma_multiset_commutative(node1.ids(), node2.ids());
                lemma_multiset_commutative(fh.map_values(fruit_of), sh.map_values(fruit_of));
                lemma_multiset_commutative(fh.map_values(id_of), sh.map_values(id_of));
                lemma_map_values_multiset(fh + sh, orig, fruit_of);
                lemma_map_values_multiset(fh + sh, orig, id_of);
                assert(sh.len() == (orig.len() + 1) / 2);
                lemma_log2_up_mono(fh.len(), ((orig.len() + 1) / 2) as nat);
                assert(log2_up(orig.len() as nat) == 1 + log2_up(((orig.len() + 1) / 2) as nat));
            }
            node
        }
    }

    /// Get the ids of all of the entities under this node.
    pub fn get_children_id(&self) -> (r: Vec<u32>)
        ensures
            r@ == self.ids(),
        decreases self,
    {
        match self {
            Node::Branch(_, c0, c1) => {
                let mut sum_vec = c0.get_children_id();
                let mut rest = c1.get_children_id();
                sum_vec.append(&mut rest);
                sum_vec
            },
            Node::Fruit(_, id, _) => {
                let mut sum_vec = Vec::new();
                sum_vec.push(*id);
                proof {
                    assert(sum_vec@ =~= self.ids());
                }
                sum_vec
            },
        }
    }

    /// All nodes under this node, children before parents.
    pub open spec fn nodes(self) -> Seq<Node>
        decreases self,
    {
        match self {
            Node::Branch(_, c0, c1) => c0.nodes() + c1.nodes() + seq![self],
            Node::Fruit(_, _, _) => seq![self],
        }
    }

    /// Get references to every node under this node.
    pub fn get_children(&self) -> (r: Vec<&Node>)
        ensures
            r@.len() == self.nodes().len(),
            forall|i: int| 0 <= i < r@.len() ==> *r@[i] == self.nodes()[i],
        decreases self,
    {
        let mut sum_vec: Vec<&Node> = Vec::new();
        match self {
            Node::Branch(_, c0, c1) => {
                let mut v0 = c0.get_children();
                let mut v1 = c1.get_children();
                sum_vec.append(&mut v0);
                sum_vec.append(&mut v1);
            },
            Node::Fruit(_, _, _) => {},
        }
        sum_vec.push(self);
        sum_vec
    }

    /// A subtree whose box misses the query region reports nothing.
    pub proof fn lemma_prune_rect(self, r: Aabb, mask: Seq<bool>)
        requires
            self.wf(),
            !Aabb::overlaps_spec(self.bb(), r),
        ensures
            self.query_rect_spec(r, mask) == Seq::<u32>::empty(),
        decreases self,
    {
        match self {
            Node::Branch(bb, c0, c1) => {
                assert(!Aabb::overlaps_spec(c0.bb(), r)) by {
                    if Aabb::overlaps_spec(c0.bb(), r) {
                        lemma_contains_overlap(bb, c0.bb(), r);
                    }
                }
                assert(!Aabb::overlaps_spec(c1.bb(), r)) by {
                    if Aabb::overlaps_spec(c1.bb(), r) {
                        lemma_contains_overlap(bb, c1.bb(), r);
                    }
                }
                c0.lemma_prune_rect(r, mask);
                c1.lemma_prune_rect(r, mask);
                assert(self.query_rect_spec(r, mask) =~= Seq::<u32>::empty());
            },
            Node::Fruit(_, _, _) => {},
        }
    }

    /// A subtree whose box misses the query point reports nothing.
    pub proof fn lemma_prune_point(self, p: Vec2, mask: Seq<bool>)
        requires
            self.wf(),
            !Aabb::contains_point_spec(self.bb(), p),
        ensures
            self.query_point_spec(p, mask) == Seq::<u32>::empty(),
        decreases self,
    {
        match self {
            Node::Branch(bb, c0, c1) => {
                assert(!Aabb::contains_point_spec(c0.bb(), p)) by {
                    if Aabb::contains_point_spec(c0.bb(), p) {
                        lemma_contains_point(bb, c0.bb(), p);
                    }
                }
                assert(!Aabb::contains_point_spec(c1.bb(), p)) by {
                    if Aabb::contains_point_spec(c1.bb(), p) {
                        lemma_contains_point(bb, c1.bb(), p);
                    }
                }
                c0.lemma_prune_point(p, mask);
                c1.lemma_prune_point(p, mask);
                assert(self.query_point_spec(p, mask) =~= Seq::<u32>::empty());
            },
            Node::Fruit(_, _, _) => {},
        }
    }

    /// Find the ids of all entities whose box overlaps `r` and whose layer
    /// set intersects `layers`, pruning subtrees whose box misses `r`.
    pub fn query_rect(&self, r: &Aabb, layers: &[bool; LAYERS]) -> (res: Vec<u32>)
        requires
            self.wf(),
        ensures
            res@ == self.query_rect_spec(*r, layers@),
        decreases self,
    {
        match self {
            Node::Branch(bb, c0, c1) => {
                if bb.is_colliding(r) {
                    let mut v = c0.query_rect(r, layers);
                    let mut v2 = c1.query_rect(r, layers);
                    v.append(&mut v2);
                    v
                } else {
                    proof {
                        self.lemma_prune_rect(*r, layers@);
                    }
                    Vec::new()
                }
            },
            Node::Fruit(bb, id, l) => {
                let mut v: Vec<u32> = Vec::new();
                if layers_hit(l, layers) && bb.is_colliding(r) {
                    v.push(*id);
                }
                proof {
                    assert(v@ =~= self.query_rect_spec(*r, layers@));
                }
                v
            },
        }
    }

    /// Find the ids of all entities whose box strictly contains `p` and
    /// whose layer set intersects `layers`.
    pub fn query_point(&self, p: &Vec2, layers: &[bool; LAYERS]) -> (res: Vec<u32>)
        requires
            self.wf(),
        ensures
            res@ == self.query_point_spec(*p, layers@),
        decreases self,
    {
        match self {
            Node::Branch(bb, c0, c1) => {
                if bb.contains_point(p) {
                    let mut v = c0.query_point(p, layers);
                    let mut v2 = c1.query_point(p, layers);
                    v.append(&mut v2);
                    v
                } else {
                    proof {
                        self.lemma_prune_point(*p, layers@);
                    }
                    Vec::new()
                }
            },
            Node::Fruit(bb, id, l) => {
                let mut v: Vec<u32> = Vec::new();
                if layers_hit(l, layers) && bb.contains_point(p) {
                    v.push(*id);
                }
                proof {
                    assert(v@ =~= self.query_point_spec(*p, layers@));
                }
                v
            },
        }
    }

    /// The nodes a rectangle query visits, each with its depth: every node
    /// whose box overlaps `r` whose ancestors' boxes all overlap `r` too,
    /// fruits only when they also pass the layer filter.
    pub open spec fn debug_rect_spec(self, r: Aabb, mask: Seq<bool>, depth: int) -> Seq<
        (Node, int),
    >
        decreases self,
    {
        match self {
            Node::Branch(bb, c0, c1) => if Aabb::overlaps_spec(bb, r) {
                seq![(self, depth)] + c0.debug_rect_spec(r, mask, depth + 1) + c1.debug_rect_spec(
                    r,
                    mask,
                    depth + 1,
                )
            } else {
                Seq::empty()
            },
            Node::Fruit(bb, _, l) => if Aabb::overlaps_spec(bb, r) && layers_intersect(l@, mask) {
                seq![(self, depth)]
            } else {
                Seq::empty()
            },
        }
    }

    /// The nodes a point query visits, each with its depth.
    pub open spec fn debug_point_spec(self, p: Vec2, mask: Seq<bool>, depth: int) -> Seq<
        (Node, int),
    >
        decreases self,
    {
        match self {
            Node::Branch(bb, c0, c1) => if Aabb::contains_point_spec(bb, p) {
                seq![(self, depth)] + c0.debug_point_spec(p, mask, depth + 1) + c1.debug_point_spec(
                    p,
                    mask,
                    depth + 1,
                )
            } else {
                Seq::empty()
            },
            Node::Fruit(bb, _, l) => if Aabb::contains_point_spec(bb, p) && layers_intersect(
                l@,
                mask,
            ) {
                seq![(self, depth)]
            } else {
                Seq::empty()
            },
        }
    }

    /// Rectangle query that also records every visited node with its depth.
    pub fn debug_query_rect(&self, r: &Aabb, layers: &[bool; LAYERS], depth: i32) -> (res: (
        Vec<u32>,
        Vec<(&Node, i32)>,
    ))
        requires
            self.wf(),
            depth + self.height() <= 0x7fffffff,
            depth >= 0,
        ensures
            res.0@ == self.query_rect_spec(*r, layers@),
            res.1@.len() == self.debug_rect_spec(*r, layers@, depth as int).len(),
            forall|i: int|
                0 <= i < res.1@.len() ==> *res.1@[i].0 == self.debug_rect_spec(
                    *r,
                    layers@,
                    depth as int,
                )[i].0 && res.1@[i].1 == self.debug_rect_spec(*r, layers@, depth as int)[i].1,
        decreases self,
    {
        match self {
            Node::Branch(bb, c0, c1) => {
                if bb.is_colliding(r) {
                    let (mut ids0, mut vis0) = c0.debug_query_rect(r, layers, depth + 1);
                    let (mut ids1, mut vis1) = c1.debug_query_rect(r, layers, depth + 1);
                    ids0.append(&mut ids1);
                    let mut vis: Vec<(&Node, i32)> = Vec::new();
                    vis.push((self, depth));
                    vis.append(&mut vis0);
                    vis.append(&mut vis1);
                    (ids0, vis)
                } else {
                    proof {
                        self.lemma_prune_rect(*r, layers@);
                    }
                    (Vec::new(), Vec::new())
                }
            },
            Node::Fruit(bb, id, l) => {
                let mut ids: Vec<u32> = Vec::new();
                let mut vis: Vec<(&Node, i32)> = Vec::new();
                if layers_hit(l, layers) && bb.is_colliding(r) {
                    ids.push(*id);
                    vis.push((self, depth));
                }
                proof {
                    assert(ids@ =~= self.query_rect_spec(*r, layers@));
                }
                (ids, vis)
            },
        }
    }

    /// Point query that also records every visited node with its depth.
    pub fn debug_query_point(&self, p: &Vec2, layers: &[bool; LAYERS], depth: i32) -> (res: (
        Vec<u32>,
        Vec<(&Node, i32)>,
    ))
        requires
            self.wf(),
            depth + self.height() <= 0x7fffffff,
            depth >= 0,
        ensures
            res.0@ == self.query_point_spec(*p, layers@),
            res.1@.len() == self.debug_point_spec(*p, layers@, depth as int).len(),
            forall|i: int|
                0 <= i < res.1@.len() ==> *res.1@[i].0 == self.debug_point_spec(
                    *p,
                    layers@,
                    depth as int,
                )[i].0 && res.1@[i].1 == self.debug_point_spec(*p, layers@, depth as int)[i].1,
        decreases self,
    {
        match self {
            Node::Branch(bb, c0, c1) => {
                if bb.contains_point(p) {
                    let (mut ids0, mut vis0) = c0.debug_query_point(p, layers, depth + 1);
                    let (mut ids1, mut vis1) = c1.debug_query_point(p, layers, depth + 1);
                    ids0.append(&mut ids1);
                    let mut vis: Vec<(&Node, i32)> = Vec::new();
                    vis.push((self, depth));
                    vis.append(&mut vis0);
                    vis.append(&mut vis1);
                    (ids0, vis)
                } else {
                    proof {
                        self.lemma_prune_point(*p, layers@);
                    }
                    (Vec::new(), Vec::new())
                }
            },
            Node::Fruit(bb, id, l) => {
                let mut ids: Vec<u32> = Vec::new();
                let mut vis: Vec<(&Node, i32)> = Vec::new();
                if layers_hit(l, layers) && bb.contains_point(p) {
                    ids.push(*id);
                    vis.push((self, depth));
                }
                proof {
                    assert(ids@ =~= self.query_point_spec(*p, layers@));
                }
                (ids, vis)
            },
        }
    }

    /// Shrunk version of a tree: every Branch box recomputed, bottom up, as
    /// the exact union of its children's boxes.
    pub open spec fn shrink_spec(self) -> Node
        decreases self,
    {
        match self {
            Node::Branch(_, c0, c1) => {
                let s0 = c0.shrink_spec();
                let s1 = c1.shrink_spec();
                Node::Branch(Aabb::union_spec(s0.bb(), s1.bb()), Box::new(s0), Box::new(s1))
            },
            Node::Fruit(_, _, _) => self,
        }
    }

    /// Shrink every Branch box to the smallest box containing its subtree.
    pub fn shrink(self) -> (r: Node)
        ensures
            r == self.shrink_spec(),
        decreases self,
    {
        match self {
            Node::Branch(_, c0, c1) => {
                let s0 = (*c0).shrink();
                let s1 = (*c1).shrink();
                let bb = s0.get_bb().get_union(s1.get_bb());
                Node::Branch(bb, Box::new(s0), Box::new(s1))
            },
            Node::Fruit(_, _, _) => self,
        }
    }

    /// Updated version of a tree: descending only through Branches whose
    /// box contains `old_bb`, the first Fruit carrying `id` gets the box
    /// `new_bb`, and every Branch on the successful path grows its box by
    /// the union with `new_bb`. The flag reports whether a Fruit was found.
    pub open spec fn update_spec(self, old_bb: Aabb, id: u32, new_bb: Aabb) -> (Node, bool)
        decreases self,
    {
        match self {
            Node::Branch(bb, c0, c1) => {
                if Aabb::contains_spec(bb, old_bb) {
                    let r0 = c0.update_spec(old_bb, id, new_bb);
                    if r0.1 {
                        (
                            Node::Branch(
                                Aabb::union_spec(bb, new_bb),
                                Box::new(r0.0),
                                c1,
                            ),
                            true,
                        )
                    } else {
                        let r1 = c1.update_spec(old_bb, id, new_bb);
                        if r1.1 {
                            (
                                Node::Branch(
                                    Aabb::union_spec(bb, new_bb),
                                    c0,
                                    Box::new(r1.0),
                                ),
                                true,
                            )
                        } else {
                            (self, false)
                        }
                    }
                } else {
                    (self, false)
                }
            },
            Node::Fruit(_, fid, l) => {
                if fid == id {
                    (Node::Fruit(new_bb, fid, l), true)
                } else {
                    (self, false)
                }
            },
        }
    }

    /// Replace the box of the Fruit carrying the given id, growing every
    /// Branch box on the path to it; a no-op when the id is absent.
    pub fn update(self, old_bb: &Aabb, id: u32, new_bb: &Aabb) -> (r: (Node, bool))
        ensures
            r == self.update_spec(*old_bb, id, *new_bb),
        decreases self,
    {
        match self {
            Node::Branch(bb, c0, c1) => {
                if bb.contains(old_bb) {
                    let (c0n, found0) = (*c0).update(old_bb, id, new_bb);
                    if found0 {
                        (Node::Branch(bb.get_union(new_bb), Box::new(c0n), c1), true)
                    } else {
                        let (c1n, found1) = (*c1).update(old_bb, id, new_bb);
                        if found1 {
                            (Node::Branch(bb.get_union(new_bb), Box::new(c0n), Box::new(c1n)), true)
                        } else {
                            (Node::Branch(bb, Box::new(c0n), Box::new(c1n)), false)
                        }
                    }
                } else {
                    (Node::Branch(bb, c0, c1), false)
                }
            },
            Node::Fruit(bb, fid, l) => {
                if fid == id {
                    (Node::Fruit(*new_bb, fid, l), true)
                } else {
                    (Node::Fruit(bb, fid, l), false)
                }
            },
        }
    }

    /// Updating keeps the invariant and the ids; on success the root box
    /// grows by exactly the union with the new box.
    pub proof fn lemma_update_wf(self, old_bb: Aabb, id: u32, new_bb: Aabb)
        requires
            self.wf(),
            new_bb.wf(),
        ensures
            self.update_spec(old_bb, id, new_bb).0.wf(),
            self.update_spec(old_bb, id, new_bb).0.ids() == self.ids(),
            !self.update_spec(old_bb, id, new_bb).1 ==> self.update_spec(old_bb, id, new_bb).0
                == self,
            self.update_spec(old_bb, id, new_bb).1 ==> Aabb::contains_spec(
                Aabb::union_spec(self.bb(), new_bb),
                self.update_spec(old_bb, id, new_bb).0.bb(),
            ),
            self.update_spec(old_bb, id, new_bb).1 && self is Branch
                ==> self.update_spec(old_bb, id, new_bb).0.bb() == Aabb::union_spec(
                self.bb(),
                new_bb,
            ),
        decreases self,
    {
        match self {
            Node::Branch(bb, c0, c1) => {
                c0.lemma_update_wf(old_bb, id, new_bb);
                c1.lemma_update_wf(old_bb, id, new_bb);
                let m = self.update_spec(old_bb, id, new_bb);
                if m.1 {
                    crate::geometry::lemma_union_contains(bb, new_bb);
                    let r0 = c0.update_spec(old_bb, id, new_bb);
                    if r0.1 {
                        crate::geometry::lemma_contains_trans(
                            Aabb::union_spec(bb, new_bb),
                            Aabb::union_spec(c0.bb(), new_bb),
                            r0.0.bb(),
                        );
                        crate::geometry::lemma_contains_trans(
                            Aabb::union_spec(bb, new_bb),
                            bb,
                            c1.bb(),
                        );
                    } else {
                        let r1 = c1.update_spec(old_bb, id, new_bb);
                        crate::geometry::lemma_contains_trans(
                            Aabb::union_spec(bb, new_bb),
                            Aabb::union_spec(c1.bb(), new_bb),
                            r1.0.bb(),
                        );
                        crate::geometry::lemma_contains_trans(
                            Aabb::union_spec(bb, new_bb),
                            bb,
                            c0.bb(),
                        );
                    }
                }
            },
            Node::Fruit(_, _, _) => {},
        }
    }

    /// There is a path from this node down to a Fruit whose box is exactly
    /// `b`, and every box along the path contains `b`.
    pub open spec fn anc_contains(self, b: Aabb) -> bool
        decreases self,
    {
        match self {
            Node::Branch(bb, c0, c1) => Aabb::contains_spec(bb, b) && (c0.anc_contains(b)
                || c1.anc_contains(b)),
            Node::Fruit(bb, _, _) => bb == b,
        }
    }

    /// After a successful update, every ancestor box on the path to the
    /// updated Fruit contains the new box.
    pub proof fn lemma_update_path(self, old_bb: Aabb, id: u32, new_bb: Aabb)
        requires
            self.wf(),
            new_bb.wf(),
            self.update_spec(old_bb, id, new_bb).1,
        ensures
            self.update_spec(old_bb, id, new_bb).0.anc_contains(new_bb),
        decreases self,
    {
        match self {
            Node::Branch(bb, c0, c1) => {
                crate::geometry::lemma_union_contains(bb, new_bb);
                let r0 = c0.update_spec(old_bb, id, new_bb);
                if r0.1 {
                    c0.lemma_update_path(old_bb, id, new_bb);
                } else {
                    c1.lemma_update_path(old_bb, id, new_bb);
                }
            },
            Node::Fruit(_, _, _) => {},
        }
    }

    /// Deleted version of a tree. The result triple is the new subtree, a
    /// flag "this very node is the matching Fruit" (its parent then
    /// replaces itself by the sibling), and a flag "the id was found".
    pub open spec fn delete_spec(self, id: u32) -> (Node, bool, bool)
        decreases self,
    {
        match self {
            Node::Branch(bb, c0, c1) => {
                let r0 = c0.delete_spec(id);
                if r0.2 {
                    if r0.1 {
                        (*c1, false, true)
                    } else {
                        (Node::Branch(bb, Box::new(r0.0), c1), false, true)
                    }
                } else {
                    let r1 = c1.delete_spec(id);
                    if r1.2 {
                        if r1.1 {
                            (*c0, false, true)
                        } else {
                            (Node::Branch(bb, c0, Box::new(r1.0)), false, true)
                        }
                    } else {
                        (self, false, false)
                    }
                }
            },
            Node::Fruit(_, fid, _) => {
                if fid == id {
                    (self, true, true)
                } else {
                    (self, false, false)
                }
            },
        }
    }

    /// Remove the first Fruit carrying `id`, collapsing its parent Branch
    /// into the sibling subtree; a no-op when the id is absent.
    pub fn delete(self, id: u32) -> (r: (Node, bool, bool))
        ensures
            r == self.delete_spec(id),
        decreases self,
    {
        match self {
            Node::Branch(bb, c0, c1) => {
                let (c0n, direct0, handled0) = (*c0).delete(id);
                if handled0 {
                    if direct0 {
                        (*c1, false, true)
                    } else {
                        (Node::Branch(bb, Box::new(c0n), c1), false, true)
                    }
                } else {
                    let (c1n, direct1, handled1) = (*c1).delete(id);
                    if handled1 {
                        if direct1 {
                            (c0n, false, true)
                        } else {
                            (Node::Branch(bb, Box::new(c0n), Box::new(c1n)), false, true)
                        }
                    } else {
                        (Node::Branch(bb, Box::new(c0n), Box::new(c1n)), false, false)
                    }
                }
            },
            Node::Fruit(bb, fid, l) => {
                if fid == id {
                    (Node::Fruit(bb, fid, l), true, true)
                } else {
                    (Node::Fruit(bb, fid, l), false, false)
                }
            },
        }
    }

    /// Deleting keeps the invariant, never grows any box, finds the id
    /// exactly when it is present, and removes exactly one occurrence.
    pub proof fn lemma_delete(self, id: u32)
        requires
            self.wf(),
        ensures
            self.delete_spec(id).2 == self.ids().to_multiset().contains(id),
            !self.delete_spec(id).2 ==> self.delete_spec(id).0 == self,
            self.delete_spec(id).1 ==> self == Node::Fruit(self.bb(), id, self.fruit_layers()),
            self.delete_spec(id).0.wf(),
            Aabb::contains_spec(self.bb(), self.delete_spec(id).0.bb()),
            self.delete_spec(id).2 && !self.delete_spec(id).1 ==> self.delete_spec(
                id,
            ).0.ids().to_multiset() == self.ids().to_multiset().remove(id),
        decreases self,
    {
        broadcast use vstd::seq_lib::group_to_multiset_ensures;
        broadcast use vstd::multiset::group_multiset_axioms;

        match self {
            Node::Branch(bb, c0, c1) => {
                c0.lemma_delete(id);
                c1.lemma_delete(id);
                lemma_multiset_commutative(c0.ids(), c1.ids());
                let r0 = c0.delete_spec(id);
                let r1 = c1.delete_spec(id);
                if r0.2 {
                    if r0.1 {
                        lemma_singleton_multiset(id);
                        assert(self.delete_spec(id).0.ids().to_multiset()
                            =~= self.ids().to_multiset().remove(id));
                    } else {
                        lemma_multiset_commutative(r0.0.ids(), c1.ids());
                        crate::geometry::lemma_contains_trans(bb, c0.bb(), r0.0.bb());
                        assert(self.delete_spec(id).0.ids().to_multiset()
                            =~= self.ids().to_multiset().remove(id));
                    }
                } else {
                    if r1.2 {
                        if r1.1 {
                            lemma_singleton_multiset(id);
                            assert(self.delete_spec(id).0.ids().to_multiset()
                                =~= self.ids().to_multiset().remove(id));
                        } else {
                            lemma_multiset_commutative(c0.ids(), r1.0.ids());
                            crate::geometry::lemma_contains_trans(bb, c1.bb(), r1.0.bb());
                            assert(self.delete_spec(id).0.ids().to_multiset()
                                =~= self.ids().to_multiset().remove(id));
                        }
                    }
                }
            },
            Node::Fruit(_, _, _) => {},
        }
    }

    /// The layer set stored at a Fruit (meaningless for a Branch).
    pub open spec fn fruit_layers(self) -> [bool; LAYERS] {
        match self {
            Node::Branch(_, _, _) => [false; LAYERS],
            Node::Fruit(_, _, l) => l,
        }
    }

    /// The entity id stored at a Fruit (meaningless for a Branch).
    pub open spec fn fruit_id(self) -> u32 {
        match self {
            Node::Branch(_, _, _) => 0,
            Node::Fruit(_, id, _) => id,
        }
    }

    /// Inserted version of a tree: a Fruit becomes a Branch over the new
    /// entity's Fruit and itself; a Branch grows its box and hands the
    /// entity to whichever child's box is nearer to the entity's box.
    pub open spec fn insert_spec(self, e: EntityData) -> Node
        decreases self,
    {
        match self {
            Node::Branch(bb, c0, c1) => {
                if Aabb::dist_spec(c0.bb(), e.aabb) <= Aabb::dist_spec(c1.bb(), e.aabb) {
                    Node::Branch(Aabb::union_spec(bb, e.aabb), Box::new(c0.insert_spec(e)), c1)
                } else {
                    Node::Branch(Aabb::union_spec(bb, e.aabb), c0, Box::new(c1.insert_spec(e)))
                }
            },
            Node::Fruit(bb, _, _) => Node::Branch(
                Aabb::union_spec(e.aabb, bb),
                Box::new(entity_fruit(e)),
                Box::new(self),
            ),
        }
    }

    /// Create a new entity in the tree by greedy nearest-box placement.
    pub fn insert(self, e: &EntityData) -> (r: Node)
        requires
            self.wf(),
            e.wf(),
        ensures
            r == self.insert_spec(*e),
        decreases self,
    {
        proof {
            crate::collider::lemma_bb_wf(e.collider, e.position);
            match &self {
                Node::Branch(_, c0, c1) => {
                    c0.lemma_node_bb_wf();
                    c1.lemma_node_bb_wf();
                },
                Node::Fruit(_, _, _) => {},
            }
        }
        match self {
            Node::Branch(bb, c0, c1) => {
                let d0 = c0.get_bb().get_dist(&e.aabb);
                let d1 = c1.get_bb().get_dist(&e.aabb);
                if d0 <= d1 {
                    let c0n = (*c0).insert(e);
                    Node::Branch(bb.get_union(&e.aabb), Box::new(c0n), c1)
                } else {
                    let c1n = (*c1).insert(e);
                    Node::Branch(bb.get_union(&e.aabb), c0, Box::new(c1n))
                }
            },
            Node::Fruit(bb, fid, l) => {
                let new_fruit = Node::Fruit(e.aabb, e.id, e.collider.collision_layers);
                let new_bb = e.aabb.get_union(&bb);
                Node::Branch(new_bb, Box::new(new_fruit), Box::new(Node::Fruit(bb, fid, l)))
            },
        }
    }

    /// Inserting keeps the invariant, grows the root box by exactly the
    /// union with the entity's box, and adds exactly one Fruit.
    pub proof fn lemma_insert(self, e: EntityData)
        requires
            self.wf(),
            e.wf(),
        ensures
            self.insert_spec(e).wf(),
            self.insert_spec(e) is Branch,
            self.insert_spec(e).bb() == Aabb::union_spec(self.bb(), e.aabb),
            self.insert_spec(e).ids().to_multiset() == self.ids().to_multiset().insert(e.id),
            self.insert_spec(e).fruits().to_multiset() == self.fruits().to_multiset().insert(
                entity_fruit(e),
            ),
        decreases self,
    {
        broadcast use vstd::seq_lib::group_to_multiset_ensures;
        broadcast use vstd::multiset::group_multiset_axioms;

        crate::collider::lemma_bb_wf(e.collider, e.position);
        match self {
            Node::Branch(bb, c0, c1) => {
                lemma_multiset_commutative(c0.ids(), c1.ids());
                lemma_multiset_commutative(c0.fruits(), c1.fruits());
                crate::geometry::lemma_union_contains(bb, e.aabb);
                if Aabb::dist_spec(c0.bb(), e.aabb) <= Aabb::dist_spec(c1.bb(), e.aabb) {
                    c0.lemma_insert(e);
                    let c0n = c0.insert_spec(e);
                    lemma_multiset_commutative(c0n.ids(), c1.ids());
                    lemma_multiset_commutative(c0n.fruits(), c1.fruits());
                    crate::geometry::lemma_union_monotone(bb, c0.bb(), e.aabb);
                    crate::geometry::lemma_contains_trans(
                        Aabb::union_spec(bb, e.aabb),
                        bb,
                        c1.bb(),
                    );
                    assert(self.insert_spec(e).ids().to_multiset() =~= self.ids().to_multiset()
                        .insert(e.id));
                    assert(self.insert_spec(e).fruits().to_multiset()
                        =~= self.fruits().to_multiset().insert(entity_fruit(e)));
                } else {
                    c1.lemma_insert(e);
                    let c1n = c1.insert_spec(e);
                    lemma_multiset_commutative(c0.ids(), c1n.ids());
                    lemma_multiset_commutative(c0.fruits(), c1n.fruits());
                    crate::geometry::lemma_union_monotone(bb, c1.bb(), e.aabb);
                    crate::geometry::lemma_contains_trans(
                        Aabb::union_spec(bb, e.aabb),
                        bb,
                        c0.bb(),
                    );
                    assert(self.insert_spec(e).ids().to_multiset() =~= self.ids().to_multiset()
                        .insert(e.id));
                    assert(self.insert_spec(e).fruits().to_multiset()
                        =~= self.fruits().to_multiset().insert(entity_fruit(e)));
                }
            },
            Node::Fruit(bb, _, _) => {
                lemma_singleton_multiset(e.id);
                lemma_singleton_multiset(entity_fruit(e));
                lemma_multiset_commutative(Seq::empty().push(e.id), self.ids());
                lemma_multiset_commutative(Seq::empty().push(entity_fruit(e)), self.fruits());
                crate::geometry::lemma_union_contains(e.aabb, bb);
                assert(entity_fruit(e).ids() == seq![e.id]);
                assert(entity_fruit(e).fruits() == seq![entity_fruit(e)]);
                assert(entity_fruit(e).wf());
                assert(self.insert_spec(e).ids() =~= Seq::empty().push(e.id) + self.ids());
                assert(self.insert_spec(e).fruits() =~= Seq::empty().push(entity_fruit(e))
                    + self.fruits());
                assert(Aabb::union_spec(e.aabb, bb) == Aabb::union_spec(bb, e.aabb));
                assert(self.insert_spec(e).ids().to_multiset() =~= self.ids().to_multiset().insert(
                    e.id,
                ));
                assert(self.insert_spec(e).fruits().to_multiset() =~= self.fruits().to_multiset()
                    .insert(entity_fruit(e)));
            },
        }
    }

    /// The bounding box stored at this node.
    pub fn get_bb(&self) -> (r: &Aabb)
        ensures
            *r == self.bb(),
    {
        match self {
            Node::Branch(bb, _, _) => bb,
            Node::Fruit(bb, _, _) => bb,
        }
    }
}

/// The ceiling of the base-2 logarithm.
pub open spec fn log2_up(n: nat) -> nat
    decreases n,
{
    if n <= 1 {
        0
    } else {
        1 + log2_up(((n + 1) / 2) as nat)
    }
}

/// The ceiling logarithm grows with its argument.
pub proof fn lemma_log2_up_mono(m: nat, n: nat)
    requires
        m <= n,
    ensures
        log2_up(m) <= log2_up(n),
    decreases n,
{
    if m <= 1 {
    } else {
        lemma_log2_up_mono(((m + 1) / 2) as nat, ((n + 1) / 2) as nat);
    }
}

/// The multiset of a one-element sequence, and of the empty sequence.
proof fn lemma_singleton_multiset<A>(x: A)
    ensures
        seq![x].to_multiset() == Multiset::empty().insert(x),
        Seq::<A>::empty().to_multiset() == Multiset::<A>::empty(),
{
    broadcast use vstd::seq_lib::group_to_multiset_ensures;
    broadcast use vstd::multiset::group_multiset_axioms;

    Seq::<A>::empty().to_multiset_ensures();
    assert forall|y: A| Seq::<A>::empty().to_multiset().count(y)
        == Multiset::<A>::empty().count(y) by {
        assert(!Seq::<A>::empty().contains(y));
    }
    assert(Seq::<A>::empty().to_multiset() =~= Multiset::<A>::empty());
    assert(seq![x] =~= Seq::<A>::empty().push(x));
}

/// A permutation maps to a permutation: sequences with equal multisets
/// still have equal multisets after mapping a function over them.
pub proof fn lemma_map_values_multiset<A, B>(s: Seq<A>, t: Seq<A>, f: spec_fn(A) -> B)
    requires
        s.to_multiset() == t.to_multiset(),
    ensures
        s.map_values(f).to_multiset() == t.map_values(f).to_multiset(),
    decreases s.len(),
{
    broadcast use vstd::seq_lib::group_to_multiset_ensures;
    broadcast use vstd::multiset::group_multiset_axioms;

    if s.len() == 0 {
        s.to_multiset_ensures();
        t.to_multiset_ensures();
        assert(t.len() == 0);
        assert(s.map_values(f) =~= t.map_values(f));
    } else {
        let x = s.last();
        let li = s.len() - 1;
        assert(s[li] == x);
        assert(s.contains(x));
        assert(t.to_multiset().count(x) > 0);
        assert(t.contains(x));
        let j = choose|j: int| 0 <= j < t.len() && t[j] == x;
        let s1 = s.remove(li);
        let t1 = t.remove(j);
        assert(s1.to_multiset() == s.to_multiset().remove(x));
        assert(t1.to_multiset() == t.to_multiset().remove(x));
        lemma_map_values_multiset(s1, t1, f);
        assert(s.map_values(f).remove(li) =~= s1.map_values(f));
        assert(t.map_values(f).remove(j) =~= t1.map_values(f));
        assert(s.map_values(f)[li] == f(x));
        assert(t.map_values(f)[j] == f(x));
        assert(s.map_values(f).remove(li).to_multiset() == s.map_values(f).to_multiset().remove(
            f(x),
        ));
        assert(t.map_values(f).remove(j).to_multiset() == t.map_values(f).to_multiset().remove(
            f(x),
        ));
        assert(s.map_values(f).contains(f(x)));
        assert(t.map_values(f).contains(f(x)));
        assert(s.map_values(f).to_multiset() =~= s1.map_values(f).to_multiset().insert(f(x)));
        assert(t.map_values(f).to_multiset() =~= t1.map_values(f).to_multiset().insert(f(x)));
    }
}

/// Relies on `select_nth_unstable_by_key` from std: it reorders the slice
/// into a permutation of itself in which no element before `idx` has a
/// larger x position than any element after it.
#[verifier::external_body]
fn select_by_x(v: &mut Vec<EntityData>, idx: usize)
    requires
        idx < old(v).len(),
    ensures
        final(v)@.len() == old(v)@.len(),
        final(v)@.to_multiset() == old(v)@.to_multiset(),
        forall|i: int, j: int|
            0 <= i <= idx as int && idx as int <= j < final(v)@.len() ==> final(v)@[i].position.x
                <= final(v)@[j].position.x,
{
    v.select_nth_unstable_by_key(idx, |e| e.position.x);
}

/// Relies on `select_nth_unstable_by_key` from std: as [`select_by_x`],
/// keyed on the y position.
#[verifier::external_body]
fn select_by_y(v: &mut Vec<EntityData>, idx: usize)
    requires
        idx < old(v).len(),
    ensures
        final(v)@.len() == old(v)@.len(),
        final(v)@.to_multiset() == old(v)@.to_multiset(),
        forall|i: int, j: int|
            0 <= i <= idx as int && idx as int <= j < final(v)@.len() ==> final(v)@[i].position.y
                <= final(v)@[j].position.y,
{
    v.select_nth_unstable_by_key(idx, |e| e.position.y);
}

/// Splits the entities into two non-empty halves at the statistical median
/// of their positions along the chosen axis, in linear time.
fn split_at_mid(v: Vec<EntityData>, x_axis: bool) -> (r: (Vec<EntityData>, Vec<EntityData>))
    requires
        v@.len() >= 2,
    ensures
        r.0@.len() + r.1@.len() == v@.len(),
        r.0@.len() == v@.len() / 2,
        1 <= r.0@.len() < v@.len(),
        1 <= r.1@.len() < v@.len(),
        (r.0@ + r.1@).to_multiset() == v@.to_multiset(),
{
    let mut v = v;
    let half_size = v.len() / 2 - 1;
    if x_axis {
        select_by_x(&mut v, half_size);
    } else {
        select_by_y(&mut v, half_size);
    }
    let ghost permuted = v@;
    let second = v.split_off(half_size + 1);
    proof {
        assert(v@ + second@ =~= permuted);
    }
    (v, second)
}

/// Query soundness for rectangle queries: an entity whose box overlaps the
/// region and whose layer set intersects the mask is always reported.
pub proof fn lemma_query_rect_soundness(
    n: Node,
    bb: Aabb,
    id: u32,
    l: [bool; LAYERS],
    r: Aabb,
    mask: Seq<bool>,
)
    requires
        n.wf(),
        n.fruits().contains(Node::Fruit(bb, id, l)),
        Aabb::overlaps_spec(bb, r),
        layers_intersect(l@, mask),
    ensures
        n.query_rect_spec(r, mask).contains(id),
    decreases n,
{
    let f = Node::Fruit(bb, id, l);
    match n {
        Node::Branch(_, c0, c1) => {
            let i = choose|i: int| 0 <= i < n.fruits().len() && n.fruits()[i] == f;
            if i < c0.fruits().len() {
                assert(c0.fruits()[i] == f);
                assert(c0.fruits().contains(f));
                lemma_query_rect_soundness(*c0, bb, id, l, r, mask);
                let j = choose|j: int|
                    0 <= j < c0.query_rect_spec(r, mask).len() && c0.query_rect_spec(r, mask)[j]
                        == id;
                assert(n.query_rect_spec(r, mask)[j] == id);
            } else {
                assert(c1.fruits()[i - c0.fruits().len()] == f);
                assert(c1.fruits().contains(f));
                lemma_query_rect_soundness(*c1, bb, id, l, r, mask);
                let j = choose|j: int|
                    0 <= j < c1.query_rect_spec(r, mask).len() && c1.query_rect_spec(r, mask)[j]
                        == id;
                assert(n.query_rect_spec(r, mask)[c0.query_rect_spec(r, mask).len() + j] == id);
            }
        },
        Node::Fruit(_, _, _) => {
            assert(n.fruits()[0] == n);
            let i = choose|i: int| 0 <= i < n.fruits().len() && n.fruits()[i] == f;
            assert(i == 0 && n == f);
            assert(n.query_rect_spec(r, mask)[0] == id);
        },
    }
}

/// Query soundness for point queries.
pub proof fn lemma_query_point_soundness(
    n: Node,
    bb: Aabb,
    id: u32,
    l: [bool; LAYERS],
    p: Vec2,
    mask: Seq<bool>,
)
    requires
        n.wf(),
        n.fruits().contains(Node::Fruit(bb, id, l)),
        Aabb::contains_point_spec(bb, p),
        layers_intersect(l@, mask),
    ensures
        n.query_point_spec(p, mask).contains(id),
    decreases n,
{
    let f = Node::Fruit(bb, id, l);
    match n {
        Node::Branch(_, c0, c1) => {
            let i = choose|i: int| 0 <= i < n.fruits().len() && n.fruits()[i] == f;
            if i < c0.fruits().len() {
                assert(c0.fruits()[i] == f);
                assert(c0.fruits().contains(f));
                lemma_query_point_soundness(*c0, bb, id, l, p, mask);
                let j = choose|j: int|
                    0 <= j < c0.query_point_spec(p, mask).len() && c0.query_point_spec(p, mask)[j]
                        == id;
                assert(n.query_point_spec(p, mask)[j] == id);
            } else {
                assert(c1.fruits()[i - c0.fruits().len()] == f);
                assert(c1.fruits().contains(f));
                lemma_query_point_soundness(*c1, bb, id, l, p, mask);
                let j = choose|j: int|
                    0 <= j < c1.query_point_spec(p, mask).len() && c1.query_point_spec(p, mask)[j]
                        == id;
                assert(n.query_point_spec(p, mask)[c0.query_point_spec(p, mask).len() + j] == id);
            }
        },
        Node::Fruit(_, _, _) => {
            assert(n.fruits()[0] == n);
            let i = choose|i: int| 0 <= i < n.fruits().len() && n.fruits()[i] == f;
            assert(i == 0 && n == f);
            assert(n.query_point_spec(p, mask)[0] == id);
        },
    }
}

/// Query safety: every reported id belongs to some entity whose box
/// overlaps the query region and whose layer set intersects the mask.
pub proof fn lemma_query_rect_safety(n: Node, id: u32, r: Aabb, mask: Seq<bool>)
    requires
        n.wf(),
        n.query_rect_spec(r, mask).contains(id),
    ensures
        exists|i: int|
            0 <= i < n.fruits().len() && (#[trigger] n.fruits()[i]).fruit_id() == id
                && Aabb::overlaps_spec(n.fruits()[i].bb(), r) && layers_intersect(
                n.fruits()[i].fruit_layers()@,
                mask,
            ),
    decreases n,
{
    match n {
        Node::Branch(_, c0, c1) => {
            let j = choose|j: int|
                0 <= j < n.query_rect_spec(r, mask).len() && n.query_rect_spec(r, mask)[j] == id;
            if j < c0.query_rect_spec(r, mask).len() {
                assert(c0.query_rect_spec(r, mask)[j] == id);
                assert(c0.query_rect_spec(r, mask).contains(id));
                lemma_query_rect_safety(*c0, id, r, mask);
                let i = choose|i: int|
                    0 <= i < c0.fruits().len() && (#[trigger] c0.fruits()[i]).fruit_id() == id
                        && Aabb::overlaps_spec(c0.fruits()[i].bb(), r) && layers_intersect(
                        c0.fruits()[i].fruit_layers()@,
                        mask,
                    );
                assert(n.fruits()[i] == c0.fruits()[i]);
            } else {
                let j1 = j - c0.query_rect_spec(r, mask).len();
                assert(c1.query_rect_spec(r, mask)[j1] == id);
                assert(c1.query_rect_spec(r, mask).contains(id));
                lemma_query_rect_safety(*c1, id, r, mask);
                let i = choose|i: int|
                    0 <= i < c1.fruits().len() && (#[trigger] c1.fruits()[i]).fruit_id() == id
                        && Aabb::overlaps_spec(c1.fruits()[i].bb(), r) && layers_intersect(
                        c1.fruits()[i].fruit_layers()@,
                        mask,
                    );
                assert(n.fruits()[c0.fruits().len() + i] == c1.fruits()[i]);
            }
        },
        Node::Fruit(_, _, _) => {
            assert(n.fruits()[0] == n);
        },
    }
}

/// Query safety for point queries.
pub proof fn lemma_query_point_safety(n: Node, id: u32, p: Vec2, mask: Seq<bool>)
    requires
        n.wf(),
        n.query_point_spec(p, mask).contains(id),
    ensures
        exists|i: int|
            0 <= i < n.fruits().len() && (#[trigger] n.fruits()[i]).fruit_id() == id
                && Aabb::contains_point_spec(n.fruits()[i].bb(), p) && layers_intersect(
                n.fruits()[i].fruit_layers()@,
                mask,
            ),
    decreases n,
{
    match n {
        Node::Branch(_, c0, c1) => {
            let j = choose|j: int|
                0 <= j < n.query_point_spec(p, mask).len() && n.query_point_spec(p, mask)[j] == id;
            if j < c0.query_point_spec(p, mask).len() {
                assert(c0.query_point_spec(p, mask)[j] == id);
                assert(c0.query_point_spec(p, mask).contains(id));
                lemma_query_point_safety(*c0, id, p, mask);
                let i = choose|i: int|
                    0 <= i < c0.fruits().len() && (#[trigger] c0.fruits()[i]).fruit_id() == id
                        && Aabb::contains_point_spec(c0.fruits()[i].bb(), p) && layers_intersect(
                        c0.fruits()[i].fruit_layers()@,
                        mask,
                    );
                assert(n.fruits()[i] == c0.fruits()[i]);
            } else {
                let j1 = j - c0.query_point_spec(p, mask).len();
                assert(c1.query_point_spec(p, mask)[j1] == id);
                assert(c1.query_point_spec(p, mask).contains(id));
                lemma_query_point_safety(*c1, id, p, mask);
                let i = choose|i: int|
                    0 <= i < c1.fruits().len() && (#[trigger] c1.fruits()[i]).fruit_id() == id
                        && Aabb::contains_point_spec(c1.fruits()[i].bb(), p) && layers_intersect(
                        c1.fruits()[i].fruit_layers()@,
                        mask,
                    );
                assert(n.fruits()[c0.fruits().len() + i] == c1.fruits()[i]);
            }
        },
        Node::Fruit(_, _, _) => {
            assert(n.fruits()[0] == n);
        },
    }
}

/// No over-reporting: a query reports an id at most as often as the tree
/// stores it.
pub proof fn lemma_query_rect_multiplicity(n: Node, r: Aabb, mask: Seq<bool>)
    ensures
        forall|x: u32|
            #[trigger] n.query_rect_spec(r, mask).to_multiset().count(x)
                <= n.ids().to_multiset().count(x),
    decreases n,
{
    broadcast use vstd::seq_lib::group_to_multiset_ensures;
    broadcast use vstd::multiset::group_multiset_axioms;

    match n {
        Node::Branch(_, c0, c1) => {
            lemma_query_rect_multiplicity(*c0, r, mask);
            lemma_query_rect_multiplicity(*c1, r, mask);
            lemma_multiset_commutative(c0.ids(), c1.ids());
            lemma_multiset_commutative(c0.query_rect_spec(r, mask), c1.query_rect_spec(r, mask));
        },
        Node::Fruit(_, id, _) => {
            lemma_singleton_multiset(id);
        },
    }
}

/// No over-reporting for point queries either.
pub proof fn lemma_query_point_multiplicity(n: Node, p: Vec2, mask: Seq<bool>)
    ensures
        forall|x: u32|
            #[trigger] n.query_point_spec(p, mask).to_multiset().count(x)
                <= n.ids().to_multiset().count(x),
    decreases n,
{
    broadcast use vstd::seq_lib::group_to_multiset_ensures;
    broadcast use vstd::multiset::group_multiset_axioms;

    match n {
        Node::Branch(_, c0, c1) => {
            lemma_query_point_multiplicity(*c0, p, mask);
            lemma_query_point_multiplicity(*c1, p, mask);
            lemma_multiset_commutative(c0.ids(), c1.ids());
            lemma_multiset_commutative(c0.query_point_spec(p, mask), c1.query_point_spec(p, mask));
        },
        Node::Fruit(_, id, _) => {
            lemma_singleton_multiset(id);
        },
    }
}

/// Insert/delete inverse: inserting an entity and then deleting its id
/// leaves the multiset of stored ids unchanged.
pub proof fn lemma_insert_delete_inverse(n: Node, e: EntityData)
    requires
        n.wf(),
        e.wf(),
    ensures
        n.insert_spec(e).delete_spec(e.id).2,
        !n.insert_spec(e).delete_spec(e.id).1,
        n.insert_spec(e).delete_spec(e.id).0.ids().to_multiset() == n.ids().to_multiset(),
{
    broadcast use vstd::multiset::group_multiset_axioms;

    n.lemma_insert(e);
    let m = n.insert_spec(e);
    m.lemma_delete(e.id);
    assert(m.ids().to_multiset().contains(e.id));
    assert(m.delete_spec(e.id).0.ids().to_multiset() =~= n.ids().to_multiset());
}

/// Shrinking keeps the leaves (and so the ids) exactly as they were.
pub proof fn lemma_shrink_fruits(n: Node)
    ensures
        n.shrink_spec().fruits() == n.fruits(),
        n.shrink_spec().ids() == n.ids(),
    decreases n,
{
    match n {
        Node::Branch(_, c0, c1) => {
            lemma_shrink_fruits(*c0);
            lemma_shrink_fruits(*c1);
        },
        Node::Fruit(_, _, _) => {},
    }
}

/// The shrunk tree is tight, and well formed when the leaf boxes are.
pub proof fn lemma_shrink_tight(n: Node)
    ensures
        n.shrink_spec().tight(),
        n.shrink_spec().leaves_wf() == n.leaves_wf(),
        n.leaves_wf() ==> n.shrink_spec().wf(),
    decreases n,
{
    match n {
        Node::Branch(_, c0, c1) => {
            lemma_shrink_tight(*c0);
            lemma_shrink_tight(*c1);
            if n.leaves_wf() {
                n.shrink_spec().lemma_tight_wf();
            }
        },
        Node::Fruit(_, _, _) => {},
    }
}

/// Shrinking is idempotent: a tight tree shrinks to itself, so a second
/// shrink returns the first's result unchanged.
pub proof fn lemma_shrink_idempotent(n: Node)
    ensures
        n.shrink_spec().shrink_spec() == n.shrink_spec(),
    decreases n,
{
    lemma_shrink_tight(n);
    lemma_tight_shrink_identity(n.shrink_spec());
}

/// A tight tree is a fixed point of shrinking.
pub proof fn lemma_tight_shrink_identity(n: Node)
    requires
        n.tight(),
    ensures
        n.shrink_spec() == n,
    decreases n,
{
    match n {
        Node::Branch(_, c0, c1) => {
            lemma_tight_shrink_identity(*c0);
            lemma_tight_shrink_identity(*c1);
        },
        Node::Fruit(_, _, _) => {},
    }
}

/// This handles broad phase optimization of collisions: a bounding volume
/// hierarchy constructed top-down with two subdivisions per Branch,
/// exclusively owned and mutated by a single writer per frame.
pub struct BVHTree {
    root_node: Node,
}

impl BVHTree {
    /// The root node, the mathematical value the contracts speak about.
    pub closed spec fn root(self) -> Node {
        self.root_node
    }

    /// The tree satisfies the conservative box invariant.
    pub open spec fn wf(self) -> bool {
        self.root().wf()
    }

    /// Create a new tree from the entities. The entity list must not be
    /// empty: callers represent "no entities" as "no tree".
    pub fn new(data: Vec<EntityData>) -> (r: BVHTree)
        requires
            data@.len() >= 1,
            forall|i: int| 0 <= i < data@.len() ==> (#[trigger] data@[i]).wf(),
        ensures
            r.wf(),
            r.root().tight(),
            r.root().leaves_wf(),
            r.root().fruits().to_multiset() == data@.map_values(
                |e: EntityData| entity_fruit(e),
            ).to_multiset(),
            r.root().ids().to_multiset() == data@.map_values(|e: EntityData| e.id).to_multiset(),
            r.root().height() <= log2_up(data@.len() as nat) + 1,
    {
        BVHTree { root_node: Node::new(data) }
    }

    /// Get all the entity ids in the tree.
    pub fn get_children_id(&self) -> (r: Vec<u32>)
        ensures
            r@ == self.root().ids(),
    {
        self.root_node.get_children_id()
    }

    /// Get references to all the nodes in the tree, children first.
    pub fn get_children(&self) -> (r: Vec<&Node>)
        ensures
            r@.len() == self.root().nodes().len(),
            forall|i: int| 0 <= i < r@.len() ==> *r@[i] == self.root().nodes()[i],
    {
        self.root_node.get_children()
    }

    /// Get the ids of all entities whose box strictly contains the point
    /// and whose layer set intersects `layers`.
    pub fn query_point(&self, p: &Vec2, layers: &[bool; LAYERS]) -> (r: Vec<u32>)
        requires
            self.wf(),
        ensures
            r@ == self.root().query_point_spec(*p, layers@),
    {
        self.root_node.query_point(p, layers)
    }

    /// Get the ids of all entities whose box overlaps `r` and whose layer
    /// set intersects `layers`.
    pub fn query_rect(&self, r: &Aabb, layers: &[bool; LAYERS]) -> (res: Vec<u32>)
        requires
            self.wf(),
        ensures
            res@ == self.root().query_rect_spec(*r, layers@),
    {
        self.root_node.query_rect(r, layers)
    }

    /// Rectangle query that also reports every visited node with its
    /// depth, for visualization; the id list is `None` when empty.
    pub fn debug_query_rect(&self, r: &Aabb, layers: &[bool; LAYERS]) -> (res: (
        Option<Vec<u32>>,
        Vec<(&Node, i32)>,
    ))
        requires
            self.wf(),
            self.root().height() <= 0x7fffffff,
        ensures
            match res.0 {
                Some(v) => v@ == self.root().query_rect_spec(*r, layers@) && v@.len() > 0,
                None => self.root().query_rect_spec(*r, layers@).len() == 0,
            },
            res.1@.len() == self.root().debug_rect_spec(*r, layers@, 0).len(),
            forall|i: int|
                0 <= i < res.1@.len() ==> *res.1@[i].0 == self.root().debug_rect_spec(
                    *r,
                    layers@,
                    0,
                )[i].0 && res.1@[i].1 == self.root().debug_rect_spec(*r, layers@, 0)[i].1,
    {
        let (ids, vis) = self.root_node.debug_query_rect(r, layers, 0);
        if ids.len() == 0 {
            (None, vis)
        } else {
            (Some(ids), vis)
        }
    }

    /// Point query that also reports every visited node with its depth.
    pub fn debug_query_point(&self, p: &Vec2, layers: &[bool; LAYERS]) -> (res: (
        Option<Vec<u32>>,
        Vec<(&Node, i32)>,
    ))
        requires
            self.wf(),
            self.root().height() <= 0x7fffffff,
        ensures
            match res.0 {
                Some(v) => v@ == self.root().query_point_spec(*p, layers@) && v@.len() > 0,
                None => self.root().query_point_spec(*p, layers@).len() == 0,
            },
            res.1@.len() == self.root().debug_point_spec(*p, layers@, 0).len(),
            forall|i: int|
                0 <= i < res.1@.len() ==> *res.1@[i].0 == self.root().debug_point_spec(
                    *p,
                    layers@,
                    0,
                )[i].0 && res.1@[i].1 == self.root().debug_point_spec(*p, layers@, 0)[i].1,
    {
        let (ids, vis) = self.root_node.debug_query_point(p, layers, 0);
        if ids.len() == 0 {
            (None, vis)
        } else {
            (Some(ids), vis)
        }
    }

    /// Update a bounding box within the tree: the first Fruit carrying the
    /// id gets the new box and every Branch box on the path grows to cover
    /// it. Only grows boxes; call [`BVHTree::shrink`] regularly to restore
    /// tightness.
    pub fn update(&mut self, prev: (&Aabb, u32), next: (&Aabb, u32))
        requires
            old(self).wf(),
            next.0.wf(),
        ensures
            final(self).root() == old(self).root().update_spec(*prev.0, prev.1, *next.0).0,
            final(self).wf(),
            final(self).root().ids() == old(self).root().ids(),
    {
        let mut tmp = Node::Fruit(Aabb { lx: 0, ly: 0, rx: 0, ry: 0 }, 0, [false;LAYERS]);
        core::mem::swap(&mut self.root_node, &mut tmp);
        let (n, _) = tmp.update(prev.0, prev.1, next.0);
        self.root_node = n;
        proof {
            old(self).root().lemma_update_wf(*prev.0, prev.1, *next.0);
        }
    }

    /// Create a new entity in the tree by greedy nearest-box placement.
    pub fn insert(&mut self, new: &EntityData)
        requires
            old(self).wf(),
            new.wf(),
        ensures
            final(self).root() == old(self).root().insert_spec(*new),
            final(self).wf(),
            final(self).root().ids().to_multiset() == old(
                self,
            ).root().ids().to_multiset().insert(new.id),
    {
        let mut tmp = Node::Fruit(Aabb { lx: 0, ly: 0, rx: 0, ry: 0 }, 0, [false;LAYERS]);
        core::mem::swap(&mut self.root_node, &mut tmp);
        self.root_node = tmp.insert(new);
        proof {
            old(self).root().lemma_insert(*new);
        }
    }

    /// Remove an entity from the tree: the parent Branch of the first
    /// Fruit carrying the id collapses into the sibling subtree. A no-op
    /// when the id is absent (or when the whole tree is that one Fruit).
    pub fn delete(&mut self, id: u32)
        requires
            old(self).wf(),
        ensures
            final(self).root() == old(self).root().delete_spec(id).0,
            final(self).wf(),
            !old(self).root().ids().to_multiset().contains(id) ==> final(self).root() == old(
                self,
            ).root(),
            old(self).root().ids().to_multiset().contains(id) && !old(self).root().delete_spec(
                id,
            ).1 ==> final(self).root().ids().to_multiset() == old(
                self,
            ).root().ids().to_multiset().remove(id),
    {
        let mut tmp = Node::Fruit(Aabb { lx: 0, ly: 0, rx: 0, ry: 0 }, 0, [false;LAYERS]);
        core::mem::swap(&mut self.root_node, &mut tmp);
        let (n, _, _) = tmp.delete(id);
        self.root_node = n;
        proof {
            old(self).root().lemma_delete(id);
        }
    }

    /// Shrink all of the bounding boxes in the tree to the minimal size.
    pub fn shrink(&mut self)
        requires
            old(self).wf(),
        ensures
            final(self).root() == old(self).root().shrink_spec(),
            final(self).root().tight(),
            final(self).wf(),
            final(self).root().fruits() == old(self).root().fruits(),
            final(self).root().ids() == old(self).root().ids(),
    {
        let mut tmp = Node::Fruit(Aabb { lx: 0, ly: 0, rx: 0, ry: 0 }, 0, [false;LAYERS]);
        core::mem::swap(&mut self.root_node, &mut tmp);
        self.root_node = tmp.shrink();
        proof {
            lemma_shrink_fruits(old(self).root());
            lemma_shrink_tight(old(self).root());
            lemma_wf_leaves_wf(old(self).root());
        }
    }
}

/// The conservative invariant includes well-formed leaf boxes.
pub proof fn lemma_wf_leaves_wf(n: Node)
    requires
        n.wf(),
    ensures
        n.leaves_wf(),
    decreases n,
{
    match n {
        Node::Branch(_, c0, c1) => {
            lemma_wf_leaves_wf(*c0);
            lemma_wf_leaves_wf(*c1);
        },
        Node::Fruit(_, _, _) => {},
    }
}

} // verus!
