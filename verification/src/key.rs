use crate::characteristic::{spec_eval, Characteristic, CharacteristicView, KeyDecision};
use crate::error::KeyError;
use crate::plant::{spec_trait_value, Plant, PlantView};
use vstd::prelude::*;

verus! {

/// An internal tree node: it asks one trait question of the subset of
/// plants still being discriminated (its possibility set).
///
/// The characteristic is absent only transiently, while the node defers
/// to the next trait, or permanently once the trait order is exhausted
/// with the possibility set still ambiguous.
pub struct OptionNode {
    /// Identity of this node in the key's arena.
    pub index: usize,
    /// Identity of the child holding the true group, if any.
    pub left_node: Option<usize>,
    /// Identity of the child holding the false group, if any.
    pub right_node: Option<usize>,
    /// The plants still being discriminated at this node.
    pub possibilities: Vec<Plant>,
    /// The trait question currently assigned to this node.
    pub characteristic: Option<Characteristic>,
}

/// The mathematical value of an [`OptionNode`].
pub ghost struct OptionNodeView {
    pub index: usize,
    pub left_node: Option<usize>,
    pub right_node: Option<usize>,
    pub possibilities: Seq<PlantView>,
    pub characteristic: Option<CharacteristicView>,
}

/// A terminal tree node holding exactly one fully discriminated plant.
pub struct PlantNode {
    /// Identity of this node in the key's arena.
    pub index: usize,
    /// The resolved plant.
    pub plant: Plant,
}

/// The mathematical value of a [`PlantNode`].
pub ghost struct PlantNodeView {
    pub index: usize,
    pub plant: PlantView,
}

/// A node of the key: either an internal question or a resolved leaf.
pub enum Node {
    Option(OptionNode),
    Plant(PlantNode),
}

/// The mathematical value of a [`Node`].
pub ghost enum NodeView {
    Option(OptionNodeView),
    Plant(PlantNodeView),
}

/// The views of a sequence of plants.
pub open spec fn plant_views(s: Seq<Plant>) -> Seq<PlantView> {
    s.map_values(|p: Plant| p@)
}

/// The views of a sequence of characteristics.
pub open spec fn char_views(s: Seq<Characteristic>) -> Seq<CharacteristicView> {
    s.map_values(|c: Characteristic| c@)
}

/// The views of a sequence of nodes.
pub open spec fn node_views(s: Seq<Node>) -> Seq<NodeView> {
    s.map_values(|n: Node| n@)
}

impl View for OptionNode {
    type V = OptionNodeView;

    open spec fn view(&self) -> OptionNodeView {
        OptionNodeView {
            index: self.index,
            left_node: self.left_node,
            right_node: self.right_node,
            possibilities: plant_views(self.possibilities@),
            characteristic: match self.characteristic {
                Some(c) => Some(c@),
                None => None,
            },
        }
    }
}

impl View for PlantNode {
    type V = PlantNodeView;

    open spec fn view(&self) -> PlantNodeView {
        PlantNodeView { index: self.index, plant: self.plant@ }
    }
}

impl View for Node {
    type V = NodeView;

    open spec fn view(&self) -> NodeView {
        match self {
            Node::Option(o) => NodeView::Option(o@),
            Node::Plant(p) => NodeView::Plant(p@),
        }
    }
}

impl NodeView {
    /// The identity stored in a node, of either kind.
    pub open spec fn index(self) -> usize {
        match self {
            NodeView::Option(o) => o.index,
            NodeView::Plant(p) => p.index,
        }
    }
}

impl OptionNode {
    /// Records a child identity on this node: in the first free slot,
    /// left before right.
    pub fn insert_child_index(&mut self, node_index: usize)
        requires
            old(self).left_node is None || old(self).right_node is None,
        ensures
            old(self).left_node is None ==> final (self)@ == (OptionNodeView {
                left_node: Some(node_index),
                ..old(self)@
            }),
            old(self).left_node is Some ==> final (self)@ == (OptionNodeView {
                right_node: Some(node_index),
                ..old(self)@
            }),
    {
        if self.left_node.is_none() {
            self.left_node = Some(node_index);
        } else {
            self.right_node = Some(node_index);
        }
    }
}

impl Node {
    /// The identity of the node, of either kind.
    pub fn get_index(&self) -> (r: usize)
        ensures
            r == self@.index(),
    {
        match self {
            Node::Option(option_node) => option_node.index,
            Node::Plant(plant_node) => plant_node.index,
        }
    }
}

/// The complete dichotomous key: an arena of nodes forming a binary
/// tree whose root has identity 0.
pub struct Key {
    nodes: Vec<Node>,
}

impl View for Key {
    type V = Seq<NodeView>;

    closed spec fn view(&self) -> Seq<NodeView> {
        node_views(self.nodes@)
    }
}

impl Key {
    /// Creates an empty key, ready to be built once.
    pub fn new() -> (r: Key)
        ensures
            r@ == Seq::<NodeView>::empty(),
    {
        let r = Key { nodes: Vec::new() };
        proof {
            assert(r@ =~= Seq::<NodeView>::empty());
        }
        r
    }
}

/// Whether plant `p` lacks an observation for the trait of `c`.
pub open spec fn plant_lacks(p: PlantView, c: CharacteristicView) -> bool {
    spec_trait_value(p, c.name) is None
}

/// Whether plant `p` records a value for the trait of `c` that matches
/// neither of its labels.
pub open spec fn plant_unrecognized(p: PlantView, c: CharacteristicView) -> bool {
    match spec_trait_value(p, c.name) {
        Some(v) => spec_eval(c, v) is None,
        None => false,
    }
}

/// Whether plant `p` records a value for the trait of `c` that
/// evaluates to outcome `b`.
pub open spec fn plant_decides(p: PlantView, c: CharacteristicView, b: bool) -> bool {
    match spec_trait_value(p, c.name) {
        Some(v) => spec_eval(c, v) == Some(b),
        None => false,
    }
}

/// The plants of `ps` whose value for `c` evaluates to true, in input
/// order.
pub open spec fn spec_true_group(ps: Seq<PlantView>, c: CharacteristicView) -> Seq<PlantView> {
    ps.filter(|p: PlantView| plant_decides(p, c, true))
}

/// The plants of `ps` whose value for `c` evaluates to false, in input
/// order.
pub open spec fn spec_false_group(ps: Seq<PlantView>, c: CharacteristicView) -> Seq<PlantView> {
    ps.filter(|p: PlantView| plant_decides(p, c, false))
}

/// The plants of `ps` that carry no observation for the trait of `c`,
/// in input order.
pub open spec fn spec_absent_group(ps: Seq<PlantView>, c: CharacteristicView) -> Seq<PlantView> {
    ps.filter(|p: PlantView| plant_lacks(p, c))
}

/// Whether some plant of `ps` records an unrecognized value for `c`.
pub open spec fn has_unrecognized(ps: Seq<PlantView>, c: CharacteristicView) -> bool {
    exists|i: int| 0 <= i < ps.len() && plant_unrecognized(ps[i], c)
}

/// The view of an optional borrowed characteristic.
pub open spec fn opt_char_view(o: Option<&Characteristic>) -> Option<CharacteristicView> {
    match o {
        Some(c) => Some(c@),
        None => None,
    }
}

/// Processing one option node against its assigned trait: the node's
/// value afterwards, and either the (true group, false group)
/// partition of its possibility set, a deferral (`Ok(None)`), or the
/// data error that aborts the build.
///
/// An unrecognized value is reported first, as the builder meets it
/// while scanning.  A possibility set whose members all lack the trait
/// defers: the node keeps its possibility set and moves to the next
/// trait.  A set where only some members lack the trait is inconsistent
/// input data.
pub open spec fn spec_handle(o: OptionNodeView, next: Option<CharacteristicView>) -> (
    OptionNodeView,
    Result<Option<(Seq<PlantView>, Seq<PlantView>)>, KeyError>,
)
    recommends
        o.characteristic is Some,
{
    let c = o.characteristic.unwrap();
    let ps = o.possibilities;
    if has_unrecognized(ps, c) {
        (o, Err(KeyError::UnrecognizedValue))
    } else if ps.len() > 0 && spec_absent_group(ps, c).len() == ps.len() {
        (OptionNodeView { characteristic: next, ..o }, Ok(None))
    } else if spec_absent_group(ps, c).len() > 0 {
        (o, Err(KeyError::PartialCoverage))
    } else {
        (o, Ok(Some((spec_true_group(ps, c), spec_false_group(ps, c)))))
    }
}

/// Extending a possibility set by one plant extends exactly the one
/// group that plant falls into.
proof fn lemma_group_push(ps: Seq<PlantView>, p: PlantView, c: CharacteristicView)
    ensures
        spec_true_group(ps.push(p), c) == if plant_decides(p, c, true) {
            spec_true_group(ps, c).push(p)
        } else {
            spec_true_group(ps, c)
        },
        spec_false_group(ps.push(p), c) == if plant_decides(p, c, false) {
            spec_false_group(ps, c).push(p)
        } else {
            spec_false_group(ps, c)
        },
        spec_absent_group(ps.push(p), c) == if plant_lacks(p, c) {
            spec_absent_group(ps, c).push(p)
        } else {
            spec_absent_group(ps, c)
        },
{
    broadcast use Seq::lemma_filter_push;

}

/// The view of a partition result, groups as plant-view sequences.
pub open spec fn handle_result_view(r: Result<Option<(Vec<Plant>, Vec<Plant>)>, KeyError>) -> Result<
    Option<(Seq<PlantView>, Seq<PlantView>)>,
    KeyError,
> {
    match r {
        Ok(Some((tg, fg))) => Ok(Some((plant_views(tg@), plant_views(fg@)))),
        Ok(None) => Ok(None),
        Err(e) => Err(e),
    }
}

/// Evaluates each plant of the node's possibility set against the
/// node's assigned trait and partitions them into the true group and
/// the false group, in input order.
///
/// When every plant lacks the trait, the node is deferred instead: its
/// trait is reassigned to `next_characteristic`, its possibility set
/// kept unchanged, and `Ok(None)` returned.  When only some plants lack
/// the trait the input data is inconsistent and the partial-coverage
/// error is returned; a value matching neither label of the trait is
/// reported as an unrecognized value.
pub fn handle_option_node(
    option_node: &mut OptionNode,
    next_characteristic: Option<&Characteristic>,
) -> (r: Result<Option<(Vec<Plant>, Vec<Plant>)>, KeyError>)
    requires
        old(option_node).characteristic is Some,
    ensures
        final (option_node)@ == spec_handle(
            old(option_node)@,
            opt_char_view(next_characteristic),
        ).0,
        handle_result_view(r) == spec_handle(
            old(option_node)@,
            opt_char_view(next_characteristic),
        ).1,
{
    broadcast use Seq::lemma_filter_push;

    let c = option_node.characteristic.as_ref().unwrap().clone();
    let ghost ps = plant_views(old(option_node).possibilities@);

    let mut true_group: Vec<Plant> = Vec::new();
    let mut false_group: Vec<Plant> = Vec::new();
    let mut absent: usize = 0;

    let n = option_node.possibilities.len();
    let mut i: usize = 0;
    proof {
        assert(ps.take(0) =~= Seq::<PlantView>::empty());
        assert(plant_views(true_group@) =~= Seq::<PlantView>::empty());
        assert(plant_views(false_group@) =~= Seq::<PlantView>::empty());
        assert(spec_true_group(Seq::<PlantView>::empty(), c@) =~= Seq::<PlantView>::empty());
        assert(spec_false_group(Seq::<PlantView>::empty(), c@) =~= Seq::<PlantView>::empty());
        assert(spec_absent_group(Seq::<PlantView>::empty(), c@) =~= Seq::<PlantView>::empty());
    }
    while i < n
        invariant
            i <= n,
            *option_node == *old(option_node),
            n == option_node.possibilities@.len(),
            ps == plant_views(option_node.possibilities@),
            option_node.characteristic is Some,
            c@ == old(option_node)@.characteristic.unwrap(),
            plant_views(true_group@) == spec_true_group(ps.take(i as int), c@),
            plant_views(false_group@) == spec_false_group(ps.take(i as int), c@),
            absent == spec_absent_group(ps.take(i as int), c@).len(),
            absent <= i,
            forall|k: int| 0 <= k < i ==> !plant_unrecognized(ps[k], c@),
        decreases n - i,
    {
        proof {
            assert(ps.take(i + 1) =~= ps.take(i as int).push(ps[i as int]));
            assert(ps[i as int] == option_node.possibilities@[i as int]@);
            lemma_group_push(ps.take(i as int), ps[i as int], c@);
        }
        let plant = &option_node.possibilities[i];
        match plant.trait_value(c.name.as_str()) {
            None => {
                absent = absent + 1;
                proof {
                    assert(plant_lacks(ps[i as int], c@));
                }
            },
            Some(value) => {
                match c.get_decision(value.as_str()) {
                    Ok(true) => {
                        true_group.push(plant.clone());
                        proof {
                            assert(plant_decides(ps[i as int], c@, true));
                            assert(plant_views(true_group@) =~= spec_true_group(
                                ps.take(i + 1),
                                c@,
                            ));
                        }
                    },
                    Ok(false) => {
                        false_group.push(plant.clone());
                        proof {
                            assert(plant_decides(ps[i as int], c@, false));
                            assert(plant_views(false_group@) =~= spec_false_group(
                                ps.take(i + 1),
                                c@,
                            ));
                        }
                    },
                    Err(e) => {
                        proof {
                            assert(plant_unrecognized(ps[i as int], c@));
                            assert(has_unrecognized(ps, c@));
                        }
                        return Err(e);
                    },
                }
            },
        }
        i = i + 1;
    }
    proof {
        assert(ps.take(n as int) =~= ps);
        assert(!has_unrecognized(ps, c@));
    }

    if absent > 0 {
        if absent == n {
            option_node.characteristic = match next_characteristic {
                Some(nc) => Some(nc.clone()),
                None => None,
            };
            return Ok(None);
        } else {
            proof {
                assert(spec_absent_group(ps, c@).len() < ps.len());
            }
            return Err(KeyError::PartialCoverage);
        }
    }
    Ok(Some((true_group, false_group)))
}

/// Well-formedness of one arena slot: the node records its position as
/// its identity, and its children stand strictly later in the arena.
pub open spec fn node_wf_at(a: Seq<NodeView>, i: int) -> bool {
    &&& a[i].index() == i
    &&& match a[i] {
        NodeView::Option(o) => {
            &&& match o.left_node {
                Some(l) => i < l < a.len(),
                None => true,
            }
            &&& match o.right_node {
                Some(r) => i < r < a.len(),
                None => true,
            }
        },
        NodeView::Plant(_) => true,
    }
}

/// A well-formed key arena: every slot satisfies [`node_wf_at`], so the
/// arena is a forest whose edges always point forward.
pub open spec fn wf_arena(a: Seq<NodeView>) -> bool {
    forall|i: int| 0 <= i < a.len() ==> node_wf_at(a, i)
}

/// Whether the node at slot `i` is a leaf or has a trait assigned.
pub open spec fn node_resolved_at(a: Seq<NodeView>, i: int) -> bool {
    match a[i] {
        NodeView::Option(o) => o.characteristic is Some,
        NodeView::Plant(_) => true,
    }
}

/// Whether every option node of the arena has a trait assigned.
///
/// A build that exhausts the trait order with a possibility set still
/// ambiguous leaves behind option nodes without a trait; such a key is
/// not resolved.
pub open spec fn spec_resolved(a: Seq<NodeView>) -> bool {
    forall|i: int| 0 <= i < a.len() ==> node_resolved_at(a, i)
}

/// The node created for one nonempty partition group: a leaf for a
/// single plant, a fresh option node carrying the group and the next
/// trait otherwise.
pub open spec fn spec_child_node(
    group: Seq<PlantView>,
    idx: usize,
    next: Option<CharacteristicView>,
) -> NodeView
    recommends
        group.len() >= 1,
{
    if group.len() == 1 {
        NodeView::Plant(PlantNodeView { index: idx, plant: group[0] })
    } else {
        NodeView::Option(
            OptionNodeView {
                index: idx,
                left_node: None,
                right_node: None,
                possibilities: group,
                characteristic: next,
            },
        )
    }
}

/// One builder step: processing the node at `id` during trait layer
/// `layer`.  Yields the updated arena and the identities to queue for
/// the next layer: the node itself on deferral, its multi-plant
/// children after a partition.  Leaves and nodes without an assigned
/// trait are left untouched.
pub open spec fn spec_process_node(
    arena: Seq<NodeView>,
    id: usize,
    layer: int,
    chars: Seq<CharacteristicView>,
) -> Result<(Seq<NodeView>, Seq<usize>), KeyError>
    recommends
        0 <= id < arena.len(),
{
    match arena[id as int] {
        NodeView::Plant(_) => Ok((arena, Seq::<usize>::empty())),
        NodeView::Option(o) => {
            if o.characteristic is None {
                Ok((arena, Seq::<usize>::empty()))
            } else {
                let next = if layer + 1 < chars.len() {
                    Some(chars[layer + 1])
                } else {
                    None
                };
                let step = spec_handle(o, next);
                match step.1 {
                    Err(e) => Err(e),
                    Ok(None) => Ok(
                        (arena.update(id as int, NodeView::Option(step.0)), seq![id]),
                    ),
                    Ok(Some(groups)) => {
                        let tg = groups.0;
                        let fg = groups.1;
                        let lid = arena.len() as usize;
                        let rid = (arena.len() + if tg.len() > 0 {
                            1int
                        } else {
                            0int
                        }) as usize;
                        let parent = OptionNodeView {
                            left_node: if tg.len() > 0 {
                                Some(lid)
                            } else {
                                o.left_node
                            },
                            right_node: if fg.len() > 0 {
                                Some(rid)
                            } else {
                                o.right_node
                            },
                            ..step.0
                        };
                        let a1 = arena.update(id as int, NodeView::Option(parent));
                        let a2 = if tg.len() > 0 {
                            a1.push(spec_child_node(tg, lid, next))
                        } else {
                            a1
                        };
                        let a3 = if fg.len() > 0 {
                            a2.push(spec_child_node(fg, rid, next))
                        } else {
                            a2
                        };
                        let q = (if tg.len() > 1 {
                            seq![lid]
                        } else {
                            Seq::<usize>::empty()
                        }) + (if fg.len() > 1 {
                            seq![rid]
                        } else {
                            Seq::<usize>::empty()
                        });
                        Ok((a3, q))
                    },
                }
            }
        },
    }
}

/// Processing the rest of one layer's work queue, front to back.
pub open spec fn spec_process_queue(
    arena: Seq<NodeView>,
    queue: Seq<usize>,
    layer: int,
    chars: Seq<CharacteristicView>,
) -> Result<(Seq<NodeView>, Seq<usize>), KeyError>
    decreases queue.len(),
{
    if queue.len() == 0 {
        Ok((arena, Seq::<usize>::empty()))
    } else {
        match spec_process_node(arena, queue[0], layer, chars) {
            Err(e) => Err(e),
            Ok(step) => match spec_process_queue(step.0, queue.drop_first(), layer, chars) {
                Err(e) => Err(e),
                Ok(rest) => Ok((rest.0, step.1 + rest.1)),
            },
        }
    }
}

/// Processing every remaining trait layer, each draining the queue the
/// previous layer left behind.
pub open spec fn spec_process_layers(
    arena: Seq<NodeView>,
    queue: Seq<usize>,
    layer: int,
    chars: Seq<CharacteristicView>,
) -> Result<Seq<NodeView>, KeyError>
    decreases chars.len() - layer,
{
    if layer < 0 || layer >= chars.len() {
        Ok(arena)
    } else {
        match spec_process_queue(arena, queue, layer, chars) {
            Err(e) => Err(e),
            Ok(step) => spec_process_layers(step.0, step.1, layer + 1, chars),
        }
    }
}

/// The root node a build starts from: identity 0, the full plant
/// collection, and the first trait of the order (absent when the order
/// is empty).
pub open spec fn spec_root(
    plants: Seq<PlantView>,
    chars: Seq<CharacteristicView>,
) -> NodeView {
    NodeView::Option(
        OptionNodeView {
            index: 0,
            left_node: None,
            right_node: None,
            possibilities: plants,
            characteristic: if chars.len() > 0 {
                Some(chars[0])
            } else {
                None
            },
        },
    )
}

/// The complete build, as a function of the plant collection and the
/// trait order alone: the arena of the finished key, or the data error
/// that aborted construction.
pub open spec fn spec_build(
    plants: Seq<PlantView>,
    chars: Seq<CharacteristicView>,
) -> Result<Seq<NodeView>, KeyError> {
    spec_process_layers(seq![spec_root(plants, chars)], seq![0usize], 0, chars)
}

/// Appending a node appends its view.
proof fn lemma_node_views_push(s: Seq<Node>, n: Node)
    ensures
        node_views(s.push(n)) == node_views(s).push(n@),
{
    let a = node_views(s.push(n));
    let b = node_views(s).push(n@);
    assert forall|k: int| 0 <= k < a.len() implies a[k] == b[k] by {
        if k < s.len() {
            assert(s.push(n)[k] == s[k]);
            assert(node_views(s).push(n@)[k] == node_views(s)[k]);
        } else {
            assert(s.push(n)[k] == n);
            assert(node_views(s).push(n@)[k] == n@);
        }
    }
    assert(a =~= b);
}

/// Replacing a node replaces its view.
proof fn lemma_node_views_update(s: Seq<Node>, i: int, n: Node)
    requires
        0 <= i < s.len(),
    ensures
        node_views(s.update(i, n)) == node_views(s).update(i, n@),
{
    let a = node_views(s.update(i, n));
    let b = node_views(s).update(i, n@);
    assert forall|k: int| 0 <= k < a.len() implies a[k] == b[k] by {
        if k == i {
            assert(s.update(i, n)[k] == n);
            assert(node_views(s).update(i, n@)[k] == n@);
        } else {
            assert(s.update(i, n)[k] == s[k]);
            assert(node_views(s).update(i, n@)[k] == node_views(s)[k]);
        }
    }
    assert(a =~= b);
}

/// The front element and the rest of a queue suffix.
proof fn lemma_skip_step(q: Seq<usize>, j: int)
    requires
        0 <= j < q.len(),
    ensures
        q.skip(j).len() == q.len() - j,
        q.skip(j)[0] == q[j],
        q.skip(j).drop_first() == q.skip(j + 1),
{
    assert(q.skip(j).drop_first() =~= q.skip(j + 1));
}

/// Draining one queue entry whose processing succeeds carries the
/// layer's remaining-work summary from position `j` to `j + 1`.
proof fn lemma_queue_step(
    a0: Seq<NodeView>,
    q: Seq<usize>,
    j: int,
    layer: int,
    chars: Seq<CharacteristicView>,
    nq0: Seq<usize>,
    target: Result<Seq<NodeView>, KeyError>,
    a1: Seq<NodeView>,
    q1: Seq<usize>,
)
    requires
        0 <= j < q.len(),
        spec_process_node(a0, q[j], layer, chars) == Ok::<(Seq<NodeView>, Seq<usize>), KeyError>(
            (a1, q1),
        ),
        match spec_process_queue(a0, q.skip(j), layer, chars) {
            Ok(res) => spec_process_layers(res.0, nq0 + res.1, layer + 1, chars) == target,
            Err(e) => target == Err::<Seq<NodeView>, KeyError>(e),
        },
    ensures
        match spec_process_queue(a1, q.skip(j + 1), layer, chars) {
            Ok(res) => spec_process_layers(res.0, (nq0 + q1) + res.1, layer + 1, chars) == target,
            Err(e) => target == Err::<Seq<NodeView>, KeyError>(e),
        },
{
    lemma_skip_step(q, j);
    match spec_process_queue(a1, q.skip(j + 1), layer, chars) {
        Ok(rest) => {
            assert(spec_process_queue(a0, q.skip(j), layer, chars)
                == Ok::<(Seq<NodeView>, Seq<usize>), KeyError>((rest.0, q1 + rest.1)));
            assert((nq0 + q1) + rest.1 =~= nq0 + (q1 + rest.1));
        },
        Err(_) => {
            assert(spec_process_queue(a0, q.skip(j), layer, chars)
                == spec_process_queue(a1, q.skip(j + 1), layer, chars));
        },
    }
}

/// Draining one queue entry whose processing fails settles the whole
/// build on that error.
proof fn lemma_queue_step_err(
    a0: Seq<NodeView>,
    q: Seq<usize>,
    j: int,
    layer: int,
    chars: Seq<CharacteristicView>,
    nq0: Seq<usize>,
    target: Result<Seq<NodeView>, KeyError>,
    e: KeyError,
)
    requires
        0 <= j < q.len(),
        spec_process_node(a0, q[j], layer, chars) == Err::<(Seq<NodeView>, Seq<usize>), KeyError>(
            e,
        ),
        match spec_process_queue(a0, q.skip(j), layer, chars) {
            Ok(res) => spec_process_layers(res.0, nq0 + res.1, layer + 1, chars) == target,
            Err(e2) => target == Err::<Seq<NodeView>, KeyError>(e2),
        },
    ensures
        target == Err::<Seq<NodeView>, KeyError>(e),
{
    lemma_skip_step(q, j);
    assert(spec_process_queue(a0, q.skip(j), layer, chars) == Err::<(
        Seq<NodeView>,
        Seq<usize>,
    ), KeyError>(e));
}

/// Clones a plant collection, preserving its views.
fn clone_plants(ps: &[Plant]) -> (r: Vec<Plant>)
    ensures
        plant_views(r@) == plant_views(ps@),
{
    let mut out: Vec<Plant> = Vec::new();
    let n = ps.len();
    let mut i: usize = 0;
    proof {
        assert(plant_views(out@) =~= plant_views(ps@.take(0)));
    }
    while i < n
        invariant
            i <= n,
            n == ps@.len(),
            out@.len() == i,
            plant_views(out@) == plant_views(ps@.take(i as int)),
        decreases n - i,
    {
        let p = ps[i].clone();
        let ghost prev = out@;
        out.push(p);
        proof {
            assert(out@ == prev.push(p));
            assert(p@ == ps@[i as int]@);
            assert(ps@.take(i + 1) =~= ps@.take(i as int).push(ps@[i as int]));
            assert forall|k: int| 0 <= k < i + 1 implies plant_views(out@)[k] == plant_views(
                ps@.take(i + 1),
            )[k] by {
                if k < i {
                    assert(plant_views(prev)[k] == plant_views(ps@.take(i as int))[k]);
                    assert(out@[k] == prev.push(p)[k]);
                    assert(prev.push(p)[k] == prev[k]);
                } else {
                    assert(out@[k] == prev.push(p)[k]);
                    assert(prev.push(p)[k] == p);
                }
            }
            assert(plant_views(out@).len() == plant_views(ps@.take(i + 1)).len());
            assert(plant_views(out@) =~= plant_views(ps@.take(i + 1)));
        }
        i = i + 1;
    }
    proof {
        assert(ps@.take(n as int) =~= ps@);
    }
    out
}

impl Key {
    /// Builds the key: partitions `plants` trait by trait, in the given
    /// order, into a binary tree of nodes.
    ///
    /// The arena afterwards is exactly what [`spec_build`] assigns to
    /// the inputs; on a data error the key is left untouched and the
    /// error is exactly the one [`spec_build`] assigns.
    #[verifier::rlimit(100)]
    #[verifier::spinoff_prover]
    pub fn build(&mut self, plants: &[Plant], characteristics: &[Characteristic]) -> (r: Result<
        (),
        KeyError,
    >)
        requires
            old(self)@.len() == 0,
        ensures
            match r {
                Ok(()) => spec_build(plant_views(plants@), char_views(characteristics@))
                    == Ok::<Seq<NodeView>, KeyError>(final (self)@) && wf_arena(final (self)@),
                Err(e) => spec_build(plant_views(plants@), char_views(characteristics@))
                    == Err::<Seq<NodeView>, KeyError>(e) && final (self)@ == old(self)@,
            },
    {
        let ghost pviews = plant_views(plants@);
        let ghost cviews = char_views(characteristics@);
        let ghost target = spec_build(pviews, cviews);

        let clen = characteristics.len();
        let first_char: Option<Characteristic> = if characteristics.len() > 0 {
            Some(characteristics[0].clone())
        } else {
            None
        };
        let root = OptionNode {
            index: 0,
            left_node: None,
            right_node: None,
            possibilities: clone_plants(plants),
            characteristic: first_char,
        };
        let mut nodes: Vec<Node> = Vec::new();
        nodes.push(Node::Option(root));
        let mut queue: Vec<usize> = Vec::new();
        queue.push(0);
        proof {
            assert(node_views(nodes@) =~= seq![spec_root(pviews, cviews)]);
            assert(queue@ =~= seq![0usize]);
            assert(wf_arena(node_views(nodes@)));
        }

        let mut layer: usize = 0;
        while layer < clen
            invariant
                clen == characteristics@.len(),
                layer <= characteristics@.len(),
                pviews == plant_views(plants@),
                cviews == char_views(characteristics@),
                target == spec_build(pviews, cviews),
                self@ == old(self)@,
                old(self)@.len() == 0,
                spec_process_layers(node_views(nodes@), queue@, layer as int, cviews) == target,
                wf_arena(node_views(nodes@)),
                forall|k: int| 0 <= k < queue@.len() ==> (queue@[k] as int) < nodes@.len(),
            decreases characteristics@.len() - layer,
        {
            let qlen = queue.len();
            let mut next_queue: Vec<usize> = Vec::new();
            let mut j: usize = 0;
            proof {
                assert(queue@.skip(0) =~= queue@);
                assert(next_queue@ =~= Seq::<usize>::empty());
            }
            while j < qlen
                invariant
                    j <= qlen,
                    qlen == queue@.len(),
                    clen == characteristics@.len(),
                    (layer as int) < cviews.len(),
                    layer < clen,
                    pviews == plant_views(plants@),
                    cviews == char_views(characteristics@),
                    target == spec_build(pviews, cviews),
                    self@ == old(self)@,
                    old(self)@.len() == 0,
                    wf_arena(node_views(nodes@)),
                    forall|k: int| 0 <= k < queue@.len() ==> (queue@[k] as int) < nodes@.len(),
                    forall|k: int|
                        0 <= k < next_queue@.len() ==> (next_queue@[k] as int) < nodes@.len(),
                    match spec_process_queue(
                        node_views(nodes@),
                        queue@.skip(j as int),
                        layer as int,
                        cviews,
                    ) {
                        Ok(res) => spec_process_layers(
                            res.0,
                            next_queue@ + res.1,
                            layer as int + 1,
                            cviews,
                        ) == target,
                        Err(e) => target == Err::<Seq<NodeView>, KeyError>(e),
                    },
                decreases qlen - j,
            {
                let id = queue[j];
                let ghost a0 = node_views(nodes@);
                let ghost nq0 = next_queue@;
                proof {
                    lemma_skip_step(queue@, j as int);
                    assert(a0[id as int] == nodes@[id as int]@);
                }
                let onode_opt: Option<OptionNode> = match &nodes[id] {
                    Node::Option(o) => Some(o.clone()),
                    Node::Plant(_) => None,
                };
                match onode_opt {
                    None => {
                        proof {
                            assert(a0[id as int] is Plant);
                            assert(spec_process_node(a0, id, layer as int, cviews) == Ok::<(
                                Seq<NodeView>,
                                Seq<usize>,
                            ), KeyError>((a0, Seq::<usize>::empty())));
                            lemma_queue_step(
                                a0,
                                queue@,
                                j as int,
                                layer as int,
                                cviews,
                                nq0,
                                target,
                                a0,
                                Seq::<usize>::empty(),
                            );
                            assert(nq0 + Seq::<usize>::empty() =~= nq0);
                        }
                    },
                    Some(mut onode) => {
                        let ghost o = onode@;
                        proof {
                            assert(NodeView::Option(o) == a0[id as int]);
                        }
                        if onode.characteristic.is_none() {
                            proof {
                                assert(o.characteristic is None);
                                assert(spec_process_node(a0, id, layer as int, cviews) == Ok::<(
                                    Seq<NodeView>,
                                    Seq<usize>,
                                ), KeyError>((a0, Seq::<usize>::empty())));
                                lemma_queue_step(
                                    a0,
                                    queue@,
                                    j as int,
                                    layer as int,
                                    cviews,
                                    nq0,
                                    target,
                                    a0,
                                    Seq::<usize>::empty(),
                                );
                                assert(nq0 + Seq::<usize>::empty() =~= nq0);
                            }
                        } else {
                            let next_char: Option<&Characteristic> = if layer + 1 < clen {
                                Some(&characteristics[layer + 1])
                            } else {
                                None
                            };
                            let ghost nextv = if layer as int + 1 < cviews.len() {
                                Some(cviews[layer as int + 1])
                            } else {
                                None
                            };
                            proof {
                                assert(opt_char_view(next_char) == nextv);
                            }
                            match handle_option_node(&mut onode, next_char) {
                                Err(e) => {
                                    proof {
                                        assert(spec_handle(o, nextv).1 == Err::<Option<
                                            (Seq<PlantView>, Seq<PlantView>),
                                        >, KeyError>(e));
                                        assert(spec_process_node(a0, id, layer as int, cviews)
                                            == Err::<(Seq<NodeView>, Seq<usize>), KeyError>(e));
                                        lemma_queue_step_err(
                                            a0,
                                            queue@,
                                            j as int,
                                            layer as int,
                                            cviews,
                                            nq0,
                                            target,
                                            e,
                                        );
                                    }
                                    return Err(e);
                                },
                                Ok(None) => {
                                    let ghost deferred = onode@;
                                    let ghost a1 = a0.update(id as int, NodeView::Option(deferred));
                                    proof {
                                        assert(spec_handle(o, nextv).1 == Ok::<Option<
                                            (Seq<PlantView>, Seq<PlantView>),
                                        >, KeyError>(None));
                                        assert(deferred == spec_handle(o, nextv).0);
                                        assert(spec_process_node(a0, id, layer as int, cviews)
                                            == Ok::<(Seq<NodeView>, Seq<usize>), KeyError>(
                                            (a1, seq![id]),
                                        ));
                                        lemma_node_views_update(
                                            nodes@,
                                            id as int,
                                            Node::Option(onode),
                                        );
                                        lemma_queue_step(
                                            a0,
                                            queue@,
                                            j as int,
                                            layer as int,
                                            cviews,
                                            nq0,
                                            target,
                                            a1,
                                            seq![id],
                                        );
                                    }
                                    nodes.set(id, Node::Option(onode));
                                    next_queue.push(id);
                                    proof {
                                        assert(node_views(nodes@) == a1);
                                        assert(next_queue@ =~= nq0 + seq![id]);
                                        assert forall|k: int|
                                            0 <= k < a1.len() implies node_wf_at(a1, k) by {
                                            assert(node_wf_at(a0, k));
                                            if k != id {
                                                assert(a1[k] == a0[k]);
                                            }
                                        }
                                    }
                                },
                                Ok(Some((tg, fg))) => {
                                    proof {
                                        assert(spec_handle(o, nextv).1 == Ok::<Option<
                                            (Seq<PlantView>, Seq<PlantView>),
                                        >, KeyError>(Some((plant_views(tg@), plant_views(fg@)))));
                                        assert(onode@ == spec_handle(o, nextv).0);
                                        assert(onode@ == o);
                                    }
                                    let ghost tgv = plant_views(tg@);
                                    let ghost fgv = plant_views(fg@);
                                    let tlen = tg.len();
                                    let flen = fg.len();
                                    let ghost lid = a0.len() as usize;
                                    let ghost rid = (a0.len() + if tgv.len() > 0 {
                                        1int
                                    } else {
                                        0int
                                    }) as usize;
                                    let ghost parent = OptionNodeView {
                                        left_node: if tgv.len() > 0 {
                                            Some(lid)
                                        } else {
                                            o.left_node
                                        },
                                        right_node: if fgv.len() > 0 {
                                            Some(rid)
                                        } else {
                                            o.right_node
                                        },
                                        ..o
                                    };
                                    let ghost a1m = a0.update(id as int, NodeView::Option(parent));
                                    let ghost a2m = if tgv.len() > 0 {
                                        a1m.push(spec_child_node(tgv, lid, nextv))
                                    } else {
                                        a1m
                                    };
                                    let ghost a3m = if fgv.len() > 0 {
                                        a2m.push(spec_child_node(fgv, rid, nextv))
                                    } else {
                                        a2m
                                    };
                                    let ghost q1m = (if tgv.len() > 1 {
                                        seq![lid]
                                    } else {
                                        Seq::<usize>::empty()
                                    }) + (if fgv.len() > 1 {
                                        seq![rid]
                                    } else {
                                        Seq::<usize>::empty()
                                    });
                                    proof {
                                        assert(spec_process_node(a0, id, layer as int, cviews)
                                            == Ok::<(Seq<NodeView>, Seq<usize>), KeyError>(
                                            (a3m, q1m),
                                        ));
                                        lemma_queue_step(
                                            a0,
                                            queue@,
                                            j as int,
                                            layer as int,
                                            cviews,
                                            nq0,
                                            target,
                                            a3m,
                                            q1m,
                                        );
                                    }
                                    if tlen > 0 {
                                        let lid_e = nodes.len();
                                        proof {
                                            assert(lid_e == lid);
                                        }
                                        if tlen == 1 {
                                            let mut tg2 = tg;
                                            let p = tg2.pop().unwrap();
                                            proof {
                                                assert(p@ == tgv[0]);
                                            }
                                            let child = Node::Plant(
                                                PlantNode { index: lid_e, plant: p },
                                            );
                                            proof {
                                                assert(child@ == spec_child_node(tgv, lid, nextv));
                                                lemma_node_views_push(nodes@, child);
                                            }
                                            nodes.push(child);
                                        } else {
                                            let child = Node::Option(
                                                OptionNode {
                                                    index: lid_e,
                                                    left_node: None,
                                                    right_node: None,
                                                    possibilities: tg,
                                                    characteristic: match next_char {
                                                        Some(nc) => Some(nc.clone()),
                                                        None => None,
                                                    },
                                                },
                                            );
                                            proof {
                                                assert(child@ == spec_child_node(tgv, lid, nextv));
                                                lemma_node_views_push(nodes@, child);
                                            }
                                            nodes.push(child);
                                            next_queue.push(lid_e);
                                        }
                                        onode.left_node = Some(lid_e);
                                        proof {
                                            assert(node_views(nodes@) == a0.push(
                                                spec_child_node(tgv, lid, nextv),
                                            ));
                                        }
                                    }
                                    let ghost at = node_views(nodes@);
                                    if flen > 0 {
                                        let rid_e = nodes.len();
                                        proof {
                                            assert(rid_e == rid);
                                        }
                                        if flen == 1 {
                                            let mut fg2 = fg;
                                            let p = fg2.pop().unwrap();
                                            proof {
                                                assert(p@ == fgv[0]);
                                            }
                                            let child = Node::Plant(
                                                PlantNode { index: rid_e, plant: p },
                                            );
                                            proof {
                                                assert(child@ == spec_child_node(fgv, rid, nextv));
                                                lemma_node_views_push(nodes@, child);
                                            }
                                            nodes.push(child);
                                        } else {
                                            let child = Node::Option(
                                                OptionNode {
                                                    index: rid_e,
                                                    left_node: None,
                                                    right_node: None,
                                                    possibilities: fg,
                                                    characteristic: match next_char {
                                                        Some(nc) => Some(nc.clone()),
                                                        None => None,
                                                    },
                                                },
                                            );
                                            proof {
                                                assert(child@ == spec_child_node(fgv, rid, nextv));
                                                lemma_node_views_push(nodes@, child);
                                            }
                                            nodes.push(child);
                                            next_queue.push(rid_e);
                                        }
                                        onode.right_node = Some(rid_e);
                                        proof {
                                            assert(node_views(nodes@) == at.push(
                                                spec_child_node(fgv, rid, nextv),
                                            ));
                                        }
                                    }
                                    let ghost ab = node_views(nodes@);
                                    proof {
                                        assert(onode@ == parent);
                                        lemma_node_views_update(
                                            nodes@,
                                            id as int,
                                            Node::Option(onode),
                                        );
                                    }
                                    nodes.set(id, Node::Option(onode));
                                    proof {
                                        assert(node_views(nodes@) == ab.update(
                                            id as int,
                                            NodeView::Option(parent),
                                        ));
                                        assert(node_views(nodes@) =~= a3m);
                                        assert(next_queue@ =~= nq0 + q1m);
                                        assert forall|k: int|
                                            0 <= k < a3m.len() implies node_wf_at(a3m, k) by {
                                            if k == id {
                                                assert(node_wf_at(a0, id as int));
                                                assert(o.index == id);
                                                assert(a3m[k] == NodeView::Option(parent));
                                            } else if k < a0.len() {
                                                assert(node_wf_at(a0, k));
                                                assert(a3m[k] == a0[k]);
                                            } else if k == lid && tgv.len() > 0 {
                                                assert(a3m[k] == spec_child_node(
                                                    tgv,
                                                    lid,
                                                    nextv,
                                                ));
                                            } else {
                                                assert(k == rid && fgv.len() > 0);
                                                assert(a3m[k] == spec_child_node(
                                                    fgv,
                                                    rid,
                                                    nextv,
                                                ));
                                            }
                                        }
                                        assert(wf_arena(node_views(nodes@)));
                                    }
                                },
                            }
                        }
                    },
                }
                j = j + 1;
            }
            proof {
                assert(queue@.skip(qlen as int) =~= Seq::<usize>::empty());
                assert(spec_process_queue(
                    node_views(nodes@),
                    queue@.skip(qlen as int),
                    layer as int,
                    cviews,
                ) == Ok::<(Seq<NodeView>, Seq<usize>), KeyError>(
                    (node_views(nodes@), Seq::<usize>::empty()),
                ));
                assert(next_queue@ + Seq::<usize>::empty() =~= next_queue@);
            }
            queue = next_queue;
            layer = layer + 1;
        }
        proof {
            assert(spec_process_layers(node_views(nodes@), queue@, layer as int, cviews)
                == Ok::<Seq<NodeView>, KeyError>(node_views(nodes@)));
        }
        self.nodes = nodes;
        Ok(())
    }
}

/// The indentation of one outline level: `depth` single spaces.
pub open spec fn spec_indent(depth: nat) -> Seq<char>
    decreases depth,
{
    if depth == 0 {
        Seq::<char>::empty()
    } else {
        spec_indent((depth - 1) as nat) + " "@
    }
}

/// The outline text of the subtree rooted at `id`, pre-order: an
/// option node prints its trait name with the true label, the left
/// (true) subtree, the trait name with the false label, then the right
/// (false) subtree; a leaf prints its plant's display identity.  Every
/// line is indented by its depth.
pub open spec fn spec_render_node(a: Seq<NodeView>, id: usize, depth: nat) -> Seq<char>
    decreases a.len() - id,
    when (id as int) < a.len()
{
    match a[id as int] {
        NodeView::Plant(p) => spec_indent(depth) + p.plant.genus + " "@ + p.plant.species + "\n"@,
        NodeView::Option(o) => {
            let c = o.characteristic.unwrap();
            spec_indent(depth) + c.name + " is "@ + c.true_option + "\n"@ + (match o.left_node {
                Some(l) => if id < l && (l as int) < a.len() {
                    spec_render_node(a, l, depth + 1)
                } else {
                    Seq::<char>::empty()
                },
                None => Seq::<char>::empty(),
            }) + spec_indent(depth) + c.name + " is "@ + c.false_option + "\n"@ + (
            match o.right_node {
                Some(rn) => if id < rn && (rn as int) < a.len() {
                    spec_render_node(a, rn, depth + 1)
                } else {
                    Seq::<char>::empty()
                },
                None => Seq::<char>::empty(),
            })
        },
    }
}

/// Appends `depth` spaces to `out`.
fn indent(out: &mut String, depth: usize)
    ensures
        final (out)@ == old(out)@ + spec_indent(depth as nat),
{
    let mut k: usize = 0;
    proof {
        assert(old(out)@ + spec_indent(0) =~= old(out)@);
    }
    while k < depth
        invariant
            k <= depth,
            out@ == old(out)@ + spec_indent(k as nat),
        decreases depth - k,
    {
        out.append(" ");
        proof {
            assert(out@ =~= old(out)@ + spec_indent((k + 1) as nat));
        }
        k = k + 1;
    }
}

/// Appends the outline of the subtree rooted at `id` to `out`:
/// pre-order, true branch before false branch, indentation
/// proportional to depth.
#[verifier::rlimit(100)]
pub fn pre_order_traversal(nodes: &Vec<Node>, id: usize, depth: usize, out: &mut String)
    requires
        wf_arena(node_views(nodes@)),
        spec_resolved(node_views(nodes@)),
        (id as int) < nodes@.len(),
        depth <= id,
    ensures
        final (out)@ == old(out)@ + spec_render_node(node_views(nodes@), id, depth as nat),
    decreases nodes@.len() - id,
{
    let ghost a = node_views(nodes@);
    proof {
        assert(a[id as int] == nodes@[id as int]@);
        assert(node_wf_at(a, id as int));
        assert(node_resolved_at(a, id as int));
    }
    indent(out, depth);
    match &nodes[id] {
        Node::Plant(plant_node) => {
            let disp = plant_node.plant.display();
            out.append(disp.as_str());
            out.append("\n");
            proof {
                assert(out@ =~= old(out)@ + spec_render_node(a, id, depth as nat));
            }
        },
        Node::Option(option_node) => {
            let c = option_node.characteristic.as_ref().unwrap();
            out.append(c.name.as_str());
            out.append(" is ");
            out.append(c.true_option.as_str());
            out.append("\n");
            let ghost mid1 = out@;
            proof {
                assert(mid1 =~= old(out)@ + spec_indent(depth as nat) + c@.name + " is "@
                    + c@.true_option + "\n"@);
            }
            if let Some(l) = option_node.left_node {
                pre_order_traversal(nodes, l, depth + 1, out);
            }
            let ghost mid2 = out@;
            indent(out, depth);
            out.append(c.name.as_str());
            out.append(" is ");
            out.append(c.false_option.as_str());
            out.append("\n");
            let ghost mid3 = out@;
            proof {
                assert(mid3 =~= mid2 + spec_indent(depth as nat) + c@.name + " is "@
                    + c@.false_option + "\n"@);
            }
            if let Some(rn) = option_node.right_node {
                pre_order_traversal(nodes, rn, depth + 1, out);
            }
            proof {
                assert(out@ =~= old(out)@ + spec_render_node(a, id, depth as nat));
            }
        },
    }
}

impl Key {
    /// Whether every option node of the key has a trait assigned: only
    /// a resolved key can be rendered.
    pub fn is_resolved(&self) -> (r: bool)
        ensures
            r == spec_resolved(self@),
    {
        let n = self.nodes.len();
        let mut i: usize = 0;
        while i < n
            invariant
                i <= n,
                n == self.nodes@.len(),
                self@.len() == self.nodes@.len(),
                forall|k: int| 0 <= k < i ==> node_resolved_at(self@, k),
            decreases n - i,
        {
            proof {
                assert(self@[i as int] == self.nodes@[i as int]@);
            }
            match &self.nodes[i] {
                Node::Option(o) => {
                    if o.characteristic.is_none() {
                        proof {
                            assert(!node_resolved_at(self@, i as int));
                        }
                        return false;
                    }
                },
                Node::Plant(_) => {},
            }
            i = i + 1;
        }
        true
    }

    /// The number of nodes the key's arena holds.
    pub fn node_count(&self) -> (r: usize)
        ensures
            r == self@.len(),
    {
        self.nodes.len()
    }

    /// Renders the key as the pre-order outline of its tree, starting
    /// from the root: true branch before false branch, one line per
    /// question outcome or resolved plant, indented by depth.
    pub fn render(&self) -> (r: String)
        requires
            self@.len() > 0,
            wf_arena(self@),
            spec_resolved(self@),
        ensures
            r@ == spec_render_node(self@, 0, 0),
    {
        let mut out = String::new();
        pre_order_traversal(&self.nodes, 0, 0, &mut out);
        proof {
            assert(Seq::<char>::empty() + spec_render_node(self@, 0, 0) =~= spec_render_node(
                self@,
                0,
                0,
            ));
        }
        out
    }
}

/// When every plant of a set lacks the trait, the absent group is the
/// whole set.
proof fn lemma_absent_all(ps: Seq<PlantView>, c: CharacteristicView)
    requires
        forall|i: int| 0 <= i < ps.len() ==> plant_lacks(ps[i], c),
    ensures
        spec_absent_group(ps, c) == ps,
    decreases ps.len(),
{
    broadcast use Seq::lemma_filter_push;

    if ps.len() == 0 {
        reveal(Seq::filter);
        assert(spec_absent_group(ps, c) =~= ps);
    } else {
        assert forall|i: int| 0 <= i < ps.drop_last().len() implies plant_lacks(
            ps.drop_last()[i],
            c,
        ) by {
            assert(ps.drop_last()[i] == ps[i]);
        }
        lemma_absent_all(ps.drop_last(), c);
        assert(ps.drop_last().push(ps.last()) =~= ps);
        assert(spec_absent_group(ps.drop_last().push(ps.last()), c) == spec_absent_group(ps, c));
        assert(plant_lacks(ps.last(), c));
        assert(spec_absent_group(ps, c) =~= ps);
    }
}

/// When some plant of a set carries the trait, the absent group is a
/// proper part of the set.
proof fn lemma_absent_not_all(ps: Seq<PlantView>, c: CharacteristicView, i: int)
    requires
        0 <= i < ps.len(),
        !plant_lacks(ps[i], c),
    ensures
        spec_absent_group(ps, c).len() < ps.len(),
    decreases ps.len(),
{
    broadcast use Seq::lemma_filter_push, Seq::lemma_filter_len;

    assert(ps.drop_last().push(ps.last()) =~= ps);
    assert(spec_absent_group(ps.drop_last().push(ps.last()), c) == spec_absent_group(ps, c));
    if i == ps.len() - 1 {
        assert(spec_absent_group(ps, c) == spec_absent_group(ps.drop_last(), c));
        assert(spec_absent_group(ps.drop_last(), c).len() <= ps.drop_last().len());
    } else {
        assert(ps.drop_last()[i] == ps[i]);
        lemma_absent_not_all(ps.drop_last(), c, i);
    }
}

/// Determinism: one plant collection and one trait order determine the
/// key completely.  Two successful builds from the same inputs yield
/// identical arenas, node for node, left and right assignments
/// included.
pub proof fn lemma_build_deterministic(
    plants: Seq<PlantView>,
    chars: Seq<CharacteristicView>,
    a1: Seq<NodeView>,
    a2: Seq<NodeView>,
)
    requires
        spec_build(plants, chars) == Ok::<Seq<NodeView>, KeyError>(a1),
        spec_build(plants, chars) == Ok::<Seq<NodeView>, KeyError>(a2),
    ensures
        a1 == a2,
{
}

/// Deferral: when every plant of a node's possibility set lacks the
/// node's assigned trait, processing the node keeps the possibility
/// set and the recorded children unchanged, reassigns the node to the
/// next trait of the order, queues it again, and creates no children:
/// it never splits on absent data.
pub proof fn lemma_deferral(
    arena: Seq<NodeView>,
    id: usize,
    layer: int,
    chars: Seq<CharacteristicView>,
    o: OptionNodeView,
)
    requires
        (id as int) < arena.len(),
        arena[id as int] == NodeView::Option(o),
        o.characteristic is Some,
        o.possibilities.len() > 0,
        forall|i: int|
            0 <= i < o.possibilities.len() ==> plant_lacks(
                o.possibilities[i],
                o.characteristic.unwrap(),
            ),
    ensures
        ({
            let next = if layer + 1 < chars.len() {
                Some(chars[layer + 1])
            } else {
                None
            };
            let deferred = OptionNodeView { characteristic: next, ..o };
            &&& spec_process_node(arena, id, layer, chars) == Ok::<(
                Seq<NodeView>,
                Seq<usize>,
            ), KeyError>((arena.update(id as int, NodeView::Option(deferred)), seq![id]))
            &&& deferred.possibilities == o.possibilities
            &&& deferred.left_node == o.left_node
            &&& deferred.right_node == o.right_node
        }),
{
    let c = o.characteristic.unwrap();
    assert(!has_unrecognized(o.possibilities, c));
    lemma_absent_all(o.possibilities, c);
}

/// Inconsistency detection: a possibility set where one plant carries
/// a value for the assigned trait and another does not makes the
/// builder fail — never a silent misclassification.  When no value is
/// unrecognized the error is exactly the partial-coverage one.
pub proof fn lemma_inconsistency(
    arena: Seq<NodeView>,
    id: usize,
    layer: int,
    chars: Seq<CharacteristicView>,
    o: OptionNodeView,
    i: int,
    k: int,
)
    requires
        (id as int) < arena.len(),
        arena[id as int] == NodeView::Option(o),
        o.characteristic is Some,
        0 <= i < o.possibilities.len(),
        0 <= k < o.possibilities.len(),
        !plant_lacks(o.possibilities[i], o.characteristic.unwrap()),
        plant_lacks(o.possibilities[k], o.characteristic.unwrap()),
    ensures
        spec_process_node(arena, id, layer, chars) is Err,
        !has_unrecognized(o.possibilities, o.characteristic.unwrap())
            ==> spec_process_node(arena, id, layer, chars) == Err::<(
            Seq<NodeView>,
            Seq<usize>,
        ), KeyError>(KeyError::PartialCoverage),
{
    broadcast use Seq::lemma_filter_contains;

    let c = o.characteristic.unwrap();
    let ps = o.possibilities;
    if !has_unrecognized(ps, c) {
        assert(spec_absent_group(ps, c).contains(ps[k]));
        assert(spec_absent_group(ps, c).len() > 0);
        lemma_absent_not_all(ps, c, i);
    }
}

/// Whether the child slot `x` records `c`.
pub open spec fn link_to(x: Option<usize>, c: int) -> bool {
    match x {
        Some(l) => l == c,
        None => false,
    }
}

/// Whether the node at `p` records `c` as one of its children.
pub open spec fn parent_edge(a: Seq<NodeView>, p: int, c: int) -> bool {
    0 <= p < a.len() && match a[p] {
        NodeView::Option(o) => link_to(o.left_node, c) || link_to(o.right_node, c),
        NodeView::Plant(_) => false,
    }
}

/// Whether a chain of exactly `d` child edges leads from the root to
/// the node at `id`: the node stands at depth `d`.
pub open spec fn reaches(a: Seq<NodeView>, id: int, d: nat) -> bool
    decreases d,
{
    if d == 0 {
        id == 0
    } else {
        exists|p: int| reaches(a, p, (d - 1) as nat) && #[trigger] parent_edge(a, p, id)
    }
}

/// In a well-formed arena every edge ends inside the arena.
proof fn lemma_wf_edge_bound(a: Seq<NodeView>, p: int, c: int)
    requires
        wf_arena(a),
        parent_edge(a, p, c),
    ensures
        p < c < a.len(),
{
    assert(node_wf_at(a, p));
}

/// Paths in an arena extended by one step decompose: they either
/// existed before, or end in one new edge from `pid` to a fresh node.
///
/// The step may add edges only from `pid` to nodes at `bound` or
/// later, and nodes at `bound` or later have no children yet.
proof fn lemma_reaches_frame(
    a0: Seq<NodeView>,
    a1: Seq<NodeView>,
    pid: int,
    bound: int,
    id: int,
    d: nat,
)
    requires
        forall|p: int, c: int| #[trigger]
            parent_edge(a1, p, c) ==> parent_edge(a0, p, c) || (p == pid && bound <= c),
        forall|p: int, c: int| bound <= p ==> !(#[trigger] parent_edge(a1, p, c)),
        pid < bound,
        0 < bound,
        reaches(a1, id, d),
    ensures
        reaches(a0, id, d) || (bound <= id && d > 0 && reaches(a0, pid, (d - 1) as nat)),
    decreases d,
{
    if d > 0 {
        let p = choose|p: int| reaches(a1, p, (d - 1) as nat) && #[trigger] parent_edge(a1, p, id);
        assert(p < bound);
        lemma_reaches_frame(a0, a1, pid, bound, p, (d - 1) as nat);
        assert(reaches(a0, p, (d - 1) as nat));
        if parent_edge(a0, p, id) {
            assert(reaches(a0, id, d));
        } else {
            assert(p == pid && bound <= id);
        }
    }
}

/// Processing one node never shrinks the arena, and everything it
/// queues lies inside the stepped arena.
proof fn lemma_process_node_shape(
    a: Seq<NodeView>,
    id: usize,
    layer: int,
    chars: Seq<CharacteristicView>,
    a1: Seq<NodeView>,
    q1: Seq<usize>,
)
    requires
        (id as int) < a.len(),
        spec_process_node(a, id, layer, chars) == Ok::<(Seq<NodeView>, Seq<usize>), KeyError>(
            (a1, q1),
        ),
    ensures
        a.len() <= a1.len(),
        forall|k: int| 0 <= k < q1.len() ==> (q1[k] as int) < a1.len(),
{
    match a[id as int] {
        NodeView::Plant(_) => {
        },
        NodeView::Option(o) => {
            if o.characteristic is Some {
                let next = if layer + 1 < chars.len() {
                    Some(chars[layer + 1])
                } else {
                    None
                };
                let step = spec_handle(o, next);
                assert(step.1 is Ok);
                assert forall|k: int| 0 <= k < q1.len() implies (q1[k] as int) < a1.len() by {
                    assert((q1[k] as int) <= usize::MAX);
                }
            }
        },
    }
}

/// Processing a queue never shrinks the arena, and everything it
/// queues lies inside the resulting arena.
proof fn lemma_process_queue_shape(
    a: Seq<NodeView>,
    q: Seq<usize>,
    layer: int,
    chars: Seq<CharacteristicView>,
    out_a: Seq<NodeView>,
    out_q: Seq<usize>,
)
    requires
        forall|k: int| 0 <= k < q.len() ==> (q[k] as int) < a.len(),
        spec_process_queue(a, q, layer, chars) == Ok::<(Seq<NodeView>, Seq<usize>), KeyError>(
            (out_a, out_q),
        ),
    ensures
        a.len() <= out_a.len(),
        forall|k: int| 0 <= k < out_q.len() ==> (out_q[k] as int) < out_a.len(),
    decreases q.len(),
{
    if q.len() > 0 {
        match spec_process_node(a, q[0], layer, chars) {
            Err(_) => {
                assert(false);
            },
            Ok(step) => {
                lemma_process_node_shape(a, q[0], layer, chars, step.0, step.1);
                match spec_process_queue(step.0, q.drop_first(), layer, chars) {
                    Err(_) => {
                        assert(false);
                    },
                    Ok(rest) => {
                        assert forall|k: int|
                            0 <= k < q.drop_first().len() implies (q.drop_first()[k] as int)
                            < step.0.len() by {
                            assert(q.drop_first()[k] == q[k + 1]);
                        }
                        lemma_process_queue_shape(
                            step.0,
                            q.drop_first(),
                            layer,
                            chars,
                            rest.0,
                            rest.1,
                        );
                        assert forall|k: int|
                            0 <= k < out_q.len() implies (out_q[k] as int) < out_a.len() by {
                            if k < step.1.len() {
                                assert(out_q[k] == step.1[k]);
                            } else {
                                assert(out_q[k] == rest.1[k - step.1.len()]);
                            }
                        }
                    },
                }
            },
        }
    }
}

/// What one successful processing step does to the arena's edges: the
/// arena only grows, stays well formed, gains edges only from the
/// processed node to its fresh children, leaves fresh nodes childless,
/// and queues only the processed node itself or fresh children.
proof fn lemma_step_facts(
    a: Seq<NodeView>,
    id: usize,
    layer: int,
    chars: Seq<CharacteristicView>,
    a1: Seq<NodeView>,
    q1: Seq<usize>,
)
    requires
        wf_arena(a),
        (id as int) < a.len(),
        a1.len() <= usize::MAX,
        spec_process_node(a, id, layer, chars) == Ok::<(Seq<NodeView>, Seq<usize>), KeyError>(
            (a1, q1),
        ),
    ensures
        wf_arena(a1),
        a.len() <= a1.len(),
        forall|p: int, c: int| #[trigger]
            parent_edge(a1, p, c) ==> parent_edge(a, p, c) || (p == id && a.len() <= c),
        forall|p: int, c: int| a.len() <= p ==> !(#[trigger] parent_edge(a1, p, c)),
        forall|k: int|
            0 <= k < q1.len() ==> ((q1[k] as int) == id || a.len() <= (q1[k] as int)) && (
            q1[k] as int) < a1.len(),
{
    match a[id as int] {
        NodeView::Plant(_) => {
            assert(a1 == a);
        },
        NodeView::Option(o) => {
            if o.characteristic is None {
                assert(a1 == a);
            } else {
                let next = if layer + 1 < chars.len() {
                    Some(chars[layer + 1])
                } else {
                    None
                };
                let step = spec_handle(o, next);
                match step.1 {
                    Err(_) => {
                        assert(false);
                    },
                    Ok(None) => {
                        assert(a1 == a.update(id as int, NodeView::Option(step.0)));
                        assert(q1 == seq![id]);
                        assert(step.0.left_node == o.left_node);
                        assert(step.0.right_node == o.right_node);
                        assert forall|k: int| 0 <= k < a1.len() implies node_wf_at(a1, k) by {
                            assert(node_wf_at(a, k));
                            if k != id {
                                assert(a1[k] == a[k]);
                            }
                        }
                        assert forall|p: int, c: int| #[trigger]
                            parent_edge(a1, p, c) implies parent_edge(a, p, c) by {
                            if p != id {
                                assert(a1[p] == a[p]);
                            }
                        }
                    },
                    Ok(Some(groups)) => {
                        let tg = groups.0;
                        let fg = groups.1;
                        let lid = a.len() as usize;
                        let rid = (a.len() + if tg.len() > 0 {
                            1int
                        } else {
                            0int
                        }) as usize;
                        let parent = OptionNodeView {
                            left_node: if tg.len() > 0 {
                                Some(lid)
                            } else {
                                o.left_node
                            },
                            right_node: if fg.len() > 0 {
                                Some(rid)
                            } else {
                                o.right_node
                            },
                            ..step.0
                        };
                        assert(step.0 == o);
                        assert(node_wf_at(a, id as int));
                        assert(o.index == id);
                        assert forall|k: int| 0 <= k < a1.len() implies node_wf_at(a1, k) by {
                            if k == id {
                                assert(a1[k] == NodeView::Option(parent));
                            } else if k < a.len() {
                                assert(node_wf_at(a, k));
                                assert(a1[k] == a[k]);
                            } else if k == lid && tg.len() > 0 {
                                assert(a1[k] == spec_child_node(tg, lid, next));
                            } else {
                                assert(k == rid && fg.len() > 0);
                                assert(a1[k] == spec_child_node(fg, rid, next));
                            }
                        }
                        assert forall|p: int, c: int| #[trigger]
                            parent_edge(a1, p, c) implies parent_edge(a, p, c) || (p == id
                            && a.len() <= c) by {
                            if p < a.len() && p != id {
                                assert(a1[p] == a[p]);
                            } else if p == id {
                                if !(a.len() <= c) {
                                    assert(link_to(o.left_node, c) || link_to(o.right_node, c));
                                }
                            } else {
                                if p == lid && tg.len() > 0 {
                                    assert(a1[p] == spec_child_node(tg, lid, next));
                                } else if p == rid && fg.len() > 0 {
                                    assert(a1[p] == spec_child_node(fg, rid, next));
                                }
                            }
                        }
                        assert forall|p: int, c: int| a.len() <= p implies !(#[trigger]
                        parent_edge(a1, p, c)) by {
                            if (p as int) < a1.len() {
                                if p == lid && tg.len() > 0 {
                                    assert(a1[p] == spec_child_node(tg, lid, next));
                                } else if p == rid && fg.len() > 0 {
                                    assert(a1[p] == spec_child_node(fg, rid, next));
                                }
                            }
                        }
                    },
                }
            }
        },
    }
}

/// Draining one layer's queue keeps every depth within the trait
/// count, bounds depths of the next layer's queue entries by one more
/// question, and adds no path to any pre-existing node.
proof fn lemma_queue_depth(
    a: Seq<NodeView>,
    q: Seq<usize>,
    layer: int,
    chars: Seq<CharacteristicView>,
    out_a: Seq<NodeView>,
    out_q: Seq<usize>,
)
    requires
        wf_arena(a),
        0 < a.len(),
        out_a.len() <= usize::MAX,
        0 <= layer < chars.len(),
        forall|x: int, d: nat| reaches(a, x, d) ==> d <= chars.len(),
        forall|k: int| 0 <= k < q.len() ==> (q[k] as int) < a.len(),
        forall|k: int, d: nat| #![trigger reaches(a, q[k] as int, d)]
            0 <= k < q.len() && reaches(a, q[k] as int, d) ==> d <= layer,
        spec_process_queue(a, q, layer, chars) == Ok::<(Seq<NodeView>, Seq<usize>), KeyError>(
            (out_a, out_q),
        ),
    ensures
        wf_arena(out_a),
        a.len() <= out_a.len(),
        forall|x: int, d: nat| reaches(out_a, x, d) ==> d <= chars.len(),
        forall|x: int, d: nat| #![trigger reaches(out_a, x, d)]
            0 <= x < a.len() && reaches(out_a, x, d) ==> reaches(a, x, d),
        forall|k: int| 0 <= k < out_q.len() ==> (out_q[k] as int) < out_a.len(),
        forall|k: int, d: nat| #![trigger reaches(out_a, out_q[k] as int, d)]
            0 <= k < out_q.len() && reaches(out_a, out_q[k] as int, d) ==> d <= layer + 1,
    decreases q.len(),
{
    if q.len() == 0 {
        assert(out_a == a);
        assert(out_q == Seq::<usize>::empty());
    } else {
        let id = q[0];
        match spec_process_node(a, id, layer, chars) {
            Err(_) => {
                assert(false);
            },
            Ok(step) => {
                let a1 = step.0;
                let q1 = step.1;
                match spec_process_queue(a1, q.drop_first(), layer, chars) {
                    Err(_) => {
                        assert(false);
                    },
                    Ok(rest) => {
                        assert(out_a == rest.0);
                        assert(out_q == q1 + rest.1);
                        lemma_process_node_shape(a, id, layer, chars, a1, q1);
                        assert forall|k: int|
                            0 <= k < q.drop_first().len() implies (q.drop_first()[k] as int)
                            < a1.len() by {
                            assert(q.drop_first()[k] == q[k + 1]);
                        }
                        lemma_process_queue_shape(
                            a1,
                            q.drop_first(),
                            layer,
                            chars,
                            rest.0,
                            rest.1,
                        );
                        lemma_step_facts(a, id, layer, chars, a1, q1);

                        // every depth in the stepped arena stays within the trait count
                        assert forall|x: int, d: nat| reaches(a1, x, d) implies d
                            <= chars.len() by {
                            lemma_reaches_frame(a, a1, id as int, a.len() as int, x, d);
                            if !reaches(a, x, d) {
                                assert(reaches(a, q[0] as int, (d - 1) as nat));
                            }
                        }
                        // paths to pre-existing nodes reflect to the old arena
                        assert forall|x: int, d: nat|
                            0 <= x < a.len() && reaches(a1, x, d) implies reaches(a, x, d) by {
                            lemma_reaches_frame(a, a1, id as int, a.len() as int, x, d);
                        }
                        // remaining queue entries keep their layer bound
                        assert forall|k: int, d: nat| #![trigger reaches(a1, q.drop_first()[k] as int, d)]
                            0 <= k < q.drop_first().len() && reaches(
                                a1,
                                q.drop_first()[k] as int,
                                d,
                            ) implies d <= layer by {
                            assert(q.drop_first()[k] == q[k + 1]);
                            assert(reaches(a, q[k + 1] as int, d));
                        }
                        // nodes this step queued sit at most one level deeper
                        assert forall|k: int, d: nat| #![trigger reaches(a1, q1[k] as int, d)]
                            0 <= k < q1.len() && reaches(a1, q1[k] as int, d) implies d <= layer
                            + 1 by {
                            let e = q1[k] as int;
                            if e == id {
                                assert(reaches(a, q[0] as int, d));
                            } else {
                                assert(a.len() <= e);
                                lemma_reaches_frame(a, a1, id as int, a.len() as int, e, d);
                                if reaches(a, e, d) {
                                    if d > 0 {
                                        let p = choose|p: int|
                                            reaches(a, p, (d - 1) as nat) && #[trigger]
                                            parent_edge(a, p, e);
                                        lemma_wf_edge_bound(a, p, e);
                                    }
                                    assert(false);
                                }
                                assert(reaches(a, q[0] as int, (d - 1) as nat));
                            }
                        }
                        lemma_queue_depth(a1, q.drop_first(), layer, chars, rest.0, rest.1);

                        assert forall|x: int, d: nat|
                            0 <= x < a.len() && reaches(out_a, x, d) implies reaches(a, x, d) by {
                            assert(reaches(a1, x, d));
                        }
                        assert forall|k: int|
                            0 <= k < out_q.len() implies (out_q[k] as int) < out_a.len() by {
                            if k < q1.len() {
                                assert(out_q[k] == q1[k]);
                            } else {
                                assert(out_q[k] == rest.1[k - q1.len()]);
                            }
                        }
                        assert forall|k: int, d: nat| #![trigger reaches(out_a, out_q[k] as int, d)]
                            0 <= k < out_q.len() && reaches(out_a, out_q[k] as int, d) implies d
                            <= layer + 1 by {
                            if k < q1.len() {
                                assert(out_q[k] == q1[k]);
                                assert(reaches(a1, q1[k] as int, d));
                            } else {
                                assert(out_q[k] == rest.1[k - q1.len()]);
                                assert(reaches(out_a, rest.1[k - q1.len()] as int, d));
                            }
                        }
                    },
                }
            },
        }
    }
}

/// Processing the remaining layers never lengthens any root path
/// beyond the trait count.
proof fn lemma_layers_depth(
    a: Seq<NodeView>,
    q: Seq<usize>,
    layer: int,
    chars: Seq<CharacteristicView>,
    out_a: Seq<NodeView>,
)
    requires
        wf_arena(a),
        0 < a.len(),
        out_a.len() <= usize::MAX,
        0 <= layer <= chars.len(),
        forall|x: int, d: nat| reaches(a, x, d) ==> d <= chars.len(),
        forall|k: int| 0 <= k < q.len() ==> (q[k] as int) < a.len(),
        forall|k: int, d: nat| #![trigger reaches(a, q[k] as int, d)]
            0 <= k < q.len() && reaches(a, q[k] as int, d) ==> d <= layer,
        spec_process_layers(a, q, layer, chars) == Ok::<Seq<NodeView>, KeyError>(out_a),
    ensures
        forall|x: int, d: nat| reaches(out_a, x, d) ==> d <= chars.len(),
    decreases chars.len() - layer,
{
    if layer >= chars.len() {
        assert(out_a == a);
    } else {
        match spec_process_queue(a, q, layer, chars) {
            Err(_) => {
                assert(false);
            },
            Ok(mid) => {
                lemma_process_queue_shape(a, q, layer, chars, mid.0, mid.1);
                // the arena only ever grows, so the final bound covers
                // every intermediate arena
                lemma_layers_len(mid.0, mid.1, layer + 1, chars, out_a);
                lemma_queue_depth(a, q, layer, chars, mid.0, mid.1);
                lemma_layers_depth(mid.0, mid.1, layer + 1, chars, out_a);
            },
        }
    }
}

/// Processing layers never shrinks the arena.
proof fn lemma_layers_len(
    a: Seq<NodeView>,
    q: Seq<usize>,
    layer: int,
    chars: Seq<CharacteristicView>,
    out_a: Seq<NodeView>,
)
    requires
        forall|k: int| 0 <= k < q.len() ==> (q[k] as int) < a.len(),
        spec_process_layers(a, q, layer, chars) == Ok::<Seq<NodeView>, KeyError>(out_a),
    ensures
        a.len() <= out_a.len(),
    decreases chars.len() - layer,
{
    if layer < 0 || layer >= chars.len() {
        assert(out_a == a);
    } else {
        match spec_process_queue(a, q, layer, chars) {
            Err(_) => {
                assert(false);
            },
            Ok(mid) => {
                lemma_process_queue_shape(a, q, layer, chars, mid.0, mid.1);
                lemma_layers_len(mid.0, mid.1, layer + 1, chars, out_a);
            },
        }
    }
}

/// Depth bound: in a built key, a node that `d` questions reach from
/// the root satisfies `d` ≤ the number of traits in the order — no
/// chain of children is longer than the trait order.  The length
/// premise is a machine limit every arena held in a vector meets.
pub proof fn lemma_depth_bound(
    plants: Seq<PlantView>,
    chars: Seq<CharacteristicView>,
    a: Seq<NodeView>,
    id: int,
    d: nat,
)
    requires
        spec_build(plants, chars) == Ok::<Seq<NodeView>, KeyError>(a),
        a.len() <= usize::MAX,
        reaches(a, id, d),
    ensures
        d <= chars.len(),
{
    let a0 = seq![spec_root(plants, chars)];
    let q0 = seq![0usize];
    assert(a0[0] == spec_root(plants, chars));
    assert(a0.len() == 1);
    assert forall|k: int| 0 <= k < a0.len() implies node_wf_at(a0, k) by {
        assert(a0[k] == spec_root(plants, chars));
    }
    assert forall|p: int, c: int| !(#[trigger] parent_edge(a0, p, c)) by {
        if 0 <= p < a0.len() {
            assert(a0[p] == spec_root(plants, chars));
        }
    }
    assert forall|x: int, dd: nat| reaches(a0, x, dd) implies dd == 0 by {
        if dd > 0 {
            let p = choose|p: int|
                reaches(a0, p, (dd - 1) as nat) && #[trigger] parent_edge(a0, p, x);
            assert(false);
        }
    }
    assert(q0[0] == 0usize);
    lemma_layers_depth(a0, q0, 0, chars, a);
}

/// Whether plant `p` carries a recognized value for every trait of the
/// order.
pub open spec fn plant_covers(p: PlantView, chars: Seq<CharacteristicView>) -> bool {
    forall|t: int|
        0 <= t < chars.len() ==> plant_decides(p, chars[t], true) || plant_decides(
            p,
            chars[t],
            false,
        )
}

/// Whether the node at slot `e` holds only fully covered plants and
/// asks, if anything, one of the order's traits.
spec fn node_covered_at(a: Seq<NodeView>, e: int, chars: Seq<CharacteristicView>) -> bool {
    match a[e] {
        NodeView::Option(o) => {
            &&& (o.characteristic is None || exists|t: int|
                0 <= t < chars.len() && o.characteristic == Some(chars[t]))
            &&& (forall|x: PlantView| o.possibilities.contains(x) ==> plant_covers(x, chars))
        },
        NodeView::Plant(_) => true,
    }
}

/// Whether every option node of the arena satisfies [`node_covered_at`].
spec fn arena_covered(a: Seq<NodeView>, chars: Seq<CharacteristicView>) -> bool {
    forall|e: int| 0 <= e < a.len() ==> node_covered_at(a, e, chars)
}

/// When no plant of a set lacks the trait, the absent group is empty.
proof fn lemma_absent_none(ps: Seq<PlantView>, c: CharacteristicView)
    requires
        forall|i: int| 0 <= i < ps.len() ==> !plant_lacks(ps[i], c),
    ensures
        spec_absent_group(ps, c) == Seq::<PlantView>::empty(),
    decreases ps.len(),
{
    broadcast use Seq::lemma_filter_push;

    if ps.len() == 0 {
        reveal(Seq::filter);
        assert(spec_absent_group(ps, c) =~= Seq::<PlantView>::empty());
    } else {
        assert forall|i: int| 0 <= i < ps.drop_last().len() implies !plant_lacks(
            ps.drop_last()[i],
            c,
        ) by {
            assert(ps.drop_last()[i] == ps[i]);
        }
        lemma_absent_none(ps.drop_last(), c);
        assert(ps.drop_last().push(ps.last()) =~= ps);
        assert(spec_absent_group(ps.drop_last().push(ps.last()), c) == spec_absent_group(ps, c));
        assert(!plant_lacks(ps.last(), c));
    }
}

/// Every member of a partition group is a member of the set it was
/// filtered from.
proof fn lemma_group_subset(ps: Seq<PlantView>, c: CharacteristicView, b: bool, x: PlantView)
    requires
        if b {
            spec_true_group(ps, c).contains(x)
        } else {
            spec_false_group(ps, c).contains(x)
        },
    ensures
        ps.contains(x),
    decreases ps.len(),
{
    broadcast use Seq::lemma_filter_push;

    if ps.len() == 0 {
        reveal(Seq::filter);
        assert(false);
    } else {
        assert(ps.drop_last().push(ps.last()) =~= ps);
        let g = if b {
            spec_true_group(ps, c)
        } else {
            spec_false_group(ps, c)
        };
        let gd = if b {
            spec_true_group(ps.drop_last(), c)
        } else {
            spec_false_group(ps.drop_last(), c)
        };
        assert(spec_true_group(ps.drop_last().push(ps.last()), c) == spec_true_group(ps, c));
        assert(spec_false_group(ps.drop_last().push(ps.last()), c) == spec_false_group(ps, c));
        if x == ps.last() {
            assert(ps[ps.len() - 1] == x);
        } else {
            let j = choose|j: int| 0 <= j < g.len() && g[j] == x;
            assert(gd.contains(x)) by {
                if g != gd {
                    assert(g == gd.push(ps.last()));
                    assert(j < gd.len());
                    assert(gd[j] == x);
                } else {
                    assert(gd[j] == x);
                }
            }
            lemma_group_subset(ps.drop_last(), c, b, x);
            let i = choose|i: int| 0 <= i < ps.drop_last().len() && ps.drop_last()[i] == x;
            assert(ps[i] == x);
        }
    }
}

/// Processing one node of a covered arena cannot fail, and leaves the
/// arena covered.
proof fn lemma_node_covered_ok(
    a: Seq<NodeView>,
    id: usize,
    layer: int,
    chars: Seq<CharacteristicView>,
)
    requires
        arena_covered(a, chars),
        (id as int) < a.len(),
        0 <= layer,
    ensures
        match spec_process_node(a, id, layer, chars) {
            Ok(res) => arena_covered(res.0, chars) && a.len() <= res.0.len(),
            Err(_) => false,
        },
{
    assert(node_covered_at(a, id as int, chars));
    match a[id as int] {
        NodeView::Plant(_) => {
        },
        NodeView::Option(o) => {
            if o.characteristic is Some {
                let c = o.characteristic.unwrap();
                let t = choose|t: int| 0 <= t < chars.len() && o.characteristic == Some(chars[t]);
                let ps = o.possibilities;
                assert forall|i: int| 0 <= i < ps.len() implies !plant_lacks(ps[i], c)
                    && !plant_unrecognized(ps[i], c) by {
                    assert(ps.contains(ps[i]));
                    assert(plant_covers(ps[i], chars));
                    assert(plant_decides(ps[i], chars[t], true) || plant_decides(
                        ps[i],
                        chars[t],
                        false,
                    ));
                }
                assert(!has_unrecognized(ps, c)) by {
                    if has_unrecognized(ps, c) {
                        let i = choose|i: int|
                            0 <= i < ps.len() && plant_unrecognized(ps[i], c);
                        assert(false);
                    }
                }
                lemma_absent_none(ps, c);
                let next = if layer + 1 < chars.len() {
                    Some(chars[layer + 1])
                } else {
                    None
                };
                let step = spec_handle(o, next);
                assert(step.1 == Ok::<Option<(Seq<PlantView>, Seq<PlantView>)>, KeyError>(
                    Some((spec_true_group(ps, c), spec_false_group(ps, c))),
                ));
                match spec_process_node(a, id, layer, chars) {
                    Err(_) => {
                        assert(false);
                    },
                    Ok(res) => {
                        let a3 = res.0;
                        assert forall|e: int|
                            0 <= e < a3.len() implies node_covered_at(a3, e, chars) by {
                            if e < a.len() && e != id {
                                assert(a3[e] == a[e]);
                                assert(node_covered_at(a, e, chars));
                            } else if e == id {
                                assert(node_covered_at(a, id as int, chars));
                                match a3[e] {
                                    NodeView::Option(o1) => {
                                        assert(o1.characteristic == o.characteristic);
                                        assert(o1.possibilities == o.possibilities);
                                    },
                                    NodeView::Plant(_) => {
                                        assert(false);
                                    },
                                }
                            } else {
                                match a3[e] {
                                    NodeView::Option(o1) => {
                                        assert(o1.characteristic == next);
                                        if next is Some {
                                            assert(0 <= layer + 1 < chars.len()
                                                && o1.characteristic == Some(chars[layer + 1]));
                                        }
                                        assert(o1.possibilities == spec_true_group(ps, c)
                                            || o1.possibilities == spec_false_group(ps, c));
                                        assert forall|x: PlantView|
                                            o1.possibilities.contains(x) implies plant_covers(
                                            x,
                                            chars,
                                        ) by {
                                            if o1.possibilities == spec_true_group(ps, c) {
                                                lemma_group_subset(ps, c, true, x);
                                            } else {
                                                lemma_group_subset(ps, c, false, x);
                                            }
                                            assert(ps.contains(x));
                                        }
                                    },
                                    NodeView::Plant(_) => {},
                                }
                            }
                        }
                    },
                }
            }
        },
    }
}

/// Processing a layer's queue over a covered arena cannot fail.
proof fn lemma_queue_covered_ok(
    a: Seq<NodeView>,
    q: Seq<usize>,
    layer: int,
    chars: Seq<CharacteristicView>,
)
    requires
        arena_covered(a, chars),
        0 <= layer,
        forall|k: int| 0 <= k < q.len() ==> (q[k] as int) < a.len(),
    ensures
        match spec_process_queue(a, q, layer, chars) {
            Ok(res) => arena_covered(res.0, chars) && a.len() <= res.0.len() && forall|k: int|
                0 <= k < res.1.len() ==> (res.1[k] as int) < res.0.len(),
            Err(_) => false,
        },
    decreases q.len(),
{
    if q.len() > 0 {
        lemma_node_covered_ok(a, q[0], layer, chars);
        match spec_process_node(a, q[0], layer, chars) {
            Err(_) => {
                assert(false);
            },
            Ok(step) => {
                lemma_process_node_shape(a, q[0], layer, chars, step.0, step.1);
                assert forall|k: int|
                    0 <= k < q.drop_first().len() implies (q.drop_first()[k] as int)
                    < step.0.len() by {
                    assert(q.drop_first()[k] == q[k + 1]);
                }
                lemma_queue_covered_ok(step.0, q.drop_first(), layer, chars);
                match spec_process_queue(step.0, q.drop_first(), layer, chars) {
                    Err(_) => {
                        assert(false);
                    },
                    Ok(rest) => {
                        assert forall|k: int|
                            0 <= k < (step.1 + rest.1).len() implies ((step.1 + rest.1)[k] as int)
                            < rest.0.len() by {
                            if k < step.1.len() {
                                assert((step.1 + rest.1)[k] == step.1[k]);
                            } else {
                                assert((step.1 + rest.1)[k] == rest.1[k - step.1.len()]);
                            }
                        }
                    },
                }
            },
        }
    }
}

/// Processing the remaining layers of a covered arena cannot fail.
proof fn lemma_layers_covered_ok(
    a: Seq<NodeView>,
    q: Seq<usize>,
    layer: int,
    chars: Seq<CharacteristicView>,
)
    requires
        arena_covered(a, chars),
        0 <= layer,
        forall|k: int| 0 <= k < q.len() ==> (q[k] as int) < a.len(),
    ensures
        spec_process_layers(a, q, layer, chars) is Ok,
    decreases chars.len() - layer,
{
    if layer < 0 || layer >= chars.len() {
    } else {
        lemma_queue_covered_ok(a, q, layer, chars);
        match spec_process_queue(a, q, layer, chars) {
            Err(_) => {
                assert(false);
            },
            Ok(mid) => {
                lemma_layers_covered_ok(mid.0, mid.1, layer + 1, chars);
            },
        }
    }
}

/// Success is owed under full coverage: when every plant of the
/// collection carries a recognized value for every trait of the order,
/// construction never fails — the builder meets no unrecognized value,
/// no partial coverage, and nothing to defer on.
pub proof fn lemma_build_total(plants: Seq<PlantView>, chars: Seq<CharacteristicView>)
    requires
        forall|i: int| 0 <= i < plants.len() ==> plant_covers(plants[i], chars),
    ensures
        spec_build(plants, chars) is Ok,
{
    let a0 = seq![spec_root(plants, chars)];
    let q0 = seq![0usize];
    assert(a0[0] == spec_root(plants, chars));
    assert forall|e: int| 0 <= e < a0.len() implies node_covered_at(a0, e, chars) by {
        assert(a0[e] == spec_root(plants, chars));
        match a0[e] {
            NodeView::Option(o) => {
                if chars.len() > 0 {
                    assert(0 <= 0 < chars.len() && o.characteristic == Some(chars[0]));
                }
                assert forall|x: PlantView| o.possibilities.contains(x) implies plant_covers(
                    x,
                    chars,
                ) by {
                    let i = choose|i: int| 0 <= i < plants.len() && plants[i] == x;
                    assert(plant_covers(plants[i], chars));
                }
            },
            NodeView::Plant(_) => {},
        }
    }
    assert(q0[0] == 0usize);
    lemma_layers_covered_ok(a0, q0, 0, chars);
}

/// Whether plants `x` and `y` give opposite answers to trait `c`.
pub open spec fn sep_at(x: PlantView, y: PlantView, c: CharacteristicView) -> bool {
    exists|b: bool| plant_decides(x, c, b) && plant_decides(y, c, !b)
}

/// Whether some trait of the order at position `t0` or later tells the
/// two plants apart.
pub open spec fn sep_from(
    x: PlantView,
    y: PlantView,
    chars: Seq<CharacteristicView>,
    t0: int,
) -> bool {
    exists|t: int| t0 <= t < chars.len() && sep_at(x, y, #[trigger] chars[t])
}

/// Whether every two plants of the collection give opposite answers to
/// some trait of the order at position `t0` or later: the traits from
/// `t0` on still discriminate the collection completely.
pub open spec fn pairwise_sep(
    ps: Seq<PlantView>,
    chars: Seq<CharacteristicView>,
    t0: int,
) -> bool {
    forall|i: int, j: int| #![trigger ps[i], ps[j]]
        0 <= i < j < ps.len() ==> sep_from(ps[i], ps[j], chars, t0)
}

/// A set of fully covered plants splits without remainder: every plant
/// lands in the true group or the false group.
proof fn lemma_partition_count(ps: Seq<PlantView>, c: CharacteristicView)
    requires
        forall|i: int|
            0 <= i < ps.len() ==> plant_decides(ps[i], c, true) || plant_decides(ps[i], c, false),
    ensures
        spec_true_group(ps, c).len() + spec_false_group(ps, c).len() == ps.len(),
    decreases ps.len(),
{
    broadcast use Seq::lemma_filter_push;

    if ps.len() == 0 {
        reveal(Seq::filter);
    } else {
        assert forall|i: int|
            0 <= i < ps.drop_last().len() implies plant_decides(ps.drop_last()[i], c, true)
            || plant_decides(ps.drop_last()[i], c, false) by {
            assert(ps.drop_last()[i] == ps[i]);
        }
        lemma_partition_count(ps.drop_last(), c);
        assert(ps.drop_last().push(ps.last()) =~= ps);
        assert(spec_true_group(ps.drop_last().push(ps.last()), c) == spec_true_group(ps, c));
        assert(spec_false_group(ps.drop_last().push(ps.last()), c) == spec_false_group(ps, c));
        assert(plant_decides(ps.last(), c, true) || plant_decides(ps.last(), c, false));
        assert(!(plant_decides(ps.last(), c, true) && plant_decides(ps.last(), c, false)));
    }
}

/// A subsequence of a completely discriminated collection is itself
/// completely discriminated by the same traits.
proof fn lemma_sep_filter(
    ps: Seq<PlantView>,
    c: CharacteristicView,
    b: bool,
    chars: Seq<CharacteristicView>,
    t0: int,
)
    requires
        pairwise_sep(ps, chars, t0),
    ensures
        pairwise_sep(
            if b {
                spec_true_group(ps, c)
            } else {
                spec_false_group(ps, c)
            },
            chars,
            t0,
        ),
    decreases ps.len(),
{
    broadcast use Seq::lemma_filter_push;

    let g = if b {
        spec_true_group(ps, c)
    } else {
        spec_false_group(ps, c)
    };
    if ps.len() == 0 {
        reveal(Seq::filter);
        assert(g.len() == 0);
    } else {
        let dl = ps.drop_last();
        assert forall|i: int, j: int| #![trigger dl[i], dl[j]] 0 <= i < j < dl.len() implies sep_from(
            dl[i],
            dl[j],
            chars,
            t0,
        ) by {
            assert(dl[i] == ps[i]);
            assert(dl[j] == ps[j]);
        }
        lemma_sep_filter(dl, c, b, chars, t0);
        let gd = if b {
            spec_true_group(dl, c)
        } else {
            spec_false_group(dl, c)
        };
        assert(dl.push(ps.last()) =~= ps);
        assert(spec_true_group(dl.push(ps.last()), c) == spec_true_group(ps, c));
        assert(spec_false_group(dl.push(ps.last()), c) == spec_false_group(ps, c));
        if g == gd {
        } else {
            assert(g == gd.push(ps.last()));
            assert forall|i: int, j: int| #![trigger g[i], g[j]] 0 <= i < j < g.len() implies sep_from(
                g[i],
                g[j],
                chars,
                t0,
            ) by {
                if j < g.len() - 1 {
                    assert(g[i] == gd[i]);
                    assert(g[j] == gd[j]);
                    assert(sep_from(gd[i], gd[j], chars, t0));
                } else {
                    assert(g[j] == ps.last());
                    assert(g[i] == gd[i]);
                    lemma_group_subset(dl, c, b, gd[i]);
                    let ii = choose|ii: int| 0 <= ii < dl.len() && dl[ii] == gd[i];
                    assert(ps[ii] == gd[i]);
                    assert(ps[ps.len() - 1] == ps.last());
                    assert(sep_from(ps[ii], ps[ps.len() - 1], chars, t0));
                    let t = choose|t: int|
                        t0 <= t < chars.len() && sep_at(ps[ii], ps[ps.len() - 1], #[trigger] chars[t]);
                    assert(sep_at(g[i], g[j], chars[t]));
                }
            }
        }
    }
}

/// Two plants of one partition group agree on the trait just asked, so
/// the traits that still discriminate them start one position later.
proof fn lemma_sep_advance(
    g: Seq<PlantView>,
    c: CharacteristicView,
    b: bool,
    chars: Seq<CharacteristicView>,
    layer: int,
)
    requires
        pairwise_sep(g, chars, layer),
        forall|i: int| 0 <= i < g.len() ==> plant_decides(g[i], c, b),
        0 <= layer < chars.len(),
        c == chars[layer],
    ensures
        pairwise_sep(g, chars, layer + 1),
{
    assert forall|i: int, j: int| #![trigger g[i], g[j]] 0 <= i < j < g.len() implies sep_from(
        g[i],
        g[j],
        chars,
        layer + 1,
    ) by {
        assert(sep_from(g[i], g[j], chars, layer));
        let t = choose|t: int| layer <= t < chars.len() && sep_at(g[i], g[j], #[trigger] chars[t]);
        if t == layer {
            let bb = choose|bb: bool|
                plant_decides(g[i], chars[t], bb) && plant_decides(g[j], chars[t], !bb);
            assert(plant_decides(g[i], c, b));
            assert(plant_decides(g[j], c, b));
            assert(false);
        }
        assert(sep_at(g[i], g[j], chars[t]));
    }
}

/// Whether the node at slot `e` needs no further discrimination: a
/// leaf, or an option node with at most one plant, or one that already
/// records a child.
pub open spec fn node_settled_at(a: Seq<NodeView>, e: int) -> bool {
    match a[e] {
        NodeView::Option(o) => o.possibilities.len() >= 2 ==> (o.left_node is Some
            || o.right_node is Some),
        NodeView::Plant(_) => true,
    }
}

/// Whether the queue holds the identity `e`.
spec fn in_q(q: Seq<usize>, e: int) -> bool {
    exists|k: int| 0 <= k < q.len() && (#[trigger] q[k] as int) == e
}

/// A pending work-queue entry for trait layer `layer`: it points at an
/// option node asking that layer's trait, whose plants the traits from
/// `layer` on still discriminate completely.
spec fn entry_pending(
    a: Seq<NodeView>,
    id: usize,
    layer: int,
    chars: Seq<CharacteristicView>,
) -> bool {
    (id as int) < a.len() && match a[id as int] {
        NodeView::Option(o) => {
            &&& o.characteristic == (if layer < chars.len() {
                Some(chars[layer])
            } else {
                None::<CharacteristicView>
            })
            &&& pairwise_sep(o.possibilities, chars, layer)
        },
        NodeView::Plant(_) => false,
    }
}

/// Whether the node at `e` keeps its question and possibility set
/// between the two arenas; only its recorded children may differ.
spec fn core_same(a: Seq<NodeView>, a2: Seq<NodeView>, e: int) -> bool {
    match a[e] {
        NodeView::Option(o) => match a2[e] {
            NodeView::Option(o2) => o2.characteristic == o.characteristic && o2.possibilities
                == o.possibilities,
            NodeView::Plant(_) => false,
        },
        NodeView::Plant(_) => a2[e] == a[e],
    }
}

/// Draining one layer's queue of pending, fully discriminated nodes:
/// every node it leaves unsettled is either queued for the next layer
/// or was already unsettled and unqueued before; questions and
/// possibility sets are never rewritten, and settled nodes stay
/// settled.
#[verifier::rlimit(100)]
proof fn lemma_queue_settle(
    a: Seq<NodeView>,
    q: Seq<usize>,
    layer: int,
    chars: Seq<CharacteristicView>,
    out_a: Seq<NodeView>,
    out_q: Seq<usize>,
)
    requires
        arena_covered(a, chars),
        0 <= layer < chars.len(),
        out_a.len() <= usize::MAX,
        forall|k: int| 0 <= k < q.len() ==> entry_pending(a, #[trigger] q[k], layer, chars),
        spec_process_queue(a, q, layer, chars) == Ok::<(Seq<NodeView>, Seq<usize>), KeyError>(
            (out_a, out_q),
        ),
    ensures
        forall|k: int|
            0 <= k < out_q.len() ==> entry_pending(out_a, #[trigger] out_q[k], layer + 1, chars),
        forall|e: int|
            0 <= e < out_a.len() && !node_settled_at(out_a, e) ==> in_q(out_q, e) || (e < a.len()
                && !node_settled_at(a, e) && !in_q(q, e)),
        forall|e: int| 0 <= e < a.len() ==> core_same(a, out_a, e),
        forall|e: int|
            0 <= e < a.len() && node_settled_at(a, e) ==> node_settled_at(out_a, e),
    decreases q.len(),
{
    broadcast use Seq::lemma_filter_pred;

    if q.len() == 0 {
        assert(out_a == a);
        assert(out_q == Seq::<usize>::empty());
    } else {
        let id = q[0];
        assert(entry_pending(a, id, layer, chars));
        let o = a[id as int]->Option_0;
        let c = o.characteristic.unwrap();
        let ps = o.possibilities;
        assert(c == chars[layer]);
        assert(node_covered_at(a, id as int, chars));
        assert forall|i: int| 0 <= i < ps.len() implies plant_decides(ps[i], c, true)
            || plant_decides(ps[i], c, false) by {
            assert(ps.contains(ps[i]));
            assert(plant_covers(ps[i], chars));
        }
        assert forall|i: int| 0 <= i < ps.len() implies !plant_lacks(ps[i], c)
            && !plant_unrecognized(ps[i], c) by {
            assert(plant_decides(ps[i], c, true) || plant_decides(ps[i], c, false));
        }
        assert(!has_unrecognized(ps, c)) by {
            if has_unrecognized(ps, c) {
                let i = choose|i: int| 0 <= i < ps.len() && plant_unrecognized(ps[i], c);
                assert(false);
            }
        }
        lemma_absent_none(ps, c);
        let next = if layer + 1 < chars.len() {
            Some(chars[layer + 1])
        } else {
            None
        };
        let step = spec_handle(o, next);
        assert(step.1 == Ok::<Option<(Seq<PlantView>, Seq<PlantView>)>, KeyError>(
            Some((spec_true_group(ps, c), spec_false_group(ps, c))),
        ));
        let tg = spec_true_group(ps, c);
        let fg = spec_false_group(ps, c);
        match spec_process_node(a, id, layer, chars) {
            Err(_) => {
                assert(false);
            },
            Ok(stepr) => {
                let a1 = stepr.0;
                let q1 = stepr.1;
                match spec_process_queue(a1, q.drop_first(), layer, chars) {
                    Err(_) => {
                        assert(false);
                    },
                    Ok(rest) => {
                        assert(out_a == rest.0);
                        assert(out_q == q1 + rest.1);
                        lemma_process_node_shape(a, id, layer, chars, a1, q1);
                        assert forall|k: int|
                            0 <= k < q.drop_first().len() implies (q.drop_first()[k] as int)
                            < a1.len() by {
                            assert(q.drop_first()[k] == q[k + 1]);
                            assert(entry_pending(a, q[k + 1], layer, chars));
                        }
                        lemma_process_queue_shape(
                            a1,
                            q.drop_first(),
                            layer,
                            chars,
                            rest.0,
                            rest.1,
                        );
                        // exact child positions: the arena stays within
                        // the machine limit, so no identity wraps
                        let lid = a.len() as usize;
                        let rid = (a.len() + if tg.len() > 0 {
                            1int
                        } else {
                            0int
                        }) as usize;
                        lemma_partition_count(ps, c);
                        // the processed node is settled and keeps its core
                        assert(core_same(a, a1, id as int));
                        assert(node_settled_at(a1, id as int));
                        assert forall|e: int| 0 <= e < a.len() implies core_same(a, a1, e) by {
                            if e != id {
                                assert(a1[e] == a[e]);
                            }
                        }
                        assert forall|e: int|
                            0 <= e < a.len() && node_settled_at(a, e) implies node_settled_at(
                            a1,
                            e,
                        ) by {
                            if e != id {
                                assert(a1[e] == a[e]);
                            }
                        }
                        // the groups stay completely discriminated, one
                        // trait later
                        assert(pairwise_sep(ps, chars, layer));
                        lemma_sep_filter(ps, c, true, chars, layer);
                        lemma_sep_filter(ps, c, false, chars, layer);
                        broadcast use Seq::lemma_filter_pred;

                        assert forall|i: int| 0 <= i < tg.len() implies plant_decides(
                            tg[i],
                            c,
                            true,
                        ) by {
                            assert(tg[i] == ps.filter(
                                |p: PlantView| plant_decides(p, c, true),
                            )[i]);
                        }
                        assert forall|i: int| 0 <= i < fg.len() implies plant_decides(
                            fg[i],
                            c,
                            false,
                        ) by {
                            assert(fg[i] == ps.filter(
                                |p: PlantView| plant_decides(p, c, false),
                            )[i]);
                        }
                        lemma_sep_advance(tg, c, true, chars, layer);
                        lemma_sep_advance(fg, c, false, chars, layer);
                        assert(a.len() <= a1.len() <= out_a.len());
                        // queued children are pending one layer later
                        assert forall|k: int| 0 <= k < q1.len() implies entry_pending(
                            a1,
                            q1[k],
                            layer + 1,
                            chars,
                        ) by {
                            if tg.len() > 1 && k == 0 {
                                assert(q1[k] == lid);
                                assert(a1[lid as int] == spec_child_node(tg, lid, next));
                            } else {
                                assert(q1[k] == rid);
                                assert(fg.len() > 1);
                                assert(a1[rid as int] == spec_child_node(fg, rid, next));
                            }
                        }
                        // entries still waiting stay pending
                        assert forall|k: int|
                            0 <= k < q.drop_first().len() implies entry_pending(
                            a1,
                            q.drop_first()[k],
                            layer,
                            chars,
                        ) by {
                            assert(q.drop_first()[k] == q[k + 1]);
                            assert(entry_pending(a, q[k + 1], layer, chars));
                            assert(core_same(a, a1, q[k + 1] as int));
                        }
                        lemma_node_covered_ok(a, id, layer, chars);
                        lemma_queue_settle(a1, q.drop_first(), layer, chars, rest.0, rest.1);

                        // compose: cores and settledness carry through
                        assert forall|e: int| 0 <= e < a.len() implies core_same(a, out_a, e) by {
                            assert(core_same(a, a1, e));
                            assert(core_same(a1, out_a, e));
                        }
                        assert forall|e: int|
                            0 <= e < a.len() && node_settled_at(a, e) implies node_settled_at(
                            out_a,
                            e,
                        ) by {
                            assert(node_settled_at(a1, e));
                        }
                        assert forall|k: int| 0 <= k < out_q.len() implies entry_pending(
                            out_a,
                            #[trigger] out_q[k],
                            layer + 1,
                            chars,
                        ) by {
                            if k < q1.len() {
                                assert(out_q[k] == q1[k]);
                                assert(entry_pending(a1, q1[k], layer + 1, chars));
                                assert(core_same(a1, out_a, q1[k] as int));
                            } else {
                                assert(out_q[k] == rest.1[k - q1.len()]);
                                assert(entry_pending(out_a, rest.1[k - q1.len()], layer + 1, chars));
                            }
                        }
                        // every unsettled survivor is accounted for
                        assert forall|e: int|
                            0 <= e < out_a.len() && !node_settled_at(out_a, e) implies in_q(
                            out_q,
                            e,
                        ) || (e < a.len() && !node_settled_at(a, e) && !in_q(q, e)) by {
                            assert(in_q(rest.1, e) || (e < a1.len() && !node_settled_at(a1, e)
                                && !in_q(q.drop_first(), e)));
                            if in_q(rest.1, e) {
                                let k = choose|k: int|
                                    0 <= k < rest.1.len() && (#[trigger] rest.1[k] as int) == e;
                                assert(out_q[q1.len() + k] == rest.1[k]);
                                assert(in_q(out_q, e));
                            } else {
                                // unsettled already after the head step
                                assert(!node_settled_at(a1, e));
                                assert(!in_q(q.drop_first(), e));
                                if e == id {
                                    assert(node_settled_at(a1, id as int));
                                    assert(false);
                                } else if e >= a.len() {
                                    // a fresh child: multi-plant children
                                    // are exactly the queued ones
                                    assert(e == lid || e == rid);
                                    if e == lid && tg.len() > 0 {
                                        assert(a1[e] == spec_child_node(tg, lid, next));
                                        assert(tg.len() > 1);
                                        assert(q1[0] == lid);
                                        assert(in_q(q1, e));
                                    } else {
                                        assert(e == rid && fg.len() > 0);
                                        assert(a1[e] == spec_child_node(fg, rid, next));
                                        assert(fg.len() > 1);
                                        assert(q1[q1.len() - 1] == rid);
                                        assert(in_q(q1, e));
                                    }
                                    let k = choose|k: int|
                                        0 <= k < q1.len() && (#[trigger] q1[k] as int) == e;
                                    assert(out_q[k] == q1[k]);
                                    assert(in_q(out_q, e));
                                } else {
                                    assert(a1[e] == a[e]);
                                    assert(!node_settled_at(a, e));
                                    if in_q(q, e) {
                                        let k = choose|k: int|
                                            0 <= k < q.len() && (#[trigger] q[k] as int) == e;
                                        if k == 0 {
                                            assert(false);
                                        } else {
                                            assert(q.drop_first()[k - 1] == q[k]);
                                            assert(in_q(q.drop_first(), e));
                                            assert(false);
                                        }
                                    }
                                }
                            }
                        }
                    },
                }
            },
        }
    }
}

/// Processing every remaining layer settles the whole arena: a node
/// still waiting for discrimination is always queued, and the trait
/// order runs out only after every possibility set is down to one
/// plant or has children recorded.
proof fn lemma_layers_settle(
    a: Seq<NodeView>,
    q: Seq<usize>,
    layer: int,
    chars: Seq<CharacteristicView>,
    out_a: Seq<NodeView>,
)
    requires
        arena_covered(a, chars),
        0 <= layer <= chars.len(),
        out_a.len() <= usize::MAX,
        forall|k: int| 0 <= k < q.len() ==> entry_pending(a, #[trigger] q[k], layer, chars),
        forall|e: int| 0 <= e < a.len() && !node_settled_at(a, e) ==> in_q(q, e),
        spec_process_layers(a, q, layer, chars) == Ok::<Seq<NodeView>, KeyError>(out_a),
    ensures
        forall|e: int| 0 <= e < out_a.len() ==> node_settled_at(out_a, e),
    decreases chars.len() - layer,
{
    if layer >= chars.len() {
        assert(out_a == a);
        assert forall|e: int| 0 <= e < a.len() implies node_settled_at(a, e) by {
            if !node_settled_at(a, e) {
                assert(in_q(q, e));
                let k = choose|k: int| 0 <= k < q.len() && (#[trigger] q[k] as int) == e;
                assert(entry_pending(a, q[k], layer, chars));
                match a[e] {
                    NodeView::Option(o) => {
                        assert(o.possibilities.len() >= 2);
                        assert(sep_from(o.possibilities[0], o.possibilities[1], chars, layer));
                        let t = choose|t: int|
                            layer <= t < chars.len() && sep_at(
                                o.possibilities[0],
                                o.possibilities[1],
                                #[trigger] chars[t],
                            );
                        assert(false);
                    },
                    NodeView::Plant(_) => {
                        assert(false);
                    },
                }
            }
        }
    } else {
        assert forall|k: int| 0 <= k < q.len() implies (#[trigger] q[k] as int) < a.len() by {
            assert(entry_pending(a, q[k], layer, chars));
        }
        lemma_queue_covered_ok(a, q, layer, chars);
        match spec_process_queue(a, q, layer, chars) {
            Err(_) => {
                assert(false);
            },
            Ok(mid) => {
                lemma_layers_len(mid.0, mid.1, layer + 1, chars, out_a);
                lemma_queue_settle(a, q, layer, chars, mid.0, mid.1);
                assert forall|e: int|
                    0 <= e < mid.0.len() && !node_settled_at(mid.0, e) implies in_q(
                    mid.1,
                    e,
                ) by {
                    if !in_q(mid.1, e) {
                        assert(e < a.len() && !node_settled_at(a, e) && !in_q(q, e));
                        assert(in_q(q, e));
                    }
                }
                lemma_layers_settle(mid.0, mid.1, layer + 1, chars, out_a);
            },
        }
    }
}

/// Full discrimination leaves no unresolved group: when every plant
/// carries a recognized value for every trait of the order and any two
/// plants give opposite answers to some trait of it, every option node
/// of the built key that still holds two or more plants records at
/// least one child.  The length premise is a machine limit every arena
/// held in a vector meets.
pub proof fn lemma_full_discrimination(
    plants: Seq<PlantView>,
    chars: Seq<CharacteristicView>,
    a: Seq<NodeView>,
)
    requires
        spec_build(plants, chars) == Ok::<Seq<NodeView>, KeyError>(a),
        a.len() <= usize::MAX,
        forall|i: int| 0 <= i < plants.len() ==> plant_covers(#[trigger] plants[i], chars),
        pairwise_sep(plants, chars, 0),
    ensures
        forall|e: int| 0 <= e < a.len() ==> node_settled_at(a, e),
{
    let a0 = seq![spec_root(plants, chars)];
    let q0 = seq![0usize];
    assert(a0[0] == spec_root(plants, chars));
    assert forall|e: int| 0 <= e < a0.len() implies node_covered_at(a0, e, chars) by {
        assert(a0[e] == spec_root(plants, chars));
        match a0[e] {
            NodeView::Option(o) => {
                if chars.len() > 0 {
                    assert(0 <= 0 < chars.len() && o.characteristic == Some(chars[0]));
                }
                assert forall|x: PlantView| o.possibilities.contains(x) implies plant_covers(
                    x,
                    chars,
                ) by {
                    let i = choose|i: int| 0 <= i < plants.len() && plants[i] == x;
                    assert(plant_covers(plants[i], chars));
                }
            },
            NodeView::Plant(_) => {},
        }
    }
    assert(q0[0] == 0usize);
    assert(entry_pending(a0, 0usize, 0, chars));
    assert forall|e: int| 0 <= e < a0.len() && !node_settled_at(a0, e) implies in_q(q0, e) by {
        assert((q0[0] as int) == e);
    }
    lemma_layers_settle(a0, q0, 0, chars, a);
}

impl Clone for OptionNode {
    fn clone(&self) -> (r: Self)
        ensures
            r@ == self@,
    {
        OptionNode {
            index: self.index,
            left_node: self.left_node,
            right_node: self.right_node,
            possibilities: clone_plants(self.possibilities.as_slice()),
            characteristic: match &self.characteristic {
                Some(c) => Some(c.clone()),
                None => None,
            },
        }
    }
}

} // verus!
