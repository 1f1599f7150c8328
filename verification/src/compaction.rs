//! What compaction leaves of a model: one copy of each node that an output
//! depends on, wired as the node was, and nothing else but the inputs that
//! no output depends on.

use vstd::prelude::*;
use crate::declutter::compacts;
use crate::fact::TypedFact;
use crate::model::{outlet_exists, BaseNode, ModelImpl};
use crate::order::occurs_before;
use crate::outlet::OutletId;
use crate::translator::{
    converted, is_walk, lemma_record_only, mapped_through, node_outlets, reads_mapped, record_spec,
    spare_input, spare_inputs_ready, walk_link, walk_node, walk_pair, walk_skips, IntoTranslator,
    Translate,
};

verus! {

/// Whether the node at place `q` of `nodes` is a copy of the node `order[q]`
/// of the model: it has its name and its operator, and reads, input by
/// input, the copy of what that node reads.
pub open spec fn copy_of<O: Clone>(
    model: &ModelImpl<TypedFact, O>,
    order: Seq<usize>,
    nodes: Seq<BaseNode<TypedFact, O>>,
    q: int,
) -> bool {
    let src = model.nodes@[order[q] as int];
    let copy = nodes[q];
    &&& copy.name@ == src.name@
    &&& converted(src.op, copy.op)
    &&& copy.inputs@.len() == src.inputs@.len()
    &&& forall|k: int|
        0 <= k < src.inputs@.len() ==> {
            let w = #[trigger] copy.inputs@[k];
            w.node < q && order[w.node as int] == src.inputs@[k].node && w.slot
                == src.inputs@[k].slot
        }
}

/// Whether the mapping sends the outlet `key`, where it is an outlet of the
/// node `order[q]`, to the same slot of the node at place `q`.
pub open spec fn maps_copy<O>(
    model: &ModelImpl<TypedFact, O>,
    order: Seq<usize>,
    mapping: Map<OutletId, OutletId>,
    q: int,
    key: OutletId,
) -> bool {
    order[q] == key.node && key.slot < model.nodes@[key.node as int].outputs@.len()
        ==> mapping.contains_key(key) && mapping[key] == (OutletId {
        node: q as usize,
        slot: key.slot,
    })
}

/// Whether the mapping sends the input `k` of the model to the node at
/// place `j`.
pub open spec fn spare_copy<O>(
    model: &ModelImpl<TypedFact, O>,
    mapping: Map<OutletId, OutletId>,
    j: int,
    k: int,
) -> bool {
    mapping.contains_key(model.inputs@[k]) && mapping[model.inputs@[k]].node == j
}

/// Whether the mapping sends one of the first `upto` inputs of the model to
/// the node at place `j`.
pub open spec fn is_spare<O>(
    model: &ModelImpl<TypedFact, O>,
    mapping: Map<OutletId, OutletId>,
    j: int,
    upto: int,
) -> bool {
    exists|k: int| 0 <= k < upto && #[trigger] spare_copy(model, mapping, j, k)
}

/// Whether every input of the model before the place `upto` belongs to a
/// node that an output depends on.
pub open spec fn inputs_needed<O>(model: &ModelImpl<TypedFact, O>, upto: int) -> bool {
    forall|k: int|
        0 <= k < upto && k < model.inputs@.len() ==> model.needs(
            (#[trigger] model.inputs@[k]).node as int,
        )
}

/// Whether the outlet is one that the walk has mapped after the first
/// `done` nodes of `order` and the first `upto` inputs of the model: it
/// belongs to one of those nodes, or is one of those inputs.
pub open spec fn key_known<O>(
    model: &ModelImpl<TypedFact, O>,
    order: Seq<usize>,
    done: int,
    upto: int,
    key: OutletId,
) -> bool {
    occurs_before(order, done, key.node) || exists|j: int|
        0 <= j < upto && j < model.inputs@.len() && (#[trigger] model.inputs@[j]) == key
}

/// What holds after `i` steps of the walk that compacts a model: the nodes
/// of `order` met so far have their copies, in that order; the mapping sends
/// the outlets of each to its copy; and every node behind them stands for
/// an input of the model.
pub open spec fn copied<O: Clone>(
    model: &ModelImpl<TypedFact, O>,
    order: Seq<usize>,
    trace: Seq<
        (ModelImpl<TypedFact, O>, Vec<OutletId>, ModelImpl<TypedFact, O>, Map<OutletId, OutletId>),
    >,
    i: int,
) -> bool {
    let nodes = trace[i].2.nodes@;
    let mapping = trace[i].3;
    let done = if i < order.len() {
        i
    } else {
        order.len() as int
    };
    &&& done <= nodes.len() <= i
    &&& forall|q: int| 0 <= q < done ==> #[trigger] copy_of(model, order, nodes, q)
    &&& forall|q: int, key: OutletId|
        0 <= q < done ==> #[trigger] maps_copy(model, order, mapping, q, key)
    &&& forall|j: int|
        done <= j < nodes.len() ==> #[trigger] is_spare(model, mapping, j, i - order.len())
    &&& inputs_needed(model, i - order.len()) ==> nodes.len() == done
    &&& forall|key: OutletId| #[trigger]
        mapping.contains_key(key) ==> key_known(model, order, done, i - order.len(), key)
}

/// Recording the outlets of a new node maps each output slot of the source
/// node to the same slot of the new node, and leaves the other nodes'
/// outlets as they were.
pub proof fn lemma_record_copy(
    mapping: Map<OutletId, OutletId>,
    node: usize,
    id: usize,
    count: nat,
    k: nat,
)
    requires
        k <= count,
    ensures
        forall|key: OutletId|
            key.node == node && key.slot < k ==> (#[trigger] record_spec(
                mapping,
                node,
                node_outlets(id, count),
                k,
            ).contains_key(key)) && record_spec(mapping, node, node_outlets(id, count), k)[key] == (
            OutletId { node: id, slot: key.slot }),
        forall|key: OutletId|
            key.node != node ==> (#[trigger] record_spec(
                mapping,
                node,
                node_outlets(id, count),
                k,
            ).contains_key(key)) == mapping.contains_key(key),
        forall|key: OutletId|
            key.node != node && mapping.contains_key(key) ==> #[trigger] record_spec(
                mapping,
                node,
                node_outlets(id, count),
                k,
            )[key] == mapping[key],
    decreases k,
{
    if k > 0 {
        lemma_record_copy(mapping, node, id, count, (k - 1) as nat);
        let before = record_spec(mapping, node, node_outlets(id, count), (k - 1) as nat);
        let last = OutletId { node, slot: (k - 1) as usize };
        let now = record_spec(mapping, node, node_outlets(id, count), k);
        assert(now == before.insert(last, node_outlets(id, count)[k - 1]));
        assert forall|key: OutletId| key.node == node && key.slot < k implies (
        #[trigger] now.contains_key(key)) && now[key] == (OutletId { node: id, slot: key.slot }) by {
            if key.slot == k - 1 {
                assert(key == last);
            } else {
                assert(before.contains_key(key));
            }
        }
        assert forall|key: OutletId| key.node != node implies (#[trigger] now.contains_key(key))
            == mapping.contains_key(key) by {
            assert(key != last);
            assert(before.contains_key(key) == mapping.contains_key(key));
        }
        assert forall|key: OutletId| key.node != node && mapping.contains_key(
            key,
        ) implies #[trigger] now[key] == mapping[key] by {
            assert(key != last);
            assert(before.contains_key(key) == mapping.contains_key(key));
            assert(before[key] == mapping[key]);
        }
    } else {
        assert(record_spec(mapping, node, node_outlets(id, count), 0) == mapping);
    }
}

/// One step of the walk over a node of the order keeps what holds of the
/// walk so far, and adds the copy of that node.
proof fn lemma_copied_node<O: Clone>(
    model: &ModelImpl<TypedFact, O>,
    order: Seq<usize>,
    trace: Seq<
        (ModelImpl<TypedFact, O>, Vec<OutletId>, ModelImpl<TypedFact, O>, Map<OutletId, OutletId>),
    >,
    i: int,
)
    requires
        model.wf(),
        model.is_topological(order),
        0 <= i < order.len(),
        i + 1 < trace.len(),
        order[i] < model.nodes@.len(),
        copied(model, order, trace, i),
        walk_link(model, order, trace, i),
        Translate::<TypedFact, O, TypedFact, O>::translates(
            &IntoTranslator,
            model,
            &model.nodes@[order[i] as int],
            &trace[i].2,
            trace[i].3,
            &trace[i + 1].0,
            Ok(trace[i + 1].1),
        ),
    ensures
        copied(model, order, trace, i + 1),
{
    let prev = trace[i];
    let next = trace[i + 1];
    let src = model.nodes@[order[i] as int];
    let nodes = next.2.nodes@;
    let mapping = next.3;
    let added = next.0.nodes@.last();
    assert(prev.2.nodes@.len() == i);
    assert(next.0.nodes.len() == next.0.nodes@.len());
    assert(nodes.len() == i + 1);
    assert(nodes[i] == added);
    lemma_record_copy(prev.3, order[i], i as usize, src.outputs@.len(), src.outputs@.len());
    assert(next.1@ == node_outlets(i as usize, src.outputs@.len()));
    assert forall|q: int| 0 <= q < i + 1 implies #[trigger] copy_of(model, order, nodes, q) by {
        if q < i {
            assert(copy_of(model, order, prev.2.nodes@, q));
            assert(next.0.nodes@.drop_last()[q] == nodes[q]);
        } else {
            assert forall|k: int| 0 <= k < src.inputs@.len() implies {
                let w = #[trigger] added.inputs@[k];
                w.node < i && order[w.node as int] == src.inputs@[k].node && w.slot
                    == src.inputs@[k].slot
            } by {
                let read = src.inputs@[k];
                assert(outlet_exists(model.nodes@, model.nodes@[order[i] as int].inputs@[k]));
                assert(occurs_before(order, i, model.nodes@[order[i] as int].inputs@[k].node));
                let p = choose|p: int| 0 <= p < i && p < order.len() && #[trigger] order[p] == read.node;
                assert(maps_copy(model, order, prev.3, p, read));
                assert(added.inputs@[k] == prev.3[read]);
            }
        }
    }
    assert forall|q: int, key: OutletId| 0 <= q < i + 1 implies #[trigger] maps_copy(
        model,
        order,
        mapping,
        q,
        key,
    ) by {
        if q < i {
            assert(maps_copy(model, order, prev.3, q, key));
            assert(order[q] != order[i]);
        }
    }
    lemma_record_only(prev.3, order[i], next.1@, next.1@.len());
    assert forall|key: OutletId| #[trigger] mapping.contains_key(key) implies key_known(
        model,
        order,
        i + 1,
        i + 1 - order.len(),
        key,
    ) by {
        if prev.3.contains_key(key) {
            assert(key_known(model, order, i, i - order.len(), key));
            assert(occurs_before(order, i, key.node));
            let q = choose|q: int| 0 <= q < i && q < order.len() && #[trigger] order[q] == key.node;
            assert(occurs_before(order, i + 1, key.node));
        } else {
            assert(order[i] == key.node);
            assert(occurs_before(order, i + 1, key.node));
        }
    }
}

/// One step of the walk over an input of the model keeps what holds of the
/// walk so far; where the input is not mapped yet, it adds a node that the
/// input is mapped to.
proof fn lemma_copied_input<O: Clone>(
    model: &ModelImpl<TypedFact, O>,
    order: Seq<usize>,
    trace: Seq<
        (ModelImpl<TypedFact, O>, Vec<OutletId>, ModelImpl<TypedFact, O>, Map<OutletId, OutletId>),
    >,
    i: int,
)
    requires
        model.wf(),
        model.is_topological(order),
        order.len() <= i,
        i - order.len() < model.inputs@.len(),
        i + 1 < trace.len(),
        copied(model, order, trace, i),
        walk_link(model, order, trace, i),
        !walk_skips(model, order, trace, i) ==> Translate::<
            TypedFact,
            O,
            TypedFact,
            O,
        >::translates(
            &IntoTranslator,
            model,
            &model.nodes@[model.inputs@[i - order.len()].node as int],
            &trace[i].2,
            trace[i].3,
            &trace[i + 1].0,
            Ok(trace[i + 1].1),
        ),
    ensures
        copied(model, order, trace, i + 1),
{
    let prev = trace[i];
    let next = trace[i + 1];
    let at = i - order.len();
    let input = model.inputs@[at];
    let done = order.len() as int;
    if walk_skips(model, order, trace, i) {
        assert forall|j: int| done <= j < next.2.nodes@.len() implies #[trigger] is_spare(
            model,
            next.3,
            j,
            i + 1 - order.len(),
        ) by {
            assert(is_spare(model, prev.3, j, i - order.len()));
            let k = choose|k: int|
                0 <= k < i - order.len() && #[trigger] spare_copy(model, prev.3, j, k);
            assert(spare_copy(model, next.3, j, k));
        }
        assert forall|key: OutletId| #[trigger] next.3.contains_key(key) implies key_known(
            model,
            order,
            done,
            i + 1 - order.len(),
            key,
        ) by {
            assert(key_known(model, order, done, i - order.len(), key));
            if !occurs_before(order, done, key.node) {
                let j = choose|j: int|
                    0 <= j < i - order.len() && j < model.inputs@.len() && (
                    #[trigger] model.inputs@[j]) == key;
                assert(model.inputs@[j] == key);
            }
        }
    } else {
        let src = model.nodes@[input.node as int];
        let nodes = next.2.nodes@;
        let id = prev.2.nodes@.len();
        assert(next.0.nodes.len() == next.0.nodes@.len());
        assert(outlet_exists(model.nodes@, model.inputs@[at]));
        assert(next.1@ == node_outlets(id as usize, src.outputs@.len()));
        assert(next.1@[0] == (OutletId { node: id as usize, slot: 0 }));
        assert(next.3 == prev.3.insert(input, next.1@[0]));
        assert forall|q: int| 0 <= q < done implies #[trigger] copy_of(model, order, nodes, q) by {
            assert(copy_of(model, order, prev.2.nodes@, q));
            assert(next.0.nodes@.drop_last()[q] == nodes[q]);
        }
        assert forall|q: int, key: OutletId| 0 <= q < done implies #[trigger] maps_copy(
            model,
            order,
            next.3,
            q,
            key,
        ) by {
            assert(maps_copy(model, order, prev.3, q, key));
        }
        assert forall|j: int| done <= j < nodes.len() implies #[trigger] is_spare(
            model,
            next.3,
            j,
            i + 1 - order.len(),
        ) by {
            if j < id {
                assert(is_spare(model, prev.3, j, i - order.len()));
                let k = choose|k: int|
                    0 <= k < i - order.len() && #[trigger] spare_copy(model, prev.3, j, k);
                assert(model.inputs@[k] != input);
                assert(spare_copy(model, next.3, j, k));
            } else {
                assert(spare_copy(model, next.3, j, at));
            }
        }
        if model.needs(input.node as int) {
            assert(occurs_before(order, order.len() as int, input.node));
            let q = choose|q: int|
                0 <= q < order.len() as int && q < order.len() && #[trigger] order[q] == input.node;
            assert(maps_copy(model, order, prev.3, q, input));
        }
        assert forall|key: OutletId| #[trigger] next.3.contains_key(key) implies key_known(
            model,
            order,
            done,
            i + 1 - order.len(),
            key,
        ) by {
            if key == input {
                assert(model.inputs@[at] == key);
            } else {
                assert(prev.3.contains_key(key));
                assert(key_known(model, order, done, i - order.len(), key));
                if !occurs_before(order, done, key.node) {
                    let j = choose|j: int|
                        0 <= j < i - order.len() && j < model.inputs@.len() && (
                        #[trigger] model.inputs@[j]) == key;
                    assert(model.inputs@[j] == key);
                }
            }
        }
    }
}

/// After each step of the walk that compacts a model, the nodes met so far
/// have their copies.
pub proof fn lemma_copied<O: Clone>(
    model: &ModelImpl<TypedFact, O>,
    order: Seq<usize>,
    trace: Seq<
        (ModelImpl<TypedFact, O>, Vec<OutletId>, ModelImpl<TypedFact, O>, Map<OutletId, OutletId>),
    >,
    i: int,
)
    requires
        model.wf(),
        model.is_topological(order),
        is_walk(model, order, trace),
        forall|s: int|
            0 <= s < trace.len() - 1 && !walk_skips(model, order, trace, s) ==> {
                let step = #[trigger] walk_pair(trace, s);
                Translate::<TypedFact, O, TypedFact, O>::translates(
                    &IntoTranslator,
                    model,
                    &model.nodes@[walk_node(model, order, s) as int],
                    &step.0.2,
                    step.0.3,
                    &step.1.0,
                    Ok(step.1.1),
                )
            },
        0 <= i < trace.len(),
    ensures
        copied(model, order, trace, i),
    decreases i,
{
    if i > 0 {
        lemma_copied(model, order, trace, i - 1);
        assert(walk_link(model, order, trace, i - 1));
        let step = walk_pair(trace, i - 1);
        if i - 1 < order.len() {
            assert(model.needs(order[i - 1] as int));
            model.lemma_needs_in_range(order[i - 1] as int);
            assert(!walk_skips(model, order, trace, i - 1));
            lemma_copied_node(model, order, trace, i - 1);
        } else {
            lemma_copied_input(model, order, trace, i - 1);
        }
    }
}

/// A copy of a node that an output of the model depends on is a node that
/// an output of the compacted model depends on.
pub proof fn lemma_copy_needed<O: Clone>(
    model: &ModelImpl<TypedFact, O>,
    order: Seq<usize>,
    mapping: Map<OutletId, OutletId>,
    m: &ModelImpl<TypedFact, O>,
    q: int,
)
    requires
        model.wf(),
        model.is_topological(order),
        order.len() <= m.nodes@.len(),
        forall|p: int| 0 <= p < order.len() ==> #[trigger] copy_of(model, order, m.nodes@, p),
        forall|p: int, key: OutletId|
            0 <= p < order.len() ==> #[trigger] maps_copy(model, order, mapping, p, key),
        mapped_through(model.outputs@, m.outputs@, mapping),
        0 <= q < order.len(),
    ensures
        m.needs(q),
{
    assert(m.nodes.len() == m.nodes@.len());
    assert forall|s: Set<int>| (#[trigger] m.closed_upstream(s)) && m.holds_outputs(
        s,
    ) implies s.contains(q) by {
        let t = Set::new(|n: int| exists|p: int| 0 <= p < order.len() && order[p] == n && s.contains(p));
        assert(model.closed_upstream(t)) by {
            assert forall|b: int, k: int|
                0 <= b < model.nodes@.len() && t.contains(b) && 0 <= k
                    < model.nodes@[b].inputs@.len() implies t.contains(
                (#[trigger] model.nodes@[b].inputs@[k]).node as int,
            ) by {
                let p = choose|p: int| 0 <= p < order.len() && order[p] == b && s.contains(p);
                assert(copy_of(model, order, m.nodes@, p));
                let w = m.nodes@[p].inputs@[k];
                assert(s.contains(w.node as int));
                assert(order[w.node as int] == model.nodes@[b].inputs@[k].node);
            }
        }
        assert(model.holds_outputs(t)) by {
            assert forall|k: int| 0 <= k < model.outputs@.len() implies t.contains(
                (#[trigger] model.outputs@[k]).node as int,
            ) by {
                let out = model.outputs@[k];
                model.lemma_needs_output(k);
                assert(outlet_exists(model.nodes@, model.outputs@[k]));
                assert(occurs_before(order, order.len() as int, out.node));
                let p = choose|p: int|
                    0 <= p < order.len() as int && p < order.len() && #[trigger] order[p] == out.node;
                assert(maps_copy(model, order, mapping, p, out));
                assert(m.outputs@[k] == mapping[out]);
                assert(s.contains(m.outputs@[k].node as int));
            }
        }
        assert(model.needs(order[q] as int));
        assert(t.contains(order[q] as int));
        let p = choose|p: int| 0 <= p < order.len() && order[p] == order[q] && s.contains(p);
        assert(p == q);
    }
}

/// What compaction leaves.
///
/// The compacted model holds a copy of each node that an output of the
/// model depends on, in evaluation order, and behind them only nodes that
/// inputs of the model are mapped to. So each of its nodes is one that an
/// output depends on, or the node of one of its inputs; and where every
/// input of the model belongs to a node that an output depends on, it has as
/// many nodes as the model has such nodes, and an output depends on each.
pub proof fn lemma_compacts<O: Clone>(
    model: &ModelImpl<TypedFact, O>,
    m: &ModelImpl<TypedFact, O>,
    order: Seq<usize>,
)
    requires
        model.wf(),
        model.is_eval_order(order),
        compacts(model, m),
    ensures
        order.len() <= m.nodes@.len() <= order.len() + model.inputs@.len(),
        forall|q: int| 0 <= q < order.len() ==> #[trigger] copy_of(model, order, m.nodes@, q),
        forall|j: int|
            0 <= j < m.nodes@.len() ==> #[trigger] m.needs(j) || exists|k: int|
                0 <= k < m.inputs@.len() && (#[trigger] m.inputs@[k]).node == j,
        inputs_needed(model, model.inputs@.len() as int) ==> m.nodes@.len() == order.len(),
{
    let (other, trace) = choose|
        other: Seq<usize>,
        trace: Seq<
            (ModelImpl<TypedFact, O>, Vec<OutletId>, ModelImpl<TypedFact, O>, Map<OutletId, OutletId>),
        >,
    |
        {
            &&& model.is_eval_order(other)
            &&& #[trigger] is_walk(model, other, trace)
            &&& forall|i: int|
                0 <= i < trace.len() - 1 && !walk_skips(model, other, trace, i) ==> {
                    let step = #[trigger] walk_pair(trace, i);
                    Translate::<TypedFact, O, TypedFact, O>::translates(
                        &IntoTranslator,
                        model,
                        &model.nodes@[walk_node(model, other, i) as int],
                        &step.0.2,
                        step.0.3,
                        &step.1.0,
                        Ok(step.1.1),
                    )
                }
            &&& m.nodes == trace.last().2.nodes
            &&& m.outlet_labels == trace.last().2.outlet_labels
            &&& crate::translator::maps_into(trace.last().3, m.nodes@)
            &&& mapped_through(model.inputs@, m.inputs@, trace.last().3)
            &&& mapped_through(model.outputs@, m.outputs@, trace.last().3)
            &&& crate::translator::maps_needed(model, trace.last().3)
            &&& crate::translator::maps_from(trace.last().3, model)
        };
    model.lemma_eval_order_unique(order, other);
    let last = trace.len() - 1;
    lemma_copied(model, order, trace, last);
    let mapping = trace.last().3;
    assert forall|j: int| 0 <= j < m.nodes@.len() implies #[trigger] m.needs(j) || exists|k: int|
        0 <= k < m.inputs@.len() && (#[trigger] m.inputs@[k]).node == j by {
        if j < order.len() {
            lemma_copy_needed(model, order, mapping, m, j);
        } else {
            assert(is_spare(model, mapping, j, last - order.len()));
            let k = choose|k: int|
                0 <= k < last - order.len() && #[trigger] spare_copy(model, mapping, j, k);
            assert(m.inputs@[k] == mapping[model.inputs@[k]]);
            assert(m.inputs@[k].node == j);
        }
    }
}

/// A model that was compacted is one whose spare inputs read only what is
/// mapped by the time they are looked at.
pub proof fn lemma_compacts_ready<O: Clone>(
    model: &ModelImpl<TypedFact, O>,
    m: &ModelImpl<TypedFact, O>,
)
    requires
        model.wf(),
        compacts(model, m),
    ensures
        spare_inputs_ready(model),
{
    let (order, trace) = choose|
        order: Seq<usize>,
        trace: Seq<
            (ModelImpl<TypedFact, O>, Vec<OutletId>, ModelImpl<TypedFact, O>, Map<OutletId, OutletId>),
        >,
    |
        {
            &&& model.is_eval_order(order)
            &&& #[trigger] is_walk(model, order, trace)
            &&& forall|i: int|
                0 <= i < trace.len() - 1 && !walk_skips(model, order, trace, i) ==> {
                    let step = #[trigger] walk_pair(trace, i);
                    Translate::<TypedFact, O, TypedFact, O>::translates(
                        &IntoTranslator,
                        model,
                        &model.nodes@[walk_node(model, order, i) as int],
                        &step.0.2,
                        step.0.3,
                        &step.1.0,
                        Ok(step.1.1),
                    )
                }
            &&& m.nodes == trace.last().2.nodes
            &&& m.outlet_labels == trace.last().2.outlet_labels
            &&& crate::translator::maps_into(trace.last().3, m.nodes@)
            &&& mapped_through(model.inputs@, m.inputs@, trace.last().3)
            &&& mapped_through(model.outputs@, m.outputs@, trace.last().3)
            &&& crate::translator::maps_needed(model, trace.last().3)
            &&& crate::translator::maps_from(trace.last().3, model)
        };
    assert forall|k: int, i: int|
        0 <= k < model.inputs@.len() && spare_input(model, k) && 0 <= i
            < model.nodes@[model.inputs@[k].node as int].inputs@.len() implies #[trigger] reads_mapped(
        model,
        k,
        model.nodes@[model.inputs@[k].node as int].inputs@[i],
    ) by {
        let s = order.len() + k;
        let input = model.inputs@[k];
        let read = model.nodes@[input.node as int].inputs@[i];
        lemma_copied(model, order, trace, s);
        let mapping = trace[s].3;
        if mapping.contains_key(input) {
            assert(key_known(model, order, order.len() as int, k, input));
            if occurs_before(order, order.len() as int, input.node) {
                let q = choose|q: int|
                    0 <= q < order.len() as int && q < order.len() && #[trigger] order[q] == input.node;
                assert(model.needs(order[q] as int));
            } else {
                let j = choose|j: int|
                    0 <= j < k && j < model.inputs@.len() && (#[trigger] model.inputs@[j]) == input;
                assert(model.inputs@[j] != model.inputs@[k]);
            }
        }
        assert(!walk_skips(model, order, trace, s));
        let step = walk_pair(trace, s);
        assert(mapping.contains_key(read));
        assert(key_known(model, order, order.len() as int, k, read));
        if occurs_before(order, order.len() as int, read.node) {
            let q = choose|q: int|
                0 <= q < order.len() as int && q < order.len() && #[trigger] order[q] == read.node;
            assert(model.needs(order[q] as int));
        } else {
            let j = choose|j: int|
                0 <= j < k && j < model.inputs@.len() && (#[trigger] model.inputs@[j]) == read;
            assert(model.inputs@[j] == read);
        }
    }
}

/// Compaction leaves no node behind that nothing depends on: each node of
/// the compacted model is one that an output depends on, or the node of one
/// of its inputs.
pub proof fn lemma_compacted_needed<O: Clone>(
    model: &ModelImpl<TypedFact, O>,
    m: &ModelImpl<TypedFact, O>,
)
    requires
        model.wf(),
        compacts(model, m),
    ensures
        forall|j: int|
            0 <= j < m.nodes@.len() ==> #[trigger] m.needs(j) || exists|k: int|
                0 <= k < m.inputs@.len() && (#[trigger] m.inputs@[k]).node == j,
{
    let order = choose|order: Seq<usize>| model.is_eval_order(order);
    lemma_compacts(model, m, order);
}

} // verus!
