//! Moving a graph from one representation to another, node by node, without
//! changing what the caller sees: the inputs and outputs, in their order.
use vstd::prelude::*;
use vstd::std_specs::convert::FromSpec;
use crate::error::{ErrorKind, TractError, TractErrorView, TractResult};
use crate::model::{outlet_exists, BaseNode, ModelImpl};
use crate::order::occurs_before;
use crate::ops::clone_op;
use crate::outlet::{InletId, OutletId, OutletMap};
use crate::text::{append_decimal, push_char, text_of};
use vstd::string::StringExecFns;

verus! {

/// Whether `target` lists, place by place, what `mapping` makes of `source`.
pub open spec fn mapped_through(
    source: Seq<OutletId>,
    target: Seq<OutletId>,
    mapping: Map<OutletId, OutletId>,
) -> bool {
    &&& target.len() == source.len()
    &&& forall|k: int|
        0 <= k < source.len() ==> mapping.contains_key(#[trigger] source[k]) && target[k]
            == mapping[source[k]]
}

/// Whether every outlet that `mapping` maps to exists among `nodes`.
pub open spec fn maps_into<F, O>(mapping: Map<OutletId, OutletId>, nodes: Seq<BaseNode<F, O>>) -> bool {
    forall|key: OutletId| #[trigger]
        mapping.contains_key(key) ==> outlet_exists(nodes, mapping[key])
}

/// Whether every outlet among `before` is still among `after`.
pub open spec fn keeps_outlets<F, O>(before: Seq<BaseNode<F, O>>, after: Seq<BaseNode<F, O>>) -> bool {
    forall|o: OutletId| #[trigger] outlet_exists(before, o) ==> outlet_exists(after, o)
}

/// The mapping after the first `k` of `outlets` were recorded as the outputs
/// of the node `node`, slot by slot.
pub open spec fn record_spec(
    mapping: Map<OutletId, OutletId>,
    node: usize,
    outlets: Seq<OutletId>,
    k: nat,
) -> Map<OutletId, OutletId>
    decreases k,
{
    if k == 0 {
        mapping
    } else {
        record_spec(mapping, node, outlets, (k - 1) as nat).insert(
            OutletId { node, slot: (k - 1) as usize },
            outlets[k - 1],
        )
    }
}

/// The labels after the labels of the first `k` output slots of the source
/// node `node` were handed on to `outlets`, slot by slot.
pub open spec fn relabel_spec(
    labels: Map<OutletId, String>,
    source_labels: Map<OutletId, String>,
    node: usize,
    outlets: Seq<OutletId>,
    k: nat,
) -> Map<OutletId, String>
    decreases k,
{
    if k == 0 {
        labels
    } else {
        let before = relabel_spec(labels, source_labels, node, outlets, (k - 1) as nat);
        let key = OutletId { node, slot: (k - 1) as usize };
        if source_labels.contains_key(key) {
            before.insert(outlets[k - 1], source_labels[key])
        } else {
            before
        }
    }
}

/// Everything that `record_spec` maps to was mapped to before, or is one of
/// the outlets.
pub proof fn lemma_record_maps_into<F, O>(
    mapping: Map<OutletId, OutletId>,
    node: usize,
    outlets: Seq<OutletId>,
    k: nat,
    nodes: Seq<BaseNode<F, O>>,
)
    requires
        k <= outlets.len(),
        maps_into(mapping, nodes),
        forall|i: int| 0 <= i < outlets.len() ==> outlet_exists(nodes, #[trigger] outlets[i]),
    ensures
        maps_into(record_spec(mapping, node, outlets, k), nodes),
        forall|key: OutletId| #[trigger]
            mapping.contains_key(key) ==> record_spec(mapping, node, outlets, k).contains_key(key),
    decreases k,
{
    if k > 0 {
        lemma_record_maps_into(mapping, node, outlets, (k - 1) as nat, nodes);
        assert(outlet_exists(nodes, outlets[k - 1]));
    }
}

/// What `record_spec` maps: all that was mapped before, and the first `k`
/// output slots of the node.
pub proof fn lemma_record_keys(
    mapping: Map<OutletId, OutletId>,
    node: usize,
    outlets: Seq<OutletId>,
    k: nat,
)
    ensures
        forall|key: OutletId| #[trigger]
            mapping.contains_key(key) ==> record_spec(mapping, node, outlets, k).contains_key(key),
        forall|o: OutletId|
            o.node == node && o.slot < k ==> #[trigger] record_spec(
                mapping,
                node,
                outlets,
                k,
            ).contains_key(o),
    decreases k,
{
    if k > 0 {
        lemma_record_keys(mapping, node, outlets, (k - 1) as nat);
        let before = record_spec(mapping, node, outlets, (k - 1) as nat);
        let last = OutletId { node, slot: (k - 1) as usize };
        assert forall|o: OutletId| o.node == node && o.slot < k implies #[trigger] record_spec(
            mapping,
            node,
            outlets,
            k,
        ).contains_key(o) by {
            if o.slot == k - 1 {
                assert(o == last);
            } else {
                assert(before.contains_key(o));
            }
        }
    }
}

/// What `record_spec` maps was mapped before, or is one of the first `k`
/// output slots of the node.
pub proof fn lemma_record_only(
    mapping: Map<OutletId, OutletId>,
    node: usize,
    outlets: Seq<OutletId>,
    k: nat,
)
    ensures
        forall|key: OutletId| #[trigger]
            record_spec(mapping, node, outlets, k).contains_key(key) ==> mapping.contains_key(key)
                || (key.node == node && key.slot < k),
    decreases k,
{
    if k > 0 {
        lemma_record_only(mapping, node, outlets, (k - 1) as nat);
        let before = record_spec(mapping, node, outlets, (k - 1) as nat);
        let last = OutletId { node, slot: (k - 1) as usize };
        assert forall|key: OutletId| #[trigger]
            record_spec(mapping, node, outlets, k).contains_key(key) implies mapping.contains_key(
            key,
        ) || (key.node == node && key.slot < k) by {
            if key != last {
                assert(before.contains_key(key));
            }
        }
    }
}

/// The node that is translated at step `i` of the walk: the nodes in
/// evaluation order first, then the node of each input of the model.
pub open spec fn walk_node<F, O>(source: &ModelImpl<F, O>, order: Seq<usize>, i: int) -> usize {
    if i < order.len() {
        order[i]
    } else {
        source.inputs@[i - order.len()].node
    }
}

/// Whether step `i` of the walk translates nothing: it stands for an input
/// of the model that is mapped already.
pub open spec fn walk_skips<F, O, F2, O2>(
    source: &ModelImpl<F, O>,
    order: Seq<usize>,
    trace: Seq<(ModelImpl<F2, O2>, Vec<OutletId>, ModelImpl<F2, O2>, Map<OutletId, OutletId>)>,
    i: int,
) -> bool {
    i >= order.len() && trace[i].3.contains_key(source.inputs@[i - order.len()])
}

/// Whether the entry after step `i` of the walk follows from the entry
/// before it. An entry holds the model as the translation of the node left
/// it, the outlets that the translation returned, and the model and the
/// mapping once the outlets were recorded.
///
/// A node in evaluation order has each of the outlets recorded as what its
/// output at that place became, and hands the label of that output on. An
/// input of the model that is mapped already changes nothing; one that is
/// not is mapped to the first of the outlets.
pub open spec fn walk_link<F, O, F2, O2>(
    source: &ModelImpl<F, O>,
    order: Seq<usize>,
    trace: Seq<(ModelImpl<F2, O2>, Vec<OutletId>, ModelImpl<F2, O2>, Map<OutletId, OutletId>)>,
    i: int,
) -> bool {
    let prev = trace[i];
    let next = trace[i + 1];
    if i < order.len() {
        &&& next.3 == record_spec(prev.3, order[i], next.1@, next.1@.len())
        &&& next.2.nodes == next.0.nodes
        &&& next.2.inputs == next.0.inputs
        &&& next.2.outputs == next.0.outputs
        &&& next.2.outlet_labels@ == relabel_spec(
            next.0.outlet_labels@,
            source.outlet_labels@,
            order[i],
            next.1@,
            next.1@.len(),
        )
    } else if walk_skips(source, order, trace, i) {
        next.2 == prev.2 && next.3 == prev.3
    } else {
        &&& next.1@.len() > 0
        &&& next.2 == next.0
        &&& next.3 == prev.3.insert(source.inputs@[i - order.len()], next.1@[0])
    }
}

/// Whether `trace` lists the steps of a walk over `source`: it starts from
/// the model without nodes and the mapping without entries, and has one
/// step for each node of `order`, then one for each input of the model.
pub open spec fn is_walk<F, O, F2, O2>(
    source: &ModelImpl<F, O>,
    order: Seq<usize>,
    trace: Seq<(ModelImpl<F2, O2>, Vec<OutletId>, ModelImpl<F2, O2>, Map<OutletId, OutletId>)>,
) -> bool {
    &&& trace.len() == 1 + order.len() + source.inputs@.len()
    &&& trace[0].2.nodes@.len() == 0
    &&& trace[0].2.outlet_labels@ == Map::<OutletId, String>::empty()
    &&& trace[0].3 == Map::<OutletId, OutletId>::empty()
    &&& forall|i: int| 0 <= i < trace.len() - 1 ==> #[trigger] walk_link(source, order, trace, i)
}

/// Whether `trace` lists the first `steps` steps of a walk over `source`.
pub open spec fn is_walk_upto<F, O, F2, O2>(
    source: &ModelImpl<F, O>,
    order: Seq<usize>,
    trace: Seq<(ModelImpl<F2, O2>, Vec<OutletId>, ModelImpl<F2, O2>, Map<OutletId, OutletId>)>,
    steps: int,
) -> bool {
    &&& 0 <= steps <= order.len() + source.inputs@.len()
    &&& trace.len() == steps + 1
    &&& trace[0].2.nodes@.len() == 0
    &&& trace[0].2.outlet_labels@ == Map::<OutletId, String>::empty()
    &&& trace[0].3 == Map::<OutletId, OutletId>::empty()
    &&& forall|i: int| 0 <= i < steps ==> #[trigger] walk_link(source, order, trace, i)
}

/// Whether `trace` lists the steps of a walk up to one that is still to be
/// made, and is not skipped.
pub open spec fn walk_stops<F, O, F2, O2>(
    source: &ModelImpl<F, O>,
    order: Seq<usize>,
    trace: Seq<(ModelImpl<F2, O2>, Vec<OutletId>, ModelImpl<F2, O2>, Map<OutletId, OutletId>)>,
) -> bool {
    let at = trace.len() - 1;
    &&& is_walk_upto(source, order, trace, at)
    &&& at < order.len() + source.inputs@.len()
    &&& !walk_skips(source, order, trace, at)
}

/// Whether `e` is the error of a walk that stopped where the translation of
/// a node failed with `cause` and left the model `after`: the cause, in the
/// context that names the node.
pub open spec fn walk_fails<F, O, F2, O2>(
    source: &ModelImpl<F, O>,
    order: Seq<usize>,
    trace: Seq<(ModelImpl<F2, O2>, Vec<OutletId>, ModelImpl<F2, O2>, Map<OutletId, OutletId>)>,
    after: ModelImpl<F2, O2>,
    cause: TractError,
    e: TractErrorView,
) -> bool {
    let n = walk_node(source, order, trace.len() - 1);
    &&& walk_stops(source, order, trace)
    &&& after.wf()
    &&& e == cause@.chained(translating_text(n, source.nodes@[n as int].name@))
}

/// Whether the walk stopped at a spare input whose translation left the
/// model `after` and returned `outlets`, which are none.
pub open spec fn walk_gets_nothing<F, O, F2, O2>(
    source: &ModelImpl<F, O>,
    order: Seq<usize>,
    trace: Seq<(ModelImpl<F2, O2>, Vec<OutletId>, ModelImpl<F2, O2>, Map<OutletId, OutletId>)>,
    after: ModelImpl<F2, O2>,
    outlets: Vec<OutletId>,
) -> bool {
    &&& walk_stops(source, order, trace)
    &&& trace.len() - 1 >= order.len()
    &&& after.wf()
    &&& outlets@.len() == 0
}

/// Whether the walk came to its end and left an output of the model
/// unmapped.
pub open spec fn walk_misses<F, O, F2, O2>(
    source: &ModelImpl<F, O>,
    order: Seq<usize>,
    trace: Seq<(ModelImpl<F2, O2>, Vec<OutletId>, ModelImpl<F2, O2>, Map<OutletId, OutletId>)>,
) -> bool {
    &&& is_walk(source, order, trace)
    &&& exists|k: int|
        0 <= k < source.outputs@.len() && !trace.last().3.contains_key(
            #[trigger] source.outputs@[k],
        )
}

/// The error of a spare input whose translation returned no outlet.
pub open spec fn nothing_translated() -> TractErrorView {
    TractErrorView {
        kind: ErrorKind::InvariantViolation,
        context: seq!["an input was translated into nothing"@],
    }
}

/// The error of an outlet that is not mapped.
pub open spec fn not_translated() -> TractErrorView {
    TractErrorView {
        kind: ErrorKind::InvariantViolation,
        context: seq!["an outlet was not translated"@],
    }
}

/// The entries before and after step `i` of a walk.
pub open spec fn walk_pair<F2, O2>(
    trace: Seq<(ModelImpl<F2, O2>, Vec<OutletId>, ModelImpl<F2, O2>, Map<OutletId, OutletId>)>,
    i: int,
) -> (
    (ModelImpl<F2, O2>, Vec<OutletId>, ModelImpl<F2, O2>, Map<OutletId, OutletId>),
    (ModelImpl<F2, O2>, Vec<OutletId>, ModelImpl<F2, O2>, Map<OutletId, OutletId>),
) {
    (trace[i], trace[i + 1])
}

/// A walk that has one more step is a walk up to that step.
pub proof fn lemma_walk_push<F, O, F2, O2>(
    source: &ModelImpl<F, O>,
    order: Seq<usize>,
    trace: Seq<(ModelImpl<F2, O2>, Vec<OutletId>, ModelImpl<F2, O2>, Map<OutletId, OutletId>)>,
    entry: (ModelImpl<F2, O2>, Vec<OutletId>, ModelImpl<F2, O2>, Map<OutletId, OutletId>),
)
    requires
        trace.len() > 0,
        forall|i: int| 0 <= i < trace.len() - 1 ==> #[trigger] walk_link(source, order, trace, i),
        walk_link(source, order, trace.push(entry), trace.len() - 1),
    ensures
        forall|i: int|
            0 <= i < trace.len() ==> #[trigger] walk_link(source, order, trace.push(entry), i),
        forall|i: int|
            0 <= i < trace.len() - 1 ==> #[trigger] walk_pair(trace.push(entry), i) == walk_pair(
                trace,
                i,
            ) && walk_skips(source, order, trace.push(entry), i) == walk_skips(
                source,
                order,
                trace,
                i,
            ),
{
    let longer = trace.push(entry);
    assert forall|i: int| 0 <= i < trace.len() implies #[trigger] walk_link(
        source,
        order,
        longer,
        i,
    ) by {
        if i < trace.len() - 1 {
            assert(walk_link(source, order, trace, i));
            assert(longer[i] == trace[i]);
            assert(longer[i + 1] == trace[i + 1]);
        }
    }
    assert forall|i: int| 0 <= i < trace.len() - 1 implies #[trigger] walk_pair(longer, i)
        == walk_pair(trace, i) && walk_skips(source, order, longer, i) == walk_skips(
        source,
        order,
        trace,
        i,
    ) by {
        assert(longer[i] == trace[i]);
        assert(longer[i + 1] == trace[i + 1]);
    }
}

/// Whether every key of the mapping is an outlet of the model.
pub open spec fn maps_from<F, O>(mapping: Map<OutletId, OutletId>, source: &ModelImpl<F, O>) -> bool {
    forall|key: OutletId| #[trigger] mapping.contains_key(key) ==> outlet_exists(source.nodes@, key)
}

/// Whether the nodes that the outputs of the model depend on can be put in
/// an order in which each comes after what it reads.
pub open spec fn can_be_ordered<F, O>(source: &ModelImpl<F, O>) -> bool {
    exists|t: Seq<usize>| source.is_topological(t)
}

/// Whether the outlet `o` is mapped by the time the input `k` of the model
/// is looked at: it belongs to a node that an output depends on, or it is
/// an earlier input of the model.
pub open spec fn reads_mapped<F, O>(source: &ModelImpl<F, O>, k: int, o: OutletId) -> bool {
    source.needs(o.node as int) || exists|j: int| 0 <= j < k && (#[trigger] source.inputs@[j]) == o
}

/// Whether the input `k` of the model is a spare one: no output depends on
/// its node, and it is none of the inputs before it.
pub open spec fn spare_input<F, O>(source: &ModelImpl<F, O>, k: int) -> bool {
    &&& !source.needs(source.inputs@[k].node as int)
    &&& forall|j: int| 0 <= j < k ==> (#[trigger] source.inputs@[j]) != source.inputs@[k]
}

/// Whether the node of every spare input of the model reads only what is
/// mapped by the time the input is looked at. A node that reads nothing
/// does.
pub open spec fn spare_inputs_ready<F, O>(source: &ModelImpl<F, O>) -> bool {
    forall|k: int, i: int|
        0 <= k < source.inputs@.len() && spare_input(source, k) && 0 <= i
            < source.nodes@[source.inputs@[k].node as int].inputs@.len() ==> #[trigger] reads_mapped(
            source,
            k,
            source.nodes@[source.inputs@[k].node as int].inputs@[i],
        )
}

/// Whether every outlet of a node that an output of the model depends on is
/// mapped.
pub open spec fn maps_needed<F, O>(source: &ModelImpl<F, O>, mapping: Map<OutletId, OutletId>) -> bool {
    forall|o: OutletId|
        #[trigger] outlet_exists(source.nodes@, o) && source.needs(o.node as int)
            ==> mapping.contains_key(o)
}

/// Whether all that the node reads is mapped.
pub open spec fn inputs_mapped<F, O>(node: &BaseNode<F, O>, mapping: Map<OutletId, OutletId>) -> bool {
    forall|k: int| 0 <= k < node.inputs@.len() ==> mapping.contains_key(#[trigger] node.inputs@[k])
}

/// Records `outlets` as what the source node `node` became: the outlet of
/// slot `ix` is mapped to `outlets[ix]`, and hands its label on.
pub fn record_outlets<TI1, O1, TI2, O2>(
    source: &ModelImpl<TI1, O1>,
    node: usize,
    outlets: &Vec<OutletId>,
    target: &mut ModelImpl<TI2, O2>,
    mapping: &mut OutletMap<OutletId>,
)
    ensures
        final(mapping)@ == record_spec(old(mapping)@, node, outlets@, outlets@.len()),
        final(target).outlet_labels@ == relabel_spec(
            old(target).outlet_labels@,
            source.outlet_labels@,
            node,
            outlets@,
            outlets@.len(),
        ),
        final(target).nodes == old(target).nodes,
        final(target).inputs == old(target).inputs,
        final(target).outputs == old(target).outputs,
{
    let mut ix: usize = 0;
    while ix < outlets.len()
        invariant
            ix <= outlets@.len(),
            mapping@ == record_spec(old(mapping)@, node, outlets@, ix as nat),
            target.outlet_labels@ == relabel_spec(
                old(target).outlet_labels@,
                source.outlet_labels@,
                node,
                outlets@,
                ix as nat,
            ),
            target.nodes == old(target).nodes,
            target.inputs == old(target).inputs,
            target.outputs == old(target).outputs,
        decreases outlets@.len() - ix,
    {
        let outlet = outlets[ix];
        mapping.insert(OutletId::new(node, ix), outlet);
        match source.outlet_label(OutletId::new(node, ix)) {
            Some(label) => {
                target.set_outlet_label(outlet, label.clone());
            },
            None => {},
        }
        ix += 1;
    }
}

/// What `mapping` makes of each of `outlets`, in their order. Fails where one
/// of them is not mapped.
pub fn map_interface(outlets: &Vec<OutletId>, mapping: &OutletMap<OutletId>) -> (r: TractResult<
    Vec<OutletId>,
>)
    ensures
        r is Ok <==> forall|k: int|
            0 <= k < outlets@.len() ==> mapping@.contains_key(#[trigger] outlets@[k]),
        r matches Ok(mapped) ==> mapped_through(outlets@, mapped@, mapping@),
        r matches Err(e) ==> e@ == (TractErrorView {
            kind: ErrorKind::InvariantViolation,
            context: seq!["an outlet was not translated"@],
        }),
{
    let mut mapped: Vec<OutletId> = Vec::new();
    let mut k: usize = 0;
    while k < outlets.len()
        invariant
            k <= outlets@.len(),
            mapped@.len() == k,
            forall|j: int|
                0 <= j < k ==> mapping@.contains_key(#[trigger] outlets@[j]) && mapped@[j]
                    == mapping@[outlets@[j]],
        decreases outlets@.len() - k,
    {
        match mapping.lookup(outlets[k]) {
            Some(o) => {
                mapped.push(o);
            },
            None => {
                return Err(
                    TractError::new(ErrorKind::InvariantViolation, "an outlet was not translated"),
                );
            },
        }
        k += 1;
    }
    Ok(mapped)
}

/// The text that names a node in an error: `#`, the id, and the name in
/// double quotes.
pub open spec fn node_label_text(id: usize, name: Seq<char>) -> Seq<char> {
    seq!['#'] + crate::text::decimal(id as nat) + seq![' ', '"'] + name + seq!['"']
}

/// The context in which the translation of a node fails.
pub open spec fn translating_text(id: usize, name: Seq<char>) -> Seq<char> {
    "Translating "@ + node_label_text(id, name)
}

fn translating<F, O>(node: &BaseNode<F, O>) -> (r: String)
    ensures
        r@ == translating_text(node.id, node.name@),
{
    let mut s = text_of("Translating ");
    let ghost start = s@;
    push_char(&mut s, '#');
    append_decimal(&mut s, node.id);
    push_char(&mut s, ' ');
    push_char(&mut s, '"');
    s.append(node.name.as_str());
    push_char(&mut s, '"');
    assert(s@ =~= start + node_label_text(node.id, node.name@));
    s
}

/// A way to translate the nodes of a model over `TI1` and `O1` into nodes of
/// a model over `TI2` and `O2`.
pub trait Translate<TI1, O1, TI2, O2> {
    /// Whether the translation is sure to turn every node whose inputs are
    /// all mapped into as many outlets as the node has outputs.
    spec fn faithful(&self) -> bool;

    /// Whether `after` and `r` are what the translation of the node `node`
    /// of `source` may make of the model `before`, given what `mapping`
    /// holds.
    spec fn translates(
        &self,
        source: &ModelImpl<TI1, O1>,
        node: &BaseNode<TI1, O1>,
        before: &ModelImpl<TI2, O2>,
        mapping: Map<OutletId, OutletId>,
        after: &ModelImpl<TI2, O2>,
        r: TractResult<Vec<OutletId>>,
    ) -> bool;

    /// Translates one node of `source` into zero or more nodes of `target`,
    /// and returns the outlets of `target` that stand for the node's outputs.
    /// It may add to `target` and rewire it, but every outlet that `target`
    /// holds stays, and the outlets it returns exist.
    fn translate_node(
        &self,
        source: &ModelImpl<TI1, O1>,
        node: &BaseNode<TI1, O1>,
        target: &mut ModelImpl<TI2, O2>,
        mapping: &OutletMap<OutletId>,
    ) -> (r: TractResult<Vec<OutletId>>)
        requires
            source.wf(),
            node.id < source.nodes@.len(),
            *node == source.nodes@[node.id as int],
            old(target).wf(),
            maps_into(mapping@, old(target).nodes@),
        ensures
            final(target).wf(),
            keeps_outlets(old(target).nodes@, final(target).nodes@),
            r matches Ok(outlets) ==> forall|k: int|
                0 <= k < outlets@.len() ==> outlet_exists(final(target).nodes@, #[trigger] outlets@[k]),
            self.faithful() && inputs_mapped(node, mapping@) ==> (r matches Ok(outlets)
                && outlets@.len() == node.outputs@.len()),
            self.translates(source, node, old(target), mapping@, final(target), r),
    ;

    /// The translation of `source`: the model that
    /// `translate_model_with_mappings` gives, without the mapping.
    fn translate_model(&self, source: &ModelImpl<TI1, O1>) -> (r: TractResult<ModelImpl<TI2, O2>>)
        requires
            source.wf(),
        ensures
            !can_be_ordered(source) ==> r is Err,
            self.faithful() && can_be_ordered(source) && spare_inputs_ready(source) ==> r is Ok,
            source.inputs@.len() == 0 && source.outputs@.len() == 0 ==> r is Ok,
            r matches Ok(target) ==> {
                &&& target.wf()
                &&& exists|order: Seq<usize>, trace: Seq<(ModelImpl<TI2, O2>, Vec<OutletId>, ModelImpl<TI2, O2>, Map<OutletId, OutletId>)>| {
                    &&& source.is_eval_order(order)
                    &&& #[trigger] is_walk(source, order, trace)
                    &&& forall|i: int|
                        0 <= i < trace.len() - 1 && !walk_skips(source, order, trace, i) ==> {
                            let step = #[trigger] walk_pair(trace, i);
                            self.translates(
                                source,
                                &source.nodes@[walk_node(source, order, i) as int],
                                &step.0.2,
                                step.0.3,
                                &step.1.0,
                                Ok(step.1.1),
                            )
                        }
                    &&& target.nodes == trace.last().2.nodes
                    &&& target.outlet_labels == trace.last().2.outlet_labels
                    &&& maps_into(trace.last().3, target.nodes@)
                    &&& mapped_through(source.inputs@, target.inputs@, trace.last().3)
                    &&& mapped_through(source.outputs@, target.outputs@, trace.last().3)
                    &&& self.faithful() ==> maps_needed(source, trace.last().3) && maps_from(
                        trace.last().3,
                        source,
                    )
                }
            },
            r matches Err(e) ==> {
                ||| !can_be_ordered(source) && e.kind == ErrorKind::InvariantViolation
                ||| exists|
                    order: Seq<usize>,
                    trace: Seq<(ModelImpl<TI2, O2>, Vec<OutletId>, ModelImpl<TI2, O2>, Map<OutletId, OutletId>)>,
                    after: ModelImpl<TI2, O2>,
                    cause: TractError,
                |
                    {
                        &&& source.is_eval_order(order)
                        &&& #[trigger] walk_fails(source, order, trace, after, cause, e@)
                    &&& forall|i: int|
                        0 <= i < trace.len() - 1 && !walk_skips(source, order, trace, i) ==> {
                            let step = #[trigger] walk_pair(trace, i);
                            self.translates(
                                source,
                                &source.nodes@[walk_node(source, order, i) as int],
                                &step.0.2,
                                step.0.3,
                                &step.1.0,
                                Ok(step.1.1),
                            )
                        }
                        &&& self.translates(
                            source,
                            &source.nodes@[walk_node(source, order, trace.len() - 1) as int],
                            &trace.last().2,
                            trace.last().3,
                            &after,
                            Err(cause),
                        )
                    }
                ||| exists|
                    order: Seq<usize>,
                    trace: Seq<(ModelImpl<TI2, O2>, Vec<OutletId>, ModelImpl<TI2, O2>, Map<OutletId, OutletId>)>,
                    after: ModelImpl<TI2, O2>,
                    outlets: Vec<OutletId>,
                |
                    {
                        &&& source.is_eval_order(order)
                        &&& #[trigger] walk_gets_nothing(source, order, trace, after, outlets)
                    &&& forall|i: int|
                        0 <= i < trace.len() - 1 && !walk_skips(source, order, trace, i) ==> {
                            let step = #[trigger] walk_pair(trace, i);
                            self.translates(
                                source,
                                &source.nodes@[walk_node(source, order, i) as int],
                                &step.0.2,
                                step.0.3,
                                &step.1.0,
                                Ok(step.1.1),
                            )
                        }
                        &&& self.translates(
                            source,
                            &source.nodes@[walk_node(source, order, trace.len() - 1) as int],
                            &trace.last().2,
                            trace.last().3,
                            &after,
                            Ok(outlets),
                        )
                        &&& e@ == nothing_translated()
                    }
                ||| exists|order: Seq<usize>, trace: Seq<(ModelImpl<TI2, O2>, Vec<OutletId>, ModelImpl<TI2, O2>, Map<OutletId, OutletId>)>|
                    {
                        &&& source.is_eval_order(order)
                        &&& #[trigger] walk_misses(source, order, trace)
                    &&& forall|i: int|
                        0 <= i < trace.len() - 1 && !walk_skips(source, order, trace, i) ==> {
                            let step = #[trigger] walk_pair(trace, i);
                            self.translates(
                                source,
                                &source.nodes@[walk_node(source, order, i) as int],
                                &step.0.2,
                                step.0.3,
                                &step.1.0,
                                Ok(step.1.1),
                            )
                        }
                        &&& e@ == not_translated()
                    }
            },
    {
        match self.translate_model_with_mappings(source) {
            Ok((target, mapping)) => Ok(target),
            Err(e) => Err(e),
        }
    }

    /// The translation of `source`, with the outlet of the translation that
    /// stands for each outlet of `source`.
    ///
    /// The nodes are translated in evaluation order, each into the model
    /// that the ones before it left; the outlets that a translation returns
    /// are recorded as what the outputs of the node became, and the labels
    /// of those outputs are handed on. An input of `source` that is not
    /// mapped by then is translated after them, and mapped to the first
    /// outlet that its translation returns. The translation has as many
    /// inputs as `source`, and its input at each place is what the input of
    /// `source` at that place was mapped to; the same holds of the outputs.
    ///
    /// A faithful translation succeeds on every model whose needed nodes can
    /// be ordered and whose spare inputs read only what is mapped by then,
    /// maps every outlet of every needed node, and maps outlets of `source`
    /// only. Any translation
    /// succeeds on a model without inputs and outputs, of which nothing is
    /// left to translate.
    ///
    /// An error is one of four. The needed nodes cannot be ordered. The
    /// translation of a node failed: its error is handed on in a context
    /// that names the node. The translation of a spare input returned no
    /// outlet. Or the walk came to its end and left an output of `source`
    /// unmapped. Each comes with the walk up to the step at which it
    /// happened.
    fn translate_model_with_mappings(&self, source: &ModelImpl<TI1, O1>) -> (r: TractResult<
        (ModelImpl<TI2, O2>, OutletMap<OutletId>),
    >)
        requires
            source.wf(),
        ensures
            !can_be_ordered(source) ==> r is Err,
            self.faithful() && can_be_ordered(source) && spare_inputs_ready(source) ==> r is Ok,
            source.inputs@.len() == 0 && source.outputs@.len() == 0 ==> r is Ok,
            r matches Ok((target, mapping)) ==> {
                &&& target.wf()
                &&& maps_into(mapping@, target.nodes@)
                &&& mapped_through(source.inputs@, target.inputs@, mapping@)
                &&& mapped_through(source.outputs@, target.outputs@, mapping@)
                &&& self.faithful() ==> maps_needed(source, mapping@) && maps_from(mapping@, source)
                &&& exists|order: Seq<usize>, trace: Seq<(ModelImpl<TI2, O2>, Vec<OutletId>, ModelImpl<TI2, O2>, Map<OutletId, OutletId>)>| {
                    &&& source.is_eval_order(order)
                    &&& #[trigger] is_walk(source, order, trace)
                    &&& forall|i: int|
                        0 <= i < trace.len() - 1 && !walk_skips(source, order, trace, i) ==> {
                            let step = #[trigger] walk_pair(trace, i);
                            self.translates(
                                source,
                                &source.nodes@[walk_node(source, order, i) as int],
                                &step.0.2,
                                step.0.3,
                                &step.1.0,
                                Ok(step.1.1),
                            )
                        }
                    &&& target.nodes == trace.last().2.nodes
                    &&& target.outlet_labels == trace.last().2.outlet_labels
                    &&& mapping@ == trace.last().3
                }
            },
            r matches Err(e) ==> {
                ||| !can_be_ordered(source) && e.kind == ErrorKind::InvariantViolation
                ||| exists|
                    order: Seq<usize>,
                    trace: Seq<(ModelImpl<TI2, O2>, Vec<OutletId>, ModelImpl<TI2, O2>, Map<OutletId, OutletId>)>,
                    after: ModelImpl<TI2, O2>,
                    cause: TractError,
                |
                    {
                        &&& source.is_eval_order(order)
                        &&& #[trigger] walk_fails(source, order, trace, after, cause, e@)
                    &&& forall|i: int|
                        0 <= i < trace.len() - 1 && !walk_skips(source, order, trace, i) ==> {
                            let step = #[trigger] walk_pair(trace, i);
                            self.translates(
                                source,
                                &source.nodes@[walk_node(source, order, i) as int],
                                &step.0.2,
                                step.0.3,
                                &step.1.0,
                                Ok(step.1.1),
                            )
                        }
                        &&& self.translates(
                            source,
                            &source.nodes@[walk_node(source, order, trace.len() - 1) as int],
                            &trace.last().2,
                            trace.last().3,
                            &after,
                            Err(cause),
                        )
                    }
                ||| exists|
                    order: Seq<usize>,
                    trace: Seq<(ModelImpl<TI2, O2>, Vec<OutletId>, ModelImpl<TI2, O2>, Map<OutletId, OutletId>)>,
                    after: ModelImpl<TI2, O2>,
                    outlets: Vec<OutletId>,
                |
                    {
                        &&& source.is_eval_order(order)
                        &&& #[trigger] walk_gets_nothing(source, order, trace, after, outlets)
                    &&& forall|i: int|
                        0 <= i < trace.len() - 1 && !walk_skips(source, order, trace, i) ==> {
                            let step = #[trigger] walk_pair(trace, i);
                            self.translates(
                                source,
                                &source.nodes@[walk_node(source, order, i) as int],
                                &step.0.2,
                                step.0.3,
                                &step.1.0,
                                Ok(step.1.1),
                            )
                        }
                        &&& self.translates(
                            source,
                            &source.nodes@[walk_node(source, order, trace.len() - 1) as int],
                            &trace.last().2,
                            trace.last().3,
                            &after,
                            Ok(outlets),
                        )
                        &&& e@ == nothing_translated()
                    }
                ||| exists|order: Seq<usize>, trace: Seq<(ModelImpl<TI2, O2>, Vec<OutletId>, ModelImpl<TI2, O2>, Map<OutletId, OutletId>)>|
                    {
                        &&& source.is_eval_order(order)
                        &&& #[trigger] walk_misses(source, order, trace)
                    &&& forall|i: int|
                        0 <= i < trace.len() - 1 && !walk_skips(source, order, trace, i) ==> {
                            let step = #[trigger] walk_pair(trace, i);
                            self.translates(
                                source,
                                &source.nodes@[walk_node(source, order, i) as int],
                                &step.0.2,
                                step.0.3,
                                &step.1.0,
                                Ok(step.1.1),
                            )
                        }
                        &&& e@ == not_translated()
                    }
            },
    {
        let mut target: ModelImpl<TI2, O2> = ModelImpl::new();
        let mut mapping: OutletMap<OutletId> = OutletMap::new();
        let none: Vec<OutletId> = Vec::new();
        let order = match source.eval_order() {
            Ok(order) => order,
            Err(e) => {
                proof {
                    if source.outputs@.len() == 0 {
                        let nothing = Set::<int>::empty();
                        assert(source.closed_upstream(nothing) && source.holds_outputs(nothing));
                        assert forall|n: int| !source.needs(n) by {
                            assert(!nothing.contains(n));
                        }
                        assert(source.is_topological(Seq::<usize>::empty()));
                    }
                }
                return Err(e);
            },
        };
        let ghost mut trace: Seq<(ModelImpl<TI2, O2>, Vec<OutletId>, ModelImpl<TI2, O2>, Map<OutletId, OutletId>)> = seq![(target, none, target, mapping@)];
        proof {
            assert(source.is_topological(order@));
            if source.outputs@.len() == 0 && order@.len() > 0 {
                let none = Set::<int>::empty();
                assert(source.closed_upstream(none) && source.holds_outputs(none));
                assert(source.needs(order@[0] as int));
                assert(none.contains(order@[0] as int));
            }
        }
        let mut p: usize = 0;
        while p < order.len()
            invariant
                source.wf(),
                target.wf(),
                p <= order@.len(),
                source.is_eval_order(order@),
                source.outputs@.len() == 0 ==> order@.len() == 0,
                forall|q: int| 0 <= q < order@.len() ==> (#[trigger] order@[q]) < source.nodes@.len(),
                maps_into(mapping@, target.nodes@),
                self.faithful() ==> forall|o: OutletId|
                    #[trigger] outlet_exists(source.nodes@, o) && occurs_before(order@, p as int, o.node)
                        ==> mapping@.contains_key(o),
                self.faithful() ==> maps_from(mapping@, source),
                trace.len() == p + 1,
                trace[0].2.nodes@.len() == 0,
                trace[0].2.outlet_labels@ == Map::<OutletId, String>::empty(),
                trace[0].3 == Map::<OutletId, OutletId>::empty(),
                trace.last().2 == target,
                trace.last().3 == mapping@,
                forall|i: int| 0 <= i < p ==> #[trigger] walk_link(source, order@, trace, i),
                forall|i: int|
                    0 <= i < p ==> {
                        let step = #[trigger] walk_pair(trace, i);
                        self.translates(
                            source,
                            &source.nodes@[order@[i] as int],
                            &step.0.2,
                            step.0.3,
                            &step.1.0,
                            Ok(step.1.1),
                        )
                    },
            decreases order@.len() - p,
        {
            let node = source.node(order[p]);
            assert(node.id == order@[p as int]);
            let ghost nodes_before = target.nodes@;
            let ghost target_before = target;
            proof {
                if self.faithful() {
                    assert forall|k: int| 0 <= k < node.inputs@.len() implies mapping@.contains_key(
                        #[trigger] node.inputs@[k],
                    ) by {
                        let read = source.nodes@[order@[p as int] as int].inputs@[k];
                        assert(outlet_exists(source.nodes@, read));
                        assert(occurs_before(order@, p as int, read.node));
                    }
                }
            }
            let outlets = match self.translate_node(source, node, &mut target, &mapping) {
                Ok(outlets) => outlets,
                Err(e) => {
                    let failed = e.chain_err(translating(node));
                    proof {
                        assert(walk_node(source, order@, trace.len() - 1) == node.id);
                        assert(walk_fails(source, order@, trace, target, e, failed@));
                    }
                    return Err(failed);
                },
            };
            let ghost mapping_before = mapping@;
            let ghost mid = target;
            record_outlets(source, node.id, &outlets, &mut target, &mut mapping);
            proof {
                assert(maps_into(mapping_before, target.nodes@)) by {
                    assert forall|key: OutletId| #[trigger]
                        mapping_before.contains_key(key) implies outlet_exists(
                        target.nodes@,
                        mapping_before[key],
                    ) by {
                        assert(outlet_exists(nodes_before, mapping_before[key]));
                    }
                }
                lemma_record_maps_into(
                    mapping_before,
                    node.id,
                    outlets@,
                    outlets@.len(),
                    target.nodes@,
                );
                lemma_record_keys(mapping_before, node.id, outlets@, outlets@.len());
                lemma_record_only(mapping_before, node.id, outlets@, outlets@.len());
                if self.faithful() {
                    assert forall|o: OutletId|
                        #[trigger] outlet_exists(source.nodes@, o) && occurs_before(
                            order@,
                            p + 1,
                            o.node,
                        ) implies mapping@.contains_key(o) by {
                        let q = choose|q: int|
                            0 <= q < p + 1 && q < order@.len() && #[trigger] order@[q] == o.node;
                        if q < p {
                            assert(occurs_before(order@, p as int, o.node));
                            assert(mapping_before.contains_key(o));
                        } else {
                            assert(o.node == node.id && o.slot < outlets@.len());
                        }
                    }
                    assert forall|key: OutletId| #[trigger]
                        mapping@.contains_key(key) implies outlet_exists(source.nodes@, key) by {
                        if !mapping_before.contains_key(key) {
                            assert(key.node == node.id && key.slot < outlets@.len());
                        }
                    }
                }
                let ghost before_trace = trace;
                let ghost entry = (mid, outlets, target, mapping@);
                trace = trace.push(entry);
                assert(walk_link(source, order@, trace, p as int));
                lemma_walk_push(source, order@, before_trace, entry);
                assert(walk_pair(trace, p as int) == (before_trace.last(), entry));
            }
            p += 1;
        }
        // an input that nothing reads is kept, so that the interface stays
        let mut k: usize = 0;
        while k < source.inputs.len()
            invariant
                source.wf(),
                target.wf(),
                k <= source.inputs@.len(),
                p == order@.len(),
                source.is_eval_order(order@),
                maps_into(mapping@, target.nodes@),
                self.faithful() ==> forall|o: OutletId|
                    #[trigger] outlet_exists(source.nodes@, o) && occurs_before(order@, p as int, o.node)
                        ==> mapping@.contains_key(o),
                self.faithful() ==> maps_from(mapping@, source),
                forall|j: int| 0 <= j < k ==> mapping@.contains_key(#[trigger] source.inputs@[j]),
                trace.len() == order@.len() + 1 + k,
                trace[0].2.nodes@.len() == 0,
                trace[0].2.outlet_labels@ == Map::<OutletId, String>::empty(),
                trace[0].3 == Map::<OutletId, OutletId>::empty(),
                trace.last().2 == target,
                trace.last().3 == mapping@,
                forall|i: int|
                    0 <= i < order@.len() + k ==> #[trigger] walk_link(source, order@, trace, i),
                forall|i: int|
                    0 <= i < order@.len() + k && !walk_skips(source, order@, trace, i) ==> {
                        let step = #[trigger] walk_pair(trace, i);
                        self.translates(
                            source,
                            &source.nodes@[walk_node(source, order@, i) as int],
                            &step.0.2,
                            step.0.3,
                            &step.1.0,
                            Ok(step.1.1),
                        )
                    },
            decreases source.inputs@.len() - k,
        {
            let input = source.inputs[k];
            let ghost before_trace = trace;
            let ghost at = order@.len() + k;
            assert(outlet_exists(source.nodes@, source.inputs@[k as int]));
            if !mapping.contains_key(input) {
                let node = source.node(input.node);
                let ghost nodes_before = target.nodes@;
                let ghost target_before = target;
                proof {
                    if self.faithful() && spare_inputs_ready(source) {
                        if source.needs(input.node as int) {
                            assert(occurs_before(order@, order@.len() as int, input.node));
                            assert(mapping@.contains_key(input));
                        }
                        assert(spare_input(source, k as int));
                        assert forall|i: int| 0 <= i < node.inputs@.len() implies mapping@.contains_key(
                            #[trigger] node.inputs@[i],
                        ) by {
                            let read = source.nodes@[source.inputs@[k as int].node as int].inputs@[i];
                            assert(reads_mapped(source, k as int, read));
                            assert(outlet_exists(source.nodes@, read));
                            if source.needs(read.node as int) {
                                assert(occurs_before(order@, order@.len() as int, read.node));
                            } else {
                                let j = choose|j: int| 0 <= j < k && (#[trigger] source.inputs@[j]) == read;
                                assert(mapping@.contains_key(source.inputs@[j]));
                            }
                        }
                        assert(inputs_mapped(node, mapping@));
                    }
                }
                let outlets = match self.translate_node(source, node, &mut target, &mapping) {
                    Ok(outlets) => outlets,
                    Err(e) => {
                        let failed = e.chain_err(translating(node));
                        proof {
                            assert(walk_node(source, order@, trace.len() - 1) == node.id);
                            assert(walk_fails(source, order@, trace, target, e, failed@));
                        }
                        return Err(failed);
                    },
                };
                if outlets.len() == 0 {
                    proof {
                        assert(walk_node(source, order@, trace.len() - 1) == node.id);
                        assert(walk_gets_nothing(source, order@, trace, target, outlets));
                    }
                    return Err(
                        TractError::new(
                            ErrorKind::InvariantViolation,
                            "an input was translated into nothing",
                        ),
                    );
                }
                proof {
                    assert forall|key: OutletId| #[trigger]
                        mapping@.contains_key(key) implies outlet_exists(
                        target.nodes@,
                        mapping@[key],
                    ) by {
                        assert(outlet_exists(nodes_before, mapping@[key]));
                    }
                }
                mapping.insert(input, outlets[0]);
                proof {
                    let ghost entry = (target, outlets, target, mapping@);
                    trace = trace.push(entry);
                    assert(!walk_skips(source, order@, trace, at as int));
                    assert(walk_link(source, order@, trace, at as int));
                    assert(walk_node(source, order@, at as int) == node.id);
                    lemma_walk_push(source, order@, before_trace, entry);
                    assert(walk_pair(trace, at as int) == (before_trace.last(), entry));
                }
            } else {
                proof {
                    let ghost entry = (target, none, target, mapping@);
                    trace = trace.push(entry);
                    assert(walk_skips(source, order@, trace, at as int));
                    assert(walk_link(source, order@, trace, at as int));
                    lemma_walk_push(source, order@, before_trace, entry);
                }
            }
            k += 1;
        }
        proof {
            if self.faithful() {
                assert forall|o: OutletId|
                    #[trigger] outlet_exists(source.nodes@, o) && source.needs(
                        o.node as int,
                    ) implies mapping@.contains_key(o) by {
                    assert(occurs_before(order@, order@.len() as int, o.node));
                }
                assert forall|j: int| 0 <= j < source.outputs@.len() implies mapping@.contains_key(
                    #[trigger] source.outputs@[j],
                ) by {
                    source.lemma_needs_output(j);
                    assert(outlet_exists(source.nodes@, source.outputs@[j]));
                }
            }
        }
        // the interface keeps its order
        let inputs = match map_interface(&source.inputs, &mapping) {
            Ok(v) => v,
            Err(e) => {
                return Err(e);
            },
        };
        let outputs = match map_interface(&source.outputs, &mapping) {
            Ok(v) => v,
            Err(e) => {
                proof {
                    assert(is_walk(source, order@, trace));
                    assert(walk_misses(source, order@, trace));
                }
                return Err(e);
            },
        };
        proof {
            assert forall|j: int| 0 <= j < inputs@.len() implies outlet_exists(
                target.nodes@,
                #[trigger] inputs@[j],
            ) by {
                assert(mapping@.contains_key(source.inputs@[j]));
            }
            assert forall|j: int| 0 <= j < outputs@.len() implies outlet_exists(
                target.nodes@,
                #[trigger] outputs@[j],
            ) by {
                assert(mapping@.contains_key(source.outputs@[j]));
            }
        }
        target.inputs = inputs;
        target.outputs = outputs;
        proof {
            assert(is_walk(source, order@, trace));
        }
        Ok((target, mapping))
    }
}

/// Whether `b` is what `B::from` makes of a clone of `a`.
pub open spec fn converted<A: Clone, B: From<A>>(a: A, b: B) -> bool {
    exists|c: A| #[trigger] cloned::<A>(a, c) && (B::obeys_from_spec() ==> b == B::from_spec(c))
}

/// The outlets of the node `node`, for its first `count` output slots.
pub open spec fn node_outlets(node: usize, count: nat) -> Seq<OutletId> {
    Seq::new(count, |ix: int| OutletId { node, slot: ix as usize })
}

/// The translation that turns each node into one node: the operator and the
/// facts are converted, the name is kept, and the inputs are what the inputs
/// of the source node were mapped to.
pub struct IntoTranslator;

impl<TI1, O1, TI2, O2> Translate<TI1, O1, TI2, O2> for IntoTranslator where
    TI1: Clone,
    O1: Clone,
    TI2: From<TI1>,
    O2: From<O1>,
 {
    /// One node for each node, as soon as its inputs are mapped.
    open spec fn faithful(&self) -> bool {
        true
    }

    /// One node is added to the model: it has the name of the node, its
    /// operator and facts converted, and reads what the inputs of the node
    /// are mapped to. The translation fails, and leaves the model as it is,
    /// exactly where an input of the node is not mapped yet.
    open spec fn translates(
        &self,
        source: &ModelImpl<TI1, O1>,
        node: &BaseNode<TI1, O1>,
        before: &ModelImpl<TI2, O2>,
        mapping: Map<OutletId, OutletId>,
        after: &ModelImpl<TI2, O2>,
        r: TractResult<Vec<OutletId>>,
    ) -> bool {
        &&& r is Ok <==> inputs_mapped(node, mapping)
        &&& r matches Ok(outlets) ==> {
            let id = before.nodes@.len();
            let added = after.nodes@.last();
            &&& after.nodes@.len() == id + 1
            &&& after.nodes@.drop_last() == before.nodes@
            &&& added.name@ == node.name@
            &&& converted(node.op, added.op)
            &&& added.outputs@.len() == node.outputs@.len()
            &&& forall|k: int|
                0 <= k < node.outputs@.len() ==> converted(
                    #[trigger] node.outputs@[k],
                    added.outputs@[k],
                )
            &&& mapped_through(node.inputs@, added.inputs@, mapping)
            &&& outlets@ == node_outlets(id as usize, node.outputs@.len())
            &&& after.inputs == before.inputs
            &&& after.outputs == before.outputs
            &&& after.outlet_labels == before.outlet_labels
        }
        &&& r matches Err(e) ==> e.kind == ErrorKind::InvariantViolation && *after == *before
    }

    fn translate_node(
        &self,
        source: &ModelImpl<TI1, O1>,
        node: &BaseNode<TI1, O1>,
        target: &mut ModelImpl<TI2, O2>,
        mapping: &OutletMap<OutletId>,
    ) -> (r: TractResult<Vec<OutletId>>) {
        let wires = match map_interface(&node.inputs, mapping) {
            Ok(wires) => wires,
            Err(e) => {
                return Err(e);
            },
        };
        let new_op = O2::from(clone_op(&node.op));
        let mut facts: Vec<TI2> = Vec::new();
        let mut k: usize = 0;
        while k < node.outputs.len()
            invariant
                k <= node.outputs@.len(),
                facts@.len() == k,
                forall|j: int| 0 <= j < k ==> converted(#[trigger] node.outputs@[j], facts@[j]),
            decreases node.outputs@.len() - k,
        {
            let copy = node.outputs[k].clone();
            assert(cloned::<TI1>(node.outputs@[k as int], copy));
            let fact = TI2::from(copy);
            facts.push(fact);
            k += 1;
        }
        let ghost facts_view = facts@;
        let new_id = match target.add_node(node.name.clone(), new_op, facts) {
            Ok(id) => id,
            Err(e) => {
                return Err(e);
            },
        };
        let mut ix: usize = 0;
        while ix < wires.len()
            invariant
                ix <= wires@.len(),
                target.wf(),
                new_id == old(target).nodes@.len(),
                mapped_through(node.inputs@, wires@, mapping@),
                maps_into(mapping@, old(target).nodes@),
                target.nodes@.len() == new_id + 1,
                target.nodes@.drop_last() == old(target).nodes@,
                target.nodes@.last().name@ == node.name@,
                converted(node.op, target.nodes@.last().op),
                target.nodes@.last().outputs@ == facts_view,
                target.nodes@.last().inputs@ == wires@.take(ix as int),
                target.inputs == old(target).inputs,
                target.outputs == old(target).outputs,
                target.outlet_labels == old(target).outlet_labels,
            decreases wires@.len() - ix,
        {
            let ghost before = target.nodes@;
            assert(mapping@.contains_key(node.inputs@[ix as int]));
            assert(outlet_exists(old(target).nodes@, wires@[ix as int]));
            assert(before.drop_last()[wires@[ix as int].node as int] == before[wires@[ix as int].node as int]);
            match target.add_edge(wires[ix], InletId::new(new_id, ix)) {
                Ok(()) => {},
                Err(e) => {
                    return Err(e);
                },
            }
            proof {
                assert(target.nodes@.drop_last() =~= before.drop_last());
                assert(wires@.take(ix + 1) =~= wires@.take(ix as int).push(wires@[ix as int]));
            }
            ix += 1;
        }
        assert(wires@.take(ix as int) =~= wires@);
        let mut outlets: Vec<OutletId> = Vec::new();
        let mut slot: usize = 0;
        while slot < node.outputs.len()
            invariant
                slot <= node.outputs@.len(),
                outlets@ == node_outlets(new_id, slot as nat),
            decreases node.outputs@.len() - slot,
        {
            outlets.push(OutletId::new(new_id, slot));
            assert(outlets@ =~= node_outlets(new_id, (slot + 1) as nat));
            slot += 1;
        }
        proof {
            assert forall|o: OutletId| #[trigger]
                outlet_exists(old(target).nodes@, o) implies outlet_exists(target.nodes@, o) by {
                assert(target.nodes@.drop_last()[o.node as int] == target.nodes@[o.node as int]);
            }
        }
        Ok(outlets)
    }
}

} // verus!
