//! The graph: nodes in an arena, wired from outlets to inlets, with the
//! ordered lists of outlets that are the model's inputs and outputs.
use vstd::prelude::*;
use crate::error::{ErrorKind, TractError, TractResult};
use crate::outlet::{InletId, OutletId, OutletMap};

verus! {

/// A node: one operator, the outlets it reads, and a fact for each tensor it
/// produces.
#[derive(Debug)]
pub struct BaseNode<F, O> {
    pub id: usize,
    pub name: String,
    pub inputs: Vec<OutletId>,
    pub op: O,
    pub outputs: Vec<F>,
}

/// A graph of nodes over facts `F` and operators `O`.
#[derive(Debug)]
pub struct ModelImpl<F, O> {
    pub nodes: Vec<BaseNode<F, O>>,
    pub inputs: Vec<OutletId>,
    pub outputs: Vec<OutletId>,
    pub outlet_labels: OutletMap<String>,
}

/// Whether `outlet` names an output slot of one of `nodes`.
pub open spec fn outlet_exists<F, O>(nodes: Seq<BaseNode<F, O>>, outlet: OutletId) -> bool {
    outlet.node < nodes.len() && outlet.slot < nodes[outlet.node as int].outputs@.len()
}

/// Whether every node has its place as id, and reads only outlets of `nodes`.
pub open spec fn nodes_wf<F, O>(nodes: Seq<BaseNode<F, O>>) -> bool {
    &&& forall|i: int| 0 <= i < nodes.len() ==> (#[trigger] nodes[i]).id == i
    &&& forall|i: int, k: int|
        0 <= i < nodes.len() && 0 <= k < nodes[i].inputs@.len() ==> outlet_exists(
            nodes,
            #[trigger] nodes[i].inputs@[k],
        )
}

impl<F, O> ModelImpl<F, O> {
    /// The model's invariant: ids are places, and every outlet that a node,
    /// the input list or the output list names exists.
    pub open spec fn wf(&self) -> bool {
        &&& nodes_wf(self.nodes@)
        &&& forall|k: int|
            0 <= k < self.inputs@.len() ==> outlet_exists(self.nodes@, #[trigger] self.inputs@[k])
        &&& forall|k: int|
            0 <= k < self.outputs@.len() ==> outlet_exists(self.nodes@, #[trigger] self.outputs@[k])
    }

    /// The model without nodes.
    pub fn new() -> (m: Self)
        ensures
            m.wf(),
            m.nodes@.len() == 0,
            m.inputs@.len() == 0,
            m.outputs@.len() == 0,
            m.outlet_labels@ == Map::<OutletId, String>::empty(),
    {
        ModelImpl {
            nodes: Vec::new(),
            inputs: Vec::new(),
            outputs: Vec::new(),
            outlet_labels: OutletMap::new(),
        }
    }

    /// Adds a node without inputs. Its id is the number of nodes before.
    pub fn add_node(&mut self, name: String, op: O, output_facts: Vec<F>) -> (r: TractResult<usize>)
        requires
            old(self).wf(),
        ensures
            final(self).wf(),
            r matches Ok(id) && id == old(self).nodes@.len(),
            final(self).nodes@.len() == old(self).nodes@.len() + 1,
            final(self).nodes@.drop_last() == old(self).nodes@,
            final(self).nodes@.last().name == name,
            final(self).nodes@.last().op == op,
            final(self).nodes@.last().outputs == output_facts,
            final(self).nodes@.last().inputs@.len() == 0,
            final(self).inputs == old(self).inputs,
            final(self).outputs == old(self).outputs,
            final(self).outlet_labels == old(self).outlet_labels,
    {
        let id = self.nodes.len();
        let node = BaseNode { id, name, inputs: Vec::new(), op, outputs: output_facts };
        self.nodes.push(node);
        assert(self.nodes@.drop_last() =~= old(self).nodes@);
        assert(forall|o: OutletId|
            outlet_exists(old(self).nodes@, o) ==> outlet_exists(self.nodes@, o));
        Ok(id)
    }

    /// Whether `inlet` is an input slot that its node has, or the next one.
    pub open spec fn inlet_fits(&self, inlet: InletId) -> bool {
        inlet.node < self.nodes@.len() && inlet.slot <= self.nodes@[inlet.node as int].inputs@.len()
    }

    /// Connects `outlet` to `inlet`: the input slot `inlet.slot` of the node
    /// `inlet.node` now reads `outlet`. The outlet must exist, and the slot
    /// must be one that the node has, or the next one; otherwise the model
    /// stays as it is.
    pub fn add_edge(&mut self, outlet: OutletId, inlet: InletId) -> (r: TractResult<()>)
        requires
            old(self).wf(),
        ensures
            final(self).wf(),
            r is Ok <==> outlet_exists(old(self).nodes@, outlet) && old(self).inlet_fits(inlet),
            r is Ok ==> rewired(
                old(self).nodes@,
                final(self).nodes@,
                inlet.node as int,
                with_input(old(self).nodes@[inlet.node as int].inputs@, inlet.slot as int, outlet),
            ),
            r matches Err(e) ==> e.kind == ErrorKind::InvariantViolation && final(self).nodes
                == old(self).nodes,
            final(self).inputs == old(self).inputs,
            final(self).outputs == old(self).outputs,
            final(self).outlet_labels == old(self).outlet_labels,
    {
        if !self.has_outlet(outlet) || inlet.node >= self.nodes.len() {
            return Err(TractError::new(ErrorKind::InvariantViolation, "no such node or outlet"));
        }
        let n = self.nodes[inlet.node].inputs.len();
        if inlet.slot == n {
            self.nodes[inlet.node].inputs.push(outlet);
        } else if inlet.slot < n {
            self.nodes[inlet.node].inputs.set(inlet.slot, outlet);
        } else {
            return Err(
                TractError::new(
                    ErrorKind::InvariantViolation,
                    "edges must be added in order and consecutive",
                ),
            );
        }
        proof {
            lemma_rewired_wf(
                old(self).nodes@,
                self.nodes@,
                inlet.node as int,
                with_input(old(self).nodes@[inlet.node as int].inputs@, inlet.slot as int, outlet),
            );
            lemma_rewired_outlets(
                old(self).nodes@,
                self.nodes@,
                inlet.node as int,
                with_input(old(self).nodes@[inlet.node as int].inputs@, inlet.slot as int, outlet),
            );
        }
        Ok(())
    }

    /// Adds a node that reads `inputs` and has `output_facts` as the facts
    /// of its outputs, and returns its outlets. Refused, with the model
    /// unchanged, where the model lacks one of the inputs.
    pub fn wire(&mut self, name: String, op: O, inputs: &Vec<OutletId>, output_facts: Vec<F>) -> (r:
        TractResult<Vec<OutletId>>)
        requires
            old(self).wf(),
        ensures
            final(self).wf(),
            r is Ok <==> forall|k: int|
                0 <= k < inputs@.len() ==> outlet_exists(old(self).nodes@, #[trigger] inputs@[k]),
            r matches Ok(outlets) ==> {
                let id = old(self).nodes@.len();
                let added = final(self).nodes@.last();
                &&& final(self).nodes@.len() == id + 1
                &&& final(self).nodes@.drop_last() == old(self).nodes@
                &&& added.id == id
                &&& added.name == name
                &&& added.op == op
                &&& added.outputs == output_facts
                &&& added.inputs@ == inputs@
                &&& outlets@ == Seq::new(
                    output_facts@.len(),
                    |ix: int| OutletId { node: id as usize, slot: ix as usize },
                )
            },
            r matches Err(e) ==> e.kind == ErrorKind::InvariantViolation && final(self).nodes == old(
                self,
            ).nodes,
            final(self).inputs == old(self).inputs,
            final(self).outputs == old(self).outputs,
            final(self).outlet_labels == old(self).outlet_labels,
    {
        if !self.has_outlets(inputs) {
            return Err(TractError::new(ErrorKind::InvariantViolation, "no such outlet to read"));
        }
        let count = output_facts.len();
        let id = match self.add_node(name, op, output_facts) {
            Ok(id) => id,
            Err(e) => {
                return Err(e);
            },
        };
        let mut ix: usize = 0;
        while ix < inputs.len()
            invariant
                ix <= inputs@.len(),
                self.wf(),
                id == old(self).nodes@.len(),
                forall|k: int|
                    0 <= k < inputs@.len() ==> outlet_exists(old(self).nodes@, #[trigger] inputs@[k]),
                self.nodes@.len() == id + 1,
                self.nodes@.drop_last() == old(self).nodes@,
                self.nodes@.last().id == id,
                self.nodes@.last().name == name,
                self.nodes@.last().op == op,
                self.nodes@.last().outputs == output_facts,
                self.nodes@.last().inputs@ == inputs@.take(ix as int),
                self.inputs == old(self).inputs,
                self.outputs == old(self).outputs,
                self.outlet_labels == old(self).outlet_labels,
            decreases inputs@.len() - ix,
        {
            let ghost before = self.nodes@;
            assert(outlet_exists(old(self).nodes@, inputs@[ix as int]));
            assert(before.drop_last()[inputs@[ix as int].node as int]
                == before[inputs@[ix as int].node as int]);
            match self.add_edge(inputs[ix], InletId::new(id, ix)) {
                Ok(()) => {},
                Err(_) => {
                    assert(false);
                },
            }
            proof {
                assert(self.nodes@.drop_last() =~= before.drop_last());
                assert(inputs@.take(ix + 1) =~= inputs@.take(ix as int).push(inputs@[ix as int]));
            }
            ix += 1;
        }
        assert(inputs@.take(ix as int) =~= inputs@);
        let mut outlets: Vec<OutletId> = Vec::new();
        let mut slot: usize = 0;
        while slot < count
            invariant
                slot <= count,
                outlets@ == Seq::new(slot as nat, |i: int| OutletId { node: id, slot: i as usize }),
            decreases count - slot,
        {
            outlets.push(OutletId::new(id, slot));
            assert(outlets@ =~= Seq::new(
                (slot + 1) as nat,
                |i: int| OutletId { node: id, slot: i as usize },
            ));
            slot += 1;
        }
        Ok(outlets)
    }

    /// Whether the model holds the outlet.
    pub fn has_outlet(&self, outlet: OutletId) -> (r: bool)
        ensures
            r == outlet_exists(self.nodes@, outlet),
    {
        outlet.node < self.nodes.len() && outlet.slot < self.nodes[outlet.node].outputs.len()
    }

    /// The node of the given id, which must be one of the model's.
    pub fn node(&self, id: usize) -> (n: &BaseNode<F, O>)
        requires
            id < self.nodes@.len(),
        ensures
            *n == self.nodes@[id as int],
    {
        &self.nodes[id]
    }

    /// The node of the given id, if the model has it.
    pub fn node_checked(&self, id: usize) -> (r: Option<&BaseNode<F, O>>)
        ensures
            r is Some <==> id < self.nodes@.len(),
            r matches Some(n) ==> *n == self.nodes@[id as int],
    {
        if id < self.nodes.len() {
            Some(&self.nodes[id])
        } else {
            None
        }
    }

    /// The fact held for `outlet`. Fails where the model has no such outlet.
    pub fn outlet_fact(&self, outlet: OutletId) -> (r: TractResult<&F>)
        ensures
            r is Ok <==> outlet_exists(self.nodes@, outlet),
            r matches Ok(f) ==> *f == self.nodes@[outlet.node as int].outputs@[outlet.slot as int],
            r matches Err(e) ==> e.kind == ErrorKind::InvariantViolation,
    {
        if self.has_outlet(outlet) {
            Ok(&self.nodes[outlet.node].outputs[outlet.slot])
        } else {
            Err(TractError::new(ErrorKind::InvariantViolation, "no such outlet"))
        }
    }

    /// The outlets that are the model's inputs, in the caller's order.
    pub fn input_outlets(&self) -> (r: TractResult<&Vec<OutletId>>)
        ensures
            r matches Ok(v) && *v == self.inputs,
    {
        Ok(&self.inputs)
    }

    /// The outlets that are the model's outputs, in the caller's order.
    pub fn output_outlets(&self) -> (r: TractResult<&Vec<OutletId>>)
        ensures
            r matches Ok(v) && *v == self.outputs,
    {
        Ok(&self.outputs)
    }

    /// Whether the model holds all the outlets of the list.
    pub fn has_outlets(&self, outlets: &Vec<OutletId>) -> (r: bool)
        ensures
            r == forall|k: int|
                0 <= k < outlets@.len() ==> outlet_exists(self.nodes@, #[trigger] outlets@[k]),
    {
        let mut k: usize = 0;
        while k < outlets.len()
            invariant
                k <= outlets.len(),
                forall|j: int| 0 <= j < k ==> outlet_exists(self.nodes@, #[trigger] outlets@[j]),
            decreases outlets.len() - k,
        {
            if !self.has_outlet(outlets[k]) {
                return false;
            }
            k += 1;
        }
        true
    }

    /// Declares the model's inputs. Refused, with the model unchanged, where
    /// the model lacks one of the outlets.
    pub fn set_input_outlets(&mut self, outlets: Vec<OutletId>) -> (r: TractResult<()>)
        requires
            old(self).wf(),
        ensures
            final(self).wf(),
            r is Ok <==> forall|k: int|
                0 <= k < outlets@.len() ==> outlet_exists(old(self).nodes@, #[trigger] outlets@[k]),
            r is Ok ==> final(self).inputs == outlets,
            r matches Err(e) ==> e.kind == ErrorKind::InvariantViolation && final(self).inputs
                == old(self).inputs,
            final(self).nodes == old(self).nodes,
            final(self).outputs == old(self).outputs,
            final(self).outlet_labels == old(self).outlet_labels,
    {
        if self.has_outlets(&outlets) {
            self.inputs = outlets;
            Ok(())
        } else {
            Err(TractError::new(ErrorKind::InvariantViolation, "no such outlet"))
        }
    }

    /// Declares the model's outputs. Refused, with the model unchanged, where
    /// the model lacks one of the outlets.
    pub fn set_output_outlets(&mut self, outlets: Vec<OutletId>) -> (r: TractResult<()>)
        requires
            old(self).wf(),
        ensures
            final(self).wf(),
            r is Ok <==> forall|k: int|
                0 <= k < outlets@.len() ==> outlet_exists(old(self).nodes@, #[trigger] outlets@[k]),
            r is Ok ==> final(self).outputs == outlets,
            r matches Err(e) ==> e.kind == ErrorKind::InvariantViolation && final(self).outputs
                == old(self).outputs,
            final(self).nodes == old(self).nodes,
            final(self).inputs == old(self).inputs,
            final(self).outlet_labels == old(self).outlet_labels,
    {
        if self.has_outlets(&outlets) {
            self.outputs = outlets;
            Ok(())
        } else {
            Err(TractError::new(ErrorKind::InvariantViolation, "no such outlet"))
        }
    }

    /// The label of `outlet`, if it has one.
    pub fn outlet_label(&self, outlet: OutletId) -> (r: Option<&String>)
        ensures
            r is Some <==> self.outlet_labels@.contains_key(outlet),
            r matches Some(l) ==> *l == self.outlet_labels@[outlet],
    {
        self.outlet_labels.get(outlet)
    }

    /// Gives `outlet` the label `label`, in place of the one it had.
    pub fn set_outlet_label(&mut self, outlet: OutletId, label: String)
        ensures
            final(self).outlet_labels@ == old(self).outlet_labels@.insert(outlet, label),
            final(self).nodes == old(self).nodes,
            final(self).inputs == old(self).inputs,
            final(self).outputs == old(self).outputs,
    {
        self.outlet_labels.insert(outlet, label);
    }

    /// The inlets that read `outlet`, by node and then by slot.
    pub fn outlet_successors(&self, outlet: OutletId) -> (r: Vec<InletId>)
        ensures
            forall|inlet: InletId| #[trigger]
                r@.contains(inlet) <==> self.reads(inlet, outlet),
            forall|a: int, b: int|
                0 <= a < b < r@.len() ==> inlet_before(#[trigger] r@[a], #[trigger] r@[b]),
    {
        let mut out: Vec<InletId> = Vec::new();
        let mut i: usize = 0;
        while i < self.nodes.len()
            invariant
                i <= self.nodes@.len(),
                forall|inlet: InletId| #[trigger]
                    out@.contains(inlet) <==> self.reads(inlet, outlet) && inlet.node < i,
                forall|a: int, b: int|
                    0 <= a < b < out@.len() ==> inlet_before(#[trigger] out@[a], #[trigger] out@[b]),
            decreases self.nodes@.len() - i,
        {
            let mut k: usize = 0;
            while k < self.nodes[i].inputs.len()
                invariant
                    i < self.nodes@.len(),
                    k <= self.nodes@[i as int].inputs@.len(),
                    forall|inlet: InletId| #[trigger]
                        out@.contains(inlet) <==> self.reads(inlet, outlet) && (inlet.node < i || (
                        inlet.node == i && inlet.slot < k)),
                    forall|a: int, b: int|
                        0 <= a < b < out@.len() ==> inlet_before(
                            #[trigger] out@[a],
                            #[trigger] out@[b],
                        ),
                decreases self.nodes@[i as int].inputs@.len() - k,
            {
                if self.nodes[i].inputs[k] == outlet {
                    let ghost before = out@;
                    let inlet = InletId { node: i, slot: k };
                    out.push(inlet);
                    proof {
                        assert forall|x: InletId| #[trigger] out@.contains(x) implies self.reads(x, outlet)
                            && (x.node < i || (x.node == i && x.slot < k + 1)) by {
                            let j = choose|j: int| 0 <= j < out@.len() && out@[j] == x;
                            if j < before.len() {
                                assert(before[j] == x);
                                assert(before.contains(x));
                            }
                        }
                        assert forall|x: InletId|
                            self.reads(x, outlet) && (x.node < i || (x.node == i && x.slot < k
                                + 1)) implies #[trigger] out@.contains(x) by {
                            if x == inlet {
                                assert(out@[before.len() as int] == x);
                            } else {
                                assert(before.contains(x));
                                let j = choose|j: int| 0 <= j < before.len() && before[j] == x;
                                assert(out@[j] == x);
                            }
                        }
                        assert forall|a: int, b: int| 0 <= a < b < out@.len() implies inlet_before(
                            #[trigger] out@[a],
                            #[trigger] out@[b],
                        ) by {
                            if b == before.len() {
                                assert(before[a] == out@[a]);
                                assert(before.contains(out@[a]));
                            } else {
                                assert(before[a] == out@[a] && before[b] == out@[b]);
                            }
                        }
                    }
                }
                k += 1;
            }
            i += 1;
        }
        out
    }

    /// Whether `inlet` is an input slot of the model that reads `outlet`.
    pub open spec fn reads(&self, inlet: InletId, outlet: OutletId) -> bool {
        &&& inlet.node < self.nodes@.len()
        &&& inlet.slot < self.nodes@[inlet.node as int].inputs@.len()
        &&& self.nodes@[inlet.node as int].inputs@[inlet.slot as int] == outlet
    }
}

/// Whether `a` stands before `b`: in an earlier node, or in an earlier slot
/// of the same node.
pub open spec fn inlet_before(a: InletId, b: InletId) -> bool {
    a.node < b.node || (a.node == b.node && a.slot < b.slot)
}

/// The list of inputs with `outlet` at `slot`: in place of what was there, or
/// appended where `slot` is the next slot.
pub open spec fn with_input(inputs: Seq<OutletId>, slot: int, outlet: OutletId) -> Seq<OutletId> {
    if slot == inputs.len() {
        inputs.push(outlet)
    } else {
        inputs.update(slot, outlet)
    }
}

/// Whether `after` is `before` but for the inputs of the node `node`, which
/// are `inputs`.
pub open spec fn rewired<F, O>(
    before: Seq<BaseNode<F, O>>,
    after: Seq<BaseNode<F, O>>,
    node: int,
    inputs: Seq<OutletId>,
) -> bool {
    &&& 0 <= node < before.len()
    &&& after.len() == before.len()
    &&& forall|i: int| 0 <= i < before.len() && i != node ==> after[i] == before[i]
    &&& after[node].id == before[node].id
    &&& after[node].name == before[node].name
    &&& after[node].op == before[node].op
    &&& after[node].outputs == before[node].outputs
    &&& after[node].inputs@ == inputs
}

/// Rewiring a node keeps every outlet.
pub proof fn lemma_rewired_outlets<F, O>(
    before: Seq<BaseNode<F, O>>,
    after: Seq<BaseNode<F, O>>,
    node: int,
    inputs: Seq<OutletId>,
)
    requires
        rewired(before, after, node, inputs),
    ensures
        forall|o: OutletId| outlet_exists(before, o) <==> outlet_exists(after, o),
{
    assert forall|o: OutletId| outlet_exists(before, o) <==> outlet_exists(after, o) by {
        if o.node < before.len() {
            if o.node as int != node {
                assert(after[o.node as int] == before[o.node as int]);
            }
        }
    }
}

/// Rewiring a node to outlets that exist keeps the nodes well-formed.
pub proof fn lemma_rewired_wf<F, O>(
    before: Seq<BaseNode<F, O>>,
    after: Seq<BaseNode<F, O>>,
    node: int,
    inputs: Seq<OutletId>,
)
    requires
        nodes_wf(before),
        rewired(before, after, node, inputs),
        forall|k: int| 0 <= k < inputs.len() ==> outlet_exists(before, #[trigger] inputs[k]),
    ensures
        nodes_wf(after),
{
    lemma_rewired_outlets(before, after, node, inputs);
    assert forall|i: int| 0 <= i < after.len() implies (#[trigger] after[i]).id == i by {
        if i != node {
            assert(after[i] == before[i]);
        }
        assert(before[i].id == i);
    }
    assert forall|i: int, k: int|
        0 <= i < after.len() && 0 <= k < after[i].inputs@.len() implies outlet_exists(
        after,
        #[trigger] after[i].inputs@[k],
    ) by {
        if i != node {
            assert(after[i] == before[i]);
            assert(outlet_exists(before, before[i].inputs@[k]));
        } else {
            assert(outlet_exists(before, inputs[k]));
        }
    }
}

} // verus!
