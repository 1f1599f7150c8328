//! Wiring operators into models whose facts the operators compute: resolved
//! models, patches to them, and streaming models.
use vstd::prelude::*;
use crate::error::{ErrorKind, TractError, TractResult};
use crate::fact::{PulsedFact, PulsedFactView, TypedFact, TypedFactView};
use crate::model::{outlet_exists, BaseNode, ModelImpl};
use crate::ops::{
    pulsed_ref_views, pulsed_views, typed_ref_views, typed_views, PulsedOp, TypedOp,
};
use crate::outlet::OutletId;
use crate::patch::{ModelPatch, Wire};

verus! {

/// The facts that the nodes hold for the outlets.
pub open spec fn typed_facts_at<O>(nodes: Seq<BaseNode<TypedFact, O>>, outlets: Seq<OutletId>) -> Seq<
    TypedFactView,
> {
    Seq::new(
        outlets.len(),
        |k: int| nodes[outlets[k].node as int].outputs@[outlets[k].slot as int]@,
    )
}

/// The facts that the nodes hold for the outlets.
pub open spec fn pulsed_facts_at<P>(nodes: Seq<BaseNode<PulsedFact, P>>, outlets: Seq<OutletId>) -> Seq<
    PulsedFactView,
> {
    Seq::new(
        outlets.len(),
        |k: int| nodes[outlets[k].node as int].outputs@[outlets[k].slot as int]@,
    )
}

/// Whether the nodes hold all the outlets.
pub open spec fn outlets_exist<F, O>(nodes: Seq<BaseNode<F, O>>, outlets: Seq<OutletId>) -> bool {
    forall|k: int| 0 <= k < outlets.len() ==> outlet_exists(nodes, #[trigger] outlets[k])
}

impl<O: TypedOp<O>> ModelImpl<TypedFact, O> {
    /// Adds a node for `op` that reads `inputs`; the facts of its outputs
    /// are what the operator computes from the facts of the inputs. Refused,
    /// with the model unchanged, where the model lacks an input or the
    /// operator rejects the facts.
    pub fn wire_node(&mut self, name: String, op: O, inputs: &Vec<OutletId>) -> (r: TractResult<
        Vec<OutletId>,
    >)
        requires
            old(self).wf(),
        ensures
            final(self).wf(),
            r is Ok <==> outlets_exist(old(self).nodes@, inputs@) && op.output_facts_spec(
                typed_facts_at(old(self).nodes@, inputs@),
            ) is Ok,
            r matches Ok(outlets) ==> {
                let id = old(self).nodes@.len();
                let added = final(self).nodes@.last();
                &&& final(self).nodes@.len() == id + 1
                &&& final(self).nodes@.drop_last() == old(self).nodes@
                &&& added.id == id
                &&& added.name == name
                &&& added.op == op
                &&& added.inputs@ == inputs@
                &&& Ok::<Seq<TypedFactView>, ErrorKind>(typed_views(added.outputs@))
                    == op.output_facts_spec(typed_facts_at(old(self).nodes@, inputs@))
                &&& forall|k: int| 0 <= k < added.outputs@.len() ==> (#[trigger] added.outputs@[k]).wf()
                &&& outlets@ == Seq::new(
                    added.outputs@.len(),
                    |ix: int| OutletId { node: id as usize, slot: ix as usize },
                )
            },
            r matches Err(e) ==> final(self).nodes == old(self).nodes && e.kind == (if outlets_exist(
                old(self).nodes@,
                inputs@,
            ) {
                op.output_facts_spec(typed_facts_at(old(self).nodes@, inputs@))->Err_0
            } else {
                ErrorKind::InvariantViolation
            }),
            final(self).inputs == old(self).inputs,
            final(self).outputs == old(self).outputs,
            final(self).outlet_labels == old(self).outlet_labels,
    {
        if !self.has_outlets(inputs) {
            return Err(TractError::new(ErrorKind::InvariantViolation, "no such outlet to read"));
        }
        let mut facts: Vec<&TypedFact> = Vec::new();
        let mut k: usize = 0;
        while k < inputs.len()
            invariant
                k <= inputs@.len(),
                outlets_exist(self.nodes@, inputs@),
                facts@.len() == k,
                forall|j: int|
                    0 <= j < k ==> *(#[trigger] facts@[j])
                        == self.nodes@[inputs@[j].node as int].outputs@[inputs@[j].slot as int],
            decreases inputs@.len() - k,
        {
            assert(outlet_exists(self.nodes@, inputs@[k as int]));
            facts.push(&self.nodes[inputs[k].node].outputs[inputs[k].slot]);
            k += 1;
        }
        assert(typed_ref_views(facts@) =~= typed_facts_at(self.nodes@, inputs@));
        let output_facts = match op.output_facts(&facts) {
            Ok(f) => f,
            Err(e) => {
                return Err(e);
            },
        };
        self.wire(name, op, inputs, output_facts)
    }
}

impl<P: PulsedOp> ModelImpl<PulsedFact, P> {
    /// Adds a node for `op` that reads `inputs`; the facts of its outputs
    /// are what the operator computes from the facts of the inputs. Refused,
    /// with the model unchanged, where the model lacks an input or the
    /// operator rejects the facts.
    pub fn wire_node(&mut self, name: String, op: P, inputs: &Vec<OutletId>) -> (r: TractResult<
        Vec<OutletId>,
    >)
        requires
            old(self).wf(),
        ensures
            final(self).wf(),
            r is Ok <==> outlets_exist(old(self).nodes@, inputs@) && op.pulsed_output_facts_spec(
                pulsed_facts_at(old(self).nodes@, inputs@),
            ) is Ok,
            r matches Ok(outlets) ==> {
                let id = old(self).nodes@.len();
                let added = final(self).nodes@.last();
                &&& final(self).nodes@.len() == id + 1
                &&& final(self).nodes@.drop_last() == old(self).nodes@
                &&& added.id == id
                &&& added.name == name
                &&& added.op == op
                &&& added.inputs@ == inputs@
                &&& Ok::<Seq<PulsedFactView>, ErrorKind>(pulsed_views(added.outputs@))
                    == op.pulsed_output_facts_spec(pulsed_facts_at(old(self).nodes@, inputs@))
                &&& outlets@ == Seq::new(
                    added.outputs@.len(),
                    |ix: int| OutletId { node: id as usize, slot: ix as usize },
                )
            },
            r matches Err(e) ==> final(self).nodes == old(self).nodes && e.kind == (if outlets_exist(
                old(self).nodes@,
                inputs@,
            ) {
                op.pulsed_output_facts_spec(pulsed_facts_at(old(self).nodes@, inputs@))->Err_0
            } else {
                ErrorKind::InvariantViolation
            }),
            final(self).inputs == old(self).inputs,
            final(self).outputs == old(self).outputs,
            final(self).outlet_labels == old(self).outlet_labels,
    {
        if !self.has_outlets(inputs) {
            return Err(TractError::new(ErrorKind::InvariantViolation, "no such outlet to read"));
        }
        let mut facts: Vec<&PulsedFact> = Vec::new();
        let mut k: usize = 0;
        while k < inputs.len()
            invariant
                k <= inputs@.len(),
                outlets_exist(self.nodes@, inputs@),
                facts@.len() == k,
                forall|j: int|
                    0 <= j < k ==> *(#[trigger] facts@[j])
                        == self.nodes@[inputs@[j].node as int].outputs@[inputs@[j].slot as int],
            decreases inputs@.len() - k,
        {
            assert(outlet_exists(self.nodes@, inputs@[k as int]));
            facts.push(&self.nodes[inputs[k].node].outputs[inputs[k].slot]);
            k += 1;
        }
        assert(pulsed_ref_views(facts@) =~= pulsed_facts_at(self.nodes@, inputs@));
        let output_facts = match op.pulsed_output_facts(&facts) {
            Ok(f) => f,
            Err(e) => {
                return Err(e);
            },
        };
        self.wire(name, op, inputs, output_facts)
    }
}

/// The fact that a patch holds for a wire.
pub open spec fn wire_fact_view<O>(patch: &ModelPatch<TypedFact, O>, wire: Wire) -> TypedFactView {
    match wire {
        Wire::Tapped(o) => patch.taps@[o]@,
        Wire::Staged(o) => patch.nodes@[o.node as int].outputs@[o.slot as int]@,
    }
}

/// The facts that a patch holds for the wires.
pub open spec fn wire_facts<O>(patch: &ModelPatch<TypedFact, O>, wires: Seq<Wire>) -> Seq<
    TypedFactView,
> {
    Seq::new(wires.len(), |k: int| wire_fact_view(patch, wires[k]))
}

/// Whether all the wires are wires of the patch.
pub open spec fn wires_ok<F, O>(patch: &ModelPatch<F, O>, wires: Seq<Wire>) -> bool {
    forall|k: int|
        0 <= k < wires.len() ==> patch.wire_ok(#[trigger] wires[k], patch.nodes@.len() as int)
}

impl<O: TypedOp<O>> ModelPatch<TypedFact, O> {
    /// Stages a node for `op` that reads the wires `inputs`; the facts of
    /// its outputs are what the operator computes from the facts of the
    /// wires. Refused, with the patch unchanged, where an input is no wire
    /// of the patch or the operator rejects the facts.
    pub fn wire_node(&mut self, name: String, op: O, inputs: &Vec<Wire>) -> (r: TractResult<Vec<Wire>>)
        requires
            old(self).wf(),
        ensures
            final(self).wf(),
            r is Ok <==> wires_ok(old(self), inputs@) && op.output_facts_spec(
                wire_facts(old(self), inputs@),
            ) is Ok,
            r matches Ok(wires) ==> {
                let id = old(self).nodes@.len();
                let added = final(self).nodes@.last();
                &&& final(self).nodes@.len() == id + 1
                &&& final(self).nodes@.drop_last() == old(self).nodes@
                &&& added.name == name
                &&& added.op == op
                &&& added.inputs@ == inputs@
                &&& Ok::<Seq<TypedFactView>, ErrorKind>(typed_views(added.outputs@))
                    == op.output_facts_spec(wire_facts(old(self), inputs@))
                &&& forall|k: int| 0 <= k < added.outputs@.len() ==> (#[trigger] added.outputs@[k]).wf()
                &&& wires@ == Seq::new(
                    added.outputs@.len(),
                    |ix: int| Wire::Staged(OutletId { node: id as usize, slot: ix as usize }),
                )
            },
            r matches Err(e) ==> final(self).nodes == old(self).nodes,
            final(self).taps == old(self).taps,
            final(self).shunts == old(self).shunts,
    {
        let mut facts: Vec<&TypedFact> = Vec::new();
        let mut k: usize = 0;
        while k < inputs.len()
            invariant
                k <= inputs@.len(),
                facts@.len() == k,
                *self == *old(self),
                self.wf(),
                forall|j: int|
                    0 <= j < k ==> self.wire_ok(#[trigger] inputs@[j], self.nodes@.len() as int),
                forall|j: int| 0 <= j < k ==> (#[trigger] facts@[j])@ == wire_fact_view(self, inputs@[j]),
            decreases inputs@.len() - k,
        {
            match self.wire_fact(inputs[k]) {
                Some(f) => {
                    facts.push(f);
                },
                None => {
                    return Err(TractError::new(ErrorKind::PatchApplication, "no such wire"));
                },
            }
            k += 1;
        }
        assert(typed_ref_views(facts@) =~= wire_facts(self, inputs@));
        let output_facts = match op.output_facts(&facts) {
            Ok(f) => f,
            Err(e) => {
                return Err(e);
            },
        };
        let mut wires: Vec<Wire> = Vec::new();
        let mut j: usize = 0;
        while j < inputs.len()
            invariant
                j <= inputs@.len(),
                wires@ == inputs@.take(j as int),
            decreases inputs@.len() - j,
        {
            wires.push(inputs[j]);
            assert(inputs@.take(j + 1) =~= inputs@.take(j as int).push(inputs@[j as int]));
            j += 1;
        }
        assert(inputs@.take(j as int) =~= inputs@);
        self.add_node(name, op, wires, output_facts)
    }
}

} // verus!
