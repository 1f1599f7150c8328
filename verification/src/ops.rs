//! What an operator can do, as traits that an operator type takes on one by
//! one: a name, pure evaluation, exact output facts, streaming output facts.
use vstd::prelude::*;
use crate::error::{ErrorKind, TractResult};
use crate::fact::{PulsedFact, PulsedFactView, TypedFact, TypedFactView};
use crate::model::{outlet_exists, BaseNode, ModelImpl};
use crate::outlet::{OutletId, OutletMap};
use crate::translator::{keeps_outlets, maps_into};
use crate::patch::ModelPatch;
use crate::tensor::{Tensor, TensorView};

verus! {

/// A copy of an operator. This is `dyn_clone::clone`, which hands `op` to the
/// type's own `clone`: the result is what that `clone` returns for `op`.
#[verifier::external_body]
pub(crate) fn clone_op<O: Clone>(op: &O) -> (r: O)
    ensures
        cloned::<O>(*op, r),
{
    dyn_clone::clone(op)
}

/// An operator: a name and a description, for diagnostics.
pub trait Op {
    /// The name of the kind of operator.
    spec fn spec_name(&self) -> Seq<char>;

    fn name(&self) -> (r: String)
        ensures
            r@ == self.spec_name(),
    ;

    /// What the operator is configured with, one line each.
    spec fn spec_info(&self) -> Seq<Seq<char>>;

    fn info(&self) -> (r: TractResult<Vec<String>>)
        ensures
            r matches Ok(lines) && lines.deep_view() == self.spec_info(),
    ;
}

/// The views of a list of tensors.
pub open spec fn tensor_views(tensors: Seq<Tensor>) -> Seq<TensorView> {
    tensors.map_values(|t: Tensor| t@)
}

/// The view of the result of an evaluation.
pub open spec fn eval_view(r: TractResult<Vec<Tensor>>) -> Result<Seq<TensorView>, ErrorKind> {
    match r {
        Ok(tensors) => Ok(tensor_views(tensors@)),
        Err(e) => Err(e.kind),
    }
}

/// An operator with pure evaluation: what it returns is a function of the
/// tensors it is given.
pub trait StatelessOp {
    /// What evaluation returns for the given inputs.
    spec fn eval_spec(&self, inputs: Seq<TensorView>) -> Result<Seq<TensorView>, ErrorKind>;

    fn eval(&self, inputs: Vec<Tensor>) -> (r: TractResult<Vec<Tensor>>)
        ensures
            eval_view(r) == self.eval_spec(tensor_views(inputs@)),
    ;
}

/// One axis that an operator leaves as it is: for each input and each output
/// of the node, the place of that axis in it, if it is there at all.
#[derive(Debug)]
pub struct AxisInfo {
    pub inputs: Vec<Option<usize>>,
    pub outputs: Vec<Option<usize>>,
    /// Every `period` steps along the axis the operator does the same.
    pub period: usize,
    /// Whether the axis can be dropped where its size is one.
    pub disposable: bool,
}

/// An `AxisInfo` as contracts speak of it.
pub struct AxisInfoView {
    pub inputs: Seq<Option<usize>>,
    pub outputs: Seq<Option<usize>>,
    pub period: usize,
    pub disposable: bool,
}

impl View for AxisInfo {
    type V = AxisInfoView;

    open spec fn view(&self) -> AxisInfoView {
        AxisInfoView {
            inputs: self.inputs@,
            outputs: self.outputs@,
            period: self.period,
            disposable: self.disposable,
        }
    }
}

impl AxisInfoView {
    /// Whether the axis is the axis `axis` of the input `slot`.
    pub open spec fn on_input(self, slot: int, axis: usize) -> bool {
        0 <= slot < self.inputs.len() && self.inputs[slot] == Some(axis)
    }

    /// Whether the axis is the axis `axis` of the output `slot`.
    pub open spec fn on_output(self, slot: int, axis: usize) -> bool {
        0 <= slot < self.outputs.len() && self.outputs[slot] == Some(axis)
    }
}

impl AxisInfo {
    pub fn on_input(&self, slot: usize, axis: usize) -> (r: bool)
        ensures
            r == self@.on_input(slot as int, axis),
    {
        if slot < self.inputs.len() {
            match self.inputs[slot] {
                Some(a) => a == axis,
                None => false,
            }
        } else {
            false
        }
    }

    pub fn on_output(&self, slot: usize, axis: usize) -> (r: bool)
        ensures
            r == self@.on_output(slot as int, axis),
    {
        if slot < self.outputs.len() {
            match self.outputs[slot] {
                Some(a) => a == axis,
                None => false,
            }
        } else {
            false
        }
    }
}

/// The axes that an operator leaves as they are.
#[derive(Debug)]
pub struct Invariants {
    pub axes: Vec<AxisInfo>,
}

impl View for Invariants {
    type V = Seq<AxisInfoView>;

    open spec fn view(&self) -> Seq<AxisInfoView> {
        self.axes@.map_values(|a: AxisInfo| a@)
    }
}

impl Invariants {
    /// No axis.
    pub fn none() -> (r: Invariants)
        ensures
            r@ == Seq::<AxisInfoView>::empty(),
    {
        let r = Invariants { axes: Vec::new() };
        assert(r@ =~= Seq::<AxisInfoView>::empty());
        r
    }

    /// The first of the axes that is the axis `axis` of the input `slot`.
    pub fn track_input_axis(&self, slot: usize, axis: usize) -> (r: Option<usize>)
        ensures
            match r {
                Some(i) => i < self@.len() && self@[i as int].on_input(slot as int, axis) && forall|
                    j: int,
                | 0 <= j < i ==> !(#[trigger] self@[j]).on_input(slot as int, axis),
                None => forall|j: int|
                    0 <= j < self@.len() ==> !(#[trigger] self@[j]).on_input(slot as int, axis),
            },
    {
        let mut i: usize = 0;
        while i < self.axes.len()
            invariant
                i <= self.axes@.len(),
                forall|j: int| 0 <= j < i ==> !(#[trigger] self@[j]).on_input(slot as int, axis),
            decreases self.axes@.len() - i,
        {
            if self.axes[i].on_input(slot, axis) {
                return Some(i);
            }
            i += 1;
        }
        None
    }

    /// The first of the axes that is the axis `axis` of the output `slot`.
    pub fn track_output_axis(&self, slot: usize, axis: usize) -> (r: Option<usize>)
        ensures
            match r {
                Some(i) => i < self@.len() && self@[i as int].on_output(slot as int, axis)
                    && forall|j: int|
                    0 <= j < i ==> !(#[trigger] self@[j]).on_output(slot as int, axis),
                None => forall|j: int|
                    0 <= j < self@.len() ==> !(#[trigger] self@[j]).on_output(slot as int, axis),
            },
    {
        let mut i: usize = 0;
        while i < self.axes.len()
            invariant
                i <= self.axes@.len(),
                forall|j: int| 0 <= j < i ==> !(#[trigger] self@[j]).on_output(slot as int, axis),
            decreases self.axes@.len() - i,
        {
            if self.axes[i].on_output(slot, axis) {
                return Some(i);
            }
            i += 1;
        }
        None
    }
}

/// The views of a list of resolved facts.
pub open spec fn typed_views(facts: Seq<TypedFact>) -> Seq<TypedFactView> {
    facts.map_values(|f: TypedFact| f@)
}

/// The views of a list of borrowed resolved facts.
pub open spec fn typed_ref_views(facts: Seq<&TypedFact>) -> Seq<TypedFactView> {
    facts.map_values(|f: &TypedFact| f@)
}

/// The view of a result that holds resolved facts.
pub open spec fn typed_result_view(r: TractResult<Vec<TypedFact>>) -> Result<
    Seq<TypedFactView>,
    ErrorKind,
> {
    match r {
        Ok(facts) => Ok(typed_views(facts@)),
        Err(e) => Err(e.kind),
    }
}

/// The view of a result that holds invariants.
pub open spec fn invariants_result_view(r: TractResult<Invariants>) -> Result<
    Seq<AxisInfoView>,
    ErrorKind,
> {
    match r {
        Ok(inv) => Ok(inv@),
        Err(e) => Err(e.kind),
    }
}

/// A container of operators that can be asked whether it holds an operator
/// of the kind `T`, and hands it out if so.
pub trait OpAs<T> {
    spec fn op_as_spec(&self) -> Option<T>;

    fn op_as(&self) -> (r: Option<&T>)
        ensures
            r is Some <==> self.op_as_spec() is Some,
            r matches Some(t) ==> *t == self.op_as_spec().unwrap(),
    ;
}

/// An operator of a fully resolved model whose operators are held as `O`.
pub trait TypedOp<O>: Op {
    /// The exact facts of the outputs, given the exact facts of the inputs.
    spec fn output_facts_spec(&self, inputs: Seq<TypedFactView>) -> Result<
        Seq<TypedFactView>,
        ErrorKind,
    >;

    fn output_facts(&self, inputs: &Vec<&TypedFact>) -> (r: TractResult<Vec<TypedFact>>)
        ensures
            typed_result_view(r) == self.output_facts_spec(typed_ref_views(inputs@)),
            r matches Ok(facts) ==> forall|k: int| 0 <= k < facts@.len() ==> (#[trigger] facts@[k]).wf(),
    ;

    /// The axes that the operator, as the node `node` of `model`, leaves as
    /// they are.
    spec fn invariants_spec(
        &self,
        model: &ModelImpl<TypedFact, O>,
        node: &BaseNode<TypedFact, O>,
    ) -> Result<Seq<AxisInfoView>, ErrorKind>;

    fn invariants(&self, model: &ModelImpl<TypedFact, O>, node: &BaseNode<TypedFact, O>) -> (r:
        TractResult<Invariants>)
        requires
            model.wf(),
            node.id < model.nodes@.len(),
            *node == model.nodes@[node.id as int],
        ensures
            invariants_result_view(r) == self.invariants_spec(model, node),
    ;

    /// Whether `r` is an answer of the operator, as the node `node` of
    /// `model`, when it is asked to work without one axis of size one, which
    /// stands in each input at the place that `axes` gives.
    spec fn disposes(
        &self,
        model: &ModelImpl<TypedFact, O>,
        node: &BaseNode<TypedFact, O>,
        axes: Seq<Option<usize>>,
        r: TractResult<Option<O>>,
    ) -> bool;

    /// The operator without one axis of size one: `axes` gives, for each
    /// input, the place of that axis in it. `None` where the operator can
    /// stay as it is.
    fn dispose_dummy_axis(
        &self,
        model: &ModelImpl<TypedFact, O>,
        node: &BaseNode<TypedFact, O>,
        axes: &Vec<Option<usize>>,
    ) -> (r: TractResult<Option<O>>)
        requires
            model.wf(),
            node.id < model.nodes@.len(),
            *node == model.nodes@[node.id as int],
        ensures
            self.disposes(model, node, axes@, r),
    ;

}

/// An operator of a fully resolved model, held as `O`, that may know how to
/// make the model simpler around itself.
pub trait DeclutterOp<O>: TypedOp<O> {
    /// Whether the operator, as the node `node` of `model`, knows a rewrite
    /// that makes the model simpler.
    spec fn proposes(&self, model: &ModelImpl<TypedFact, O>, node: &BaseNode<TypedFact, O>) -> bool;

    /// Whether the operator, as the node `node` of `model`, is sure to
    /// answer when it is asked for a rewrite, with one or with none.
    spec fn answers(&self, model: &ModelImpl<TypedFact, O>, node: &BaseNode<TypedFact, O>) -> bool;

    /// Whether `patch` is a rewrite that the operator, as the node `node` of
    /// `model`, may propose.
    spec fn proposal(
        &self,
        model: &ModelImpl<TypedFact, O>,
        node: &BaseNode<TypedFact, O>,
        patch: &ModelPatch<TypedFact, O>,
    ) -> bool;

    /// A rewrite that makes the model simpler around `node`, if the operator
    /// knows one. The patch it proposes is one of its proposals, and fits
    /// the model it was made for. It does not fail where the operator is
    /// sure to answer.
    fn declutter(&self, model: &ModelImpl<TypedFact, O>, node: &BaseNode<TypedFact, O>) -> (r:
        TractResult<Option<ModelPatch<TypedFact, O>>>)
        requires
            model.wf(),
            node.id < model.nodes@.len(),
            *node == model.nodes@[node.id as int],
        ensures
            r matches Ok(Some(patch)) ==> patch.wf() && patch.fits(model.nodes@) && self.proposes(
                model,
                node,
            ) && self.proposal(model, node, &patch),
            r matches Ok(None) ==> !self.proposes(model, node),
            self.answers(model, node) ==> r is Ok,
    ;
}

/// The views of a list of pulsed facts.
pub open spec fn pulsed_views(facts: Seq<PulsedFact>) -> Seq<PulsedFactView> {
    facts.map_values(|f: PulsedFact| f@)
}

/// The views of a list of borrowed pulsed facts.
pub open spec fn pulsed_ref_views(facts: Seq<&PulsedFact>) -> Seq<PulsedFactView> {
    facts.map_values(|f: &PulsedFact| f@)
}

/// The view of a result that holds pulsed facts.
pub open spec fn pulsed_result_view(r: TractResult<Vec<PulsedFact>>) -> Result<
    Seq<PulsedFactView>,
    ErrorKind,
> {
    match r {
        Ok(facts) => Ok(pulsed_views(facts@)),
        Err(e) => Err(e.kind),
    }
}

/// An operator of a streaming model.
pub trait PulsedOp: Op {
    /// The facts of the outputs of one pulse, given those of the inputs.
    spec fn pulsed_output_facts_spec(&self, inputs: Seq<PulsedFactView>) -> Result<
        Seq<PulsedFactView>,
        ErrorKind,
    >;

    fn pulsed_output_facts(&self, inputs: &Vec<&PulsedFact>) -> (r: TractResult<Vec<PulsedFact>>)
        ensures
            pulsed_result_view(r) == self.pulsed_output_facts_spec(pulsed_ref_views(inputs@)),
    ;
}

/// An operator of a resolved model, held as `O`, that can be lowered into a
/// streaming model whose operators are held as `P`.
pub trait PulsifyOp<O, P>: TypedOp<O> {
    /// Lowers the node into nodes of the streaming model `target`, for
    /// pulses of length `pulse`, and returns the outlets that stand for its
    /// outputs.
    fn pulsify(
        &self,
        source: &ModelImpl<TypedFact, O>,
        node: &BaseNode<TypedFact, O>,
        target: &mut ModelImpl<PulsedFact, P>,
        mapping: &OutletMap<OutletId>,
        pulse: usize,
    ) -> (r: TractResult<Vec<OutletId>>)
        requires
            source.wf(),
            node.id < source.nodes@.len(),
            *node == source.nodes@[node.id as int],
            old(target).wf(),
            maps_into(mapping@, old(target).nodes@),
        ensures
            final(target).wf(),
            keeps_outlets(old(target).nodes@, final(target).nodes@),
            r matches Ok(outlets) ==> forall|k: int|
                0 <= k < outlets@.len() ==> outlet_exists(final(target).nodes@, #[trigger] outlets@[k]),
    ;
}

} // verus!
