//! Operator types that can hold any of the operators of this library, one
//! for each kind of model.
use vstd::prelude::*;
use vstd::std_specs::convert::FromSpecImpl;
use crate::add_dims::{shifted, AddDim};
use crate::error::{ErrorKind, TractError, TractResult};
use crate::fact::{InferenceFact, InferenceFactView, PulsedFact, PulsedFactView, TypedFact, TypedFactView};
use crate::infer::{infer_facts_by_rules, rules_outcome, InferenceOp, Inferred, InferredView};
use crate::solver::copy_fact_refs;
use crate::model::{BaseNode, ModelImpl};
use crate::ops::{
    AxisInfoView, DeclutterOp, Invariants, Op, OpAs, PulsedOp, StatelessOp, TypedOp,
};
use crate::outlet::{OutletId, OutletMap};
use crate::patch::ModelPatch;
use crate::elide::{gives_invariants, goes_through, rewrites};
use crate::rm_dims::{entangled, lowers, RmDim, RmDims};
use crate::translator::can_be_ordered;
use crate::source::{lowers_source, Source};
use crate::tensor::{Tensor, TensorView};

verus! {

/// An operator of a resolved model.
#[derive(Clone, Copy, Debug, PartialEq, Eq, Structural)]
pub enum AnyTypedOp {
    Source(Source),
    AddDim(AddDim),
    RmDim(RmDim),
}

/// An operator of a streaming model.
#[derive(Clone, Copy, Debug, PartialEq, Eq, Structural)]
pub enum AnyPulsedOp {
    Source(Source),
    RmDim(RmDim),
}

/// An operator of a model under inference.
#[derive(Clone, Debug)]
pub enum AnyInferenceOp {
    Source(Source),
    RmDims(RmDims),
}

impl From<Source> for AnyTypedOp {
    fn from(op: Source) -> (r: AnyTypedOp) {
        AnyTypedOp::Source(op)
    }
}

impl FromSpecImpl<Source> for AnyTypedOp {
    open spec fn obeys_from_spec() -> bool {
        true
    }

    open spec fn from_spec(op: Source) -> AnyTypedOp {
        AnyTypedOp::Source(op)
    }
}

impl From<AddDim> for AnyTypedOp {
    fn from(op: AddDim) -> (r: AnyTypedOp) {
        AnyTypedOp::AddDim(op)
    }
}

impl FromSpecImpl<AddDim> for AnyTypedOp {
    open spec fn obeys_from_spec() -> bool {
        true
    }

    open spec fn from_spec(op: AddDim) -> AnyTypedOp {
        AnyTypedOp::AddDim(op)
    }
}

impl From<RmDim> for AnyTypedOp {
    fn from(op: RmDim) -> (r: AnyTypedOp) {
        AnyTypedOp::RmDim(op)
    }
}

impl FromSpecImpl<RmDim> for AnyTypedOp {
    open spec fn obeys_from_spec() -> bool {
        true
    }

    open spec fn from_spec(op: RmDim) -> AnyTypedOp {
        AnyTypedOp::RmDim(op)
    }
}

impl From<Source> for AnyPulsedOp {
    fn from(op: Source) -> (r: AnyPulsedOp) {
        AnyPulsedOp::Source(op)
    }
}

impl FromSpecImpl<Source> for AnyPulsedOp {
    open spec fn obeys_from_spec() -> bool {
        true
    }

    open spec fn from_spec(op: Source) -> AnyPulsedOp {
        AnyPulsedOp::Source(op)
    }
}

impl From<RmDim> for AnyPulsedOp {
    fn from(op: RmDim) -> (r: AnyPulsedOp) {
        AnyPulsedOp::RmDim(op)
    }
}

impl FromSpecImpl<RmDim> for AnyPulsedOp {
    open spec fn obeys_from_spec() -> bool {
        true
    }

    open spec fn from_spec(op: RmDim) -> AnyPulsedOp {
        AnyPulsedOp::RmDim(op)
    }
}

impl From<Source> for AnyInferenceOp {
    fn from(op: Source) -> (r: AnyInferenceOp) {
        AnyInferenceOp::Source(op)
    }
}

impl FromSpecImpl<Source> for AnyInferenceOp {
    open spec fn obeys_from_spec() -> bool {
        true
    }

    open spec fn from_spec(op: Source) -> AnyInferenceOp {
        AnyInferenceOp::Source(op)
    }
}

impl From<RmDims> for AnyInferenceOp {
    fn from(op: RmDims) -> (r: AnyInferenceOp) {
        AnyInferenceOp::RmDims(op)
    }
}

impl FromSpecImpl<RmDims> for AnyInferenceOp {
    open spec fn obeys_from_spec() -> bool {
        true
    }

    open spec fn from_spec(op: RmDims) -> AnyInferenceOp {
        AnyInferenceOp::RmDims(op)
    }
}

impl OpAs<RmDim> for AnyTypedOp {
    open spec fn op_as_spec(&self) -> Option<RmDim> {
        match self {
            AnyTypedOp::RmDim(op) => Some(*op),
            _ => None,
        }
    }

    fn op_as(&self) -> (r: Option<&RmDim>) {
        match self {
            AnyTypedOp::RmDim(op) => Some(op),
            _ => None,
        }
    }
}

impl OpAs<AddDim> for AnyTypedOp {
    open spec fn op_as_spec(&self) -> Option<AddDim> {
        match self {
            AnyTypedOp::AddDim(op) => Some(*op),
            _ => None,
        }
    }

    fn op_as(&self) -> (r: Option<&AddDim>) {
        match self {
            AnyTypedOp::AddDim(op) => Some(op),
            _ => None,
        }
    }
}

impl Op for AnyTypedOp {
    open spec fn spec_name(&self) -> Seq<char> {
        match self {
            AnyTypedOp::Source(op) => op.spec_name(),
            AnyTypedOp::AddDim(op) => op.spec_name(),
            AnyTypedOp::RmDim(op) => op.spec_name(),
        }
    }

    fn name(&self) -> (r: String) {
        match self {
            AnyTypedOp::Source(op) => op.name(),
            AnyTypedOp::AddDim(op) => op.name(),
            AnyTypedOp::RmDim(op) => op.name(),
        }
    }

    open spec fn spec_info(&self) -> Seq<Seq<char>> {
        match self {
            AnyTypedOp::Source(op) => op.spec_info(),
            AnyTypedOp::AddDim(op) => op.spec_info(),
            AnyTypedOp::RmDim(op) => op.spec_info(),
        }
    }

    fn info(&self) -> (r: TractResult<Vec<String>>) {
        match self {
            AnyTypedOp::Source(op) => op.info(),
            AnyTypedOp::AddDim(op) => op.info(),
            AnyTypedOp::RmDim(op) => op.info(),
        }
    }
}

impl TypedOp<AnyTypedOp> for AnyTypedOp {
    open spec fn output_facts_spec(&self, inputs: Seq<TypedFactView>) -> Result<
        Seq<TypedFactView>,
        ErrorKind,
    > {
        match self {
            AnyTypedOp::Source(op) => TypedOp::<AnyTypedOp>::output_facts_spec(op, inputs),
            AnyTypedOp::AddDim(op) => TypedOp::<AnyTypedOp>::output_facts_spec(op, inputs),
            AnyTypedOp::RmDim(op) => TypedOp::<AnyTypedOp>::output_facts_spec(op, inputs),
        }
    }

    fn output_facts(&self, inputs: &Vec<&TypedFact>) -> (r: TractResult<Vec<TypedFact>>) {
        match self {
            AnyTypedOp::Source(op) => TypedOp::<AnyTypedOp>::output_facts(op, inputs),
            AnyTypedOp::AddDim(op) => TypedOp::<AnyTypedOp>::output_facts(op, inputs),
            AnyTypedOp::RmDim(op) => TypedOp::<AnyTypedOp>::output_facts(op, inputs),
        }
    }

    open spec fn invariants_spec(
        &self,
        model: &ModelImpl<TypedFact, AnyTypedOp>,
        node: &BaseNode<TypedFact, AnyTypedOp>,
    ) -> Result<Seq<AxisInfoView>, ErrorKind> {
        match self {
            AnyTypedOp::Source(op) => op.invariants_spec(model, node),
            AnyTypedOp::AddDim(op) => op.invariants_spec(model, node),
            AnyTypedOp::RmDim(op) => op.invariants_spec(model, node),
        }
    }

    fn invariants(
        &self,
        model: &ModelImpl<TypedFact, AnyTypedOp>,
        node: &BaseNode<TypedFact, AnyTypedOp>,
    ) -> (r: TractResult<Invariants>) {
        match self {
            AnyTypedOp::Source(op) => op.invariants(model, node),
            AnyTypedOp::AddDim(op) => op.invariants(model, node),
            AnyTypedOp::RmDim(op) => op.invariants(model, node),
        }
    }

    /// The answer of the operator that is held.
    open spec fn disposes(
        &self,
        model: &ModelImpl<TypedFact, AnyTypedOp>,
        node: &BaseNode<TypedFact, AnyTypedOp>,
        axes: Seq<Option<usize>>,
        r: TractResult<Option<AnyTypedOp>>,
    ) -> bool {
        match self {
            AnyTypedOp::Source(op) => r matches Ok(None),
            AnyTypedOp::AddDim(op) => if axes.len() > 0 && axes[0] is Some {
                r == Ok::<Option<AnyTypedOp>, TractError>(
                    Some(AnyTypedOp::AddDim(AddDim { axis: shifted(op.axis, axes[0].unwrap()) })),
                )
            } else {
                r matches Err(e) && e.kind == ErrorKind::InvariantViolation
            },
            AnyTypedOp::RmDim(op) => if axes.len() > 0 && axes[0] is Some {
                r == Ok::<Option<AnyTypedOp>, TractError>(
                    Some(AnyTypedOp::RmDim(RmDim { axis: shifted(op.axis, axes[0].unwrap()) })),
                )
            } else {
                r matches Err(e) && e.kind == ErrorKind::InvariantViolation
            },
        }
    }

    fn dispose_dummy_axis(
        &self,
        model: &ModelImpl<TypedFact, AnyTypedOp>,
        node: &BaseNode<TypedFact, AnyTypedOp>,
        axes: &Vec<Option<usize>>,
    ) -> (r: TractResult<Option<AnyTypedOp>>)
    {
        match self {
            AnyTypedOp::Source(op) => op.dispose_dummy_axis(model, node, axes),
            AnyTypedOp::AddDim(op) => op.dispose_dummy_axis(model, node, axes),
            AnyTypedOp::RmDim(op) => op.dispose_dummy_axis(model, node, axes),
        }
    }
}

impl DeclutterOp<AnyTypedOp> for AnyTypedOp {
    open spec fn proposes(
        &self,
        model: &ModelImpl<TypedFact, AnyTypedOp>,
        node: &BaseNode<TypedFact, AnyTypedOp>,
    ) -> bool {
        match self {
            AnyTypedOp::Source(op) => op.proposes(model, node),
            AnyTypedOp::AddDim(op) => op.proposes(model, node),
            AnyTypedOp::RmDim(op) => op.proposes(model, node),
        }
    }

    open spec fn answers(
        &self,
        model: &ModelImpl<TypedFact, AnyTypedOp>,
        node: &BaseNode<TypedFact, AnyTypedOp>,
    ) -> bool {
        match self {
            AnyTypedOp::Source(op) => op.answers(model, node),
            AnyTypedOp::AddDim(op) => op.answers(model, node),
            AnyTypedOp::RmDim(op) => op.answers(model, node),
        }
    }

    open spec fn proposal(
        &self,
        model: &ModelImpl<TypedFact, AnyTypedOp>,
        node: &BaseNode<TypedFact, AnyTypedOp>,
        patch: &ModelPatch<TypedFact, AnyTypedOp>,
    ) -> bool {
        match self {
            AnyTypedOp::Source(op) => op.proposal(model, node, patch),
            AnyTypedOp::AddDim(op) => op.proposal(model, node, patch),
            AnyTypedOp::RmDim(op) => op.proposal(model, node, patch),
        }
    }

    fn declutter(
        &self,
        model: &ModelImpl<TypedFact, AnyTypedOp>,
        node: &BaseNode<TypedFact, AnyTypedOp>,
    ) -> (r: TractResult<Option<ModelPatch<TypedFact, AnyTypedOp>>>)
        ensures
            match self {
                AnyTypedOp::RmDim(op) => {
                    let seed = (node.inputs@[0], op.axis);
                    &&& node.inputs@.len() == 0 ==> r is Err
                    &&& r matches Ok(Some(patch)) ==> forall|order: Seq<usize>| #[trigger]
                        model.is_eval_order(order) ==> rewrites(model, seed, order, &patch)
                    &&& node.inputs@.len() > 0 && gives_invariants(model) && !entangled(model, seed)
                        && !can_be_ordered(model) ==> r is Err
                    &&& node.inputs@.len() > 0 && gives_invariants(model) && !entangled(model, seed)
                        && can_be_ordered(model) && (forall|n: int| #[trigger]
                        model.needs(n) ==> !goes_through(model, seed, n as usize)) ==> r matches Ok(
                        Some(_),
                    )
                },
                _ => r matches Ok(None),
            },
    {
        match self {
            AnyTypedOp::Source(op) => op.declutter(model, node),
            AnyTypedOp::AddDim(op) => op.declutter(model, node),
            AnyTypedOp::RmDim(op) => op.declutter(model, node),
        }
    }
}

impl Op for AnyPulsedOp {
    open spec fn spec_name(&self) -> Seq<char> {
        match self {
            AnyPulsedOp::Source(op) => op.spec_name(),
            AnyPulsedOp::RmDim(op) => op.spec_name(),
        }
    }

    fn name(&self) -> (r: String) {
        match self {
            AnyPulsedOp::Source(op) => op.name(),
            AnyPulsedOp::RmDim(op) => op.name(),
        }
    }

    open spec fn spec_info(&self) -> Seq<Seq<char>> {
        match self {
            AnyPulsedOp::Source(op) => op.spec_info(),
            AnyPulsedOp::RmDim(op) => op.spec_info(),
        }
    }

    fn info(&self) -> (r: TractResult<Vec<String>>) {
        match self {
            AnyPulsedOp::Source(op) => op.info(),
            AnyPulsedOp::RmDim(op) => op.info(),
        }
    }
}

impl PulsedOp for AnyPulsedOp {
    open spec fn pulsed_output_facts_spec(&self, inputs: Seq<PulsedFactView>) -> Result<
        Seq<PulsedFactView>,
        ErrorKind,
    > {
        match self {
            AnyPulsedOp::Source(op) => op.pulsed_output_facts_spec(inputs),
            AnyPulsedOp::RmDim(op) => op.pulsed_output_facts_spec(inputs),
        }
    }

    fn pulsed_output_facts(&self, inputs: &Vec<&PulsedFact>) -> (r: TractResult<Vec<PulsedFact>>) {
        match self {
            AnyPulsedOp::Source(op) => op.pulsed_output_facts(inputs),
            AnyPulsedOp::RmDim(op) => op.pulsed_output_facts(inputs),
        }
    }
}

impl Op for AnyInferenceOp {
    open spec fn spec_name(&self) -> Seq<char> {
        match self {
            AnyInferenceOp::Source(op) => op.spec_name(),
            AnyInferenceOp::RmDims(op) => op.spec_name(),
        }
    }

    fn name(&self) -> (r: String) {
        match self {
            AnyInferenceOp::Source(op) => op.name(),
            AnyInferenceOp::RmDims(op) => op.name(),
        }
    }

    open spec fn spec_info(&self) -> Seq<Seq<char>> {
        match self {
            AnyInferenceOp::Source(op) => op.spec_info(),
            AnyInferenceOp::RmDims(op) => op.spec_info(),
        }
    }

    fn info(&self) -> (r: TractResult<Vec<String>>) {
        match self {
            AnyInferenceOp::Source(op) => op.info(),
            AnyInferenceOp::RmDims(op) => op.info(),
        }
    }
}

impl InferenceOp<AnyInferenceOp, AnyTypedOp> for AnyInferenceOp {
    /// A source learns nothing; the axis-removing operator infers by its
    /// rules.
    open spec fn infer_facts_spec(
        &self,
        inputs: Seq<InferenceFactView>,
        outputs: Seq<InferenceFactView>,
        observed: Seq<InferenceFactView>,
    ) -> Result<InferredView, ErrorKind> {
        match self {
            AnyInferenceOp::Source(op) => Ok(InferredView { inputs, outputs, observed }),
            AnyInferenceOp::RmDims(op) => rules_outcome(op, inputs, outputs, observed),
        }
    }

    open spec fn stateless_spec(&self) -> bool {
        self is RmDims
    }

    open spec fn eager_eval_spec(&self, inputs: Seq<TensorView>) -> Result<Seq<TensorView>, ErrorKind> {
        match self {
            AnyInferenceOp::Source(op) => Err(ErrorKind::Evaluation),
            AnyInferenceOp::RmDims(op) => op.eval_spec(inputs),
        }
    }

    fn infer_facts(
        &mut self,
        inputs: Vec<&InferenceFact>,
        outputs: Vec<&InferenceFact>,
        observed: Vec<&InferenceFact>,
    ) -> (r: TractResult<Inferred>)
        ensures
            *final(self) == *old(self),
    {
        match &*self {
            AnyInferenceOp::Source(op) => Ok(
                (copy_fact_refs(&inputs), copy_fact_refs(&outputs), copy_fact_refs(&observed)),
            ),
            AnyInferenceOp::RmDims(op) => infer_facts_by_rules(op, &inputs, &outputs, &observed),
        }
    }

    fn is_stateless(&self) -> (r: bool) {
        match self {
            AnyInferenceOp::Source(op) => false,
            AnyInferenceOp::RmDims(op) => true,
        }
    }

    fn eval_stateless(&self, inputs: Vec<Tensor>) -> (r: TractResult<Vec<Tensor>>) {
        match self {
            AnyInferenceOp::Source(op) => Err(
                TractError::new(ErrorKind::Evaluation, "a source is not evaluated"),
            ),
            AnyInferenceOp::RmDims(op) => op.eval(inputs),
        }
    }

    /// The lowering of the operator that is held.
    open spec fn typed_as(
        &self,
        source: &ModelImpl<InferenceFact, AnyInferenceOp>,
        node: &BaseNode<InferenceFact, AnyInferenceOp>,
        before: &ModelImpl<TypedFact, AnyTypedOp>,
        mapping: Map<OutletId, OutletId>,
        after: &ModelImpl<TypedFact, AnyTypedOp>,
        r: TractResult<Vec<OutletId>>,
    ) -> bool {
        match self {
            AnyInferenceOp::Source(op) => lowers_source(node, *before, *after, r),
            AnyInferenceOp::RmDims(op) => {
                &&& node.inputs@.len() > 0
                &&& mapping.contains_key(node.inputs@[0])
                &&& lowers(
                    op.axes@,
                    node.name@,
                    mapping[node.inputs@[0]],
                    before.nodes@,
                    after.nodes@,
                    r,
                )
                &&& after.inputs == before.inputs
                &&& after.outputs == before.outputs
                &&& after.outlet_labels == before.outlet_labels
            },
        }
    }

    fn to_typed(
        &self,
        source: &ModelImpl<InferenceFact, AnyInferenceOp>,
        node: &BaseNode<InferenceFact, AnyInferenceOp>,
        target: &mut ModelImpl<TypedFact, AnyTypedOp>,
        mapping: &OutletMap<OutletId>,
    ) -> (r: TractResult<Vec<OutletId>>)
        ensures
            match self {
                AnyInferenceOp::Source(op) => lowers_source(node, *old(target), *final(target), r),
                AnyInferenceOp::RmDims(op) => {
                    &&& (node.inputs@.len() == 0 || !mapping@.contains_key(node.inputs@[0])) ==> r is Err
                        && *final(target) == *old(target)
                    &&& node.inputs@.len() > 0 && mapping@.contains_key(node.inputs@[0]) ==> lowers(
                        op.axes@,
                        node.name@,
                        mapping@[node.inputs@[0]],
                        old(target).nodes@,
                        final(target).nodes@,
                        r,
                    )
                    &&& final(target).inputs == old(target).inputs
                    &&& final(target).outputs == old(target).outputs
                    &&& final(target).outlet_labels == old(target).outlet_labels
                },
            },
    {
        match self {
            AnyInferenceOp::Source(op) => op.lower(source, node, target, mapping),
            AnyInferenceOp::RmDims(op) => op.lower(source, node, target, mapping),
        }
    }
}

} // verus!
