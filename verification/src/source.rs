//! The operator of the nodes that stand for the inputs of a model.
use vstd::prelude::*;
use vstd::std_specs::convert::FromSpec;
use vstd::string::StringExecFns;
use crate::error::{ErrorKind, TractError, TractResult};
use crate::fact::{
    concrete_dims, shape_is_concrete, stream_count, InferenceFact, InferenceFactView, PulsedFact,
    PulsedFactView, TypedFact, TypedFactView,
};
use crate::infer::{InferenceOp, Inferred, InferredView};
use crate::model::{outlet_exists, BaseNode, ModelImpl};
use crate::ops::{
    AxisInfoView, DeclutterOp, Invariants, Op, PulsedOp, StatelessOp, TypedOp,
};
use crate::outlet::{OutletId, OutletMap};
use crate::patch::ModelPatch;
use crate::solver::copy_fact_refs;
use crate::tensor::{Tensor, TensorView};
use crate::text::text_of;
use crate::translator::keeps_outlets;

verus! {

/// The operator of a node that stands for an input of the model: it reads
/// nothing, and its output is what the caller feeds in.
#[derive(Clone, Copy, Debug, PartialEq, Eq, Structural)]
pub struct Source;

impl Op for Source {
    open spec fn spec_name(&self) -> Seq<char> {
        "Source"@
    }

    fn name(&self) -> (r: String) {
        text_of("Source")
    }

    open spec fn spec_info(&self) -> Seq<Seq<char>> {
        Seq::empty()
    }

    fn info(&self) -> (r: TractResult<Vec<String>>) {
        let lines: Vec<String> = Vec::new();
        assert(lines.deep_view() =~= Seq::<Seq<char>>::empty());
        Ok(lines)
    }
}

impl<O> TypedOp<O> for Source {
    /// A source computes no fact: its fact is given with the node.
    open spec fn output_facts_spec(&self, inputs: Seq<TypedFactView>) -> Result<
        Seq<TypedFactView>,
        ErrorKind,
    > {
        Err(ErrorKind::InvariantViolation)
    }

    fn output_facts(&self, inputs: &Vec<&TypedFact>) -> (r: TractResult<Vec<TypedFact>>) {
        Err(TractError::new(ErrorKind::InvariantViolation, "the fact of a source is given, not computed"))
    }

    /// A source reads nothing, so it leaves no axis of an input as it is.
    open spec fn invariants_spec(
        &self,
        model: &ModelImpl<TypedFact, O>,
        node: &BaseNode<TypedFact, O>,
    ) -> Result<Seq<AxisInfoView>, ErrorKind> {
        Ok(Seq::empty())
    }

    fn invariants(&self, model: &ModelImpl<TypedFact, O>, node: &BaseNode<TypedFact, O>) -> (r:
        TractResult<Invariants>) {
        Ok(Invariants::none())
    }

    /// The operator stays as it is.
    open spec fn disposes(
        &self,
        model: &ModelImpl<TypedFact, O>,
        node: &BaseNode<TypedFact, O>,
        axes: Seq<Option<usize>>,
        r: TractResult<Option<O>>,
    ) -> bool {
        r matches Ok(None)
    }

    fn dispose_dummy_axis(
        &self,
        model: &ModelImpl<TypedFact, O>,
        node: &BaseNode<TypedFact, O>,
        axes: &Vec<Option<usize>>,
    ) -> (r: TractResult<Option<O>>) {
        Ok(None)
    }
}

impl<O> DeclutterOp<O> for Source {
    /// The operator knows no rewrite.
    open spec fn proposes(&self, model: &ModelImpl<TypedFact, O>, node: &BaseNode<TypedFact, O>) -> bool {
        false
    }

    /// The operator always answers.
    open spec fn answers(&self, model: &ModelImpl<TypedFact, O>, node: &BaseNode<TypedFact, O>) -> bool {
        true
    }

    /// No patch is a proposal of the operator.
    open spec fn proposal(
        &self,
        model: &ModelImpl<TypedFact, O>,
        node: &BaseNode<TypedFact, O>,
        patch: &ModelPatch<TypedFact, O>,
    ) -> bool {
        false
    }

    fn declutter(&self, model: &ModelImpl<TypedFact, O>, node: &BaseNode<TypedFact, O>) -> (r:
        TractResult<Option<ModelPatch<TypedFact, O>>>)
        ensures
            r matches Ok(None),
    {
        Ok(None)
    }
}

impl PulsedOp for Source {
    /// A source computes no fact: its fact is given with the node.
    open spec fn pulsed_output_facts_spec(&self, inputs: Seq<PulsedFactView>) -> Result<
        Seq<PulsedFactView>,
        ErrorKind,
    > {
        Err(ErrorKind::InvariantViolation)
    }

    fn pulsed_output_facts(&self, inputs: &Vec<&PulsedFact>) -> (r: TractResult<Vec<PulsedFact>>) {
        Err(TractError::new(ErrorKind::InvariantViolation, "the fact of a source is given, not computed"))
    }
}

/// Whether `r` and `after` are what lowering the source `node` makes of the
/// resolved model `before`: one more source with the fact of the node, where
/// that fact knows the type and every dimension and at most one dimension
/// is the streaming one; otherwise an error, and the model as it was.
pub open spec fn lowers_source<O, T: From<Source>>(
    node: &BaseNode<InferenceFact, O>,
    before: ModelImpl<TypedFact, T>,
    after: ModelImpl<TypedFact, T>,
    r: TractResult<Vec<OutletId>>,
) -> bool {
    &&& r is Ok <==> node.outputs@.len() > 0 && node.outputs@[0]@.datum_type is Only
        && shape_is_concrete(node.outputs@[0]@.shape) && stream_count(
        concrete_dims(node.outputs@[0]@.shape.unwrap()),
    ) <= 1
    &&& r matches Ok(outlets) ==> {
        let id = before.nodes@.len();
        let added = after.nodes@.last();
        &&& after.nodes@.len() == id + 1
        &&& after.nodes@.drop_last() == before.nodes@
        &&& added.name@ == node.name@
        &&& (T::obeys_from_spec() ==> added.op == T::from_spec(Source))
        &&& added.inputs@.len() == 0
        &&& added.outputs@.len() == 1
        &&& added.outputs@[0]@.shape == concrete_dims(node.outputs@[0]@.shape.unwrap())
        &&& added.outputs@[0]@.datum_type == node.outputs@[0]@.datum_type->Only_0
        &&& added.outputs@[0]@.konst == node.outputs@[0]@.value
        &&& outlets@ == seq![OutletId { node: id as usize, slot: 0 }]
        &&& after.inputs == before.inputs
        &&& after.outputs == before.outputs
        &&& after.outlet_labels == before.outlet_labels
    }
    &&& r matches Err(e) ==> e.kind == ErrorKind::LoweringUnsupported && after == before
}

impl<O, T: From<Source>> InferenceOp<O, T> for Source {
    /// Inference learns nothing at a source: the facts stay as they are.
    open spec fn infer_facts_spec(
        &self,
        inputs: Seq<InferenceFactView>,
        outputs: Seq<InferenceFactView>,
        observed: Seq<InferenceFactView>,
    ) -> Result<InferredView, ErrorKind> {
        Ok(InferredView { inputs, outputs, observed })
    }

    open spec fn stateless_spec(&self) -> bool {
        false
    }

    open spec fn eager_eval_spec(&self, inputs: Seq<TensorView>) -> Result<Seq<TensorView>, ErrorKind> {
        Err(ErrorKind::Evaluation)
    }

    fn infer_facts(
        &mut self,
        inputs: Vec<&InferenceFact>,
        outputs: Vec<&InferenceFact>,
        observed: Vec<&InferenceFact>,
    ) -> (r: TractResult<Inferred>) {
        Ok(
            (copy_fact_refs(&inputs), copy_fact_refs(&outputs), copy_fact_refs(&observed)),
        )
    }

    fn is_stateless(&self) -> (r: bool) {
        false
    }

    fn eval_stateless(&self, inputs: Vec<Tensor>) -> (r: TractResult<Vec<Tensor>>) {
        Err(TractError::new(ErrorKind::Evaluation, "a source is not evaluated"))
    }

    /// A lowering that succeeds adds one source, whose fact is the fact of
    /// the node.
    open spec fn typed_as(
        &self,
        source: &ModelImpl<InferenceFact, O>,
        node: &BaseNode<InferenceFact, O>,
        before: &ModelImpl<TypedFact, T>,
        mapping: Map<OutletId, OutletId>,
        after: &ModelImpl<TypedFact, T>,
        r: TractResult<Vec<OutletId>>,
    ) -> bool {
        lowers_source(node, *before, *after, r)
    }

    /// Lowers the node into one source of the resolved model, whose fact is
    /// the fact of the node. It fails, and leaves `target` as it is, where
    /// the node has no output or its fact is not fully known.
    fn to_typed(
        &self,
        source: &ModelImpl<InferenceFact, O>,
        node: &BaseNode<InferenceFact, O>,
        target: &mut ModelImpl<TypedFact, T>,
        mapping: &OutletMap<OutletId>,
    ) -> (r: TractResult<Vec<OutletId>>)
        ensures
            lowers_source(node, *old(target), *final(target), r),
    {
        self.lower(source, node, target, mapping)
    }
}

impl Source {
    /// Lowers the node into one source of the resolved model, whose fact is
    /// the fact of the node. It fails, and leaves `target` as it is, where
    /// the node has no output or its fact is not fully known.
    pub fn lower<O, T: From<Source>>(
        &self,
        source: &ModelImpl<InferenceFact, O>,
        node: &BaseNode<InferenceFact, O>,
        target: &mut ModelImpl<TypedFact, T>,
        mapping: &OutletMap<OutletId>,
    ) -> (r: TractResult<Vec<OutletId>>)
        requires
            old(target).wf(),
        ensures
            final(target).wf(),
            keeps_outlets(old(target).nodes@, final(target).nodes@),
            r matches Ok(outlets) ==> forall|k: int|
                0 <= k < outlets@.len() ==> outlet_exists(final(target).nodes@, #[trigger] outlets@[k]),
            lowers_source(node, *old(target), *final(target), r),
    {
        if node.outputs.len() == 0 {
            return Err(TractError::new(ErrorKind::LoweringUnsupported, "the node has no output"));
        }
        let fact = match TypedFact::from_inference(&node.outputs[0]) {
            Ok(f) => f,
            Err(e) => {
                return Err(e);
            },
        };
        let mut facts: Vec<TypedFact> = Vec::new();
        facts.push(fact);
        let ghost before = target.nodes@;
        let id = match target.add_node(node.name.clone(), T::from(Source), facts) {
            Ok(id) => id,
            Err(e) => {
                return Err(e);
            },
        };
        let mut outlets: Vec<OutletId> = Vec::new();
        outlets.push(OutletId::new(id, 0));
        proof {
            assert(outlets@ =~= seq![OutletId { node: id, slot: 0 }]);
            assert forall|o: OutletId| #[trigger] outlet_exists(before, o) implies outlet_exists(
                target.nodes@,
                o,
            ) by {
                assert(target.nodes@.drop_last()[o.node as int] == target.nodes@[o.node as int]);
            }
        }
        Ok(outlets)
    }
}

impl<F, O: From<Source>> ModelImpl<F, O> {
    /// Adds a node that stands for an input of the model, with the given
    /// fact, behind the inputs that the model has, and returns its outlet.
    pub fn add_source(&mut self, name: String, fact: F) -> (r: TractResult<OutletId>)
        requires
            old(self).wf(),
        ensures
            final(self).wf(),
            r matches Ok(outlet) && outlet == (OutletId {
                node: old(self).nodes@.len() as usize,
                slot: 0,
            }),
            final(self).nodes@.len() == old(self).nodes@.len() + 1,
            final(self).nodes@.drop_last() == old(self).nodes@,
            final(self).nodes@.last().name == name,
            O::obeys_from_spec() ==> final(self).nodes@.last().op == O::from_spec(Source),
            final(self).nodes@.last().outputs@ == seq![fact],
            final(self).nodes@.last().inputs@.len() == 0,
            final(self).inputs@ == old(self).inputs@.push(r->Ok_0),
            final(self).outputs == old(self).outputs,
            final(self).outlet_labels == old(self).outlet_labels,
    {
        let mut facts: Vec<F> = Vec::new();
        facts.push(fact);
        assert(facts@ =~= seq![fact]);
        let ghost before = self.nodes@;
        let id = match self.add_node(name, O::from(Source), facts) {
            Ok(id) => id,
            Err(e) => {
                return Err(e);
            },
        };
        let outlet = OutletId::new(id, 0);
        self.inputs.push(outlet);
        proof {
            assert forall|k: int| 0 <= k < self.inputs@.len() implies outlet_exists(
                self.nodes@,
                #[trigger] self.inputs@[k],
            ) by {
                if k < old(self).inputs@.len() {
                    assert(outlet_exists(before, old(self).inputs@[k]));
                    assert(self.nodes@.drop_last()[self.inputs@[k].node as int]
                        == self.nodes@[self.inputs@[k].node as int]);
                }
            }
        }
        Ok(outlet)
    }
}

} // verus!
