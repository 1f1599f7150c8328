//! Inference over the facts of one node: the operator's own rules first,
//! then eager evaluation where every input is known.
use vstd::prelude::*;
use vstd::string::StringExecFns;

use crate::error::{ErrorKind, TractError, TractErrorView, TractResult};
use crate::fact::{fact_of_tensor, InferenceFact, InferenceFactView, TypedFact};
use crate::model::{outlet_exists, BaseNode, ModelImpl};
use crate::ops::{eval_view, tensor_views, Op, StatelessOp};
use crate::outlet::{OutletId, OutletMap};
use crate::patch::ModelPatch;
use crate::solver::{copy_fact_refs, fact_ref_views, fact_views, lemma_propagates_once, propagate, propagates, refines_all, Facts, FactsView, InferenceRulesOp, Solver};
use crate::solver::{input_proxies, output_proxies};
use crate::tensor::{Tensor, TensorView};
use crate::text::text_of;
use crate::translator::{keeps_outlets, maps_into, Translate};

verus! {

/// What inference returns: the facts of the inputs, of the outputs, and of
/// the outlets that the operator observes, in this order.
pub type Inferred = (Vec<InferenceFact>, Vec<InferenceFact>, Vec<InferenceFact>);

/// The result of an inference as contracts speak of it.
pub struct InferredView {
    pub inputs: Seq<InferenceFactView>,
    pub outputs: Seq<InferenceFactView>,
    pub observed: Seq<InferenceFactView>,
}

/// The views of the facts that inference returned.
pub open spec fn inferred_of(facts: Inferred) -> InferredView {
    InferredView {
        inputs: fact_views(facts.0@),
        outputs: fact_views(facts.1@),
        observed: fact_views(facts.2@),
    }
}

/// The view of a result of inference, with the kind of the error only.
pub open spec fn inferred_view(r: TractResult<Inferred>) -> Result<InferredView, ErrorKind> {
    match r {
        Ok(f) => Ok(inferred_of(f)),
        Err(e) => Err(e.kind),
    }
}

/// Whether every fact knows the value of its tensor.
pub open spec fn all_concrete(facts: Seq<InferenceFactView>) -> bool {
    forall|i: int| 0 <= i < facts.len() ==> (#[trigger] facts[i]).value is Some
}

/// The values that the facts know.
pub open spec fn values_of(facts: Seq<InferenceFactView>) -> Seq<TensorView> {
    Seq::new(facts.len(), |i: int| facts[i].value.unwrap())
}

/// The facts that know all of each tensor.
pub open spec fn facts_of(tensors: Seq<TensorView>) -> Seq<InferenceFactView> {
    Seq::new(tensors.len(), |i: int| fact_of_tensor(tensors[i]))
}

/// What inference returns once the operator's own inference has given
/// `inferred` and the operator was evaluated on the values of the inputs,
/// with the result `evaluated`: the evaluated outputs in place of the
/// inferred ones; the inferred facts where evaluation met a streaming
/// dimension; the error of the evaluation otherwise.
pub open spec fn eager_spec(
    inferred: InferredView,
    evaluated: Result<Seq<TensorView>, ErrorKind>,
) -> Result<InferredView, ErrorKind> {
    match evaluated {
        Ok(values) => Ok(
            InferredView {
                inputs: inferred.inputs,
                outputs: facts_of(values),
                observed: inferred.observed,
            },
        ),
        Err(kind) => if kind == ErrorKind::StreamTensor {
            Ok(inferred)
        } else {
            Err(kind)
        },
    }
}

/// Puts the result of an eager evaluation in place of the inferred outputs.
pub fn eager_outcome(inferred: Inferred, evaluated: TractResult<Vec<Tensor>>) -> (r: TractResult<
    Inferred,
>)
    ensures
        inferred_view(r) == eager_spec(inferred_of(inferred), eval_view(evaluated)),
        r matches Err(e) ==> evaluated matches Err(cause) && e@ == cause@.chained("Eager eval"@),
{
    match evaluated {
        Ok(values) => {
            let ghost views = tensor_views(values@);
            let mut outputs: Vec<InferenceFact> = Vec::new();
            let mut values = values;
            let mut i: usize = 0;
            let total = values.len();
            while values.len() > 0
                invariant
                    i + values@.len() == total,
                    total == views.len(),
                    tensor_views(values@) == views.skip(i as int),
                    outputs@.len() == i,
                    forall|j: int| 0 <= j < i ==> (#[trigger] outputs@[j])@ == fact_of_tensor(views[j]),
                decreases values@.len(),
            {
                let ghost before = values@;
                let t = values.remove(0);
                proof {
                    assert(tensor_views(before)[0] == t@);
                    assert(tensor_views(values@) =~= views.skip(i + 1)) by {
                        assert forall|j: int| 0 <= j < values@.len() implies tensor_views(values@)[j]
                            == views.skip(i + 1)[j] by {
                            assert(values@[j] == before[j + 1]);
                            assert(tensor_views(before)[j + 1] == before[j + 1]@);
                        }
                    }
                }
                outputs.push(InferenceFact::from_tensor(t));
                i += 1;
            }
            let r = (inferred.0, outputs, inferred.2);
            assert(fact_views(r.1@) =~= facts_of(views));
            Ok(r)
        },
        Err(e) => {
            if e.kind() == ErrorKind::StreamTensor {
                Ok(inferred)
            } else {
                Err(e.chain_err(text_of("Eager eval")))
            }
        },
    }
}

/// The values of the facts, where every fact knows the value of its tensor.
pub fn concrete_values(facts: &Vec<InferenceFact>) -> (r: Option<Vec<Tensor>>)
    ensures
        r is Some <==> all_concrete(fact_views(facts@)),
        r matches Some(values) ==> tensor_views(values@) == values_of(fact_views(facts@)),
{
    let mut out: Vec<Tensor> = Vec::new();
    let mut i: usize = 0;
    while i < facts.len()
        invariant
            i <= facts@.len(),
            out@.len() == i,
            forall|j: int| 0 <= j < i ==> (#[trigger] fact_views(facts@)[j]).value == Some(out@[j]@),
        decreases facts@.len() - i,
    {
        match facts[i].value.concretize() {
            Some(t) => {
                out.push(t.clone());
            },
            None => {
                assert(fact_views(facts@)[i as int].value is None);
                return None;
            },
        }
        i += 1;
    }
    assert(tensor_views(out@) =~= values_of(fact_views(facts@)));
    Some(out)
}

/// What inference makes of what the operator's own inference gives: its
/// error; or, where the operator has pure evaluation and every input is
/// known, what `eager_spec` makes of the evaluation; or the inferred facts.
pub open spec fn infer_spec(
    facts: Result<InferredView, ErrorKind>,
    stateless: bool,
    evaluated: spec_fn(Seq<TensorView>) -> Result<Seq<TensorView>, ErrorKind>,
) -> Result<InferredView, ErrorKind> {
    match facts {
        Err(kind) => Err(kind),
        Ok(f) => if stateless && all_concrete(f.inputs) {
            eager_spec(f, evaluated(values_of(f.inputs)))
        } else {
            Ok(f)
        },
    }
}

/// An operator of a model under inference. The operators of that model are
/// held as `O`, those of the resolved model it is lowered to as `T`.
pub trait InferenceOp<O, T>: Op {
    /// What the operator's own inference makes of the facts.
    spec fn infer_facts_spec(
        &self,
        inputs: Seq<InferenceFactView>,
        outputs: Seq<InferenceFactView>,
        observed: Seq<InferenceFactView>,
    ) -> Result<InferredView, ErrorKind>;

    /// Whether the operator has pure evaluation.
    spec fn stateless_spec(&self) -> bool;

    /// What pure evaluation returns for the given inputs.
    spec fn eager_eval_spec(&self, inputs: Seq<TensorView>) -> Result<Seq<TensorView>, ErrorKind>;

    /// The operator's own inference, without eager evaluation. Inference is
    /// pure: whatever the operator keeps for itself, it infers and evaluates
    /// afterwards as it did before.
    fn infer_facts(
        &mut self,
        inputs: Vec<&InferenceFact>,
        outputs: Vec<&InferenceFact>,
        observed: Vec<&InferenceFact>,
    ) -> (r: TractResult<Inferred>)
        ensures
            inferred_view(r) == old(self).infer_facts_spec(
                fact_ref_views(inputs@),
                fact_ref_views(outputs@),
                fact_ref_views(observed@),
            ),
            final(self).stateless_spec() == old(self).stateless_spec(),
            forall|values: Seq<TensorView>| #[trigger]
                final(self).eager_eval_spec(values) == old(self).eager_eval_spec(values),
            forall|
                i: Seq<InferenceFactView>,
                o: Seq<InferenceFactView>,
                s: Seq<InferenceFactView>,
            | #[trigger]
                final(self).infer_facts_spec(i, o, s) == old(self).infer_facts_spec(i, o, s),
    ;

    /// Whether the operator has pure evaluation.
    fn is_stateless(&self) -> (r: bool)
        ensures
            r == self.stateless_spec(),
    ;

    /// The pure evaluation of the operator; an error for an operator that
    /// has none.
    fn eval_stateless(&self, inputs: Vec<Tensor>) -> (r: TractResult<Vec<Tensor>>)
        ensures
            eval_view(r) == self.eager_eval_spec(tensor_views(inputs@)),
    ;

    /// Infers what can be known of the inputs and outputs of the node.
    ///
    /// The operator's own inference runs first; its error is handed on, in
    /// the context "Infering facts". Where the operator has pure evaluation
    /// and the value of every input is known afterwards, the operator is
    /// evaluated, and the outputs are exactly what evaluation returns. An
    /// evaluation that meets a streaming dimension is passed over; any other
    /// error of the evaluation is handed on in the context "Eager eval".
    fn infer(
        &mut self,
        inputs: Vec<&InferenceFact>,
        outputs: Vec<&InferenceFact>,
        observed: Vec<&InferenceFact>,
    ) -> (r: TractResult<Inferred>)
        ensures
            inferred_view(r) == infer_spec(
                old(self).infer_facts_spec(
                    fact_ref_views(inputs@),
                    fact_ref_views(outputs@),
                    fact_ref_views(observed@),
                ),
                old(self).stateless_spec(),
                |values: Seq<TensorView>| old(self).eager_eval_spec(values),
            ),
            final(self).stateless_spec() == old(self).stateless_spec(),
            forall|values: Seq<TensorView>| #[trigger]
                final(self).eager_eval_spec(values) == old(self).eager_eval_spec(values),
            forall|
                i: Seq<InferenceFactView>,
                o: Seq<InferenceFactView>,
                s: Seq<InferenceFactView>,
            | #[trigger]
                final(self).infer_facts_spec(i, o, s) == old(self).infer_facts_spec(i, o, s),
            r matches Err(e) ==> e@.context.len() > 0 && e@.context.last() == (if old(
                self,
            ).infer_facts_spec(
                fact_ref_views(inputs@),
                fact_ref_views(outputs@),
                fact_ref_views(observed@),
            ) is Err {
                "Infering facts"@
            } else {
                "Eager eval"@
            }),
    {
        let inferred = match self.infer_facts(inputs, outputs, observed) {
            Ok(f) => f,
            Err(e) => {
                return Err(e.chain_err(text_of("Infering facts")));
            },
        };
        if self.is_stateless() {
            match concrete_values(&inferred.0) {
                Some(values) => {
                    assert(self.eager_eval_spec(tensor_views(values@)) == old(
                        self,
                    ).eager_eval_spec(tensor_views(values@)));
                    let evaluated = self.eval_stateless(values);
                    return eager_outcome(inferred, evaluated);
                },
                None => {},
            }
        }
        Ok(inferred)
    }

    /// The outlets, besides its inputs and outputs, whose facts the operator
    /// wants to see: inference runs again when one of them changes.
    fn observe_outlets(
        &self,
        model: &ModelImpl<InferenceFact, O>,
        node: &BaseNode<InferenceFact, O>,
    ) -> (r: TractResult<Vec<OutletId>>)
        default_ensures
            r matches Ok(outlets) && outlets@.len() == 0,
    {
        Ok(Vec::new())
    }

    /// A rewrite of the model around the node that has to happen before the
    /// model is lowered, if the operator asks for one.
    fn incorporate(
        &self,
        model: &ModelImpl<InferenceFact, O>,
        node: &BaseNode<InferenceFact, O>,
    ) -> (r: TractResult<Option<ModelPatch<InferenceFact, O>>>)
        default_ensures
            r matches Ok(None),
    {
        Ok(None)
    }

    /// The number of outputs of the operator.
    fn nboutputs(&self) -> (r: TractResult<usize>)
        default_ensures
            r == Ok::<usize, TractError>(1usize),
    {
        Ok(1)
    }

    /// Whether `after` and `r` are what a lowering of the node `node` that
    /// succeeds may make of the model `before`, given what `mapping` holds.
    spec fn typed_as(
        &self,
        source: &ModelImpl<InferenceFact, O>,
        node: &BaseNode<InferenceFact, O>,
        before: &ModelImpl<TypedFact, T>,
        mapping: Map<OutletId, OutletId>,
        after: &ModelImpl<TypedFact, T>,
        r: TractResult<Vec<OutletId>>,
    ) -> bool;

    /// Lowers the node into nodes of the resolved model `target`, and
    /// returns the outlets that stand for its outputs. An operator that does
    /// not say how fails, and leaves `target` as it is.
    fn to_typed(
        &self,
        source: &ModelImpl<InferenceFact, O>,
        node: &BaseNode<InferenceFact, O>,
        target: &mut ModelImpl<TypedFact, T>,
        mapping: &OutletMap<OutletId>,
    ) -> (r: TractResult<Vec<OutletId>>)
        requires
            source.wf(),
            node.id < source.nodes@.len(),
            *node == source.nodes@[node.id as int],
            old(target).wf(),
            maps_into(mapping@, old(target).nodes@),
        ensures
            final(target).wf(),
            keeps_outlets(old(target).nodes@, final(target).nodes@),
            r matches Ok(outlets) ==> forall|k: int|
                0 <= k < outlets@.len() ==> outlet_exists(final(target).nodes@, #[trigger] outlets@[k]),
            r is Ok ==> self.typed_as(source, node, old(target), mapping@, final(target), r),
        default_ensures
            r matches Err(e) && e@ == (TractErrorView {
                kind: ErrorKind::LoweringUnsupported,
                context: seq!["Operator can not be made a TypedOp."@],
            }),
            *final(target) == *old(target),
    {
        Err(TractError::new(ErrorKind::LoweringUnsupported, "Operator can not be made a TypedOp."))
    }
}

/// Whether `r` is what the rules of the operator make of the facts: the
/// error of the rules themselves, or what propagation ends in, with the
/// observed facts handed through.
pub open spec fn rules_infer<R: InferenceRulesOp>(
    op: &R,
    inputs: Seq<InferenceFactView>,
    outputs: Seq<InferenceFactView>,
    observed: Seq<InferenceFactView>,
    r: Result<InferredView, ErrorKind>,
) -> bool {
    let start = FactsView { inputs, outputs };
    match op.rules_spec(inputs.len(), outputs.len()) {
        Err(kind) => r == Err::<InferredView, ErrorKind>(kind),
        Ok(rules) => match r {
            Ok(v) => v.observed == observed && propagates(
                op,
                rules,
                start,
                Ok(FactsView { inputs: v.inputs, outputs: v.outputs }),
            ),
            Err(kind) => propagates(op, rules, start, Err(kind)),
        },
    }
}

/// What the rules of the operator make of the facts.
pub open spec fn rules_outcome<R: InferenceRulesOp>(
    op: &R,
    inputs: Seq<InferenceFactView>,
    outputs: Seq<InferenceFactView>,
    observed: Seq<InferenceFactView>,
) -> Result<InferredView, ErrorKind> {
    choose|r: Result<InferredView, ErrorKind>| rules_infer(op, inputs, outputs, observed, r)
}

/// Inference by rules is a function of the facts: two runs on the same
/// facts give the same result.
pub proof fn lemma_rules_infer_once<R: InferenceRulesOp>(
    op: &R,
    inputs: Seq<InferenceFactView>,
    outputs: Seq<InferenceFactView>,
    observed: Seq<InferenceFactView>,
    one: Result<InferredView, ErrorKind>,
    other: Result<InferredView, ErrorKind>,
)
    requires
        rules_infer(op, inputs, outputs, observed, one),
        rules_infer(op, inputs, outputs, observed, other),
    ensures
        one == other,
{
    let start = FactsView { inputs, outputs };
    match op.rules_spec(inputs.len(), outputs.len()) {
        Err(kind) => {},
        Ok(rules) => {
            let first: Result<FactsView, ErrorKind> = match one {
                Ok(v) => Ok(FactsView { inputs: v.inputs, outputs: v.outputs }),
                Err(kind) => Err(kind),
            };
            let second: Result<FactsView, ErrorKind> = match other {
                Ok(v) => Ok(FactsView { inputs: v.inputs, outputs: v.outputs }),
                Err(kind) => Err(kind),
            };
            lemma_propagates_once(op, rules, start, first, second);
        },
    }
}

/// Infers by the rules of the operator: the rules are collected, and
/// applied to the facts until nothing narrows any more.
pub fn infer_facts_by_rules<R: InferenceRulesOp>(
    op: &R,
    inputs: &Vec<&InferenceFact>,
    outputs: &Vec<&InferenceFact>,
    observed: &Vec<&InferenceFact>,
) -> (r: TractResult<Inferred>)
    ensures
        inferred_view(r) == rules_outcome(
            op,
            fact_ref_views(inputs@),
            fact_ref_views(outputs@),
            fact_ref_views(observed@),
        ),
        r matches Ok(v) ==> fact_views(v.2@) == fact_ref_views(observed@) && refines_all(
            FactsView { inputs: fact_views(v.0@), outputs: fact_views(v.1@) },
            FactsView { inputs: fact_ref_views(inputs@), outputs: fact_ref_views(outputs@) },
        ),
{
    let ghost i = fact_ref_views(inputs@);
    let ghost o = fact_ref_views(outputs@);
    let ghost ob = fact_ref_views(observed@);
    let facts = Facts { inputs: copy_fact_refs(inputs), outputs: copy_fact_refs(outputs) };
    let kept = copy_fact_refs(observed);
    let pin = input_proxies(inputs.len());
    let pout = output_proxies(outputs.len());
    let mut s = Solver::new();
    let r = match op.rules(&mut s, &pin, &pout) {
        Ok(()) => {
            assert(s@ =~= op.rules_spec(i.len(), o.len()).unwrap());
            match propagate(op, &s.rules, facts) {
                Ok(end) => Ok((end.inputs, end.outputs, kept)),
                Err(e) => Err(e),
            }
        },
        Err(e) => Err(e),
    };
    proof {
        assert(rules_infer(op, i, o, ob, inferred_view(r)));
        lemma_rules_infer_once(op, i, o, ob, inferred_view(r), rules_outcome(op, i, o, ob));
    }
    r
}

/// The translation of a model under inference into a resolved model: each
/// node is lowered by its own operator.
pub struct ToTypedTranslator;

impl<O: InferenceOp<O, T>, T> Translate<InferenceFact, O, TypedFact, T> for ToTypedTranslator {
    /// An operator may lack a lowering, so nothing is sure.
    open spec fn faithful(&self) -> bool {
        false
    }

    /// A node that is lowered is lowered as its operator says.
    open spec fn translates(
        &self,
        source: &ModelImpl<InferenceFact, O>,
        node: &BaseNode<InferenceFact, O>,
        before: &ModelImpl<TypedFact, T>,
        mapping: Map<OutletId, OutletId>,
        after: &ModelImpl<TypedFact, T>,
        r: TractResult<Vec<OutletId>>,
    ) -> bool {
        r is Ok ==> node.op.typed_as(source, node, before, mapping, after, r)
    }

    fn translate_node(
        &self,
        source: &ModelImpl<InferenceFact, O>,
        node: &BaseNode<InferenceFact, O>,
        target: &mut ModelImpl<TypedFact, T>,
        mapping: &OutletMap<OutletId>,
    ) -> (r: TractResult<Vec<OutletId>>) {
        node.op.to_typed(source, node, target, mapping)
    }
}

} // verus!
