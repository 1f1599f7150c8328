//! Making a resolved model simpler, rewrite by rewrite, until no operator
//! proposes another.
use vstd::prelude::*;
use crate::error::{ErrorKind, TractError, TractErrorView, TractResult};
use crate::fact::TypedFact;
use crate::compaction::{
    copy_of, inputs_needed, lemma_compacted_needed, lemma_compacts, lemma_compacts_ready,
};
use crate::model::ModelImpl;
use crate::ops::DeclutterOp;
use crate::order::occurs_before;
use crate::patch::ModelPatch;
use crate::outlet::OutletId;
use crate::translator::{
    can_be_ordered, is_walk, mapped_through, maps_from, maps_into, maps_needed,
    spare_inputs_ready, walk_node, walk_pair, walk_skips, IntoTranslator, Translate,
};

verus! {

/// Whether no node that an output of the model depends on proposes a
/// rewrite.
pub open spec fn decluttered<O: DeclutterOp<O>>(model: &ModelImpl<TypedFact, O>) -> bool {
    forall|n: int|
        0 <= n < model.nodes@.len() && #[trigger] model.needs(n) ==> !model.nodes@[n].op.proposes(
            model,
            &model.nodes@[n],
        )
}

/// Whether every node that an output of the model depends on is sure to
/// answer when it is asked for a rewrite.
pub open spec fn all_answer<O: DeclutterOp<O>>(model: &ModelImpl<TypedFact, O>) -> bool {
    forall|n: int|
        0 <= n < model.nodes@.len() && #[trigger] model.needs(n) ==> model.nodes@[n].op.answers(
            model,
            &model.nodes@[n],
        )
}

/// Whether `m` is `model` without the nodes that no output depends on.
///
/// The nodes that an output of `model` depends on are copied in evaluation
/// order, one node for each, with its name, its operator and its facts, and
/// wired to the copies of what it reads. Behind them comes a copy of the
/// node of each input of `model` that no output depends on. The inputs and
/// the outputs of `m` are the copies of those of `model`, in their order,
/// and an outlet of `model` that has a label hands it on to its copy.
pub open spec fn compacts<O: Clone>(model: &ModelImpl<TypedFact, O>, m: &ModelImpl<TypedFact, O>) -> bool {
    exists|
        order: Seq<usize>,
        trace: Seq<
            (ModelImpl<TypedFact, O>, Vec<OutletId>, ModelImpl<TypedFact, O>, Map<OutletId, OutletId>),
        >,
    |
        {
            &&& model.is_eval_order(order)
            &&& #[trigger] is_walk(model, order, trace)
            &&& forall|i: int|
                0 <= i < trace.len() - 1 && !walk_skips(model, order, trace, i) ==> {
                    let step = #[trigger] walk_pair(trace, i);
                    Translate::<TypedFact, O, TypedFact, O>::translates(
                        &IntoTranslator,
                        model,
                        &model.nodes@[walk_node(model, order, i) as int],
                        &step.0.2,
                        step.0.3,
                        &step.1.0,
                        Ok(step.1.1),
                    )
                }
            &&& m.nodes == trace.last().2.nodes
            &&& m.outlet_labels == trace.last().2.outlet_labels
            &&& maps_into(trace.last().3, m.nodes@)
            &&& mapped_through(model.inputs@, m.inputs@, trace.last().3)
            &&& mapped_through(model.outputs@, m.outputs@, trace.last().3)
            &&& maps_needed(model, trace.last().3)
            &&& maps_from(trace.last().3, model)
        }
}

/// The model without the nodes that no output depends on, the others in
/// evaluation order. It succeeds exactly where the needed nodes can be
/// ordered and each spare input reads only what is mapped by the time it
/// is looked at.
///
/// What it returns holds one copy of each node that an output depends on,
/// in evaluation order, and behind them only nodes of inputs that no output
/// depends on: each of its nodes is one that an output depends on, or the
/// node of one of its inputs.
pub fn compact<O: Clone>(model: &ModelImpl<TypedFact, O>) -> (r: TractResult<ModelImpl<TypedFact, O>>)
    requires
        model.wf(),
    ensures
        r is Ok <==> can_be_ordered(model) && spare_inputs_ready(model),
        r matches Ok(m) ==> m.wf() && compacts(model, &m) && m.inputs@.len() == model.inputs@.len()
            && m.outputs@.len() == model.outputs@.len(),
        r matches Ok(m) ==> forall|j: int|
            0 <= j < m.nodes@.len() ==> #[trigger] m.needs(j) || exists|k: int|
                0 <= k < m.inputs@.len() && (#[trigger] m.inputs@[k]).node == j,
        r matches Ok(m) ==> forall|order: Seq<usize>| #[trigger]
            model.is_eval_order(order) ==> {
                &&& order.len() <= m.nodes@.len() <= order.len() + model.inputs@.len()
                &&& forall|q: int|
                    0 <= q < order.len() ==> #[trigger] copy_of(model, order, m.nodes@, q)
                &&& inputs_needed(model, model.inputs@.len() as int) ==> m.nodes@.len()
                    == order.len()
            },
{
    let translator = IntoTranslator;
    match Translate::<TypedFact, O, TypedFact, O>::translate_model(&translator, model) {
        Ok(m) => {
            proof {
                assert(compacts(model, &m));
                lemma_compacts_ready(model, &m);
                lemma_compacted_needed(model, &m);
                assert forall|order: Seq<usize>| #[trigger] model.is_eval_order(order) implies {
                    &&& order.len() <= m.nodes@.len() <= order.len() + model.inputs@.len()
                    &&& forall|q: int|
                        0 <= q < order.len() ==> #[trigger] copy_of(model, order, m.nodes@, q)
                    &&& inputs_needed(model, model.inputs@.len() as int) ==> m.nodes@.len()
                        == order.len()
                } by {
                    lemma_compacts(model, &m, order);
                }
            }
            Ok(m)
        },
        Err(e) => Err(e),
    }
}

/// Whether the node at place `p` of the evaluation order `order` is the
/// first that proposes a rewrite of the model.
pub open spec fn proposes_first<O: DeclutterOp<O>>(
    model: &ModelImpl<TypedFact, O>,
    order: Seq<usize>,
    p: int,
) -> bool {
    &&& model.is_eval_order(order)
    &&& 0 <= p < order.len()
    &&& order[p] < model.nodes@.len()
    &&& model.nodes@[order[p] as int].op.proposes(model, &model.nodes@[order[p] as int])
    &&& forall|q: int|
        0 <= q < p ==> !model.nodes@[(#[trigger] order[q]) as int].op.proposes(
            model,
            &model.nodes@[order[q] as int],
        )
}

/// Whether `patch` is a proposal of the first node, in evaluation order,
/// that proposes a rewrite of the model.
pub open spec fn proposed_by<O: DeclutterOp<O>>(
    model: &ModelImpl<TypedFact, O>,
    patch: &ModelPatch<TypedFact, O>,
) -> bool {
    exists|order: Seq<usize>, p: int| #[trigger]
        proposes_first(model, order, p) && model.nodes@[order[p] as int].op.proposal(
            model,
            &model.nodes@[order[p] as int],
            patch,
        )
}

/// Whether `next` is what a round with the patch makes of the model: the
/// model with the patch in place, without the nodes that no output depends
/// on any more. A patch that does not fit the model is discarded, and the
/// model stays as it is.
pub open spec fn round_makes<O: Clone>(
    model: &ModelImpl<TypedFact, O>,
    patch: &ModelPatch<TypedFact, O>,
    next: &ModelImpl<TypedFact, O>,
) -> bool {
    if patch.fits(model.nodes@) {
        exists|mid: ModelImpl<TypedFact, O>| #[trigger]
            patch.applied(*model, mid) && mid.wf() && compacts(&mid, next)
    } else {
        *next == *model
    }
}

/// Whether a round with the patch cannot be made: the patch fits, and what
/// it leaves cannot be compacted.
pub open spec fn round_fails<O: Clone>(
    model: &ModelImpl<TypedFact, O>,
    patch: &ModelPatch<TypedFact, O>,
) -> bool {
    patch.fits(model.nodes@) && exists|mid: ModelImpl<TypedFact, O>| #[trigger]
        patch.applied(*model, mid) && mid.wf() && (!can_be_ordered(&mid) || !spare_inputs_ready(
            &mid,
        ))
}

/// Whether `next` is what one round makes of `prev`: the rewrite that the
/// first proposing node of `prev` proposes is put in place, and what no
/// output depends on any more is dropped.
pub open spec fn round_of<O: DeclutterOp<O> + Clone>(
    prev: &ModelImpl<TypedFact, O>,
    next: &ModelImpl<TypedFact, O>,
) -> bool {
    exists|patch: ModelPatch<TypedFact, O>|
        patch.wf() && #[trigger] proposed_by(prev, &patch) && round_makes(prev, &patch, next)
}

/// Whether step `i` of the journey is a round.
pub open spec fn round_at<O: DeclutterOp<O> + Clone>(
    journey: Seq<ModelImpl<TypedFact, O>>,
    i: int,
) -> bool {
    round_of(&journey[i], &journey[i + 1])
}

/// Whether the journey lists the models that the rounds go through, from
/// `model` on.
pub open spec fn journey_from<O: DeclutterOp<O> + Clone>(
    model: &ModelImpl<TypedFact, O>,
    journey: Seq<ModelImpl<TypedFact, O>>,
) -> bool {
    &&& journey.len() > 0
    &&& journey[0] == *model
    &&& forall|i: int| 0 <= i < journey.len() - 1 ==> #[trigger] round_at(journey, i)
}

/// The error of rewrites that do not come to an end.
pub open spec fn not_ending() -> TractErrorView {
    TractErrorView {
        kind: ErrorKind::InvariantViolation,
        context: seq!["the rewrites do not come to an end"@],
    }
}

/// The rewrite that the first node that proposes one proposes, the nodes
/// taken in evaluation order; none where no node proposes one. It succeeds
/// wherever the needed nodes can be ordered and each of them is sure to
/// answer.
pub fn first_proposal<O: DeclutterOp<O>>(model: &ModelImpl<TypedFact, O>) -> (r: TractResult<
    Option<ModelPatch<TypedFact, O>>,
>)
    requires
        model.wf(),
    ensures
        r matches Ok(None) ==> decluttered(model),
        r matches Ok(Some(patch)) ==> patch.wf() && patch.fits(model.nodes@) && proposed_by(
            model,
            &patch,
        ) && !decluttered(model),
        r is Ok ==> can_be_ordered(model),
        !can_be_ordered(model) ==> r is Err,
        can_be_ordered(model) && all_answer(model) ==> r is Ok,
{
    let order = match model.eval_order() {
        Ok(order) => order,
        Err(e) => {
            return Err(e);
        },
    };
    assert(model.is_topological(order@));
    let mut p: usize = 0;
    while p < order.len()
        invariant
            model.wf(),
            p <= order@.len(),
            model.is_eval_order(order@),
            forall|q: int| 0 <= q < order@.len() ==> (#[trigger] order@[q]) < model.nodes@.len(),
            forall|q: int|
                0 <= q < p ==> !model.nodes@[(#[trigger] order@[q]) as int].op.proposes(
                    model,
                    &model.nodes@[order@[q] as int],
                ),
        decreases order@.len() - p,
    {
        let node = model.node(order[p]);
        assert(model.needs(order@[p as int] as int));
        match node.op.declutter(model, node) {
            Ok(Some(patch)) => {
                proof {
                    assert(model.needs(order@[p as int] as int));
                    assert(proposes_first(model, order@, p as int));
                }
                return Ok(Some(patch));
            },
            Ok(None) => {},
            Err(e) => {
                return Err(e);
            },
        }
        p += 1;
    }
    let total = model.nodes.len();
    proof {
        assert forall|n: int| 0 <= n < model.nodes@.len() && #[trigger] model.needs(n) implies !model.nodes@[n].op.proposes(
            model,
            &model.nodes@[n],
        ) by {
            let m: usize = n as usize;
            assert(m as int == n);
            assert(model.needs(m as int));
            assert(occurs_before(order@, order@.len() as int, m));
            let q = choose|q: int|
                0 <= q < order@.len() as int && q < order@.len() && order@[q] == n as usize;
            assert(!model.nodes@[order@[q] as int].op.proposes(model, &model.nodes@[order@[q] as int]));
        }
    }
    Ok(None)
}

/// One round: puts the patch in place and drops the nodes that no output
/// depends on any more. A patch that does not fit the model is discarded,
/// and the model is handed back as it is. The round fails exactly where
/// the patch fits and what it leaves cannot be compacted.
pub fn declutter_round<O: Clone>(
    model: ModelImpl<TypedFact, O>,
    patch: ModelPatch<TypedFact, O>,
) -> (r: TractResult<ModelImpl<TypedFact, O>>)
    requires
        model.wf(),
        patch.wf(),
    ensures
        !patch.fits(model.nodes@) ==> r == Ok::<ModelImpl<TypedFact, O>, TractError>(model),
        r matches Ok(next) ==> next.wf() && round_makes(&model, &patch, &next)
            && next.inputs@.len() == model.inputs@.len() && next.outputs@.len()
            == model.outputs@.len(),
        r is Err ==> round_fails(&model, &patch),
        patch.fits(model.nodes@) ==> exists|mid: ModelImpl<TypedFact, O>| #[trigger]
            patch.applied(model, mid) && mid.wf() && (r is Ok <==> can_be_ordered(&mid)
                && spare_inputs_ready(&mid)),
{
    let mut current = model;
    match patch.apply(&mut current) {
        Ok(()) => {},
        Err(_) => {
            return Ok(current);
        },
    }
    assert(patch.applied(model, current));
    compact(&current)
}

/// Simplifies the model until no operator proposes a rewrite any more.
///
/// The nodes are asked in evaluation order; the first proposal is put in
/// place, the nodes that no output depends on any more are dropped, and the
/// asking starts again. There are at most as many rounds as the model has
/// nodes: where a node still proposes a rewrite after that, the rewrites are
/// taken not to come to an end, which is an invariant violation. A model
/// that is simplified already, and whose nodes are sure to answer, is
/// returned as it is. The model keeps the number of its inputs and of its
/// outputs.
///
/// An error comes from the model that the rounds have reached: its needed
/// nodes cannot be ordered, one of them fails to answer, what its rewrite
/// leaves cannot be compacted, or the rounds are used up.
pub fn declutter<O: DeclutterOp<O> + Clone>(model: ModelImpl<TypedFact, O>) -> (r: TractResult<
    ModelImpl<TypedFact, O>,
>)
    requires
        model.wf(),
    ensures
        r matches Ok(done) ==> done.wf() && decluttered(&done),
        r matches Ok(done) ==> decluttered(&model) ==> done == model,
        r matches Ok(done) ==> done.inputs@.len() == model.inputs@.len() && done.outputs@.len()
            == model.outputs@.len(),
        !can_be_ordered(&model) ==> r is Err,
        can_be_ordered(&model) && all_answer(&model) && decluttered(&model) ==> r is Ok,
        r matches Ok(done) ==> exists|journey: Seq<ModelImpl<TypedFact, O>>| #[trigger]
            journey_from(&model, journey) && journey.last() == done && journey.len()
                <= model.nodes@.len() + 1,
        r matches Err(e) ==> exists|journey: Seq<ModelImpl<TypedFact, O>>| #[trigger]
            journey_from(&model, journey) && journey.len() <= model.nodes@.len() + 1 && {
                let prev = journey.last();
                ||| !can_be_ordered(&prev)
                ||| !all_answer(&prev)
                ||| exists|patch: ModelPatch<TypedFact, O>|
                    patch.wf() && #[trigger] proposed_by(&prev, &patch) && round_fails(&prev, &patch)
                ||| e@ == not_ending() && journey.len() == model.nodes@.len() + 1 && !decluttered(
                    &prev,
                )
            },
{
    let mut left = model.nodes.len();
    let mut current = model;
    let ghost mut journey: Seq<ModelImpl<TypedFact, O>> = seq![model];
    loop
        invariant
            current.wf(),
            current.inputs@.len() == model.inputs@.len(),
            current.outputs@.len() == model.outputs@.len(),
            journey_from(&model, journey),
            journey.last() == current,
            journey.len() + left == model.nodes@.len() + 1,
            journey.len() > 1 ==> !decluttered(&model) && can_be_ordered(&model),
        decreases left,
    {
        let ghost prev = current;
        let patch = match first_proposal(&current) {
            Ok(Some(patch)) => patch,
            Ok(None) => {
                return Ok(current);
            },
            Err(e) => {
                return Err(e);
            },
        };
        if left == 0 {
            return Err(
                TractError::new(ErrorKind::InvariantViolation, "the rewrites do not come to an end"),
            );
        }
        let ghost proposal = patch;
        let next = match declutter_round(current, patch) {
            Ok(next) => next,
            Err(e) => {
                return Err(e);
            },
        };
        current = next;
        left = left - 1;
        proof {
            assert(round_of(&prev, &current));
            let ghost before = journey;
            journey = journey.push(current);
            assert forall|i: int| 0 <= i < journey.len() - 1 implies #[trigger] round_at(
                journey,
                i,
            ) by {
                if i < before.len() - 1 {
                    assert(round_at(before, i));
                    assert(journey[i] == before[i]);
                    assert(journey[i + 1] == before[i + 1]);
                }
            }
        }
    }
}

} // verus!
