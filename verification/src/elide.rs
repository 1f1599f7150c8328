//! Dropping an axis of size one from a whole model: the rewrite that takes
//! out the operators that insert and remove the axis, and every trace of the
//! axis between them.

use vstd::prelude::*;
use crate::add_dims::AddDim;
use crate::error::{ErrorKind, TractError, TractResult};
use crate::fact::{TypedFact, TypedFactView};
use crate::model::{outlet_exists, BaseNode, ModelImpl};
use crate::ops::{clone_op, typed_views, AxisInfoView, OpAs, TypedOp};
use crate::order::occurs_before;
use crate::outlet::{InletId, OutletId, OutletMap};
use crate::patch::{ModelPatch, StagedNode, Wire};
use crate::rm_dims::{
    all_create, all_destroy, bypasses, creates, destroys, ends_at, entangled, in_order,
    one_axis_each, RmDim,
};
use crate::tracking::{is_creator, is_destructor, same_axis, AxisTracking};
use crate::translator::can_be_ordered;
use crate::typed::{wire_facts, wires_ok};

verus! {

/// Whether the outlet carries the axis `seed`, at some place.
pub open spec fn carries_axis<O: TypedOp<O>>(
    model: &ModelImpl<TypedFact, O>,
    seed: (OutletId, usize),
    o: OutletId,
) -> bool {
    exists|a: usize| same_axis(model, seed, (o, a))
}

/// The place of the axis `seed` in the outlet, where the outlet carries it.
pub open spec fn axis_at<O: TypedOp<O>>(
    model: &ModelImpl<TypedFact, O>,
    seed: (OutletId, usize),
    o: OutletId,
) -> Option<usize> {
    if carries_axis(model, seed, o) {
        Some(choose|a: usize| same_axis(model, seed, (o, a)))
    } else {
        None
    }
}

/// For each input of the node `n`, the place of the axis `seed` in it.
pub open spec fn carried_axes<O: TypedOp<O>>(
    model: &ModelImpl<TypedFact, O>,
    seed: (OutletId, usize),
    n: usize,
) -> Seq<Option<usize>> {
    Seq::new(
        model.nodes@[n as int].inputs@.len(),
        |i: int| axis_at(model, seed, model.nodes@[n as int].inputs@[i]),
    )
}

/// Whether the axis `seed` begins at the outlet.
pub open spec fn begins_at<O: TypedOp<O>>(
    model: &ModelImpl<TypedFact, O>,
    seed: (OutletId, usize),
    o: OutletId,
) -> bool {
    exists|a: usize| is_creator(model, seed, (o, a))
}

/// Whether the axis `seed` ends at an input of the node `n`.
pub open spec fn ends_in<O: TypedOp<O>>(
    model: &ModelImpl<TypedFact, O>,
    seed: (OutletId, usize),
    n: usize,
) -> bool {
    exists|d: (InletId, usize)| is_destructor(model, seed, d) && d.0.node == n
}

/// Whether the axis `seed` goes through the node `n`: an input of the node
/// carries it, and it ends at none of them.
pub open spec fn goes_through<O: TypedOp<O>>(
    model: &ModelImpl<TypedFact, O>,
    seed: (OutletId, usize),
    n: usize,
) -> bool {
    &&& !ends_in(model, seed, n)
    &&& exists|i: int|
        0 <= i < model.nodes@[n as int].inputs@.len() && carries_axis(
            model,
            seed,
            #[trigger] model.nodes@[n as int].inputs@[i],
        )
}

/// The nodes among the first `k` of `order` that the axis goes through, in
/// that order.
pub open spec fn rewritten<O: TypedOp<O>>(
    model: &ModelImpl<TypedFact, O>,
    seed: (OutletId, usize),
    order: Seq<usize>,
    k: nat,
) -> Seq<usize>
    decreases k,
{
    if k == 0 {
        Seq::empty()
    } else {
        let before = rewritten(model, seed, order, (k - 1) as nat);
        if goes_through(model, seed, order[k - 1]) {
            before.push(order[k - 1])
        } else {
            before
        }
    }
}

/// The wire that stands for the outlet `o` of the model once the nodes
/// `ids` of the model are staged, in that order, as the first `k` nodes of
/// `staged`. An output of a staged node is that node's output, the latest
/// where a node was staged twice; the outlet at which the axis begins is
/// what the first input of its node reads; any other outlet is itself.
pub open spec fn image<O: TypedOp<O>>(
    model: &ModelImpl<TypedFact, O>,
    seed: (OutletId, usize),
    ids: Seq<usize>,
    staged: Seq<StagedNode<TypedFact, O>>,
    k: nat,
    o: OutletId,
) -> Wire
    decreases k,
{
    if k == 0 {
        if begins_at(model, seed, o) {
            Wire::Tapped(model.nodes@[o.node as int].inputs@[0])
        } else {
            Wire::Tapped(o)
        }
    } else if ids[k - 1] == o.node && o.slot < staged[k - 1].outputs@.len() {
        Wire::Staged(OutletId { node: (k - 1) as usize, slot: o.slot })
    } else {
        image(model, seed, ids, staged, (k - 1) as nat, o)
    }
}

/// Whether `op` may stand in for the operator of the node `n` once the axis
/// is gone: it is what that operator answers when asked to work without the
/// axis, or a copy of the operator where the answer is that it can stay.
pub open spec fn rewritten_op<O: TypedOp<O> + Clone>(
    model: &ModelImpl<TypedFact, O>,
    seed: (OutletId, usize),
    n: usize,
    op: O,
) -> bool {
    let at = model.nodes@[n as int];
    let axes = carried_axes(model, seed, n);
    ||| at.op.disposes(model, &at, axes, Ok(Some(op)))
    ||| (at.op.disposes(model, &at, axes, Ok(None)) && cloned::<O>(at.op, op))
}

/// Whether the staged node at place `j` is the node `ids[j]` of the model
/// without the axis: it has the name of that node, reads what stands for the
/// inputs of that node, and holds the operator rewritten.
pub open spec fn stages<O: TypedOp<O> + Clone>(
    model: &ModelImpl<TypedFact, O>,
    seed: (OutletId, usize),
    ids: Seq<usize>,
    staged: Seq<StagedNode<TypedFact, O>>,
    j: int,
) -> bool {
    let s = staged[j];
    let at = model.nodes@[ids[j] as int];
    &&& s.name@ == at.name@
    &&& s.inputs@ == Seq::new(
        at.inputs@.len(),
        |i: int| image(model, seed, ids, staged, j as nat, at.inputs@[i]),
    )
    &&& rewritten_op(model, seed, ids[j], s.op)
}

/// The fact of what a wire of a patch for the model stands for: the fact
/// that the model holds for a tapped outlet, or the fact that the staged
/// node holds for its output.
pub open spec fn image_fact<O>(
    model: &ModelImpl<TypedFact, O>,
    staged: Seq<StagedNode<TypedFact, O>>,
    wire: Wire,
) -> TypedFactView {
    match wire {
        Wire::Tapped(o) => model.nodes@[o.node as int].outputs@[o.slot as int]@,
        Wire::Staged(o) => staged[o.node as int].outputs@[o.slot as int]@,
    }
}

/// The facts of what the wires stand for.
pub open spec fn image_facts<O>(
    model: &ModelImpl<TypedFact, O>,
    staged: Seq<StagedNode<TypedFact, O>>,
    wires: Seq<Wire>,
) -> Seq<TypedFactView> {
    Seq::new(wires.len(), |k: int| image_fact(model, staged, wires[k]))
}

/// Whether the staged node at place `j` holds, for its outputs, the facts
/// that its operator computes from the facts of what it reads.
pub open spec fn stage_facts<O: TypedOp<O>>(
    model: &ModelImpl<TypedFact, O>,
    staged: Seq<StagedNode<TypedFact, O>>,
    j: int,
) -> bool {
    Ok::<Seq<TypedFactView>, ErrorKind>(typed_views(staged[j].outputs@))
        == staged[j].op.output_facts_spec(image_facts(model, staged, staged[j].inputs@))
}

/// Whether the patch holds, for each outlet that it taps, the fact that the
/// model holds for it.
pub open spec fn taps_true<O>(
    model: &ModelImpl<TypedFact, O>,
    patch: &ModelPatch<TypedFact, O>,
) -> bool {
    forall|o: OutletId| #[trigger]
        patch.taps@.contains_key(o) ==> patch.taps@[o]@
            == model.nodes@[o.node as int].outputs@[o.slot as int]@
}

/// Whether the patch drops the axis `seed` from the model, whose evaluation
/// order is `order`.
///
/// The patch stages, in evaluation order, the nodes that the axis goes
/// through, each rewritten to work without it, with the facts that its
/// operator then computes. The output of each operator at which the axis
/// ends, and on which an output of the model depends, is replaced by what
/// stands for the input of that operator; so the operators that insert the
/// axis and those that remove it are left behind.
pub open spec fn rewrites<O: TypedOp<O> + Clone>(
    model: &ModelImpl<TypedFact, O>,
    seed: (OutletId, usize),
    order: Seq<usize>,
    patch: &ModelPatch<TypedFact, O>,
) -> bool {
    let ids = rewritten(model, seed, order, order.len());
    &&& patch.nodes@.len() == ids.len()
    &&& forall|j: int| 0 <= j < ids.len() ==> #[trigger] stages(model, seed, ids, patch.nodes@, j)
    &&& forall|j: int| 0 <= j < ids.len() ==> #[trigger] stage_facts(model, patch.nodes@, j)
    &&& taps_true(model, patch)
    &&& bypasses(model, seed, patch.shunts@)
    &&& forall|o: OutletId| #[trigger]
        patch.shunts@.contains_key(o) ==> patch.shunts@[o] == image(
            model,
            seed,
            ids,
            patch.nodes@,
            ids.len(),
            model.nodes@[o.node as int].inputs@[0],
        )
}

/// Whether every operator of the model gives its invariants.
pub open spec fn gives_invariants<O: TypedOp<O>>(model: &ModelImpl<TypedFact, O>) -> bool {
    forall|n: int|
        0 <= n < model.nodes@.len() ==> (#[trigger] model.nodes@[n]).op.invariants_spec(
            model,
            &model.nodes@[n],
        ) is Ok
}

/// Whether the tracking lists what became of the axis `seed`.
pub open spec fn tracks<O: TypedOp<O>>(
    t: &AxisTracking,
    model: &ModelImpl<TypedFact, O>,
    seed: (OutletId, usize),
) -> bool {
    &&& forall|p: (OutletId, usize)| t.outlets@.contains(p) <==> same_axis(model, seed, p)
    &&& forall|c: (OutletId, usize)| t.creators@.contains(c) <==> is_creator(model, seed, c)
    &&& forall|d: (InletId, usize)| t.destructors@.contains(d) <==> is_destructor(model, seed, d)
}

/// Whether no outlet carries the axis `seed` at two places.
pub open spec fn single_axis<O: TypedOp<O>>(
    model: &ModelImpl<TypedFact, O>,
    seed: (OutletId, usize),
) -> bool {
    forall|p: (OutletId, usize), q: (OutletId, usize)|
        same_axis(model, seed, p) && same_axis(model, seed, q) && p.0 == q.0 ==> p.1 == q.1
}

/// Whether the mapping holds, for each outlet it knows, what stands for it
/// in the patch, and knows every outlet that something else than itself
/// stands for.
pub open spec fn maps_images<O: TypedOp<O>>(
    model: &ModelImpl<TypedFact, O>,
    seed: (OutletId, usize),
    ids: Seq<usize>,
    patch: &ModelPatch<TypedFact, O>,
    mapping: Map<OutletId, Wire>,
) -> bool {
    let k = patch.nodes@.len();
    &&& ids.len() == k
    &&& forall|o: OutletId| #[trigger]
        mapping.contains_key(o) ==> mapping[o] == image(model, seed, ids, patch.nodes@, k, o)
            && patch.wire_ok(mapping[o], k as int)
    &&& forall|o: OutletId| #[trigger] begins_at(model, seed, o) ==> mapping.contains_key(o)
    &&& forall|o: OutletId, j: int|
        #![trigger mapping.contains_key(o), ids[j]]
        0 <= j < k && ids[j] == o.node && o.slot < patch.nodes@[j].outputs@.len()
            ==> mapping.contains_key(o)
}

/// Where an outlet carries the axis at one place only, that place is the
/// place of the axis in it.
pub proof fn lemma_axis_at<O: TypedOp<O>>(
    model: &ModelImpl<TypedFact, O>,
    seed: (OutletId, usize),
    o: OutletId,
    a: usize,
)
    requires
        single_axis(model, seed),
        same_axis(model, seed, (o, a)),
    ensures
        axis_at(model, seed, o) == Some(a),
{
    let b = choose|b: usize| same_axis(model, seed, (o, b));
    assert(same_axis(model, seed, (o, b)));
}

/// What stands for an outlet depends on the staged nodes considered only.
pub proof fn lemma_image_grows<O: TypedOp<O>>(
    model: &ModelImpl<TypedFact, O>,
    seed: (OutletId, usize),
    ids: Seq<usize>,
    staged: Seq<StagedNode<TypedFact, O>>,
    ids2: Seq<usize>,
    staged2: Seq<StagedNode<TypedFact, O>>,
    k: nat,
    o: OutletId,
)
    requires
        k <= ids.len(),
        k <= staged.len(),
        k <= ids2.len(),
        k <= staged2.len(),
        forall|j: int| 0 <= j < k ==> #[trigger] ids[j] == ids2[j],
        forall|j: int|
            0 <= j < k ==> (#[trigger] staged[j]).outputs@.len() == staged2[j].outputs@.len(),
    ensures
        image(model, seed, ids, staged, k, o) == image(model, seed, ids2, staged2, k, o),
    decreases k,
{
    if k > 0 {
        assert(staged[k - 1].outputs@.len() == staged2[k - 1].outputs@.len());
        lemma_image_grows(model, seed, ids, staged, ids2, staged2, (k - 1) as nat, o);
    }
}

/// An outlet at which the axis does not begin, and which is no output of a
/// staged node, stands for itself.
pub proof fn lemma_image_untouched<O: TypedOp<O>>(
    model: &ModelImpl<TypedFact, O>,
    seed: (OutletId, usize),
    ids: Seq<usize>,
    staged: Seq<StagedNode<TypedFact, O>>,
    k: nat,
    o: OutletId,
)
    requires
        k <= ids.len(),
        k <= staged.len(),
        !begins_at(model, seed, o),
        forall|j: int|
            0 <= j < k ==> !(ids[j] == o.node && o.slot < (#[trigger] staged[j]).outputs@.len()),
    ensures
        image(model, seed, ids, staged, k, o) == Wire::Tapped(o),
    decreases k,
{
    if k > 0 {
        assert(!(ids[k - 1] == o.node && o.slot < staged[k - 1].outputs@.len()));
        lemma_image_untouched(model, seed, ids, staged, (k - 1) as nat, o);
    }
}

/// A staged node stays what it is when more nodes are staged behind it.
pub proof fn lemma_stages_grows<O: TypedOp<O> + Clone>(
    model: &ModelImpl<TypedFact, O>,
    seed: (OutletId, usize),
    ids: Seq<usize>,
    staged: Seq<StagedNode<TypedFact, O>>,
    n: usize,
    added: StagedNode<TypedFact, O>,
    j: int,
)
    requires
        ids.len() == staged.len(),
        0 <= j < ids.len(),
        stages(model, seed, ids, staged, j),
    ensures
        stages(model, seed, ids.push(n), staged.push(added), j),
{
    let at = model.nodes@[ids[j] as int];
    assert forall|i: int| 0 <= i < at.inputs@.len() implies image(
        model,
        seed,
        ids,
        staged,
        j as nat,
        at.inputs@[i],
    ) == image(model, seed, ids.push(n), staged.push(added), j as nat, at.inputs@[i]) by {
        lemma_image_grows(
            model,
            seed,
            ids,
            staged,
            ids.push(n),
            staged.push(added),
            j as nat,
            at.inputs@[i],
        );
    }
    assert(staged.push(added)[j].inputs@ =~= Seq::new(
        at.inputs@.len(),
        |i: int| image(model, seed, ids.push(n), staged.push(added), j as nat, at.inputs@[i]),
    ));
}

/// A staged node keeps its facts when more nodes are staged behind it.
pub proof fn lemma_stage_facts_grows<O: TypedOp<O>>(
    model: &ModelImpl<TypedFact, O>,
    staged: Seq<StagedNode<TypedFact, O>>,
    added: StagedNode<TypedFact, O>,
    j: int,
)
    requires
        0 <= j < staged.len(),
        stage_facts(model, staged, j),
        forall|k: int|
            0 <= k < staged[j].inputs@.len() ==> match #[trigger] staged[j].inputs@[k] {
                Wire::Tapped(o) => true,
                Wire::Staged(o) => o.node < j,
            },
    ensures
        stage_facts(model, staged.push(added), j),
{
    let longer = staged.push(added);
    assert(longer[j] == staged[j]);
    assert(image_facts(model, longer, staged[j].inputs@) =~= image_facts(
        model,
        staged,
        staged[j].inputs@,
    )) by {
        assert forall|k: int| 0 <= k < staged[j].inputs@.len() implies image_fact(
            model,
            longer,
            staged[j].inputs@[k],
        ) == image_fact(model, staged, staged[j].inputs@[k]) by {
            match staged[j].inputs@[k] {
                Wire::Tapped(o) => {},
                Wire::Staged(o) => {
                    assert(longer[o.node as int] == staged[o.node as int]);
                },
            }
        }
    }
}

/// The place of the axis in each input of the node `n`, and whether one of
/// them carries it.
fn carried_by<O: TypedOp<O>>(
    model: &ModelImpl<TypedFact, O>,
    tracking: &AxisTracking,
    n: usize,
    Ghost(seed): Ghost<(OutletId, usize)>,
) -> (r: (Vec<Option<usize>>, bool))
    requires
        n < model.nodes@.len(),
        tracks(tracking, model, seed),
        single_axis(model, seed),
    ensures
        r.0@ == carried_axes(model, seed, n),
        r.1 == exists|i: int|
            0 <= i < model.nodes@[n as int].inputs@.len() && carries_axis(
                model,
                seed,
                #[trigger] model.nodes@[n as int].inputs@[i],
            ),
{
    let at = model.node(n);
    let mut axes: Vec<Option<usize>> = Vec::new();
    let mut carried = false;
    let mut k: usize = 0;
    while k < at.inputs.len()
        invariant
            *at == model.nodes@[n as int],
            tracks(tracking, model, seed),
            single_axis(model, seed),
            k <= at.inputs@.len(),
            axes@.len() == k,
            forall|i: int| 0 <= i < k ==> #[trigger] axes@[i] == axis_at(model, seed, at.inputs@[i]),
            carried == exists|i: int|
                0 <= i < k && carries_axis(model, seed, #[trigger] at.inputs@[i]),
        decreases at.inputs@.len() - k,
    {
        let read = at.inputs[k];
        let axis = tracking.axis_of(read);
        proof {
            match axis {
                Some(a) => {
                    assert(tracking.outlets@.contains((read, a)));
                    assert(same_axis(model, seed, (read, a)));
                    lemma_axis_at(model, seed, read, a);
                },
                None => {
                    if carries_axis(model, seed, read) {
                        let a = choose|a: usize| same_axis(model, seed, (read, a));
                        assert(tracking.outlets@.contains((read, a)));
                    }
                },
            }
            assert(axis == axis_at(model, seed, read));
        }
        if axis.is_some() {
            carried = true;
        }
        axes.push(axis);
        k += 1;
    }
    assert(axes@ =~= carried_axes(model, seed, n));
    (axes, carried)
}

/// The wire that stands for the outlet `o`: what the mapping holds for it,
/// or else a new tap of it.
fn wire_image<O: TypedOp<O>>(
    model: &ModelImpl<TypedFact, O>,
    patch: &mut ModelPatch<TypedFact, O>,
    mapping: &mut OutletMap<Wire>,
    o: OutletId,
    Ghost(seed): Ghost<(OutletId, usize)>,
    Ghost(ids): Ghost<Seq<usize>>,
) -> (r: TractResult<Wire>)
    requires
        old(patch).wf(),
        old(patch).fits(model.nodes@),
        outlet_exists(model.nodes@, o),
        maps_images(model, seed, ids, old(patch), old(mapping)@),
        taps_true(model, old(patch)),
    ensures
        final(patch).wf(),
        final(patch).fits(model.nodes@),
        final(patch).nodes == old(patch).nodes,
        final(patch).shunts == old(patch).shunts,
        maps_images(model, seed, ids, final(patch), final(mapping)@),
        taps_true(model, final(patch)),
        r matches Ok(w) && w == image(model, seed, ids, old(patch).nodes@, ids.len(), o)
            && final(patch).wire_ok(w, ids.len() as int),
{
    match mapping.get(o) {
        Some(w) => {
            return Ok(*w);
        },
        None => {},
    }
    let w = match patch.tap_model(model, o) {
        Ok(w) => w,
        Err(e) => {
            return Err(e);
        },
    };
    mapping.insert(o, w);
    proof {
        let k = ids.len();
        assert forall|j: int| 0 <= j < k implies !(ids[j] == o.node && o.slot < (
        #[trigger] patch.nodes@[j]).outputs@.len()) by {
            if ids[j] == o.node && o.slot < patch.nodes@[j].outputs@.len() {
                assert(old(mapping)@.contains_key(o));
            }
        }
        lemma_image_untouched(model, seed, ids, patch.nodes@, k, o);
        assert forall|x: OutletId| #[trigger] mapping@.contains_key(x) implies mapping@[x] == image(
            model,
            seed,
            ids,
            patch.nodes@,
            k,
            x,
        ) && patch.wire_ok(mapping@[x], k as int) by {
            if x != o {
                assert(old(mapping)@.contains_key(x));
                assert(old(patch).wire_ok(old(mapping)@[x], k as int));
            }
        }
    }
    Ok(w)
}

/// Stages the node `at` of the model, reading `wires`, with what its
/// operator answered when it was asked to work without the axis: the
/// operator that the answer holds, or a copy of the node's own where the
/// answer is that it can stay. An answer that is an error is handed on, and
/// nothing is staged.
pub fn stage_rewritten<O: TypedOp<O> + Clone>(
    patch: &mut ModelPatch<TypedFact, O>,
    at: &BaseNode<TypedFact, O>,
    answer: TractResult<Option<O>>,
    wires: &Vec<Wire>,
) -> (r: TractResult<Vec<Wire>>)
    requires
        old(patch).wf(),
    ensures
        final(patch).wf(),
        final(patch).taps == old(patch).taps,
        final(patch).shunts == old(patch).shunts,
        answer matches Err(e) ==> r == Err::<Vec<Wire>, TractError>(e),
        answer matches Ok(Some(op)) ==> (r is Ok <==> wires_ok(old(patch), wires@)
            && op.output_facts_spec(wire_facts(old(patch), wires@)) is Ok),
        r is Err ==> final(patch).nodes == old(patch).nodes,
        r matches Ok(outs) ==> {
            let added = final(patch).nodes@.last();
            &&& answer is Ok
            &&& final(patch).nodes@.len() == old(patch).nodes@.len() + 1
            &&& final(patch).nodes@.drop_last() == old(patch).nodes@
            &&& added.name@ == at.name@
            &&& added.inputs@ == wires@
            &&& (answer matches Ok(Some(op)) ==> added.op == op)
            &&& (answer matches Ok(None) ==> cloned::<O>(at.op, added.op))
            &&& Ok::<Seq<TypedFactView>, ErrorKind>(typed_views(added.outputs@))
                == added.op.output_facts_spec(wire_facts(old(patch), wires@))
            &&& outs@ == Seq::new(
                added.outputs@.len(),
                |ix: int|
                    Wire::Staged(
                        OutletId { node: old(patch).nodes@.len() as usize, slot: ix as usize },
                    ),
            )
        },
{
    let op = match answer {
        Ok(Some(op)) => op,
        Ok(None) => clone_op(&at.op),
        Err(e) => {
            return Err(e);
        },
    };
    patch.wire_node(at.name.clone(), op, wires)
}

/// Lets each of the wires stand for the output of the node `n` at its
/// place.
fn map_outputs(mapping: &mut OutletMap<Wire>, n: usize, outs: &Vec<Wire>)
    ensures
        forall|o: OutletId| #[trigger]
            final(mapping)@.contains_key(o) <==> old(mapping)@.contains_key(o) || (o.node == n
                && o.slot < outs@.len()),
        forall|o: OutletId| #[trigger]
            final(mapping)@.contains_key(o) ==> final(mapping)@[o] == (if o.node == n && o.slot
                < outs@.len() {
                outs@[o.slot as int]
            } else {
                old(mapping)@[o]
            }),
{
    let mut ix: usize = 0;
    while ix < outs.len()
        invariant
            ix <= outs@.len(),
            forall|o: OutletId| #[trigger]
                mapping@.contains_key(o) <==> old(mapping)@.contains_key(o) || (o.node == n
                    && o.slot < ix),
            forall|o: OutletId| #[trigger]
                mapping@.contains_key(o) ==> mapping@[o] == (if o.node == n && o.slot < ix {
                    outs@[o.slot as int]
                } else {
                    old(mapping)@[o]
                }),
        decreases outs@.len() - ix,
    {
        mapping.insert(OutletId::new(n, ix), outs[ix]);
        ix += 1;
    }
}

/// Stages the node `n` without the axis where the axis goes through it, and
/// says whether it did. It fails where the operator of the node cannot work
/// without the axis, or rejects the facts of what it then reads.
fn rewrite_node<O: TypedOp<O> + Clone>(
    model: &ModelImpl<TypedFact, O>,
    tracking: &AxisTracking,
    n: usize,
    patch: &mut ModelPatch<TypedFact, O>,
    mapping: &mut OutletMap<Wire>,
    Ghost(seed): Ghost<(OutletId, usize)>,
    Ghost(ids): Ghost<Seq<usize>>,
) -> (r: TractResult<bool>)
    requires
        model.wf(),
        n < model.nodes@.len(),
        tracks(tracking, model, seed),
        single_axis(model, seed),
        old(patch).wf(),
        old(patch).fits(model.nodes@),
        maps_images(model, seed, ids, old(patch), old(mapping)@),
        forall|j: int|
            0 <= j < ids.len() ==> #[trigger] stages(model, seed, ids, old(patch).nodes@, j),
        taps_true(model, old(patch)),
        forall|j: int|
            0 <= j < ids.len() ==> #[trigger] stage_facts(model, old(patch).nodes@, j),
    ensures
        final(patch).shunts == old(patch).shunts,
        r is Ok ==> taps_true(model, final(patch)) && forall|j: int|
            0 <= j < final(patch).nodes@.len() ==> #[trigger] stage_facts(
                model,
                final(patch).nodes@,
                j,
            ),
        r is Err ==> goes_through(model, seed, n),
        r matches Ok(staged) ==> {
            &&& staged == goes_through(model, seed, n)
            &&& final(patch).wf()
            &&& final(patch).fits(model.nodes@)
        },
        r == Ok::<bool, TractError>(false) ==> {
            &&& maps_images(model, seed, ids, final(patch), final(mapping)@)
            &&& forall|j: int|
                0 <= j < ids.len() ==> #[trigger] stages(model, seed, ids, final(patch).nodes@, j)
        },
        r == Ok::<bool, TractError>(true) ==> {
            &&& maps_images(model, seed, ids.push(n), final(patch), final(mapping)@)
            &&& forall|j: int|
                0 <= j < ids.len() + 1 ==> #[trigger] stages(
                    model,
                    seed,
                    ids.push(n),
                    final(patch).nodes@,
                    j,
                )
        },
{
    let at = model.node(n);
    let ends = ends_at(&tracking.destructors, n);
    proof {
        if ends {
            let i = choose|i: int|
                0 <= i < tracking.destructors@.len() && (#[trigger] tracking.destructors@[i]).0.node
                    == n;
            assert(tracking.destructors@.contains(tracking.destructors@[i]));
            assert(is_destructor(model, seed, tracking.destructors@[i]));
        } else if ends_in(model, seed, n) {
            let d = choose|d: (InletId, usize)| is_destructor(model, seed, d) && d.0.node == n;
            assert(tracking.destructors@.contains(d));
            let i = choose|i: int|
                0 <= i < tracking.destructors@.len() && tracking.destructors@[i] == d;
            assert(tracking.destructors@[i].0.node == n);
        }
        assert(ends == ends_in(model, seed, n));
    }
    if ends {
        return Ok(false);
    }
    let (axes, carried) = carried_by(model, tracking, n, Ghost(seed));
    if !carried {
        return Ok(false);
    }
    assert(goes_through(model, seed, n));
    let ghost nodes0 = patch.nodes@;
    let mut wires: Vec<Wire> = Vec::new();
    let mut k: usize = 0;
    while k < at.inputs.len()
        invariant
            model.wf(),
            n < model.nodes@.len(),
            *at == model.nodes@[n as int],
            k <= at.inputs@.len(),
            patch.wf(),
            patch.fits(model.nodes@),
            patch.nodes@ == nodes0,
            patch.shunts == old(patch).shunts,
            maps_images(model, seed, ids, patch, mapping@),
            taps_true(model, patch),
            wires@.len() == k,
            forall|i: int|
                0 <= i < k ==> #[trigger] wires@[i] == image(
                    model,
                    seed,
                    ids,
                    nodes0,
                    ids.len(),
                    at.inputs@[i],
                ),
        decreases at.inputs@.len() - k,
    {
        let read = at.inputs[k];
        assert(outlet_exists(model.nodes@, model.nodes@[n as int].inputs@[k as int]));
        let wire = match wire_image(model, patch, mapping, read, Ghost(seed), Ghost(ids)) {
            Ok(w) => w,
            Err(e) => {
                return Err(e);
            },
        };
        wires.push(wire);
        k += 1;
    }
    let answer = at.op.dispose_dummy_axis(model, at, &axes);
    let ghost before_patch = *patch;
    let base = patch.nodes.len();
    let outs = match stage_rewritten(patch, at, answer, &wires) {
        Ok(outs) => outs,
        Err(e) => {
            return Err(e);
        },
    };
    let ghost before_map = mapping@;
    map_outputs(mapping, n, &outs);
    proof {
        let k = ids.len();
        let ids2 = ids.push(n);
        let added = patch.nodes@.last();
        assert(patch.nodes@ =~= nodes0.push(added));
        assert forall|j: int| 0 <= j < patch.nodes@.len() implies #[trigger] stage_facts(
            model,
            patch.nodes@,
            j,
        ) by {
            if j < k {
                assert(stage_facts(model, nodes0, j));
                assert forall|i: int| 0 <= i < nodes0[j].inputs@.len() implies match #[trigger] nodes0[j].inputs@[i] {
                    Wire::Tapped(o) => true,
                    Wire::Staged(o) => o.node < j,
                } by {
                    assert(before_patch.wire_ok(before_patch.nodes@[j].inputs@[i], j));
                }
                lemma_stage_facts_grows(model, nodes0, added, j);
            } else {
                assert(wire_facts(&before_patch, wires@) =~= image_facts(
                    model,
                    patch.nodes@,
                    wires@,
                )) by {
                    assert forall|i: int| 0 <= i < wires@.len() implies crate::typed::wire_fact_view(
                        &before_patch,
                        wires@[i],
                    ) == image_fact(model, patch.nodes@, wires@[i]) by {
                        assert(patch.wire_ok(patch.nodes@[j].inputs@[i], j));
                        match wires@[i] {
                            Wire::Tapped(o) => {
                                assert(patch.taps@.contains_key(o));
                            },
                            Wire::Staged(o) => {
                                assert(patch.nodes@[o.node as int] == nodes0[o.node as int]);
                            },
                        }
                    }
                }
            }
        }
        assert forall|j: int| 0 <= j < ids2.len() implies #[trigger] stages(
            model,
            seed,
            ids2,
            patch.nodes@,
            j,
        ) by {
            if j < k {
                lemma_stages_grows(model, seed, ids, nodes0, n, added, j);
            } else {
                assert forall|i: int| 0 <= i < at.inputs@.len() implies wires@[i] == image(
                    model,
                    seed,
                    ids2,
                    patch.nodes@,
                    k,
                    at.inputs@[i],
                ) by {
                    lemma_image_grows(
                        model,
                        seed,
                        ids,
                        nodes0,
                        ids2,
                        patch.nodes@,
                        k,
                        at.inputs@[i],
                    );
                }
                assert(added.inputs@ =~= Seq::new(
                    at.inputs@.len(),
                    |i: int| image(model, seed, ids2, patch.nodes@, k, at.inputs@[i]),
                ));
                assert(rewritten_op(model, seed, n, added.op));
            }
        }
        assert forall|o: OutletId| #[trigger] mapping@.contains_key(o) implies mapping@[o] == image(
            model,
            seed,
            ids2,
            patch.nodes@,
            (k + 1) as nat,
            o,
        ) && patch.wire_ok(mapping@[o], (k + 1) as int) by {
            if o.node == n && o.slot < outs@.len() {
                assert(base == k);
                assert(mapping@[o] == outs@[o.slot as int]);
                assert(mapping@[o] == Wire::Staged(OutletId { node: k as usize, slot: o.slot }));
                assert(ids2[k as int] == n);
                assert(patch.nodes@[k as int] == added);
                assert(image(model, seed, ids2, patch.nodes@, (k + 1) as nat, o) == Wire::Staged(
                    OutletId { node: k as usize, slot: o.slot },
                ));
                assert(patch.wire_ok(mapping@[o], (k + 1) as int));
            } else {
                assert(mapping@[o] == before_map[o]);
                assert(ids2[k as int] == n);
                assert(patch.nodes@[k as int] == added);
                assert(image(model, seed, ids2, patch.nodes@, (k + 1) as nat, o) == image(
                    model,
                    seed,
                    ids2,
                    patch.nodes@,
                    k,
                    o,
                ));
                assert(before_map.contains_key(o));
                lemma_image_grows(model, seed, ids, nodes0, ids2, patch.nodes@, k, o);
                assert(before_patch.wire_ok(before_map[o], k as int));
                assert(before_map[o] == image(model, seed, ids, nodes0, k, o));
                assert(mapping@[o] == image(model, seed, ids2, patch.nodes@, (k + 1) as nat, o));
                match before_map[o] {
                    Wire::Tapped(x) => {
                        assert(patch.wire_ok(mapping@[o], (k + 1) as int));
                    },
                    Wire::Staged(x) => {
                        assert(patch.nodes@[x.node as int] == nodes0[x.node as int]);
                        assert(patch.wire_ok(mapping@[o], (k + 1) as int));
                    },
                }
            }
        }
        assert forall|o: OutletId, j: int|
            #![trigger mapping@.contains_key(o), ids2[j]]
            0 <= j < k + 1 && ids2[j] == o.node && o.slot
                < patch.nodes@[j].outputs@.len() implies mapping@.contains_key(o) by {
            if j < k {
                assert(patch.nodes@[j] == nodes0[j]);
                assert(ids[j] == o.node);
                assert(before_map.contains_key(o));
            }
        }
    }
    Ok(true)
}

/// Proposes to drop the axis `axis` of `outlet` from the whole model, where
/// that can be done.
///
/// The axis is followed through the model. Where it is entangled, there is
/// no proposal. Otherwise the patch reads, for each operator that inserts
/// the axis, what that operator reads; holds a copy of each node that the
/// axis goes through, made to work without the axis and wired to the copies
/// before it; and replaces the output of each operator that removes the
/// axis by what stands, in the patch, for the input of that operator.
///
/// It fails where the model has no such outlet, where an operator fails to
/// give its invariants, where the axis is not entangled and the model cannot
/// be ordered, and where an operator that the axis goes through cannot work
/// without it.
pub fn elide_axis<O>(model: &ModelImpl<TypedFact, O>, outlet: OutletId, axis: usize) -> (r:
    TractResult<Option<ModelPatch<TypedFact, O>>>) where
    O: TypedOp<O> + Clone + OpAs<RmDim> + OpAs<AddDim>,

    requires
        model.wf(),
    ensures
        !outlet_exists(model.nodes@, outlet) ==> r is Err,
        r matches Ok(None) ==> entangled(model, (outlet, axis)),
        r matches Ok(Some(patch)) ==> {
            &&& patch.wf()
            &&& patch.fits(model.nodes@)
            &&& !entangled(model, (outlet, axis))
            &&& forall|order: Seq<usize>| #[trigger]
                model.is_eval_order(order) ==> rewrites(model, (outlet, axis), order, &patch)
        },
        outlet_exists(model.nodes@, outlet) && gives_invariants(model) && entangled(
            model,
            (outlet, axis),
        ) ==> r matches Ok(None),
        outlet_exists(model.nodes@, outlet) && gives_invariants(model) && !entangled(
            model,
            (outlet, axis),
        ) && !can_be_ordered(model) ==> r is Err,
        outlet_exists(model.nodes@, outlet) && gives_invariants(model) && !entangled(
            model,
            (outlet, axis),
        ) && can_be_ordered(model) && (forall|n: int| #[trigger]
            model.needs(n) ==> !goes_through(model, (outlet, axis), n as usize)) ==> r matches Ok(
            Some(_),
        ),
{
    let ghost seed = (outlet, axis);
    let tracking = match AxisTracking::for_outlet_and_axis(model, outlet, axis) {
        Ok(t) => t,
        Err(e) => {
            proof {
                if outlet_exists(model.nodes@, outlet) {
                    let n = choose|n: int|
                        0 <= n < model.nodes@.len() && (
                        #[trigger] model.nodes@[n]).op.invariants_spec(model, &model.nodes@[n])
                            == Err::<Seq<AxisInfoView>, ErrorKind>(e.kind);
                    assert(model.nodes@[n].op.invariants_spec(model, &model.nodes@[n]) is Err);
                }
            }
            return Err(e);
        },
    };
    assert(tracks(&tracking, model, seed));
    let creators_ok = all_create(model, &tracking.creators);
    let destructors_ok = all_destroy(model, &tracking.destructors);
    let single = one_axis_each(&tracking.outlets);
    if !(tracking.disposable && creators_ok && destructors_ok && single) {
        proof {
            if !creators_ok {
                let i = choose|i: int|
                    0 <= i < tracking.creators@.len() && !creates(
                        model,
                        #[trigger] tracking.creators@[i],
                    );
                assert(tracking.creators@.contains(tracking.creators@[i]));
            } else if !destructors_ok {
                let i = choose|i: int|
                    0 <= i < tracking.destructors@.len() && !destroys(
                        model,
                        #[trigger] tracking.destructors@[i],
                    );
                assert(tracking.destructors@.contains(tracking.destructors@[i]));
            } else if !single {
                let (i, j) = choose|i: int, j: int|
                    0 <= i < tracking.outlets@.len() && 0 <= j < tracking.outlets@.len() && (
                    #[trigger] tracking.outlets@[i]).0 == (#[trigger] tracking.outlets@[j]).0
                        && tracking.outlets@[i].1 != tracking.outlets@[j].1;
                assert(tracking.outlets@.contains(tracking.outlets@[i]));
                assert(tracking.outlets@.contains(tracking.outlets@[j]));
            }
            assert(entangled(model, seed));
        }
        return Ok(None);
    }
    proof {
        assert(single_axis(model, seed)) by {
            assert forall|p: (OutletId, usize), q: (OutletId, usize)|
                same_axis(model, seed, p) && same_axis(model, seed, q) && p.0 == q.0 implies p.1
                == q.1 by {
                assert(tracking.outlets@.contains(p));
                assert(tracking.outlets@.contains(q));
                let i = choose|i: int| 0 <= i < tracking.outlets@.len() && tracking.outlets@[i] == p;
                let j = choose|j: int| 0 <= j < tracking.outlets@.len() && tracking.outlets@[j] == q;
                assert(tracking.outlets@[i].0 == tracking.outlets@[j].0);
            }
        }
        assert(!entangled(model, seed)) by {
            if exists|c: (OutletId, usize)| is_creator(model, seed, c) && !creates(model, c) {
                let c = choose|c: (OutletId, usize)|
                    is_creator(model, seed, c) && !creates(model, c);
                assert(tracking.creators@.contains(c));
                let i = choose|i: int|
                    0 <= i < tracking.creators@.len() && tracking.creators@[i] == c;
                assert(creates(model, tracking.creators@[i]));
            }
            if exists|d: (InletId, usize)| is_destructor(model, seed, d) && !destroys(model, d) {
                let d = choose|d: (InletId, usize)|
                    is_destructor(model, seed, d) && !destroys(model, d);
                assert(tracking.destructors@.contains(d));
                let i = choose|i: int|
                    0 <= i < tracking.destructors@.len() && tracking.destructors@[i] == d;
                assert(destroys(model, tracking.destructors@[i]));
            }
        }
    }
    let mut patch: ModelPatch<TypedFact, O> = ModelPatch::new();
    let mut mapping: OutletMap<Wire> = OutletMap::new();
    let mut c: usize = 0;
    while c < tracking.creators.len()
        invariant
            model.wf(),
            c <= tracking.creators@.len(),
            tracks(&tracking, model, seed),
            seed == (outlet, axis),
            forall|i: int|
                0 <= i < tracking.creators@.len() ==> creates(
                    model,
                    #[trigger] tracking.creators@[i],
                ),
            !entangled(model, seed),
            patch.wf(),
            patch.fits(model.nodes@),
            patch.shunts@ == Map::<OutletId, Wire>::empty(),
            patch.nodes@.len() == 0,
            taps_true(model, &patch),
            forall|o: OutletId| #[trigger]
                mapping@.contains_key(o) ==> begins_at(model, seed, o) && mapping@[o]
                    == Wire::Tapped(model.nodes@[o.node as int].inputs@[0])
                    && patch.taps@.contains_key(model.nodes@[o.node as int].inputs@[0]),
            forall|i: int|
                0 <= i < c ==> mapping@.contains_key((#[trigger] tracking.creators@[i]).0),
        decreases tracking.creators@.len() - c,
    {
        let creator = tracking.creators[c];
        assert(creates(model, tracking.creators@[c as int]));
        assert(tracking.creators@.contains(creator));
        assert(is_creator(model, seed, (creator.0, creator.1)));
        let made_by = model.node(creator.0.node);
        assert(outlet_exists(model.nodes@, model.nodes@[creator.0.node as int].inputs@[0]));
        let wire = match patch.tap_model(model, made_by.inputs[0]) {
            Ok(w) => w,
            Err(e) => {
                return Err(e);
            },
        };
        mapping.insert(creator.0, wire);
        c += 1;
    }
    let order = match model.eval_order() {
        Ok(order) => order,
        Err(e) => {
            return Err(e);
        },
    };
    let ghost mut ids: Seq<usize> = Seq::empty();
    proof {
        assert forall|o: OutletId| #[trigger] begins_at(model, seed, o) implies mapping@.contains_key(
            o,
        ) by {
            let a = choose|a: usize| is_creator(model, seed, (o, a));
            assert(tracking.creators@.contains((o, a)));
            let i = choose|i: int|
                0 <= i < tracking.creators@.len() && tracking.creators@[i] == (o, a);
            assert(mapping@.contains_key(tracking.creators@[i].0));
        }
        assert(maps_images(model, seed, ids, &patch, mapping@));
    }
    let mut p: usize = 0;
    while p < order.len()
        invariant
            model.wf(),
            p <= order@.len(),
            forall|q: int| 0 <= q < order@.len() ==> (#[trigger] order@[q]) < model.nodes@.len(),
            model.is_eval_order(order@),
            tracks(&tracking, model, seed),
            single_axis(model, seed),
            seed == (outlet, axis),
            forall|i: int|
                0 <= i < tracking.destructors@.len() ==> destroys(
                    model,
                    #[trigger] tracking.destructors@[i],
                ),
            !entangled(model, seed),
            patch.wf(),
            patch.fits(model.nodes@),
            patch.shunts@ == Map::<OutletId, Wire>::empty(),
            ids == rewritten(model, seed, order@, p as nat),
            maps_images(model, seed, ids, &patch, mapping@),
            forall|j: int| 0 <= j < ids.len() ==> #[trigger] stages(model, seed, ids, patch.nodes@, j),
            forall|j: int| 0 <= j < ids.len() ==> #[trigger] stage_facts(model, patch.nodes@, j),
            taps_true(model, &patch),
        decreases order@.len() - p,
    {
        let n = order[p];
        assert(model.needs(order@[p as int] as int));
        let staged = match rewrite_node(
            model,
            &tracking,
            n,
            &mut patch,
            &mut mapping,
            Ghost(seed),
            Ghost(ids),
        ) {
            Ok(staged) => staged,
            Err(e) => {
                return Err(e);
            },
        };
        proof {
            if staged {
                ids = ids.push(n);
            }
        }
        p += 1;
    }
    let mut d: usize = 0;
    while d < tracking.destructors.len()
        invariant
            model.wf(),
            d <= tracking.destructors@.len(),
            tracks(&tracking, model, seed),
            seed == (outlet, axis),
            forall|i: int|
                0 <= i < d && order@.contains((#[trigger] tracking.destructors@[i]).0.node)
                    ==> patch.shunts@.contains_key(
                    OutletId { node: tracking.destructors@[i].0.node, slot: 0 },
                ),
            forall|i: int|
                0 <= i < tracking.destructors@.len() ==> destroys(
                    model,
                    #[trigger] tracking.destructors@[i],
                ),
            !entangled(model, seed),
            patch.wf(),
            patch.fits(model.nodes@),
            ids == rewritten(model, seed, order@, order@.len()),
            maps_images(model, seed, ids, &patch, mapping@),
            forall|j: int| 0 <= j < ids.len() ==> #[trigger] stages(model, seed, ids, patch.nodes@, j),
            forall|j: int| 0 <= j < ids.len() ==> #[trigger] stage_facts(model, patch.nodes@, j),
            taps_true(model, &patch),
            forall|o: OutletId| #[trigger]
                patch.shunts@.contains_key(o) ==> o.slot == 0 && order@.contains(o.node)
                    && patch.shunts@[o] == image(
                    model,
                    seed,
                    ids,
                    patch.nodes@,
                    ids.len(),
                    model.nodes@[o.node as int].inputs@[0],
                ) && exists|i: int|
                    0 <= i < tracking.destructors@.len() && (
                    #[trigger] tracking.destructors@[i]).0.node == o.node,
        decreases tracking.destructors@.len() - d,
    {
        let end = tracking.destructors[d];
        assert(destroys(model, tracking.destructors@[d as int]));
        if in_order(&order, end.0.node) {
            let at = model.node(end.0.node);
            assert(outlet_exists(model.nodes@, model.nodes@[end.0.node as int].inputs@[0]));
            let by = match wire_image(
                model,
                &mut patch,
                &mut mapping,
                at.inputs[0],
                Ghost(seed),
                Ghost(ids),
            ) {
                Ok(w) => w,
                Err(e) => {
                    return Err(e);
                },
            };
            let out = OutletId::new(end.0.node, 0);
            match patch.shunt_outside(out, by) {
                Ok(()) => {},
                Err(e) => {
                    return Err(e);
                },
            }
            assert(tracking.destructors@[d as int].0.node == out.node);
            assert(outlet_exists(model.nodes@, out));
        }
        d += 1;
    }
    proof {
        assert forall|o: OutletId| #[trigger] patch.shunts@.contains_key(o) implies o.slot == 0
            && model.needs(o.node as int) && exists|e: (InletId, usize)|
            is_destructor(model, seed, e) && e.0.node == o.node by {
            let i = choose|i: int|
                0 <= i < tracking.destructors@.len() && (#[trigger] tracking.destructors@[i]).0.node
                    == o.node;
            assert(tracking.destructors@.contains(tracking.destructors@[i]));
            let q = choose|q: int| 0 <= q < order@.len() && order@[q] == o.node;
            assert(model.needs(order@[q] as int));
        }
        assert forall|e: (InletId, usize)|
            #![trigger is_destructor(model, seed, e)]
            is_destructor(model, seed, e) && model.needs(
                e.0.node as int,
            ) implies patch.shunts@.contains_key(OutletId { node: e.0.node, slot: 0 }) by {
            assert(tracking.destructors@.contains(e));
            let i = choose|i: int|
                0 <= i < tracking.destructors@.len() && tracking.destructors@[i] == e;
            assert(occurs_before(order@, order@.len() as int, e.0.node));
            let q = choose|q: int|
                0 <= q < order@.len() as int && q < order@.len() && #[trigger] order@[q] == e.0.node;
            assert(order@.contains(tracking.destructors@[i].0.node));
        }
        assert(rewrites(model, seed, order@, &patch));
        assert forall|other: Seq<usize>| #[trigger] model.is_eval_order(other) implies rewrites(
            model,
            seed,
            other,
            &patch,
        ) by {
            model.lemma_eval_order_unique(order@, other);
        }
    }
    Ok(Some(patch))
}

} // verus!
