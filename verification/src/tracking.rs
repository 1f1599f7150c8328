//! Following one axis of one tensor through a resolved model.
//!
//! Starting from an axis of an outlet, the tracking collects every axis of
//! every outlet that the operators' invariants tie to it, and finds where the
//! axis begins and where it ends.
use vstd::prelude::*;
use vstd::set_lib::{lemma_int_range, lemma_len_subset, set_int_range};
use crate::error::{ErrorKind, TractError, TractResult};
use crate::fact::TypedFact;
use crate::model::{outlet_exists, ModelImpl};
use crate::ops::{AxisInfoView, Invariants, TypedOp};
use crate::outlet::{InletId, OutletId};

verus! {

/// The axes that the node `n` of `model` leaves as they are; none where the
/// operator fails to say.
pub open spec fn node_invariants<O: TypedOp<O>>(model: &ModelImpl<TypedFact, O>, n: int) -> Seq<
    AxisInfoView,
> {
    match model.nodes@[n].op.invariants_spec(model, &model.nodes@[n]) {
        Ok(axes) => axes,
        Err(_) => Seq::empty(),
    }
}

/// Whether the `j`-th invariant axis of the node `n` is the axis `p.1` of the
/// outlet `p.0`, which the node produces or reads.
pub open spec fn touches<O: TypedOp<O>>(
    model: &ModelImpl<TypedFact, O>,
    n: int,
    j: int,
    p: (OutletId, usize),
) -> bool {
    &&& 0 <= n < model.nodes@.len()
    &&& 0 <= j < node_invariants(model, n).len()
    &&& {
        ||| (p.0.node == n && p.0.slot < model.nodes@[n].outputs@.len() && node_invariants(
            model,
            n,
        )[j].on_output(p.0.slot as int, p.1))
        ||| exists|k: int|
            0 <= k < model.nodes@[n].inputs@.len() && #[trigger] model.nodes@[n].inputs@[k] == p.0
                && node_invariants(model, n)[j].on_input(k, p.1)
    }
}

/// Whether the set holds, with an axis of an outlet, every axis of an outlet
/// that an invariant of a node ties to it.
pub open spec fn closed_under_invariants<O: TypedOp<O>>(
    model: &ModelImpl<TypedFact, O>,
    t: Set<(OutletId, usize)>,
) -> bool {
    forall|n: int, j: int, p: (OutletId, usize), q: (OutletId, usize)|
        t.contains(p) && #[trigger] touches(model, n, j, p) && #[trigger] touches(model, n, j, q)
            ==> t.contains(q)
}

/// Whether the axis `p.1` of the outlet `p.0` is the same axis as `seed`: it
/// is in every set that holds `seed` and is closed under the invariants.
pub open spec fn same_axis<O: TypedOp<O>>(
    model: &ModelImpl<TypedFact, O>,
    seed: (OutletId, usize),
    p: (OutletId, usize),
) -> bool {
    forall|t: Set<(OutletId, usize)>|
        (#[trigger] closed_under_invariants(model, t)) && t.contains(seed) ==> t.contains(p)
}

/// Whether the followed axis begins at `p`: no invariant of the node that
/// produces the outlet holds it as an axis of that output.
pub open spec fn is_creator<O: TypedOp<O>>(
    model: &ModelImpl<TypedFact, O>,
    seed: (OutletId, usize),
    p: (OutletId, usize),
) -> bool {
    &&& same_axis(model, seed, p)
    &&& p.0.node < model.nodes@.len()
    &&& forall|j: int|
        0 <= j < node_invariants(model, p.0.node as int).len() ==> !(#[trigger] node_invariants(
            model,
            p.0.node as int,
        )[j]).on_output(p.0.slot as int, p.1)
}

/// Whether the followed axis ends at the inlet `d.0`, where it is the axis
/// `d.1` of what is read: no invariant of the reading node holds it as an
/// axis of that input.
pub open spec fn is_destructor<O: TypedOp<O>>(
    model: &ModelImpl<TypedFact, O>,
    seed: (OutletId, usize),
    d: (InletId, usize),
) -> bool {
    &&& d.0.node < model.nodes@.len()
    &&& d.0.slot < model.nodes@[d.0.node as int].inputs@.len()
    &&& same_axis(model, seed, (model.nodes@[d.0.node as int].inputs@[d.0.slot as int], d.1))
    &&& forall|j: int|
        0 <= j < node_invariants(model, d.0.node as int).len() ==> !(#[trigger] node_invariants(
            model,
            d.0.node as int,
        )[j]).on_input(d.0.slot as int, d.1)
}

/// Whether every invariant that holds a followed axis lets it be dropped.
pub open spec fn all_disposable<O: TypedOp<O>>(
    model: &ModelImpl<TypedFact, O>,
    seed: (OutletId, usize),
) -> bool {
    forall|n: int, j: int, p: (OutletId, usize)|
        same_axis(model, seed, p) && #[trigger] touches(model, n, j, p) ==> node_invariants(
            model,
            n,
        )[j].disposable
}

/// What became of one axis: where it is, where it begins, where it ends.
#[derive(Debug)]
pub struct AxisTracking {
    /// The outlets that carry the axis, each with the place of the axis.
    pub outlets: Vec<(OutletId, usize)>,
    /// The outlets at which the axis begins.
    pub creators: Vec<(OutletId, usize)>,
    /// The inlets at which the axis ends.
    pub destructors: Vec<(InletId, usize)>,
    /// Whether every operator on the way lets the axis be dropped.
    pub disposable: bool,
}

/// Whether the list holds the point.
pub fn has_point(points: &Vec<(OutletId, usize)>, p: (OutletId, usize)) -> (r: bool)
    ensures
        r == points@.contains(p),
{
    let mut i: usize = 0;
    while i < points.len()
        invariant
            i <= points@.len(),
            forall|k: int| 0 <= k < i ==> points@[k] != p,
        decreases points@.len() - i,
    {
        if points[i].0 == p.0 && points[i].1 == p.1 {
            assert(points@[i as int] == p);
            return true;
        }
        i += 1;
    }
    false
}

/// Adds the point to the list unless the list holds it.
fn add_point(points: &mut Vec<(OutletId, usize)>, p: (OutletId, usize))
    ensures
        forall|x: (OutletId, usize)| final(points)@.contains(x) <==> old(points)@.contains(x) || x == p,
        final(points)@.len() >= old(points)@.len(),
        final(points)@.take(old(points)@.len() as int) == old(points)@,
        old(points)@.contains(p) ==> final(points)@ == old(points)@,
{
    if !has_point(points, p) {
        points.push(p);
        proof {
            let before = old(points)@;
            assert(points@.take(before.len() as int) =~= before);
            assert forall|x: (OutletId, usize)| points@.contains(x) <==> before.contains(x) || x
                == p by {
                if points@.contains(x) {
                    let i = choose|i: int| 0 <= i < points@.len() && points@[i] == x;
                    if i < before.len() {
                        assert(before[i] == x);
                    }
                }
                if before.contains(x) {
                    let i = choose|i: int| 0 <= i < before.len() && before[i] == x;
                    assert(points@[i] == x);
                }
                if x == p {
                    assert(points@[before.len() as int] == x);
                }
            }
        }
    } else {
        assert(points@.take(points@.len() as int) =~= points@);
    }
}

/// The invariants of all the nodes of a model, node by node.
fn all_invariants<O: TypedOp<O>>(model: &ModelImpl<TypedFact, O>) -> (r: TractResult<Vec<Invariants>>)
    requires
        model.wf(),
    ensures
        match r {
            Ok(invs) => invs@.len() == model.nodes@.len() && forall|n: int|
                0 <= n < invs@.len() ==> (#[trigger] invs@[n])@ == node_invariants(model, n)
                    && model.nodes@[n].op.invariants_spec(model, &model.nodes@[n]) is Ok,
            Err(e) => exists|n: int|
                0 <= n < model.nodes@.len() && (#[trigger] model.nodes@[n]).op.invariants_spec(
                    model,
                    &model.nodes@[n],
                ) == Err::<Seq<AxisInfoView>, ErrorKind>(e.kind),
        },
{
    let mut invs: Vec<Invariants> = Vec::new();
    let mut n: usize = 0;
    while n < model.nodes.len()
        invariant
            model.wf(),
            n <= model.nodes@.len(),
            invs@.len() == n,
            forall|m: int|
                0 <= m < n ==> (#[trigger] invs@[m])@ == node_invariants(model, m)
                    && model.nodes@[m].op.invariants_spec(model, &model.nodes@[m]) is Ok,
        decreases model.nodes@.len() - n,
    {
        let node = model.node(n);
        match node.op.invariants(model, node) {
            Ok(inv) => {
                assert(node.op.invariants_spec(model, node) == Ok::<Seq<AxisInfoView>, ErrorKind>(
                    inv@,
                ));
                assert(inv@ == node_invariants(model, n as int));
                let ghost before = invs@;
                let ghost view = inv@;
                invs.push(inv);
                proof {
                    assert(invs@[n as int]@ == view);
                    assert forall|m: int| 0 <= m < n + 1 implies (#[trigger] invs@[m])@
                        == node_invariants(model, m) && model.nodes@[m].op.invariants_spec(
                        model,
                        &model.nodes@[m],
                    ) is Ok by {
                        if m < n {
                            assert(invs@[m] == before[m]);
                        }
                    }
                }
            },
            Err(e) => {
                assert(model.nodes@[n as int].op.invariants_spec(model, &model.nodes@[n as int])
                    == Err::<Seq<AxisInfoView>, ErrorKind>(e.kind));
                return Err(e);
            },
        }
        n += 1;
    }
    Ok(invs)
}

/// Whether the `j`-th invariant of the node `n` holds the point.
fn touches_point<O: TypedOp<O>>(
    model: &ModelImpl<TypedFact, O>,
    invs: &Vec<Invariants>,
    n: usize,
    j: usize,
    p: (OutletId, usize),
) -> (r: bool)
    requires
        model.wf(),
        invs@.len() == model.nodes@.len(),
        forall|m: int| 0 <= m < invs@.len() ==> (#[trigger] invs@[m])@ == node_invariants(model, m),
        n < model.nodes@.len(),
        j < invs@[n as int]@.len(),
    ensures
        r == touches(model, n as int, j as int, p),
{
    let node = model.node(n);
    assert(invs@[n as int]@ == node_invariants(model, n as int));
    let info = &invs[n].axes[j];
    assert(info@ == node_invariants(model, n as int)[j as int]);
    if p.0.node == n && p.0.slot < node.outputs.len() && info.on_output(p.0.slot, p.1) {
        return true;
    }
    let mut k: usize = 0;
    while k < node.inputs.len()
        invariant
            k <= node.inputs@.len(),
            n < model.nodes@.len(),
            0 <= j < node_invariants(model, n as int).len(),
            *node == model.nodes@[n as int],
            info@ == node_invariants(model, n as int)[j as int],
            !(p.0.node == n && p.0.slot < node.outputs@.len() && info@.on_output(
                p.0.slot as int,
                p.1,
            )),
            forall|i: int|
                0 <= i < k ==> !(#[trigger] model.nodes@[n as int].inputs@[i] == p.0 && info@.on_input(
                    i,
                    p.1,
                )),
        decreases node.inputs@.len() - k,
    {
        if node.inputs[k] == p.0 && info.on_input(k, p.1) {
            return true;
        }
        k += 1;
    }
    false
}

/// Whether the `j`-th invariant of the node `n` holds one of the points.
fn touches_any<O: TypedOp<O>>(
    model: &ModelImpl<TypedFact, O>,
    invs: &Vec<Invariants>,
    n: usize,
    j: usize,
    points: &Vec<(OutletId, usize)>,
) -> (r: bool)
    requires
        model.wf(),
        invs@.len() == model.nodes@.len(),
        forall|m: int| 0 <= m < invs@.len() ==> (#[trigger] invs@[m])@ == node_invariants(model, m),
        n < model.nodes@.len(),
        j < invs@[n as int]@.len(),
    ensures
        r == exists|i: int|
            0 <= i < points@.len() && touches(model, n as int, j as int, #[trigger] points@[i]),
{
    let mut i: usize = 0;
    while i < points.len()
        invariant
            model.wf(),
            invs@.len() == model.nodes@.len(),
            forall|m: int|
                0 <= m < invs@.len() ==> (#[trigger] invs@[m])@ == node_invariants(model, m),
            n < model.nodes@.len(),
            j < invs@[n as int]@.len(),
            i <= points@.len(),
            forall|k: int| 0 <= k < i ==> !touches(model, n as int, j as int, #[trigger] points@[k]),
        decreases points@.len() - i,
    {
        if touches_point(model, invs, n, j, points[i]) {
            return true;
        }
        i += 1;
    }
    false
}

/// Adds to the points every point that the `j`-th invariant of the node `n`
/// holds.
fn add_touched<O: TypedOp<O>>(
    model: &ModelImpl<TypedFact, O>,
    invs: &Vec<Invariants>,
    n: usize,
    j: usize,
    points: &mut Vec<(OutletId, usize)>,
)
    requires
        model.wf(),
        invs@.len() == model.nodes@.len(),
        forall|m: int| 0 <= m < invs@.len() ==> (#[trigger] invs@[m])@ == node_invariants(model, m),
        n < model.nodes@.len(),
        j < invs@[n as int]@.len(),
    ensures
        forall|x: (OutletId, usize)|
            final(points)@.contains(x) <==> old(points)@.contains(x) || touches(
                model,
                n as int,
                j as int,
                x,
            ),
        final(points)@.len() >= old(points)@.len(),
{
    let node = model.node(n);
    assert(invs@[n as int]@ == node_invariants(model, n as int));
    let info = &invs[n].axes[j];
    assert(info@ == node_invariants(model, n as int)[j as int]);
    let mut k: usize = 0;
    while k < node.inputs.len() && k < info.inputs.len()
        invariant
            *node == model.nodes@[n as int],
            n < model.nodes@.len(),
            0 <= j < node_invariants(model, n as int).len(),
            info@ == node_invariants(model, n as int)[j as int],
            k <= node.inputs@.len(),
            k <= info.inputs@.len(),
            points@.len() >= old(points)@.len(),
            forall|x: (OutletId, usize)|
                points@.contains(x) <==> old(points)@.contains(x) || exists|i: int|
                    0 <= i < k && #[trigger] model.nodes@[n as int].inputs@[i] == x.0 && info@.on_input(
                        i,
                        x.1,
                    ),
        decreases node.inputs@.len() - k,
    {
        let ghost before = points@;
        match info.inputs[k] {
            Some(axis) => {
                add_point(points, (node.inputs[k], axis));
                proof {
                    let added = (node.inputs@[k as int], axis);
                    assert forall|x: (OutletId, usize)|
                        points@.contains(x) <==> old(points)@.contains(x) || exists|i: int|
                            0 <= i < k + 1 && #[trigger] model.nodes@[n as int].inputs@[i] == x.0
                                && info@.on_input(i, x.1) by {
                        if x == added {
                            assert(model.nodes@[n as int].inputs@[k as int] == x.0 && info@.on_input(
                                k as int,
                                x.1,
                            ));
                        }
                        if exists|i: int|
                            0 <= i < k + 1 && #[trigger] model.nodes@[n as int].inputs@[i] == x.0
                                && info@.on_input(i, x.1) {
                            let i = choose|i: int|
                                0 <= i < k + 1 && #[trigger] model.nodes@[n as int].inputs@[i] == x.0
                                    && info@.on_input(i, x.1);
                            if i < k {
                                assert(before.contains(x));
                            } else {
                                assert(x == added);
                            }
                        }
                        if before.contains(x) && !old(points)@.contains(x) {
                            let i = choose|i: int|
                                0 <= i < k && #[trigger] model.nodes@[n as int].inputs@[i] == x.0
                                    && info@.on_input(i, x.1);
                            assert(i < k + 1);
                        }
                    }
                }
            },
            None => {
                proof {
                    assert forall|x: (OutletId, usize)|
                        points@.contains(x) <==> old(points)@.contains(x) || exists|i: int|
                            0 <= i < k + 1 && #[trigger] model.nodes@[n as int].inputs@[i] == x.0
                                && info@.on_input(i, x.1) by {
                        if exists|i: int|
                            0 <= i < k + 1 && #[trigger] model.nodes@[n as int].inputs@[i] == x.0
                                && info@.on_input(i, x.1) {
                            let i = choose|i: int|
                                0 <= i < k + 1 && #[trigger] model.nodes@[n as int].inputs@[i] == x.0
                                    && info@.on_input(i, x.1);
                            assert(i < k);
                        }
                        if before.contains(x) && !old(points)@.contains(x) {
                            let i = choose|i: int|
                                0 <= i < k && #[trigger] model.nodes@[n as int].inputs@[i] == x.0
                                    && info@.on_input(i, x.1);
                            assert(i < k + 1);
                        }
                    }
                }
            },
        }
        k += 1;
    }
    let ghost middle = points@;
    proof {
        assert forall|x: (OutletId, usize)|
            middle.contains(x) <==> old(points)@.contains(x) || exists|i: int|
                0 <= i < node.inputs@.len() && #[trigger] model.nodes@[n as int].inputs@[i] == x.0
                    && info@.on_input(i, x.1) by {
            if exists|i: int|
                0 <= i < node.inputs@.len() && #[trigger] model.nodes@[n as int].inputs@[i] == x.0
                    && info@.on_input(i, x.1) {
                let i = choose|i: int|
                    0 <= i < node.inputs@.len() && #[trigger] model.nodes@[n as int].inputs@[i]
                        == x.0 && info@.on_input(i, x.1);
                assert(i < k);
            }
            if middle.contains(x) && !old(points)@.contains(x) {
                let i = choose|i: int|
                    0 <= i < k && #[trigger] model.nodes@[n as int].inputs@[i] == x.0
                        && info@.on_input(i, x.1);
                assert(i < node.inputs@.len());
            }
        }
    }
    let mut s: usize = 0;
    while s < node.outputs.len() && s < info.outputs.len()
        invariant
            *node == model.nodes@[n as int],
            n < model.nodes@.len(),
            0 <= j < node_invariants(model, n as int).len(),
            info@ == node_invariants(model, n as int)[j as int],
            s <= node.outputs@.len(),
            s <= info.outputs@.len(),
            points@.len() >= old(points)@.len(),
            forall|x: (OutletId, usize)|
                #![trigger points@.contains(x)]
                points@.contains(x) <==> middle.contains(x) || (x.0.node == n && x.0.slot < s
                    && info@.on_output(x.0.slot as int, x.1)),
        decreases node.outputs@.len() - s,
    {
        let ghost before = points@;
        let ghost s0 = s;
        match info.outputs[s] {
            Some(axis) => {
                add_point(points, (OutletId::new(n, s), axis));
            },
            None => {},
        }
        s += 1;
        proof {
            assert forall|x: (OutletId, usize)|
                #![trigger points@.contains(x)]
                points@.contains(x) <==> middle.contains(x) || (x.0.node == n && x.0.slot < s
                    && info@.on_output(x.0.slot as int, x.1)) by {
                assert(before.contains(x) <==> middle.contains(x) || (x.0.node == n && x.0.slot
                    < s0 && info@.on_output(x.0.slot as int, x.1)));
                match info@.outputs[s0 as int] {
                    Some(axis) => {
                        let added = (OutletId { node: n, slot: s0 }, axis);
                        assert(points@.contains(x) <==> before.contains(x) || x == added);
                        if x.0.node == n && x.0.slot == s0 && info@.on_output(x.0.slot as int, x.1) {
                            assert(x.1 == axis);
                            assert(x.0 == added.0);
                            assert(x == added);
                        }
                        if x == added {
                            assert(info@.on_output(s0 as int, axis));
                        }
                    },
                    None => {
                        assert(points@ == before);
                        if x.0.slot == s0 {
                            assert(!info@.on_output(s0 as int, x.1));
                        }
                    },
                }
            }
        }
    }
    proof {
        let ai = node_invariants(model, n as int)[j as int];
        assert forall|x: (OutletId, usize)|
            points@.contains(x) <==> old(points)@.contains(x) || touches(
                model,
                n as int,
                j as int,
                x,
            ) by {
            let by_output = x.0.node == n && x.0.slot < node.outputs@.len() && ai.on_output(
                x.0.slot as int,
                x.1,
            );
            let by_input = exists|i: int|
                0 <= i < node.inputs@.len() && #[trigger] model.nodes@[n as int].inputs@[i] == x.0
                    && ai.on_input(i, x.1);
            assert(touches(model, n as int, j as int, x) <==> by_output || by_input);
            assert(middle.contains(x) <==> old(points)@.contains(x) || by_input);
            if by_output {
                assert(x.0.slot < s);
            }
            assert(points@.contains(x) <==> middle.contains(x) || by_output);
        }
    }
}

/// Whether the list names every invariant of every node, and nothing else.
pub open spec fn lists_invariants<O: TypedOp<O>>(
    model: &ModelImpl<TypedFact, O>,
    flat: Seq<(usize, usize)>,
) -> bool {
    &&& forall|f: int|
        0 <= f < flat.len() ==> (#[trigger] flat[f]).0 < model.nodes@.len() && flat[f].1
            < node_invariants(model, flat[f].0 as int).len()
    &&& forall|n: int, j: int|
        0 <= n < model.nodes@.len() && 0 <= j < node_invariants(model, n).len()
            ==> #[trigger] lists_one(flat, n, j)
}

/// Whether the list names the `j`-th invariant of the node `n`.
pub open spec fn lists_one(flat: Seq<(usize, usize)>, n: int, j: int) -> bool {
    exists|f: int| 0 <= f < flat.len() && (#[trigger] flat[f]).0 == n && flat[f].1 == j
}

/// A point that an invariant holds is an axis of an outlet of the model.
pub proof fn lemma_touched_exists<O: TypedOp<O>>(
    model: &ModelImpl<TypedFact, O>,
    n: int,
    j: int,
    p: (OutletId, usize),
)
    requires
        model.wf(),
        touches(model, n, j, p),
    ensures
        outlet_exists(model.nodes@, p.0),
{
    if !(p.0.node == n && p.0.slot < model.nodes@[n].outputs@.len()) {
        let k = choose|k: int|
            0 <= k < model.nodes@[n].inputs@.len() && #[trigger] model.nodes@[n].inputs@[k] == p.0
                && node_invariants(model, n)[j].on_input(k, p.1);
        assert(outlet_exists(model.nodes@, model.nodes@[n].inputs@[k]));
    }
}

/// What an invariant ties to an axis that is the same as the seed is the
/// same as the seed too.
pub proof fn lemma_same_axis_step<O: TypedOp<O>>(
    model: &ModelImpl<TypedFact, O>,
    seed: (OutletId, usize),
    n: int,
    j: int,
    p: (OutletId, usize),
    q: (OutletId, usize),
)
    requires
        same_axis(model, seed, p),
        touches(model, n, j, p),
        touches(model, n, j, q),
    ensures
        same_axis(model, seed, q),
{
    assert forall|t: Set<(OutletId, usize)>|
        (#[trigger] closed_under_invariants(model, t)) && t.contains(seed) implies t.contains(q) by {
        assert(t.contains(p));
    }
}

/// The seed is the same axis as itself.
pub proof fn lemma_same_axis_seed<O: TypedOp<O>>(
    model: &ModelImpl<TypedFact, O>,
    seed: (OutletId, usize),
)
    ensures
        same_axis(model, seed, seed),
{
}

/// Every invariant of every node, by node and then by place.
fn flat_invariants<O: TypedOp<O>>(model: &ModelImpl<TypedFact, O>, invs: &Vec<Invariants>) -> (flat:
    Vec<(usize, usize)>)
    requires
        invs@.len() == model.nodes@.len(),
        forall|m: int| 0 <= m < invs@.len() ==> (#[trigger] invs@[m])@ == node_invariants(model, m),
    ensures
        lists_invariants(model, flat@),
{
    let mut flat: Vec<(usize, usize)> = Vec::new();
    let mut n: usize = 0;
    while n < invs.len()
        invariant
            n <= invs@.len(),
            invs@.len() == model.nodes@.len(),
            forall|m: int|
                0 <= m < invs@.len() ==> (#[trigger] invs@[m])@ == node_invariants(model, m),
            forall|f: int|
                0 <= f < flat@.len() ==> (#[trigger] flat@[f]).0 < n && flat@[f].1 < node_invariants(
                    model,
                    flat@[f].0 as int,
                ).len(),
            forall|m: int, j: int|
                0 <= m < n && 0 <= j < node_invariants(model, m).len() ==> #[trigger] lists_one(
                    flat@,
                    m,
                    j,
                ),
        decreases invs@.len() - n,
    {
        let mut j: usize = 0;
        assert(invs@[n as int]@ == node_invariants(model, n as int));
        while j < invs[n].axes.len()
            invariant
                n < invs@.len(),
                invs@.len() == model.nodes@.len(),
                invs@[n as int]@ == node_invariants(model, n as int),
                j <= invs@[n as int].axes@.len(),
                forall|f: int|
                    0 <= f < flat@.len() ==> (#[trigger] flat@[f]).0 <= n && flat@[f].1
                        < node_invariants(model, flat@[f].0 as int).len(),
                forall|m: int, i: int|
                    0 <= m < n && 0 <= i < node_invariants(model, m).len() ==> #[trigger] lists_one(
                        flat@,
                        m,
                        i,
                    ),
                forall|i: int| 0 <= i < j ==> #[trigger] lists_one(flat@, n as int, i),
            decreases invs@[n as int].axes@.len() - j,
        {
            let ghost before = flat@;
            flat.push((n, j));
            proof {
                assert(flat@[before.len() as int] == (n, j));
                assert forall|m: int, i: int|
                    0 <= m < n && 0 <= i < node_invariants(
                        model,
                        m,
                    ).len() implies #[trigger] lists_one(flat@, m, i) by {
                    assert(lists_one(before, m, i));
                    let f = choose|f: int|
                        0 <= f < before.len() && (#[trigger] before[f]).0 == m && before[f].1 == i;
                    assert(flat@[f] == before[f]);
                }
                assert forall|i: int| 0 <= i < j + 1 implies #[trigger] lists_one(
                    flat@,
                    n as int,
                    i,
                ) by {
                    if i < j {
                        assert(lists_one(before, n as int, i));
                        let f = choose|f: int|
                            0 <= f < before.len() && (#[trigger] before[f]).0 == n && before[f].1 == i;
                        assert(flat@[f] == before[f]);
                    } else {
                        assert(flat@[before.len() as int] == (n, j));
                    }
                }
                assert forall|f: int| 0 <= f < flat@.len() implies (#[trigger] flat@[f]).0 <= n
                    && flat@[f].1 < node_invariants(model, flat@[f].0 as int).len() by {
                    if f < before.len() {
                        assert(before[f] == flat@[f]);
                    }
                }
            }
            j += 1;
        }
        n += 1;
    }
    flat
}

/// The axes of outlets that are the same axis as the seed, with the
/// invariants that hold one of them marked in `active`.
fn close_over<O: TypedOp<O>>(
    model: &ModelImpl<TypedFact, O>,
    invs: &Vec<Invariants>,
    flat: &Vec<(usize, usize)>,
    seed: (OutletId, usize),
) -> (r: (Vec<(OutletId, usize)>, Vec<bool>))
    requires
        model.wf(),
        outlet_exists(model.nodes@, seed.0),
        invs@.len() == model.nodes@.len(),
        forall|m: int| 0 <= m < invs@.len() ==> (#[trigger] invs@[m])@ == node_invariants(model, m),
        lists_invariants(model, flat@),
    ensures
        r.1@.len() == flat@.len(),
        forall|p: (OutletId, usize)| r.0@.contains(p) <==> same_axis(model, seed, p),
        forall|f: int|
            0 <= f < flat@.len() ==> (#[trigger] r.1@[f] <==> exists|p: (OutletId, usize)|
                same_axis(model, seed, p) && touches(
                    model,
                    flat@[f].0 as int,
                    flat@[f].1 as int,
                    p,
                )),
{
    let total = flat.len();
    let mut active: Vec<bool> = Vec::new();
    while active.len() < total
        invariant
            active@.len() <= total,
            forall|f: int| 0 <= f < active@.len() ==> !active@[f],
        decreases total - active@.len(),
    {
        active.push(false);
    }
    let mut points: Vec<(OutletId, usize)> = Vec::new();
    points.push(seed);
    assert(points@[0] == seed);
    let ghost mut activated: Set<int> = Set::empty();
    let ghost range = set_int_range(0, total as int);
    proof {
        lemma_int_range(0, total as int);
        lemma_same_axis_seed(model, seed);
    }
    let mut changed = true;
    while changed
        invariant
            model.wf(),
            invs@.len() == model.nodes@.len(),
            forall|m: int|
                0 <= m < invs@.len() ==> (#[trigger] invs@[m])@ == node_invariants(model, m),
            lists_invariants(model, flat@),
            total == flat@.len(),
            active@.len() == total,
            range == set_int_range(0, total as int),
            range.finite(),
            range.len() == total,
            activated.subset_of(range),
            forall|f: int| 0 <= f < total ==> (active@[f] <==> activated.contains(f)),
            points@.contains(seed),
            forall|p: (OutletId, usize)| points@.contains(p) ==> same_axis(model, seed, p),
            forall|f: int, q: (OutletId, usize)|
                0 <= f < total && active@[f] && #[trigger] touches(
                    model,
                    flat@[f].0 as int,
                    flat@[f].1 as int,
                    q,
                ) ==> points@.contains(q),
            forall|f: int|
                0 <= f < total && #[trigger] active@[f] ==> exists|p: (OutletId, usize)|
                    points@.contains(p) && touches(model, flat@[f].0 as int, flat@[f].1 as int, p),
            !changed ==> forall|f: int, i: int|
                0 <= f < total && !active@[f] && 0 <= i < points@.len() ==> !#[trigger] touches(
                    model,
                    flat@[f].0 as int,
                    flat@[f].1 as int,
                    points@[i],
                ),
        decreases total - activated.len(), (if changed { 1int } else { 0int }),
    {
        proof {
            lemma_len_subset(activated, range);
        }
        let ghost activated0 = activated;
        let ghost points0 = points@;
        changed = false;
        let mut f: usize = 0;
        while f < total
            invariant
                model.wf(),
                invs@.len() == model.nodes@.len(),
                forall|m: int|
                    0 <= m < invs@.len() ==> (#[trigger] invs@[m])@ == node_invariants(model, m),
                lists_invariants(model, flat@),
                total == flat@.len(),
                active@.len() == total,
                f <= total,
                range == set_int_range(0, total as int),
                range.finite(),
                range.len() == total,
                activated.subset_of(range),
                activated0.subset_of(activated),
                activated0.finite(),
                changed ==> activated.len() > activated0.len(),
                !changed ==> activated == activated0 && points@ == points0,
                forall|g: int| 0 <= g < total ==> (active@[g] <==> activated.contains(g)),
                points@.contains(seed),
                forall|p: (OutletId, usize)| points@.contains(p) ==> same_axis(model, seed, p),
                forall|g: int, q: (OutletId, usize)|
                    0 <= g < total && active@[g] && #[trigger] touches(
                        model,
                        flat@[g].0 as int,
                        flat@[g].1 as int,
                        q,
                    ) ==> points@.contains(q),
                forall|g: int|
                    0 <= g < total && #[trigger] active@[g] ==> exists|p: (OutletId, usize)|
                        points@.contains(p) && touches(
                            model,
                            flat@[g].0 as int,
                            flat@[g].1 as int,
                            p,
                        ),
                !changed ==> forall|g: int, i: int|
                    0 <= g < f && !active@[g] && 0 <= i < points@.len() ==> !#[trigger] touches(
                        model,
                        flat@[g].0 as int,
                        flat@[g].1 as int,
                        points@[i],
                    ),
            decreases total - f,
        {
            if !active[f] {
                let n = flat[f].0;
                let j = flat[f].1;
                assert(flat@[f as int].0 < model.nodes@.len());
                assert(invs@[n as int]@ == node_invariants(model, n as int));
                if touches_any(model, invs, n, j, &points) {
                    let ghost before = points@;
                    let ghost w = choose|i: int|
                        0 <= i < before.len() && touches(model, n as int, j as int, #[trigger] before[i]);
                    add_touched(model, invs, n, j, &mut points);
                    active.set(f, true);
                    proof {
                        let p = before[w];
                        assert(before.contains(p));
                        activated = activated.insert(f as int);
                        lemma_len_subset(activated0, range);
                        assert forall|q: (OutletId, usize)| points@.contains(q) implies same_axis(
                            model,
                            seed,
                            q,
                        ) by {
                            if !before.contains(q) {
                                lemma_same_axis_step(model, seed, n as int, j as int, p, q);
                            }
                        }
                        assert forall|g: int|
                            0 <= g < total && #[trigger] active@[g] implies exists|
                            held: (OutletId, usize),
                        |
                            points@.contains(held) && touches(
                                model,
                                flat@[g].0 as int,
                                flat@[g].1 as int,
                                held,
                            ) by {
                            if g == f {
                                assert(points@.contains(p) && touches(
                                    model,
                                    flat@[g].0 as int,
                                    flat@[g].1 as int,
                                    p,
                                ));
                            } else {
                                let held = choose|held: (OutletId, usize)|
                                    before.contains(held) && touches(
                                        model,
                                        flat@[g].0 as int,
                                        flat@[g].1 as int,
                                        held,
                                    );
                                assert(points@.contains(held));
                            }
                        }
                    }
                    changed = true;
                }
            }
            f += 1;
        }
        proof {
            lemma_len_subset(activated, range);
        }
    }
    proof {
        let t = Set::new(|p: (OutletId, usize)| points@.contains(p));
        assert(closed_under_invariants(model, t)) by {
            assert forall|n: int, j: int, p: (OutletId, usize), q: (OutletId, usize)|
                t.contains(p) && #[trigger] touches(model, n, j, p) && #[trigger] touches(
                    model,
                    n,
                    j,
                    q,
                ) implies t.contains(q) by {
                assert(lists_one(flat@, n, j));
                let f = choose|f: int|
                    0 <= f < flat@.len() && (#[trigger] flat@[f]).0 == n && flat@[f].1 == j;
                if !active@[f] {
                    let i = choose|i: int| 0 <= i < points@.len() && points@[i] == p;
                    assert(!touches(model, flat@[f].0 as int, flat@[f].1 as int, points@[i]));
                }
            }
        }
        assert forall|p: (OutletId, usize)| same_axis(model, seed, p) implies points@.contains(p) by {
            assert(closed_under_invariants(model, t) && t.contains(seed));
            assert(t.contains(p));
        }
        assert forall|f: int| 0 <= f < flat@.len() implies (#[trigger] active@[f] <==> exists|
            p: (OutletId, usize),
        |
            same_axis(model, seed, p) && touches(model, flat@[f].0 as int, flat@[f].1 as int, p)) by {
            if active@[f] {
                let p = choose|p: (OutletId, usize)|
                    points@.contains(p) && touches(model, flat@[f].0 as int, flat@[f].1 as int, p);
                assert(same_axis(model, seed, p));
            }
            if exists|p: (OutletId, usize)|
                same_axis(model, seed, p) && touches(
                    model,
                    flat@[f].0 as int,
                    flat@[f].1 as int,
                    p,
                ) {
                let p = choose|p: (OutletId, usize)|
                    same_axis(model, seed, p) && touches(
                        model,
                        flat@[f].0 as int,
                        flat@[f].1 as int,
                        p,
                    );
                assert(points@.contains(p));
                let i = choose|i: int| 0 <= i < points@.len() && points@[i] == p;
                if !active@[f] {
                    assert(!touches(model, flat@[f].0 as int, flat@[f].1 as int, points@[i]));
                }
            }
        }
    }
    (points, active)
}

/// After a push, the list holds what it held and what was pushed.
pub proof fn lemma_push_contains<T>(before: Seq<T>, x: T)
    ensures
        forall|y: T| before.push(x).contains(y) <==> before.contains(y) || y == x,
{
    let after = before.push(x);
    assert forall|y: T| after.contains(y) <==> before.contains(y) || y == x by {
        if after.contains(y) {
            let i = choose|i: int| 0 <= i < after.len() && after[i] == y;
            if i < before.len() {
                assert(before[i] == y);
            }
        }
        if before.contains(y) {
            let i = choose|i: int| 0 <= i < before.len() && before[i] == y;
            assert(after[i] == y);
        }
        if y == x {
            assert(after[before.len() as int] == y);
        }
    }
}

/// An axis that is the same as the seed is an axis of an outlet of the model.
pub proof fn lemma_same_axis_exists<O: TypedOp<O>>(
    model: &ModelImpl<TypedFact, O>,
    seed: (OutletId, usize),
    p: (OutletId, usize),
)
    requires
        model.wf(),
        outlet_exists(model.nodes@, seed.0),
        same_axis(model, seed, p),
    ensures
        outlet_exists(model.nodes@, p.0),
{
    let e = Set::new(|x: (OutletId, usize)| outlet_exists(model.nodes@, x.0));
    assert(closed_under_invariants(model, e)) by {
        assert forall|n: int, j: int, x: (OutletId, usize), q: (OutletId, usize)|
            e.contains(x) && #[trigger] touches(model, n, j, x) && #[trigger] touches(
                model,
                n,
                j,
                q,
            ) implies e.contains(q) by {
            lemma_touched_exists(model, n, j, q);
        }
    }
    assert(e.contains(seed));
    assert(e.contains(p));
}

/// The points at which the axis begins.
fn find_creators<O: TypedOp<O>>(
    model: &ModelImpl<TypedFact, O>,
    invs: &Vec<Invariants>,
    points: &Vec<(OutletId, usize)>,
    Ghost(seed): Ghost<(OutletId, usize)>,
) -> (r: Vec<(OutletId, usize)>)
    requires
        model.wf(),
        outlet_exists(model.nodes@, seed.0),
        invs@.len() == model.nodes@.len(),
        forall|m: int| 0 <= m < invs@.len() ==> (#[trigger] invs@[m])@ == node_invariants(model, m),
        forall|p: (OutletId, usize)| points@.contains(p) <==> same_axis(model, seed, p),
    ensures
        forall|c: (OutletId, usize)| r@.contains(c) <==> is_creator(model, seed, c),
{
    let mut out: Vec<(OutletId, usize)> = Vec::new();
    let mut i: usize = 0;
    while i < points.len()
        invariant
            model.wf(),
            outlet_exists(model.nodes@, seed.0),
            invs@.len() == model.nodes@.len(),
            forall|m: int|
                0 <= m < invs@.len() ==> (#[trigger] invs@[m])@ == node_invariants(model, m),
            forall|p: (OutletId, usize)| points@.contains(p) <==> same_axis(model, seed, p),
            i <= points@.len(),
            forall|c: (OutletId, usize)|
                #![trigger out@.contains(c)]
                out@.contains(c) <==> is_creator(model, seed, c) && exists|k: int|
                    0 <= k < i && points@[k] == c,
        decreases points@.len() - i,
    {
        let p = points[i];
        proof {
            assert(points@.contains(p));
            lemma_same_axis_exists(model, seed, p);
        }
        assert(invs@[p.0.node as int]@ == node_invariants(model, p.0.node as int));
        let ghost before = out@;
        let found = invs[p.0.node].track_output_axis(p.0.slot, p.1);
        if found.is_none() {
            out.push(p);
            proof {
                lemma_push_contains(before, p);
                assert(is_creator(model, seed, p));
            }
        } else {
            assert(!is_creator(model, seed, p));
        }
        proof {
            assert forall|c: (OutletId, usize)|
                #![trigger out@.contains(c)]
                out@.contains(c) <==> is_creator(model, seed, c) && exists|k: int|
                    0 <= k < i + 1 && points@[k] == c by {
                if exists|k: int| 0 <= k < i + 1 && points@[k] == c {
                    let k = choose|k: int| 0 <= k < i + 1 && points@[k] == c;
                    if k < i {
                        assert(exists|k: int| 0 <= k < i && points@[k] == c);
                    }
                }
                if before.contains(c) {
                    let k = choose|k: int| 0 <= k < i && points@[k] == c;
                    assert(0 <= k < i + 1 && points@[k] == c);
                }
                if c == p {
                    assert(points@[i as int] == c);
                }
            }
        }
        i += 1;
    }
    proof {
        assert forall|c: (OutletId, usize)| out@.contains(c) <==> is_creator(model, seed, c) by {
            if is_creator(model, seed, c) {
                assert(points@.contains(c));
                let k = choose|k: int| 0 <= k < points@.len() && points@[k] == c;
                assert(0 <= k < i && points@[k] == c);
            }
        }
    }
    out
}

/// The axes that end at the inlet `k` of the node `n`, added to `out`.
fn destructors_at<O: TypedOp<O>>(
    model: &ModelImpl<TypedFact, O>,
    invs: &Vec<Invariants>,
    points: &Vec<(OutletId, usize)>,
    Ghost(seed): Ghost<(OutletId, usize)>,
    n: usize,
    k: usize,
    out: &mut Vec<(InletId, usize)>,
)
    requires
        model.wf(),
        invs@.len() == model.nodes@.len(),
        forall|m: int| 0 <= m < invs@.len() ==> (#[trigger] invs@[m])@ == node_invariants(model, m),
        forall|p: (OutletId, usize)| points@.contains(p) <==> same_axis(model, seed, p),
        n < model.nodes@.len(),
        k < model.nodes@[n as int].inputs@.len(),
    ensures
        forall|d: (InletId, usize)|
            #![trigger final(out)@.contains(d)]
            final(out)@.contains(d) <==> old(out)@.contains(d) || (d.0 == (InletId {
                node: n,
                slot: k,
            }) && is_destructor(model, seed, d)),
{
    let read = model.nodes[n].inputs[k];
    let inlet = InletId::new(n, k);
    assert(invs@[n as int]@ == node_invariants(model, n as int));
    let mut i: usize = 0;
    while i < points.len()
        invariant
            model.wf(),
            invs@.len() == model.nodes@.len(),
            invs@[n as int]@ == node_invariants(model, n as int),
            forall|p: (OutletId, usize)| points@.contains(p) <==> same_axis(model, seed, p),
            n < model.nodes@.len(),
            k < model.nodes@[n as int].inputs@.len(),
            read == model.nodes@[n as int].inputs@[k as int],
            inlet == (InletId { node: n, slot: k }),
            i <= points@.len(),
            forall|d: (InletId, usize)|
                #![trigger out@.contains(d)]
                out@.contains(d) <==> old(out)@.contains(d) || (d.0 == inlet && is_destructor(
                    model,
                    seed,
                    d,
                ) && exists|q: int| 0 <= q < i && points@[q] == (read, d.1)),
        decreases points@.len() - i,
    {
        let p = points[i];
        let ghost before = out@;
        let ghost pushed = false;
        if p.0 == read {
            let found = invs[n].track_input_axis(k, p.1);
            if found.is_none() {
                out.push((inlet, p.1));
                proof {
                    pushed = true;
                    lemma_push_contains(before, (inlet, p.1));
                    assert(points@.contains(p));
                    assert(p == (read, p.1));
                    assert(is_destructor(model, seed, (inlet, p.1)));
                }
            } else {
                assert(!is_destructor(model, seed, (inlet, p.1)));
            }
        }
        proof {
            assert forall|d: (InletId, usize)|
                #![trigger out@.contains(d)]
                out@.contains(d) <==> old(out)@.contains(d) || (d.0 == inlet && is_destructor(
                    model,
                    seed,
                    d,
                ) && exists|q: int| 0 <= q < i + 1 && points@[q] == (read, d.1)) by {
                let earlier = exists|q: int| 0 <= q < i && points@[q] == (read, d.1);
                let now = exists|q: int| 0 <= q < i + 1 && points@[q] == (read, d.1);
                let here = points@[i as int] == (read, d.1);
                assert(now <==> earlier || here) by {
                    if now {
                        let q = choose|q: int| 0 <= q < i + 1 && points@[q] == (read, d.1);
                        if q < i {
                            assert(0 <= q < i && points@[q] == (read, d.1));
                        }
                    }
                    if earlier {
                        let q = choose|q: int| 0 <= q < i && points@[q] == (read, d.1);
                        assert(0 <= q < i + 1 && points@[q] == (read, d.1));
                    }
                    if here {
                        assert(0 <= i < i + 1 && points@[i as int] == (read, d.1));
                    }
                }
                assert(before.contains(d) <==> old(out)@.contains(d) || (d.0 == inlet
                    && is_destructor(model, seed, d) && earlier));
                if pushed {
                    assert(out@.contains(d) <==> before.contains(d) || d == (inlet, p.1));
                    if d == (inlet, p.1) {
                        assert(here);
                    }
                    if d.0 == inlet && here {
                        assert(d.1 == p.1);
                        assert(d == (inlet, p.1));
                    }
                } else {
                    assert(out@ == before);
                    if d.0 == inlet && here {
                        assert(p.0 == read);
                        assert(d.1 == p.1);
                        assert(d == (inlet, p.1));
                        assert(!is_destructor(model, seed, d));
                    }
                }
            }
        }
        i += 1;
    }
    proof {
        assert forall|d: (InletId, usize)|
            #![trigger out@.contains(d)]
            out@.contains(d) <==> old(out)@.contains(d) || (d.0 == inlet && is_destructor(
                model,
                seed,
                d,
            )) by {
            if d.0 == inlet && is_destructor(model, seed, d) {
                assert(points@.contains((read, d.1)));
                let q = choose|q: int| 0 <= q < points@.len() && points@[q] == (read, d.1);
                assert(0 <= q < i && points@[q] == (read, d.1));
            }
        }
    }
}

/// The inlets at which the axis ends.
fn find_destructors<O: TypedOp<O>>(
    model: &ModelImpl<TypedFact, O>,
    invs: &Vec<Invariants>,
    points: &Vec<(OutletId, usize)>,
    Ghost(seed): Ghost<(OutletId, usize)>,
) -> (r: Vec<(InletId, usize)>)
    requires
        model.wf(),
        invs@.len() == model.nodes@.len(),
        forall|m: int| 0 <= m < invs@.len() ==> (#[trigger] invs@[m])@ == node_invariants(model, m),
        forall|p: (OutletId, usize)| points@.contains(p) <==> same_axis(model, seed, p),
    ensures
        forall|d: (InletId, usize)| r@.contains(d) <==> is_destructor(model, seed, d),
{
    let mut out: Vec<(InletId, usize)> = Vec::new();
    let mut n: usize = 0;
    while n < model.nodes.len()
        invariant
            model.wf(),
            invs@.len() == model.nodes@.len(),
            forall|m: int|
                0 <= m < invs@.len() ==> (#[trigger] invs@[m])@ == node_invariants(model, m),
            forall|p: (OutletId, usize)| points@.contains(p) <==> same_axis(model, seed, p),
            n <= model.nodes@.len(),
            forall|d: (InletId, usize)|
                #![trigger out@.contains(d)]
                out@.contains(d) <==> is_destructor(model, seed, d) && d.0.node < n,
        decreases model.nodes@.len() - n,
    {
        let mut k: usize = 0;
        while k < model.nodes[n].inputs.len()
            invariant
                model.wf(),
                invs@.len() == model.nodes@.len(),
                forall|m: int|
                    0 <= m < invs@.len() ==> (#[trigger] invs@[m])@ == node_invariants(model, m),
                forall|p: (OutletId, usize)| points@.contains(p) <==> same_axis(model, seed, p),
                n < model.nodes@.len(),
                k <= model.nodes@[n as int].inputs@.len(),
                forall|d: (InletId, usize)|
                    #![trigger out@.contains(d)]
                    out@.contains(d) <==> is_destructor(model, seed, d) && (d.0.node < n || (
                    d.0.node == n && d.0.slot < k)),
            decreases model.nodes@[n as int].inputs@.len() - k,
        {
            destructors_at(model, invs, points, Ghost(seed), n, k, &mut out);
            k += 1;
        }
        n += 1;
    }
    out
}

/// Whether every marked invariant lets its axis be dropped.
fn marked_disposable<O: TypedOp<O>>(
    model: &ModelImpl<TypedFact, O>,
    invs: &Vec<Invariants>,
    flat: &Vec<(usize, usize)>,
    active: &Vec<bool>,
) -> (r: bool)
    requires
        invs@.len() == model.nodes@.len(),
        forall|m: int| 0 <= m < invs@.len() ==> (#[trigger] invs@[m])@ == node_invariants(model, m),
        lists_invariants(model, flat@),
        active@.len() == flat@.len(),
    ensures
        r <==> forall|f: int|
            0 <= f < flat@.len() && #[trigger] active@[f] ==> node_invariants(
                model,
                flat@[f].0 as int,
            )[flat@[f].1 as int].disposable,
{
    let mut f: usize = 0;
    while f < flat.len()
        invariant
            invs@.len() == model.nodes@.len(),
            forall|m: int|
                0 <= m < invs@.len() ==> (#[trigger] invs@[m])@ == node_invariants(model, m),
            lists_invariants(model, flat@),
            active@.len() == flat@.len(),
            f <= flat@.len(),
            forall|g: int|
                0 <= g < f && #[trigger] active@[g] ==> node_invariants(
                    model,
                    flat@[g].0 as int,
                )[flat@[g].1 as int].disposable,
        decreases flat@.len() - f,
    {
        if active[f] {
            let n = flat[f].0;
            let j = flat[f].1;
            assert(flat@[f as int].0 < model.nodes@.len());
            assert(invs@[n as int]@ == node_invariants(model, n as int));
            if !invs[n].axes[j].disposable {
                assert(invs@[n as int]@[j as int] == invs@[n as int].axes@[j as int]@);
                return false;
            }
            assert(invs@[n as int]@[j as int] == invs@[n as int].axes@[j as int]@);
        }
        f += 1;
    }
    true
}

impl AxisTracking {
    /// Follows the axis `axis` of `outlet` through `model`.
    ///
    /// The result lists every axis of every outlet that the invariants of
    /// the operators tie to it, the outlets at which no invariant of the
    /// producing node holds it (there it begins), the inlets at which no
    /// invariant of the reading node holds it (there it ends), and whether
    /// every invariant that holds it lets it be dropped. The tracking fails
    /// where the model has no such outlet, and where an operator of the
    /// model fails to give its invariants.
    pub fn for_outlet_and_axis<O: TypedOp<O>>(
        model: &ModelImpl<TypedFact, O>,
        outlet: OutletId,
        axis: usize,
    ) -> (r: TractResult<AxisTracking>)
        requires
            model.wf(),
        ensures
            match r {
                Ok(t) => {
                    let seed = (outlet, axis);
                    &&& outlet_exists(model.nodes@, outlet)
                    &&& forall|p: (OutletId, usize)| t.outlets@.contains(p) <==> same_axis(model, seed, p)
                    &&& forall|c: (OutletId, usize)| t.creators@.contains(c) <==> is_creator(model, seed, c)
                    &&& forall|d: (InletId, usize)|
                        t.destructors@.contains(d) <==> is_destructor(model, seed, d)
                    &&& t.disposable <==> all_disposable(model, seed)
                },
                Err(e) => (!outlet_exists(model.nodes@, outlet) && e.kind
                    == ErrorKind::InvariantViolation) || exists|n: int|
                    0 <= n < model.nodes@.len() && (#[trigger] model.nodes@[n]).op.invariants_spec(
                        model,
                        &model.nodes@[n],
                    ) == Err::<Seq<AxisInfoView>, ErrorKind>(e.kind),
            },
    {
        if !model.has_outlet(outlet) {
            return Err(TractError::new(ErrorKind::InvariantViolation, "no such outlet to follow"));
        }
        let invs = match all_invariants(model) {
            Ok(invs) => invs,
            Err(e) => {
                return Err(e);
            },
        };
        let flat = flat_invariants(model, &invs);
        let ghost seed = (outlet, axis);
        let (points, active) = close_over(model, &invs, &flat, (outlet, axis));
        let creators = find_creators(model, &invs, &points, Ghost(seed));
        let destructors = find_destructors(model, &invs, &points, Ghost(seed));
        let disposable = marked_disposable(model, &invs, &flat, &active);
        proof {
            if disposable {
                assert forall|n: int, j: int, p: (OutletId, usize)|
                    same_axis(model, seed, p) && #[trigger] touches(
                        model,
                        n,
                        j,
                        p,
                    ) implies node_invariants(model, n)[j].disposable by {
                    assert(lists_one(flat@, n, j));
                    let f = choose|f: int|
                        0 <= f < flat@.len() && (#[trigger] flat@[f]).0 == n && flat@[f].1 == j;
                    assert(active@[f]);
                }
            }
            if all_disposable(model, seed) {
                assert forall|f: int|
                    0 <= f < flat@.len() && #[trigger] active@[f] implies node_invariants(
                    model,
                    flat@[f].0 as int,
                )[flat@[f].1 as int].disposable by {
                    let p = choose|p: (OutletId, usize)|
                        same_axis(model, seed, p) && touches(
                            model,
                            flat@[f].0 as int,
                            flat@[f].1 as int,
                            p,
                        );
                    assert(touches(model, flat@[f].0 as int, flat@[f].1 as int, p));
                }
            }
        }
        Ok(AxisTracking { outlets: points, creators, destructors, disposable })
    }

    /// The place of the followed axis in `outlet`, where the outlet carries
    /// it: the first that the tracking lists.
    pub fn axis_of(&self, outlet: OutletId) -> (r: Option<usize>)
        ensures
            r is Some <==> exists|a: usize| self.outlets@.contains((outlet, a)),
            r matches Some(a) ==> self.outlets@.contains((outlet, a)),
    {
        let mut i: usize = 0;
        while i < self.outlets.len()
            invariant
                i <= self.outlets@.len(),
                forall|k: int| 0 <= k < i ==> (#[trigger] self.outlets@[k]).0 != outlet,
            decreases self.outlets@.len() - i,
        {
            if self.outlets[i].0 == outlet {
                assert(self.outlets@[i as int] == (outlet, self.outlets@[i as int].1));
                assert(self.outlets@.contains((outlet, self.outlets@[i as int].1)));
                return Some(self.outlets[i].1);
            }
            i += 1;
        }
        proof {
            if exists|a: usize| self.outlets@.contains((outlet, a)) {
                let a = choose|a: usize| self.outlets@.contains((outlet, a));
                let k = choose|k: int| 0 <= k < self.outlets@.len() && self.outlets@[k] == (outlet, a);
                assert(self.outlets@[k].0 == outlet);
            }
        }
        None
    }
}

} // verus!
