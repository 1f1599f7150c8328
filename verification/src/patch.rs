//! Local rewrites of a model, staged beside it and applied in one step.
//!
//! A patch reads outlets of the model (taps), holds new nodes wired to those
//! taps and to each other, and names outlets of the model that are to be
//! replaced by wires of the patch (shunts). Applying it either does all of
//! that or leaves the model as it was.
use vstd::prelude::*;
use crate::error::{ErrorKind, TractError, TractResult};
use crate::model::{lemma_rewired_outlets, lemma_rewired_wf, nodes_wf, outlet_exists, rewired, BaseNode, ModelImpl};
use crate::outlet::{lemma_entries_keys, InletId, OutletId, OutletMap};

verus! {

/// A tensor as a patch sees it: an outlet of the model that the patch was
/// built against, or an output of a node staged in the patch.
#[derive(Clone, Copy, Debug, PartialEq, Eq, Structural)]
pub enum Wire {
    Tapped(OutletId),
    Staged(OutletId),
}

/// A node that waits in a patch.
#[derive(Debug)]
pub struct StagedNode<F, O> {
    pub name: String,
    pub op: O,
    pub inputs: Vec<Wire>,
    pub outputs: Vec<F>,
}

/// A rewrite that has not been applied yet.
#[derive(Debug)]
pub struct ModelPatch<F, O> {
    /// The facts of the outlets that the patch reads, as they were read.
    pub taps: OutletMap<F>,
    pub nodes: Vec<StagedNode<F, O>>,
    /// For an outlet of the model, the wire that is to take its place.
    pub shunts: OutletMap<Wire>,
}

/// The outlet that a wire becomes once the staged nodes stand in the model
/// behind its `base` first nodes.
pub open spec fn resolve(base: int, wire: Wire) -> OutletId {
    match wire {
        Wire::Tapped(o) => o,
        Wire::Staged(o) => OutletId { node: (base + o.node) as usize, slot: o.slot },
    }
}

/// The outlet that a reader of `outlet` reads once the shunts are in place.
pub open spec fn redirect(shunts: Map<OutletId, Wire>, base: int, outlet: OutletId) -> OutletId {
    if shunts.contains_key(outlet) {
        resolve(base, shunts[outlet])
    } else {
        outlet
    }
}

impl<F, O> ModelPatch<F, O> {
    /// Whether `wire` is a tap of the patch, or an output of one of its first
    /// `upto` staged nodes.
    pub open spec fn wire_ok(&self, wire: Wire, upto: int) -> bool {
        match wire {
            Wire::Tapped(o) => self.taps@.contains_key(o),
            Wire::Staged(o) => o.node < upto && o.node < self.nodes@.len() && o.slot
                < self.nodes@[o.node as int].outputs@.len(),
        }
    }

    /// The patch's invariant: a staged node reads taps and earlier staged
    /// nodes, and a shunt names a wire of the patch.
    pub open spec fn wf(&self) -> bool {
        &&& forall|j: int, k: int|
            0 <= j < self.nodes@.len() && 0 <= k < self.nodes@[j].inputs@.len() ==> self.wire_ok(
                #[trigger] self.nodes@[j].inputs@[k],
                j,
            )
        &&& forall|o: OutletId| #[trigger]
            self.shunts@.contains_key(o) ==> self.wire_ok(self.shunts@[o], self.nodes@.len() as int)
    }

    /// Whether the model holds every outlet that the patch taps or shunts.
    pub open spec fn fits(&self, nodes: Seq<BaseNode<F, O>>) -> bool {
        &&& forall|o: OutletId| #[trigger] self.taps@.contains_key(o) ==> outlet_exists(nodes, o)
        &&& forall|o: OutletId| #[trigger] self.shunts@.contains_key(o) ==> outlet_exists(nodes, o)
    }

    /// Whether `after` is `before` with the patch in place: the staged nodes
    /// behind the old ones, the readers of shunted outlets and the model's
    /// outputs redirected, and nothing else changed.
    pub open spec fn applied(&self, before: ModelImpl<F, O>, after: ModelImpl<F, O>) -> bool {
        let base = before.nodes@.len() as int;
        &&& after.nodes@.len() == base + self.nodes@.len()
        &&& forall|i: int|
            0 <= i < base ==> {
                let a = #[trigger] after.nodes@[i];
                let b = before.nodes@[i];
                &&& a.id == b.id
                &&& a.name == b.name
                &&& a.op == b.op
                &&& a.outputs == b.outputs
                &&& a.inputs@ == b.inputs@.map_values(|o: OutletId| redirect(self.shunts@, base, o))
            }
        &&& forall|j: int|
            0 <= j < self.nodes@.len() ==> {
                let a = #[trigger] after.nodes@[base + j];
                let s = self.nodes@[j];
                &&& a.id == base + j
                &&& a.name == s.name
                &&& a.op == s.op
                &&& a.outputs == s.outputs
                &&& a.inputs@ == s.inputs@.map_values(|w: Wire| resolve(base, w))
            }
        &&& after.inputs == before.inputs
        &&& after.outputs@ == before.outputs@.map_values(
            |o: OutletId| redirect(self.shunts@, base, o),
        )
        &&& after.outlet_labels == before.outlet_labels
    }

    /// The patch that changes nothing.
    pub fn new() -> (p: Self)
        ensures
            p.wf(),
            p.nodes@.len() == 0,
            p.taps@ == Map::<OutletId, F>::empty(),
            p.shunts@ == Map::<OutletId, Wire>::empty(),
    {
        ModelPatch { taps: OutletMap::new(), nodes: Vec::new(), shunts: OutletMap::new() }
    }

    /// Whether `wire` is a wire of the patch.
    pub fn has_wire(&self, wire: Wire) -> (r: bool)
        ensures
            r == self.wire_ok(wire, self.nodes@.len() as int),
    {
        match wire {
            Wire::Tapped(o) => self.taps.contains_key(o),
            Wire::Staged(o) => o.node < self.nodes.len() && o.slot
                < self.nodes[o.node].outputs.len(),
        }
    }

    /// The fact of a wire of the patch.
    pub fn wire_fact(&self, wire: Wire) -> (r: Option<&F>)
        ensures
            r is Some <==> self.wire_ok(wire, self.nodes@.len() as int),
            r matches Some(f) ==> *f == match wire {
                Wire::Tapped(o) => self.taps@[o],
                Wire::Staged(o) => self.nodes@[o.node as int].outputs@[o.slot as int],
            },
    {
        match wire {
            Wire::Tapped(o) => self.taps.get(o),
            Wire::Staged(o) => {
                if o.node < self.nodes.len() && o.slot < self.nodes[o.node].outputs.len() {
                    Some(&self.nodes[o.node].outputs[o.slot])
                } else {
                    None
                }
            },
        }
    }

    /// Stages a node with the given output facts. It is refused, and the
    /// patch stays as it is, where one of the inputs is no wire of the patch.
    pub fn add_node(&mut self, name: String, op: O, inputs: Vec<Wire>, outputs: Vec<F>) -> (r:
        TractResult<Vec<Wire>>)
        requires
            old(self).wf(),
        ensures
            final(self).wf(),
            r is Ok <==> forall|k: int|
                0 <= k < inputs@.len() ==> old(self).wire_ok(
                    #[trigger] inputs@[k],
                    old(self).nodes@.len() as int,
                ),
            r matches Ok(wires) ==> {
                &&& final(self).nodes@.len() == old(self).nodes@.len() + 1
                &&& final(self).nodes@.drop_last() == old(self).nodes@
                &&& final(self).nodes@.last().name == name
                &&& final(self).nodes@.last().op == op
                &&& final(self).nodes@.last().inputs == inputs
                &&& final(self).nodes@.last().outputs == outputs
                &&& wires@ == Seq::new(
                    outputs@.len(),
                    |ix: int|
                        Wire::Staged(
                            OutletId { node: old(self).nodes@.len() as usize, slot: ix as usize },
                        ),
                )
            },
            r matches Err(e) ==> e.kind == ErrorKind::PatchApplication && final(self).nodes == old(
                self,
            ).nodes,
            final(self).taps == old(self).taps,
            final(self).shunts == old(self).shunts,
    {
        let mut k: usize = 0;
        while k < inputs.len()
            invariant
                k <= inputs@.len(),
                *self == *old(self),
                self.wf(),
                forall|j: int|
                    0 <= j < k ==> self.wire_ok(#[trigger] inputs@[j], self.nodes@.len() as int),
            decreases inputs@.len() - k,
        {
            if !self.has_wire(inputs[k]) {
                return Err(TractError::new(ErrorKind::PatchApplication, "no such wire"));
            }
            k += 1;
        }
        let id = self.nodes.len();
        let mut wires: Vec<Wire> = Vec::new();
        let mut ix: usize = 0;
        while ix < outputs.len()
            invariant
                ix <= outputs@.len(),
                wires@ == Seq::new(
                    ix as nat,
                    |i: int| Wire::Staged(OutletId { node: id, slot: i as usize }),
                ),
            decreases outputs@.len() - ix,
        {
            wires.push(Wire::Staged(OutletId::new(id, ix)));
            assert(wires@ =~= Seq::new(
                (ix + 1) as nat,
                |i: int| Wire::Staged(OutletId { node: id, slot: i as usize }),
            ));
            ix += 1;
        }
        self.nodes.push(StagedNode { name, op, inputs, outputs });
        proof {
            assert(self.nodes@.drop_last() =~= old(self).nodes@);
            assert forall|j: int, k: int|
                0 <= j < self.nodes@.len() && 0 <= k < self.nodes@[j].inputs@.len() implies self.wire_ok(
                #[trigger] self.nodes@[j].inputs@[k],
                j,
            ) by {
                if j < id {
                    assert(self.nodes@[j] == old(self).nodes@[j]);
                    assert(old(self).wire_ok(old(self).nodes@[j].inputs@[k], j));
                } else {
                    assert(old(self).wire_ok(inputs@[k], id as int));
                }
            }
            assert forall|o: OutletId| #[trigger] self.shunts@.contains_key(o) implies self.wire_ok(
                self.shunts@[o],
                self.nodes@.len() as int,
            ) by {
                assert(old(self).wire_ok(old(self).shunts@[o], id as int));
            }
        }
        Ok(wires)
    }

    /// Asks that `outlet` of the model be replaced by the wire `by`. It is
    /// refused, and the patch stays as it is, where `by` is no wire of the
    /// patch.
    pub fn shunt_outside(&mut self, outlet: OutletId, by: Wire) -> (r: TractResult<()>)
        requires
            old(self).wf(),
        ensures
            final(self).wf(),
            r is Ok <==> old(self).wire_ok(by, old(self).nodes@.len() as int),
            r is Ok ==> final(self).shunts@ == old(self).shunts@.insert(outlet, by),
            r matches Err(e) ==> e.kind == ErrorKind::PatchApplication && final(self).shunts == old(
                self,
            ).shunts,
            final(self).taps == old(self).taps,
            final(self).nodes == old(self).nodes,
    {
        if !self.has_wire(by) {
            return Err(TractError::new(ErrorKind::PatchApplication, "no such wire"));
        }
        self.shunts.insert(outlet, by);
        Ok(())
    }
}

impl<F: Clone, O> ModelPatch<F, O> {
    /// Lets the patch read `outlet` of `model`, and returns the wire for it.
    /// It is refused, and the patch stays as it is, where the model has no
    /// such outlet.
    pub fn tap_model(&mut self, model: &ModelImpl<F, O>, outlet: OutletId) -> (r: TractResult<Wire>)
        requires
            old(self).wf(),
        ensures
            final(self).wf(),
            r is Ok <==> outlet_exists(model.nodes@, outlet),
            r matches Ok(w) ==> w == Wire::Tapped(outlet) && final(self).taps@.dom() == old(
                self,
            ).taps@.dom().insert(outlet) && cloned::<F>(
                model.nodes@[outlet.node as int].outputs@[outlet.slot as int],
                final(self).taps@[outlet],
            ) && forall|o: OutletId|
                o != outlet && old(self).taps@.contains_key(o) ==> final(self).taps@[o] == old(
                    self,
                ).taps@[o],
            r matches Err(e) ==> e.kind == ErrorKind::PatchApplication && final(self).taps == old(
                self,
            ).taps,
            final(self).nodes == old(self).nodes,
            final(self).shunts == old(self).shunts,
    {
        match model.outlet_fact(outlet) {
            Ok(fact) => {
                let copy = fact.clone();
                self.taps.insert(outlet, copy);
                proof {
                    assert(self.taps@.dom() =~= old(self).taps@.dom().insert(outlet));
                    assert forall|j: int, k: int|
                        0 <= j < self.nodes@.len() && 0 <= k
                            < self.nodes@[j].inputs@.len() implies self.wire_ok(
                        #[trigger] self.nodes@[j].inputs@[k],
                        j,
                    ) by {
                        assert(old(self).wire_ok(old(self).nodes@[j].inputs@[k], j));
                    }
                    assert forall|o: OutletId| #[trigger]
                        self.shunts@.contains_key(o) implies self.wire_ok(
                        self.shunts@[o],
                        self.nodes@.len() as int,
                    ) by {
                        assert(old(self).wire_ok(old(self).shunts@[o], old(self).nodes@.len() as int));
                    }
                }
                Ok(Wire::Tapped(outlet))
            },
            Err(_) => Err(TractError::new(ErrorKind::PatchApplication, "no such outlet to tap")),
        }
    }
}

/// Whether the model holds every outlet that has a value in `table`.
fn keys_exist<V, F, O>(table: &OutletMap<V>, model: &ModelImpl<F, O>) -> (r: bool)
    ensures
        r == forall|o: OutletId| #[trigger] table@.contains_key(o) ==> outlet_exists(model.nodes@, o),
{
    let mut i: usize = 0;
    while i < table.entries.len()
        invariant
            i <= table.entries@.len(),
            forall|j: int| 0 <= j < i ==> outlet_exists(model.nodes@, (#[trigger] table.entries@[j]).0),
        decreases table.entries@.len() - i,
    {
        if !model.has_outlet(table.entries[i].0) {
            proof {
                let key = table.entries@[i as int].0;
                lemma_entries_keys(table.entries@, key);
                assert(table.entries@[i as int].0 == key);
                assert(table@.contains_key(key));
            }
            return false;
        }
        i += 1;
    }
    proof {
        assert forall|o: OutletId| #[trigger] table@.contains_key(o) implies outlet_exists(
            model.nodes@,
            o,
        ) by {
            lemma_entries_keys(table.entries@, o);
            let j = choose|j: int| 0 <= j < table.entries@.len() && (#[trigger] table.entries@[j]).0 == o;
            assert(outlet_exists(model.nodes@, table.entries@[j].0));
        }
    }
    true
}

/// The outlet that a wire becomes behind the first `base` nodes.
fn resolved(base: usize, wire: Wire) -> (r: OutletId)
    requires
        wire matches Wire::Staged(o) ==> base + o.node <= usize::MAX,
    ensures
        r == resolve(base as int, wire),
{
    match wire {
        Wire::Tapped(o) => o,
        Wire::Staged(o) => OutletId::new(base + o.node, o.slot),
    }
}

/// Puts one staged node behind the nodes of the model, reading what its
/// wires resolve to.
fn append_staged<F, O>(target: &mut ModelImpl<F, O>, node: StagedNode<F, O>, base: usize)
    requires
        old(target).wf(),
        base <= old(target).nodes@.len(),
        forall|k: int|
            0 <= k < node.inputs@.len() ==> outlet_exists(
                old(target).nodes@,
                resolve(base as int, #[trigger] node.inputs@[k]),
            ) && (node.inputs@[k] matches Wire::Staged(o) ==> base + o.node < old(
                target,
            ).nodes@.len()),
    ensures
        final(target).wf(),
        final(target).nodes@.len() == old(target).nodes@.len() + 1,
        final(target).nodes@.drop_last() == old(target).nodes@,
        final(target).nodes@.last().id == old(target).nodes@.len(),
        final(target).nodes@.last().name == node.name,
        final(target).nodes@.last().op == node.op,
        final(target).nodes@.last().outputs == node.outputs,
        final(target).nodes@.last().inputs@ == node.inputs@.map_values(
            |w: Wire| resolve(base as int, w),
        ),
        final(target).inputs == old(target).inputs,
        final(target).outputs == old(target).outputs,
        final(target).outlet_labels == old(target).outlet_labels,
{
    let StagedNode { name, op, inputs, outputs } = node;
    let id = match target.add_node(name, op, outputs) {
        Ok(id) => id,
        Err(_) => {
            return ;
        },
    };
    let ghost wanted = inputs@.map_values(|w: Wire| resolve(base as int, w));
    let mut k: usize = 0;
    while k < inputs.len()
        invariant
            k <= inputs@.len(),
            inputs == node.inputs,
            wanted == inputs@.map_values(|w: Wire| resolve(base as int, w)),
            base <= old(target).nodes@.len(),
            id == old(target).nodes@.len(),
            target.wf(),
            target.nodes@.len() == id + 1,
            target.nodes@.drop_last() == old(target).nodes@,
            target.nodes@.last().id == id,
            target.nodes@.last().name == node.name,
            target.nodes@.last().op == node.op,
            target.nodes@.last().outputs == node.outputs,
            target.nodes@.last().inputs@ == wanted.take(k as int),
            target.inputs == old(target).inputs,
            target.outputs == old(target).outputs,
            target.outlet_labels == old(target).outlet_labels,
            forall|j: int|
                0 <= j < inputs@.len() ==> outlet_exists(
                    old(target).nodes@,
                    resolve(base as int, #[trigger] inputs@[j]),
                ) && (inputs@[j] matches Wire::Staged(o) ==> base + o.node < old(target).nodes@.len()),
        decreases inputs@.len() - k,
    {
        let ghost before = target.nodes@;
        let outlet = resolved(base, inputs[k]);
        proof {
            assert(outlet_exists(old(target).nodes@, outlet));
            assert(before.drop_last()[outlet.node as int] == before[outlet.node as int]);
        }
        match target.add_edge(outlet, InletId::new(id, k)) {
            Ok(()) => {},
            Err(_) => {
                assert(false);
            },
        }
        proof {
            assert(target.nodes@.drop_last() =~= before.drop_last());
            assert(wanted.take(k + 1) =~= wanted.take(k as int).push(wanted[k as int]));
        }
        k += 1;
    }
    assert(wanted.take(k as int) =~= wanted);
}

/// Makes the node `i` read, in place of each shunted outlet, what takes the
/// outlet's place.
fn redirect_inputs<F, O>(target: &mut ModelImpl<F, O>, i: usize, shunts: &OutletMap<Wire>, base: usize)
    requires
        old(target).wf(),
        i < old(target).nodes@.len(),
        forall|o: OutletId| #[trigger]
            shunts@.contains_key(o) ==> outlet_exists(
                old(target).nodes@,
                resolve(base as int, shunts@[o]),
            ) && (shunts@[o] matches Wire::Staged(s) ==> base + s.node < old(target).nodes@.len()),
    ensures
        final(target).wf(),
        rewired(
            old(target).nodes@,
            final(target).nodes@,
            i as int,
            old(target).nodes@[i as int].inputs@.map_values(
                |o: OutletId| redirect(shunts@, base as int, o),
            ),
        ),
        final(target).inputs == old(target).inputs,
        final(target).outputs == old(target).outputs,
        final(target).outlet_labels == old(target).outlet_labels,
{
    let ghost start = old(target).nodes@[i as int].inputs@;
    let ghost wanted = start.map_values(|o: OutletId| redirect(shunts@, base as int, o));
    let mut k: usize = 0;
    assert(wanted.take(0) + start.skip(0) =~= start);
    let n = target.nodes.len();
    while k < target.nodes[i].inputs.len()
        invariant
            i < old(target).nodes@.len(),
            n == old(target).nodes@.len(),
            old(target).wf(),
            target.wf(),
            start == old(target).nodes@[i as int].inputs@,
            wanted == start.map_values(|o: OutletId| redirect(shunts@, base as int, o)),
            k <= start.len(),
            rewired(
                old(target).nodes@,
                target.nodes@,
                i as int,
                wanted.take(k as int) + start.skip(k as int),
            ),
            target.inputs == old(target).inputs,
            target.outputs == old(target).outputs,
            target.outlet_labels == old(target).outlet_labels,
            forall|o: OutletId| #[trigger]
                shunts@.contains_key(o) ==> outlet_exists(
                    old(target).nodes@,
                    resolve(base as int, shunts@[o]),
                ) && (shunts@[o] matches Wire::Staged(s) ==> base + s.node < old(
                    target,
                ).nodes@.len()),
        decreases start.len() - k,
    {
        let ghost before = target.nodes@;
        let ghost now = wanted.take(k as int) + start.skip(k as int);
        assert(now[k as int] == start[k as int]);
        let outlet = target.nodes[i].inputs[k];
        match shunts.get(outlet) {
            Some(w) => {
                assert(shunts@.contains_key(outlet));
                let by = resolved(base, *w);
                target.nodes[i].inputs.set(k, by);
                proof {
                    let next = wanted.take(k + 1) + start.skip(k + 1);
                    assert(target.nodes@[i as int].inputs@ =~= next);
                    assert forall|j: int| 0 <= j < next.len() implies outlet_exists(
                        old(target).nodes@,
                        #[trigger] next[j],
                    ) by {
                        if j < k + 1 {
                            assert(next[j] == redirect(shunts@, base as int, start[j]));
                            assert(outlet_exists(old(target).nodes@, start[j]));
                        } else {
                            assert(next[j] == start[j]);
                            assert(outlet_exists(old(target).nodes@, start[j]));
                        }
                    }
                    assert(rewired(old(target).nodes@, target.nodes@, i as int, next)) by {
                        assert forall|m: int|
                            0 <= m < old(target).nodes@.len() && m != i implies target.nodes@[m] == old(
                            target,
                        ).nodes@[m] by {
                            assert(before[m] == old(target).nodes@[m]);
                        }
                    }
                    lemma_rewired_wf(old(target).nodes@, target.nodes@, i as int, next);
                    lemma_rewired_outlets(old(target).nodes@, target.nodes@, i as int, next);
                }
            },
            None => {
                proof {
                    let next = wanted.take(k + 1) + start.skip(k + 1);
                    assert(now =~= next);
                }
            },
        }
        k += 1;
    }
    assert(wanted.take(k as int) + start.skip(k as int) =~= wanted);
}

impl<F, O> ModelPatch<F, O> {
    /// Applies the patch to `target`: the staged nodes are put behind the
    /// nodes of `target`, every reader of a shunted outlet and every output
    /// of the model that is a shunted outlet is redirected to what takes the
    /// outlet's place, and the patch is used up. Where `target` lacks an
    /// outlet that the patch taps or shunts, nothing is done at all.
    pub fn apply(self, target: &mut ModelImpl<F, O>) -> (r: TractResult<()>)
        requires
            self.wf(),
            old(target).wf(),
        ensures
            final(target).wf(),
            r is Ok <==> self.fits(old(target).nodes@),
            r is Ok ==> self.applied(*old(target), *final(target)),
            r matches Err(e) ==> e.kind == ErrorKind::PatchApplication && *final(target) == *old(
                target,
            ),
    {
        if !keys_exist(&self.taps, target) || !keys_exist(&self.shunts, target) {
            return Err(
                TractError::new(ErrorKind::PatchApplication, "the patch refers to a missing outlet"),
            );
        }
        let base = target.nodes.len();
        let ghost patch = self;
        let ModelPatch { taps, nodes, shunts } = self;
        let mut staged = nodes;
        let mut j: usize = 0;
        while staged.len() > 0
            invariant
                patch.wf(),
                patch.fits(old(target).nodes@),
                old(target).wf(),
                base == old(target).nodes@.len(),
                j <= patch.nodes@.len(),
                staged@ == patch.nodes@.skip(j as int),
                target.wf(),
                target.nodes@.len() == base + j,
                target.nodes@.take(base as int) == old(target).nodes@,
                forall|i: int|
                    0 <= i < j ==> {
                        let a = #[trigger] target.nodes@[base + i];
                        let s = patch.nodes@[i];
                        &&& a.id == base + i
                        &&& a.name == s.name
                        &&& a.op == s.op
                        &&& a.outputs == s.outputs
                        &&& a.inputs@ == s.inputs@.map_values(|w: Wire| resolve(base as int, w))
                    },
                target.inputs == old(target).inputs,
                target.outputs == old(target).outputs,
                target.outlet_labels == old(target).outlet_labels,
            decreases staged@.len(),
        {
            let ghost before = target.nodes@;
            let node = staged.remove(0);
            assert(node == patch.nodes@[j as int]);
            proof {
                assert forall|k: int| 0 <= k < node.inputs@.len() implies outlet_exists(
                    target.nodes@,
                    resolve(base as int, #[trigger] node.inputs@[k]),
                ) && (node.inputs@[k] matches Wire::Staged(o) ==> base + o.node
                    < target.nodes@.len()) by {
                    let w = node.inputs@[k];
                    assert(patch.wire_ok(patch.nodes@[j as int].inputs@[k], j as int));
                    match w {
                        Wire::Tapped(o) => {
                            assert(outlet_exists(old(target).nodes@, o));
                            assert(target.nodes@.take(base as int)[o.node as int]
                                == target.nodes@[o.node as int]);
                        },
                        Wire::Staged(o) => {
                            assert(target.nodes@[base + o.node].outputs == patch.nodes@[o.node as int].outputs);
                        },
                    }
                }
            }
            append_staged(target, node, base);
            let grown = target.nodes.len();
            assert(base + j + 1 == grown);
            proof {
                assert(staged@ =~= patch.nodes@.skip(j + 1));
                assert(target.nodes@.take(base as int) =~= before.take(base as int)) by {
                    assert forall|i: int| 0 <= i < base implies target.nodes@.take(base as int)[i]
                        == before.take(base as int)[i] by {
                        assert(target.nodes@.drop_last()[i] == before[i]);
                    }
                }
                assert forall|i: int| 0 <= i < j + 1 implies {
                    let a = #[trigger] target.nodes@[base + i];
                    let s = patch.nodes@[i];
                    &&& a.id == base + i
                    &&& a.name == s.name
                    &&& a.op == s.op
                    &&& a.outputs == s.outputs
                    &&& a.inputs@ == s.inputs@.map_values(|w: Wire| resolve(base as int, w))
                } by {
                    if i < j {
                        assert(target.nodes@.drop_last()[base + i] == before[base + i]);
                    }
                }
            }
            j += 1;
        }
        assert(j == patch.nodes@.len());
        let ghost appended = target.nodes@;
        proof {
            assert forall|o: OutletId| #[trigger] shunts@.contains_key(o) implies outlet_exists(
                appended,
                resolve(base as int, shunts@[o]),
            ) && (shunts@[o] matches Wire::Staged(s) ==> base + s.node < appended.len()) by {
                assert(patch.wire_ok(patch.shunts@[o], patch.nodes@.len() as int));
                match shunts@[o] {
                    Wire::Tapped(t) => {
                        assert(outlet_exists(old(target).nodes@, t));
                        assert(appended.take(base as int)[t.node as int] == appended[t.node as int]);
                    },
                    Wire::Staged(s) => {
                        assert(appended[base + s.node].outputs == patch.nodes@[s.node as int].outputs);
                    },
                }
            }
        }
        let mut i: usize = 0;
        while i < base
            invariant
                i <= base,
                base == old(target).nodes@.len(),
                shunts == patch.shunts,
                patch.wf(),
                target.wf(),
                target.nodes@.len() == appended.len(),
                appended.len() == base + patch.nodes@.len(),
                appended.take(base as int) == old(target).nodes@,
                forall|o: OutletId| #[trigger] outlet_exists(appended, o) <==> outlet_exists(target.nodes@, o),
                forall|m: int| i <= m < appended.len() ==> #[trigger] target.nodes@[m] == appended[m],
                forall|m: int|
                    0 <= m < i ==> {
                        let a = #[trigger] target.nodes@[m];
                        let b = appended[m];
                        &&& a.id == b.id
                        &&& a.name == b.name
                        &&& a.op == b.op
                        &&& a.outputs == b.outputs
                        &&& a.inputs@ == b.inputs@.map_values(
                            |o: OutletId| redirect(shunts@, base as int, o),
                        )
                    },
                forall|o: OutletId| #[trigger]
                    shunts@.contains_key(o) ==> outlet_exists(
                        appended,
                        resolve(base as int, shunts@[o]),
                    ) && (shunts@[o] matches Wire::Staged(s) ==> base + s.node < appended.len()),
                target.inputs == old(target).inputs,
                target.outputs == old(target).outputs,
                target.outlet_labels == old(target).outlet_labels,
            decreases base - i,
        {
            let ghost before = target.nodes@;
            proof {
                assert forall|o: OutletId| #[trigger] shunts@.contains_key(o) implies outlet_exists(
                    before,
                    resolve(base as int, shunts@[o]),
                ) by {
                    assert(outlet_exists(appended, resolve(base as int, shunts@[o])));
                }
            }
            redirect_inputs(target, i, &shunts, base);
            proof {
                lemma_rewired_outlets(
                    before,
                    target.nodes@,
                    i as int,
                    before[i as int].inputs@.map_values(
                        |o: OutletId| redirect(shunts@, base as int, o),
                    ),
                );
                assert forall|m: int| 0 <= m < i + 1 implies {
                    let a = #[trigger] target.nodes@[m];
                    let b = appended[m];
                    &&& a.id == b.id
                    &&& a.name == b.name
                    &&& a.op == b.op
                    &&& a.outputs == b.outputs
                    &&& a.inputs@ == b.inputs@.map_values(
                        |o: OutletId| redirect(shunts@, base as int, o),
                    )
                } by {
                    if m < i {
                        assert(target.nodes@[m] == before[m]);
                    } else {
                        assert(before[m] == appended[m]);
                    }
                }
                assert forall|m: int| i + 1 <= m < appended.len() implies #[trigger] target.nodes@[m]
                    == appended[m] by {
                    assert(target.nodes@[m] == before[m]);
                }
            }
            i += 1;
        }
        let mut k: usize = 0;
        let ghost outputs0 = target.outputs@;
        let ghost nodes_after = target.nodes@;
        let total = target.nodes.len();
        proof {
            assert forall|m: int| 0 <= m < base implies {
                let a = #[trigger] nodes_after[m];
                let b = old(target).nodes@[m];
                &&& a.id == b.id
                &&& a.name == b.name
                &&& a.op == b.op
                &&& a.outputs == b.outputs
                &&& a.inputs@ == b.inputs@.map_values(
                    |o: OutletId| redirect(patch.shunts@, base as int, o),
                )
            } by {
                assert(appended.take(base as int)[m] == appended[m]);
            }
            assert forall|m: int| 0 <= m < patch.nodes@.len() implies {
                let a = #[trigger] nodes_after[base + m];
                let s = patch.nodes@[m];
                &&& a.id == base + m
                &&& a.name == s.name
                &&& a.op == s.op
                &&& a.outputs == s.outputs
                &&& a.inputs@ == s.inputs@.map_values(|w: Wire| resolve(base as int, w))
            } by {
                assert(nodes_after[base + m] == appended[base + m]);
            }
        }
        while k < target.outputs.len()
            invariant
                k <= outputs0.len(),
                outputs0 == old(target).outputs@,
                target.outputs@.len() == outputs0.len(),
                old(target).wf(),
                base == old(target).nodes@.len(),
                appended.take(base as int) == old(target).nodes@,
                appended.len() >= base,
                total == appended.len(),
                target.nodes@ == nodes_after,
                target.inputs == old(target).inputs,
                target.outlet_labels == old(target).outlet_labels,
                shunts == patch.shunts,
                nodes_wf(target.nodes@),
                forall|o: OutletId| #[trigger] outlet_exists(appended, o) <==> outlet_exists(target.nodes@, o),
                forall|m: int|
                    0 <= m < target.inputs@.len() ==> outlet_exists(
                        target.nodes@,
                        #[trigger] target.inputs@[m],
                    ),
                forall|m: int|
                    0 <= m < target.outputs@.len() ==> outlet_exists(
                        target.nodes@,
                        #[trigger] target.outputs@[m],
                    ),
                forall|m: int|
                    0 <= m < k ==> #[trigger] target.outputs@[m] == redirect(
                        shunts@,
                        base as int,
                        outputs0[m],
                    ),
                forall|m: int| k <= m < outputs0.len() ==> #[trigger] target.outputs@[m] == outputs0[m],
                forall|o: OutletId| #[trigger]
                    shunts@.contains_key(o) ==> outlet_exists(
                        appended,
                        resolve(base as int, shunts@[o]),
                    ) && (shunts@[o] matches Wire::Staged(s) ==> base + s.node < appended.len()),
            decreases outputs0.len() - k,
        {
            let outlet = target.outputs[k];
            match shunts.get(outlet) {
                Some(w) => {
                    assert(shunts@.contains_key(outlet));
                    let by = resolved(base, *w);
                    target.outputs.set(k, by);
                },
                None => {},
            }
            k += 1;
        }
        proof {
            assert(target.outputs@ =~= old(target).outputs@.map_values(
                |o: OutletId| redirect(patch.shunts@, base as int, o),
            ));
        }
        Ok(())
    }
}

} // verus!
