//! Removing axes of size one from a tensor: the operator of models under
//! inference, which removes a list of axes, and the operator of resolved and
//! streaming models, which removes one.
use vstd::prelude::*;
use vstd::std_specs::convert::FromSpec;
use vstd::string::StringExecFns;
use crate::add_dims::{
    axis_through, first_axis, first_input_rank, input_rank, shift_axis, shifted, through, AddDim,
};
use crate::datum::{Datum, DatumType, Dim, Float32, Float64};
use crate::error::{ErrorKind, TractError, TractResult};
use crate::fact::{
    copy_dims, stream_count, InferenceFact, InferenceFactView, PulsedFact, PulsedFactView, TypedFact,
    TypedFactView,
};
use crate::ops::{pulsed_views, typed_views, AxisInfo, AxisInfoView, DeclutterOp, Invariants, OpAs, PulsedOp, PulsifyOp};
use crate::elide::{elide_axis, gives_invariants, goes_through, rewrites};
use crate::outlet::InletId;
use crate::translator::can_be_ordered;
use crate::patch::{ModelPatch, Wire};
use crate::tracking::{all_disposable, is_creator, is_destructor, same_axis};
use crate::infer::{infer_facts_by_rules, rules_outcome, InferenceOp, Inferred, InferredView};
use crate::model::{outlet_exists, BaseNode, ModelImpl};
use crate::ops::{eval_view, tensor_views, Op, StatelessOp, TypedOp};
use crate::outlet::{OutletId, OutletMap};
use crate::solver::{InferenceRulesOp, RuleView, Solver, TensorProxy};
use crate::tensor::{volume, Tensor, TensorView};
use crate::text::{append_decimal, append_list, decimal, list_text, text_of};
use crate::translator::{keeps_outlets, maps_into};
use crate::typed::{pulsed_facts_at, typed_facts_at};

verus! {

/// Whether `ix` is one of the axes.
pub open spec fn removes(axes: Seq<usize>, ix: int) -> bool {
    exists|k: int| 0 <= k < axes.len() && #[trigger] axes[k] == ix
}

/// The items of `input` whose place is none of the axes, in their order.
pub open spec fn keep_axes<D>(axes: Seq<usize>, input: Seq<D>) -> Seq<D>
    decreases input.len(),
{
    if input.len() == 0 {
        Seq::empty()
    } else {
        let front = keep_axes(axes, input.drop_last());
        if removes(axes, input.len() - 1) {
            front
        } else {
            front.push(input.last())
        }
    }
}

/// Whether the list holds the number.
pub fn has_axis(axes: &Vec<usize>, ix: usize) -> (r: bool)
    ensures
        r == removes(axes@, ix as int),
{
    let mut k: usize = 0;
    while k < axes.len()
        invariant
            k <= axes@.len(),
            forall|j: int| 0 <= j < k ==> axes@[j] != ix,
        decreases axes@.len() - k,
    {
        if axes[k] == ix {
            return true;
        }
        k += 1;
    }
    false
}

/// The operator that removes the axes `axes`, each of size one, from its
/// input.
#[derive(Debug)]
pub struct RmDims {
    pub axes: Vec<usize>,
}

impl Clone for RmDims {
    fn clone(&self) -> (r: RmDims)
        ensures
            r.axes@ == self.axes@,
    {
        let axes = self.axes.clone();
        assert(axes@ =~= self.axes@);
        RmDims { axes }
    }
}

/// What `RmDims::eval_t` returns for an operator that removes `axes`, asked
/// for elements of type `wanted`, on the tensor `input`.
pub open spec fn rm_dims_eval(axes: Seq<usize>, wanted: DatumType, input: TensorView) -> Result<
    Seq<TensorView>,
    ErrorKind,
> {
    if input.datum_type == wanted && volume(keep_axes(axes, input.shape)) == volume(input.shape) {
        Ok(
            seq![
                TensorView {
                    datum_type: input.datum_type,
                    shape: keep_axes(axes, input.shape),
                    data: input.data,
                },
            ],
        )
    } else {
        Err(ErrorKind::Evaluation)
    }
}

/// The rules of an operator that removes `axes`, for a node with one output
/// and at least one input: the output has the type of the input; its rank is
/// that of the input minus the number of axes; each of the axes has size one
/// in the input; and once the shape of the input is known, the shape of the
/// output is what is left of it.
pub open spec fn rm_dims_rules(axes: Seq<usize>) -> Seq<RuleView> {
    seq![
        RuleView::EqualType(TensorProxy::Output(0), TensorProxy::Input(0)),
        RuleView::RankMinus {
            of: TensorProxy::Output(0),
            base: TensorProxy::Input(0),
            minus: axes.len() as usize,
        },
    ] + Seq::new(
        axes.len(),
        |i: int| RuleView::EqualDim { tensor: TensorProxy::Input(0), axis: axes[i], dim: Dim::Val(1) },
    ) + seq![RuleView::Given { tensor: TensorProxy::Input(0), key: 0 }]
}

impl RmDims {
    pub fn new(axes: Vec<usize>) -> (r: RmDims)
        ensures
            r.axes == axes,
    {
        RmDims { axes }
    }

    /// The shape without the axes of the operator: the items of `input`
    /// whose place is none of the axes, in their order.
    pub fn compute_shape<D: Copy>(&self, input: &[D]) -> (r: Vec<D>)
        ensures
            r@ == keep_axes(self.axes@, input@),
    {
        let mut out: Vec<D> = Vec::new();
        let mut ix: usize = 0;
        while ix < input.len()
            invariant
                ix <= input@.len(),
                out@ == keep_axes(self.axes@, input@.take(ix as int)),
            decreases input@.len() - ix,
        {
            assert(input@.take(ix + 1).drop_last() =~= input@.take(ix as int));
            if !has_axis(&self.axes, ix) {
                out.push(input[ix]);
            }
            ix += 1;
        }
        assert(input@.take(ix as int) =~= input@);
        out
    }

    /// Evaluates the operator on one tensor whose elements are to be of the
    /// type `T`: the same elements under the shape without the axes. It
    /// fails where the elements are of another type, and where an axis that
    /// goes is not of size one, so that the elements do not fit.
    pub fn eval_t<T: Datum>(&self, input: Tensor) -> (r: TractResult<Vec<Tensor>>)
        ensures
            eval_view(r) == rm_dims_eval(self.axes@, T::spec_datum_type(), input@),
    {
        if input.datum_type() != T::datum_type() {
            return Err(TractError::new(ErrorKind::Evaluation, "the tensor has another datum type"));
        }
        let shape = self.compute_shape(input.shape().as_slice());
        match input.into_shape(&shape) {
            Ok(t) => {
                let mut out: Vec<Tensor> = Vec::new();
                out.push(t);
                assert(tensor_views(out@) =~= seq![t@]);
                Ok(out)
            },
            Err(e) => Err(e),
        }
    }
}

impl Op for RmDims {
    open spec fn spec_name(&self) -> Seq<char> {
        "RmDims"@
    }

    fn name(&self) -> (r: String) {
        text_of("RmDims")
    }

    open spec fn spec_info(&self) -> Seq<Seq<char>> {
        seq!["axes: "@ + list_text(self.axes@)]
    }

    fn info(&self) -> (r: TractResult<Vec<String>>) {
        let mut line = text_of("axes: ");
        append_list(&mut line, &self.axes);
        let mut lines: Vec<String> = Vec::new();
        lines.push(line);
        assert(lines.deep_view() =~= seq!["axes: "@ + list_text(self.axes@)]);
        Ok(lines)
    }
}

impl StatelessOp for RmDims {
    /// Evaluation takes one tensor, and does what `eval_t` does for the
    /// type of its elements.
    open spec fn eval_spec(&self, inputs: Seq<TensorView>) -> Result<Seq<TensorView>, ErrorKind> {
        if inputs.len() == 1 {
            rm_dims_eval(self.axes@, inputs[0].datum_type, inputs[0])
        } else {
            Err(ErrorKind::Evaluation)
        }
    }

    fn eval(&self, inputs: Vec<Tensor>) -> (r: TractResult<Vec<Tensor>>) {
        let mut inputs = inputs;
        if inputs.len() != 1 {
            return Err(TractError::new(ErrorKind::Evaluation, "expected one input"));
        }
        let ghost views = tensor_views(inputs@);
        assert(views[0] == inputs@[0]@);
        let input = inputs.remove(0);
        match input.datum_type() {
            DatumType::Bool => self.eval_t::<bool>(input),
            DatumType::U8 => self.eval_t::<u8>(input),
            DatumType::U16 => self.eval_t::<u16>(input),
            DatumType::I8 => self.eval_t::<i8>(input),
            DatumType::I16 => self.eval_t::<i16>(input),
            DatumType::I32 => self.eval_t::<i32>(input),
            DatumType::I64 => self.eval_t::<i64>(input),
            DatumType::F32 => self.eval_t::<Float32>(input),
            DatumType::F64 => self.eval_t::<Float64>(input),
        }
    }
}

impl InferenceRulesOp for RmDims {
    open spec fn rules_spec(&self, inputs: nat, outputs: nat) -> Result<Seq<RuleView>, ErrorKind> {
        if outputs == 1 && inputs >= 1 {
            Ok(rm_dims_rules(self.axes@))
        } else {
            Err(ErrorKind::InvariantViolation)
        }
    }

    fn rules(&self, s: &mut Solver, inputs: &Vec<TensorProxy>, outputs: &Vec<TensorProxy>) -> (r:
        TractResult<()>) {
        if outputs.len() != 1 || inputs.len() == 0 {
            return Err(
                TractError::new(ErrorKind::InvariantViolation, "wrong number of inputs or outputs"),
            );
        }
        let input = TensorProxy::Input(0);
        let output = TensorProxy::Output(0);
        let _ = s.equals_type(output, input);
        let _ = s.equals_rank_minus(output, input, self.axes.len());
        let ghost head = s@;
        let mut i: usize = 0;
        while i < self.axes.len()
            invariant
                i <= self.axes@.len(),
                input == TensorProxy::Input(0),
                s@ == head + Seq::new(
                    i as nat,
                    |k: int|
                        RuleView::EqualDim {
                            tensor: TensorProxy::Input(0),
                            axis: self.axes@[k],
                            dim: Dim::Val(1),
                        },
                ),
            decreases self.axes@.len() - i,
        {
            let _ = s.equals_dim(input, self.axes[i], Dim::Val(1));
            assert(s@ =~= head + Seq::new(
                (i + 1) as nat,
                |k: int|
                    RuleView::EqualDim {
                        tensor: TensorProxy::Input(0),
                        axis: self.axes@[k],
                        dim: Dim::Val(1),
                    },
            ));
            i += 1;
        }
        let _ = s.given_shape(input, 0);
        assert(s@ =~= old(s)@ + rm_dims_rules(self.axes@));
        Ok(())
    }

    open spec fn given_spec(&self, key: usize, shape: Seq<Dim>, inputs: nat, outputs: nat) -> Result<
        Seq<RuleView>,
        ErrorKind,
    > {
        Ok(
            seq![
                RuleView::EqualShape {
                    tensor: TensorProxy::Output(0),
                    dims: keep_axes(self.axes@, shape),
                },
            ],
        )
    }

    fn given(
        &self,
        s: &mut Solver,
        key: usize,
        shape: &Vec<Dim>,
        inputs: &Vec<TensorProxy>,
        outputs: &Vec<TensorProxy>,
    ) -> (r: TractResult<()>) {
        let output_shape = self.compute_shape(shape.as_slice());
        let _ = s.equals_shape(TensorProxy::Output(0), output_shape);
        assert(s@ =~= old(s)@ + seq![
            RuleView::EqualShape {
                tensor: TensorProxy::Output(0),
                dims: keep_axes(self.axes@, shape@),
            },
        ]);
        Ok(())
    }
}

/// Puts the numbers in ascending order. This is the `sort` of slices: the
/// list holds afterwards what it held, each number as often as before, and
/// no number stands before a smaller one.
#[verifier::external_body]
fn sort_axes(axes: &mut Vec<usize>)
    ensures
        final(axes)@.to_multiset() == old(axes)@.to_multiset(),
        forall|i: int, j: int| 0 <= i <= j < final(axes)@.len() ==> final(axes)@[i] <= final(axes)@[j],
{
    axes.sort();
}

/// Whether `order` holds the axes, each as often, the largest first.
pub open spec fn largest_first(axes: Seq<usize>, order: Seq<usize>) -> bool {
    &&& order.to_multiset() == axes.to_multiset()
    &&& forall|i: int, j: int| 0 <= i <= j < order.len() ==> order[i] >= order[j]
}

/// The name of the node that removes the axis `axis` for a node named
/// `name`.
pub open spec fn axis_node_name(name: Seq<char>, axis: usize) -> Seq<char> {
    name + "-axis-"@ + decimal(axis as nat)
}

/// The outlet at the end of a chain of `count` nodes, each with one input,
/// that starts behind the first `base` nodes and reads `start`.
pub open spec fn chain_end(base: int, start: OutletId, count: int) -> OutletId {
    if count == 0 {
        start
    } else {
        OutletId { node: (base + count - 1) as usize, slot: 0 }
    }
}

/// Whether `after` is `before` followed by a chain of nodes, one for each
/// axis of `order`, in that order: each removes its axis, is named after
/// `name` and the axis, and reads the node before it, the first one `start`.
pub open spec fn rm_chain<T: From<RmDim>>(
    before: Seq<BaseNode<TypedFact, T>>,
    after: Seq<BaseNode<TypedFact, T>>,
    name: Seq<char>,
    start: OutletId,
    order: Seq<usize>,
) -> bool {
    &&& after.len() == before.len() + order.len()
    &&& after.take(before.len() as int) == before
    &&& forall|j: int|
        0 <= j < order.len() ==> {
            let n = #[trigger] after[before.len() + j];
            &&& n.name@ == axis_node_name(name, order[j])
            &&& (T::obeys_from_spec() ==> n.op == T::from_spec(RmDim { axis: order[j] }))
            &&& n.inputs@ == seq![chain_end(before.len() as int, start, j)]
        }
}

/// The fact that a model holds for an outlet.
pub open spec fn typed_fact_at<T>(nodes: Seq<BaseNode<TypedFact, T>>, outlet: OutletId) -> TypedFactView {
    nodes[outlet.node as int].outputs@[outlet.slot as int]@
}

/// The fact of what the first `k` nodes of the chain for `order` make of a
/// tensor with the fact `start`: each node removes its axis as the operator
/// type `T` computes it. `None` where one of them rejects what it is given,
/// or gives no output.
pub open spec fn lowered_fact<T: From<RmDim> + TypedOp<T>>(
    start: TypedFactView,
    order: Seq<usize>,
    k: nat,
) -> Option<TypedFactView>
    decreases k,
{
    if k == 0 {
        Some(start)
    } else {
        match lowered_fact::<T>(start, order, (k - 1) as nat) {
            Some(fact) => match T::from_spec(RmDim { axis: order[k - 1] }).output_facts_spec(
                seq![fact],
            ) {
                Ok(facts) => if facts.len() > 0 {
                    Some(facts[0])
                } else {
                    None
                },
                Err(_) => None,
            },
            None => None,
        }
    }
}

/// A chain that was rejected at some node is rejected.
pub proof fn lemma_lowered_stays_none<T: From<RmDim> + TypedOp<T>>(
    start: TypedFactView,
    order: Seq<usize>,
    k: nat,
    n: nat,
)
    requires
        k <= n,
        lowered_fact::<T>(start, order, k) is None,
    ensures
        lowered_fact::<T>(start, order, n) is None,
    decreases n,
{
    if k < n {
        lemma_lowered_stays_none::<T>(start, order, k, (n - 1) as nat);
    }
}

/// Whether every node of the chain for `order`, which stands behind the
/// first `base` nodes of `after`, holds as the fact of its first output what
/// the chain up to it makes of the fact `start`.
pub open spec fn chain_facts<T: From<RmDim> + TypedOp<T>>(
    after: Seq<BaseNode<TypedFact, T>>,
    base: int,
    start: TypedFactView,
    order: Seq<usize>,
) -> bool {
    forall|j: int|
        0 <= j < order.len() ==> {
            let n = #[trigger] after[base + j];
            n.outputs@.len() > 0 && Some(n.outputs@[0]@) == lowered_fact::<T>(
                start,
                order,
                (j + 1) as nat,
            )
        }
}

/// Whether `r` and `after` are what lowering a node named `name`, which
/// removes `axes` from what `start` stands for, makes of a model with the
/// nodes `before`.
///
/// The axes are taken the largest first. Lowering succeeds exactly where
/// every node of the chain accepts the fact that the node before it gives.
/// Then the model holds the chain behind its nodes, each node with the fact
/// that the chain up to it computes, and the outlet returned is the end of
/// the chain.
pub open spec fn lowers<T: From<RmDim> + TypedOp<T>>(
    axes: Seq<usize>,
    name: Seq<char>,
    start: OutletId,
    before: Seq<BaseNode<TypedFact, T>>,
    after: Seq<BaseNode<TypedFact, T>>,
    r: TractResult<Vec<OutletId>>,
) -> bool {
    exists|order: Seq<usize>| #[trigger]
        largest_first(axes, order) && (T::obeys_from_spec() ==> (r is Ok <==> lowered_fact::<T>(
            typed_fact_at(before, start),
            order,
            order.len(),
        ) is Some)) && (r matches Ok(outlets) ==> {
            let end = chain_end(before.len() as int, start, order.len() as int);
            &&& rm_chain(before, after, name, start, order)
            &&& outlets@ == seq![end]
            &&& (T::obeys_from_spec() ==> chain_facts(
                after,
                before.len() as int,
                typed_fact_at(before, start),
                order,
            ))
            &&& (T::obeys_from_spec() ==> Some(typed_fact_at(after, end)) == lowered_fact::<T>(
                typed_fact_at(before, start),
                order,
                order.len(),
            ))
        })
}

impl<O, T: From<RmDim> + TypedOp<T>> InferenceOp<O, T> for RmDims {
    /// The inference of the operator is what its rules give.
    open spec fn infer_facts_spec(
        &self,
        inputs: Seq<InferenceFactView>,
        outputs: Seq<InferenceFactView>,
        observed: Seq<InferenceFactView>,
    ) -> Result<InferredView, ErrorKind> {
        rules_outcome(self, inputs, outputs, observed)
    }

    open spec fn stateless_spec(&self) -> bool {
        true
    }

    open spec fn eager_eval_spec(&self, inputs: Seq<TensorView>) -> Result<Seq<TensorView>, ErrorKind> {
        self.eval_spec(inputs)
    }

    fn infer_facts(
        &mut self,
        inputs: Vec<&InferenceFact>,
        outputs: Vec<&InferenceFact>,
        observed: Vec<&InferenceFact>,
    ) -> (r: TractResult<Inferred>) {
        infer_facts_by_rules(&*self, &inputs, &outputs, &observed)
    }

    fn is_stateless(&self) -> (r: bool) {
        true
    }

    fn eval_stateless(&self, inputs: Vec<Tensor>) -> (r: TractResult<Vec<Tensor>>) {
        self.eval(inputs)
    }

    /// A lowering that succeeds adds the chain of nodes, one for each axis,
    /// and changes nothing else.
    open spec fn typed_as(
        &self,
        source: &ModelImpl<InferenceFact, O>,
        node: &BaseNode<InferenceFact, O>,
        before: &ModelImpl<TypedFact, T>,
        mapping: Map<OutletId, OutletId>,
        after: &ModelImpl<TypedFact, T>,
        r: TractResult<Vec<OutletId>>,
    ) -> bool {
        &&& node.inputs@.len() > 0
        &&& mapping.contains_key(node.inputs@[0])
        &&& lowers(self.axes@, node.name@, mapping[node.inputs@[0]], before.nodes@, after.nodes@, r)
        &&& after.inputs == before.inputs
        &&& after.outputs == before.outputs
        &&& after.outlet_labels == before.outlet_labels
    }

    /// Lowers the node into one node for each axis, the largest axis first,
    /// each reading the one before it; the first reads what the input of the
    /// node was mapped to, and the last stands for the output of the node.
    /// It fails where the node reads nothing, where what it reads is not
    /// mapped, and where a node of the chain rejects the fact it is given.
    fn to_typed(
        &self,
        source: &ModelImpl<InferenceFact, O>,
        node: &BaseNode<InferenceFact, O>,
        target: &mut ModelImpl<TypedFact, T>,
        mapping: &OutletMap<OutletId>,
    ) -> (r: TractResult<Vec<OutletId>>)
        ensures
            (node.inputs@.len() == 0 || !mapping@.contains_key(node.inputs@[0])) ==> r is Err
                && *final(target) == *old(target),
            node.inputs@.len() > 0 && mapping@.contains_key(node.inputs@[0]) ==> lowers(
                self.axes@,
                node.name@,
                mapping@[node.inputs@[0]],
                old(target).nodes@,
                final(target).nodes@,
                r,
            ),
            final(target).inputs == old(target).inputs,
            final(target).outputs == old(target).outputs,
            final(target).outlet_labels == old(target).outlet_labels,
    {
        self.lower(source, node, target, mapping)
    }
}

impl RmDims {
    /// Lowers the node into one node for each axis, the largest axis first,
    /// each reading the one before it; the first reads what the input of the
    /// node was mapped to, and the last stands for the output of the node.
    /// It fails where the node reads nothing, where what it reads is not
    /// mapped, and where a node of the chain rejects the fact it is given.
    pub fn lower<O, T: From<RmDim> + TypedOp<T>>(
        &self,
        source: &ModelImpl<InferenceFact, O>,
        node: &BaseNode<InferenceFact, O>,
        target: &mut ModelImpl<TypedFact, T>,
        mapping: &OutletMap<OutletId>,
    ) -> (r: TractResult<Vec<OutletId>>)
        requires
            source.wf(),
            node.id < source.nodes@.len(),
            *node == source.nodes@[node.id as int],
            old(target).wf(),
            maps_into(mapping@, old(target).nodes@),
        ensures
            final(target).wf(),
            keeps_outlets(old(target).nodes@, final(target).nodes@),
            r matches Ok(outlets) ==> forall|k: int|
                0 <= k < outlets@.len() ==> outlet_exists(final(target).nodes@, #[trigger] outlets@[k]),
            (node.inputs@.len() == 0 || !mapping@.contains_key(node.inputs@[0])) ==> r is Err
                && *final(target) == *old(target),
            node.inputs@.len() > 0 && mapping@.contains_key(node.inputs@[0]) ==> lowers(
                self.axes@,
                node.name@,
                mapping@[node.inputs@[0]],
                old(target).nodes@,
                final(target).nodes@,
                r,
            ),
            final(target).inputs == old(target).inputs,
            final(target).outputs == old(target).outputs,
            final(target).outlet_labels == old(target).outlet_labels,
    {
        if node.inputs.len() == 0 {
            return Err(TractError::new(ErrorKind::InvariantViolation, "the node has no input"));
        }
        let start = match mapping.lookup(node.inputs[0]) {
            Some(o) => o,
            None => {
                return Err(
                    TractError::new(ErrorKind::InvariantViolation, "the input was not translated"),
                );
            },
        };
        let mut wire = start;
        let mut axes = self.axes.clone();
        sort_axes(&mut axes);
        let ghost order = axes@.reverse();
        let ghost first = typed_fact_at(target.nodes@, start);
        let base = target.nodes.len();
        proof {
            axes@.lemma_reverse_to_multiset();
            assert(largest_first(self.axes@, order));
            assert(target.nodes@.take(base as int) =~= target.nodes@);
        }
        let total = axes.len();
        let mut done: usize = 0;
        while done < total
            invariant
                done <= total,
                total == axes@.len(),
                order == axes@.reverse(),
                node.inputs@.len() > 0,
                mapping@.contains_key(node.inputs@[0]),
                start == mapping@[node.inputs@[0]],
                largest_first(self.axes@, order),
                first == typed_fact_at(old(target).nodes@, start),
                T::obeys_from_spec() ==> lowered_fact::<T>(first, order, done as nat) == Some(
                    typed_fact_at(target.nodes@, wire),
                ),
                base == old(target).nodes@.len(),
                target.wf(),
                keeps_outlets(old(target).nodes@, target.nodes@),
                outlet_exists(target.nodes@, wire),
                wire == chain_end(base as int, start, done as int),
                target.nodes@.len() == base + done,
                target.nodes@.take(base as int) == old(target).nodes@,
                forall|j: int|
                    0 <= j < done ==> {
                        let n = #[trigger] target.nodes@[base + j];
                        &&& n.name@ == axis_node_name(node.name@, order[j])
                        &&& (T::obeys_from_spec() ==> n.op == T::from_spec(RmDim { axis: order[j] }))
                        &&& n.inputs@ == seq![chain_end(base as int, start, j)]
                        &&& (T::obeys_from_spec() ==> n.outputs@.len() > 0 && Some(n.outputs@[0]@)
                            == lowered_fact::<T>(first, order, (j + 1) as nat))
                    },
                target.inputs == old(target).inputs,
                target.outputs == old(target).outputs,
                target.outlet_labels == old(target).outlet_labels,
            decreases total - done,
        {
            let axis = axes[total - 1 - done];
            assert(axis == order[done as int]);
            let mut name = node.name.clone();
            name.append("-axis-");
            append_decimal(&mut name, axis);
            let op = T::from(RmDim::new(axis));
            let mut inputs: Vec<OutletId> = Vec::new();
            inputs.push(wire);
            assert(inputs@ =~= seq![wire]);
            let ghost before = target.nodes@;
            let ghost read = typed_fact_at(before, wire);
            assert(typed_facts_at(before, inputs@) =~= seq![read]);
            let wired = target.wire_node(name, op, &inputs);
            proof {
                if T::obeys_from_spec() {
                    let made = T::from_spec(RmDim { axis: order[done as int] }).output_facts_spec(
                        seq![read],
                    );
                    assert(lowered_fact::<T>(first, order, (done + 1) as nat) == match made {
                        Ok(facts) => if facts.len() > 0 {
                            Some(facts[0])
                        } else {
                            None
                        },
                        Err(_) => None,
                    });
                    if wired is Err || wired->Ok_0@.len() == 0 {
                        lemma_lowered_stays_none::<T>(
                            first,
                            order,
                            (done + 1) as nat,
                            order.len(),
                        );
                    }
                }
            }
            let outlets = match wired {
                Ok(outlets) => outlets,
                Err(e) => {
                    proof {
                        assert(target.nodes@ == before);
                        assert(lowers(
                            self.axes@,
                            node.name@,
                            start,
                            old(target).nodes@,
                            target.nodes@,
                            Err::<Vec<OutletId>, TractError>(e),
                        ));
                    }
                    return Err(e);
                },
            };
            if outlets.len() == 0 {
                let failed = TractError::new(
                    ErrorKind::InvariantViolation,
                    "the operator has no output",
                );
                proof {
                    assert(lowers(
                        self.axes@,
                        node.name@,
                        start,
                        old(target).nodes@,
                        target.nodes@,
                        Err::<Vec<OutletId>, TractError>(failed),
                    ));
                }
                proof {
                    assert forall|o: OutletId| #[trigger]
                        outlet_exists(old(target).nodes@, o) implies outlet_exists(
                        target.nodes@,
                        o,
                    ) by {
                        assert(outlet_exists(before, o));
                        assert(target.nodes@.drop_last()[o.node as int] == target.nodes@[o.node as int]);
                    }
                }
                return Err(failed);
            }
            wire = outlets[0];
            proof {
                assert(typed_views(target.nodes@.last().outputs@)[0] == typed_fact_at(
                    target.nodes@,
                    wire,
                ));
                assert forall|o: OutletId| #[trigger]
                    outlet_exists(old(target).nodes@, o) implies outlet_exists(target.nodes@, o) by {
                    assert(outlet_exists(before, o));
                    assert(target.nodes@.drop_last()[o.node as int] == target.nodes@[o.node as int]);
                }
                assert(target.nodes@.take(base as int) =~= before.take(base as int)) by {
                    assert forall|i: int| 0 <= i < base implies target.nodes@.take(base as int)[i]
                        == before.take(base as int)[i] by {
                        assert(target.nodes@.drop_last()[i] == before[i]);
                    }
                }
                assert forall|j: int| 0 <= j < done + 1 implies {
                    let n = #[trigger] target.nodes@[base + j];
                    &&& n.name@ == axis_node_name(node.name@, order[j])
                    &&& (T::obeys_from_spec() ==> n.op == T::from_spec(RmDim { axis: order[j] }))
                    &&& n.inputs@ == seq![chain_end(base as int, start, j)]
                    &&& (T::obeys_from_spec() ==> n.outputs@.len() > 0 && Some(n.outputs@[0]@)
                        == lowered_fact::<T>(first, order, (j + 1) as nat))
                } by {
                    if j < done {
                        assert(target.nodes@.drop_last()[base + j] == before[base + j]);
                    }
                }
            }
            done += 1;
        }
        let mut out: Vec<OutletId> = Vec::new();
        out.push(wire);
        proof {
            assert(out@ =~= seq![chain_end(base as int, start, order.len() as int)]);
            assert(rm_chain(old(target).nodes@, target.nodes@, node.name@, start, order));
            if T::obeys_from_spec() {
                assert(chain_facts(target.nodes@, base as int, first, order));
            }
            assert(lowers(
                self.axes@,
                node.name@,
                start,
                old(target).nodes@,
                target.nodes@,
                Ok::<Vec<OutletId>, TractError>(out),
            ));
        }
        Ok(out)
    }
}

/// The operator that removes the axis `axis`, of size one, from its input.
#[derive(Clone, Copy, Debug, PartialEq, Eq, Structural)]
pub struct RmDim {
    pub axis: usize,
}

impl RmDim {
    pub fn new(axis: usize) -> (r: RmDim)
        ensures
            r == (RmDim { axis }),
    {
        RmDim { axis }
    }
}

impl Op for RmDim {
    open spec fn spec_name(&self) -> Seq<char> {
        "RmDim"@
    }

    fn name(&self) -> (r: String) {
        text_of("RmDim")
    }

    open spec fn spec_info(&self) -> Seq<Seq<char>> {
        seq!["axis: "@ + decimal(self.axis as nat)]
    }

    fn info(&self) -> (r: TractResult<Vec<String>>) {
        let mut line = text_of("axis: ");
        append_decimal(&mut line, self.axis);
        let mut lines: Vec<String> = Vec::new();
        lines.push(line);
        assert(lines.deep_view() =~= seq!["axis: "@ + decimal(self.axis as nat)]);
        Ok(lines)
    }
}

impl StatelessOp for RmDim {
    /// Evaluation takes one tensor, whose axis `axis` has size one, and
    /// returns its elements under the shape without that axis.
    open spec fn eval_spec(&self, inputs: Seq<TensorView>) -> Result<Seq<TensorView>, ErrorKind> {
        if inputs.len() == 1 && self.axis < inputs[0].shape.len() && inputs[0].shape[self.axis as int]
            == 1 {
            Ok(
                seq![
                    TensorView {
                        datum_type: inputs[0].datum_type,
                        shape: inputs[0].shape.remove(self.axis as int),
                        data: inputs[0].data,
                    },
                ],
            )
        } else {
            Err(ErrorKind::Evaluation)
        }
    }

    fn eval(&self, inputs: Vec<Tensor>) -> (r: TractResult<Vec<Tensor>>) {
        let mut inputs = inputs;
        if inputs.len() != 1 {
            return Err(TractError::new(ErrorKind::Evaluation, "expected one input"));
        }
        let ghost views = tensor_views(inputs@);
        assert(views[0] == inputs@[0]@);
        let input = inputs.remove(0);
        match input.remove_axis(self.axis) {
            Ok(t) => {
                let mut out: Vec<Tensor> = Vec::new();
                out.push(t);
                assert(tensor_views(out@) =~= seq![t@]);
                Ok(out)
            },
            Err(e) => Err(e),
        }
    }
}

/// The axis of the input that stands at place `j` of the output once the
/// axis `axis` is removed.
pub open spec fn kept_axis(axis: usize, j: int) -> usize {
    if j >= axis {
        (j + 1) as usize
    } else {
        j as usize
    }
}

/// The invariants of the removal are true of the shapes: the axis at place
/// `j` of the output is the axis at place `kept_axis(axis, j)` of the input.
pub proof fn lemma_kept_axes_keep_their_size(axis: usize, shape: Seq<Dim>, j: int)
    requires
        axis < shape.len(),
        shape.len() <= usize::MAX,
        0 <= j < shape.len() - 1,
    ensures
        kept_axis(axis, j) != axis,
        kept_axis(axis, j) < shape.len(),
        shape.remove(axis as int)[j] == shape[kept_axis(axis, j) as int],
{
}

/// Whether the followed axis begins at an operator that inserts exactly it:
/// the outlet `c.0` is the output of an `AddDim` whose axis is `c.1`.
pub open spec fn creates<O: OpAs<AddDim>>(model: &ModelImpl<TypedFact, O>, c: (OutletId, usize)) -> bool {
    &&& c.0.node < model.nodes@.len()
    &&& c.0.slot == 0
    &&& model.nodes@[c.0.node as int].inputs@.len() > 0
    &&& match OpAs::<AddDim>::op_as_spec(&model.nodes@[c.0.node as int].op) {
        Some(add) => add.axis == c.1,
        None => false,
    }
}

/// Whether the followed axis ends at an operator that removes exactly it:
/// the inlet `d.0` is the input of a `RmDim` whose axis is `d.1`.
pub open spec fn destroys<O: OpAs<RmDim>>(model: &ModelImpl<TypedFact, O>, d: (InletId, usize)) -> bool {
    &&& d.0.node < model.nodes@.len()
    &&& d.0.slot == 0
    &&& model.nodes@[d.0.node as int].inputs@.len() > 0
    &&& model.nodes@[d.0.node as int].outputs@.len() > 0
    &&& match OpAs::<RmDim>::op_as_spec(&model.nodes@[d.0.node as int].op) {
        Some(rm) => rm.axis == d.1,
        None => false,
    }
}

/// Whether the axis `seed` cannot be dropped from the model: an operator
/// that holds it does not let it go, it begins somewhere else than at an
/// operator that inserts exactly it, it ends somewhere else than at an
/// operator that removes exactly it, or it is two different axes of one
/// outlet.
pub open spec fn entangled<O: TypedOp<O> + OpAs<AddDim> + OpAs<RmDim>>(
    model: &ModelImpl<TypedFact, O>,
    seed: (OutletId, usize),
) -> bool {
    ||| !all_disposable(model, seed)
    ||| exists|c: (OutletId, usize)| is_creator(model, seed, c) && !creates(model, c)
    ||| exists|d: (InletId, usize)| is_destructor(model, seed, d) && !destroys(model, d)
    ||| exists|p: (OutletId, usize), q: (OutletId, usize)|
        same_axis(model, seed, p) && same_axis(model, seed, q) && p.0 == q.0 && p.1 != q.1
}

/// Whether every one of the creators is an operator that inserts its axis.
pub(crate) fn all_create<O: OpAs<AddDim>>(model: &ModelImpl<TypedFact, O>, creators: &Vec<(OutletId, usize)>) -> (r:
    bool)
    ensures
        r == forall|i: int| 0 <= i < creators@.len() ==> creates(model, #[trigger] creators@[i]),
{
    let mut i: usize = 0;
    while i < creators.len()
        invariant
            i <= creators@.len(),
            forall|k: int| 0 <= k < i ==> creates(model, #[trigger] creators@[k]),
        decreases creators@.len() - i,
    {
        let c = creators[i];
        let mut good = false;
        if c.0.node < model.nodes.len() && c.0.slot == 0 && model.nodes[c.0.node].inputs.len() > 0 {
            let found: Option<&AddDim> = model.nodes[c.0.node].op.op_as();
            match found {
                Some(add) => {
                    good = add.axis == c.1;
                },
                None => {},
            }
        }
        if !good {
            assert(!creates(model, creators@[i as int]));
            return false;
        }
        i += 1;
    }
    true
}

/// Whether every one of the destructors is an operator that removes its
/// axis.
pub(crate) fn all_destroy<O: OpAs<RmDim>>(model: &ModelImpl<TypedFact, O>, destructors: &Vec<(InletId, usize)>) -> (r:
    bool)
    ensures
        r == forall|i: int| 0 <= i < destructors@.len() ==> destroys(model, #[trigger] destructors@[i]),
{
    let mut i: usize = 0;
    while i < destructors.len()
        invariant
            i <= destructors@.len(),
            forall|k: int| 0 <= k < i ==> destroys(model, #[trigger] destructors@[k]),
        decreases destructors@.len() - i,
    {
        let d = destructors[i];
        let mut good = false;
        if d.0.node < model.nodes.len() && d.0.slot == 0 && model.nodes[d.0.node].inputs.len() > 0
            && model.nodes[d.0.node].outputs.len() > 0 {
            let found: Option<&RmDim> = model.nodes[d.0.node].op.op_as();
            match found {
                Some(rm) => {
                    good = rm.axis == d.1;
                },
                None => {},
            }
        }
        if !good {
            assert(!destroys(model, destructors@[i as int]));
            return false;
        }
        i += 1;
    }
    true
}

/// Whether no outlet stands in the list with two different axes.
pub(crate) fn one_axis_each(points: &Vec<(OutletId, usize)>) -> (r: bool)
    ensures
        r == forall|i: int, j: int|
            0 <= i < points@.len() && 0 <= j < points@.len() && (#[trigger] points@[i]).0 == (
            #[trigger] points@[j]).0 ==> points@[i].1 == points@[j].1,
{
    let mut i: usize = 0;
    while i < points.len()
        invariant
            i <= points@.len(),
            forall|a: int, b: int|
                0 <= a < i && 0 <= b < points@.len() && (#[trigger] points@[a]).0 == (
                #[trigger] points@[b]).0 ==> points@[a].1 == points@[b].1,
        decreases points@.len() - i,
    {
        let mut j: usize = 0;
        while j < points.len()
            invariant
                i < points@.len(),
                j <= points@.len(),
                forall|b: int|
                    0 <= b < j && points@[i as int].0 == (#[trigger] points@[b]).0 ==> points@[i as int].1
                        == points@[b].1,
            decreases points@.len() - j,
        {
            if points[i].0 == points[j].0 && points[i].1 != points[j].1 {
                return false;
            }
            j += 1;
        }
        i += 1;
    }
    true
}

/// Whether the node is one at which the axis ends.
pub(crate) fn ends_at(destructors: &Vec<(InletId, usize)>, node: usize) -> (r: bool)
    ensures
        r == exists|i: int| 0 <= i < destructors@.len() && (#[trigger] destructors@[i]).0.node == node,
{
    let mut i: usize = 0;
    while i < destructors.len()
        invariant
            i <= destructors@.len(),
            forall|k: int| 0 <= k < i ==> (#[trigger] destructors@[k]).0.node != node,
        decreases destructors@.len() - i,
    {
        if destructors[i].0.node == node {
            return true;
        }
        i += 1;
    }
    false
}

/// Whether the list holds the number.
pub(crate) fn in_order(order: &Vec<usize>, node: usize) -> (r: bool)
    ensures
        r == order@.contains(node),
{
    let mut i: usize = 0;
    while i < order.len()
        invariant
            i <= order@.len(),
            forall|k: int| 0 <= k < i ==> order@[k] != node,
        decreases order@.len() - i,
    {
        if order[i] == node {
            return true;
        }
        i += 1;
    }
    false
}

impl<O: From<RmDim>> TypedOp<O> for RmDim {
    /// The output has the type of the first input, and its shape without
    /// the axis `axis`.
    open spec fn output_facts_spec(&self, inputs: Seq<TypedFactView>) -> Result<
        Seq<TypedFactView>,
        ErrorKind,
    > {
        if inputs.len() >= 1 && self.axis < inputs[0].shape.len() && stream_count(
            inputs[0].shape.remove(self.axis as int),
        ) <= 1 {
            Ok(
                seq![
                    TypedFactView {
                        datum_type: inputs[0].datum_type,
                        shape: inputs[0].shape.remove(self.axis as int),
                        konst: None,
                    },
                ],
            )
        } else {
            Err(ErrorKind::InvariantViolation)
        }
    }

    fn output_facts(&self, inputs: &Vec<&TypedFact>) -> (r: TractResult<Vec<TypedFact>>) {
        if inputs.len() == 0 || self.axis >= inputs[0].shape.len() {
            return Err(TractError::new(ErrorKind::InvariantViolation, "no such axis to remove"));
        }
        let mut shape = copy_dims(&inputs[0].shape);
        shape.remove(self.axis);
        match TypedFact::dt_shape(inputs[0].datum_type, shape) {
            Ok(fact) => {
                let mut out: Vec<TypedFact> = Vec::new();
                out.push(fact);
                assert(typed_views(out@) =~= seq![fact@]);
                Ok(out)
            },
            Err(e) => Err(e),
        }
    }

    /// Every axis of the input but `axis` goes through: those before it at
    /// their place, those after it one place down.
    open spec fn invariants_spec(
        &self,
        model: &ModelImpl<TypedFact, O>,
        node: &BaseNode<TypedFact, O>,
    ) -> Result<Seq<AxisInfoView>, ErrorKind> {
        match first_input_rank(model, node) {
            Some(rank) => Ok(
                Seq::new(
                    if self.axis < rank {
                        (rank - 1) as nat
                    } else {
                        rank
                    },
                    |j: int| through(kept_axis(self.axis, j), j as usize),
                ),
            ),
            None => Err(ErrorKind::InvariantViolation),
        }
    }

    fn invariants(&self, model: &ModelImpl<TypedFact, O>, node: &BaseNode<TypedFact, O>) -> (r:
        TractResult<Invariants>) {
        let rank = match input_rank(model, node) {
            Ok(rank) => rank,
            Err(e) => {
                return Err(e);
            },
        };
        let mut out: usize = 0;
        let mut axes: Vec<AxisInfo> = Vec::new();
        let mut i: usize = 0;
        while i < rank
            invariant
                i <= rank,
                out <= i,
                out == (if i <= self.axis {
                    i as int
                } else {
                    i - 1
                }),
                axes@.len() == out,
                forall|k: int|
                    0 <= k < out ==> (#[trigger] axes@[k])@ == through(
                        kept_axis(self.axis, k),
                        k as usize,
                    ),
            decreases rank - i,
        {
            if self.axis != i {
                axes.push(axis_through(i, out));
                out += 1;
            }
            i += 1;
        }
        let r = Invariants { axes };
        assert(r@ =~= Seq::new(
            if self.axis < rank {
                (rank - 1) as nat
            } else {
                rank as nat
            },
            |j: int| through(kept_axis(self.axis, j), j as usize),
        ));
        Ok(r)
    }

    /// The operator moves one down where the dropped axis stood before its
    /// own. It cannot answer where the axis is not in its first input.
    open spec fn disposes(
        &self,
        model: &ModelImpl<TypedFact, O>,
        node: &BaseNode<TypedFact, O>,
        axes: Seq<Option<usize>>,
        r: TractResult<Option<O>>,
    ) -> bool {
        if axes.len() > 0 && axes[0] is Some {
            r matches Ok(Some(op)) && (O::obeys_from_spec() ==> op == O::from_spec(
                RmDim { axis: shifted(self.axis, axes[0].unwrap()) },
            ))
        } else {
            r matches Err(e) && e.kind == ErrorKind::InvariantViolation
        }
    }

    fn dispose_dummy_axis(
        &self,
        model: &ModelImpl<TypedFact, O>,
        node: &BaseNode<TypedFact, O>,
        axes: &Vec<Option<usize>>,
    ) -> (r: TractResult<Option<O>>) {
        let gone = match first_axis(axes) {
            Ok(a) => a,
            Err(e) => {
                return Err(e);
            },
        };
        Ok(Some(O::from(RmDim::new(shift_axis(self.axis, gone)))))
    }

}

/// Whether the shunts replace the output of exactly those operators at
/// which the axis `seed` ends and on which an output of the model depends.
pub open spec fn bypasses<O: TypedOp<O>>(
    model: &ModelImpl<TypedFact, O>,
    seed: (OutletId, usize),
    shunts: Map<OutletId, Wire>,
) -> bool {
    &&& forall|o: OutletId| #[trigger]
        shunts.contains_key(o) ==> o.slot == 0 && model.needs(o.node as int) && exists|
            d: (InletId, usize),
        | is_destructor(model, seed, d) && d.0.node == o.node
    &&& forall|d: (InletId, usize)|
        #![trigger is_destructor(model, seed, d)]
        is_destructor(model, seed, d) && model.needs(d.0.node as int) ==> shunts.contains_key(
            OutletId { node: d.0.node, slot: 0 },
        )
}

impl<O> DeclutterOp<O> for RmDim where
    O: TypedOp<O> + Clone + From<RmDim> + OpAs<RmDim> + OpAs<AddDim>,
 {
    /// The operator proposes to drop its axis from the model where the axis
    /// is not entangled.
    open spec fn proposes(&self, model: &ModelImpl<TypedFact, O>, node: &BaseNode<TypedFact, O>) -> bool {
        node.inputs@.len() > 0 && !entangled(model, (node.inputs@[0], self.axis))
    }

    /// The operator is sure to answer where it reads something and every
    /// operator of the model gives its invariants, if the axis is entangled
    /// (there is no rewrite then), or if the model can be ordered and the
    /// axis goes through no node that an output depends on (the rewrite
    /// then asks nothing of any other operator).
    open spec fn answers(&self, model: &ModelImpl<TypedFact, O>, node: &BaseNode<TypedFact, O>) -> bool {
        &&& node.inputs@.len() > 0
        &&& gives_invariants(model)
        &&& entangled(model, (node.inputs@[0], self.axis)) || (can_be_ordered(model) && forall|
            n: int,
        | #[trigger]
            model.needs(n) ==> !goes_through(model, (node.inputs@[0], self.axis), n as usize))
    }

    /// A proposal of the operator is a patch that drops, from the whole
    /// model, the axis that the operator removes.
    open spec fn proposal(
        &self,
        model: &ModelImpl<TypedFact, O>,
        node: &BaseNode<TypedFact, O>,
        patch: &ModelPatch<TypedFact, O>,
    ) -> bool {
        &&& node.inputs@.len() > 0
        &&& forall|order: Seq<usize>| #[trigger]
            model.is_eval_order(order) ==> rewrites(
                model,
                (node.inputs@[0], self.axis),
                order,
                patch,
            )
    }

    /// Proposes to drop the axis that the operator removes from the whole
    /// model, where that can be done: the axis is followed from the input
    /// of the node. An operator that reads nothing has no such axis, and
    /// fails.
    fn declutter(&self, model: &ModelImpl<TypedFact, O>, node: &BaseNode<TypedFact, O>) -> (r:
        TractResult<Option<ModelPatch<TypedFact, O>>>)
        ensures
            node.inputs@.len() == 0 ==> r is Err,
            node.inputs@.len() > 0 && gives_invariants(model) && entangled(
                model,
                (node.inputs@[0], self.axis),
            ) ==> r matches Ok(None),
            r matches Ok(Some(patch)) ==> forall|order: Seq<usize>| #[trigger]
                model.is_eval_order(order) ==> rewrites(
                    model,
                    (node.inputs@[0], self.axis),
                    order,
                    &patch,
                ),
            node.inputs@.len() > 0 && gives_invariants(model) && !entangled(
                model,
                (node.inputs@[0], self.axis),
            ) && !can_be_ordered(model) ==> r is Err,
            node.inputs@.len() > 0 && gives_invariants(model) && !entangled(
                model,
                (node.inputs@[0], self.axis),
            ) && can_be_ordered(model) && (forall|n: int| #[trigger]
                model.needs(n) ==> !goes_through(model, (node.inputs@[0], self.axis), n as usize))
                ==> r matches Ok(Some(_)),
    {
        if node.inputs.len() == 0 {
            return Err(TractError::new(ErrorKind::InvariantViolation, "the node has no input"));
        }
        assert(outlet_exists(model.nodes@, model.nodes@[node.id as int].inputs@[0]));
        elide_axis(model, node.inputs[0], self.axis)
    }
}

impl PulsedOp for RmDim {
    /// The output is the first input without the axis `axis`; the streaming
    /// axis moves one down where it stands after `axis`. The streaming axis
    /// itself cannot be removed.
    open spec fn pulsed_output_facts_spec(&self, inputs: Seq<PulsedFactView>) -> Result<
        Seq<PulsedFactView>,
        ErrorKind,
    > {
        if inputs.len() >= 1 && self.axis < inputs[0].shape.len() && self.axis != inputs[0].axis {
            Ok(
                seq![
                    PulsedFactView {
                        datum_type: inputs[0].datum_type,
                        shape: inputs[0].shape.remove(self.axis as int),
                        axis: if self.axis < inputs[0].axis {
                            (inputs[0].axis - 1) as usize
                        } else {
                            inputs[0].axis
                        },
                        dim: inputs[0].dim,
                        delay: inputs[0].delay,
                    },
                ],
            )
        } else {
            Err(ErrorKind::InvariantViolation)
        }
    }

    fn pulsed_output_facts(&self, inputs: &Vec<&PulsedFact>) -> (r: TractResult<Vec<PulsedFact>>) {
        if inputs.len() == 0 || self.axis >= inputs[0].shape.len() || self.axis == inputs[0].axis {
            return Err(TractError::new(ErrorKind::InvariantViolation, "no such axis to remove"));
        }
        let mut fact = inputs[0].clone();
        fact.shape.remove(self.axis);
        if self.axis < fact.axis {
            fact.axis = fact.axis - 1;
        }
        let mut out: Vec<PulsedFact> = Vec::new();
        out.push(fact);
        assert(pulsed_views(out@) =~= seq![fact@]);
        Ok(out)
    }
}

impl<O, P> PulsifyOp<O, P> for RmDim where O: From<RmDim>, P: PulsedOp + From<RmDim> {
    /// Lowers the node into one node with the same operator, which reads
    /// what the input of the node was mapped to. It fails where the node
    /// reads nothing, where what it reads is not mapped, and where the
    /// operator rejects the fact of what it reads.
    fn pulsify(
        &self,
        source: &ModelImpl<TypedFact, O>,
        node: &BaseNode<TypedFact, O>,
        target: &mut ModelImpl<PulsedFact, P>,
        mapping: &OutletMap<OutletId>,
        pulse: usize,
    ) -> (r: TractResult<Vec<OutletId>>)
        ensures
            (node.inputs@.len() == 0 || !mapping@.contains_key(node.inputs@[0])) ==> r is Err,
            P::obeys_from_spec() ==> (r is Ok <==> node.inputs@.len() > 0 && mapping@.contains_key(
                node.inputs@[0],
            ) && P::from_spec(*self).pulsed_output_facts_spec(
                pulsed_facts_at(old(target).nodes@, seq![mapping@[node.inputs@[0]]]),
            ) is Ok),
            r matches Ok(outlets) ==> {
                let added = final(target).nodes@.last();
                &&& final(target).nodes@.len() == old(target).nodes@.len() + 1
                &&& final(target).nodes@.drop_last() == old(target).nodes@
                &&& added.name@ == node.name@
                &&& (P::obeys_from_spec() ==> added.op == P::from_spec(*self))
                &&& added.inputs@ == seq![mapping@[node.inputs@[0]]]
                &&& Ok::<Seq<PulsedFactView>, ErrorKind>(pulsed_views(added.outputs@))
                    == added.op.pulsed_output_facts_spec(
                    pulsed_facts_at(old(target).nodes@, seq![mapping@[node.inputs@[0]]]),
                )
                &&& outlets@ == Seq::new(
                    added.outputs@.len(),
                    |ix: int| OutletId { node: old(target).nodes@.len() as usize, slot: ix as usize },
                )
            },
            r is Err ==> *final(target) == *old(target),
    {
        if node.inputs.len() == 0 {
            return Err(TractError::new(ErrorKind::InvariantViolation, "the node has no input"));
        }
        let input = match mapping.lookup(node.inputs[0]) {
            Some(o) => o,
            None => {
                return Err(
                    TractError::new(ErrorKind::InvariantViolation, "the input was not translated"),
                );
            },
        };
        let mut inputs: Vec<OutletId> = Vec::new();
        inputs.push(input);
        assert(inputs@ =~= seq![input]);
        let ghost before = target.nodes@;
        let r = target.wire_node(node.name.clone(), P::from(*self), &inputs);
        proof {
            if r is Ok {
                assert forall|o: OutletId| #[trigger] outlet_exists(before, o) implies outlet_exists(
                    target.nodes@,
                    o,
                ) by {
                    assert(target.nodes@.drop_last()[o.node as int] == target.nodes@[o.node as int]);
                }
                let outlets = r->Ok_0;
                assert forall|k: int| 0 <= k < outlets@.len() implies outlet_exists(
                    target.nodes@,
                    #[trigger] outlets@[k],
                ) by {}
            }
        }
        r
    }
}

/// Removing an axis right after it was inserted gives the tensor back.
pub proof fn lemma_insert_then_remove(axis: usize, t: TensorView)
    requires
        axis <= t.shape.len(),
    ensures
        (AddDim { axis }).eval_spec(seq![t]) is Ok,
        (RmDim { axis }).eval_spec((AddDim { axis }).eval_spec(seq![t]).unwrap()) == Ok::<
            Seq<TensorView>,
            ErrorKind,
        >(seq![t]),
{
    let longer = t.shape.insert(axis as int, 1usize);
    assert(longer.remove(axis as int) =~= t.shape);
}

/// An axis that is inserted at `a`, carried through the insertion of another
/// axis at `b`, and removed where it stands then, need not be inserted at
/// all: the other insertion alone, moved one down where it stood behind `a`,
/// gives the same tensor.
pub proof fn lemma_insert_carried_through_insert(a: usize, b: usize, t: TensorView)
    requires
        a <= t.shape.len(),
        b <= t.shape.len() + 1,
        t.shape.len() + 2 <= usize::MAX,
    ensures
        ({
            let inserted = (AddDim { axis: a }).eval_spec(seq![t]);
            let carried = (AddDim { axis: b }).eval_spec(inserted.unwrap());
            let moved = if a >= b {
                (a + 1) as usize
            } else {
                a
            };
            &&& inserted is Ok
            &&& carried is Ok
            &&& (RmDim { axis: moved }).eval_spec(carried.unwrap()) == (AddDim {
                axis: shifted(b, a),
            }).eval_spec(seq![t])
        }),
{
    let s = t.shape;
    let s1 = s.insert(a as int, 1usize);
    let s2 = s1.insert(b as int, 1usize);
    if a >= b {
        assert(s2[a + 1] == 1);
        assert(s2.remove(a + 1) =~= s.insert(b as int, 1usize));
    } else {
        assert(s2[a as int] == 1);
        assert(s2.remove(a as int) =~= s.insert(b - 1, 1usize));
    }
}

/// An axis that is inserted at `a`, carried through the removal of another
/// axis, and removed where it stands then, need not be inserted at all: the
/// other removal alone, moved one down where it stood behind `a`, gives the
/// same tensor, and fails where the removal after the insertion fails.
pub proof fn lemma_insert_carried_through_remove(a: usize, c: usize, t: TensorView)
    requires
        a != c,
        a <= t.shape.len(),
        c <= t.shape.len(),
    ensures
        ({
            let inserted = (AddDim { axis: a }).eval_spec(seq![t]);
            let through = (RmDim { axis: c }).eval_spec(inserted.unwrap());
            let moved = if a > c {
                (a - 1) as usize
            } else {
                a
            };
            &&& inserted is Ok
            &&& (through is Ok ==> (RmDim { axis: moved }).eval_spec(through.unwrap()) == (RmDim {
                axis: shifted(c, a),
            }).eval_spec(seq![t]))
            &&& (through is Err ==> (RmDim { axis: shifted(c, a) }).eval_spec(seq![t]) is Err)
        }),
{
    let s = t.shape;
    let s1 = s.insert(a as int, 1usize);
    if a < c {
        assert(s1[c as int] == s[c - 1]);
        if s1[c as int] == 1 {
            let s2 = s1.remove(c as int);
            assert(s2[a as int] == 1);
            assert(s2.remove(a as int) =~= s.remove(c - 1));
        }
    } else {
        assert(s1[c as int] == s[c as int]);
        if s1[c as int] == 1 {
            let s2 = s1.remove(c as int);
            assert(s2[a - 1] == 1);
            assert(s2.remove(a - 1) =~= s.remove(c as int));
        }
    }
}

} // verus!
