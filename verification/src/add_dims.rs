//! Inserting an axis of size one into a tensor.
use vstd::prelude::*;
use vstd::std_specs::convert::FromSpec;
use vstd::string::StringExecFns;
use crate::datum::Dim;
use crate::error::{ErrorKind, TractError, TractResult};
use crate::fact::{copy_dims, stream_count, TypedFact, TypedFactView};
use crate::model::{outlet_exists, BaseNode, ModelImpl};
use crate::ops::{tensor_views, typed_views, AxisInfo, AxisInfoView, DeclutterOp, Invariants, Op, StatelessOp, TypedOp};
use crate::patch::ModelPatch;
use crate::tensor::{Tensor, TensorView};
use crate::text::{append_decimal, decimal, text_of};

verus! {

/// The operator that inserts an axis of size one at the place `axis`.
#[derive(Clone, Copy, Debug, PartialEq, Eq, Structural)]
pub struct AddDim {
    pub axis: usize,
}

impl AddDim {
    pub fn new(axis: usize) -> (r: AddDim)
        ensures
            r == (AddDim { axis }),
    {
        AddDim { axis }
    }
}

/// The invariant that ties the axis `from` of the single input to the axis
/// `to` of the single output, and lets it be dropped.
pub open spec fn through(from: usize, to: usize) -> AxisInfoView {
    AxisInfoView { inputs: seq![Some(from)], outputs: seq![Some(to)], period: 1, disposable: true }
}

/// The invariant that ties the axis `from` of the single input to the axis
/// `to` of the single output.
pub fn axis_through(from: usize, to: usize) -> (r: AxisInfo)
    ensures
        r@ == through(from, to),
{
    let mut inputs: Vec<Option<usize>> = Vec::new();
    inputs.push(Some(from));
    let mut outputs: Vec<Option<usize>> = Vec::new();
    outputs.push(Some(to));
    let r = AxisInfo { inputs, outputs, period: 1, disposable: true };
    assert(r@.inputs =~= seq![Some(from)]);
    assert(r@.outputs =~= seq![Some(to)]);
    r
}

/// The rank of what the node reads first, if it reads anything.
pub open spec fn first_input_rank<O>(model: &ModelImpl<TypedFact, O>, node: &BaseNode<TypedFact, O>) -> Option<
    nat,
> {
    if node.inputs@.len() > 0 && outlet_exists(model.nodes@, node.inputs@[0]) {
        Some(
            model.nodes@[node.inputs@[0].node as int].outputs@[node.inputs@[0].slot as int].shape@.len(),
        )
    } else {
        None
    }
}

/// The rank of what the node reads first. Fails where the node reads
/// nothing.
pub fn input_rank<O>(model: &ModelImpl<TypedFact, O>, node: &BaseNode<TypedFact, O>) -> (r: TractResult<
    usize,
>)
    ensures
        r is Ok <==> first_input_rank(model, node) is Some,
        r matches Ok(rank) ==> Some(rank as nat) == first_input_rank(model, node),
        r matches Err(e) ==> e.kind == ErrorKind::InvariantViolation,
{
    if node.inputs.len() == 0 {
        return Err(TractError::new(ErrorKind::InvariantViolation, "the node has no input"));
    }
    match model.outlet_fact(node.inputs[0]) {
        Ok(fact) => Ok(fact.shape.len()),
        Err(e) => Err(e),
    }
}

/// The axis that an operator at `axis` moves to once the axis `gone` of its
/// input is dropped: one lower where `axis` stood behind it.
pub open spec fn shifted(axis: usize, gone: usize) -> usize {
    if axis > gone {
        (axis - 1) as usize
    } else {
        axis
    }
}

/// The axis that an operator at `axis` moves to once the axis `gone` of its
/// input is dropped.
pub fn shift_axis(axis: usize, gone: usize) -> (r: usize)
    ensures
        r == shifted(axis, gone),
{
    if axis > gone {
        axis - 1
    } else {
        axis
    }
}

/// The one axis of the input that is to be dropped, as the first of `axes`
/// gives it.
pub fn first_axis(axes: &Vec<Option<usize>>) -> (r: TractResult<usize>)
    ensures
        r is Ok <==> axes@.len() > 0 && axes@[0] is Some,
        r matches Ok(a) ==> axes@[0] == Some(a),
        r matches Err(e) ==> e.kind == ErrorKind::InvariantViolation,
{
    if axes.len() > 0 {
        match axes[0] {
            Some(a) => {
                return Ok(a);
            },
            None => {},
        }
    }
    Err(TractError::new(ErrorKind::InvariantViolation, "no axis to drop"))
}

impl Op for AddDim {
    open spec fn spec_name(&self) -> Seq<char> {
        "AddDim"@
    }

    fn name(&self) -> (r: String) {
        text_of("AddDim")
    }

    open spec fn spec_info(&self) -> Seq<Seq<char>> {
        seq!["axis: "@ + decimal(self.axis as nat)]
    }

    fn info(&self) -> (r: TractResult<Vec<String>>) {
        let mut line = text_of("axis: ");
        append_decimal(&mut line, self.axis);
        let mut lines: Vec<String> = Vec::new();
        lines.push(line);
        assert(lines.deep_view() =~= seq!["axis: "@ + decimal(self.axis as nat)]);
        Ok(lines)
    }
}

impl StatelessOp for AddDim {
    /// Evaluation takes one tensor and returns its elements under the shape
    /// with one more axis, of size one, at `axis`.
    open spec fn eval_spec(&self, inputs: Seq<TensorView>) -> Result<Seq<TensorView>, ErrorKind> {
        if inputs.len() == 1 && self.axis <= inputs[0].shape.len() {
            Ok(
                seq![
                    TensorView {
                        datum_type: inputs[0].datum_type,
                        shape: inputs[0].shape.insert(self.axis as int, 1usize),
                        data: inputs[0].data,
                    },
                ],
            )
        } else {
            Err(ErrorKind::Evaluation)
        }
    }

    fn eval(&self, inputs: Vec<Tensor>) -> (r: TractResult<Vec<Tensor>>) {
        let mut inputs = inputs;
        if inputs.len() != 1 {
            return Err(TractError::new(ErrorKind::Evaluation, "expected one input"));
        }
        let ghost views = tensor_views(inputs@);
        assert(views[0] == inputs@[0]@);
        let input = inputs.remove(0);
        match input.insert_axis(self.axis) {
            Ok(t) => {
                let mut out: Vec<Tensor> = Vec::new();
                out.push(t);
                assert(tensor_views(out@) =~= seq![t@]);
                Ok(out)
            },
            Err(e) => Err(e),
        }
    }
}

impl<O: From<AddDim>> TypedOp<O> for AddDim {
    /// The output has the type of the first input, and its shape with one
    /// more axis, of size one, at `axis`.
    open spec fn output_facts_spec(&self, inputs: Seq<TypedFactView>) -> Result<
        Seq<TypedFactView>,
        ErrorKind,
    > {
        if inputs.len() >= 1 && self.axis <= inputs[0].shape.len() && stream_count(
            inputs[0].shape.insert(self.axis as int, Dim::Val(1)),
        ) <= 1 {
            Ok(
                seq![
                    TypedFactView {
                        datum_type: inputs[0].datum_type,
                        shape: inputs[0].shape.insert(self.axis as int, Dim::Val(1)),
                        konst: None,
                    },
                ],
            )
        } else {
            Err(ErrorKind::InvariantViolation)
        }
    }

    fn output_facts(&self, inputs: &Vec<&TypedFact>) -> (r: TractResult<Vec<TypedFact>>) {
        if inputs.len() == 0 || self.axis > inputs[0].shape.len() {
            return Err(TractError::new(ErrorKind::InvariantViolation, "no place for the new axis"));
        }
        let mut shape = copy_dims(&inputs[0].shape);
        shape.insert(self.axis, Dim::Val(1));
        match TypedFact::dt_shape(inputs[0].datum_type, shape) {
            Ok(fact) => {
                let mut out: Vec<TypedFact> = Vec::new();
                out.push(fact);
                assert(typed_views(out@) =~= seq![fact@]);
                Ok(out)
            },
            Err(e) => Err(e),
        }
    }

    /// Every axis of the input goes through: those before `axis` keep their
    /// place, those from `axis` on move one up.
    open spec fn invariants_spec(
        &self,
        model: &ModelImpl<TypedFact, O>,
        node: &BaseNode<TypedFact, O>,
    ) -> Result<Seq<AxisInfoView>, ErrorKind> {
        match first_input_rank(model, node) {
            Some(rank) => if rank < usize::MAX {
                Ok(
                    Seq::new(
                        rank,
                        |i: int|
                            through(
                                i as usize,
                                if i >= self.axis {
                                    (i + 1) as usize
                                } else {
                                    i as usize
                                },
                            ),
                    ),
                )
            } else {
                Err(ErrorKind::InvariantViolation)
            },
            None => Err(ErrorKind::InvariantViolation),
        }
    }

    fn invariants(&self, model: &ModelImpl<TypedFact, O>, node: &BaseNode<TypedFact, O>) -> (r:
        TractResult<Invariants>) {
        let rank = match input_rank(model, node) {
            Ok(rank) => rank,
            Err(e) => {
                return Err(e);
            },
        };
        if rank == usize::MAX {
            return Err(TractError::new(ErrorKind::InvariantViolation, "the rank is too large"));
        }
        let mut axes: Vec<AxisInfo> = Vec::new();
        let mut i: usize = 0;
        while i < rank
            invariant
                i <= rank,
                rank < usize::MAX,
                axes@.len() == i,
                forall|k: int|
                    0 <= k < i ==> (#[trigger] axes@[k])@ == through(
                        k as usize,
                        if k >= self.axis {
                            (k + 1) as usize
                        } else {
                            k as usize
                        },
                    ),
            decreases rank - i,
        {
            let to = if i >= self.axis {
                i + 1
            } else {
                i
            };
            axes.push(axis_through(i, to));
            i += 1;
        }
        let r = Invariants { axes };
        assert(r@ =~= Seq::new(
            rank as nat,
            |i: int|
                through(
                    i as usize,
                    if i >= self.axis {
                        (i + 1) as usize
                    } else {
                        i as usize
                    },
                ),
        ));
        Ok(r)
    }

    /// The operator moves one down where the dropped axis stood before its
    /// own. It cannot answer where the axis is not in its first input.
    open spec fn disposes(
        &self,
        model: &ModelImpl<TypedFact, O>,
        node: &BaseNode<TypedFact, O>,
        axes: Seq<Option<usize>>,
        r: TractResult<Option<O>>,
    ) -> bool {
        if axes.len() > 0 && axes[0] is Some {
            r matches Ok(Some(op)) && (O::obeys_from_spec() ==> op == O::from_spec(
                AddDim { axis: shifted(self.axis, axes[0].unwrap()) },
            ))
        } else {
            r matches Err(e) && e.kind == ErrorKind::InvariantViolation
        }
    }

    fn dispose_dummy_axis(
        &self,
        model: &ModelImpl<TypedFact, O>,
        node: &BaseNode<TypedFact, O>,
        axes: &Vec<Option<usize>>,
    ) -> (r: TractResult<Option<O>>) {
        let gone = match first_axis(axes) {
            Ok(a) => a,
            Err(e) => {
                return Err(e);
            },
        };
        Ok(Some(O::from(AddDim::new(shift_axis(self.axis, gone)))))
    }

}

impl<O: From<AddDim>> DeclutterOp<O> for AddDim {
    /// The operator knows no rewrite.
    open spec fn proposes(&self, model: &ModelImpl<TypedFact, O>, node: &BaseNode<TypedFact, O>) -> bool {
        false
    }

    /// The operator always answers.
    open spec fn answers(&self, model: &ModelImpl<TypedFact, O>, node: &BaseNode<TypedFact, O>) -> bool {
        true
    }

    /// No patch is a proposal of the operator.
    open spec fn proposal(
        &self,
        model: &ModelImpl<TypedFact, O>,
        node: &BaseNode<TypedFact, O>,
        patch: &ModelPatch<TypedFact, O>,
    ) -> bool {
        false
    }

    fn declutter(&self, model: &ModelImpl<TypedFact, O>, node: &BaseNode<TypedFact, O>) -> (r:
        TractResult<Option<ModelPatch<TypedFact, O>>>)
        ensures
            r matches Ok(None),
    {
        Ok(None)
    }
}

} // verus!
