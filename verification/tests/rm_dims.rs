use tract_core::add_dims::AddDim;
use tract_core::any_op::{AnyInferenceOp, AnyPulsedOp, AnyTypedOp};
use tract_core::datum::{DatumType, Dim, Float32};
use tract_core::error::ErrorKind;
use tract_core::fact::{DimFact, InferenceFact, PulsedFact, ShapeFact, TypeFact, TypedFact, ValueFact};
use tract_core::infer::InferenceOp;
use tract_core::model::ModelImpl;
use tract_core::ops::{Op, PulsedOp, PulsifyOp, StatelessOp, TypedOp};
use tract_core::outlet::{OutletId, OutletMap};
use tract_core::rm_dims::{has_axis, RmDim, RmDims};
use tract_core::solver::{InferenceRulesOp, Rule, Solver, TensorProxy};
use tract_core::source::Source;
use tract_core::tensor::Tensor;

type Typed = ModelImpl<TypedFact, AnyTypedOp>;

fn fact(shape: Vec<usize>) -> TypedFact {
    TypedFact::dt_shape(DatumType::F32, shape.into_iter().map(Dim::Val).collect()).unwrap()
}

fn shape_of(f: &InferenceFact) -> Option<Vec<DimFact>> {
    match &f.shape {
        ShapeFact::Any => None,
        ShapeFact::Only(d) => Some(d.clone()),
    }
}

fn sizes(v: &[usize]) -> Vec<DimFact> {
    v.iter().map(|d| DimFact::Only(Dim::Val(*d))).collect()
}

#[test]
fn compute_shape_leaves_out_the_axes() {
    let op = RmDims::new(vec![0, 2]);
    assert_eq!(op.compute_shape(&[1usize, 3, 1, 4]), vec![3, 4]);
    assert_eq!(op.compute_shape(&[7usize]), Vec::<usize>::new());
    assert_eq!(op.compute_shape::<usize>(&[]), Vec::<usize>::new());
    assert_eq!(
        op.compute_shape(&[Dim::Val(1), Dim::Stream, Dim::Val(1)]),
        vec![Dim::Stream]
    );
    assert_eq!(RmDims::new(vec![]).compute_shape(&[5usize, 6]), vec![5, 6]);
    assert_eq!(RmDims::new(vec![9, 1, 1]).compute_shape(&[5usize, 6, 7]), vec![5, 7]);
    assert!(has_axis(&vec![4, 2], 2));
    assert!(!has_axis(&vec![4, 2], 3));
}

#[test]
fn eval_t_reshapes() {
    let op = RmDims::new(vec![0, 2]);
    let t = Tensor::new(DatumType::F32, vec![1, 3, 1], vec![1, 2, 3]).unwrap();
    let out = op.eval_t::<Float32>(t.clone()).unwrap();
    assert_eq!(out.len(), 1);
    assert_eq!(out[0].shape(), &vec![3]);
    assert_eq!(out[0].data(), &vec![1, 2, 3]);
    assert_eq!(out[0].datum_type(), DatumType::F32);
    // another element type than the one asked for
    assert_eq!(op.eval_t::<i32>(t).unwrap_err().kind, ErrorKind::Evaluation);
    // an axis that is not of size one
    let t = Tensor::new(DatumType::I32, vec![2, 3, 1], vec![1, 2, 3, 4, 5, 6]).unwrap();
    assert_eq!(op.eval_t::<i32>(t).unwrap_err().kind, ErrorKind::Evaluation);
}

#[test]
fn eval_goes_by_the_datum_type() {
    let op = RmDims::new(vec![1]);
    for dt in [
        DatumType::Bool,
        DatumType::U8,
        DatumType::U16,
        DatumType::I8,
        DatumType::I16,
        DatumType::I32,
        DatumType::I64,
        DatumType::F32,
        DatumType::F64,
    ] {
        let t = Tensor::new(dt, vec![2, 1], vec![1, 0]).unwrap();
        let out = op.eval(vec![t]).unwrap();
        assert_eq!(out[0].shape(), &vec![2]);
        assert_eq!(out[0].datum_type(), dt);
    }
    assert_eq!(op.eval(vec![]).unwrap_err().kind, ErrorKind::Evaluation);
    let t = Tensor::new(DatumType::U8, vec![2, 1], vec![1, 0]).unwrap();
    assert_eq!(op.eval(vec![t.clone(), t]).unwrap_err().kind, ErrorKind::Evaluation);
}

#[test]
fn names_and_descriptions() {
    assert_eq!(RmDims::new(vec![0, 12]).name(), "RmDims");
    assert_eq!(RmDims::new(vec![0, 12]).info().unwrap(), vec!["axes: [0, 12]".to_string()]);
    assert_eq!(RmDims::new(vec![]).info().unwrap(), vec!["axes: []".to_string()]);
    assert_eq!(RmDims::new(vec![7]).info().unwrap(), vec!["axes: [7]".to_string()]);
    assert_eq!(RmDim::new(305).name(), "RmDim");
    assert_eq!(RmDim::new(305).info().unwrap(), vec!["axis: 305".to_string()]);
    assert_eq!(AddDim::new(0).name(), "AddDim");
    assert_eq!(Source.name(), "Source");
    assert!(Source.info().unwrap().is_empty());
    assert_eq!(AnyTypedOp::RmDim(RmDim::new(1)).name(), "RmDim");
    assert_eq!(AnyPulsedOp::RmDim(RmDim::new(1)).info().unwrap(), vec!["axis: 1".to_string()]);
    assert_eq!(AnyInferenceOp::RmDims(RmDims::new(vec![1])).name(), "RmDims");
}

#[test]
fn the_rules_of_rm_dims() {
    let op = RmDims::new(vec![0, 2]);
    let mut s = Solver::new();
    op.rules(&mut s, &vec![TensorProxy::Input(0)], &vec![TensorProxy::Output(0)]).unwrap();
    assert_eq!(s.rules.len(), 5);
    assert!(matches!(s.rules[0], Rule::EqualType(TensorProxy::Output(0), TensorProxy::Input(0))));
    assert!(matches!(
        s.rules[1],
        Rule::RankMinus { of: TensorProxy::Output(0), base: TensorProxy::Input(0), minus: 2 }
    ));
    assert!(matches!(
        s.rules[2],
        Rule::EqualDim { tensor: TensorProxy::Input(0), axis: 0, dim: Dim::Val(1) }
    ));
    assert!(matches!(
        s.rules[3],
        Rule::EqualDim { tensor: TensorProxy::Input(0), axis: 2, dim: Dim::Val(1) }
    ));
    assert!(matches!(s.rules[4], Rule::Given { tensor: TensorProxy::Input(0), key: 0 }));
    let mut s = Solver::new();
    let e = op.rules(&mut s, &vec![TensorProxy::Input(0)], &vec![]).unwrap_err();
    assert_eq!(e.kind, ErrorKind::InvariantViolation);
    let e = op.rules(&mut s, &vec![], &vec![TensorProxy::Output(0)]).unwrap_err();
    assert_eq!(e.kind, ErrorKind::InvariantViolation);
    let mut s = Solver::new();
    op.given(&mut s, 0, &vec![Dim::Val(1), Dim::Val(5), Dim::Val(1)], &vec![], &vec![]).unwrap();
    assert_eq!(s.rules.len(), 1);
    match &s.rules[0] {
        Rule::EqualShape { tensor, dims } => {
            assert_eq!(*tensor, TensorProxy::Output(0));
            assert_eq!(dims, &vec![Dim::Val(5)]);
        }
        _ => panic!("another rule"),
    }
}

#[test]
fn inference_removes_the_axis_from_the_shape() {
    let mut op = AnyInferenceOp::RmDims(RmDims::new(vec![0]));
    let input = InferenceFact::dt_shape(DatumType::F32, &vec![1, 3, 224, 224]);
    let output = InferenceFact::new();
    let r = op.infer(vec![&input], vec![&output], vec![]).unwrap();
    assert_eq!(r.0.len(), 1);
    assert!(r.0[0].same(&input));
    assert_eq!(r.1.len(), 1);
    assert_eq!(r.1[0].datum_type, TypeFact::Only(DatumType::F32));
    assert_eq!(shape_of(&r.1[0]), Some(sizes(&[3, 224, 224])));
    assert_eq!(shape_of(&r.1[0]).unwrap().len(), 3);
    assert!(!r.1[0].value.is_concrete());
    assert!(r.2.is_empty());
}

#[test]
fn inference_goes_both_ways() {
    let mut op = RmDims::new(vec![1]);
    let input = InferenceFact::new();
    let output = InferenceFact::dt_shape(DatumType::I32, &vec![2, 5]);
    let observed = InferenceFact::dt_shape(DatumType::U8, &vec![9]);
    let r = InferenceOp::<AnyInferenceOp, AnyTypedOp>::infer_facts(
        &mut op,
        vec![&input],
        vec![&output],
        vec![&observed],
    )
    .unwrap();
    // the type and the rank come from the output; the removed axis has size one
    assert_eq!(r.0[0].datum_type, TypeFact::Only(DatumType::I32));
    assert_eq!(
        shape_of(&r.0[0]),
        Some(vec![DimFact::Any, DimFact::Only(Dim::Val(1)), DimFact::Any])
    );
    assert!(r.1[0].same(&output));
    assert_eq!(r.2.len(), 1);
    assert!(r.2[0].same(&observed));
}

#[test]
fn inference_twice_gives_the_same() {
    let mut op = AnyInferenceOp::RmDims(RmDims::new(vec![0, 3]));
    let input = InferenceFact {
        datum_type: TypeFact::Any,
        shape: ShapeFact::Only(vec![DimFact::Any, DimFact::Only(Dim::Val(4)), DimFact::Any, DimFact::Any]),
        value: ValueFact::Any,
    };
    let output = InferenceFact {
        datum_type: TypeFact::Only(DatumType::I8),
        shape: ShapeFact::Any,
        value: ValueFact::Any,
    };
    let a = op.infer(vec![&input], vec![&output], vec![]).unwrap();
    let b = op.infer(vec![&input], vec![&output], vec![]).unwrap();
    assert!(a.0[0].same(&b.0[0]));
    assert!(a.1[0].same(&b.1[0]));
    assert_eq!(a.0[0].datum_type, TypeFact::Only(DatumType::I8));
    assert_eq!(
        shape_of(&a.0[0]),
        Some(vec![DimFact::Only(Dim::Val(1)), DimFact::Only(Dim::Val(4)), DimFact::Any, DimFact::Only(Dim::Val(1))])
    );
    assert_eq!(shape_of(&a.1[0]), Some(vec![DimFact::Any, DimFact::Any]));
    // inferring again from what was inferred changes nothing
    let c = op.infer(vec![&a.0[0]], vec![&a.1[0]], vec![]).unwrap();
    assert!(c.0[0].same(&a.0[0]));
    assert!(c.1[0].same(&a.1[0]));
}

#[test]
fn inference_with_known_inputs_is_evaluation() {
    let mut op = AnyInferenceOp::RmDims(RmDims::new(vec![0]));
    let t = Tensor::new(DatumType::I32, vec![1, 2], vec![5, 6]).unwrap();
    let input = InferenceFact::from_tensor(t.clone());
    let output = InferenceFact::new();
    let r = op.infer(vec![&input], vec![&output], vec![]).unwrap();
    let direct = RmDims::new(vec![0]).eval(vec![t]).unwrap();
    assert_eq!(r.1.len(), direct.len());
    assert!(r.1[0].same(&InferenceFact::from_tensor(direct[0].clone())));
    assert!(r.1[0].value.concretize().unwrap().same(&direct[0]));
    assert_eq!(direct[0].shape(), &vec![2]);
    assert_eq!(direct[0].data(), &vec![5, 6]);
}

#[test]
fn inference_reports_contradictions() {
    let mut op = AnyInferenceOp::RmDims(RmDims::new(vec![0]));
    // the removed axis has size 2
    let input = InferenceFact::dt_shape(DatumType::F32, &vec![2, 3]);
    let e = op.infer(vec![&input], vec![&InferenceFact::new()], vec![]).unwrap_err();
    assert_eq!(e.kind, ErrorKind::Unification);
    assert_eq!(e.context.last().unwrap(), "Infering facts");
    // the types differ
    let input = InferenceFact::dt_shape(DatumType::F32, &vec![1, 3]);
    let output = InferenceFact::dt_shape(DatumType::I32, &vec![3]);
    let e = op.infer(vec![&input], vec![&output], vec![]).unwrap_err();
    assert_eq!(e.kind, ErrorKind::Unification);
    // the ranks do not fit
    let output = InferenceFact::dt_shape(DatumType::F32, &vec![3, 1]);
    let e = op.infer(vec![&input], vec![&output], vec![]).unwrap_err();
    assert_eq!(e.kind, ErrorKind::Unification);
    // the shape that is left differs
    let output = InferenceFact::dt_shape(DatumType::F32, &vec![4]);
    let e = op.infer(vec![&input], vec![&output], vec![]).unwrap_err();
    assert_eq!(e.kind, ErrorKind::Unification);
    // no axis to remove
    let input = InferenceFact::dt_shape(DatumType::F32, &vec![]);
    let e = op.infer(vec![&input], vec![&InferenceFact::new()], vec![]).unwrap_err();
    assert_eq!(e.kind, ErrorKind::Unification);
    // two outputs
    let e = op
        .infer(vec![&input], vec![&InferenceFact::new(), &InferenceFact::new()], vec![])
        .unwrap_err();
    assert_eq!(e.kind, ErrorKind::InvariantViolation);
}

#[test]
fn eager_evaluation_errors_are_handed_on() {
    // the value is known and the axis has size one for the rules, but the data
    // cannot be taken for another shape: [1, 2] loses axis 1 of size 2
    let mut op = AnyInferenceOp::RmDims(RmDims::new(vec![1]));
    let t = Tensor::new(DatumType::I32, vec![1, 2], vec![5, 6]).unwrap();
    let input = InferenceFact::from_tensor(t);
    let e = op.infer(vec![&input], vec![&InferenceFact::new()], vec![]).unwrap_err();
    assert_eq!(e.kind, ErrorKind::Unification);
}

#[test]
fn a_source_infers_nothing_and_is_not_evaluated() {
    let mut op = AnyInferenceOp::Source(Source);
    let t = Tensor::new(DatumType::I32, vec![1], vec![5]).unwrap();
    let input = InferenceFact::from_tensor(t);
    let output = InferenceFact::new();
    let r = op.infer(vec![&input], vec![&output], vec![]).unwrap();
    assert!(r.0[0].same(&input));
    assert!(r.1[0].same(&output));
    assert_eq!(op.nboutputs().unwrap(), 1);
    assert!(!op.is_stateless());
    assert!(AnyInferenceOp::RmDims(RmDims::new(vec![])).is_stateless());
}

#[test]
fn lowering_removes_the_largest_axis_first() {
    let mut with_node: ModelImpl<InferenceFact, AnyInferenceOp> = ModelImpl::new();
    let a = with_node
        .add_source("a".to_string(), InferenceFact::dt_shape(DatumType::F32, &vec![1, 3, 1, 1]))
        .unwrap();
    with_node
        .wire("sq".to_string(), AnyInferenceOp::RmDims(RmDims::new(vec![2, 0, 3])), &vec![a], vec![InferenceFact::new()])
        .unwrap();
    let mut target = Typed::new();
    let ta = target.add_source("a".to_string(), fact(vec![1, 3, 1, 1])).unwrap();
    let mut mapping: OutletMap<OutletId> = OutletMap::new();
    mapping.insert(a, ta);
    let op = RmDims::new(vec![2, 0, 3]);
    let out = InferenceOp::<AnyInferenceOp, AnyTypedOp>::to_typed(
        &op,
        &with_node,
        with_node.node(1),
        &mut target,
        &mapping,
    )
    .unwrap();
    assert_eq!(out, vec![OutletId::new(3, 0)]);
    assert_eq!(target.nodes.len(), 4);
    assert_eq!(target.node(1).op, AnyTypedOp::RmDim(RmDim::new(3)));
    assert_eq!(target.node(2).op, AnyTypedOp::RmDim(RmDim::new(2)));
    assert_eq!(target.node(3).op, AnyTypedOp::RmDim(RmDim::new(0)));
    assert_eq!(target.node(1).name, "sq-axis-3");
    assert_eq!(target.node(2).name, "sq-axis-2");
    assert_eq!(target.node(3).name, "sq-axis-0");
    assert_eq!(target.node(1).inputs, vec![ta]);
    assert_eq!(target.node(2).inputs, vec![OutletId::new(1, 0)]);
    assert_eq!(target.node(3).inputs, vec![OutletId::new(2, 0)]);
    // each node of the chain holds the fact that the chain up to it computes
    assert_eq!(target.node(1).outputs[0].shape, vec![Dim::Val(1), Dim::Val(3), Dim::Val(1)]);
    assert_eq!(target.node(2).outputs[0].shape, vec![Dim::Val(1), Dim::Val(3)]);
    assert_eq!(target.node(3).outputs[0].shape, vec![Dim::Val(3)]);
    assert_eq!(target.node(2).outputs[0].datum_type, DatumType::F32);
    assert_eq!(target.outlet_fact(out[0]).unwrap().shape, vec![Dim::Val(3)]);
}

#[test]
fn lowering_needs_the_input_mapped() {
    let mut model: ModelImpl<InferenceFact, AnyInferenceOp> = ModelImpl::new();
    let a = model.add_source("a".to_string(), InferenceFact::new()).unwrap();
    model
        .wire("sq".to_string(), AnyInferenceOp::RmDims(RmDims::new(vec![0])), &vec![a], vec![InferenceFact::new()])
        .unwrap();
    let mut target = Typed::new();
    let mapping: OutletMap<OutletId> = OutletMap::new();
    let op = RmDims::new(vec![0]);
    let e = InferenceOp::<AnyInferenceOp, AnyTypedOp>::to_typed(
        &op,
        &model,
        model.node(1),
        &mut target,
        &mapping,
    )
    .unwrap_err();
    assert_eq!(e.kind, ErrorKind::InvariantViolation);
    assert_eq!(target.nodes.len(), 0);
}

#[test]
fn rm_dim_evaluates_and_computes_facts() {
    let op = RmDim::new(1);
    let t = Tensor::new(DatumType::U8, vec![2, 1, 2], vec![1, 2, 3, 4]).unwrap();
    let out = op.eval(vec![t.clone()]).unwrap();
    assert_eq!(out[0].shape(), &vec![2, 2]);
    assert_eq!(out[0].data(), &vec![1, 2, 3, 4]);
    assert_eq!(RmDim::new(0).eval(vec![t]).unwrap_err().kind, ErrorKind::Evaluation);
    assert_eq!(op.eval(vec![]).unwrap_err().kind, ErrorKind::Evaluation);
    let f = TypedFact::dt_shape(DatumType::I64, vec![Dim::Stream, Dim::Val(1), Dim::Val(4)]).unwrap();
    let facts = TypedOp::<AnyTypedOp>::output_facts(&op, &vec![&f]).unwrap();
    assert_eq!(facts.len(), 1);
    assert_eq!(facts[0].datum_type, DatumType::I64);
    assert_eq!(facts[0].shape, vec![Dim::Stream, Dim::Val(4)]);
    assert!(facts[0].konst.is_none());
    let e = TypedOp::<AnyTypedOp>::output_facts(&RmDim::new(3), &vec![&f]).unwrap_err();
    assert_eq!(e.kind, ErrorKind::InvariantViolation);
    let e = TypedOp::<AnyTypedOp>::output_facts(&op, &vec![]).unwrap_err();
    assert_eq!(e.kind, ErrorKind::InvariantViolation);
}

#[test]
fn rm_dim_lets_every_other_axis_through() {
    let mut model = Typed::new();
    let a = model.add_source("a".to_string(), fact(vec![2, 3, 1, 5])).unwrap();
    model.wire_node("rm".to_string(), AnyTypedOp::RmDim(RmDim::new(2)), &vec![a]).unwrap();
    let inv = model.node(1).op.invariants(&model, model.node(1)).unwrap();
    // every axis but the removed one goes through; those behind it move down
    assert_eq!(inv.axes.len(), 3);
    let expected = [(0, 0), (1, 1), (3, 2)];
    for (axis, (from, to)) in inv.axes.iter().zip(expected.iter()) {
        assert_eq!(axis.inputs, vec![Some(*from)]);
        assert_eq!(axis.outputs, vec![Some(*to)]);
        assert_eq!(axis.period, 1);
        assert!(axis.disposable);
    }
    assert_eq!(inv.track_input_axis(0, 2), None);
    assert_eq!(inv.track_input_axis(0, 3), Some(2));
    // the first axis removed: all the others move down
    let mut first = Typed::new();
    let b = first.add_source("b".to_string(), fact(vec![1, 7, 9])).unwrap();
    first.wire_node("rm".to_string(), AnyTypedOp::RmDim(RmDim::new(0)), &vec![b]).unwrap();
    let inv = first.node(1).op.invariants(&first, first.node(1)).unwrap();
    assert_eq!(inv.axes.len(), 2);
    assert_eq!(inv.axes[0].inputs, vec![Some(1)]);
    assert_eq!(inv.axes[0].outputs, vec![Some(0)]);
    assert_eq!(inv.axes[1].inputs, vec![Some(2)]);
    assert_eq!(inv.axes[1].outputs, vec![Some(1)]);
    // an operator that reads nothing has no invariants to give
    let lone = RmDim::new(0);
    let e = TypedOp::<AnyTypedOp>::invariants(&lone, &model, model.node(0)).unwrap_err();
    assert_eq!(e.kind, ErrorKind::InvariantViolation);
}

#[test]
fn add_dim_lets_every_axis_through() {
    let mut model = Typed::new();
    let a = model.add_source("a".to_string(), fact(vec![2, 3])).unwrap();
    let out = model.wire_node("add".to_string(), AnyTypedOp::AddDim(AddDim::new(1)), &vec![a]).unwrap();
    assert_eq!(model.outlet_fact(out[0]).unwrap().shape, vec![Dim::Val(2), Dim::Val(1), Dim::Val(3)]);
    let inv = model.node(1).op.invariants(&model, model.node(1)).unwrap();
    assert_eq!(inv.axes.len(), 2);
    assert_eq!(inv.axes[0].inputs, vec![Some(0)]);
    assert_eq!(inv.axes[0].outputs, vec![Some(0)]);
    assert_eq!(inv.axes[1].inputs, vec![Some(1)]);
    assert_eq!(inv.axes[1].outputs, vec![Some(2)]);
    let t = Tensor::new(DatumType::U8, vec![2], vec![1, 2]).unwrap();
    assert_eq!(AddDim::new(1).eval(vec![t.clone()]).unwrap()[0].shape(), &vec![2, 1]);
    assert_eq!(AddDim::new(3).eval(vec![t]).unwrap_err().kind, ErrorKind::Evaluation);
    let e = model.wire_node("bad".to_string(), AnyTypedOp::AddDim(AddDim::new(4)), &vec![a]).unwrap_err();
    assert_eq!(e.kind, ErrorKind::InvariantViolation);
}

#[test]
fn dropping_an_axis_shifts_the_operators_behind_it() {
    let mut model = Typed::new();
    let a = model.add_source("a".to_string(), fact(vec![1, 1, 1, 1])).unwrap();
    model.wire_node("rm".to_string(), AnyTypedOp::RmDim(RmDim::new(2)), &vec![a]).unwrap();
    let node = model.node(1);
    let rm = RmDim::new(2);
    let shifted: Option<AnyTypedOp> = rm.dispose_dummy_axis(&model, node, &vec![Some(0)]).unwrap();
    assert_eq!(shifted, Some(AnyTypedOp::RmDim(RmDim::new(1))));
    let same: Option<AnyTypedOp> = rm.dispose_dummy_axis(&model, node, &vec![Some(2)]).unwrap();
    assert_eq!(same, Some(AnyTypedOp::RmDim(RmDim::new(2))));
    let same: Option<AnyTypedOp> = rm.dispose_dummy_axis(&model, node, &vec![Some(3)]).unwrap();
    assert_eq!(same, Some(AnyTypedOp::RmDim(RmDim::new(2))));
    let e = TypedOp::<AnyTypedOp>::dispose_dummy_axis(&rm, &model, node, &vec![]).unwrap_err();
    assert_eq!(e.kind, ErrorKind::InvariantViolation);
    let e = TypedOp::<AnyTypedOp>::dispose_dummy_axis(&rm, &model, node, &vec![None]).unwrap_err();
    assert_eq!(e.kind, ErrorKind::InvariantViolation);
    let add: Option<AnyTypedOp> = AddDim::new(2).dispose_dummy_axis(&model, node, &vec![Some(1)]).unwrap();
    assert_eq!(add, Some(AnyTypedOp::AddDim(AddDim::new(1))));
    let none: Option<AnyTypedOp> = Source.dispose_dummy_axis(&model, node, &vec![Some(1)]).unwrap();
    assert_eq!(none, None);
}

fn pulsed(shape: Vec<usize>, axis: usize) -> PulsedFact {
    PulsedFact { datum_type: DatumType::F32, shape, axis, dim: Dim::Stream, delay: 3 }
}

#[test]
fn pulsed_facts_lose_the_axis() {
    let f = pulsed(vec![1, 8, 4], 1);
    let out = RmDim::new(0).pulsed_output_facts(&vec![&f]).unwrap();
    assert_eq!(out.len(), 1);
    assert_eq!(out[0].shape, vec![8, 4]);
    assert_eq!(out[0].axis, 0);
    assert_eq!(out[0].delay, 3);
    assert_eq!(out[0].dim, Dim::Stream);
    assert_eq!(out[0].datum_type, DatumType::F32);
    assert_eq!(out[0].pulse(), Some(8));
    let f = pulsed(vec![8, 4, 1], 0);
    let out = RmDim::new(2).pulsed_output_facts(&vec![&f]).unwrap();
    assert_eq!(out[0].shape, vec![8, 4]);
    assert_eq!(out[0].axis, 0);
    // an axis behind the streaming one leaves the streaming one in place
    let f = pulsed(vec![4, 8, 1], 1);
    let out = RmDim::new(2).pulsed_output_facts(&vec![&f]).unwrap();
    assert_eq!(out[0].shape, vec![4, 8]);
    assert_eq!(out[0].axis, 1);
    // the streaming axis itself cannot be removed
    assert_eq!(RmDim::new(1).pulsed_output_facts(&vec![&f]).unwrap_err().kind, ErrorKind::InvariantViolation);
    let f = pulsed(vec![8, 4, 1], 0);
    // no such axis, no input, and the streaming axis again
    assert_eq!(RmDim::new(3).pulsed_output_facts(&vec![&f]).unwrap_err().kind, ErrorKind::InvariantViolation);
    assert_eq!(RmDim::new(0).pulsed_output_facts(&vec![]).unwrap_err().kind, ErrorKind::InvariantViolation);
    assert_eq!(RmDim::new(0).pulsed_output_facts(&vec![&f]).unwrap_err().kind, ErrorKind::InvariantViolation);
    assert_eq!(
        AnyPulsedOp::Source(Source).pulsed_output_facts(&vec![&f]).unwrap_err().kind,
        ErrorKind::InvariantViolation
    );
}

#[test]
fn pulsify_wires_the_same_operator() {
    let mut source = Typed::new();
    let a = source.add_source("a".to_string(), fact(vec![1, 8])).unwrap();
    source.wire_node("rm".to_string(), AnyTypedOp::RmDim(RmDim::new(0)), &vec![a]).unwrap();
    let mut target: ModelImpl<PulsedFact, AnyPulsedOp> = ModelImpl::new();
    let pa = target.add_source("a".to_string(), pulsed(vec![1, 4], 1)).unwrap();
    let mut mapping: OutletMap<OutletId> = OutletMap::new();
    let op = RmDim::new(0);
    let e = PulsifyOp::<AnyTypedOp, AnyPulsedOp>::pulsify(&op, &source, source.node(1), &mut target, &mapping, 4)
        .unwrap_err();
    assert_eq!(e.kind, ErrorKind::InvariantViolation);
    mapping.insert(a, pa);
    let out =
        PulsifyOp::<AnyTypedOp, AnyPulsedOp>::pulsify(&op, &source, source.node(1), &mut target, &mapping, 4)
            .unwrap();
    assert_eq!(out, vec![OutletId::new(1, 0)]);
    assert_eq!(target.node(1).name, "rm");
    assert_eq!(target.node(1).op, AnyPulsedOp::RmDim(RmDim::new(0)));
    assert_eq!(target.node(1).inputs, vec![pa]);
    assert_eq!(target.node(1).outputs[0].shape, vec![4]);
    assert_eq!(target.node(1).outputs[0].axis, 0);
}

#[test]
fn hooks_that_an_operator_need_not_fill() {
    let mut model: ModelImpl<InferenceFact, AnyInferenceOp> = ModelImpl::new();
    let a = model.add_source("a".to_string(), InferenceFact::new()).unwrap();
    model
        .wire("sq".to_string(), AnyInferenceOp::RmDims(RmDims::new(vec![0])), &vec![a], vec![InferenceFact::new()])
        .unwrap();
    let node = model.node(1);
    assert!(node.op.observe_outlets(&model, node).unwrap().is_empty());
    assert!(node.op.incorporate(&model, node).unwrap().is_none());
    assert_eq!(node.op.nboutputs().unwrap(), 1);
}

#[test]
fn lowering_fails_where_a_node_of_the_chain_rejects_its_input() {
    let mut model: ModelImpl<InferenceFact, AnyInferenceOp> = ModelImpl::new();
    let a = model
        .add_source("a".to_string(), InferenceFact::dt_shape(DatumType::F32, &vec![1, 3]))
        .unwrap();
    model
        .wire("sq".to_string(), AnyInferenceOp::RmDims(RmDims::new(vec![0, 5])), &vec![a], vec![InferenceFact::new()])
        .unwrap();
    let mut target = Typed::new();
    let ta = target.add_source("a".to_string(), fact(vec![1, 3])).unwrap();
    let mut mapping: OutletMap<OutletId> = OutletMap::new();
    mapping.insert(a, ta);
    let e = model.node(1).op.to_typed(&model, model.node(1), &mut target, &mapping).unwrap_err();
    assert_eq!(e.kind, ErrorKind::InvariantViolation);
    // without axes there is no chain, and the input stands for the output
    let none = RmDims::new(vec![]);
    let out = none.lower(&model, model.node(1), &mut target, &mapping).unwrap();
    assert_eq!(out, vec![ta]);
    assert_eq!(target.nodes.len(), 1);
}

#[test]
fn pulsify_fails_where_the_operator_rejects_the_fact() {
    let mut source = Typed::new();
    let a = source.add_source("a".to_string(), fact(vec![1, 8])).unwrap();
    source.wire_node("rm".to_string(), AnyTypedOp::RmDim(RmDim::new(0)), &vec![a]).unwrap();
    let mut target: ModelImpl<PulsedFact, AnyPulsedOp> = ModelImpl::new();
    let pa = target.add_source("a".to_string(), pulsed(vec![1, 4], 1)).unwrap();
    let mut mapping: OutletMap<OutletId> = OutletMap::new();
    mapping.insert(a, pa);
    let op = RmDim::new(5);
    let e = PulsifyOp::<AnyTypedOp, AnyPulsedOp>::pulsify(&op, &source, source.node(1), &mut target, &mapping, 4)
        .unwrap_err();
    assert_eq!(e.kind, ErrorKind::InvariantViolation);
    assert_eq!(target.nodes.len(), 1);
}
