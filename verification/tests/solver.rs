use tract_core::datum::{DatumType, Dim};
use tract_core::error::{ErrorKind, TractResult};
use tract_core::fact::{DimFact, InferenceFact, ShapeFact, TypeFact, TypedFact, ValueFact};
use tract_core::infer::{concrete_values, eager_outcome, infer_facts_by_rules, Inferred};
use tract_core::solver::{
    copy_facts, input_proxies, output_proxies, propagate, same_facts, Facts, InferenceRulesOp, Rule,
    Solver, TensorProxy,
};
use tract_core::tensor::Tensor;
use tract_core::error::TractError;

fn any() -> InferenceFact {
    InferenceFact::new()
}

fn shaped(dims: Vec<DimFact>) -> InferenceFact {
    InferenceFact { datum_type: TypeFact::Any, shape: ShapeFact::Only(dims), value: ValueFact::Any }
}

fn typed(dt: DatumType) -> InferenceFact {
    InferenceFact { datum_type: TypeFact::Only(dt), shape: ShapeFact::Any, value: ValueFact::Any }
}

fn shape_of(f: &InferenceFact) -> Option<Vec<DimFact>> {
    match &f.shape {
        ShapeFact::Any => None,
        ShapeFact::Only(d) => Some(d.clone()),
    }
}

fn run(rules: Vec<Rule>, inputs: Vec<InferenceFact>, outputs: Vec<InferenceFact>) -> TractResult<Facts> {
    // the rules here defer nothing, so any operator will do for the deferred ones
    propagate(&tract_core::rm_dims::RmDims::new(vec![]), &rules, Facts { inputs, outputs })
}

const IN: TensorProxy = TensorProxy::Input(0);
const OUT: TensorProxy = TensorProxy::Output(0);

#[test]
fn equal_types_flow_both_ways() {
    let r = run(vec![Rule::EqualType(OUT, IN)], vec![typed(DatumType::U8)], vec![any()]).unwrap();
    assert_eq!(r.outputs[0].datum_type, TypeFact::Only(DatumType::U8));
    let r = run(vec![Rule::EqualType(OUT, IN)], vec![any()], vec![typed(DatumType::I16)]).unwrap();
    assert_eq!(r.inputs[0].datum_type, TypeFact::Only(DatumType::I16));
    let r = run(vec![Rule::EqualType(OUT, IN)], vec![any()], vec![any()]).unwrap();
    assert_eq!(r.inputs[0].datum_type, TypeFact::Any);
    let e = run(vec![Rule::EqualType(OUT, IN)], vec![typed(DatumType::U8)], vec![typed(DatumType::I8)])
        .unwrap_err();
    assert_eq!(e.kind, ErrorKind::Unification);
    let e = run(vec![Rule::EqualType(OUT, TensorProxy::Input(1))], vec![any()], vec![any()]).unwrap_err();
    assert_eq!(e.kind, ErrorKind::InvariantViolation);
}

#[test]
fn ranks_follow_each_other() {
    let rule = || vec![Rule::RankMinus { of: OUT, base: IN, minus: 2 }];
    let r = run(rule(), vec![shaped(vec![DimFact::Any; 5])], vec![any()]).unwrap();
    assert_eq!(shape_of(&r.outputs[0]), Some(vec![DimFact::Any; 3]));
    let r = run(rule(), vec![any()], vec![shaped(vec![DimFact::Only(Dim::Val(4))])]).unwrap();
    assert_eq!(shape_of(&r.inputs[0]), Some(vec![DimFact::Any; 3]));
    let r = run(rule(), vec![any()], vec![any()]).unwrap();
    assert_eq!(shape_of(&r.inputs[0]), None);
    assert_eq!(shape_of(&r.outputs[0]), None);
    let r = run(rule(), vec![shaped(vec![DimFact::Any; 2])], vec![shaped(vec![])]).unwrap();
    assert_eq!(shape_of(&r.outputs[0]), Some(vec![]));
    let e = run(rule(), vec![shaped(vec![DimFact::Any; 1])], vec![any()]).unwrap_err();
    assert_eq!(e.kind, ErrorKind::Unification);
    let e = run(rule(), vec![shaped(vec![DimFact::Any; 3])], vec![shaped(vec![DimFact::Any; 2])])
        .unwrap_err();
    assert_eq!(e.kind, ErrorKind::Unification);
    let e = run(
        vec![Rule::RankMinus { of: OUT, base: IN, minus: usize::MAX }],
        vec![any()],
        vec![shaped(vec![DimFact::Any; 1])],
    )
    .unwrap_err();
    assert_eq!(e.kind, ErrorKind::Unification);
    let e = run(rule(), vec![], vec![any()]).unwrap_err();
    assert_eq!(e.kind, ErrorKind::InvariantViolation);
}

#[test]
fn a_dimension_waits_for_the_rank() {
    let rule = || vec![Rule::EqualDim { tensor: IN, axis: 1, dim: Dim::Val(7) }];
    let r = run(rule(), vec![any()], vec![]).unwrap();
    assert_eq!(shape_of(&r.inputs[0]), None);
    let r = run(rule(), vec![shaped(vec![DimFact::Any; 2])], vec![]).unwrap();
    assert_eq!(shape_of(&r.inputs[0]), Some(vec![DimFact::Any, DimFact::Only(Dim::Val(7))]));
    let e = run(rule(), vec![shaped(vec![DimFact::Any; 1])], vec![]).unwrap_err();
    assert_eq!(e.kind, ErrorKind::Unification);
    let e = run(rule(), vec![shaped(vec![DimFact::Any, DimFact::Only(Dim::Stream)])], vec![]).unwrap_err();
    assert_eq!(e.kind, ErrorKind::Unification);
    let e = run(rule(), vec![], vec![]).unwrap_err();
    assert_eq!(e.kind, ErrorKind::InvariantViolation);
    // a rule further down the list gives the rank, and the next pass the dimension
    let r = run(
        vec![
            Rule::EqualDim { tensor: OUT, axis: 0, dim: Dim::Val(9) },
            Rule::RankMinus { of: OUT, base: IN, minus: 1 },
        ],
        vec![shaped(vec![DimFact::Any; 2])],
        vec![any()],
    )
    .unwrap();
    assert_eq!(shape_of(&r.outputs[0]), Some(vec![DimFact::Only(Dim::Val(9))]));
}

#[test]
fn a_shape_is_merged_in() {
    let rule = || vec![Rule::EqualShape { tensor: OUT, dims: vec![Dim::Val(2), Dim::Stream] }];
    let r = run(rule(), vec![], vec![any()]).unwrap();
    assert_eq!(
        shape_of(&r.outputs[0]),
        Some(vec![DimFact::Only(Dim::Val(2)), DimFact::Only(Dim::Stream)])
    );
    let r = run(rule(), vec![], vec![shaped(vec![DimFact::Any, DimFact::Only(Dim::Stream)])]).unwrap();
    assert_eq!(
        shape_of(&r.outputs[0]),
        Some(vec![DimFact::Only(Dim::Val(2)), DimFact::Only(Dim::Stream)])
    );
    let e = run(rule(), vec![], vec![shaped(vec![DimFact::Any])]).unwrap_err();
    assert_eq!(e.kind, ErrorKind::Unification);
    let e = run(rule(), vec![], vec![shaped(vec![DimFact::Only(Dim::Val(3)), DimFact::Any])]).unwrap_err();
    assert_eq!(e.kind, ErrorKind::Unification);
    let e = run(rule(), vec![], vec![]).unwrap_err();
    assert_eq!(e.kind, ErrorKind::InvariantViolation);
}

#[test]
fn a_deferred_rule_waits_for_the_whole_shape() {
    let op = tract_core::rm_dims::RmDims::new(vec![0]);
    let rules = vec![Rule::Given { tensor: IN, key: 0 }];
    let start = Facts { inputs: vec![shaped(vec![DimFact::Only(Dim::Val(1)), DimFact::Any])], outputs: vec![any()] };
    let r = propagate(&op, &rules, start).unwrap();
    assert_eq!(shape_of(&r.outputs[0]), None);
    let start = Facts {
        inputs: vec![shaped(vec![DimFact::Only(Dim::Val(1)), DimFact::Only(Dim::Val(6))])],
        outputs: vec![any()],
    };
    let r = propagate(&op, &rules, start).unwrap();
    assert_eq!(shape_of(&r.outputs[0]), Some(vec![DimFact::Only(Dim::Val(6))]));
    let start = Facts { inputs: vec![], outputs: vec![any()] };
    assert_eq!(propagate(&op, &rules, start).unwrap_err().kind, ErrorKind::InvariantViolation);
}

#[test]
fn facts_are_copied_and_compared() {
    let a = vec![typed(DatumType::U8), shaped(vec![DimFact::Any])];
    let b = copy_facts(&a);
    assert!(same_facts(&a, &b));
    assert!(!same_facts(&a, &vec![typed(DatumType::U8)]));
    assert!(!same_facts(&a, &vec![typed(DatumType::U8), shaped(vec![DimFact::Only(Dim::Val(1))])]));
    let f = Facts { inputs: a, outputs: vec![] };
    assert!(f.same(&f.clone()));
    assert!(f.at(TensorProxy::Input(1)).unwrap().same(&shaped(vec![DimFact::Any])));
    assert!(f.at(TensorProxy::Input(2)).is_none());
    assert!(f.at(TensorProxy::Output(0)).is_none());
    assert_eq!(input_proxies(2), vec![TensorProxy::Input(0), TensorProxy::Input(1)]);
    assert_eq!(output_proxies(1), vec![TensorProxy::Output(0)]);
}

#[test]
fn inference_by_rules_hands_the_observed_facts_through() {
    let op = tract_core::rm_dims::RmDims::new(vec![0]);
    let input = InferenceFact::dt_shape(DatumType::F32, &vec![1, 3]);
    let output = any();
    let seen = typed(DatumType::I64);
    let r = infer_facts_by_rules(&op, &vec![&input], &vec![&output], &vec![&seen]).unwrap();
    assert_eq!(shape_of(&r.1[0]), Some(vec![DimFact::Only(Dim::Val(3))]));
    assert!(r.2[0].same(&seen));
}

fn inferred() -> Inferred {
    (vec![typed(DatumType::U8)], vec![any()], vec![])
}

#[test]
fn eager_outcome_by_the_result_of_the_evaluation() {
    let t = Tensor::new(DatumType::U8, vec![2], vec![1, 2]).unwrap();
    let r = eager_outcome(inferred(), Ok(vec![t.clone()])).unwrap();
    assert!(r.1[0].same(&InferenceFact::from_tensor(t)));
    assert!(r.0[0].same(&typed(DatumType::U8)));
    // a streaming dimension is passed over
    let r = eager_outcome(inferred(), Err(TractError::new(ErrorKind::StreamTensor, "stream"))).unwrap();
    assert!(r.1[0].same(&any()));
    // another error is handed on in its context
    let e = eager_outcome(inferred(), Err(TractError::new(ErrorKind::Evaluation, "bad"))).unwrap_err();
    assert_eq!(e.kind, ErrorKind::Evaluation);
    assert_eq!(e.context, vec!["bad".to_string(), "Eager eval".to_string()]);
}

#[test]
fn values_are_taken_where_all_are_known() {
    let t = Tensor::new(DatumType::U8, vec![2], vec![1, 2]).unwrap();
    let known = InferenceFact::from_tensor(t.clone());
    let values = concrete_values(&vec![known.clone(), known.clone()]).unwrap();
    assert_eq!(values.len(), 2);
    assert!(values[1].same(&t));
    assert!(concrete_values(&vec![known, any()]).is_none());
    assert_eq!(concrete_values(&vec![]).unwrap().len(), 0);
}

#[test]
fn resolved_facts_from_inferred_ones() {
    let f = InferenceFact::dt_shape(DatumType::F64, &vec![2, 3]);
    let t = TypedFact::from_inference(&f).unwrap();
    assert_eq!(t.datum_type, DatumType::F64);
    assert_eq!(t.shape, vec![Dim::Val(2), Dim::Val(3)]);
    assert_eq!(t.rank(), 2);
    assert!(t.konst.is_none());
    assert_eq!(TypedFact::from_inference(&any()).unwrap_err().kind, ErrorKind::LoweringUnsupported);
    assert_eq!(
        TypedFact::from_inference(&typed(DatumType::U8)).unwrap_err().kind,
        ErrorKind::LoweringUnsupported
    );
    let two_streams = InferenceFact {
        datum_type: TypeFact::Only(DatumType::U8),
        shape: ShapeFact::Only(vec![DimFact::Only(Dim::Stream), DimFact::Only(Dim::Stream)]),
        value: ValueFact::Any,
    };
    assert_eq!(TypedFact::from_inference(&two_streams).unwrap_err().kind, ErrorKind::LoweringUnsupported);
    assert_eq!(
        TypedFact::dt_shape(DatumType::U8, vec![Dim::Stream, Dim::Stream]).unwrap_err().kind,
        ErrorKind::InvariantViolation
    );
    let value = Tensor::new(DatumType::U8, vec![1], vec![4]).unwrap();
    let k = TypedFact::from_inference(&InferenceFact::from_tensor(value.clone())).unwrap();
    assert!(k.konst.unwrap().same(&value));
}
