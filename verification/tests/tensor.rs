use tract_core::datum::DatumType;
use tract_core::error::{ErrorKind, TractError};
use tract_core::tensor::{shape_volume, Tensor};

#[test]
fn volume_of_shapes() {
    assert_eq!(shape_volume(&vec![]), Some(1));
    assert_eq!(shape_volume(&vec![1, 3, 224, 224]), Some(150528));
    assert_eq!(shape_volume(&vec![4, 0, 7]), Some(0));
    assert_eq!(shape_volume(&vec![usize::MAX, 2]), None);
    assert_eq!(shape_volume(&vec![usize::MAX, 2, 0]), Some(0));
}

#[test]
fn tensor_needs_one_word_per_element() {
    let t = Tensor::new(DatumType::I32, vec![2, 3], vec![1, 2, 3, 4, 5, 6]).unwrap();
    assert_eq!(t.datum_type(), DatumType::I32);
    assert_eq!(t.shape(), &vec![2, 3]);
    assert_eq!(t.data(), &vec![1, 2, 3, 4, 5, 6]);
    assert_eq!(t.rank(), 2);
    let e = Tensor::new(DatumType::I32, vec![2, 3], vec![1, 2, 3]).unwrap_err();
    assert_eq!(e.kind, ErrorKind::Evaluation);
}

#[test]
fn tensor_equality_looks_at_type_shape_and_data() {
    let a = Tensor::new(DatumType::U8, vec![2], vec![1, 2]).unwrap();
    let b = Tensor::new(DatumType::U8, vec![2], vec![1, 2]).unwrap();
    let c = Tensor::new(DatumType::I8, vec![2], vec![1, 2]).unwrap();
    let d = Tensor::new(DatumType::U8, vec![1, 2], vec![1, 2]).unwrap();
    let e = Tensor::new(DatumType::U8, vec![2], vec![1, 3]).unwrap();
    assert!(a.same(&b));
    assert!(a.same(&a.clone()));
    assert!(!a.same(&c));
    assert!(!a.same(&d));
    assert!(!a.same(&e));
}

#[test]
fn reshape_keeps_the_elements() {
    let t = Tensor::new(DatumType::I64, vec![2, 3], vec![1, 2, 3, 4, 5, 6]).unwrap();
    let r = t.clone().into_shape(&vec![3, 2]).unwrap();
    assert_eq!(r.shape(), &vec![3, 2]);
    assert_eq!(r.data(), &vec![1, 2, 3, 4, 5, 6]);
    let e = t.into_shape(&vec![4, 2]).unwrap_err();
    assert_eq!(e.kind, ErrorKind::Evaluation);
}

#[test]
fn remove_axis_wants_an_axis_of_size_one() {
    let t = Tensor::new(DatumType::I64, vec![1, 3], vec![7, 8, 9]).unwrap();
    let r = t.clone().remove_axis(0).unwrap();
    assert_eq!(r.shape(), &vec![3]);
    assert_eq!(r.data(), &vec![7, 8, 9]);
    assert_eq!(t.clone().remove_axis(1).unwrap_err().kind, ErrorKind::Evaluation);
    assert_eq!(t.remove_axis(2).unwrap_err().kind, ErrorKind::Evaluation);
}

#[test]
fn insert_axis_up_to_the_rank() {
    let t = Tensor::new(DatumType::I64, vec![3], vec![7, 8, 9]).unwrap();
    assert_eq!(t.clone().insert_axis(0).unwrap().shape(), &vec![1, 3]);
    assert_eq!(t.clone().insert_axis(1).unwrap().shape(), &vec![3, 1]);
    assert_eq!(t.insert_axis(2).unwrap_err().kind, ErrorKind::Evaluation);
}

#[test]
fn errors_keep_their_kind_and_collect_contexts() {
    let e = TractError::new(ErrorKind::Unification, "unification error on axis 2");
    assert_eq!(e.kind(), ErrorKind::Unification);
    let e = e.chain_err("inferring facts".to_string()).chain_err("translating node X".to_string());
    assert_eq!(e.kind, ErrorKind::Unification);
    assert_eq!(
        e.context,
        vec![
            "unification error on axis 2".to_string(),
            "inferring facts".to_string(),
            "translating node X".to_string()
        ]
    );
}

#[test]
fn an_error_reads_as_a_chain_of_causes() {
    let e = TractError::new(ErrorKind::Unification, "unification error on axis 2")
        .chain_err("Infering facts".to_string())
        .chain_err("Translating #3 \"x\"".to_string());
    assert_eq!(
        e.message(),
        "Translating #3 \"x\" \u{2192} Infering facts \u{2192} unification error on axis 2 \u{2192} unification error"
    );
    assert_eq!(TractError { kind: ErrorKind::StreamTensor, context: vec![] }.message(), "streaming dimension");
    assert_eq!(ErrorKind::LoweringUnsupported.text(), "lowering unsupported");
    assert_eq!(ErrorKind::PatchApplication.text(), "patch application failure");
    assert_eq!(ErrorKind::Evaluation.text(), "evaluation error");
    assert_eq!(ErrorKind::InvariantViolation.text(), "invariant violation");
}
