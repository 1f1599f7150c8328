use tract_core::add_dims::AddDim;
use tract_core::any_op::AnyTypedOp;
use tract_core::datum::{DatumType, Dim};
use tract_core::error::ErrorKind;
use tract_core::fact::TypedFact;
use tract_core::model::ModelImpl;
use tract_core::ops::{AxisInfo, Invariants};
use tract_core::outlet::{InletId, OutletId};
use tract_core::rm_dims::RmDim;
use tract_core::tracking::{has_point, AxisTracking};

type Model = ModelImpl<TypedFact, AnyTypedOp>;

fn fact(shape: Vec<usize>) -> TypedFact {
    TypedFact::dt_shape(DatumType::F32, shape.into_iter().map(Dim::Val).collect()).unwrap()
}

fn sorted<T: Ord + Clone>(v: &Vec<T>) -> Vec<T> {
    let mut v = v.clone();
    v.sort();
    v
}

fn points(v: &Vec<(OutletId, usize)>) -> Vec<(usize, usize, usize)> {
    sorted(&v.iter().map(|p| (p.0.node, p.0.slot, p.1)).collect())
}

fn inlets(v: &Vec<(InletId, usize)>) -> Vec<(usize, usize, usize)> {
    sorted(&v.iter().map(|p| (p.0.node, p.0.slot, p.1)).collect())
}

/// a[3] -> add(0) -> [1,3] -> add(2) -> [1,3,1] -> rm(0) -> [3,1]
fn chain() -> Model {
    let mut model = Model::new();
    let a = model.add_source("a".to_string(), fact(vec![3])).unwrap();
    let n1 = model.wire_node("add0".to_string(), AnyTypedOp::AddDim(AddDim::new(0)), &vec![a]).unwrap()[0];
    let n2 = model.wire_node("add2".to_string(), AnyTypedOp::AddDim(AddDim::new(2)), &vec![n1]).unwrap()[0];
    let n3 = model.wire_node("rm0".to_string(), AnyTypedOp::RmDim(RmDim::new(0)), &vec![n2]).unwrap()[0];
    model.set_output_outlets(vec![n3]).unwrap();
    model
}

#[test]
fn an_axis_is_followed_through_the_chain() {
    let model = chain();
    let t = AxisTracking::for_outlet_and_axis(&model, OutletId::new(2, 0), 0).unwrap();
    assert_eq!(points(&t.outlets), vec![(1, 0, 0), (2, 0, 0)]);
    assert_eq!(points(&t.creators), vec![(1, 0, 0)]);
    assert_eq!(inlets(&t.destructors), vec![(3, 0, 0)]);
    assert!(t.disposable);
    assert_eq!(t.axis_of(OutletId::new(1, 0)), Some(0));
    assert_eq!(t.axis_of(OutletId::new(0, 0)), None);
    assert!(has_point(&t.outlets, (OutletId::new(2, 0), 0)));
    assert!(!has_point(&t.outlets, (OutletId::new(2, 0), 1)));
}

#[test]
fn the_same_axis_is_found_from_either_end() {
    let model = chain();
    let t = AxisTracking::for_outlet_and_axis(&model, OutletId::new(1, 0), 0).unwrap();
    assert_eq!(points(&t.outlets), vec![(1, 0, 0), (2, 0, 0)]);
    assert_eq!(points(&t.creators), vec![(1, 0, 0)]);
    assert_eq!(inlets(&t.destructors), vec![(3, 0, 0)]);
}

#[test]
fn an_axis_that_goes_on_moves_with_the_operators() {
    let model = chain();
    // the axis of size 3: axis 0 of a, 1 after add(0), 1 after add(2), and 0
    // again after rm(0), which moves the axes behind its own one down
    let t = AxisTracking::for_outlet_and_axis(&model, OutletId::new(0, 0), 0).unwrap();
    assert_eq!(points(&t.outlets), vec![(0, 0, 0), (1, 0, 1), (2, 0, 1), (3, 0, 0)]);
    assert_eq!(points(&t.creators), vec![(0, 0, 0)]);
    assert_eq!(inlets(&t.destructors), vec![]);
}

#[test]
fn tracking_needs_the_outlet() {
    let model = chain();
    let e = AxisTracking::for_outlet_and_axis(&model, OutletId::new(9, 0), 0).unwrap_err();
    assert_eq!(e.kind, ErrorKind::InvariantViolation);
}

#[test]
fn invariants_are_searched_in_order() {
    let inv = Invariants {
        axes: vec![
            AxisInfo { inputs: vec![Some(0), None], outputs: vec![Some(1)], period: 1, disposable: true },
            AxisInfo { inputs: vec![Some(1), Some(0)], outputs: vec![Some(0)], period: 1, disposable: false },
        ],
    };
    assert_eq!(inv.track_input_axis(0, 0), Some(0));
    assert_eq!(inv.track_input_axis(0, 1), Some(1));
    assert_eq!(inv.track_input_axis(1, 0), Some(1));
    assert_eq!(inv.track_input_axis(1, 1), None);
    assert_eq!(inv.track_input_axis(2, 0), None);
    assert_eq!(inv.track_output_axis(0, 1), Some(0));
    assert_eq!(inv.track_output_axis(0, 0), Some(1));
    assert_eq!(inv.track_output_axis(0, 2), None);
    assert!(inv.axes[1].on_input(1, 0));
    assert!(!inv.axes[0].on_input(1, 0));
    assert!(inv.axes[0].on_output(0, 1));
    assert!(Invariants::none().axes.is_empty());
}
