use tract_core::add_dims::AddDim;
use tract_core::any_op::AnyTypedOp;
use tract_core::datum::{DatumType, Dim};
use tract_core::error::ErrorKind;
use tract_core::fact::TypedFact;
use tract_core::model::ModelImpl;
use tract_core::outlet::OutletId;
use tract_core::patch::{ModelPatch, Wire};
use tract_core::rm_dims::RmDim;

type Model = ModelImpl<TypedFact, AnyTypedOp>;
type Patch = ModelPatch<TypedFact, AnyTypedOp>;

fn fact(shape: Vec<usize>) -> TypedFact {
    TypedFact::dt_shape(DatumType::F32, shape.into_iter().map(Dim::Val).collect()).unwrap()
}

/// a[1,3] -> rm(0) -> add(0) -> output
fn chain() -> (Model, OutletId, OutletId, OutletId) {
    let mut model = Model::new();
    let a = model.add_source("a".to_string(), fact(vec![1, 3])).unwrap();
    let rm = model.wire_node("rm".to_string(), AnyTypedOp::RmDim(RmDim::new(0)), &vec![a]).unwrap()[0];
    let add = model.wire_node("add".to_string(), AnyTypedOp::AddDim(AddDim::new(0)), &vec![rm]).unwrap()[0];
    model.set_output_outlets(vec![add]).unwrap();
    (model, a, rm, add)
}

#[test]
fn a_shunt_redirects_readers_and_outputs() {
    let (mut model, a, rm, add) = chain();
    let mut patch = Patch::new();
    let tap = patch.tap_model(&model, a).unwrap();
    assert_eq!(tap, Wire::Tapped(a));
    patch.shunt_outside(add, tap).unwrap();
    patch.shunt_outside(rm, tap).unwrap();
    patch.apply(&mut model).unwrap();
    assert_eq!(model.nodes.len(), 3);
    assert_eq!(model.output_outlets().unwrap(), &vec![a]);
    assert_eq!(model.node(2).inputs, vec![a]);
    assert_eq!(model.node(1).inputs, vec![a]);
    assert_eq!(model.input_outlets().unwrap(), &vec![a]);
}

#[test]
fn staged_nodes_come_behind_the_old_ones() {
    let (mut model, a, rm, add) = chain();
    let mut patch = Patch::new();
    let tap = patch.tap_model(&model, rm).unwrap();
    let first = patch.wire_node("p0".to_string(), AnyTypedOp::AddDim(AddDim::new(1)), &vec![tap]).unwrap();
    assert_eq!(first, vec![Wire::Staged(OutletId::new(0, 0))]);
    let second =
        patch.wire_node("p1".to_string(), AnyTypedOp::RmDim(RmDim::new(1)), &vec![first[0]]).unwrap();
    assert_eq!(second, vec![Wire::Staged(OutletId::new(1, 0))]);
    assert_eq!(patch.wire_fact(first[0]).unwrap().shape, vec![Dim::Val(3), Dim::Val(1)]);
    assert_eq!(patch.wire_fact(second[0]).unwrap().shape, vec![Dim::Val(3)]);
    patch.shunt_outside(rm, second[0]).unwrap();
    patch.apply(&mut model).unwrap();
    assert_eq!(model.nodes.len(), 5);
    assert_eq!(model.node(3).name, "p0");
    assert_eq!(model.node(3).id, 3);
    // a staged node reads what it tapped, also where that outlet is shunted
    assert_eq!(model.node(3).inputs, vec![rm]);
    assert_eq!(model.node(4).name, "p1");
    assert_eq!(model.node(4).inputs, vec![OutletId::new(3, 0)]);
    assert_eq!(model.node(4).op, AnyTypedOp::RmDim(RmDim::new(1)));
    // the old reader of the shunted outlet reads the replacement
    assert_eq!(model.node(2).inputs, vec![OutletId::new(4, 0)]);
    assert_eq!(model.node(1).inputs, vec![a]);
    assert_eq!(model.output_outlets().unwrap(), &vec![add]);
    assert_eq!(model.eval_order().unwrap(), vec![0, 1, 3, 4, 2]);
}

#[test]
fn a_patch_with_a_dangling_outlet_changes_nothing() {
    let (big, _a, rm, add) = chain();
    let mut patch = Patch::new();
    let tap = patch.tap_model(&big, rm).unwrap();
    patch.wire_node("p0".to_string(), AnyTypedOp::AddDim(AddDim::new(0)), &vec![tap]).unwrap();
    patch.shunt_outside(add, tap).unwrap();
    // a model that has no such outlets
    let mut small = Model::new();
    let s = small.add_source("s".to_string(), fact(vec![2])).unwrap();
    small.set_output_outlets(vec![s]).unwrap();
    let e = patch.apply(&mut small).unwrap_err();
    assert_eq!(e.kind, ErrorKind::PatchApplication);
    assert_eq!(small.nodes.len(), 1);
    assert_eq!(small.output_outlets().unwrap(), &vec![s]);
    assert_eq!(small.input_outlets().unwrap(), &vec![s]);
}

#[test]
fn a_shunt_of_a_missing_outlet_changes_nothing() {
    let (mut model, a, _rm, add) = chain();
    let mut patch = Patch::new();
    let tap = patch.tap_model(&model, a).unwrap();
    patch.wire_node("p0".to_string(), AnyTypedOp::RmDim(RmDim::new(0)), &vec![tap]).unwrap();
    patch.shunt_outside(OutletId::new(9, 0), tap).unwrap();
    let e = patch.apply(&mut model).unwrap_err();
    assert_eq!(e.kind, ErrorKind::PatchApplication);
    assert_eq!(model.nodes.len(), 3);
    assert_eq!(model.output_outlets().unwrap(), &vec![add]);
}

#[test]
fn a_patch_takes_only_its_own_wires() {
    let (model, a, _rm, _add) = chain();
    let mut patch = Patch::new();
    assert_eq!(
        patch.tap_model(&model, OutletId::new(7, 0)).unwrap_err().kind,
        ErrorKind::PatchApplication
    );
    let untapped = Wire::Tapped(a);
    assert!(!patch.has_wire(untapped));
    assert!(patch.wire_fact(untapped).is_none());
    let e = patch
        .add_node("n".to_string(), AnyTypedOp::RmDim(RmDim::new(0)), vec![untapped], vec![fact(vec![3])])
        .unwrap_err();
    assert_eq!(e.kind, ErrorKind::PatchApplication);
    let e = patch.shunt_outside(a, Wire::Staged(OutletId::new(0, 0))).unwrap_err();
    assert_eq!(e.kind, ErrorKind::PatchApplication);
    let tap = patch.tap_model(&model, a).unwrap();
    assert!(patch.has_wire(tap));
    let wires = patch
        .add_node("n".to_string(), AnyTypedOp::RmDim(RmDim::new(0)), vec![tap], vec![fact(vec![3])])
        .unwrap();
    assert_eq!(wires, vec![Wire::Staged(OutletId::new(0, 0))]);
    // the facts that the operator computes are wanted where the patch wires the node itself
    let e = patch.wire_node("bad".to_string(), AnyTypedOp::RmDim(RmDim::new(4)), &vec![tap]).unwrap_err();
    assert_eq!(e.kind, ErrorKind::InvariantViolation);
    assert_eq!(patch.nodes.len(), 1);
}
