use tract_core::any_op::AnyTypedOp;
use tract_core::datum::{DatumType, Dim};
use tract_core::error::ErrorKind;
use tract_core::fact::TypedFact;
use tract_core::model::ModelImpl;
use tract_core::outlet::{InletId, OutletId, OutletMap};
use tract_core::rm_dims::RmDim;
use tract_core::source::Source;

type Model = ModelImpl<TypedFact, AnyTypedOp>;

fn fact(shape: Vec<usize>) -> TypedFact {
    TypedFact::dt_shape(DatumType::F32, shape.into_iter().map(Dim::Val).collect()).unwrap()
}

fn node(model: &mut Model, name: &str, inputs: &[OutletId]) -> OutletId {
    let id = model
        .add_node(name.to_string(), AnyTypedOp::Source(Source), vec![fact(vec![2])])
        .unwrap();
    for (ix, i) in inputs.iter().enumerate() {
        model.add_edge(*i, InletId::new(id, ix)).unwrap();
    }
    OutletId::new(id, 0)
}

#[test]
fn nodes_get_their_place_as_id() {
    let mut model = Model::new();
    let a = node(&mut model, "a", &[]);
    let b = node(&mut model, "b", &[a]);
    assert_eq!(a, OutletId::new(0, 0));
    assert_eq!(b, OutletId::new(1, 0));
    assert_eq!(model.node(1).id, 1);
    assert_eq!(model.node(1).name, "b");
    assert_eq!(model.node(1).inputs, vec![a]);
    assert!(model.node_checked(2).is_none());
    assert_eq!(model.node_checked(0).unwrap().name, "a");
}

#[test]
fn edges_need_an_outlet_and_consecutive_slots() {
    let mut model = Model::new();
    let a = node(&mut model, "a", &[]);
    let b = node(&mut model, "b", &[]);
    let e = model.add_edge(OutletId::new(7, 0), InletId::new(1, 0)).unwrap_err();
    assert_eq!(e.kind, ErrorKind::InvariantViolation);
    let e = model.add_edge(OutletId::new(0, 3), InletId::new(1, 0)).unwrap_err();
    assert_eq!(e.kind, ErrorKind::InvariantViolation);
    let e = model.add_edge(a, InletId::new(1, 1)).unwrap_err();
    assert_eq!(e.kind, ErrorKind::InvariantViolation);
    assert!(model.node(1).inputs.is_empty());
    model.add_edge(a, InletId::new(1, 0)).unwrap();
    model.add_edge(b, InletId::new(1, 0)).unwrap();
    assert_eq!(model.node(1).inputs, vec![b]);
    model.add_edge(a, InletId::new(1, 1)).unwrap();
    assert_eq!(model.node(1).inputs, vec![b, a]);
}

#[test]
fn outlet_facts_and_labels() {
    let mut model = Model::new();
    let a = node(&mut model, "a", &[]);
    assert_eq!(model.outlet_fact(a).unwrap().shape, vec![Dim::Val(2)]);
    assert_eq!(model.outlet_fact(OutletId::new(0, 1)).unwrap_err().kind, ErrorKind::InvariantViolation);
    assert!(model.outlet_label(a).is_none());
    model.set_outlet_label(a, "first".to_string());
    model.set_outlet_label(a, "second".to_string());
    assert_eq!(model.outlet_label(a).unwrap(), "second");
}

#[test]
fn interface_is_kept_in_the_callers_order() {
    let mut model = Model::new();
    let a = node(&mut model, "a", &[]);
    let b = node(&mut model, "b", &[]);
    model.set_input_outlets(vec![b, a]).unwrap();
    model.set_output_outlets(vec![a, b, a]).unwrap();
    assert_eq!(model.input_outlets().unwrap(), &vec![b, a]);
    assert_eq!(model.output_outlets().unwrap(), &vec![a, b, a]);
    let e = model.set_output_outlets(vec![OutletId::new(5, 0)]).unwrap_err();
    assert_eq!(e.kind, ErrorKind::InvariantViolation);
    assert_eq!(model.output_outlets().unwrap(), &vec![a, b, a]);
}

#[test]
fn add_source_declares_an_input() {
    let mut model = Model::new();
    let a = model.add_source("a".to_string(), fact(vec![3])).unwrap();
    let b = model.add_source("b".to_string(), fact(vec![4])).unwrap();
    assert_eq!(model.input_outlets().unwrap(), &vec![a, b]);
    assert_eq!(model.node(1).op, AnyTypedOp::Source(Source));
    assert_eq!(model.node(1).outputs[0].shape, vec![Dim::Val(4)]);
}

#[test]
fn successors_are_listed_by_node_and_slot() {
    let mut model = Model::new();
    let a = node(&mut model, "a", &[]);
    let _b = node(&mut model, "b", &[a, a]);
    let _c = node(&mut model, "c", &[a]);
    assert_eq!(
        model.outlet_successors(a),
        vec![InletId::new(1, 0), InletId::new(1, 1), InletId::new(2, 0)]
    );
    assert!(model.outlet_successors(OutletId::new(2, 0)).is_empty());
}

#[test]
fn eval_order_lists_needed_nodes_inputs_first() {
    // 0 -> 2, 1 -> 2, 2 -> 3, 4 is not needed
    let mut model = Model::new();
    let a = node(&mut model, "a", &[]);
    let b = node(&mut model, "b", &[]);
    let c = node(&mut model, "c", &[a, b]);
    let d = node(&mut model, "d", &[c]);
    let _e = node(&mut model, "e", &[a]);
    model.set_output_outlets(vec![d]).unwrap();
    assert_eq!(model.eval_order().unwrap(), vec![0, 1, 2, 3]);
    assert_eq!(model.needed_nodes(), vec![true, true, true, true, false]);
}

#[test]
fn eval_order_takes_the_smallest_ready_id_first() {
    // node 0 reads node 2; node 1 is free: 1 and 2 are ready first, then 0
    let mut model = Model::new();
    let _n0 = node(&mut model, "n0", &[]);
    let n1 = node(&mut model, "n1", &[]);
    let n2 = node(&mut model, "n2", &[]);
    model.add_edge(n2, InletId::new(0, 0)).unwrap();
    model.set_output_outlets(vec![OutletId::new(0, 0), n1]).unwrap();
    assert_eq!(model.eval_order().unwrap(), vec![1, 2, 0]);
}

#[test]
fn eval_order_of_a_model_without_outputs_is_empty() {
    let mut model = Model::new();
    node(&mut model, "a", &[]);
    assert_eq!(model.eval_order().unwrap(), Vec::<usize>::new());
}

#[test]
fn eval_order_refuses_a_loop() {
    let mut model = Model::new();
    let a = node(&mut model, "a", &[]);
    let b = node(&mut model, "b", &[a]);
    model.add_edge(b, InletId::new(0, 0)).unwrap();
    model.set_output_outlets(vec![b]).unwrap();
    assert_eq!(model.eval_order().unwrap_err().kind, ErrorKind::InvariantViolation);
    // a loop that no output depends on does no harm
    let c = node(&mut model, "c", &[]);
    model.set_output_outlets(vec![c]).unwrap();
    assert_eq!(model.eval_order().unwrap(), vec![2]);
}

#[test]
fn outlet_map_keeps_the_last_value() {
    let mut map: OutletMap<OutletId> = OutletMap::new();
    let k = OutletId::new(1, 0);
    assert!(!map.contains_key(k));
    assert_eq!(map.lookup(k), None);
    map.insert(k, OutletId::new(5, 0));
    map.insert(OutletId::new(2, 0), OutletId::new(6, 0));
    map.insert(k, OutletId::new(7, 1));
    assert!(map.contains_key(k));
    assert_eq!(map.lookup(k), Some(OutletId::new(7, 1)));
    assert_eq!(map.get(OutletId::new(2, 0)), Some(&OutletId::new(6, 0)));
    assert_eq!(map.lookup(OutletId::new(1, 1)), None);
}

#[test]
fn wire_node_computes_the_facts() {
    let mut model = Model::new();
    let a = model.add_source("a".to_string(), fact(vec![1, 3])).unwrap();
    let out = model.wire_node("rm".to_string(), AnyTypedOp::RmDim(RmDim::new(0)), &vec![a]).unwrap();
    assert_eq!(out, vec![OutletId::new(1, 0)]);
    assert_eq!(model.outlet_fact(out[0]).unwrap().shape, vec![Dim::Val(3)]);
    assert_eq!(model.node(1).inputs, vec![a]);
    // an axis that the input does not have, and an input that the model does not have
    let e = model.wire_node("bad".to_string(), AnyTypedOp::RmDim(RmDim::new(5)), &vec![a]).unwrap_err();
    assert_eq!(e.kind, ErrorKind::InvariantViolation);
    let e = model
        .wire_node("bad".to_string(), AnyTypedOp::RmDim(RmDim::new(0)), &vec![OutletId::new(9, 0)])
        .unwrap_err();
    assert_eq!(e.kind, ErrorKind::InvariantViolation);
    assert_eq!(model.nodes.len(), 2);
}
