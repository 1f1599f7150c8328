use tract_core::add_dims::AddDim;
use tract_core::any_op::AnyTypedOp;
use tract_core::datum::{DatumType, Dim};
use tract_core::declutter::{compact, declutter, declutter_round, first_proposal};
use tract_core::elide::{elide_axis, stage_rewritten};
use tract_core::error::{ErrorKind, TractError};
use tract_core::fact::TypedFact;
use tract_core::model::ModelImpl;
use tract_core::ops::{DeclutterOp, StatelessOp};
use tract_core::outlet::{InletId, OutletId};
use tract_core::patch::{ModelPatch, Wire};
use tract_core::rm_dims::RmDim;
use tract_core::source::Source;
use tract_core::tensor::Tensor;

type Model = ModelImpl<TypedFact, AnyTypedOp>;

fn fact(shape: Vec<usize>) -> TypedFact {
    TypedFact::dt_shape(DatumType::F32, shape.into_iter().map(Dim::Val).collect()).unwrap()
}

fn ops(model: &Model) -> Vec<AnyTypedOp> {
    model.nodes.iter().map(|n| n.op).collect()
}

/// Evaluates a chain of nodes, each reading the one before it.
fn run(model: &Model, input: Tensor) -> Tensor {
    let mut value = input;
    for id in model.eval_order().unwrap() {
        value = match model.node(id).op {
            AnyTypedOp::Source(_) => value,
            AnyTypedOp::AddDim(op) => op.eval(vec![value]).unwrap().remove(0),
            AnyTypedOp::RmDim(op) => op.eval(vec![value]).unwrap().remove(0),
        };
    }
    value
}

#[test]
fn an_inserted_and_removed_axis_goes_away() {
    let mut model = Model::new();
    let a = model.add_source("a".to_string(), fact(vec![3])).unwrap();
    let add = model.wire_node("add".to_string(), AnyTypedOp::AddDim(AddDim::new(0)), &vec![a]).unwrap()[0];
    let rm = model.wire_node("rm".to_string(), AnyTypedOp::RmDim(RmDim::new(0)), &vec![add]).unwrap()[0];
    model.set_output_outlets(vec![rm]).unwrap();
    let done = declutter(model).unwrap();
    assert_eq!(ops(&done), vec![AnyTypedOp::Source(Source)]);
    assert_eq!(done.output_outlets().unwrap(), &vec![OutletId::new(0, 0)]);
    assert_eq!(done.input_outlets().unwrap(), &vec![OutletId::new(0, 0)]);
    assert_eq!(done.outlet_fact(OutletId::new(0, 0)).unwrap().shape, vec![Dim::Val(3)]);
}

#[test]
fn nodes_between_are_kept_without_the_axis() {
    // a[3] -> add(0) -> [1,3] -> add(2) -> [1,3,1] -> rm(0) -> [3,1]
    let mut model = Model::new();
    let a = model.add_source("a".to_string(), fact(vec![3])).unwrap();
    let n1 = model.wire_node("add0".to_string(), AnyTypedOp::AddDim(AddDim::new(0)), &vec![a]).unwrap()[0];
    let n2 = model.wire_node("add2".to_string(), AnyTypedOp::AddDim(AddDim::new(2)), &vec![n1]).unwrap()[0];
    let n3 = model.wire_node("rm0".to_string(), AnyTypedOp::RmDim(RmDim::new(0)), &vec![n2]).unwrap()[0];
    model.set_output_outlets(vec![n3]).unwrap();
    let input = Tensor::new(DatumType::F32, vec![3], vec![10, 20, 30]).unwrap();
    let before = run(&model, input.clone());
    let done = declutter(model).unwrap();
    assert_eq!(ops(&done), vec![AnyTypedOp::Source(Source), AnyTypedOp::AddDim(AddDim::new(1))]);
    assert_eq!(done.node(1).name, "add2");
    assert_eq!(done.node(1).inputs, vec![OutletId::new(0, 0)]);
    assert_eq!(done.output_outlets().unwrap(), &vec![OutletId::new(1, 0)]);
    assert_eq!(done.outlet_fact(OutletId::new(1, 0)).unwrap().shape, vec![Dim::Val(3), Dim::Val(1)]);
    // the simpler model computes what the model computed
    let after = run(&done, input);
    assert!(after.same(&before));
    assert_eq!(after.shape(), &vec![3, 1]);
}

#[test]
fn a_simplified_model_stays_as_it_is() {
    let mut model = Model::new();
    let a = model.add_source("a".to_string(), fact(vec![3])).unwrap();
    let add = model.wire_node("add".to_string(), AnyTypedOp::AddDim(AddDim::new(0)), &vec![a]).unwrap()[0];
    let rm = model.wire_node("rm".to_string(), AnyTypedOp::RmDim(RmDim::new(0)), &vec![add]).unwrap()[0];
    let add2 = model.wire_node("add2".to_string(), AnyTypedOp::AddDim(AddDim::new(1)), &vec![rm]).unwrap()[0];
    model.set_output_outlets(vec![add2]).unwrap();
    let once = declutter(model).unwrap();
    assert_eq!(ops(&once), vec![AnyTypedOp::Source(Source), AnyTypedOp::AddDim(AddDim::new(1))]);
    let names: Vec<String> = once.nodes.iter().map(|n| n.name.clone()).collect();
    let inputs: Vec<Vec<OutletId>> = once.nodes.iter().map(|n| n.inputs.clone()).collect();
    let outputs = once.output_outlets().unwrap().clone();
    let twice = declutter(once).unwrap();
    assert_eq!(ops(&twice), vec![AnyTypedOp::Source(Source), AnyTypedOp::AddDim(AddDim::new(1))]);
    assert_eq!(twice.nodes.iter().map(|n| n.name.clone()).collect::<Vec<_>>(), names);
    assert_eq!(twice.nodes.iter().map(|n| n.inputs.clone()).collect::<Vec<_>>(), inputs);
    assert_eq!(twice.output_outlets().unwrap(), &outputs);
}

#[test]
fn an_axis_that_no_operator_inserted_stays() {
    // the axis comes with the input: nothing inserts it
    let mut model = Model::new();
    let a = model.add_source("a".to_string(), fact(vec![1, 3])).unwrap();
    let rm = model.wire_node("rm".to_string(), AnyTypedOp::RmDim(RmDim::new(0)), &vec![a]).unwrap()[0];
    model.set_output_outlets(vec![rm]).unwrap();
    let proposal = model.node(1).op.declutter(&model, model.node(1)).unwrap();
    assert!(proposal.is_none());
    let done = declutter(model).unwrap();
    assert_eq!(ops(&done), vec![AnyTypedOp::Source(Source), AnyTypedOp::RmDim(RmDim::new(0))]);
    assert_eq!(done.node(1).inputs, vec![OutletId::new(0, 0)]);
    assert_eq!(done.output_outlets().unwrap(), &vec![OutletId::new(1, 0)]);
}

#[test]
fn an_axis_inserted_elsewhere_stays() {
    // add(1) inserts axis 1, rm(0) removes axis 0, which came with the input
    let mut model = Model::new();
    let a = model.add_source("a".to_string(), fact(vec![1, 3])).unwrap();
    let add = model.wire_node("add".to_string(), AnyTypedOp::AddDim(AddDim::new(1)), &vec![a]).unwrap()[0];
    let rm = model.wire_node("rm".to_string(), AnyTypedOp::RmDim(RmDim::new(0)), &vec![add]).unwrap()[0];
    model.set_output_outlets(vec![rm]).unwrap();
    let proposal = model.node(2).op.declutter(&model, model.node(2)).unwrap();
    assert!(proposal.is_none());
    let done = declutter(model).unwrap();
    assert_eq!(done.nodes.len(), 3);
    assert_eq!(done.node(2).op, AnyTypedOp::RmDim(RmDim::new(0)));
}

#[test]
fn a_second_reader_keeps_what_it_read() {
    // the inserted axis is removed by rm; another node reads the same outlet and
    // both are outputs: the other node still reads the inserting operator
    let mut model = Model::new();
    let a = model.add_source("a".to_string(), fact(vec![3])).unwrap();
    let add = model.wire_node("add".to_string(), AnyTypedOp::AddDim(AddDim::new(0)), &vec![a]).unwrap()[0];
    let rm = model.wire_node("rm".to_string(), AnyTypedOp::RmDim(RmDim::new(0)), &vec![add]).unwrap()[0];
    let other = model.wire_node("other".to_string(), AnyTypedOp::AddDim(AddDim::new(2)), &vec![add]).unwrap()[0];
    model.set_output_outlets(vec![rm, other]).unwrap();
    let done = declutter(model).unwrap();
    let names: Vec<String> = done.nodes.iter().map(|n| n.name.clone()).collect();
    assert_eq!(names, vec!["a".to_string(), "add".to_string(), "other".to_string()]);
    assert_eq!(done.output_outlets().unwrap(), &vec![OutletId::new(0, 0), OutletId::new(2, 0)]);
    assert_eq!(done.node(2).inputs, vec![OutletId::new(1, 0)]);
    assert_eq!(done.node(2).op, AnyTypedOp::AddDim(AddDim::new(2)));
    assert_eq!(
        done.outlet_fact(OutletId::new(2, 0)).unwrap().shape,
        vec![Dim::Val(1), Dim::Val(3), Dim::Val(1)]
    );
}

#[test]
fn the_proposed_patch_bypasses_the_pair() {
    let mut model = Model::new();
    let a = model.add_source("a".to_string(), fact(vec![3])).unwrap();
    let add = model.wire_node("add".to_string(), AnyTypedOp::AddDim(AddDim::new(0)), &vec![a]).unwrap()[0];
    let rm = model.wire_node("rm".to_string(), AnyTypedOp::RmDim(RmDim::new(0)), &vec![add]).unwrap()[0];
    model.set_output_outlets(vec![rm]).unwrap();
    let patch = model.node(2).op.declutter(&model, model.node(2)).unwrap().unwrap();
    assert!(patch.nodes.is_empty());
    assert_eq!(patch.shunts.get(rm), Some(&Wire::Tapped(a)));
    assert!(patch.taps.contains_key(a));
}

#[test]
fn compaction_drops_dead_nodes_and_keeps_the_interface() {
    let mut model = Model::new();
    model.add_source("unused".to_string(), fact(vec![2])).unwrap();
    let a = model.add_source("a".to_string(), fact(vec![1, 3])).unwrap();
    let _dead = model.wire_node("dead".to_string(), AnyTypedOp::RmDim(RmDim::new(0)), &vec![a]).unwrap();
    let live = model.wire_node("live".to_string(), AnyTypedOp::RmDim(RmDim::new(0)), &vec![a]).unwrap()[0];
    model.set_output_outlets(vec![live]).unwrap();
    let small = compact(&model).unwrap();
    let names: Vec<String> = small.nodes.iter().map(|n| n.name.clone()).collect();
    assert_eq!(names, vec!["a".to_string(), "live".to_string(), "unused".to_string()]);
    assert_eq!(small.input_outlets().unwrap(), &vec![OutletId::new(2, 0), OutletId::new(0, 0)]);
    assert_eq!(small.output_outlets().unwrap(), &vec![OutletId::new(1, 0)]);
}

#[test]
fn a_node_that_the_axis_goes_through_is_staged_without_it() {
    // a[1,3] -> add(2) -> [1,3,1] -> rm(0) -> [3,1] -> rm(1) -> [3]
    let mut model = Model::new();
    let a = model.add_source("a".to_string(), fact(vec![1, 3])).unwrap();
    let add = model.wire_node("add2".to_string(), AnyTypedOp::AddDim(AddDim::new(2)), &vec![a]).unwrap()[0];
    let rm0 = model.wire_node("rm0".to_string(), AnyTypedOp::RmDim(RmDim::new(0)), &vec![add]).unwrap()[0];
    let rm1 = model.wire_node("rm1".to_string(), AnyTypedOp::RmDim(RmDim::new(1)), &vec![rm0]).unwrap()[0];
    model.set_output_outlets(vec![rm1]).unwrap();
    // the axis that rm1 removes is the one that add2 inserted; it goes through rm0
    let patch = elide_axis(&model, rm0, 1).unwrap().unwrap();
    assert_eq!(patch.nodes.len(), 1);
    assert_eq!(patch.nodes[0].name, "rm0");
    assert_eq!(patch.nodes[0].op, AnyTypedOp::RmDim(RmDim::new(0)));
    assert_eq!(patch.nodes[0].inputs, vec![Wire::Tapped(a)]);
    assert_eq!(patch.nodes[0].outputs.len(), 1);
    assert_eq!(patch.nodes[0].outputs[0].shape, vec![Dim::Val(3)]);
    assert_eq!(patch.shunts.get(rm1), Some(&Wire::Staged(OutletId::new(0, 0))));
    assert!(!patch.shunts.contains_key(rm0));
    assert!(patch.taps.contains_key(a));
    // the operator of the last node proposes the same
    let proposed = model.node(3).op.declutter(&model, model.node(3)).unwrap().unwrap();
    assert_eq!(proposed.nodes.len(), 1);
    assert_eq!(proposed.shunts.get(rm1), Some(&Wire::Staged(OutletId::new(0, 0))));
    let input = Tensor::new(DatumType::F32, vec![1, 3], vec![7, 8, 9]).unwrap();
    let before = run(&model, input.clone());
    let done = declutter(model).unwrap();
    assert_eq!(ops(&done), vec![AnyTypedOp::Source(Source), AnyTypedOp::RmDim(RmDim::new(0))]);
    assert!(run(&done, input).same(&before));
}

#[test]
fn an_axis_is_dropped_only_where_the_outlet_is() {
    let mut model = Model::new();
    let a = model.add_source("a".to_string(), fact(vec![1, 3])).unwrap();
    model.set_output_outlets(vec![a]).unwrap();
    let e = elide_axis(&model, OutletId::new(5, 0), 0).unwrap_err();
    assert_eq!(e.kind, ErrorKind::InvariantViolation);
    // the axis begins at a source: it cannot be dropped
    assert!(elide_axis(&model, a, 0).unwrap().is_none());
}

#[test]
fn an_operator_that_reads_nothing_cannot_propose() {
    let mut model = Model::new();
    let id = model.add_node("rm".to_string(), AnyTypedOp::RmDim(RmDim::new(0)), vec![fact(vec![3])]).unwrap();
    model.set_output_outlets(vec![OutletId::new(id, 0)]).unwrap();
    let e = model.node(id).op.declutter(&model, model.node(id)).unwrap_err();
    assert_eq!(e.kind, ErrorKind::InvariantViolation);
    assert_eq!(declutter(model).unwrap_err().kind, ErrorKind::InvariantViolation);
}

#[test]
fn a_node_is_staged_with_the_answer_of_its_operator() {
    let mut model = Model::new();
    let a = model.add_source("a".to_string(), fact(vec![1, 3])).unwrap();
    model.wire_node("rm".to_string(), AnyTypedOp::RmDim(RmDim::new(0)), &vec![a]).unwrap();
    let at = model.node(1);
    // the answer holds an operator: that operator is staged
    let mut patch: ModelPatch<TypedFact, AnyTypedOp> = ModelPatch::new();
    let wire = patch.tap_model(&model, a).unwrap();
    let answer = Ok(Some(AnyTypedOp::AddDim(AddDim::new(1))));
    let outs = stage_rewritten(&mut patch, at, answer, &vec![wire]).unwrap();
    assert_eq!(outs, vec![Wire::Staged(OutletId::new(0, 0))]);
    assert_eq!(patch.nodes[0].name, "rm");
    assert_eq!(patch.nodes[0].op, AnyTypedOp::AddDim(AddDim::new(1)));
    assert_eq!(patch.nodes[0].inputs, vec![wire]);
    assert_eq!(patch.nodes[0].outputs[0].shape, vec![Dim::Val(1), Dim::Val(1), Dim::Val(3)]);
    // the operator can stay: a copy of it is staged
    let outs = stage_rewritten(&mut patch, at, Ok(None), &vec![wire]).unwrap();
    assert_eq!(outs, vec![Wire::Staged(OutletId::new(1, 0))]);
    assert_eq!(patch.nodes[1].op, AnyTypedOp::RmDim(RmDim::new(0)));
    assert_eq!(patch.nodes[1].outputs[0].shape, vec![Dim::Val(3)]);
    // the operator failed: its error is handed on, and nothing is staged
    let failed = Err(TractError::new(ErrorKind::Evaluation, "no"));
    let e = stage_rewritten(&mut patch, at, failed, &vec![wire]).unwrap_err();
    assert_eq!(e.kind, ErrorKind::Evaluation);
    assert_eq!(e.context, vec!["no".to_string()]);
    assert_eq!(patch.nodes.len(), 2);
    // an operator that rejects the facts is not staged either
    let answer = Ok(Some(AnyTypedOp::RmDim(RmDim::new(4))));
    assert!(stage_rewritten(&mut patch, at, answer, &vec![wire]).is_err());
    assert_eq!(patch.nodes.len(), 2);
}

#[test]
fn compaction_leaves_needed_nodes_and_inputs_only() {
    let mut model = Model::new();
    let spare = model.add_source("spare".to_string(), fact(vec![2])).unwrap();
    let a = model.add_source("a".to_string(), fact(vec![1, 3])).unwrap();
    model.wire_node("dead".to_string(), AnyTypedOp::RmDim(RmDim::new(0)), &vec![a]).unwrap();
    let live = model.wire_node("live".to_string(), AnyTypedOp::RmDim(RmDim::new(0)), &vec![a]).unwrap()[0];
    model.set_input_outlets(vec![spare, a]).unwrap();
    model.set_output_outlets(vec![live]).unwrap();
    let order = model.eval_order().unwrap();
    assert_eq!(order, vec![1, 3]);
    let small = compact(&model).unwrap();
    // the needed nodes first, in evaluation order, each wired to the copies
    assert_eq!(small.nodes.len(), order.len() + 1);
    assert_eq!(small.node(0).name, "a");
    assert_eq!(small.node(1).name, "live");
    assert_eq!(small.node(1).op, AnyTypedOp::RmDim(RmDim::new(0)));
    assert_eq!(small.node(1).inputs, vec![OutletId::new(0, 0)]);
    assert_eq!(small.node(1).outputs[0].shape, vec![Dim::Val(3)]);
    // every node is needed, or is the node of an input
    let needed = small.needed_nodes();
    assert_eq!(needed, vec![true, true, false]);
    assert_eq!(small.input_outlets().unwrap()[0], OutletId::new(2, 0));
    // without spare inputs there is one node for each needed node
    let mut tight = Model::new();
    let b = tight.add_source("b".to_string(), fact(vec![1, 3])).unwrap();
    tight.wire_node("dead".to_string(), AnyTypedOp::AddDim(AddDim::new(0)), &vec![b]).unwrap();
    let out = tight.wire_node("out".to_string(), AnyTypedOp::RmDim(RmDim::new(0)), &vec![b]).unwrap()[0];
    tight.set_output_outlets(vec![out]).unwrap();
    let small = compact(&tight).unwrap();
    assert_eq!(small.nodes.len(), tight.eval_order().unwrap().len());
    assert_eq!(small.needed_nodes(), vec![true, true]);
}

#[test]
fn a_model_that_is_simple_already_is_handed_back() {
    // declutter of a model that is simple already hands it back
    let mut model = Model::new();
    let a = model.add_source("a".to_string(), fact(vec![1, 3])).unwrap();
    let rm = model.wire_node("rm".to_string(), AnyTypedOp::RmDim(RmDim::new(0)), &vec![a]).unwrap()[0];
    model.set_output_outlets(vec![rm]).unwrap();
    let done = declutter(model).unwrap();
    assert_eq!(done.nodes.len(), 2);
    assert_eq!(done.node(1).name, "rm");
    assert_eq!(done.output_outlets().unwrap(), &vec![OutletId::new(1, 0)]);
    assert_eq!(done.input_outlets().unwrap(), &vec![OutletId::new(0, 0)]);
}

#[test]
fn the_first_node_that_proposes_is_taken() {
    // a[3] -> add0 -> rm0 -> add0 -> rm0
    let mut model = Model::new();
    let a = model.add_source("a".to_string(), fact(vec![3])).unwrap();
    let n1 = model.wire_node("add1".to_string(), AnyTypedOp::AddDim(AddDim::new(0)), &vec![a]).unwrap()[0];
    let n2 = model.wire_node("rm1".to_string(), AnyTypedOp::RmDim(RmDim::new(0)), &vec![n1]).unwrap()[0];
    let n3 = model.wire_node("add2".to_string(), AnyTypedOp::AddDim(AddDim::new(0)), &vec![n2]).unwrap()[0];
    let n4 = model.wire_node("rm2".to_string(), AnyTypedOp::RmDim(RmDim::new(0)), &vec![n3]).unwrap()[0];
    model.set_output_outlets(vec![n4]).unwrap();
    let patch = first_proposal(&model).unwrap().unwrap();
    assert_eq!(patch.shunts.get(n2), Some(&Wire::Tapped(a)));
    assert!(!patch.shunts.contains_key(n4));
    assert!(patch.nodes.is_empty());
    // one round with it leaves the second pair
    let next = declutter_round(model, patch).unwrap();
    assert_eq!(
        ops(&next),
        vec![AnyTypedOp::Source(Source), AnyTypedOp::AddDim(AddDim::new(0)), AnyTypedOp::RmDim(RmDim::new(0))]
    );
    assert_eq!(next.node(1).name, "add2");
    assert_eq!(next.node(1).inputs, vec![OutletId::new(0, 0)]);
    assert_eq!(next.output_outlets().unwrap(), &vec![OutletId::new(2, 0)]);
    // and the next proposal is that of the second pair
    let patch = first_proposal(&next).unwrap().unwrap();
    assert_eq!(patch.shunts.get(OutletId::new(2, 0)), Some(&Wire::Tapped(OutletId::new(0, 0))));
    let last = declutter_round(next, patch).unwrap();
    assert_eq!(ops(&last), vec![AnyTypedOp::Source(Source)]);
    assert!(first_proposal(&last).unwrap().is_none());
}

#[test]
fn a_patch_that_does_not_fit_is_discarded() {
    let mut large = Model::new();
    let a = large.add_source("a".to_string(), fact(vec![3])).unwrap();
    let n1 = large.wire_node("add".to_string(), AnyTypedOp::AddDim(AddDim::new(0)), &vec![a]).unwrap()[0];
    let n2 = large.wire_node("rm".to_string(), AnyTypedOp::RmDim(RmDim::new(0)), &vec![n1]).unwrap()[0];
    large.set_output_outlets(vec![n2]).unwrap();
    let patch = first_proposal(&large).unwrap().unwrap();
    // the patch names an outlet that the small model lacks
    let mut small = Model::new();
    let b = small.add_source("b".to_string(), fact(vec![3])).unwrap();
    small.set_output_outlets(vec![b]).unwrap();
    let same = declutter_round(small, patch).unwrap();
    assert_eq!(same.nodes.len(), 1);
    assert_eq!(same.node(0).name, "b");
    assert_eq!(same.output_outlets().unwrap(), &vec![b]);
    assert_eq!(same.input_outlets().unwrap(), &vec![b]);
}

#[test]
fn an_axis_is_not_dropped_from_a_model_that_cannot_be_ordered() {
    // an insertion and a removal that read each other
    let mut model = Model::new();
    let x = model.add_node("add".to_string(), AnyTypedOp::AddDim(AddDim::new(0)), vec![fact(vec![1, 3])]).unwrap();
    let y = model.add_node("rm".to_string(), AnyTypedOp::RmDim(RmDim::new(0)), vec![fact(vec![3])]).unwrap();
    model.add_edge(OutletId::new(x, 0), InletId::new(y, 0)).unwrap();
    model.add_edge(OutletId::new(y, 0), InletId::new(x, 0)).unwrap();
    model.set_output_outlets(vec![OutletId::new(y, 0)]).unwrap();
    let e = elide_axis(&model, OutletId::new(x, 0), 0).unwrap_err();
    assert_eq!(e.kind, ErrorKind::InvariantViolation);
    assert_eq!(declutter(model).unwrap_err().kind, ErrorKind::InvariantViolation);
}

#[test]
fn a_round_need_not_make_the_model_smaller() {
    // a[3] -> add0 -> [1,3] -> add2 -> [1,3,1] -> rm0 -> [3,1], and the model gives out
    // both what add2 and what rm0 give
    let mut model = Model::new();
    let a = model.add_source("a".to_string(), fact(vec![3])).unwrap();
    let n1 = model.wire_node("add0".to_string(), AnyTypedOp::AddDim(AddDim::new(0)), &vec![a]).unwrap()[0];
    let n2 = model.wire_node("add2".to_string(), AnyTypedOp::AddDim(AddDim::new(2)), &vec![n1]).unwrap()[0];
    let n3 = model.wire_node("rm0".to_string(), AnyTypedOp::RmDim(RmDim::new(0)), &vec![n2]).unwrap()[0];
    model.set_output_outlets(vec![n2, n3]).unwrap();
    let done = declutter(model).unwrap();
    // the removal is gone; the insertion stays for the first output, and its copy
    // without the axis stands for the second
    assert_eq!(
        ops(&done),
        vec![
            AnyTypedOp::Source(Source),
            AnyTypedOp::AddDim(AddDim::new(0)),
            AnyTypedOp::AddDim(AddDim::new(2)),
            AnyTypedOp::AddDim(AddDim::new(1)),
        ]
    );
    assert_eq!(done.node(3).inputs, vec![OutletId::new(0, 0)]);
    assert_eq!(done.output_outlets().unwrap(), &vec![OutletId::new(2, 0), OutletId::new(3, 0)]);
    assert_eq!(done.outlet_fact(OutletId::new(2, 0)).unwrap().shape, vec![Dim::Val(1), Dim::Val(3), Dim::Val(1)]);
    assert_eq!(done.outlet_fact(OutletId::new(3, 0)).unwrap().shape, vec![Dim::Val(3), Dim::Val(1)]);
}
