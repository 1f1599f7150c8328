use tract_core::add_dims::AddDim;
use tract_core::any_op::{AnyInferenceOp, AnyTypedOp};
use tract_core::datum::{DatumType, Dim};
use tract_core::error::ErrorKind;
use tract_core::fact::{InferenceFact, TypedFact};
use tract_core::infer::ToTypedTranslator;
use tract_core::model::ModelImpl;
use tract_core::outlet::{InletId, OutletId, OutletMap};
use tract_core::rm_dims::{RmDim, RmDims};
use tract_core::source::Source;
use tract_core::translator::{map_interface, record_outlets, IntoTranslator, Translate};

type Model = ModelImpl<TypedFact, AnyTypedOp>;

fn fact(shape: Vec<usize>) -> TypedFact {
    TypedFact::dt_shape(DatumType::F32, shape.into_iter().map(Dim::Val).collect()).unwrap()
}

fn translate(model: &Model) -> (Model, OutletMap<OutletId>) {
    Translate::<TypedFact, AnyTypedOp, TypedFact, AnyTypedOp>::translate_model_with_mappings(
        &IntoTranslator,
        model,
    )
    .unwrap()
}

#[test]
fn translation_keeps_inputs_and_outputs_in_order() {
    let mut model = Model::new();
    let a = model.add_source("a".to_string(), fact(vec![1, 3])).unwrap();
    let b = model.add_source("b".to_string(), fact(vec![1, 5])).unwrap();
    let rb = model.wire_node("rb".to_string(), AnyTypedOp::RmDim(RmDim::new(0)), &vec![b]).unwrap()[0];
    let ra = model.wire_node("ra".to_string(), AnyTypedOp::RmDim(RmDim::new(0)), &vec![a]).unwrap()[0];
    model.set_input_outlets(vec![b, a]).unwrap();
    model.set_output_outlets(vec![ra, rb, ra]).unwrap();
    let (target, mapping) = translate(&model);
    assert_eq!(target.inputs.len(), 2);
    assert_eq!(target.outputs.len(), 3);
    assert_eq!(target.inputs, vec![mapping.lookup(b).unwrap(), mapping.lookup(a).unwrap()]);
    assert_eq!(
        target.outputs,
        vec![mapping.lookup(ra).unwrap(), mapping.lookup(rb).unwrap(), mapping.lookup(ra).unwrap()]
    );
    // the nodes were translated in evaluation order, which here is the order of the ids
    assert_eq!(target.inputs, vec![OutletId::new(1, 0), OutletId::new(0, 0)]);
    assert_eq!(target.node(2).name, "rb");
    assert_eq!(target.node(2).op, AnyTypedOp::RmDim(RmDim::new(0)));
    assert_eq!(target.node(2).inputs, vec![OutletId::new(1, 0)]);
    assert_eq!(target.node(2).outputs[0].shape, vec![Dim::Val(5)]);
}

#[test]
fn an_unused_input_stays_at_its_place() {
    let mut model = Model::new();
    let unused = model.add_source("unused".to_string(), fact(vec![7])).unwrap();
    let a = model.add_source("a".to_string(), fact(vec![1, 3])).unwrap();
    let ra = model.wire_node("ra".to_string(), AnyTypedOp::RmDim(RmDim::new(0)), &vec![a]).unwrap()[0];
    model.set_output_outlets(vec![ra]).unwrap();
    assert_eq!(model.eval_order().unwrap(), vec![1, 2]);
    let (target, mapping) = translate(&model);
    assert_eq!(target.inputs.len(), 2);
    assert_eq!(target.inputs[0], mapping.lookup(unused).unwrap());
    assert_eq!(target.inputs[1], mapping.lookup(a).unwrap());
    assert_eq!(target.node(target.inputs[0].node).name, "unused");
    assert_eq!(target.node(target.inputs[0].node).outputs[0].shape, vec![Dim::Val(7)]);
    assert_eq!(target.outputs, vec![mapping.lookup(ra).unwrap()]);
    assert_eq!(target.nodes.len(), 3);
}

#[test]
fn labels_follow_the_outlets() {
    let mut model = Model::new();
    let a = model.add_source("a".to_string(), fact(vec![1, 3])).unwrap();
    let ra = model.wire_node("ra".to_string(), AnyTypedOp::RmDim(RmDim::new(0)), &vec![a]).unwrap()[0];
    model.set_output_outlets(vec![ra]).unwrap();
    model.set_outlet_label(ra, "squeezed".to_string());
    let (target, mapping) = translate(&model);
    assert_eq!(target.outlet_label(mapping.lookup(ra).unwrap()).unwrap(), "squeezed");
    assert!(target.outlet_label(mapping.lookup(a).unwrap()).is_none());
}

#[test]
fn translation_drops_what_no_output_needs() {
    let mut model = Model::new();
    let a = model.add_source("a".to_string(), fact(vec![1, 3])).unwrap();
    let _dead = model.wire_node("dead".to_string(), AnyTypedOp::RmDim(RmDim::new(0)), &vec![a]).unwrap();
    let live = model.wire_node("live".to_string(), AnyTypedOp::RmDim(RmDim::new(0)), &vec![a]).unwrap()[0];
    model.set_output_outlets(vec![live]).unwrap();
    let target = Translate::<TypedFact, AnyTypedOp, TypedFact, AnyTypedOp>::translate_model(
        &IntoTranslator,
        &model,
    )
    .unwrap();
    assert_eq!(target.nodes.len(), 2);
    assert_eq!(target.node(1).name, "live");
}

#[test]
fn translation_of_a_loop_fails() {
    let mut model = Model::new();
    let a = model.add_node("a".to_string(), AnyTypedOp::Source(Source), vec![fact(vec![1])]).unwrap();
    let b = model.add_node("b".to_string(), AnyTypedOp::Source(Source), vec![fact(vec![1])]).unwrap();
    model.add_edge(OutletId::new(a, 0), InletId::new(b, 0)).unwrap();
    model.add_edge(OutletId::new(b, 0), InletId::new(a, 0)).unwrap();
    model.set_output_outlets(vec![OutletId::new(b, 0)]).unwrap();
    let r = Translate::<TypedFact, AnyTypedOp, TypedFact, AnyTypedOp>::translate_model(
        &IntoTranslator,
        &model,
    );
    assert_eq!(r.unwrap_err().kind, ErrorKind::InvariantViolation);
}

#[test]
fn into_translator_wants_the_inputs_translated() {
    let mut model = Model::new();
    let a = model.add_source("a".to_string(), fact(vec![1, 3])).unwrap();
    model.wire_node("ra".to_string(), AnyTypedOp::RmDim(RmDim::new(0)), &vec![a]).unwrap();
    let mut target = Model::new();
    let mapping: OutletMap<OutletId> = OutletMap::new();
    let r = Translate::<TypedFact, AnyTypedOp, TypedFact, AnyTypedOp>::translate_node(
        &IntoTranslator,
        &model,
        model.node(1),
        &mut target,
        &mapping,
    );
    assert_eq!(r.unwrap_err().kind, ErrorKind::InvariantViolation);
    assert_eq!(target.nodes.len(), 0);
}

#[test]
fn recording_and_mapping_outlets() {
    let source = Model::new();
    let mut target = Model::new();
    let mut mapping: OutletMap<OutletId> = OutletMap::new();
    record_outlets(&source, 4, &vec![OutletId::new(9, 1), OutletId::new(9, 0)], &mut target, &mut mapping);
    assert_eq!(mapping.lookup(OutletId::new(4, 0)), Some(OutletId::new(9, 1)));
    assert_eq!(mapping.lookup(OutletId::new(4, 1)), Some(OutletId::new(9, 0)));
    let mapped = map_interface(&vec![OutletId::new(4, 1), OutletId::new(4, 0)], &mapping).unwrap();
    assert_eq!(mapped, vec![OutletId::new(9, 0), OutletId::new(9, 1)]);
    let e = map_interface(&vec![OutletId::new(4, 2)], &mapping).unwrap_err();
    assert_eq!(e.kind, ErrorKind::InvariantViolation);
}

#[test]
fn lowering_a_model_under_inference() {
    let mut model: ModelImpl<InferenceFact, AnyInferenceOp> = ModelImpl::new();
    let a = model
        .add_source("input".to_string(), InferenceFact::dt_shape(DatumType::F32, &vec![1, 3, 224, 224]))
        .unwrap();
    let rm = model
        .wire(
            "squeeze".to_string(),
            AnyInferenceOp::RmDims(RmDims::new(vec![0])),
            &vec![a],
            vec![InferenceFact::new()],
        )
        .unwrap()[0];
    model.set_output_outlets(vec![rm]).unwrap();
    let target = Translate::<InferenceFact, AnyInferenceOp, TypedFact, AnyTypedOp>::translate_model(
        &ToTypedTranslator,
        &model,
    )
    .unwrap();
    assert_eq!(target.nodes.len(), 2);
    assert_eq!(target.node(0).op, AnyTypedOp::Source(Source));
    assert_eq!(target.node(1).op, AnyTypedOp::RmDim(RmDim::new(0)));
    assert_eq!(target.node(1).name, "squeeze-axis-0");
    assert_eq!(target.node(1).inputs, vec![OutletId::new(0, 0)]);
    assert_eq!(target.node(1).outputs[0].datum_type, DatumType::F32);
    assert_eq!(
        target.node(1).outputs[0].shape,
        vec![Dim::Val(3), Dim::Val(224), Dim::Val(224)]
    );
    assert_eq!(target.inputs, vec![OutletId::new(0, 0)]);
    assert_eq!(target.outputs, vec![OutletId::new(1, 0)]);
}

#[test]
fn lowering_needs_known_facts() {
    let mut model: ModelImpl<InferenceFact, AnyInferenceOp> = ModelImpl::new();
    let a = model.add_source("input".to_string(), InferenceFact::new()).unwrap();
    model.set_output_outlets(vec![a]).unwrap();
    let r = Translate::<InferenceFact, AnyInferenceOp, TypedFact, AnyTypedOp>::translate_model(
        &ToTypedTranslator,
        &model,
    );
    let e = r.unwrap_err();
    assert_eq!(e.kind, ErrorKind::LoweringUnsupported);
    assert_eq!(e.context.last().unwrap(), "Translating #0 \"input\"");
}

#[test]
fn the_mapping_holds_outlets_of_the_source_only() {
    let mut model = Model::new();
    let a = model.add_source("a".to_string(), fact(vec![1, 3])).unwrap();
    let dead = model.wire_node("dead".to_string(), AnyTypedOp::RmDim(RmDim::new(0)), &vec![a]).unwrap()[0];
    let ra = model.wire_node("ra".to_string(), AnyTypedOp::RmDim(RmDim::new(0)), &vec![a]).unwrap()[0];
    model.set_output_outlets(vec![ra]).unwrap();
    model.set_outlet_label(a, "in".to_string());
    model.set_outlet_label(dead, "lost".to_string());
    let (target, mapping) = translate(&model);
    // one node for each needed node, in evaluation order
    assert_eq!(target.nodes.len(), 2);
    assert_eq!(target.node(0).name, "a");
    assert_eq!(target.node(1).name, "ra");
    assert_eq!(mapping.lookup(a), Some(OutletId::new(0, 0)));
    assert_eq!(mapping.lookup(ra), Some(OutletId::new(1, 0)));
    assert_eq!(mapping.lookup(dead), None);
    assert_eq!(mapping.lookup(OutletId::new(0, 1)), None);
    // the label of a mapped outlet is handed on, that of a dropped one is not
    assert_eq!(target.outlet_label(OutletId::new(0, 0)).unwrap(), "in");
    assert!(target.outlet_label(OutletId::new(1, 0)).is_none());
}

#[test]
fn a_model_without_interface_translates_into_nothing() {
    let mut model: ModelImpl<InferenceFact, AnyInferenceOp> = ModelImpl::new();
    // a node that could not be lowered, and that nothing depends on
    model.add_node("loose".to_string(), AnyInferenceOp::Source(Source), vec![InferenceFact::new()]).unwrap();
    let (target, mapping) =
        Translate::<InferenceFact, AnyInferenceOp, TypedFact, AnyTypedOp>::translate_model_with_mappings(
            &ToTypedTranslator,
            &model,
        )
        .unwrap();
    assert!(target.nodes.is_empty());
    assert!(target.inputs.is_empty());
    assert!(target.outputs.is_empty());
    assert_eq!(mapping.lookup(OutletId::new(0, 0)), None);
}

#[test]
fn a_spare_input_may_read_what_is_translated() {
    let mut model = Model::new();
    let a = model.add_source("a".to_string(), fact(vec![1, 3])).unwrap();
    let side = model.wire_node("side".to_string(), AnyTypedOp::RmDim(RmDim::new(0)), &vec![a]).unwrap()[0];
    let live = model.wire_node("live".to_string(), AnyTypedOp::RmDim(RmDim::new(0)), &vec![a]).unwrap()[0];
    // the second input belongs to a node that no output depends on, and that reads the first
    model.set_input_outlets(vec![a, side]).unwrap();
    model.set_output_outlets(vec![live]).unwrap();
    let (target, mapping) = translate(&model);
    assert_eq!(target.nodes.len(), 3);
    assert_eq!(target.node(0).name, "a");
    assert_eq!(target.node(1).name, "live");
    assert_eq!(target.node(2).name, "side");
    assert_eq!(target.node(2).inputs, vec![OutletId::new(0, 0)]);
    assert_eq!(target.inputs, vec![OutletId::new(0, 0), OutletId::new(2, 0)]);
    assert_eq!(target.outputs, vec![OutletId::new(1, 0)]);
    assert_eq!(mapping.lookup(side), Some(OutletId::new(2, 0)));
}

#[test]
fn a_spare_input_that_reads_what_is_not_translated_fails_by_name() {
    let mut model = Model::new();
    let a = model.add_source("a".to_string(), fact(vec![1, 3])).unwrap();
    let dead = model.wire_node("dead".to_string(), AnyTypedOp::RmDim(RmDim::new(0)), &vec![a]).unwrap()[0];
    let side = model.wire_node("side".to_string(), AnyTypedOp::AddDim(AddDim::new(0)), &vec![dead]).unwrap()[0];
    let live = model.wire_node("live".to_string(), AnyTypedOp::RmDim(RmDim::new(0)), &vec![a]).unwrap()[0];
    model.set_input_outlets(vec![a, side]).unwrap();
    model.set_output_outlets(vec![live]).unwrap();
    let r = Translate::<TypedFact, AnyTypedOp, TypedFact, AnyTypedOp>::translate_model(&IntoTranslator, &model);
    let e = r.unwrap_err();
    assert_eq!(e.kind, ErrorKind::InvariantViolation);
    assert_eq!(
        e.context,
        vec!["an outlet was not translated".to_string(), "Translating #2 \"side\"".to_string()]
    );
}
