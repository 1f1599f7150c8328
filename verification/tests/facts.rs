use tract_core::datum::{DatumType, Dim};
use tract_core::error::ErrorKind;
use tract_core::fact::{DimFact, InferenceFact, ShapeFact, TypeFact, ValueFact};
use tract_core::tensor::Tensor;

fn fact(dt: Option<DatumType>, shape: Option<Vec<DimFact>>) -> InferenceFact {
    InferenceFact {
        datum_type: match dt {
            Some(d) => TypeFact::Only(d),
            None => TypeFact::Any,
        },
        shape: match shape {
            Some(s) => ShapeFact::Only(s),
            None => ShapeFact::Any,
        },
        value: ValueFact::Any,
    }
}

#[test]
fn unify_unknown_with_fact_gives_the_fact() {
    let x = InferenceFact::dt_shape(DatumType::F32, &vec![1, 3, 224, 224]);
    let merged = InferenceFact::new().unify(&x).unwrap();
    assert!(merged.same(&x));
    let merged = x.unify(&InferenceFact::new()).unwrap();
    assert!(merged.same(&x));
}

#[test]
fn unify_is_idempotent_and_commutative_on_examples() {
    let a = fact(Some(DatumType::I32), Some(vec![DimFact::Any, DimFact::Only(Dim::Val(3))]));
    let b = fact(None, Some(vec![DimFact::Only(Dim::Val(2)), DimFact::Any]));
    let aa = a.unify(&a).unwrap();
    assert!(aa.same(&a));
    let ab = a.unify(&b).unwrap();
    let ba = b.unify(&a).unwrap();
    assert!(ab.same(&ba));
    let expected = fact(
        Some(DatumType::I32),
        Some(vec![DimFact::Only(Dim::Val(2)), DimFact::Only(Dim::Val(3))]),
    );
    assert!(ab.same(&expected));
}

#[test]
fn unify_is_associative_on_examples() {
    let a = fact(Some(DatumType::I32), None);
    let b = fact(None, Some(vec![DimFact::Only(Dim::Val(2)), DimFact::Any]));
    let c = fact(None, Some(vec![DimFact::Any, DimFact::Only(Dim::Stream)]));
    let left = a.unify(&b).unwrap().unify(&c).unwrap();
    let right = a.unify(&b.unify(&c).unwrap()).unwrap();
    assert!(left.same(&right));
}

#[test]
fn unify_distinct_types_fails() {
    let a = fact(Some(DatumType::I32), None);
    let b = fact(Some(DatumType::F32), None);
    let e = a.unify(&b).unwrap_err();
    assert_eq!(e.kind, ErrorKind::Unification);
}

#[test]
fn unify_distinct_dims_fails_and_names_the_axis() {
    let a = fact(None, Some(vec![DimFact::Only(Dim::Val(2)), DimFact::Only(Dim::Val(3))]));
    let b = fact(None, Some(vec![DimFact::Only(Dim::Val(2)), DimFact::Only(Dim::Val(4))]));
    let e = a.unify(&b).unwrap_err();
    assert_eq!(e.kind, ErrorKind::Unification);
    assert_eq!(e.context.last().unwrap(), "unification error on axis 1");
}

#[test]
fn unify_distinct_ranks_fails() {
    let a = fact(None, Some(vec![DimFact::Any]));
    let b = fact(None, Some(vec![DimFact::Any, DimFact::Any]));
    assert_eq!(a.unify(&b).unwrap_err().kind, ErrorKind::Unification);
}

#[test]
fn unify_distinct_values_fails() {
    let t1 = Tensor::new(DatumType::U8, vec![2], vec![1, 2]).unwrap();
    let t2 = Tensor::new(DatumType::U8, vec![2], vec![1, 3]).unwrap();
    let a = InferenceFact::from_tensor(t1);
    let b = InferenceFact::from_tensor(t2);
    assert_eq!(a.unify(&b).unwrap_err().kind, ErrorKind::Unification);
    assert!(a.unify(&a).unwrap().same(&a));
}

#[test]
fn streaming_dimension_differs_from_a_size() {
    let a = fact(None, Some(vec![DimFact::Only(Dim::Stream)]));
    let b = fact(None, Some(vec![DimFact::Only(Dim::Val(1))]));
    assert_eq!(a.unify(&b).unwrap_err().kind, ErrorKind::Unification);
}
