//! Partial knowledge of a tensor, and how two pieces of knowledge merge.
//!
//! Every field of a fact is unknown or known. Merging keeps what either side
//! knows and fails where the two sides know different things.
use vstd::prelude::*;
use crate::datum::{DatumType, Dim};
use crate::error::{ErrorKind, TractError, TractResult};
use crate::tensor::{Tensor, TensorView};
use crate::text::{append_decimal, text_of};

verus! {

/// What is known of the element type of a tensor.
#[derive(Clone, Copy, Debug, PartialEq, Eq, Structural)]
pub enum TypeFact {
    Any,
    Only(DatumType),
}

/// What is known of one dimension of a tensor: nothing, or the dimension,
/// which is a size or the streaming symbol.
#[derive(Clone, Copy, Debug, PartialEq, Eq, Structural)]
pub enum DimFact {
    Any,
    Only(Dim),
}

/// What is known of the shape of a tensor: nothing, or its rank with what is
/// known of each dimension.
#[derive(Debug)]
pub enum ShapeFact {
    Any,
    Only(Vec<DimFact>),
}

/// What is known of the value of a tensor.
#[derive(Debug)]
pub enum ValueFact {
    Any,
    Only(Tensor),
}

/// What inference knows of one tensor.
#[derive(Debug)]
pub struct InferenceFact {
    pub datum_type: TypeFact,
    pub shape: ShapeFact,
    pub value: ValueFact,
}

/// An inference fact as contracts speak of it. `None` stands for unknown.
pub struct InferenceFactView {
    pub datum_type: TypeFact,
    pub shape: Option<Seq<DimFact>>,
    pub value: Option<TensorView>,
}

impl TypeFact {
    /// The merge of two type facts, or `None` where they contradict.
    pub open spec fn unify_spec(self, other: TypeFact) -> Option<TypeFact> {
        match (self, other) {
            (TypeFact::Any, _) => Some(other),
            (_, TypeFact::Any) => Some(self),
            (TypeFact::Only(a), TypeFact::Only(b)) => if a == b {
                Some(self)
            } else {
                None
            },
        }
    }

    pub fn unify(&self, other: &TypeFact) -> (r: TractResult<TypeFact>)
        ensures
            r is Ok <==> self.unify_spec(*other) is Some,
            r matches Ok(t) ==> Some(t) == self.unify_spec(*other),
            r matches Err(e) ==> e.kind == ErrorKind::Unification,
    {
        match (self, other) {
            (TypeFact::Any, _) => Ok(*other),
            (_, TypeFact::Any) => Ok(*self),
            (TypeFact::Only(a), TypeFact::Only(b)) => if *a == *b {
                Ok(*self)
            } else {
                Err(TractError::new(ErrorKind::Unification, "two different datum types"))
            },
        }
    }

    pub fn is_concrete(&self) -> (b: bool)
        ensures
            b == (*self is Only),
    {
        match self {
            TypeFact::Any => false,
            TypeFact::Only(_) => true,
        }
    }
}

impl DimFact {
    /// The merge of two dimension facts, or `None` where they contradict.
    pub open spec fn unify_spec(self, other: DimFact) -> Option<DimFact> {
        match (self, other) {
            (DimFact::Any, _) => Some(other),
            (_, DimFact::Any) => Some(self),
            (DimFact::Only(a), DimFact::Only(b)) => if a == b {
                Some(self)
            } else {
                None
            },
        }
    }

    pub fn unify(&self, other: &DimFact) -> (r: TractResult<DimFact>)
        ensures
            r is Ok <==> self.unify_spec(*other) is Some,
            r matches Ok(t) ==> Some(t) == self.unify_spec(*other),
            r matches Err(e) ==> e.kind == ErrorKind::Unification,
    {
        match (self, other) {
            (DimFact::Any, _) => Ok(*other),
            (_, DimFact::Any) => Ok(*self),
            (DimFact::Only(a), DimFact::Only(b)) => if *a == *b {
                Ok(*self)
            } else {
                Err(TractError::new(ErrorKind::Unification, "two different dimensions"))
            },
        }
    }

    pub fn is_concrete(&self) -> (b: bool)
        ensures
            b == (*self is Only),
    {
        match self {
            DimFact::Any => false,
            DimFact::Only(_) => true,
        }
    }
}

/// Whether two lists of dimension facts can be merged: they have one length,
/// and no two dimensions at one place contradict.
pub open spec fn dims_compatible(a: Seq<DimFact>, b: Seq<DimFact>) -> bool {
    &&& a.len() == b.len()
    &&& forall|i: int| 0 <= i < a.len() ==> (#[trigger] a[i].unify_spec(b[i])) is Some
}

/// The merge of two lists of dimension facts, place by place.
pub open spec fn unify_dims(a: Seq<DimFact>, b: Seq<DimFact>) -> Option<Seq<DimFact>> {
    if dims_compatible(a, b) {
        Some(Seq::new(a.len(), |i: int| a[i].unify_spec(b[i]).unwrap()))
    } else {
        None
    }
}

/// The merge of two shape facts. The outer `None` is a contradiction, the
/// inner one an unknown rank.
pub open spec fn unify_shape(a: Option<Seq<DimFact>>, b: Option<Seq<DimFact>>) -> Option<
    Option<Seq<DimFact>>,
> {
    match (a, b) {
        (None, _) => Some(b),
        (_, None) => Some(a),
        (Some(x), Some(y)) => match unify_dims(x, y) {
            Some(d) => Some(Some(d)),
            None => None,
        },
    }
}

/// The merge of two value facts. The outer `None` is a contradiction, the
/// inner one an unknown value.
pub open spec fn unify_value(a: Option<TensorView>, b: Option<TensorView>) -> Option<
    Option<TensorView>,
> {
    match (a, b) {
        (None, _) => Some(b),
        (_, None) => Some(a),
        (Some(x), Some(y)) => if x == y {
            Some(a)
        } else {
            None
        },
    }
}

/// The merge of two facts about one tensor, field by field, or `None` where
/// any field contradicts.
pub open spec fn unify_fact(a: InferenceFactView, b: InferenceFactView) -> Option<
    InferenceFactView,
> {
    match (
        a.datum_type.unify_spec(b.datum_type),
        unify_shape(a.shape, b.shape),
        unify_value(a.value, b.value),
    ) {
        (Some(datum_type), Some(shape), Some(value)) => Some(
            InferenceFactView { datum_type, shape, value },
        ),
        _ => None,
    }
}

/// The fact that knows nothing.
pub open spec fn unknown_fact() -> InferenceFactView {
    InferenceFactView { datum_type: TypeFact::Any, shape: None, value: None }
}

/// `a` says all that `b` says, and contradicts none of it.
pub open spec fn refines(a: InferenceFactView, b: InferenceFactView) -> bool {
    unify_fact(a, b) == Some(a)
}

/// Merging with a second fact and then a third, or `None` at the first
/// contradiction.
pub open spec fn unify_then(ab: Option<InferenceFactView>, c: InferenceFactView) -> Option<
    InferenceFactView,
> {
    match ab {
        Some(x) => unify_fact(x, c),
        None => None,
    }
}

proof fn lemma_dims_commutative(a: Seq<DimFact>, b: Seq<DimFact>)
    ensures
        unify_dims(a, b) == unify_dims(b, a),
{
    if dims_compatible(a, b) {
        assert forall|i: int| 0 <= i < b.len() implies (#[trigger] b[i].unify_spec(a[i])) is Some by {
            assert(a[i].unify_spec(b[i]) is Some);
        }
        assert(unify_dims(a, b).unwrap() =~= unify_dims(b, a).unwrap()) by {
            assert forall|i: int| 0 <= i < a.len() implies a[i].unify_spec(b[i]) == b[i].unify_spec(
                a[i],
            ) by {
                assert(a[i].unify_spec(b[i]) is Some);
            }
        }
    } else if dims_compatible(b, a) {
        assert forall|i: int| 0 <= i < a.len() implies (#[trigger] a[i].unify_spec(b[i])) is Some by {
            assert(b[i].unify_spec(a[i]) is Some);
        }
    }
}

proof fn lemma_dims_idempotent(a: Seq<DimFact>)
    ensures
        unify_dims(a, a) == Some(a),
{
    assert(dims_compatible(a, a));
    assert(unify_dims(a, a).unwrap() =~= a);
}

spec fn dims_then(ab: Option<Seq<DimFact>>, c: Seq<DimFact>) -> Option<Seq<DimFact>> {
    match ab {
        Some(x) => unify_dims(x, c),
        None => None,
    }
}

spec fn dim_then(ab: Option<DimFact>, c: DimFact) -> Option<DimFact> {
    match ab {
        Some(x) => x.unify_spec(c),
        None => None,
    }
}

proof fn lemma_dim_associative(a: DimFact, b: DimFact, c: DimFact)
    ensures
        dim_then(a.unify_spec(b), c) == dim_then(b.unify_spec(c), a),
        dim_then(b.unify_spec(c), a) == match b.unify_spec(c) {
            Some(bc) => a.unify_spec(bc),
            None => None,
        },
{
}

proof fn lemma_dims_associative(a: Seq<DimFact>, b: Seq<DimFact>, c: Seq<DimFact>)
    ensures
        dims_then(unify_dims(a, b), c) == match unify_dims(b, c) {
            Some(bc) => unify_dims(a, bc),
            None => None,
        },
{
    let left = dims_then(unify_dims(a, b), c);
    let right = match unify_dims(b, c) {
        Some(bc) => unify_dims(a, bc),
        None => None,
    };
    if a.len() == b.len() && b.len() == c.len() {
        assert forall|i: int| 0 <= i < a.len() implies dim_then(a[i].unify_spec(b[i]), c[i])
            == match b[i].unify_spec(c[i]) {
            Some(bc) => a[i].unify_spec(bc),
            None => None,
        } by {
            lemma_dim_associative(a[i], b[i], c[i]);
        }
        if left is Some {
            let ab = unify_dims(a, b).unwrap();
            assert forall|i: int| 0 <= i < b.len() implies (#[trigger] b[i].unify_spec(c[i])) is Some by {
                assert(a[i].unify_spec(b[i]) is Some);
                assert(ab[i].unify_spec(c[i]) is Some);
            }
            let bc = unify_dims(b, c).unwrap();
            assert forall|i: int| 0 <= i < a.len() implies (#[trigger] a[i].unify_spec(bc[i])) is Some by {
                assert(a[i].unify_spec(b[i]) is Some);
                assert(ab[i].unify_spec(c[i]) is Some);
                assert(b[i].unify_spec(c[i]) is Some);
            }
            assert(left.unwrap() =~= right.unwrap()) by {
                assert forall|i: int| 0 <= i < a.len() implies left.unwrap()[i] == right.unwrap()[i] by {
                    assert(a[i].unify_spec(b[i]) is Some);
                    assert(ab[i].unify_spec(c[i]) is Some);
                    assert(b[i].unify_spec(c[i]) is Some);
                    assert(a[i].unify_spec(bc[i]) is Some);
                }
            }
        } else if right is Some {
            let bc = unify_dims(b, c).unwrap();
            assert forall|i: int| 0 <= i < a.len() implies (#[trigger] a[i].unify_spec(b[i])) is Some by {
                assert(b[i].unify_spec(c[i]) is Some);
                assert(a[i].unify_spec(bc[i]) is Some);
            }
            let ab = unify_dims(a, b).unwrap();
            assert forall|i: int| 0 <= i < a.len() implies (#[trigger] ab[i].unify_spec(c[i])) is Some by {
                assert(b[i].unify_spec(c[i]) is Some);
                assert(a[i].unify_spec(bc[i]) is Some);
                assert(a[i].unify_spec(b[i]) is Some);
            }
            assert(false);
        }
    }
}

/// Merging two facts gives the same result in either order.
pub proof fn lemma_unify_commutative(a: InferenceFactView, b: InferenceFactView)
    ensures
        unify_fact(a, b) == unify_fact(b, a),
{
    if a.shape is Some && b.shape is Some {
        lemma_dims_commutative(a.shape.unwrap(), b.shape.unwrap());
    }
}

/// Merging three facts gives the same result however they are grouped, a
/// contradiction included.
pub proof fn lemma_unify_associative(
    a: InferenceFactView,
    b: InferenceFactView,
    c: InferenceFactView,
)
    ensures
        unify_then(unify_fact(a, b), c) == match unify_fact(b, c) {
            Some(bc) => unify_fact(a, bc),
            None => None,
        },
{
    if a.shape is Some && b.shape is Some && c.shape is Some {
        lemma_dims_associative(a.shape.unwrap(), b.shape.unwrap(), c.shape.unwrap());
    }
}

/// Merging a fact with itself gives the fact.
pub proof fn lemma_unify_idempotent(a: InferenceFactView)
    ensures
        unify_fact(a, a) == Some(a),
{
    if a.shape is Some {
        lemma_dims_idempotent(a.shape.unwrap());
    }
}

/// Merging the fact that knows nothing with `x` gives `x`, on either side.
pub proof fn lemma_unify_unknown(x: InferenceFactView)
    ensures
        unify_fact(unknown_fact(), x) == Some(x),
        unify_fact(x, unknown_fact()) == Some(x),
{
}

/// Two facts that know different values, different types, or different sizes
/// of one dimension, do not merge.
pub proof fn lemma_unify_distinct_fails(a: InferenceFactView, b: InferenceFactView)
    requires
        ({
            ||| (a.value is Some && b.value is Some && a.value != b.value)
            ||| (a.datum_type is Only && b.datum_type is Only && a.datum_type != b.datum_type)
            ||| (a.shape is Some && b.shape is Some && a.shape.unwrap().len()
                != b.shape.unwrap().len())
            ||| (a.shape is Some && b.shape is Some && exists|i: int|
                0 <= i < a.shape.unwrap().len() && i < b.shape.unwrap().len()
                    && (#[trigger] a.shape.unwrap()[i]) is Only && b.shape.unwrap()[i] is Only
                    && a.shape.unwrap()[i] != b.shape.unwrap()[i])
        }),
    ensures
        unify_fact(a, b) is None,
{
    if a.shape is Some && b.shape is Some {
        let x = a.shape.unwrap();
        let y = b.shape.unwrap();
        if dims_compatible(x, y) {
            if exists|i: int|
                0 <= i < x.len() && i < y.len() && (#[trigger] x[i]) is Only && y[i] is Only && x[i]
                    != y[i] {
                let i = choose|i: int|
                    0 <= i < x.len() && i < y.len() && (#[trigger] x[i]) is Only && y[i] is Only
                        && x[i] != y[i];
                assert(x[i].unify_spec(y[i]) is Some);
            }
        }
    }
}

/// What two facts merge into says all that either of them says.
pub proof fn lemma_unify_refines(a: InferenceFactView, b: InferenceFactView)
    requires
        unify_fact(a, b) is Some,
    ensures
        refines(unify_fact(a, b).unwrap(), a),
        refines(unify_fact(a, b).unwrap(), b),
{
    let m = unify_fact(a, b).unwrap();
    lemma_unify_idempotent(a);
    lemma_unify_idempotent(b);
    lemma_unify_commutative(a, b);
    lemma_unify_associative(b, a, a);
    lemma_unify_associative(a, b, b);
    // (b ∪ a) ∪ a == b ∪ (a ∪ a) == b ∪ a, and likewise on the other side
    assert(unify_fact(m, a) == Some(m));
    assert(unify_fact(m, b) == Some(m));
}

impl View for ShapeFact {
    type V = Option<Seq<DimFact>>;

    open spec fn view(&self) -> Option<Seq<DimFact>> {
        match self {
            ShapeFact::Any => None,
            ShapeFact::Only(dims) => Some(dims@),
        }
    }
}

impl View for ValueFact {
    type V = Option<TensorView>;

    open spec fn view(&self) -> Option<TensorView> {
        match self {
            ValueFact::Any => None,
            ValueFact::Only(t) => Some(t@),
        }
    }
}

impl View for InferenceFact {
    type V = InferenceFactView;

    open spec fn view(&self) -> InferenceFactView {
        InferenceFactView { datum_type: self.datum_type, shape: self.shape@, value: self.value@ }
    }
}

/// A copy of a list of dimension facts.
pub fn copy_dim_facts(dims: &Vec<DimFact>) -> (r: Vec<DimFact>)
    ensures
        r@ == dims@,
{
    let mut out: Vec<DimFact> = Vec::new();
    let mut i: usize = 0;
    while i < dims.len()
        invariant
            i <= dims.len(),
            out@ == dims@.take(i as int),
        decreases dims.len() - i,
    {
        out.push(dims[i]);
        assert(dims@.take(i + 1) =~= dims@.take(i as int).push(dims@[i as int]));
        i += 1;
    }
    assert(dims@.take(i as int) =~= dims@);
    out
}

fn unify_dim_lists(a: &Vec<DimFact>, b: &Vec<DimFact>) -> (r: TractResult<Vec<DimFact>>)
    ensures
        r is Ok <==> unify_dims(a@, b@) is Some,
        r matches Ok(d) ==> Some(d@) == unify_dims(a@, b@),
        r matches Err(e) ==> e.kind == ErrorKind::Unification,
{
    if a.len() != b.len() {
        return Err(TractError::new(ErrorKind::Unification, "two different ranks"));
    }
    let mut out: Vec<DimFact> = Vec::new();
    let mut i: usize = 0;
    while i < a.len()
        invariant
            i <= a.len(),
            a.len() == b.len(),
            out@.len() == i,
            forall|j: int| 0 <= j < i ==> (#[trigger] a@[j].unify_spec(b@[j])) == Some(out@[j]),
        decreases a.len() - i,
    {
        match a[i].unify(&b[i]) {
            Ok(d) => {
                out.push(d);
            },
            Err(e) => {
                let mut context = text_of("unification error on axis ");
                append_decimal(&mut context, i);
                assert(a@[i as int].unify_spec(b@[i as int]) is None);
                return Err(e.chain_err(context));
            },
        }
        i += 1;
    }
    assert(dims_compatible(a@, b@));
    assert(out@ =~= unify_dims(a@, b@).unwrap());
    Ok(out)
}

impl Clone for ShapeFact {
    fn clone(&self) -> (r: ShapeFact)
        ensures
            r@ == self@,
    {
        match self {
            ShapeFact::Any => ShapeFact::Any,
            ShapeFact::Only(dims) => ShapeFact::Only(copy_dim_facts(dims)),
        }
    }
}

impl ShapeFact {
    /// The shape fact that knows the rank and every size.
    pub fn from_sizes(sizes: &Vec<usize>) -> (r: ShapeFact)
        ensures
            r@ == Some(Seq::new(sizes@.len(), |i: int| DimFact::Only(Dim::Val(sizes@[i])))),
    {
        let mut out: Vec<DimFact> = Vec::new();
        let mut i: usize = 0;
        while i < sizes.len()
            invariant
                i <= sizes.len(),
                out@.len() == i,
                forall|j: int| 0 <= j < i ==> out@[j] == DimFact::Only(Dim::Val(sizes@[j])),
            decreases sizes.len() - i,
        {
            out.push(DimFact::Only(Dim::Val(sizes[i])));
            i += 1;
        }
        assert(out@ =~= Seq::new(sizes@.len(), |i: int| DimFact::Only(Dim::Val(sizes@[i]))));
        ShapeFact::Only(out)
    }

    /// The shape fact that knows the rank and every dimension.
    pub fn from_dims(dims: &Vec<Dim>) -> (r: ShapeFact)
        ensures
            r@ == Some(Seq::new(dims@.len(), |i: int| DimFact::Only(dims@[i]))),
    {
        let mut out: Vec<DimFact> = Vec::new();
        let mut i: usize = 0;
        while i < dims.len()
            invariant
                i <= dims.len(),
                out@.len() == i,
                forall|j: int| 0 <= j < i ==> out@[j] == DimFact::Only(dims@[j]),
            decreases dims.len() - i,
        {
            out.push(DimFact::Only(dims[i]));
            i += 1;
        }
        assert(out@ =~= Seq::new(dims@.len(), |i: int| DimFact::Only(dims@[i])));
        ShapeFact::Only(out)
    }

    /// The shape fact that knows the rank and no size.
    pub fn of_rank(rank: usize) -> (r: ShapeFact)
        ensures
            r@ == Some(Seq::new(rank as nat, |i: int| DimFact::Any)),
    {
        let mut out: Vec<DimFact> = Vec::new();
        let mut i: usize = 0;
        while i < rank
            invariant
                i <= rank,
                out@.len() == i,
                forall|j: int| 0 <= j < i ==> out@[j] == DimFact::Any,
            decreases rank - i,
        {
            out.push(DimFact::Any);
            i += 1;
        }
        assert(out@ =~= Seq::new(rank as nat, |i: int| DimFact::Any));
        ShapeFact::Only(out)
    }

    pub fn unify(&self, other: &ShapeFact) -> (r: TractResult<ShapeFact>)
        ensures
            r is Ok <==> unify_shape(self@, other@) is Some,
            r matches Ok(s) ==> Some(s@) == unify_shape(self@, other@),
            r matches Err(e) ==> e.kind == ErrorKind::Unification,
    {
        match (self, other) {
            (ShapeFact::Any, _) => Ok(other.clone()),
            (_, ShapeFact::Any) => Ok(self.clone()),
            (ShapeFact::Only(a), ShapeFact::Only(b)) => {
                match unify_dim_lists(a, b) {
                    Ok(d) => Ok(ShapeFact::Only(d)),
                    Err(e) => Err(e),
                }
            },
        }
    }

    /// The rank, where it is known.
    pub fn rank(&self) -> (r: Option<usize>)
        ensures
            r is Some <==> self@ is Some,
            r matches Some(n) ==> n == self@.unwrap().len(),
    {
        match self {
            ShapeFact::Any => None,
            ShapeFact::Only(dims) => Some(dims.len()),
        }
    }

    /// The dimensions, where the rank and every dimension are known.
    pub fn concretize(&self) -> (r: Option<Vec<Dim>>)
        ensures
            r is Some <==> shape_is_concrete(self@),
            r matches Some(d) ==> d@ == concrete_dims(self@.unwrap()),
    {
        match self {
            ShapeFact::Any => None,
            ShapeFact::Only(dims) => {
                let mut out: Vec<Dim> = Vec::new();
                let mut i: usize = 0;
                while i < dims.len()
                    invariant
                        i <= dims.len(),
                        out@.len() == i,
                        self@ == Some(dims@),
                        forall|j: int| 0 <= j < i ==> (#[trigger] dims@[j]) == DimFact::Only(out@[j]),
                    decreases dims.len() - i,
                {
                    match dims[i] {
                        DimFact::Any => {
                            return None;
                        },
                        DimFact::Only(d) => {
                            out.push(d);
                        },
                    }
                    i += 1;
                }
                assert(out@ =~= concrete_dims(dims@));
                Some(out)
            },
        }
    }
}

/// Whether the rank and every dimension of a shape fact are known.
pub open spec fn shape_is_concrete(shape: Option<Seq<DimFact>>) -> bool {
    match shape {
        Some(dims) => forall|i: int| 0 <= i < dims.len() ==> (#[trigger] dims[i]) is Only,
        None => false,
    }
}

/// The dimensions that a list of dimension facts knows.
pub open spec fn concrete_dims(dims: Seq<DimFact>) -> Seq<Dim> {
    Seq::new(dims.len(), |i: int| dims[i]->Only_0)
}

impl Clone for ValueFact {
    fn clone(&self) -> (r: ValueFact)
        ensures
            r@ == self@,
    {
        match self {
            ValueFact::Any => ValueFact::Any,
            ValueFact::Only(t) => ValueFact::Only(t.clone()),
        }
    }
}

impl ValueFact {
    pub fn unify(&self, other: &ValueFact) -> (r: TractResult<ValueFact>)
        ensures
            r is Ok <==> unify_value(self@, other@) is Some,
            r matches Ok(v) ==> Some(v@) == unify_value(self@, other@),
            r matches Err(e) ==> e.kind == ErrorKind::Unification,
    {
        match (self, other) {
            (ValueFact::Any, _) => Ok(other.clone()),
            (_, ValueFact::Any) => Ok(self.clone()),
            (ValueFact::Only(a), ValueFact::Only(b)) => if a.same(b) {
                Ok(self.clone())
            } else {
                Err(TractError::new(ErrorKind::Unification, "two different values"))
            },
        }
    }

    pub fn is_concrete(&self) -> (b: bool)
        ensures
            b == (self@ is Some),
    {
        match self {
            ValueFact::Any => false,
            ValueFact::Only(_) => true,
        }
    }

    /// The value, where it is known.
    pub fn concretize(&self) -> (r: Option<&Tensor>)
        ensures
            r is Some <==> self@ is Some,
            r matches Some(t) ==> Some(t@) == self@,
    {
        match self {
            ValueFact::Any => None,
            ValueFact::Only(t) => Some(t),
        }
    }
}

impl Clone for InferenceFact {
    fn clone(&self) -> (r: InferenceFact)
        ensures
            r@ == self@,
    {
        InferenceFact {
            datum_type: self.datum_type,
            shape: self.shape.clone(),
            value: self.value.clone(),
        }
    }
}

/// Whether two lists of dimension facts are the same.
pub fn same_dim_facts(a: &Vec<DimFact>, b: &Vec<DimFact>) -> (r: bool)
    ensures
        r == (a@ == b@),
{
    if a.len() != b.len() {
        return false;
    }
    let mut i: usize = 0;
    while i < a.len()
        invariant
            i <= a.len(),
            a.len() == b.len(),
            forall|j: int| 0 <= j < i ==> a@[j] == b@[j],
        decreases a.len() - i,
    {
        if a[i] != b[i] {
            return false;
        }
        i += 1;
    }
    assert(a@ =~= b@);
    true
}

impl ShapeFact {
    /// Whether two shape facts know the same.
    pub fn same(&self, other: &ShapeFact) -> (r: bool)
        ensures
            r == (self@ == other@),
    {
        match (self, other) {
            (ShapeFact::Any, ShapeFact::Any) => true,
            (ShapeFact::Only(a), ShapeFact::Only(b)) => same_dim_facts(a, b),
            _ => false,
        }
    }
}

impl ValueFact {
    /// Whether two value facts know the same.
    pub fn same(&self, other: &ValueFact) -> (r: bool)
        ensures
            r == (self@ == other@),
    {
        match (self, other) {
            (ValueFact::Any, ValueFact::Any) => true,
            (ValueFact::Only(a), ValueFact::Only(b)) => a.same(b),
            _ => false,
        }
    }
}

impl InferenceFact {
    /// Whether two facts know the same.
    pub fn same(&self, other: &InferenceFact) -> (r: bool)
        ensures
            r == (self@ == other@),
    {
        self.datum_type == other.datum_type && self.shape.same(&other.shape) && self.value.same(
            &other.value,
        )
    }

    /// The fact that knows nothing.
    pub fn new() -> (r: InferenceFact)
        ensures
            r@ == unknown_fact(),
    {
        InferenceFact { datum_type: TypeFact::Any, shape: ShapeFact::Any, value: ValueFact::Any }
    }

    /// The fact that knows the type and every size, and no value.
    pub fn dt_shape(datum_type: DatumType, sizes: &Vec<usize>) -> (r: InferenceFact)
        ensures
            r@ == (InferenceFactView {
                datum_type: TypeFact::Only(datum_type),
                shape: Some(Seq::new(sizes@.len(), |i: int| DimFact::Only(Dim::Val(sizes@[i])))),
                value: None,
            }),
    {
        InferenceFact {
            datum_type: TypeFact::Only(datum_type),
            shape: ShapeFact::from_sizes(sizes),
            value: ValueFact::Any,
        }
    }

    /// The fact that knows all of a tensor: its type, its shape, its value.
    pub fn from_tensor(t: Tensor) -> (r: InferenceFact)
        ensures
            r@ == fact_of_tensor(t@),
    {
        let datum_type = TypeFact::Only(t.datum_type());
        let shape = ShapeFact::from_sizes(t.shape());
        InferenceFact { datum_type, shape, value: ValueFact::Only(t) }
    }

    /// Merges what two facts know of one tensor. Fails with a unification
    /// error exactly where they contradict.
    pub fn unify(&self, other: &InferenceFact) -> (r: TractResult<InferenceFact>)
        ensures
            r is Ok <==> unify_fact(self@, other@) is Some,
            r matches Ok(f) ==> Some(f@) == unify_fact(self@, other@),
            r matches Err(e) ==> e.kind == ErrorKind::Unification,
    {
        let datum_type = match self.datum_type.unify(&other.datum_type) {
            Ok(t) => t,
            Err(e) => {
                return Err(e);
            },
        };
        let shape = match self.shape.unify(&other.shape) {
            Ok(s) => s,
            Err(e) => {
                return Err(e);
            },
        };
        let value = match self.value.unify(&other.value) {
            Ok(v) => v,
            Err(e) => {
                return Err(e);
            },
        };
        Ok(InferenceFact { datum_type, shape, value })
    }
}

/// The fact that knows all of the tensor `t`.
pub open spec fn fact_of_tensor(t: TensorView) -> InferenceFactView {
    InferenceFactView {
        datum_type: TypeFact::Only(t.datum_type),
        shape: Some(Seq::new(t.shape.len(), |i: int| DimFact::Only(Dim::Val(t.shape[i])))),
        value: Some(t),
    }
}

/// The number of streaming dimensions among `dims`.
pub open spec fn stream_count(dims: Seq<Dim>) -> nat
    decreases dims.len(),
{
    if dims.len() == 0 {
        0
    } else {
        stream_count(dims.drop_last()) + if dims.last() is Stream {
            1nat
        } else {
            0nat
        }
    }
}

/// What is known of a tensor once nothing is left open: its type, its shape,
/// of which at most one dimension is the streaming one, and its value where
/// it is a constant.
#[derive(Debug)]
pub struct TypedFact {
    pub datum_type: DatumType,
    pub shape: Vec<Dim>,
    pub konst: Option<Tensor>,
}

/// A resolved fact as contracts speak of it.
pub struct TypedFactView {
    pub datum_type: DatumType,
    pub shape: Seq<Dim>,
    pub konst: Option<TensorView>,
}

impl View for TypedFact {
    type V = TypedFactView;

    open spec fn view(&self) -> TypedFactView {
        TypedFactView {
            datum_type: self.datum_type,
            shape: self.shape@,
            konst: match self.konst {
                Some(t) => Some(t@),
                None => None,
            },
        }
    }
}

impl TypedFactView {
    /// Whether the fact is one that a resolved model may hold: at most one
    /// dimension of its shape is the streaming one.
    pub open spec fn valid(self) -> bool {
        stream_count(self.shape) <= 1
    }
}

/// A copy of a list of dimensions.
pub fn copy_dims(dims: &Vec<Dim>) -> (r: Vec<Dim>)
    ensures
        r@ == dims@,
{
    let mut out: Vec<Dim> = Vec::new();
    let mut i: usize = 0;
    while i < dims.len()
        invariant
            i <= dims.len(),
            out@ == dims@.take(i as int),
        decreases dims.len() - i,
    {
        out.push(dims[i]);
        assert(dims@.take(i + 1) =~= dims@.take(i as int).push(dims@[i as int]));
        i += 1;
    }
    assert(dims@.take(i as int) =~= dims@);
    out
}

impl Clone for TypedFact {
    fn clone(&self) -> (r: TypedFact)
        ensures
            r@ == self@,
    {
        TypedFact {
            datum_type: self.datum_type,
            shape: copy_dims(&self.shape),
            konst: match &self.konst {
                Some(t) => Some(t.clone()),
                None => None,
            },
        }
    }
}

impl TypedFact {
    /// Whether at most one dimension of the shape is the streaming one.
    pub open spec fn wf(&self) -> bool {
        self@.valid()
    }

    /// The fact of a tensor of the given type and shape that is no constant.
    /// It is refused where more than one dimension is the streaming one.
    pub fn dt_shape(datum_type: DatumType, shape: Vec<Dim>) -> (r: TractResult<TypedFact>)
        ensures
            r is Ok <==> (TypedFactView { datum_type, shape: shape@, konst: None }).valid(),
            r matches Ok(f) ==> f.wf() && f@ == (TypedFactView {
                datum_type,
                shape: shape@,
                konst: None,
            }),
            r matches Err(e) ==> e.kind == ErrorKind::InvariantViolation,
    {
        let mut streams: usize = 0;
        let mut i: usize = 0;
        while i < shape.len()
            invariant
                i <= shape.len(),
                streams == stream_count(shape@.take(i as int)),
                streams <= i,
            decreases shape.len() - i,
        {
            assert(shape@.take(i + 1).drop_last() =~= shape@.take(i as int));
            if shape[i].is_stream() {
                streams += 1;
            }
            i += 1;
        }
        assert(shape@.take(i as int) =~= shape@);
        if streams <= 1 {
            Ok(TypedFact { datum_type, shape, konst: None })
        } else {
            Err(TractError::new(ErrorKind::InvariantViolation, "more than one streaming dimension"))
        }
    }

    pub fn rank(&self) -> (r: usize)
        ensures
            r == self@.shape.len(),
    {
        self.shape.len()
    }

    /// The resolved fact of a tensor of which inference knows the type and
    /// every dimension. It is refused where the type, the rank or a
    /// dimension is unknown, and where more than one dimension is the
    /// streaming one.
    pub fn from_inference(fact: &InferenceFact) -> (r: TractResult<TypedFact>)
        ensures
            r is Ok <==> fact@.datum_type is Only && shape_is_concrete(fact@.shape) && stream_count(
                concrete_dims(fact@.shape.unwrap()),
            ) <= 1,
            r matches Ok(f) ==> f.wf() && f@ == (TypedFactView {
                datum_type: fact@.datum_type->Only_0,
                shape: concrete_dims(fact@.shape.unwrap()),
                konst: fact@.value,
            }),
            r matches Err(e) ==> e.kind == ErrorKind::LoweringUnsupported,
    {
        let datum_type = match fact.datum_type {
            TypeFact::Only(dt) => dt,
            TypeFact::Any => {
                return Err(
                    TractError::new(ErrorKind::LoweringUnsupported, "the datum type is not known"),
                );
            },
        };
        let shape = match fact.shape.concretize() {
            Some(shape) => shape,
            None => {
                return Err(TractError::new(ErrorKind::LoweringUnsupported, "the shape is not known"));
            },
        };
        match TypedFact::dt_shape(datum_type, shape) {
            Ok(f) => {
                let konst = match fact.value.concretize() {
                    Some(t) => Some(t.clone()),
                    None => None,
                };
                Ok(TypedFact { datum_type: f.datum_type, shape: f.shape, konst })
            },
            Err(_) => Err(
                TractError::new(ErrorKind::LoweringUnsupported, "more than one streaming dimension"),
            ),
        }
    }
}

/// What is known of a tensor that is streamed in pulses: the type and shape
/// of one pulse, the axis that is streamed, the full streaming dimension,
/// and by how many steps the stream is delayed.
#[derive(Debug)]
pub struct PulsedFact {
    pub datum_type: DatumType,
    pub shape: Vec<usize>,
    pub axis: usize,
    pub dim: Dim,
    pub delay: usize,
}

/// A pulsed fact as contracts speak of it.
pub struct PulsedFactView {
    pub datum_type: DatumType,
    pub shape: Seq<usize>,
    pub axis: usize,
    pub dim: Dim,
    pub delay: usize,
}

impl View for PulsedFact {
    type V = PulsedFactView;

    open spec fn view(&self) -> PulsedFactView {
        PulsedFactView {
            datum_type: self.datum_type,
            shape: self.shape@,
            axis: self.axis,
            dim: self.dim,
            delay: self.delay,
        }
    }
}

impl Clone for PulsedFact {
    fn clone(&self) -> (r: PulsedFact)
        ensures
            r@ == self@,
    {
        let shape = self.shape.clone();
        assert(shape@ =~= self.shape@);
        PulsedFact {
            datum_type: self.datum_type,
            shape,
            axis: self.axis,
            dim: self.dim,
            delay: self.delay,
        }
    }
}

impl PulsedFact {
    /// The length of one pulse: the size of the streamed axis.
    pub fn pulse(&self) -> (r: Option<usize>)
        ensures
            r == if self.axis < self.shape@.len() {
                Some(self.shape@[self.axis as int])
            } else {
                None
            },
    {
        if self.axis < self.shape.len() {
            Some(self.shape[self.axis])
        } else {
            None
        }
    }
}

} // verus!
