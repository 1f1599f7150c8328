//! Concrete tensor values: a datum type, a shape, and one word per element.
use vstd::prelude::*;
use crate::datum::DatumType;
use crate::error::{ErrorKind, TractError};

verus! {

/// The number of elements of a tensor of the given shape.
pub open spec fn volume(shape: Seq<usize>) -> nat
    decreases shape.len(),
{
    if shape.len() == 0 {
        1
    } else {
        volume(shape.drop_last()) * (shape.last() as nat)
    }
}

/// The volume of two shapes put end to end is the product of their volumes.
pub proof fn lemma_volume_concat(a: Seq<usize>, b: Seq<usize>)
    ensures
        volume(a + b) == volume(a) * volume(b),
    decreases b.len(),
{
    if b.len() == 0 {
        assert(a + b =~= a);
        assert(volume(a) * 1 == volume(a)) by (nonlinear_arith);
    } else {
        assert((a + b).drop_last() =~= a + b.drop_last());
        assert((a + b).last() == b.last());
        lemma_volume_concat(a, b.drop_last());
        let x = volume(a) as int;
        let y = volume(b.drop_last()) as int;
        let z = b.last() as int;
        assert((x * y) * z == x * (y * z)) by (nonlinear_arith);
        assert(volume(a + b) == volume(a + b.drop_last()) * (b.last() as nat));
    }
}

/// A shape with an empty axis holds no element.
pub proof fn lemma_volume_zero(shape: Seq<usize>, axis: int)
    requires
        0 <= axis < shape.len(),
        shape[axis] == 0,
    ensures
        volume(shape) == 0,
    decreases shape.len(),
{
    if axis == shape.len() - 1 {
        assert(volume(shape.drop_last()) * 0 == 0) by (nonlinear_arith);
    } else {
        lemma_volume_zero(shape.drop_last(), axis);
        assert(0 * (shape.last() as nat) == 0) by (nonlinear_arith);
    }
}

/// Without an empty axis, no leading part of a shape is larger than the whole.
pub proof fn lemma_volume_prefix(shape: Seq<usize>, k: int)
    requires
        0 <= k <= shape.len(),
        forall|i: int| 0 <= i < shape.len() ==> shape[i] >= 1,
    ensures
        1 <= volume(shape.take(k)) <= volume(shape),
    decreases shape.len() - k,
{
    if k == shape.len() {
        assert(shape.take(k) =~= shape);
        lemma_volume_positive(shape);
    } else {
        lemma_volume_prefix(shape, k + 1);
        assert(shape.take(k + 1).drop_last() =~= shape.take(k));
        lemma_volume_positive(shape.take(k));
        let v = volume(shape.take(k)) as int;
        let d = shape[k] as int;
        assert(v <= v * d) by (nonlinear_arith)
            requires
                v >= 1,
                d >= 1,
        ;
    }
}

/// Without an empty axis, a shape holds at least one element.
pub proof fn lemma_volume_positive(shape: Seq<usize>)
    requires
        forall|i: int| 0 <= i < shape.len() ==> shape[i] >= 1,
    ensures
        volume(shape) >= 1,
    decreases shape.len(),
{
    if shape.len() > 0 {
        lemma_volume_positive(shape.drop_last());
        let v = volume(shape.drop_last()) as int;
        let d = shape.last() as int;
        assert(v * d >= 1) by (nonlinear_arith)
            requires
                v >= 1,
                d >= 1,
        ;
    }
}

/// Removing an axis of size one keeps the volume.
pub proof fn lemma_volume_remove_unit(shape: Seq<usize>, axis: int)
    requires
        0 <= axis < shape.len(),
        shape[axis] == 1,
    ensures
        volume(shape.remove(axis)) == volume(shape),
{
    let head = shape.take(axis);
    let tail = shape.skip(axis + 1);
    let unit = seq![1usize];
    assert(shape =~= head + unit + tail);
    assert(shape.remove(axis) =~= head + tail);
    lemma_volume_concat(head, unit);
    lemma_volume_concat(head + unit, tail);
    lemma_volume_concat(head, tail);
    assert(unit.drop_last() =~= Seq::<usize>::empty());
    assert(volume(unit) == 1) by {
        reveal_with_fuel(volume, 2);
    }
    assert(volume(head) * 1 == volume(head)) by (nonlinear_arith);
}

/// Inserting an axis of size one keeps the volume.
pub proof fn lemma_volume_insert_unit(shape: Seq<usize>, axis: int)
    requires
        0 <= axis <= shape.len(),
    ensures
        volume(shape.insert(axis, 1usize)) == volume(shape),
{
    let longer = shape.insert(axis, 1usize);
    assert(longer.remove(axis) =~= shape);
    lemma_volume_remove_unit(longer, axis);
}

/// The number of elements of a tensor of shape `shape`, or `None` where it
/// does not fit a `usize`.
pub fn shape_volume(shape: &Vec<usize>) -> (r: Option<usize>)
    ensures
        match r {
            Some(v) => v == volume(shape@),
            None => volume(shape@) > usize::MAX,
        },
{
    let mut z: usize = 0;
    while z < shape.len()
        invariant
            z <= shape.len(),
            forall|i: int| 0 <= i < z ==> shape@[i] >= 1,
        decreases shape.len() - z,
    {
        if shape[z] == 0 {
            proof {
                lemma_volume_zero(shape@, z as int);
            }
            return Some(0);
        }
        z += 1;
    }
    let mut acc: usize = 1;
    let mut k: usize = 0;
    while k < shape.len()
        invariant
            k <= shape.len(),
            forall|i: int| 0 <= i < shape.len() ==> shape@[i] >= 1,
            acc == volume(shape@.take(k as int)),
        decreases shape.len() - k,
    {
        proof {
            assert(shape@.take(k + 1).drop_last() =~= shape@.take(k as int));
            lemma_volume_prefix(shape@, k + 1);
        }
        match acc.checked_mul(shape[k]) {
            Some(v) => {
                acc = v;
            },
            None => {
                return None;
            },
        }
        k += 1;
    }
    assert(shape@.take(k as int) =~= shape@);
    Some(acc)
}

/// A tensor as contracts speak of it.
pub struct TensorView {
    pub datum_type: DatumType,
    pub shape: Seq<usize>,
    pub data: Seq<u64>,
}

impl TensorView {
    /// There is one word of data for each element.
    pub open spec fn wf(self) -> bool {
        self.data.len() == volume(self.shape)
    }
}

/// A tensor value: the type of its elements, its shape, and the elements in
/// row-major order, one 64-bit word each.
#[derive(Debug)]
pub struct Tensor {
    dt: DatumType,
    shape: Vec<usize>,
    data: Vec<u64>,
}

impl View for Tensor {
    type V = TensorView;

    closed spec fn view(&self) -> TensorView {
        TensorView { datum_type: self.dt, shape: self.shape@, data: self.data@ }
    }
}

impl Clone for Tensor {
    fn clone(&self) -> (r: Tensor)
        ensures
            r@ == self@,
    {
        proof {
            use_type_invariant(self);
        }
        let shape = self.shape.clone();
        let data = self.data.clone();
        assert(shape@ =~= self.shape@);
        assert(data@ =~= self.data@);
        Tensor { dt: self.dt, shape, data }
    }
}

/// Whether two lists of sizes are the same.
pub fn same_sizes(a: &Vec<usize>, b: &Vec<usize>) -> (r: bool)
    ensures
        r == (a@ == b@),
{
    if a.len() != b.len() {
        return false;
    }
    let mut i: usize = 0;
    while i < a.len()
        invariant
            i <= a.len(),
            a.len() == b.len(),
            forall|j: int| 0 <= j < i ==> a@[j] == b@[j],
        decreases a.len() - i,
    {
        if a[i] != b[i] {
            return false;
        }
        i += 1;
    }
    assert(a@ =~= b@);
    true
}

fn same_words(a: &Vec<u64>, b: &Vec<u64>) -> (r: bool)
    ensures
        r == (a@ == b@),
{
    if a.len() != b.len() {
        return false;
    }
    let mut i: usize = 0;
    while i < a.len()
        invariant
            i <= a.len(),
            a.len() == b.len(),
            forall|j: int| 0 <= j < i ==> a@[j] == b@[j],
        decreases a.len() - i,
    {
        if a[i] != b[i] {
            return false;
        }
        i += 1;
    }
    assert(a@ =~= b@);
    true
}

impl Tensor {
    #[verifier::type_invariant]
    spec fn inv(self) -> bool {
        self.data@.len() == volume(self.shape@)
    }

    /// A tensor of the given type and shape over the given elements. It is
    /// refused where the shape asks for another number of elements.
    pub fn new(datum_type: DatumType, shape: Vec<usize>, data: Vec<u64>) -> (r: Result<
        Tensor,
        TractError,
    >)
        ensures
            r is Ok <==> volume(shape@) == data@.len(),
            r matches Ok(t) ==> t@ == (TensorView { datum_type, shape: shape@, data: data@ }),
            r matches Err(e) ==> e.kind == ErrorKind::Evaluation,
    {
        let n = data.len();
        match shape_volume(&shape) {
            Some(v) => {
                if v == n {
                    return Ok(Tensor { dt: datum_type, shape, data });
                }
            },
            None => {},
        }
        Err(TractError::new(ErrorKind::Evaluation, "shape and data do not agree"))
    }

    pub fn datum_type(&self) -> (dt: DatumType)
        ensures
            dt == self@.datum_type,
    {
        self.dt
    }

    pub fn shape(&self) -> (s: &Vec<usize>)
        ensures
            s@ == self@.shape,
            self@.wf(),
    {
        proof {
            use_type_invariant(self);
        }
        &self.shape
    }

    pub fn data(&self) -> (d: &Vec<u64>)
        ensures
            d@ == self@.data,
            self@.wf(),
    {
        proof {
            use_type_invariant(self);
        }
        &self.data
    }

    pub fn rank(&self) -> (r: usize)
        ensures
            r == self@.shape.len(),
    {
        self.shape.len()
    }

    /// Whether two tensors have the same type, shape and elements.
    pub fn same(&self, other: &Tensor) -> (r: bool)
        ensures
            r == (self@ == other@),
    {
        self.dt == other.dt && same_sizes(&self.shape, &other.shape) && same_words(
            &self.data,
            &other.data,
        )
    }

    /// The same elements under another shape. It is refused where the new
    /// shape holds another number of elements.
    pub fn into_shape(self, shape: &Vec<usize>) -> (r: Result<Tensor, TractError>)
        ensures
            self@.wf(),
            r is Ok <==> volume(shape@) == volume(self@.shape),
            r matches Ok(t) ==> t@ == (TensorView {
                datum_type: self@.datum_type,
                shape: shape@,
                data: self@.data,
            }),
            r matches Err(e) ==> e.kind == ErrorKind::Evaluation,
    {
        proof {
            use_type_invariant(&self);
        }
        let n = self.data.len();
        match shape_volume(shape) {
            Some(v) => {
                if v == n {
                    let new_shape = shape.clone();
                    assert(new_shape@ =~= shape@);
                    return Ok(Tensor { dt: self.dt, shape: new_shape, data: self.data });
                }
            },
            None => {},
        }
        Err(TractError::new(ErrorKind::Evaluation, "reshape changes the number of elements"))
    }

    /// Drops the axis `axis`, which must exist and have size one; otherwise
    /// the call fails, and the tensor is consumed.
    pub fn remove_axis(self, axis: usize) -> (r: Result<Tensor, TractError>)
        ensures
            r is Ok <==> axis < self@.shape.len() && self@.shape[axis as int] == 1,
            r matches Ok(t) ==> t@ == (TensorView {
                datum_type: self@.datum_type,
                shape: self@.shape.remove(axis as int),
                data: self@.data,
            }),
            r matches Err(e) ==> e.kind == ErrorKind::Evaluation,
    {
        proof {
            use_type_invariant(&self);
        }
        if axis < self.shape.len() && self.shape[axis] == 1 {
            let mut shape = self.shape;
            proof {
                lemma_volume_remove_unit(shape@, axis as int);
            }
            shape.remove(axis);
            Ok(Tensor { dt: self.dt, shape, data: self.data })
        } else {
            Err(TractError::new(ErrorKind::Evaluation, "no axis of size one to remove"))
        }
    }

    /// Inserts an axis of size one at `axis`, which must be at most the rank.
    pub fn insert_axis(self, axis: usize) -> (r: Result<Tensor, TractError>)
        ensures
            r is Ok <==> axis <= self@.shape.len(),
            r matches Ok(t) ==> t@ == (TensorView {
                datum_type: self@.datum_type,
                shape: self@.shape.insert(axis as int, 1usize),
                data: self@.data,
            }),
            r matches Err(e) ==> e.kind == ErrorKind::Evaluation,
    {
        proof {
            use_type_invariant(&self);
        }
        if axis <= self.shape.len() {
            let mut shape = self.shape;
            proof {
                lemma_volume_insert_unit(shape@, axis as int);
            }
            shape.insert(axis, 1);
            Ok(Tensor { dt: self.dt, shape, data: self.data })
        } else {
            Err(TractError::new(ErrorKind::Evaluation, "no place for the new axis"))
        }
    }
}

} // verus!
