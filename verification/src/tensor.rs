//! The integer tensors that the network takes.

use vstd::prelude::*;

verus! {

/// The tensor literal of `burn`: elements in row-major order, and a shape.
#[verifier::external_type_specification]
#[verifier::external_body]
pub struct ExTensorData(burn::tensor::TensorData);

/// The elements that a tensor literal of 64-bit integers holds, in row-major order.
pub uninterp spec fn tensor_ints(t: burn::tensor::TensorData) -> Seq<i64>;

/// The dimensions of a tensor literal.
pub uninterp spec fn tensor_shape(t: burn::tensor::TensorData) -> Seq<usize>;

/// How many elements a tensor of this shape has.
pub open spec fn shape_size(shape: Seq<usize>) -> nat
    decreases shape.len(),
{
    if shape.len() == 0 {
        1
    } else {
        shape_size(shape.drop_last()) * (shape.last() as nat)
    }
}

/// Whether the elements of this shape can be counted, dimension by dimension, in a `usize`.
pub open spec fn shape_countable(shape: Seq<usize>) -> bool {
    forall|k: int|
        0 <= k <= shape.len() ==> #[trigger] shape_size(shape.take(k)) <= usize::MAX
}

/// Calls `burn::tensor::TensorData::new` on 64-bit integers. The literal that comes back holds
/// the elements in the order given, and the shape given. The call panics unless the shape
/// asks for as many elements as there are, and counts them by multiplying the dimensions from
/// the first on, so no partial product may overflow.
#[verifier::external_body]
pub(crate) fn tensor_data(data: Vec<i64>, shape: Vec<usize>) -> (t: burn::tensor::TensorData)
    requires
        shape_size(shape@) == data@.len(),
        shape_countable(shape@),
    ensures
        tensor_ints(t) == data@,
        tensor_shape(t) == shape@,
{
    burn::tensor::TensorData::new(data, shape)
}

/// A vector of integers as a tensor.
pub(crate) fn vector_tensor(data: Vec<i64>) -> (t: burn::tensor::TensorData)
    ensures
        tensor_ints(t) == data@,
        tensor_shape(t) == seq![data@.len() as usize],
{
    let shape: Vec<usize> = vec![data.len()];
    proof {
        lemma_shape_1(data@.len() as usize);
        assert(shape@ =~= seq![data@.len() as usize]);
    }
    tensor_data(data, shape)
}

/// `rows * columns` integers as a matrix.
pub(crate) fn matrix_tensor(data: Vec<i64>, rows: usize, columns: usize) -> (t:
    burn::tensor::TensorData)
    requires
        data@.len() == rows * columns,
    ensures
        tensor_ints(t) == data@,
        tensor_shape(t) == seq![rows, columns],
{
    let shape: Vec<usize> = vec![rows, columns];
    proof {
        let count: usize = data.len();
        lemma_shape_2(rows, columns);
        assert(shape@ =~= seq![rows, columns]);
    }
    tensor_data(data, shape)
}

/// `rows * columns * depth` integers as a tensor of three dimensions.
pub(crate) fn cube_tensor(data: Vec<i64>, rows: usize, columns: usize, depth: usize) -> (t:
    burn::tensor::TensorData)
    requires
        data@.len() == rows * columns * depth,
        depth > 0,
    ensures
        tensor_ints(t) == data@,
        tensor_shape(t) == seq![rows, columns, depth],
{
    let shape: Vec<usize> = vec![rows, columns, depth];
    proof {
        let count: usize = data.len();
        lemma_shape_3(rows, columns, depth);
        assert(shape@ =~= seq![rows, columns, depth]);
    }
    tensor_data(data, shape)
}

proof fn lemma_shape_1(a: usize)
    ensures
        shape_size(seq![a]) == a,
        shape_countable(seq![a]),
{
    let shape = seq![a];
    assert(shape.drop_last() =~= Seq::<usize>::empty());
    assert(shape_size(Seq::<usize>::empty()) == 1);
    assert(shape_size(shape) == shape_size(Seq::<usize>::empty()) * (a as nat));
    vstd::arithmetic::mul::lemma_mul_basics(a as int);
    assert forall|k: int| 0 <= k <= shape.len() implies #[trigger] shape_size(shape.take(k))
        <= usize::MAX by {
        if k == 0 {
            assert(shape.take(k) =~= Seq::<usize>::empty());
        } else {
            assert(shape.take(k) =~= shape);
        }
    }
}

proof fn lemma_shape_2(a: usize, b: usize)
    requires
        a * b <= usize::MAX,
    ensures
        shape_size(seq![a, b]) == a * b,
        shape_countable(seq![a, b]),
{
    let shape = seq![a, b];
    lemma_shape_1(a);
    assert(shape.drop_last() =~= seq![a]);
    assert(shape_size(shape) == a * b);
    assert forall|k: int| 0 <= k <= shape.len() implies #[trigger] shape_size(shape.take(k))
        <= usize::MAX by {
        if k < 2 {
            assert(shape.take(k) =~= seq![a].take(k));
        } else {
            assert(shape.take(k) =~= shape);
        }
    }
}

proof fn lemma_shape_3(a: usize, b: usize, c: usize)
    requires
        a * b * c <= usize::MAX,
        c > 0,
    ensures
        shape_size(seq![a, b, c]) == a * b * c,
        shape_countable(seq![a, b, c]),
{
    let shape = seq![a, b, c];
    assert(a * b <= a * b * c) by (nonlinear_arith)
        requires
            c > 0,
    ;
    lemma_shape_2(a, b);
    assert(shape.drop_last() =~= seq![a, b]);
    assert(shape_size(shape) == a * b * c);
    assert forall|k: int| 0 <= k <= shape.len() implies #[trigger] shape_size(shape.take(k))
        <= usize::MAX by {
        if k < 3 {
            assert(shape.take(k) =~= seq![a, b].take(k));
        } else {
            assert(shape.take(k) =~= shape);
        }
    }
}

} // verus!
