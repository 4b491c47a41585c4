//! The parameters of the encoder, laid out as its layers take them.
//!
//! A linear layer is stored with one row for each output; the layers here take one row for
//! each input. The three projections of an attention layer are stored in one tensor, one after
//! the other.

use vstd::prelude::*;

use crate::weights::{
    first_missing, get, lemma_first_missing, missing_text, NamedTensor, TensorMap, TensorSpec,
    Tensors,
};

verus! {

/// A row-major matrix of bit patterns.
pub struct Matrix {
    pub data: Vec<u32>,
    pub rows: usize,
    pub columns: usize,
}

/// A matrix as contracts speak of it.
#[verifier::ext_equal]
pub struct MatrixSpec {
    pub data: Seq<u32>,
    pub rows: usize,
    pub columns: usize,
}

impl View for Matrix {
    type V = MatrixSpec;

    open spec fn view(&self) -> MatrixSpec {
        MatrixSpec { data: self.data@, rows: self.rows, columns: self.columns }
    }
}

/// The transpose of a row-major `out_f x in_f` matrix, in as many places as the data has. What
/// is left of them is zero.
pub open spec fn transposed(data: Seq<u32>, out_f: int, in_f: int) -> Seq<u32> {
    Seq::new(
        data.len(),
        |p: int|
            if p < out_f * in_f {
                data[(p % out_f) * in_f + p / out_f]
            } else {
                0
            },
    )
}

/// The transpose of a row-major `out_f x in_f` matrix.
pub fn transpose(data: &[u32], out_f: usize, in_f: usize) -> (t: Vec<u32>)
    requires
        out_f * in_f <= data@.len(),
    ensures
        t@ == transposed(data@, out_f as int, in_f as int),
{
    let len: usize = data.len();
    let ghost whole = transposed(data@, out_f as int, in_f as int);
    let mut t: Vec<u32> = Vec::new();
    assert(out_f * 0 == 0 && out_f * in_f == in_f * out_f) by (nonlinear_arith);
    for i in 0..in_f
        invariant
            out_f * in_f <= len == data@.len(),
            whole == transposed(data@, out_f as int, in_f as int),
            out_f * i <= out_f * in_f,
            t@ == whole.take(out_f * i),
    {
        assert(out_f * i + out_f == out_f * (i + 1) <= out_f * in_f) by (nonlinear_arith)
            requires
                i < in_f,
        ;
        for o in 0..out_f
            invariant
                out_f * in_f <= len == data@.len(),
                whole == transposed(data@, out_f as int, in_f as int),
                i < in_f,
                out_f * i + out_f <= out_f * in_f,
                0 <= out_f * i,
                t@ == whole.take(out_f * i + o),
        {
            proof {
                let p = out_f * i + o;
                assert(0 <= o * in_f && o * in_f + i < out_f * in_f) by (nonlinear_arith)
                    requires
                        o < out_f,
                        i < in_f,
                ;
                assert(p == i * out_f + o) by (nonlinear_arith)
                    requires
                        p == out_f * i + o,
                ;
                vstd::arithmetic::div_mod::lemma_fundamental_div_mod_converse(
                    p,
                    out_f as int,
                    i as int,
                    o as int,
                );
            }
            t.push(data[o * in_f + i]);
            assert(whole.take(out_f * i + o + 1) =~= whole.take(out_f * i + o).push(
                data@[o * in_f + i],
            ));
        }
    }
    while t.len() < len
        invariant
            len == data@.len(),
            whole == transposed(data@, out_f as int, in_f as int),
            out_f * in_f <= t@.len() <= len,
            t@ == whole.take(t@.len() as int),
        decreases len - t@.len(),
    {
        let ghost before = t@;
        t.push(0);
        assert(whole.take(t@.len() as int) =~= before.push(0));
    }
    assert(whole.take(len as int) =~= whole);
    t
}

/// What a linear layer makes of its stored weight.
pub open spec fn linear_of(t: TensorSpec) -> MatrixSpec {
    MatrixSpec {
        data: transposed(t.data, t.shape[0] as int, t.shape[1] as int),
        rows: t.shape[1],
        columns: t.shape[0],
    }
}

/// Whether a tensor is a matrix.
pub open spec fn is_matrix(t: TensorSpec) -> bool {
    t.shape.len() >= 2 && t.shape[0] * t.shape[1] == t.data.len()
}

/// The weight of a linear layer, or a message that it is missing.
pub fn linear_w(tensors: &TensorMap, name: &str) -> (result: Result<Matrix, String>)
    requires
        tensors@.contains_key(name@) ==> is_matrix(tensors@[name@]),
    ensures
        result is Ok <==> tensors@.contains_key(name@),
        result matches Ok(m) ==> m@ == linear_of(tensors@[name@]),
        result matches Ok(m) ==> m.rows == tensors@[name@].shape[1] && m.columns
            == tensors@[name@].shape[0] && m.data@.len() == tensors@[name@].data.len(),
        result matches Err(message) ==> message@ == missing_text(name@),
        result matches Err(message) ==> message@ == "missing "@ + name@,
{
    match get(tensors, name) {
        Ok(t) => {
            let out_f: usize = t.shape[0];
            let in_f: usize = t.shape[1];
            Ok(
                Matrix {
                    data: transpose(t.data.as_slice(), out_f, in_f),
                    rows: in_f,
                    columns: out_f,
                },
            )
        },
        Err(message) => Err(message),
    }
}

/// A vector of parameters, or a message that it is missing.
pub fn bias(tensors: &TensorMap, name: &str) -> (result: Result<Vec<u32>, String>)
    ensures
        result is Ok <==> tensors@.contains_key(name@),
        result matches Ok(b) ==> b@ == tensors@[name@].data,
        result matches Err(message) ==> message@ == missing_text(name@),
        result matches Err(message) ==> message@ == "missing "@ + name@,
{
    match get(tensors, name) {
        Ok(t) => Ok(vstd::slice::slice_to_vec(t.data.as_slice())),
        Err(message) => Err(message),
    }
}

/// The `k`-th of the `d x d` matrices stored in one tensor, transposed.
pub open spec fn projection(t: TensorSpec, d: usize, k: int) -> MatrixSpec {
    MatrixSpec {
        data: transposed(t.data.subrange(k * (d * d), (k + 1) * (d * d)), d as int, d as int),
        rows: d,
        columns: d,
    }
}

/// The `k`-th of the vectors of length `d` stored in one tensor.
pub open spec fn projection_bias(t: TensorSpec, d: usize, k: int) -> Seq<u32> {
    t.data.subrange(k * d, (k + 1) * d)
}

/// The transpose of the `d x d` matrix at `off`.
fn square_at(data: &[u32], off: usize, d: usize) -> (m: Matrix)
    requires
        off + d * d <= data@.len(),
    ensures
        m@ == (MatrixSpec {
            data: transposed(data@.subrange(off as int, off + d * d), d as int, d as int),
            rows: d,
            columns: d,
        }),
{
    assert(data.len() <= usize::MAX);
    assert(0 <= d * d) by (nonlinear_arith);
    let end: usize = off + d * d;
    Matrix {
        data: transpose(vstd::slice::slice_subrange(data, off, end), d, d),
        rows: d,
        columns: d,
    }
}

/// The query, key and value weights that one tensor holds, or a message that it is missing.
pub fn split3_w(tensors: &TensorMap, name: &str, d: usize) -> (result: Result<
    (Matrix, Matrix, Matrix),
    String,
>)
    requires
        tensors@.contains_key(name@) ==> tensors@[name@].data.len() >= 3 * (d * d),
    ensures
        result is Ok <==> tensors@.contains_key(name@),
        result matches Ok(qkv) ==> {
            &&& qkv.0@ == projection(tensors@[name@], d, 0)
            &&& qkv.1@ == projection(tensors@[name@], d, 1)
            &&& qkv.2@ == projection(tensors@[name@], d, 2)
        },
        result matches Err(message) ==> message@ == missing_text(name@),
        result matches Err(message) ==> message@ == "missing "@ + name@,
{
    match get(tensors, name) {
        Ok(t) => {
            assert(t.data.len() <= usize::MAX);
            assert(0 <= d * d) by (nonlinear_arith);
            let n: usize = d * d;
            proof {
                let k0: int = 0;
                let k1: int = 1;
                let k2: int = 2;
                assert(k0 * n == 0 && (k0 + 1) * n == n && k1 * n == n && (k1 + 1) * n == 2 * n && k2
                    * n == 2 * n && (k2 + 1) * n == 3 * n) by (nonlinear_arith)
                    requires
                        k0 == 0,
                        k1 == 1,
                        k2 == 2,
                ;
            }
            Ok(
                (
                    square_at(t.data.as_slice(), 0, d),
                    square_at(t.data.as_slice(), n, d),
                    square_at(t.data.as_slice(), 2 * n, d),
                ),
            )
        },
        Err(message) => Err(message),
    }
}

/// The query, key and value biases that one tensor holds, or a message that it is missing.
pub fn split3_b(tensors: &TensorMap, name: &str, d: usize) -> (result: Result<
    (Vec<u32>, Vec<u32>, Vec<u32>),
    String,
>)
    requires
        tensors@.contains_key(name@) ==> tensors@[name@].data.len() >= 3 * d,
    ensures
        result is Ok <==> tensors@.contains_key(name@),
        result matches Ok(qkv) ==> {
            &&& qkv.0@ == projection_bias(tensors@[name@], d, 0)
            &&& qkv.1@ == projection_bias(tensors@[name@], d, 1)
            &&& qkv.2@ == projection_bias(tensors@[name@], d, 2)
            &&& qkv.0@ == tensors@[name@].data.subrange(0, d as int)
            &&& qkv.1@ == tensors@[name@].data.subrange(d as int, 2 * d)
            &&& qkv.2@ == tensors@[name@].data.subrange(2 * d, 3 * d)
        },
        result matches Err(message) ==> message@ == missing_text(name@),
        result matches Err(message) ==> message@ == "missing "@ + name@,
{
    match get(tensors, name) {
        Ok(t) => {
            let data: &[u32] = t.data.as_slice();
            assert(data.len() <= usize::MAX);
            Ok(
                (
                    vstd::slice::slice_to_vec(vstd::slice::slice_subrange(data, 0, d)),
                    vstd::slice::slice_to_vec(vstd::slice::slice_subrange(data, d, 2 * d)),
                    vstd::slice::slice_to_vec(vstd::slice::slice_subrange(data, 2 * d, 3 * d)),
                ),
            )
        },
        Err(message) => Err(message),
    }
}

/// One decimal digit.
pub open spec fn digit_text(d: nat) -> Seq<char> {
    if d == 0 {
        "0"@
    } else if d == 1 {
        "1"@
    } else if d == 2 {
        "2"@
    } else if d == 3 {
        "3"@
    } else if d == 4 {
        "4"@
    } else if d == 5 {
        "5"@
    } else if d == 6 {
        "6"@
    } else if d == 7 {
        "7"@
    } else if d == 8 {
        "8"@
    } else {
        "9"@
    }
}

/// A number in decimal.
pub open spec fn decimal(n: nat) -> Seq<char>
    decreases n,
{
    if n < 10 {
        digit_text(n)
    } else {
        decimal(n / 10) + digit_text(n % 10)
    }
}

/// Appends a number in decimal.
fn append_decimal(text: &mut String, n: usize)
    ensures
        final(text)@ == old(text)@ + decimal(n as nat),
    decreases n,
{
    if n >= 10 {
        append_decimal(text, n / 10);
    }
    let digit: &str = match n % 10 {
        0 => "0",
        1 => "1",
        2 => "2",
        3 => "3",
        4 => "4",
        5 => "5",
        6 => "6",
        7 => "7",
        8 => "8",
        _ => "9",
    };
    let ghost before = text@;
    text.append(digit);
    assert(text@ =~= old(text)@ + decimal(n as nat));
}

/// How many tensors there are besides those of the layers.
pub open spec fn head_count() -> int {
    5
}

/// How many tensors there are for each layer.
pub open spec fn part_count() -> int {
    12
}

/// The tensors besides those of the layers, in the order in which they are looked up.
pub open spec fn head_name(k: int) -> Seq<char> {
    if k == 0 {
        "input_proj.weight"@
    } else if k == 1 {
        "input_proj.bias"@
    } else if k == 2 {
        "score_norm.weight"@
    } else if k == 3 {
        "score_norm.bias"@
    } else {
        "qk_proj.weight"@
    }
}

/// What a layer's tensors are called, in the order in which they are looked up.
pub open spec fn part_name(p: int) -> Seq<char> {
    if p == 0 {
        ".self_attn.in_proj_weight"@
    } else if p == 1 {
        ".self_attn.in_proj_bias"@
    } else if p == 2 {
        ".self_attn.out_proj.weight"@
    } else if p == 3 {
        ".self_attn.out_proj.bias"@
    } else if p == 4 {
        ".norm1.weight"@
    } else if p == 5 {
        ".norm1.bias"@
    } else if p == 6 {
        ".norm2.weight"@
    } else if p == 7 {
        ".norm2.bias"@
    } else if p == 8 {
        ".linear1.weight"@
    } else if p == 9 {
        ".linear1.bias"@
    } else if p == 10 {
        ".linear2.weight"@
    } else {
        ".linear2.bias"@
    }
}

/// The full name of a layer's tensor.
pub open spec fn layer_name(layer: nat, p: int) -> Seq<char> {
    "encoder.layers."@ + decimal(layer) + part_name(p)
}

/// The `k`-th tensor that is looked up.
pub open spec fn record_name(k: int) -> Seq<char> {
    if k < head_count() {
        head_name(k)
    } else {
        layer_name(((k - head_count()) / part_count()) as nat, (k - head_count()) % part_count())
    }
}

/// The tensors of an encoder, in the order in which they are looked up.
pub open spec fn record_names(layers: nat) -> Seq<Seq<char>> {
    Seq::new((head_count() + part_count() * layers) as nat, |k: int| record_name(k))
}

/// Whether the `k`-th tensor that is looked up has the elements that are taken from it.
pub open spec fn slot_fits(k: int, t: TensorSpec, d: usize) -> bool {
    if k < head_count() {
        (k == 0 || k == 4) ==> is_matrix(t)
    } else {
        let p = (k - head_count()) % part_count();
        &&& p == 0 ==> t.data.len() >= 3 * (d * d)
        &&& p == 1 ==> t.data.len() >= 3 * d
        &&& (p == 2 || p == 8 || p == 10) ==> is_matrix(t)
    }
}

/// Whether each tensor that is looked up before one is missing has the elements that are taken
/// from it.
pub open spec fn record_fits(tensors: Tensors, d: usize, layers: nat) -> bool {
    forall|k: int|
        0 <= k < first_missing(record_names(layers), tensors) ==> slot_fits(
            k,
            tensors[#[trigger] record_name(k)],
            d,
        )
}

/// The parameters of one layer.
///
/// `norm_2` comes before the attention and `norm_1` before the feed-forward part. They are
/// stored as `norm1` and `norm2`.
pub struct LayerWeights {
    pub query_weight: Matrix,
    pub query_bias: Vec<u32>,
    pub key_weight: Matrix,
    pub key_bias: Vec<u32>,
    pub value_weight: Matrix,
    pub value_bias: Vec<u32>,
    pub output_weight: Matrix,
    pub output_bias: Vec<u32>,
    pub norm_2_gamma: Vec<u32>,
    pub norm_2_beta: Vec<u32>,
    pub norm_1_gamma: Vec<u32>,
    pub norm_1_beta: Vec<u32>,
    pub inner_weight: Matrix,
    pub inner_bias: Vec<u32>,
    pub outer_weight: Matrix,
    pub outer_bias: Vec<u32>,
}

/// The parameters of an encoder.
pub struct TransformerWeights {
    pub input_proj_weight: Matrix,
    pub input_proj_bias: Vec<u32>,
    pub score_norm_gamma: Vec<u32>,
    pub score_norm_beta: Vec<u32>,
    pub qk_proj_weight: Matrix,
    pub layers: Vec<LayerWeights>,
}

/// Whether these are the parameters of a layer.
pub open spec fn is_layer(weights: LayerWeights, tensors: Tensors, d: usize, layer: nat) -> bool {
    let t = |p: int| tensors[layer_name(layer, p)];
    &&& weights.query_weight@ == projection(t(0), d, 0)
    &&& weights.key_weight@ == projection(t(0), d, 1)
    &&& weights.value_weight@ == projection(t(0), d, 2)
    &&& weights.query_bias@ == projection_bias(t(1), d, 0)
    &&& weights.key_bias@ == projection_bias(t(1), d, 1)
    &&& weights.value_bias@ == projection_bias(t(1), d, 2)
    &&& weights.output_weight@ == linear_of(t(2))
    &&& weights.output_bias@ == t(3).data
    &&& weights.norm_2_gamma@ == t(4).data
    &&& weights.norm_2_beta@ == t(5).data
    &&& weights.norm_1_gamma@ == t(6).data
    &&& weights.norm_1_beta@ == t(7).data
    &&& weights.inner_weight@ == linear_of(t(8))
    &&& weights.inner_bias@ == t(9).data
    &&& weights.outer_weight@ == linear_of(t(10))
    &&& weights.outer_bias@ == t(11).data
}

/// Whether these are the parameters of an encoder.
pub open spec fn is_record(
    weights: TransformerWeights,
    tensors: Tensors,
    d: usize,
    layers: nat,
) -> bool {
    &&& weights.input_proj_weight@ == linear_of(tensors["input_proj.weight"@])
    &&& weights.input_proj_bias@ == tensors["input_proj.bias"@].data
    &&& weights.score_norm_gamma@ == tensors["score_norm.weight"@].data
    &&& weights.score_norm_beta@ == tensors["score_norm.bias"@].data
    &&& weights.qk_proj_weight@ == linear_of(tensors["qk_proj.weight"@])
    &&& weights.layers@.len() == layers
    &&& forall|i: int|
        0 <= i < layers ==> is_layer(#[trigger] weights.layers@[i], tensors, d, i as nat)
}

/// The full name of a layer's tensor.
fn name_of_part(layer: usize, p: usize) -> (name: String)
    requires
        p < part_count(),
    ensures
        name@ == layer_name(layer as nat, p as int),
{
    let part: &str = match p {
        0 => ".self_attn.in_proj_weight",
        1 => ".self_attn.in_proj_bias",
        2 => ".self_attn.out_proj.weight",
        3 => ".self_attn.out_proj.bias",
        4 => ".norm1.weight",
        5 => ".norm1.bias",
        6 => ".norm2.weight",
        7 => ".norm2.bias",
        8 => ".linear1.weight",
        9 => ".linear1.bias",
        10 => ".linear2.weight",
        _ => ".linear2.bias",
    };
    let mut name: String = "encoder.layers.".to_owned();
    append_decimal(&mut name, layer);
    name.append(part);
    name
}

/// Where a layer's tensor comes in the order of lookups.
spec fn slot(layer: nat, p: int) -> int {
    head_count() + part_count() * layer + p
}

proof fn lemma_slot(layers: nat, layer: nat, p: int)
    requires
        layer < layers,
        0 <= p < part_count(),
    ensures
        0 <= slot(layer, p) < record_names(layers).len(),
        record_name(slot(layer, p)) == layer_name(layer, p),
        record_names(layers)[slot(layer, p)] == layer_name(layer, p),
        (slot(layer, p) - head_count()) % part_count() == p,
{
}

/// The parameters of one layer, or a message that names the first tensor that is missing.
fn fill_layer(tensors: &TensorMap, d: usize, layer: usize, layers: usize) -> (result: Result<
    LayerWeights,
    String,
>)
    requires
        layer < layers,
        record_fits(tensors@, d, layers as nat),
        first_missing(record_names(layers as nat), tensors@) >= slot(layer as nat, 0),
    ensures
        result is Ok <==> first_missing(record_names(layers as nat), tensors@) >= slot(
            (layer + 1) as nat,
            0,
        ),
        result matches Ok(weights) ==> is_layer(weights, tensors@, d, layer as nat),
        result matches Err(message) ==> first_missing(record_names(layers as nat), tensors@)
            < record_names(layers as nat).len() && message@ == missing_text(
            record_names(layers as nat)[first_missing(
                record_names(layers as nat),
                tensors@,
            ) as int],
        ),
{
    let ghost names = record_names(layers as nat);
    let ghost found = first_missing(names, tensors@);
    proof {
        lemma_first_missing(names, tensors@);
    }
    proof {
        lemma_slot(layers as nat, layer as nat, 0);
    }
    let qkv_w: (Matrix, Matrix, Matrix) = match split3_w(
        tensors,
        name_of_part(layer, 0).as_str(),
        d,
    ) {
        Ok(found) => found,
        Err(message) => {
            return Err(message);
        },
    };
    proof {
        lemma_slot(layers as nat, layer as nat, 1);
    }
    let qkv_b: (Vec<u32>, Vec<u32>, Vec<u32>) = match split3_b(
        tensors,
        name_of_part(layer, 1).as_str(),
        d,
    ) {
        Ok(found) => found,
        Err(message) => {
            return Err(message);
        },
    };
    proof {
        lemma_slot(layers as nat, layer as nat, 2);
    }
    let output_weight: Matrix = match linear_w(tensors, name_of_part(layer, 2).as_str()) {
        Ok(found) => found,
        Err(message) => {
            return Err(message);
        },
    };
    proof {
        lemma_slot(layers as nat, layer as nat, 3);
    }
    let output_bias: Vec<u32> = match bias(tensors, name_of_part(layer, 3).as_str()) {
        Ok(found) => found,
        Err(message) => {
            return Err(message);
        },
    };
    proof {
        lemma_slot(layers as nat, layer as nat, 4);
    }
    let norm_2_gamma: Vec<u32> = match bias(tensors, name_of_part(layer, 4).as_str()) {
        Ok(found) => found,
        Err(message) => {
            return Err(message);
        },
    };
    proof {
        lemma_slot(layers as nat, layer as nat, 5);
    }
    let norm_2_beta: Vec<u32> = match bias(tensors, name_of_part(layer, 5).as_str()) {
        Ok(found) => found,
        Err(message) => {
            return Err(message);
        },
    };
    proof {
        lemma_slot(layers as nat, layer as nat, 6);
    }
    let norm_1_gamma: Vec<u32> = match bias(tensors, name_of_part(layer, 6).as_str()) {
        Ok(found) => found,
        Err(message) => {
            return Err(message);
        },
    };
    proof {
        lemma_slot(layers as nat, layer as nat, 7);
    }
    let norm_1_beta: Vec<u32> = match bias(tensors, name_of_part(layer, 7).as_str()) {
        Ok(found) => found,
        Err(message) => {
            return Err(message);
        },
    };
    proof {
        lemma_slot(layers as nat, layer as nat, 8);
    }
    let inner_weight: Matrix = match linear_w(tensors, name_of_part(layer, 8).as_str()) {
        Ok(found) => found,
        Err(message) => {
            return Err(message);
        },
    };
    proof {
        lemma_slot(layers as nat, layer as nat, 9);
    }
    let inner_bias: Vec<u32> = match bias(tensors, name_of_part(layer, 9).as_str()) {
        Ok(found) => found,
        Err(message) => {
            return Err(message);
        },
    };
    proof {
        lemma_slot(layers as nat, layer as nat, 10);
    }
    let outer_weight: Matrix = match linear_w(tensors, name_of_part(layer, 10).as_str()) {
        Ok(found) => found,
        Err(message) => {
            return Err(message);
        },
    };
    proof {
        lemma_slot(layers as nat, layer as nat, 11);
    }
    let outer_bias: Vec<u32> = match bias(tensors, name_of_part(layer, 11).as_str()) {
        Ok(found) => found,
        Err(message) => {
            return Err(message);
        },
    };
    let (query_weight, key_weight, value_weight) = qkv_w;
    let (query_bias, key_bias, value_bias) = qkv_b;
    Ok(
        LayerWeights {
            query_weight,
            query_bias,
            key_weight,
            key_bias,
            value_weight,
            value_bias,
            output_weight,
            output_bias,
            norm_2_gamma,
            norm_2_beta,
            norm_1_gamma,
            norm_1_beta,
            inner_weight,
            inner_bias,
            outer_weight,
            outer_bias,
        },
    )
}

/// The parameters of an encoder of this many layers, whose rows are `d` long, or a message that
/// names the first tensor that is missing.
pub fn fill_record(tensors: &TensorMap, d: usize, layers: usize) -> (result: Result<
    TransformerWeights,
    String,
>)
    requires
        record_fits(tensors@, d, layers as nat),
    ensures
        result is Ok <==> first_missing(record_names(layers as nat), tensors@) == record_names(
            layers as nat,
        ).len(),
        result matches Ok(weights) ==> is_record(weights, tensors@, d, layers as nat),
        result matches Err(message) ==> message@ == missing_text(
            record_names(layers as nat)[first_missing(
                record_names(layers as nat),
                tensors@,
            ) as int],
        ),
        result matches Err(message) ==> message@ == "missing "@ + record_names(
            layers as nat,
        )[first_missing(record_names(layers as nat), tensors@) as int],
{
    let ghost names = record_names(layers as nat);
    let ghost found = first_missing(names, tensors@);
    proof {
        lemma_first_missing(names, tensors@);
    }
    assert(names[0] == "input_proj.weight"@ && record_name(0) == "input_proj.weight"@);
    let input_proj_weight: Matrix = match linear_w(tensors, "input_proj.weight") {
        Ok(found) => found,
        Err(message) => {
            return Err(message);
        },
    };
    assert(names[1] == "input_proj.bias"@ && record_name(1) == "input_proj.bias"@);
    let input_proj_bias: Vec<u32> = match bias(tensors, "input_proj.bias") {
        Ok(found) => found,
        Err(message) => {
            return Err(message);
        },
    };
    assert(names[2] == "score_norm.weight"@ && record_name(2) == "score_norm.weight"@);
    let score_norm_gamma: Vec<u32> = match bias(tensors, "score_norm.weight") {
        Ok(found) => found,
        Err(message) => {
            return Err(message);
        },
    };
    assert(names[3] == "score_norm.bias"@ && record_name(3) == "score_norm.bias"@);
    let score_norm_beta: Vec<u32> = match bias(tensors, "score_norm.bias") {
        Ok(found) => found,
        Err(message) => {
            return Err(message);
        },
    };
    assert(names[4] == "qk_proj.weight"@ && record_name(4) == "qk_proj.weight"@);
    let qk_proj_weight: Matrix = match linear_w(tensors, "qk_proj.weight") {
        Ok(found) => found,
        Err(message) => {
            return Err(message);
        },
    };
    let mut filled: Vec<LayerWeights> = Vec::new();
    for i in 0..layers
        invariant
            record_fits(tensors@, d, layers as nat),
            names == record_names(layers as nat),
            found == first_missing(names, tensors@),
            slot(i as nat, 0) <= found <= names.len(),
            filled@.len() == i,
            forall|j: int|
                0 <= j < i ==> is_layer(#[trigger] filled@[j], tensors@, d, j as nat),
    {
        match fill_layer(tensors, d, i, layers) {
            Ok(weights) => {
                filled.push(weights);
            },
            Err(message) => {
                return Err(message);
            },
        }
    }
    Ok(
        TransformerWeights {
            input_proj_weight,
            input_proj_bias,
            score_norm_gamma,
            score_norm_beta,
            qk_proj_weight,
            layers: filled,
        },
    )
}

/// Whether a tensor is a matrix.
fn check_matrix(t: &NamedTensor) -> (ok: bool)
    ensures
        ok == is_matrix(t@),
{
    if t.shape.len() < 2 {
        return false;
    }
    let len: usize = t.data.len();
    match t.shape[0].checked_mul(t.shape[1]) {
        Some(size) => size == len,
        None => false,
    }
}

/// Whether a vector has at least three times `n` elements.
fn check_thrice(t: &NamedTensor, n: Option<usize>, size: Ghost<int>) -> (ok: bool)
    requires
        size@ >= 0,
        n matches Some(n) ==> n == size@,
        n is None ==> size@ > usize::MAX,
    ensures
        ok == (t@.data.len() >= 3 * size@),
{
    let len: usize = t.data.len();
    match n {
        Some(n) => n <= len / 3,
        None => false,
    }
}

/// Whether [`fill_record`] takes these tensors.
pub fn check_record(tensors: &TensorMap, d: usize, layers: usize) -> (ok: bool)
    ensures
        ok == record_fits(tensors@, d, layers as nat),
{
    let ghost names = record_names(layers as nat);
    let ghost found = first_missing(names, tensors@);
    proof {
        lemma_first_missing(names, tensors@);
        assert(0 <= d * d) by (nonlinear_arith);
    }
    for k in 0..5usize
        invariant
            names == record_names(layers as nat),
            found == first_missing(names, tensors@),
            found <= names.len(),
            forall|j: int| 0 <= j < found ==> tensors@.contains_key(#[trigger] names[j]),
            found < names.len() ==> !tensors@.contains_key(names[found as int]),
            k <= found,
            forall|j: int| 0 <= j < k ==> slot_fits(j, tensors@[#[trigger] record_name(j)], d),
    {
        let name: &str = match k {
            0 => "input_proj.weight",
            1 => "input_proj.bias",
            2 => "score_norm.weight",
            3 => "score_norm.bias",
            _ => "qk_proj.weight",
        };
        assert(names[k as int] == name@ && record_name(k as int) == name@);
        match tensors.get(name) {
            Some(t) => {
                if (k == 0 || k == 4) && !check_matrix(t) {
                    return false;
                }
            },
            None => {
                assert(found == k);
                return true;
            },
        }
    }
    for i in 0..layers
        invariant
            names == record_names(layers as nat),
            found == first_missing(names, tensors@),
            found <= names.len(),
            forall|j: int| 0 <= j < found ==> tensors@.contains_key(#[trigger] names[j]),
            found < names.len() ==> !tensors@.contains_key(names[found as int]),
            slot(i as nat, 0) <= found,
            0 <= d * d,
            forall|j: int|
                0 <= j < slot(i as nat, 0) ==> slot_fits(j, tensors@[#[trigger] record_name(j)], d),
    {
        for p in 0..12usize
            invariant
                i < layers,
                names == record_names(layers as nat),
                found == first_missing(names, tensors@),
                found <= names.len(),
                forall|j: int| 0 <= j < found ==> tensors@.contains_key(#[trigger] names[j]),
                found < names.len() ==> !tensors@.contains_key(names[found as int]),
                slot(i as nat, p as int) <= found,
                0 <= d * d,
                forall|j: int|
                    0 <= j < slot(i as nat, p as int) ==> slot_fits(
                        j,
                        tensors@[#[trigger] record_name(j)],
                        d,
                    ),
        {
            proof {
                lemma_slot(layers as nat, i as nat, p as int);
            }
            match tensors.get(name_of_part(i, p).as_str()) {
                Some(t) => {
                    let ok: bool = match p {
                        0 => check_thrice(t, d.checked_mul(d), Ghost(d * d)),
                        1 => check_thrice(t, Some(d), Ghost(d as int)),
                        2 | 8 | 10 => check_matrix(t),
                        _ => true,
                    };
                    if !ok {
                        return false;
                    }
                },
                None => {
                    assert(found == slot(i as nat, p as int));
                    return true;
                },
            }
        }
    }
    true
}

proof fn lemma_digit_text(d: nat)
    requires
        d < 10,
    ensures
        digit_text(d).len() == 1,
        digit_text(d)[0] as nat == '0' as nat + d,
        '0' <= digit_text(d)[0] <= '9',
{
    reveal_strlit("0");
    reveal_strlit("1");
    reveal_strlit("2");
    reveal_strlit("3");
    reveal_strlit("4");
    reveal_strlit("5");
    reveal_strlit("6");
    reveal_strlit("7");
    reveal_strlit("8");
    reveal_strlit("9");
}

proof fn lemma_decimal_digits(n: nat)
    ensures
        decimal(n).len() > 0,
        n >= 10 <==> decimal(n).len() > 1,
        forall|k: int| 0 <= k < decimal(n).len() ==> '0' <= (#[trigger] decimal(n)[k]) <= '9',
    decreases n,
{
    lemma_digit_text(n % 10);
    if n >= 10 {
        lemma_decimal_digits(n / 10);
        let init = decimal(n / 10);
        assert forall|k: int| 0 <= k < decimal(n).len() implies '0' <= (#[trigger] decimal(n)[k])
            <= '9' by {
            if k < init.len() {
                assert(decimal(n)[k] == init[k]);
            } else {
                assert(decimal(n)[k] == digit_text(n % 10)[0]);
            }
        }
    }
}

proof fn lemma_decimal_is_injective(a: nat, b: nat)
    requires
        decimal(a) == decimal(b),
    ensures
        a == b,
    decreases a,
{
    lemma_decimal_digits(a);
    lemma_decimal_digits(b);
    lemma_digit_text(a % 10);
    lemma_digit_text(b % 10);
    let text = decimal(a);
    if a >= 10 {
        assert(text.last() == digit_text(a % 10)[0]);
        assert(text.last() == digit_text(b % 10)[0]);
        assert(decimal(a / 10) =~= text.drop_last());
        assert(decimal(b / 10) =~= text.drop_last());
        lemma_decimal_is_injective(a / 10, b / 10);
    } else {
        assert(text[0] == digit_text(a)[0]);
        assert(text[0] == digit_text(b)[0]);
    }
}

proof fn lemma_part_names(p: int, q: int)
    requires
        0 <= p < part_count(),
        0 <= q < part_count(),
    ensures
        part_name(p).len() > 0,
        part_name(p)[0] == '.',
        part_name(p) == part_name(q) ==> p == q,
{
    reveal_strlit(".self_attn.in_proj_weight");
    reveal_strlit(".self_attn.in_proj_bias");
    reveal_strlit(".self_attn.out_proj.weight");
    reveal_strlit(".self_attn.out_proj.bias");
    reveal_strlit(".norm1.weight");
    reveal_strlit(".norm1.bias");
    reveal_strlit(".norm2.weight");
    reveal_strlit(".norm2.bias");
    reveal_strlit(".linear1.weight");
    reveal_strlit(".linear1.bias");
    reveal_strlit(".linear2.weight");
    reveal_strlit(".linear2.bias");
    let a = part_name(p);
    let b = part_name(q);
    if a == b {
        assert(a.len() == b.len() && a[1] == b[1] && a[5] == b[5] && a[7] == b[7]);
    }
}

proof fn lemma_head_names(j: int, k: int)
    requires
        0 <= j < head_count(),
        0 <= k < head_count(),
    ensures
        head_name(j).len() > 0,
        head_name(j)[0] != 'e',
        head_name(j) == head_name(k) ==> j == k,
{
    reveal_strlit("input_proj.weight");
    reveal_strlit("input_proj.bias");
    reveal_strlit("score_norm.weight");
    reveal_strlit("score_norm.bias");
    reveal_strlit("qk_proj.weight");
    let a = head_name(j);
    let b = head_name(k);
    if a == b {
        assert(a.len() == b.len() && a[0] == b[0]);
    }
}

proof fn lemma_layer_names(l: nat, p: int, m: nat, q: int)
    requires
        0 <= p < part_count(),
        0 <= q < part_count(),
        layer_name(l, p) == layer_name(m, q),
        decimal(l).len() <= decimal(m).len(),
    ensures
        l == m,
        p == q,
{
    lemma_decimal_digits(l);
    lemma_decimal_digits(m);
    lemma_part_names(p, q);
    let start = "encoder.layers."@.len() as int;
    let name = layer_name(l, p);
    let n = decimal(l).len() as int;
    assert(name.subrange(start, start + n) =~= decimal(l));
    assert(name.skip(start + n) =~= part_name(p));
    assert(name.subrange(start, start + decimal(m).len()) =~= decimal(m));
    assert(name.skip(start + decimal(m).len()) =~= part_name(q));
    if n < decimal(m).len() {
        assert(name[start + n] == part_name(p)[0]);
        assert(name[start + n] == decimal(m)[n]);
    }
    lemma_decimal_is_injective(l, m);
}

/// Each tensor that is looked up has a name of its own. There are five, and then twelve for each
/// layer.
pub proof fn law_record_names_differ(layers: nat, j: int, k: int)
    requires
        0 <= j < k < record_names(layers).len(),
    ensures
        record_names(layers).len() == 5 + 12 * layers,
        record_names(layers)[j] != record_names(layers)[k],
{
    let l = ((j - head_count()) / part_count()) as nat;
    let p = (j - head_count()) % part_count();
    let m = ((k - head_count()) / part_count()) as nat;
    let q = (k - head_count()) % part_count();
    if record_name(j) == record_name(k) {
        if k < head_count() {
            lemma_head_names(j, k);
        } else if j < head_count() {
            lemma_head_names(j, j);
            reveal_strlit("encoder.layers.");
            assert(layer_name(m, q)[0] == 'e');
        } else if decimal(l).len() <= decimal(m).len() {
            lemma_layer_names(l, p, m, q);
        } else {
            lemma_layer_names(m, q, l, p);
        }
    }
}

/// Row `o`, column `i` of a matrix is row `i`, column `o` of its transpose.
pub proof fn law_transpose_swaps(data: Seq<u32>, out_f: int, in_f: int, o: int, i: int)
    requires
        0 <= o < out_f,
        0 <= i < in_f,
        out_f * in_f <= data.len(),
    ensures
        0 <= i * out_f + o < data.len(),
        0 <= o * in_f + i < data.len(),
        transposed(data, out_f, in_f)[i * out_f + o] == data[o * in_f + i],
{
    assert(0 <= i * out_f && i * out_f + o < out_f * in_f && 0 <= o * in_f && o * in_f + i < out_f
        * in_f) by (nonlinear_arith)
        requires
            0 <= o < out_f,
            0 <= i < in_f,
    ;
    vstd::arithmetic::div_mod::lemma_fundamental_div_mod_converse(i * out_f + o, out_f, i, o);
}

/// The decimal text of a number below ten is its digit, and that of a larger one is that of its
/// tens and then its last digit.
pub proof fn law_decimal(n: nat, d: nat)
    requires
        d < 10,
    ensures
        decimal(d).len() == 1,
        decimal(d)[0] as nat == '0' as nat + d,
        n > 0 ==> decimal(10 * n + d) == decimal(n) + decimal(d),
{
    lemma_digit_text(d);
    if n > 0 {
        assert((10 * n + d) / 10 == n && (10 * n + d) % 10 == d);
    }
}

/// The tensors of an encoder in the order in which they are looked up.
pub proof fn law_record_names(layers: nat, i: int)
    ensures
        record_names(layers).len() == 5 + 12 * layers,
        record_names(layers)[0] == "input_proj.weight"@,
        record_names(layers)[1] == "input_proj.bias"@,
        record_names(layers)[2] == "score_norm.weight"@,
        record_names(layers)[3] == "score_norm.bias"@,
        record_names(layers)[4] == "qk_proj.weight"@,
        0 <= i < layers ==> record_names(layers)[5 + 12 * i] == "encoder.layers."@ + decimal(i as nat)
            + ".self_attn.in_proj_weight"@,
        0 <= i < layers ==> record_names(layers)[6 + 12 * i] == "encoder.layers."@ + decimal(i as nat)
            + ".self_attn.in_proj_bias"@,
        0 <= i < layers ==> record_names(layers)[7 + 12 * i] == "encoder.layers."@ + decimal(i as nat)
            + ".self_attn.out_proj.weight"@,
        0 <= i < layers ==> record_names(layers)[8 + 12 * i] == "encoder.layers."@ + decimal(i as nat)
            + ".self_attn.out_proj.bias"@,
        0 <= i < layers ==> record_names(layers)[9 + 12 * i] == "encoder.layers."@ + decimal(i as nat)
            + ".norm1.weight"@,
        0 <= i < layers ==> record_names(layers)[10 + 12 * i] == "encoder.layers."@ + decimal(i as nat)
            + ".norm1.bias"@,
        0 <= i < layers ==> record_names(layers)[11 + 12 * i] == "encoder.layers."@ + decimal(i as nat)
            + ".norm2.weight"@,
        0 <= i < layers ==> record_names(layers)[12 + 12 * i] == "encoder.layers."@ + decimal(i as nat)
            + ".norm2.bias"@,
        0 <= i < layers ==> record_names(layers)[13 + 12 * i] == "encoder.layers."@ + decimal(i as nat)
            + ".linear1.weight"@,
        0 <= i < layers ==> record_names(layers)[14 + 12 * i] == "encoder.layers."@ + decimal(i as nat)
            + ".linear1.bias"@,
        0 <= i < layers ==> record_names(layers)[15 + 12 * i] == "encoder.layers."@ + decimal(i as nat)
            + ".linear2.weight"@,
        0 <= i < layers ==> record_names(layers)[16 + 12 * i] == "encoder.layers."@ + decimal(i as nat)
            + ".linear2.bias"@,
{
    if 0 <= i < layers {
        lemma_slot(layers, i as nat, 0);
        lemma_slot(layers, i as nat, 1);
        lemma_slot(layers, i as nat, 2);
        lemma_slot(layers, i as nat, 3);
        lemma_slot(layers, i as nat, 4);
        lemma_slot(layers, i as nat, 5);
        lemma_slot(layers, i as nat, 6);
        lemma_slot(layers, i as nat, 7);
        lemma_slot(layers, i as nat, 8);
        lemma_slot(layers, i as nat, 9);
        lemma_slot(layers, i as nat, 10);
        lemma_slot(layers, i as nat, 11);
    }
}

/// What is left over of a transpose is zero.
pub proof fn law_transpose_leaves_zero(data: Seq<u32>, out_f: int, in_f: int, p: int)
    requires
        0 <= out_f * in_f <= p < data.len(),
    ensures
        transposed(data, out_f, in_f).len() == data.len(),
        transposed(data, out_f, in_f)[p] == 0,
{
}

/// Each vector of a filled encoder is the tensor of its name, and each stored bias of an attention
/// layer is cut into those of the query, the key and the value, in that order. The norm before the
/// attention is stored as `norm1`, the one before the feed-forward part as `norm2`.
pub proof fn law_record_vectors(
    weights: TransformerWeights,
    tensors: Tensors,
    d: usize,
    layers: nat,
    i: int,
)
    requires
        is_record(weights, tensors, d, layers),
    ensures
        weights.layers@.len() == layers,
        weights.input_proj_bias@ == tensors["input_proj.bias"@].data,
        weights.score_norm_gamma@ == tensors["score_norm.weight"@].data,
        weights.score_norm_beta@ == tensors["score_norm.bias"@].data,
        0 <= i < layers ==> ({
            let l = weights.layers@[i];
            let p = "encoder.layers."@ + decimal(i as nat);
            let b = tensors[p + ".self_attn.in_proj_bias"@].data;
            &&& l.query_bias@ == b.subrange(0, d as int)
            &&& l.key_bias@ == b.subrange(d as int, 2 * d)
            &&& l.value_bias@ == b.subrange(2 * d, 3 * d)
            &&& l.output_bias@ == tensors[p + ".self_attn.out_proj.bias"@].data
            &&& l.norm_2_gamma@ == tensors[p + ".norm1.weight"@].data
            &&& l.norm_2_beta@ == tensors[p + ".norm1.bias"@].data
            &&& l.norm_1_gamma@ == tensors[p + ".norm2.weight"@].data
            &&& l.norm_1_beta@ == tensors[p + ".norm2.bias"@].data
            &&& l.inner_bias@ == tensors[p + ".linear1.bias"@].data
            &&& l.outer_bias@ == tensors[p + ".linear2.bias"@].data
        }),
{
    if 0 <= i < layers {
        assert(is_layer(weights.layers@[i], tensors, d, i as nat));
    }
}

/// The query, key and value weights of a layer are, in that order, the first, second and third
/// block of `d` rows of the stored matrix: row `c`, column `o` of each is row `o`, column `c` of its
/// block.
pub proof fn law_record_projections(
    weights: TransformerWeights,
    tensors: Tensors,
    d: usize,
    layers: nat,
    i: int,
    o: int,
    c: int,
)
    requires
        is_record(weights, tensors, d, layers),
        0 <= i < layers,
        0 <= o < d,
        0 <= c < d,
        tensors["encoder.layers."@ + decimal(i as nat) + ".self_attn.in_proj_weight"@].data.len() >= 3
            * (d * d),
    ensures
        ({
            let l = weights.layers@[i];
            let w = tensors["encoder.layers."@ + decimal(i as nat)
                + ".self_attn.in_proj_weight"@].data;
            &&& l.query_weight.rows == d && l.query_weight.columns == d
            &&& l.key_weight.rows == d && l.key_weight.columns == d
            &&& l.value_weight.rows == d && l.value_weight.columns == d
            &&& l.query_weight.data@.len() == d * d
            &&& l.key_weight.data@.len() == d * d
            &&& l.value_weight.data@.len() == d * d
            &&& l.query_weight.data@[c * d + o] == w[o * d + c]
            &&& l.key_weight.data@[c * d + o] == w[(d + o) * d + c]
            &&& l.value_weight.data@[c * d + o] == w[(2 * d + o) * d + c]
        }),
{
    let l = weights.layers@[i];
    assert(is_layer(l, tensors, d, i as nat));
    let t = tensors["encoder.layers."@ + decimal(i as nat) + ".self_attn.in_proj_weight"@];
    law_projections_are_blocks(t, d, 0, o, c);
    law_projections_are_blocks(t, d, 1, o, c);
    law_projections_are_blocks(t, d, 2, o, c);
    assert(l.query_weight@ == projection(t, d, 0));
    assert(l.key_weight@ == projection(t, d, 1));
    assert(l.value_weight@ == projection(t, d, 2));
}

/// Row `c`, column `o` of what a linear layer makes of its stored weight is row `o`, column `c` of
/// the stored weight.
pub proof fn law_linear_swaps(t: TensorSpec, o: int, c: int)
    requires
        t.shape.len() >= 2,
        t.shape[0] * t.shape[1] == t.data.len(),
        0 <= o < t.shape[0],
        0 <= c < t.shape[1],
    ensures
        linear_of(t).rows == t.shape[1],
        linear_of(t).columns == t.shape[0],
        linear_of(t).data.len() == t.data.len(),
        linear_of(t).data[c * t.shape[0] + o] == t.data[o * t.shape[1] + c],
{
    law_transpose_swaps(t.data, t.shape[0] as int, t.shape[1] as int, o, c);
}

/// The weights of the linear layers of a filled encoder are made of the tensors of their names.
pub proof fn law_record_linears(
    weights: TransformerWeights,
    tensors: Tensors,
    d: usize,
    layers: nat,
    i: int,
)
    requires
        is_record(weights, tensors, d, layers),
    ensures
        weights.input_proj_weight@ == linear_of(tensors["input_proj.weight"@]),
        weights.qk_proj_weight@ == linear_of(tensors["qk_proj.weight"@]),
        0 <= i < layers ==> ({
            let l = weights.layers@[i];
            let p = "encoder.layers."@ + decimal(i as nat);
            &&& l.output_weight@ == linear_of(tensors[p + ".self_attn.out_proj.weight"@])
            &&& l.inner_weight@ == linear_of(tensors[p + ".linear1.weight"@])
            &&& l.outer_weight@ == linear_of(tensors[p + ".linear2.weight"@])
        }),
{
    if 0 <= i < layers {
        assert(is_layer(weights.layers@[i], tensors, d, i as nat));
    }
}

/// A matrix is seen as its elements in the order they are stored, with its rows and columns.
pub proof fn law_matrix_is_its_fields(m: Matrix)
    ensures
        m@.data == m.data@,
        m@.rows == m.rows,
        m@.columns == m.columns,
{
}

/// The tensors that are read before the first missing one fit an encoder exactly if the weights of
/// its linear layers among them are matrices, and the stored projections and their biases among
/// them have room for three of each. What comes after the first missing one does not matter.
pub proof fn law_record_fits(tensors: Tensors, d: usize, layers: nat)
    ensures
        record_fits(tensors, d, layers) <==> {
            let m = first_missing(record_names(layers), tensors);
            let matrix = |t: TensorSpec|
                t.shape.len() >= 2 && t.shape[0] * t.shape[1] == t.data.len();
            &&& m > 0 ==> matrix(tensors["input_proj.weight"@])
            &&& m > 4 ==> matrix(tensors["qk_proj.weight"@])
            &&& forall|i: nat|
                i < layers ==> {
                    let p = "encoder.layers."@ + #[trigger] decimal(i);
                    &&& m > 5 + 12 * i ==> tensors[p + ".self_attn.in_proj_weight"@].data.len() >= 3 * (d
                        * d)
                    &&& m > 6 + 12 * i ==> tensors[p + ".self_attn.in_proj_bias"@].data.len() >= 3 * d
                    &&& m > 7 + 12 * i ==> matrix(tensors[p + ".self_attn.out_proj.weight"@])
                    &&& m > 13 + 12 * i ==> matrix(tensors[p + ".linear1.weight"@])
                    &&& m > 15 + 12 * i ==> matrix(tensors[p + ".linear2.weight"@])
                }
        },
{
    let m = first_missing(record_names(layers), tensors);
    lemma_first_missing(record_names(layers), tensors);
    if record_fits(tensors, d, layers) {
        if m > 0 {
            assert(slot_fits(0, tensors[record_name(0)], d));
        }
        if m > 4 {
            assert(slot_fits(4, tensors[record_name(4)], d));
        }
        assert forall|i: nat| i < layers implies {
            let p = "encoder.layers."@ + #[trigger] decimal(i);
            &&& m > 5 + 12 * i ==> tensors[p + ".self_attn.in_proj_weight"@].data.len() >= 3 * (d
                * d)
            &&& m > 6 + 12 * i ==> tensors[p + ".self_attn.in_proj_bias"@].data.len() >= 3 * d
            &&& m > 7 + 12 * i ==> is_matrix(tensors[p + ".self_attn.out_proj.weight"@])
            &&& m > 13 + 12 * i ==> is_matrix(tensors[p + ".linear1.weight"@])
            &&& m > 15 + 12 * i ==> is_matrix(tensors[p + ".linear2.weight"@])
        } by {
            lemma_slot(layers, i, 0);
            lemma_slot(layers, i, 1);
            lemma_slot(layers, i, 2);
            lemma_slot(layers, i, 8);
            lemma_slot(layers, i, 10);
            if m > slot(i, 0) {
                assert(slot_fits(slot(i, 0), tensors[record_name(slot(i, 0))], d));
            }
            if m > slot(i, 1) {
                assert(slot_fits(slot(i, 1), tensors[record_name(slot(i, 1))], d));
            }
            if m > slot(i, 2) {
                assert(slot_fits(slot(i, 2), tensors[record_name(slot(i, 2))], d));
            }
            if m > slot(i, 8) {
                assert(slot_fits(slot(i, 8), tensors[record_name(slot(i, 8))], d));
            }
            if m > slot(i, 10) {
                assert(slot_fits(slot(i, 10), tensors[record_name(slot(i, 10))], d));
            }
        }
    }
    if {
        &&& m > 0 ==> is_matrix(tensors["input_proj.weight"@])
        &&& m > 4 ==> is_matrix(tensors["qk_proj.weight"@])
        &&& forall|i: nat|
            i < layers ==> {
                let p = "encoder.layers."@ + #[trigger] decimal(i);
                &&& m > 5 + 12 * i ==> tensors[p + ".self_attn.in_proj_weight"@].data.len() >= 3 * (d
                    * d)
                &&& m > 6 + 12 * i ==> tensors[p + ".self_attn.in_proj_bias"@].data.len() >= 3 * d
                &&& m > 7 + 12 * i ==> is_matrix(tensors[p + ".self_attn.out_proj.weight"@])
                &&& m > 13 + 12 * i ==> is_matrix(tensors[p + ".linear1.weight"@])
                &&& m > 15 + 12 * i ==> is_matrix(tensors[p + ".linear2.weight"@])
            }
    } {
        assert forall|k: int| 0 <= k < m implies slot_fits(
            k,
            tensors[#[trigger] record_name(k)],
            d,
        ) by {
            if k >= head_count() {
                let i = ((k - head_count()) / part_count()) as nat;
                let p = (k - head_count()) % part_count();
                assert(i < layers);
                assert(decimal(i) == decimal(i));
                assert(k == 5 + 12 * i + p);
                assert(record_name(k) == layer_name(i, p));
            }
        }
    }
}

/// Transposing a matrix twice gives it back.
pub proof fn law_transpose_is_an_involution(data: Seq<u32>, out_f: int, in_f: int)
    requires
        out_f >= 0,
        in_f >= 0,
        data.len() == out_f * in_f,
    ensures
        transposed(transposed(data, out_f, in_f), in_f, out_f) == data,
{
    let once = transposed(data, out_f, in_f);
    let twice = transposed(once, in_f, out_f);
    assert(in_f * out_f == out_f * in_f) by (nonlinear_arith);
    assert forall|p: int| 0 <= p < data.len() implies twice[p] == data[p] by {
        assert(in_f > 0 && out_f > 0) by (nonlinear_arith)
            requires
                0 <= p < out_f * in_f,
                out_f >= 0,
                in_f >= 0,
        ;
        let o = p / in_f;
        let i = p % in_f;
        vstd::arithmetic::div_mod::lemma_fundamental_div_mod(p, in_f);
        assert(0 <= o < out_f && 0 <= i < in_f && o * in_f + i == p) by (nonlinear_arith)
            requires
                0 <= p < out_f * in_f,
                in_f > 0,
                o == p / in_f,
                i == p % in_f,
                p == in_f * (p / in_f) + (p % in_f),
        ;
        law_transpose_swaps(data, out_f, in_f, o, i);
        law_transpose_swaps(once, in_f, out_f, i, o);
    }
    assert(twice =~= data);
}

/// The `k`-th projection is the `k`-th block of `d` rows of the stored matrix: its row `i`,
/// column `o` is row `k * d + o`, column `i` there.
pub proof fn law_projections_are_blocks(t: TensorSpec, d: usize, k: int, o: int, i: int)
    requires
        t.data.len() >= 3 * (d * d),
        0 <= k < 3,
        0 <= o < d,
        0 <= i < d,
    ensures
        projection(t, d, k).data.len() == d * d,
        0 <= i * d + o < d * d,
        0 <= (k * d + o) * d + i < t.data.len(),
        projection(t, d, k).data[i * d + o] == t.data[(k * d + o) * d + i],
{
    let n = d * d;
    assert(0 <= k * n && (k + 1) * n == k * n + n && (k + 1) * n <= 3 * n && (k * d + o) * d + i == k
        * n + (o * d + i)) by (nonlinear_arith)
        requires
            0 <= k < 3,
            n == d * d,
            d >= 0,
    ;
    law_transpose_swaps(t.data.subrange(k * n, (k + 1) * n), d as int, d as int, o, i);
}

/// The three biases stored in one tensor are that tensor, cut in three.
pub proof fn law_biases_cover(t: TensorSpec, d: usize)
    requires
        t.data.len() == 3 * d,
    ensures
        projection_bias(t, d, 0) + projection_bias(t, d, 1) + projection_bias(t, d, 2) == t.data,
{
    assert(projection_bias(t, d, 0) + projection_bias(t, d, 1) + projection_bias(t, d, 2)
        =~= t.data);
}

} // verus!
