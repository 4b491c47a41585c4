//! Path steps as matrix indices 0 to 10, packed batches of them, and the embedding of a
//! path as a product of matrices.
//!
//! Each [`Position`] expands to one or more of the 11 matrices:
//!
//! | index | matrix | index | matrix | index | matrix |
//! |---|---|---|---|---|---|
//! | 0 | Type | 1 | LHS | 2 | RHS |
//! | 3 | Rule, right | 4 | Rule, down | 5 | Param, right |
//! | 6 | Param, down | 7 | Let, right | 8 | Let, down |
//! | 9 | Arg, right | 10 | Arg, down | | |
//!
//! An indexed position `Kind(i)` is `i + 1` multiplications by the right matrix of its kind,
//! followed by one by the down matrix.

use vstd::prelude::*;

use crate::ir::{Position, Token};
use crate::rows::{flat, lemma_flat_len, lemma_flat_push, lemma_flat_row, uniform, views};
use crate::weights::{first_missing, get, lemma_first_missing, missing_text, TensorMap};

verus! {

/// How many matrices there are.
pub const NUM_MATRICES: usize = 11;

/// The index that stands for no matrix: the identity, with which short paths are padded.
pub const PAD: u8 = 11;

/// Encoded token, goal and premise paths, ready to be laid out as one batch.
#[derive(Clone, Debug)]
pub struct Example {
    pub tokens: Vec<(Vec<u8>, Vec<u8>)>,
    pub goals: Vec<Vec<u8>>,
    pub premises: Vec<Vec<u8>>,
}

impl Default for Example {
    /// No tokens, goals or premises.
    fn default() -> (example: Example)
        ensures
            example.tokens@ == Seq::<(Vec<u8>, Vec<u8>)>::empty(),
            example.goals@ == Seq::<Vec<u8>>::empty(),
            example.premises@ == Seq::<Vec<u8>>::empty(),
    {
        Example { tokens: Vec::new(), goals: Vec::new(), premises: Vec::new() }
    }
}

/// `i + 1` times to the right, then down.
pub open spec fn indexed_steps(right: u8, down: u8, i: usize) -> Seq<u8> {
    Seq::new((i + 1) as nat, |k: int| right).push(down)
}

/// The matrix indices that one position stands for.
pub open spec fn steps_of(pos: Position) -> Seq<u8> {
    match pos {
        Position::Type => seq![0u8],
        Position::LHS => seq![1u8],
        Position::RHS => seq![2u8],
        Position::Rule(i) => indexed_steps(3, 4, i),
        Position::Param(i) => indexed_steps(5, 6, i),
        Position::Let(i) => indexed_steps(7, 8, i),
        Position::Arg(i) => indexed_steps(9, 10, i),
    }
}

/// The matrix indices of a path: those of its positions, in order.
pub open spec fn path_steps(path: Seq<Position>) -> Seq<u8>
    decreases path.len(),
{
    if path.len() == 0 {
        Seq::empty()
    } else {
        path_steps(path.drop_last()) + steps_of(path.last())
    }
}

/// Whether the steps of a path fit in a vector.
pub open spec fn encodable(path: Seq<Position>) -> bool {
    path_steps(path).len() <= isize::MAX
}

/// The steps of each path of a list.
pub open spec fn all_steps(paths: Seq<Seq<Position>>) -> Seq<Seq<u8>> {
    Seq::new(paths.len(), |i: int| path_steps(paths[i]))
}

/// Where each token stands.
pub open spec fn token_positions(tokens: Seq<Token>) -> Seq<Seq<Position>> {
    Seq::new(tokens.len(), |i: int| tokens[i].position@)
}

/// Where the symbol of each token is declared.
pub open spec fn token_declarations(tokens: Seq<Token>) -> Seq<Seq<Position>> {
    Seq::new(tokens.len(), |i: int| tokens[i].declaration@)
}

/// Whether each path of a list is encodable.
pub open spec fn all_encodable(paths: Seq<Seq<Position>>) -> bool {
    forall|i: int| 0 <= i < paths.len() ==> encodable(#[trigger] paths[i])
}

/// The length of a path's steps is the sum over its positions, so it grows with the path.
proof fn lemma_take_encodable(path: Seq<Position>, k: int)
    requires
        0 <= k < path.len(),
    ensures
        path_steps(path.take(k + 1)) == path_steps(path.take(k)) + steps_of(path[k]),
        path_steps(path.take(k + 1)).len() <= path_steps(path).len(),
    decreases path.len() - k,
{
    assert(path.take(k + 1).drop_last() =~= path.take(k));
    if k + 1 < path.len() {
        lemma_take_encodable(path, k + 1);
    } else {
        assert(path.take(k + 1) =~= path);
    }
}

/// Whether [`encode_path`] takes this path.
pub fn is_encodable(path: &[Position]) -> (ok: bool)
    ensures
        ok == encodable(path@),
        ok == (path_steps(path@).len() <= isize::MAX),
{
    let limit: usize = isize::MAX as usize;
    let mut total: usize = 0;
    for k in 0..path.len()
        invariant
            limit == isize::MAX,
            total <= limit,
            total == path_steps(path@.take(k as int)).len(),
    {
        proof {
            lemma_take_encodable(path@, k as int);
        }
        let more: usize = match path[k] {
            Position::Type | Position::LHS | Position::RHS => 1,
            Position::Rule(i) | Position::Param(i) | Position::Let(i) | Position::Arg(i) => {
                if i >= limit {
                    return false;
                }
                i + 2
            },
        };
        if more > limit - total {
            return false;
        }
        total = total + more;
    }
    assert(path@.take(path@.len() as int) =~= path@);
    true
}

/// `i + 1` times `right`, then `down`.
fn indexed(right: u8, down: u8, i: usize) -> (steps: Vec<u8>)
    requires
        i + 2 <= isize::MAX,
    ensures
        steps@ == indexed_steps(right, down, i),
{
    let mut steps: Vec<u8> = vec![right; i + 1];
    assert(steps@ =~= Seq::new((i + 1) as nat, |k: int| right));
    steps.push(down);
    steps
}

/// The matrix indices that one position stands for.
pub fn position_to_steps(pos: Position) -> (steps: Vec<u8>)
    requires
        steps_of(pos).len() <= isize::MAX,
    ensures
        steps@ == steps_of(pos),
        match pos {
            Position::Type => steps@ == seq![0u8],
            Position::LHS => steps@ == seq![1u8],
            Position::RHS => steps@ == seq![2u8],
            Position::Rule(i) => steps@ == Seq::new((i + 1) as nat, |k: int| 3u8).push(4u8),
            Position::Param(i) => steps@ == Seq::new((i + 1) as nat, |k: int| 5u8).push(6u8),
            Position::Let(i) => steps@ == Seq::new((i + 1) as nat, |k: int| 7u8).push(8u8),
            Position::Arg(i) => steps@ == Seq::new((i + 1) as nat, |k: int| 9u8).push(10u8),
        },
{
    let steps: Vec<u8> = match pos {
        Position::Type => vec![0],
        Position::LHS => vec![1],
        Position::RHS => vec![2],
        Position::Rule(i) => indexed(3, 4, i),
        Position::Param(i) => indexed(5, 6, i),
        Position::Let(i) => indexed(7, 8, i),
        Position::Arg(i) => indexed(9, 10, i),
    };
    assert(steps@ =~= steps_of(pos));
    steps
}

/// The matrix indices of a path.
pub fn encode_path(path: &[Position]) -> (steps: Vec<u8>)
    requires
        encodable(path@),
    ensures
        steps@ == path_steps(path@),
{
    let mut steps: Vec<u8> = Vec::new();
    for k in 0..path.len()
        invariant
            encodable(path@),
            steps@ == path_steps(path@.take(k as int)),
    {
        proof {
            lemma_take_encodable(path@, k as int);
        }
        let mut next: Vec<u8> = position_to_steps(path[k]);
        steps.append(&mut next);
    }
    assert(path@.take(path@.len() as int) =~= path@);
    steps
}

/// Token rows `[position | declaration]` and bind rows `[declaration | declaration]` as step
/// sequences: the left halves and the right halves.
pub fn sequence_paths(tokens: &[Token], bind_paths: &[Vec<Position>]) -> (halves: (
    Vec<Vec<u8>>,
    Vec<Vec<u8>>,
))
    requires
        all_encodable(token_positions(tokens@)),
        all_encodable(token_declarations(tokens@)),
        all_encodable(views(bind_paths@)),
    ensures
        views(halves.0@) == all_steps(token_positions(tokens@)) + all_steps(views(bind_paths@)),
        views(halves.1@) == all_steps(token_declarations(tokens@)) + all_steps(views(bind_paths@)),
        halves.0@.len() == tokens@.len() + bind_paths@.len(),
        halves.1@.len() == tokens@.len() + bind_paths@.len(),
        forall|i: int|
            0 <= i < tokens@.len() ==> {
                &&& halves.0@[i]@ == path_steps((#[trigger] tokens@[i]).position@)
                &&& halves.1@[i]@ == path_steps(tokens@[i].declaration@)
            },
        forall|j: int|
            0 <= j < bind_paths@.len() ==> {
                &&& halves.0@[tokens@.len() + j]@ == path_steps((#[trigger] bind_paths@[j])@)
                &&& halves.1@[tokens@.len() + j]@ == path_steps(bind_paths@[j]@)
            },
{
    let mut left: Vec<Vec<u8>> = Vec::new();
    let mut right: Vec<Vec<u8>> = Vec::new();
    for k in 0..tokens.len()
        invariant
            all_encodable(token_positions(tokens@)),
            all_encodable(token_declarations(tokens@)),
            views(left@) == all_steps(token_positions(tokens@)).take(k as int),
            views(right@) == all_steps(token_declarations(tokens@)).take(k as int),
    {
        assert(encodable(token_positions(tokens@)[k as int]));
        assert(encodable(token_declarations(tokens@)[k as int]));
        let l: Vec<u8> = encode_path(tokens[k].position.as_slice());
        let r: Vec<u8> = encode_path(tokens[k].declaration.as_slice());
        let ghost left0 = left@;
        let ghost right0 = right@;
        left.push(l);
        right.push(r);
        proof {
            lemma_views_push(left0, l);
            lemma_views_push(right0, r);
        }
        assert(views(left@) =~= all_steps(token_positions(tokens@)).take(k + 1));
        assert(views(right@) =~= all_steps(token_declarations(tokens@)).take(k + 1));
    }
    let ghost binds = all_steps(views(bind_paths@));
    for k in 0..bind_paths.len()
        invariant
            all_encodable(views(bind_paths@)),
            binds == all_steps(views(bind_paths@)),
            views(left@) == all_steps(token_positions(tokens@)) + binds.take(k as int),
            views(right@) == all_steps(token_declarations(tokens@)) + binds.take(k as int),
    {
        assert(encodable(views(bind_paths@)[k as int]));
        let e: Vec<u8> = encode_path(bind_paths[k].as_slice());
        let copy: Vec<u8> = vstd::slice::slice_to_vec(e.as_slice());
        let ghost left0 = left@;
        let ghost right0 = right@;
        left.push(copy);
        right.push(e);
        proof {
            lemma_views_push(left0, copy);
            lemma_views_push(right0, e);
        }
        assert(binds.take(k + 1) =~= binds.take(k as int).push(e@));
        assert(views(left@) =~= all_steps(token_positions(tokens@)) + binds.take(k + 1));
        assert(views(right@) =~= all_steps(token_declarations(tokens@)) + binds.take(k + 1));
    }
    assert(binds.take(binds.len() as int) =~= binds);
    proof {
        let ls = views(left@);
        let rs = views(right@);
        assert(left@.len() == ls.len() && right@.len() == rs.len());
        assert forall|i: int| 0 <= i < tokens@.len() implies left@[i]@ == path_steps(
            (#[trigger] tokens@[i]).position@,
        ) && right@[i]@ == path_steps(tokens@[i].declaration@) by {
            assert(left@[i]@ == ls[i] && right@[i]@ == rs[i]);
        }
        assert forall|j: int| 0 <= j < bind_paths@.len() implies left@[tokens@.len() + j]@
            == path_steps((#[trigger] bind_paths@[j])@) && right@[tokens@.len() + j]@ == path_steps(
            bind_paths@[j]@,
        ) by {
            assert(left@[tokens@.len() + j]@ == ls[tokens@.len() + j]);
            assert(right@[tokens@.len() + j]@ == rs[tokens@.len() + j]);
        }
    }
    (left, right)
}

/// Pushing a vector pushes its contents.
pub(crate) proof fn lemma_views_push<T>(rows: Seq<Vec<T>>, row: Vec<T>)
    ensures
        views(rows.push(row)) == views(rows).push(row@),
{
    assert(views(rows.push(row)) =~= views(rows).push(row@));
}

/// The longest length in a list of paths, and at least 1.
pub open spec fn longest(paths: Seq<Seq<u8>>) -> nat
    decreases paths.len(),
{
    if paths.len() == 0 {
        1
    } else if paths.last().len() > longest(paths.drop_last()) {
        paths.last().len()
    } else {
        longest(paths.drop_last())
    }
}

/// Width of a packed batch. At least 1, so that the walk along a path has a trip count.
pub fn packed_len(paths: &[Vec<u8>]) -> (len: usize)
    ensures
        len == longest(views(paths@)),
        len >= 1,
        forall|i: int| 0 <= i < paths@.len() ==> (#[trigger] paths@[i])@.len() <= len,
        len > 1 ==> exists|i: int| 0 <= i < paths@.len() && (#[trigger] paths@[i])@.len() == len,
{
    let mut len: usize = 1;
    for k in 0..paths.len()
        invariant
            len == longest(views(paths@).take(k as int)),
    {
        assert(views(paths@).take(k + 1).drop_last() =~= views(paths@).take(k as int));
        if paths[k].len() > len {
            len = paths[k].len();
        }
    }
    assert(views(paths@).take(paths@.len() as int) =~= views(paths@));
    proof {
        law_packed_width(views(paths@));
        assert forall|i: int| 0 <= i < paths@.len() implies (#[trigger] paths@[i])@.len() <= len by {
            assert(views(paths@)[i] == paths@[i]@);
        }
        if len > 1 {
            let i = choose|i: int|
                0 <= i < views(paths@).len() && (#[trigger] views(paths@)[i]).len() == len;
            assert(paths@[i]@.len() == len);
        }
    }
    len
}

/// One step in a packed batch: anything past the matrices is padding.
pub open spec fn packed_step(step: u8) -> i64 {
    if step < PAD {
        step as i64
    } else {
        PAD as i64
    }
}

/// A path as one row of a packed batch: cut off after `path_len` steps, or padded to that.
pub open spec fn packed_row(path: Seq<u8>, path_len: int) -> Seq<i64> {
    Seq::new(
        path_len as nat,
        |j: int|
            if j < path.len() {
                packed_step(path[j])
            } else {
                PAD as i64
            },
    )
}

/// The rows of a packed batch.
pub open spec fn packed_rows(paths: Seq<Seq<u8>>, path_len: int) -> Seq<Seq<i64>> {
    Seq::new(paths.len(), |i: int| packed_row(paths[i], path_len))
}

/// A packed batch, row-major.
pub open spec fn packed(paths: Seq<Seq<u8>>, path_len: int) -> Seq<i64> {
    flat(packed_rows(paths, path_len))
}

/// A packed batch has `path_len` steps for each path.
pub proof fn lemma_packed_len(paths: Seq<Seq<u8>>, path_len: int)
    requires
        path_len >= 0,
    ensures
        packed(paths, path_len).len() == paths.len() * path_len,
{
    assert(uniform(packed_rows(paths, path_len), path_len));
    lemma_flat_len(packed_rows(paths, path_len), path_len);
}

/// Whether a batch of `seq` rows and `path_len` columns fits in a vector of `i64`.
pub open spec fn packable(seq: int, path_len: int) -> bool {
    seq * path_len * 8 <= isize::MAX
}

/// Row-major `[seq, path_len]` steps, padded with [`PAD`].
pub fn pack_paths(paths: &[Vec<u8>], path_len: usize) -> (out: Vec<i64>)
    requires
        packable(paths@.len() as int, path_len as int),
    ensures
        out@ == packed(views(paths@), path_len as int),
{
    let ghost rows = packed_rows(views(paths@), path_len as int);
    let mut out: Vec<i64> = Vec::new();
    for i in 0..paths.len()
        invariant
            rows == packed_rows(views(paths@), path_len as int),
            out@ == flat(rows.take(i as int)),
    {
        let ghost row = rows[i as int];
        for j in 0..path_len
            invariant
                i < paths@.len(),
                row == packed_row(paths@[i as int]@, path_len as int),
                out@ == flat(rows.take(i as int)) + row.take(j as int),
        {
            let cell: i64 = if j < paths[i].len() && paths[i][j] < PAD {
                paths[i][j] as i64
            } else {
                PAD as i64
            };
            out.push(cell);
            assert(row.take(j + 1) =~= row.take(j as int).push(cell));
        }
        assert(row.take(path_len as int) =~= row);
        proof {
            lemma_flat_push(rows.take(i as int), row);
            assert(rows.take(i + 1) =~= rows.take(i as int).push(row));
        }
    }
    assert(rows.take(paths@.len() as int) =~= rows);
    out
}

/// The width at which two lists of paths are packed together.
pub open spec fn pair_len(left: Seq<Seq<u8>>, right: Seq<Seq<u8>>) -> nat {
    if longest(left) < longest(right) {
        longest(right)
    } else {
        longest(left)
    }
}

/// Packs `left` and `right` to the same `[seq, path_len]`, where `path_len` is the length of
/// the longest path on either side, and at least 1.
pub fn pack_pair(left: &[Vec<u8>], right: &[Vec<u8>]) -> (pair: (Vec<i64>, Vec<i64>, usize))
    requires
        packable(left@.len() as int, pair_len(views(left@), views(right@)) as int),
        packable(right@.len() as int, pair_len(views(left@), views(right@)) as int),
    ensures
        pair.2 == pair_len(views(left@), views(right@)),
        pair.0@ == packed(views(left@), pair.2 as int),
        pair.1@ == packed(views(right@), pair.2 as int),
        pair.2 >= 1,
        forall|i: int| 0 <= i < left@.len() ==> (#[trigger] left@[i])@.len() <= pair.2,
        forall|i: int| 0 <= i < right@.len() ==> (#[trigger] right@[i])@.len() <= pair.2,
        pair.2 > 1 ==> (exists|i: int|
            0 <= i < left@.len() && (#[trigger] left@[i])@.len() == pair.2) || (exists|i: int|
            0 <= i < right@.len() && (#[trigger] right@[i])@.len() == pair.2),
{
    let l: usize = packed_len(left);
    let r: usize = packed_len(right);
    let path_len: usize = if l < r {
        r
    } else {
        l
    };
    (pack_paths(left, path_len), pack_paths(right, path_len), path_len)
}

/// The tensors that hold the matrices, by index.
pub open spec fn matrix_names() -> Seq<Seq<char>> {
    seq![
        "unit_matrices.Type"@,
        "unit_matrices.LHS"@,
        "unit_matrices.RHS"@,
        "right_matrices.Rule"@,
        "down_matrices.Rule"@,
        "right_matrices.Param"@,
        "down_matrices.Param"@,
        "right_matrices.Let"@,
        "down_matrices.Let"@,
        "right_matrices.Arg"@,
        "down_matrices.Arg"@,
    ]
}

/// The name of the tensor that holds matrix `index`.
pub fn matrix_name(index: usize) -> (name: &'static str)
    requires
        index < NUM_MATRICES,
    ensures
        name@ == matrix_names()[index as int],
{
    match index {
        0 => "unit_matrices.Type",
        1 => "unit_matrices.LHS",
        2 => "unit_matrices.RHS",
        3 => "right_matrices.Rule",
        4 => "down_matrices.Rule",
        5 => "right_matrices.Param",
        6 => "down_matrices.Param",
        7 => "right_matrices.Let",
        8 => "down_matrices.Let",
        9 => "right_matrices.Arg",
        _ => "down_matrices.Arg",
    }
}

/// The tensors of an embedding file, in the order in which they are looked up.
pub open spec fn embedding_names() -> Seq<Seq<char>> {
    seq!["root"@] + matrix_names()
}

/// The root vector, and the row-major `dim x dim` matrices by index. Elements are bit patterns
/// of 32-bit floats.
pub struct PositionMatrices {
    pub dim: usize,
    pub root: Vec<u32>,
    pub matrices: Vec<Vec<u32>>,
}

impl PositionMatrices {
    /// The elements of a matrix.
    pub open spec fn matrix(&self, index: int) -> Seq<u32> {
        self.matrices@[index]@
    }

    /// The root has `dim` elements, and there is a matrix for each index.
    pub open spec fn wf(&self) -> bool {
        self.root@.len() == self.dim && self.matrices@.len() == NUM_MATRICES
    }

    /// Whether each matrix that these steps name is large enough to multiply by.
    pub open spec fn covers(&self, steps: Seq<u8>) -> bool {
        forall|k: int|
            0 <= k < steps.len() && (#[trigger] steps[k]) < PAD ==> self.matrix(
                steps[k] as int,
            ).len() >= self.dim * self.dim
    }

    /// Whether each matrix that these paths name is large enough to multiply by.
    pub open spec fn covers_all(&self, paths: Seq<Seq<u8>>) -> bool {
        forall|i: int| 0 <= i < paths.len() ==> self.covers(#[trigger] paths[i])
    }

    /// The matrices of an embedding file, or a message that names the first that is missing.
    pub fn load(tensors: &TensorMap) -> (result: Result<PositionMatrices, String>)
        ensures
            result is Ok <==> first_missing(embedding_names(), tensors@) == embedding_names().len(),
            result matches Ok(pm) ==> {
                &&& pm.wf()
                &&& pm.dim == tensors@["root"@].data.len()
                &&& pm.root@ == tensors@["root"@].data
                &&& forall|k: int|
                    0 <= k < NUM_MATRICES ==> #[trigger] pm.matrix(k)
                        == tensors@[matrix_names()[k]].data
                &&& pm.matrices@.len() == 11
                &&& pm.matrices@[0]@ == tensors@["unit_matrices.Type"@].data
                &&& pm.matrices@[1]@ == tensors@["unit_matrices.LHS"@].data
                &&& pm.matrices@[2]@ == tensors@["unit_matrices.RHS"@].data
                &&& pm.matrices@[3]@ == tensors@["right_matrices.Rule"@].data
                &&& pm.matrices@[4]@ == tensors@["down_matrices.Rule"@].data
                &&& pm.matrices@[5]@ == tensors@["right_matrices.Param"@].data
                &&& pm.matrices@[6]@ == tensors@["down_matrices.Param"@].data
                &&& pm.matrices@[7]@ == tensors@["right_matrices.Let"@].data
                &&& pm.matrices@[8]@ == tensors@["down_matrices.Let"@].data
                &&& pm.matrices@[9]@ == tensors@["right_matrices.Arg"@].data
                &&& pm.matrices@[10]@ == tensors@["down_matrices.Arg"@].data
            },
            result matches Err(message) ==> message@ == missing_text(
                embedding_names()[first_missing(embedding_names(), tensors@) as int],
            ),
            result matches Err(message) ==> message@ == "missing "@
                + embedding_names()[first_missing(embedding_names(), tensors@) as int],
    {
        proof {
            lemma_first_missing(embedding_names(), tensors@);
            assert(embedding_names()[0] == "root"@);
        }
        let root: Vec<u32> = match get(tensors, "root") {
            Ok(tensor) => vstd::slice::slice_to_vec(tensor.data.as_slice()),
            Err(message) => {
                return Err(message);
            },
        };
        let mut matrices: Vec<Vec<u32>> = Vec::new();
        for k in 0..NUM_MATRICES
            invariant
                matrices@.len() == k,
                first_missing(embedding_names(), tensors@) > k,
                first_missing(embedding_names(), tensors@) <= embedding_names().len(),
                forall|j: int|
                    0 <= j < first_missing(embedding_names(), tensors@) ==> tensors@.contains_key(
                        #[trigger] embedding_names()[j],
                    ),
                first_missing(embedding_names(), tensors@) < embedding_names().len()
                    ==> !tensors@.contains_key(
                    embedding_names()[first_missing(embedding_names(), tensors@) as int],
                ),
                forall|j: int|
                    0 <= j < k ==> (#[trigger] matrices@[j])@ == tensors@[matrix_names()[j]].data,
        {
            assert(embedding_names()[k + 1] == matrix_names()[k as int]);
            match get(tensors, matrix_name(k)) {
                Ok(tensor) => {
                    matrices.push(vstd::slice::slice_to_vec(tensor.data.as_slice()));
                },
                Err(message) => {
                    return Err(message);
                },
            }
        }
        let pm: PositionMatrices = PositionMatrices { dim: root.len(), root, matrices };
        proof {
            law_matrix_names();
            assert(forall|k: int| 0 <= k < NUM_MATRICES ==> #[trigger] pm.matrix(k) == pm.matrices@[k]@);
            assert(pm.matrix(0) == pm.matrices@[0]@ && pm.matrix(1) == pm.matrices@[1]@ && pm.matrix(2)
                == pm.matrices@[2]@ && pm.matrix(3) == pm.matrices@[3]@ && pm.matrix(4)
                == pm.matrices@[4]@ && pm.matrix(5) == pm.matrices@[5]@);
            assert(pm.matrix(6) == pm.matrices@[6]@ && pm.matrix(7) == pm.matrices@[7]@ && pm.matrix(8)
                == pm.matrices@[8]@ && pm.matrix(9) == pm.matrices@[9]@ && pm.matrix(10)
                == pm.matrices@[10]@);
        }
        Ok(pm)
    }

    /// The root vector times the matrices of these steps, in order.
    ///
    /// `mul_add(s, x, y)` is `s + x * y` on bit patterns.
    pub fn embed_path<F: Fn(u32, u32, u32) -> u32 + Copy>(&self, steps: &[u8], mul_add: F) -> (out:
        Vec<u32>)
        requires
            self.wf(),
            self.covers(steps@),
            forall|s: u32, x: u32, y: u32| #[trigger] mul_add.requires((s, x, y)),
        ensures
            embeds(mul_add, *self, steps@, out@),
            out@.len() == self.dim,
    {
        let mut v: Vec<u32> = vstd::slice::slice_to_vec(self.root.as_slice());
        let ghost mut vectors: Seq<Seq<u32>> = seq![v@];
        for k in 0..steps.len()
            invariant
                self.wf(),
                self.covers(steps@),
                forall|s: u32, x: u32, y: u32| #[trigger] mul_add.requires((s, x, y)),
                v@.len() == self.dim,
                walks(mul_add, *self, steps@.take(k as int), vectors),
                vectors[k as int] == v@,
        {
            let s: u8 = steps[k];
            if s < PAD {
                v = matvec_left(
                    v.as_slice(),
                    self.matrices[s as usize].as_slice(),
                    self.dim,
                    mul_add,
                );
            }
            proof {
                lemma_walks_push(mul_add, *self, steps@.take(k as int), vectors, s, v@);
                assert(steps@.take(k + 1) =~= steps@.take(k as int).push(s));
                vectors = vectors.push(v@);
            }
        }
        assert(steps@.take(steps@.len() as int) =~= steps@);
        v
    }

    /// A token's row: where it stands, then where its symbol is declared.
    pub fn embed_token<F: Fn(u32, u32, u32) -> u32 + Copy>(
        &self,
        pos: &[u8],
        decl: &[u8],
        mul_add: F,
    ) -> (row: Vec<u32>)
        requires
            self.wf(),
            self.covers(pos@),
            self.covers(decl@),
            forall|s: u32, x: u32, y: u32| #[trigger] mul_add.requires((s, x, y)),
        ensures
            embeds_row(mul_add, *self, pos@, decl@, row@),
            row@.len() == 2 * self.dim,
            embeds(mul_add, *self, pos@, row@.subrange(0, self.dim as int)),
            embeds(mul_add, *self, decl@, row@.subrange(self.dim as int, 2 * self.dim)),
    {
        let mut row: Vec<u32> = self.embed_path(pos, mul_add);
        let mut right: Vec<u32> = self.embed_path(decl, mul_add);
        proof {
            lemma_embeds_len(mul_add, *self, pos@, row@);
            lemma_embeds_len(mul_add, *self, decl@, right@);
        }
        let ghost l = row@;
        let ghost r = right@;
        row.append(&mut right);
        assert(row@.take(self.dim as int) =~= l);
        assert(row@.skip(self.dim as int) =~= r);
        assert(row@.subrange(0, self.dim as int) =~= l);
        assert(row@.subrange(self.dim as int, 2 * self.dim) =~= r);
        row
    }

    /// A bind's row: where it is declared, twice.
    pub fn embed_bind<F: Fn(u32, u32, u32) -> u32 + Copy>(&self, path: &[u8], mul_add: F) -> (row:
        Vec<u32>)
        requires
            self.wf(),
            self.covers(path@),
            forall|s: u32, x: u32, y: u32| #[trigger] mul_add.requires((s, x, y)),
        ensures
            embeds_row(mul_add, *self, path@, path@, row@),
            halves_equal(row@, self.dim as int),
            row@.len() == 2 * self.dim,
            embeds(mul_add, *self, path@, row@.subrange(0, self.dim as int)),
            row@.subrange(0, self.dim as int) == row@.subrange(self.dim as int, 2 * self.dim),
    {
        let mut row: Vec<u32> = self.embed_path(path, mul_add);
        let mut copy: Vec<u32> = vstd::slice::slice_to_vec(row.as_slice());
        proof {
            lemma_embeds_len(mul_add, *self, path@, row@);
        }
        let ghost l = row@;
        row.append(&mut copy);
        assert(row@.take(self.dim as int) =~= l);
        assert(row@.skip(self.dim as int) =~= l);
        assert(row@.subrange(0, self.dim as int) =~= l);
        assert(row@.subrange(self.dim as int, 2 * self.dim) =~= l);
        row
    }

    /// Token rows `[position | declaration]`, then one bind row `[declaration | declaration]`
    /// each, row-major. A bind row is one vector written twice.
    pub fn embed_sequence<F: Fn(u32, u32, u32) -> u32 + Copy>(
        &self,
        tokens: &[Token],
        bind_paths: &[Vec<Position>],
        mul_add: F,
    ) -> (rows: Vec<u32>)
        requires
            self.wf(),
            all_encodable(token_positions(tokens@)),
            all_encodable(token_declarations(tokens@)),
            all_encodable(views(bind_paths@)),
            self.covers_all(all_steps(token_positions(tokens@))),
            self.covers_all(all_steps(token_declarations(tokens@))),
            self.covers_all(all_steps(views(bind_paths@))),
            forall|s: u32, x: u32, y: u32| #[trigger] mul_add.requires((s, x, y)),
        ensures
            embeds_rows(
                mul_add,
                *self,
                all_steps(token_positions(tokens@)) + all_steps(views(bind_paths@)),
                all_steps(token_declarations(tokens@)) + all_steps(views(bind_paths@)),
                rows@,
            ),
            rows@.len() == (tokens@.len() + bind_paths@.len()) * (2 * self.dim),
            forall|i: int|
                tokens@.len() <= i < tokens@.len() + bind_paths@.len() ==> halves_equal(
                    #[trigger] row_at(rows@, 2 * self.dim, i),
                    self.dim as int,
                ),
            forall|i: int|
                0 <= i < tokens@.len() ==> {
                    let at = i * (2 * self.dim);
                    &&& embeds(
                        mul_add,
                        *self,
                        path_steps((#[trigger] tokens@[i]).position@),
                        rows@.subrange(at, at + self.dim),
                    )
                    &&& embeds(
                        mul_add,
                        *self,
                        path_steps(tokens@[i].declaration@),
                        rows@.subrange(at + self.dim, at + 2 * self.dim),
                    )
                },
            forall|j: int|
                0 <= j < bind_paths@.len() ==> {
                    let at = (tokens@.len() + j) * (2 * self.dim);
                    &&& embeds(
                        mul_add,
                        *self,
                        path_steps((#[trigger] bind_paths@[j])@),
                        rows@.subrange(at, at + self.dim),
                    )
                    &&& rows@.subrange(at, at + self.dim) == rows@.subrange(
                        at + self.dim,
                        at + 2 * self.dim,
                    )
                },
    {
        let ghost ls = all_steps(token_positions(tokens@)) + all_steps(views(bind_paths@));
        let ghost rs = all_steps(token_declarations(tokens@)) + all_steps(views(bind_paths@));
        let ghost mut list: Seq<Seq<u32>> = Seq::empty();
        let mut rows: Vec<u32> = Vec::new();
        for i in 0..tokens.len()
            invariant
                self.wf(),
                all_encodable(token_positions(tokens@)),
                all_encodable(token_declarations(tokens@)),
                self.covers_all(all_steps(token_positions(tokens@))),
                self.covers_all(all_steps(token_declarations(tokens@))),
                forall|s: u32, x: u32, y: u32| #[trigger] mul_add.requires((s, x, y)),
                ls == all_steps(token_positions(tokens@)) + all_steps(views(bind_paths@)),
                rs == all_steps(token_declarations(tokens@)) + all_steps(views(bind_paths@)),
                list.len() == i,
                rows@ == flat(list),
                forall|k: int|
                    0 <= k < i ==> embeds_row(mul_add, *self, ls[k], rs[k], #[trigger] list[k]),
        {
            assert(encodable(token_positions(tokens@)[i as int]));
            assert(encodable(token_declarations(tokens@)[i as int]));
            let pos: Vec<u8> = encode_path(tokens[i].position.as_slice());
            let decl: Vec<u8> = encode_path(tokens[i].declaration.as_slice());
            assert(ls[i as int] == pos@ && pos@ == all_steps(token_positions(tokens@))[i as int]);
            assert(rs[i as int] == decl@ && decl@ == all_steps(
                token_declarations(tokens@),
            )[i as int]);
            let mut row: Vec<u32> = self.embed_token(pos.as_slice(), decl.as_slice(), mul_add);
            proof {
                lemma_flat_push(list, row@);
                list = list.push(row@);
            }
            rows.append(&mut row);
        }
        for j in 0..bind_paths.len()
            invariant
                self.wf(),
                all_encodable(views(bind_paths@)),
                self.covers_all(all_steps(views(bind_paths@))),
                forall|s: u32, x: u32, y: u32| #[trigger] mul_add.requires((s, x, y)),
                ls == all_steps(token_positions(tokens@)) + all_steps(views(bind_paths@)),
                rs == all_steps(token_declarations(tokens@)) + all_steps(views(bind_paths@)),
                list.len() == tokens@.len() + j,
                rows@ == flat(list),
                forall|k: int|
                    0 <= k < list.len() ==> embeds_row(
                        mul_add,
                        *self,
                        ls[k],
                        rs[k],
                        #[trigger] list[k],
                    ),
                forall|k: int|
                    tokens@.len() <= k < list.len() ==> halves_equal(
                        #[trigger] list[k],
                        self.dim as int,
                    ),
        {
            assert(encodable(views(bind_paths@)[j as int]));
            let path: Vec<u8> = encode_path(bind_paths[j].as_slice());
            let ghost at = tokens@.len() + j;
            assert(path@ == all_steps(views(bind_paths@))[j as int]);
            assert(ls[at] == path@ && rs[at] == path@);
            let mut row: Vec<u32> = self.embed_bind(path.as_slice(), mul_add);
            proof {
                lemma_flat_push(list, row@);
                list = list.push(row@);
            }
            rows.append(&mut row);
        }
        proof {
            let width = 2 * self.dim;
            assert(uniform(list, width));
            lemma_flat_len(list, width);
            assert forall|i: int| 0 <= i < list.len() implies #[trigger] row_at(rows@, width, i)
                == list[i] by {
                lemma_flat_row(list, width, i);
            }
            lemma_sequence_rows(mul_add, *self, tokens@, bind_paths@, ls, rs, list, rows@);
        }
        rows
    }
}

/// Whether these are running sums of the product of `v` and column `j` of the row-major
/// matrix `m`, from zero on.
pub open spec fn running_sums<F: Fn(u32, u32, u32) -> u32>(
    mul_add: F,
    v: Seq<u32>,
    m: Seq<u32>,
    dim: int,
    j: int,
    sums: Seq<u32>,
) -> bool {
    &&& sums.len() > 0
    &&& sums[0] == 0
    &&& forall|k: int|
        1 <= k < sums.len() ==> mul_add.ensures(
            (sums[k - 1], v[k - 1], m[(k - 1) * dim + j]),
            #[trigger] sums[k],
        )
}

/// Whether `out` can come out as the product of `v` and column `j` of the row-major matrix `m`,
/// added up from zero.
pub open spec fn dots<F: Fn(u32, u32, u32) -> u32>(
    mul_add: F,
    v: Seq<u32>,
    m: Seq<u32>,
    dim: int,
    j: int,
    out: u32,
) -> bool {
    exists|sums: Seq<u32>| #[trigger]
        running_sums(mul_add, v, m, dim, j, sums) && sums.len() == dim + 1 && sums[dim] == out
}

/// Whether `out` can come out as `v` times the `dim x dim` matrix `m`.
pub open spec fn multiplies<F: Fn(u32, u32, u32) -> u32>(
    mul_add: F,
    v: Seq<u32>,
    m: Seq<u32>,
    dim: int,
    out: Seq<u32>,
) -> bool {
    &&& out.len() == dim
    &&& forall|j: int| 0 <= j < dim ==> dots(mul_add, v, m, dim, j, #[trigger] out[j])
}

/// Whether one step can lead from `before` to `after`.
pub open spec fn embeds_step<F: Fn(u32, u32, u32) -> u32>(
    mul_add: F,
    pm: PositionMatrices,
    step: u8,
    before: Seq<u32>,
    after: Seq<u32>,
) -> bool {
    if step < PAD {
        multiplies(mul_add, before, pm.matrix(step as int), pm.dim as int, after)
    } else {
        after == before
    }
}

/// Whether these are the vectors along a path, from the root on.
pub open spec fn walks<F: Fn(u32, u32, u32) -> u32>(
    mul_add: F,
    pm: PositionMatrices,
    steps: Seq<u8>,
    vectors: Seq<Seq<u32>>,
) -> bool {
    &&& vectors.len() == steps.len() + 1
    &&& vectors[0] == pm.root@
    &&& forall|k: int|
        1 <= k < vectors.len() ==> embeds_step(
            mul_add,
            pm,
            steps[k - 1],
            vectors[k - 1],
            #[trigger] vectors[k],
        )
}

/// Whether `out` can come out as the embedding of these steps: the root, multiplied by the
/// matrix of each step in turn.
pub open spec fn embeds<F: Fn(u32, u32, u32) -> u32>(
    mul_add: F,
    pm: PositionMatrices,
    steps: Seq<u8>,
    out: Seq<u32>,
) -> bool {
    exists|vectors: Seq<Seq<u32>>| #[trigger]
        walks(mul_add, pm, steps, vectors) && vectors[steps.len() as int] == out
}

/// Whether `row` can come out as the two embeddings side by side.
pub open spec fn embeds_row<F: Fn(u32, u32, u32) -> u32>(
    mul_add: F,
    pm: PositionMatrices,
    left: Seq<u8>,
    right: Seq<u8>,
    row: Seq<u32>,
) -> bool {
    &&& row.len() == 2 * pm.dim
    &&& embeds(mul_add, pm, left, row.take(pm.dim as int))
    &&& embeds(mul_add, pm, right, row.skip(pm.dim as int))
}

/// Whether a row is one vector of length `dim` written twice.
pub open spec fn halves_equal(row: Seq<u32>, dim: int) -> bool {
    row.take(dim) == row.skip(dim)
}

/// Row `i` of a row-major matrix.
pub open spec fn row_at(rows: Seq<u32>, width: int, i: int) -> Seq<u32> {
    rows.subrange(i * width, (i + 1) * width)
}

/// Whether `rows` can come out as one row for each pair of paths, row-major.
pub open spec fn embeds_rows<F: Fn(u32, u32, u32) -> u32>(
    mul_add: F,
    pm: PositionMatrices,
    left: Seq<Seq<u8>>,
    right: Seq<Seq<u8>>,
    rows: Seq<u32>,
) -> bool {
    &&& rows.len() == left.len() * (2 * pm.dim)
    &&& forall|i: int|
        0 <= i < left.len() ==> embeds_row(
            mul_add,
            pm,
            left[i],
            right[i],
            #[trigger] row_at(rows, 2 * pm.dim, i),
        )
}

/// The halves of a row are stretches of the whole.
proof fn lemma_halves(rows: Seq<u32>, dim: int, i: int, count: int)
    requires
        dim >= 0,
        0 <= i < count,
        rows.len() == count * (2 * dim),
    ensures
        row_at(rows, 2 * dim, i).take(dim) == rows.subrange(i * (2 * dim), i * (2 * dim) + dim),
        row_at(rows, 2 * dim, i).skip(dim) == rows.subrange(
            i * (2 * dim) + dim,
            i * (2 * dim) + 2 * dim,
        ),
{
    let width = 2 * dim;
    assert(0 <= i * width && (i + 1) * width == i * width + width && (i + 1) * width <= count
        * width) by (nonlinear_arith)
        requires
            0 <= i < count,
            width >= 0,
    ;
    assert(row_at(rows, width, i).take(dim) =~= rows.subrange(i * width, i * width + dim));
    assert(row_at(rows, width, i).skip(dim) =~= rows.subrange(i * width + dim, i * width + width));
}

/// Where each token and each bind stands in a sequence of rows.
proof fn lemma_sequence_rows<F: Fn(u32, u32, u32) -> u32>(
    mul_add: F,
    pm: PositionMatrices,
    tokens: Seq<Token>,
    binds: Seq<Vec<Position>>,
    ls: Seq<Seq<u8>>,
    rs: Seq<Seq<u8>>,
    list: Seq<Seq<u32>>,
    rows: Seq<u32>,
)
    requires
        ls == all_steps(token_positions(tokens)) + all_steps(views(binds)),
        rs == all_steps(token_declarations(tokens)) + all_steps(views(binds)),
        list.len() == tokens.len() + binds.len(),
        rows.len() == list.len() * (2 * pm.dim),
        forall|i: int|
            0 <= i < list.len() ==> #[trigger] row_at(rows, 2 * pm.dim, i) == list[i],
        forall|i: int|
            0 <= i < list.len() ==> embeds_row(mul_add, pm, ls[i], rs[i], #[trigger] list[i]),
        forall|i: int|
            tokens.len() <= i < list.len() ==> halves_equal(#[trigger] list[i], pm.dim as int),
    ensures
        forall|i: int|
            0 <= i < tokens.len() ==> {
                let at = i * (2 * pm.dim);
                &&& embeds(
                    mul_add,
                    pm,
                    path_steps((#[trigger] tokens[i]).position@),
                    rows.subrange(at, at + pm.dim),
                )
                &&& embeds(
                    mul_add,
                    pm,
                    path_steps(tokens[i].declaration@),
                    rows.subrange(at + pm.dim, at + 2 * pm.dim),
                )
            },
        forall|j: int|
            0 <= j < binds.len() ==> {
                let at = (tokens.len() + j) * (2 * pm.dim);
                &&& embeds(
                    mul_add,
                    pm,
                    path_steps((#[trigger] binds[j])@),
                    rows.subrange(at, at + pm.dim),
                )
                &&& rows.subrange(at, at + pm.dim) == rows.subrange(at + pm.dim, at + 2 * pm.dim)
            },
{
    let dim = pm.dim as int;
    assert forall|i: int| 0 <= i < tokens.len() implies {
        let at = i * (2 * pm.dim);
        &&& embeds(
            mul_add,
            pm,
            path_steps((#[trigger] tokens[i]).position@),
            rows.subrange(at, at + pm.dim),
        )
        &&& embeds(
            mul_add,
            pm,
            path_steps(tokens[i].declaration@),
            rows.subrange(at + pm.dim, at + 2 * pm.dim),
        )
    } by {
        assert(row_at(rows, 2 * pm.dim, i) == list[i]);
        lemma_halves(rows, dim, i, list.len() as int);
        assert(ls[i] == path_steps(tokens[i].position@));
        assert(rs[i] == path_steps(tokens[i].declaration@));
    }
    assert forall|j: int| 0 <= j < binds.len() implies {
        let at = (tokens.len() + j) * (2 * pm.dim);
        &&& embeds(
            mul_add,
            pm,
            path_steps((#[trigger] binds[j])@),
            rows.subrange(at, at + pm.dim),
        )
        &&& rows.subrange(at, at + pm.dim) == rows.subrange(at + pm.dim, at + 2 * pm.dim)
    } by {
        let i = tokens.len() + j;
        assert(row_at(rows, 2 * pm.dim, i) == list[i]);
        lemma_halves(rows, dim, i, list.len() as int);
        assert(ls[i] == path_steps(binds[j]@));
        assert(halves_equal(list[i], dim));
    }
}

proof fn lemma_walks_push<F: Fn(u32, u32, u32) -> u32>(
    mul_add: F,
    pm: PositionMatrices,
    steps: Seq<u8>,
    vectors: Seq<Seq<u32>>,
    step: u8,
    out: Seq<u32>,
)
    requires
        walks(mul_add, pm, steps, vectors),
        embeds_step(mul_add, pm, step, vectors[steps.len() as int], out),
    ensures
        walks(mul_add, pm, steps.push(step), vectors.push(out)),
{
    let longer = vectors.push(out);
    assert forall|i: int| 1 <= i < longer.len() implies embeds_step(
        mul_add,
        pm,
        steps.push(step)[i - 1],
        longer[i - 1],
        #[trigger] longer[i],
    ) by {
        if i < vectors.len() {
            assert(longer[i] == vectors[i]);
            assert(longer[i - 1] == vectors[i - 1]);
        }
    }
}

proof fn lemma_walks_len<F: Fn(u32, u32, u32) -> u32>(
    mul_add: F,
    pm: PositionMatrices,
    steps: Seq<u8>,
    vectors: Seq<Seq<u32>>,
    k: int,
)
    requires
        pm.wf(),
        walks(mul_add, pm, steps, vectors),
        0 <= k <= steps.len(),
    ensures
        vectors[k].len() == pm.dim,
    decreases k,
{
    if k > 0 {
        lemma_walks_len(mul_add, pm, steps, vectors, k - 1);
        assert(embeds_step(mul_add, pm, steps[k - 1], vectors[k - 1], vectors[k]));
    }
}

proof fn lemma_embeds_len<F: Fn(u32, u32, u32) -> u32>(
    mul_add: F,
    pm: PositionMatrices,
    steps: Seq<u8>,
    out: Seq<u32>,
)
    requires
        pm.wf(),
        embeds(mul_add, pm, steps, out),
    ensures
        out.len() == pm.dim,
{
    let vectors = choose|vectors: Seq<Seq<u32>>| #[trigger]
        walks(mul_add, pm, steps, vectors) && vectors[steps.len() as int] == out;
    lemma_walks_len(mul_add, pm, steps, vectors, steps.len() as int);
}

/// `v` times `m`, for a row-major `dim x dim` matrix `m`.
fn matvec_left<F: Fn(u32, u32, u32) -> u32 + Copy>(
    v: &[u32],
    m: &[u32],
    dim: usize,
    mul_add: F,
) -> (out: Vec<u32>)
    requires
        v@.len() == dim,
        m@.len() >= dim * dim,
        forall|s: u32, x: u32, y: u32| #[trigger] mul_add.requires((s, x, y)),
    ensures
        multiplies(mul_add, v@, m@, dim as int, out@),
{
    let len: usize = m.len();
    let mut out: Vec<u32> = Vec::new();
    for j in 0..dim
        invariant
            v@.len() == dim,
            dim * dim <= len == m@.len(),
            forall|s: u32, x: u32, y: u32| #[trigger] mul_add.requires((s, x, y)),
            out@.len() == j,
            forall|i: int|
                0 <= i < j ==> dots(mul_add, v@, m@, dim as int, i, #[trigger] out@[i]),
    {
        let mut s: u32 = 0;
        let ghost mut sums: Seq<u32> = seq![0u32];
        for k in 0..dim
            invariant
                v@.len() == dim,
                dim * dim <= len == m@.len(),
                j < dim,
                forall|s: u32, x: u32, y: u32| #[trigger] mul_add.requires((s, x, y)),
                running_sums(mul_add, v@, m@, dim as int, j as int, sums),
                sums.len() == k + 1,
                sums[k as int] == s,
        {
            assert(0 <= k * dim && k * dim + j < dim * dim) by (nonlinear_arith)
                requires
                    0 <= k < dim,
                    0 <= j < dim,
            ;
            s = mul_add(s, v[k], m[k * dim + j]);
            proof {
                sums = sums.push(s);
            }
        }
        out.push(s);
        assert(dots(mul_add, v@, m@, dim as int, j as int, s));
    }
    out
}

/// The tensors of an embedding file in the order in which they are looked up: the root, then the
/// matrices by index.
pub proof fn law_matrix_names()
    ensures
        matrix_names().len() == 11,
        matrix_names()[0] == "unit_matrices.Type"@,
        matrix_names()[1] == "unit_matrices.LHS"@,
        matrix_names()[2] == "unit_matrices.RHS"@,
        matrix_names()[3] == "right_matrices.Rule"@,
        matrix_names()[4] == "down_matrices.Rule"@,
        matrix_names()[5] == "right_matrices.Param"@,
        matrix_names()[6] == "down_matrices.Param"@,
        matrix_names()[7] == "right_matrices.Let"@,
        matrix_names()[8] == "down_matrices.Let"@,
        matrix_names()[9] == "right_matrices.Arg"@,
        matrix_names()[10] == "down_matrices.Arg"@,
        embedding_names() == seq!["root"@] + matrix_names(),
{
}

/// A path is encoded position by position, in order: a position without an index as its own
/// matrix, and one with an index as one more than that many times the right matrix of its kind and
/// then the down matrix.
pub proof fn law_encoding_is_end_to_end(path: Seq<Position>)
    ensures
        path_steps(path) == path.map_values(
            |p: Position|
                match p {
                    Position::Type => seq![0u8],
                    Position::LHS => seq![1u8],
                    Position::RHS => seq![2u8],
                    Position::Rule(i) => Seq::new((i + 1) as nat, |k: int| 3u8).push(4u8),
                    Position::Param(i) => Seq::new((i + 1) as nat, |k: int| 5u8).push(6u8),
                    Position::Let(i) => Seq::new((i + 1) as nat, |k: int| 7u8).push(8u8),
                    Position::Arg(i) => Seq::new((i + 1) as nat, |k: int| 9u8).push(10u8),
                },
        ).flatten(),
    decreases path.len(),
{
    let f = |p: Position|
        match p {
            Position::Type => seq![0u8],
            Position::LHS => seq![1u8],
            Position::RHS => seq![2u8],
            Position::Rule(i) => Seq::new((i + 1) as nat, |k: int| 3u8).push(4u8),
            Position::Param(i) => Seq::new((i + 1) as nat, |k: int| 5u8).push(6u8),
            Position::Let(i) => Seq::new((i + 1) as nat, |k: int| 7u8).push(8u8),
            Position::Arg(i) => Seq::new((i + 1) as nat, |k: int| 9u8).push(10u8),
        };
    if path.len() > 0 {
        let init = path.drop_last();
        law_encoding_is_end_to_end(init);
        assert(steps_of(path.last()) =~= f(path.last()));
        init.map_values(f).lemma_flatten_push(f(path.last()));
        assert(path.map_values(f) =~= init.map_values(f).push(f(path.last())));
    } else {
        assert(path.map_values(f) =~= Seq::empty());
    }
}

/// Cell `[i, j]` of a packed batch is step `j` of path `i` where that names a matrix, and 11
/// otherwise.
pub proof fn law_packed_cells(paths: Seq<Seq<u8>>, path_len: int, i: int, j: int)
    requires
        0 <= i < paths.len(),
        0 <= j < path_len,
    ensures
        packed(paths, path_len).len() == paths.len() * path_len,
        0 <= i * path_len + j < packed(paths, path_len).len(),
        packed(paths, path_len)[i * path_len + j] == (if j < paths[i].len() && paths[i][j] < 11 {
            paths[i][j] as i64
        } else {
            11
        }),
{
    let rows = packed_rows(paths, path_len);
    lemma_packed_len(paths, path_len);
    assert(uniform(rows, path_len));
    lemma_flat_row(rows, path_len, i);
    assert((i + 1) * path_len == i * path_len + path_len) by (nonlinear_arith);
    assert(packed(paths, path_len).subrange(i * path_len, (i + 1) * path_len)[j] == rows[i][j]);
}

/// Each step of an encoded path names a matrix: padding is never among them.
pub proof fn law_steps_name_matrices(path: Seq<Position>)
    ensures
        forall|k: int| 0 <= k < path_steps(path).len() ==> (#[trigger] path_steps(path)[k]) < PAD,
    decreases path.len(),
{
    if path.len() > 0 {
        law_steps_name_matrices(path.drop_last());
        let init = path_steps(path.drop_last());
        let last = steps_of(path.last());
        assert forall|k: int| 0 <= k < path_steps(path).len() implies (#[trigger] path_steps(
            path,
        )[k]) < PAD by {
            if k >= init.len() {
                assert(path_steps(path)[k] == last[k - init.len()]);
            } else {
                assert(path_steps(path)[k] == init[k]);
            }
        }
    }
}

/// A path is encoded position by position: the encoding of two paths, one continuing the other,
/// is their encodings one after the other.
pub proof fn law_encoding_concatenates(a: Seq<Position>, b: Seq<Position>)
    ensures
        path_steps(a + b) == path_steps(a) + path_steps(b),
    decreases b.len(),
{
    if b.len() == 0 {
        assert(a + b =~= a);
        assert(path_steps(a) + path_steps(b) =~= path_steps(a));
    } else {
        law_encoding_concatenates(a, b.drop_last());
        assert((a + b).drop_last() =~= a + b.drop_last());
        assert((a + b).last() == b.last());
        assert(path_steps(a + b) =~= path_steps(a) + path_steps(b));
    }
}

/// Whether a step is a right matrix, which never ends a position.
spec fn is_right(step: u8) -> bool {
    step == 3 || step == 5 || step == 7 || step == 9
}

proof fn lemma_last_step(path: Seq<Position>)
    requires
        path.len() > 0,
    ensures
        path_steps(path).len() > 0,
        path_steps(path).last() == steps_of(path.last()).last(),
        !is_right(path_steps(path).last()),
{
    assert(steps_of(path.last()).len() > 0);
}

/// How many right steps a position has.
spec fn right_count(pos: Position) -> int {
    match pos {
        Position::Type | Position::LHS | Position::RHS => 0,
        Position::Rule(i) | Position::Param(i) | Position::Let(i) | Position::Arg(i) => i + 1,
    }
}

/// Two paths with the same encoding end in positions with as many right steps.
proof fn lemma_same_right_count(a: Seq<Position>, b: Seq<Position>)
    requires
        a.len() > 0,
        b.len() > 0,
        path_steps(a) == path_steps(b),
    ensures
        right_count(a.last()) >= right_count(b.last()),
{
    let s = path_steps(a);
    let n = s.len() as int;
    let ca = right_count(a.last());
    let cb = right_count(b.last());
    if ca < cb {
        let init = path_steps(a.drop_last());
        let before = path_steps(b.drop_last());
        assert(s == init + steps_of(a.last()));
        assert(s == before + steps_of(b.last()));
        assert(steps_of(a.last()).len() == ca + 1);
        assert(steps_of(b.last()).len() == cb + 1);
        assert(init.len() == n - 1 - ca);
        assert(before.len() == n - 1 - cb);
        assert(init.len() > 0);
        assert(a.drop_last().len() > 0);
        lemma_last_step(a.drop_last());
        let k = init.len() - 1;
        assert(s[k] == init.last());
        assert(s[k] == steps_of(b.last())[k - before.len()]);
        assert(is_right(s[k]));
    }
}

/// The encoding loses nothing: two paths with the same encoding are the same path.
pub proof fn law_encoding_is_injective(a: Seq<Position>, b: Seq<Position>)
    requires
        path_steps(a) == path_steps(b),
    ensures
        a == b,
    decreases a.len(),
{
    if a.len() == 0 {
        if b.len() > 0 {
            lemma_last_step(b);
        }
        assert(a =~= b);
    } else {
        lemma_last_step(a);
        if b.len() == 0 {
            assert(path_steps(a).len() == 0);
        } else {
            lemma_last_step(b);
            lemma_same_right_count(a, b);
            lemma_same_right_count(b, a);
            let s = path_steps(a);
            let sa = steps_of(a.last());
            let sb = steps_of(b.last());
            let ia = path_steps(a.drop_last());
            let ib = path_steps(b.drop_last());
            assert(s == ia + sa);
            assert(s == ib + sb);
            assert(sa.len() == right_count(a.last()) + 1);
            assert(sb.len() == right_count(b.last()) + 1);
            assert(ia.len() == ib.len());
            assert(sa.last() == sb.last());
            assert(a.last() == b.last());
            assert(ia =~= s.take(ia.len() as int));
            assert(ib =~= s.take(ib.len() as int));
            law_encoding_is_injective(a.drop_last(), b.drop_last());
            assert(a =~= a.drop_last().push(a.last()));
            assert(b =~= b.drop_last().push(b.last()));
        }
    }
}

/// The width of a packed batch is the length of its longest path, and at least 1.
pub proof fn law_packed_width(paths: Seq<Seq<u8>>)
    ensures
        longest(paths) >= 1,
        forall|i: int| 0 <= i < paths.len() ==> (#[trigger] paths[i]).len() <= longest(paths),
        longest(paths) > 1 ==> exists|i: int|
            0 <= i < paths.len() && (#[trigger] paths[i]).len() == longest(paths),
    decreases paths.len(),
{
    if paths.len() > 0 {
        let init = paths.drop_last();
        law_packed_width(init);
        assert forall|i: int| 0 <= i < paths.len() implies (#[trigger] paths[i]).len() <= longest(
            paths,
        ) by {
            if i < init.len() {
                assert(init[i] == paths[i]);
            }
        }
        if longest(paths) > 1 {
            if paths.last().len() > longest(init) {
                assert(paths[paths.len() - 1].len() == longest(paths));
            } else {
                let i = choose|i: int|
                    0 <= i < init.len() && (#[trigger] init[i]).len() == longest(init);
                assert(paths[i].len() == longest(paths));
            }
        }
    }
}

/// Whether row `i` of a packed batch is the whole of the `i`-th path, and padding from its end on.
pub open spec fn keeps_path(paths: Seq<Seq<u8>>, width: int, i: int) -> bool {
    &&& paths[i].len() <= width
    &&& packed(paths, width).len() == paths.len() * width
    &&& packed(paths, width).subrange(i * width, (i + 1) * width) == paths[i].map_values(
        |s: u8| packed_step(s),
    ) + Seq::new((width - paths[i].len()) as nat, |k: int| PAD as i64)
}

/// A batch that is wide enough for a path keeps it whole.
proof fn lemma_keeps_path(paths: Seq<Seq<u8>>, width: int, i: int)
    requires
        0 <= i < paths.len(),
        paths[i].len() <= width,
    ensures
        keeps_path(paths, width, i),
{
    lemma_packed_len(paths, width);
    assert(uniform(packed_rows(paths, width), width));
    lemma_flat_row(packed_rows(paths, width), width, i);
    assert(packed_row(paths[i], width) =~= paths[i].map_values(|s: u8| packed_step(s)) + Seq::new(
        (width - paths[i].len()) as nat,
        |k: int| PAD as i64,
    ));
}

/// Batches packed as a pair keep every path whole, however many there are on the other side: row
/// `i` of a side is its `i`-th path, with nothing cut off, and padding from its end on.
pub proof fn law_packed_pair_keeps_paths(left: Seq<Seq<u8>>, right: Seq<Seq<u8>>, i: int)
    requires
        0 <= i,
    ensures
        i < left.len() ==> keeps_path(left, pair_len(left, right) as int, i),
        i < right.len() ==> keeps_path(right, pair_len(left, right) as int, i),
{
    let width = pair_len(left, right) as int;
    law_packed_width(left);
    law_packed_width(right);
    if i < left.len() {
        lemma_keeps_path(left, width, i);
    }
    if i < right.len() {
        lemma_keeps_path(right, width, i);
    }
}

/// The steps of a path without its padding.
pub open spec fn unpadded(steps: Seq<u8>) -> Seq<u8> {
    steps.filter(|s: u8| s < PAD)
}

/// A path embeds as what its last step makes of the path before it.
proof fn lemma_embeds_last<F: Fn(u32, u32, u32) -> u32>(
    mul_add: F,
    pm: PositionMatrices,
    steps: Seq<u8>,
    out: Seq<u32>,
) -> (before: Seq<u32>)
    requires
        steps.len() > 0,
        embeds(mul_add, pm, steps, out),
    ensures
        embeds(mul_add, pm, steps.drop_last(), before),
        embeds_step(mul_add, pm, steps.last(), before, out),
{
    let n = steps.len() as int;
    let vectors = choose|vectors: Seq<Seq<u32>>| #[trigger]
        walks(mul_add, pm, steps, vectors) && vectors[n] == out;
    let shorter = vectors.drop_last();
    assert forall|k: int| 1 <= k < shorter.len() implies embeds_step(
        mul_add,
        pm,
        steps.drop_last()[k - 1],
        shorter[k - 1],
        #[trigger] shorter[k],
    ) by {
        assert(embeds_step(mul_add, pm, steps[k - 1], vectors[k - 1], vectors[k]));
    }
    assert(walks(mul_add, pm, steps.drop_last(), shorter));
    assert(embeds_step(mul_add, pm, steps[n - 1], vectors[n - 1], vectors[n]));
    vectors[n - 1]
}

/// One more step leads from an embedding to the embedding of the longer path.
proof fn lemma_embeds_push<F: Fn(u32, u32, u32) -> u32>(
    mul_add: F,
    pm: PositionMatrices,
    steps: Seq<u8>,
    before: Seq<u32>,
    step: u8,
    out: Seq<u32>,
)
    requires
        embeds(mul_add, pm, steps, before),
        embeds_step(mul_add, pm, step, before, out),
    ensures
        embeds(mul_add, pm, steps.push(step), out),
{
    let vectors = choose|vectors: Seq<Seq<u32>>| #[trigger]
        walks(mul_add, pm, steps, vectors) && vectors[steps.len() as int] == before;
    lemma_walks_push(mul_add, pm, steps, vectors, step, out);
}

/// The `n`-th running sum is the fold over the first `n` terms.
proof fn lemma_sums_fold<F: Fn(u32, u32, u32) -> u32>(
    mul_add: F,
    f: spec_fn(u32, u32, u32) -> u32,
    v: Seq<u32>,
    m: Seq<u32>,
    dim: int,
    j: int,
    sums: Seq<u32>,
    n: int,
    g: spec_fn(u32, (u32, u32)) -> u32,
)
    requires
        forall|s: u32, x: u32, y: u32, r: u32| #[trigger]
            mul_add.ensures((s, x, y), r) ==> r == f(s, x, y),
        running_sums(mul_add, v, m, dim, j, sums),
        0 <= n < sums.len(),
        forall|s: u32, t: (u32, u32)| #[trigger] g(s, t) == f(s, t.0, t.1),
    ensures
        sums[n] == Seq::new(n as nat, |k: int| (v[k], m[k * dim + j])).fold_left(0u32, g),
    decreases n,
{
    let terms = Seq::new(n as nat, |k: int| (v[k], m[k * dim + j]));
    if n > 0 {
        lemma_sums_fold(mul_add, f, v, m, dim, j, sums, n - 1, g);
        assert(terms.drop_last() =~= Seq::new((n - 1) as nat, |k: int| (v[k], m[k * dim + j])));
        assert(mul_add.ensures((sums[n - 1], v[n - 1], m[(n - 1) * dim + j]), sums[n]));
        assert(terms.last() == (v[n - 1], m[(n - 1) * dim + j]));
    }
}

/// Each element of a vector times a matrix is made of all the products of the vector with that
/// column, one after the other, from zero on.
pub proof fn law_product_takes_every_term<F: Fn(u32, u32, u32) -> u32>(
    mul_add: F,
    f: spec_fn(u32, u32, u32) -> u32,
    v: Seq<u32>,
    m: Seq<u32>,
    dim: int,
    out: Seq<u32>,
    j: int,
)
    requires
        forall|s: u32, x: u32, y: u32, r: u32| #[trigger]
            mul_add.ensures((s, x, y), r) ==> r == f(s, x, y),
        multiplies(mul_add, v, m, dim, out),
        0 <= j < dim,
    ensures
        out.len() == dim,
        out[j] == Seq::new(dim as nat, |k: int| (v[k], m[k * dim + j])).fold_left(
            0u32,
            |s: u32, t: (u32, u32)| f(s, t.0, t.1),
        ),
{
    assert(dots(mul_add, v, m, dim, j, out[j]));
    let sums = choose|sums: Seq<u32>| #[trigger]
        running_sums(mul_add, v, m, dim, j, sums) && sums.len() == dim + 1 && sums[dim] == out[j];
    lemma_sums_fold(
        mul_add,
        f,
        v,
        m,
        dim,
        j,
        sums,
        dim,
        |s: u32, t: (u32, u32)| f(s, t.0, t.1),
    );
}

proof fn lemma_sums_add_up<F: Fn(u32, u32, u32) -> u32>(
    mul_add: F,
    modulus: int,
    v: Seq<u32>,
    m: Seq<u32>,
    dim: int,
    j: int,
    sums: Seq<u32>,
    n: int,
    plus: spec_fn(int, int) -> int,
)
    requires
        modulus > 0,
        forall|s: u32, x: u32, y: u32, r: u32| #[trigger]
            mul_add.ensures((s, x, y), r) ==> r as int % modulus == (s + x * y) % modulus,
        running_sums(mul_add, v, m, dim, j, sums),
        0 <= n < sums.len(),
        forall|a: int, b: int| #[trigger] plus(a, b) == a + b,
    ensures
        sums[n] as int % modulus == Seq::new(
            n as nat,
            |k: int| v[k] as int * m[k * dim + j] as int,
        ).fold_left(0int, plus) % modulus,
    decreases n,
{
    let terms = Seq::new(n as nat, |k: int| v[k] as int * m[k * dim + j] as int);
    if n > 0 {
        lemma_sums_add_up(mul_add, modulus, v, m, dim, j, sums, n - 1, plus);
        let before = Seq::new((n - 1) as nat, |k: int| v[k] as int * m[k * dim + j] as int);
        assert(terms.drop_last() =~= before);
        let x = v[n - 1];
        let y = m[(n - 1) * dim + j];
        assert(mul_add.ensures((sums[n - 1], x, y), sums[n]));
        vstd::arithmetic::div_mod::lemma_add_mod_noop(sums[n - 1] as int, x * y, modulus);
        vstd::arithmetic::div_mod::lemma_add_mod_noop(
            before.fold_left(0int, plus),
            x * y,
            modulus,
        );
        assert(terms.last() == x as int * y as int);
    }
}

/// Where the multiply-add is `s + x * y` modulo a number, each element of a vector times a matrix
/// is the sum of all the products of the vector with that column, modulo that number.
pub proof fn law_product_is_the_sum<F: Fn(u32, u32, u32) -> u32>(
    mul_add: F,
    modulus: int,
    v: Seq<u32>,
    m: Seq<u32>,
    dim: int,
    out: Seq<u32>,
    j: int,
)
    requires
        modulus > 0,
        forall|s: u32, x: u32, y: u32, r: u32| #[trigger]
            mul_add.ensures((s, x, y), r) ==> r as int % modulus == (s + x * y) % modulus,
        multiplies(mul_add, v, m, dim, out),
        0 <= j < dim,
    ensures
        out[j] as int % modulus == Seq::new(
            dim as nat,
            |k: int| v[k] as int * m[k * dim + j] as int,
        ).fold_left(0int, |a: int, b: int| a + b) % modulus,
{
    assert(dots(mul_add, v, m, dim, j, out[j]));
    let sums = choose|sums: Seq<u32>| #[trigger]
        running_sums(mul_add, v, m, dim, j, sums) && sums.len() == dim + 1 && sums[dim] == out[j];
    lemma_sums_add_up(mul_add, modulus, v, m, dim, j, sums, dim, |a: int, b: int| a + b);
}

proof fn lemma_identity_sums<F: Fn(u32, u32, u32) -> u32>(
    mul_add: F,
    one: u32,
    v: Seq<u32>,
    m: Seq<u32>,
    dim: int,
    j: int,
    sums: Seq<u32>,
    n: int,
)
    requires
        forall|s: u32, x: u32, r: u32| #[trigger] mul_add.ensures((s, x, 0u32), r) ==> r == s,
        forall|x: u32, r: u32| #[trigger] mul_add.ensures((0u32, x, one), r) ==> r == x,
        forall|k: int, c: int|
            0 <= k < dim && 0 <= c < dim ==> #[trigger] m[k * dim + c] == (if k == c {
                one
            } else {
                0u32
            }),
        running_sums(mul_add, v, m, dim, j, sums),
        0 <= j < dim,
        0 <= n <= dim,
        n < sums.len(),
    ensures
        sums[n] == (if j < n {
            v[j]
        } else {
            0u32
        }),
    decreases n,
{
    if n > 0 {
        lemma_identity_sums(mul_add, one, v, m, dim, j, sums, n - 1);
        assert(mul_add.ensures((sums[n - 1], v[n - 1], m[(n - 1) * dim + j]), sums[n]));
    }
}

/// A vector times the identity matrix is the vector, whatever its dimension, where adding a
/// product with zero changes nothing and zero plus a product with `one` is the other factor.
pub proof fn law_product_with_identity<F: Fn(u32, u32, u32) -> u32>(
    mul_add: F,
    one: u32,
    v: Seq<u32>,
    m: Seq<u32>,
    dim: int,
    out: Seq<u32>,
)
    requires
        forall|s: u32, x: u32, r: u32| #[trigger] mul_add.ensures((s, x, 0u32), r) ==> r == s,
        forall|x: u32, r: u32| #[trigger] mul_add.ensures((0u32, x, one), r) ==> r == x,
        forall|k: int, c: int|
            0 <= k < dim && 0 <= c < dim ==> #[trigger] m[k * dim + c] == (if k == c {
                one
            } else {
                0u32
            }),
        v.len() == dim,
        multiplies(mul_add, v, m, dim, out),
    ensures
        out == v,
{
    assert forall|j: int| 0 <= j < dim implies out[j] == v[j] by {
        assert(dots(mul_add, v, m, dim, j, out[j]));
        let sums = choose|sums: Seq<u32>| #[trigger]
            running_sums(mul_add, v, m, dim, j, sums) && sums.len() == dim + 1 && sums[dim]
                == out[j];
        lemma_identity_sums(mul_add, one, v, m, dim, j, sums, dim);
    }
    assert(out =~= v);
}

/// One more step multiplies what came before by the matrix of that step: each element is made of
/// all the products with that column, from zero on. A step that names no matrix changes nothing.
pub proof fn law_embedding_goes_step_by_step<F: Fn(u32, u32, u32) -> u32>(
    mul_add: F,
    f: spec_fn(u32, u32, u32) -> u32,
    pm: PositionMatrices,
    steps: Seq<u8>,
    step: u8,
    before: Seq<u32>,
    out: Seq<u32>,
    j: int,
)
    requires
        forall|s: u32, x: u32, y: u32, r: u32| #[trigger]
            mul_add.ensures((s, x, y), r) ==> r == f(s, x, y),
        embeds(mul_add, pm, steps, before),
        embeds(mul_add, pm, steps.push(step), out),
        0 <= j < pm.dim,
    ensures
        step >= 11 ==> out == before,
        step < 11 ==> out.len() == pm.dim && out[j] == Seq::new(
            pm.dim as nat,
            |k: int| (before[k], pm.matrices@[step as int]@[k * pm.dim + j]),
        ).fold_left(0u32, |s: u32, t: (u32, u32)| f(s, t.0, t.1)),
{
    let earlier = lemma_embeds_last(mul_add, pm, steps.push(step), out);
    assert(steps.push(step).drop_last() =~= steps);
    assert(functional(mul_add));
    law_embedding_is_determined(mul_add, pm, steps, earlier, before);
    if step < 11 {
        law_product_takes_every_term(
            mul_add,
            f,
            before,
            pm.matrices@[step as int]@,
            pm.dim as int,
            out,
            j,
        );
    }
}

/// Padding is the identity, wherever it stands: a path embeds like what is left of it without
/// its padding.
pub proof fn law_padding_is_identity<F: Fn(u32, u32, u32) -> u32>(
    mul_add: F,
    pm: PositionMatrices,
    steps: Seq<u8>,
    out: Seq<u32>,
)
    ensures
        embeds(mul_add, pm, steps, out) <==> embeds(mul_add, pm, unpadded(steps), out),
    decreases steps.len(),
{
    reveal(Seq::filter);
    if steps.len() == 0 {
        assert(unpadded(steps) =~= steps);
    } else {
        let init = steps.drop_last();
        let last = steps.last();
        assert(steps =~= init.push(last));
        if embeds(mul_add, pm, steps, out) {
            let before = lemma_embeds_last(mul_add, pm, steps, out);
            law_padding_is_identity(mul_add, pm, init, before);
            if last < PAD {
                lemma_embeds_push(mul_add, pm, unpadded(init), before, last, out);
            }
        }
        if embeds(mul_add, pm, unpadded(steps), out) {
            if last < PAD {
                assert(unpadded(steps).drop_last() =~= unpadded(init));
                let before = lemma_embeds_last(mul_add, pm, unpadded(steps), out);
                law_padding_is_identity(mul_add, pm, init, before);
                lemma_embeds_push(mul_add, pm, init, before, last, out);
            } else {
                law_padding_is_identity(mul_add, pm, init, out);
                lemma_embeds_push(mul_add, pm, init, out, last, out);
            }
        }
    }
}

/// The empty path embeds as the root, and as nothing else.
pub proof fn law_empty_path_is_the_root<F: Fn(u32, u32, u32) -> u32>(
    mul_add: F,
    pm: PositionMatrices,
    out: Seq<u32>,
)
    ensures
        embeds(mul_add, pm, Seq::empty(), out) <==> out == pm.root@,
{
    if out == pm.root@ {
        assert(walks(mul_add, pm, Seq::empty(), seq![out]));
    }
}

/// The steps of a packed row.
pub open spec fn row_steps(row: Seq<i64>) -> Seq<u8> {
    row.map_values(|s: i64| s as u8)
}

/// A path as a packed row has the same steps besides padding.
proof fn lemma_row_unpadded(path: Seq<u8>, path_len: int)
    requires
        path.len() <= path_len,
    ensures
        unpadded(row_steps(packed_row(path, path_len))) == unpadded(path),
    decreases path_len,
{
    reveal(Seq::filter);
    let row = row_steps(packed_row(path, path_len));
    if path_len > 0 {
        let shorter = if path.len() == path_len {
            path.drop_last()
        } else {
            path
        };
        lemma_row_unpadded(shorter, path_len - 1);
        assert(row.drop_last() =~= row_steps(packed_row(shorter, path_len - 1)));
    } else {
        assert(row =~= path);
    }
}

/// A path and the row that it is packed into embed alike.
pub proof fn law_packed_row_embeds_alike<F: Fn(u32, u32, u32) -> u32>(
    mul_add: F,
    pm: PositionMatrices,
    path: Seq<u8>,
    path_len: int,
    out: Seq<u32>,
)
    requires
        path.len() <= path_len,
    ensures
        embeds(mul_add, pm, row_steps(packed_row(path, path_len)), out) <==> embeds(
            mul_add,
            pm,
            path,
            out,
        ),
{
    lemma_row_unpadded(path, path_len);
    law_padding_is_identity(mul_add, pm, row_steps(packed_row(path, path_len)), out);
    law_padding_is_identity(mul_add, pm, path, out);
}

/// Whether a multiply-add always comes to the same.
pub open spec fn functional<F: Fn(u32, u32, u32) -> u32>(mul_add: F) -> bool {
    forall|s: u32, x: u32, y: u32, a: u32, b: u32|
        (#[trigger] mul_add.ensures((s, x, y), a)) && (#[trigger] mul_add.ensures((s, x, y), b))
            ==> a == b
}

proof fn lemma_same_sums<F: Fn(u32, u32, u32) -> u32>(
    mul_add: F,
    v: Seq<u32>,
    m: Seq<u32>,
    dim: int,
    j: int,
    a: Seq<u32>,
    b: Seq<u32>,
    k: int,
)
    requires
        functional(mul_add),
        running_sums(mul_add, v, m, dim, j, a),
        running_sums(mul_add, v, m, dim, j, b),
        0 <= k < a.len(),
        k < b.len(),
    ensures
        a[k] == b[k],
    decreases k,
{
    if k > 0 {
        lemma_same_sums(mul_add, v, m, dim, j, a, b, k - 1);
        assert(mul_add.ensures((a[k - 1], v[k - 1], m[(k - 1) * dim + j]), a[k]));
        assert(mul_add.ensures((b[k - 1], v[k - 1], m[(k - 1) * dim + j]), b[k]));
    }
}

proof fn lemma_same_walk<F: Fn(u32, u32, u32) -> u32>(
    mul_add: F,
    pm: PositionMatrices,
    steps: Seq<u8>,
    a: Seq<Seq<u32>>,
    b: Seq<Seq<u32>>,
    k: int,
)
    requires
        functional(mul_add),
        walks(mul_add, pm, steps, a),
        walks(mul_add, pm, steps, b),
        0 <= k <= steps.len(),
    ensures
        a[k] == b[k],
    decreases k,
{
    if k > 0 {
        lemma_same_walk(mul_add, pm, steps, a, b, k - 1);
        let step = steps[k - 1];
        assert(embeds_step(mul_add, pm, step, a[k - 1], a[k]));
        assert(embeds_step(mul_add, pm, step, b[k - 1], b[k]));
        if step < PAD {
            let v = a[k - 1];
            let m = pm.matrix(step as int);
            let dim = pm.dim as int;
            assert forall|j: int| 0 <= j < dim implies a[k][j] == b[k][j] by {
                assert(dots(mul_add, v, m, dim, j, a[k][j]));
                assert(dots(mul_add, v, m, dim, j, b[k][j]));
                let sa = choose|sums: Seq<u32>| #[trigger]
                    running_sums(mul_add, v, m, dim, j, sums) && sums.len() == dim + 1 && sums[dim]
                        == a[k][j];
                let sb = choose|sums: Seq<u32>| #[trigger]
                    running_sums(mul_add, v, m, dim, j, sums) && sums.len() == dim + 1 && sums[dim]
                        == b[k][j];
                lemma_same_sums(mul_add, v, m, dim, j, sa, sb, dim);
            }
            assert(a[k] =~= b[k]);
        }
    }
}

/// Where the multiply-add always comes to the same, so does the embedding of a path.
pub proof fn law_embedding_is_determined<F: Fn(u32, u32, u32) -> u32>(
    mul_add: F,
    pm: PositionMatrices,
    steps: Seq<u8>,
    a: Seq<u32>,
    b: Seq<u32>,
)
    requires
        functional(mul_add),
        embeds(mul_add, pm, steps, a),
        embeds(mul_add, pm, steps, b),
    ensures
        a == b,
{
    let n = steps.len() as int;
    let va = choose|vectors: Seq<Seq<u32>>| #[trigger]
        walks(mul_add, pm, steps, vectors) && vectors[n] == a;
    let vb = choose|vectors: Seq<Seq<u32>>| #[trigger]
        walks(mul_add, pm, steps, vectors) && vectors[n] == b;
    lemma_same_walk(mul_add, pm, steps, va, vb, n);
}

/// Where the multiply-add always comes to the same, a path and what is left of it without its
/// padding embed as the same vector.
pub proof fn law_padding_changes_nothing<F: Fn(u32, u32, u32) -> u32>(
    mul_add: F,
    pm: PositionMatrices,
    steps: Seq<u8>,
    a: Seq<u32>,
    b: Seq<u32>,
)
    requires
        functional(mul_add),
        embeds(mul_add, pm, steps, a),
        embeds(mul_add, pm, unpadded(steps), b),
    ensures
        a == b,
{
    law_padding_is_identity(mul_add, pm, steps, b);
    law_embedding_is_determined(mul_add, pm, steps, a, b);
}

/// Where the multiply-add always comes to the same, the rows of a sequence are the embeddings of
/// its left and right paths, one pair after the other.
pub proof fn law_sequence_is_the_embeddings<F: Fn(u32, u32, u32) -> u32>(
    mul_add: F,
    pm: PositionMatrices,
    left: Seq<Seq<u8>>,
    right: Seq<Seq<u8>>,
    rows: Seq<u32>,
    ls: Seq<Seq<u32>>,
    rs: Seq<Seq<u32>>,
)
    requires
        functional(mul_add),
        pm.wf(),
        embeds_rows(mul_add, pm, left, right, rows),
        ls.len() == left.len(),
        rs.len() == left.len(),
        forall|i: int| 0 <= i < left.len() ==> embeds(mul_add, pm, left[i], #[trigger] ls[i]),
        forall|i: int| 0 <= i < left.len() ==> embeds(mul_add, pm, right[i], #[trigger] rs[i]),
    ensures
        rows == flat(Seq::new(left.len(), |i: int| ls[i] + rs[i])),
{
    let dim = pm.dim as int;
    let width = 2 * dim;
    let list = Seq::new(left.len(), |i: int| ls[i] + rs[i]);
    assert forall|i: int| 0 <= i < left.len() implies #[trigger] row_at(rows, width, i) == list[i]
        && list[i].len() == width by {
        let row = row_at(rows, width, i);
        assert(embeds_row(mul_add, pm, left[i], right[i], row));
        law_embedding_is_determined(mul_add, pm, left[i], row.take(dim), ls[i]);
        law_embedding_is_determined(mul_add, pm, right[i], row.skip(dim), rs[i]);
        lemma_embeds_len(mul_add, pm, left[i], ls[i]);
        lemma_embeds_len(mul_add, pm, right[i], rs[i]);
        assert(row =~= row.take(dim) + row.skip(dim));
    }
    assert forall|i: int| 0 <= i < list.len() implies (#[trigger] list[i]).len() == width by {
        assert(row_at(rows, width, i) == list[i]);
    }
    lemma_flat_len(list, width);
    assert forall|p: int| 0 <= p < rows.len() implies rows[p] == flat(list)[p] by {
        assert(width > 0) by (nonlinear_arith)
            requires
                0 <= p < left.len() * width,
                width >= 0,
        ;
        let i = p / width;
        let k = p % width;
        vstd::arithmetic::div_mod::lemma_fundamental_div_mod(p, width);
        assert(0 <= i < left.len() && 0 <= k < width && p == i * width + k && (i + 1) * width == i
            * width + width) by (nonlinear_arith)
            requires
                0 <= p < left.len() * width,
                width > 0,
                i == p / width,
                k == p % width,
                p == width * (p / width) + (p % width),
        ;
        lemma_flat_row(list, width, i);
        assert(row_at(rows, width, i)[k] == rows[p]);
        assert(flat(list).subrange(i * width, (i + 1) * width)[k] == flat(list)[p]);
    }
    assert(rows =~= flat(list));
}

} // verus!
