//! What goes into the network and what becomes of its scores.
//!
//! The network takes packed path steps and the rows of the goals and the premises, and gives
//! back the goal x premise submatrix of unification logits.

use std::collections::HashMap;

use vstd::prelude::*;

use crate::encoding::{
    all_encodable, all_steps, lemma_packed_len, lemma_views_push, pack_pair, packable, packed,
    pair_len, path_steps, sequence_paths, token_declarations, token_positions, Example,
};
use crate::ir::{Position, Token};
use crate::rows::{flat, lemma_flat_push, lemma_flat_row, uniform, views};
use crate::tensor::{matrix_tensor, tensor_ints, tensor_shape, vector_tensor};

verus! {

broadcast use vstd::std_specs::hash::group_hash_axioms;

/// The tensors that the network is run on.
pub struct PackedInputs {
    pub left: burn::tensor::TensorData,
    pub right: burn::tensor::TensorData,
    pub goal_index: burn::tensor::TensorData,
    pub premise_index: burn::tensor::TensorData,
}

/// Whether these tensors hold the packed `[seq, path_len]` steps and the rows of the goals and
/// the premises.
pub open spec fn holds_packed(
    inputs: PackedInputs,
    left: Seq<i64>,
    right: Seq<i64>,
    seq: usize,
    path_len: usize,
    goal_index: Seq<i64>,
    premise_index: Seq<i64>,
) -> bool {
    &&& tensor_shape(inputs.left) == seq![seq, path_len]
    &&& tensor_ints(inputs.left) == left
    &&& tensor_shape(inputs.right) == seq![seq, path_len]
    &&& tensor_ints(inputs.right) == right
    &&& tensor_shape(inputs.goal_index) == seq![goal_index.len() as usize]
    &&& tensor_ints(inputs.goal_index) == goal_index
    &&& tensor_shape(inputs.premise_index) == seq![premise_index.len() as usize]
    &&& tensor_ints(inputs.premise_index) == premise_index
}

/// The network's inputs for packed `[seq, path_len]` path steps.
pub fn packed_inputs(
    left: &[i64],
    right: &[i64],
    seq: usize,
    path_len: usize,
    goal_index: &[i64],
    premise_index: &[i64],
) -> (inputs: PackedInputs)
    requires
        left@.len() == seq * path_len,
        right@.len() == seq * path_len,
    ensures
        holds_packed(inputs, left@, right@, seq, path_len, goal_index@, premise_index@),
        tensor_shape(inputs.left) == seq![seq, path_len],
        tensor_ints(inputs.left) == left@,
        tensor_shape(inputs.right) == seq![seq, path_len],
        tensor_ints(inputs.right) == right@,
        tensor_shape(inputs.goal_index) == seq![goal_index@.len() as usize],
        tensor_ints(inputs.goal_index) == goal_index@,
        tensor_shape(inputs.premise_index) == seq![premise_index@.len() as usize],
        tensor_ints(inputs.premise_index) == premise_index@,
{
    PackedInputs {
        left: matrix_tensor(vstd::slice::slice_to_vec(left), seq, path_len),
        right: matrix_tensor(vstd::slice::slice_to_vec(right), seq, path_len),
        goal_index: vector_tensor(vstd::slice::slice_to_vec(goal_index)),
        premise_index: vector_tensor(vstd::slice::slice_to_vec(premise_index)),
    }
}

/// The network's inputs for paths that are not packed yet.
pub fn path_inputs(
    left_paths: &[Vec<u8>],
    right_paths: &[Vec<u8>],
    goal_index: &[i64],
    premise_index: &[i64],
) -> (inputs: PackedInputs)
    requires
        left_paths@.len() == right_paths@.len(),
        packable(
            left_paths@.len() as int,
            pair_len(views(left_paths@), views(right_paths@)) as int,
        ),
    ensures
        ({
            let path_len = pair_len(views(left_paths@), views(right_paths@));
            holds_packed(
                inputs,
                packed(views(left_paths@), path_len as int),
                packed(views(right_paths@), path_len as int),
                left_paths@.len() as usize,
                path_len as usize,
                goal_index@,
                premise_index@,
            )
        }),
        tensor_ints(inputs.goal_index) == goal_index@,
        tensor_ints(inputs.premise_index) == premise_index@,
        tensor_shape(inputs.left).len() == 2,
        tensor_shape(inputs.left)[0] == left_paths@.len(),
        tensor_shape(inputs.right) == tensor_shape(inputs.left),
        tensor_ints(inputs.left) == packed(
            views(left_paths@),
            tensor_shape(inputs.left)[1] as int,
        ),
        tensor_ints(inputs.right) == packed(
            views(right_paths@),
            tensor_shape(inputs.left)[1] as int,
        ),
        tensor_shape(inputs.left)[1] >= 1,
        forall|i: int|
            0 <= i < left_paths@.len() ==> (#[trigger] left_paths@[i])@.len()
                <= tensor_shape(inputs.left)[1],
        forall|i: int|
            0 <= i < right_paths@.len() ==> (#[trigger] right_paths@[i])@.len()
                <= tensor_shape(inputs.left)[1],
        tensor_shape(inputs.left)[1] > 1 ==> (exists|i: int|
            0 <= i < left_paths@.len() && (#[trigger] left_paths@[i])@.len()
                == tensor_shape(inputs.left)[1]) || (exists|i: int|
            0 <= i < right_paths@.len() && (#[trigger] right_paths@[i])@.len()
                == tensor_shape(inputs.left)[1]),
{
    let seq: usize = left_paths.len();
    let (left, right, path_len) = pack_pair(left_paths, right_paths);
    proof {
        lemma_packed_len(views(left_paths@), path_len as int);
        lemma_packed_len(views(right_paths@), path_len as int);
    }
    packed_inputs(left.as_slice(), right.as_slice(), seq, path_len, goal_index, premise_index)
}

/// A batch of paths, and the rows of its goals and its premises.
pub struct Batch {
    pub left: Vec<Vec<u8>>,
    pub right: Vec<Vec<u8>>,
    pub goal_index: Vec<i64>,
    pub premise_index: Vec<i64>,
}

/// Where each token of an example stands.
pub open spec fn example_positions(example: Example) -> Seq<Seq<u8>> {
    Seq::new(example.tokens@.len(), |i: int| example.tokens@[i].0@)
}

/// Where the symbol of each token of an example is declared.
pub open spec fn example_declarations(example: Example) -> Seq<Seq<u8>> {
    Seq::new(example.tokens@.len(), |i: int| example.tokens@[i].1@)
}

/// `count` rows from `start` on.
pub open spec fn row_numbers(start: int, count: int) -> Seq<i64> {
    Seq::new(count as nat, |k: int| (start + k) as i64)
}

/// Appends a copy of each path.
fn push_copies(list: &mut Vec<Vec<u8>>, paths: &[Vec<u8>])
    ensures
        views(final(list)@) == views(old(list)@) + views(paths@),
{
    let ghost start = views(list@);
    assert(start + views(paths@).take(0) =~= start);
    for i in 0..paths.len()
        invariant
            views(list@) == start + views(paths@).take(i as int),
    {
        let copy: Vec<u8> = vstd::slice::slice_to_vec(paths[i].as_slice());
        let ghost before = list@;
        list.push(copy);
        proof {
            lemma_views_push(before, copy);
            assert(views(paths@).take(i + 1) =~= views(paths@).take(i as int).push(copy@));
            assert(views(list@) =~= start + views(paths@).take(i + 1));
        }
    }
    assert(views(paths@).take(paths@.len() as int) =~= views(paths@));
}

/// The rows from `start` to before `end`.
fn row_range(start: usize, end: usize) -> (rows: Vec<i64>)
    requires
        start <= end,
    ensures
        rows@ == row_numbers(start as int, end - start),
{
    let mut rows: Vec<i64> = Vec::new();
    for i in start..end
        invariant
            start <= end,
            rows@ == row_numbers(start as int, i - start),
    {
        rows.push(i as i64);
        assert(rows@ =~= row_numbers(start as int, i + 1 - start));
    }
    rows
}

/// An example as one batch: a row for each token, then one for each goal, then one for each
/// premise.
pub fn example_batch(example: &Example) -> (batch: Batch)
    requires
        example.tokens@.len() + example.goals@.len() + example.premises@.len() <= usize::MAX,
    ensures
        views(batch.left@) == example_positions(*example) + views(example.goals@) + views(
            example.premises@,
        ),
        views(batch.right@) == example_declarations(*example) + views(example.goals@) + views(
            example.premises@,
        ),
        batch.goal_index@ == row_numbers(
            example.tokens@.len() as int,
            example.goals@.len() as int,
        ),
        batch.premise_index@ == row_numbers(
            (example.tokens@.len() + example.goals@.len()) as int,
            example.premises@.len() as int,
        ),
        batch.left@.len() == example.tokens@.len() + example.goals@.len() + example.premises@.len(),
        batch.right@.len() == batch.left@.len(),
        forall|i: int|
            0 <= i < example.tokens@.len() ==> batch.left@[i]@ == (
            #[trigger] example.tokens@[i]).0@ && batch.right@[i]@ == example.tokens@[i].1@,
        batch.goal_index@.len() == example.goals@.len(),
        batch.premise_index@.len() == example.premises@.len(),
        forall|k: int|
            0 <= k < example.goals@.len() ==> {
                let row = example.tokens@.len() + k;
                &&& #[trigger] batch.goal_index@[k] == row as i64
                &&& batch.left@[row]@ == example.goals@[k]@
                &&& batch.right@[row]@ == example.goals@[k]@
            },
        forall|k: int|
            0 <= k < example.premises@.len() ==> {
                let row = example.tokens@.len() + example.goals@.len() + k;
                &&& #[trigger] batch.premise_index@[k] == row as i64
                &&& batch.left@[row]@ == example.premises@[k]@
                &&& batch.right@[row]@ == example.premises@[k]@
            },
{
    let mut left: Vec<Vec<u8>> = Vec::new();
    let mut right: Vec<Vec<u8>> = Vec::new();
    for i in 0..example.tokens.len()
        invariant
            views(left@) == example_positions(*example).take(i as int),
            views(right@) == example_declarations(*example).take(i as int),
    {
        let l: Vec<u8> = vstd::slice::slice_to_vec(example.tokens[i].0.as_slice());
        let r: Vec<u8> = vstd::slice::slice_to_vec(example.tokens[i].1.as_slice());
        let ghost left0 = left@;
        let ghost right0 = right@;
        left.push(l);
        right.push(r);
        proof {
            lemma_views_push(left0, l);
            lemma_views_push(right0, r);
            assert(views(left@) =~= example_positions(*example).take(i + 1));
            assert(views(right@) =~= example_declarations(*example).take(i + 1));
        }
    }
    assert(example_positions(*example).take(example.tokens@.len() as int) =~= example_positions(
        *example,
    ));
    assert(example_declarations(*example).take(example.tokens@.len() as int)
        =~= example_declarations(*example));
    push_copies(&mut left, example.goals.as_slice());
    push_copies(&mut right, example.goals.as_slice());
    push_copies(&mut left, example.premises.as_slice());
    push_copies(&mut right, example.premises.as_slice());
    let n_tokens: usize = example.tokens.len();
    let n_goals: usize = example.goals.len();
    let seq: usize = n_tokens + n_goals + example.premises.len();
    proof {
        let ls = views(left@);
        let rs = views(right@);
        assert(left@.len() == ls.len() && right@.len() == rs.len());
        assert forall|i: int| 0 <= i < left@.len() implies #[trigger] left@[i]@ == ls[i] by {}
        assert forall|i: int| 0 <= i < right@.len() implies #[trigger] right@[i]@ == rs[i] by {}
    }
    Batch {
        left,
        right,
        goal_index: row_range(n_tokens, n_tokens + n_goals),
        premise_index: row_range(n_tokens + n_goals, seq),
    }
}

/// The logits of one goal: row `goal` of a row-major matrix with a column for each premise.
pub fn logit_row<T: Copy>(logits: &[T], n_premises: usize, goal: usize) -> (row: Vec<T>)
    requires
        (goal + 1) * n_premises <= logits@.len(),
    ensures
        row@ == logits@.subrange(goal * n_premises, goal * n_premises + n_premises),
{
    assert(logits.len() <= usize::MAX);
    assert(0 <= goal * n_premises <= (goal + 1) * n_premises == goal * n_premises + n_premises)
        by (nonlinear_arith);
    let start: usize = goal * n_premises;
    vstd::slice::slice_to_vec(vstd::slice::slice_subrange(logits, start, start + n_premises))
}

/// The logits of one goal against chosen premises: row `goal`, columns `premises` of a
/// row-major `n x n` matrix.
pub fn gather_row<T: Copy>(logits: &[T], n: usize, goal: usize, premises: &[usize]) -> (row: Vec<T>)
    requires
        forall|k: int|
            0 <= k < premises@.len() ==> goal * n + (#[trigger] premises@[k]) < logits@.len(),
    ensures
        row@ == Seq::new(premises@.len(), |k: int| logits@[goal * n + premises@[k]]),
{
    let len: usize = logits.len();
    let mut row: Vec<T> = Vec::new();
    for k in 0..premises.len()
        invariant
            len == logits@.len(),
            forall|k: int|
                0 <= k < premises@.len() ==> goal * n + (#[trigger] premises@[k]) < logits@.len(),
            row@ == Seq::new(k as nat, |k: int| logits@[goal * n + premises@[k]]),
    {
        assert(goal * n + premises@[k as int] < len);
        assert(0 <= goal * n) by (nonlinear_arith);
        row.push(logits[goal * n + premises[k]]);
        assert(row@ =~= Seq::new((k + 1) as nat, |k: int| logits@[goal * n + premises@[k]]));
    }
    row
}

/// The last place at which an id stands in a list.
pub open spec fn last_place(ids: Seq<u64>, id: u64) -> Option<int>
    decreases ids.len(),
{
    if ids.len() == 0 {
        None
    } else if ids.last() == id {
        Some(ids.len() - 1)
    } else {
        last_place(ids.drop_last(), id)
    }
}

/// The ids of a list of binds.
pub open spec fn bind_ids(binds: Seq<(u64, Vec<Position>)>) -> Seq<u64> {
    Seq::new(binds.len(), |i: int| binds[i].0)
}

/// Where each bind of a list is declared.
pub open spec fn bind_declarations(binds: Seq<(u64, Vec<Position>)>) -> Seq<Seq<Position>> {
    Seq::new(binds.len(), |i: int| binds[i].1@)
}

/// Whether each of `wanted` is among `ids`.
pub open spec fn all_placed(ids: Seq<u64>, wanted: Seq<u64>) -> bool {
    forall|k: int| 0 <= k < wanted.len() ==> last_place(ids, #[trigger] wanted[k]) is Some
}

/// The rows of `wanted`, where the rows of `ids` come after `offset` others.
pub open spec fn rows_of(ids: Seq<u64>, wanted: Seq<u64>, offset: int) -> Seq<i64> {
    Seq::new(wanted.len(), |k: int| (offset + last_place(ids, wanted[k])->0) as i64)
}

/// An id has a place among the binds exactly if a bind has it.
proof fn lemma_placed(binds: Seq<(u64, Vec<Position>)>, wanted: Seq<u64>)
    ensures
        all_placed(bind_ids(binds), wanted) <==> forall|k: int|
            0 <= k < wanted.len() ==> exists|j: int|
                0 <= j < binds.len() && (#[trigger] binds[j]).0 == #[trigger] wanted[k],
{
    let ids = bind_ids(binds);
    if all_placed(ids, wanted) {
        assert forall|k: int| 0 <= k < wanted.len() implies exists|j: int|
            0 <= j < binds.len() && (#[trigger] binds[j]).0 == #[trigger] wanted[k] by {
            assert(last_place(ids, wanted[k]) is Some);
            lemma_last_place(ids, wanted[k]);
            let j = last_place(ids, wanted[k])->0;
            assert(binds[j].0 == ids[j]);
        }
    }
    if forall|k: int|
        0 <= k < wanted.len() ==> exists|j: int|
            0 <= j < binds.len() && (#[trigger] binds[j]).0 == #[trigger] wanted[k] {
        assert forall|k: int| 0 <= k < wanted.len() implies last_place(
            ids,
            #[trigger] wanted[k],
        ) is Some by {
            let j = choose|j: int| 0 <= j < binds.len() && (#[trigger] binds[j]).0 == wanted[k];
            assert(ids[j] == wanted[k]);
            lemma_last_place(ids, wanted[k]);
        }
    }
}

/// The row of an id is that of the last bind that has it.
proof fn lemma_rows_of_last(binds: Seq<(u64, Vec<Position>)>, wanted: Seq<u64>, offset: int)
    requires
        all_placed(bind_ids(binds), wanted),
        0 <= offset,
        offset + binds.len() <= i64::MAX,
    ensures
        forall|k: int|
            0 <= k < wanted.len() ==> {
                let j = #[trigger] rows_of(bind_ids(binds), wanted, offset)[k] - offset;
                &&& 0 <= j < binds.len()
                &&& binds[j].0 == wanted[k]
                &&& forall|l: int| j < l < binds.len() ==> (#[trigger] binds[l]).0 != wanted[k]
            },
{
    let ids = bind_ids(binds);
    assert forall|k: int| 0 <= k < wanted.len() implies {
        let j = #[trigger] rows_of(ids, wanted, offset)[k] - offset;
        &&& 0 <= j < binds.len()
        &&& binds[j].0 == wanted[k]
        &&& forall|l: int| j < l < binds.len() ==> (#[trigger] binds[l]).0 != wanted[k]
    } by {
        assert(last_place(ids, wanted[k]) is Some);
        lemma_last_place(ids, wanted[k]);
        let j = last_place(ids, wanted[k])->0;
        assert(rows_of(ids, wanted, offset)[k] - offset == j);
        assert forall|l: int| j < l < binds.len() implies (#[trigger] binds[l]).0 != wanted[k] by {
            assert(ids[l] == binds[l].0);
        }
    }
}

/// How the goals' and premises' scores are come by.
pub enum BindRequest {
    /// There are none.
    Empty,
    /// Each premise is as likely as any other.
    Uniform,
    /// The network is run on this batch.
    Score(Batch),
}

/// The index of each id: `offset` plus the last place at which it stands.
fn bind_index(binds: &[(u64, Vec<Position>)], offset: usize) -> (index: HashMap<u64, usize>)
    requires
        offset + binds@.len() <= usize::MAX,
    ensures
        forall|id: u64| #[trigger]
            index@.contains_key(id) <==> last_place(bind_ids(binds@), id) is Some,
        forall|id: u64| #[trigger]
            index@.contains_key(id) ==> index@[id] == offset + last_place(bind_ids(binds@), id)->0,
{
    let ghost ids = bind_ids(binds@);
    let mut index: HashMap<u64, usize> = HashMap::new();
    for i in 0..binds.len()
        invariant
            offset + binds@.len() <= usize::MAX,
            ids == bind_ids(binds@),
            forall|id: u64| #[trigger]
                index@.contains_key(id) <==> last_place(ids.take(i as int), id) is Some,
            forall|id: u64| #[trigger]
                index@.contains_key(id) ==> index@[id] == offset + last_place(
                    ids.take(i as int),
                    id,
                )->0,
    {
        index.insert(binds[i].0, offset + i);
        proof {
            assert(ids.take(i + 1).drop_last() =~= ids.take(i as int));
            assert(ids.take(i + 1).last() == binds@[i as int].0);
        }
    }
    assert(ids.take(binds@.len() as int) =~= ids);
    index
}

/// The rows of `wanted`, or `None` if the index lacks one of them.
fn rows_in(
    index: &HashMap<u64, usize>,
    wanted: &[u64],
    ids: Ghost<Seq<u64>>,
    offset: Ghost<int>,
) -> (rows: Option<Vec<i64>>)
    requires
        forall|id: u64| #[trigger]
            index@.contains_key(id) <==> last_place(ids@, id) is Some,
        forall|id: u64| #[trigger]
            index@.contains_key(id) ==> index@[id] == offset@ + last_place(ids@, id)->0,
    ensures
        rows is Some <==> all_placed(ids@, wanted@),
        rows matches Some(rows) ==> rows@ == rows_of(ids@, wanted@, offset@),
{
    let mut rows: Vec<i64> = Vec::new();
    for k in 0..wanted.len()
        invariant
            forall|id: u64| #[trigger]
                index@.contains_key(id) <==> last_place(ids@, id) is Some,
            forall|id: u64| #[trigger]
                index@.contains_key(id) ==> index@[id] == offset@ + last_place(ids@, id)->0,
            all_placed(ids@, wanted@.take(k as int)),
            rows@ == rows_of(ids@, wanted@.take(k as int), offset@),
    {
        let id: u64 = wanted[k];
        match index.get(&id) {
            Some(row) => {
                rows.push(*row as i64);
                assert(rows@ =~= rows_of(ids@, wanted@.take(k + 1), offset@));
                assert(all_placed(ids@, wanted@.take(k + 1)));
            },
            None => {
                assert(!index@.contains_key(id));
                assert(wanted@[k as int] == id);
                return None;
            },
        }
    }
    assert(wanted@.take(wanted@.len() as int) =~= wanted@);
    Some(rows)
}

/// Whether there is anything to score, and no more rows than the network is run on.
pub open spec fn within_reach(max_seq_len: usize, rows: int, goals: int, premises: int) -> bool {
    0 < rows <= max_seq_len && goals > 0 && premises > 0
}

/// What the scores of the goals against the premises are to be made from. The network is not
/// run where there is nothing to score, where there are more rows than it is run on, or where
/// a goal or premise has no bind.
pub fn bind_request(
    max_seq_len: usize,
    tokens: &[Token],
    bind_paths: &[(u64, Vec<Position>)],
    goals: &[u64],
    premises: &[u64],
) -> (request: BindRequest)
    requires
        tokens@.len() + bind_paths@.len() <= usize::MAX,
        within_reach(
            max_seq_len,
            (tokens@.len() + bind_paths@.len()) as int,
            goals@.len() as int,
            premises@.len() as int,
        ) ==> {
            &&& all_encodable(token_positions(tokens@))
            &&& all_encodable(token_declarations(tokens@))
            &&& all_encodable(bind_declarations(bind_paths@))
        },
    ensures
        ({
            let n = tokens@.len() + bind_paths@.len();
            let ids = bind_ids(bind_paths@);
            let nothing = n == 0 || goals@.len() == 0 || premises@.len() == 0;
            let placed = all_placed(ids, goals@) && all_placed(ids, premises@);
            &&& request is Empty <==> nothing || (n <= max_seq_len && !placed)
            &&& request is Uniform <==> !nothing && n > max_seq_len
            &&& request matches BindRequest::Score(batch) ==> {
                let declarations = all_steps(bind_declarations(bind_paths@));
                &&& views(batch.left@) == all_steps(token_positions(tokens@)) + declarations
                &&& views(batch.right@) == all_steps(token_declarations(tokens@)) + declarations
                &&& batch.goal_index@ == rows_of(ids, goals@, tokens@.len() as int)
                &&& batch.premise_index@ == rows_of(ids, premises@, tokens@.len() as int)
            }
        }),
        tokens@.len() + bind_paths@.len() == 0 || goals@.len() == 0 || premises@.len() == 0
            ==> request is Empty,
        request is Uniform <==> goals@.len() > 0 && premises@.len() > 0 && tokens@.len()
            + bind_paths@.len() > max_seq_len,
        request is Score <==> {
            &&& goals@.len() > 0 && premises@.len() > 0
            &&& tokens@.len() + bind_paths@.len() <= max_seq_len
            &&& forall|k: int|
                0 <= k < goals@.len() ==> exists|j: int|
                    0 <= j < bind_paths@.len() && (#[trigger] bind_paths@[j]).0
                        == #[trigger] goals@[k]
            &&& forall|k: int|
                0 <= k < premises@.len() ==> exists|j: int|
                    0 <= j < bind_paths@.len() && (#[trigger] bind_paths@[j]).0
                        == #[trigger] premises@[k]
        },
        request matches BindRequest::Score(batch) ==> {
            &&& batch.left@.len() == tokens@.len() + bind_paths@.len()
            &&& batch.right@.len() == tokens@.len() + bind_paths@.len()
            &&& forall|i: int|
                0 <= i < tokens@.len() ==> batch.left@[i]@ == path_steps(
                    (#[trigger] tokens@[i]).position@,
                ) && batch.right@[i]@ == path_steps(tokens@[i].declaration@)
            &&& forall|j: int|
                0 <= j < bind_paths@.len() ==> batch.left@[tokens@.len() + j]@ == path_steps(
                    (#[trigger] bind_paths@[j]).1@,
                ) && batch.right@[tokens@.len() + j]@ == path_steps(bind_paths@[j].1@)
            &&& batch.goal_index@.len() == goals@.len()
            &&& batch.premise_index@.len() == premises@.len()
            &&& tokens@.len() + bind_paths@.len() <= i64::MAX ==> forall|k: int|
                0 <= k < goals@.len() ==> {
                    let j = #[trigger] batch.goal_index@[k] - tokens@.len();
                    &&& 0 <= j < bind_paths@.len()
                    &&& bind_paths@[j].0 == goals@[k]
                    &&& forall|l: int|
                        j < l < bind_paths@.len() ==> (#[trigger] bind_paths@[l]).0 != goals@[k]
                }
            &&& tokens@.len() + bind_paths@.len() <= i64::MAX ==> forall|k: int|
                0 <= k < premises@.len() ==> {
                    let j = #[trigger] batch.premise_index@[k] - tokens@.len();
                    &&& 0 <= j < bind_paths@.len()
                    &&& bind_paths@[j].0 == premises@[k]
                    &&& forall|l: int|
                        j < l < bind_paths@.len() ==> (#[trigger] bind_paths@[l]).0 != premises@[k]
                }
        },
{
    let n: usize = tokens.len() + bind_paths.len();
    proof {
        lemma_placed(bind_paths@, goals@);
        lemma_placed(bind_paths@, premises@);
        if n == 0 && goals@.len() > 0 {
            assert(!all_placed(bind_ids(bind_paths@), goals@)) by {
                assert(last_place(bind_ids(bind_paths@), goals@[0]) is None);
            }
        }
    }
    if n == 0 || goals.len() == 0 || premises.len() == 0 {
        return BindRequest::Empty;
    }
    if n > max_seq_len {
        return BindRequest::Uniform;
    }
    let mut paths: Vec<Vec<Position>> = Vec::new();
    for i in 0..bind_paths.len()
        invariant
            views(paths@) == bind_declarations(bind_paths@).take(i as int),
    {
        let path: Vec<Position> = vstd::slice::slice_to_vec(bind_paths[i].1.as_slice());
        let ghost before = paths@;
        paths.push(path);
        proof {
            lemma_views_push(before, path);
            assert(views(paths@) =~= bind_declarations(bind_paths@).take(i + 1));
        }
    }
    assert(bind_declarations(bind_paths@).take(bind_paths@.len() as int) =~= bind_declarations(
        bind_paths@,
    ));
    let (left, right) = sequence_paths(tokens, paths.as_slice());
    let index: HashMap<u64, usize> = bind_index(bind_paths, tokens.len());
    let ghost ids = bind_ids(bind_paths@);
    let ghost offset = tokens@.len() as int;
    match (
        rows_in(&index, goals, Ghost(ids), Ghost(offset)),
        rows_in(&index, premises, Ghost(ids), Ghost(offset)),
    ) {
        (Some(goal_index), Some(premise_index)) => {
            proof {
                if tokens@.len() + bind_paths@.len() <= i64::MAX {
                    lemma_rows_of_last(bind_paths@, goals@, offset);
                    lemma_rows_of_last(bind_paths@, premises@, offset);
                }
                assert forall|j: int| 0 <= j < bind_paths@.len() implies left@[tokens@.len() + j]@
                    == path_steps((#[trigger] bind_paths@[j]).1@) && right@[tokens@.len() + j]@
                    == path_steps(bind_paths@[j].1@) by {
                    assert(paths@[j]@ == views(paths@)[j]);
                    assert(views(paths@)[j] == bind_paths@[j].1@);
                }
            }
            BindRequest::Score(Batch { left, right, goal_index, premise_index })
        },
        _ => BindRequest::Empty,
    }
}

/// One goal's probabilities by premise. Of a premise that stands in the list more than once, the
/// last counts.
pub open spec fn row_map<T>(premises: Seq<u64>, row: Seq<T>) -> Map<u64, T> {
    Map::new(
        |p: u64| last_place(premises, p) is Some,
        |p: u64| row[last_place(premises, p)->0],
    )
}

/// The probabilities of `row` by premise.
fn row_table<T: Copy>(premises: &[u64], row: &[T]) -> (table: HashMap<u64, T>)
    requires
        row@.len() == premises@.len(),
    ensures
        table@ == row_map(premises@, row@),
{
    let mut table: HashMap<u64, T> = HashMap::new();
    assert(table@ =~= row_map(premises@.take(0), row@));
    for i in 0..premises.len()
        invariant
            row@.len() == premises@.len(),
            table@ == row_map(premises@.take(i as int), row@),
    {
        table.insert(premises[i], row[i]);
        proof {
            assert(premises@.take(i + 1).drop_last() =~= premises@.take(i as int));
            assert(premises@.take(i + 1).last() == premises@[i as int]);
            assert(table@ =~= row_map(premises@.take(i + 1), row@));
        }
    }
    assert(premises@.take(premises@.len() as int) =~= premises@);
    table
}

/// The scores of the goals against the premises, from a row of probabilities for each goal. Of
/// a goal that stands in the list more than once, the last row counts.
pub fn bind_scores<T: Copy>(goals: &[u64], premises: &[u64], rows: &[Vec<T>]) -> (scores: HashMap<
    u64,
    HashMap<u64, T>,
>)
    requires
        rows@.len() == goals@.len(),
        forall|k: int| 0 <= k < rows@.len() ==> (#[trigger] rows@[k])@.len() == premises@.len(),
    ensures
        forall|g: u64| #[trigger] scores@.contains_key(g) <==> last_place(goals@, g) is Some,
        forall|g: u64| #[trigger]
            scores@.contains_key(g) ==> scores@[g]@ == row_map(
                premises@,
                rows@[last_place(goals@, g)->0]@,
            ),
        forall|g: u64| #[trigger] scores@.contains_key(g) <==> goals@.contains(g),
        forall|g: u64, p: u64|
            scores@.contains_key(g) ==> (#[trigger] scores@[g]@.contains_key(p)
                <==> premises@.contains(p)),
        forall|a: int, b: int|
            {
                &&& 0 <= a < goals@.len()
                &&& 0 <= b < premises@.len()
                &&& forall|c: int| a < c < goals@.len() ==> goals@[c] != goals@[a]
                &&& forall|c: int| b < c < premises@.len() ==> premises@[c] != premises@[b]
            } ==> scores@[#[trigger] goals@[a]]@[#[trigger] premises@[b]] == rows@[a]@[b],
{
    let mut scores: HashMap<u64, HashMap<u64, T>> = HashMap::new();
    for i in 0..goals.len()
        invariant
            rows@.len() == goals@.len(),
            forall|k: int| 0 <= k < rows@.len() ==> (#[trigger] rows@[k])@.len() == premises@.len(),
            forall|g: u64| #[trigger]
                scores@.contains_key(g) <==> last_place(goals@.take(i as int), g) is Some,
            forall|g: u64| #[trigger]
                scores@.contains_key(g) ==> scores@[g]@ == row_map(
                    premises@,
                    rows@[last_place(goals@.take(i as int), g)->0]@,
                ),
    {
        let table: HashMap<u64, T> = row_table(premises, rows[i].as_slice());
        scores.insert(goals[i], table);
        proof {
            assert(goals@.take(i + 1).drop_last() =~= goals@.take(i as int));
            assert(goals@.take(i + 1).last() == goals@[i as int]);
        }
    }
    assert(goals@.take(goals@.len() as int) =~= goals@);
    proof {
        assert forall|g: u64| #[trigger] scores@.contains_key(g) <==> goals@.contains(g) by {
            lemma_last_place(goals@, g);
        }
        assert forall|g: u64, p: u64| scores@.contains_key(g) implies (
        #[trigger] scores@[g]@.contains_key(p) <==> premises@.contains(p)) by {
            lemma_last_place(premises@, p);
        }
        assert forall|a: int, b: int|
            {
                &&& 0 <= a < goals@.len()
                &&& 0 <= b < premises@.len()
                &&& forall|c: int| a < c < goals@.len() ==> goals@[c] != goals@[a]
                &&& forall|c: int| b < c < premises@.len() ==> premises@[c] != premises@[b]
            } implies scores@[#[trigger] goals@[a]]@[#[trigger] premises@[b]] == rows@[a]@[b] by {
            lemma_last_place(goals@, goals@[a]);
            lemma_last_place(premises@, premises@[b]);
            assert(goals@.contains(goals@[a]) && premises@.contains(premises@[b]));
            assert(last_place(goals@, goals@[a]) == Some(a));
            assert(last_place(premises@, premises@[b]) == Some(b));
            assert(scores@.contains_key(goals@[a]));
        }
    }
    scores
}

/// The scores where each premise is as likely as any other: `p` for each goal and premise.
pub fn uniform_scores<T: Copy>(goals: &[u64], premises: &[u64], p: T) -> (scores: HashMap<
    u64,
    HashMap<u64, T>,
>)
    ensures
        forall|g: u64| #[trigger] scores@.contains_key(g) <==> goals@.contains(g),
        forall|g: u64| #[trigger]
            scores@.contains_key(g) ==> scores@[g]@ == Map::new(
                |q: u64| premises@.contains(q),
                |q: u64| p,
            ),
{
    let mut rows: Vec<Vec<T>> = Vec::new();
    for i in 0..goals.len()
        invariant
            rows@.len() == i,
            forall|k: int|
                0 <= k < i ==> (#[trigger] rows@[k])@ == Seq::new(premises@.len(), |j: int| p),
    {
        let mut row: Vec<T> = Vec::new();
        for j in 0..premises.len()
            invariant
                row@ == Seq::new(j as nat, |j: int| p),
        {
            row.push(p);
            assert(row@ =~= Seq::new((j + 1) as nat, |j: int| p));
        }
        rows.push(row);
    }
    let scores: HashMap<u64, HashMap<u64, T>> = bind_scores(goals, premises, rows.as_slice());
    proof {
        assert forall|g: u64| #[trigger] scores@.contains_key(g) <==> goals@.contains(g) by {
            lemma_last_place(goals@, g);
        }
        assert forall|g: u64| #[trigger] scores@.contains_key(g) implies scores@[g]@ == Map::new(
            |q: u64| premises@.contains(q),
            |q: u64| p,
        ) by {
            lemma_last_place(goals@, g);
            let k = last_place(goals@, g)->0;
            assert(rows@[k]@ == Seq::new(premises@.len(), |j: int| p));
            assert forall|q: u64| last_place(premises@, q) is Some <==> premises@.contains(q) by {
                lemma_last_place(premises@, q);
            }
            assert forall|q: u64| premises@.contains(q) implies row_map(
                premises@,
                rows@[k]@,
            )[q] == p by {
                lemma_last_place(premises@, q);
            }
            assert(scores@[g]@ =~= Map::new(|q: u64| premises@.contains(q), |q: u64| p));
        }
    }
    scores
}

/// An id has a last place exactly if it is in the list, and stands there and nowhere after.
proof fn lemma_last_place(ids: Seq<u64>, id: u64)
    ensures
        last_place(ids, id) is Some <==> ids.contains(id),
        last_place(ids, id) matches Some(k) ==> {
            &&& 0 <= k < ids.len()
            &&& ids[k] == id
            &&& forall|j: int| k < j < ids.len() ==> ids[j] != id
        },
    decreases ids.len(),
{
    if ids.len() > 0 {
        let init = ids.drop_last();
        lemma_last_place(init, id);
        if ids.last() == id {
            assert(ids[ids.len() - 1] == id);
        } else if init.contains(id) {
            let k = choose|k: int| 0 <= k < init.len() && init[k] == id;
            assert(ids[k] == id);
        }
        if ids.contains(id) && ids.last() != id {
            let k = choose|k: int| 0 <= k < ids.len() && ids[k] == id;
            assert(init[k] == id);
        }
        if let Some(k) = last_place(ids, id) {
            assert forall|j: int| k < j < ids.len() implies ids[j] != id by {
                if j < init.len() {
                    assert(init[j] != id);
                }
            }
        }
    }
}

/// A file that may hold the network's weights.
pub struct Candidate {
    /// The path as it is shown to the user.
    pub shown: String,
    /// Whether there is such a file.
    pub exists: bool,
    /// Whether the path can be written in UTF-8, which the network's loader asks for.
    pub utf8: bool,
}

/// What is said where neither file of weights is there.
pub open spec fn no_weights_text(first: Seq<char>, second: Seq<char>) -> Seq<char> {
    "no ONNX weights found; tried "@ + first + " and "@ + second
}

/// What is said of a path that cannot be written in UTF-8.
pub open spec fn bad_path_text(path: Seq<char>) -> Seq<char> {
    "non-UTF-8 weights path: "@ + path
}

/// Which of two files the weights come from: the first that is there, if its path can be written
/// in UTF-8.
pub fn choose_weights(first: &Candidate, second: &Candidate) -> (result: Result<usize, String>)
    ensures
        match result {
            Ok(k) => {
                ||| k == 0 && first.exists && first.utf8
                ||| k == 1 && !first.exists && second.exists && second.utf8
            },
            Err(message) => {
                ||| first.exists && !first.utf8 && message@ == bad_path_text(first.shown@)
                ||| !first.exists && second.exists && !second.utf8 && message@ == bad_path_text(
                    second.shown@,
                )
                ||| !first.exists && !second.exists && message@ == no_weights_text(
                    first.shown@,
                    second.shown@,
                )
            },
        },
        result matches Err(message) ==> message@ == (if first.exists {
            "non-UTF-8 weights path: "@ + first.shown@
        } else if second.exists {
            "non-UTF-8 weights path: "@ + second.shown@
        } else {
            "no ONNX weights found; tried "@ + first.shown@ + " and "@ + second.shown@
        }),
{
    if !first.exists && !second.exists {
        let mut message: String = "no ONNX weights found; tried ".to_owned();
        message.append(first.shown.as_str());
        message.append(" and ");
        message.append(second.shown.as_str());
        return Err(message);
    }
    let at: usize = if first.exists {
        0
    } else {
        1
    };
    let chosen: &Candidate = if first.exists {
        first
    } else {
        second
    };
    if chosen.utf8 {
        Ok(at)
    } else {
        let mut message: String = "non-UTF-8 weights path: ".to_owned();
        message.append(chosen.shown.as_str());
        Err(message)
    }
}

/// Where the network's configuration comes from.
#[derive(Clone, Copy, Debug, PartialEq, Eq, Structural)]
pub enum ConfigSource {
    /// The directory that the environment names.
    Environment,
    /// The directory of exported weights beside the repository.
    Export,
    /// Nowhere: the weights stay uniform.
    Nowhere,
}

/// Where the network's configuration comes from, given which directories hold one. The
/// environment goes first.
pub fn config_source(in_environment: bool, in_export: bool) -> (source: ConfigSource)
    ensures
        source is Environment <==> in_environment,
        source is Export <==> !in_environment && in_export,
        source is Nowhere <==> !in_environment && !in_export,
{
    if in_environment {
        ConfigSource::Environment
    } else if in_export {
        ConfigSource::Export
    } else {
        ConfigSource::Nowhere
    }
}

/// The goal x premise submatrix of a row-major matrix with `n` columns: for each goal in turn,
/// its row at each premise in turn.
pub open spec fn submatrix<T>(logits: Seq<T>, n: int, goals: Seq<i64>, premises: Seq<i64>) -> Seq<
    Seq<T>,
> {
    Seq::new(
        goals.len(),
        |g: int| Seq::new(premises.len(), |p: int| logits[goals[g] * n + premises[p]]),
    )
}

/// Whether a row and a column name an element of a row-major list of `len` elements with `n`
/// columns.
pub open spec fn within(len: int, n: int, row: i64, column: i64) -> bool {
    (row >= 0 || n == 0) && column >= 0 && row * n + column < len
}

/// Whether each goal and premise name an element.
pub open spec fn all_within(len: int, n: int, goals: Seq<i64>, premises: Seq<i64>) -> bool {
    forall|g: int, p: int|
        0 <= g < goals.len() && 0 <= p < premises.len() ==> within(
            len,
            n,
            #[trigger] goals[g],
            #[trigger] premises[p],
        )
}

/// The goal x premise submatrix of a row-major matrix with `n` columns, row-major.
pub fn gather_sub<T: Copy>(logits: &[T], n: usize, goals: &[i64], premises: &[i64]) -> (out: Vec<T>)
    requires
        all_within(logits@.len() as int, n as int, goals@, premises@),
    ensures
        out@ == flat(submatrix(logits@, n as int, goals@, premises@)),
{
    let len: usize = logits.len();
    let ghost sub = submatrix(logits@, n as int, goals@, premises@);
    let mut out: Vec<T> = Vec::new();
    for g in 0..goals.len()
        invariant
            len == logits@.len(),
            sub == submatrix(logits@, n as int, goals@, premises@),
            out@ == flat(sub.take(g as int)),
            all_within(logits@.len() as int, n as int, goals@, premises@),
    {
        let ghost row = sub[g as int];
        for p in 0..premises.len()
            invariant
                g < goals@.len(),
                len == logits@.len(),
                sub == submatrix(logits@, n as int, goals@, premises@),
                row == sub[g as int],
                out@ == flat(sub.take(g as int)) + row.take(p as int),
                all_within(logits@.len() as int, n as int, goals@, premises@),
        {
            let goal: i64 = goals[g];
            let premise: i64 = premises[p];
            assert(within(len as int, n as int, goals@[g as int], premises@[p as int]));
            let at: usize = if n == 0 {
                assert(goal * n == 0) by (nonlinear_arith)
                    requires
                        n == 0,
                ;
                premise as usize
            } else {
                assert(goal <= goal * n) by (nonlinear_arith)
                    requires
                        goal >= 0,
                        n > 0,
                ;
                goal as usize * n + premise as usize
            };
            out.push(logits[at]);
            assert(row.take(p + 1) =~= row.take(p as int).push(logits@[at as int]));
        }
        assert(row.take(premises@.len() as int) =~= row);
        proof {
            lemma_flat_push(sub.take(g as int), row);
            assert(sub.take(g + 1) =~= sub.take(g as int).push(row));
        }
    }
    assert(sub.take(goals@.len() as int) =~= sub);
    out
}

/// Row `g` of the goal x premise submatrix is what the whole matrix holds for that goal at the
/// premises: the logits of a goal are the same, whether the network returns the submatrix or the
/// whole.
pub proof fn law_submatrix_rows<T>(
    logits: Seq<T>,
    n: int,
    goals: Seq<i64>,
    premises: Seq<i64>,
    g: int,
)
    requires
        0 <= g < goals.len(),
    ensures
        flat(submatrix(logits, n, goals, premises)).len() == goals.len() * premises.len(),
        flat(submatrix(logits, n, goals, premises)).subrange(
            g * premises.len(),
            g * premises.len() + premises.len(),
        ) == Seq::new(premises.len(), |k: int| logits[goals[g] * n + premises[k]]),
{
    let sub = submatrix(logits, n, goals, premises);
    let width = premises.len() as int;
    assert(uniform(sub, width));
    lemma_flat_row(sub, width, g);
    assert((g + 1) * width == g * width + width) by (nonlinear_arith);
}

/// The row of a goal or premise in a batch is the row of its bind: where the bind is declared,
/// on both sides.
pub proof fn law_rows_are_the_binds(
    tokens: Seq<Token>,
    binds: Seq<(u64, Vec<Position>)>,
    wanted: Seq<u64>,
    k: int,
)
    requires
        all_placed(bind_ids(binds), wanted),
        0 <= k < wanted.len(),
        tokens.len() + binds.len() <= i64::MAX,
    ensures
        ({
            let row = rows_of(bind_ids(binds), wanted, tokens.len() as int)[k] as int;
            let bind = binds[row - tokens.len()];
            let declarations = all_steps(bind_declarations(binds));
            let left = all_steps(token_positions(tokens)) + declarations;
            let right = all_steps(token_declarations(tokens)) + declarations;
            &&& tokens.len() <= row < left.len()
            &&& bind.0 == wanted[k]
            &&& left[row] == path_steps(bind.1@)
            &&& right[row] == path_steps(bind.1@)
        }),
{
    assert(last_place(bind_ids(binds), wanted[k]) is Some);
    lemma_last_place(bind_ids(binds), wanted[k]);
}

/// The goals of an example are the rows after its tokens, and its premises the rows after
/// those: each has its path on both sides.
pub proof fn law_example_rows(example: Example, g: int, p: int)
    requires
        example.tokens@.len() + example.goals@.len() + example.premises@.len() <= i64::MAX,
        0 <= g < example.goals@.len(),
        0 <= p < example.premises@.len(),
    ensures
        ({
            let tokens = example.tokens@.len() as int;
            let goals = example.goals@.len() as int;
            let left = example_positions(example) + views(example.goals@) + views(
                example.premises@,
            );
            let right = example_declarations(example) + views(example.goals@) + views(
                example.premises@,
            );
            let goal = row_numbers(tokens, goals)[g] as int;
            let premise = row_numbers(tokens + goals, example.premises@.len() as int)[p] as int;
            &&& left[goal] == example.goals@[g]@
            &&& right[goal] == example.goals@[g]@
            &&& left[premise] == example.premises@[p]@
            &&& right[premise] == example.premises@[p]@
        }),
{
}

/// Nothing is dropped from the scores: where no goal and no premise stands twice, the score of
/// the `g`-th goal against the `p`-th premise is the `p`-th number of the `g`-th row.
pub proof fn law_scores_are_the_rows<T>(
    scores: Map<u64, Map<u64, T>>,
    goals: Seq<u64>,
    premises: Seq<u64>,
    rows: Seq<Seq<T>>,
    g: int,
    p: int,
)
    requires
        forall|k: u64| #[trigger] scores.contains_key(k) <==> last_place(goals, k) is Some,
        forall|k: u64| #[trigger]
            scores.contains_key(k) ==> scores[k] == row_map(
                premises,
                rows[last_place(goals, k)->0],
            ),
        goals.no_duplicates(),
        premises.no_duplicates(),
        0 <= g < goals.len(),
        0 <= p < premises.len(),
    ensures
        scores.contains_key(goals[g]),
        scores[goals[g]].contains_key(premises[p]),
        scores[goals[g]][premises[p]] == rows[g][p],
{
    lemma_last_place(goals, goals[g]);
    lemma_last_place(premises, premises[p]);
    assert(goals.contains(goals[g]));
    assert(premises.contains(premises[p]));
}

} // verus!
