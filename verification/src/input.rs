//! A problem as the four tensors that the network takes, and the network's weights as rows.

use vstd::prelude::*;

use crate::encoding::{token_declarations, token_positions};
use crate::ir::{Position, Token, Tokenization};
use crate::rows::{flat, lemma_flat_len, lemma_flat_push, lemma_flat_row, uniform, views};
use crate::tensor::{cube_tensor, tensor_ints, tensor_shape};

verus! {

/// The network saw at most this many rows (tokens plus goals plus premises) in training.
pub const MAX_ROWS: usize = 5000;

/// The variant that stands for no step.
pub const NO_STEP: i64 = 7;

/// A path step as the network reads it: the variant, in declaration order, and its index.
pub open spec fn step_pair(position: Position) -> Seq<i64> {
    match position {
        Position::Type => seq![0i64, 0i64],
        Position::Rule(i) => seq![1i64, i as i64],
        Position::LHS => seq![2i64, 0i64],
        Position::RHS => seq![3i64, 0i64],
        Position::Param(i) => seq![4i64, i as i64],
        Position::Let(i) => seq![5i64, i as i64],
        Position::Arg(i) => seq![6i64, i as i64],
    }
}

/// The pair at step `j` of a padded path.
pub open spec fn pair_at(path: Seq<Position>, j: int) -> Seq<i64> {
    if j < path.len() {
        step_pair(path[j])
    } else {
        seq![NO_STEP, 0i64]
    }
}

/// A path as `length` pairs, padded where it is shorter.
pub open spec fn padded_pairs(path: Seq<Position>, length: int) -> Seq<Seq<i64>> {
    Seq::new(length as nat, |j: int| pair_at(path, j))
}

/// The numbers of each path of a list.
pub open spec fn path_rows(paths: Seq<Seq<Position>>, length: int) -> Seq<Seq<i64>> {
    Seq::new(paths.len(), |i: int| flat(padded_pairs(paths[i], length)))
}

/// The longest length in a list of paths.
pub open spec fn max_len(paths: Seq<Seq<Position>>) -> nat
    decreases paths.len(),
{
    if paths.len() == 0 {
        0
    } else if paths.last().len() > max_len(paths.drop_last()) {
        paths.last().len()
    } else {
        max_len(paths.drop_last())
    }
}

/// All the paths of a problem.
pub open spec fn problem_paths(tokens: Tokenization) -> Seq<Seq<Position>> {
    token_positions(tokens.tokens@) + token_declarations(tokens.tokens@) + views(tokens.goals@)
        + views(tokens.premises@)
}

/// The width of a problem's tensors: its longest path, and at least 1.
pub open spec fn problem_length(tokens: Tokenization) -> nat {
    if max_len(problem_paths(tokens)) == 0 {
        1
    } else {
        max_len(problem_paths(tokens))
    }
}

/// How many rows the network would see.
pub open spec fn problem_rows(tokens: Tokenization) -> nat {
    tokens.tokens@.len() + tokens.goals@.len() + tokens.premises@.len()
}

/// Whether the network applies to a problem.
pub open spec fn applies(tokens: Tokenization) -> bool {
    tokens.premises@.len() > 0 && problem_rows(tokens) <= MAX_ROWS
}

/// Whether `t` holds these paths as a `[paths, length, 2]` tensor.
pub open spec fn holds_paths(
    t: burn::tensor::TensorData,
    paths: Seq<Seq<Position>>,
    length: int,
) -> bool {
    &&& tensor_shape(t) == seq![paths.len() as usize, length as usize, 2usize]
    &&& tensor_ints(t) == flat(path_rows(paths, length))
}

/// The network's inputs for one problem.
pub struct Inputs {
    pub positions: burn::tensor::TensorData,
    pub declarations: burn::tensor::TensorData,
    pub goals: burn::tensor::TensorData,
    pub premises: burn::tensor::TensorData,
}

/// Whether these are a problem's inputs.
pub open spec fn inputs_of(inputs: Inputs, tokens: Tokenization) -> bool {
    let length = problem_length(tokens) as int;
    &&& holds_paths(inputs.positions, token_positions(tokens.tokens@), length)
    &&& holds_paths(inputs.declarations, token_declarations(tokens.tokens@), length)
    &&& holds_paths(inputs.goals, views(tokens.goals@), length)
    &&& holds_paths(inputs.premises, views(tokens.premises@), length)
}

/// A path step as the network reads it.
pub fn step(position: &Position) -> (pair: [i64; 2])
    ensures
        pair@ == step_pair(*position),
        match *position {
            Position::Type => pair@ == seq![0i64, 0i64],
            Position::Rule(i) => pair@ == seq![1i64, i as i64],
            Position::LHS => pair@ == seq![2i64, 0i64],
            Position::RHS => pair@ == seq![3i64, 0i64],
            Position::Param(i) => pair@ == seq![4i64, i as i64],
            Position::Let(i) => pair@ == seq![5i64, i as i64],
            Position::Arg(i) => pair@ == seq![6i64, i as i64],
        },
{
    let pair: [i64; 2] = match *position {
        Position::Type => [0, 0],
        Position::Rule(i) => [1, i as i64],
        Position::LHS => [2, 0],
        Position::RHS => [3, 0],
        Position::Param(i) => [4, i as i64],
        Position::Let(i) => [5, i as i64],
        Position::Arg(i) => [6, i as i64],
    };
    assert(pair@ =~= step_pair(*position));
    pair
}

proof fn lemma_max_len_concat(a: Seq<Seq<Position>>, b: Seq<Seq<Position>>)
    ensures
        max_len(a + b) == if max_len(a) < max_len(b) {
            max_len(b)
        } else {
            max_len(a)
        },
    decreases b.len(),
{
    if b.len() == 0 {
        assert(a + b =~= a);
    } else {
        lemma_max_len_concat(a, b.drop_last());
        assert((a + b).drop_last() =~= a + b.drop_last());
        assert((a + b).last() == b.last());
    }
}

proof fn lemma_max_len_push(a: Seq<Seq<Position>>, k: int)
    requires
        0 <= k < a.len(),
    ensures
        max_len(a.take(k + 1)) == if max_len(a.take(k)) < a[k].len() {
            a[k].len()
        } else {
            max_len(a.take(k))
        },
{
    assert(a.take(k + 1).drop_last() =~= a.take(k));
}

/// The longest of these paths, or `least` if that is longer.
fn longest_path(paths: &[Vec<Position>], least: usize) -> (len: usize)
    ensures
        len == if least < max_len(views(paths@)) {
            max_len(views(paths@))
        } else {
            least as nat
        },
{
    let mut len: usize = least;
    for k in 0..paths.len()
        invariant
            len == if least < max_len(views(paths@).take(k as int)) {
                max_len(views(paths@).take(k as int))
            } else {
                least as nat
            },
    {
        proof {
            lemma_max_len_push(views(paths@), k as int);
        }
        if paths[k].len() > len {
            len = paths[k].len();
        }
    }
    assert(views(paths@).take(paths@.len() as int) =~= views(paths@));
    len
}

/// The longest path of a problem, and at least 1.
fn longest_of(tokens: &Tokenization) -> (len: usize)
    ensures
        len == problem_length(*tokens),
{
    let mut len: usize = 1;
    let ghost positions = token_positions(tokens.tokens@);
    let ghost declarations = token_declarations(tokens.tokens@);
    for k in 0..tokens.tokens.len()
        invariant
            positions == token_positions(tokens.tokens@),
            declarations == token_declarations(tokens.tokens@),
            len >= 1,
            len >= max_len(positions.take(k as int)),
            len >= max_len(declarations.take(k as int)),
            len == 1 || len == max_len(positions.take(k as int)) || len == max_len(
                declarations.take(k as int),
            ),
    {
        proof {
            lemma_max_len_push(positions, k as int);
            lemma_max_len_push(declarations, k as int);
        }
        let token: &Token = &tokens.tokens[k];
        if token.position.len() > len {
            len = token.position.len();
        }
        if token.declaration.len() > len {
            len = token.declaration.len();
        }
    }
    assert(positions.take(positions.len() as int) =~= positions);
    assert(declarations.take(declarations.len() as int) =~= declarations);
    proof {
        lemma_max_len_concat(positions, declarations);
        lemma_max_len_concat(positions + declarations, views(tokens.goals@));
        lemma_max_len_concat(
            positions + declarations + views(tokens.goals@),
            views(tokens.premises@),
        );
    }
    let len: usize = longest_path(tokens.goals.as_slice(), len);
    longest_path(tokens.premises.as_slice(), len)
}

/// Appends a path's pairs to `data`, padded to `length` of them.
fn push_path(data: &mut Vec<i64>, path: &[Position], length: usize)
    ensures
        final(data)@ == old(data)@ + flat(padded_pairs(path@, length as int)),
{
    let ghost start = data@;
    let ghost pairs = padded_pairs(path@, length as int);
    assert(start + flat(pairs.take(0)) =~= start);
    for j in 0..length
        invariant
            pairs == padded_pairs(path@, length as int),
            data@ == start + flat(pairs.take(j as int)),
    {
        let pair: [i64; 2] = if j < path.len() {
            step(&path[j])
        } else {
            [NO_STEP, 0]
        };
        assert(pair@ =~= pairs[j as int]);
        data.push(pair[0]);
        data.push(pair[1]);
        proof {
            lemma_flat_push(pairs.take(j as int), pair@);
            assert(pairs.take(j + 1) =~= pairs.take(j as int).push(pair@));
            assert(data@ =~= start + (flat(pairs.take(j as int)) + pair@));
        }
    }
    assert(pairs.take(length as int) =~= pairs);
}

proof fn lemma_pairs_len(path: Seq<Position>, length: int)
    requires
        length >= 0,
    ensures
        flat(padded_pairs(path, length)).len() == length * 2,
{
    assert(uniform(padded_pairs(path, length), 2));
    lemma_flat_len(padded_pairs(path, length), 2);
}

/// The elements of a `[paths, length, 2]` tensor, as a tensor.
fn pairs_tensor(data: Vec<i64>, count: usize, length: usize, paths: Ghost<Seq<Seq<Position>>>) -> (t:
    burn::tensor::TensorData)
    requires
        paths@.len() == count,
        data@ == flat(path_rows(paths@, length as int)),
    ensures
        holds_paths(t, paths@, length as int),
{
    proof {
        let rows = path_rows(paths@, length as int);
        assert forall|i: int| 0 <= i < rows.len() implies (#[trigger] rows[i]).len() == length
            * 2 by {
            lemma_pairs_len(paths@[i], length as int);
        }
        lemma_flat_len(rows, length * 2);
        assert(count * (length * 2) == count * length * 2) by (nonlinear_arith);
    }
    cube_tensor(data, count, length, 2)
}

/// The tensor of a list of paths.
fn paths_tensor(paths: &[Vec<Position>], length: usize) -> (t: burn::tensor::TensorData)
    ensures
        holds_paths(t, views(paths@), length as int),
{
    let mut data: Vec<i64> = Vec::new();
    let ghost rows = path_rows(views(paths@), length as int);
    for i in 0..paths.len()
        invariant
            rows == path_rows(views(paths@), length as int),
            data@ == flat(rows.take(i as int)),
    {
        push_path(&mut data, paths[i].as_slice(), length);
        proof {
            lemma_flat_push(rows.take(i as int), rows[i as int]);
            assert(rows.take(i + 1) =~= rows.take(i as int).push(rows[i as int]));
        }
    }
    assert(rows.take(paths@.len() as int) =~= rows);
    pairs_tensor(data, paths.len(), length, Ghost(views(paths@)))
}

/// The network's inputs for `tokens`, or `None` if it has no premises or is too big.
pub fn inputs(tokens: &Tokenization) -> (result: Option<Inputs>)
    ensures
        result is Some <==> applies(*tokens),
        result is Some <==> tokens.premises@.len() > 0 && tokens.tokens@.len() + tokens.goals@.len()
            + tokens.premises@.len() <= 5000,
        result matches Some(inputs) ==> inputs_of(inputs, *tokens),
        result matches Some(inputs) ==> {
            let length = tensor_shape(inputs.positions)[1];
            &&& tensor_shape(inputs.positions) == seq![tokens.tokens@.len() as usize, length, 2usize]
            &&& tensor_shape(inputs.declarations) == seq![
                tokens.tokens@.len() as usize,
                length,
                2usize,
            ]
            &&& tensor_shape(inputs.goals) == seq![tokens.goals@.len() as usize, length, 2usize]
            &&& tensor_shape(inputs.premises) == seq![
                tokens.premises@.len() as usize,
                length,
                2usize,
            ]
        },
{
    let n_tokens: usize = tokens.tokens.len();
    let n_goals: usize = tokens.goals.len();
    let n_premises: usize = tokens.premises.len();
    if n_premises == 0 || n_tokens > MAX_ROWS || n_goals > MAX_ROWS - n_tokens || n_premises
        > MAX_ROWS - n_tokens - n_goals {
        return None;
    }
    let length: usize = longest_of(tokens);
    let mut positions: Vec<i64> = Vec::new();
    let mut declarations: Vec<i64> = Vec::new();
    let ghost position_rows = path_rows(token_positions(tokens.tokens@), length as int);
    let ghost declaration_rows = path_rows(token_declarations(tokens.tokens@), length as int);
    for i in 0..tokens.tokens.len()
        invariant
            position_rows == path_rows(token_positions(tokens.tokens@), length as int),
            declaration_rows == path_rows(token_declarations(tokens.tokens@), length as int),
            positions@ == flat(position_rows.take(i as int)),
            declarations@ == flat(declaration_rows.take(i as int)),
    {
        let token: &Token = &tokens.tokens[i];
        push_path(&mut positions, token.position.as_slice(), length);
        push_path(&mut declarations, token.declaration.as_slice(), length);
        proof {
            lemma_flat_push(position_rows.take(i as int), position_rows[i as int]);
            lemma_flat_push(declaration_rows.take(i as int), declaration_rows[i as int]);
            assert(position_rows.take(i + 1) =~= position_rows.take(i as int).push(
                position_rows[i as int],
            ));
            assert(declaration_rows.take(i + 1) =~= declaration_rows.take(i as int).push(
                declaration_rows[i as int],
            ));
        }
    }
    assert(position_rows.take(tokens.tokens@.len() as int) =~= position_rows);
    assert(declaration_rows.take(tokens.tokens@.len() as int) =~= declaration_rows);
    Some(
        Inputs {
            positions: pairs_tensor(
                positions,
                n_tokens,
                length,
                Ghost(token_positions(tokens.tokens@)),
            ),
            declarations: pairs_tensor(
                declarations,
                n_tokens,
                length,
                Ghost(token_declarations(tokens.tokens@)),
            ),
            goals: paths_tensor(tokens.goals.as_slice(), length),
            premises: paths_tensor(tokens.premises.as_slice(), length),
        },
    )
}

/// How many rows of `n` a flat list of `len` elements makes, the last one short if need be.
pub open spec fn row_count(len: int, n: int) -> int {
    (len + n - 1) / n
}

/// The `k`-th stretch of `n` elements, cut off where the list ends.
pub open spec fn chunk<T>(flat: Seq<T>, n: int, k: int) -> Seq<T> {
    flat.subrange(
        k * n,
        if (k + 1) * n < flat.len() {
            (k + 1) * n
        } else {
            flat.len() as int
        },
    )
}

/// The network's flat output as rows of `n` weights.
pub fn weight_rows<T: Copy>(flat: &[T], n: usize) -> (rows: Vec<Vec<T>>)
    requires
        n > 0,
    ensures
        rows@.len() == row_count(flat@.len() as int, n as int),
        forall|k: int|
            0 <= k < rows@.len() ==> (#[trigger] rows@[k])@ == chunk(flat@, n as int, k),
        flat@.len() <= rows@.len() * n < flat@.len() + n,
        forall|k: int|
            0 <= k < rows@.len() ==> (#[trigger] rows@[k])@ == flat@.subrange(
                k * n,
                if k * n + n < flat@.len() {
                    k * n + n
                } else {
                    flat@.len() as int
                },
            ),
{
    let mut rows: Vec<Vec<T>> = Vec::new();
    let mut start: usize = 0;
    assert(rows@.len() * n == 0) by (nonlinear_arith)
        requires
            rows@.len() == 0,
    ;
    while start < flat.len()
        invariant
            n > 0,
            start <= flat@.len(),
            start == rows@.len() * n || (start == flat@.len() && start <= rows@.len() * n < start
                + n),
            forall|k: int|
                0 <= k < rows@.len() ==> (#[trigger] rows@[k])@ == chunk(flat@, n as int, k),
        decreases flat@.len() - start,
    {
        let end: usize = if n < flat.len() - start {
            start + n
        } else {
            flat.len()
        };
        let row: Vec<T> = vstd::slice::slice_to_vec(vstd::slice::slice_subrange(flat, start, end));
        assert((rows@.len() + 1) * n == rows@.len() * n + n) by (nonlinear_arith);
        assert(row@ == chunk(flat@, n as int, rows@.len() as int));
        rows.push(row);
        start = end;
    }
    proof {
        let len = flat@.len() as int;
        let count = rows@.len() as int;
        assert(count == (len + n - 1) / n as int) by (nonlinear_arith)
            requires
                n > 0,
                len <= count * n < len + n,
        ;
        assert forall|k: int| 0 <= k < rows@.len() implies (#[trigger] rows@[k])@ == flat@.subrange(
            k * n,
            if k * n + n < flat@.len() {
                k * n + n
            } else {
                flat@.len() as int
            },
        ) by {
            assert((k + 1) * n == k * n + n) by (nonlinear_arith);
        }
    }
    rows
}

/// No path of a problem is longer than its tensors are wide.
pub proof fn law_no_path_is_cut(tokens: Tokenization, i: int)
    requires
        0 <= i < problem_paths(tokens).len(),
    ensures
        problem_paths(tokens)[i].len() <= problem_length(tokens),
{
    lemma_max_len_bounds(problem_paths(tokens), i);
}

proof fn lemma_max_len_bounds(paths: Seq<Seq<Position>>, i: int)
    requires
        0 <= i < paths.len(),
    ensures
        paths[i].len() <= max_len(paths),
    decreases paths.len(),
{
    if i < paths.len() - 1 {
        lemma_max_len_bounds(paths.drop_last(), i);
    }
}

/// Each number of a tensor is where its row, step and place in the pair say: `[i, j, c]` holds
/// the variant or the index of step `j` of path `i`, or padding past the end of the path.
pub proof fn law_tensor_is_row_major(
    t: burn::tensor::TensorData,
    paths: Seq<Seq<Position>>,
    length: int,
    i: int,
    j: int,
    c: int,
)
    requires
        holds_paths(t, paths, length),
        0 <= i < paths.len(),
        0 <= j < length,
        0 <= c < 2,
    ensures
        tensor_ints(t).len() == paths.len() * length * 2,
        0 <= (i * length + j) * 2 + c < tensor_ints(t).len(),
        tensor_ints(t)[(i * length + j) * 2 + c] == pair_at(paths[i], j)[c],
        j >= paths[i].len() ==> tensor_ints(t)[(i * length + j) * 2 + c] == (if c == 0 {
            7i64
        } else {
            0i64
        }),
        j < paths[i].len() ==> tensor_ints(t)[(i * length + j) * 2 + c] == (match paths[i][j] {
            Position::Type => seq![0i64, 0i64],
            Position::Rule(x) => seq![1i64, x as i64],
            Position::LHS => seq![2i64, 0i64],
            Position::RHS => seq![3i64, 0i64],
            Position::Param(x) => seq![4i64, x as i64],
            Position::Let(x) => seq![5i64, x as i64],
            Position::Arg(x) => seq![6i64, x as i64],
        })[c],
        tensor_shape(t) == seq![paths.len() as usize, length as usize, 2usize],
{
    let rows = path_rows(paths, length);
    let width = length * 2;
    assert forall|k: int| 0 <= k < rows.len() implies (#[trigger] rows[k]).len() == width by {
        lemma_pairs_len(paths[k], length);
    }
    lemma_flat_row(rows, width, i);
    let pairs = padded_pairs(paths[i], length);
    assert(uniform(pairs, 2));
    lemma_flat_row(pairs, 2, j);
    let whole = tensor_ints(t);
    assert(rows[i] == flat(pairs));
    assert(flat(pairs).subrange(j * 2, (j + 1) * 2)[c] == pairs[j][c]);
    assert(flat(pairs)[j * 2 + c] == pairs[j][c]);
    assert(whole.subrange(i * width, (i + 1) * width)[j * 2 + c] == rows[i][j * 2 + c]);
    assert((i + 1) * width <= paths.len() * width && (i + 1) * width == i * width + width)
        by (nonlinear_arith)
        requires
            0 <= i < paths.len(),
            width >= 0,
    ;
    assert(i * width + (j * 2 + c) == (i * length + j) * 2 + c && paths.len() * width
        == paths.len() * length * 2) by (nonlinear_arith)
        requires
            width == length * 2,
    ;
    assert(whole[i * width + (j * 2 + c)] == pairs[j][c]);
}

/// Where one path continues another, the numbers of the shorter are the first numbers of the
/// longer.
pub proof fn law_prefix_has_the_first_numbers(
    path: Seq<Position>,
    more: Seq<Position>,
    length: int,
)
    requires
        path.len() <= length,
    ensures
        flat(padded_pairs(path, length)).len() == 2 * length,
        flat(padded_pairs(path + more, length)).len() == 2 * length,
        flat(padded_pairs(path + more, length)).take(2 * path.len() as int) == flat(
            padded_pairs(path, length),
        ).take(2 * path.len() as int),
{
    lemma_pairs_len(path, length);
    lemma_pairs_len(path + more, length);
    let short = padded_pairs(path, length);
    let long = padded_pairs(path + more, length);
    assert(uniform(short, 2) && uniform(long, 2));
    assert forall|p: int| 0 <= p < 2 * path.len() implies flat(long)[p] == flat(short)[p] by {
        let j = p / 2;
        lemma_flat_row(short, 2, j);
        lemma_flat_row(long, 2, j);
        assert(short[j] == long[j]);
        assert(flat(short)[p] == flat(short).subrange(j * 2, (j + 1) * 2)[p - j * 2]);
        assert(flat(long)[p] == flat(long).subrange(j * 2, (j + 1) * 2)[p - j * 2]);
    }
    assert(flat(long).take(2 * path.len() as int) =~= flat(short).take(2 * path.len() as int));
}

/// The tensors of a problem hold the paths of its own parts, one row each: where its tokens stand,
/// where their symbols are declared, its goals and its premises. All are equally wide: as wide as
/// the longest of the paths, and at least 1.
pub proof fn law_inputs_hold_the_problem(inputs: Inputs, tokens: Tokenization) -> (length: int)
    requires
        inputs_of(inputs, tokens),
    ensures
        length >= 1,
        forall|i: int|
            0 <= i < tokens.tokens@.len() ==> (#[trigger] tokens.tokens@[i]).position@.len()
                <= length && tokens.tokens@[i].declaration@.len() <= length,
        forall|i: int|
            0 <= i < tokens.goals@.len() ==> (#[trigger] tokens.goals@[i])@.len() <= length,
        forall|i: int|
            0 <= i < tokens.premises@.len() ==> (#[trigger] tokens.premises@[i])@.len() <= length,
        length > 1 ==> {
            ||| exists|i: int|
                0 <= i < tokens.tokens@.len() && ((#[trigger] tokens.tokens@[i]).position@.len()
                    == length || tokens.tokens@[i].declaration@.len() == length)
            ||| exists|i: int|
                0 <= i < tokens.goals@.len() && (#[trigger] tokens.goals@[i])@.len() == length
            ||| exists|i: int|
                0 <= i < tokens.premises@.len() && (#[trigger] tokens.premises@[i])@.len() == length
        },
        holds_paths(
            inputs.positions,
            Seq::new(tokens.tokens@.len(), |i: int| tokens.tokens@[i].position@),
            length,
        ),
        holds_paths(
            inputs.declarations,
            Seq::new(tokens.tokens@.len(), |i: int| tokens.tokens@[i].declaration@),
            length,
        ),
        holds_paths(
            inputs.goals,
            Seq::new(tokens.goals@.len(), |i: int| tokens.goals@[i]@),
            length,
        ),
        holds_paths(
            inputs.premises,
            Seq::new(tokens.premises@.len(), |i: int| tokens.premises@[i]@),
            length,
        ),
{
    let length = problem_length(tokens) as int;
    let all = problem_paths(tokens);
    let n = tokens.tokens@.len() as int;
    let g = tokens.goals@.len() as int;
    assert forall|i: int| 0 <= i < n implies (#[trigger] tokens.tokens@[i]).position@.len()
        <= length && tokens.tokens@[i].declaration@.len() <= length by {
        law_no_path_is_cut(tokens, i);
        law_no_path_is_cut(tokens, n + i);
        assert(all[i] == tokens.tokens@[i].position@);
        assert(all[n + i] == tokens.tokens@[i].declaration@);
    }
    assert forall|i: int| 0 <= i < g implies (#[trigger] tokens.goals@[i])@.len() <= length by {
        law_no_path_is_cut(tokens, 2 * n + i);
        assert(all[2 * n + i] == tokens.goals@[i]@);
    }
    assert forall|i: int| 0 <= i < tokens.premises@.len() implies (
    #[trigger] tokens.premises@[i])@.len() <= length by {
        law_no_path_is_cut(tokens, 2 * n + g + i);
        assert(all[2 * n + g + i] == tokens.premises@[i]@);
    }
    if length > 1 {
        let i = lemma_max_len_attained(all);
        if i < n {
            assert(tokens.tokens@[i].position@ == all[i]);
        } else if i < 2 * n {
            assert(tokens.tokens@[i - n].declaration@ == all[i]);
        } else if i < 2 * n + g {
            assert(tokens.goals@[i - 2 * n]@ == all[i]);
        } else {
            assert(tokens.premises@[i - 2 * n - g]@ == all[i]);
        }
    }
    assert(token_positions(tokens.tokens@) =~= Seq::new(
        tokens.tokens@.len(),
        |i: int| tokens.tokens@[i].position@,
    ));
    assert(token_declarations(tokens.tokens@) =~= Seq::new(
        tokens.tokens@.len(),
        |i: int| tokens.tokens@[i].declaration@,
    ));
    assert(views(tokens.goals@) =~= Seq::new(tokens.goals@.len(), |i: int| tokens.goals@[i]@));
    assert(views(tokens.premises@) =~= Seq::new(
        tokens.premises@.len(),
        |i: int| tokens.premises@[i]@,
    ));
    length
}

proof fn lemma_max_len_attained(paths: Seq<Seq<Position>>) -> (i: int)
    requires
        max_len(paths) > 0,
    ensures
        0 <= i < paths.len(),
        paths[i].len() == max_len(paths),
    decreases paths.len(),
{
    if paths.last().len() > max_len(paths.drop_last()) {
        paths.len() - 1
    } else {
        lemma_max_len_attained(paths.drop_last())
    }
}

/// Whether each index of a path can be told from the numbers that the network reads.
pub open spec fn readable(path: Seq<Position>) -> bool {
    forall|k: int|
        0 <= k < path.len() ==> match #[trigger] path[k] {
            Position::Rule(i) | Position::Param(i) | Position::Let(i) | Position::Arg(i) => i
                <= i64::MAX,
            _ => true,
        }
}

/// The network can tell any two paths apart: paths that are padded to the same numbers are the
/// same path.
pub proof fn law_padded_paths_differ(a: Seq<Position>, b: Seq<Position>, length: int)
    requires
        a.len() <= length,
        b.len() <= length,
        readable(a),
        readable(b),
        flat(padded_pairs(a, length)) == flat(padded_pairs(b, length)),
    ensures
        a == b,
{
    let pa = padded_pairs(a, length);
    let pb = padded_pairs(b, length);
    assert(uniform(pa, 2));
    assert(uniform(pb, 2));
    assert forall|k: int| 0 <= k < length implies pair_at(a, k) == pair_at(b, k) by {
        lemma_flat_row(pa, 2, k);
        lemma_flat_row(pb, 2, k);
        assert(pa[k] == pb[k]);
    }
    if a.len() < b.len() {
        let k = a.len() as int;
        assert(pair_at(a, k) == pair_at(b, k));
        assert(pair_at(a, k)[0] == NO_STEP);
        assert(step_pair(b[k])[0] < NO_STEP);
    }
    if b.len() < a.len() {
        let k = b.len() as int;
        assert(pair_at(a, k) == pair_at(b, k));
        assert(pair_at(b, k)[0] == NO_STEP);
        assert(step_pair(a[k])[0] < NO_STEP);
    }
    assert forall|k: int| 0 <= k < a.len() implies a[k] == b[k] by {
        assert(pair_at(a, k) == pair_at(b, k));
        let x = step_pair(a[k]);
        let y = step_pair(b[k]);
        assert(x[0] == y[0] && x[1] == y[1]);
    }
    assert(a =~= b);
}

/// A flat matrix with a row for each goal and a column for each premise comes out as those
/// rows.
pub proof fn law_weight_rows_are_the_matrix<T>(flat: Seq<T>, goals: int, premises: int, g: int, p: int)
    requires
        flat.len() == goals * premises,
        0 <= g < goals,
        0 <= p < premises,
    ensures
        row_count(flat.len() as int, premises) == goals,
        chunk(flat, premises, g).len() == premises,
        chunk(flat, premises, g)[p] == flat[g * premises + p],
{
    assert((goals * premises + premises - 1) / premises == goals) by (nonlinear_arith)
        requires
            premises > 0,
            goals > 0,
    ;
    assert(0 <= g * premises && (g + 1) * premises == g * premises + premises && (g + 1) * premises
        <= goals * premises) by (nonlinear_arith)
        requires
            0 <= g < goals,
            premises > 0,
    ;
}

} // verus!
