use canonical_heuristics::encoding::{
    encode_path, is_encodable, matrix_name, pack_pair, pack_paths, packed_len, position_to_steps,
    sequence_paths, Example, PositionMatrices, NUM_MATRICES, PAD,
};
use canonical_heuristics::ir::{Position, Token};
use canonical_heuristics::tables::{recipe, Kind, Recipe, StepTables, Unit};
use canonical_heuristics::weights::{NamedTensor, TensorMap};

/// `s + x * y` in the integers modulo 2^32, where matrix products are associative.
fn wrapping(s: u32, x: u32, y: u32) -> u32 {
    s.wrapping_add(x.wrapping_mul(y))
}

/// `s + x * y` on bit patterns of floats.
fn floating(s: u32, x: u32, y: u32) -> u32 {
    (f32::from_bits(s) + f32::from_bits(x) * f32::from_bits(y)).to_bits()
}

fn tensor(data: Vec<u32>, shape: Vec<usize>) -> NamedTensor {
    NamedTensor { data, shape }
}

/// A root and eleven matrices of dimension 3 with all different entries.
fn embedding_file() -> TensorMap {
    let mut tensors = TensorMap::new();
    tensors.insert("root".to_string(), tensor(vec![1, 2, 3], vec![3]));
    for k in 0..NUM_MATRICES {
        let base = 100 * (k as u32 + 1);
        tensors.insert(
            matrix_name(k).to_string(),
            tensor((0..9).map(|e| base + e * e + 1).collect(), vec![3, 3]),
        );
    }
    tensors
}

fn matmul(a: &[u32], b: &[u32]) -> Vec<u32> {
    let mut out = vec![0u32; 9];
    for r in 0..3 {
        for c in 0..3 {
            for k in 0..3 {
                out[r * 3 + c] = wrapping(out[r * 3 + c], a[r * 3 + k], b[k * 3 + c]);
            }
        }
    }
    out
}

fn vecmul(v: &[u32], m: &[u32]) -> Vec<u32> {
    (0..3).map(|c| (0..3).fold(0, |s, k| wrapping(s, v[k], m[k * 3 + c]))).collect()
}

fn unit_index(unit: Unit) -> usize {
    match unit {
        Unit::Type => 0,
        Unit::LHS => 1,
        Unit::RHS => 2,
    }
}

fn kind_index(kind: Kind) -> usize {
    match kind {
        Kind::Rule => 0,
        Kind::Param => 1,
        Kind::Let => 2,
        Kind::Arg => 3,
    }
}

/// The matrix of a position from its recipe.
fn position_matrix(tables: &StepTables, pos: Position) -> Vec<u32> {
    match recipe(pos) {
        Recipe::Unit(unit) => tables.unit[unit_index(unit)].data.clone(),
        Recipe::Indexed(kind, power) => {
            let right = &tables.right[kind_index(kind)].data;
            let mut m = right.clone();
            for _ in 1..power {
                m = matmul(&m, right);
            }
            matmul(&m, &tables.down[kind_index(kind)].data)
        }
    }
}

#[test]
fn path_steps_and_indexed_powers_match() {
    let tensors = embedding_file();
    let pm = PositionMatrices::load(&tensors).unwrap();
    let tables = StepTables::load(&tensors).unwrap();
    let cases: Vec<Vec<Position>> = vec![
        vec![],
        vec![Position::Type],
        vec![Position::LHS],
        vec![Position::RHS],
        vec![Position::Type, Position::LHS],
        vec![Position::Rule(0)],
        vec![Position::Rule(1)],
        vec![Position::Param(3), Position::Arg(2)],
        vec![Position::Let(0), Position::Type, Position::Rule(4)],
        (0..12).map(Position::Arg).collect(),
        (0..20).map(Position::Arg).collect(),
    ];
    for path in cases {
        let steps = encode_path(&path);
        let by_steps = pm.embed_path(&steps, wrapping);
        let by_powers = path
            .iter()
            .fold(tables.root.data.clone(), |v, &p| vecmul(&v, &position_matrix(&tables, p)));
        assert_eq!(by_steps, by_powers, "path {path:?}");
    }
}

#[test]
fn positions_expand_to_steps() {
    assert_eq!(position_to_steps(Position::Type), vec![0]);
    assert_eq!(position_to_steps(Position::LHS), vec![1]);
    assert_eq!(position_to_steps(Position::RHS), vec![2]);
    assert_eq!(position_to_steps(Position::Rule(0)), vec![3, 4]);
    assert_eq!(position_to_steps(Position::Param(3)), vec![5, 5, 5, 5, 6]);
    assert_eq!(position_to_steps(Position::Let(1)), vec![7, 7, 8]);
    assert_eq!(position_to_steps(Position::Arg(2)), vec![9, 9, 9, 10]);
}

#[test]
fn paths_are_encoded_in_order() {
    let path = [Position::Let(0), Position::Type, Position::Rule(1)];
    assert_eq!(encode_path(&path), vec![7, 8, 0, 3, 3, 4]);
    assert_eq!(encode_path(&[]), Vec::<u8>::new());
    assert!(encode_path(&path).iter().all(|&s| s < PAD));
}

#[test]
fn encoding_concatenates_and_is_injective() {
    let a = [Position::Arg(1), Position::LHS];
    let b = [Position::Rule(0)];
    let both = [Position::Arg(1), Position::LHS, Position::Rule(0)];
    let mut steps = encode_path(&a);
    steps.extend(encode_path(&b));
    assert_eq!(steps, encode_path(&both));
    assert_ne!(
        encode_path(&[Position::Arg(0), Position::Arg(1)]),
        encode_path(&[Position::Arg(1), Position::Arg(0)])
    );
}

#[test]
fn steps_that_cannot_be_counted_are_refused() {
    assert!(is_encodable(&[]));
    assert!(is_encodable(&[Position::Arg(1000), Position::Type]));
    assert!(!is_encodable(&[Position::Arg(usize::MAX)]));
    assert!(!is_encodable(&[Position::Rule(usize::MAX / 2 - 1)]));
    assert!(is_encodable(&[Position::Rule(usize::MAX / 2 - 2)]));
    let half = usize::MAX / 4;
    assert!(!is_encodable(&[Position::Let(half), Position::Let(half)]));
}

#[test]
fn tokens_come_before_binds() {
    let tokens = [Token {
        position: vec![Position::LHS],
        declaration: vec![Position::Param(0)],
    }];
    let binds = [vec![Position::Type], vec![]];
    let (left, right) = sequence_paths(&tokens, &binds);
    assert_eq!(left, vec![vec![1], vec![0], vec![]]);
    assert_eq!(right, vec![vec![5, 6], vec![0], vec![]]);
}

#[test]
fn a_packed_batch_is_as_wide_as_its_longest_path() {
    assert_eq!(packed_len(&[]), 1);
    assert_eq!(packed_len(&[vec![]]), 1);
    assert_eq!(packed_len(&[vec![1], vec![1, 2, 3], vec![4, 5]]), 3);
}

#[test]
fn short_paths_are_padded_and_long_ones_cut() {
    let paths = [vec![1, 2, 3], vec![], vec![10, 11, 200]];
    assert_eq!(pack_paths(&paths, 2), vec![1, 2, 11, 11, 10, 11]);
    assert_eq!(pack_paths(&paths, 4), vec![1, 2, 3, 11, 11, 11, 11, 11, 10, 11, 11, 11]);
    assert_eq!(pack_paths(&paths, 0), Vec::<i64>::new());
}

#[test]
fn both_sides_are_packed_to_one_width() {
    let left = [vec![1], vec![2, 3]];
    let right = [vec![4, 5, 6], vec![]];
    let (l, r, width) = pack_pair(&left, &right);
    assert_eq!(width, 3);
    assert_eq!(l, vec![1, 11, 11, 2, 3, 11]);
    assert_eq!(r, vec![4, 5, 6, 11, 11, 11]);
    assert_eq!(pack_pair(&[], &[]), (vec![], vec![], 1));
}

#[test]
fn sides_of_different_lengths_keep_their_paths() {
    let left = [vec![1, 2, 3], vec![4]];
    let right = [vec![5]];
    let (l, r, width) = pack_pair(&left, &right);
    assert_eq!(width, 3);
    assert_eq!(l, vec![1, 2, 3, 4, 11, 11]);
    assert_eq!(r, vec![5, 11, 11]);
    assert_eq!(pack_pair(&[], &[vec![6, 7]]), (vec![], vec![6, 7], 2));
}

#[test]
fn padding_does_not_change_an_embedding() {
    let pm = PositionMatrices::load(&embedding_file()).unwrap();
    let path = encode_path(&[Position::Param(1), Position::RHS]);
    let row: Vec<u8> =
        pack_paths(std::slice::from_ref(&path), 9).iter().map(|&s| s as u8).collect();
    assert_eq!(row.len(), 9);
    assert_eq!(pm.embed_path(&row, wrapping), pm.embed_path(&path, wrapping));
}

#[test]
fn padding_is_the_identity_wherever_it_stands() {
    let pm = PositionMatrices::load(&embedding_file()).unwrap();
    let plain = [9u8, 9, 10, 0, 4];
    for padded in [
        vec![PAD, 9, 9, 10, 0, 4],
        vec![9, 200, 9, 11, 12, 10, 0, 255, 4],
        vec![9, 9, 10, 0, 4, 11, 11],
    ] {
        assert_eq!(pm.embed_path(&padded, wrapping), pm.embed_path(&plain, wrapping));
    }
    assert_eq!(pm.embed_path(&[PAD, 99], wrapping), pm.root);
}

#[test]
fn embedding_multiplies_rows_by_columns() {
    let mut tensors = embedding_file();
    tensors.insert("root".to_string(), tensor(vec![1, 10], vec![2]));
    tensors.insert("unit_matrices.Type".to_string(), tensor(vec![1, 2, 3, 4], vec![2, 2]));
    let pm = PositionMatrices::load(&tensors).unwrap();
    assert_eq!(pm.dim, 2);
    assert_eq!(pm.embed_path(&[], wrapping), vec![1, 10]);
    assert_eq!(pm.embed_path(&[0], wrapping), vec![31, 42]);
    assert_eq!(pm.embed_path(&[0, PAD, 0], wrapping), vec![157, 230]);
    assert_eq!(pm.embed_token(&[0], &[], wrapping), vec![31, 42, 1, 10]);
    assert_eq!(pm.embed_bind(&[0], wrapping), vec![31, 42, 31, 42]);
}

#[test]
fn the_same_path_embeds_alike() {
    let pm = PositionMatrices::load(&embedding_file()).unwrap();
    let path = encode_path(&[Position::Let(2), Position::Arg(0), Position::Type]);
    assert_eq!(pm.embed_path(&path, floating), pm.embed_path(&path, floating));
    assert_eq!(pm.embed_path(&path, wrapping).len(), pm.dim);
}

#[test]
fn embedding_works_on_floats() {
    let bits = |xs: &[f32]| xs.iter().map(|x| x.to_bits()).collect::<Vec<u32>>();
    let mut tensors = embedding_file();
    tensors.insert("root".to_string(), tensor(bits(&[0.5, -2.0]), vec![2]));
    tensors.insert(
        "unit_matrices.LHS".to_string(),
        tensor(bits(&[1.0, 0.25, 4.0, -1.5]), vec![2, 2]),
    );
    let pm = PositionMatrices::load(&tensors).unwrap();
    assert_eq!(pm.embed_path(&[1], floating), bits(&[-7.5, 3.125]));
}

#[test]
fn a_sequence_is_one_row_for_each_token_and_bind() {
    let pm = PositionMatrices::load(&embedding_file()).unwrap();
    let tokens = [Token {
        position: vec![Position::LHS],
        declaration: vec![Position::Param(0)],
    }];
    let binds = [vec![Position::Type]];
    let rows = pm.embed_sequence(&tokens, &binds, wrapping);
    let mut expected = pm.embed_token(&[1], &[5, 6], wrapping);
    expected.extend(pm.embed_bind(&[0], wrapping));
    assert_eq!(rows, expected);
    assert_eq!(rows.len(), 12);
    assert_eq!(rows[6..9], rows[9..12]);
    assert_ne!(rows[0..3], rows[3..6]);
}

#[test]
fn a_bind_row_is_embedded_once() {
    let pm = PositionMatrices::load(&embedding_file()).unwrap();
    let calls = std::cell::Cell::new(0u32);
    let numbered = |_s: u32, _x: u32, _y: u32| {
        calls.set(calls.get() + 1);
        calls.get()
    };
    let rows = pm.embed_sequence(&[], &[vec![Position::Type]], numbered);
    assert_eq!(rows, vec![3, 6, 9, 3, 6, 9]);
    assert_eq!(pm.embed_sequence(&[], &[], wrapping), Vec::<u32>::new());
}

#[test]
fn the_first_missing_matrix_is_named() {
    assert_eq!(
        PositionMatrices::load(&TensorMap::new()).map(|_| ()),
        Err("missing root".to_string())
    );
    let mut tensors = TensorMap::new();
    tensors.insert("root".to_string(), tensor(vec![1], vec![1]));
    assert_eq!(
        PositionMatrices::load(&tensors).map(|_| ()),
        Err("missing unit_matrices.Type".to_string())
    );
    for name in ["unit_matrices.Type", "unit_matrices.LHS", "unit_matrices.RHS", "right_matrices.Rule"] {
        tensors.insert(name.to_string(), tensor(vec![1], vec![1, 1]));
    }
    assert_eq!(
        PositionMatrices::load(&tensors).map(|_| ()),
        Err("missing down_matrices.Rule".to_string())
    );
    assert_eq!(
        StepTables::load(&tensors).map(|_| ()),
        Err("missing right_matrices.Param".to_string())
    );
    assert_eq!(
        StepTables::load(&TensorMap::new()).map(|_| ()),
        Err("missing root".to_string())
    );
}

#[test]
fn recipes_count_powers_from_one() {
    assert_eq!(recipe(Position::RHS), Recipe::Unit(Unit::RHS));
    assert_eq!(recipe(Position::Rule(0)), Recipe::Indexed(Kind::Rule, 1));
    assert_eq!(recipe(Position::Let(4)), Recipe::Indexed(Kind::Let, 5));
}

#[test]
fn an_example_is_empty_by_default() {
    let example = Example::default();
    assert!(example.tokens.is_empty() && example.goals.is_empty() && example.premises.is_empty());
}
