use std::cell::RefCell;

use canonical_heuristics::encoding::encode_path;
use canonical_heuristics::ir::{Position, Token};
use canonical_heuristics::steps::{embed_rows, multiply_out, StepMatrices};

/// A 2 x 2 matrix, row-major.
type M = [i64; 4];

fn matmul(a: &M, b: &M) -> M {
    [
        a[0] * b[0] + a[1] * b[2],
        a[0] * b[1] + a[1] * b[3],
        a[2] * b[0] + a[3] * b[2],
        a[2] * b[1] + a[3] * b[3],
    ]
}

fn units() -> Vec<M> {
    vec![[1, 0, 0, 2], [0, 1, 1, 0], [3, 0, 1, 1]]
}

fn rights() -> Vec<M> {
    vec![[1, 1, 0, 1], [2, 0, 0, 1], [0, 1, 1, 0], [1, 0, 2, 1]]
}

fn downs() -> Vec<M> {
    vec![[1, 0, 1, 1], [0, 1, 1, 0], [5, 0, 0, 7], [1, 2, 3, 4]]
}

#[test]
fn a_power_is_multiplied_out_from_the_left() {
    let right = [1, 1, 0, 1];
    let down = [1, 0, 1, 1];
    assert_eq!(multiply_out(&right, 1, &down, matmul), [2, 1, 1, 1]);
    assert_eq!(multiply_out(&right, 3, &down, matmul), [4, 3, 1, 1]);
    let shown = |a: &String, b: &String| format!("({a}{b})");
    assert_eq!(
        multiply_out(&"R".to_string(), 3, &"D".to_string(), shown),
        "(((RR)R)D)".to_string()
    );
}

#[test]
fn a_step_is_its_unit_or_its_product() {
    let product = |right: &M, n: usize, down: &M| multiply_out(right, n, down, matmul);
    let mut steps = StepMatrices::new(units(), rights(), downs(), product);
    assert_eq!(*steps.step(Position::Type), units()[0]);
    assert_eq!(*steps.step(Position::LHS), units()[1]);
    assert_eq!(*steps.step(Position::RHS), units()[2]);
    let indexed: [(fn(usize) -> Position, usize); 4] =
        [(Position::Rule, 0), (Position::Param, 1), (Position::Let, 2), (Position::Arg, 3)];
    for (position, kind) in indexed {
        let mut expected = rights()[kind];
        for i in 0..6 {
            assert_eq!(*steps.step(position(i)), matmul(&expected, &downs()[kind]));
            expected = matmul(&expected, &rights()[kind]);
        }
    }
}

#[test]
fn a_step_stays_what_it_was() {
    let made: RefCell<Vec<usize>> = RefCell::new(Vec::new());
    let product = |_right: &M, n: usize, _down: &M| {
        made.borrow_mut().push(n);
        [made.borrow().len() as i64; 4]
    };
    let mut steps = StepMatrices::new(units(), rights(), downs(), product);
    assert_eq!(*steps.step(Position::Arg(4)), [1; 4]);
    assert_eq!(*steps.step(Position::Rule(4)), [2; 4]);
    assert_eq!(*steps.step(Position::Arg(0)), [3; 4]);
    assert_eq!(*steps.step(Position::Type), units()[0]);
    assert_eq!(*steps.step(Position::Arg(4)), [1; 4]);
    assert_eq!(*steps.step(Position::Rule(4)), [2; 4]);
    assert_eq!(*made.borrow(), vec![5, 5, 1]);
}

#[test]
fn a_path_multiplies_the_root_by_each_matrix_in_turn() {
    let product =
        |right: &String, n: usize, down: &String| format!("[{right}^{n}{down}]");
    let names = |names: &[&str]| names.iter().map(|n| n.to_string()).collect::<Vec<String>>();
    let mut steps = StepMatrices::new(
        names(&["T", "L", "R"]),
        names(&["a", "b", "c", "d"]),
        names(&["A", "B", "C", "D"]),
        product,
    );
    let apply = |v: String, m: &String| v + m;
    let path = [Position::Let(0), Position::Type, Position::Rule(4), Position::Let(0)];
    assert_eq!(steps.embed_path("root".to_string(), &path, &apply), "root[c^1C]T[a^5A][c^1C]");
    assert_eq!(steps.embed_path("root".to_string(), &[], &apply), "root");
}

#[test]
fn token_rows_come_before_bind_rows() {
    let product =
        |right: &String, n: usize, down: &String| format!("[{right}^{n}{down}]");
    let names = |names: &[&str]| names.iter().map(|n| n.to_string()).collect::<Vec<String>>();
    let mut steps = StepMatrices::new(
        names(&["T", "L", "R"]),
        names(&["a", "b", "c", "d"]),
        names(&["A", "B", "C", "D"]),
        product,
    );
    let tokens = [
        Token { position: vec![Position::LHS], declaration: vec![Position::Param(1)] },
        Token { position: vec![], declaration: vec![Position::Type] },
    ];
    let binds = [vec![Position::RHS, Position::Arg(0)]];
    let rows = embed_rows(
        &mut steps,
        || "v".to_string(),
        &tokens,
        &binds,
        |v: String, m: &String| v + m,
        |a: String, b: String| format!("{a}|{b}"),
        |v: String| format!("2{v}"),
    );
    assert_eq!(rows, vec!["vL|v[b^2B]", "v|vT", "2vR[d^1D]"]);
}

#[test]
fn a_product_has_at_least_one_factor() {
    let product = |right: &M, n: usize, down: &M| {
        assert!(n > 0);
        multiply_out(right, n, down, matmul)
    };
    let mut steps = StepMatrices::new(units(), rights(), downs(), product);
    assert_eq!(*steps.step(Position::Rule(0)), matmul(&rights()[0], &downs()[0]));
}

#[test]
fn steps_and_positions_lead_to_the_same_vector() {
    let apply = |v: [i64; 2], m: &M| [v[0] * m[0] + v[1] * m[2], v[0] * m[1] + v[1] * m[3]];
    let product = |right: &M, n: usize, down: &M| multiply_out(right, n, down, matmul);
    let mut steps = StepMatrices::new(units(), rights(), downs(), product);
    let step_matrix = |s: u8| match s {
        0..=2 => units()[usize::from(s)],
        3 | 5 | 7 | 9 => rights()[usize::from((s - 3) / 2)],
        _ => downs()[usize::from((s - 4) / 2)],
    };
    for path in [
        vec![],
        vec![Position::RHS, Position::Rule(2)],
        vec![Position::Arg(3), Position::Type, Position::Let(0), Position::Param(4)],
    ] {
        let walked =
            encode_path(&path).into_iter().fold([1, 2], |v, s| apply(v, &step_matrix(s)));
        assert_eq!(steps.embed_path([1, 2], &path, &apply), walked);
    }
}
