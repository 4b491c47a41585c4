use canonical_heuristics::input::{inputs, step, weight_rows, MAX_ROWS};
use canonical_heuristics::ir::{Position, Token, Tokenization};
use canonical_heuristics::schedule::Schedule;

fn problem() -> Tokenization {
    Tokenization {
        tokens: vec![
            Token { position: vec![Position::LHS, Position::Arg(3)], declaration: vec![Position::Let(0)] },
            Token { position: vec![], declaration: vec![Position::Type] },
        ],
        goals: vec![vec![Position::RHS]],
        premises: vec![vec![Position::Rule(2)], vec![Position::Param(1), Position::Type]],
    }
}

fn sized(tokens: usize, goals: usize, premises: usize) -> Tokenization {
    Tokenization {
        tokens: (0..tokens).map(|_| Token { position: vec![], declaration: vec![] }).collect(),
        goals: vec![vec![]; goals],
        premises: vec![vec![]; premises],
    }
}

#[test]
fn a_step_is_its_variant_and_its_index() {
    assert_eq!(step(&Position::Type), [0, 0]);
    assert_eq!(step(&Position::Rule(5)), [1, 5]);
    assert_eq!(step(&Position::LHS), [2, 0]);
    assert_eq!(step(&Position::RHS), [3, 0]);
    assert_eq!(step(&Position::Param(6)), [4, 6]);
    assert_eq!(step(&Position::Let(7)), [5, 7]);
    assert_eq!(step(&Position::Arg(8)), [6, 8]);
}

#[test]
fn a_problem_is_four_padded_tensors() {
    let inputs = inputs(&problem()).unwrap();
    assert_eq!(inputs.positions.shape.as_slice(), &[2, 2, 2]);
    assert_eq!(inputs.positions.to_vec::<i64>().unwrap(), vec![2, 0, 6, 3, 7, 0, 7, 0]);
    assert_eq!(inputs.declarations.shape.as_slice(), &[2, 2, 2]);
    assert_eq!(inputs.declarations.to_vec::<i64>().unwrap(), vec![5, 0, 7, 0, 0, 0, 7, 0]);
    assert_eq!(inputs.goals.shape.as_slice(), &[1, 2, 2]);
    assert_eq!(inputs.goals.to_vec::<i64>().unwrap(), vec![3, 0, 7, 0]);
    assert_eq!(inputs.premises.shape.as_slice(), &[2, 2, 2]);
    assert_eq!(inputs.premises.to_vec::<i64>().unwrap(), vec![1, 2, 7, 0, 4, 1, 0, 0]);
}

#[test]
fn different_paths_have_different_numbers() {
    let paths = vec![
        vec![],
        vec![Position::Type],
        vec![Position::Type, Position::Type],
        vec![Position::Rule(0)],
        vec![Position::Rule(1)],
        vec![Position::Arg(1), Position::Rule(0)],
        vec![Position::Rule(0), Position::Arg(1)],
    ];
    let count = paths.len();
    let tokens = Tokenization { tokens: vec![], goals: vec![], premises: paths };
    let numbers = inputs(&tokens).unwrap().premises.to_vec::<i64>().unwrap();
    assert_eq!(numbers.len(), count * 4);
    let rows: Vec<&[i64]> = numbers.chunks(4).collect();
    for i in 0..count {
        for j in 0..i {
            assert_ne!(rows[i], rows[j]);
        }
    }
}

#[test]
fn a_problem_without_tokens_or_goals_has_empty_tensors() {
    let inputs = inputs(&sized(0, 0, 1)).unwrap();
    assert_eq!(inputs.positions.shape.as_slice(), &[0, 1, 2]);
    assert_eq!(inputs.positions.to_vec::<i64>().unwrap(), Vec::<i64>::new());
    assert_eq!(inputs.goals.shape.as_slice(), &[0, 1, 2]);
    assert_eq!(inputs.premises.to_vec::<i64>().unwrap(), vec![7, 0]);
}

#[test]
fn the_network_needs_a_premise_and_a_problem_of_its_size() {
    assert!(inputs(&sized(1, 1, 0)).is_none());
    assert!(inputs(&sized(MAX_ROWS - 2, 1, 1)).is_some());
    assert!(inputs(&sized(MAX_ROWS - 1, 1, 1)).is_none());
    assert!(inputs(&sized(0, MAX_ROWS, 1)).is_none());
    assert!(inputs(&sized(0, 0, MAX_ROWS)).is_some());
    assert!(inputs(&sized(0, 0, MAX_ROWS + 1)).is_none());
    assert!(inputs(&sized(MAX_ROWS + 1, 0, 1)).is_none());
}

#[test]
fn weights_come_out_row_by_row() {
    assert_eq!(weight_rows(&[1, 2, 3, 4, 5, 6], 3), vec![vec![1, 2, 3], vec![4, 5, 6]]);
    assert_eq!(weight_rows(&[1, 2, 3, 4, 5], 2), vec![vec![1, 2], vec![3, 4], vec![5]]);
    assert_eq!(weight_rows::<u8>(&[], 4), Vec::<Vec<u8>>::new());
}

#[test]
fn starting_a_problem_makes_the_weights_uniform() {
    let mut schedule: Schedule<u32> = Schedule::new();
    assert!(schedule.is_uniform());
    let job = schedule.start(&problem()).unwrap();
    assert_eq!(job.problem, 1);
    assert_eq!(job.inputs.goals.to_vec::<i64>().unwrap(), vec![3, 0, 7, 0]);
    assert!(schedule.is_current(1));
    assert!(schedule.publish(1, vec![vec![8, 9]]));
    assert_eq!(schedule.weight, vec![vec![8, 9]]);
    let job = schedule.start(&problem()).unwrap();
    assert_eq!(job.problem, 2);
    assert!(schedule.is_uniform());
}

#[test]
fn weights_of_an_earlier_problem_are_dropped() {
    let mut schedule: Schedule<u32> = Schedule::new();
    let first = schedule.start(&problem()).unwrap();
    let second = schedule.start(&problem()).unwrap();
    assert!(!schedule.is_current(first.problem));
    assert!(!schedule.publish(first.problem, vec![vec![1]]));
    assert!(schedule.is_uniform());
    assert!(schedule.publish(second.problem, vec![vec![2]]));
    assert!(!schedule.publish(first.problem, vec![vec![3]]));
    assert_eq!(schedule.weight, vec![vec![2]]);
}

#[test]
fn a_problem_that_the_network_does_not_apply_to_starts_too() {
    let mut schedule: Schedule<u32> = Schedule::new();
    schedule.start(&problem());
    schedule.publish(1, vec![vec![1]]);
    assert!(schedule.start(&sized(1, 1, 0)).is_none());
    assert_eq!(schedule.problem, 2);
    assert!(schedule.is_uniform());
}
