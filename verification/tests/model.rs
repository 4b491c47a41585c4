use std::collections::HashMap;

use canonical_heuristics::encoding::Example;
use canonical_heuristics::ir::{Position, Token};
use canonical_heuristics::model::{
    bind_request, bind_scores, choose_weights, config_source, example_batch, gather_row,
    gather_sub, logit_row, packed_inputs, path_inputs, uniform_scores, BindRequest, Candidate, ConfigSource,
};

fn tokens() -> Vec<Token> {
    vec![Token { position: vec![Position::LHS], declaration: vec![Position::Type] }]
}

fn binds() -> Vec<(u64, Vec<Position>)> {
    vec![
        (70, vec![Position::Arg(0)]),
        (71, vec![Position::RHS]),
        (70, vec![Position::Let(0)]),
    ]
}

#[test]
fn packed_steps_become_tensors() {
    let inputs = packed_inputs(&[1, 2, 3, 4, 5, 6], &[6, 5, 4, 3, 2, 1], 3, 2, &[0, 2], &[1]);
    assert_eq!(inputs.left.shape.as_slice(), &[3, 2]);
    assert_eq!(inputs.left.to_vec::<i64>().unwrap(), vec![1, 2, 3, 4, 5, 6]);
    assert_eq!(inputs.right.shape.as_slice(), &[3, 2]);
    assert_eq!(inputs.right.to_vec::<i64>().unwrap(), vec![6, 5, 4, 3, 2, 1]);
    assert_eq!(inputs.goal_index.shape.as_slice(), &[2]);
    assert_eq!(inputs.goal_index.to_vec::<i64>().unwrap(), vec![0, 2]);
    assert_eq!(inputs.premise_index.to_vec::<i64>().unwrap(), vec![1]);
}

#[test]
fn paths_are_packed_before_they_become_tensors() {
    let inputs = path_inputs(&[vec![1], vec![]], &[vec![2, 3], vec![4]], &[0], &[0, 1]);
    assert_eq!(inputs.left.shape.as_slice(), &[2, 2]);
    assert_eq!(inputs.left.to_vec::<i64>().unwrap(), vec![1, 11, 11, 11]);
    assert_eq!(inputs.right.to_vec::<i64>().unwrap(), vec![2, 3, 4, 11]);
    assert_eq!(inputs.premise_index.to_vec::<i64>().unwrap(), vec![0, 1]);
}

#[test]
fn an_example_has_its_goals_and_premises_after_its_tokens() {
    let example = Example {
        tokens: vec![(vec![1], vec![2]), (vec![3], vec![4])],
        goals: vec![vec![5]],
        premises: vec![vec![6], vec![7]],
    };
    let batch = example_batch(&example);
    assert_eq!(batch.left, vec![vec![1], vec![3], vec![5], vec![6], vec![7]]);
    assert_eq!(batch.right, vec![vec![2], vec![4], vec![5], vec![6], vec![7]]);
    assert_eq!(batch.goal_index, vec![2]);
    assert_eq!(batch.premise_index, vec![3, 4]);
}

#[test]
fn rows_are_taken_from_a_flat_matrix() {
    let logits = [10, 11, 12, 20, 21, 22];
    assert_eq!(logit_row(&logits, 3, 1), vec![20, 21, 22]);
    assert_eq!(logit_row(&logits, 0, 4), Vec::<i32>::new());
    assert_eq!(gather_row(&logits, 3, 1, &[2, 0, 2]), vec![22, 20, 22]);
    assert_eq!(gather_sub(&logits, 3, &[1, 0], &[0, 2]), vec![20, 22, 10, 12]);
    assert_eq!(gather_sub(&logits, 0, &[7], &[2, 1]), vec![12, 11]);
}

#[test]
fn a_row_of_the_submatrix_is_gathered_from_the_whole() {
    let logits: Vec<u32> = (0..25).map(|k| k * k + 3).collect();
    let goals = [4i64, 0, 2];
    let premises = [1i64, 3];
    let sub = gather_sub(&logits, 5, &goals, &premises);
    for (row, &goal) in goals.iter().enumerate() {
        assert_eq!(
            logit_row(&sub, premises.len(), row),
            gather_row(&logits, 5, goal as usize, &[1, 3])
        );
    }
}

#[test]
fn nothing_is_scored_where_there_is_nothing() {
    let t = tokens();
    let b = binds();
    assert!(matches!(bind_request(9, &[], &[], &[70], &[71]), BindRequest::Empty));
    assert!(matches!(bind_request(9, &t, &b, &[], &[71]), BindRequest::Empty));
    assert!(matches!(bind_request(9, &t, &b, &[70], &[]), BindRequest::Empty));
    assert!(matches!(bind_request(0, &t, &b, &[], &[71]), BindRequest::Empty));
}

#[test]
fn too_many_rows_are_scored_uniformly() {
    let t = tokens();
    let b = binds();
    assert!(matches!(bind_request(3, &t, &b, &[70], &[71]), BindRequest::Uniform));
    assert!(matches!(bind_request(3, &t, &b, &[99], &[71]), BindRequest::Uniform));
    assert!(matches!(bind_request(4, &t, &b, &[70], &[71]), BindRequest::Score(_)));
    let deep = [(70, vec![Position::Arg(usize::MAX)])];
    assert!(matches!(bind_request(0, &[], &deep, &[70], &[70]), BindRequest::Uniform));
    assert!(matches!(bind_request(9, &[], &deep, &[], &[70]), BindRequest::Empty));
}

#[test]
fn a_goal_or_premise_without_a_bind_is_not_scored() {
    let t = tokens();
    let b = binds();
    assert!(matches!(bind_request(9, &t, &b, &[70, 99], &[71]), BindRequest::Empty));
    assert!(matches!(bind_request(9, &t, &b, &[70], &[98]), BindRequest::Empty));
}

#[test]
fn goals_and_premises_are_the_rows_of_their_binds() {
    match bind_request(9, &tokens(), &binds(), &[71, 70], &[70]) {
        BindRequest::Score(batch) => {
            assert_eq!(batch.left, vec![vec![1], vec![9, 10], vec![2], vec![7, 8]]);
            assert_eq!(batch.right, vec![vec![0], vec![9, 10], vec![2], vec![7, 8]]);
            assert_eq!(batch.goal_index, vec![2, 3]);
            assert_eq!(batch.premise_index, vec![3]);
        }
        _ => panic!("expected a batch"),
    }
}

#[test]
fn scores_are_kept_by_goal_and_premise() {
    let scores = bind_scores(&[1, 2], &[5, 6], &[vec![0.25, 0.75], vec![0.5, 0.5]]);
    let expected: HashMap<u64, HashMap<u64, f64>> = HashMap::from([
        (1, HashMap::from([(5, 0.25), (6, 0.75)])),
        (2, HashMap::from([(5, 0.5), (6, 0.5)])),
    ]);
    assert_eq!(scores, expected);
}

#[test]
fn the_last_of_equal_goals_and_premises_counts() {
    let scores = bind_scores(&[1, 1], &[5, 5], &[vec![1, 2], vec![3, 4]]);
    assert_eq!(scores, HashMap::from([(1, HashMap::from([(5, 4)]))]));
}

#[test]
fn uniform_scores_are_all_the_same() {
    let scores = uniform_scores(&[1, 2], &[5, 6, 7, 8], 0.25);
    assert_eq!(scores.len(), 2);
    assert!(scores.values().all(|row| row.len() == 4 && row.values().all(|&p| p == 0.25)));
}

fn candidate(shown: &str, exists: bool, utf8: bool) -> Candidate {
    Candidate { shown: shown.to_string(), exists, utf8 }
}

#[test]
fn weights_come_from_the_first_file_there_is() {
    let here = |shown| candidate(shown, true, true);
    let gone = |shown| candidate(shown, false, true);
    assert_eq!(choose_weights(&here("a"), &here("b")), Ok(0));
    assert_eq!(choose_weights(&here("a"), &gone("b")), Ok(0));
    assert_eq!(choose_weights(&gone("a"), &here("b")), Ok(1));
    assert_eq!(
        choose_weights(&gone("a"), &gone("b")),
        Err("no ONNX weights found; tried a and b".to_string())
    );
}

#[test]
fn weights_need_a_path_in_utf8() {
    assert_eq!(
        choose_weights(&candidate("a", true, false), &candidate("b", true, true)),
        Err("non-UTF-8 weights path: a".to_string())
    );
    assert_eq!(
        choose_weights(&candidate("a", false, false), &candidate("b", true, false)),
        Err("non-UTF-8 weights path: b".to_string())
    );
    assert_eq!(choose_weights(&candidate("a", false, false), &candidate("b", true, true)), Ok(1));
}

#[test]
fn the_environment_names_the_configuration_first() {
    assert_eq!(config_source(true, true), ConfigSource::Environment);
    assert_eq!(config_source(false, true), ConfigSource::Export);
    assert_eq!(config_source(false, false), ConfigSource::Nowhere);
}
