use std::collections::HashMap;

use canonical_heuristics::record::{
    bias, check_record, fill_record, linear_w, split3_b, split3_w, transpose,
};
use canonical_heuristics::weights::{get, load_bytes, load_counted, NamedTensor, TensorMap};
use safetensors::tensor::{serialize, Dtype, TensorView};

fn file(tensors: &[(&str, Vec<usize>, Vec<f32>)]) -> Vec<u8> {
    let bytes: Vec<Vec<u8>> = tensors
        .iter()
        .map(|(_, _, xs)| xs.iter().flat_map(|x| x.to_le_bytes()).collect())
        .collect();
    let views: HashMap<String, TensorView> = tensors
        .iter()
        .zip(&bytes)
        .map(|((name, shape, _), b)| {
            (name.to_string(), TensorView::new(Dtype::F32, shape.clone(), b).unwrap())
        })
        .collect();
    serialize(&views, None).unwrap()
}

fn insert(tensors: &mut TensorMap, name: &str, shape: &[usize]) {
    let size: usize = shape.iter().product();
    let first = 1000 * tensors.len() as u32;
    let data = (0..size as u32).map(|k| first + k).collect();
    tensors.insert(name.to_string(), NamedTensor { data, shape: shape.to_vec() });
}

const PARTS: [(&str, &[usize]); 12] = [
    ("self_attn.in_proj_weight", &[6, 2]),
    ("self_attn.in_proj_bias", &[6]),
    ("self_attn.out_proj.weight", &[2, 2]),
    ("self_attn.out_proj.bias", &[2]),
    ("norm1.weight", &[2]),
    ("norm1.bias", &[2]),
    ("norm2.weight", &[2]),
    ("norm2.bias", &[2]),
    ("linear1.weight", &[5, 2]),
    ("linear1.bias", &[5]),
    ("linear2.weight", &[2, 5]),
    ("linear2.bias", &[2]),
];

fn encoder(layers: usize) -> TensorMap {
    let mut tensors = TensorMap::new();
    insert(&mut tensors, "input_proj.weight", &[2, 3]);
    insert(&mut tensors, "input_proj.bias", &[2]);
    insert(&mut tensors, "score_norm.weight", &[2]);
    insert(&mut tensors, "score_norm.bias", &[2]);
    insert(&mut tensors, "qk_proj.weight", &[8, 2]);
    for i in 0..layers {
        for (part, shape) in PARTS {
            insert(&mut tensors, &format!("encoder.layers.{i}.{part}"), shape);
        }
    }
    tensors
}

#[test]
fn tensors_are_read_from_a_file() {
    let bytes = file(&[
        ("root", vec![2], vec![0.5, -1.25]),
        ("down", vec![1, 3], vec![1.0, f32::MAX, 1e-40]),
        ("none", vec![0, 4], vec![]),
    ]);
    let tensors = load_bytes(&bytes).unwrap();
    assert_eq!(tensors.len(), 3);
    let root = tensors.get("root").unwrap();
    assert_eq!(root.shape, vec![2]);
    assert_eq!(root.data, vec![0.5f32.to_bits(), (-1.25f32).to_bits()]);
    let down = tensors.get("down").unwrap();
    assert_eq!(down.shape, vec![1, 3]);
    assert_eq!(down.data, vec![1.0f32.to_bits(), f32::MAX.to_bits(), 1e-40f32.to_bits()]);
    assert_eq!(tensors.get("none").unwrap().data, Vec::<u32>::new());
    assert!(tensors.get("up").is_none());
}

#[test]
fn bytes_that_make_no_whole_word_are_dropped() {
    let data = [1u8, 2, 3, 4, 5, 6];
    let view = TensorView::new(Dtype::U8, vec![6], &data).unwrap();
    let bytes = serialize([("t", view)], None).unwrap();
    let tensors = load_bytes(&bytes).unwrap();
    assert_eq!(tensors.get("t").unwrap().data, vec![0x0403_0201]);
    assert_eq!(tensors.get("t").unwrap().shape, vec![6]);
}

#[test]
fn a_file_that_is_no_archive_is_refused() {
    assert_eq!(load_bytes(&[1, 2, 3]).map(|_| ()), Err("header too small".to_string()));
    assert_eq!(load_bytes(&[255; 16]).map(|_| ()), Err("header too large".to_string()));
    assert_eq!(
        load_bytes(&[9, 0, 0, 0, 0, 0, 0, 0]).map(|_| ()),
        Err("invalid header length".to_string())
    );
    let mut bytes = file(&[("root", vec![1], vec![1.0])]);
    bytes.pop();
    assert_eq!(
        load_bytes(&bytes).map(|_| ()),
        Err("incomplete metadata, file not fully covered".to_string())
    );
}

#[test]
fn a_file_is_measured_before_it_is_loaded() {
    let bytes = file(&[("root", vec![2], vec![0.5, -1.25]), ("down", vec![1], vec![3.0])]);
    let tensors = load_counted(&bytes).unwrap().unwrap();
    assert_eq!(tensors.len(), 2);
    assert_eq!(tensors.get("down").unwrap().data, vec![3.0f32.to_bits()]);
    assert_eq!(
        load_counted(&bytes[..7]).unwrap().map(|_| ()),
        Err("header too small".to_string())
    );
    assert_eq!(
        load_counted(&bytes[..bytes.len() - 1]).unwrap().map(|_| ()),
        Err("incomplete metadata, file not fully covered".to_string())
    );
    let broken = [b"\x02\0\0\0\0\0\0\0".as_slice(), b"{]"].concat();
    assert!(load_counted(&broken).unwrap().is_err());
}

#[test]
fn a_file_of_more_than_can_be_counted_is_not_loaded() {
    let size = usize::MAX / 8;
    let entries: Vec<String> = (0..8)
        .map(|k| {
            let (start, end) = (k * size, (k + 1) * size);
            format!("\"t{k}\":{{\"dtype\":\"U8\",\"shape\":[{size}],\"data_offsets\":[{start},{end}]}}")
        })
        .collect();
    let header = format!("{{{}}}", entries.join(","));
    let mut bytes = (header.len() as u64).to_le_bytes().to_vec();
    bytes.extend(header.as_bytes());
    assert!(load_counted(&bytes).is_none());
    let header = format!("{{{}}}", entries[..7].join(","));
    let mut bytes = (header.len() as u64).to_le_bytes().to_vec();
    bytes.extend(header.as_bytes());
    assert_eq!(
        load_counted(&bytes).unwrap().map(|_| ()),
        Err("incomplete metadata, file not fully covered".to_string())
    );
}

/// What is said of a file with this header and nothing after it.
fn refusal(header: &[u8]) -> String {
    let mut bytes = (header.len() as u64).to_le_bytes().to_vec();
    bytes.extend(header);
    load_counted(&bytes).unwrap().map(|_| ()).unwrap_err()
}

#[test]
fn a_header_that_is_not_well_formed_is_refused() {
    let tensor = |dtype: &str, shape: &str, offsets: &str| {
        refusal(
            format!("{{\"t\":{{\"dtype\":\"{dtype}\",\"shape\":{shape},\"data_offsets\":{offsets}}}}}")
                .as_bytes(),
        )
    };
    assert!(refusal(b"{\"\xff\":0}").starts_with("invalid UTF-8 in header: "));
    assert!(refusal(b"{]").starts_with("invalid JSON in header: "));
    assert_eq!(tensor("F32", "[1]", "[4,8]"), "invalid offset for tensor `t`");
    assert_eq!(
        tensor("F32", "[1]", "[0,8]"),
        "invalid shape, data type, or offset for tensor"
    );
    assert_eq!(
        tensor("F32", "[18446744073709551615,2]", "[0,8]"),
        "overflow computing buffer size from shape and/or element type"
    );
    assert_eq!(
        tensor("F4", "[1]", "[0,1]"),
        "The slice is slicing for subbytes dtypes, and the slice does not end up at a byte \
         boundary, this is invalid."
    );
    assert_eq!(tensor("F32", "[1]", "[0,4]"), "incomplete metadata, file not fully covered");
}

#[test]
fn an_empty_archive_has_no_tensors() {
    assert_eq!(load_bytes(&file(&[])).unwrap().len(), 0);
}

#[test]
fn a_name_has_one_tensor() {
    let mut tensors = TensorMap::new();
    assert_eq!(tensors.len(), 0);
    tensors.insert("a".to_string(), NamedTensor { data: vec![1], shape: vec![1] });
    tensors.insert("b".to_string(), NamedTensor { data: vec![2], shape: vec![1] });
    tensors.insert("a".to_string(), NamedTensor { data: vec![3], shape: vec![1] });
    assert_eq!(tensors.len(), 2);
    assert_eq!(tensors.get("a").unwrap().data, vec![3]);
    assert_eq!(tensors.get("b").unwrap().data, vec![2]);
    let copy = tensors.get("b").unwrap().clone();
    assert_eq!((copy.data, copy.shape), (vec![2], vec![1]));
}

#[test]
fn a_missing_tensor_is_named() {
    let tensors = TensorMap::new();
    assert_eq!(get(&tensors, "x").map(|_| ()), Err("missing x".to_string()));
    assert_eq!(bias(&tensors, "x").map(|_| ()), Err("missing x".to_string()));
    assert_eq!(linear_w(&tensors, "x").map(|_| ()), Err("missing x".to_string()));
    assert_eq!(split3_w(&tensors, "x", 2).map(|_| ()), Err("missing x".to_string()));
    assert_eq!(split3_b(&tensors, "x", 2).map(|_| ()), Err("missing x".to_string()));
}

#[test]
fn rows_become_columns() {
    assert_eq!(transpose(&[1, 2, 3, 4, 5, 6], 2, 3), vec![1, 4, 2, 5, 3, 6]);
    assert_eq!(transpose(&[1, 4, 2, 5, 3, 6], 3, 2), vec![1, 2, 3, 4, 5, 6]);
    assert_eq!(transpose(&[1, 2, 3, 4, 9], 2, 2), vec![1, 3, 2, 4, 0]);
    assert_eq!(transpose(&[7], 0, 5), vec![0]);
    assert_eq!(transpose(&[], 0, 0), Vec::<u32>::new());
}

#[test]
fn projections_are_cut_from_one_tensor() {
    let mut tensors = TensorMap::new();
    insert(&mut tensors, "w", &[6, 2]);
    insert(&mut tensors, "b", &[6]);
    let (q, k, v) = split3_w(&tensors, "w", 2).unwrap();
    assert_eq!((q.rows, q.columns), (2, 2));
    assert_eq!(q.data, vec![0, 2, 1, 3]);
    assert_eq!(k.data, vec![4, 6, 5, 7]);
    assert_eq!(v.data, vec![8, 10, 9, 11]);
    let (q, k, v) = split3_b(&tensors, "b", 2).unwrap();
    assert_eq!((q, k, v), (vec![1000, 1001], vec![1002, 1003], vec![1004, 1005]));
}

#[test]
fn projections_are_blocks_of_rows() {
    let mut tensors = TensorMap::new();
    insert(&mut tensors, "w", &[9, 3]);
    let stored = tensors.get("w").unwrap().data.clone();
    let (q, k, v) = split3_w(&tensors, "w", 3).unwrap();
    for (block, m) in [q, k, v].iter().enumerate() {
        for o in 0..3 {
            for i in 0..3 {
                assert_eq!(m.data[i * 3 + o], stored[(block * 3 + o) * 3 + i]);
            }
        }
    }
}

#[test]
fn an_encoder_of_six_layers_has_77_tensors() {
    let tensors = encoder(6);
    assert_eq!(tensors.len(), 77);
    assert!(check_record(&tensors, 2, 6));
    let weights = fill_record(&tensors, 2, 6).unwrap();
    assert_eq!(weights.layers.len(), 6);
    assert_eq!((weights.input_proj_weight.rows, weights.input_proj_weight.columns), (3, 2));
    assert_eq!(weights.input_proj_weight.data, vec![0, 3, 1, 4, 2, 5]);
    assert_eq!(weights.input_proj_bias, vec![1000, 1001]);
    assert_eq!(weights.score_norm_gamma, vec![2000, 2001]);
    assert_eq!(weights.score_norm_beta, vec![3000, 3001]);
    assert_eq!((weights.qk_proj_weight.rows, weights.qk_proj_weight.columns), (2, 8));
    let first = 1000 * (5 + 12 * 3);
    let layer = &weights.layers[3];
    assert_eq!(layer.query_weight.data, vec![first, first + 2, first + 1, first + 3]);
    assert_eq!(layer.value_bias, vec![first + 1004, first + 1005]);
    assert_eq!(layer.output_weight.data[1], first + 2002);
    assert_eq!(layer.output_bias[0], first + 3000);
    assert_eq!(layer.norm_2_gamma[0], first + 4000);
    assert_eq!(layer.norm_2_beta[0], first + 5000);
    assert_eq!(layer.norm_1_gamma[0], first + 6000);
    assert_eq!(layer.norm_1_beta[0], first + 7000);
    assert_eq!((layer.inner_weight.rows, layer.inner_weight.columns), (2, 5));
    assert_eq!(layer.inner_bias[4], first + 9004);
    assert_eq!((layer.outer_weight.rows, layer.outer_weight.columns), (5, 2));
    assert_eq!(layer.outer_bias[1], first + 11001);
}

#[test]
fn layers_are_named_in_decimal() {
    let tensors = encoder(12);
    assert_eq!(fill_record(&tensors, 2, 12).unwrap().layers.len(), 12);
    assert_eq!(
        fill_record(&tensors, 2, 13).map(|_| ()),
        Err("missing encoder.layers.12.self_attn.in_proj_weight".to_string())
    );
}

#[test]
fn the_first_missing_parameter_is_named() {
    assert_eq!(
        fill_record(&TensorMap::new(), 2, 1).map(|_| ()),
        Err("missing input_proj.weight".to_string())
    );
    let mut tensors = encoder(0);
    insert(&mut tensors, "encoder.layers.0.self_attn.in_proj_weight", &[6, 2]);
    insert(&mut tensors, "encoder.layers.0.linear2.bias", &[2]);
    assert_eq!(
        fill_record(&tensors, 2, 1).map(|_| ()),
        Err("missing encoder.layers.0.self_attn.in_proj_bias".to_string())
    );
    assert!(fill_record(&tensors, 2, 0).is_ok());
}

#[test]
fn misshapen_parameters_are_found_out() {
    let mut tensors = encoder(1);
    assert!(check_record(&tensors, 2, 1));
    assert!(!check_record(&tensors, 3, 1));
    assert!(!check_record(&tensors, usize::MAX, 1));
    insert(&mut tensors, "qk_proj.weight", &[16]);
    assert!(!check_record(&tensors, 2, 1));
    assert!(check_record(&TensorMap::new(), 2, 1));
}
