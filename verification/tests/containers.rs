use std::collections::HashMap;

use plonkish_backend::matrix;
use plonkish_backend::poly_loader::{Field, Loader, MatrixContainer};
use serde_json::Value;

fn strings(xs: &[&str]) -> Vec<String> {
    xs.iter().map(|s| s.to_string()).collect()
}

fn field_name(f: Field) -> &'static str {
    match f {
        Field::Babybear => "Babybear",
        Field::Goldilocks => "Goldilocks",
        Field::Mersenne61 => "Mersenne61",
        Field::Bn254Fr => "Bn254Fr",
    }
}

fn field_of(s: &str) -> Field {
    match s {
        "Babybear" => Field::Babybear,
        "Goldilocks" => Field::Goldilocks,
        "Mersenne61" => Field::Mersenne61,
        _ => Field::Bn254Fr,
    }
}

fn strs(v: &[String]) -> Value {
    Value::Array(v.iter().map(|s| Value::String(s.clone())).collect())
}

fn nums(v: &[usize]) -> Value {
    Value::Array(v.iter().map(|&n| Value::from(n)).collect())
}

/// The container as the JSON object its fields make.
fn to_json(c: &MatrixContainer) -> Value {
    let mut m = serde_json::Map::new();
    m.insert("poly_size".into(), Value::from(c.poly_size));
    m.insert("batch_size".into(), Value::from(c.batch_size));
    m.insert("field".into(), Value::String(field_name(c.field).into()));
    m.insert("rounds".into(), Value::from(c.rounds));
    m.insert("matrices_num".into(), nums(&c.matrices_num));
    m.insert("matrix_widths".into(), Value::Array(c.matrix_widths.iter().map(|w| nums(w)).collect()));
    m.insert(
        "matrices".into(),
        Value::Array(c.matrices.iter().map(|r| Value::Array(r.iter().map(|x| strs(x)).collect())).collect()),
    );
    let mut pts = serde_json::Map::new();
    for (k, v) in &c.poly_points {
        pts.insert(k.clone(), strs(v));
    }
    m.insert("poly_points".into(), Value::Object(pts));
    Value::Object(m)
}

fn usizes(v: &Value) -> Vec<usize> {
    v.as_array().unwrap().iter().map(|x| x.as_u64().unwrap() as usize).collect()
}

fn stringsv(v: &Value) -> Vec<String> {
    v.as_array().unwrap().iter().map(|x| x.as_str().unwrap().to_string()).collect()
}

fn from_json(v: &Value) -> MatrixContainer {
    let mut c = MatrixContainer::new(
        v["poly_size"].as_u64().unwrap() as usize,
        v["batch_size"].as_u64().unwrap() as usize,
        field_of(v["field"].as_str().unwrap()),
    );
    c.rounds = v["rounds"].as_u64().unwrap() as usize;
    c.matrices_num = usizes(&v["matrices_num"]);
    c.matrix_widths = v["matrix_widths"].as_array().unwrap().iter().map(usizes).collect();
    c.matrices = v["matrices"]
        .as_array()
        .unwrap()
        .iter()
        .map(|r| r.as_array().unwrap().iter().map(stringsv).collect())
        .collect();
    let mut pts = HashMap::new();
    for (k, x) in v["poly_points"].as_object().unwrap() {
        pts.insert(k.clone(), stringsv(x));
    }
    c.poly_points = pts;
    c
}

#[test]
fn container_test_matrix_container() {
    let mut matrix_container = MatrixContainer::new(1, 1, Field::Babybear);
    matrix_container.new_round();
    matrix_container.push_matrix(vec![vec!["1".to_string(), "2".to_string()]]);
    let json = serde_json::to_string(&to_json(&matrix_container)).unwrap();
    println!("{}", json);
    let matrix_container_deserialized = from_json(&serde_json::from_str(&json).unwrap());
    println!("{:?}", matrix_container_deserialized);
    assert_eq!(matrix_container, matrix_container_deserialized);

    let flat = matrix::MatrixContainer::new(
        matrix::Field::Babybear,
        2,
        vec![3, 4],
        vec![strings(&["1", "2", "3", "4", "5", "6"]), strings(&["4", "5", "6", "7"])],
    );
    assert_eq!(flat.matrices_num, 2);
    assert_eq!(flat.matrix_widths, vec![3, 4]);
    assert_eq!(flat.matrices[1], strings(&["4", "5", "6", "7"]));
}

#[test]
fn push_matrix_stores_columns_row_major_in_the_last_round() {
    let mut c = MatrixContainer::new(4, 2, Field::Mersenne61);
    c.new_round();
    c.push_matrix(vec![strings(&["a", "b"]), strings(&["c", "d"]), strings(&["e", "f"])]);
    c.new_round();
    c.push_matrix(vec![strings(&["x"])]);
    c.push_matrix(vec![strings(&["y", "z"])]);
    assert_eq!(c.matrices_num, vec![1, 2]);
    assert_eq!(c.matrix_widths, vec![vec![3], vec![1, 1]]);
    assert_eq!(c.matrices[0], vec![strings(&["a", "c", "e", "b", "d", "f"])]);
    assert_eq!(c.matrices[1], vec![strings(&["x"]), strings(&["y", "z"])]);
    assert_eq!(c.rounds, 0);
}

#[test]
fn loader_checks_the_field() {
    let c = MatrixContainer::new(1, 1, Field::Goldilocks);
    assert!(Loader::new(Field::Goldilocks).field_matches(&c));
    assert!(!Loader::new(Field::Babybear).field_matches(&c));
}

#[test]
fn dumper_flattens_every_matrix() {
    let d: matrix::Dumper<u64> = matrix::Dumper::new(matrix::Field::Bn254Fr);
    let polys = vec![vec![strings(&["1", "2"]), strings(&["3", "4"])], vec![strings(&["5"])]];
    let c = d.container(&polys);
    assert_eq!(c.field, matrix::Field::Bn254Fr);
    assert_eq!(c.matrices_num, 2);
    assert_eq!(c.matrix_widths, vec![2, 1]);
    assert_eq!(c.matrices, vec![strings(&["1", "3", "2", "4"]), strings(&["5"])]);
    let l: matrix::Loader<u64> = matrix::Loader::new(matrix::Field::Bn254Fr);
    assert!(l.field_matches(&c));
}
