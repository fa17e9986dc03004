use tldir::models::{is_hidden_name, Config};
use tldir::similarity::{cosine_similarity, is_admissible, MIN_SCORE, SCALE};

#[test]
fn test_cosine_self_similarity_exact() {
    let v: Vec<i64> = vec![3000, 4000];
    assert_eq!(cosine_similarity(&v, &v), SCALE);

    let w: Vec<i64> = vec![17, -3, 250, 9999];
    assert_eq!(cosine_similarity(&w, &w), SCALE);
}

#[test]
fn test_cosine_orthogonal_and_opposite() {
    let a: Vec<i64> = vec![10000, 0];
    let b: Vec<i64> = vec![0, 10000];
    assert_eq!(cosine_similarity(&a, &b), 0);

    let c: Vec<i64> = vec![-10000, 0];
    assert_eq!(cosine_similarity(&a, &c), -SCALE);
}

#[test]
fn test_cosine_proportional_vectors() {
    let a: Vec<i64> = vec![1000, 2000, 3000];
    let b: Vec<i64> = vec![2000, 4000, 6000];
    assert_eq!(cosine_similarity(&a, &b), SCALE);
}

#[test]
fn test_cosine_zero_magnitude_floor() {
    let a: Vec<i64> = vec![0, 0, 0];
    let b: Vec<i64> = vec![1000, 2000, 3000];
    assert_eq!(cosine_similarity(&a, &b), MIN_SCORE);
    assert_eq!(cosine_similarity(&b, &a), MIN_SCORE);
}

#[test]
fn test_cosine_partial_alignment() {
    // 45 degrees: cosine ~ 0.7071, fixed-point ~ 7071
    let a: Vec<i64> = vec![10000, 0];
    let b: Vec<i64> = vec![10000, 10000];
    let s = cosine_similarity(&a, &b);
    assert!((7070..=7072).contains(&s));
}

#[test]
fn test_admissibility_bounds() {
    assert!(is_admissible(&vec![0, 131072, -131072]));
    assert!(!is_admissible(&vec![131073]));
    assert!(!is_admissible(&vec![-131073]));
}

#[test]
fn test_is_hidden_name() {
    assert!(is_hidden_name(".git"));
    assert!(is_hidden_name(".tldir"));
    assert!(!is_hidden_name("src"));
    assert!(!is_hidden_name(""));
}

#[test]
fn test_config_default() {
    let c = Config::default();
    assert_eq!(c.summary_length, 8192);
    assert!(!c.include_hidden);
}
