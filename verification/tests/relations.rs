use rel_lang::parser::{parse_matrix, parse_relation};
use rel_lang::relation::Relation;

fn r1_pairs() -> Vec<(u32, u32)> {
    vec![(0, 1), (1, 2), (2, 3), (3, 4), (3, 1)]
}

fn r2_pairs() -> Vec<(u32, u32)> {
    vec![
        (1, 0),
        (1, 1),
        (1, 2),
        (1, 3),
        (1, 4),
        (4, 0),
        (4, 1),
        (4, 2),
        (4, 3),
        (4, 4),
    ]
}

fn r3_pairs() -> Vec<(u32, u32)> {
    vec![
        (0, 1),
        (0, 2),
        (0, 3),
        (0, 4),
        (1, 2),
        (1, 3),
        (1, 4),
        (2, 3),
        (2, 4),
        (3, 4),
    ]
}

const R1_MATRIX: &str = "+-----+\n| X   |\n|  X  |\n|   X |\n| X  X|\n|     |\n+-----+\n";
const R2_MATRIX: &str = "+-----+\n|     |\n|XXXXX|\n|     |\n|     |\n|XXXXX|\n+-----+\n";
const R3_MATRIX: &str = "+-----+\n| XXXX|\n|  XXX|\n|   XX|\n|    X|\n|     |\n+-----+\n";

const R1_ASCII: &str = "R1 (5, 5)\n1 : 2\n2 : 3\n3 : 4\n4 : 2, 5\n";
const R2_ASCII: &str = "R2 (5, 5)\n2 : 1, 2, 3, 4, 5\n5 : 1, 2, 3, 4, 5\n";
const R3_ASCII: &str = "R3 (5, 5)\n1 : 2, 3, 4, 5\n2 : 3, 4, 5\n3 : 4, 5\n4 : 5\n";

#[test]
fn test_parse_r1_matrix() {
    let relation = parse_matrix(R1_MATRIX).unwrap();
    let expected = Relation::sparse((5, 5), &r1_pairs());
    assert_eq!(relation.domain(), (5, 5));
    assert!(relation.eq(&expected));
}

#[test]
fn test_parse_r2_matrix() {
    let relation = parse_matrix(R2_MATRIX).unwrap();
    let expected = Relation::sparse((5, 5), &r2_pairs());
    assert!(relation.eq(&expected));
}

#[test]
fn test_parse_r3_matrix() {
    let relation = parse_matrix(R3_MATRIX).unwrap();
    let expected = Relation::sparse((5, 5), &r3_pairs());
    assert!(relation.eq(&expected));
}

#[test]
fn test_parse_matrix_rejects_garbage() {
    assert!(parse_matrix("").is_err());
    assert!(parse_matrix("+--+\n|XX\n+--+\n").is_err());
    assert!(parse_matrix("+--+\n|ab|\n+--+\n").is_err());
    assert!(parse_matrix("+--+\n|XX|\n+-+\n").is_err());
}

#[test]
fn test_parse_matrix_rectangular_picture() {
    let relation = parse_matrix("+---+\n|   |\n|   |\n|X  |\n+---+\n").unwrap();
    assert_eq!(relation.domain(), (3, 3));
    assert!(relation.contains((2, 0)));
    assert!(!relation.contains((0, 0)));
}

#[test]
fn test_parse_r1() {
    let (name, relation) = parse_relation(R1_ASCII).unwrap();
    assert_eq!(name, "R1");
    let expected = Relation::sparse((5, 5), &r1_pairs());
    assert!(relation.eq(&expected));
}

#[test]
fn test_parse_r2() {
    let (name, relation) = parse_relation(R2_ASCII).unwrap();
    assert_eq!(name, "R2");
    let expected = Relation::sparse((5, 5), &r2_pairs());
    assert!(relation.eq(&expected));
}

#[test]
fn test_parse_r3() {
    let (name, relation) = parse_relation(R3_ASCII).unwrap();
    assert_eq!(name, "R3");
    let expected = Relation::sparse((5, 5), &r3_pairs());
    assert!(relation.eq(&expected));
}

#[test]
fn test_parse_relation_rejects_garbage() {
    assert!(parse_relation("").is_err());
    assert!(parse_relation("R1 (5, 5)").is_err());
    assert!(parse_relation("R1 (5, 5)\n0 : 1\n").is_err());
    assert!(parse_relation("R1 (5, 5)\n6 : 1\n").is_err());
    assert!(parse_relation("R1 (5, 5)\n1 : 2,3\n").is_err());
    assert!(parse_relation("R1 (5, 5)\n1 : 99999999999\n").is_err());
}

#[test]
fn test_parse_display_round_trip() {
    let (name, relation) = parse_relation(R2_ASCII).unwrap();
    assert_eq!(relation.display(&name).bytes, R2_ASCII.as_bytes().to_vec());
}

#[test]
fn test_display_r1() {
    let relation = Relation::sparse((5, 5), &r1_pairs());
    assert_eq!(relation.display("R1").bytes, R1_ASCII.as_bytes().to_vec());
}

#[test]
fn test_display_r2() {
    let relation = Relation::sparse((5, 5), &r2_pairs());
    assert_eq!(relation.display("R2").bytes, R2_ASCII.as_bytes().to_vec());
}

#[test]
fn test_display_r3() {
    let relation = Relation::sparse((5, 5), &r3_pairs());
    assert_eq!(relation.display("R3").bytes, R3_ASCII.as_bytes().to_vec());
}

#[test]
fn test_display_matrix_r1() {
    let relation = Relation::sparse((5, 5), &r1_pairs());
    assert_eq!(relation.display_matrix().bytes, R1_MATRIX.as_bytes().to_vec());
}

#[test]
fn test_display_matrix_r2() {
    let relation = Relation::sparse((5, 5), &r2_pairs());
    assert_eq!(relation.display_matrix().bytes, R2_MATRIX.as_bytes().to_vec());
}

#[test]
fn test_display_matrix_r3() {
    let relation = Relation::sparse((5, 5), &r3_pairs());
    assert_eq!(relation.display_matrix().bytes, R3_MATRIX.as_bytes().to_vec());
}

#[test]
fn test_display_large_numbers() {
    let relation = Relation::sparse((120, 10), &vec![(99, 9), (119, 0)]);
    assert_eq!(
        relation.display("Big").bytes,
        "Big (120, 10)\n100 : 10\n120 : 1\n".as_bytes().to_vec()
    );
}

#[test]
fn test_union_and_intersect() {
    let a = Relation::sparse((3, 3), &vec![(0, 0), (1, 1)]);
    let b = Relation::sparse((3, 3), &vec![(1, 1), (2, 2)]);
    let u = a.duplicate().union(b.duplicate());
    assert!(u.contains((0, 0)));
    assert!(u.contains((1, 1)));
    assert!(u.contains((2, 2)));
    assert!(!u.contains((0, 1)));
    let i = a.intersect(b);
    assert!(i.contains((1, 1)));
    assert!(!i.contains((0, 0)));
    assert!(!i.contains((2, 2)));
}

#[test]
fn test_complement() {
    let a = Relation::sparse((2, 2), &vec![(0, 0), (1, 1)]);
    let c = a.complement();
    assert!(!c.contains((0, 0)));
    assert!(c.contains((0, 1)));
    assert!(c.contains((1, 0)));
    assert!(!c.contains((1, 1)));
}

#[test]
fn test_compose_and_converse() {
    // (0,1) then (1,2) composes to (0,2).
    let a = Relation::sparse((3, 3), &vec![(0, 1)]);
    let b = Relation::sparse((3, 3), &vec![(1, 2)]);
    let c = a.compose(b);
    assert!(c.contains((0, 2)));
    assert!(!c.contains((0, 1)));
    let conv = c.converse();
    assert_eq!(conv.domain(), (3, 3));
    assert!(conv.contains((2, 0)));
    assert!(!conv.contains((0, 2)));
}

#[test]
fn test_identity_is_compose_neutral() {
    let a = Relation::sparse((4, 4), &vec![(0, 3), (2, 1)]);
    let i = Relation::identity(4);
    let ai = a.duplicate().compose(i);
    assert!(ai.eq(&a));
}

#[test]
fn test_subset_and_eq() {
    let small = Relation::sparse((3, 3), &vec![(0, 0)]);
    let big = Relation::sparse((3, 3), &vec![(0, 0), (1, 2)]);
    assert!(small.is_subset_of(&big));
    assert!(!big.is_subset_of(&small));
    assert!(!small.eq(&big));
    let universal = Relation::universal((3, 3));
    assert!(big.is_subset_of(&universal));
    let empty = Relation::empty((3, 3));
    assert!(empty.is_subset_of(&small));
    assert!(empty.is_empty());
    assert!(!small.is_empty());
}

#[test]
fn test_true_false_relations() {
    let t = Relation::true_relation();
    let f = Relation::false_relation();
    assert_eq!(t.domain(), (1, 1));
    assert_eq!(f.domain(), (1, 1));
    assert!(t.contains((0, 0)));
    assert!(!f.contains((0, 0)));
    assert!(f.is_empty());
    assert!(!t.is_empty());
}

#[test]
fn test_iter_is_sorted_and_complete() {
    let a = Relation::sparse((3, 3), &vec![(2, 2), (0, 1), (1, 0), (0, 1)]);
    let pairs = a.iter();
    assert_eq!(pairs, vec![(0, 1), (1, 0), (2, 2)]);
    let identity = Relation::identity(3);
    assert_eq!(identity.iter(), vec![(0, 0), (1, 1), (2, 2)]);
    let universal = Relation::universal((2, 2));
    assert_eq!(universal.iter(), vec![(0, 0), (0, 1), (1, 0), (1, 1)]);
}

#[test]
fn test_collapse_left_and_choose_one() {
    let a = Relation::sparse((4, 3), &vec![(1, 0), (1, 2), (3, 1)]);
    let c = a.collapse_left();
    assert_eq!(c.domain(), (4, 1));
    assert_eq!(c.iter(), vec![(1, 0), (3, 0)]);
    let one = a.choose_one();
    assert_eq!(one.iter(), vec![(1, 0)]);
    let none = Relation::empty((4, 3)).choose_one();
    assert!(none.is_empty());
}

#[test]
fn test_degenerate_domains() {
    let identity = Relation::identity(0);
    assert!(identity.is_empty());
    let universal = Relation::universal((0, 5));
    assert!(universal.is_empty());
}
