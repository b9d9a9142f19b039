use rel_lang::manager::Manager;

#[test]
fn test_eval() {
    let mut manager = Manager::new();
    let t = manager.true_node();
    let f = manager.false_node();
    let a = manager.get_or_insert(1, t, f);
    let b = manager.get_or_insert(2, f, t);
    let root = manager.get_or_insert(0, a, b);

    assert_eq!(manager.eval(root, &vec![false, false, false]), Some(true));
    assert_eq!(manager.eval(root, &vec![false, false, true]), Some(false));
    assert_eq!(manager.eval(root, &vec![false, true, false]), Some(true));
    assert_eq!(manager.eval(root, &vec![false, true, true]), Some(false));
    assert_eq!(manager.eval(root, &vec![true, false, false]), Some(false));
    assert_eq!(manager.eval(root, &vec![true, false, true]), Some(false));
    assert_eq!(manager.eval(root, &vec![true, true, false]), Some(true));
    assert_eq!(manager.eval(root, &vec![true, true, true]), Some(true));

    assert_eq!(manager.eval(root, &vec![]), None);
    assert_eq!(manager.eval(root, &vec![false; 2]), None);
    assert_eq!(manager.eval(root, &vec![true; 2]), Some(true));
    assert_eq!(manager.eval(root, &vec![false; 4]), Some(true));
}

#[test]
fn test_not() {
    let mut dd = Manager::new();
    let t = dd.true_node();
    let f = dd.false_node();
    let a = dd.get_or_insert(1, t, f);
    let b = dd.get_or_insert(2, f, t);
    let root = dd.get_or_insert(0, a, b);

    let root = dd.not(root);

    assert_eq!(dd.eval(root, &vec![false, false, false]), Some(false));
    assert_eq!(dd.eval(root, &vec![false, false, true]), Some(true));
    assert_eq!(dd.eval(root, &vec![false, true, false]), Some(false));
    assert_eq!(dd.eval(root, &vec![false, true, true]), Some(true));
    assert_eq!(dd.eval(root, &vec![true, false, false]), Some(true));
    assert_eq!(dd.eval(root, &vec![true, false, true]), Some(true));
    assert_eq!(dd.eval(root, &vec![true, true, false]), Some(false));
    assert_eq!(dd.eval(root, &vec![true, true, true]), Some(false));

    assert_eq!(dd.eval(root, &vec![]), None);
    assert_eq!(dd.eval(root, &vec![false; 2]), None);
    assert_eq!(dd.eval(root, &vec![true; 2]), Some(false));
    assert_eq!(dd.eval(root, &vec![false; 4]), Some(false));
}

#[test]
fn test_and_or() {
    let mut dd = Manager::new();
    let b0 = dd.bit(0);
    let b1 = dd.bit(1);
    let b2 = dd.bit(2);
    let b3 = dd.bit(3);
    let left = dd.or(b0, b2);
    let right = dd.or(b1, b3);
    let root = dd.and(left, right);

    assert_eq!(dd.eval(root, &vec![false, false, false, false]), Some(false));
    assert_eq!(dd.eval(root, &vec![true, false, false, false]), Some(false));
    assert_eq!(dd.eval(root, &vec![false, true, false, false]), Some(false));
    assert_eq!(dd.eval(root, &vec![true, true, false, false]), Some(true));
    assert_eq!(dd.eval(root, &vec![false, false, true, false]), Some(false));
    assert_eq!(dd.eval(root, &vec![true, false, true, false]), Some(false));
    assert_eq!(dd.eval(root, &vec![false, true, true, false]), Some(true));
    assert_eq!(dd.eval(root, &vec![true, true, true, false]), Some(true));
    assert_eq!(dd.eval(root, &vec![false, false, false, true]), Some(false));
    assert_eq!(dd.eval(root, &vec![true, false, false, true]), Some(true));
    assert_eq!(dd.eval(root, &vec![false, true, false, true]), Some(false));
    assert_eq!(dd.eval(root, &vec![true, true, false, true]), Some(true));
    assert_eq!(dd.eval(root, &vec![false, false, true, true]), Some(true));
    assert_eq!(dd.eval(root, &vec![true, false, true, true]), Some(true));
    assert_eq!(dd.eval(root, &vec![false, true, true, true]), Some(true));
    assert_eq!(dd.eval(root, &vec![true, true, true, true]), Some(true));
}

#[test]
fn test_and_idempotent() {
    let mut dd = Manager::new();
    let a = dd.bit(0);

    let result = dd.and(a, a);

    assert_eq!(result.id, a.id);
}

#[test]
fn test_or_idempotent() {
    let mut dd = Manager::new();
    let a = dd.bit(0);

    let result = dd.or(a, a);

    assert_eq!(result.id, a.id);
}

#[test]
fn test_minterm() {
    let mut dd = Manager::new();

    let node = dd.minterm(1, 3);

    assert_eq!(dd.eval(node, &vec![false, false, false]), Some(false));
    assert_eq!(dd.eval(node, &vec![true, false, false]), Some(false));
    assert_eq!(dd.eval(node, &vec![false, true, false]), Some(true));
    assert_eq!(dd.eval(node, &vec![true, true, false]), Some(false));
    assert_eq!(dd.eval(node, &vec![false, false, true]), Some(false));
    assert_eq!(dd.eval(node, &vec![true, false, true]), Some(false));
    assert_eq!(dd.eval(node, &vec![false, true, true]), Some(false));
    assert_eq!(dd.eval(node, &vec![true, true, true]), Some(false));
}

#[test]
fn test_minterm_vec() {
    let mut dd = Manager::new();

    let node = dd.minterm_vec(&vec![true, false, true]);

    assert_eq!(dd.eval(node, &vec![false, false, false]), Some(false));
    assert_eq!(dd.eval(node, &vec![true, false, false]), Some(false));
    assert_eq!(dd.eval(node, &vec![false, true, false]), Some(false));
    assert_eq!(dd.eval(node, &vec![true, true, false]), Some(false));
    assert_eq!(dd.eval(node, &vec![false, false, true]), Some(false));
    assert_eq!(dd.eval(node, &vec![true, false, true]), Some(true));
    assert_eq!(dd.eval(node, &vec![false, true, true]), Some(false));
    assert_eq!(dd.eval(node, &vec![true, true, true]), Some(false));
}

#[test]
fn test_or_minterms() {
    let mut dd = Manager::new();

    let m0 = dd.minterm(0, 3);
    let m2 = dd.minterm(2, 3);
    let result = dd.or(m0, m2);

    assert_eq!(dd.eval(result, &vec![false, false, false]), Some(false));
    assert_eq!(dd.eval(result, &vec![true, false, false]), Some(true));
    assert_eq!(dd.eval(result, &vec![false, true, false]), Some(false));
    assert_eq!(dd.eval(result, &vec![true, true, false]), Some(false));
    assert_eq!(dd.eval(result, &vec![false, false, true]), Some(true));
    assert_eq!(dd.eval(result, &vec![true, false, true]), Some(false));
    assert_eq!(dd.eval(result, &vec![false, true, true]), Some(false));
    assert_eq!(dd.eval(result, &vec![true, true, true]), Some(false));
}

#[test]
fn test_terminals_stable() {
    let mut dd = Manager::new();
    let t1 = dd.true_node();
    let f1 = dd.false_node();
    let _ = dd.bit(7);
    let t2 = dd.true_node();
    let f2 = dd.false_node();
    assert_eq!(t1.id, t2.id);
    assert_eq!(f1.id, f2.id);
    assert!(t1.is_true());
    assert!(f1.is_false());
    assert!(!t1.is_false());
    assert!(!f1.is_true());
}

#[test]
fn test_involution_by_identity() {
    let mut dd = Manager::new();
    let b0 = dd.bit(0);
    let b1 = dd.bit(1);
    let f = dd.and(b0, b1);
    let n1 = dd.not(f);
    let n2 = dd.not(n1);
    assert_eq!(n2.id, f.id);
}

#[test]
fn test_xor_self_is_false() {
    let mut dd = Manager::new();
    let b0 = dd.bit(0);
    let b1 = dd.bit(1);
    let f = dd.or(b0, b1);
    let z = dd.xor(f, f);
    assert!(z.is_false());
}

#[test]
fn test_commutativity_by_identity() {
    let mut dd = Manager::new();
    let b0 = dd.bit(0);
    let b1 = dd.bit(1);
    let ab = dd.and(b0, b1);
    let ba = dd.and(b1, b0);
    assert_eq!(ab.id, ba.id);
    let ob = dd.or(b0, b1);
    let bo = dd.or(b1, b0);
    assert_eq!(ob.id, bo.id);
    let xb = dd.xor(b0, b1);
    let bx = dd.xor(b1, b0);
    assert_eq!(xb.id, bx.id);
}

#[test]
fn test_de_morgan_by_identity() {
    let mut dd = Manager::new();
    let b0 = dd.bit(0);
    let b1 = dd.bit(1);
    let fg = dd.and(b0, b1);
    let nfg = dd.not(fg);
    let nf = dd.not(b0);
    let ng = dd.not(b1);
    let alt = dd.or(nf, ng);
    assert_eq!(nfg.id, alt.id);
}

#[test]
fn test_ite_expansion_by_identity() {
    let mut dd = Manager::new();
    let f = dd.bit(0);
    let g = dd.bit(1);
    let h = dd.bit(2);
    let ite = dd.if_then_else(f, g, h);
    let fg = dd.and(f, g);
    let nf = dd.not(f);
    let nfh = dd.and(nf, h);
    let alt = dd.or(fg, nfh);
    assert_eq!(ite.id, alt.id);
}

#[test]
fn test_implies_truth_table() {
    let mut dd = Manager::new();
    let b0 = dd.bit(0);
    let b1 = dd.bit(1);
    let imp = dd.implies(b0, b1);
    assert_eq!(dd.eval(imp, &vec![false, false]), Some(true));
    assert_eq!(dd.eval(imp, &vec![false, true]), Some(true));
    assert_eq!(dd.eval(imp, &vec![true, false]), Some(false));
    assert_eq!(dd.eval(imp, &vec![true, true]), Some(true));
    let self_imp = dd.implies(b0, b0);
    assert!(self_imp.is_true());
}

#[test]
fn test_structural_eq_matches_identity() {
    let mut dd = Manager::new();
    let b0 = dd.bit(0);
    let b1 = dd.bit(1);
    let f = dd.and(b0, b1);
    let g = dd.and(b0, b1);
    assert!(dd.eq(f, g));
    assert!(!dd.eq(f, b0));
}

#[test]
fn test_shift_round_trip() {
    let mut dd = Manager::new();
    let b0 = dd.bit(0);
    let b2 = dd.bit(2);
    let f = dd.xor(b0, b2);
    let up = dd.shift(f, 3);
    assert_eq!(dd.eval(up, &vec![false, false, false, true, false, false]), Some(true));
    assert_eq!(dd.eval(up, &vec![false, false, false, true, false, true]), Some(false));
    let down = dd.shift(up, -3);
    assert_eq!(down.id, f.id);
}

#[test]
fn test_shift_zero_is_noop() {
    let mut dd = Manager::new();
    let b1 = dd.bit(1);
    let same = dd.shift(b1, 0);
    assert_eq!(same.id, b1.id);
}

#[test]
fn test_split_shift_swaps_halves() {
    let mut dd = Manager::new();
    // f(a) = a(0) && !a(1): one bit on each side of the border.
    let b0 = dd.bit(0);
    let b1 = dd.bit(1);
    let nb1 = dd.not(b1);
    let f = dd.and(b0, nb1);
    // Swap the two variables: x_0 becomes x_1 and x_1 becomes x_0.
    let g = dd.split_shift(f, 1, 1, -1);
    assert_eq!(dd.eval(g, &vec![false, true]), Some(true));
    assert_eq!(dd.eval(g, &vec![true, false]), Some(false));
    assert_eq!(dd.eval(g, &vec![true, true]), Some(false));
    assert_eq!(dd.eval(g, &vec![false, false]), Some(false));
}

#[test]
fn test_less_than_eq_vec() {
    let mut dd = Manager::new();
    // Bound 1 0 1 = five, big-endian over variables 0, 1, 2.
    let node = dd.less_than_eq_vec(&vec![true, false, true]);
    assert_eq!(dd.eval(node, &vec![false, false, false]), Some(true));
    assert_eq!(dd.eval(node, &vec![false, false, true]), Some(true));
    assert_eq!(dd.eval(node, &vec![false, true, false]), Some(true));
    assert_eq!(dd.eval(node, &vec![false, true, true]), Some(true));
    assert_eq!(dd.eval(node, &vec![true, false, false]), Some(true));
    assert_eq!(dd.eval(node, &vec![true, false, true]), Some(true));
    assert_eq!(dd.eval(node, &vec![true, true, false]), Some(false));
    assert_eq!(dd.eval(node, &vec![true, true, true]), Some(false));
}

#[test]
fn test_eval_apply_consistency() {
    let mut dd = Manager::new();
    let b0 = dd.bit(0);
    let b3 = dd.bit(3);
    let f = dd.and(b0, b3);
    let g = dd.xor(b0, b3);
    let fg = dd.or(f, g);
    for bits in 0..16u32 {
        let a: Vec<bool> = (0..4).map(|i| bits & (1 << i) != 0).collect();
        let vf = dd.eval(f, &a).unwrap();
        let vg = dd.eval(g, &a).unwrap();
        assert_eq!(dd.eval(fg, &a), Some(vf || vg));
    }
}
