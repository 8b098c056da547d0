use sumcheck::{n_to_vec, FieldElement};

fn bits(v: &[u64]) -> Vec<FieldElement> {
    v.iter().map(|b| FieldElement::from_u64(*b)).collect()
}

fn spelled(v: &[FieldElement]) -> usize {
    let mut n = 0usize;
    for b in v {
        let l = b.limbs();
        assert!(l == [0, 0, 0, 0] || l == [1, 0, 0, 0]);
        n = 2 * n + l[0] as usize;
    }
    n
}

#[test]
fn n_to_vec_is_big_endian() {
    assert_eq!(n_to_vec(5, 3), bits(&[1, 0, 1]));
    assert_eq!(n_to_vec(1, 3), bits(&[0, 0, 1]));
    assert_eq!(n_to_vec(4, 3), bits(&[1, 0, 0]));
    assert_eq!(n_to_vec(6, 4), bits(&[0, 1, 1, 0]));
}

#[test]
fn n_to_vec_pads_with_zeros() {
    assert_eq!(n_to_vec(0, 3), bits(&[0, 0, 0]));
    assert_eq!(n_to_vec(0, 1), bits(&[0]));
    assert_eq!(n_to_vec(1, 1), bits(&[1]));
    assert_eq!(n_to_vec(3, 8), bits(&[0, 0, 0, 0, 0, 0, 1, 1]));
}

#[test]
fn n_to_vec_writes_a_longer_number_in_full() {
    assert_eq!(n_to_vec(5, 2), bits(&[1, 0, 1]));
    assert_eq!(n_to_vec(5, 0), bits(&[1, 0, 1]));
    assert_eq!(n_to_vec(0, 0), bits(&[0]));
    assert_eq!(n_to_vec(1, 0), bits(&[1]));
    assert_eq!(n_to_vec(8, 3), bits(&[1, 0, 0, 0]));
}

#[test]
fn n_to_vec_of_a_wide_number() {
    let v = n_to_vec(usize::MAX, 0);
    assert_eq!(v.len(), usize::BITS as usize);
    assert!(v.iter().all(|b| *b == FieldElement::from_u64(1)));
    let w = n_to_vec(1, 70);
    assert_eq!(w.len(), 70);
    assert_eq!(w[69], FieldElement::from_u64(1));
    assert!(w[..69].iter().all(|b| b.is_zero()));
}

#[test]
fn enumeration_round_trip() {
    for n in 1..=10usize {
        for i in 0..(1usize << n) {
            let v = n_to_vec(i, n);
            assert_eq!(v.len(), n);
            assert_eq!(spelled(&v), i);
        }
    }
}

#[test]
fn enumeration_gives_every_point_once() {
    for n in 1..=8usize {
        let mut seen: Vec<Vec<FieldElement>> = Vec::new();
        for i in 0..(1usize << n) {
            let v = n_to_vec(i, n);
            assert!(!seen.contains(&v));
            seen.push(v);
        }
        assert_eq!(seen.len(), 1usize << n);
    }
}
