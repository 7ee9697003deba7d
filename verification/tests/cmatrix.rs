use q1tsim::amplitude::Amplitude;
use q1tsim::cmatrix::{add_assign, scale, sub_assign, CMatrix};
use q1tsim::error::Error;
use q1tsim::residue::Residue;

fn r(re: u64, im: u64) -> Residue {
    Residue::new(re, im)
}

#[test]
fn new_checks_the_number_of_entries() {
    let m = CMatrix::new(2, 3, vec![r(1, 0), r(2, 0), r(3, 0), r(4, 0), r(5, 0), r(6, 0)]).unwrap();
    assert_eq!(m.rows(), 2);
    assert_eq!(m.cols(), 3);
    assert_eq!(m.len(), 6);
    assert_eq!(m.get(0, 2), r(3, 0));
    assert_eq!(m.get(1, 0), r(4, 0));
    assert_eq!(m.row(1), &[r(4, 0), r(5, 0), r(6, 0)][..]);

    assert_eq!(CMatrix::new(2, 3, vec![r(1, 0); 5]).err(), Some(Error::ShapeMismatch));
    assert_eq!(CMatrix::new(2, 3, vec![r(1, 0); 7]).err(), Some(Error::ShapeMismatch));
    assert_eq!(CMatrix::new(usize::MAX, 2, vec![r(1, 0); 2]).err(), Some(Error::ShapeMismatch));
    assert!(CMatrix::<Residue>::new(0, 5, Vec::new()).is_ok());
}

#[test]
fn eye_is_the_identity() {
    let m: CMatrix<Residue> = CMatrix::eye(3);
    assert_eq!(m.rows(), 3);
    assert_eq!(m.cols(), 3);
    for i in 0..3 {
        for j in 0..3 {
            let expected = if i == j { Residue::one() } else { Residue::zero() };
            assert_eq!(m.get(i, j), expected);
        }
    }
    let empty: CMatrix<Residue> = CMatrix::eye(0);
    assert_eq!(empty.len(), 0);
}

#[test]
fn set_changes_one_entry() {
    let mut m: CMatrix<Residue> = CMatrix::eye(2);
    m.set(0, 1, r(9, 9));
    assert_eq!(m.into_flat(), vec![r(1, 0), r(9, 9), r(0, 0), r(1, 0)]);
}

#[test]
fn clone_keeps_shape_and_entries() {
    let m = CMatrix::new(1, 2, vec![r(1, 2), r(3, 4)]).unwrap();
    let c = m.clone();
    assert_eq!(c, m);
    assert_eq!(c.as_slice(), &[r(1, 2), r(3, 4)][..]);
}

#[test]
fn matrices_add_subtract_and_scale_in_place() {
    let mut m = CMatrix::new(2, 2, vec![r(1, 0), r(2, 0), r(3, 0), r(4, 0)]).unwrap();
    let n = CMatrix::new(2, 2, vec![r(10, 1), r(20, 2), r(30, 3), r(40, 4)]).unwrap();
    assert_eq!(m.add_assign(&n), Ok(()));
    assert_eq!(m.as_slice(), &[r(11, 1), r(22, 2), r(33, 3), r(44, 4)][..]);
    assert_eq!(m.sub_assign(&n), Ok(()));
    assert_eq!(m.as_slice(), &[r(1, 0), r(2, 0), r(3, 0), r(4, 0)][..]);
    m.scale(Residue::i());
    assert_eq!(m.as_slice(), &[r(0, 1), r(0, 2), r(0, 3), r(0, 4)][..]);
}

#[test]
fn matrices_of_different_shape_are_refused() {
    let mut m = CMatrix::new(2, 2, vec![r(1, 0), r(2, 0), r(3, 0), r(4, 0)]).unwrap();
    let wide = CMatrix::new(1, 4, vec![r(1, 0); 4]).unwrap();
    let before = m.clone();
    assert_eq!(m.add_assign(&wide), Err(Error::ShapeMismatch));
    assert_eq!(m, before);
    assert_eq!(m.sub_assign(&wide), Err(Error::ShapeMismatch));
    assert_eq!(m, before);
}

#[test]
fn slices_add_subtract_and_scale_in_place() {
    let mut v = vec![r(1, 1), r(2, 2), r(3, 3)];
    let w = vec![r(5, 0), r(0, 5), r(5, 5)];
    assert_eq!(add_assign(&mut v, &w), Ok(()));
    assert_eq!(v, vec![r(6, 1), r(2, 7), r(8, 8)]);
    assert_eq!(sub_assign(&mut v, &w), Ok(()));
    assert_eq!(v, vec![r(1, 1), r(2, 2), r(3, 3)]);
    scale(&mut v, r(2, 0));
    assert_eq!(v, vec![r(2, 2), r(4, 4), r(6, 6)]);
}

#[test]
fn slices_of_different_length_are_refused() {
    let mut v = vec![r(1, 1), r(2, 2), r(3, 3)];
    let w = vec![r(5, 0), r(0, 5)];
    assert_eq!(add_assign(&mut v, &w), Err(Error::ShapeMismatch));
    assert_eq!(sub_assign(&mut v, &w), Err(Error::ShapeMismatch));
    assert_eq!(v, vec![r(1, 1), r(2, 2), r(3, 3)]);
}

#[test]
fn errors_describe_themselves() {
    assert_eq!(Error::ShapeMismatch.message(), "operand shapes do not match");
    assert_eq!(Error::ArityMismatch.message(), "number of qubit indices differs from gate arity");
    assert_eq!(
        Error::InvalidStateSize.message(),
        "state size is not a positive multiple of a gate's dimension"
    );
    assert_eq!(Error::OutOfRange.message(), "qubit index out of range");
}
