use libkrebs::Boros;

#[test]
fn creation_methods() {
    let b0 = Boros::new(2, 4);
    assert_eq!(b0.to_vec(), vec![0, 0, 0, 0, 0, 0]);

    let b1 = Boros::from(2, vec![1, 2, 3, 4]);
    assert_eq!(b1.to_vec(), vec![0, 0, 1, 2, 3, 4]);
}

#[test]
fn components() {
    let mut b0 = Boros::from(2, vec![1, 2, 3, 4]);
    assert_eq!(vec![0, 0, 1, 2, 3, 4], b0.to_vec());

    assert_eq!(vec![0, 0], b0.head());
    assert_eq!(vec![1, 2, 3, 4], b0.tail());

    assert_eq!(vec![0, 0, 1, 2], b0.init());
    assert_eq!(vec![3, 4], b0.last());
}

#[test]
fn swallow_moves_last_bytes_to_head() {
    let mut b = Boros::from(2, vec![1, 2, 3, 4]);
    b.swallow_tail();
    assert_eq!(b.head_immut(), &[3, 4]);
    assert_eq!(b.tail_immut(), &[1, 2, 3, 4]);
    b.swallow_tail();
    assert_eq!(b.head_immut(), &[3, 4]);
}

#[test]
fn write_tail_fills_the_tail() {
    let mut b = Boros::new(3, 2);
    b.write_tail(&[9, 8]);
    assert_eq!(b.to_vec(), vec![0, 0, 0, 9, 8]);
    assert_eq!(b.size(), 5);
    assert_eq!(b.full(), &[0, 0, 0, 9, 8]);
}
