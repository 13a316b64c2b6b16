use bf::Buffer;

#[test]
fn new_tape_is_zeroed_with_pointer_at_start() {
    let tape = Buffer::<u32>::new(5);
    assert_eq!(tape.buf(), &[0u32, 0, 0, 0, 0][..]);
    assert_eq!(tape.ptr(), 0);
    assert_eq!(tape.read(), 0);
}

#[test]
fn new_tape_of_default_length() {
    let tape = Buffer::<u32>::new(30000);
    assert_eq!(tape.buf().len(), 30000);
    assert!(tape.buf().iter().all(|cell| *cell == 0));
}

#[test]
fn new_tape_may_be_empty() {
    let tape = Buffer::<u32>::new(0);
    assert_eq!(tape.buf().len(), 0);
    assert_eq!(tape.ptr(), 0);
}

#[test]
fn clone_copies_the_cells() {
    let tape = Buffer::<u32>::clone(&[7, 8, 9]);
    assert_eq!(tape.buf(), &[7u32, 8, 9][..]);
    assert_eq!(tape.ptr(), 0);
    assert_eq!(tape.read(), 7);
}

#[test]
fn fwd_and_bwd_move_the_pointer() {
    let mut tape = Buffer::<u32>::clone(&[1, 2, 3, 4]);
    tape.fwd(3);
    assert_eq!(tape.ptr(), 3);
    assert_eq!(tape.read(), 4);
    tape.bwd(2);
    assert_eq!(tape.ptr(), 1);
    assert_eq!(tape.read(), 2);
    tape.fwd(0);
    tape.bwd(0);
    assert_eq!(tape.ptr(), 1);
    assert_eq!(tape.buf(), &[1u32, 2, 3, 4][..]);
}

#[test]
fn fwd_may_leave_the_tape() {
    let mut tape = Buffer::<u32>::new(2);
    tape.fwd(10);
    assert_eq!(tape.ptr(), 10);
    tape.bwd(9);
    assert_eq!(tape.ptr(), 1);
    assert_eq!(tape.read(), 0);
}

#[test]
fn inc_and_dec_change_the_cell_at_the_pointer() {
    let mut tape = Buffer::<u32>::new(3);
    tape.fwd(1);
    tape.inc(5);
    tape.dec(2);
    assert_eq!(tape.buf(), &[0u32, 3, 0][..]);
    assert_eq!(tape.ptr(), 1);
}

#[test]
fn inc_wraps_around() {
    let mut tape = Buffer::<u32>::clone(&[u32::MAX]);
    tape.inc(1);
    assert_eq!(tape.read(), 0);
    tape.write(u32::MAX - 1);
    tape.inc(5);
    assert_eq!(tape.read(), 3);
}

#[test]
fn dec_wraps_around() {
    let mut tape = Buffer::<u32>::new(1);
    tape.dec(1);
    assert_eq!(tape.read(), u32::MAX);
    tape.write(2);
    tape.dec(5);
    assert_eq!(tape.read(), u32::MAX - 2);
}

#[test]
fn write_sets_only_the_cell_at_the_pointer() {
    let mut tape = Buffer::<u32>::clone(&[1, 2, 3]);
    tape.fwd(2);
    tape.write(300);
    assert_eq!(tape.buf(), &[1u32, 2, 300][..]);
    assert_eq!(tape.read(), 300);
}
