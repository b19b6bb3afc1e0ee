use beditor::block::GapBuffer;

#[test]
fn new_empty_then_insert_head() {
    let mut gb = GapBuffer::new(vec![]);
    assert_eq!(gb.len(), 0);
    gb.insert(0, b"hello").unwrap();
    assert_eq!(gb.as_contiguous(), b"hello");
    assert_eq!(gb.len(), 5);
}

#[test]
fn insert_at_all_positions() {
    let mut gb = GapBuffer::new(b"01234".to_vec());
    gb.insert(0, b"A").unwrap();   // A01234
    gb.insert(2, b"B").unwrap();   // A0B1234
    gb.insert(7, b"Z").unwrap();   // A0B1234Z
    assert_eq!(gb.as_contiguous(), b"A0B1234Z");
}

#[test]
fn delete_various() {
    let mut gb = GapBuffer::new(b"ABCDEFGH".to_vec());
    gb.delete(0, 1).unwrap();      // BCDEFGH
    gb.delete(2, 3).unwrap();      // BCGH (删 D,E,F)
    gb.delete(3, 1).unwrap();      // BCG
    assert_eq!(gb.as_contiguous(), b"BCG");
    gb.delete(0, 3).unwrap();
    assert_eq!(gb.len(), 0);
}

#[test]
fn slice() {
    let gb = GapBuffer::new(b"0123456789".to_vec());
    assert_eq!(gb.slice(2..5).unwrap(), b"234");
    assert_eq!(gb.slice(0..10).unwrap(), b"0123456789");
}

#[test]
fn split_at() {
    let mut gb = GapBuffer::new(b"HELLOWORLD".to_vec());
    let right = gb.split_at(5).unwrap();
    assert_eq!(gb.as_contiguous(), b"HELLO");
    assert_eq!(right.as_contiguous(), b"WORLD");
}

#[test]
fn insert_growth_1mb() {
    let mut gb = GapBuffer::new(vec![]);
    let chunk = b"X".repeat(1024);
    for _ in 0..1024 {
        gb.insert(0, &chunk).unwrap();
    }
    assert_eq!(gb.len(), 1024 * 1024);
}

#[test]
fn delete_out_of_bounds_errors() {
    let mut gb = GapBuffer::new(b"012345".to_vec());
    let e = gb.delete(3, 10).unwrap_err();
    assert!(e.to_string().contains("range out of bounds"), "{}", e.to_string());
}

#[test]
fn insert_beyond_the_end_errors() {
    let mut gb = GapBuffer::new(b"abc".to_vec());
    let e = gb.insert(4, b"x").unwrap_err();
    assert!(e.to_string().starts_with("GapBuffer: "), "{}", e.to_string());
    assert_eq!(gb.as_contiguous(), b"abc");
}

#[test]
fn slice_and_split_out_of_bounds_error() {
    let mut gb = GapBuffer::new(b"abc".to_vec());
    assert!(gb.slice(1..4).is_err());
    assert!(gb.split_at(4).is_err());
    assert_eq!(gb.as_contiguous(), b"abc");
}

#[test]
fn delete_undoes_insert() {
    let mut gb = GapBuffer::new(b"012345".to_vec());
    gb.insert(2, b"abc").unwrap();
    assert_eq!(gb.as_contiguous(), b"01abc2345");
    gb.delete(2, 3).unwrap();
    assert_eq!(gb.as_contiguous(), b"012345");
}

#[test]
fn insert_undoes_delete() {
    let mut gb = GapBuffer::new(b"012345".to_vec());
    gb.delete(1, 3).unwrap();
    assert_eq!(gb.as_contiguous(), b"045");
    gb.insert(1, b"123").unwrap();
    assert_eq!(gb.as_contiguous(), b"012345");
}

#[test]
fn gap_moves_back_and_forth() {
    let mut gb = GapBuffer::new(b"abcdef".to_vec());
    gb.insert(5, b"1").unwrap();
    gb.insert(1, b"2").unwrap();
    gb.insert(8, b"3").unwrap();
    assert_eq!(gb.as_contiguous(), b"a2bcde1f3");
    assert_eq!(gb.slice(1..7).unwrap(), b"2bcde1");
    assert!(!gb.is_empty());
}

#[test]
fn the_first_length_is_kept() {
    let mut gb = GapBuffer::new(b"abc".to_vec());
    gb.insert(1, b"xy").unwrap();
    assert_eq!(gb.original_len(), 3);
    assert_eq!(gb.len(), 5);
}
