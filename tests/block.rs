use freelist::{Block, FreelistError};

#[test]
fn block_reports_its_parts() {
    let b = Block::new(5, Some(20));
    assert_eq!(b.get_n_elements(), 5);
    assert!(b.has_next_block());
    assert_eq!(b.get_next_block_index(), Some(20));
    assert!(!b.is_empty());
    let last = Block::new(0, None);
    assert!(!last.has_next_block());
    assert_eq!(last.get_next_block_index(), None);
    assert!(last.is_empty());
}

#[test]
fn block_grow_stops_at_next_block() {
    let mut b = Block::new(5, Some(20));
    assert_eq!(b.grow(10), Ok(15));
    assert_eq!(b.grow(5), Err(FreelistError::Overlap));
    assert_eq!(b.get_n_elements(), 15);
    assert_eq!(b.grow(4), Ok(19));
    let mut last = Block::new(5, None);
    assert_eq!(last.grow(1000), Ok(1005));
}

#[test]
fn block_shrink_keeps_a_slot() {
    let mut b = Block::new(5, None);
    assert_eq!(b.shrink(2), Ok(3));
    assert_eq!(b.shrink(3), Err(FreelistError::Underflow));
    assert_eq!(b.shrink(7), Err(FreelistError::Underflow));
    assert_eq!(b.get_n_elements(), 3);
    assert_eq!(b.shrink(2), Ok(1));
}

#[test]
fn block_connect_rewrites_next_only() {
    let mut b = Block::new(5, Some(20));
    b.connect_at(Some(40));
    assert_eq!(b.get_next_block_index(), Some(40));
    assert_eq!(b.get_n_elements(), 5);
    b.connect_at(None);
    assert!(!b.has_next_block());
    assert_eq!(b.get_n_elements(), 5);
}
