use tau::records::{frame, read_frames};

#[test]
fn frames_carry_their_length() {
    assert_eq!(frame(&[]), vec![0; 8]);
    assert_eq!(frame(&[7, 8, 9]), vec![3, 0, 0, 0, 0, 0, 0, 0, 7, 8, 9]);
    let long = vec![1u8; 300];
    let framed = frame(&long);
    assert_eq!(&framed[..8], &300u64.to_le_bytes());
    assert_eq!(&framed[8..], &long[..]);
}

#[test]
fn what_was_framed_is_read_back() {
    let mut bytes = Vec::new();
    for content in [vec![1u8], vec![], vec![2, 3]] {
        bytes.extend(frame(&content));
    }
    assert_eq!(read_frames(&bytes), (vec![vec![1], vec![], vec![2, 3]], false));
    assert_eq!(read_frames(&[]), (Vec::new(), false));
}

#[test]
fn a_torn_header_ends_the_log_quietly() {
    let mut bytes = frame(&[5]);
    bytes.extend([9, 0, 0]);
    assert_eq!(read_frames(&bytes), (vec![vec![5]], false));
}

#[test]
fn a_torn_record_is_noticed() {
    let mut bytes = frame(&[5]);
    let next = frame(&[6, 7]);
    bytes.extend(&next[..9]);
    assert_eq!(read_frames(&bytes), (vec![vec![5]], true));
    let huge = u64::MAX.to_le_bytes();
    assert_eq!(read_frames(&huge), (Vec::new(), true));
}
