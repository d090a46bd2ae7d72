use rbtree::utils::{read_blocks_from_bytes, ReadError};

#[test]
fn read_10xi32_from_urandom() {
    let mut array = [0i32; 10];

    // Forty bytes stand for what the byte source supplied.
    let mut state: u64 = 0x9e37_79b9_7f4a_7c15;
    let mut bytes = Vec::new();
    for _ in 0..5 {
        state ^= state << 13;
        state ^= state >> 7;
        state ^= state << 17;
        bytes.extend_from_slice(&state.to_le_bytes());
    }
    let _ = read_blocks_from_bytes(&bytes, &mut array, 10);
    for i in array {
        println!("{}", i);
    }
    for (j, v) in array.iter().enumerate() {
        let block = [bytes[4 * j], bytes[4 * j + 1], bytes[4 * j + 2], bytes[4 * j + 3]];
        assert_eq!(*v, i32::from_le_bytes(block));
    }
}

#[test]
fn blocks_are_little_endian_twos_complement() {
    let bytes = [
        1, 0, 0, 0, // 1
        0xff, 0xff, 0xff, 0xff, // -1
        0, 0, 0, 0x80, // i32::MIN
        0xff, 0xff, 0xff, 0x7f, // i32::MAX
        0x78, 0x56, 0x34, 0x12, // 0x12345678
    ];
    let mut array = [7i32; 5];
    assert_eq!(read_blocks_from_bytes(&bytes, &mut array, 5), Ok(()));
    assert_eq!(array, [1, -1, i32::MIN, i32::MAX, 0x1234_5678]);
}

#[test]
fn only_the_first_count_elements_are_written() {
    let bytes = [2, 0, 0, 0, 3, 0, 0, 0, 4, 0, 0, 0];
    let mut array = [9i32; 4];
    assert_eq!(read_blocks_from_bytes(&bytes, &mut array, 2), Ok(()));
    assert_eq!(array, [2, 3, 9, 9]);
    assert_eq!(read_blocks_from_bytes(&bytes, &mut array, 0), Ok(()));
    assert_eq!(array, [2, 3, 9, 9]);
}

#[test]
fn a_short_source_is_an_io_error_and_writes_nothing() {
    let bytes = [2, 0, 0, 0, 3, 0, 0];
    let mut array = [9i32; 4];
    assert_eq!(read_blocks_from_bytes(&bytes, &mut array, 2), Err(ReadError::IoError));
    assert_eq!(array, [9, 9, 9, 9]);
    assert_eq!(read_blocks_from_bytes(&[], &mut array, 1), Err(ReadError::IoError));
}

#[test]
fn a_short_buffer_is_a_precondition_violation() {
    let bytes = [0u8; 64];
    let mut array = [9i32; 4];
    assert_eq!(
        read_blocks_from_bytes(&bytes, &mut array, 5),
        Err(ReadError::PreconditionViolation)
    );
    assert_eq!(array, [9, 9, 9, 9]);
    assert_eq!(
        read_blocks_from_bytes(&[], &mut array, usize::MAX),
        Err(ReadError::PreconditionViolation)
    );
}
