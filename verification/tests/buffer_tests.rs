use minmux::buffer::{insert_in_buffer, replace_last_element_greater_than_zero};

#[test]
fn insert_into_window_with_room() {
    let mut buffer = [9u8; 6];
    let mut pos = 1;
    insert_in_buffer(&mut buffer, 4, &mut pos, &[1, 2, 3], 2);
    assert_eq!(pos, 3);
    assert_eq!(buffer, [9, 1, 2, 9, 9, 9]);
}

#[test]
fn full_window_keeps_latest_bytes() {
    let mut buffer = [0u8; 6];
    let mut pos = 0;
    insert_in_buffer(&mut buffer, 4, &mut pos, b"abcdef", 6);
    assert_eq!(pos, 4);
    assert_eq!(&buffer[..4], b"cdef");
    // bytes past the window are untouched
    assert_eq!(&buffer[4..], &[0, 0]);
    insert_in_buffer(&mut buffer, 4, &mut pos, b"gh", 2);
    assert_eq!(pos, 4);
    assert_eq!(&buffer[..4], b"efgh");
}

#[test]
fn zero_bytes_change_nothing() {
    let mut buffer = [5u8; 3];
    let mut pos = 2;
    insert_in_buffer(&mut buffer, 0, &mut pos, &[], 0);
    assert_eq!(pos, 2);
    assert_eq!(buffer, [5, 5, 5]);
}

#[test]
fn cursor_past_window_writes_forward() {
    let mut buffer = [0u8; 8];
    let mut pos = 3;
    insert_in_buffer(&mut buffer, 2, &mut pos, &[7, 8], 2);
    assert_eq!(pos, 5);
    assert_eq!(buffer, [0, 0, 0, 7, 8, 0, 0, 0]);
}

#[test]
fn matches_a_simple_model() {
    // A window of 5 within a buffer of 7, fed in chunks.
    let mut buffer = [0u8; 7];
    let mut pos = 0;
    let mut model: Vec<u8> = Vec::new();
    let data: Vec<u8> = (1..=40).collect();
    for chunk in data.chunks(3) {
        insert_in_buffer(&mut buffer, 5, &mut pos, chunk, chunk.len());
        model.extend_from_slice(chunk);
        let keep = model.len().min(5);
        assert_eq!(pos, keep);
        assert_eq!(&buffer[..pos], &model[model.len() - keep..]);
        assert_eq!(&buffer[5..], &[0, 0]);
    }
}

#[test]
fn clears_from_last_positive() {
    let mut a = [0u8; 256];
    a[0] = b'l';
    a[1] = b's';
    a[2] = b'x';
    replace_last_element_greater_than_zero(&mut a);
    assert_eq!(&a[..3], &[b'l', b's', 0]);
    assert!(a[3..].iter().all(|&b| b == 0));
}

#[test]
fn clears_last_byte_of_full_array() {
    let mut a = [1u8; 256];
    replace_last_element_greater_than_zero(&mut a);
    assert_eq!(a[255], 0);
    assert!(a[..255].iter().all(|&b| b == 1));
}

#[test]
fn zeros_stay_zeros() {
    let mut a = [0u8; 256];
    replace_last_element_greater_than_zero(&mut a);
    assert_eq!(a, [0u8; 256]);
}

#[test]
fn two_inserts_equal_one() {
    let x = b"hello world";
    let y = b"0123456789";
    for start in 0..=5usize {
        for nx in 0..=x.len() {
            for ny in 0..=y.len() {
                let mut b1 = [7u8; 8];
                let mut p1 = start;
                insert_in_buffer(&mut b1, 5, &mut p1, x, nx);
                insert_in_buffer(&mut b1, 5, &mut p1, y, ny);
                let joined: Vec<u8> = x[..nx].iter().chain(y[..ny].iter()).copied().collect();
                let mut b2 = [7u8; 8];
                let mut p2 = start;
                insert_in_buffer(&mut b2, 5, &mut p2, &joined, nx + ny);
                assert_eq!((b1, p1), (b2, p2));
            }
        }
    }
}

#[test]
fn repeated_clearing_zeroes() {
    let mut a = [0u8; 256];
    a[3] = 1;
    a[10] = 200;
    a[255] = 9;
    for _ in 0..3 {
        replace_last_element_greater_than_zero(&mut a);
    }
    assert_eq!(a, [0u8; 256]);
}
