use libsave3ds::misc::{align_up, divide_up, hash_movable};

#[test]
fn align_up_values() {
    assert_eq!(align_up(0, 8), 0);
    assert_eq!(align_up(1, 8), 8);
    assert_eq!(align_up(8, 8), 8);
    assert_eq!(align_up(0x201, 0x1000), 0x1000);
    assert_eq!(align_up(13, 5), 15);
}

#[test]
fn divide_up_values() {
    assert_eq!(divide_up(0, 4), 0);
    assert_eq!(divide_up(1, 4), 1);
    assert_eq!(divide_up(4, 4), 1);
    assert_eq!(divide_up(5, 4), 2);
    assert_eq!(divide_up(0x1001, 0x1000), 2);
}

#[test]
fn hash_movable_zero_key() {
    assert_eq!(hash_movable([0; 16]), "ff084737d59d71f775c89e9728d26cd5");
}

#[test]
fn hash_movable_counting_key() {
    let mut key = [0u8; 16];
    for (i, k) in key.iter_mut().enumerate() {
        *k = i as u8;
    }
    assert_eq!(hash_movable(key), "26cb45bebe36bf058484e6bdfdf0281a");
}

#[test]
fn align_up_at_the_top() {
    assert_eq!(align_up(usize::MAX - 7, 8), usize::MAX - 7);
    assert_eq!(align_up(usize::MAX - 8, 8), usize::MAX - 7);
}
