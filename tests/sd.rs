use libsave3ds::misc::hex8;
use libsave3ds::sd::{hash_path, sd_ctr, sd_save_path};

#[test]
fn hex8_values() {
    assert_eq!(hex8(0), "00000000");
    assert_eq!(hex8(0x0011_c500), "0011c500");
    assert_eq!(hex8(0xDEAD_BEEF), "deadbeef");
}

#[test]
fn save_path_components() {
    let p = sd_save_path(0x0004_0000_0011_c500);
    assert_eq!(p, vec!["title", "00040000", "0011c500", "data", "00000001.sav"]);
}

#[test]
fn hash_path_is_wide_and_terminated() {
    assert_eq!(hash_path(&["ab", "c"]), vec![b'/', 0, b'a', 0, b'b', 0, b'/', 0, b'c', 0, 0, 0]);
    assert_eq!(hash_path(&[]), vec![0, 0]);
}

#[test]
fn sd_counter_value() {
    let ctr = sd_ctr(&["title", "00040000", "0011c500", "data", "00000001.sav"]);
    let hex: String = ctr.iter().map(|b| format!("{:02x}", b)).collect();
    assert_eq!(hex, "d06f85bac91dfc9c293ca5f90513ed82");
}
