use libsave3ds::aes_ctr_file::AesCtrFile;
use libsave3ds::error::Error;
use libsave3ds::memory_file::MemoryFile;
use libsave3ds::sub_file::SubFile;

fn key() -> [u8; 16] {
    let mut k = [0u8; 16];
    for (i, b) in k.iter_mut().enumerate() {
        *b = i as u8;
    }
    k
}

#[test]
fn aes_ctr_known_block() {
    let mut ctr = [0u8; 16];
    for (i, b) in ctr.iter_mut().enumerate() {
        *b = (i as u8) * 0x11;
    }
    let img = MemoryFile::new(vec![0; 32]);
    let f = AesCtrFile::new(SubFile::new(&img, 0, 32).unwrap(), key(), ctr);
    let expected = [
        0x69, 0xc4, 0xe0, 0xd8, 0x6a, 0x7b, 0x04, 0x30, 0xd8, 0xcd, 0xb7, 0x80, 0x70, 0xb4, 0xc5,
        0x5a,
    ];
    assert_eq!(f.read(&img, 0, 16).unwrap(), expected.to_vec());
    assert_eq!(f.read(&img, 3, 5).unwrap(), expected[3..8].to_vec());
    assert_ne!(f.read(&img, 16, 16).unwrap(), expected.to_vec());
}

#[test]
fn aes_ctr_counter_carries() {
    let img = MemoryFile::new(vec![0; 48]);
    let base = [0, 0, 0, 0, 0, 0, 0, 0, 0, 0, 0, 0, 0, 0, 0, 0xff];
    let next = [0, 0, 0, 0, 0, 0, 0, 0, 0, 0, 0, 0, 0, 0, 1, 0];
    let a = AesCtrFile::new(SubFile::new(&img, 0, 48).unwrap(), key(), base);
    let b = AesCtrFile::new(SubFile::new(&img, 0, 48).unwrap(), key(), next);
    assert_eq!(a.read(&img, 16, 32).unwrap(), b.read(&img, 0, 32).unwrap());

    let top = [0xff; 16];
    let zero = [0; 16];
    let a = AesCtrFile::new(SubFile::new(&img, 0, 48).unwrap(), key(), top);
    let b = AesCtrFile::new(SubFile::new(&img, 0, 48).unwrap(), key(), zero);
    assert_eq!(a.read(&img, 16, 16).unwrap(), b.read(&img, 0, 16).unwrap());
}

#[test]
fn aes_ctr_round_trip() {
    let mut img = MemoryFile::new(vec![0x5A; 100]);
    let f = AesCtrFile::new(SubFile::new(&img, 10, 80).unwrap(), [3; 16], [9; 16]);
    let payload: Vec<u8> = (0..45).map(|i| (i * 31 + 7) as u8).collect();
    f.write(&mut img, 13, &payload).unwrap();
    assert_eq!(f.read(&img, 13, 45).unwrap(), payload);
    assert_ne!(img.read(23, 45).unwrap(), payload);
    assert_eq!(img.read(0, 10).unwrap(), vec![0x5A; 10]);
    assert_eq!(f.len(), 80);
    assert_eq!(f.read(&img, 40, 41), Err(Error::OutOfBound));
    assert_eq!(f.write(&mut img, 79, &[1, 2]), Err(Error::OutOfBound));
}
