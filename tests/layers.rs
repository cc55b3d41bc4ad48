use libsave3ds::dual_file::DualFile;
use libsave3ds::error::Error;
use libsave3ds::ivfc_level::IvfcLevel;
use libsave3ds::memory_file::MemoryFile;
use libsave3ds::sub_file::SubFile;

struct Rng(u64);

impl Rng {
    fn next(&mut self) -> u64 {
        self.0 ^= self.0 << 13;
        self.0 ^= self.0 >> 7;
        self.0 ^= self.0 << 17;
        self.0
    }
    fn range(&mut self, lo: usize, hi: usize) -> usize {
        lo + (self.next() % (hi - lo) as u64) as usize
    }
    fn bytes(&mut self, n: usize) -> Vec<u8> {
        (0..n).map(|_| self.next() as u8).collect()
    }
}

fn dual_over(img: &MemoryFile, len: usize) -> DualFile {
    let selector = SubFile::new(img, 0, 1).unwrap();
    let a = SubFile::new(img, 1, len).unwrap();
    let b = SubFile::new(img, 1 + len, len).unwrap();
    DualFile::new(selector, [a, b]).unwrap()
}

#[test]
fn memory_file_bounds() {
    let mut m = MemoryFile::new(vec![0; 8]);
    assert_eq!(m.write(6, &[1, 2]), Ok(()));
    assert_eq!(m.write(7, &[1, 2]), Err(Error::OutOfBound));
    assert_eq!(m.read(6, 2).unwrap(), vec![1, 2]);
    assert_eq!(m.read(8, 1), Err(Error::OutOfBound));
    assert_eq!(m.len(), 8);
}

#[test]
fn sub_file_delegates() {
    let mut img = MemoryFile::new(vec![0; 16]);
    assert!(SubFile::new(&img, 10, 7).is_err());
    let s = SubFile::new(&img, 4, 8).unwrap();
    assert_eq!(s.write(&mut img, 2, &[9, 8, 7]), Ok(()));
    assert_eq!(img.read(6, 3).unwrap(), vec![9, 8, 7]);
    assert_eq!(s.read(&img, 2, 3).unwrap(), vec![9, 8, 7]);
    assert_eq!(s.read(&img, 6, 3), Err(Error::OutOfBound));
    assert_eq!(s.write(&mut img, 7, &[1, 1]), Err(Error::OutOfBound));
    let w = s.window(2, 4).unwrap();
    assert_eq!(w.offset(), 6);
    assert_eq!(w.read(&img, 0, 3).unwrap(), vec![9, 8, 7]);
    assert!(s.window(5, 4).is_err());
}

#[test]
fn dual_file_size_mismatch() {
    let img = MemoryFile::new(vec![0; 32]);
    let selector = SubFile::new(&img, 0, 1).unwrap();
    let a = SubFile::new(&img, 1, 4).unwrap();
    let b = SubFile::new(&img, 5, 5).unwrap();
    assert!(matches!(DualFile::new(selector, [a, b]), Err(Error::SizeMismatch)));
    let wide = SubFile::new(&img, 0, 2).unwrap();
    let c = SubFile::new(&img, 10, 4).unwrap();
    assert!(matches!(DualFile::new(wide, [a, c]), Err(Error::SizeMismatch)));
}

#[test]
fn dual_file_scenario() {
    let len = 4;
    let mut raw = vec![0u8];
    raw.extend(vec![0xAA; len]);
    raw.extend(vec![0xBB; len]);
    let mut img = MemoryFile::new(raw);

    let mut d = dual_over(&img, len);
    d.write(&mut img, 0, &[0xCC]).unwrap();
    assert_eq!(d.read(&img, 0, 1).unwrap(), vec![0xCC]);
    assert_eq!(d.read(&img, 1, 3).unwrap(), vec![0xAA; 3]);

    let d = dual_over(&img, len);
    assert_eq!(d.read(&img, 0, 1).unwrap(), vec![0xAA]);

    let mut d = dual_over(&img, len);
    d.write(&mut img, 0, &[0xCC]).unwrap();
    d.commit(&mut img).unwrap();
    let d = dual_over(&img, len);
    assert_eq!(d.read(&img, 0, 1).unwrap(), vec![0xCC]);
    assert_eq!(img.read(0, 1).unwrap(), vec![1]);
}

#[test]
fn dual_file_commit_twice() {
    let len = 6;
    let mut img = MemoryFile::new(vec![0; 1 + 2 * len]);
    let mut d = dual_over(&img, len);
    d.write(&mut img, 2, &[5, 6]).unwrap();
    d.commit(&mut img).unwrap();
    let once = img.read(0, img.len()).unwrap();
    d.commit(&mut img).unwrap();
    assert_eq!(img.read(0, img.len()).unwrap(), once);
}

#[test]
fn dual_file_broken_selector() {
    let len = 4;
    let mut img = MemoryFile::new(vec![0; 1 + 2 * len]);
    img.write(0, &[7]).unwrap();
    let mut d = dual_over(&img, len);
    assert_eq!(d.read(&img, 0, 1), Err(Error::BrokenLayout));
    assert_eq!(d.write(&mut img, 0, &[1]), Err(Error::BrokenLayout));
    assert_eq!(d.read(&img, 2, 3), Err(Error::OutOfBound));
}

#[test]
fn dual_file_fuzz() {
    let mut rng = Rng(0x9E37_79B9_7F4A_7C15);
    for _ in 0..10 {
        let len = rng.range(1, 10_000);
        let mut raw = vec![0u8];
        raw.extend(rng.bytes(2 * len));
        let mut img = MemoryFile::new(raw);
        let init = rng.bytes(len);
        let mut dpfs_level = dual_over(&img, len);
        dpfs_level.write(&mut img, 0, &init).unwrap();
        let mut plain = MemoryFile::new(init);

        for _ in 0..1000 {
            let operation = rng.range(1, 10);
            if operation == 1 {
                dpfs_level.commit(&mut img).unwrap();
                dpfs_level = dual_over(&img, len);
            } else if operation < 4 {
                dpfs_level.commit(&mut img).unwrap();
            } else {
                let pos = rng.range(0, len);
                let data_len = rng.range(1, len - pos + 1);
                if operation < 7 {
                    let a = dpfs_level.read(&img, pos, data_len).unwrap();
                    let b = plain.read(pos, data_len).unwrap();
                    assert_eq!(a, b);
                } else {
                    let a = rng.bytes(data_len);
                    dpfs_level.write(&mut img, pos, &a).unwrap();
                    plain.write(pos, &a).unwrap();
                }
            }
        }
    }
}

fn ivfc_over(img: &MemoryFile, len: usize, block_len: usize) -> IvfcLevel {
    let blocks = (len + block_len - 1) / block_len;
    let d = dual_over(img, len);
    let hash = SubFile::new(img, 1 + 2 * len, blocks * 32).unwrap();
    IvfcLevel::new(hash, d, block_len).unwrap()
}

#[test]
fn ivfc_write_commit_reopen_and_tamper() {
    let len = 100;
    let bl = 16;
    let blocks = 7;
    let mut img = MemoryFile::new(vec![0; 1 + 2 * len + blocks * 32]);
    let mut level = ivfc_over(&img, len, bl);
    let payload: Vec<u8> = (0..len).map(|i| (i * 7 + 3) as u8).collect();
    level.write(&mut img, 0, &payload).unwrap();
    assert_eq!(level.read(&img, 10, 50).unwrap(), payload[10..60].to_vec());
    level.commit(&mut img).unwrap();

    let level = ivfc_over(&img, len, bl);
    assert_eq!(level.read(&img, 0, len).unwrap(), payload);

    // the active copy is the second one now; damage a byte of its block 2
    let active = 1 + len;
    let b = img.read(active + 2 * bl + 1, 1).unwrap()[0];
    img.write(active + 2 * bl + 1, &[b ^ 0xFF]).unwrap();
    let level = ivfc_over(&img, len, bl);
    assert_eq!(level.read(&img, 2 * bl, 1), Err(Error::HashMismatch));
    assert_eq!(level.read(&img, 0, len), Err(Error::HashMismatch));
    assert_eq!(level.read(&img, 0, 2 * bl).unwrap(), payload[..2 * bl].to_vec());
    assert_eq!(level.read(&img, 3 * bl, len - 3 * bl).unwrap(), payload[3 * bl..].to_vec());
}

#[test]
fn ivfc_new_checks_sizes() {
    let len = 40;
    let img = MemoryFile::new(vec![0; 1 + 2 * len + 64]);
    let d = dual_over(&img, len);
    let hash = SubFile::new(&img, 1 + 2 * len, 32).unwrap();
    assert!(matches!(IvfcLevel::new(hash, d, 16), Err(Error::SizeMismatch)));
    let d = dual_over(&img, len);
    assert!(matches!(IvfcLevel::new(hash, d, 0), Err(Error::SizeMismatch)));
    let d = dual_over(&img, len);
    let overlapping = SubFile::new(&img, 2 * len - 31, 32).unwrap();
    assert!(matches!(IvfcLevel::new(overlapping, d, 64), Err(Error::BrokenLayout)));
}

#[test]
fn ivfc_uncommitted_write_is_lost() {
    let len = 64;
    let mut img = MemoryFile::new(vec![0; 1 + 2 * len + 2 * 32]);
    let mut level = ivfc_over(&img, len, 32);
    level.write(&mut img, 0, &[1; 64]).unwrap();
    level.commit(&mut img).unwrap();
    let mut level = ivfc_over(&img, len, 32);
    level.write(&mut img, 5, &[2; 10]).unwrap();
    assert_eq!(level.read(&img, 5, 10).unwrap(), vec![2; 10]);
    let level = ivfc_over(&img, len, 32);
    assert_eq!(level.read(&img, 0, len).unwrap(), vec![1; 64]);
}

#[test]
fn dual_file_rejects_overlap() {
    let img = MemoryFile::new(vec![0; 32]);
    let selector = SubFile::new(&img, 0, 1).unwrap();
    let a = SubFile::new(&img, 1, 8).unwrap();
    let b = SubFile::new(&img, 5, 8).unwrap();
    assert!(matches!(DualFile::new(selector, [a, b]), Err(Error::BrokenLayout)));
    let c = SubFile::new(&img, 0, 8).unwrap();
    let d = SubFile::new(&img, 10, 8).unwrap();
    assert!(matches!(DualFile::new(selector, [c, d]), Err(Error::BrokenLayout)));
}

