use libsave3ds::diff::{calculate_info, DifiLayout, Diff, DiffHeader, HEADER_LEN};
use libsave3ds::error::Error;
use libsave3ds::memory_file::MemoryFile;
use libsave3ds::signed_file::{tag_matches, SignedFile, Signer};
use libsave3ds::sub_file::SubFile;

#[derive(Clone)]
struct SimpleSigner;

impl Signer for SimpleSigner {
    fn hash(&self, key: &[u8; 16], data: &[u8]) -> [u8; 16] {
        let mut tag = *key;
        for (i, b) in data.iter().enumerate() {
            let t = &mut tag[i % 16];
            *t = t.rotate_left(3) ^ b.wrapping_add(i as u8);
        }
        tag
    }
}

struct Rng(u64);

impl Rng {
    fn next(&mut self) -> u64 {
        self.0 ^= self.0 << 13;
        self.0 ^= self.0 >> 7;
        self.0 ^= self.0 << 17;
        self.0
    }
    fn range(&mut self, lo: usize, hi: usize) -> usize {
        lo + (self.next() % (hi - lo) as u64) as usize
    }
    fn bytes(&mut self, n: usize) -> Vec<u8> {
        (0..n).map(|_| self.next() as u8).collect()
    }
}

const KEY: [u8; 16] = [7; 16];

fn layout() -> DifiLayout {
    DifiLayout { descriptor_len: 0x100, partition_len: 0x3000, partition_align: 0x1000 }
}

fn signed() -> Option<(SimpleSigner, [u8; 16])> {
    Some((SimpleSigner, KEY))
}

fn formatted_image(descriptor: &[u8]) -> MemoryFile {
    let l = layout();
    let mut img = MemoryFile::new(vec![0; Diff::<SimpleSigner>::calculate_size(&l)]);
    Diff::format(&mut img, signed(), &l, descriptor, 0x1234_5678_9ABC_DEF0).unwrap();
    img
}

#[test]
fn struct_size() {
    let h = DiffHeader {
        magic: *b"DIFF",
        version: 0x30000,
        secondary_table_offset: 0,
        primary_table_offset: 0,
        table_size: 0,
        partition_offset: 0,
        partition_size: 0,
        active_table: 0,
        sha: vec![0; 0x20],
        unique_id: 0,
    };
    assert_eq!(h.to_bytes().len(), 0x5C);
    assert_eq!(HEADER_LEN, 0x5C);
}

#[test]
fn header_round_trip() {
    let h = DiffHeader {
        magic: *b"DIFF",
        version: 0x30000,
        secondary_table_offset: 0x200,
        primary_table_offset: 0x1_0000_0300,
        table_size: 0x100,
        partition_offset: 0x1000,
        partition_size: 0xFFEE_DDCC_BBAA_9988,
        active_table: 1,
        sha: (0..32).collect(),
        unique_id: 42,
    };
    let b = h.to_bytes();
    assert_eq!(&b[0..8], &[b'D', b'I', b'F', b'F', 0, 0, 3, 0]);
    assert_eq!(&b[0x08..0x10], &[0, 2, 0, 0, 0, 0, 0, 0]);
    assert_eq!(b[0x30], 1);
    assert_eq!(&b[0x31..0x34], &[0, 0, 0]);
    let g = DiffHeader::from_bytes(&b);
    assert_eq!(g.magic, h.magic);
    assert_eq!(g.version, h.version);
    assert_eq!(g.secondary_table_offset, h.secondary_table_offset);
    assert_eq!(g.primary_table_offset, h.primary_table_offset);
    assert_eq!(g.table_size, h.table_size);
    assert_eq!(g.partition_offset, h.partition_offset);
    assert_eq!(g.partition_size, h.partition_size);
    assert_eq!(g.active_table, h.active_table);
    assert_eq!(g.sha, h.sha);
    assert_eq!(g.unique_id, h.unique_id);
}

#[test]
fn layout_values() {
    let info = calculate_info(&layout());
    assert_eq!(info.secondary_table_offset, 0x200);
    assert_eq!(info.primary_table_offset, 0x300);
    assert_eq!(info.table_len, 0x100);
    assert_eq!(info.partition_offset, 0x1000);
    assert_eq!(info.partition_len, 0x3000);
    assert_eq!(info.end, 0x4000);
    let odd = DifiLayout { descriptor_len: 0x13, partition_len: 5, partition_align: 0x80 };
    let info = calculate_info(&odd);
    assert_eq!(info.primary_table_offset, 0x218);
    assert_eq!(info.partition_offset, 0x280);
    assert_eq!(Diff::<SimpleSigner>::calculate_size(&odd), 0x285);
}

#[test]
fn format_then_open() {
    let descriptor: Vec<u8> = (0..0x100).map(|i| i as u8).collect();
    let img = formatted_image(&descriptor);
    assert_eq!(img.read(0x130, 1).unwrap(), vec![1]);
    assert_eq!(img.read(0x200, 0x100).unwrap(), descriptor);
    let d = Diff::new(&img, signed()).unwrap();
    assert_eq!(d.unique_id(), 0x1234_5678_9ABC_DEF0);
    assert_eq!(d.parent_len(), 0x4000);
    assert_eq!(d.partition().offset(), 0x1000);
    assert_eq!(d.partition().len(), 0x3000);
    assert_eq!(d.read_descriptor(&img, 0, 0x100).unwrap(), descriptor);
    assert!(Diff::<SimpleSigner>::new(&img, None).is_ok());
}

#[test]
fn format_errors() {
    let l = layout();
    let mut small = MemoryFile::new(vec![0; 0x3FFF]);
    assert_eq!(Diff::format(&mut small, signed(), &l, &[0; 0x100], 0), Err(Error::OutOfBound));
    let mut img = MemoryFile::new(vec![0; 0x4000]);
    assert_eq!(Diff::format(&mut img, signed(), &l, &[0; 0xFF], 0), Err(Error::SizeMismatch));
}

#[test]
fn committed_write_survives_reopen() {
    let mut img = formatted_image(&[0; 0x100]);
    let mut d = Diff::new(&img, signed()).unwrap();
    let payload: Vec<u8> = Rng(77).bytes(0x100);
    d.write_descriptor(&mut img, 0, &payload).unwrap();
    d.commit(&mut img).unwrap();
    let d = Diff::new(&img, signed()).unwrap();
    assert_eq!(d.read_descriptor(&img, 0, 0x100).unwrap(), payload);
}

#[test]
fn uncommitted_write_is_lost() {
    let mut img = formatted_image(&[0; 0x100]);
    let mut d = Diff::new(&img, signed()).unwrap();
    d.write_descriptor(&mut img, 0, &Rng(78).bytes(0x100)).unwrap();
    let d = Diff::new(&img, signed()).unwrap();
    assert_eq!(d.read_descriptor(&img, 0, 0x100).unwrap(), vec![0; 0x100]);
}

#[test]
fn corrupt_table_fails_hash() {
    let mut img = formatted_image(&[0; 0x100]);
    let mut d = Diff::new(&img, signed()).unwrap();
    let payload: Vec<u8> = Rng(79).bytes(0x100);
    d.write_descriptor(&mut img, 0, &payload).unwrap();
    d.commit(&mut img).unwrap();
    // the primary copy at 0x300 is active after the commit
    assert_eq!(img.read(0x130, 1).unwrap(), vec![0]);
    let b = img.read(0x300, 1).unwrap()[0];
    img.write(0x300, &[b ^ 1]).unwrap();
    assert!(matches!(Diff::new(&img, signed()), Err(Error::HashMismatch)));
}

#[test]
fn corrupt_header_fails_signature() {
    let mut img = formatted_image(&[0; 0x100]);
    let b = img.read(0x100, 1).unwrap()[0];
    img.write(0x100, &[b ^ 1]).unwrap();
    assert!(matches!(Diff::new(&img, signed()), Err(Error::SignatureMismatch)));
    assert!(matches!(Diff::<SimpleSigner>::new(&img, None), Err(Error::MagicMismatch)));
}

#[test]
fn wrong_key_fails_signature() {
    let img = formatted_image(&[0; 0x100]);
    assert!(matches!(Diff::new(&img, Some((SimpleSigner, [8; 16]))), Err(Error::SignatureMismatch)));
}

#[test]
fn short_image_is_out_of_bound() {
    let img = MemoryFile::new(vec![0; 0x1FF]);
    assert!(matches!(Diff::<SimpleSigner>::new(&img, None), Err(Error::OutOfBound)));
}

#[test]
fn diff_fuzz() {
    let mut rng = Rng(0xDEAD_BEEF_1234_5678);
    for _ in 0..10 {
        let len = rng.range(1, 0x400);
        let l = DifiLayout { descriptor_len: len, partition_len: 0x200, partition_align: 0x200 };
        let init = rng.bytes(len);
        let mut img = MemoryFile::new(vec![0; Diff::<SimpleSigner>::calculate_size(&l)]);
        Diff::format(&mut img, signed(), &l, &init, 0).unwrap();
        let mut diff = Diff::new(&img, signed()).unwrap();
        let mut plain = MemoryFile::new(init.clone());
        let mut committed = init;
        for _ in 0..300 {
            let operation = rng.range(1, 10);
            if operation == 1 {
                diff.commit(&mut img).unwrap();
                committed = plain.read(0, len).unwrap();
                diff = Diff::new(&img, signed()).unwrap();
            } else if operation == 2 {
                diff = Diff::new(&img, signed()).unwrap();
                plain = MemoryFile::new(committed.clone());
            } else if operation < 4 {
                diff.commit(&mut img).unwrap();
                committed = plain.read(0, len).unwrap();
            } else {
                let pos = rng.range(0, len);
                let data_len = rng.range(1, len - pos + 1);
                if operation < 7 {
                    let a = diff.read_descriptor(&img, pos, data_len).unwrap();
                    let b = plain.read(pos, data_len).unwrap();
                    assert_eq!(a, b);
                } else {
                    let a = rng.bytes(data_len);
                    diff.write_descriptor(&mut img, pos, &a).unwrap();
                    plain.write(pos, &a).unwrap();
                }
            }
        }
    }
}

#[test]
fn signed_file_commit_then_verify() {
    let mut img = MemoryFile::new(vec![0; 0x80]);
    let tag = SubFile::new(&img, 0, 0x10).unwrap();
    let body = SubFile::new(&img, 0x40, 0x40).unwrap();
    assert!(matches!(SignedFile::new(&img, tag, body, SimpleSigner, KEY), Err(Error::SignatureMismatch)));
    let mut f = SignedFile::new_unverified(tag, body, SimpleSigner, KEY).unwrap();
    f.write(&mut img, 3, &[1, 2, 3]).unwrap();
    assert_eq!(f.read(&img, 3, 3).unwrap(), vec![1, 2, 3]);
    f.commit(&mut img).unwrap();
    let expected = SimpleSigner.hash(&KEY, &img.read(0x40, 0x40).unwrap());
    assert_eq!(img.read(0, 0x10).unwrap(), expected.to_vec());
    assert!(SignedFile::new(&img, tag, body, SimpleSigner, KEY).is_ok());
    img.write(0x7F, &[9]).unwrap();
    assert!(matches!(SignedFile::new(&img, tag, body, SimpleSigner, KEY), Err(Error::SignatureMismatch)));
    let wide = SubFile::new(&img, 0, 0x11).unwrap();
    assert!(matches!(SignedFile::new(&img, wide, body, SimpleSigner, KEY), Err(Error::SizeMismatch)));
}

#[test]
fn tag_comparison() {
    assert!(tag_matches(&[4; 16], &[4; 16]));
    assert!(!tag_matches(&[4; 16], &[4; 15]));
    let mut other = [4; 16];
    other[15] = 5;
    assert!(!tag_matches(&[4; 16], &other));
}

fn put_u64(img: &mut MemoryFile, at: usize, v: u64) {
    img.write(at, &v.to_le_bytes()).unwrap();
}

#[test]
fn open_reports_each_failing_check() {
    let base = formatted_image(&[0; 0x100]);
    let bare = |img: &MemoryFile| Diff::<SimpleSigner>::new(img, None).err();

    let mut img = MemoryFile::new(base.read(0, base.len()).unwrap());
    put_u64(&mut img, 0x110, 0x3F80);
    assert_eq!(bare(&img), Some(Error::OutOfBound));

    let mut img = MemoryFile::new(base.read(0, base.len()).unwrap());
    put_u64(&mut img, 0x118, 0);
    assert_eq!(bare(&img), Some(Error::SizeMismatch));

    let mut img = MemoryFile::new(base.read(0, base.len()).unwrap());
    put_u64(&mut img, 0x110, 0x280);
    assert_eq!(bare(&img), Some(Error::BrokenLayout));

    let mut img = MemoryFile::new(base.read(0, base.len()).unwrap());
    put_u64(&mut img, 0x110, 0x100);
    assert_eq!(bare(&img), Some(Error::BrokenLayout));

    let mut img = MemoryFile::new(base.read(0, base.len()).unwrap());
    put_u64(&mut img, 0x128, 0x3001);
    assert_eq!(bare(&img), Some(Error::OutOfBound));

    let mut img = MemoryFile::new(base.read(0, base.len()).unwrap());
    img.write(0x130, &[2]).unwrap();
    assert_eq!(bare(&img), Some(Error::BrokenLayout));

    let mut img = MemoryFile::new(base.read(0, base.len()).unwrap());
    img.write(0x104, &[1]).unwrap();
    assert_eq!(bare(&img), Some(Error::MagicMismatch));

    let mut img = MemoryFile::new(base.read(0, base.len()).unwrap());
    img.write(0x2FF, &[1]).unwrap();
    assert_eq!(bare(&img), Some(Error::HashMismatch));
}

#[test]
fn format_clears_header_block_only() {
    let l = layout();
    let mut img = MemoryFile::new(vec![0xEE; 0x4000]);
    Diff::<SimpleSigner>::format(&mut img, None, &l, &[3; 0x100], 9).unwrap();
    assert_eq!(img.read(0, 0x100).unwrap(), vec![0; 0x100]);
    assert_eq!(img.read(0x15C, 0xA4).unwrap(), vec![0; 0xA4]);
    assert_eq!(img.read(0x300, 0x3D00).unwrap(), vec![0xEE; 0x3D00]);
}

#[test]
fn commit_with_nothing_pending_changes_nothing() {
    let mut img = formatted_image(&[0; 0x100]);
    let mut d = Diff::new(&img, signed()).unwrap();
    let before = img.read(0, img.len()).unwrap();
    d.commit(&mut img).unwrap();
    assert_eq!(img.read(0, img.len()).unwrap(), before);
    d.write_descriptor(&mut img, 4, &[1, 2, 3]).unwrap();
    d.commit(&mut img).unwrap();
    let once = img.read(0, img.len()).unwrap();
    d.commit(&mut img).unwrap();
    assert_eq!(img.read(0, img.len()).unwrap(), once);
}

#[test]
fn unique_id_survives_commit() {
    let mut img = formatted_image(&[0; 0x100]);
    let mut d = Diff::new(&img, signed()).unwrap();
    d.write_descriptor(&mut img, 0, &[5; 0x40]).unwrap();
    d.commit(&mut img).unwrap();
    let d = Diff::new(&img, signed()).unwrap();
    assert_eq!(d.unique_id(), 0x1234_5678_9ABC_DEF0);
}
