use memmap2::MmapMut;
use vecdb_core::storage::{MmapStorage, HEADER_BYTES};

fn bits(v: &[f32]) -> Vec<u32> {
    v.iter().map(|x| x.to_bits()).collect()
}

#[test]
fn required_len_counts_header_and_components() {
    assert_eq!(MmapStorage::required_len(4, 3), Some(HEADER_BYTES + 4 * 3 * 4));
    assert_eq!(MmapStorage::required_len(0, 128), Some(16));
    assert_eq!(MmapStorage::required_len(usize::MAX, 2), None);
}

#[test]
fn create_writes_header() {
    let map = MmapMut::map_anon(64).unwrap();
    let s = MmapStorage::create_in(map, 3);
    assert_eq!(s.n_vecs, 0);
    assert_eq!(s.dim, 3);
    assert_eq!(&s.read_bytes(0, 8)[..], &0u64.to_le_bytes());
    assert_eq!(&s.read_bytes(8, 8)[..], &3u64.to_le_bytes());
    assert_eq!(s.mapped_len(), 64);
}

#[test]
fn get_returns_what_append_wrote() {
    let map = MmapMut::map_anon(MmapStorage::required_len(3, 2).unwrap()).unwrap();
    let mut s = MmapStorage::create_in(map, 2);
    s.append_vector(&bits(&[1.5, -2.0]));
    s.append_vector(&bits(&[0.25, 3.0]));
    assert_eq!(s.n_vecs, 2);
    assert_eq!(&s.read_bytes(0, 8)[..], &2u64.to_le_bytes());
    assert_eq!(s.get_vector(0), bits(&[1.5, -2.0]));
    assert_eq!(s.get_vector(1), bits(&[0.25, 3.0]));
    // the f32 bytes are stored little-endian right after the header
    assert_eq!(&s.read_bytes(16, 4)[..], &1.5f32.to_le_bytes());
    assert_eq!(&s.read_bytes(28, 4)[..], &3.0f32.to_le_bytes());
    // an untouched slot reads as zeros
    assert_eq!(s.get_vector(2), vec![0, 0]);
}

#[test]
fn short_map_is_refused() {
    let map = MmapMut::map_anon(8).unwrap();
    assert!(MmapStorage::try_create_in(map, 3).is_none());
    let map = MmapMut::map_anon(HEADER_BYTES).unwrap();
    let s = MmapStorage::try_create_in(map, 3).expect("a header fits");
    assert_eq!(s.n_vecs, 0);
    assert_eq!(&s.read_bytes(8, 8)[..], &3u64.to_le_bytes());
}

#[test]
fn append_leaves_other_slots_alone() {
    let map = MmapMut::map_anon(MmapStorage::required_len(3, 1).unwrap()).unwrap();
    let mut s = MmapStorage::create_in(map, 1);
    s.append_vector(&[0xAABBCCDD]);
    assert_eq!(&s.read_bytes(16, 4)[..], &[0xDD, 0xCC, 0xBB, 0xAA]);
    assert_eq!(&s.read_bytes(20, 8)[..], &[0u8; 8]);
}
