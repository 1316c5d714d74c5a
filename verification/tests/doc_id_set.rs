use kite::doc_id_set::DocIdSet;

fn set_of(ords: &[u16]) -> DocIdSet {
    let mut set = DocIdSet::new();
    for ord in ords {
        set.insert(*ord);
    }
    set
}

#[test]
fn from_bytes_reads_big_endian_ordinals() {
    let set = DocIdSet::from_bytes(vec![0, 1, 1, 0, 0xff, 0xff, 7]);
    assert_eq!(set.to_vec(), vec![1u16, 256, 65535]);
    assert!(set.contains_doc(256));
    assert!(!set.contains_doc(7));
    assert_eq!(DocIdSet::from_bytes(vec![]).to_vec(), Vec::<u16>::new());
    assert_eq!(DocIdSet::from_bytes(vec![9]).to_vec(), Vec::<u16>::new());
}

#[test]
fn to_bytes_writes_ascending_big_endian_ordinals() {
    let set = set_of(&[513, 2, 2, 65535]);
    assert_eq!(set.to_bytes(), vec![0, 2, 2, 1, 0xff, 0xff]);
    assert_eq!(DocIdSet::from_bytes(set.to_bytes()).to_vec(), vec![2u16, 513, 65535]);
    assert_eq!(DocIdSet::new().to_bytes(), Vec::<u8>::new());
}

#[test]
fn serialized_set_is_read_back() {
    let set = set_of(&[3, 60000, 3]);
    let bytes = set.serialize();
    let back = DocIdSet::deserialize(&bytes).unwrap();
    assert_eq!(back.to_vec(), vec![3u16, 60000]);
    assert!(DocIdSet::deserialize(&[1, 2, 3]).is_none());
    // The format of the roaring crate: cookie, one container of two values.
    assert_eq!(
        bytes,
        vec![0x3a, 0x30, 0, 0, 1, 0, 0, 0, 0, 0, 1, 0, 16, 0, 0, 0, 3, 0, 0x60, 0xea]
    );
}

#[test]
fn deserialize_refuses_numbers_that_are_no_ordinals() {
    // One container with the key 1 holds the number 65536.
    let bytes = vec![0x3a, 0x30, 0, 0, 1, 0, 0, 0, 1, 0, 0, 0, 16, 0, 0, 0, 0, 0];
    assert!(DocIdSet::deserialize(&bytes).is_none());
}

#[test]
fn sets_combine() {
    let a = set_of(&[1, 2, 3]);
    let b = set_of(&[3, 4]);
    assert_eq!(a.union(&b).to_vec(), vec![1u16, 2, 3, 4]);
    assert_eq!(a.intersection(&b).to_vec(), vec![3u16]);
    assert_eq!(a.exclusion(&b).to_vec(), vec![1u16, 2]);
    assert_eq!(b.exclusion(&a).to_vec(), vec![4u16]);
    assert_eq!(a.len(), 3);
    assert_eq!(a.clone().to_vec(), a.to_vec());
    assert_eq!(DocIdSet::new().len(), 0);
}

#[test]
fn insert_differs_from_doing_nothing() {
    let mut set = DocIdSet::new();
    assert!(!set.contains_doc(9));
    set.insert(9);
    assert!(set.contains_doc(9));
    assert_eq!(set.len(), 1);
}

fn first_ordinals(count: u32) -> DocIdSet {
    let mut set = DocIdSet::new();
    for ord in 0..count {
        set.insert(ord as u16);
    }
    set
}

#[test]
fn large_sets_are_read_back() {
    // 4096 ordinals are the most that are written as an array.
    for count in [1u32, 4095, 4096, 4097, 5000, 65536] {
        let set = first_ordinals(count);
        assert_eq!(set.len(), count as usize);
        let bytes = set.serialize();
        let expected = if count <= 4096 { 16 + 2 * count as usize } else { 16 + 8192 };
        assert_eq!(bytes.len(), expected);
        let back = DocIdSet::deserialize(&bytes).unwrap();
        assert_eq!(back.to_vec(), set.to_vec());
    }
    let empty = DocIdSet::new();
    assert_eq!(DocIdSet::deserialize(&empty.serialize()).unwrap().to_vec(), Vec::<u16>::new());
}

#[test]
fn term_directory_of_4096_documents_is_read_back() {
    // Every other ordinal of the first 8192.
    let mut set = DocIdSet::new();
    for ord in 0..4096u32 {
        set.insert((2 * ord) as u16);
    }
    let back = DocIdSet::deserialize(&set.serialize()).unwrap();
    assert_eq!(back.len(), 4096);
    assert_eq!(back.to_vec(), set.to_vec());
    assert!(back.contains_doc(8190));
    assert!(!back.contains_doc(8191));
}
