use mini_lsm::key::{slice_eq, slice_lt, KeySlice, KeyVec};

#[test]
fn keys_are_ordered_byte_by_byte() {
    let sorted: [&[u8]; 6] = [b"", b"\x00", b"a", b"ab", b"b", b"\xff"];
    for i in 0..sorted.len() {
        for j in 0..sorted.len() {
            assert_eq!(slice_lt(sorted[i], sorted[j]), i < j);
            assert_eq!(slice_eq(sorted[i], sorted[j]), i == j);
            let (a, b) = (KeySlice::from_slice(sorted[i]), KeySlice::from_slice(sorted[j]));
            assert_eq!(a.lt(b), i < j);
            assert_eq!(a.le(b), i <= j);
            assert_eq!(a.same(b), i == j);
        }
    }
}

#[test]
fn a_key_vector_can_be_set_and_shared() {
    let mut k = KeyVec::new();
    assert!(k.is_empty());
    k.set_from_slice(KeySlice::from_slice(b"abc"));
    assert_eq!(k.len(), 3);
    assert_eq!(k.as_key_slice().raw_ref(), b"abc");
    let shared = k.clone().into_key_bytes();
    assert_eq!(shared.clone().as_key_slice().raw_ref(), b"abc");
    assert_eq!(KeyVec::from_vec(vec![1]).len(), 1);
}
