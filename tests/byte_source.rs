use airmail_fst::byte_source::{
    empty, full_slice, materialize, slice_to_fake_arr, FakeArr, ReadError, ShRange, SliceBound,
    SourceView,
};

#[test]
fn slice_of_slice_composes_offsets() {
    let root: Vec<u8> = (0..100u8).collect();
    let a = slice_to_fake_arr(&root);
    let b = a.slice(ShRange(SliceBound::Included(10), SliceBound::Excluded(60)));
    let c = b.slice(ShRange(SliceBound::Included(5), SliceBound::Included(9)));
    let direct = a.slice(ShRange(SliceBound::Included(15), SliceBound::Excluded(20)));
    assert_eq!(c.get_offset(), 15);
    assert_eq!(c.get_offset(), direct.get_offset());
    assert_eq!(c.len(), 5);
    assert_eq!(c.to_vec(), direct.to_vec());
    assert_eq!(c.to_vec(), vec![15, 16, 17, 18, 19]);
}

#[test]
fn full_read_matches_backing_buffer() {
    let root: Vec<u8> = (0..50u8).map(|i| i.wrapping_mul(7)).collect();
    let a = slice_to_fake_arr(&root);
    let v = a.slice(ShRange(SliceBound::Included(20), SliceBound::Unbounded));
    let bytes = v.actually_read_it();
    assert_eq!(bytes.len() as u64, v.len());
    for (i, b) in bytes.iter().enumerate() {
        assert_eq!(*b, root[20 + i]);
        assert_eq!(v.get_byte(i as u64), root[20 + i]);
    }
}

#[test]
fn unbounded_start_and_inclusive_end() {
    let root = vec![1u8, 2, 3, 4, 5];
    let a = slice_to_fake_arr(&root);
    let v = a.slice2(ShRange(SliceBound::Unbounded, SliceBound::Included(2)));
    assert_eq!(v.to_vec(), vec![1, 2, 3]);
    let w = full_slice(&a);
    assert_eq!(w.to_vec(), root);
    assert_eq!(a.full_slice().len(), 5);
}

#[test]
fn read_into_fills_buffer() {
    let root = vec![10u8, 11, 12, 13, 14, 15];
    let a = slice_to_fake_arr(&root);
    let v = a.slice(ShRange(SliceBound::Included(1), SliceBound::Unbounded));
    let mut buf = vec![0u8; 3];
    assert_eq!(v.read_into(2, &mut buf), Ok(()));
    assert_eq!(buf, vec![13, 14, 15]);
}

#[test]
fn read_into_short_read_fails() {
    let root = vec![10u8, 11, 12, 13];
    let a = slice_to_fake_arr(&root);
    let mut buf = vec![7u8; 3];
    assert_eq!(a.read_into(2, &mut buf), Err(ReadError::ShortRead));
    assert_eq!(buf, vec![7, 7, 7]);
    assert_eq!(a.read_into(9, &mut buf), Err(ReadError::ShortRead));
}

#[test]
fn empty_source() {
    let e = empty();
    assert_eq!(e.len(), 0);
    assert!(e.is_empty());
    assert_eq!(e.to_vec(), Vec::<u8>::new());
    let root = vec![1u8];
    assert!(!slice_to_fake_arr(&root).is_empty());
}

#[test]
fn window_offsets() {
    let root = vec![0u8; 10];
    let a = slice_to_fake_arr(&root);
    assert_eq!(a.get_ofs_len(SliceBound::Included(2), SliceBound::Excluded(7)), (2, 5));
    assert_eq!(a.get_ofs_len(SliceBound::Unbounded, SliceBound::Unbounded), (0, 10));
    assert_eq!(a.get_ofs_len(SliceBound::Included(3), SliceBound::Included(3)), (3, 1));
}

#[test]
fn owned_buffer_source() {
    let v: Vec<u8> = vec![5, 6, 7, 8];
    assert_eq!(FakeArr::len(&v), 4);
    let mut buf = vec![0u8; 2];
    assert_eq!(FakeArr::read_into(&v, 1, &mut buf), Ok(()));
    assert_eq!(buf, vec![6, 7]);
    assert_eq!(FakeArr::read_into(&v, 3, &mut buf), Err(ReadError::ShortRead));
    assert_eq!(buf, vec![6, 7]);
    assert_eq!(materialize(&v), Ok(vec![5, 6, 7, 8]));
}

#[test]
fn view_as_source() {
    let root: Vec<u8> = (0..10u8).collect();
    let a = slice_to_fake_arr(&root);
    let v = a.slice(ShRange(SliceBound::Included(4), SliceBound::Excluded(8)));
    assert_eq!(FakeArr::len(&v), 4);
    assert_eq!(materialize(&v), Ok(vec![4, 5, 6, 7]));
}

#[test]
fn window_over_owned_buffer() {
    let root: Vec<u8> = (0..20u8).collect();
    let w = SourceView::new(&root);
    assert_eq!(FakeArr::len(&w), 20);
    let a = w.slice(ShRange(SliceBound::Included(5), SliceBound::Excluded(15)));
    let b = a.slice(ShRange(SliceBound::Included(2), SliceBound::Included(4)));
    assert_eq!(b.get_offset(), 7);
    assert_eq!(materialize(&b), Ok(vec![7, 8, 9]));
    let mut buf = vec![0u8; 2];
    assert_eq!(FakeArr::read_into(&a, 8, &mut buf), Ok(()));
    assert_eq!(buf, vec![13, 14]);
    assert_eq!(FakeArr::read_into(&a, 9, &mut buf), Err(ReadError::ShortRead));
}

#[test]
fn window_over_borrowed_view() {
    let root: Vec<u8> = (0..10u8).collect();
    let v = slice_to_fake_arr(&root);
    let inner = v.slice(ShRange(SliceBound::Included(3), SliceBound::Unbounded));
    let w = SourceView::new(&inner);
    let x = w.slice(ShRange(SliceBound::Unbounded, SliceBound::Excluded(2)));
    assert_eq!(materialize(&x), Ok(vec![3, 4]));
}
