use bitvec::least_bytes_repr_for_bits;
use bitvec::BitVec;
use bitvec::BitView;

#[test]
fn check_view_clone() {
    let expected = [true, true, false, true, false, true, false, true, true, true];

    let v = BitVec::from_bool_slice(&expected);
    let view = v.as_bit_view();

    let clone = view.clone();

    assert_eq!(clone.to_bool_slice(), view.to_bool_slice());
    assert_eq!(clone.to_bool_slice(), expected.to_vec());
}

#[test]
fn check_view_iter() {
    let expected = [true, true, false, true, false, true, false, true];

    let v = BitVec::from_bool_slice(&expected);

    let view = v.as_bit_view();

    assert_eq!(view.to_bool_slice(), expected.to_vec());
}

#[test]
fn check_coherency() {
    let bools = [false, true, false, true, false, true];

    let v = BitVec::from_bool_slice(&bools);

    assert_eq!(bools.len(), v.len_bits());
    assert_eq!(v.least_len_bytes(), 1);

    assert_eq!(v.to_bool_slice(), bools.to_vec());
}

#[test]
fn check_extend() {
    let a = [true, false, false, true, false];
    let b = [true, false, false, false, false, true];
    let c = [true, false, false, true, false, true, false, false, false, false, true];

    let mut va = BitVec::from_bool_slice(&a);
    let vb = BitVec::from_bool_slice(&b);

    assert_eq!(va.to_bool_slice(), a.to_vec());
    assert_eq!(vb.to_bool_slice(), b.to_vec());

    va.extend_from_bits(&vb.as_bit_view());

    assert_eq!(va.to_bool_slice(), c.to_vec());
}

#[test]
fn check_serde() {
    let bools = [true, false, false, true, false, true, false, false, false, false, true];

    let v = BitVec::from_bool_slice(&bools);

    let mut ser = Vec::new();
    v.serialize(&mut ser);

    let des = BitVec::deserialize(&ser).unwrap();

    assert_eq!(v, des);
}

#[test]
fn round_trip_bool_slices() {
    let cases: [&[bool]; 4] = [
        &[],
        &[true],
        &[false, true, true, false, false, true, true, false],
        &[true; 17],
    ];
    for bools in cases {
        let v = BitVec::from_bool_slice(bools);
        assert_eq!(v.to_bool_slice(), bools.to_vec());
    }
}

#[test]
fn length_counts_appends() {
    let mut v = BitVec::new();
    assert_eq!(v.len_bits(), 0);
    for i in 0..13 {
        v.append_bit(i % 3 == 0);
        assert_eq!(v.len_bits(), i + 1);
    }
}

#[test]
fn empty_construction() {
    let v = BitVec::new();
    assert_eq!(v.len_bits(), 0);
    assert_eq!(v.least_len_bytes(), 0);
    assert_eq!(v.to_bool_slice(), Vec::<bool>::new());

    let w = BitVec::with_capacity(100);
    assert_eq!(w.len_bits(), 0);
    assert_eq!(w.least_len_bytes(), 0);
    assert_eq!(v, w);
}

#[test]
fn append_packs_msb_first() {
    let v = BitVec::from_bool_slice(&[true]);
    let (bytes, padding) = v.as_padded_bytes();
    assert_eq!(bytes.to_vec(), vec![0x80]);
    assert_eq!(padding, 7);

    let w = BitVec::from_bool_slice(&[true, false, true, false, false, true, false, true]);
    let (bytes, padding) = w.as_padded_bytes();
    assert_eq!(bytes.to_vec(), vec![0xA5]);
    assert_eq!(padding, 0);
}

#[test]
fn serialize_layout() {
    let v = BitVec::from_bool_slice(&[true]);
    let mut buf = vec![0xEE];
    v.serialize(&mut buf);
    assert_eq!(buf, vec![0xEE, 7, 0x80]);

    let ser = v.as_bit_view().serialize();
    assert_eq!(ser, vec![7, 0x80]);
}

#[test]
fn deserialize_empty_fails() {
    assert_eq!(BitVec::deserialize(&[]), Err(()));
    assert!(BitView::deserialize(&[]).is_err());
}

#[test]
fn deserialize_rejects_out_of_range_padding() {
    assert_eq!(BitVec::deserialize(&[8, 0xFF]), Err(()));
    assert!(BitView::deserialize(&[8, 0xFF]).is_err());
    assert_eq!(BitVec::deserialize(&[200]), Err(()));
    assert_eq!(BitVec::deserialize(&[1]), Err(()));
    assert!(BitView::deserialize(&[1]).is_err());
}

#[test]
fn deserialize_no_data_bytes() {
    let v = BitVec::deserialize(&[0]).unwrap();
    assert_eq!(v.len_bits(), 0);
    assert_eq!(v, BitVec::new());
}

#[test]
fn reads_ignore_padding_bits() {
    let input = [3, 0b1010_0111];
    let v = BitVec::deserialize(&input).unwrap();
    assert_eq!(v.len_bits(), 5);
    assert_eq!(
        v.to_bool_slice(),
        vec![true, false, true, false, false]
    );

    let view = BitView::deserialize(&input).unwrap();
    assert_eq!(view.len_bits(), 5);
    assert_eq!(view.to_bool_slice(), v.to_bool_slice());
}

#[test]
fn view_from_padded_bytes() {
    let bytes = [0xFF, 0b1100_0000];
    let view = BitView::from_padded_bytes(&bytes, 6);
    assert_eq!(view.len_bits(), 10);
    assert_eq!(view.least_len_bytes(), 2);
    let (raw, padding) = view.as_padded_bytes();
    assert_eq!(raw.to_vec(), bytes.to_vec());
    assert_eq!(padding, 6);
    assert_eq!(
        view.to_bool_slice(),
        vec![true, true, true, true, true, true, true, true, true, true]
    );
}

#[test]
fn view_serde_round_trip() {
    let v = BitVec::from_bool_slice(&[false, true, true]);
    let ser = v.as_bit_view().serialize();
    let view = BitView::deserialize(&ser).unwrap();
    assert_eq!(view.to_bool_slice(), v.to_bool_slice());
    assert_eq!(view.serialize(), ser);
}

#[test]
fn iterator_emits_exactly_len_bits() {
    let bools = [true, false, false, true, false, true, false, false, false, false, true];
    let v = BitVec::from_bool_slice(&bools);
    let mut it = v.iter_bits();
    let mut count = 0;
    while let Some(_) = it.next() {
        count += 1;
    }
    assert_eq!(count, v.len_bits());
    assert!(it.next().is_none());
    assert!(it.next().is_none());

    // Two data bytes, but only one meaningful bit.
    let view = BitView::from_padded_bytes(&[0x80, 0x00], 7);
    assert_eq!(view.len_bits(), 9);
    let mut it = view.iter_bits();
    let mut emitted = Vec::new();
    while let Some(b) = it.next() {
        emitted.push(b);
    }
    assert_eq!(emitted.len(), 9);
    assert_eq!(emitted[0], true);
}

#[test]
fn extend_unaligned() {
    let a = [true, false, true];
    let b = [false, false, true, true, false, true, true];
    let mut va = BitVec::from_bool_slice(&a);
    let vb = BitVec::from_bool_slice(&b);
    va.extend_from_bits(&vb.as_bit_view());
    let mut expected = a.to_vec();
    expected.extend_from_slice(&b);
    assert_eq!(va.to_bool_slice(), expected);
    assert_eq!(va.len_bits(), 10);
    assert_eq!(va.least_len_bytes(), 2);
}

#[test]
fn extend_with_empty() {
    let a = [true, false, true];
    let mut va = BitVec::from_bool_slice(&a);
    let empty = BitVec::new();
    va.extend_from_bits(&empty.as_bit_view());
    assert_eq!(va.to_bool_slice(), a.to_vec());

    let mut vb = BitVec::new();
    vb.extend_from_bits(&va.as_bit_view());
    assert_eq!(vb.to_bool_slice(), a.to_vec());
}

#[test]
fn structural_equality() {
    let a = BitVec::from_bool_slice(&[true, false]);
    let b = BitVec::from_bool_slice(&[true, false]);
    let c = BitVec::from_bool_slice(&[true, false, false]);
    assert_eq!(a, b);
    assert!(a != c);
}

#[test]
fn least_bytes_values() {
    assert_eq!(least_bytes_repr_for_bits(0), 0);
    assert_eq!(least_bytes_repr_for_bits(1), 1);
    assert_eq!(least_bytes_repr_for_bits(7), 1);
    assert_eq!(least_bytes_repr_for_bits(8), 1);
    assert_eq!(least_bytes_repr_for_bits(9), 2);
    assert_eq!(least_bytes_repr_for_bits(16), 2);
    assert_eq!(least_bytes_repr_for_bits(17), 3);
}

#[test]
fn minimum_byte_count() {
    let v = BitVec::from_bool_slice(&[false, true, false, true, false, true]);
    assert_eq!(v.least_len_bytes(), 1);
}
