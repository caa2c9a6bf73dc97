use rust_compress::bit_vec::BitVec;
use std::iter::FromIterator;

fn alternating(n: usize) -> Vec<bool> {
    let mut bits = Vec::new();
    for i in 0..n {
        bits.push(i % 2 == 0);
    }
    bits
}

fn collect(v: &BitVec) -> Vec<bool> {
    let mut bits = Vec::new();
    let mut it = v.iter();
    while let Some(bit) = it.next() {
        bits.push(bit);
    }
    bits
}

#[test]
fn len() {
    let mut v = BitVec::new();
    assert_eq!(v.len(), 0);
    v.push(false);
    assert_eq!(v.len(), 1);
    for _ in 0..6 {
        v.push(false);
    }
    assert_eq!(v.len(), 7);
    v.push(false);
    assert_eq!(v.len(), 8);
    v.push(false);
    assert_eq!(v.len(), 9);
}

#[test]
fn split_rest() {
    let v = BitVec::new();
    let (rest, last) = v.split_rest();
    assert_eq!(rest, BitVec::new());
    assert_eq!(last, BitVec::new());

    let v: BitVec = vec![true; 8].into();
    let (rest, last) = v.split_rest();
    assert_eq!(rest, vec![true; 8].into());
    assert_eq!(last, BitVec::new());

    let v: BitVec = vec![true; 9].into();
    let (rest, last) = v.split_rest();
    assert_eq!(rest, vec![true; 8].into());
    assert_eq!(last, vec![true].into());
}

#[test]
fn iter() {
    let b: BitVec = vec![true; 7].into();
    assert_eq!(vec![true; 7], Vec::from_iter(b.iter()));
    let b: BitVec = vec![true; 8].into();
    assert_eq!(vec![true; 8], Vec::from_iter(b.iter()));
    let b: BitVec = vec![true; 9].into();
    assert_eq!(vec![true; 9], Vec::from_iter(b.iter()));
    let b: BitVec = vec![true, false, false, true].into();
    assert_eq!(vec![true, false, false, true], Vec::from_iter(b.iter()));
}

#[test]
fn new_is_empty() {
    let v = BitVec::new();
    assert_eq!(v.len(), 0);
    assert_eq!(collect(&v), Vec::<bool>::new());
    assert_eq!(v.into_bytes(), Vec::<u8>::new());
}

#[test]
fn with_capacity_is_empty_and_roomy() {
    let mut v = BitVec::with_capacity(8);
    assert_eq!(v.len(), 0);
    for _ in 0..8 {
        v.push(true);
    }
    v.push(true);
    assert_eq!(v.len(), 9);

    let v = BitVec::with_capacity(10);
    assert!(v.capacity() >= 10);
    assert_eq!(v.capacity() % 8, 0);
    assert_eq!(v, BitVec::new());
}

#[test]
fn capacity_covers_len() {
    let mut v = BitVec::new();
    for k in 0..100 {
        assert!(v.capacity() >= v.len());
        v.push(k % 3 == 0);
    }
    assert!(v.capacity() >= 100);
}

#[test]
fn len_counts_every_push() {
    for k in [0usize, 1, 7, 8, 9, 15, 16, 17, 63, 64, 65, 1000] {
        let mut v = BitVec::new();
        for i in 0..k {
            v.push(i % 3 == 1);
        }
        assert_eq!(v.len(), k);
    }
}

#[test]
fn into_bytes_packs_least_significant_first() {
    let mut v = BitVec::new();
    v.push(true);
    v.push(false);
    v.push(true);
    assert_eq!(v.into_bytes(), vec![0b00000101]);

    let v: BitVec = vec![false, false, false, false, false, false, false, true].into();
    assert_eq!(v.into_bytes(), vec![0b10000000]);

    let v: BitVec = vec![true, true, false, false, true, false, true, false, true, true].into();
    assert_eq!(v.into_bytes(), vec![0b01010011, 0b00000011]);
}

#[test]
fn into_bytes_len_is_ceiling() {
    for k in 0usize..70 {
        let v: BitVec = alternating(k).into();
        assert_eq!(v.len(), k);
        assert_eq!(v.into_bytes().len(), (k + 7) / 8);
    }
}

#[test]
fn into_bytes_after_full_byte() {
    let mut v: BitVec = vec![true; 8].into();
    assert_eq!(v.clone().into_bytes(), vec![0xff]);
    v.push(false);
    assert_eq!(v.len(), 9);
    assert_eq!(v.clone().into_bytes(), vec![0xff, 0x00]);
    v.push(true);
    assert_eq!(v.into_bytes(), vec![0xff, 0x02]);
}

#[test]
fn split_rest_of_twelve_bits() {
    let v: BitVec = alternating(12).into();
    let (rest, last) = v.split_rest();
    assert_eq!(rest.len(), 8);
    assert_eq!(last.len(), 4);
    assert_eq!(rest.into_bytes(), vec![0b01010101]);
    assert_eq!(last.into_bytes(), vec![0b00000101]);
}

#[test]
fn split_rest_parts_join_to_the_whole() {
    for k in 0usize..40 {
        let bits: Vec<bool> = (0..k).map(|i| (i * 7 + k) % 5 < 2).collect();
        let v: BitVec = bits.clone().into();
        let (rest, last) = v.split_rest();
        assert_eq!(rest.len() % 8, 0);
        assert_eq!(last.len(), k % 8);
        let mut joined = collect(&rest);
        joined.extend(collect(&last));
        assert_eq!(joined, bits);
        if k % 8 == 0 {
            let whole: BitVec = bits.into();
            assert_eq!(rest, whole);
            assert_eq!(last, BitVec::new());
        }
    }
}

#[test]
fn iter_yields_len_bits_in_push_order() {
    for k in 0usize..40 {
        let bits: Vec<bool> = (0..k).map(|i| (i * i + 1) % 3 == 0).collect();
        let v: BitVec = bits.clone().into();
        let got = collect(&v);
        assert_eq!(got.len(), v.len());
        assert_eq!(got, bits);
    }
}

#[test]
fn iter_restarts_and_stays_exhausted() {
    let v: BitVec = vec![true, false, true].into();
    let mut first = v.iter();
    assert_eq!(first.next(), Some(true));
    let mut second = v.iter();
    assert_eq!(second.next(), Some(true));
    assert_eq!(second.next(), Some(false));
    assert_eq!(first.next(), Some(false));
    assert_eq!(first.next(), Some(true));
    assert_eq!(first.next(), None);
    assert_eq!(first.next(), None);
    assert_eq!(second.next(), Some(true));
    assert_eq!(second.next(), None);
}

#[test]
fn from_slice_and_from_vec_agree() {
    let bits = [true, true, false, true, false, false, false, true, true];
    let a: BitVec = (&bits[..]).into();
    let b: BitVec = bits.to_vec().into();
    assert_eq!(a, b);
    assert_eq!(a.len(), 9);
    assert_eq!(collect(&a), bits.to_vec());
    assert_ne!(a, BitVec::new());
}

#[test]
fn clone_holds_the_same_bits() {
    let a: BitVec = alternating(13).into();
    let b = a.clone();
    assert_eq!(a, b);
    assert_eq!(collect(&b), alternating(13));
}
