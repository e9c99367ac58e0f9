use array_vec::common::SetLenOnDrop;
use array_vec::copy::CopyArrayVec;

fn bytes<const N: usize>(items: &[u8]) -> CopyArrayVec<u8, N> {
    CopyArrayVec::try_from_slice(items).unwrap()
}

#[test]
fn copy_vec_basic_operations() {
    let mut v: CopyArrayVec<u8, 4> = CopyArrayVec::new();
    assert!(v.is_empty());
    assert_eq!(v.capacity(), 4);
    assert_eq!(v.push(1), Ok(()));
    assert_eq!(v.push(3), Ok(()));
    assert_eq!(v.insert(1, 2), Ok(()));
    assert_eq!(v.push(4), Ok(()));
    assert!(v.push(5).is_err());
    assert!(v.insert(0, 5).is_err());
    assert_eq!(v.len(), 4);
    assert_eq!(v.to_vec(), vec![1, 2, 3, 4]);
    assert_eq!(v.get(2), Some(3));
    assert_eq!(v.get(4), None);
    assert_eq!(v.pop(), Some(4));
    assert_eq!(v.remove(0), 1);
    assert_eq!(v.to_vec(), vec![2, 3]);
    assert_eq!(v.swap_remove(0), 2);
    assert_eq!(v.to_vec(), vec![3]);
    v.clear();
    assert_eq!(v.pop(), None);
    let d: CopyArrayVec<u8, 4> = Default::default();
    assert!(d.is_empty());
}

#[test]
fn copy_vec_extend_is_all_or_nothing() {
    let mut v: CopyArrayVec<u8, 4> = bytes(&[1, 2]);
    assert!(v.extend_from_slice(&[3, 4, 5]).is_err());
    assert_eq!(v.to_vec(), vec![1, 2]);
    assert_eq!(v.extend_from_slice(&[3, 4]), Ok(()));
    assert_eq!(v.to_vec(), vec![1, 2, 3, 4]);
}

#[test]
fn copy_vec_resize_and_from_elem() {
    let mut v: CopyArrayVec<u8, 4> = bytes(&[1]);
    assert_eq!(v.resize(3, 9), Ok(()));
    assert_eq!(v.to_vec(), vec![1, 9, 9]);
    assert!(v.resize(5, 9).is_err());
    assert_eq!(v.resize(2, 0), Ok(()));
    assert_eq!(v.to_vec(), vec![1, 9]);
    let e: CopyArrayVec<u8, 4> = CopyArrayVec::from_elem(7, 4).unwrap();
    assert_eq!(e.to_vec(), vec![7, 7, 7, 7]);
    assert!(CopyArrayVec::<u8, 4>::from_elem(7, 5).is_err());
    assert!(CopyArrayVec::<u8, 2>::try_from_slice(&[1, 2, 3]).is_err());
}

#[test]
fn copy_vec_append_split_truncate() {
    let mut a: CopyArrayVec<u8, 6> = bytes(&[1, 2, 3]);
    let mut b: CopyArrayVec<u8, 3> = bytes(&[4, 5]);
    assert_eq!(a.append(&mut b), Ok(()));
    assert!(b.is_empty());
    let tail: CopyArrayVec<u8, 6> = a.split_off(2);
    assert_eq!(a.to_vec(), vec![1, 2]);
    assert_eq!(tail.to_vec(), vec![3, 4, 5]);
    let mut t = tail.clone();
    t.truncate(1);
    assert_eq!(t.to_vec(), vec![3]);
    assert_eq!(tail.to_vec(), vec![3, 4, 5]);
    let mut big: CopyArrayVec<u8, 2> = bytes(&[1, 2]);
    let mut more: CopyArrayVec<u8, 2> = bytes(&[3]);
    assert!(big.append(&mut more).is_err());
    assert_eq!(big.to_vec(), vec![1, 2]);
    assert_eq!(more.to_vec(), vec![3]);
}

#[test]
fn copy_vec_retain_and_dedup() {
    let mut v: CopyArrayVec<u8, 8> = bytes(&[1, 1, 2, 3, 3, 1]);
    v.dedup();
    assert_eq!(v.to_vec(), vec![1, 2, 3, 1]);
    v.retain(|x| *x != 2);
    assert_eq!(v.to_vec(), vec![1, 3, 1]);
    v.dedup_by(|a, b| *a > *b);
    assert_eq!(v.to_vec(), vec![1, 1]);
}

#[test]
fn copy_vec_write() {
    let mut v: CopyArrayVec<u8, 3> = CopyArrayVec::new();
    assert_eq!(v.write(&[1, 2]), 2);
    assert!(v.write_all(&[3, 4]).is_err());
    assert_eq!(v.to_vec(), vec![1, 2, 3]);
    assert_eq!(v.write(&[9]), 0);
}

#[test]
fn guard_writes_back_on_release() {
    let mut len: usize = 3;
    let mut guard = SetLenOnDrop::new(&mut len);
    assert_eq!(guard.current_len(), 3);
    guard.increment_len(1);
    guard.increment_len(2);
    assert_eq!(guard.current_len(), 6);
    guard.release();
    assert_eq!(len, 6);
}

#[test]
fn copy_vec_from_array() {
    let v: CopyArrayVec<u8, 4> = CopyArrayVec::from_array([1, 2, 3]);
    assert_eq!(v.to_vec(), vec![1, 2, 3]);
    let c = v.clone();
    assert_eq!(c.to_vec(), vec![1, 2, 3]);
    assert_eq!(c.len(), 3);
}

#[test]
fn copy_vec_closure_methods() {
    let mut v: CopyArrayVec<u8, 8> = bytes(&[1, 2, 3, 4]);
    v.retain_mut(|x| {
        *x += 1;
        *x % 2 == 1
    });
    assert_eq!(v.to_vec(), vec![3, 5]);
    let mut next: u8 = 10;
    assert_eq!(
        v.resize_with(4, || {
            next += 1;
            next
        }),
        Ok(())
    );
    assert_eq!(v.to_vec(), vec![3, 5, 11, 12]);
    assert!(v.resize_with(9, || 0).is_err());
    v.dedup_by_key(|x| *x / 10);
    assert_eq!(v.to_vec(), vec![3, 11]);
    assert_eq!(v.pop_if(|x| *x > 10), Some(11));
    assert_eq!(v.pop_if(|x| *x > 10), None);
    assert_eq!(v.to_vec(), vec![3]);
}

#[test]
fn copy_vec_eq() {
    let a: CopyArrayVec<u8, 2> = bytes(&[1, 2]);
    let b: CopyArrayVec<u8, 5> = bytes(&[1, 2]);
    let c: CopyArrayVec<u8, 5> = bytes(&[1, 2, 3]);
    assert!(a.eq(&b));
    assert!(!a.eq(&c));
}
