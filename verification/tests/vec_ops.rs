use array_vec::error::{OutOfMemoryError, WriteZeroError};
use array_vec::vec::ArrayVec;

fn filled<const N: usize>(items: &[u32]) -> ArrayVec<u32, N> {
    let mut v: ArrayVec<u32, N> = ArrayVec::new();
    for x in items {
        assert!(v.push(*x).is_ok());
    }
    v
}

#[test]
fn new_is_empty_with_fixed_capacity() {
    let v: ArrayVec<String, 4> = ArrayVec::new();
    assert_eq!(v.len(), 0);
    assert!(v.is_empty());
    assert_eq!(v.capacity(), 4);
    assert!(v.get(0).is_none());
    let d: ArrayVec<String, 4> = Default::default();
    assert!(d.is_empty());
}

#[test]
fn push_until_full_then_split() {
    let mut v: ArrayVec<u32, 8> = ArrayVec::new();
    for x in 0..8u32 {
        assert_eq!(v.push(x), Ok(()));
    }
    let full: Result<(), OutOfMemoryError> = v.push(8);
    assert!(full.is_err());
    assert_eq!(v.len(), 8);
    assert_eq!(v.clone().into_vec(), vec![0, 1, 2, 3, 4, 5, 6, 7]);
    let tail: ArrayVec<u32, 3> = v.split_off(5);
    assert_eq!(tail.len(), 3);
    assert_eq!(tail.capacity(), 3);
    assert_eq!(tail.into_vec(), vec![5, 6, 7]);
    assert_eq!(v.into_vec(), vec![0, 1, 2, 3, 4]);
}

#[test]
fn push_on_full_leaves_length_and_contents() {
    let mut v: ArrayVec<u32, 2> = filled(&[7, 9]);
    assert!(v.push(11).is_err());
    assert!(v.push(12).is_err());
    assert_eq!(v.len(), 2);
    assert_eq!(v.into_vec(), vec![7, 9]);
    let mut z: ArrayVec<u32, 0> = ArrayVec::new();
    assert!(z.push(1).is_err());
    assert_eq!(z.len(), 0);
}

#[test]
fn length_stays_within_capacity_over_many_operations() {
    let mut v: ArrayVec<u32, 3> = ArrayVec::new();
    for round in 0..20u32 {
        let _ = v.push(round);
        assert!(v.len() <= v.capacity());
        if round % 3 == 0 {
            let _ = v.pop();
        }
        let _ = v.insert(0, round);
        assert!(v.len() <= v.capacity());
        let _ = v.resize(round as usize % 5, 1);
        assert!(v.len() <= v.capacity());
    }
}

#[test]
fn insert_shifts_the_tail_up() {
    let mut v: ArrayVec<u32, 5> = filled(&[1, 2, 4]);
    assert_eq!(v.insert(2, 3), Ok(()));
    assert_eq!(v.insert(0, 0), Ok(()));
    assert_eq!(v.clone().into_vec(), vec![0, 1, 2, 3, 4]);
    assert!(v.insert(1, 9).is_err());
    assert_eq!(v.into_vec(), vec![0, 1, 2, 3, 4]);
    let mut w: ArrayVec<u32, 2> = filled(&[1]);
    assert_eq!(w.insert(1, 2), Ok(()));
    assert_eq!(w.into_vec(), vec![1, 2]);
}

#[test]
fn pop_takes_from_the_end() {
    let mut v: ArrayVec<String, 3> = ArrayVec::new();
    assert_eq!(v.pop(), None);
    assert!(v.push(String::from("a")).is_ok());
    assert!(v.push(String::from("b")).is_ok());
    assert_eq!(v.pop(), Some(String::from("b")));
    assert_eq!(v.len(), 1);
    assert_eq!(v.pop(), Some(String::from("a")));
    assert_eq!(v.pop(), None);
}

#[test]
fn remove_keeps_order_and_swap_remove_does_not() {
    let mut a: ArrayVec<u32, 5> = filled(&[10, 20, 30, 40, 50]);
    let mut b: ArrayVec<u32, 5> = filled(&[10, 20, 30, 40, 50]);
    assert_eq!(a.remove(1), 20);
    assert_eq!(b.swap_remove(1), 20);
    let kept = a.into_vec();
    let swapped = b.into_vec();
    assert_eq!(kept, vec![10, 30, 40, 50]);
    assert_eq!(swapped, vec![10, 50, 30, 40]);
    assert_ne!(kept, swapped);
}

#[test]
fn remove_and_swap_remove_at_the_end() {
    let mut a: ArrayVec<u32, 3> = filled(&[1, 2, 3]);
    assert_eq!(a.remove(2), 3);
    assert_eq!(a.swap_remove(1), 2);
    assert_eq!(a.swap_remove(0), 1);
    assert!(a.is_empty());
}

#[test]
fn truncate_and_clear() {
    let mut v: ArrayVec<u32, 5> = filled(&[1, 2, 3, 4]);
    v.truncate(6);
    assert_eq!(v.len(), 4);
    v.truncate(4);
    assert_eq!(v.len(), 4);
    v.truncate(2);
    assert_eq!(v.clone().into_vec(), vec![1, 2]);
    assert_eq!(v.push(9), Ok(()));
    assert_eq!(v.clone().into_vec(), vec![1, 2, 9]);
    v.clear();
    assert!(v.is_empty());
    assert_eq!(v.into_vec(), Vec::<u32>::new());
}

#[test]
fn append_moves_everything_or_nothing() {
    let mut a: ArrayVec<u32, 5> = filled(&[1, 2]);
    let mut b: ArrayVec<u32, 3> = filled(&[3, 4, 5]);
    assert_eq!(a.append(&mut b), Ok(()));
    assert!(b.is_empty());
    assert_eq!(a.clone().into_vec(), vec![1, 2, 3, 4, 5]);
    let mut c: ArrayVec<u32, 3> = filled(&[6]);
    assert!(a.append(&mut c).is_err());
    assert_eq!(a.into_vec(), vec![1, 2, 3, 4, 5]);
    assert_eq!(c.into_vec(), vec![6]);
}

#[test]
fn split_off_at_the_ends() {
    let mut v: ArrayVec<u32, 4> = filled(&[1, 2, 3]);
    let none: ArrayVec<u32, 0> = v.split_off(3);
    assert!(none.is_empty());
    let all: ArrayVec<u32, 4> = v.split_off(0);
    assert!(v.is_empty());
    assert_eq!(all.into_vec(), vec![1, 2, 3]);
}

#[test]
fn extend_from_slice_adds_all_or_none() {
    let mut v: ArrayVec<u32, 4> = filled(&[1]);
    assert!(v.extend_from_slice(&[2, 3, 4, 5]).is_err());
    assert_eq!(v.clone().into_vec(), vec![1]);
    assert_eq!(v.extend_from_slice(&[2, 3, 4]), Ok(()));
    assert_eq!(v.clone().into_vec(), vec![1, 2, 3, 4]);
    assert_eq!(v.extend_from_slice(&[]), Ok(()));
    assert!(v.extend_from_slice(&[5]).is_err());
    assert_eq!(v.into_vec(), vec![1, 2, 3, 4]);
}

#[test]
fn resize_grows_truncates_or_refuses() {
    let mut v: ArrayVec<String, 4> = ArrayVec::new();
    assert_eq!(v.resize(3, String::from("x")), Ok(()));
    assert_eq!(v.clone().into_vec(), vec!["x", "x", "x"]);
    assert!(v.resize(5, String::from("y")).is_err());
    assert_eq!(v.len(), 3);
    assert_eq!(v.resize(1, String::from("z")), Ok(()));
    assert_eq!(v.clone().into_vec(), vec!["x"]);
    assert_eq!(v.resize(1, String::from("z")), Ok(()));
    assert_eq!(v.resize(0, String::from("z")), Ok(()));
    assert!(v.is_empty());
}

#[test]
fn resize_with_calls_the_generator_per_slot() {
    let mut v: ArrayVec<u32, 5> = filled(&[9]);
    let mut next: u32 = 0;
    assert_eq!(
        v.resize_with(4, || {
            next += 1;
            next
        }),
        Ok(())
    );
    assert_eq!(v.clone().into_vec(), vec![9, 1, 2, 3]);
    assert!(v.resize_with(6, || 0).is_err());
    assert_eq!(v.len(), 4);
    assert_eq!(v.resize_with(2, || 0), Ok(()));
    assert_eq!(v.into_vec(), vec![9, 1]);
}

#[test]
fn retain_keeps_order() {
    let mut v: ArrayVec<u32, 8> = filled(&[1, 2, 3, 4, 5, 6]);
    let mut asked: Vec<u32> = Vec::new();
    v.retain(|x| {
        asked.push(*x);
        *x % 2 == 0
    });
    assert_eq!(asked, vec![1, 2, 3, 4, 5, 6]);
    assert_eq!(v.clone().into_vec(), vec![2, 4, 6]);
    v.retain(|_| false);
    assert!(v.is_empty());
    v.retain(|_| true);
    assert!(v.is_empty());
}

#[test]
fn retain_mut_keeps_changed_elements() {
    let mut v: ArrayVec<u32, 8> = filled(&[1, 2, 3, 4]);
    v.retain_mut(|x| {
        *x *= 10;
        *x != 30
    });
    assert_eq!(v.into_vec(), vec![10, 20, 40]);
}

#[test]
fn dedup_collapses_neighbours_only() {
    let mut v: ArrayVec<u32, 8> = filled(&[1, 1, 2, 1, 1]);
    v.dedup();
    assert_eq!(v.into_vec(), vec![1, 2, 1]);
    let mut e: ArrayVec<u32, 8> = ArrayVec::new();
    e.dedup();
    assert!(e.is_empty());
    let mut one: ArrayVec<u32, 8> = filled(&[5]);
    one.dedup();
    assert_eq!(one.into_vec(), vec![5]);
    let mut same: ArrayVec<u32, 8> = filled(&[3, 3, 3, 3]);
    same.dedup();
    assert_eq!(same.into_vec(), vec![3]);
}

#[test]
fn dedup_by_compares_with_the_last_kept() {
    let mut v: ArrayVec<u32, 8> = filled(&[1, 2, 3, 10, 11, 30]);
    v.dedup_by(|current, kept| *current < *kept + 5);
    assert_eq!(v.into_vec(), vec![1, 10, 30]);
}

#[test]
fn dedup_by_may_change_the_kept_element() {
    let mut v: ArrayVec<(char, u32), 8> = ArrayVec::new();
    for item in [('a', 1), ('a', 2), ('b', 5), ('a', 1), ('a', 1), ('a', 1)] {
        assert!(v.push(item).is_ok());
    }
    v.dedup_by(|current, kept| {
        if current.0 == kept.0 {
            kept.1 += current.1;
            true
        } else {
            false
        }
    });
    assert_eq!(v.into_vec(), vec![('a', 3), ('b', 5), ('a', 3)]);
}

#[test]
fn dedup_by_key_compares_keys() {
    let mut v: ArrayVec<u32, 8> = filled(&[10, 11, 20, 21, 22, 10]);
    v.dedup_by_key(|x| *x / 10);
    assert_eq!(v.into_vec(), vec![10, 20, 10]);
}

#[test]
fn pop_if_asks_about_the_last() {
    let mut v: ArrayVec<u32, 4> = filled(&[1, 2, 3]);
    assert_eq!(v.pop_if(|x| *x == 3), Some(3));
    assert_eq!(
        v.pop_if(|x| {
            *x += 5;
            false
        }),
        None
    );
    assert_eq!(v.clone().into_vec(), vec![1, 7]);
    v.clear();
    assert_eq!(v.pop_if(|_| true), None);
}

#[test]
fn from_elem_and_try_from_slice() {
    let v: ArrayVec<u32, 4> = ArrayVec::from_elem(7, 3).unwrap();
    assert_eq!(v.into_vec(), vec![7, 7, 7]);
    assert!(ArrayVec::<u32, 2>::from_elem(7, 3).is_err());
    let e: ArrayVec<u32, 2> = ArrayVec::from_elem(7, 0).unwrap();
    assert!(e.is_empty());
    let s: ArrayVec<u32, 3> = ArrayVec::try_from_slice(&[1, 2, 3]).unwrap();
    assert_eq!(s.into_vec(), vec![1, 2, 3]);
    assert!(ArrayVec::<u32, 2>::try_from_slice(&[1, 2, 3]).is_err());
}

#[test]
fn clone_and_clone_from() {
    let v: ArrayVec<String, 3> =
        ArrayVec::try_from_slice(&[String::from("a"), String::from("b")]).unwrap();
    let c = v.clone();
    assert_eq!(c.into_vec(), vec!["a", "b"]);
    let mut t: ArrayVec<String, 3> = ArrayVec::from_elem(String::from("z"), 3).unwrap();
    t.clone_from(&v);
    assert_eq!(t.into_vec(), vec!["a", "b"]);
    assert_eq!(v.get(1), Some(&String::from("b")));
    assert_eq!(v.get(2), None);
}

#[test]
fn write_truncates_at_capacity() {
    let mut v: ArrayVec<u8, 4> = ArrayVec::new();
    assert_eq!(v.write(&[1, 2, 3]), 3);
    assert_eq!(v.write(&[4, 5, 6]), 1);
    assert_eq!(v.write(&[7]), 0);
    assert_eq!(v.into_vec(), vec![1, 2, 3, 4]);
}

#[test]
fn write_all_reports_an_incomplete_write() {
    let mut v: ArrayVec<u8, 4> = ArrayVec::new();
    assert_eq!(v.write_all(&[1, 2]), Ok(()));
    let short = v.write_all(&[3, 4, 5]);
    assert_eq!(short, Err(WriteZeroError { written: 2 }));
    assert_eq!(short.unwrap_err().message(), "failed to write whole buffer");
    assert_eq!(v.into_vec(), vec![1, 2, 3, 4]);
}

#[test]
fn out_of_memory_message() {
    let mut z: ArrayVec<u32, 0> = ArrayVec::new();
    let e = z.push(1).unwrap_err();
    assert_eq!(e.message(), "static length struct does not have enough memory");
}

#[test]
fn get_mut_writes_through() {
    let mut v: ArrayVec<u32, 4> = filled(&[1, 2, 3]);
    match v.get_mut(1) {
        Some(x) => *x = 20,
        None => panic!("the element is live"),
    }
    assert!(v.get_mut(3).is_none());
    assert_eq!(v.into_vec(), vec![1, 20, 3]);
}

#[test]
fn from_array_moves_the_elements() {
    let v: ArrayVec<String, 3> = ArrayVec::from_array([String::from("a"), String::from("b")]);
    assert_eq!(v.len(), 2);
    assert_eq!(v.into_vec(), vec!["a", "b"]);
    let full: ArrayVec<u32, 3> = ArrayVec::from_array([1, 2, 3]);
    assert_eq!(full.into_vec(), vec![1, 2, 3]);
    let none: ArrayVec<u32, 3> = ArrayVec::from_array([]);
    assert!(none.is_empty());
}

#[test]
fn from_raw_parts_takes_the_prefix() {
    let v: ArrayVec<u32, 3> = ArrayVec::from_raw_parts([Some(4), Some(5), None], 2);
    assert_eq!(v.len(), 2);
    assert_eq!(v.into_vec(), vec![4, 5]);
}

#[test]
fn eq_compares_contents_across_capacities() {
    let a: ArrayVec<u32, 3> = filled(&[1, 2]);
    let b: ArrayVec<u32, 8> = filled(&[1, 2]);
    let c: ArrayVec<u32, 8> = filled(&[1, 3]);
    let d: ArrayVec<u32, 8> = filled(&[1, 2, 3]);
    let e: ArrayVec<u32, 3> = ArrayVec::new();
    assert!(a.eq(&b));
    assert!(!a.eq(&c));
    assert!(!a.eq(&d));
    assert!(!a.eq(&e));
    assert!(e.eq(&ArrayVec::<u32, 1>::new()));
}

#[test]
fn into_boxed_slice_has_exactly_the_live_elements() {
    let v: ArrayVec<u32, 8> = filled(&[1, 2, 3]);
    let b: Box<[u32]> = v.into_boxed_slice();
    assert_eq!(b.len(), 3);
    assert_eq!(&*b, &[1, 2, 3]);
    let e: ArrayVec<u32, 8> = ArrayVec::new();
    assert_eq!(e.into_boxed_slice().len(), 0);
}
