use infarter::util::{ArraySet, DfStr, DfString, Stack, Sym, Symbol, VecMap, bytes_eq, copy_bytes, hash_bytes};

#[test]
fn latin1_from_utf8() {
    let s = DfString::fast_from_string(String::from("añ"));
    assert_eq!(s.as_bytes(), &[97u8, 0xf1u8][..]);
}

#[test]
fn latin1_plain_ascii() {
    let s = DfString::fast_from_string(String::from("hola"));
    assert_eq!(s.as_bytes(), b"hola");
}

#[test]
fn fnv_hash_of_empty_and_a() {
    assert_eq!(hash_bytes(b""), 2166136261u32);
    assert_eq!(hash_bytes(b"a"), 0xe40c292cu32);
}

#[test]
fn symbols_compare_by_bytes() {
    let a = Symbol::from_slice(b"abc");
    let b = Symbol::from_vec(b"abc".to_vec());
    let c = Symbol::from_slice(b"abd");
    assert!(a == b);
    assert!(!(a == c));
    assert_eq!(a.hash(), hash_bytes(b"abc"));
    let s = Sym::from_slice(b"abc");
    assert!(a == s);
    assert_eq!(s.hash(), a.hash());
}

#[test]
fn dfstr_round_trip() {
    let s = DfString::from_vec(vec![1, 2, 3]);
    let r = DfStr::from_dfstring(&s);
    assert_eq!(r.as_bytes(), &[1u8, 2, 3][..]);
    assert_eq!(r.to_dfstring().as_bytes(), &[1u8, 2, 3][..]);
}

#[test]
fn copy_and_compare_bytes() {
    assert_eq!(copy_bytes(&[4, 5]), vec![4u8, 5]);
    assert!(bytes_eq(&[1, 2], &[1, 2]));
    assert!(!bytes_eq(&[1, 2], &[1]));
}

#[test]
fn arrayset_keeps_first_and_no_duplicates() {
    let mut s: ArraySet<u32> = ArraySet::new();
    assert!(s.is_empty());
    assert_eq!(s.add(7), 0);
    assert_eq!(s.add(9), 1);
    assert_eq!(s.add(7), 0);
    assert_eq!(s.size(), 2);
    assert_eq!(s.index_of(&9), Some(1));
    assert_eq!(s.index_of(&8), None);
    assert_eq!(s.as_slice(), &[7u32, 9][..]);
    assert_eq!(s.iter().copied().collect::<Vec<u32>>(), vec![7, 9]);
    assert_eq!(s.to_vec(), vec![7, 9]);
}

#[test]
fn vecmap_set_get_trunc() {
    let mut m: VecMap<u32, char> = VecMap::new();
    assert!(m.is_empty());
    assert_eq!(m.set(1, 'a'), 0);
    assert_eq!(m.set(2, 'b'), 1);
    assert_eq!(m.set(1, 'c'), 0);
    assert_eq!(m.get(&1), Some(&'c'));
    assert!(m.has(&2));
    assert!(!m.has(&3));
    assert_eq!(m.size(), 2);
    m.trunc(1);
    assert_eq!(m.as_slice(), &[(1u32, 'c')][..]);
    assert_eq!(m.iter().count(), 1);
}

#[test]
fn vecmap_by_name() {
    let mut m: VecMap<DfString, u16> = VecMap::new();
    let x = DfString::from_vec(b"x".to_vec());
    m.set_name(&x, 3);
    m.set_name(&x, 4);
    assert_eq!(m.get_name(&DfString::from_vec(b"x".to_vec())), Some(4));
    assert_eq!(m.get_name(&DfString::from_vec(b"y".to_vec())), None);
    assert_eq!(m.size(), 1);
}

#[test]
fn stack_push_pop_peek() {
    let mut s: Stack<u8> = Stack::default();
    assert!(s.is_empty());
    s.push(1);
    s.push(2);
    s.push(3);
    assert_eq!(s.len(), 3);
    assert_eq!(s.peek(0), Some(&3));
    assert_eq!(s.peek(2), Some(&1));
    assert_eq!(s.peek(3), None);
    *s.peek_mut(1).unwrap() = 20;
    assert_eq!(s.iter().copied().collect::<Vec<u8>>(), vec![3, 20, 1]);
    assert_eq!(s.pop(), Some(3));
    assert_eq!(s.pop(), Some(20));
    assert_eq!(s.pop(), Some(1));
    assert_eq!(s.pop(), None);
}
