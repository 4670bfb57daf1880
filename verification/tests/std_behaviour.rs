use std::borrow::Borrow;
use std::cmp::Reverse;

struct A {
    a: usize,
    b: u32,
}

impl Borrow<usize> for A {
    fn borrow(&self) -> &usize {
        &self.a
    }
}

impl Borrow<u32> for A {
    fn borrow(&self) -> &u32 {
        &self.b
    }
}

#[test]
fn test_borrow() {
    let a = A { a: 1, b: 2 };
    let b: &usize = a.borrow();
    let c: &u32 = a.borrow();
    assert_eq!(*b, 1);
    assert_eq!(*c, 2);
}

#[test]
fn test_list() {
    let mut list: Vec<_> = (0..=99).collect();
    list.sort_by_key(|&i| (i / 10, Reverse(i)));
    println!("{:?}", list);
}
