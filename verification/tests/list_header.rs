use kinglet::IterListHeader;

#[test]
fn test1() {
    let values = vec![];
    let mut iter = IterListHeader::new(&values);
    assert!(iter.next().is_none());
}

#[test]
fn test2() {
    let values = vec![b"foo".to_vec()];
    let mut iter = IterListHeader::new(&values);
    assert_eq!(iter.next(), Some(b"foo".to_vec()));
    assert!(iter.next().is_none());
}

#[test]
fn test3() {
    let values = vec![b"foo, bar".to_vec()];
    let mut iter = IterListHeader::new(&values);
    assert_eq!(iter.next(), Some(b"foo".to_vec()));
    assert_eq!(iter.next(), Some(b"bar".to_vec()));
    assert!(iter.next().is_none());
}

#[test]
fn test4() {
    let values = vec![b"foo , bar".to_vec()];
    let mut iter = IterListHeader::new(&values);
    assert_eq!(iter.next(), Some(b"foo".to_vec()));
    assert_eq!(iter.next(), Some(b"bar".to_vec()));
    assert!(iter.next().is_none());
}

#[test]
fn test5() {
    let values = vec![b"one".to_vec(), b"two".to_vec(), b"three".to_vec()];
    let mut iter = IterListHeader::new(&values);
    assert_eq!(iter.next(), Some(b"one".to_vec()));
    assert_eq!(iter.next(), Some(b"two".to_vec()));
    assert_eq!(iter.next(), Some(b"three".to_vec()));
    assert!(iter.next().is_none());
}

#[test]
fn test6() {
    let values = vec![b"one".to_vec(), b"two,,three".to_vec()];
    let mut iter = IterListHeader::new(&values);
    assert_eq!(iter.next(), Some(b"one".to_vec()));
    assert_eq!(iter.next(), Some(b"two".to_vec()));
    assert_eq!(iter.next(), Some(b"three".to_vec()));
    assert!(iter.next().is_none());
}

#[test]
fn test7() {
    let values = vec![b", , , ,,,,,, ,".to_vec(), b"       ,,, ,,,, ,, ".to_vec()];
    let mut iter = IterListHeader::new(&values);
    assert!(iter.next().is_none());
}

#[test]
fn test8() {
    let values = vec![b"!, this value has spaces, ;,  ".to_vec()];
    let mut iter = IterListHeader::new(&values);
    assert_eq!(iter.next(), Some(b"!".to_vec()));
    assert_eq!(iter.next(), Some(b"this value has spaces".to_vec()));
    assert_eq!(iter.next(), Some(b";".to_vec()));
    assert!(iter.next().is_none());
}

#[test]
fn test9() {
    let values = vec![b"anton, bertha,".to_vec(), b"caesar, \t".to_vec()];
    let mut iter = IterListHeader::new(&values);
    assert_eq!(iter.next(), Some(b"anton".to_vec()));
    assert_eq!(iter.next(), Some(b"bertha".to_vec()));
    assert_eq!(iter.next(), Some(b"caesar".to_vec()));
    assert!(iter.next().is_none());
}
