use stash::text::{less, same_name};

#[test]
fn name_order() {
    assert!(less("a", "b"));
    assert!(less("a", "ab"));
    assert!(!less("ab", "a"));
    assert!(!less("a", "a"));
    assert!(less("", "a"));
    assert!(less("Z", "a"));
    assert!(less("z", "é"));
    assert!(same_name("dir1/f1", "dir1/f1"));
    assert!(!same_name("dir1/f1", "dir1/f2"));
}
