use ontio_contract_core::storage::Storage;

#[test]
fn write_then_read() {
    let mut st = Storage::new();
    st.write(b"abc", b"123");
    assert_eq!(st.read(b"abc"), Some(b"123".to_vec()));
}

#[test]
fn last_write_wins() {
    let mut st = Storage::new();
    st.write(b"k", b"one");
    st.write(b"k", b"two");
    assert_eq!(st.read(b"k"), Some(b"two".to_vec()));
}

#[test]
fn delete_makes_absent() {
    let mut st = Storage::new();
    st.write(b"abc", b"123");
    st.delete(b"abc");
    assert_eq!(st.read(b"abc"), None);
    st.write(b"abc", b"456");
    assert_eq!(st.read(b"abc"), Some(b"456".to_vec()));
}

#[test]
fn untouched_key_is_absent() {
    let mut st = Storage::new();
    assert_eq!(st.read(b"nothing"), None);
    st.write(b"other", b"x");
    assert_eq!(st.read(b"nothing"), None);
    st.delete(b"nothing");
    assert_eq!(st.read(b"other"), Some(b"x".to_vec()));
}

#[test]
fn empty_value_is_not_absent() {
    let mut st = Storage::new();
    st.write(b"k", b"");
    assert_eq!(st.read(b"k"), Some(Vec::new()));
}
