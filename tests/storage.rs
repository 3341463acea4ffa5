use celldb::storage::Storage;

fn s(x: &str) -> String {
    x.to_string()
}

#[test]
fn store_get_delete() {
    let mut st = Storage::init();
    assert_eq!(st.store_record(s("r1"), vec![1, 2, 3]), Ok(()));
    assert_eq!(st.get_record(&s("r1")), Some(vec![1, 2, 3]));
    st.store_record(s("r1"), vec![9]).unwrap();
    assert_eq!(st.get_record(&s("r1")), Some(vec![9]));
    assert_eq!(st.get_record(&s("r2")), None);
    assert_eq!(st.delete_record(&s("r1")), Some(vec![9]));
    assert_eq!(st.delete_record(&s("r1")), None);
    assert_eq!(st.get_record(&s("r1")), None);
}

#[test]
fn index_lists_each_record_once() {
    let mut st = Storage::init();
    st.update_index(s("color"), s("red"), s("r1"));
    st.update_index(s("color"), s("red"), s("r2"));
    st.update_index(s("color"), s("red"), s("r1"));
    st.update_index(s("color"), s("blue"), s("r3"));
    assert_eq!(st.query_by_index(&s("color"), &s("red")), vec![s("r1"), s("r2")]);
    assert_eq!(st.query_by_index(&s("color"), &s("blue")), vec![s("r3")]);
    assert!(st.query_by_index(&s("size"), &s("red")).is_empty());
}

#[test]
fn stats_count_records_and_indexes() {
    let mut st = Storage::init();
    st.store_record(s("a"), vec![1]).unwrap();
    st.store_record(s("b"), vec![2]).unwrap();
    st.update_index(s("f"), s("v"), s("a"));
    st.update_index(s("f"), s("v"), s("b"));
    st.update_index(s("f"), s("w"), s("b"));
    let stats = st.get_stats();
    assert_eq!(stats.record_count, 2);
    assert_eq!(stats.index_count, 2);
    assert_eq!(stats.memory_usage, 0);
}

#[test]
fn storage_survives_upgrade() {
    let mut st = Storage::init();
    st.store_record(s("a"), vec![1]).unwrap();
    st.update_index(s("f"), s("v"), s("a"));
    let restored = Storage::post_upgrade(st.pre_upgrade());
    assert_eq!(restored.get_record(&s("a")), Some(vec![1]));
    assert_eq!(restored.query_by_index(&s("f"), &s("v")), vec![s("a")]);
}
