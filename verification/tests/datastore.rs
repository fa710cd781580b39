use darkbird::document::Document;
use darkbird::storage::{Options, Storage, StorageType};
use darkbird::router::Event;
use darkbird::codec::RQuery;

fn doc(content: &str, idx: Option<&str>, tags: &[&str], views: &[(&str, bool)], text: &str) -> Document {
    Document {
        content: content.to_string(),
        index_key: idx.map(|s| s.to_string()),
        tags: tags.iter().map(|s| s.to_string()).collect(),
        views: views.iter().map(|(n, b)| (n.to_string(), *b)).collect(),
        text: text.to_string(),
    }
}

fn mem_opts() -> Options {
    Options {
        path: String::new(),
        storage_name: "test".to_string(),
        total_page_size: 4096,
        stype: StorageType::InMemoryOnly,
    }
}

#[test]
fn insert_lookup_round_trip() {
    let mut st = Storage::open(&mem_opts());
    st.insert("a".to_string(), doc("d1", Some("u1"), &["t1"], &[], "hello world"));
    let got = st.lookup(&"a".to_string()).expect("present");
    assert_eq!(got.content, "d1");
    let (k, d) = st.lookup_by_index(&"u1".to_string()).expect("indexed");
    assert_eq!(k, "a");
    assert_eq!(d.content, "d1");
    let tagged = st.lookup_by_tag(&"t1".to_string());
    assert_eq!(tagged.len(), 1);
    assert_eq!(tagged[0].0, "a");
    let found = st.search(&"hello".to_string());
    assert_eq!(found.len(), 1);
    assert_eq!(found[0].0, "a");
    let missing = st.search(&"hello missing".to_string());
    assert_eq!(missing.len(), 0);
}

#[test]
fn remove_clears_secondaries() {
    let mut st = Storage::open(&mem_opts());
    st.insert("a".to_string(), doc("d1", Some("u1"), &["t1"], &[], "hello world"));
    st.remove("a".to_string());
    assert!(st.lookup(&"a".to_string()).is_none());
    assert!(st.lookup_by_index(&"u1".to_string()).is_none());
    assert_eq!(st.lookup_by_tag(&"t1".to_string()).len(), 0);
    assert_eq!(st.search(&"hello".to_string()).len(), 0);
}

#[test]
fn replace_updates_secondaries() {
    let mut st = Storage::open(&mem_opts());
    st.insert("a".to_string(), doc("v1", Some("u1"), &["t1"], &[], "old words"));
    st.insert("a".to_string(), doc("v2", Some("u2"), &["t2"], &[], "new words"));
    assert!(st.lookup_by_index(&"u1".to_string()).is_none());
    assert_eq!(st.lookup_by_index(&"u2".to_string()).unwrap().1.content, "v2");
    assert_eq!(st.lookup_by_tag(&"t1".to_string()).len(), 0);
    assert_eq!(st.lookup_by_tag(&"t2".to_string()).len(), 1);
    assert_eq!(st.search(&"old".to_string()).len(), 0);
    assert_eq!(st.search(&"new".to_string()).len(), 1);
    assert_eq!(st.search(&"words".to_string()).len(), 1);
}

#[test]
fn subscriber_ordering() {
    let mut st = Storage::open(&mem_opts());
    let id = st.subscribe();
    st.insert("k1".to_string(), doc("1", None, &[], &[], ""));
    st.insert("k2".to_string(), doc("2", None, &[], &[], ""));
    st.insert("k3".to_string(), doc("3", None, &[], &[], ""));
    let evs = st.fetch_events(id);
    assert_eq!(evs.len(), 4);
    assert!(matches!(evs[0], Event::Subscribed));
    for (i, want) in ["k1", "k2", "k3"].iter().enumerate() {
        match &evs[i + 1] {
            Event::Query(RQuery::Insert(k, _)) => assert_eq!(k, want),
            _ => panic!("unexpected event"),
        }
    }
    // a later subscriber sees only later mutations
    let id2 = st.subscribe();
    st.remove("k2".to_string());
    let evs2 = st.fetch_events(id2);
    assert_eq!(evs2.len(), 2);
    assert!(matches!(evs2[0], Event::Subscribed));
    assert!(matches!(&evs2[1], Event::Query(RQuery::Remove(k)) if k == "k2"));
}

#[test]
fn same_key_two_writers() {
    for order in 0..2 {
        let mut st = Storage::open(&mem_opts());
        let da = doc("A", Some("ua"), &["ta"], &[], "alpha");
        let db = doc("B", Some("ub"), &["tb"], &[], "beta");
        if order == 0 {
            st.insert("k".to_string(), da);
            st.insert("k".to_string(), db);
        } else {
            st.insert("k".to_string(), db);
            st.insert("k".to_string(), da);
        }
        let got = st.lookup(&"k".to_string()).unwrap();
        assert!(got.content == "A" || got.content == "B");
        st.remove("k".to_string());
        // no secondary map keeps a dangling reference
        assert_eq!(st.lookup_by_tag(&"ta".to_string()).len(), 0);
        assert_eq!(st.lookup_by_tag(&"tb".to_string()).len(), 0);
        assert!(st.lookup_by_index(&"ua".to_string()).is_none());
        assert!(st.lookup_by_index(&"ub".to_string()).is_none());
        assert_eq!(st.search(&"alpha".to_string()).len(), 0);
        assert_eq!(st.search(&"beta".to_string()).len(), 0);
    }
}

#[test]
fn index_collision_last_writer_wins() {
    let mut st = Storage::open(&mem_opts());
    st.insert("a".to_string(), doc("first", Some("u"), &[], &[], ""));
    st.insert("b".to_string(), doc("second", Some("u"), &[], &[], ""));
    let (k, d) = st.lookup_by_index(&"u".to_string()).unwrap();
    assert_eq!(k, "b");
    assert_eq!(d.content, "second");
    st.remove("b".to_string());
    // the overwritten entry is gone with its last writer
    assert!(st.lookup_by_index(&"u".to_string()).is_none());
    // the first document itself is still there
    assert_eq!(st.lookup(&"a".to_string()).unwrap().content, "first");
}

#[test]
fn fetch_view_membership() {
    let mut st = Storage::open(&mem_opts());
    st.insert("a".to_string(), doc("d", None, &[], &[("v1", true), ("v2", false)], ""));
    let v1 = st.fetch_view(&"v1".to_string());
    assert_eq!(v1.len(), 1);
    assert_eq!(v1[0].0, "a");
    assert_eq!(st.fetch_view(&"v2".to_string()).len(), 0);
}

#[test]
fn gets_keeps_order_and_skips_absent() {
    let mut st = Storage::open(&mem_opts());
    st.insert("a".to_string(), doc("1", None, &[], &[], ""));
    st.insert("b".to_string(), doc("2", None, &[], &[], ""));
    let keys = vec!["b".to_string(), "missing".to_string(), "a".to_string()];
    let got = st.gets(&keys);
    assert_eq!(got.len(), 2);
    assert_eq!(got[0].0, "b");
    assert_eq!(got[1].0, "a");
}

#[test]
fn range_is_inclusive_and_ordered() {
    let mut st = Storage::open(&mem_opts());
    for k in ["c", "a", "d", "b"] {
        st.insert(k.to_string(), doc(k, None, &[], &[], ""));
    }
    let r = st.range("any-field", &"a".to_string(), &"c".to_string());
    let keys: Vec<&str> = r.iter().map(|p| p.0.as_str()).collect();
    assert_eq!(keys, vec!["a", "b", "c"]);
}

#[test]
fn iter_is_sorted_and_complete() {
    let mut st = Storage::open(&mem_opts());
    for k in ["b", "a", "c"] {
        st.insert(k.to_string(), doc(k, Some(&format!("i-{k}")), &["t"], &[], ""));
    }
    let all = st.iter();
    let keys: Vec<&str> = all.iter().map(|p| p.0.as_str()).collect();
    assert_eq!(keys, vec!["a", "b", "c"]);
    let idx = st.iter_index();
    assert_eq!(idx.len(), 3);
    let tags = st.iter_tags();
    assert_eq!(tags.len(), 1);
    assert_eq!(tags[0].1.len(), 3);
}

#[test]
fn search_tokenisation_rules() {
    let mut st = Storage::open(&mem_opts());
    st.insert("a".to_string(), doc("d", None, &[], &[], "Hello, WORLD-42 x"));
    // lowercase and punctuation splitting
    assert_eq!(st.search(&"hello".to_string()).len(), 1);
    assert_eq!(st.search(&"world".to_string()).len(), 1);
    assert_eq!(st.search(&"42".to_string()).len(), 1);
    // a query whose tokens all vanish (shorter than two code points)
    // constrains nothing: every document matches
    assert_eq!(st.search(&"x".to_string()).len(), 1);
    assert_eq!(st.search(&"".to_string()).len(), 1);
    // all tokens must match
    assert_eq!(st.search(&"hello world".to_string()).len(), 1);
    assert_eq!(st.search(&"hello absent".to_string()).len(), 0);
}

#[test]
fn unsubscribed_sink_stops_receiving() {
    let mut st = Storage::open(&mem_opts());
    let id = st.subscribe();
    st.insert("k1".to_string(), doc("1", None, &[], &[], ""));
    st.unsubscribe(id);
    st.insert("k2".to_string(), doc("2", None, &[], &[], ""));
    let evs = st.fetch_events(id);
    assert_eq!(evs.len(), 2);
    assert!(matches!(evs[0], Event::Subscribed));
    assert!(matches!(&evs[1], Event::Query(RQuery::Insert(k, _)) if k == "k1"));
}

#[test]
fn fetch_is_incremental() {
    let mut st = Storage::open(&mem_opts());
    let id = st.subscribe();
    st.insert("k1".to_string(), doc("1", None, &[], &[], ""));
    let first = st.fetch_events(id);
    assert_eq!(first.len(), 2);
    // nothing new: the cursor moved to the end of the trace
    assert_eq!(st.fetch_events(id).len(), 0);
    st.insert("k2".to_string(), doc("2", None, &[], &[], ""));
    let second = st.fetch_events(id);
    assert_eq!(second.len(), 1);
    assert!(matches!(&second[0], Event::Query(RQuery::Insert(k, _)) if k == "k2"));
}
