use darkbird::document::Document;
use darkbird::storage::{Options, Storage, StorageType};
use darkbird::codec::{decode_record, encode_record, RQuery};
use darkbird::wal::Pager;

fn doc(content: &str, idx: Option<&str>, tags: &[&str], text: &str) -> Document {
    Document {
        content: content.to_string(),
        index_key: idx.map(|s| s.to_string()),
        tags: tags.iter().map(|s| s.to_string()).collect(),
        views: Vec::new(),
        text: text.to_string(),
    }
}

fn disk_opts(page_size: usize) -> Options {
    Options {
        path: "wal".to_string(),
        storage_name: "store".to_string(),
        total_page_size: page_size,
        stype: StorageType::DiskCopies,
    }
}

#[test]
fn codec_round_trip() {
    let d = doc("payload", Some("u1"), &["t1", "t2"], "some text here");
    let rec = RQuery::Insert("key".to_string(), d);
    let bytes = encode_record(&rec);
    match decode_record(&bytes).expect("decodes") {
        RQuery::Insert(k, d2) => {
            assert_eq!(k, "key");
            assert_eq!(d2.content, "payload");
            assert_eq!(d2.index_key.as_deref(), Some("u1"));
            assert_eq!(d2.tags, vec!["t1".to_string(), "t2".to_string()]);
            assert_eq!(d2.text, "some text here");
        },
        _ => panic!("wrong variant"),
    }
    let rm = RQuery::Remove("key".to_string());
    let bytes2 = encode_record(&rm);
    assert!(matches!(decode_record(&bytes2), Some(RQuery::Remove(k)) if k == "key"));
}

#[test]
fn codec_rejects_garbage() {
    assert!(decode_record(&Vec::new()).is_none());
    assert!(decode_record(&vec![9u8, 1, 2, 3]).is_none());
    // a valid record with a trailing byte is refused
    let mut bytes = encode_record(&RQuery::Remove("k".to_string()));
    bytes.push(0);
    assert!(decode_record(&bytes).is_none());
}

#[test]
fn pager_splits_pages() {
    let mut pg = Pager::new(32);
    for i in 0..6 {
        let payload = vec![i as u8; 10];
        pg.append(&payload);
    }
    // 10-byte payloads frame to 14 bytes: two frames per 32-byte page
    assert_eq!(pg.pages().len(), 3);
    for page in pg.pages() {
        assert!(page.len() <= 32);
    }
}

#[test]
fn crash_recovery() {
    let mut st = Storage::open(&disk_opts(4096));
    let mut pg = Pager::new(4096);
    for i in 0..1000 {
        let key = format!("k{:04}", i);
        let d = doc(&format!("doc-{i}"), Some(&format!("idx-{:04}", i)), &[], "");
        let rec = RQuery::Insert(key.clone(), d.clone());
        let bytes = encode_record(&rec);
        pg.append(&bytes);
        st.insert(key, d);
    }
    // close, then reopen from the pages
    drop(st);
    let mut st2 = Storage::open(&disk_opts(4096));
    st2.load_pages(pg.pages());
    let (k, d) = st2.lookup_by_index(&"idx-0500".to_string()).expect("recovered");
    assert_eq!(k, "k0500");
    assert_eq!(d.content, "doc-500");
    assert_eq!(st2.iter().len(), 1000);
}

#[test]
fn tail_truncation_tolerance() {
    let n = 200;
    let mut pg = Pager::new(1024);
    for i in 0..n {
        let key = format!("k{:04}", i);
        let d = doc(&format!("doc-{i}"), Some(&format!("idx-{:04}", i)), &[], "");
        let bytes = encode_record(&RQuery::Insert(key, d));
        pg.append(&bytes);
    }
    let mut pages: Vec<Vec<u8>> = pg.pages().clone();
    let last = pages.len() - 1;
    let cut = pages[last].len() - 3;
    pages[last].truncate(cut);
    let mut st = Storage::open(&disk_opts(1024));
    st.load_pages(&pages);
    let recovered = st.iter().len();
    assert!(recovered >= n - 1);
    assert!(recovered <= n);
}

#[test]
fn recovery_preserves_removes() {
    let mut pg = Pager::new(4096);
    let d1 = doc("one", Some("u1"), &["t"], "alpha");
    let d2 = doc("two", Some("u2"), &["t"], "beta");
    pg.append(&encode_record(&RQuery::Insert("a".to_string(), d1)));
    pg.append(&encode_record(&RQuery::Insert("b".to_string(), d2)));
    pg.append(&encode_record(&RQuery::Remove("a".to_string())));
    let mut st = Storage::open(&disk_opts(4096));
    st.load_pages(pg.pages());
    assert!(st.lookup(&"a".to_string()).is_none());
    assert!(st.lookup_by_index(&"u1".to_string()).is_none());
    assert_eq!(st.lookup_by_tag(&"t".to_string()).len(), 1);
    assert_eq!(st.search(&"alpha".to_string()).len(), 0);
    assert_eq!(st.search(&"beta".to_string()).len(), 1);
    // recovery is silent: a subscriber joining afterwards sees no replayed events
    let id = st.subscribe();
    let evs = st.fetch_events(id);
    assert_eq!(evs.len(), 1);
}

#[test]
fn recovery_equals_live_state() {
    let mut live = Storage::open(&disk_opts(512));
    let mut pg = Pager::new(512);
    let ops: Vec<(bool, &str)> = vec![
        (true, "a"),
        (true, "b"),
        (false, "a"),
        (true, "c"),
        (true, "a"),
    ];
    for (ins, k) in ops {
        if ins {
            let d = doc(&format!("c-{k}"), Some(&format!("u-{k}")), &["t"], "shared text");
            pg.append(&encode_record(&RQuery::Insert(k.to_string(), d.clone())));
            live.insert(k.to_string(), d);
        } else {
            pg.append(&encode_record(&RQuery::Remove(k.to_string())));
            live.remove(k.to_string());
        }
    }
    let mut rec = Storage::open(&disk_opts(512));
    rec.load_pages(pg.pages());
    let a = live.iter();
    let b = rec.iter();
    assert_eq!(a.len(), b.len());
    for (x, y) in a.iter().zip(b.iter()) {
        assert_eq!(x.0, y.0);
        assert_eq!(x.1.content, y.1.content);
    }
    assert_eq!(
        live.lookup_by_tag(&"t".to_string()).len(),
        rec.lookup_by_tag(&"t".to_string()).len()
    );
}

#[test]
fn frame_helpers_match_the_pager() {
    let payload = vec![7u8, 8, 9];
    let framed = darkbird::wal::frame_payload(&payload);
    assert_eq!(framed.len(), 7);
    assert_eq!(&framed[0..4], &[3u8, 0, 0, 0]);
    assert_eq!(&framed[4..], &payload[..]);
    assert!(darkbird::wal::frame_fits(0, 3, 8));
    assert!(!darkbird::wal::frame_fits(2, 3, 8));
}

#[test]
fn clean_prefix_stops_at_damage() {
    let mut pg = Pager::new(64);
    pg.append(&vec![1u8; 10]);
    pg.append(&vec![2u8; 10]);
    let page = &pg.pages()[0];
    assert_eq!(darkbird::wal::clean_prefix_len(page, 0), page.len());
    let mut damaged = page.clone();
    damaged.truncate(damaged.len() - 3);
    // the second frame is incomplete: only the first remains replayable
    assert_eq!(darkbird::wal::clean_prefix_len(&damaged, 0), 14);
}
