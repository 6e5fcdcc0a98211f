use jjt::store::{ListFilter, Store};
use jjt::task::{Error, Status, Task};

fn bare(id: &str, created: i64) -> Task {
    Task {
        id: String::from(id),
        status: Status::Open,
        summary: format!("task {id}"),
        priority: 2,
        agent: None,
        change: None,
        created,
        updated: created,
        blocked_by: vec![],
        links: vec![],
        notes: vec![],
    }
}

#[test]
fn create_yields_distinct_ids() {
    let mut store = Store::new();
    let a = store.create(String::from("one"), 1, None, 100).unwrap();
    let b = store.create(String::from("two"), 2, None, 200).unwrap();
    let c = store.create(String::from("three"), 3, None, 300).unwrap();
    assert_ne!(a, b);
    assert_ne!(a, c);
    assert_ne!(b, c);
    assert_eq!(store.tasks.len(), 3);
    for id in [&a, &b, &c] {
        assert!(id.starts_with("jt-"));
        assert_eq!(id.len(), 7);
        // A full id resolves to exactly itself.
        assert_eq!(store.resolve_id(id).unwrap().as_str(), id.as_str());
    }
}

#[test]
fn resolve_prefix_unique() {
    let mut store = Store::new();
    store.save(bare("jt-ab12", 1));
    store.save(bare("jt-cd34", 2));
    assert_eq!(store.resolve_id("ab").unwrap(), "jt-ab12");
    assert_eq!(store.resolve_id("jt-cd").unwrap(), "jt-cd34");
}

#[test]
fn resolve_prefix_not_found() {
    let mut store = Store::new();
    store.save(bare("jt-ab12", 1));
    assert_eq!(store.resolve_id("zz").unwrap_err(), Error::NotFound);
}

#[test]
fn resolve_prefix_ambiguous_lists_all() {
    let mut store = Store::new();
    store.save(bare("jt-ab12", 1));
    store.save(bare("jt-ab34", 2));
    store.save(bare("jt-cd00", 3));
    match store.resolve_id("ab").unwrap_err() {
        Error::Ambiguous(ids) => {
            assert_eq!(ids, vec!["jt-ab12", "jt-ab34"]);
        },
        other => panic!("expected Ambiguous, got {other:?}"),
    }
}

#[test]
fn save_is_idempotent() {
    let mut store = Store::new();
    store.save(bare("jt-ab12", 1));
    store.save(bare("jt-ab12", 1));
    assert_eq!(store.tasks.len(), 1);
}

#[test]
fn load_and_delete() {
    let mut store = Store::new();
    store.save(bare("jt-ab12", 1));
    assert_eq!(store.load(&String::from("jt-ab12")).unwrap().summary, "task jt-ab12");
    assert_eq!(
        store.load(&String::from("jt-zzzz")).unwrap_err(),
        Error::NotFound
    );
    store.delete(&String::from("jt-ab12")).unwrap();
    assert!(store.tasks.is_empty());
    assert_eq!(
        store.delete(&String::from("jt-ab12")).unwrap_err(),
        Error::NotFound
    );
}

#[test]
fn listing_is_sorted_by_creation_then_id() {
    let mut store = Store::new();
    store.save(bare("jt-bbbb", 50));
    store.save(bare("jt-aaaa", 50));
    store.save(bare("jt-cccc", 10));
    store.sort_for_listing();
    let ids: Vec<&str> = store.tasks.iter().map(|t| t.id.as_str()).collect();
    assert_eq!(ids, vec!["jt-cccc", "jt-aaaa", "jt-bbbb"]);
}

#[test]
fn select_rows_filters() {
    let mut store = Store::new();
    let mut open_free = bare("jt-0001", 1);
    open_free.summary = String::from("free");
    let mut blocked = bare("jt-0002", 2);
    blocked.blocked_by = vec![String::from("jt-0001")];
    let mut mine = bare("jt-0003", 3);
    mine.status = Status::Claimed;
    mine.agent = Some(String::from("me"));
    let mut done = bare("jt-0004", 4);
    done.status = Status::Done;
    store.save(open_free);
    store.save(blocked);
    store.save(mine);
    store.save(done);

    let agent = Some(String::from("me"));
    let ready = store.select_rows(ListFilter::Ready, &None);
    assert_eq!(ready.iter().map(|r| r.0).collect::<Vec<_>>(), vec![0]);
    let blocked_rows = store.select_rows(ListFilter::Blocked, &None);
    assert_eq!(blocked_rows.iter().map(|r| r.0).collect::<Vec<_>>(), vec![1]);
    assert!(blocked_rows[0].1);
    let mine_rows = store.select_rows(ListFilter::Mine, &agent);
    assert_eq!(mine_rows.iter().map(|r| r.0).collect::<Vec<_>>(), vec![2]);
    let done_rows = store.select_rows(ListFilter::Done, &None);
    assert_eq!(done_rows.iter().map(|r| r.0).collect::<Vec<_>>(), vec![3]);
    let all = store.select_rows(ListFilter::All, &None);
    assert_eq!(all.len(), 4);
    let default = store.select_rows(ListFilter::Default, &None);
    assert_eq!(default.iter().map(|r| r.0).collect::<Vec<_>>(), vec![0, 1, 2]);
}

#[test]
fn decay_removes_old_done_once() {
    let mut store = Store::new();
    let mut old_done = bare("jt-0001", 10);
    old_done.status = Status::Done;
    old_done.updated = 10;
    let mut fresh_done = bare("jt-0002", 20);
    fresh_done.status = Status::Done;
    fresh_done.updated = 500;
    let live = bare("jt-0003", 30);
    store.save(old_done);
    store.save(fresh_done);
    store.save(live);

    let (removed, log) = store.decay(100, 1000);
    assert_eq!(removed, vec!["jt-0001"]);
    let log = log.unwrap();
    assert_eq!(log.matches("jt-0001:").count(), 1);
    assert!(log.starts_with("# decayed "));
    assert!(log.contains("task jt-0001"));
    assert_eq!(store.tasks.len(), 2);

    // Nothing newly eligible: a second run decays zero both times.
    let (removed2, log2) = store.decay(100, 1000);
    assert!(removed2.is_empty());
    assert!(log2.is_none());
    assert_eq!(store.tasks.len(), 2);
}

#[test]
fn decay_log_entry_text() {
    let mut store = Store::new();
    let mut t = bare("jt-0001", 10);
    t.summary = String::from("finish the report");
    t.status = Status::Done;
    t.updated = 1771236000; // 2026-02-16T10:00:00+00:00
    store.save(t);
    let (removed, log) = store.decay(i64::MAX, 1771236000);
    assert_eq!(removed.len(), 1);
    assert_eq!(
        log.unwrap(),
        "# decayed 2026-02-16T10:00:00+00:00\njt-0001: finish the report (done 2026-02-16)\n\n"
    );
}

#[test]
fn parse_days_forms() {
    assert_eq!(jjt::store::parse_days("7d"), 7);
    assert_eq!(jjt::store::parse_days("30d"), 30);
    assert_eq!(jjt::store::parse_days("0d"), 0);
    assert_eq!(jjt::store::parse_days("-3d"), -3);
    assert_eq!(jjt::store::parse_days("7"), 7);
    assert_eq!(jjt::store::parse_days("xd"), 7);
    assert_eq!(jjt::store::parse_days(""), 7);
    assert_eq!(jjt::store::parse_days("d"), 7);
    // Any count a 64-bit number can carry is read; past that, the default.
    assert_eq!(jjt::store::parse_days("9999999999d"), 9999999999);
    assert_eq!(jjt::store::parse_days("0000000000000000000031d"), 31);
    assert_eq!(jjt::store::parse_days("9223372036854775807d"), i64::MAX);
    assert_eq!(jjt::store::parse_days("-9223372036854775808d"), i64::MIN);
    assert_eq!(jjt::store::parse_days("9223372036854775808d"), 7);
    assert_eq!(jjt::store::parse_days("-9223372036854775809d"), 7);
}

#[test]
fn decay_cutoff_clamps() {
    assert_eq!(jjt::store::decay_cutoff(1000, 7), 1000 - 7 * 86400);
    assert_eq!(jjt::store::decay_cutoff(0, i64::MAX / 86400 + 2), i64::MIN);
    assert_eq!(jjt::store::decay_cutoff(0, -(i64::MAX / 86400 + 2)), i64::MAX);
}

#[test]
fn next_id_avoids_collisions_with_store() {
    let mut store = Store::new();
    store.save(bare("jt-ab12", 1));
    let id = store.next_id().unwrap();
    assert_ne!(id, "jt-ab12");
    assert!(id.starts_with("jt-"));
    assert_eq!(id.len(), 7);
}

#[test]
fn render_id_pins_every_digit() {
    assert_eq!(jjt::id::render_id(0xab12), "jt-ab12");
    assert_eq!(jjt::id::render_id(0), "jt-0000");
    assert_eq!(jjt::id::render_id(0xffff), "jt-ffff");
    assert_eq!(jjt::id::render_id(0x0c3f), "jt-0c3f");
}

#[test]
fn generated_ids_have_the_fixed_shape() {
    for _ in 0..50 {
        let id = jjt::id::generate();
        assert_eq!(id.len(), 7);
        assert!(id.starts_with("jt-"));
        assert!(id[3..].chars().all(|c| c.is_ascii_hexdigit() && !c.is_ascii_uppercase()));
    }
}

#[test]
fn task_file_names() {
    assert_eq!(jjt::store::task_path("jt-ab12"), "jt-ab12.task");
    assert_eq!(
        jjt::store::id_from_file_name("jt-ab12.task").as_deref(),
        Some("jt-ab12")
    );
    assert_eq!(jjt::store::id_from_file_name("decay.log"), None);
    assert_eq!(jjt::store::id_from_file_name("x"), None);
}
