use jjt::store::Store;
use jjt::task::{Error, LinkKind, Status, Task};

fn open_task(id: &str) -> Task {
    Task {
        id: String::from(id),
        status: Status::Open,
        summary: String::from("something"),
        priority: 2,
        agent: None,
        change: None,
        created: 100,
        updated: 100,
        blocked_by: vec![],
        links: vec![],
        notes: vec![],
    }
}

#[test]
fn claim_open_task() {
    let mut t = open_task("jt-0001");
    t.claim(String::from("bot"), 200).unwrap();
    assert_eq!(t.status, Status::Claimed);
    assert_eq!(t.agent.as_deref(), Some("bot"));
    assert_eq!(t.updated, 200);
}

#[test]
fn claim_done_fails_already_done() {
    let mut t = open_task("jt-0001");
    t.status = Status::Done;
    assert_eq!(t.claim(String::from("bot"), 200).unwrap_err(), Error::AlreadyDone);
    assert_eq!(t.status, Status::Done);
}

#[test]
fn claim_claimed_fails_naming_claimant() {
    let mut t = open_task("jt-0001");
    t.claim(String::from("alice"), 150).unwrap();
    match t.claim(String::from("bob"), 200).unwrap_err() {
        Error::AlreadyClaimed(by) => assert_eq!(by, "alice"),
        other => panic!("expected AlreadyClaimed, got {other:?}"),
    }
    // The same claimant asking again is refused all the same.
    match t.claim(String::from("alice"), 200).unwrap_err() {
        Error::AlreadyClaimed(by) => assert_eq!(by, "alice"),
        other => panic!("expected AlreadyClaimed, got {other:?}"),
    }
}

#[test]
fn done_appends_closing_note() {
    let mut t = open_task("jt-0001");
    t.claim(String::from("bot"), 150).unwrap();
    t.done(Some(String::from("all sorted")), None, 300).unwrap();
    assert_eq!(t.status, Status::Done);
    assert_eq!(t.updated, 300);
    assert_eq!(t.notes.len(), 1);
    assert_eq!(t.notes[0].author, "bot");
    assert_eq!(t.notes[0].body, "all sorted");
    // The claimant stays on the record; only reopen clears it.
    assert_eq!(t.agent.as_deref(), Some("bot"));
    assert_eq!(t.done(None, None, 400).unwrap_err(), Error::AlreadyDone);
}

#[test]
fn reopen_always_clears_agent() {
    let mut claimed = open_task("jt-0001");
    claimed.claim(String::from("bot"), 150).unwrap();
    claimed.reopen(300);
    assert_eq!(claimed.status, Status::Open);
    assert!(claimed.agent.is_none());
    assert_eq!(claimed.updated, 300);

    let mut done = open_task("jt-0002");
    done.claim(String::from("bot"), 150).unwrap();
    done.done(None, None, 200).unwrap();
    done.reopen(300);
    assert_eq!(done.status, Status::Open);
    assert!(done.agent.is_none());
}

#[test]
fn block_self_fails_self_block() {
    let mut t = open_task("jt-0001");
    assert_eq!(t.block(String::from("jt-0001"), 200).unwrap_err(), Error::SelfBlock);
    assert!(t.blocked_by.is_empty());
}

#[test]
fn block_duplicate_fails() {
    let mut t = open_task("jt-0001");
    t.block(String::from("jt-0002"), 200).unwrap();
    assert_eq!(
        t.block(String::from("jt-0002"), 210).unwrap_err(),
        Error::DuplicateBlock
    );
    assert_eq!(t.blocked_by, vec!["jt-0002"]);
}

#[test]
fn unblock_removes_or_fails() {
    let mut t = open_task("jt-0001");
    t.block(String::from("jt-0002"), 200).unwrap();
    assert_eq!(
        t.unblock(&String::from("jt-0003"), 210).unwrap_err(),
        Error::NotBlocked
    );
    t.unblock(&String::from("jt-0002"), 220).unwrap();
    assert!(t.blocked_by.is_empty());
}

#[test]
fn link_rejects_duplicate_pair_only() {
    let mut t = open_task("jt-0001");
    t.link(String::from("jt-0002"), LinkKind::RelatesTo, 200).unwrap();
    // The same target under another kind is a different link.
    t.link(String::from("jt-0002"), LinkKind::Duplicates, 210).unwrap();
    assert_eq!(
        t.link(String::from("jt-0002"), LinkKind::RelatesTo, 220).unwrap_err(),
        Error::DuplicateLink
    );
    assert_eq!(t.links.len(), 2);
}

#[test]
fn note_author_resolution_chain() {
    let mut t = open_task("jt-0001");
    t.note(Some(String::from("writer")), Some(String::from("env")), String::from("a"), 200);
    assert_eq!(t.notes[0].author, "writer");
    t.note(None, Some(String::from("env")), String::from("b"), 210);
    assert_eq!(t.notes[1].author, "env");
    t.claim(String::from("bot"), 220).unwrap();
    t.note(None, Some(String::from("env")), String::from("c"), 230);
    assert_eq!(t.notes[2].author, "bot");
    let mut bare = open_task("jt-0002");
    bare.note(None, None, String::from("d"), 240);
    assert_eq!(bare.notes[0].author, "unknown");
}

#[test]
fn blocked_follows_the_blocker_status() {
    let mut store = Store::new();
    let mut x = open_task("jt-000x");
    x.blocked_by = vec![String::from("jt-000y")];
    let y = open_task("jt-000y");
    store.save(x);
    store.save(y);
    let xr = store.load(&String::from("jt-000x")).unwrap().clone();
    assert!(store.is_blocked(&xr));

    // Once the blocker is done, the dependent is free with no change of
    // its own.
    let mut y2 = store.load(&String::from("jt-000y")).unwrap().clone();
    y2.done(None, None, 300).unwrap();
    store.save(y2);
    assert!(!store.is_blocked(&xr));

    // A blocker that no longer resolves blocks nothing.
    store.delete(&String::from("jt-000y")).unwrap();
    assert!(!store.is_blocked(&xr));
}

#[test]
fn end_to_end_lifecycle() {
    let mut store = Store::new();
    let x = store.create(String::from("Refactor auth"), 1, None, 1000).unwrap();
    let y = store.create(String::from("Upstream dep"), 2, None, 1001).unwrap();

    // Claim X.
    let mut xt = store.load(&x).unwrap().clone();
    xt.claim(String::from("bot"), 1002).unwrap();
    assert_eq!(xt.status, Status::Claimed);
    assert_eq!(xt.agent.as_deref(), Some("bot"));
    store.save(xt);

    // Block X on Y: the ready listing excludes X.
    let mut xt = store.load(&x).unwrap().clone();
    xt.block(y.clone(), 1003).unwrap();
    store.save(xt);
    let ready_ids: Vec<String> = store
        .select_rows(jjt::store::ListFilter::Ready, &None)
        .iter()
        .map(|r| store.tasks[r.0].id.clone())
        .collect();
    assert!(!ready_ids.contains(&x));

    // Mark Y done: X is claimed, so reopen it and see it become ready.
    let mut yt = store.load(&y).unwrap().clone();
    yt.done(None, None, 1004).unwrap();
    store.save(yt);
    let mut xt = store.load(&x).unwrap().clone();
    xt.reopen(1005);
    store.save(xt);
    let ready_ids: Vec<String> = store
        .select_rows(jjt::store::ListFilter::Ready, &None)
        .iter()
        .map(|r| store.tasks[r.0].id.clone())
        .collect();
    assert!(ready_ids.contains(&x));

    // Finish X and let it decay.
    let mut xt = store.load(&x).unwrap().clone();
    xt.done(None, None, 1006).unwrap();
    store.save(xt);
    let cutoff = jjt::store::decay_cutoff(2000, 0);
    let (removed, log) = store.decay(cutoff, 2000);
    assert!(removed.contains(&x));
    let log = log.unwrap();
    assert_eq!(log.matches(x.as_str()).count(), 1);
    let listed: Vec<String> = store.tasks.iter().map(|t| t.id.clone()).collect();
    assert!(!listed.contains(&x));
}
