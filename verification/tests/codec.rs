use jjt::codec;
use jjt::task::{Link, LinkKind, Note, Status, Task};

fn ts(text: &str) -> i64 {
    text.parse::<chrono::DateTime<chrono::Utc>>().unwrap().timestamp()
}

#[test]
fn round_trip() {
    let input = "\
id: jt-a1b2
status: open
summary: Refactor auth module
priority: 2
agent:
change: zxkpmory
created: 2026-02-16T10:00:00+00:00
updated: 2026-02-16T10:00:00+00:00
blocked_by: jt-c3d4 jt-e5f6
links: jt-g7h8/relates_to jt-i9j0/supersedes

--- casey 2026-02-16T10:05:00+00:00
Auth module has 3 providers,
need to handle each separately.

--- casey 2026-02-16T10:12:00+00:00
Started with OAuth provider.
";

    let task = Task::parse(input, 0).unwrap();
    assert_eq!(task.id, "jt-a1b2");
    assert_eq!(task.status, Status::Open);
    assert_eq!(task.summary, "Refactor auth module");
    assert_eq!(task.priority, 2);
    assert!(task.agent.is_none());
    assert_eq!(task.change.as_deref(), Some("zxkpmory"));
    assert_eq!(task.blocked_by, vec!["jt-c3d4", "jt-e5f6"]);
    assert_eq!(task.links.len(), 2);
    assert_eq!(task.notes.len(), 2);
    assert_eq!(task.notes[0].author, "casey");
    assert!(task.notes[0].body.contains("3 providers"));

    // Round-trip
    let serialized = task.serialize();
    let task2 = Task::parse(&serialized, 0).unwrap();
    assert_eq!(task2.id, task.id);
    assert_eq!(task2.status, task.status);
    assert_eq!(task2.summary, task.summary);
    assert_eq!(task2.blocked_by, task.blocked_by);
    assert_eq!(task2.notes.len(), task.notes.len());
}

#[test]
fn minimal_task() {
    let input = "\
id: jt-0001
summary: Do something
";
    let task = Task::parse(input, 0).unwrap();
    assert_eq!(task.id, "jt-0001");
    assert_eq!(task.status, Status::Open);
    assert_eq!(task.priority, 2);
    assert!(task.blocked_by.is_empty());
    assert!(task.notes.is_empty());
}

fn full_task() -> Task {
    Task {
        id: String::from("jt-77aa"),
        status: Status::Claimed,
        summary: String::from("Handle the edge: cases"),
        priority: 5,
        agent: Some(String::from("bot")),
        change: Some(String::from("xyzzy")),
        created: ts("2026-02-16T10:00:00+00:00"),
        updated: ts("2026-02-17T11:30:05+00:00"),
        blocked_by: vec![String::from("jt-0001"), String::from("jt-0002")],
        links: vec![
            Link { target: String::from("jt-0003"), kind: LinkKind::RelatesTo },
            Link { target: String::from("jt-0003"), kind: LinkKind::Duplicates },
            Link { target: String::from("jt-0004"), kind: LinkKind::Supersedes },
        ],
        notes: vec![
            Note {
                author: String::from("bot"),
                timestamp: ts("2026-02-16T10:05:00+00:00"),
                body: String::from("first note\n"),
            },
            Note {
                author: String::from("someone"),
                timestamp: ts("2026-02-16T12:00:00+00:00"),
                body: String::from("two lines\n\nwith a blank inside"),
            },
        ],
    }
}

#[test]
fn round_trip_law_full() {
    // The verified round trip: every field survives encode then decode.
    let t = full_task();
    let back = codec::round_trip(&t, 0);
    assert_eq!(back.id, t.id);
    assert_eq!(back.status, t.status);
    assert_eq!(back.summary, t.summary);
    assert_eq!(back.priority, t.priority);
    assert_eq!(back.agent, t.agent);
    assert_eq!(back.change, t.change);
    assert_eq!(back.created, t.created);
    assert_eq!(back.updated, t.updated);
    assert_eq!(back.blocked_by, t.blocked_by);
    assert_eq!(back.links.len(), t.links.len());
    for (a, b) in back.links.iter().zip(t.links.iter()) {
        assert_eq!(a.target, b.target);
        assert_eq!(a.kind, b.kind);
    }
    assert_eq!(back.notes.len(), t.notes.len());
    for (a, b) in back.notes.iter().zip(t.notes.iter()) {
        assert_eq!(a.author, b.author);
        assert_eq!(a.timestamp, b.timestamp);
        assert_eq!(a.body, b.body);
    }
}

#[test]
fn round_trip_law_empty_lists() {
    let mut t = full_task();
    t.blocked_by = vec![];
    t.links = vec![];
    t.notes = vec![];
    t.agent = None;
    t.change = None;
    let back = codec::round_trip(&t, 0);
    assert!(back.blocked_by.is_empty());
    assert!(back.links.is_empty());
    assert!(back.notes.is_empty());
    assert!(back.agent.is_none());
}

#[test]
fn round_trip_law_one_note() {
    let mut t = full_task();
    t.notes.truncate(1);
    // A sole note is the last one: its body carries no trailing newline.
    t.notes[0].body = String::from("first note");
    let back = codec::round_trip(&t, 0);
    assert_eq!(back.notes.len(), 1);
    assert_eq!(back.notes[0].body, "first note");
}

#[test]
fn parse_keeps_bodies_as_joined_lines() {
    // A decoded body is the section's lines joined with newlines, nothing
    // added: the blank line before the next note joins into the body it
    // closes, and the record's end supplies nothing.
    let input = "\
id: jt-1
summary: x

--- ana 2026-02-16T10:00:00+00:00
first

--- ben 2026-02-16T10:05:00+00:00
last line
";
    let t = Task::parse(input, 0).unwrap();
    assert_eq!(t.notes.len(), 2);
    assert_eq!(t.notes[0].body, "first\n");
    assert_eq!(t.notes[1].body, "last line");
}

#[test]
fn serialize_exact_text() {
    // Pins the wire text, timestamp renderings included, so a formatter
    // that handed its input back unchanged would fail here.
    let mut t = full_task();
    t.blocked_by = vec![String::from("jt-0001")];
    t.links = vec![Link { target: String::from("jt-0003"), kind: LinkKind::RelatesTo }];
    t.notes = vec![Note {
        author: String::from("bot"),
        timestamp: ts("2026-02-16T10:05:00+00:00"),
        body: String::from("first note\n"),
    }];
    let expected = "\
id: jt-77aa
status: claimed
summary: Handle the edge: cases
priority: 5
agent: bot
change: xyzzy
created: 2026-02-16T10:00:00+00:00
updated: 2026-02-17T11:30:05+00:00
blocked_by: jt-0001
links: jt-0003/relates_to

--- bot 2026-02-16T10:05:00+00:00
first note
";
    assert_eq!(t.serialize(), expected);
}

#[test]
fn parse_defaults_and_unknown_keys() {
    let input = "\
id: jt-0others
flavor: unknown keys are ignored
summary: Keep going
priority: 4
";
    let t = Task::parse(input, 1234).unwrap();
    assert_eq!(t.priority, 4);
    // Missing timestamps fall back to the caller's clock.
    assert_eq!(t.created, 1234);
    assert_eq!(t.updated, 1234);
}

#[test]
fn empty_valued_lines_read_as_unset() {
    // A `key: ` with nothing after it means the same as no line at all.
    let input = "\
id: jt-1
summary: x
agent:
change:
blocked_by:
";
    let t = Task::parse(input, 0).unwrap();
    assert!(t.agent.is_none());
    assert!(t.change.is_none());
    assert!(t.blocked_by.is_empty());
}

#[test]
fn parse_error_bad_status() {
    let input = "id: jt-1\nstatus: resting\nsummary: x\n";
    assert_eq!(Task::parse(input, 0).unwrap_err(), codec::ParseErr::BadStatus);
}

#[test]
fn parse_error_bad_priority() {
    let input = "id: jt-1\nsummary: x\npriority: high\n";
    assert_eq!(Task::parse(input, 0).unwrap_err(), codec::ParseErr::BadPriority);
}

#[test]
fn parse_error_bad_timestamp() {
    let input = "id: jt-1\nsummary: x\ncreated: yesterday\n";
    assert_eq!(Task::parse(input, 0).unwrap_err(), codec::ParseErr::BadTimestamp);
}

#[test]
fn parse_error_bad_link() {
    let input = "id: jt-1\nsummary: x\nlinks: jt-2\n";
    assert_eq!(Task::parse(input, 0).unwrap_err(), codec::ParseErr::BadLink);
    let input2 = "id: jt-1\nsummary: x\nlinks: jt-2/worships\n";
    assert_eq!(Task::parse(input2, 0).unwrap_err(), codec::ParseErr::BadLinkKind);
}

#[test]
fn parse_error_bad_note_header() {
    let input = "id: jt-1\nsummary: x\n\n--- loneauthor\nbody\n";
    assert_eq!(Task::parse(input, 0).unwrap_err(), codec::ParseErr::BadNoteHeader);
}

#[test]
fn parse_error_missing_id_or_summary() {
    assert_eq!(
        Task::parse("summary: x\n", 0).unwrap_err(),
        codec::ParseErr::MissingId
    );
    assert_eq!(
        Task::parse("id: jt-1\n", 0).unwrap_err(),
        codec::ParseErr::MissingSummary
    );
}

#[test]
fn parse_timestamp_round_trips_through_chrono() {
    // The parser reads what chrono writes: one exact instant.
    let input = "id: jt-1\nsummary: x\ncreated: 2026-02-16T10:00:00+00:00\n";
    let t = Task::parse(input, 0).unwrap();
    assert_eq!(t.created, 1771236000);
    // Instants before the epoch are instants all the same.
    let early = "id: jt-1\nsummary: x\ncreated: 1969-12-31T23:59:59+00:00\n";
    let t = Task::parse(early, 0).unwrap();
    assert_eq!(t.created, -1);
}

#[test]
fn priority_extremes_round_trip() {
    let mut t = full_task();
    t.priority = 255;
    let back = codec::round_trip(&t, 0);
    assert_eq!(back.priority, 255);
    t.priority = 0;
    let back = codec::round_trip(&t, 0);
    assert_eq!(back.priority, 0);
}
