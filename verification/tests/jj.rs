use jjt::jj::Jj;

#[test]
fn command_argument_lists() {
    assert_eq!(Jj::check_repo(), vec!["root"]);
    assert_eq!(Jj::bookmark_list_args(), vec!["bookmark", "list"]);
    assert_eq!(
        Jj::init_root_args(),
        vec!["new", "root()", "--no-edit", "-m", "jjt root"]
    );
    assert_eq!(
        Jj::bookmark_create_args("abc123"),
        vec!["bookmark", "create", "jjt", "-r", "abc123"]
    );
    assert_eq!(
        Jj::create_child("id: jt-1\nsummary: x\n"),
        vec!["new", "jjt", "--no-edit", "-m", "id: jt-1\nsummary: x\n"]
    );
    assert_eq!(
        Jj::get_description_args("abc123"),
        vec!["log", "-r", "abc123", "--no-graph", "-T", "description"]
    );
    assert_eq!(
        Jj::describe("abc123", "new text"),
        vec!["describe", "-r", "abc123", "-m", "new text"]
    );
    assert_eq!(Jj::abandon("abc123"), vec!["abandon", "abc123"]);
    let list = Jj::list_records_args();
    assert_eq!(list.len(), 6);
    assert_eq!(list[0], "log");
    assert!(list[5].contains("<<JJT:END>>"));
}

#[test]
fn bookmark_taken_scans_lines() {
    assert!(Jj::bookmark_taken("jjt: abc123\nother: def\n"));
    assert!(Jj::bookmark_taken("other\njjt def456\n"));
    assert!(Jj::bookmark_taken("jjt"));
    assert!(!Jj::bookmark_taken("jj: something\nmain: abc\n"));
    assert!(!Jj::bookmark_taken(""));
}

#[test]
fn parse_change_id_from_announcement() {
    let stderr = "\
Working copy now at: abc\n  Created new commit xyzkqpmr 1f2e3d task text\nsomething else\n";
    assert_eq!(Jj::parse_change_id(stderr).as_deref(), Some("xyzkqpmr"));
    assert_eq!(Jj::parse_change_id("nothing relevant\n"), None);
    assert_eq!(Jj::parse_change_id("Created new commit \n"), None);
}

#[test]
fn list_task_records_reads_blocks() {
    let out = "\
<<JJT:abcdef123456>>
id: jt-0001
summary: first

<<JJT:END>>
<<JJT:fedcba654321>>
id: jt-0002
summary: second
<<JJT:END>>
";
    let records = Jj::list_task_records(out);
    assert_eq!(records.len(), 2);
    assert_eq!(records[0].0, "abcdef123456");
    assert!(records[0].1.contains("summary: first"));
    assert_eq!(records[1].0, "fedcba654321");
    assert!(records[1].1.contains("id: jt-0002"));
}

#[test]
fn list_task_records_skips_junk() {
    assert!(Jj::list_task_records("").is_empty());
    assert!(Jj::list_task_records("noise without markers").is_empty());
    let half = "<<JJT:abc>>\ndesc\n<<JJT:END>>\nleftover without header\n";
    let records = Jj::list_task_records(half);
    assert_eq!(records.len(), 1);
    assert_eq!(records[0].0, "abc");
    assert_eq!(records[0].1, "desc");
}
