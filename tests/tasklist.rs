use tasklist::{encode_line, generate_id, parse_list, render_list, task_from_taskline, Task, TaskList};

const BUY_MILK: &str = "9799a972c6b6f61639d3801277c1994c73208849";
const BUY_OAT_MILK: &str = "4a43af1fb0f25631d0dc887612f28e3feb801668";

fn pairs(list: &TaskList) -> Vec<(String, String)> {
    let mut v: Vec<(String, String)> = list
        .tasks()
        .iter()
        .map(|t| (t.id().to_string(), t.text().to_string()))
        .collect();
    v.sort();
    v
}

#[test]
fn fingerprint_is_lowercase_hex_sha1() {
    assert_eq!(generate_id("abc"), "a9993e364706816aba3e25717850c26c9cd0d89d");
    assert_eq!(generate_id(""), "da39a3ee5e6b4b0d3255bfef95601890afd80709");
    assert_eq!(generate_id("café"), "f424452a9673918c6f09b0cdd35b20be8e6ae7d7");
}

#[test]
fn fingerprint_is_deterministic_and_distinguishes() {
    assert_eq!(generate_id("buy milk"), generate_id("buy milk"));
    assert_eq!(generate_id("buy milk"), BUY_MILK);
    assert_ne!(generate_id("buy milk"), generate_id("buy oat milk"));
    assert_eq!(generate_id("buy milk").len(), 40);
}

#[test]
fn new_task_trims_text() {
    let t = Task::new("  buy milk \t");
    assert_eq!(t.text(), "buy milk");
    assert_eq!(t.id(), BUY_MILK);
}

#[test]
fn tasks_are_equal_by_id() {
    let a = Task { text: "one".to_string(), id: "x".to_string() };
    let b = Task { text: "two".to_string(), id: "x".to_string() };
    let c = Task { text: "one".to_string(), id: "y".to_string() };
    assert!(a == b);
    assert!(a != c);
}

#[test]
fn encode_line_format() {
    let t = Task::new("buy milk");
    assert_eq!(encode_line(&t), format!("buy milk | id:{}\n", BUY_MILK));
}

#[test]
fn decode_round_trip() {
    let t = Task { text: "call mum".to_string(), id: "abc123".to_string() };
    let d = task_from_taskline(&encode_line(&t)).unwrap();
    assert_eq!(d.text(), "call mum");
    assert_eq!(d.id(), "abc123");
    let f = Task::new("buy milk");
    let d = task_from_taskline(&encode_line(&f)).unwrap();
    assert_eq!(d.text(), "buy milk");
    assert_eq!(d.id(), BUY_MILK);
}

#[test]
fn decode_skips_comments_and_blanks() {
    assert!(task_from_taskline("# a comment").is_none());
    assert!(task_from_taskline("   # indented comment | id:x").is_none());
    assert!(task_from_taskline("").is_none());
    assert!(task_from_taskline(" \t ").is_none());
}

#[test]
fn decode_without_metadata_fingerprints_text() {
    let d = task_from_taskline("  buy milk  ").unwrap();
    assert_eq!(d.text(), "buy milk");
    assert_eq!(d.id(), BUY_MILK);
}

#[test]
fn decode_splits_at_last_bar() {
    let d = task_from_taskline("a | b | id:xyz").unwrap();
    assert_eq!(d.text(), "a | b");
    assert_eq!(d.id(), "xyz");
    let d = task_from_taskline("a | b | note:1").unwrap();
    assert_eq!(d.text(), "a | b");
    assert_eq!(d.id(), "2ea0fd9757eb5952c3e8074acf41f7c2b3ff475d");
}

#[test]
fn decode_metadata_labels() {
    let d = task_from_taskline("buy milk | due:today, id:abc, junk").unwrap();
    assert_eq!(d.id(), "abc");
    let d = task_from_taskline("buy milk | id:first,id:second").unwrap();
    assert_eq!(d.id(), "second");
    let d = task_from_taskline("buy milk | id:a:b").unwrap();
    assert_eq!(d.id(), "a:b");
    let d = task_from_taskline("buy milk | idabc").unwrap();
    assert_eq!(d.id(), BUY_MILK);
    let d = task_from_taskline("buy milk | id:").unwrap();
    assert_eq!(d.id(), BUY_MILK);
    let d = task_from_taskline("| id:q").unwrap();
    assert_eq!(d.text(), "");
    assert_eq!(d.id(), "q");
}

#[test]
fn add_twice_is_idempotent() {
    let mut list = TaskList::new();
    list.add("buy milk");
    list.add("buy milk");
    assert_eq!(list.len(), 1);
    list.add("  buy milk ");
    assert_eq!(list.len(), 1);
    assert_eq!(pairs(&list), vec![(BUY_MILK.to_string(), "buy milk".to_string())]);
}

#[test]
fn edit_changes_identity() {
    let mut list = TaskList::new();
    list.add("buy milk");
    list.add("walk dog");
    list.edit(BUY_MILK.to_string(), "buy oat milk");
    assert_eq!(list.len(), 2);
    assert!(list.tasks().iter().all(|t| t.id() != BUY_MILK));
    let found: Vec<&Task> = list.tasks().iter().filter(|t| t.id() == BUY_OAT_MILK).collect();
    assert_eq!(found.len(), 1);
    assert_eq!(found[0].text(), "buy oat milk");
}

#[test]
fn edit_absent_id_adds() {
    let mut list = TaskList::new();
    list.edit("nothing".to_string(), "buy milk");
    assert_eq!(pairs(&list), vec![(BUY_MILK.to_string(), "buy milk".to_string())]);
}

#[test]
fn remove_absent_is_noop() {
    let mut list = TaskList::new();
    list.remove("deadbeef".to_string());
    assert_eq!(list.len(), 0);
    list.add("buy milk");
    list.remove("deadbeef".to_string());
    assert_eq!(list.len(), 1);
    list.remove(BUY_MILK.to_string());
    assert_eq!(list.len(), 0);
}

#[test]
fn from_tasks_last_write_wins() {
    let list = TaskList::from_tasks(vec![
        Task { text: "old".to_string(), id: "k".to_string() },
        Task { text: "other".to_string(), id: "j".to_string() },
        Task { text: "new".to_string(), id: "k".to_string() },
    ]);
    assert_eq!(
        pairs(&list),
        vec![("j".to_string(), "other".to_string()), ("k".to_string(), "new".to_string())]
    );
}

#[test]
fn load_tolerates_comments_and_blanks() {
    let list = parse_list("# note\n\nbuy milk | id:abc123\n");
    assert_eq!(pairs(&list), vec![("abc123".to_string(), "buy milk".to_string())]);
}

#[test]
fn load_last_line_without_terminator() {
    let list = parse_list("a | id:1\r\nb");
    assert_eq!(
        pairs(&list),
        vec![("1".to_string(), "a".to_string()), (generate_id("b"), "b".to_string())]
    );
    assert_eq!(parse_list("").len(), 0);
}

#[test]
fn full_cycle_keeps_content() {
    let mut list = parse_list("# header\nbuy milk | id:abc123\nwalk dog\n\ncall mum | id:zz\n");
    list.add("pay rent");
    let text = render_list(&list);
    assert_eq!(text.lines().count(), 4);
    let again = parse_list(&text);
    assert_eq!(pairs(&again), pairs(&list));
    assert_eq!(render_list(&TaskList::new()), "");
}

#[test]
fn whitespace_matches_std() {
    for n in 0u32..0x11_0000 {
        if let Some(c) = char::from_u32(n) {
            assert_eq!(tasklist::text::is_space_char(c), c.is_whitespace(), "{:x}", n);
        }
    }
    let t = Task::new("\u{3000}buy milk\u{a0}\u{2029}");
    assert_eq!(t.text(), "buy milk");
}
