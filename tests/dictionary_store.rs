use manatan_media::import::{is_index_file, is_term_bank_file, term_rows};
use manatan_media::registry::DictionaryRegistry;

#[test]
fn registry_hands_out_increasing_ids() {
    let mut reg = DictionaryRegistry::new();
    assert_eq!(reg.register("JMdict".to_string()), Some(1));
    assert_eq!(reg.register("Kanjidic".to_string()), Some(2));
    assert_eq!(reg.next_id, 3);
    assert!(reg.entries.iter().all(|d| d.enabled && d.priority == 0));
    assert_eq!(reg.names(), vec![(1, "JMdict".to_string()), (2, "Kanjidic".to_string())]);
}

#[test]
fn registry_toggle_delete_reorder() {
    let mut reg = DictionaryRegistry::new();
    reg.register("a".to_string());
    reg.register("b".to_string());
    reg.register("c".to_string());
    assert!(reg.toggle(2, false));
    assert!(!reg.entries[1].enabled);
    assert!(!reg.toggle(9, false));
    reg.reorder(&vec![3, 1, 3]);
    assert_eq!(reg.entries[0].priority, 1);
    assert_eq!(reg.entries[1].priority, 0);
    assert_eq!(reg.entries[2].priority, 0);
    assert!(reg.delete(1));
    assert!(!reg.delete(1));
    let ids: Vec<i64> = reg.entries.iter().map(|d| d.id).collect();
    assert_eq!(ids, vec![2, 3]);
    assert_eq!(reg.register("d".to_string()), Some(4));
}

#[test]
fn registry_refuses_when_ids_run_out() {
    let mut reg = DictionaryRegistry::new();
    reg.next_id = i64::MAX;
    assert_eq!(reg.register("x".to_string()), None);
    assert!(reg.entries.is_empty());
}

#[test]
fn archive_file_names() {
    assert!(is_index_file("index.json"));
    assert!(is_index_file("jmdict/index.json"));
    assert!(!is_index_file("index.json.bak"));
    assert!(is_term_bank_file("term_bank_1.json"));
    assert!(is_term_bank_file("dir/term_bank_12.json"));
    assert!(!is_term_bank_file("term_meta_bank_1.json"));
    assert!(!is_term_bank_file("term_bank_1.txt"));
}

#[test]
fn term_rows_index_reading_when_distinct() {
    let rows = term_rows("食べる", "たべる").unwrap();
    assert_eq!(rows.terms, vec!["食べる".to_string(), "たべる".to_string()]);
    assert_eq!(rows.stored_reading.as_deref(), Some("たべる"));
    let same = term_rows("ひらがな", "ひらがな").unwrap();
    assert_eq!(same.terms, vec!["ひらがな".to_string()]);
    assert_eq!(same.stored_reading, None);
    let none = term_rows("猫", "").unwrap();
    assert_eq!(none.terms, vec!["猫".to_string()]);
    assert!(term_rows("", "ねこ").is_none());
}
