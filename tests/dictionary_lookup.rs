use manatan_media::lookup::lookup_words;
use manatan_media::furigana::calculate_furigana;
use manatan_media::lookup::{
    generate_candidates, group_entries, is_kanji, is_valid_candidate, plan_lookup, rank_entries,
    search_substrings, snap_to_char_boundary, CandidateReason, RecordEntry,
};

fn parts(v: &[(&str, &str)]) -> Vec<(String, String)> {
    v.iter().map(|(a, b)| (a.to_string(), b.to_string())).collect()
}

#[test]
fn furigana_of_taberu() {
    assert_eq!(calculate_furigana("食べる", "たべる"), parts(&[("食", "た"), ("べる", "")]));
}

#[test]
fn furigana_with_prefix_root_and_suffix() {
    assert_eq!(
        calculate_furigana("お茶漬け", "おちゃづけ"),
        parts(&[("お", ""), ("茶漬", "ちゃづ"), ("け", "")])
    );
}

#[test]
fn furigana_without_distinct_reading() {
    assert_eq!(calculate_furigana("ひらがな", ""), parts(&[("ひらがな", "")]));
    assert_eq!(calculate_furigana("ひらがな", "ひらがな"), parts(&[("ひらがな", "")]));
}

#[test]
fn furigana_round_trip() {
    for (h, r) in [("食べる", "たべる"), ("お茶漬け", "おちゃづけ"), ("日本", "にほん"), ("見る", "みる")] {
        let p = calculate_furigana(h, r);
        let bases: String = p.iter().map(|(b, _)| b.as_str()).collect();
        let reading: String = p.iter().map(|(b, ruby)| if ruby.is_empty() { b.as_str() } else { ruby.as_str() }).collect();
        assert_eq!(bases, h);
        assert_eq!(reading, r);
    }
}

#[test]
fn kanji_range() {
    assert!(is_kanji('食'));
    assert!(is_kanji('\u{4E00}'));
    assert!(is_kanji('\u{9FFF}'));
    assert!(!is_kanji('べ'));
    assert!(!is_kanji('A'));
    assert!(!is_kanji('\u{A000}'));
}

#[test]
fn candidate_validation() {
    assert!(is_valid_candidate("食べました", "食べました"));
    assert!(is_valid_candidate("食べました", "食べる"));
    assert!(is_valid_candidate("たべました", "たべました"));
    assert!(!is_valid_candidate("たべました", "たべる"));
    assert!(!is_valid_candidate("あ", "い"));
    assert!(!is_valid_candidate("食べました", "飲む"));
    assert!(!is_valid_candidate("たべた", "食べる"));
}

#[test]
fn snapping_to_char_boundaries() {
    let text = "食べました";
    assert_eq!(snap_to_char_boundary(text, 0), 0);
    assert_eq!(snap_to_char_boundary(text, 1), 0);
    assert_eq!(snap_to_char_boundary(text, 2), 0);
    assert_eq!(snap_to_char_boundary(text, 3), 3);
    assert_eq!(snap_to_char_boundary(text, 5), 3);
    assert_eq!(snap_to_char_boundary(text, 15), 15);
    assert_eq!(snap_to_char_boundary(text, 99), 15);
}

#[test]
fn substrings_longest_first() {
    assert_eq!(search_substrings("食べました", 0), vec!["食べました", "食べまし", "食べま", "食べ", "食"]);
    assert_eq!(search_substrings("食べました", 4), vec!["べました", "べまし", "べま", "べ"]);
    assert!(search_substrings("食べました", 15).is_empty());
    assert!(search_substrings("", 0).is_empty());
}

#[test]
fn substrings_are_capped_at_24_chars() {
    let text: String = std::iter::repeat('あ').take(30).collect();
    let subs = search_substrings(&text, 0);
    assert_eq!(subs.len(), 24);
    assert_eq!(subs[0].chars().count(), 24);
    assert_eq!(subs[23], "あ");
}

#[test]
fn candidates_with_and_without_lemma() {
    let c = generate_candidates("食べました", Some("食べる"));
    assert_eq!(c.len(), 2);
    assert_eq!(c[0].word, "食べました");
    assert_eq!(c[0].reason, CandidateReason::Surface);
    assert_eq!(c[1].word, "食べる");
    assert_eq!(c[1].reason, CandidateReason::Lemma);
    assert_eq!(generate_candidates("食べる", Some("食べる")).len(), 1);
    assert_eq!(generate_candidates("食べる", Some("*")).len(), 1);
    assert_eq!(generate_candidates("食べる", None).len(), 1);
}

#[test]
fn plan_for_tabemashita() {
    let subs = search_substrings("食べました", 0);
    let lemmas = vec![
        Some("食べる".to_string()),
        Some("食べる".to_string()),
        Some("飲む".to_string()),
        None,
        Some("食う".to_string()),
    ];
    let plan = plan_lookup(&subs, &lemmas);
    assert_eq!(plan, vec!["食べました", "食べる", "食べまし", "食べま", "食べ", "食", "食う"]);
}

fn entry(word: &str, reading: Option<&str>, source: i64, popularity: i64, content: &str) -> RecordEntry {
    RecordEntry::from_hit(word, reading.map(|r| r.to_string()), source, popularity, vec!["v1".to_string()], content.to_string())
}

#[test]
fn entries_count_characters() {
    let e = entry("食べる", Some("たべる"), 1, 5, "eat");
    assert_eq!(e.span_end, 3);
    assert_eq!(e.reading, "たべる");
    assert_eq!(entry("食", None, 1, 0, "x").reading, "");
}

#[test]
fn ranking_by_length_then_frequency_stably() {
    let ranked = rank_entries(vec![
        entry("食", None, 1, 50, "a"),
        entry("食べる", None, 1, 1, "b"),
        entry("食べ", None, 1, 7, "c"),
        entry("食べる", None, 1, 9, "d"),
        entry("食べ", None, 1, 7, "e"),
    ]);
    let order: Vec<&str> = ranked.iter().map(|e| e.content.as_str()).collect();
    assert_eq!(order, vec!["d", "b", "c", "e", "a"]);
    assert!(rank_entries(vec![]).is_empty());
}

#[test]
fn grouping_deduplicates_and_adds_furigana() {
    let entries = vec![
        entry("食べる", Some("たべる"), 1, 9, "to eat"),
        entry("食べる", Some("たべる"), 1, 9, "to eat"),
        entry("食べる", Some("たべる"), 2, 3, "to eat"),
        entry("食", Some("しょく"), 1, 1, "food"),
        entry("", None, 1, 1, "dropped"),
    ];
    let names = vec![(1, "JMdict".to_string()), (2, "Other".to_string())];
    let groups = group_entries(&entries, &names);
    assert_eq!(groups.len(), 2);
    assert_eq!(groups[0].headword, "食べる");
    assert_eq!(groups[0].reading, "たべる");
    assert_eq!(groups[0].match_len, 3);
    assert_eq!(groups[0].furigana, parts(&[("食", "た"), ("べる", "")]));
    let dicts: Vec<&str> = groups[0].definitions.iter().map(|d| d.dictionary_name.as_str()).collect();
    assert_eq!(dicts, vec!["JMdict", "Other"]);
    assert_eq!(groups[0].forms.len(), 1);
    assert_eq!(groups[0].forms[0].reading, "たべる");
    assert_eq!(groups[1].headword, "食");
    assert_eq!(groups[1].definitions[0].tags, vec!["v1".to_string()]);
}

#[test]
fn grouping_names_unknown_dictionaries() {
    let groups = group_entries(&vec![entry("猫", Some("ねこ"), 42, 0, "cat")], &vec![]);
    assert_eq!(groups[0].definitions[0].dictionary_name, "Unknown");
}

#[test]
fn words_without_analyzer_are_the_substrings() {
    assert_eq!(lookup_words(None, "食べました", 0), vec!["食べました", "食べまし", "食べま", "食べ", "食"]);
    assert!(lookup_words(None, "食べました", 15).is_empty());
}
