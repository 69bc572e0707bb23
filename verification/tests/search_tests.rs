use nb::search::{date_key_from_path, dedupe, dedupe_lines, normalize_task};

#[test]
fn dedupe_keeps_most_recent_occurrence() {
    let input = b"daily/24-01-01.md:- [ ] renew passport\n\
daily/24-01-05.md:- [ ] renew passport\n\
daily/24-01-02.md:- [x] renew passport"
        .to_vec();
    let out = dedupe(&input);
    assert_eq!(out, b"daily/24-01-05.md:- [ ] renew passport".to_vec());
}

#[test]
fn dedupe_sorts_by_date_key_descending() {
    let input = b"daily/24-01-01.md:- [ ] a\ndaily/24-01-05.md:- [ ] b\ndaily/24-01-03.md:- [ ] c"
        .to_vec();
    let out = dedupe(&input);
    assert_eq!(
        out,
        b"daily/24-01-05.md:- [ ] b\ndaily/24-01-03.md:- [ ] c\ndaily/24-01-01.md:- [ ] a".to_vec()
    );
}

#[test]
fn dedupe_first_occurrence_wins_on_equal_keys() {
    let lines = vec![
        b"daily/24-01-01.md:- [ ] task".to_vec(),
        b"daily/24-01-01.md:- [x] task".to_vec(),
    ];
    let out = dedupe_lines(&lines);
    assert_eq!(out, vec![b"daily/24-01-01.md:- [ ] task".to_vec()]);
}

#[test]
fn dedupe_drops_malformed_lines() {
    let input = b"no colon here\nnot-markdown.txt:- [ ] x\ndaily/24-01-01.md:- [ ] y".to_vec();
    let out = dedupe(&input);
    assert_eq!(out, b"daily/24-01-01.md:- [ ] y".to_vec());
}

#[test]
fn dedupe_empty_input_gives_empty_output() {
    assert_eq!(dedupe(&b"".to_vec()), b"".to_vec());
}

#[test]
fn dedupe_distinguishes_different_tasks() {
    let input = b"daily/24-01-02.md:- [ ] alpha\ndaily/24-01-01.md:- [ ] beta".to_vec();
    let out = dedupe(&input);
    assert_eq!(out, b"daily/24-01-02.md:- [ ] alpha\ndaily/24-01-01.md:- [ ] beta".to_vec());
}

#[test]
fn date_key_from_path_cases() {
    assert_eq!(date_key_from_path(&b"daily/24-01-01.md".to_vec()), Some(b"24-01-01".to_vec()));
    assert_eq!(date_key_from_path(&b"24-01-01.md".to_vec()), Some(b"24-01-01".to_vec()));
    assert_eq!(date_key_from_path(&b"a/b/c/2024.md".to_vec()), Some(b"2024".to_vec()));
    assert_eq!(date_key_from_path(&b"daily/24-01-01.txt".to_vec()), None);
    assert_eq!(date_key_from_path(&b"daily/".to_vec()), None);
    assert_eq!(date_key_from_path(&b"".to_vec()), None);
    assert_eq!(date_key_from_path(&b".md".to_vec()), Some(b"".to_vec()));
}

#[test]
fn normalize_task_strips_markers_and_whitespace() {
    assert_eq!(normalize_task(&b"- [ ] buy milk".to_vec()), b"buy milk".to_vec());
    assert_eq!(normalize_task(&b"- [x] buy milk".to_vec()), b"buy milk".to_vec());
    assert_eq!(normalize_task(&b"  - [ ] buy milk  ".to_vec()), b"buy milk".to_vec());
    assert_eq!(normalize_task(&b"plain note".to_vec()), b"plain note".to_vec());
    assert_eq!(normalize_task(&b"  spaced  ".to_vec()), b"spaced".to_vec());
    assert_eq!(normalize_task(&b"- [ ]   extra".to_vec()), b"extra".to_vec());
    assert_eq!(normalize_task(&b"".to_vec()), b"".to_vec());
}
