use nb::cli::NoteType;
use nb::config::Config;
use nb::date::NoteDate;
use nb::sync::build_commit_message;
use nb::utils::{construct_header, resolve_current_note, resolve_most_recent_note};

fn date(year: u16, month: u8, day: u8, weekday: u8) -> NoteDate {
    NoteDate::new(year, month, day, weekday).unwrap()
}

#[test]
fn headers_for_each_category() {
    let d = date(2024, 1, 2, 1);
    assert_eq!(construct_header(NoteType::Daily, &d), b"## Tuesday 24-01-02".to_vec());
    assert_eq!(construct_header(NoteType::Monthly, &d), b"## January 2024".to_vec());
    assert_eq!(construct_header(NoteType::Yearly, &d), b"## 2024".to_vec());
    assert_eq!(construct_header(NoteType::Someday, &d), b"## Someday".to_vec());
}

#[test]
fn header_weekday_and_month_names() {
    assert_eq!(construct_header(NoteType::Daily, &date(2024, 9, 8, 6)), b"## Sunday 24-09-08".to_vec());
    assert_eq!(construct_header(NoteType::Monthly, &date(2024, 12, 1, 6)), b"## December 2024".to_vec());
}

#[test]
fn current_note_paths() {
    let d = date(2024, 1, 2, 1);
    let root = b"nb".to_vec();
    assert_eq!(resolve_current_note(&root, NoteType::Daily, &d), b"nb/daily/24-01-02.md".to_vec());
    assert_eq!(resolve_current_note(&root, NoteType::Monthly, &d), b"nb/monthly/24-01.md".to_vec());
    assert_eq!(resolve_current_note(&root, NoteType::Yearly, &d), b"nb/yearly/2024.md".to_vec());
    assert_eq!(resolve_current_note(&root, NoteType::Someday, &d), b"nb/someday.md".to_vec());
}

#[test]
fn identifiers_order_chronologically() {
    let root = b"nb".to_vec();
    let a = resolve_current_note(&root, NoteType::Daily, &date(2023, 12, 31, 6));
    let b = resolve_current_note(&root, NoteType::Daily, &date(2024, 1, 1, 0));
    let c = resolve_current_note(&root, NoteType::Daily, &date(2024, 1, 2, 1));
    assert!(a < b && b < c);
}

#[test]
fn most_recent_picks_greatest_stem() {
    let files = vec![b"23-12-31.md".to_vec(), b"24-01-01.md".to_vec(), b"24-01-02.md".to_vec()];
    let r = resolve_most_recent_note(&b"nb".to_vec(), NoteType::Daily, &files);
    assert_eq!(r, Some(b"nb/daily/24-01-02.md".to_vec()));
}

#[test]
fn most_recent_ignores_other_extensions() {
    let files = vec![b"zz-99-99.txt".to_vec(), b"24-01-01.md".to_vec(), b"notes".to_vec()];
    let r = resolve_most_recent_note(&b"nb".to_vec(), NoteType::Daily, &files);
    assert_eq!(r, Some(b"nb/daily/24-01-01.md".to_vec()));
}

#[test]
fn most_recent_none_when_no_md_file() {
    let files = vec![b"placeholder".to_vec()];
    assert_eq!(resolve_most_recent_note(&b"nb".to_vec(), NoteType::Daily, &files), None);
    let empty: Vec<Vec<u8>> = Vec::new();
    assert_eq!(resolve_most_recent_note(&b"nb".to_vec(), NoteType::Monthly, &empty), None);
    // A bare `.md` has no stem and is not a note file.
    let dot = vec![b".md".to_vec()];
    assert_eq!(resolve_most_recent_note(&b"nb".to_vec(), NoteType::Daily, &dot), None);
}

#[test]
fn most_recent_someday_in_root() {
    let files = vec![b"someday.md".to_vec()];
    let r = resolve_most_recent_note(&b"nb".to_vec(), NoteType::Someday, &files);
    assert_eq!(r, Some(b"nb/someday.md".to_vec()));
}

#[test]
fn config_from_env_values() {
    let cfg = Config::from_env(b"/home/u".to_vec(), Some(b"vi".to_vec()));
    assert_eq!(cfg.root, b"/home/u/notebook".to_vec());
    assert_eq!(cfg.editor, b"vi".to_vec());
    let cfg2 = Config::from_env(b"/home/u".to_vec(), None);
    assert_eq!(cfg2.editor, b"nvim".to_vec());
}

#[test]
fn commit_message_format() {
    assert_eq!(build_commit_message(&date(2024, 1, 2, 1)), b"Sync 24-01-02".to_vec());
    assert_eq!(build_commit_message(&date(2009, 11, 30, 0)), b"Sync 09-11-30".to_vec());
}

#[test]
fn date_rejects_bad_fields() {
    assert!(NoteDate::new(2024, 0, 1, 0).is_none());
    assert!(NoteDate::new(2024, 13, 1, 0).is_none());
    assert!(NoteDate::new(2024, 1, 0, 0).is_none());
    assert!(NoteDate::new(2024, 1, 32, 0).is_none());
    assert!(NoteDate::new(2024, 1, 1, 7).is_none());
    assert!(NoteDate::new(10000, 1, 1, 0).is_none());
    assert!(NoteDate::new(9999, 12, 31, 4).is_some());
}
