use nb::cli::NoteType;
use nb::date::NoteDate;
use nb::roll::{construct_new_note, roll_note, RollError};

fn date(year: u16, month: u8, day: u8, weekday: u8) -> NoteDate {
    NoteDate::new(year, month, day, weekday).unwrap()
}

#[test]
fn roll_daily_scenario() {
    let prev = b"## Monday 24-01-01\nbuy milk\n- [x] call bank\n- [ ] pay rent\n".to_vec();
    let tuesday = date(2024, 1, 2, 1);
    let out = roll_note(NoteType::Daily, &tuesday, false, Some(&prev)).unwrap();
    assert_eq!(out, b"## Tuesday 24-01-02\nbuy milk\n- [ ] pay rent\n".to_vec());
}

#[test]
fn roll_refuses_existing_current_note() {
    let prev = b"## Monday 24-01-01\nbuy milk\n".to_vec();
    let tuesday = date(2024, 1, 2, 1);
    let r = roll_note(NoteType::Daily, &tuesday, true, Some(&prev));
    assert_eq!(r, Err(RollError::AlreadyRolled));
    let r2 = roll_note(NoteType::Daily, &tuesday, true, None);
    assert_eq!(r2, Err(RollError::AlreadyRolled));
}

#[test]
fn roll_without_predecessor_fails() {
    let tuesday = date(2024, 1, 2, 1);
    let r = roll_note(NoteType::Daily, &tuesday, false, None);
    assert_eq!(r, Err(RollError::NoPredecessor));
}

#[test]
fn roll_monthly_and_yearly_headers() {
    let prev = b"## January 2024\nnotes\n".to_vec();
    let feb = date(2024, 2, 1, 3);
    let out = roll_note(NoteType::Monthly, &feb, false, Some(&prev)).unwrap();
    assert_eq!(out, b"## February 2024\nnotes\n".to_vec());

    let prev_y = b"## 2024\nyearly goals\n- [x] done goal\n".to_vec();
    let y2025 = date(2025, 1, 1, 2);
    let out_y = roll_note(NoteType::Yearly, &y2025, false, Some(&prev_y)).unwrap();
    assert_eq!(out_y, b"## 2025\nyearly goals\n".to_vec());
}

#[test]
fn transform_header_only_predecessor() {
    let out = construct_new_note(&b"## Monday 24-01-01\n".to_vec(), &b"## Tuesday 24-01-02".to_vec());
    assert_eq!(out, b"## Tuesday 24-01-02\n".to_vec());
}

#[test]
fn transform_empty_predecessor() {
    let out = construct_new_note(&b"".to_vec(), &b"## Tuesday 24-01-02".to_vec());
    assert_eq!(out, b"## Tuesday 24-01-02\n".to_vec());
}

#[test]
fn transform_skips_leading_blank_lines_and_first_nonblank() {
    // The first non-blank line counts as the old header even when it is not
    // literally a header.
    let prev = b"\n   \nnot a header\nkeep me\n".to_vec();
    let out = construct_new_note(&prev, &b"## H".to_vec());
    assert_eq!(out, b"## H\nkeep me\n".to_vec());
}

#[test]
fn transform_trims_header_end_and_keeps_blank_body_lines() {
    let prev = b"## Old\na\n\nb\n".to_vec();
    let out = construct_new_note(&prev, &b"## New   ".to_vec());
    assert_eq!(out, b"## New\na\n\nb\n".to_vec());
}

#[test]
fn transform_drops_done_tasks_with_leading_whitespace() {
    let prev = b"## Old\n  - [x] indented done\n- [ ] open\n\t- [x] tab done\n".to_vec();
    let out = construct_new_note(&prev, &b"## New".to_vec());
    assert_eq!(out, b"## New\n- [ ] open\n".to_vec());
}

#[test]
fn transform_line_count_matches() {
    // N = 5 lines, K = 2 done lines after the first: 1 + (N - 1 - K) = 3.
    let prev = b"## Old\nkeep\n- [x] a\nmore\n- [x] b\n".to_vec();
    let out = construct_new_note(&prev, &b"## New".to_vec());
    let n_out = out.split(|&b| b == b'\n').filter(|l| !l.is_empty()).count();
    assert_eq!(n_out, 3);
}
