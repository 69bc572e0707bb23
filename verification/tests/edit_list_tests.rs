use nb::cli::{AppendArgs, Cli, Cmd, EditArgs, ListArgs, ListType, NoteType};
use nb::config::Config;
use nb::date::NoteDate;
use nb::list::{keep_open_tasks, run as list_run};
use nb::edit::{append_to_note, run as edit_run};

fn cfg() -> Config {
    Config::from_env(b"/home/u".to_vec(), Some(b"vi".to_vec()))
}

fn date(year: u16, month: u8, day: u8, weekday: u8) -> NoteDate {
    NoteDate::new(year, month, day, weekday).unwrap()
}

#[test]
fn open_tasks_scenario() {
    let out = keep_open_tasks(&b"- [ ] task1\n- [x] task2\n- [ ] task3\n".to_vec());
    assert_eq!(out, b"- [ ] task1\n- [ ] task3".to_vec());
}

#[test]
fn open_tasks_is_idempotent_on_sample() {
    let content = b"## Head\n- [ ] a\nplain\n  - [ ] b\n- [x] c\n".to_vec();
    let once = keep_open_tasks(&content);
    let twice = keep_open_tasks(&once);
    assert_eq!(once, twice);
    assert_eq!(once, b"- [ ] a\n  - [ ] b".to_vec());
}

#[test]
fn open_tasks_empty_when_no_marker() {
    assert_eq!(keep_open_tasks(&b"## Head\nplain\n- [x] done\n".to_vec()), b"".to_vec());
    assert_eq!(keep_open_tasks(&b"".to_vec()), b"".to_vec());
}

#[test]
fn list_run_contents_and_tasks() {
    let content = b"## Head\n- [ ] a\n- [x] b\n".to_vec();
    let args = ListArgs { note_type: NoteType::Daily, list_type: ListType::Contents };
    assert_eq!(list_run(&args, &content), content);
    let args_t = ListArgs { note_type: NoteType::Daily, list_type: ListType::Tasks };
    assert_eq!(list_run(&args_t, &content), b"- [ ] a".to_vec());
}

#[test]
fn edit_existing_note_needs_no_write() {
    let d = date(2024, 1, 2, 1);
    let args = EditArgs { note_type: NoteType::Daily };
    let plan = edit_run(&args, &cfg(), &d, true, None).unwrap();
    assert_eq!(plan.note_path, b"/home/u/notebook/daily/24-01-02.md".to_vec());
    assert!(plan.write_first.is_none());
}

#[test]
fn edit_missing_note_rolls_first() {
    let d = date(2024, 1, 2, 1);
    let args = EditArgs { note_type: NoteType::Daily };
    let prev = b"## Monday 24-01-01\n- [ ] open\n- [x] done\n".to_vec();
    let plan = edit_run(&args, &cfg(), &d, false, Some(&prev)).unwrap();
    assert_eq!(plan.write_first.unwrap(), b"## Tuesday 24-01-02\n- [ ] open\n".to_vec());
}

#[test]
fn edit_missing_note_without_predecessor_fails() {
    let d = date(2024, 1, 2, 1);
    let args = EditArgs { note_type: NoteType::Daily };
    assert!(edit_run(&args, &cfg(), &d, false, None).is_err());
}

#[test]
fn append_rolls_then_appends_in_order() {
    let d = date(2024, 1, 2, 1);
    let args = AppendArgs {
        note_type: NoteType::Daily,
        content: vec![b"pay".to_vec(), b"rent".to_vec()],
    };
    let prev = b"## Monday 24-01-01\nbuy milk\n- [x] call bank\n".to_vec();
    let plan = append_to_note(&args, &cfg(), &d, false, Some(&prev)).unwrap();
    assert_eq!(plan.note_path, b"/home/u/notebook/daily/24-01-02.md".to_vec());
    let rolled = plan.write_first.unwrap();
    assert_eq!(rolled, b"## Tuesday 24-01-02\nbuy milk\n".to_vec());
    assert_eq!(plan.line, b"pay rent\n".to_vec());
    let final_content = [rolled, plan.line].concat();
    assert_eq!(final_content, b"## Tuesday 24-01-02\nbuy milk\npay rent\n".to_vec());
}

#[test]
fn append_to_existing_note_only_appends() {
    let d = date(2024, 1, 2, 1);
    let args = AppendArgs { note_type: NoteType::Someday, content: vec![b"idea".to_vec()] };
    let plan = append_to_note(&args, &cfg(), &d, true, None).unwrap();
    assert_eq!(plan.note_path, b"/home/u/notebook/someday.md".to_vec());
    assert!(plan.write_first.is_none());
    assert_eq!(plan.line, b"idea\n".to_vec());
}

#[test]
fn missing_subcommand_defaults_to_daily_edit() {
    let cli = Cli { root: None, editor: None, cmd: None };
    match cli.command() {
        Cmd::Edit(a) => assert_eq!(a.note_type, NoteType::Daily),
        _ => panic!("expected the edit command"),
    }
    let cli2 = Cli { root: None, editor: None, cmd: Some(Cmd::Sync) };
    assert!(matches!(cli2.command(), Cmd::Sync));
}

#[test]
fn default_arguments_select_daily_contents() {
    assert_eq!(NoteType::default(), NoteType::Daily);
    assert_eq!(ListType::default(), ListType::Contents);
    assert_eq!(EditArgs::default().note_type, NoteType::Daily);
    let la = ListArgs::default();
    assert_eq!(la.note_type, NoteType::Daily);
    assert_eq!(la.list_type, ListType::Contents);
}
