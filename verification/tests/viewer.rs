use memview::navigation::{on_key, Action, Screen, ViewState};
use memview::header::{choose_process, info_proc_spans, process_description};
use memview::error::FileErr;
use memview::diff_view::{style_diff, DiffLine, TextColor};
use memview::pagemap::{frame_number, pagemap_entry, pagemap_offset, physical_address};
use memview::text::split_whitespace;

fn st(index: usize, diff: bool) -> ViewState {
    ViewState { index, diff }
}

fn draw(index: usize, total: usize, with_diff: bool) -> Action {
    Action::Draw(Screen { index, total, with_diff })
}

#[test]
fn quit_and_other_keys() {
    assert_eq!(on_key(st(2, true), 'q', 5), (st(2, true), Action::Quit));
    assert_eq!(on_key(st(2, true), 'x', 5), (st(2, true), Action::Stay));
    assert_eq!(on_key(st(0, false), 'q', 0), (st(0, false), Action::Quit));
}

#[test]
fn next_clamps_at_newest() {
    assert_eq!(on_key(st(0, false), 'n', 5), (st(1, false), draw(1, 4, false)));
    assert_eq!(on_key(st(3, false), 'n', 5), (st(4, false), draw(4, 4, false)));
    assert_eq!(on_key(st(4, false), 'n', 5), (st(4, false), draw(4, 4, false)));
    assert_eq!(on_key(st(1, true), 'n', 5), (st(2, true), draw(2, 4, true)));
    assert_eq!(on_key(st(0, true), 'n', 1), (st(0, true), Action::Stay));
}

#[test]
fn previous_clamps_at_oldest() {
    assert_eq!(on_key(st(3, true), 'p', 5), (st(2, true), draw(2, 4, true)));
    assert_eq!(on_key(st(1, true), 'p', 5), (st(0, true), draw(0, 4, false)));
    assert_eq!(on_key(st(0, false), 'p', 5), (st(0, false), draw(0, 4, false)));
}

#[test]
fn refresh_toggle_start_end() {
    assert_eq!(on_key(st(2, true), 'r', 5), (st(2, true), draw(2, 4, true)));
    assert_eq!(on_key(st(0, true), 'r', 5), (st(0, true), draw(0, 4, false)));
    assert_eq!(on_key(st(2, false), 'd', 5), (st(2, true), draw(2, 4, true)));
    assert_eq!(on_key(st(2, true), 'd', 5), (st(2, false), draw(2, 4, false)));
    assert_eq!(on_key(st(0, false), 'd', 5), (st(0, true), draw(0, 4, false)));
    assert_eq!(on_key(st(3, true), 's', 5), (st(0, true), draw(0, 4, false)));
    assert_eq!(on_key(st(1, true), 'e', 5), (st(4, true), draw(4, 4, false)));
}

#[test]
fn toggling_twice_restores() {
    let s = st(3, false);
    let (t, _) = on_key(s, 'd', 6);
    let (u, _) = on_key(t, 'd', 6);
    assert_eq!(u, s);
}

#[test]
fn next_then_previous_returns() {
    for i in 0..4usize {
        let (t, _) = on_key(st(i, false), 'n', 5);
        let (u, _) = on_key(t, 'p', 5);
        assert_eq!(u.index, i);
    }
}

#[test]
fn index_stays_in_range() {
    let keys = ['n', 'p', 'r', 'd', 's', 'e', 'n', 'n', 'n', 'n', 'n', 'n', 'p', 'd', 'n'];
    let mut s = st(0, false);
    for k in keys {
        let (t, a) = on_key(s, k, 4);
        assert!(t.index < 4);
        if let Action::Draw(sc) = a {
            assert_eq!(sc.index, t.index);
            assert!(!sc.with_diff || sc.index > 0);
        }
        s = t;
    }
}

#[test]
fn description_matches_format() {
    assert_eq!(process_description("cat", 1234), format!("{} {} {} {}", "Process name ", "cat", " pid ", 1234));
    assert_eq!(process_description("", 0), "Process name    pid  0");
}

#[test]
fn header_spans() {
    let info = process_description("cat", 77);
    let spans = info_proc_spans(&info);
    let texts: Vec<&str> = spans.iter().map(|s| s.text.as_str()).collect();
    assert_eq!(texts, vec!["Process", " ", "name", " : ", "cat", " ", "pid", " : ", "77"]);
    let colors: Vec<TextColor> = spans.iter().map(|s| s.color).collect();
    assert_eq!(colors, vec![TextColor::White, TextColor::Plain, TextColor::White, TextColor::Plain, TextColor::Red,
        TextColor::Plain, TextColor::White, TextColor::Plain, TextColor::Red]);
    assert_eq!(split_whitespace(&info).len(), 5);
}

#[test]
fn diff_styling() {
    let d = vec![
        DiffLine::Both("a".to_string(), "a".to_string()),
        DiffLine::Left("b".to_string()),
        DiffLine::Right("c".to_string()),
    ];
    let s = style_diff(&d);
    assert_eq!(s[0].text, "a");
    assert_eq!(s[0].color, TextColor::White);
    assert_eq!(s[1].text, "-b");
    assert_eq!(s[1].color, TextColor::Red);
    assert_eq!(s[2].text, "+c");
    assert_eq!(s[2].color, TextColor::Green);
}

#[test]
fn pagemap_arithmetic() {
    let bytes = [0x01u8, 0x02, 0x03, 0x04, 0x05, 0x06, 0x07, 0x88];
    assert_eq!(pagemap_entry(&bytes), u64::from_le_bytes(bytes));
    assert_eq!(pagemap_offset(0x7000, 4096), 7 * 8);
    let entry: u64 = (1 << 63) | 0x1234;
    assert_eq!(frame_number(entry), 0x1234);
    assert_eq!(physical_address(entry, 0x7abc, 4096), Some(0x1234 * 4096 + 0xabc));
    assert_eq!(physical_address(0x1234, 0x7abc, 4096), None);
    assert_eq!(frame_number(u64::MAX), (1u64 << 55) - 1);
}

#[test]
fn description_words_are_labels_name_and_pid() {
    let d = process_description("memview-demo", 4321);
    assert_eq!(split_whitespace(&d), vec!["Process", "name", "memview-demo", "pid", "4321"]);
}

#[test]
fn lookup_picks_last_match() {
    let c = vec![(Some("cat".to_string()), 10), (Some("cat".to_string()), 20)];
    let (s, r) = choose_process(&c);
    assert_eq!(r, Ok(20));
    assert_eq!(s, process_description("cat", 20));
}

#[test]
fn lookup_without_match_fails() {
    let (s, r) = choose_process(&Vec::new());
    assert_eq!(r, Err(FileErr::ProcessErr));
    assert_eq!(s, "");
}

#[test]
fn lookup_with_non_utf8_name_fails() {
    let c = vec![(Some("cat".to_string()), 10), (None, 11), (Some("cat".to_string()), 12)];
    let (s, r) = choose_process(&c);
    assert_eq!(r, Err(FileErr::ProcessErr));
    assert_eq!(s, "");
}
