use memview::error::InfoErr;
use memview::info::{InfoAll, InfoMemoryMap, InfoMemorySegment, State};
use memview::maps::{parse_maps, MapsEntry, MapsListing};
use memview::diff_view::TextColor;

const PAGE: u64 = 4096;

fn lines(ls: &[&str]) -> Vec<String> {
    ls.iter().map(|l| l.to_string()).collect()
}

fn sample() -> Vec<String> {
    lines(&[
        "55d0c1a00000-55d0c1a21000 r--p 00000000 08:01 1234   /usr/bin/cat",
        "7f1234560000-7f1234561800 rw-p 00000000 00:00 0 ",
        "7ffd1c3e0000-7ffd1c401000 rw-p 00000000 00:00 0                          [stack]",
        "ffffffffff600000-ffffffffff601000 --xp 00000000 00:00 0 [vsyscall] extra",
    ])
}

#[test]
fn parses_typical_listing() {
    let l = parse_maps(&sample(), false, PAGE).expect("no abort");
    assert_eq!(l.entries.len(), 4);
    let e = &l.entries[0];
    assert_eq!(e.address, 0x55d0c1a00000);
    assert_eq!(e.size, 0x21000);
    assert_eq!(e.permissions, "r--p");
    assert_eq!(e.path, "cat");
    assert_eq!(l.entries[1].size, 0x2000);
    assert_eq!(l.entries[1].path, "[anon]");
    assert_eq!(l.entries[2].path, "[stack]");
    assert_eq!(l.entries[3].path, "");
    assert_eq!(l.outcome, Ok(0x21000 + 0x2000 + 0x21000 + 0x1000));
}

#[test]
fn relative_path_kept_and_trailing_slash() {
    let l = parse_maps(&lines(&["1000-2000 r--p 0 0 0 anon_inode:x", "3000-4000 r--p 0 0 0 /a/b/"]), false, PAGE).unwrap();
    assert_eq!(l.entries[0].path, "anon_inode:x");
    assert_eq!(l.entries[1].path, "");
}

#[test]
fn extra_dashes_before_end_address() {
    let l = parse_maps(&lines(&["1000--2000 r--p 0 0 0"]), false, PAGE).unwrap();
    assert_eq!(l.entries[0].address, 0x1000);
    assert_eq!(l.entries[0].size, 0x1000);
}

#[test]
fn non_hex_address_is_rejected() {
    let l = parse_maps(&lines(&["1000-2000 r--p 0 0 0", "zz-2000 r--p 0 0 0", ""]), false, PAGE).unwrap();
    assert_eq!(l.entries.len(), 1);
    assert_eq!(l.outcome, Err(InfoErr::AddrFmtErr));
}

#[test]
fn read_error_gives_line_error() {
    let l = parse_maps(&lines(&["1000-2000 r--p 0 0 0"]), true, PAGE).unwrap();
    assert_eq!(l.entries.len(), 1);
    assert_eq!(l.outcome, Err(InfoErr::LineErr));
}

#[test]
fn malformed_lines_abort() {
    assert!(parse_maps(&lines(&[""]), false, PAGE).is_none());
    assert!(parse_maps(&lines(&["10002000 r--p"]), false, PAGE).is_none());
    assert!(parse_maps(&lines(&["2000-1000 r--p"]), false, PAGE).is_none());
    assert!(parse_maps(&lines(&["1000-2000"]), false, PAGE).is_none());
    assert!(parse_maps(&lines(&["0-ffffffffffffffff r--p"]), false, PAGE).is_none());
}

#[test]
fn empty_listing_completes_with_zero() {
    let l = parse_maps(&Vec::new(), false, PAGE).unwrap();
    assert_eq!(l.entries.len(), 0);
    assert_eq!(l.outcome, Ok(0));
}

fn segment_text(addr: u64, phys: u64, size: &str, perm: &str, path: &str) -> String {
    format!("{:0>16x} {:>14x}  {:>6} {:>4} {:>6}\n", addr, phys, size, perm, path)
}

#[test]
fn segment_text_matches_format() {
    let s = InfoMemorySegment::new(0x55d0c1a00000, "132KB".to_string(), "r--p".to_string(), "cat".to_string(), 0xabc000);
    assert_eq!(s.to_text(), segment_text(0x55d0c1a00000, 0xabc000, "132KB", "r--p", "cat"));
    let long = InfoMemorySegment::new(u64::MAX, "1234567KB".to_string(), "rw-p".to_string(), "libverylong.so".to_string(), u64::MAX);
    assert_eq!(long.to_text(), segment_text(u64::MAX, u64::MAX, "1234567KB", "rw-p", "libverylong.so"));
}

fn record(info: &mut InfoAll, ls: &[&str]) -> Result<State, InfoErr> {
    let l = parse_maps(&lines(ls), false, PAGE).unwrap();
    let phys: Vec<u64> = l.entries.iter().map(|e| e.address / 2).collect();
    info.record_snapshot(l, &phys)
}

#[test]
fn recording_states() {
    let mut info = InfoAll::new(42);
    assert_eq!(info.get_count(), 0);
    assert_eq!(info.pid(), 42);
    assert_eq!(record(&mut info, &["1000-2000 r--p 0 0 0 /bin/a"]), Ok(State::Initial));
    assert_eq!(info.get_count(), 1);
    assert_eq!(record(&mut info, &["1000-2000 r--p 0 0 0 /bin/a"]), Ok(State::NotChanged));
    assert_eq!(info.get_count(), 1);
    assert_eq!(record(&mut info, &["1000-3000 r--p 0 0 0 /bin/a"]), Ok(State::Changed));
    assert_eq!(info.get_count(), 2);
    assert_eq!(record(&mut info, &[]), Err(InfoErr::OutputErr));
    assert_eq!(info.get_count(), 3);
    assert_eq!(info.snapshot(2).segments().len(), 0);
}

#[test]
fn failed_listing_keeps_partial_snapshot() {
    let mut info = InfoAll::new(1);
    let l = parse_maps(&lines(&["1000-2000 r--p 0 0 0", "x-1 r--p"]), false, PAGE).unwrap();
    assert_eq!(info.record_snapshot(l, &vec![7]), Err(InfoErr::AddrFmtErr));
    assert_eq!(info.get_count(), 1);
    let m = info.snapshot(0);
    assert_eq!(m.segments().len(), 1);
    assert_eq!(m.segments()[0].physical(), 7);
    assert_eq!(m.size_total(), "");
}

#[test]
fn snapshot_text_has_total_line() {
    let mut info = InfoAll::new(1);
    let l = MapsListing {
        entries: vec![MapsEntry { address: 0x1000, size: 0x3000, permissions: "r-xp".to_string(), path: "a".to_string() }],
        outcome: Ok(0x3000),
    };
    assert_eq!(info.record_snapshot(l, &vec![0]), Ok(State::Initial));
    let expected = segment_text(0x1000, 0, "12KB", "r-xp", "a") + &format!("{:<16} {:>6} \n", "total", "12KB");
    assert_eq!(info.map_text(0), expected);
    assert_eq!(info.snapshot(0).to_text(), expected);
    assert_eq!(info.to_text(), expected);
    assert_eq!(info.snapshot(0).segments()[0].size(), "12KB");
}

#[test]
fn map_equality() {
    let a = InfoMemoryMap::new();
    let b = InfoMemoryMap::new();
    assert!(a.same_as(&b));
    let mut info = InfoAll::new(1);
    record(&mut info, &["1000-2000 r--p 0 0 0 /bin/a"]).unwrap();
    assert!(!info.snapshot(0).same_as(&a));
    assert!(info.snapshot(0).same_as(info.snapshot(0)));
}

#[test]
fn diff_between_snapshots() {
    let mut info = InfoAll::new(1);
    record(&mut info, &["1000-2000 r--p 0 0 0 /bin/a", "5000-6000 rw-p 0 0 0"]).unwrap();
    record(&mut info, &["1000-2000 r--p 0 0 0 /bin/a", "5000-7000 rw-p 0 0 0"]).unwrap();
    let d = info.diff_lines(1);
    let prev = info.map_text(0);
    let curr = info.map_text(1);
    let old_lines: Vec<String> = d.iter().filter(|s| s.color != TextColor::Green)
        .map(|s| if s.color == TextColor::Red { s.text[1..].to_string() } else { s.text.clone() }).collect();
    let new_lines: Vec<String> = d.iter().filter(|s| s.color != TextColor::Red)
        .map(|s| if s.color == TextColor::Green { s.text[1..].to_string() } else { s.text.clone() }).collect();
    let mut expect_old: Vec<String> = prev.split('\n').map(|s| s.to_string()).collect();
    let mut expect_new: Vec<String> = curr.split('\n').map(|s| s.to_string()).collect();
    assert_eq!(old_lines, expect_old.drain(..).collect::<Vec<_>>());
    assert_eq!(new_lines, expect_new.drain(..).collect::<Vec<_>>());
    assert!(d.iter().any(|s| s.color == TextColor::Red && s.text.starts_with('-')));
    assert!(d.iter().any(|s| s.color == TextColor::Green && s.text.starts_with('+')));
    assert_eq!(d[0].color, TextColor::White);
    assert_eq!(d[0].text, prev.lines().next().unwrap());
}

#[test]
fn listing_sizes_are_whole_pages() {
    let l = parse_maps(&lines(&["1000-1001 r--p 0 0 0", "2000-4001 r--p 0 0 0", "5000-5000 r--p 0 0 0"]), false, PAGE).unwrap();
    for e in l.entries.iter() {
        assert_eq!(e.size % PAGE, 0);
    }
    assert_eq!(l.entries[0].size, 4096);
    assert_eq!(l.entries[1].size, 12288);
    assert_eq!(l.entries[2].size, 0);
    assert_eq!(l.outcome, Ok(16384));
}

#[test]
fn address_column_reads_back() {
    for addr in [0u64, 0x1000, 0x7ffd1c3e0000, u64::MAX] {
        let s = InfoMemorySegment::new(addr, "4KB".to_string(), "r--p".to_string(), "x".to_string(), 1);
        let text = s.to_text();
        assert_eq!(u64::from_str_radix(&text[..16], 16), Ok(addr));
        assert_eq!(s.address(), addr);
        assert_eq!(s.permissions(), "r--p");
        assert_eq!(s.path(), "x");
    }
}

#[test]
fn equal_snapshots_diff_all_white() {
    let mut info = InfoAll::new(1);
    let ls = &["1000-2000 r--p 0 0 0 /bin/a", "x-1 r--p"];
    for _ in 0..2 {
        let l = parse_maps(&lines(ls), false, PAGE).unwrap();
        assert_eq!(info.record_snapshot(l, &vec![3]), Err(InfoErr::AddrFmtErr));
    }
    assert_eq!(info.get_count(), 2);
    assert_eq!(info.map_text(0), info.map_text(1));
    let d = info.diff_lines(1);
    assert!(!d.is_empty());
    assert!(d.iter().all(|s| s.color == TextColor::White));
    let shown: Vec<String> = d.iter().map(|s| s.text.clone()).collect();
    let expect: Vec<String> = info.map_text(0).split('\n').map(|s| s.to_string()).collect();
    assert_eq!(shown, expect);
}

#[test]
fn carriage_return_is_a_column_separator() {
    let l = parse_maps(&lines(&["1000-2000\rr--p 0 0 0\r/bin/a\r"]), false, PAGE).unwrap();
    assert_eq!(l.entries.len(), 1);
    assert_eq!(l.entries[0].permissions, "r--p");
    assert_eq!(l.entries[0].path, "a");
    let mut info = InfoAll::new(1);
    assert_eq!(info.record_snapshot(l, &vec![0]), Ok(State::Initial));
    assert!(!info.map_text(0).contains('\r'));
}
