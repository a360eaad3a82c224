use memview::text::{chars_of, parse_hex_u64, split_whitespace, string_from_chars};
use memview::units::{format_byte_size, page_size_from_sysconf, round_up_to_page_size};
use memview::error::InfoErr;

fn hex(s: &str) -> Option<u64> {
    parse_hex_u64(&s.chars().collect())
}

#[test]
fn byte_size_below_one_kib() {
    assert_eq!(format_byte_size(0), "0 B");
    assert_eq!(format_byte_size(1), "1 B");
    assert_eq!(format_byte_size(1023), "1023 B");
}

#[test]
fn byte_size_whole_kib() {
    assert_eq!(format_byte_size(1024), "1KB");
    assert_eq!(format_byte_size(4096), "4KB");
    assert_eq!(format_byte_size(135168), "132KB");
}

#[test]
fn byte_size_fractional_kib() {
    assert_eq!(format_byte_size(1536), "1.5KB");
    assert_eq!(format_byte_size(1025), "1.0009765625KB");
    assert_eq!(format_byte_size(12345678), "12056.326171875KB");
}

fn float_text(n: u64) -> String {
    format!("{}KB", n as f64 / 1024.0)
}

#[test]
fn byte_size_matches_float_display() {
    let mut n: u64 = 1024;
    while n < 50_000_000 {
        assert_eq!(format_byte_size(n), float_text(n), "size {}", n);
        n = n * 3 + 7;
    }
    for n in 1024u64..5000 {
        assert_eq!(format_byte_size(n), float_text(n), "size {}", n);
    }
}

#[test]
fn byte_size_shortest_form_of_large_sizes() {
    assert_eq!(format_byte_size(8589934593), "8388608.000976563KB");
    assert_eq!(format_byte_size(1099511627777), "1073741824.0009766KB");
    assert_eq!(format_byte_size(1125899906842625), "1099511627776.001KB");
    assert_eq!(format_byte_size(9007199254740993), "8796093022208KB");
    assert_eq!(format_byte_size(u64::MAX), "18014398509481984KB");
}

#[test]
fn byte_size_matches_float_display_everywhere() {
    let mut seed: u64 = 0x9e3779b97f4a7c15;
    for _ in 0..200_000 {
        seed = seed.wrapping_mul(6364136223846793005).wrapping_add(1442695040888963407);
        let bits = 10 + (seed >> 58) % 55;
        let n = (seed >> 3) >> (64 - bits).min(63);
        let n = n.max(1024);
        assert_eq!(format_byte_size(n), float_text(n), "size {}", n);
    }
    for e in 10u32..64 {
        let p = 1u64 << e;
        for d in 0u64..40 {
            for n in [p + d, p - d.min(p - 1024).min(p), p.wrapping_add(d << 8), p + (p >> 1) + d] {
                if n >= 1024 {
                    assert_eq!(format_byte_size(n), float_text(n), "size {}", n);
                }
            }
        }
    }
    for d in 0u64..5000 {
        let n = u64::MAX - d;
        assert_eq!(format_byte_size(n), float_text(n), "size {}", n);
    }
}

#[test]
fn page_rounding() {
    assert_eq!(round_up_to_page_size(0, 4096), 0);
    assert_eq!(round_up_to_page_size(1, 4096), 4096);
    assert_eq!(round_up_to_page_size(4096, 4096), 4096);
    assert_eq!(round_up_to_page_size(4097, 4096), 8192);
    for n in [3u64, 100, 4095, 123457] {
        let r = round_up_to_page_size(n, 4096);
        assert_eq!(r % 4096, 0);
        assert!(n <= r && r < n + 4096);
    }
}

#[test]
fn page_size_from_sysconf_result() {
    assert_eq!(page_size_from_sysconf(4096), Ok(4096));
    assert_eq!(page_size_from_sysconf(-1), Err(InfoErr::PageErr));
}

#[test]
fn splits_like_std() {
    let samples = [
        "",
        "   ",
        "a",
        " a  b\tc\n",
        "Process name  cat  pid  42",
        "x\u{a0}y\u{2003}z\u{3000}w\u{85}v",
        "55d0-55d1 r--p 00000000 08:01 1234   /usr/bin/cat",
    ];
    for s in samples {
        let ours = split_whitespace(s);
        let std: Vec<String> = s.split_whitespace().map(|w| w.to_string()).collect();
        assert_eq!(ours, std, "input {:?}", s);
    }
}

#[test]
fn chars_roundtrip() {
    let s = "héllo wörld";
    let cs = chars_of(s);
    assert_eq!(cs.len(), 11);
    assert_eq!(string_from_chars(&cs), s);
}

#[test]
fn hex_parsing_matches_from_str_radix() {
    let samples = [
        "", "+", "-", "0", "00", "ff", "FF", "+ff", "-ff", "++1", "deadbeef", "7fffffffffffffff",
        "ffffffffffffffff", "10000000000000000", "0000000000000000ffff", "12g", " 1", "1 ",
    ];
    for s in samples {
        assert_eq!(hex(s), u64::from_str_radix(s, 16).ok(), "input {:?}", s);
    }
}

#[test]
fn hex_printing_reads_back() {
    for n in [0u64, 1, 15, 16, 255, 0x55d0c1a00000, u64::MAX] {
        let printed = format!("{:0>16x}", n);
        assert_eq!(hex(&printed), Some(n));
        let plain = format!("{:x}", n);
        assert_eq!(hex(&plain), Some(n));
    }
}
