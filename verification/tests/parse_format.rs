use memvis::dump::{
    dump_signals_permission_failure, format_memory_chunk, percent, produce_dump, DumpResponse,
    ReadError,
};
use memvis::maps::{parse_maps_bytes, parse_maps_line};
use memvis::nav::{ClientState, RegionEntry};
use memvis::range::AddressRange;
use memvis::reader::proc_path;
use memvis::text::{parse_dec_usize, parse_hex_usize};

fn region(start: usize, end: usize, name: &str) -> RegionEntry {
    RegionEntry { range: AddressRange { start, end }, name: name.to_string() }
}

#[test]
fn range_contains_start_not_end() {
    let r = AddressRange { start: 0x1000, end: 0x2000 };
    assert!(r.contains(0x1000));
    assert!(r.contains(0x1fff));
    assert!(!r.contains(0x2000));
    assert!(!r.contains(0x0fff));
}

#[test]
fn hex_parsing() {
    assert_eq!(parse_hex_usize(b"ff"), Some(255));
    assert_eq!(parse_hex_usize(b"7f1A2b"), Some(0x7f1a2b));
    assert_eq!(parse_hex_usize(b""), None);
    assert_eq!(parse_hex_usize(b"fg"), None);
    assert_eq!(parse_hex_usize(b"1ffffffffffffffff0"), None);
}

#[test]
fn dec_parsing() {
    assert_eq!(parse_dec_usize(b"0"), Some(0));
    assert_eq!(parse_dec_usize(b"123456"), Some(123456));
    assert_eq!(parse_dec_usize(b"12a"), None);
    assert_eq!(parse_dec_usize(b""), None);
}

#[test]
fn maps_line_readable() {
    let line = b"7f0000000000-7f0000001000 r-xp 0001a000 08:01 393244 /usr/lib/libc.so";
    let m = parse_maps_line(line).expect("readable line parses");
    assert_eq!(m.range.start, 0x7f0000000000);
    assert_eq!(m.range.end, 0x7f0000001000);
    assert_eq!(m.size, 0x1000);
    assert_eq!(m.permissions, "r-xp");
    assert_eq!(m.offset, 0x1a000);
    assert_eq!(m.device, "08:01");
    assert_eq!(m.inode, 393244);
    assert_eq!(m.path, "/usr/lib/libc.so");
}

#[test]
fn maps_line_without_read_permission_is_rejected() {
    let line = b"7f0000000000-7f0000001000 ---p 00000000 08:01 393244 /usr/lib/libc.so";
    assert!(parse_maps_line(line).is_none());
}

#[test]
fn maps_line_anonymous_path() {
    let line = b"10000-20000 rw-p 00000000 00:00 0";
    let m = parse_maps_line(line).expect("anonymous line parses");
    assert_eq!(m.path, "[anonymous]");
}

#[test]
fn maps_line_utf8_path() {
    let line = "10000-20000 r--p 00000000 00:00 0 /tmp/caf\u{e9}".as_bytes();
    let m = parse_maps_line(line).expect("UTF-8 path parses");
    assert_eq!(m.path, "/tmp/caf\u{e9}");
}

#[test]
fn maps_line_non_utf8_path_is_skipped() {
    let mut line = b"10000-20000 r--p 00000000 00:00 0 /tmp/".to_vec();
    line.push(0xff);
    assert!(parse_maps_line(&line).is_none());
}

#[test]
fn maps_line_malformed() {
    assert!(parse_maps_line(b"").is_none());
    assert!(parse_maps_line(b"garbage").is_none());
    assert!(parse_maps_line(b"10000 rw-p 0 00:00 0").is_none());
    assert!(parse_maps_line(b"20000-10000 rw-p 0 00:00 0").is_none());
}

#[test]
fn maps_table_skips_bad_lines() {
    let table = b"10000-20000 r--p 00000000 00:00 0 /a\nnot a line\n30000-40000 ---p 00000000 00:00 0 /b\n50000-60000 rw-p 00000000 00:00 0 /c\n";
    let ms = parse_maps_bytes(table);
    assert_eq!(ms.len(), 2);
    assert_eq!(ms[0].path, "/a");
    assert_eq!(ms[1].path, "/c");
}

#[test]
fn format_exact_partial_line() {
    let lines = format_memory_chunk(0x1000, &[0x41, 0x42]);
    assert_eq!(lines.len(), 1);
    let expected = format!(
        "Addr: 0x00001000 | +000 | {:<48} | {:<16}",
        "41 42 ", "AB"
    );
    assert_eq!(lines[0], expected);
}

#[test]
fn format_exact_full_lines() {
    let data: Vec<u8> = (0u8..32u8).collect();
    let lines = format_memory_chunk(0x2000, &data);
    assert_eq!(lines.len(), 2);
    let hex0: String = (0u8..16u8).map(|b| format!("{:02X} ", b)).collect();
    let ascii0: String = (0u8..16u8).map(|_| '.').collect();
    let expected0 = format!("Addr: 0x00002000 | +000 | {:<48} | {:<16}", hex0, ascii0);
    assert_eq!(lines[0], expected0);
    let hex1: String = (16u8..32u8).map(|b| format!("{:02X} ", b)).collect();
    let expected1 = format!("Addr: 0x00002010 | +016 | {:<48} | {:<16}", hex1, "................");
    assert_eq!(lines[1], expected1);
}

#[test]
fn format_line_count() {
    let data = vec![0u8; 128];
    assert_eq!(format_memory_chunk(0, &data).len(), 8);
    assert_eq!(format_memory_chunk(0, &[]).len(), 0);
}

#[test]
fn percent_at_start_is_zero() {
    assert_eq!(percent(0, 4096), 0);
}

#[test]
fn percent_rounds() {
    // last chunk of a 32-chunk region: 96.875 rounds to 97, not 100
    assert_eq!(percent(3968, 4096), 97);
    // last chunk of a 200-chunk region rounds to 100
    assert_eq!(percent(25600 - 128, 25600), 100);
    assert_eq!(percent(2048, 4096), 50);
}

#[test]
fn dump_success_fields() {
    let state = ClientState {
        pid: 1,
        region_index: 0,
        offset_within_region: 0,
        mem_regions: vec![region(0x1000, 0x2000, "heap")],
    };
    let data = vec![0u8; 128];
    match produce_dump(&state, Ok(data)) {
        DumpResponse::Send(d, terminate) => {
            assert!(!terminate);
            assert_eq!(d.status, "Progress: 0% | Offset: 0 / 4096 bytes");
            assert_eq!(d.region_index, 0);
            assert_eq!(d.region_start, 0x1000);
            assert_eq!(d.region_end, 0x2000);
            assert_eq!(d.region_name, "heap");
            assert_eq!(d.lines.len(), 8);
        },
        DumpResponse::Silent => panic!("expected a dump"),
    }
}

#[test]
fn dump_permission_denied_closes_session() {
    let state = ClientState {
        pid: 4242,
        region_index: 0,
        offset_within_region: 0,
        mem_regions: vec![region(0x1000, 0x2000, "heap")],
    };
    match produce_dump(&state, Err(ReadError::PermissionDenied)) {
        DumpResponse::Send(d, terminate) => {
            assert!(terminate);
            assert!(d.lines.is_empty());
            assert!(!d.status.is_empty());
            assert!(d.status.contains("Insufficient permission"));
            assert!(dump_signals_permission_failure(&d));
            assert!(d.status.contains("4242"));
            assert_eq!(d.region_index, 0);
            assert_eq!(d.region_start, 0);
            assert_eq!(d.region_end, 0);
            assert_eq!(d.region_name, "");
        },
        DumpResponse::Silent => panic!("expected a dump"),
    }
}

#[test]
fn ordinary_status_does_not_signal_denial() {
    let state = ClientState {
        pid: 1,
        region_index: 0,
        offset_within_region: 0,
        mem_regions: vec![region(0x1000, 0x2000, "heap")],
    };
    match produce_dump(&state, Ok(vec![0u8; 128])) {
        DumpResponse::Send(d, _) => assert!(!dump_signals_permission_failure(&d)),
        DumpResponse::Silent => panic!("expected a dump"),
    }
}

#[test]
fn dump_other_failure_is_silent() {
    let state = ClientState {
        pid: 1,
        region_index: 0,
        offset_within_region: 0,
        mem_regions: vec![region(0x1000, 0x2000, "heap")],
    };
    assert!(matches!(produce_dump(&state, Err(ReadError::Other)), DumpResponse::Silent));
}

#[test]
fn proc_paths() {
    assert_eq!(proc_path(1234, "maps"), "/proc/1234/maps");
    assert_eq!(proc_path(0, "mem"), "/proc/0/mem");
}
