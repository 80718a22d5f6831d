use memvis::cache::AtomicMemoryReference;
use memvis::console::{list_cursor_down, list_cursor_up, scroll_down, scroll_up, select_region};
use memvis::maps::AddressSpaceMetadata;
use memvis::nav::{ClientState, NavOutcome, RegionEntry};
use memvis::protocol::{
    decode_command, decode_dump, encode_command, encode_dump, Command, CommandType, MemoryDump,
};
use memvis::range::AddressRange;
use memvis::reader::{MemoryMap, MemoryReader};
use memvis::session::{session_step, SessionStep};
use memvis::stack_pointer::extract_stack_pointer;

fn region(start: usize, end: usize, name: &str) -> RegionEntry {
    RegionEntry { range: AddressRange { start, end }, name: name.to_string() }
}

fn two_region_state() -> ClientState {
    ClientState {
        pid: 1,
        region_index: 0,
        offset_within_region: 0,
        mem_regions: vec![region(0x1000, 0x2000, "a"), region(0x2000, 0x3000, "b")],
    }
}

#[test]
fn up_at_origin_is_boundary() {
    let mut s = two_region_state();
    let outcome = s.process_command(CommandType::Up);
    assert_eq!(outcome, NavOutcome::Boundary);
    assert_eq!(s.region_index, 0);
    assert_eq!(s.offset_within_region, 0);
}

#[test]
fn down_at_end_is_boundary() {
    let mut s = two_region_state();
    s.region_index = 1;
    s.offset_within_region = 0x1000 - 128;
    let outcome = s.process_command(CommandType::Down);
    assert_eq!(outcome, NavOutcome::Boundary);
    assert_eq!(s.region_index, 1);
    assert_eq!(s.offset_within_region, 0x1000 - 128);
}

#[test]
fn down_then_up_round_trip() {
    let mut s = two_region_state();
    for _ in 0..40 {
        s.process_command(CommandType::Down);
    }
    for _ in 0..40 {
        s.process_command(CommandType::Up);
    }
    assert_eq!(s.region_index, 0);
    assert_eq!(s.offset_within_region, 0);
}

#[test]
fn chunk_stepping_arithmetic() {
    // regions of 0x1000 = 32 chunks of 128 bytes each
    let mut s = two_region_state();
    for _ in 0..30 {
        assert_eq!(s.process_command(CommandType::Down), NavOutcome::Moved);
    }
    assert_eq!(s.region_index, 0);
    assert_eq!(s.offset_within_region, 3840);
    assert_eq!(s.process_command(CommandType::Down), NavOutcome::Moved);
    assert_eq!(s.region_index, 0);
    assert_eq!(s.offset_within_region, 3968);
    assert_eq!(s.process_command(CommandType::Down), NavOutcome::Moved);
    assert_eq!(s.region_index, 1);
    assert_eq!(s.offset_within_region, 0);
}

#[test]
fn up_crosses_to_previous_region_last_chunk() {
    let mut s = two_region_state();
    s.region_index = 1;
    s.offset_within_region = 0;
    assert_eq!(s.process_command(CommandType::Up), NavOutcome::Moved);
    assert_eq!(s.region_index, 0);
    assert_eq!(s.offset_within_region, 0x1000 - 128);
}

#[test]
fn unknown_command_is_ignored() {
    let mut s = two_region_state();
    s.offset_within_region = 128;
    assert_eq!(s.process_command(CommandType::Unknown), NavOutcome::Ignored);
    assert_eq!(s.offset_within_region, 128);
}

#[test]
fn command_codec_round_trip() {
    for (t, pid) in [
        (CommandType::Init, 1234u32),
        (CommandType::Up, 0),
        (CommandType::Down, u32::MAX),
        (CommandType::Unknown, 7),
    ] {
        let c = Command { command_type: t, pid };
        let bytes = encode_command(&c);
        assert_eq!(bytes.len(), 5);
        assert_eq!(decode_command(&bytes), Some(c));
    }
}

#[test]
fn command_codec_rejects_bad_frames() {
    assert_eq!(decode_command(&[]), None);
    assert_eq!(decode_command(&[1, 0, 0, 0]), None);
    assert_eq!(decode_command(&[9, 0, 0, 0, 0]), None);
    assert_eq!(decode_command(&[1, 0, 0, 0, 0, 0]), None);
}

#[test]
fn dump_codec_round_trip() {
    let d = MemoryDump {
        status: "Progress: 50% | Offset: 2048 / 4096 bytes".to_string(),
        region_index: 3,
        region_start: 0x1000,
        region_end: 0x2000,
        region_name: "/usr/lib/libc.so".to_string(),
        lines: vec!["line one".to_string(), "line two".to_string()],
    };
    let bytes = encode_dump(&d).expect("encodes");
    let back = decode_dump(&bytes).expect("decodes");
    assert_eq!(back.status, d.status);
    assert_eq!(back.region_index, d.region_index);
    assert_eq!(back.region_start, d.region_start);
    assert_eq!(back.region_end, d.region_end);
    assert_eq!(back.region_name, d.region_name);
    assert_eq!(back.lines, d.lines);
}

#[test]
fn dump_codec_handles_non_ascii_text() {
    let d = MemoryDump {
        status: "zugriff verwehrt \u{1F6AB}".to_string(),
        region_index: 0,
        region_start: 0,
        region_end: 0,
        region_name: String::new(),
        lines: vec![],
    };
    let bytes = encode_dump(&d).expect("encodes");
    let back = decode_dump(&bytes).expect("decodes");
    assert_eq!(back.status, d.status);
}

#[test]
fn dump_codec_rejects_trailing_bytes() {
    let d = MemoryDump {
        status: "s".to_string(),
        region_index: 0,
        region_start: 0,
        region_end: 0,
        region_name: String::new(),
        lines: vec![],
    };
    let mut bytes = encode_dump(&d).expect("encodes");
    bytes.push(0);
    assert!(decode_dump(&bytes).is_none());
    assert!(decode_dump(&[1, 2, 3]).is_none());
}

fn capture(start: usize, end: usize, path: &str, fill: u8) -> MemoryMap {
    MemoryMap {
        pid: 1,
        metadata: AddressSpaceMetadata {
            range: AddressRange { start, end },
            permissions: "r--p".to_string(),
            offset: 0,
            device: "00:00".to_string(),
            inode: 0,
            path: path.to_string(),
            size: end - start,
        },
        memory: vec![fill; end - start],
    }
}

#[test]
fn cache_sorts_ranges_and_serves_queries() {
    let cache = AtomicMemoryReference::new();
    cache.set_maps(vec![
        capture(0x3000, 0x4000, "b", 2),
        capture(0x1000, 0x2000, "a", 1),
    ]);
    let ranges = cache.ranges();
    assert_eq!(ranges.len(), 2);
    assert_eq!(ranges[0].start, 0x1000);
    assert_eq!(ranges[1].start, 0x3000);

    let (idx, meta, bytes) = cache.get_range(0x3008, 0x3010);
    assert_eq!(idx, 1);
    assert_eq!(meta.expect("found").metadata.path, "b");
    assert_eq!(bytes, vec![2u8; 8]);

    let (idx, meta, bytes) = cache.get_range(0x2000, 0x2004);
    assert_eq!(idx, 0);
    assert!(meta.is_none());
    assert_eq!(bytes, vec![0u8; 4]);
}

#[test]
fn cache_replacement_is_whole() {
    let cache = AtomicMemoryReference::new();
    cache.set_maps(vec![capture(0x1000, 0x2000, "old", 1)]);
    cache.set_maps(vec![capture(0x5000, 0x6000, "new", 9)]);
    // after the swap, nothing of the prior generation is visible
    let (_, meta, bytes) = cache.get_range(0x5000, 0x5002);
    assert_eq!(meta.expect("found").metadata.path, "new");
    assert_eq!(bytes, vec![9u8; 2]);
    let (_, miss, zeros) = cache.get_range(0x1000, 0x1002);
    assert!(miss.is_none());
    assert_eq!(zeros, vec![0u8; 2]);
    assert_eq!(cache.ranges().len(), 1);
}

#[test]
fn stack_pointer_token_extraction() {
    assert_eq!(
        extract_stack_pointer(b"35 0x5 0x7ffc11223344 0x7f0a deadbeef"),
        Some(0x7f0a)
    );
    assert_eq!(extract_stack_pointer(b"running"), None);
    assert_eq!(extract_stack_pointer(b""), None);
    assert_eq!(extract_stack_pointer(b"0x"), None);
    assert_eq!(extract_stack_pointer(b"0xzz 12"), None);
}

#[test]
fn console_steps() {
    assert_eq!(list_cursor_up(0), 0);
    assert_eq!(list_cursor_up(3), 2);
    assert_eq!(list_cursor_down(0, 2), 1);
    assert_eq!(list_cursor_down(1, 2), 1);
    assert_eq!(select_region(1, 3), Some(0));
    assert_eq!(select_region(4, 3), None);
    assert_eq!(select_region(0, 3), None);
    assert_eq!(scroll_up(0, 10), 0);
    assert_eq!(scroll_up(30, 10), 20);
    assert_eq!(scroll_down(0, 10, 2, 100), 10);
    assert_eq!(scroll_down(80, 10, 2, 100), 80);
}

#[test]
fn session_rejects_undecodable_message() {
    let mut state = None;
    assert!(matches!(session_step(&mut state, &[1, 2, 3]), SessionStep::Close));
    assert!(state.is_none());
}

#[test]
fn session_ignores_navigation_before_init() {
    let mut state = None;
    let msg = encode_command(&Command { command_type: CommandType::Down, pid: 0 });
    assert!(matches!(session_step(&mut state, &msg), SessionStep::Silent));
    assert!(state.is_none());
}

#[test]
fn session_live_round_trip_on_own_process() {
    let pid = nix::unistd::getpid().as_raw() as u32;
    let mut state = None;
    let init = encode_command(&Command { command_type: CommandType::Init, pid });
    let step = session_step(&mut state, &init);
    assert!(matches!(step, SessionStep::Silent));
    let s = state.as_ref().expect("own process has readable regions");
    assert_eq!(s.pid, pid);
    assert_eq!(s.region_index, 0);
    assert_eq!(s.offset_within_region, 0);

    let down = encode_command(&Command { command_type: CommandType::Down, pid });
    match session_step(&mut state, &down) {
        SessionStep::Send(bytes) => {
            let dump = decode_dump(&bytes).expect("well-formed dump frame");
            assert!(!dump.lines.is_empty());
            assert!(dump.status.starts_with("Progress: "));
        },
        SessionStep::SendAndClose(_) => panic!("own memory must be readable"),
        SessionStep::Silent => panic!("expected a dump for a readable region"),
        SessionStep::Close => panic!("message was well-formed"),
    }
}

#[test]
fn session_init_without_readable_regions_stays_fresh() {
    // a pid that cannot be a live process: enumeration yields nothing
    let mut state = None;
    let msg = encode_command(&Command { command_type: CommandType::Init, pid: u32::MAX });
    assert!(matches!(session_step(&mut state, &msg), SessionStep::Silent));
    assert!(state.is_none());
}

#[test]
fn read_of_absent_process_fails() {
    let r = memvis::reader::read_chunk_at(2111222333, 0x1000, 128);
    assert!(r.is_err());
}

#[test]
fn reader_captures_own_regions() {
    let pid = nix::unistd::getpid().as_raw();
    let mut reader = MemoryReader::new(pid, false);
    let maps = reader.read_memory();
    assert!(!maps.is_empty());
    for m in &maps {
        assert_eq!(m.memory.len(), m.metadata.size);
        assert!(m.metadata.permissions.contains('r'));
        assert_eq!(m.metadata.size, m.metadata.range.end - m.metadata.range.start);
    }
    // a capture of our own code really reads live bytes, not zeros
    let text = maps.iter().any(|m| m.memory.iter().any(|&b| b != 0));
    assert!(text);
}
