use ruta::corpus::{parse_usize, select_chunks, Framing, MAX_CHUNK, MAX_PER_SOURCE};
use ruta::reference::{host_of, is_build_source_file, Driver};

fn frame(chunk: &[u8]) -> Vec<u8> {
    let mut out = format!("{}\n", chunk.len()).into_bytes();
    out.extend_from_slice(chunk);
    out
}

#[test]
fn a_length_is_read_the_way_usize_from_str_reads_it() {
    assert_eq!(parse_usize(b"42"), Some(42));
    assert_eq!(parse_usize(b"+7"), Some(7));
    assert_eq!(parse_usize(b""), None);
    assert_eq!(parse_usize(b"+"), None);
    assert_eq!(parse_usize(b"-1"), None);
    assert_eq!(parse_usize(b"4a"), None);
    assert_eq!(parse_usize(b"99999999999999999999999999"), None);
    assert_eq!(parse_usize(usize::MAX.to_string().as_bytes()), Some(usize::MAX));
}

#[test]
fn chunks_are_kept_in_order_once_each() {
    let mut data = frame(b"return 1");
    data.extend(frame(b"return 2"));
    data.extend(frame(b"return 1"));
    let mut seen = Vec::new();
    let (chunks, stopped) = select_chunks(&data, &mut seen);
    assert_eq!(chunks, vec![b"return 1".to_vec(), b"return 2".to_vec()]);
    assert_eq!(stopped, None);
    assert_eq!(seen, chunks);
}

#[test]
fn bytecode_long_and_truncating_chunks_are_left_out() {
    let mut data = frame(b"\x1bLua");
    data.extend(frame(&vec![b'x'; MAX_CHUNK + 1]));
    data.extend(frame(b"a\x1ab"));
    data.extend(frame(b"ok"));
    let mut seen = vec![b"old".to_vec()];
    let (chunks, stopped) = select_chunks(&data, &mut seen);
    assert_eq!(chunks, vec![b"ok".to_vec()]);
    assert_eq!(stopped, None);
    assert_eq!(seen, vec![b"old".to_vec(), b"ok".to_vec()]);
}

#[test]
fn a_chunk_seen_in_an_earlier_file_is_left_out() {
    let mut seen = vec![b"x = 1".to_vec()];
    let (chunks, _) = select_chunks(&frame(b"x = 1"), &mut seen);
    assert!(chunks.is_empty());
}

#[test]
fn framing_errors_stop_the_reading_after_what_was_kept() {
    let mut data = frame(b"a");
    data.extend(b"x\nrest");
    let (chunks, stopped) = select_chunks(&data, &mut Vec::new());
    assert_eq!(chunks, vec![b"a".to_vec()]);
    assert_eq!(stopped, Some(Framing::Malformed));

    let (chunks, stopped) = select_chunks(b"10\nshort", &mut Vec::new());
    assert!(chunks.is_empty());
    assert_eq!(stopped, Some(Framing::Truncated));
}

#[test]
fn no_more_than_the_limit_is_kept_from_one_file() {
    let mut data = Vec::new();
    for i in 0..MAX_PER_SOURCE + 5 {
        data.extend(frame(format!("return {i}").as_bytes()));
    }
    let (chunks, stopped) = select_chunks(&data, &mut Vec::new());
    assert_eq!(chunks.len(), MAX_PER_SOURCE);
    assert_eq!(stopped, None);
}

#[test]
fn a_trailing_partial_header_ends_the_file_quietly() {
    let mut data = frame(b"a");
    data.extend(b"12");
    let (chunks, stopped) = select_chunks(&data, &mut Vec::new());
    assert_eq!(chunks, vec![b"a".to_vec()]);
    assert_eq!(stopped, None);
}

#[test]
fn each_driver_leaves_the_other_out() {
    assert_eq!(Driver::Lua.stem(), "lua");
    assert_eq!(Driver::Luac.stem(), "luac");
    assert_eq!(Driver::Lua.excluded(), "luac.c");
    assert_eq!(Driver::Luac.excluded(), "lua.c");
    assert!(is_build_source_file(Some(b"c"), b"lapi.c", Driver::Lua));
    assert!(is_build_source_file(Some(b"c"), b"lua.c", Driver::Lua));
    assert!(!is_build_source_file(Some(b"c"), b"luac.c", Driver::Lua));
    assert!(!is_build_source_file(Some(b"c"), b"lua.c", Driver::Luac));
    assert!(!is_build_source_file(Some(b"h"), b"lapi.h", Driver::Lua));
    assert!(!is_build_source_file(None, b"Makefile", Driver::Lua));
}

#[test]
fn the_host_is_read_from_the_compiler_report() {
    let report = b"rustc 1.80.0\nbinary: rustc\r\nhost: x86_64-unknown-linux-gnu\r\nrelease: 1.80.0\n";
    assert_eq!(host_of(report), Some(b"x86_64-unknown-linux-gnu".to_vec()));
    assert_eq!(host_of(b"release: 1\n"), None);
    assert_eq!(host_of(b"host: a\r"), Some(b"a\r".to_vec()));
    assert_eq!(host_of(b""), None);
}
