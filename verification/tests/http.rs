use e8_mask_codec::http::{
    body_bytes_missing, error_body, request_content_length, request_head_complete, response_head,
    route_request, RequestReadError, Route,
};
use e8_mask_codec::runtime::names::{
    archive_entry_action, chunk_file_name, chunk_id_of_file_name, is_temp_file_name,
    wheel210_entry_action, EntryAction, EXACT_EXT, WHEEL210_EXT,
};
use e8_mask_codec::runtime::resume::{manifest_u64, read_last_prime_from_wheel_index, KEY_COMMITTED_CHUNKS, KEY_COMMITTED_PRIMES};
use e8_mask_codec::runtime::wheel210::{parse_wheel210_index, render_wheel210_index, render_wheel210_manifest, Wheel210ChunkMeta};
use e8_mask_codec::runtime::ArchiveMode;

#[test]
fn requests_go_to_their_handlers() {
    assert_eq!(route_request(b"GET", b"/"), Route::Index);
    assert_eq!(route_request(b"GET", b"/healthz"), Route::Health);
    assert_eq!(route_request(b"POST", b"/api/is-prime"), Route::IsPrime);
    assert_eq!(route_request(b"POST", b"/api/next-prime"), Route::NextPrime);
    assert_eq!(route_request(b"POST", b"/api/is-prime-big"), Route::IsPrimeBig);
    assert_eq!(route_request(b"POST", b"/api/next-prime-big"), Route::NextPrimeBig);
    assert_eq!(route_request(b"POST", b"/api/is-prime-big-proven"), Route::IsPrimeBigProven);
    assert_eq!(route_request(b"POST", b"/api/next-prime-big-proven"), Route::NextPrimeBigProven);
    assert_eq!(route_request(b"POST", b"/healthz"), Route::NotFound);
    assert_eq!(route_request(b"GET", b"/api/is-prime"), Route::NotFound);
    assert_eq!(route_request(b"get", b"/"), Route::NotFound);
}

#[test]
fn error_bodies_escape_quotes_and_backslashes() {
    assert_eq!(error_body(b"bad"), b"{\"error\":\"bad\"}".to_vec());
    assert_eq!(error_body(b"a\"b\\c"), b"{\"error\":\"a\\\"b\\\\c\"}".to_vec());
}

#[test]
fn response_heads_carry_status_type_and_length() {
    assert_eq!(
        response_head(404, b"application/json", 12),
        b"HTTP/1.1 404 Not Found\r\nContent-Type: application/json\r\nContent-Length: 12\r\nCache-Control: no-store\r\nConnection: close\r\n\r\n".to_vec()
    );
    assert!(response_head(400, b"t", 0).starts_with(b"HTTP/1.1 400 Bad Request\r\n"));
    assert!(response_head(200, b"t", 0).starts_with(b"HTTP/1.1 200 OK\r\n"));
    assert!(response_head(500, b"t", 0).starts_with(b"HTTP/1.1 500 OK\r\n"));
}

#[test]
fn request_reading_follows_the_content_length() {
    let raw = b"POST /api/is-prime HTTP/1.1\r\nHost: x\r\nContent-LENGTH:  12 \r\n\r\n{\"n\":";
    assert_eq!(request_head_complete(raw), Ok(true));
    assert_eq!(request_content_length(raw), 12);
    assert_eq!(body_bytes_missing(raw), Ok(7));
    assert_eq!(request_head_complete(b"GET / HTTP/1.1\r\nHost"), Ok(false));
    assert_eq!(request_content_length(b"GET / HTTP/1.1\r\n\r\n"), 0);
    assert_eq!(request_content_length(b"POST / HTTP/1.1\r\ncontent-length: x\r\n\r\n"), 0);
    assert_eq!(body_bytes_missing(b"POST / HTTP/1.1\r\ncontent-length: 2\r\n\r\nabc"), Ok(0));
    assert_eq!(
        body_bytes_missing(b"POST / HTTP/1.1\r\ncontent-length: 99999999\r\n\r\n"),
        Err(RequestReadError::BodyTooLarge)
    );
}

#[test]
fn chunk_file_names_read_back() {
    assert_eq!(chunk_file_name(5, &WHEEL210_EXT), b"chunk_00000000000000000005.zst".to_vec());
    assert_eq!(chunk_file_name(u64::MAX, &EXACT_EXT), b"chunk_18446744073709551615.bin".to_vec());
    for id in [0_u64, 7, 1234, u64::MAX] {
        assert_eq!(chunk_id_of_file_name(&chunk_file_name(id, &EXACT_EXT), &EXACT_EXT), Some(id));
    }
    assert_eq!(chunk_id_of_file_name(b"chunk_5.zst", &WHEEL210_EXT), Some(5));
    assert_eq!(chunk_id_of_file_name(b"chunk_+5.zst", &WHEEL210_EXT), Some(5));
    assert_eq!(chunk_id_of_file_name(b"chunk_.zst", &WHEEL210_EXT), None);
    assert_eq!(chunk_id_of_file_name(b"chunk_5.bin", &WHEEL210_EXT), None);
    assert_eq!(chunk_id_of_file_name(b"chunk_5.x.zst", &WHEEL210_EXT), None);
    assert!(is_temp_file_name(b"chunk.123.tmp"));
    assert!(is_temp_file_name(b"chunk.tmp"));
    assert!(!is_temp_file_name(b"index.tsv.tmp"));
}

#[test]
fn archive_scans_remove_temporary_and_uncommitted_chunks() {
    assert_eq!(archive_entry_action(b"chunk.9.tmp", ArchiveMode::Both, 3), EntryAction::RemoveQuietly);
    assert_eq!(archive_entry_action(b"chunk_3.bin", ArchiveMode::Both, 3), EntryAction::Remove);
    assert_eq!(archive_entry_action(b"chunk_2.bin", ArchiveMode::Both, 3), EntryAction::Keep);
    assert_eq!(archive_entry_action(b"chunk_3.bin", ArchiveMode::Wheel210, 3), EntryAction::Keep);
    assert_eq!(archive_entry_action(b"manifest.txt", ArchiveMode::Both, 0), EntryAction::Keep);
    assert_eq!(wheel210_entry_action(b"chunk_00000000000000000004.zst", 3), EntryAction::Remove);
    assert_eq!(wheel210_entry_action(b"chunk_00000000000000000002.zst", 3), EntryAction::Keep);
    assert_eq!(wheel210_entry_action(b"chunk.1.tmp", 3), EntryAction::RemoveQuietly);
}

fn entry(chunk_id: u64, last_prime: u64) -> Wheel210ChunkMeta {
    Wheel210ChunkMeta {
        chunk_id,
        first_prime: 11,
        last_prime,
        cycle_start: 0,
        cycles: 1,
        raw_bytes: 6,
        compressed_bytes: 70,
    }
}

#[test]
fn written_manifests_and_indexes_read_back() {
    let manifest = render_wheel210_manifest(123_456, 7);
    assert_eq!(manifest_u64(&manifest, &KEY_COMMITTED_PRIMES), 123_456);
    assert_eq!(manifest_u64(&manifest, &KEY_COMMITTED_CHUNKS), 7);
    let entries = vec![entry(0, 97), entry(1, 199), entry(2, 1_009)];
    let index = render_wheel210_index(&entries);
    assert_eq!(parse_wheel210_index(&index), Ok(entries.clone()));
    assert_eq!(read_last_prime_from_wheel_index(&index), Ok(1_009));
    let empty = render_wheel210_index(&[]);
    assert_eq!(parse_wheel210_index(&empty), Ok(vec![]));
    assert_eq!(read_last_prime_from_wheel_index(&empty), Ok(0));
}
