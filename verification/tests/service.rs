use e8_mask_codec::bench::{consume, event_checksum, random_selectors, XorShift64, BENCH_SEED};
use e8_mask_codec::gpu::{validate, validate_pool_capacity, validate_pool_count, validate_pool_run, GpuError, GpuScanMode};
use e8_mask_codec::service::{
    parse_big_n, parse_http_request, parse_n, preview_digits, validate_big_n, BigNumberError,
    QueryInputError, RequestError,
};
use e8_mask_codec::{MaskEvent, ACTIVE_BITS};

#[test]
fn request_lines_give_method_path_and_body() {
    let request = b"POST /api/is_prime HTTP/1.1\r\nHost: x\r\n\r\n{\"n\":\"7\"}";
    let ((m0, m1), (p0, p1), (b0, b1)) = parse_http_request(request).expect("request");
    assert_eq!(&request[m0..m1], b"POST");
    assert_eq!(&request[p0..p1], b"/api/is_prime");
    assert_eq!(&request[b0..b1], b"{\"n\":\"7\"}");
    let plain = b"GET /\n\nbody";
    let ((m0, m1), (p0, p1), (b0, b1)) = parse_http_request(plain).expect("request");
    assert_eq!((&plain[m0..m1], &plain[p0..p1], &plain[b0..b1]), (&b"GET"[..], &b"/"[..], &b"body"[..]));
    assert_eq!(parse_http_request(b""), Err(RequestError::EmptyRequest));
    assert_eq!(parse_http_request(b"   \r\n"), Err(RequestError::MissingMethod));
    assert_eq!(parse_http_request(b"GET\r\n"), Err(RequestError::MissingPath));
}

#[test]
fn query_numbers_are_trimmed_decimals() {
    assert_eq!(parse_n(b"  42\n"), Ok(42));
    assert_eq!(parse_n(b"+7"), Ok(7));
    assert_eq!(parse_n(b" \t"), Err(QueryInputError::Missing));
    assert_eq!(parse_n(b"18446744073709551616"), Err(QueryInputError::InvalidU64));
    assert_eq!(parse_n(b"-1"), Err(QueryInputError::InvalidU64));
}

#[test]
fn big_numbers_lose_their_white_space() {
    assert_eq!(validate_big_n(b" 12 34\n56 "), Ok(b"123456".to_vec()));
    assert_eq!(validate_big_n(b"   "), Err(BigNumberError::Empty));
    assert_eq!(validate_big_n(b"12a"), Err(BigNumberError::NonDigit { cleaned: b"12a".to_vec() }));
    let huge = vec![b'1'; 100_001];
    assert_eq!(validate_big_n(&huge), Err(BigNumberError::TooLarge { digits: 100_001 }));
}

#[test]
fn valid_big_numbers_always_parse() {
    let (digits, n) = parse_big_n(b" 1234567890 1234567890\t1234567890 ").expect("parsed");
    assert_eq!(digits, b"123456789012345678901234567890".to_vec());
    assert_eq!(n.to_string(), "123456789012345678901234567890");
    let (_, zero) = parse_big_n(b"000").expect("parsed");
    assert_eq!(zero.to_string(), "0");
    assert_eq!(parse_big_n(b"").map(|(d, _)| d), Err(BigNumberError::Empty));
    assert_eq!(
        parse_big_n(b"1_000").map(|(d, _)| d),
        Err(BigNumberError::NonDigit { cleaned: b"1_000".to_vec() })
    );
}

#[test]
fn long_numbers_are_previewed() {
    assert_eq!(preview_digits(b"12345"), b"12345".to_vec());
    let digits: Vec<u8> = (0..45).map(|i| b'0' + (i % 10) as u8).collect();
    let shown = String::from_utf8(preview_digits(&digits)).unwrap();
    assert_eq!(shown, "01234567890123456789…5678901234 (45 digits total)");
}

#[test]
fn xorshift_matches_its_recurrence() {
    let mut random = XorShift64::new(1);
    let first = random.next();
    let mut s = 1_u64;
    s ^= s >> 12;
    s ^= s << 25;
    s ^= s >> 27;
    assert_eq!(random.state, s);
    assert_eq!(first, s.wrapping_mul(0x2545_f491_4f6c_dd1d));
}

#[test]
fn benchmark_selectors_follow_the_draws() {
    let words = random_selectors(3, 25);
    assert_eq!(words.len(), 3);
    let mut random = XorShift64::new(BENCH_SEED);
    for word in &words {
        assert_eq!(word & !ACTIVE_BITS, 0);
        for bit in 0..60 {
            let set = (random.next() as u32) % 100 < 25;
            assert_eq!((word >> bit) & 1 == 1, set);
        }
    }
    assert!(random_selectors(2, 0).iter().all(|&w| w == 0));
    assert!(random_selectors(2, 100).iter().all(|&w| w == ACTIVE_BITS));
}

#[test]
fn checksums_add_the_channels() {
    let event = MaskEvent::new(0, 11);
    assert_eq!(event_checksum(event), 11 + 33 + 99 + 77);
    let mut accumulator = u64::MAX;
    consume(&mut accumulator, event);
    assert_eq!(accumulator, 33 + 99 + 77 + 11 - 1);
}

#[test]
fn gpu_requests_are_checked_before_the_device() {
    assert_eq!(validate(&[1, 2], 1), Ok(()));
    assert_eq!(validate(&[], 1), Err(GpuError::Cuda(1)));
    assert_eq!(validate(&[1 << 60], 1), Err(GpuError::Cuda(1)));
    assert_eq!(validate(&[1], 0), Err(GpuError::Cuda(1)));
    assert_eq!(validate_pool_capacity(0), Err(GpuError::Cuda(1)));
    assert_eq!(validate_pool_run(1, &[1, 2], 1), Err(GpuError::Cuda(1)));
    assert_eq!(validate_pool_count(2, &[1, 2]), Ok(()));
    assert_eq!(GpuScanMode::DenseWarp.code(), 1);
}
