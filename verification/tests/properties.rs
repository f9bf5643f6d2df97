use base85::{
    can_decode_without_overflow, calc_decode_len, calc_encode_len, decode, decode_noalloc, encode, encode_noalloc,
    generate_rfc1924_decode_table, Error, RFC1924_ALPHABET,
};

fn sample(len: usize) -> Vec<u8> {
    (0..len).map(|i| ((i * 37 + 11) % 256) as u8).collect()
}

#[test]
fn roundtrip_of_every_length_up_to_forty() {
    for len in 0..40 {
        let data = sample(len);
        let text = encode(&data);
        assert_eq!(text.len(), calc_encode_len(len));
        assert_eq!(decode(text.as_bytes()).unwrap(), data);
    }
}

#[test]
fn roundtrip_of_extreme_bytes() {
    for data in [vec![0xffu8], vec![0xff, 0xff], vec![0xff, 0xff, 0xff], vec![0xff; 4], vec![0u8; 7]] {
        let text = encode(&data);
        assert_eq!(decode(text.as_bytes()).unwrap(), data);
    }
    assert_eq!(encode(&[0xff, 0xff, 0xff, 0xff]), "|NsC0");
    assert_eq!(encode(&[0, 0, 0, 0]), "00000");
}

#[test]
fn encoding_uses_only_the_alphabet() {
    let text = encode(&sample(333));
    assert!(text.bytes().all(|c| RFC1924_ALPHABET.contains(&c)));
}

#[test]
fn empty_input() {
    assert_eq!(encode(&[]), "");
    assert_eq!(decode(b"").unwrap(), Vec::<u8>::new());
    let mut out = [7u8; 3];
    assert_eq!(encode_noalloc(&[], &mut out).unwrap(), "");
    assert_eq!(decode_noalloc(b"  \n", &mut out).unwrap().len(), 0);
    assert_eq!(out, [7u8; 3]);
}

#[test]
fn length_formulas() {
    let enc = [0usize, 2, 3, 4, 5, 7, 8, 9, 10, 12];
    for (n, e) in enc.iter().enumerate() {
        assert_eq!(calc_encode_len(n), *e);
    }
    let dec = [0usize, 0, 1, 2, 3, 4, 4, 5, 6, 7, 8];
    for (m, d) in dec.iter().enumerate() {
        assert_eq!(calc_decode_len(m), *d);
    }
}

#[test]
fn encoding_is_a_quarter_larger_and_sizes_invert() {
    for n in 0..500usize {
        assert_eq!(calc_encode_len(n), (5 * n + 3) / 4);
        assert_eq!(calc_decode_len(calc_encode_len(n)), n);
    }
}

#[test]
fn decode_skips_whitespace() {
    assert_eq!(decode(b"VP Rom\nVE").unwrap(), b"aaaaa".to_vec());
    assert_eq!(decode(b"\tV P\rR o m V E \n").unwrap(), b"aaaaa".to_vec());
    let mut out = [0u8; 5];
    let r = decode_noalloc(b"V P R o m V E", &mut out).unwrap();
    assert_eq!(r, b"aaaaa");
}

#[test]
fn decode_noalloc_sizes_by_significant_characters() {
    // Seven significant characters need five bytes, whatever the whitespace.
    let mut out = [0u8; 5];
    assert!(decode_noalloc(b"VPRomVE      ", &mut out).is_ok());
    let mut short = [9u8; 4];
    assert_eq!(
        decode_noalloc(b"VPRom VE", &mut short).unwrap_err(),
        Error::OutputBufferTooSmall
    );
    assert_eq!(short, [9u8; 4]);
}

#[test]
fn invalid_character_is_reported() {
    let mut out = [0u8; 8];
    assert_eq!(
        decode_noalloc(b"VPRomV\"", &mut out).unwrap_err(),
        Error::InvalidCharacter(b'"')
    );
    assert_eq!(
        decode_noalloc(b"VP.om", &mut out).unwrap_err(),
        Error::InvalidCharacter(b'.')
    );
    // The allocating decoder reports every failure as an unexpected end.
    assert_eq!(decode(b"VP.om").unwrap_err(), Error::UnexpectedEof);
}

#[test]
fn one_leftover_character_is_an_unexpected_end() {
    let mut out = [0u8; 8];
    assert_eq!(
        decode_noalloc(b"VPRomV", &mut out).unwrap_err(),
        Error::UnexpectedEof
    );
    assert_eq!(decode(b"V").unwrap_err(), Error::UnexpectedEof);
    // An invalid single leftover character is reported as such.
    assert_eq!(
        decode_noalloc(b"VPRom.", &mut out).unwrap_err(),
        Error::InvalidCharacter(b'.')
    );
}

#[test]
fn encode_noalloc_buffer_too_small_writes_nothing() {
    let mut out = [1u8; 6];
    assert_eq!(
        encode_noalloc(b"aaaaa", &mut out).unwrap_err(),
        Error::OutputBufferTooSmall
    );
    assert_eq!(out, [1u8; 6]);
}

#[test]
fn encode_noalloc_writes_only_the_encoding() {
    let mut out = [b'#'; 10];
    let s = encode_noalloc(b"aa", &mut out).unwrap();
    assert_eq!(s, "VPO");
    assert_eq!(s.len(), 3);
    assert_eq!(&out[..], b"VPO#######");
}

#[test]
fn decode_noalloc_returns_only_the_decoded_part() {
    let mut out = [b'#'; 10];
    {
        let r = decode_noalloc(b"VPRn", &mut out).unwrap();
        assert_eq!(r.len(), 3);
        assert_eq!(r, b"aaa");
        r[0] = b'b';
    }
    assert_eq!(&out[..], b"baa#######");
}

#[test]
fn decode_table_matches_alphabet() {
    let table = generate_rfc1924_decode_table();
    for (i, c) in RFC1924_ALPHABET.iter().enumerate() {
        assert_eq!(table[*c as usize], Some(i as u8));
    }
    assert_eq!(table[b' ' as usize], None);
    assert_eq!(table[b'"' as usize], None);
}

#[test]
fn overflow_check_on_texts() {
    assert!(can_decode_without_overflow(b"VPRomVE"));
    assert!(can_decode_without_overflow(b""));
    assert!(can_decode_without_overflow(encode(&[0xff; 9]).as_bytes()));
    // 84 * 85^4 already exceeds u32::MAX.
    assert!(!can_decode_without_overflow(b"~~~~~"));
    assert!(!can_decode_without_overflow(b"VPRom ~0000"));
    // The first group fails before any sum overflows.
    assert!(can_decode_without_overflow(b"..~~~"));
    assert!(can_decode_without_overflow(b"VPRom.~~~~~~~~~"));
    // A lone leftover character of large value overflows before the end is noticed.
    assert!(!can_decode_without_overflow(b"~"));
    // A valid last partial group with the padding digit 126 that overflows.
    assert!(!can_decode_without_overflow(b"|Nt"));
    assert!(can_decode_without_overflow(b"!!!!!"));
}

#[test]
fn decode_noalloc_failure_keeps_the_groups_before() {
    let mut out = [b'#'; 8];
    assert_eq!(
        decode_noalloc(b"VPRom VP.om", &mut out).unwrap_err(),
        Error::InvalidCharacter(b'.')
    );
    assert_eq!(&out[..], b"aaaa####");
    let mut out2 = [b'#'; 8];
    assert_eq!(
        decode_noalloc(b"VPRomV", &mut out2).unwrap_err(),
        Error::UnexpectedEof
    );
    assert_eq!(&out2[..], b"aaaa####");
}

#[test]
fn encode_noalloc_ignores_old_buffer_contents() {
    let data = sample(13);
    let mut a = [0u8; 20];
    let mut b = [0xeeu8; 20];
    let sa = encode_noalloc(&data, &mut a).unwrap().to_string();
    let sb = encode_noalloc(&data, &mut b).unwrap().to_string();
    assert_eq!(sa, sb);
    let mut c = [0u8; 10];
    let mut d = [0x55u8; 10];
    assert!(encode_noalloc(&data, &mut c).is_err());
    assert!(encode_noalloc(&data, &mut d).is_err());
}

#[test]
fn encoding_splits_at_whole_groups() {
    let x = sample(8);
    let y = sample(7);
    let whole = [x.clone(), y.clone()].concat();
    assert_eq!(encode(&whole), encode(&x) + &encode(&y));
}

#[test]
fn whitespace_anywhere_in_any_amount() {
    let text = encode(&sample(11));
    let mut spaced = Vec::new();
    for (i, c) in text.bytes().enumerate() {
        for _ in 0..(i % 3) {
            spaced.push([b' ', b'\t', b'\n', b'\r'][i % 4]);
        }
        spaced.push(c);
    }
    spaced.extend_from_slice(b" \r\n");
    assert_eq!(decode(&spaced), decode(text.as_bytes()));
    assert_eq!(decode(&spaced).unwrap(), sample(11));
}

#[test]
fn decode_agrees_with_decode_noalloc() {
    for s in [&b"VPRomVE"[..], b"VP Rom", b"V", b"VP.om", b"", b"VPRomV"] {
        let mut buf = vec![0u8; calc_decode_len(s.len())];
        let via_buffer = decode_noalloc(s, &mut buf)
            .map(|r| r.to_vec())
            .map_err(|_| Error::UnexpectedEof);
        assert_eq!(decode(s), via_buffer);
    }
}
