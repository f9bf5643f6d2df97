use base85::{
    calc_decode_len, calc_encode_len, decode, decode_noalloc, encode, encode_noalloc, Error,
    RFC1924_ALPHABET,
};

// Check with https://nerdmosis.com/tools/encode-and-decode-base85
const RFC1924_ALPHABET_ENCODED: &str = "FflSSG&MFiI5|N=LqtVJM@UIZOH55pPf$@(Q&d$}S6EqEVPa!sWoBn+X=-b1ZEkOHadLBXb#`}nd3qruBqb&&DJm;1J3Ku;KR{kzV0(Oheg";

fn get_rfc1924_dic_as_str() -> &'static str {
    std::str::from_utf8(&RFC1924_ALPHABET).unwrap()
}

fn testlist() -> [(&'static str, &'static str); 9] {
    [
        ("a", "VE"),
        ("aa", "VPO"),
        ("aaa", "VPRn"),
        ("aaaa", "VPRom"),
        ("aaaaa", "VPRomVE"),
        ("aaaaaa", "VPRomVPO"),
        ("aaaaaaa", "VPRomVPRn"),
        ("aaaaaaaa", "VPRomVPRom"),
        (get_rfc1924_dic_as_str(), RFC1924_ALPHABET_ENCODED),
    ]
}

#[test]
fn api_encode_decode() -> Result<(), Error> {
    // The list of tests consists of the unencoded data on the left and the encoded data on
    // the right. By using strings for the arbitrary binary data, we make the test much less
    // complicated to write.

    for test in testlist().iter() {
        let s = encode(test.0.as_bytes());
        assert_eq!(
            s, test.1,
            "encoder test failed: wanted: {}, got: {}",
            test.0, s
        );

        let b = decode(test.1.as_bytes())
            .unwrap_or_else(|e| panic!("decoder test error on input {}: {:?}", test.1, e));

        let s = String::from_utf8(b).unwrap_or_else(|e| {
            panic!(
                "decoder test '{}' failed to convert to string: {:#?}",
                test.1, e
            )
        });

        assert_eq!(
            test.0, s,
            "decoder data mismatch: wanted: {}, got: {}",
            test.0, s
        );
    }
    Ok(())
}

#[test]
fn api_encode_noalloc_and_decode_noalloc() -> Result<(), Error> {
    // The list of tests consists of the decoded data on the left and the encoded data on
    // the right. By using strings for the arbitrary binary data, we make the test much less
    // complicated to write.

    let max_len = testlist().iter().fold(0 as usize, |acc, test| {
        calc_encode_len(test.0.len()).max(acc)
    });
    assert_eq!(107, max_len, "test data is too long for the output buffer");
    let mut output_orig = vec![0u8; max_len];
    let mut output = &mut output_orig[..];
    for test in testlist().iter() {
        let resu = encode_noalloc(test.0.as_bytes(), &mut output)?;

        assert_eq!(
            test.1.as_bytes(),
            resu.as_bytes(),
            "encoder test failed: wanted: {:?}, got: {:?}",
            test.0.as_bytes(),
            resu
        );

        let b = decode_noalloc(test.1.as_bytes(), &mut output)
            .unwrap_or_else(|e| panic!("decoder test error on input {}: {:?}", test.1, e));

        let s = std::str::from_utf8(b).unwrap_or_else(|e| {
            panic!(
                "decoder test '{}' failed to convert to string: {:#?}",
                test.1, e
            )
        });

        assert_eq!(
            test.0, s,
            "decoder data mismatch: wanted: {}, got: {}",
            test.0, s
        );
    }
    Ok(())
}
