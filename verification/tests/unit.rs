use base85::{
    calc_decode_len, calc_encode_len, decode, encode, generate_rfc1924_decode_table,
    RFC1924_ALPHABET,
};

const RFC1924_ALPHABET_ENCODED: &str = "FflSSG&MFiI5|N=LqtVJM@UIZOH55pPf$@(Q&d$}S6EqEVPa!sWoBn+X=-b1ZEkOHadLBXb#`}nd3qruBqb&&DJm;1J3Ku;KR{kzV0(Oheg";

fn testlist() -> [(&'static str, &'static str); 9] {
    [
        ("a", "VE"),
        ("aa", "VPO"),
        ("aaa", "VPRn"),
        ("aaaa", "VPRom"),
        ("aaaaa", "VPRomVE"),
        ("aaaaaa", "VPRomVPO"),
        ("aaaaaaa", "VPRomVPRn"),
        ("aaaaaaaa", "VPRomVPRom"),
        (std::str::from_utf8(&RFC1924_ALPHABET).unwrap(), RFC1924_ALPHABET_ENCODED),
    ]
}

#[test]
fn unit_check_alphabet_used() {
    assert_eq!(85, RFC1924_ALPHABET.len());
}

#[test]
fn unit_count_char_in_decode_table() {
    let count_char_in_decode_table =
        generate_rfc1924_decode_table()
            .iter()
            .fold(0_u32, |count, x| if x.is_some() { count + 1 } else { count });
    assert_eq!(85, count_char_in_decode_table);
}

#[test]
fn unit_check_len() {
    for (input, expected_output) in testlist().iter() {
        assert_eq!(input.len(), calc_decode_len(expected_output.len()));
        assert_eq!(expected_output.len(), calc_encode_len(input.len()));
    }
}

#[test]
fn unit_encode_and_decode_all_possible_chars() -> Result<(), base85::Error> {
    let mut input = Vec::<u8>::with_capacity(256);
    for i in 0..=255 {
        input.push(i as u8);
    }
    let encoded = encode(&input);
    let all_possible_encoded:&str="009C61O)~M2nh-c3=Iws5D^j+6crX17#SKH9337XAR!_nBqb&%C@Cr{EG;fCFflSSG&MFiI5|2yJUu=?KtV!7L`6nNNJ&adOifNtP*GA-R8>}2SXo+ITwPvYU}0ioWMyV&XlZI|Y;A6DaB*^Tbai%jczJqze0_d@fPsR8goTEOh>41ejE#<ukdcy;l$Dm3n3<ZJoSmMZprN9pq@|{(sHv)}tgWuEu(7hUw6(UkxVgH!yuH4^z`?@9#Kp$P$jQpf%+1cv(9zP<)YaD4*xB0K+}+;a;Njxq<mKk)=;`X~?CtLF@bU8V^!4`l`1$(#{Qds_";
    assert_eq!(all_possible_encoded, encoded);

    let decoded = decode(encoded.as_bytes())?;
    assert_eq!(input, decoded);
    Ok(())
}
