use secretshare::codec::{crc24_as_bytes, format_share, parse_share_line, read_shares, ShareSet};
use secretshare::error::{new_vec, other_io_err, pie2io, Error, ErrorKind};
use secretshare::flow::{decode_lines, encode_secret, parse_k_n, MAX_SECRET};
use secretshare::gf256::Gf256;
use secretshare::text::{parse_u8, IntErrorKind};
use secretshare::sharing::{encode, lagrange_interpolate, reconstruct, secret_share};

fn g(b: u8) -> Gf256 {
    Gf256::from_byte(b)
}

fn decode_subset(lines: &[String], pick: &[usize]) -> Result<Vec<u8>, Error> {
    let chosen: Vec<String> = pick.iter().map(|&i| lines[i].clone()).collect();
    decode_lines(&chosen)
}

fn kind_of<T>(r: Result<T, Error>) -> ErrorKind {
    match r {
        Ok(_) => panic!("expected an error"),
        Err(e) => e.kind,
    }
}

#[test]
fn field_product_known_value() {
    assert_eq!(g(0x57).mul(g(0x83)).to_byte(), 0xC1);
    assert_eq!(g(2).mul(g(7)).to_byte(), 14);
    assert_eq!(g(3).mul(g(7)).to_byte(), 9);
    assert_eq!(g(0x80).mul(g(2)).to_byte(), 0x1B);
}

#[test]
fn field_laws_on_all_elements() {
    for a in 0..=255u8 {
        assert_eq!(g(a).add(g(a)).to_byte(), 0);
        assert_eq!(g(a).mul(Gf256::one()).to_byte(), a);
        assert_eq!(g(a).mul(Gf256::zero()).to_byte(), 0);
        if a != 0 {
            assert_eq!(g(a).mul(g(a).inverse()).to_byte(), 1);
            assert_eq!(g(a).div(g(a)).to_byte(), 1);
        }
        for b in (0..=255u8).step_by(7) {
            assert_eq!(g(a).mul(g(b)), g(b).mul(g(a)));
            assert_eq!(g(a).add(g(b)), g(b).add(g(a)));
            assert_eq!(g(a).sub(g(b)).to_byte(), a ^ b);
            for c in (0..=255u8).step_by(31) {
                assert_eq!(g(a).mul(g(b)).mul(g(c)), g(a).mul(g(b).mul(g(c))));
                assert_eq!(g(a).mul(g(b).add(g(c))), g(a).mul(g(b)).add(g(a).mul(g(c))));
                assert_eq!(g(a).add(g(b)).add(g(c)), g(a).add(g(b).add(g(c))));
            }
        }
    }
}

#[test]
fn polynomial_evaluation_exact() {
    assert_eq!(encode(&[5, 7], 3), vec![2, 11, 12]);
    assert_eq!(encode(&[9], 2), vec![9, 9]);
}

#[test]
fn interpolation_exact() {
    assert_eq!(lagrange_interpolate(&[(1, 2), (2, 11)], 0), 5);
    assert_eq!(lagrange_interpolate(&[(2, 11), (3, 12)], 0), 5);
    assert_eq!(lagrange_interpolate(&[(1, 2), (3, 12)], 2), 11);
    assert_eq!(lagrange_interpolate(&[(4, 77)], 0), 77);
}

#[test]
fn one_share_short_leaves_every_byte_possible() {
    // K = 2: with the share at x = 1 fixed, each secret byte has exactly one second coefficient.
    let observed = encode(&[0x42, 0x99], 1)[0];
    for v in 0..=255u8 {
        let count = (0..=255u8).filter(|&a1| encode(&[v, a1], 1)[0] == observed).count();
        assert_eq!(count, 1);
    }
}

#[test]
fn random_coefficients_vary() {
    let mut seen = std::collections::HashSet::new();
    for _ in 0..64 {
        let shares = secret_share(&[0u8], 2, 2).unwrap();
        seen.insert(shares[0][0]);
    }
    assert!(seen.len() > 8);
}

#[test]
fn checksum_exact() {
    assert_eq!(crc24_as_bytes(1, 1, &[]), [0x1A, 0x2E, 0x73]);
    assert_eq!(crc24_as_bytes(2, 1, &[0x68, 0x69]), [0xB1, 0xC1, 0x5C]);
}

#[test]
fn format_share_exact() {
    assert_eq!(format_share(2, 1, &[0x68, 0x69], false), "2-1-aGk");
    assert_eq!(format_share(2, 1, &[0x68, 0x69], true), "2-1-aGk-scFc");
    assert_eq!(format_share(1, 1, &[], true), "1-1--Gi5z");
    assert_eq!(format_share(255, 100, &[], false), "255-100-");
}

#[test]
fn parse_share_line_accepts_emitted() {
    let line = format_share(2, 1, &[0x68, 0x69], true);
    let (k, x, d) = parse_share_line(&line).unwrap().unwrap();
    assert_eq!((k, x, d), (2, 1, vec![0x68, 0x69]));
    let (k, x, d) = parse_share_line("  2-1-aGk \t").unwrap().unwrap();
    assert_eq!((k, x, d), (2, 1, vec![0x68, 0x69]));
    assert!(parse_share_line("   ").unwrap().is_none());
}

#[test]
fn parse_share_line_errors() {
    assert_eq!(kind_of(parse_share_line("2-1")), ErrorKind::ShareParseError);
    assert_eq!(kind_of(parse_share_line("2-1-aGk-scFc-x")), ErrorKind::ShareParseError);
    assert_eq!(kind_of(parse_share_line("0-1-aGk")), ErrorKind::ShareParseError);
    assert_eq!(kind_of(parse_share_line("2-0-aGk")), ErrorKind::ShareParseError);
    assert_eq!(kind_of(parse_share_line("256-1-aGk")), ErrorKind::ShareParseError);
    assert_eq!(kind_of(parse_share_line("a-1-aGk")), ErrorKind::ShareParseError);
    assert_eq!(kind_of(parse_share_line("2-1-a")), ErrorKind::ShareParseError);
    assert_eq!(kind_of(parse_share_line("2-1-a*k")), ErrorKind::ShareParseError);
    assert_eq!(kind_of(parse_share_line("2-1-aGk-scF")), ErrorKind::ShareParseError);
    assert_eq!(kind_of(parse_share_line("2-1-aGk-s*Fc")), ErrorKind::ShareParseError);
    assert_eq!(kind_of(parse_share_line("2-1-aGk-scFd")), ErrorKind::ChecksumMismatch);
}

#[test]
fn checksum_rejects_flipped_bits() {
    let data = [0x68u8, 0x69];
    let good = format_share(2, 1, &data, true);
    assert!(parse_share_line(&good).is_ok());
    // flipped bits of K, x, data, checksum
    assert!(parse_share_line(&format!("3-1-aGk-scFc")).is_err());
    assert!(parse_share_line(&format!("2-3-aGk-scFc")).is_err());
    assert!(parse_share_line(&format!("2-1-aWk-scFc")).is_err());
    assert!(parse_share_line(&format!("2-1-aGk-scFd")).is_err());
    for bit in 0..8 {
        let mut d = data;
        d[0] ^= 1 << bit;
        let crc = crc24_as_bytes(2, 1, &data);
        let line = format_share(2, 1, &d, false);
        let crc_line = format_share(2, 1, &crc, false);
        let crc_b64 = crc_line.rsplit('-').next().unwrap();
        assert!(parse_share_line(&format!("{}-{}", line, crc_b64)).is_err());
    }
}

#[test]
fn scenario_hi_two_of_three() {
    let lines = encode_secret(b"hi", 2, 3).unwrap();
    assert_eq!(lines.len(), 3);
    for (i, l) in lines.iter().enumerate() {
        let parts: Vec<&str> = l.split('-').collect();
        assert_eq!(parts.len(), 4);
        assert_eq!(parts[0], "2");
        assert_eq!(parts[1], format!("{}", i + 1));
        assert_eq!(parts[2].len(), 3);
        assert_eq!(parts[3].len(), 4);
    }
    for pick in [[0, 1], [0, 2], [1, 2], [2, 0]] {
        assert_eq!(decode_subset(&lines, &pick).unwrap(), b"hi".to_vec());
    }
}

#[test]
fn scenario_empty_secret() {
    let lines = encode_secret(&[], 1, 1).unwrap();
    assert_eq!(lines, vec!["1-1--Gi5z".to_string()]);
    assert_eq!(decode_lines(&lines).unwrap(), Vec::<u8>::new());
}

#[test]
fn scenario_all_bytes_three_of_five() {
    let secret: Vec<u8> = (0..=255u8).collect();
    let lines = encode_secret(&secret, 3, 5).unwrap();
    assert_eq!(lines.len(), 5);
    for a in 0..5 {
        for b in (a + 1)..5 {
            for c in (b + 1)..5 {
                assert_eq!(decode_subset(&lines, &[a, b, c]).unwrap(), secret);
            }
            assert_eq!(kind_of(decode_subset(&lines, &[a, b])), ErrorKind::NotEnoughShares);
        }
    }
}

#[test]
fn scenario_mutated_character() {
    let lines = encode_secret(b"hello", 2, 2).unwrap();
    let mut chars: Vec<char> = lines[0].chars().collect();
    let pos = lines[0].find('-').unwrap() + 3;
    chars[pos] = if chars[pos] == 'A' { 'B' } else { 'A' };
    let bad: String = chars.into_iter().collect();
    assert_eq!(kind_of(decode_lines(&vec![bad, lines[1].clone()])), ErrorKind::ChecksumMismatch);
    // without the checksum, a longer payload is incompatible with the first share
    let first = lines[0].rsplitn(2, '-').nth(1).unwrap().to_string();
    let longer = format!("{}AAAA", lines[1].rsplitn(2, '-').nth(1).unwrap());
    assert_eq!(kind_of(decode_lines(&vec![first, longer])), ErrorKind::IncompatibleShares);
}

#[test]
fn scenario_mismatched_k() {
    let a = format_share(2, 1, &[1, 2], true);
    let b = format_share(3, 2, &[1, 2], true);
    assert_eq!(kind_of(decode_lines(&vec![a, b])), ErrorKind::IncompatibleShares);
}

#[test]
fn scenario_size_limit() {
    let big = vec![7u8; MAX_SECRET + 1];
    assert_eq!(kind_of(encode_secret(&big, 2, 3)), ErrorKind::SecretTooLarge);
    let max = vec![7u8; MAX_SECRET];
    let lines = encode_secret(&max, 2, 3).unwrap();
    assert_eq!(lines.len(), 3);
    assert_eq!(decode_subset(&lines, &[2, 0]).unwrap(), max);
}

#[test]
fn duplicate_line_counts_once() {
    let lines = encode_secret(b"xyz", 2, 3).unwrap();
    let once = decode_lines(&vec![lines[0].clone(), lines[1].clone()]).unwrap();
    let twice = decode_lines(&vec![lines[0].clone(), lines[0].clone(), lines[1].clone()]).unwrap();
    assert_eq!(once, twice);
    assert_eq!(once, b"xyz".to_vec());
    let only_dup = vec![lines[0].clone(), lines[0].clone()];
    assert_eq!(kind_of(decode_lines(&only_dup)), ErrorKind::NotEnoughShares);
}

#[test]
fn read_shares_stops_at_k_and_skips_blank_lines() {
    let lines = encode_secret(b"ab", 2, 3).unwrap();
    let input = vec!["".to_string(), lines[2].clone(), "  ".to_string(), lines[0].clone(), "garbage".to_string()];
    let (k, shares) = read_shares(&input).unwrap();
    assert_eq!(k, 2);
    assert_eq!(shares.len(), 2);
    assert_eq!(shares[0].0, 3);
    assert_eq!(shares[1].0, 1);
    assert_eq!(reconstruct(&shares, k), b"ab".to_vec());
}

#[test]
fn share_set_line_by_line() {
    let lines = encode_secret(b"q", 2, 2).unwrap();
    let mut set = ShareSet::new();
    assert!(!set.is_complete());
    assert_eq!(set.add_line(&lines[1]).unwrap(), false);
    assert_eq!(set.add_line(&lines[1]).unwrap(), false);
    assert_eq!(set.add_line(&lines[0]).unwrap(), true);
    assert!(set.is_complete());
    assert_eq!(reconstruct(&set.shares, 2), b"q".to_vec());
}

#[test]
fn parse_k_n_cases() {
    assert_eq!(parse_k_n("2,3").unwrap(), (2, 3));
    assert_eq!(parse_k_n(" 2 , 3 ").unwrap(), (2, 3));
    assert_eq!(parse_k_n("2,3,9").unwrap(), (2, 3));
    assert_eq!(kind_of(parse_k_n("2")), ErrorKind::ArgError);
    assert_eq!(kind_of(parse_k_n("2,x")), ErrorKind::ArgError);
    assert_eq!(kind_of(parse_k_n("2,256")), ErrorKind::ArgError);
}

#[test]
fn error_message_text() {
    let e = Error::new(ErrorKind::SecretTooLarge, "Secret too large", Some("My limit is at 65536 bytes.".to_string()));
    assert_eq!(e.message(), "Secret too large (My limit is at 65536 bytes.)");
    let e = Error::new(ErrorKind::NotEnoughShares, "Not enough shares provided!", None);
    assert_eq!(e.message(), "Not enough shares provided!");
}

#[test]
fn error_helpers() {
    let e = pie2io(ErrorKind::ArgError, IntErrorKind::InvalidDigit);
    assert_eq!(e.kind, ErrorKind::ArgError);
    assert_eq!(e.message(), "Integer parsing error (invalid digit found in string)");
    let e = other_io_err(ErrorKind::IoError, "I/O error", Some("closed".to_string()));
    assert_eq!(e.kind, ErrorKind::IoError);
    assert_eq!(e.message(), "I/O error (closed)");
    assert_eq!(new_vec(3, 9), vec![9, 9, 9]);
    assert_eq!(new_vec(0, 9), Vec::<u8>::new());
}

#[test]
fn two_coefficient_round_trip_every_pair() {
    for x1 in 1..=20u8 {
        for x2 in 1..=20u8 {
            if x1 != x2 {
                let ys = encode(&[0xA5, 0x3C], 20);
                let pts = [(x1, ys[(x1 - 1) as usize]), (x2, ys[(x2 - 1) as usize])];
                assert_eq!(lagrange_interpolate(&pts, 0), 0xA5);
            }
        }
    }
}

fn chars(s: &str) -> Vec<char> {
    s.chars().collect()
}

#[test]
fn parse_u8_reasons_match_std() {
    for t in ["", "0", "7", "42", "255", "0255", "256", "999", "x", "2x", "+1", "-1", "2560x", "99x", "1000"] {
        let ours = parse_u8(&chars(t));
        let std = t.parse::<u8>();
        match (ours, std) {
            (Ok(a), Ok(b)) if t != "+1" => assert_eq!(a, b),
            (Err(IntErrorKind::Empty), Err(e)) => assert_eq!(e.to_string(), "cannot parse integer from empty string"),
            (Err(IntErrorKind::InvalidDigit), Err(e)) => assert_eq!(e.to_string(), "invalid digit found in string"),
            (Err(IntErrorKind::PosOverflow), Err(e)) => assert_eq!(e.to_string(), "number too large to fit in target type"),
            (Err(IntErrorKind::InvalidDigit), Ok(_)) => assert_eq!(t, "+1"),
            (a, b) => panic!("{:?} vs {:?} on {:?}", a, b, t),
        }
    }
}

#[test]
fn parse_error_detail_in_messages() {
    match parse_k_n("2,x") {
        Err(e) => assert_eq!(e.message(), "Integer parsing error (invalid digit found in string)"),
        Ok(_) => panic!("accepted"),
    }
    match parse_share_line("300-1-aGk") {
        Err(e) => {
            assert_eq!(e.kind, ErrorKind::ShareParseError);
            assert_eq!(e.message(), "Integer parsing error (number too large to fit in target type)");
        }
        Ok(_) => panic!("accepted"),
    }
}

#[test]
fn threshold_one_shares_equal_secret() {
    let shares = secret_share(b"hi", 1, 3).unwrap();
    assert_eq!(shares, vec![b"hi".to_vec(), b"hi".to_vec(), b"hi".to_vec()]);
    let lines = encode_secret(b"hi", 1, 2).unwrap();
    assert_eq!(lines[0], format_share(1, 1, b"hi", true));
    assert_eq!(lines[1], format_share(1, 2, b"hi", true));
}
