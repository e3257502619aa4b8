use shamir_mpc::field::Fq;
use shamir_mpc::protocol::{
    encode_command, parse_command, parse_field, parse_unsigned, same_bytes, tokenize, Command,
    ParseError,
};

fn fq(n: u64) -> Fq {
    Fq::from_int(n)
}

#[test]
fn tokenize_finds_the_words() {
    assert_eq!(tokenize(b"HELLO 8080"), vec![(0, 5), (6, 10)]);
    assert_eq!(tokenize(b"  a \t bc\n"), vec![(2, 3), (6, 8)]);
    assert_eq!(tokenize(b""), Vec::new());
    assert_eq!(tokenize(b" \r\n\t\x0b\x0c"), Vec::new());
    assert_eq!(tokenize(b"x"), vec![(0, 1)]);
}

#[test]
fn parse_hello() {
    assert_eq!(parse_command(b"HELLO 8080"), Ok(Command::Hello { port: 8080 }));
    assert_eq!(parse_command(b"HELLO 0"), Ok(Command::Hello { port: 0 }));
    assert_eq!(parse_command(b"HELLO 65535"), Ok(Command::Hello { port: 65535 }));
    assert_eq!(parse_command(b"HELLO +80"), Ok(Command::Hello { port: 80 }));
    assert_eq!(parse_command(b"HELLO 0080"), Ok(Command::Hello { port: 80 }));
}

#[test]
fn parse_hello_with_a_bad_port() {
    assert_eq!(parse_command(b"HELLO 65536"), Err(ParseError::MalformedCommand));
    assert_eq!(parse_command(b"HELLO port"), Err(ParseError::MalformedCommand));
    assert_eq!(parse_command(b"HELLO -1"), Err(ParseError::MalformedCommand));
    assert_eq!(parse_command(b"HELLO +"), Err(ParseError::MalformedCommand));
    assert_eq!(parse_command(b"HELLO 80a"), Err(ParseError::MalformedCommand));
}

#[test]
fn parse_commands_without_fields() {
    assert_eq!(parse_command(b"COMMUNICATE_SHARES"), Ok(Command::CommunicateShares));
    assert_eq!(parse_command(b"SUM_AND_DISTRIBUTE"), Ok(Command::SumAndDistribute));
    assert_eq!(parse_command(b"GIVE_RESULT"), Ok(Command::GiveResult));
    assert_eq!(parse_command(b"SHOW_SHARES"), Ok(Command::ShowShares));
    assert_eq!(parse_command(b"  GIVE_RESULT\r\n"), Ok(Command::GiveResult));
}

#[test]
fn parse_receive_share() {
    assert_eq!(
        parse_command(b"RECEIVE_SHARE 1 2 11"),
        Ok(Command::ReceiveShare { sender: 1, x: fq(2), y: fq(11) })
    );
    assert_eq!(
        parse_command(b"RECEIVE_SHARE\t18446744073709551615\n0   126 "),
        Ok(Command::ReceiveShare { sender: u64::MAX, x: fq(0), y: fq(126) })
    );
}

#[test]
fn parse_receive_share_reduces_field_elements() {
    assert_eq!(
        parse_command(b"RECEIVE_SHARE 3 128 1000"),
        Ok(Command::ReceiveShare { sender: 3, x: fq(1), y: fq(111) })
    );
    // a number far beyond 64 bits is still a field element
    assert_eq!(
        parse_command(b"RECEIVE_SHARE 3 1 340282366920938463463374607431768211456"),
        Ok(Command::ReceiveShare { sender: 3, x: fq(1), y: fq(4) })
    );
}

#[test]
fn parse_receive_share_with_bad_fields() {
    assert_eq!(
        parse_command(b"RECEIVE_SHARE one 2 3"),
        Err(ParseError::MalformedCommand)
    );
    assert_eq!(
        parse_command(b"RECEIVE_SHARE 18446744073709551616 2 3"),
        Err(ParseError::MalformedCommand)
    );
    assert_eq!(
        parse_command(b"RECEIVE_SHARE 1 02 3"),
        Err(ParseError::MalformedCommand)
    );
    assert_eq!(
        parse_command(b"RECEIVE_SHARE 1 2 +3"),
        Err(ParseError::MalformedCommand)
    );
    assert_eq!(
        parse_command(b"RECEIVE_SHARE 1 2 3x"),
        Err(ParseError::MalformedCommand)
    );
}

#[test]
fn parse_receive_sum() {
    assert_eq!(
        parse_command(b"RECEIVE_SUM 2 9"),
        Ok(Command::ReceiveSum { sender: 2, sum: fq(9) })
    );
    assert_eq!(parse_command(b"RECEIVE_SUM 2 x"), Err(ParseError::MalformedCommand));
    assert_eq!(parse_command(b"RECEIVE_SUM x 2"), Err(ParseError::MalformedCommand));
}

#[test]
fn unrecognized_messages() {
    assert_eq!(parse_command(b""), Err(ParseError::Unrecognized));
    assert_eq!(parse_command(b"   "), Err(ParseError::Unrecognized));
    assert_eq!(parse_command(b"PING"), Err(ParseError::Unrecognized));
    assert_eq!(parse_command(b"hello 80"), Err(ParseError::Unrecognized));
    assert_eq!(parse_command(b"HELLO"), Err(ParseError::Unrecognized));
    assert_eq!(parse_command(b"HELLO 1 2"), Err(ParseError::Unrecognized));
    assert_eq!(parse_command(b"RECEIVE_SHARE 1 2"), Err(ParseError::Unrecognized));
    assert_eq!(parse_command(b"RECEIVE_SHARE 1 2 3 4"), Err(ParseError::Unrecognized));
    assert_eq!(parse_command(b"RECEIVE_SUM 1"), Err(ParseError::Unrecognized));
    assert_eq!(parse_command(b"GIVE_RESULT now"), Err(ParseError::Unrecognized));
    assert_eq!(parse_command(b"COMMUNICATE_SHARES 8081 8082"), Err(ParseError::Unrecognized));
    assert_eq!(parse_command(b"GIVE_RESULTS"), Err(ParseError::Unrecognized));
    assert_eq!(parse_command(&[0xff, 0xfe]), Err(ParseError::Unrecognized));
}

#[test]
fn parse_unsigned_values() {
    assert_eq!(parse_unsigned(b"0", 10), Some(0));
    assert_eq!(parse_unsigned(b"10", 10), Some(10));
    assert_eq!(parse_unsigned(b"11", 10), None);
    assert_eq!(parse_unsigned(b"+7", 10), Some(7));
    assert_eq!(parse_unsigned(b"007", 10), Some(7));
    assert_eq!(parse_unsigned(b"", 10), None);
    assert_eq!(parse_unsigned(b"+", 10), None);
    assert_eq!(parse_unsigned(b"++7", 10), None);
    assert_eq!(parse_unsigned(b"7+", 10), None);
    assert_eq!(parse_unsigned(b"18446744073709551615", u64::MAX), Some(u64::MAX));
    assert_eq!(parse_unsigned(b"18446744073709551616", u64::MAX), None);
    assert_eq!(parse_unsigned(b"99999999999999999999999", u64::MAX), None);
}

#[test]
fn parse_field_values() {
    assert_eq!(parse_field(b"0"), Some(fq(0)));
    assert_eq!(parse_field(b"126"), Some(fq(126)));
    assert_eq!(parse_field(b"127"), Some(fq(0)));
    assert_eq!(parse_field(b"254"), Some(fq(0)));
    assert_eq!(parse_field(b"00"), None);
    assert_eq!(parse_field(b"01"), None);
    assert_eq!(parse_field(b""), None);
    assert_eq!(parse_field(b"+1"), None);
    assert_eq!(parse_field(b"1 "), None);
}

#[test]
fn same_bytes_compares_content() {
    assert!(same_bytes(b"abc", b"abc"));
    assert!(!same_bytes(b"abc", b"abd"));
    assert!(!same_bytes(b"abc", b"ab"));
    assert!(same_bytes(b"", b""));
}

#[test]
fn encode_each_command() {
    assert_eq!(encode_command(&Command::Hello { port: 8080 }), b"HELLO 8080".to_vec());
    assert_eq!(encode_command(&Command::Hello { port: 0 }), b"HELLO 0".to_vec());
    assert_eq!(encode_command(&Command::CommunicateShares), b"COMMUNICATE_SHARES".to_vec());
    assert_eq!(
        encode_command(&Command::ReceiveShare { sender: 1, x: fq(2), y: fq(11) }),
        b"RECEIVE_SHARE 1 2 11".to_vec()
    );
    assert_eq!(
        encode_command(&Command::ReceiveShare { sender: u64::MAX, x: fq(0), y: fq(126) }),
        b"RECEIVE_SHARE 18446744073709551615 0 126".to_vec()
    );
    assert_eq!(encode_command(&Command::SumAndDistribute), b"SUM_AND_DISTRIBUTE".to_vec());
    assert_eq!(
        encode_command(&Command::ReceiveSum { sender: 3, sum: fq(100) }),
        b"RECEIVE_SUM 3 100".to_vec()
    );
    assert_eq!(encode_command(&Command::GiveResult), b"GIVE_RESULT".to_vec());
    assert_eq!(encode_command(&Command::ShowShares), b"SHOW_SHARES".to_vec());
}

#[test]
fn encoding_round_trips() {
    let mut commands = vec![
        Command::CommunicateShares,
        Command::SumAndDistribute,
        Command::GiveResult,
        Command::ShowShares,
        Command::Hello { port: 0 },
        Command::Hello { port: 9 },
        Command::Hello { port: 10 },
        Command::Hello { port: 65535 },
    ];
    for v in 0..127u64 {
        commands.push(Command::ReceiveShare { sender: v * 1_000_003, x: fq(v), y: fq(126 - v) });
        commands.push(Command::ReceiveSum { sender: u64::MAX - v, sum: fq(v) });
    }
    for c in commands {
        assert_eq!(parse_command(&encode_command(&c)), Ok(c));
    }
}
