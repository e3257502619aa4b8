use shamir_mpc::config::{local_setup, parse_party, ConfigError};

#[test]
fn parse_party_reads_id_and_port() {
    assert_eq!(parse_party("1:8080"), Ok((1, 8080)));
    assert_eq!(parse_party("18446744073709551615:65535"), Ok((u64::MAX, 65535)));
    assert_eq!(parse_party("+3:+80"), Ok((3, 80)));
    assert_eq!(parse_party("007:0080"), Ok((7, 80)));
}

#[test]
fn parse_party_wants_one_colon() {
    assert_eq!(parse_party("18080"), Err(ConfigError::InvalidFormat));
    assert_eq!(parse_party(""), Err(ConfigError::InvalidFormat));
    assert_eq!(parse_party("1:80:80"), Err(ConfigError::InvalidFormat));
    assert_eq!(parse_party("1::80"), Err(ConfigError::InvalidFormat));
    assert_eq!(parse_party("::"), Err(ConfigError::InvalidFormat));
}

#[test]
fn parse_party_wants_an_identifier() {
    assert_eq!(parse_party(":8080"), Err(ConfigError::InvalidId));
    assert_eq!(parse_party("one:8080"), Err(ConfigError::InvalidId));
    assert_eq!(parse_party("-1:8080"), Err(ConfigError::InvalidId));
    assert_eq!(parse_party("18446744073709551616:80"), Err(ConfigError::InvalidId));
    assert_eq!(parse_party(" 1:8080"), Err(ConfigError::InvalidId));
    assert_eq!(parse_party("x:y"), Err(ConfigError::InvalidId));
}

#[test]
fn parse_party_wants_a_port() {
    assert_eq!(parse_party("1:"), Err(ConfigError::InvalidPort));
    assert_eq!(parse_party("1:65536"), Err(ConfigError::InvalidPort));
    assert_eq!(parse_party("1:http"), Err(ConfigError::InvalidPort));
    assert_eq!(parse_party("1:80 "), Err(ConfigError::InvalidPort));
}

#[test]
fn local_setup_finds_port_and_peers() {
    let parties = vec![(1, 8080), (2, 8081), (3, 8082)];
    let setup = local_setup(2, &parties).unwrap();
    assert_eq!(setup.port, 8081);
    assert_eq!(setup.peers, vec![(1, 8080), (3, 8082)]);
    let setup = local_setup(1, &parties).unwrap();
    assert_eq!(setup.port, 8080);
    assert_eq!(setup.peers, vec![(2, 8081), (3, 8082)]);
}

#[test]
fn local_setup_takes_the_first_of_equal_identifiers() {
    let parties = vec![(1, 8080), (2, 8081), (1, 9090)];
    let setup = local_setup(1, &parties).unwrap();
    assert_eq!(setup.port, 8080);
    assert_eq!(setup.peers, vec![(2, 8081)]);
}

#[test]
fn local_setup_refuses_an_unknown_party() {
    let parties = vec![(1, 8080), (2, 8081), (3, 8082)];
    assert_eq!(local_setup(4, &parties).err(), Some(ConfigError::UnknownParty));
    assert_eq!(local_setup(1, &Vec::new()).err(), Some(ConfigError::UnknownParty));
}
