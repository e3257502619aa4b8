use shamir_mpc::field::Fq;
use shamir_mpc::party::{
    get_shares_for_parties, Outgoing, PartyNode, Reply, Report, ShareRecord, SumRecord,
};
use shamir_mpc::protocol::{encode_command, Command};
use shamir_mpc::shamir_secret_sharing::{interpolate, ShareError};

fn fq(n: u64) -> Fq {
    Fq::from_int(n)
}

fn node(id: u64, peers: Vec<u64>, secret: u64) -> PartyNode {
    PartyNode::new(id, peers, 1, fq(secret)).unwrap()
}

fn deliver(nodes: &mut Vec<PartyNode>, reply: Reply) {
    for Outgoing { to, message } in reply.outgoing {
        let target = nodes.iter_mut().find(|n| n.id() == to).unwrap();
        let answer = target.handle_message(&encode_command(&message));
        assert_eq!(answer.report, Report::Quiet);
        assert!(answer.outgoing.is_empty());
    }
}

#[test]
fn new_party_holds_nothing() {
    let p = node(1, vec![2, 3], 5);
    assert_eq!(p.id(), 1);
    assert_eq!(p.peers(), &vec![2, 3]);
    assert_eq!(p.threshold(), 1);
    assert_eq!(p.secret(), fq(5));
    assert!(p.shares().is_empty());
    assert!(p.sums().is_empty());
}

#[test]
fn party_with_bad_identifiers_is_refused() {
    assert_eq!(
        PartyNode::new(1, vec![2, 1], 1, fq(5)).err(),
        Some(ShareError::DuplicatePoint)
    );
    assert_eq!(
        PartyNode::new(1, vec![2, 129], 1, fq(5)).err(),
        Some(ShareError::DuplicatePoint)
    );
    assert_eq!(
        PartyNode::new(0, vec![2, 3], 1, fq(5)).err(),
        Some(ShareError::ZeroPoint)
    );
    assert_eq!(
        PartyNode::new(1, vec![2, 127], 1, fq(5)).err(),
        Some(ShareError::ZeroPoint)
    );
}

#[test]
fn hello_is_reported() {
    let mut p = node(1, vec![2, 3], 5);
    let reply = p.dispatch(Command::Hello { port: 8082 });
    assert_eq!(reply.report, Report::Handshake { port: 8082 });
    assert!(reply.outgoing.is_empty());
    assert!(p.shares().is_empty());
    assert!(p.sums().is_empty());
}

#[test]
fn receive_share_appends_a_record() {
    let mut p = node(1, vec![2, 3], 5);
    let reply = p.dispatch(Command::ReceiveShare { sender: 2, x: fq(1), y: fq(17) });
    assert_eq!(reply.report, Report::Quiet);
    assert!(reply.outgoing.is_empty());
    p.dispatch(Command::ReceiveShare { sender: 3, x: fq(1), y: fq(30) });
    assert_eq!(
        p.shares(),
        &vec![
            ShareRecord { origin: 2, x: fq(1), y: fq(17) },
            ShareRecord { origin: 3, x: fq(1), y: fq(30) },
        ]
    );
    assert!(p.sums().is_empty());
}

#[test]
fn duplicate_shares_are_not_deduplicated() {
    let mut p = node(1, vec![2, 3], 5);
    for _ in 0..3 {
        p.dispatch(Command::ReceiveShare { sender: 2, x: fq(1), y: fq(17) });
    }
    assert_eq!(p.shares().len(), 3);
}

#[test]
fn many_shares_in_any_order_are_all_kept() {
    let records: Vec<(u64, u64, u64)> = (0..50u64).map(|i| (i + 2, 1, (i * 7) % 127)).collect();
    let mut forward = node(1, vec![2, 3], 5);
    for &(sender, x, y) in records.iter() {
        forward.dispatch(Command::ReceiveShare { sender, x: fq(x), y: fq(y) });
    }
    let mut backward = node(1, vec![2, 3], 5);
    for &(sender, x, y) in records.iter().rev() {
        backward.dispatch(Command::ReceiveShare { sender, x: fq(x), y: fq(y) });
    }
    assert_eq!(forward.shares().len(), 50);
    assert_eq!(backward.shares().len(), 50);
    for &(sender, x, y) in records.iter() {
        let record = ShareRecord { origin: sender, x: fq(x), y: fq(y) };
        assert_eq!(forward.shares().iter().filter(|r| **r == record).count(), 1);
        assert_eq!(backward.shares().iter().filter(|r| **r == record).count(), 1);
    }
    assert_eq!(forward.total(), backward.total());
}

#[test]
fn receive_sum_appends_a_record() {
    let mut p = node(1, vec![2, 3], 5);
    let reply = p.dispatch(Command::ReceiveSum { sender: 3, sum: fq(21) });
    assert_eq!(reply.report, Report::Quiet);
    assert!(reply.outgoing.is_empty());
    assert_eq!(p.sums(), &vec![SumRecord { origin: 3, sum: fq(21) }]);
    assert!(p.shares().is_empty());
}

#[test]
fn communicate_shares_sends_each_peer_its_point() {
    let mut p = node(1, vec![2, 3], 5);
    let reply = p.dispatch(Command::CommunicateShares);
    assert_eq!(reply.report, Report::Quiet);
    assert_eq!(reply.outgoing.len(), 2);
    assert_eq!(p.shares().len(), 1);
    let own = p.shares()[0];
    assert_eq!(own.origin, 1);
    assert_eq!(own.x, fq(1));
    let mut points = vec![(own.x, own.y)];
    for (k, peer) in [2u64, 3].iter().enumerate() {
        assert_eq!(reply.outgoing[k].to, *peer);
        match reply.outgoing[k].message {
            Command::ReceiveShare { sender, x, y } => {
                assert_eq!(sender, 1);
                assert_eq!(x, fq(*peer));
                points.push((x, y));
            }
            other => panic!("unexpected message {:?}", other),
        }
    }
    // any two of the three points give back the secret
    assert_eq!(interpolate(vec![points[0], points[1]]), fq(5));
    assert_eq!(interpolate(vec![points[1], points[2]]), fq(5));
    assert_eq!(interpolate(vec![points[0], points[2]]), fq(5));
}

#[test]
fn deliver_shares_keeps_the_first_and_sends_the_rest() {
    let mut p = node(1, vec![2, 3], 5);
    let shares = vec![(fq(1), fq(8)), (fq(2), fq(11)), (fq(3), fq(14))];
    let outgoing = p.deliver_shares(&shares);
    assert_eq!(p.shares(), &vec![ShareRecord { origin: 1, x: fq(1), y: fq(8) }]);
    assert_eq!(
        outgoing,
        vec![
            Outgoing { to: 2, message: Command::ReceiveShare { sender: 1, x: fq(2), y: fq(11) } },
            Outgoing { to: 3, message: Command::ReceiveShare { sender: 1, x: fq(3), y: fq(14) } },
        ]
    );
}

#[test]
fn shares_for_parties_start_with_the_own_share() {
    let shares = get_shares_for_parties(fq(9), 3, &vec![1, 2], 1).unwrap();
    assert_eq!(shares.len(), 3);
    assert_eq!(shares[0].0, fq(3));
    assert_eq!(shares[1].0, fq(1));
    assert_eq!(shares[2].0, fq(2));
    assert_eq!(interpolate(vec![shares[0], shares[2]]), fq(9));
    assert_eq!(
        get_shares_for_parties(fq(9), 3, &vec![1, 3], 1),
        Err(ShareError::DuplicatePoint)
    );
}

#[test]
fn total_adds_the_shares_held() {
    let mut p = node(1, vec![2, 3], 5);
    assert_eq!(p.total(), fq(0));
    p.dispatch(Command::ReceiveShare { sender: 1, x: fq(1), y: fq(8) });
    p.dispatch(Command::ReceiveShare { sender: 2, x: fq(1), y: fq(17) });
    p.dispatch(Command::ReceiveShare { sender: 3, x: fq(1), y: fq(99) });
    assert_eq!(p.total(), fq(124));
}

#[test]
fn sum_and_distribute_sends_the_sum_to_each_peer() {
    let mut p = node(1, vec![2, 3], 5);
    p.dispatch(Command::ReceiveShare { sender: 1, x: fq(1), y: fq(8) });
    p.dispatch(Command::ReceiveShare { sender: 2, x: fq(1), y: fq(17) });
    p.dispatch(Command::ReceiveShare { sender: 3, x: fq(1), y: fq(99) });
    let reply = p.dispatch(Command::SumAndDistribute);
    assert_eq!(reply.report, Report::Quiet);
    assert_eq!(
        reply.outgoing,
        vec![
            Outgoing { to: 2, message: Command::ReceiveSum { sender: 1, sum: fq(124) } },
            Outgoing { to: 3, message: Command::ReceiveSum { sender: 1, sum: fq(124) } },
        ]
    );
    assert_eq!(p.sums(), &vec![SumRecord { origin: 1, sum: fq(124) }]);
    assert_eq!(p.shares().len(), 3);
}

#[test]
fn give_result_interpolates_the_sums() {
    let mut p = node(1, vec![2, 3], 5);
    p.dispatch(Command::ReceiveSum { sender: 1, sum: fq(124) });
    p.dispatch(Command::ReceiveSum { sender: 2, sum: fq(9) });
    p.dispatch(Command::ReceiveSum { sender: 3, sum: fq(21) });
    let reply = p.dispatch(Command::GiveResult);
    assert_eq!(reply.report, Report::Result { value: fq(112) });
    assert!(reply.outgoing.is_empty());
    assert_eq!(p.sums().len(), 3);
    assert_eq!(p.reconstruct(), Some(fq(112)));
}

#[test]
fn give_result_with_too_few_sums_gives_no_error() {
    let mut p = node(1, vec![2, 3], 5);
    assert_eq!(p.dispatch(Command::GiveResult).report, Report::Result { value: fq(0) });
    p.dispatch(Command::ReceiveSum { sender: 1, sum: fq(124) });
    assert_eq!(p.dispatch(Command::GiveResult).report, Report::Result { value: fq(124) });
}

#[test]
fn give_result_with_two_sums_of_one_party_gives_no_result() {
    let mut p = node(1, vec![2, 3], 5);
    p.dispatch(Command::ReceiveSum { sender: 2, sum: fq(9) });
    p.dispatch(Command::ReceiveSum { sender: 2, sum: fq(9) });
    assert_eq!(p.dispatch(Command::GiveResult).report, Report::NoResult);
    assert_eq!(p.reconstruct(), None);
    let mut q = node(1, vec![2, 3], 5);
    q.dispatch(Command::ReceiveSum { sender: 2, sum: fq(9) });
    q.dispatch(Command::ReceiveSum { sender: 129, sum: fq(10) });
    assert_eq!(q.dispatch(Command::GiveResult).report, Report::NoResult);
}

#[test]
fn show_shares_is_reported() {
    let mut p = node(1, vec![2, 3], 5);
    p.dispatch(Command::ReceiveShare { sender: 2, x: fq(1), y: fq(17) });
    let reply = p.dispatch(Command::ShowShares);
    assert_eq!(reply.report, Report::Shares);
    assert!(reply.outgoing.is_empty());
    assert_eq!(p.shares().len(), 1);
}

#[test]
fn messages_that_are_no_commands_change_nothing() {
    let mut p = node(1, vec![2, 3], 5);
    let reply = p.handle_message(b"PING");
    assert_eq!(reply.report, Report::Unrecognized);
    assert!(reply.outgoing.is_empty());
    let reply = p.handle_message(b"RECEIVE_SHARE 2 one 17");
    assert_eq!(reply.report, Report::MalformedCommand);
    assert!(reply.outgoing.is_empty());
    let reply = p.handle_message(b"");
    assert_eq!(reply.report, Report::Unrecognized);
    assert!(p.shares().is_empty());
    assert!(p.sums().is_empty());
}

#[test]
fn handle_message_reads_and_dispatches() {
    let mut p = node(1, vec![2, 3], 5);
    assert_eq!(p.handle_message(b"HELLO 8081").report, Report::Handshake { port: 8081 });
    assert_eq!(p.handle_message(b"RECEIVE_SHARE 2 1 17\n").report, Report::Quiet);
    assert_eq!(p.handle_message(b"RECEIVE_SUM 2 9").report, Report::Quiet);
    assert_eq!(p.shares(), &vec![ShareRecord { origin: 2, x: fq(1), y: fq(17) }]);
    assert_eq!(p.sums(), &vec![SumRecord { origin: 2, sum: fq(9) }]);
    assert_eq!(p.handle_message(b"SHOW_SHARES").report, Report::Shares);
}

#[test]
fn three_parties_compute_the_sum_of_their_secrets() {
    let secrets: [u64; 3] = [5, 7, 100];
    let mut nodes = vec![
        node(1, vec![2, 3], secrets[0]),
        node(2, vec![1, 3], secrets[1]),
        node(3, vec![1, 2], secrets[2]),
    ];
    for i in 0..3 {
        let reply = nodes[i].handle_message(b"COMMUNICATE_SHARES");
        assert_eq!(reply.outgoing.len(), 2);
        deliver(&mut nodes, reply);
    }
    for n in nodes.iter() {
        assert_eq!(n.shares().len(), 3);
    }
    for i in 0..3 {
        let reply = nodes[i].handle_message(b"SUM_AND_DISTRIBUTE");
        assert_eq!(reply.outgoing.len(), 2);
        deliver(&mut nodes, reply);
    }
    for n in nodes.iter_mut() {
        assert_eq!(n.sums().len(), 3);
        let reply = n.handle_message(b"GIVE_RESULT");
        assert_eq!(reply.report, Report::Result { value: fq(112) });
    }
}

#[test]
fn five_parties_with_threshold_two() {
    let ids: Vec<u64> = vec![10, 20, 30, 40, 50];
    let secrets: Vec<u64> = vec![1, 126, 63, 0, 90];
    let mut nodes: Vec<PartyNode> = Vec::new();
    for (i, id) in ids.iter().enumerate() {
        let peers: Vec<u64> = ids.iter().copied().filter(|p| p != id).collect();
        nodes.push(PartyNode::new(*id, peers, 2, fq(secrets[i])).unwrap());
    }
    for i in 0..5 {
        let reply = nodes[i].dispatch(Command::CommunicateShares);
        deliver(&mut nodes, reply);
    }
    for i in 0..5 {
        let reply = nodes[i].dispatch(Command::SumAndDistribute);
        deliver(&mut nodes, reply);
    }
    let expected = fq(secrets.iter().sum::<u64>());
    for n in nodes.iter_mut() {
        assert_eq!(n.dispatch(Command::GiveResult).report, Report::Result { value: expected });
    }
}
