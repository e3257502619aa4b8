//! One party of the protocol: what it holds, and what each command makes of
//! it. A party neither reads nor writes a connection: a command comes in as
//! a value, and what is to be sent to whom goes out as a value.

use crate::field::{fq, is_canonical, lemma_fq_view, reduce, Fq};
use crate::field_lemmas::{lemma_reduce_canonical, lemma_reduce_of_canonical};
use crate::lagrange::{field_sum, interpolate_at_zero};
use crate::lagrange_lemmas::{lemma_sum_canonical, lemma_sum_congruence};
use crate::polynomial::poly_eval;
use crate::protocol::{parse_command, parse_message, Command, ParseError};
use crate::shamir_secret_sharing::{
    check_points, distinct_points, evaluation_points, get_shares_secret, hides_secret,
    interpolate, is_sharing, law_additive_homomorphism, point_xs, point_ys, share_at,
    share_error, summed_value, values_at, ShareError,
};
use vstd::prelude::*;

verus! {

/// A share that a party holds: the point `(x, y)` of the polynomial of the
/// party `origin`.
#[derive(Clone, Copy, Debug, PartialEq, Eq, Structural)]
pub struct ShareRecord {
    pub origin: u64,
    pub x: Fq,
    pub y: Fq,
}

/// The sum of the shares that the party `origin` holds.
#[derive(Clone, Copy, Debug, PartialEq, Eq, Structural)]
pub struct SumRecord {
    pub origin: u64,
    pub sum: Fq,
}

/// A command to be sent to the party `to`.
#[derive(Clone, Copy, Debug, PartialEq, Eq, Structural)]
pub struct Outgoing {
    pub to: u64,
    pub message: Command,
}

/// What a party lets its surroundings know after a message.
#[derive(Clone, Copy, Debug, PartialEq, Eq, Structural)]
pub enum Report {
    /// Nothing.
    Quiet,
    /// A peer has announced the port that it listens on.
    Handshake { port: u16 },
    /// The value reconstructed from the sums held.
    Result { value: Fq },
    /// Nothing can be reconstructed: two of the sums held come from parties
    /// that stand for the same field element.
    NoResult,
    /// The shares held are to be shown.
    Shares,
    /// The message was no command of the protocol and was dropped.
    Unrecognized,
    /// The message was a command with a field that could not be read, and
    /// was dropped.
    MalformedCommand,
}

/// What a message leads to outside the party.
#[derive(Debug)]
pub struct Reply {
    /// The commands to send, in the order of the peers.
    pub outgoing: Vec<Outgoing>,
    /// What there is to report.
    pub report: Report,
}

/// The mathematical model of a party.
pub struct PartyState {
    pub id: u64,
    pub peers: Seq<u64>,
    pub threshold: usize,
    pub secret: Fq,
    pub shares: Seq<ShareRecord>,
    pub sums: Seq<SumRecord>,
}

/// The identifiers of all parties as one party sees them: its own, then
/// those of its peers.
pub open spec fn party_ids(id: u64, peers: Seq<u64>) -> Seq<u64> {
    seq![id] + peers
}

/// The shares that the party hands out when its polynomial is `coeffs`: its
/// own, then one for each peer.
pub open spec fn shares_of(s: PartyState, coeffs: Seq<int>) -> Seq<(Fq, Fq)> {
    party_ids(s.id, s.peers).map_values(|id: u64| share_at(coeffs, id))
}

/// The party after it has handed out `shares` and kept the first of them.
pub open spec fn after_shares(s: PartyState, shares: Seq<(Fq, Fq)>) -> PartyState {
    PartyState {
        shares: s.shares.push(ShareRecord { origin: s.id, x: shares[0].0, y: shares[0].1 }),
        ..s
    }
}

/// The commands that hand the peers their shares: the peer at index `k`
/// gets the share at index `k + 1`.
pub open spec fn share_messages(s: PartyState, shares: Seq<(Fq, Fq)>) -> Seq<Outgoing> {
    Seq::new(
        s.peers.len(),
        |k: int|
            Outgoing {
                to: s.peers[k],
                message: Command::ReceiveShare {
                    sender: s.id,
                    x: shares[k + 1].0,
                    y: shares[k + 1].1,
                },
            },
    )
}

/// The y-coordinates of a list of shares, by index.
pub open spec fn share_values(shares: Seq<ShareRecord>) -> spec_fn(int) -> int {
    |i: int| shares[i].y@
}

/// The sum in the field of the y-coordinates of a list of shares.
pub open spec fn share_total(shares: Seq<ShareRecord>) -> int {
    field_sum(share_values(shares), shares.len() as int)
}

/// The commands that hand the sum `sum` to the peers.
pub open spec fn sum_messages(s: PartyState, sum: Fq) -> Seq<Outgoing> {
    Seq::new(
        s.peers.len(),
        |k: int| Outgoing { to: s.peers[k], message: Command::ReceiveSum { sender: s.id, sum } },
    )
}

/// The points that a list of sums stands for: the sum of each party, at the
/// field element of that party.
pub open spec fn sum_points(sums: Seq<SumRecord>) -> Seq<(Fq, Fq)> {
    sums.map_values(|r: SumRecord| (fq(r.origin as int), r.sum))
}

/// The value that the sums held reconstruct, or none where two of them
/// stand at the same field element.
pub open spec fn reconstruction(sums: Seq<SumRecord>) -> Option<Fq> {
    let points = sum_points(sums);
    if point_xs(points).no_duplicates() {
        Some(fq(interpolate_at_zero(point_xs(points), point_ys(points))))
    } else {
        None
    }
}

/// The party after the command `c`, where `coeffs` is the polynomial that it
/// draws if the command asks for one.
pub open spec fn step(s: PartyState, c: Command, coeffs: Seq<int>) -> PartyState {
    match c {
        Command::CommunicateShares => after_shares(s, shares_of(s, coeffs)),
        Command::ReceiveShare { sender, x, y } => PartyState {
            shares: s.shares.push(ShareRecord { origin: sender, x, y }),
            ..s
        },
        Command::SumAndDistribute => PartyState {
            sums: s.sums.push(SumRecord { origin: s.id, sum: fq(share_total(s.shares)) }),
            ..s
        },
        Command::ReceiveSum { sender, sum } => PartyState {
            sums: s.sums.push(SumRecord { origin: sender, sum }),
            ..s
        },
        _ => s,
    }
}

/// The commands that the party sends on the command `c`.
pub open spec fn sent(s: PartyState, c: Command, coeffs: Seq<int>) -> Seq<Outgoing> {
    match c {
        Command::CommunicateShares => share_messages(s, shares_of(s, coeffs)),
        Command::SumAndDistribute => sum_messages(s, fq(share_total(s.shares))),
        _ => Seq::empty(),
    }
}

/// What the party reports on the command `c`.
pub open spec fn reported(s: PartyState, c: Command) -> Report {
    match c {
        Command::Hello { port } => Report::Handshake { port },
        Command::GiveResult => match reconstruction(s.sums) {
            Some(value) => Report::Result { value },
            None => Report::NoResult,
        },
        Command::ShowShares => Report::Shares,
        _ => Report::Quiet,
    }
}

/// What the party reports on a message that is no command.
pub open spec fn rejection(e: ParseError) -> Report {
    match e {
        ParseError::Unrecognized => Report::Unrecognized,
        ParseError::MalformedCommand => Report::MalformedCommand,
    }
}

/// `coeffs` is a polynomial that the party may draw to hide its secret: of
/// degree at most the threshold, with the secret as its constant term.
pub open spec fn hides(s: PartyState, coeffs: Seq<int>) -> bool {
    coeffs.len() == s.threshold + 1 && coeffs[0] == s.secret@
}

/// The party after the commands `commands`, handled one after the other.
/// Where the command at some position asks for a polynomial, the party draws
/// the one at that position of `draws`.
pub open spec fn after_all(s: PartyState, commands: Seq<Command>, draws: Seq<Seq<int>>) -> PartyState
    decreases commands.len(),
{
    if commands.len() == 0 {
        s
    } else {
        step(after_all(s, commands.drop_last(), draws.drop_last()), commands.last(), draws.last())
    }
}

/// The record that a party keeps of a share handed to it.
pub open spec fn record_of(c: Command) -> ShareRecord {
    match c {
        Command::ReceiveShare { sender, x, y } => ShareRecord { origin: sender, x, y },
        _ => arbitrary(),
    }
}

/// No share is lost: in whatever order shares are handed to a party, it
/// then holds what it held before and, after that, one record for each of
/// them, in the order in which they were handled. Nothing else changes.
pub proof fn law_no_share_lost(s: PartyState, commands: Seq<Command>, draws: Seq<Seq<int>>)
    requires
        draws.len() == commands.len(),
        forall|i: int| 0 <= i < commands.len() ==> #[trigger] commands[i] is ReceiveShare,
    ensures
        after_all(s, commands, draws).shares == s.shares + commands.map_values(
            |c: Command| record_of(c),
        ),
        after_all(s, commands, draws).shares.len() == s.shares.len() + commands.len(),
        after_all(s, commands, draws) == (PartyState {
            shares: after_all(s, commands, draws).shares,
            ..s
        }),
    decreases commands.len(),
{
    let records = commands.map_values(|c: Command| record_of(c));
    if commands.len() == 0 {
        assert(s.shares + records =~= s.shares);
    } else {
        let before = commands.drop_last();
        law_no_share_lost(s, before, draws.drop_last());
        let earlier = before.map_values(|c: Command| record_of(c));
        assert(commands.last() is ReceiveShare);
        assert(records =~= earlier.push(record_of(commands.last())));
        assert(s.shares + records =~= (s.shares + earlier).push(record_of(commands.last())));
    }
}

/// A party that holds one share of each polynomial of `polys`, all at its
/// own point `x`, adds them up to the sum of the values of the polynomials
/// at `x`.
pub proof fn law_total_of_shares(shares: Seq<ShareRecord>, polys: Seq<Seq<int>>, x: int)
    requires
        shares.len() == polys.len(),
        forall|k: int| 0 <= k < shares.len() ==> (#[trigger] shares[k]).y@ == poly_eval(polys[k], x),
    ensures
        share_total(shares) == summed_value(polys, x),
{
    assert forall|k: int| 0 <= k < shares.len() implies #[trigger] share_values(shares)(k)
        == values_at(polys, x)(k) by {
        assert(shares[k].y@ == poly_eval(polys[k], x));
    }
    lemma_sum_congruence(share_values(shares), values_at(polys, x), shares.len() as int);
}

/// The sum of the secrets: where the sums held come from the parties `ids`,
/// one from each, and each is the sum of the values of the polynomials of
/// `polys` at the point of its party, and there are as many of them as a
/// polynomial has coefficients, or more, then what they reconstruct is the
/// sum of the values of the polynomials at zero, which are the secrets.
pub proof fn law_sum_of_secrets(sums: Seq<SumRecord>, ids: Seq<u64>, polys: Seq<Seq<int>>)
    requires
        share_error(ids) is None,
        sums.len() == ids.len(),
        forall|k: int| 0 <= k < polys.len() ==> (#[trigger] polys[k]).len() <= ids.len(),
        forall|j: int|
            0 <= j < sums.len() ==> #[trigger] sums[j] == (SumRecord {
                origin: ids[j],
                sum: fq(summed_value(polys, reduce(ids[j] as int))),
            }),
    ensures
        reconstruction(sums) == Some(fq(summed_value(polys, 0))),
{
    let points = sum_points(sums);
    let xs = point_xs(points);
    let ys = point_ys(points);
    let places = evaluation_points(ids);
    assert forall|j: int| 0 <= j < xs.len() implies is_canonical(#[trigger] xs[j]) && xs[j]
        == places[j] && ys[j] == summed_value(polys, xs[j]) by {
        let x = reduce(ids[j] as int);
        assert(sums[j] == (SumRecord { origin: ids[j], sum: fq(summed_value(polys, x)) }));
        lemma_fq_view(ids[j] as int);
        lemma_fq_view(summed_value(polys, x));
        lemma_reduce_canonical(ids[j] as int);
        lemma_sum_canonical(values_at(polys, x), polys.len() as int);
        lemma_reduce_of_canonical(summed_value(polys, x));
    }
    assert forall|a: int, b: int| 0 <= a < xs.len() && 0 <= b < xs.len() && a != b implies xs[a]
        != xs[b] by {
        assert(places[a] != places[b]);
    }
    law_additive_homomorphism(polys, xs, ys);
}

/// A party: its identifier, those of its peers, the threshold, its secret,
/// and the shares and sums that it has gathered.
pub struct PartyNode {
    roster: Roster,
    threshold: usize,
    secret: Fq,
    share_store: Vec<ShareRecord>,
    sum_store: Vec<SumRecord>,
}

impl View for PartyNode {
    type V = PartyState;

    closed spec fn view(&self) -> PartyState {
        PartyState {
            id: self.roster.id,
            peers: self.roster.peers@,
            threshold: self.threshold,
            secret: self.secret,
            shares: self.share_store@,
            sums: self.sum_store@,
        }
    }
}

/// The identifiers of a party and its peers as one list.
fn all_ids(id: u64, peers: &Vec<u64>) -> (ids: Vec<u64>)
    ensures
        ids@ == party_ids(id, peers@),
{
    let mut ids: Vec<u64> = Vec::new();
    ids.push(id);
    let mut k: usize = 0;
    while k < peers.len()
        invariant
            k <= peers.len(),
            ids@ =~= party_ids(id, peers@.take(k as int)),
        decreases peers.len() - k,
    {
        ids.push(peers[k]);
        k = k + 1;
        proof {
            assert(peers@.take(k as int) =~= peers@.take(k as int - 1).push(peers@[k as int - 1]));
        }
    }
    proof {
        assert(peers@.take(peers.len() as int) =~= peers@);
    }
    ids
}

/// The identifiers of a party and of its peers. They stand for field
/// elements that differ from zero and from one another.
struct Roster {
    id: u64,
    peers: Vec<u64>,
}

impl Roster {
    #[verifier::type_invariant]
    spec fn valid(self) -> bool {
        share_error(party_ids(self.id, self.peers@)) is None
    }
}

/// Shares of `secret` for the party `current_id` and for its peers
/// `other_parties`, in that order, on one fresh polynomial of degree `t`.
pub fn get_shares_for_parties(
    secret: Fq,
    current_id: u64,
    other_parties: &Vec<u64>,
    t: usize,
) -> (r: Result<Vec<(Fq, Fq)>, ShareError>)
    ensures
        r is Ok <==> share_error(party_ids(current_id, other_parties@)) is None,
        r matches Err(e) ==> share_error(party_ids(current_id, other_parties@)) == Some(e),
        r matches Ok(shares) ==> hides_secret(
            shares@,
            secret@,
            t as int,
            party_ids(current_id, other_parties@),
        ),
        r matches Ok(shares) ==> point_xs(shares@) == evaluation_points(
            party_ids(current_id, other_parties@),
        ),
{
    get_shares_secret(secret, all_ids(current_id, other_parties), t)
}

impl PartyNode {
    /// A party that has gathered nothing yet. It is refused where the
    /// identifiers cannot serve as evaluation points.
    pub fn new(id: u64, peers: Vec<u64>, threshold: usize, secret: Fq) -> (r: Result<
        PartyNode,
        ShareError,
    >)
        ensures
            match r {
                Ok(node) => share_error(party_ids(id, peers@)) is None && node@ == (PartyState {
                    id,
                    peers: peers@,
                    threshold,
                    secret,
                    shares: Seq::empty(),
                    sums: Seq::empty(),
                }),
                Err(e) => share_error(party_ids(id, peers@)) == Some(e),
            },
    {
        let ids = all_ids(id, &peers);
        match check_points(&ids) {
            Err(e) => Err(e),
            Ok(_) => Ok(
                PartyNode {
                    roster: Roster { id, peers },
                    threshold,
                    secret,
                    share_store: Vec::new(),
                    sum_store: Vec::new(),
                },
            ),
        }
    }

    /// The identifier of the party.
    pub fn id(&self) -> (id: u64)
        ensures
            id == self@.id,
    {
        self.roster.id
    }

    /// The identifiers of the peers.
    pub fn peers(&self) -> (peers: &Vec<u64>)
        ensures
            peers@ == self@.peers,
    {
        &self.roster.peers
    }

    /// The degree of the polynomial that hides the secret.
    pub fn threshold(&self) -> (t: usize)
        ensures
            t == self@.threshold,
    {
        self.threshold
    }

    /// The secret of the party.
    pub fn secret(&self) -> (s: Fq)
        ensures
            s == self@.secret,
    {
        self.secret
    }

    /// The shares gathered so far, oldest first.
    pub fn shares(&self) -> (shares: &Vec<ShareRecord>)
        ensures
            shares@ == self@.shares,
    {
        &self.share_store
    }

    /// The sums gathered so far, oldest first.
    pub fn sums(&self) -> (sums: &Vec<SumRecord>)
        ensures
            sums@ == self@.sums,
    {
        &self.sum_store
    }

    /// Keeps the first of `shares` and addresses each of the others to the
    /// peer that it belongs to.
    pub fn deliver_shares(&mut self, shares: &Vec<(Fq, Fq)>) -> (outgoing: Vec<Outgoing>)
        requires
            shares@.len() == old(self)@.peers.len() + 1,
        ensures
            final(self)@ == after_shares(old(self)@, shares@),
            outgoing@ == share_messages(old(self)@, shares@),
    {
        let own = shares[0];
        self.share_store.push(ShareRecord { origin: self.roster.id, x: own.0, y: own.1 });
        let mut outgoing: Vec<Outgoing> = Vec::new();
        let mut k: usize = 0;
        while k < self.roster.peers.len()
            invariant
                k <= self.roster.peers.len(),
                shares@.len() == self.roster.peers.len() + 1,
                self@ == after_shares(old(self)@, shares@),
                outgoing@.len() == k,
                forall|j: int|
                    0 <= j < k ==> #[trigger] outgoing@[j] == share_messages(
                        old(self)@,
                        shares@,
                    )[j],
            decreases self.roster.peers.len() - k,
        {
            let share = shares[k + 1];
            outgoing.push(
                Outgoing {
                    to: self.roster.peers[k],
                    message: Command::ReceiveShare { sender: self.roster.id, x: share.0, y: share.1 },
                },
            );
            k = k + 1;
        }
        proof {
            assert(outgoing@ =~= share_messages(old(self)@, shares@));
        }
        outgoing
    }

    /// The sum of the y-coordinates of the shares held.
    pub fn total(&self) -> (sum: Fq)
        ensures
            sum == fq(share_total(self@.shares)),
    {
        let mut sum: Fq = Fq::zero();
        let mut i: usize = 0;
        while i < self.share_store.len()
            invariant
                i <= self.share_store.len(),
                sum@ == field_sum(share_values(self.share_store@), i as int),
                sum.is_normal(),
            decreases self.share_store.len() - i,
        {
            sum = sum.add(self.share_store[i].y);
            i = i + 1;
        }
        sum
    }

    /// Keeps `sum` as the party's own sum and addresses it to every peer.
    pub fn deliver_sum(&mut self, sum: Fq) -> (outgoing: Vec<Outgoing>)
        ensures
            final(self)@ == (PartyState {
                sums: old(self)@.sums.push(SumRecord { origin: old(self)@.id, sum }),
                ..old(self)@
            }),
            outgoing@ == sum_messages(old(self)@, sum),
    {
        self.sum_store.push(SumRecord { origin: self.roster.id, sum });
        let mut outgoing: Vec<Outgoing> = Vec::new();
        let mut k: usize = 0;
        while k < self.roster.peers.len()
            invariant
                k <= self.roster.peers.len(),
                self@ == (PartyState {
                    sums: old(self)@.sums.push(SumRecord { origin: old(self)@.id, sum }),
                    ..old(self)@
                }),
                outgoing@.len() == k,
                forall|j: int|
                    0 <= j < k ==> #[trigger] outgoing@[j] == sum_messages(old(self)@, sum)[j],
            decreases self.roster.peers.len() - k,
        {
            outgoing.push(
                Outgoing {
                    to: self.roster.peers[k],
                    message: Command::ReceiveSum { sender: self.roster.id, sum },
                },
            );
            k = k + 1;
        }
        proof {
            assert(outgoing@ =~= sum_messages(old(self)@, sum));
        }
        outgoing
    }

    /// The value at zero of the polynomial through the sums held, each at
    /// the field element of the party that it comes from.
    pub fn reconstruct(&self) -> (r: Option<Fq>)
        ensures
            r == reconstruction(self@.sums),
    {
        let mut points: Vec<(Fq, Fq)> = Vec::new();
        let mut i: usize = 0;
        while i < self.sum_store.len()
            invariant
                i <= self.sum_store.len(),
                points@ =~= sum_points(self.sum_store@.take(i as int)),
            decreases self.sum_store.len() - i,
        {
            let record = self.sum_store[i];
            points.push((Fq::from_int(record.origin), record.sum));
            i = i + 1;
            proof {
                assert(self.sum_store@.take(i as int) =~= self.sum_store@.take(i as int - 1).push(
                    record,
                ));
            }
        }
        proof {
            assert(self.sum_store@.take(self.sum_store.len() as int) =~= self.sum_store@);
        }
        if distinct_points(&points) {
            Some(interpolate(points))
        } else {
            None
        }
    }

    /// Carries out one command: changes what the party holds, and says what
    /// is to be sent and reported.
    pub fn dispatch(&mut self, command: Command) -> (reply: Reply)
        ensures
            exists|coeffs: Seq<int>|
                hides(old(self)@, coeffs) && #[trigger] step(old(self)@, command, coeffs)
                    == final(self)@ && reply.outgoing@ == sent(old(self)@, command, coeffs),
            reply.report == reported(old(self)@, command),
    {
        proof {
            use_type_invariant(&self.roster);
        }
        let ghost before = self@;
        let ghost any = Seq::new((before.threshold + 1) as nat, |i: int| before.secret@);
        match command {
            Command::Hello { port } => {
                proof {
                    assert(step(before, command, any) == self@);
                }
                Reply { outgoing: Vec::new(), report: Report::Handshake { port } }
            },
            Command::CommunicateShares => {
                let shares = get_shares_for_parties(
                    self.secret,
                    self.roster.id,
                    &self.roster.peers,
                    self.threshold,
                ).unwrap();
                let ghost coeffs = choose|coeffs: Seq<int>|
                    hides(before, coeffs) && #[trigger] is_sharing(
                        shares@,
                        coeffs,
                        party_ids(before.id, before.peers),
                    );
                proof {
                    assert(shares@ =~= shares_of(before, coeffs));
                }
                let outgoing = self.deliver_shares(&shares);
                proof {
                    assert(step(before, command, coeffs) == self@);
                }
                Reply { outgoing, report: Report::Quiet }
            },
            Command::ReceiveShare { sender, x, y } => {
                self.share_store.push(ShareRecord { origin: sender, x, y });
                proof {
                    assert(step(before, command, any) == self@);
                }
                Reply { outgoing: Vec::new(), report: Report::Quiet }
            },
            Command::SumAndDistribute => {
                let sum = self.total();
                let outgoing = self.deliver_sum(sum);
                proof {
                    assert(step(before, command, any) == self@);
                }
                Reply { outgoing, report: Report::Quiet }
            },
            Command::ReceiveSum { sender, sum } => {
                self.sum_store.push(SumRecord { origin: sender, sum });
                proof {
                    assert(step(before, command, any) == self@);
                }
                Reply { outgoing: Vec::new(), report: Report::Quiet }
            },
            Command::GiveResult => {
                let report = match self.reconstruct() {
                    Some(value) => Report::Result { value },
                    None => Report::NoResult,
                };
                proof {
                    assert(step(before, command, any) == self@);
                }
                Reply { outgoing: Vec::new(), report }
            },
            Command::ShowShares => {
                proof {
                    assert(step(before, command, any) == self@);
                }
                Reply { outgoing: Vec::new(), report: Report::Shares }
            },
        }
    }

    /// Reads one message and carries out the command that it holds. A
    /// message that is no command changes nothing and is reported.
    pub fn handle_message(&mut self, message: &[u8]) -> (reply: Reply)
        ensures
            match parse_message(message@) {
                Ok(command) => {
                    &&& exists|coeffs: Seq<int>|
                        hides(old(self)@, coeffs) && #[trigger] step(old(self)@, command, coeffs)
                            == final(self)@ && reply.outgoing@ == sent(
                            old(self)@,
                            command,
                            coeffs,
                        )
                    &&& reply.report == reported(old(self)@, command)
                },
                Err(e) => {
                    &&& final(self)@ == old(self)@
                    &&& reply.outgoing@ == Seq::<Outgoing>::empty()
                    &&& reply.report == rejection(e)
                },
            },
    {
        match parse_command(message) {
            Ok(command) => self.dispatch(command),
            Err(ParseError::Unrecognized) => Reply {
                outgoing: Vec::new(),
                report: Report::Unrecognized,
            },
            Err(ParseError::MalformedCommand) => Reply {
                outgoing: Vec::new(),
                report: Report::MalformedCommand,
            },
        }
    }
}

} // verus!
