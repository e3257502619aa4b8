//! The parties of a run, as they are named when a party is started: each by
//! `id:port`, its identifier and the port that it listens on.

use crate::protocol::{parse_unsigned, unsigned_value};
use vstd::prelude::*;
use vstd::slice::slice_subrange;
use vstd::string::*;

verus! {

/// Why the parties of a run cannot be made out.
#[derive(Clone, Copy, Debug, PartialEq, Eq, Structural)]
pub enum ConfigError {
    /// A party is not named by two fields with one colon between them.
    InvalidFormat,
    /// The field before the colon is no identifier.
    InvalidId,
    /// The field after the colon is no port number.
    InvalidPort,
    /// The identifier of the party that is started is not among the parties
    /// named.
    UnknownParty,
}

/// The byte is a colon.
pub open spec fn is_colon(b: u8) -> bool {
    b == 58
}

/// The colon at the index `i` is the only one of `s`.
pub open spec fn only_colon_at(s: Seq<u8>, i: int) -> bool {
    &&& 0 <= i < s.len()
    &&& forall|j: int| 0 <= j < s.len() ==> (is_colon(#[trigger] s[j]) <==> j == i)
}

/// The two fields of the name of a party, where it has exactly one colon.
pub open spec fn party_fields(s: Seq<u8>) -> Option<(Seq<u8>, Seq<u8>)> {
    if exists|i: int| only_colon_at(s, i) {
        let i = choose|i: int| only_colon_at(s, i);
        Some((s.take(i), s.skip(i + 1)))
    } else {
        None
    }
}

/// The party that a name denotes: the identifier and the port, each an
/// unsigned number in base 10.
pub open spec fn party_of(s: Seq<u8>) -> Result<(u64, u16), ConfigError> {
    match party_fields(s) {
        None => Err(ConfigError::InvalidFormat),
        Some((id_field, port_field)) => match unsigned_value(id_field, u64::MAX as int) {
            None => Err(ConfigError::InvalidId),
            Some(id) => match unsigned_value(port_field, u16::MAX as int) {
                None => Err(ConfigError::InvalidPort),
                Some(port) => Ok((id as u64, port as u16)),
            },
        },
    }
}

/// Reads the name of a party, `id:port`.
pub fn parse_party(party_str: &str) -> (r: Result<(u64, u16), ConfigError>)
    ensures
        r == party_of(party_str.spec_bytes()),
{
    let bytes: &[u8] = party_str.as_bytes();
    let n: usize = bytes.len();
    let mut i: usize = 0;
    while i < n && bytes[i] != 58
        invariant
            i <= n,
            n == bytes@.len(),
            forall|j: int| 0 <= j < i ==> !is_colon(#[trigger] bytes@[j]),
        decreases n - i,
    {
        i = i + 1;
    }
    if i == n {
        proof {
            assert forall|k: int| !only_colon_at(bytes@, k) by {
                if 0 <= k < n {
                    assert(!is_colon(bytes@[k]));
                }
            }
        }
        return Err(ConfigError::InvalidFormat);
    }
    let mut j: usize = i + 1;
    while j < n && bytes[j] != 58
        invariant
            i < j <= n,
            n == bytes@.len(),
            forall|k: int| i < k < j ==> !is_colon(#[trigger] bytes@[k]),
        decreases n - j,
    {
        j = j + 1;
    }
    if j < n {
        proof {
            assert forall|k: int| !only_colon_at(bytes@, k) by {
                if only_colon_at(bytes@, k) {
                    assert(is_colon(bytes@[i as int]));
                    assert(is_colon(bytes@[j as int]));
                }
            }
        }
        return Err(ConfigError::InvalidFormat);
    }
    proof {
        assert(only_colon_at(bytes@, i as int));
        let chosen = choose|k: int| only_colon_at(bytes@, k);
        assert(is_colon(bytes@[i as int]));
        assert(chosen == i);
        assert(bytes@.take(i as int) =~= bytes@.subrange(0, i as int));
        assert(bytes@.skip(i as int + 1) =~= bytes@.subrange(i as int + 1, n as int));
    }
    let id_field: &[u8] = slice_subrange(bytes, 0, i);
    let port_field: &[u8] = slice_subrange(bytes, i + 1, n);
    match parse_unsigned(id_field, u64::MAX) {
        None => Err(ConfigError::InvalidId),
        Some(id) => match parse_unsigned(port_field, 65535) {
            None => Err(ConfigError::InvalidPort),
            Some(port) => Ok((id, port as u16)),
        },
    }
}

/// The port of the first of `parties` that has the identifier `id`.
pub open spec fn port_of(id: u64, parties: Seq<(u64, u16)>) -> Option<u16>
    decreases parties.len(),
{
    if parties.len() == 0 {
        None
    } else if parties[0].0 == id {
        Some(parties[0].1)
    } else {
        port_of(id, parties.drop_first())
    }
}

/// Whether a party has another identifier than `id`.
pub open spec fn is_other(id: u64) -> spec_fn((u64, u16)) -> bool {
    |p: (u64, u16)| p.0 != id
}

/// Those of `parties` that do not have the identifier `id`, in their order.
pub open spec fn others_of(id: u64, parties: Seq<(u64, u16)>) -> Seq<(u64, u16)> {
    parties.filter(is_other(id))
}

/// What a party knows of a run when it starts: the port that it listens on
/// itself, and its peers.
#[derive(Debug)]
pub struct Setup {
    pub port: u16,
    pub peers: Vec<(u64, u16)>,
}

/// The place of the party `current_id` among `parties`: its own port is that
/// of the first party with its identifier, and its peers are all parties
/// with another identifier. It is an error if no party has the identifier.
pub fn local_setup(current_id: u64, parties: &Vec<(u64, u16)>) -> (r: Result<Setup, ConfigError>)
    ensures
        match r {
            Ok(setup) => port_of(current_id, parties@) == Some(setup.port) && setup.peers@
                == others_of(current_id, parties@),
            Err(e) => e == ConfigError::UnknownParty && port_of(current_id, parties@) is None,
        },
{
    let n: usize = parties.len();
    let mut i: usize = 0;
    proof {
        assert(parties@.skip(0) =~= parties@);
    }
    while i < n && parties[i].0 != current_id
        invariant
            i <= n,
            n == parties@.len(),
            port_of(current_id, parties@) == port_of(current_id, parties@.skip(i as int)),
        decreases n - i,
    {
        proof {
            assert(parties@.skip(i as int).drop_first() =~= parties@.skip(i as int + 1));
        }
        i = i + 1;
    }
    if i == n {
        return Err(ConfigError::UnknownParty);
    }
    let port: u16 = parties[i].1;
    proof {
        assert(parties@.skip(i as int)[0] == parties@[i as int]);
        assert(port_of(current_id, parties@) == Some(port));
    }
    let ghost keep = is_other(current_id);
    let mut peers: Vec<(u64, u16)> = Vec::new();
    let mut k: usize = 0;
    proof {
        reveal(Seq::filter);
        assert(parties@.take(0).filter(keep) =~= Seq::<(u64, u16)>::empty());
    }
    while k < n
        invariant
            k <= n,
            n == parties@.len(),
            keep == is_other(current_id),
            peers@ == parties@.take(k as int).filter(keep),
        decreases n - k,
    {
        proof {
            reveal(Seq::filter);
            assert(parties@.take(k as int + 1).drop_last() =~= parties@.take(k as int));
        }
        if parties[k].0 != current_id {
            peers.push(parties[k]);
        }
        k = k + 1;
    }
    proof {
        assert(parties@.take(n as int) =~= parties@);
    }
    Ok(Setup { port, peers })
}

} // verus!
