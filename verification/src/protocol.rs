//! The wire format of the protocol: one command per message, as ASCII words
//! separated by whitespace, with every number in base 10.
//!
//! ```text
//! HELLO <port>
//! COMMUNICATE_SHARES
//! RECEIVE_SHARE <sender> <x> <y>
//! SUM_AND_DISTRIBUTE
//! RECEIVE_SUM <sender> <sum>
//! GIVE_RESULT
//! SHOW_SHARES
//! ```

use crate::field::{fq, lemma_fq_view, reduce, Fq, MODULUS};
use vstd::arithmetic::div_mod::{lemma_add_mod_noop, lemma_mul_mod_noop_left};
use vstd::prelude::*;
use vstd::slice::slice_subrange;
use vstd::string::*;

verus! {

/// A command of the protocol.
#[derive(Clone, Copy, Debug, PartialEq, Eq, Structural)]
pub enum Command {
    /// A peer that has connected names the port that it listens on.
    Hello { port: u16 },
    /// Share the secret among all parties.
    CommunicateShares,
    /// The party `sender` hands over the point `(x, y)` of its polynomial.
    ReceiveShare { sender: u64, x: Fq, y: Fq },
    /// Add up the shares held and hand the sum to all parties.
    SumAndDistribute,
    /// The party `sender` hands over the sum of the shares that it holds.
    ReceiveSum { sender: u64, sum: Fq },
    /// Reconstruct the sum of all secrets from the sums held.
    GiveResult,
    /// Show the shares held.
    ShowShares,
}

/// Why a message is no command.
#[derive(Clone, Copy, Debug, PartialEq, Eq, Structural)]
pub enum ParseError {
    /// No command has this first word together with this number of fields.
    Unrecognized,
    /// The message has the shape of a command, but one of its fields is not
    /// a number of the kind that stands there.
    MalformedCommand,
}

/// The byte separates words: a space, a tab, a line feed, a vertical tab, a
/// form feed or a carriage return.
pub open spec fn is_space(b: u8) -> bool {
    b == 32 || (9 <= b && b <= 13)
}

/// The byte is an ASCII digit.
pub open spec fn is_digit(b: u8) -> bool {
    48 <= b && b <= 57
}

/// The word that has been read so far, as a list of at most one word.
pub open spec fn finished(word: Seq<u8>) -> Seq<Seq<u8>> {
    if word.len() == 0 {
        Seq::empty()
    } else {
        seq![word]
    }
}

/// The words of `rest`, where the bytes of `word` stand directly before it
/// and belong to its first word.
pub open spec fn split(rest: Seq<u8>, word: Seq<u8>) -> Seq<Seq<u8>>
    decreases rest.len(),
{
    if rest.len() == 0 {
        finished(word)
    } else if is_space(rest[0]) {
        finished(word) + split(rest.drop_first(), Seq::empty())
    } else {
        split(rest.drop_first(), word.push(rest[0]))
    }
}

/// The words of a message: its maximal runs of bytes that are not
/// whitespace, in their order.
pub open spec fn tokens(message: Seq<u8>) -> Seq<Seq<u8>> {
    split(message, Seq::empty())
}

/// The number that a digit denotes.
pub open spec fn digit_value(b: u8) -> nat {
    if is_digit(b) {
        (b - 48) as nat
    } else {
        0
    }
}

/// Every byte is a digit.
pub open spec fn all_digits(s: Seq<u8>) -> bool {
    forall|i: int| 0 <= i < s.len() ==> is_digit(#[trigger] s[i])
}

/// The number that a string of digits denotes in base 10.
pub open spec fn decimal_value(s: Seq<u8>) -> nat
    decreases s.len(),
{
    if s.len() == 0 {
        0
    } else {
        10 * decimal_value(s.drop_last()) + digit_value(s.last())
    }
}

/// The digits of an unsigned field, which may follow one plus sign.
pub open spec fn unsigned_digits(s: Seq<u8>) -> Seq<u8> {
    if s.len() > 0 && s[0] == 43 {
        s.drop_first()
    } else {
        s
    }
}

/// The value of an unsigned field that may be at most `max`: an optional
/// plus sign, then one digit or more. Leading zeros are accepted.
pub open spec fn unsigned_value(s: Seq<u8>, max: int) -> Option<int> {
    let digits = unsigned_digits(s);
    if digits.len() > 0 && all_digits(digits) && decimal_value(digits) <= max {
        Some(decimal_value(digits) as int)
    } else {
        None
    }
}

/// The value of a field that holds a field element: one digit or more, with
/// no leading zero but in the number zero itself. A number at or above the
/// modulus stands for the element that it is congruent to.
pub open spec fn field_value(s: Seq<u8>) -> Option<Fq> {
    if s.len() > 0 && all_digits(s) && (s[0] != 48 || s.len() == 1) {
        Some(fq(decimal_value(s) as int))
    } else {
        None
    }
}

/// The command that a list of words denotes.
pub open spec fn parse_tokens(words: Seq<Seq<u8>>) -> Result<Command, ParseError> {
    if words.len() == 0 {
        Err(ParseError::Unrecognized)
    } else if words[0] == "HELLO".spec_bytes() && words.len() == 2 {
        match unsigned_value(words[1], u16::MAX as int) {
            Some(port) => Ok(Command::Hello { port: port as u16 }),
            None => Err(ParseError::MalformedCommand),
        }
    } else if words[0] == "COMMUNICATE_SHARES".spec_bytes() && words.len() == 1 {
        Ok(Command::CommunicateShares)
    } else if words[0] == "RECEIVE_SHARE".spec_bytes() && words.len() == 4 {
        match (
            unsigned_value(words[1], u64::MAX as int),
            field_value(words[2]),
            field_value(words[3]),
        ) {
            (Some(sender), Some(x), Some(y)) => Ok(
                Command::ReceiveShare { sender: sender as u64, x, y },
            ),
            _ => Err(ParseError::MalformedCommand),
        }
    } else if words[0] == "SUM_AND_DISTRIBUTE".spec_bytes() && words.len() == 1 {
        Ok(Command::SumAndDistribute)
    } else if words[0] == "RECEIVE_SUM".spec_bytes() && words.len() == 3 {
        match (unsigned_value(words[1], u64::MAX as int), field_value(words[2])) {
            (Some(sender), Some(sum)) => Ok(Command::ReceiveSum { sender: sender as u64, sum }),
            _ => Err(ParseError::MalformedCommand),
        }
    } else if words[0] == "GIVE_RESULT".spec_bytes() && words.len() == 1 {
        Ok(Command::GiveResult)
    } else if words[0] == "SHOW_SHARES".spec_bytes() && words.len() == 1 {
        Ok(Command::ShowShares)
    } else {
        Err(ParseError::Unrecognized)
    }
}

/// The command that a message denotes.
pub open spec fn parse_message(message: Seq<u8>) -> Result<Command, ParseError> {
    parse_tokens(tokens(message))
}

/// The digits of a number in base 10, without leading zeros.
pub open spec fn decimal_digits(n: nat) -> Seq<u8>
    decreases n,
{
    if n < 10 {
        seq![(48 + n) as u8]
    } else {
        decimal_digits(n / 10).push((48 + n % 10) as u8)
    }
}

/// A word followed by one space.
pub open spec fn spaced(word: Seq<u8>) -> Seq<u8> {
    word.push(32u8)
}

/// The message that carries a command: its words with one space between
/// them, every number in base 10 without a sign or leading zeros, a field
/// element as its canonical representative.
pub open spec fn encode(c: Command) -> Seq<u8> {
    match c {
        Command::Hello { port } => spaced("HELLO".spec_bytes()) + decimal_digits(port as nat),
        Command::CommunicateShares => "COMMUNICATE_SHARES".spec_bytes(),
        Command::ReceiveShare { sender, x, y } => spaced("RECEIVE_SHARE".spec_bytes()) + spaced(
            decimal_digits(sender as nat),
        ) + spaced(decimal_digits(x@ as nat)) + decimal_digits(y@ as nat),
        Command::SumAndDistribute => "SUM_AND_DISTRIBUTE".spec_bytes(),
        Command::ReceiveSum { sender, sum } => spaced("RECEIVE_SUM".spec_bytes()) + spaced(
            decimal_digits(sender as nat),
        ) + decimal_digits(sum@ as nat),
        Command::GiveResult => "GIVE_RESULT".spec_bytes(),
        Command::ShowShares => "SHOW_SHARES".spec_bytes(),
    }
}

/// The words that the ranges `ranges` cut out of `message`.
pub open spec fn words_at(message: Seq<u8>, ranges: Seq<(usize, usize)>) -> Seq<Seq<u8>> {
    ranges.map_values(|r: (usize, usize)| message.subrange(r.0 as int, r.1 as int))
}

/// Every range lies within a message of `len` bytes.
pub open spec fn ranges_within(ranges: Seq<(usize, usize)>, len: int) -> bool {
    forall|k: int| 0 <= k < ranges.len() ==> (#[trigger] ranges[k]).0 <= ranges[k].1 <= len
}

/// Whether the byte separates words.
fn is_space_byte(b: u8) -> (r: bool)
    ensures
        r == is_space(b),
{
    b == 32 || (9 <= b && b <= 13)
}

/// Where the words of a message begin and end.
pub fn tokenize(message: &[u8]) -> (ranges: Vec<(usize, usize)>)
    ensures
        ranges_within(ranges@, message@.len() as int),
        words_at(message@, ranges@) == tokens(message@),
{
    let n: usize = message.len();
    let mut ranges: Vec<(usize, usize)> = Vec::new();
    let mut start: usize = 0;
    let mut i: usize = 0;
    proof {
        assert(message@.skip(0) =~= message@);
        assert(message@.subrange(0, 0) =~= Seq::<u8>::empty());
        assert(words_at(message@, ranges@) =~= Seq::<Seq<u8>>::empty());
        assert(words_at(message@, ranges@) + tokens(message@) =~= tokens(message@));
    }
    while i < n
        invariant
            start <= i <= n,
            n == message@.len(),
            ranges_within(ranges@, n as int),
            tokens(message@) == words_at(message@, ranges@) + split(
                message@.skip(i as int),
                message@.subrange(start as int, i as int),
            ),
        decreases n - i,
    {
        let ghost rest = message@.skip(i as int);
        let ghost word = message@.subrange(start as int, i as int);
        let ghost done = words_at(message@, ranges@);
        proof {
            assert(rest.drop_first() =~= message@.skip(i as int + 1));
            assert(rest[0] == message@[i as int]);
        }
        if is_space_byte(message[i]) {
            if start < i {
                ranges.push((start, i));
            }
            proof {
                assert(words_at(message@, ranges@) =~= done + finished(word));
                assert(message@.subrange(i as int + 1, i as int + 1) =~= Seq::<u8>::empty());
                let after = split(message@.skip(i as int + 1), Seq::empty());
                assert((done + finished(word)) + after =~= done + (finished(word) + after));
            }
            start = i + 1;
        } else {
            proof {
                assert(word.push(message@[i as int]) =~= message@.subrange(
                    start as int,
                    i as int + 1,
                ));
            }
        }
        i = i + 1;
    }
    let ghost done = words_at(message@, ranges@);
    let ghost word = message@.subrange(start as int, i as int);
    if start < i {
        ranges.push((start, i));
    }
    proof {
        assert(message@.skip(n as int).len() == 0);
        assert(words_at(message@, ranges@) =~= done + finished(word));
    }
    ranges
}

/// A longer string of digits denotes no smaller number than its beginning.
pub proof fn lemma_decimal_prefix(s: Seq<u8>, k: int)
    requires
        0 <= k <= s.len(),
    ensures
        decimal_value(s.take(k)) <= decimal_value(s),
    decreases s.len() - k,
{
    if k == s.len() {
        assert(s.take(k) =~= s);
    } else {
        lemma_decimal_prefix(s.drop_last(), k);
        assert(s.drop_last().take(k) =~= s.take(k));
    }
}

/// Appending a digit to a number commutes with reducing it.
proof fn lemma_decimal_step(v: nat, d: nat)
    ensures
        ((v % (MODULUS as nat)) * 10 + d) % (MODULUS as nat) == (10 * v + d) % (MODULUS as nat),
{
    let p = MODULUS as int;
    lemma_mul_mod_noop_left(v as int, 10, p);
    lemma_add_mod_noop(v as int * 10, d as int, p);
    lemma_add_mod_noop((v as int % p) * 10, d as int, p);
}

/// Whether two byte strings are the same.
pub fn same_bytes(a: &[u8], b: &[u8]) -> (r: bool)
    ensures
        r <==> a@ == b@,
{
    if a.len() != b.len() {
        return false;
    }
    let mut i: usize = 0;
    while i < a.len()
        invariant
            i <= a.len(),
            a.len() == b.len(),
            forall|k: int| 0 <= k < i ==> a[k] == b[k],
        decreases a.len() - i,
    {
        if a[i] != b[i] {
            return false;
        }
        i = i + 1;
    }
    proof {
        assert(a@ =~= b@);
    }
    true
}

/// Reads an unsigned field that may be at most `max`.
pub fn parse_unsigned(token: &[u8], max: u64) -> (r: Option<u64>)
    ensures
        match r {
            Some(v) => unsigned_value(token@, max as int) == Some(v as int),
            None => unsigned_value(token@, max as int) is None,
        },
{
    let n: usize = token.len();
    let start: usize = if n > 0 && token[0] == 43 {
        1
    } else {
        0
    };
    if start == n {
        return None;
    }
    let ghost digits = unsigned_digits(token@);
    proof {
        assert(digits =~= token@.skip(start as int));
        assert(digits.take(0) =~= Seq::<u8>::empty());
    }
    let mut acc: u64 = 0;
    let mut i: usize = start;
    while i < n
        invariant
            start <= i <= n,
            n == token@.len(),
            digits == token@.skip(start as int),
            digits == unsigned_digits(token@),
            all_digits(digits.take(i - start)),
            acc == decimal_value(digits.take(i - start)),
            acc <= max,
        decreases n - i,
    {
        let b: u8 = token[i];
        let ghost seen = digits.take(i - start + 1);
        proof {
            assert(seen.drop_last() =~= digits.take(i - start));
            assert(seen.last() == b);
            assert(digits[i - start] == b);
        }
        if b < 48 || b > 57 {
            return None;
        }
        let d: u64 = (b - 48) as u64;
        if acc > max / 10 || (acc == max / 10 && d > max % 10) {
            proof {
                lemma_decimal_prefix(digits, i - start + 1);
            }
            return None;
        }
        acc = acc * 10 + d;
        i = i + 1;
        proof {
            assert forall|k: int| 0 <= k < seen.len() implies is_digit(#[trigger] seen[k]) by {
                if k < seen.len() - 1 {
                    assert(seen[k] == digits.take(i - start - 1)[k]);
                }
            }
        }
    }
    proof {
        assert(digits.take(n - start) =~= digits);
    }
    Some(acc)
}

/// Reads a field that holds a field element.
pub fn parse_field(token: &[u8]) -> (r: Option<Fq>)
    ensures
        r == field_value(token@),
{
    let n: usize = token.len();
    if n == 0 {
        return None;
    }
    if token[0] == 48 && n > 1 {
        return None;
    }
    let mut acc: u64 = 0;
    let mut i: usize = 0;
    proof {
        assert(token@.take(0) =~= Seq::<u8>::empty());
    }
    while i < n
        invariant
            i <= n,
            n == token@.len(),
            all_digits(token@.take(i as int)),
            acc == decimal_value(token@.take(i as int)) % (MODULUS as nat),
        decreases n - i,
    {
        let b: u8 = token[i];
        let ghost seen = token@.take(i as int + 1);
        proof {
            assert(seen.drop_last() =~= token@.take(i as int));
            assert(seen.last() == b);
        }
        if b < 48 || b > 57 {
            return None;
        }
        let d: u64 = (b - 48) as u64;
        proof {
            lemma_decimal_step(decimal_value(token@.take(i as int)), d as nat);
        }
        acc = (acc * 10 + d) % MODULUS;
        i = i + 1;
        proof {
            assert forall|k: int| 0 <= k < seen.len() implies is_digit(#[trigger] seen[k]) by {
                if k < seen.len() - 1 {
                    assert(seen[k] == token@.take(i as int - 1)[k]);
                }
            }
        }
    }
    proof {
        reveal(reduce);
        assert(token@.take(n as int) =~= token@);
        lemma_fq_view(decimal_value(token@) as int);
    }
    Some(Fq::from_int(acc))
}

/// Appends a byte string.
fn push_bytes(out: &mut Vec<u8>, bytes: &[u8])
    ensures
        final(out)@ == old(out)@ + bytes@,
{
    let mut i: usize = 0;
    proof {
        assert(out@ =~= old(out)@ + bytes@.take(0));
    }
    while i < bytes.len()
        invariant
            i <= bytes.len(),
            out@ == old(out)@ + bytes@.take(i as int),
        decreases bytes.len() - i,
    {
        out.push(bytes[i]);
        i = i + 1;
        proof {
            assert(out@ =~= old(out)@ + bytes@.take(i as int));
        }
    }
    proof {
        assert(bytes@.take(bytes.len() as int) =~= bytes@);
    }
}

/// Appends the digits of a number.
fn push_decimal(out: &mut Vec<u8>, n: u64)
    ensures
        final(out)@ == old(out)@ + decimal_digits(n as nat),
    decreases n,
{
    if n >= 10 {
        push_decimal(out, n / 10);
    }
    out.push(48 + (n % 10) as u8);
    proof {
        assert(out@ =~= old(out)@ + decimal_digits(n as nat));
    }
}

/// Appends a space.
fn push_space(out: &mut Vec<u8>)
    ensures
        final(out)@ == old(out)@.push(32u8),
{
    out.push(32);
}

/// Writes a command as a message.
pub fn encode_command(c: &Command) -> (bytes: Vec<u8>)
    ensures
        bytes@ == encode(*c),
{
    let mut out: Vec<u8> = Vec::new();
    match *c {
        Command::Hello { port } => {
            push_bytes(&mut out, "HELLO".as_bytes());
            push_space(&mut out);
            push_decimal(&mut out, port as u64);
            proof {
                assert(out@ =~= encode(*c));
            }
        },
        Command::CommunicateShares => {
            push_bytes(&mut out, "COMMUNICATE_SHARES".as_bytes());
            proof {
                assert(out@ =~= encode(*c));
            }
        },
        Command::ReceiveShare { sender, x, y } => {
            push_bytes(&mut out, "RECEIVE_SHARE".as_bytes());
            push_space(&mut out);
            push_decimal(&mut out, sender);
            push_space(&mut out);
            push_decimal(&mut out, x.value());
            push_space(&mut out);
            push_decimal(&mut out, y.value());
            proof {
                assert(out@ =~= encode(*c));
            }
        },
        Command::SumAndDistribute => {
            push_bytes(&mut out, "SUM_AND_DISTRIBUTE".as_bytes());
            proof {
                assert(out@ =~= encode(*c));
            }
        },
        Command::ReceiveSum { sender, sum } => {
            push_bytes(&mut out, "RECEIVE_SUM".as_bytes());
            push_space(&mut out);
            push_decimal(&mut out, sender);
            push_space(&mut out);
            push_decimal(&mut out, sum.value());
            proof {
                assert(out@ =~= encode(*c));
            }
        },
        Command::GiveResult => {
            push_bytes(&mut out, "GIVE_RESULT".as_bytes());
            proof {
                assert(out@ =~= encode(*c));
            }
        },
        Command::ShowShares => {
            push_bytes(&mut out, "SHOW_SHARES".as_bytes());
            proof {
                assert(out@ =~= encode(*c));
            }
        },
    }
    out
}

/// Reads one message as a command.
pub fn parse_command(message: &[u8]) -> (r: Result<Command, ParseError>)
    ensures
        r == parse_message(message@),
{
    let ranges = tokenize(message);
    let count: usize = ranges.len();
    if count == 0 {
        return Err(ParseError::Unrecognized);
    }
    let ghost words = tokens(message@);
    proof {
        assert(words.len() == count);
        assert forall|k: int| 0 <= k < count implies words[k] == message@.subrange(
            (#[trigger] ranges@[k]).0 as int,
            ranges@[k].1 as int,
        ) by {
            assert(words_at(message@, ranges@)[k] == message@.subrange(
                ranges@[k].0 as int,
                ranges@[k].1 as int,
            ));
        }
    }
    let head: &[u8] = slice_subrange(message, ranges[0].0, ranges[0].1);
    if count == 2 && same_bytes(head, "HELLO".as_bytes()) {
        let field: &[u8] = slice_subrange(message, ranges[1].0, ranges[1].1);
        match parse_unsigned(field, 65535) {
            Some(port) => Ok(Command::Hello { port: port as u16 }),
            None => Err(ParseError::MalformedCommand),
        }
    } else if count == 1 && same_bytes(head, "COMMUNICATE_SHARES".as_bytes()) {
        Ok(Command::CommunicateShares)
    } else if count == 4 && same_bytes(head, "RECEIVE_SHARE".as_bytes()) {
        let first: &[u8] = slice_subrange(message, ranges[1].0, ranges[1].1);
        let second: &[u8] = slice_subrange(message, ranges[2].0, ranges[2].1);
        let third: &[u8] = slice_subrange(message, ranges[3].0, ranges[3].1);
        match (parse_unsigned(first, u64::MAX), parse_field(second), parse_field(third)) {
            (Some(sender), Some(x), Some(y)) => Ok(Command::ReceiveShare { sender, x, y }),
            _ => Err(ParseError::MalformedCommand),
        }
    } else if count == 1 && same_bytes(head, "SUM_AND_DISTRIBUTE".as_bytes()) {
        Ok(Command::SumAndDistribute)
    } else if count == 3 && same_bytes(head, "RECEIVE_SUM".as_bytes()) {
        let first: &[u8] = slice_subrange(message, ranges[1].0, ranges[1].1);
        let second: &[u8] = slice_subrange(message, ranges[2].0, ranges[2].1);
        match (parse_unsigned(first, u64::MAX), parse_field(second)) {
            (Some(sender), Some(sum)) => Ok(Command::ReceiveSum { sender, sum }),
            _ => Err(ParseError::MalformedCommand),
        }
    } else if count == 1 && same_bytes(head, "GIVE_RESULT".as_bytes()) {
        Ok(Command::GiveResult)
    } else if count == 1 && same_bytes(head, "SHOW_SHARES".as_bytes()) {
        Ok(Command::ShowShares)
    } else {
        Err(ParseError::Unrecognized)
    }
}

/// A word: one byte or more, none of them whitespace.
pub open spec fn is_word(w: Seq<u8>) -> bool {
    w.len() > 0 && forall|i: int| 0 <= i < w.len() ==> !is_space(#[trigger] w[i])
}

/// Bytes that are not whitespace join the word that is being read.
proof fn lemma_split_word(word: Seq<u8>, rest: Seq<u8>, before: Seq<u8>)
    requires
        forall|i: int| 0 <= i < word.len() ==> !is_space(#[trigger] word[i]),
    ensures
        split(word + rest, before) == split(rest, before + word),
    decreases word.len(),
{
    if word.len() == 0 {
        assert(word + rest =~= rest);
        assert(before + word =~= before);
    } else {
        let tail = word.drop_first();
        assert((word + rest)[0] == word[0]);
        assert((word + rest).drop_first() =~= tail + rest);
        assert forall|i: int| 0 <= i < tail.len() implies !is_space(#[trigger] tail[i]) by {
            assert(tail[i] == word[i + 1]);
        }
        lemma_split_word(tail, rest, before.push(word[0]));
        assert(before.push(word[0]) + tail =~= before + word);
    }
}

/// A word on its own is the one word of its message.
proof fn lemma_tokens_of_word(word: Seq<u8>)
    requires
        is_word(word),
    ensures
        tokens(word) == seq![word],
{
    let none = Seq::<u8>::empty();
    lemma_split_word(word, none, none);
    assert(word + none =~= word);
    assert(none + word =~= word);
}

/// A word and a space before a message add the word to the front of the
/// words of the message.
proof fn lemma_tokens_after_word(word: Seq<u8>, rest: Seq<u8>)
    requires
        is_word(word),
    ensures
        tokens(spaced(word) + rest) == seq![word] + tokens(rest),
{
    let none = Seq::<u8>::empty();
    let tail = seq![32u8] + rest;
    lemma_split_word(word, tail, none);
    assert(spaced(word) + rest =~= word + tail);
    assert(none + word =~= word);
    assert(tail[0] == 32u8);
    assert(tail.drop_first() =~= rest);
}

/// The digits of a number are a word of digits that denotes the number,
/// with no leading zero but for zero itself.
pub proof fn lemma_decimal_digits(n: nat)
    ensures
        is_word(decimal_digits(n)),
        all_digits(decimal_digits(n)),
        decimal_value(decimal_digits(n)) == n,
        decimal_digits(n)[0] != 48 || decimal_digits(n).len() == 1,
    decreases n,
{
    let d = decimal_digits(n);
    if n < 10 {
        assert(d.drop_last() =~= Seq::<u8>::empty());
        assert(d.last() == (48 + n) as u8);
        assert(decimal_value(d.drop_last()) == 0);
    } else {
        let front = decimal_digits(n / 10);
        lemma_decimal_digits(n / 10);
        assert(d.drop_last() =~= front);
        assert(d[0] == front[0]);
        assert(front.len() == 1 ==> front[0] != 48) by {
            if front.len() == 1 && front[0] == 48 {
                assert(front.drop_last() =~= Seq::<u8>::empty());
                assert(decimal_value(front.drop_last()) == 0);
                assert(decimal_value(front) == 0);
            }
        }
        assert forall|i: int| 0 <= i < d.len() implies is_digit(#[trigger] d[i]) by {
            if i < front.len() {
                assert(d[i] == front[i]);
            }
        }
    }
}

/// The first words of the commands are words, and those that stand alone
/// differ from one another.
proof fn lemma_keywords()
    ensures
        is_word("HELLO".spec_bytes()),
        is_word("COMMUNICATE_SHARES".spec_bytes()),
        is_word("RECEIVE_SHARE".spec_bytes()),
        is_word("SUM_AND_DISTRIBUTE".spec_bytes()),
        is_word("RECEIVE_SUM".spec_bytes()),
        is_word("GIVE_RESULT".spec_bytes()),
        is_word("SHOW_SHARES".spec_bytes()),
        "SUM_AND_DISTRIBUTE".spec_bytes() != "COMMUNICATE_SHARES".spec_bytes(),
        "GIVE_RESULT".spec_bytes() != "COMMUNICATE_SHARES".spec_bytes(),
        "GIVE_RESULT".spec_bytes() != "SUM_AND_DISTRIBUTE".spec_bytes(),
        "SHOW_SHARES".spec_bytes() != "COMMUNICATE_SHARES".spec_bytes(),
        "SHOW_SHARES".spec_bytes() != "SUM_AND_DISTRIBUTE".spec_bytes(),
        "SHOW_SHARES".spec_bytes() != "GIVE_RESULT".spec_bytes(),
{
    reveal_strlit("HELLO");
    reveal_strlit("COMMUNICATE_SHARES");
    reveal_strlit("RECEIVE_SHARE");
    reveal_strlit("SUM_AND_DISTRIBUTE");
    reveal_strlit("RECEIVE_SUM");
    reveal_strlit("GIVE_RESULT");
    reveal_strlit("SHOW_SHARES");
    lemma_ascii_word("HELLO");
    lemma_ascii_word("COMMUNICATE_SHARES");
    lemma_ascii_word("RECEIVE_SHARE");
    lemma_ascii_word("SUM_AND_DISTRIBUTE");
    lemma_ascii_word("RECEIVE_SUM");
    lemma_ascii_word("GIVE_RESULT");
    lemma_ascii_word("SHOW_SHARES");
    assert("SUM_AND_DISTRIBUTE".spec_bytes()[0] != "COMMUNICATE_SHARES".spec_bytes()[0]);
    assert("SHOW_SHARES".spec_bytes()[0] != "GIVE_RESULT".spec_bytes()[0]);
}

/// A character of a first word: a capital letter or an underscore.
pub open spec fn is_keyword_char(c: char) -> bool {
    ('A' <= c && c <= 'Z') || c == '_'
}

/// A string of one capital letter or underscore or more is a word, and its
/// bytes are its characters.
proof fn lemma_ascii_word(s: &str)
    requires
        s@.len() > 0,
        forall|i: int| 0 <= i < s@.len() ==> is_keyword_char(#[trigger] s@[i]),
    ensures
        is_word(s.spec_bytes()),
        s.spec_bytes().len() == s@.len(),
        forall|i: int| 0 <= i < s@.len() ==> #[trigger] s.spec_bytes()[i] == s@[i] as u8,
{
    assert(is_ascii(s)) by {
        assert forall|i: int| 0 <= i < s@.len() implies '\0' <= #[trigger] s@[i] <= '\u{7f}' by {
            assert(is_keyword_char(s@[i]));
        }
    }
    is_ascii_spec_bytes(s);
    assert forall|i: int| 0 <= i < s@.len() implies !is_space(#[trigger] s.spec_bytes()[i]) by {
        assert(is_keyword_char(s@[i]));
    }
}

/// Every field element of the command is normal. Every command that
/// executable code holds is.
pub open spec fn is_normal_command(c: Command) -> bool {
    match c {
        Command::ReceiveShare { x, y, .. } => x.is_normal() && y.is_normal(),
        Command::ReceiveSum { sum, .. } => sum.is_normal(),
        _ => true,
    }
}

/// A field that holds a field element reads back what was written into it.
proof fn lemma_field_round_trip(x: Fq)
    requires
        x.is_normal(),
    ensures
        field_value(decimal_digits(x@ as nat)) == Some(x),
{
    x.lemma_view_canonical();
    lemma_decimal_digits(x@ as nat);
}

/// Round trip: reading the message that a command was written as gives
/// back the command.
pub proof fn law_round_trip(c: Command)
    requires
        is_normal_command(c),
    ensures
        parse_message(encode(c)) == Ok::<Command, ParseError>(c),
{
    lemma_keywords();
    match c {
        Command::Hello { port } => {
            let key = "HELLO".spec_bytes();
            let field = decimal_digits(port as nat);
            lemma_decimal_digits(port as nat);
            lemma_tokens_after_word(key, field);
            lemma_tokens_of_word(field);
            assert(tokens(encode(c)) =~= seq![key, field]);
        },
        Command::CommunicateShares => {
            lemma_tokens_of_word("COMMUNICATE_SHARES".spec_bytes());
        },
        Command::ReceiveShare { sender, x, y } => {
            let key = "RECEIVE_SHARE".spec_bytes();
            let first = decimal_digits(sender as nat);
            let second = decimal_digits(x@ as nat);
            let third = decimal_digits(y@ as nat);
            lemma_decimal_digits(sender as nat);
            lemma_field_round_trip(x);
            lemma_field_round_trip(y);
            lemma_tokens_after_word(key, spaced(first) + (spaced(second) + third));
            lemma_tokens_after_word(first, spaced(second) + third);
            lemma_tokens_after_word(second, third);
            lemma_tokens_of_word(third);
            assert(encode(c) =~= spaced(key) + (spaced(first) + (spaced(second) + third)));
            assert(tokens(encode(c)) =~= seq![key, first, second, third]);
        },
        Command::SumAndDistribute => {
            lemma_tokens_of_word("SUM_AND_DISTRIBUTE".spec_bytes());
        },
        Command::ReceiveSum { sender, sum } => {
            let key = "RECEIVE_SUM".spec_bytes();
            let first = decimal_digits(sender as nat);
            let second = decimal_digits(sum@ as nat);
            lemma_decimal_digits(sender as nat);
            lemma_field_round_trip(sum);
            lemma_tokens_after_word(key, spaced(first) + second);
            lemma_tokens_after_word(first, second);
            lemma_tokens_of_word(second);
            assert(encode(c) =~= spaced(key) + (spaced(first) + second));
            assert(tokens(encode(c)) =~= seq![key, first, second]);
        },
        Command::GiveResult => {
            lemma_tokens_of_word("GIVE_RESULT".spec_bytes());
        },
        Command::ShowShares => {
            lemma_tokens_of_word("SHOW_SHARES".spec_bytes());
        },
    }
}

} // verus!
