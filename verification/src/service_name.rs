//! The names of the services that back replicas.
//!
//! A replica of instance `i` with identifier `r` runs as the service
//! `cluster-<i>-replica-<r>`, both numbers written in decimal. The parser
//! accepts exactly the texts of the shape `cluster-`, one or more ASCII
//! digits, `-replica-`, one or more ASCII digits, and nothing else.

use vstd::prelude::*;
use vstd::string::*;
use vstd::utf8::{is_ascii_chars, is_ascii_chars_encode_utf8, is_ascii_chars_nat_bound};
use crate::ids::{ComputeInstanceId, ReplicaId};

verus! {

/// Why a text is not the name of a replica's service.
#[derive(Clone, Copy, Debug, PartialEq, Eq, Structural)]
pub enum ServiceNameError {
    /// The text does not have the shape `cluster-<digits>-replica-<digits>`.
    InvalidServiceName,
    /// The text has the shape, but one of its numbers does not fit an
    /// identifier.
    IdOutOfRange,
}

/// The character that writes the digit `d`.
pub open spec fn digit_char(d: nat) -> char {
    if d == 0 {
        '0'
    } else if d == 1 {
        '1'
    } else if d == 2 {
        '2'
    } else if d == 3 {
        '3'
    } else if d == 4 {
        '4'
    } else if d == 5 {
        '5'
    } else if d == 6 {
        '6'
    } else if d == 7 {
        '7'
    } else if d == 8 {
        '8'
    } else {
        '9'
    }
}

/// Whether `c` is one of the ASCII digits.
pub open spec fn is_digit(c: char) -> bool {
    '0' <= c <= '9'
}

/// The digit that `c` writes.
pub open spec fn digit_value(c: char) -> nat {
    (c as nat - '0' as nat) as nat
}

/// The decimal numeral of `n`, without leading zeros.
pub open spec fn decimal(n: nat) -> Seq<char>
    decreases n,
{
    if n < 10 {
        seq![digit_char(n)]
    } else {
        decimal(n / 10).push(digit_char(n % 10))
    }
}

/// The number that a sequence of digits writes in decimal.
pub open spec fn digits_value(digits: Seq<char>) -> nat
    decreases digits.len(),
{
    if digits.len() == 0 {
        0
    } else {
        digits_value(digits.drop_last()) * 10 + digit_value(digits.last())
    }
}

/// The number of digits at the front of `text[start..]`.
pub open spec fn digit_run(text: Seq<char>, start: int) -> nat
    decreases text.len() - start,
{
    if 0 <= start < text.len() && is_digit(text[start]) {
        1 + digit_run(text, start + 1)
    } else {
        0
    }
}

/// Whether `text[start..]` begins with `word`.
pub open spec fn has_word_at(text: Seq<char>, start: int, word: Seq<char>) -> bool {
    &&& 0 <= start
    &&& start + word.len() <= text.len()
    &&& text.subrange(start, start + word.len()) == word
}

pub open spec fn cluster_word() -> Seq<char> {
    seq!['c', 'l', 'u', 's', 't', 'e', 'r', '-']
}

pub open spec fn replica_word() -> Seq<char> {
    seq!['-', 'r', 'e', 'p', 'l', 'i', 'c', 'a', '-']
}

/// The name of the service that backs all of instance `instance_id`.
pub open spec fn instance_service_name(instance_id: ComputeInstanceId) -> Seq<char> {
    cluster_word() + decimal(instance_id as nat)
}

/// The name of the service that backs replica `replica_id` of instance
/// `instance_id`.
pub open spec fn replica_service_name(
    instance_id: ComputeInstanceId,
    replica_id: ReplicaId,
) -> Seq<char> {
    cluster_word() + decimal(instance_id as nat) + replica_word() + decimal(replica_id as nat)
}

/// The two numbers that `text` names, if it has the shape of a replica's
/// service name: `cluster-`, a run of digits, `-replica-`, a run of digits
/// that ends the text.
pub open spec fn parsed_service_name(text: Seq<char>) -> Option<(nat, nat)> {
    let first = cluster_word().len() as int;
    let first_len = digit_run(text, first) as int;
    let second = first + first_len + replica_word().len();
    let second_len = digit_run(text, second) as int;
    if has_word_at(text, 0, cluster_word()) && first_len > 0 && has_word_at(
        text,
        first + first_len,
        replica_word(),
    ) && second_len > 0 && second + second_len == text.len() {
        Some(
            (
                digits_value(text.subrange(first, first + first_len)),
                digits_value(text.subrange(second, second + second_len)),
            ),
        )
    } else {
        None
    }
}

proof fn lemma_digit_char(d: nat)
    requires
        d < 10,
    ensures
        is_digit(digit_char(d)),
        digit_value(digit_char(d)) == d,
        digit_char(d) != '-',
{
}

/// A decimal numeral is a non-empty run of digits that writes its number.
pub proof fn lemma_decimal(n: nat)
    ensures
        decimal(n).len() > 0,
        forall|i: int| 0 <= i < decimal(n).len() ==> is_digit(#[trigger] decimal(n)[i]),
        digits_value(decimal(n)) == n,
    decreases n,
{
    if n < 10 {
        lemma_digit_char(n);
        assert(decimal(n).drop_last() =~= Seq::<char>::empty());
        assert(digits_value(decimal(n).drop_last()) == 0);
    } else {
        lemma_decimal(n / 10);
        lemma_digit_char(n % 10);
        assert(decimal(n).drop_last() =~= decimal(n / 10));
    }
}

/// A run of digits that sits in `text` at `start` and is followed by the end
/// of the text or by something that is no digit is the whole run there.
proof fn lemma_digit_run(text: Seq<char>, start: int, digits: Seq<char>)
    requires
        0 <= start,
        start + digits.len() <= text.len(),
        text.subrange(start, start + digits.len()) == digits,
        forall|i: int| 0 <= i < digits.len() ==> is_digit(#[trigger] digits[i]),
        start + digits.len() == text.len() || !is_digit(text[start + digits.len()]),
    ensures
        digit_run(text, start) == digits.len(),
    decreases digits.len(),
{
    if digits.len() > 0 {
        assert(text[start] == digits[0]);
        let rest = digits.subrange(1, digits.len() as int);
        assert(text.subrange(start + 1, start + 1 + rest.len()) =~= rest);
        assert forall|i: int| 0 <= i < rest.len() implies is_digit(#[trigger] rest[i]) by {
            assert(rest[i] == digits[i + 1]);
        }
        lemma_digit_run(text, start + 1, rest);
    }
}

/// Parsing the name that was generated for a replica gives back the
/// instance and the replica that it was generated for.
pub proof fn lemma_parse_inverts_generate(instance_id: ComputeInstanceId, replica_id: ReplicaId)
    ensures
        parsed_service_name(replica_service_name(instance_id, replica_id)) == Some(
            (instance_id as nat, replica_id as nat),
        ),
{
    let a = decimal(instance_id as nat);
    let b = decimal(replica_id as nat);
    let text = replica_service_name(instance_id, replica_id);
    lemma_decimal(instance_id as nat);
    lemma_decimal(replica_id as nat);
    let first = cluster_word().len() as int;
    let second = first + a.len() + replica_word().len();
    assert(text.subrange(0, first) =~= cluster_word());
    assert(text.subrange(first, first + a.len()) =~= a);
    assert(text.subrange(first + a.len(), second) =~= replica_word());
    assert(text.subrange(second, second + b.len()) =~= b);
    assert(text[first + a.len()] == '-');
    lemma_digit_run(text, first, a);
    lemma_digit_run(text, second, b);
}

/// The one-character text that writes the digit `d`.
fn digit_str(d: u8) -> (s: &'static str)
    requires
        d < 10,
    ensures
        s@ == seq![digit_char(d as nat)],
{
    proof {
        reveal_strlit("0");
        reveal_strlit("1");
        reveal_strlit("2");
        reveal_strlit("3");
        reveal_strlit("4");
        reveal_strlit("5");
        reveal_strlit("6");
        reveal_strlit("7");
        reveal_strlit("8");
        reveal_strlit("9");
    }
    let s = if d == 0 {
        "0"
    } else if d == 1 {
        "1"
    } else if d == 2 {
        "2"
    } else if d == 3 {
        "3"
    } else if d == 4 {
        "4"
    } else if d == 5 {
        "5"
    } else if d == 6 {
        "6"
    } else if d == 7 {
        "7"
    } else if d == 8 {
        "8"
    } else {
        "9"
    };
    assert(s@ =~= seq![digit_char(d as nat)]);
    s
}

/// The digits of a numeral whose low digits, least significant first, are
/// `low`, and whose remaining high part is the number `high`.
spec fn numeral_of_parts(high: nat, low: Seq<u8>) -> Seq<char> {
    let head = if high == 0 {
        Seq::<char>::empty()
    } else {
        decimal(high)
    };
    head + Seq::new(low.len(), |i: int| digit_char(low[low.len() - 1 - i] as nat))
}

/// Appends the decimal numeral of `n` to `text`.
pub fn push_decimal(text: &mut String, n: u64)
    ensures
        final(text)@ == old(text)@ + decimal(n as nat),
{
    let mut low: Vec<u8> = Vec::new();
    let mut high: u64 = n / 10;
    low.push((n % 10) as u8);
    proof {
        if n < 10 {
            assert(numeral_of_parts(high as nat, low@) =~= decimal(n as nat));
        } else {
            assert(numeral_of_parts(high as nat, low@) =~= decimal(n as nat));
        }
    }
    while high > 0
        invariant
            low@.len() > 0,
            forall|i: int| 0 <= i < low@.len() ==> #[trigger] low@[i] < 10,
            numeral_of_parts(high as nat, low@) == decimal(n as nat),
        decreases high,
    {
        let ghost before = low@;
        let digit = (high % 10) as u8;
        low.push(digit);
        proof {
            let rest = (high / 10) as nat;
            assert(numeral_of_parts(rest, low@) =~= numeral_of_parts(high as nat, before)) by {
                let tail_before = Seq::new(
                    before.len(),
                    |i: int| digit_char(before[before.len() - 1 - i] as nat),
                );
                let tail_after = Seq::new(
                    low@.len(),
                    |i: int| digit_char(low@[low@.len() - 1 - i] as nat),
                );
                assert(tail_after =~= seq![digit_char(digit as nat)] + tail_before);
                if high < 10 {
                    assert(decimal(high as nat) =~= seq![digit_char(digit as nat)]);
                } else {
                    assert(decimal(high as nat) =~= decimal(rest) + seq![digit_char(digit as nat)]);
                }
            }
        }
        high = high / 10;
    }
    let ghost start = text@;
    let mut k: usize = low.len();
    while k > 0
        invariant
            k <= low@.len(),
            forall|i: int| 0 <= i < low@.len() ==> #[trigger] low@[i] < 10,
            text@ == start + Seq::new(
                (low@.len() - k) as nat,
                |i: int| digit_char(low@[low@.len() - 1 - i] as nat),
            ),
        decreases k,
    {
        let ghost before = text@;
        k = k - 1;
        text.append(digit_str(low[k]));
        assert(text@ =~= start + Seq::new(
            (low@.len() - k) as nat,
            |i: int| digit_char(low@[low@.len() - 1 - i] as nat),
        ));
    }
    assert(text@ =~= start + numeral_of_parts(0, low@));
}

/// The name of the service that backs all of instance `instance_id`:
/// `cluster-<instance_id>`.
pub fn generate_instance_service_name(instance_id: ComputeInstanceId) -> (name: String)
    ensures
        name@ == instance_service_name(instance_id),
{
    proof {
        reveal_strlit("cluster-");
    }
    let mut name = String::from_str("cluster-");
    assert(name@ =~= cluster_word());
    push_decimal(&mut name, instance_id);
    name
}

/// The name of the service that backs replica `replica_id` of instance
/// `instance_id`: `cluster-<instance_id>-replica-<replica_id>`.
pub fn generate_replica_service_name(instance_id: ComputeInstanceId, replica_id: ReplicaId) -> (name:
    String)
    ensures
        name@ == replica_service_name(instance_id, replica_id),
{
    proof {
        reveal_strlit("-replica-");
    }
    let mut name = generate_instance_service_name(instance_id);
    name.append("-replica-");
    assert(name@ =~= cluster_word() + decimal(instance_id as nat) + replica_word());
    push_decimal(&mut name, replica_id);
    name
}

/// What `digit_run` counts is a run of digits, and what follows the run is
/// no digit.
proof fn lemma_digit_run_is_maximal(text: Seq<char>, start: int)
    requires
        0 <= start <= text.len(),
    ensures
        start + digit_run(text, start) <= text.len(),
        forall|i: int| start <= i < start + digit_run(text, start) ==> is_digit(#[trigger] text[i]),
        start + digit_run(text, start) == text.len() || !is_digit(
            text[start + digit_run(text, start)],
        ),
    decreases text.len() - start,
{
    if start < text.len() && is_digit(text[start]) {
        lemma_digit_run_is_maximal(text, start + 1);
    }
}

/// A text that names a replica's service holds ASCII characters only.
proof fn lemma_service_name_is_ascii(text: Seq<char>)
    requires
        parsed_service_name(text) is Some,
    ensures
        is_ascii_chars(text),
{
    let first = cluster_word().len() as int;
    let first_len = digit_run(text, first) as int;
    let second = first + first_len + replica_word().len();
    lemma_digit_run_is_maximal(text, first);
    lemma_digit_run_is_maximal(text, second);
    assert forall|i: int| 0 <= i < text.len() implies '\0' <= #[trigger] text[i] <= '\u{7f}' by {
        if i < first {
            assert(text[i] == text.subrange(0, first)[i]);
        } else if i < first + first_len {
        } else if i < second {
            assert(text[i] == text.subrange(first + first_len, second)[i - first - first_len]);
        } else {
        }
    }
}

/// The value of a run of digits grows with each digit that is added.
proof fn lemma_digits_value_grows(digits: Seq<char>, k: int)
    requires
        0 <= k <= digits.len(),
    ensures
        digits_value(digits.subrange(0, k)) <= digits_value(digits),
    decreases digits.len() - k,
{
    if k < digits.len() {
        lemma_digits_value_grows(digits, k + 1);
        assert(digits.subrange(0, k + 1).drop_last() =~= digits.subrange(0, k));
    } else {
        assert(digits.subrange(0, k) =~= digits);
    }
}

/// The ASCII text `text` has as many bytes as characters.
fn ascii_len(text: &str) -> (n: usize)
    requires
        text.is_ascii(),
    ensures
        n == text@.len(),
{
    proof {
        is_ascii_chars_encode_utf8(text@);
    }
    text.as_bytes().len()
}

/// Whether the ASCII text `text` holds `word` at `start`.
fn has_word(text: &str, start: usize, word: &str) -> (b: bool)
    requires
        text.is_ascii(),
        word.is_ascii(),
    ensures
        b == has_word_at(text@, start as int, word@),
{
    let n = ascii_len(text);
    let m = ascii_len(word);
    if start > n || m > n - start {
        return false;
    }
    let mut k: usize = 0;
    while k < m
        invariant
            text.is_ascii(),
            word.is_ascii(),
            n == text@.len(),
            m == word@.len(),
            start + m <= n,
            k <= m,
            forall|i: int| 0 <= i < k ==> text@[start + i] == #[trigger] word@[i],
        decreases m - k,
    {
        if text.get_ascii(start + k) != word.get_ascii(k) {
            proof {
                is_ascii_chars_nat_bound(text@);
                is_ascii_chars_nat_bound(word@);
                assert(text@[start + k] != word@[k as int]);
                assert(text@.subrange(start as int, start + m)[k as int] == text@[start + k]);
            }
            return false;
        }
        proof {
            is_ascii_chars_nat_bound(text@);
            is_ascii_chars_nat_bound(word@);
            assert(text@[start + k] as nat == word@[k as int] as nat);
        }
        k = k + 1;
    }
    assert(text@.subrange(start as int, start + m) =~= word@);
    true
}

/// The end of the run of digits that the ASCII text `text` holds at `start`.
fn scan_digits(text: &str, start: usize) -> (end: usize)
    requires
        text.is_ascii(),
        start <= text@.len(),
    ensures
        end == start + digit_run(text@, start as int),
        end <= text@.len(),
{
    proof {
        lemma_digit_run_is_maximal(text@, start as int);
    }
    let n = ascii_len(text);
    let mut end: usize = start;
    while end < n && is_digit_byte(text.get_ascii(end))
        invariant
            text.is_ascii(),
            n == text@.len(),
            start <= end <= n,
            start + digit_run(text@, start as int) == end + digit_run(text@, end as int),
        decreases n - end,
    {
        proof {
            is_ascii_chars_nat_bound(text@);
            assert(is_digit(text@[end as int]));
        }
        end = end + 1;
    }
    proof {
        is_ascii_chars_nat_bound(text@);
        if end < n {
            assert(!is_digit(text@[end as int]));
        }
    }
    end
}

/// Whether the byte is the ASCII code of a digit.
fn is_digit_byte(byte: u8) -> (b: bool)
    ensures
        b == (48 <= byte <= 57),
{
    48 <= byte && byte <= 57
}

/// The number that the digits `text[start..end]` write, if it fits.
fn digits_to_id(text: &str, start: usize, end: usize) -> (id: Option<u64>)
    requires
        text.is_ascii(),
        start <= end <= text@.len(),
        forall|i: int| start <= i < end ==> is_digit(#[trigger] text@[i]),
    ensures
        match id {
            Some(v) => v == digits_value(text@.subrange(start as int, end as int)),
            None => digits_value(text@.subrange(start as int, end as int)) > u64::MAX,
        },
{
    let ghost digits = text@.subrange(start as int, end as int);
    let mut value: u64 = 0;
    let mut k: usize = start;
    assert(digits.subrange(0, 0) =~= Seq::<char>::empty());
    while k < end
        invariant
            text.is_ascii(),
            start <= k <= end <= text@.len(),
            digits == text@.subrange(start as int, end as int),
            forall|i: int| start <= i < end ==> is_digit(#[trigger] text@[i]),
            value == digits_value(digits.subrange(0, k - start)),
        decreases end - k,
    {
        let byte = text.get_ascii(k);
        proof {
            is_ascii_chars_nat_bound(text@);
            assert(is_digit(text@[k as int]));
            assert(digits.subrange(0, k + 1 - start).drop_last() =~= digits.subrange(
                0,
                k - start,
            ));
            assert(digits.subrange(0, k + 1 - start).last() == text@[k as int]);
            lemma_digits_value_grows(digits, k + 1 - start);
        }
        let digit = (byte - 48) as u64;
        if value > (u64::MAX - digit) / 10 {
            return None;
        }
        value = value * 10 + digit;
        k = k + 1;
    }
    assert(digits.subrange(0, end - start) =~= digits);
    Some(value)
}

/// Reads the instance and the replica out of the name of a replica's
/// service.
///
/// A text of any other shape is refused as `InvalidServiceName`. A text of
/// the right shape one of whose numbers exceeds the largest identifier is
/// refused as `IdOutOfRange`.
pub fn parse_replica_service_name(service_name: &str) -> (result: Result<
    (ComputeInstanceId, ReplicaId),
    ServiceNameError,
>)
    ensures
        match parsed_service_name(service_name@) {
            None => result == Err::<(ComputeInstanceId, ReplicaId), _>(
                ServiceNameError::InvalidServiceName,
            ),
            Some((instance_id, replica_id)) => if instance_id <= u64::MAX && replica_id
                <= u64::MAX {
                result == Ok::<_, ServiceNameError>((instance_id as u64, replica_id as u64))
            } else {
                result == Err::<(ComputeInstanceId, ReplicaId), _>(ServiceNameError::IdOutOfRange)
            },
        },
{
    if !service_name.is_ascii() {
        proof {
            if parsed_service_name(service_name@) is Some {
                lemma_service_name_is_ascii(service_name@);
            }
        }
        return Err(ServiceNameError::InvalidServiceName);
    }
    proof {
        reveal_strlit("cluster-");
        reveal_strlit("-replica-");
        assert("cluster-"@ =~= cluster_word());
        assert("-replica-"@ =~= replica_word());
    }
    let n = ascii_len(service_name);
    if !has_word(service_name, 0, "cluster-") {
        return Err(ServiceNameError::InvalidServiceName);
    }
    let first: usize = 8;
    let first_end = scan_digits(service_name, first);
    if first_end == first {
        return Err(ServiceNameError::InvalidServiceName);
    }
    if !has_word(service_name, first_end, "-replica-") {
        return Err(ServiceNameError::InvalidServiceName);
    }
    let second: usize = first_end + 9;
    assert(second <= n);
    let second_end = scan_digits(service_name, second);
    if second_end == second || second_end != n {
        return Err(ServiceNameError::InvalidServiceName);
    }
    proof {
        lemma_digit_run_is_maximal(service_name@, first as int);
        lemma_digit_run_is_maximal(service_name@, second as int);
    }
    let instance_id = digits_to_id(service_name, first, first_end);
    let replica_id = digits_to_id(service_name, second, second_end);
    match (instance_id, replica_id) {
        (Some(instance_id), Some(replica_id)) => Ok((instance_id, replica_id)),
        _ => Err(ServiceNameError::IdOutOfRange),
    }
}

} // verus!
