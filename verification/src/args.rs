//! The texts of command-line arguments: lists, peer specifications and numbers.

use vstd::prelude::*;
use vstd::string::StrSliceExecFns;
use vstd::string::StringExecFns;

use crate::message::NodeId;

verus! {

// ── Lists ──────────────────────────────────────────────────────────────────

/// The position of the first `mark` in a text, or the length of the text.
pub open spec fn find(text: Seq<char>, mark: char) -> int
    decreases text.len(),
{
    if text.len() == 0 || text[0] == mark {
        0
    } else {
        1 + find(text.skip(1), mark)
    }
}

/// The mark is at the position that was found, and nowhere before.
proof fn find_is_first(text: Seq<char>, mark: char, at: int)
    requires
        0 <= at <= text.len(),
        forall|i: int| 0 <= i < at ==> text[i] != mark,
        at == text.len() || text[at] == mark,
    ensures
        find(text, mark) == at,
    decreases text.len(),
{
    if at > 0 {
        find_is_first(text.skip(1), mark, at - 1);
    }
}

proof fn find_is_in_range(text: Seq<char>, mark: char)
    ensures
        0 <= find(text, mark) <= text.len(),
    decreases text.len(),
{
    if text.len() > 0 && text[0] != mark {
        find_is_in_range(text.skip(1), mark);
    }
}

/// The parts of a text between the commas. A text without a comma is one part.
pub open spec fn parts(text: Seq<char>) -> Seq<Seq<char>>
    decreases text.len(),
    via parts_get_shorter
{
    let at = find(text, ',');
    if at >= text.len() {
        seq![text]
    } else {
        seq![text.take(at)] + parts(text.skip(at + 1))
    }
}

#[via_fn]
proof fn parts_get_shorter(text: Seq<char>) {
    find_is_in_range(text, ',');
}

/// A list of texts.
pub open spec fn texts_of(list: Seq<String>) -> Seq<Seq<char>> {
    list.map_values(|s: String| s@)
}

/// Splits a text at its commas.
pub fn split_list(text: &str) -> (list: Vec<String>)
    ensures
        texts_of(list@) == parts(text@),
{
    let len = text.unicode_len();
    let mut list: Vec<String> = Vec::new();
    let mut start: usize = 0;
    let mut i: usize = 0;
    assert(text@.skip(0) =~= text@);
    assert(texts_of(list@) + parts(text@) =~= parts(text@));
    while i < len
        invariant
            len == text@.len(),
            start <= i <= len,
            forall|j: int| start <= j < i ==> text@[j] != ',',
            texts_of(list@) + parts(text@.skip(start as int)) == parts(text@),
        decreases len - i,
    {
        if text.get_char(i) == ',' {
            let ghost rest = text@.skip(start as int);
            let ghost before = list@;
            proof {
                find_is_first(rest, ',', i - start);
                assert(rest.skip(i - start + 1) =~= text@.skip(i + 1));
                assert(rest.take(i - start) =~= text@.subrange(start as int, i as int));
            }
            list.push(String::from_str(text.substring_char(start, i)));
            assert(texts_of(list@) =~= texts_of(before).push(rest.take(i - start)));
            assert(texts_of(list@) + parts(text@.skip(i + 1)) =~= texts_of(before) + parts(rest));
            start = i + 1;
        }
        i = i + 1;
    }
    let ghost rest = text@.skip(start as int);
    let ghost before = list@;
    proof {
        find_is_first(rest, ',', rest.len() as int);
        assert(rest =~= text@.subrange(start as int, len as int));
    }
    list.push(String::from_str(text.substring_char(start, len)));
    assert(texts_of(list@) =~= texts_of(before) + parts(rest));
    list
}

// ── Numbers ────────────────────────────────────────────────────────────────

pub open spec fn is_digit(c: char) -> bool {
    '0' <= c <= '9'
}

/// The number that decimal digits stand for.
pub open spec fn value(digits: Seq<char>) -> nat
    decreases digits.len(),
{
    if digits.len() == 0 {
        0
    } else {
        value(digits.drop_last()) * 10 + (digits.last() as nat - 48) as nat
    }
}

/// The digits of a number: what follows a plus sign, if there is one.
pub open spec fn unsigned(text: Seq<char>) -> Seq<char> {
    if text.len() > 0 && text[0] == '+' {
        text.skip(1)
    } else {
        text
    }
}

/// The number that a text stands for: one or more decimal digits, with or
/// without a plus sign, that fit in 64 bits.
pub open spec fn number(text: Seq<char>) -> Option<u64> {
    let digits = unsigned(text);
    if digits.len() > 0 && (forall|i: int| 0 <= i < digits.len() ==> is_digit(#[trigger] digits[i]))
        && value(digits) <= u64::MAX {
        Some(value(digits) as u64)
    } else {
        None
    }
}

/// A longer number is not smaller.
proof fn value_grows(digits: Seq<char>, len: int)
    requires
        0 <= len <= digits.len(),
    ensures
        value(digits.take(len)) <= value(digits),
    decreases digits.len(),
{
    if len < digits.len() {
        value_grows(digits.drop_last(), len);
        assert(digits.drop_last().take(len) =~= digits.take(len));
    } else {
        assert(digits.take(len) =~= digits);
    }
}

/// Reads a number.
pub fn parse_number(text: &str) -> (n: Option<u64>)
    ensures
        n == number(text@),
{
    let len = text.unicode_len();
    let start: usize = if len > 0 && text.get_char(0) == '+' {
        1
    } else {
        0
    };
    let ghost digits = unsigned(text@);
    if start == len {
        return None;
    }
    let mut n: u64 = 0;
    let mut i: usize = start;
    while i < len
        invariant
            len == text@.len(),
            start <= i <= len,
            start < len,
            digits == text@.skip(start as int),
            digits == unsigned(text@),
            n == value(digits.take(i - start)),
            forall|j: int| 0 <= j < i - start ==> is_digit(#[trigger] digits[j]),
        decreases len - i,
    {
        let c = text.get_char(i);
        assert(digits[i - start] == c);
        if c < '0' || c > '9' {
            return None;
        }
        let d: u64 = (c as u32 - 48) as u64;
        proof {
            let next = digits.take(i - start + 1);
            assert(next.drop_last() =~= digits.take(i - start));
            assert(value(next) == n * 10 + d);
            value_grows(digits, i - start + 1);
        }
        if n > (u64::MAX - d) / 10 {
            return None;
        }
        n = n * 10 + d;
        i = i + 1;
    }
    assert(digits.take(len - start) =~= digits);
    Some(n)
}

// ── Peers ──────────────────────────────────────────────────────────────────

/// Why a peer specification cannot be read.
#[derive(Debug, Clone, Copy, PartialEq, Eq, Structural)]
pub enum PeerError {
    /// There is no equals sign.
    InvalidSpec,
    /// What stands before the equals sign is not a node id.
    InvalidId,
}

/// A node and its address.
pub open spec fn peer(text: Seq<char>) -> Result<(NodeId, Seq<char>), PeerError> {
    let at = find(text, '=');
    if at >= text.len() {
        Err(PeerError::InvalidSpec)
    } else {
        match number(text.take(at)) {
            Some(id) => Ok((id, text.skip(at + 1))),
            None => Err(PeerError::InvalidId),
        }
    }
}

/// Reads a peer specification of the form `id=addr`. The address is what stands
/// behind the first equals sign.
pub fn parse_peer(text: &str) -> (result: Result<(NodeId, String), PeerError>)
    ensures
        match (result, peer(text@)) {
            (Ok(parsed), Ok(meant)) => parsed.0 == meant.0 && parsed.1@ == meant.1,
            (Err(found), Err(meant)) => found == meant,
            _ => false,
        },
{
    let len = text.unicode_len();
    let mut i: usize = 0;
    while i < len && text.get_char(i) != '='
        invariant
            len == text@.len(),
            i <= len,
            forall|j: int| 0 <= j < i ==> text@[j] != '=',
        decreases len - i,
    {
        i = i + 1;
    }
    proof {
        find_is_first(text@, '=', i as int);
    }
    if i == len {
        return Err(PeerError::InvalidSpec);
    }
    assert(text@.subrange(0, i as int) =~= text@.take(i as int));
    assert(text@.subrange(i + 1, len as int) =~= text@.skip(i + 1));
    match parse_number(text.substring_char(0, i)) {
        Some(id) => Ok((id, String::from_str(text.substring_char(i + 1, len)))),
        None => Err(PeerError::InvalidId),
    }
}

/// What is written in decimal is read back.
pub proof fn numbers_are_read_back(n: u64)
    ensures
        number(crate::text::decimal_text(n as nat)) == Some(n),
{
    decimal_digits(n as nat);
    let text = crate::text::decimal_text(n as nat);
    assert(is_digit(text[0]));
    assert(unsigned(text) == text);
}

proof fn decimal_digits(n: nat)
    ensures
        crate::text::decimal_text(n).len() > 0,
        forall|i: int|
            0 <= i < crate::text::decimal_text(n).len() ==> is_digit(
                #[trigger] crate::text::decimal_text(n)[i],
            ),
        value(crate::text::decimal_text(n)) == n,
    decreases n,
{
    let text = crate::text::decimal_text(n);
    if n < 10 {
        assert(text.drop_last() =~= Seq::empty());
        assert(value(text.drop_last()) == 0);
        assert(value(text) == n);
    } else {
        decimal_digits(n / 10);
        assert(text.drop_last() =~= crate::text::decimal_text(n / 10));
        assert forall|i: int| 0 <= i < text.len() implies is_digit(#[trigger] text[i]) by {
            if i < text.len() - 1 {
                assert(text[i] == crate::text::decimal_text(n / 10)[i]);
            }
        }
    }
}

/// The parts of a text, with a comma between one and the next.
pub open spec fn joined(list: Seq<Seq<char>>) -> Seq<char>
    decreases list.len(),
{
    if list.len() == 0 {
        Seq::empty()
    } else if list.len() == 1 {
        list[0]
    } else {
        list[0] + seq![','] + joined(list.skip(1))
    }
}

/// A list is the text split at its commas: no part has a comma, and with commas between
/// them the parts are the text again.
pub proof fn lists_are_split_at_commas(text: &str, list: Vec<String>)
    requires
        call_ensures(split_list, (text,), list),
    ensures
        list@.len() > 0,
        forall|i: int, k: int|
            0 <= i < list@.len() && 0 <= k < list@[i]@.len() ==> #[trigger] list@[i]@[k] != ',',
        joined(texts_of(list@)) == text@,
{
    parts_are_joined(text@);
    assert forall|i: int, k: int|
        0 <= i < list@.len() && 0 <= k < list@[i]@.len() implies #[trigger] list@[i]@[k]
        != ',' by {
        assert(texts_of(list@)[i] == list@[i]@);
        assert(parts(text@)[i][k] != ',');
    }
}

proof fn found_is_first(text: Seq<char>, mark: char)
    ensures
        0 <= find(text, mark) <= text.len(),
        find(text, mark) < text.len() ==> text[find(text, mark)] == mark,
        forall|i: int| 0 <= i < find(text, mark) ==> #[trigger] text[i] != mark,
    decreases text.len(),
{
    if text.len() > 0 && text[0] != mark {
        found_is_first(text.skip(1), mark);
        assert forall|i: int| 0 <= i < find(text, mark) implies #[trigger] text[i] != mark by {
            if i > 0 {
                assert(text[i] == text.skip(1)[i - 1]);
            }
        }
    }
}

proof fn parts_are_joined(text: Seq<char>)
    ensures
        parts(text).len() > 0,
        joined(parts(text)) == text,
        forall|i: int, k: int|
            0 <= i < parts(text).len() && 0 <= k < parts(text)[i].len() ==> #[trigger] parts(
                text,
            )[i][k] != ',',
    decreases text.len(),
{
    let at = find(text, ',');
    found_is_first(text, ',');
    if at < text.len() {
        let rest = text.skip(at + 1);
        parts_are_joined(rest);
        let list = parts(text);
        assert(list == seq![text.take(at)] + parts(rest));
        assert(list.skip(1) =~= parts(rest));
        assert(list[0] + seq![','] + joined(parts(rest)) =~= text);
        assert forall|i: int, k: int| 0 <= i < list.len() && 0 <= k < list[i].len() implies
            #[trigger] list[i][k] != ',' by {
            if i > 0 {
                assert(list[i] == parts(rest)[i - 1]);
            }
        }
    } else {
        assert(parts(text) == seq![text]);
    }
}

/// The value of a digit.
pub open spec fn digit_value(c: char) -> int {
    c as int - '0' as int
}

/// How numbers are read: a digit stands for itself, and one more digit makes ten times
/// the number and that digit, if it fits. A plus sign before the first digit changes
/// nothing.
pub proof fn numbers_are_read_digit_by_digit(
    one: &str,
    some: &str,
    more: &str,
    signed: &str,
    c: char,
    n: Option<u64>,
    first: Option<u64>,
    next: Option<u64>,
    plus: Option<u64>,
)
    requires
        '0' <= c <= '9',
        one@ == seq![c],
        more@ == some@.push(c),
        signed@ == seq!['+'] + some@,
        some@.len() > 0,
        '0' <= some@[0] <= '9',
        call_ensures(parse_number, (one,), first),
        call_ensures(parse_number, (some,), n),
        call_ensures(parse_number, (more,), next),
        call_ensures(parse_number, (signed,), plus),
    ensures
        first == Some(digit_value(c) as u64),
        n matches Some(value) ==> next == if 10 * value + digit_value(c) <= u64::MAX {
            Some((10 * value + digit_value(c)) as u64)
        } else {
            None
        },
        n is None ==> next is None,
        plus == n,
{
    assert(unsigned(one@) == one@);
    assert(unsigned(some@) == some@);
    assert(unsigned(more@) == more@) by {
        assert(more@[0] == some@[0]);
    }
    assert(unsigned(signed@) =~= some@);
    assert(one@.drop_last() =~= Seq::empty());
    assert(value(one@.drop_last()) == 0);
    assert(value(one@) == digit_value(c));
    assert(is_digit(one@[0]));
    assert(more@.drop_last() =~= some@);
    assert(more@.last() == c);
    assert(value(more@) == 10 * value(some@) + digit_value(c));
    let digits = |s: Seq<char>| forall|i: int| 0 <= i < s.len() ==> is_digit(#[trigger] s[i]);
    if digits(some@) {
        assert forall|i: int| 0 <= i < more@.len() implies is_digit(#[trigger] more@[i]) by {
            if i < some@.len() {
                assert(more@[i] == some@[i]);
            }
        }
    } else {
        let i = choose|i: int| 0 <= i < some@.len() && !is_digit(#[trigger] some@[i]);
        assert(!is_digit(more@[i]));
    }
}

/// What is no number: nothing at all, a plus sign alone, and whatever has a character
/// that is no digit, but for a plus sign at its start.
pub proof fn other_texts_are_no_numbers(text: &str, n: Option<u64>, i: int)
    requires
        call_ensures(parse_number, (text,), n),
        text@.len() == 0 || text@ == seq!['+'] || (0 <= i < text@.len() && !('0' <= text@[i]
            <= '9') && !(i == 0 && text@[0] == '+')),
    ensures
        n is None,
{
    let digits = unsigned(text@);
    if text@.len() > 0 && text@ != seq!['+'] {
        if text@[0] == '+' {
            assert(digits[i - 1] == text@[i]);
        } else {
            assert(digits[i] == text@[i]);
        }
    }
}

/// A peer is what stands before the first equals sign, a number, and what stands behind
/// it, as it is.
pub proof fn peers_are_split_at_the_first_sign(
    text: &str,
    before: &str,
    at: int,
    id: Option<u64>,
    result: Result<(NodeId, String), PeerError>,
)
    requires
        0 <= at <= text@.len(),
        forall|i: int| 0 <= i < at ==> #[trigger] text@[i] != '=',
        at < text@.len() ==> text@[at] == '=',
        before@ == text@.take(at),
        call_ensures(parse_number, (before,), id),
        call_ensures(parse_peer, (text,), result),
    ensures
        at == text@.len() ==> result == Err::<(NodeId, String), PeerError>(PeerError::InvalidSpec),
        at < text@.len() ==> match id {
            Some(n) => result matches Ok(peer) && peer.0 == n && peer.1@ == text@.skip(at + 1),
            None => result == Err::<(NodeId, String), PeerError>(PeerError::InvalidId),
        },
{
    find_is_first(text@, '=', at);
}

} // verus!
