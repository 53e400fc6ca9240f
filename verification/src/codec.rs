//! The cursor codec.
//!
//! A cursor is an opaque token that records the sort key of one row: the
//! row's creation timestamp and its numeric id. The token is the decimal
//! digits of the id, a `:` separator, and the decimal digits of the
//! timestamp. The encoding is an implementation detail of this crate; the
//! one promise is that it is stable and round-trips exactly, which
//! [`lemma_cursor_round_trip`] proves.

use vstd::prelude::*;

use crate::error::CategoryError;

verus! {

/// True of the ten decimal digit characters.
pub open spec fn is_digit(c: char) -> bool {
    c == '0' || c == '1' || c == '2' || c == '3' || c == '4' || c == '5' || c == '6' || c == '7'
        || c == '8' || c == '9'
}

/// The digit character for a value below ten.
pub open spec fn digit_char(d: int) -> char {
    if d == 0 {
        '0'
    } else if d == 1 {
        '1'
    } else if d == 2 {
        '2'
    } else if d == 3 {
        '3'
    } else if d == 4 {
        '4'
    } else if d == 5 {
        '5'
    } else if d == 6 {
        '6'
    } else if d == 7 {
        '7'
    } else if d == 8 {
        '8'
    } else {
        '9'
    }
}

/// The value of a digit character; other characters read as zero.
pub open spec fn digit_val(c: char) -> int {
    if c == '0' {
        0
    } else if c == '1' {
        1
    } else if c == '2' {
        2
    } else if c == '3' {
        3
    } else if c == '4' {
        4
    } else if c == '5' {
        5
    } else if c == '6' {
        6
    } else if c == '7' {
        7
    } else if c == '8' {
        8
    } else {
        9
    }
}

/// The decimal representation of a number, most significant digit first.
pub open spec fn dec_rep(n: nat) -> Seq<char>
    decreases n,
{
    if n < 10 {
        seq![digit_char(n as int)]
    } else {
        dec_rep(n / 10).push(digit_char((n % 10) as int))
    }
}

/// True when every character of the sequence is a decimal digit.
pub open spec fn all_digits(s: Seq<char>) -> bool {
    forall|i: int| 0 <= i < s.len() ==> is_digit(#[trigger] s[i])
}

/// The value of a digit sequence read as a decimal number.
pub open spec fn dec_val(s: Seq<char>) -> nat
    decreases s.len(),
{
    if s.len() == 0 {
        0
    } else {
        (dec_val(s.drop_last()) * 10 + digit_val(s.last())) as nat
    }
}

/// What a sequence of characters parses to as a `u64`: its decimal value
/// when it is non-empty, all digits, and in range; nothing otherwise.
pub open spec fn parse_dec_spec(s: Seq<char>) -> Option<u64> {
    if s.len() > 0 && all_digits(s) && dec_val(s) <= u64::MAX {
        Some(dec_val(s) as u64)
    } else {
        None
    }
}

/// The index of the first `:` in the sequence, or -1 when there is none.
pub open spec fn find_colon(s: Seq<char>) -> int
    decreases s.len(),
{
    if s.len() == 0 {
        -1
    } else if s[0] == ':' {
        0
    } else {
        let r = find_colon(s.skip(1));
        if r == -1 {
            -1
        } else {
            r + 1
        }
    }
}

/// The token that encodes the sort key `(id, created_at)`.
pub open spec fn encoded_cursor(id: u64, created_at: u64) -> Seq<char> {
    dec_rep(id as nat) + seq![':'] + dec_rep(created_at as nat)
}

/// What a token decodes to: the `(id, created_at)` pair when the token is
/// two parseable decimal numbers around the first `:`, nothing otherwise.
pub open spec fn decoded_cursor(s: Seq<char>) -> Option<(u64, u64)> {
    let ci = find_colon(s);
    if ci < 0 {
        None
    } else {
        match (parse_dec_spec(s.subrange(0, ci)), parse_dec_spec(
            s.subrange(ci + 1, s.len() as int),
        )) {
            (Some(id), Some(created_at)) => Some((id, created_at)),
            _ => None,
        }
    }
}

/// The decimal representation is non-empty and made of digits only.
pub proof fn lemma_dec_rep_digits(n: nat)
    ensures
        dec_rep(n).len() >= 1,
        all_digits(dec_rep(n)),
    decreases n,
{
    if n >= 10 {
        lemma_dec_rep_digits(n / 10);
        assert forall|i: int| 0 <= i < dec_rep(n).len() implies is_digit(#[trigger] dec_rep(n)[i]) by {
            if i < dec_rep(n / 10).len() {
                assert(dec_rep(n)[i] == dec_rep(n / 10)[i]);
            }
        }
    }
}

/// Reading the decimal representation back yields the number it encodes.
pub proof fn lemma_dec_val_dec_rep(n: nat)
    ensures
        dec_val(dec_rep(n)) == n,
    decreases n,
{
    if n < 10 {
        let s = dec_rep(n);
        assert(s == seq![digit_char(n as int)]);
        assert(s.drop_last() =~= Seq::<char>::empty());
        assert(s.last() == digit_char(n as int));
        assert(dec_val(s) == dec_val(s.drop_last()) * 10 + digit_val(s.last()));
        assert(digit_val(digit_char(n as int)) == n);
    } else {
        lemma_dec_val_dec_rep(n / 10);
        let s = dec_rep(n);
        assert(s == dec_rep(n / 10).push(digit_char((n % 10) as int)));
        assert(s.drop_last() =~= dec_rep(n / 10));
        assert(s.last() == digit_char((n % 10) as int));
        assert(dec_val(s) == dec_val(s.drop_last()) * 10 + digit_val(s.last()));
        assert(digit_val(digit_char((n % 10) as int)) == n % 10);
        assert(n / 10 * 10 + n % 10 == n) by (nonlinear_arith);
    }
}

/// A longer digit prefix never reads as a smaller value.
proof fn lemma_dec_val_prefix_le(s: Seq<char>, j: int, k: int)
    requires
        0 <= j <= k <= s.len(),
    ensures
        dec_val(s.subrange(0, j)) <= dec_val(s.subrange(0, k)),
    decreases k - j,
{
    if j < k {
        lemma_dec_val_prefix_le(s, j, k - 1);
        let t = s.subrange(0, k);
        assert(t.drop_last() =~= s.subrange(0, k - 1));
        assert(dec_val(t.drop_last()) <= dec_val(t.drop_last()) * 10 + digit_val(t.last()));
    }
}

/// In a sequence laid out as `a + ":" + b` where `a` holds no colon, the
/// first colon stands right after `a`.
proof fn lemma_find_colon_at(s: Seq<char>, a: Seq<char>, b: Seq<char>)
    requires
        s == a + seq![':'] + b,
        forall|i: int| 0 <= i < a.len() ==> #[trigger] a[i] != ':',
    ensures
        find_colon(s) == a.len(),
    decreases a.len(),
{
    if a.len() == 0 {
        assert(s[0] == ':');
    } else {
        assert(s[0] == a[0]);
        assert(s.skip(1) =~= a.skip(1) + seq![':'] + b);
        lemma_find_colon_at(s.skip(1), a.skip(1), b);
    }
}

/// The first colon found by a scan: if no colon stands before `ci` and a
/// colon stands at `ci`, that is the index the spec function names.
proof fn lemma_find_colon_first(s: Seq<char>, ci: int)
    requires
        0 <= ci < s.len(),
        s[ci] == ':',
        forall|j: int| 0 <= j < ci ==> #[trigger] s[j] != ':',
    ensures
        find_colon(s) == ci,
    decreases ci,
{
    if ci > 0 {
        lemma_find_colon_first(s.skip(1), ci - 1);
    }
}

/// A sequence without any colon has no first colon.
proof fn lemma_find_colon_none(s: Seq<char>)
    requires
        forall|j: int| 0 <= j < s.len() ==> #[trigger] s[j] != ':',
    ensures
        find_colon(s) == -1,
    decreases s.len(),
{
    if s.len() > 0 {
        lemma_find_colon_none(s.skip(1));
    }
}

/// The cursor codec round-trips: decoding an encoded sort key yields the
/// key that was encoded, for every `(id, created_at)` pair.
pub proof fn lemma_cursor_round_trip(id: u64, created_at: u64)
    ensures
        decoded_cursor(encoded_cursor(id, created_at)) == Some((id, created_at)),
{
    let a = dec_rep(id as nat);
    let b = dec_rep(created_at as nat);
    let s = encoded_cursor(id, created_at);
    lemma_dec_rep_digits(id as nat);
    lemma_dec_rep_digits(created_at as nat);
    lemma_find_colon_at(s, a, b);
    assert(s.subrange(0, a.len() as int) =~= a);
    assert(s.subrange(a.len() as int + 1, s.len() as int) =~= b);
    lemma_dec_val_dec_rep(id as nat);
    lemma_dec_val_dec_rep(created_at as nat);
}

/// Relies on `String::push`: appends the given character to the end of
/// the string.
#[verifier::external_body]
fn push_char(s: &mut String, c: char)
    ensures
        final(s)@ == old(s)@.push(c),
{
    s.push(c);
}

/// The character for one digit value.
fn digit_to_char(d: u64) -> (c: char)
    requires
        d < 10,
    ensures
        c == digit_char(d as int),
{
    match d {
        0 => '0',
        1 => '1',
        2 => '2',
        3 => '3',
        4 => '4',
        5 => '5',
        6 => '6',
        7 => '7',
        8 => '8',
        _ => '9',
    }
}

/// The digit value of one character, when it is a digit.
fn char_digit(c: char) -> (r: Option<u64>)
    ensures
        r is Some <==> is_digit(c),
        r is Some ==> r->0 == digit_val(c) as u64,
{
    match c {
        '0' => Some(0),
        '1' => Some(1),
        '2' => Some(2),
        '3' => Some(3),
        '4' => Some(4),
        '5' => Some(5),
        '6' => Some(6),
        '7' => Some(7),
        '8' => Some(8),
        '9' => Some(9),
        _ => None,
    }
}

/// Appends the decimal digits of `n` to the string.
fn push_dec(s: &mut String, n: u64)
    ensures
        final(s)@ == old(s)@ + dec_rep(n as nat),
    decreases n,
{
    if n < 10 {
        push_char(s, digit_to_char(n));
        assert(final(s)@ =~= old(s)@ + dec_rep(n as nat));
    } else {
        push_dec(s, n / 10);
        push_char(s, digit_to_char(n % 10));
        assert(final(s)@ =~= old(s)@ + dec_rep(n as nat));
    }
}

/// Encodes the sort key `(id, created_at)` as an opaque cursor token.
/// Equal inputs give equal tokens.
pub fn encode_cursor(id: u64, created_at: u64) -> (r: String)
    ensures
        r@ == encoded_cursor(id, created_at),
{
    let mut s = String::new();
    push_dec(&mut s, id);
    push_char(&mut s, ':');
    push_dec(&mut s, created_at);
    proof {
        assert(s@ =~= encoded_cursor(id, created_at));
    }
    s
}

/// Parses the characters of `s` between `from` and `to` as a decimal
/// number, exactly as [`parse_dec_spec`] reads that range.
fn parse_dec(s: &str, from: usize, to: usize) -> (r: Option<u64>)
    requires
        from <= to <= s@.len(),
    ensures
        r == parse_dec_spec(s@.subrange(from as int, to as int)),
{
    let ghost whole = s@.subrange(from as int, to as int);
    if from == to {
        return None;
    }
    let mut acc: u64 = 0;
    let mut i: usize = from;
    while i < to
        invariant
            from <= i <= to <= s@.len(),
            whole == s@.subrange(from as int, to as int),
            all_digits(s@.subrange(from as int, i as int)),
            acc as nat == dec_val(s@.subrange(from as int, i as int)),
        decreases to - i,
    {
        let c = s.get_char(i);
        let ghost done = s@.subrange(from as int, i as int);
        let ghost next = s@.subrange(from as int, i + 1 as int);
        proof {
            assert(next.drop_last() =~= done);
            assert(next.last() == s@[i as int]);
        }
        match char_digit(c) {
            None => {
                assert(!all_digits(whole)) by {
                    assert(whole[i - from] == s@[i as int]);
                }
                return None;
            },
            Some(d) => {
                let wide: u128 = acc as u128 * 10 + d as u128;
                if wide > u64::MAX as u128 {
                    proof {
                        assert(dec_val(next) > u64::MAX);
                        lemma_dec_val_prefix_le(
                            s@.subrange(from as int, to as int),
                            i + 1 - from,
                            to - from,
                        );
                        assert(whole.subrange(0, i + 1 - from) =~= next);
                        assert(whole.subrange(0, to - from) =~= whole);
                    }
                    return None;
                }
                acc = wide as u64;
                i = i + 1;
            },
        }
    }
    proof {
        assert(s@.subrange(from as int, i as int) =~= whole);
        assert(whole.len() > 0);
    }
    Some(acc)
}

/// Decodes a cursor token back into its sort key `(id, created_at)`.
/// Fails with `InvalidCursor` exactly when the token is not parseable:
/// when it has no separator, or either side of the separator is not a
/// decimal number in range.
pub fn decode_cursor(token: &str) -> (r: Result<(u64, u64), CategoryError>)
    ensures
        match decoded_cursor(token@) {
            Some(k) => r == Ok::<(u64, u64), CategoryError>(k),
            None => r == Err::<(u64, u64), CategoryError>(CategoryError::InvalidCursor),
        },
{
    let len = token.unicode_len();
    let mut ci: usize = 0;
    let mut found = false;
    while ci < len && !found
        invariant
            0 <= ci <= len == token@.len(),
            !found ==> forall|j: int| 0 <= j < ci ==> #[trigger] token@[j] != ':',
            found ==> ci < len && token@[ci as int] == ':' && forall|j: int|
                0 <= j < ci ==> #[trigger] token@[j] != ':',
        decreases len - ci, (if found { 0int } else { 1int }),
    {
        if token.get_char(ci) == ':' {
            found = true;
        } else {
            ci = ci + 1;
        }
    }
    if !found {
        proof {
            lemma_find_colon_none(token@);
        }
        return Err(CategoryError::InvalidCursor);
    }
    proof {
        lemma_find_colon_first(token@, ci as int);
    }
    let id_part = parse_dec(token, 0, ci);
    let ts_part = parse_dec(token, ci + 1, len);
    match (id_part, ts_part) {
        (Some(id), Some(created_at)) => Ok((id, created_at)),
        _ => Err(CategoryError::InvalidCursor),
    }
}

} // verus!
