//! Line codec: one record to or from one delimited text line.
//!
//! Fields of a record are joined with the reserved separator [`SEP`] and the
//! line is terminated by a newline. Numeric fields are unsigned decimal.
//! Decoding splits a line (without its newline) on the separator, demands
//! exactly the expected field count, and parses the numeric fields; anything
//! else is a malformed record. The separator is not escaped: a text field
//! that contains it, or a newline, cannot round-trip — see the round-trip
//! laws in [`crate::persist`], which hold exactly for clean fields.

use vstd::prelude::*;
use vstd::string::StrSliceExecFns;
use vstd::string::StringExecFns;
use crate::structs::{User, Objective, UserV, ObjectiveV};
use crate::StoreError;

verus! {

/// The reserved field separator: a multi-byte character (in UTF-8) not
/// expected in normal text.
pub const SEP: char = '\u{b7}';

/// The decimal digit character for a value; values ten and above are not
/// produced (`u64_digits` only applies this to values below ten).
pub open spec fn digit_char(d: int) -> char {
    if d == 0 {
        '0'
    } else if d == 1 {
        '1'
    } else if d == 2 {
        '2'
    } else if d == 3 {
        '3'
    } else if d == 4 {
        '4'
    } else if d == 5 {
        '5'
    } else if d == 6 {
        '6'
    } else if d == 7 {
        '7'
    } else if d == 8 {
        '8'
    } else {
        '9'
    }
}

/// The value of a decimal digit character; ten for any other character.
pub open spec fn digit_val(c: char) -> int {
    if c == '0' {
        0
    } else if c == '1' {
        1
    } else if c == '2' {
        2
    } else if c == '3' {
        3
    } else if c == '4' {
        4
    } else if c == '5' {
        5
    } else if c == '6' {
        6
    } else if c == '7' {
        7
    } else if c == '8' {
        8
    } else if c == '9' {
        9
    } else {
        10
    }
}

pub open spec fn is_digit(c: char) -> bool {
    digit_val(c) < 10
}

/// The decimal digit string of a non-negative integer, most significant
/// digit first, never empty, no leading zero except for zero itself.
pub open spec fn u64_digits(n: int) -> Seq<char>
    decreases n,
{
    if n < 10 {
        seq![digit_char(n)]
    } else {
        u64_digits(n / 10).push(digit_char(n % 10))
    }
}

/// The integer a digit string denotes (most significant digit first).
pub open spec fn digits_val(s: Seq<char>) -> int
    decreases s.len(),
{
    if s.len() == 0 {
        0
    } else {
        digits_val(s.drop_last()) * 10 + digit_val(s.last())
    }
}

pub open spec fn all_digits(s: Seq<char>) -> bool {
    forall|i: int| 0 <= i < s.len() ==> is_digit(#[trigger] s[i])
}

/// What parsing a numeric field yields: the denoted value for a non-empty
/// all-digit string whose value fits in a machine word, nothing otherwise.
pub open spec fn parse_u64_spec(s: Seq<char>) -> Option<u64> {
    if s.len() > 0 && all_digits(s) && digits_val(s) <= u64::MAX as int {
        Some(digits_val(s) as u64)
    } else {
        None
    }
}

pub proof fn lemma_digits_val_nonneg(s: Seq<char>)
    ensures
        digits_val(s) >= 0,
    decreases s.len(),
{
    if s.len() > 0 {
        lemma_digits_val_nonneg(s.drop_last());
    }
}

/// The value of a prefix never exceeds the value of a longer prefix.
pub proof fn lemma_digits_val_mono(s: Seq<char>, k: int, j: int)
    requires
        0 <= k <= j <= s.len(),
    ensures
        digits_val(s.take(k)) <= digits_val(s.take(j)),
    decreases j - k,
{
    if k < j {
        lemma_digits_val_mono(s, k, j - 1);
        let p = s.take(j);
        assert(p.drop_last() =~= s.take(j - 1));
        lemma_digits_val_nonneg(s.take(j - 1));
    }
}

/// A digit string is all digits, non-empty, and free of the separator and
/// of newlines.
pub proof fn lemma_u64_digits_shape(n: int)
    ensures
        u64_digits(n).len() >= 1,
        all_digits(u64_digits(n)),
        !u64_digits(n).contains(SEP),
        !u64_digits(n).contains('\n'),
    decreases n,
{
    if n < 10 {
        assert(u64_digits(n) =~= seq![digit_char(n)]);
        assert(forall|i: int| 0 <= i < u64_digits(n).len() ==> is_digit(#[trigger] u64_digits(n)[i]));
        assert(!u64_digits(n).contains(SEP)) by {
            assert(forall|i: int|
                0 <= i < u64_digits(n).len() ==> #[trigger] u64_digits(n)[i] != SEP);
        }
        assert(!u64_digits(n).contains('\n')) by {
            assert(forall|i: int|
                0 <= i < u64_digits(n).len() ==> #[trigger] u64_digits(n)[i] != '\n');
        }
    } else {
        lemma_u64_digits_shape(n / 10);
        let prev = u64_digits(n / 10);
        let whole = u64_digits(n);
        assert(whole =~= prev.push(digit_char(n % 10)));
        assert(all_digits(whole)) by {
            assert(forall|i: int| 0 <= i < prev.len() ==> #[trigger] whole[i] == prev[i]);
        }
        assert(!whole.contains(SEP)) by {
            assert(forall|i: int| 0 <= i < whole.len() ==> #[trigger] whole[i] != SEP);
        }
        assert(!whole.contains('\n')) by {
            assert(forall|i: int| 0 <= i < whole.len() ==> #[trigger] whole[i] != '\n');
        }
    }
}

/// Printing a value and parsing the digits back returns the value.
pub proof fn lemma_parse_of_digits(n: int)
    requires
        0 <= n <= u64::MAX as int,
    ensures
        parse_u64_spec(u64_digits(n)) == Some(n as u64),
{
    lemma_u64_digits_shape(n);
    lemma_digits_val_of_digits(n);
}

pub proof fn lemma_digits_val_of_digits(n: int)
    requires
        0 <= n,
    ensures
        digits_val(u64_digits(n)) == n,
    decreases n,
{
    if n < 10 {
        let s = u64_digits(n);
        assert(s =~= seq![digit_char(n)]);
        assert(s.drop_last() =~= Seq::<char>::empty());
        assert(digits_val(Seq::<char>::empty()) == 0);
        assert(s.last() == digit_char(n));
        assert(digit_val(digit_char(n)) == n);
        assert(digits_val(s) == digits_val(s.drop_last()) * 10 + digit_val(s.last()));
    } else {
        lemma_digits_val_of_digits(n / 10);
        let prev = u64_digits(n / 10);
        let whole = u64_digits(n);
        assert(whole == prev.push(digit_char(n % 10)));
        assert(whole.drop_last() =~= prev);
        assert(whole.last() == digit_char(n % 10));
        assert(digit_val(digit_char(n % 10)) == n % 10);
        assert(digits_val(whole) == digits_val(prev) * 10 + n % 10);
        assert((n / 10) * 10 + n % 10 == n) by {
            vstd::arithmetic::div_mod::lemma_fundamental_div_mod(n, 10);
        }
    }
}

/// The one-character string of a decimal digit.
fn digit_str(d: u64) -> (s: &'static str)
    requires
        d < 10,
    ensures
        s@ == seq![digit_char(d as int)],
{
    if d == 0 {
        proof {
            reveal_strlit("0");
            assert("0"@ =~= seq![digit_char(0)]);
        }
        "0"
    } else if d == 1 {
        proof {
            reveal_strlit("1");
            assert("1"@ =~= seq![digit_char(1)]);
        }
        "1"
    } else if d == 2 {
        proof {
            reveal_strlit("2");
            assert("2"@ =~= seq![digit_char(2)]);
        }
        "2"
    } else if d == 3 {
        proof {
            reveal_strlit("3");
            assert("3"@ =~= seq![digit_char(3)]);
        }
        "3"
    } else if d == 4 {
        proof {
            reveal_strlit("4");
            assert("4"@ =~= seq![digit_char(4)]);
        }
        "4"
    } else if d == 5 {
        proof {
            reveal_strlit("5");
            assert("5"@ =~= seq![digit_char(5)]);
        }
        "5"
    } else if d == 6 {
        proof {
            reveal_strlit("6");
            assert("6"@ =~= seq![digit_char(6)]);
        }
        "6"
    } else if d == 7 {
        proof {
            reveal_strlit("7");
            assert("7"@ =~= seq![digit_char(7)]);
        }
        "7"
    } else if d == 8 {
        proof {
            reveal_strlit("8");
            assert("8"@ =~= seq![digit_char(8)]);
        }
        "8"
    } else {
        proof {
            reveal_strlit("9");
            assert("9"@ =~= seq![digit_char(9)]);
        }
        "9"
    }
}

/// Renders a value as its decimal digit string.
pub fn u64_to_string(n: u64) -> (s: String)
    ensures
        s@ == u64_digits(n as int),
{
    let mut acc = String::new();
    let mut m: u64 = n;
    proof {
        assert(u64_digits(n as int) =~= u64_digits(m as int) + acc@);
    }
    loop
        invariant_except_break
            u64_digits(n as int) == u64_digits(m as int) + acc@,
        ensures
            acc@ == u64_digits(n as int),
        decreases m,
    {
        let d: u64 = m % 10;
        let piece = digit_str(d);
        let ghost old_acc = acc@;
        acc = String::from_str(piece).concat(acc.as_str());
        if m < 10 {
            proof {
                assert(u64_digits(m as int) =~= seq![digit_char(m as int)]);
                assert(acc@ =~= u64_digits(m as int) + old_acc);
            }
            break ;
        }
        proof {
            assert(u64_digits(m as int) == u64_digits(m as int / 10).push(digit_char(m as int % 10)));
            assert(acc@ =~= seq![digit_char(d as int)] + old_acc);
            assert(u64_digits(m as int) + old_acc =~= u64_digits((m / 10) as int) + acc@);
        }
        m = m / 10;
    }
    acc
}

/// The value a digit character denotes; ten for any other character.
fn char_digit(c: char) -> (v: u64)
    ensures
        v as int == digit_val(c),
{
    if c == '0' {
        0
    } else if c == '1' {
        1
    } else if c == '2' {
        2
    } else if c == '3' {
        3
    } else if c == '4' {
        4
    } else if c == '5' {
        5
    } else if c == '6' {
        6
    } else if c == '7' {
        7
    } else if c == '8' {
        8
    } else if c == '9' {
        9
    } else {
        10
    }
}

/// Parses a decimal numeric field: the denoted value for a non-empty
/// all-digit string that fits in a machine word, `None` otherwise.
pub fn parse_u64(s: &str) -> (r: Option<u64>)
    ensures
        r == parse_u64_spec(s@),
{
    let n = s.unicode_len();
    if n == 0 {
        return None;
    }
    let mut acc: u64 = 0;
    let mut i: usize = 0;
    proof {
        assert(s@.take(0) =~= Seq::<char>::empty());
    }
    while i < n
        invariant
            0 <= i <= n == s@.len(),
            all_digits(s@.take(i as int)),
            acc as int == digits_val(s@.take(i as int)),
        decreases n - i,
    {
        let c = s.get_char(i);
        let v = char_digit(c);
        if v >= 10 {
            assert(!all_digits(s@));
            return None;
        }
        proof {
            assert(s@.take(i + 1).drop_last() =~= s@.take(i as int));
            assert(s@.take(i + 1).last() == s@[i as int]);
            assert(digits_val(s@.take(i + 1)) == acc as int * 10 + v as int);
        }
        let shifted = match acc.checked_mul(10) {
            Some(t) => t,
            None => {
                proof {
                    lemma_digits_val_nonneg(s@.take(i as int));
                    overflow_tail(s@, i as int, acc as int * 10 + v as int);
                }
                return None;
            },
        };
        let next = match shifted.checked_add(v) {
            Some(t) => t,
            None => {
                proof {
                    overflow_tail(s@, i as int, acc as int * 10 + v as int);
                }
                return None;
            },
        };
        proof {
            assert(s@.take(i + 1).drop_last() =~= s@.take(i as int));
            assert(s@.take(i + 1).last() == s@[i as int]);
            assert(forall|k: int|
                0 <= k < i + 1 ==> is_digit(#[trigger] s@.take(i + 1)[k]));
        }
        acc = next;
        i = i + 1;
    }
    proof {
        assert(s@.take(n as int) =~= s@);
    }
    Some(acc)
}

/// The segments of a character sequence between occurrences of a separator:
/// always one more segment than separators, so never empty, and no segment
/// contains the separator.
pub open spec fn split_on(s: Seq<char>, sep: char) -> Seq<Seq<char>>
    decreases s.len(),
{
    if s.len() == 0 {
        seq![Seq::<char>::empty()]
    } else if s[0] == sep {
        seq![Seq::<char>::empty()] + split_on(s.drop_first(), sep)
    } else {
        let rest = split_on(s.drop_first(), sep);
        seq![seq![s[0]] + rest[0]] + rest.drop_first()
    }
}

pub proof fn lemma_split_len(s: Seq<char>, sep: char)
    ensures
        split_on(s, sep).len() >= 1,
    decreases s.len(),
{
    if s.len() > 0 {
        lemma_split_len(s.drop_first(), sep);
    }
}

/// A sequence free of the separator splits into itself alone.
pub proof fn lemma_split_no_sep(s: Seq<char>, sep: char)
    requires
        !s.contains(sep),
    ensures
        split_on(s, sep) == seq![s],
    decreases s.len(),
{
    if s.len() == 0 {
        assert(split_on(s, sep) =~~= seq![s]);
    } else {
        assert(s[0] != sep);
        let tail = s.drop_first();
        assert(!tail.contains(sep)) by {
            assert(forall|i: int| 0 <= i < tail.len() ==> #[trigger] tail[i] == s[i + 1]);
        }
        lemma_split_no_sep(tail, sep);
        assert(seq![s[0]] + tail =~= s);
        assert(split_on(s, sep) =~~= seq![s]);
    }
}

/// Splitting distributes over a separator: the segments of `a ++ sep ++ b`
/// are the segments of `a` followed by the segments of `b`.
pub proof fn lemma_split_concat(a: Seq<char>, b: Seq<char>, sep: char)
    ensures
        split_on(a + seq![sep] + b, sep) == split_on(a, sep) + split_on(b, sep),
    decreases a.len(),
{
    let s = a + seq![sep] + b;
    if a.len() == 0 {
        assert(s[0] == sep);
        assert(s.drop_first() =~= b);
        assert(split_on(s, sep) =~~= split_on(a, sep) + split_on(b, sep));
    } else {
        assert(s[0] == a[0]);
        assert(s.drop_first() =~= a.drop_first() + seq![sep] + b);
        lemma_split_concat(a.drop_first(), b, sep);
        let rest = split_on(s.drop_first(), sep);
        let ra = split_on(a.drop_first(), sep);
        lemma_split_len(a.drop_first(), sep);
        lemma_split_len(b, sep);
        if a[0] == sep {
            assert(split_on(s, sep) =~~= split_on(a, sep) + split_on(b, sep));
        } else {
            assert(rest[0] == ra[0]);
            assert(rest.drop_first() =~~= ra.drop_first() + split_on(b, sep));
            assert(split_on(s, sep) =~~= split_on(a, sep) + split_on(b, sep));
        }
    }
}

/// Splits a string into the segments between occurrences of a separator.
pub fn split_chars(s: &str, sep: char) -> (parts: Vec<String>)
    ensures
        parts@.map_values(|p: String| p@) == split_on(s@, sep),
        parts@.len() >= 1,
{
    let n = s.unicode_len();
    let mut parts: Vec<String> = Vec::new();
    let mut start: usize = 0;
    let mut i: usize = 0;
    proof {
        assert(s@.subrange(0, n as int) =~= s@);
        assert(parts@.map_values(|p: String| p@) =~= Seq::<Seq<char>>::empty());
    }
    while i < n
        invariant
            0 <= start <= i <= n == s@.len(),
            split_on(s@, sep) == parts@.map_values(|p: String| p@) + split_on(
                s@.subrange(start as int, n as int),
                sep,
            ),
            forall|k: int| start <= k < i ==> s@[k] != sep,
        decreases n - i,
    {
        if s.get_char(i) == sep {
            let piece = s.substring_char(start, i);
            let ghost seg = s@.subrange(start as int, i as int);
            proof {
                assert(!seg.contains(sep)) by {
                    assert(forall|k: int| 0 <= k < seg.len() ==> #[trigger] seg[k] == s@[
                        start + k]);
                }
                lemma_split_no_sep(seg, sep);
                assert(s@.subrange(start as int, n as int) =~= seg + seq![sep] + s@.subrange(
                    i + 1,
                    n as int,
                ));
                lemma_split_concat(seg, s@.subrange(i + 1, n as int), sep);
            }
            let ghost old_parts = parts@;
            parts.push(String::from_str(piece));
            proof {
                assert(parts@.map_values(|p: String| p@) =~= old_parts.map_values(|p: String| p@)
                    + seq![seg]);
                assert(split_on(s@, sep) =~= parts@.map_values(|p: String| p@) + split_on(
                    s@.subrange(i + 1, n as int),
                    sep,
                ));
            }
            start = i + 1;
        }
        i = i + 1;
    }
    let piece = s.substring_char(start, n);
    let ghost seg = s@.subrange(start as int, n as int);
    proof {
        assert(!seg.contains(sep)) by {
            assert(forall|k: int| 0 <= k < seg.len() ==> #[trigger] seg[k] == s@[start + k]);
        }
        lemma_split_no_sep(seg, sep);
    }
    let ghost old_parts = parts@;
    parts.push(String::from_str(piece));
    proof {
        assert(parts@.map_values(|p: String| p@) =~= old_parts.map_values(|p: String| p@)
            + seq![seg]);
        assert(parts@.map_values(|p: String| p@) =~= split_on(s@, sep));
    }
    parts
}

/// A text field that can round-trip: it contains neither the separator nor
/// a newline.
pub open spec fn clean(s: Seq<char>) -> bool {
    !s.contains(SEP) && !s.contains('\n')
}

/// The line body of a user record: id, name, balance, separator-joined.
pub open spec fn user_body(u: UserV) -> Seq<char> {
    u64_digits(u.id as int) + seq![SEP] + u.name + seq![SEP] + u64_digits(u.money as int)
}

/// The full encoded line of a user record, newline-terminated.
pub open spec fn encode_user_spec(u: UserV) -> Seq<char> {
    user_body(u) + seq!['\n']
}

/// The line body of an objective record: id, owner, name, description,
/// cost, separator-joined.
pub open spec fn objective_body(o: ObjectiveV) -> Seq<char> {
    u64_digits(o.id as int) + seq![SEP] + u64_digits(o.user_id as int) + seq![SEP] + o.name
        + seq![SEP] + o.desc + seq![SEP] + u64_digits(o.cost as int)
}

/// The full encoded line of an objective record, newline-terminated.
pub open spec fn encode_objective_spec(o: ObjectiveV) -> Seq<char> {
    objective_body(o) + seq!['\n']
}

/// What decoding one line (without its newline) yields for a user record:
/// exactly three separator-joined fields with numeric id and balance, or
/// nothing.
pub open spec fn decode_user_spec(line: Seq<char>) -> Option<UserV> {
    let parts = split_on(line, SEP);
    if parts.len() == 3 {
        match (parse_u64_spec(parts[0]), parse_u64_spec(parts[2])) {
            (Some(id), Some(money)) => Some(UserV { id, name: parts[1], money }),
            _ => None,
        }
    } else {
        None
    }
}

/// What decoding one line yields for an objective record: exactly five
/// separator-joined fields with numeric id, owner and cost, or nothing.
pub open spec fn decode_objective_spec(line: Seq<char>) -> Option<ObjectiveV> {
    let parts = split_on(line, SEP);
    if parts.len() == 5 {
        match (parse_u64_spec(parts[0]), parse_u64_spec(parts[1]), parse_u64_spec(parts[4])) {
            (Some(id), Some(user_id), Some(cost)) => Some(
                ObjectiveV { id, user_id, name: parts[2], desc: parts[3], cost },
            ),
            _ => None,
        }
    } else {
        None
    }
}

/// The one-character string of the separator.
fn sep_str() -> (s: &'static str)
    ensures
        s@ == seq![SEP],
{
    proof {
        reveal_strlit("\u{b7}");
        assert("\u{b7}"@ =~= seq![SEP]);
    }
    "\u{b7}"
}

/// The one-character string of the line terminator.
fn newline_str() -> (s: &'static str)
    ensures
        s@ == seq!['\n'],
{
    proof {
        reveal_strlit("\n");
        assert("\n"@ =~= seq!['\n']);
    }
    "\n"
}

/// Encodes a user record as one newline-terminated line.
pub fn encode_user(u: &User) -> (line: String)
    ensures
        line@ == encode_user_spec(u@),
{
    let mut s = u64_to_string(u.id);
    s.append(sep_str());
    s.append(u.name.as_str());
    s.append(sep_str());
    let m = u64_to_string(u.money);
    s.append(m.as_str());
    s.append(newline_str());
    proof {
        assert(s@ =~= encode_user_spec(u@));
    }
    s
}

/// Encodes an objective record as one newline-terminated line.
pub fn encode_objective(o: &Objective) -> (line: String)
    ensures
        line@ == encode_objective_spec(o@),
{
    let mut s = u64_to_string(o.id);
    s.append(sep_str());
    let uid = u64_to_string(o.user_id);
    s.append(uid.as_str());
    s.append(sep_str());
    s.append(o.name.as_str());
    s.append(sep_str());
    s.append(o.desc.as_str());
    s.append(sep_str());
    let c = u64_to_string(o.cost);
    s.append(c.as_str());
    s.append(newline_str());
    proof {
        assert(s@ =~= encode_objective_spec(o@));
    }
    s
}

/// Decodes one line (without its newline) as a user record.
pub fn decode_user(line: &str) -> (r: Result<User, StoreError>)
    ensures
        match r {
            Ok(u) => decode_user_spec(line@) == Some(u@),
            Err(e) => e == StoreError::MalformedRecord && decode_user_spec(line@) is None,
        },
{
    let parts = split_chars(line, SEP);
    if parts.len() != 3 {
        return Err(StoreError::MalformedRecord);
    }
    let id = match parse_u64(parts[0].as_str()) {
        Some(v) => v,
        None => {
            return Err(StoreError::MalformedRecord);
        },
    };
    let money = match parse_u64(parts[2].as_str()) {
        Some(v) => v,
        None => {
            return Err(StoreError::MalformedRecord);
        },
    };
    let name = parts[1].clone();
    Ok(User { id, name, money })
}

/// Decodes one line (without its newline) as an objective record.
pub fn decode_objective(line: &str) -> (r: Result<Objective, StoreError>)
    ensures
        match r {
            Ok(o) => decode_objective_spec(line@) == Some(o@),
            Err(e) => e == StoreError::MalformedRecord && decode_objective_spec(line@) is None,
        },
{
    let parts = split_chars(line, SEP);
    if parts.len() != 5 {
        return Err(StoreError::MalformedRecord);
    }
    let id = match parse_u64(parts[0].as_str()) {
        Some(v) => v,
        None => {
            return Err(StoreError::MalformedRecord);
        },
    };
    let user_id = match parse_u64(parts[1].as_str()) {
        Some(v) => v,
        None => {
            return Err(StoreError::MalformedRecord);
        },
    };
    let cost = match parse_u64(parts[4].as_str()) {
        Some(v) => v,
        None => {
            return Err(StoreError::MalformedRecord);
        },
    };
    let name = parts[2].clone();
    let desc = parts[3].clone();
    Ok(Objective { id, user_id, name, desc, cost })
}

/// A user line body splits back into its three fields when the name is
/// clean, and contains no newline.
pub proof fn lemma_user_body_round_trip(u: UserV)
    requires
        clean(u.name),
    ensures
        decode_user_spec(user_body(u)) == Some(u),
        !user_body(u).contains('\n'),
{
    let a = u64_digits(u.id as int);
    let m = u64_digits(u.money as int);
    lemma_u64_digits_shape(u.id as int);
    lemma_u64_digits_shape(u.money as int);
    let rest = u.name + seq![SEP] + m;
    assert(user_body(u) =~= a + seq![SEP] + rest);
    lemma_split_concat(a, rest, SEP);
    lemma_split_concat(u.name, m, SEP);
    lemma_split_no_sep(a, SEP);
    lemma_split_no_sep(u.name, SEP);
    lemma_split_no_sep(m, SEP);
    let parts = split_on(user_body(u), SEP);
    assert(parts =~~= seq![a, u.name, m]);
    lemma_parse_of_digits(u.id as int);
    lemma_parse_of_digits(u.money as int);
    assert(!user_body(u).contains('\n')) by {
        assert(forall|i: int| 0 <= i < a.len() ==> #[trigger] user_body(u)[i] != '\n');
        assert(forall|i: int|
            0 <= i < u.name.len() ==> #[trigger] user_body(u)[a.len() + 1 + i] == u.name[i]);
        assert(forall|i: int|
            0 <= i < m.len() ==> #[trigger] user_body(u)[a.len() + 1 + u.name.len() + 1 + i]
                == m[i]);
        assert(forall|i: int|
            0 <= i < user_body(u).len() ==> #[trigger] user_body(u)[i] != '\n') by {
            assert forall|i: int| 0 <= i < user_body(u).len() implies #[trigger] user_body(u)[i]
                != '\n' by {
                if a.len() + 1 <= i < a.len() + 1 + u.name.len() {
                    assert(user_body(u)[i] == u.name[i - (a.len() + 1)]);
                    assert(!u.name.contains('\n'));
                    assert(u.name[i - (a.len() + 1)] != '\n');
                } else if a.len() + 1 + u.name.len() + 1 <= i {
                    assert(user_body(u)[i] == m[i - (a.len() + 1 + u.name.len() + 1)]);
                    assert(!m.contains('\n'));
                }
            }
        }
    }
}

/// An objective line body splits back into its five fields when the name
/// and description are clean, and contains no newline.
pub proof fn lemma_objective_body_round_trip(o: ObjectiveV)
    requires
        clean(o.name),
        clean(o.desc),
    ensures
        decode_objective_spec(objective_body(o)) == Some(o),
        !objective_body(o).contains('\n'),
{
    let a = u64_digits(o.id as int);
    let b = u64_digits(o.user_id as int);
    let c = u64_digits(o.cost as int);
    lemma_u64_digits_shape(o.id as int);
    lemma_u64_digits_shape(o.user_id as int);
    lemma_u64_digits_shape(o.cost as int);
    let r3 = o.desc + seq![SEP] + c;
    let r2 = o.name + seq![SEP] + r3;
    let r1 = b + seq![SEP] + r2;
    assert(objective_body(o) =~= a + seq![SEP] + r1);
    lemma_split_concat(a, r1, SEP);
    lemma_split_concat(b, r2, SEP);
    lemma_split_concat(o.name, r3, SEP);
    lemma_split_concat(o.desc, c, SEP);
    lemma_split_no_sep(a, SEP);
    lemma_split_no_sep(b, SEP);
    lemma_split_no_sep(o.name, SEP);
    lemma_split_no_sep(o.desc, SEP);
    lemma_split_no_sep(c, SEP);
    let parts = split_on(objective_body(o), SEP);
    assert(parts =~~= seq![a, b, o.name, o.desc, c]);
    lemma_parse_of_digits(o.id as int);
    lemma_parse_of_digits(o.user_id as int);
    lemma_parse_of_digits(o.cost as int);
    let body = objective_body(o);
    assert(!body.contains('\n')) by {
        let p0 = a.len() as int;
        let p1 = p0 + 1 + b.len();
        let p2 = p1 + 1 + o.name.len();
        let p3 = p2 + 1 + o.desc.len();
        assert forall|i: int| 0 <= i < body.len() implies #[trigger] body[i] != '\n' by {
            if i < p0 {
                assert(body[i] == a[i]);
                assert(!a.contains('\n'));
            } else if p0 + 1 <= i < p1 {
                assert(body[i] == b[i - (p0 + 1)]);
                assert(!b.contains('\n'));
            } else if p1 + 1 <= i < p2 {
                assert(body[i] == o.name[i - (p1 + 1)]);
                assert(!o.name.contains('\n'));
            } else if p2 + 1 <= i < p3 {
                assert(body[i] == o.desc[i - (p2 + 1)]);
                assert(!o.desc.contains('\n'));
            } else if p3 + 1 <= i {
                assert(body[i] == c[i - (p3 + 1)]);
                assert(!c.contains('\n'));
            }
        }
    }
}

/// An empty line decodes as neither record kind.
pub proof fn lemma_empty_line_malformed()
    ensures
        decode_user_spec(Seq::<char>::empty()) is None,
        decode_objective_spec(Seq::<char>::empty()) is None,
{
    assert(split_on(Seq::<char>::empty(), SEP).len() == 1);
}

/// When the running value has outgrown a machine word at position `i`, the
/// whole string parses to nothing.
proof fn overflow_tail(s: Seq<char>, i: int, next_val: int)
    requires
        0 <= i < s.len(),
        all_digits(s.take(i)),
        is_digit(s[i]),
        digits_val(s.take(i + 1)) == next_val,
        next_val > u64::MAX as int,
    ensures
        parse_u64_spec(s) is None,
{
    lemma_digits_val_mono(s, i + 1, s.len() as int);
    assert(s.take(s.len() as int) =~= s);
}

} // verus!
