//! The on-disk form of a run's record: a JSON object, written and read by
//! this module. The decoder accepts exactly the canonical form the encoder
//! writes, and reading a written record yields the record back.

use vstd::prelude::*;
use crate::num::dec_digits;
use crate::num::dec_value;
use crate::num::digit_char_of;
use crate::num::digit_val_of;
use crate::num::is_digit;
use crate::num::lemma_dec_round_trip;
use crate::num::lemma_dec_digits_are_digits;
use crate::num::lemma_dec_value_nonneg;
use crate::num::append_u64;
use crate::text::push_char;

verus! {

// ---------------------------------------------------------------------------
// Strings: JSON string literals with the usual escapes.
// ---------------------------------------------------------------------------

/// How one character appears inside a JSON string literal: quote, backslash
/// and the common control characters are escaped, everything else stands for
/// itself.
pub open spec fn esc_char(c: char) -> Seq<char> {
    if c == '"' {
        seq!['\\', '"']
    } else if c == '\\' {
        seq!['\\', '\\']
    } else if c == '\n' {
        seq!['\\', 'n']
    } else if c == '\r' {
        seq!['\\', 'r']
    } else if c == '\t' {
        seq!['\\', 't']
    } else {
        seq![c]
    }
}

/// The body of a JSON string literal for `s`.
pub open spec fn esc_chars(s: Seq<char>) -> Seq<char>
    decreases s.len(),
{
    if s.len() == 0 {
        Seq::empty()
    } else {
        esc_char(s[0]) + esc_chars(s.drop_first())
    }
}

/// The JSON string literal for `s`, quotes included.
pub open spec fn enc_string(s: Seq<char>) -> Seq<char> {
    seq!['"'] + esc_chars(s) + seq!['"']
}

pub proof fn lemma_esc_append(a: Seq<char>, b: Seq<char>)
    ensures
        esc_chars(a + b) == esc_chars(a) + esc_chars(b),
    decreases a.len(),
{
    if a.len() == 0 {
        assert(a + b =~= b);
        assert(esc_chars(a) + esc_chars(b) =~= esc_chars(b));
    } else {
        lemma_esc_append(a.drop_first(), b);
        assert((a + b).drop_first() =~= a.drop_first() + b);
        assert((a + b)[0] == a[0]);
        assert(esc_char(a[0]) + (esc_chars(a.drop_first()) + esc_chars(b)) =~= (esc_char(a[0])
            + esc_chars(a.drop_first())) + esc_chars(b));
    }
}

/// The character an escape code stands for.
pub open spec fn unesc_char(c: char) -> Option<char> {
    if c == '"' {
        Some('"')
    } else if c == '\\' {
        Some('\\')
    } else if c == 'n' {
        Some('\n')
    } else if c == 'r' {
        Some('\r')
    } else if c == 't' {
        Some('\t')
    } else {
        None
    }
}

/// Reads a string-literal body up to and including the closing quote,
/// yielding the denoted characters and the rest of the input.
pub open spec fn sp_str_body(s: Seq<char>) -> Option<(Seq<char>, Seq<char>)>
    decreases s.len(),
{
    if s.len() == 0 {
        None
    } else if s[0] == '"' {
        Some((Seq::empty(), s.drop_first()))
    } else if s[0] == '\\' {
        if s.len() < 2 {
            None
        } else {
            match unesc_char(s[1]) {
                None => None,
                Some(c) => match sp_str_body(s.skip(2)) {
                    None => None,
                    Some((t, r)) => Some((seq![c] + t, r)),
                },
            }
        }
    } else {
        match sp_str_body(s.drop_first()) {
            None => None,
            Some((t, r)) => Some((seq![s[0]] + t, r)),
        }
    }
}

/// Reads a JSON string literal, quotes included.
pub open spec fn sp_string(s: Seq<char>) -> Option<(Seq<char>, Seq<char>)> {
    if s.len() > 0 && s[0] == '"' {
        sp_str_body(s.drop_first())
    } else {
        None
    }
}

/// Reading an escaped string body back yields the original characters.
pub proof fn lemma_str_body_round_trip(v: Seq<char>, rest: Seq<char>)
    ensures
        sp_str_body(esc_chars(v) + seq!['"'] + rest) == Some((v, rest)),
    decreases v.len(),
{
    let s = esc_chars(v) + seq!['"'] + rest;
    if v.len() == 0 {
        assert(s =~= seq!['"'] + rest);
        assert(s[0] == '"');
        assert(s.drop_first() =~= rest);
    } else {
        lemma_str_body_round_trip(v.drop_first(), rest);
        let inner = esc_chars(v.drop_first()) + seq!['"'] + rest;
        let e = esc_char(v[0]);
        assert(s =~= e + inner);
        if v[0] == '"' || v[0] == '\\' || v[0] == '\n' || v[0] == '\r' || v[0] == '\t' {
            assert(e.len() == 2);
            assert(s[0] == '\\');
            assert(s[1] == e[1]);
            assert(unesc_char(e[1]) == Some(v[0]));
            assert(s.skip(2) =~= inner);
            assert(seq![v[0]] + v.drop_first() =~= v);
        } else {
            assert(e =~= seq![v[0]]);
            assert(s[0] == v[0]);
            assert(s[0] != '"' && s[0] != '\\');
            assert(s.drop_first() =~= inner);
            assert(seq![v[0]] + v.drop_first() =~= v);
        }
    }
}

/// Reading a written string literal back yields the original characters.
pub proof fn lemma_string_round_trip(v: Seq<char>, rest: Seq<char>)
    ensures
        sp_string(enc_string(v) + rest) == Some((v, rest)),
{
    let s = enc_string(v) + rest;
    assert(s[0] == '"');
    assert(s.drop_first() =~= esc_chars(v) + seq!['"'] + rest);
    lemma_str_body_round_trip(v, rest);
}

/// Appends the JSON string literal for `s`.
fn append_json_string(out: &mut String, s: &str)
    ensures
        final(out)@ == old(out)@ + enc_string(s@),
{
    push_char(out, '"');
    let ghost base = out@;
    let n = s.unicode_len();
    let mut i: usize = 0;
    proof {
        assert(esc_chars(s@.take(0)) =~= Seq::<char>::empty());
        assert(out@ =~= base + esc_chars(s@.take(0)));
    }
    while i < n
        invariant
            0 <= i <= n,
            n == s@.len(),
            out@ == base + esc_chars(s@.take(i as int)),
        decreases n - i,
    {
        let ghost prev = out@;
        let c = s.get_char(i);
        if c == '"' {
            push_char(out, '\\');
            push_char(out, '"');
        } else if c == '\\' {
            push_char(out, '\\');
            push_char(out, '\\');
        } else if c == '\n' {
            push_char(out, '\\');
            push_char(out, 'n');
        } else if c == '\r' {
            push_char(out, '\\');
            push_char(out, 'r');
        } else if c == '\t' {
            push_char(out, '\\');
            push_char(out, 't');
        } else {
            push_char(out, c);
        }
        proof {
            assert(out@ =~= prev + esc_char(s@[i as int]));
            assert(s@.take(i + 1) =~= s@.take(i as int) + seq![s@[i as int]]);
            lemma_esc_append(s@.take(i as int), seq![s@[i as int]]);
            assert(seq![s@[i as int]].drop_first() =~= Seq::<char>::empty());
            assert(esc_chars(seq![s@[i as int]]) =~= esc_char(s@[i as int]) + esc_chars(
                Seq::<char>::empty(),
            ));
            assert(esc_chars(seq![s@[i as int]]) =~= esc_char(s@[i as int]));
            assert(out@ =~= base + esc_chars(s@.take(i + 1)));
        }
        i += 1;
    }
    push_char(out, '"');
    proof {
        assert(s@.take(n as int) =~= s@);
        assert(out@ =~= old(out)@ + enc_string(s@));
    }
}

/// Reads the string literal starting at `pos`, matching `sp_string` on the
/// remaining input.
#[verifier::loop_isolation(false)]
fn parse_json_string(s: &str, pos: usize) -> (r: Option<(String, usize)>)
    requires
        pos <= s@.len(),
    ensures
        match r {
            Some((v, p)) => {
                &&& pos <= p <= s@.len()
                &&& sp_string(s@.skip(pos as int)) == Some((v@, s@.skip(p as int)))
            },
            None => sp_string(s@.skip(pos as int)) is None,
        },
{
    let n = s.unicode_len();
    if pos >= n {
        proof {
            assert(s@.skip(pos as int).len() == 0);
        }
        return None;
    }
    if s.get_char(pos) != '"' {
        proof {
            assert(s@.skip(pos as int)[0] == s@[pos as int]);
        }
        return None;
    }
    let mut v = String::new();
    let mut i: usize = pos + 1;
    proof {
        assert(s@.skip(pos as int).drop_first() =~= s@.skip(pos + 1));
    }
    loop
        invariant
            pos + 1 <= i <= n,
            n == s@.len(),
            sp_str_body(s@.skip(pos + 1)) == match sp_str_body(s@.skip(i as int)) {
                None => None::<(Seq<char>, Seq<char>)>,
                Some((t, r)) => Some((v@ + t, r)),
            },
        decreases n - i,
    {
        if i >= n {
            return None;
        }
        let c = s.get_char(i);
        proof {
            assert(s@.skip(i as int)[0] == s@[i as int]);
        }
        if c == '"' {
            proof {
                assert(s@.skip(i as int).drop_first() =~= s@.skip(i + 1));
                assert(sp_str_body(s@.skip(i as int)) == Some(
                    (Seq::<char>::empty(), s@.skip(i + 1)),
                ));
                assert(v@ + Seq::<char>::empty() =~= v@);
            }
            return Some((v, i + 1));
        } else if c == '\\' {
            if i + 1 >= n {
                proof {
                    assert(s@.skip(i as int).len() < 2);
                }
                return None;
            }
            let e = s.get_char(i + 1);
            proof {
                assert(s@.skip(i as int)[1] == s@[i + 1]);
                assert(s@.skip(i as int).len() >= 2);
            }
            let u = if e == '"' {
                '"'
            } else if e == '\\' {
                '\\'
            } else if e == 'n' {
                '\n'
            } else if e == 'r' {
                '\r'
            } else if e == 't' {
                '\t'
            } else {
                proof {
                    assert(unesc_char(s@[i + 1]) is None);
                }
                return None;
            };
            proof {
                assert(unesc_char(s@[i + 1]) == Some(u));
            }
            let ghost vprev = v@;
            push_char(&mut v, u);
            proof {
                assert(s@.skip(i as int).skip(2) =~= s@.skip(i + 2));
                assert forall|t: Seq<char>| true implies vprev + (seq![u] + t) =~= v@ + t by {
                    assert(vprev + (seq![u] + t) =~= (vprev + seq![u]) + t);
                }
            }
            i += 2;
        } else {
            let ghost vprev = v@;
            push_char(&mut v, c);
            proof {
                assert(s@.skip(i as int).drop_first() =~= s@.skip(i + 1));
                assert forall|t: Seq<char>| true implies vprev + (seq![c] + t) =~= v@ + t by {
                    assert(vprev + (seq![c] + t) =~= (vprev + seq![c]) + t);
                }
            }
            i += 1;
        }
    }
}

// ---------------------------------------------------------------------------
// Numbers.
// ---------------------------------------------------------------------------

/// The length of the run of digits at the front of `s`.
pub open spec fn digit_prefix_len(s: Seq<char>) -> int
    decreases s.len(),
{
    if s.len() > 0 && is_digit(s[0]) {
        1 + digit_prefix_len(s.drop_first())
    } else {
        0
    }
}

pub proof fn lemma_digit_prefix_len_range(s: Seq<char>)
    ensures
        0 <= digit_prefix_len(s) <= s.len(),
        forall|k: int| 0 <= k < digit_prefix_len(s) ==> is_digit(#[trigger] s[k]),
        digit_prefix_len(s) < s.len() ==> !is_digit(s[digit_prefix_len(s)]),
    decreases s.len(),
{
    if s.len() > 0 && is_digit(s[0]) {
        lemma_digit_prefix_len_range(s.drop_first());
        assert forall|k: int| 1 <= k < digit_prefix_len(s) implies is_digit(#[trigger] s[k]) by {
            assert(is_digit(s.drop_first()[k - 1]));
        }
    }
}

/// Reads the leading digit run as a `u64`.
pub open spec fn sp_u64(s: Seq<char>) -> Option<(u64, Seq<char>)> {
    let k = digit_prefix_len(s);
    if k == 0 || dec_value(s.take(k)) > u64::MAX as int || dec_value(s.take(k)) < 0 {
        None
    } else {
        Some((dec_value(s.take(k)) as u64, s.skip(k)))
    }
}

/// A written number, followed by anything that does not begin with a digit,
/// reads back as itself.
pub proof fn lemma_u64_round_trip(n: u64, rest: Seq<char>)
    requires
        rest.len() == 0 || !is_digit(rest[0]),
    ensures
        sp_u64(dec_digits(n as int) + rest) == Some((n, rest)),
{
    let d = dec_digits(n as int);
    let s = d + rest;
    lemma_dec_digits_are_digits(n as int);
    lemma_digit_prefix_of(d, rest);
    assert(digit_prefix_len(s) == d.len());
    assert(s.take(d.len() as int) =~= d);
    assert(s.skip(d.len() as int) =~= rest);
    lemma_dec_round_trip(n as int);
}

/// The digit run of an all-digit sequence followed by a non-digit is
/// exactly that sequence.
proof fn lemma_digit_prefix_of(d: Seq<char>, rest: Seq<char>)
    requires
        forall|k: int| 0 <= k < d.len() ==> is_digit(#[trigger] d[k]),
        rest.len() == 0 || !is_digit(rest[0]),
    ensures
        digit_prefix_len(d + rest) == d.len(),
    decreases d.len(),
{
    let s = d + rest;
    if d.len() == 0 {
        assert(s =~= rest);
    } else {
        lemma_digit_prefix_of(d.drop_first(), rest);
        assert(s[0] == d[0]);
        assert(s.drop_first() =~= d.drop_first() + rest);
    }
}

/// Reads the `u64` starting at `pos`, matching `sp_u64`.
#[verifier::loop_isolation(false)]
fn parse_json_u64(s: &str, pos: usize) -> (r: Option<(u64, usize)>)
    requires
        pos <= s@.len(),
    ensures
        match r {
            Some((v, p)) => {
                &&& pos <= p <= s@.len()
                &&& sp_u64(s@.skip(pos as int)) == Some((v, s@.skip(p as int)))
            },
            None => sp_u64(s@.skip(pos as int)) is None,
        },
{
    let ghost tail = s@.skip(pos as int);
    let n = s.unicode_len();
    let mut i: usize = pos;
    let mut acc: u64 = 0;
    let mut over: bool = false;
    let mut stop: bool = false;
    proof {
        lemma_digit_prefix_len_range(tail);
        assert(tail.take(0) =~= Seq::<char>::empty());
    }
    while !stop && i < n
        invariant
            pos <= i <= n,
            n == s@.len(),
            tail == s@.skip(pos as int),
            !stop ==> i - pos <= digit_prefix_len(tail),
            stop ==> i - pos == digit_prefix_len(tail),
            forall|k: int| 0 <= k < i - pos ==> is_digit(#[trigger] tail[k]),
            !over ==> acc == dec_value(tail.take(i - pos)),
            over ==> dec_value(tail.take(i - pos)) > u64::MAX as int,
        decreases n - i, (if stop { 0int } else { 1int }),
    {
        let c = s.get_char(i);
        proof {
            assert(tail[i - pos] == s@[i as int]);
        }
        if '0' <= c && c <= '9' {
            proof {
                assert(tail.take(i - pos + 1).drop_last() =~= tail.take(i - pos));
                assert(tail.take(i - pos + 1).last() == tail[i - pos]);
                lemma_digit_prefix_len_range(tail);
                if digit_prefix_len(tail) == i - pos {
                    assert(digit_prefix_len(tail) < tail.len());
                    assert(!is_digit(tail[digit_prefix_len(tail)]));
                    assert(false);
                }
            }
            let d = digit_val_of(c);
            if !over {
                if acc <= (u64::MAX - d) / 10 {
                    acc = acc * 10 + d;
                } else {
                    over = true;
                }
            } else {
                proof {
                    lemma_dec_value_nonneg(tail.take(i - pos));
                    assert(dec_value(tail.take(i - pos + 1)) >= dec_value(tail.take(i - pos)));
                }
            }
            i += 1;
        } else {
            proof {
                lemma_digit_prefix_len_range(tail);
                assert(!is_digit(tail[i - pos]));
            }
            stop = true;
        }
    }
    proof {
        lemma_digit_prefix_len_range(tail);
        if !stop {
            assert(tail.len() == n - pos);
            assert(digit_prefix_len(tail) == i - pos);
        }
    }
    if i == pos {
        return None;
    }
    if over {
        return None;
    }
    proof {
        assert(s@.skip(i as int) =~= tail.skip(i - pos));
        lemma_dec_value_nonneg(tail.take(i - pos));
    }
    Some((acc, i))
}

// ---------------------------------------------------------------------------
// Literals.
// ---------------------------------------------------------------------------

/// Reads an expected literal.
pub open spec fn sp_lit(s: Seq<char>, lit: Seq<char>) -> Option<Seq<char>> {
    if lit.is_prefix_of(s) {
        Some(s.skip(lit.len() as int))
    } else {
        None
    }
}

pub proof fn lemma_lit_prefix(lit: Seq<char>, rest: Seq<char>)
    ensures
        lit.is_prefix_of(lit + rest),
        (lit + rest).skip(lit.len() as int) == rest,
        sp_lit(lit + rest, lit) == Some(rest),
{
    assert((lit + rest).subrange(0, lit.len() as int) =~= lit);
    assert((lit + rest).skip(lit.len() as int) =~= rest);
}

// ---------------------------------------------------------------------------
// Signed numbers (the record's timestamp).
// ---------------------------------------------------------------------------

/// The canonical decimal form of a signed number.
pub open spec fn enc_i64(d: i64) -> Seq<char> {
    if d >= 0 {
        dec_digits(d as int)
    } else {
        seq!['-'] + dec_digits(-(d as int))
    }
}

/// Reads a canonically written signed number.
pub open spec fn sp_i64(s: Seq<char>) -> Option<(i64, Seq<char>)> {
    if s.len() > 0 && s[0] == '-' {
        match sp_u64(s.drop_first()) {
            Some((m, r)) => if 0 < m && m <= 0x8000_0000_0000_0000u64 {
                Some(((-(m as int)) as i64, r))
            } else {
                None
            },
            None => None,
        }
    } else {
        match sp_u64(s) {
            Some((m, r)) => if m <= i64::MAX as u64 {
                Some((m as i64, r))
            } else {
                None
            },
            None => None,
        }
    }
}

pub proof fn lemma_i64_round_trip(d: i64, rest: Seq<char>)
    requires
        rest.len() == 0 || !is_digit(rest[0]),
    ensures
        sp_i64(enc_i64(d) + rest) == Some((d, rest)),
{
    if d >= 0 {
        lemma_u64_round_trip(d as u64, rest);
        let s = enc_i64(d) + rest;
        lemma_dec_digits_are_digits(d as int);
        assert(s[0] == dec_digits(d as int)[0]);
        assert(is_digit(s[0]));
        assert(s[0] != '-');
    } else {
        let m = -(d as int);
        assert(0 < m <= 0x8000_0000_0000_0000);
        lemma_u64_round_trip(m as u64, rest);
        let s = enc_i64(d) + rest;
        assert(s[0] == '-');
        assert(s.drop_first() =~= dec_digits(m) + rest);
    }
}

/// The timestamp field: absent while the run is still executing.
pub open spec fn enc_opt_i64(o: Option<i64>) -> Seq<char> {
    match o {
        None => "null"@,
        Some(d) => enc_i64(d),
    }
}

pub open spec fn sp_opt_i64(s: Seq<char>) -> Option<(Option<i64>, Seq<char>)> {
    if "null"@.is_prefix_of(s) {
        Some((None, s.skip("null"@.len() as int)))
    } else {
        match sp_i64(s) {
            Some((d, r)) => Some((Some(d), r)),
            None => None,
        }
    }
}

pub proof fn lemma_opt_i64_round_trip(o: Option<i64>, rest: Seq<char>)
    requires
        rest.len() == 0 || !is_digit(rest[0]),
    ensures
        sp_opt_i64(enc_opt_i64(o) + rest) == Some((o, rest)),
{
    reveal_strlit("null");
    match o {
        None => {
            lemma_lit_prefix("null"@, rest);
        },
        Some(d) => {
            lemma_i64_round_trip(d, rest);
            let s = enc_i64(d) + rest;
            assert(!"null"@.is_prefix_of(s)) by {
                if "null"@.is_prefix_of(s) {
                    assert(s.subrange(0, 4)[0] == 'n');
                    if d >= 0 {
                        lemma_dec_digits_are_digits(d as int);
                        assert(is_digit(s[0]));
                    } else {
                        assert(s[0] == '-');
                    }
                }
            }
        },
    }
}

// ---------------------------------------------------------------------------
// The two status enums.
// ---------------------------------------------------------------------------

use crate::report::TestrunStatus;
use crate::report::TestrunVisibilityStatus;
use crate::report::TestrunDataV;
use crate::report::GatlingReportV;
use crate::report::RequestStatsV;
use crate::report::RequestErrorStatsV;
use crate::report::UserStatsV;
use crate::config::ParamV;

pub open spec fn enc_status(st: TestrunStatus) -> Seq<char> {
    match st {
        TestrunStatus::Unknown => "\"Unknown\""@,
        TestrunStatus::Running => "\"Running\""@,
        TestrunStatus::Done => "\"Done\""@,
    }
}

pub open spec fn sp_status(s: Seq<char>) -> Option<(TestrunStatus, Seq<char>)> {
    if "\"Unknown\""@.is_prefix_of(s) {
        Some((TestrunStatus::Unknown, s.skip("\"Unknown\""@.len() as int)))
    } else if "\"Running\""@.is_prefix_of(s) {
        Some((TestrunStatus::Running, s.skip("\"Running\""@.len() as int)))
    } else if "\"Done\""@.is_prefix_of(s) {
        Some((TestrunStatus::Done, s.skip("\"Done\""@.len() as int)))
    } else {
        None
    }
}

pub proof fn lemma_status_round_trip(st: TestrunStatus, rest: Seq<char>)
    ensures
        sp_status(enc_status(st) + rest) == Some((st, rest)),
{
    reveal_strlit("\"Unknown\"");
    reveal_strlit("\"Running\"");
    reveal_strlit("\"Done\"");
    let s = enc_status(st) + rest;
    match st {
        TestrunStatus::Unknown => {
            lemma_lit_prefix("\"Unknown\""@, rest);
        },
        TestrunStatus::Running => {
            lemma_lit_prefix("\"Running\""@, rest);
            assert(!"\"Unknown\""@.is_prefix_of(s)) by {
                if "\"Unknown\""@.is_prefix_of(s) {
                    assert(s.subrange(0, 9)[1] == 'U');
                    assert(s[1] == 'R');
                }
            }
        },
        TestrunStatus::Done => {
            lemma_lit_prefix("\"Done\""@, rest);
            assert(!"\"Unknown\""@.is_prefix_of(s)) by {
                if "\"Unknown\""@.is_prefix_of(s) {
                    assert(s.subrange(0, 9)[1] == 'U');
                    assert(s[1] == 'D');
                }
            }
            assert(!"\"Running\""@.is_prefix_of(s)) by {
                if "\"Running\""@.is_prefix_of(s) {
                    assert(s.subrange(0, 9)[1] == 'R');
                    assert(s[1] == 'D');
                }
            }
        },
    }
}

pub open spec fn enc_vis(v: TestrunVisibilityStatus) -> Seq<char> {
    match v {
        TestrunVisibilityStatus::Visible => "\"Visible\""@,
        TestrunVisibilityStatus::Hidden => "\"Hidden\""@,
    }
}

pub open spec fn sp_vis(s: Seq<char>) -> Option<(TestrunVisibilityStatus, Seq<char>)> {
    if "\"Visible\""@.is_prefix_of(s) {
        Some((TestrunVisibilityStatus::Visible, s.skip("\"Visible\""@.len() as int)))
    } else if "\"Hidden\""@.is_prefix_of(s) {
        Some((TestrunVisibilityStatus::Hidden, s.skip("\"Hidden\""@.len() as int)))
    } else {
        None
    }
}

pub proof fn lemma_vis_round_trip(v: TestrunVisibilityStatus, rest: Seq<char>)
    ensures
        sp_vis(enc_vis(v) + rest) == Some((v, rest)),
{
    reveal_strlit("\"Visible\"");
    reveal_strlit("\"Hidden\"");
    let s = enc_vis(v) + rest;
    match v {
        TestrunVisibilityStatus::Visible => {
            lemma_lit_prefix("\"Visible\""@, rest);
        },
        TestrunVisibilityStatus::Hidden => {
            lemma_lit_prefix("\"Hidden\""@, rest);
            assert(!"\"Visible\""@.is_prefix_of(s)) by {
                if "\"Visible\""@.is_prefix_of(s) {
                    assert(s.subrange(0, 9)[1] == 'V');
                    assert(s[1] == 'H');
                }
            }
        },
    }
}

// ---------------------------------------------------------------------------
// The parameter map.
// ---------------------------------------------------------------------------

/// One launch parameter as a JSON object member.
pub open spec fn enc_param(p: ParamV) -> Seq<char> {
    enc_string(p.name) + ":"@ + enc_string(p.value)
}

/// The members of the parameter object, comma separated, in order.
pub open spec fn enc_params_items(ps: Seq<ParamV>) -> Seq<char>
    decreases ps.len(),
{
    if ps.len() == 0 {
        Seq::empty()
    } else if ps.len() == 1 {
        enc_param(ps[0])
    } else {
        enc_param(ps[0]) + ","@ + enc_params_items(ps.drop_first())
    }
}

/// The launch parameters as a JSON object, pairs in their stored order.
/// The encoder is total, so the round trip holds of every record; records
/// this library builds carry pairwise-distinct names (`params_wf`), so the
/// objects it writes have unique keys.
pub open spec fn enc_params(ps: Seq<ParamV>) -> Seq<char> {
    "{"@ + enc_params_items(ps) + "}"@
}

pub open spec fn sp_param(s: Seq<char>) -> Option<(ParamV, Seq<char>)> {
    match sp_string(s) {
        None => None,
        Some((k, r)) => if r.len() >= 1 && r[0] == ':' {
            match sp_string(r.skip(1)) {
                None => None,
                Some((v, r2)) => Some((ParamV { name: k, value: v }, r2)),
            }
        } else {
            None
        },
    }
}

/// Reads one or more object members up to and including the closing brace.
pub open spec fn sp_params_items(s: Seq<char>) -> Option<(Seq<ParamV>, Seq<char>)>
    decreases s.len(),
{
    match sp_param(s) {
        None => None,
        Some((p, r)) => if r.len() >= 1 && r[0] == ',' {
            if r.len() <= s.len() {
                match sp_params_items(r.skip(1)) {
                    None => None,
                    Some((ps, r2)) => Some((seq![p] + ps, r2)),
                }
            } else {
                None
            }
        } else if r.len() >= 1 && r[0] == '}' {
            Some((seq![p], r.skip(1)))
        } else {
            None
        },
    }
}

pub open spec fn sp_params(s: Seq<char>) -> Option<(Seq<ParamV>, Seq<char>)> {
    if s.len() >= 2 && s[0] == '{' && s[1] == '}' {
        Some((Seq::empty(), s.skip(2)))
    } else if s.len() >= 1 && s[0] == '{' {
        sp_params_items(s.skip(1))
    } else {
        None
    }
}

pub proof fn lemma_param_round_trip(p: ParamV, rest: Seq<char>)
    ensures
        sp_param(enc_param(p) + rest) == Some((p, rest)),
{
    reveal_strlit(":");
    let s = enc_param(p) + rest;
    let r1 = ":"@ + enc_string(p.value) + rest;
    assert(s =~= enc_string(p.name) + r1);
    lemma_string_round_trip(p.name, r1);
    assert(r1[0] == ':');
    assert(r1.skip(1) =~= enc_string(p.value) + rest);
    lemma_string_round_trip(p.value, rest);
}

pub proof fn lemma_params_items_round_trip(ps: Seq<ParamV>, rest: Seq<char>)
    requires
        ps.len() >= 1,
    ensures
        sp_params_items(enc_params_items(ps) + "}"@ + rest) == Some((ps, rest)),
    decreases ps.len(),
{
    reveal_strlit("}");
    reveal_strlit(",");
    let s = enc_params_items(ps) + "}"@ + rest;
    if ps.len() == 1 {
        let r1 = "}"@ + rest;
        assert(s =~= enc_param(ps[0]) + r1);
        lemma_param_round_trip(ps[0], r1);
        assert(r1[0] == '}');
        assert(r1.skip(1) =~= rest);
        assert(seq![ps[0]] =~= ps);
    } else {
        let tail_enc = enc_params_items(ps.drop_first()) + "}"@ + rest;
        let r1 = ","@ + tail_enc;
        assert(s =~= enc_param(ps[0]) + r1);
        lemma_param_round_trip(ps[0], r1);
        assert(r1[0] == ',');
        assert(r1.len() <= s.len());
        assert(r1.skip(1) =~= tail_enc);
        lemma_params_items_round_trip(ps.drop_first(), rest);
        assert(seq![ps[0]] + ps.drop_first() =~= ps);
    }
}

pub proof fn lemma_params_round_trip(ps: Seq<ParamV>, rest: Seq<char>)
    ensures
        sp_params(enc_params(ps) + rest) == Some((ps, rest)),
{
    reveal_strlit("{");
    reveal_strlit("}");
    let s = enc_params(ps) + rest;
    assert(s[0] == '{');
    if ps.len() == 0 {
        assert(enc_params_items(ps) =~= Seq::<char>::empty());
        assert(s[1] == '}');
        assert(s.skip(2) =~= rest);
        assert(Seq::<ParamV>::empty() =~= ps);
    } else {
        assert(s.skip(1) =~= enc_params_items(ps) + "}"@ + rest);
        lemma_params_items_round_trip(ps, rest);
        assert(s[1] != '}') by {
            let inner = enc_params_items(ps);
            assert(inner[0] == enc_string(ps[0].name)[0]);
            assert(enc_string(ps[0].name)[0] == '"');
            assert(s[1] == inner[0]);
        }
    }
}

// ---------------------------------------------------------------------------
// Error and journey statistics: objects with a name and a count.
// ---------------------------------------------------------------------------

pub open spec fn enc_err(e: RequestErrorStatsV) -> Seq<char> {
    "{\"name\":"@ + enc_string(e.name) + ",\"count\":"@ + dec_digits(e.count as int) + "}"@
}

pub open spec fn sp_err_obj(s: Seq<char>) -> Option<(RequestErrorStatsV, Seq<char>)> {
    match sp_lit(s, "{\"name\":"@) {
        None => None,
        Some(r1) => match sp_string(r1) {
            None => None,
            Some((name, r2)) => match sp_lit(r2, ",\"count\":"@) {
                None => None,
                Some(r3) => match sp_u64(r3) {
                    None => None,
                    Some((count, r4)) => if r4.len() >= 1 && r4[0] == '}' {
                        Some((RequestErrorStatsV { name, count }, r4.skip(1)))
                    } else {
                        None
                    },
                },
            },
        },
    }
}

pub proof fn lemma_err_round_trip(e: RequestErrorStatsV, rest: Seq<char>)
    ensures
        sp_err_obj(enc_err(e) + rest) == Some((e, rest)),
{
    reveal_strlit("{\"name\":");
    reveal_strlit(",\"count\":");
    reveal_strlit("}");
    let s = enc_err(e) + rest;
    let r1 = enc_string(e.name) + (",\"count\":"@ + dec_digits(e.count as int) + "}"@ + rest);
    assert(s =~= "{\"name\":"@ + r1);
    lemma_lit_prefix("{\"name\":"@, r1);
    let r2 = ",\"count\":"@ + (dec_digits(e.count as int) + "}"@ + rest);
    assert(r1 =~= enc_string(e.name) + (r2));
    lemma_string_round_trip(e.name, r2);
    let r3 = dec_digits(e.count as int) + ("}"@ + rest);
    assert(r2.skip(",\"count\":"@.len() as int) =~= r3) by {
        lemma_lit_prefix(",\"count\":"@, r3);
    }
    lemma_lit_prefix(",\"count\":"@, r3);
    let r4 = "}"@ + rest;
    assert(r4[0] == '}');
    assert(!is_digit(r4[0]));
    lemma_u64_round_trip(e.count, r4);
    assert(r4.skip(1) =~= rest);
}

pub open spec fn enc_err_items(es: Seq<RequestErrorStatsV>) -> Seq<char>
    decreases es.len(),
{
    if es.len() == 0 {
        Seq::empty()
    } else if es.len() == 1 {
        enc_err(es[0])
    } else {
        enc_err(es[0]) + ","@ + enc_err_items(es.drop_first())
    }
}

pub open spec fn enc_err_list(es: Seq<RequestErrorStatsV>) -> Seq<char> {
    "["@ + enc_err_items(es) + "]"@
}

pub open spec fn sp_err_items(s: Seq<char>) -> Option<(Seq<RequestErrorStatsV>, Seq<char>)>
    decreases s.len(),
{
    match sp_err_obj(s) {
        None => None,
        Some((e, r)) => if r.len() >= 1 && r[0] == ',' {
            if r.len() <= s.len() {
                match sp_err_items(r.skip(1)) {
                    None => None,
                    Some((es, r2)) => Some((seq![e] + es, r2)),
                }
            } else {
                None
            }
        } else if r.len() >= 1 && r[0] == ']' {
            Some((seq![e], r.skip(1)))
        } else {
            None
        },
    }
}

pub open spec fn sp_err_list(s: Seq<char>) -> Option<(Seq<RequestErrorStatsV>, Seq<char>)> {
    if s.len() >= 2 && s[0] == '[' && s[1] == ']' {
        Some((Seq::empty(), s.skip(2)))
    } else if s.len() >= 1 && s[0] == '[' {
        sp_err_items(s.skip(1))
    } else {
        None
    }
}

pub proof fn lemma_err_items_round_trip(es: Seq<RequestErrorStatsV>, rest: Seq<char>)
    requires
        es.len() >= 1,
    ensures
        sp_err_items(enc_err_items(es) + "]"@ + rest) == Some((es, rest)),
    decreases es.len(),
{
    reveal_strlit("]");
    reveal_strlit(",");
    let s = enc_err_items(es) + "]"@ + rest;
    if es.len() == 1 {
        let r1 = "]"@ + rest;
        assert(s =~= enc_err(es[0]) + r1);
        lemma_err_round_trip(es[0], r1);
        assert(r1[0] == ']');
        assert(r1.skip(1) =~= rest);
        assert(seq![es[0]] =~= es);
    } else {
        let tail_enc = enc_err_items(es.drop_first()) + "]"@ + rest;
        let r1 = ","@ + tail_enc;
        assert(s =~= enc_err(es[0]) + r1);
        lemma_err_round_trip(es[0], r1);
        assert(r1[0] == ',');
        assert(r1.len() <= s.len());
        assert(r1.skip(1) =~= tail_enc);
        lemma_err_items_round_trip(es.drop_first(), rest);
        assert(seq![es[0]] + es.drop_first() =~= es);
    }
}

pub proof fn lemma_err_list_round_trip(es: Seq<RequestErrorStatsV>, rest: Seq<char>)
    ensures
        sp_err_list(enc_err_list(es) + rest) == Some((es, rest)),
{
    reveal_strlit("[");
    reveal_strlit("]");
    reveal_strlit("{\"name\":");
    let s = enc_err_list(es) + rest;
    assert(s[0] == '[');
    if es.len() == 0 {
        assert(enc_err_items(es) =~= Seq::<char>::empty());
        assert(s[1] == ']');
        assert(s.skip(2) =~= rest);
        assert(Seq::<RequestErrorStatsV>::empty() =~= es);
    } else {
        assert(s.skip(1) =~= enc_err_items(es) + "]"@ + rest);
        lemma_err_items_round_trip(es, rest);
        assert(s[1] != ']') by {
            let inner = enc_err_items(es);
            assert(inner[0] == enc_err(es[0])[0]);
            assert(enc_err(es[0])[0] == '{');
            assert(s[1] == inner[0]);
        }
    }
}

pub open spec fn enc_user(u: UserStatsV) -> Seq<char> {
    "{\"name\":"@ + enc_string(u.name) + ",\"count\":"@ + dec_digits(u.count as int) + "}"@
}

pub open spec fn sp_user_obj(s: Seq<char>) -> Option<(UserStatsV, Seq<char>)> {
    match sp_lit(s, "{\"name\":"@) {
        None => None,
        Some(r1) => match sp_string(r1) {
            None => None,
            Some((name, r2)) => match sp_lit(r2, ",\"count\":"@) {
                None => None,
                Some(r3) => match sp_u64(r3) {
                    None => None,
                    Some((count, r4)) => if r4.len() >= 1 && r4[0] == '}' {
                        Some((UserStatsV { name, count }, r4.skip(1)))
                    } else {
                        None
                    },
                },
            },
        },
    }
}

pub proof fn lemma_user_round_trip(u: UserStatsV, rest: Seq<char>)
    ensures
        sp_user_obj(enc_user(u) + rest) == Some((u, rest)),
{
    reveal_strlit("{\"name\":");
    reveal_strlit(",\"count\":");
    reveal_strlit("}");
    let s = enc_user(u) + rest;
    let r1 = enc_string(u.name) + (",\"count\":"@ + dec_digits(u.count as int) + "}"@ + rest);
    assert(s =~= "{\"name\":"@ + r1);
    lemma_lit_prefix("{\"name\":"@, r1);
    let r2 = ",\"count\":"@ + (dec_digits(u.count as int) + "}"@ + rest);
    assert(r1 =~= enc_string(u.name) + (r2));
    lemma_string_round_trip(u.name, r2);
    let r3 = dec_digits(u.count as int) + ("}"@ + rest);
    assert(r2 =~= ",\"count\":"@ + r3);
    lemma_lit_prefix(",\"count\":"@, r3);
    let r4 = "}"@ + rest;
    assert(r4[0] == '}');
    assert(!is_digit(r4[0]));
    lemma_u64_round_trip(u.count, r4);
    assert(r4.skip(1) =~= rest);
}

pub open spec fn enc_user_items(us: Seq<UserStatsV>) -> Seq<char>
    decreases us.len(),
{
    if us.len() == 0 {
        Seq::empty()
    } else if us.len() == 1 {
        enc_user(us[0])
    } else {
        enc_user(us[0]) + ","@ + enc_user_items(us.drop_first())
    }
}

pub open spec fn enc_user_list(us: Seq<UserStatsV>) -> Seq<char> {
    "["@ + enc_user_items(us) + "]"@
}

pub open spec fn sp_user_items(s: Seq<char>) -> Option<(Seq<UserStatsV>, Seq<char>)>
    decreases s.len(),
{
    match sp_user_obj(s) {
        None => None,
        Some((u, r)) => if r.len() >= 1 && r[0] == ',' {
            if r.len() <= s.len() {
                match sp_user_items(r.skip(1)) {
                    None => None,
                    Some((us, r2)) => Some((seq![u] + us, r2)),
                }
            } else {
                None
            }
        } else if r.len() >= 1 && r[0] == ']' {
            Some((seq![u], r.skip(1)))
        } else {
            None
        },
    }
}

pub open spec fn sp_user_list(s: Seq<char>) -> Option<(Seq<UserStatsV>, Seq<char>)> {
    if s.len() >= 2 && s[0] == '[' && s[1] == ']' {
        Some((Seq::empty(), s.skip(2)))
    } else if s.len() >= 1 && s[0] == '[' {
        sp_user_items(s.skip(1))
    } else {
        None
    }
}

pub proof fn lemma_user_items_round_trip(us: Seq<UserStatsV>, rest: Seq<char>)
    requires
        us.len() >= 1,
    ensures
        sp_user_items(enc_user_items(us) + "]"@ + rest) == Some((us, rest)),
    decreases us.len(),
{
    reveal_strlit("]");
    reveal_strlit(",");
    let s = enc_user_items(us) + "]"@ + rest;
    if us.len() == 1 {
        let r1 = "]"@ + rest;
        assert(s =~= enc_user(us[0]) + r1);
        lemma_user_round_trip(us[0], r1);
        assert(r1[0] == ']');
        assert(r1.skip(1) =~= rest);
        assert(seq![us[0]] =~= us);
    } else {
        let tail_enc = enc_user_items(us.drop_first()) + "]"@ + rest;
        let r1 = ","@ + tail_enc;
        assert(s =~= enc_user(us[0]) + r1);
        lemma_user_round_trip(us[0], r1);
        assert(r1[0] == ',');
        assert(r1.len() <= s.len());
        assert(r1.skip(1) =~= tail_enc);
        lemma_user_items_round_trip(us.drop_first(), rest);
        assert(seq![us[0]] + us.drop_first() =~= us);
    }
}

pub proof fn lemma_user_list_round_trip(us: Seq<UserStatsV>, rest: Seq<char>)
    ensures
        sp_user_list(enc_user_list(us) + rest) == Some((us, rest)),
{
    reveal_strlit("[");
    reveal_strlit("]");
    reveal_strlit("{\"name\":");
    let s = enc_user_list(us) + rest;
    assert(s[0] == '[');
    if us.len() == 0 {
        assert(enc_user_items(us) =~= Seq::<char>::empty());
        assert(s[1] == ']');
        assert(s.skip(2) =~= rest);
        assert(Seq::<UserStatsV>::empty() =~= us);
    } else {
        assert(s.skip(1) =~= enc_user_items(us) + "]"@ + rest);
        lemma_user_items_round_trip(us, rest);
        assert(s[1] != ']') by {
            let inner = enc_user_items(us);
            assert(inner[0] == enc_user(us[0])[0]);
            assert(enc_user(us[0])[0] == '{');
            assert(s[1] == inner[0]);
        }
    }
}

// ---------------------------------------------------------------------------
// Per-request statistics and the whole report.
// ---------------------------------------------------------------------------

/// A fixed key followed by a decimal number.
pub open spec fn enc_kv_num(key: Seq<char>, n: u64) -> Seq<char> {
    key + dec_digits(n as int)
}

pub open spec fn sp_kv_num(s: Seq<char>, key: Seq<char>) -> Option<(u64, Seq<char>)> {
    match sp_lit(s, key) {
        None => None,
        Some(r) => sp_u64(r),
    }
}

pub proof fn lemma_kv_num_round_trip(key: Seq<char>, n: u64, rest: Seq<char>)
    requires
        rest.len() == 0 || !is_digit(rest[0]),
    ensures
        sp_kv_num(enc_kv_num(key, n) + rest, key) == Some((n, rest)),
{
    let t = dec_digits(n as int) + rest;
    vstd::seq_lib::lemma_concat_associative(key, dec_digits(n as int), rest);
    lemma_lit_prefix(key, t);
    lemma_u64_round_trip(n, rest);
}

#[verifier::opaque]
pub open spec fn enc_req(r: RequestStatsV) -> Seq<char> {
    "{\"name\":"@ + enc_string(r.name) + enc_kv_num(",\"avg\":"@, r.avg) + enc_kv_num(
        ",\"max\":"@,
        r.max,
    ) + enc_kv_num(",\"min\":"@, r.min) + enc_kv_num(",\"p95\":"@, r.p95) + enc_kv_num(
        ",\"count\":"@,
        r.count,
    ) + ",\"errors\":"@ + enc_err_list(r.errors) + "}"@
}

#[verifier::opaque]
pub open spec fn sp_req_obj(s: Seq<char>) -> Option<(RequestStatsV, Seq<char>)> {
    match sp_lit(s, "{\"name\":"@) {
        None => None,
        Some(r1) => match sp_string(r1) {
            None => None,
            Some((name, r2)) => match sp_kv_num(r2, ",\"avg\":"@) {
                None => None,
                Some((avg, r4)) => match sp_kv_num(r4, ",\"max\":"@) {
                    None => None,
                    Some((max, r6)) => match sp_kv_num(r6, ",\"min\":"@) {
                        None => None,
                        Some((min, r8)) => match sp_kv_num(r8, ",\"p95\":"@) {
                            None => None,
                            Some((p95, r10)) => match sp_kv_num(r10, ",\"count\":"@) {
                                None => None,
                                Some((count, r12)) => match sp_lit(r12, ",\"errors\":"@) {
                                    None => None,
                                    Some(r13) => match sp_err_list(r13) {
                                        None => None,
                                        Some((errors, r14)) => if r14.len() >= 1 && r14[0] == '}' {
                                            Some(
                                                (
                                                    RequestStatsV {
                                                        name,
                                                        avg,
                                                        max,
                                                        min,
                                                        p95,
                                                        count,
                                                        errors,
                                                    },
                                                    r14.skip(1),
                                                ),
                                            )
                                        } else {
                                            None
                                        },
                                    },
                                },
                            },
                        },
                    },
                },
            },
        },
    }
}

#[verifier::rlimit(100)]
#[verifier::spinoff_prover]
pub proof fn lemma_req_round_trip(r: RequestStatsV, rest: Seq<char>)
    ensures
        sp_req_obj(enc_req(r) + rest) == Some((r, rest)),
{
    reveal(enc_req);
    reveal(sp_req_obj);
    let s = enc_req(r) + rest;
    let c1 = "{\"name\":"@;
    let c2 = enc_string(r.name);
    let c3 = enc_kv_num(",\"avg\":"@, r.avg);
    let c4 = enc_kv_num(",\"max\":"@, r.max);
    let c5 = enc_kv_num(",\"min\":"@, r.min);
    let c6 = enc_kv_num(",\"p95\":"@, r.p95);
    let c7 = enc_kv_num(",\"count\":"@, r.count);
    let c8 = ",\"errors\":"@;
    let c9 = enc_err_list(r.errors);
    let c10 = "}"@;
    let t9 = c10 + rest;
    let t8 = c9 + t9;
    let t7 = c8 + t8;
    let t6 = c7 + t7;
    let t5 = c6 + t6;
    let t4 = c5 + t5;
    let t3 = c4 + t4;
    let t2 = c3 + t3;
    let t1 = c2 + t2;
    let l2 = c1 + c2;
    let l3 = l2 + c3;
    let l4 = l3 + c4;
    let l5 = l4 + c5;
    let l6 = l5 + c6;
    let l7 = l6 + c7;
    let l8 = l7 + c8;
    let l9 = l8 + c9;
    assert(enc_req(r) == l9 + c10);
    vstd::seq_lib::lemma_concat_associative(l9, c10, rest);
    vstd::seq_lib::lemma_concat_associative(l8, c9, t9);
    vstd::seq_lib::lemma_concat_associative(l7, c8, t8);
    vstd::seq_lib::lemma_concat_associative(l6, c7, t7);
    vstd::seq_lib::lemma_concat_associative(l5, c6, t6);
    vstd::seq_lib::lemma_concat_associative(l4, c5, t5);
    vstd::seq_lib::lemma_concat_associative(l3, c4, t4);
    vstd::seq_lib::lemma_concat_associative(l2, c3, t3);
    vstd::seq_lib::lemma_concat_associative(c1, c2, t2);
    assert(s == c1 + t1);
    lemma_lit_prefix("{\"name\":"@, t1);
    lemma_string_round_trip(r.name, t2);
    assert(t3.len() >= 1 && !is_digit(t3[0])) by {
        reveal_strlit(",\"max\":");
    }
    lemma_kv_num_round_trip(",\"avg\":"@, r.avg, t3);
    assert(t4.len() >= 1 && !is_digit(t4[0])) by {
        reveal_strlit(",\"min\":");
    }
    lemma_kv_num_round_trip(",\"max\":"@, r.max, t4);
    assert(t5.len() >= 1 && !is_digit(t5[0])) by {
        reveal_strlit(",\"p95\":");
    }
    lemma_kv_num_round_trip(",\"min\":"@, r.min, t5);
    assert(t6.len() >= 1 && !is_digit(t6[0])) by {
        reveal_strlit(",\"count\":");
    }
    lemma_kv_num_round_trip(",\"p95\":"@, r.p95, t6);
    assert(t7.len() >= 1 && !is_digit(t7[0])) by {
        reveal_strlit(",\"errors\":");
    }
    lemma_kv_num_round_trip(",\"count\":"@, r.count, t7);
    lemma_lit_prefix(",\"errors\":"@, t8);
    lemma_err_list_round_trip(r.errors, t9);
    assert(t9.len() >= 1 && t9[0] == '}' && t9.skip(1) == rest) by {
        reveal_strlit("}");
        assert(t9.skip(1) =~= rest);
    }
    assert(RequestStatsV {
        name: r.name,
        avg: r.avg,
        max: r.max,
        min: r.min,
        p95: r.p95,
        count: r.count,
        errors: r.errors,
    } == r);
}

pub open spec fn enc_req_items(rs: Seq<RequestStatsV>) -> Seq<char>
    decreases rs.len(),
{
    if rs.len() == 0 {
        Seq::empty()
    } else if rs.len() == 1 {
        enc_req(rs[0])
    } else {
        enc_req(rs[0]) + ","@ + enc_req_items(rs.drop_first())
    }
}

pub open spec fn enc_req_list(rs: Seq<RequestStatsV>) -> Seq<char> {
    "["@ + enc_req_items(rs) + "]"@
}

pub open spec fn sp_req_items(s: Seq<char>) -> Option<(Seq<RequestStatsV>, Seq<char>)>
    decreases s.len(),
{
    match sp_req_obj(s) {
        None => None,
        Some((r0, r)) => if r.len() >= 1 && r[0] == ',' {
            if r.len() <= s.len() {
                match sp_req_items(r.skip(1)) {
                    None => None,
                    Some((rs, r2)) => Some((seq![r0] + rs, r2)),
                }
            } else {
                None
            }
        } else if r.len() >= 1 && r[0] == ']' {
            Some((seq![r0], r.skip(1)))
        } else {
            None
        },
    }
}

pub open spec fn sp_req_list(s: Seq<char>) -> Option<(Seq<RequestStatsV>, Seq<char>)> {
    if s.len() >= 2 && s[0] == '[' && s[1] == ']' {
        Some((Seq::empty(), s.skip(2)))
    } else if s.len() >= 1 && s[0] == '[' {
        sp_req_items(s.skip(1))
    } else {
        None
    }
}

#[verifier::rlimit(100)]
#[verifier::spinoff_prover]
pub proof fn lemma_req_items_round_trip(rs: Seq<RequestStatsV>, rest: Seq<char>)
    requires
        rs.len() >= 1,
    ensures
        sp_req_items(enc_req_items(rs) + "]"@ + rest) == Some((rs, rest)),
    decreases rs.len(),
{
    reveal_strlit("]");
    reveal_strlit(",");
    let s = enc_req_items(rs) + "]"@ + rest;
    if rs.len() == 1 {
        let r1 = "]"@ + rest;
        assert(s =~= enc_req(rs[0]) + r1);
        lemma_req_round_trip(rs[0], r1);
        assert(r1[0] == ']');
        assert(r1.skip(1) =~= rest);
        assert(seq![rs[0]] =~= rs);
    } else {
        let tail_enc = enc_req_items(rs.drop_first()) + "]"@ + rest;
        let r1 = ","@ + tail_enc;
        assert(s =~= enc_req(rs[0]) + r1);
        lemma_req_round_trip(rs[0], r1);
        assert(r1[0] == ',');
        assert(r1.len() <= s.len());
        assert(r1.skip(1) =~= tail_enc);
        lemma_req_items_round_trip(rs.drop_first(), rest);
        assert(seq![rs[0]] + rs.drop_first() =~= rs);
    }
}

pub proof fn lemma_req_list_round_trip(rs: Seq<RequestStatsV>, rest: Seq<char>)
    ensures
        sp_req_list(enc_req_list(rs) + rest) == Some((rs, rest)),
{
    reveal_strlit("[");
    reveal_strlit("]");
    reveal_strlit("{\"name\":");
    let s = enc_req_list(rs) + rest;
    assert(s[0] == '[');
    if rs.len() == 0 {
        assert(enc_req_items(rs) =~= Seq::<char>::empty());
        assert(s[1] == ']');
        assert(s.skip(2) =~= rest);
        assert(Seq::<RequestStatsV>::empty() =~= rs);
    } else {
        assert(s.skip(1) =~= enc_req_items(rs) + "]"@ + rest);
        lemma_req_items_round_trip(rs, rest);
        assert(s[1] != ']') by {
            reveal(enc_req);
            let inner = enc_req_items(rs);
            assert(inner[0] == enc_req(rs[0])[0]);
            assert(enc_req(rs[0])[0] == '{');
            assert(s[1] == inner[0]);
        }
    }
}

#[verifier::opaque]
pub open spec fn enc_report(g: GatlingReportV) -> Seq<char> {
    "{\"name\":"@ + enc_string(g.name) + ",\"version\":"@ + enc_string(g.version) + enc_kv_num(
        ",\"requests_ok\":"@,
        g.requests_ok,
    ) + enc_kv_num(",\"requests_nok\":"@, g.requests_nok) + ",\"request_stats\":"@
        + enc_req_list(g.request_stats) + ",\"user_stats\":"@ + enc_user_list(g.user_stats)
        + "}"@
}

#[verifier::opaque]
pub open spec fn sp_report(s: Seq<char>) -> Option<(GatlingReportV, Seq<char>)> {
    match sp_lit(s, "{\"name\":"@) {
        None => None,
        Some(r1) => match sp_string(r1) {
            None => None,
            Some((name, r2)) => match sp_lit(r2, ",\"version\":"@) {
                None => None,
                Some(r3) => match sp_string(r3) {
                    None => None,
                    Some((version, r4)) => match sp_kv_num(r4, ",\"requests_ok\":"@) {
                        None => None,
                        Some((requests_ok, r6)) => match sp_kv_num(r6, ",\"requests_nok\":"@) {
                            None => None,
                            Some((requests_nok, r8)) => match sp_lit(r8, ",\"request_stats\":"@) {
                                None => None,
                                Some(r9) => match sp_req_list(r9) {
                                    None => None,
                                    Some((request_stats, r10)) => match sp_lit(
                                        r10,
                                        ",\"user_stats\":"@,
                                    ) {
                                        None => None,
                                        Some(r11) => match sp_user_list(r11) {
                                            None => None,
                                            Some((user_stats, r12)) => if r12.len() >= 1 && r12[0]
                                                == '}' {
                                                Some(
                                                    (
                                                        GatlingReportV {
                                                            name,
                                                            version,
                                                            requests_ok,
                                                            requests_nok,
                                                            request_stats,
                                                            user_stats,
                                                        },
                                                        r12.skip(1),
                                                    ),
                                                )
                                            } else {
                                                None
                                            },
                                        },
                                    },
                                },
                            },
                        },
                    },
                },
            },
        },
    }
}

#[verifier::rlimit(100)]
#[verifier::spinoff_prover]
pub proof fn lemma_report_round_trip(g: GatlingReportV, rest: Seq<char>)
    ensures
        sp_report(enc_report(g) + rest) == Some((g, rest)),
{
    reveal(enc_report);
    reveal(sp_report);
    let s = enc_report(g) + rest;
    let c1 = "{\"name\":"@;
    let c2 = enc_string(g.name);
    let c3 = ",\"version\":"@;
    let c4 = enc_string(g.version);
    let c5 = enc_kv_num(",\"requests_ok\":"@, g.requests_ok);
    let c6 = enc_kv_num(",\"requests_nok\":"@, g.requests_nok);
    let c7 = ",\"request_stats\":"@;
    let c8 = enc_req_list(g.request_stats);
    let c9 = ",\"user_stats\":"@;
    let c10 = enc_user_list(g.user_stats);
    let c11 = "}"@;
    let t10 = c11 + rest;
    let t9 = c10 + t10;
    let t8 = c9 + t9;
    let t7 = c8 + t8;
    let t6 = c7 + t7;
    let t5 = c6 + t6;
    let t4 = c5 + t5;
    let t3 = c4 + t4;
    let t2 = c3 + t3;
    let t1 = c2 + t2;
    let l2 = c1 + c2;
    let l3 = l2 + c3;
    let l4 = l3 + c4;
    let l5 = l4 + c5;
    let l6 = l5 + c6;
    let l7 = l6 + c7;
    let l8 = l7 + c8;
    let l9 = l8 + c9;
    let l10 = l9 + c10;
    assert(enc_report(g) == l10 + c11);
    vstd::seq_lib::lemma_concat_associative(l10, c11, rest);
    vstd::seq_lib::lemma_concat_associative(l9, c10, t10);
    vstd::seq_lib::lemma_concat_associative(l8, c9, t9);
    vstd::seq_lib::lemma_concat_associative(l7, c8, t8);
    vstd::seq_lib::lemma_concat_associative(l6, c7, t7);
    vstd::seq_lib::lemma_concat_associative(l5, c6, t6);
    vstd::seq_lib::lemma_concat_associative(l4, c5, t5);
    vstd::seq_lib::lemma_concat_associative(l3, c4, t4);
    vstd::seq_lib::lemma_concat_associative(l2, c3, t3);
    vstd::seq_lib::lemma_concat_associative(c1, c2, t2);
    assert(s == c1 + t1);
    lemma_lit_prefix("{\"name\":"@, t1);
    lemma_string_round_trip(g.name, t2);
    lemma_lit_prefix(",\"version\":"@, t3);
    lemma_string_round_trip(g.version, t4);
    assert(t5.len() >= 1 && !is_digit(t5[0])) by {
        reveal_strlit(",\"requests_nok\":");
    }
    lemma_kv_num_round_trip(",\"requests_ok\":"@, g.requests_ok, t5);
    assert(t6.len() >= 1 && !is_digit(t6[0])) by {
        reveal_strlit(",\"request_stats\":");
    }
    lemma_kv_num_round_trip(",\"requests_nok\":"@, g.requests_nok, t6);
    lemma_lit_prefix(",\"request_stats\":"@, t7);
    lemma_req_list_round_trip(g.request_stats, t8);
    lemma_lit_prefix(",\"user_stats\":"@, t9);
    lemma_user_list_round_trip(g.user_stats, t10);
    assert(t10.len() >= 1 && t10[0] == '}' && t10.skip(1) == rest) by {
        reveal_strlit("}");
        assert(t10.skip(1) =~= rest);
    }
    assert(GatlingReportV {
        name: g.name,
        version: g.version,
        requests_ok: g.requests_ok,
        requests_nok: g.requests_nok,
        request_stats: g.request_stats,
        user_stats: g.user_stats,
    } == g);
}

/// The statistics field: absent until the run is done.
pub open spec fn enc_opt_report(o: Option<GatlingReportV>) -> Seq<char> {
    match o {
        None => "null"@,
        Some(g) => enc_report(g),
    }
}

pub open spec fn sp_opt_report(s: Seq<char>) -> Option<(Option<GatlingReportV>, Seq<char>)> {
    if "null"@.is_prefix_of(s) {
        Some((None, s.skip("null"@.len() as int)))
    } else {
        match sp_report(s) {
            Some((g, r)) => Some((Some(g), r)),
            None => None,
        }
    }
}

pub proof fn lemma_opt_report_round_trip(o: Option<GatlingReportV>, rest: Seq<char>)
    ensures
        sp_opt_report(enc_opt_report(o) + rest) == Some((o, rest)),
{
    reveal_strlit("null");
    reveal_strlit("{\"name\":");
    match o {
        None => {
            lemma_lit_prefix("null"@, rest);
        },
        Some(g) => {
            lemma_report_round_trip(g, rest);
            let s = enc_report(g) + rest;
            assert(!"null"@.is_prefix_of(s)) by {
                reveal(enc_report);
                if "null"@.is_prefix_of(s) {
                    assert(s.subrange(0, 4)[0] == 'n');
                    assert(s[0] == '{');
                }
            }
        },
    }
}

// ---------------------------------------------------------------------------
// The whole record.
// ---------------------------------------------------------------------------

/// A run's record as the JSON object this library writes to disk.
pub open spec fn enc_record(d: TestrunDataV) -> Seq<char> {
    "{\"datum\":"@ + enc_opt_i64(d.datum) + ",\"status\":"@ + enc_status(d.status)
        + ",\"custom_params\":"@ + enc_params(d.custom_params) + ",\"statistics\":"@
        + enc_opt_report(d.statistics) + ",\"visibility_status\":"@ + enc_vis(d.visibility_status)
        + "}"@
}

pub open spec fn sp_record(s: Seq<char>) -> Option<(TestrunDataV, Seq<char>)> {
    match sp_lit(s, "{\"datum\":"@) {
        None => None,
        Some(r1) => match sp_opt_i64(r1) {
            None => None,
            Some((datum, r2)) => match sp_lit(r2, ",\"status\":"@) {
                None => None,
                Some(r3) => match sp_status(r3) {
                    None => None,
                    Some((status, r4)) => match sp_lit(r4, ",\"custom_params\":"@) {
                        None => None,
                        Some(r5) => match sp_params(r5) {
                            None => None,
                            Some((custom_params, r6)) => match sp_lit(r6, ",\"statistics\":"@) {
                                None => None,
                                Some(r7) => match sp_opt_report(r7) {
                                    None => None,
                                    Some((statistics, r8)) => match sp_lit(
                                        r8,
                                        ",\"visibility_status\":"@,
                                    ) {
                                        None => None,
                                        Some(r9) => match sp_vis(r9) {
                                            None => None,
                                            Some((visibility_status, r10)) => if r10.len() >= 1
                                                && r10[0] == '}' {
                                                Some(
                                                    (
                                                        TestrunDataV {
                                                            datum,
                                                            status,
                                                            custom_params,
                                                            statistics,
                                                            visibility_status,
                                                        },
                                                        r10.skip(1),
                                                    ),
                                                )
                                            } else {
                                                None
                                            },
                                        },
                                    },
                                },
                            },
                        },
                    },
                },
            },
        },
    }
}

/// What a whole record file denotes: the record, with nothing after it.
pub open spec fn dec_record(s: Seq<char>) -> Option<TestrunDataV> {
    match sp_record(s) {
        Some((d, r)) => if r.len() == 0 {
            Some(d)
        } else {
            None
        },
        None => None,
    }
}

#[verifier::rlimit(100)]
#[verifier::spinoff_prover]
pub proof fn lemma_record_parse(d: TestrunDataV, rest: Seq<char>)
    requires
        rest.len() == 0 || !is_digit(rest[0]),
    ensures
        sp_record(enc_record(d) + rest) == Some((d, rest)),
{
    let s = enc_record(d) + rest;
    let c1 = "{\"datum\":"@;
    let c2 = enc_opt_i64(d.datum);
    let c3 = ",\"status\":"@;
    let c4 = enc_status(d.status);
    let c5 = ",\"custom_params\":"@;
    let c6 = enc_params(d.custom_params);
    let c7 = ",\"statistics\":"@;
    let c8 = enc_opt_report(d.statistics);
    let c9 = ",\"visibility_status\":"@;
    let c10 = enc_vis(d.visibility_status);
    let c11 = "}"@;
    let t10 = c11 + rest;
    let t9 = c10 + t10;
    let t8 = c9 + t9;
    let t7 = c8 + t8;
    let t6 = c7 + t7;
    let t5 = c6 + t6;
    let t4 = c5 + t5;
    let t3 = c4 + t4;
    let t2 = c3 + t3;
    let t1 = c2 + t2;
    let l2 = c1 + c2;
    let l3 = l2 + c3;
    let l4 = l3 + c4;
    let l5 = l4 + c5;
    let l6 = l5 + c6;
    let l7 = l6 + c7;
    let l8 = l7 + c8;
    let l9 = l8 + c9;
    let l10 = l9 + c10;
    assert(enc_record(d) == l10 + c11);
    vstd::seq_lib::lemma_concat_associative(l10, c11, rest);
    vstd::seq_lib::lemma_concat_associative(l9, c10, t10);
    vstd::seq_lib::lemma_concat_associative(l8, c9, t9);
    vstd::seq_lib::lemma_concat_associative(l7, c8, t8);
    vstd::seq_lib::lemma_concat_associative(l6, c7, t7);
    vstd::seq_lib::lemma_concat_associative(l5, c6, t6);
    vstd::seq_lib::lemma_concat_associative(l4, c5, t5);
    vstd::seq_lib::lemma_concat_associative(l3, c4, t4);
    vstd::seq_lib::lemma_concat_associative(l2, c3, t3);
    vstd::seq_lib::lemma_concat_associative(c1, c2, t2);
    assert(s == c1 + t1);
    lemma_lit_prefix("{\"datum\":"@, t1);
    assert(t2[0] == ',' && !is_digit(t2[0])) by {
        reveal_strlit(",\"status\":");
    }
    lemma_opt_i64_round_trip(d.datum, t2);
    lemma_lit_prefix(",\"status\":"@, t3);
    lemma_status_round_trip(d.status, t4);
    lemma_lit_prefix(",\"custom_params\":"@, t5);
    lemma_params_round_trip(d.custom_params, t6);
    lemma_lit_prefix(",\"statistics\":"@, t7);
    lemma_opt_report_round_trip(d.statistics, t8);
    lemma_lit_prefix(",\"visibility_status\":"@, t9);
    lemma_vis_round_trip(d.visibility_status, t10);
    assert(t10.len() >= 1 && t10[0] == '}' && t10.skip(1) == rest) by {
        reveal_strlit("}");
        assert(t10.skip(1) =~= rest);
    }
    assert(TestrunDataV {
        datum: d.datum,
        status: d.status,
        custom_params: d.custom_params,
        statistics: d.statistics,
        visibility_status: d.visibility_status,
    } == d);
}

/// Serialization round trip: reading a written record yields the identical
/// record.
pub proof fn lemma_record_round_trip(d: TestrunDataV)
    ensures
        dec_record(enc_record(d)) == Some(d),
{
    lemma_record_parse(d, Seq::<char>::empty());
    assert(enc_record(d) + Seq::<char>::empty() =~= enc_record(d));
}

// ---------------------------------------------------------------------------
// Executable encoding.
// ---------------------------------------------------------------------------

use crate::report::TestrunData;
use crate::report::GatlingReport;
use crate::report::RequestStats;
use crate::report::RequestErrorStats;
use crate::report::UserStats;
use crate::config::Param;

proof fn lemma_params_items_snoc(ps: Seq<ParamV>, x: ParamV)
    ensures
        enc_params_items(ps.push(x)) == if ps.len() == 0 {
            enc_param(x)
        } else {
            enc_params_items(ps) + ","@ + enc_param(x)
        },
    decreases ps.len(),
{
    let q = ps.push(x);
    if ps.len() == 0 {
        assert(q.len() == 1);
        assert(q[0] == x);
    } else {
        lemma_params_items_snoc(ps.drop_first(), x);
        assert(q.drop_first() =~= ps.drop_first().push(x));
        assert(q[0] == ps[0]);
        let a = enc_param(ps[0]);
        let b = ","@;
        if ps.len() == 1 {
            assert(enc_params_items(q) == a + b + enc_param(x));
        } else {
            let t = enc_params_items(ps.drop_first());
            vstd::seq_lib::lemma_concat_associative(a + b, t, b);
            vstd::seq_lib::lemma_concat_associative(a + b, t + b, enc_param(x));
        }
    }
}

proof fn lemma_err_items_snoc(es: Seq<RequestErrorStatsV>, x: RequestErrorStatsV)
    ensures
        enc_err_items(es.push(x)) == if es.len() == 0 {
            enc_err(x)
        } else {
            enc_err_items(es) + ","@ + enc_err(x)
        },
    decreases es.len(),
{
    let q = es.push(x);
    if es.len() == 0 {
        assert(q.len() == 1);
        assert(q[0] == x);
    } else {
        lemma_err_items_snoc(es.drop_first(), x);
        assert(q.drop_first() =~= es.drop_first().push(x));
        assert(q[0] == es[0]);
        let a = enc_err(es[0]);
        let b = ","@;
        if es.len() == 1 {
            assert(enc_err_items(q) == a + b + enc_err(x));
        } else {
            let t = enc_err_items(es.drop_first());
            vstd::seq_lib::lemma_concat_associative(a + b, t, b);
            vstd::seq_lib::lemma_concat_associative(a + b, t + b, enc_err(x));
        }
    }
}

proof fn lemma_user_items_snoc(us: Seq<UserStatsV>, x: UserStatsV)
    ensures
        enc_user_items(us.push(x)) == if us.len() == 0 {
            enc_user(x)
        } else {
            enc_user_items(us) + ","@ + enc_user(x)
        },
    decreases us.len(),
{
    let q = us.push(x);
    if us.len() == 0 {
        assert(q.len() == 1);
        assert(q[0] == x);
    } else {
        lemma_user_items_snoc(us.drop_first(), x);
        assert(q.drop_first() =~= us.drop_first().push(x));
        assert(q[0] == us[0]);
        let a = enc_user(us[0]);
        let b = ","@;
        if us.len() == 1 {
            assert(enc_user_items(q) == a + b + enc_user(x));
        } else {
            let t = enc_user_items(us.drop_first());
            vstd::seq_lib::lemma_concat_associative(a + b, t, b);
            vstd::seq_lib::lemma_concat_associative(a + b, t + b, enc_user(x));
        }
    }
}

proof fn lemma_req_items_snoc(rs: Seq<RequestStatsV>, x: RequestStatsV)
    ensures
        enc_req_items(rs.push(x)) == if rs.len() == 0 {
            enc_req(x)
        } else {
            enc_req_items(rs) + ","@ + enc_req(x)
        },
    decreases rs.len(),
{
    let q = rs.push(x);
    if rs.len() == 0 {
        assert(q.len() == 1);
        assert(q[0] == x);
    } else {
        lemma_req_items_snoc(rs.drop_first(), x);
        assert(q.drop_first() =~= rs.drop_first().push(x));
        assert(q[0] == rs[0]);
        let a = enc_req(rs[0]);
        let b = ","@;
        if rs.len() == 1 {
            assert(enc_req_items(q) == a + b + enc_req(x));
        } else {
            let t = enc_req_items(rs.drop_first());
            vstd::seq_lib::lemma_concat_associative(a + b, t, b);
            vstd::seq_lib::lemma_concat_associative(a + b, t + b, enc_req(x));
        }
    }
}

/// Appends the canonical decimal form of a signed number.
fn append_i64(out: &mut String, d: i64)
    ensures
        final(out)@ == old(out)@ + enc_i64(d),
{
    if d >= 0 {
        append_u64(out, d as u64);
    } else {
        push_char(out, '-');
        let wide: i128 = -(d as i128);
        let m: u64 = wide as u64;
        proof {
            assert(m as int == -(d as int));
        }
        append_u64(out, m);
        proof {
            assert(old(out)@.push('-') + dec_digits(m as int) =~= old(out)@ + (seq!['-']
                + dec_digits(m as int)));
        }
    }
}

fn append_opt_i64(out: &mut String, o: &Option<i64>)
    ensures
        final(out)@ == old(out)@ + enc_opt_i64(*o),
{
    match o {
        None => {
            out.append("null");
        },
        Some(d) => {
            append_i64(out, *d);
        },
    }
}

fn append_status(out: &mut String, st: &TestrunStatus)
    ensures
        final(out)@ == old(out)@ + enc_status(*st),
{
    match st {
        TestrunStatus::Unknown => out.append("\"Unknown\""),
        TestrunStatus::Running => out.append("\"Running\""),
        TestrunStatus::Done => out.append("\"Done\""),
    }
}

fn append_vis(out: &mut String, v: &TestrunVisibilityStatus)
    ensures
        final(out)@ == old(out)@ + enc_vis(*v),
{
    match v {
        TestrunVisibilityStatus::Visible => out.append("\"Visible\""),
        TestrunVisibilityStatus::Hidden => out.append("\"Hidden\""),
    }
}

fn append_params(out: &mut String, ps: &Vec<Param>)
    ensures
        final(out)@ == old(out)@ + enc_params(ps.deep_view()),
{
    let ghost pv = ps.deep_view();
    out.append("{");
    let ghost base = out@;
    let n = ps.len();
    let mut i: usize = 0;
    proof {
        assert(pv.take(0) =~= Seq::<ParamV>::empty());
        assert(out@ =~= base + enc_params_items(pv.take(0)));
    }
    while i < n
        invariant
            0 <= i <= n,
            n == ps.len(),
            pv == ps.deep_view(),
            out@ == base + enc_params_items(pv.take(i as int)),
        decreases n - i,
    {
        let ghost prev = out@;
        if i > 0 {
            push_char(out, ',');
        }
        proof {
            assert(pv[i as int] == ps@[i as int]@);
        }
        append_json_string(out, ps[i].name.as_str());
        push_char(out, ':');
        append_json_string(out, ps[i].value.as_str());
        proof {
            reveal_strlit(",");
            reveal_strlit(":");
            lemma_params_items_snoc(pv.take(i as int), pv[i as int]);
            assert(pv.take(i + 1) =~= pv.take(i as int).push(pv[i as int]));
            let ep = enc_param(pv[i as int]);
            assert(ep =~= enc_string(ps@[i as int]@.name) + ":"@ + enc_string(
                ps@[i as int]@.value,
            ));
            if i == 0 {
                assert(out@ =~= base + enc_params_items(pv.take(i + 1)));
            } else {
                assert(out@ =~= prev + ","@ + ep);
                assert(out@ =~= base + enc_params_items(pv.take(i + 1)));
            }
        }
        i += 1;
    }
    out.append("}");
    proof {
        reveal_strlit("{");
        reveal_strlit("}");
        assert(pv.take(n as int) =~= pv);
        assert(out@ =~= old(out)@ + enc_params(pv));
    }
}

fn append_err(out: &mut String, e: &RequestErrorStats)
    ensures
        final(out)@ == old(out)@ + enc_err(e@),
{
    out.append("{\"name\":");
    append_json_string(out, e.name.as_str());
    out.append(",\"count\":");
    append_u64(out, e.count);
    out.append("}");
    proof {
        assert(out@ =~= old(out)@ + enc_err(e@));
    }
}

fn append_err_list(out: &mut String, es: &Vec<RequestErrorStats>)
    ensures
        final(out)@ == old(out)@ + enc_err_list(es.deep_view()),
{
    let ghost ev = es.deep_view();
    out.append("[");
    let ghost base = out@;
    let n = es.len();
    let mut i: usize = 0;
    proof {
        assert(ev.take(0) =~= Seq::<RequestErrorStatsV>::empty());
        assert(out@ =~= base + enc_err_items(ev.take(0)));
    }
    while i < n
        invariant
            0 <= i <= n,
            n == es.len(),
            ev == es.deep_view(),
            out@ == base + enc_err_items(ev.take(i as int)),
        decreases n - i,
    {
        let ghost prev = out@;
        if i > 0 {
            push_char(out, ',');
        }
        proof {
            assert(ev[i as int] == es@[i as int]@);
        }
        append_err(out, &es[i]);
        proof {
            reveal_strlit(",");
            lemma_err_items_snoc(ev.take(i as int), ev[i as int]);
            assert(ev.take(i + 1) =~= ev.take(i as int).push(ev[i as int]));
            if i == 0 {
                assert(out@ =~= base + enc_err_items(ev.take(i + 1)));
            } else {
                assert(out@ =~= prev + ","@ + enc_err(ev[i as int]));
                assert(out@ =~= base + enc_err_items(ev.take(i + 1)));
            }
        }
        i += 1;
    }
    out.append("]");
    proof {
        reveal_strlit("[");
        reveal_strlit("]");
        assert(ev.take(n as int) =~= ev);
        assert(out@ =~= old(out)@ + enc_err_list(ev));
    }
}

fn append_user(out: &mut String, u: &UserStats)
    ensures
        final(out)@ == old(out)@ + enc_user(u@),
{
    out.append("{\"name\":");
    append_json_string(out, u.name.as_str());
    out.append(",\"count\":");
    append_u64(out, u.count);
    out.append("}");
    proof {
        assert(out@ =~= old(out)@ + enc_user(u@));
    }
}

fn append_user_list(out: &mut String, us: &Vec<UserStats>)
    ensures
        final(out)@ == old(out)@ + enc_user_list(us.deep_view()),
{
    let ghost uv = us.deep_view();
    out.append("[");
    let ghost base = out@;
    let n = us.len();
    let mut i: usize = 0;
    proof {
        assert(uv.take(0) =~= Seq::<UserStatsV>::empty());
        assert(out@ =~= base + enc_user_items(uv.take(0)));
    }
    while i < n
        invariant
            0 <= i <= n,
            n == us.len(),
            uv == us.deep_view(),
            out@ == base + enc_user_items(uv.take(i as int)),
        decreases n - i,
    {
        let ghost prev = out@;
        if i > 0 {
            push_char(out, ',');
        }
        proof {
            assert(uv[i as int] == us@[i as int]@);
        }
        append_user(out, &us[i]);
        proof {
            reveal_strlit(",");
            lemma_user_items_snoc(uv.take(i as int), uv[i as int]);
            assert(uv.take(i + 1) =~= uv.take(i as int).push(uv[i as int]));
            if i == 0 {
                assert(out@ =~= base + enc_user_items(uv.take(i + 1)));
            } else {
                assert(out@ =~= prev + ","@ + enc_user(uv[i as int]));
                assert(out@ =~= base + enc_user_items(uv.take(i + 1)));
            }
        }
        i += 1;
    }
    out.append("]");
    proof {
        reveal_strlit("[");
        reveal_strlit("]");
        assert(uv.take(n as int) =~= uv);
        assert(out@ =~= old(out)@ + enc_user_list(uv));
    }
}

#[verifier::rlimit(100)]
fn append_req(out: &mut String, r: &RequestStats)
    ensures
        final(out)@ == old(out)@ + enc_req(r@),
{
    out.append("{\"name\":");
    append_json_string(out, r.name.as_str());
    out.append(",\"avg\":");
    append_u64(out, r.avg);
    out.append(",\"max\":");
    append_u64(out, r.max);
    out.append(",\"min\":");
    append_u64(out, r.min);
    out.append(",\"p95\":");
    append_u64(out, r.p95);
    out.append(",\"count\":");
    append_u64(out, r.count);
    out.append(",\"errors\":");
    append_err_list(out, &r.errors);
    out.append("}");
    proof {
        reveal(enc_req);
        assert(out@ =~= old(out)@ + enc_req(r@));
    }
}

fn append_req_list(out: &mut String, rs: &Vec<RequestStats>)
    ensures
        final(out)@ == old(out)@ + enc_req_list(rs.deep_view()),
{
    let ghost rv = rs.deep_view();
    out.append("[");
    let ghost base = out@;
    let n = rs.len();
    let mut i: usize = 0;
    proof {
        assert(rv.take(0) =~= Seq::<RequestStatsV>::empty());
        assert(out@ =~= base + enc_req_items(rv.take(0)));
    }
    while i < n
        invariant
            0 <= i <= n,
            n == rs.len(),
            rv == rs.deep_view(),
            out@ == base + enc_req_items(rv.take(i as int)),
        decreases n - i,
    {
        let ghost prev = out@;
        if i > 0 {
            push_char(out, ',');
        }
        proof {
            assert(rv[i as int] == rs@[i as int]@);
        }
        append_req(out, &rs[i]);
        proof {
            reveal_strlit(",");
            lemma_req_items_snoc(rv.take(i as int), rv[i as int]);
            assert(rv.take(i + 1) =~= rv.take(i as int).push(rv[i as int]));
            if i == 0 {
                assert(out@ =~= base + enc_req_items(rv.take(i + 1)));
            } else {
                assert(out@ =~= prev + ","@ + enc_req(rv[i as int]));
                assert(out@ =~= base + enc_req_items(rv.take(i + 1)));
            }
        }
        i += 1;
    }
    out.append("]");
    proof {
        reveal_strlit("[");
        reveal_strlit("]");
        assert(rv.take(n as int) =~= rv);
        assert(out@ =~= old(out)@ + enc_req_list(rv));
    }
}

#[verifier::rlimit(100)]
fn append_report(out: &mut String, g: &GatlingReport)
    ensures
        final(out)@ == old(out)@ + enc_report(g@),
{
    out.append("{\"name\":");
    append_json_string(out, g.name.as_str());
    out.append(",\"version\":");
    append_json_string(out, g.version.as_str());
    out.append(",\"requests_ok\":");
    append_u64(out, g.requests_ok);
    out.append(",\"requests_nok\":");
    append_u64(out, g.requests_nok);
    out.append(",\"request_stats\":");
    append_req_list(out, &g.request_stats);
    out.append(",\"user_stats\":");
    append_user_list(out, &g.user_stats);
    out.append("}");
    proof {
        reveal(enc_report);
        assert(out@ =~= old(out)@ + enc_report(g@));
    }
}

fn append_opt_report(out: &mut String, o: &Option<GatlingReport>)
    ensures
        final(out)@ == old(out)@ + enc_opt_report(
            match o {
                Some(ref g) => Some(g.deep_view()),
                None => None,
            },
        ),
{
    match o {
        None => {
            out.append("null");
        },
        Some(g) => {
            append_report(out, g);
        },
    }
}

impl TestrunData {
    /// This record as the JSON text that is written to its run's directory.
    #[verifier::rlimit(100)]
    pub fn to_json(&self) -> (r: String)
        ensures
            r@ == enc_record(self@),
    {
        let mut out = String::new();
        out.append("{\"datum\":");
        append_opt_i64(&mut out, &self.datum);
        out.append(",\"status\":");
        append_status(&mut out, &self.status);
        out.append(",\"custom_params\":");
        append_params(&mut out, &self.custom_params);
        out.append(",\"statistics\":");
        append_opt_report(&mut out, &self.statistics);
        out.append(",\"visibility_status\":");
        append_vis(&mut out, &self.visibility_status);
        out.append("}");
        proof {
            assert(out@ =~= enc_record(self@));
        }
        out
    }
}

// ---------------------------------------------------------------------------
// Executable decoding.
// ---------------------------------------------------------------------------

/// Consumes the expected literal at `pos`, matching `sp_lit`.
#[verifier::loop_isolation(false)]
fn match_lit(s: &str, pos: usize, lit: &str) -> (r: Option<usize>)
    requires
        pos <= s@.len(),
    ensures
        match r {
            Some(p) => {
                &&& pos <= p <= s@.len()
                &&& sp_lit(s@.skip(pos as int), lit@) == Some(s@.skip(p as int))
            },
            None => sp_lit(s@.skip(pos as int), lit@) is None,
        },
{
    let n = s.unicode_len();
    let m = lit.unicode_len();
    if m > n - pos {
        proof {
            assert(s@.skip(pos as int).len() < lit@.len());
        }
        return None;
    }
    let mut j: usize = 0;
    while j < m
        invariant
            0 <= j <= m,
            forall|k: int| 0 <= k < j ==> s@.skip(pos as int)[k] == lit@[k],
        decreases m - j,
    {
        let a = s.get_char(pos + j);
        let b = lit.get_char(j);
        proof {
            assert(s@.skip(pos as int)[j as int] == s@[pos + j]);
        }
        if a != b {
            proof {
                assert(!lit@.is_prefix_of(s@.skip(pos as int))) by {
                    if lit@.is_prefix_of(s@.skip(pos as int)) {
                        assert(s@.skip(pos as int).subrange(0, lit@.len() as int)[j as int]
                            == lit@[j as int]);
                    }
                }
            }
            return None;
        }
        j += 1;
    }
    proof {
        assert(s@.skip(pos as int).subrange(0, m as int) =~= lit@);
        assert(lit@.is_prefix_of(s@.skip(pos as int)));
        assert(s@.skip(pos as int).skip(m as int) =~= s@.skip(pos + m));
    }
    Some(pos + m)
}

/// Reads a canonically written signed number, matching `sp_i64`.
fn parse_json_i64(s: &str, pos: usize) -> (r: Option<(i64, usize)>)
    requires
        pos <= s@.len(),
    ensures
        match r {
            Some((v, p)) => {
                &&& pos <= p <= s@.len()
                &&& sp_i64(s@.skip(pos as int)) == Some((v, s@.skip(p as int)))
            },
            None => sp_i64(s@.skip(pos as int)) is None,
        },
{
    let n = s.unicode_len();
    if pos < n && s.get_char(pos) == '-' {
        proof {
            assert(s@.skip(pos as int)[0] == s@[pos as int]);
            assert(s@.skip(pos as int).drop_first() =~= s@.skip(pos + 1));
        }
        match parse_json_u64(s, pos + 1) {
            Some((m, p)) => {
                if 0 < m && m <= 9223372036854775808u64 {
                    let wide: i128 = -(m as i128);
                    let v: i64 = wide as i64;
                    proof {
                        assert(v as int == -(m as int));
                    }
                    Some((v, p))
                } else {
                    None
                }
            },
            None => None,
        }
    } else {
        proof {
            if pos < n {
                assert(s@.skip(pos as int)[0] == s@[pos as int]);
            } else {
                assert(s@.skip(pos as int).len() == 0);
            }
        }
        match parse_json_u64(s, pos) {
            Some((m, p)) => {
                if m <= 9223372036854775807u64 {
                    Some((m as i64, p))
                } else {
                    None
                }
            },
            None => None,
        }
    }
}

/// Reads the timestamp field, matching `sp_opt_i64`.
fn parse_json_opt_i64(s: &str, pos: usize) -> (r: Option<(Option<i64>, usize)>)
    requires
        pos <= s@.len(),
    ensures
        match r {
            Some((v, p)) => {
                &&& pos <= p <= s@.len()
                &&& sp_opt_i64(s@.skip(pos as int)) == Some((v, s@.skip(p as int)))
            },
            None => sp_opt_i64(s@.skip(pos as int)) is None,
        },
{
    match match_lit(s, pos, "null") {
        Some(p) => Some((None, p)),
        None => match parse_json_i64(s, pos) {
            Some((v, p)) => Some((Some(v), p)),
            None => None,
        },
    }
}

/// Reads a status token, matching `sp_status`.
fn parse_json_status(s: &str, pos: usize) -> (r: Option<(TestrunStatus, usize)>)
    requires
        pos <= s@.len(),
    ensures
        match r {
            Some((v, p)) => {
                &&& pos <= p <= s@.len()
                &&& sp_status(s@.skip(pos as int)) == Some((v, s@.skip(p as int)))
            },
            None => sp_status(s@.skip(pos as int)) is None,
        },
{
    if let Some(p) = match_lit(s, pos, "\"Unknown\"") {
        return Some((TestrunStatus::Unknown, p));
    }
    if let Some(p) = match_lit(s, pos, "\"Running\"") {
        return Some((TestrunStatus::Running, p));
    }
    if let Some(p) = match_lit(s, pos, "\"Done\"") {
        return Some((TestrunStatus::Done, p));
    }
    None
}

/// Reads a visibility token, matching `sp_vis`.
fn parse_json_vis(s: &str, pos: usize) -> (r: Option<(TestrunVisibilityStatus, usize)>)
    requires
        pos <= s@.len(),
    ensures
        match r {
            Some((v, p)) => {
                &&& pos <= p <= s@.len()
                &&& sp_vis(s@.skip(pos as int)) == Some((v, s@.skip(p as int)))
            },
            None => sp_vis(s@.skip(pos as int)) is None,
        },
{
    if let Some(p) = match_lit(s, pos, "\"Visible\"") {
        return Some((TestrunVisibilityStatus::Visible, p));
    }
    if let Some(p) = match_lit(s, pos, "\"Hidden\"") {
        return Some((TestrunVisibilityStatus::Hidden, p));
    }
    None
}

/// Reads one launch parameter, matching `sp_param`.
fn parse_json_param(s: &str, pos: usize) -> (r: Option<(Param, usize)>)
    requires
        pos <= s@.len(),
    ensures
        match r {
            Some((v, p)) => {
                &&& pos <= p <= s@.len()
                &&& sp_param(s@.skip(pos as int)) == Some((v@, s@.skip(p as int)))
            },
            None => sp_param(s@.skip(pos as int)) is None,
        },
{
    let n = s.unicode_len();
    match parse_json_string(s, pos) {
        None => None,
        Some((k, p1)) => {
            if p1 < n && s.get_char(p1) == ':' {
                proof {
                    assert(s@.skip(p1 as int)[0] == s@[p1 as int]);
                    assert(s@.skip(p1 as int).skip(1) =~= s@.skip(p1 + 1));
                }
                match parse_json_string(s, p1 + 1) {
                    None => None,
                    Some((v, p2)) => {
                        let out = Param { name: k, value: v };
                        proof {
                            assert(out@ =~~= ParamV { name: k@, value: v@ });
                        }
                        Some((out, p2))
                    },
                }
            } else {
                proof {
                    if p1 < n {
                        assert(s@.skip(p1 as int)[0] == s@[p1 as int]);
                    } else {
                        assert(s@.skip(p1 as int).len() == 0);
                    }
                }
                None
            }
        },
    }
}

/// Reads the parameter object, matching `sp_params`.
#[verifier::loop_isolation(false)]
fn parse_json_params(s: &str, pos: usize) -> (r: Option<(Vec<Param>, usize)>)
    requires
        pos <= s@.len(),
    ensures
        match r {
            Some((ps, p)) => {
                &&& pos <= p <= s@.len()
                &&& sp_params(s@.skip(pos as int)) == Some((ps.deep_view(), s@.skip(p as int)))
            },
            None => sp_params(s@.skip(pos as int)) is None,
        },
{
    let n = s.unicode_len();
    if pos >= n || s.get_char(pos) != '{' {
        proof {
            if pos < n {
                assert(s@.skip(pos as int)[0] == s@[pos as int]);
            } else {
                assert(s@.skip(pos as int).len() == 0);
            }
        }
        return None;
    }
    proof {
        assert(s@.skip(pos as int)[0] == s@[pos as int]);
    }
    if pos + 1 < n && s.get_char(pos + 1) == '}' {
        let out: Vec<Param> = Vec::new();
        proof {
            assert(s@.skip(pos as int)[1] == s@[pos + 1]);
            assert(s@.skip(pos as int).skip(2) =~= s@.skip(pos + 2));
            assert(out.deep_view() =~= Seq::<ParamV>::empty());
        }
        return Some((out, pos + 2));
    }
    proof {
        if pos + 1 < n {
            assert(s@.skip(pos as int)[1] == s@[pos + 1]);
        }
        assert(s@.skip(pos as int).skip(1) =~= s@.skip(pos + 1));
    }
    let mut out: Vec<Param> = Vec::new();
    let mut i: usize = pos + 1;
    proof {
        assert(out.deep_view() =~= Seq::<ParamV>::empty());
        assert(forall|ps: Seq<ParamV>| out.deep_view() + ps =~= ps);
    }
    loop
        invariant
            pos + 1 <= i <= n,
            n == s@.len(),
            sp_params_items(s@.skip(pos + 1)) == match sp_params_items(s@.skip(i as int)) {
                None => None::<(Seq<ParamV>, Seq<char>)>,
                Some((ps, r)) => Some((out.deep_view() + ps, r)),
            },
        decreases n - i,
    {
        match parse_json_param(s, i) {
            None => {
                return None;
            },
            Some((elem, j)) => {
                let ghost ev = elem@;
                if j < n && s.get_char(j) == ',' {
                    proof {
                        assert(s@.skip(j as int)[0] == s@[j as int]);
                        assert(s@.skip(j as int).len() <= s@.skip(i as int).len());
                        assert(s@.skip(j as int).skip(1) =~= s@.skip(j + 1));
                    }
                    let ghost prev = out.deep_view();
                    out.push(elem);
                    proof {
                        assert(out.deep_view() =~~= prev.push(ev));
                        assert forall|ps: Seq<ParamV>| prev + (seq![ev] + ps) =~= out.deep_view()
                            + ps by {
                            assert(prev + (seq![ev] + ps) =~= (prev + seq![ev]) + ps);
                        }
                    }
                    i = j + 1;
                } else if j < n && s.get_char(j) == '}' {
                    proof {
                        assert(s@.skip(j as int)[0] == s@[j as int]);
                        assert(s@.skip(j as int).skip(1) =~= s@.skip(j + 1));
                    }
                    let ghost prev = out.deep_view();
                    out.push(elem);
                    proof {
                        assert(out.deep_view() =~~= prev.push(ev));
                        assert(prev + seq![ev] =~= out.deep_view());
                    }
                    return Some((out, j + 1));
                } else {
                    proof {
                        if j < n {
                            assert(s@.skip(j as int)[0] == s@[j as int]);
                        } else {
                            assert(s@.skip(j as int).len() == 0);
                        }
                    }
                    return None;
                }
            },
        }
    }
}

/// Reads one error entry, matching `sp_err_obj`.
fn parse_json_err(s: &str, pos: usize) -> (r: Option<(RequestErrorStats, usize)>)
    requires
        pos <= s@.len(),
    ensures
        match r {
            Some((v, p)) => {
                &&& pos <= p <= s@.len()
                &&& sp_err_obj(s@.skip(pos as int)) == Some((v@, s@.skip(p as int)))
            },
            None => sp_err_obj(s@.skip(pos as int)) is None,
        },
{
    let n = s.unicode_len();
    let p1 = match match_lit(s, pos, "{\"name\":") {
        Some(p) => p,
        None => {
            return None;
        },
    };
    let (name, p2) = match parse_json_string(s, p1) {
        Some(x) => x,
        None => {
            return None;
        },
    };
    let p3 = match match_lit(s, p2, ",\"count\":") {
        Some(p) => p,
        None => {
            return None;
        },
    };
    let (count, p4) = match parse_json_u64(s, p3) {
        Some(x) => x,
        None => {
            return None;
        },
    };
    if p4 < n && s.get_char(p4) == '}' {
        proof {
            assert(s@.skip(p4 as int)[0] == s@[p4 as int]);
            assert(s@.skip(p4 as int).skip(1) =~= s@.skip(p4 + 1));
        }
        let out = RequestErrorStats { name, count };
        proof {
            assert(out@ =~~= RequestErrorStatsV { name: out.name@, count: count });
        }
        Some((out, p4 + 1))
    } else {
        proof {
            if p4 < n {
                assert(s@.skip(p4 as int)[0] == s@[p4 as int]);
            } else {
                assert(s@.skip(p4 as int).len() == 0);
            }
        }
        None
    }
}

/// Reads the error list, matching `sp_err_list`.
#[verifier::loop_isolation(false)]
fn parse_json_err_list(s: &str, pos: usize) -> (r: Option<(Vec<RequestErrorStats>, usize)>)
    requires
        pos <= s@.len(),
    ensures
        match r {
            Some((es, p)) => {
                &&& pos <= p <= s@.len()
                &&& sp_err_list(s@.skip(pos as int)) == Some((es.deep_view(), s@.skip(p as int)))
            },
            None => sp_err_list(s@.skip(pos as int)) is None,
        },
{
    let n = s.unicode_len();
    if pos >= n || s.get_char(pos) != '[' {
        proof {
            if pos < n {
                assert(s@.skip(pos as int)[0] == s@[pos as int]);
            } else {
                assert(s@.skip(pos as int).len() == 0);
            }
        }
        return None;
    }
    proof {
        assert(s@.skip(pos as int)[0] == s@[pos as int]);
    }
    if pos + 1 < n && s.get_char(pos + 1) == ']' {
        let out: Vec<RequestErrorStats> = Vec::new();
        proof {
            assert(s@.skip(pos as int)[1] == s@[pos + 1]);
            assert(s@.skip(pos as int).skip(2) =~= s@.skip(pos + 2));
            assert(out.deep_view() =~= Seq::<RequestErrorStatsV>::empty());
        }
        return Some((out, pos + 2));
    }
    proof {
        if pos + 1 < n {
            assert(s@.skip(pos as int)[1] == s@[pos + 1]);
        }
        assert(s@.skip(pos as int).skip(1) =~= s@.skip(pos + 1));
    }
    let mut out: Vec<RequestErrorStats> = Vec::new();
    let mut i: usize = pos + 1;
    proof {
        assert(out.deep_view() =~= Seq::<RequestErrorStatsV>::empty());
        assert(forall|es: Seq<RequestErrorStatsV>| out.deep_view() + es =~= es);
    }
    loop
        invariant
            pos + 1 <= i <= n,
            n == s@.len(),
            sp_err_items(s@.skip(pos + 1)) == match sp_err_items(s@.skip(i as int)) {
                None => None::<(Seq<RequestErrorStatsV>, Seq<char>)>,
                Some((es, r)) => Some((out.deep_view() + es, r)),
            },
        decreases n - i,
    {
        match parse_json_err(s, i) {
            None => {
                return None;
            },
            Some((elem, j)) => {
                let ghost ev = elem@;
                if j < n && s.get_char(j) == ',' {
                    proof {
                        assert(s@.skip(j as int)[0] == s@[j as int]);
                        assert(s@.skip(j as int).len() <= s@.skip(i as int).len());
                        assert(s@.skip(j as int).skip(1) =~= s@.skip(j + 1));
                    }
                    let ghost prev = out.deep_view();
                    out.push(elem);
                    proof {
                        assert(out.deep_view() =~~= prev.push(ev));
                        assert forall|es: Seq<RequestErrorStatsV>|
                            prev + (seq![ev] + es) =~= out.deep_view() + es by {
                            assert(prev + (seq![ev] + es) =~= (prev + seq![ev]) + es);
                        }
                    }
                    i = j + 1;
                } else if j < n && s.get_char(j) == ']' {
                    proof {
                        assert(s@.skip(j as int)[0] == s@[j as int]);
                        assert(s@.skip(j as int).skip(1) =~= s@.skip(j + 1));
                    }
                    let ghost prev = out.deep_view();
                    out.push(elem);
                    proof {
                        assert(out.deep_view() =~~= prev.push(ev));
                        assert(prev + seq![ev] =~= out.deep_view());
                    }
                    return Some((out, j + 1));
                } else {
                    proof {
                        if j < n {
                            assert(s@.skip(j as int)[0] == s@[j as int]);
                        } else {
                            assert(s@.skip(j as int).len() == 0);
                        }
                    }
                    return None;
                }
            },
        }
    }
}

/// Reads one journey entry, matching `sp_user_obj`.
fn parse_json_user(s: &str, pos: usize) -> (r: Option<(UserStats, usize)>)
    requires
        pos <= s@.len(),
    ensures
        match r {
            Some((v, p)) => {
                &&& pos <= p <= s@.len()
                &&& sp_user_obj(s@.skip(pos as int)) == Some((v@, s@.skip(p as int)))
            },
            None => sp_user_obj(s@.skip(pos as int)) is None,
        },
{
    let n = s.unicode_len();
    let p1 = match match_lit(s, pos, "{\"name\":") {
        Some(p) => p,
        None => {
            return None;
        },
    };
    let (name, p2) = match parse_json_string(s, p1) {
        Some(x) => x,
        None => {
            return None;
        },
    };
    let p3 = match match_lit(s, p2, ",\"count\":") {
        Some(p) => p,
        None => {
            return None;
        },
    };
    let (count, p4) = match parse_json_u64(s, p3) {
        Some(x) => x,
        None => {
            return None;
        },
    };
    if p4 < n && s.get_char(p4) == '}' {
        proof {
            assert(s@.skip(p4 as int)[0] == s@[p4 as int]);
            assert(s@.skip(p4 as int).skip(1) =~= s@.skip(p4 + 1));
        }
        let out = UserStats { name, count };
        proof {
            assert(out@ =~~= UserStatsV { name: out.name@, count: count });
        }
        Some((out, p4 + 1))
    } else {
        proof {
            if p4 < n {
                assert(s@.skip(p4 as int)[0] == s@[p4 as int]);
            } else {
                assert(s@.skip(p4 as int).len() == 0);
            }
        }
        None
    }
}

/// Reads the journey list, matching `sp_user_list`.
#[verifier::loop_isolation(false)]
fn parse_json_user_list(s: &str, pos: usize) -> (r: Option<(Vec<UserStats>, usize)>)
    requires
        pos <= s@.len(),
    ensures
        match r {
            Some((us, p)) => {
                &&& pos <= p <= s@.len()
                &&& sp_user_list(s@.skip(pos as int)) == Some((us.deep_view(), s@.skip(p as int)))
            },
            None => sp_user_list(s@.skip(pos as int)) is None,
        },
{
    let n = s.unicode_len();
    if pos >= n || s.get_char(pos) != '[' {
        proof {
            if pos < n {
                assert(s@.skip(pos as int)[0] == s@[pos as int]);
            } else {
                assert(s@.skip(pos as int).len() == 0);
            }
        }
        return None;
    }
    proof {
        assert(s@.skip(pos as int)[0] == s@[pos as int]);
    }
    if pos + 1 < n && s.get_char(pos + 1) == ']' {
        let out: Vec<UserStats> = Vec::new();
        proof {
            assert(s@.skip(pos as int)[1] == s@[pos + 1]);
            assert(s@.skip(pos as int).skip(2) =~= s@.skip(pos + 2));
            assert(out.deep_view() =~= Seq::<UserStatsV>::empty());
        }
        return Some((out, pos + 2));
    }
    proof {
        if pos + 1 < n {
            assert(s@.skip(pos as int)[1] == s@[pos + 1]);
        }
        assert(s@.skip(pos as int).skip(1) =~= s@.skip(pos + 1));
    }
    let mut out: Vec<UserStats> = Vec::new();
    let mut i: usize = pos + 1;
    proof {
        assert(out.deep_view() =~= Seq::<UserStatsV>::empty());
        assert(forall|us: Seq<UserStatsV>| out.deep_view() + us =~= us);
    }
    loop
        invariant
            pos + 1 <= i <= n,
            n == s@.len(),
            sp_user_items(s@.skip(pos + 1)) == match sp_user_items(s@.skip(i as int)) {
                None => None::<(Seq<UserStatsV>, Seq<char>)>,
                Some((us, r)) => Some((out.deep_view() + us, r)),
            },
        decreases n - i,
    {
        match parse_json_user(s, i) {
            None => {
                return None;
            },
            Some((elem, j)) => {
                let ghost ev = elem@;
                if j < n && s.get_char(j) == ',' {
                    proof {
                        assert(s@.skip(j as int)[0] == s@[j as int]);
                        assert(s@.skip(j as int).len() <= s@.skip(i as int).len());
                        assert(s@.skip(j as int).skip(1) =~= s@.skip(j + 1));
                    }
                    let ghost prev = out.deep_view();
                    out.push(elem);
                    proof {
                        assert(out.deep_view() =~~= prev.push(ev));
                        assert forall|us: Seq<UserStatsV>|
                            prev + (seq![ev] + us) =~= out.deep_view() + us by {
                            assert(prev + (seq![ev] + us) =~= (prev + seq![ev]) + us);
                        }
                    }
                    i = j + 1;
                } else if j < n && s.get_char(j) == ']' {
                    proof {
                        assert(s@.skip(j as int)[0] == s@[j as int]);
                        assert(s@.skip(j as int).skip(1) =~= s@.skip(j + 1));
                    }
                    let ghost prev = out.deep_view();
                    out.push(elem);
                    proof {
                        assert(out.deep_view() =~~= prev.push(ev));
                        assert(prev + seq![ev] =~= out.deep_view());
                    }
                    return Some((out, j + 1));
                } else {
                    proof {
                        if j < n {
                            assert(s@.skip(j as int)[0] == s@[j as int]);
                        } else {
                            assert(s@.skip(j as int).len() == 0);
                        }
                    }
                    return None;
                }
            },
        }
    }
}

/// Reads a key and its number, matching `sp_kv_num`.
fn parse_json_kv_num(s: &str, pos: usize, key: &str) -> (r: Option<(u64, usize)>)
    requires
        pos <= s@.len(),
    ensures
        match r {
            Some((v, p)) => {
                &&& pos <= p <= s@.len()
                &&& sp_kv_num(s@.skip(pos as int), key@) == Some((v, s@.skip(p as int)))
            },
            None => sp_kv_num(s@.skip(pos as int), key@) is None,
        },
{
    match match_lit(s, pos, key) {
        None => None,
        Some(p1) => parse_json_u64(s, p1),
    }
}

/// Reads one request entry, matching `sp_req_obj`.
#[verifier::rlimit(100)]
fn parse_json_req(s: &str, pos: usize) -> (r: Option<(RequestStats, usize)>)
    requires
        pos <= s@.len(),
    ensures
        match r {
            Some((v, p)) => {
                &&& pos <= p <= s@.len()
                &&& sp_req_obj(s@.skip(pos as int)) == Some((v@, s@.skip(p as int)))
            },
            None => sp_req_obj(s@.skip(pos as int)) is None,
        },
{
    proof {
        reveal(sp_req_obj);
    }
    let n = s.unicode_len();
    let p1 = match match_lit(s, pos, "{\"name\":") {
        Some(p) => p,
        None => {
            return None;
        },
    };
    let (name, p2) = match parse_json_string(s, p1) {
        Some(x) => x,
        None => {
            return None;
        },
    };
    let (avg, p3) = match parse_json_kv_num(s, p2, ",\"avg\":") {
        Some(x) => x,
        None => {
            return None;
        },
    };
    let (max, p4) = match parse_json_kv_num(s, p3, ",\"max\":") {
        Some(x) => x,
        None => {
            return None;
        },
    };
    let (min, p5) = match parse_json_kv_num(s, p4, ",\"min\":") {
        Some(x) => x,
        None => {
            return None;
        },
    };
    let (p95, p6) = match parse_json_kv_num(s, p5, ",\"p95\":") {
        Some(x) => x,
        None => {
            return None;
        },
    };
    let (count, p7) = match parse_json_kv_num(s, p6, ",\"count\":") {
        Some(x) => x,
        None => {
            return None;
        },
    };
    let p8 = match match_lit(s, p7, ",\"errors\":") {
        Some(p) => p,
        None => {
            return None;
        },
    };
    let (errors, p9) = match parse_json_err_list(s, p8) {
        Some(x) => x,
        None => {
            return None;
        },
    };
    if p9 < n && s.get_char(p9) == '}' {
        proof {
            assert(s@.skip(p9 as int)[0] == s@[p9 as int]);
            assert(s@.skip(p9 as int).skip(1) =~= s@.skip(p9 + 1));
        }
        let out = RequestStats { name, avg, max, min, p95, count, errors };
        proof {
            assert(out@ =~~= RequestStatsV {
                name: out.name@,
                avg,
                max,
                min,
                p95,
                count,
                errors: out.errors.deep_view(),
            });
        }
        Some((out, p9 + 1))
    } else {
        proof {
            if p9 < n {
                assert(s@.skip(p9 as int)[0] == s@[p9 as int]);
            } else {
                assert(s@.skip(p9 as int).len() == 0);
            }
        }
        None
    }
}

/// Reads the request list, matching `sp_req_list`.
#[verifier::loop_isolation(false)]
fn parse_json_req_list(s: &str, pos: usize) -> (r: Option<(Vec<RequestStats>, usize)>)
    requires
        pos <= s@.len(),
    ensures
        match r {
            Some((rs, p)) => {
                &&& pos <= p <= s@.len()
                &&& sp_req_list(s@.skip(pos as int)) == Some((rs.deep_view(), s@.skip(p as int)))
            },
            None => sp_req_list(s@.skip(pos as int)) is None,
        },
{
    let n = s.unicode_len();
    if pos >= n || s.get_char(pos) != '[' {
        proof {
            if pos < n {
                assert(s@.skip(pos as int)[0] == s@[pos as int]);
            } else {
                assert(s@.skip(pos as int).len() == 0);
            }
        }
        return None;
    }
    proof {
        assert(s@.skip(pos as int)[0] == s@[pos as int]);
    }
    if pos + 1 < n && s.get_char(pos + 1) == ']' {
        let out: Vec<RequestStats> = Vec::new();
        proof {
            assert(s@.skip(pos as int)[1] == s@[pos + 1]);
            assert(s@.skip(pos as int).skip(2) =~= s@.skip(pos + 2));
            assert(out.deep_view() =~= Seq::<RequestStatsV>::empty());
        }
        return Some((out, pos + 2));
    }
    proof {
        if pos + 1 < n {
            assert(s@.skip(pos as int)[1] == s@[pos + 1]);
        }
        assert(s@.skip(pos as int).skip(1) =~= s@.skip(pos + 1));
    }
    let mut out: Vec<RequestStats> = Vec::new();
    let mut i: usize = pos + 1;
    proof {
        assert(out.deep_view() =~= Seq::<RequestStatsV>::empty());
        assert(forall|rs: Seq<RequestStatsV>| out.deep_view() + rs =~= rs);
    }
    loop
        invariant
            pos + 1 <= i <= n,
            n == s@.len(),
            sp_req_items(s@.skip(pos + 1)) == match sp_req_items(s@.skip(i as int)) {
                None => None::<(Seq<RequestStatsV>, Seq<char>)>,
                Some((rs, r)) => Some((out.deep_view() + rs, r)),
            },
        decreases n - i,
    {
        match parse_json_req(s, i) {
            None => {
                return None;
            },
            Some((elem, j)) => {
                let ghost ev = elem@;
                if j < n && s.get_char(j) == ',' {
                    proof {
                        assert(s@.skip(j as int)[0] == s@[j as int]);
                        assert(s@.skip(j as int).len() <= s@.skip(i as int).len());
                        assert(s@.skip(j as int).skip(1) =~= s@.skip(j + 1));
                    }
                    let ghost prev = out.deep_view();
                    out.push(elem);
                    proof {
                        assert(out.deep_view() =~~= prev.push(ev));
                        assert forall|rs: Seq<RequestStatsV>|
                            prev + (seq![ev] + rs) =~= out.deep_view() + rs by {
                            assert(prev + (seq![ev] + rs) =~= (prev + seq![ev]) + rs);
                        }
                    }
                    i = j + 1;
                } else if j < n && s.get_char(j) == ']' {
                    proof {
                        assert(s@.skip(j as int)[0] == s@[j as int]);
                        assert(s@.skip(j as int).skip(1) =~= s@.skip(j + 1));
                    }
                    let ghost prev = out.deep_view();
                    out.push(elem);
                    proof {
                        assert(out.deep_view() =~~= prev.push(ev));
                        assert(prev + seq![ev] =~= out.deep_view());
                    }
                    return Some((out, j + 1));
                } else {
                    proof {
                        if j < n {
                            assert(s@.skip(j as int)[0] == s@[j as int]);
                        } else {
                            assert(s@.skip(j as int).len() == 0);
                        }
                    }
                    return None;
                }
            },
        }
    }
}

/// Reads a whole report, matching `sp_report`.
#[verifier::rlimit(100)]
fn parse_json_report(s: &str, pos: usize) -> (r: Option<(GatlingReport, usize)>)
    requires
        pos <= s@.len(),
    ensures
        match r {
            Some((v, p)) => {
                &&& pos <= p <= s@.len()
                &&& sp_report(s@.skip(pos as int)) == Some((v.deep_view(), s@.skip(p as int)))
            },
            None => sp_report(s@.skip(pos as int)) is None,
        },
{
    proof {
        reveal(sp_report);
    }
    let n = s.unicode_len();
    let p1 = match match_lit(s, pos, "{\"name\":") {
        Some(p) => p,
        None => {
            return None;
        },
    };
    let (name, p2) = match parse_json_string(s, p1) {
        Some(x) => x,
        None => {
            return None;
        },
    };
    let p3 = match match_lit(s, p2, ",\"version\":") {
        Some(p) => p,
        None => {
            return None;
        },
    };
    let (version, p4) = match parse_json_string(s, p3) {
        Some(x) => x,
        None => {
            return None;
        },
    };
    let (requests_ok, p5) = match parse_json_kv_num(s, p4, ",\"requests_ok\":") {
        Some(x) => x,
        None => {
            return None;
        },
    };
    let (requests_nok, p6) = match parse_json_kv_num(s, p5, ",\"requests_nok\":") {
        Some(x) => x,
        None => {
            return None;
        },
    };
    let p7 = match match_lit(s, p6, ",\"request_stats\":") {
        Some(p) => p,
        None => {
            return None;
        },
    };
    let (request_stats, p8) = match parse_json_req_list(s, p7) {
        Some(x) => x,
        None => {
            return None;
        },
    };
    let p9 = match match_lit(s, p8, ",\"user_stats\":") {
        Some(p) => p,
        None => {
            return None;
        },
    };
    let (user_stats, p10) = match parse_json_user_list(s, p9) {
        Some(x) => x,
        None => {
            return None;
        },
    };
    if p10 < n && s.get_char(p10) == '}' {
        proof {
            assert(s@.skip(p10 as int)[0] == s@[p10 as int]);
            assert(s@.skip(p10 as int).skip(1) =~= s@.skip(p10 + 1));
        }
        let out = GatlingReport { name, version, requests_ok, requests_nok, request_stats, user_stats };
        proof {
            assert(out.deep_view() =~~= GatlingReportV {
                name: out.name@,
                version: out.version@,
                requests_ok,
                requests_nok,
                request_stats: out.request_stats.deep_view(),
                user_stats: out.user_stats.deep_view(),
            });
        }
        Some((out, p10 + 1))
    } else {
        proof {
            if p10 < n {
                assert(s@.skip(p10 as int)[0] == s@[p10 as int]);
            } else {
                assert(s@.skip(p10 as int).len() == 0);
            }
        }
        None
    }
}

/// Reads the statistics field, matching `sp_opt_report`.
fn parse_json_opt_report(s: &str, pos: usize) -> (r: Option<(Option<GatlingReport>, usize)>)
    requires
        pos <= s@.len(),
    ensures
        match r {
            Some((v, p)) => {
                &&& pos <= p <= s@.len()
                &&& sp_opt_report(s@.skip(pos as int)) == Some(
                    (
                        match v {
                            Some(ref g) => Some(g.deep_view()),
                            None => None,
                        },
                        s@.skip(p as int),
                    ),
                )
            },
            None => sp_opt_report(s@.skip(pos as int)) is None,
        },
{
    match match_lit(s, pos, "null") {
        Some(p) => Some((None, p)),
        None => match parse_json_report(s, pos) {
            Some((g, p)) => Some((Some(g), p)),
            None => None,
        },
    }
}

impl TestrunData {
    /// Reads a record back from its JSON text. Succeeds exactly on the
    /// canonical form `to_json` writes, with nothing trailing it.
    #[verifier::rlimit(100)]
    pub fn from_json(s: &str) -> (r: Option<TestrunData>)
        ensures
            match r {
                Some(d) => dec_record(s@) == Some(d@),
                None => dec_record(s@) is None,
            },
    {
        let n = s.unicode_len();
        proof {
            assert(s@.skip(0) =~= s@);
        }
        let p1 = match match_lit(s, 0, "{\"datum\":") {
            Some(p) => p,
            None => {
                return None;
            },
        };
        let (datum, p2) = match parse_json_opt_i64(s, p1) {
            Some(x) => x,
            None => {
                return None;
            },
        };
        let p3 = match match_lit(s, p2, ",\"status\":") {
            Some(p) => p,
            None => {
                return None;
            },
        };
        let (status, p4) = match parse_json_status(s, p3) {
            Some(x) => x,
            None => {
                return None;
            },
        };
        let p5 = match match_lit(s, p4, ",\"custom_params\":") {
            Some(p) => p,
            None => {
                return None;
            },
        };
        let (custom_params, p6) = match parse_json_params(s, p5) {
            Some(x) => x,
            None => {
                return None;
            },
        };
        let p7 = match match_lit(s, p6, ",\"statistics\":") {
            Some(p) => p,
            None => {
                return None;
            },
        };
        let (statistics, p8) = match parse_json_opt_report(s, p7) {
            Some(x) => x,
            None => {
                return None;
            },
        };
        let p9 = match match_lit(s, p8, ",\"visibility_status\":") {
            Some(p) => p,
            None => {
                return None;
            },
        };
        let (visibility_status, p10) = match parse_json_vis(s, p9) {
            Some(x) => x,
            None => {
                return None;
            },
        };
        if p10 < n && s.get_char(p10) == '}' {
            proof {
                assert(s@.skip(p10 as int)[0] == s@[p10 as int]);
                assert(s@.skip(p10 as int).skip(1) =~= s@.skip(p10 + 1));
            }
            if p10 + 1 == n {
                let out = TestrunData { datum, status, custom_params, statistics, visibility_status };
                proof {
                    assert(s@.skip(p10 + 1).len() == 0);
                    assert(out@ =~~= TestrunDataV {
                        datum,
                        status,
                        custom_params: out.custom_params.deep_view(),
                        statistics: match out.statistics {
                            Some(ref g) => Some(g.deep_view()),
                            None => None,
                        },
                        visibility_status,
                    });
                }
                Some(out)
            } else {
                proof {
                    assert(s@.skip(p10 + 1).len() > 0);
                }
                None
            }
        } else {
            proof {
                if p10 < n {
                    assert(s@.skip(p10 as int)[0] == s@[p10 as int]);
                } else {
                    assert(s@.skip(p10 as int).len() == 0);
                }
            }
            None
        }
    }
}

} // verus!
