//! Character-level utilities shared by the log parser and the record codec:
//! splitting on a separator, splitting into lines, substring search, and
//! equality of string slices.

use vstd::prelude::*;

verus! {

broadcast use vstd::string::group_string_axioms;

/// The fields of `s` split on the separator `sep`. There is always at least
/// one field; an empty input has one empty field, and each separator ends a
/// field, so `n` separators give `n + 1` fields.
pub open spec fn split_on(s: Seq<char>, sep: char) -> Seq<Seq<char>>
    decreases s.len(),
{
    if s.len() == 0 {
        seq![s]
    } else if s[s.len() - 1] == sep {
        split_on(s.drop_last(), sep).push(Seq::empty())
    } else {
        let r = split_on(s.drop_last(), sep);
        r.update(r.len() - 1, r.last().push(s[s.len() - 1]))
    }
}

pub proof fn lemma_split_on_len(s: Seq<char>, sep: char)
    ensures
        split_on(s, sep).len() >= 1,
    decreases s.len(),
{
    if s.len() > 0 {
        lemma_split_on_len(s.drop_last(), sep);
    }
}

/// `s` with one trailing carriage return removed, as the line reader strips it.
pub open spec fn strip_cr(s: Seq<char>) -> Seq<char> {
    if s.len() > 0 && s[s.len() - 1] == '\r' {
        s.drop_last()
    } else {
        s
    }
}

/// The lines of `s`, as a buffered line reader yields them: split on `'\n'`,
/// no trailing empty line when the text ends in a newline, and a trailing
/// `'\r'` stripped from each line.
pub open spec fn lines_of(s: Seq<char>) -> Seq<Seq<char>> {
    if s.len() == 0 {
        Seq::empty()
    } else {
        let parts = split_on(s, '\n');
        let kept = if s[s.len() - 1] == '\n' {
            parts.drop_last()
        } else {
            parts
        };
        kept.map_values(|l: Seq<char>| strip_cr(l))
    }
}

/// The pattern `pat` occurs in `s` starting at position `i`.
pub open spec fn has_sub_at(s: Seq<char>, pat: Seq<char>, i: int) -> bool {
    0 <= i && i + pat.len() <= s.len() && s.subrange(i, i + pat.len()) == pat
}

/// The pattern `pat` occurs somewhere in `s`.
pub open spec fn has_substring(s: Seq<char>, pat: Seq<char>) -> bool {
    exists|i: int| has_sub_at(s, pat, i)
}

/// Relies on String::push: appends the given character to the end of the
/// string.
#[verifier::external_body]
pub(crate) fn push_char(s: &mut String, c: char)
    ensures
        final(s)@ == old(s)@.push(c),
{
    s.push(c);
}

/// Character-wise equality of two string slices.
pub(crate) fn str_eq(a: &str, b: &str) -> (r: bool)
    ensures
        r == (a@ == b@),
{
    let an = a.unicode_len();
    let bn = b.unicode_len();
    if an != bn {
        assert(a@ != b@) by {
            assert(a@.len() != b@.len());
        }
        return false;
    }
    let mut i: usize = 0;
    while i < an
        invariant
            0 <= i <= an,
            an == a@.len(),
            an == b@.len(),
            forall|k: int| 0 <= k < i ==> a@[k] == b@[k],
        decreases an - i,
    {
        if a.get_char(i) != b.get_char(i) {
            assert(a@ != b@) by {
                assert(a@[i as int] != b@[i as int]);
            }
            return false;
        }
        i += 1;
    }
    proof {
        assert(a@ =~= b@);
    }
    true
}

/// The fields of `s` split on `sep`, matching `split_on` on the view.
pub(crate) fn split_str(s: &str, sep: char) -> (r: Vec<String>)
    ensures
        r.deep_view() == split_on(s@, sep),
{
    let n = s.unicode_len();
    let mut parts: Vec<String> = Vec::new();
    let mut start: usize = 0;
    let mut i: usize = 0;
    proof {
        assert(parts.deep_view().push(s@.subrange(0, 0)) =~~= split_on(s@.take(0), sep));
    }
    while i < n
        invariant
            0 <= start <= i <= n,
            n == s@.len(),
            parts.deep_view().push(s@.subrange(start as int, i as int)) == split_on(
                s@.take(i as int),
                sep,
            ),
        decreases n - i,
    {
        let ghost prev = parts.deep_view();
        let c = s.get_char(i);
        proof {
            assert(s@.take(i + 1).drop_last() =~= s@.take(i as int));
            assert(s@.take(i + 1)[i as int] == s@[i as int]);
        }
        if c == sep {
            let field = s.substring_char(start, i).to_owned();
            parts.push(field);
            start = i + 1;
            proof {
                assert(parts.deep_view() =~~= prev.push(field@));
                assert(parts.deep_view().push(s@.subrange(start as int, i + 1)) =~~= split_on(
                    s@.take(i + 1),
                    sep,
                ));
            }
        } else {
            proof {
                let r = split_on(s@.take(i as int), sep);
                lemma_split_on_len(s@.take(i as int), sep);
                assert(r.last() == s@.subrange(start as int, i as int));
                assert(s@.subrange(start as int, i as int).push(s@[i as int]) =~= s@.subrange(
                    start as int,
                    i + 1,
                ));
                assert(parts.deep_view().push(s@.subrange(start as int, i + 1)) =~~= r.update(
                    r.len() - 1,
                    r.last().push(s@[i as int]),
                ));
            }
        }
        i += 1;
    }
    let field = s.substring_char(start, n).to_owned();
    parts.push(field);
    proof {
        assert(s@.take(n as int) =~= s@);
        assert(parts.deep_view() =~~= split_on(s@, sep));
    }
    parts
}

/// `s` with one trailing carriage return removed.
fn strip_cr_str(s: &String) -> (r: String)
    ensures
        r@ == strip_cr(s@),
{
    let n = s.as_str().unicode_len();
    if n > 0 && s.as_str().get_char(n - 1) == '\r' {
        let r = s.as_str().substring_char(0, n - 1).to_owned();
        proof {
            assert(r@ =~= s@.drop_last());
        }
        r
    } else {
        let r = s.as_str().to_owned();
        r
    }
}

/// The lines of `s`, matching `lines_of` on the view.
pub(crate) fn split_lines(s: &str) -> (r: Vec<String>)
    ensures
        r.deep_view() == lines_of(s@),
{
    let n = s.unicode_len();
    let mut out: Vec<String> = Vec::new();
    if n == 0 {
        proof {
            assert(out.deep_view() =~~= lines_of(s@));
        }
        return out;
    }
    let mut parts = split_str(s, '\n');
    let ghost all_parts = parts.deep_view();
    if s.get_char(n - 1) == '\n' {
        proof {
            lemma_split_on_len(s@, '\n');
        }
        parts.pop();
        proof {
            assert(parts.deep_view() =~~= all_parts.drop_last());
        }
    }
    let ghost kept = parts.deep_view();
    let m = parts.len();
    let mut j: usize = 0;
    while j < m
        invariant
            0 <= j <= m,
            m == parts.len(),
            parts.deep_view() == kept,
            out.deep_view() == kept.take(j as int).map_values(|l: Seq<char>| strip_cr(l)),
        decreases m - j,
    {
        let ghost prev = out.deep_view();
        let stripped = strip_cr_str(&parts[j]);
        out.push(stripped);
        proof {
            assert(kept[j as int] == parts@[j as int]@);
            assert(stripped@ == strip_cr(kept[j as int]));
            assert(out.deep_view() =~~= prev.push(stripped@));
            assert(out.deep_view() =~~= kept.take(j + 1).map_values(|l: Seq<char>| strip_cr(l)));
        }
        j += 1;
    }
    proof {
        assert(kept.take(m as int) =~= kept);
        assert(out.deep_view() =~~= lines_of(s@));
    }
    out
}

/// Whether `p` is a prefix of `s`, matching `Seq::is_prefix_of`.
pub(crate) fn str_starts_with(s: &str, p: &str) -> (r: bool)
    ensures
        r == p@.is_prefix_of(s@),
{
    let n = s.unicode_len();
    let m = p.unicode_len();
    if m > n {
        return false;
    }
    let mut j: usize = 0;
    while j < m
        invariant
            0 <= j <= m,
            m <= n,
            n == s@.len(),
            m == p@.len(),
            forall|k: int| 0 <= k < j ==> s@[k] == p@[k],
        decreases m - j,
    {
        if s.get_char(j) != p.get_char(j) {
            assert(!p@.is_prefix_of(s@)) by {
                if p@.is_prefix_of(s@) {
                    assert(s@.subrange(0, m as int)[j as int] == p@[j as int]);
                }
            }
            return false;
        }
        j += 1;
    }
    proof {
        assert(s@.subrange(0, m as int) =~= p@);
    }
    true
}

/// Lexicographic order on character sequences, by code point.
pub open spec fn lex_le(a: Seq<char>, b: Seq<char>) -> bool
    decreases a.len(),
{
    if a.len() == 0 {
        true
    } else if b.len() == 0 {
        false
    } else if a[0] != b[0] {
        a[0] < b[0]
    } else {
        lex_le(a.drop_first(), b.drop_first())
    }
}

/// Any two strings are ordered one way or the other.
pub proof fn lemma_lex_le_total(a: Seq<char>, b: Seq<char>)
    ensures
        lex_le(a, b) || lex_le(b, a),
    decreases a.len(),
{
    if a.len() > 0 && b.len() > 0 && a[0] == b[0] {
        lemma_lex_le_total(a.drop_first(), b.drop_first());
    }
}

/// Dropping a common prefix does not change the order.
proof fn lemma_lex_le_skip(a: Seq<char>, b: Seq<char>, i: int)
    requires
        0 <= i <= a.len(),
        i <= b.len(),
        forall|k: int| 0 <= k < i ==> a[k] == b[k],
    ensures
        lex_le(a, b) == lex_le(a.skip(i), b.skip(i)),
    decreases i,
{
    if i > 0 {
        assert(a.len() > 0 && b.len() > 0);
        assert(a[0] == b[0]);
        lemma_lex_le_skip(a.drop_first(), b.drop_first(), i - 1);
        assert(a.drop_first().skip(i - 1) =~= a.skip(i));
        assert(b.drop_first().skip(i - 1) =~= b.skip(i));
    } else {
        assert(a.skip(0) =~= a);
        assert(b.skip(0) =~= b);
    }
}

/// Decides the lexicographic order of two strings.
pub(crate) fn lex_le_str(a: &str, b: &str) -> (r: bool)
    ensures
        r == lex_le(a@, b@),
{
    let an = a.unicode_len();
    let bn = b.unicode_len();
    let mut i: usize = 0;
    while i < an && i < bn
        invariant
            0 <= i <= an,
            i <= bn,
            an == a@.len(),
            bn == b@.len(),
            forall|k: int| 0 <= k < i ==> a@[k] == b@[k],
        decreases an - i,
    {
        let ca = a.get_char(i);
        let cb = b.get_char(i);
        if ca != cb {
            proof {
                lemma_lex_le_skip(a@, b@, i as int);
                assert(a@.skip(i as int)[0] == a@[i as int]);
                assert(b@.skip(i as int)[0] == b@[i as int]);
            }
            return ca < cb;
        }
        i += 1;
    }
    proof {
        lemma_lex_le_skip(a@, b@, i as int);
        if i >= an {
            assert(a@.skip(i as int).len() == 0);
        } else {
            assert(b@.skip(i as int).len() == 0);
            assert(a@.skip(i as int).len() > 0);
        }
    }
    an <= bn
}

/// Naive substring search, matching `has_substring` on the views.
pub(crate) fn contains_sub(s: &str, pat: &str) -> (r: bool)
    ensures
        r == has_substring(s@, pat@),
{
    let n = s.unicode_len();
    let m = pat.unicode_len();
    if m > n {
        proof {
            assert(forall|i: int| !has_sub_at(s@, pat@, i));
        }
        return false;
    }
    if m == 0 {
        proof {
            assert(s@.subrange(0, 0) =~= pat@);
            assert(has_sub_at(s@, pat@, 0));
        }
        return true;
    }
    let mut i: usize = 0;
    while i <= n - m
        invariant
            0 <= i <= n - m + 1,
            1 <= m <= n,
            n == s@.len(),
            m == pat@.len(),
            forall|k: int| 0 <= k < i ==> !has_sub_at(s@, pat@, k),
        decreases n - i,
    {
        let mut j: usize = 0;
        let mut matches_here: bool = true;
        while j < m
            invariant
                0 <= j <= m,
                0 <= i <= n - m,
                n == s@.len(),
                m == pat@.len(),
                matches_here ==> forall|k: int| 0 <= k < j ==> s@[i + k] == pat@[k],
                !matches_here ==> !has_sub_at(s@, pat@, i as int),
            decreases m - j,
        {
            if matches_here {
                if s.get_char(i + j) != pat.get_char(j) {
                    proof {
                        assert(s@.subrange(i as int, i + m as int)[j as int] != pat@[j as int]);
                    }
                    matches_here = false;
                }
            }
            j += 1;
        }
        if matches_here {
            proof {
                assert(s@.subrange(i as int, i + m as int) =~= pat@);
                assert(has_sub_at(s@, pat@, i as int));
            }
            return true;
        }
        i += 1;
    }
    proof {
        assert forall|k: int| !has_sub_at(s@, pat@, k) by {
            if 0 <= k <= n - m {
                assert(!has_sub_at(s@, pat@, k));
            }
        }
    }
    false
}

} // verus!
