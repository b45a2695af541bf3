//! Character-level text utilities: splitting a character sequence on a
//! separator and reading a signed decimal integer, each with an exact
//! mathematical description.

use vstd::prelude::*;
use vstd::string::StrSliceExecFns;

verus! {

/// Splits `s` on every occurrence of `sep`.  Mirrors the behaviour of
/// splitting a string: the result always has one more element than there
/// are separators, so the empty sequence splits into one empty field.
pub open spec fn split_chars(s: Seq<char>, sep: char) -> Seq<Seq<char>>
    decreases s.len(),
{
    if s.len() == 0 {
        seq![Seq::<char>::empty()]
    } else if s[0] == sep {
        seq![Seq::<char>::empty()] + split_chars(s.skip(1), sep)
    } else {
        let rest = split_chars(s.skip(1), sep);
        seq![seq![s[0]] + rest[0]] + rest.skip(1)
    }
}

/// A split never yields an empty field list.
pub proof fn lemma_split_len_pos(s: Seq<char>, sep: char)
    ensures
        split_chars(s, sep).len() >= 1,
    decreases s.len(),
{
    if s.len() == 0 {
    } else if s[0] == sep {
    } else {
        lemma_split_len_pos(s.skip(1), sep);
    }
}

/// A sequence without the separator is a single field.
pub proof fn lemma_split_no_sep(s: Seq<char>, sep: char)
    requires
        forall|k: int| 0 <= k < s.len() ==> s[k] != sep,
    ensures
        split_chars(s, sep) =~~= seq![s],
    decreases s.len(),
{
    if s.len() == 0 {
        assert(split_chars(s, sep) =~~= seq![s]);
    } else {
        lemma_split_no_sep(s.skip(1), sep);
        let rest = split_chars(s.skip(1), sep);
        assert(rest[0] == s.skip(1));
        assert(seq![s[0]] + rest[0] =~= s);
        assert(split_chars(s, sep) =~~= seq![s]);
    }
}

/// Splitting at the first separator: the part before it is the first
/// field, and the rest of the fields are the split of the part after it.
pub proof fn lemma_split_at_first(s: Seq<char>, sep: char, i: int)
    requires
        0 <= i < s.len(),
        s[i] == sep,
        forall|k: int| 0 <= k < i ==> s[k] != sep,
    ensures
        split_chars(s, sep) =~~= seq![s.take(i)] + split_chars(s.skip(i + 1), sep),
    decreases s.len(),
{
    if i == 0 {
        assert(s.take(0) =~= Seq::<char>::empty());
        assert(split_chars(s, sep) =~~= seq![s.take(0)] + split_chars(s.skip(1), sep));
    } else {
        let t = s.skip(1);
        assert(t[i - 1] == sep);
        assert(forall|k: int| 0 <= k < i - 1 ==> t[k] != sep);
        lemma_split_at_first(t, sep, i - 1);
        let rest = split_chars(t, sep);
        assert(rest =~~= seq![t.take(i - 1)] + split_chars(t.skip(i), sep));
        assert(rest[0] == t.take(i - 1));
        assert(rest.skip(1) =~~= split_chars(t.skip(i), sep));
        assert(t.skip(i) =~= s.skip(i + 1));
        assert(seq![s[0]] + t.take(i - 1) =~= s.take(i));
        assert(split_chars(s, sep) =~~= seq![s.take(i)] + split_chars(s.skip(i + 1), sep));
    }
}

/// Splits `s` on every occurrence of `sep`, field by field.
pub fn split_str(s: &str, sep: char) -> (r: Vec<String>)
    ensures
        r@.len() == split_chars(s@, sep).len(),
        forall|j: int| 0 <= j < r@.len() ==> r@[j]@ == split_chars(s@, sep)[j],
{
    let n = s.unicode_len();
    let mut r: Vec<String> = Vec::new();
    let mut start: usize = 0;
    let mut i: usize = 0;
    proof {
        assert(s@.subrange(0, n as int) =~= s@);
    }
    while i < n
        invariant
            0 <= start <= i <= n,
            n == s@.len(),
            split_chars(s@, sep) =~~= r.deep_view() + split_chars(
                s@.subrange(start as int, n as int),
                sep,
            ),
            forall|k: int| start <= k < i ==> s@[k] != sep,
        decreases n - i,
    {
        let c = s.get_char(i);
        if c == sep {
            let field = s.substring_char(start, i).to_owned();
            let ghost tail = s@.subrange(start as int, n as int);
            proof {
                assert(tail[i - start] == sep);
                assert(forall|k: int| 0 <= k < i - start ==> tail[k] != sep);
                lemma_split_at_first(tail, sep, i - start);
                assert(tail.take(i - start) =~= s@.subrange(start as int, i as int));
                assert(tail.skip(i - start + 1) =~= s@.subrange(i + 1, n as int));
            }
            r.push(field);
            proof {
                assert(split_chars(s@, sep) =~~= r.deep_view() + split_chars(
                    s@.subrange(i + 1, n as int),
                    sep,
                ));
            }
            start = i + 1;
        }
        i = i + 1;
    }
    let field = s.substring_char(start, n).to_owned();
    let ghost tail = s@.subrange(start as int, n as int);
    proof {
        lemma_split_no_sep(tail, sep);
    }
    r.push(field);
    proof {
        assert(split_chars(s@, sep) =~~= r.deep_view());
        assert(forall|j: int| 0 <= j < r@.len() ==> r@[j]@ == r.deep_view()[j]);
    }
    r
}

/// An ASCII decimal digit.
pub open spec fn is_digit(c: char) -> bool {
    48 <= c as u32 && c as u32 <= 57
}

/// The numeric value of a decimal digit.
pub open spec fn digit_val(c: char) -> int {
    c as u32 - 48
}

/// The value of a sequence of decimal digits, most significant first.
pub open spec fn digits_val(s: Seq<char>) -> int
    decreases s.len(),
{
    if s.len() == 0 {
        0
    } else {
        digits_val(s.drop_last()) * 10 + digit_val(s.last())
    }
}

pub open spec fn all_digits(s: Seq<char>) -> bool {
    forall|k: int| 0 <= k < s.len() ==> is_digit(s[k])
}

/// A decimal integer literal: an optional single leading sign followed by
/// at least one digit.
pub open spec fn is_int_literal(s: Seq<char>) -> bool {
    if s.len() == 0 {
        false
    } else if s[0] == '-' || s[0] == '+' {
        s.len() >= 2 && all_digits(s.skip(1))
    } else {
        all_digits(s)
    }
}

/// The mathematical value of a decimal integer literal.
pub open spec fn int_literal_val(s: Seq<char>) -> int {
    if s.len() > 0 && s[0] == '-' {
        -digits_val(s.skip(1))
    } else if s.len() > 0 && s[0] == '+' {
        digits_val(s.skip(1))
    } else {
        digits_val(s)
    }
}

/// What reading an `i64` from text yields: the literal's value when the
/// text is a well-formed literal whose value fits, nothing otherwise.
pub open spec fn parse_i64_spec(s: Seq<char>) -> Option<int> {
    if is_int_literal(s) && i64::MIN as int <= int_literal_val(s) && int_literal_val(s)
        <= i64::MAX as int {
        Some(int_literal_val(s))
    } else {
        None
    }
}

proof fn lemma_digits_val_nonneg(s: Seq<char>)
    requires
        all_digits(s),
    ensures
        digits_val(s) >= 0,
    decreases s.len(),
{
    if s.len() > 0 {
        assert(all_digits(s.drop_last()));
        lemma_digits_val_nonneg(s.drop_last());
    }
}

/// Appending digits never decreases the value of a digit string.
proof fn lemma_digits_val_mono(s: Seq<char>, i: int)
    requires
        all_digits(s),
        0 <= i <= s.len(),
    ensures
        digits_val(s.take(i)) <= digits_val(s),
    decreases s.len(),
{
    if i == s.len() {
        assert(s.take(i) =~= s);
    } else {
        assert(all_digits(s.drop_last()));
        assert(s.take(i) =~= s.drop_last().take(i));
        lemma_digits_val_mono(s.drop_last(), i);
        lemma_digits_val_nonneg(s.drop_last());
    }
}

/// Reads a signed decimal `i64` from `s`: the whole of `s` must be an
/// integer literal whose value fits, as `parse_i64_spec` states.
pub fn parse_i64(s: &str) -> (r: Option<i64>)
    ensures
        r matches Some(v) ==> parse_i64_spec(s@) == Some(v as int),
        r is None ==> parse_i64_spec(s@) is None,
{
    let n = s.unicode_len();
    if n == 0 {
        return None;
    }
    let c0 = s.get_char(0);
    let start: usize = if c0 == '-' || c0 == '+' {
        1
    } else {
        0
    };
    let neg = c0 == '-';
    if start == n {
        return None;
    }
    let mut i: usize = start;
    let mut acc: u64 = 0;
    proof {
        assert(s@.subrange(start as int, start as int) =~= Seq::<char>::empty());
    }
    while i < n
        invariant
            start <= i <= n,
            n == s@.len(),
            0 < n,
            start == 0 || start == 1,
            start == 1 ==> (s@[0] == '-' || s@[0] == '+'),
            start == 0 ==> !(s@[0] == '-' || s@[0] == '+'),
            neg == (s@[0] == '-'),
            start < n,
            forall|k: int| start <= k < i ==> is_digit(s@[k]),
            acc as int == digits_val(s@.subrange(start as int, i as int)),
        decreases n - i,
    {
        let c = s.get_char(i);
        let u = c as u32;
        if u < 48 || u > 57 {
            // `s` is not an integer literal: a non-digit stands after the
            // optional sign.
            proof {
                if start == 1 {
                    assert(!is_digit(s@.skip(1)[i - 1]));
                } else {
                    assert(!is_digit(s@[i as int]));
                }
            }
            return None;
        }
        let d = (u - 48) as u64;
        let ghost pre = s@.subrange(start as int, i as int);
        let ghost post = s@.subrange(start as int, i + 1);
        proof {
            assert(post.drop_last() =~= pre);
            assert(post.last() == s@[i as int]);
            assert(digits_val(post) == acc as int * 10 + d as int);
        }
        if acc > 1844674407370955160u64 {
            // The digits read so far already name a value beyond the
            // `i64` range, and further digits only increase it.
            proof {
                let whole = s@.subrange(start as int, n as int);
                assert(all_digits(post));
                assert(post =~= whole.take(i + 1 - start));
                if !all_digits(whole) {
                    let k = choose|k: int| 0 <= k < whole.len() && !is_digit(whole[k]);
                    if start == 1 {
                        assert(!is_digit(s@.skip(1)[k]));
                    } else {
                        assert(!is_digit(s@[k]));
                    }
                } else {
                    lemma_digits_val_mono(whole, i + 1 - start);
                    assert(digits_val(whole) >= digits_val(post));
                    assert(digits_val(post) > i64::MAX as int);
                    if start == 1 {
                        assert(s@.skip(1) =~= whole);
                    } else {
                        assert(s@ =~= whole);
                    }
                }
            }
            return None;
        }
        acc = acc * 10 + d;
        i = i + 1;
    }
    let ghost whole = s@.subrange(start as int, n as int);
    proof {
        assert(all_digits(whole));
        assert(acc as int == digits_val(whole));
        if start == 1 {
            assert(s@.skip(1) =~= whole);
        } else {
            assert(s@ =~= whole);
        }
        assert(is_int_literal(s@));
    }
    if neg {
        if acc > 9223372036854775808u64 {
            return None;
        }
        if acc == 9223372036854775808u64 {
            Some(i64::MIN)
        } else {
            Some(-(acc as i64))
        }
    } else {
        if acc > 9223372036854775807u64 {
            return None;
        }
        Some(acc as i64)
    }
}

} // verus!
