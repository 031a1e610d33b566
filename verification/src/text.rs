//! Small verified string utilities shared by the graph model, the metadata
//! parser and the configuration parsers.

use vstd::prelude::*;
use vstd::string::*;

verus! {

/// Exact string comparison, stated over the character sequences.
pub fn string_eq(a: &String, b: &String) -> (r: bool)
    ensures
        r == (a@ == b@),
{
    a.eq(b)
}

/// The comma-separated tokens of `s` from position `i` on, with `cur` the
/// token accumulated so far; empty segments are dropped.
pub open spec fn split_go(s: Seq<char>, i: int, cur: Seq<char>) -> Seq<Seq<char>>
    decreases s.len() - i,
{
    if i < 0 || i >= s.len() {
        if cur.len() == 0 {
            Seq::empty()
        } else {
            seq![cur]
        }
    } else if s[i] == ',' {
        if cur.len() == 0 {
            split_go(s, i + 1, Seq::empty())
        } else {
            seq![cur] + split_go(s, i + 1, Seq::empty())
        }
    } else {
        split_go(s, i + 1, cur.push(s[i]))
    }
}

/// The comma-separated tokens of `s`, in order, empty segments dropped.
pub open spec fn split_commas(s: Seq<char>) -> Seq<Seq<char>> {
    split_go(s, 0, Seq::empty())
}

/// Split `s` on commas, dropping empty segments.
pub fn split_commas_exec(s: &String) -> (out: Vec<String>)
    ensures
        out.deep_view() == split_commas(s@),
{
    let slen = s.as_str().unicode_len();
    let mut out: Vec<String> = Vec::new();
    let mut i: usize = 0;
    let mut start: usize = 0;
    proof {
        assert(s@.subrange(0, 0) =~= Seq::<char>::empty());
    }
    while i < slen
        invariant
            slen == s@.len(),
            start <= i <= slen,
            split_commas(s@) == out.deep_view() + split_go(
                s@,
                i as int,
                s@.subrange(start as int, i as int),
            ),
        decreases slen - i,
    {
        let ghost cur = s@.subrange(start as int, i as int);
        let c = s.as_str().get_char(i);
        if c == ',' {
            if start < i {
                let tok = s.as_str().substring_char(start, i);
                let ghost before = out.deep_view();
                out.push(tok.to_owned());
                proof {
                    assert(out.deep_view() =~= before.push(cur));
                    assert(split_go(s@, i as int, cur) == seq![cur] + split_go(
                        s@,
                        i as int + 1,
                        Seq::empty(),
                    ));
                    assert(before + (seq![cur] + split_go(s@, i as int + 1, Seq::empty()))
                        =~= out.deep_view() + split_go(s@, i as int + 1, Seq::empty()));
                }
            }
            start = i + 1;
            proof {
                assert(s@.subrange(i as int + 1, i as int + 1) =~= Seq::<char>::empty());
            }
        } else {
            proof {
                assert(cur.push(s@[i as int]) =~= s@.subrange(start as int, i as int + 1));
            }
        }
        i += 1;
    }
    if start < slen {
        let tok = s.as_str().substring_char(start, slen);
        let ghost before = out.deep_view();
        out.push(tok.to_owned());
        proof {
            assert(out.deep_view() =~= before.push(s@.subrange(start as int, slen as int)));
            assert(split_commas(s@) =~= out.deep_view());
        }
    } else {
        proof {
            assert(split_commas(s@) =~= out.deep_view());
        }
    }
    out
}

/// The tokens of `toks` with repetitions dropped, first occurrences kept in
/// order.
pub open spec fn distinct_tokens(toks: Seq<Seq<char>>) -> Seq<Seq<char>>
    decreases toks.len(),
{
    if toks.len() == 0 {
        Seq::empty()
    } else {
        let prefix = distinct_tokens(toks.drop_last());
        if prefix.contains(toks.last()) {
            prefix
        } else {
            prefix.push(toks.last())
        }
    }
}

/// A decimal digit.
pub open spec fn is_digit(c: char) -> bool {
    48 <= c as u32 <= 57
}

/// The numeric value of a decimal digit.
pub open spec fn digit_val(c: char) -> int {
    c as u32 as int - 48
}

pub open spec fn all_digits(s: Seq<char>) -> bool {
    forall|i: int| 0 <= i < s.len() ==> is_digit(#[trigger] s[i])
}

/// A non-empty, all-digit string.
pub open spec fn is_number(s: Seq<char>) -> bool {
    s.len() > 0 && all_digits(s)
}

/// The value of a decimal digit string.
pub open spec fn dec_value(s: Seq<char>) -> int
    decreases s.len(),
{
    if s.len() == 0 {
        0
    } else {
        dec_value(s.drop_last()) * 10 + digit_val(s.last())
    }
}

pub proof fn lemma_dec_value_nonneg(s: Seq<char>)
    requires
        all_digits(s),
    ensures
        dec_value(s) >= 0,
    decreases s.len(),
{
    if s.len() > 0 {
        assert(all_digits(s.drop_last()));
        lemma_dec_value_nonneg(s.drop_last());
    }
}

/// Extending a digit string can only grow its value.
pub proof fn lemma_dec_value_prefix(s: Seq<char>, k: int)
    requires
        all_digits(s),
        0 <= k <= s.len(),
    ensures
        dec_value(s.take(k)) <= dec_value(s),
    decreases s.len() - k,
{
    if k == s.len() {
        assert(s.take(k) =~= s);
    } else {
        assert(s.take(k + 1).drop_last() =~= s.take(k));
        assert(s.take(k + 1).last() == s[k]);
        assert(all_digits(s.take(k)));
        lemma_dec_value_nonneg(s.take(k));
        assert(dec_value(s.take(k + 1)) == dec_value(s.take(k)) * 10 + digit_val(s[k]));
        lemma_dec_value_prefix(s, k + 1);
    }
}

/// Why a string failed to parse as a number.
#[derive(Debug, PartialEq, Eq, Structural, Clone, Copy)]
pub enum NumberError {
    /// Empty, or a character other than a decimal digit.
    Malformed,
    /// A well-formed digit string whose value does not fit in a `u64`.
    TooLarge,
}

/// Parse an unsigned decimal number. Succeeds exactly on non-empty all-digit
/// strings whose value fits in a `u64`, and says which rule failed otherwise.
pub fn parse_u64(s: &String) -> (r: Result<u64, NumberError>)
    ensures
        r is Ok <==> (is_number(s@) && dec_value(s@) <= u64::MAX),
        r matches Ok(v) ==> v as int == dec_value(s@),
        r matches Err(NumberError::Malformed) <==> !is_number(s@),
        r matches Err(NumberError::TooLarge) <==> (is_number(s@) && dec_value(s@) > u64::MAX),
{
    let n = s.as_str().unicode_len();
    if n == 0 {
        return Err(NumberError::Malformed);
    }
    let mut i: usize = 0;
    while i < n
        invariant
            n == s@.len(),
            i <= n,
            forall|k: int| 0 <= k < i ==> is_digit(#[trigger] s@[k]),
        decreases n - i,
    {
        let c = s.as_str().get_char(i);
        let u = c as u32;
        if u < 48 || u > 57 {
            proof {
                assert(!is_digit(s@[i as int]));
            }
            return Err(NumberError::Malformed);
        }
        i += 1;
    }
    let mut acc: u64 = 0;
    let mut j: usize = 0;
    proof {
        assert(s@.take(0) =~= Seq::<char>::empty());
    }
    while j < n
        invariant
            n == s@.len(),
            j <= n,
            is_number(s@),
            acc as int == dec_value(s@.take(j as int)),
        decreases n - j,
    {
        let c = s.as_str().get_char(j);
        let d = (c as u32 - 48) as u64;
        proof {
            assert(is_digit(s@[j as int]));
            assert(s@.take(j as int + 1).drop_last() =~= s@.take(j as int));
            assert(s@.take(j as int + 1).last() == s@[j as int]);
        }
        let step = match acc.checked_mul(10) {
            Some(m) => m.checked_add(d),
            None => None,
        };
        match step {
            Some(v) => {
                acc = v;
            },
            None => {
                proof {
                    assert(dec_value(s@.take(j as int + 1)) > u64::MAX);
                    lemma_dec_value_prefix(s@, j as int + 1);
                }
                return Err(NumberError::TooLarge);
            },
        }
        j += 1;
    }
    proof {
        assert(s@.take(n as int) =~= s@);
    }
    Ok(acc)
}

} // verus!
