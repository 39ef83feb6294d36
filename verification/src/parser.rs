//! Token parsing: the capability that turns one raw token into a node
//! key, and a concrete decimal parser for `u64` keys.  A token that
//! fails to parse is the canonical encoding of an absent child.

use vstd::prelude::*;
use vstd::string::*;

verus! {

/// The parsing capability handed to the reconstruction engine: one
/// attempt to turn a raw token into a key.  `None` marks a sentinel
/// (null) token.  The executable parser must agree exactly with its
/// own specification, so the engine's behaviour is a function of the
/// token sequence alone.
pub trait TokenParser<K> {
    /// What this parser makes of a token.
    spec fn spec_parse(&self, token: Seq<char>) -> Option<K>;

    /// Parses one token; `None` denotes a null/sentinel marker.
    fn parse(&self, token: &str) -> (r: Option<K>)
        ensures
            r == self.spec_parse(token@),
    ;
}

/// True of the characters `'0'` through `'9'`.
pub open spec fn is_dec_digit(c: char) -> bool {
    48 <= c as u32 <= 57
}

/// The numeric value of a decimal digit character.
pub open spec fn dec_digit(c: char) -> int {
    c as u32 - 48
}

/// True when every character of `s` is a decimal digit.
pub open spec fn all_dec_digits(s: Seq<char>) -> bool {
    forall|i: int| 0 <= i < s.len() ==> is_dec_digit(#[trigger] s[i])
}

/// The value of `s` read as a base-10 numeral.
pub open spec fn dec_value(s: Seq<char>) -> int
    decreases s.len(),
{
    if s.len() == 0 {
        0
    } else {
        dec_value(s.drop_last()) * 10 + dec_digit(s.last())
    }
}

/// A numeral over digits is never negative.
proof fn lemma_dec_value_nonneg(s: Seq<char>)
    requires
        all_dec_digits(s),
    ensures
        dec_value(s) >= 0,
    decreases s.len(),
{
    if s.len() > 0 {
        assert(all_dec_digits(s.drop_last())) by {
            assert(forall|i: int| 0 <= i < s.len() - 1 ==> s.drop_last()[i] == #[trigger] s[i]);
        }
        lemma_dec_value_nonneg(s.drop_last());
    }
}

/// Extending a numeral with more digits never shrinks its value.
proof fn lemma_dec_value_prefix_le(s: Seq<char>, j: int)
    requires
        all_dec_digits(s),
        0 <= j <= s.len(),
    ensures
        dec_value(s.take(j)) <= dec_value(s),
    decreases s.len() - j,
{
    if j < s.len() {
        let t = s.take(j + 1);
        assert(t.drop_last() =~= s.take(j));
        assert(t.last() == s[j]);
        assert(all_dec_digits(s.take(j))) by {
            assert(forall|i: int| 0 <= i < j ==> s.take(j)[i] == #[trigger] s[i]);
        }
        lemma_dec_value_nonneg(s.take(j));
        assert(dec_value(s.take(j)) <= dec_value(s.take(j + 1)));
        lemma_dec_value_prefix_le(s, j + 1);
    } else {
        assert(s.take(j) =~= s);
    }
}

/// Parses `u64` keys written as plain decimal numerals: one or more
/// digits, no sign, no other characters, value at most `u64::MAX`.
/// Anything else is a sentinel.
pub struct DecimalParser;

impl TokenParser<u64> for DecimalParser {
    open spec fn spec_parse(&self, token: Seq<char>) -> Option<u64> {
        if token.len() > 0 && all_dec_digits(token) && dec_value(token) <= u64::MAX {
            Some(dec_value(token) as u64)
        } else {
            None
        }
    }

    fn parse(&self, token: &str) -> (r: Option<u64>) {
        let ghost s = token@;
        let n = token.unicode_len();
        if n == 0 {
            return None;
        }
        let mut val: u64 = 0;
        let mut j: usize = 0;
        while j < n
            invariant
                s == token@,
                n == s.len(),
                0 <= j <= n,
                all_dec_digits(s.take(j as int)),
                val == dec_value(s.take(j as int)),
            decreases n - j,
        {
            let c = token.get_char(j);
            let u = c as u32;
            if u < 48 || u > 57 {
                assert(!is_dec_digit(s[j as int]));
                return None;
            }
            let d = (u - 48) as u64;
            proof {
                let t = s.take(j + 1);
                assert(t.drop_last() =~= s.take(j as int));
                assert(t.last() == s[j as int]);
                assert(all_dec_digits(t));
                assert(dec_value(t) == val * 10 + d);
            }
            if val > u64::MAX / 10 || (val == u64::MAX / 10 && d > u64::MAX % 10) {
                // The numeral read so far already exceeds `u64::MAX`;
                // the whole token can only be at least as large.
                proof {
                    if all_dec_digits(s) {
                        lemma_dec_value_prefix_le(s, j + 1);
                        assert(dec_value(s) > u64::MAX);
                    }
                }
                return None;
            }
            val = val * 10 + d;
            j = j + 1;
        }
        proof {
            assert(s.take(n as int) =~= s);
            lemma_dec_value_nonneg(s);
        }
        Some(val)
    }
}

} // verus!
