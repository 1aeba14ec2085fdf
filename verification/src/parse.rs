//! Byte-level text handling for the pseudo-files the topology detector
//! consumes: UTF-8 validity and parsing of a decimal unsigned integer with
//! trailing whitespace.

use vstd::prelude::*;

verus! {

/// ASCII whitespace: space, tab, line feed, form feed, carriage return.
pub open spec fn is_ascii_ws(b: u8) -> bool {
    b == 32 || b == 9 || b == 10 || b == 12 || b == 13
}

/// ASCII decimal digit.
pub open spec fn is_ascii_digit(b: u8) -> bool {
    48 <= b <= 57
}

/// A UTF-8 continuation byte (bit pattern `10xxxxxx`).
pub open spec fn is_utf8_cont(b: u8) -> bool {
    0x80 <= b < 0xC0
}

/// Validity under the UTF-8 encoding rules of the suffix of `s` that starts
/// at `i`: well-placed continuation bytes, no overlong forms, no surrogate
/// code points, nothing above U+10FFFF.
pub open spec fn valid_utf8_from(s: Seq<u8>, i: int) -> bool
    decreases s.len() - i,
{
    if i < 0 || i >= s.len() {
        true
    } else {
        let b0 = s[i];
        if b0 < 0x80 {
            valid_utf8_from(s, i + 1)
        } else if b0 < 0xC2 {
            false
        } else if b0 < 0xE0 {
            if s.len() - i >= 2 {
                is_utf8_cont(s[i + 1]) && valid_utf8_from(s, i + 2)
            } else {
                false
            }
        } else if b0 < 0xF0 {
            if s.len() - i >= 3 {
                let ok1 = if b0 == 0xE0 {
                    0xA0 <= s[i + 1] < 0xC0
                } else if b0 == 0xED {
                    0x80 <= s[i + 1] < 0xA0
                } else {
                    is_utf8_cont(s[i + 1])
                };
                ok1 && is_utf8_cont(s[i + 2]) && valid_utf8_from(s, i + 3)
            } else {
                false
            }
        } else if b0 < 0xF5 {
            if s.len() - i >= 4 {
                let ok1 = if b0 == 0xF0 {
                    0x90 <= s[i + 1] < 0xC0
                } else if b0 == 0xF4 {
                    0x80 <= s[i + 1] < 0x90
                } else {
                    is_utf8_cont(s[i + 1])
                };
                ok1 && is_utf8_cont(s[i + 2]) && is_utf8_cont(s[i + 3])
                    && valid_utf8_from(s, i + 4)
            } else {
                false
            }
        } else {
            false
        }
    }
}

/// The whole byte sequence is valid UTF-8.
pub open spec fn valid_utf8(s: Seq<u8>) -> bool {
    valid_utf8_from(s, 0)
}

/// `b` is a UTF-8 continuation byte.
fn cont_byte(b: u8) -> (r: bool)
    ensures
        r == is_utf8_cont(b),
{
    0x80 <= b && b < 0xC0
}

/// Checks whether `s` holds valid UTF-8.
pub fn is_valid_utf8(s: &Vec<u8>) -> (r: bool)
    ensures
        r == valid_utf8(s@),
{
    let n = s.len();
    let mut i: usize = 0;
    while i < n
        invariant
            n == s@.len(),
            i <= n,
            valid_utf8(s@) == valid_utf8_from(s@, i as int),
        decreases n - i,
    {
        let b0 = s[i];
        if b0 < 0x80 {
            i = i + 1;
        } else if b0 < 0xC2 {
            return false;
        } else if b0 < 0xE0 {
            if n - i >= 2 && cont_byte(s[i + 1]) {
                i = i + 2;
            } else {
                return false;
            }
        } else if b0 < 0xF0 {
            if n - i < 3 {
                return false;
            }
            let b1 = s[i + 1];
            let ok1 = if b0 == 0xE0 {
                0xA0 <= b1 && b1 < 0xC0
            } else if b0 == 0xED {
                0x80 <= b1 && b1 < 0xA0
            } else {
                cont_byte(b1)
            };
            if ok1 && cont_byte(s[i + 2]) {
                i = i + 3;
            } else {
                return false;
            }
        } else if b0 < 0xF5 {
            if n - i < 4 {
                return false;
            }
            let b1 = s[i + 1];
            let ok1 = if b0 == 0xF0 {
                0x90 <= b1 && b1 < 0xC0
            } else if b0 == 0xF4 {
                0x80 <= b1 && b1 < 0x90
            } else {
                cont_byte(b1)
            };
            if ok1 && cont_byte(s[i + 2]) && cont_byte(s[i + 3]) {
                i = i + 4;
            } else {
                return false;
            }
        } else {
            return false;
        }
    }
    true
}

/// `s` with its trailing ASCII whitespace removed.
pub open spec fn trim_end(s: Seq<u8>) -> Seq<u8>
    decreases s.len(),
{
    if s.len() > 0 && is_ascii_ws(s.last()) {
        trim_end(s.drop_last())
    } else {
        s
    }
}

/// Every byte of `s` is an ASCII decimal digit.
pub open spec fn all_digits(s: Seq<u8>) -> bool {
    forall|j: int| 0 <= j < s.len() ==> is_ascii_digit(#[trigger] s[j])
}

/// The value of a string of ASCII decimal digits, most significant first.
pub open spec fn digits_value(s: Seq<u8>) -> int
    decreases s.len(),
{
    if s.len() == 0 {
        0
    } else {
        digits_value(s.drop_last()) * 10 + (s.last() - 48)
    }
}

/// What parsing a decimal unsigned integer with trailing whitespace yields:
/// the digits' value when the trimmed content is a nonempty digit string
/// whose value fits in `usize`, and nothing otherwise.
pub open spec fn spec_parse_decimal(s: Seq<u8>) -> Option<usize> {
    let t = trim_end(s);
    if t.len() == 0 || !all_digits(t) {
        None
    } else if digits_value(t) > usize::MAX {
        None
    } else {
        Some(digits_value(t) as usize)
    }
}

pub proof fn lemma_digits_value_nonneg(s: Seq<u8>)
    requires
        all_digits(s),
    ensures
        digits_value(s) >= 0,
    decreases s.len(),
{
    if s.len() > 0 {
        assert(all_digits(s.drop_last()));
        lemma_digits_value_nonneg(s.drop_last());
    }
}

/// A digit string's value is at least the value of any of its prefixes.
pub proof fn lemma_digits_value_prefix_le(s: Seq<u8>, j: int)
    requires
        all_digits(s),
        0 <= j <= s.len(),
    ensures
        digits_value(s.take(j)) <= digits_value(s),
    decreases s.len(),
{
    if j < s.len() {
        assert(s.take(j) =~= s.drop_last().take(j));
        assert(all_digits(s.drop_last()));
        lemma_digits_value_prefix_le(s.drop_last(), j);
        lemma_digits_value_nonneg(s.drop_last());
    } else {
        assert(s.take(j) =~= s);
    }
}

/// `s[i - 1]` is ASCII whitespace.
fn ws_before(s: &Vec<u8>, i: usize) -> (r: bool)
    requires
        0 < i <= s@.len(),
    ensures
        r == is_ascii_ws(s@[i - 1]),
{
    let b = s[i - 1];
    b == 32 || b == 9 || b == 10 || b == 12 || b == 13
}

/// Parses a decimal unsigned integer, permitting trailing ASCII whitespace.
pub fn parse_decimal(s: &Vec<u8>) -> (r: Option<usize>)
    ensures
        r == spec_parse_decimal(s@),
{
    let mut end: usize = s.len();
    proof {
        assert(s@.take(end as int) =~= s@);
    }
    while end > 0 && ws_before(s, end)
        invariant
            end <= s@.len(),
            trim_end(s@) == trim_end(s@.take(end as int)),
        decreases end,
    {
        proof {
            assert(s@.take(end as int).last() == s@[end - 1]);
            assert(s@.take(end as int).drop_last() =~= s@.take(end - 1));
        }
        end = end - 1;
    }
    let ghost t = trim_end(s@);
    proof {
        if end > 0 {
            assert(s@.take(end as int).last() == s@[end - 1]);
        }
        assert(t =~= s@.take(end as int));
    }
    if end == 0 {
        return None;
    }
    let mut acc: usize = 0;
    let mut i: usize = 0;
    while i < end
        invariant
            0 < end <= s@.len(),
            i <= end,
            t == s@.take(end as int),
            t == trim_end(s@),
            all_digits(t.take(i as int)),
            acc == digits_value(t.take(i as int)),
        decreases end - i,
    {
        let b = s[i];
        proof {
            assert(t[i as int] == s@[i as int]);
        }
        if b < 48 || b > 57 {
            proof {
                assert(!is_ascii_digit(t[i as int]));
            }
            return None;
        }
        let d = (b - 48) as usize;
        proof {
            assert(t.take(i + 1).drop_last() =~= t.take(i as int));
            assert(t.take(i + 1).last() == t[i as int]);
            assert(all_digits(t.take(i + 1)));
        }
        if acc > (usize::MAX - d) / 10 {
            proof {
                assert(acc * 10 + d > usize::MAX) by (nonlinear_arith)
                    requires
                        acc > (usize::MAX - d) / 10,
                        0 <= d <= usize::MAX,
                ;
                assert(digits_value(t.take(i + 1)) == acc * 10 + d);
                if all_digits(t) {
                    lemma_digits_value_prefix_le(t, i + 1);
                    assert(digits_value(t) > usize::MAX);
                }
            }
            return None;
        }
        proof {
            assert(acc * 10 + d <= usize::MAX) by (nonlinear_arith)
                requires
                    acc <= (usize::MAX - d) / 10,
                    0 <= d <= usize::MAX,
            ;
        }
        acc = acc * 10 + d;
        i = i + 1;
    }
    proof {
        assert(t.take(end as int) =~= t);
    }
    Some(acc)
}

} // verus!
