//! Parsing of dataset lines: each line holds one base-10 signed 32-bit
//! integer, optionally surrounded by whitespace. A line that does not
//! is a fatal input error, reported by returning nothing.

use vstd::prelude::*;

verus! {

/// ASCII whitespace, the characters trimmed around a number.
pub open spec fn is_space(c: u8) -> bool {
    c == 32 || c == 9 || c == 10 || c == 11 || c == 12 || c == 13
}

/// An ASCII decimal digit.
pub open spec fn is_digit(c: u8) -> bool {
    48 <= c <= 57
}

/// The value of a digit string, most significant digit first.
pub open spec fn digits_value(d: Seq<u8>) -> int
    decreases d.len(),
{
    if d.len() == 0 {
        0
    } else {
        digits_value(d.drop_last()) * 10 + (d.last() - 48)
    }
}

/// The sequence with its leading whitespace removed.
pub open spec fn trim_front(s: Seq<u8>) -> Seq<u8>
    decreases s.len(),
{
    if s.len() > 0 && is_space(s.first()) {
        trim_front(s.drop_first())
    } else {
        s
    }
}

/// The sequence with its trailing whitespace removed.
pub open spec fn trim_back(s: Seq<u8>) -> Seq<u8>
    decreases s.len(),
{
    if s.len() > 0 && is_space(s.last()) {
        trim_back(s.drop_last())
    } else {
        s
    }
}

/// The sequence with whitespace removed on both sides.
pub open spec fn trimmed(s: Seq<u8>) -> Seq<u8> {
    trim_back(trim_front(s))
}

/// A well-formed integer literal: an optional sign followed by at
/// least one digit, and nothing else.
pub open spec fn is_int_literal(t: Seq<u8>) -> bool {
    &&& t.len() > 0
    &&& if t[0] == 43 || t[0] == 45 {
        t.len() > 1 && (forall|k: int| 1 <= k < t.len() ==> is_digit(#[trigger] t[k]))
    } else {
        forall|k: int| 0 <= k < t.len() ==> is_digit(#[trigger] t[k])
    }
}

/// The signed value of a well-formed integer literal.
pub open spec fn literal_value(t: Seq<u8>) -> int {
    if t.len() > 0 && t[0] == 45 {
        -digits_value(t.subrange(1, t.len() as int))
    } else if t.len() > 0 && t[0] == 43 {
        digits_value(t.subrange(1, t.len() as int))
    } else {
        digits_value(t)
    }
}

/// The line, after trimming, is an integer literal whose value fits a
/// signed 32-bit integer.
pub open spec fn line_ok(s: Seq<u8>) -> bool {
    &&& is_int_literal(trimmed(s))
    &&& i32::MIN as int <= literal_value(trimmed(s)) <= i32::MAX as int
}

/// A digit string's value is never negative.
proof fn lemma_digits_nonneg(d: Seq<u8>)
    requires
        forall|k: int| 0 <= k < d.len() ==> is_digit(#[trigger] d[k]),
    ensures
        digits_value(d) >= 0,
    decreases d.len(),
{
    if d.len() > 0 {
        lemma_digits_nonneg(d.drop_last());
    }
}

/// Reading more digits never shrinks the value.
proof fn lemma_digits_prefix_le(d: Seq<u8>, i: int)
    requires
        0 <= i <= d.len(),
        forall|k: int| 0 <= k < d.len() ==> is_digit(#[trigger] d[k]),
    ensures
        digits_value(d.subrange(0, i)) <= digits_value(d),
    decreases d.len() - i,
{
    if i == d.len() {
        assert(d.subrange(0, i) =~= d);
    } else {
        lemma_digits_prefix_le(d, i + 1);
        assert(d.subrange(0, i + 1).drop_last() =~= d.subrange(0, i));
        assert(forall|k: int| 0 <= k < d.subrange(0, i).len() ==> is_digit(#[trigger] d.subrange(
            0,
            i,
        )[k]));
        lemma_digits_nonneg(d.subrange(0, i));
        assert(digits_value(d.subrange(0, i + 1)) == digits_value(d.subrange(0, i)) * 10 + (
        d.subrange(0, i + 1).last() - 48));
    }
}

/// Whether the byte is ASCII whitespace.
fn byte_is_space(c: u8) -> (b: bool)
    ensures
        b == is_space(c),
{
    c == 32 || c == 9 || c == 10 || c == 11 || c == 12 || c == 13
}

/// Whether the byte is an ASCII decimal digit.
fn byte_is_digit(c: u8) -> (b: bool)
    ensures
        b == is_digit(c),
{
    48 <= c && c <= 57
}

/// Parses one line as a base-10 signed 32-bit integer, after trimming
/// surrounding whitespace. Returns the value exactly when the trimmed
/// line is a well-formed literal in range, and nothing otherwise.
#[verifier::loop_isolation(false)]
pub fn parse_i32(line: &Vec<u8>) -> (r: Option<i32>)
    ensures
        match r {
            Some(v) => line_ok(line@) && v as int == literal_value(trimmed(line@)),
            None => !line_ok(line@),
        },
{
    let n = line.len();
    let ghost s = line@;
    let ghost ni = n as int;

    // trim the front
    proof {
        assert(s.subrange(0, ni) =~= s);
    }
    let mut lo: usize = 0;
    while lo < n && byte_is_space(line[lo])
        invariant
            lo <= n,
            trim_front(s) == trim_front(s.subrange(lo as int, ni)),
        decreases n - lo,
    {
        proof {
            assert(s.subrange(lo as int, ni).drop_first() =~= s.subrange(lo as int + 1, ni));
        }
        lo += 1;
    }
    proof {
        assert(trim_front(s) == s.subrange(lo as int, ni));
    }

    // trim the back
    let mut hi: usize = n;
    while hi > lo && byte_is_space(line[hi - 1])
        invariant
            lo <= hi <= n,
            trim_front(s) == s.subrange(lo as int, ni),
            trimmed(s) == trim_back(s.subrange(lo as int, hi as int)),
        decreases hi,
    {
        proof {
            assert(s.subrange(lo as int, hi as int).drop_last() =~= s.subrange(
                lo as int,
                hi as int - 1,
            ));
        }
        hi -= 1;
    }
    let ghost t = trimmed(s);
    proof {
        assert(t == s.subrange(lo as int, hi as int));
    }

    if lo == hi {
        proof {
            assert(t.len() == 0);
        }
        return None;
    }

    // optional sign
    let c0 = line[lo];
    let negative = c0 == 45;
    let has_sign = c0 == 45 || c0 == 43;
    let dstart = if has_sign {
        lo + 1
    } else {
        lo
    };
    if dstart == hi {
        proof {
            assert(t.len() == 1);
            assert(!is_int_literal(t));
        }
        return None;
    }

    // digits, most significant first
    let ghost dsi = dstart as int;
    let mut acc: u64 = 0;
    let mut k: usize = dstart;
    while k < hi
        invariant
            dstart <= k <= hi,
            acc <= 0x8000_0000u64,
            acc as int == digits_value(s.subrange(dsi, k as int)),
            forall|m: int| dsi <= m < k ==> is_digit(#[trigger] s[m]),
        decreases hi - k,
    {
        let c = line[k];
        if !byte_is_digit(c) {
            proof {
                assert(t[k as int - lo as int] == s[k as int]);
                assert(!is_int_literal(t));
            }
            return None;
        }
        let ghost acc_old = acc;
        acc = acc * 10 + ((c - 48) as u64);
        proof {
            assert(s.subrange(dsi, k as int + 1).drop_last() =~= s.subrange(dsi, k as int));
            assert(acc as int == digits_value(s.subrange(dsi, k as int + 1)));
        }
        if acc > 0x8000_0000u64 {
            proof {
                if line_ok(s) {
                    let d = s.subrange(dsi, hi as int);
                    assert(is_int_literal(t));
                    assert forall|m: int| 0 <= m < d.len() implies is_digit(#[trigger] d[m]) by {
                        assert(d[m] == t[m + dsi - lo]);
                    }
                    assert(d.subrange(0, k as int + 1 - dsi) =~= s.subrange(dsi, k as int + 1));
                    lemma_digits_prefix_le(d, k as int + 1 - dsi);
                    assert(digits_value(d) > 0x8000_0000);
                    if negative {
                        assert(t.subrange(1, t.len() as int) =~= d);
                        assert(literal_value(t) < i32::MIN as int);
                    } else {
                        lemma_digits_nonneg(d);
                        if t[0] == 43 {
                            assert(t.subrange(1, t.len() as int) =~= d);
                        } else {
                            assert(t =~= d);
                        }
                        assert(literal_value(t) > i32::MAX as int);
                    }
                }
            }
            return None;
        }
        k += 1;
    }

    proof {
        let d = s.subrange(dsi, hi as int);
        assert forall|m: int| 1 <= m < t.len() implies is_digit(#[trigger] t[m]) by {
            if m + lo >= dsi {
                assert(t[m] == s[m + lo]);
            }
        }
        assert forall|m: int| 0 <= m < t.len() && !has_sign implies is_digit(
            #[trigger] t[m],
        ) by {
            assert(t[m] == s[m + lo]);
        }
        assert(is_int_literal(t));
        if has_sign {
            assert(t.subrange(1, t.len() as int) =~= d);
        } else {
            assert(t =~= d);
        }
        assert(acc as int == digits_value(d));
        lemma_digits_nonneg(d);
    }
    if negative {
        let v = (0i64 - (acc as i64)) as i32;
        proof {
            assert(literal_value(t) == -(acc as int));
        }
        Some(v)
    } else {
        if acc > 0x7fff_ffffu64 {
            proof {
                assert(literal_value(t) == acc as int);
                assert(literal_value(t) > i32::MAX as int);
            }
            return None;
        }
        let v = acc as i32;
        proof {
            assert(literal_value(t) == acc as int);
        }
        Some(v)
    }
}

/// Parses every line of a dataset. Returns the numbers exactly when
/// every line parses; one bad line fails the whole read, as a fatal
/// input error.
#[verifier::loop_isolation(false)]
pub fn parse_dataset(lines: &Vec<Vec<u8>>) -> (r: Option<Vec<i32>>)
    ensures
        match r {
            Some(v) => {
                &&& v@.len() == lines@.len()
                &&& forall|k: int|
                    0 <= k < lines@.len() ==> line_ok(#[trigger] lines@[k]@) && v@[k] as int
                        == literal_value(trimmed(lines@[k]@))
            },
            None => exists|k: int| 0 <= k < lines@.len() && !line_ok(#[trigger] lines@[k]@),
        },
{
    let mut out: Vec<i32> = Vec::new();
    let mut i: usize = 0;
    while i < lines.len()
        invariant
            i <= lines@.len(),
            out@.len() == i,
            forall|k: int|
                0 <= k < i ==> line_ok(#[trigger] lines@[k]@) && out@[k] as int == literal_value(
                    trimmed(lines@[k]@),
                ),
        decreases lines@.len() - i,
    {
        let parsed = parse_i32(&lines[i]);
        match parsed {
            Some(v) => {
                out.push(v);
            },
            None => {
                return None;
            },
        }
        i += 1;
    }
    Some(out)
}

} // verus!
