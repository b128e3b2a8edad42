//! The program load format: a flat list of signed decimal integers
//! separated by commas, with optional surrounding whitespace.  A
//! failure on any token is fatal at load time, before any execution.

use vstd::prelude::*;

verus! {

/// Why a program text was rejected.
#[derive(Clone, Copy, Debug, PartialEq, Eq, Structural)]
pub enum LoadFault {
    /// A token is empty, has a stray character, or holds no digit.
    BadToken,
    /// A token's value leaves the signed 64-bit range.
    ValueOutOfRange,
}

pub open spec fn is_space(b: u8) -> bool {
    b == 32 || b == 9 || b == 10 || b == 13
}

pub open spec fn is_digit(b: u8) -> bool {
    48 <= b <= 57
}

/// The text with leading whitespace dropped.
pub open spec fn trim_front(s: Seq<u8>) -> Seq<u8>
    decreases s.len(),
{
    if s.len() > 0 && is_space(s.first()) {
        trim_front(s.drop_first())
    } else {
        s
    }
}

/// The text with trailing whitespace dropped.
pub open spec fn trim_back(s: Seq<u8>) -> Seq<u8>
    decreases s.len(),
{
    if s.len() > 0 && is_space(s.last()) {
        trim_back(s.drop_last())
    } else {
        s
    }
}

/// One token's digits, folded left to right with the token's sign,
/// rejecting anything but digits and any value outside the 64-bit
/// range.
pub open spec fn token_digits(tok: Seq<u8>, i: int, acc: int, neg: bool) -> Option<i64>
    decreases tok.len() - i,
{
    if i >= tok.len() {
        Some(acc as i64)
    } else if !is_digit(tok[i]) {
        None
    } else {
        let d = tok[i] - 48;
        let next = if neg {
            acc * 10 - d
        } else {
            acc * 10 + d
        };
        if next < i64::MIN || next > i64::MAX {
            None
        } else {
            token_digits(tok, i + 1, next, neg)
        }
    }
}

/// One token's value: an optional sign, then at least one digit.
pub open spec fn token_value(tok: Seq<u8>) -> Option<i64> {
    if tok.len() == 0 {
        None
    } else if tok[0] == 45 || tok[0] == 43 {
        if tok.len() == 1 {
            None
        } else {
            token_digits(tok, 1, 0, tok[0] == 45)
        }
    } else {
        token_digits(tok, 0, 0, false)
    }
}

/// The comma-separated values of the trimmed text, each token parsed
/// in full; the first bad token rejects the whole text.
pub open spec fn parse_values(s: Seq<u8>) -> Option<Seq<i64>>
    decreases s.len(),
{
    if !(exists|i: int| 0 <= i < s.len() && s[i] == 44) {
        match token_value(s) {
            Some(v) => Some(seq![v]),
            None => None,
        }
    } else {
        let c = first_comma(s, 0);
        if 0 <= c < s.len() {
            match token_value(s.take(c)) {
                Some(v) => {
                    match parse_values(s.skip(c + 1)) {
                        Some(rest) => Some(seq![v] + rest),
                        None => None,
                    }
                },
                None => None,
            }
        } else {
            None
        }
    }
}

/// The position of the first comma at or after `i`.
pub open spec fn first_comma(s: Seq<u8>, i: int) -> int
    decreases s.len() - i,
{
    if i >= s.len() {
        i
    } else if s[i] == 44 {
        i
    } else {
        first_comma(s, i + 1)
    }
}

/// What a whole program text means: its trimmed body, split on
/// commas, every token a signed decimal integer.
pub open spec fn parse_program_spec(bytes: Seq<u8>) -> Option<Seq<i64>> {
    parse_values(trim_back(trim_front(bytes)))
}

/// Loads a program text: trims surrounding whitespace, splits the
/// body on commas, and parses every token as a signed decimal
/// integer.  Success is owed exactly when every token parses.
pub fn parse_program(bytes: &Vec<u8>) -> (r: Result<Vec<i64>, LoadFault>)
    ensures
        match r {
            Ok(v) => parse_program_spec(bytes@) == Some(v@),
            Err(_) => parse_program_spec(bytes@) is None,
        },
{
    let mut lo: usize = 0;
    let mut hi: usize = bytes.len();
    proof {
        assert(bytes@.skip(0) =~= bytes@);
    }
    while lo < hi && is_space_exec(bytes[lo])
        invariant
            0 <= lo <= hi <= bytes@.len(),
            hi == bytes@.len(),
            trim_front(bytes@) == trim_front(bytes@.skip(lo as int)),
        decreases hi - lo,
    {
        proof {
            assert(bytes@.skip(lo as int).drop_first() =~= bytes@.skip(lo + 1));
        }
        lo = lo + 1;
    }
    proof {
        assert(trim_front(bytes@) =~= bytes@.skip(lo as int));
        assert(bytes@.subrange(lo as int, hi as int) =~= bytes@.skip(lo as int));
    }
    while hi > lo && is_space_exec(bytes[hi - 1])
        invariant
            0 <= lo <= hi <= bytes@.len(),
            trim_front(bytes@) == bytes@.skip(lo as int),
            trim_back(bytes@.skip(lo as int)) == trim_back(bytes@.subrange(lo as int, hi as int)),
        decreases hi,
    {
        proof {
            assert(bytes@.subrange(lo as int, hi as int).drop_last() =~= bytes@.subrange(
                lo as int,
                hi as int - 1,
            ));
            assert(bytes@.subrange(lo as int, hi as int).last() == bytes@[hi as int - 1]);
        }
        hi = hi - 1;
    }
    let ghost body = bytes@.subrange(lo as int, hi as int);
    proof {
        assert(trim_back(bytes@.subrange(lo as int, hi as int)) =~= bytes@.subrange(
            lo as int,
            hi as int,
        ));
        assert(parse_program_spec(bytes@) == parse_values(body));
    }
    let mut out: Vec<i64> = Vec::new();
    let mut start: usize = lo;
    loop
        invariant
            lo <= start <= hi <= bytes@.len(),
            body == bytes@.subrange(lo as int, hi as int),
            parse_program_spec(bytes@) == parse_values(body),
            start == lo || bytes@[start as int - 1] == 44,
            parse_values(body) == (match parse_values(bytes@.subrange(start as int, hi as int)) {
                Some(rest) => Some(out@ + rest),
                None => None::<Seq<i64>>,
            }),
        decreases hi - start,
    {
        // find the next comma, or the end
        let mut end: usize = start;
        while end < hi && bytes[end] != 44
            invariant
                start <= end <= hi <= bytes@.len(),
                forall|q: int| start <= q < end ==> bytes@[q] != 44,
            decreases hi - end,
        {
            end = end + 1;
        }
        let ghost seg = bytes@.subrange(start as int, hi as int);
        let ghost tok = bytes@.subrange(start as int, end as int);
        let ghost out_pre = out@;
        let v = match parse_token(bytes, start, end) {
            Ok(v) => v,
            Err(f) => {
                proof {
                    lemma_segment_split(bytes@, start as int, end as int, hi as int);
                    assert(parse_values(seg) is None);
                }
                return Err(f);
            },
        };
        out.push(v);
        proof {
            lemma_segment_split(bytes@, start as int, end as int, hi as int);
        }
        if end == hi {
            proof {
                assert(parse_values(seg) == Some(seq![v]));
                assert(out_pre + seq![v] =~= out@);
            }
            return Ok(out);
        }
        proof {
            let rest_seg = bytes@.subrange(end + 1, hi as int);
            assert(parse_values(seg) == (match parse_values(rest_seg) {
                Some(rest) => Some(seq![v] + rest),
                None => None::<Seq<i64>>,
            }));
            if parse_values(rest_seg) is Some {
                assert(out_pre + (seq![v] + parse_values(rest_seg).unwrap()) =~= out@
                    + parse_values(rest_seg).unwrap());
            }
        }
        start = end + 1;
    }
}

/// Splitting the remaining text at its first comma, or taking it
/// whole, matches the specification's recursion.
proof fn lemma_segment_split(bytes: Seq<u8>, start: int, end: int, hi: int)
    requires
        0 <= start <= end <= hi <= bytes.len(),
        forall|q: int| start <= q < end ==> bytes[q] != 44,
        end < hi ==> bytes[end] == 44,
    ensures
        end == hi ==> !(exists|i: int|
            0 <= i < bytes.subrange(start, hi).len() && bytes.subrange(start, hi)[i] == 44)
            && token_value(bytes.subrange(start, hi)) == token_value(bytes.subrange(start, end)),
        end < hi ==> (exists|i: int|
            0 <= i < bytes.subrange(start, hi).len() && bytes.subrange(start, hi)[i] == 44)
            && first_comma(bytes.subrange(start, hi), 0) == end - start && bytes.subrange(
            start,
            hi,
        ).take(end - start) =~= bytes.subrange(start, end) && bytes.subrange(start, hi).skip(
            end - start + 1,
        ) =~= bytes.subrange(end + 1, hi),
{
    let seg = bytes.subrange(start, hi);
    if end == hi {
        assert(forall|i: int| 0 <= i < seg.len() ==> seg[i] == bytes[start + i] && seg[i] != 44);
        assert(bytes.subrange(start, hi) =~= bytes.subrange(start, end));
    } else {
        assert(seg[end - start] == 44);
        lemma_first_comma(seg, 0, end - start);
        assert(seg.take(end - start) =~= bytes.subrange(start, end));
        assert(seg.skip(end - start + 1) =~= bytes.subrange(end + 1, hi));
    }
}

/// The first comma really is the first.
proof fn lemma_first_comma(s: Seq<u8>, i: int, c: int)
    requires
        0 <= i <= c < s.len(),
        s[c] == 44,
        forall|q: int| i <= q < c ==> s[q] != 44,
    ensures
        first_comma(s, i) == c,
    decreases c - i,
{
    if i < c {
        lemma_first_comma(s, i + 1, c);
    }
}

fn is_space_exec(b: u8) -> (r: bool)
    ensures
        r == is_space(b),
{
    b == 32 || b == 9 || b == 10 || b == 13
}

/// Parses the token standing at `bytes[start..end]`.
pub(crate) fn parse_token(bytes: &Vec<u8>, start: usize, end: usize) -> (r: Result<i64, LoadFault>)
    requires
        start <= end <= bytes@.len(),
    ensures
        match r {
            Ok(v) => token_value(bytes@.subrange(start as int, end as int)) == Some(v),
            Err(_) => token_value(bytes@.subrange(start as int, end as int)) is None,
        },
{
    let ghost tok = bytes@.subrange(start as int, end as int);
    if start == end {
        return Err(LoadFault::BadToken);
    }
    let first: u8 = bytes[start];
    let neg: bool = first == 45;
    let mut i: usize = if first == 45 || first == 43 {
        if start + 1 == end {
            return Err(LoadFault::BadToken);
        }
        start + 1
    } else {
        start
    };
    let ghost i0 = i as int;
    let mut acc: i64 = 0;
    while i < end
        invariant
            start <= i0 <= i <= end <= bytes@.len(),
            tok == bytes@.subrange(start as int, end as int),
            i0 == (if tok[0] == 45 || tok[0] == 43 {
                start + 1
            } else {
                start as int
            }),
            neg == (tok[0] == 45),
            neg ==> acc <= 0,
            !neg ==> acc >= 0,
            token_digits(tok, i0 - start, 0, neg) == token_digits(tok, i as int - start, acc as int, neg),
        decreases end - i,
    {
        let b: u8 = bytes[i];
        proof {
            assert(tok[i as int - start] == b);
        }
        if !(48 <= b && b <= 57) {
            return Err(LoadFault::BadToken);
        }
        let d: i64 = (b - 48) as i64;
        let ghost spec_next: int = if neg {
            acc * 10 - d
        } else {
            acc * 10 + d
        };
        let next: Option<i64> = if acc >= -922337203685477580 && acc <= 922337203685477580 {
            Some(
                if neg {
                    match (acc * 10).checked_sub(d) {
                        Some(x) => x,
                        None => {
                            proof {
                                assert(token_digits(tok, i as int - start, acc as int, neg)
                                    is None);
                            }
                            return Err(LoadFault::ValueOutOfRange);
                        },
                    }
                } else {
                    match (acc * 10).checked_add(d) {
                        Some(x) => x,
                        None => {
                            proof {
                                assert(token_digits(tok, i as int - start, acc as int, neg)
                                    is None);
                            }
                            return Err(LoadFault::ValueOutOfRange);
                        },
                    }
                },
            )
        } else {
            None
        };
        acc = match next {
            Some(x) => x,
            None => {
                proof {
                    assert(spec_next < i64::MIN || spec_next > i64::MAX);
                    assert(token_digits(tok, i as int - start, acc as int, neg) is None);
                }
                return Err(LoadFault::ValueOutOfRange);
            },
        };
        proof {
            assert(acc == spec_next);
            assert(token_digits(tok, i0 - start, 0, neg) == token_digits(
                tok,
                i + 1 - start,
                acc as int,
                neg,
            ));
        }
        i = i + 1;
    }
    proof {
        assert(token_digits(tok, end as int - start, acc as int, neg) == Some(acc));
        if tok[0] == 45 || tok[0] == 43 {
            assert(token_value(tok) == token_digits(tok, 1, 0, tok[0] == 45));
        } else {
            assert(token_value(tok) == token_digits(tok, 0, 0, false));
        }
    }
    Ok(acc)
}

} // verus!
