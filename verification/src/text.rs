use vstd::prelude::*;

use crate::grid::{digit_val, is_digit_char};

verus! {

/// The blank separator recognized by the number scanners.
pub open spec fn is_space(c: char) -> bool {
    c == ' '
}

/// The meaning of scanning `s` from position `i` for space-separated
/// unsigned decimal numbers, with `cur` the number currently being read
/// and `acc` the numbers already read.  The scan fails on any character
/// that is neither a digit nor a space, and on any number that does not
/// fit in a `u64`.
pub open spec fn num_tokens(s: Seq<char>, i: int, cur: Option<int>, acc: Seq<int>) -> Option<
    Seq<int>,
>
    decreases s.len() - i,
{
    if i < 0 || i >= s.len() {
        match cur {
            Some(v) => Some(acc.push(v)),
            None => Some(acc),
        }
    } else if is_space(s[i]) {
        match cur {
            Some(v) => num_tokens(s, i + 1, None, acc.push(v)),
            None => num_tokens(s, i + 1, None, acc),
        }
    } else if is_digit_char(s[i]) {
        let v = (match cur {
            Some(v) => v,
            None => 0int,
        }) * 10 + digit_val(s[i]);
        if v > u64::MAX {
            None
        } else {
            num_tokens(s, i + 1, Some(v), acc)
        }
    } else {
        None
    }
}

/// The space-separated numbers of `s` from position `start` on.
pub open spec fn nums_of_from(s: Seq<char>, start: int) -> Option<Seq<int>> {
    num_tokens(s, start, None, Seq::empty())
}

/// The space-separated numbers of the whole of `s`.
pub open spec fn nums_of(s: Seq<char>) -> Option<Seq<int>> {
    nums_of_from(s, 0)
}

/// The view of a number vector as mathematical integers.
pub open spec fn vals(v: Seq<u64>) -> Seq<int> {
    v.map_values(|x: u64| x as int)
}

/// The meaning of reading `s` from position `i` as one unsigned decimal
/// number whose digits may be interrupted by spaces (spaces are simply
/// ignored, as when reading a number typeset in groups).
pub open spec fn glued_num(s: Seq<char>, i: int, cur: int) -> Option<int>
    decreases s.len() - i,
{
    if i < 0 || i >= s.len() {
        Some(cur)
    } else if is_space(s[i]) {
        glued_num(s, i + 1, cur)
    } else if is_digit_char(s[i]) {
        let v = cur * 10 + digit_val(s[i]);
        if v > u64::MAX {
            None
        } else {
            glued_num(s, i + 1, v)
        }
    } else {
        None
    }
}

/// Every character of `s` is an ASCII digit.
pub open spec fn all_digits(s: Seq<char>) -> bool {
    forall|i: int| 0 <= i < s.len() ==> is_digit_char(#[trigger] s[i])
}

/// The numeric value of a digit string, most significant digit first.
pub open spec fn digits_val(s: Seq<char>) -> int
    decreases s.len(),
{
    if s.len() == 0 {
        0
    } else {
        digits_val(s.drop_last()) * 10 + digit_val(s[s.len() - 1])
    }
}

/// Digit strings denote nonnegative values.
pub proof fn lemma_digits_val_nonneg(s: Seq<char>)
    requires
        all_digits(s),
    ensures
        digits_val(s) >= 0,
    decreases s.len(),
{
    if s.len() > 0 {
        assert(all_digits(s.drop_last())) by {
            assert(forall|i: int| 0 <= i < s.len() - 1 ==> s.drop_last()[i] == #[trigger] s[i]);
        }
        lemma_digits_val_nonneg(s.drop_last());
        assert(is_digit_char(s[s.len() - 1]));
    }
}

/// A prefix of a digit string denotes no more than the whole string.
pub proof fn lemma_digits_val_prefix_le(s: Seq<char>, n: int)
    requires
        all_digits(s),
        0 <= n <= s.len(),
    ensures
        digits_val(s.subrange(0, n)) <= digits_val(s),
    decreases s.len() - n,
{
    if n == s.len() {
        assert(s.subrange(0, n) =~= s);
    } else {
        let a = s.subrange(0, n);
        let b = s.subrange(0, n + 1);
        assert(b.drop_last() =~= a);
        assert(b[b.len() - 1] == s[n]);
        assert(all_digits(a)) by {
            assert(forall|i: int| 0 <= i < n ==> a[i] == #[trigger] s[i]);
        }
        lemma_digits_val_nonneg(a);
        assert(is_digit_char(s[n]));
        lemma_digits_val_prefix_le(s, n + 1);
    }
}

/// Scans `s` from `start` for space-separated unsigned numbers.
/// Succeeds with exactly the numbers `nums_of_from` denotes, and fails
/// exactly when that denotation fails (a stray character, or a number
/// too large for `u64`).
pub fn parse_nums_from(s: &str, start: usize) -> (r: Option<Vec<u64>>)
    ensures
        match r {
            Some(v) => nums_of_from(s@, start as int) == Some(vals(v@)),
            None => nums_of_from(s@, start as int) is None,
        },
{
    let n = s.unicode_len();
    let mut acc: Vec<u64> = Vec::new();
    let mut cur: Option<u64> = None;
    let mut i = start;
    if i > n {
        proof {
            assert(nums_of_from(s@, start as int) == Some(vals(acc@)));
            assert(vals(acc@) =~= Seq::<int>::empty());
        }
        return Some(acc);
    }
    proof {
        assert(vals(acc@) =~= Seq::<int>::empty());
    }
    while i < n
        invariant
            start <= i <= n,
            n == s@.len(),
            nums_of_from(s@, start as int) == num_tokens(
                s@,
                i as int,
                match cur {
                    Some(v) => Some(v as int),
                    None => None,
                },
                vals(acc@),
            ),
        decreases n - i,
    {
        let c = s.get_char(i);
        let ghost acc0 = acc@;
        if c == ' ' {
            match cur {
                Some(v) => {
                    acc.push(v);
                    cur = None;
                    proof {
                        assert(vals(acc@) =~= vals(acc0).push(v as int));
                    }
                },
                None => {},
            }
        } else {
            let code = c as u32;
            if code < 48 || code > 57 {
                return None;
            }
            let d = (code - 48) as u64;
            let base = match cur {
                Some(v) => v,
                None => 0,
            };
            match base.checked_mul(10) {
                Some(m) => match m.checked_add(d) {
                    Some(v) => {
                        cur = Some(v);
                    },
                    None => {
                        return None;
                    },
                },
                None => {
                    return None;
                },
            }
        }
        i = i + 1;
    }
    let r = match cur {
        Some(v) => {
            let ghost acc0 = acc@;
            acc.push(v);
            proof {
                assert(vals(acc@) =~= vals(acc0).push(v as int));
            }
            acc
        },
        None => acc,
    };
    Some(r)
}

/// Scans the whole of `s` for space-separated unsigned numbers.
pub fn parse_nums(s: &str) -> (r: Option<Vec<u64>>)
    ensures
        match r {
            Some(v) => nums_of(s@) == Some(vals(v@)),
            None => nums_of(s@) is None,
        },
{
    parse_nums_from(s, 0)
}

/// Reads `s` from `start` as one number whose digits may be separated by
/// spaces; fails exactly when `glued_num` does.
pub fn parse_glued_num(s: &str, start: usize) -> (r: Option<u64>)
    ensures
        match r {
            Some(v) => glued_num(s@, start as int, 0) == Some(v as int),
            None => glued_num(s@, start as int, 0) is None,
        },
{
    let n = s.unicode_len();
    let mut cur: u64 = 0;
    let mut i = start;
    if i > n {
        return Some(0);
    }
    while i < n
        invariant
            start <= i <= n,
            n == s@.len(),
            glued_num(s@, start as int, 0) == glued_num(s@, i as int, cur as int),
        decreases n - i,
    {
        let c = s.get_char(i);
        if c == ' ' {
        } else {
            let code = c as u32;
            if code < 48 || code > 57 {
                return None;
            }
            let d = (code - 48) as u64;
            match cur.checked_mul(10) {
                Some(m) => match m.checked_add(d) {
                    Some(v) => {
                        cur = v;
                    },
                    None => {
                        return None;
                    },
                },
                None => {
                    return None;
                },
            }
        }
        i = i + 1;
    }
    Some(cur)
}

/// The meaning of scanning `s` from position `i` for space-separated
/// signed decimal numbers.  The token state is `None` between tokens,
/// `Some((neg, None))` after a bare sign, and `Some((neg, Some(mag)))`
/// once digits have been read.  The scan fails on a stray character, a
/// sign without digits, and any value outside `i64` range.
pub open spec fn inum_tokens(
    s: Seq<char>,
    i: int,
    cur: Option<(bool, Option<int>)>,
    acc: Seq<int>,
) -> Option<Seq<int>>
    decreases s.len() - i,
{
    if i < 0 || i >= s.len() {
        match cur {
            None => Some(acc),
            Some((neg, m)) => match m {
                Some(mag) => Some(
                    acc.push(
                        if neg {
                            -mag
                        } else {
                            mag
                        },
                    ),
                ),
                None => None,
            },
        }
    } else if is_space(s[i]) {
        match cur {
            None => inum_tokens(s, i + 1, None, acc),
            Some((neg, m)) => match m {
                Some(mag) => inum_tokens(
                    s,
                    i + 1,
                    None,
                    acc.push(
                        if neg {
                            -mag
                        } else {
                            mag
                        },
                    ),
                ),
                None => None,
            },
        }
    } else if s[i] == '-' {
        match cur {
            None => inum_tokens(s, i + 1, Some((true, None)), acc),
            Some(_) => None,
        }
    } else if is_digit_char(s[i]) {
        let neg = match cur {
            None => false,
            Some((n, _)) => n,
        };
        let mag0 = match cur {
            None => 0int,
            Some((_, m)) => match m {
                Some(v) => v,
                None => 0int,
            },
        };
        let v = mag0 * 10 + digit_val(s[i]);
        if (neg && v > 0x8000_0000_0000_0000) || (!neg && v > i64::MAX) {
            None
        } else {
            inum_tokens(s, i + 1, Some((neg, Some(v))), acc)
        }
    } else {
        None
    }
}

/// The space-separated signed numbers of the whole of `s`.
pub open spec fn inums_of(s: Seq<char>) -> Option<Seq<int>> {
    inum_tokens(s, 0, None, Seq::empty())
}

/// The view of a signed number vector as mathematical integers.
pub open spec fn ivals(v: Seq<i64>) -> Seq<int> {
    v.map_values(|x: i64| x as int)
}

/// Scans the whole of `s` for space-separated signed numbers; succeeds
/// with exactly the numbers `inums_of` denotes, and fails exactly when
/// that denotation fails.
pub fn parse_inums(s: &str) -> (r: Option<Vec<i64>>)
    ensures
        match r {
            Some(v) => inums_of(s@) == Some(ivals(v@)),
            None => inums_of(s@) is None,
        },
{
    let n = s.unicode_len();
    let mut acc: Vec<i64> = Vec::new();
    let mut neg = false;
    let mut mag: u64 = 0;
    let mut started = false;
    let mut has_digit = false;
    let mut i: usize = 0;
    proof {
        assert(ivals(acc@) =~= Seq::<int>::empty());
    }
    while i < n
        invariant
            0 <= i <= n,
            n == s@.len(),
            started || (!neg && mag == 0 && !has_digit),
            has_digit ==> started,
            !has_digit ==> mag == 0,
            !neg ==> mag <= i64::MAX,
            neg ==> mag <= 0x8000_0000_0000_0000,
            inums_of(s@) == inum_tokens(
                s@,
                i as int,
                if started {
                    Some(
                        (
                            neg,
                            if has_digit {
                                Some(mag as int)
                            } else {
                                None
                            },
                        ),
                    )
                } else {
                    None
                },
                ivals(acc@),
            ),
        decreases n - i,
    {
        let c = s.get_char(i);
        let ghost acc0 = acc@;
        if c == ' ' {
            if started {
                if !has_digit {
                    return None;
                }
                let v: i64 = if neg {
                    if mag == 0x8000_0000_0000_0000 {
                        i64::MIN
                    } else {
                        -(mag as i64)
                    }
                } else {
                    mag as i64
                };
                acc.push(v);
                proof {
                    assert(ivals(acc@) =~= ivals(acc0).push(v as int));
                }
                started = false;
                neg = false;
                mag = 0;
                has_digit = false;
            }
        } else if c == '-' {
            if started {
                return None;
            }
            started = true;
            neg = true;
        } else {
            let code = c as u32;
            if code < 48 || code > 57 {
                return None;
            }
            let d = (code - 48) as u64;
            let next = match mag.checked_mul(10) {
                Some(m) => m.checked_add(d),
                None => None,
            };
            let v2 = match next {
                Some(v2) => v2,
                None => {
                    return None;
                },
            };
            if neg && v2 > 0x8000_0000_0000_0000 {
                return None;
            }
            if !neg && v2 > i64::MAX as u64 {
                return None;
            }
            started = true;
            has_digit = true;
            mag = v2;
        }
        i = i + 1;
    }
    if started {
        if !has_digit {
            return None;
        }
        let v: i64 = if neg {
            if mag == 0x8000_0000_0000_0000 {
                i64::MIN
            } else {
                -(mag as i64)
            }
        } else {
            mag as i64
        };
        let ghost acc0 = acc@;
        acc.push(v);
        proof {
            assert(ivals(acc@) =~= ivals(acc0).push(v as int));
        }
    }
    Some(acc)
}

/// Does `s` start at `at` with the characters of `prefix`?
pub fn starts_with_at(s: &str, prefix: &str, at: usize) -> (r: bool)
    ensures
        r <==> (at + prefix@.len() <= s@.len() && s@.subrange(
            at as int,
            at + prefix@.len(),
        ) == prefix@),
{
    let n = s.unicode_len();
    let m = prefix.unicode_len();
    if at > n || m > n - at {
        proof {
            assert(at + prefix@.len() > s@.len());
        }
        return false;
    }
    let mut i: usize = 0;
    while i < m
        invariant
            0 <= i <= m,
            m == prefix@.len(),
            n == s@.len(),
            at + m <= n,
            forall|k: int| 0 <= k < i ==> s@[at + k] == prefix@[k],
        decreases m - i,
    {
        if s.get_char(at + i) != prefix.get_char(i) {
            proof {
                assert(s@.subrange(at as int, at + prefix@.len())[i as int] != prefix@[i as int]);
            }
            return false;
        }
        i = i + 1;
    }
    proof {
        assert(s@.subrange(at as int, at + prefix@.len()) =~= prefix@);
    }
    true
}

} // verus!
