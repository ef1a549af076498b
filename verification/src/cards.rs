use vstd::prelude::*;

use crate::oasis::{lemma_p2_mono, lemma_p2_pos, p2};
use crate::text::{digits_val, nums_of, nums_of_from, parse_nums, starts_with_at, vals};
use crate::workflows::{digits_end, lemma_digits_end_range};

verus! {

/// A scratch card: its number, the winning numbers, and the numbers we
/// hold (each list as printed, duplicates and all).
#[derive(Debug, PartialEq, Eq)]
pub struct Card {
    pub id: u32,
    pub wins: Vec<u32>,
    pub tips: Vec<u32>,
}

/// The view of a small-number vector as mathematical integers.
pub open spec fn uvals(v: Seq<u32>) -> Seq<int> {
    v.map_values(|x: u32| x as int)
}

/// How many distinct held numbers appear among the winning numbers:
/// each held value is counted at its first occurrence only, and only if
/// the winning list contains it.
pub open spec fn match_count(tips: Seq<int>, wins: Seq<int>, n: int) -> int
    decreases n,
{
    if n <= 0 {
        0
    } else {
        match_count(tips, wins, n - 1) + if wins.contains(tips[n - 1]) && !tips.subrange(
            0,
            n - 1,
        ).contains(tips[n - 1]) {
            1int
        } else {
            0int
        }
    }
}

/// The first position at or after `i` that is not a space.
pub open spec fn spaces_end(s: Seq<char>, i: int) -> int
    decreases s.len() - i,
{
    if i < 0 || i >= s.len() || s[i] != ' ' {
        i
    } else {
        spaces_end(s, i + 1)
    }
}

/// The first position at or after `i` where the separator " | " stands,
/// or the length of `s` when there is none.
pub open spec fn find_sep(s: Seq<char>, i: int) -> int
    decreases s.len() - i,
{
    if i < 0 || i + 3 > s.len() {
        s.len() as int
    } else if s[i] == ' ' && s[i + 1] == '|' && s[i + 2] == ' ' {
        i
    } else {
        find_sep(s, i + 1)
    }
}

/// Every value fits in `u32`.
pub open spec fn fits_u32(vs: Seq<int>) -> bool {
    forall|i: int| 0 <= i < vs.len() ==> 0 <= #[trigger] vs[i] <= u32::MAX
}

/// A card line: the word `Card`, spaces, the card number, a colon and a
/// space, the winning numbers, the separator ` | `, and the held
/// numbers, all values fitting in `u32`.
pub open spec fn card_spec(s: Seq<char>) -> Option<(int, Seq<int>, Seq<int>)> {
    if s.len() >= 4 && s.subrange(0, 4) == "Card"@ {
        let a = spaces_end(s, 4);
        let e = digits_end(s, a);
        if a > 4 && e > a && digits_val(s.subrange(a, e)) <= u32::MAX && e + 2 <= s.len() && s[e]
            == ':' && s[e + 1] == ' ' {
            let sep = find_sep(s, e + 2);
            if sep + 3 <= s.len() {
                match (nums_of(s.subrange(e + 2, sep)), nums_of_from(s, sep + 3)) {
                    (Some(ws), Some(ts)) => {
                        if fits_u32(ws) && fits_u32(ts) {
                            Some((digits_val(s.subrange(a, e)), ws, ts))
                        } else {
                            None
                        }
                    },
                    _ => None,
                }
            } else {
                None
            }
        } else {
            None
        }
    } else {
        None
    }
}

/// Narrows scanned numbers to `u32`, failing on any that does not fit.
fn narrow_u32(v: &Vec<u64>) -> (r: Option<Vec<u32>>)
    ensures
        match r {
            Some(w) => uvals(w@) == vals(v@) && fits_u32(vals(v@)),
            None => !fits_u32(vals(v@)),
        },
{
    let mut w: Vec<u32> = Vec::new();
    let mut i: usize = 0;
    while i < v.len()
        invariant
            0 <= i <= v@.len(),
            w@.len() == i,
            forall|k: int| 0 <= k < i ==> #[trigger] w@[k] as int == v@[k] as int,
            forall|k: int| 0 <= k < i ==> 0 <= #[trigger] v@[k] <= u32::MAX,
        decreases v@.len() - i,
    {
        if v[i] > u32::MAX as u64 {
            proof {
                assert(vals(v@)[i as int] == v@[i as int] as int);
            }
            return None;
        }
        w.push(v[i] as u32);
        i = i + 1;
    }
    proof {
        assert(uvals(w@) =~= vals(v@));
        assert(forall|k: int| 0 <= k < v@.len() ==> vals(v@)[k] == #[trigger] v@[k] as int);
    }
    Some(w)
}

/// Reads one scratch-card line; fails exactly when `card_spec` does.
pub fn parse_card(line: &str) -> (r: Option<Card>)
    ensures
        match r {
            Some(c) => card_spec(line@) == Some((c.id as int, uvals(c.wins@), uvals(c.tips@))),
            None => card_spec(line@) is None,
        },
{
    let n = line.unicode_len();
    if !starts_with_at(line, "Card", 0) {
        proof {
            if line@.len() >= 4 {
                assert(line@.subrange(0, 4) != "Card"@);
            }
        }
        return None;
    }
    proof {
        reveal_strlit("Card");
    }
    let mut a: usize = 4;
    while a < n && line.get_char(a) == ' '
        invariant
            4 <= a <= n,
            n == line@.len(),
            spaces_end(line@, 4) == spaces_end(line@, a as int),
        decreases n - a,
    {
        a = a + 1;
    }
    if a == 4 {
        return None;
    }
    let mut e: usize = a;
    while e < n && line.get_char(e) as u32 >= 48 && line.get_char(e) as u32 <= 57
        invariant
            a <= e <= n,
            n == line@.len(),
            digits_end(line@, a as int) == digits_end(line@, e as int),
        decreases n - e,
    {
        e = e + 1;
    }
    if e == a {
        return None;
    }
    proof {
        lemma_digits_end_range(line@, a as int);
        assert(crate::text::all_digits(line@.subrange(a as int, e as int))) by {
            assert(forall|k: int|
                0 <= k < e - a ==> line@.subrange(a as int, e as int)[k] == #[trigger] line@[a
                    + k]);
        }
    }
    let mut id: u32 = 0;
    let mut k = a;
    while k < e
        invariant
            4 < a <= k <= e <= n,
            n == line@.len(),
            line@.len() >= 4,
            line@.subrange(0, 4) == "Card"@,
            a as int == spaces_end(line@, 4),
            e as int == digits_end(line@, a as int),
            forall|m: int| a <= m < e ==> crate::grid::is_digit_char(#[trigger] line@[m]),
            id as int == digits_val(line@.subrange(a as int, k as int)),
        decreases e - k,
    {
        let c = line.get_char(k);
        let d = ((c as u32) - 48);
        proof {
            assert(line@.subrange(a as int, k as int + 1).drop_last() =~= line@.subrange(
                a as int,
                k as int,
            ));
            assert(line@.subrange(a as int, k as int + 1).last() == line@[k as int]);
            assert(crate::text::all_digits(line@.subrange(a as int, e as int)));
            assert(line@.subrange(a as int, e as int).subrange(0, k as int + 1 - a) =~= line@
                .subrange(a as int, k as int + 1));
        }
        let next = match id.checked_mul(10) {
            Some(m) => m.checked_add(d),
            None => None,
        };
        match next {
            Some(v) => {
                id = v;
            },
            None => {
                proof {
                    crate::text::lemma_digits_val_prefix_le(
                        line@.subrange(a as int, e as int),
                        k as int + 1 - a,
                    );
                    assert(digits_val(line@.subrange(a as int, e as int)) > u32::MAX);
                }
                return None;
            },
        }
        k = k + 1;
    }
    if n < 2 || e > n - 2 {
        return None;
    }
    if line.get_char(e) != ':' || line.get_char(e + 1) != ' ' {
        return None;
    }
    if n < 3 {
        return None;
    }
    let mut sep = e + 2;
    while sep <= n - 3 && !(line.get_char(sep) == ' ' && line.get_char(sep + 1) == '|'
        && line.get_char(sep + 2) == ' ')
        invariant
            e + 2 <= sep <= n,
            3 <= n,
            n == line@.len(),
            find_sep(line@, e as int + 2) == find_sep(line@, sep as int),
        decreases n - sep,
    {
        sep = sep + 1;
    }
    if sep > n - 3 {
        proof {
            assert(find_sep(line@, sep as int) == line@.len());
        }
        return None;
    }
    let wins_part = line.substring_char(e + 2, sep);
    let ws64 = match parse_nums(wins_part) {
        Some(v) => v,
        None => {
            return None;
        },
    };
    let ts64 = match parse_nums_from_sep(line, sep + 3) {
        Some(v) => v,
        None => {
            return None;
        },
    };
    let wins = match narrow_u32(&ws64) {
        Some(v) => v,
        None => {
            return None;
        },
    };
    let tips = match narrow_u32(&ts64) {
        Some(v) => v,
        None => {
            return None;
        },
    };
    Some(Card { id, wins, tips })
}

/// Scans the held numbers after the separator.
fn parse_nums_from_sep(line: &str, at: usize) -> (r: Option<Vec<u64>>)
    requires
        at <= line@.len(),
    ensures
        match r {
            Some(v) => nums_of_from(line@, at as int) == Some(vals(v@)),
            None => nums_of_from(line@, at as int) is None,
        },
{
    crate::text::parse_nums_from(line, at)
}

impl Card {
    /// How many of the held numbers are winning numbers, counting each
    /// distinct value once.
    pub fn number_of_matches(&self) -> (r: u32)
        requires
            self.tips@.len() <= u32::MAX,
        ensures
            r == match_count(uvals(self.tips@), uvals(self.wins@), self.tips@.len() as int),
    {
        let ghost ts = uvals(self.tips@);
        let ghost ws = uvals(self.wins@);
        proof {
            assert(forall|k: int| 0 <= k < ts.len() ==> ts[k] == #[trigger] self.tips@[k] as int);
            assert(forall|k: int| 0 <= k < ws.len() ==> ws[k] == #[trigger] self.wins@[k] as int);
        }
        let mut count: u32 = 0;
        let mut i: usize = 0;
        while i < self.tips.len()
            invariant
                0 <= i <= self.tips@.len(),
                self.tips@.len() <= u32::MAX,
                ts == uvals(self.tips@),
                ws == uvals(self.wins@),
                ts.len() == self.tips@.len(),
                ws.len() == self.wins@.len(),
                forall|k: int| 0 <= k < ts.len() ==> ts[k] == #[trigger] self.tips@[k] as int,
                forall|k: int| 0 <= k < ws.len() ==> ws[k] == #[trigger] self.wins@[k] as int,
                count <= i,
                count as int == match_count(ts, ws, i as int),
            decreases self.tips@.len() - i,
        {
            let x = self.tips[i];
            let in_wins = contains_u32(&self.wins, 0, self.wins.len(), x);
            let seen = contains_u32(&self.tips, 0, i, x);
            proof {
                assert(ws.contains(x as int) == in_wins) by {
                    if in_wins {
                        let k = choose|k: int|
                            0 <= k < self.wins@.len() && self.wins@[k] == x;
                        assert(ws[k] == x as int);
                    } else {
                        if ws.contains(x as int) {
                            let k = choose|k: int| 0 <= k < ws.len() && ws[k] == x as int;
                            assert(self.wins@[k] == x);
                        }
                    }
                }
                assert(ts.subrange(0, i as int).contains(x as int) == seen) by {
                    if seen {
                        let k = choose|k: int| 0 <= k < i && self.tips@[k] == x;
                        assert(ts.subrange(0, i as int)[k] == x as int);
                    } else {
                        if ts.subrange(0, i as int).contains(x as int) {
                            let k = choose|k: int|
                                0 <= k < i && ts.subrange(0, i as int)[k] == x as int;
                            assert(self.tips@[k] == x);
                        }
                    }
                }
                assert(ts[i as int] == x as int);
            }
            if in_wins && !seen {
                count = count + 1;
            }
            i = i + 1;
        }
        count
    }
}

/// Does `v[from .. to]` contain `x`?
fn contains_u32(v: &Vec<u32>, from: usize, to: usize, x: u32) -> (r: bool)
    requires
        from <= to <= v@.len(),
    ensures
        r == exists|k: int| from <= k < to && #[trigger] v@[k] == x,
{
    let mut i = from;
    while i < to
        invariant
            from <= i <= to <= v@.len(),
            forall|k: int| from <= k < i ==> #[trigger] v@[k] != x,
        decreases to - i,
    {
        if v[i] == x {
            return true;
        }
        i = i + 1;
    }
    false
}

/// The score of one card: nothing for no matches, else two to the power
/// of one less than the match count.
pub open spec fn card_score(m: int) -> int {
    if m <= 0 {
        0
    } else {
        p2((m - 1) as nat)
    }
}

/// Computes a card's score; the match count must leave the score within
/// `u32` range.
pub fn score_of(matches: u32) -> (r: u32)
    requires
        matches <= 32,
    ensures
        r == card_score(matches as int),
{
    if matches == 0 {
        return 0;
    }
    let mut v: u32 = 1;
    let mut k: u32 = 0;
    proof {
        lemma_p2_mono((matches - 1) as nat, 31);
        assert(p2(31) == 0x8000_0000) by {
            reveal_with_fuel(p2, 32);
        }
    }
    while k < matches - 1
        invariant
            matches <= 32,
            0 <= k <= matches - 1,
            v as int == p2(k as nat),
            p2((matches - 1) as nat) <= 0x8000_0000,
        decreases matches - 1 - k,
    {
        proof {
            lemma_p2_mono((k + 1) as nat, (matches - 1) as nat);
            lemma_p2_pos(k as nat);
        }
        v = v * 2;
        k = k + 1;
    }
    v
}

/// The summed score of the first `k` card lines, or `None` when a line
/// is not a valid card, a card has more matches than the scoring can
/// express, or the running sum leaves `u32` range.
pub open spec fn scores_sum(lines: Seq<Seq<char>>, k: int) -> Option<int>
    decreases k,
{
    if k <= 0 {
        Some(0)
    } else {
        match scores_sum(lines, k - 1) {
            None => None,
            Some(acc) => match card_spec(lines[k - 1]) {
                None => None,
                Some((id, ws, ts)) => {
                    if ts.len() > u32::MAX {
                        None
                    } else {
                        let m = match_count(ts, ws, ts.len() as int);
                        if m > 32 {
                            None
                        } else {
                            let v = acc + card_score(m);
                            if v > u32::MAX {
                                None
                            } else {
                                Some(v)
                            }
                        }
                    }
                },
            },
        }
    }
}

/// Once the score sum has failed, it stays failed for longer prefixes.
proof fn lemma_scores_sum_none(lines: Seq<Seq<char>>, k: int, m: int)
    requires
        scores_sum(lines, k) is None,
        k <= m,
    ensures
        scores_sum(lines, m) is None,
    decreases m - k,
{
    if m > k {
        lemma_scores_sum_none(lines, k, m - 1);
    }
}

/// Sums the scores of all card lines.
pub fn fourth_task_1(lines: &Vec<String>) -> (r: Option<u32>)
    ensures
        match r {
            Some(v) => scores_sum(lines.deep_view(), lines.deep_view().len() as int) == Some(
                v as int,
            ),
            None => scores_sum(lines.deep_view(), lines.deep_view().len() as int) is None,
        },
{
    let ghost lv = lines.deep_view();
    proof {
        assert(lv.len() == lines@.len());
        assert(forall|k: int| 0 <= k < lv.len() ==> #[trigger] lv[k] == lines@[k]@);
    }
    let mut acc: u32 = 0;
    let mut i: usize = 0;
    while i < lines.len()
        invariant
            lv == lines.deep_view(),
            lv.len() == lines@.len(),
            forall|k: int| 0 <= k < lv.len() ==> #[trigger] lv[k] == lines@[k]@,
            0 <= i <= lv.len(),
            scores_sum(lv, i as int) == Some(acc as int),
        decreases lv.len() - i,
    {
        let card = match parse_card(lines[i].as_str()) {
            Some(c) => c,
            None => {
                proof {
                    lemma_scores_sum_none(lv, i as int + 1, lv.len() as int);
                }
                return None;
            },
        };
        proof {
            assert(uvals(card.tips@).len() == card.tips@.len());
        }
        if card.tips.len() > u32::MAX as usize {
            proof {
                lemma_scores_sum_none(lv, i as int + 1, lv.len() as int);
            }
            return None;
        }
        let matches = card.number_of_matches();
        if matches > 32 {
            proof {
                lemma_scores_sum_none(lv, i as int + 1, lv.len() as int);
            }
            return None;
        }
        let score = score_of(matches);
        match acc.checked_add(score) {
            Some(a2) => {
                acc = a2;
            },
            None => {
                proof {
                    lemma_scores_sum_none(lv, i as int + 1, lv.len() as int);
                }
                return None;
            },
        }
        i = i + 1;
    }
    Some(acc)
}

} // verus!
