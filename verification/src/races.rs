use vstd::prelude::*;

use crate::text::{
    glued_num, nums_of_from, parse_glued_num, parse_nums_from, starts_with_at, vals,
};

verus! {

/// How many whole-second charge times among `1 .. n` win a race lasting
/// `time` seconds against a record of `distance`: charging for `s`
/// seconds travels `s * (time - s)`.
pub open spec fn race_wins(time: int, distance: int, n: int) -> int
    decreases n,
{
    if n <= 1 {
        0
    } else {
        race_wins(time, distance, n - 1) + if (n - 1) * (time - (n - 1)) > distance {
            1int
        } else {
            0int
        }
    }
}

/// Counts the charge times that beat the record.
pub fn calculate_wins(time: u64, distance: u64) -> (r: u64)
    requires
        time * time <= u64::MAX,
    ensures
        r == race_wins(time as int, distance as int, time as int),
        r < time || (time == 0 && r == 0),
{
    let mut wins: u64 = 0;
    let mut speed: u64 = 1;
    if time <= 1 {
        return 0;
    }
    while speed < time
        invariant
            1 <= speed <= time,
            time * time <= u64::MAX,
            wins <= speed - 1,
            wins == race_wins(time as int, distance as int, speed as int),
        decreases time - speed,
    {
        let remaining = time - speed;
        proof {
            assert(speed * remaining <= time * time) by (nonlinear_arith)
                requires
                    0 <= speed <= time,
                    0 <= remaining <= time,
            ;
        }
        let covered = speed * remaining;
        if covered > distance {
            wins = wins + 1;
        }
        speed = speed + 1;
    }
    wins
}

/// A labelled group line: the label, a colon and a space, then
/// space-separated numbers.
pub open spec fn group_spec(s: Seq<char>, label: Seq<char>) -> Option<Seq<int>> {
    if s.len() >= label.len() + 2 && s.subrange(0, label.len() as int) == label && s[label.len()
        as int] == ':' && s[label.len() as int + 1] == ' ' {
        nums_of_from(s, label.len() as int + 2)
    } else {
        None
    }
}

/// A labelled group line whose digits form one number once the spaces
/// between them are ignored.
pub open spec fn group2_spec(s: Seq<char>, label: Seq<char>) -> Option<int> {
    if s.len() >= label.len() + 2 && s.subrange(0, label.len() as int) == label && s[label.len()
        as int] == ':' && s[label.len() as int + 1] == ' ' {
        glued_num(s, label.len() as int + 2, 0)
    } else {
        None
    }
}

/// Reads a labelled line of space-separated numbers.
pub fn parse_group(s: &str, expected_label: &str) -> (r: Option<Vec<u64>>)
    ensures
        match r {
            Some(v) => group_spec(s@, expected_label@) == Some(vals(v@)),
            None => group_spec(s@, expected_label@) is None,
        },
{
    let ll = expected_label.unicode_len();
    if !starts_with_at(s, expected_label, 0) {
        proof {
            if s@.len() >= ll + 2 {
                assert(s@.subrange(0, ll as int) != expected_label@);
            }
        }
        return None;
    }
    let n = s.unicode_len();
    if n < 2 || ll > n - 2 {
        return None;
    }
    if s.get_char(ll) != ':' || s.get_char(ll + 1) != ' ' {
        return None;
    }
    parse_nums_from(s, ll + 2)
}

/// Reads a labelled line as one space-interrupted number.
pub fn parse_group2(s: &str, expected_label: &str) -> (r: Option<u64>)
    ensures
        match r {
            Some(v) => group2_spec(s@, expected_label@) == Some(v as int),
            None => group2_spec(s@, expected_label@) is None,
        },
{
    let ll = expected_label.unicode_len();
    if !starts_with_at(s, expected_label, 0) {
        proof {
            if s@.len() >= ll + 2 {
                assert(s@.subrange(0, ll as int) != expected_label@);
            }
        }
        return None;
    }
    let n = s.unicode_len();
    if n < 2 || ll > n - 2 {
        return None;
    }
    if s.get_char(ll) != ':' || s.get_char(ll + 1) != ' ' {
        return None;
    }
    parse_glued_num(s, ll + 2)
}

/// The product of the win counts of a series of races, or `None` as soon
/// as a win count or a partial product leaves `u64` range.
pub open spec fn wins_product(ts: Seq<int>, ds: Seq<int>, k: int) -> Option<int>
    decreases k,
{
    if k <= 0 {
        Some(1)
    } else {
        match wins_product(ts, ds, k - 1) {
            None => None,
            Some(p) => {
                if ts[k - 1] * ts[k - 1] > u64::MAX {
                    None
                } else {
                    let w = race_wins(ts[k - 1], ds[k - 1], ts[k - 1]);
                    if p * w > u64::MAX {
                        None
                    } else {
                        Some(p * w)
                    }
                }
            },
        }
    }
}

/// Once the win-count product has failed, it stays failed for every
/// longer prefix of the race list.
proof fn lemma_wins_product_none(ts: Seq<int>, ds: Seq<int>, k: int, m: int)
    requires
        wins_product(ts, ds, k) is None,
        k <= m,
    ensures
        wins_product(ts, ds, m) is None,
    decreases m - k,
{
    if m > k {
        lemma_wins_product_none(ts, ds, k, m - 1);
    }
}

/// The whole first task: a `Time` line and a `Distance` line of equal,
/// positive length, and the product of the races' win counts.
pub open spec fn races_product_spec(lines: Seq<Seq<char>>) -> Option<int> {
    if lines.len() < 2 {
        None
    } else {
        match (group_spec(lines[0], "Time"@), group_spec(lines[1], "Distance"@)) {
            (Some(ts), Some(ds)) => {
                if ts.len() == ds.len() && ts.len() >= 1 {
                    wins_product(ts, ds, ts.len() as int)
                } else {
                    None
                }
            },
            _ => None,
        }
    }
}

/// Multiplies the win counts of the races given by a `Time` line and a
/// `Distance` line.
pub fn sixth_task_1(lines: &Vec<String>) -> (r: Option<u64>)
    ensures
        match r {
            Some(v) => races_product_spec(lines.deep_view()) == Some(v as int),
            None => races_product_spec(lines.deep_view()) is None,
        },
{
    let ghost lv = lines.deep_view();
    proof {
        assert(lv.len() == lines@.len());
        assert(forall|k: int| 0 <= k < lv.len() ==> #[trigger] lv[k] == lines@[k]@);
    }
    if lines.len() < 2 {
        return None;
    }
    let times = match parse_group(lines[0].as_str(), "Time") {
        Some(v) => v,
        None => {
            return None;
        },
    };
    let distances = match parse_group(lines[1].as_str(), "Distance") {
        Some(v) => v,
        None => {
            return None;
        },
    };
    if times.len() != distances.len() || times.len() == 0 {
        proof {
            assert(vals(times@).len() == times@.len());
            assert(vals(distances@).len() == distances@.len());
        }
        return None;
    }
    let ghost ts = vals(times@);
    let ghost ds = vals(distances@);
    let mut product: u64 = 1;
    let mut k: usize = 0;
    proof {
        assert(ts.len() == times@.len() && ds.len() == distances@.len());
        assert(races_product_spec(lines.deep_view()) == wins_product(ts, ds, ts.len() as int));
    }
    while k < times.len()
        invariant
            races_product_spec(lines.deep_view()) == wins_product(ts, ds, ts.len() as int),
            0 <= k <= times.len(),
            times@.len() == distances@.len(),
            ts == vals(times@),
            ds == vals(distances@),
            ts.len() == times@.len(),
            ds.len() == distances@.len(),
            forall|j: int| 0 <= j < ts.len() ==> #[trigger] ts[j] == times@[j] as int,
            forall|j: int| 0 <= j < ds.len() ==> #[trigger] ds[j] == distances@[j] as int,
            wins_product(ts, ds, k as int) == Some(product as int),
        decreases times@.len() - k,
    {
        let t = times[k];
        let d = distances[k];
        match t.checked_mul(t) {
            Some(_) => {},
            None => {
                proof {
                    assert(wins_product(ts, ds, k as int + 1) is None);
                    lemma_wins_product_none(ts, ds, k as int + 1, ts.len() as int);
                }
                return None;
            },
        }
        let w = calculate_wins(t, d);
        match product.checked_mul(w) {
            Some(p) => {
                proof {
                    assert(wins_product(ts, ds, k as int + 1) == Some(p as int));
                }
                product = p;
            },
            None => {
                proof {
                    assert(wins_product(ts, ds, k as int + 1) is None);
                    lemma_wins_product_none(ts, ds, k as int + 1, ts.len() as int);
                }
                return None;
            },
        }
        k = k + 1;
    }
    Some(product)
}

/// The whole second task: the two lines read as single
/// space-interrupted numbers, and that one race's win count.
pub open spec fn single_race_spec(lines: Seq<Seq<char>>) -> Option<int> {
    if lines.len() < 2 {
        None
    } else {
        match (group2_spec(lines[0], "Time"@), group2_spec(lines[1], "Distance"@)) {
            (Some(t), Some(d)) => {
                if t * t > u64::MAX {
                    None
                } else {
                    Some(race_wins(t, d, t))
                }
            },
            _ => None,
        }
    }
}

/// Counts the wins of the single race given by reading each line as one
/// number.
pub fn sixth_task_2(lines: &Vec<String>) -> (r: Option<u64>)
    ensures
        match r {
            Some(v) => single_race_spec(lines.deep_view()) == Some(v as int),
            None => single_race_spec(lines.deep_view()) is None,
        },
{
    let ghost lv = lines.deep_view();
    proof {
        assert(lv.len() == lines@.len());
        assert(forall|k: int| 0 <= k < lv.len() ==> #[trigger] lv[k] == lines@[k]@);
    }
    if lines.len() < 2 {
        return None;
    }
    let time = match parse_group2(lines[0].as_str(), "Time") {
        Some(v) => v,
        None => {
            return None;
        },
    };
    let distance = match parse_group2(lines[1].as_str(), "Distance") {
        Some(v) => v,
        None => {
            return None;
        },
    };
    match time.checked_mul(time) {
        Some(_) => {},
        None => {
            return None;
        },
    }
    Some(calculate_wins(time, distance))
}

} // verus!
