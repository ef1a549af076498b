use vstd::multiset::Multiset;
use vstd::prelude::*;

use crate::text::{nums_of, parse_nums, starts_with_at, vals};

verus! {

/// A half-open interval of `u64` values.
#[derive(Debug, PartialEq, Eq, Clone, Copy, Structural)]
pub struct Span {
    pub start: u64,
    pub end: u64,
}

/// One mapping rule: sources in `[start, end)` move by `offset`.
#[derive(Debug, PartialEq, Eq, Clone, Copy, Structural)]
pub struct MapEntry {
    pub start: u64,
    pub end: u64,
    pub offset: i64,
}

/// A piecewise-offset mapping over `u64` ranges.
#[derive(Debug)]
pub struct RangeMap {
    pub items: Vec<MapEntry>,
}

/// The rules as integer triples (source start, source end, offset).
pub open spec fn entries(m: RangeMap) -> Seq<(int, int, int)> {
    m.items@.map_values(|e: MapEntry| (e.start as int, e.end as int, e.offset as int))
}

/// The spans as integer pairs.
pub open spec fn spans(v: Seq<Span>) -> Seq<(int, int)> {
    v.map_values(|s: Span| (s.start as int, s.end as int))
}

/// The meaning of mapping the span `[es, ee)` through the rules from
/// index `k` on, with `acc` the output so far: rules are consulted in
/// order; a rule wholly past the span ends the scan with the rest mapped
/// as identity; the overlap with a rule is moved by its offset; the part
/// before the rule keeps its value.
pub open spec fn map_rec(
    items: Seq<(int, int, int)>,
    k: int,
    es: int,
    ee: int,
    acc: Seq<(int, int)>,
) -> Seq<(int, int)>
    decreases items.len() - k,
{
    if k < 0 || k >= items.len() {
        acc.push((es, ee))
    } else {
        let (rs, re, off) = items[k];
        if ee < rs {
            acc.push((es, ee))
        } else if es >= re {
            map_rec(items, k + 1, es, ee, acc)
        } else {
            let acc1 = if es < rs {
                acc.push((es, rs))
            } else {
                acc
            };
            let ws = if es < rs {
                rs
            } else {
                es
            };
            let we = if ee < re {
                ee
            } else {
                re
            };
            let acc2 = if ws < we {
                acc1.push((ws + off, we + off))
            } else {
                acc1
            };
            if re < ee {
                map_rec(items, k + 1, re, ee, acc2)
            } else {
                acc2
            }
        }
    }
}

/// The rules are sorted by source start.
pub open spec fn entries_sorted(m: RangeMap) -> bool {
    forall|i: int, j: int|
        0 <= i < j < m.items@.len() ==> (#[trigger] m.items@[i]).start <= (
        #[trigger] m.items@[j]).start
}

impl RangeMap {
    /// Every rule is a valid interval whose offset keeps mapped values
    /// within `u64` range.
    pub open spec fn wf(&self) -> bool {
        forall|i: int|
            0 <= i < self.items@.len() ==> {
                let e = #[trigger] self.items@[i];
                &&& e.start <= e.end
                &&& 0 <= e.start + e.offset
                &&& e.end + e.offset <= u64::MAX
            }
    }

    /// An empty mapping.
    pub fn new() -> (r: RangeMap)
        ensures
            r.wf(),
            r.items@.len() == 0,
    {
        RangeMap { items: Vec::new() }
    }

    /// Adds the rule sending `[src_start, src_start + len)` to
    /// `[dst_start, dst_start + len)`.
    pub fn add(&mut self, dst_start: u64, src_start: u64, len: u64)
        requires
            old(self).wf(),
            src_start + len <= u64::MAX,
            dst_start + len <= u64::MAX,
            i64::MIN <= dst_start - src_start <= i64::MAX,
        ensures
            final(self).wf(),
            final(self).items@ == old(self).items@.push(
                MapEntry {
                    start: src_start,
                    end: (src_start + len) as u64,
                    offset: (dst_start - src_start) as i64,
                },
            ),
    {
        let offset: i64 = (dst_start as i128 - src_start as i128) as i64;
        let entry = MapEntry { start: src_start, end: src_start + len, offset };
        self.items.push(entry);
    }

    /// Maps one span through the rules, splitting it where rule
    /// boundaries cross it; returns exactly what `map_rec` denotes.
    pub fn map(&self, src: &Span) -> (r: Vec<Span>)
        requires
            self.wf(),
        ensures
            spans(r@) == map_rec(entries(*self), 0, src.start as int, src.end as int, Seq::empty()),
    {
        let ghost its = entries(*self);
        proof {
            assert(its.len() == self.items@.len());
            assert(forall|i: int|
                0 <= i < its.len() ==> #[trigger] its[i] == (
                    self.items@[i].start as int,
                    self.items@[i].end as int,
                    self.items@[i].offset as int,
                ));
        }
        let mut out: Vec<Span> = Vec::new();
        let mut es = src.start;
        let mut ee = src.end;
        let mut done = false;
        let mut k: usize = 0;
        proof {
            assert(spans(out@) =~= Seq::<(int, int)>::empty());
        }
        while k < self.items.len() && !done
            invariant
                self.wf(),
                its == entries(*self),
                its.len() == self.items@.len(),
                forall|i: int|
                    0 <= i < its.len() ==> #[trigger] its[i] == (
                        self.items@[i].start as int,
                        self.items@[i].end as int,
                        self.items@[i].offset as int,
                    ),
                0 <= k <= self.items@.len(),
                if done {
                    spans(out@) == map_rec(its, 0, src.start as int, src.end as int, Seq::empty())
                } else {
                    map_rec(its, 0, src.start as int, src.end as int, Seq::empty()) == map_rec(
                        its,
                        k as int,
                        es as int,
                        ee as int,
                        spans(out@),
                    )
                },
            decreases self.items@.len() - k, if done {
                0int
            } else {
                1int
            },
        {
            let e = self.items[k];
            let ghost out0 = out@;
            if ee < e.start {
                out.push(Span { start: es, end: ee });
                proof {
                    assert(spans(out@) =~= spans(out0).push((es as int, ee as int)));
                }
                done = true;
            } else if es >= e.end {
                k = k + 1;
            } else {
                if es < e.start {
                    out.push(Span { start: es, end: e.start });
                    proof {
                        assert(spans(out@) =~= spans(out0).push((es as int, e.start as int)));
                    }
                }
                let ws = if es < e.start {
                    e.start
                } else {
                    es
                };
                let we = if ee < e.end {
                    ee
                } else {
                    e.end
                };
                if ws < we {
                    let ghost out1 = out@;
                    let ms = ((ws as i128) + (e.offset as i128)) as u64;
                    let me = ((we as i128) + (e.offset as i128)) as u64;
                    out.push(Span { start: ms, end: me });
                    proof {
                        assert(spans(out@) =~= spans(out1).push((
                            ws as int + e.offset as int,
                            we as int + e.offset as int,
                        )));
                    }
                }
                if e.end < ee {
                    es = e.end;
                    k = k + 1;
                } else {
                    done = true;
                }
            }
        }
        if !done {
            let ghost out0 = out@;
            out.push(Span { start: es, end: ee });
            proof {
                assert(spans(out@) =~= spans(out0).push((es as int, ee as int)));
            }
        }
        out
    }

    /// Sorts the rules by source start; the rule collection is preserved
    /// as a multiset.
    pub fn sort(&mut self)
        requires
            old(self).wf(),
        ensures
            final(self).wf(),
            entries_sorted(*final(self)),
            final(self).items@.to_multiset() == old(self).items@.to_multiset(),
    {
        let ghost orig = self.items@.to_multiset();
        let mut done: Vec<MapEntry> = Vec::new();
        proof {
            broadcast use vstd::seq_lib::group_to_multiset_ensures;

            assert(done@.to_multiset() =~= Multiset::<MapEntry>::empty());
            assert(done@.to_multiset().add(self.items@.to_multiset()) =~= orig);
        }
        while self.items.len() > 0
            invariant
                done@.to_multiset().add(self.items@.to_multiset()) == orig,
                forall|i: int, j: int|
                    0 <= i < j < done@.len() ==> (#[trigger] done@[i]).start <= (
                    #[trigger] done@[j]).start,
                forall|i: int, j: int|
                    0 <= i < done@.len() && 0 <= j < self.items@.len() ==> (
                    #[trigger] done@[i]).start <= (#[trigger] self.items@[j]).start,
                forall|i: int|
                    0 <= i < done@.len() ==> {
                        let e = #[trigger] done@[i];
                        e.start <= e.end && 0 <= e.start + e.offset && e.end + e.offset
                            <= u64::MAX
                    },
                forall|i: int|
                    0 <= i < self.items@.len() ==> {
                        let e = #[trigger] self.items@[i];
                        e.start <= e.end && 0 <= e.start + e.offset && e.end + e.offset
                            <= u64::MAX
                    },
            decreases self.items@.len(),
        {
            let mut jm: usize = 0;
            let mut j: usize = 1;
            while j < self.items.len()
                invariant
                    0 <= jm < j <= self.items@.len(),
                    forall|i: int|
                        0 <= i < j ==> self.items@[jm as int].start <= (
                        #[trigger] self.items@[i]).start,
                decreases self.items@.len() - j,
            {
                if self.items[j].start < self.items[jm].start {
                    jm = j;
                }
                j = j + 1;
            }
            let ghost rest0 = self.items@;
            let ghost done0 = done@;
            let x = self.items.remove(jm);
            done.push(x);
            proof {
                broadcast use vstd::seq_lib::group_to_multiset_ensures;

                assert(rest0[jm as int] == x);
                assert(rest0.contains(x));
                assert(self.items@.to_multiset() =~= rest0.to_multiset().remove(x));
                assert(done@.to_multiset() =~= done0.to_multiset().insert(x));
                assert(done@.to_multiset().add(self.items@.to_multiset()) =~= orig);
                assert(forall|i: int|
                    0 <= i < self.items@.len() ==> rest0.contains(#[trigger] self.items@[i]));
                assert forall|i: int, j2: int|
                    0 <= i < done@.len() && 0 <= j2 < self.items@.len() implies (
                #[trigger] done@[i]).start <= (#[trigger] self.items@[j2]).start by {
                    let y = self.items@[j2];
                    assert(rest0.contains(y));
                    let idx = choose|idx: int| 0 <= idx < rest0.len() && rest0[idx] == y;
                    if i < done0.len() {
                        assert(done0[i].start <= rest0[idx].start);
                    } else {
                        assert(done@[i] == x);
                        assert(x.start <= rest0[idx].start);
                    }
                }
            }
        }
        proof {
            broadcast use vstd::seq_lib::group_to_multiset_ensures;

            assert(self.items@.to_multiset() =~= Multiset::<MapEntry>::empty());
            assert(done@.to_multiset() =~= orig);
        }
        self.items = done;
    }
}

/// The space-separated numbers of one line.
pub fn collect_numbers(line: &str) -> (r: Option<Vec<u64>>)
    ensures
        match r {
            Some(v) => nums_of(line@) == Some(vals(v@)),
            None => nums_of(line@) is None,
        },
{
    parse_nums(line)
}

/// The header of a rule block: the block's name, alone or followed by a
/// space (as in a name followed by the word `map:`).
pub open spec fn header_ok(line: Seq<char>, name: Seq<char>) -> bool {
    &&& line.len() >= name.len()
    &&& line.subrange(0, name.len() as int) == name
    &&& (line.len() == name.len() || line[name.len() as int] == ' ')
}

/// One rule row: at least three numbers, destination start, source
/// start, and length, all three combinations within machine range.
pub open spec fn row_triple(line: Seq<char>) -> Option<(int, int, int)> {
    match nums_of(line) {
        Some(ns) => if ns.len() >= 3 {
            Some((ns[0], ns[1], ns[2]))
        } else {
            None
        },
        None => None,
    }
}

/// The rule a row denotes.
pub open spec fn entry_of(t: (int, int, int)) -> MapEntry {
    MapEntry { start: t.1 as u64, end: (t.1 + t.2) as u64, offset: (t.0 - t.1) as i64 }
}

/// Every line in `[i, j)` is a valid rule row whose values stay in
/// machine range.
pub open spec fn rows_ok(lines: Seq<Seq<char>>, i: int, j: int) -> bool {
    forall|k: int|
        i <= k < j ==> match row_triple(#[trigger] lines[k]) {
            Some(t) => t.1 + t.2 <= u64::MAX && t.0 + t.2 <= u64::MAX && i64::MIN <= t.0 - t.1
                <= i64::MAX,
            None => false,
        }
}

/// The index of the first empty line at or after `i`, or the line count
/// when there is none: rule rows run up to there.
pub open spec fn rows_end(lines: Seq<Seq<char>>, i: int) -> int
    decreases lines.len() - i,
{
    if i < 0 || i >= lines.len() {
        lines.len() as int
    } else if lines[i].len() == 0 {
        i
    } else {
        rows_end(lines, i + 1)
    }
}

/// The row region never ends before it starts, nor after the input.
pub proof fn lemma_rows_end_range(lines: Seq<Seq<char>>, k: int)
    requires
        0 <= k <= lines.len(),
    ensures
        k <= rows_end(lines, k) <= lines.len(),
    decreases lines.len() - k,
{
    if k < lines.len() && lines[k].len() != 0 {
        lemma_rows_end_range(lines, k + 1);
    }
}

/// The rules denoted by the rows in `[i, j)`, as a multiset.
pub open spec fn rows_entries(lines: Seq<Seq<char>>, i: int, j: int) -> Multiset<MapEntry>
    decreases j - i,
{
    if i >= j {
        Multiset::empty()
    } else {
        match row_triple(lines[j - 1]) {
            Some(t) => rows_entries(lines, i, j - 1).insert(entry_of(t)),
            None => rows_entries(lines, i, j - 1),
        }
    }
}

/// Reads one named rule block: a header line, then rule rows up to an
/// empty line (consumed) or the end of input.  Returns the sorted map
/// and the index of the line after the block; fails exactly when the
/// header is missing or a row is not a valid rule.
pub fn parse_map(lines: &Vec<String>, start: usize, name: &str) -> (r: Option<(RangeMap, usize)>)
    ensures
        match r {
            Some(mn) => {
                let lv = lines.deep_view();
                let stop = rows_end(lv, start + 1);
                &&& start < lv.len()
                &&& header_ok(lv[start as int], name@)
                &&& rows_ok(lv, start + 1, stop)
                &&& mn.1 == if stop < lv.len() {
                    stop + 1
                } else {
                    stop
                }
                &&& mn.0.wf()
                &&& entries_sorted(mn.0)
                &&& mn.0.items@.to_multiset() == rows_entries(lv, start + 1, stop)
            },
            None => {
                let lv = lines.deep_view();
                !(start < lv.len() && header_ok(lv[start as int], name@) && rows_ok(
                    lv,
                    start + 1,
                    rows_end(lv, start + 1),
                ))
            },
        },
{
    let ghost lv = lines.deep_view();
    proof {
        assert(lv.len() == lines@.len());
        assert(forall|k: int| 0 <= k < lv.len() ==> #[trigger] lv[k] == lines@[k]@);
    }
    if start >= lines.len() {
        return None;
    }
    let header = &lines[start];
    let nl = name.unicode_len();
    if !starts_with_at(header.as_str(), name, 0) {
        proof {
            if lv[start as int].len() >= nl {
                assert(lv[start as int].subrange(0, nl as int) != name@);
            }
        }
        return None;
    }
    let hl = header.as_str().unicode_len();
    if hl > nl && header.as_str().get_char(nl) != ' ' {
        return None;
    }
    let mut m = RangeMap::new();
    proof {
        broadcast use vstd::seq_lib::group_to_multiset_ensures;

        assert(m.items@.to_multiset() =~= Multiset::<MapEntry>::empty());
    }
    let mut i = start + 1;
    while i < lines.len() && lines[i].as_str().unicode_len() != 0
        invariant
            lv == lines.deep_view(),
            lv.len() == lines@.len(),
            forall|k: int| 0 <= k < lv.len() ==> #[trigger] lv[k] == lines@[k]@,
            start + 1 <= i <= lv.len(),
            rows_end(lv, start + 1) == rows_end(lv, i as int),
            rows_ok(lv, start + 1, i as int),
            m.wf(),
            m.items@.to_multiset() == rows_entries(lv, start + 1, i as int),
        decreases lv.len() - i,
    {
        let row = match parse_nums(lines[i].as_str()) {
            Some(v) => v,
            None => {
                proof {
                    lemma_rows_end_range(lv, i as int + 1);
                    assert(i < rows_end(lv, i as int));
                    assert(row_triple(lv[i as int]) is None);
                }
                return None;
            },
        };
        if row.len() < 3 {
            proof {
                lemma_rows_end_range(lv, i as int + 1);
                assert(i < rows_end(lv, i as int));
                assert(vals(row@).len() == row@.len());
            }
            return None;
        }
        let d = row[0];
        let s0 = row[1];
        let l = row[2];
        proof {
            lemma_rows_end_range(lv, i as int + 1);
            assert(vals(row@)[0] == d as int && vals(row@)[1] == s0 as int && vals(row@)[2]
                == l as int);
            assert(i < rows_end(lv, i as int));
        }
        match s0.checked_add(l) {
            Some(_) => {},
            None => {
                return None;
            },
        }
        match d.checked_add(l) {
            Some(_) => {},
            None => {
                return None;
            },
        }
        let diff: i128 = d as i128 - s0 as i128;
        if diff < i64::MIN as i128 || diff > i64::MAX as i128 {
            return None;
        }
        proof {
            assert(match row_triple(lv[i as int]) {
                Some(t) => t.1 + t.2 <= u64::MAX && t.0 + t.2 <= u64::MAX && i64::MIN <= t.0 - t.1
                    <= i64::MAX,
                None => false,
            });
        }
        let ghost items0 = m.items@;
        m.add(d, s0, l);
        proof {
            broadcast use vstd::seq_lib::group_to_multiset_ensures;

            assert(m.items@.to_multiset() =~= items0.to_multiset().insert(
                entry_of((d as int, s0 as int, l as int)),
            ));
            assert(rows_entries(lv, start + 1, i as int + 1) == rows_entries(
                lv,
                start + 1,
                i as int,
            ).insert(entry_of((d as int, s0 as int, l as int))));
        }
        i = i + 1;
    }
    proof {
        assert(rows_end(lv, i as int) == i as int || rows_end(lv, i as int) == lv.len());
        assert(rows_end(lv, start + 1) == i as int);
    }
    let next = if i < lines.len() {
        i + 1
    } else {
        i
    };
    m.sort();
    Some((m, next))
}

} // verus!
