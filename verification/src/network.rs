use vstd::arithmetic::div_mod::lemma_fundamental_div_mod_converse;
use vstd::prelude::*;

verus! {

/// A turn of the repeating instruction tape.
#[derive(Debug, PartialEq, Eq, Clone, Copy, Structural)]
pub enum Direction {
    Left,
    Right,
}

/// One network node: its name and the names of its two neighbours.
#[derive(Debug)]
pub struct Node {
    pub name: String,
    pub left: String,
    pub right: String,
}

/// The view of a node as character sequences.
pub open spec fn node_view(n: Node) -> (Seq<char>, Seq<char>, Seq<char>) {
    (n.name@, n.left@, n.right@)
}

/// The view of a node table.
pub open spec fn gview(g: Seq<Node>) -> Seq<(Seq<char>, Seq<char>, Seq<char>)> {
    g.map_values(|n: Node| node_view(n))
}

/// The neighbours of the first node named `name` at or after index `i`.
pub open spec fn lookup(
    gv: Seq<(Seq<char>, Seq<char>, Seq<char>)>,
    i: int,
    name: Seq<char>,
) -> Option<(Seq<char>, Seq<char>)>
    decreases gv.len() - i,
{
    if i < 0 || i >= gv.len() {
        None
    } else if gv[i].0 == name {
        Some((gv[i].1, gv[i].2))
    } else {
        lookup(gv, i + 1, name)
    }
}

/// The node reached after `k` steps from `AAA`, following the tape
/// cyclically; `None` once a node is missing from the table.
pub open spec fn walk(
    gv: Seq<(Seq<char>, Seq<char>, Seq<char>)>,
    road: Seq<Direction>,
    k: int,
) -> Option<Seq<char>>
    decreases k,
{
    if k <= 0 {
        Some("AAA"@)
    } else {
        match walk(gv, road, k - 1) {
            None => None,
            Some(p) => match lookup(gv, 0, p) {
                None => None,
                Some((l, r)) => Some(
                    if road[(k - 1) % (road.len() as int)] == Direction::Left {
                        l
                    } else {
                        r
                    },
                ),
            },
        }
    }
}

/// Does step `k` land on `ZZZ`?
pub open spec fn hits(
    gv: Seq<(Seq<char>, Seq<char>, Seq<char>)>,
    road: Seq<Direction>,
    k: int,
) -> bool {
    walk(gv, road, k) == Some("ZZZ"@)
}

/// The first step count in `[k, cap]` that lands on `ZZZ`, if any.
pub open spec fn first_hit(
    gv: Seq<(Seq<char>, Seq<char>, Seq<char>)>,
    road: Seq<Direction>,
    k: int,
    cap: int,
) -> Option<int>
    decreases cap - k + 1,
{
    if k > cap {
        None
    } else if hits(gv, road, k) {
        Some(k)
    } else {
        first_hit(gv, road, k + 1, cap)
    }
}

/// Once the walk has lost its way, it stays lost.
proof fn lemma_walk_none_sticky(
    gv: Seq<(Seq<char>, Seq<char>, Seq<char>)>,
    road: Seq<Direction>,
    k: int,
    m: int,
)
    requires
        walk(gv, road, k) is None,
        k <= m,
    ensures
        walk(gv, road, m) is None,
    decreases m - k,
{
    if m > k {
        lemma_walk_none_sticky(gv, road, k, m - 1);
    }
}

/// A lost walk never hits, whatever the cap.
proof fn lemma_first_hit_none(
    gv: Seq<(Seq<char>, Seq<char>, Seq<char>)>,
    road: Seq<Direction>,
    j: int,
    cap: int,
)
    requires
        walk(gv, road, j) is None,
        0 < j,
    ensures
        first_hit(gv, road, j, cap) is None,
    decreases cap - j + 1,
{
    if j <= cap {
        lemma_walk_none_sticky(gv, road, j, j + 1);
        lemma_first_hit_none(gv, road, j + 1, cap);
    }
}

// ---------------------------------------------------------------------
// Parsing the tape and the node table.
// ---------------------------------------------------------------------

/// A word character of a node name: a letter, a digit, or an underscore.
pub open spec fn is_word_char(c: char) -> bool {
    ||| 48 <= c as int <= 57
    ||| 65 <= c as int <= 90
    ||| 97 <= c as int <= 122
    ||| c == '_'
}

/// The first position at or after `i` that is not a word character.
pub open spec fn word_end(s: Seq<char>, i: int) -> int
    decreases s.len() - i,
{
    if i < 0 || i >= s.len() || !is_word_char(s[i]) {
        i
    } else {
        word_end(s, i + 1)
    }
}

/// The instruction tape: a nonempty line of `L` and `R` turns.
pub open spec fn road_spec(line: Seq<char>) -> Option<Seq<Direction>> {
    if line.len() >= 1 && (forall|i: int| 0 <= i < line.len() ==> line[i] == 'L' || line[i] == 'R') {
        Some(
            Seq::new(
                line.len(),
                |i: int|
                    if line[i] == 'L' {
                        Direction::Left
                    } else {
                        Direction::Right
                    },
            ),
        )
    } else {
        None
    }
}

/// A node line: a name, the four characters ` = (`, the left neighbour,
/// a comma and a space, the right neighbour, and a closing parenthesis.
pub open spec fn node_spec(line: Seq<char>) -> Option<(Seq<char>, Seq<char>, Seq<char>)> {
    let e1 = word_end(line, 0);
    if e1 > 0 && e1 + 4 <= line.len() && line[e1] == ' ' && line[e1 + 1] == '=' && line[e1 + 2]
        == ' ' && line[e1 + 3] == '(' {
        let e2 = word_end(line, e1 + 4);
        if e2 > e1 + 4 && e2 + 2 <= line.len() && line[e2] == ',' && line[e2 + 1] == ' ' {
            let e3 = word_end(line, e2 + 2);
            if e3 > e2 + 2 && e3 < line.len() && line[e3] == ')' {
                Some(
                    (
                        line.subrange(0, e1),
                        line.subrange(e1 + 4, e2),
                        line.subrange(e2 + 2, e3),
                    ),
                )
            } else {
                None
            }
        } else {
            None
        }
    } else {
        None
    }
}

/// The node table denoted by the lines from index 2 up to `k`.
pub open spec fn nodes_spec(lines: Seq<Seq<char>>, k: int) -> Option<
    Seq<(Seq<char>, Seq<char>, Seq<char>)>,
>
    decreases k,
{
    if k <= 2 {
        Some(Seq::empty())
    } else {
        match nodes_spec(lines, k - 1) {
            None => None,
            Some(ns) => match node_spec(lines[k - 1]) {
                None => None,
                Some(t) => Some(ns.push(t)),
            },
        }
    }
}

/// Is the character at `k` a word character?
fn word_at(s: &str, k: usize) -> (r: bool)
    requires
        k < s@.len(),
    ensures
        r == is_word_char(s@[k as int]),
{
    let u = s.get_char(k) as u32;
    (48 <= u && u <= 57) || (65 <= u && u <= 90) || (97 <= u && u <= 122) || u == 95
}

/// Scans a (possibly empty) node name.
fn scan_word(s: &str, at: usize) -> (e: usize)
    requires
        at <= s@.len(),
    ensures
        e as int == word_end(s@, at as int),
        at <= e <= s@.len(),
{
    let n = s.unicode_len();
    let mut k = at;
    while k < n && word_at(s, k)
        invariant
            at <= k <= n,
            n == s@.len(),
            word_end(s@, at as int) == word_end(s@, k as int),
        decreases n - k,
    {
        k = k + 1;
    }
    k
}

/// Reads one node line; fails exactly when `node_spec` does.
pub fn parse_node(line: &str) -> (r: Option<Node>)
    ensures
        match r {
            Some(nd) => node_spec(line@) == Some(node_view(nd)),
            None => node_spec(line@) is None,
        },
{
    let n = line.unicode_len();
    let e1 = scan_word(line, 0);
    if e1 == 0 || n < 4 || e1 > n - 4 {
        return None;
    }
    if line.get_char(e1) != ' ' || line.get_char(e1 + 1) != '=' || line.get_char(e1 + 2) != ' '
        || line.get_char(e1 + 3) != '(' {
        return None;
    }
    let e2 = scan_word(line, e1 + 4);
    if e2 == e1 + 4 || n < 2 || e2 > n - 2 {
        return None;
    }
    if line.get_char(e2) != ',' || line.get_char(e2 + 1) != ' ' {
        return None;
    }
    let e3 = scan_word(line, e2 + 2);
    if e3 == e2 + 2 || e3 >= n {
        return None;
    }
    if line.get_char(e3) != ')' {
        return None;
    }
    let name = line.substring_char(0, e1).to_owned();
    let left = line.substring_char(e1 + 4, e2).to_owned();
    let right = line.substring_char(e2 + 2, e3).to_owned();
    Some(Node { name, left, right })
}

/// Reads the instruction tape line.
pub fn parse_road(line: &str) -> (r: Option<Vec<Direction>>)
    ensures
        match r {
            Some(v) => road_spec(line@) == Some(v@),
            None => road_spec(line@) is None,
        },
{
    let n = line.unicode_len();
    if n == 0 {
        return None;
    }
    let mut v: Vec<Direction> = Vec::new();
    let mut i: usize = 0;
    while i < n
        invariant
            0 <= i <= n,
            n == line@.len(),
            v@.len() == i,
            forall|k: int| 0 <= k < i ==> line@[k] == 'L' || line@[k] == 'R',
            forall|k: int|
                0 <= k < i ==> #[trigger] v@[k] == if line@[k] == 'L' {
                    Direction::Left
                } else {
                    Direction::Right
                },
        decreases n - i,
    {
        let c = line.get_char(i);
        if c == 'L' {
            v.push(Direction::Left);
        } else if c == 'R' {
            v.push(Direction::Right);
        } else {
            return None;
        }
        i = i + 1;
    }
    proof {
        let expect = road_spec(line@);
        assert(expect is Some);
        assert(v@ =~= expect->Some_0);
    }
    Some(v)
}

/// Reads the node table from line 2 on (line 1 separates it from the
/// tape); fails exactly when a node line is malformed.
pub fn parse_graph(lines: &Vec<String>) -> (r: Option<Vec<Node>>)
    ensures
        match r {
            Some(g) => nodes_spec(lines.deep_view(), lines.deep_view().len() as int) == Some(
                gview(g@),
            ),
            None => nodes_spec(lines.deep_view(), lines.deep_view().len() as int) is None,
        },
{
    let ghost lv = lines.deep_view();
    proof {
        assert(lv.len() == lines@.len());
        assert(forall|k: int| 0 <= k < lv.len() ==> #[trigger] lv[k] == lines@[k]@);
    }
    let mut g: Vec<Node> = Vec::new();
    if lines.len() <= 2 {
        proof {
            assert(gview(g@) =~= Seq::<(Seq<char>, Seq<char>, Seq<char>)>::empty());
        }
        return Some(g);
    }
    let mut i: usize = 2;
    proof {
        assert(gview(g@) =~= Seq::<(Seq<char>, Seq<char>, Seq<char>)>::empty());
    }
    while i < lines.len()
        invariant
            lv == lines.deep_view(),
            lv.len() == lines@.len(),
            forall|k: int| 0 <= k < lv.len() ==> #[trigger] lv[k] == lines@[k]@,
            2 <= i <= lv.len(),
            nodes_spec(lv, i as int) == Some(gview(g@)),
        decreases lv.len() - i,
    {
        let nd = match parse_node(lines[i].as_str()) {
            Some(nd) => nd,
            None => {
                proof {
                    lemma_nodes_none(lv, i as int + 1, lv.len() as int);
                }
                return None;
            },
        };
        let ghost g0 = g@;
        let ghost ndv = node_view(nd);
        g.push(nd);
        proof {
            assert(gview(g@) =~= gview(g0).push(ndv));
        }
        i = i + 1;
    }
    Some(g)
}

/// Once the node table has failed to parse, it stays failed.
proof fn lemma_nodes_none(lines: Seq<Seq<char>>, k: int, m: int)
    requires
        nodes_spec(lines, k) is None,
        k <= m,
    ensures
        nodes_spec(lines, m) is None,
    decreases m - k,
{
    if m > k {
        lemma_nodes_none(lines, k, m - 1);
    }
}

/// Finds a node by name.
fn lookup_exec<'a>(g: &'a Vec<Node>, name: &String) -> (r: Option<&'a Node>)
    ensures
        match r {
            Some(nd) => lookup(gview(g@), 0, name@) == Some((nd.left@, nd.right@)),
            None => lookup(gview(g@), 0, name@) is None,
        },
{
    let mut i: usize = 0;
    while i < g.len()
        invariant
            0 <= i <= g@.len(),
            lookup(gview(g@), 0, name@) == lookup(gview(g@), i as int, name@),
        decreases g@.len() - i,
    {
        let here = &g[i].name;
        if here.eq(name) {
            proof {
                assert(gview(g@)[i as int] == node_view(g@[i as int]));
            }
            return Some(&g[i]);
        }
        proof {
            assert(gview(g@)[i as int] == node_view(g@[i as int]));
        }
        i = i + 1;
    }
    None
}

/// How many steps the walk is given before the search is abandoned.
pub const STEP_LIMIT: u64 = 10_000_000;

/// Follows the tape from `AAA` until `ZZZ`, counting steps: the first
/// line is the tape, the third line on is the node table.  Returns the
/// first step count that lands on `ZZZ`, or `None` when the input is
/// malformed, a node is missing, or `ZZZ` is not reached within
/// `STEP_LIMIT` steps.
pub fn eighth_task_1(lines: &Vec<String>) -> (r: Option<u64>)
    ensures
        ({
            let lv = lines.deep_view();
            match (road_spec(lv[0]), nodes_spec(lv, lv.len() as int)) {
                (Some(road), Some(gv)) => match r {
                    Some(v) => lv.len() >= 1 && first_hit(gv, road, 1, STEP_LIMIT as int) == Some(
                        v as int,
                    ),
                    None => lv.len() < 1 || first_hit(gv, road, 1, STEP_LIMIT as int) is None,
                },
                _ => r is None,
            }
        }),
{
    let ghost lv = lines.deep_view();
    proof {
        assert(lv.len() == lines@.len());
        assert(forall|k: int| 0 <= k < lv.len() ==> #[trigger] lv[k] == lines@[k]@);
    }
    if lines.len() < 1 {
        return None;
    }
    let road = match parse_road(lines[0].as_str()) {
        Some(v) => v,
        None => {
            return None;
        },
    };
    let graph = match parse_graph(lines) {
        Some(g) => g,
        None => {
            return None;
        },
    };
    let ghost gv = gview(graph@);
    let ghost rv = road@;
    let mut cur: String = "AAA".to_owned();
    let goal: String = "ZZZ".to_owned();
    let mut steps: u64 = 0;
    let mut ridx: usize = 0;
    let ghost mut q: int = 0;
    proof {
        assert(walk(gv, rv, 0) == Some(cur@));
        assert(rv.len() >= 1);
    }
    while steps < STEP_LIMIT
        invariant
            lv == lines.deep_view(),
            lv.len() >= 1,
            road_spec(lv[0]) == Some(rv),
            nodes_spec(lv, lv.len() as int) == Some(gv),
            goal@ == "ZZZ"@,
            gv == gview(graph@),
            rv == road@,
            rv.len() >= 1,
            road@.len() == rv.len(),
            0 <= steps <= STEP_LIMIT,
            0 <= ridx < rv.len(),
            steps as int == q * (rv.len() as int) + ridx,
            0 <= q,
            walk(gv, rv, steps as int) == Some(cur@),
            first_hit(gv, rv, 1, STEP_LIMIT as int) == first_hit(
                gv,
                rv,
                steps as int + 1,
                STEP_LIMIT as int,
            ),
        decreases STEP_LIMIT - steps,
    {
        let node = match lookup_exec(&graph, &cur) {
            Some(nd) => nd,
            None => {
                proof {
                    assert(walk(gv, rv, steps as int + 1) is None);
                    lemma_first_hit_none(gv, rv, steps as int + 1, STEP_LIMIT as int);
                }
                return None;
            },
        };
        proof {
            lemma_fundamental_div_mod_converse(
                steps as int,
                rv.len() as int,
                q,
                ridx as int,
            );
            assert((steps as int) % (rv.len() as int) == ridx as int);
        }
        let next = match road[ridx] {
            Direction::Left => node.left.clone(),
            Direction::Right => node.right.clone(),
        };
        proof {
            assert(walk(gv, rv, steps as int + 1) == Some(next@));
        }
        steps = steps + 1;
        if ridx + 1 == road.len() {
            ridx = 0;
            proof {
                assert((q + 1) * (rv.len() as int) == q * (rv.len() as int) + rv.len())
                    by (nonlinear_arith);
                q = q + 1;
            }
        } else {
            ridx = ridx + 1;
        }
        if next.eq(&goal) {
            proof {
                assert(hits(gv, rv, steps as int));
            }
            return Some(steps);
        }
        proof {
            assert(!hits(gv, rv, steps as int));
        }
        cur = next;
    }
    proof {
        assert(first_hit(gv, rv, steps as int + 1, STEP_LIMIT as int) is None);
    }
    None
}

// ---------------------------------------------------------------------
// Greatest common divisor and least common multiple.
// ---------------------------------------------------------------------

/// Euclid's algorithm as a function.
pub open spec fn gcd_spec(a: int, b: int) -> int
    decreases b,
{
    if b <= 0 {
        a
    } else {
        gcd_spec(b, a % b)
    }
}

/// The greatest common divisor, computed with the larger argument first
/// as Euclid has it.
pub fn gcd(x: u64, y: u64) -> (r: u64)
    ensures
        r == if x >= y {
            gcd_spec(x as int, y as int)
        } else {
            gcd_spec(y as int, x as int)
        },
{
    let mut a;
    let mut b;
    if x >= y {
        a = x;
        b = y;
    } else {
        a = y;
        b = x;
    }
    let ghost a0 = a;
    let ghost b0 = b;
    while b != 0
        invariant
            gcd_spec(a as int, b as int) == gcd_spec(a0 as int, b0 as int),
        decreases b,
    {
        let t = b;
        b = a % b;
        a = t;
    }
    a
}

/// The folded least common multiple of a number list, or `None` when the
/// list is empty, a product leaves `u64` range, or a zero pair makes the
/// quotient undefined.
pub open spec fn lcm_fold(ns: Seq<int>, k: int) -> Option<int>
    decreases k,
{
    if k <= 0 {
        None
    } else if k == 1 {
        if ns.len() >= 1 {
            Some(ns[0])
        } else {
            None
        }
    } else {
        match lcm_fold(ns, k - 1) {
            None => None,
            Some(a) => {
                let b = ns[k - 1];
                let g = if a >= b {
                    gcd_spec(a, b)
                } else {
                    gcd_spec(b, a)
                };
                if a * b > u64::MAX || g == 0 {
                    None
                } else {
                    Some(a * b / g)
                }
            },
        }
    }
}

/// Folds the least common multiple over the list.
pub fn gcm(nums: &Vec<u64>) -> (r: Option<u64>)
    ensures
        match r {
            Some(v) => lcm_fold(crate::text::vals(nums@), nums@.len() as int) == Some(v as int),
            None => lcm_fold(crate::text::vals(nums@), nums@.len() as int) is None,
        },
{
    let ghost ns = crate::text::vals(nums@);
    proof {
        assert(ns.len() == nums@.len());
        assert(forall|k: int| 0 <= k < ns.len() ==> ns[k] == #[trigger] nums@[k] as int);
    }
    if nums.len() == 0 {
        return None;
    }
    let mut acc: u64 = nums[0];
    let mut k: usize = 1;
    while k < nums.len()
        invariant
            1 <= k <= nums@.len(),
            ns == crate::text::vals(nums@),
            ns.len() == nums@.len(),
            forall|m: int| 0 <= m < ns.len() ==> ns[m] == #[trigger] nums@[m] as int,
            lcm_fold(ns, k as int) == Some(acc as int),
        decreases nums@.len() - k,
    {
        let b = nums[k];
        let g = gcd(acc, b);
        let prod = match acc.checked_mul(b) {
            Some(p) => p,
            None => {
                proof {
                    lemma_lcm_fold_none(ns, k as int + 1, ns.len() as int);
                }
                return None;
            },
        };
        if g == 0 {
            proof {
                lemma_lcm_fold_none(ns, k as int + 1, ns.len() as int);
            }
            return None;
        }
        acc = prod / g;
        k = k + 1;
    }
    Some(acc)
}

/// Once the fold has failed, it stays failed.
proof fn lemma_lcm_fold_none(ns: Seq<int>, k: int, m: int)
    requires
        lcm_fold(ns, k) is None,
        1 <= k <= m,
    ensures
        lcm_fold(ns, m) is None,
    decreases m - k,
{
    if m > k {
        lemma_lcm_fold_none(ns, k, m - 1);
    }
}

} // verus!
