use vstd::prelude::*;

use crate::almanac::rows_end;
use crate::errors::SearchError;
use crate::grid::{digit_val, is_digit_char};
use crate::text::{all_digits, digits_val, lemma_digits_val_prefix_le};

verus! {

/// The four rated properties of a machine part.
#[derive(Debug, Clone, Copy, PartialEq, Eq, Structural)]
pub enum Property {
    X,
    M,
    A,
    S,
}

/// The comparison a sorting rule applies.
#[derive(Debug, Clone, Copy, PartialEq, Eq, Structural)]
pub enum Relation {
    Less,
    Greater,
}

/// What a rule does when it fires: reject, approve, or forward to the
/// named workflow.
#[derive(Debug, Clone, PartialEq, Eq)]
pub enum Action {
    Reject,
    Approve,
    Forward { target: String },
}

/// A conditional rule: compare one property against a value, and on
/// success take the action.
#[derive(Debug, Clone, PartialEq, Eq)]
pub struct Compare {
    pub property: Property,
    pub relation: Relation,
    pub value: i64,
    pub action: Action,
}

/// One step of a workflow: unconditional action or conditional compare.
#[derive(Debug, Clone, PartialEq, Eq)]
pub enum Rule {
    Action(Action),
    Compare(Compare),
}

/// A machine part with its four ratings.
#[derive(Debug, Clone, Copy, PartialEq, Eq, Structural)]
pub struct Part {
    pub x: i64,
    pub m: i64,
    pub a: i64,
    pub s: i64,
}

// ---------------------------------------------------------------------
// Mathematical views of the parsed values.
// ---------------------------------------------------------------------

/// The view of an action, with the target name as a character sequence.
pub enum ActionV {
    Reject,
    Approve,
    Forward(Seq<char>),
}

/// The view of a conditional rule.
pub struct CompareV {
    pub property: Property,
    pub relation: Relation,
    pub value: int,
    pub action: ActionV,
}

/// The view of a workflow step.
pub enum RuleV {
    Action(ActionV),
    Compare(CompareV),
}

pub open spec fn action_view(a: Action) -> ActionV {
    match a {
        Action::Reject => ActionV::Reject,
        Action::Approve => ActionV::Approve,
        Action::Forward { target } => ActionV::Forward(target@),
    }
}

pub open spec fn compare_view(c: Compare) -> CompareV {
    CompareV {
        property: c.property,
        relation: c.relation,
        value: c.value as int,
        action: action_view(c.action),
    }
}

pub open spec fn rule_view(r: Rule) -> RuleV {
    match r {
        Rule::Action(a) => RuleV::Action(action_view(a)),
        Rule::Compare(c) => RuleV::Compare(compare_view(c)),
    }
}

// ---------------------------------------------------------------------
// The grammar, as recursive functions over character sequences.
// ---------------------------------------------------------------------

/// A lowercase ASCII letter, the alphabet of workflow names.
pub open spec fn is_lower(c: char) -> bool {
    97 <= c as int <= 122
}

/// The first position at or after `i` that is not a lowercase letter.
pub open spec fn label_end(s: Seq<char>, i: int) -> int
    decreases s.len() - i,
{
    if i < 0 || i >= s.len() || !is_lower(s[i]) {
        i
    } else {
        label_end(s, i + 1)
    }
}

/// The first position at or after `i` that is not a digit.
pub open spec fn digits_end(s: Seq<char>, i: int) -> int
    decreases s.len() - i,
{
    if i < 0 || i >= s.len() || !is_digit_char(s[i]) {
        i
    } else {
        digits_end(s, i + 1)
    }
}

pub proof fn lemma_digits_end_range(s: Seq<char>, i: int)
    requires
        0 <= i <= s.len(),
    ensures
        i <= digits_end(s, i) <= s.len(),
        forall|k: int| i <= k < digits_end(s, i) ==> is_digit_char(#[trigger] s[k]),
        digits_end(s, i) == s.len() || !is_digit_char(s[digits_end(s, i)]),
    decreases s.len() - i,
{
    if i < s.len() && is_digit_char(s[i]) {
        lemma_digits_end_range(s, i + 1);
    }
}

/// A number: one or more digits whose value fits in `i64`.
pub open spec fn number_spec(s: Seq<char>, i: int) -> Option<(int, int)> {
    let e = digits_end(s, i);
    if e == i {
        None
    } else {
        let v = digits_val(s.subrange(i, e));
        if v > i64::MAX {
            None
        } else {
            Some((v, e))
        }
    }
}

/// A property letter.
pub open spec fn property_spec(s: Seq<char>, i: int) -> Option<(Property, int)> {
    if i < 0 || i >= s.len() {
        None
    } else if s[i] == 'x' {
        Some((Property::X, i + 1))
    } else if s[i] == 'm' {
        Some((Property::M, i + 1))
    } else if s[i] == 'a' {
        Some((Property::A, i + 1))
    } else if s[i] == 's' {
        Some((Property::S, i + 1))
    } else {
        None
    }
}

/// An action: `A`, `R`, or a (possibly empty) workflow name.  Always
/// succeeds, consuming as many lowercase letters as it can.
pub open spec fn action_spec(s: Seq<char>, i: int) -> (ActionV, int) {
    if 0 <= i < s.len() && s[i] == 'A' {
        (ActionV::Approve, i + 1)
    } else if 0 <= i < s.len() && s[i] == 'R' {
        (ActionV::Reject, i + 1)
    } else {
        let e = label_end(s, i);
        (ActionV::Forward(s.subrange(i, e)), e)
    }
}

/// A conditional rule: property, `<` or `>`, number, `:`, action.
pub open spec fn compare_spec(s: Seq<char>, i: int) -> Option<(CompareV, int)> {
    match property_spec(s, i) {
        None => None,
        Some((p, j)) => {
            if 0 <= j < s.len() && (s[j] == '<' || s[j] == '>') {
                let rel = if s[j] == '<' {
                    Relation::Less
                } else {
                    Relation::Greater
                };
                match number_spec(s, j + 1) {
                    None => None,
                    Some((v, j2)) => {
                        if 0 <= j2 < s.len() && s[j2] == ':' {
                            let (a, j3) = action_spec(s, j2 + 1);
                            Some(
                                (
                                    CompareV { property: p, relation: rel, value: v, action: a },
                                    j3,
                                ),
                            )
                        } else {
                            None
                        }
                    },
                }
            } else {
                None
            }
        },
    }
}

/// A workflow step: a conditional rule if one parses here, else an
/// action.
pub open spec fn rule_spec(s: Seq<char>, i: int) -> (RuleV, int) {
    match compare_spec(s, i) {
        Some((c, j)) => (RuleV::Compare(c), j),
        None => {
            let (a, j) = action_spec(s, i);
            (RuleV::Action(a), j)
        },
    }
}

/// The comma-separated steps after the first one.
pub open spec fn rules_tail(s: Seq<char>, j: int, acc: Seq<RuleV>) -> (Seq<RuleV>, int)
    decreases s.len() - j,
{
    if 0 <= j < s.len() && s[j] == ',' {
        let (r, j2) = rule_spec(s, j + 1);
        if j < j2 <= s.len() {
            rules_tail(s, j2, acc.push(r))
        } else {
            (acc.push(r), j2)
        }
    } else {
        (acc, j)
    }
}

/// A nonempty comma-separated list of workflow steps.
pub open spec fn rules_list_spec(s: Seq<char>, i: int) -> (Seq<RuleV>, int) {
    let (r, j) = rule_spec(s, i);
    rules_tail(s, j, seq![r])
}

/// A whole workflow line: name, `{`, steps, `}` (trailing input is
/// ignored, as the line parser discards the rest).
pub open spec fn full_rule_spec(s: Seq<char>) -> Option<(Seq<char>, Seq<RuleV>)> {
    let e = label_end(s, 0);
    if 0 <= e < s.len() && s[e] == '{' {
        let (rs, j) = rules_list_spec(s, e + 1);
        if 0 <= j < s.len() && s[j] == '}' {
            Some((s.subrange(0, e), rs))
        } else {
            None
        }
    } else {
        None
    }
}

/// One `property=value` assignment of a part line.
pub open spec fn part_prop_spec(s: Seq<char>, i: int) -> Option<((Property, int), int)> {
    match property_spec(s, i) {
        None => None,
        Some((p, j)) => {
            if 0 <= j < s.len() && s[j] == '=' {
                match number_spec(s, j + 1) {
                    None => None,
                    Some((v, j2)) => Some(((p, v), j2)),
                }
            } else {
                None
            }
        },
    }
}

/// Setting one property of the rating quadruple (x, m, a, s).
pub open spec fn assign_prop(acc: (int, int, int, int), p: Property, v: int) -> (
    int,
    int,
    int,
    int,
) {
    match p {
        Property::X => (v, acc.1, acc.2, acc.3),
        Property::M => (acc.0, v, acc.2, acc.3),
        Property::A => (acc.0, acc.1, v, acc.3),
        Property::S => (acc.0, acc.1, acc.2, v),
    }
}

/// The comma-separated assignments after the first one; an assignment
/// that fails to parse ends the list without consuming the comma.
pub open spec fn parts_tail(s: Seq<char>, j: int, acc: (int, int, int, int)) -> (
    (int, int, int, int),
    int,
)
    decreases s.len() - j,
{
    if 0 <= j < s.len() && s[j] == ',' {
        match part_prop_spec(s, j + 1) {
            Some(((p, v), j2)) => {
                if j < j2 <= s.len() {
                    parts_tail(s, j2, assign_prop(acc, p, v))
                } else {
                    (assign_prop(acc, p, v), j2)
                }
            },
            None => (acc, j),
        }
    } else {
        (acc, j)
    }
}

/// A whole part line: `{`, at least one assignment, `}`; unassigned
/// properties rate zero, later assignments win.
pub open spec fn part_spec(s: Seq<char>) -> Option<Part> {
    if 0 < s.len() && s[0] == '{' {
        match part_prop_spec(s, 1) {
            None => None,
            Some(((p, v), j)) => {
                let (acc, j2) = parts_tail(s, j, assign_prop((0, 0, 0, 0), p, v));
                if 0 <= j2 < s.len() && s[j2] == '}' {
                    Some(
                        Part {
                            x: acc.0 as i64,
                            m: acc.1 as i64,
                            a: acc.2 as i64,
                            s: acc.3 as i64,
                        },
                    )
                } else {
                    None
                }
            },
        }
    } else {
        None
    }
}


// ---------------------------------------------------------------------
// The executable parsers, each returning exactly what its grammar
// function denotes.
// ---------------------------------------------------------------------

/// Is the character at `k` a lowercase letter?
fn lower_at(s: &str, k: usize) -> (r: bool)
    requires
        k < s@.len(),
    ensures
        r == is_lower(s@[k as int]),
{
    let c = s.get_char(k);
    let u = c as u32;
    97 <= u && u <= 122
}

/// Is the character at `k` a digit?
fn digit_at(s: &str, k: usize) -> (r: bool)
    requires
        k < s@.len(),
    ensures
        r == is_digit_char(s@[k as int]),
{
    let c = s.get_char(k);
    let u = c as u32;
    48 <= u && u <= 57
}

/// Scans past the lowercase letters starting at `at`.
fn scan_label(s: &str, at: usize) -> (e: usize)
    requires
        at <= s@.len(),
    ensures
        e as int == label_end(s@, at as int),
        at <= e <= s@.len(),
{
    let n = s.unicode_len();
    let mut k = at;
    while k < n && lower_at(s, k)
        invariant
            at <= k <= n,
            n == s@.len(),
            label_end(s@, at as int) == label_end(s@, k as int),
        decreases n - k,
    {
        k = k + 1;
    }
    k
}

/// Reads one or more digits as an `i64`; fails exactly when `number_spec`
/// does (no digit here, or a value beyond `i64`).
fn scan_number(s: &str, at: usize) -> (r: Option<(i64, usize)>)
    requires
        at <= s@.len(),
    ensures
        match r {
            Some(ve) => number_spec(s@, at as int) == Some((ve.0 as int, ve.1 as int)) && at
                < ve.1 <= s@.len(),
            None => number_spec(s@, at as int) is None,
        },
{
    let n = s.unicode_len();
    let mut e = at;
    while e < n && digit_at(s, e)
        invariant
            at <= e <= n,
            n == s@.len(),
            digits_end(s@, at as int) == digits_end(s@, e as int),
        decreases n - e,
    {
        e = e + 1;
    }
    proof {
        assert(digits_end(s@, at as int) == e as int);
        lemma_digits_end_range(s@, at as int);
    }
    if e == at {
        return None;
    }
    let ghost t = s@.subrange(at as int, e as int);
    proof {
        assert(all_digits(t)) by {
            assert(forall|k: int| 0 <= k < t.len() ==> t[k] == #[trigger] s@[at + k]);
        }
    }
    let mut v: i64 = 0;
    let mut k = at;
    while k < e
        invariant
            at <= k <= e <= s@.len(),
            e as int == digits_end(s@, at as int),
            t == s@.subrange(at as int, e as int),
            all_digits(t),
            forall|m: int| at <= m < e ==> is_digit_char(#[trigger] s@[m]),
            0 <= v,
            v as int == digits_val(s@.subrange(at as int, k as int)),
        decreases e - k,
    {
        let c = s.get_char(k);
        let d = ((c as u32) - 48) as i64;
        proof {
            assert(is_digit_char(s@[k as int]));
            assert(s@.subrange(at as int, k as int + 1).drop_last() =~= s@.subrange(
                at as int,
                k as int,
            ));
            assert(s@.subrange(at as int, k as int + 1).last() == s@[k as int]);
            assert(t.subrange(0, k as int + 1 - at) =~= s@.subrange(at as int, k as int + 1));
        }
        let next = match v.checked_mul(10) {
            Some(m) => m.checked_add(d),
            None => None,
        };
        match next {
            Some(v2) => {
                v = v2;
            },
            None => {
                proof {
                    lemma_digits_val_prefix_le(t, k as int + 1 - at);
                    assert(digits_val(s@.subrange(at as int, k as int + 1)) > i64::MAX);
                    assert(digits_val(t) > i64::MAX);
                }
                return None;
            },
        }
        k = k + 1;
    }
    proof {
        assert(s@.subrange(at as int, e as int) =~= t);
    }
    Some((v, e))
}

/// Reads a (possibly empty) workflow name.
pub fn parse_label(s: &str, at: usize) -> (r: (String, usize))
    requires
        at <= s@.len(),
    ensures
        r.0@ == s@.subrange(at as int, label_end(s@, at as int)),
        r.1 as int == label_end(s@, at as int),
        at <= r.1 <= s@.len(),
{
    let e = scan_label(s, at);
    let sub = s.substring_char(at, e);
    (sub.to_owned(), e)
}

/// Reads a property letter.
pub fn property(s: &str, at: usize) -> (r: Option<(Property, usize)>)
    ensures
        match r {
            Some(pj) => property_spec(s@, at as int) == Some((pj.0, pj.1 as int)) && at < pj.1
                <= s@.len(),
            None => property_spec(s@, at as int) is None,
        },
{
    let n = s.unicode_len();
    if at >= n {
        return None;
    }
    let c = s.get_char(at);
    if c == 'x' {
        Some((Property::X, at + 1))
    } else if c == 'm' {
        Some((Property::M, at + 1))
    } else if c == 'a' {
        Some((Property::A, at + 1))
    } else if c == 's' {
        Some((Property::S, at + 1))
    } else {
        None
    }
}

/// Reads an action; always succeeds.
pub fn action(s: &str, at: usize) -> (r: (Action, usize))
    requires
        at <= s@.len(),
    ensures
        action_spec(s@, at as int) == (action_view(r.0), r.1 as int),
        at <= r.1 <= s@.len(),
{
    let n = s.unicode_len();
    if at < n && s.get_char(at) == 'A' {
        return (Action::Approve, at + 1);
    }
    if at < n && s.get_char(at) == 'R' {
        return (Action::Reject, at + 1);
    }
    let (name, e) = parse_label(s, at);
    (Action::Forward { target: name }, e)
}

/// Reads a conditional rule.
pub fn compare(s: &str, at: usize) -> (r: Option<(Compare, usize)>)
    requires
        at <= s@.len(),
    ensures
        match r {
            Some(cj) => compare_spec(s@, at as int) == Some((compare_view(cj.0), cj.1 as int))
                && at < cj.1 <= s@.len(),
            None => compare_spec(s@, at as int) is None,
        },
{
    let n = s.unicode_len();
    let (p, j) = match property(s, at) {
        Some(pj) => pj,
        None => {
            return None;
        },
    };
    if j >= n {
        return None;
    }
    let rc = s.get_char(j);
    if rc != '<' && rc != '>' {
        return None;
    }
    let rel = if rc == '<' {
        Relation::Less
    } else {
        Relation::Greater
    };
    let (v, j2) = match scan_number(s, j + 1) {
        Some(ve) => ve,
        None => {
            return None;
        },
    };
    if j2 >= n {
        return None;
    }
    if s.get_char(j2) != ':' {
        return None;
    }
    let (a, j3) = action(s, j2 + 1);
    Some((Compare { property: p, relation: rel, value: v, action: a }, j3))
}

/// Reads one workflow step; always succeeds.
pub fn rule(s: &str, at: usize) -> (r: (Rule, usize))
    requires
        at <= s@.len(),
    ensures
        rule_spec(s@, at as int) == (rule_view(r.0), r.1 as int),
        at <= r.1 <= s@.len(),
{
    match compare(s, at) {
        Some((c, j)) => (Rule::Compare(c), j),
        None => {
            let (a, j) = action(s, at);
            (Rule::Action(a), j)
        },
    }
}

/// Reads a whole workflow line: its name and its steps.
pub fn full_rule(s: &str) -> (r: Option<(String, Vec<Rule>)>)
    ensures
        match r {
            Some(nr) => full_rule_spec(s@) == Some((nr.0@, nr.1@.map_values(|x: Rule| rule_view(x)))),
            None => full_rule_spec(s@) is None,
        },
{
    let n = s.unicode_len();
    let (name, e) = parse_label(s, 0);
    if e >= n {
        return None;
    }
    if s.get_char(e) != '{' {
        return None;
    }
    let (r0, mut j) = rule(s, e + 1);
    let mut rules: Vec<Rule> = Vec::new();
    rules.push(r0);
    proof {
        assert(rules@.map_values(|x: Rule| rule_view(x)) =~= seq![rule_view(r0)]);
    }
    while j < n && s.get_char(j) == ','
        invariant
            n == s@.len(),
            0 <= j <= n,
            rules_list_spec(s@, e as int + 1) == rules_tail(
                s@,
                j as int,
                rules@.map_values(|x: Rule| rule_view(x)),
            ),
        decreases n - j,
    {
        let ghost rules0 = rules@;
        let (rk, j2) = rule(s, j + 1);
        rules.push(rk);
        proof {
            assert(rules@.map_values(|x: Rule| rule_view(x)) =~= rules0.map_values(
                |x: Rule| rule_view(x),
            ).push(rule_view(rk)));
        }
        j = j2;
    }
    if j >= n {
        return None;
    }
    if s.get_char(j) != '}' {
        return None;
    }
    proof {
        assert(s@.subrange(0, e as int) == name@);
    }
    Some((name, rules))
}

/// Reads one workflow line, with a typed error exactly when the grammar
/// rejects it.
pub fn parse_rule(line: &str) -> (r: Result<(String, Vec<Rule>), SearchError>)
    ensures
        match r {
            Ok(nr) => full_rule_spec(line@) == Some(
                (nr.0@, nr.1@.map_values(|x: Rule| rule_view(x))),
            ),
            Err(e) => e == SearchError::ParseError && full_rule_spec(line@) is None,
        },
{
    match full_rule(line) {
        Some(nr) => Ok(nr),
        None => Err(SearchError::ParseError),
    }
}

/// Reads one `property=value` assignment.
pub fn part_property(s: &str, at: usize) -> (r: Option<((Property, i64), usize)>)
    requires
        at <= s@.len(),
    ensures
        match r {
            Some(pj) => part_prop_spec(s@, at as int) == Some(
                ((pj.0.0, pj.0.1 as int), pj.1 as int),
            ) && at < pj.1 <= s@.len(),
            None => part_prop_spec(s@, at as int) is None,
        },
{
    let n = s.unicode_len();
    let (p, j) = match property(s, at) {
        Some(pj) => pj,
        None => {
            return None;
        },
    };
    if j >= n {
        return None;
    }
    if s.get_char(j) != '=' {
        return None;
    }
    let (v, j2) = match scan_number(s, j + 1) {
        Some(ve) => ve,
        None => {
            return None;
        },
    };
    Some(((p, v), j2))
}

/// Reads a whole part line.
pub fn part(s: &str) -> (r: Option<Part>)
    ensures
        r == part_spec(s@),
{
    let n = s.unicode_len();
    if n == 0 {
        return None;
    }
    if s.get_char(0) != '{' {
        return None;
    }
    let ((p0, v0), j0) = match part_property(s, 1) {
        Some(pj) => pj,
        None => {
            return None;
        },
    };
    let mut x: i64 = 0;
    let mut m: i64 = 0;
    let mut a: i64 = 0;
    let mut sv: i64 = 0;
    match p0 {
        Property::X => {
            x = v0;
        },
        Property::M => {
            m = v0;
        },
        Property::A => {
            a = v0;
        },
        Property::S => {
            sv = v0;
        },
    }
    let ghost target = parts_tail(s@, j0 as int, assign_prop((0, 0, 0, 0), p0, v0 as int));
    let mut j = j0;
    let mut done = false;
    while !done
        invariant
            n == s@.len(),
            0 <= j <= n,
            if done {
                (x as int, m as int, a as int, sv as int) == target.0 && j as int == target.1
            } else {
                parts_tail(s@, j as int, (x as int, m as int, a as int, sv as int)) == target
            },
        decreases n - j, if done {
            0int
        } else {
            1int
        },
    {
        if j < n && s.get_char(j) == ',' {
            match part_property(s, j + 1) {
                Some(((p, v), j2)) => {
                    match p {
                        Property::X => {
                            x = v;
                        },
                        Property::M => {
                            m = v;
                        },
                        Property::A => {
                            a = v;
                        },
                        Property::S => {
                            sv = v;
                        },
                    }
                    j = j2;
                },
                None => {
                    done = true;
                },
            }
        } else {
            done = true;
        }
    }
    if j >= n {
        return None;
    }
    if s.get_char(j) != '}' {
        return None;
    }
    Some(Part { x, m, a, s: sv })
}

/// Reads one part line, with a typed error exactly when the grammar
/// rejects it.
pub fn parse_part(line: &str) -> (r: Result<Part, SearchError>)
    ensures
        match r {
            Ok(p) => part_spec(line@) == Some(p),
            Err(e) => e == SearchError::ParseError && part_spec(line@) is None,
        },
{
    match part(line) {
        Some(p) => Ok(p),
        None => Err(SearchError::ParseError),
    }
}

/// Whether `a` relates to `b` under this comparison.
pub open spec fn relation_holds(rel: Relation, a: int, b: int) -> bool {
    match rel {
        Relation::Less => a < b,
        Relation::Greater => a > b,
    }
}

/// The rating of `part` at `property`.
pub open spec fn property_of(part: Part, property: Property) -> int {
    match property {
        Property::X => part.x as int,
        Property::M => part.m as int,
        Property::A => part.a as int,
        Property::S => part.s as int,
    }
}

impl Relation {
    /// Compares two ratings under this relation.
    pub fn compare(&self, a: i64, b: i64) -> (r: bool)
        ensures
            r == relation_holds(*self, a as int, b as int),
    {
        match self {
            Relation::Less => a < b,
            Relation::Greater => a > b,
        }
    }

    /// Does `part`'s rating at `property` relate to `value`?
    pub fn is_satisfied_by(&self, part: &Part, property: Property, value: i64) -> (r: bool)
        ensures
            r == relation_holds(*self, property_of(*part, property), value as int),
    {
        match property {
            Property::X => self.compare(part.x, value),
            Property::M => self.compare(part.m, value),
            Property::A => self.compare(part.a, value),
            Property::S => self.compare(part.s, value),
        }
    }
}

impl Compare {
    /// The action to take on `part`, if this rule fires on it.
    pub fn action_for<'a>(&'a self, part: &Part) -> (r: Option<&'a Action>)
        ensures
            match r {
                Some(a) => relation_holds(
                    self.relation,
                    property_of(*part, self.property),
                    self.value as int,
                ) && a == &self.action,
                None => !relation_holds(
                    self.relation,
                    property_of(*part, self.property),
                    self.value as int,
                ),
            },
    {
        if self.relation.is_satisfied_by(part, self.property, self.value) {
            Some(&self.action)
        } else {
            None
        }
    }
}

impl Part {
    /// The total rating of a part: the sum of its four ratings.
    pub fn rating(&self) -> (r: i64)
        requires
            i64::MIN <= self.x + self.m + self.a + self.s <= i64::MAX,
            i64::MIN <= self.x + self.m <= i64::MAX,
            i64::MIN <= self.x + self.m + self.a <= i64::MAX,
        ensures
            r == self.x + self.m + self.a + self.s,
    {
        self.x + self.m + self.a + self.s
    }
}

/// Reads workflow lines from `start` until an empty line (consumed) or
/// the end of input; succeeds exactly when every such line parses.
pub fn parse_rules(lines: &Vec<String>, start: usize) -> (r: Option<
    (Vec<(String, Vec<Rule>)>, usize),
>)
    requires
        start <= lines@.len(),
    ensures
        match r {
            Some(wn) => {
                let lv = lines.deep_view();
                let stop = rows_end(lv, start as int);
                &&& wn.1 as int == if stop < lv.len() {
                    stop + 1
                } else {
                    stop
                }
                &&& wn.0@.len() == stop - start
                &&& forall|k: int|
                    0 <= k < wn.0@.len() ==> full_rule_spec(lines.deep_view()[start + k]) == Some(
                        ((#[trigger] wn.0@[k]).0@, wn.0@[k].1@.map_values(|x: Rule| rule_view(x))),
                    )
            },
            None => exists|k: int|
                start <= k < rows_end(lines.deep_view(), start as int) && full_rule_spec(
                    #[trigger] lines.deep_view()[k],
                ) is None,
        },
{
    let ghost lv = lines.deep_view();
    proof {
        assert(lv.len() == lines@.len());
        assert(forall|k: int| 0 <= k < lv.len() ==> #[trigger] lv[k] == lines@[k]@);
    }
    let mut out: Vec<(String, Vec<Rule>)> = Vec::new();
    let mut i = start;
    while i < lines.len() && lines[i].as_str().unicode_len() != 0
        invariant
            lv == lines.deep_view(),
            lv.len() == lines@.len(),
            forall|k: int| 0 <= k < lv.len() ==> #[trigger] lv[k] == lines@[k]@,
            start <= i <= lv.len(),
            rows_end(lv, start as int) == rows_end(lv, i as int),
            out@.len() == i - start,
            forall|k: int|
                0 <= k < out@.len() ==> full_rule_spec(lv[start + k]) == Some(
                    ((#[trigger] out@[k]).0@, out@[k].1@.map_values(|x: Rule| rule_view(x))),
                ),
        decreases lv.len() - i,
    {
        match full_rule(lines[i].as_str()) {
            Some(nr) => {
                out.push(nr);
            },
            None => {
                proof {
                    crate::almanac::lemma_rows_end_range(lv, i as int + 1);
                    assert(i < rows_end(lv, i as int));
                    assert(full_rule_spec(lv[i as int]) is None);
                }
                return None;
            },
        }
        i = i + 1;
    }
    proof {
        assert(rows_end(lv, i as int) == i as int || rows_end(lv, i as int) == lv.len());
        assert(rows_end(lv, start as int) == i as int);
    }
    let next = if i < lines.len() {
        i + 1
    } else {
        i
    };
    Some((out, next))
}

/// Reads part lines from `start` until an empty line (consumed) or the
/// end of input; succeeds exactly when every such line parses.
pub fn parse_parts(lines: &Vec<String>, start: usize) -> (r: Option<(Vec<Part>, usize)>)
    requires
        start <= lines@.len(),
    ensures
        match r {
            Some(pn) => {
                let lv = lines.deep_view();
                let stop = rows_end(lv, start as int);
                &&& pn.1 as int == if stop < lv.len() {
                    stop + 1
                } else {
                    stop
                }
                &&& pn.0@.len() == stop - start
                &&& forall|k: int|
                    0 <= k < pn.0@.len() ==> part_spec(lines.deep_view()[start + k]) == Some(
                        #[trigger] pn.0@[k],
                    )
            },
            None => exists|k: int|
                start <= k < rows_end(lines.deep_view(), start as int) && part_spec(
                    #[trigger] lines.deep_view()[k],
                ) is None,
        },
{
    let ghost lv = lines.deep_view();
    proof {
        assert(lv.len() == lines@.len());
        assert(forall|k: int| 0 <= k < lv.len() ==> #[trigger] lv[k] == lines@[k]@);
    }
    let mut out: Vec<Part> = Vec::new();
    let mut i = start;
    while i < lines.len() && lines[i].as_str().unicode_len() != 0
        invariant
            lv == lines.deep_view(),
            lv.len() == lines@.len(),
            forall|k: int| 0 <= k < lv.len() ==> #[trigger] lv[k] == lines@[k]@,
            start <= i <= lv.len(),
            rows_end(lv, start as int) == rows_end(lv, i as int),
            out@.len() == i - start,
            forall|k: int|
                0 <= k < out@.len() ==> part_spec(lv[start + k]) == Some(#[trigger] out@[k]),
        decreases lv.len() - i,
    {
        match part(lines[i].as_str()) {
            Some(pv) => {
                out.push(pv);
            },
            None => {
                proof {
                    crate::almanac::lemma_rows_end_range(lv, i as int + 1);
                    assert(i < rows_end(lv, i as int));
                    assert(part_spec(lv[i as int]) is None);
                }
                return None;
            },
        }
        i = i + 1;
    }
    proof {
        assert(rows_end(lv, i as int) == i as int || rows_end(lv, i as int) == lv.len());
        assert(rows_end(lv, start as int) == i as int);
    }
    let next = if i < lines.len() {
        i + 1
    } else {
        i
    };
    Some((out, next))
}

} // verus!
