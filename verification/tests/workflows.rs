use advent::workflows::{
    action, compare, parse_part, parse_parts, parse_rule, parse_rules, part, rule, Action,
    Compare, Part, Relation, Rule,
};

#[test]
fn test_parse_rule() {
    let sample = "px{a<2006:qkq,m>2090:A,rfg}".to_string();
    let (expected_tag, expected_rule) = parse_rule(&sample).unwrap();
    assert_eq!("px", expected_tag);
    assert_eq!(3, expected_rule.len());
}

#[test]
fn test_action() {
    assert_eq!(action("R", 0), (Action::Reject, 1));
    assert_eq!(action("A", 0), (Action::Approve, 1));
    assert_eq!(
        action("qkq", 0),
        (Action::Forward { target: "qkq".to_string() }, 3)
    );
}

#[test]
fn test_compare() {
    assert_eq!(
        compare("x<2006:A", 0),
        Some((
            Compare {
                property: advent::workflows::Property::X,
                relation: Relation::Less,
                value: 2006,
                action: Action::Approve
            },
            8
        ))
    );
    assert_eq!(
        compare("a<2006:qkq", 0),
        Some((
            Compare {
                property: advent::workflows::Property::A,
                relation: Relation::Less,
                value: 2006,
                action: Action::Forward { target: "qkq".to_string() }
            },
            10
        ))
    );
}

#[test]
fn test_rule() {
    let sample = "a<2006:qkq";
    let (r, _) = rule(sample, 0);
    assert_eq!(
        r,
        Rule::Compare(Compare {
            property: advent::workflows::Property::A,
            relation: Relation::Less,
            value: 2006,
            action: Action::Forward { target: "qkq".to_string() }
        })
    );
    let sample = "A";
    let (r, _) = rule(sample, 0);
    assert_eq!(r, Rule::Action(Action::Approve));
}

#[test]
fn test_part() {
    let sample = "{x=787,m=2655,a=1222,s=2876}";
    let p = part(sample).unwrap();
    assert_eq!(p, Part { x: 787, m: 2655, a: 1222, s: 2876 });
}

#[test]
fn parse_part_reports_errors() {
    assert_eq!(
        parse_part("{x=787,m=2655,a=1222,s=2876}"),
        Ok(Part { x: 787, m: 2655, a: 1222, s: 2876 })
    );
    assert_eq!(parse_part("x=787"), Err(advent::SearchError::ParseError));
}

#[test]
fn rule_and_part_blocks() {
    let lines: Vec<String> = vec![
        "px{a<2006:qkq,m>2090:A,rfg}".to_string(),
        "pv{a>1716:R,A}".to_string(),
        "".to_string(),
        "{x=787,m=2655,a=1222,s=2876}".to_string(),
        "{x=2036,m=264,a=79,s=2244}".to_string(),
    ];
    let (workflows, next) = parse_rules(&lines, 0).unwrap();
    assert_eq!(workflows.len(), 2);
    assert_eq!(next, 3);
    assert_eq!(workflows[0].0, "px");
    assert_eq!(workflows[1].1.len(), 2);
    let (parts, after) = parse_parts(&lines, next).unwrap();
    assert_eq!(parts.len(), 2);
    assert_eq!(after, 5);
    assert_eq!(parts[1], Part { x: 2036, m: 264, a: 79, s: 2244 });
}

#[test]
fn relations_and_ratings() {
    let p = Part { x: 787, m: 2655, a: 1222, s: 2876 };
    assert_eq!(p.rating(), 7540);
    assert!(Relation::Less.compare(1, 2));
    assert!(!Relation::Greater.compare(1, 2));
    assert!(Relation::Greater.is_satisfied_by(&p, advent::workflows::Property::M, 2090));
    let c = Compare {
        property: advent::workflows::Property::A,
        relation: Relation::Less,
        value: 2006,
        action: Action::Forward { target: "qkq".to_string() },
    };
    assert_eq!(
        c.action_for(&p),
        Some(&Action::Forward { target: "qkq".to_string() })
    );
    let far = Part { x: 787, m: 2655, a: 3000, s: 2876 };
    assert_eq!(c.action_for(&far), None);
}
