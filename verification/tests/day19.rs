use grid_paths::day19::{
    part_one, part_two, parse, Part, PartRange, Range, Rule, RuleCategory, RuleResult, Rules,
};

const EXAMPLE: &str = "px{a<2006:qkq,m>2090:A,rfg}
pv{a>1716:R,A}
lnx{m>1548:A,A}
rfg{s<537:gd,x>2440:R,A}
qs{s>3448:A,lnx}
qkq{x<1416:A,crn}
crn{x>2662:A,R}
in{s<1351:px,qqz}
qqz{s>2770:qs,m<1801:hdj,R}
gd{a>3333:R,R}
hdj{m>838:A,pv}

{x=787,m=2655,a=1222,s=2876}
{x=1679,m=44,a=2067,s=496}
{x=2036,m=264,a=79,s=2244}
{x=2461,m=1339,a=466,s=291}
{x=2127,m=1623,a=2188,s=1013}
";

#[test]
fn day19_test_part_one() {
    assert_eq!(part_one(EXAMPLE), Some(19114));
}

#[test]
fn day19_test_part_two() {
    assert_eq!(part_two(EXAMPLE), Some(167409079868000));
}

#[test]
fn day19_parse_reads_workflows_and_parts() {
    let (rules, parts) = parse(EXAMPLE.as_bytes()).unwrap();
    assert_eq!(rules.names.len(), 11);
    assert_eq!(rules.rules.len(), 11);
    assert_eq!(rules.names[7], b"in".to_vec());
    assert_eq!(rules.rules[7].rules.len(), 1);
    assert_eq!(
        rules.rules[7].rules[0],
        Rule { category: 3, less: true, comparison: 1351, destination: RuleResult::NextRule(0) }
    );
    assert_eq!(rules.rules[7].fallthrough, RuleResult::NextRule(8));
    assert_eq!(rules.rules[1].fallthrough, RuleResult::FinalStatus(true));
    assert_eq!(parts.len(), 5);
    assert_eq!(parts[0], Part { x: 787, m: 2655, a: 1222, s: 2876 });
    assert_eq!(parts[0].score(), 7540);
    assert_eq!(rules.apply(7, &parts[0]), Some(true));
    assert_eq!(rules.apply(7, &parts[1]), Some(false));
}

#[test]
fn day19_malformed_text_is_refused() {
    assert_eq!(part_one(""), None);
    assert_eq!(part_one("in{A}\n{x=1,m=2,a=3,s=4}\n"), None);
    assert_eq!(part_one("in{q<3:A,R}\n\n{x=1,m=2,a=3,s=4}\n"), None);
    assert_eq!(part_one("in{x<3:A,R}\n\n{x=1,m=2,a=3}\n"), None);
    assert_eq!(part_one("go{x<3:A,R}\n\n{x=1,m=2,a=3,s=4}\n"), None);
}

#[test]
fn day19_single_workflow() {
    assert_eq!(part_one("in{x<3:A,R}\n\n{x=1,m=2,a=3,s=4}\n{x=3,m=2,a=3,s=4}\n"), Some(10));
    assert_eq!(part_two("in{x<3:A,R}\n\n{x=1,m=2,a=3,s=4}\n"), Some(2 * 4000 * 4000 * 4000));
    assert_eq!(part_two("in{x>3:A,R}\n\n{x=1,m=2,a=3,s=4}\n"), Some(3997 * 4000 * 4000 * 4000));
    assert_eq!(part_two("in{A}\n\n{x=1,m=2,a=3,s=4}\n"), Some(4000u64 * 4000 * 4000 * 4000));
}

#[test]
fn day19_missing_workflow_and_endless_round() {
    assert_eq!(part_one("in{x<3:out,R}\n\n{x=1,m=2,a=3,s=4}\n"), None);
    assert_eq!(part_two("in{x<3:out,R}\n\n{x=1,m=2,a=3,s=4}\n"), None);
    assert_eq!(part_one("in{x<3:in,R}\n\n{x=1,m=2,a=3,s=4}\n"), None);
    assert_eq!(part_one("in{x<3:in,R}\n\n{x=5,m=2,a=3,s=4}\n"), Some(0));
}

#[test]
fn day19_range_apply_splits_at_the_comparison() {
    let less = Rule { category: 0, less: true, comparison: 10, destination: RuleResult::Missing };
    let more = Rule { category: 0, less: false, comparison: 10, destination: RuleResult::Missing };
    let range = Range { start: 1, end: 4001 };
    assert_eq!(range.apply(&less), (Range { start: 1, end: 10 }, Range { start: 10, end: 4001 }));
    assert_eq!(range.apply(&more), (Range { start: 11, end: 4001 }, Range { start: 1, end: 11 }));
    assert_eq!(Range::new().count(), Some(4000));
    assert_eq!(Range { start: 5, end: 4 }.count(), None);
    assert_eq!(PartRange::new().count(), Some(4000u64 * 4000 * 4000 * 4000));
    let (catch, fall) = less.apply_range(PartRange::new());
    assert_eq!(catch.x, Range { start: 1, end: 10 });
    assert_eq!(fall.x, Range { start: 10, end: 4001 });
    assert_eq!(catch.m, Range::new());
}

#[test]
fn day19_apply_range_sorts_blocks() {
    let rules = Rules {
        names: vec![b"in".to_vec()],
        rules: vec![RuleCategory {
            rules: vec![Rule {
                category: 1,
                less: true,
                comparison: 100,
                destination: RuleResult::FinalStatus(true),
            }],
            fallthrough: RuleResult::FinalStatus(false),
        }],
    };
    let sorted = rules.apply_range(0, PartRange::new()).unwrap();
    assert_eq!(sorted.len(), 2);
    assert_eq!(sorted[0].1, RuleResult::FinalStatus(true));
    assert_eq!(sorted[0].0.m, Range { start: 1, end: 100 });
    assert_eq!(sorted[1].1, RuleResult::FinalStatus(false));
    assert_eq!(sorted[1].0.m, Range { start: 100, end: 4001 });
    assert_eq!(rules.apply_range(1, PartRange::new()), None);
}
