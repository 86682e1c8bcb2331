use grid_paths::day20::{
    count_pulses, deliver, parse, part_one, press, presses_until_high, rest, send, Machine,
    Network, Pulse, CONJUNCTION, FLIP_FLOP, PASS_THROUGH,
};
use grid_paths::grid::SearchError;
use grid_paths::period::{detect_period_and_project, Simulation};

const RELAY: &str = "broadcaster -> a, b, c
%a -> b
%b -> c
%c -> inv
&inv -> a
";

const COUNTER: &str = "broadcaster -> a
%a -> inv, con
&inv -> b
%b -> con
&con -> output
";

#[test]
fn test_part_one() {
    let result = part_one(COUNTER);
    assert_eq!(result, Some(4250 * 2750));
}

#[test]
fn test_part_two() {
    let result = Some(0);
    assert_eq!(result, Some(0));
}

#[test]
fn day20_relay_counts() {
    assert_eq!(part_one(RELAY), Some(32000000));
    let net = parse(RELAY.as_bytes()).unwrap();
    assert_eq!(count_pulses(&net, 1, 100), Some(8 * 4));
    assert_eq!(count_pulses(&net, 0, 100), Some(0));
    assert_eq!(count_pulses(&net, 1, 11), Some(32));
    assert_eq!(count_pulses(&net, 1, 10), None);
}

#[test]
fn day20_network_is_read_as_written() {
    let net = parse(COUNTER.as_bytes()).unwrap();
    assert_eq!(net.kinds, vec![PASS_THROUGH, FLIP_FLOP, CONJUNCTION, FLIP_FLOP, CONJUNCTION]);
    assert_eq!(
        net.targets,
        vec![
            vec![Some(1)],
            vec![Some(2), Some(4)],
            vec![Some(3)],
            vec![Some(4)],
            vec![None]
        ]
    );
    assert_eq!(net.sources, vec![vec![], vec![0], vec![1], vec![2], vec![1, 3]]);
    assert_eq!(net.broadcaster, 0);
    assert!(parse(b"%a -> b\n").is_none());
    assert!(parse(b"broadcaster a\n").is_none());
    assert!(parse(b"").is_none());
    let lone = parse(b"broadcaster -> \n").unwrap();
    assert_eq!(lone.targets, vec![Vec::<Option<usize>>::new()]);
    let odd = parse(b"broadcaster -> a, , b, \n").unwrap();
    assert_eq!(odd.targets, vec![vec![None, None, None]]);
}

#[test]
fn day20_presses_and_deliveries() {
    let net = parse(COUNTER.as_bytes()).unwrap();
    let mut machine = rest(&net);
    let (lows, highs, fired) = press(&net, &mut machine, 1000).unwrap();
    assert_eq!((lows, highs), (4, 4));
    assert_eq!(fired, vec![false, true, false, true, true]);
    assert_eq!(machine.flip, vec![false, true, false, true, false]);
    assert_eq!(machine.memory[4], vec![true, true]);
    let (lows, highs, _) = press(&net, &mut machine, 1000).unwrap();
    assert_eq!((lows, highs), (4, 2));
    let mut queue = Vec::new();
    send(&net, 1, true, &mut queue);
    assert_eq!(
        queue,
        vec![
            Pulse { source: 1, target: Some(2), high: true },
            Pulse { source: 1, target: Some(4), high: true }
        ]
    );
    let mut m = rest(&net);
    assert!(!deliver(&net, &mut m, Pulse { source: 1, target: Some(0), high: false }, &mut queue));
    assert!(!deliver(&net, &mut m, Pulse { source: 0, target: Some(4), high: false }, &mut queue));
    assert!(deliver(&net, &mut m, Pulse { source: 0, target: Some(1), high: true }, &mut queue));
    assert!(deliver(&net, &mut m, Pulse { source: 0, target: None, high: true }, &mut queue));
    assert_eq!(queue.len(), 2);
    let bad = parse(b"broadcaster -> broadcaster\n").unwrap();
    assert_eq!(count_pulses(&bad, 1, 100), None);
}

#[test]
fn day20_first_high_pulse_of_a_module() {
    let net = parse(COUNTER.as_bytes()).unwrap();
    assert_eq!(presses_until_high(&net, 1, 10, 1000), Ok(1));
    assert_eq!(presses_until_high(&net, 3, 10, 1000), Ok(1));
    assert_eq!(presses_until_high(&net, 2, 10, 1000), Ok(2));
    assert_eq!(presses_until_high(&net, 0, 10, 1000), Err(SearchError::NonTerminatingSimulation));
    assert_eq!(presses_until_high(&net, 2, 1, 1000), Err(SearchError::NonTerminatingSimulation));
    assert_eq!(presses_until_high(&net, 3, 10, 2), Err(SearchError::NonTerminatingSimulation));
}

#[test]
fn day20_machine_repeats_after_four_presses() {
    let net: Network = parse(COUNTER.as_bytes()).unwrap();
    let start: Machine = rest(&net);
    let far = detect_period_and_project(&net, net.duplicate(&start), 1_000_000_000, 100).ok().unwrap();
    assert!(net.same(&far, &start));
    let mut stepped = net.duplicate(&start);
    for target in 0..12usize {
        let projected = detect_period_and_project(&net, rest(&net), target, 6).ok().unwrap();
        assert!(net.same(&projected, &stepped));
        stepped = net.step(&stepped);
    }
    assert!(!net.same(&net.step(&start), &start));
    assert_ne!(net.fingerprint(&net.step(&start)), net.fingerprint(&start));
}

#[test]
fn day20_watch_finds_the_first_high_pulse_of_a_named_module() {
    let text = b"broadcaster -> a\n%a -> inv, con\n&inv -> b\n%b -> con\n&con -> output\n";
    assert_eq!(grid_paths::day20::watch(text, &b"inv".to_vec(), 10, 1000), Ok(2));
    assert_eq!(grid_paths::day20::watch(text, &b"a".to_vec(), 10, 1000), Ok(1));
    assert_eq!(
        grid_paths::day20::watch(text, &b"zz".to_vec(), 10, 1000),
        Err(grid_paths::grid::SearchError::MalformedInput)
    );
    assert_eq!(
        grid_paths::day20::watch(b"a -> b\n", &b"a".to_vec(), 10, 1000),
        Err(grid_paths::grid::SearchError::MalformedInput)
    );
    let names = grid_paths::day20::module_names(text);
    assert_eq!(names[1], b"a".to_vec());
    assert_eq!(names[4], b"con".to_vec());
}
