use rug::Rational;
use treelars::exact::Exact;
use treelars::float::Float;
use treelars::graphidx::weights::{ArrayWeights, ConstantWeights};
use treelars::instance::{Instance, Weights};
use treelars::line::LineDP;
use treelars::pwl::{clip, clip_front, Event};
use treelars::generics::{False, True};
use treelars::stats::{lambda_max, lambda_max_factor, welford_mean};

fn q(num: i64, den: i64) -> Exact {
    Exact::ratio(num, den).unwrap()
}

fn qs(v: &[(i64, i64)]) -> Vec<Exact> {
    v.iter().map(|&(n, d)| q(n, d)).collect()
}

fn zeros(n: usize) -> Vec<Exact> {
    (0..n).map(|_| q(0, 1)).collect()
}

#[test]
fn exact_arithmetic_is_exact() {
    assert_eq!(q(1, 10).plus(&q(2, 10)), q(3, 10));
    assert_eq!(q(1, 3).minus(&q(1, 2)), q(-1, 6));
    assert_eq!(q(2, 3).times(&q(3, 4)), q(1, 2));
    assert_eq!(q(2, 3).over(&q(4, 9)), q(3, 2));
    assert_eq!(q(2, 3).negated(), q(-2, 3));
    assert_eq!(q(2, 3).copy(), q(4, 6));
    assert!(q(1, 3).less(&q(1, 2)));
    assert!(!q(1, 2).less(&q(1, 2)));
    assert!(!q(1, 2).less(&q(1, 3)));
    assert_eq!(Exact::from_i16(-7), q(-7, 1));
    assert_eq!(Exact::eps(), q(0, 1));
}

#[test]
fn exact_infinities_are_ordered() {
    let inf = Exact::infinity();
    let minus = Exact::infinity().negated();
    assert_eq!(inf, Exact::PosInf);
    assert_eq!(minus, Exact::NegInf);
    assert_eq!(minus.negated(), Exact::PosInf);
    assert!(minus.less(&q(-1_000_000, 1)));
    assert!(q(1_000_000, 1).less(&inf));
    assert!(minus.less(&inf));
    assert!(!inf.less(&inf));
    assert!(!minus.less(&minus));
    assert!(!inf.less(&q(0, 1)));
    assert!(!q(0, 1).less(&minus));
    assert_eq!(minus.abs(), Exact::PosInf);
    assert_eq!(q(5, 1).clip(&minus, &inf), q(5, 1));
    assert_eq!(inf.clip(&q(0, 1), &q(1, 1)), q(1, 1));
    assert_eq!(minus.clip(&q(0, 1), &q(1, 1)), q(0, 1));
    assert_eq!(q(2, 1).min(&inf), q(2, 1));
}

#[test]
fn exact_ratio_and_rational() {
    assert!(Exact::ratio(1, 0).is_none());
    assert_eq!(q(6, -4), Exact::from_rational(Rational::from((-3, 2))));
    assert_eq!(q(6, -4).to_rational(), Some(Rational::from((-3, 2))));
    assert_eq!(Exact::PosInf.to_rational(), None);
    assert!(q(1, 2).is_finite());
    assert!(!Exact::NegInf.is_finite());
}

#[test]
fn event_offset_is_exact() {
    let e = Event { x: q(-15, 100), slope: q(2, 1) };
    assert_eq!(e.offset(), q(3, 10));
    assert_eq!(Event::<Exact>::zero(), Event { x: q(0, 1), slope: q(0, 1) });
}

#[test]
fn clip_forward_on_empty_window() {
    let mut events: Vec<Event<Exact>> = (0..4).map(|_| Event::zero()).collect();
    let mut pq = 2..2;
    // 2 x - 3 = 0
    let x = clip::<Exact, True>(&mut events, &mut pq, q(2, 1), q(-3, 1));
    assert_eq!(x, q(3, 2));
    assert_eq!(pq, 1..2);
    assert_eq!(events[1], Event { x: q(3, 2), slope: q(2, 1) });
    assert_eq!(events[0], Event::zero());
    assert_eq!(events[2], Event::zero());
}

#[test]
fn clip_backward_on_empty_window() {
    let mut events: Vec<Event<Exact>> = (0..4).map(|_| Event::zero()).collect();
    let mut pq = 2..2;
    // -2 x + 5 = 0
    let x = clip::<Exact, False>(&mut events, &mut pq, q(-2, 1), q(5, 1));
    assert_eq!(x, q(5, 2));
    assert_eq!(pq, 2..3);
    assert_eq!(events[2], Event { x: q(5, 2), slope: q(-2, 1) });
}

#[test]
fn clip_walks_past_breakpoints() {
    // message: -1 below 0, slope 1 on [0, 2], +1 above 2
    let mut events: Vec<Event<Exact>> = vec![
        Event::zero(),
        Event { x: q(0, 1), slope: q(1, 1) },
        Event { x: q(2, 1), slope: q(-1, 1) },
        Event::zero(),
    ];
    let mut pq = 1..3;
    // line x - 6, negative at 0 and, with slope 2, at 2: both breakpoints
    // are taken in, slope 1 + 1 - 1 = 1, offset -6 + 0 + 2 = -4
    let x = clip::<Exact, True>(&mut events, &mut pq, q(1, 1), q(-6, 1));
    assert_eq!(x, q(4, 1));
    assert_eq!(pq, 2..3);
    assert_eq!(events[2], Event { x: q(4, 1), slope: q(1, 1) });
}

#[test]
fn clip_stops_at_first_breakpoint_where_not_negative() {
    let mut events: Vec<Event<Exact>> = vec![
        Event::zero(),
        Event { x: q(0, 1), slope: q(1, 1) },
        Event { x: q(2, 1), slope: q(-1, 1) },
        Event::zero(),
    ];
    let mut pq = 1..3;
    // line x - 1: negative at 0, taken in: slope 2, offset -1; at 2 it is 3
    // and the walk stops
    let x = clip::<Exact, True>(&mut events, &mut pq, q(1, 1), q(-1, 1));
    assert_eq!(x, q(1, 2));
    assert_eq!(pq, 1..3);
    assert_eq!(events[1], Event { x: q(1, 2), slope: q(2, 1) });
    assert_eq!(events[2], Event { x: q(2, 1), slope: q(-1, 1) });
}

#[test]
fn clip_front_walks_while_negative() {
    let events: Vec<Event<Exact>> = vec![
        Event { x: q(0, 1), slope: q(1, 1) },
        Event { x: q(2, 1), slope: q(-1, 1) },
    ];
    // x - 1: negative at 0, taken in; 2 x - 1 is 3 at 2
    assert_eq!(clip_front(&events, q(1, 1), q(-1, 1)), (q(2, 1), q(-1, 1)));
    // x - 6: both are taken in
    assert_eq!(clip_front(&events, q(1, 1), q(-6, 1)), (q(1, 1), q(-4, 1)));
    // x + 1: not negative at 0
    assert_eq!(clip_front(&events, q(1, 1), q(1, 1)), (q(1, 1), q(1, 1)));
    assert_eq!(clip_front::<Exact>(&[], q(1, 1), q(-1, 1)), (q(1, 1), q(-1, 1)));
}

#[test]
fn clip_flat_line_has_no_crossing() {
    let mut events: Vec<Event<Exact>> = (0..4).map(|_| Event::zero()).collect();
    let mut pq = 2..2;
    let x = clip::<Exact, True>(&mut events, &mut pq, q(0, 1), q(1, 1));
    assert_eq!(x, Exact::NegInf);
    assert_eq!(pq, 2..2);
    let x = clip::<Exact, False>(&mut events, &mut pq, q(0, 1), q(1, 1));
    assert_eq!(x, Exact::PosInf);
    assert_eq!(pq, 2..2);
    assert!(events.iter().all(|e| *e == Event::zero()));
}

#[test]
fn line_of_three_with_small_penalty() {
    let y = qs(&[(1, 1), (2, 1), (1, 1)]);
    let lam = ConstantWeights::new(q(1, 10));
    let mu = ConstantWeights::new(q(1, 1));
    let mut solver = LineDP::new(3);
    let mut x = zeros(3);
    solver.solve(&mut x, &y, &lam, &mu);
    assert_eq!(x, qs(&[(11, 10), (9, 5), (11, 10)]));
    let (lb, ub) = solver.get_bounds();
    assert_eq!(lb, qs(&[(9, 10), (9, 5)]).as_slice());
    assert_eq!(ub, qs(&[(11, 10), (2, 1)]).as_slice());
    assert_eq!(
        solver.segments(),
        vec![(0..1, q(11, 10)), (1..2, q(9, 5)), (2..3, q(11, 10))]
    );
    assert_eq!(solver.dof(), 3);
}

#[test]
fn large_penalty_fuses_all() {
    let y = qs(&[(0, 1), (3, 1), (0, 1)]);
    let lam = ConstantWeights::new(q(1, 1));
    let mu = ConstantWeights::new(q(1, 1));
    let mut solver = LineDP::new(3);
    let mut x = zeros(3);
    solver.solve(&mut x, &y, &lam, &mu);
    assert_eq!(x, qs(&[(1, 1), (1, 1), (1, 1)]));
    assert_eq!(solver.segments(), vec![(0..3, q(1, 1))]);
    assert_eq!(solver.dof(), 1);
}

#[test]
fn zero_weights_are_bridged() {
    let y = qs(&[(0, 1), (0, 1), (0, 1), (2, 1)]);
    let mu = ArrayWeights::new(qs(&[(1, 1), (0, 1), (0, 1), (1, 1)]));
    let lam = ArrayWeights::new(qs(&[(1, 1), (3, 10), (1, 1)]));
    let mut solver = LineDP::new(4);
    let s = solver.dp_optimize(&y, &lam, &mu);
    assert_eq!(s, q(17, 10));
    assert_eq!(
        solver.segments(),
        vec![(0..2, q(3, 10)), (2..4, q(17, 10))]
    );
    assert_eq!(
        solver.segments_rev(),
        vec![(2..4, q(17, 10)), (0..2, q(3, 10))]
    );
    assert_eq!(solver.dof(), 2);
}

#[test]
fn threshold_of_the_penalty_factor() {
    let y = qs(&[(15, 100), (15, 100), (7, 10), (1, 1)]);
    let lam = qs(&[(1, 1), (3, 10), (1, 1)]);
    let lam0 = lambda_max_factor(&y, &lam);
    assert_eq!(lam0, q(7, 3));
    let mu = ConstantWeights::new(q(1, 1));

    let at = ArrayWeights::new(lam.iter().map(|l| l.times(&lam0)).collect());
    let mut solver = LineDP::new(4);
    solver.dp_optimize(&y, &at, &mu);
    assert_eq!(solver.segments(), vec![(0..4, q(1, 2))]);

    let less = lam0.minus(&q(1, 1_000_000_000));
    let below = ArrayWeights::new(lam.iter().map(|l| l.times(&less)).collect());
    let mut solver = LineDP::new(4);
    solver.dp_optimize(&y, &below, &mu);
    assert_eq!(solver.segments().len(), 2);
    assert_eq!(solver.dof(), 2);
}

#[test]
fn solve_twice_gives_the_same() {
    let y = qs(&[(3, 1), (-1, 2), (5, 7), (2, 1), (0, 1)]);
    let lam = ArrayWeights::new(qs(&[(1, 2), (1, 3), (2, 1), (1, 5)]));
    let mu = ArrayWeights::new(qs(&[(1, 1), (2, 1), (0, 1), (1, 2), (3, 1)]));
    let mut first = zeros(5);
    LineDP::new(5).solve(&mut first, &y, &lam, &mu);
    let mut second = zeros(5);
    LineDP::new(5).solve(&mut second, &y, &lam, &mu);
    assert_eq!(first, second);
}

#[test]
fn last_node_without_weight_or_message_is_unbounded() {
    let y = qs(&[(7, 2)]);
    let lam: ArrayWeights<Exact> = ArrayWeights::new(vec![]);
    let mu = ConstantWeights::new(q(0, 1));
    let mut solver = LineDP::new(1);
    let mut x = zeros(1);
    solver.solve(&mut x, &y, &lam, &mu);
    assert_eq!(x, vec![Exact::NegInf]);
}

#[test]
fn node_without_weight_follows_its_neighbour() {
    let y = qs(&[(5, 1), (100, 1)]);
    let lam = ConstantWeights::new(q(1, 1));
    let mu = ArrayWeights::new(qs(&[(1, 1), (0, 1)]));
    let mut solver = LineDP::new(2);
    let mut x = zeros(2);
    solver.solve(&mut x, &y, &lam, &mu);
    assert_eq!(x, qs(&[(5, 1), (5, 1)]));
    let (lb, ub) = solver.get_bounds();
    assert_eq!(lb, qs(&[(4, 1)]).as_slice());
    assert_eq!(ub, qs(&[(6, 1)]).as_slice());
    assert_eq!(solver.segments(), vec![(0..2, q(5, 1))]);
}

#[test]
fn single_node_takes_its_observation() {
    let y = qs(&[(7, 2)]);
    let lam: ArrayWeights<Exact> = ArrayWeights::new(vec![]);
    let mu = ConstantWeights::new(q(3, 1));
    let mut solver = LineDP::new(1);
    let mut x = zeros(1);
    solver.solve(&mut x, &y, &lam, &mu);
    assert_eq!(x, qs(&[(7, 2)]));
    assert_eq!(solver.segments(), vec![(0..1, q(7, 2))]);
    assert_eq!(solver.dof(), 1);
}

#[test]
fn no_penalty_gives_the_observations() {
    let y = qs(&[(1, 1), (5, 1), (-2, 1), (4, 1)]);
    let lam = ConstantWeights::new(q(0, 1));
    let mu = ConstantWeights::new(q(1, 1));
    let mut solver = LineDP::new(4);
    let mut x = zeros(4);
    solver.solve(&mut x, &y, &lam, &mu);
    assert_eq!(x, qs(&[(1, 1), (5, 1), (-2, 1), (4, 1)]));
    assert_eq!(solver.dof(), 4);
}

#[test]
fn segments_cover_the_line_with_the_solution() {
    let y = qs(&[(3, 1), (-1, 2), (5, 7), (2, 1), (0, 1), (9, 4)]);
    let lam = ConstantWeights::new(q(1, 2));
    let mu = ConstantWeights::new(q(1, 1));
    let mut solver = LineDP::new(6);
    let mut x = zeros(6);
    solver.solve(&mut x, &y, &lam, &mu);
    let segs = solver.segments();
    assert!(solver.dof() <= 6);
    assert_eq!(segs.len(), solver.dof());
    assert_eq!(segs[0].0.start, 0);
    assert_eq!(segs[segs.len() - 1].0.end, 6);
    for k in 0..segs.len() {
        assert!(segs[k].0.start < segs[k].0.end);
        if k + 1 < segs.len() {
            assert_eq!(segs[k].0.end, segs[k + 1].0.start);
            assert_ne!(segs[k].1, segs[k + 1].1);
        }
        for i in segs[k].0.clone() {
            assert_eq!(x[i], segs[k].1);
        }
    }
}

fn objective(x: &[Exact], y: &[Exact], lam: &[Exact], mu: &[Exact]) -> Exact {
    let half = q(1, 2);
    let mut total = q(0, 1);
    for i in 0..x.len() {
        let d = x[i].minus(&y[i]);
        total = total.plus(&mu[i].times(&half).times(&d).times(&d));
        if i + 1 < x.len() {
            total = total.plus(&lam[i].times(&x[i].minus(&x[i + 1]).abs()));
        }
    }
    total
}

#[test]
fn no_single_value_can_be_bettered() {
    let y = qs(&[(3, 1), (-1, 2), (5, 7), (2, 1), (0, 1), (9, 4)]);
    let lam = qs(&[(1, 2), (1, 3), (2, 1), (1, 5), (1, 1)]);
    let mu = qs(&[(1, 1), (2, 1), (0, 1), (1, 2), (3, 1), (1, 1)]);
    let mut solver = LineDP::new(6);
    let mut x = zeros(6);
    solver.solve(
        &mut x,
        &y,
        &ArrayWeights::new(lam.iter().map(|l| l.copy()).collect()),
        &ArrayWeights::new(mu.iter().map(|m| m.copy()).collect()),
    );
    let best = objective(&x, &y, &lam, &mu);
    assert!(!objective(&y, &y, &lam, &mu).less(&best));
    assert!(!objective(&zeros(6), &y, &lam, &mu).less(&best));
    let mean: Vec<Exact> = (0..6).map(|_| q(151, 168)).collect();
    assert!(!objective(&mean, &y, &lam, &mu).less(&best));
    for i in 0..x.len() {
        for step in [q(1, 1000), q(-1, 1000), q(1, 3), q(-1, 3), q(5, 1), q(-5, 1)] {
            let mut moved: Vec<Exact> = x.iter().map(|v| v.copy()).collect();
            moved[i] = moved[i].plus(&step);
            assert!(!objective(&moved, &y, &lam, &mu).less(&best));
        }
    }
}

#[test]
fn solve_instance_uses_ones_without_data_weights() {
    let inst = Instance {
        name: Some(String::from("unit test")),
        y: qs(&[(1, 1), (2, 1), (1, 1)]),
        lam: Weights::Const(q(1, 10)),
        x: None,
        nr: None,
        mu: None,
        parent: None,
        root: None,
    };
    assert_eq!(inst.len(), 3);
    let mut x = zeros(3);
    LineDP::new(3).solve_instance(&mut x, &inst);
    assert_eq!(x, qs(&[(11, 10), (9, 5), (11, 10)]));
}

#[test]
fn solve_instance_with_array_weights() {
    let inst = Instance {
        name: None,
        y: qs(&[(0, 1), (0, 1), (0, 1), (2, 1)]),
        lam: Weights::Array(qs(&[(1, 1), (3, 10), (1, 1)])),
        x: None,
        nr: None,
        mu: Some(Weights::Array(qs(&[(1, 1), (0, 1), (0, 1), (1, 1)]))),
        parent: None,
        root: None,
    };
    let mut x = zeros(4);
    LineDP::new(4).solve_instance(&mut x, &inst);
    assert_eq!(x, qs(&[(3, 10), (3, 10), (17, 10), (17, 10)]));
}

fn named(name: &str) -> Instance<Exact> {
    Instance {
        name: Some(String::from(name)),
        y: qs(&[(0, 1), (1, 1)]),
        lam: Weights::Const(q(1, 1)),
        x: None,
        nr: None,
        mu: None,
        parent: None,
        root: None,
    }
}

#[test]
fn from_map_numbers_the_list_of_the_kind() {
    let lists = vec![
        (String::from("line"), vec![named("a")]),
        (String::from("tree"), vec![named("b"), named("c")]),
    ];
    let trees = Instance::from_map(lists, "tree");
    assert_eq!(trees.len(), 2);
    assert_eq!(trees[0].name, Some(String::from("b")));
    assert_eq!(trees[0].nr, Some(1));
    assert_eq!(trees[1].name, Some(String::from("c")));
    assert_eq!(trees[1].nr, Some(2));
    assert_eq!(trees[1].y, qs(&[(0, 1), (1, 1)]));
}

#[test]
fn from_map_without_the_kind_is_empty() {
    let lists = vec![(String::from("line"), vec![named("a")])];
    assert!(Instance::from_map(lists, "tree").is_empty());
    assert!(Instance::<Exact>::from_map(vec![], "tree").is_empty());
}

#[test]
fn welford_mean_is_the_mean() {
    assert_eq!(welford_mean(&qs(&[(1, 1), (2, 1), (4, 1)])), q(7, 3));
    assert_eq!(welford_mean(&qs(&[(1, 2)])), q(1, 2));
    assert_eq!(welford_mean::<Exact>(&[]), q(0, 1));
}

#[test]
fn lambda_max_is_the_largest_drift() {
    assert_eq!(lambda_max(&qs(&[(0, 1), (3, 1), (0, 1)])), q(1, 1));
    assert_eq!(
        lambda_max(&qs(&[(15, 100), (15, 100), (7, 10), (1, 1)])),
        q(7, 10)
    );
    assert_eq!(lambda_max(&qs(&[(1, 2), (1, 2), (1, 2)])), q(0, 1));
}

#[test]
fn lambda_max_factor_stops_with_the_shorter() {
    let y = qs(&[(0, 1), (3, 1), (0, 1)]);
    // drift: -1, 1, 0
    assert_eq!(lambda_max_factor(&y, &qs(&[(2, 1), (4, 1)])), q(1, 2));
    assert_eq!(lambda_max_factor(&y, &qs(&[(2, 1)])), q(1, 2));
    assert_eq!(
        lambda_max_factor(&y, &qs(&[(4, 1), (2, 1), (1, 1), (1, 1)])),
        q(1, 2)
    );
}
