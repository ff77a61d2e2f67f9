use hypercube::cube::{InputRow, NodeKind};
use hypercube::market::{market_demo_nodes, OuMarketInjector};
use hypercube::number::{Arithmetic, Double};
use hypercube::random::XorShift64;
use hypercube::synthetic::{demo_nodes, SyntheticInjector};

struct Native;

fn d(x: f64) -> Double {
    Double::from_bits(x.to_bits())
}

fn f(x: Double) -> f64 {
    f64::from_bits(x.to_bits())
}

impl Arithmetic for Native {
    fn plus(&self, x: Double, y: Double) -> Double {
        d(f(x) + f(y))
    }

    fn minus(&self, x: Double, y: Double) -> Double {
        d(f(x) - f(y))
    }

    fn times(&self, x: Double, y: Double) -> Double {
        d(f(x) * f(y))
    }

    fn over(&self, x: Double, y: Double) -> Double {
        d(f(x) / f(y))
    }

    fn root(&self, x: Double) -> Double {
        d(f(x).sqrt())
    }

    fn exponential(&self, x: Double) -> Double {
        d(f(x).exp())
    }

    fn logarithm(&self, x: Double) -> Double {
        d(f(x).ln())
    }

    fn sine(&self, x: Double) -> Double {
        d(f(x).sin())
    }

    fn cosine(&self, x: Double) -> Double {
        d(f(x).cos())
    }

    fn nearest(&self, n: u64) -> Double {
        d(n as f64)
    }
}
fn field(row: &InputRow, name: &str) -> f64 {
    f(*row.fields.get(name).unwrap())
}

#[test]
fn injector_is_repeatable_and_monotonic() {
    let mut left = SyntheticInjector::new(&Native, 3, 42);
    let mut right = SyntheticInjector::new(&Native, 3, 42);
    let first = left.next_update(&Native, 1_000, demo_nodes());
    let same = right.next_update(&Native, 1_000, demo_nodes());
    assert_eq!(first, same);
    assert_eq!(first.generation, 1);
    assert_eq!(
        left.next_update(&Native, 2_000, demo_nodes()).generation,
        2
    );
}

#[test]
fn ou_market_is_repeatable_finite_and_mean_reverting() {
    let mut left = OuMarketInjector::new(&Native, 8, 42);
    let mut right = OuMarketInjector::new(&Native, 8, 42);
    let first = left.next_frame(&Native, 1_000);
    let same = right.next_frame(&Native, 1_000);
    assert_eq!(first, same);
    assert_eq!(first.generation, 1);
    assert_eq!(first.rows.len(), 8);
    assert!(first.rows.iter().all(|row| {
        (0..row.fields.len()).all(|i| row.fields.value_at(i).is_finite())
            && field(row, "price") > 0.0
    }));
    assert_eq!(left.symbols().first().map(String::as_str), Some("SIM0001"));
    assert_eq!(left.next_frame(&Native, 2_000).generation, 2);
}

fn shifted(state: u64) -> u64 {
    let mut value = state;
    value ^= value << 13;
    value ^= value >> 7;
    value ^= value << 17;
    value
}

fn symmetric(state: &mut u64) -> f64 {
    *state = shifted(*state);
    *state as f64 / u64::MAX as f64 * 2.0 - 1.0
}

fn normal(state: &mut u64) -> f64 {
    *state = shifted(*state);
    let first = ((*state as f64 + 1.0) / (u64::MAX as f64 + 2.0))
        .clamp(f64::MIN_POSITIVE, 1.0 - f64::EPSILON);
    *state = shifted(*state);
    let second = (*state as f64 + 1.0) / (u64::MAX as f64 + 2.0);
    (-2.0 * first.ln()).sqrt() * (std::f64::consts::TAU * second).cos()
}

#[test]
fn noise_comes_from_the_shift_register() {
    let mut rng = XorShift64::new(42);
    assert_eq!(rng.next(), shifted(42));
    assert_eq!(rng.next(), shifted(shifted(42)));
    assert_eq!(XorShift64::new(0).next(), shifted(0x9e37_79b9_7f4a_7c15));
    let mut state = 42;
    let mut rng = XorShift64::new(42);
    for _ in 0..50 {
        assert_eq!(f(rng.symmetric(&Native).value), symmetric(&mut state));
        assert_eq!(f(rng.normal(&Native).value), normal(&mut state));
    }
}

#[test]
fn a_step_of_the_simulation_has_exact_fields() {
    let mut injector = SyntheticInjector::new(&Native, 2, 7);
    assert_eq!(injector.entity_keys(), vec!["ENTITY-001", "ENTITY-002"]);
    assert_eq!(injector.generation(), 0);
    let update = injector.next_update(&Native, 500, vec![]);
    let mut state = 7u64;
    let cycle = 1.0 * 0.09;
    let common = f64::sin(cycle) * 0.003;
    for (index, row) in update.rows.iter().enumerate() {
        let level = 80.0 + index as f64 * 2.5;
        let phase = index as f64 / 2.0 * std::f64::consts::TAU;
        let noise = symmetric(&mut state);
        let change = common + f64::sin(cycle + phase) * 0.002 + noise * 0.0015;
        let after = f64::max(level * (1.0 + change), 1.0);
        let activity =
            50.0 + 30.0 * f64::cos(cycle * 0.7 + phase) + symmetric(&mut state) * 8.0;
        assert_eq!(row.observed_at_ms, 500);
        assert_eq!(field(row, "level"), after);
        assert_eq!(field(row, "change"), after / level - 1.0);
        assert_eq!(field(row, "activity"), activity.max(0.0));
        assert_eq!(field(row, "dispersion"), (change - common).abs() * 10_000.0);
        assert_eq!(row.fields.len(), 4);
    }
}

#[test]
fn a_day_of_the_market_has_exact_fields() {
    let mut market = OuMarketInjector::new(&Native, 5, 9);
    let frame = market.next_frame(&Native, 700);
    let mut state = 9u64;
    let anchors: Vec<f64> = (0..5usize)
        .map(|index| {
            let price = 35.0 + index as f64 * 0.37 + symmetric(&mut state) * 4.0;
            price.max(5.0).ln()
        })
        .collect();
    let dt: f64 = 1.0 / 252.0;
    let sqrt_dt = dt.sqrt();
    let market_state = 0.0 + (1.6 * -0.0 * dt + 0.12 * sqrt_dt * normal(&mut state));
    let sectors: Vec<f64> = (0..4)
        .map(|_| 0.0 + (2.4 * -0.0 * dt + 0.16 * sqrt_dt * normal(&mut state)))
        .collect();
    for (index, row) in frame.rows.iter().enumerate() {
        let own = 0.0 + (4.0 * -0.0 * dt + 0.22 * sqrt_dt * normal(&mut state));
        let market_beta = 0.75 + (index % 11) as f64 * 0.055;
        let sector_beta = 0.65 + (index % 7) as f64 * 0.07;
        let log_price = anchors[index]
            + market_beta * market_state
            + sector_beta * sectors[index % 4]
            + own;
        let price = log_price.exp().max(0.01);
        let tick_return = price / anchors[index].exp() - 1.0;
        let modeled = market_beta * (market_state - 0.0) + sector_beta * (sectors[index % 4] - 0.0);
        let volume_noise = (0.35 * normal(&mut state)).exp();
        let base = 500_000.0 + (index % 23) as f64 * 90_000.0;
        let volume = base * volume_noise * (1.0 + 18.0 * tick_return.abs());
        assert_eq!(row.key, format!("SIM{:04}", index + 1));
        assert_eq!(field(row, "price"), price);
        assert_eq!(field(row, "return"), tick_return);
        assert_eq!(field(row, "cumulative_return"), tick_return);
        assert_eq!(field(row, "dollar_volume"), volume);
        assert_eq!(field(row, "log_dollar_volume"), volume.ln());
        assert_eq!(field(row, "model_residual"), tick_return - modeled);
        assert_eq!(field(row, "market_beta"), market_beta);
        assert_eq!(field(row, "sector_beta"), sector_beta);
        assert_eq!(field(row, "sector"), (index % 4) as f64);
        assert_eq!(row.fields.len(), 9);
    }
}

#[test]
fn there_is_always_one_entity_and_keys_differ() {
    assert_eq!(SyntheticInjector::new(&Native, 0, 1).entity_keys().len(), 1);
    assert_eq!(OuMarketInjector::new(&Native, 0, 1).symbols().len(), 1);
    let symbols = OuMarketInjector::new(&Native, 12, 1).symbols();
    for (i, left) in symbols.iter().enumerate() {
        for right in &symbols[i + 1..] {
            assert_ne!(left, right);
        }
    }
}

#[test]
fn demo_graphs_have_their_nodes() {
    let ids: Vec<String> = market_demo_nodes().into_iter().map(|node| node.id).collect();
    assert_eq!(
        ids,
        vec![
            "price",
            "return",
            "residual_z",
            "dollar_volume_z",
            "liquid_residual_score"
        ]
    );
    let nodes = demo_nodes();
    assert_eq!(nodes.len(), 5);
    match &nodes[4].kind {
        NodeKind::Linear {
            inputs,
            normalize_weights,
        } => {
            assert!(*normalize_weights);
            let weights: Vec<f64> = inputs.iter().map(|edge| f(edge.weight)).collect();
            assert_eq!(weights, vec![0.65, 0.25, -0.10]);
        }
        NodeKind::Field { .. } => unreachable!(),
    }
}

#[test]
fn copies_of_a_simulation_go_on_alike() {
    let mut injector = SyntheticInjector::new(&Native, 3, 7);
    injector.next_update(&Native, 1_000, demo_nodes());
    let mut copy = injector.clone();
    assert_eq!(
        copy.next_update(&Native, 2_000, demo_nodes()),
        injector.next_update(&Native, 2_000, demo_nodes())
    );
    let mut market = OuMarketInjector::new(&Native, 3, 7);
    market.next_frame(&Native, 1_000);
    let mut twin = market.clone();
    let frame = market.next_frame(&Native, 2_000);
    assert_eq!(twin.next_frame(&Native, 2_000), frame.clone());
}

#[test]
fn prices_are_above_zero() {
    let mut market = OuMarketInjector::new(&Native, 5, 11);
    for step in 0..50 {
        let frame = market.next_frame(&Native, step);
        assert_eq!(frame.generation, step as u64 + 1);
        assert!(frame.rows.iter().all(|row| field(row, "price") > 0.0));
    }
}
