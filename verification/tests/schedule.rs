use permanent::cooling_schedule::{BetaStep, CoolingConfig, CoolingSchedule};

fn beta_value(config: &CoolingConfig, step: BetaStep) -> f64 {
    let n = config.n;
    let ra = config.additive_ratio;
    let rm = config.multiplicative_ratio;
    let log = config.log();
    match step {
        BetaStep::Additive { step } => step as f64 / (n * ra) as f64,
        BetaStep::Multiplicative { step } => {
            let start = (ra * n * log) as f64 / (n * ra) as f64;
            let gamma = 1.0 + 1.0 / ((n * log * rm) as f64);
            start * gamma.powi(step as i32)
        }
    }
}

#[test]
fn simple_cooling_schedule() {
    let config = CoolingConfig {
        n: 10,
        additive_ratio: 1,
        multiplicative_ratio: 1,
    };
    let mut schedule = CoolingSchedule::from(config);
    let mut last = beta_value(&config, schedule.next().unwrap());
    while let Some(step) = schedule.next() {
        let value = beta_value(&config, step);
        assert!(value >= last);
        last = value;
        println!("{}", value)
    }
}

#[test]
fn scaled_cooling_schedule() {
    let config = CoolingConfig {
        n: 16,
        additive_ratio: 4,
        multiplicative_ratio: 4,
    };
    let mut schedule = CoolingSchedule::from(config);
    let mut last = beta_value(&config, schedule.next().unwrap());
    while let Some(step) = schedule.next() {
        let value = beta_value(&config, step);
        assert!(value >= last);
        last = value;
        println!("{}", value)
    }
}

#[test]
fn cooling_schedule_shape() {
    let config = CoolingConfig {
        n: 10,
        additive_ratio: 1,
        multiplicative_ratio: 1,
    };
    assert_eq!(config.log(), 4);
    let mut schedule = CoolingSchedule::from(config);
    let mut steps = Vec::new();
    while let Some(step) = schedule.next() {
        steps.push(step);
    }
    assert_eq!(steps.len(), 1 + 4 * 10 * 1 + 10 * 16 * 1);
    assert_eq!(steps[0], BetaStep::Additive { step: 0 });
    assert_eq!(beta_value(&config, steps[0]), 0.0);
    let k_a = 1 * 10 * 4;
    assert_eq!(steps[k_a], BetaStep::Additive { step: 40 });
    assert_eq!(beta_value(&config, steps[k_a]), 4.0);
    let mut last = beta_value(&config, steps[k_a]);
    for step in steps.iter().skip(k_a + 1) {
        let value = beta_value(&config, *step);
        assert!(value > last);
        last = value;
    }
}

#[test]
fn cooling_schedule_single_vertex() {
    let config = CoolingConfig {
        n: 1,
        additive_ratio: 1,
        multiplicative_ratio: 1,
    };
    assert_eq!(config.log(), 0);
    let mut schedule = CoolingSchedule::from(config);
    assert_eq!(schedule.next(), Some(BetaStep::Additive { step: 0 }));
    assert_eq!(schedule.next(), None);
    assert_eq!(schedule.next(), None);
}

#[test]
fn log_rounds_up() {
    let pow2 = CoolingConfig {
        n: 16,
        additive_ratio: 1,
        multiplicative_ratio: 1,
    };
    assert_eq!(pow2.log(), 4);
    let odd = CoolingConfig {
        n: 17,
        additive_ratio: 1,
        multiplicative_ratio: 1,
    };
    assert_eq!(odd.log(), 5);
}
