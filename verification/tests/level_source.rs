use data_structures::level_source::{ConfigError, LevelSource, Probability, DEFAULT_SEED};

fn half() -> Probability {
    Probability { numerator: 1, denominator: 2 }
}

fn levels(source: &mut LevelSource, count: usize) -> Vec<usize> {
    let mut drawn = Vec::new();
    for _ in 0..count {
        drawn.push(source.random_level());
    }
    drawn
}

#[test]
fn one_flip_advances_the_generator_by_one_step() {
    // From state 0 the first step gives 1442695040888963407, whose upper
    // half is 335903614: even, so the flip succeeds; the second step gives
    // an odd upper half, so the second flip fails.
    let mut source = LevelSource::new(1, half(), 0).unwrap();
    assert_eq!(source.current_state(), 0);
    assert_eq!(source.random_level(), 1);
    assert_eq!(source.current_state(), 1442695040888963407);
    let mut source = LevelSource::new(4, half(), 0).unwrap();
    assert_eq!(source.random_level(), 1);
    assert_eq!(source.current_state(), 1876011003808476466);
}

#[test]
fn levels_follow_from_the_seed() {
    let mut source = LevelSource::new(4, half(), 0).unwrap();
    assert_eq!(levels(&mut source, 12), vec![1, 1, 4, 0, 0, 2, 3, 1, 0, 0, 1, 0]);
    assert_eq!(source.current_state(), 3492702958818716408);
    let mut source = LevelSource::new(4, half(), 1).unwrap();
    assert_eq!(levels(&mut source, 12), vec![1, 0, 0, 3, 1, 2, 2, 1, 0, 1, 0, 1]);
    let mut source = LevelSource::new(4, half(), 42).unwrap();
    assert_eq!(levels(&mut source, 12), vec![0, 0, 0, 0, 1, 1, 1, 0, 0, 2, 0, 0]);
    let mut source = LevelSource::new(4, half(), DEFAULT_SEED).unwrap();
    assert_eq!(levels(&mut source, 12), vec![0, 0, 0, 0, 2, 0, 0, 0, 0, 2, 3, 0]);
}

#[test]
fn levels_follow_the_probability() {
    let quarter = Probability { numerator: 1, denominator: 4 };
    let mut source = LevelSource::new(6, quarter, 7).unwrap();
    assert_eq!(levels(&mut source, 12), vec![1, 0, 0, 0, 0, 2, 0, 0, 0, 0, 0, 0]);
    assert_eq!(source.current_state(), 4184551844443458792);
    let three_quarters = Probability { numerator: 3, denominator: 4 };
    let mut source = LevelSource::new(6, three_quarters, 7).unwrap();
    assert_eq!(levels(&mut source, 12), vec![1, 3, 4, 3, 1, 0, 6, 0, 2, 3, 2, 5]);
    assert_eq!(source.current_state(), 1701429355246522130);
}

#[test]
fn level_never_exceeds_the_maximum() {
    for max_level in 0..6usize {
        let almost_sure = Probability { numerator: 999, denominator: 1000 };
        let mut source = LevelSource::new(max_level, almost_sure, 3).unwrap();
        assert_eq!(source.level_limit(), max_level);
        for _ in 0..200 {
            assert!(source.random_level() <= max_level);
        }
    }
}

#[test]
fn no_flip_is_made_when_the_maximum_is_zero() {
    let mut source = LevelSource::new(0, half(), 11).unwrap();
    assert_eq!(source.random_level(), 0);
    assert_eq!(source.random_level(), 0);
    assert_eq!(source.current_state(), 11);
}

#[test]
fn source_refuses_a_probability_outside_the_open_unit_interval() {
    for (numerator, denominator) in [(0u32, 2u32), (2, 2), (5, 2), (0, 0), (1, 0), (1, 1)] {
        let refused = LevelSource::new(3, Probability { numerator, denominator }, 0);
        assert_eq!(refused.err(), Some(ConfigError::ProbabilityOutOfRange));
    }
    for (numerator, denominator) in [(1u32, 2u32), (1, u32::MAX), (u32::MAX - 1, u32::MAX)] {
        let probability = Probability { numerator, denominator };
        assert!(probability.is_valid());
        assert!(LevelSource::new(3, probability, 0).is_ok());
    }
    assert_eq!(Probability::half(), half());
}
