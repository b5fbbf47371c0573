use maze_engine::maze::Direction;
use maze_engine::random::Dice;
use rand::seq::SliceRandom;
use rand::Rng;
use rand::SeedableRng;
use rand_chacha::ChaCha8Rng;

const ALL: [Direction; 4] = [Direction::North, Direction::West, Direction::South, Direction::East];

#[test]
fn new_dice_stand_at_the_beginning_of_the_stream() {
    let dice = Dice::new(77);
    assert_eq!(dice.seed, 77);
    assert_eq!(dice.drawn, 0);
}

#[test]
fn dice_follow_the_stream_of_a_running_generator() {
    for seed in [0u64, 1, 12345, u64::MAX] {
        let mut dice = Dice::new(seed);
        let mut stream = ChaCha8Rng::seed_from_u64(seed);
        for round in 0..200usize {
            assert_eq!(dice.coin(), stream.random::<bool>());
            let bound = round % 7 + 1;
            assert_eq!(dice.below(bound), stream.random_range(0..bound));
            let mut shuffled = ALL[..round % 4 + 1].to_vec();
            shuffled.shuffle(&mut stream);
            assert_eq!(dice.pick(ALL[..round % 4 + 1].to_vec()), shuffled[0]);
            assert_eq!(dice.drawn, stream.get_word_pos());
        }
    }
}

#[test]
fn coin_advances_the_dice_and_falls_both_ways() {
    let mut dice = Dice::new(5);
    let mut heads = 0;
    for _ in 0..200 {
        let before = dice.drawn;
        if dice.coin() {
            heads += 1;
        }
        assert!(dice.drawn > before);
        assert_eq!(dice.seed, 5);
    }
    assert!(heads > 50 && heads < 150);
}

#[test]
fn below_stays_below_its_bound_and_reaches_every_value() {
    let mut dice = Dice::new(9);
    let mut seen = [false; 5];
    for _ in 0..200 {
        let pick = dice.below(5);
        assert!(pick < 5);
        seen[pick] = true;
    }
    assert_eq!(seen, [true; 5]);
    assert_eq!(dice.below(1), 0);
}

#[test]
fn pick_takes_one_of_the_candidates_and_in_time_each_of_them() {
    let mut dice = Dice::new(3);
    let mut seen = Vec::new();
    for _ in 0..100 {
        let picked = dice.pick(vec![Direction::West, Direction::South, Direction::East]);
        assert_ne!(picked, Direction::North);
        if !seen.contains(&picked) {
            seen.push(picked);
        }
    }
    assert_eq!(seen.len(), 3);
    assert_eq!(dice.pick(vec![Direction::North]), Direction::North);
}

#[test]
fn equal_dice_roll_the_same() {
    let mut first = Dice::new(42);
    first.coin();
    first.below(10);
    let mut second = first;
    for _ in 0..50 {
        assert_eq!(first.coin(), second.coin());
        assert_eq!(first.below(1000), second.below(1000));
        assert_eq!(first.pick(ALL.to_vec()), second.pick(ALL.to_vec()));
        assert_eq!(first, second);
    }
}
