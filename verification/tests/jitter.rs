use pickleback::jitter_pipe::{out_of_a_million, Draws, JitterPipe, JitterPipeConfig, MILLION};

fn draws(drop: u32, duplicate: u32, jitter: u32) -> Draws {
    Draws { drop, duplicate, duplicate_jitter: jitter, jitter }
}

#[test]
fn dropped_and_duplicated() {
    let mut pipe: JitterPipe<&str> = JitterPipe::new(JitterPipeConfig::bad());
    assert!(pipe.is_empty());
    pipe.insert_with("lost", draws(49_999, 0, 0));
    assert!(pipe.is_empty());
    pipe.insert_with("once", draws(50_000, 5_000, 500_000));
    pipe.insert_with("twice", draws(50_000, 4_999, 500_000));
    assert_eq!(pipe.take_next(), Some("once"));
    assert_eq!(pipe.take_next(), Some("twice"));
    assert_eq!(pipe.take_next(), Some("twice"));
    assert_eq!(pipe.take_next(), None);
}

#[test]
fn keys_are_moved_either_way() {
    let mut pipe: JitterPipe<u8> = JitterPipe::new(JitterPipeConfig::terrible());
    assert_eq!(pipe.next_key_with(500_000), 1_000_000);
    assert_eq!(pipe.next_key_with(0), 2_000_000 - 5_000_000);
    assert_eq!(pipe.next_key_with(999_999), 3_000_000 + 5_000_000 - 10);
    pipe.config_mut().enabled = false;
    assert_eq!(pipe.next_key_with(0), 4_000_000);
    let key = pipe.next_key();
    assert_eq!(key, 5_000_000);
}

#[test]
fn enough_jitter_reorders() {
    let mut pipe: JitterPipe<u8> = JitterPipe::new(JitterPipeConfig::bad());
    pipe.insert_with(1, draws(MILLION, MILLION, 900_000));
    pipe.insert_with(2, draws(MILLION, MILLION, 100_000));
    assert_eq!(pipe.take_next(), Some(2));
    assert_eq!(pipe.take_next(), Some(1));
}

#[test]
fn little_jitter_does_not_reorder() {
    let mut config = JitterPipeConfig::default();
    config.drop_chance = 0;
    config.duplicate_chance = 0;
    config.max_jitter = 499_999;
    let mut pipe: JitterPipe<u32> = JitterPipe::new(config);
    for i in 0..1000 {
        pipe.insert(i);
    }
    for i in 0..1000 {
        assert_eq!(pipe.take_next(), Some(i));
    }
}

#[test]
fn chance_decides() {
    let mut pipe: JitterPipe<u32> = JitterPipe::new(JitterPipeConfig::default());
    for i in 0..100_000 {
        pipe.insert(i);
        if i % 10 == 9 {
            while let Some(j) = pipe.take_next() {
                assert!(j <= i);
            }
        }
    }
    // some were lost: about one out of a hundred
    let mut pipe: JitterPipe<u32> = JitterPipe::new(JitterPipeConfig::default());
    let mut got = 0;
    for i in 0..100_000 {
        pipe.insert(i);
        while pipe.take_next().is_some() {
            got += 1;
        }
    }
    assert!(98_500 < got && got < 99_600);
}

#[test]
fn numbers_are_drawn_out_of_a_million() {
    assert_eq!(out_of_a_million(0), 0);
    assert_eq!(out_of_a_million(999_999), 999_999);
    assert_eq!(out_of_a_million(1_000_000), 0);
    assert_eq!(out_of_a_million(u64::MAX), 551_615);
    let expected = Draws { drop: 7, duplicate: 0, duplicate_jitter: 551_615, jitter: 123_456 };
    assert_eq!(Draws::from_numbers(7, 3_000_000, u64::MAX, 9_123_456), expected);
    let drawn: Vec<Draws> = (0..100).map(|_| Draws::random()).collect();
    assert!(drawn.iter().all(|d| d.drop < MILLION && d.duplicate < MILLION));
    assert!(drawn.iter().all(|d| d.duplicate_jitter < MILLION && d.jitter < MILLION));
    assert!(drawn.iter().any(|d| *d != drawn[0]));
}
