use weighted_sampler::DrawError;
use weighted_sampler::Sampler;
use weighted_sampler::ScriptedSource;
use weighted_sampler::ThreadRngSource;

#[test]
fn sample_at_partitions_draws_by_weight() {
    // With weights 2 and 3, of the five possible uniform draws exactly two
    // select the first choice and exactly three the second.
    let sampler = Sampler::new(vec![(10i32, 2i64), (20i32, 3i64)]).unwrap();
    assert_eq!(sampler.sample_at(0), 10);
    assert_eq!(sampler.sample_at(1), 10);
    assert_eq!(sampler.sample_at(2), 20);
    assert_eq!(sampler.sample_at(3), 20);
    assert_eq!(sampler.sample_at(4), 20);
}

#[test]
fn sample_proportionality() {
    // Weights 1 and 3: over 40,000 draws the second choice should appear
    // close to three times as often as the first.
    let sampler = Sampler::new(vec![('a', 1i64), ('b', 3i64)]).unwrap();
    let mut source = ThreadRngSource::new();
    let mut count_a = 0u32;
    let mut count_b = 0u32;
    for _ in 0..40_000 {
        match sampler.sample(&mut source) {
            'a' => count_a += 1,
            'b' => count_b += 1,
            other => panic!("unexpected draw {other}"),
        }
    }
    let ratio = f64::from(count_b) / f64::from(count_a);
    assert!(
        (2.7..=3.3).contains(&ratio),
        "ratio {ratio} outside tolerance (a={count_a}, b={count_b})"
    );
}

#[test]
fn zero_weight_never_drawn() {
    let sampler = Sampler::new(vec![('a', 0i64), ('b', 1i64)]).unwrap();
    let mut source = ThreadRngSource::new();
    for _ in 0..10_000 {
        assert_eq!(sampler.sample(&mut source), 'b');
    }
}

#[test]
fn single_choice_always_drawn() {
    let sampler = Sampler::new(vec![(42i32, 7i64)]).unwrap();
    let mut source = ThreadRngSource::new();
    for _ in 0..100 {
        assert_eq!(sampler.sample(&mut source), 42);
    }
}

#[test]
fn scripted_draws_are_deterministic() {
    // The same script yields the same draw sequence on every run: the
    // sampler adds no hidden state of its own.
    let script = vec![0u64, 1, 2, 3, 4, 11, 7, 13];
    let sampler = Sampler::new(vec![(10i32, 2i64), (20i32, 3i64)]).unwrap();

    let mut first = ScriptedSource::from_values(script.clone());
    let run_one: Vec<i32> = sampler.iter(&mut first, 16);

    let mut second = ScriptedSource::from_values(script);
    let run_two: Vec<i32> = sampler.iter(&mut second, 16);

    assert_eq!(run_one, run_two);
    // The draw reads the scripted value modulo the total weight of 5, so
    // scripted 0 and 1 select the first choice, 2, 3 and 4 the second.
    assert_eq!(&run_one[0..5], &[10, 10, 20, 20, 20]);
}

#[test]
fn scripted_source_cycles() {
    // A script shorter than the number of draws is replayed from the start.
    let sampler = Sampler::new(vec![(10i32, 2i64), (20i32, 3i64)]).unwrap();
    let mut source = ScriptedSource::from_values(vec![0, 4]);
    let drawn = sampler.iter(&mut source, 6);
    assert_eq!(drawn, vec![10, 20, 10, 20, 10, 20]);
}

#[test]
fn iter_zero_leaves_source_untouched() {
    // A zero-length draw sequence consumes no randomness: the source then
    // serves exactly the draws it would have served anyway.
    let sampler = Sampler::new(vec![(10i32, 2i64), (20i32, 3i64)]).unwrap();
    let script = vec![0u64, 4, 1, 3];

    let mut baseline = ScriptedSource::from_values(script.clone());
    let expected = sampler.iter(&mut baseline, 4);

    let mut source = ScriptedSource::from_values(script);
    assert!(sampler.iter(&mut source, 0).is_empty());
    assert_eq!(sampler.iter(&mut source, 4), expected);
}

#[test]
fn iter_consumes_one_draw_per_sample() {
    // After a two-draw sequence, the next single draw reads the third
    // scripted value: 3 modulo the total of 5 selects the second choice.
    let sampler = Sampler::new(vec![(10i32, 2i64), (20i32, 3i64)]).unwrap();
    let mut source = ScriptedSource::from_values(vec![0, 0, 3, 0]);
    assert_eq!(sampler.iter(&mut source, 2), vec![10, 10]);
    assert_eq!(sampler.sample(&mut source), 20);
}

#[test]
fn scripted_source_empty_script_defaults_to_zero() {
    // An empty script is replaced by the single value zero, so every draw
    // reads zero and selects the first positively weighted choice.
    let sampler = Sampler::new(vec![(10i32, 2i64), (20i32, 3i64)]).unwrap();
    let mut source = ScriptedSource::from_values(vec![]);
    assert_eq!(sampler.iter(&mut source, 3), vec![10, 10, 10]);
}

#[test]
fn iter_returns_exactly_n_draws() {
    let sampler = Sampler::new(vec![(1i32, 1i64), (2i32, 2i64)]).unwrap();
    let mut source = ThreadRngSource::new();
    assert_eq!(sampler.iter(&mut source, 0).len(), 0);
    assert_eq!(sampler.iter(&mut source, 1).len(), 1);
    assert_eq!(sampler.iter(&mut source, 7).len(), 7);
    for drawn in sampler.iter(&mut source, 100) {
        assert!(drawn == 1 || drawn == 2);
    }
}

#[test]
fn linear_ramp_biases_later_choices() {
    // Over the ramp the first choice has weight zero and is never drawn,
    // and each later index is drawn more often than the one before it.
    let sampler = Sampler::linear(vec!['a', 'b', 'c', 'd'], 0, 30).unwrap();
    let mut source = ThreadRngSource::new();
    let mut counts = [0u32; 4];
    for _ in 0..40_000 {
        match sampler.sample(&mut source) {
            'a' => counts[0] += 1,
            'b' => counts[1] += 1,
            'c' => counts[2] += 1,
            'd' => counts[3] += 1,
            other => panic!("unexpected draw {other}"),
        }
    }
    assert_eq!(counts[0], 0);
    assert!(counts[3] > counts[2]);
    assert!(counts[2] > counts[1]);
    assert!(counts[1] > 0);
}

#[test]
fn unique_draws_are_distinct_members() {
    let table = vec![(1i32, 5i64), (2, 1), (3, 9), (4, 2), (5, 4)];
    let sampler = Sampler::new(table.clone()).unwrap();
    let mut source = ThreadRngSource::new();
    for n in 0..=5usize {
        let pairs = sampler.sample_unique(&mut source, n).unwrap();
        assert_eq!(pairs.len(), n);
        for (value, weight) in &pairs {
            assert!(table.contains(&(*value, *weight)));
        }
        for i in 0..pairs.len() {
            for j in 0..i {
                assert_ne!(pairs[i].0, pairs[j].0, "value drawn twice");
            }
        }
    }
}

#[test]
fn unique_full_draw_is_permutation() {
    let table = vec![(1i32, 5i64), (2, 1), (3, 9), (4, 0), (5, 4)];
    let sampler = Sampler::new(table.clone()).unwrap();
    let mut source = ThreadRngSource::new();
    for _ in 0..50 {
        let mut pairs = sampler.sample_unique(&mut source, 5).unwrap();
        pairs.sort();
        assert_eq!(pairs, table);
    }
}

#[test]
fn unique_rejects_excess_count() {
    let sampler = Sampler::new(vec![(1i32, 1i64), (2, 1)]).unwrap();
    let mut source = ThreadRngSource::new();
    let result = sampler.sample_unique(&mut source, 3);
    assert_eq!(result.err(), Some(DrawError::CountExceedsChoices));
}

#[test]
fn unique_draws_zero_weights_last() {
    // While any positive weight remains, only positively weighted choices
    // are drawn: the two zero-weight entries can only fill the last two
    // positions of a full draw.
    let table = vec![(1i32, 0i64), (2, 5), (3, 0), (4, 5)];
    let sampler = Sampler::new(table).unwrap();
    let mut source = ThreadRngSource::new();
    for _ in 0..50 {
        let pairs = sampler.sample_unique(&mut source, 4).unwrap();
        assert!(pairs[0].1 > 0);
        assert!(pairs[1].1 > 0);
        assert_eq!(pairs[2].1, 0);
        assert_eq!(pairs[3].1, 0);

        let two = sampler.sample_unique(&mut source, 2).unwrap();
        assert!(two[0].1 > 0);
        assert!(two[1].1 > 0);
    }
}

#[test]
fn unique_reports_original_weights() {
    let table = vec![(10i32, 2i64), (20, 3)];
    let sampler = Sampler::new(table).unwrap();
    let mut source = ThreadRngSource::new();
    let pairs = sampler.sample_unique(&mut source, 2).unwrap();
    for (value, weight) in pairs {
        match value {
            10 => assert_eq!(weight, 2),
            20 => assert_eq!(weight, 3),
            other => panic!("unexpected draw {other}"),
        }
    }
}

#[test]
fn sampler_reusable_after_unique_draw() {
    // A draw without replacement works on its own copy of the weights: the
    // sampler is unchanged and serves fresh draws afterwards.
    let sampler = Sampler::new(vec![(1i32, 1i64), (2, 1), (3, 1)]).unwrap();
    let mut source = ThreadRngSource::new();
    let first = sampler.sample_unique(&mut source, 3).unwrap();
    let second = sampler.sample_unique(&mut source, 3).unwrap();
    assert_eq!(first.len(), 3);
    assert_eq!(second.len(), 3);
    assert_eq!(sampler.total(), 3);
}
