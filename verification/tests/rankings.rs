use mean_ci::interval::ConfidenceInterval;
use mean_ci::number::Number;
use mean_ci::ranking::{movement_of, order_by_lower_bound, rank_chart, Movement, Placement};

fn entry(lower: f64) -> ConfidenceInterval {
    ConfidenceInterval {
        sample_count: 4,
        mean: Some(Number::from_bits((lower + 5.0).to_bits())),
        lower_bound: Number::from_bits(lower.to_bits()),
        upper_bound: Number::from_bits((lower + 10.0).to_bits()),
    }
}

fn unrated() -> ConfidenceInterval {
    ConfidenceInterval {
        sample_count: 0,
        mean: None,
        lower_bound: Number::from_bits(0.0f64.to_bits()),
        upper_bound: Number::from_bits(100.0f64.to_bits()),
    }
}

fn place(rank: usize, former_rank: usize, movement: Movement) -> Placement {
    Placement { rank, former_rank, movement }
}

#[test]
fn movement_between_ranks() {
    assert_eq!(movement_of(1, 4), Movement::Up(3));
    assert_eq!(movement_of(4, 4), Movement::Same);
    assert_eq!(movement_of(6, 4), Movement::Down(2));
    assert_eq!(movement_of(1, usize::MAX), Movement::Up(usize::MAX - 1));
    assert_eq!(movement_of(usize::MAX, 1), Movement::Down(usize::MAX - 1));
}

#[test]
fn order_is_by_lower_bound_greatest_first() {
    let chart = vec![entry(70.0), entry(85.5), entry(60.0), entry(90.0)];
    assert_eq!(order_by_lower_bound(&chart), vec![3, 1, 0, 2]);
}

#[test]
fn equal_lower_bounds_keep_the_order_of_the_chart() {
    let chart = vec![entry(50.0), entry(80.0), entry(50.0), entry(80.0), entry(50.0)];
    assert_eq!(order_by_lower_bound(&chart), vec![1, 3, 0, 2, 4]);
    let zeros = vec![entry(0.0), entry(-0.0), entry(0.0)];
    assert_eq!(order_by_lower_bound(&zeros), vec![0, 1, 2]);
}

#[test]
fn order_of_an_empty_chart_and_of_one_entry() {
    assert_eq!(order_by_lower_bound(&Vec::new()), Vec::<usize>::new());
    assert_eq!(order_by_lower_bound(&vec![entry(1.0)]), vec![0]);
}

#[test]
fn order_agrees_with_a_stable_sort() {
    let mut chart = Vec::new();
    let mut state: u64 = 0x9E37_79B9_7F4A_7C15;
    for _ in 0..200 {
        state ^= state << 13;
        state ^= state >> 7;
        state ^= state << 17;
        chart.push(entry((state % 40) as f64 * 2.5 - 20.0));
    }
    let mut expected: Vec<usize> = (0..chart.len()).collect();
    expected.sort_by(|a, b| {
        let x = f64::from_bits(chart[*a].lower_bound.to_bits());
        let y = f64::from_bits(chart[*b].lower_bound.to_bits());
        y.partial_cmp(&x).unwrap()
    });
    assert_eq!(order_by_lower_bound(&chart), expected);
}

#[test]
fn ranking_gives_new_ranks_and_movements() {
    let chart = vec![entry(70.0), entry(85.5), entry(60.0), entry(90.0)];
    assert_eq!(
        rank_chart(&chart),
        vec![
            place(1, 4, Movement::Up(3)),
            place(2, 2, Movement::Same),
            place(3, 1, Movement::Down(2)),
            place(4, 3, Movement::Down(1)),
        ]
    );
}

#[test]
fn entries_without_a_mean_are_left_out_and_take_no_rank() {
    let chart = vec![entry(70.0), unrated(), entry(85.5), unrated(), entry(-1.0)];
    assert_eq!(
        rank_chart(&chart),
        vec![
            place(1, 3, Movement::Up(2)),
            place(2, 1, Movement::Down(1)),
            place(3, 5, Movement::Up(2)),
        ]
    );
}

#[test]
fn ranking_of_nothing() {
    assert_eq!(rank_chart(&Vec::new()), Vec::new());
    assert_eq!(rank_chart(&vec![unrated(), unrated()]), Vec::new());
}

#[test]
fn a_chart_already_in_order_does_not_move() {
    let chart = vec![entry(90.0), entry(80.0), entry(80.0), entry(10.0)];
    assert_eq!(
        rank_chart(&chart),
        vec![
            place(1, 1, Movement::Same),
            place(2, 2, Movement::Same),
            place(3, 3, Movement::Same),
            place(4, 4, Movement::Same),
        ]
    );
}
