use loose_dirt::element::firm;
use loose_dirt::element::open_to;
use loose_dirt::element::support_strength;
use loose_dirt::element::Element;
use loose_dirt::neighbours::DownNeighbour;
use loose_dirt::neighbours::LeftNeighbour;
use loose_dirt::neighbours::Neighbours;
use loose_dirt::neighbours::RightNeighbour;
use loose_dirt::neighbours::Side;
use loose_dirt::neighbours::UpNeighbour;
use loose_dirt::random::destabilize_offset;
use loose_dirt::random::reach;
use loose_dirt::random::step_from;
use loose_dirt::random::RandomSource;
use loose_dirt::random::SAND_EAGERNESS;
use loose_dirt::random::WATER_EAGERNESS;
use loose_dirt::rules::decide;
use loose_dirt::rules::evaluate;
use loose_dirt::rules::Verdict;
use rand::rngs::StdRng;
use rand::SeedableRng;

fn seen(
    up: Option<Element>,
    down: Option<Element>,
    left: Option<Element>,
    right: Option<Element>,
) -> Neighbours {
    Neighbours {
        up: up.map(UpNeighbour),
        down: down.map(DownNeighbour),
        left: left.map(LeftNeighbour),
        right: right.map(RightNeighbour),
    }
}

const ALL: [Option<Element>; 6] = [
    None,
    Some(Element::Air),
    Some(Element::Rock),
    Some(Element::Water),
    Some(Element::Sand(0)),
    Some(Element::Sand(2)),
];

#[test]
fn look_gives_back_what_was_seen() {
    let around = seen(Some(Element::Air), None, Some(Element::Sand(1)), Some(Element::Rock));
    assert_eq!(around.look(Side::Up), Some(Element::Air));
    assert_eq!(around.look(Side::Down), None);
    assert_eq!(around.look(Side::Left), Some(Element::Sand(1)));
    assert_eq!(around.look(Side::Right), Some(Element::Rock));
    let blank = Neighbours::none();
    for side in [Side::Up, Side::Down, Side::Left, Side::Right] {
        assert_eq!(blank.look(side), None);
    }
}

#[test]
fn only_air_and_water_are_open() {
    assert!(open_to(Some(Element::Air)));
    assert!(open_to(Some(Element::Water)));
    assert!(!open_to(Some(Element::Rock)));
    assert!(!open_to(Some(Element::Sand(0))));
    assert!(!open_to(None));
}

#[test]
fn only_rock_and_the_edge_are_firm() {
    assert!(firm(Some(Element::Rock)));
    assert!(firm(None));
    assert!(!firm(Some(Element::Air)));
    assert!(!firm(Some(Element::Water)));
    assert!(!firm(Some(Element::Sand(0))));
}

#[test]
fn support_is_one_from_sand_two_from_rock_and_none_otherwise() {
    assert_eq!(support_strength(Some(Element::Sand(0))), 1);
    assert_eq!(support_strength(Some(Element::Sand(200))), 1);
    assert_eq!(support_strength(Some(Element::Rock)), 2);
    assert_eq!(support_strength(Some(Element::Air)), 0);
    assert_eq!(support_strength(Some(Element::Water)), 0);
    assert_eq!(support_strength(None), 0);
}

#[test]
fn air_is_idle_whatever_it_saw() {
    for down in ALL {
        for left in ALL {
            assert_eq!(decide(Element::Air, &seen(None, down, left, None)), Verdict::Idle);
        }
    }
}

#[test]
fn rock_held_on_all_sides_is_idle() {
    let rock = Some(Element::Rock);
    for up in [None, rock] {
        for down in [None, rock] {
            for left in [None, rock] {
                for right in [None, rock] {
                    assert_eq!(decide(Element::Rock, &seen(up, down, left, right)), Verdict::Idle);
                }
            }
        }
    }
}

#[test]
fn rock_with_one_side_not_held_crumbles() {
    let rock = Some(Element::Rock);
    for other in [Some(Element::Air), Some(Element::Water), Some(Element::Sand(0))] {
        let crumbled = Verdict::Settle(Element::Sand(0));
        assert_eq!(decide(Element::Rock, &seen(other, rock, rock, rock)), crumbled);
        assert_eq!(decide(Element::Rock, &seen(rock, other, rock, rock)), crumbled);
        assert_eq!(decide(Element::Rock, &seen(rock, rock, other, rock)), crumbled);
        assert_eq!(decide(Element::Rock, &seen(rock, rock, rock, other)), crumbled);
        assert_eq!(decide(Element::Rock, &seen(None, None, None, other)), crumbled);
    }
}

#[test]
fn water_falls_into_air_below_whatever_is_beside_it() {
    for left in ALL {
        for right in ALL {
            let around = seen(None, Some(Element::Air), left, right);
            assert_eq!(decide(Element::Water, &around), Verdict::Fall(Element::Water));
        }
    }
}

#[test]
fn water_spreads_when_it_cannot_fall() {
    for down in [None, Some(Element::Rock), Some(Element::Water), Some(Element::Sand(1))] {
        let around = seen(None, down, Some(Element::Air), Some(Element::Air));
        assert_eq!(
            decide(Element::Water, &around),
            Verdict::Slide(Element::Water, WATER_EAGERNESS)
        );
    }
}

#[test]
fn sand_falls_into_air_or_water_below() {
    for down in [Some(Element::Air), Some(Element::Water)] {
        for compaction in [0, 1, 2, 200] {
            let around = seen(None, down, None, None);
            assert_eq!(
                decide(Element::Sand(compaction), &around),
                Verdict::Fall(Element::Sand(0))
            );
        }
    }
}

#[test]
fn sand_rests_loose_on_rock_and_on_the_edge() {
    for down in [Some(Element::Rock), None] {
        for compaction in [0, 1, 2, 200] {
            for side in ALL {
                let around = seen(None, down, side, side);
                assert_eq!(
                    decide(Element::Sand(compaction), &around),
                    Verdict::Settle(Element::Sand(0))
                );
            }
        }
    }
}

#[test]
fn sand_on_sand_gathers_compaction_below_the_threshold() {
    let air = Some(Element::Air);
    let sand = Some(Element::Sand(9));
    let on = |distance: u8, left, right| {
        decide(Element::Sand(77), &seen(None, Some(Element::Sand(distance)), left, right))
    };
    assert_eq!(on(0, air, air), Verdict::Settle(Element::Sand(1)));
    assert_eq!(on(0, None, None), Verdict::Settle(Element::Sand(1)));
    assert_eq!(on(1, air, air), Verdict::Settle(Element::Sand(2)));
    assert_eq!(on(0, sand, air), Verdict::Settle(Element::Sand(2)));
    assert_eq!(on(0, air, sand), Verdict::Settle(Element::Sand(2)));
}

#[test]
fn sand_on_sand_gives_way_at_the_threshold() {
    let air = Some(Element::Air);
    let sand = Some(Element::Sand(9));
    let rock = Some(Element::Rock);
    let gives_way = Verdict::Slide(Element::Sand(0), SAND_EAGERNESS);
    let on = |distance: u8, left, right| {
        decide(Element::Sand(77), &seen(None, Some(Element::Sand(distance)), left, right))
    };
    assert_eq!(on(2, air, air), gives_way);
    assert_eq!(on(1, sand, air), gives_way);
    assert_eq!(on(0, sand, sand), gives_way);
    assert_eq!(on(0, rock, air), gives_way);
    assert_eq!(on(0, air, rock), gives_way);
    assert_eq!(on(0, rock, rock), gives_way);
    assert_eq!(on(3, air, air), gives_way);
    assert_eq!(on(254, air, air), gives_way);
    assert_eq!(on(255, air, air), gives_way);
    assert_eq!(on(255, rock, rock), gives_way);
}

#[test]
fn no_verdict_carries_sand_at_the_threshold() {
    let elements = [
        Element::Air,
        Element::Rock,
        Element::Water,
        Element::Sand(0),
        Element::Sand(2),
        Element::Sand(255),
    ];
    let below = [
        None,
        Some(Element::Air),
        Some(Element::Rock),
        Some(Element::Water),
        Some(Element::Sand(0)),
        Some(Element::Sand(1)),
        Some(Element::Sand(2)),
        Some(Element::Sand(3)),
        Some(Element::Sand(255)),
    ];
    for element in elements {
        for down in below {
            for left in ALL {
                for right in ALL {
                    let becomes = match decide(element, &seen(None, down, left, right)) {
                        Verdict::Idle => continue,
                        Verdict::Settle(becomes) => becomes,
                        Verdict::Fall(becomes) => becomes,
                        Verdict::Slide(becomes, _) => becomes,
                    };
                    if let Element::Sand(compaction) = becomes {
                        assert!(compaction < 3);
                    }
                }
            }
        }
    }
}

#[test]
fn evaluate_sends_a_falling_cell_one_row_down() {
    let mut source = RandomSource::seeded(1);
    let around = seen(None, Some(Element::Air), Some(Element::Air), Some(Element::Air));
    assert_eq!(
        evaluate(Element::Water, &around, 3, 5, &mut source),
        Some((3, 4, Element::Water))
    );
    assert_eq!(
        evaluate(Element::Sand(2), &around, 0, 0, &mut source),
        Some((0, -1, Element::Sand(0)))
    );
}

#[test]
fn evaluate_keeps_a_settling_cell_in_place() {
    let mut source = RandomSource::seeded(1);
    let around = seen(None, Some(Element::Rock), Some(Element::Air), Some(Element::Air));
    assert_eq!(
        evaluate(Element::Sand(2), &around, 3, 5, &mut source),
        Some((3, 5, Element::Sand(0)))
    );
    assert_eq!(
        evaluate(Element::Rock, &around, 3, 5, &mut source),
        Some((3, 5, Element::Sand(0)))
    );
}

#[test]
fn evaluate_sends_an_idle_cell_nowhere() {
    let mut source = RandomSource::seeded(1);
    let around = seen(None, Some(Element::Rock), None, Some(Element::Rock));
    assert_eq!(evaluate(Element::Air, &around, 3, 5, &mut source), None);
    assert_eq!(evaluate(Element::Rock, &around, 3, 5, &mut source), None);
}

#[test]
fn evaluate_without_a_generator_never_slides() {
    let mut source = RandomSource::none();
    let around = seen(None, Some(Element::Rock), Some(Element::Air), Some(Element::Air));
    for _ in 0..50 {
        assert_eq!(
            evaluate(Element::Water, &around, 3, 5, &mut source),
            Some((3, 5, Element::Water))
        );
    }
    let pile = seen(None, Some(Element::Sand(2)), Some(Element::Air), Some(Element::Air));
    assert_eq!(evaluate(Element::Sand(1), &pile, 3, 5, &mut source), Some((3, 5, Element::Sand(0))));
}

#[test]
fn evaluate_slides_one_cell_at_most_and_only_to_open_sides() {
    let mut source = RandomSource::seeded(11);
    let mut left_seen = false;
    let mut right_seen = false;
    let both = seen(None, Some(Element::Rock), Some(Element::Air), Some(Element::Water));
    for _ in 0..300 {
        let (x, y, element) = evaluate(Element::Water, &both, 10, 4, &mut source).unwrap();
        assert_eq!((y, element), (4, Element::Water));
        assert!(x == 9 || x == 10 || x == 11);
        left_seen |= x == 9;
        right_seen |= x == 11;
    }
    assert!(left_seen && right_seen);
    let left_only = seen(None, Some(Element::Rock), Some(Element::Air), Some(Element::Rock));
    let right_only = seen(None, Some(Element::Rock), None, Some(Element::Air));
    for _ in 0..300 {
        let (x, _, _) = evaluate(Element::Water, &left_only, 10, 4, &mut source).unwrap();
        assert!(x == 9 || x == 10);
        let (x, _, _) = evaluate(Element::Water, &right_only, 10, 4, &mut source).unwrap();
        assert!(x == 10 || x == 11);
    }
}

#[test]
fn a_step_is_the_sign_of_the_draw() {
    assert_eq!(step_from(0), 0);
    assert_eq!(step_from(1), 1);
    assert_eq!(step_from(-1), -1);
    assert_eq!(step_from(500), 1);
    assert_eq!(step_from(-500), -1);
    assert_eq!(step_from(999), 1);
    assert_eq!(step_from(-999), -1);
    assert_eq!(step_from(1000), 1);
    assert_eq!(step_from(-1000), -1);
    assert_eq!(step_from(1300), 1);
    assert_eq!(step_from(-5000), -1);
    assert_eq!(step_from(i32::MAX), 1);
    assert_eq!(step_from(i32::MIN), -1);
}

#[test]
fn the_reach_goes_towards_air_and_water_only() {
    let air = Some(Element::Air);
    let water = Some(Element::Water);
    assert_eq!(reach(air, air, 1300), (-1300, 1300));
    assert_eq!(reach(water, water, 5000), (-5000, 5000));
    assert_eq!(reach(air, water, 7), (-7, 7));
    assert_eq!(reach(air, None, 1300), (-1300, 0));
    assert_eq!(reach(None, air, 1300), (0, 1300));
    assert_eq!(reach(Some(Element::Rock), water, 5000), (0, 5000));
    assert_eq!(reach(water, Some(Element::Sand(0)), 5000), (-5000, 0));
    assert_eq!(reach(Some(Element::Rock), None, 5000), (0, 0));
    assert_eq!(reach(Some(Element::Sand(2)), Some(Element::Sand(0)), i32::MAX), (0, 0));
    assert_eq!(reach(air, air, 0), (0, 0));
    assert_eq!(reach(air, air, i32::MAX), (-i32::MAX, i32::MAX));
}

#[test]
fn a_reach_of_less_than_a_cell_still_steps() {
    let mut source = RandomSource::seeded(21);
    let air = Some(Element::Air);
    let mut left = 0usize;
    let mut right = 0usize;
    for _ in 0..400 {
        match destabilize_offset(air, air, 500, &mut source) {
            -1 => left += 1,
            1 => right += 1,
            _ => {},
        }
    }
    assert!(left > 100 && right > 100);
    for _ in 0..100 {
        assert!(destabilize_offset(air, None, 1, &mut source) <= 0);
    }
    let leftwards =
        (0..100).filter(|_| destabilize_offset(air, None, 1, &mut source) == -1).count();
    assert!(leftwards > 10);
}

#[test]
fn offset_is_zero_when_neither_side_is_open() {
    let mut source = RandomSource::seeded(5);
    let shut = [None, Some(Element::Rock), Some(Element::Sand(0))];
    for left in shut {
        for right in shut {
            for _ in 0..50 {
                assert_eq!(destabilize_offset(left, right, WATER_EAGERNESS, &mut source), 0);
                assert_eq!(destabilize_offset(left, right, SAND_EAGERNESS, &mut source), 0);
            }
        }
    }
}

#[test]
fn offset_stays_within_one_cell_for_every_pair_of_sides() {
    let mut source = RandomSource::seeded(6);
    for left in ALL {
        for right in ALL {
            for eagerness in [0, 1, 999, 1000, 1300, 5000, i32::MAX] {
                for _ in 0..20 {
                    let offset = destabilize_offset(left, right, eagerness, &mut source);
                    assert!((-1..=1).contains(&offset));
                    if !open_to(left) {
                        assert!(offset >= 0);
                    }
                    if !open_to(right) {
                        assert!(offset <= 0);
                    }
                    if eagerness == 0 {
                        assert_eq!(offset, 0);
                    }
                }
            }
        }
    }
}

#[test]
fn offset_takes_every_value_when_both_sides_are_open() {
    let mut source = RandomSource::seeded(42);
    let air = Some(Element::Air);
    let mut counts = [0usize; 3];
    for _ in 0..2000 {
        let offset = destabilize_offset(air, air, WATER_EAGERNESS, &mut source);
        counts[(offset + 1) as usize] += 1;
    }
    assert!(counts[0] > 800 && counts[2] > 800);
    assert_eq!(counts[0] + counts[1] + counts[2], 2000);
}

#[test]
fn offset_is_zero_only_for_a_draw_of_zero() {
    let mut source = RandomSource::seeded(43);
    let air = Some(Element::Air);
    for _ in 0..200 {
        assert_eq!(destabilize_offset(air, air, 0, &mut source), 0);
    }
    let mut stayed = 0usize;
    for _ in 0..2000 {
        if destabilize_offset(air, air, 1, &mut source) == 0 {
            stayed += 1;
        }
    }
    // One length in three, of -1, 0 and 1, is no length at all.
    assert!(stayed > 400 && stayed < 950);
}

#[test]
fn offset_is_zero_without_a_generator() {
    let mut source = RandomSource::none();
    assert!(source.is_absent());
    let air = Some(Element::Air);
    for _ in 0..100 {
        assert_eq!(destabilize_offset(air, air, WATER_EAGERNESS, &mut source), 0);
    }
    assert!(source.is_absent());
}

#[test]
fn the_same_seed_gives_the_same_offsets() {
    let mut first = RandomSource::seeded(2024);
    let mut second = RandomSource::seeded(2024);
    assert!(!first.is_absent());
    let air = Some(Element::Air);
    for _ in 0..200 {
        assert_eq!(
            destabilize_offset(air, air, WATER_EAGERNESS, &mut first),
            destabilize_offset(air, air, WATER_EAGERNESS, &mut second)
        );
    }
}

#[test]
fn draw_stays_in_its_range_and_moves_within_it() {
    let mut source = RandomSource::seeded(9);
    let mut low_seen = false;
    let mut high_seen = false;
    for _ in 0..500 {
        let value = source.draw(-3, 4).unwrap();
        assert!((-3..=4).contains(&value));
        low_seen |= value == -3;
        high_seen |= value == 4;
    }
    assert!(low_seen && high_seen);
    assert_eq!(source.draw(7, 7), Some(7));
    assert_eq!(source.draw(i32::MIN, i32::MIN), Some(i32::MIN));
}

#[test]
fn draw_gives_nothing_from_an_empty_range_or_without_a_generator() {
    let mut source = RandomSource::seeded(9);
    assert_eq!(source.draw(1, 0), None);
    let mut absent = RandomSource::none();
    assert_eq!(absent.draw(0, 10), None);
}

#[test]
fn a_source_from_the_system_draws_in_range_if_it_is_there() {
    let mut source = RandomSource::system();
    match source.draw(-5, 5) {
        Some(value) => assert!((-5..=5).contains(&value)),
        None => assert!(source.is_absent()),
    }
}

#[test]
fn a_seeding_that_failed_leaves_a_source_without_a_generator() {
    let mut source = RandomSource::from_outcome(Err(rand::Error::new("no seed")));
    assert!(source.is_absent());
    assert_eq!(source.draw(0, 10), None);
    let air = Some(Element::Air);
    assert_eq!(destabilize_offset(air, air, WATER_EAGERNESS, &mut source), 0);
}

#[test]
fn a_seeding_that_worked_leaves_a_source_over_its_generator() {
    let mut adopted = RandomSource::from_outcome(Ok(StdRng::seed_from_u64(77)));
    let mut seeded = RandomSource::seeded(77);
    assert!(!adopted.is_absent());
    let mut values = Vec::new();
    for _ in 0..200 {
        let value = adopted.draw(-1000, 1000);
        assert_eq!(value, seeded.draw(-1000, 1000));
        values.push(value.unwrap());
    }
    assert!(values.iter().any(|value| *value != values[0]));
}
