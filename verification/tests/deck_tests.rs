use deckgen::card::CardInfo;
use deckgen::context::Context;
use deckgen::deck::DeckBTree;
use deckgen::dice::Dice;
use deckgen::globals::{DECK_SIZE, MAX_QTY};
use deckgen::operators::{effective_temperature, mutation_window, DeckError};

fn card(id: i32, pp: u8, tags: &[&str]) -> (i32, CardInfo) {
    (
        id,
        CardInfo {
            craft_: String::from(if id % 2 == 0 { "Swordcraft" } else { "Neutral" }),
            id_: id,
            pp_: pp,
            trait_: String::from("Officer"),
            type_: String::from("Follower"),
            rotation_: id % 3 == 0,
            name_: format!("Card {}", id),
            tags_: tags.iter().map(|t| String::from(*t)).collect(),
        },
    )
}

// Fourteen cards at each cost from 0 to 10. The cheap ones carry no tag, so
// they come first; those that cost 9 or more carry one.
fn cards() -> Vec<(i32, CardInfo)> {
    let mut all = Vec::new();
    for pp in 0..11u8 {
        for n in 0..14 {
            let id = 1000 + (pp as i32) * 14 + n;
            if pp >= 9 {
                all.push(card(id, pp, &["storm"]));
            } else {
                all.push(card(id, pp, &[]));
            }
        }
    }
    all
}

#[test]
fn add_and_len() {
    let mut d = DeckBTree::new();
    // trying to overadd, it shouldn't go over max_qty
    for _ in 0..2 * MAX_QTY {
        d.add(0);
    }
    assert_eq!(d.len(), MAX_QTY);
}

#[test]
fn cut() {
    let mut d = DeckBTree::new();
    for _ in 0..MAX_QTY {
        d.add(0);
    }
    d.add(1);
    //trying to overremove, it should fail silently
    for _ in 0..2 * MAX_QTY {
        d.cut(0);
    }
    assert_eq!(d.len(), 1)
}

#[test]
fn add_says_whether_the_deck_grew() {
    let mut d = DeckBTree::new();
    assert!(d.add(7));
    assert!(d.add(7));
    assert!(d.add(7));
    assert!(!d.add(7));
    assert_eq!(d.len(), 3);
    assert_eq!(d.entries(), vec![(7, 3)]);
}

#[test]
fn add_then_cut_gives_the_deck_back() {
    let mut d = DeckBTree::new();
    d.add(2);
    d.add(2);
    d.add(9);
    let before = d.entries();
    assert!(d.add(5));
    d.cut(5);
    assert_eq!(d.entries(), before);
    assert!(d.add(2));
    d.cut(2);
    assert_eq!(d.entries(), before);
}

#[test]
fn cut_of_an_absent_card_changes_nothing() {
    let mut d = DeckBTree::new();
    d.add(4);
    d.cut(11);
    assert_eq!(d.entries(), vec![(4, 1)]);
    d.cut(4);
    assert_eq!(d.entries(), vec![]);
    assert_eq!(d.len(), 0);
}

#[test]
fn entries_come_in_ascending_order() {
    let mut d = DeckBTree::new();
    for card in [30usize, 2, 17, 2, 30, 30] {
        d.add(card);
    }
    assert_eq!(d.entries(), vec![(2, 2), (17, 1), (30, 3)]);
}

#[test]
fn pick_walks_the_copies_in_order() {
    let mut d = DeckBTree::new();
    for _ in 0..3 {
        d.add(10);
    }
    d.add(20);
    assert_eq!(d.pick(1), 10);
    assert_eq!(d.pick(2), 10);
    assert_eq!(d.pick(3), 10);
    assert_eq!(d.pick(4), 20);
}

#[test]
fn weighted_choice_follows_the_copies() {
    let mut d = DeckBTree::new();
    for _ in 0..3 {
        d.add(10);
    }
    d.add(20);
    let mut rng = Dice::from_seed(7);
    let tries = 40_000;
    let mut first = 0;
    for _ in 0..tries {
        if d.rand_idx(&mut rng) == 10 {
            first += 1;
        }
    }
    let share = first as f64 / tries as f64;
    assert!((share - 0.75).abs() < 0.02);
}

#[test]
fn t_rand_idx() {
    let ctx = Context::from_debug(cards());
    let mut rng = Dice::from_seed(1);
    let mut d = DeckBTree::new();
    // adding 3of of 6 cards (partial: 18/40, unique cards: 6)
    // 2of of 6 cards (partial: 30/40, unique cards: 12)
    // filled with 1ofs (unique cards: 22)
    for i in 0..6 {
        for _ in 0..3 {
            d.add(i);
        }
    }
    for j in 6..12 {
        d.add(j);
        d.add(j);
    }
    for k in 12..22 {
        d.add(k);
    }
    println!("{}", d.len());
    println!("{}", d.url(&ctx));
    let tries = 1_000_000;
    let mut ret = [0.0; 22];
    for _ in 0..tries {
        ret[d.rand_idx(&mut rng)] += 1.0;
    }
    for i in 0..22 {
        let expected_probability = {
            if i < 6 {
                7.5
            } else if i < 12 {
                5.0
            } else {
                2.5
            }
        };
        // Expecting first 6 at ~7.5%, second ~5%, rest ~2.5%
        assert!(f64::abs(expected_probability - 100.0 * ret[i] / tries as f64) < 0.1);
    }
}

#[test]
fn rand_and_url() {
    let mut d = DeckBTree::new();
    let ctx = Context::from_debug(cards());
    let mut rng = Dice::from_seed(2);
    assert!(d.rand_fill(&ctx, &mut rng));
    assert_eq!(d.len(), DECK_SIZE);
    println!("{}", d.url(&ctx));
}

#[test]
fn rand_fill_keeps_what_the_deck_held() {
    let ctx = Context::from_debug(cards());
    let mut rng = Dice::from_seed(3);
    let mut d = DeckBTree::new();
    d.add(5);
    d.add(5);
    assert!(d.rand_fill(&ctx, &mut rng));
    assert_eq!(d.len(), DECK_SIZE);
    let held = d.entries().iter().find(|e| e.0 == 5).map(|e| e.1);
    assert!(held.unwrap() >= 2);
    for (idx, qty) in d.entries() {
        assert!(idx < ctx.cards_vec.0.len());
        assert!(1 <= qty && qty <= MAX_QTY);
    }
}

#[test]
fn rand_fill_gives_up_on_an_empty_catalog() {
    let ctx = Context::from_debug(Vec::new());
    let mut rng = Dice::from_seed(3);
    let mut d = DeckBTree::new();
    assert!(!d.rand_fill(&ctx, &mut rng));
    assert_eq!(d.len(), 0);
    assert!(DeckBTree::from_rand(&ctx, &mut rng).is_none());
}

#[test]
fn deck_info() {
    // The catalog has both 0pps and >10pps to test index errors.
    let ctx = Context::from_debug(cards());
    let mut rng = Dice::from_seed(4);
    let mut d = DeckBTree::new();
    d.add(0);
    d.add(0);
    d.add(0);
    d.add(ctx.cards_vec.0.len() - 1);
    d.add(ctx.cards_vec.0.len() - 1);
    d.add(ctx.cards_vec.0.len() - 1);
    d.rand_fill(&ctx, &mut rng);
    println!("{}", d.as_string(&ctx));
    println!("{:?}", d.pp_curve(&ctx));
    println!("{}", d.url(&ctx));
    let curve = d.pp_curve(&ctx);
    assert!(curve[0] >= 3);
    assert!(curve[7] >= 3);
    assert_eq!(curve.iter().sum::<i32>(), 40);
}

#[test]
fn mutate() {
    let ctx = Context::from_debug(cards());
    let mut rng = Dice::from_seed(5);
    let mut d = DeckBTree::from_rand(&ctx, &mut rng).unwrap();
    let d2 = d.clone();
    d.mutate(&ctx, &mut rng, 3, 3, 500_000, 1).unwrap();
    let mut amount_of_differences = 0;
    for (key, _) in &d.0 {
        if d2.0.contains_key(key) {
            if d.0[key] != d2.0[key] {
                amount_of_differences += 1;
            }
        } else {
            amount_of_differences += 1;
        }
    }
    println!("{}\n{}", d.url(&ctx), d2.url(&ctx));
    // it can rarely happen that a card mutates in itself, resulting in no changes
    // the most that can happen is that a card mutates onto an another card in the deck
    // (1 from the contains check + 1 from the card copies comparison)
    assert!(amount_of_differences <= 2);
    assert_eq!(d.len(), DECK_SIZE);
}

#[test]
fn mutate_stays_within_its_window() {
    let ctx = Context::from_debug(cards());
    for seed in 0..50 {
        let mut rng = Dice::from_seed(seed);
        let mut d = DeckBTree::new();
        for i in 60..73 {
            for _ in 0..3 {
                d.add(i);
            }
        }
        d.add(73);
        d.mutate(&ctx, &mut rng, 20, 2, 1_000_000, 30).unwrap();
        assert_eq!(d.len(), DECK_SIZE);
        for (idx, _) in d.entries() {
            assert!(58 <= idx && idx <= 75);
        }
    }
}

#[test]
fn mutate_reports_a_window_without_room() {
    // A catalog of fourteen cards and a deck that holds three of each but
    // one: after a cut only the cut card and the single one have room. With
    // radius 0 the window holds the cut card alone, so the mutation puts it
    // back.
    let few: Vec<(i32, CardInfo)> = cards().into_iter().take(14).collect();
    let ctx = Context::from_debug(few);
    let mut rng = Dice::from_seed(6);
    let mut d = DeckBTree::new();
    for i in 0..13 {
        for _ in 0..3 {
            d.add(i);
        }
    }
    d.add(13);
    let before = d.entries();
    assert_eq!(d.mutate(&ctx, &mut rng, 0, 0, 0, 0), Ok(()));
    assert_eq!(d.entries(), before);
}

#[test]
fn effective_temperature_cools_down_to_its_floor() {
    assert_eq!(effective_temperature(20, 3, 50_000, 0), 20);
    assert_eq!(effective_temperature(20, 3, 50_000, 10), 19);
    assert_eq!(effective_temperature(20, 3, 50_000, 29), 19);
    assert_eq!(effective_temperature(20, 3, 50_000, 30), 18);
    assert_eq!(effective_temperature(20, 3, 50_000, 1_000), 3);
    assert_eq!(effective_temperature(3, 3, 500_000, 1), 3);
}

#[test]
fn mutation_window_is_clamped_to_the_catalog() {
    assert_eq!(mutation_window(50, 3, 154), (47, 53));
    assert_eq!(mutation_window(1, 3, 154), (0, 4));
    assert_eq!(mutation_window(152, 3, 154), (149, 153));
    assert_eq!(mutation_window(5, 0, 154), (5, 5));
}

#[test]
fn mix() {
    let mut rng = Dice::from_seed(8);
    let mut d1 = DeckBTree::new();
    for i in 0..13 {
        for _ in 0..3 {
            d1.add(i);
        }
    }
    d1.add(13);
    let mut d2 = DeckBTree::new();
    for j in 100..113 {
        for _ in 0..3 {
            d2.add(j);
        }
    }
    d2.add(113);
    let d3 = d1.mix(&d2, &mut rng).unwrap();
    for key in d3.0.keys() {
        assert!(d1.0.contains_key(key) | d2.0.contains_key(key));
    }
    assert_eq!(d3.len(), DECK_SIZE);
}

#[test]
fn mix_at_takes_the_head_of_one_and_the_tail_of_the_other() {
    let mut d1 = DeckBTree::new();
    for i in 0..13 {
        for _ in 0..3 {
            d1.add(i);
        }
    }
    d1.add(13);
    let mut d2 = DeckBTree::new();
    for j in 100..113 {
        for _ in 0..3 {
            d2.add(j);
        }
    }
    d2.add(113);
    // Split point 4: the groups 0 and 1 of the first deck, six cards; then
    // from the top of the second deck 113 once and eleven groups of three.
    let child = d1.mix_at(&d2, 4).unwrap();
    let mut expected = vec![(0usize, 3i8), (1, 3)];
    for j in 102..113 {
        expected.push((j, 3));
    }
    expected.push((113, 1));
    assert_eq!(child.entries(), expected);
}

#[test]
fn mix_at_takes_part_of_the_last_group() {
    let mut d1 = DeckBTree::new();
    for i in 0..13 {
        for _ in 0..3 {
            d1.add(i);
        }
    }
    d1.add(13);
    let mut d2 = DeckBTree::new();
    for j in 100..113 {
        for _ in 0..3 {
            d2.add(j);
        }
    }
    d2.add(113);
    // Split point 5: still six cards from the first deck. Split point 7:
    // nine cards, so 31 from the second: 113 once and ten groups of three.
    assert_eq!(d1.mix_at(&d2, 5).unwrap().entries(), d1.mix_at(&d2, 4).unwrap().entries());
    let child = d1.mix_at(&d2, 7).unwrap();
    let mut expected = vec![(0usize, 3i8), (1, 3), (2, 3)];
    for j in 103..113 {
        expected.push((j, 3));
    }
    expected.push((113, 1));
    assert_eq!(child.entries(), expected);
    // Split point 8: nine cards again; split point 10: twelve cards, so 28
    // from the second: 113 once and nine groups of three.
    let child = d1.mix_at(&d2, 10).unwrap();
    let mut expected = vec![(0usize, 3i8), (1, 3), (2, 3), (3, 3)];
    for j in 104..113 {
        expected.push((j, 3));
    }
    expected.push((113, 1));
    assert_eq!(child.entries(), expected);
    // A second deck of two-card groups leaves one card of its last group.
    let mut d4 = DeckBTree::new();
    for j in 200..220 {
        d4.add(j);
        d4.add(j);
    }
    let child = d1.mix_at(&d4, 7).unwrap();
    let mut expected = vec![(0usize, 3i8), (1, 3), (2, 3), (204, 1)];
    for j in 205..220 {
        expected.push((j, 2));
    }
    assert_eq!(child.entries(), expected);
}

#[test]
fn mix_at_respects_the_cap_where_the_parents_overlap() {
    let mut d1 = DeckBTree::new();
    for i in 0..13 {
        for _ in 0..3 {
            d1.add(i);
        }
    }
    d1.add(13);
    let d2 = d1.clone();
    // The head holds the groups 0 to 3, twelve cards. From the top the second
    // deck gives 13 once and the groups 12 down to 4, 27 cards: 40.
    let child = d1.mix_at(&d2, 10).unwrap();
    assert_eq!(child.entries(), d1.entries());
}

#[test]
fn mix_at_fails_where_the_parents_run_out() {
    let mut d1 = DeckBTree::new();
    d1.add(0);
    let mut d2 = DeckBTree::new();
    d2.add(0);
    d2.add(1);
    assert_eq!(d1.mix_at(&d2, 1).err(), Some(DeckError::CrossoverShort));
}

#[test]
fn from_rand_gives_up_on_a_catalog_that_cannot_fill_a_deck() {
    let few: Vec<(i32, CardInfo)> = cards().into_iter().take(13).collect();
    let ctx = Context::from_debug(few);
    let mut rng = Dice::from_seed(9);
    assert!(DeckBTree::from_rand(&ctx, &mut rng).is_none());
    let enough: Vec<(i32, CardInfo)> = cards().into_iter().take(14).collect();
    let ctx = Context::from_debug(enough);
    let deck = DeckBTree::from_rand(&ctx, &mut rng).unwrap();
    assert_eq!(deck.len(), DECK_SIZE);
    assert_eq!(deck.entries().len(), 14);
}

#[test]
fn mutate_with_radius_zero_puts_back_what_it_cut() {
    let ctx = Context::from_debug(cards());
    for seed in 0..30 {
        let mut rng = Dice::from_seed(seed);
        let mut d = DeckBTree::from_rand(&ctx, &mut rng).unwrap();
        let before = d.entries();
        assert_eq!(d.mutate(&ctx, &mut rng, 0, 0, 0, seed), Ok(()));
        assert_eq!(d.entries(), before);
    }
}

#[test]
fn fill_in_order_tops_up_from_the_first_card() {
    let ctx = Context::from_debug(cards());
    let mut d = DeckBTree::new();
    assert!(d.fill_in_order(&ctx));
    let mut expected: Vec<(usize, i8)> = (0..13).map(|i| (i, 3)).collect();
    expected.push((13, 1));
    assert_eq!(d.entries(), expected);
    // what the deck holds stays, and counts among the forty
    let mut d = DeckBTree::new();
    d.add(1);
    d.add(100);
    d.add(100);
    assert!(d.fill_in_order(&ctx));
    let mut expected: Vec<(usize, i8)> = (0..12).map(|i| (i, 3)).collect();
    expected.push((12, 2));
    expected.push((100, 2));
    assert_eq!(d.entries(), expected);
    assert_eq!(d.len(), DECK_SIZE);
    // a complete deck is left as it is
    let before = d.entries();
    assert!(d.fill_in_order(&ctx));
    assert_eq!(d.entries(), before);
}

#[test]
fn fill_in_order_stops_where_the_catalog_ends() {
    let few: Vec<(i32, CardInfo)> = cards().into_iter().take(5).collect();
    let ctx = Context::from_debug(few);
    let mut d = DeckBTree::new();
    d.add(4);
    assert!(!d.fill_in_order(&ctx));
    assert_eq!(d.entries(), vec![(0, 3), (1, 3), (2, 3), (3, 3), (4, 3)]);
    let mut rng = Dice::from_seed(10);
    let mut d = DeckBTree::new();
    assert!(!d.rand_fill(&ctx, &mut rng));
    assert_eq!(d.entries(), vec![(0, 3), (1, 3), (2, 3), (3, 3), (4, 3)]);
}

#[test]
fn rand_fill_completes_on_every_catalog_that_can_fill_a_deck() {
    let enough: Vec<(i32, CardInfo)> = cards().into_iter().take(14).collect();
    let ctx = Context::from_debug(enough);
    for seed in 0..40 {
        let mut rng = Dice::from_seed(seed);
        let mut d = DeckBTree::new();
        assert!(d.rand_fill(&ctx, &mut rng));
        assert_eq!(d.len(), DECK_SIZE);
        assert!(DeckBTree::from_rand(&ctx, &mut rng).is_some());
    }
}

#[test]
fn add_and_cut_work_on_a_full_deck_too() {
    let mut d = DeckBTree::new();
    for i in 0..13 {
        for _ in 0..3 {
            d.add(i);
        }
    }
    d.add(13);
    assert_eq!(d.len(), DECK_SIZE);
    let before = d.entries();
    // at the cap nothing moves
    assert!(!d.add(0));
    assert_eq!(d.entries(), before);
    // below the cap the deck grows past its size, and the cut gives it back
    assert!(d.add(50));
    assert_eq!(d.len(), DECK_SIZE + 1);
    d.cut(50);
    assert_eq!(d.entries(), before);
    assert!(d.add(13));
    d.cut(13);
    assert_eq!(d.entries(), before);
}
