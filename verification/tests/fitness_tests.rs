use deckgen::card::CardInfo;
use deckgen::context::Context;
use deckgen::deck::DeckBTree;
use deckgen::globals::{DECK_SIZE, SCALE};
use deckgen::score::{
    consistency_score, curve_score, isqrt, tags_score, weigh, COS_FLOOR, IDEAL_CURVE,
};

fn card(id: i32, pp: u8, tags: &[&str]) -> (i32, CardInfo) {
    (
        id,
        CardInfo {
            craft_: String::from(if id % 2 == 0 { "Swordcraft" } else { "Neutral" }),
            id_: id,
            pp_: pp,
            trait_: String::from("Officer"),
            type_: String::from("Follower"),
            rotation_: id % 3 == 0,
            name_: format!("Card {}", id),
            tags_: tags.iter().map(|t| String::from(*t)).collect(),
        },
    )
}

// Fourteen cards at each cost from 0 to 10. The cheap ones carry no tag, so
// they come first; those that cost 9 or more carry one.
fn cards() -> Vec<(i32, CardInfo)> {
    let mut all = Vec::new();
    for pp in 0..11u8 {
        for n in 0..14 {
            let id = 1000 + (pp as i32) * 14 + n;
            if pp >= 9 {
                all.push(card(id, pp, &["storm"]));
            } else {
                all.push(card(id, pp, &[]));
            }
        }
    }
    all
}

#[test]
fn rate_curve() {
    // the catalog holds enough cards of cost 10 for a deck
    let ctx = Context::from_debug(cards());
    let mut d = DeckBTree::new();
    // all 10+pp
    for i in ctx.cards_vec.0.len() - 13..ctx.cards_vec.0.len() {
        for _ in 0..3 {
            d.add(i);
        }
    }
    d.add(ctx.cards_vec.0.len() - 14);
    assert!(d.rate(&ctx, 1_000_000, 0, 0) < 100);
    let mut d = DeckBTree::new();
    let cmp_arr: [usize; 8] = [4, 14, 6, 5, 4, 3, 2, 2];
    for pp in 0..8 {
        let mut curr: Vec<usize> = Vec::new();
        for i in 0..ctx.cards_vec.0.len() {
            if ctx.cards_map.0.get(&ctx.cards_vec.0[i]).unwrap().pp_ == pp + 1 {
                curr.push(i)
            }
        }
        for i in 0..cmp_arr[pp as usize] {
            d.add(curr[i as usize]);
        }
    }
    assert!(1_000_000 - d.rate(&ctx, 1_000_000, 0, 0) < 100);
    assert_eq!(d.pp_curve(&ctx), [4, 14, 6, 5, 4, 3, 2, 2]);
    assert_eq!(d.rate(&ctx, 1_000_000, 0, 0), 1_000_000);
}

#[test]
fn rate_len() {
    let ctx = Context::from_debug(cards());
    let mut d = DeckBTree::new();
    for i in 0..DECK_SIZE {
        d.add(i as usize);
    }
    assert_eq!(0, d.rate(&ctx, 0, 1_000_000, 0));
    let mut d = DeckBTree::new();
    for i in 0..13 {
        for _ in 0..3 {
            d.add(i);
        }
    }
    d.add(13);
    assert_eq!(1_000_000, d.rate(&ctx, 0, 1_000_000, 0));
}

#[test]
fn rate_tags() {
    let ctx = Context::from_debug(cards());
    let mut d = DeckBTree::new();
    for i in 0..13 {
        d.add(i);
        d.add(i);
        d.add(i);
    }
    d.add(13);
    // sorting by tags puts tagless cards first, and there's enough of them for a deck,
    // so the score should be zero
    assert_eq!(0, d.rate(&ctx, 0, 0, 1_000_000));
    d = DeckBTree::new();
    for i in ctx.cards_vec.0.len() - 14..ctx.cards_vec.0.len() - 1 {
        d.add(i);
        d.add(i);
        d.add(i);
    }
    d.add(ctx.cards_vec.0.len() - 1);
    // on the other hand near the end of the list, both because higher pp cards have more effect
    // and because of tagless cards came first, we expect a high concentration of tagged cards.
    assert!(d.rate(&ctx, 0, 0, 1_000_000) > 600_000);
    assert_eq!(d.tagged_count(&ctx), 40);
    println!("{}", d.url(&ctx));
}

#[test]
fn a_deck_of_cost_one_fills_the_first_bucket() {
    let ctx = Context::from_debug(cards());
    let mut d = DeckBTree::new();
    // the catalog positions 14 to 27 hold the cards of cost 1
    for i in 14..27 {
        for _ in 0..3 {
            d.add(i);
        }
    }
    d.add(27);
    assert_eq!(d.pp_curve(&ctx), [40, 0, 0, 0, 0, 0, 0, 0]);
}

#[test]
fn the_end_buckets_take_what_lies_beyond() {
    let ctx = Context::from_debug(cards());
    let mut d = DeckBTree::new();
    d.add(0); // cost 0
    d.add(14); // cost 1
    d.add(14);
    d.add(28); // cost 2
    d.add(98); // cost 7
    d.add(112); // cost 8
    d.add(126); // cost 9
    d.add(140); // cost 10
    d.add(140);
    let curve = d.pp_curve(&ctx);
    assert_eq!(curve, [3, 1, 0, 0, 0, 0, 1, 4]);
    assert_eq!(curve.iter().sum::<i32>(), d.len() as i32);
}

#[test]
fn the_curve_of_a_random_deck_sums_to_its_size() {
    let ctx = Context::from_debug(cards());
    for seed in 0..20 {
        let mut rng = deckgen::dice::Dice::from_seed(seed);
        let d = DeckBTree::from_rand(&ctx, &mut rng).unwrap();
        assert_eq!(d.pp_curve(&ctx).iter().sum::<i32>(), 40);
        let score = d.rate(&ctx, 400_000, 200_000, 400_000);
        assert!(score <= SCALE);
    }
}

#[test]
fn rate_weighs_its_three_terms() {
    let ctx = Context::from_debug(cards());
    let mut d = DeckBTree::new();
    for i in 120..130 {
        for _ in 0..3 {
            d.add(i);
        }
    }
    for i in 30..40 {
        d.add(i);
    }
    let curve = d.rate(&ctx, 1_000_000, 0, 0);
    let length = d.rate(&ctx, 0, 1_000_000, 0);
    let tags = d.rate(&ctx, 0, 0, 1_000_000);
    assert_eq!(length, (40 - 20) * 1_000_000 / 26);
    // positions 126 to 129 carry the tag: twelve cards of forty
    assert_eq!(tags, 12 * 1_000_000 / 40);
    assert_eq!(
        d.rate(&ctx, 500_000, 300_000, 200_000),
        (500_000 * curve + 300_000 * length + 200_000 * tags) / 1_000_000
    );
    // weights that do not sum to one are taken as they are
    assert_eq!(d.rate(&ctx, 2_000_000, 0, 0), 2 * curve);
}

#[test]
fn isqrt_rounds_down() {
    assert_eq!(isqrt(0), 0);
    assert_eq!(isqrt(1), 1);
    assert_eq!(isqrt(3), 1);
    assert_eq!(isqrt(4), 2);
    assert_eq!(isqrt(99), 9);
    assert_eq!(isqrt(100), 10);
    assert_eq!(isqrt(1_000_000_000_000), 1_000_000);
    assert_eq!(isqrt(999_999_999_999), 999_999);
    assert_eq!(isqrt(u64::MAX), 4_294_967_295);
    assert_eq!(isqrt(4_000_000_000_000 / 306), COS_FLOOR);
}

#[test]
fn curve_score_of_given_curves() {
    assert_eq!(curve_score(&IDEAL_CURVE), 1_000_000);
    assert_eq!(curve_score(&[0, 0, 0, 0, 0, 0, 0, 40]), 0);
    assert_eq!(curve_score(&[0, 0, 0, 0, 0, 0, 40, 0]), 0);
    assert_eq!(curve_score(&[0, 0, 0, 0, 0, 0, 0, 0]), 0);
    // all at cost 2: the cosine is 14 / sqrt(306), 800_326 millionths
    assert_eq!(curve_score(&[0, 40, 0, 0, 0, 0, 0, 0]), (800_326 - 114_332) * 1_000_000 / 885_668);
    // all at cost 1: the cosine is 4 / sqrt(306), 228_664 millionths
    assert_eq!(curve_score(&[40, 0, 0, 0, 0, 0, 0, 0]), (228_664 - 114_332) * 1_000_000 / 885_668);
    let near = curve_score(&[4, 14, 6, 5, 4, 3, 2, 2]) as f64 / 1_000_000.0;
    assert!((1.0 - near).abs() < 1e-4);
}

#[test]
fn consistency_score_falls_with_the_distinct_cards() {
    assert_eq!(consistency_score(14), 1_000_000);
    assert_eq!(consistency_score(1), 1_000_000);
    assert_eq!(consistency_score(40), 0);
    assert_eq!(consistency_score(100), 0);
    assert_eq!(consistency_score(27), 13 * 1_000_000 / 26);
    assert_eq!(consistency_score(39), 38_461);
}

#[test]
fn tags_score_is_the_share_of_the_deck() {
    assert_eq!(tags_score(0), 0);
    assert_eq!(tags_score(10), 250_000);
    assert_eq!(tags_score(40), 1_000_000);
}

#[test]
fn weigh_sums_the_terms() {
    assert_eq!(weigh(400_000, 1_000_000, 400_000, 500_000, 200_000, 0), 600_000);
    assert_eq!(weigh(0, 1_000_000, 0, 1_000_000, 0, 1_000_000), 0);
    assert_eq!(weigh(1_000_000, 1_000_000, 1_000_000, 1_000_000, 1_000_000, 1_000_000), 3_000_000);
    assert_eq!(weigh(333_333, 1, 333_333, 1, 333_334, 1), 1);
}
