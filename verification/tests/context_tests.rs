use deckgen::card::CardInfo;
use deckgen::catalog::{rank_cards, rank_tags, rank_text};
use deckgen::context::{
    build_archetype_tags_prompt, craft, get_archetype_tags, is_playable, same_text, toggle_tag,
    CardsMap, CardsVec, Context, SetupError,
};

fn card(id: i32, pp: u8, tags: &[&str]) -> (i32, CardInfo) {
    (
        id,
        CardInfo {
            craft_: String::from(if id % 2 == 0 { "Swordcraft" } else { "Neutral" }),
            id_: id,
            pp_: pp,
            trait_: String::from("Officer"),
            type_: String::from("Follower"),
            rotation_: id % 3 == 0,
            name_: format!("Card {}", id),
            tags_: tags.iter().map(|t| String::from(*t)).collect(),
        },
    )
}

// Fourteen cards at each cost from 0 to 10. The cheap ones carry no tag, so
// they come first; those that cost 9 or more carry one.
fn cards() -> Vec<(i32, CardInfo)> {
    let mut all = Vec::new();
    for pp in 0..11u8 {
        for n in 0..14 {
            let id = 1000 + (pp as i32) * 14 + n;
            if pp >= 9 {
                all.push(card(id, pp, &["storm"]));
            } else {
                all.push(card(id, pp, &[]));
            }
        }
    }
    all
}

fn record(id: i32, pp: u8, tags: &[&str], type_: &str, craft_: &str, trait_: &str) -> CardInfo {
    CardInfo {
        craft_: String::from(craft_),
        id_: id,
        pp_: pp,
        trait_: String::from(trait_),
        type_: String::from(type_),
        rotation_: true,
        name_: format!("Card {}", id),
        tags_: tags.iter().map(|t| String::from(*t)).collect(),
    }
}

#[test]
fn ctx() {
    // loading the card pool.
    let ctx = Context::from_debug(cards());
    // the pool has a 0pp card, so it should be the first in the vector.
    let id = ctx.cards_vec.0[0];
    let card = ctx.cards_map.0.get(&id).unwrap();
    assert_eq!(card.pp_, 0);
    assert_eq!(ctx.idx_to_card(0).id_, id);
    assert_eq!(ctx.game_mode, 1);
    assert_eq!(ctx.craft, 1);
    assert_eq!(ctx.tags, vec![String::from("storm")]);
    assert!(ctx.is_consistent());
}

#[test]
fn from_input_keeps_what_is_playable() {
    let all = vec![
        (1, record(1, 1, &[], "Follower", "Swordcraft", "Officer")),
        (2, record(2, 1, &[], "Follower", "Neutral", "")),
        (3, record(3, 1, &[], "Follower", "Runecraft", "")),
        (4, CardInfo { rotation_: false, ..record(4, 2, &[], "Spell", "Swordcraft", "") }),
        (5, CardInfo { rotation_: false, ..record(5, 2, &[], "Spell", "Neutral", "") }),
    ];
    let clone = |v: &Vec<(i32, CardInfo)>| -> Vec<(i32, CardInfo)> {
        v.iter()
            .map(|(id, c)| {
                (*id, CardInfo { rotation_: c.rotation_, ..record(c.id_, c.pp_, &[], &c.type_, &c.craft_, &c.trait_) })
            })
            .collect()
    };
    let rotation = CardsMap::from_input(clone(&all), 0, 1).unwrap();
    let mut ids: Vec<i32> = rotation.0.keys().copied().collect();
    ids.sort();
    assert_eq!(ids, vec![1, 2]);
    let unlimited = CardsMap::from_input(clone(&all), 1, 1).unwrap();
    let mut ids: Vec<i32> = unlimited.0.keys().copied().collect();
    ids.sort();
    assert_eq!(ids, vec![1, 2, 4, 5]);
    let rune = CardsMap::from_input(clone(&all), 1, 2).unwrap();
    let mut ids: Vec<i32> = rune.0.keys().copied().collect();
    ids.sort();
    assert_eq!(ids, vec![2, 3, 5]);
    assert_eq!(CardsMap::from_input(all, 1, 8).err(), Some(SetupError::UnknownCraft));
}

#[test]
fn from_input_lets_the_earlier_of_two_entries_stand() {
    let all = vec![
        (7, record(70, 1, &[], "Follower", "Neutral", "")),
        (7, record(71, 2, &[], "Follower", "Neutral", "")),
    ];
    let map = CardsMap::from_input(all, 1, 0).unwrap();
    assert_eq!(map.0.len(), 1);
    assert_eq!(map.0.get(&7).unwrap().id_, 70);
}

#[test]
fn from_dict_lays_the_catalog_out_by_rank() {
    let all = vec![
        (10, record(10, 3, &[], "Spell", "Neutral", "")),
        (11, record(11, 2, &["ward"], "Follower", "Neutral", "")),
        (12, record(12, 2, &[], "Spell", "Neutral", "")),
        (13, record(13, 2, &[], "Follower", "Swordcraft", "Officer")),
        (14, record(14, 2, &[], "Follower", "Neutral", "")),
        (15, record(15, 2, &[], "Follower", "Swordcraft", "Commander")),
        (16, record(16, 2, &["bane", "ward"], "Follower", "Neutral", "")),
        (17, record(17, 2, &["bane"], "Follower", "Neutral", "")),
        (9, record(9, 2, &[], "Follower", "Neutral", "")),
        (8, record(8, 0, &["ward"], "Amulet", "Neutral", "")),
    ];
    let map = CardsMap::from_input(all, 1, 1).unwrap();
    let order = CardsVec::from_dict(&map);
    // by cost; then the tag lists, the empty one first; then type, craft,
    // trait and id
    assert_eq!(order.0, vec![8, 9, 14, 15, 13, 12, 17, 16, 11, 10]);
}

#[test]
fn ranks_follow_the_first_difference() {
    assert_eq!(rank_text("", ""), 0);
    assert_eq!(rank_text("", "a"), -1);
    assert_eq!(rank_text("a", ""), 1);
    assert_eq!(rank_text("abc", "abd"), -1);
    assert_eq!(rank_text("abd", "abc"), 1);
    assert_eq!(rank_text("ab", "abc"), -1);
    assert_eq!(rank_text("Z", "a"), -1);
    assert_eq!(rank_text("same", "same"), 0);
    let a = vec![String::from("x")];
    let b = vec![String::from("x"), String::from("y")];
    assert_eq!(rank_tags(&a, &b), -1);
    assert_eq!(rank_tags(&b, &a), 1);
    assert_eq!(rank_tags(&a, &a), 0);
    assert_eq!(rank_tags(&Vec::new(), &a), -1);
    let low = record(5, 1, &["z"], "Spell", "Neutral", "");
    let high = record(4, 2, &[], "Amulet", "Forestcraft", "");
    assert_eq!(rank_cards(&low, &high), -1);
    assert_eq!(rank_cards(&high, &low), 1);
    assert_eq!(rank_cards(&low, &low), 0);
    let other = record(6, 1, &["z"], "Spell", "Neutral", "");
    assert_eq!(rank_cards(&low, &other), -1);
}

#[test]
fn crafts_have_their_names() {
    assert_eq!(craft(0), "Forestcraft");
    assert_eq!(craft(1), "Swordcraft");
    assert_eq!(craft(2), "Runecraft");
    assert_eq!(craft(3), "Dragoncraft");
    assert_eq!(craft(4), "Shadowcraft");
    assert_eq!(craft(5), "Bloodcraft");
    assert_eq!(craft(6), "Havencraft");
    assert_eq!(craft(7), "Portalcraft");
    assert!(same_text("Neutral", "Neutral"));
    assert!(!same_text("Neutral", "Neutra"));
    assert!(!same_text("Neutral", "neutral"));
    let sword = record(1, 1, &[], "Follower", "Swordcraft", "");
    assert!(is_playable(&sword, 0, 1));
    assert!(!is_playable(&sword, 0, 0));
    let old = CardInfo { rotation_: false, ..record(1, 1, &[], "Follower", "Neutral", "") };
    assert!(!is_playable(&old, 0, 3));
    assert!(is_playable(&old, 1, 3));
}

#[test]
fn archetype_tags_leave_the_neutral_cards_out() {
    let all = vec![
        (1, record(1, 1, &["ward", "rush"], "Follower", "Swordcraft", "")),
        (2, record(2, 2, &["heal"], "Follower", "Neutral", "")),
        (3, record(3, 3, &["rush", "bane"], "Follower", "Swordcraft", "")),
    ];
    let map = CardsMap::from_input(all, 1, 1).unwrap();
    let order = CardsVec::from_dict(&map);
    let tags = get_archetype_tags(&map, &order);
    assert_eq!(tags, vec![String::from("ward"), String::from("rush"), String::from("bane")]);
}

#[test]
fn from_debug_requests_every_tag_once() {
    let all = vec![
        (1, record(1, 1, &["ward", "rush"], "Follower", "Swordcraft", "")),
        (2, record(2, 2, &["heal"], "Follower", "Neutral", "")),
        (3, record(3, 3, &["rush", "bane"], "Follower", "Swordcraft", "")),
        (4, record(4, 3, &["fire"], "Follower", "Runecraft", "")),
    ];
    let ctx = Context::from_debug(all);
    assert_eq!(ctx.cards_vec.0, vec![1, 2, 3]);
    assert_eq!(
        ctx.tags,
        vec![
            String::from("ward"),
            String::from("rush"),
            String::from("heal"),
            String::from("bane")
        ]
    );
}

#[test]
fn the_prompt_numbers_the_tags_from_one() {
    let tags = vec![String::from("ward"), String::from("rush")];
    assert_eq!(
        build_archetype_tags_prompt(&tags),
        format!(
            "0 - done choosing\n1 - ward\n2 - rush\n{}",
            "What archetypes would you like to build? (options above) "
        )
    );
    assert_eq!(
        build_archetype_tags_prompt(&Vec::new()),
        format!(
            "0 - done choosing\n{}",
            "What archetypes would you like to build? (options above) "
        )
    );
    let many: Vec<String> = (0..12).map(|i| format!("t{}", i)).collect();
    assert!(build_archetype_tags_prompt(&many).contains("\n12 - t11\n"));
}

#[test]
fn an_answer_toggles_its_tag() {
    let available = vec![String::from("ward"), String::from("rush"), String::from("bane")];
    let mut selected: Vec<String> = Vec::new();
    assert!(!toggle_tag(&mut selected, &available, 2));
    assert_eq!(selected, vec![String::from("rush")]);
    assert!(!toggle_tag(&mut selected, &available, 3));
    assert_eq!(selected, vec![String::from("rush"), String::from("bane")]);
    assert!(!toggle_tag(&mut selected, &available, 2));
    assert_eq!(selected, vec![String::from("bane")]);
    assert!(!toggle_tag(&mut selected, &available, 4));
    assert_eq!(selected, vec![String::from("bane")]);
    assert!(toggle_tag(&mut selected, &available, 0));
    assert_eq!(selected, vec![String::from("bane")]);
}
