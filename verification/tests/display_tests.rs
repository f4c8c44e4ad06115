use deckgen::card::CardInfo;
use deckgen::context::Context;
use deckgen::deck::DeckBTree;
use deckgen::display::encode_id;
use deckgen::text::text_of;

fn card(id: i32, pp: u8, tags: &[&str]) -> (i32, CardInfo) {
    (
        id,
        CardInfo {
            craft_: String::from(if id % 2 == 0 { "Swordcraft" } else { "Neutral" }),
            id_: id,
            pp_: pp,
            trait_: String::from("Officer"),
            type_: String::from("Follower"),
            rotation_: id % 3 == 0,
            name_: format!("Card {}", id),
            tags_: tags.iter().map(|t| String::from(*t)).collect(),
        },
    )
}

// Fourteen cards at each cost from 0 to 10. The cheap ones carry no tag, so
// they come first; those that cost 9 or more carry one.
fn cards() -> Vec<(i32, CardInfo)> {
    let mut all = Vec::new();
    for pp in 0..11u8 {
        for n in 0..14 {
            let id = 1000 + (pp as i32) * 14 + n;
            if pp >= 9 {
                all.push(card(id, pp, &["storm"]));
            } else {
                all.push(card(id, pp, &[]));
            }
        }
    }
    all
}

#[test]
fn encode_id_writes_base_64() {
    assert_eq!(text_of(&encode_id(0)), "");
    assert_eq!(text_of(&encode_id(-5)), "");
    assert_eq!(text_of(&encode_id(1)), "1");
    assert_eq!(text_of(&encode_id(10)), "A");
    assert_eq!(text_of(&encode_id(35)), "Z");
    assert_eq!(text_of(&encode_id(36)), "a");
    assert_eq!(text_of(&encode_id(61)), "z");
    assert_eq!(text_of(&encode_id(62)), "-");
    assert_eq!(text_of(&encode_id(63)), "_");
    assert_eq!(text_of(&encode_id(64)), "10");
    // 1000 = 15 * 64 + 40
    assert_eq!(text_of(&encode_id(1000)), "Fe");
    assert_eq!(text_of(&encode_id(i32::MAX)), "1_____");
}

#[test]
fn url_names_each_copy() {
    let ctx = Context::from_debug(cards());
    let mut d = DeckBTree::new();
    d.add(0);
    d.add(0);
    d.add(3);
    // the unlimited format is 1; among the cards of one cost the neutral
    // ones come first, so the positions 0 and 3 hold the cards 1001 and
    // 1007: 15 * 64 + 41 and 15 * 64 + 47
    assert_eq!(ctx.cards_vec.0[0], 1001);
    assert_eq!(ctx.cards_vec.0[3], 1007);
    assert_eq!(d.url(&ctx), "https://shadowverse-portal.com/deck/1.1.Ff.Ff.Fl.");
    assert_eq!(DeckBTree::new().url(&ctx), "https://shadowverse-portal.com/deck/1.1.");
    let mut rotation = Context::from_debug(cards());
    rotation.game_mode = 0;
    rotation.craft = 7;
    assert_eq!(d.url(&rotation), "https://shadowverse-portal.com/deck/3.7.Ff.Ff.Fl.");
}

#[test]
fn as_string_lists_the_cards_under_the_curve() {
    let ctx = Context::from_debug(cards());
    let mut d = DeckBTree::new();
    d.add(0);
    d.add(14);
    d.add(14);
    d.add(153);
    let expected = [
        "",
        " 3  #              ",
        " 2  #              ",
        " 1  #             #",
        "  0/1 2 3 4 5 6 7 8+",
        "[0  ] 1x Card 1001",
        "[14 ] 2x Card 1015",
        "[153] 1x Card 1152",
        "",
    ]
    .join("\n");
    assert_eq!(d.as_string(&ctx), expected);
}
