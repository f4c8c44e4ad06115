//! The catalog that decks index into, and what the user asked for.
use crate::card::CardInfo;
use crate::catalog::{card_rank, lemma_card_rank_chain, lemma_card_rank_swap, rank_cards};
use crate::text::{chars_of, digits_of, has_tag, holds_tag, push_decimal, push_text, text_of};
use fnv::FnvHashMap;
use std::collections::hash_map::Keys;
use vstd::std_specs::iter::IteratorSpec;
use vstd::prelude::*;

verus! {

#[verifier::external_type_specification]
#[verifier::external_body]
pub struct ExFnvHasher(fnv::FnvHasher);

#[verifier::external_type_specification]
#[verifier::external_body]
#[verifier::reject_recursive_types(H)]
pub struct ExBuildHasherDefault<H>(core::hash::BuildHasherDefault<H>);

/// Why a catalog or a population could not be set up.
#[derive(Debug, Clone, Copy, PartialEq, Eq, Structural)]
pub enum SetupError {
    /// The craft's number is not one of the eight.
    UnknownCraft,
    /// An id of the catalog order has no record.
    MalformedCatalog,
    /// The catalog cannot fill a deck, even at the most copies of each card.
    PoolTooSmall,
    /// A population needs one deck at least.
    EmptyPopulation,
}

/// Card id to card record.
pub struct CardsMap(pub FnvHashMap<i32, CardInfo>);

/// Card ids in catalog order: a deck's index is a position in this vector.
pub struct CardsVec(pub Vec<i32>);

/// The catalog and the user's choices.
pub struct Context {
    pub cards_map: CardsMap,
    pub cards_vec: CardsVec,
    pub game_mode: usize,
    pub craft: usize,
    pub tags: Vec<String>,
}

/// `FnvHashMap::default`: a map that holds nothing.
#[verifier::external_body]
fn cards_new() -> (made: FnvHashMap<i32, CardInfo>)
    ensures
        forall|id: i32| !made@.contains_key(id),
{
    FnvHashMap::default()
}

/// `HashMap::insert` on the FNV-hashed map: `card` stands under `id`
/// afterwards, in place of what stood there, and no other entry moves.
#[verifier::external_body]
fn cards_insert(m: &mut FnvHashMap<i32, CardInfo>, id: i32, card: CardInfo)
    ensures
        final(m)@ == old(m)@.insert(id, card),
{
    m.insert(id, card);
}

/// `HashMap::keys` on the FNV-hashed map: an iterator that hands out every
/// key once, in no order that is told, and then ends.
#[verifier::external_body]
fn cards_keys<'a>(m: &'a FnvHashMap<i32, CardInfo>) -> (keys: Keys<'a, i32, CardInfo>)
    ensures
        keys.remaining().no_duplicates(),
        keys.remaining().unref().to_set() == m@.dom(),
        IteratorSpec::decrease(&keys) is Some,
        IteratorSpec::initial_value_relation(&keys, &keys),
{
    m.keys()
}

/// The ids of the catalog, each once, in no order that is told.
fn cards_ids(m: &FnvHashMap<i32, CardInfo>) -> (ids: Vec<i32>)
    ensures
        ids@.no_duplicates(),
        forall|id: i32| ids@.contains(id) <==> m@.contains_key(id),
{
    let mut ids: Vec<i32> = Vec::new();
    let keys = cards_keys(m);
    let ghost whole = keys.remaining();
    for id in it: keys
        invariant
            it.seq() == whole,
            ids@.len() == it.index(),
            forall|i: int| 0 <= i < ids@.len() ==> ids@[i] == *whole[i],
    {
        ids.push(*id);
    }
    proof {
        assert(ids@ =~= whole.unref());
        assert forall|id: i32| ids@.contains(id) <==> m@.contains_key(id) by {
            assert(whole.unref().to_set().contains(id) <==> m@.dom().contains(id));
        }
        assert forall|i: int, j: int| 0 <= i < ids@.len() && 0 <= j < ids@.len() && i != j implies ids@[i]
            != ids@[j] by {
            assert(whole[i] != whole[j]);
        }
    }
    ids
}

/// `HashMap::get` on the FNV-hashed map: the record stored under `id`, if
/// the map holds that key.
#[verifier::external_body]
fn lookup<'a>(m: &'a FnvHashMap<i32, CardInfo>, id: i32) -> (r: Option<&'a CardInfo>)
    ensures
        match r {
            Some(card) => m@.contains_key(id) && *card == m@[id],
            None => !m@.contains_key(id),
        },
{
    m.get(&id)
}

/// The name of craft `craft_n`.
pub open spec fn craft_name(craft_n: int) -> Seq<char> {
    if craft_n == 0 {
        "Forestcraft"@
    } else if craft_n == 1 {
        "Swordcraft"@
    } else if craft_n == 2 {
        "Runecraft"@
    } else if craft_n == 3 {
        "Dragoncraft"@
    } else if craft_n == 4 {
        "Shadowcraft"@
    } else if craft_n == 5 {
        "Bloodcraft"@
    } else if craft_n == 6 {
        "Havencraft"@
    } else {
        "Portalcraft"@
    }
}

/// Whether a deck of craft `craft_n` may hold `card` in format `game_mode`:
/// the card is of that craft or neutral, and in rotation unless the format
/// is the unlimited one, which is format 1.
pub open spec fn playable(card: CardInfo, game_mode: int, craft_n: int) -> bool {
    (card.craft_@ == craft_name(craft_n) || card.craft_@ == "Neutral"@) && (game_mode == 1
        || card.rotation_)
}

/// The records that a catalog keeps of `cards` from entry `from` on: those
/// that are playable, under their ids. Of two entries with one id the
/// earlier stands.
pub open spec fn kept_from(cards: Seq<(i32, CardInfo)>, game_mode: int, craft_n: int, from: int)
    -> Map<i32, CardInfo>
    decreases cards.len() - from,
{
    if from >= cards.len() {
        Map::empty()
    } else if playable(cards[from].1, game_mode, craft_n) {
        kept_from(cards, game_mode, craft_n, from + 1).insert(cards[from].0, cards[from].1)
    } else {
        kept_from(cards, game_mode, craft_n, from + 1)
    }
}

/// Whether `ids` holds every key of `m` once, laid out so that no card
/// ranks after a later one.
pub open spec fn is_catalog_order(ids: Seq<i32>, m: Map<i32, CardInfo>) -> bool {
    &&& ids.no_duplicates()
    &&& forall|id: i32| ids.contains(id) <==> m.contains_key(id)
    &&& forall|i: int, j: int|
        0 <= i < j < ids.len() ==> card_rank(m[#[trigger] ids[i]], m[#[trigger] ids[j]]) <= 0
}

/// The name of craft `craft_n`.
pub fn craft(craft_n: usize) -> (name: &'static str)
    requires
        craft_n < 8,
    ensures
        name@ == craft_name(craft_n as int),
{
    if craft_n == 0 {
        "Forestcraft"
    } else if craft_n == 1 {
        "Swordcraft"
    } else if craft_n == 2 {
        "Runecraft"
    } else if craft_n == 3 {
        "Dragoncraft"
    } else if craft_n == 4 {
        "Shadowcraft"
    } else if craft_n == 5 {
        "Bloodcraft"
    } else if craft_n == 6 {
        "Havencraft"
    } else {
        "Portalcraft"
    }
}

/// Whether two texts are the same.
pub fn same_text(a: &str, b: &str) -> (same: bool)
    ensures
        same == (a@ == b@),
{
    let x = chars_of(a);
    let y = chars_of(b);
    if x.len() != y.len() {
        return false;
    }
    let mut i: usize = 0;
    while i < x.len()
        invariant
            i <= x@.len() == y@.len(),
            x@ == a@,
            y@ == b@,
            forall|k: int| 0 <= k < i ==> x@[k] == y@[k],
        decreases x.len() - i,
    {
        if x[i] != y[i] {
            return false;
        }
        i = i + 1;
    }
    assert(x@ =~= y@);
    true
}

/// Whether a deck of craft `craft_n` may hold `card` in format `game_mode`.
pub fn is_playable(card: &CardInfo, game_mode: usize, craft_n: usize) -> (ok: bool)
    requires
        craft_n < 8,
    ensures
        ok == playable(*card, game_mode as int, craft_n as int),
{
    (same_text(card.craft_.as_str(), craft(craft_n)) || same_text(card.craft_.as_str(), "Neutral"))
        && (game_mode == 1 || card.rotation_)
}

impl CardsMap {
    /// The catalog of craft `craft_n` in format `game_mode`: the playable
    /// records of `cards`, each under its id. A craft number that is not one
    /// of the eight is refused.
    pub fn from_input(cards: Vec<(i32, CardInfo)>, game_mode: usize, craft_n: usize) -> (made:
        Result<CardsMap, SetupError>)
        ensures
            match made {
                Ok(m) => craft_n < 8 && m.0@ == kept_from(
                    cards@,
                    game_mode as int,
                    craft_n as int,
                    0,
                ),
                Err(e) => e == SetupError::UnknownCraft && craft_n >= 8,
            },
    {
        if craft_n >= 8 {
            return Err(SetupError::UnknownCraft);
        }
        let mut rest = cards;
        let mut kept = cards_new();
        assert(kept@ =~= Map::<i32, CardInfo>::empty());
        while rest.len() > 0
            invariant
                craft_n < 8,
                rest@.len() <= cards@.len(),
                rest@ == cards@.subrange(0, rest@.len() as int),
                kept@ == kept_from(cards@, game_mode as int, craft_n as int, rest@.len() as int),
            decreases rest.len(),
        {
            let (id, card) = rest.pop().unwrap();
            if is_playable(&card, game_mode, craft_n) {
                cards_insert(&mut kept, id, card);
            }
        }
        Ok(CardsMap(kept))
    }
}

/// What a sequence holds after an insertion: what it held, and the new
/// element. No element comes to stand twice where the new one is new.
pub proof fn lemma_insert_elements(s: Seq<i32>, pos: int, x: i32)
    requires
        0 <= pos <= s.len(),
    ensures
        forall|y: i32| s.insert(pos, x).contains(y) <==> s.contains(y) || y == x,
        s.no_duplicates() && !s.contains(x) ==> s.insert(pos, x).no_duplicates(),
{
    let t = s.insert(pos, x);
    assert forall|y: i32| t.contains(y) <==> s.contains(y) || y == x by {
        if t.contains(y) {
            let i = choose|i: int| 0 <= i < t.len() && t[i] == y;
            if i < pos {
                assert(s[i] == y);
            } else if i > pos {
                assert(s[i - 1] == y);
            }
        }
        if s.contains(y) {
            let i = choose|i: int| 0 <= i < s.len() && s[i] == y;
            if i < pos {
                assert(t[i] == y);
            } else {
                assert(t[i + 1] == y);
            }
        }
        if y == x {
            assert(t[pos] == y);
        }
    }
    if s.no_duplicates() && !s.contains(x) {
        assert forall|i: int, j: int| 0 <= i < t.len() && 0 <= j < t.len() && i != j implies t[i]
            != t[j] by {
            let oi = if i < pos { i } else { i - 1 };
            let oj = if j < pos { j } else { j - 1 };
            if i == pos {
                assert(s.contains(s[oj]));
            } else if j == pos {
                assert(s.contains(s[oi]));
            }
        }
    }
}

/// Whether no card of `ids` ranks after its successor.
pub open spec fn is_ranked(ids: Seq<i32>, m: Map<i32, CardInfo>) -> bool {
    forall|i: int| 0 <= i < ids.len() - 1 ==> card_rank(m[#[trigger] ids[i]], m[ids[i + 1]]) <= 0
}

/// Where no card ranks after its successor, none ranks after any later
/// card.
pub proof fn lemma_ranked_is_sorted(ids: Seq<i32>, m: Map<i32, CardInfo>, i: int, j: int)
    requires
        is_ranked(ids, m),
        0 <= i < j < ids.len(),
    ensures
        card_rank(m[ids[i]], m[ids[j]]) <= 0,
    decreases j - i,
{
    if i + 1 < j {
        lemma_ranked_is_sorted(ids, m, i, j - 1);
        assert(card_rank(m[ids[j - 1]], m[ids[j - 1 + 1]]) <= 0);
        lemma_card_rank_chain(m[ids[i]], m[ids[j - 1]], m[ids[j]]);
    }
}

/// Puts `id` into `sorted` at its place by rank: after the last card that
/// does not rank after it.
fn insert_ranked(sorted: &mut Vec<i32>, id: i32, data: &CardsMap) -> (pos: Ghost<int>)
    requires
        data.0@.contains_key(id),
        forall|i: int| 0 <= i < old(sorted)@.len() ==> data.0@.contains_key(#[trigger] old(sorted)@[i]),
        is_ranked(old(sorted)@, data.0@),
    ensures
        0 <= pos@ <= old(sorted)@.len(),
        final(sorted)@ == old(sorted)@.insert(pos@, id),
        is_ranked(final(sorted)@, data.0@),
{
    let card = lookup(&data.0, id).unwrap();
    let mut pos: usize = sorted.len();
    while pos > 0 && rank_cards(card, lookup(&data.0, sorted[pos - 1]).unwrap()) < 0
        invariant
            pos <= sorted@.len(),
            *card == data.0@[id],
            sorted@ == old(sorted)@,
            forall|i: int| 0 <= i < sorted@.len() ==> data.0@.contains_key(#[trigger] sorted@[i]),
            pos < sorted@.len() ==> card_rank(*card, data.0@[sorted@[pos as int]]) < 0,
        decreases pos,
    {
        pos = pos - 1;
    }
    let ghost before = sorted@;
    sorted.insert(pos, id);
    proof {
        if pos > 0 {
            lemma_card_rank_swap(*card, data.0@[before[pos - 1]]);
        }
        assert forall|i: int| 0 <= i < sorted@.len() - 1 implies card_rank(
            data.0@[#[trigger] sorted@[i]],
            data.0@[sorted@[i + 1]],
        ) <= 0 by {
            if i + 1 < pos {
                assert(sorted@[i] == before[i] && sorted@[i + 1] == before[i + 1]);
            } else if i + 1 == pos {
                assert(sorted@[i] == before[i]);
            } else if i == pos {
                assert(sorted@[i + 1] == before[i]);
            } else {
                assert(sorted@[i] == before[i - 1] && sorted@[i + 1] == before[i]);
            }
        }
    }
    Ghost(pos as int)
}

impl CardsVec {
    /// The catalog order of `data`: every id once, cards laid out by cost,
    /// then tags, type, craft, trait and id.
    pub fn from_dict(data: &CardsMap) -> (order: CardsVec)
        ensures
            is_catalog_order(order.0@, data.0@),
    {
        let ids = cards_ids(&data.0);
        let mut sorted: Vec<i32> = Vec::new();
        let mut k: usize = 0;
        while k < ids.len()
            invariant
                k <= ids@.len(),
                ids@.no_duplicates(),
                forall|id: i32| ids@.contains(id) <==> data.0@.contains_key(id),
                sorted@.len() == k,
                sorted@.no_duplicates(),
                forall|id: i32|
                    sorted@.contains(id) <==> exists|j: int| 0 <= j < k && #[trigger] ids@[j] == id,
                is_ranked(sorted@, data.0@),
            decreases ids.len() - k,
        {
            let id = ids[k];
            let ghost before = sorted@;
            proof {
                assert(ids@.contains(id));
                assert forall|i: int| 0 <= i < before.len() implies data.0@.contains_key(
                    #[trigger] before[i],
                ) by {
                    assert(before.contains(before[i]));
                    let j = choose|j: int| 0 <= j < k && ids@[j] == before[i];
                    assert(ids@.contains(ids@[j]));
                }
                if before.contains(id) {
                    let j = choose|j: int| 0 <= j < k && ids@[j] == id;
                    assert(ids@[j] == ids@[k as int]);
                }
            }
            let pos = insert_ranked(&mut sorted, id, data);
            proof {
                lemma_insert_elements(before, pos@, id);
                assert forall|x: i32| sorted@.contains(x) <==> exists|j: int|
                    0 <= j < k + 1 && #[trigger] ids@[j] == x by {
                    if sorted@.contains(x) {
                        if x == id {
                            assert(ids@[k as int] == x);
                        } else {
                            assert(before.contains(x));
                            let j = choose|j: int| 0 <= j < k && ids@[j] == x;
                            assert(ids@[j] == x);
                        }
                    }
                    if exists|j: int| 0 <= j < k + 1 && #[trigger] ids@[j] == x {
                        let j = choose|j: int| 0 <= j < k + 1 && #[trigger] ids@[j] == x;
                        if j < k {
                            assert(before.contains(x));
                        }
                    }
                }
            }
            k = k + 1;
        }
        proof {
            assert forall|id: i32| sorted@.contains(id) <==> data.0@.contains_key(id) by {
                if data.0@.contains_key(id) {
                    assert(ids@.contains(id));
                    let j = choose|j: int| 0 <= j < ids@.len() && ids@[j] == id;
                }
                if sorted@.contains(id) {
                    let j = choose|j: int| 0 <= j < k && ids@[j] == id;
                    assert(ids@.contains(ids@[j]));
                }
            }
            assert forall|i: int, j: int| 0 <= i < j < sorted@.len() implies card_rank(
                data.0@[#[trigger] sorted@[i]],
                data.0@[#[trigger] sorted@[j]],
            ) <= 0 by {
                lemma_ranked_is_sorted(sorted@, data.0@, i, j);
            }
        }
        CardsVec(sorted)
    }
}

/// Whether `tag` is a tag of one of the cards `ids` of `m`; the neutral
/// cards count only with `with_neutral`.
pub open spec fn is_tag_of(m: Map<i32, CardInfo>, ids: Seq<i32>, with_neutral: bool, tag: String)
    -> bool {
    exists|i: int, j: int|
        0 <= i < ids.len() && 0 <= j < m[ids[i]].tags_@.len() && (with_neutral
            || m[ids[i]].craft_@ != "Neutral"@) && (#[trigger] m[ids[i]].tags_@[j])@ == tag@
}

/// Whether `tags` holds the tags of the cards `ids` of `m`, each once.
pub open spec fn is_tag_list(
    tags: Seq<String>,
    m: Map<i32, CardInfo>,
    ids: Seq<i32>,
    with_neutral: bool,
) -> bool {
    &&& forall|k: int| 0 <= k < tags.len() ==> is_tag_of(m, ids, with_neutral, #[trigger] tags[k])
    &&& forall|i: int, j: int|
        0 <= i < ids.len() && 0 <= j < m[ids[i]].tags_@.len() && (with_neutral
            || m[ids[i]].craft_@ != "Neutral"@) ==> holds_tag(tags, #[trigger] m[ids[i]].tags_@[j])
    &&& forall|a: int, b: int| 0 <= a < b < tags.len() ==> (#[trigger] tags[a])@ != (#[trigger] tags[b])@
}

/// The tags of the cards of the catalog, each once; the neutral cards count
/// only with `with_neutral`.
pub fn collect_tags(cm: &CardsMap, order: &CardsVec, with_neutral: bool) -> (tags: Vec<String>)
    requires
        forall|i: int| 0 <= i < order.0@.len() ==> cm.0@.contains_key(#[trigger] order.0@[i]),
    ensures
        is_tag_list(tags@, cm.0@, order.0@, with_neutral),
{
    let mut tags: Vec<String> = Vec::new();
    let mut i: usize = 0;
    while i < order.0.len()
        invariant
            i <= order.0@.len(),
            forall|k: int| 0 <= k < order.0@.len() ==> cm.0@.contains_key(#[trigger] order.0@[k]),
            forall|k: int|
                0 <= k < tags@.len() ==> is_tag_of(cm.0@, order.0@, with_neutral, #[trigger] tags@[k]),
            forall|a: int, b: int|
                0 <= a < i && 0 <= b < cm.0@[order.0@[a]].tags_@.len() && (with_neutral
                    || cm.0@[order.0@[a]].craft_@ != "Neutral"@) ==> holds_tag(
                    tags@,
                    #[trigger] cm.0@[order.0@[a]].tags_@[b],
                ),
            forall|a: int, b: int|
                0 <= a < b < tags@.len() ==> (#[trigger] tags@[a])@ != (#[trigger] tags@[b])@,
        decreases order.0.len() - i,
    {
        let card = lookup(&cm.0, order.0[i]).unwrap();
        if with_neutral || !same_text(card.craft_.as_str(), "Neutral") {
            let mut j: usize = 0;
            while j < card.tags_.len()
                invariant
                    i < order.0@.len(),
                    j <= card.tags_@.len(),
                    *card == cm.0@[order.0@[i as int]],
                    with_neutral || card.craft_@ != "Neutral"@,
                    forall|k: int|
                        0 <= k < tags@.len() ==> is_tag_of(
                            cm.0@,
                            order.0@,
                            with_neutral,
                            #[trigger] tags@[k],
                        ),
                    forall|a: int, b: int|
                        0 <= a < i && 0 <= b < cm.0@[order.0@[a]].tags_@.len() && (with_neutral
                            || cm.0@[order.0@[a]].craft_@ != "Neutral"@) ==> holds_tag(
                            tags@,
                            #[trigger] cm.0@[order.0@[a]].tags_@[b],
                        ),
                    forall|b: int| 0 <= b < j ==> holds_tag(tags@, #[trigger] card.tags_@[b]),
                    forall|a: int, b: int|
                        0 <= a < b < tags@.len() ==> (#[trigger] tags@[a])@ != (#[trigger] tags@[b])@,
                decreases card.tags_.len() - j,
            {
                if !has_tag(&tags, &card.tags_[j]) {
                    let ghost before = tags@;
                    let tag = card.tags_[j].clone();
                    tags.push(tag);
                    proof {
                        assert(is_tag_of(cm.0@, order.0@, with_neutral, tag)) by {
                            assert((cm.0@[order.0@[i as int]].tags_@[j as int])@ == tag@);
                        }
                        lemma_holds_after_push(before, tag);
                        assert(tags@[before.len() as int]@ == tag@);
                    }
                }
                j = j + 1;
            }
        }
        i = i + 1;
    }
    tags
}

/// A list that grows by a tag holds what it held, and that tag.
pub proof fn lemma_holds_after_push(tags: Seq<String>, tag: String)
    ensures
        holds_tag(tags.push(tag), tag),
        forall|other: String| holds_tag(tags, other) ==> holds_tag(tags.push(tag), other),
{
    assert(tags.push(tag)[tags.len() as int]@ == tag@);
    assert forall|other: String| holds_tag(tags, other) implies holds_tag(tags.push(tag), other) by {
        let j = choose|j: int| 0 <= j < tags.len() && (#[trigger] tags[j])@ == other@;
        assert(tags.push(tag)[j]@ == other@);
    }
}

/// The archetype tags that the user may choose from: the tags of the
/// catalog's cards that are not neutral.
pub fn get_archetype_tags(cm: &CardsMap, order: &CardsVec) -> (tags: Vec<String>)
    requires
        forall|i: int| 0 <= i < order.0@.len() ==> cm.0@.contains_key(#[trigger] order.0@[i]),
    ensures
        is_tag_list(tags@, cm.0@, order.0@, false),
{
    collect_tags(cm, order, false)
}

/// The lines of the first `n` options of the tag prompt: each tag after its
/// number, counted from 1.
pub open spec fn options_of(tags: Seq<String>, n: int) -> Seq<char>
    decreases n,
{
    if n <= 0 {
        Seq::empty()
    } else {
        options_of(tags, n - 1) + digits_of(n) + " - "@ + tags[n - 1]@ + seq!['\n']
    }
}

/// The prompt that offers `tags` for choice.
pub open spec fn prompt_of(tags: Seq<String>) -> Seq<char> {
    "0 - done choosing\n"@ + options_of(tags, tags.len() as int)
        + "What archetypes would you like to build? (options above) "@
}

/// The prompt that offers the archetype tags for choice, each under its
/// number; 0 ends the choice.
pub fn build_archetype_tags_prompt(avl_tags: &Vec<String>) -> (prompt: String)
    ensures
        prompt@ == prompt_of(avl_tags@),
{
    let mut out: Vec<char> = Vec::new();
    push_text(&mut out, "0 - done choosing\n");
    let ghost start = out@;
    let mut i: usize = 0;
    while i < avl_tags.len()
        invariant
            i <= avl_tags@.len(),
            out@ == start + options_of(avl_tags@, i as int),
        decreases avl_tags.len() - i,
    {
        push_decimal(&mut out, i + 1);
        push_text(&mut out, " - ");
        push_text(&mut out, avl_tags[i].as_str());
        out.push('\n');
        assert(out@ =~= start + options_of(avl_tags@, i as int + 1));
        i = i + 1;
    }
    push_text(&mut out, "What archetypes would you like to build? (options above) ");
    assert(out@ =~= prompt_of(avl_tags@));
    text_of(&out)
}

/// The place of the first tag of `tags` that reads as `tag`, or the length
/// of `tags` where there is none.
pub open spec fn place_of(tags: Seq<String>, tag: String, from: int) -> int
    decreases tags.len() - from,
{
    if from >= tags.len() {
        tags.len() as int
    } else if tags[from]@ == tag@ {
        from
    } else {
        place_of(tags, tag, from + 1)
    }
}

/// The selection after the user has answered `n` to the tag prompt: 0 and
/// numbers beyond the offer leave it as it is; the number of a tag takes
/// that tag out where the selection holds it, and puts it in where not.
pub open spec fn toggled(selected: Seq<String>, available: Seq<String>, n: int) -> Seq<String> {
    if n <= 0 || n > available.len() {
        selected
    } else if place_of(selected, available[n - 1], 0) < selected.len() {
        selected.remove(place_of(selected, available[n - 1], 0))
    } else {
        selected.push(available[n - 1])
    }
}

/// Takes the user's answer `n` to the tag prompt, and says whether the
/// choice is done: it is with the answer 0.
pub fn toggle_tag(selected: &mut Vec<String>, available: &Vec<String>, n: usize) -> (done: bool)
    ensures
        done == (n == 0),
        final(selected)@ == toggled(old(selected)@, available@, n as int),
{
    if n == 0 {
        return true;
    }
    if n - 1 < available.len() {
        let tag = &available[n - 1];
        let mut at: usize = 0;
        while at < selected.len() && selected[at] != *tag
            invariant
                at <= selected@.len(),
                selected@ == old(selected)@,
                place_of(selected@, *tag, at as int) == place_of(selected@, *tag, 0),
            decreases selected.len() - at,
        {
            at = at + 1;
        }
        if at < selected.len() {
            selected.remove(at);
        } else {
            selected.push(tag.clone());
        }
    }
    false
}

impl Context {
    /// Number of cards in the catalog.
    pub open spec fn pool_size(&self) -> int {
        self.cards_vec.0@.len() as int
    }

    /// Every id in the catalog order has its record.
    pub open spec fn wf(&self) -> bool {
        forall|i: int| 0 <= i < self.cards_vec.0@.len() ==> self.cards_map.0@.contains_key(
            #[trigger] self.cards_vec.0@[i],
        )
    }

    /// The record of the card at catalog position `idx`.
    pub open spec fn card(&self, idx: int) -> CardInfo {
        self.cards_map.0@[self.cards_vec.0@[idx]]
    }

    /// The context of a run over the catalog `cards_map`, laid out in catalog
    /// order, with the user's choice of format, craft and tags.
    pub fn new(cards_map: CardsMap, game_mode: usize, craft: usize, tags: Vec<String>) -> (ctx:
        Context)
        ensures
            ctx.wf(),
            ctx.cards_map == cards_map,
            is_catalog_order(ctx.cards_vec.0@, cards_map.0@),
            ctx.game_mode == game_mode,
            ctx.craft == craft,
            ctx.tags == tags,
    {
        let cards_vec = CardsVec::from_dict(&cards_map);
        proof {
            assert forall|i: int| 0 <= i < cards_vec.0@.len() implies cards_map.0@.contains_key(
                #[trigger] cards_vec.0@[i],
            ) by {
                assert(cards_vec.0@.contains(cards_vec.0@[i]));
            }
        }
        Context { cards_map, cards_vec, game_mode, craft, tags }
    }

    /// A context for trials: the unlimited format, craft 1, and every tag
    /// of the catalog requested.
    pub fn from_debug(cards: Vec<(i32, CardInfo)>) -> (ctx: Context)
        ensures
            ctx.wf(),
            ctx.game_mode == 1,
            ctx.craft == 1,
            ctx.cards_map.0@ == kept_from(cards@, 1, 1, 0),
            is_catalog_order(ctx.cards_vec.0@, ctx.cards_map.0@),
            is_tag_list(ctx.tags@, ctx.cards_map.0@, ctx.cards_vec.0@, true),
    {
        let game_mode: usize = 1;
        let craft: usize = 1;
        let cards_map = CardsMap::from_input(cards, game_mode, craft).unwrap();
        let cards_vec = CardsVec::from_dict(&cards_map);
        proof {
            assert forall|i: int| 0 <= i < cards_vec.0@.len() implies cards_map.0@.contains_key(
                #[trigger] cards_vec.0@[i],
            ) by {
                assert(cards_vec.0@.contains(cards_vec.0@[i]));
            }
        }
        let tags = collect_tags(&cards_map, &cards_vec, true);
        Context { cards_map, cards_vec, game_mode, craft, tags }
    }

    /// Whether every id in the catalog order has its record.
    pub fn is_consistent(&self) -> (ok: bool)
        ensures
            ok == self.wf(),
    {
        let mut i: usize = 0;
        while i < self.cards_vec.0.len()
            invariant
                i <= self.cards_vec.0@.len(),
                forall|k: int| 0 <= k < i ==> self.cards_map.0@.contains_key(
                    #[trigger] self.cards_vec.0@[k],
                ),
            decreases self.cards_vec.0.len() - i,
        {
            if lookup(&self.cards_map.0, self.cards_vec.0[i]).is_none() {
                return false;
            }
            i = i + 1;
        }
        true
    }

    /// The record of the card at catalog position `idx`.
    pub fn idx_to_card(&self, idx: usize) -> (card: &CardInfo)
        requires
            self.wf(),
            idx < self.pool_size(),
        ensures
            *card == self.card(idx as int),
    {
        lookup(&self.cards_map.0, self.cards_vec.0[idx]).unwrap()
    }
}

} // verus!
