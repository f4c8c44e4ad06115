//! The order of the catalog: cards are laid out by cost, then tags, type,
//! craft, trait and id, so that neighbours are alike.
use crate::card::CardInfo;
use crate::text::chars_of;
use vstd::prelude::*;

verus! {

/// How text `a` stands to text `b` from character `i` on, both alike
/// before it: -1 where `a` comes first, 1 where `b` does, 0 where they are
/// the same. The first character that differs decides, by its code; a text
/// comes before its extensions.
pub open spec fn text_rank_from(a: Seq<char>, b: Seq<char>, i: int) -> int
    decreases a.len() - i,
{
    if i >= a.len() {
        if i >= b.len() {
            0
        } else {
            -1
        }
    } else if i >= b.len() {
        1
    } else if (a[i] as u32) < (b[i] as u32) {
        -1
    } else if (a[i] as u32) > (b[i] as u32) {
        1
    } else {
        text_rank_from(a, b, i + 1)
    }
}

/// How text `a` stands to text `b`.
pub open spec fn text_rank(a: Seq<char>, b: Seq<char>) -> int {
    text_rank_from(a, b, 0)
}

/// How the tag list `a` stands to the tag list `b` from tag `i` on, both
/// alike before it: the first tag that differs decides, and a list comes
/// before its extensions.
pub open spec fn tags_rank_from(a: Seq<String>, b: Seq<String>, i: int) -> int
    decreases a.len() - i,
{
    if i >= a.len() {
        if i >= b.len() {
            0
        } else {
            -1
        }
    } else if i >= b.len() {
        1
    } else if text_rank(a[i]@, b[i]@) != 0 {
        text_rank(a[i]@, b[i]@)
    } else {
        tags_rank_from(a, b, i + 1)
    }
}

/// How card `a` stands to card `b` in the catalog: by cost, then tags,
/// type, craft, trait and id.
pub open spec fn card_rank(a: CardInfo, b: CardInfo) -> int {
    if a.pp_ < b.pp_ {
        -1
    } else if a.pp_ > b.pp_ {
        1
    } else if tags_rank_from(a.tags_@, b.tags_@, 0) != 0 {
        tags_rank_from(a.tags_@, b.tags_@, 0)
    } else if text_rank(a.type_@, b.type_@) != 0 {
        text_rank(a.type_@, b.type_@)
    } else if text_rank(a.craft_@, b.craft_@) != 0 {
        text_rank(a.craft_@, b.craft_@)
    } else if text_rank(a.trait_@, b.trait_@) != 0 {
        text_rank(a.trait_@, b.trait_@)
    } else if a.id_ < b.id_ {
        -1
    } else if a.id_ > b.id_ {
        1
    } else {
        0
    }
}

/// Swapping two texts turns their rank round.
pub proof fn lemma_text_rank_swap(a: Seq<char>, b: Seq<char>, i: int)
    requires
        0 <= i,
    ensures
        text_rank_from(a, b, i) == -text_rank_from(b, a, i),
        -1 <= text_rank_from(a, b, i) <= 1,
    decreases a.len() - i,
{
    if i < a.len() && i < b.len() && a[i] as u32 == b[i] as u32 {
        lemma_text_rank_swap(a, b, i + 1);
    }
}

/// Swapping two tag lists turns their rank round.
pub proof fn lemma_tags_rank_swap(a: Seq<String>, b: Seq<String>, i: int)
    requires
        0 <= i,
    ensures
        tags_rank_from(a, b, i) == -tags_rank_from(b, a, i),
        -1 <= tags_rank_from(a, b, i) <= 1,
    decreases a.len() - i,
{
    if i < a.len() && i < b.len() {
        lemma_text_rank_swap(a[i]@, b[i]@, 0);
        if text_rank(a[i]@, b[i]@) == 0 {
            lemma_tags_rank_swap(a, b, i + 1);
        }
    }
}

/// Swapping two cards turns their rank round.
pub proof fn lemma_card_rank_swap(a: CardInfo, b: CardInfo)
    ensures
        card_rank(a, b) == -card_rank(b, a),
{
    lemma_tags_rank_swap(a.tags_@, b.tags_@, 0);
    lemma_text_rank_swap(a.type_@, b.type_@, 0);
    lemma_text_rank_swap(a.craft_@, b.craft_@, 0);
    lemma_text_rank_swap(a.trait_@, b.trait_@, 0);
}

/// Text ranks chain: a text that is the same as another stands to every
/// third as that one does, and what comes before an earlier text comes
/// before a later one.
pub proof fn lemma_text_rank_chain(a: Seq<char>, b: Seq<char>, c: Seq<char>, i: int)
    requires
        0 <= i,
    ensures
        text_rank_from(a, b, i) == 0 ==> text_rank_from(a, c, i) == text_rank_from(b, c, i),
        text_rank_from(b, c, i) == 0 ==> text_rank_from(a, c, i) == text_rank_from(a, b, i),
        text_rank_from(a, b, i) < 0 && text_rank_from(b, c, i) < 0 ==> text_rank_from(a, c, i) < 0,
    decreases a.len() - i,
{
    if i < a.len() && i < b.len() && i < c.len() && a[i] as u32 == b[i] as u32 && b[i] as u32
        == c[i] as u32 {
        lemma_text_rank_chain(a, b, c, i + 1);
    }
}

/// Tag list ranks chain as text ranks do.
pub proof fn lemma_tags_rank_chain(a: Seq<String>, b: Seq<String>, c: Seq<String>, i: int)
    requires
        0 <= i,
    ensures
        tags_rank_from(a, b, i) == 0 ==> tags_rank_from(a, c, i) == tags_rank_from(b, c, i),
        tags_rank_from(b, c, i) == 0 ==> tags_rank_from(a, c, i) == tags_rank_from(a, b, i),
        tags_rank_from(a, b, i) < 0 && tags_rank_from(b, c, i) < 0 ==> tags_rank_from(a, c, i) < 0,
    decreases a.len() - i,
{
    if i < a.len() && i < b.len() && i < c.len() {
        lemma_text_rank_chain(a[i]@, b[i]@, c[i]@, 0);
        if text_rank(a[i]@, b[i]@) == 0 && text_rank(b[i]@, c[i]@) == 0 {
            lemma_tags_rank_chain(a, b, c, i + 1);
        }
    }
}

/// Card ranks chain: a card that does not rank after a second, which does
/// not rank after a third, does not rank after the third.
pub proof fn lemma_card_rank_chain(a: CardInfo, b: CardInfo, c: CardInfo)
    requires
        card_rank(a, b) <= 0,
        card_rank(b, c) <= 0,
    ensures
        card_rank(a, c) <= 0,
{
    lemma_tags_rank_chain(a.tags_@, b.tags_@, c.tags_@, 0);
    lemma_text_rank_chain(a.type_@, b.type_@, c.type_@, 0);
    lemma_text_rank_chain(a.craft_@, b.craft_@, c.craft_@, 0);
    lemma_text_rank_chain(a.trait_@, b.trait_@, c.trait_@, 0);
    lemma_tags_rank_swap(a.tags_@, b.tags_@, 0);
    lemma_tags_rank_swap(b.tags_@, c.tags_@, 0);
    lemma_tags_rank_swap(a.tags_@, c.tags_@, 0);
    lemma_text_rank_swap(a.type_@, b.type_@, 0);
    lemma_text_rank_swap(b.type_@, c.type_@, 0);
    lemma_text_rank_swap(a.type_@, c.type_@, 0);
    lemma_text_rank_swap(a.craft_@, b.craft_@, 0);
    lemma_text_rank_swap(b.craft_@, c.craft_@, 0);
    lemma_text_rank_swap(a.craft_@, c.craft_@, 0);
    lemma_text_rank_swap(a.trait_@, b.trait_@, 0);
    lemma_text_rank_swap(b.trait_@, c.trait_@, 0);
    lemma_text_rank_swap(a.trait_@, c.trait_@, 0);
}

/// How text `a` stands to text `b`.
pub fn rank_text(a: &str, b: &str) -> (rank: i8)
    ensures
        rank == text_rank(a@, b@),
{
    let x = chars_of(a);
    let y = chars_of(b);
    let mut i: usize = 0;
    while i < x.len() && i < y.len()
        invariant
            i <= x@.len(),
            i <= y@.len(),
            x@ == a@,
            y@ == b@,
            text_rank_from(a@, b@, i as int) == text_rank(a@, b@),
        decreases x.len() - i,
    {
        if (x[i] as u32) < (y[i] as u32) {
            return -1;
        }
        if (x[i] as u32) > (y[i] as u32) {
            return 1;
        }
        i = i + 1;
    }
    if i < y.len() {
        -1
    } else if i < x.len() {
        1
    } else {
        0
    }
}

/// How the tag list `a` stands to the tag list `b`.
pub fn rank_tags(a: &Vec<String>, b: &Vec<String>) -> (rank: i8)
    ensures
        rank == tags_rank_from(a@, b@, 0),
{
    let mut i: usize = 0;
    while i < a.len() && i < b.len()
        invariant
            i <= a@.len(),
            i <= b@.len(),
            tags_rank_from(a@, b@, i as int) == tags_rank_from(a@, b@, 0),
        decreases a.len() - i,
    {
        let rank = rank_text(a[i].as_str(), b[i].as_str());
        if rank != 0 {
            return rank;
        }
        i = i + 1;
    }
    if i < b.len() {
        -1
    } else if i < a.len() {
        1
    } else {
        0
    }
}

/// How card `a` stands to card `b` in the catalog.
pub fn rank_cards(a: &CardInfo, b: &CardInfo) -> (rank: i8)
    ensures
        rank == card_rank(*a, *b),
{
    if a.pp_ < b.pp_ {
        return -1;
    }
    if a.pp_ > b.pp_ {
        return 1;
    }
    let by_tags = rank_tags(&a.tags_, &b.tags_);
    if by_tags != 0 {
        return by_tags;
    }
    let by_type = rank_text(a.type_.as_str(), b.type_.as_str());
    if by_type != 0 {
        return by_type;
    }
    let by_craft = rank_text(a.craft_.as_str(), b.craft_.as_str());
    if by_craft != 0 {
        return by_craft;
    }
    let by_trait = rank_text(a.trait_.as_str(), b.trait_.as_str());
    if by_trait != 0 {
        return by_trait;
    }
    if a.id_ < b.id_ {
        -1
    } else if a.id_ > b.id_ {
        1
    } else {
        0
    }
}

} // verus!
