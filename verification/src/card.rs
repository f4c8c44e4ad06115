//! One card of the catalog.
use vstd::prelude::*;

verus! {

/// A card record, as the catalog holds it.
#[derive(Debug)]
pub struct CardInfo {
    pub craft_: String,
    pub id_: i32,
    pub pp_: u8,
    pub trait_: String,
    pub type_: String,
    pub rotation_: bool,
    pub name_: String,
    pub tags_: Vec<String>,
}

} // verus!
