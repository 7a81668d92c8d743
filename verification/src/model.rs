//! The Aurora model: cards and the directed links between them.
use vstd::prelude::*;

verus! {

/// A directed, named edge from its card to `target`.
#[derive(Debug, Clone, PartialEq, Eq)]
pub struct Link {
    pub target: String,
    pub relationship: String,
}

/// A node of the model graph.
#[derive(Debug, Clone, PartialEq, Eq)]
pub struct Card {
    pub id: String,
    pub card_type: String,
    pub card_subtype: Option<String>,
    pub name: String,
    pub description: String,
    pub status: Option<String>,
    pub boundary: Option<String>,
    pub notes: Option<String>,
    pub icon: Option<String>,
    pub links: Vec<Link>,
}

/// A model: its root (mission) card and the other cards.
#[derive(Debug, Clone, PartialEq, Eq)]
pub struct Model {
    pub root_card: Card,
    pub cards: Vec<Card>,
}

impl Model {
    /// All cards, the root first.
    pub open spec fn all_cards(&self) -> Seq<Card> {
        seq![self.root_card].add(self.cards@)
    }
}

} // verus!
