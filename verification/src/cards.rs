//! The card data model: immutable records supplied whole by the host, plus
//! the typed field selectors that restrictions use to read them.

use vstd::prelude::*;

verus! {

/// A keyword attached to a card. Its identity is its `name`; `data` is
/// descriptive only and is never matched except through the name.
#[derive(Debug, PartialEq)]
pub struct Keyword {
    pub name: String,
    pub data: Option<KeywordData>,
}

/// The optional payload of a keyword: either free-form text or a partial
/// card pattern describing what the keyword implies.
#[derive(Debug, PartialEq)]
pub enum KeywordData {
    Text(String),
    CardRef(CardId),
}

/// A partial card pattern: every field of a card, each optional.
#[derive(Debug, PartialEq)]
pub struct CardId {
    pub name: Option<String>,
    pub cost: Option<usize>,
    pub description: Option<String>,
    pub keywords: Option<Vec<Keyword>>,
    pub card_type: Option<String>,
    pub kins: Option<Vec<String>>,
    pub health: Option<usize>,
    pub defense: Option<usize>,
    pub power: Option<usize>,
}

/// An immutable card record. The engine only ever borrows cards; it never
/// mutates or allocates them.
#[derive(Debug, PartialEq)]
pub struct Card {
    pub id: String,
    pub name: String,
    pub img: Vec<String>,
    pub description: String,
    pub cost: usize,
    pub health: usize,
    pub defense: usize,
    pub power: usize,
    pub card_type: String,
    pub kins: Vec<String>,
    pub keywords: Vec<Keyword>,
}

/// Mathematical model of a [`Keyword`].
pub ghost struct KeywordView {
    pub name: Seq<char>,
    pub data: Option<KeywordDataView>,
}

/// Mathematical model of a [`KeywordData`].
pub ghost enum KeywordDataView {
    Text(Seq<char>),
    CardRef(CardIdView),
}

/// Mathematical model of a [`CardId`].
pub ghost struct CardIdView {
    pub name: Option<Seq<char>>,
    pub cost: Option<usize>,
    pub description: Option<Seq<char>>,
    pub keywords: Option<Seq<KeywordView>>,
    pub card_type: Option<Seq<char>>,
    pub kins: Option<Seq<Seq<char>>>,
    pub health: Option<usize>,
    pub defense: Option<usize>,
    pub power: Option<usize>,
}

/// Mathematical model of a [`Card`].
pub ghost struct CardView {
    pub id: Seq<char>,
    pub name: Seq<char>,
    pub img: Seq<Seq<char>>,
    pub description: Seq<char>,
    pub cost: usize,
    pub health: usize,
    pub defense: usize,
    pub power: usize,
    pub card_type: Seq<char>,
    pub kins: Seq<Seq<char>>,
    pub keywords: Seq<KeywordView>,
}

pub open spec fn keywords_view(ks: Seq<Keyword>) -> Seq<KeywordView>
    decreases ks,
{
    if ks.len() == 0 {
        Seq::empty()
    } else {
        keywords_view(ks.subrange(0, ks.len() - 1)).push(keyword_view(ks[ks.len() - 1]))
    }
}

pub open spec fn keyword_view(k: Keyword) -> KeywordView
    decreases k,
{
    KeywordView {
        name: k.name@,
        data: match k.data {
            Some(d) => Some(keyword_data_view(d)),
            None => None,
        },
    }
}

pub open spec fn keyword_data_view(d: KeywordData) -> KeywordDataView
    decreases d,
{
    match d {
        KeywordData::Text(s) => KeywordDataView::Text(s@),
        KeywordData::CardRef(c) => KeywordDataView::CardRef(card_id_view(c)),
    }
}

pub open spec fn card_id_view(c: CardId) -> CardIdView
    decreases c,
    via card_id_view_decreases
{
    CardIdView {
        name: match c.name {
            Some(s) => Some(s@),
            None => None,
        },
        cost: c.cost,
        description: match c.description {
            Some(s) => Some(s@),
            None => None,
        },
        keywords: match c.keywords {
            Some(ks) => Some(keywords_view(ks@)),
            None => None,
        },
        card_type: match c.card_type {
            Some(s) => Some(s@),
            None => None,
        },
        kins: match c.kins {
            Some(ks) => Some(ks.deep_view()),
            None => None,
        },
        health: c.health,
        defense: c.defense,
        power: c.power,
    }
}

#[via_fn]
proof fn card_id_view_decreases(c: CardId) {
    match c.keywords {
        Some(ks) => {
            assert(decreases_to!(c => ks@));
        },
        None => {},
    }
}

pub open spec fn card_view(c: Card) -> CardView {
    CardView {
        id: c.id@,
        name: c.name@,
        img: c.img.deep_view(),
        description: c.description@,
        cost: c.cost,
        health: c.health,
        defense: c.defense,
        power: c.power,
        card_type: c.card_type@,
        kins: c.kins.deep_view(),
        keywords: Seq::new(c.keywords@.len(), |i: int| keyword_view(c.keywords@[i])),
    }
}

impl View for Card {
    type V = CardView;

    open spec fn view(&self) -> CardView {
        card_view(*self)
    }
}

impl DeepView for Card {
    type V = CardView;

    open spec fn deep_view(&self) -> CardView {
        card_view(*self)
    }
}

/// Selector for the numeric fields of a card.
#[derive(Debug, Clone, Copy, PartialEq, Eq)]
pub enum NumberField {
    Cost,
    Health,
    Power,
    Defense,
}

/// Selector for the single-text fields a `Contains` restriction can read.
#[derive(Debug, Clone, Copy, PartialEq, Eq)]
pub enum TextField {
    Name,
    CardType,
}

/// Selector for the string-collection fields a `Has` restriction can read.
#[derive(Debug, Clone, Copy, PartialEq, Eq)]
pub enum ListField {
    Kins,
}

/// Selector for the keyword collection a `HasKw` restriction reads.
#[derive(Debug, Clone, Copy, PartialEq, Eq)]
pub enum KeywordListField {
    Keywords,
}

/// The numeric value a selector reads from a card.
pub open spec fn num_field_of(c: CardView, f: NumberField) -> usize {
    match f {
        NumberField::Cost => c.cost,
        NumberField::Health => c.health,
        NumberField::Power => c.power,
        NumberField::Defense => c.defense,
    }
}

/// The text value a selector reads from a card.
pub open spec fn text_field_of(c: CardView, f: TextField) -> Seq<char> {
    match f {
        TextField::Name => c.name,
        TextField::CardType => c.card_type,
    }
}

/// Dispatch a numeric field selector to the field it names.
pub fn num_of(card: &Card, f: NumberField) -> (r: usize)
    ensures
        r == num_field_of(card.deep_view(), f),
{
    match f {
        NumberField::Cost => card.cost,
        NumberField::Health => card.health,
        NumberField::Power => card.power,
        NumberField::Defense => card.defense,
    }
}

/// Dispatch a text field selector to the field it names.
pub fn text_of<'a>(card: &'a Card, f: TextField) -> (r: &'a String)
    ensures
        r@ == text_field_of(card.deep_view(), f),
{
    match f {
        TextField::Name => &card.name,
        TextField::CardType => &card.card_type,
    }
}

} // verus!
