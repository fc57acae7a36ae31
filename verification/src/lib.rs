//! A card-search query language: a tokenizer for free-form queries, a parser
//! producing typed filter restrictions, an evaluator that applies them to a
//! collection of card records, and a ranker ordering the survivors by textual
//! relevance.
//!
//! The pipeline is `tokenize` then `parse` then `filter` then `rank`, and
//! [`search`] runs it whole: the host hands in the raw query string and the
//! card collection, and receives the ordered list of matches or the parse
//! error that aborted the query.

pub mod cards;
pub mod eval;
pub mod laws;
pub mod parse;
pub mod rank;
pub mod text;
pub mod tokenize;

use vstd::prelude::*;
use vstd::pervasive::unreached;
use crate::cards::{Card, CardView};
use crate::eval::{filter, spec_filter};
use crate::parse::{
    parse, restriction_view, restrictions_view, spec_parse, ParseError, Restriction, RestrictionV,
};
use crate::rank::{rank, spec_rank};

verus! {

/// The fuzzy term of a parsed restriction list: the payload of its final
/// `Fuzzy` restriction. Parsing always places exactly one there.
pub open spec fn fuzzy_term_of(rs: Seq<RestrictionV>) -> Seq<char> {
    if rs.len() > 0 && rs.last() is Fuzzy {
        rs.last()->Fuzzy_0
    } else {
        Seq::empty()
    }
}

/// What a whole query run returns: the cards that satisfy every restriction,
/// ordered by descending relevance to the fuzzy term, or the parse error
/// that aborted the query.
pub open spec fn spec_search(cs: Seq<CardView>, q: Seq<char>) -> Result<Seq<CardView>, ParseError> {
    match spec_parse(q) {
        Ok(rs) => Ok(spec_rank(spec_filter(cs, rs), fuzzy_term_of(rs))),
        Err(e) => Err(e),
    }
}

/// Run the whole pipeline on a borrowed card collection: tokenize and parse
/// the query, keep the cards that satisfy every restriction, and order the
/// survivors by descending relevance. The collection is only read; the
/// result borrows it.
pub fn search<'a>(cards: &'a Vec<Card>, query: &str) -> (r: Result<Vec<&'a Card>, ParseError>)
    ensures
        match spec_search(cards.deep_view(), query@) {
            Ok(cs) => r is Ok && r->Ok_0.deep_view() == cs,
            Err(e) => r == Err::<Vec<&'a Card>, ParseError>(e),
        },
{
    let restrictions = match parse(query) {
        Ok(rs) => rs,
        Err(e) => {
            return Err(e);
        },
    };
    proof {
        crate::laws::lemma_parse_single_fuzzy(query@);
    }
    let survivors = filter(cards, &restrictions);
    let k = restrictions.len();
    let term: &String = match &restrictions[k - 1] {
        Restriction::Fuzzy(t) => t,
        _ => unreached(),
    };
    proof {
        let rs = spec_parse(query@)->Ok_0;
        assert(restrictions_view(restrictions@)[k - 1] == restriction_view(
            restrictions@[k - 1 as int],
        ));
        assert(term@ == fuzzy_term_of(rs));
    }
    Ok(rank(survivors, term.as_str()))
}

} // verus!
