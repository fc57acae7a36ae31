//! Properties of the engine that hold for every input, stated and proved
//! once and for all: the shape of a parsed restriction list, the behaviour
//! of the empty query, what filtering keeps and excludes, and the
//! determinism of a whole query run.

use vstd::prelude::*;
use crate::cards::{CardView, ListField};
use crate::eval::{spec_filter, spec_matches, spec_matches_all, spec_fuzzy};
use crate::rank::{insert_desc, spec_rank, spec_score};
use crate::parse::{
    spec_parse, spec_parse_walk, ParseError, RestrictionV,
};
use crate::spec_search;
use crate::text::{is_substring, occurs_at, trim_front, trimmed};
use crate::tokenize::{spec_lex, spec_tokenize, LexState, TokenV};

verus! {

proof fn lemma_walk_no_fuzzy(ts: Seq<TokenV>)
    ensures
        spec_parse_walk(ts) matches Ok(p) ==> forall|i: int|
            0 <= i < p.0.len() ==> !(#[trigger] p.0[i] is Fuzzy),
    decreases ts.len(),
{
    if ts.len() > 0 {
        lemma_walk_no_fuzzy(ts.drop_first());
    }
}

/// A parsed query holds exactly one `Fuzzy` restriction, in last position:
/// the walk itself never produces one, and the parser appends one at the
/// end, even when the fuzzy term is empty.
pub proof fn lemma_parse_single_fuzzy(q: Seq<char>)
    ensures
        spec_parse(q) matches Ok(rs) ==> {
            &&& rs.len() >= 1
            &&& rs.last() is Fuzzy
            &&& forall|i: int| 0 <= i < rs.len() - 1 ==> !(#[trigger] rs[i] is Fuzzy)
        },
{
    lemma_walk_no_fuzzy(spec_tokenize(q));
}

/// A whole query run is a function of the query and the collection alone:
/// two results of the same run are the same result. The executable
/// pipeline's contracts pin each stage to its specification, so two
/// executions of `search` on equal inputs return equal output.
pub proof fn lemma_search_deterministic(
    cs: Seq<CardView>,
    q: Seq<char>,
    r1: Result<Seq<CardView>, ParseError>,
    r2: Result<Seq<CardView>, ParseError>,
)
    requires
        r1 == spec_search(cs, q),
        r2 == spec_search(cs, q),
    ensures
        r1 == r2,
{
}

/// The empty query parses to exactly one restriction, an empty `Fuzzy`,
/// and that restriction list matches every card.
pub proof fn lemma_empty_query()
    ensures
        spec_parse(Seq::<char>::empty()) == Ok::<_, ParseError>(
            seq![RestrictionV::Fuzzy(Seq::<char>::empty())],
        ),
        forall|c: CardView|
            spec_matches_all(c, #[trigger] seq![RestrictionV::Fuzzy(Seq::<char>::empty())]),
{
    let q = Seq::<char>::empty();
    let st = LexState::Word { buf: Seq::<char>::empty() };
    assert(spec_lex(q, st) == seq![TokenV::Word(Seq::<char>::empty())]);
    let ts = spec_tokenize(q);
    assert(ts.drop_first() =~= Seq::<TokenV>::empty());
    assert(spec_parse_walk(ts.drop_first()) == Ok::<_, ParseError>(
        (Seq::<RestrictionV>::empty(), Seq::<char>::empty()),
    ));
    let blank = Seq::<char>::empty() + seq![' '] + Seq::<char>::empty();
    assert(blank =~= seq![' ']);
    assert(spec_parse_walk(ts) == Ok::<_, ParseError>((Seq::<RestrictionV>::empty(), blank)));
    assert(seq![' '].drop_first() =~= Seq::<char>::empty());
    assert(trim_front(seq![' ']) == trim_front(Seq::<char>::empty()));
    assert(trimmed(blank) == Seq::<char>::empty());
    let rs = Seq::<RestrictionV>::empty().push(
        RestrictionV::Fuzzy(Seq::<char>::empty()),
    );
    assert(rs =~= seq![RestrictionV::Fuzzy(Seq::<char>::empty())]);
    assert forall|c: CardView|
        spec_matches_all(c, #[trigger] seq![RestrictionV::Fuzzy(Seq::<char>::empty())]) by {
        let one = seq![RestrictionV::Fuzzy(Seq::<char>::empty())];
        assert forall|k: int| 0 <= k < one.len() implies spec_matches(c, #[trigger] one[k]) by {
            assert(one[k] == RestrictionV::Fuzzy(Seq::<char>::empty()));
            assert(spec_fuzzy(c, Seq::<char>::empty()));
        }
    }
}

/// Filtering only keeps cards of the collection, and every card it keeps
/// satisfies every restriction: a card that fails any single restriction is
/// excluded, since the restrictions combine by logical AND.
pub proof fn lemma_filter_matches(cs: Seq<CardView>, rs: Seq<RestrictionV>)
    ensures
        forall|i: int|
            0 <= i < spec_filter(cs, rs).len() ==> spec_matches_all(
                #[trigger] spec_filter(cs, rs)[i],
                rs,
            ) && cs.contains(spec_filter(cs, rs)[i]),
    decreases cs.len(),
{
    if cs.len() > 0 {
        lemma_filter_matches(cs.drop_last(), rs);
        let rest = spec_filter(cs.drop_last(), rs);
        assert forall|i: int|
            0 <= i < spec_filter(cs, rs).len() implies spec_matches_all(
            #[trigger] spec_filter(cs, rs)[i],
            rs,
        ) && cs.contains(spec_filter(cs, rs)[i]) by {
            if i < rest.len() {
                assert(spec_filter(cs, rs)[i] == rest[i]);
                let j = choose|j: int| 0 <= j < cs.drop_last().len() && cs.drop_last()[j] == rest[i];
                assert(cs[j] == rest[i]);
            } else {
                assert(spec_filter(cs, rs)[i] == cs.last());
                assert(cs[cs.len() - 1] == cs.last());
            }
        }
    }
}

/// Filtering loses no matching card: a card of the collection that
/// satisfies every restriction appears among the survivors.
pub proof fn lemma_filter_complete(cs: Seq<CardView>, rs: Seq<RestrictionV>, j: int)
    requires
        0 <= j < cs.len(),
        spec_matches_all(cs[j], rs),
    ensures
        spec_filter(cs, rs).contains(cs[j]),
    decreases cs.len(),
{
    let out = spec_filter(cs, rs);
    let rest = spec_filter(cs.drop_last(), rs);
    if j == cs.len() - 1 {
        assert(out[rest.len() as int] == cs.last());
    } else {
        assert(cs.drop_last()[j] == cs[j]);
        lemma_filter_complete(cs.drop_last(), rs, j);
        let m = choose|m: int| 0 <= m < rest.len() && rest[m] == cs[j];
        assert(out[m] == cs[j]);
    }
}

/// Membership for a `Has` restriction is substring-based, not equality:
/// a card whose selected collection holds any element that contains the
/// sought value as a substring satisfies the restriction.
pub proof fn lemma_has_is_substring_membership(c: CardView, value: Seq<char>, j: int)
    requires
        0 <= j < c.kins.len(),
        is_substring(c.kins[j], value),
    ensures
        spec_matches(c, RestrictionV::Has(ListField::Kins, value)),
{
}

/// A value equal to an element is in particular a substring of it, so exact
/// equality still matches.
pub proof fn lemma_substring_refl(s: Seq<char>)
    ensures
        is_substring(s, s),
{
    assert(s.subrange(0, s.len() as int) =~= s);
    assert(occurs_at(s, s, 0));
}

proof fn lemma_insert_desc_multiset(c: CardView, s: Seq<CardView>, term: Seq<char>)
    ensures
        insert_desc(c, s, term).to_multiset() == s.to_multiset().insert(c),
    decreases s.len(),
{
    broadcast use vstd::seq_lib::to_multiset_insert;
    broadcast use vstd::seq_lib::lemma_multiset_commutative;
    broadcast use vstd::multiset::group_multiset_axioms;

    if s.len() == 0 {
        assert(insert_desc(c, s, term) =~= s.insert(0, c));
        assert(s.insert(0, c).to_multiset() == s.to_multiset().insert(c));
    } else if spec_score(c, term) > spec_score(s[0], term) {
        assert(insert_desc(c, s, term) =~= s.insert(0, c));
        assert(s.insert(0, c).to_multiset() == s.to_multiset().insert(c));
    } else {
        let d = s.drop_first();
        lemma_insert_desc_multiset(c, d, term);
        assert(s =~= seq![s[0]] + d);
        assert((seq![s[0]] + d).to_multiset() =~= seq![s[0]].to_multiset().add(d.to_multiset()));
        assert((seq![s[0]] + insert_desc(c, d, term)).to_multiset() =~= seq![
            s[0],
        ].to_multiset().add(insert_desc(c, d, term).to_multiset()));
        assert(seq![s[0]].to_multiset().add(d.to_multiset().insert(c)) =~= (seq![
            s[0],
        ].to_multiset().add(d.to_multiset())).insert(c));
    }
}

/// Ranking reorders the survivors and nothing more: the ranked sequence
/// holds exactly the cards that were handed to it, each as often as it
/// occurred.
pub proof fn lemma_rank_permutes(cs: Seq<CardView>, term: Seq<char>)
    ensures
        spec_rank(cs, term).to_multiset() == cs.to_multiset(),
    decreases cs.len(),
{
    broadcast use vstd::seq_lib::group_to_multiset_ensures;

    if cs.len() > 0 {
        lemma_rank_permutes(cs.drop_last(), term);
        lemma_insert_desc_multiset(cs.last(), spec_rank(cs.drop_last(), term), term);
        assert(cs =~= cs.drop_last().push(cs.last()));
        assert(cs.drop_last().push(cs.last()).to_multiset() =~= cs.drop_last().to_multiset().insert(
            cs.last(),
        ));
    }
}

} // verus!
