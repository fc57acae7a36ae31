//! The evaluator: applies parsed restrictions to cards. A card survives when
//! every restriction holds of it; the survivors keep the collection's order.

use vstd::prelude::*;
use vstd::string::StrSliceExecFns;
use crate::cards::{
    num_field_of, text_field_of, Card, CardView, Keyword, KeywordListField, ListField,
};
use crate::parse::{restriction_view, restrictions_view, Comparison, Restriction, RestrictionV};
use crate::text::{is_substring, lower_of, str_contains, to_lower};

verus! {

/// Does the numeric relation hold of the field value `x`?
pub open spec fn spec_compare(cmp: Comparison, x: usize) -> bool {
    match cmp {
        Comparison::GreaterThan(t) => x > t,
        Comparison::GreaterThanOrEqual(t) => x >= t,
        Comparison::LowerThanOrEqual(t) => x <= t,
        Comparison::Equal(t) => x == t,
        Comparison::LowerThan(t) => x < t,
        Comparison::NotEqual(t) => x != t,
    }
}

impl Comparison {
    /// Apply the numeric relation to a field value.
    pub fn compare(&self, x: usize) -> (b: bool)
        ensures
            b == spec_compare(*self, x),
    {
        match self {
            Comparison::GreaterThan(t) => x > *t,
            Comparison::GreaterThanOrEqual(t) => x >= *t,
            Comparison::LowerThanOrEqual(t) => x <= *t,
            Comparison::Equal(t) => x == *t,
            Comparison::LowerThan(t) => x < *t,
            Comparison::NotEqual(t) => x != *t,
        }
    }
}

/// The loose multi-field test behind a fuzzy term: the lowercased term is a
/// substring of the lowercased name, type or description, or of some
/// lowercased kin tag or keyword name. An empty term matches every card.
pub open spec fn spec_fuzzy(c: CardView, q: Seq<char>) -> bool {
    ||| q.len() == 0
    ||| is_substring(lower_of(c.description), lower_of(q))
    ||| is_substring(lower_of(c.name), lower_of(q))
    ||| is_substring(lower_of(c.card_type), lower_of(q))
    ||| exists|j: int| 0 <= j < c.kins.len() && is_substring(lower_of(#[trigger] c.kins[j]), lower_of(q))
    ||| exists|j: int|
        0 <= j < c.keywords.len() && is_substring(
            lower_of(#[trigger] c.keywords[j].name),
            lower_of(q),
        )
}

/// Does one restriction hold of a card?
pub open spec fn spec_matches(c: CardView, r: RestrictionV) -> bool {
    match r {
        RestrictionV::Fuzzy(q) => spec_fuzzy(c, q),
        RestrictionV::Comparison(f, cmp) => spec_compare(cmp, num_field_of(c, f)),
        RestrictionV::Contains(f, s) => is_substring(lower_of(text_field_of(c, f)), lower_of(s)),
        RestrictionV::Has(f, s) => match f {
            ListField::Kins => exists|j: int|
                0 <= j < c.kins.len() && is_substring(#[trigger] c.kins[j], s),
        },
        RestrictionV::HasKw(f, s) => match f {
            KeywordListField::Keywords => exists|j: int|
                0 <= j < c.keywords.len() && is_substring(#[trigger] c.keywords[j].name, s),
        },
    }
}

/// Do all restrictions hold of a card? Restrictions combine by logical AND.
pub open spec fn spec_matches_all(c: CardView, rs: Seq<RestrictionV>) -> bool {
    forall|k: int| 0 <= k < rs.len() ==> spec_matches(c, #[trigger] rs[k])
}

/// The cards of `cs` that satisfy every restriction, in their original
/// order.
pub open spec fn spec_filter(cs: Seq<CardView>, rs: Seq<RestrictionV>) -> Seq<CardView>
    decreases cs.len(),
{
    if cs.len() == 0 {
        Seq::empty()
    } else {
        let rest = spec_filter(cs.drop_last(), rs);
        if spec_matches_all(cs.last(), rs) {
            rest.push(cs.last())
        } else {
            rest
        }
    }
}

/// The loose multi-field substring test behind a fuzzy term, on one card.
pub fn fuzzy(card: &Card, query: &str) -> (r: bool)
    ensures
        r == spec_fuzzy(card.deep_view(), query@),
{
    let n = query.unicode_len();
    if n == 0 {
        return true;
    }
    let lq = to_lower(query);
    let ld = to_lower(card.description.as_str());
    if str_contains(ld.as_str(), lq.as_str()) {
        return true;
    }
    let lname = to_lower(card.name.as_str());
    if str_contains(lname.as_str(), lq.as_str()) {
        return true;
    }
    let lt = to_lower(card.card_type.as_str());
    if str_contains(lt.as_str(), lq.as_str()) {
        return true;
    }
    let nk = card.kins.len();
    let mut i: usize = 0;
    while i < nk
        invariant
            nk == card.kins@.len(),
            i <= nk,
            lq@ == lower_of(query@),
            forall|j: int|
                0 <= j < i ==> !is_substring(
                    lower_of(#[trigger] card.deep_view().kins[j]),
                    lower_of(query@),
                ),
        decreases nk - i,
    {
        let lk = to_lower(card.kins[i].as_str());
        if str_contains(lk.as_str(), lq.as_str()) {
            proof {
                assert(card.deep_view().kins[i as int] == card.kins@[i as int]@);
            }
            return true;
        }
        proof {
            assert(card.deep_view().kins[i as int] == card.kins@[i as int]@);
        }
        i += 1;
    }
    let nw = card.keywords.len();
    let mut i: usize = 0;
    while i < nw
        invariant
            nw == card.keywords@.len(),
            i <= nw,
            lq@ == lower_of(query@),
            forall|j: int|
                0 <= j < i ==> !is_substring(
                    lower_of(#[trigger] card.deep_view().keywords[j].name),
                    lower_of(query@),
                ),
        decreases nw - i,
    {
        let lk = to_lower(card.keywords[i].name.as_str());
        if str_contains(lk.as_str(), lq.as_str()) {
            proof {
                assert(card.deep_view().keywords[i as int].name == card.keywords@[i as int].name@);
            }
            return true;
        }
        proof {
            assert(card.deep_view().keywords[i as int].name == card.keywords@[i as int].name@);
        }
        i += 1;
    }
    false
}

/// Case-sensitive substring membership over a string collection.
fn any_contains(items: &Vec<String>, needle: &str) -> (r: bool)
    ensures
        r == exists|j: int| 0 <= j < items@.len() && is_substring(#[trigger] items@[j]@, needle@),
{
    let n = items.len();
    let mut i: usize = 0;
    while i < n
        invariant
            n == items@.len(),
            i <= n,
            forall|j: int| 0 <= j < i ==> !is_substring(#[trigger] items@[j]@, needle@),
        decreases n - i,
    {
        if str_contains(items[i].as_str(), needle) {
            return true;
        }
        i += 1;
    }
    false
}

/// Case-sensitive substring membership over keyword names.
fn any_keyword_contains(items: &Vec<Keyword>, needle: &str) -> (r: bool)
    ensures
        r == exists|j: int|
            0 <= j < items@.len() && is_substring(#[trigger] items@[j].name@, needle@),
{
    let n = items.len();
    let mut i: usize = 0;
    while i < n
        invariant
            n == items@.len(),
            i <= n,
            forall|j: int| 0 <= j < i ==> !is_substring(#[trigger] items@[j].name@, needle@),
        decreases n - i,
    {
        if str_contains(items[i].name.as_str(), needle) {
            return true;
        }
        i += 1;
    }
    false
}

/// Does one restriction hold of a card?
pub fn matches_restriction(card: &Card, r: &Restriction) -> (b: bool)
    ensures
        b == spec_matches(card.deep_view(), restriction_view(*r)),
{
    match r {
        Restriction::Fuzzy(q) => {
            let v = fuzzy(card, q.as_str());
            proof {
                assert(restriction_view(*r) == RestrictionV::Fuzzy(q@));
                assert(v == spec_matches(card.deep_view(), restriction_view(*r)));
            }
            v
        },
        Restriction::Comparison(f, cmp) => {
            let x = crate::cards::num_of(card, *f);
            let v = cmp.compare(x);
            proof {
                assert(restriction_view(*r) == RestrictionV::Comparison(*f, *cmp));
                assert(v == spec_matches(card.deep_view(), restriction_view(*r)));
            }
            v
        },
        Restriction::Contains(f, s) => {
            let lf = to_lower(crate::cards::text_of(card, *f).as_str());
            let ls = to_lower(s.as_str());
            let v = str_contains(lf.as_str(), ls.as_str());
            proof {
                assert(restriction_view(*r) == RestrictionV::Contains(*f, s@));
                assert(v == spec_matches(card.deep_view(), restriction_view(*r)));
            }
            v
        },
        Restriction::Has(f, s) => match f {
            ListField::Kins => {
                let v = any_contains(&card.kins, s.as_str());
                proof {
                    let c = card.deep_view();
                    if v {
                        let j = choose|j: int|
                            0 <= j < card.kins@.len() && is_substring(#[trigger] card.kins@[j]@, s@);
                        assert(c.kins[j] == card.kins@[j]@);
                        assert(is_substring(c.kins[j], s@));
                    } else {
                        assert forall|j: int|
                            0 <= j < c.kins.len() implies !is_substring(
                            #[trigger] c.kins[j],
                            s@,
                        ) by {
                            assert(c.kins[j] == card.kins@[j]@);
                        }
                    }
                    assert(restriction_view(*r) == RestrictionV::Has(ListField::Kins, s@));
                    assert(v == spec_matches(card.deep_view(), restriction_view(*r)));
                }
                v
            },
        },
        Restriction::HasKw(f, s) => match f {
            KeywordListField::Keywords => {
                let v = any_keyword_contains(&card.keywords, s.as_str());
                proof {
                    let c = card.deep_view();
                    if v {
                        let j = choose|j: int|
                            0 <= j < card.keywords@.len() && is_substring(
                                #[trigger] card.keywords@[j].name@,
                                s@,
                            );
                        assert(c.keywords[j].name == card.keywords@[j].name@);
                        assert(is_substring(c.keywords[j].name, s@));
                    } else {
                        assert forall|j: int|
                            0 <= j < c.keywords.len() implies !is_substring(
                            #[trigger] c.keywords[j].name,
                            s@,
                        ) by {
                            assert(c.keywords[j].name == card.keywords@[j].name@);
                        }
                    }
                    assert(restriction_view(*r) == RestrictionV::HasKw(
                        KeywordListField::Keywords,
                        s@,
                    ));
                    assert(v == spec_matches(card.deep_view(), restriction_view(*r)));
                }
                v
            },
        },
    }
}

/// Do all restrictions hold of a card?
pub fn matches_all(card: &Card, restrictions: &Vec<Restriction>) -> (b: bool)
    ensures
        b == spec_matches_all(card.deep_view(), restrictions_view(restrictions@)),
{
    let n = restrictions.len();
    let mut i: usize = 0;
    while i < n
        invariant
            n == restrictions@.len(),
            i <= n,
            forall|k: int|
                0 <= k < i ==> spec_matches(
                    card.deep_view(),
                    #[trigger] restrictions_view(restrictions@)[k],
                ),
        decreases n - i,
    {
        if !matches_restriction(card, &restrictions[i]) {
            proof {
                assert(restrictions_view(restrictions@)[i as int] == restriction_view(
                    restrictions@[i as int],
                ));
            }
            return false;
        }
        i += 1;
    }
    true
}

/// Keep the cards that satisfy every restriction, preserving the
/// collection's order. Pure and read-only: the result borrows the cards.
pub fn filter<'a>(cards: &'a Vec<Card>, restrictions: &Vec<Restriction>) -> (out: Vec<&'a Card>)
    ensures
        out.deep_view() == spec_filter(cards.deep_view(), restrictions_view(restrictions@)),
{
    let ghost rsv = restrictions_view(restrictions@);
    let n = cards.len();
    let mut out: Vec<&'a Card> = Vec::new();
    let mut i: usize = 0;
    proof {
        assert(cards.deep_view().take(0) =~= Seq::<CardView>::empty());
        assert(out.deep_view() =~= Seq::<CardView>::empty());
    }
    while i < n
        invariant
            n == cards@.len(),
            i <= n,
            rsv == restrictions_view(restrictions@),
            out.deep_view() == spec_filter(cards.deep_view().take(i as int), rsv),
        decreases n - i,
    {
        let ghost dv0 = out.deep_view();
        let ghost cs = cards.deep_view();
        proof {
            assert(cs.take(i + 1).drop_last() =~= cs.take(i as int));
            assert(cs.take(i + 1).last() == cs[i as int]);
            assert(cs[i as int] == cards@[i as int].deep_view());
        }
        let c = &cards[i];
        if matches_all(c, restrictions) {
            out.push(c);
            proof {
                assert(out.deep_view() =~= dv0.push(cs[i as int]));
            }
        }
        i += 1;
    }
    proof {
        assert(cards.deep_view().take(n as int) =~= cards.deep_view());
    }
    out
}

} // verus!
