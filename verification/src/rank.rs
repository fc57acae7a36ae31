//! The ranker: scores each card against the fuzzy term with a fixed-weight
//! combination of per-field similarities and sorts descending, stably.
//!
//! Similarities are integer-valued on a per-mille scale (0 to 1000), and the
//! field weights (2.0 for the name, 1.8 for the type, 1.6 for the
//! description, 1.5 for the best kin, 1.2 for the best keyword) are carried
//! as the integers 20, 18, 16, 15 and 12: every score is the weighted
//! combination scaled by one constant factor, which leaves the ranking
//! order unchanged and keeps the arithmetic exact.

use vstd::prelude::*;
use vstd::arithmetic::div_mod::{lemma_div_by_multiple, lemma_div_is_ordered, lemma_div_pos_is_pos};
use vstd::string::StrSliceExecFns;
use crate::cards::{Card, CardView, KeywordView};
use crate::text::{is_substring, lower_of, occurs_at, str_contains, str_eq, to_lower};

verus! {

/// Similarity of a lowercased search term to a lowercased text, on a scale
/// of 0 to 1000: equality scores full; the term occurring inside the text
/// scores by the share of the text it covers; the text occurring inside the
/// term scores at half that rate; anything else scores zero, as does an
/// empty term.
pub open spec fn sim_milli(term: Seq<char>, text: Seq<char>) -> int {
    if term.len() == 0 {
        0
    } else if term == text {
        1000
    } else if is_substring(text, term) {
        1000 * (term.len() as int) / (text.len() as int)
    } else if is_substring(term, text) {
        500 * (text.len() as int) / (term.len() as int)
    } else {
        0
    }
}

proof fn lemma_substring_len(hay: Seq<char>, needle: Seq<char>)
    requires
        is_substring(hay, needle),
    ensures
        needle.len() <= hay.len(),
{
    let at = choose|at: int| occurs_at(hay, needle, at);
}

/// Similarity never leaves the per-mille scale.
pub proof fn lemma_sim_bounds(term: Seq<char>, text: Seq<char>)
    ensures
        0 <= sim_milli(term, text) <= 1000,
{
    if term.len() == 0 {
    } else if term == text {
    } else if is_substring(text, term) {
        lemma_substring_len(text, term);
        lemma_div_pos_is_pos(1000 * (term.len() as int), text.len() as int);
        lemma_div_is_ordered(1000 * (term.len() as int), 1000 * (text.len() as int), text.len() as int);
        lemma_div_by_multiple(1000, text.len() as int);
    } else if is_substring(term, text) {
        lemma_substring_len(term, text);
        lemma_div_pos_is_pos(500 * (text.len() as int), term.len() as int);
        lemma_div_is_ordered(500 * (text.len() as int), 500 * (term.len() as int), term.len() as int);
        lemma_div_by_multiple(500, term.len() as int);
    } else {
    }
}

/// The best similarity of the term to any lowercased kin tag; zero with no
/// kins.
pub open spec fn best_kin_sim(term: Seq<char>, kins: Seq<Seq<char>>) -> int
    decreases kins.len(),
{
    if kins.len() == 0 {
        0
    } else {
        let rest = best_kin_sim(term, kins.drop_last());
        let last = sim_milli(term, lower_of(kins.last()));
        if last > rest {
            last
        } else {
            rest
        }
    }
}

/// The best similarity of the term to any lowercased keyword name; zero
/// with no keywords.
pub open spec fn best_kw_sim(term: Seq<char>, kws: Seq<KeywordView>) -> int
    decreases kws.len(),
{
    if kws.len() == 0 {
        0
    } else {
        let rest = best_kw_sim(term, kws.drop_last());
        let last = sim_milli(term, lower_of(kws.last().name));
        if last > rest {
            last
        } else {
            rest
        }
    }
}

/// The relevance score of a card against a fuzzy term: the fixed-weight
/// linear combination of the per-field similarities, everything lowercased.
pub open spec fn spec_score(c: CardView, term: Seq<char>) -> int {
    let lt = lower_of(term);
    20 * sim_milli(lt, lower_of(c.name)) + 18 * sim_milli(lt, lower_of(c.card_type)) + 16
        * sim_milli(lt, lower_of(c.description)) + 15 * best_kin_sim(lt, c.kins) + 12 * best_kw_sim(
        lt,
        c.keywords,
    )
}

proof fn lemma_best_kin_bounds(term: Seq<char>, kins: Seq<Seq<char>>)
    ensures
        0 <= best_kin_sim(term, kins) <= 1000,
    decreases kins.len(),
{
    if kins.len() > 0 {
        lemma_best_kin_bounds(term, kins.drop_last());
        lemma_sim_bounds(term, lower_of(kins.last()));
    }
}

proof fn lemma_best_kw_bounds(term: Seq<char>, kws: Seq<KeywordView>)
    ensures
        0 <= best_kw_sim(term, kws) <= 1000,
    decreases kws.len(),
{
    if kws.len() > 0 {
        lemma_best_kw_bounds(term, kws.drop_last());
        lemma_sim_bounds(term, lower_of(kws.last().name));
    }
}

/// A score never exceeds the weighted full-similarity total.
pub proof fn lemma_score_bounds(c: CardView, term: Seq<char>)
    ensures
        0 <= spec_score(c, term) <= 81000,
{
    let lt = lower_of(term);
    lemma_sim_bounds(lt, lower_of(c.name));
    lemma_sim_bounds(lt, lower_of(c.card_type));
    lemma_sim_bounds(lt, lower_of(c.description));
    lemma_best_kin_bounds(lt, c.kins);
    lemma_best_kw_bounds(lt, c.keywords);
}

/// Similarity of two already-lowercased strings.
fn similarity(term: &str, text: &str) -> (r: u64)
    ensures
        r == sim_milli(term@, text@),
{
    let lt = term.unicode_len();
    let lx = text.unicode_len();
    if lt == 0 {
        return 0;
    }
    if str_eq(term, text) {
        return 1000;
    }
    if str_contains(text, term) {
        proof {
            lemma_substring_len(text@, term@);
            lemma_div_pos_is_pos(1000 * (term@.len() as int), text@.len() as int);
            lemma_div_is_ordered(1000 * (term@.len() as int), 1000 * (text@.len() as int), text@.len() as int);
            lemma_div_by_multiple(1000, text@.len() as int);
        }
        let v = (1000u128 * (lt as u128)) / (lx as u128);
        return v as u64;
    }
    if str_contains(term, text) {
        proof {
            lemma_substring_len(term@, text@);
            lemma_div_pos_is_pos(500 * (text@.len() as int), term@.len() as int);
            lemma_div_is_ordered(500 * (text@.len() as int), 500 * (term@.len() as int), term@.len() as int);
            lemma_div_by_multiple(500, term@.len() as int);
        }
        let v = (500u128 * (lx as u128)) / (lt as u128);
        return v as u64;
    }
    0
}

/// The relevance score of a card against a fuzzy term.
pub fn weighted_score(card: &Card, term: &str) -> (r: u64)
    ensures
        r == spec_score(card.deep_view(), term@),
{
    let ghost c = card.deep_view();
    let ghost glt = lower_of(term@);
    let lt = to_lower(term);
    let ln = to_lower(card.name.as_str());
    let s_name = similarity(lt.as_str(), ln.as_str());
    let ltype = to_lower(card.card_type.as_str());
    let s_type = similarity(lt.as_str(), ltype.as_str());
    let ld = to_lower(card.description.as_str());
    let s_desc = similarity(lt.as_str(), ld.as_str());

    let nk = card.kins.len();
    let mut best_kin: u64 = 0;
    let mut i: usize = 0;
    proof {
        assert(c.kins.take(0) =~= Seq::<Seq<char>>::empty());
    }
    while i < nk
        invariant
            nk == card.kins@.len(),
            c == card.deep_view(),
            i <= nk,
            lt@ == glt,
            best_kin == best_kin_sim(glt, c.kins.take(i as int)),
        decreases nk - i,
    {
        let lk = to_lower(card.kins[i].as_str());
        let s = similarity(lt.as_str(), lk.as_str());
        proof {
            assert(c.kins[i as int] == card.kins@[i as int]@);
            assert(c.kins.take(i + 1).drop_last() =~= c.kins.take(i as int));
            assert(c.kins.take(i + 1).last() == c.kins[i as int]);
        }
        if s > best_kin {
            best_kin = s;
        }
        i += 1;
    }
    proof {
        assert(c.kins.take(nk as int) =~= c.kins);
    }

    let nw = card.keywords.len();
    let mut best_kw: u64 = 0;
    let mut i: usize = 0;
    proof {
        assert(c.keywords.take(0) =~= Seq::<KeywordView>::empty());
    }
    while i < nw
        invariant
            nw == card.keywords@.len(),
            c == card.deep_view(),
            i <= nw,
            lt@ == glt,
            best_kw == best_kw_sim(glt, c.keywords.take(i as int)),
        decreases nw - i,
    {
        let lk = to_lower(card.keywords[i].name.as_str());
        let s = similarity(lt.as_str(), lk.as_str());
        proof {
            assert(c.keywords[i as int].name == card.keywords@[i as int].name@);
            assert(c.keywords.take(i + 1).drop_last() =~= c.keywords.take(i as int));
            assert(c.keywords.take(i + 1).last() == c.keywords[i as int]);
        }
        if s > best_kw {
            best_kw = s;
        }
        i += 1;
    }
    proof {
        assert(c.keywords.take(nw as int) =~= c.keywords);
        lemma_sim_bounds(glt, lower_of(c.name));
        lemma_sim_bounds(glt, lower_of(c.card_type));
        lemma_sim_bounds(glt, lower_of(c.description));
        lemma_best_kin_bounds(glt, c.kins);
        lemma_best_kw_bounds(glt, c.keywords);
    }
    20 * s_name + 18 * s_type + 16 * s_desc + 15 * best_kin + 12 * best_kw
}

/// Insert a card into a score-sorted sequence, after every card whose score
/// is at least its own: ties keep the earlier card first, which makes the
/// sort stable.
pub open spec fn insert_desc(c: CardView, s: Seq<CardView>, term: Seq<char>) -> Seq<CardView>
    decreases s.len(),
{
    if s.len() == 0 {
        seq![c]
    } else if spec_score(c, term) > spec_score(s[0], term) {
        seq![c] + s
    } else {
        seq![s[0]] + insert_desc(c, s.drop_first(), term)
    }
}

/// The cards sorted by descending score; equal scores keep their input
/// order.
pub open spec fn spec_rank(cs: Seq<CardView>, term: Seq<char>) -> Seq<CardView>
    decreases cs.len(),
{
    if cs.len() == 0 {
        Seq::empty()
    } else {
        insert_desc(cs.last(), spec_rank(cs.drop_last(), term), term)
    }
}

/// Scores never increase along the sequence.
pub open spec fn sorted_desc(s: Seq<CardView>, term: Seq<char>) -> bool {
    forall|a: int, b: int|
        0 <= a <= b < s.len() ==> spec_score(#[trigger] s[a], term) >= spec_score(
            #[trigger] s[b],
            term,
        )
}

proof fn lemma_insert_desc_len(c: CardView, s: Seq<CardView>, term: Seq<char>)
    ensures
        insert_desc(c, s, term).len() == s.len() + 1,
    decreases s.len(),
{
    if s.len() == 0 {
    } else if spec_score(c, term) > spec_score(s[0], term) {
    } else {
        lemma_insert_desc_len(c, s.drop_first(), term);
    }
}

proof fn lemma_insert_desc_sorted(c: CardView, s: Seq<CardView>, term: Seq<char>)
    requires
        sorted_desc(s, term),
    ensures
        sorted_desc(insert_desc(c, s, term), term),
        insert_desc(c, s, term).len() == s.len() + 1,
    decreases s.len(),
{
    lemma_insert_desc_len(c, s, term);
    if s.len() == 0 {
    } else if spec_score(c, term) > spec_score(s[0], term) {
    } else {
        assert(sorted_desc(s.drop_first(), term));
        lemma_insert_desc_sorted(c, s.drop_first(), term);
        let t = insert_desc(c, s.drop_first(), term);
        let whole = seq![s[0]] + t;
        assert forall|a: int, b: int|
            0 <= a <= b < whole.len() implies spec_score(#[trigger] whole[a], term) >= spec_score(
            #[trigger] whole[b],
            term,
        ) by {
            if a == 0 && b > 0 {
                if t[b - 1] == c {
                } else {
                    lemma_insert_desc_element(c, s.drop_first(), term, b - 1);
                }
            }
        }
    }
}

/// Every element of an insertion result is the inserted card or one of the
/// original elements.
proof fn lemma_insert_desc_element(c: CardView, s: Seq<CardView>, term: Seq<char>, k: int)
    requires
        0 <= k < s.len() + 1,
    ensures
        insert_desc(c, s, term).len() == s.len() + 1,
        insert_desc(c, s, term)[k] == c || exists|m: int|
            0 <= m < s.len() && insert_desc(c, s, term)[k] == #[trigger] s[m],
    decreases s.len(),
{
    lemma_insert_desc_len(c, s, term);
    if s.len() == 0 {
    } else if spec_score(c, term) > spec_score(s[0], term) {
        if k > 0 {
            assert(insert_desc(c, s, term)[k] == s[k - 1]);
        }
    } else {
        if k > 0 {
            lemma_insert_desc_element(c, s.drop_first(), term, k - 1);
            let t = insert_desc(c, s.drop_first(), term);
            if t[k - 1] == c {
            } else {
                let m = choose|m: int|
                    0 <= m < s.drop_first().len() && t[k - 1] == s.drop_first()[m];
                assert(insert_desc(c, s, term)[k] == s[m + 1]);
            }
        }
    }
}

/// Where the insertion lands: at the first index whose score is below the
/// inserted card's.
proof fn lemma_insert_desc_at(c: CardView, s: Seq<CardView>, term: Seq<char>, j: int)
    requires
        0 <= j <= s.len(),
        forall|k: int| 0 <= k < j ==> spec_score(#[trigger] s[k], term) >= spec_score(c, term),
        j < s.len() ==> spec_score(s[j], term) < spec_score(c, term),
    ensures
        insert_desc(c, s, term) == s.take(j) + seq![c] + s.skip(j),
    decreases s.len(),
{
    if s.len() == 0 {
        assert(insert_desc(c, s, term) =~= s.take(0) + seq![c] + s.skip(0));
    } else if spec_score(c, term) > spec_score(s[0], term) {
        assert(j == 0);
        assert(insert_desc(c, s, term) =~= s.take(0) + seq![c] + s.skip(0));
    } else {
        assert(j > 0);
        let d = s.drop_first();
        assert(forall|k: int| 0 <= k < j - 1 ==> #[trigger] d[k] == s[k + 1]);
        lemma_insert_desc_at(c, d, term, j - 1);
        assert(seq![s[0]] + (d.take(j - 1) + seq![c] + d.skip(j - 1)) =~= s.take(j) + seq![c]
            + s.skip(j));
    }
}

/// A ranked sequence is sorted by descending score.
pub proof fn lemma_rank_sorted(cs: Seq<CardView>, term: Seq<char>)
    ensures
        sorted_desc(spec_rank(cs, term), term),
        spec_rank(cs, term).len() == cs.len(),
    decreases cs.len(),
{
    if cs.len() > 0 {
        lemma_rank_sorted(cs.drop_last(), term);
        lemma_insert_desc_sorted(cs.last(), spec_rank(cs.drop_last(), term), term);
    }
}

/// Order the cards by descending relevance score against the fuzzy term.
/// The sort is stable: cards with equal scores keep their input order.
pub fn rank<'a>(cards: Vec<&'a Card>, term: &str) -> (out: Vec<&'a Card>)
    ensures
        out.deep_view() == spec_rank(cards.deep_view(), term@),
{
    let ghost cs = cards.deep_view();
    let n = cards.len();
    let mut out: Vec<&'a Card> = Vec::new();
    let mut scores: Vec<u64> = Vec::new();
    let mut i: usize = 0;
    proof {
        assert(cs.take(0) =~= Seq::<CardView>::empty());
        assert(out.deep_view() =~= Seq::<CardView>::empty());
    }
    while i < n
        invariant
            n == cards@.len(),
            cs == cards.deep_view(),
            i <= n,
            out@.len() == i,
            scores@.len() == i,
            out.deep_view() == spec_rank(cs.take(i as int), term@),
            forall|k: int|
                0 <= k < i ==> scores@[k] == spec_score(#[trigger] out.deep_view()[k], term@),
        decreases n - i,
    {
        let ghost prev = out.deep_view();
        let ghost prev_scores = scores@;
        let c: &'a Card = cards[i];
        proof {
            assert(cs[i as int] == cards@[i as int].deep_view());
        }
        let s = weighted_score(c, term);
        let m = out.len();
        let mut j: usize = 0;
        while j < m && scores[j] >= s
            invariant
                m == scores@.len(),
                j <= m,
                forall|k: int| 0 <= k < j ==> #[trigger] scores@[k] >= s,
            decreases m - j,
        {
            j += 1;
        }
        let ghost prev_out = out@;
        out.insert(j, c);
        scores.insert(j, s);
        proof {
            lemma_rank_sorted(cs.take(i as int), term@);
            lemma_insert_desc_at(cs[i as int], prev, term@, j as int);
            assert(cs.take(i + 1).drop_last() =~= cs.take(i as int));
            assert(cs.take(i + 1).last() == cs[i as int]);
            prev_scores.insert_ensures(j as int, s);
            prev_out.insert_ensures(j as int, c);
            assert(out.deep_view() =~= prev.take(j as int) + seq![cs[i as int]] + prev.skip(
                j as int,
            ));
            assert(out.deep_view() == spec_rank(cs.take(i + 1), term@));
            assert forall|k: int| 0 <= k < i + 1 implies scores@[k] == spec_score(
                #[trigger] out.deep_view()[k],
                term@,
            ) by {
                if k < j {
                    assert(scores@[k] == prev_scores[k]);
                    assert(out.deep_view()[k] == prev[k]);
                } else if k == j {
                    assert(scores@[k] == s);
                    assert(out.deep_view()[k] == cs[i as int]);
                } else {
                    assert(scores@[k] == prev_scores[k - 1]);
                    assert(out.deep_view()[k] == prev[k - 1]);
                }
            }
        }
        i += 1;
    }
    proof {
        assert(cs.take(n as int) =~= cs);
    }
    out
}

} // verus!
