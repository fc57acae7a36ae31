//! The parser: maps tokens to typed restrictions through a fixed field-alias
//! table, and accumulates bare words into a single fuzzy search term.

use vstd::prelude::*;
use vstd::string::StrSliceExecFns;
use vstd::string::StringExecFns;
use crate::cards::{KeywordListField, ListField, NumberField, TextField};
use crate::text::{push_char, str_eq, trim, trimmed};
use crate::tokenize::{spec_tokenize, token_view, tokens_view, tokenize, Token, TokenV};
use crate::tokenize::lemma_tokens_view_len;

verus! {

/// Why a query failed to parse. Any failure aborts the whole query: there is
/// no partial restriction list.
#[derive(Debug, Clone, Copy, PartialEq, Eq)]
pub enum ParseError {
    /// A `key:value` pair named a numeric field but the value was neither a
    /// bare integer nor a recognized relational prefix followed by one.
    InvalidComparisonString,
    /// A key matched no alias of the field table.
    UnknownParam,
    /// A sub-query key was recognized, but compound sub-query filtering is
    /// reserved and deliberately rejected rather than silently ignored.
    UnsupportedSubQuery,
}

/// A numeric relation against a non-negative integer threshold.
#[derive(Debug, Clone, Copy, PartialEq, Eq)]
pub enum Comparison {
    GreaterThan(usize),
    GreaterThanOrEqual(usize),
    LowerThanOrEqual(usize),
    Equal(usize),
    LowerThan(usize),
    NotEqual(usize),
}

/// One typed, independently evaluable filter predicate derived from the
/// query.
#[derive(Debug, PartialEq)]
pub enum Restriction {
    /// The fuzzy search term: the space-joined, trimmed concatenation of all
    /// bare words. A parsed query holds exactly one, in last position.
    Fuzzy(String),
    /// A numeric relation on the selected field.
    Comparison(NumberField, Comparison),
    /// A case-insensitive substring test on the selected text field.
    Contains(TextField, String),
    /// Case-sensitive substring membership over the selected collection.
    Has(ListField, String),
    /// Case-sensitive substring membership over the keyword names.
    HasKw(KeywordListField, String),
}

/// Mathematical model of a [`Restriction`].
pub ghost enum RestrictionV {
    Fuzzy(Seq<char>),
    Comparison(NumberField, Comparison),
    Contains(TextField, Seq<char>),
    Has(ListField, Seq<char>),
    HasKw(KeywordListField, Seq<char>),
}

/// Model of a single restriction.
pub open spec fn restriction_view(r: Restriction) -> RestrictionV {
    match r {
        Restriction::Fuzzy(s) => RestrictionV::Fuzzy(s@),
        Restriction::Comparison(f, c) => RestrictionV::Comparison(f, c),
        Restriction::Contains(f, s) => RestrictionV::Contains(f, s@),
        Restriction::Has(f, s) => RestrictionV::Has(f, s@),
        Restriction::HasKw(f, s) => RestrictionV::HasKw(f, s@),
    }
}

/// Model of a restriction list, elementwise.
pub open spec fn restrictions_view(rs: Seq<Restriction>) -> Seq<RestrictionV> {
    Seq::new(rs.len(), |i: int| restriction_view(rs[i]))
}

pub broadcast proof fn lemma_restrictions_view_push(rs: Seq<Restriction>, r: Restriction)
    ensures
        #[trigger] restrictions_view(rs.push(r)) == restrictions_view(rs).push(
            restriction_view(r),
        ),
{
    assert(restrictions_view(rs.push(r)) =~= restrictions_view(rs).push(restriction_view(r)));
}

/// Is `c` a decimal digit?
pub open spec fn is_digit(c: char) -> bool {
    48 <= c as u32 <= 57
}

/// The numeric value of a digit character.
pub open spec fn digit_val(c: char) -> int {
    c as u32 - 48
}

/// Is `s` made of decimal digits only?
pub open spec fn all_digits(s: Seq<char>) -> bool {
    forall|i: int| 0 <= i < s.len() ==> is_digit(#[trigger] s[i])
}

/// The value of `s` read as a decimal numeral.
pub open spec fn dec_val(s: Seq<char>) -> int
    decreases s.len(),
{
    if s.len() == 0 {
        0
    } else {
        dec_val(s.drop_last()) * 10 + digit_val(s.last())
    }
}

/// The unsigned integer that `s` denotes, if it is a non-empty run of digits
/// whose value fits the machine; `None` otherwise.
pub open spec fn spec_usize_of(s: Seq<char>) -> Option<usize> {
    if s.len() > 0 && all_digits(s) && dec_val(s) <= usize::MAX {
        Some(dec_val(s) as usize)
    } else {
        None
    }
}

proof fn lemma_dec_val_nonneg(s: Seq<char>)
    requires
        all_digits(s),
    ensures
        dec_val(s) >= 0,
    decreases s.len(),
{
    if s.len() > 0 {
        lemma_dec_val_nonneg(s.drop_last());
    }
}

proof fn lemma_dec_val_grows(s: Seq<char>, j: int)
    requires
        all_digits(s),
        0 <= j <= s.len(),
    ensures
        dec_val(s) >= dec_val(s.take(j)),
    decreases s.len() - j,
{
    if j == s.len() {
        assert(s.take(j) =~= s);
    } else {
        lemma_dec_val_grows(s, j + 1);
        let t = s.take(j + 1);
        assert(t.drop_last() =~= s.take(j));
        assert(all_digits(s.take(j)));
        lemma_dec_val_nonneg(s.take(j));
        assert(dec_val(t) == dec_val(s.take(j)) * 10 + digit_val(s[j]));
    }
}

/// Read a non-empty all-digit string as an unsigned integer; `None` when the
/// string is empty, holds a non-digit, or overflows the machine integer.
pub fn parse_usize(s: &str) -> (r: Option<usize>)
    ensures
        r == spec_usize_of(s@),
{
    let n = s.unicode_len();
    if n == 0 {
        return None;
    }
    let mut acc: usize = 0;
    let mut i: usize = 0;
    while i < n
        invariant
            n == s@.len(),
            0 < n,
            i <= n,
            all_digits(s@.take(i as int)),
            acc == dec_val(s@.take(i as int)),
        decreases n - i,
    {
        let c = s.get_char(i);
        let u = c as u32;
        proof {
            assert(s@.take(i + 1).drop_last() =~= s@.take(i as int));
            assert(s@.take(i + 1).last() == s@[i as int]);
        }
        if u < 48 || u > 57 {
            proof {
                assert(!is_digit(s@[i as int]));
            }
            return None;
        }
        let d = (u - 48) as usize;
        let overflowed: bool = match acc.checked_mul(10) {
            Some(m) => {
                match m.checked_add(d) {
                    Some(v) => {
                        acc = v;
                        false
                    },
                    None => true,
                }
            },
            None => true,
        };
        if overflowed {
            proof {
                if all_digits(s@) {
                    lemma_dec_val_grows(s@, i + 1);
                }
            }
            return None;
        }
        i += 1;
    }
    proof {
        assert(s@.take(n as int) =~= s@);
    }
    Some(acc)
}

/// The comparison denoted by a parameter value, under the grammar: a bare
/// numeral means equality; otherwise one relational prefix, the two-character
/// prefixes tried before their one-character counterparts, followed by a
/// numeral.
pub open spec fn spec_parse_comparison(s: Seq<char>) -> Result<Comparison, ParseError> {
    if spec_usize_of(s) is Some {
        Ok(Comparison::Equal(spec_usize_of(s)->0))
    } else if s.len() >= 2 && s[0] == '>' && s[1] == '=' {
        match spec_usize_of(s.skip(2)) {
            Some(v) => Ok(Comparison::GreaterThanOrEqual(v)),
            None => Err(ParseError::InvalidComparisonString),
        }
    } else if s.len() >= 2 && s[0] == '<' && s[1] == '=' {
        match spec_usize_of(s.skip(2)) {
            Some(v) => Ok(Comparison::LowerThanOrEqual(v)),
            None => Err(ParseError::InvalidComparisonString),
        }
    } else if s.len() >= 1 && s[0] == '>' {
        match spec_usize_of(s.skip(1)) {
            Some(v) => Ok(Comparison::GreaterThan(v)),
            None => Err(ParseError::InvalidComparisonString),
        }
    } else if s.len() >= 1 && s[0] == '<' {
        match spec_usize_of(s.skip(1)) {
            Some(v) => Ok(Comparison::LowerThan(v)),
            None => Err(ParseError::InvalidComparisonString),
        }
    } else if s.len() >= 1 && s[0] == '=' {
        match spec_usize_of(s.skip(1)) {
            Some(v) => Ok(Comparison::Equal(v)),
            None => Err(ParseError::InvalidComparisonString),
        }
    } else if s.len() >= 2 && s[0] == '!' && s[1] == '=' {
        match spec_usize_of(s.skip(2)) {
            Some(v) => Ok(Comparison::NotEqual(v)),
            None => Err(ParseError::InvalidComparisonString),
        }
    } else {
        Err(ParseError::InvalidComparisonString)
    }
}

fn tail_from(s: &str, k: usize) -> (r: Option<usize>)
    requires
        k <= s@.len(),
    ensures
        r == spec_usize_of(s@.skip(k as int)),
{
    let n = s.unicode_len();
    let t = s.substring_char(k, n);
    proof {
        assert(t@ =~= s@.skip(k as int));
    }
    parse_usize(t)
}

/// Parse a parameter value as a numeric comparison.
pub fn parse_comparison(s: &str) -> (r: Result<Comparison, ParseError>)
    ensures
        r == spec_parse_comparison(s@),
{
    if let Some(v) = parse_usize(s) {
        return Ok(Comparison::Equal(v));
    }
    let n = s.unicode_len();
    if n >= 2 && s.get_char(0) == '>' && s.get_char(1) == '=' {
        match tail_from(s, 2) {
            Some(v) => Ok(Comparison::GreaterThanOrEqual(v)),
            None => Err(ParseError::InvalidComparisonString),
        }
    } else if n >= 2 && s.get_char(0) == '<' && s.get_char(1) == '=' {
        match tail_from(s, 2) {
            Some(v) => Ok(Comparison::LowerThanOrEqual(v)),
            None => Err(ParseError::InvalidComparisonString),
        }
    } else if n >= 1 && s.get_char(0) == '>' {
        match tail_from(s, 1) {
            Some(v) => Ok(Comparison::GreaterThan(v)),
            None => Err(ParseError::InvalidComparisonString),
        }
    } else if n >= 1 && s.get_char(0) == '<' {
        match tail_from(s, 1) {
            Some(v) => Ok(Comparison::LowerThan(v)),
            None => Err(ParseError::InvalidComparisonString),
        }
    } else if n >= 1 && s.get_char(0) == '=' {
        match tail_from(s, 1) {
            Some(v) => Ok(Comparison::Equal(v)),
            None => Err(ParseError::InvalidComparisonString),
        }
    } else if n >= 2 && s.get_char(0) == '!' && s.get_char(1) == '=' {
        match tail_from(s, 2) {
            Some(v) => Ok(Comparison::NotEqual(v)),
            None => Err(ParseError::InvalidComparisonString),
        }
    } else {
        Err(ParseError::InvalidComparisonString)
    }
}

/// The restriction a `key:value` parameter denotes under the alias table,
/// or the error it raises.
pub open spec fn spec_alias(key: Seq<char>, value: Seq<char>) -> Result<
    RestrictionV,
    ParseError,
> {
    if key == "cost"@ || key == "c"@ {
        spec_alias_comparison(NumberField::Cost, value)
    } else if key == "health"@ || key == "h"@ || key == "hp"@ {
        spec_alias_comparison(NumberField::Health, value)
    } else if key == "power"@ || key == "strength"@ || key == "damage"@ || key == "p"@ || key
        == "dmg"@ || key == "str"@ {
        spec_alias_comparison(NumberField::Power, value)
    } else if key == "defense"@ || key == "def"@ || key == "d"@ {
        spec_alias_comparison(NumberField::Defense, value)
    } else if key == "name"@ || key == "n"@ {
        Ok(RestrictionV::Contains(TextField::Name, value))
    } else if key == "type"@ || key == "t"@ {
        Ok(RestrictionV::Contains(TextField::CardType, value))
    } else if key == "kin"@ || key == "k"@ {
        Ok(RestrictionV::Has(ListField::Kins, value))
    } else if key == "keyword"@ || key == "kw"@ {
        Ok(RestrictionV::HasKw(KeywordListField::Keywords, value))
    } else {
        Err(ParseError::UnknownParam)
    }
}

pub open spec fn spec_alias_comparison(f: NumberField, value: Seq<char>) -> Result<
    RestrictionV,
    ParseError,
> {
    match spec_parse_comparison(value) {
        Ok(c) => Ok(RestrictionV::Comparison(f, c)),
        Err(e) => Err(e),
    }
}

/// The sub-query keys reserved for compound filtering.
pub open spec fn is_devour_key(k: Seq<char>) -> bool {
    k == "devour"@ || k == "devours"@
}

fn alias_comparison(f: NumberField, value: &String) -> (r: Result<Restriction, ParseError>)
    ensures
        match r {
            Ok(rr) => spec_alias_comparison(f, value@) == Ok::<RestrictionV, ParseError>(
                restriction_view(rr),
            ),
            Err(e) => spec_alias_comparison(f, value@) == Err::<RestrictionV, ParseError>(e),
        },
{
    match parse_comparison(value.as_str()) {
        Ok(c) => Ok(Restriction::Comparison(f, c)),
        Err(e) => Err(e),
    }
}

/// Resolve one `key:value` parameter against the alias table.
fn alias_restriction(key: &String, value: String) -> (r: Result<Restriction, ParseError>)
    ensures
        match r {
            Ok(rr) => spec_alias(key@, value@) == Ok::<RestrictionV, ParseError>(
                restriction_view(rr),
            ),
            Err(e) => spec_alias(key@, value@) == Err::<RestrictionV, ParseError>(e),
        },
{
    let k = key.as_str();
    if str_eq(k, "cost") || str_eq(k, "c") {
        alias_comparison(NumberField::Cost, &value)
    } else if str_eq(k, "health") || str_eq(k, "h") || str_eq(k, "hp") {
        alias_comparison(NumberField::Health, &value)
    } else if str_eq(k, "power") || str_eq(k, "strength") || str_eq(k, "damage") || str_eq(k, "p")
        || str_eq(k, "dmg") || str_eq(k, "str") {
        alias_comparison(NumberField::Power, &value)
    } else if str_eq(k, "defense") || str_eq(k, "def") || str_eq(k, "d") {
        alias_comparison(NumberField::Defense, &value)
    } else if str_eq(k, "name") || str_eq(k, "n") {
        Ok(Restriction::Contains(TextField::Name, value))
    } else if str_eq(k, "type") || str_eq(k, "t") {
        Ok(Restriction::Contains(TextField::CardType, value))
    } else if str_eq(k, "kin") || str_eq(k, "k") {
        Ok(Restriction::Has(ListField::Kins, value))
    } else if str_eq(k, "keyword") || str_eq(k, "kw") {
        Ok(Restriction::HasKw(KeywordListField::Keywords, value))
    } else {
        Err(ParseError::UnknownParam)
    }
}

/// The walk over the tokens: the non-fuzzy restrictions in token order, and
/// the concatenation of the bare words, each followed by one space.
pub open spec fn spec_parse_walk(ts: Seq<TokenV>) -> Result<
    (Seq<RestrictionV>, Seq<char>),
    ParseError,
>
    decreases ts.len(),
{
    if ts.len() == 0 {
        Ok((Seq::empty(), Seq::empty()))
    } else {
        match ts[0] {
            TokenV::Word(w) => match spec_parse_walk(ts.drop_first()) {
                Ok(p) => Ok((p.0, w + seq![' '] + p.1)),
                Err(e) => Err(e),
            },
            TokenV::Param(k, v) => match spec_alias(k, v) {
                Ok(r) => match spec_parse_walk(ts.drop_first()) {
                    Ok(p) => Ok((seq![r] + p.0, p.1)),
                    Err(e) => Err(e),
                },
                Err(e) => Err(e),
            },
            TokenV::SuperParam(k, _) => if is_devour_key(k) {
                Err(ParseError::UnsupportedSubQuery)
            } else {
                Err(ParseError::UnknownParam)
            },
        }
    }
}

/// The restrictions of a token sequence: the walked parameters in order,
/// with the trimmed fuzzy term appended last, even when it is empty.
pub open spec fn spec_parse_tokens(ts: Seq<TokenV>) -> Result<Seq<RestrictionV>, ParseError> {
    match spec_parse_walk(ts) {
        Ok(p) => Ok(p.0.push(RestrictionV::Fuzzy(trimmed(p.1)))),
        Err(e) => Err(e),
    }
}

/// The restrictions of a whole query.
pub open spec fn spec_parse(q: Seq<char>) -> Result<Seq<RestrictionV>, ParseError> {
    spec_parse_tokens(spec_tokenize(q))
}

proof fn lemma_skip_succ<A>(s: Seq<A>, i: int)
    requires
        0 <= i < s.len(),
    ensures
        s.skip(i).len() == s.len() - i,
        s.skip(i)[0] == s[i],
        s.skip(i).drop_first() == s.skip(i + 1),
{
    assert(s.skip(i).drop_first() =~= s.skip(i + 1));
}

/// Map a token sequence to its typed restrictions.
pub fn parse_tokens(tokens: &Vec<Token>) -> (r: Result<Vec<Restriction>, ParseError>)
    ensures
        match spec_parse_tokens(tokens_view(tokens@)) {
            Ok(rs) => r is Ok && restrictions_view(r->Ok_0@) == rs,
            Err(e) => r == Err::<Vec<Restriction>, ParseError>(e),
        },
{
    broadcast use lemma_restrictions_view_push;

    let ghost whole = tokens_view(tokens@);
    proof {
        lemma_tokens_view_len(tokens@);
    }
    let n = tokens.len();
    let mut rs: Vec<Restriction> = Vec::new();
    let mut fuzzy = String::new();
    let mut i: usize = 0;
    proof {
        assert(whole.skip(0) =~= whole);
    }
    while i < n
        invariant
            n == tokens@.len(),
            whole == tokens_view(tokens@),
            whole.len() == n,
            forall|k: int| 0 <= k < n ==> whole[k] == token_view(tokens@[k]),
            i <= n,
            match spec_parse_walk(whole.skip(i as int)) {
                Ok(p) => spec_parse_walk(whole) == Ok::<_, ParseError>(
                    (restrictions_view(rs@) + p.0, fuzzy@ + p.1),
                ),
                Err(e) => spec_parse_walk(whole) == Err::<(Seq<RestrictionV>, Seq<char>), _>(e),
            },
        decreases n - i,
    {
        let ghost rs0 = rs@;
        let ghost fz0 = fuzzy@;
        proof {
            lemma_skip_succ(whole, i as int);
        }
        let t = &tokens[i];
        proof {
            assert(*t == tokens@[i as int]);
            assert(whole[i as int] == token_view(tokens@[i as int]));
            assert(whole.skip(i as int)[0] == whole[i as int]);
        }
        match t {
            Token::Word(w) => {
                proof {
                    assert(whole[i as int] == TokenV::Word(w@));
                }
                fuzzy.append(w.as_str());
                push_char(&mut fuzzy, ' ');
                proof {
                    assert(fuzzy@ =~= fz0 + (w@ + seq![' ']));
                    if let Ok(p) = spec_parse_walk(whole.skip(i + 1)) {
                        assert(fz0 + (w@ + seq![' '] + p.1) =~= (fz0 + (w@ + seq![' '])) + p.1);
                    }
                }
            },
            Token::Param(k, v) => {
                proof {
                    assert(whole[i as int] == TokenV::Param(k@, v@));
                }
                let value = v.clone();
                match alias_restriction(k, value) {
                    Ok(rr) => {
                        let ghost rv = restriction_view(rr);
                        let ghost gt = rr;
                        rs.push(rr);
                        proof {
                            lemma_restrictions_view_push(rs0, gt);
                            if let Ok(p) = spec_parse_walk(whole.skip(i + 1)) {
                                assert(restrictions_view(rs0) + (seq![rv] + p.0)
                                    =~= restrictions_view(rs0).push(rv) + p.0);
                            }
                        }
                    },
                    Err(e) => {
                        return Err(e);
                    },
                }
            },
            Token::SuperParam(k, _) => {
                proof {
                    assert(whole[i as int] is SuperParam);
                    assert(whole[i as int]->SuperParam_0 == k@);
                }
                if str_eq(k.as_str(), "devour") || str_eq(k.as_str(), "devours") {
                    return Err(ParseError::UnsupportedSubQuery);
                } else {
                    return Err(ParseError::UnknownParam);
                }
            },
        }
        i += 1;
    }
    proof {
        assert(whole.skip(n as int) =~= Seq::<TokenV>::empty());
        assert(restrictions_view(rs@) + Seq::<RestrictionV>::empty() =~= restrictions_view(rs@));
        assert(fuzzy@ + Seq::<char>::empty() =~= fuzzy@);
    }
    let term = trim(fuzzy.as_str());
    rs.push(Restriction::Fuzzy(term));
    Ok(rs)
}

/// Parse a raw query into its restriction list.
pub fn parse(q: &str) -> (r: Result<Vec<Restriction>, ParseError>)
    ensures
        match spec_parse(q@) {
            Ok(rs) => r is Ok && restrictions_view(r->Ok_0@) == rs,
            Err(e) => r == Err::<Vec<Restriction>, ParseError>(e),
        },
{
    match tokenize(q) {
        Ok(ts) => parse_tokens(&ts),
        Err(e) => Err(e),
    }
}

} // verus!
