use crate::card::Card;
use crate::errors::ParseError;
use crate::hand::hand_views;
use vstd::prelude::*;

verus! {

/// What loading one line of card tokens yields, given the tokens
/// already seen anywhere in the source: tokens are taken left to
/// right; a token seen before is rejected as `DuplicateCard` before it
/// is parsed, and the first failure aborts the load. On success the
/// parsed cards and the grown record of seen tokens come back.
pub open spec fn spec_load_line(tokens: Seq<Seq<char>>, seen: Seq<Seq<char>>) -> Result<
    (Seq<Card>, Seq<Seq<char>>),
    ParseError,
>
    decreases tokens.len(),
{
    if tokens.len() == 0 {
        Ok((Seq::empty(), seen))
    } else {
        let t = tokens[0];
        if seen.contains(t) {
            Err(ParseError::DuplicateCard)
        } else {
            match Card::spec_parse(t) {
                Err(e) => Err(e),
                Ok(c) => match spec_load_line(tokens.drop_first(), seen.push(t)) {
                    Err(e) => Err(e),
                    Ok((cs, s2)) => Ok((seq![c] + cs, s2)),
                },
            }
        }
    }
}

/// What loading a whole hand source yields: the lines in order, each
/// against the tokens seen in all earlier lines.
pub open spec fn spec_load_lines(lines: Seq<Seq<Seq<char>>>, seen: Seq<Seq<char>>) -> Result<
    Seq<Seq<Card>>,
    ParseError,
>
    decreases lines.len(),
{
    if lines.len() == 0 {
        Ok(Seq::empty())
    } else {
        match spec_load_line(lines[0], seen) {
            Err(e) => Err(e),
            Ok((cards, s2)) => match spec_load_lines(lines.drop_first(), s2) {
                Err(e) => Err(e),
                Ok(rest) => Ok(seq![cards] + rest),
            },
        }
    }
}

/// Whether the record of seen tokens already holds this token.
fn seen_contains(seen: &Vec<String>, token: &String) -> (r: bool)
    ensures
        r == seen.deep_view().contains(token@),
{
    let mut i: usize = 0;
    while i < seen.len()
        invariant
            i <= seen@.len(),
            forall|t: int| 0 <= t < i ==> seen.deep_view()[t] != token@,
        decreases seen@.len() - i,
    {
        if seen[i].eq(token) {
            proof {
                assert(seen.deep_view()[i as int] == token@);
            }
            return true;
        }
        i += 1;
    }
    false
}

/// Load the tokens of one hand line, growing the record of seen
/// tokens.
fn load_line(tokens: &Vec<String>, seen: &mut Vec<String>) -> (r: Result<Vec<Card>, ParseError>)
    ensures
        match r {
            Ok(cards) => spec_load_line(tokens.deep_view(), old(seen).deep_view()) == Ok::<
                (Seq<Card>, Seq<Seq<char>>),
                ParseError,
            >((cards@, final(seen).deep_view())),
            Err(e) => spec_load_line(tokens.deep_view(), old(seen).deep_view()) == Err::<
                (Seq<Card>, Seq<Seq<char>>),
                ParseError,
            >(e),
        },
{
    let ghost tokens_dv = tokens.deep_view();
    let mut cards: Vec<Card> = Vec::new();
    let mut k: usize = 0;
    proof {
        assert(tokens_dv.skip(0) =~= tokens_dv);
        match spec_load_line(tokens_dv, seen.deep_view()) {
            Ok((cs, s2)) => {
                assert((cards@ + cs) =~= cs);
            },
            Err(_) => {},
        }
    }
    while k < tokens.len()
        invariant
            k <= tokens@.len(),
            tokens_dv == tokens.deep_view(),
            spec_load_line(tokens_dv, old(seen).deep_view()) == (match spec_load_line(
                tokens_dv.skip(k as int),
                seen.deep_view(),
            ) {
                Ok((cs, s2)) => Ok::<(Seq<Card>, Seq<Seq<char>>), ParseError>((cards@ + cs, s2)),
                Err(e) => Err::<(Seq<Card>, Seq<Seq<char>>), ParseError>(e),
            }),
        decreases tokens@.len() - k,
    {
        let token = &tokens[k];
        proof {
            assert(tokens_dv.skip(k as int)[0] == token@);
            assert(tokens_dv.skip(k as int).drop_first() =~= tokens_dv.skip(k as int + 1));
        }
        if seen_contains(seen, token) {
            return Err(ParseError::DuplicateCard);
        }
        let card = match Card::parse_token(token.as_str()) {
            Ok(c) => c,
            Err(e) => {
                return Err(e);
            },
        };
        let ghost seen_before = seen.deep_view();
        let ghost cards_before = cards@;
        seen.push(token.clone());
        cards.push(card);
        proof {
            assert(seen.deep_view() =~= seen_before.push(token@));
            match spec_load_line(tokens_dv.skip(k as int + 1), seen.deep_view()) {
                Ok((cs, s2)) => {
                    assert((cards_before + (seq![card] + cs)) =~= (cards@ + cs));
                },
                Err(_) => {},
            }
        }
        k += 1;
    }
    proof {
        assert(tokens_dv.skip(tokens@.len() as int) =~= Seq::<Seq<char>>::empty());
        assert(cards@ + Seq::<Card>::empty() =~= cards@);
    }
    Ok(cards)
}

/// Load hands from card tokens, one inner vector of tokens per hand
/// line. Tokens are checked line by line, left to right: a token that
/// already occurred anywhere in the source yields `DuplicateCard`, a
/// malformed token its parse error, and the first error aborts the
/// whole load, exactly as `spec_load_lines` says.
pub fn load_hands(lines: &Vec<Vec<String>>) -> (r: Result<Vec<Vec<Card>>, ParseError>)
    ensures
        match r {
            Ok(hands) => spec_load_lines(lines.deep_view(), Seq::<Seq<char>>::empty()) == Ok::<
                Seq<Seq<Card>>,
                ParseError,
            >(hand_views(hands@)),
            Err(e) => spec_load_lines(lines.deep_view(), Seq::<Seq<char>>::empty()) == Err::<
                Seq<Seq<Card>>,
                ParseError,
            >(e),
        },
{
    let ghost lines_dv = lines.deep_view();
    let mut seen: Vec<String> = Vec::new();
    let mut hands: Vec<Vec<Card>> = Vec::new();
    let mut i: usize = 0;
    proof {
        assert(seen.deep_view() =~= Seq::<Seq<char>>::empty());
        assert(lines_dv.skip(0) =~= lines_dv);
        match spec_load_lines(lines_dv, seen.deep_view()) {
            Ok(rest) => {
                assert((hand_views(hands@) + rest) =~= rest);
            },
            Err(_) => {},
        }
    }
    while i < lines.len()
        invariant
            i <= lines@.len(),
            lines_dv == lines.deep_view(),
            spec_load_lines(lines_dv, Seq::<Seq<char>>::empty()) == (match spec_load_lines(
                lines_dv.skip(i as int),
                seen.deep_view(),
            ) {
                Ok(rest) => Ok::<Seq<Seq<Card>>, ParseError>(hand_views(hands@) + rest),
                Err(e) => Err::<Seq<Seq<Card>>, ParseError>(e),
            }),
        decreases lines@.len() - i,
    {
        let line = &lines[i];
        proof {
            assert(lines_dv.skip(i as int)[0] == line.deep_view());
            assert(lines_dv.skip(i as int).drop_first() =~= lines_dv.skip(i as int + 1));
        }
        let cards = match load_line(line, &mut seen) {
            Ok(cs) => cs,
            Err(e) => {
                return Err(e);
            },
        };
        let ghost hands_before = hands@;
        hands.push(cards);
        proof {
            match spec_load_lines(lines_dv.skip(i as int + 1), seen.deep_view()) {
                Ok(rest) => {
                    assert((hand_views(hands_before) + (seq![cards@] + rest)) =~= (
                    hand_views(hands@) + rest));
                },
                Err(_) => {},
            }
        }
        i += 1;
    }
    proof {
        assert(lines_dv.skip(lines@.len() as int) =~= Seq::<Seq<Seq<char>>>::empty());
        assert(hand_views(hands@) + Seq::<Seq<Card>>::empty() =~= hand_views(hands@));
    }
    Ok(hands)
}

} // verus!
