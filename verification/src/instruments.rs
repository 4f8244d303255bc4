//! The list of instruments that an engine starts with.

use crate::auth::{chars_of, find_char, find_in, trim_bounds, trimmed};
use crate::fix::message::{number_of, parse_number};
use crate::types::InstrumentId;
use vstd::prelude::*;
use vstd::utf8::encode_utf8;

verus! {

/// The instrument that one part `id` or `id:symbol` of an instrument list
/// names, with white space around the part, the id and the symbol set
/// aside. No instrument where the id is no number; no symbol where it is
/// empty.
pub open spec fn part_instrument(part: Seq<char>) -> Option<(u64, Option<Seq<char>>)> {
    let p = trimmed(part);
    let colon = find_char(p, ':');
    let id_text = if colon < p.len() {
        trimmed(p.take(colon))
    } else {
        p
    };
    let symbol = if colon < p.len() && trimmed(p.skip(colon + 1)).len() > 0 {
        Some(trimmed(p.skip(colon + 1)))
    } else {
        None
    };
    match number_of(encode_utf8(id_text), u64::MAX as nat) {
        Some(id) => Some((id as u64, symbol)),
        None => None,
    }
}

/// The instruments of an instrument list `1,2,3` or `1:AAPL,2:GOOG`, in
/// their order.
pub open spec fn listed_instruments(text: Seq<char>) -> Seq<(u64, Option<Seq<char>>)>
    decreases text.len(),
{
    let comma = find_char(text, ',');
    let first = match part_instrument(text.take(comma)) {
        Some(entry) => seq![entry],
        None => Seq::empty(),
    };
    if 0 <= comma < text.len() {
        first + listed_instruments(text.skip(comma + 1))
    } else {
        first
    }
}

/// The instruments as ids and texts.
pub open spec fn instruments_view(list: Seq<(InstrumentId, Option<String>)>) -> Seq<(u64, Option<Seq<char>>)> {
    Seq::new(
        list.len(),
        |i: int|
            (
                list[i].0.0,
                match list[i].1 {
                    Some(s) => Some(s@),
                    None => None,
                },
            ),
    )
}

/// Reads an instrument list: ids divided by commas, each with an optional
/// symbol after a colon, e.g. `1,2,3` or `1:AAPL,2:GOOG`. White space around
/// the parts, the ids and the symbols is set aside; a part whose id is no
/// number is passed over.
pub fn parse_instrument_list(list: &str) -> (out: Vec<(InstrumentId, Option<String>)>)
    ensures
        instruments_view(out@) == listed_instruments(list@),
{
    let text = chars_of(list);
    let mut out: Vec<(InstrumentId, Option<String>)> = Vec::new();
    let mut start: usize = 0;
    let mut active = true;
    proof {
        assert(text@.skip(0) =~= text@);
        assert(instruments_view(out@) + listed_instruments(text@) =~= listed_instruments(text@));
    }
    while active
        invariant
            start <= text.len(),
            text@ == list@,
            listed_instruments(text@) == if active {
                instruments_view(out@) + listed_instruments(text@.skip(start as int))
            } else {
                instruments_view(out@)
            },
        decreases text.len() - start + if active { 1int } else { 0int },
    {
        let ghost here = text@.skip(start as int);
        let ghost before = instruments_view(out@);
        proof {
            assert(text@.subrange(start as int, text.len() as int) =~= here);
        }
        let comma = find_in(&text, start, text.len(), ',');
        let ghost part = here.take(comma - start);
        proof {
            assert(text@.subrange(start as int, comma as int) =~= part);
        }
        let (a, b) = trim_bounds(&text, start, comma);
        let colon = find_in(&text, a, b, ':');
        let (ia, ib) = if colon < b {
            trim_bounds(&text, a, colon)
        } else {
            (a, b)
        };
        let symbol = if colon < b {
            let (sa, sb) = trim_bounds(&text, colon + 1, b);
            proof {
                let p = text@.subrange(a as int, b as int);
                assert(p.skip(colon - a + 1) =~= text@.subrange(colon + 1, b as int));
                assert(list@.subrange(sa as int, sb as int) == text@.subrange(sa as int, sb as int));
            }
            if sb > sa {
                Some(list.substring_char(sa, sb).to_owned())
            } else {
                None
            }
        } else {
            None
        };
        proof {
            let p = text@.subrange(a as int, b as int);
            if colon < b {
                assert(p.take(colon - a) =~= text@.subrange(a as int, colon as int));
            }
            assert(list@.subrange(ia as int, ib as int) == text@.subrange(ia as int, ib as int));
        }
        let id_text = list.substring_char(ia, ib);
        let id_bytes = id_text.as_bytes();
        proof {
            assert(id_bytes@.subrange(0, id_bytes@.len() as int) =~= id_bytes@);
        }
        match parse_number(id_bytes, 0, id_bytes.len(), u64::MAX) {
            Some(id) => {
                out.push((InstrumentId(id), symbol));
                proof {
                    assert(instruments_view(out@) =~= before.push(part_instrument(part)->0));
                }
            },
            None => {},
        }
        proof {
            let first = match part_instrument(part) {
                Some(entry) => seq![entry],
                None => Seq::empty(),
            };
            assert(instruments_view(out@) =~= before + first);
            if comma < text.len() {
                assert(here.skip(comma - start + 1) =~= text@.skip(comma + 1));
                assert(before + (first + listed_instruments(text@.skip(comma + 1))) =~= instruments_view(
                    out@,
                ) + listed_instruments(text@.skip(comma + 1)));
            }
        }
        if comma < text.len() {
            start = comma + 1;
        } else {
            active = false;
        }
    }
    out
}

} // verus!
