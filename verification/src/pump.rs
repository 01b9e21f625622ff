//! The line pump's decision core: for a whole batch of input lines,
//! decode, match, select and re-encode, yielding the output lines. The
//! surrounding program only reads the lines in and writes the results out.

use vstd::prelude::*;
use crate::codec::DecodeError;
use crate::codec::decode_chars;
use crate::codec::encode_record;
use crate::codec::encode_record_spec;
use crate::codec::parse_ltsv;
use crate::matcher::passes_grep;
use crate::matcher::pattern_pair;
use crate::matcher::record_matches;
use crate::select::select_fields;
use crate::select::selected;
use crate::select::split_commas;
use crate::select::split_commas_spec;

verus! {

/// The key list an option string denotes: the empty string disables the
/// list entirely; anything else is split on commas.
pub open spec fn keyset_spec(s: Seq<char>) -> Seq<Seq<char>> {
    if s.len() == 0 {
        Seq::empty()
    } else {
        split_commas_spec(s)
    }
}

/// Whether a line's record matches the pattern string's predicate.
pub open spec fn line_matches(line: Seq<char>, pattern: Seq<char>) -> bool {
    record_matches(pattern_pair(pattern), decode_chars(line).pairs)
}

/// The output line for one matched input line: its record, projected
/// through the key lists and re-encoded with a trailing line terminator.
pub open spec fn line_output(
    line: Seq<char>,
    wl: Seq<Seq<char>>,
    bl: Seq<Seq<char>>,
) -> Seq<char> {
    encode_record_spec(selected(decode_chars(line).pairs, wl, bl))
}

/// The output lines of a whole run: one per matching input line, in input
/// order.
pub open spec fn search_outputs(
    lines: Seq<Seq<char>>,
    pattern: Seq<char>,
    wl: Seq<Seq<char>>,
    bl: Seq<Seq<char>>,
) -> Seq<Seq<char>>
    decreases lines.len(),
{
    if lines.len() == 0 {
        Seq::empty()
    } else {
        let rest = search_outputs(lines.drop_last(), pattern, wl, bl);
        if line_matches(lines.last(), pattern) {
            rest.push(line_output(lines.last(), wl, bl))
        } else {
            rest
        }
    }
}

/// Every line decodes without failure (no data after a line terminator).
pub open spec fn lines_ok(lines: Seq<Seq<char>>) -> bool {
    forall|i: int| 0 <= i < lines.len() ==> !decode_chars(lines[i]).failed
}

/// Run the whole filter over `lines`: decode each line, keep those whose
/// record matches the pattern's first pair, project the survivors through
/// the whitelist and blacklist strings, and re-encode each kept record as
/// one terminated output line. Succeeds exactly when the pattern and every
/// line decode without failure.
pub fn search(pattern: &str, whitelist: &str, blacklist: &str, lines: &Vec<String>) -> (r: Result<
    Vec<String>,
    DecodeError,
>)
    ensures
        r is Ok <==> (!decode_chars(pattern@).failed && lines_ok(lines.deep_view())),
        r matches Ok(out) ==> out.deep_view() == search_outputs(
            lines.deep_view(),
            pattern@,
            keyset_spec(whitelist@),
            keyset_spec(blacklist@),
        ),
        r matches Err(e) ==> e == DecodeError::PostTerminalData,
{
    // decoding the pattern depends on its characters alone, so checking it
    // once up front settles every later per-line check
    match parse_ltsv(pattern) {
        Ok(_) => {},
        Err(e) => {
            return Err(e);
        },
    }
    let wl: Vec<String> = if whitelist.is_empty() {
        Vec::new()
    } else {
        split_commas(whitelist)
    };
    let bl: Vec<String> = if blacklist.is_empty() {
        Vec::new()
    } else {
        split_commas(blacklist)
    };
    proof {
        assert(wl.deep_view() =~= keyset_spec(whitelist@));
        assert(bl.deep_view() =~= keyset_spec(blacklist@));
    }
    let mut out: Vec<String> = Vec::new();
    let mut i: usize = 0;
    while i < lines.len()
        invariant
            !decode_chars(pattern@).failed,
            wl.deep_view() == keyset_spec(whitelist@),
            bl.deep_view() == keyset_spec(blacklist@),
            i <= lines.len(),
            lines_ok(lines.deep_view().take(i as int)),
            out.deep_view() == search_outputs(
                lines.deep_view().take(i as int),
                pattern@,
                keyset_spec(whitelist@),
                keyset_spec(blacklist@),
            ),
        decreases lines.len() - i,
    {
        proof {
            assert(lines.deep_view().take(i as int + 1).drop_last() =~= lines.deep_view().take(
                i as int,
            ));
            assert(lines.deep_view()[i as int] == lines@[i as int]@);
        }
        let record = match parse_ltsv(lines[i].as_str()) {
            Ok(rec) => rec,
            Err(e) => {
                proof {
                    assert(decode_chars(lines.deep_view()[i as int]).failed);
                }
                return Err(e);
            },
        };
        if passes_grep(pattern, &record) {
            let picked = select_fields(&record, &wl, &bl);
            let encoded = encode_record(&picked);
            let ghost prev_out = out.deep_view();
            out.push(encoded);
            proof {
                assert(out.deep_view() =~= prev_out.push(
                    line_output(
                        lines.deep_view()[i as int],
                        keyset_spec(whitelist@),
                        keyset_spec(blacklist@),
                    ),
                ));
            }
        }
        i += 1;
    }
    proof {
        assert(lines.deep_view().take(lines.len() as int) =~= lines.deep_view());
    }
    Ok(out)
}

} // verus!
