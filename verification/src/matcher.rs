//! The predicate matcher: whether a decoded record satisfies the single
//! key/value equality pattern.

use vstd::prelude::*;
use crate::codec::SpecPair;
use crate::codec::decode_chars;
use crate::codec::parse_ltsv;

verus! {

/// Whether some pair of `rec` equals `pat` exactly, key and value both,
/// character for character.
pub open spec fn record_matches(pat: SpecPair, rec: Seq<SpecPair>) -> bool {
    exists|i: int| 0 <= i < rec.len() && rec[i] == pat
}

/// The pattern pair that a pattern string denotes: the first pair of its
/// decoding; any further pairs parsed out of the string are discarded.
pub open spec fn pattern_pair(pattern: Seq<char>) -> SpecPair {
    decode_chars(pattern).pairs[0]
}

/// Whether the record matches the pattern: the pattern string is decoded
/// as one LTSV line, its first pair is the predicate, and the record
/// matches iff some pair equals that predicate exactly. A pattern with
/// data after a line terminator has no defined predicate and is excluded.
pub fn passes_grep(pattern: &str, record: &Vec<(String, String)>) -> (r: bool)
    requires
        !decode_chars(pattern@).failed,
    ensures
        r == record_matches(pattern_pair(pattern@), record.deep_view()),
{
    match parse_ltsv(pattern) {
        Ok(tags) => {
            let pat_key = &tags[0].0;
            let pat_value = &tags[0].1;
            proof {
                assert(tags.deep_view()[0] == pattern_pair(pattern@));
            }
            let mut i: usize = 0;
            while i < record.len()
                invariant
                    tags.deep_view()[0] == pattern_pair(pattern@),
                    pat_key@ == pattern_pair(pattern@).0,
                    pat_value@ == pattern_pair(pattern@).1,
                    i <= record.len(),
                    forall|j: int| 0 <= j < i ==> record.deep_view()[j] != pattern_pair(pattern@),
                decreases record.len() - i,
            {
                if record[i].0 == *pat_key && record[i].1 == *pat_value {
                    proof {
                        assert(record.deep_view()[i as int] == pattern_pair(pattern@));
                    }
                    return true;
                }
                i += 1;
            }
            false
        },
        Err(_) => false,
    }
}

} // verus!
