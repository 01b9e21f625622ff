//! The LTSV codec: an escape-aware decoder from one line of text to an
//! ordered sequence of key/value pairs, and the encoder back from a pair
//! to its canonical escaped form.

use vstd::prelude::*;
use vstd::string::StringExecFns;

verus! {

/// Relies on std's `String::push`: appends the given character to the end
/// of the string.
pub assume_specification[ String::push ](s: &mut String, c: char)
    ensures
        final(s)@ == old(s)@.push(c),
;

/// One decoded key/value pair, as mathematical character sequences.
pub type SpecPair = (Seq<char>, Seq<char>);

/// The decoder's state after consuming a prefix of a line: the pairs built
/// so far (never empty; the last one is still being built), whether the
/// value half of the last pair is active (else the key half), whether an
/// unescaped backslash is pending, whether a line terminator has been
/// consumed, and whether data arrived after the terminator.
#[verifier::ext_equal]
pub struct DecodeState {
    pub pairs: Seq<SpecPair>,
    pub in_value: bool,
    pub escape: bool,
    pub terminal: bool,
    pub failed: bool,
}

/// The state in which the decoder starts: one empty pair, key half active.
pub open spec fn init_state() -> DecodeState {
    DecodeState {
        pairs: seq![(Seq::<char>::empty(), Seq::<char>::empty())],
        in_value: false,
        escape: false,
        terminal: false,
        failed: false,
    }
}

/// The characters the decoder treats as delimiters when unescaped.
pub open spec fn is_reserved(c: char) -> bool {
    c == '=' || c == '\n' || c == '\t' || c == '\\'
}

/// Append one character to whichever half of the last pair is active.
pub open spec fn append_active(st: DecodeState, c: char) -> DecodeState {
    let last = st.pairs.last();
    let updated = if st.in_value {
        (last.0, last.1.push(c))
    } else {
        (last.0.push(c), last.1)
    };
    DecodeState { pairs: st.pairs.update(st.pairs.len() - 1, updated), ..st }
}

/// One step of the decoder, in the priority order of its rules: data after
/// a terminator is a failure; an escaped character is appended verbatim; a
/// backslash arms the escape; a tab in value mode closes the pair and opens
/// a fresh one; a line feed in value mode is the terminator; an `=` in key
/// mode switches to the value half; any other unescaped reserved character
/// is dropped; everything else is appended.
pub open spec fn decode_step(st: DecodeState, c: char) -> DecodeState {
    if st.failed {
        st
    } else if st.terminal {
        DecodeState { failed: true, ..st }
    } else if st.escape {
        DecodeState { escape: false, ..append_active(st, c) }
    } else if c == '\\' {
        DecodeState { escape: true, ..st }
    } else if st.in_value && c == '\t' {
        DecodeState {
            pairs: st.pairs.push((Seq::<char>::empty(), Seq::<char>::empty())),
            in_value: false,
            ..st
        }
    } else if st.in_value && c == '\n' {
        DecodeState { terminal: true, ..st }
    } else if !st.in_value && c == '=' {
        DecodeState { in_value: true, ..st }
    } else if is_reserved(c) {
        st
    } else {
        append_active(st, c)
    }
}

/// Run the decoder from `st` over all of `s`, left to right.
pub open spec fn decode_from(st: DecodeState, s: Seq<char>) -> DecodeState
    decreases s.len(),
{
    if s.len() == 0 {
        st
    } else {
        decode_step(decode_from(st, s.drop_last()), s.last())
    }
}

/// The decoder's state after one whole line.
pub open spec fn decode_chars(s: Seq<char>) -> DecodeState {
    decode_from(init_state(), s)
}

/// Stepping never empties the pair list.
proof fn lemma_decode_from_pairs_nonempty(st: DecodeState, s: Seq<char>)
    requires
        st.pairs.len() >= 1,
    ensures
        decode_from(st, s).pairs.len() >= 1,
    decreases s.len(),
{
    if s.len() > 0 {
        lemma_decode_from_pairs_nonempty(st, s.drop_last());
    }
}

/// Decoding a line always yields at least one pair.
pub proof fn lemma_decode_pairs_nonempty(s: Seq<char>)
    ensures
        decode_chars(s).pairs.len() >= 1,
{
    lemma_decode_from_pairs_nonempty(init_state(), s);
}

/// The decoder over a concatenation is the decoder run twice.
proof fn lemma_decode_from_append(st: DecodeState, a: Seq<char>, b: Seq<char>)
    ensures
        decode_from(st, a + b) == decode_from(decode_from(st, a), b),
    decreases b.len(),
{
    if b.len() == 0 {
        assert(a + b =~= a);
    } else {
        assert((a + b).drop_last() =~= a + b.drop_last());
        lemma_decode_from_append(st, a, b.drop_last());
    }
}

/// A failure is final: no further input clears it.
proof fn lemma_failed_persists(st: DecodeState, s: Seq<char>)
    requires
        st.failed,
    ensures
        decode_from(st, s).failed,
    decreases s.len(),
{
    if s.len() > 0 {
        lemma_failed_persists(st, s.drop_last());
    }
}

/// A failed prefix fails the whole line.
proof fn lemma_failed_prefix(s: Seq<char>, i: int)
    requires
        0 <= i <= s.len(),
        decode_chars(s.take(i)).failed,
    ensures
        decode_chars(s).failed,
{
    assert(s =~= s.take(i) + s.skip(i));
    lemma_decode_from_append(init_state(), s.take(i), s.skip(i));
    lemma_failed_persists(decode_chars(s.take(i)), s.skip(i));
}

/// The one way a decode can fail: data after a line terminator.
#[derive(Clone, Copy, Debug, PartialEq, Eq, Structural)]
pub enum DecodeError {
    PostTerminalData,
}

/// Decode one line into its ordered key/value pairs. The result is exactly
/// the pair list of the decoder's state model over the line's characters,
/// and it is never empty; the only error is data after a line terminator.
pub fn parse_ltsv(line: &str) -> (r: Result<Vec<(String, String)>, DecodeError>)
    ensures
        match r {
            Ok(pairs) => {
                &&& !decode_chars(line@).failed
                &&& pairs.deep_view() == decode_chars(line@).pairs
                &&& pairs.len() >= 1
            },
            Err(e) => {
                &&& decode_chars(line@).failed
                &&& e == DecodeError::PostTerminalData
            },
        },
{
    let mut pairs: Vec<(String, String)> = Vec::new();
    let mut key = String::new();
    let mut value = String::new();
    let mut in_value = false;
    let mut escape = false;
    let mut terminal = false;
    let n: usize = line.unicode_len();
    let mut i: usize = 0;
    while i < n
        invariant
            n == line@.len(),
            i <= n,
            ({
                let st = decode_chars(line@.take(i as int));
                &&& !st.failed
                &&& st.in_value == in_value
                &&& st.escape == escape
                &&& st.terminal == terminal
                &&& st.pairs == pairs.deep_view().push((key@, value@))
            }),
        decreases n - i,
    {
        let c = line.get_char(i);
        proof {
            assert(line@.take(i as int + 1).drop_last() =~= line@.take(i as int));
        }
        if terminal {
            proof {
                lemma_failed_prefix(line@, i as int + 1);
            }
            return Err(DecodeError::PostTerminalData);
        }
        let ghost prev_pairs = pairs.deep_view();
        let ghost prev_key = key@;
        let ghost prev_value = value@;
        if escape {
            if in_value {
                value.push(c);
            } else {
                key.push(c);
            }
            escape = false;
        } else if c == '\\' {
            escape = true;
        } else if in_value && c == '\t' {
            pairs.push((key, value));
            key = String::new();
            value = String::new();
            in_value = false;
            proof {
                assert(pairs.deep_view() =~= prev_pairs.push((prev_key, prev_value)));
            }
        } else if in_value && c == '\n' {
            terminal = true;
        } else if !in_value && c == '=' {
            in_value = true;
        } else if c == '=' || c == '\n' || c == '\t' {
            // lenient mode: an out-of-place reserved character is dropped
        } else {
            if in_value {
                value.push(c);
            } else {
                key.push(c);
            }
        }
        proof {
            let st_next = decode_chars(line@.take(i as int + 1));
            assert(st_next.pairs =~= pairs.deep_view().push((key@, value@)));
        }
        i += 1;
    }
    proof {
        assert(line@.take(n as int) =~= line@);
    }
    pairs.push((key, value));
    proof {
        assert(pairs.deep_view() =~= decode_chars(line@).pairs);
    }
    Ok(pairs)
}

/// The characters that the encoder writes a backslash before.
pub open spec fn needs_escape(c: char) -> bool {
    c == '\t' || c == '\n' || c == '\\'
}

/// The encoding of a single character.
pub open spec fn escape_one(c: char) -> Seq<char> {
    if needs_escape(c) {
        seq!['\\', c]
    } else {
        seq![c]
    }
}

/// The encoding of a whole key or value.
pub open spec fn escape_seq(s: Seq<char>) -> Seq<char>
    decreases s.len(),
{
    if s.len() == 0 {
        Seq::empty()
    } else {
        escape_seq(s.drop_last()) + escape_one(s.last())
    }
}

/// The canonical encoding of one pair: escaped key, `=`, escaped value,
/// one trailing tab. The `=` inside a key or value is deliberately left
/// unescaped, so an encode/decode round trip is not total on it.
pub open spec fn encode_pair(k: Seq<char>, v: Seq<char>) -> Seq<char> {
    escape_seq(k) + seq!['='] + escape_seq(v) + seq!['\t']
}

/// Append the escaped form of `s` to `out`.
fn push_escaped(out: &mut String, s: &str)
    ensures
        final(out)@ == old(out)@ + escape_seq(s@),
{
    let n: usize = s.unicode_len();
    let mut i: usize = 0;
    while i < n
        invariant
            n == s@.len(),
            i <= n,
            out@ == old(out)@ + escape_seq(s@.take(i as int)),
        decreases n - i,
    {
        let c = s.get_char(i);
        if c == '\t' || c == '\n' || c == '\\' {
            out.push('\\');
        }
        out.push(c);
        proof {
            assert(s@.take(i as int + 1).drop_last() =~= s@.take(i as int));
            assert(out@ =~= old(out)@ + escape_seq(s@.take(i as int + 1)));
        }
        i += 1;
    }
    proof {
        assert(s@.take(n as int) =~= s@);
    }
}

/// Encode one key/value pair as `key=value` with a trailing tab, escaping
/// tab, line feed and backslash inside either half.
pub fn encode_ltsv(key: &str, value: &str) -> (r: String)
    ensures
        r@ == encode_pair(key@, value@),
{
    let mut encoded = String::new();
    push_escaped(&mut encoded, key);
    encoded.push('=');
    push_escaped(&mut encoded, value);
    encoded.push('\t');
    proof {
        assert(encoded@ =~= encode_pair(key@, value@));
    }
    encoded
}

/// The concatenation of the encodings of all pairs of a record.
pub open spec fn encode_pairs(ps: Seq<SpecPair>) -> Seq<char>
    decreases ps.len(),
{
    if ps.len() == 0 {
        Seq::empty()
    } else {
        encode_pairs(ps.drop_last()) + encode_pair(ps.last().0, ps.last().1)
    }
}

/// The encoding of a whole record: every pair's encoding in order, then
/// one line terminator for the record.
pub open spec fn encode_record_spec(ps: Seq<SpecPair>) -> Seq<char> {
    encode_pairs(ps) + seq!['\n']
}

/// Encode a whole record: each pair in order, then one line terminator.
pub fn encode_record(pairs: &Vec<(String, String)>) -> (r: String)
    ensures
        r@ == encode_record_spec(pairs.deep_view()),
{
    let mut encoded = String::new();
    let mut i: usize = 0;
    while i < pairs.len()
        invariant
            i <= pairs.len(),
            encoded@ == encode_pairs(pairs.deep_view().take(i as int)),
        decreases pairs.len() - i,
    {
        proof {
            assert(pairs.deep_view().take(i as int + 1).drop_last() =~= pairs.deep_view().take(
                i as int,
            ));
        }
        let one = encode_ltsv(pairs[i].0.as_str(), pairs[i].1.as_str());
        encoded.append(one.as_str());
        i += 1;
    }
    proof {
        assert(pairs.deep_view().take(pairs.len() as int) =~= pairs.deep_view());
    }
    encoded.push('\n');
    proof {
        assert(encoded@ =~= encode_record_spec(pairs.deep_view()));
    }
    encoded
}

/// No occurrence of `c` anywhere in `s`.
pub open spec fn no_char(s: Seq<char>, c: char) -> bool {
    forall|i: int| 0 <= i < s.len() ==> s[i] != c
}

/// A decoder that is mid-line and not mid-escape.
pub open spec fn mid_line(st: DecodeState) -> bool {
    &&& !st.failed
    &&& !st.terminal
    &&& !st.escape
    &&& st.pairs.len() >= 1
}

/// The state `st` with `s` appended to whichever half of the last pair is
/// active.
pub open spec fn append_seq(st: DecodeState, s: Seq<char>) -> DecodeState {
    let last = st.pairs.last();
    let updated = if st.in_value {
        (last.0, last.1 + s)
    } else {
        (last.0 + s, last.1)
    };
    DecodeState { pairs: st.pairs.update(st.pairs.len() - 1, updated), ..st }
}

/// Decoding the encoding of one character restores that character, for
/// any character but `=`: the escaped reserved characters come back
/// verbatim, and everything else passes through.
proof fn lemma_escape_one_decodes(st: DecodeState, c: char)
    requires
        mid_line(st),
        c != '=',
    ensures
        decode_from(st, escape_one(c)) == append_active(st, c),
{
    reveal_with_fuel(decode_from, 3);
    if needs_escape(c) {
        assert(escape_one(c).drop_last() =~= seq!['\\']);
        assert(seq!['\\'].drop_last() =~= Seq::<char>::empty());
        assert(decode_from(st, seq!['\\']) == decode_step(st, '\\'));
        assert(decode_from(st, escape_one(c)) =~= append_active(st, c));
    } else {
        assert(escape_one(c).drop_last() =~= Seq::<char>::empty());
        assert(decode_from(st, escape_one(c)) == decode_step(st, c));
    }
}

/// Decoding the encoding of a whole key or value appends exactly its
/// characters to the active half, as long as it contains no literal `=`.
proof fn lemma_escape_seq_decodes(st: DecodeState, s: Seq<char>)
    requires
        mid_line(st),
        no_char(s, '='),
    ensures
        decode_from(st, escape_seq(s)) == append_seq(st, s),
    decreases s.len(),
{
    if s.len() == 0 {
        assert(append_seq(st, s).pairs =~~= st.pairs);
        assert(decode_from(st, escape_seq(s)) =~= append_seq(st, s));
    } else {
        lemma_escape_seq_decodes(st, s.drop_last());
        let st1 = append_seq(st, s.drop_last());
        lemma_decode_from_append(st, escape_seq(s.drop_last()), escape_one(s.last()));
        lemma_escape_one_decodes(st1, s.last());
        assert(append_active(st1, s.last()).pairs =~~= append_seq(st, s).pairs);
        assert(decode_from(st, escape_seq(s)) =~= append_seq(st, s));
    }
}

/// Decoding the encoding of one pair, from mid-line in key mode, fills the
/// last pair with exactly that key and value and opens a fresh empty pair,
/// as long as neither half contains a literal `=`.
proof fn lemma_encode_pair_decodes(st: DecodeState, k: Seq<char>, v: Seq<char>)
    requires
        mid_line(st),
        !st.in_value,
        no_char(k, '='),
        no_char(v, '='),
    ensures
        decode_from(st, encode_pair(k, v)) == (DecodeState {
            pairs: st.pairs.update(
                st.pairs.len() - 1,
                (st.pairs.last().0 + k, st.pairs.last().1 + v),
            ).push((Seq::<char>::empty(), Seq::<char>::empty())),
            ..st
        }),
{
    reveal_with_fuel(decode_from, 3);
    let a = escape_seq(k);
    let b = seq!['='];
    let c = escape_seq(v);
    let d = seq!['\t'];
    assert(encode_pair(k, v) == a + b + c + d);
    lemma_decode_from_append(st, a + b + c, d);
    lemma_decode_from_append(st, a + b, c);
    lemma_decode_from_append(st, a, b);
    lemma_escape_seq_decodes(st, k);
    let st1 = append_seq(st, k);
    assert(seq!['='].drop_last() =~= Seq::<char>::empty());
    assert(decode_from(st1, b) == decode_step(st1, '='));
    let st2 = decode_step(st1, '=');
    lemma_escape_seq_decodes(st2, v);
    let st3 = append_seq(st2, v);
    assert(seq!['\t'].drop_last() =~= Seq::<char>::empty());
    assert(decode_from(st3, d) == decode_step(st3, '\t'));
    let st4 = decode_step(st3, '\t');
    assert(st4.pairs =~~= st.pairs.update(
        st.pairs.len() - 1,
        (st.pairs.last().0 + k, st.pairs.last().1 + v),
    ).push((Seq::<char>::empty(), Seq::<char>::empty())));
    assert(decode_from(st, encode_pair(k, v)) =~= DecodeState {
        pairs: st.pairs.update(
            st.pairs.len() - 1,
            (st.pairs.last().0 + k, st.pairs.last().1 + v),
        ).push((Seq::<char>::empty(), Seq::<char>::empty())),
        ..st
    });
}

/// Decoding the concatenated encodings of a record's pairs, from mid-line
/// in key mode with an empty pair open, rebuilds exactly those pairs and
/// leaves a fresh empty pair open.
proof fn lemma_encode_pairs_decode(st: DecodeState, r: Seq<SpecPair>)
    requires
        mid_line(st),
        !st.in_value,
        st.pairs.last() == (Seq::<char>::empty(), Seq::<char>::empty()),
        forall|i: int| 0 <= i < r.len() ==> no_char(#[trigger] r[i].0, '=') && no_char(r[i].1, '='),
    ensures
        decode_from(st, encode_pairs(r)) == (DecodeState {
            pairs: st.pairs.drop_last() + r.push((Seq::<char>::empty(), Seq::<char>::empty())),
            ..st
        }),
    decreases r.len(),
{
    if r.len() == 0 {
        assert(st.pairs.drop_last() + r.push((Seq::<char>::empty(), Seq::<char>::empty()))
            =~~= st.pairs);
        assert(decode_from(st, encode_pairs(r)) =~= DecodeState {
            pairs: st.pairs.drop_last() + r.push((Seq::<char>::empty(), Seq::<char>::empty())),
            ..st
        });
    } else {
        assert(forall|i: int|
            0 <= i < r.drop_last().len() ==> r.drop_last()[i] == #[trigger] r[i]);
        lemma_encode_pairs_decode(st, r.drop_last());
        let st1 = decode_from(st, encode_pairs(r.drop_last()));
        lemma_decode_from_append(st, encode_pairs(r.drop_last()), encode_pair(r.last().0, r.last().1));
        lemma_encode_pair_decodes(st1, r.last().0, r.last().1);
        assert(decode_from(st, encode_pairs(r)).pairs =~~= st.pairs.drop_last() + r.push(
            (Seq::<char>::empty(), Seq::<char>::empty()),
        ));
        assert(decode_from(st, encode_pairs(r)) =~= DecodeState {
            pairs: st.pairs.drop_last() + r.push((Seq::<char>::empty(), Seq::<char>::empty())),
            ..st
        });
    }
}

/// Round trip over a whole record: encoding a record and decoding the
/// result reproduces its pairs exactly, in order — the literal tabs, line
/// feeds and backslashes inside keys and values come back verbatim —
/// followed by the one empty pair that the record's final trailing tab
/// opens. Only a literal `=` inside a key or value, which the encoder
/// deliberately leaves unescaped, is excluded.
pub proof fn lemma_record_round_trip(r: Seq<SpecPair>)
    requires
        forall|i: int| 0 <= i < r.len() ==> no_char(#[trigger] r[i].0, '=') && no_char(r[i].1, '='),
    ensures
        !decode_chars(encode_record_spec(r)).failed,
        decode_chars(encode_record_spec(r)).pairs == r.push(
            (Seq::<char>::empty(), Seq::<char>::empty()),
        ),
{
    reveal_with_fuel(decode_from, 3);
    lemma_encode_pairs_decode(init_state(), r);
    let st1 = decode_from(init_state(), encode_pairs(r));
    lemma_decode_from_append(init_state(), encode_pairs(r), seq!['\n']);
    assert(seq!['\n'].drop_last() =~= Seq::<char>::empty());
    assert(decode_from(st1, seq!['\n']) == decode_step(st1, '\n'));
    assert(decode_chars(encode_record_spec(r)).pairs =~~= r.push(
        (Seq::<char>::empty(), Seq::<char>::empty()),
    ));
}

/// Round trip over one pair: decoding the encoder's output for `(k, v)`
/// yields `(k, v)` back as the first pair — embedded tabs, line feeds and
/// backslashes included — followed by the empty pair that the trailing
/// tab opens. A literal `=` in either half is excluded: the encoder does
/// not escape it, and the round trip is not identity on it.
pub proof fn lemma_pair_round_trip(k: Seq<char>, v: Seq<char>)
    requires
        no_char(k, '='),
        no_char(v, '='),
    ensures
        !decode_chars(encode_pair(k, v)).failed,
        decode_chars(encode_pair(k, v)).pairs == seq![
            (k, v),
            (Seq::<char>::empty(), Seq::<char>::empty()),
        ],
{
    lemma_encode_pair_decodes(init_state(), k, v);
    assert(decode_chars(encode_pair(k, v)).pairs =~~= seq![
        (k, v),
        (Seq::<char>::empty(), Seq::<char>::empty()),
    ]);
}

/// A decoder that has seen neither a failure nor a terminator stays that
/// way over input free of literal line feeds.
proof fn lemma_decode_from_no_newline(st: DecodeState, s: Seq<char>)
    requires
        !st.failed,
        !st.terminal,
        no_char(s, '\n'),
    ensures
        !decode_from(st, s).failed,
        !decode_from(st, s).terminal,
    decreases s.len(),
{
    if s.len() > 0 {
        lemma_decode_from_no_newline(st, s.drop_last());
    }
}

/// A line with no literal line feed — in particular the last line of a
/// stream, handed over without its terminator — always decodes without
/// failure.
pub proof fn lemma_line_without_terminator(s: Seq<char>)
    requires
        no_char(s, '\n'),
    ensures
        !decode_chars(s).failed,
        !decode_chars(s).terminal,
{
    lemma_decode_from_no_newline(init_state(), s);
}

/// Every encoded record ends in exactly one line terminator: whatever was
/// decoded, a matched record is emitted as a terminated output line.
pub proof fn lemma_output_terminated(ps: Seq<SpecPair>)
    ensures
        encode_record_spec(ps).len() >= 1,
        encode_record_spec(ps).last() == '\n',
{
}

} // verus!
