//! The field selector: splitting a comma-separated option string into key
//! names, and projecting a decoded record through a whitelist and a
//! blacklist of keys.

use vstd::prelude::*;
use crate::codec::SpecPair;

verus! {

/// Splitting on commas, defined over character sequences: one more element
/// per comma, and always at least one element — the empty string splits to
/// a single empty element, not to nothing.
pub open spec fn split_commas_spec(s: Seq<char>) -> Seq<Seq<char>>
    decreases s.len(),
{
    if s.len() == 0 {
        seq![Seq::<char>::empty()]
    } else {
        let rest = split_commas_spec(s.drop_last());
        if s.last() == ',' {
            rest.push(Seq::<char>::empty())
        } else {
            rest.update(rest.len() - 1, rest.last().push(s.last()))
        }
    }
}

/// Split `string` on every literal comma, with no escaping and no
/// trimming; the empty string yields one empty element.
pub fn split_commas(string: &str) -> (r: Vec<String>)
    ensures
        r.deep_view() == split_commas_spec(string@),
        r.len() >= 1,
{
    let mut values: Vec<String> = Vec::new();
    let mut current = String::new();
    let n: usize = string.unicode_len();
    let mut i: usize = 0;
    while i < n
        invariant
            n == string@.len(),
            i <= n,
            split_commas_spec(string@.take(i as int)) == values.deep_view().push(current@),
        decreases n - i,
    {
        let c = string.get_char(i);
        proof {
            assert(string@.take(i as int + 1).drop_last() =~= string@.take(i as int));
        }
        let ghost prev_values = values.deep_view();
        let ghost prev_current = current@;
        if c == ',' {
            values.push(current);
            current = String::new();
            proof {
                assert(values.deep_view() =~= prev_values.push(prev_current));
            }
        } else {
            current.push(c);
        }
        proof {
            assert(split_commas_spec(string@.take(i as int + 1)) =~= values.deep_view().push(
                current@,
            ));
        }
        i += 1;
    }
    proof {
        assert(string@.take(n as int) =~= string@);
    }
    values.push(current);
    proof {
        assert(values.deep_view() =~= split_commas_spec(string@));
    }
    values
}

/// Whether `key` occurs in `list`, compared character for character.
pub fn contains_key(list: &Vec<String>, key: &String) -> (r: bool)
    ensures
        r == list.deep_view().contains(key@),
{
    let mut i: usize = 0;
    while i < list.len()
        invariant
            i <= list.len(),
            forall|j: int| 0 <= j < i ==> list.deep_view()[j] != key@,
        decreases list.len() - i,
    {
        if list[i] == *key {
            proof {
                assert(list.deep_view()[i as int] == key@);
            }
            return true;
        }
        i += 1;
    }
    false
}

/// Whether a pair with key `k` survives selection: a non-empty whitelist
/// must contain it, and the blacklist must not — the blacklist wins over
/// whitelist membership, and an empty whitelist restricts nothing.
pub open spec fn keep_key(k: Seq<char>, wl: Seq<Seq<char>>, bl: Seq<Seq<char>>) -> bool {
    (wl.len() == 0 || wl.contains(k)) && !bl.contains(k)
}

/// The ordered subsequence of `rec` whose keys survive selection.
pub open spec fn selected(rec: Seq<SpecPair>, wl: Seq<Seq<char>>, bl: Seq<Seq<char>>) -> Seq<
    SpecPair,
>
    decreases rec.len(),
{
    if rec.len() == 0 {
        Seq::empty()
    } else {
        let rest = selected(rec.drop_last(), wl, bl);
        if keep_key(rec.last().0, wl, bl) {
            rest.push(rec.last())
        } else {
            rest
        }
    }
}

/// Project a record through the whitelist and blacklist, keeping the
/// surviving pairs in their original order.
pub fn select_fields(
    record: &Vec<(String, String)>,
    whitelist: &Vec<String>,
    blacklist: &Vec<String>,
) -> (r: Vec<(String, String)>)
    ensures
        r.deep_view() == selected(record.deep_view(), whitelist.deep_view(), blacklist.deep_view()),
{
    let mut out: Vec<(String, String)> = Vec::new();
    let mut i: usize = 0;
    while i < record.len()
        invariant
            i <= record.len(),
            out.deep_view() == selected(
                record.deep_view().take(i as int),
                whitelist.deep_view(),
                blacklist.deep_view(),
            ),
        decreases record.len() - i,
    {
        proof {
            assert(record.deep_view().take(i as int + 1).drop_last() =~= record.deep_view().take(
                i as int,
            ));
        }
        let keep = (whitelist.len() == 0 || contains_key(whitelist, &record[i].0))
            && !contains_key(blacklist, &record[i].0);
        if keep {
            let ghost prev_out = out.deep_view();
            let pair = (record[i].0.clone(), record[i].1.clone());
            out.push(pair);
            proof {
                assert(out.deep_view() =~= prev_out.push(record.deep_view()[i as int]));
            }
        }
        i += 1;
    }
    proof {
        assert(record.deep_view().take(record.len() as int) =~= record.deep_view());
    }
    out
}

} // verus!
