//! Helpers for turning raw command-line values into library inputs.

use vstd::prelude::*;
use vstd::string::StrSliceExecFns;

verus! {

/// `j` is the position of the first comma in `s`.
pub open spec fn is_first_comma(s: Seq<char>, j: int) -> bool {
    0 <= j < s.len() && s[j] == ',' && (forall|k: int| 0 <= k < j ==> s[k] != ',')
}

/// The pieces of `s` between its commas, in order; a sequence without a
/// comma is one piece, so the result always holds at least one piece.
pub open spec fn spec_split_commas(s: Seq<char>) -> Seq<Seq<char>>
    decreases s.len(),
{
    if exists|j: int| is_first_comma(s, j) {
        let i = choose|j: int| is_first_comma(s, j);
        seq![s.subrange(0, i)] + spec_split_commas(s.subrange(i + 1, s.len() as int))
    } else {
        seq![s]
    }
}

proof fn lemma_first_comma_unique(s: Seq<char>, j: int)
    requires
        is_first_comma(s, j),
    ensures
        (choose|j2: int| is_first_comma(s, j2)) == j,
{
    let c = choose|j2: int| is_first_comma(s, j2);
    assert(is_first_comma(s, c));
    if c < j {
        assert(s[c] != ',');
    } else if j < c {
        assert(s[j] != ',');
    }
}

/// Split a comma-separated device list from the command line into its
/// pieces; an empty argument means no list was given.
#[verifier::loop_isolation(false)]
pub fn device_list_from_cli_arg(device_list: &str) -> (r: Option<Vec<String>>)
    ensures
        r is None <==> device_list@.len() == 0,
        r matches Some(v) ==> {
            &&& v@.len() == spec_split_commas(device_list@).len()
            &&& (forall|k: int|
                0 <= k < v@.len() ==> (#[trigger] v@[k])@ == spec_split_commas(
                    device_list@,
                )[k])
        },
{
    let n = device_list.unicode_len();
    if n == 0 {
        return None;
    }
    let ghost s = device_list@;
    let mut results: Vec<String> = Vec::new();
    let mut start: usize = 0;
    let mut i: usize = 0;
    proof {
        assert(s.subrange(0, n as int) =~= s);
        assert(results@.map_values(|p: String| p@) =~= Seq::<Seq<char>>::empty());
        assert(Seq::<Seq<char>>::empty() + spec_split_commas(s) =~= spec_split_commas(s));
    }
    while i < n
        invariant
            0 <= start <= i <= n,
            forall|k: int| start <= k < i ==> s[k] != ',',
            spec_split_commas(s) == results@.map_values(|p: String| p@) + spec_split_commas(
                s.subrange(start as int, n as int),
            ),
        decreases n - i,
    {
        if device_list.get_char(i) == ',' {
            let piece = device_list.substring_char(start, i).to_owned();
            proof {
                let rem = s.subrange(start as int, n as int);
                assert(rem[i - start] == s[i as int]);
                assert forall|k: int| 0 <= k < i - start implies rem[k] != ',' by {
                    assert(rem[k] == s[start + k]);
                }
                assert(is_first_comma(rem, i - start));
                lemma_first_comma_unique(rem, i - start);
                assert(rem.subrange(0, i - start) =~= s.subrange(start as int, i as int));
                assert(rem.subrange(i - start + 1, rem.len() as int) =~= s.subrange(
                    i + 1,
                    n as int,
                ));
                assert((results@.push(piece)).map_values(|p: String| p@) =~= results@.map_values(
                    |p: String| p@,
                ).push(piece@));
                assert(results@.map_values(|p: String| p@) + spec_split_commas(rem)
                    =~= results@.map_values(|p: String| p@).push(piece@) + spec_split_commas(
                    s.subrange(i + 1, n as int),
                ));
            }
            results.push(piece);
            start = i + 1;
        }
        i += 1;
    }
    let piece = device_list.substring_char(start, n).to_owned();
    proof {
        let rem = s.subrange(start as int, n as int);
        assert forall|j: int| !is_first_comma(rem, j) by {
            if 0 <= j < rem.len() {
                assert(rem[j] == s[start + j]);
            }
        }
        assert(spec_split_commas(rem) == seq![rem]);
        assert(piece@ == rem);
        assert((results@.push(piece)).map_values(|p: String| p@) =~= results@.map_values(
            |p: String| p@,
        ).push(piece@));
        assert(results@.map_values(|p: String| p@).push(piece@) =~= results@.map_values(
            |p: String| p@,
        ) + seq![rem]);
    }
    results.push(piece);
    Some(results)
}

} // verus!
