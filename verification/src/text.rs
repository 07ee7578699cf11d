//! Character-level helpers shared by the sorter and the field extractor.

use vstd::prelude::*;
use vstd::string::StrSliceExecFns;

verus! {

/// Collects the characters of a string slice into a vector, so that the
/// rest of the library can work on indexed character sequences.
pub fn chars_of(s: &str) -> (v: Vec<char>)
    ensures
        v@ == s@,
{
    let n = s.unicode_len();
    let mut v: Vec<char> = Vec::new();
    let mut i: usize = 0;
    while i < n
        invariant
            i <= n,
            n == s@.len(),
            v@ =~= s@.take(i as int),
        decreases n - i,
    {
        let c = s.get_char(i);
        v.push(c);
        i += 1;
        proof {
            assert(v@ =~= s@.take(i as int));
        }
    }
    proof {
        assert(v@ =~= s@);
    }
    v
}

/// Case folding for the case-insensitive containment test: upper-case ASCII
/// letters are mapped to the code point of their lower-case form, every other
/// character to its own code point.
pub open spec fn fold_char(c: char) -> u32 {
    if ('A' as u32) <= (c as u32) && (c as u32) <= ('Z' as u32) {
        ((c as u32) + 32) as u32
    } else {
        c as u32
    }
}

pub open spec fn folded(s: Seq<char>) -> Seq<u32> {
    s.map_values(|c: char| fold_char(c))
}

/// `needle` occurs in `hay` when both are folded case-insensitively.
pub open spec fn contains_ci(hay: Seq<char>, needle: Seq<char>) -> bool {
    exists|k: int|
        0 <= k <= hay.len() - needle.len() && #[trigger] folded(hay).subrange(
            k,
            k + needle.len(),
        ) =~= folded(needle)
}

/// Executable case folding of a single character's code point.
fn fold_char_exec(c: char) -> (r: u32)
    ensures
        r == fold_char(c),
{
    let u = c as u32;
    if 65 <= u && u <= 90 {
        u + 32
    } else {
        u
    }
}

/// Whether the characters of `hay` starting at `k` match `needle` after folding.
fn matches_at(hay: &Vec<char>, needle: &Vec<char>, k: usize) -> (r: bool)
    requires
        k + needle@.len() <= hay@.len(),
    ensures
        r == (folded(hay@).subrange(k as int, k + needle@.len()) =~= folded(needle@)),
{
    let hlen = hay.len();
    let mut j: usize = 0;
    while j < needle.len()
        invariant
            j <= needle@.len(),
            hlen == hay@.len(),
            k + needle@.len() <= hay@.len(),
            forall|t: int| 0 <= t < j ==> folded(hay@)[k + t] == folded(needle@)[t],
        decreases needle@.len() - j,
    {
        let hc = fold_char_exec(hay[k + j]);
        let nc = fold_char_exec(needle[j]);
        if hc != nc {
            proof {
                assert(folded(hay@)[k + j] != folded(needle@)[j as int]);
                assert(!(folded(hay@).subrange(k as int, k + needle@.len()) =~= folded(
                    needle@,
                ))) by {
                    let sub = folded(hay@).subrange(k as int, k + needle@.len());
                    assert(sub[j as int] == folded(hay@)[k + j]);
                }
            }
            return false;
        }
        j += 1;
    }
    proof {
        assert(folded(hay@).subrange(k as int, k + needle@.len()) =~= folded(needle@));
    }
    true
}

/// Case-insensitive containment test used by the field extractor.
pub fn contains_ci_exec(hay: &Vec<char>, needle: &Vec<char>) -> (r: bool)
    ensures
        r == contains_ci(hay@, needle@),
{
    if needle.len() > hay.len() {
        return false;
    }
    let mut k: usize = 0;
    let last = hay.len() - needle.len();
    loop
        invariant
            needle@.len() <= hay@.len(),
            last == hay@.len() - needle@.len(),
            k <= last,
            forall|t: int|
                0 <= t < k ==> !(#[trigger] folded(hay@).subrange(t, t + needle@.len()) =~= folded(
                    needle@,
                )),
        decreases last - k,
    {
        if matches_at(hay, needle, k) {
            return true;
        }
        if k == last {
            return false;
        }
        k += 1;
    }
}

} // verus!
