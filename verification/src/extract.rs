//! The archive extractor's naming contract.
//!
//! Unpacking an archive is expected to leave exactly one content file,
//! named by convention rather than discovered by scanning: the archive's
//! stem, with any trailing ".tar" parts removed, carrying the extension
//! ".xml".

use vstd::prelude::*;
use vstd::string::{StrSliceExecFns, StringExecFns};
use crate::sorter::{stem_of, stem_len_exec};
use crate::text::chars_of;

verus! {

/// The stem with every trailing ".tar" removed.
pub open spec fn trim_tar(s: Seq<char>) -> Seq<char>
    decreases s.len(),
{
    if s.len() >= 4 && s.subrange(s.len() - 4, s.len() as int) == seq!['.', 't', 'a', 'r'] {
        trim_tar(s.take(s.len() - 4))
    } else {
        s
    }
}

/// The name of the one content file an archive unpacks to.
pub open spec fn output_name_spec(archive_name: Seq<char>) -> Seq<char> {
    trim_tar(stem_of(archive_name)) + seq!['.', 'x', 'm', 'l']
}

fn trim_tar_exec<'a>(s: &'a str) -> (r: &'a str)
    ensures
        r@ == trim_tar(s@),
    decreases s@.len(),
{
    let n = s.unicode_len();
    if n >= 4 {
        let c1 = s.get_char(n - 4);
        let c2 = s.get_char(n - 3);
        let c3 = s.get_char(n - 2);
        let c4 = s.get_char(n - 1);
        if c1 == '.' && c2 == 't' && c3 == 'a' && c4 == 'r' {
            proof {
                assert(s@.subrange(n as int - 4, n as int) =~= seq!['.', 't', 'a', 'r']);
            }
            let shorter = s.substring_char(0, n - 4);
            proof {
                assert(shorter@ == s@.take(n as int - 4));
            }
            return trim_tar_exec(shorter);
        }
        proof {
            let tail = s@.subrange(n as int - 4, n as int);
            assert(tail[0] == s@[n as int - 4]);
            assert(tail[1] == s@[n as int - 3]);
            assert(tail[2] == s@[n as int - 2]);
            assert(tail[3] == s@[n as int - 1]);
            assert(tail != seq!['.', 't', 'a', 'r']);
        }
        return s;
    }
    s
}

/// Derives the output file name for one archive: its stem, with any
/// trailing ".tar" removed, and the extension ".xml" appended.
pub fn output_file_name(archive_name: &str) -> (r: String)
    ensures
        r@ == output_name_spec(archive_name@),
{
    let chars = chars_of(archive_name);
    let sl = stem_len_exec(&chars);
    proof {
        assert(stem_of(archive_name@) == archive_name@.take(sl as int));
    }
    let stem = archive_name.substring_char(0, sl);
    let trimmed = trim_tar_exec(stem);
    let mut r = String::from_str(trimmed);
    r.append(".xml");
    proof {
        reveal_strlit(".xml");
        assert(".xml"@ =~= seq!['.', 'x', 'm', 'l']);
    }
    r
}

} // verus!
