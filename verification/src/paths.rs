//! Names of files within a directory.

use crate::text::{append_text, chars_of, owned};
use vstd::prelude::*;

verus! {

/// The name of a file in a directory; the name is relative.
pub open spec fn in_directory(dir: Seq<char>, name: Seq<char>) -> Seq<char> {
    if dir.len() == 0 || dir.last() == '/' {
        dir + name
    } else {
        dir + "/"@ + name
    }
}

/// The name of a file in a directory.
pub fn path_in(dir: &str, name: &str) -> (r: String)
    ensures
        r@ == in_directory(dir@, name@),
{
    let cs = chars_of(dir);
    let mut out = owned(dir);
    if cs.len() > 0 && cs[cs.len() - 1] != '/' {
        append_text(&mut out, "/");
    }
    append_text(&mut out, name);
    out
}

} // verus!
