//! How a script file is cut into the sources that are run one after another.

use crate::ops::string_views;
use vstd::prelude::*;

verus! {

/// The pieces of `s` between the occurrences of `sep`, taken from the left
/// without overlap, with `cur` put in front of the first piece.
pub open spec fn split_from(s: Seq<char>, sep: Seq<char>, cur: Seq<char>) -> Seq<Seq<char>>
    decreases s.len(),
{
    if sep.len() == 0 || s.len() < sep.len() {
        seq![cur + s]
    } else if s.take(sep.len() as int) == sep {
        seq![cur] + split_from(s.skip(sep.len() as int), sep, Seq::empty())
    } else {
        split_from(s.skip(1), sep, cur.push(s[0]))
    }
}

/// The pieces of `s` between the occurrences of `sep`.
pub open spec fn split_on(s: Seq<char>, sep: Seq<char>) -> Seq<Seq<char>> {
    split_from(s, sep, Seq::empty())
}

/// `str::split` of std with a string pattern, collected: the pieces of `s`
/// between the occurrences of `sep`, found from the left without overlap.
#[verifier::external_body]
fn str_split(s: &str, sep: &str) -> (r: Vec<String>)
    requires
        sep@.len() > 0,
    ensures
        string_views(r@) == split_on(s@, sep@),
{
    s.split(sep).map(String::from).collect()
}

/// The line that separates the sources of a script file.
pub open spec fn end_of_file_marker() -> Seq<char> {
    "// END_FILE"@
}

/// The sources of a script file, in order: the pieces between the lines
/// `// END_FILE`.
pub fn script_sources(content: &str) -> (r: Vec<String>)
    ensures
        string_views(r@) == split_on(content@, end_of_file_marker()),
        r@.len() >= 1,
{
    proof {
        reveal_strlit("// END_FILE");
        lemma_split_from_nonempty(content@, end_of_file_marker(), Seq::empty());
    }
    str_split(content, "// END_FILE")
}

/// Splitting gives at least one piece.
pub proof fn lemma_split_from_nonempty(s: Seq<char>, sep: Seq<char>, cur: Seq<char>)
    ensures
        split_from(s, sep, cur).len() >= 1,
    decreases s.len(),
{
    if sep.len() == 0 || s.len() < sep.len() {
    } else if s.take(sep.len() as int) == sep {
        lemma_split_from_nonempty(s.skip(sep.len() as int), sep, Seq::empty());
    } else {
        lemma_split_from_nonempty(s.skip(1), sep, cur.push(s[0]));
    }
}

} // verus!
