//! Selection of the document path from process arguments.
//!
//! The caller hands the argument list in as plain strings; opening the file
//! itself is I/O and stays outside the library.

use vstd::prelude::*;
use vstd::string::StrSliceExecFns;

verus! {

/// The extension a document path must carry.
pub open spec fn json_literal() -> Seq<char> {
    seq!['j', 's', 'o', 'n']
}

/// The characters after the last dot of a path, or the whole path when it
/// has no dot: what `split('.')` would yield last.
pub open spec fn tail_segment(s: Seq<char>) -> Seq<char>
    decreases s.len(),
{
    if s.len() == 0 {
        s
    } else if s.last() == '.' {
        Seq::empty()
    } else {
        tail_segment(s.drop_last()).push(s.last())
    }
}

/// Behind the last dot, the tail segment is what follows that dot.
proof fn lemma_tail_segment_after_dot(s: Seq<char>, p: int)
    requires
        0 <= p < s.len(),
        s[p] == '.',
        forall|k: int| p < k < s.len() ==> s[k] != '.',
    ensures
        tail_segment(s) == s.subrange(p + 1, s.len() as int),
    decreases s.len(),
{
    if p == s.len() - 1 {
        assert(s.last() == '.');
        assert(s.subrange(p + 1, s.len() as int) =~= Seq::<char>::empty());
    } else {
        assert(s.last() != '.');
        lemma_tail_segment_after_dot(s.drop_last(), p);
        assert(s.drop_last().subrange(p + 1, s.len() - 1).push(s.last()) =~= s.subrange(
            p + 1,
            s.len() as int,
        ));
    }
}

/// With no dot anywhere, the tail segment is the whole path.
proof fn lemma_tail_segment_no_dot(s: Seq<char>)
    requires
        forall|k: int| 0 <= k < s.len() ==> s[k] != '.',
    ensures
        tail_segment(s) == s,
    decreases s.len(),
{
    if s.len() > 0 {
        lemma_tail_segment_no_dot(s.drop_last());
        assert(s.drop_last().push(s.last()) =~= s);
    }
}

/// Whether the path's extension — the text after its last dot, or the whole
/// path when it has none — is exactly `json`.
pub fn is_json_path(path: &str) -> (b: bool)
    ensures
        b == (tail_segment(path@) == json_literal()),
{
    let n = path.unicode_len();
    let mut j: usize = n;
    let mut found = false;
    while j > 0 && !found
        invariant
            j <= n,
            n == path@.len(),
            found ==> 1 <= j <= n && path@[j - 1] == '.' && forall|k: int|
                j <= k < n ==> path@[k] != '.',
            !found ==> forall|k: int| j <= k < n ==> path@[k] != '.',
        decreases j + (if found { 0int } else { 1int }),
    {
        if path.get_char(j - 1) == '.' {
            found = true;
        } else {
            j -= 1;
        }
    }
    let start = if found {
        j
    } else {
        proof {
            lemma_tail_segment_no_dot(path@);
        }
        0
    };
    proof {
        if found {
            lemma_tail_segment_after_dot(path@, j - 1);
        }
        assert(tail_segment(path@) =~= path@.subrange(start as int, n as int));
    }
    if n - start != 4 {
        proof {
            assert(tail_segment(path@).len() != 4);
        }
        return false;
    }
    let ok = path.get_char(start) == 'j' && path.get_char(start + 1) == 's' && path.get_char(
        start + 2,
    ) == 'o' && path.get_char(start + 3) == 'n';
    proof {
        if ok {
            assert(path@.subrange(start as int, n as int) =~= json_literal());
        } else {
            assert(path@.subrange(start as int, n as int) != json_literal());
        }
    }
    ok
}

/// The document path from the process arguments: the first real argument.
/// Callers must have checked that the argument exists and carries the
/// `json` extension; on anything else the program this library serves
/// refuses to run, so no such path reaches the parser.
pub fn parse_args<'a>(input_args: &'a Vec<String>) -> (file_path: &'a str)
    requires
        input_args@.len() >= 2,
        tail_segment(input_args@[1]@) == json_literal(),
    ensures
        file_path@ == input_args@[1]@,
{
    input_args[1].as_str()
}

} // verus!
