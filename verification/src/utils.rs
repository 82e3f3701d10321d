//! Small helpers around repository references.

use vstd::prelude::*;
use crate::strutil::{chars_of, string_of, vec_slice};

verus! {

/// How many times a character occurs in a sequence.
pub open spec fn count_char(s: Seq<char>, c: char) -> int
    decreases s.len(),
{
    if s.len() == 0 {
        0int
    } else {
        (if s[0] == c {
            1int
        } else {
            0int
        }) + count_char(s.drop_first(), c)
    }
}

proof fn lemma_count_nonneg(s: Seq<char>, c: char)
    ensures
        count_char(s, c) >= 0,
    decreases s.len(),
{
    if s.len() > 0 {
        lemma_count_nonneg(s.drop_first(), c);
    }
}

/// Two distinct occurrences force a count of at least two.
proof fn lemma_two_occurrences(s: Seq<char>, c: char, i: int, j: int)
    requires
        0 <= i < j < s.len(),
        s[i] == c,
        s[j] == c,
    ensures
        count_char(s, c) >= 2,
    decreases s.len(),
{
    lemma_count_nonneg(s.drop_first(), c);
    if i == 0 {
        lemma_one_occurrence(s.drop_first(), c, j - 1);
    } else {
        lemma_two_occurrences(s.drop_first(), c, i - 1, j - 1);
    }
}

/// One occurrence forces a count of at least one.
proof fn lemma_one_occurrence(s: Seq<char>, c: char, i: int)
    requires
        0 <= i < s.len(),
        s[i] == c,
    ensures
        count_char(s, c) >= 1,
    decreases s.len(),
{
    lemma_count_nonneg(s.drop_first(), c);
    if i > 0 {
        lemma_one_occurrence(s.drop_first(), c, i - 1);
    }
}

/// The repository name of a `user/name` reference: the part after the
/// single slash.
pub fn repo_name(repo: &String) -> (r: String)
    requires
        count_char(repo@, '/') == 1,
    ensures
        exists|i: int|
            0 <= i < repo@.len() && repo@[i] == '/' && r@ == repo@.subrange(
                i + 1,
                repo@.len() as int,
            ),
{
    let cs = chars_of(repo.as_str());
    let mut i: usize = 0;
    while i < cs.len()
        invariant
            i <= cs@.len(),
            cs@ == repo@,
            count_char(repo@, '/') == 1,
            forall|j: int| 0 <= j < i ==> repo@[j] != '/',
        decreases cs@.len() - i,
    {
        if cs[i] == '/' {
            let rest = vec_slice(&cs, i + 1, cs.len());
            return string_of(&rest);
        }
        i = i + 1;
    }
    proof {
        lemma_no_occurrence(repo@, '/');
    }
    string_of(&cs)
}

/// No occurrence means a count of zero.
proof fn lemma_no_occurrence(s: Seq<char>, c: char)
    requires
        forall|j: int| 0 <= j < s.len() ==> s[j] != c,
    ensures
        count_char(s, c) == 0,
    decreases s.len(),
{
    if s.len() > 0 {
        assert(forall|j: int|
            0 <= j < s.drop_first().len() ==> #[trigger] s.drop_first()[j] == s[j + 1]);
        lemma_no_occurrence(s.drop_first(), c);
    }
}

} // verus!
