//! A simple function-signature scan over composed kernel source.
//!
//! A signature is a return word and a name word separated by
//! whitespace, a parenthesized parameter list free of nested
//! parentheses, and an opening brace: the shape `ret name(params) {`.
//! Words are ASCII identifiers. The scan walks the text left to right;
//! matches do not overlap, and scanning resumes after each match.

use vstd::prelude::*;
use crate::strutil::{is_space_char, is_digit_char, char_is_space, char_is_digit, vec_slice, string_of};

verus! {

/// One discovered kernel signature.
pub struct Function {
    pub ret: String,
    pub name: String,
    pub params: String,
}

impl Function {
    /// The signature rendered as a declaration.
    pub fn render(&self) -> (r: String)
        ensures
            r@ == self.ret@ + " "@ + self.name@ + "("@ + self.params@ + ");"@,
    {
        let mut s = self.ret.clone();
        s.append(" ");
        s.append(self.name.as_str());
        s.append("(");
        s.append(self.params.as_str());
        s.append(");");
        s
    }
}

/// An ASCII identifier may start with a letter or an underscore.
pub open spec fn is_ident_start(c: char) -> bool {
    (65 <= c as u32 <= 90) || (97 <= c as u32 <= 122) || c == '_'
}

/// Word characters continue an identifier.
pub open spec fn is_word_char(c: char) -> bool {
    is_ident_start(c) || is_digit_char(c)
}

/// Parameter text runs up to the closing parenthesis.
pub open spec fn is_nonparen(c: char) -> bool {
    c != '(' && c != ')'
}

/// The length of the run of characters satisfying `p` from `i`.
pub open spec fn run_len(s: Seq<char>, i: int, p: spec_fn(char) -> bool) -> int
    decreases s.len() - i,
{
    if i < 0 || i >= s.len() || !p(s[i]) {
        0int
    } else {
        1 + run_len(s, i + 1, p)
    }
}

/// A scan that stops at `m` has found exactly the run.
pub proof fn lemma_run_len_eq(s: Seq<char>, i: int, m: int, p: spec_fn(char) -> bool)
    requires
        0 <= i <= m <= s.len(),
        forall|k: int| i <= k < m ==> p(s[k]),
        m == s.len() || !p(s[m]),
    ensures
        run_len(s, i, p) == m - i,
    decreases m - i,
{
    if i < m {
        lemma_run_len_eq(s, i + 1, m, p);
    }
}

/// The signature starting exactly at `i`, if the text from `i` has the
/// shape `ret name(params) {`: the two words, the parameter text, and
/// the position just past the brace.
pub open spec fn match_at(s: Seq<char>, i: int) -> Option<(Seq<char>, Seq<char>, Seq<char>, int)> {
    if !(0 <= i < s.len() && is_ident_start(s[i])) {
        None
    } else {
        let j1 = i + run_len(s, i, |c: char| is_word_char(c));
        let j2 = j1 + run_len(s, j1, |c: char| is_space_char(c));
        if j2 == j1 || !(j2 < s.len() && is_ident_start(s[j2])) {
            None
        } else {
            let j3 = j2 + run_len(s, j2, |c: char| is_word_char(c));
            let j4 = j3 + run_len(s, j3, |c: char| is_space_char(c));
            if !(j4 < s.len() && s[j4] == '(') {
                None
            } else {
                let j5 = j4 + 1 + run_len(s, j4 + 1, |c: char| is_nonparen(c));
                if !(j5 < s.len() && s[j5] == ')') {
                    None
                } else {
                    let j6 = j5 + 1 + run_len(s, j5 + 1, |c: char| is_space_char(c));
                    if !(j6 < s.len() && s[j6] == '{') {
                        None
                    } else {
                        Some(
                            (
                                s.subrange(i, j1),
                                s.subrange(j2, j3),
                                s.subrange(j4 + 1, j5),
                                j6 + 1,
                            ),
                        )
                    }
                }
            }
        }
    }
}

/// Every signature found scanning from `i`: the leftmost match first,
/// then the scan resumes where the match ended.
pub open spec fn spec_functions(s: Seq<char>, i: int) -> Seq<(Seq<char>, Seq<char>, Seq<char>)>
    decreases s.len() - i,
{
    if !(0 <= i < s.len()) {
        Seq::empty()
    } else {
        match match_at(s, i) {
            Some((r, n, p, end)) => if i < end <= s.len() {
                seq![(r, n, p)] + spec_functions(s, end)
            } else {
                seq![(r, n, p)]
            },
            None => spec_functions(s, i + 1),
        }
    }
}

/// The view of a discovered signature list.
pub open spec fn functions_view(fs: Seq<Function>) -> Seq<(Seq<char>, Seq<char>, Seq<char>)> {
    fs.map_values(|f: Function| (f.ret@, f.name@, f.params@))
}

/// Scans forward over word characters.
fn scan_word(s: &Vec<char>, i: usize) -> (j: usize)
    requires
        i <= s@.len(),
    ensures
        i <= j <= s@.len(),
        j == i + run_len(s@, i as int, |c: char| is_word_char(c)),
{
    let mut j: usize = i;
    while j < s.len() && (char_is_digit(s[j]) || is_ident_start_exec(s[j]))
        invariant
            i <= j <= s@.len(),
            forall|k: int| i <= k < j ==> is_word_char(#[trigger] s@[k]),
        decreases s@.len() - j,
    {
        j = j + 1;
    }
    proof {
        lemma_run_len_eq(s@, i as int, j as int, |c: char| is_word_char(c));
    }
    j
}

/// Scans forward over whitespace.
fn scan_space(s: &Vec<char>, i: usize) -> (j: usize)
    requires
        i <= s@.len(),
    ensures
        i <= j <= s@.len(),
        j == i + run_len(s@, i as int, |c: char| is_space_char(c)),
{
    let mut j: usize = i;
    while j < s.len() && char_is_space(s[j])
        invariant
            i <= j <= s@.len(),
            forall|k: int| i <= k < j ==> is_space_char(#[trigger] s@[k]),
        decreases s@.len() - j,
    {
        j = j + 1;
    }
    proof {
        lemma_run_len_eq(s@, i as int, j as int, |c: char| is_space_char(c));
    }
    j
}

/// Scans forward over parameter text.
fn scan_nonparen(s: &Vec<char>, i: usize) -> (j: usize)
    requires
        i <= s@.len(),
    ensures
        i <= j <= s@.len(),
        j == i + run_len(s@, i as int, |c: char| is_nonparen(c)),
{
    let mut j: usize = i;
    while j < s.len() && s[j] != '(' && s[j] != ')'
        invariant
            i <= j <= s@.len(),
            forall|k: int| i <= k < j ==> is_nonparen(#[trigger] s@[k]),
        decreases s@.len() - j,
    {
        j = j + 1;
    }
    proof {
        lemma_run_len_eq(s@, i as int, j as int, |c: char| is_nonparen(c));
    }
    j
}

/// Executable test matching `is_ident_start`.
fn is_ident_start_exec(c: char) -> (r: bool)
    ensures
        r == is_ident_start(c),
{
    let u = c as u32;
    (65 <= u && u <= 90) || (97 <= u && u <= 122) || c == '_'
}

/// Tries to match a signature starting exactly at `i`.
fn try_match(s: &Vec<char>, i: usize) -> (r: Option<(Function, usize)>)
    requires
        i < s@.len(),
    ensures
        match r {
            Some((f, end)) => match_at(s@, i as int) == Some(
                (f.ret@, f.name@, f.params@, end as int),
            ) && i < end <= s@.len(),
            None => match_at(s@, i as int) is None,
        },
{
    if !is_ident_start_exec(s[i]) {
        return None;
    }
    let j1 = scan_word(s, i);
    let j2 = scan_space(s, j1);
    if j2 == j1 {
        return None;
    }
    if !(j2 < s.len() && is_ident_start_exec(s[j2])) {
        return None;
    }
    let j3 = scan_word(s, j2);
    let j4 = scan_space(s, j3);
    if !(j4 < s.len() && s[j4] == '(') {
        return None;
    }
    let j5 = scan_nonparen(s, j4 + 1);
    if !(j5 < s.len() && s[j5] == ')') {
        return None;
    }
    let j6 = scan_space(s, j5 + 1);
    if !(j6 < s.len() && s[j6] == '{') {
        return None;
    }
    let ret = string_of(&vec_slice(s, i, j1));
    let name = string_of(&vec_slice(s, j2, j3));
    let params = string_of(&vec_slice(s, j4 + 1, j5));
    Some((Function { ret, name, params }, j6 + 1))
}

/// Lists the kernel signatures discoverable in composed source by the
/// left-to-right signature scan.
pub fn list_functions(src: String) -> (r: Vec<Function>)
    ensures
        functions_view(r@) == spec_functions(src@, 0),
{
    let cs = crate::strutil::chars_of(src.as_str());
    let mut out: Vec<Function> = Vec::new();
    let mut i: usize = 0;
    proof {
        assert(functions_view(out@) + spec_functions(cs@, 0) =~= spec_functions(cs@, 0));
    }
    while i < cs.len()
        invariant
            i <= cs@.len(),
            cs@ == src@,
            spec_functions(src@, 0) == functions_view(out@) + spec_functions(cs@, i as int),
        decreases cs@.len() - i,
    {
        let ghost fv0 = functions_view(out@);
        match try_match(&cs, i) {
            Some((f, end)) => {
                let ghost trip = (f.ret@, f.name@, f.params@);
                out.push(f);
                proof {
                    assert(functions_view(out@) =~= fv0.push(trip));
                    assert(fv0 + (seq![trip] + spec_functions(cs@, end as int))
                        =~= functions_view(out@) + spec_functions(cs@, end as int));
                }
                i = end;
            },
            None => {
                i = i + 1;
            },
        }
    }
    proof {
        assert(spec_functions(cs@, i as int) =~= Seq::<(Seq<char>, Seq<char>, Seq<char>)>::empty());
        assert(functions_view(out@) + Seq::<(Seq<char>, Seq<char>, Seq<char>)>::empty()
            =~= functions_view(out@));
    }
    out
}

} // verus!
