//! Values parameterized by the environment.
//!
//! A `ValueString` is a template: `$name` references are replaced by the
//! environment's bindings, longest keys first, and a result wrapped as
//! `$((`...`))` is evaluated arithmetically. A `Value<T>` is either a
//! static payload, independent of the environment, or such a template
//! that must parse to `T` after substitution.

use vstd::prelude::*;
use crate::env::{Environment, viewed_pairs};
use crate::error::ClmanError;
use crate::expr::{spec_eval_text, eval_text};
use crate::strutil::{
    chars_of,
    string_of,
    vec_slice,
    replace_all,
    replace_from,
    lex_le,
    chars_le,
    parse_unsigned,
    parse_signed,
    spec_parse_uint,
    spec_parse_sint,
};

verus! {

/// A template string, to be computed against an environment.
#[derive(Debug, Clone, PartialEq)]
pub struct ValueString(pub String);

impl ValueString {
    /// A template holding the given text.
    pub fn from_str(s: &str) -> (r: ValueString)
        ensures
            r.0@ == s@,
    {
        ValueString(s.to_owned())
    }
}

/// Anything that computes to a `T` against an environment.
pub trait Computable<T> {
    fn compute(&self, env: &Environment) -> Result<T, ClmanError>;
}

/// Substitution precedence: longer keys first, ties by code point
/// order, so replacing a short key never corrupts a longer key's token.
pub open spec fn pair_le(a: (Seq<char>, Seq<char>), b: (Seq<char>, Seq<char>)) -> bool {
    a.0.len() > b.0.len() || (a.0.len() == b.0.len() && lex_le(a.0, b.0))
}

pub open spec fn insert_ordered(
    x: (Seq<char>, Seq<char>),
    s: Seq<(Seq<char>, Seq<char>)>,
) -> Seq<(Seq<char>, Seq<char>)>
    decreases s.len(),
{
    if s.len() == 0 {
        seq![x]
    } else if pair_le(x, s[0]) {
        seq![x] + s
    } else {
        seq![s[0]] + insert_ordered(x, s.drop_first())
    }
}

/// Insertion sort of bindings by `pair_le`.
pub open spec fn sort_pairs(s: Seq<(Seq<char>, Seq<char>)>) -> Seq<(Seq<char>, Seq<char>)>
    decreases s.len(),
{
    if s.len() == 0 {
        Seq::empty()
    } else {
        insert_ordered(s[0], sort_pairs(s.drop_first()))
    }
}

/// The substitution order of an environment: every visible binding,
/// sorted by `pair_le`.
pub open spec fn subst_order(env: Environment) -> Seq<(Seq<char>, Seq<char>)> {
    sort_pairs(env.merged())
}

/// Applies each binding in order, replacing `$key` by the value.
pub open spec fn subst_pairs(s: Seq<char>, pairs: Seq<(Seq<char>, Seq<char>)>) -> Seq<char>
    decreases pairs.len(),
{
    if pairs.len() == 0 {
        s
    } else {
        subst_pairs(replace_from(s, seq!['$'] + pairs[0].0, pairs[0].1), pairs.drop_first())
    }
}

/// Whether the whole text is wrapped as `$((`...`))`.
pub open spec fn wrapped_expr(t: Seq<char>) -> bool {
    t.len() >= 3 && t.take(3) == seq!['$', '(', '('] && t.skip(t.len() - 2) == seq![')', ')']
}

/// Whether a `$` remains in the text. After substitution a leftover
/// `$` outside an arithmetic wrapper is an unresolved variable
/// reference, which is a hard error: silently emitting a literal
/// `$name` into generated device code is never correct.
pub open spec fn has_dollar(t: Seq<char>) -> bool {
    exists|i: int| 0 <= i < t.len() && t[i] == '$'
}

/// What a template computes to against a given set of bindings:
/// substitution in sorted order, then, when the result is wrapped as
/// `$((`...`))`, arithmetic evaluation of the interior.
pub open spec fn spec_compute_pairs(s: Seq<char>, pairs: Seq<(Seq<char>, Seq<char>)>) -> Option<
    Seq<char>,
> {
    let t = subst_pairs(s, sort_pairs(pairs));
    if wrapped_expr(t) {
        spec_eval_text(t.subrange(3, t.len() - 2))
    } else if has_dollar(t) {
        None
    } else {
        Some(t)
    }
}

/// What a template computes to: substitution over the environment's
/// visible bindings, then, when the result is wrapped as `$((`...`))`,
/// arithmetic evaluation of the interior.
pub open spec fn spec_compute_string(s: Seq<char>, env: Environment) -> Option<Seq<char>> {
    spec_compute_pairs(s, env.merged())
}

/// The character-sequence pairs of a vector of character-vector pairs.
pub open spec fn cpairs_view(s: Seq<(Vec<char>, Vec<char>)>) -> Seq<(Seq<char>, Seq<char>)> {
    s.map_values(|p: (Vec<char>, Vec<char>)| (p.0@, p.1@))
}

/// Executable comparison matching `pair_le`.
fn pair_le_exec(a: &(Vec<char>, Vec<char>), b: &(Vec<char>, Vec<char>)) -> (r: bool)
    ensures
        r == pair_le((a.0@, a.1@), (b.0@, b.1@)),
{
    if a.0.len() > b.0.len() {
        true
    } else if a.0.len() == b.0.len() {
        chars_le(&a.0, &b.0)
    } else {
        false
    }
}

/// A copy of a character-vector pair.
fn copy_pair(p: &(Vec<char>, Vec<char>)) -> (r: (Vec<char>, Vec<char>))
    ensures
        r.0@ == p.0@,
        r.1@ == p.1@,
{
    (vec_slice(&p.0, 0, p.0.len()), vec_slice(&p.1, 0, p.1.len()))
}

/// Inserting at the first position admissible by `pair_le` is what
/// `insert_ordered` does.
proof fn lemma_insert_ordered_at(
    x: (Seq<char>, Seq<char>),
    s: Seq<(Seq<char>, Seq<char>)>,
    i: int,
)
    requires
        0 <= i <= s.len(),
        forall|j: int| 0 <= j < i ==> !pair_le(x, #[trigger] s[j]),
        i == s.len() || pair_le(x, s[i]),
    ensures
        insert_ordered(x, s) == s.insert(i, x),
    decreases s.len(),
{
    if s.len() == 0 {
        assert(insert_ordered(x, s) =~= s.insert(0, x));
    } else if pair_le(x, s[0]) {
        assert(i == 0);
        assert(seq![x] + s =~= s.insert(0, x));
    } else {
        assert(forall|j: int|
            0 <= j < i - 1 ==> #[trigger] s.drop_first()[j] == s[j + 1]);
        lemma_insert_ordered_at(x, s.drop_first(), i - 1);
        assert(seq![s[0]] + s.drop_first().insert(i - 1, x) =~= s.insert(i, x));
    }
}

/// Inserts a binding at its ordered position.
fn insert_sorted_exec(x: (Vec<char>, Vec<char>), out: &mut Vec<(Vec<char>, Vec<char>)>)
    ensures
        cpairs_view(final(out)@) == insert_ordered((x.0@, x.1@), cpairs_view(old(out)@)),
{
    let mut i: usize = 0;
    while i < out.len()
        invariant
            i <= out@.len(),
            out@ == old(out)@,
            forall|j: int|
                0 <= j < i ==> !pair_le((x.0@, x.1@), #[trigger] cpairs_view(out@)[j]),
        decreases out@.len() - i,
    {
        if pair_le_exec(&x, &out[i]) {
            let ghost pre = cpairs_view(out@);
            out.insert(i, x);
            proof {
                assert(cpairs_view(out@) =~= pre.insert(i as int, (x.0@, x.1@)));
                lemma_insert_ordered_at((x.0@, x.1@), pre, i as int);
            }
            return ;
        }
        i = i + 1;
        proof {
            assert(cpairs_view(out@)[i - 1] == (out@[i - 1].0@, out@[i - 1].1@));
        }
    }
    let ghost pre = cpairs_view(out@);
    out.push(x);
    proof {
        assert(cpairs_view(out@) =~= pre.insert(pre.len() as int, (x.0@, x.1@)));
        lemma_insert_ordered_at((x.0@, x.1@), pre, pre.len() as int);
    }
}

/// Sorts bindings by `pair_le` (insertion sort, folding from the right).
fn sort_pairs_exec(v: &Vec<(Vec<char>, Vec<char>)>) -> (r: Vec<(Vec<char>, Vec<char>)>)
    ensures
        cpairs_view(r@) == sort_pairs(cpairs_view(v@)),
{
    let mut out: Vec<(Vec<char>, Vec<char>)> = Vec::new();
    let mut i: usize = v.len();
    proof {
        assert(cpairs_view(v@).skip(i as int) =~= Seq::<(Seq<char>, Seq<char>)>::empty());
        assert(cpairs_view(out@) =~= Seq::<(Seq<char>, Seq<char>)>::empty());
    }
    while i > 0
        invariant
            i <= v@.len(),
            cpairs_view(out@) == sort_pairs(cpairs_view(v@).skip(i as int)),
        decreases i,
    {
        i = i - 1;
        let x = copy_pair(&v[i]);
        insert_sorted_exec(x, &mut out);
        proof {
            let tail = cpairs_view(v@).skip(i as int);
            assert(tail[0] == (v@[i as int].0@, v@[i as int].1@));
            assert(tail.drop_first() =~= cpairs_view(v@).skip(i + 1));
        }
    }
    proof {
        assert(cpairs_view(v@).skip(0) =~= cpairs_view(v@));
    }
    out
}

/// Whether the text is wrapped as `$((`...`))`.
fn is_wrapped(v: &Vec<char>) -> (r: bool)
    ensures
        r == wrapped_expr(v@),
{
    let n = v.len();
    if n < 5 {
        proof {
            if n >= 3 && v@.take(3) == seq!['$', '(', '('] && v@.skip(n - 2) == seq![')', ')'] {
                assert(v@.take(3)[1] == v@[1]);
                assert(v@.take(3)[2] == v@[2]);
                assert(v@.skip(n - 2)[0] == v@[n - 2]);
                assert(v@.skip(n - 2)[1] == v@[n - 1]);
            }
        }
        return false;
    }
    let ok = v[0] == '$' && v[1] == '(' && v[2] == '(' && v[n - 2] == ')' && v[n - 1] == ')';
    proof {
        if ok {
            assert(v@.take(3) =~= seq!['$', '(', '(']);
            assert(v@.skip(n - 2) =~= seq![')', ')']);
        } else {
            if v@.take(3) == seq!['$', '(', '('] && v@.skip(n - 2) == seq![')', ')'] {
                assert(v@.take(3)[0] == v@[0]);
                assert(v@.take(3)[1] == v@[1]);
                assert(v@.take(3)[2] == v@[2]);
                assert(v@.skip(n - 2)[0] == v@[n - 2]);
                assert(v@.skip(n - 2)[1] == v@[n - 1]);
            }
        }
    }
    ok
}

/// Computes a template against an explicit set of bindings: the shared
/// path behind every `Computable` implementation and the digest walk.
pub fn compute_with_bindings(s: &String, pairs: &Vec<(String, String)>) -> (r: Result<
    String,
    ClmanError,
>)
    ensures
        match r {
            Ok(v) => spec_compute_pairs(s@, viewed_pairs(pairs@)) == Some(v@),
            Err(e) => spec_compute_pairs(s@, viewed_pairs(pairs@)) is None && e is ValueCompute,
        },
{
    let mut cpairs: Vec<(Vec<char>, Vec<char>)> = Vec::new();
    let mut i: usize = 0;
    proof {
        assert(cpairs_view(cpairs@) =~= viewed_pairs(pairs@).take(0));
    }
    while i < pairs.len()
        invariant
            i <= pairs@.len(),
            cpairs_view(cpairs@) == viewed_pairs(pairs@).take(i as int),
        decreases pairs@.len() - i,
    {
        let k = chars_of(pairs[i].0.as_str());
        let v = chars_of(pairs[i].1.as_str());
        let ghost pre = cpairs_view(cpairs@);
        cpairs.push((k, v));
        i = i + 1;
        proof {
            assert(viewed_pairs(pairs@)[i - 1] == (pairs@[i - 1].0@, pairs@[i - 1].1@));
            assert(cpairs_view(cpairs@) =~= pre.push((k@, v@)));
            assert(viewed_pairs(pairs@).take(i as int) =~= viewed_pairs(pairs@).take(i - 1).push(
                viewed_pairs(pairs@)[i - 1],
            ));
            assert(cpairs_view(cpairs@) =~= viewed_pairs(pairs@).take(i as int));
        }
    }
    proof {
        assert(viewed_pairs(pairs@).take(pairs@.len() as int) =~= viewed_pairs(pairs@));
    }
    let sorted = sort_pairs_exec(&cpairs);
    let mut cur = chars_of(s.as_str());
    let mut j: usize = 0;
    proof {
        assert(cpairs_view(sorted@).skip(0) =~= cpairs_view(sorted@));
    }
    while j < sorted.len()
        invariant
            j <= sorted@.len(),
            subst_pairs(s@, cpairs_view(sorted@)) == subst_pairs(
                cur@,
                cpairs_view(sorted@).skip(j as int),
            ),
        decreases sorted@.len() - j,
    {
        let ghost rem = cpairs_view(sorted@).skip(j as int);
        let mut pat: Vec<char> = Vec::new();
        pat.push('$');
        let key = &sorted[j].0;
        let mut k2: usize = 0;
        while k2 < key.len()
            invariant
                k2 <= key@.len(),
                pat@ == seq!['$'] + key@.take(k2 as int),
            decreases key@.len() - k2,
        {
            pat.push(key[k2]);
            k2 = k2 + 1;
            proof {
                assert(seq!['$'] + key@.take(k2 as int) =~= (seq!['$'] + key@.take(k2 - 1)).push(
                    key@[k2 - 1],
                ));
            }
        }
        proof {
            assert(pat@ =~= seq!['$'] + key@);
            assert(rem[0] == (sorted@[j as int].0@, sorted@[j as int].1@));
            assert(rem.drop_first() =~= cpairs_view(sorted@).skip(j + 1));
        }
        cur = replace_all(&cur, &pat, &sorted[j].1);
        j = j + 1;
    }
    proof {
        assert(cpairs_view(sorted@).skip(sorted@.len() as int) =~= Seq::<
            (Seq<char>, Seq<char>),
        >::empty());
    }
    if is_wrapped(&cur) {
        let inner = vec_slice(&cur, 3, cur.len() - 2);
        match eval_text(&inner) {
            Some(res) => Ok(string_of(&res)),
            None => Err(
                ClmanError::ValueCompute {
                    message: String::from_str("arithmetic expression cannot be evaluated"),
                },
            ),
        }
    } else if contains_dollar(&cur) {
        Err(
            ClmanError::ValueCompute {
                message: String::from_str("a variable reference is unresolved"),
            },
        )
    } else {
        Ok(string_of(&cur))
    }
}

/// Whether a `$` remains in the text.
fn contains_dollar(v: &Vec<char>) -> (r: bool)
    ensures
        r == has_dollar(v@),
{
    let mut i: usize = 0;
    while i < v.len()
        invariant
            i <= v@.len(),
            forall|j: int| 0 <= j < i ==> v@[j] != '$',
        decreases v@.len() - i,
    {
        if v[i] == '$' {
            return true;
        }
        i = i + 1;
    }
    false
}

/// Computes a template against an environment.
pub fn compute_template(s: &String, env: &Environment) -> (r: Result<String, ClmanError>)
    ensures
        match r {
            Ok(v) => spec_compute_string(s@, *env) == Some(v@),
            Err(e) => spec_compute_string(s@, *env) is None && e is ValueCompute,
        },
{
    let pairs = env.as_map();
    compute_with_bindings(s, &pairs)
}

impl Computable<String> for ValueString {
    /// Substitutes every visible binding into the template, longest
    /// keys first, then evaluates a whole-string `$((`...`))` wrapper.
    fn compute(&self, env: &Environment) -> (r: Result<String, ClmanError>)
        ensures
            match r {
                Ok(v) => spec_compute_string(self.0@, *env) == Some(v@),
                Err(e) => spec_compute_string(self.0@, *env) is None && e is ValueCompute,
            },
    {
        compute_template(&self.0, env)
    }
}

/// A value that is either static or computed from a template.
#[derive(Debug, Clone, PartialEq)]
pub enum Value<T> {
    Static(T),
    Dynamic(ValueString),
}

/// The environment-independent model of a numeric `Value`: a static
/// payload as a mathematical integer, or the template text.
pub enum NumValueModel {
    Static(int),
    Dynamic(Seq<char>),
}

/// What a numeric `Value` computes to: a static payload directly; a
/// template via substitution, arithmetic evaluation and a decimal parse
/// bounded by the target type's range.
pub open spec fn spec_compute_num(
    m: NumValueModel,
    env: Environment,
    min: int,
    max: int,
    signed: bool,
) -> Option<int> {
    match m {
        NumValueModel::Static(x) => Some(x),
        NumValueModel::Dynamic(t) => match spec_compute_string(t, env) {
            Some(u) => if signed {
                spec_parse_sint(u, min, max)
            } else {
                spec_parse_uint(u, max)
            },
            None => None,
        },
    }
}

impl Value<usize> {
    /// The model of this value.
    pub open spec fn num_model(self) -> NumValueModel {
        match self {
            Value::Static(x) => NumValueModel::Static(x as int),
            Value::Dynamic(s) => NumValueModel::Dynamic(s.0@),
        }
    }
}

impl Computable<usize> for Value<usize> {
    /// A static count is returned as is; a template must compute to a
    /// decimal in the type's range.
    fn compute(&self, env: &Environment) -> (r: Result<usize, ClmanError>)
        ensures
            match r {
                Ok(x) => spec_compute_num(self.num_model(), *env, 0, usize::MAX as int, false)
                    == Some(x as int),
                Err(e) => spec_compute_num(self.num_model(), *env, 0, usize::MAX as int, false)
                    is None && e is ValueCompute,
            },
    {
        match self {
            Value::Static(x) => Ok(*x),
            Value::Dynamic(s) => {
                let t = match s.compute(env) {
                    Ok(t) => t,
                    Err(e) => {
                        return Err(e);
                    },
                };
                let cs = chars_of(t.as_str());
                match parse_unsigned(&cs, usize::MAX as u64) {
                    Some(x) => Ok(x as usize),
                    None => Err(
                        ClmanError::ValueCompute {
                            message: String::from_str("value does not parse in range"),
                        },
                    ),
                }
            },
        }
    }
}

impl Value<u8> {
    pub open spec fn num_model(self) -> NumValueModel {
        match self {
            Value::Static(x) => NumValueModel::Static(x as int),
            Value::Dynamic(s) => NumValueModel::Dynamic(s.0@),
        }
    }
}

impl Computable<u8> for Value<u8> {
    fn compute(&self, env: &Environment) -> (r: Result<u8, ClmanError>)
        ensures
            match r {
                Ok(x) => spec_compute_num(self.num_model(), *env, 0, u8::MAX as int, false)
                    == Some(x as int),
                Err(e) => spec_compute_num(self.num_model(), *env, 0, u8::MAX as int, false)
                    is None && e is ValueCompute,
            },
    {
        match self {
            Value::Static(x) => Ok(*x),
            Value::Dynamic(s) => {
                let t = match s.compute(env) {
                    Ok(t) => t,
                    Err(e) => {
                        return Err(e);
                    },
                };
                let cs = chars_of(t.as_str());
                match parse_unsigned(&cs, u8::MAX as u64) {
                    Some(x) => Ok(x as u8),
                    None => Err(
                        ClmanError::ValueCompute {
                            message: String::from_str("value does not parse in range"),
                        },
                    ),
                }
            },
        }
    }
}

impl Value<u16> {
    pub open spec fn num_model(self) -> NumValueModel {
        match self {
            Value::Static(x) => NumValueModel::Static(x as int),
            Value::Dynamic(s) => NumValueModel::Dynamic(s.0@),
        }
    }
}

impl Computable<u16> for Value<u16> {
    fn compute(&self, env: &Environment) -> (r: Result<u16, ClmanError>)
        ensures
            match r {
                Ok(x) => spec_compute_num(self.num_model(), *env, 0, u16::MAX as int, false)
                    == Some(x as int),
                Err(e) => spec_compute_num(self.num_model(), *env, 0, u16::MAX as int, false)
                    is None && e is ValueCompute,
            },
    {
        match self {
            Value::Static(x) => Ok(*x),
            Value::Dynamic(s) => {
                let t = match s.compute(env) {
                    Ok(t) => t,
                    Err(e) => {
                        return Err(e);
                    },
                };
                let cs = chars_of(t.as_str());
                match parse_unsigned(&cs, u16::MAX as u64) {
                    Some(x) => Ok(x as u16),
                    None => Err(
                        ClmanError::ValueCompute {
                            message: String::from_str("value does not parse in range"),
                        },
                    ),
                }
            },
        }
    }
}

impl Value<u32> {
    pub open spec fn num_model(self) -> NumValueModel {
        match self {
            Value::Static(x) => NumValueModel::Static(x as int),
            Value::Dynamic(s) => NumValueModel::Dynamic(s.0@),
        }
    }
}

impl Computable<u32> for Value<u32> {
    fn compute(&self, env: &Environment) -> (r: Result<u32, ClmanError>)
        ensures
            match r {
                Ok(x) => spec_compute_num(self.num_model(), *env, 0, u32::MAX as int, false)
                    == Some(x as int),
                Err(e) => spec_compute_num(self.num_model(), *env, 0, u32::MAX as int, false)
                    is None && e is ValueCompute,
            },
    {
        match self {
            Value::Static(x) => Ok(*x),
            Value::Dynamic(s) => {
                let t = match s.compute(env) {
                    Ok(t) => t,
                    Err(e) => {
                        return Err(e);
                    },
                };
                let cs = chars_of(t.as_str());
                match parse_unsigned(&cs, u32::MAX as u64) {
                    Some(x) => Ok(x as u32),
                    None => Err(
                        ClmanError::ValueCompute {
                            message: String::from_str("value does not parse in range"),
                        },
                    ),
                }
            },
        }
    }
}

impl Value<u64> {
    pub open spec fn num_model(self) -> NumValueModel {
        match self {
            Value::Static(x) => NumValueModel::Static(x as int),
            Value::Dynamic(s) => NumValueModel::Dynamic(s.0@),
        }
    }
}

impl Computable<u64> for Value<u64> {
    fn compute(&self, env: &Environment) -> (r: Result<u64, ClmanError>)
        ensures
            match r {
                Ok(x) => spec_compute_num(self.num_model(), *env, 0, u64::MAX as int, false)
                    == Some(x as int),
                Err(e) => spec_compute_num(self.num_model(), *env, 0, u64::MAX as int, false)
                    is None && e is ValueCompute,
            },
    {
        match self {
            Value::Static(x) => Ok(*x),
            Value::Dynamic(s) => {
                let t = match s.compute(env) {
                    Ok(t) => t,
                    Err(e) => {
                        return Err(e);
                    },
                };
                let cs = chars_of(t.as_str());
                match parse_unsigned(&cs, u64::MAX) {
                    Some(x) => Ok(x),
                    None => Err(
                        ClmanError::ValueCompute {
                            message: String::from_str("value does not parse in range"),
                        },
                    ),
                }
            },
        }
    }
}

impl Value<i8> {
    pub open spec fn num_model(self) -> NumValueModel {
        match self {
            Value::Static(x) => NumValueModel::Static(x as int),
            Value::Dynamic(s) => NumValueModel::Dynamic(s.0@),
        }
    }
}

impl Computable<i8> for Value<i8> {
    fn compute(&self, env: &Environment) -> (r: Result<i8, ClmanError>)
        ensures
            match r {
                Ok(x) => spec_compute_num(
                    self.num_model(),
                    *env,
                    i8::MIN as int,
                    i8::MAX as int,
                    true,
                ) == Some(x as int),
                Err(e) => spec_compute_num(
                    self.num_model(),
                    *env,
                    i8::MIN as int,
                    i8::MAX as int,
                    true,
                ) is None && e is ValueCompute,
            },
    {
        match self {
            Value::Static(x) => Ok(*x),
            Value::Dynamic(s) => {
                let t = match s.compute(env) {
                    Ok(t) => t,
                    Err(e) => {
                        return Err(e);
                    },
                };
                let cs = chars_of(t.as_str());
                match parse_signed(&cs, i8::MIN as i64, i8::MAX as i64) {
                    Some(x) => Ok(x as i8),
                    None => Err(
                        ClmanError::ValueCompute {
                            message: String::from_str("value does not parse in range"),
                        },
                    ),
                }
            },
        }
    }
}

impl Value<i16> {
    pub open spec fn num_model(self) -> NumValueModel {
        match self {
            Value::Static(x) => NumValueModel::Static(x as int),
            Value::Dynamic(s) => NumValueModel::Dynamic(s.0@),
        }
    }
}

impl Computable<i16> for Value<i16> {
    fn compute(&self, env: &Environment) -> (r: Result<i16, ClmanError>)
        ensures
            match r {
                Ok(x) => spec_compute_num(
                    self.num_model(),
                    *env,
                    i16::MIN as int,
                    i16::MAX as int,
                    true,
                ) == Some(x as int),
                Err(e) => spec_compute_num(
                    self.num_model(),
                    *env,
                    i16::MIN as int,
                    i16::MAX as int,
                    true,
                ) is None && e is ValueCompute,
            },
    {
        match self {
            Value::Static(x) => Ok(*x),
            Value::Dynamic(s) => {
                let t = match s.compute(env) {
                    Ok(t) => t,
                    Err(e) => {
                        return Err(e);
                    },
                };
                let cs = chars_of(t.as_str());
                match parse_signed(&cs, i16::MIN as i64, i16::MAX as i64) {
                    Some(x) => Ok(x as i16),
                    None => Err(
                        ClmanError::ValueCompute {
                            message: String::from_str("value does not parse in range"),
                        },
                    ),
                }
            },
        }
    }
}

impl Value<i32> {
    pub open spec fn num_model(self) -> NumValueModel {
        match self {
            Value::Static(x) => NumValueModel::Static(x as int),
            Value::Dynamic(s) => NumValueModel::Dynamic(s.0@),
        }
    }
}

impl Computable<i32> for Value<i32> {
    fn compute(&self, env: &Environment) -> (r: Result<i32, ClmanError>)
        ensures
            match r {
                Ok(x) => spec_compute_num(
                    self.num_model(),
                    *env,
                    i32::MIN as int,
                    i32::MAX as int,
                    true,
                ) == Some(x as int),
                Err(e) => spec_compute_num(
                    self.num_model(),
                    *env,
                    i32::MIN as int,
                    i32::MAX as int,
                    true,
                ) is None && e is ValueCompute,
            },
    {
        match self {
            Value::Static(x) => Ok(*x),
            Value::Dynamic(s) => {
                let t = match s.compute(env) {
                    Ok(t) => t,
                    Err(e) => {
                        return Err(e);
                    },
                };
                let cs = chars_of(t.as_str());
                match parse_signed(&cs, i32::MIN as i64, i32::MAX as i64) {
                    Some(x) => Ok(x as i32),
                    None => Err(
                        ClmanError::ValueCompute {
                            message: String::from_str("value does not parse in range"),
                        },
                    ),
                }
            },
        }
    }
}

impl Value<i64> {
    pub open spec fn num_model(self) -> NumValueModel {
        match self {
            Value::Static(x) => NumValueModel::Static(x as int),
            Value::Dynamic(s) => NumValueModel::Dynamic(s.0@),
        }
    }
}

impl Computable<i64> for Value<i64> {
    fn compute(&self, env: &Environment) -> (r: Result<i64, ClmanError>)
        ensures
            match r {
                Ok(x) => spec_compute_num(
                    self.num_model(),
                    *env,
                    i64::MIN as int,
                    i64::MAX as int,
                    true,
                ) == Some(x as int),
                Err(e) => spec_compute_num(
                    self.num_model(),
                    *env,
                    i64::MIN as int,
                    i64::MAX as int,
                    true,
                ) is None && e is ValueCompute,
            },
    {
        match self {
            Value::Static(x) => Ok(*x),
            Value::Dynamic(s) => {
                let t = match s.compute(env) {
                    Ok(t) => t,
                    Err(e) => {
                        return Err(e);
                    },
                };
                let cs = chars_of(t.as_str());
                match parse_signed(&cs, i64::MIN, i64::MAX) {
                    Some(x) => Ok(x),
                    None => Err(
                        ClmanError::ValueCompute {
                            message: String::from_str("value does not parse in range"),
                        },
                    ),
                }
            },
        }
    }
}

/// A static value computes independently of the environment: for any
/// two environments the result is the same.
pub proof fn lemma_static_value_independent(
    x: int,
    e1: Environment,
    e2: Environment,
    min: int,
    max: int,
    signed: bool,
)
    ensures
        spec_compute_num(NumValueModel::Static(x), e1, min, max, signed) == spec_compute_num(
            NumValueModel::Static(x),
            e2,
            min,
            max,
            signed,
        ),
{
}

/// Replacing a `$`-prefixed pattern in a text without `$` changes
/// nothing.
proof fn lemma_replace_no_dollar(s: Seq<char>, pat: Seq<char>, rep: Seq<char>)
    requires
        forall|i: int| 0 <= i < s.len() ==> s[i] != '$',
        pat.len() > 0,
        pat[0] == '$',
    ensures
        replace_from(s, pat, rep) == s,
    decreases s.len(),
{
    if s.len() > 0 {
        if pat.len() <= s.len() && s.take(pat.len() as int) == pat {
            assert(s.take(pat.len() as int)[0] == s[0]);
        }
        assert(forall|i: int|
            0 <= i < s.drop_first().len() ==> #[trigger] s.drop_first()[i] == s[i + 1]);
        lemma_replace_no_dollar(s.drop_first(), pat, rep);
        assert(seq![s[0]] + s.drop_first() =~= s);
    } else {
        assert(replace_from(s, pat, rep) =~= s);
    }
}

/// Substitution is the identity on texts without `$`.
proof fn lemma_subst_literal(s: Seq<char>, pairs: Seq<(Seq<char>, Seq<char>)>)
    requires
        forall|i: int| 0 <= i < s.len() ==> s[i] != '$',
    ensures
        subst_pairs(s, pairs) == s,
    decreases pairs.len(),
{
    if pairs.len() > 0 {
        let pat = seq!['$'] + pairs[0].0;
        assert(pat[0] == '$');
        lemma_replace_no_dollar(s, pat, pairs[0].1);
        lemma_subst_literal(s, pairs.drop_first());
    }
}

/// A literal template with no `$` computes to itself, whatever the
/// environment holds: substitution finds no token to replace and the
/// result is not an arithmetic wrapper.
pub proof fn lemma_compute_literal(s: Seq<char>, env: Environment)
    requires
        forall|i: int| 0 <= i < s.len() ==> s[i] != '$',
    ensures
        spec_compute_string(s, env) == Some(s),
{
    lemma_subst_literal(s, subst_order(env));
    if wrapped_expr(s) {
        assert(s.take(3)[0] == s[0]);
    }
    assert(!has_dollar(s));
}

} // verus!
