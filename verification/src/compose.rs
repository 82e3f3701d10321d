//! Source composition: argument splitting, child environments, the
//! concatenation of defines and resolved source parts, and the
//! content-addressed cache of composed texts.

use vstd::prelude::*;
use vstd::string::StringExecFns;
use crate::env::{Environment, viewed_pairs};
use crate::maps::assoc;
use crate::strutil::{spec_split_ws, split_ws, chars_of, string_of, spec_dec_digits, usize_to_string};
use crate::value::spec_compute_pairs;

verus! {

/// The positional bindings of an argument list: variable `"i"` holds
/// the i-th word.
pub open spec fn positional_pairs(words: Seq<Seq<char>>) -> Seq<(Seq<char>, Seq<char>)> {
    Seq::new(words.len(), |i: int| (spec_dec_digits(i), words[i]))
}

/// The visible bindings of a child environment seeded from the words
/// of `raw`: the positional bindings, then the parent's, shadowed.
pub open spec fn child_merged(parent: Environment, raw: Seq<char>) -> Seq<(Seq<char>, Seq<char>)> {
    Environment::merged_acc(
        Environment::merge_level(Seq::empty(), positional_pairs(spec_split_ws(raw))),
        Some(Box::new(parent)),
    )
}

/// What a template computes to against the child environment of
/// `parent` seeded from the words of `raw`.
pub open spec fn compute_in_child(s: Seq<char>, parent: Environment, raw: Seq<char>) -> Option<
    Seq<char>,
> {
    spec_compute_pairs(s, child_merged(parent, raw))
}

/// A child environment binding the whitespace-separated words of
/// `raw_args` as positional variables `"0"`, `"1"`, ... over `parent`.
pub fn child_env(parent: Environment, raw_args: &String) -> (r: Environment)
    ensures
        r.scope_view() == positional_pairs(spec_split_ws(raw_args@)),
        r.parent == Some(Box::new(parent)),
        r.merged() == child_merged(parent, raw_args@),
{
    let raw = chars_of(raw_args.as_str());
    let words = split_ws(&raw);
    let mut vars: Vec<(String, String)> = Vec::new();
    let mut i: usize = 0;
    proof {
        assert(viewed_pairs(vars@) =~= positional_pairs(spec_split_ws(raw_args@)).take(0));
    }
    while i < words.len()
        invariant
            i <= words@.len(),
            words.deep_view() == spec_split_ws(raw_args@),
            viewed_pairs(vars@) == positional_pairs(spec_split_ws(raw_args@)).take(i as int),
        decreases words@.len() - i,
    {
        let key = usize_to_string(i);
        let word = string_of(&words[i]);
        let ghost pre = viewed_pairs(vars@);
        vars.push((key, word));
        i = i + 1;
        proof {
            assert(words@[i - 1]@ == words.deep_view()[i - 1]);
            assert(positional_pairs(spec_split_ws(raw_args@))[i - 1] == (
                spec_dec_digits(i - 1),
                spec_split_ws(raw_args@)[i - 1],
            ));
            assert(viewed_pairs(vars@) =~= pre.push((key@, word@)));
            assert(positional_pairs(spec_split_ws(raw_args@)).take(i as int) =~= positional_pairs(
                spec_split_ws(raw_args@),
            ).take(i - 1).push(positional_pairs(spec_split_ws(raw_args@))[i - 1]));
        }
    }
    proof {
        assert(positional_pairs(spec_split_ws(raw_args@)).take(
            positional_pairs(spec_split_ws(raw_args@)).len() as int,
        ) =~= positional_pairs(spec_split_ws(raw_args@)));
    }
    let r = Environment { parent: Some(Box::new(parent)), vars };
    r
}

/// The visible bindings of the child environment of `parent` seeded
/// from `raw_args`, as a plain entry vector; what a digest walk
/// computes templates against.
pub fn child_bindings(parent: &Environment, raw_args: &String) -> (r: Vec<(String, String)>)
    ensures
        viewed_pairs(r@) == child_merged(*parent, raw_args@),
{
    let dup = duplicate_env(parent);
    proof {
        crate::env::lemma_equiv_merged_acc(
            Environment::merge_level(
                Seq::empty(),
                positional_pairs(spec_split_ws(raw_args@)),
            ),
            Some(Box::new(dup)),
            Some(Box::new(*parent)),
        );
    }
    let e = child_env(dup, raw_args);
    e.as_map()
}

/// A structural copy of an environment chain. The copy has the same
/// visible bindings at every level.
pub fn duplicate_env(e: &Environment) -> (r: Environment)
    ensures
        crate::env::env_equiv(r, *e),
    decreases *e,
{
    let mut vars: Vec<(String, String)> = Vec::new();
    let mut i: usize = 0;
    while i < e.vars.len()
        invariant
            i <= e.vars@.len(),
            vars@.len() == i,
            forall|j: int| 0 <= j < i ==> vars@[j] == e.vars@[j],
        decreases e.vars@.len() - i,
    {
        let k = e.vars[i].0.clone();
        let v = e.vars[i].1.clone();
        vars.push((k, v));
        i = i + 1;
    }
    proof {
        assert(vars@ =~= e.vars@);
    }
    let parent = match &e.parent {
        Some(p) => Some(Box::new(duplicate_env(p))),
        None => None,
    };
    Environment { parent, vars }
}

/// The `#define` lines emitted for computed defines, in order.
pub open spec fn define_lines(ds: Seq<(Seq<char>, Seq<char>)>) -> Seq<char>
    decreases ds.len(),
{
    if ds.len() == 0 {
        Seq::empty()
    } else {
        "#define "@ + ds[0].0 + " ("@ + ds[0].1 + ")\n"@ + define_lines(ds.drop_first())
    }
}

/// The concatenation of resolved source parts, in declaration order.
pub open spec fn concat_parts(ps: Seq<Seq<char>>) -> Seq<char>
    decreases ps.len(),
{
    if ps.len() == 0 {
        Seq::empty()
    } else {
        ps[0] + concat_parts(ps.drop_first())
    }
}

/// The composed source text: one `#define` line per computed define,
/// then every resolved part in declaration order.
pub open spec fn spec_compose(
    defines: Seq<(Seq<char>, Seq<char>)>,
    parts: Seq<Seq<char>>,
) -> Seq<char> {
    define_lines(defines) + concat_parts(parts)
}

/// Concatenates computed defines and resolved source parts into the
/// final kernel text.
pub fn compose(defines: &Vec<(String, String)>, parts: &Vec<String>) -> (r: String)
    ensures
        r@ == spec_compose(viewed_pairs(defines@), parts.deep_view()),
{
    let mut out = String::new();
    let mut i: usize = 0;
    proof {
        assert(viewed_pairs(defines@).skip(0) =~= viewed_pairs(defines@));
        assert(out@ =~= Seq::<char>::empty());
    }
    while i < defines.len()
        invariant
            i <= defines@.len(),
            define_lines(viewed_pairs(defines@)) == out@ + define_lines(
                viewed_pairs(defines@).skip(i as int),
            ),
        decreases defines@.len() - i,
    {
        let ghost rem = viewed_pairs(defines@).skip(i as int);
        let ghost out0 = out@;
        out.append("#define ");
        out.append(defines[i].0.as_str());
        out.append(" (");
        out.append(defines[i].1.as_str());
        out.append(")\n");
        i = i + 1;
        proof {
            assert(rem[0] == (defines@[i - 1].0@, defines@[i - 1].1@));
            assert(rem.drop_first() =~= viewed_pairs(defines@).skip(i as int));
            assert(out@ =~= out0 + ("#define "@ + rem[0].0 + " ("@ + rem[0].1 + ")\n"@));
            assert(out0 + ("#define "@ + rem[0].0 + " ("@ + rem[0].1 + ")\n"@) + define_lines(
                viewed_pairs(defines@).skip(i as int),
            ) =~= out0 + (("#define "@ + rem[0].0 + " ("@ + rem[0].1 + ")\n"@) + define_lines(
                viewed_pairs(defines@).skip(i as int),
            )));
        }
    }
    proof {
        assert(viewed_pairs(defines@).skip(defines@.len() as int) =~= Seq::<
            (Seq<char>, Seq<char>),
        >::empty());
    }
    let mut j: usize = 0;
    proof {
        assert(parts.deep_view().skip(0) =~= parts.deep_view());
    }
    while j < parts.len()
        invariant
            j <= parts@.len(),
            parts.deep_view().len() == parts@.len(),
            spec_compose(viewed_pairs(defines@), parts.deep_view()) == out@ + concat_parts(
                parts.deep_view().skip(j as int),
            ),
        decreases parts@.len() - j,
    {
        let ghost rem = parts.deep_view().skip(j as int);
        let ghost out0 = out@;
        out.append(parts[j].as_str());
        j = j + 1;
        proof {
            assert(rem[0] == parts.deep_view()[j - 1]);
            assert(parts.deep_view()[j - 1] == parts@[j - 1]@);
            assert(rem.drop_first() =~= parts.deep_view().skip(j as int));
            assert(out0 + rem[0] + concat_parts(parts.deep_view().skip(j as int)) =~= out0 + (
            rem[0] + concat_parts(parts.deep_view().skip(j as int))));
        }
    }
    proof {
        assert(parts.deep_view().skip(parts.deep_view().len() as int) =~= Seq::<
            Seq<char>,
        >::empty());
        assert(out@ + Seq::<char>::empty() =~= out@);
    }
    out
}

/// The content-addressed cache of composed texts: a durable map from
/// digest to text. Entries are created once and never mutated; a digest
/// change produces a new entry rather than overwriting an old one.
pub struct Cache {
    pub entries: Vec<(String, String)>,
}

impl Cache {
    pub open spec fn entries_view(self) -> Seq<(Seq<char>, Seq<char>)> {
        viewed_pairs(self.entries@)
    }

    /// The stored text under a digest, if any.
    pub open spec fn spec_get(self, d: Seq<char>) -> Option<Seq<char>> {
        assoc(self.entries_view(), d)
    }

    /// An empty cache.
    pub fn new() -> (r: Cache)
        ensures
            r.entries@.len() == 0,
            forall|d: Seq<char>| #[trigger] r.spec_get(d) is None,
    {
        let r = Cache { entries: Vec::new() };
        proof {
            assert forall|d: Seq<char>| #[trigger] r.spec_get(d) is None by {
                assert(r.entries_view() =~= Seq::<(Seq<char>, Seq<char>)>::empty());
            }
        }
        r
    }

    /// Looks a digest up.
    pub fn get(&self, digest: &String) -> (r: Option<String>)
        ensures
            match r {
                Some(t) => self.spec_get(digest@) == Some(t@),
                None => self.spec_get(digest@) is None,
            },
    {
        let mut i: usize = 0;
        proof {
            assert(self.entries_view().skip(0) =~= self.entries_view());
        }
        while i < self.entries.len()
            invariant
                i <= self.entries@.len(),
                assoc(self.entries_view(), digest@) == assoc(
                    self.entries_view().skip(i as int),
                    digest@,
                ),
            decreases self.entries@.len() - i,
        {
            if self.entries[i].0.eq(digest) {
                proof {
                    assert(self.entries_view().skip(i as int)[0] == (
                        self.entries@[i as int].0@,
                        self.entries@[i as int].1@,
                    ));
                }
                return Some(self.entries[i].1.clone());
            }
            i = i + 1;
            proof {
                assert(self.entries_view().skip(i - 1).drop_first() =~= self.entries_view().skip(
                    i as int,
                ));
                assert(self.entries_view().skip(i - 1)[0] == (
                    self.entries@[i - 1].0@,
                    self.entries@[i - 1].1@,
                ));
            }
        }
        proof {
            assert(self.entries_view().skip(i as int) =~= Seq::<(Seq<char>, Seq<char>)>::empty());
        }
        None
    }

    /// Stores a text under a digest. An existing entry is kept as it
    /// is: entries are content-addressed and never overwritten.
    pub fn put(&mut self, digest: String, text: String)
        ensures
            old(self).spec_get(digest@) is Some ==> *final(self) == *old(self),
            old(self).spec_get(digest@) is None ==> final(self).entries_view() == old(
                self,
            ).entries_view().push((digest@, text@)),
            forall|q: Seq<char>|
                #[trigger] final(self).spec_get(q) == if q == digest@ && old(self).spec_get(q)
                    is None {
                    Some(text@)
                } else {
                    old(self).spec_get(q)
                },
    {
        match self.get(&digest) {
            Some(_) => {},
            None => {
                let ghost pre = self.entries_view();
                self.entries.push((digest, text));
                proof {
                    assert(self.entries_view() =~= pre.push((digest@, text@)));
                    assert forall|q: Seq<char>|
                        #[trigger] self.spec_get(q) == if q == digest@ && assoc(pre, q) is None {
                            Some(text@)
                        } else {
                            assoc(pre, q)
                        } by {
                        lemma_assoc_push(pre, (digest@, text@), q);
                    }
                }
            },
        }
    }
}

/// Lookup in a map extended by one entry: an existing binding wins;
/// otherwise the new entry answers exactly for its own key.
proof fn lemma_assoc_push(pairs: Seq<(Seq<char>, Seq<char>)>, p: (Seq<char>, Seq<char>), q: Seq<char>)
    ensures
        assoc(pairs.push(p), q) == if assoc(pairs, q) is Some {
            assoc(pairs, q)
        } else if q == p.0 {
            Some(p.1)
        } else {
            None::<Seq<char>>
        },
    decreases pairs.len(),
{
    if pairs.len() == 0 {
        assert(pairs.push(p)[0] == p);
        assert(pairs.push(p).drop_first() =~= Seq::<(Seq<char>, Seq<char>)>::empty());
    } else {
        assert(pairs.push(p)[0] == pairs[0]);
        assert(pairs.push(p).drop_first() =~= pairs.drop_first().push(p));
        lemma_assoc_push(pairs.drop_first(), p, q);
    }
}

/// Composition caching: when a digest is not yet cached, storing the
/// composed text and resolving again with the same digest returns the
/// stored text byte for byte — the second resolution reads the cache
/// and performs no generation work.
pub proof fn lemma_second_resolution_cached(c0: Cache, c1: Cache, digest: Seq<char>, text: Seq<char>)
    requires
        c0.spec_get(digest) is None,
        c1.entries_view() == c0.entries_view().push((digest, text)),
    ensures
        c1.spec_get(digest) == Some(text),
{
    lemma_assoc_push(c0.entries_view(), (digest, text), digest);
}

} // verus!
