//! Layered variable environments.
//!
//! An `Environment` is a chain of scopes, each mapping variable names to
//! string values. Lookup walks from the innermost scope outward and
//! returns the first match, so a child binding always shadows a parent
//! binding.

use vstd::prelude::*;
use crate::maps::{assoc, key_pairs, spec_map_set, lemma_assoc_after_set};

verus! {

/// A chain of variable scopes; `vars` is the innermost scope.
pub struct Environment {
    pub parent: Option<Box<Environment>>,
    pub vars: Vec<(String, String)>,
}

impl Environment {
    /// The bindings of the innermost scope, keys and values as
    /// character sequences, in insertion order.
    pub open spec fn scope_view(self) -> Seq<(Seq<char>, Seq<char>)> {
        self.vars@.map_values(|p: (String, String)| (p.0@, p.1@))
    }

    /// The parent chain as a plain `Option`.
    pub open spec fn parent_env(self) -> Option<Environment> {
        match self.parent {
            Some(p) => Some(*p),
            None => None,
        }
    }

    /// Innermost-first lookup along the scope chain.
    pub open spec fn lookup(self, k: Seq<char>) -> Option<Seq<char>>
        decreases self,
    {
        match assoc(self.scope_view(), k) {
            Some(v) => Some(v),
            None => match self.parent {
                Some(p) => p.lookup(k),
                None => None,
            },
        }
    }

    /// One level of merging: appends to `acc` each pair of `pairs`, in
    /// order, whose key is not yet bound in the accumulated result.
    pub open spec fn merge_level(
        acc: Seq<(Seq<char>, Seq<char>)>,
        pairs: Seq<(Seq<char>, Seq<char>)>,
    ) -> Seq<(Seq<char>, Seq<char>)>
        decreases pairs.len(),
    {
        if pairs.len() == 0 {
            acc
        } else if assoc(acc, pairs[0].0) is None {
            Self::merge_level(acc.push(pairs[0]), pairs.drop_first())
        } else {
            Self::merge_level(acc, pairs.drop_first())
        }
    }

    /// Folds the whole parent chain into `acc`, outer scopes last, so an
    /// inner binding always wins.
    pub open spec fn merged_acc(
        acc: Seq<(Seq<char>, Seq<char>)>,
        env: Option<Box<Environment>>,
    ) -> Seq<(Seq<char>, Seq<char>)>
        decreases env,
    {
        match env {
            None => acc,
            Some(p) => Self::merged_acc(Self::merge_level(acc, p.scope_view()), p.parent),
        }
    }

    /// Every visible binding of the environment: innermost scope first,
    /// then each outer scope's bindings for keys not already bound.
    pub open spec fn merged(self) -> Seq<(Seq<char>, Seq<char>)> {
        Self::merged_acc(Self::merge_level(Seq::empty(), self.scope_view()), self.parent)
    }

    /// A fresh empty scope chained onto an optional parent.
    pub fn new(parent: Option<Environment>) -> (r: Environment)
        ensures
            r.vars@.len() == 0,
            r.parent_env() == parent,
            forall|q: Seq<char>|
                #[trigger] r.lookup(q) == match parent {
                    Some(p) => p.lookup(q),
                    None => None::<Seq<char>>,
                },
    {
        let r = Environment {
            parent: match parent {
                Some(e) => Some(Box::new(e)),
                None => None,
            },
            vars: Vec::new(),
        };
        proof {
            assert(r.scope_view() =~= Seq::<(Seq<char>, Seq<char>)>::empty());
        }
        r
    }

    /// Binds `key` to `value` in the innermost scope, replacing any
    /// previous binding of the same key there; all other lookups are
    /// unchanged.
    pub fn set(&mut self, key: String, value: String)
        ensures
            final(self).parent == old(self).parent,
            final(self).scope_view() == spec_map_set(old(self).scope_view(), key@, value@),
            forall|q: Seq<char>|
                #[trigger] final(self).lookup(q) == if q == key@ {
                    Some(value@)
                } else {
                    old(self).lookup(q)
                },
    {
        let ghost oldvars = self.vars@;
        crate::maps::map_set(&mut self.vars, key, value);
        proof {
            let ghost oldscope = old(self).scope_view();
            assert(self.scope_view() =~= spec_map_set(oldscope, key@, value@)) by {
                assert(self.scope_view() =~= view_values(key_pairs(self.vars@)));
                assert(oldscope =~= view_values(key_pairs(oldvars)));
                lemma_view_values_map_set(key_pairs(oldvars), key@, value);
            }
            assert forall|q: Seq<char>|
                #[trigger] self.lookup(q) == if q == key@ {
                    Some(value@)
                } else {
                    old(self).lookup(q)
                } by {
                lemma_assoc_after_set(oldscope, key@, value@, q);
            }
        }
    }

    /// Looks `key` up along the scope chain, innermost first.
    pub fn get(&self, key: String) -> (r: Option<String>)
        ensures
            match r {
                Some(v) => self.lookup(key@) == Some(v@),
                None => self.lookup(key@) is None,
            },
    {
        let mut cur: &Environment = self;
        loop
            invariant
                self.lookup(key@) == cur.lookup(key@),
            decreases *cur,
        {
            let mut i: usize = 0;
            while i < cur.vars.len()
                invariant
                    i <= cur.vars@.len(),
                    self.lookup(key@) == cur.lookup(key@),
                    forall|j: int| 0 <= j < i ==> (#[trigger] cur.vars@[j]).0@ != key@,
                decreases cur.vars@.len() - i,
            {
                if cur.vars[i].0.eq(&key) {
                    proof {
                        assert forall|j: int| 0 <= j < i implies (#[trigger] cur.scope_view()[j]).0
                            != key@ by {
                            assert(cur.scope_view()[j] == (cur.vars@[j].0@, cur.vars@[j].1@));
                        }
                        assert(cur.scope_view()[i as int] == (
                            cur.vars@[i as int].0@,
                            cur.vars@[i as int].1@,
                        ));
                        lemma_assoc_first_match(cur.scope_view(), key@, i as int);
                    }
                    return Some(cur.vars[i].1.clone());
                }
                i = i + 1;
            }
            proof {
                assert forall|j: int|
                    0 <= j < cur.scope_view().len() implies (#[trigger] cur.scope_view()[j]).0
                    != key@ by {
                    assert(cur.scope_view()[j] == (cur.vars@[j].0@, cur.vars@[j].1@));
                }
                lemma_assoc_no_match(cur.scope_view(), key@);
            }
            match &cur.parent {
                Some(p) => {
                    cur = p;
                },
                None => {
                    return None;
                },
            }
        }
    }

    /// All visible bindings, innermost scope first; an outer binding is
    /// included only when its key is not already bound further in.
    pub fn as_map(&self) -> (r: Vec<(String, String)>)
        ensures
            viewed_pairs(r@) == self.merged(),
    {
        let mut ret: Vec<(String, String)> = Vec::new();
        let mut i: usize = 0;
        proof {
            assert(viewed_pairs(ret@) =~= Seq::<(Seq<char>, Seq<char>)>::empty());
            assert(self.scope_view().skip(0) =~= self.scope_view());
        }
        while i < self.vars.len()
            invariant
                i <= self.vars@.len(),
                Self::merge_level(Seq::empty(), self.scope_view()) == Self::merge_level(
                    viewed_pairs(ret@),
                    self.scope_view().skip(i as int),
                ),
            decreases self.vars@.len() - i,
        {
            let ghost pre = self.scope_view().skip(i as int);
            let ghost acc0 = viewed_pairs(ret@);
            match crate::maps::map_get(&ret, &self.vars[i].0) {
                Some(_) => {
                    proof {
                        lemma_key_pairs_assoc(ret@, self.vars@[i as int].0@);
                    }
                },
                None => {
                    proof {
                        lemma_key_pairs_assoc(ret@, self.vars@[i as int].0@);
                    }
                    let k = self.vars[i].0.clone();
                    let v = self.vars[i].1.clone();
                    ret.push((k, v));
                    proof {
                        assert(viewed_pairs(ret@) =~= acc0.push(pre[0]));
                    }
                },
            }
            i = i + 1;
            proof {
                assert(pre[0] == self.scope_view()[i - 1]);
                assert(pre.drop_first() =~= self.scope_view().skip(i as int));
            }
        }
        proof {
            assert(self.scope_view().skip(i as int) =~= Seq::<(Seq<char>, Seq<char>)>::empty());
        }
        let mut link: &Option<Box<Environment>> = &self.parent;
        loop
            invariant
                self.merged() == Self::merged_acc(viewed_pairs(ret@), *link),
            decreases *link,
        {
            match link {
                None => {
                    return ret;
                },
                Some(p) => {
                    let ghost accstart = viewed_pairs(ret@);
                    let mut j: usize = 0;
                    proof {
                        assert(p.scope_view().skip(0) =~= p.scope_view());
                    }
                    while j < p.vars.len()
                        invariant
                            j <= p.vars@.len(),
                            Self::merge_level(accstart, p.scope_view()) == Self::merge_level(
                                viewed_pairs(ret@),
                                p.scope_view().skip(j as int),
                            ),
                        decreases p.vars@.len() - j,
                    {
                        let ghost pre = p.scope_view().skip(j as int);
                        let ghost acc0 = viewed_pairs(ret@);
                        match crate::maps::map_get(&ret, &p.vars[j].0) {
                            Some(_) => {
                                proof {
                                    lemma_key_pairs_assoc(ret@, p.vars@[j as int].0@);
                                }
                            },
                            None => {
                                proof {
                                    lemma_key_pairs_assoc(ret@, p.vars@[j as int].0@);
                                }
                                let k = p.vars[j].0.clone();
                                let v = p.vars[j].1.clone();
                                ret.push((k, v));
                                proof {
                                    assert(viewed_pairs(ret@) =~= acc0.push(pre[0]));
                                }
                            },
                        }
                        j = j + 1;
                        proof {
                            assert(pre[0] == p.scope_view()[j - 1]);
                            assert(pre.drop_first() =~= p.scope_view().skip(j as int));
                        }
                    }
                    proof {
                        assert(p.scope_view().skip(j as int) =~= Seq::<
                            (Seq<char>, Seq<char>),
                        >::empty());
                    }
                    link = &p.parent;
                },
            }
        }
    }
}

/// The pairs of an entry vector with keys and values both taken as
/// character sequences.
pub open spec fn viewed_pairs(m: Seq<(String, String)>) -> Seq<(Seq<char>, Seq<char>)> {
    m.map_values(|p: (String, String)| (p.0@, p.1@))
}

/// `key_pairs` and `viewed_pairs` agree on which keys are bound.
proof fn lemma_key_pairs_assoc(m: Seq<(String, String)>, k: Seq<char>)
    ensures
        (assoc(key_pairs(m), k) is Some) == (assoc(viewed_pairs(m), k) is Some),
    decreases m.len(),
{
    if m.len() > 0 {
        assert(key_pairs(m)[0] == (m[0].0@, m[0].1));
        assert(viewed_pairs(m)[0] == (m[0].0@, m[0].1@));
        if m[0].0@ != k {
            assert(key_pairs(m).drop_first() =~= key_pairs(m.drop_first()));
            assert(viewed_pairs(m).drop_first() =~= viewed_pairs(m.drop_first()));
            lemma_key_pairs_assoc(m.drop_first(), k);
        }
    }
}

/// The value views of pairs whose values are still strings.
pub open spec fn view_values(pairs: Seq<(Seq<char>, String)>) -> Seq<(Seq<char>, Seq<char>)> {
    pairs.map_values(|p: (Seq<char>, String)| (p.0, p.1@))
}

/// Taking value views commutes with `spec_map_set`.
proof fn lemma_view_values_map_set(pairs: Seq<(Seq<char>, String)>, k: Seq<char>, v: String)
    ensures
        view_values(spec_map_set(pairs, k, v)) == spec_map_set(view_values(pairs), k, v@),
    decreases pairs.len(),
{
    if pairs.len() == 0 {
        assert(view_values(seq![(k, v)]) =~= seq![(k, v@)]);
    } else if pairs[0].0 == k {
        assert(view_values(pairs.update(0, (k, v))) =~= view_values(pairs).update(0, (k, v@)));
    } else {
        lemma_view_values_map_set(pairs.drop_first(), k, v);
        assert(view_values(pairs).drop_first() =~= view_values(pairs.drop_first()));
        assert(view_values(seq![pairs[0]] + spec_map_set(pairs.drop_first(), k, v)) =~= seq![
            view_values(pairs)[0],
        ] + view_values(spec_map_set(pairs.drop_first(), k, v)));
    }
}

/// First match at index `i`: when the key first occurs at `i`, lookup in
/// the scope returns that entry's value.
proof fn lemma_assoc_first_match(pairs: Seq<(Seq<char>, Seq<char>)>, k: Seq<char>, i: int)
    requires
        0 <= i < pairs.len(),
        pairs[i].0 == k,
        forall|j: int| 0 <= j < i ==> (#[trigger] pairs[j]).0 != k,
    ensures
        assoc(pairs, k) == Some(pairs[i].1),
    decreases i,
{
    if i > 0 {
        assert(forall|j: int|
            0 <= j < i - 1 ==> (#[trigger] pairs.drop_first()[j]).0 == pairs[j + 1].0);
        lemma_assoc_first_match(pairs.drop_first(), k, i - 1);
    }
}

/// No match anywhere: when no entry has the key, lookup returns nothing.
proof fn lemma_assoc_no_match(pairs: Seq<(Seq<char>, Seq<char>)>, k: Seq<char>)
    requires
        forall|j: int| 0 <= j < pairs.len() ==> (#[trigger] pairs[j]).0 != k,
    ensures
        assoc(pairs, k) is None,
    decreases pairs.len(),
{
    if pairs.len() > 0 {
        assert(forall|j: int|
            0 <= j < pairs.drop_first().len() ==> (#[trigger] pairs.drop_first()[j]).0 == pairs[j
                + 1].0);
        lemma_assoc_no_match(pairs.drop_first(), k);
    }
}

/// Two environments with the same bindings at every level of the
/// chain. Such environments are interchangeable for lookup, merging
/// and template computation.
pub open spec fn env_equiv(a: Environment, b: Environment) -> bool
    decreases a,
{
    a.scope_view() == b.scope_view() && match (a.parent, b.parent) {
        (Option::None, Option::None) => true,
        (Option::Some(p), Option::Some(q)) => env_equiv(*p, *q),
        _ => false,
    }
}

/// Merging is blind to anything but the bindings: equivalent chains
/// merge equally into any accumulator.
pub proof fn lemma_equiv_merged_acc(
    acc: Seq<(Seq<char>, Seq<char>)>,
    pa: Option<Box<Environment>>,
    pb: Option<Box<Environment>>,
)
    requires
        match (pa, pb) {
            (Option::None, Option::None) => true,
            (Option::Some(p), Option::Some(q)) => env_equiv(*p, *q),
            _ => false,
        },
    ensures
        Environment::merged_acc(acc, pa) == Environment::merged_acc(acc, pb),
    decreases pa,
{
    match (pa, pb) {
        (Option::Some(p), Option::Some(q)) => {
            lemma_equiv_merged_acc(
                Environment::merge_level(acc, p.scope_view()),
                p.parent,
                q.parent,
            );
        },
        _ => {},
    }
}

/// Shadowing: when a key is bound in an environment's own scope, lookup
/// returns that binding, never the parent's, whatever the parent binds.
pub proof fn lemma_env_shadowing(e: Environment, p: Environment, k: Seq<char>)
    requires
        e.parent_env() == Some(p),
        assoc(e.scope_view(), k) is Some,
    ensures
        e.lookup(k) == Some(assoc(e.scope_view(), k)->Some_0),
        p.lookup(k) is Some ==> e.lookup(k) == Some(assoc(e.scope_view(), k)->Some_0),
{
}

} // verus!
