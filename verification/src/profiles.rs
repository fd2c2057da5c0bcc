//! Enumeration of action profiles.

use vstd::prelude::*;
use crate::types::Act;
use crate::game::{Game, Profile};

verus! {

/// `rest` with `a` put in front of each profile.
pub open spec fn prepend_each(a: Act, rest: Seq<Seq<Act>>) -> Seq<Seq<Act>> {
    rest.map_values(|r: Seq<Act>| seq![a] + r)
}

/// `rest` prefixed by each of the actions `0..k`, in that order.
pub open spec fn expand(k: nat, rest: Seq<Seq<Act>>) -> Seq<Seq<Act>>
    decreases k,
{
    if k == 0 {
        Seq::empty()
    } else {
        expand((k - 1) as nat, rest) + prepend_each(Act((k - 1) as u16), rest)
    }
}

/// All action profiles for agents with `ns[i]` actions each, in
/// lexicographic order.
pub open spec fn all_profiles(ns: Seq<usize>) -> Seq<Seq<Act>>
    decreases ns.len(),
{
    if ns.len() == 0 {
        seq![Seq::empty()]
    } else {
        expand(ns[0] as nat, all_profiles(ns.drop_first()))
    }
}

/// The profile is valid for agents with `ns[i]` actions each.
pub open spec fn profile_in(ns: Seq<usize>, p: Seq<Act>) -> bool {
    &&& p.len() == ns.len()
    &&& forall|i: int| 0 <= i < p.len() ==> (#[trigger] p[i]).0 < ns[i]
}

pub open spec fn product(ns: Seq<usize>) -> nat
    decreases ns.len(),
{
    if ns.len() == 0 { 1 } else { ns[0] as nat * product(ns.drop_first()) }
}

proof fn lemma_expand_len(k: nat, rest: Seq<Seq<Act>>)
    ensures expand(k, rest).len() == k * rest.len(),
    decreases k,
{
    if k > 0 {
        lemma_expand_len((k - 1) as nat, rest);
        let q = prepend_each(Act((k - 1) as u16), rest);
        assert(q.len() == rest.len());
        let km1 = (k - 1) as nat;
        assert(expand(k, rest) == expand(km1, rest) + q);
        assert(expand(k, rest).len() == expand(km1, rest).len() + q.len());
        assert(expand(km1, rest).len() == km1 * rest.len());
        assert(k * rest.len() == km1 * rest.len() + rest.len()) by (nonlinear_arith)
            requires km1 + 1 == k;
    } else {
        assert(k * rest.len() == 0) by (nonlinear_arith) requires k == 0;
    }
}

proof fn lemma_expand_contains(k: nat, rest: Seq<Seq<Act>>, p: Seq<Act>)
    requires k <= 65536,
    ensures
        expand(k, rest).contains(p) <==> (p.len() > 0 && p[0].0 < k && rest.contains(p.drop_first())),
    decreases k,
{
    if k > 0 {
        let e = expand((k - 1) as nat, rest);
        let q = prepend_each(Act((k - 1) as u16), rest);
        lemma_expand_contains((k - 1) as nat, rest, p);
        assert((e + q).contains(p) <==> (e.contains(p) || q.contains(p))) by {
            if (e + q).contains(p) {
                let j = choose|j: int| 0 <= j < (e + q).len() && (e + q)[j] == p;
                if j < e.len() {
                    assert(e[j] == p);
                } else {
                    assert(q[j - e.len()] == p);
                }
            }
            if e.contains(p) {
                let j = choose|j: int| 0 <= j < e.len() && e[j] == p;
                assert((e + q)[j] == p);
            }
            if q.contains(p) {
                let j = choose|j: int| 0 <= j < q.len() && q[j] == p;
                assert((e + q)[j + e.len()] == p);
            }
        }
        assert(q.contains(p) <==> (p.len() > 0 && p[0] == Act((k - 1) as u16) && rest.contains(p.drop_first()))) by {
            if q.contains(p) {
                let j = choose|j: int| 0 <= j < q.len() && q[j] == p;
                assert(p == seq![Act((k - 1) as u16)] + rest[j]);
                assert(p.drop_first() =~= rest[j]);
            }
            if p.len() > 0 && p[0] == Act((k - 1) as u16) && rest.contains(p.drop_first()) {
                let j = choose|j: int| 0 <= j < rest.len() && rest[j] == p.drop_first();
                assert(q[j] =~= p);
            }
        }
    }
}

/// Every profile of `expand(k, rest)` starts with an action below `k`, and
/// none occurs twice when none of `rest` does.
proof fn lemma_expand_distinct(k: nat, rest: Seq<Seq<Act>>)
    requires
        k <= 65536,
        rest.no_duplicates(),
    ensures
        expand(k, rest).no_duplicates(),
        forall|i: int| 0 <= i < expand(k, rest).len() ==>
            (#[trigger] expand(k, rest)[i]).len() > 0 && (expand(k, rest)[i][0].0 as nat) < k,
    decreases k,
{
    if k > 0 {
        let k1 = (k - 1) as nat;
        lemma_expand_distinct(k1, rest);
        let e = expand(k1, rest);
        let m = prepend_each(Act(k1 as u16), rest);
        assert(expand(k, rest) == e + m);
        assert forall|i: int| 0 <= i < m.len() implies (#[trigger] m[i]).len() > 0 && m[i][0] == Act(k1 as u16) by {
            assert(m[i] == seq![Act(k1 as u16)] + rest[i]);
        }
        assert forall|i: int, j: int| 0 <= i < j < (e + m).len() implies (e + m)[i] != (e + m)[j] by {
            if j < e.len() {
            } else if i < e.len() {
                assert((e + m)[i] == e[i]);
                assert((e + m)[j] == m[j - e.len()]);
                assert((e[i][0].0 as nat) < k1);
            } else {
                let i2 = i - e.len();
                let j2 = j - e.len();
                assert((e + m)[i] == m[i2] && (e + m)[j] == m[j2]);
                assert(m[i2] == seq![Act(k1 as u16)] + rest[i2]);
                assert(m[j2] == seq![Act(k1 as u16)] + rest[j2]);
                if m[i2] == m[j2] {
                    assert(m[i2].drop_first() =~= rest[i2]);
                    assert(m[j2].drop_first() =~= rest[j2]);
                }
            }
        }
        assert forall|i: int| 0 <= i < (e + m).len() implies
            (#[trigger] (e + m)[i]).len() > 0 && ((e + m)[i][0].0 as nat) < k by {
            if i >= e.len() {
                assert((e + m)[i] == m[i - e.len()]);
            } else {
                assert((e + m)[i] == e[i]);
            }
        }
    }
}

/// No profile is enumerated twice.
pub proof fn lemma_all_profiles_distinct(ns: Seq<usize>)
    requires forall|i: int| 0 <= i < ns.len() ==> #[trigger] ns[i] <= 65536,
    ensures all_profiles(ns).no_duplicates(),
    decreases ns.len(),
{
    if ns.len() > 0 {
        let d = ns.drop_first();
        assert forall|i: int| 0 <= i < d.len() implies #[trigger] d[i] <= 65536 by {
            assert(d[i] == ns[i + 1]);
        }
        lemma_all_profiles_distinct(d);
        assert(ns[0] <= 65536);
        lemma_expand_distinct(ns[0] as nat, all_profiles(d));
    }
}

/// A profile is enumerated exactly when it is valid.
pub proof fn lemma_all_profiles_contains(ns: Seq<usize>, p: Seq<Act>)
    requires forall|i: int| 0 <= i < ns.len() ==> #[trigger] ns[i] <= 65536,
    ensures all_profiles(ns).contains(p) <==> profile_in(ns, p),
    decreases ns.len(),
{
    if ns.len() == 0 {
        if p.len() == 0 {
            assert(p =~= Seq::<Act>::empty());
            assert(all_profiles(ns)[0] == p);
        }
    } else {
        let d = ns.drop_first();
        assert forall|i: int| 0 <= i < d.len() implies #[trigger] d[i] <= 65536 by {
            assert(d[i] == ns[i + 1]);
        }
        lemma_all_profiles_contains(d, p.drop_first());
        lemma_expand_contains(ns[0] as nat, all_profiles(d), p);
        if profile_in(ns, p) {
            assert(p.len() > 0);
            assert(p[0].0 < ns[0]);
            assert forall|i: int| 0 <= i < p.drop_first().len() implies (#[trigger] p.drop_first()[i]).0 < d[i] by {
                assert(p.drop_first()[i] == p[i + 1]);
            }
        }
        if p.len() > 0 && p[0].0 < ns[0] && profile_in(d, p.drop_first()) {
            assert forall|i: int| 0 <= i < p.len() implies (#[trigger] p[i]).0 < ns[i] by {
                if i > 0 {
                    assert(p[i] == p.drop_first()[i - 1]);
                }
            }
        }
    }
}

pub proof fn lemma_all_profiles_len(ns: Seq<usize>)
    ensures all_profiles(ns).len() == product(ns),
    decreases ns.len(),
{
    if ns.len() > 0 {
        lemma_all_profiles_len(ns.drop_first());
        lemma_expand_len(ns[0] as nat, all_profiles(ns.drop_first()));
    }
}

/// Profiles of `rest` prefixed by each action in `0..k`.
fn expand_exec(k: usize, rest: &Vec<Profile>) -> (r: Vec<Profile>)
    requires k <= 65536,
    ensures r@.map_values(|p: Profile| p@) == expand(k as nat, rest@.map_values(|p: Profile| p@)),
{
    let ghost rv = rest@.map_values(|p: Profile| p@);
    let mut r: Vec<Profile> = Vec::new();
    let mut a: usize = 0;
    while a < k
        invariant
            a <= k <= 65536,
            rv == rest@.map_values(|p: Profile| p@),
            r@.map_values(|p: Profile| p@) == expand(a as nat, rv),
        decreases k - a,
    {
        let ghost before = r@.map_values(|p: Profile| p@);
        let mut j: usize = 0;
        while j < rest.len()
            invariant
                a < k <= 65536,
                j <= rest@.len(),
                rv == rest@.map_values(|p: Profile| p@),
                before == expand(a as nat, rv),
                r@.map_values(|p: Profile| p@)
                    == before + prepend_each(Act(a as u16), rv).subrange(0, j as int),
            decreases rest@.len() - j,
        {
            let mut p: Profile = Vec::new();
            p.push(Act(a as u16));
            let mut t: usize = 0;
            while t < rest[j].len()
                invariant
                    a < k <= 65536,
                    j < rest@.len(),
                    t <= rest@[j as int]@.len(),
                    p@ == seq![Act(a as u16)] + rest@[j as int]@.subrange(0, t as int),
                decreases rest@[j as int]@.len() - t,
            {
                p.push(rest[j][t]);
                t = t + 1;
                assert(p@ =~= seq![Act(a as u16)] + rest@[j as int]@.subrange(0, t as int));
            }
            assert(rest@[j as int]@.subrange(0, t as int) =~= rest@[j as int]@);
            let ghost old_r = r@;
            r.push(p);
            proof {
                assert(rv[j as int] == rest@[j as int]@);
                assert(prepend_each(Act(a as u16), rv)[j as int] == seq![Act(a as u16)] + rv[j as int]);
                assert(prepend_each(Act(a as u16), rv).subrange(0, j + 1)
                    =~= prepend_each(Act(a as u16), rv).subrange(0, j as int).push(p@));
                assert(r@.map_values(|p: Profile| p@) =~= old_r.map_values(|p: Profile| p@).push(p@));
            }
            j = j + 1;
            assert(r@.map_values(|p: Profile| p@)
                =~= before + prepend_each(Act((a) as u16), rv).subrange(0, j as int));
        }
        assert(prepend_each(Act(a as u16), rv).subrange(0, rest@.len() as int)
            =~= prepend_each(Act(a as u16), rv));
        a = a + 1;
    }
    r
}

impl Game {
    /// All action profiles of the game, in lexicographic order.
    pub fn action_profiles(&self) -> (r: Vec<Profile>)
        requires forall|i: int| 0 <= i < self.n_actions@.len() ==> #[trigger] self.n_actions@[i] <= 65536,
        ensures r@.map_values(|p: Profile| p@) == all_profiles(self.n_actions@),
    {
        let n = self.n_actions.len();
        let mut r: Vec<Profile> = Vec::new();
        r.push(Vec::new());
        assert(r@.map_values(|p: Profile| p@) =~= all_profiles(self.n_actions@.subrange(n as int, n as int)));
        let mut i: usize = n;
        while i > 0
            invariant
                n == self.n_actions@.len(),
                i <= n,
                forall|j: int| 0 <= j < n ==> #[trigger] self.n_actions@[j] <= 65536,
                r@.map_values(|p: Profile| p@) == all_profiles(self.n_actions@.subrange(i as int, n as int)),
            decreases i,
        {
            i = i - 1;
            let ghost s = self.n_actions@.subrange(i as int, n as int);
            assert(s.drop_first() =~= self.n_actions@.subrange(i + 1, n as int));
            assert(s[0] == self.n_actions@[i as int]);
            r = expand_exec(self.n_actions[i], &r);
        }
        assert(self.n_actions@.subrange(0, n as int) =~= self.n_actions@);
        r
    }

    /// Number of action profiles.
    pub fn n_action_profiles(&self) -> (r: usize)
        requires
            forall|i: int| 0 <= i <= self.n_actions@.len()
                ==> #[trigger] product(self.n_actions@.subrange(0, i)) <= usize::MAX,
        ensures r == product(self.n_actions@),
    {
        let n = self.n_actions.len();
        let mut r: usize = 1;
        let mut i: usize = 0;
        assert(self.n_actions@.subrange(0, 0) =~= Seq::<usize>::empty());
        while i < n
            invariant
                n == self.n_actions@.len(),
                i <= n,
                forall|j: int| 0 <= j <= self.n_actions@.len()
                    ==> #[trigger] product(self.n_actions@.subrange(0, j)) <= usize::MAX,
                r == product(self.n_actions@.subrange(0, i as int)),
            decreases n - i,
        {
            proof {
                lemma_product_push(self.n_actions@.subrange(0, i as int), self.n_actions@[i as int]);
                assert(self.n_actions@.subrange(0, i as int).push(self.n_actions@[i as int])
                    =~= self.n_actions@.subrange(0, i + 1));
                assert(product(self.n_actions@.subrange(0, i + 1)) <= usize::MAX);
            }
            r = r * self.n_actions[i];
            i = i + 1;
        }
        assert(self.n_actions@.subrange(0, n as int) =~= self.n_actions@);
        r
    }
}

proof fn lemma_product_push(s: Seq<usize>, x: usize)
    ensures product(s.push(x)) == product(s) * x,
    decreases s.len(),
{
    if s.len() == 0 {
        assert(s.push(x).drop_first() =~= Seq::<usize>::empty());
        assert(product(s.push(x)) == x as nat * product(s.push(x).drop_first()));
        assert(x as nat * 1 == 1 * x as nat) by (nonlinear_arith);
    } else {
        lemma_product_push(s.drop_first(), x);
        assert(s.push(x).drop_first() =~= s.drop_first().push(x));
        let a = s[0] as nat;
        let p = product(s.drop_first());
        assert(product(s.push(x)) == a * product(s.push(x).drop_first()));
        assert(a * (p * x) == (a * p) * x) by (nonlinear_arith);
    }
}

} // verus!
