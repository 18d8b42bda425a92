//! Phase B of a tick: choosing the merges from a contact matrix and building
//! the next generation of bodies.
use vstd::prelude::*;

verus! {

/// The contact matrix as rows of booleans: `t[i][j]` tells whether bodies
/// `i` and `j` touch. Only entries with `i < j` are read.
pub open spec fn matrix_view(m: Vec<Vec<bool>>) -> Seq<Seq<bool>> {
    m@.map_values(|row: Vec<bool>| row@)
}

/// The matrix has as many columns in each row as it has rows.
pub open spec fn is_square(t: Seq<Seq<bool>>) -> bool {
    forall|i: int| 0 <= i < t.len() ==> (#[trigger] t[i]).len() == t.len()
}

/// The first body `j' >= j` that is still free and touches body `i`.
pub open spec fn first_partner(t: Seq<Seq<bool>>, used: Seq<bool>, i: int, j: int) -> Option<int>
    decreases t.len() - j,
{
    if j < 0 || j >= t.len() {
        None
    } else if !used[j] && t[i][j] {
        Some(j)
    } else {
        first_partner(t, used, i, j + 1)
    }
}

/// The merges chosen by the scan from body `i` on, given the bodies already
/// consumed: each free body takes the first free body after it that it
/// touches, and both are consumed.
pub open spec fn plan_from(t: Seq<Seq<bool>>, used: Seq<bool>, i: int) -> Seq<(int, int)>
    decreases t.len() - i,
{
    if i < 0 || i >= t.len() {
        Seq::empty()
    } else if used[i] {
        plan_from(t, used, i + 1)
    } else {
        match first_partner(t, used, i, i + 1) {
            Some(j) => seq![(i, j)] + plan_from(t, used.update(i, true).update(j, true), i + 1),
            None => plan_from(t, used, i + 1),
        }
    }
}

/// The merges of one tick, in scan order.
pub open spec fn merge_plan(t: Seq<Seq<bool>>) -> Seq<(int, int)> {
    plan_from(t, Seq::new(t.len(), |k: int| false), 0)
}

/// A list of merges as pairs of mathematical indices.
pub open spec fn plan_view(p: Vec<(usize, usize)>) -> Seq<(int, int)> {
    p@.map_values(|e: (usize, usize)| (e.0 as int, e.1 as int))
}

/// Scans the pairs `(i, j)`, `i < j`, in ascending order and chooses the
/// merges: a body that is still free merges with the first free body after
/// it that it touches; a body merges at most once per tick.
pub fn plan_merges(contact: &Vec<Vec<bool>>) -> (r: Vec<(usize, usize)>)
    requires
        is_square(matrix_view(*contact)),
    ensures
        plan_view(r) == merge_plan(matrix_view(*contact)),
{
    let ghost t = matrix_view(*contact);
    let n = contact.len();
    let mut used: Vec<bool> = Vec::new();
    let mut k: usize = 0;
    while k < n
        invariant
            k <= n,
            used@ == Seq::new(k as nat, |x: int| false),
        decreases n - k,
    {
        used.push(false);
        k = k + 1;
    }
    assert(used@ =~= Seq::new(t.len(), |x: int| false));
    let mut plan: Vec<(usize, usize)> = Vec::new();
    let mut i: usize = 0;
    while i < n
        invariant
            t == matrix_view(*contact),
            n == t.len(),
            is_square(t),
            i <= n,
            used@.len() == n,
            plan_view(plan) + plan_from(t, used@, i as int) == merge_plan(t),
        decreases n - i,
    {
        assert(t[i as int] == contact@[i as int]@);
        if used[i] {
            i = i + 1;
        } else {
            let mut j: usize = i + 1;
            let mut found = false;
            while j < n
                invariant_except_break
                    !found,
                    first_partner(t, used@, i as int, i + 1) == first_partner(t, used@, i as int, j as int),
                invariant
                    t == matrix_view(*contact),
                    n == t.len(),
                    is_square(t),
                    i < n,
                    i < j <= n,
                    used@.len() == n,
                    !used@[i as int],
                    plan_view(plan) + plan_from(t, used@, i as int) == merge_plan(t),
                ensures
                    found ==> j < n && first_partner(t, used@, i as int, i + 1) == Some(j as int),
                    !found ==> first_partner(t, used@, i as int, i + 1) == None::<int>,
                decreases n - j,
            {
                assert(t[i as int][j as int] == contact@[i as int]@[j as int]);
                if !used[j] && contact[i][j] {
                    found = true;
                    break;
                }
                j = j + 1;
            }
            if found {
                let ghost old_used = used@;
                let ghost old_plan = plan_view(plan);
                plan.push((i, j));
                used.set(i, true);
                used.set(j, true);
                assert(plan_view(plan) =~= old_plan.push((i as int, j as int)));
                assert(plan_from(t, old_used, i as int)
                    == seq![(i as int, j as int)] + plan_from(t, used@, i + 1));
                assert(plan_view(plan) + plan_from(t, used@, i + 1)
                    =~= old_plan + plan_from(t, old_used, i as int));
            } else {
                assert(plan_from(t, used@, i as int) == plan_from(t, used@, i + 1));
            }
            i = i + 1;
        }
    }
    assert(plan_view(plan) + plan_from(t, used@, n as int) =~= plan_view(plan));
    plan
}

proof fn lemma_first_partner(t: Seq<Seq<bool>>, used: Seq<bool>, i: int, j: int)
    requires
        0 <= j,
    ensures
        first_partner(t, used, i, j) matches Some(x) ==> j <= x < t.len() && !used[x] && t[i][x],
        forall|y: int| #![trigger t[i][y]]
            j <= y < t.len() && !used[y] && t[i][y] ==> (first_partner(t, used, i, j) matches Some(
                x,
            ) && x <= y),
    decreases t.len() - j,
{
    if 0 <= j < t.len() {
        lemma_first_partner(t, used, i, j + 1);
    }
}

/// Each merge of the plan from `i` on joins two bodies `a < b`, both free
/// when the scan began at `i`, with `a >= i`, that touch.
proof fn lemma_plan_from_shape(t: Seq<Seq<bool>>, used: Seq<bool>, i: int)
    requires
        used.len() == t.len(),
        0 <= i,
    ensures
        forall|q: int|
            0 <= q < plan_from(t, used, i).len() ==> {
                let e = #[trigger] plan_from(t, used, i)[q];
                &&& i <= e.0 < e.1 < t.len()
                &&& t[e.0][e.1]
                &&& !used[e.0]
                &&& !used[e.1]
            },
        forall|q1: int, q2: int|
            0 <= q1 < q2 < plan_from(t, used, i).len() ==> pairs_apart(
                #[trigger] plan_from(t, used, i)[q1],
                #[trigger] plan_from(t, used, i)[q2],
            ),
    decreases t.len() - i,
{
    if 0 <= i < t.len() {
        if used[i] {
            lemma_plan_from_shape(t, used, i + 1);
            assert(plan_from(t, used, i) == plan_from(t, used, i + 1));
        } else {
            lemma_first_partner(t, used, i, i + 1);
            match first_partner(t, used, i, i + 1) {
                Some(j) => {
                    let u2 = used.update(i, true).update(j, true);
                    lemma_plan_from_shape(t, u2, i + 1);
                    let rest = plan_from(t, u2, i + 1);
                    let p = plan_from(t, used, i);
                    assert(p == seq![(i, j)] + rest);
                    assert forall|q: int| 0 <= q < p.len() implies {
                        let e = #[trigger] p[q];
                        &&& i <= e.0 < e.1 < t.len()
                        &&& t[e.0][e.1]
                        &&& !used[e.0]
                        &&& !used[e.1]
                    } by {
                        if q > 0 {
                            let e = rest[q - 1];
                            assert(p[q] == e);
                            assert(!u2[e.0] && !u2[e.1]);
                            assert(e.0 != i && e.0 != j && e.1 != i && e.1 != j);
                            assert(used[e.0] == u2[e.0] && used[e.1] == u2[e.1]);
                        }
                    }
                    assert forall|q1: int, q2: int| 0 <= q1 < q2 < p.len() implies pairs_apart(
                        #[trigger] p[q1],
                        #[trigger] p[q2],
                    ) by {
                        let e2 = rest[q2 - 1];
                        assert(p[q2] == e2);
                        assert(!u2[e2.0] && !u2[e2.1]);
                        if q1 > 0 {
                            assert(p[q1] == rest[q1 - 1]);
                        }
                    }
                },
                None => {
                    lemma_plan_from_shape(t, used, i + 1);
                    assert(plan_from(t, used, i) == plan_from(t, used, i + 1));
                },
            }
        }
    }
}

/// Two merges share no body.
pub open spec fn pairs_apart(a: (int, int), b: (int, int)) -> bool {
    a.0 != b.0 && a.0 != b.1 && a.1 != b.0 && a.1 != b.1
}

/// Each merge of a tick joins two distinct bodies `a < b` of the sequence
/// whose contact was reported: a pair that does not touch never merges.
pub proof fn lemma_plan_shape(t: Seq<Seq<bool>>)
    ensures
        forall|q: int|
            0 <= q < merge_plan(t).len() ==> {
                let e = #[trigger] merge_plan(t)[q];
                &&& 0 <= e.0 < e.1 < t.len()
                &&& t[e.0][e.1]
            },
        plan_in_range(t.len(), merge_plan(t)),
{
    lemma_plan_from_shape(t, Seq::new(t.len(), |k: int| false), 0);
}

/// A body merges at most once per tick: no two merges of a tick share a
/// body.
pub proof fn lemma_plan_disjoint(t: Seq<Seq<bool>>)
    ensures
        forall|q1: int, q2: int|
            0 <= q1 < q2 < merge_plan(t).len() ==> pairs_apart(
                #[trigger] merge_plan(t)[q1],
                #[trigger] merge_plan(t)[q2],
            ),
{
    lemma_plan_from_shape(t, Seq::new(t.len(), |k: int| false), 0);
}

/// Where no pair touches, a tick chooses no merge.
pub proof fn lemma_no_contact_no_merge(t: Seq<Seq<bool>>)
    requires
        forall|i: int, j: int| 0 <= i < j < t.len() ==> !(#[trigger] t[i][j]),
    ensures
        merge_plan(t).len() == 0,
{
    lemma_plan_shape(t);
    if merge_plan(t).len() > 0 {
        let e = merge_plan(t)[0];
        assert(t[e.0][e.1]);
    }
}

/// The bodies of one tick: `s` are the integrated bodies,
/// `t` their contacts and `m` the merged bodies; the result keeps the bodies
/// that no merge consumed, in their order, followed by the merged ones.
pub open spec fn tick_result<P>(s: Seq<P>, t: Seq<Seq<bool>>, m: Seq<P>) -> Seq<P> {
    survivors(s, consumed(s.len(), merge_plan(t))) + m
}

/// Which bodies the merges of `plan` consume.
pub open spec fn consumed(n: nat, plan: Seq<(int, int)>) -> Seq<bool>
    decreases plan.len(),
{
    if plan.len() == 0 {
        Seq::new(n, |k: int| false)
    } else {
        let last = plan.last();
        consumed(n, plan.drop_last()).update(last.0, true).update(last.1, true)
    }
}

/// The bodies of `s` that `gone` does not mark, in their order.
pub open spec fn survivors<P>(s: Seq<P>, gone: Seq<bool>) -> Seq<P>
    decreases s.len(),
{
    if s.len() == 0 {
        Seq::empty()
    } else {
        let rest = survivors(s.drop_last(), gone);
        if gone[s.len() - 1] {
            rest
        } else {
            rest.push(s.last())
        }
    }
}

/// Every index of the plan is a body of a sequence of length `n`.
pub open spec fn plan_in_range(n: nat, plan: Seq<(int, int)>) -> bool {
    forall|q: int|
        0 <= q < plan.len() ==> 0 <= (#[trigger] plan[q]).0 < n && 0 <= plan[q].1 < n
}

/// Extending the sequence by one body extends the survivors by that body
/// exactly when it is not marked.
pub proof fn lemma_survivors_extend<P>(s: Seq<P>, gone: Seq<bool>, g: bool)
    requires
        gone.len() == s.len(),
    ensures
        forall|p: P| #![trigger s.push(p)]
            survivors(s.push(p), gone.push(g)) == if g {
                survivors(s, gone)
            } else {
                survivors(s, gone).push(p)
            },
{
    assert forall|p: P| #![trigger s.push(p)]
        survivors(s.push(p), gone.push(g)) == if g {
            survivors(s, gone)
        } else {
            survivors(s, gone).push(p)
        } by {
        assert(s.push(p).drop_last() =~= s);
        lemma_survivors_prefix(s, gone, gone.push(g));
    }
}

/// The survivors of `s` depend only on the marks of `s`'s own indices.
proof fn lemma_survivors_prefix<P>(s: Seq<P>, a: Seq<bool>, b: Seq<bool>)
    requires
        forall|k: int| 0 <= k < s.len() ==> a[k] == b[k],
    ensures
        survivors(s, a) == survivors(s, b),
    decreases s.len(),
{
    if s.len() > 0 {
        lemma_survivors_prefix(s.drop_last(), a, b);
    }
}

proof fn lemma_consumed_len(n: nat, plan: Seq<(int, int)>)
    requires
        plan_in_range(n, plan),
    ensures
        consumed(n, plan).len() == n,
    decreases plan.len(),
{
    if plan.len() > 0 {
        let rest = plan.drop_last();
        assert forall|q: int| 0 <= q < rest.len() implies 0 <= (#[trigger] rest[q]).0 < n && 0
            <= rest[q].1 < n by {
            assert(rest[q] == plan[q]);
        }
        lemma_consumed_len(n, rest);
        assert(plan[plan.len() - 1] == plan.last());
    }
}

/// Builds the bodies of the next tick: the bodies of `items` that no merge
/// of `plan` consumed, in their order, followed by the merged bodies.
pub fn next_generation<P: Copy>(items: &Vec<P>, plan: &Vec<(usize, usize)>, merged: Vec<P>) -> (r:
    Vec<P>)
    requires
        plan_in_range(items@.len(), plan_view(*plan)),
    ensures
        r@ == survivors(items@, consumed(items@.len(), plan_view(*plan))) + merged@,
{
    let n = items.len();
    let ghost pv = plan_view(*plan);
    let mut gone: Vec<bool> = Vec::new();
    let mut k: usize = 0;
    while k < n
        invariant
            k <= n,
            gone@ == Seq::new(k as nat, |x: int| false),
        decreases n - k,
    {
        gone.push(false);
        k = k + 1;
    }
    assert(gone@ =~= consumed(n as nat, pv.take(0)));
    let mut q: usize = 0;
    while q < plan.len()
        invariant
            n == items@.len(),
            pv == plan_view(*plan),
            plan_in_range(n as nat, pv),
            q <= plan.len(),
            gone@ == consumed(n as nat, pv.take(q as int)),
        decreases plan.len() - q,
    {
        let (a, b) = plan[q];
        assert(pv[q as int] == (a as int, b as int));
        proof {
            let pre = pv.take(q as int);
            assert forall|x: int| 0 <= x < pre.len() implies 0 <= (#[trigger] pre[x]).0 < n && 0
                <= pre[x].1 < n by {
                assert(pre[x] == pv[x]);
            }
            lemma_consumed_len(n as nat, pre);
        }
        gone.set(a, true);
        gone.set(b, true);
        assert(pv.take(q + 1).drop_last() =~= pv.take(q as int));
        q = q + 1;
    }
    assert(pv.take(q as int) =~= pv);
    let mut out: Vec<P> = Vec::new();
    let mut i: usize = 0;
    while i < n
        invariant
            n == items@.len(),
            i <= n,
            pv == plan_view(*plan),
            plan_in_range(n as nat, pv),
            gone@ == consumed(n as nat, pv),
            out@ == survivors(items@.take(i as int), gone@),
        decreases n - i,
    {
        proof {
            lemma_consumed_len(n as nat, pv);
        }
        assert(items@.take(i + 1).drop_last() =~= items@.take(i as int));
        if !gone[i] {
            out.push(items[i]);
        }
        i = i + 1;
    }
    assert(items@.take(n as int) =~= items@);
    let mut merged = merged;
    out.append(&mut merged);
    out
}

/// The number of marked entries.
pub open spec fn count_marked(g: Seq<bool>) -> nat
    decreases g.len(),
{
    if g.len() == 0 {
        0
    } else {
        count_marked(g.drop_last()) + if g.last() {
            1nat
        } else {
            0nat
        }
    }
}

proof fn lemma_survivors_len<P>(s: Seq<P>, gone: Seq<bool>)
    requires
        gone.len() == s.len(),
    ensures
        survivors(s, gone).len() + count_marked(gone) == s.len(),
    decreases s.len(),
{
    if s.len() > 0 {
        lemma_survivors_prefix(s.drop_last(), gone, gone.drop_last());
        lemma_survivors_len(s.drop_last(), gone.drop_last());
    }
}

/// Where nothing is marked, every body survives.
pub proof fn lemma_survivors_all<P>(s: Seq<P>, gone: Seq<bool>)
    requires
        forall|k: int| 0 <= k < s.len() ==> !(#[trigger] gone[k]),
    ensures
        survivors(s, gone) == s,
    decreases s.len(),
{
    if s.len() > 0 {
        lemma_survivors_all(s.drop_last(), gone);
        assert(s.drop_last().push(s.last()) =~= s);
    }
}

proof fn lemma_count_none(n: nat)
    ensures
        count_marked(Seq::new(n, |k: int| false)) == 0,
    decreases n,
{
    if n > 0 {
        assert(Seq::new(n, |k: int| false).drop_last() =~= Seq::new((n - 1) as nat, |k: int| false));
        lemma_count_none((n - 1) as nat);
    }
}

proof fn lemma_count_mark(g: Seq<bool>, x: int)
    requires
        0 <= x < g.len(),
        !g[x],
    ensures
        count_marked(g.update(x, true)) == count_marked(g) + 1,
    decreases g.len(),
{
    let h = g.update(x, true);
    if x == g.len() - 1 {
        assert(h.drop_last() =~= g.drop_last());
    } else {
        assert(h.drop_last() =~= g.drop_last().update(x, true));
        lemma_count_mark(g.drop_last(), x);
    }
}

/// A body that no merge of `plan` names is not consumed.
proof fn lemma_consumed_free(n: nat, plan: Seq<(int, int)>, x: int)
    requires
        plan_in_range(n, plan),
        0 <= x < n,
        forall|q: int| 0 <= q < plan.len() ==> (#[trigger] plan[q]).0 != x && plan[q].1 != x,
    ensures
        !consumed(n, plan)[x],
    decreases plan.len(),
{
    if plan.len() > 0 {
        let rest = plan.drop_last();
        assert forall|q: int| 0 <= q < rest.len() implies (#[trigger] rest[q]).0 != x && rest[q].1
            != x by {
            assert(rest[q] == plan[q]);
        }
        assert forall|q: int| 0 <= q < rest.len() implies 0 <= (#[trigger] rest[q]).0 < n && 0
            <= rest[q].1 < n by {
            assert(rest[q] == plan[q]);
        }
        assert(plan.last() == plan[plan.len() - 1]);
        lemma_consumed_len(n, rest);
        lemma_consumed_free(n, rest, x);
    }
}

/// Both bodies of every merge of `plan` are consumed.
proof fn lemma_consumed_marked(n: nat, plan: Seq<(int, int)>, q: int)
    requires
        plan_in_range(n, plan),
        0 <= q < plan.len(),
    ensures
        consumed(n, plan)[plan[q].0],
        consumed(n, plan)[plan[q].1],
    decreases plan.len(),
{
    let rest = plan.drop_last();
    assert forall|r: int| 0 <= r < rest.len() implies 0 <= (#[trigger] rest[r]).0 < n && 0
        <= rest[r].1 < n by {
        assert(rest[r] == plan[r]);
    }
    assert(plan.last() == plan[plan.len() - 1]);
    lemma_consumed_len(n, rest);
    if q < plan.len() - 1 {
        assert(rest[q] == plan[q]);
        lemma_consumed_marked(n, rest, q);
    }
}

/// Each body of the sequence is consumed exactly when a merge of the plan
/// names it.
pub proof fn lemma_consumed_exactly(n: nat, plan: Seq<(int, int)>)
    requires
        plan_in_range(n, plan),
    ensures
        consumed(n, plan).len() == n,
        forall|q: int|
            0 <= q < plan.len() ==> consumed(n, plan)[(#[trigger] plan[q]).0] && consumed(
                n,
                plan,
            )[plan[q].1],
        forall|x: int|
            0 <= x < n && (forall|q: int|
                0 <= q < plan.len() ==> (#[trigger] plan[q]).0 != x && plan[q].1 != x)
                ==> !(#[trigger] consumed(n, plan)[x]),
{
    lemma_consumed_len(n, plan);
    assert forall|q: int| 0 <= q < plan.len() implies consumed(n, plan)[(#[trigger] plan[q]).0]
        && consumed(n, plan)[plan[q].1] by {
        lemma_consumed_marked(n, plan, q);
    }
    assert forall|x: int|
        0 <= x < n && (forall|q: int|
            0 <= q < plan.len() ==> (#[trigger] plan[q]).0 != x && plan[q].1 != x) implies !(
        #[trigger] consumed(n, plan)[x]) by {
        lemma_consumed_free(n, plan, x);
    }
}

proof fn lemma_consumed_count(n: nat, plan: Seq<(int, int)>)
    requires
        plan_in_range(n, plan),
        forall|q: int| 0 <= q < plan.len() ==> (#[trigger] plan[q]).0 != plan[q].1,
        forall|q1: int, q2: int|
            0 <= q1 < q2 < plan.len() ==> pairs_apart(#[trigger] plan[q1], #[trigger] plan[q2]),
    ensures
        count_marked(consumed(n, plan)) == 2 * plan.len(),
    decreases plan.len(),
{
    if plan.len() == 0 {
        lemma_count_none(n);
    } else {
        let rest = plan.drop_last();
        let last = plan.last();
        let k = plan.len() - 1;
        assert(last == plan[k]);
        assert forall|q: int| 0 <= q < rest.len() implies 0 <= (#[trigger] rest[q]).0 < n && 0
            <= rest[q].1 < n by {
            assert(rest[q] == plan[q]);
        }
        assert forall|q: int| 0 <= q < rest.len() implies (#[trigger] rest[q]).0 != rest[q].1 by {
            assert(rest[q] == plan[q]);
        }
        assert forall|q1: int, q2: int| 0 <= q1 < q2 < rest.len() implies pairs_apart(
            #[trigger] rest[q1],
            #[trigger] rest[q2],
        ) by {
            assert(rest[q1] == plan[q1] && rest[q2] == plan[q2]);
        }
        assert forall|q: int| 0 <= q < rest.len() implies (#[trigger] rest[q]).0 != last.0
            && rest[q].1 != last.0 by {
            assert(rest[q] == plan[q]);
            assert(pairs_apart(plan[q], plan[k]));
        }
        assert forall|q: int| 0 <= q < rest.len() implies (#[trigger] rest[q]).0 != last.1
            && rest[q].1 != last.1 by {
            assert(rest[q] == plan[q]);
            assert(pairs_apart(plan[q], plan[k]));
        }
        lemma_consumed_count(n, rest);
        lemma_consumed_len(n, rest);
        lemma_consumed_free(n, rest, last.0);
        lemma_consumed_free(n, rest, last.1);
        let c0 = consumed(n, rest);
        lemma_count_mark(c0, last.0);
        lemma_count_mark(c0.update(last.0, true), last.1);
    }
}

/// Each merge takes two bodies out and puts one in: a tick with `k` merges
/// leaves `k` bodies fewer than it began with.
pub proof fn lemma_tick_length<P>(s: Seq<P>, t: Seq<Seq<bool>>, m: Seq<P>)
    requires
        t.len() == s.len(),
        m.len() == merge_plan(t).len(),
    ensures
        tick_result(s, t, m).len() == s.len() - merge_plan(t).len(),
{
    let plan = merge_plan(t);
    lemma_plan_shape(t);
    lemma_plan_disjoint(t);
    assert forall|q: int| 0 <= q < plan.len() implies (#[trigger] plan[q]).0 != plan[q].1 by {}
    lemma_consumed_count(s.len(), plan);
    lemma_consumed_len(s.len(), plan);
    lemma_survivors_len(s, consumed(s.len(), plan));
}

/// The sum of a quantity `w` over the bodies of `s`.
pub open spec fn total<P>(s: Seq<P>, w: spec_fn(P) -> int) -> int
    decreases s.len(),
{
    if s.len() == 0 {
        0
    } else {
        total(s.drop_last(), w) + w(s.last())
    }
}

/// The sum of `w` over the bodies of `s` that `g` marks.
pub open spec fn marked_total<P>(s: Seq<P>, g: Seq<bool>, w: spec_fn(P) -> int) -> int
    decreases s.len(),
{
    if s.len() == 0 {
        0
    } else {
        marked_total(s.drop_last(), g, w) + if g[s.len() - 1] {
            w(s.last())
        } else {
            0
        }
    }
}

/// The sum of `w` over both bodies of every merge of `plan`.
pub open spec fn pair_total<P>(s: Seq<P>, plan: Seq<(int, int)>, w: spec_fn(P) -> int) -> int
    decreases plan.len(),
{
    if plan.len() == 0 {
        0
    } else {
        pair_total(s, plan.drop_last(), w) + w(s[plan.last().0]) + w(s[plan.last().1])
    }
}

proof fn lemma_total_split<P>(s: Seq<P>, g: Seq<bool>, w: spec_fn(P) -> int)
    ensures
        total(survivors(s, g), w) + marked_total(s, g, w) == total(s, w),
    decreases s.len(),
{
    if s.len() > 0 {
        lemma_total_split(s.drop_last(), g, w);
        let rest = survivors(s.drop_last(), g);
        assert(rest.push(s.last()).drop_last() =~= rest);
    }
}

proof fn lemma_marked_prefix<P>(s: Seq<P>, a: Seq<bool>, b: Seq<bool>, w: spec_fn(P) -> int)
    requires
        forall|k: int| 0 <= k < s.len() ==> a[k] == b[k],
    ensures
        marked_total(s, a, w) == marked_total(s, b, w),
    decreases s.len(),
{
    if s.len() > 0 {
        lemma_marked_prefix(s.drop_last(), a, b, w);
    }
}

proof fn lemma_marked_mark<P>(s: Seq<P>, g: Seq<bool>, x: int, w: spec_fn(P) -> int)
    requires
        0 <= x < s.len(),
        g.len() == s.len(),
        !g[x],
    ensures
        marked_total(s, g.update(x, true), w) == marked_total(s, g, w) + w(s[x]),
    decreases s.len(),
{
    let h = g.update(x, true);
    let last = s.len() - 1;
    if x == last {
        lemma_marked_prefix(s.drop_last(), h, g, w);
    } else {
        lemma_marked_prefix(s.drop_last(), h, g.drop_last().update(x, true), w);
        lemma_marked_prefix(s.drop_last(), g, g.drop_last(), w);
        lemma_marked_mark(s.drop_last(), g.drop_last(), x, w);
    }
}

proof fn lemma_marked_none<P>(s: Seq<P>, g: Seq<bool>, w: spec_fn(P) -> int)
    requires
        forall|k: int| 0 <= k < s.len() ==> !(#[trigger] g[k]),
    ensures
        marked_total(s, g, w) == 0,
    decreases s.len(),
{
    if s.len() > 0 {
        lemma_marked_none(s.drop_last(), g, w);
    }
}

proof fn lemma_consumed_total<P>(s: Seq<P>, plan: Seq<(int, int)>, w: spec_fn(P) -> int)
    requires
        plan_in_range(s.len(), plan),
        forall|q: int| 0 <= q < plan.len() ==> (#[trigger] plan[q]).0 != plan[q].1,
        forall|q1: int, q2: int|
            0 <= q1 < q2 < plan.len() ==> pairs_apart(#[trigger] plan[q1], #[trigger] plan[q2]),
    ensures
        marked_total(s, consumed(s.len(), plan), w) == pair_total(s, plan, w),
    decreases plan.len(),
{
    let n = s.len();
    if plan.len() == 0 {
        lemma_marked_none(s, consumed(n, plan), w);
    } else {
        let rest = plan.drop_last();
        let last = plan.last();
        let k = plan.len() - 1;
        assert(last == plan[k]);
        assert forall|q: int| 0 <= q < rest.len() implies 0 <= (#[trigger] rest[q]).0 < n && 0
            <= rest[q].1 < n by {
            assert(rest[q] == plan[q]);
        }
        assert forall|q: int| 0 <= q < rest.len() implies (#[trigger] rest[q]).0 != rest[q].1 by {
            assert(rest[q] == plan[q]);
        }
        assert forall|q1: int, q2: int| 0 <= q1 < q2 < rest.len() implies pairs_apart(
            #[trigger] rest[q1],
            #[trigger] rest[q2],
        ) by {
            assert(rest[q1] == plan[q1] && rest[q2] == plan[q2]);
        }
        assert forall|q: int| 0 <= q < rest.len() implies (#[trigger] rest[q]).0 != last.0
            && rest[q].1 != last.0 by {
            assert(rest[q] == plan[q]);
            assert(pairs_apart(plan[q], plan[k]));
        }
        assert forall|q: int| 0 <= q < rest.len() implies (#[trigger] rest[q]).0 != last.1
            && rest[q].1 != last.1 by {
            assert(rest[q] == plan[q]);
            assert(pairs_apart(plan[q], plan[k]));
        }
        lemma_consumed_total(s, rest, w);
        lemma_consumed_len(n, rest);
        lemma_consumed_free(n, rest, last.0);
        lemma_consumed_free(n, rest, last.1);
        let c0 = consumed(n, rest);
        lemma_marked_mark(s, c0, last.0, w);
        lemma_marked_mark(s, c0.update(last.0, true), last.1, w);
    }
}

proof fn lemma_merged_total<P>(s: Seq<P>, plan: Seq<(int, int)>, m: Seq<P>, w: spec_fn(P) -> int)
    requires
        m.len() == plan.len(),
        forall|q: int|
            0 <= q < m.len() ==> w(#[trigger] m[q]) == w(s[plan[q].0]) + w(s[plan[q].1]),
    ensures
        total(m, w) == pair_total(s, plan, w),
    decreases plan.len(),
{
    if plan.len() > 0 {
        let k = plan.len() - 1;
        assert forall|q: int| 0 <= q < m.drop_last().len() implies w(#[trigger] m.drop_last()[q])
            == w(s[plan.drop_last()[q].0]) + w(s[plan.drop_last()[q].1]) by {
            assert(m.drop_last()[q] == m[q] && plan.drop_last()[q] == plan[q]);
        }
        lemma_merged_total(s, plan.drop_last(), m.drop_last(), w);
        assert(m.last() == m[k] && plan.last() == plan[k]);
    }
}

proof fn lemma_total_concat<P>(a: Seq<P>, b: Seq<P>, w: spec_fn(P) -> int)
    ensures
        total(a + b, w) == total(a, w) + total(b, w),
    decreases b.len(),
{
    if b.len() == 0 {
        assert(a + b =~= a);
    } else {
        lemma_total_concat(a, b.drop_last(), w);
        assert((a + b).drop_last() =~= a + b.drop_last());
        assert((a + b).last() == b.last());
    }
}

/// Merging is additive: for any quantity `w` that a merged body carries as
/// the sum of what its two bodies carried (mass; each component of
/// momentum), the sum of `w` over the bodies after the merges equals the sum
/// before. No body is counted twice and none is lost.
pub proof fn lemma_tick_conserves<P>(s: Seq<P>, t: Seq<Seq<bool>>, m: Seq<P>, w: spec_fn(P) -> int)
    requires
        t.len() == s.len(),
        m.len() == merge_plan(t).len(),
        forall|q: int|
            0 <= q < m.len() ==> w(#[trigger] m[q]) == w(s[merge_plan(t)[q].0]) + w(
                s[merge_plan(t)[q].1],
            ),
    ensures
        total(tick_result(s, t, m), w) == total(s, w),
{
    let plan = merge_plan(t);
    lemma_plan_shape(t);
    lemma_plan_disjoint(t);
    assert forall|q: int| 0 <= q < plan.len() implies (#[trigger] plan[q]).0 != plan[q].1 by {}
    let g = consumed(s.len(), plan);
    lemma_total_split(s, g, w);
    lemma_consumed_total(s, plan, w);
    lemma_merged_total(s, plan, m, w);
    lemma_total_concat(survivors(s, g), m, w);
}

} // verus!
