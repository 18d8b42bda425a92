//! The particle system: an ordered collection of bodies and its tick.
use vstd::prelude::*;

use crate::collision::{
    consumed, is_square, lemma_no_contact_no_merge, lemma_plan_shape, lemma_survivors_all,
    lemma_survivors_extend, matrix_view, merge_plan, next_generation, plan_in_range, plan_merges,
    plan_view, survivors, tick_result,
};

verus! {

/// `b` is what `integrate` made of body `k` of `snapshot`, integrated
/// against the snapshot without body `k` itself.
pub open spec fn integrated_at<P, I: Fn(P, Vec<P>) -> P>(
    snapshot: Seq<P>,
    k: int,
    b: P,
    integrate: I,
) -> bool {
    exists|o: Vec<P>|
        o@ == snapshot.remove(k) && #[trigger] call_ensures(integrate, (snapshot[k], o), b)
}

/// `s` is what `integrate` made of `snapshot`, body by body.
pub open spec fn integrated_from<P, I: Fn(P, Vec<P>) -> P>(
    snapshot: Seq<P>,
    s: Seq<P>,
    integrate: I,
) -> bool {
    &&& s.len() == snapshot.len()
    &&& forall|k: int| 0 <= k < s.len() ==> #[trigger] integrated_at(snapshot, k, s[k], integrate)
}

/// `t` is the contact matrix of `s` as `touches` answered it, for `i < j`.
pub open spec fn contacts_from<P, C: Fn(P, P) -> bool>(
    s: Seq<P>,
    t: Seq<Seq<bool>>,
    touches: C,
) -> bool {
    &&& t.len() == s.len()
    &&& is_square(t)
    &&& forall|i: int, j: int|
        0 <= i < j < s.len() ==> #[trigger] call_ensures(touches, (s[i], s[j]), t[i][j])
}

/// `m` holds, for each merge of `plan`, what `merge` made of its two bodies.
pub open spec fn merged_from<P, M: Fn(P, P) -> P>(
    s: Seq<P>,
    plan: Seq<(int, int)>,
    m: Seq<P>,
    merge: M,
) -> bool {
    &&& m.len() == plan.len()
    &&& forall|q: int|
        0 <= q < m.len() ==> #[trigger] call_ensures(merge, (s[plan[q].0], s[plan[q].1]), m[q])
}

/// The bodies of `snapshot` but the one at `k`, in their order.
pub fn others_of<P: Copy>(snapshot: &Vec<P>, k: usize) -> (r: Vec<P>)
    requires
        k < snapshot@.len(),
    ensures
        r@ == snapshot@.remove(k as int),
{
    let mut r: Vec<P> = Vec::new();
    let mut i: usize = 0;
    while i < snapshot.len()
        invariant
            k < snapshot@.len(),
            i <= snapshot@.len(),
            r@ == (if i <= k {
                snapshot@.take(i as int)
            } else {
                snapshot@.take(i as int).remove(k as int)
            }),
        decreases snapshot.len() - i,
    {
        if i != k {
            r.push(snapshot[i]);
        }
        proof {
            if i < k {
                assert(snapshot@.take(i + 1) =~= snapshot@.take(i as int).push(snapshot@[i as int]));
            } else if i == k {
                assert(snapshot@.take(i + 1).remove(k as int) =~= snapshot@.take(i as int));
            } else {
                assert(snapshot@.take(i + 1).remove(k as int) =~= snapshot@.take(i as int).remove(
                    k as int,
                ).push(snapshot@[i as int]));
            }
        }
        i = i + 1;
    }
    assert(snapshot@.take(snapshot@.len() as int) =~= snapshot@);
    r
}

/// Phase A of a tick: integrates every body of the snapshot against all the
/// other bodies of the snapshot. The snapshot is only read; the results come
/// in the snapshot's order.
pub fn integrate_all<P: Copy, I: Fn(P, Vec<P>) -> P>(snapshot: &Vec<P>, integrate: I) -> (r: Vec<
    P,
>)
    requires
        forall|p: P, o: Vec<P>| call_requires(integrate, (p, o)),
    ensures
        integrated_from(snapshot@, r@, integrate),
{
    let mut r: Vec<P> = Vec::new();
    let mut k: usize = 0;
    while k < snapshot.len()
        invariant
            k <= snapshot@.len(),
            r@.len() == k,
            forall|p: P, o: Vec<P>| call_requires(integrate, (p, o)),
            forall|x: int| 0 <= x < k ==> #[trigger] integrated_at(snapshot@, x, r@[x], integrate),
        decreases snapshot.len() - k,
    {
        let o = others_of(snapshot, k);
        let ghost og = o;
        let p = integrate(snapshot[k], o);
        r.push(p);
        assert(call_ensures(integrate, (snapshot@[k as int], og), r@[k as int]));
        assert(integrated_at(snapshot@, k as int, r@[k as int], integrate));
        k = k + 1;
    }
    r
}

/// The contact matrix of `s`: entry `(i, j)`, `i < j`, is what `touches`
/// says of bodies `i` and `j`; the other entries are `false`.
pub fn contact_matrix<P: Copy, C: Fn(P, P) -> bool>(s: &Vec<P>, touches: C) -> (r: Vec<Vec<bool>>)
    requires
        forall|a: P, b: P| call_requires(touches, (a, b)),
    ensures
        contacts_from(s@, matrix_view(r), touches),
{
    let n = s.len();
    let mut r: Vec<Vec<bool>> = Vec::new();
    let mut i: usize = 0;
    while i < n
        invariant
            n == s@.len(),
            i <= n,
            r@.len() == i,
            forall|a: P, b: P| call_requires(touches, (a, b)),
            forall|x: int| 0 <= x < i ==> (#[trigger] r@[x])@.len() == n,
            forall|x: int, y: int|
                0 <= x < i && x < y < n ==> #[trigger] call_ensures(
                    touches,
                    (s@[x], s@[y]),
                    r@[x]@[y],
                ),
        decreases n - i,
    {
        let mut row: Vec<bool> = Vec::new();
        let mut j: usize = 0;
        while j < n
            invariant
                n == s@.len(),
                i < n,
                j <= n,
                row@.len() == j,
                forall|a: P, b: P| call_requires(touches, (a, b)),
                forall|y: int|
                    i < y < j ==> #[trigger] call_ensures(touches, (s@[i as int], s@[y]), row@[y]),
            decreases n - j,
        {
            if j > i {
                let c = touches(s[i], s[j]);
                row.push(c);
            } else {
                row.push(false);
            }
            j = j + 1;
        }
        r.push(row);
        i = i + 1;
    }
    let ghost t = matrix_view(r);
    assert forall|x: int, y: int| 0 <= x < y < s@.len() implies #[trigger] call_ensures(
        touches,
        (s@[x], s@[y]),
        t[x][y],
    ) by {
        assert(t[x] == r@[x]@);
    }
    assert forall|x: int| 0 <= x < t.len() implies (#[trigger] t[x]).len() == t.len() by {
        assert(t[x] == r@[x]@);
    }
    r
}

/// Makes the merged body of each merge of `plan`, in the plan's order.
pub fn merge_all<P: Copy, M: Fn(P, P) -> P>(s: &Vec<P>, plan: &Vec<(usize, usize)>, merge: M) -> (r:
    Vec<P>)
    requires
        plan_in_range(s@.len(), plan_view(*plan)),
        forall|a: P, b: P| call_requires(merge, (a, b)),
    ensures
        merged_from(s@, plan_view(*plan), r@, merge),
{
    let ghost pv = plan_view(*plan);
    let mut r: Vec<P> = Vec::new();
    let mut q: usize = 0;
    while q < plan.len()
        invariant
            pv == plan_view(*plan),
            plan_in_range(s@.len(), pv),
            q <= plan.len(),
            r@.len() == q,
            forall|a: P, b: P| call_requires(merge, (a, b)),
            forall|x: int|
                0 <= x < q ==> #[trigger] call_ensures(merge, (s@[pv[x].0], s@[pv[x].1]), r@[x]),
        decreases plan.len() - q,
    {
        let (a, b) = plan[q];
        assert(pv[q as int] == (a as int, b as int));
        let m = merge(s[a], s[b]);
        r.push(m);
        q = q + 1;
    }
    r
}

/// An ordered collection of bodies that it owns exclusively. The order has
/// no physical meaning but decides which merges a tick chooses.
pub struct ParticleSystem<P> {
    particles: Vec<P>,
}

impl<P> View for ParticleSystem<P> {
    type V = Seq<P>;

    closed spec fn view(&self) -> Seq<P> {
        self.particles@
    }
}

impl<P: Copy> ParticleSystem<P> {
    /// An empty system.
    pub fn new() -> (r: Self)
        ensures
            r@ == Seq::<P>::empty(),
    {
        ParticleSystem { particles: Vec::new() }
    }

    /// Appends a body at the end of the sequence.
    pub fn add_particle(&mut self, particle: P)
        ensures
            final(self)@ == old(self)@.push(particle),
    {
        self.particles.push(particle);
    }

    /// The current bodies, read-only.
    pub fn particles(&self) -> (r: &Vec<P>)
        ensures
            r@ == self@,
    {
        &self.particles
    }

    /// The number of bodies.
    pub fn len(&self) -> (r: usize)
        ensures
            r == self@.len(),
    {
        self.particles.len()
    }

    /// Removes every body that `same` declares equal to `particle`; the
    /// others keep their order. Removing an absent body changes nothing.
    pub fn remove_particle<F: Fn(P, P) -> bool>(&mut self, particle: P, same: F)
        requires
            forall|a: P, b: P| call_requires(same, (a, b)),
        ensures
            exists|flags: Seq<bool>|
                {
                    &&& flags.len() == old(self)@.len()
                    &&& forall|k: int|
                        0 <= k < flags.len() ==> #[trigger] call_ensures(
                            same,
                            (old(self)@[k], particle),
                            flags[k],
                        )
                    &&& final(self)@ == survivors(old(self)@, flags)
                },
    {
        let ghost before = self.particles@;
        let mut kept: Vec<P> = Vec::new();
        let ghost mut flags: Seq<bool> = Seq::empty();
        let mut i: usize = 0;
        while i < self.particles.len()
            invariant
                self.particles@ == before,
                i <= before.len(),
                flags.len() == i,
                forall|a: P, b: P| call_requires(same, (a, b)),
                forall|k: int|
                    0 <= k < i ==> #[trigger] call_ensures(same, (before[k], particle), flags[k]),
                kept@ == survivors(before.take(i as int), flags),
            decreases before.len() - i,
        {
            let p = self.particles[i];
            let f = same(p, particle);
            assert(before.take(i + 1) =~= before.take(i as int).push(p));
            proof {
                lemma_survivors_extend(before.take(i as int), flags, f);
                flags = flags.push(f);
            }
            if !f {
                kept.push(p);
            }
            i = i + 1;
        }
        assert(before.take(i as int) =~= before);
        self.particles = kept;
    }

    /// One tick. Phase A integrates every body against a frozen snapshot of
    /// the others; phase B asks `touches` for the contact of every pair of
    /// integrated bodies, chooses the merges (see `plan_merges`), makes each
    /// merged body with `merge`, and keeps the bodies that no merge consumed
    /// followed by the merged ones.
    pub fn update<I, C, M>(&mut self, integrate: I, touches: C, merge: M)
        where
            I: Fn(P, Vec<P>) -> P,
            C: Fn(P, P) -> bool,
            M: Fn(P, P) -> P,
        requires
            forall|p: P, o: Vec<P>| call_requires(integrate, (p, o)),
            forall|a: P, b: P| call_requires(touches, (a, b)),
            forall|a: P, b: P| call_requires(merge, (a, b)),
        ensures
            exists|s: Seq<P>, t: Seq<Seq<bool>>, m: Seq<P>|
                {
                    &&& integrated_from(old(self)@, s, integrate)
                    &&& contacts_from(s, t, touches)
                    &&& merged_from(s, merge_plan(t), m, merge)
                    &&& #[trigger] tick_result(s, t, m) == final(self)@
                },
    {
        let moved = integrate_all(&self.particles, integrate);
        let contact = contact_matrix(&moved, touches);
        let plan = plan_merges(&contact);
        proof {
            lemma_plan_shape(matrix_view(contact));
        }
        let merged = merge_all(&moved, &plan, merge);
        let ghost m = merged@;
        self.particles = next_generation(&moved, &plan, merged);
        assert(tick_result(moved@, matrix_view(contact), m) == self.particles@);
    }
}

/// A tick in which no pair of integrated bodies touches keeps every body,
/// in its order, and adds none: the tick is the integration alone.
pub proof fn lemma_no_contact_tick<P>(s: Seq<P>, t: Seq<Seq<bool>>, m: Seq<P>)
    requires
        t.len() == s.len(),
        forall|i: int, j: int| 0 <= i < j < t.len() ==> !(#[trigger] t[i][j]),
        m.len() == merge_plan(t).len(),
    ensures
        merge_plan(t).len() == 0,
        tick_result(s, t, m) == s,
{
    lemma_no_contact_no_merge(t);
    assert(consumed(s.len(), merge_plan(t)) == Seq::new(s.len(), |k: int| false));
    lemma_survivors_all(s, consumed(s.len(), merge_plan(t)));
    assert(m =~= Seq::<P>::empty());
    assert(tick_result(s, t, m) =~= s);
}

/// A lone body exerts no force on itself: it is integrated against no
/// other body, and the tick yields exactly that integrated body.
pub proof fn lemma_lone_body<P, I: Fn(P, Vec<P>) -> P>(
    snapshot: Seq<P>,
    s: Seq<P>,
    t: Seq<Seq<bool>>,
    m: Seq<P>,
    integrate: I,
)
    requires
        snapshot.len() == 1,
        integrated_from(snapshot, s, integrate),
        t.len() == s.len(),
        m.len() == merge_plan(t).len(),
    ensures
        exists|o: Vec<P>|
            o@.len() == 0 && #[trigger] call_ensures(integrate, (snapshot[0], o), s[0]),
        tick_result(s, t, m) == seq![s[0]],
{
    assert(integrated_at(snapshot, 0, s[0], integrate));
    let o = choose|o: Vec<P>|
        o@ == snapshot.remove(0) && #[trigger] call_ensures(integrate, (snapshot[0], o), s[0]);
    assert(o@.len() == 0);
    lemma_no_contact_tick(s, t, m);
    assert(s =~= seq![s[0]]);
}

/// The bodies after adding each of `items` in turn to a system holding
/// `start`.
pub open spec fn after_adds<P>(start: Seq<P>, items: Seq<P>) -> Seq<P>
    decreases items.len(),
{
    if items.len() == 0 {
        start
    } else {
        after_adds(start.push(items[0]), items.skip(1))
    }
}

/// Seeding keeps insertion order: adding `items` one by one to a system
/// holding `start` leaves `start` followed by `items`; from an empty system,
/// exactly `items`.
pub proof fn lemma_seeding<P>(start: Seq<P>, items: Seq<P>)
    ensures
        after_adds(start, items) == start + items,
        after_adds(Seq::empty(), items) == items,
    decreases items.len(),
{
    if items.len() > 0 {
        lemma_seeding(start.push(items[0]), items.skip(1));
        assert(start.push(items[0]) + items.skip(1) =~= start + items);
    }
    assert(Seq::<P>::empty() + items =~= items);
    if items.len() > 0 {
        lemma_seeding(Seq::<P>::empty().push(items[0]), items.skip(1));
        assert(Seq::<P>::empty().push(items[0]) + items.skip(1) =~= items);
    }
}

} // verus!
