//! Cycles among the dependencies of forces.
use vstd::prelude::*;
use crate::order::{
    in_order, law_sorted_in_order, law_sorted_rearranges, lemma_sorted_contains,
    lemma_texts_le_antisymmetric, lemma_texts_le_total, lemma_texts_le_transitive, sort, sorted,
    texts_le, texts_not_after, Ordered,
};
use crate::record::{Force, ForceView};
use crate::text::views;
use vstd::hash_map::StringHashMap;
use vstd::set_lib::{lemma_int_range, lemma_len_subset, set_int_range};

verus! {

/// The ids of a list of forces.
pub open spec fn force_ids(forces: Seq<ForceView>) -> Seq<Seq<char>> {
    forces.map_values(|f: ForceView| f.id)
}

/// Whether the force `u` rests directly on the force `v`.
pub open spec fn rests_on(forces: Seq<ForceView>, u: Seq<char>, v: Seq<char>) -> bool {
    &&& force_ids(forces).contains(v)
    &&& exists|i: int|
        0 <= i < forces.len() && (#[trigger] forces[i]).id == u && forces[i].depends_on.contains(v)
}

/// The element behind the one at `i`, going round.
pub open spec fn next_of<T>(w: Seq<T>, i: int) -> T {
    if i + 1 < w.len() {
        w[i + 1]
    } else {
        w[0]
    }
}

/// Whether the force at `i` rests on the one behind it, going round.
pub open spec fn goes_on(forces: Seq<ForceView>, w: Seq<Seq<char>>, i: int) -> bool {
    rests_on(forces, w[i], next_of(w, i))
}

/// Whether each force of a list rests on the next one, and the last on the first.
pub open spec fn is_round(forces: Seq<ForceView>, w: Seq<Seq<char>>) -> bool {
    &&& w.len() > 0
    &&& forall|i: int| 0 <= i < w.len() ==> #[trigger] goes_on(forces, w, i)
}

/// Whether a list of forces is a cycle: a round on which no force occurs twice.
pub open spec fn is_cycle(forces: Seq<ForceView>, w: Seq<Seq<char>>) -> bool {
    is_round(forces, w) && w.no_duplicates()
}

/// Whether a list holds the forces of a cycle, in order.
pub open spec fn is_report(forces: Seq<ForceView>, c: Seq<Seq<char>>) -> bool {
    exists|w: Seq<Seq<char>>| #[trigger] is_cycle(forces, w) && c == sorted::<String>(w)
}

/// Whether one of the reported cycles holds both of two forces.
pub open spec fn holds_both(cs: Seq<Seq<Seq<char>>>, u: Seq<char>, v: Seq<char>) -> bool {
    exists|k: int| 0 <= k < cs.len() && (#[trigger] cs[k]).contains(u) && cs[k].contains(v)
}

/// Whether a round shows in the reported cycles: one of them holds some force
/// of the round together with the force that it rests on there.
pub open spec fn shows(cs: Seq<Seq<Seq<char>>>, w: Seq<Seq<char>>) -> bool {
    exists|i: int| 0 <= i < w.len() && #[trigger] shows_at(cs, w, i)
}

/// Whether one of the reported cycles holds the force at `i` of a round
/// together with the one behind it.
pub open spec fn shows_at(cs: Seq<Seq<Seq<char>>>, w: Seq<Seq<char>>, i: int) -> bool {
    holds_both(cs, w[i], next_of(w, i))
}

/// Whether `cs` reports the cycles of the dependencies: each report is a
/// cycle, the reports are in order and differ, and every round shows in them.
pub open spec fn reports_cycles(forces: Seq<ForceView>, cs: Seq<Seq<Seq<char>>>) -> bool {
    &&& forall|k: int| 0 <= k < cs.len() ==> is_report(forces, #[trigger] cs[k])
    &&& forall|j: int, k: int|
        0 <= j < k < cs.len() ==> texts_le(#[trigger] cs[j], #[trigger] cs[k]) && cs[j] != cs[k]
    &&& forall|w: Seq<Seq<char>>| #[trigger] is_round(forces, w) ==> shows(cs, w)
}

/// The forces of one reported cycle.
pub struct Members {
    pub ids: Vec<String>,
}

impl View for Members {
    type V = Seq<Seq<char>>;

    open spec fn view(&self) -> Seq<Seq<char>> {
        views(self.ids@)
    }
}

impl Ordered for Members {
    open spec fn le(a: Seq<Seq<char>>, b: Seq<Seq<char>>) -> bool {
        texts_le(a, b)
    }

    proof fn le_total(a: Seq<Seq<char>>, b: Seq<Seq<char>>) {
        lemma_texts_le_total(a, b);
    }

    proof fn le_transitive(a: Seq<Seq<char>>, b: Seq<Seq<char>>, c: Seq<Seq<char>>) {
        lemma_texts_le_transitive(a, b, c);
    }

    fn not_after(&self, other: &Self) -> (r: bool) {
        texts_not_after(&self.ids, &other.ids)
    }
}

fn same_members(a: &Members, b: &Members) -> (r: bool)
    ensures
        r == (a@ == b@),
{
    let ab = texts_not_after(&a.ids, &b.ids);
    let ba = texts_not_after(&b.ids, &a.ids);
    proof {
        if ab && ba {
            lemma_texts_le_antisymmetric(a@, b@);
        }
        lemma_texts_le_total(a@, a@);
    }
    ab && ba
}

fn holds_members(cycles: &Vec<Members>, m: &Members) -> (r: bool)
    ensures
        r == views(cycles@).contains(m@),
{
    for k in 0..cycles.len()
        invariant
            forall|j: int| 0 <= j < k ==> views(cycles@)[j] != m@,
    {
        if same_members(&cycles[k], m) {
            assert(views(cycles@)[k as int] == m@);
            return true;
        }
    }
    false
}

/// Whether there is an arc between two places of an adjacency list.
spec fn arc(adj: Seq<Vec<usize>>, u: int, v: int) -> bool {
    exists|k: int| 0 <= k < adj[u]@.len() && #[trigger] adj[u]@[k] == v
}

/// Whether an adjacency list is that of the dependencies of forces with
/// different ids.
spec fn is_adjacency(forces: Seq<ForceView>, adj: Seq<Vec<usize>>) -> bool {
    &&& adj.len() == forces.len()
    &&& force_ids(forces).no_duplicates()
    &&& forall|u: int, k: int|
        0 <= u < adj.len() && 0 <= k < adj[u]@.len() ==> #[trigger] adj[u]@[k] < adj.len()
    &&& forall|u: int, v: int|
        0 <= u < adj.len() && 0 <= v < adj.len() ==> (#[trigger] arc(adj, u, v)
            <==> forces[u].depends_on.contains(forces[v].id))
}

/// The state of the search: the color of each force (0 not met, 1 on the path,
/// 2 done), the path to the current force, and the cycles that were met.
struct Walk {
    color: Vec<u8>,
    path: Vec<usize>,
    cycles: Vec<Members>,
    finished: Ghost<Seq<int>>,
}

/// Whether a dependency is accounted for: its target was done before, or one
/// of the cycles holds both ends.
spec fn settled(
    forces: Seq<ForceView>,
    cs: Seq<Seq<Seq<char>>>,
    before: Seq<int>,
    u: int,
    v: int,
) -> bool {
    before.contains(v) || holds_both(cs, forces[u].id, forces[v].id)
}

/// Whether the path goes on over an arc from the place `i`.
spec fn steps(adj: Seq<Vec<usize>>, path: Seq<usize>, i: int) -> bool {
    arc(adj, path[i] as int, path[i + 1] as int)
}

/// Whether all dependencies of the force done at place `p` are accounted for.
spec fn done(
    forces: Seq<ForceView>,
    adj: Seq<Vec<usize>>,
    cs: Seq<Seq<Seq<char>>>,
    finished: Seq<int>,
    p: int,
) -> bool {
    forall|v: int|
        0 <= v < adj.len() && #[trigger] arc(adj, finished[p], v) ==> settled(
            forces,
            cs,
            finished.take(p),
            finished[p],
            v,
        )
}

impl Walk {
    spec fn reports(self) -> Seq<Seq<Seq<char>>> {
        views(self.cycles@)
    }

    #[verifier::opaque]
    spec fn inv(self, forces: Seq<ForceView>, adj: Seq<Vec<usize>>) -> bool {
        &&& self.color.len() == forces.len()
        &&& self.path@.no_duplicates()
        &&& forall|i: int|
            0 <= i < self.path.len() ==> #[trigger] self.path@[i] < forces.len()
                && self.color@[self.path@[i] as int] == 1
        &&& forall|v: int|
            0 <= v < forces.len() && #[trigger] self.color@[v] == 1 ==> self.path@.contains(
                v as usize,
            )
        &&& forall|i: int| 0 <= i < self.path.len() - 1 ==> #[trigger] steps(adj, self.path@, i)
        &&& self.finished@.no_duplicates()
        &&& forall|p: int|
            0 <= p < self.finished@.len() ==> 0 <= #[trigger] self.finished@[p] < forces.len()
                && self.color@[self.finished@[p]] == 2
        &&& forall|v: int|
            0 <= v < forces.len() && #[trigger] self.color@[v] == 2 ==> self.finished@.contains(v)
        &&& forall|p: int|
            0 <= p < self.finished@.len() ==> #[trigger] done(
                forces,
                adj,
                self.reports(),
                self.finished@,
                p,
            )
        &&& forall|v: int| 0 <= v < forces.len() ==> #[trigger] self.color@[v] <= 2
        &&& forall|k: int|
            0 <= k < self.cycles.len() ==> is_report(forces, #[trigger] self.reports()[k])
        &&& self.reports().no_duplicates()
    }

    /// Whether a later state keeps what this one has done.
    spec fn grows_to(self, later: Walk) -> bool {
        &&& self.color.len() == later.color.len()
        &&& forall|v: int|
            0 <= v < self.color.len() && self.color@[v] != 0 ==> #[trigger] later.color@[v]
                == self.color@[v]
        &&& self.finished@.is_prefix_of(later.finished@)
        &&& self.reports().is_prefix_of(later.reports())
    }
}

/// The places that were not met.
spec fn whites(color: Seq<u8>) -> Set<int> {
    set_int_range(0, color.len() as int).filter(|v: int| color[v] == 0)
}

proof fn lemma_whites_shrink(a: Seq<u8>, b: Seq<u8>, node: int)
    requires
        a.len() == b.len(),
        0 <= node < a.len(),
        a[node] == 0,
        b[node] != 0,
        forall|v: int| 0 <= v < a.len() && a[v] != 0 ==> #[trigger] b[v] != 0,
    ensures
        whites(b).len() < whites(a).len(),
{
    lemma_int_range(0, a.len() as int);
    assert(whites(a).finite()) by {
        lemma_len_subset(whites(a), set_int_range(0, a.len() as int));
    }
    assert(whites(b).subset_of(whites(a).remove(node)));
    lemma_len_subset(whites(b), whites(a).remove(node));
}

proof fn lemma_holds_both_grows(
    cs: Seq<Seq<Seq<char>>>,
    ds: Seq<Seq<Seq<char>>>,
    u: Seq<char>,
    v: Seq<char>,
)
    requires
        cs.is_prefix_of(ds),
        holds_both(cs, u, v),
    ensures
        holds_both(ds, u, v),
{
    let k = choose|k: int| 0 <= k < cs.len() && (#[trigger] cs[k]).contains(u) && cs[k].contains(v);
    assert(ds[k] == cs[k]);
}

proof fn lemma_done_grows(
    forces: Seq<ForceView>,
    adj: Seq<Vec<usize>>,
    cs: Seq<Seq<Seq<char>>>,
    ds: Seq<Seq<Seq<char>>>,
    a: Seq<int>,
    b: Seq<int>,
    p: int,
)
    requires
        cs.is_prefix_of(ds),
        a.is_prefix_of(b),
        0 <= p < a.len(),
        done(forces, adj, cs, a, p),
    ensures
        done(forces, adj, ds, b, p),
{
    assert(a.take(p) =~= b.take(p));
    assert(a[p] == b[p]);
    assert forall|v: int| 0 <= v < adj.len() && #[trigger] arc(adj, b[p], v) implies settled(
        forces,
        ds,
        b.take(p),
        b[p],
        v,
    ) by {
        assert(settled(forces, cs, a.take(p), a[p], v));
        if holds_both(cs, forces[a[p]].id, forces[v].id) {
            lemma_holds_both_grows(cs, ds, forces[a[p]].id, forces[v].id);
        }
    }
}

proof fn lemma_arc_rests(forces: Seq<ForceView>, adj: Seq<Vec<usize>>, u: int, v: int)
    requires
        is_adjacency(forces, adj),
        0 <= u < forces.len(),
        0 <= v < forces.len(),
        arc(adj, u, v),
    ensures
        rests_on(forces, forces[u].id, forces[v].id),
{
    assert(force_ids(forces)[v] == forces[v].id);
    assert(forces[u].depends_on.contains(forces[v].id));
}

/// The ids of the forces at the given places.
spec fn ids_at(forces: Seq<ForceView>, places: Seq<usize>) -> Seq<Seq<char>> {
    places.map_values(|u: usize| forces[u as int].id)
}

proof fn lemma_path_closes(
    forces: Seq<ForceView>,
    adj: Seq<Vec<usize>>,
    path: Seq<usize>,
    pos: int,
)
    requires
        is_adjacency(forces, adj),
        path.no_duplicates(),
        forall|i: int| 0 <= i < path.len() ==> #[trigger] path[i] < forces.len(),
        forall|i: int| 0 <= i < path.len() - 1 ==> #[trigger] steps(adj, path, i),
        0 <= pos < path.len(),
        arc(adj, path.last() as int, path[pos] as int),
    ensures
        is_cycle(forces, ids_at(forces, path.skip(pos))),
{
    let part = path.skip(pos);
    let w = ids_at(forces, part);
    assert forall|i: int| 0 <= i < w.len() implies #[trigger] goes_on(forces, w, i) by {
        if i + 1 < w.len() {
            assert(steps(adj, path, pos + i));
            lemma_arc_rests(forces, adj, path[pos + i] as int, path[pos + i + 1] as int);
        } else {
            assert(path.last() == path[pos + i]);
            lemma_arc_rests(forces, adj, path[pos + i] as int, path[pos] as int);
        }
    }
    assert forall|i: int, j: int| 0 <= i < w.len() && 0 <= j < w.len() && i != j implies w[i]
        != w[j] by {
        let a = path[pos + i];
        let b = path[pos + j];
        assert(a != b);
        assert(force_ids(forces)[a as int] == w[i]);
        assert(force_ids(forces)[b as int] == w[j]);
    }
}

/// Records the cycle that the path closes when its end rests on the force at
/// the place `pos` of it.
fn close_cycle(forces: &Vec<Force>, walk: &mut Walk, pos: usize, Ghost(adj): Ghost<Seq<Vec<usize>>>)
    requires
        is_adjacency(views(forces@), adj),
        old(walk).inv(views(forces@), adj),
        pos < old(walk).path.len(),
        arc(adj, old(walk).path@.last() as int, old(walk).path@[pos as int] as int),
    ensures
        final(walk).inv(views(forces@), adj),
        old(walk).grows_to(*final(walk)),
        final(walk).path == old(walk).path,
        final(walk).color == old(walk).color,
        final(walk).finished == old(walk).finished,
        holds_both(
            final(walk).reports(),
            views(forces@)[old(walk).path@.last() as int].id,
            views(forces@)[old(walk).path@[pos as int] as int].id,
        ),
{
    proof {
        reveal(Walk::inv);
    }
    let ghost fv = views(forces@);
    let ghost first = *walk;
    let ghost u = walk.path@.last() as int;
    let ghost v = walk.path@[pos as int] as int;
    let ghost w = ids_at(fv, walk.path@.skip(pos as int));
    let mut ids: Vec<String> = Vec::new();
    for i in pos..walk.path.len()
        invariant
            fv == views(forces@),
            first == *walk,
            w == ids_at(fv, walk.path@.skip(pos as int)),
            forall|i: int| 0 <= i < walk.path.len() ==> #[trigger] walk.path@[i] < forces.len(),
            pos <= walk.path.len(),
            ids.len() == i - pos,
            forall|j: int| 0 <= j < ids.len() ==> (#[trigger] ids@[j])@ == w[j],
    {
        let at = walk.path[i];
        assert(w[i - pos] == forces@[at as int].id@);
        ids.push(forces[at].id.clone());
    }
    proof {
        assert(views(ids@) =~= w);
        lemma_path_closes(fv, adj, walk.path@, pos as int);
        assert(w[w.len() - 1] == fv[u].id);
        assert(w[0] == fv[v].id);
        lemma_sorted_contains::<String>(w, fv[u].id);
        lemma_sorted_contains::<String>(w, fv[v].id);
        assert(w.contains(fv[u].id) && w.contains(fv[v].id));
    }
    let members = Members { ids: sort(ids) };
    assert(is_report(fv, members@));
    if holds_members(&walk.cycles, &members) {
        return ;
    }
    walk.cycles.push(members);
    proof {
        let cs = first.reports();
        let ds = walk.reports();
        assert(ds =~= cs.push(members@));
        assert(ds[cs.len() as int] == members@);
        assert forall|p: int| 0 <= p < walk.finished@.len() implies #[trigger] done(
            fv,
            adj,
            ds,
            walk.finished@,
            p,
        ) by {
            lemma_done_grows(fv, adj, cs, ds, walk.finished@, walk.finished@, p);
        }
        assert forall|k: int| 0 <= k < walk.cycles.len() implies is_report(
            fv,
            #[trigger] walk.reports()[k],
        ) by {
            if k < cs.len() {
                assert(ds[k] == cs[k]);
            }
        }
        assert(ds.no_duplicates());
    }
}

fn place_of(path: &Vec<usize>, v: usize) -> (r: usize)
    requires
        path@.contains(v),
    ensures
        r < path.len(),
        path@[r as int] == v,
{
    let mut i: usize = 0;
    while path[i] != v
        invariant
            i < path.len(),
            path@.contains(v),
            forall|j: int| 0 <= j < i ==> path@[j] != v,
        decreases path.len() - i,
    {
        i = i + 1;
        assert(i < path.len()) by {
            let k = choose|k: int| 0 <= k < path.len() && path@[k] == v;
            assert(k >= i);
        }
    }
    i
}

/// Enters a force: it goes onto the path.
fn enter(walk: &mut Walk, node: usize, Ghost(forces): Ghost<Seq<ForceView>>, Ghost(adj): Ghost<Seq<Vec<usize>>>)
    requires
        old(walk).inv(forces, adj),
        node < forces.len(),
        old(walk).color@[node as int] == 0,
        old(walk).path.len() > 0 ==> arc(adj, old(walk).path@.last() as int, node as int),
    ensures
        final(walk).inv(forces, adj),
        final(walk).path@ == old(walk).path@.push(node),
        final(walk).color@ == old(walk).color@.update(node as int, 1),
        final(walk).finished == old(walk).finished,
        final(walk).cycles == old(walk).cycles,
{
    proof {
        reveal(Walk::inv);
    }
    let ghost first = *walk;
    walk.color.set(node, 1);
    walk.path.push(node);
    proof {
        let path = walk.path@;
        assert forall|i: int| 0 <= i < path.len() - 1 implies #[trigger] steps(adj, path, i) by {
            if i + 1 < first.path.len() {
                assert(steps(adj, first.path@, i));
            }
        }
        assert forall|i: int| 0 <= i < path.len() implies #[trigger] path[i] < forces.len()
            && walk.color@[path[i] as int] == 1 by {
            if i < first.path.len() {
                assert(first.path@[i] < forces.len());
            }
        }
        assert(path[path.len() - 1] == node);
        assert forall|v: int| 0 <= v < forces.len() && #[trigger] walk.color@[v] == 1 implies path.contains(
            v as usize,
        ) by {
            if v != node {
                assert(first.color@[v] == 1);
                let i = choose|i: int| 0 <= i < first.path.len() && first.path@[i] == v as usize;
                assert(path[i] == v as usize);
            }
        }
        assert(path.no_duplicates());
        assert forall|v: int| 0 <= v < forces.len() && #[trigger] walk.color@[v] == 2 implies walk.finished@.contains(v) by {
            assert(first.color@[v] == 2);
        }
        assert forall|v: int| 0 <= v < forces.len() implies #[trigger] walk.color@[v] <= 2 by {
            assert(first.color@[v] <= 2);
        }
    }
}

/// Leaves a force whose dependencies are all accounted for.
fn leave(walk: &mut Walk, node: usize, Ghost(forces): Ghost<Seq<ForceView>>, Ghost(adj): Ghost<Seq<Vec<usize>>>)
    requires
        old(walk).inv(forces, adj),
        adj.len() == forces.len(),
        node < forces.len(),
        old(walk).path.len() > 0,
        old(walk).path@.last() == node,
        forall|v: int|
            0 <= v < adj.len() && #[trigger] arc(adj, node as int, v) ==> settled(
                forces,
                old(walk).reports(),
                old(walk).finished@,
                node as int,
                v,
            ),
    ensures
        final(walk).inv(forces, adj),
        final(walk).path@ == old(walk).path@.drop_last(),
        final(walk).color@ == old(walk).color@.update(node as int, 2),
        final(walk).finished@ == old(walk).finished@.push(node as int),
        final(walk).cycles == old(walk).cycles,
{
    proof {
        reveal(Walk::inv);
    }
    let ghost first = *walk;
    let _ = walk.path.pop();
    walk.color.set(node, 2);
    walk.finished = Ghost(walk.finished@.push(node as int));
    proof {
        let path = walk.path@;
        let fin = walk.finished@;
        assert forall|i: int| 0 <= i < path.len() - 1 implies #[trigger] steps(adj, path, i) by {
            assert(steps(adj, first.path@, i));
        }
        assert(first.path@[path.len() as int] == node);
        assert forall|i: int| 0 <= i < path.len() implies #[trigger] path[i] < forces.len()
            && walk.color@[path[i] as int] == 1 by {
            assert(first.path@[i] == path[i]);
            assert(first.path@[i] != first.path@[path.len() as int]);
        }
        assert forall|v: int| 0 <= v < forces.len() && #[trigger] walk.color@[v] == 1 implies path.contains(
            v as usize,
        ) by {
            assert(first.color@[v] == 1);
            let i = choose|i: int| 0 <= i < first.path.len() && first.path@[i] == v as usize;
            assert(i < path.len());
            assert(path[i] == v as usize);
        }
        assert forall|p: int| 0 <= p < fin.len() implies 0 <= #[trigger] fin[p] < forces.len()
            && walk.color@[fin[p]] == 2 by {
            if p < first.finished@.len() {
                assert(first.finished@[p] == fin[p]);
            }
        }
        assert forall|v: int| 0 <= v < forces.len() && #[trigger] walk.color@[v] == 2 implies fin.contains(v) by {
            if v == node {
                assert(fin[fin.len() - 1] == v);
            } else {
                assert(first.color@[v] == 2);
                let p = choose|p: int| 0 <= p < first.finished@.len() && first.finished@[p] == v;
                assert(fin[p] == v);
            }
        }
        assert forall|p: int| 0 <= p < fin.len() implies #[trigger] done(
            forces,
            adj,
            walk.reports(),
            fin,
            p,
        ) by {
            if p < first.finished@.len() {
                lemma_done_grows(forces, adj, first.reports(), walk.reports(), first.finished@, fin, p);
            } else {
                assert(fin.take(p) =~= first.finished@);
            }
        }
        assert forall|v: int| 0 <= v < forces.len() implies #[trigger] walk.color@[v] <= 2 by {
            assert(first.color@[v] <= 2);
        }
    }
}

proof fn lemma_colors(walk: Walk, forces: Seq<ForceView>, adj: Seq<Vec<usize>>, v: usize)
    requires
        walk.inv(forces, adj),
        v < forces.len(),
    ensures
        walk.color.len() == forces.len(),
        walk.color@[v as int] <= 2,
        walk.color@[v as int] == 1 ==> walk.path@.contains(v),
        walk.color@[v as int] == 2 ==> walk.finished@.contains(v as int),
{
    reveal(Walk::inv);
}

/// Whether the place `v` is reached from the place `u` over `n` arcs and over
/// places that were not met alone.
spec fn reaches_unmet(adj: Seq<Vec<usize>>, color: Seq<u8>, u: int, v: int, n: nat) -> bool
    decreases n,
{
    &&& 0 <= v < color.len()
    &&& color[v] == 0
    &&& if n == 0 {
        u == v
    } else {
        exists|w: int|
            reaches_unmet(adj, color, u, w, (n - 1) as nat) && #[trigger] arc(adj, w, v)
    }
}

/// Whether everything that a place rests on was met, if the place became done
/// from one state to another.
spec fn closed(adj: Seq<Vec<usize>>, before: Seq<u8>, after: Seq<u8>) -> bool {
    forall|w: int, v: int|
        0 <= w < before.len() && 0 <= v < before.len() && before[w] == 0 && after[w] == 2
            && #[trigger] arc(adj, w, v) ==> after[v] != 0
}

proof fn lemma_closed_reaches(
    adj: Seq<Vec<usize>>,
    before: Seq<u8>,
    after: Seq<u8>,
    u: int,
    v: int,
    n: nat,
)
    requires
        before.len() == after.len(),
        closed(adj, before, after),
        0 <= u < after.len(),
        after[u] == 2,
        forall|w: int|
            0 <= w < before.len() && before[w] == 0 ==> #[trigger] after[w] == 0 || after[w] == 2,
        reaches_unmet(adj, before, u, v, n),
    ensures
        after[v] == 2,
    decreases n,
{
    if n > 0 {
        let w = choose|w: int|
            reaches_unmet(adj, before, u, w, (n - 1) as nat) && #[trigger] arc(adj, w, v);
        lemma_closed_reaches(adj, before, after, u, w, (n - 1) as nat);
    }
}

/// Where the path is the same, what was not met is not on it.
proof fn lemma_same_path(a: Walk, b: Walk, forces: Seq<ForceView>, adj: Seq<Vec<usize>>)
    requires
        a.inv(forces, adj),
        b.inv(forces, adj),
        a.path@ == b.path@,
    ensures
        a.color.len() == b.color.len(),
        forall|w: int|
            0 <= w < a.color.len() && a.color@[w] == 0 ==> #[trigger] b.color@[w] == 0
                || b.color@[w] == 2,
{
    reveal(Walk::inv);
    assert forall|w: int| 0 <= w < a.color.len() && a.color@[w] == 0 implies #[trigger] b.color@[w]
        == 0 || b.color@[w] == 2 by {
        if b.color@[w] == 1 {
            let i = choose|i: int| 0 <= i < b.path.len() && b.path@[i] == w as usize;
            assert(a.path@[i] < forces.len());
        }
    }
}

/// Searches on from a force that was not met: records the cycles that its
/// dependencies close, and leaves it done, with everything that it reaches over
/// forces that were not met.
fn dfs_cycle(forces: &Vec<Force>, adj: &Vec<Vec<usize>>, node: usize, walk: &mut Walk)
    requires
        is_adjacency(views(forces@), adj@),
        old(walk).inv(views(forces@), adj@),
        node < forces.len(),
        old(walk).color@[node as int] == 0,
        old(walk).path.len() > 0 ==> arc(adj@, old(walk).path@.last() as int, node as int),
    ensures
        final(walk).inv(views(forces@), adj@),
        final(walk).path@ == old(walk).path@,
        final(walk).color@[node as int] == 2,
        old(walk).grows_to(*final(walk)),
        closed(adj@, old(walk).color@, final(walk).color@),
        forall|v: int, n: nat| #[trigger]
            reaches_unmet(adj@, old(walk).color@, node as int, v, n) ==> final(walk).color@[v] == 2,
    decreases whites(old(walk).color@).len(),
{
    let ghost fv = views(forces@);
    let ghost first = *walk;
    proof {
        lemma_colors(first, fv, adj@, node);
    }
    enter(walk, node, Ghost(fv), Ghost(adj@));
    let ghost entered = *walk;
    proof {
        lemma_whites_shrink(first.color@, entered.color@, node as int);
    }
    let degree: usize = adj[node].len();
    for k in 0..degree
        invariant
            fv == views(forces@),
            degree == adj@[node as int]@.len(),
            is_adjacency(fv, adj@),
            node < forces.len(),
            walk.inv(fv, adj@),
            walk.path@ == first.path@.push(node),
            entered.grows_to(*walk),
            first.color.len() == forces.len(),
            first.color@[node as int] == 0,
            entered.color@ == first.color@.update(node as int, 1),
            first == *old(walk),
            whites(entered.color@).len() < whites(first.color@).len(),
            closed(adj@, first.color@, walk.color@),
            forall|j: int|
                0 <= j < k ==> walk.color@[(#[trigger] adj@[node as int]@[j]) as int] != 0,
            forall|j: int|
                0 <= j < k ==> settled(
                    fv,
                    walk.reports(),
                    walk.finished@,
                    node as int,
                    #[trigger] adj@[node as int]@[j] as int,
                ),
    {
        let next = adj[node][k];
        let ghost before = *walk;
        assert(arc(adj@, node as int, next as int));
        assert(walk.path@.last() == node);
        proof {
            lemma_colors(*walk, fv, adj@, next);
        }
        let c = walk.color[next];
        if c == 1 {
            let pos = place_of(&walk.path, next);
            close_cycle(forces, walk, pos, Ghost(adj@));
        } else if c == 0 {
            proof {
                assert(next != node) by {
                    assert(entered.color@[node as int] == 1);
                    assert(walk.color@[node as int] == 1);
                }
                lemma_whites_grow(entered.color@, walk.color@);
            }
            dfs_cycle(forces, adj, next, walk);
        }
        proof {
            lemma_grows_transitive(entered, before, *walk);
            assert forall|w: int, v: int|
                0 <= w < forces.len() && 0 <= v < forces.len() && first.color@[w] == 0
                    && walk.color@[w] == 2 && #[trigger] arc(adj@, w, v) implies walk.color@[v]
                != 0 by {
                if before.color@[w] != 0 {
                    assert(walk.color@[w] == before.color@[w]);
                    assert(before.color@[v] != 0);
                    assert(walk.color@[v] == before.color@[v]);
                }
            }
            assert forall|j: int| 0 <= j < k + 1 implies walk.color@[(
            #[trigger] adj@[node as int]@[j]) as int] != 0 by {
                let v = adj@[node as int]@[j];
                lemma_colors(*walk, fv, adj@, v);
                if j < k {
                    assert(walk.color@[v as int] == before.color@[v as int]);
                }
            }
            assert forall|j: int| 0 <= j < k + 1 implies settled(
                fv,
                walk.reports(),
                walk.finished@,
                node as int,
                #[trigger] adj@[node as int]@[j] as int,
            ) by {
                let v = adj@[node as int]@[j] as int;
                if j < k {
                    lemma_settled_grows(fv, before, *walk, node as int, v);
                } else {
                    lemma_colors(*walk, fv, adj@, next);
                    if c == 1 {
                        assert(holds_both(walk.reports(), fv[node as int].id, fv[v].id));
                    } else {
                        assert(walk.finished@.contains(v));
                    }
                }
            }
        }
    }
    proof {
        assert forall|v: int| 0 <= v < adj@.len() && #[trigger] arc(adj@, node as int, v) implies settled(
            fv,
            walk.reports(),
            walk.finished@,
            node as int,
            v,
        ) by {
            let j = choose|j: int|
                0 <= j < adj@[node as int]@.len() && #[trigger] adj@[node as int]@[j] == v;
            assert(adj@[node as int]@[j] as int == v);
        }
    }
    let ghost full = *walk;
    leave(walk, node, Ghost(fv), Ghost(adj@));
    proof {
        assert(walk.path@ =~= first.path@);
        assert(first.finished@.is_prefix_of(walk.finished@));
        assert forall|v: int| 0 <= v < first.color.len() && first.color@[v] != 0 implies
            #[trigger] walk.color@[v] == first.color@[v] by {
            assert(entered.color@[v] == first.color@[v]);
            assert(full.color@[v] == entered.color@[v]);
        }
        assert forall|w: int, v: int|
            0 <= w < forces.len() && 0 <= v < forces.len() && first.color@[w] == 0
                && walk.color@[w] == 2 && #[trigger] arc(adj@, w, v) implies walk.color@[v]
            != 0 by {
            if w == node {
                let j = choose|j: int|
                    0 <= j < adj@[node as int]@.len() && #[trigger] adj@[node as int]@[j] == v;
                assert(full.color@[v] != 0);
            } else {
                assert(full.color@[v] != 0);
            }
        }
        lemma_same_path(first, *walk, fv, adj@);
        assert forall|v: int, n: nat| #[trigger]
            reaches_unmet(adj@, first.color@, node as int, v, n) implies walk.color@[v] == 2 by {
            lemma_closed_reaches(adj@, first.color@, walk.color@, node as int, v, n);
        }
    }
}

proof fn lemma_whites_grow(a: Seq<u8>, b: Seq<u8>)
    requires
        a.len() == b.len(),
        forall|v: int| 0 <= v < a.len() && a[v] != 0 ==> #[trigger] b[v] != 0,
    ensures
        whites(b).len() <= whites(a).len(),
{
    lemma_int_range(0, a.len() as int);
    assert(whites(a).finite()) by {
        lemma_len_subset(whites(a), set_int_range(0, a.len() as int));
    }
    assert(whites(b).subset_of(whites(a)));
    lemma_len_subset(whites(b), whites(a));
}

proof fn lemma_grows_transitive(a: Walk, b: Walk, c: Walk)
    requires
        a.grows_to(b),
        b.grows_to(c),
    ensures
        a.grows_to(c),
{
    assert forall|v: int| 0 <= v < a.color.len() && a.color@[v] != 0 implies #[trigger] c.color@[v]
        == a.color@[v] by {
        assert(b.color@[v] == a.color@[v]);
    }
    assert(a.finished@.is_prefix_of(c.finished@)) by {
        assert(a.finished@ =~= c.finished@.subrange(0, a.finished@.len() as int));
    }
    assert(a.reports().is_prefix_of(c.reports())) by {
        assert(a.reports() =~= c.reports().subrange(0, a.reports().len() as int));
    }
}

proof fn lemma_settled_grows(forces: Seq<ForceView>, a: Walk, b: Walk, u: int, v: int)
    requires
        a.grows_to(b),
        settled(forces, a.reports(), a.finished@, u, v),
    ensures
        settled(forces, b.reports(), b.finished@, u, v),
{
    if a.finished@.contains(v) {
        let p = choose|p: int| 0 <= p < a.finished@.len() && a.finished@[p] == v;
        assert(b.finished@[p] == v);
    } else {
        lemma_holds_both_grows(a.reports(), b.reports(), forces[u].id, forces[v].id);
    }
}

/// Whether a map gives each force's place by its id.
spec fn is_index(forces: Seq<ForceView>, m: Map<Seq<char>, usize>) -> bool {
    &&& forall|id: Seq<char>| #[trigger]
        m.contains_key(id) ==> m[id] < forces.len() && forces[m[id] as int].id == id
    &&& forall|v: int|
        0 <= v < forces.len() ==> m.contains_key((#[trigger] forces[v]).id) && m[forces[v].id] == v
}

fn index_of(forces: &Vec<Force>) -> (m: StringHashMap<usize>)
    requires
        force_ids(views(forces@)).no_duplicates(),
    ensures
        is_index(views(forces@), m@),
{
    let ghost fv = views(forces@);
    let mut m: StringHashMap<usize> = StringHashMap::new();
    for i in 0..forces.len()
        invariant
            fv == views(forces@),
            force_ids(fv).no_duplicates(),
            forall|id: Seq<char>| #[trigger]
                m@.contains_key(id) ==> m@[id] < i && fv[m@[id] as int].id == id,
            forall|v: int|
                0 <= v < i ==> m@.contains_key((#[trigger] fv[v]).id) && m@[fv[v].id] == v,
    {
        proof {
            assert(fv[i as int].id == forces@[i as int].id@);
            assert forall|v: int| 0 <= v < i implies (#[trigger] fv[v]).id != fv[i as int].id by {
                assert(force_ids(fv)[v] == fv[v].id);
                assert(force_ids(fv)[i as int] == fv[i as int].id);
            }
        }
        m.insert(forces[i].id.clone(), i);
    }
    m
}

/// The places of the forces that are among the given ids.
fn targets(deps: &Vec<String>, index: &StringHashMap<usize>, Ghost(forces): Ghost<Seq<ForceView>>) -> (r:
    Vec<usize>)
    requires
        is_index(forces, index@),
    ensures
        forall|k: int| 0 <= k < r.len() ==> #[trigger] r@[k] < forces.len(),
        forall|v: int|
            0 <= v < forces.len() ==> ((exists|k: int| 0 <= k < r.len() && #[trigger] r@[k] == v)
                <==> views(deps@).contains((#[trigger] forces[v]).id)),
{
    let ghost ds = views(deps@);
    let mut r: Vec<usize> = Vec::new();
    for i in 0..deps.len()
        invariant
            ds == views(deps@),
            is_index(forces, index@),
            forall|k: int|
                0 <= k < r.len() ==> #[trigger] r@[k] < forces.len() && ds.contains(
                    forces[r@[k] as int].id,
                ),
            forall|j: int, v: int|
                0 <= j < i && 0 <= v < forces.len() && #[trigger] ds[j] == (
                #[trigger] forces[v]).id ==> exists|k: int|
                    0 <= k < r.len() && #[trigger] r@[k] == v,
    {
        let ghost before = r@;
        let found = index.get(deps[i].as_str());
        assert(ds[i as int] == deps@[i as int]@);
        if let Some(at) = found {
            r.push(*at);
            assert(r@[before.len() as int] == *at);
        }
        proof {
            assert forall|j: int, v: int|
                0 <= j < i + 1 && 0 <= v < forces.len() && #[trigger] ds[j] == (
                #[trigger] forces[v]).id implies exists|k: int|
                0 <= k < r.len() && #[trigger] r@[k] == v by {
                if j < i {
                    let k = choose|k: int| 0 <= k < before.len() && #[trigger] before[k] == v;
                    assert(r@[k] == v);
                } else {
                    assert(index@.contains_key(forces[v].id));
                    assert(r@[before.len() as int] == v);
                }
            }
            assert forall|k: int| 0 <= k < r.len() implies #[trigger] r@[k] < forces.len()
                && ds.contains(forces[r@[k] as int].id) by {
                if k < before.len() {
                    assert(before[k] == r@[k]);
                }
            }
        }
    }
    proof {
        assert forall|v: int| 0 <= v < forces.len() implies ((exists|k: int|
            0 <= k < r.len() && #[trigger] r@[k] == v) <==> ds.contains((#[trigger] forces[v]).id)) by {
            if ds.contains(forces[v].id) {
                let j = choose|j: int| 0 <= j < ds.len() && ds[j] == forces[v].id;
                assert(ds[j] == forces[v].id);
            }
        }
    }
    r
}

fn adjacency(forces: &Vec<Force>) -> (adj: Vec<Vec<usize>>)
    requires
        force_ids(views(forces@)).no_duplicates(),
    ensures
        is_adjacency(views(forces@), adj@),
{
    let ghost fv = views(forces@);
    let index = index_of(forces);
    let mut adj: Vec<Vec<usize>> = Vec::new();
    for i in 0..forces.len()
        invariant
            fv == views(forces@),
            is_index(fv, index@),
            adj.len() == i,
            forall|u: int, k: int|
                0 <= u < i && 0 <= k < adj@[u]@.len() ==> #[trigger] adj@[u]@[k] < forces.len(),
            forall|u: int, v: int|
                0 <= u < i && 0 <= v < forces.len() ==> (#[trigger] arc(adj@, u, v)
                    <==> fv[u].depends_on.contains(fv[v].id)),
    {
        let ghost before = adj@;
        let out = targets(&forces[i].depends_on, &index, Ghost(fv));
        adj.push(out);
        proof {
            assert(fv[i as int].depends_on == views(forces@[i as int].depends_on@));
            assert forall|u: int, k: int|
                0 <= u < i + 1 && 0 <= k < adj@[u]@.len() implies #[trigger] adj@[u]@[k]
                < forces.len() by {
                if u < i {
                    assert(adj@[u] == before[u]);
                }
            }
            assert forall|u: int, v: int|
                0 <= u < i + 1 && 0 <= v < forces.len() implies (#[trigger] arc(adj@, u, v)
                <==> fv[u].depends_on.contains(fv[v].id)) by {
                if u < i {
                    assert(adj@[u] == before[u]);
                    assert(arc(before, u, v) == arc(adj@, u, v));
                } else {
                    assert(adj@[u]@ == out@);
                }
            }
        }
    }
    adj
}

proof fn lemma_rounds_show(forces: Seq<ForceView>, adj: Seq<Vec<usize>>, walk: Walk, w: Seq<Seq<char>>)
    requires
        is_adjacency(forces, adj),
        walk.inv(forces, adj),
        forall|v: int| 0 <= v < forces.len() ==> #[trigger] walk.color@[v] == 2,
        is_round(forces, w),
    ensures
        shows(walk.reports(), w),
{
    reveal(Walk::inv);
    let fin = walk.finished@;
    let at = |i: int| choose|p: int| 0 <= p < fin.len() && forces[#[trigger] fin[p]].id == w[i];
    assert forall|i: int| 0 <= i < w.len() implies 0 <= #[trigger] at(i) < fin.len()
        && forces[fin[at(i)]].id == w[i] by {
        assert(goes_on(forces, w, i));
        let u = choose|u: int|
            0 <= u < forces.len() && (#[trigger] forces[u]).id == w[i]
                && forces[u].depends_on.contains(next_of(w, i));
        assert(walk.color@[u] == 2);
        assert(fin.contains(u));
        let p = choose|p: int| 0 <= p < fin.len() && fin[p] == u;
        assert(forces[fin[p]].id == w[i]);
    }
    let places = Seq::new(w.len(), |i: int| at(i));
    places.min_ensures();
    let i = choose|i: int| 0 <= i < places.len() && places[i] == places.min();
    let j = if i + 1 < w.len() {
        i + 1
    } else {
        0
    };
    assert(next_of(w, i) == w[j]);
    let p = at(i);
    let q = at(j);
    assert(places[i] == p && places[j] == q);
    let u = fin[p];
    let v = fin[q];
    assert(goes_on(forces, w, i));
    let x = choose|x: int|
        0 <= x < forces.len() && (#[trigger] forces[x]).id == w[i] && forces[x].depends_on.contains(
            w[j],
        );
    assert(force_ids(forces)[x] == force_ids(forces)[u]);
    assert(x == u);
    assert(arc(adj, u, v));
    assert(done(forces, adj, walk.reports(), fin, p));
    assert(settled(forces, walk.reports(), fin.take(p), u, v));
    if fin.take(p).contains(v) {
        let r = choose|r: int| 0 <= r < p && fin.take(p)[r] == v;
        assert(fin[r] == fin[q]);
        assert(places.min() <= places[j]);
    }
    assert(shows_at(walk.reports(), w, i));
}

/// Finds the cycles of the forces' dependencies. The forces have different
/// ids; a dependency on something that is no force leads nowhere.
pub fn detect_cycles(forces: &Vec<Force>) -> (out: Vec<Members>)
    requires
        force_ids(views(forces@)).no_duplicates(),
    ensures
        reports_cycles(views(forces@), views(out@)),
{
    let ghost fv = views(forces@);
    let adj = adjacency(forces);
    let mut color: Vec<u8> = Vec::new();
    for i in 0..forces.len()
        invariant
            color.len() == i,
            forall|v: int| 0 <= v < i ==> color@[v] == 0,
    {
        color.push(0);
    }
    let mut walk = Walk { color, path: Vec::new(), cycles: Vec::new(), finished: Ghost(Seq::empty()) };
    assert(walk.inv(fv, adj@)) by {
        reveal(Walk::inv);
    }
    for i in 0..forces.len()
        invariant
            fv == views(forces@),
            is_adjacency(fv, adj@),
            walk.inv(fv, adj@),
            walk.path.len() == 0,
            forall|v: int| 0 <= v < i ==> walk.color@[v] == 2,
    {
        let ghost before = walk;
        proof {
            lemma_colors(walk, fv, adj@, i);
        }
        if walk.color[i] == 0 {
            dfs_cycle(forces, &adj, i, &mut walk);
        }
        proof {
            assert(walk.color@[i as int] == 2);
            assert forall|v: int| 0 <= v < i + 1 implies walk.color@[v] == 2 by {
                if v < i {
                    assert(before.color@[v] == 2);
                }
            }
        }
    }
    let ghost cs = walk.reports();
    let ghost last = walk;
    proof {
        assert forall|v: int| 0 <= v < forces.len() implies #[trigger] walk.color@[v] == 2 by {}
    }
    let out = sort(walk.cycles);
    proof {
        let rs = views(out@);
        assert(rs == sorted::<Members>(cs));
        law_sorted_in_order::<Members>(cs);
        law_sorted_rearranges::<Members>(cs);
        assert(cs.no_duplicates() && forall|k: int|
            0 <= k < cs.len() ==> is_report(fv, #[trigger] cs[k])) by {
            reveal(Walk::inv);
        }
        cs.lemma_multiset_has_no_duplicates();
        assert(rs.no_duplicates()) by {
            rs.lemma_multiset_has_no_duplicates_conv();
        }
        assert forall|k: int| 0 <= k < rs.len() implies is_report(fv, #[trigger] rs[k]) by {
            lemma_sorted_contains::<Members>(cs, rs[k]);
            let j = choose|j: int| 0 <= j < cs.len() && cs[j] == rs[k];
            assert(is_report(fv, cs[j]));
        }
        assert forall|j: int, k: int| 0 <= j < k < rs.len() implies texts_le(
            #[trigger] rs[j],
            #[trigger] rs[k],
        ) && rs[j] != rs[k] by {
            assert(in_order::<Members>(rs));
            assert(Members::le(rs[j], rs[k]));
        }
        assert forall|w: Seq<Seq<char>>| #[trigger] is_round(fv, w) implies shows(rs, w) by {
            lemma_rounds_show(fv, adj@, last, w);
            let i = choose|i: int| 0 <= i < w.len() && #[trigger] shows_at(cs, w, i);
            let k = choose|k: int|
                0 <= k < cs.len() && (#[trigger] cs[k]).contains(w[i]) && cs[k].contains(
                    next_of(w, i),
                );
            lemma_sorted_contains::<Members>(cs, cs[k]);
            let m = choose|m: int| 0 <= m < rs.len() && rs[m] == cs[k];
            assert(rs[m].contains(w[i]));
            assert(shows_at(rs, w, i));
        }
    }
    out
}

/// Some cycle is reported exactly when some force rests on itself, directly
/// or through others.
pub proof fn law_reported_iff_cyclic(forces: Seq<ForceView>, cs: Seq<Seq<Seq<char>>>)
    requires
        reports_cycles(forces, cs),
    ensures
        cs.len() > 0 <==> exists|w: Seq<Seq<char>>| is_round(forces, w),
{
    if cs.len() > 0 {
        assert(is_report(forces, cs[0]));
        let w = choose|w: Seq<Seq<char>>| #[trigger]
            is_cycle(forces, w) && cs[0] == sorted::<String>(w);
        assert(is_round(forces, w));
    }
    if exists|w: Seq<Seq<char>>| is_round(forces, w) {
        let w = choose|w: Seq<Seq<char>>| is_round(forces, w);
        assert(shows(cs, w));
        let i = choose|i: int| 0 <= i < w.len() && #[trigger] shows_at(cs, w, i);
        assert(shows_at(cs, w, i));
    }
}

} // verus!
