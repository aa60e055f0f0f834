//! Reachability and strongly connected components of a graph whose
//! vertices are numbered `0..n`, each with the list of its successors.
use vstd::prelude::*;

verus! {

/// The successor lists, as sequences.
pub open spec fn adjacency_view(adj: Seq<Vec<usize>>) -> Seq<Seq<usize>> {
    adj.map_values(|v: Vec<usize>| v@)
}

/// Every successor is a vertex.
pub open spec fn adjacency_ok(adj: Seq<Seq<usize>>) -> bool {
    forall|u: int, k: int| 0 <= u < adj.len() && 0 <= k < adj[u].len() ==> (#[trigger] adj[u][k]) < adj.len()
}

/// Whether the set holds the successors of each of its vertices.
pub open spec fn closed_under(adj: Seq<Seq<usize>>, s: Set<usize>) -> bool {
    forall|u: usize, k: int|
        #![trigger s.contains(u), adj[u as int][k]]
        s.contains(u) && (u as int) < adj.len() && 0 <= k < adj[u as int].len() ==> s.contains(adj[u as int][k])
}

/// Whether `b` can be reached from `a` by following edges: every set
/// holding `a` and closed under successors holds `b`.
pub open spec fn reaches(adj: Seq<Seq<usize>>, a: usize, b: usize) -> bool {
    forall|s: Set<usize>| #[trigger] closed_under(adj, s) && s.contains(a) ==> s.contains(b)
}

/// Whether `a` and `b` reach each other.
pub open spec fn mutual(adj: Seq<Seq<usize>>, a: usize, b: usize) -> bool {
    reaches(adj, a, b) && reaches(adj, b, a)
}

/// A vertex reaches itself.
pub proof fn lemma_reaches_self(adj: Seq<Seq<usize>>, a: usize)
    ensures
        reaches(adj, a, a),
{
}

/// A vertex reaches each of its successors.
pub proof fn lemma_reaches_edge(adj: Seq<Seq<usize>>, a: usize, k: int)
    requires
        (a as int) < adj.len(),
        0 <= k < adj[a as int].len(),
    ensures
        reaches(adj, a, adj[a as int][k]),
{
    assert forall|s: Set<usize>| #[trigger] closed_under(adj, s) && s.contains(a) implies s.contains(adj[a as int][k]) by {
    }
}

/// Reachability is transitive.
pub proof fn lemma_reaches_trans(adj: Seq<Seq<usize>>, a: usize, b: usize, c: usize)
    requires
        reaches(adj, a, b),
        reaches(adj, b, c),
    ensures
        reaches(adj, a, c),
{
    assert forall|s: Set<usize>| #[trigger] closed_under(adj, s) && s.contains(a) implies s.contains(c) by {
        assert(s.contains(b));
    }
}

/// The number of vertices not marked.
pub open spec fn unmarked(s: Seq<bool>) -> nat
    decreases s.len(),
{
    if s.len() == 0 {
        0
    } else {
        unmarked(s.drop_last()) + if s.last() {
            0nat
        } else {
            1nat
        }
    }
}

/// Marking an unmarked vertex leaves one fewer.
pub proof fn lemma_unmarked_update(s: Seq<bool>, j: int)
    requires
        0 <= j < s.len(),
        !s[j],
    ensures
        unmarked(s.update(j, true)) + 1 == unmarked(s),
    decreases s.len(),
{
    let t = s.update(j, true);
    if j < s.len() - 1 {
        assert(t.drop_last() =~= s.drop_last().update(j, true));
        lemma_unmarked_update(s.drop_last(), j);
    } else {
        assert(t.drop_last() =~= s.drop_last());
    }
}

/// The vertices reachable from `a`.
pub fn reach_from(adj: &Vec<Vec<usize>>, a: usize) -> (r: Vec<bool>)
    requires
        adjacency_ok(adjacency_view(adj@)),
        a < adj@.len(),
    ensures
        r@.len() == adj@.len(),
        forall|j: int| 0 <= j < r@.len() ==> r@[j] == reaches(adjacency_view(adj@), a, j as usize),
{
    let ghost g = adjacency_view(adj@);
    let n = adj.len();
    let mut visited: Vec<bool> = Vec::new();
    let mut i: usize = 0;
    while i < n
        invariant
            i <= n,
            visited@.len() == i,
            forall|j: int| 0 <= j < i ==> !visited@[j],
        decreases n - i,
    {
        visited.push(false);
        i = i + 1;
    }
    proof {
        lemma_unmarked_update(visited@, a as int);
        lemma_reaches_self(g, a);
    }
    visited.set(a, true);
    let mut stack: Vec<usize> = Vec::new();
    stack.push(a);
    proof {
        assert(stack@[0] == a);
        assert(stack@.contains(a));
        assert forall|j: int| 0 <= j < n && #[trigger] visited@[j] implies j == a as int by {}
    }
    while stack.len() > 0
        invariant
            n == adj@.len(),
            g == adjacency_view(adj@),
            adjacency_ok(g),
            visited@.len() == n,
            a < n,
            visited@[a as int],
            forall|j: int| 0 <= j < n && #[trigger] visited@[j] ==> reaches(g, a, j as usize),
            forall|k: int| 0 <= k < stack@.len() ==> (#[trigger] stack@[k]) < n && visited@[stack@[k] as int],
            forall|u: int, k: int|
                #![trigger visited@[u], g[u][k]]
                0 <= u < n && visited@[u] && !stack@.contains(u as usize) && 0 <= k < g[u].len() ==> visited@[g[u][k] as int],
        decreases unmarked(visited@), stack@.len(),
    {
        let ghost st0 = stack@;
        let u = stack.pop().unwrap();
        let ghost st1 = stack@;
        proof {
            assert(st0 =~= st1.push(u));
            assert(u < n && visited@[u as int]) by {
                assert(st0[st0.len() - 1] == u);
            }
            assert forall|w: int, q: int|
                #![trigger visited@[w], g[w][q]]
                0 <= w < n && w != u && visited@[w] && !stack@.contains(w as usize) && 0 <= q < g[w].len() implies visited@[g[w][q] as int] by {
                if st0.contains(w as usize) {
                    let p = choose|p: int| 0 <= p < st0.len() && st0[p] == w as usize;
                    if p < st1.len() {
                        assert(stack@[p] == w as usize);
                    }
                }
            }
            assert forall|q: int| 0 <= q < stack@.len() implies (#[trigger] stack@[q]) < n && visited@[stack@[q] as int] by {
                assert(stack@[q] == st0[q]);
            }
        }
        let succ = &adj[u];
        proof {
            assert(succ@ == g[u as int]);
        }
        let mut k: usize = 0;
        let ghost before = unmarked(visited@);
        while k < succ.len()
            invariant
                n == adj@.len(),
                g == adjacency_view(adj@),
                adjacency_ok(g),
                u < n,
                a < n,
                succ@ == g[u as int],
                visited@.len() == n,
                visited@[a as int],
                visited@[u as int],
                k <= succ@.len(),
                unmarked(visited@) <= before,
                unmarked(visited@) == before ==> stack@ == st1,
                forall|j: int| 0 <= j < n && #[trigger] visited@[j] ==> reaches(g, a, j as usize),
                forall|q: int| 0 <= q < stack@.len() ==> (#[trigger] stack@[q]) < n && visited@[stack@[q] as int],
                forall|w: int, q: int|
                    #![trigger visited@[w], g[w][q]]
                    0 <= w < n && w != u && visited@[w] && !stack@.contains(w as usize) && 0 <= q < g[w].len() ==> visited@[g[w][q] as int],
                forall|q: int| 0 <= q < k ==> visited@[#[trigger] g[u as int][q] as int],
            decreases succ@.len() - k,
        {
            let v = succ[k];
            proof {
                assert(v == g[u as int][k as int]);
                assert(v < n);
            }
            if !visited[v] {
                proof {
                    lemma_reaches_edge(g, u, k as int);
                    lemma_reaches_trans(g, a, u, v);
                    lemma_unmarked_update(visited@, v as int);
                }
                let ghost vs = visited@;
                let ghost sts = stack@;
                visited.set(v, true);
                stack.push(v);
                proof {
                    assert forall|w: int, q: int|
                        #![trigger visited@[w], g[w][q]]
                        0 <= w < n && w != u && visited@[w] && !stack@.contains(w as usize) && 0 <= q < g[w].len() implies visited@[g[w][q] as int] by {
                        if w != v as int {
                            assert(vs[w]);
                            if sts.contains(w as usize) {
                                let p = choose|p: int| 0 <= p < sts.len() && sts[p] == w as usize;
                                assert(stack@[p] == w as usize);
                            }
                        } else {
                            assert(stack@[stack@.len() - 1] == v);
                        }
                    }
                }
            }
            k = k + 1;
        }
        proof {
            assert forall|w: int, q: int|
                #![trigger visited@[w], g[w][q]]
                0 <= w < n && visited@[w] && !stack@.contains(w as usize) && 0 <= q < g[w].len() implies visited@[g[w][q] as int] by {
            }
        }
    }
    proof {
        let s = Set::new(|j: usize| (j as int) < n && visited@[j as int]);
        assert(closed_under(g, s)) by {
            assert forall|u: usize, k: int|
                #![trigger s.contains(u), g[u as int][k]]
                s.contains(u) && (u as int) < g.len() && 0 <= k < g[u as int].len() implies s.contains(g[u as int][k]) by {
                assert(visited@[u as int]);
                assert(!stack@.contains(u));
                assert(g[u as int][k] < n);
                assert(visited@[g[u as int][k] as int]);
            }
        }
        assert forall|j: int| 0 <= j < n implies visited@[j] == reaches(g, a, j as usize) by {
            if reaches(g, a, j as usize) {
                assert(s.contains(a));
                assert(s.contains(j as usize));
            }
        }
    }
    visited
}

/// Reachability between every two vertices.
pub fn reach_matrix(adj: &Vec<Vec<usize>>) -> (r: Vec<Vec<bool>>)
    requires
        adjacency_ok(adjacency_view(adj@)),
    ensures
        r@.len() == adj@.len(),
        forall|i: int| 0 <= i < r@.len() ==> (#[trigger] r@[i])@.len() == adj@.len(),
        forall|i: int, j: int|
            0 <= i < r@.len() && 0 <= j < adj@.len() ==> (#[trigger] r@[i]@[j]) == reaches(adjacency_view(adj@), i as usize, j as usize),
{
    let mut r: Vec<Vec<bool>> = Vec::new();
    let mut i: usize = 0;
    while i < adj.len()
        invariant
            adjacency_ok(adjacency_view(adj@)),
            i <= adj@.len(),
            r@.len() == i,
            forall|x: int| 0 <= x < i ==> (#[trigger] r@[x])@.len() == adj@.len(),
            forall|x: int, j: int|
                0 <= x < i && 0 <= j < adj@.len() ==> (#[trigger] r@[x]@[j]) == reaches(adjacency_view(adj@), x as usize, j as usize),
        decreases adj@.len() - i,
    {
        let row = reach_from(adj, i);
        r.push(row);
        i = i + 1;
    }
    r
}

/// Whether `r` is the least vertex that `i` reaches and is reached from:
/// the representative of the component of `i`.
pub open spec fn is_representative(g: Seq<Seq<usize>>, i: usize, r: usize) -> bool {
    &&& r <= i
    &&& mutual(g, i, r)
    &&& forall|k: usize| k < r ==> !#[trigger] mutual(g, i, k)
}

/// Two vertices have the same representative exactly when they reach each
/// other.
pub proof fn lemma_same_representative(g: Seq<Seq<usize>>, i: usize, j: usize, ri: usize, rj: usize)
    requires
        is_representative(g, i, ri),
        is_representative(g, j, rj),
    ensures
        (ri == rj) <==> mutual(g, i, j),
{
    if ri == rj {
        lemma_reaches_trans(g, i, ri, j);
        lemma_reaches_trans(g, j, ri, i);
    }
    if mutual(g, i, j) {
        lemma_reaches_trans(g, j, i, ri);
        lemma_reaches_trans(g, ri, i, j);
        lemma_reaches_trans(g, i, j, rj);
        lemma_reaches_trans(g, rj, j, i);
        assert(mutual(g, j, ri));
        assert(mutual(g, i, rj));
        if ri < rj {
            assert(!mutual(g, j, ri));
        }
        if rj < ri {
            assert(!mutual(g, i, rj));
        }
    }
}

/// The representative of each vertex.
pub fn representatives(adj: &Vec<Vec<usize>>, reach: &Vec<Vec<bool>>) -> (r: Vec<usize>)
    requires
        adjacency_ok(adjacency_view(adj@)),
        reach@.len() == adj@.len(),
        forall|i: int| 0 <= i < reach@.len() ==> (#[trigger] reach@[i])@.len() == adj@.len(),
        forall|i: int, j: int|
            0 <= i < reach@.len() && 0 <= j < adj@.len() ==> (#[trigger] reach@[i]@[j]) == reaches(adjacency_view(adj@), i as usize, j as usize),
    ensures
        r@.len() == adj@.len(),
        forall|i: int| 0 <= i < r@.len() ==> is_representative(adjacency_view(adj@), i as usize, #[trigger] r@[i]),
{
    let ghost g = adjacency_view(adj@);
    let n = adj.len();
    let mut r: Vec<usize> = Vec::new();
    let mut i: usize = 0;
    while i < n
        invariant
            n == adj@.len(),
            g == adjacency_view(adj@),
            reach@.len() == n,
            forall|x: int| 0 <= x < reach@.len() ==> (#[trigger] reach@[x])@.len() == n,
            forall|x: int, j: int| 0 <= x < n && 0 <= j < n ==> (#[trigger] reach@[x]@[j]) == reaches(g, x as usize, j as usize),
            i <= n,
            r@.len() == i,
            forall|x: int| 0 <= x < i ==> is_representative(g, x as usize, #[trigger] r@[x]),
        decreases n - i,
    {
        let mut j: usize = 0;
        while j < i && !(reach[i][j] && reach[j][i])
            invariant
                i < n,
                n == adj@.len(),
                reach@.len() == n,
                forall|x: int| 0 <= x < reach@.len() ==> (#[trigger] reach@[x])@.len() == n,
                forall|x: int, y: int| 0 <= x < n && 0 <= y < n ==> (#[trigger] reach@[x]@[y]) == reaches(g, x as usize, y as usize),
                j <= i,
                forall|k: usize| k < j ==> !#[trigger] mutual(g, i, k),
            decreases i - j,
        {
            j = j + 1;
        }
        proof {
            lemma_reaches_self(g, i);
            if j < i {
                assert(reach@[i as int]@[j as int] && reach@[j as int]@[i as int]);
            }
        }
        r.push(j);
        i = i + 1;
    }
    r
}

/// The strongly connected components of a graph: the component of each
/// vertex, the vertices of each component, the other components each one
/// has an edge to, and whether each one has an edge to itself.
pub struct Condensation {
    pub component: Vec<usize>,
    pub members: Vec<Vec<usize>>,
    pub successors: Vec<Vec<usize>>,
    pub reflexive: Vec<bool>,
}

/// Whether some vertex of component `x` has an edge to a vertex of
/// component `y`.
pub open spec fn component_edge(g: Seq<Seq<usize>>, comp: Seq<usize>, x: usize, y: usize) -> bool {
    exists|u: int, k: int|
        0 <= u < g.len() && comp[u] == x && 0 <= k < g[u].len() && #[trigger] comp[g[u][k] as int] == y
}

/// Whether `c` holds the strongly connected components of `g`, numbered
/// in order of their least vertex.
pub open spec fn condensation_of(g: Seq<Seq<usize>>, c: Condensation) -> bool {
    let n = g.len();
    let count = c.members@.len();
    &&& c.component@.len() == n
    &&& c.successors@.len() == count
    &&& c.reflexive@.len() == count
    &&& forall|i: int| 0 <= i < n ==> (#[trigger] c.component@[i]) < count
    &&& forall|x: int, i: int|
        0 <= x < count && 0 <= i < n ==> (#[trigger] c.members@[x]@.contains(i as usize) <==> c.component@[i] == x)
    &&& forall|x: int, k: int| 0 <= x < count && 0 <= k < c.members@[x]@.len() ==> (#[trigger] c.members@[x]@[k]) < n
    &&& forall|x: int| 0 <= x < count ==> (#[trigger] c.members@[x])@.len() > 0
    &&& forall|i: int, j: int|
        0 <= i < n && 0 <= j < n ==> ((#[trigger] c.component@[i] == #[trigger] c.component@[j]) <==> mutual(g, i as usize, j as usize))
    &&& forall|x: int| 0 <= x < count ==> (#[trigger] c.successors@[x])@.no_duplicates()
    &&& forall|x: int, y: usize|
        0 <= x < count ==> (#[trigger] c.successors@[x]@.contains(y) <==> (y != x && component_edge(g, c.component@, x as usize, y)))
    &&& forall|x: int| 0 <= x < count ==> (#[trigger] c.reflexive@[x] <==> component_edge(g, c.component@, x as usize, x as usize))
}

/// Whether some vertex has the number `x`.
pub open spec fn number_used(comp: Seq<usize>, x: int) -> bool {
    exists|i: int| 0 <= i < comp.len() && #[trigger] comp[i] == x
}

/// Numbers the components by their representatives, in order.
fn number_components(reps: &Vec<usize>) -> (r: (Vec<usize>, usize))
    requires
        forall|i: int| 0 <= i < reps@.len() ==> (#[trigger] reps@[i]) <= i,
        forall|i: int| 0 <= i < reps@.len() ==> reps@[reps@[i] as int] == #[trigger] reps@[i],
    ensures
        r.0@.len() == reps@.len(),
        forall|i: int| 0 <= i < reps@.len() ==> (#[trigger] r.0@[i]) < r.1,
        forall|i: int, j: int|
            0 <= i < reps@.len() && 0 <= j < reps@.len() ==> ((#[trigger] r.0@[i] == #[trigger] r.0@[j]) <==> reps@[i] == reps@[j]),
        forall|x: int| 0 <= x < r.1 ==> #[trigger] number_used(r.0@, x),
{
    let mut comp: Vec<usize> = Vec::new();
    let mut count: usize = 0;
    let mut i: usize = 0;
    while i < reps.len()
        invariant
            forall|x: int| 0 <= x < reps@.len() ==> (#[trigger] reps@[x]) <= x,
            forall|x: int| 0 <= x < reps@.len() ==> reps@[reps@[x] as int] == #[trigger] reps@[x],
            i <= reps@.len(),
            comp@.len() == i,
            count <= i,
            forall|x: int| 0 <= x < i ==> (#[trigger] comp@[x]) < count,
            forall|x: int, y: int| 0 <= x < i && 0 <= y < i ==> ((#[trigger] comp@[x] == #[trigger] comp@[y]) <==> reps@[x] == reps@[y]),
            forall|c: int| 0 <= c < count ==> #[trigger] number_used(comp@, c),
        decreases reps@.len() - i,
    {
        let ri = reps[i];
        let ghost comp0 = comp@;
        let ghost count0 = count;
        if ri == i {
            comp.push(count);
            proof {
                assert forall|x: int, y: int| 0 <= x < i + 1 && 0 <= y < i + 1 implies ((#[trigger] comp@[x] == #[trigger] comp@[y]) <==> reps@[x] == reps@[y]) by {
                    if x < i && y == i {
                        assert(reps@[x] <= x);
                    }
                    if y < i && x == i {
                        assert(reps@[y] <= y);
                    }
                }
                assert(comp@[i as int] == count);
            }
            count = count + 1;
        } else {
            let c = comp[ri];
            comp.push(c);
            proof {
                assert(reps@[ri as int] == ri);
                assert forall|x: int, y: int| 0 <= x < i + 1 && 0 <= y < i + 1 implies ((#[trigger] comp@[x] == #[trigger] comp@[y]) <==> reps@[x] == reps@[y]) by {
                    if x == i && y < i {
                        assert(comp@[y] == comp@[ri as int] <==> reps@[y] == reps@[ri as int]);
                    }
                    if y == i && x < i {
                        assert(comp@[x] == comp@[ri as int] <==> reps@[x] == reps@[ri as int]);
                    }
                }
            }
        }
        proof {
            assert forall|c: int| 0 <= c < count implies #[trigger] number_used(comp@, c) by {
                if c < count0 {
                    assert(number_used(comp0, c));
                    let x = choose|x: int| 0 <= x < comp0.len() && #[trigger] comp0[x] == c;
                    assert(comp@[x] == comp0[x]);
                } else {
                    assert(comp@[i as int] == c);
                }
            }
        }
        i = i + 1;
    }
    (comp, count)
}

/// Whether some vertex below `u` of component `x` has an edge to a vertex
/// of component `y`.
pub open spec fn edge_before(g: Seq<Seq<usize>>, comp: Seq<usize>, x: usize, y: usize, u: int) -> bool {
    exists|v: int, k: int| 0 <= v < u && comp[v] == x && 0 <= k < g[v].len() && #[trigger] comp[g[v][k] as int] == y
}

/// Whether the list holds `y`.
fn holds(v: &Vec<usize>, y: usize) -> (r: bool)
    ensures
        r == v@.contains(y),
{
    let mut j: usize = 0;
    while j < v.len()
        invariant
            j <= v@.len(),
            forall|k: int| 0 <= k < j ==> v@[k] != y,
        decreases v@.len() - j,
    {
        if v[j] == y {
            assert(v@[j as int] == y);
            return true;
        }
        j = j + 1;
    }
    false
}

/// The vertices of component `x`, in order.
fn members_of(comp: &Vec<usize>, x: usize) -> (r: Vec<usize>)
    ensures
        forall|i: int| 0 <= i < comp@.len() ==> (r@.contains(i as usize) <==> #[trigger] comp@[i] == x),
        forall|k: int| 0 <= k < r@.len() ==> (#[trigger] r@[k]) < comp@.len(),
        number_used(comp@, x as int) ==> r@.len() > 0,
{
    let mut r: Vec<usize> = Vec::new();
    let mut i: usize = 0;
    while i < comp.len()
        invariant
            i <= comp@.len(),
            forall|v: int| 0 <= v < comp@.len() ==> (r@.contains(v as usize) <==> v < i && #[trigger] comp@[v] == x),
            forall|k: int| 0 <= k < r@.len() ==> (#[trigger] r@[k]) < i,
        decreases comp@.len() - i,
    {
        let ghost r0 = r@;
        if comp[i] == x {
            r.push(i);
            proof {
                assert(r@[r0.len() as int] == i);
            }
        }
        proof {
            assert forall|v: int| 0 <= v < comp@.len() implies (r@.contains(v as usize) <==> v < i + 1 && #[trigger] comp@[v] == x) by {
                if r@.contains(v as usize) && v != i {
                    let k = choose|k: int| 0 <= k < r@.len() && r@[k] == v as usize;
                    assert(r0[k] == v as usize);
                    assert(r0.contains(v as usize));
                }
                if v < i && comp@[v] == x {
                    assert(r0.contains(v as usize));
                    let k = choose|k: int| 0 <= k < r0.len() && r0[k] == v as usize;
                    assert(r@[k] == v as usize);
                }
            }
        }
        i = i + 1;
    }
    proof {
        if number_used(comp@, x as int) {
            let v = choose|v: int| 0 <= v < comp@.len() && #[trigger] comp@[v] == x as int;
            assert(r@.contains(v as usize));
        }
    }
    r
}

/// The other components that component `x` has an edge to, each once, and
/// whether it has an edge to itself.
fn component_successors(adj: &Vec<Vec<usize>>, comp: &Vec<usize>, x: usize) -> (r: (Vec<usize>, bool))
    requires
        adjacency_ok(adjacency_view(adj@)),
        comp@.len() == adj@.len(),
    ensures
        r.0@.no_duplicates(),
        forall|y: usize| r.0@.contains(y) <==> (y != x && component_edge(adjacency_view(adj@), comp@, x, y)),
        r.1 <==> component_edge(adjacency_view(adj@), comp@, x, x),
{
    let ghost g = adjacency_view(adj@);
    let mut succ: Vec<usize> = Vec::new();
    let mut refl = false;
    let mut u: usize = 0;
    while u < adj.len()
        invariant
            g == adjacency_view(adj@),
            adjacency_ok(g),
            comp@.len() == adj@.len(),
            u <= adj@.len(),
            succ@.no_duplicates(),
            forall|y: usize| succ@.contains(y) <==> (y != x && edge_before(g, comp@, x, y, u as int)),
            refl <==> edge_before(g, comp@, x, x, u as int),
        decreases adj@.len() - u,
    {
        let ghost u0 = u;
        if comp[u] == x {
            let succs = &adj[u];
            proof {
                assert(succs@ == g[u as int]);
            }
            let mut k: usize = 0;
            while k < succs.len()
                invariant
                    g == adjacency_view(adj@),
                    adjacency_ok(g),
                    comp@.len() == adj@.len(),
                    u < adj@.len(),
                    comp@[u as int] == x,
                    succs@ == g[u as int],
                    k <= succs@.len(),
                    succ@.no_duplicates(),
                    forall|y: usize| succ@.contains(y) <==> (y != x && (edge_before(g, comp@, x, y, u as int) || exists|q: int|
                        0 <= q < k && #[trigger] comp@[g[u as int][q] as int] == y)),
                    refl <==> (edge_before(g, comp@, x, x, u as int) || exists|q: int|
                        0 <= q < k && #[trigger] comp@[g[u as int][q] as int] == x),
                decreases succs@.len() - k,
            {
                let v = succs[k];
                proof {
                    assert(v == g[u as int][k as int]);
                    assert(v < comp@.len());
                }
                let y = comp[v];
                let ghost s0 = succ@;
                if y == x {
                    refl = true;
                } else if !holds(&succ, y) {
                    succ.push(y);
                    proof {
                        assert forall|a: int, b: int| 0 <= a < b < succ@.len() implies succ@[a] != succ@[b] by {
                            if b == s0.len() {
                                assert(succ@[a] == s0[a]);
                                assert(s0.contains(s0[a]));
                            }
                        }
                    }
                }
                proof {
                    assert forall|z: usize| succ@.contains(z) <==> (z != x && (edge_before(g, comp@, x, z, u as int) || exists|q: int|
                        0 <= q < k + 1 && #[trigger] comp@[g[u as int][q] as int] == z)) by {
                        if succ@.contains(z) && !s0.contains(z) {
                            assert(z == y);
                            assert(comp@[g[u as int][k as int] as int] == z);
                        }
                        if s0.contains(z) {
                            let a = choose|a: int| 0 <= a < s0.len() && s0[a] == z;
                            assert(succ@[a] == z);
                        }
                        if z != x && exists|q: int| 0 <= q < k + 1 && #[trigger] comp@[g[u as int][q] as int] == z {
                            let q = choose|q: int| 0 <= q < k + 1 && #[trigger] comp@[g[u as int][q] as int] == z;
                            if q == k {
                                assert(z == y);
                                if !s0.contains(z) {
                                    assert(succ@[s0.len() as int] == z);
                                }
                            }
                        }
                    }
                    if exists|q: int| 0 <= q < k + 1 && #[trigger] comp@[g[u as int][q] as int] == x {
                        let q = choose|q: int| 0 <= q < k + 1 && #[trigger] comp@[g[u as int][q] as int] == x;
                        if q == k {
                            assert(y == x);
                        }
                    }
                }
                k = k + 1;
            }
        }
        proof {
            assert forall|y: usize| edge_before(g, comp@, x, y, u + 1) <==> (edge_before(g, comp@, x, y, u as int) || (comp@[u as int] == x && exists|q: int|
                0 <= q < g[u as int].len() && #[trigger] comp@[g[u as int][q] as int] == y)) by {
                if edge_before(g, comp@, x, y, u + 1) {
                    let (v, q) = choose|v: int, q: int| 0 <= v < u + 1 && comp@[v] == x && 0 <= q < g[v].len() && #[trigger] comp@[g[v][q] as int] == y;
                    if v < u {
                        assert(edge_before(g, comp@, x, y, u as int));
                    } else {
                        assert(comp@[g[u as int][q] as int] == y);
                    }
                }
                if comp@[u as int] == x && exists|q: int| 0 <= q < g[u as int].len() && #[trigger] comp@[g[u as int][q] as int] == y {
                    let q = choose|q: int| 0 <= q < g[u as int].len() && #[trigger] comp@[g[u as int][q] as int] == y;
                    assert(comp@[g[u as int][q] as int] == y);
                }
            }
        }
        u = u + 1;
    }
    proof {
        assert forall|y: usize| component_edge(g, comp@, x, y) <==> edge_before(g, comp@, x, y, u as int) by {
            if component_edge(g, comp@, x, y) {
                let (v, q) = choose|v: int, q: int| 0 <= v < g.len() && comp@[v] == x && 0 <= q < g[v].len() && #[trigger] comp@[g[v][q] as int] == y;
                assert(comp@[g[v][q] as int] == y);
            }
            if edge_before(g, comp@, x, y, u as int) {
                let (v, q) = choose|v: int, q: int| 0 <= v < u && comp@[v] == x && 0 <= q < g[v].len() && #[trigger] comp@[g[v][q] as int] == y;
                assert(comp@[g[v][q] as int] == y);
            }
        }
    }
    (succ, refl)
}

/// The strongly connected components of the graph, numbered in order of
/// their least vertex.
pub fn condense(adj: &Vec<Vec<usize>>) -> (r: Condensation)
    requires
        adjacency_ok(adjacency_view(adj@)),
    ensures
        condensation_of(adjacency_view(adj@), r),
{
    let ghost g = adjacency_view(adj@);
    let reach = reach_matrix(adj);
    let reps = representatives(adj, &reach);
    proof {
        assert forall|i: int| 0 <= i < reps@.len() implies reps@[reps@[i] as int] == #[trigger] reps@[i] by {
            let ri = reps@[i];
            assert(is_representative(g, i as usize, ri));
            assert(is_representative(g, ri, reps@[ri as int]));
            lemma_same_representative(g, i as usize, ri, ri, reps@[ri as int]);
            lemma_reaches_self(g, ri);
            lemma_same_representative(g, ri, ri, reps@[ri as int], reps@[ri as int]);
            assert(is_representative(g, i as usize, ri));
            lemma_same_representative(g, i as usize, ri, ri, reps@[ri as int]);
        }
        assert forall|i: int| 0 <= i < reps@.len() implies (#[trigger] reps@[i]) <= i by {
            assert(is_representative(g, i as usize, reps@[i]));
        }
    }
    let (comp, count) = number_components(&reps);
    proof {
        assert forall|i: int, j: int|
            0 <= i < comp@.len() && 0 <= j < comp@.len() implies ((#[trigger] comp@[i] == #[trigger] comp@[j]) <==> mutual(g, i as usize, j as usize)) by {
            assert(is_representative(g, i as usize, reps@[i]));
            assert(is_representative(g, j as usize, reps@[j]));
            lemma_same_representative(g, i as usize, j as usize, reps@[i], reps@[j]);
        }
    }
    let mut members: Vec<Vec<usize>> = Vec::new();
    let mut successors: Vec<Vec<usize>> = Vec::new();
    let mut reflexive: Vec<bool> = Vec::new();
    let mut x: usize = 0;
    while x < count
        invariant
            g == adjacency_view(adj@),
            adjacency_ok(g),
            comp@.len() == adj@.len(),
            forall|i: int| 0 <= i < comp@.len() ==> (#[trigger] comp@[i]) < count,
            forall|c: int| 0 <= c < count ==> #[trigger] number_used(comp@, c),
            x <= count,
            members@.len() == x,
            successors@.len() == x,
            reflexive@.len() == x,
            forall|y: int, i: int|
                0 <= y < x && 0 <= i < comp@.len() ==> (#[trigger] members@[y]@.contains(i as usize) <==> comp@[i] == y),
            forall|y: int, k: int| 0 <= y < x && 0 <= k < members@[y]@.len() ==> (#[trigger] members@[y]@[k]) < comp@.len(),
            forall|y: int| 0 <= y < x ==> (#[trigger] members@[y])@.len() > 0,
            forall|y: int| 0 <= y < x ==> (#[trigger] successors@[y])@.no_duplicates(),
            forall|y: int, z: usize|
                0 <= y < x ==> (#[trigger] successors@[y]@.contains(z) <==> (z != y && component_edge(g, comp@, y as usize, z))),
            forall|y: int| 0 <= y < x ==> (#[trigger] reflexive@[y] <==> component_edge(g, comp@, y as usize, y as usize)),
        decreases count - x,
    {
        let m = members_of(&comp, x);
        let (succ, refl) = component_successors(adj, &comp, x);
        proof {
            assert(number_used(comp@, x as int));
        }
        members.push(m);
        successors.push(succ);
        reflexive.push(refl);
        proof {
            assert(members@[x as int] == m);
            assert(successors@[x as int] == succ);
            assert(reflexive@[x as int] == refl);
        }
        x = x + 1;
    }
    Condensation { component: comp, members, successors, reflexive }
}

/// Two distinct vertices of a component are joined by a path, so some
/// edge goes from the component to itself.
pub proof fn lemma_component_has_inner_edge(g: Seq<Seq<usize>>, comp: Seq<usize>, a: usize, b: usize)
    requires
        adjacency_ok(g),
        comp.len() == g.len(),
        forall|i: int, j: int| 0 <= i < g.len() && 0 <= j < g.len() ==> ((#[trigger] comp[i] == #[trigger] comp[j]) <==> mutual(g, i as usize, j as usize)),
        (a as int) < g.len(),
        (b as int) < g.len(),
        a != b,
        mutual(g, a, b),
    ensures
        component_edge(g, comp, comp[a as int], comp[a as int]),
{
    if !component_edge(g, comp, comp[a as int], comp[a as int]) {
        let s = Set::new(|v: usize| v == a || !reaches(g, v, a));
        assert forall|u: usize, k: int|
            #![trigger s.contains(u), g[u as int][k]]
            s.contains(u) && (u as int) < g.len() && 0 <= k < g[u as int].len() implies s.contains(g[u as int][k]) by {
            let v = g[u as int][k];
            assert(v < g.len());
            if reaches(g, v, a) {
                lemma_reaches_edge(g, u, k);
                if u == a {
                    assert(mutual(g, a, v));
                    assert(comp[a as int] == comp[v as int]);
                    assert(component_edge(g, comp, comp[a as int], comp[a as int]));
                } else {
                    lemma_reaches_trans(g, u, v, a);
                }
            }
        }
        assert(closed_under(g, s));
        assert(s.contains(a));
        assert(s.contains(b));
    }
}

} // verus!
