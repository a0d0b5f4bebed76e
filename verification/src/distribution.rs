use vstd::prelude::*;
use vstd::set_lib::lemma_int_range;
use vstd::set_lib::lemma_len_subset;
use vstd::set_lib::set_int_range;
use crate::graph::Company;
use crate::graph::CompanyKey;
use crate::graph::EdgeTypes;
use crate::graph::Graph;
use crate::graph::NodeView;
use crate::graph::company_index;
use crate::graph::distinct_companies;
use crate::graph::graph_has_company;

verus! {

/// Whether an edge of kind `k` may be traversed.  With no filter every
/// known relationship kind is traversable, but `Unknown` never is unless
/// a filter names it explicitly.
pub open spec fn kind_allowed(k: EdgeTypes, filter: Option<Seq<EdgeTypes>>) -> bool {
    match filter {
        None => k != EdgeTypes::Unknown,
        Some(ks) => ks.contains(k),
    }
}

/// The filter as its mathematical content: the sequence of allowed kinds,
/// if one was supplied.
pub open spec fn filter_view(edges: Option<Vec<EdgeTypes>>) -> Option<Seq<EdgeTypes>> {
    match edges {
        None => None,
        Some(ks) => Some(ks@),
    }
}

/// Some traversable connection leads from entry `i` to the company of
/// entry `j`.
pub open spec fn connected(g: Seq<NodeView>, i: int, j: int, filter: Option<Seq<EdgeTypes>>) -> bool {
    exists|e: int|
        0 <= e < g[i].connections.len() && kind_allowed(
            (#[trigger] g[i].connections[e]).edge,
            filter,
        ) && g[i].connections[e].head == g[j].company
}

/// One breadth-first expansion: the entries of `s` together with every
/// entry that a traversable connection reaches from one of them.
pub open spec fn step_set(g: Seq<NodeView>, s: Set<int>, filter: Option<Seq<EdgeTypes>>) -> Set<
    int,
> {
    s.union(
        Set::new(
            |j: int|
                0 <= j < g.len() && exists|i: int|
                    #[trigger] s.contains(i) && 0 <= i < g.len() && connected(g, i, j, filter),
        ),
    )
}

/// The entries within `h` hops of entry `start`, including `start` itself.
pub open spec fn reach_set(g: Seq<NodeView>, start: int, h: nat, filter: Option<Seq<EdgeTypes>>) -> Set<int>
    decreases h,
{
    if h == 0 {
        Set::empty().insert(start)
    } else {
        step_set(g, reach_set(g, start, (h - 1) as nat, filter), filter)
    }
}

/// The k-hop neighborhood size of company `c`: how many other companies
/// lie within `h` hops of it over traversable connections.  A company
/// without an entry reaches nothing.
pub open spec fn neighborhood_size(
    g: Seq<NodeView>,
    c: CompanyKey,
    h: nat,
    filter: Option<Seq<EdgeTypes>>,
) -> nat {
    if graph_has_company(g, c) {
        reach_set(g, company_index(g, c), h, filter).remove(company_index(g, c)).len()
    } else {
        0
    }
}

proof fn lemma_reach_in_range(g: Seq<NodeView>, start: int, h: nat, filter: Option<Seq<EdgeTypes>>)
    requires
        0 <= start < g.len(),
    ensures
        reach_set(g, start, h, filter).subset_of(set_int_range(0, g.len() as int)),
        reach_set(g, start, h, filter).finite(),
        reach_set(g, start, h, filter).len() <= g.len(),
        reach_set(g, start, h, filter).contains(start),
    decreases h,
{
    lemma_int_range(0, g.len() as int);
    let r = reach_set(g, start, h, filter);
    if h == 0 {
        assert(r.subset_of(set_int_range(0, g.len() as int)));
    } else {
        lemma_reach_in_range(g, start, (h - 1) as nat, filter);
        assert(r.subset_of(set_int_range(0, g.len() as int)));
    }
    lemma_len_subset(r, set_int_range(0, g.len() as int));
}

/// Within a fixed graph, start and filter, the set of entries reached
/// never shrinks when the hop limit grows by one.
proof fn lemma_reach_grows(g: Seq<NodeView>, start: int, h: nat, filter: Option<Seq<EdgeTypes>>)
    ensures
        reach_set(g, start, h, filter).subset_of(reach_set(g, start, h + 1, filter)),
{
    assert(reach_set(g, start, h + 1, filter) == step_set(g, reach_set(g, start, h, filter), filter));
}

/// Raising the hop limit never lowers a neighborhood size.
pub proof fn lemma_neighborhood_monotonic(
    g: Seq<NodeView>,
    c: CompanyKey,
    h: nat,
    filter: Option<Seq<EdgeTypes>>,
)
    ensures
        neighborhood_size(g, c, h, filter) <= neighborhood_size(g, c, h + 1, filter),
{
    if graph_has_company(g, c) {
        let s = company_index(g, c);
        assert(0 <= s < g.len());
        lemma_reach_in_range(g, s, h, filter);
        lemma_reach_in_range(g, s, h + 1, filter);
        lemma_reach_grows(g, s, h, filter);
        let r1 = reach_set(g, s, h, filter);
        let r2 = reach_set(g, s, h + 1, filter);
        assert(r1.remove(s).subset_of(r2.remove(s)));
        lemma_len_subset(r1.remove(s), r2.remove(s));
    }
}

/// A hop limit of zero reaches nothing: the neighborhood size is zero for
/// every company and every filter.
pub proof fn lemma_zero_hops(g: Seq<NodeView>, c: CompanyKey, filter: Option<Seq<EdgeTypes>>)
    ensures
        neighborhood_size(g, c, 0, filter) == 0,
{
    if graph_has_company(g, c) {
        let s = company_index(g, c);
        assert(reach_set(g, s, 0, filter).remove(s) =~= Set::<int>::empty());
    }
}

proof fn lemma_reach_fixpoint(
    g: Seq<NodeView>,
    start: int,
    h1: nat,
    h2: nat,
    filter: Option<Seq<EdgeTypes>>,
)
    requires
        h1 <= h2,
        step_set(g, reach_set(g, start, h1, filter), filter) == reach_set(g, start, h1, filter),
    ensures
        reach_set(g, start, h2, filter) == reach_set(g, start, h1, filter),
    decreases h2 - h1,
{
    if h2 > h1 {
        lemma_reach_fixpoint(g, start, h1, (h2 - 1) as nat, filter);
        assert(reach_set(g, start, h2, filter) == step_set(
            g,
            reach_set(g, start, (h2 - 1) as nat, filter),
            filter,
        ));
    }
}

proof fn lemma_reach_congruent(
    g1: Seq<NodeView>,
    g2: Seq<NodeView>,
    start: int,
    h: nat,
    filter: Option<Seq<EdgeTypes>>,
)
    requires
        g1.len() == g2.len(),
        forall|i: int, j: int|
            0 <= i < g1.len() && 0 <= j < g1.len() ==> (connected(g1, i, j, filter) <==> connected(
                g2,
                i,
                j,
                filter,
            )),
    ensures
        reach_set(g1, start, h, filter) == reach_set(g2, start, h, filter),
    decreases h,
{
    if h > 0 {
        lemma_reach_congruent(g1, g2, start, (h - 1) as nat, filter);
        let r = reach_set(g1, start, (h - 1) as nat, filter);
        assert(step_set(g1, r, filter) =~= step_set(g2, r, filter));
    }
}

/// A company reachable over several parallel relationships is counted
/// once: the neighborhood size depends only on which ordered pairs of
/// entries some traversable connection joins, not on how many
/// relationships join them.
pub proof fn lemma_no_double_counting(
    g1: Seq<NodeView>,
    g2: Seq<NodeView>,
    c: CompanyKey,
    h: nat,
    filter: Option<Seq<EdgeTypes>>,
)
    requires
        g1.len() == g2.len(),
        distinct_companies(g1),
        forall|i: int| 0 <= i < g1.len() ==> g1[i].company == g2[i].company,
        forall|i: int, j: int|
            0 <= i < g1.len() && 0 <= j < g1.len() ==> (connected(g1, i, j, filter) <==> connected(
                g2,
                i,
                j,
                filter,
            )),
    ensures
        neighborhood_size(g1, c, h, filter) == neighborhood_size(g2, c, h, filter),
{
    assert(graph_has_company(g1, c) <==> graph_has_company(g2, c)) by {
        if graph_has_company(g1, c) {
            let i = choose|i: int| 0 <= i < g1.len() && g1[i].company == c;
            assert(g2[i].company == c);
        }
        if graph_has_company(g2, c) {
            let i = choose|i: int| 0 <= i < g2.len() && g2[i].company == c;
            assert(g1[i].company == c);
        }
    }
    if graph_has_company(g1, c) {
        let s1 = company_index(g1, c);
        let s2 = company_index(g2, c);
        assert(0 <= s1 < g1.len() && g1[s1].company == c);
        assert(0 <= s2 < g2.len() && g2[s2].company == c);
        assert(g1[s2].company == c);
        assert(s1 == s2);
        lemma_reach_congruent(g1, g2, s1, h, filter);
    }
}

/// The set of indices whose mark is set.
spec fn marked_set(m: Seq<bool>) -> Set<int> {
    Set::new(|i: int| 0 <= i < m.len() && m[i])
}

/// The set of indices that a worklist holds.
spec fn index_set(s: Seq<usize>) -> Set<int> {
    Set::new(|i: int| exists|k: int| 0 <= k < s.len() && #[trigger] s[k] as int == i)
}

fn kind_in(list: &Vec<EdgeTypes>, k: EdgeTypes) -> (r: bool)
    ensures
        r == list@.contains(k),
{
    let n = list.len();
    let mut i: usize = 0;
    while i < n
        invariant
            n == list@.len(),
            i <= n,
            forall|e: int| 0 <= e < i ==> list@[e] != k,
        decreases n - i,
    {
        if list[i] == k {
            return true;
        }
        i += 1;
    }
    false
}

fn edge_allowed(k: EdgeTypes, edges: &Option<Vec<EdgeTypes>>) -> (r: bool)
    ensures
        r == kind_allowed(k, filter_view(*edges)),
{
    match edges {
        None => k != EdgeTypes::Unknown,
        Some(list) => kind_in(list, k),
    }
}

/// Counts how many distinct companies other than `company` are reachable
/// from it within `degrees` hops, walking only connections whose kind the
/// filter allows; with no filter every known kind is allowed.  A company
/// discovered at the hop limit is counted but not expanded further, each
/// reachable company is counted exactly once however many paths lead to
/// it, and a company missing from the graph reaches nothing.
pub fn count_edges(
    graph: &Graph,
    degrees: &usize,
    company: &Company,
    edges: &Option<Vec<EdgeTypes>>,
) -> (r: usize)
    requires
        graph.wf(),
    ensures
        r == neighborhood_size(graph@, company@, *degrees as nat, filter_view(*edges)),
{
    let ghost g = graph@;
    let ghost f = filter_view(*edges);
    let n = graph.nodes.len();
    let start: usize = match graph.find_index(company) {
        Some(i) => i,
        None => {
            return 0;
        },
    };
    proof {
        assert(company_index(g, company@) == start as int);
    }
    let ghost sv = start as int;
    let mut marked: Vec<bool> = Vec::new();
    let mut z: usize = 0;
    while z < n
        invariant
            z <= n,
            marked@.len() == z,
            forall|i: int| 0 <= i < z ==> !marked@[i],
        decreases n - z,
    {
        marked.push(false);
        z += 1;
    }
    marked[start] = true;
    let mut frontier: Vec<usize> = Vec::new();
    frontier.push(start);
    let mut count: usize = 0;
    let mut d: usize = 0;
    proof {
        lemma_int_range(0, n as int);
        assert(marked_set(marked@) =~= Set::empty().insert(sv));
        assert(index_set(frontier@) =~= Set::empty().insert(sv)) by {
            assert(frontier@[0] as int == sv);
            assert forall|i: int| index_set(frontier@).contains(i) implies i == sv by {}
        }
        vstd::set::axiom_set_insert_len(Set::<int>::empty(), sv);
    }
    while d < *degrees && frontier.len() > 0
        invariant
            graph.wf(),
            g == graph@,
            f == filter_view(*edges),
            n == g.len(),
            0 <= sv < n,
            sv == start as int,
            marked@.len() == n,
            d <= *degrees,
            marked_set(marked@) == reach_set(g, sv, d as nat, f),
            marked_set(marked@).finite(),
            marked_set(marked@).contains(sv),
            marked_set(marked@).subset_of(set_int_range(0, n as int)),
            count + 1 == marked_set(marked@).len(),
            index_set(frontier@).subset_of(marked_set(marked@)),
            forall|k: int| 0 <= k < frontier@.len() ==> #[trigger] frontier@[k] < n,
            forall|i: int, j: int|
                marked_set(marked@).contains(i) && !index_set(frontier@).contains(i) && 0 <= j < n
                    && connected(g, i, j, f) ==> marked_set(marked@).contains(j),
        decreases *degrees - d,
    {
        let ghost prev = marked_set(marked@);
        let ghost old_frontier = frontier@;
        let mut next: Vec<usize> = Vec::new();
        let flen = frontier.len();
        let mut fi: usize = 0;
        while fi < flen
            invariant
                graph.wf(),
                g == graph@,
                f == filter_view(*edges),
                n == g.len(),
                0 <= sv < n,
                marked@.len() == n,
                fi <= flen,
                flen == frontier@.len(),
                frontier@ == old_frontier,
                prev.subset_of(marked_set(marked@)),
                marked_set(marked@).subset_of(step_set(g, prev, f)),
                marked_set(marked@).finite(),
                marked_set(marked@).contains(sv),
                marked_set(marked@).subset_of(set_int_range(0, n as int)),
                count + 1 == marked_set(marked@).len(),
                index_set(frontier@).subset_of(prev),
                forall|k: int| 0 <= k < frontier@.len() ==> #[trigger] frontier@[k] < n,
                forall|k: int| 0 <= k < next@.len() ==> #[trigger] next@[k] < n,
                index_set(next@) == marked_set(marked@).difference(prev),
                forall|i: int, j: int|
                    prev.contains(i) && !index_set(frontier@).contains(i) && 0 <= j < n
                        && connected(g, i, j, f) ==> prev.contains(j),
                forall|k: int, j: int|
                    0 <= k < fi && 0 <= j < n && connected(g, frontier@[k] as int, j, f)
                        ==> marked_set(marked@).contains(j),
            decreases flen - fi,
        {
            let u = frontier[fi];
            let ghost uv = u as int;
            proof {
                assert(index_set(frontier@).contains(uv));
                assert(prev.contains(uv));
            }
            let clen = graph.nodes[u].connections.len();
            let mut ci: usize = 0;
            while ci < clen
                invariant
                    graph.wf(),
                    g == graph@,
                    f == filter_view(*edges),
                    n == g.len(),
                    0 <= sv < n,
                    marked@.len() == n,
                    u < n,
                    uv == u as int,
                    prev.contains(uv),
                    ci <= clen,
                    clen == g[uv].connections.len(),
                    prev.subset_of(marked_set(marked@)),
                    marked_set(marked@).subset_of(step_set(g, prev, f)),
                    marked_set(marked@).finite(),
                    marked_set(marked@).contains(sv),
                    marked_set(marked@).subset_of(set_int_range(0, n as int)),
                    count + 1 == marked_set(marked@).len(),
                    forall|k: int| 0 <= k < next@.len() ==> #[trigger] next@[k] < n,
                    index_set(next@) == marked_set(marked@).difference(prev),
                    forall|i: int, j: int|
                        prev.contains(i) && !index_set(old_frontier).contains(i) && 0 <= j < n
                            && connected(g, i, j, f) ==> prev.contains(j),
                    forall|k: int, j: int|
                        0 <= k < fi && 0 <= j < n && connected(g, old_frontier[k] as int, j, f)
                            ==> marked_set(marked@).contains(j),
                    forall|e: int, j: int|
                        #![trigger g[uv].connections[e], g[j].company]
                        0 <= e < ci && 0 <= j < n && kind_allowed(g[uv].connections[e].edge, f)
                            && g[uv].connections[e].head == g[j].company ==> marked_set(
                            marked@,
                        ).contains(j),
                decreases clen - ci,
            {
                let conn = &graph.nodes[u].connections[ci];
                proof {
                    assert(conn@ == g[uv].connections[ci as int]);
                }
                if edge_allowed(conn.edge, edges) {
                    proof {
                        assert(graph_has_company(g, (g[uv].connections[ci as int]).head));
                    }
                    match graph.find_index(&conn.head) {
                        Some(j) => {
                            let ghost jv = j as int;
                            proof {
                                assert(g[jv].company == conn@.head);
                                assert(connected(g, uv, jv, f));
                                assert(step_set(g, prev, f).contains(jv));
                            }
                            if !marked[j] {
                                let ghost m0 = marked_set(marked@);
                                let ghost next0 = next@;
                                marked[j] = true;
                                next.push(j);
                                proof {
                                    assert(marked_set(marked@) =~= m0.insert(jv));
                                    vstd::set::axiom_set_insert_len(m0, jv);
                                    lemma_int_range(0, n as int);
                                    assert(marked_set(marked@).subset_of(
                                        set_int_range(0, n as int),
                                    ));
                                    lemma_len_subset(
                                        marked_set(marked@),
                                        set_int_range(0, n as int),
                                    );
                                    assert(next@ == next0.push(j));
                                    assert(index_set(next@) =~= marked_set(marked@).difference(
                                        prev,
                                    )) by {
                                        assert forall|x: int|
                                            index_set(next@).contains(x) implies marked_set(
                                            marked@,
                                        ).difference(prev).contains(x) by {
                                            let k = choose|k: int|
                                                0 <= k < next@.len() && #[trigger] next@[k] as int
                                                    == x;
                                            if k < next0.len() {
                                                assert(next0[k] as int == x);
                                                assert(index_set(next0).contains(x));
                                            } else {
                                                assert(x == jv);
                                            }
                                        }
                                        assert forall|x: int|
                                            marked_set(marked@).difference(prev).contains(
                                                x,
                                            ) implies index_set(next@).contains(x) by {
                                            if x == jv {
                                                assert(next@[next0.len() as int] as int == x);
                                            } else {
                                                assert(m0.difference(prev).contains(x));
                                                assert(index_set(next0).contains(x));
                                                let k = choose|k: int|
                                                    0 <= k < next0.len()
                                                        && #[trigger] next0[k] as int == x;
                                                assert(next@[k] as int == x);
                                            }
                                        }
                                    }
                                }
                                count = count + 1;
                            }
                        },
                        None => {
                            proof {
                                assert(false);
                            }
                        },
                    }
                }
                ci += 1;
            }
            fi += 1;
            proof {
                assert(forall|j: int|
                    0 <= j < n && connected(g, old_frontier[fi - 1] as int, j, f)
                        ==> marked_set(marked@).contains(j));
            }
        }
        proof {
            assert(marked_set(marked@) =~= step_set(g, prev, f)) by {
                assert forall|j: int| step_set(g, prev, f).contains(j) implies marked_set(
                    marked@,
                ).contains(j) by {
                    if !prev.contains(j) {
                        let i = choose|i: int|
                            #[trigger] prev.contains(i) && 0 <= i < g.len() && connected(
                                g,
                                i,
                                j,
                                f,
                            );
                        if index_set(old_frontier).contains(i) {
                            let k = choose|k: int|
                                0 <= k < old_frontier.len() && #[trigger] old_frontier[k] as int
                                    == i;
                            assert(connected(g, old_frontier[k] as int, j, f));
                        }
                    }
                }
            }
            assert((d + 1) as nat == (d as nat) + 1);
            assert(reach_set(g, sv, d as nat + 1, f) == step_set(
                g,
                reach_set(g, sv, d as nat, f),
                f,
            ));
            assert forall|i: int, j: int|
                marked_set(marked@).contains(i) && !index_set(next@).contains(i) && 0 <= j < n
                    && connected(g, i, j, f) implies marked_set(marked@).contains(j) by {
                if prev.contains(i) {
                    if index_set(old_frontier).contains(i) {
                        let k = choose|k: int|
                            0 <= k < old_frontier.len() && #[trigger] old_frontier[k] as int == i;
                        assert(connected(g, old_frontier[k] as int, j, f));
                    }
                } else {
                    assert(marked_set(marked@).difference(prev).contains(i));
                }
            }
        }
        frontier = next;
        d += 1;
    }
    proof {
        let dn = d as nat;
        let hn = *degrees as nat;
        if d < *degrees {
            assert(frontier@.len() == 0);
            assert(step_set(g, marked_set(marked@), f) =~= marked_set(marked@)) by {
                assert forall|j: int|
                    step_set(g, marked_set(marked@), f).contains(j) implies marked_set(
                    marked@,
                ).contains(j) by {
                    if !marked_set(marked@).contains(j) {
                        let i = choose|i: int|
                            #[trigger] marked_set(marked@).contains(i) && 0 <= i < g.len()
                                && connected(g, i, j, f);
                        assert(!index_set(frontier@).contains(i));
                    }
                }
            }
            lemma_reach_fixpoint(g, sv, dn, hn, f);
        }
        assert(marked_set(marked@) == reach_set(g, sv, hn, f));
        vstd::set::axiom_set_remove_len(marked_set(marked@), sv);
        assert(neighborhood_size(g, company@, hn, f) == reach_set(g, sv, hn, f).remove(sv).len());
    }
    count
}

/// The sum of all histogram buckets.
pub open spec fn bucket_sum(s: Seq<usize>) -> int
    decreases s.len(),
{
    if s.len() == 0 {
        0
    } else {
        bucket_sum(s.drop_last()) + s.last()
    }
}

/// How many of the first `upto` graph entries have neighborhood size
/// exactly `size` under the given hop limit and filter.
pub open spec fn entities_with_size(
    g: Seq<NodeView>,
    h: nat,
    filter: Option<Seq<EdgeTypes>>,
    size: nat,
    upto: int,
) -> int
    decreases upto,
{
    if upto <= 0 {
        0
    } else {
        entities_with_size(g, h, filter, size, upto - 1) + (
        if neighborhood_size(g, g[upto - 1].company, h, filter) == size {
            1int
        } else {
            0int
        })
    }
}

proof fn lemma_entities_with_size_bound(
    g: Seq<NodeView>,
    h: nat,
    filter: Option<Seq<EdgeTypes>>,
    size: nat,
    upto: int,
)
    ensures
        0 <= entities_with_size(g, h, filter, size, upto),
        entities_with_size(g, h, filter, size, upto) <= if upto >= 0 {
            upto
        } else {
            0
        },
    decreases upto,
{
    if upto > 0 {
        lemma_entities_with_size_bound(g, h, filter, size, upto - 1);
    }
}

proof fn lemma_entities_with_size_zero(
    g: Seq<NodeView>,
    h: nat,
    filter: Option<Seq<EdgeTypes>>,
    size: nat,
    upto: int,
)
    requires
        forall|i: int|
            0 <= i < upto ==> neighborhood_size(g, (#[trigger] g[i]).company, h, filter) != size,
    ensures
        entities_with_size(g, h, filter, size, upto) == 0,
    decreases upto,
{
    if upto > 0 {
        lemma_entities_with_size_zero(g, h, filter, size, upto - 1);
    }
}

proof fn lemma_bucket_sum_update(s: Seq<usize>, i: int, v: usize)
    requires
        0 <= i < s.len(),
    ensures
        bucket_sum(s.update(i, v)) == bucket_sum(s) - s[i] + v,
    decreases s.len(),
{
    if i == s.len() - 1 {
        assert(s.update(i, v).drop_last() =~= s.drop_last());
    } else {
        assert(s.update(i, v).drop_last() =~= s.drop_last().update(i, v));
        lemma_bucket_sum_update(s.drop_last(), i, v);
    }
}

proof fn lemma_neighborhood_size_bound(
    g: Seq<NodeView>,
    c: CompanyKey,
    h: nat,
    filter: Option<Seq<EdgeTypes>>,
)
    requires
        graph_has_company(g, c),
    ensures
        neighborhood_size(g, c, h, filter) < g.len(),
{
    let s = company_index(g, c);
    assert(0 <= s < g.len());
    lemma_reach_in_range(g, s, h, filter);
    lemma_int_range(0, g.len() as int);
    let r = reach_set(g, s, h, filter).remove(s);
    assert(r.subset_of(set_int_range(0, g.len() as int).remove(s)));
    vstd::set::axiom_set_remove_len(set_int_range(0, g.len() as int), s);
    lemma_len_subset(r, set_int_range(0, g.len() as int).remove(s));
}

/// Computes the degree distribution of the graph: bucket `c` of the
/// result holds the number of companies whose neighborhood size, within
/// `degrees` hops over connections the filter allows, is exactly `c`.
/// The histogram extends exactly to the largest observed size; its
/// buckets sum to the number of companies in the graph, and the empty
/// graph yields an empty histogram.
pub fn find_degree_distribution(
    graph: &Graph,
    degrees: &usize,
    edges: &Option<Vec<EdgeTypes>>,
) -> (r: Vec<usize>)
    requires
        graph.wf(),
    ensures
        forall|c: int|
            0 <= c < r@.len() ==> r@[c] == entities_with_size(
                graph@,
                *degrees as nat,
                filter_view(*edges),
                c as nat,
                graph@.len() as int,
            ),
        forall|i: int|
            0 <= i < graph@.len() ==> neighborhood_size(
                graph@,
                (#[trigger] graph@[i]).company,
                *degrees as nat,
                filter_view(*edges),
            ) < r@.len(),
        r@.len() > 0 ==> r@[r@.len() - 1] > 0,
        graph@.len() == 0 ==> r@.len() == 0,
        bucket_sum(r@) == graph@.len(),
{
    let ghost g = graph@;
    let ghost h = *degrees as nat;
    let ghost f = filter_view(*edges);
    let n = graph.nodes.len();
    let mut distribution: Vec<usize> = Vec::new();
    let mut k: usize = 0;
    while k < n
        invariant
            graph.wf(),
            g == graph@,
            h == *degrees as nat,
            f == filter_view(*edges),
            n == g.len(),
            k <= n,
            forall|c: int|
                0 <= c < distribution@.len() ==> distribution@[c] == entities_with_size(
                    g,
                    h,
                    f,
                    c as nat,
                    k as int,
                ),
            forall|i: int|
                0 <= i < k ==> neighborhood_size(g, (#[trigger] g[i]).company, h, f)
                    < distribution@.len(),
            distribution@.len() > 0 ==> distribution@[distribution@.len() - 1] > 0,
            k == 0 ==> distribution@.len() == 0,
            bucket_sum(distribution@) == k,
        decreases n - k,
    {
        let company = &graph.nodes[k].company;
        proof {
            assert(g[k as int].company == company@);
            assert(graph_has_company(g, company@));
            lemma_neighborhood_size_bound(g, company@, h, f);
        }
        let count = count_edges(graph, degrees, company, edges);
        let ghost len0 = distribution@.len() as int;
        while distribution.len() <= count
            invariant
                n == g.len(),
                k < n,
                count < n,
                len0 <= distribution@.len(),
                distribution@.len() <= count + 1 || distribution@.len() == len0,
                forall|c: int|
                    0 <= c < distribution@.len() ==> distribution@[c] == entities_with_size(
                        g,
                        h,
                        f,
                        c as nat,
                        k as int,
                    ),
                k > 0 ==> forall|i: int|
                    0 <= i < k ==> neighborhood_size(g, (#[trigger] g[i]).company, h, f) < len0,
                bucket_sum(distribution@) == k,
            decreases count + 1 - distribution@.len(),
        {
            let ghost s0 = distribution@;
            distribution.push(0);
            proof {
                assert(distribution@.drop_last() =~= s0);
                let c = distribution@.len() - 1;
                assert forall|i: int|
                    0 <= i < k implies neighborhood_size(g, (#[trigger] g[i]).company, h, f)
                    != c as nat by {
                    assert(neighborhood_size(g, g[i].company, h, f) < len0);
                    assert(len0 <= c);
                }
                lemma_entities_with_size_zero(g, h, f, c as nat, k as int);
            }
        }
        let cur = distribution[count];
        proof {
            lemma_entities_with_size_bound(g, h, f, count as nat, k as int);
        }
        let ghost s1 = distribution@;
        distribution[count] = cur + 1;
        proof {
            assert(distribution@ == s1.update(count as int, (cur + 1) as usize));
            lemma_bucket_sum_update(s1, count as int, (cur + 1) as usize);
            assert forall|c: int|
                0 <= c < distribution@.len() implies distribution@[c] == entities_with_size(
                g,
                h,
                f,
                c as nat,
                k as int + 1,
            ) by {
                assert(entities_with_size(g, h, f, c as nat, k as int + 1) == entities_with_size(
                    g,
                    h,
                    f,
                    c as nat,
                    k as int,
                ) + (
                if neighborhood_size(g, g[k as int].company, h, f) == c as nat {
                    1int
                } else {
                    0int
                }));
            }
        }
        k += 1;
    }
    distribution
}

} // verus!

