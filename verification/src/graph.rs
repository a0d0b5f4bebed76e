use vstd::prelude::*;

verus! {

/// A business entity, identified by its name together with its domain name.
/// Two companies are the same entity exactly when both fields agree.
#[derive(Debug, Clone, Hash)]
pub struct Company {
    pub name: String,
    pub domain_name: String,
}

/// The mathematical identity of a [`Company`]: the two key strings as
/// character sequences.
#[verifier::ext_equal]
pub ghost struct CompanyKey {
    pub name: Seq<char>,
    pub domain_name: Seq<char>,
}

impl View for Company {
    type V = CompanyKey;

    open spec fn view(&self) -> CompanyKey {
        CompanyKey { name: self.name@, domain_name: self.domain_name@ }
    }
}

/// The kind of a directed relationship between two companies.  `Unknown`
/// stands for an unrecognized or absent relationship type; ingestion drops
/// records that resolve to it, and traversal never follows such an edge
/// unless a filter names it explicitly.
#[derive(Debug, Clone, Copy, PartialEq, Eq, Hash, Structural)]
pub enum EdgeTypes {
    Customer,
    Supplier,
    Investor,
    Investee,
    Partner,
    Competitor,
    Unknown,
}

/// The relationship kind as seen from the opposite direction of an edge:
/// `Customer` and `Supplier` swap, `Investor` and `Investee` swap, and the
/// symmetric kinds map to themselves.
pub open spec fn reciprocal_kind(k: EdgeTypes) -> EdgeTypes {
    match k {
        EdgeTypes::Customer => EdgeTypes::Supplier,
        EdgeTypes::Supplier => EdgeTypes::Customer,
        EdgeTypes::Investor => EdgeTypes::Investee,
        EdgeTypes::Investee => EdgeTypes::Investor,
        EdgeTypes::Partner => EdgeTypes::Partner,
        EdgeTypes::Competitor => EdgeTypes::Competitor,
        EdgeTypes::Unknown => EdgeTypes::Unknown,
    }
}

/// Taking the reciprocal twice yields the original kind, for every kind;
/// in particular the two directional pairs swap back, and the symmetric
/// kinds `Partner` and `Competitor` are fixed points.
pub proof fn lemma_reciprocal_involution()
    ensures
        forall|k: EdgeTypes| #[trigger] reciprocal_kind(reciprocal_kind(k)) == k,
        reciprocal_kind(EdgeTypes::Partner) == EdgeTypes::Partner,
        reciprocal_kind(EdgeTypes::Competitor) == EdgeTypes::Competitor,
{
}

impl PartialEq for Company {
    fn eq(&self, other: &Company) -> (r: bool) {
        self.name == other.name && self.domain_name == other.domain_name
    }
}

impl vstd::std_specs::cmp::PartialEqSpecImpl for Company {
    open spec fn obeys_eq_spec() -> bool {
        true
    }

    open spec fn eq_spec(&self, other: &Company) -> bool {
        self@ == other@
    }
}

/// A directed, typed relationship record: `tail` is the source and `head`
/// the destination of this directed edge.
#[derive(Debug, Clone)]
pub struct CompanyConnection {
    pub id: String,
    pub tail: Company,
    pub head: Company,
    pub edge: EdgeTypes,
    pub update_time: String,
}

/// The mathematical content of a [`CompanyConnection`].
#[verifier::ext_equal]
pub ghost struct ConnectionLabel {
    pub id: Seq<char>,
    pub tail: CompanyKey,
    pub head: CompanyKey,
    pub edge: EdgeTypes,
    pub update_time: Seq<char>,
}

impl View for CompanyConnection {
    type V = ConnectionLabel;

    open spec fn view(&self) -> ConnectionLabel {
        ConnectionLabel {
            id: self.id@,
            tail: self.tail@,
            head: self.head@,
            edge: self.edge,
            update_time: self.update_time@,
        }
    }
}

/// The mirrored record of a connection: tail and head swapped, the kind
/// reciprocated, the timestamp kept, and the id derived by a suffix.
pub open spec fn mirror(c: ConnectionLabel) -> ConnectionLabel {
    ConnectionLabel {
        id: c.id + "-RECI"@,
        tail: c.head,
        head: c.tail,
        edge: reciprocal_kind(c.edge),
        update_time: c.update_time,
    }
}

impl CompanyConnection {
    /// The reciprocal record of this connection, as stored for the head
    /// company: direction flipped, kind reciprocated, id suffixed.
    pub fn reciprocal_connection(&self) -> (r: CompanyConnection)
        ensures
            r@ == mirror(self@),
    {
        let r = CompanyConnection {
            id: self.id.clone().concat("-RECI"),
            tail: Company {
                name: self.head.name.clone(),
                domain_name: self.head.domain_name.clone(),
            },
            head: Company {
                name: self.tail.name.clone(),
                domain_name: self.tail.domain_name.clone(),
            },
            edge: match self.edge {
                EdgeTypes::Customer => EdgeTypes::Supplier,
                EdgeTypes::Supplier => EdgeTypes::Customer,
                EdgeTypes::Investor => EdgeTypes::Investee,
                EdgeTypes::Investee => EdgeTypes::Investor,
                EdgeTypes::Partner | EdgeTypes::Competitor | EdgeTypes::Unknown => self.edge,
            },
            update_time: self.update_time.clone(),
        };
        proof {
            assert(r@ =~= mirror(self@));
        }
        r
    }
}

/// The characters of the lowercase form of a string, as produced by the
/// standard library's case folding; a function of the characters alone.
pub uninterp spec fn lower_of(s: Seq<char>) -> Seq<char>;

/// Relies on str::to_lowercase: returns the lowercase equivalent of the
/// string, determined by its characters alone.
#[verifier::external_body]
fn lowercase(s: &str) -> (r: String)
    ensures
        r@ == lower_of(s@),
{
    s.to_lowercase()
}

/// The relationship kind that a (lowercase) dataset field stands for.
pub open spec fn kind_of(s: Seq<char>) -> EdgeTypes {
    if s == "customer"@ {
        EdgeTypes::Customer
    } else if s == "supplier"@ {
        EdgeTypes::Supplier
    } else if s == "investment"@ {
        EdgeTypes::Investor
    } else if s == "investee"@ {
        EdgeTypes::Investee
    } else if s == "partnership"@ {
        EdgeTypes::Partner
    } else if s == "competitor"@ {
        EdgeTypes::Competitor
    } else {
        EdgeTypes::Unknown
    }
}

/// Resolves a raw dataset field to a relationship kind, ignoring case.
/// Fields that name no known kind resolve to `Unknown`.
#[allow(non_snake_case)]
pub fn match_EdgeTypes(s: &str) -> (r: EdgeTypes)
    ensures
        r == kind_of(lower_of(s@)),
{
    let low = lowercase(s);
    if low == "customer".to_owned() {
        EdgeTypes::Customer
    } else if low == "supplier".to_owned() {
        EdgeTypes::Supplier
    } else if low == "investment".to_owned() {
        EdgeTypes::Investor
    } else if low == "investee".to_owned() {
        EdgeTypes::Investee
    } else if low == "partnership".to_owned() {
        EdgeTypes::Partner
    } else if low == "competitor".to_owned() {
        EdgeTypes::Competitor
    } else {
        EdgeTypes::Unknown
    }
}

/// One adjacency entry: a company together with its outgoing connections.
#[derive(Debug, Clone)]
pub struct GraphNode {
    pub company: Company,
    pub connections: Vec<CompanyConnection>,
}

/// The mathematical content of a [`GraphNode`].
#[verifier::ext_equal]
pub ghost struct NodeView {
    pub company: CompanyKey,
    pub connections: Seq<ConnectionLabel>,
}

impl View for GraphNode {
    type V = NodeView;

    open spec fn view(&self) -> NodeView {
        NodeView {
            company: self.company@,
            connections: self.connections@.map_values(|c: CompanyConnection| c@),
        }
    }
}

/// An adjacency structure mapping each company to its outgoing
/// connections.  Built once by ingestion, then read-only for all queries.
#[derive(Debug, Clone)]
pub struct Graph {
    pub nodes: Vec<GraphNode>,
}

impl View for Graph {
    type V = Seq<NodeView>;

    open spec fn view(&self) -> Seq<NodeView> {
        self.nodes@.map_values(|n: GraphNode| n@)
    }
}

/// Whether some entry of the graph is keyed by the company `c`.
pub open spec fn graph_has_company(g: Seq<NodeView>, c: CompanyKey) -> bool {
    exists|i: int| 0 <= i < g.len() && g[i].company == c
}

/// The index of the entry keyed by `c`; meaningful when such an entry
/// exists and the keys are distinct.
pub open spec fn company_index(g: Seq<NodeView>, c: CompanyKey) -> int {
    choose|i: int| 0 <= i < g.len() && g[i].company == c
}

/// No two entries are keyed by the same company.
pub open spec fn distinct_companies(g: Seq<NodeView>) -> bool {
    forall|i: int, j: int|
        0 <= i < g.len() && 0 <= j < g.len() && i != j ==> g[i].company != g[j].company
}

/// Every stored connection hangs under the entry of its own tail company.
pub open spec fn tails_match(g: Seq<NodeView>) -> bool {
    forall|i: int, e: int|
        0 <= i < g.len() && 0 <= e < g[i].connections.len()
            ==> (#[trigger] g[i].connections[e]).tail == g[i].company
}

/// Every company referenced as the head of a stored connection also has
/// an entry of its own (possibly with no outgoing connections).
pub open spec fn heads_present(g: Seq<NodeView>) -> bool {
    forall|i: int, e: int|
        0 <= i < g.len() && 0 <= e < g[i].connections.len()
            ==> graph_has_company(g, (#[trigger] g[i].connections[e]).head)
}

/// Whether the connection `c` is stored somewhere in the graph.
pub open spec fn conn_in(g: Seq<NodeView>, c: ConnectionLabel) -> bool {
    exists|i: int, e: int|
        0 <= i < g.len() && 0 <= e < g[i].connections.len() && g[i].connections[e] == c
}

/// Whether `b` is a reciprocal record for `a`: direction flipped, kind
/// reciprocated, timestamp kept.
pub open spec fn mirrored_pair(a: ConnectionLabel, b: ConnectionLabel) -> bool {
    &&& b.tail == a.head
    &&& b.head == a.tail
    &&& b.edge == reciprocal_kind(a.edge)
    &&& b.update_time == a.update_time
}

/// Whether `c` has some reciprocal record stored in the graph.
pub open spec fn has_mirror(g: Seq<NodeView>, c: ConnectionLabel) -> bool {
    exists|j: int, f: int|
        0 <= j < g.len() && 0 <= f < g[j].connections.len() && mirrored_pair(
            c,
            g[j].connections[f],
        )
}

/// The graph is symmetric: every stored connection has a reciprocal
/// record stored as well.
pub open spec fn graph_mirrored(g: Seq<NodeView>) -> bool {
    forall|i: int, e: int|
        0 <= i < g.len() && 0 <= e < g[i].connections.len() ==> has_mirror(
            g,
            #[trigger] g[i].connections[e],
        )
}

/// The graph obtained by appending connection `c` to the entry keyed by
/// `key`, creating that entry if it is missing.
pub open spec fn spec_push_conn(g: Seq<NodeView>, key: CompanyKey, c: ConnectionLabel) -> Seq<
    NodeView,
> {
    if graph_has_company(g, key) {
        let i = company_index(g, key);
        g.update(i, NodeView { company: key, connections: g[i].connections.push(c) })
    } else {
        g.push(NodeView { company: key, connections: seq![c] })
    }
}

/// The graph obtained by inserting a connection together with its
/// reciprocal record.
pub open spec fn spec_add_connection(g: Seq<NodeView>, c: ConnectionLabel) -> Seq<NodeView> {
    spec_push_conn(spec_push_conn(g, c.tail, c), mirror(c).tail, mirror(c))
}

/// An equal copy of a company key.
fn company_copy(c: &Company) -> (r: Company)
    ensures
        r@ == c@,
{
    Company { name: c.name.clone(), domain_name: c.domain_name.clone() }
}

proof fn lemma_push_conn_props(g: Seq<NodeView>, key: CompanyKey, c: ConnectionLabel)
    requires
        distinct_companies(g),
        c.tail == key,
    ensures
        distinct_companies(spec_push_conn(g, key, c)),
        forall|ck: CompanyKey|
            graph_has_company(g, ck) ==> graph_has_company(spec_push_conn(g, key, c), ck),
        graph_has_company(spec_push_conn(g, key, c), key),
        forall|x: ConnectionLabel| conn_in(g, x) ==> conn_in(spec_push_conn(g, key, c), x),
        conn_in(spec_push_conn(g, key, c), c),
        forall|x: ConnectionLabel| conn_in(spec_push_conn(g, key, c), x) ==> conn_in(g, x) || x == c,
        tails_match(g) ==> tails_match(spec_push_conn(g, key, c)),
{
    let g2 = spec_push_conn(g, key, c);
    if graph_has_company(g, key) {
        let i = company_index(g, key);
        assert(0 <= i < g.len() && g[i].company == key);
        assert forall|j: int| 0 <= j < g2.len() implies g2[j].company == g[j].company by {}
        assert forall|ck: CompanyKey| graph_has_company(g, ck) implies graph_has_company(
            g2,
            ck,
        ) by {
            let w = choose|w: int| 0 <= w < g.len() && g[w].company == ck;
            assert(g2[w].company == ck);
        }
        assert forall|x: ConnectionLabel| conn_in(g, x) implies conn_in(g2, x) by {
            let (a, e) = choose|a: int, e: int|
                0 <= a < g.len() && 0 <= e < g[a].connections.len() && g[a].connections[e] == x;
            assert(g2[a].connections[e] == x);
        }
        assert(g2[i].connections[g[i].connections.len() as int] == c);
        assert(conn_in(g2, c));
        assert forall|x: ConnectionLabel| conn_in(g2, x) implies conn_in(g, x) || x == c by {
            let (a, e) = choose|a: int, e: int|
                0 <= a < g2.len() && 0 <= e < g2[a].connections.len() && g2[a].connections[e] == x;
            if a != i {
                assert(g[a].connections[e] == x);
            } else if e < g[i].connections.len() {
                assert(g[i].connections[e] == x);
            } else {
                assert(x == c);
            }
        }
        if tails_match(g) {
            assert forall|a: int, e: int|
                0 <= a < g2.len() && 0 <= e < g2[a].connections.len() implies (
            #[trigger] g2[a].connections[e]).tail == g2[a].company by {
                if a != i || e < g[i].connections.len() {
                    assert(g2[a].connections[e] == g[a].connections[e]);
                } else {
                    assert(g2[a].connections[e] == c);
                }
            }
        }
    } else {
        let n = g.len() as int;
        assert(g2[n].company == key);
        assert(graph_has_company(g2, key));
        assert forall|ck: CompanyKey| graph_has_company(g, ck) implies graph_has_company(
            g2,
            ck,
        ) by {
            let w = choose|w: int| 0 <= w < g.len() && g[w].company == ck;
            assert(g2[w].company == ck);
        }
        assert forall|x: ConnectionLabel| conn_in(g, x) implies conn_in(g2, x) by {
            let (a, e) = choose|a: int, e: int|
                0 <= a < g.len() && 0 <= e < g[a].connections.len() && g[a].connections[e] == x;
            assert(g2[a].connections[e] == x);
        }
        assert(g2[n].connections[0] == c);
        assert(conn_in(g2, c));
        assert forall|x: ConnectionLabel| conn_in(g2, x) implies conn_in(g, x) || x == c by {
            let (a, e) = choose|a: int, e: int|
                0 <= a < g2.len() && 0 <= e < g2[a].connections.len() && g2[a].connections[e] == x;
            if a < n {
                assert(g[a].connections[e] == x);
            } else {
                assert(x == c);
            }
        }
        if tails_match(g) {
            assert forall|a: int, e: int|
                0 <= a < g2.len() && 0 <= e < g2[a].connections.len() implies (
            #[trigger] g2[a].connections[e]).tail == g2[a].company by {
                if a < n {
                    assert(g2[a].connections[e] == g[a].connections[e]);
                } else {
                    assert(g2[a].connections[e] == c);
                }
            }
        }
    }
}

impl Graph {
    /// The well-formedness invariant delivered by ingestion: company keys
    /// are distinct, every connection hangs under its own tail company,
    /// and every referenced head company has an entry of its own.
    pub open spec fn wf(&self) -> bool {
        &&& distinct_companies(self@)
        &&& tails_match(self@)
        &&& heads_present(self@)
    }

    /// An empty graph.
    pub fn new() -> (g: Graph)
        ensures
            g@ == Seq::<NodeView>::empty(),
            g.wf(),
            graph_mirrored(g@),
    {
        let g = Graph { nodes: Vec::new() };
        proof {
            assert(g@ =~= Seq::<NodeView>::empty());
        }
        g
    }

    /// Linear search for the entry keyed by `c`.
    pub fn find_index(&self, c: &Company) -> (r: Option<usize>)
        requires
            distinct_companies(self@),
        ensures
            match r {
                Some(i) => 0 <= i < self@.len() && self@[i as int].company == c@ && i as int
                    == company_index(self@, c@),
                None => !graph_has_company(self@, c@),
            },
    {
        let n = self.nodes.len();
        let mut k: usize = 0;
        while k < n
            invariant
                n == self@.len(),
                distinct_companies(self@),
                k <= n,
                forall|i: int| 0 <= i < k ==> self@[i].company != c@,
            decreases n - k,
        {
            if self.nodes[k].company == *c {
                proof {
                    assert(self@[k as int].company == c@);
                    let ci = company_index(self@, c@);
                    assert(0 <= ci < self@.len() && self@[ci].company == c@);
                    assert(ci == k as int);
                }
                return Some(k);
            }
            k += 1;
        }
        None
    }

    fn push_at(&mut self, key: &Company, conn: CompanyConnection)
        requires
            distinct_companies(old(self)@),
            conn@.tail == key@,
        ensures
            final(self)@ == spec_push_conn(old(self)@, key@, conn@),
            distinct_companies(final(self)@),
    {
        proof {
            lemma_push_conn_props(old(self)@, key@, conn@);
        }
        match self.find_index(key) {
            Some(i) => {
                self.nodes[i].connections.push(conn);
                proof {
                    assert(self@ =~~= spec_push_conn(old(self)@, key@, conn@));
                }
            },
            None => {
                let mut connections: Vec<CompanyConnection> = Vec::new();
                connections.push(conn);
                self.nodes.push(GraphNode { company: company_copy(key), connections });
                proof {
                    assert(self@ =~~= spec_push_conn(old(self)@, key@, conn@));
                }
            },
        }
    }

    /// Inserts a relationship record together with its reciprocal record,
    /// creating entries for the tail and head companies as needed.  This
    /// is the one way connections enter a graph, so a constructed graph
    /// is symmetric and well-formed by construction.
    pub fn add_connection(&mut self, conn: CompanyConnection)
        requires
            old(self).wf(),
            graph_mirrored(old(self)@),
        ensures
            final(self)@ == spec_add_connection(old(self)@, conn@),
            final(self).wf(),
            graph_mirrored(final(self)@),
    {
        let tail_key = company_copy(&conn.tail);
        let reci = conn.reciprocal_connection();
        let head_key = company_copy(&conn.head);
        let ghost g0 = self@;
        let ghost c = conn@;
        self.push_at(&tail_key, conn);
        let ghost g1 = self@;
        self.push_at(&head_key, reci);
        proof {
            let g2 = self@;
            lemma_push_conn_props(g0, c.tail, c);
            lemma_push_conn_props(g1, mirror(c).tail, mirror(c));
            assert(tails_match(g2));
            assert forall|i: int, e: int|
                0 <= i < g2.len() && 0 <= e < g2[i].connections.len() implies graph_has_company(
                g2,
                (#[trigger] g2[i].connections[e]).head,
            ) by {
                let x = g2[i].connections[e];
                assert(conn_in(g2, x));
                if conn_in(g1, x) {
                    if conn_in(g0, x) {
                        assert(graph_has_company(g0, x.head));
                        assert(graph_has_company(g1, x.head));
                    } else {
                        assert(x == c);
                        assert(graph_has_company(g2, mirror(c).tail));
                    }
                } else {
                    assert(x == mirror(c));
                    assert(graph_has_company(g1, c.tail));
                }
            }
            assert forall|i: int, e: int|
                0 <= i < g2.len() && 0 <= e < g2[i].connections.len() implies has_mirror(
                g2,
                #[trigger] g2[i].connections[e],
            ) by {
                let x = g2[i].connections[e];
                assert(conn_in(g2, x));
                if conn_in(g1, x) && conn_in(g0, x) {
                    let (i0, e0) = choose|i0: int, e0: int|
                        0 <= i0 < g0.len() && 0 <= e0 < g0[i0].connections.len()
                            && g0[i0].connections[e0] == x;
                    assert(has_mirror(g0, g0[i0].connections[e0]));
                    let (a, b) = choose|a: int, b: int|
                        0 <= a < g0.len() && 0 <= b < g0[a].connections.len() && mirrored_pair(
                            x,
                            g0[a].connections[b],
                        );
                    let y = g0[a].connections[b];
                    assert(conn_in(g0, y));
                    assert(conn_in(g2, y));
                    let (j, f) = choose|j: int, f: int|
                        0 <= j < g2.len() && 0 <= f < g2[j].connections.len()
                            && g2[j].connections[f] == y;
                    assert(mirrored_pair(x, g2[j].connections[f]));
                } else if conn_in(g1, x) {
                    assert(x == c);
                    assert(conn_in(g2, mirror(c)));
                    let (j, f) = choose|j: int, f: int|
                        0 <= j < g2.len() && 0 <= f < g2[j].connections.len()
                            && g2[j].connections[f] == mirror(c);
                    assert(mirrored_pair(c, g2[j].connections[f]));
                } else {
                    assert(x == mirror(c));
                    assert(conn_in(g1, c));
                    assert(conn_in(g2, c));
                    assert(mirrored_pair(mirror(c), c));
                    let (j, f) = choose|j: int, f: int|
                        0 <= j < g2.len() && 0 <= f < g2[j].connections.len()
                            && g2[j].connections[f] == c;
                    assert(mirrored_pair(mirror(c), g2[j].connections[f]));
                }
            }
        }
    }
}

/// Whether a raw dataset row is accepted by ingestion: it has at least
/// eight fields, no field is the placeholder "N/A", and its kind field
/// resolves to a known relationship kind.
pub open spec fn record_ok(r: Seq<Seq<char>>) -> bool {
    &&& r.len() >= 8
    &&& forall|i: int| 0 <= i < r.len() ==> r[i] != "N/A"@
    &&& kind_of(lower_of(r[3])) != EdgeTypes::Unknown
}

/// The connection that an accepted dataset row describes.
pub open spec fn record_connection(r: Seq<Seq<char>>) -> ConnectionLabel {
    ConnectionLabel {
        id: r[0],
        tail: CompanyKey { name: r[1], domain_name: r[5] },
        head: CompanyKey { name: r[2], domain_name: r[6] },
        edge: kind_of(lower_of(r[3])),
        update_time: r[4],
    }
}

/// The graph built from a sequence of raw dataset rows: each accepted row
/// is inserted together with its reciprocal record, rejected rows are
/// skipped.
pub open spec fn spec_build_graph(rs: Seq<Seq<Seq<char>>>) -> Seq<NodeView>
    decreases rs.len(),
{
    if rs.len() == 0 {
        Seq::empty()
    } else {
        let g = spec_build_graph(rs.drop_last());
        if record_ok(rs.last()) {
            spec_add_connection(g, record_connection(rs.last()))
        } else {
            g
        }
    }
}

/// Validates one raw dataset row, returning the connection it describes,
/// or nothing for a row that ingestion must skip.
pub fn record_accepted(rec: &Vec<String>) -> (r: Option<CompanyConnection>)
    ensures
        match r {
            Some(c) => record_ok(rec.deep_view()) && c@ == record_connection(rec.deep_view()),
            None => !record_ok(rec.deep_view()),
        },
{
    let n = rec.len();
    if n < 8 {
        return None;
    }
    let mut i: usize = 0;
    while i < n
        invariant
            n == rec.len(),
            forall|k: int| 0 <= k < i ==> rec.deep_view()[k] != "N/A"@,
        decreases n - i,
    {
        if rec[i] == "N/A".to_owned() {
            proof {
                assert(rec.deep_view()[i as int] == "N/A"@);
            }
            return None;
        }
        i += 1;
    }
    let kind = match_EdgeTypes(rec[3].as_str());
    if kind == EdgeTypes::Unknown {
        return None;
    }
    let c = CompanyConnection {
        id: rec[0].clone(),
        tail: Company { name: rec[1].clone(), domain_name: rec[5].clone() },
        head: Company { name: rec[2].clone(), domain_name: rec[6].clone() },
        edge: kind,
        update_time: rec[4].clone(),
    };
    proof {
        assert(c@ =~~= record_connection(rec.deep_view()));
    }
    Some(c)
}

/// Builds the graph from raw dataset rows.  Rows with fewer than eight
/// fields, with an "N/A" field, or with an unrecognized relationship kind
/// are dropped; every accepted row is inserted together with its
/// reciprocal record, so the resulting graph is well-formed and symmetric
/// by construction.
pub fn build_graph_from(records: &Vec<Vec<String>>) -> (g: Graph)
    ensures
        g@ == spec_build_graph(records.deep_view()),
        g.wf(),
        graph_mirrored(g@),
{
    let mut g = Graph::new();
    let n = records.len();
    let mut k: usize = 0;
    proof {
        assert(records.deep_view().take(0) =~= Seq::<Seq<Seq<char>>>::empty());
    }
    while k < n
        invariant
            n == records.len(),
            k <= n,
            g@ == spec_build_graph(records.deep_view().take(k as int)),
            g.wf(),
            graph_mirrored(g@),
        decreases n - k,
    {
        let ghost pre = records.deep_view().take(k as int);
        let ghost post = records.deep_view().take(k as int + 1);
        proof {
            assert(post.drop_last() =~= pre);
            assert(post.last() == records.deep_view()[k as int]);
            assert(records[k as int].deep_view() == records.deep_view()[k as int]);
        }
        match record_accepted(&records[k]) {
            Some(conn) => {
                g.add_connection(conn);
            },
            None => {},
        }
        k += 1;
    }
    proof {
        assert(records.deep_view().take(n as int) =~= records.deep_view());
    }
    g
}

} // verus!
