use crate::strmap::StrMap;
use vstd::prelude::*;

verus! {

/// The mathematical model of a graph: vertex label -> (neighbor label -> weight).
pub type GraphModel = Map<Seq<char>, Map<Seq<char>, usize>>;

pub open spec fn has_edge(m: GraphModel, a: Seq<char>, b: Seq<char>) -> bool {
    m.contains_key(a) && m[a].contains_key(b)
}

pub open spec fn edge_weight(m: GraphModel, a: Seq<char>, b: Seq<char>) -> usize {
    m[a][b]
}

/// Every recorded edge is recorded in both directions, with the same weight.
pub open spec fn symmetric(m: GraphModel) -> bool {
    forall|a: Seq<char>, b: Seq<char>| #[trigger]
        has_edge(m, a, b) ==> has_edge(m, b, a) && edge_weight(m, b, a) == edge_weight(m, a, b)
}

/// One directed half-edge added to the model, creating the vertex entry as needed.
pub open spec fn half_insert(m: GraphModel, a: Seq<char>, b: Seq<char>, w: usize) -> GraphModel {
    let inner = if m.contains_key(a) {
        m[a]
    } else {
        Map::<Seq<char>, usize>::empty()
    };
    m.insert(a, inner.insert(b, w))
}

/// An undirected edge added to the model: both half-edges, last write winning.
pub open spec fn edge_insert(m: GraphModel, a: Seq<char>, b: Seq<char>, w: usize) -> GraphModel {
    half_insert(half_insert(m, a, b, w), b, a, w)
}

/// The graph built by folding `edge_insert` over an edge list, in order.
pub open spec fn list_model(edges: Seq<(Seq<char>, Seq<char>, usize)>) -> GraphModel
    decreases edges.len(),
{
    if edges.len() == 0 {
        Map::<Seq<char>, Map<Seq<char>, usize>>::empty()
    } else {
        let e = edges.last();
        edge_insert(list_model(edges.drop_last()), e.0, e.1, e.2)
    }
}

/// The views of an edge list taken as labels and weights.
pub open spec fn edge_views(edges: Seq<(&str, &str, usize)>) -> Seq<(Seq<char>, Seq<char>, usize)> {
    edges.map_values(|e: (&str, &str, usize)| (e.0@, e.1@, e.2))
}

/// What `edge_insert` does, edge by edge: the inserted unordered pair carries
/// the new weight in both directions, every other recorded edge is unchanged.
pub proof fn lemma_edge_insert_edges(m: GraphModel, a: Seq<char>, b: Seq<char>, w: usize)
    ensures
        forall|x: Seq<char>, y: Seq<char>| #[trigger]
            has_edge(edge_insert(m, a, b, w), x, y) <==> (has_edge(m, x, y) || (x == a && y == b)
                || (x == b && y == a)),
        edge_weight(edge_insert(m, a, b, w), a, b) == w,
        edge_weight(edge_insert(m, a, b, w), b, a) == w,
        forall|x: Seq<char>, y: Seq<char>|
            #![trigger edge_weight(edge_insert(m, a, b, w), x, y)]
            has_edge(m, x, y) && !((x == a && y == b) || (x == b && y == a)) ==> edge_weight(
                edge_insert(m, a, b, w),
                x,
                y,
            ) == edge_weight(m, x, y),
        edge_insert(m, a, b, w).dom() == m.dom().insert(a).insert(b),
{
    let m2 = edge_insert(m, a, b, w);
    assert(m2.dom() =~= m.dom().insert(a).insert(b));
}

/// Inserting an undirected edge preserves symmetry.
pub proof fn lemma_edge_insert_symmetric(m: GraphModel, a: Seq<char>, b: Seq<char>, w: usize)
    requires
        symmetric(m),
    ensures
        symmetric(edge_insert(m, a, b, w)),
{
    let m2 = edge_insert(m, a, b, w);
    lemma_edge_insert_edges(m, a, b, w);
    assert forall|x: Seq<char>, y: Seq<char>| #[trigger] has_edge(m2, x, y) implies has_edge(
        m2,
        y,
        x,
    ) && edge_weight(m2, y, x) == edge_weight(m2, x, y) by {
        if (x == a && y == b) || (x == b && y == a) {
        } else {
            assert(has_edge(m, x, y));
            assert(has_edge(m, y, x));
        }
    }
}

/// Symmetry: every graph modelled by an edge-list fold records each edge
/// in both directions with the same weight.
pub proof fn lemma_list_model_symmetric(edges: Seq<(Seq<char>, Seq<char>, usize)>)
    ensures
        symmetric(list_model(edges)),
    decreases edges.len(),
{
    if edges.len() == 0 {
        assert forall|a: Seq<char>, b: Seq<char>| #[trigger]
            has_edge(list_model(edges), a, b) implies has_edge(list_model(edges), b, a)
            && edge_weight(list_model(edges), b, a) == edge_weight(list_model(edges), a, b) by {}
    } else {
        lemma_list_model_symmetric(edges.drop_last());
        let e = edges.last();
        lemma_edge_insert_symmetric(list_model(edges.drop_last()), e.0, e.1, e.2);
    }
}

/// The same unordered pair, in either orientation.
pub open spec fn same_pair(e: (Seq<char>, Seq<char>, usize), a: Seq<char>, b: Seq<char>) -> bool {
    (e.0 == a && e.1 == b) || (e.0 == b && e.1 == a)
}

/// Last write wins: if position `i` inserts the unordered pair {a, b} with
/// weight `w` and no later entry touches that pair, the built graph records
/// weight `w` in both directions.
pub proof fn lemma_last_write_wins(
    edges: Seq<(Seq<char>, Seq<char>, usize)>,
    i: int,
    a: Seq<char>,
    b: Seq<char>,
    w: usize,
)
    requires
        0 <= i < edges.len(),
        edges[i] == (a, b, w) || edges[i] == (b, a, w),
        forall|j: int| i < j < edges.len() ==> !same_pair(#[trigger] edges[j], a, b),
    ensures
        has_edge(list_model(edges), a, b),
        has_edge(list_model(edges), b, a),
        edge_weight(list_model(edges), a, b) == w,
        edge_weight(list_model(edges), b, a) == w,
    decreases edges.len(),
{
    let e = edges.last();
    let prev_model = list_model(edges.drop_last());
    if i == edges.len() - 1 {
        if edges[i] == (a, b, w) {
            lemma_edge_insert_edges(prev_model, a, b, w);
        } else {
            lemma_edge_insert_edges(prev_model, b, a, w);
        }
    } else {
        assert(edges.drop_last()[i] == edges[i]);
        lemma_last_write_wins(edges.drop_last(), i, a, b, w);
        assert(!same_pair(e, a, b));
        lemma_edge_insert_edges(prev_model, e.0, e.1, e.2);
    }
}

/// A weighted undirected graph over string-labelled vertices, stored as an
/// adjacency map. Its view is a `GraphModel`.
#[derive(Debug)]
pub struct Graph {
    adj: StrMap<StrMap<usize>>,
}

impl View for Graph {
    type V = GraphModel;

    closed spec fn view(&self) -> GraphModel {
        Map::new(|k: Seq<char>| self.adj@.contains_key(k), |k: Seq<char>| self.adj@[k]@)
    }
}

impl Graph {
    /// The representation holds each vertex once, with a well-formed
    /// neighbor map.
    pub closed spec fn rep_ok(self) -> bool {
        self.adj.wf() && forall|k: Seq<char>| #[trigger]
            self.adj@.contains_key(k) ==> self.adj@[k].wf()
    }

    /// A well-formed graph: sound representation and a symmetric model.
    pub open spec fn wf(self) -> bool {
        self.rep_ok() && symmetric(self@)
    }

    /// The vertex labels, each exactly once.
    pub closed spec fn vert_seq(self) -> Seq<Seq<char>> {
        self.adj.key_seq()
    }

    pub proof fn lemma_vert_seq(self)
        requires
            self.rep_ok(),
        ensures
            self.vert_seq().no_duplicates(),
            forall|k: Seq<char>| #[trigger] self@.contains_key(k) <==> self.vert_seq().contains(k),
    {
        self.adj.lemma_dom();
        assert forall|k: Seq<char>| #[trigger]
            self@.contains_key(k) <==> self.vert_seq().contains(k) by {
            assert(self@.contains_key(k) == self.adj@.contains_key(k));
        }
    }

    pub fn new() -> (g: Graph)
        ensures
            g.wf(),
            g@ == Map::<Seq<char>, Map<Seq<char>, usize>>::empty(),
    {
        let g = Graph { adj: StrMap::new() };
        proof {
            assert(g@ =~= Map::<Seq<char>, Map<Seq<char>, usize>>::empty());
        }
        g
    }

    fn half_edge(&mut self, a: &str, b: &str, w: usize)
        requires
            old(self).rep_ok(),
        ensures
            final(self).rep_ok(),
            final(self)@ == half_insert(old(self)@, a@, b@, w),
    {
        let mut inner = match self.adj.take(a) {
            Some(m) => m,
            None => StrMap::new(),
        };
        inner.insert(b.to_owned(), w);
        self.adj.insert(a.to_owned(), inner);
        proof {
            assert(self@ =~= half_insert(old(self)@, a@, b@, w));
        }
    }

    pub(crate) fn insert_edge(&mut self, a: &str, b: &str, w: usize)
        requires
            old(self).rep_ok(),
        ensures
            final(self).rep_ok(),
            final(self)@ == edge_insert(old(self)@, a@, b@, w),
    {
        self.half_edge(a, b, w);
        self.half_edge(b, a, w);
    }

    /// Whether `a` is a vertex of the graph.
    pub fn contains_vertex(&self, a: &str) -> (r: bool)
        requires
            self.wf(),
        ensures
            r == self@.contains_key(a@),
    {
        match self.adj.get(a) {
            Some(_) => true,
            None => false,
        }
    }

    /// How many vertices the graph has.
    pub fn vertex_count(&self) -> (n: usize)
        ensures
            n == self.vert_seq().len(),
    {
        self.adj.len()
    }

    /// The label of the vertex at position `i` of the vertex enumeration.
    pub fn vertex_at(&self, i: usize) -> (k: &String)
        requires
            self.wf(),
            i < self.vert_seq().len(),
        ensures
            k@ == self.vert_seq()[i as int],
            self@.contains_key(k@),
    {
        self.adj.key_at(i)
    }

    /// The neighbor map of `a`, if `a` is a vertex.
    pub fn neighbors(&self, a: &str) -> (r: Option<&StrMap<usize>>)
        requires
            self.wf(),
        ensures
            match r {
                Some(nm) => self@.contains_key(a@) && nm.wf() && nm@ == self@[a@],
                None => !self@.contains_key(a@),
            },
    {
        match self.adj.get(a) {
            Some(nm) => Some(nm),
            None => None,
        }
    }

    /// The recorded weight of the edge from `a` to `b`, if there is one.
    pub fn weight(&self, a: &str, b: &str) -> (r: Option<usize>)
        requires
            self.wf(),
        ensures
            match r {
                Some(w) => has_edge(self@, a@, b@) && edge_weight(self@, a@, b@) == w,
                None => !has_edge(self@, a@, b@),
            },
    {
        match self.neighbors(a) {
            Some(nm) => match nm.get(b) {
                Some(w) => Some(*w),
                None => None,
            },
            None => None,
        }
    }
}

/// Builds the graph from an ordered edge list, inserting each undirected
/// edge in turn; later entries overwrite earlier ones for the same
/// unordered pair.
pub fn from_list(edge_list: &[(&str, &str, usize)]) -> (g: Graph)
    ensures
        g.wf(),
        g@ == list_model(edge_views(edge_list@)),
{
    let mut g = Graph::new();
    let n = edge_list.len();
    let mut i: usize = 0;
    while i < n
        invariant
            i <= n,
            n == edge_list@.len(),
            g.rep_ok(),
            g@ == list_model(edge_views(edge_list@).take(i as int)),
        decreases n - i,
    {
        let (a, b, w) = edge_list[i];
        g.insert_edge(a, b, w);
        proof {
            let views = edge_views(edge_list@);
            assert(views.take(i + 1).drop_last() =~= views.take(i as int));
            assert(views.take(i + 1).last() == (a@, b@, w));
        }
        i += 1;
    }
    proof {
        assert(edge_views(edge_list@).take(n as int) =~= edge_views(edge_list@));
        lemma_list_model_symmetric(edge_views(edge_list@));
    }
    g
}

} // verus!
