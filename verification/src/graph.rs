//! The graph variant of the visited-domain store: one vertex per discovered
//! domain, directed edges recording which domain linked to which, sharded by
//! a hash of the domain name exactly like the flat history.

use vstd::prelude::*;
use vstd::seq_lib::*;
use vstd::string::StringExecFns;
use crate::text::dec_digits;
use crate::text::u64_to_dec;
use crate::history::domains_of;
use crate::history::lemma_domains_of_len;
use crate::history::lemma_domains_of_member;
use crate::history::shards_wf;
use crate::history::total_len;
use crate::shard::spec_shard_of;
use crate::shard::shard_of;

verus! {

/// Mathematical model of one vertex: its domain, and the domains of its
/// incoming and outgoing edges, in insertion order.
#[verifier::ext_equal]
pub ghost struct VertexModel {
    pub domain: Seq<char>,
    pub incoming: Seq<Seq<char>>,
    pub outgoing: Seq<Seq<char>>,
}

impl VertexModel {
    /// A vertex never records an edge to itself.
    pub open spec fn wf(&self) -> bool {
        &&& forall|i: int| 0 <= i < self.incoming.len() ==> self.incoming[i] != self.domain
        &&& forall|i: int| 0 <= i < self.outgoing.len() ==> self.outgoing[i] != self.domain
    }
}

/// One discovered domain and the edges recorded for it.  Incoming edges are
/// kept only as the linking vertices' names, so mutual links cannot chain
/// two vertices' lifetimes together.
#[derive(Clone)]
pub struct Vertex {
    domain: String,
    incoming: Vec<String>,
    outgoing: Vec<String>,
}

impl View for Vertex {
    type V = VertexModel;

    closed spec fn view(&self) -> VertexModel {
        VertexModel {
            domain: self.domain@,
            incoming: self.incoming@.map_values(|d: String| d@),
            outgoing: self.outgoing@.map_values(|d: String| d@),
        }
    }
}

impl Vertex {
    /// A fresh vertex for a domain, with no edges yet.
    pub fn new(domain: String) -> (v: Vertex)
        ensures
            v@.domain == domain@,
            v@.incoming == Seq::<Seq<char>>::empty(),
            v@.outgoing == Seq::<Seq<char>>::empty(),
            v@.wf(),
    {
        let v = Vertex { domain, incoming: Vec::new(), outgoing: Vec::new() };
        proof {
            assert(v@.incoming =~= Seq::<Seq<char>>::empty());
            assert(v@.outgoing =~= Seq::<Seq<char>>::empty());
        }
        v
    }

    /// Record an outgoing edge to `v`, unless that would be a self-loop.
    /// Reports whether the edge was recorded.
    pub fn add_outgoing(&mut self, v: &Vertex) -> (r: bool)
        ensures
            r == (old(self)@.domain != v@.domain),
            r ==> final(self)@ == (VertexModel {
                outgoing: old(self)@.outgoing.push(v@.domain),
                ..old(self)@
            }),
            !r ==> final(self)@ == old(self)@,
            old(self)@.wf() ==> final(self)@.wf(),
    {
        if self.domain == v.domain {
            return false;
        }
        self.outgoing.push(v.domain.clone());
        proof {
            assert(final(self)@.outgoing =~= old(self)@.outgoing.push(v@.domain));
        }
        true
    }

    /// Record an incoming edge from `v`, unless that would be a self-loop.
    /// Reports whether the edge was recorded.
    pub fn add_incoming(&mut self, v: &Vertex) -> (r: bool)
        ensures
            r == (old(self)@.domain != v@.domain),
            r ==> final(self)@ == (VertexModel {
                incoming: old(self)@.incoming.push(v@.domain),
                ..old(self)@
            }),
            !r ==> final(self)@ == old(self)@,
            old(self)@.wf() ==> final(self)@.wf(),
    {
        if self.domain == v.domain {
            return false;
        }
        self.incoming.push(v.domain.clone());
        proof {
            assert(final(self)@.incoming =~= old(self)@.incoming.push(v@.domain));
        }
        true
    }

    /// Number of recorded incoming edges.
    pub fn in_degree(&self) -> (n: usize)
        ensures
            n == self@.incoming.len(),
    {
        self.incoming.len()
    }

    /// Number of recorded outgoing edges.
    pub fn out_degree(&self) -> (n: usize)
        ensures
            n == self@.outgoing.len(),
    {
        self.outgoing.len()
    }

    /// The vertex's report line: its domain with its in- and out-degree.
    pub fn serialize(&self) -> (s: String)
        ensures
            s@ == vertex_line(self@),
    {
        let s = self.domain.clone();
        let s = s.concat(" (in ");
        let s = s.concat(u64_to_dec(self.in_degree() as u64).as_str());
        let s = s.concat(", out ");
        let s = s.concat(u64_to_dec(self.out_degree() as u64).as_str());
        let s = s.concat(")");
        proof {
            assert(s@ =~= vertex_line(self@));
        }
        s
    }
}

/// The report line of one vertex: `<domain> (in <in-degree>, out <out-degree>)`.
pub open spec fn vertex_line(v: VertexModel) -> Seq<char> {
    v.domain + " (in "@ + dec_digits(v.incoming.len() as int) + ", out "@ + dec_digits(
        v.outgoing.len() as int,
    ) + ")"@
}

/// The map a single shard represents: domain to vertex model.
pub open spec fn shard_map(sh: Seq<VertexModel>) -> Map<Seq<char>, VertexModel>
    decreases sh.len(),
{
    if sh.len() == 0 {
        Map::empty()
    } else {
        shard_map(sh.drop_last()).insert(sh.last().domain, sh.last())
    }
}

/// The map a sequence of shards represents, later shards taking precedence
/// (under the sharding invariant no two shards share a domain, so the
/// precedence never matters).
pub open spec fn graph_map(shards: Seq<Seq<VertexModel>>) -> Map<Seq<char>, VertexModel>
    decreases shards.len(),
{
    if shards.len() == 0 {
        Map::empty()
    } else {
        graph_map(shards.drop_last()).union_prefer_right(shard_map(shards.last()))
    }
}

/// The domains of a shard's vertices, in order.
pub open spec fn shard_domains(sh: Seq<VertexModel>) -> Seq<Seq<char>> {
    sh.map_values(|v: VertexModel| v.domain)
}

/// The domains of every shard.
pub open spec fn all_domains(shards: Seq<Seq<VertexModel>>) -> Seq<Seq<Seq<char>>> {
    shards.map_values(|sh: Seq<VertexModel>| shard_domains(sh))
}

/// The sharding invariant over vertex shards: domains sharded by hash and
/// unique, and every vertex free of self-loops.
pub open spec fn graph_shards_wf(shards: Seq<Seq<VertexModel>>, count: int) -> bool {
    &&& shards_wf(all_domains(shards), count)
    &&& forall|s: int, i: int|
        0 <= s < shards.len() && 0 <= i < shards[s].len() ==> (#[trigger] shards[s][i]).wf()
}

proof fn lemma_shard_map_dom(sh: Seq<VertexModel>)
    ensures
        shard_map(sh).dom() =~= shard_domains(sh).to_set(),
    decreases sh.len(),
{
    if sh.len() > 0 {
        lemma_shard_map_dom(sh.drop_last());
        assert(shard_domains(sh.drop_last()) =~= shard_domains(sh).drop_last());
        let doms = shard_domains(sh);
        assert forall|d: Seq<char>| #[trigger] doms.to_set().contains(d) implies shard_map(
            sh,
        ).dom().contains(d) by {
            let i = choose|i: int| 0 <= i < doms.len() && doms[i] == d;
            if i < doms.len() - 1 {
                assert(doms.drop_last()[i] == d);
                assert(doms.drop_last().to_set().contains(d));
            }
        }
        assert forall|d: Seq<char>| #[trigger]
            shard_map(sh).dom().contains(d) implies doms.to_set().contains(d) by {
            if shard_map(sh.drop_last()).dom().contains(d) {
                let i = choose|i: int|
                    0 <= i < doms.drop_last().len() && doms.drop_last()[i] == d;
                assert(doms[i] == d);
            } else {
                assert(doms[doms.len() - 1] == d);
            }
        }
    }
}

proof fn lemma_graph_map_dom(shards: Seq<Seq<VertexModel>>)
    ensures
        graph_map(shards).dom() =~= domains_of(all_domains(shards)),
    decreases shards.len(),
{
    if shards.len() > 0 {
        lemma_graph_map_dom(shards.drop_last());
        lemma_shard_map_dom(shards.last());
        assert(all_domains(shards.drop_last()) =~= all_domains(shards).drop_last());
        assert(all_domains(shards).last() == shard_domains(shards.last()));
    }
}

/// Looking a domain up in the whole map gives the vertex stored at its
/// position in its shard, provided the domain occurs nowhere else.
proof fn lemma_graph_map_lookup(shards: Seq<Seq<VertexModel>>, s: int, i: int)
    requires
        0 <= s < shards.len(),
        0 <= i < shards[s].len(),
        forall|s2: int, i2: int|
            0 <= s2 < shards.len() && 0 <= i2 < shards[s2].len() && (s2 != s || i2 != i)
                ==> (#[trigger] shards[s2][i2]).domain != shards[s][i].domain,
    ensures
        graph_map(shards).dom().contains(shards[s][i].domain),
        graph_map(shards)[shards[s][i].domain] == shards[s][i],
    decreases shards.len(),
{
    let d = shards[s][i].domain;
    if s == shards.len() - 1 {
        lemma_shard_map_lookup(shards.last(), i);
        assert(graph_map(shards)[d] == shard_map(shards.last())[d]);
    } else {
        let prefix = shards.drop_last();
        assert(prefix[s] == shards[s]);
        assert(forall|s2: int, i2: int|
            0 <= s2 < prefix.len() && 0 <= i2 < prefix[s2].len() && (s2 != s || i2 != i)
                ==> (#[trigger] prefix[s2][i2]).domain != d) by {
            assert(forall|s2: int| 0 <= s2 < prefix.len() ==> prefix[s2] == shards[s2]);
        }
        lemma_graph_map_lookup(prefix, s, i);
        lemma_shard_map_dom(shards.last());
        assert(!shard_map(shards.last()).dom().contains(d)) by {
            if shard_domains(shards.last()).to_set().contains(d) {
                let j = choose|j: int|
                    0 <= j < shard_domains(shards.last()).len() && shard_domains(shards.last())[j]
                        == d;
                assert(shards[shards.len() - 1][j].domain == d);
            }
        }
    }
}

/// Looking a domain up in a single shard's map gives the vertex at its
/// position, provided the domain occurs only there in the shard.
proof fn lemma_shard_map_lookup(sh: Seq<VertexModel>, i: int)
    requires
        0 <= i < sh.len(),
        forall|j: int|
            0 <= j < sh.len() && j != i ==> (#[trigger] sh[j]).domain != sh[i].domain,
    ensures
        shard_map(sh).dom().contains(sh[i].domain),
        shard_map(sh)[sh[i].domain] == sh[i],
    decreases sh.len(),
{
    if i == sh.len() - 1 {
    } else {
        let prefix = sh.drop_last();
        assert(prefix[i] == sh[i]);
        assert(forall|j: int|
            0 <= j < prefix.len() && j != i ==> (#[trigger] prefix[j]).domain != prefix[i].domain)
            by {
            assert(forall|j: int| 0 <= j < prefix.len() ==> prefix[j] == sh[j]);
        }
        lemma_shard_map_lookup(prefix, i);
        assert(sh.last().domain != sh[i].domain);
    }
}

/// Appending a vertex whose domain is nowhere in the shards extends the
/// map by exactly that vertex.
proof fn lemma_graph_map_push(shards: Seq<Seq<VertexModel>>, s: int, v: VertexModel)
    requires
        0 <= s < shards.len(),
        forall|s2: int, i2: int|
            0 <= s2 < shards.len() && 0 <= i2 < shards[s2].len() ==> (
            #[trigger] shards[s2][i2]).domain != v.domain,
    ensures
        graph_map(shards.update(s, shards[s].push(v))) =~= graph_map(shards).insert(v.domain, v),
    decreases shards.len(),
{
    let updated = shards.update(s, shards[s].push(v));
    if s == shards.len() - 1 {
        assert(updated.drop_last() =~= shards.drop_last());
        assert(updated.last() == shards[s].push(v));
        assert(shards[s].push(v).drop_last() =~= shards[s]);
        assert(shard_map(shards[s].push(v)) == shard_map(shards[s]).insert(v.domain, v));
        assert(shards.last() == shards[s]);
    } else {
        let prefix = shards.drop_last();
        assert(prefix[s] == shards[s]);
        assert(forall|s2: int, i2: int|
            0 <= s2 < prefix.len() && 0 <= i2 < prefix[s2].len() ==> (
            #[trigger] prefix[s2][i2]).domain != v.domain) by {
            assert(forall|s2: int| 0 <= s2 < prefix.len() ==> prefix[s2] == shards[s2]);
        }
        lemma_graph_map_push(prefix, s, v);
        assert(updated.drop_last() =~= prefix.update(s, shards[s].push(v)));
        assert(updated.last() == shards.last());
        lemma_shard_map_dom(shards.last());
        assert(!shard_map(shards.last()).dom().contains(v.domain)) by {
            if shard_domains(shards.last()).to_set().contains(v.domain) {
                let j = choose|j: int|
                    0 <= j < shard_domains(shards.last()).len() && shard_domains(shards.last())[j]
                        == v.domain;
                assert(shards[shards.len() - 1][j].domain == v.domain);
            }
        }
    }
}

/// Replacing the vertex at one position by a vertex with the same domain
/// overwrites exactly that domain's entry in the map.
proof fn lemma_shard_map_set(sh: Seq<VertexModel>, i: int, v: VertexModel)
    requires
        0 <= i < sh.len(),
        v.domain == sh[i].domain,
        forall|j: int|
            0 <= j < sh.len() && j != i ==> (#[trigger] sh[j]).domain != sh[i].domain,
    ensures
        shard_map(sh.update(i, v)) =~= shard_map(sh).insert(v.domain, v),
    decreases sh.len(),
{
    let updated = sh.update(i, v);
    if i == sh.len() - 1 {
        assert(updated.drop_last() =~= sh.drop_last());
        assert(updated.last() == v);
    } else {
        let prefix = sh.drop_last();
        assert(prefix[i] == sh[i]);
        assert(forall|j: int|
            0 <= j < prefix.len() && j != i ==> (#[trigger] prefix[j]).domain != prefix[i].domain)
            by {
            assert(forall|j: int| 0 <= j < prefix.len() ==> prefix[j] == sh[j]);
        }
        lemma_shard_map_set(prefix, i, v);
        assert(updated.drop_last() =~= prefix.update(i, v));
        assert(updated.last() == sh.last());
        assert(sh.last().domain != v.domain);
    }
}

/// Same as `lemma_shard_map_set`, lifted to the whole sequence of shards.
proof fn lemma_graph_map_set(shards: Seq<Seq<VertexModel>>, s: int, i: int, v: VertexModel)
    requires
        0 <= s < shards.len(),
        0 <= i < shards[s].len(),
        v.domain == shards[s][i].domain,
        forall|s2: int, i2: int|
            0 <= s2 < shards.len() && 0 <= i2 < shards[s2].len() && (s2 != s || i2 != i)
                ==> (#[trigger] shards[s2][i2]).domain != shards[s][i].domain,
    ensures
        graph_map(shards.update(s, shards[s].update(i, v))) =~= graph_map(shards).insert(
            v.domain,
            v,
        ),
    decreases shards.len(),
{
    let updated = shards.update(s, shards[s].update(i, v));
    if s == shards.len() - 1 {
        assert(updated.drop_last() =~= shards.drop_last());
        assert(updated.last() == shards[s].update(i, v));
        assert(forall|j: int|
            0 <= j < shards[s].len() && j != i ==> (#[trigger] shards[s][j]).domain
                != shards[s][i].domain);
        lemma_shard_map_set(shards[s], i, v);
        assert(shards.last() == shards[s]);
    } else {
        let prefix = shards.drop_last();
        assert(prefix[s] == shards[s]);
        assert(forall|s2: int, i2: int|
            0 <= s2 < prefix.len() && 0 <= i2 < prefix[s2].len() && (s2 != s || i2 != i)
                ==> (#[trigger] prefix[s2][i2]).domain != shards[s][i].domain) by {
            assert(forall|s2: int| 0 <= s2 < prefix.len() ==> prefix[s2] == shards[s2]);
        }
        lemma_graph_map_set(prefix, s, i, v);
        assert(updated.drop_last() =~= prefix.update(s, shards[s].update(i, v)));
        assert(updated.last() == shards.last());
        lemma_shard_map_dom(shards.last());
        assert(!shard_map(shards.last()).dom().contains(v.domain)) by {
            if shard_domains(shards.last()).to_set().contains(v.domain) {
                let j = choose|j: int|
                    0 <= j < shard_domains(shards.last()).len() && shard_domains(shards.last())[j]
                        == v.domain;
                assert(shards[shards.len() - 1][j].domain == v.domain);
            }
        }
    }
}

/// Why an edge could not be recorded.
#[derive(Clone, Copy, Debug, PartialEq, Eq)]
pub enum GraphError {
    /// Source and destination are the same domain.
    SelfLoop,
    /// Source or destination has no vertex yet.
    MissingVertex,
}

/// The sharded domain graph.
pub struct Graph {
    shards: Vec<Vec<Vertex>>,
}

impl View for Graph {
    type V = Map<Seq<char>, VertexModel>;

    closed spec fn view(&self) -> Map<Seq<char>, VertexModel> {
        graph_map(self.shard_views())
    }
}

impl Graph {
    /// The shards' contents as vertex models.
    pub closed spec fn shard_views(&self) -> Seq<Seq<VertexModel>> {
        self.shards@.map_values(|sh: Vec<Vertex>| sh@.map_values(|v: Vertex| v@))
    }

    /// Number of shards, fixed at construction.
    pub closed spec fn shard_count(&self) -> int {
        self.shards@.len() as int
    }

    /// Structural invariant: at least one shard; every vertex sits, once,
    /// in the shard its domain's hash selects; a vertex's recorded name is
    /// its map key; no vertex records an edge to itself.
    pub open spec fn wf(&self) -> bool {
        &&& self.shard_count() >= 1
        &&& self.shard_count() <= usize::MAX
        &&& graph_shards_wf(self.shard_views(), self.shard_count())
    }

    /// Create an empty graph with `num_shards` independent shards.
    pub fn new(num_shards: u64) -> (g: Graph)
        requires
            1 <= num_shards <= usize::MAX,
        ensures
            g.wf(),
            g.shard_count() == num_shards,
            g@ == Map::<Seq<char>, VertexModel>::empty(),
    {
        let n = num_shards as usize;
        let mut shards: Vec<Vec<Vertex>> = Vec::new();
        while shards.len() < n
            invariant
                shards@.len() <= n,
                forall|s: int| 0 <= s < shards@.len() ==> (#[trigger] shards@[s])@.len() == 0,
            decreases n - shards.len(),
        {
            shards.push(Vec::new());
        }
        let g = Graph { shards };
        proof {
            lemma_graph_map_all_empty(g.shard_views());
            assert(g@ =~= Map::<Seq<char>, VertexModel>::empty());
        }
        g
    }

    /// Find the position of a domain's vertex within one shard.
    fn find_in(sh: &Vec<Vertex>, domain: &String) -> (r: Option<usize>)
        ensures
            match r {
                Some(i) => i < sh@.len() && sh@[i as int]@.domain == domain@,
                None => forall|i: int|
                    0 <= i < sh@.len() ==> (#[trigger] sh@[i as int]@).domain != domain@,
            },
    {
        let mut j: usize = 0;
        while j < sh.len()
            invariant
                j <= sh@.len(),
                forall|i: int| 0 <= i < j ==> (#[trigger] sh@[i]@).domain != domain@,
            decreases sh@.len() - j,
        {
            if sh[j].domain == *domain {
                return Some(j);
            }
            j += 1;
        }
        None
    }

    /// True exactly when the domain has a vertex.
    pub fn contains(&self, domain: &String) -> (r: bool)
        requires
            self.wf(),
        ensures
            r == self@.dom().contains(domain@),
    {
        let idx = shard_of(domain.as_str(), self.shards.len());
        let r = Self::find_in(&self.shards[idx], domain);
        proof {
            lemma_graph_map_dom(self.shard_views());
            lemma_domains_of_member(all_domains(self.shard_views()), domain@);
            let doms = all_domains(self.shard_views());
            match r {
                Some(i) => {
                    assert(doms[idx as int][i as int] == domain@);
                    assert(doms[idx as int].contains(domain@));
                }
                None => {
                    if self@.dom().contains(domain@) {
                        let s = choose|s: int|
                            0 <= s < doms.len() && (#[trigger] doms[s]).contains(domain@);
                        let i = choose|i: int| 0 <= i < doms[s].len() && doms[s][i] == domain@;
                        assert(spec_shard_of(domain@, self.shard_count()) == s);
                        assert(self.shard_views()[s][i].domain == domain@);
                    }
                }
            }
        }
        r.is_some()
    }

    /// Add a vertex for a new domain.  If the domain already has a vertex
    /// the call changes nothing: the existing vertex, with whatever edges
    /// it has gathered, is kept.
    pub fn add_vertex(&mut self, v: Vertex)
        requires
            old(self).wf(),
            v@.wf(),
        ensures
            final(self).wf(),
            final(self).shard_count() == old(self).shard_count(),
            old(self)@.dom().contains(v@.domain) ==> final(self)@ == old(self)@,
            !old(self)@.dom().contains(v@.domain) ==> final(self)@ == old(self)@.insert(
                v@.domain,
                v@,
            ),
    {
        let idx = shard_of(v.domain.as_str(), self.shards.len());
        let found = Self::find_in(&self.shards[idx], &v.domain);
        proof {
            lemma_graph_map_dom(self.shard_views());
            lemma_domains_of_member(all_domains(self.shard_views()), v@.domain);
            let doms = all_domains(self.shard_views());
            match found {
                Some(i) => {
                    assert(doms[idx as int][i as int] == v@.domain);
                    assert(doms[idx as int].contains(v@.domain));
                    assert(self@.dom().contains(v@.domain));
                },
                None => {
                    if self@.dom().contains(v@.domain) {
                        let s = choose|s: int|
                            0 <= s < doms.len() && (#[trigger] doms[s]).contains(v@.domain);
                        let i = choose|i: int| 0 <= i < doms[s].len() && doms[s][i] == v@.domain;
                        assert(spec_shard_of(v@.domain, self.shard_count()) == s);
                        assert(self.shard_views()[s][i].domain == v@.domain);
                    }
                },
            }
        }
        if found.is_some() {
            return ;
        }
        let ghost pre = self.shard_views();
        let ghost vm = v@;
        proof {
            assert forall|s2: int, i2: int|
                0 <= s2 < pre.len() && 0 <= i2 < pre[s2].len() implies (
            #[trigger] pre[s2][i2]).domain != vm.domain by {
                if pre[s2][i2].domain == vm.domain {
                    assert(all_domains(pre)[s2][i2] == vm.domain);
                    assert(spec_shard_of(vm.domain, old(self).shard_count()) == s2);
                }
            }
        }
        self.shards[idx].push(v);
        proof {
            assert(self.shard_views() =~~= pre.update(idx as int, pre[idx as int].push(vm)));
            lemma_graph_map_push(pre, idx as int, vm);
            assert(final(self)@ =~= old(self)@.insert(vm.domain, vm));
            lemma_graph_shards_wf_push(pre, idx as int, vm, old(self).shard_count());
        }
    }

    /// Record the directed edge `src -> dst`: `dst` joins `src`'s outgoing
    /// list and `src` joins `dst`'s incoming list.  A self-loop is refused
    /// whether or not the domain exists; an edge with a missing endpoint is
    /// refused without touching either vertex.
    pub fn add_edge(&mut self, src: &String, dst: &String) -> (r: Result<(), GraphError>)
        requires
            old(self).wf(),
        ensures
            final(self).wf(),
            final(self).shard_count() == old(self).shard_count(),
            (r == Err::<(), GraphError>(GraphError::SelfLoop)) <==> src@ == dst@,
            (r == Err::<(), GraphError>(GraphError::MissingVertex)) <==> (src@ != dst@ && !(old(
                self,
            )@.dom().contains(src@) && old(self)@.dom().contains(dst@))),
            r is Err ==> final(self)@ == old(self)@,
            r is Ok ==> ({
                let sv = old(self)@[src@];
                let dv = old(self)@[dst@];
                &&& old(self)@.dom().contains(src@)
                &&& old(self)@.dom().contains(dst@)
                &&& final(self)@ == old(self)@.insert(
                    src@,
                    VertexModel { outgoing: sv.outgoing.push(dst@), ..sv },
                ).insert(dst@, VertexModel { incoming: dv.incoming.push(src@), ..dv })
            }),
    {
        if *src == *dst {
            return Err(GraphError::SelfLoop);
        }
        let n = self.shards.len();
        let si = shard_of(src.as_str(), n);
        let found_s = Self::find_in(&self.shards[si], src);
        let di = shard_of(dst.as_str(), n);
        let found_d = Self::find_in(&self.shards[di], dst);
        proof {
            lemma_graph_map_dom(self.shard_views());
            lemma_domains_of_member(all_domains(self.shard_views()), src@);
            lemma_domains_of_member(all_domains(self.shard_views()), dst@);
            let doms = all_domains(self.shard_views());
            match found_s {
                Some(i) => {
                    assert(doms[si as int][i as int] == src@);
                    assert(doms[si as int].contains(src@));
                },
                None => {
                    if self@.dom().contains(src@) {
                        let s = choose|s: int|
                            0 <= s < doms.len() && (#[trigger] doms[s]).contains(src@);
                        let i = choose|i: int| 0 <= i < doms[s].len() && doms[s][i] == src@;
                        assert(spec_shard_of(src@, self.shard_count()) == s);
                        assert(self.shard_views()[s][i].domain == src@);
                    }
                },
            }
            match found_d {
                Some(i) => {
                    assert(doms[di as int][i as int] == dst@);
                    assert(doms[di as int].contains(dst@));
                },
                None => {
                    if self@.dom().contains(dst@) {
                        let s = choose|s: int|
                            0 <= s < doms.len() && (#[trigger] doms[s]).contains(dst@);
                        let i = choose|i: int| 0 <= i < doms[s].len() && doms[s][i] == dst@;
                        assert(spec_shard_of(dst@, self.shard_count()) == s);
                        assert(self.shard_views()[s][i].domain == dst@);
                    }
                },
            }
        }
        let vi = match found_s {
            Some(i) => i,
            None => {
                return Err(GraphError::MissingVertex);
            },
        };
        let wi = match found_d {
            Some(i) => i,
            None => {
                return Err(GraphError::MissingVertex);
            },
        };
        let ghost pre = self.shard_views();
        let ghost count = self.shard_count();
        let ghost sv = pre[si as int][vi as int];
        let ghost dv = pre[di as int][wi as int];
        proof {
            lemma_unique_occurrence(pre, count, si as int, vi as int);
            lemma_unique_occurrence(pre, count, di as int, wi as int);
            lemma_graph_map_lookup(pre, si as int, vi as int);
            lemma_graph_map_lookup(pre, di as int, wi as int);
        }
        self.shards[si][vi].outgoing.push(dst.clone());
        let ghost vm1 = VertexModel { outgoing: sv.outgoing.push(dst@), ..sv };
        let ghost mid = pre.update(si as int, pre[si as int].update(vi as int, vm1));
        proof {
            let now = self.shard_views();
            assert forall|s2: int| 0 <= s2 < now.len() implies now[s2] =~~= mid[s2] by {
                if s2 == si as int {
                    assert forall|i2: int|
                        0 <= i2 < now[s2].len() implies now[s2][i2] =~~= mid[s2][i2] by {
                        if i2 == vi as int {
                            assert(now[s2][i2].outgoing =~= vm1.outgoing);
                        } else {
                            assert(now[s2][i2] =~~= pre[s2][i2]);
                        }
                    }
                } else {
                    assert(now[s2] =~~= pre[s2]);
                }
            }
            assert(self.shard_views() =~~= mid);
            lemma_graph_map_set(pre, si as int, vi as int, vm1);
            lemma_graph_shards_wf_set(pre, si as int, vi as int, vm1, count);
            assert(mid[di as int][wi as int] == dv);
            assert forall|s2: int, i2: int|
                0 <= s2 < mid.len() && 0 <= i2 < mid[s2].len() && (s2 != di as int || i2 != wi
                    as int) implies (#[trigger] mid[s2][i2]).domain != dv.domain by {
                if s2 == si as int && i2 == vi as int {
                    assert(mid[s2][i2].domain == src@);
                } else {
                    assert(mid[s2][i2] == pre[s2][i2]);
                }
            }
        }
        self.shards[di][wi].incoming.push(src.clone());
        let ghost vm2 = VertexModel { incoming: dv.incoming.push(src@), ..dv };
        proof {
            let now = self.shard_views();
            let fin = mid.update(di as int, mid[di as int].update(wi as int, vm2));
            assert forall|s2: int| 0 <= s2 < now.len() implies now[s2] =~~= fin[s2] by {
                if s2 == di as int {
                    assert forall|i2: int|
                        0 <= i2 < now[s2].len() implies now[s2][i2] =~~= fin[s2][i2] by {
                        if i2 == wi as int {
                            assert(now[s2][i2].incoming =~= vm2.incoming);
                        } else {
                            assert(now[s2][i2] =~~= mid[s2][i2]);
                        }
                    }
                } else {
                    assert(now[s2] =~~= mid[s2]);
                }
            }
            assert(self.shard_views() =~~= fin);
            lemma_graph_map_set(mid, di as int, wi as int, vm2);
            lemma_graph_shards_wf_set(mid, di as int, wi as int, vm2, count);
            assert(final(self)@ =~= old(self)@.insert(src@, vm1).insert(dst@, vm2));
        }
        Ok(())
    }

    /// Total number of vertices, summed shard by shard.
    pub fn size(&self) -> (n: usize)
        requires
            self.wf(),
            self@.dom().len() <= usize::MAX,
        ensures
            n == self@.dom().len(),
    {
        let count = self.shards.len();
        let mut total: usize = 0;
        proof {
            lemma_graph_map_dom(self.shard_views());
            lemma_domains_of_len(all_domains(self.shard_views()), self.shard_count());
            assert(all_domains(self.shard_views()).take(0) =~= Seq::empty());
        }
        for i in 0..count
            invariant
                self.wf(),
                count == self.shards@.len(),
                total == total_len(all_domains(self.shard_views()).take(i as int)),
                total_len(all_domains(self.shard_views())) == self@.dom().len(),
                self@.dom().len() <= usize::MAX,
        {
            proof {
                crate::history::lemma_total_len_take_step(all_domains(self.shard_views()), i as int);
                crate::history::lemma_total_len_prefix_bound(
                    all_domains(self.shard_views()),
                    i + 1,
                );
            }
            total += self.shards[i].len();
        }
        proof {
            assert(all_domains(self.shard_views()).take(count as int) =~= all_domains(
                self.shard_views(),
            ));
        }
        total
    }
}

/// Under the sharding invariant a domain occurs at exactly one position:
/// every other position holds a different domain.
proof fn lemma_unique_occurrence(shards: Seq<Seq<VertexModel>>, count: int, s: int, i: int)
    requires
        graph_shards_wf(shards, count),
        0 <= s < shards.len(),
        0 <= i < shards[s].len(),
        shards.len() == count,
    ensures
        forall|s2: int, i2: int|
            0 <= s2 < shards.len() && 0 <= i2 < shards[s2].len() && (s2 != s || i2 != i) ==> (
            #[trigger] shards[s2][i2]).domain != shards[s][i].domain,
{
    let d = shards[s][i].domain;
    let doms = all_domains(shards);
    assert(spec_shard_of(d, count) == s) by {
        assert(doms[s][i] == d);
    }
    assert forall|s2: int, i2: int|
        0 <= s2 < shards.len() && 0 <= i2 < shards[s2].len() && (s2 != s || i2 != i) implies (
    #[trigger] shards[s2][i2]).domain != d by {
        if shards[s2][i2].domain == d {
            assert(doms[s2][i2] == d);
            assert(spec_shard_of(doms[s2][i2], count) == s2);
            assert(s2 == s);
            assert(doms[s].no_duplicates());
            assert(doms[s][i2] == doms[s][i]);
        }
    }
}

/// Replacing a vertex by one with the same domain and no self-loops
/// preserves the sharding invariant.
proof fn lemma_graph_shards_wf_set(
    pre: Seq<Seq<VertexModel>>,
    s: int,
    i: int,
    v: VertexModel,
    count: int,
)
    requires
        graph_shards_wf(pre, count),
        0 <= s < pre.len(),
        0 <= i < pre[s].len(),
        v.domain == pre[s][i].domain,
        v.wf(),
    ensures
        graph_shards_wf(pre.update(s, pre[s].update(i, v)), count),
{
    let post = pre.update(s, pre[s].update(i, v));
    assert(all_domains(post) =~~= all_domains(pre)) by {
        assert forall|s2: int| 0 <= s2 < post.len() implies all_domains(post)[s2] =~= all_domains(
            pre,
        )[s2] by {
            assert forall|i2: int|
                0 <= i2 < post[s2].len() implies all_domains(post)[s2][i2] == all_domains(
                pre,
            )[s2][i2] by {
                if s2 == s && i2 == i {
                    assert(post[s2][i2] == v);
                } else {
                    assert(post[s2][i2] == pre[s2][i2]);
                }
            }
        }
    }
    assert forall|s2: int, i2: int|
        0 <= s2 < post.len() && 0 <= i2 < post[s2].len() implies (#[trigger] post[s2][i2]).wf() by {
        if s2 == s && i2 == i {
            assert(post[s2][i2] == v);
        } else {
            assert(post[s2][i2] == pre[s2][i2]);
        }
    }
}

/// Appending a fresh, self-loop-free vertex into its home shard preserves
/// the sharding invariant.
proof fn lemma_graph_shards_wf_push(
    pre: Seq<Seq<VertexModel>>,
    idx: int,
    vm: VertexModel,
    count: int,
)
    requires
        graph_shards_wf(pre, count),
        0 <= idx < pre.len(),
        spec_shard_of(vm.domain, count) == idx,
        vm.wf(),
        forall|i: int| 0 <= i < pre[idx].len() ==> (#[trigger] pre[idx][i]).domain != vm.domain,
    ensures
        graph_shards_wf(pre.update(idx, pre[idx].push(vm)), count),
{
    let post = pre.update(idx, pre[idx].push(vm));
    let doms_pre = all_domains(pre);
    let doms_post = all_domains(post);
    assert forall|s: int, i: int|
        0 <= s < doms_post.len() && 0 <= i < doms_post[s].len() implies spec_shard_of(
        #[trigger] doms_post[s][i],
        count,
    ) == s by {
        if s != idx || i < pre[idx].len() {
            assert(doms_post[s][i] == doms_pre[s][i]);
        } else {
            assert(doms_post[s][i] == vm.domain);
        }
    }
    assert forall|s: int| 0 <= s < doms_post.len() implies (
    #[trigger] doms_post[s]).no_duplicates() by {
        if s == idx {
            assert(doms_pre[s].no_duplicates());
            assert forall|p: int, q: int|
                0 <= p < q < doms_post[s].len() implies doms_post[s][p] != doms_post[s][q] by {
                if q < pre[idx].len() {
                    assert(doms_post[s][p] == doms_pre[s][p]);
                    assert(doms_post[s][q] == doms_pre[s][q]);
                } else {
                    assert(doms_post[s][q] == vm.domain);
                    assert(doms_post[s][p] == pre[idx][p].domain);
                }
            }
        } else {
            assert(doms_post[s] =~= doms_pre[s]);
        }
    }
    assert forall|s: int, i: int|
        0 <= s < post.len() && 0 <= i < post[s].len() implies (#[trigger] post[s][i]).wf() by {
        if s != idx || i < pre[idx].len() {
            assert(post[s][i] == pre[s][i]);
        } else {
            assert(post[s][i] == vm);
        }
    }
}

/// The report lines of one shard's vertices, in storage order, one line
/// per vertex, each ending in a newline.
pub open spec fn shard_lines(sh: Seq<VertexModel>) -> Seq<char>
    decreases sh.len(),
{
    if sh.len() == 0 {
        Seq::empty()
    } else {
        shard_lines(sh.drop_last()) + vertex_line(sh.last()) + "\n"@
    }
}

/// The report lines of every shard, in shard order.
pub open spec fn graph_lines(shards: Seq<Seq<VertexModel>>) -> Seq<char>
    decreases shards.len(),
{
    if shards.len() == 0 {
        Seq::empty()
    } else {
        graph_lines(shards.drop_last()) + shard_lines(shards.last())
    }
}

proof fn lemma_shard_lines_take_step(sh: Seq<VertexModel>, j: int)
    requires
        0 <= j < sh.len(),
    ensures
        shard_lines(sh.take(j + 1)) == shard_lines(sh.take(j)) + vertex_line(sh[j]) + "\n"@,
{
    assert(sh.take(j + 1).drop_last() =~= sh.take(j));
    assert(sh.take(j + 1).last() == sh[j]);
}

proof fn lemma_graph_lines_take_step(shards: Seq<Seq<VertexModel>>, i: int)
    requires
        0 <= i < shards.len(),
    ensures
        graph_lines(shards.take(i + 1)) == graph_lines(shards.take(i)) + shard_lines(shards[i]),
{
    assert(shards.take(i + 1).drop_last() =~= shards.take(i));
    assert(shards.take(i + 1).last() == shards[i]);
}

impl Graph {
    /// The whole graph as a line-oriented report: one line per vertex,
    /// shards in index order, vertices within a shard in storage order.
    pub fn serialize(&self) -> (s: String)
        ensures
            s@ == graph_lines(self.shard_views()),
    {
        let mut s = String::new();
        let count = self.shards.len();
        proof {
            assert(self.shard_views().take(0) =~= Seq::empty());
        }
        for i in 0..count
            invariant
                count == self.shards@.len(),
                s@ == graph_lines(self.shard_views().take(i as int)),
        {
            let m = self.shards[i].len();
            let ghost shv = self.shard_views()[i as int];
            proof {
                assert(shv.take(0) =~= Seq::empty());
                assert(shard_lines(shv.take(0)) =~= Seq::empty());
            }
            for j in 0..m
                invariant
                    count == self.shards@.len(),
                    i < count,
                    m == self.shards@[i as int]@.len(),
                    shv == self.shard_views()[i as int],
                    shv.len() == m,
                    s@ == graph_lines(self.shard_views().take(i as int)) + shard_lines(
                        shv.take(j as int),
                    ),
            {
                let line = self.shards[i][j].serialize();
                s = s.concat(line.as_str());
                s = s.concat("\n");
                proof {
                    lemma_shard_lines_take_step(shv, j as int);
                    assert(self.shards@[i as int]@[j as int]@ == shv[j as int]);
                }
            }
            proof {
                assert(shv.take(m as int) =~= shv);
                lemma_graph_lines_take_step(self.shard_views(), i as int);
            }
        }
        proof {
            assert(self.shard_views().take(count as int) =~= self.shard_views());
        }
        s
    }
}

/// A domain just given a vertex has one afterwards, and adding further
/// vertices never removes it.
pub proof fn lemma_vertex_persists(
    m: Map<Seq<char>, VertexModel>,
    d: Seq<char>,
    v: VertexModel,
    e: Seq<char>,
    w: VertexModel,
)
    ensures
        m.insert(d, v).dom().contains(d),
        m.dom().contains(d) ==> m.insert(e, w).dom().contains(d),
{
}

/// Adding a vertex for a fresh domain grows the vertex count by one;
/// adding one for a domain already present leaves the count unchanged.
pub proof fn lemma_graph_size_counts(m: Map<Seq<char>, VertexModel>, d: Seq<char>, v: VertexModel)
    requires
        m.dom().finite(),
    ensures
        !m.dom().contains(d) ==> m.insert(d, v).dom().len() == m.dom().len() + 1,
        m.dom().contains(d) ==> m.insert(d, v).dom().len() == m.dom().len(),
{
    assert(m.insert(d, v).dom() =~= m.dom().insert(d));
    if m.dom().contains(d) {
        assert(m.dom().insert(d) =~= m.dom());
    }
}

/// The map of all-empty shards is empty.
proof fn lemma_graph_map_all_empty(shards: Seq<Seq<VertexModel>>)
    requires
        forall|s: int| 0 <= s < shards.len() ==> (#[trigger] shards[s]).len() == 0,
    ensures
        graph_map(shards) =~= Map::empty(),
    decreases shards.len(),
{
    if shards.len() > 0 {
        lemma_graph_map_all_empty(shards.drop_last());
    }
}

} // verus!
