//! Link handling: reduction of a raw link to its registrable domain, and
//! the admission decision that records a newly discovered domain (and the
//! edge that discovered it) in the graph.
//!
//! URL parsing, the public-suffix lookup and anchor extraction are outside
//! collaborators; each is reached through one trusted wrapper whose result
//! is a pure function of its argument.

use vstd::prelude::*;
use psl::Psl;
use crate::graph::Graph;
use crate::graph::GraphError;
use crate::graph::Vertex;
use crate::graph::VertexModel;

verus! {

/// The host component of a raw link, when the link parses as an absolute
/// URL that has one.
pub uninterp spec fn host_of(url: Seq<char>) -> Option<Seq<char>>;

/// The registrable, public-suffix-delimited domain of a host, when the
/// host maps to one.
pub uninterp spec fn registrable_of(host: Seq<char>) -> Option<Seq<char>>;

/// The href attributes of the anchor elements of an HTML document, in
/// document order.
pub uninterp spec fn hrefs_of(body: Seq<char>) -> Seq<Seq<char>>;

/// Relies on url::Url::parse and url::Url::host_str: parsing is a pure
/// function of the link text, and the host is a component of the parsed
/// URL, absent for relative links and host-less schemes.
#[verifier::external_body]
fn url_host(url: &str) -> (r: Option<String>)
    ensures
        r matches Some(h) ==> host_of(url@) == Some(h@),
        r is None ==> host_of(url@) is None,
{
    let parsed = url::Url::parse(url).ok()?;
    let host = parsed.host_str()?;
    Some(host.to_string())
}

/// Relies on psl::List::domain, a lookup in the compiled public suffix
/// list: the registrable domain is a pure function of the host's bytes, a
/// trailing slice of them, so valid UTF-8 whenever the host is.
#[verifier::external_body]
fn registrable(host: &str) -> (r: Option<String>)
    ensures
        r matches Some(d) ==> registrable_of(host@) == Some(d@),
        r is None ==> registrable_of(host@) is None,
{
    let domain = psl::List.domain(host.as_bytes())?;
    let text = core::str::from_utf8(domain.as_bytes()).ok()?;
    Some(text.to_string())
}

/// Relies on scraper::Html::parse_document, scraper::Selector::parse (on
/// the fixed selector "a", which always parses) and ElementRef::attr: the
/// anchor elements' href attributes are a pure function of the document.
#[verifier::external_body]
fn extract_hrefs(body: &str) -> (r: Vec<String>)
    ensures
        r@.map_values(|s: String| s@) == hrefs_of(body@),
{
    let document = scraper::Html::parse_document(body);
    let selector = scraper::Selector::parse("a").unwrap();
    document
        .select(&selector)
        .filter_map(|el| el.value().attr("href"))
        .map(|href| href.to_string())
        .collect()
}

/// What reduction yields for a raw link: the registrable domain of the
/// link's host, when the link is absolute and its host maps to one.
pub open spec fn spec_reduce(url: Seq<char>) -> Option<Seq<char>> {
    match host_of(url) {
        None => None,
        Some(h) => registrable_of(h),
    }
}

/// Reduce a raw link to its registrable domain: nothing for a relative or
/// unparseable link, a host-less URL, or a host outside the public-suffix
/// list; otherwise the domain, exactly as the reducer produces it.
pub fn parse_root_domain(url: &str) -> (r: Option<String>)
    ensures
        r matches Some(d) ==> spec_reduce(url@) == Some(d@),
        r is None ==> spec_reduce(url@) is None,
{
    match url_host(url) {
        None => None,
        Some(h) => registrable(h.as_str()),
    }
}

/// The vertex a domain starts out as: no edges yet.
pub open spec fn fresh_vertex(d: Seq<char>) -> VertexModel {
    VertexModel { domain: d, incoming: Seq::empty(), outgoing: Seq::empty() }
}

/// Whether a raw link seen on `src`'s page is admitted against graph `m`:
/// it must reduce to a domain not yet in the graph, and recording the edge
/// from `src`'s domain must succeed, which needs `src` to reduce to a
/// domain that is in the graph and differs from the new one.
pub open spec fn admits(m: Map<Seq<char>, VertexModel>, url: Seq<char>, src: Seq<char>) -> bool {
    match spec_reduce(url) {
        None => false,
        Some(d) => match spec_reduce(src) {
            None => false,
            Some(sd) => !m.dom().contains(d) && sd != d && m.dom().contains(sd),
        },
    }
}

/// The graph after one link is considered: unchanged when the link does
/// not reduce, or its domain is known, or the source does not reduce; a
/// new vertex when the domain is new, plus the edge from the source's
/// domain when recording it succeeds.
pub open spec fn admit_result(
    m: Map<Seq<char>, VertexModel>,
    url: Seq<char>,
    src: Seq<char>,
) -> Map<Seq<char>, VertexModel> {
    match spec_reduce(url) {
        None => m,
        Some(d) => match spec_reduce(src) {
            None => m,
            Some(sd) => if m.dom().contains(d) {
                m
            } else {
                let m1 = m.insert(d, fresh_vertex(d));
                if sd != d && m1.dom().contains(sd) {
                    let sv = m1[sd];
                    let dv = m1[d];
                    m1.insert(sd, VertexModel { outgoing: sv.outgoing.push(d), ..sv }).insert(
                        d,
                        VertexModel { incoming: dv.incoming.push(sd), ..dv },
                    )
                } else {
                    m1
                }
            },
        },
    }
}

/// Consider one raw link seen on `src`'s page: if it names a new domain,
/// record the domain and the edge that discovered it, atomically with the
/// decision, and hand the link back as admitted.  A failure to record the
/// edge rejects the link; the new vertex stays.
pub fn is_new_link(url: &str, src: String, g: &mut Graph) -> (r: Option<String>)
    requires
        old(g).wf(),
    ensures
        final(g).wf(),
        final(g).shard_count() == old(g).shard_count(),
        (r is Some) == admits(old(g)@, url@, src@),
        r matches Some(u) ==> u@ == url@,
        final(g)@ == admit_result(old(g)@, url@, src@),
{
    let src_domain = match parse_root_domain(src.as_str()) {
        Some(d) => d,
        None => {
            return None;
        },
    };
    let domain = match parse_root_domain(url) {
        Some(d) => d,
        None => {
            return None;
        },
    };
    if g.contains(&domain) {
        return None;
    }
    g.add_vertex(Vertex::new(domain.clone()));
    proof {
        assert(g@ =~= old(g)@.insert(domain@, fresh_vertex(domain@)));
    }
    match g.add_edge(&src_domain, &domain) {
        Ok(_) => {
            proof {
                assert(final(g)@ =~~= admit_result(old(g)@, url@, src@));
            }
            Some(url.to_owned())
        },
        Err(GraphError::SelfLoop) => {
            proof {
                assert(final(g)@ =~~= admit_result(old(g)@, url@, src@));
            }
            None
        },
        Err(GraphError::MissingVertex) => {
            proof {
                assert(final(g)@ =~~= admit_result(old(g)@, url@, src@));
            }
            None
        },
    }
}

/// The links a page's hrefs get admitted, considered in order, each
/// decision made against the graph as the previous decisions left it.
pub open spec fn admitted_links(
    m: Map<Seq<char>, VertexModel>,
    hrefs: Seq<Seq<char>>,
    src: Seq<char>,
) -> Seq<Seq<char>>
    decreases hrefs.len(),
{
    if hrefs.len() == 0 {
        Seq::empty()
    } else {
        let head = if admits(m, hrefs[0], src) {
            seq![hrefs[0]]
        } else {
            Seq::<Seq<char>>::empty()
        };
        head + admitted_links(admit_result(m, hrefs[0], src), hrefs.drop_first(), src)
    }
}

/// The graph after a page's hrefs have all been considered in order.
pub open spec fn graph_after(
    m: Map<Seq<char>, VertexModel>,
    hrefs: Seq<Seq<char>>,
    src: Seq<char>,
) -> Map<Seq<char>, VertexModel>
    decreases hrefs.len(),
{
    if hrefs.len() == 0 {
        m
    } else {
        graph_after(admit_result(m, hrefs[0], src), hrefs.drop_first(), src)
    }
}

/// Run every href of a page through admission against the graph, in
/// document order, and return the admitted links: exactly those that named
/// a domain new at the moment they were considered.
pub fn parse_unique_domains(body: String, src: String, g: &mut Graph) -> (r: Vec<String>)
    requires
        old(g).wf(),
    ensures
        final(g).wf(),
        final(g).shard_count() == old(g).shard_count(),
        r@.map_values(|s: String| s@) == admitted_links(old(g)@, hrefs_of(body@), src@),
        final(g)@ == graph_after(old(g)@, hrefs_of(body@), src@),
{
    let hrefs = extract_hrefs(body.as_str());
    let mut out: Vec<String> = Vec::new();
    let n = hrefs.len();
    let ghost hseq = hrefs@.map_values(|s: String| s@);
    let ghost m0 = old(g)@;
    proof {
        assert(hseq.skip(0) =~= hseq);
        assert(out@.map_values(|s: String| s@) =~= Seq::<Seq<char>>::empty());
        assert(Seq::<Seq<char>>::empty() + admitted_links(m0, hseq, src@) =~= admitted_links(
            m0,
            hseq,
            src@,
        ));
    }
    for i in 0..n
        invariant
            g.wf(),
            g.shard_count() == old(g).shard_count(),
            n == hrefs@.len(),
            hseq == hrefs@.map_values(|s: String| s@),
            hseq == hrefs_of(body@),
            m0 == old(g)@,
            admitted_links(m0, hseq, src@) == out@.map_values(|s: String| s@) + admitted_links(
                g@,
                hseq.skip(i as int),
                src@,
            ),
            graph_after(m0, hseq, src@) == graph_after(g@, hseq.skip(i as int), src@),
    {
        let ghost rest = hseq.skip(i as int);
        let ghost m_pre = g@;
        let ghost out_pre = out@;
        proof {
            assert(rest[0] == hseq[i as int]);
            assert(rest.drop_first() =~= hseq.skip(i + 1));
        }
        let admitted = is_new_link(hrefs[i].as_str(), src.clone(), g);
        match admitted {
            Some(u) => {
                out.push(u);
                proof {
                    assert(out@.map_values(|s: String| s@) =~= out_pre.map_values(
                        |s: String| s@,
                    ).push(u@));
                    assert(out_pre.map_values(|s: String| s@) + (seq![rest[0]] + admitted_links(
                        admit_result(m_pre, rest[0], src@),
                        rest.drop_first(),
                        src@,
                    )) =~= out@.map_values(|s: String| s@) + admitted_links(
                        g@,
                        hseq.skip(i + 1),
                        src@,
                    ));
                }
            },
            None => {
                proof {
                    assert(out_pre.map_values(|s: String| s@) + (Seq::<Seq<char>>::empty()
                        + admitted_links(
                        admit_result(m_pre, rest[0], src@),
                        rest.drop_first(),
                        src@,
                    )) =~= out@.map_values(|s: String| s@) + admitted_links(
                        g@,
                        hseq.skip(i + 1),
                        src@,
                    ));
                }
            },
        }
    }
    proof {
        assert(hseq.skip(n as int) =~= Seq::<Seq<char>>::empty());
        assert(out@.map_values(|s: String| s@) + Seq::<Seq<char>>::empty() =~= out@.map_values(
            |s: String| s@,
        ));
    }
    out
}

/// One admission decision never removes a recorded domain, and an admitted
/// link's domain is recorded by it.
pub proof fn lemma_admit_result_dom(m: Map<Seq<char>, VertexModel>, url: Seq<char>, src: Seq<char>)
    ensures
        m.dom() <= admit_result(m, url, src).dom(),
        admits(m, url, src) ==> spec_reduce(url) is Some,
        admits(m, url, src) ==> !m.dom().contains(spec_reduce(url).unwrap()),
        admits(m, url, src) ==> admit_result(m, url, src).dom().contains(spec_reduce(url).unwrap()),
{
    assert forall|d: Seq<char>| m.dom().contains(d) implies admit_result(
        m,
        url,
        src,
    ).dom().contains(d) by {}
}

/// Considering a page's hrefs in order, each new domain is admitted at
/// most once: the admitted links all reduce, to pairwise different
/// domains, none recorded before the page was considered and every one
/// recorded after; and no domain recorded before is ever lost.
pub proof fn lemma_admission_dedup(
    m: Map<Seq<char>, VertexModel>,
    hrefs: Seq<Seq<char>>,
    src: Seq<char>,
)
    ensures
        m.dom() <= graph_after(m, hrefs, src).dom(),
        forall|i: int|
            0 <= i < admitted_links(m, hrefs, src).len() ==> spec_reduce(
                #[trigger] admitted_links(m, hrefs, src)[i],
            ) is Some,
        forall|i: int|
            0 <= i < admitted_links(m, hrefs, src).len() ==> !m.dom().contains(
                spec_reduce(#[trigger] admitted_links(m, hrefs, src)[i]).unwrap(),
            ),
        forall|i: int|
            0 <= i < admitted_links(m, hrefs, src).len() ==> graph_after(
                m,
                hrefs,
                src,
            ).dom().contains(spec_reduce(#[trigger] admitted_links(m, hrefs, src)[i]).unwrap()),
        forall|i: int, j: int|
            0 <= i < j < admitted_links(m, hrefs, src).len() ==> spec_reduce(
                #[trigger] admitted_links(m, hrefs, src)[i],
            ) != spec_reduce(#[trigger] admitted_links(m, hrefs, src)[j]),
    decreases hrefs.len(),
{
    if hrefs.len() == 0 {
    } else {
        let u0 = hrefs[0];
        let m1 = admit_result(m, u0, src);
        let rest = hrefs.drop_first();
        let links = admitted_links(m, hrefs, src);
        let links1 = admitted_links(m1, rest, src);
        let fin = graph_after(m, hrefs, src);
        lemma_admit_result_dom(m, u0, src);
        lemma_admission_dedup(m1, rest, src);
        assert(fin == graph_after(m1, rest, src));
        assert forall|d: Seq<char>| m.dom().contains(d) implies fin.dom().contains(d) by {
            assert(m1.dom().contains(d));
        }
        let head: int = if admits(m, u0, src) {
            1
        } else {
            0
        };
        assert(links.len() == head + links1.len());
        assert forall|i: int| head <= i < links.len() implies links[i] == links1[i - head] by {}
        if admits(m, u0, src) {
            assert(links[0] == u0);
            let d0 = spec_reduce(u0).unwrap();
            assert(m1.dom().contains(d0));
            assert(fin.dom().contains(d0)) by {
                assert(m1.dom() <= fin.dom());
            }
            assert forall|j: int| 0 < j < links.len() implies spec_reduce(links[0]) != spec_reduce(
                #[trigger] links[j],
            ) by {
                assert(links[j] == links1[j - 1]);
                let dj = spec_reduce(links1[j - 1]).unwrap();
                assert(!m1.dom().contains(dj));
                assert(spec_reduce(links1[j - 1]) is Some);
                assert(dj != d0);
            }
        }
        assert forall|i: int| 0 <= i < links.len() implies spec_reduce(#[trigger] links[i])
            is Some by {
            if i >= head {
                assert(links[i] == links1[i - head]);
            }
        }
        assert forall|i: int| 0 <= i < links.len() implies !m.dom().contains(
            spec_reduce(#[trigger] links[i]).unwrap(),
        ) by {
            if i >= head {
                assert(links[i] == links1[i - head]);
                assert(!m1.dom().contains(spec_reduce(links1[i - head]).unwrap()));
            }
        }
        assert forall|i: int| 0 <= i < links.len() implies fin.dom().contains(
            spec_reduce(#[trigger] links[i]).unwrap(),
        ) by {
            if i >= head {
                assert(links[i] == links1[i - head]);
            }
        }
        assert forall|i: int, j: int|
            0 <= i < j < links.len() implies spec_reduce(#[trigger] links[i]) != spec_reduce(
            #[trigger] links[j],
        ) by {
            if i >= head {
                assert(links[i] == links1[i - head]);
                assert(links[j] == links1[j - head]);
            }
        }
    }
}

} // verus!
