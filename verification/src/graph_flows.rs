//! The maximum-flow engine: a resumable state machine that performs one
//! depth-first augmenting-path iteration of the Ford–Fulkerson method per
//! call, over a capacity graph and a flow graph derived from the source
//! graph.

use vstd::prelude::*;
use vstd::seq_lib::*;
use vstd::set_lib::*;

use crate::graph::arcs_upto;
use crate::graph::lemma_arc_endpoints;
use crate::graph::lemma_arcs_upto;
use crate::graph::lemma_verts_upto;
use crate::graph::verts_upto;
use crate::graph_errors::GraphAlgorithmError;
use crate::graph_errors::GraphError;
use crate::graph_errors::GraphInterfaceError;
use crate::graph_text::parse_i32;
use crate::graph_text::spec_parse_int;
use crate::weight::clip_weight;
use crate::weight::opt_int;
use crate::graph::lemma_row_at;
use crate::graph::lemma_vindex;
use crate::graph::lemma_vindex_self;
use crate::graph::row_at;
use crate::graph::row_has;
use crate::graph::vertex_ids_sorted;
use crate::graph::Edge;
use crate::graph::Graph;
use crate::graph::GraphModel;
use crate::weight::Weight;

verus! {

/// One signed flow delta recorded for an arc by the most recent augmenting
/// path: positive on the forward arc, negative on the reverse arc.
#[derive(Clone, Copy, Debug, PartialEq, Eq, Structural)]
pub struct PathDelta {
    pub from: i32,
    pub to: i32,
    pub flow: Weight,
}

/// No arc of the graph leaves the set `c`.
pub open spec fn closed_under_arcs(m: GraphModel, c: Set<int>) -> bool {
    forall|a: int, b: int|
        c.contains(a) && #[trigger] m.edges.dom().contains((a, b)) ==> c.contains(b)
}

/// Source and sink lie in disconnected parts: some arc-closed set holds the
/// source but not the sink.
pub open spec fn separated(m: GraphModel, s: int, t: int) -> bool {
    exists|c: Set<int>| closed_under_arcs(m, c) && c.contains(s) && !c.contains(t)
}

/// The deltas of one augmenting path: pairs of records, a forward arc of
/// the capacity graph carrying the path flow followed by its reverse
/// carrying the negated flow.
pub open spec fn path_deltas_ok(p: Seq<PathDelta>, f: Weight, gc: GraphModel) -> bool {
    &&& p.len() % 2 == 0
    &&& forall|j: int|
        0 <= j < p.len() && j % 2 == 0 ==> {
            &&& j + 1 < p.len()
            &&& (#[trigger] p[j]).flow == f
            &&& p[j + 1].from == p[j].to
            &&& p[j + 1].to == p[j].from
            &&& p[j + 1].flow@ == clip_weight(0 - f@)
            &&& gc.has_arc(p[j].from as int, p[j].to as int)
        }
}

/// The reverse of every arc is present.
pub open spec fn dom_sym(m: GraphModel) -> bool {
    forall|p: (int, int)| #[trigger] m.edges.dom().contains(p) ==> m.edges.dom().contains(
        (p.1, p.0),
    )
}

/// Whether the id vector holds the given value.
pub open spec fn seq_has_id(u: Seq<i32>, x: int) -> bool {
    exists|j: int| 0 <= j < u.len() && (#[trigger] u[j]) as int == x
}

/// The residual capacity of an arc: its capacity less the flow it carries.
pub open spec fn resid(mgc: GraphModel, mgf: GraphModel, p: (int, int)) -> int {
    opt_int(mgc.edges[p]) - opt_int(mgf.edges[p])
}

/// Whether the delta records of `p` from position `n` on touch the arc `x`.
pub open spec fn delta_touches(p: Seq<PathDelta>, n: int, x: (int, int)) -> bool {
    exists|j: int|
        n <= j < p.len() && (#[trigger] p[j]).from as int == x.0 && p[j].to as int == x.1
}

/// Arcs that no delta record of `p` from position `n` on touches keep their
/// flow from `m0` to `m1`.
pub open spec fn deltas_confined(p: Seq<PathDelta>, n: int, m0: GraphModel, m1: GraphModel) -> bool {
    forall|x: (int, int)|
        #[trigger] m0.edges.dom().contains(x) && !delta_touches(p, n, x) ==> m1.edges[x]
            == m0.edges[x]
}

/// The delta records of `p` from position `n` on have been applied from
/// `m0` to `m1`: along each forward/reverse pair, the forward arc's flow
/// grew by the path flow and the reverse arc's flow shrank by it.
pub open spec fn path_deltas_applied(
    p: Seq<PathDelta>,
    n: int,
    f: Weight,
    m0: GraphModel,
    m1: GraphModel,
) -> bool {
    forall|j: int|
        n <= j < p.len() && (j - n) % 2 == 0 ==> {
            &&& m1.edges[((#[trigger] p[j]).from as int, p[j].to as int)] == Some(
                clip_weight(opt_int(m0.edges[(p[j].from as int, p[j].to as int)]) + f@),
            )
            &&& m1.edges[(p[j].to as int, p[j].from as int)] == Some(
                clip_weight(opt_int(m0.edges[(p[j].to as int, p[j].from as int)]) - f@),
            )
        }
}

/// No positive-residual arc leaves the set `c`.
pub open spec fn res_closed(mgc: GraphModel, mgf: GraphModel, c: Set<int>) -> bool {
    forall|a: int, b: int|
        c.contains(a) && #[trigger] mgc.edges.dom().contains((a, b)) && resid(
            mgc,
            mgf,
            (a, b),
        ) > 0 ==> c.contains(b)
}

/// Whether the vector holds the given id.
fn vec_contains(v: &Vec<i32>, x: i32) -> (r: bool)
    ensures
        r == v@.contains(x),
{
    let n = v.len();
    let mut k: usize = 0;
    while k < n
        invariant
            n == v@.len(),
            k <= n,
            forall|j: int| 0 <= j < k ==> v@[j] != x,
        decreases n - k,
    {
        if v[k] == x {
            return true;
        }
        k = k + 1;
    }
    proof {
        assert(!v@.contains(x));
    }
    false
}

/// Distinct vertex ids can be no more numerous than the vertices.
proof fn lemma_used_bound(g: Graph, u: Seq<i32>)
    requires
        crate::graph::vertex_ids_sorted(g.vertices@),
        u.no_duplicates(),
        forall|j: int| 0 <= j < u.len() ==> g.has_vid(#[trigger] u[j] as int),
    ensures
        u.len() <= g.nv(),
{
    broadcast use vstd::seq_lib::seq_to_set_is_finite;

    let idx = Seq::new(u.len(), |j: int| g.vindex(u[j] as int));
    assert forall|a: int, b: int|
        0 <= a < idx.len() && 0 <= b < idx.len() && a != b implies idx[a] != idx[b] by {
        lemma_vindex(g, u[a] as int);
        lemma_vindex(g, u[b] as int);
        if idx[a] == idx[b] {
            assert(g.vid(idx[a]) == u[a] as int);
            assert(g.vid(idx[b]) == u[b] as int);
        }
    }
    assert(idx.no_duplicates());
    idx.unique_seq_to_set();
    assert forall|x: int| idx.to_set().contains(x) implies 0 <= x < g.nv() by {
        assert(idx.contains(x));
        let j = choose|j: int| 0 <= j < idx.len() && idx[j] == x;
        lemma_vindex(g, u[j] as int);
    }
    lemma_int_range(0, g.nv());
    lemma_len_subset(idx.to_set(), set_int_range(0, g.nv()));
}

/// One depth-first search for an augmenting path from `i` towards `t`,
/// bounding flow by `flow`; every vertex is visited at most once per call of
/// the surrounding step. On success the flow graph is adjusted along the
/// path, forward and reverse, and the deltas are recorded.
#[verifier::spinoff_prover]
#[verifier::rlimit(100)]
fn dfs(
    gc: &Graph,
    gf: &mut Graph,
    used: &mut Vec<i32>,
    curr_path: &mut Vec<PathDelta>,
    t: i32,
    i: i32,
    flow: Weight,
) -> (f: Weight)
    requires
        gc.wf(),
        gc@.is_directed,
        gc@.is_weighted,
        dom_sym(gc@),
        old(gf).wf(),
        old(gf)@.is_directed,
        old(gf)@.is_weighted,
        old(gf)@.verts.dom() == gc@.verts.dom(),
        old(gf)@.edges.dom() == gc@.edges.dom(),
        gc@.has_vertex(i as int),
        old(used)@.no_duplicates(),
        forall|j: int| 0 <= j < old(used)@.len() ==> gc.has_vid(#[trigger] old(used)@[j] as int),
    ensures
        final(gf).wf(),
        final(gf)@.is_directed == old(gf)@.is_directed,
        final(gf)@.is_weighted == old(gf)@.is_weighted,
        final(gf)@.is_float_weighted == old(gf)@.is_float_weighted,
        final(gf)@.verts == old(gf)@.verts,
        final(gf)@.edges.dom() == old(gf)@.edges.dom(),
        final(used)@.no_duplicates(),
        forall|j: int|
            0 <= j < final(used)@.len() ==> gc.has_vid(#[trigger] final(used)@[j] as int),
        old(used)@.len() <= final(used)@.len(),
        forall|x: int| seq_has_id(old(used)@, x) ==> seq_has_id(final(used)@, x),
        !seq_has_id(old(used)@, t as int) ==> !seq_has_id(final(used)@, t as int),
        f@ == 0 && flow@ != 0 ==> seq_has_id(final(used)@, i as int),
        f@ == 0 && flow@ != 0 ==> forall|a: int, b: int|
            seq_has_id(final(used)@, a) && !seq_has_id(old(used)@, a)
                && #[trigger] gc@.edges.dom().contains((a, b)) && resid(gc@, old(gf)@, (a, b))
                > 0 ==> seq_has_id(final(used)@, b),
        i == t ==> f == flow,
        i == t ==> *final(gf) == *old(gf) && *final(curr_path) == *old(curr_path)
            && *final(used) == *old(used),
        f@ == 0 || f@ <= flow@,
        f@ == 0 ==> *final(gf) == *old(gf) && *final(curr_path) == *old(curr_path),
        flow@ == 0 ==> *final(used) == *old(used),
        f@ != 0 && i != t ==> seq_has_id(final(used)@, i as int) && !seq_has_id(
            old(used)@,
            i as int,
        ) && final(curr_path)@.len() >= old(curr_path)@.len() + 2,
        deltas_confined(final(curr_path)@, old(curr_path)@.len() as int, old(gf)@, final(gf)@),
        path_deltas_applied(
            final(curr_path)@,
            old(curr_path)@.len() as int,
            f,
            old(gf)@,
            final(gf)@,
        ),
        forall|j: int|
            old(curr_path)@.len() <= j < final(curr_path)@.len() ==> ((#[trigger] final(curr_path)@[j]).from
                == t || (seq_has_id(final(used)@, final(curr_path)@[j].from as int)
                && !seq_has_id(old(used)@, final(curr_path)@[j].from as int)))
                && (final(curr_path)@[j].to == t || (seq_has_id(
                final(used)@,
                final(curr_path)@[j].to as int,
            ) && !seq_has_id(old(used)@, final(curr_path)@[j].to as int))),
        (forall|x: (int, int)| #[trigger]
            old(gf)@.edges.dom().contains(x) ==> resid(gc@, old(gf)@, x) >= 0) && flow@ >= 0
            ==> f@ >= 0,
        final(curr_path)@.len() >= old(curr_path)@.len(),
        (final(curr_path)@.len() - old(curr_path)@.len()) % 2 == 0,
        forall|j: int|
            old(curr_path)@.len() <= j < final(curr_path)@.len() && (j - old(curr_path)@.len())
                % 2 == 0 ==> {
                &&& j + 1 < final(curr_path)@.len()
                &&& (#[trigger] final(curr_path)@[j]).flow == f
                &&& final(curr_path)@[j + 1].from == final(curr_path)@[j].to
                &&& final(curr_path)@[j + 1].to == final(curr_path)@[j].from
                &&& final(curr_path)@[j + 1].flow@ == clip_weight(0 - f@)
                &&& gc@.has_arc(
                    final(curr_path)@[j].from as int,
                    final(curr_path)@[j].to as int,
                )
                &&& f@ <= clip_weight(
                    resid(
                        gc@,
                        old(gf)@,
                        (final(curr_path)@[j].from as int, final(curr_path)@[j].to as int),
                    ),
                )
            },
        f@ != 0 && i != t ==> final(curr_path)@[final(curr_path)@.len() - 2].from == i
            && final(curr_path)@[old(curr_path)@.len() as int].to == t,
        forall|c: Set<int>|
            closed_under_arcs(gc@, c) && c.contains(i as int) && !c.contains(t as int) ==> f@
                == 0,
    decreases gc.nv() - used@.len(),
{
    if i == t {
        return flow;
    }
    if flow.is_zero() {
        return Weight::zero();
    }
    if vec_contains(used, i) {
        proof {
            assert(seq_has_id(used@, i as int));
        }
        return Weight::zero();
    }
    used.push(i);
    proof {
        assert(gc.has_vid(i as int));
        assert forall|a: int, b: int|
            0 <= a < used@.len() && 0 <= b < used@.len() && a != b implies used@[a]
            != used@[b] by {
            if a < used@.len() - 1 && b < used@.len() - 1 {
            } else if a == used@.len() - 1 {
                assert(!old(used)@.contains(i));
                assert(used@[b] == old(used)@[b]);
            } else {
                assert(!old(used)@.contains(i));
                assert(used@[a] == old(used)@[a]);
            }
        }
        assert(used@.no_duplicates());
        assert(used@[used@.len() - 1] == i);
        assert(seq_has_id(used@, i as int));
        assert(!seq_has_id(old(used)@, i as int)) by {
            if seq_has_id(old(used)@, i as int) {
                let j = choose|j: int|
                    0 <= j < old(used)@.len() && (#[trigger] old(used)@[j]) as int == i as int;
                assert(old(used)@[j] == i);
            }
        }
        assert forall|x: int| seq_has_id(old(used)@, x) implies seq_has_id(used@, x) by {
            let j = choose|j: int| 0 <= j < old(used)@.len() && (#[trigger] old(used)@[j]) as int
                == x;
            assert(used@[j] as int == x);
        }
        assert forall|x: int|
            seq_has_id(used@, x) && x != i as int implies seq_has_id(old(used)@, x) by {
            let j = choose|j: int| 0 <= j < used@.len() && (#[trigger] used@[j]) as int == x;
            assert(j < old(used)@.len());
            assert(old(used)@[j] as int == x);
        }
    }
    let row = match gc.get_edge_list(i) {
        Ok(r) => r,
        Err(_) => {
            proof {
                assert(false);
            }
            return Weight::zero();
        },
    };
    let ghost kc = gc.vindex(i as int);
    proof {
        lemma_vindex(*gc, i as int);
    }
    let n = row.len();
    let mut m: usize = 0;
    while m < n
        invariant
            gc.wf(),
            gc@.is_directed,
            gc@.is_weighted,
            dom_sym(gc@),
            gc@.has_vertex(i as int),
            i != t,
            kc == gc.vindex(i as int),
            0 <= kc < gc.nv(),
            row@ == gc.row(kc),
            n == row@.len(),
            m <= n,
            forall|j: int|
                0 <= j < row@.len() ==> gc@.edges.dom().contains(
                    (i as int, (#[trigger] row@[j]).to as int),
                ),
            gf.wf(),
            gf@.is_directed == old(gf)@.is_directed,
            gf@.is_weighted == old(gf)@.is_weighted,
            gf@.is_float_weighted == old(gf)@.is_float_weighted,
            gf@.verts == old(gf)@.verts,
            gf@.edges.dom() == old(gf)@.edges.dom(),
            old(gf)@.is_directed,
            old(gf)@.is_weighted,
            old(gf)@.verts.dom() == gc@.verts.dom(),
            old(gf)@.edges.dom() == gc@.edges.dom(),
            used@.no_duplicates(),
            forall|j: int| 0 <= j < used@.len() ==> gc.has_vid(#[trigger] used@[j] as int),
            used@.len() >= old(used)@.len() + 1,
            !seq_has_id(old(used)@, i as int),
            *gf == *old(gf),
            *curr_path == *old(curr_path),
            flow@ != 0,
            forall|j: int|
                0 <= j < row@.len() ==> gc@.edges[(i as int, (#[trigger] row@[j]).to as int)]
                    == row@[j].weight.deep_view(),
            forall|x: int| seq_has_id(old(used)@, x) ==> seq_has_id(used@, x),
            seq_has_id(used@, i as int),
            !seq_has_id(old(used)@, t as int) ==> !seq_has_id(used@, t as int),
            forall|a: int, b: int|
                seq_has_id(used@, a) && !seq_has_id(old(used)@, a) && a != i as int
                    && #[trigger] gc@.edges.dom().contains((a, b)) && resid(
                    gc@,
                    old(gf)@,
                    (a, b),
                ) > 0 ==> seq_has_id(used@, b),
            forall|j: int|
                0 <= j < m ==> (resid(gc@, old(gf)@, (i as int, (#[trigger] row@[j]).to as int))
                    > 0 ==> seq_has_id(used@, row@[j].to as int)),
        decreases n - m,
    {
        let e = row[m];
        let to = e.to;
        proof {
            assert(gc@.edges.dom().contains((i as int, to as int)));
            assert(gf@.edges.dom().contains((i as int, to as int)));
            lemma_arc_endpoints(*gc);
            assert(gc@.has_vertex(to as int));
            assert(gc.row(kc)[m as int].weight is Some <==> gc.is_weighted);
        }
        let cw = match e.weight {
            Some(w) => w,
            None => {
                proof {
                    assert(false);
                }
                Weight { v: 0 }
            },
        };
        let fw = gf.edge_weight(i, to);
        let rw = cw.sub(fw);
        proof {
            lemma_used_bound(*gc, used@);
        }
        let ghost cp_before = curr_path@;
        let ghost u_pre = used@;
        proof {
            assert(gc@.edges[(i as int, to as int)] == e.weight.deep_view());
            assert(rw@ == clip_weight(resid(gc@, old(gf)@, (i as int, to as int))));
        }
        let bound = flow.min_with(rw);
        let next_f = dfs(gc, gf, used, curr_path, t, to, bound);
        proof {
            assert forall|x: int| seq_has_id(old(used)@, x) implies seq_has_id(used@, x) by {
                assert(seq_has_id(u_pre, x));
            }
            assert(seq_has_id(used@, i as int)) by {
                assert(seq_has_id(u_pre, i as int));
            }
            if !seq_has_id(old(used)@, t as int) {
                assert(!seq_has_id(u_pre, t as int));
            }
        }
        if !next_f.is_zero() {
            let ghost cp_mid = curr_path@;
            let ghost gf_mid = *gf;
            let rev_delta = Weight::zero().sub(next_f);
            curr_path.push(
                PathDelta { from: i, to, flow: next_f },
            );
            curr_path.push(
                PathDelta { from: to, to: i, flow: rev_delta },
            );
            proof {
                assert(cp_before == old(curr_path)@);
                assert(curr_path@.len() == cp_mid.len() + 2);
                assert((cp_mid.len() - cp_before.len()) % 2 == 0);
                assert forall|j: int|
                    cp_before.len() <= j < curr_path@.len() && (j - cp_before.len()) % 2
                        == 0 implies {
                    &&& j + 1 < curr_path@.len()
                    &&& (#[trigger] curr_path@[j]).flow == next_f
                    &&& curr_path@[j + 1].from == curr_path@[j].to
                    &&& curr_path@[j + 1].to == curr_path@[j].from
                    &&& curr_path@[j + 1].flow@ == clip_weight(0 - next_f@)
                    &&& gc@.has_arc(curr_path@[j].from as int, curr_path@[j].to as int)
                    &&& next_f@ <= clip_weight(
                        resid(
                            gc@,
                            old(gf)@,
                            (curr_path@[j].from as int, curr_path@[j].to as int),
                        ),
                    )
                } by {
                    if j < cp_mid.len() {
                        assert(j + 1 < cp_mid.len());
                        assert(curr_path@[j] == cp_mid[j]);
                        assert(curr_path@[j + 1] == cp_mid[j + 1]);
                    } else {
                        assert(j == cp_mid.len());
                        assert(curr_path@[j] == (PathDelta { from: i, to, flow: next_f }));
                        assert(curr_path@[j + 1] == (PathDelta {
                            from: to,
                            to: i,
                            flow: rev_delta,
                        }));
                        assert(rev_delta@ == clip_weight(0 - next_f@));
                        assert(gc@.edges.dom().contains((i as int, to as int)));
                        assert(next_f@ <= bound@);
                        assert(bound@ <= rw@);
                        assert(rw@ == clip_weight(resid(gc@, old(gf)@, (i as int, to as int))));
                    }
                }
                // the recorded path starts at this vertex and first reached the sink
                assert(curr_path@[curr_path@.len() - 2] == (PathDelta {
                    from: i,
                    to,
                    flow: next_f,
                }));
                assert(curr_path@[cp_before.len() as int].to == t) by {
                    if to == t {
                        assert(cp_mid == cp_before);
                        assert(curr_path@[cp_before.len() as int] == (PathDelta {
                            from: i,
                            to,
                            flow: next_f,
                        }));
                    } else {
                        assert(cp_mid.len() >= cp_before.len() + 2);
                        assert(cp_mid[cp_before.len() as int].to == t);
                        assert(curr_path@[cp_before.len() as int] == cp_mid[
                            cp_before.len() as int
                        ]);
                    }
                }
            }
            let fw2 = gf.edge_weight(i, to);
            gf.set_edge_weight(i, to, fw2.add(next_f));
            proof {
                assert(gf@.edges.dom() =~= old(gf)@.edges.dom());
                assert(gf@.edges.dom().contains((to as int, i as int)));
            }
            let rev = gf.edge_weight(to, i);
            gf.set_edge_weight(to, i, rev.sub(next_f));
            proof {
                assert(gf@.edges.dom() =~= old(gf)@.edges.dom());
                assert forall|c: Set<int>|
                    closed_under_arcs(gc@, c) && c.contains(i as int) && !c.contains(
                        t as int,
                    ) implies next_f@ == 0 by {
                    assert(gc@.edges.dom().contains((i as int, to as int)));
                    assert(c.contains(to as int));
                }
                // the child marked `to` afresh, unless `to` is the sink
                assert(to != i) by {
                    if to != t {
                        assert(!seq_has_id(u_pre, to as int));
                        assert(seq_has_id(u_pre, i as int));
                    }
                }
                // the child's delta records never touch `i`
                let nn = cp_before.len() as int;
                assert forall|j: int| nn <= j < cp_mid.len() implies (#[trigger] cp_mid[j]).from
                    != i && cp_mid[j].to != i by {
                    assert(seq_has_id(u_pre, i as int));
                }
                assert(!delta_touches(cp_mid, nn, (i as int, to as int))) by {
                    if delta_touches(cp_mid, nn, (i as int, to as int)) {
                        let j = choose|j: int|
                            nn <= j < cp_mid.len() && (#[trigger] cp_mid[j]).from as int
                                == i as int && cp_mid[j].to as int == to as int;
                        assert(cp_mid[j].from == i);
                    }
                }
                assert(!delta_touches(cp_mid, nn, (to as int, i as int))) by {
                    if delta_touches(cp_mid, nn, (to as int, i as int)) {
                        let j = choose|j: int|
                            nn <= j < cp_mid.len() && (#[trigger] cp_mid[j]).from as int
                                == to as int && cp_mid[j].to as int == i as int;
                        assert(cp_mid[j].to == i);
                    }
                }
                // so the two arcs being adjusted still carry their entry flow
                assert(old(gf)@.edges.dom().contains((i as int, to as int)));
                assert(old(gf)@.edges.dom().contains((to as int, i as int)));
                assert(gf_mid@.edges[(i as int, to as int)] == old(gf)@.edges[
                    (i as int, to as int)
                ]);
                assert(gf_mid@.edges[(to as int, i as int)] == old(gf)@.edges[
                    (to as int, i as int)
                ]);
                assert(fw2@ == opt_int(old(gf)@.edges[(i as int, to as int)]));
                assert(rev@ == opt_int(old(gf)@.edges[(to as int, i as int)]));
                // untouched arcs keep their flow
                assert forall|x: (int, int)| #[trigger] old(gf)@.edges.dom().contains(x)
                    && !delta_touches(curr_path@, nn, x) implies gf@.edges[x] == old(gf)@.edges[x] by {
                    assert(x != (i as int, to as int)) by {
                        if x == (i as int, to as int) {
                            assert(curr_path@[cp_mid.len() as int].from as int == x.0
                                && curr_path@[cp_mid.len() as int].to as int == x.1);
                        }
                    }
                    assert(x != (to as int, i as int)) by {
                        if x == (to as int, i as int) {
                            assert(curr_path@[cp_mid.len() as int + 1].from as int == x.0
                                && curr_path@[cp_mid.len() as int + 1].to as int == x.1);
                        }
                    }
                    assert(!delta_touches(cp_mid, nn, x)) by {
                        if delta_touches(cp_mid, nn, x) {
                            let j = choose|j: int|
                                nn <= j < cp_mid.len() && (#[trigger] cp_mid[j]).from as int
                                    == x.0 && cp_mid[j].to as int == x.1;
                            assert(curr_path@[j] == cp_mid[j]);
                        }
                    }
                    assert(gf_mid@.edges[x] == old(gf)@.edges[x]);
                }
                assert(deltas_confined(curr_path@, nn, old(gf)@, gf@));
                // every recorded pair has been applied
                assert forall|j: int|
                    nn <= j < curr_path@.len() && (j - nn) % 2 == 0 implies {
                    &&& gf@.edges[((#[trigger] curr_path@[j]).from as int, curr_path@[j].to as int)]
                        == Some(
                        clip_weight(
                            opt_int(
                                old(gf)@.edges[(curr_path@[j].from as int, curr_path@[j].to as int)],
                            ) + next_f@,
                        ),
                    )
                    &&& gf@.edges[(curr_path@[j].to as int, curr_path@[j].from as int)] == Some(
                        clip_weight(
                            opt_int(
                                old(gf)@.edges[(curr_path@[j].to as int, curr_path@[j].from as int)],
                            ) - next_f@,
                        ),
                    )
                } by {
                    if j < cp_mid.len() {
                        assert(curr_path@[j] == cp_mid[j]);
                        let cf = cp_mid[j].from as int;
                        let ct = cp_mid[j].to as int;
                        assert(cf != i as int && ct != i as int);
                        assert((cf, ct) != (i as int, to as int));
                        assert((cf, ct) != (to as int, i as int));
                        assert((ct, cf) != (i as int, to as int));
                        assert((ct, cf) != (to as int, i as int));
                        assert(gf_mid@.edges[(cf, ct)] == Some(
                            clip_weight(opt_int(old(gf)@.edges[(cf, ct)]) + next_f@),
                        ));
                        assert(gf_mid@.edges[(ct, cf)] == Some(
                            clip_weight(opt_int(old(gf)@.edges[(ct, cf)]) - next_f@),
                        ));
                        assert(gf@.edges[(cf, ct)] == gf_mid@.edges[(cf, ct)]);
                        assert(gf@.edges[(ct, cf)] == gf_mid@.edges[(ct, cf)]);
                    } else {
                        assert(j == cp_mid.len());
                        assert(curr_path@[j] == (PathDelta { from: i, to, flow: next_f }));
                        assert(gf@.edges[(i as int, to as int)] == Some(
                            clip_weight(fw2@ + next_f@),
                        ));
                        assert(gf@.edges[(to as int, i as int)] == Some(
                            clip_weight(rev@ - next_f@),
                        ));
                    }
                }
                assert(path_deltas_applied(curr_path@, nn, next_f, old(gf)@, gf@));
                // every recorded endpoint is the sink or freshly visited
                assert forall|j: int| nn <= j < curr_path@.len() implies ((#[trigger] curr_path@[j]).from
                    == t || (seq_has_id(used@, curr_path@[j].from as int) && !seq_has_id(
                    old(used)@,
                    curr_path@[j].from as int,
                ))) && (curr_path@[j].to == t || (seq_has_id(used@, curr_path@[j].to as int)
                    && !seq_has_id(old(used)@, curr_path@[j].to as int))) by {
                    if j < cp_mid.len() {
                        assert(curr_path@[j] == cp_mid[j]);
                    } else if j == cp_mid.len() {
                        assert(curr_path@[j] == (PathDelta { from: i, to, flow: next_f }));
                    } else {
                        assert(curr_path@[j] == (PathDelta { from: to, to: i, flow: rev_delta }));
                    }
                }
                // a nonnegative-residual graph yields a nonnegative flow
                if (forall|x: (int, int)| #[trigger]
                    old(gf)@.edges.dom().contains(x) ==> resid(gc@, old(gf)@, x) >= 0) && flow@
                    >= 0 {
                    assert(resid(gc@, old(gf)@, (i as int, to as int)) >= 0);
                    assert(rw@ >= 0);
                    assert(bound@ >= 0);
                    assert(next_f@ >= 0);
                }
                assert(curr_path@.len() >= cp_before.len() + 2);
            }
            return next_f;
        }
        proof {
            assert forall|a: int, b: int|
                seq_has_id(used@, a) && !seq_has_id(old(used)@, a) && a != i as int
                    && #[trigger] gc@.edges.dom().contains((a, b)) && resid(
                    gc@,
                    old(gf)@,
                    (a, b),
                ) > 0 implies seq_has_id(used@, b) by {
                if seq_has_id(u_pre, a) {
                    assert(seq_has_id(u_pre, b));
                    assert(seq_has_id(used@, b));
                } else {
                    assert(bound@ != 0) by {
                        if bound@ == 0 {
                            assert(used@ == u_pre);
                        }
                    }
                }
            }
            assert forall|j: int|
                0 <= j < m + 1 implies (resid(
                gc@,
                old(gf)@,
                (i as int, (#[trigger] row@[j]).to as int),
            ) > 0 ==> seq_has_id(used@, row@[j].to as int)) by {
                if j < m {
                    if resid(gc@, old(gf)@, (i as int, row@[j].to as int)) > 0 {
                        assert(seq_has_id(u_pre, row@[j].to as int));
                        assert(seq_has_id(used@, row@[j].to as int));
                    }
                } else {
                    if resid(gc@, old(gf)@, (i as int, to as int)) > 0 {
                        assert(rw@ > 0);
                        assert(bound@ != 0);
                        assert(seq_has_id(used@, to as int));
                    }
                }
            }
        }
        m = m + 1;
    }
    proof {
        assert forall|a: int, b: int|
            seq_has_id(used@, a) && !seq_has_id(old(used)@, a) && #[trigger] gc@.edges.dom().contains(
                (a, b),
            ) && resid(gc@, old(gf)@, (a, b)) > 0 implies seq_has_id(used@, b) by {
            if a == i as int {
                assert(gc.has_arc_g(i as int, b));
                assert(row_has(gc.row(kc), b));
                lemma_row_at(gc.row(kc), b);
                let j = row_at(gc.row(kc), b);
                assert(row@[j].to as int == b);
            }
        }
    }
    Weight::zero()
}

/// The capacity graph of a source graph: every arc keeps its weight, and a
/// zero-weight reverse arc is added wherever one was missing.
pub open spec fn gc_of(m: GraphModel) -> GraphModel {
    GraphModel {
        edges: Map::new(
            |p: (int, int)| m.edges.dom().contains(p) || m.edges.dom().contains((p.1, p.0)),
            |p: (int, int)|
                if m.edges.dom().contains(p) {
                    m.edges[p]
                } else {
                    Some(0int)
                },
        ),
        ..m
    }
}

/// The flow graph of a source graph: the same vertices, an arc wherever the
/// capacity graph has one, and zero flow everywhere.
pub open spec fn gf_of(m: GraphModel) -> GraphModel {
    GraphModel {
        is_directed: true,
        is_weighted: true,
        is_float_weighted: m.is_float_weighted,
        verts: m.verts,
        edges: Map::new(
            |p: (int, int)| m.edges.dom().contains(p) || m.edges.dom().contains((p.1, p.0)),
            |p: (int, int)| Some(0int),
        ),
    }
}

/// Builds the capacity graph or the flow graph of a directed weighted
/// source graph, vertex labels and all.
fn build_graph(gr: &Graph, zero_weights: bool) -> (g: Graph)
    requires
        gr.wf(),
        gr@.is_directed,
        gr@.is_weighted,
    ensures
        g.wf(),
        zero_weights ==> g@ == gf_of(gr@),
        !zero_weights ==> g@ == gc_of(gr@),
{
    let mut g = Graph::new(true, true, gr.get_is_float_weights());
    let n = gr.vertices.len();
    // the vertices, labels included
    let mut k: usize = 0;
    while k < n
        invariant
            gr.wf(),
            gr@.is_directed,
            gr@.is_weighted,
            n == gr.nv(),
            k <= n,
            g.wf(),
            g@.is_directed,
            g@.is_weighted,
            g@.is_float_weighted == gr@.is_float_weighted,
            g@.verts == verts_upto(*gr, k as int),
            g@.edges == Map::<(int, int), Option<int>>::empty(),
        decreases n - k,
    {
        let v = gr.vertices[k].duplicate();
        proof {
            lemma_verts_upto(*gr, k as int);
            if g@.has_vertex(v.id as int) {
                let j = choose|j: int| 0 <= j < k && #[trigger] gr.vid(j) == v.id as int;
                assert(gr.vertices@[j].id < gr.vertices@[k as int].id);
            }
        }
        let res = g.add_vertex(v);
        proof {
            assert(res is Ok);
        }
        k = k + 1;
    }
    proof {
        lemma_verts_upto(*gr, n as int);
        lemma_vindex_self(*gr);
        assert forall|id: int| #[trigger] verts_upto(*gr, n as int).dom().contains(id) <==> gr@.verts.dom().contains(
            id,
        ) by {
            if gr.has_vid(id) {
                lemma_vindex(*gr, id);
                assert(gr.vid(gr.vindex(id)) == id);
            }
        }
        assert(g@.verts =~= gr@.verts);
    }
    // every arc of the source graph, with its weight or with zero flow
    let mut k: usize = 0;
    while k < n
        invariant
            gr.wf(),
            gr@.is_directed,
            gr@.is_weighted,
            n == gr.nv(),
            k <= n,
            g.wf(),
            g@.is_directed,
            g@.is_weighted,
            g@.is_float_weighted == gr@.is_float_weighted,
            g@.verts == gr@.verts,
            forall|p: (int, int)| #[trigger]
                g@.edges.dom().contains(p) <==> arcs_upto(*gr, k as int, 0).dom().contains(p),
            forall|p: (int, int)| #[trigger]
                g@.edges.dom().contains(p) ==> g@.edges[p] == (if zero_weights {
                    Some(0int)
                } else {
                    gr@.edges[p]
                }),
        decreases n - k,
    {
        let row_len = gr.adj[k].len();
        proof {
            assert(gr.adj@.len() == gr.nv());
        }
        let mut m: usize = 0;
        while m < row_len
            invariant
                gr.wf(),
                gr@.is_directed,
                gr@.is_weighted,
                n == gr.nv(),
                k < n,
                row_len == gr.row(k as int).len(),
                m <= row_len,
                g.wf(),
                g@.is_directed,
                g@.is_weighted,
                g@.is_float_weighted == gr@.is_float_weighted,
                g@.verts == gr@.verts,
                forall|p: (int, int)| #[trigger]
                    g@.edges.dom().contains(p) <==> arcs_upto(*gr, k as int, m as int).dom().contains(
                        p,
                    ),
                forall|p: (int, int)| #[trigger]
                    g@.edges.dom().contains(p) ==> g@.edges[p] == (if zero_weights {
                        Some(0int)
                    } else {
                        gr@.edges[p]
                    }),
            decreases row_len - m,
        {
            let e = gr.adj[k][m];
            proof {
                assert(e == gr.row(k as int)[m as int]);
                assert(e.weight is Some <==> gr.is_weighted);
            }
            let w = if zero_weights {
                Weight::zero()
            } else {
                match e.weight {
                    Some(w) => w,
                    None => {
                        proof {
                            assert(false);
                        }
                        Weight { v: 0 }
                    },
                }
            };
            let from = gr.vertices[k].id;
            proof {
                lemma_vindex_self(*gr);
                lemma_arcs_upto(*gr, k as int, m as int);
                lemma_arcs_upto(*gr, k as int, m as int + 1);
                assert(row_has(gr.row(k as int), e.to as int));
                lemma_row_at(gr.row(k as int), e.to as int);
                assert(row_at(gr.row(k as int), e.to as int) == m as int);
                assert(gr.has_arc_g(from as int, e.to as int));
                assert(!g@.edges.dom().contains((from as int, e.to as int)));
                assert(gr.has_vid(e.to as int));
                assert(g@.verts.dom().contains(from as int));
                assert(g@.verts.dom().contains(e.to as int));
            }
            let res = g.add_edge(from, Edge { to: e.to, weight: Some(w) });
            proof {
                assert(res is Ok);
                assert(arcs_upto(*gr, k as int, m as int + 1) == arcs_upto(
                    *gr,
                    k as int,
                    m as int,
                ).insert(
                    (gr.vid(k as int), gr.row(k as int)[m as int].to as int),
                    gr.row(k as int)[m as int].weight.deep_view(),
                ));
                assert forall|p: (int, int)| #[trigger] g@.edges.dom().contains(p) <==> arcs_upto(
                    *gr,
                    k as int,
                    m as int + 1,
                ).dom().contains(p) by {}
                assert forall|p: (int, int)| #[trigger] g@.edges.dom().contains(p) implies g@.edges[p]
                    == (if zero_weights {
                    Some(0int)
                } else {
                    gr@.edges[p]
                }) by {
                    if p == (from as int, e.to as int) {
                        assert(gr@.edges[p] == gr.row(k as int)[m as int].weight.deep_view());
                    }
                }
            }
            m = m + 1;
        }
        proof {
            assert(arcs_upto(*gr, k as int + 1, 0) == arcs_upto(
                *gr,
                k as int,
                gr.row(k as int).len() as int,
            ));
        }
        k = k + 1;
    }
    proof {
        lemma_arcs_upto(*gr, n as int, 0);
        assert forall|p: (int, int)| #[trigger] g@.edges.dom().contains(p) <==> gr@.edges.dom().contains(
            p,
        ) by {
            if gr@.edges.dom().contains(p) {
                lemma_vindex(*gr, p.0);
            }
        }
    }
    // a reverse arc with zero weight wherever one is missing
    let mut k: usize = 0;
    while k < n
        invariant
            gr.wf(),
            gr@.is_directed,
            gr@.is_weighted,
            n == gr.nv(),
            k <= n,
            g.wf(),
            g@.is_directed,
            g@.is_weighted,
            g@.is_float_weighted == gr@.is_float_weighted,
            g@.verts == gr@.verts,
            forall|p: (int, int)| #[trigger]
                g@.edges.dom().contains(p) <==> (gr@.edges.dom().contains(p) || arcs_upto(
                    *gr,
                    k as int,
                    0,
                ).dom().contains((p.1, p.0))),
            forall|p: (int, int)| #[trigger]
                g@.edges.dom().contains(p) ==> g@.edges[p] == (if zero_weights {
                    Some(0int)
                } else if gr@.edges.dom().contains(p) {
                    gr@.edges[p]
                } else {
                    Some(0int)
                }),
        decreases n - k,
    {
        let row_len = gr.adj[k].len();
        let mut m: usize = 0;
        while m < row_len
            invariant
                gr.wf(),
                gr@.is_directed,
                gr@.is_weighted,
                n == gr.nv(),
                k < n,
                row_len == gr.row(k as int).len(),
                m <= row_len,
                g.wf(),
                g@.is_directed,
                g@.is_weighted,
                g@.is_float_weighted == gr@.is_float_weighted,
                g@.verts == gr@.verts,
                forall|p: (int, int)| #[trigger]
                    g@.edges.dom().contains(p) <==> (gr@.edges.dom().contains(p) || arcs_upto(
                        *gr,
                        k as int,
                        m as int,
                    ).dom().contains((p.1, p.0))),
                forall|p: (int, int)| #[trigger]
                    g@.edges.dom().contains(p) ==> g@.edges[p] == (if zero_weights {
                        Some(0int)
                    } else if gr@.edges.dom().contains(p) {
                        gr@.edges[p]
                    } else {
                        Some(0int)
                    }),
            decreases row_len - m,
        {
            let e = gr.adj[k][m];
            let from = gr.vertices[k].id;
            proof {
                lemma_vindex_self(*gr);
                lemma_arcs_upto(*gr, k as int, m as int);
                lemma_arcs_upto(*gr, k as int, m as int + 1);
                assert(e == gr.row(k as int)[m as int]);
                assert(row_has(gr.row(k as int), e.to as int));
                lemma_row_at(gr.row(k as int), e.to as int);
                assert(row_at(gr.row(k as int), e.to as int) == m as int);
                assert(gr.has_arc_g(from as int, e.to as int));
                assert(gr.has_vid(e.to as int));
                assert(g@.verts.dom().contains(from as int));
                assert(g@.verts.dom().contains(e.to as int));
                assert(arcs_upto(*gr, k as int, m as int + 1) == arcs_upto(
                    *gr,
                    k as int,
                    m as int,
                ).insert(
                    (gr.vid(k as int), gr.row(k as int)[m as int].to as int),
                    gr.row(k as int)[m as int].weight.deep_view(),
                ));
            }
            let ghost gprev = g;
            let res = g.add_edge(e.to, Edge { to: from, weight: Some(Weight::zero()) });
            proof {
                if res is Ok {
                    assert forall|p: (int, int)| #[trigger] g@.edges.dom().contains(p) <==> (
                    gr@.edges.dom().contains(p) || arcs_upto(*gr, k as int, m as int + 1).dom().contains(
                        (p.1, p.0),
                    )) by {}
                } else {
                    assert(res == Result::<(), crate::graph_errors::GraphOperationError>::Err(
                        crate::graph_errors::GraphOperationError::EdgeExists,
                    ));
                    assert(g == gprev);
                    assert(gprev@.edges.dom().contains((e.to as int, from as int)));
                }
            }
            m = m + 1;
        }
        proof {
            assert(arcs_upto(*gr, k as int + 1, 0) == arcs_upto(
                *gr,
                k as int,
                gr.row(k as int).len() as int,
            ));
        }
        k = k + 1;
    }
    proof {
        lemma_arcs_upto(*gr, n as int, 0);
        assert forall|p: (int, int)| #[trigger] g@.edges.dom().contains(p) <==> (
        gr@.edges.dom().contains(p) || gr@.edges.dom().contains((p.1, p.0))) by {
            if gr@.edges.dom().contains((p.1, p.0)) {
                lemma_vindex(*gr, p.1);
            }
        }
        if zero_weights {
            assert(g@.edges =~= gf_of(gr@).edges);
            assert(g@ =~= gf_of(gr@));
        } else {
            assert(g@.edges =~= gc_of(gr@).edges);
            assert(g@ =~= gc_of(gr@));
        }
    }
    g
}

/// The data carried between steps: source and sink ids, the capacity graph,
/// the flow graph, the deltas of the most recent augmenting path, and the
/// last and accumulated flow values.
#[derive(Clone, Debug)]
pub struct AlgorithmData {
    pub s: i32,
    pub t: i32,
    pub gc: Graph,
    pub gf: Graph,
    pub curr_path: Option<Vec<PathDelta>>,
    pub last_flow: Weight,
    pub total_flow: Weight,
}

impl AlgorithmData {
    /// The internal consistency carried from step to step: both graphs are
    /// well-formed, directed and weighted, share their vertex set and their
    /// arc positions, the capacity graph has every reverse arc, and source
    /// and sink are vertices.
    pub open spec fn wf(self) -> bool {
        &&& self.gc.wf()
        &&& self.gc@.is_directed
        &&& self.gc@.is_weighted
        &&& self.gf.wf()
        &&& self.gf@.is_directed
        &&& self.gf@.is_weighted
        &&& self.gf@.verts.dom() == self.gc@.verts.dom()
        &&& self.gf@.edges.dom() == self.gc@.edges.dom()
        &&& dom_sym(self.gc@)
        &&& self.gc@.has_vertex(self.s as int)
        &&& self.gc@.has_vertex(self.t as int)
    }

    pub fn get_gf(&self) -> (r: &Graph)
        ensures
            r == &self.gf,
    {
        &self.gf
    }

    pub fn get_curr_path(&self) -> (r: &Option<Vec<PathDelta>>)
        ensures
            r == &self.curr_path,
    {
        &self.curr_path
    }

    pub fn get_last_flow(&self) -> (r: &Weight)
        ensures
            r == &self.last_flow,
    {
        &self.last_flow
    }

    pub fn get_total_flow(&self) -> (r: &Weight)
        ensures
            r == &self.total_flow,
    {
        &self.total_flow
    }
}

/// Where a flow computation stands: not yet started, between augmenting
/// paths, or finished.
#[derive(Clone, Debug)]
pub enum AlgorithmState {
    NotStarted,
    Step(AlgorithmData),
    Finished(AlgorithmData),
}

impl AlgorithmState {
    pub open spec fn wf(self) -> bool {
        match self {
            AlgorithmState::NotStarted => true,
            AlgorithmState::Step(d) => d.wf(),
            AlgorithmState::Finished(d) => d.wf(),
        }
    }
}

/// One transition of the flow state machine.
///
/// From `NotStarted` it validates the graph and the textual source and sink
/// ids, builds the capacity and flow graphs and enters `Step`. From `Step`
/// it runs one depth-first augmenting-path search: a positive flow keeps it
/// in `Step`, no flow ends in `Finished`; the accumulated flow always grows
/// by exactly the flow just found. From `Finished` it resets to
/// `NotStarted` unconditionally, so the next call re-validates a possibly
/// changed graph from scratch.
///
/// A `Step` result carries the search's bookkeeping in its contract: the
/// recorded deltas pair every forward arc with its reverse, the flow graph
/// grew by the found flow on each recorded forward arc and shrank by it on
/// the reverse, arcs no delta touches are untouched, and on a graph whose
/// residual capacities are all nonnegative the found flow is positive and
/// the accumulated flow never decreases.
///
/// Ending in `Finished` comes with a certificate that no augmenting path
/// remains: a set of vertices holding the source but not the sink that no
/// positive-residual arc leaves. A source and sink in disconnected
/// components reach `Finished` on the first search, with nothing added to
/// the accumulated flow.
pub fn algorithm_step(
    state: AlgorithmState,
    g: &Option<Graph>,
    s_str: &str,
    t_str: &str,
) -> (r: Result<AlgorithmState, GraphError>)
    requires
        state.wf(),
        match g {
            Some(gr) => gr.wf(),
            None => true,
        },
    ensures
        (match r {
            Ok(st) => st.wf(),
            Err(_) => true,
        }),
        (match state {
            AlgorithmState::NotStarted => match r {
                Ok(AlgorithmState::Step(d)) => {
                    &&& g is Some
                    &&& (g->0)@.is_directed
                    &&& (g->0)@.is_weighted
                    &&& spec_parse_int(s_str@) == Some(d.s as int)
                    &&& spec_parse_int(t_str@) == Some(d.t as int)
                    &&& (g->0)@.has_vertex(d.s as int)
                    &&& (g->0)@.has_vertex(d.t as int)
                    &&& d.gc@ == gc_of((g->0)@)
                    &&& d.gf@ == gf_of((g->0)@)
                    &&& d.curr_path is None
                    &&& d.last_flow@ == 0
                    &&& d.total_flow@ == 0
                },
                Ok(_) => false,
                Err(e) => match e {
                    GraphError::InterfaceError(GraphInterfaceError::GraphNotExist) => g is None,
                    GraphError::AlgorithmError(GraphAlgorithmError::GraphNotDirected) => g is Some
                        && !(g->0)@.is_directed,
                    GraphError::AlgorithmError(GraphAlgorithmError::GraphNotWeighted) => g is Some
                        && (g->0)@.is_directed && !(g->0)@.is_weighted,
                    GraphError::InterfaceError(GraphInterfaceError::IncorrectArgument {
                        i: 1,
                    }) => g is Some && (g->0)@.is_directed && (g->0)@.is_weighted && (match
                        spec_parse_int(s_str@) {
                        Some(v) => !(g->0)@.has_vertex(v),
                        None => true,
                    }),
                    GraphError::InterfaceError(GraphInterfaceError::IncorrectArgument {
                        i: 2,
                    }) => g is Some && (g->0)@.is_directed && (g->0)@.is_weighted && (match
                        spec_parse_int(s_str@) {
                        Some(v) => (g->0)@.has_vertex(v),
                        None => false,
                    }) && (match spec_parse_int(t_str@) {
                        Some(v) => !(g->0)@.has_vertex(v),
                        None => true,
                    }),
                    _ => false,
                },
            },
            AlgorithmState::Step(data) => match r {
                Ok(AlgorithmState::Step(d2)) => {
                    &&& d2.s == data.s
                    &&& d2.t == data.t
                    &&& d2.gc == data.gc
                    &&& d2.total_flow@ == clip_weight(data.total_flow@ + d2.last_flow@)
                    &&& d2.last_flow@ != 0
                    &&& d2.curr_path is Some
                    &&& path_deltas_ok((d2.curr_path->0)@, d2.last_flow, data.gc@)
                    &&& deltas_confined((d2.curr_path->0)@, 0, data.gf@, d2.gf@)
                    &&& path_deltas_applied(
                        (d2.curr_path->0)@,
                        0,
                        d2.last_flow,
                        data.gf@,
                        d2.gf@,
                    )
                    &&& (data.s != data.t ==> (d2.curr_path->0)@.len() >= 2 && (
                    d2.curr_path->0)@[(d2.curr_path->0)@.len() - 2].from == data.s && (
                    d2.curr_path->0)@[0].to == data.t)
                    &&& (forall|j: int|
                        0 <= j < (d2.curr_path->0)@.len() && j % 2 == 0 ==> d2.last_flow@
                            <= clip_weight(
                            resid(
                                data.gc@,
                                data.gf@,
                                (
                                    ((#[trigger] (d2.curr_path->0)@[j]).from as int),
                                    (d2.curr_path->0)@[j].to as int,
                                ),
                            ),
                        ))
                    &&& d2.gf@.verts == data.gf@.verts
                    &&& d2.gf@.edges.dom() == data.gf@.edges.dom()
                    &&& (data.s == data.t ==> d2.last_flow@ == i32::MAX && d2.gf == data.gf && (
                    d2.curr_path->0)@.len() == 0)
                    &&& ((forall|x: (int, int)| #[trigger]
                        data.gf@.edges.dom().contains(x) ==> resid(data.gc@, data.gf@, x) >= 0)
                        ==> d2.last_flow@ > 0 && d2.total_flow@ >= data.total_flow@)
                },
                Ok(AlgorithmState::Finished(d2)) => {
                    &&& d2 == (AlgorithmData {
                        curr_path: None,
                        last_flow: Weight { v: 0 },
                        ..data
                    })
                    &&& d2.last_flow@ == 0
                    &&& d2.total_flow == data.total_flow
                    &&& d2.curr_path is None
                    &&& exists|c: Set<int>|
                        c.contains(data.s as int) && !c.contains(data.t as int) && res_closed(
                            data.gc@,
                            data.gf@,
                            c,
                        )
                },
                Ok(_) => false,
                Err(_) => false,
            },
            AlgorithmState::Finished(_) => r == Ok::<AlgorithmState, GraphError>(
                AlgorithmState::NotStarted,
            ),
        }),
        (match state {
            AlgorithmState::Step(data) => separated(data.gc@, data.s as int, data.t as int)
                && data.s != data.t ==> r == Ok::<AlgorithmState, GraphError>(
                AlgorithmState::Finished(
                    AlgorithmData { curr_path: None, last_flow: Weight { v: 0 }, ..data },
                ),
            ),
            _ => true,
        }),
{
    match state {
        AlgorithmState::NotStarted => {
            let gr = match g {
                Some(gr) => gr,
                None => {
                    return Err(GraphError::InterfaceError(GraphInterfaceError::GraphNotExist));
                },
            };
            if !gr.get_is_directed() {
                return Err(GraphError::AlgorithmError(GraphAlgorithmError::GraphNotDirected));
            }
            if !gr.get_is_weighted() {
                return Err(GraphError::AlgorithmError(GraphAlgorithmError::GraphNotWeighted));
            }
            let s = match parse_i32(s_str) {
                Some(v) => v,
                None => {
                    return Err(
                        GraphError::InterfaceError(GraphInterfaceError::IncorrectArgument { i: 1 }),
                    );
                },
            };
            if gr.get_vertex(s).is_err() {
                return Err(
                    GraphError::InterfaceError(GraphInterfaceError::IncorrectArgument { i: 1 }),
                );
            }
            let t = match parse_i32(t_str) {
                Some(v) => v,
                None => {
                    return Err(
                        GraphError::InterfaceError(GraphInterfaceError::IncorrectArgument { i: 2 }),
                    );
                },
            };
            if gr.get_vertex(t).is_err() {
                return Err(
                    GraphError::InterfaceError(GraphInterfaceError::IncorrectArgument { i: 2 }),
                );
            }
            let gc = build_graph(gr, false);
            let gf = build_graph(gr, true);
            let data = AlgorithmData {
                s,
                t,
                gc,
                gf,
                curr_path: None,
                last_flow: Weight::zero(),
                total_flow: Weight::zero(),
            };
            proof {
                assert(data.gf@.verts.dom() =~= data.gc@.verts.dom());
                assert(data.gf@.edges.dom() =~= data.gc@.edges.dom());
                assert(dom_sym(data.gc@));
                assert(data.gc@.verts == gr@.verts);
                assert(data.gc@.has_vertex(s as int));
                assert(data.gc@.has_vertex(t as int));
            }
            Ok(AlgorithmState::Step(data))
        },
        AlgorithmState::Step(data) => {
            let mut data = data;
            let ghost d0 = data;
            let mut used: Vec<i32> = Vec::new();
            let mut path: Vec<PathDelta> = Vec::new();
            let f = dfs(&data.gc, &mut data.gf, &mut used, &mut path, data.t, data.s, Weight::inf());
            data.total_flow = data.total_flow.add(f);
            data.last_flow = f;
            proof {
                if separated(d0.gc@, d0.s as int, d0.t as int) && d0.s != d0.t {
                    let c = choose|c: Set<int>|
                        closed_under_arcs(d0.gc@, c) && c.contains(d0.s as int) && !c.contains(
                            d0.t as int,
                        );
                    assert(f@ == 0);
                    assert(f == (Weight { v: 0 }));
                    assert(data.total_flow@ == clip_weight(d0.total_flow@ + 0));
                    assert(data.total_flow@ == d0.total_flow@);
                    assert(data.total_flow == d0.total_flow);
                }
            }
            proof {
                if (forall|x: (int, int)| #[trigger]
                    d0.gf@.edges.dom().contains(x) ==> resid(d0.gc@, d0.gf@, x) >= 0) {
                    assert(f@ == 0 || f@ >= 0);
                    if f@ != 0 {
                        assert(d0.total_flow@ <= i32::MAX);
                        assert(data.total_flow@ >= d0.total_flow@);
                    }
                }
            }
            if f.is_zero() {
                data.curr_path = None;
                proof {
                    assert(f == (Weight { v: 0 }));
                    assert(data.total_flow@ == clip_weight(d0.total_flow@ + 0));
                    assert(data.total_flow == d0.total_flow);
                    // the visited vertices witness a residual cut
                    let c = Set::new(|x: int| seq_has_id(used@, x));
                    assert(c.contains(d0.s as int));
                    assert(!seq_has_id(Seq::<i32>::empty(), d0.t as int));
                    assert(!c.contains(d0.t as int));
                    assert forall|a: int, b: int|
                        c.contains(a) && #[trigger] d0.gc@.edges.dom().contains((a, b)) && resid(
                            d0.gc@,
                            d0.gf@,
                            (a, b),
                        ) > 0 implies c.contains(b) by {
                        assert(!seq_has_id(Seq::<i32>::empty(), a));
                        assert(seq_has_id(used@, b));
                    }
                    assert(res_closed(d0.gc@, d0.gf@, c));
                }
                Ok(AlgorithmState::Finished(data))
            } else {
                proof {
                    if d0.s != d0.t {
                        assert(path@.len() >= 2);
                    } else {
                        assert(path@.len() == 0);
                        assert(data.gf == d0.gf);
                    }
                }
                data.curr_path = Some(path);
                Ok(AlgorithmState::Step(data))
            }
        },
        AlgorithmState::Finished(_) => Ok(AlgorithmState::NotStarted),
    }
}

/// Source and sink lie in different components of the underlying
/// undirected structure: some set holds the source but not the sink and no
/// arc crosses it in either direction.
pub open spec fn fully_separated(m: GraphModel, s: int, t: int) -> bool {
    exists|c: Set<int>|
        c.contains(s) && !c.contains(t) && (forall|a: int, b: int|
            c.contains(a) && (#[trigger] m.edges.dom().contains((a, b))
                || m.edges.dom().contains((b, a))) ==> c.contains(b))
}

/// A graph whose source and sink are in disconnected components keeps them
/// separated in its capacity graph, reverse arcs included; one call of
/// `algorithm_step` on a fresh `Step` state therefore goes straight to
/// `Finished` with zero total flow.
pub proof fn lemma_separated_capacity(m: GraphModel, s: int, t: int)
    requires
        fully_separated(m, s, t),
    ensures
        separated(gc_of(m), s, t),
{
    let c = choose|c: Set<int>|
        c.contains(s) && !c.contains(t) && (forall|a: int, b: int|
            c.contains(a) && (#[trigger] m.edges.dom().contains((a, b))
                || m.edges.dom().contains((b, a))) ==> c.contains(b));
    assert forall|a: int, b: int|
        c.contains(a) && #[trigger] gc_of(m).edges.dom().contains((a, b)) implies c.contains(
        b,
    ) by {
        assert(m.edges.dom().contains((a, b)) || m.edges.dom().contains((b, a)));
    }
    assert(closed_under_arcs(gc_of(m), c));
}

/// One applied augmenting step keeps every residual capacity nonnegative:
/// with a nonnegative flow that each recorded forward arc's residual can
/// carry, the forward arcs lose exactly the flow and the reverse arcs only
/// gain. Starting from zero flow on a graph with nonnegative capacities,
/// this invariant therefore persists across the whole run, and with it the
/// guarantee that every continuing step pushes a positive flow.
pub proof fn lemma_step_preserves_nonneg(
    p: Seq<PathDelta>,
    f: Weight,
    mgc: GraphModel,
    m0: GraphModel,
    m1: GraphModel,
)
    requires
        m1.edges.dom() == m0.edges.dom(),
        forall|x: (int, int)| #[trigger] m0.edges.dom().contains(x) ==> resid(mgc, m0, x) >= 0,
        forall|x: (int, int)| #[trigger]
            m0.edges.dom().contains(x) ==> i32::MIN <= opt_int(m0.edges[x]) <= i32::MAX,
        forall|x: (int, int)| #[trigger]
            m0.edges.dom().contains(x) ==> i32::MIN <= opt_int(mgc.edges[x]) <= i32::MAX,
        f@ >= 0,
        deltas_confined(p, 0, m0, m1),
        path_deltas_applied(p, 0, f, m0, m1),
        path_deltas_ok(p, f, mgc),
        forall|j: int|
            0 <= j < p.len() && j % 2 == 0 ==> f@ <= clip_weight(
                resid(mgc, m0, (((#[trigger] p[j]).from as int), p[j].to as int)),
            ),
    ensures
        forall|x: (int, int)| #[trigger] m1.edges.dom().contains(x) ==> resid(mgc, m1, x) >= 0,
{
    assert forall|x: (int, int)| #[trigger] m1.edges.dom().contains(x) implies resid(
        mgc,
        m1,
        x,
    ) >= 0 by {
        assert(m0.edges.dom().contains(x));
        let a = opt_int(m0.edges[x]);
        let c = opt_int(mgc.edges[x]);
        if !delta_touches(p, 0, x) {
            assert(m1.edges[x] == m0.edges[x]);
        } else {
            let j = choose|j: int|
                0 <= j < p.len() && (#[trigger] p[j]).from as int == x.0 && p[j].to as int
                    == x.1;
            if j % 2 == 0 {
                // a forward arc: its residual loses exactly the flow
                assert(m1.edges[x] == Some(clip_weight(a + f@)));
                assert(f@ <= clip_weight(c - a));
                assert(clip_weight(c - a) <= c - a);
                assert(a + f@ <= c);
                assert(clip_weight(a + f@) == a + f@);
            } else {
                // a reverse arc: its flow only shrinks, so its residual grows
                assert((j - 1) % 2 == 0);
                assert(p[j].from == p[j - 1].to && p[j].to == p[j - 1].from);
                assert(x == (p[j - 1].to as int, p[j - 1].from as int));
                assert(m1.edges[x] == Some(clip_weight(a - f@)));
                assert(clip_weight(a - f@) <= a);
            }
        }
    }
}

} // verus!
