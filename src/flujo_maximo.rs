use vstd::prelude::*;
use vstd::set_lib::{lemma_int_range, lemma_len_subset, set_int_range};

use crate::diarista::Diarista;
use crate::peso::PesoT;
use crate::flujo::Flujo;
use crate::red_transporte::{destino, origen, suma_restante, suma_valores, Red};
use crate::vertice::{contiene_vertice, VerticeT};

verus! {

/// Whether the flow at global index `g` of `red` can still grow.
pub open spec fn no_saturado<V: VerticeT, P: PesoT>(red: Red<V, P>, g: int) -> bool {
    &&& 0 <= g < red.todos().len()
    &&& red.todos()[g].valor_spec() < red.todos()[g].capacidad_spec()
}

/// The arc of the flow at global index `g` of `red`.
pub open spec fn arco_de<V: VerticeT, P: PesoT>(red: Red<V, P>, g: int) -> Diarista<V, P> {
    red.todos()[g].arco_spec()
}

/// Whether `c`, a list of global indices of flows of `red`, is an augmenting
/// path: unsaturated arcs, the first one leaving the source, the others
/// interior or sink arcs, each one starting where the previous one ends, the
/// last one ending at the sink.
pub open spec fn camino_aumento<V: VerticeT, P: PesoT>(red: Red<V, P>, c: Seq<usize>) -> bool {
    &&& c.len() >= 2
    &&& forall|k: int| 0 <= k < c.len() ==> no_saturado(red, #[trigger] c[k] as int)
    &&& c[0] < red.fuente_spec().len()
    &&& forall|k: int| 1 <= k < c.len() ==> red.fuente_spec().len() <= #[trigger] c[k]
    &&& destino(arco_de(red, c.last() as int)) == red.sumidero()
    &&& forall|k: int|
        0 <= k < c.len() - 1 ==> destino(arco_de(red, #[trigger] c[k] as int)) == origen(
            arco_de(red, c[k + 1] as int),
        )
}

/// Whether the records `(rg, rp)` of a search are sound: each record is an
/// unsaturated flow; a record without predecessor is a source arc, one with a
/// predecessor is an interior or sink arc that starts where an earlier
/// record ends.
pub open spec fn registros_validos<V: VerticeT, P: PesoT>(
    red: Red<V, P>,
    rg: Seq<usize>,
    rp: Seq<Option<usize>>,
) -> bool {
    &&& rg.len() == rp.len()
    &&& forall|k: int| 0 <= k < rg.len() ==> no_saturado(red, #[trigger] rg[k] as int)
    &&& forall|k: int|
        0 <= k < rg.len() && (#[trigger] rp[k]) is None ==> rg[k] < red.fuente_spec().len()
    &&& forall|k: int|
        0 <= k < rg.len() && (#[trigger] rp[k]) is Some ==> {
            let p = rp[k]->0 as int;
            &&& p < k
            &&& red.fuente_spec().len() <= rg[k]
            &&& destino(arco_de(red, rg[p] as int)) == origen(arco_de(red, rg[k] as int))
        }
}

/// Whether `c` is a chain of records that ends at record `u` and starts at a
/// record whose global index is `c[0]`.
spec fn cadena_desde<V: VerticeT, P: PesoT>(red: Red<V, P>, c: Seq<usize>, u: usize) -> bool {
    &&& c.len() >= 1
    &&& forall|k: int| 0 <= k < c.len() ==> no_saturado(red, #[trigger] c[k] as int)
    &&& forall|k: int| 1 <= k < c.len() ==> red.fuente_spec().len() <= #[trigger] c[k]
    &&& c.last() == u
    &&& forall|k: int|
        0 <= k < c.len() - 1 ==> destino(arco_de(red, #[trigger] c[k] as int)) == origen(
            arco_de(red, c[k + 1] as int),
        )
}

/// The path of global indices that ends at record `u`, found by walking the
/// predecessor links back to a source arc.
fn deshilar<V: VerticeT, P: PesoT>(
    red: &Red<V, P>,
    rg: &Vec<usize>,
    rp: &Vec<Option<usize>>,
    u: usize,
) -> (c: Vec<usize>)
    requires
        red.wf(),
        registros_validos(*red, rg@, rp@),
        u < rg@.len(),
        rp@[u as int] is Some,
        destino(arco_de(*red, rg@[u as int] as int)) == red.sumidero(),
        forall|r1: int, r2: int| 0 <= r1 < r2 < rg@.len() ==> #[trigger] rg@[r1] != #[trigger] rg@[r2],
    ensures
        camino_aumento(*red, c@),
        c@.no_duplicates(),
{
    let mut c: Vec<usize> = vec![rg[u]];
    let mut cur = u;
    let ghost mut idx: Seq<int> = seq![u as int];
    while rp[cur].is_some()
        invariant
            forall|r1: int, r2: int| 0 <= r1 < r2 < rg@.len() ==> #[trigger] rg@[r1] != #[trigger] rg@[r2],
            idx.len() == c@.len(),
            idx[0] == cur,
            forall|k: int| 0 <= k < idx.len() ==> 0 <= #[trigger] idx[k] < rg@.len() && c@[k] == rg@[idx[k]],
            forall|k1: int, k2: int| 0 <= k1 < k2 < idx.len() ==> #[trigger] idx[k1] < #[trigger] idx[k2],
            registros_validos(*red, rg@, rp@),
            cur < rg@.len(),
            c@[0] == rg@[cur as int],
            cadena_desde(*red, c@, rg@[u as int]),
            c@.len() >= 2 || (c@.len() == 1 && cur == u),
            rp@[u as int] is Some,
        decreases cur,
    {
        let p = rp[cur].unwrap();
        let ghost viejo = c@;
        let ghost idx0 = idx;
        c.insert(0, rg[p]);
        proof {
            idx = seq![p as int] + idx0;
            assert forall|k: int| 0 <= k < idx.len() implies 0 <= #[trigger] idx[k] < rg@.len() && c@[k] == rg@[idx[k]] by {
                if k > 0 {
                    assert(idx[k] == idx0[k - 1]);
                }
            }
            assert forall|k1: int, k2: int| 0 <= k1 < k2 < idx.len() implies #[trigger] idx[k1] < #[trigger] idx[k2] by {
                if k1 > 0 {
                    assert(idx[k1] == idx0[k1 - 1] && idx[k2] == idx0[k2 - 1]);
                } else {
                    assert(idx[k2] == idx0[k2 - 1]);
                    assert(idx0[0] <= idx0[k2 - 1]) by {
                        if k2 - 1 > 0 {
                            assert(idx0[0] < idx0[k2 - 1]);
                        }
                    }
                }
            }
            viejo.insert_ensures(0, rg@[p as int]);
            assert(c@ == viejo.insert(0, rg@[p as int]));
            assert forall|k: int| 0 <= k < c@.len() - 1 implies destino(
                arco_de(*red, #[trigger] c@[k] as int),
            ) == origen(arco_de(*red, c@[k + 1] as int)) by {
                if k > 0 {
                    assert(c@[k] == viejo[k - 1]);
                    assert(c@[k + 1] == viejo[k]);
                }
            }
            assert forall|k: int| 1 <= k < c@.len() implies red.fuente_spec().len()
                <= #[trigger] c@[k] by {
                if k > 1 {
                    assert(c@[k] == viejo[k - 1]);
                }
            }
            assert forall|k: int| 0 <= k < c@.len() implies no_saturado(*red, #[trigger] c@[k] as int) by {
                if k > 0 {
                    assert(c@[k] == viejo[k - 1]);
                }
            }
        }
        cur = p;
    }
    proof {
        assert forall|k1: int, k2: int| 0 <= k1 < c@.len() && 0 <= k2 < c@.len() && k1 != k2 implies c@[k1] != c@[k2] by {
            if k1 < k2 {
                assert(idx[k1] < idx[k2]);
            } else {
                assert(idx[k2] < idx[k1]);
            }
        }
    }
    c
}

/// The first endpoint of candidate `j`.
pub open spec fn org_c<V: VerticeT, P: PesoT>(red: Red<V, P>, arcos: Seq<usize>, j: int) -> V {
    origen(arco_de(red, arcos[j] as int))
}

/// The second endpoint of candidate `j`.
pub open spec fn dst_c<V: VerticeT, P: PesoT>(red: Red<V, P>, arcos: Seq<usize>, j: int) -> V {
    destino(arco_de(red, arcos[j] as int))
}

/// Whether candidate `j` has an entry in the frontier `fr`.
pub open spec fn en_frontera(fr: Seq<(usize, usize)>, j: int) -> bool {
    exists|f: int| 0 <= f < fr.len() && (#[trigger] fr[f]).0 == j
}

/// Whether candidate `j` still has to be explored: it leads to a vertex not
/// reached yet, or to the sink.
pub open spec fn abierta<V: VerticeT, P: PesoT>(red: Red<V, P>, arcos: Seq<usize>, vis: Seq<V>, j: int) -> bool {
    !vis.contains(dst_c(red, arcos, j)) || dst_c(red, arcos, j) == red.sumidero()
}

/// Whether every candidate from a reached vertex that still has to be
/// explored has an entry in the frontier.
pub open spec fn pendientes_en<V: VerticeT, P: PesoT>(
    red: Red<V, P>,
    arcos: Seq<usize>,
    vis: Seq<V>,
    fr: Seq<(usize, usize)>,
) -> bool {
    forall|j: int|
        0 <= j < arcos.len() && vis.contains(#[trigger] org_c(red, arcos, j)) && abierta(red, arcos, vis, j) ==> en_frontera(fr, j)
}

/// Whether the records name distinct flows: the first `n` are source arcs,
/// each later one a used candidate.
pub open spec fn registro_inyectivo(rg: Seq<usize>, n: int, nf: int, arcos: Seq<usize>, usado: Seq<bool>) -> bool {
    &&& n <= rg.len()
    &&& forall|r1: int, r2: int| 0 <= r1 < r2 < rg.len() ==> #[trigger] rg[r1] != #[trigger] rg[r2]
    &&& forall|r: int| 0 <= r < n ==> #[trigger] rg[r] < nf
    &&& forall|r: int| n <= r < rg.len() ==> exists|a: int| 0 <= a < arcos.len() && usado[a] && arcos[a] == #[trigger] rg[r]
}

/// Whether `arcos` lists every unsaturated interior and sink arc.
pub open spec fn cubre_candidatos<V: VerticeT, P: PesoT>(red: Red<V, P>, arcos: Seq<usize>) -> bool {
    forall|g: int| red.fuente_spec().len() <= g && #[trigger] no_saturado(red, g) ==> arcos.contains(g as usize)
}

/// Whether the first `n` records list every unsaturated source arc.
pub open spec fn cubre_raices<V: VerticeT, P: PesoT>(red: Red<V, P>, rg: Seq<usize>, n: int) -> bool {
    forall|g: int|
        0 <= g < red.fuente_spec().len() && #[trigger] no_saturado(red, g) ==> exists|k: int|
            0 <= k < n && rg[k] == g
}

/// Whether every candidate that starts where a listed source arc ends has
/// its first endpoint reached.
pub open spec fn raices_visitadas<V: VerticeT, P: PesoT>(
    red: Red<V, P>,
    rg: Seq<usize>,
    n: int,
    arcos: Seq<usize>,
    vis: Seq<V>,
) -> bool {
    forall|j: int, k: int|
        #![trigger org_c(red, arcos, j), rg[k]]
        0 <= j < arcos.len() && 0 <= k < n && destino(arco_de(red, rg[k] as int)) == org_c(red, arcos, j)
            ==> vis.contains(org_c(red, arcos, j))
}

proof fn lema_completo<V: VerticeT, P: PesoT>(
    red: Red<V, P>,
    rg: Seq<usize>,
    n: int,
    arcos: Seq<usize>,
    vis: Seq<V>,
    c: Seq<usize>,
)
    requires
        n <= rg.len(),
        cubre_candidatos(red, arcos),
        cubre_raices(red, rg, n),
        raices_visitadas(red, rg, n, arcos, vis),
        forall|j: int| 0 <= j < arcos.len() && vis.contains(#[trigger] org_c(red, arcos, j)) ==> vis.contains(dst_c(red, arcos, j))
            && dst_c(red, arcos, j) != red.sumidero(),
        red.todos().len() <= usize::MAX,
    ensures
        !camino_aumento(red, c),
{
    if camino_aumento(red, c) {
        assert(no_saturado(red, c[0] as int));
        let k0 = choose|k: int| 0 <= k < n && rg[k] == c[0] as int;
        let i = c.len() - 1;
        lema_completo_paso(red, rg, n, arcos, vis, c, k0, i);
        assert(no_saturado(red, c[i] as int));
        assert(red.fuente_spec().len() <= c[i]);
        assert(arcos.contains(c[i] as usize));
        let j = choose|j: int| 0 <= j < arcos.len() && arcos[j] == c[i] as usize;
        assert(arcos[j] as int == c[i] as int);
        assert(vis.contains(org_c(red, arcos, j)));
    }
}

proof fn lema_completo_paso<V: VerticeT, P: PesoT>(
    red: Red<V, P>,
    rg: Seq<usize>,
    n: int,
    arcos: Seq<usize>,
    vis: Seq<V>,
    c: Seq<usize>,
    k0: int,
    i: int,
)
    requires
        n <= rg.len(),
        0 <= k0 < n,
        rg[k0] == c[0],
        cubre_candidatos(red, arcos),
        raices_visitadas(red, rg, n, arcos, vis),
        forall|j: int| 0 <= j < arcos.len() && vis.contains(#[trigger] org_c(red, arcos, j)) ==> vis.contains(dst_c(red, arcos, j)),
        camino_aumento(red, c),
        red.todos().len() <= usize::MAX,
        1 <= i < c.len(),
    ensures
        vis.contains(origen(arco_de(red, c[i] as int))),
        vis.contains(destino(arco_de(red, c[i] as int))),
    decreases i,
{
    assert(no_saturado(red, c[i] as int));
    assert(red.fuente_spec().len() <= c[i]);
    assert(arcos.contains(c[i] as usize));
    let j = choose|j: int| 0 <= j < arcos.len() && arcos[j] == c[i] as usize;
    assert(arcos[j] as int == c[i] as int);
    if i == 1 {
        assert(destino(arco_de(red, c[0] as int)) == origen(arco_de(red, c[1] as int)));
        assert(destino(arco_de(red, rg[k0] as int)) == org_c(red, arcos, j));
    } else {
        lema_completo_paso(red, rg, n, arcos, vis, c, k0, i - 1);
        assert(destino(arco_de(red, c[i - 1] as int)) == origen(arco_de(red, c[i] as int)));
    }
    assert(vis.contains(org_c(red, arcos, j)));
}

/// Searches the network breadth-first, over unsaturated arcs, for a path
/// from the source to the sink; gives the global indices of its flows.
fn buscar_camino<V: VerticeT, P: PesoT>(red: &Red<V, P>) -> (r: Option<Vec<usize>>)
    requires
        red.wf(),
    ensures
        r is Some ==> camino_aumento(*red, r->0@) && r->0@.no_duplicates(),
        r is None ==> forall|c: Seq<usize>| !#[trigger] camino_aumento(*red, c),
{
    let nf = red.get_flujos_fuente().len();
    let total = red.num_flujos();
    let sumidero = *red.get_sumidero();
    // Records: the unsaturated source arcs first, without predecessor.
    let mut rg: Vec<usize> = Vec::new();
    let mut rp: Vec<Option<usize>> = Vec::new();
    let mut g: usize = 0;
    while g < nf
        invariant
            nf == red.fuente_spec().len(),
            total == red.todos().len(),
            nf <= total,
            g <= nf,
            registros_validos(*red, rg@, rp@),
            forall|k: int| 0 <= k < rp@.len() ==> (#[trigger] rp@[k]) is None,
            forall|g2: int| 0 <= g2 < g && #[trigger] no_saturado(*red, g2) ==> exists|k: int| 0 <= k < rg@.len() && rg@[k] == g2,
            forall|r: int| 0 <= r < rg@.len() ==> #[trigger] rg@[r] < g,
            forall|r1: int, r2: int| 0 <= r1 < r2 < rg@.len() ==> #[trigger] rg@[r1] < #[trigger] rg@[r2],
        decreases nf - g,
    {
        if !red.flujo_global(g).saturado() {
            let ghost previo = rg@;
            rg.push(g);
            rp.push(None);
            proof {
                assert forall|g2: int| 0 <= g2 < g + 1 && #[trigger] no_saturado(*red, g2) implies exists|k: int| 0 <= k < rg@.len() && rg@[k] == g2 by {
                    if g2 < g {
                        let k = choose|k: int| 0 <= k < previo.len() && previo[k] == g2;
                        assert(rg@[k] == g2);
                    } else {
                        assert(rg@[previo.len() as int] == g2);
                    }
                }
            }
        }
        g = g + 1;
    }
    let n_raices = rg.len();
    let ghost raices = rg@;
    proof {
        assert(cubre_raices(*red, rg@, n_raices as int));
    }
    // Candidate arcs: the unsaturated interior and sink arcs, in order.
    let mut arcos: Vec<usize> = Vec::new();
    let mut g: usize = nf;
    while g < total
        invariant
            nf == red.fuente_spec().len(),
            total == red.todos().len(),
            nf <= g <= total,
            forall|j: int| 0 <= j < arcos@.len() ==> no_saturado(*red, #[trigger] arcos@[j] as int) && nf
                <= arcos@[j],
            forall|g2: int| nf <= g2 < g && #[trigger] no_saturado(*red, g2) ==> arcos@.contains(g2 as usize),
            forall|j: int| 0 <= j < arcos@.len() ==> #[trigger] arcos@[j] < g,
            forall|j1: int, j2: int| 0 <= j1 < j2 < arcos@.len() ==> #[trigger] arcos@[j1] < #[trigger] arcos@[j2],
        decreases total - g,
    {
        if !red.flujo_global(g).saturado() {
            let ghost previo = arcos@;
            arcos.push(g);
            proof {
                assert forall|g2: int| nf <= g2 < g + 1 && #[trigger] no_saturado(*red, g2) implies arcos@.contains(g2 as usize) by {
                    if g2 < g {
                        let k = choose|k: int| 0 <= k < previo.len() && previo[k] == g2 as usize;
                        assert(arcos@[k] == g2 as usize);
                    } else {
                        assert(arcos@[previo.len() as int] == g2 as usize);
                    }
                }
            }
        }
        g = g + 1;
    }
    proof {
        assert(cubre_candidatos(*red, arcos@));
    }
    // First frontier: each candidate that starts where a source arc ends,
    // paired with the first such source arc.
    let mut frontera: Vec<(usize, usize)> = Vec::new();
    let mut visitados: Vec<V> = Vec::new();
    let mut j: usize = 0;
    while j < arcos.len()
        invariant
            registros_validos(*red, rg@, rp@),
            n_raices == rg@.len(),
            forall|j: int| 0 <= j < arcos@.len() ==> no_saturado(*red, #[trigger] arcos@[j] as int) && nf
                <= arcos@[j],
            nf == red.fuente_spec().len(),
            total == red.todos().len(),
            total <= usize::MAX,
            j <= arcos@.len(),
            forall|f: int|
                0 <= f < frontera@.len() ==> {
                    let (a, p) = #[trigger] frontera@[f];
                    &&& a < arcos@.len()
                    &&& p < rg@.len()
                    &&& destino(arco_de(*red, rg@[p as int] as int)) == origen(
                        arco_de(*red, arcos@[a as int] as int),
                    )
                },
            forall|f: int| 0 <= f < frontera@.len() ==> (#[trigger] frontera@[f]).0 < j,
            forall|j2: int, k: int|
                #![trigger org_c(*red, arcos@, j2), rg@[k]]
                0 <= j2 < j && 0 <= k < n_raices && destino(arco_de(*red, rg@[k] as int)) == org_c(*red, arcos@, j2)
                    ==> en_frontera(frontera@, j2) && visitados@.contains(org_c(*red, arcos@, j2)),
            forall|v: V| #[trigger] visitados@.contains(v) ==> exists|f: int|
                0 <= f < frontera@.len() && org_c(*red, arcos@, (#[trigger] frontera@[f]).0 as int) == v,
        decreases arcos@.len() - j,
    {
        let inicio = origen_global(red, arcos[j]);
        let mut k: usize = 0;
        while k < n_raices && !destino_global(red, rg[k]).igual(&inicio)
            invariant
                n_raices == rg@.len(),
                k <= n_raices,
                registros_validos(*red, rg@, rp@),
                total == red.todos().len(),
                total <= usize::MAX,
                forall|k2: int| 0 <= k2 < k ==> destino(arco_de(*red, #[trigger] rg@[k2] as int)) != inicio,
            decreases n_raices - k,
        {
            k = k + 1;
        }
        let ghost fr0 = frontera@;
        let ghost vis0 = visitados@;
        if k < n_raices {
            frontera.push((j, k));
            visitados.push(inicio);
        }
        proof {
            assert(inicio == org_c(*red, arcos@, j as int));
            assert forall|j2: int, kk: int|
                #![trigger org_c(*red, arcos@, j2), rg@[kk]]
                0 <= j2 < j + 1 && 0 <= kk < n_raices && destino(arco_de(*red, rg@[kk] as int)) == org_c(*red, arcos@, j2)
                    implies en_frontera(frontera@, j2) && visitados@.contains(org_c(*red, arcos@, j2)) by {
                if j2 < j {
                    let f = choose|f: int| 0 <= f < fr0.len() && (#[trigger] fr0[f]).0 == j2;
                    assert(frontera@[f] == fr0[f]);
                    let i = choose|i: int| 0 <= i < vis0.len() && vis0[i] == org_c(*red, arcos@, j2);
                    assert(visitados@[i] == vis0[i]);
                } else {
                    assert(k < n_raices);
                    assert(frontera@[fr0.len() as int].0 == j);
                    assert(visitados@[vis0.len() as int] == inicio);
                }
            }
            assert forall|v: V| #[trigger] visitados@.contains(v) implies exists|f: int|
                0 <= f < frontera@.len() && org_c(*red, arcos@, (#[trigger] frontera@[f]).0 as int) == v by {
                let i = choose|i: int| 0 <= i < visitados@.len() && visitados@[i] == v;
                if i < vis0.len() {
                    assert(vis0[i] == v);
                    assert(vis0.contains(v));
                    let f = choose|f: int| 0 <= f < fr0.len() && org_c(*red, arcos@, (#[trigger] fr0[f]).0 as int) == v;
                    assert(frontera@[f] == fr0[f]);
                } else {
                    assert(frontera@[fr0.len() as int].0 == j);
                }
            }
            assert forall|f: int| 0 <= f < frontera@.len() implies (#[trigger] frontera@[f]).0 < j + 1 by {
                if f < fr0.len() {
                    assert(frontera@[f] == fr0[f]);
                }
            }
        }
        j = j + 1;
    }
    proof {
        assert(raices_visitadas(*red, rg@, n_raices as int, arcos@, visitados@));
        assert(pendientes_en(*red, arcos@, visitados@, frontera@)) by {
            assert forall|j2: int|
                0 <= j2 < arcos@.len() && visitados@.contains(#[trigger] org_c(*red, arcos@, j2)) && abierta(*red, arcos@, visitados@, j2)
                    implies en_frontera(frontera@, j2) by {
                let f = choose|f: int| 0 <= f < frontera@.len() && org_c(*red, arcos@, (#[trigger] frontera@[f]).0 as int) == org_c(*red, arcos@, j2);
                let (a, p) = frontera@[f];
                assert(rg@[p as int] == rg@[p as int]);
            }
        }
    }
    let mut usado: Vec<bool> = Vec::new();
    let mut j: usize = 0;
    while j < arcos.len()
        invariant
            j <= arcos@.len(),
            usado@.len() == j,
            forall|i: int| 0 <= i < j ==> !(#[trigger] usado@[i]),
        decreases arcos@.len() - j,
    {
        usado.push(false);
        j = j + 1;
    }
    let ghost mut usados: Set<int> = Set::empty();
    let mut n_usados: usize = 0;
    let mut ultima: Option<usize> = None;
    proof {
        lemma_int_range(0, arcos@.len() as int);
    }
    while frontera.len() > 0
        invariant_except_break
            ultima is None,
            pendientes_en(*red, arcos@, visitados@, frontera@),
        invariant
            registros_validos(*red, rg@, rp@),
            nf == red.fuente_spec().len(),
            total == red.todos().len(),
            total <= usize::MAX,
            registro_inyectivo(rg@, n_raices as int, nf as int, arcos@, usado@),
            forall|j1: int, j2: int| 0 <= j1 < j2 < arcos@.len() ==> #[trigger] arcos@[j1] < #[trigger] arcos@[j2],
            forall|j: int| 0 <= j < arcos@.len() ==> no_saturado(*red, #[trigger] arcos@[j] as int) && nf
                <= arcos@[j],
            forall|f: int|
                0 <= f < frontera@.len() ==> {
                    let (a, p) = #[trigger] frontera@[f];
                    &&& a < arcos@.len()
                    &&& p < rg@.len()
                    &&& destino(arco_de(*red, rg@[p as int] as int)) == origen(
                        arco_de(*red, arcos@[a as int] as int),
                    )
                },
            usado@.len() == arcos@.len(),
            forall|i: int| 0 <= i < arcos@.len() ==> (#[trigger] usado@[i] <==> usados.contains(i)),
            usados.subset_of(set_int_range(0, arcos@.len() as int)),
            set_int_range(0, arcos@.len() as int).finite(),
            set_int_range(0, arcos@.len() as int).len() == arcos@.len(),
            usados.finite(),
            usados.len() == n_usados,
            n_usados <= arcos@.len(),
            arcos@.len() <= usize::MAX,
            ultima is Some ==> ultima->0 < rg@.len() && rp@[ultima->0 as int] is Some && destino(
                arco_de(*red, rg@[ultima->0 as int] as int),
            ) == red.sumidero(),
            sumidero == red.sumidero(),
            n_raices <= rg@.len(),
            cubre_candidatos(*red, arcos@),
            cubre_raices(*red, rg@, n_raices as int),
            raices_visitadas(*red, rg@, n_raices as int, arcos@, visitados@),
            forall|j: int| 0 <= j < arcos@.len() && #[trigger] usado@[j] ==> visitados@.contains(dst_c(*red, arcos@, j)),
            ultima is None ==> forall|j: int| 0 <= j < arcos@.len() && #[trigger] usado@[j] ==> dst_c(*red, arcos@, j) != sumidero,
        ensures
            ultima is None ==> frontera@.len() == 0 && pendientes_en(*red, arcos@, visitados@, frontera@),
        decreases (arcos@.len() - n_usados) * 2 + if frontera@.len() > 0 {
            1int
        } else {
            0int
        },
    {
        let mut agregados: Vec<usize> = Vec::new();
        let n_antes = n_usados;
        let ghost inicio = visitados@;
        let mut f: usize = 0;
        while f < frontera.len()
            invariant
                registros_validos(*red, rg@, rp@),
                nf == red.fuente_spec().len(),
                total == red.todos().len(),
                registro_inyectivo(rg@, n_raices as int, nf as int, arcos@, usado@),
                forall|j1: int, j2: int| 0 <= j1 < j2 < arcos@.len() ==> #[trigger] arcos@[j1] < #[trigger] arcos@[j2],
                forall|j: int| 0 <= j < arcos@.len() ==> no_saturado(*red, #[trigger] arcos@[j] as int) && nf
                    <= arcos@[j],
                forall|f: int|
                    0 <= f < frontera@.len() ==> {
                        let (a, p) = #[trigger] frontera@[f];
                        &&& a < arcos@.len()
                        &&& p < rg@.len()
                        &&& destino(arco_de(*red, rg@[p as int] as int)) == origen(
                            arco_de(*red, arcos@[a as int] as int),
                        )
                    },
                f <= frontera@.len(),
                usado@.len() == arcos@.len(),
                forall|i: int| 0 <= i < arcos@.len() ==> (#[trigger] usado@[i] <==> usados.contains(i)),
                usados.subset_of(set_int_range(0, arcos@.len() as int)),
                set_int_range(0, arcos@.len() as int).finite(),
                set_int_range(0, arcos@.len() as int).len() == arcos@.len(),
                usados.finite(),
                usados.len() == n_usados,
                n_antes <= n_usados,
                n_usados <= arcos@.len(),
                n_usados == n_antes + agregados@.len(),
                arcos@.len() <= usize::MAX,
                forall|i: int| 0 <= i < agregados@.len() ==> (#[trigger] agregados@[i]) < rg@.len(),
                forall|i: int| 0 <= i < rg@.len() && (#[trigger] rp@[i]) is Some ==> true,
                ultima is Some ==> ultima->0 < rg@.len() && rp@[ultima->0 as int] is Some && destino(
                    arco_de(*red, rg@[ultima->0 as int] as int),
                ) == red.sumidero(),
                sumidero == red.sumidero(),
                n_raices <= rg@.len(),
                cubre_candidatos(*red, arcos@),
                cubre_raices(*red, rg@, n_raices as int),
                raices_visitadas(*red, rg@, n_raices as int, arcos@, visitados@),
                pendientes_en(*red, arcos@, inicio, frontera@),
                forall|j: int| 0 <= j < arcos@.len() && #[trigger] usado@[j] ==> visitados@.contains(dst_c(*red, arcos@, j)),
                ultima is None ==> forall|j: int| 0 <= j < arcos@.len() && #[trigger] usado@[j] ==> dst_c(*red, arcos@, j) != sumidero,
                forall|g: int| 0 <= g < f ==> visitados@.contains(dst_c(*red, arcos@, (#[trigger] frontera@[g]).0 as int)),
                ultima is None ==> forall|g: int| 0 <= g < f ==> dst_c(*red, arcos@, (#[trigger] frontera@[g]).0 as int) != sumidero,
                forall|v: V| inicio.contains(v) ==> #[trigger] visitados@.contains(v),
                forall|v: V| #[trigger] visitados@.contains(v) ==> inicio.contains(v) || exists|i: int|
                    0 <= i < agregados@.len() && destino(arco_de(*red, rg@[#[trigger] agregados@[i] as int] as int)) == v,
            decreases frontera@.len() - f,
        {
            let (a, p) = frontera[f];
            let w = destino_global(red, arcos[a]);
            let ghost vis0 = visitados@;
            let ghost rg0 = rg@;
            let ghost ag0 = agregados@;
            let ghost usado0 = usado@;
            let ghost mut registrado = false;
            if !usado[a] && ((ultima.is_none() && w.igual(&sumidero)) || !contiene_vertice(&visitados, &w)) {
                proof {
                    registrado = true;
                }
                proof {
                    assert(!usados.contains(a as int));
                    assert(usados.insert(a as int).subset_of(set_int_range(0, arcos@.len() as int)));
                    lemma_len_subset(usados.insert(a as int), set_int_range(0, arcos@.len() as int));
                    assert(usados.insert(a as int).len() == usados.len() + 1);
                    assert(n_usados + 1 <= arcos@.len());
                }
                visitados.push(w);
                rg.push(arcos[a]);
                rp.push(Some(p));
                usado.set(a, true);
                proof {
                    usados = usados.insert(a as int);
                }
                n_usados = n_usados + 1;
                agregados.push(rg.len() - 1);
                if w.igual(&sumidero) {
                    ultima = Some(rg.len() - 1);
                }
                proof {
                    let n = rg@.len() - 1;
                    assert(rg@[n] == arcos@[a as int]);
                    assert forall|k: int| 0 <= k < rg@.len() implies no_saturado(*red, #[trigger] rg@[k] as int) by {
                        if k < n {
                            assert(rg@[k] == rg@.drop_last()[k]);
                        }
                    }
                    assert(registros_validos(*red, rg@, rp@));
                    assert(registro_inyectivo(rg@, n_raices as int, nf as int, arcos@, usado@)) by {
                        assert forall|r1: int, r2: int| 0 <= r1 < r2 < rg@.len() implies #[trigger] rg@[r1] != #[trigger] rg@[r2] by {
                            if r2 == n {
                                assert(rg@[r1] == rg0[r1]);
                                if r1 >= n_raices {
                                    let a2 = choose|a2: int| 0 <= a2 < arcos@.len() && usado0[a2] && arcos@[a2] == #[trigger] rg0[r1];
                                    assert(a2 != a);
                                    if a2 < a {
                                        assert(arcos@[a2] < arcos@[a as int]);
                                    } else {
                                        assert(arcos@[a as int] < arcos@[a2]);
                                    }
                                }
                            } else {
                                assert(rg@[r1] == rg0[r1] && rg@[r2] == rg0[r2]);
                            }
                        }
                        assert forall|r: int| 0 <= r < n_raices implies #[trigger] rg@[r] < nf by {
                            assert(rg@[r] == rg0[r]);
                        }
                        assert forall|r: int| n_raices <= r < rg@.len() implies exists|a2: int|
                            0 <= a2 < arcos@.len() && usado@[a2] && arcos@[a2] == #[trigger] rg@[r] by {
                            if r < n {
                                assert(rg@[r] == rg0[r]);
                                let a2 = choose|a2: int| 0 <= a2 < arcos@.len() && usado0[a2] && arcos@[a2] == #[trigger] rg0[r];
                                assert(usado@[a2]);
                            } else {
                                assert(usado@[a as int]);
                            }
                        }
                    }
                }
            }
            proof {
                assert(w == dst_c(*red, arcos@, a as int));
                if !registrado {
                    assert(rg@ == rg0 && agregados@ == ag0 && usado@ == usado0 && visitados@ == vis0);
                    if !vis0.contains(w) || (w == sumidero && ultima is None) {
                        assert(usado0[a as int]);
                    }
                } else {
                    assert(visitados@ == vis0.push(w));
                    assert(rg@ == rg0.push(arcos@[a as int]));
                    assert(agregados@ == ag0.push((rg@.len() - 1) as usize));
                    assert(usado@ == usado0.update(a as int, true));
                    assert(visitados@[vis0.len() as int] == w);
                    assert forall|v: V| vis0.contains(v) implies #[trigger] visitados@.contains(v) by {
                        let i = choose|i: int| 0 <= i < vis0.len() && vis0[i] == v;
                        assert(visitados@[i] == v);
                    }
                    assert forall|g: int|
                        0 <= g < red.fuente_spec().len() && #[trigger] no_saturado(*red, g) implies exists|k: int|
                            0 <= k < n_raices && rg@[k] == g by {
                        let k = choose|k: int| 0 <= k < n_raices && rg0[k] == g;
                        assert(rg@[k] == rg0[k]);
                    }
                    assert forall|j: int, k: int|
                        #![trigger org_c(*red, arcos@, j), rg@[k]]
                        0 <= j < arcos@.len() && 0 <= k < n_raices && destino(arco_de(*red, rg@[k] as int)) == org_c(*red, arcos@, j)
                            implies visitados@.contains(org_c(*red, arcos@, j)) by {
                        assert(rg@[k] == rg0[k]);
                        assert(vis0.contains(org_c(*red, arcos@, j)));
                    }
                    assert forall|j: int| 0 <= j < arcos@.len() && #[trigger] usado@[j] implies visitados@.contains(dst_c(*red, arcos@, j)) by {
                        if j != a {
                            assert(usado0[j]);
                        }
                    }
                    assert forall|v: V| #[trigger] visitados@.contains(v) implies inicio.contains(v) || exists|i: int|
                        0 <= i < agregados@.len() && destino(arco_de(*red, rg@[#[trigger] agregados@[i] as int] as int)) == v by {
                        let i0 = choose|i0: int| 0 <= i0 < visitados@.len() && visitados@[i0] == v;
                        if i0 < vis0.len() {
                            assert(vis0[i0] == v);
                            assert(vis0.contains(v));
                            if !inicio.contains(v) {
                                let i = choose|i: int| 0 <= i < ag0.len() && destino(arco_de(*red, rg0[#[trigger] ag0[i] as int] as int)) == v;
                                assert(agregados@[i] == ag0[i]);
                                assert(rg@[ag0[i] as int] == rg0[ag0[i] as int]);
                            }
                        } else {
                            let i = ag0.len() as int;
                            assert(agregados@[i] == (rg@.len() - 1) as usize);
                            assert(rg@[rg@.len() - 1] == arcos@[a as int]);
                        }
                    }
                }
                assert(visitados@.contains(w));
                assert forall|g: int| 0 <= g < f + 1 implies visitados@.contains(dst_c(*red, arcos@, (#[trigger] frontera@[g]).0 as int)) by {
                    if g < f {
                        assert(vis0.contains(dst_c(*red, arcos@, frontera@[g].0 as int)));
                    }
                }
                if ultima is None {
                    assert forall|j: int| 0 <= j < arcos@.len() && #[trigger] usado@[j] implies dst_c(*red, arcos@, j) != sumidero by {
                        if j != a {
                            assert(usado0[j]);
                        }
                    }
                    assert forall|g: int| 0 <= g < f + 1 implies dst_c(*red, arcos@, (#[trigger] frontera@[g]).0 as int) != sumidero by {
                        if g == f {
                            if usado0[a as int] {
                                assert(usado@[a as int]);
                            }
                        }
                    }
                }
            }
            f = f + 1;
        }
        if ultima.is_some() {
            break;
        }
        let mut nuevas: Vec<(usize, usize)> = Vec::new();
        let mut i: usize = 0;
        while i < agregados.len()
            invariant
                registros_validos(*red, rg@, rp@),
                total == red.todos().len(),
                forall|j: int| 0 <= j < arcos@.len() ==> no_saturado(*red, #[trigger] arcos@[j] as int) && nf
                    <= arcos@[j],
                forall|i: int| 0 <= i < agregados@.len() ==> (#[trigger] agregados@[i]) < rg@.len(),
                usado@.len() == arcos@.len(),
                i <= agregados@.len(),
                agregados@.len() == 0 ==> nuevas@.len() == 0,
                forall|j: int| 0 <= j < arcos@.len() && #[trigger] usado@[j] ==> visitados@.contains(dst_c(*red, arcos@, j)),
                forall|i2: int, j2: int|
                    #![trigger agregados@[i2], org_c(*red, arcos@, j2)]
                    0 <= i2 < i && 0 <= j2 < arcos@.len() && org_c(*red, arcos@, j2) == destino(arco_de(*red, rg@[agregados@[i2] as int] as int))
                        && abierta(*red, arcos@, visitados@, j2) ==> en_frontera(nuevas@, j2),
                forall|j: int| 0 <= j < arcos@.len() && #[trigger] usado@[j] ==> dst_c(*red, arcos@, j) != sumidero,
                sumidero == red.sumidero(),
                forall|f: int|
                    0 <= f < nuevas@.len() ==> {
                        let (a, p) = #[trigger] nuevas@[f];
                        &&& a < arcos@.len()
                        &&& p < rg@.len()
                        &&& destino(arco_de(*red, rg@[p as int] as int)) == origen(
                            arco_de(*red, arcos@[a as int] as int),
                        )
                    },
            decreases agregados@.len() - i,
        {
            let k = agregados[i];
            let w = destino_global(red, rg[k]);
            let ghost antes_i = nuevas@;
            let mut j: usize = 0;
            while j < arcos.len()
                invariant
                    registros_validos(*red, rg@, rp@),
                    total == red.todos().len(),
                    forall|j: int| 0 <= j < arcos@.len() ==> no_saturado(*red, #[trigger] arcos@[j] as int) && nf
                        <= arcos@[j],
                    k < rg@.len(),
                    w == destino(arco_de(*red, rg@[k as int] as int)),
                    usado@.len() == arcos@.len(),
                    j <= arcos@.len(),
                    agregados@.len() > 0,
                    forall|j: int| 0 <= j < arcos@.len() && #[trigger] usado@[j] ==> visitados@.contains(dst_c(*red, arcos@, j)),
                    forall|j2: int| 0 <= j2 < antes_i.len() ==> nuevas@[j2] == antes_i[j2],
                    antes_i.len() <= nuevas@.len(),
                    forall|j2: int|
                        0 <= j2 < j && org_c(*red, arcos@, j2) == w && #[trigger] abierta(*red, arcos@, visitados@, j2)
                            ==> en_frontera(nuevas@, j2),
                    forall|j: int| 0 <= j < arcos@.len() && #[trigger] usado@[j] ==> dst_c(*red, arcos@, j) != sumidero,
                    sumidero == red.sumidero(),
                    forall|f: int|
                        0 <= f < nuevas@.len() ==> {
                            let (a, p) = #[trigger] nuevas@[f];
                            &&& a < arcos@.len()
                            &&& p < rg@.len()
                            &&& destino(arco_de(*red, rg@[p as int] as int)) == origen(
                                arco_de(*red, arcos@[a as int] as int),
                            )
                        },
                decreases arcos@.len() - j,
            {
                let flujo = red.flujo_global(arcos[j]);
                let arco = flujo.get_arco();
                let ghost previa = nuevas@;
                if origen_de(arco).igual(&w) && !usado[j] && (destino_de(arco).igual(&sumidero) || !contiene_vertice(
                    &visitados,
                    &destino_de(arco),
                )) {
                    nuevas.push((j, k));
                }
                proof {
                    assert(*arco == arco_de(*red, arcos@[j as int] as int));
                    assert forall|j2: int|
                        0 <= j2 < j + 1 && org_c(*red, arcos@, j2) == w && abierta(*red, arcos@, visitados@, j2)
                            implies en_frontera(nuevas@, j2) by {
                        if j2 < j {
                            let g = choose|g: int| 0 <= g < previa.len() && (#[trigger] previa[g]).0 == j2;
                            assert(nuevas@[g] == previa[g]);
                        } else {
                            assert(!usado@[j as int]);
                            assert(nuevas@[previa.len() as int].0 == j);
                        }
                    }
                }
                j = j + 1;
            }
            proof {
                assert forall|i2: int, j2: int|
                    #![trigger agregados@[i2], org_c(*red, arcos@, j2)]
                    0 <= i2 < i + 1 && 0 <= j2 < arcos@.len() && org_c(*red, arcos@, j2) == destino(arco_de(*red, rg@[agregados@[i2] as int] as int))
                        && abierta(*red, arcos@, visitados@, j2) implies en_frontera(nuevas@, j2) by {
                    if i2 < i {
                        assert(en_frontera(antes_i, j2));
                        let g = choose|g: int| 0 <= g < antes_i.len() && (#[trigger] antes_i[g]).0 == j2;
                        assert(nuevas@[g] == antes_i[g]);
                    } else {
                        assert(dst_c(*red, arcos@, j2) == dst_c(*red, arcos@, j2));
                    }
                }
            }
            i = i + 1;
        }
        proof {
            assert forall|j2: int|
                0 <= j2 < arcos@.len() && visitados@.contains(#[trigger] org_c(*red, arcos@, j2)) && abierta(*red, arcos@, visitados@, j2)
                    implies en_frontera(nuevas@, j2) by {
                let o = org_c(*red, arcos@, j2);
                if inicio.contains(o) {
                    assert(abierta(*red, arcos@, inicio, j2));
                    assert(en_frontera(frontera@, j2));
                    let g = choose|g: int| 0 <= g < frontera@.len() && (#[trigger] frontera@[g]).0 == j2;
                    assert(visitados@.contains(dst_c(*red, arcos@, frontera@[g].0 as int)));
                    assert(dst_c(*red, arcos@, frontera@[g].0 as int) != sumidero);
                } else {
                    let i2 = choose|i2: int|
                        0 <= i2 < agregados@.len() && destino(arco_de(*red, rg@[#[trigger] agregados@[i2] as int] as int)) == o;
                    assert(org_c(*red, arcos@, j2) == destino(arco_de(*red, rg@[agregados@[i2] as int] as int)));
                }
            }
        }
        frontera = nuevas;
    }
    match ultima {
        Some(u) => Some(deshilar(red, &rg, &rp, u)),
        None => {
            proof {
                assert forall|j2: int| 0 <= j2 < arcos@.len() && visitados@.contains(#[trigger] org_c(*red, arcos@, j2)) implies visitados@.contains(
                    dst_c(*red, arcos@, j2),
                ) && dst_c(*red, arcos@, j2) != red.sumidero() by {
                    if abierta(*red, arcos@, visitados@, j2) {
                        assert(en_frontera(frontera@, j2));
                        let g = choose|g: int| 0 <= g < frontera@.len() && (#[trigger] frontera@[g]).0 == j2;
                    }
                }
                assert forall|c: Seq<usize>| !#[trigger] camino_aumento(*red, c) by {
                    lema_completo(*red, rg@, n_raices as int, arcos@, visitados@, c);
                }
            }
            None
        },
    }
}

/// Searches the network breadth-first, over unsaturated arcs only, for a
/// path from the source to the sink: it starts from the source arcs and stops
/// at the first arc that reaches the sink. Gives the arcs of the path;
/// `None` means that no augmenting path exists.
pub fn encontrar_camino_aumento<V: VerticeT, P: PesoT>(red: &Red<V, P>) -> (r: Option<
    Vec<Diarista<V, P>>,
>)
    requires
        red.wf(),
    ensures
        r is Some ==> exists|c: Seq<usize>|
            #[trigger] camino_aumento(*red, c) && r->0@ == c.map_values(
                |g: usize| arco_de(*red, g as int),
            ),
        r is None ==> forall|c: Seq<usize>| !#[trigger] camino_aumento(*red, c),
{
    match buscar_camino(red) {
        Some(c) => {
            let mut arcos: Vec<Diarista<V, P>> = Vec::new();
            let mut i: usize = 0;
            while i < c.len()
                invariant
                    red.wf(),
                    camino_aumento(*red, c@),
                    i <= c@.len(),
                    arcos@ == c@.take(i as int).map_values(|g: usize| arco_de(*red, g as int)),
                decreases c@.len() - i,
            {
                let f = red.flujo_global(c[i]);
                arcos.push(*f.get_arco());
                i = i + 1;
                proof {
                    assert(arcos@ =~= c@.take(i as int).map_values(|g: usize| arco_de(*red, g as int)));
                }
            }
            proof {
                assert(c@.take(i as int) =~= c@);
            }
            Some(arcos)
        },
        None => None,
    }
}

/// Whether `red2` differs from `red1` at most in values of flows, each one no
/// smaller than before.
pub open spec fn crece<V: VerticeT, P: PesoT>(red1: Red<V, P>, red2: Red<V, P>) -> bool {
    &&& red2.todos().len() == red1.todos().len()
    &&& red2.fuente_spec().len() == red1.fuente_spec().len()
    &&& red2.interior_spec().len() == red1.interior_spec().len()
    &&& red2.fuente() == red1.fuente()
    &&& red2.sumidero() == red1.sumidero()
    &&& forall|g: int|
        0 <= g < red1.todos().len() ==> {
            &&& (#[trigger] red2.todos()[g]).arco_spec() == red1.todos()[g].arco_spec()
            &&& red2.todos()[g].capacidad_spec() == red1.todos()[g].capacidad_spec()
            &&& red2.todos()[g].valor_spec() >= red1.todos()[g].valor_spec()
        }
}

/// Sum of the values of the flows of `s` whose arc ends at `v`.
pub open spec fn entra<V: VerticeT, P: PesoT>(s: Seq<Flujo<V, P>>, v: V) -> int
    decreases s.len(),
{
    if s.len() == 0 {
        0
    } else {
        entra(s.drop_last(), v) + if destino(s.last().arco_spec()) == v {
            s.last().valor_spec() as int
        } else {
            0
        }
    }
}

/// Sum of the values of the flows of `s` whose arc starts at `v`.
pub open spec fn sale<V: VerticeT, P: PesoT>(s: Seq<Flujo<V, P>>, v: V) -> int
    decreases s.len(),
{
    if s.len() == 0 {
        0
    } else {
        sale(s.drop_last(), v) + if origen(s.last().arco_spec()) == v {
            s.last().valor_spec() as int
        } else {
            0
        }
    }
}

/// How many arcs of the path `c` end at `v`.
pub open spec fn llegan<V: VerticeT, P: PesoT>(red: Red<V, P>, c: Seq<usize>, v: V) -> int
    decreases c.len(),
{
    if c.len() == 0 {
        0
    } else {
        llegan(red, c.drop_last(), v) + if destino(arco_de(red, c.last() as int)) == v {
            1int
        } else {
            0int
        }
    }
}

/// How many arcs of the path `c` start at `v`.
pub open spec fn parten<V: VerticeT, P: PesoT>(red: Red<V, P>, c: Seq<usize>, v: V) -> int
    decreases c.len(),
{
    if c.len() == 0 {
        0
    } else {
        parten(red, c.drop_last(), v) + if origen(arco_de(red, c.last() as int)) == v {
            1int
        } else {
            0int
        }
    }
}

proof fn lema_entra_update<V: VerticeT, P: PesoT>(s: Seq<Flujo<V, P>>, i: int, x: Flujo<V, P>, v: V)
    requires
        0 <= i < s.len(),
        x.arco_spec() == s[i].arco_spec(),
    ensures
        entra(s.update(i, x), v) == entra(s, v) + if destino(x.arco_spec()) == v {
            x.valor_spec() - s[i].valor_spec()
        } else {
            0
        },
        sale(s.update(i, x), v) == sale(s, v) + if origen(x.arco_spec()) == v {
            x.valor_spec() - s[i].valor_spec()
        } else {
            0
        },
    decreases s.len(),
{
    if i < s.len() - 1 {
        assert(s.update(i, x).drop_last() =~= s.drop_last().update(i, x));
        lema_entra_update(s.drop_last(), i, x, v);
    } else {
        assert(s.update(i, x).drop_last() =~= s.drop_last());
    }
}

proof fn lema_cadena<V: VerticeT, P: PesoT>(red: Red<V, P>, c: Seq<usize>, v: V)
    requires
        c.len() >= 1,
        forall|k: int| 0 <= k < c.len() - 1 ==> destino(arco_de(red, #[trigger] c[k] as int)) == origen(arco_de(red, c[k + 1] as int)),
    ensures
        llegan(red, c, v) - parten(red, c, v) == (if destino(arco_de(red, c.last() as int)) == v {
            1int
        } else {
            0int
        }) - (if origen(arco_de(red, c[0] as int)) == v {
            1int
        } else {
            0int
        }),
    decreases c.len(),
{
    if c.len() > 1 {
        let d = c.drop_last();
        assert forall|k: int| 0 <= k < d.len() - 1 implies destino(arco_de(red, #[trigger] d[k] as int)) == origen(
            arco_de(red, d[k + 1] as int),
        ) by {
            assert(d[k] == c[k] && d[k + 1] == c[k + 1]);
        }
        lema_cadena(red, d, v);
        assert(d.last() == c[c.len() - 2]);
        assert(d[0] == c[0]);
        assert(destino(arco_de(red, c[c.len() - 2] as int)) == origen(arco_de(red, c[c.len() - 1] as int)));
        assert(llegan(red, c, v) == llegan(red, d, v) + if destino(arco_de(red, c.last() as int)) == v {
            1int
        } else {
            0int
        });
        assert(parten(red, c, v) == parten(red, d, v) + if origen(arco_de(red, c.last() as int)) == v {
            1int
        } else {
            0int
        });
    } else {
        assert(c.drop_last() =~= Seq::<usize>::empty());
        assert(llegan(red, c.drop_last(), v) == 0);
        assert(parten(red, c.drop_last(), v) == 0);
        assert(c.last() == c[0]);
    }
}

/// One round of augmentation keeps the balance of every vertex other than
/// the source and the sink, and adds to the network value what it adds to
/// the net inflow of the sink.
proof fn lema_ronda<V: VerticeT, P: PesoT>(inicial: Red<V, P>, antes: Red<V, P>, red: Red<V, P>, c: Seq<usize>, aumento: int)
    requires
        antes.wf(),
        camino_aumento(antes, c),
        antes.fuente() == inicial.fuente(),
        antes.sumidero() == inicial.sumidero(),
        antes.todos()[c[0] as int] == antes.fuente_spec()[c[0] as int],
        red.todos()[c[0] as int] == red.fuente_spec()[c[0] as int],
        red.fuente_spec() == antes.fuente_spec().update(c[0] as int, red.todos()[c[0] as int]),
        red.todos()[c[0] as int].valor_spec() == antes.todos()[c[0] as int].valor_spec() + aumento,
        forall|v: V| #[trigger] entra(red.todos(), v) == entra(antes.todos(), v) + aumento * llegan(antes, c, v),
        forall|v: V| #[trigger] sale(red.todos(), v) == sale(antes.todos(), v) + aumento * parten(antes, c, v),
        forall|v: V|
            v != inicial.fuente() && v != inicial.sumidero() ==> #[trigger] entra(antes.todos(), v) - sale(antes.todos(), v)
                == entra(inicial.todos(), v) - sale(inicial.todos(), v),
        inicial.fuente() != inicial.sumidero() ==> suma_valores(antes.fuente_spec()) - suma_valores(inicial.fuente_spec())
            == (entra(antes.todos(), inicial.sumidero()) - sale(antes.todos(), inicial.sumidero())) - (entra(
            inicial.todos(),
            inicial.sumidero(),
        ) - sale(inicial.todos(), inicial.sumidero())),
    ensures
        forall|v: V|
            v != inicial.fuente() && v != inicial.sumidero() ==> #[trigger] entra(red.todos(), v) - sale(red.todos(), v)
                == entra(inicial.todos(), v) - sale(inicial.todos(), v),
        inicial.fuente() != inicial.sumidero() ==> suma_valores(red.fuente_spec()) - suma_valores(inicial.fuente_spec())
            == (entra(red.todos(), inicial.sumidero()) - sale(red.todos(), inicial.sumidero())) - (entra(
            inicial.todos(),
            inicial.sumidero(),
        ) - sale(inicial.todos(), inicial.sumidero())),
{
    assert(origen(arco_de(antes, c[0] as int)) == antes.fuente());
    assert forall|v: V|
        v != inicial.fuente() && v != inicial.sumidero() implies #[trigger] entra(red.todos(), v) - sale(red.todos(), v)
            == entra(inicial.todos(), v) - sale(inicial.todos(), v) by {
        lema_cadena(antes, c, v);
        lema_mul_resta(aumento, llegan(antes, c, v), parten(antes, c, v));
    }
    if inicial.fuente() != inicial.sumidero() {
        let t = inicial.sumidero();
        lema_cadena(antes, c, t);
        lema_mul_resta(aumento, llegan(antes, c, t), parten(antes, c, t));
        lema_valores_update(antes.fuente_spec(), c[0] as int, red.todos()[c[0] as int]);
        assert(destino(arco_de(antes, c.last() as int)) == t);
        assert(llegan(antes, c, t) - parten(antes, c, t) == 1);
        let dif = llegan(antes, c, t) - parten(antes, c, t);
        assert(aumento * dif == aumento) by (nonlinear_arith)
            requires
                dif == 1,
        ;
        assert(entra(red.todos(), t) - sale(red.todos(), t) == entra(antes.todos(), t) - sale(antes.todos(), t) + aumento);
        assert(suma_valores(red.fuente_spec()) == suma_valores(antes.fuente_spec()) + aumento);
    }
}

proof fn lema_valores_update<V: VerticeT, P: PesoT>(s: Seq<Flujo<V, P>>, i: int, x: Flujo<V, P>)
    requires
        0 <= i < s.len(),
    ensures
        suma_valores(s.update(i, x)) == suma_valores(s) - s[i].valor_spec() + x.valor_spec(),
    decreases s.len(),
{
    if i < s.len() - 1 {
        assert(s.update(i, x).drop_last() =~= s.drop_last().update(i, x));
        lema_valores_update(s.drop_last(), i, x);
    } else {
        assert(s.update(i, x).drop_last() =~= s.drop_last());
    }
}

proof fn lema_mul_mas_uno(a: int, l: int)
    ensures
        a * (l + 1) == a * l + a,
{
    assert(a * (l + 1) == a * l + a) by (nonlinear_arith);
}

proof fn lema_mul_resta(a: int, x: int, y: int)
    ensures
        a * x - a * y == a * (x - y),
{
    assert(a * x - a * y == a * (x - y)) by (nonlinear_arith);
}

/// Pushes flow along augmenting paths until the search finds none: each
/// round adds the smallest residual capacity of the path to every arc of it.
///
/// Only forward arcs are used; no flow is ever cancelled, so this is a
/// maximum flow for networks that never need to send flow back. On return no
/// augmenting path of unsaturated forward arcs is left.
pub fn maximizar_flujo<V: VerticeT, P: PesoT>(red: &mut Red<V, P>)
    requires
        old(red).wf(),
    ensures
        final(red).wf(),
        crece(*old(red), *final(red)),
        forall|c: Seq<usize>| !#[trigger] camino_aumento(*final(red), c),
        forall|v: V|
            v != old(red).fuente() && v != old(red).sumidero() ==> entra(final(red).todos(), v) - sale(final(red).todos(), v)
                == entra(old(red).todos(), v) - sale(old(red).todos(), v),
        old(red).fuente() != old(red).sumidero() ==> suma_valores(final(red).fuente_spec()) - suma_valores(
            old(red).fuente_spec(),
        ) == (entra(final(red).todos(), old(red).sumidero()) - sale(final(red).todos(), old(red).sumidero())) - (entra(
            old(red).todos(),
            old(red).sumidero(),
        ) - sale(old(red).todos(), old(red).sumidero())),
{
    proof {
        lema_restante_no_negativo(red.fuente_spec(), *red);
    }
    loop
        invariant
            red.wf(),
            crece(*old(red), *red),
            suma_restante(red.fuente_spec()) >= 0,
            forall|v: V|
                v != old(red).fuente() && v != old(red).sumidero() ==> #[trigger] entra(red.todos(), v) - sale(red.todos(), v)
                    == entra(old(red).todos(), v) - sale(old(red).todos(), v),
            old(red).fuente() != old(red).sumidero() ==> suma_valores(red.fuente_spec()) - suma_valores(old(red).fuente_spec())
                == (entra(red.todos(), old(red).sumidero()) - sale(red.todos(), old(red).sumidero())) - (entra(
                old(red).todos(),
                old(red).sumidero(),
            ) - sale(old(red).todos(), old(red).sumidero())),
        ensures
            forall|c: Seq<usize>| !#[trigger] camino_aumento(*red, c),
        decreases suma_restante(red.fuente_spec()),
    {
        let c = match buscar_camino(red) {
            Some(c) => c,
            None => {
                break;
            },
        };
        let ghost antes = *red;
        // The bottleneck: the smallest residual capacity along the path.
        let mut aumento: u64 = red.flujo_global(c[0]).get_valor_restante();
        let mut i: usize = 1;
        while i < c.len()
            invariant
                red.wf(),
                camino_aumento(*red, c@),
                1 <= i <= c@.len(),
                1 <= aumento <= red.todos()[c@[0] as int].capacidad_spec() - red.todos()[c@[0] as int].valor_spec(),
                forall|j: int| 0 <= j < i ==> aumento <= red.todos()[#[trigger] c@[j] as int].capacidad_spec() - red.todos()[c@[j] as int].valor_spec(),
            decreases c@.len() - i,
        {
            let f = red.flujo_global(c[i]);
            let restante = f.get_valor_restante();
            if restante < aumento {
                aumento = restante;
            }
            i = i + 1;
        }
        let mut i: usize = 0;
        while i < c.len()
            invariant
                red.wf(),
                camino_aumento(antes, c@),
                crece(antes, *red),
                crece(*old(red), *red),
                antes.wf(),
                1 <= aumento <= antes.todos()[c@[0] as int].capacidad_spec() - antes.todos()[c@[0] as int].valor_spec(),
                i <= c@.len(),
                i == 0 ==> red.fuente_spec() == antes.fuente_spec(),
                i > 0 ==> red.fuente_spec() == antes.fuente_spec().update(
                    c@[0] as int,
                    red.todos()[c@[0] as int],
                ),
                i > 0 ==> red.todos()[c@[0] as int].valor_spec() == antes.todos()[c@[0] as int].valor_spec() + aumento,
                c@.no_duplicates(),
                forall|j: int| 0 <= j < c@.len() ==> aumento <= antes.todos()[#[trigger] c@[j] as int].capacidad_spec() - antes.todos()[c@[j] as int].valor_spec(),
                forall|j: int| i <= j < c@.len() ==> red.todos()[#[trigger] c@[j] as int] == antes.todos()[c@[j] as int],
                red.todos().len() == antes.todos().len(),
                forall|v: V| #[trigger] entra(red.todos(), v) == entra(antes.todos(), v) + aumento * llegan(antes, c@.take(i as int), v),
                forall|v: V| #[trigger] sale(red.todos(), v) == sale(antes.todos(), v) + aumento * parten(antes, c@.take(i as int), v),
            decreases c@.len() - i,
        {
            let g = c[i];
            let f = red.flujo_global(g);
            let ghost previo = *red;
            proof {
                assert(red.todos()[c@[i as int] as int] == antes.todos()[c@[i as int] as int]);
            }
            if f.get_valor_restante() >= aumento {
                red.set_valor_global(g, f.get_valor() + aumento);
            }
            proof {
                let x = red.todos()[g as int];
                assert(red.todos() == previo.todos().update(g as int, x));
                assert(x.valor_spec() == previo.todos()[g as int].valor_spec() + aumento);
                assert(x.arco_spec() == previo.todos()[g as int].arco_spec());
                assert(c@.take(i as int + 1).drop_last() =~= c@.take(i as int));
                assert forall|v: V| #[trigger] entra(red.todos(), v) == entra(antes.todos(), v) + aumento * llegan(
                    antes,
                    c@.take(i as int + 1),
                    v,
                ) by {
                    lema_entra_update(previo.todos(), g as int, x, v);
                    lema_mul_mas_uno(aumento as int, llegan(antes, c@.take(i as int), v));
                    assert(arco_de(antes, g as int) == previo.todos()[g as int].arco_spec());
                }
                assert forall|v: V| #[trigger] sale(red.todos(), v) == sale(antes.todos(), v) + aumento * parten(
                    antes,
                    c@.take(i as int + 1),
                    v,
                ) by {
                    lema_entra_update(previo.todos(), g as int, x, v);
                    lema_mul_mas_uno(aumento as int, parten(antes, c@.take(i as int), v));
                    assert(arco_de(antes, g as int) == previo.todos()[g as int].arco_spec());
                }
                assert forall|j: int| i + 1 <= j < c@.len() implies red.todos()[#[trigger] c@[j] as int] == antes.todos()[c@[j] as int] by {
                    assert(c@[j] != c@[i as int]);
                }
                assert forall|h: int| 0 <= h < antes.todos().len() implies {
                    &&& (#[trigger] red.todos()[h]).arco_spec() == antes.todos()[h].arco_spec()
                    &&& red.todos()[h].capacidad_spec() == antes.todos()[h].capacidad_spec()
                    &&& red.todos()[h].valor_spec() >= antes.todos()[h].valor_spec()
                } by {
                    assert(red.todos()[h].valor_spec() >= previo.todos()[h].valor_spec());
                }
                assert(red.fuente_spec()[0].arco_spec() == previo.fuente_spec()[0].arco_spec()) by {
                    assert(red.todos()[0] == red.fuente_spec()[0]);
                    assert(previo.todos()[0] == previo.fuente_spec()[0]);
                }
                assert(red.sumidero_spec()[0].arco_spec() == previo.sumidero_spec()[0].arco_spec()) by {
                    let k = (previo.fuente_spec().len() + previo.interior_spec().len()) as int;
                    assert(red.todos()[k] == red.sumidero_spec()[0]);
                    assert(previo.todos()[k] == previo.sumidero_spec()[0]);
                }
                if i == 0 {
                    assert(c@[0] < antes.fuente_spec().len());
                } else {
                    assert(c@[i as int] >= antes.fuente_spec().len());
                }
            }
            i = i + 1;
        }
        proof {
            assert(c@.take(c@.len() as int) =~= c@);
            assert(antes.todos()[c@[0] as int] == antes.fuente_spec()[c@[0] as int]);
            assert(red.todos()[c@[0] as int] == red.fuente_spec()[c@[0] as int]);
            lema_ronda(*old(red), antes, *red, c@, aumento as int);
            lema_restante_update(antes.fuente_spec(), c@[0] as int, red.todos()[c@[0] as int]);
            assert(red.todos()[c@[0] as int] == red.fuente_spec()[c@[0] as int]);
            lema_restante_no_negativo(red.fuente_spec(), *red);
        }
    }
}

/// How the total residual capacity changes when one flow is replaced.
pub proof fn lema_restante_update<V: VerticeT, P: PesoT>(s: Seq<Flujo<V, P>>, i: int, x: Flujo<V, P>)
    requires
        0 <= i < s.len(),
    ensures
        suma_restante(s.update(i, x)) == suma_restante(s) - (s[i].capacidad_spec() - s[i].valor_spec())
            + (x.capacidad_spec() - x.valor_spec()),
    decreases s.len(),
{
    if i < s.len() - 1 {
        assert(s.update(i, x).drop_last() =~= s.drop_last().update(i, x));
        lema_restante_update(s.drop_last(), i, x);
    } else {
        assert(s.update(i, x).drop_last() =~= s.drop_last());
    }
}

/// The total residual capacity of the source arcs of a well-formed network
/// is non-negative.
pub proof fn lema_restante_no_negativo<V: VerticeT, P: PesoT>(s: Seq<Flujo<V, P>>, red: Red<V, P>)
    requires
        red.wf(),
        s == red.fuente_spec(),
    ensures
        suma_restante(s) >= 0,
{
    assert forall|i: int| 0 <= i < s.len() implies (#[trigger] s[i]).wf() by {
        assert(red.todos()[i] == s[i]);
    }
    lema_restante_prefijo(s);
}

proof fn lema_restante_prefijo<V: VerticeT, P: PesoT>(s: Seq<Flujo<V, P>>)
    requires
        forall|i: int| 0 <= i < s.len() ==> (#[trigger] s[i]).wf(),
    ensures
        suma_restante(s) >= 0,
    decreases s.len(),
{
    if s.len() > 0 {
        assert(s[s.len() - 1].wf());
        lema_restante_prefijo(s.drop_last());
    }
}

/// The first endpoint of the arc of the flow at global index `g`.
fn origen_global<V: VerticeT, P: PesoT>(red: &Red<V, P>, g: usize) -> (r: V)
    requires
        g < red.todos().len(),
        red.todos().len() <= usize::MAX,
    ensures
        r == origen(arco_de(*red, g as int)),
{
    let f = red.flujo_global(g);
    origen_de(f.get_arco())
}

/// The second endpoint of the arc of the flow at global index `g`.
fn destino_global<V: VerticeT, P: PesoT>(red: &Red<V, P>, g: usize) -> (r: V)
    requires
        g < red.todos().len(),
        red.todos().len() <= usize::MAX,
    ensures
        r == destino(arco_de(*red, g as int)),
{
    let f = red.flujo_global(g);
    destino_de(f.get_arco())
}

/// The first endpoint of an arc.
fn origen_de<V: VerticeT, P: PesoT>(d: &Diarista<V, P>) -> (r: V)
    ensures
        r == origen(*d),
{
    match d {
        Diarista::Diarista(u, _, _) => *u,
        Diarista::VerticeAislado(u) => *u,
    }
}

/// The second endpoint of an arc.
fn destino_de<V: VerticeT, P: PesoT>(d: &Diarista<V, P>) -> (r: V)
    ensures
        r == destino(*d),
{
    match d {
        Diarista::Diarista(_, w, _) => *w,
        Diarista::VerticeAislado(w) => *w,
    }
}

} // verus!
