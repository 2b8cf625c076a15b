use vstd::prelude::*;

use crate::arbol::Arbol;
use crate::camino_minimo::{arco_de, camino_sin_pesos};
use crate::arista::Arista;
use crate::arista_t::{contiene, otro_extremo, valor_opcional, AristaT};
use crate::etiquetado::{vertices_etiquetados, Etiqueta, Etiquetado};
use crate::grafo::Grafo;
use crate::grafo_t::{anadir, con_nuevo, esta_vertice, tiene_vertice, toca, vertices_de, GrafoT};
use crate::peso::PesoT;
use crate::vertice::{contiene_vertice, VerticeT};

verus! {

/// The vertices reached from `raiz` through the edges of `t`.
pub open spec fn alcanzados<V: VerticeT, P: PesoT, A: AristaT<V, P>>(raiz: V, t: Seq<A>) -> Set<V>
    decreases t.len(),
{
    if t.len() == 0 {
        set![raiz]
    } else {
        let r = alcanzados(raiz, t.drop_last());
        match t.last().extremos() {
            Some((a, b)) => r.insert(a).insert(b),
            None => r,
        }
    }
}

/// Whether `t` grows a tree from `raiz`: each edge is live and joins a vertex
/// already reached by the earlier edges to one not yet reached. Such a list
/// is acyclic and connects every vertex it reaches to `raiz`.
pub open spec fn arbol_desde<V: VerticeT, P: PesoT, A: AristaT<V, P>>(raiz: V, t: Seq<A>) -> bool
    decreases t.len(),
{
    if t.len() == 0 {
        true
    } else {
        let r = alcanzados(raiz, t.drop_last());
        &&& arbol_desde(raiz, t.drop_last())
        &&& match t.last().extremos() {
            Some((a, b)) => r.contains(a) != r.contains(b),
            None => false,
        }
    }
}

/// Whether every edge of `t` is an edge of `s`.
pub open spec fn aristas_de_grafo<A>(t: Seq<A>, s: Seq<A>) -> bool {
    forall|i: int| 0 <= i < t.len() ==> s.contains(#[trigger] t[i])
}

/// The first vertex named by an edge: its first endpoint, or the isolated
/// vertex of a marker.
pub open spec fn primer_vertice<V: VerticeT, P: PesoT>(e: Arista<V, P>) -> V {
    match e {
        Arista::Arista(v, _, _) => v,
        Arista::VerticeAislado(v) => v,
    }
}

/// Whether the edges of `t`, grown as a tree from `raiz`, are edges of `s`
/// and `g` holds exactly them.
pub open spec fn arbol_de<V: VerticeT, P: PesoT>(
    g: Grafo<V, P>,
    raiz: V,
    t: Seq<Arista<V, P>>,
    s: Seq<Arista<V, P>>,
) -> bool {
    &&& arbol_desde(raiz, t)
    &&& aristas_de_grafo(t, s)
    &&& g.aristas_spec() == anadir(Seq::<Arista<V, P>>::empty(), t)
}

/// Whether `g` holds the edges of a tree grown from `raiz` with edges of `s`.
pub open spec fn es_arbol_de<V: VerticeT, P: PesoT>(g: Grafo<V, P>, raiz: V, s: Seq<Arista<V, P>>) -> bool {
    exists|t: Seq<Arista<V, P>>| #[trigger] arbol_de(g, raiz, t, s)
}

/// Whether every vertex of `s` can be reached from `raiz` by a walk.
pub open spec fn conexo<V: VerticeT, P: PesoT>(s: Seq<Arista<V, P>>, raiz: V) -> bool {
    forall|v: V| #[trigger] vertices_de(s).contains(v) ==> exists|c: Seq<Arista<V, P>>| camino_sin_pesos(s, raiz, v, c)
}

/// Whether `g` holds a tree grown from `raiz` with edges of `s` that reaches
/// every vertex of `s`, with one edge fewer than `s` has vertices.
pub open spec fn arbol_completo<V: VerticeT, P: PesoT>(g: Grafo<V, P>, raiz: V, s: Seq<Arista<V, P>>) -> bool {
    exists|t: Seq<Arista<V, P>>|
        #[trigger] arbol_de(g, raiz, t, s) && t.len() + 1 == vertices_de(s).len() && forall|v: V|
            vertices_de(s).contains(v) ==> #[trigger] alcanzados(raiz, t).contains(v)
}

proof fn lema_conexo<V: VerticeT, P: PesoT>(raiz: V, t: Seq<Arista<V, P>>, s: Seq<Arista<V, P>>, vs: Seq<V>)
    requires
        s.len() > 0,
        raiz == primer_vertice(s[0]),
        conexo(s, raiz),
        aristas_de_grafo(t, s),
        cerrado(raiz, t, s),
        forall|v: V| vs.contains(v) <==> #[trigger] alcanzados(raiz, t).contains(v),
        vs.no_duplicates(),
        vs.len() == t.len() + 1,
    ensures
        t.len() + 1 == vertices_de(s).len(),
        forall|v: V| vertices_de(s).contains(v) ==> #[trigger] alcanzados(raiz, t).contains(v),
{
    assert(vs.contains(raiz)) by {
        assert(alcanzados(raiz, t).contains(raiz)) by {
            lema_raiz_alcanzada(raiz, t);
        }
    }
    assert forall|k: int, u: V, w: V| #[trigger] arco_de(s, k, u, w) && vs.contains(u) implies vs.contains(w) by {
        s[k].lema_forma(u, s[k]);
        assert(cerrado(raiz, t, s));
        assert(alcanzados(raiz, t).contains(u));
        match s[k].extremos() {
            Some((a, b)) => {
                assert(alcanzados(raiz, t).contains(a) == alcanzados(raiz, t).contains(b));
            },
            None => {},
        }
    }
    assert forall|v: V| vertices_de(s).contains(v) implies #[trigger] alcanzados(raiz, t).contains(v) by {
        let c = choose|c: Seq<Arista<V, P>>| camino_sin_pesos(s, raiz, v, c);
        crate::camino_minimo::lema_alcanzables(s, raiz, vs, v, c);
    }
    lema_raiz_en_vertices(s);
    lema_alcanzados_en_vertices(raiz, t, s);
    crate::camino_minimo::lema_vertices_sin_repetir::<V, P, Arista<V, P>>(s);
    vs.unique_seq_to_set();
    vertices_de(s).unique_seq_to_set();
    assert(vs.to_set() =~= vertices_de(s).to_set()) by {
        assert forall|v: V| vs.to_set().contains(v) <==> vertices_de(s).to_set().contains(v) by {
            if vs.contains(v) {
                assert(alcanzados(raiz, t).contains(v));
            }
            if vertices_de(s).contains(v) {
                assert(alcanzados(raiz, t).contains(v));
            }
        }
    }
}

proof fn lema_raiz_alcanzada<V: VerticeT, P: PesoT, A: AristaT<V, P>>(raiz: V, t: Seq<A>)
    ensures
        alcanzados(raiz, t).contains(raiz),
    decreases t.len(),
{
    if t.len() > 0 {
        lema_raiz_alcanzada(raiz, t.drop_last());
    }
}

/// Whether a live edge has exactly one endpoint in the set `r`.
pub open spec fn cruza_conjunto<V>(e: Option<(V, V)>, r: Set<V>) -> bool {
    match e {
        Some((a, b)) => r.contains(a) != r.contains(b),
        None => false,
    }
}

/// Whether every live edge of `s` carries a weight.
pub open spec fn pesos_completos<V: VerticeT, P: PesoT, A: AristaT<V, P>>(s: Seq<A>) -> bool {
    forall|k: int| 0 <= k < s.len() && (#[trigger] s[k]).extremos() is Some ==> s[k].peso_spec() is Some
}

/// Whether each edge of `t` is, when it is added, of least weight among
/// the edges of `s` that leave the vertices reached so far.
pub open spec fn eleccion_voraz<V: VerticeT, P: PesoT>(raiz: V, t: Seq<Arista<V, P>>, s: Seq<Arista<V, P>>) -> bool {
    forall|i: int, k: int|
        #![trigger t[i], s[k]]
        0 <= i < t.len() && 0 <= k < s.len() && cruza_conjunto(s[k].extremos(), alcanzados(raiz, t.take(i)))
            ==> valor_opcional(t[i].peso_spec()) <= valor_opcional(s[k].peso_spec())
}

/// Whether `g` holds a tree grown from `raiz` with edges of `s`, each one of
/// least weight among the edges leaving the vertices reached before it.
pub open spec fn arbol_voraz<V: VerticeT, P: PesoT>(g: Grafo<V, P>, raiz: V, s: Seq<Arista<V, P>>) -> bool {
    exists|t: Seq<Arista<V, P>>| #[trigger] arbol_de(g, raiz, t, s) && eleccion_voraz(raiz, t, s)
}

/// Whether a live edge has exactly one endpoint in `vs`.
pub open spec fn cruza<V>(e: Option<(V, V)>, vs: Seq<V>) -> bool {
    match e {
        Some((a, b)) => vs.contains(a) != vs.contains(b),
        None => false,
    }
}

proof fn lema_crecer<V: VerticeT, P: PesoT, A: AristaT<V, P>>(raiz: V, t: Seq<A>, e: A, vs: Seq<V>, w: V)
    requires
        arbol_desde(raiz, t),
        forall|v: V| vs.contains(v) <==> #[trigger] alcanzados(raiz, t).contains(v),
        cruza(e.extremos(), vs),
        contiene(e.extremos(), w),
        !vs.contains(w),
    ensures
        arbol_desde(raiz, t.push(e)),
        forall|v: V| vs.push(w).contains(v) <==> #[trigger] alcanzados(raiz, t.push(e)).contains(v),
{
    assert(t.push(e).drop_last() =~= t);
    let (a, b) = e.extremos()->0;
    assert(alcanzados(raiz, t.push(e)) == alcanzados(raiz, t).insert(a).insert(b));
    assert(vs.contains(a) || vs.contains(b));
    assert(w == a || w == b);
    assert forall|v: V| vs.push(w).contains(v) <==> #[trigger] alcanzados(raiz, t.push(e)).contains(v) by {
        if vs.push(w).contains(v) {
            let i = choose|i: int| 0 <= i < vs.push(w).len() && vs.push(w)[i] == v;
            if i < vs.len() {
                assert(vs.contains(v));
            }
        }
        if vs.contains(v) {
            let i = choose|i: int| 0 <= i < vs.len() && vs[i] == v;
            assert(vs.push(w)[i] == v);
        }
        assert(vs.push(w)[vs.len() as int] == w);
    }
}

/// The first vertex named by an edge.
fn vertice_inicial<V: VerticeT, P: PesoT>(e: &Arista<V, P>) -> (r: V)
    ensures
        r == primer_vertice(*e),
{
    match e {
        Arista::Arista(v, _, _) => *v,
        Arista::VerticeAislado(v) => *v,
    }
}

/// The minimum spanning tree of the component of the first vertex of the
/// graph, by Prim's algorithm: from the first vertex named by the edge list,
/// repeatedly adds the lightest edge (the first one among equals) that joins
/// the tree to a vertex outside it. `None` when the graph has no edges.
///
/// Connectivity is not checked: on a disconnected graph the tree spans the
/// component of the root only.
pub fn arbol_peso_minimo<V: VerticeT, P: PesoT>(grafo: &Grafo<V, P>) -> (r: Option<
    Arbol<Grafo<V, P>, V>,
>)
    ensures
        r is None <==> grafo.aristas_spec().len() == 0,
        r is Some ==> r->0.raiz_spec() == primer_vertice(grafo.aristas_spec()[0]),
        r is Some ==> arbol_generador(r->0.grafo_spec(), r->0.raiz_spec(), grafo.aristas_spec()),
        r is Some && conexo(grafo.aristas_spec(), primer_vertice(grafo.aristas_spec()[0])) ==> arbol_completo(
            r->0.grafo_spec(),
            r->0.raiz_spec(),
            grafo.aristas_spec(),
        ),
        r is Some && P::con_orden() && pesos_completos(grafo.aristas_spec()) ==> arbol_voraz(
            r->0.grafo_spec(),
            r->0.raiz_spec(),
            grafo.aristas_spec(),
        ),
{
    let aristas = grafo.get_aristas();
    if aristas.len() == 0 {
        return None;
    }
    let raiz = vertice_inicial(&aristas[0]);
    let nv = grafo.size();
    let mut visitados: Vec<V> = vec![raiz];
    let mut arbol: Vec<Arista<V, P>> = Vec::new();
    let mut frontera: Vec<usize> = Vec::new();
    agregar_incidentes(aristas, &raiz, &mut frontera);
    proof {
        assert(visitados@ =~= seq![raiz]);
        assert(alcanzados(raiz, arbol@) =~= set![raiz]);
        assert forall|v: V| visitados@.contains(v) <==> #[trigger] alcanzados(raiz, arbol@).contains(v) by {
            if visitados@.contains(v) {
                assert(visitados@[0] == v);
            }
            if v == raiz {
                assert(visitados@[0] == raiz);
            }
        }
        lema_raiz_en_vertices(aristas@);
        assert forall|k: int| 0 <= k < aristas@.len() && cruza(#[trigger] aristas@[k].extremos(), visitados@) implies frontera@.contains(k as usize) by {
            let (a, b) = aristas@[k].extremos()->0;
            if visitados@.contains(a) {
                assert(visitados@[0] == a);
            } else {
                assert(visitados@[0] == b);
            }
        }
        lema_cota_visitados(raiz, arbol@, aristas@, visitados@);
    }
    let mut rondas: usize = 0;
    loop
        invariant
            aristas@ == grafo.aristas_spec(),
            aristas@.len() > 0,
            aristas@.len() <= usize::MAX,
            raiz == primer_vertice(aristas@[0]),
            nv == vertices_de(aristas@).len(),
            arbol_desde(raiz, arbol@),
            aristas_de_grafo(arbol@, aristas@),
            forall|v: V| visitados@.contains(v) <==> #[trigger] alcanzados(raiz, arbol@).contains(v),
            visitados@.no_duplicates(),
            visitados@.len() == rondas + 1,
            visitados@.len() <= nv,
            forall|i: int| 0 <= i < frontera@.len() ==> (#[trigger] frontera@[i]) < aristas@.len(),
            forall|k: int| 0 <= k < aristas@.len() && cruza(#[trigger] aristas@[k].extremos(), visitados@) ==> frontera@.contains(k as usize),
            arbol@.len() == rondas,
            eleccion_voraz(raiz, arbol@, aristas@) || !(P::con_orden() && pesos_completos(aristas@)),
        ensures
            frontera@.len() == 0,
        decreases nv - rondas,
    {
        // Drop the frontier edges whose endpoints have both been reached.
        let mut quedan: Vec<usize> = Vec::new();
        let mut i: usize = 0;
        while i < frontera.len()
            invariant
                i <= frontera@.len(),
                forall|i: int| 0 <= i < frontera@.len() ==> (#[trigger] frontera@[i]) < aristas@.len(),
                forall|j: int|
                    0 <= j < quedan@.len() ==> (#[trigger] quedan@[j]) < aristas@.len() && cruza(
                        aristas@[quedan@[j] as int].extremos(),
                        visitados@,
                    ),
                forall|j: int| 0 <= j < i && cruza(aristas@[#[trigger] frontera@[j] as int].extremos(), visitados@) ==> quedan@.contains(frontera@[j]),
                forall|k: int| 0 <= k < aristas@.len() && cruza(#[trigger] aristas@[k].extremos(), visitados@) ==> frontera@.contains(k as usize),
                aristas@.len() <= usize::MAX,
            decreases frontera@.len() - i,
        {
            if cruza_exec(&aristas[frontera[i]], &visitados) {
                let ghost previa = quedan@;
                quedan.push(frontera[i]);
                proof {
                    lema_push_contiene(previa, frontera@[i as int]);
                }
            }
            i = i + 1;
        }
        proof {
            assert forall|k: int| 0 <= k < aristas@.len() && cruza(#[trigger] aristas@[k].extremos(), visitados@) implies quedan@.contains(k as usize) by {
                assert(frontera@.contains(k as usize));
                let j = choose|j: int| 0 <= j < frontera@.len() && frontera@[j] == k as usize;
                assert(frontera@[j] as int == k);
                assert(cruza(aristas@[frontera@[j] as int].extremos(), visitados@));
            }
        }
        frontera = quedan;
        if frontera.len() == 0 {
            break;
        }
        let m = indice_minimo(aristas, &frontera);
        let e = aristas[frontera[m]];
        proof {
            if P::con_orden() && pesos_completos(aristas@) {
                assert forall|j: int| 0 <= j < frontera@.len() implies (#[trigger] aristas@[frontera@[j] as int]).peso_spec() is Some by {
                    assert(cruza(aristas@[frontera@[j] as int].extremos(), visitados@));
                }
                lema_voraz_crece(raiz, arbol@, aristas@, visitados@, frontera@, m as int);
            }
        }
        let (a, b) = e.get_vertices().unwrap();
        let lejano = if contiene_vertice(&visitados, &a) {
            b
        } else {
            a
        };
        proof {
            lema_crecer(raiz, arbol@, e, visitados@, lejano);
            assert(aristas@.contains(e));
            lema_push_contiene(visitados@, lejano);
        }
        let ghost vis_previos = visitados@;
        let ghost fr_previa = frontera@;
        arbol.push(e);
        visitados.push(lejano);
        proof {
            assert forall|i: int| 0 <= i < arbol@.len() implies aristas@.contains(#[trigger] arbol@[i]) by {
                if i < arbol@.len() - 1 {
                    assert(arbol@[i] == arbol@.drop_last()[i]);
                }
            }
            assert(visitados@.no_duplicates()) by {
                assert forall|x: int, y: int| 0 <= x < y < visitados@.len() implies visitados@[x] != visitados@[y] by {
                    if y == visitados@.len() - 1 {
                        assert(vis_previos.contains(visitados@[x]));
                    } else {
                        assert(visitados@[x] == vis_previos[x] && visitados@[y] == vis_previos[y]);
                    }
                }
            }
            lema_cota_visitados(raiz, arbol@, aristas@, visitados@);
        }
        agregar_incidentes(aristas, &lejano, &mut frontera);
        proof {
            assert forall|k: int| 0 <= k < aristas@.len() && cruza(#[trigger] aristas@[k].extremos(), visitados@) implies frontera@.contains(k as usize) by {
                if !contiene(aristas@[k].extremos(), lejano) {
                    let (x, y) = aristas@[k].extremos()->0;
                    assert(vis_previos.contains(x) == visitados@.contains(x)) by {
                        if visitados@.contains(x) {
                            let j = choose|j: int| 0 <= j < visitados@.len() && visitados@[j] == x;
                            assert(j < vis_previos.len());
                            assert(vis_previos[j] == x);
                        }
                    }
                    assert(vis_previos.contains(y) == visitados@.contains(y)) by {
                        if visitados@.contains(y) {
                            let j = choose|j: int| 0 <= j < visitados@.len() && visitados@[j] == y;
                            assert(j < vis_previos.len());
                            assert(vis_previos[j] == y);
                        }
                    }
                    assert(cruza(aristas@[k].extremos(), vis_previos));
                    assert(fr_previa.contains(k as usize));
                }
            }
        }
        rondas = rondas + 1;
    }
    let ghost lista = arbol@;
    let r = construir_arbol(raiz, arbol, Ghost(grafo.aristas_spec()));
    proof {
        lema_cardinal_alcanzados(raiz, lista, visitados@);
        assert forall|k: int| 0 <= k < aristas@.len() implies !cruza(#[trigger] aristas@[k].extremos(), visitados@) by {
            if cruza(aristas@[k].extremos(), visitados@) {
                assert(frontera@.contains(k as usize));
            }
        }
        assert(cerrado(raiz, lista, aristas@));
        assert(arbol_de(r.grafo_spec(), r.raiz_spec(), lista, grafo.aristas_spec()));
        assert(arbol_generador(r.grafo_spec(), r.raiz_spec(), grafo.aristas_spec()));
        if P::con_orden() && pesos_completos(aristas@) {
            assert(arbol_voraz(r.grafo_spec(), r.raiz_spec(), grafo.aristas_spec()));
        }
        if conexo(aristas@, raiz) {
            lema_conexo(raiz, lista, aristas@, visitados@);
            assert(arbol_completo(r.grafo_spec(), r.raiz_spec(), grafo.aristas_spec()));
        }
    }
    Some(r)
}

/// Whether no live edge of `s` has exactly one endpoint among the vertices
/// that the tree edges `t` reach from `raiz`: the tree spans the whole
/// connected component of `raiz`.
pub open spec fn cerrado<V: VerticeT, P: PesoT, A: AristaT<V, P>>(raiz: V, t: Seq<A>, s: Seq<A>) -> bool {
    forall|k: int|
        0 <= k < s.len() ==> match (#[trigger] s[k]).extremos() {
            Some((a, b)) => alcanzados(raiz, t).contains(a) == alcanzados(raiz, t).contains(b),
            None => true,
        }
}

/// Whether `g` holds a spanning tree of the component of `raiz` in `s`:
/// a tree grown from `raiz` with edges of `s`, one edge fewer than the
/// vertices it reaches, and no edge of `s` leaving those vertices.
pub open spec fn arbol_generador<V: VerticeT, P: PesoT>(g: Grafo<V, P>, raiz: V, s: Seq<Arista<V, P>>) -> bool {
    exists|t: Seq<Arista<V, P>>|
        #[trigger] arbol_de(g, raiz, t, s) && cerrado(raiz, t, s) && alcanzados(raiz, t).finite()
            && alcanzados(raiz, t).len() == t.len() + 1
}

proof fn lema_voraz_crece<V: VerticeT, P: PesoT>(
    raiz: V,
    t: Seq<Arista<V, P>>,
    s: Seq<Arista<V, P>>,
    vs: Seq<V>,
    frontera: Seq<usize>,
    m: int,
)
    requires
        eleccion_voraz(raiz, t, s),
        s.len() <= usize::MAX,
        forall|v: V| vs.contains(v) <==> #[trigger] alcanzados(raiz, t).contains(v),
        0 <= m < frontera.len(),
        forall|i: int| 0 <= i < frontera.len() ==> (#[trigger] frontera[i]) < s.len(),
        forall|k: int| 0 <= k < s.len() && cruza(#[trigger] s[k].extremos(), vs) ==> frontera.contains(k as usize),
        forall|j: int|
            0 <= j < frontera.len() ==> valor_opcional(s[frontera[m] as int].peso_spec()) <= valor_opcional(
                #[trigger] s[frontera[j] as int].peso_spec(),
            ),
    ensures
        eleccion_voraz(raiz, t.push(s[frontera[m] as int]), s),
{
    let e = s[frontera[m] as int];
    let t2 = t.push(e);
    assert forall|i: int, k: int|
        #![trigger t2[i], s[k]]
        0 <= i < t2.len() && 0 <= k < s.len() && cruza_conjunto(s[k].extremos(), alcanzados(raiz, t2.take(i)))
            implies valor_opcional(t2[i].peso_spec()) <= valor_opcional(s[k].peso_spec()) by {
        if i < t.len() {
            assert(t2.take(i) =~= t.take(i));
            assert(t2[i] == t[i]);
        } else {
            assert(t2.take(i) =~= t);
            assert(cruza(s[k].extremos(), vs));
            assert(frontera.contains(k as usize));
            let j = choose|j: int| 0 <= j < frontera.len() && frontera[j] == k as usize;
            assert(frontera[j] as int == k);
        }
    }
}

proof fn lema_cardinal_alcanzados<V: VerticeT, P: PesoT, A: AristaT<V, P>>(raiz: V, t: Seq<A>, vs: Seq<V>)
    requires
        forall|v: V| vs.contains(v) <==> #[trigger] alcanzados(raiz, t).contains(v),
        vs.no_duplicates(),
        vs.len() == t.len() + 1,
    ensures
        alcanzados(raiz, t).finite(),
        alcanzados(raiz, t).len() == t.len() + 1,
{
    assert(vs.to_set() =~= alcanzados(raiz, t));
    vs.unique_seq_to_set();
}

proof fn lema_raiz_en_vertices<V: VerticeT, P: PesoT>(s: Seq<Arista<V, P>>)
    requires
        s.len() > 0,
    ensures
        vertices_de(s).contains(primer_vertice(s[0])),
    decreases s.len(),
{
    if s.len() > 1 {
        lema_raiz_en_vertices(s.drop_last());
        assert(s.drop_last()[0] == s[0]);
        lema_vertices_crecen(s);
    } else {
        assert(s.drop_last() =~= Seq::<Arista<V, P>>::empty());
        let vs = vertices_de(s.drop_last());
        assert(vs =~= Seq::<V>::empty());
        match s[0] {
            Arista::Arista(a, b, _) => {
                assert(con_nuevo(vs, a)[0] == a);
                lema_con_nuevo_contiene(con_nuevo(vs, a), b);
            },
            Arista::VerticeAislado(a) => {
                assert(con_nuevo(vs, a)[0] == a);
            },
        }
    }
}

proof fn lema_con_nuevo_contiene<V>(vs: Seq<V>, v: V)
    ensures
        forall|u: V| vs.contains(u) ==> #[trigger] con_nuevo(vs, v).contains(u),
        con_nuevo(vs, v).contains(v),
{
    if !vs.contains(v) {
        lema_push_contiene(vs, v);
    }
}

proof fn lema_vertices_crecen<V: VerticeT, P: PesoT, A: AristaT<V, P>>(s: Seq<A>)
    requires
        s.len() > 0,
    ensures
        forall|u: V| vertices_de(s.drop_last()).contains(u) ==> #[trigger] vertices_de(s).contains(u),
        match s.last().extremos() {
            Some((a, b)) => vertices_de(s).contains(a) && vertices_de(s).contains(b),
            None => true,
        },
        match s.last().aislado() {
            Some(a) => vertices_de(s).contains(a),
            None => true,
        },
{
    let vs = vertices_de(s.drop_last());
    s.last().lema_forma(arbitrary(), s.last());
    match s.last().extremos() {
        Some((a, b)) => {
            lema_con_nuevo_contiene(vs, a);
            lema_con_nuevo_contiene(con_nuevo(vs, a), b);
        },
        None => match s.last().aislado() {
            Some(a) => {
                lema_con_nuevo_contiene(vs, a);
            },
            None => {},
        },
    }
}

pub(crate) proof fn lema_extremos_en_vertices<V: VerticeT, P: PesoT, A: AristaT<V, P>>(s: Seq<A>, k: int)
    requires
        0 <= k < s.len(),
    ensures
        match s[k].extremos() {
            Some((a, b)) => vertices_de(s).contains(a) && vertices_de(s).contains(b),
            None => true,
        },
    decreases s.len(),
{
    lema_vertices_crecen::<V, P, A>(s);
    if k < s.len() - 1 {
        lema_extremos_en_vertices::<V, P, A>(s.drop_last(), k);
        assert(s.drop_last()[k] == s[k]);
    }
}

proof fn lema_alcanzados_en_vertices<V: VerticeT, P: PesoT>(raiz: V, t: Seq<Arista<V, P>>, s: Seq<Arista<V, P>>)
    requires
        aristas_de_grafo(t, s),
        vertices_de(s).contains(raiz),
    ensures
        forall|v: V| #[trigger] alcanzados(raiz, t).contains(v) ==> vertices_de(s).contains(v),
    decreases t.len(),
{
    if t.len() > 0 {
        let u = t.drop_last();
        assert forall|i: int| 0 <= i < u.len() implies s.contains(#[trigger] u[i]) by {
            assert(u[i] == t[i]);
        }
        lema_alcanzados_en_vertices(raiz, u, s);
        match t.last().extremos() {
            Some((a, b)) => {
                assert(s.contains(t[t.len() - 1]));
                let k = choose|k: int| 0 <= k < s.len() && s[k] == t[t.len() - 1];
                lema_extremos_en_vertices::<V, P, Arista<V, P>>(s, k);
                assert(alcanzados(raiz, t) == alcanzados(raiz, u).insert(a).insert(b));
            },
            None => {
                assert(alcanzados(raiz, t) == alcanzados(raiz, u));
            },
        }
    } else {
        assert(alcanzados(raiz, t) == set![raiz]);
    }
}

proof fn lema_cota_visitados<V: VerticeT, P: PesoT>(raiz: V, t: Seq<Arista<V, P>>, s: Seq<Arista<V, P>>, vs: Seq<V>)
    requires
        aristas_de_grafo(t, s),
        s.len() > 0,
        raiz == primer_vertice(s[0]),
        forall|v: V| vs.contains(v) <==> #[trigger] alcanzados(raiz, t).contains(v),
        vs.no_duplicates(),
    ensures
        vs.len() <= vertices_de(s).len(),
{
    lema_raiz_en_vertices(s);
    lema_alcanzados_en_vertices(raiz, t, s);
    crate::camino_minimo::lema_vertices_sin_repetir::<V, P, Arista<V, P>>(s);
    vs.unique_seq_to_set();
    vertices_de(s).unique_seq_to_set();
    assert forall|v: V| vs.to_set().contains(v) implies vertices_de(s).to_set().contains(v) by {
        assert(vs.contains(v));
        assert(alcanzados(raiz, t).contains(v));
    }
    assert(vs.to_set().subset_of(vertices_de(s).to_set()));
    vstd::set_lib::lemma_len_subset(vs.to_set(), vertices_de(s).to_set());
}

/// Whether the frontier entry `(e, u, w)` is an edge of `s` that leads from
/// the reached vertex `u` to `w`.
pub open spec fn entrada_valida<V: VerticeT, P: PesoT>(s: Seq<Arista<V, P>>, vs: Seq<V>, x: (usize, V, V)) -> bool {
    &&& x.0 < s.len()
    &&& vs.contains(x.1)
    &&& otro_extremo(s[x.0 as int].extremos(), x.1) == Some(x.2)
}

/// Whether the edge at `k` of `s` leads from the reached vertex `u` to a
/// vertex not reached yet.
pub open spec fn pendiente<V: VerticeT, P: PesoT>(s: Seq<Arista<V, P>>, vs: Seq<V>, k: int, u: V) -> bool {
    &&& 0 <= k < s.len()
    &&& otro_extremo(s[k].extremos(), u) is Some
    &&& vs.contains(u)
    &&& !vs.contains(otro_extremo(s[k].extremos(), u)->0)
}

/// The frontier entry for the edge at `k` of `s` taken from `u`.
pub open spec fn entrada<V: VerticeT, P: PesoT>(s: Seq<Arista<V, P>>, k: int, u: V) -> (usize, V, V) {
    (k as usize, u, otro_extremo(s[k].extremos(), u)->0)
}

/// Whether every edge of `s` from a reached vertex to an unreached one is
/// listed in `f`.
pub open spec fn cruces_listados<V: VerticeT, P: PesoT>(s: Seq<Arista<V, P>>, vs: Seq<V>, f: Seq<(usize, V, V)>) -> bool {
    forall|k: int, u: V| #[trigger] pendiente(s, vs, k, u) ==> f.contains(entrada(s, k, u))
}

/// The breadth-first search tree from `v0`: layer by layer, a vertex enters
/// the tree through the first frontier edge of the current layer that reaches
/// it. The tree spans the connected component of `v0`. `None` when no edge
/// has `v0` as an endpoint; a root whose only edges are self-loops gives a
/// tree with no edges.
pub fn arbol_anchura<V: VerticeT, P: PesoT>(grafo: &Grafo<V, P>, v0: &V) -> (r: Option<
    Arbol<Grafo<V, P>, V>,
>)
    ensures
        r is None <==> !exists|i: int|
            0 <= i < grafo.aristas_spec().len() && #[trigger] contiene(grafo.aristas_spec()[i].extremos(), *v0),
        r is Some ==> r->0.raiz_spec() == *v0,
        r is Some ==> arbol_generador(r->0.grafo_spec(), r->0.raiz_spec(), grafo.aristas_spec()),
{
    let aristas = grafo.get_aristas();
    if !incide(aristas, v0) {
        return None;
    }
    let raiz = *v0;
    let nv = grafo.size();
    let mut visitados: Vec<V> = vec![raiz];
    let mut arbol: Vec<Arista<V, P>> = Vec::new();
    // Frontier entries: an edge, the reached vertex it was found from, and
    // the vertex at its other end.
    let mut frontera: Vec<(usize, V, V)> = Vec::new();
    proof {
        assert(visitados@ =~= seq![raiz]);
        assert forall|v: V| visitados@.contains(v) <==> #[trigger] alcanzados(raiz, arbol@).contains(v) by {
            if visitados@.contains(v) {
                assert(visitados@[0] == v);
            }
            if v == raiz {
                assert(visitados@[0] == raiz);
            }
        }
    }
    let mut k: usize = 0;
    while k < aristas.len()
        invariant
            k <= aristas@.len(),
            aristas@ == grafo.aristas_spec(),
            visitados@ == seq![raiz],
            forall|f: int| 0 <= f < frontera@.len() ==> entrada_valida(aristas@, visitados@, #[trigger] frontera@[f]),
            forall|kk: int, u: V| kk < k && #[trigger] pendiente(aristas@, visitados@, kk, u) ==> frontera@.contains(
                entrada(aristas@, kk, u),
            ),
        decreases aristas@.len() - k,
    {
        let ghost previa = frontera@;
        match aristas[k].other(&raiz) {
            Some(w) => {
                proof {
                    assert(visitados@[0] == raiz);
                }
                frontera.push((k, raiz, w));
                proof {
                    assert(frontera@[frontera@.len() - 1] == (k, raiz, w));
                }
            },
            None => {},
        }
        proof {
            assert forall|kk: int, u: V| kk < k + 1 && #[trigger] pendiente(aristas@, visitados@, kk, u) implies frontera@.contains(
                entrada(aristas@, kk, u),
            ) by {
                assert(u == raiz) by {
                    assert(visitados@[0] == raiz);
                }
                if kk < k {
                    lema_extiende_contiene(previa, frontera@, entrada(aristas@, kk, u));
                } else {
                    assert(frontera@[previa.len() as int] == entrada(aristas@, kk, u));
                }
            }
            assert forall|f: int| 0 <= f < frontera@.len() implies entrada_valida(aristas@, visitados@, #[trigger] frontera@[f]) by {
                if f < previa.len() {
                    assert(frontera@[f] == previa[f]);
                }
            }
        }
        k = k + 1;
    }
    let mut primera = true;
    while frontera.len() > 0
        invariant
            aristas@ == grafo.aristas_spec(),
            nv == vertices_de(aristas@).len(),
            arbol_desde(raiz, arbol@),
            aristas_de_grafo(arbol@, aristas@),
            forall|v: V| visitados@.contains(v) <==> #[trigger] alcanzados(raiz, arbol@).contains(v),
            visitados@.contains(raiz),
            visitados@.no_duplicates(),
            visitados@.len() == arbol@.len() + 1,
            visitados@.len() <= nv + 1,
            forall|f: int| 0 <= f < frontera@.len() ==> entrada_valida(aristas@, visitados@, #[trigger] frontera@[f]),
            cruces_listados(aristas@, visitados@, frontera@),
            !primera ==> forall|f: int| 0 <= f < frontera@.len() ==> !visitados@.contains(#[trigger] frontera@[f].2),
            primera ==> arbol@.len() == 0 && visitados@ == seq![raiz],
        decreases 2 * (nv + 1 - visitados@.len()) + if primera {
            1int
        } else {
            0int
        },
    {
        let ghost inicio = visitados@;
        let mut proximos: Vec<V> = Vec::new();
        let mut f: usize = 0;
        while f < frontera.len()
            invariant
                aristas@ == grafo.aristas_spec(),
                nv == vertices_de(aristas@).len(),
                arbol_desde(raiz, arbol@),
                aristas_de_grafo(arbol@, aristas@),
                forall|v: V| visitados@.contains(v) <==> #[trigger] alcanzados(raiz, arbol@).contains(v),
                visitados@.contains(raiz),
                visitados@.no_duplicates(),
                visitados@.len() == arbol@.len() + 1,
                visitados@.len() <= nv + 1,
                f <= frontera@.len(),
                forall|g: int| 0 <= g < frontera@.len() ==> {
                    let x = #[trigger] frontera@[g];
                    &&& x.0 < aristas@.len()
                    &&& visitados@.contains(x.1)
                    &&& otro_extremo(aristas@[x.0 as int].extremos(), x.1) == Some(x.2)
                },
                forall|v: V| inicio.contains(v) ==> #[trigger] visitados@.contains(v),
                forall|v: V| #[trigger] visitados@.contains(v) ==> inicio.contains(v) || proximos@.contains(v),
                forall|g: int| 0 <= g < f ==> visitados@.contains(#[trigger] frontera@[g].2),
                forall|j: int| 0 <= j < proximos@.len() ==> visitados@.contains(#[trigger] proximos@[j]),
                inicio.len() <= visitados@.len(),
                !primera && f > 0 ==> inicio.len() < visitados@.len(),
                f == 0 ==> visitados@ == inicio,
                !primera ==> forall|g: int| 0 <= g < frontera@.len() ==> !inicio.contains(#[trigger] frontera@[g].2),
                primera ==> inicio == seq![raiz],
            decreases frontera@.len() - f,
        {
            let (e, u, w) = frontera[f];
            let ghost vis0 = visitados@;
            let ghost prox0 = proximos@;
            if !contiene_vertice(&visitados, &w) {
                let arista = aristas[e];
                proof {
                    assert(cruza(arista.extremos(), visitados@));
                    lema_crecer(raiz, arbol@, arista, visitados@, w);
                    lema_push_contiene(visitados@, w);
                }
                let ghost vis_previos = visitados@;
                visitados.push(w);
                arbol.push(arista);
                proof {
                    assert(visitados@ == vis0.push(w));
                    assert(visitados@[visitados@.len() - 1] == w);
                    assert forall|i: int| 0 <= i < arbol@.len() implies aristas@.contains(#[trigger] arbol@[i]) by {
                        if i < arbol@.len() - 1 {
                            assert(arbol@[i] == arbol@.drop_last()[i]);
                        } else {
                            assert(aristas@[e as int] == arista);
                        }
                    }
                    assert(visitados@.no_duplicates()) by {
                        assert forall|x: int, y: int| 0 <= x < y < visitados@.len() implies visitados@[x] != visitados@[y] by {
                            if y == visitados@.len() - 1 {
                                assert(vis_previos.contains(visitados@[x]));
                            } else {
                                assert(visitados@[x] == vis_previos[x] && visitados@[y] == vis_previos[y]);
                            }
                        }
                    }
                    lema_cota_anchura(raiz, arbol@, aristas@, visitados@);
                }
            } else {
                proof {
                    if !primera && f == 0 {
                        assert(!inicio.contains(frontera@[0].2));
                    }
                }
            }
            proof {
                assert(visitados@.contains(w));
                lema_push_contiene(proximos@, w);
                assert(proximos@.push(w)[proximos@.len() as int] == w);
            }
            proximos.push(w);
            proof {
                assert forall|v: V| #[trigger] visitados@.contains(v) implies inicio.contains(v) || proximos@.contains(v) by {
                    if !inicio.contains(v) {
                        if v == w {
                            assert(proximos@[proximos@.len() - 1] == w);
                        } else {
                            assert(vis0.contains(v)) by {
                                let j = choose|j: int| 0 <= j < visitados@.len() && visitados@[j] == v;
                                if visitados@ != vis0 {
                                    assert(visitados@ == vis0.push(w));
                                    assert(j < vis0.len());
                                    assert(vis0[j] == v);
                                }
                            }
                            assert(prox0.contains(v));
                        }
                    }
                }
            }
            f = f + 1;
        }
        let mut nuevas: Vec<(usize, V, V)> = Vec::new();
        let mut i: usize = 0;
        while i < proximos.len()
            invariant
                i <= proximos@.len(),
                forall|v: V| visitados@.contains(v) <==> #[trigger] alcanzados(raiz, arbol@).contains(v),
                forall|g: int| 0 <= g < nuevas@.len() ==> entrada_valida(aristas@, visitados@, #[trigger] nuevas@[g]),
                forall|g: int| 0 <= g < nuevas@.len() ==> !visitados@.contains(#[trigger] nuevas@[g].2),
                forall|j: int| 0 <= j < proximos@.len() ==> visitados@.contains(#[trigger] proximos@[j]),
                forall|kk: int, u: V|
                    #[trigger] pendiente(aristas@, visitados@, kk, u) && proximos@.subrange(0, i as int).contains(u)
                        ==> nuevas@.contains(entrada(aristas@, kk, u)),
            decreases proximos@.len() - i,
        {
            let v = proximos[i];
            let ghost antes = nuevas@;
            let mut k: usize = 0;
            while k < aristas.len()
                invariant
                    k <= aristas@.len(),
                    visitados@.contains(v),
                    forall|g: int| 0 <= g < antes.len() ==> nuevas@[g] == antes[g],
                    antes.len() <= nuevas@.len(),
                    forall|g: int| 0 <= g < nuevas@.len() ==> entrada_valida(aristas@, visitados@, #[trigger] nuevas@[g]),
                    forall|g: int| 0 <= g < nuevas@.len() ==> !visitados@.contains(#[trigger] nuevas@[g].2),
                    forall|kk: int| kk < k && #[trigger] pendiente(aristas@, visitados@, kk, v) ==> nuevas@.contains(
                        entrada(aristas@, kk, v),
                    ),
                decreases aristas@.len() - k,
            {
                let ghost previa = nuevas@;
                match aristas[k].other(&v) {
                    Some(w) => {
                        if !contiene_vertice(&visitados, &w) {
                            nuevas.push((k, v, w));
                            proof {
                                assert(nuevas@[previa.len() as int] == (k, v, w));
                            }
                        }
                    },
                    None => {},
                }
                proof {
                    assert forall|kk: int| kk < k + 1 && #[trigger] pendiente(aristas@, visitados@, kk, v) implies nuevas@.contains(
                        entrada(aristas@, kk, v),
                    ) by {
                        if kk < k {
                            lema_extiende_contiene(previa, nuevas@, entrada(aristas@, kk, v));
                        } else {
                            assert(nuevas@[previa.len() as int] == entrada(aristas@, kk, v));
                        }
                    }
                }
                k = k + 1;
            }
            proof {
                assert forall|kk: int, u: V|
                    #[trigger] pendiente(aristas@, visitados@, kk, u) && proximos@.subrange(0, i as int + 1).contains(u)
                        implies nuevas@.contains(entrada(aristas@, kk, u)) by {
                    let pre = proximos@.subrange(0, i as int + 1);
                    let j = choose|j: int| 0 <= j < pre.len() && #[trigger] pre[j] == u;
                    if j < i {
                        assert(proximos@.subrange(0, i as int)[j] == u);
                        assert(proximos@.subrange(0, i as int).contains(u));
                        lema_extiende_contiene(antes, nuevas@, entrada(aristas@, kk, u));
                    } else {
                        assert(u == v);
                    }
                }
            }
            i = i + 1;
        }
        proof {
            assert(proximos@.subrange(0, proximos@.len() as int) =~= proximos@);
            assert forall|kk: int, u: V| #[trigger] pendiente(aristas@, visitados@, kk, u) implies nuevas@.contains(
                entrada(aristas@, kk, u),
            ) by {
                let w = otro_extremo(aristas@[kk].extremos(), u)->0;
                if inicio.contains(u) {
                    assert(!inicio.contains(w));
                    assert(pendiente(aristas@, inicio, kk, u));
                    assert(frontera@.contains(entrada(aristas@, kk, u)));
                    let g = choose|g: int| 0 <= g < frontera@.len() && frontera@[g] == entrada(aristas@, kk, u);
                    assert(visitados@.contains(frontera@[g].2));
                } else {
                    assert(proximos@.contains(u));
                    assert(proximos@.subrange(0, proximos@.len() as int).contains(u));
                }
            }
        }
        frontera = nuevas;
        primera = false;
    }
    let ghost lista = arbol@;
    let r = construir_arbol(raiz, arbol, Ghost(grafo.aristas_spec()));
    proof {
        lema_cardinal_alcanzados(raiz, lista, visitados@);
        assert forall|k: int| 0 <= k < aristas@.len() implies match (#[trigger] aristas@[k]).extremos() {
            Some((a, b)) => alcanzados(raiz, lista).contains(a) == alcanzados(raiz, lista).contains(b),
            None => true,
        } by {
            match aristas@[k].extremos() {
                Some((a, b)) => {
                    if alcanzados(raiz, lista).contains(a) && !alcanzados(raiz, lista).contains(b) {
                        assert(otro_extremo(aristas@[k].extremos(), a) == Some(b));
                        assert(pendiente(aristas@, visitados@, k, a));
                        assert(frontera@.contains(entrada(aristas@, k, a)));
                    }
                    if alcanzados(raiz, lista).contains(b) && !alcanzados(raiz, lista).contains(a) {
                        assert(otro_extremo(aristas@[k].extremos(), b) == Some(a));
                        assert(pendiente(aristas@, visitados@, k, b));
                        assert(frontera@.contains(entrada(aristas@, k, b)));
                    }
                },
                None => {},
            }
        }
        assert(cerrado(raiz, lista, aristas@));
        assert(arbol_de(r.grafo_spec(), r.raiz_spec(), lista, grafo.aristas_spec()));
        assert(arbol_generador(r.grafo_spec(), r.raiz_spec(), grafo.aristas_spec()));
    }
    Some(r)
}

proof fn lema_extiende_contiene<T>(a: Seq<T>, b: Seq<T>, x: T)
    requires
        a.contains(x),
        a.len() <= b.len(),
        forall|g: int| 0 <= g < a.len() ==> b[g] == a[g],
    ensures
        b.contains(x),
{
    let g = choose|g: int| 0 <= g < a.len() && a[g] == x;
    assert(b[g] == x);
}

/// The reached vertices number at most one more than the vertices of the
/// graph.
proof fn lema_cota_anchura<V: VerticeT, P: PesoT>(raiz: V, t: Seq<Arista<V, P>>, s: Seq<Arista<V, P>>, vs: Seq<V>)
    requires
        aristas_de_grafo(t, s),
        forall|v: V| vs.contains(v) <==> #[trigger] alcanzados(raiz, t).contains(v),
        vs.no_duplicates(),
    ensures
        vs.len() <= vertices_de(s).len() + 1,
{
    lema_alcanzados_con_raiz(raiz, t, s);
    crate::camino_minimo::lema_vertices_sin_repetir::<V, P, Arista<V, P>>(s);
    vs.unique_seq_to_set();
    vertices_de(s).unique_seq_to_set();
    let todos = vertices_de(s).to_set().insert(raiz);
    assert forall|v: V| vs.to_set().contains(v) implies todos.contains(v) by {
        assert(vs.contains(v));
        assert(alcanzados(raiz, t).contains(v));
    }
    assert(vs.to_set().subset_of(todos));
    vstd::set_lib::lemma_len_subset(vs.to_set(), todos);
}

proof fn lema_alcanzados_con_raiz<V: VerticeT, P: PesoT>(raiz: V, t: Seq<Arista<V, P>>, s: Seq<Arista<V, P>>)
    requires
        aristas_de_grafo(t, s),
    ensures
        forall|v: V| #[trigger] alcanzados(raiz, t).contains(v) ==> v == raiz || vertices_de(s).contains(v),
    decreases t.len(),
{
    if t.len() > 0 {
        let u = t.drop_last();
        assert forall|i: int| 0 <= i < u.len() implies s.contains(#[trigger] u[i]) by {
            assert(u[i] == t[i]);
        }
        lema_alcanzados_con_raiz(raiz, u, s);
        match t.last().extremos() {
            Some((a, b)) => {
                assert(s.contains(t[t.len() - 1]));
                let k = choose|k: int| 0 <= k < s.len() && s[k] == t[t.len() - 1];
                lema_extremos_en_vertices::<V, P, Arista<V, P>>(s, k);
                assert(alcanzados(raiz, t) == alcanzados(raiz, u).insert(a).insert(b));
            },
            None => {
                assert(alcanzados(raiz, t) == alcanzados(raiz, u));
            },
        }
    } else {
        assert(alcanzados(raiz, t) == set![raiz]);
    }
}

/// The tree wrapper of the edges of `arbol`, rooted at `raiz`.
fn construir_arbol<V: VerticeT, P: PesoT>(
    raiz: V,
    arbol: Vec<Arista<V, P>>,
    Ghost(s): Ghost<Seq<Arista<V, P>>>,
) -> (r: Arbol<Grafo<V, P>, V>)
    requires
        arbol_desde(raiz, arbol@),
        aristas_de_grafo(arbol@, s),
    ensures
        r.raiz_spec() == raiz,
        arbol_de(r.grafo_spec(), raiz, arbol@, s),
{
    let g = Grafo::from_aristas(arbol);
    Arbol::from_grafo(g, raiz)
}

/// Whether the labels `d` number the vertices reached by the tree edges `t`
/// from `raiz`, each once, in the order in which they are reached.
pub open spec fn etiquetas_en_orden<V: VerticeT, P: PesoT>(raiz: V, t: Seq<Arista<V, P>>, d: Seq<Etiqueta<V>>) -> bool {
    &&& d.len() == t.len() + 1
    &&& d[0].vertice_spec() == raiz
    &&& vertices_etiquetados(d).no_duplicates()
    &&& forall|j: int| 0 <= j < d.len() ==> (#[trigger] d[j]).valor_spec() == j
    &&& forall|v: V| vertices_etiquetados(d).contains(v) <==> #[trigger] alcanzados(raiz, t).contains(v)
    &&& forall|j: int| 0 <= j < t.len() ==> #[trigger] alcanza(raiz, t, j, d[j + 1].vertice_spec())
    &&& forall|j: int, i: int|
        #![trigger t[j], d[i]]
        0 <= j < t.len() && 0 <= i < d.len() && contiene(t[j].extremos(), d[i].vertice_spec()) ==> i <= j + 1
}

/// Whether `v` is the vertex that the tree edge `t[j]` reaches: an endpoint
/// of it that the edges before it had not reached.
pub open spec fn alcanza<V: VerticeT, P: PesoT>(raiz: V, t: Seq<Arista<V, P>>, j: int, v: V) -> bool {
    &&& contiene(t[j].extremos(), v)
    &&& !alcanzados(raiz, t.take(j)).contains(v)
}

/// Whether `g` holds a tree grown from `raiz` with edges of `s` and `d`
/// labels its vertices in order of discovery.
pub open spec fn recorrido_profundidad<V: VerticeT, P: PesoT>(
    g: Grafo<V, P>,
    raiz: V,
    s: Seq<Arista<V, P>>,
    d: Seq<Etiqueta<V>>,
) -> bool {
    exists|t: Seq<Arista<V, P>>| #[trigger] arbol_de(g, raiz, t, s) && etiquetas_en_orden(raiz, t, d)
}

/// The depth-first search tree from `v0`, with the labeling of the
/// vertices in order of discovery, from 0. The search advances along the
/// first edge that leads to an unvisited vertex and backtracks at dead ends;
/// an edge to a vertex already visited (a self-loop, a second edge) is
/// skipped. It stops when the tree spans every vertex or nothing is left to
/// backtrack to. `None` when `v0` is not a vertex of the graph.
pub fn arbol_profundidad<V: VerticeT, P: PesoT>(grafo: &Grafo<V, P>, v0: &V) -> (r: Option<
    (Arbol<Grafo<V, P>, V>, Etiquetado<V>),
>)
    requires
        vertices_de(grafo.aristas_spec()).len() <= isize::MAX,
    ensures
        r is Some <==> esta_vertice(grafo.aristas_spec(), *v0),
        r is Some ==> ({
            let (a, d) = r->0;
            &&& a.raiz_spec() == *v0
            &&& recorrido_profundidad(a.grafo_spec(), *v0, grafo.aristas_spec(), d.datos_spec())
            &&& arbol_generador(a.grafo_spec(), *v0, grafo.aristas_spec())
        }),
{
    let aristas = grafo.get_aristas();
    if !tiene_vertice(aristas, v0) {
        return None;
    }
    let n = grafo.size();
    let raiz = *v0;
    let mut visitados: Vec<V> = vec![raiz];
    let mut df: Etiquetado<V> = Etiquetado::new(Some("df"));
    df.add_vertice(raiz, 0);
    let mut arbol: Vec<Arista<V, P>> = Vec::new();
    let mut pila: Vec<V> = Vec::new();
    let mut actual = raiz;
    proof {
        assert(visitados@ =~= seq![raiz]);
        assert(vertices_etiquetados(df.datos_spec()) =~= seq![raiz]);
        assert forall|v: V| visitados@.contains(v) <==> #[trigger] alcanzados(raiz, arbol@).contains(v) by {
            if visitados@.contains(v) {
                assert(visitados@[0] == v);
            }
            if v == raiz {
                assert(visitados@[0] == raiz);
            }
        }
    }
    proof {
        assert(visitados@.take(1) =~= visitados@);
        assert(arbol@.take(0) =~= arbol@);
        let k0 = choose|i: int| 0 <= i < aristas@.len() && toca::<V, P, Arista<V, P>>(#[trigger] aristas@[i], raiz);
        lema_toca_en_vertices::<V, P, Arista<V, P>>(aristas@, k0, raiz);
    }
    loop
        invariant
            aristas@ == grafo.aristas_spec(),
            n == vertices_de(aristas@).len(),
            n <= isize::MAX,
            vertices_de(aristas@).contains(raiz),
            forall|k: int, u: V| #[trigger] pendiente(aristas@, visitados@, k, u) ==> u == actual || pila@.contains(u),
            arbol_desde(raiz, arbol@),
            aristas_de_grafo(arbol@, aristas@),
            forall|v: V| visitados@.contains(v) <==> #[trigger] alcanzados(raiz, arbol@).contains(v),
            visitados@.no_duplicates(),
            visitados@.len() == arbol@.len() + 1,
            visitados@[0] == raiz,
            visitados@.contains(actual),
            forall|j: int| 0 <= j < arbol@.len() ==> #[trigger] alcanza(raiz, arbol@, j, visitados@[j + 1]),
            forall|j: int, v: V|
                0 <= j <= arbol@.len() ==> (visitados@.take(j + 1).contains(v) <==> #[trigger] alcanzados(raiz, arbol@.take(j)).contains(v)),
            vertices_etiquetados(df.datos_spec()) == visitados@,
            forall|j: int| 0 <= j < df.datos_spec().len() ==> (#[trigger] df.datos_spec()[j]).valor_spec() == j,
            forall|j: int| 0 <= j < pila@.len() ==> visitados@.contains(#[trigger] pila@[j]),
            arbol@.len() <= n,
        ensures
            forall|k: int, u: V| !#[trigger] pendiente(aristas@, visitados@, k, u),
        decreases 2 * (n - arbol@.len()) + pila@.len(),
    {
        if arbol.len() + 1 >= n {
            proof {
                lema_todos_alcanzados(raiz, arbol@, aristas@, visitados@);
            }
            break;
        }
        let siguiente = primer_vecino_nuevo(aristas, &actual, &visitados);
        match siguiente {
            Some((e, w)) => {
                let arista = aristas[e];
                proof {
                    assert(cruza(arista.extremos(), visitados@));
                    lema_crecer(raiz, arbol@, arista, visitados@, w);
                    lema_push_contiene(visitados@, w);
                }
                let ghost d_previo = df.datos_spec();
                let ghost arbol0 = arbol@;
                let ghost vis0 = visitados@;
                let ghost pila0 = pila@;
                let ghost actual0 = actual;
                pila.push(actual);
                arbol.push(arista);
                visitados.push(w);
                let etiqueta = visitados.len() - 1;
                df.add_vertice(w, etiqueta as isize);
                actual = w;
                proof {
                    assert(visitados@[visitados@.len() - 1] == w);
                    assert(vertices_etiquetados(df.datos_spec()) =~= visitados@) by {
                        assert(df.datos_spec() =~= d_previo.push(df.datos_spec().last()));
                    }
                    assert forall|j: int| 0 <= j < df.datos_spec().len() implies (#[trigger] df.datos_spec()[j]).valor_spec() == j by {
                        if j < d_previo.len() {
                            assert(df.datos_spec()[j] == d_previo[j]);
                        }
                    }
                    assert forall|i: int| 0 <= i < arbol@.len() implies aristas@.contains(#[trigger] arbol@[i]) by {
                        if i < arbol@.len() - 1 {
                            assert(arbol@[i] == arbol@.drop_last()[i]);
                        } else {
                            assert(aristas@[e as int] == arista);
                        }
                    }
                    assert(visitados@[0] == raiz);
                    assert(visitados@.no_duplicates()) by {
                        assert forall|a: int, b: int| 0 <= a < b < visitados@.len() implies visitados@[a] != visitados@[b] by {
                            if b == visitados@.len() - 1 {
                                assert(visitados@.drop_last()[a] == visitados@[a]);
                                assert(visitados@.drop_last().contains(visitados@[a]));
                            } else {
                                assert(visitados@.drop_last()[a] == visitados@[a]);
                                assert(visitados@.drop_last()[b] == visitados@[b]);
                            }
                        }
                    }
                    assert forall|j: int| 0 <= j < pila@.len() implies visitados@.contains(#[trigger] pila@[j]) by {
                        if j < pila@.len() - 1 {
                            assert(pila@[j] == pila@.drop_last()[j]);
                        }
                    }
                    assert forall|j: int, v: V|
                        0 <= j <= arbol@.len() implies (visitados@.take(j + 1).contains(v) <==> #[trigger] alcanzados(raiz, arbol@.take(j)).contains(v)) by {
                        if j < arbol@.len() {
                            assert(arbol@.take(j) =~= arbol0.take(j));
                            assert(visitados@.take(j + 1) =~= vis0.take(j + 1));
                        } else {
                            assert(arbol@.take(j) =~= arbol@);
                            assert(visitados@.take(j + 1) =~= visitados@);
                        }
                    }
                    assert forall|j: int| 0 <= j < arbol@.len() implies #[trigger] alcanza(raiz, arbol@, j, visitados@[j + 1]) by {
                        if j < arbol0.len() {
                            assert(arbol@.take(j) =~= arbol0.take(j));
                            assert(arbol@[j] == arbol0[j]);
                            assert(visitados@[j + 1] == vis0[j + 1]);
                            assert(alcanza(raiz, arbol0, j, vis0[j + 1]));
                        } else {
                            assert(arbol@.take(j) =~= arbol0);
                            assert(visitados@[j + 1] == w);
                            assert(!alcanzados(raiz, arbol0).contains(w));
                        }
                    }
                    assert forall|k: int, u: V| #[trigger] pendiente(aristas@, visitados@, k, u) implies u == actual
                        || pila@.contains(u) by {
                        if u != w {
                            let j = choose|j: int| 0 <= j < visitados@.len() && visitados@[j] == u;
                            assert(j < vis0.len());
                            assert(vis0[j] == u);
                            let x = otro_extremo(aristas@[k].extremos(), u)->0;
                            assert(!vis0.contains(x)) by {
                                if vis0.contains(x) {
                                    let i = choose|i: int| 0 <= i < vis0.len() && vis0[i] == x;
                                    assert(visitados@[i] == x);
                                }
                            }
                            assert(pendiente(aristas@, vis0, k, u));
                            if u == actual0 {
                                assert(pila@[pila@.len() - 1] == actual0);
                            } else {
                                let i = choose|i: int| 0 <= i < pila0.len() && pila0[i] == u;
                                assert(pila@[i] == u);
                            }
                        }
                    }
                }
            },
            None => {
                let ghost pila_previa = pila@;
                let ghost actual0 = actual;
                match pila.pop() {
                    Some(p) => {
                        proof {
                            assert(pila_previa[pila_previa.len() - 1] == p);
                            assert(pila@ == pila_previa.drop_last());
                        }
                        actual = p;
                        proof {
                            assert forall|k: int, u: V| #[trigger] pendiente(aristas@, visitados@, k, u) implies u == actual
                                || pila@.contains(u) by {
                                assert(u != actual0);
                                let i = choose|i: int| 0 <= i < pila_previa.len() && pila_previa[i] == u;
                                if i < pila_previa.len() - 1 {
                                    assert(pila@[i] == u);
                                }
                            }
                        }
                    },
                    None => {
                        proof {
                            assert forall|k: int, u: V| !#[trigger] pendiente(aristas@, visitados@, k, u) by {
                                if pendiente(aristas@, visitados@, k, u) {
                                    assert(u != actual0);
                                    assert(pila_previa.len() == 0);
                                }
                            }
                        }
                        break;
                    },
                }
            },
        }
    }
    let ghost lista = arbol@;
    let r = construir_arbol(raiz, arbol, Ghost(grafo.aristas_spec()));
    proof {
        lema_cardinal_alcanzados(raiz, lista, visitados@);
        lema_cerrado_sin_pendientes(raiz, lista, aristas@, visitados@);
        assert(arbol_generador(r.grafo_spec(), raiz, grafo.aristas_spec()));
        assert forall|j: int| 0 <= j < lista.len() implies #[trigger] alcanza(raiz, lista, j, df.datos_spec()[j + 1].vertice_spec()) by {
            assert(vertices_etiquetados(df.datos_spec())[j + 1] == visitados@[j + 1]);
        }
        assert forall|j: int, i: int|
            #![trigger lista[j], df.datos_spec()[i]]
            0 <= j < lista.len() && 0 <= i < df.datos_spec().len() && contiene(lista[j].extremos(), df.datos_spec()[i].vertice_spec())
                implies i <= j + 1 by {
            let x = df.datos_spec()[i].vertice_spec();
            assert(vertices_etiquetados(df.datos_spec())[i] == visitados@[i]);
            assert(x == visitados@[i]);
            lema_desde_j(raiz, lista, j);
            if alcanzados(raiz, lista.take(j)).contains(x) {
                assert(visitados@.take(j + 1).contains(x));
                let pre = visitados@.take(j + 1);
                let p = choose|p: int| 0 <= p < pre.len() && #[trigger] pre[p] == x;
                assert(visitados@[p] == x);
            } else {
                assert(alcanza(raiz, lista, j, df.datos_spec()[j + 1].vertice_spec()));
                assert(vertices_etiquetados(df.datos_spec())[j + 1] == visitados@[j + 1]);
                assert(x == visitados@[j + 1]) by {
                    let (a, b) = lista[j].extremos()->0;
                }
            }
        }
        assert(etiquetas_en_orden(raiz, lista, df.datos_spec()));
        assert(arbol_de(r.grafo_spec(), r.raiz_spec(), lista, grafo.aristas_spec()));
    }
    Some((r, df))
}

/// The first edge, in list order, that leads from `actual` to a vertex not
/// in `visitados`, with that vertex.
fn primer_vecino_nuevo<V: VerticeT, P: PesoT>(aristas: &Vec<Arista<V, P>>, actual: &V, visitados: &Vec<V>) -> (r: Option<(usize, V)>)
    requires
        visitados@.contains(*actual),
    ensures
        r is None ==> forall|k: int| !#[trigger] pendiente(aristas@, visitados@, k, *actual),
        r is Some ==> ({
            let (e, w) = r->0;
            &&& e < aristas@.len()
            &&& otro_extremo(aristas@[e as int].extremos(), *actual) == Some(w)
            &&& !visitados@.contains(w)
        }),
{
    let mut k: usize = 0;
    while k < aristas.len()
        invariant
            k <= aristas@.len(),
            visitados@.contains(*actual),
            forall|kk: int| kk < k ==> !#[trigger] pendiente(aristas@, visitados@, kk, *actual),
        decreases aristas@.len() - k,
    {
        match aristas[k].other(actual) {
            Some(w) => {
                if !contiene_vertice(visitados, &w) {
                    return Some((k, w));
                }
            },
            None => {},
        }
        k = k + 1;
    }
    None
}

/// When no edge leads from a reached vertex to an unreached one, the tree
/// spans the component of its root.
proof fn lema_cerrado_sin_pendientes<V: VerticeT, P: PesoT>(raiz: V, t: Seq<Arista<V, P>>, s: Seq<Arista<V, P>>, vs: Seq<V>)
    requires
        forall|v: V| vs.contains(v) <==> #[trigger] alcanzados(raiz, t).contains(v),
        forall|k: int, u: V| !#[trigger] pendiente(s, vs, k, u),
    ensures
        cerrado(raiz, t, s),
{
    assert forall|k: int| 0 <= k < s.len() implies match (#[trigger] s[k]).extremos() {
        Some((a, b)) => alcanzados(raiz, t).contains(a) == alcanzados(raiz, t).contains(b),
        None => true,
    } by {
        match s[k].extremos() {
            Some((a, b)) => {
                if vs.contains(a) && !vs.contains(b) {
                    assert(pendiente(s, vs, k, a));
                }
                if vs.contains(b) && !vs.contains(a) {
                    assert(pendiente(s, vs, k, b));
                }
            },
            None => {},
        }
    }
}

/// When the reached vertices are as many as the vertices of the graph, no
/// edge leads out of them.
proof fn lema_todos_alcanzados<V: VerticeT, P: PesoT>(raiz: V, t: Seq<Arista<V, P>>, s: Seq<Arista<V, P>>, vs: Seq<V>)
    requires
        aristas_de_grafo(t, s),
        vertices_de(s).contains(raiz),
        forall|v: V| vs.contains(v) <==> #[trigger] alcanzados(raiz, t).contains(v),
        vs.no_duplicates(),
        vs.len() >= vertices_de(s).len(),
    ensures
        forall|k: int, u: V| !#[trigger] pendiente(s, vs, k, u),
{
    lema_alcanzados_en_vertices(raiz, t, s);
    crate::camino_minimo::lema_vertices_sin_repetir::<V, P, Arista<V, P>>(s);
    vs.unique_seq_to_set();
    vertices_de(s).unique_seq_to_set();
    assert forall|k: int, u: V| !#[trigger] pendiente(s, vs, k, u) by {
        if pendiente(s, vs, k, u) {
            let w = otro_extremo(s[k].extremos(), u)->0;
            lema_extremos_en_vertices::<V, P, Arista<V, P>>(s, k);
            assert(vertices_de(s).contains(w));
            let resto = vertices_de(s).to_set().remove(w);
            assert forall|v: V| vs.to_set().contains(v) implies resto.contains(v) by {
                assert(vs.contains(v));
                assert(alcanzados(raiz, t).contains(v));
            }
            assert(vs.to_set().subset_of(resto));
            vstd::set_lib::lemma_len_subset(vs.to_set(), resto);
        }
    }
}

proof fn lema_toca_en_vertices<V: VerticeT, P: PesoT, A: AristaT<V, P>>(s: Seq<A>, k: int, v: V)
    requires
        0 <= k < s.len(),
        toca::<V, P, A>(s[k], v),
    ensures
        vertices_de(s).contains(v),
    decreases s.len(),
{
    lema_vertices_crecen::<V, P, A>(s);
    if k < s.len() - 1 {
        assert(s.drop_last()[k] == s[k]);
        lema_toca_en_vertices::<V, P, A>(s.drop_last(), k, v);
    } else {
        s[k].lema_forma(v, s[k]);
    }
}

proof fn lema_desde_j<V: VerticeT, P: PesoT, A: AristaT<V, P>>(raiz: V, t: Seq<A>, j: int)
    requires
        arbol_desde(raiz, t),
        0 <= j < t.len(),
    ensures
        cruza_conjunto(t[j].extremos(), alcanzados(raiz, t.take(j))),
    decreases t.len(),
{
    if j < t.len() - 1 {
        lema_desde_j(raiz, t.drop_last(), j);
        assert(t.drop_last().take(j) =~= t.take(j));
        assert(t.drop_last()[j] == t[j]);
    } else {
        assert(t.take(j) =~= t.drop_last());
    }
}

/// Whether some live edge of `aristas` has `v` as an endpoint.
fn incide<V: VerticeT, P: PesoT>(aristas: &Vec<Arista<V, P>>, v: &V) -> (r: bool)
    ensures
        r == exists|i: int| 0 <= i < aristas@.len() && #[trigger] contiene(aristas@[i].extremos(), *v),
{
    let mut k: usize = 0;
    while k < aristas.len()
        invariant
            k <= aristas@.len(),
            forall|i: int| 0 <= i < k ==> !#[trigger] contiene(aristas@[i].extremos(), *v),
        decreases aristas@.len() - k,
    {
        if aristas[k].arista_contiene_vertice(v) {
            return true;
        }
        k = k + 1;
    }
    false
}

proof fn lema_push_contiene<V>(vs: Seq<V>, w: V)
    ensures
        forall|u: V| vs.contains(u) ==> #[trigger] vs.push(w).contains(u),
        vs.push(w).contains(w),
{
    assert forall|u: V| vs.contains(u) implies #[trigger] vs.push(w).contains(u) by {
        let i = choose|i: int| 0 <= i < vs.len() && vs[i] == u;
        assert(vs.push(w)[i] == u);
    }
    assert(vs.push(w)[vs.len() as int] == w);
}

/// Whether the edge has exactly one endpoint in `vs`.
fn cruza_exec<V: VerticeT, P: PesoT, A: AristaT<V, P>>(e: &A, vs: &Vec<V>) -> (r: bool)
    ensures
        r == cruza(e.extremos(), vs@),
{
    match e.get_vertices() {
        Some((a, b)) => contiene_vertice(vs, &a) != contiene_vertice(vs, &b),
        None => false,
    }
}

/// Appends to `frontera` the indices of the edges that have `v` as an
/// endpoint.
fn agregar_incidentes<V: VerticeT, P: PesoT, A: AristaT<V, P>>(
    aristas: &Vec<A>,
    v: &V,
    frontera: &mut Vec<usize>,
)
    requires
        forall|i: int| 0 <= i < old(frontera)@.len() ==> (#[trigger] old(frontera)@[i]) < aristas@.len(),
    ensures
        forall|i: int| 0 <= i < final(frontera)@.len() ==> (#[trigger] final(frontera)@[i]) < aristas@.len(),
        forall|k: int| 0 <= k < aristas@.len() && contiene(#[trigger] aristas@[k].extremos(), *v) ==> final(frontera)@.contains(k as usize),
        forall|k: usize| old(frontera)@.contains(k) ==> #[trigger] final(frontera)@.contains(k),
{
    let ghost inicial = frontera@;
    let mut k: usize = 0;
    while k < aristas.len()
        invariant
            k <= aristas@.len(),
            forall|i: int| 0 <= i < frontera@.len() ==> (#[trigger] frontera@[i]) < aristas@.len(),
            forall|j: int| 0 <= j < k && contiene(#[trigger] aristas@[j].extremos(), *v) ==> frontera@.contains(j as usize),
            forall|j: usize| inicial.contains(j) ==> #[trigger] frontera@.contains(j),
        decreases aristas@.len() - k,
    {
        if aristas[k].arista_contiene_vertice(v) {
            let ghost previa = frontera@;
            frontera.push(k);
            proof {
                lema_push_contiene(previa, k);
            }
        }
        k = k + 1;
    }
}

/// The position in `frontera` of the first edge of least weight.
fn indice_minimo<V: VerticeT, P: PesoT, A: AristaT<V, P>>(aristas: &Vec<A>, frontera: &Vec<usize>) -> (r: usize)
    requires
        frontera@.len() > 0,
        forall|i: int| 0 <= i < frontera@.len() ==> (#[trigger] frontera@[i]) < aristas@.len(),
    ensures
        r < frontera@.len(),
        P::con_orden() && (forall|j: int| 0 <= j < frontera@.len() ==> (#[trigger] aristas@[frontera@[j] as int]).peso_spec() is Some)
            ==> forall|j: int|
            0 <= j < frontera@.len() ==> valor_opcional(aristas@[frontera@[r as int] as int].peso_spec()) <= valor_opcional(
                #[trigger] aristas@[frontera@[j] as int].peso_spec(),
            ),
{
    let ghost completos = P::con_orden() && (forall|j: int| 0 <= j < frontera@.len() ==> (#[trigger] aristas@[frontera@[j] as int]).peso_spec() is Some);
    let mut m: usize = 0;
    let mut i: usize = 1;
    while i < frontera.len()
        invariant
            1 <= i <= frontera@.len(),
            m < i,
            forall|i: int| 0 <= i < frontera@.len() ==> (#[trigger] frontera@[i]) < aristas@.len(),
            completos == (P::con_orden() && (forall|j: int| 0 <= j < frontera@.len() ==> (#[trigger] aristas@[frontera@[j] as int]).peso_spec() is Some)),
            completos ==> forall|j: int|
                0 <= j < i ==> valor_opcional(aristas@[frontera@[m as int] as int].peso_spec()) <= valor_opcional(
                    #[trigger] aristas@[frontera@[j] as int].peso_spec(),
                ),
        decreases frontera@.len() - i,
    {
        match (aristas[frontera[i]].get_peso(), aristas[frontera[m]].get_peso()) {
            (Some(p), Some(q)) => {
                if p.menor(&q) {
                    m = i;
                }
            },
            _ => {},
        }
        i = i + 1;
    }
    m
}

} // verus!
