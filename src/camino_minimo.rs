use vstd::prelude::*;

use crate::arbol::Arbol;
use crate::arista_t::{otro_extremo, suma_pesos, todas_con_peso, valor_opcional, AristaT};
use crate::etiquetado::{vertices_etiquetados, Etiqueta, Etiquetado};
use crate::grafo_t::{anadir, con_nuevo, vertices_de, GrafoT};
use crate::peso::PesoT;
use crate::vertice::{contiene_vertice, VerticeT};

verus! {

/// Whether the labels `d` of a shortest-path run from `raiz` over the edge
/// list `s` are sound: every vertex labelled once, all of them vertices of
/// `s`, the last label `raiz` with 0.
pub open spec fn distancias_validas<V: VerticeT, P: PesoT, A: AristaT<V, P>>(
    raiz: V,
    s: Seq<A>,
    d: Seq<Etiqueta<V>>,
) -> bool {
    &&& d.len() >= 1
    &&& d.last().vertice_spec() == raiz
    &&& d.last().valor_spec() == 0
    &&& vertices_etiquetados(d).no_duplicates()
    &&& forall|j: int| 0 <= j < d.len() ==> vertices_de(s).contains(#[trigger] d[j].vertice_spec())
}

/// The vertex reached by traversing the edges of `c` in order from `desde`,
/// each one from the vertex reached so far; `None` when some edge cannot be
/// traversed from there.
pub open spec fn destino_camino<V: VerticeT, P: PesoT, A: AristaT<V, P>>(desde: V, c: Seq<A>) -> Option<V>
    decreases c.len(),
{
    if c.len() == 0 {
        Some(desde)
    } else {
        match destino_camino(desde, c.drop_last()) {
            Some(u) => if c.last().accesible_spec(u) {
                otro_extremo(c.last().extremos(), u)
            } else {
                None
            },
            None => None,
        }
    }
}

/// Whether `c` is a walk of edges of `s` from `desde` to `hasta`, every edge
/// weighted, of total weight `largo`.
pub open spec fn camino_de<V: VerticeT, P: PesoT, A: AristaT<V, P>>(
    s: Seq<A>,
    desde: V,
    hasta: V,
    c: Seq<A>,
    largo: int,
) -> bool {
    &&& forall|i: int| 0 <= i < c.len() ==> s.contains(#[trigger] c[i])
    &&& destino_camino(desde, c) == Some(hasta)
    &&& todas_con_peso(c.map_values(|a: A| a.peso_spec()))
    &&& suma_pesos(c.map_values(|a: A| a.peso_spec())) == largo
}

/// Whether some walk of edges of `s` leads from `desde` to `hasta` with total
/// weight `largo`.
pub open spec fn alcanzable_con<V: VerticeT, P: PesoT, A: AristaT<V, P>>(s: Seq<A>, desde: V, hasta: V, largo: int) -> bool {
    exists|c: Seq<A>| #[trigger] camino_de(s, desde, hasta, c, largo)
}

/// Whether each label of `d` is the length of some walk from `raiz` to its
/// vertex (when that length fits in the label).
pub open spec fn etiquetas_alcanzables<V: VerticeT, P: PesoT, A: AristaT<V, P>>(
    s: Seq<A>,
    raiz: V,
    d: Seq<Etiqueta<V>>,
) -> bool {
    forall|j: int| 0 <= j < d.len() ==> etiqueta_alcanzable(s, raiz, #[trigger] d[j])
}

/// Whether the label `e` is the length of some walk from `raiz` to its
/// vertex (when that length fits in the label).
pub open spec fn etiqueta_alcanzable<V: VerticeT, P: PesoT, A: AristaT<V, P>>(s: Seq<A>, raiz: V, e: Etiqueta<V>) -> bool {
    exists|largo: int|
        0 <= largo && #[trigger] alcanzable_con(s, raiz, e.vertice_spec(), largo) && (largo <= isize::MAX
            ==> e.valor_spec() == largo)
}

proof fn lema_extender_camino<V: VerticeT, P: PesoT, A: AristaT<V, P>>(
    s: Seq<A>,
    raiz: V,
    u: V,
    c: Seq<A>,
    largo: int,
    e: A,
    w: V,
    p: P,
)
    requires
        camino_de(s, raiz, u, c, largo),
        s.contains(e),
        e.accesible_spec(u),
        otro_extremo(e.extremos(), u) == Some(w),
        e.peso_spec() == Some(p),
    ensures
        camino_de(s, raiz, w, c.push(e), largo + p.valor()),
{
    let c2 = c.push(e);
    assert(c2.drop_last() =~= c);
    assert(c2.map_values(|a: A| a.peso_spec()).drop_last() =~= c.map_values(|a: A| a.peso_spec()));
    assert forall|i: int| 0 <= i < c2.len() implies s.contains(#[trigger] c2[i]) by {
        if i < c.len() {
            assert(c2[i] == c[i]);
        }
    }
    let m2 = c2.map_values(|a: A| a.peso_spec());
    let m1 = c.map_values(|a: A| a.peso_spec());
    assert forall|i: int| 0 <= i < m2.len() implies (#[trigger] m2[i]) is Some by {
        if i < c.len() {
            assert(m2[i] == m1[i]);
        }
    }
}

/// The vertex list of an edge list has no repetitions.
pub proof fn lema_vertices_sin_repetir<V: VerticeT, P: PesoT, A: AristaT<V, P>>(s: Seq<A>)
    ensures
        vertices_de(s).no_duplicates(),
    decreases s.len(),
{
    if s.len() > 0 {
        lema_vertices_sin_repetir::<V, P, A>(s.drop_last());
        let vs = vertices_de(s.drop_last());
        match s.last().extremos() {
            Some((a, b)) => {
                lema_con_nuevo(vs, a);
                lema_con_nuevo(con_nuevo(vs, a), b);
            },
            None => match s.last().aislado() {
                Some(a) => {
                    lema_con_nuevo(vs, a);
                },
                None => {},
            },
        }
    }
}

proof fn lema_con_nuevo<V>(vs: Seq<V>, v: V)
    requires
        vs.no_duplicates(),
    ensures
        con_nuevo(vs, v).no_duplicates(),
        con_nuevo(vs, v).contains(v),
        forall|u: V| vs.contains(u) ==> #[trigger] con_nuevo(vs, v).contains(u),
{
    if !vs.contains(v) {
        assert(vs.push(v)[vs.len() as int] == v);
        assert forall|u: V| vs.contains(u) implies #[trigger] vs.push(v).contains(u) by {
            let i = choose|i: int| 0 <= i < vs.len() && vs[i] == u;
            assert(vs.push(v)[i] == u);
        }
    }
}

/// The index of `v` in `vs`.
pub(crate) fn posicion<V: VerticeT>(vs: &Vec<V>, v: &V) -> (r: Option<usize>)
    ensures
        r is Some ==> r->0 < vs@.len() && vs@[r->0 as int] == *v,
        r is None ==> !vs@.contains(*v),
{
    let mut i: usize = 0;
    while i < vs.len()
        invariant
            i <= vs@.len(),
            forall|j: int| 0 <= j < i ==> vs@[j] != *v,
        decreases vs@.len() - i,
    {
        if vs[i].igual(v) {
            return Some(i);
        }
        i = i + 1;
    }
    None
}

/// The largest weight of a live edge of `s` (zero when there is none).
pub open spec fn peso_maximo<V: VerticeT, P: PesoT, A: AristaT<V, P>>(s: Seq<A>) -> int
    decreases s.len(),
{
    if s.len() == 0 {
        0
    } else {
        let m = peso_maximo(s.drop_last());
        let x = match s.last().extremos() {
            Some(_) => valor_opcional(s.last().peso_spec()),
            None => 0,
        };
        if x > m {
            x
        } else {
            m
        }
    }
}

/// Whether a distance of up to the number of vertices times the largest
/// weight is representable: then no sum in a shortest-path run overflows.
pub open spec fn sumas_acotadas<V: VerticeT, P: PesoT, A: AristaT<V, P>>(s: Seq<A>) -> bool {
    P::en_rango(vertices_de(s).len() * peso_maximo(s))
}

proof fn lema_peso_maximo<V: VerticeT, P: PesoT, A: AristaT<V, P>>(s: Seq<A>, k: int)
    requires
        0 <= k < s.len(),
    ensures
        0 <= peso_maximo(s),
        s[k].extremos() is Some ==> valor_opcional(s[k].peso_spec()) <= peso_maximo(s),
    decreases s.len(),
{
    lema_peso_maximo_no_negativo(s);
    if k < s.len() - 1 {
        lema_peso_maximo(s.drop_last(), k);
        assert(s.drop_last()[k] == s[k]);
    }
}

proof fn lema_peso_maximo_no_negativo<V: VerticeT, P: PesoT, A: AristaT<V, P>>(s: Seq<A>)
    ensures
        0 <= peso_maximo(s),
    decreases s.len(),
{
    if s.len() > 0 {
        lema_peso_maximo_no_negativo(s.drop_last());
    }
}


/// Whether the edge carries a non-negative weight.
pub open spec fn peso_bueno<V: VerticeT, P: PesoT, A: AristaT<V, P>>(e: A) -> bool {
    &&& P::con_orden()
    &&& e.peso_spec() is Some
    &&& e.peso_spec()->0.valor() >= 0
}

/// Whether every edge that can be traversed from one of the first `n`
/// vertices of `vs` carries a non-negative weight.
pub open spec fn verificadas<V: VerticeT, P: PesoT, A: AristaT<V, P>>(s: Seq<A>, vs: Seq<V>, n: int) -> bool {
    forall|k: int, i: int|
        0 <= k < s.len() && 0 <= i < n && #[trigger] s[k].accesible_spec(vs[i]) ==> peso_bueno::<V, P, A>(s[k])
}

/// Whether `c` is a walk of edges of `s` from `desde` to `hasta`, weighted or
/// not.
pub open spec fn camino_sin_pesos<V: VerticeT, P: PesoT, A: AristaT<V, P>>(s: Seq<A>, desde: V, hasta: V, c: Seq<A>) -> bool {
    &&& forall|i: int| 0 <= i < c.len() ==> s.contains(#[trigger] c[i])
    &&& destino_camino(desde, c) == Some(hasta)
}

/// Whether every edge that can be traversed from a vertex reachable from
/// `raiz` carries a non-negative weight.
pub open spec fn pesos_alcanzables_ok<V: VerticeT, P: PesoT, A: AristaT<V, P>>(s: Seq<A>, raiz: V) -> bool {
    forall|z: V, c: Seq<A>, k: int|
        #![trigger camino_sin_pesos(s, raiz, z, c), s[k].accesible_spec(z)]
        camino_sin_pesos(s, raiz, z, c) && 0 <= k < s.len() && s[k].accesible_spec(z) ==> peso_bueno::<V, P, A>(s[k])
}

/// Every walk from `raiz` ends in `vs` when no edge leaves `vs`.
pub(crate) proof fn lema_alcanzables<V: VerticeT, P: PesoT, A: AristaT<V, P>>(s: Seq<A>, raiz: V, vs: Seq<V>, z: V, c: Seq<A>)
    requires
        vs.contains(raiz),
        forall|k: int, u: V, w: V| #[trigger] arco_de(s, k, u, w) && vs.contains(u) ==> vs.contains(w),
        camino_sin_pesos(s, raiz, z, c),
    ensures
        vs.contains(z),
    decreases c.len(),
{
    if c.len() > 0 {
        let c1 = c.drop_last();
        let u = destino_camino(raiz, c1)->0;
        assert forall|i: int| 0 <= i < c1.len() implies s.contains(#[trigger] c1[i]) by {
            assert(c1[i] == c[i]);
        }
        lema_alcanzables(s, raiz, vs, u, c1);
        assert(s.contains(c[c.len() - 1]));
        let k = choose|k: int| 0 <= k < s.len() && s[k] == c[c.len() - 1];
        assert(arco_de(s, k, u, z));
    }
}

/// Whether the labels `d` give shortest distances from `raiz` over `s`: every
/// vertex that some walk reaches is labelled, and its label is the length of
/// a walk to it that no walk to it undercuts (when that length fits in the
/// label).
pub open spec fn distancias_minimas<V: VerticeT, P: PesoT, A: AristaT<V, P>>(
    s: Seq<A>,
    raiz: V,
    d: Seq<Etiqueta<V>>,
) -> bool {
    forall|z: V, c: Seq<A>, largo: int|
        #[trigger] camino_de(s, raiz, z, c, largo) ==> exists|j: int|
            0 <= j < d.len() && d[j].vertice_spec() == z && #[trigger] minimo_hasta(s, raiz, z, d[j], largo)
}

/// Whether the label `e` on `z` is the length of a walk from `raiz` to `z`
/// of at most `cota` (when that length fits in the label).
pub open spec fn minimo_hasta<V: VerticeT, P: PesoT, A: AristaT<V, P>>(
    s: Seq<A>,
    raiz: V,
    z: V,
    e: Etiqueta<V>,
    cota: int,
) -> bool {
    exists|m: int|
        0 <= m <= cota && #[trigger] alcanzable_con(s, raiz, z, m) && (m <= isize::MAX ==> e.valor_spec() == m)
}

/// Whether an edge of `s` leads from `u` to `w` with weight `p`.
pub open spec fn arco_de<V: VerticeT, P: PesoT, A: AristaT<V, P>>(s: Seq<A>, k: int, u: V, w: V) -> bool {
    &&& 0 <= k < s.len()
    &&& s[k].accesible_spec(u)
    &&& otro_extremo(s[k].extremos(), u) == Some(w)
}

/// The weight of the edge at `k` of `s`.
pub open spec fn peso_de<V: VerticeT, P: PesoT, A: AristaT<V, P>>(s: Seq<A>, k: int) -> int {
    s[k].peso_spec()->0.valor()
}

/// Whether every walk from `raiz` ends at a settled vertex `vs[i]` and is no
/// shorter than `ds[i]`, given that edges between settled vertices respect
/// `ds` and no edge leaves the settled set.
proof fn lema_caminos_cerrados<V: VerticeT, P: PesoT, A: AristaT<V, P>>(
    s: Seq<A>,
    raiz: V,
    vs: Seq<V>,
    ds: Seq<int>,
    z: V,
    c: Seq<A>,
    largo: int,
)
    requires
        vs.len() == ds.len(),
        vs.len() > 0,
        vs[0] == raiz,
        ds[0] == 0,
        forall|k: int, u: V, w: V| #[trigger] arco_de(s, k, u, w) && vs.contains(u) ==> vs.contains(w),
        forall|k: int, i1: int, i2: int|
            0 <= i1 < vs.len() && 0 <= i2 < vs.len() && #[trigger] arco_de(s, k, vs[i1], vs[i2]) ==> ds[i2]
                <= ds[i1] + peso_de(s, k),
        camino_de(s, raiz, z, c, largo),
    ensures
        exists|i: int| 0 <= i < vs.len() && vs[i] == z && ds[i] <= largo,
    decreases c.len(),
{
    let m = c.map_values(|a: A| a.peso_spec());
    if c.len() == 0 {
        assert(m =~= Seq::<Option<P>>::empty());
        assert(ds[0] <= largo);
    } else {
        let c1 = c.drop_last();
        let m1 = c1.map_values(|a: A| a.peso_spec());
        assert(m.drop_last() =~= m1);
        let e = c.last();
        let u = destino_camino(raiz, c1)->0;
        assert(s.contains(c[c.len() - 1]));
        let k = choose|k: int| 0 <= k < s.len() && s[k] == e;
        assert(m[m.len() - 1] is Some);
        let l1 = suma_pesos(m1);
        assert forall|i: int| 0 <= i < c1.len() implies s.contains(#[trigger] c1[i]) by {
            assert(c1[i] == c[i]);
        }
        assert forall|i: int| 0 <= i < m1.len() implies (#[trigger] m1[i]) is Some by {
            assert(m1[i] == m[i]);
        }
        assert(camino_de(s, raiz, u, c1, l1));
        lema_caminos_cerrados(s, raiz, vs, ds, u, c1, l1);
        let i1 = choose|i: int| 0 <= i < vs.len() && vs[i] == u && ds[i] <= l1;
        e.lema_forma(u, e);
        assert(arco_de(s, k, u, z));
        assert(vs.contains(u));
        assert(vs.contains(z));
        let i2 = choose|i: int| 0 <= i < vs.len() && vs[i] == z;
        assert(arco_de(s, k, vs[i1], vs[i2]));
        assert(s[k].extremos() is Some);
    }
}

/// Shortest paths from `v0` by Dijkstra's algorithm, over any graph kind:
/// from the most recently settled vertex it relaxes the tentative distances
/// along the edges that can be traversed from it toward unsettled vertices,
/// then settles the unsettled vertex of least tentative distance (the first
/// one among equals), until no vertex has a tentative distance. Gives the
/// tree of the edges used to reach each settled vertex, and the labeling of
/// the settled vertices with their distances, `v0` last with 0.
///
/// `None` when `v0` is not a vertex of the graph, or when an edge met on the
/// way has no weight, a negative weight, or a sum of weights does not fit.
pub fn arbol_camino_minimo<G: GrafoT<V, P, A>, V: VerticeT, P: PesoT, A: AristaT<V, P>>(
    grafo: &G,
    v0: &V,
) -> (r: Option<(Arbol<G, V>, Etiquetado<V>)>)
    ensures
        !vertices_de(grafo.aristas_spec()).contains(*v0) ==> r is None,
        vertices_de(grafo.aristas_spec()).contains(*v0) && P::con_orden() && pesos_alcanzables_ok(
            grafo.aristas_spec(),
            *v0,
        ) && sumas_acotadas(grafo.aristas_spec()) ==> r is Some,
        r is Some ==> pesos_alcanzables_ok(grafo.aristas_spec(), *v0),
        r is Some ==> ({
            let (a, d) = r->0;
            &&& a.raiz_spec() == *v0
            &&& distancias_validas(*v0, grafo.aristas_spec(), d.datos_spec())
            &&& etiquetas_alcanzables(grafo.aristas_spec(), *v0, d.datos_spec())
            &&& P::con_orden() ==> distancias_minimas(
                grafo.aristas_spec(),
                *v0,
                d.datos_spec(),
            )
            &&& exists|t: Seq<A>|
                #[trigger] a.grafo_spec().aristas_spec() == anadir(Seq::<A>::empty(), t) && forall|i: int|
                    0 <= i < t.len() ==> grafo.aristas_spec().contains(t[i])
        }),
{
    let vertices = grafo.get_vertices();
    let raiz = *v0;
    let inicio = match posicion(&vertices, &raiz) {
        Some(i) => i,
        None => {
            return None;
        },
    };
    let aristas = grafo.get_aristas();
    let nv = vertices.len();
    let ghost w_max = peso_maximo(aristas@);
    let ghost promesa = P::con_orden() && pesos_alcanzables_ok(aristas@, raiz) && P::en_rango(nv * w_max);
    proof {
        lema_vertices_sin_repetir::<V, P, A>(grafo.aristas_spec());
        lema_peso_maximo_no_negativo::<V, P, A>(aristas@);
    }
    let mut dist: Vec<Option<P>> = Vec::new();
    let mut pred: Vec<V> = Vec::new();
    let mut i: usize = 0;
    while i < nv
        invariant
            nv == vertices@.len(),
            i <= nv,
            dist@.len() == i,
            pred@.len() == i,
            forall|j: int| 0 <= j < i ==> (#[trigger] dist@[j]) is None,
        decreases nv - i,
    {
        dist.push(None);
        pred.push(raiz);
        i = i + 1;
    }
    let mut visitados: Vec<V> = vec![raiz];
    let mut actual = raiz;
    let mut acarreo = P::elemento_neutro();
    let mut arbol: Vec<A> = Vec::new();
    let mut distancia: Etiquetado<V> = Etiquetado::new(Some("Distancias"));
    let ghost mut ds: Seq<int> = seq![0];
    proof {
        assert(visitados@ =~= seq![raiz]);
        assert(vertices_etiquetados(distancia.datos_spec()) =~= Seq::<V>::empty());
        assert(vertices@[inicio as int] == raiz);
        if P::con_orden() {
            let c = Seq::<A>::empty();
            assert(c.map_values(|a: A| a.peso_spec()) =~= Seq::<Option<P>>::empty());
            assert(camino_de(aristas@, raiz, raiz, c, acarreo.valor()));
        }
        assert(etiquetas_alcanzables(aristas@, raiz, distancia.datos_spec()));
        lema_visitados_acotados(visitados@, vertices@);
        assert(triangular(aristas@, visitados@, ds)) by {
            assert forall|k: int, i1: int, i2: int|
                0 <= i1 < ds.len() && 0 <= i2 < ds.len() && #[trigger] arco_de(aristas@, k, visitados@[i1], visitados@[i2])
                    && aristas@[k].peso_spec() is Some && peso_de(aristas@, k) >= 0 implies ds[i2] <= ds[i1] + peso_de(aristas@, k) by {
                assert(i1 == 0 && i2 == 0);
            }
        }
    }
    let mut rondas: usize = 0;
    loop
        invariant
            vertices@ == vertices_de(grafo.aristas_spec()),
            vertices@.no_duplicates(),
            aristas@ == grafo.aristas_spec(),
            nv == vertices@.len(),
            dist@.len() == nv,
            pred@.len() == nv,
            visitados@.no_duplicates(),
            visitados@[0] == raiz,
            visitados@.len() == rondas + 1,
            visitados@.len() <= nv,
            actual == visitados@.last(),
            vertices_etiquetados(distancia.datos_spec()) == visitados@.drop_first(),
            forall|j: int| 0 <= j < visitados@.len() ==> vertices@.contains(#[trigger] visitados@[j]),
            forall|j: int| 0 <= j < nv && (#[trigger] dist@[j]) is Some ==> !visitados@.contains(vertices@[j]),
            forall|i: int| 0 <= i < arbol@.len() ==> aristas@.contains(#[trigger] arbol@[i]),
            P::con_orden() ==> 0 <= acarreo.valor(),
            rondas > 0 ==> P::con_orden(),
            P::con_orden() ==> alcanzable_con(aristas@, raiz, actual, acarreo.valor()),
            forall|j: int| 0 <= j < nv && (#[trigger] dist@[j]) is Some ==> P::con_orden() && 0 <= dist@[j]->0.valor()
                && alcanzable_con(aristas@, raiz, vertices@[j], dist@[j]->0.valor()),
            etiquetas_alcanzables(aristas@, raiz, distancia.datos_spec()),
            // What the settled distances are, and how they relate.
            ds.len() == visitados@.len(),
            ds[0] == 0,
            P::con_orden() ==> acarreo.valor() == ds.last(),
            forall|i: int| 0 <= i < ds.len() ==> 0 <= #[trigger] ds[i],
            forall|i: int| 0 <= i < ds.len() - 1 ==> #[trigger] distancia.datos_spec()[i].vertice_spec() == visitados@[i + 1]
                && etiqueta_de(distancia.datos_spec()[i], ds[i + 1]),
            forall|i: int, j: int| 0 <= i < ds.len() && 0 <= j < nv && (#[trigger] dist@[j]) is Some ==> #[trigger] ds[i]
                <= dist@[j]->0.valor(),
            forall|i: int, j: int| 0 <= i < j < ds.len() ==> #[trigger] ds[i] <= #[trigger] ds[j],
            triangular(aristas@, visitados@, ds),
            relajados(aristas@, vertices@, visitados@, ds, dist@, ds.len() - 1),
            verificadas(aristas@, visitados@, ds.len() - 1),
            promesa == (P::con_orden() && pesos_alcanzables_ok(aristas@, raiz) && P::en_rango(nv * w_max)),
            raiz == *v0,
            w_max == peso_maximo(aristas@),
            0 <= w_max,
            promesa ==> forall|i: int| 0 <= i < ds.len() ==> #[trigger] ds[i] <= i * w_max,
            promesa ==> forall|j: int| 0 <= j < nv && (#[trigger] dist@[j]) is Some ==> dist@[j]->0.valor() <= ds.len() * w_max,
            forall|i: int| 0 <= i < ds.len() ==> P::con_orden() ==> alcanzable_con(aristas@, raiz, visitados@[i], #[trigger] ds[i]),
        ensures
            forall|j: int| 0 <= j < nv ==> (#[trigger] dist@[j]) is None,
            relajados(aristas@, vertices@, visitados@, ds, dist@, ds.len() as int),
            verificadas(aristas@, visitados@, ds.len() as int),
        decreases nv - rondas,
    {
        let mut k: usize = 0;
        while k < aristas.len()
            invariant
                vertices@.no_duplicates(),
                vertices@ == vertices_de(grafo.aristas_spec()),
                aristas@ == grafo.aristas_spec(),
                nv == vertices@.len(),
                dist@.len() == nv,
                pred@.len() == nv,
                k <= aristas@.len(),
                actual == visitados@.last(),
                ds.len() == visitados@.len(),
                visitados@.len() >= 1,
                forall|j: int| 0 <= j < nv && (#[trigger] dist@[j]) is Some ==> !visitados@.contains(vertices@[j]),
                P::con_orden() ==> 0 <= acarreo.valor(),
                P::con_orden() ==> acarreo.valor() == ds.last(),
                P::con_orden() ==> alcanzable_con(aristas@, raiz, actual, acarreo.valor()),
                forall|j: int| 0 <= j < nv && (#[trigger] dist@[j]) is Some ==> P::con_orden() && 0 <= dist@[j]->0.valor()
                    && alcanzable_con(aristas@, raiz, vertices@[j], dist@[j]->0.valor()),
                forall|i: int, j: int| 0 <= i < ds.len() && 0 <= j < nv && (#[trigger] dist@[j]) is Some ==> #[trigger] ds[i]
                    <= dist@[j]->0.valor(),
                forall|i: int, j: int| 0 <= i < j < ds.len() ==> #[trigger] ds[i] <= #[trigger] ds[j],
                relajados(aristas@, vertices@, visitados@, ds, dist@, ds.len() - 1),
                promesa == (P::con_orden() && pesos_alcanzables_ok(aristas@, raiz) && P::en_rango(nv * w_max)),
            raiz == *v0,
                w_max == peso_maximo(aristas@),
                0 <= w_max,
                ds.len() <= nv,
                promesa ==> forall|i: int| 0 <= i < ds.len() ==> #[trigger] ds[i] <= i * w_max,
                promesa ==> forall|j: int| 0 <= j < nv && (#[trigger] dist@[j]) is Some ==> dist@[j]->0.valor() <= ds.len() * w_max,
                forall|kk: int, w: V|
                    0 <= kk < k && #[trigger] arco_de(aristas@, kk, actual, w) && !visitados@.contains(w)
                        && aristas@[kk].peso_spec() is Some ==> relajado(vertices@, dist@, w, ds.last() + peso_de(aristas@, kk)),
                verificadas(aristas@, visitados@, ds.len() - 1),
                forall|kk: int| 0 <= kk < k && #[trigger] aristas@[kk].accesible_spec(actual) ==> peso_bueno::<V, P, A>(aristas@[kk]),
                visitados@.len() == ds.len(),
                forall|i: int| 0 <= i < ds.len() ==> P::con_orden() ==> alcanzable_con(aristas@, raiz, visitados@[i], #[trigger] ds[i]),
            decreases aristas@.len() - k,
        {
            let e = aristas[k];
            let ghost dist_previa = dist@;
            if e.es_accesible(&actual) {
                proof {
                    assert(aristas@[k as int] == e);
                    e.lema_forma(actual, e);
                    lema_peso_maximo::<V, P, A>(aristas@, k as int);
                    crate::algoritmo::lema_extremos_en_vertices::<V, P, A>(aristas@, k as int);
                    if promesa {
                        let c = choose|c: Seq<A>| #[trigger] camino_de(aristas@, raiz, actual, c, acarreo.valor());
                        assert(camino_sin_pesos(aristas@, raiz, actual, c));
                    }
                }
                // Every edge that leaves a settled vertex must carry a
                // non-negative weight, whichever vertex it leads to.
                let p = match e.get_peso() {
                    Some(p) => p,
                    None => {
                        proof {
                            assert(!promesa);
                        }
                        return None;
                    },
                };
                if p.es_negativo() {
                    proof {
                        assert(!promesa);
                    }
                    return None;
                }
                match e.other(&actual) {
                    Some(w) => {
                        if !contiene_vertice(&visitados, &w) {
                            let idx = match posicion(&vertices, &w) {
                                Some(idx) => idx,
                                None => {
                                    proof {
                                        assert(vertices@.contains(w));
                                    }
                                    return None;
                                },
                            };
                            proof {
                                if promesa {
                                    let l = ds.len() as int;
                                    assert(ds[l - 1] <= (l - 1) * w_max);
                                    assert(p.valor() <= w_max);
                                    assert((l - 1) * w_max + w_max == l * w_max) by (nonlinear_arith);
                                    assert(l * w_max <= nv * w_max) by (nonlinear_arith)
                                        requires
                                            l <= nv,
                                            0 <= w_max,
                                    ;
                                    assert(0 <= acarreo.valor() + p.valor() <= nv * w_max);
                                    P::lema_rango(acarreo.valor() + p.valor(), nv * w_max);
                                }
                            }
                            let nueva = match acarreo.suma_comprobada(&p) {
                                Some(n) => n,
                                None => {
                                    proof {
                                        assert(!promesa);
                                    }
                                    return None;
                                },
                            };
                            let mejora = match dist[idx] {
                                Some(d) => nueva.menor(&d),
                                None => true,
                            };
                            proof {
                                let c = choose|c: Seq<A>| #[trigger] camino_de(aristas@, raiz, actual, c, acarreo.valor());
                                assert(aristas@[k as int] == e);
                                lema_extender_camino(aristas@, raiz, actual, c, acarreo.valor(), e, w, p);
                                assert(camino_de(aristas@, raiz, w, c.push(e), nueva.valor()));
                            }
                            if mejora {
                                dist.set(idx, Some(nueva));
                                pred.set(idx, actual);
                            }
                            proof {
                                assert(dist@[idx as int] is Some);
                                assert(dist@[idx as int]->0.valor() <= nueva.valor());
                                assert forall|j: int| 0 <= j < nv && (#[trigger] dist@[j]) is Some implies P::con_orden() && 0 <= dist@[j]->0.valor()
                                    && alcanzable_con(aristas@, raiz, vertices@[j], dist@[j]->0.valor()) by {
                                    if j != idx || !mejora {
                                        assert(dist@[j] == dist_previa[j]);
                                    }
                                }
                                lema_relajar(vertices@, dist_previa, dist@, idx as int);
                                lema_relajados(aristas@, vertices@, visitados@, ds, dist_previa, dist@, ds.len() - 1);
                                if promesa {
                                    assert forall|j: int| 0 <= j < nv && (#[trigger] dist@[j]) is Some implies dist@[j]->0.valor()
                                        <= ds.len() * w_max by {
                                        if j != idx || !mejora {
                                            assert(dist@[j] == dist_previa[j]);
                                        }
                                    }
                                }
                            }
                        }
                    },
                    None => {},
                }
            }
            proof {
                assert forall|kk: int, w: V|
                    0 <= kk < k + 1 && #[trigger] arco_de(aristas@, kk, actual, w) && !visitados@.contains(w)
                        && aristas@[kk].peso_spec() is Some implies relajado(vertices@, dist@, w, ds.last() + peso_de(aristas@, kk)) by {
                    if kk == k {
                        assert(aristas@[k as int] == e);
                    }
                }
                assert forall|kk: int| 0 <= kk < k + 1 && #[trigger] aristas@[kk].accesible_spec(actual) implies peso_bueno::<V, P, A>(aristas@[kk]) by {
                    if kk == k {
                        assert(aristas@[k as int] == e);
                    }
                }
            }
            k = k + 1;
        }
        proof {
            assert forall|kk: int, i1: int, w: V|
                0 <= i1 < ds.len() && #[trigger] arco_de(aristas@, kk, visitados@[i1], w) && !visitados@.contains(w)
                    && aristas@[kk].peso_spec() is Some implies relajado(vertices@, dist@, w, ds[i1] + peso_de(aristas@, kk)) by {
                if i1 == ds.len() - 1 {
                    assert(visitados@[i1] == actual);
                }
            }
            assert(relajados(aristas@, vertices@, visitados@, ds, dist@, ds.len() as int));
            assert forall|kk: int, i: int|
                0 <= kk < aristas@.len() && 0 <= i < ds.len() && #[trigger] aristas@[kk].accesible_spec(visitados@[i]) implies peso_bueno::<V, P, A>(aristas@[kk]) by {
                if i == ds.len() - 1 {
                    assert(visitados@[i] == actual);
                }
            }
            assert(verificadas(aristas@, visitados@, ds.len() as int));
        }
        // Settle the unsettled vertex of least tentative distance.
        let (m, d) = match minimo_tentativo(&dist) {
            Some(m) => (m, dist[m].unwrap()),
            None => {
                break;
            },
        };
        let nuevo = vertices[m];
        let previo = pred[m];
        proof {
            assert(vertices@.contains(nuevo));
            assert(!visitados@.contains(nuevo));
            assert(dist@[m as int] is Some);
            assert(alcanzable_con(aristas@, raiz, nuevo, d.valor()));
        }
        let ghost vis_previos = visitados@;
        let ghost d_previo = distancia.datos_spec();
        let ghost dist_previa = dist@;
        let ghost ds_previas = ds;
        visitados.push(nuevo);
        distancia.add_vertice(nuevo, d.to_isize());
        actual = nuevo;
        acarreo = d;
        dist.set(m, None);
        proof {
            ds = ds.push(d.valor());
        }
        // The lightest edge between the settled vertex and its predecessor.
        let mejor_arista = arista_mas_ligera(aristas, &nuevo, &previo);
        match mejor_arista {
            Some(b) => {
                arbol.push(aristas[b]);
            },
            None => {},
        }
        proof {
            lema_asentar(aristas@, vertices@, vis_previos, ds_previas, dist_previa, dist@, m as int);
            assert(ds == ds_previas.push(dist_previa[m as int]->0.valor()));
            assert(visitados@ == vis_previos.push(nuevo));
            assert(visitados@.no_duplicates()) by {
                assert forall|a: int, b: int| 0 <= a < b < visitados@.len() implies visitados@[a] != visitados@[b] by {
                    if b == visitados@.len() - 1 {
                        assert(vis_previos.contains(visitados@[a]));
                    }
                }
            }
            assert(visitados@.drop_first() =~= vis_previos.drop_first().push(nuevo));
            assert(distancia.datos_spec() =~= d_previo.push(distancia.datos_spec().last()));
            assert(vertices_etiquetados(distancia.datos_spec()) =~= visitados@.drop_first());
            assert forall|j: int| 0 <= j < nv && (#[trigger] dist@[j]) is Some implies !visitados@.contains(vertices@[j]) by {
                if visitados@.contains(vertices@[j]) {
                    let a = choose|a: int| 0 <= a < visitados@.len() && visitados@[a] == vertices@[j];
                    if a == visitados@.len() - 1 {
                        assert(vertices@[j] == vertices@[m as int]);
                    } else {
                        assert(vis_previos.contains(vertices@[j]));
                    }
                }
            }
            assert forall|j: int| 0 <= j < visitados@.len() implies vertices@.contains(#[trigger] visitados@[j]) by {
                if j < visitados@.len() - 1 {
                    assert(visitados@[j] == vis_previos[j]);
                }
            }
            assert forall|i: int| 0 <= i < arbol@.len() implies aristas@.contains(#[trigger] arbol@[i]) by {
                if i < arbol@.len() - 1 || mejor_arista is None {
                } else {
                    assert(arbol@[i] == aristas@[mejor_arista->0 as int]);
                }
            }
            let dd = distancia.datos_spec();
            assert forall|j: int| 0 <= j < dd.len() implies etiqueta_alcanzable(aristas@, raiz, #[trigger] dd[j]) by {
                if j < d_previo.len() {
                    assert(dd[j] == d_previo[j]);
                } else {
                    assert(alcanzable_con(aristas@, raiz, dd[j].vertice_spec(), d.valor()));
                }
            }
            assert forall|j: int| 0 <= j < nv && (#[trigger] dist@[j]) is Some implies P::con_orden() && 0 <= dist@[j]->0.valor()
                && alcanzable_con(aristas@, raiz, vertices@[j], dist@[j]->0.valor()) by {
                assert(j != m);
                assert(dist@[j] == dist_previa[j]);
            }
            assert forall|i: int| 0 <= i < ds.len() - 1 implies #[trigger] distancia.datos_spec()[i].vertice_spec() == visitados@[i + 1]
                && etiqueta_de(distancia.datos_spec()[i], ds[i + 1]) by {
                if i < ds.len() - 2 {
                    assert(distancia.datos_spec()[i] == d_previo[i]);
                    assert(visitados@[i + 1] == vis_previos[i + 1]);
                    assert(ds[i + 1] == ds_previas[i + 1]);
                }
            }
            lema_visitados_acotados(visitados@, vertices@);
            if promesa {
                let l = ds_previas.len() as int;
                assert forall|i: int| 0 <= i < ds.len() implies #[trigger] ds[i] <= i * w_max by {
                    if i < l {
                        assert(ds[i] == ds_previas[i]);
                    } else {
                        assert(dist_previa[m as int]->0.valor() <= l * w_max);
                    }
                }
                assert forall|j: int| 0 <= j < nv && (#[trigger] dist@[j]) is Some implies dist@[j]->0.valor() <= ds.len() * w_max by {
                    assert(dist@[j] == dist_previa[j]);
                    assert(l * w_max <= (l + 1) * w_max) by (nonlinear_arith)
                        requires
                            0 <= w_max,
                    ;
                }
            }
            assert forall|i: int| 0 <= i < ds.len() && P::con_orden() implies alcanzable_con(aristas@, raiz, visitados@[i], #[trigger] ds[i]) by {
                if i < ds.len() - 1 {
                    assert(visitados@[i] == vis_previos[i]);
                    assert(ds[i] == ds_previas[i]);
                }
            }
        }
        rondas = rondas + 1;
    }
    let ghost d_previo = distancia.datos_spec();
    distancia.add_vertice(raiz, 0);
    let ghost lista = arbol@;
    let g = G::from_aristas(arbol);
    let r = Arbol::from_grafo(g, raiz);
    proof {
        let d = distancia.datos_spec();
        assert(vertices_etiquetados(d) =~= visitados@.drop_first().push(raiz));
        assert(vertices_etiquetados(d).no_duplicates()) by {
            let vd = vertices_etiquetados(d);
            assert forall|a: int, b: int| 0 <= a < b < vd.len() implies vd[a] != vd[b] by {
                assert(vd[a] == visitados@[a + 1]);
                if b < vd.len() - 1 {
                    assert(vd[b] == visitados@[b + 1]);
                } else {
                    assert(vd[b] == visitados@[0]);
                }
            }
        }
        assert forall|j: int| 0 <= j < d.len() implies vertices_de(grafo.aristas_spec()).contains(#[trigger] d[j].vertice_spec()) by {
            assert(vertices_etiquetados(d)[j] == d[j].vertice_spec());
            if j < d.len() - 1 {
                assert(d[j].vertice_spec() == visitados@[j + 1]);
            } else {
                assert(vertices@[inicio as int] == raiz);
            }
        }
        assert(r.grafo_spec().aristas_spec() == anadir(Seq::<A>::empty(), lista));
        let c = Seq::<A>::empty();
        assert(c.map_values(|a: A| a.peso_spec()) =~= Seq::<Option<P>>::empty());
        assert(camino_de(aristas@, raiz, raiz, c, 0));
        assert forall|j: int| 0 <= j < d.len() implies etiqueta_alcanzable(aristas@, raiz, #[trigger] d[j]) by {
            if j < d_previo.len() {
                assert(d[j] == d_previo[j]);
            } else {
                assert(alcanzable_con(aristas@, raiz, raiz, 0));
            }
        }
        lema_final(aristas@, raiz, vertices@, visitados@, ds, dist@, d_previo, d);
    }
    Some((r, distancia))
}

/// Whether the label `e` holds the distance `x` (when it fits).
pub open spec fn etiqueta_de<V: VerticeT>(e: Etiqueta<V>, x: int) -> bool {
    x <= isize::MAX ==> e.valor_spec() == x
}

/// Whether `w` has a tentative distance of at most `cota`.
pub open spec fn relajado<V, P: PesoT>(vertices: Seq<V>, dist: Seq<Option<P>>, w: V, cota: int) -> bool {
    exists|j: int|
        0 <= j < vertices.len() && vertices[j] == w && (#[trigger] dist[j]) is Some && dist[j]->0.valor() <= cota
}

proof fn lema_relajar<V, P: PesoT>(vertices: Seq<V>, antes: Seq<Option<P>>, despues: Seq<Option<P>>, idx: int)
    requires
        antes.len() == despues.len(),
        antes.len() == vertices.len(),
        0 <= idx < antes.len(),
        despues[idx] is Some,
        antes[idx] is Some ==> despues[idx]->0.valor() <= antes[idx]->0.valor(),
        forall|j: int| 0 <= j < antes.len() && j != idx ==> despues[j] == antes[j],
    ensures
        forall|w: V, cota: int| #[trigger] relajado(vertices, antes, w, cota) ==> relajado(vertices, despues, w, cota),
{
    assert forall|w: V, cota: int| #[trigger] relajado(vertices, antes, w, cota) implies relajado(vertices, despues, w, cota) by {
        let j = choose|j: int|
            0 <= j < vertices.len() && vertices[j] == w && (#[trigger] antes[j]) is Some && antes[j]->0.valor() <= cota;
        if j != idx {
            assert(despues[j] == antes[j]);
        } else {
            assert(despues[j] is Some);
        }
    }
}

pub(crate) proof fn lema_visitados_acotados<V>(vs: Seq<V>, todos: Seq<V>)
    requires
        vs.no_duplicates(),
        todos.no_duplicates(),
        forall|j: int| 0 <= j < vs.len() ==> todos.contains(#[trigger] vs[j]),
    ensures
        vs.len() <= todos.len(),
{
    vs.unique_seq_to_set();
    todos.unique_seq_to_set();
    assert forall|v: V| vs.to_set().contains(v) implies todos.to_set().contains(v) by {
        let j = choose|j: int| 0 <= j < vs.len() && vs[j] == v;
    }
    assert(vs.to_set().subset_of(todos.to_set()));
    vstd::set_lib::lemma_len_subset(vs.to_set(), todos.to_set());
}

/// Whether the settled distances `ds` of the vertices `vs` respect every
/// non-negative edge between settled vertices.
pub open spec fn triangular<V: VerticeT, P: PesoT, A: AristaT<V, P>>(s: Seq<A>, vs: Seq<V>, ds: Seq<int>) -> bool {
    forall|k: int, i1: int, i2: int|
        0 <= i1 < ds.len() && 0 <= i2 < ds.len() && #[trigger] arco_de(s, k, vs[i1], vs[i2]) && s[k].peso_spec() is Some
            && peso_de(s, k) >= 0 ==> ds[i2] <= ds[i1] + peso_de(s, k)
}

/// Whether every weighted edge from one of the first `n` settled vertices to
/// an unsettled one has been relaxed.
pub open spec fn relajados<V: VerticeT, P: PesoT, A: AristaT<V, P>>(
    s: Seq<A>,
    vertices: Seq<V>,
    vs: Seq<V>,
    ds: Seq<int>,
    dist: Seq<Option<P>>,
    n: int,
) -> bool {
    forall|k: int, i1: int, w: V|
        0 <= i1 < n && #[trigger] arco_de(s, k, vs[i1], w) && !vs.contains(w) && s[k].peso_spec() is Some
            ==> relajado(vertices, dist, w, ds[i1] + peso_de(s, k))
}

proof fn lema_relajados<V: VerticeT, P: PesoT, A: AristaT<V, P>>(
    s: Seq<A>,
    vertices: Seq<V>,
    vs: Seq<V>,
    ds: Seq<int>,
    antes: Seq<Option<P>>,
    despues: Seq<Option<P>>,
    n: int,
)
    requires
        relajados(s, vertices, vs, ds, antes, n),
        forall|w: V, cota: int| #[trigger] relajado(vertices, antes, w, cota) ==> relajado(vertices, despues, w, cota),
    ensures
        relajados(s, vertices, vs, ds, despues, n),
{
    assert forall|k: int, i1: int, w: V|
        0 <= i1 < n && #[trigger] arco_de(s, k, vs[i1], w) && !vs.contains(w) && s[k].peso_spec() is Some implies relajado(
        vertices,
        despues,
        w,
        ds[i1] + peso_de(s, k),
    ) by {
        assert(relajado(vertices, antes, w, ds[i1] + peso_de(s, k)));
    }
}

/// The index of the first least tentative distance; `None` when no vertex
/// has one.
fn minimo_tentativo<P: PesoT>(dist: &Vec<Option<P>>) -> (r: Option<usize>)
    requires
        forall|j: int| 0 <= j < dist@.len() && (#[trigger] dist@[j]) is Some ==> P::con_orden(),
    ensures
        r is None <==> forall|j: int| 0 <= j < dist@.len() ==> (#[trigger] dist@[j]) is None,
        r is Some ==> r->0 < dist@.len() && dist@[r->0 as int] is Some,
        r is Some ==> forall|j: int|
            0 <= j < dist@.len() && (#[trigger] dist@[j]) is Some ==> dist@[r->0 as int]->0.valor() <= dist@[j]->0.valor(),
        r is Some ==> forall|j: int|
            0 <= j < r->0 && (#[trigger] dist@[j]) is Some ==> dist@[r->0 as int]->0.valor() < dist@[j]->0.valor(),
{
    let mut m: usize = 0;
    let mut mejor: Option<P> = None;
    let mut j: usize = 0;
    while j < dist.len()
        invariant
            j <= dist@.len(),
            m < dist@.len() || mejor is None,
            mejor is Some ==> dist@[m as int] == mejor && P::con_orden() && m < j,
            mejor is None ==> forall|i: int| 0 <= i < j ==> (#[trigger] dist@[i]) is None,
            mejor is Some ==> forall|i: int|
                0 <= i < j && (#[trigger] dist@[i]) is Some ==> mejor->0.valor() <= dist@[i]->0.valor(),
            mejor is Some ==> forall|i: int|
                0 <= i < m && (#[trigger] dist@[i]) is Some ==> mejor->0.valor() < dist@[i]->0.valor(),
            forall|j: int| 0 <= j < dist@.len() && (#[trigger] dist@[j]) is Some ==> P::con_orden(),
        decreases dist@.len() - j,
    {
        match dist[j] {
            Some(d) => {
                let mejora = match mejor {
                    Some(b) => d.menor(&b),
                    None => true,
                };
                if mejora {
                    m = j;
                    mejor = Some(d);
                }
            },
            None => {},
        }
        j = j + 1;
    }
    match mejor {
        Some(_) => Some(m),
        None => None,
    }
}

/// The index of the first lightest edge that has both `u` and `v` as
/// endpoints.
fn arista_mas_ligera<V: VerticeT, P: PesoT, A: AristaT<V, P>>(aristas: &Vec<A>, u: &V, v: &V) -> (r: Option<usize>)
    ensures
        r is Some ==> r->0 < aristas@.len(),
{
    let mut mejor_arista: Option<usize> = None;
    let mut k: usize = 0;
    while k < aristas.len()
        invariant
            k <= aristas@.len(),
            mejor_arista is Some ==> mejor_arista->0 < aristas@.len(),
        decreases aristas@.len() - k,
    {
        if aristas[k].arista_contiene_vertice(u) && aristas[k].arista_contiene_vertice(v) {
            match mejor_arista {
                Some(b) => {
                    match (aristas[k].get_peso(), aristas[b].get_peso()) {
                        (Some(p), Some(q)) => {
                            if p.menor(&q) {
                                mejor_arista = Some(k);
                            }
                        },
                        _ => {},
                    }
                },
                None => {
                    mejor_arista = Some(k);
                },
            }
        }
        k = k + 1;
    }
    mejor_arista
}

proof fn lema_asentar<V: VerticeT, P: PesoT, A: AristaT<V, P>>(
    s: Seq<A>,
    vertices: Seq<V>,
    vs: Seq<V>,
    ds: Seq<int>,
    antes: Seq<Option<P>>,
    despues: Seq<Option<P>>,
    m: int,
)
    requires
        vertices.no_duplicates(),
        vs.len() == ds.len(),
        antes.len() == vertices.len(),
        despues == antes.update(m, None),
        0 <= m < antes.len(),
        antes[m] is Some,
        !vs.contains(vertices[m]),
        forall|j: int| 0 <= j < antes.len() && (#[trigger] antes[j]) is Some ==> antes[m]->0.valor() <= antes[j]->0.valor(),
        forall|i: int, j: int| 0 <= i < ds.len() && 0 <= j < antes.len() && (#[trigger] antes[j]) is Some ==> #[trigger] ds[i]
            <= antes[j]->0.valor(),
        forall|i: int, j: int| 0 <= i < j < ds.len() ==> #[trigger] ds[i] <= #[trigger] ds[j],
        triangular(s, vs, ds),
        relajados(s, vertices, vs, ds, antes, ds.len() as int),
    ensures
        ({
            let ds2 = ds.push(antes[m]->0.valor());
            let vs2 = vs.push(vertices[m]);
            &&& forall|i: int, j: int| 0 <= i < ds2.len() && 0 <= j < despues.len() && (#[trigger] despues[j]) is Some
                ==> #[trigger] ds2[i] <= despues[j]->0.valor()
            &&& forall|i: int, j: int| 0 <= i < j < ds2.len() ==> #[trigger] ds2[i] <= #[trigger] ds2[j]
            &&& triangular(s, vs2, ds2)
            &&& relajados(s, vertices, vs2, ds2, despues, ds.len() as int)
        }),
{
    let dm = antes[m]->0.valor();
    let ds2 = ds.push(dm);
    let vs2 = vs.push(vertices[m]);
    let n = ds.len() as int;
    assert forall|i: int, j: int| 0 <= i < ds2.len() && 0 <= j < despues.len() && (#[trigger] despues[j]) is Some implies #[trigger] ds2[i]
        <= despues[j]->0.valor() by {
        assert(j != m);
        assert(despues[j] == antes[j]);
        if i < n {
            assert(ds2[i] == ds[i]);
        }
    }
    assert forall|i: int, j: int| 0 <= i < j < ds2.len() implies #[trigger] ds2[i] <= #[trigger] ds2[j] by {
        if j < n {
            assert(ds2[i] == ds[i] && ds2[j] == ds[j]);
        } else {
            assert(ds2[i] == ds[i]);
            assert(ds[i] <= antes[m]->0.valor());
        }
    }
    assert forall|k: int, i1: int, i2: int|
        0 <= i1 < ds2.len() && 0 <= i2 < ds2.len() && #[trigger] arco_de(s, k, vs2[i1], vs2[i2]) && s[k].peso_spec() is Some
            && peso_de(s, k) >= 0 implies ds2[i2] <= ds2[i1] + peso_de(s, k) by {
        if i1 < n && i2 < n {
            assert(vs2[i1] == vs[i1] && vs2[i2] == vs[i2]);
            assert(ds2[i1] == ds[i1] && ds2[i2] == ds[i2]);
        } else if i1 < n {
            // An edge from a settled vertex into the new one was relaxed.
            assert(vs2[i1] == vs[i1]);
            assert(ds2[i1] == ds[i1]);
            assert(vs2[i2] == vertices[m]);
            assert(arco_de(s, k, vs[i1], vertices[m]));
            assert(relajado(vertices, antes, vertices[m], ds[i1] + peso_de(s, k)));
            let j = choose|j: int|
                0 <= j < vertices.len() && vertices[j] == vertices[m] && (#[trigger] antes[j]) is Some && antes[j]->0.valor()
                    <= ds[i1] + peso_de(s, k);
            assert(j == m);
        } else if i2 < n {
            assert(ds2[i2] == ds[i2]);
            assert(ds[i2] <= antes[m]->0.valor());
        }
    }
    assert forall|k: int, i1: int, w: V|
        0 <= i1 < n && #[trigger] arco_de(s, k, vs2[i1], w) && !vs2.contains(w) && s[k].peso_spec() is Some implies relajado(
        vertices,
        despues,
        w,
        ds2[i1] + peso_de(s, k),
    ) by {
        assert(vs2[i1] == vs[i1]);
        assert(ds2[i1] == ds[i1]);
        assert(!vs.contains(w)) by {
            if vs.contains(w) {
                let a = choose|a: int| 0 <= a < vs.len() && vs[a] == w;
                assert(vs2[a] == w);
            }
        }
        assert(w != vertices[m]) by {
            assert(vs2[vs.len() as int] == vertices[m]);
        }
        assert(arco_de(s, k, vs[i1], w));
        let j = choose|j: int|
            0 <= j < vertices.len() && vertices[j] == w && (#[trigger] antes[j]) is Some && antes[j]->0.valor() <= ds[i1]
                + peso_de(s, k);
        assert(j != m);
        assert(despues[j] == antes[j]);
    }
}

proof fn lema_final<V: VerticeT, P: PesoT, A: AristaT<V, P>>(
    s: Seq<A>,
    raiz: V,
    vertices: Seq<V>,
    vs: Seq<V>,
    ds: Seq<int>,
    dist: Seq<Option<P>>,
    previas: Seq<Etiqueta<V>>,
    d: Seq<Etiqueta<V>>,
)
    requires
        verificadas(s, vs, vs.len() as int),
        forall|i: int| 0 <= i < ds.len() ==> 0 <= #[trigger] ds[i],
        vs.len() == ds.len(),
        vs.len() >= 1,
        vs[0] == raiz,
        ds[0] == 0,
        dist.len() == vertices.len(),
        forall|j: int| 0 <= j < dist.len() ==> (#[trigger] dist[j]) is None,
        triangular(s, vs, ds),
        relajados(s, vertices, vs, ds, dist, ds.len() as int),
        forall|i: int| 0 <= i < ds.len() ==> P::con_orden() ==> alcanzable_con(s, raiz, vs[i], #[trigger] ds[i]),
        previas.len() == ds.len() - 1,
        forall|i: int| 0 <= i < ds.len() - 1 ==> #[trigger] previas[i].vertice_spec() == vs[i + 1] && etiqueta_de(
            previas[i],
            ds[i + 1],
        ),
        d.len() == previas.len() + 1,
        forall|i: int| 0 <= i < previas.len() ==> d[i] == previas[i],
        d.last().vertice_spec() == raiz,
        d.last().valor_spec() == 0,
    ensures
        P::con_orden() ==> distancias_minimas(s, raiz, d),
        pesos_alcanzables_ok(s, raiz),
{
    assert forall|k: int, u: V, w: V| #[trigger] arco_de(s, k, u, w) && vs.contains(u) implies vs.contains(w) by {
        let i1 = choose|i1: int| 0 <= i1 < vs.len() && vs[i1] == u;
        s[k].lema_forma(u, s[k]);
        assert(s[k].extremos() is Some);
        assert(peso_bueno::<V, P, A>(s[k]));
        if !vs.contains(w) {
            assert(relajado(vertices, dist, w, ds[i1] + peso_de(s, k)));
            let j = choose|j: int| 0 <= j < vertices.len() && vertices[j] == w && (#[trigger] dist[j]) is Some && dist[j]->0.valor()
                <= ds[i1] + peso_de(s, k);
        }
    }
    assert forall|k: int, i1: int, i2: int|
        0 <= i1 < vs.len() && 0 <= i2 < vs.len() && #[trigger] arco_de(s, k, vs[i1], vs[i2]) implies ds[i2] <= ds[i1]
            + peso_de(s, k) by {
        s[k].lema_forma(vs[i1], s[k]);
        assert(s[k].extremos() is Some);
        assert(peso_bueno::<V, P, A>(s[k]));
    }
    assert(vs.contains(raiz)) by {
        assert(vs[0] == raiz);
    }
    assert forall|z: V, c: Seq<A>, k: int|
        #![trigger camino_sin_pesos(s, raiz, z, c), s[k].accesible_spec(z)]
        camino_sin_pesos(s, raiz, z, c) && 0 <= k < s.len() && s[k].accesible_spec(z) implies peso_bueno::<V, P, A>(s[k]) by {
        lema_alcanzables(s, raiz, vs, z, c);
        let i = choose|i: int| 0 <= i < vs.len() && vs[i] == z;
    }
    if P::con_orden() {
    assert forall|z: V, c: Seq<A>, largo: int| #[trigger] camino_de(s, raiz, z, c, largo) implies exists|j: int|
        0 <= j < d.len() && d[j].vertice_spec() == z && #[trigger] minimo_hasta(s, raiz, z, d[j], largo) by {
        lema_caminos_cerrados(s, raiz, vs, ds, z, c, largo);
        let i = choose|i: int| 0 <= i < vs.len() && vs[i] == z && ds[i] <= largo;
        assert(alcanzable_con(s, raiz, vs[i], ds[i]));
        assert(0 <= ds[i]);
        if i == 0 {
            let j = d.len() - 1;
            assert(alcanzable_con(s, raiz, z, ds[i]));
            assert(d[j].valor_spec() == 0);
            assert(minimo_hasta(s, raiz, z, d[j], largo));
        } else {
            let j = i - 1;
            assert(d[j] == previas[j]);
            assert(0 <= j < ds.len() - 1);
            assert(previas[j].vertice_spec() == vs[j + 1]);
            assert(etiqueta_de(previas[j], ds[j + 1]));
            assert(alcanzable_con(s, raiz, z, ds[i]));
            assert(minimo_hasta(s, raiz, z, d[j], largo));
        }
    }
    }
}


} // verus!
