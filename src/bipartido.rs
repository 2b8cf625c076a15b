use vstd::prelude::*;

use crate::arista::Arista;
use crate::arista_t::AristaT;
use crate::grafo::Grafo;
use crate::grafo_t::{anadir, con_nuevo, entorno_lista, entorno_spec, esta_vertice, vertices_de, vertices_lista, GrafoT};
use crate::peso::PesoT;
use crate::camino_minimo::posicion;
use crate::vertice::{contiene_vertice, copiar, VerticeT};

verus! {

/// The live edges of `s`, in order.
pub open spec fn vivas<V: VerticeT, P: PesoT>(s: Seq<Arista<V, P>>) -> Seq<Arista<V, P>>
    decreases s.len(),
{
    if s.len() == 0 {
        Seq::empty()
    } else {
        let r = vivas(s.drop_last());
        match s.last() {
            Arista::Arista(..) => r.push(s.last()),
            Arista::VerticeAislado(_) => r,
        }
    }
}

/// The first endpoint of a live edge.
pub open spec fn lado_x<V: VerticeT, P: PesoT>(e: Arista<V, P>) -> V {
    match e {
        Arista::Arista(x, _, _) => x,
        Arista::VerticeAislado(v) => v,
    }
}

/// The second endpoint of a live edge.
pub open spec fn lado_y<V: VerticeT, P: PesoT>(e: Arista<V, P>) -> V {
    match e {
        Arista::Arista(_, y, _) => y,
        Arista::VerticeAislado(v) => v,
    }
}

/// Whether the edges of `l`, each written as (x, y), cross between two
/// disjoint vertex sets: no first endpoint is the second endpoint of any edge.
pub open spec fn biparticion_valida<V: VerticeT, P: PesoT>(l: Seq<Arista<V, P>>) -> bool {
    &&& forall|i: int| 0 <= i < l.len() ==> (#[trigger] l[i]) is Arista
    &&& forall|i: int, j: int| 0 <= i < l.len() && 0 <= j < l.len() ==> lado_x(#[trigger] l[i]) != lado_y(#[trigger] l[j])
}

/// `vs` without repetitions, in order of first occurrence.
pub open spec fn sin_repeticion<V>(vs: Seq<V>) -> Seq<V>
    decreases vs.len(),
{
    if vs.len() == 0 {
        Seq::empty()
    } else {
        let r = sin_repeticion(vs.drop_last());
        if r.contains(vs.last()) {
            r
        } else {
            r.push(vs.last())
        }
    }
}

/// Whether the side assignment `c` puts the two ends of every live edge of
/// `s` on different sides.
pub open spec fn coloreo_propio<V: VerticeT, P: PesoT>(s: Seq<Arista<V, P>>, c: spec_fn(V) -> bool) -> bool {
    forall|k: int| 0 <= k < s.len() && (#[trigger] s[k]) is Arista ==> c(lado_x(s[k])) != c(lado_y(s[k]))
}

/// Whether some side assignment puts the two ends of every live edge of `s`
/// on different sides.
pub open spec fn bicoloreable<V: VerticeT, P: PesoT>(s: Seq<Arista<V, P>>) -> bool {
    exists|c: spec_fn(V) -> bool| #[trigger] coloreo_propio(s, c)
}

/// Whether the colours `col` of the vertices `vs` are forced: within a
/// component (same `raiz`), every proper side assignment agrees on two
/// vertices exactly when their colours agree.
pub open spec fn forzado<V: VerticeT, P: PesoT>(s: Seq<Arista<V, P>>, vs: Seq<V>, col: Seq<bool>, raiz: Seq<V>) -> bool {
    forall|c: spec_fn(V) -> bool, i: int, j: int|
        #![trigger coloreo_propio(s, c), vs[i], vs[j]]
        coloreo_propio(s, c) && 0 <= i < vs.len() && 0 <= j < vs.len() && raiz[i] == raiz[j] ==> ((c(vs[i]) == c(vs[j]))
            == (col[i] == col[j]))
}

/// Whether the two coloured ends of every live edge share their `raiz`.
pub open spec fn misma_raiz<V: VerticeT, P: PesoT>(s: Seq<Arista<V, P>>, vs: Seq<V>, raiz: Seq<V>) -> bool {
    forall|k: int, i: int, j: int|
        #![trigger s[k], vs[i], vs[j]]
        0 <= k < s.len() && s[k] is Arista && 0 <= i < vs.len() && 0 <= j < vs.len() && vs[i] == lado_x(s[k]) && vs[j]
            == lado_y(s[k]) ==> raiz[i] == raiz[j]
}

/// Whether every live edge that touches a vertex of a finished component
/// (a `raiz` other than `actual`) has both ends coloured.
pub open spec fn cerradas<V: VerticeT, P: PesoT>(s: Seq<Arista<V, P>>, vs: Seq<V>, raiz: Seq<V>, actual: V) -> bool {
    forall|k: int, i: int|
        #![trigger s[k], vs[i]]
        0 <= k < s.len() && s[k] is Arista && 0 <= i < vs.len() && (vs[i] == lado_x(s[k]) || vs[i] == lado_y(s[k]))
            && raiz[i] != actual ==> vs.contains(lado_x(s[k])) && vs.contains(lado_y(s[k]))
}

/// Whether both ends of the edge `e` are coloured, with different colours.
pub open spec fn bien_coloreada<V: VerticeT, P: PesoT>(vs: Seq<V>, col: Seq<bool>, e: Arista<V, P>) -> bool {
    exists|i: int, j: int|
        0 <= i < vs.len() && 0 <= j < vs.len() && vs[i] == lado_x(e) && vs[j] == lado_y(e) && col[i] != col[j]
}

/// Whether `x` is coloured `b`.
pub open spec fn de_color<V>(vs: Seq<V>, col: Seq<bool>, x: V, b: bool) -> bool {
    exists|p: int| 0 <= p < vs.len() && vs[p] == x && col[p] == b
}

/// Whether the live edge `e` is settled: well coloured, or with no end
/// coloured yet.
pub open spec fn resuelta<V: VerticeT, P: PesoT>(vs: Seq<V>, col: Seq<bool>, e: Arista<V, P>) -> bool {
    e is Arista ==> bien_coloreada(vs, col, e) || (!vs.contains(lado_x(e)) && !vs.contains(lado_y(e)))
}

/// The first vertex set of the edges `l`, in order of first appearance.
pub open spec fn parte_x<V: VerticeT, P: PesoT>(l: Seq<Arista<V, P>>) -> Seq<V> {
    sin_repeticion(l.map_values(|e: Arista<V, P>| lado_x(e)))
}

/// The second vertex set of the edges `l`, in order of first appearance.
pub open spec fn parte_y<V: VerticeT, P: PesoT>(l: Seq<Arista<V, P>>) -> Seq<V> {
    sin_repeticion(l.map_values(|e: Arista<V, P>| lado_y(e)))
}

/// A bipartite graph: its edges, each written as (x, y) with x in the first
/// part and y in the second. It holds no isolated vertices.
pub struct Bipartido<V: VerticeT, P: PesoT> {
    lista_aristas: Vec<Arista<V, P>>,
}

impl<V: VerticeT, P: PesoT> Bipartido<V, P> {
    pub closed spec fn aristas_spec(&self) -> Seq<Arista<V, P>> {
        self.lista_aristas@
    }

    /// The bipartite graph of `grafo`: the ends of its edges coloured with two
    /// colours by propagation, one connected component at a time, each edge
    /// then written from its `true` end to its `false` end. `None` exactly
    /// when no side assignment separates the ends of every edge (an odd cycle
    /// or a self-loop). Isolated vertices are dropped.
    pub fn from_grafo(grafo: &Grafo<V, P>) -> (r: Option<Self>)
        ensures
            r is Some <==> bicoloreable(grafo.aristas_spec()),
            r is Some ==> biparticion_valida(r->0.aristas_spec()),
            r is Some ==> r->0.aristas_spec().len() == vivas(grafo.aristas_spec()).len(),
            r is Some ==> forall|k: int|
                0 <= k < r->0.aristas_spec().len() ==> (#[trigger] r->0.aristas_spec()[k]).igual_spec(
                    &vivas(grafo.aristas_spec())[k],
                ),
    {
        let aristas = grafo.get_aristas();
        let (vs, col) = match colorear(aristas) {
            Some(par) => par,
            None => {
                return None;
            },
        };
        let mut lista: Vec<Arista<V, P>> = Vec::new();
        let mut i: usize = 0;
        while i < aristas.len()
            invariant
                i <= aristas@.len(),
                aristas@ == grafo.aristas_spec(),
                vs@.no_duplicates(),
                col@.len() == vs@.len(),
                forall|k: int| 0 <= k < aristas@.len() && (#[trigger] aristas@[k]) is Arista ==> bien_coloreada(vs@, col@, aristas@[k]),
                forall|k: int| 0 <= k < lista@.len() ==> (#[trigger] lista@[k]) is Arista,
                forall|k: int| 0 <= k < lista@.len() ==> de_color(vs@, col@, lado_x(#[trigger] lista@[k]), true),
                forall|k: int| 0 <= k < lista@.len() ==> de_color(vs@, col@, lado_y(#[trigger] lista@[k]), false),
                lista@.len() == vivas(aristas@.take(i as int)).len(),
                forall|k: int|
                    0 <= k < lista@.len() ==> (#[trigger] lista@[k]).igual_spec(&vivas(aristas@.take(i as int))[k]),
            decreases aristas@.len() - i,
        {
            proof {
                assert(aristas@.take(i as int + 1).drop_last() =~= aristas@.take(i as int));
            }
            let ghost l0 = lista@;
            match aristas[i] {
                Arista::Arista(a, b, p) => {
                    proof {
                        assert(bien_coloreada(vs@, col@, aristas@[i as int]));
                    }
                    let ghost i0 = choose|i0: int, j0: int|
                        0 <= i0 < vs@.len() && 0 <= j0 < vs@.len() && vs@[i0] == a && vs@[j0] == b && col@[i0] != col@[j0];
                    let ghost (ix, jx) = i0;
                    let ia = posicion(&vs, &a).unwrap();
                    proof {
                        assert(vs@[ia as int] == a);
                        assert(ia as int == ix) by {
                            assert(vs@[ia as int] == vs@[ix]);
                        }
                    }
                    if col[ia] {
                        lista.push(Arista::Arista(a, b, p));
                    } else {
                        lista.push(Arista::Arista(b, a, p));
                    }
                    proof {
                        let n = l0.len() as int;
                        assert forall|k: int| 0 <= k < lista@.len() implies (#[trigger] lista@[k]) is Arista by {
                            if k < n {
                                assert(lista@[k] == l0[k]);
                            }
                        }
                        assert forall|k: int| 0 <= k < lista@.len() implies de_color(vs@, col@, lado_x(#[trigger] lista@[k]), true) by {
                            if k < n {
                                assert(lista@[k] == l0[k]);
                            } else if col@[ia as int] {
                                assert(lista@[k] == Arista::Arista(a, b, p));
                                assert(0 <= ix < vs@.len() && vs@[ix] == lado_x(lista@[k]) && col@[ix]);
                            } else {
                                assert(lista@[k] == Arista::Arista(b, a, p));
                                assert(0 <= jx < vs@.len() && vs@[jx] == lado_x(lista@[k]) && col@[jx]);
                            }
                        }
                        assert forall|k: int| 0 <= k < lista@.len() implies de_color(vs@, col@, lado_y(#[trigger] lista@[k]), false) by {
                            if k < n {
                                assert(lista@[k] == l0[k]);
                            } else if col@[ia as int] {
                                assert(lista@[k] == Arista::Arista(a, b, p));
                                assert(0 <= jx < vs@.len() && vs@[jx] == lado_y(lista@[k]) && !col@[jx]);
                            } else {
                                assert(lista@[k] == Arista::Arista(b, a, p));
                                assert(0 <= ix < vs@.len() && vs@[ix] == lado_y(lista@[k]) && !col@[ix]);
                            }
                        }
                        assert forall|k: int| 0 <= k < lista@.len() implies (#[trigger] lista@[k]).igual_spec(
                            &vivas(aristas@.take(i as int + 1))[k],
                        ) by {
                            if k < n {
                                assert(lista@[k] == l0[k]);
                            }
                        }
                    }
                },
                Arista::VerticeAislado(_) => {},
            }
            i = i + 1;
        }
        proof {
            assert(aristas@.take(aristas@.len() as int) =~= aristas@);
            let c = |v: V| exists|p: int| 0 <= p < vs@.len() && vs@[p] == v && col@[p];
            assert forall|k: int| 0 <= k < aristas@.len() && (#[trigger] aristas@[k]) is Arista implies c(
                lado_x(aristas@[k]),
            ) != c(lado_y(aristas@[k])) by {
                let (i0, j0) = choose|i0: int, j0: int|
                    0 <= i0 < vs@.len() && 0 <= j0 < vs@.len() && vs@[i0] == lado_x(aristas@[k]) && vs@[j0] == lado_y(
                        aristas@[k],
                    ) && col@[i0] != col@[j0];
                if col@[i0] {
                    assert(c(lado_x(aristas@[k])));
                    if c(lado_y(aristas@[k])) {
                        let p = choose|p: int| 0 <= p < vs@.len() && vs@[p] == lado_y(aristas@[k]) && col@[p];
                        assert(vs@[p] == vs@[j0]);
                    }
                } else {
                    assert(c(lado_y(aristas@[k])));
                    if c(lado_x(aristas@[k])) {
                        let p = choose|p: int| 0 <= p < vs@.len() && vs@[p] == lado_x(aristas@[k]) && col@[p];
                        assert(vs@[p] == vs@[i0]);
                    }
                }
            }
            assert(coloreo_propio(aristas@, c));
            assert forall|a: int, b: int| 0 <= a < lista@.len() && 0 <= b < lista@.len() implies lado_x(
                #[trigger] lista@[a],
            ) != lado_y(#[trigger] lista@[b]) by {
                assert(de_color(vs@, col@, lado_x(lista@[a]), true));
                assert(de_color(vs@, col@, lado_y(lista@[b]), false));
                let p = choose|p: int| 0 <= p < vs@.len() && vs@[p] == lado_x(lista@[a]) && col@[p] == true;
                let q = choose|q: int| 0 <= q < vs@.len() && vs@[q] == lado_y(lista@[b]) && col@[q] == false;
                if lado_x(lista@[a]) == lado_y(lista@[b]) {
                    assert(vs@[p] == vs@[q]);
                }
            }
        }
        Some(Bipartido { lista_aristas: lista })
    }

    /// Consumes the bipartite graph and gives its underlying graph.
    pub fn into_grafo(self) -> (r: Grafo<V, P>)
        ensures
            r.aristas_spec() == anadir(Seq::<Arista<V, P>>::empty(), self.aristas_spec()),
    {
        Grafo::from_aristas(self.lista_aristas)
    }

    /// The edges, each written as (x, y).
    pub fn get_aristas(&self) -> (r: &Vec<Arista<V, P>>)
        ensures
            r@ == self.aristas_spec(),
    {
        &self.lista_aristas
    }

    /// The vertices, in order of first appearance.
    pub fn get_vertices(&self) -> (r: Vec<V>)
        ensures
            r@ == vertices_de(self.aristas_spec()),
    {
        vertices_lista(&self.lista_aristas)
    }

    /// The neighbours of `v`, one for each edge that has it as an endpoint;
    /// `None` when no edge has it (a bipartite graph holds no isolated
    /// vertices).
    pub fn entorno(&self, v: &V) -> (r: Option<Vec<V>>)
        ensures
            r is Some <==> esta_vertice(self.aristas_spec(), *v),
            r is Some ==> r->0@ == entorno_spec(self.aristas_spec(), *v),
    {
        entorno_lista(&self.lista_aristas, v)
    }

    /// The vertices of the first part, in order of first appearance.
    pub fn get_vertices_x(&self) -> (r: Vec<V>)
        ensures
            r@ == parte_x(self.aristas_spec()),
    {
        self.lado(true)
    }

    /// The vertices of the second part, in order of first appearance.
    pub fn get_vertices_y(&self) -> (r: Vec<V>)
        ensures
            r@ == parte_y(self.aristas_spec()),
    {
        self.lado(false)
    }

    fn lado(&self, x: bool) -> (r: Vec<V>)
        ensures
            x ==> r@ == sin_repeticion(self.aristas_spec().map_values(|e: Arista<V, P>| lado_x(e))),
            !x ==> r@ == sin_repeticion(self.aristas_spec().map_values(|e: Arista<V, P>| lado_y(e))),
    {
        let ghost s = if x {
            self.lista_aristas@.map_values(|e: Arista<V, P>| lado_x(e))
        } else {
            self.lista_aristas@.map_values(|e: Arista<V, P>| lado_y(e))
        };
        let mut r: Vec<V> = Vec::new();
        let mut i: usize = 0;
        while i < self.lista_aristas.len()
            invariant
                i <= self.lista_aristas@.len(),
                s.len() == self.lista_aristas@.len(),
                x ==> s == self.lista_aristas@.map_values(|e: Arista<V, P>| lado_x(e)),
                !x ==> s == self.lista_aristas@.map_values(|e: Arista<V, P>| lado_y(e)),
                r@ == sin_repeticion(s.take(i as int)),
            decreases self.lista_aristas@.len() - i,
        {
            proof {
                assert(s.take(i as int + 1).drop_last() =~= s.take(i as int));
            }
            let v = match self.lista_aristas[i] {
                Arista::Arista(a, b, _) => if x {
                    a
                } else {
                    b
                },
                Arista::VerticeAislado(a) => a,
            };
            if !contiene_vertice(&r, &v) {
                r.push(v);
            }
            i = i + 1;
        }
        proof {
            assert(s.take(s.len() as int) =~= s);
        }
        r
    }
}

/// The first end of the first live edge whose first end has no colour yet.
fn primer_sin_color<V: VerticeT, P: PesoT>(aristas: &Vec<Arista<V, P>>, vs: &Vec<V>) -> (r: Option<V>)
    ensures
        r is None ==> forall|k: int| 0 <= k < aristas@.len() && (#[trigger] aristas@[k]) is Arista ==> vs@.contains(lado_x(aristas@[k])),
        r is Some ==> !vs@.contains(r->0) && exists|k: int|
            0 <= k < aristas@.len() && (#[trigger] aristas@[k]) is Arista && lado_x(aristas@[k]) == r->0,
{
    let mut k: usize = 0;
    while k < aristas.len()
        invariant
            k <= aristas@.len(),
            forall|k2: int| 0 <= k2 < k && (#[trigger] aristas@[k2]) is Arista ==> vs@.contains(lado_x(aristas@[k2])),
        decreases aristas@.len() - k,
    {
        match aristas[k] {
            Arista::Arista(a, _, _) => {
                if !contiene_vertice(vs, &a) {
                    return Some(a);
                }
            },
            Arista::VerticeAislado(_) => {},
        }
        k = k + 1;
    }
    None
}

/// Colours the ends of the live edges with two colours, one connected
/// component at a time: the first uncoloured end gets `true`, and colours
/// spread along edges, each end opposite to the other. `None` when an edge
/// joins two ends of the same colour, which no side assignment can avoid.
fn colorear<V: VerticeT, P: PesoT>(aristas: &Vec<Arista<V, P>>) -> (r: Option<(Vec<V>, Vec<bool>)>)
    ensures
        r is None ==> !bicoloreable(aristas@),
        r is Some ==> ({
            let (vs, col) = r->0;
            &&& vs@.no_duplicates()
            &&& col@.len() == vs@.len()
            &&& forall|k: int| 0 <= k < aristas@.len() && (#[trigger] aristas@[k]) is Arista ==> bien_coloreada(vs@, col@, aristas@[k])
        }),
{
    let ghost s = aristas@;
    let mut vs: Vec<V> = Vec::new();
    let mut col: Vec<bool> = Vec::new();
    let ghost mut raiz: Seq<V> = Seq::empty();
    let ghost mut actual: V = arbitrary();
    let ghost nv = vertices_de(s).len();
    proof {
        crate::camino_minimo::lema_vertices_sin_repetir::<V, P, Arista<V, P>>(s);
    }
    loop
        invariant
            s == aristas@,
            vs@.no_duplicates(),
            col@.len() == vs@.len(),
            raiz.len() == vs@.len(),
            forall|i: int| 0 <= i < vs@.len() ==> vertices_de(s).contains(#[trigger] vs@[i]),
            forall|i: int| 0 <= i < vs@.len() ==> vs@.contains(#[trigger] raiz[i]),
            vertices_de(s).no_duplicates(),
            nv == vertices_de(s).len(),
            forzado(s, vs@, col@, raiz),
            misma_raiz(s, vs@, raiz),
            cerradas(s, vs@, raiz, actual),
        ensures
            forall|k: int| 0 <= k < s.len() && (#[trigger] s[k]) is Arista ==> bien_coloreada(vs@, col@, s[k]),
        decreases nv + 1 - vs@.len(),
    {
        proof {
            crate::camino_minimo::lema_visitados_acotados(vs@, vertices_de(s));
        }
        let ghost vs0 = vs@;
        let ghost col0 = col@;
        let mut cambio = false;
        let mut k: usize = 0;
        while k < aristas.len()
            invariant
                s == aristas@,
                vs@.no_duplicates(),
                col@.len() == vs@.len(),
                raiz.len() == vs@.len(),
                forall|i: int| 0 <= i < vs@.len() ==> vertices_de(s).contains(#[trigger] vs@[i]),
                forall|i: int| 0 <= i < vs@.len() ==> vs@.contains(#[trigger] raiz[i]),
                vertices_de(s).no_duplicates(),
                nv == vertices_de(s).len(),
                forzado(s, vs@, col@, raiz),
                misma_raiz(s, vs@, raiz),
                cerradas(s, vs@, raiz, actual),
                k <= s.len(),
                !cambio ==> vs@ == vs0 && col@ == col0,
                cambio ==> vs@.len() > vs0.len(),
                vs@.len() >= vs0.len(),
                !cambio ==> forall|k2: int| 0 <= k2 < k ==> resuelta(vs@, col@, #[trigger] s[k2]),
            decreases s.len() - k,
        {
            match aristas[k] {
                Arista::Arista(a, b, _) => {
                    proof {
                        crate::algoritmo::lema_extremos_en_vertices::<V, P, Arista<V, P>>(s, k as int);
                    }
                    let ia = posicion(&vs, &a);
                    let ib = posicion(&vs, &b);
                    match (ia, ib) {
                        (Some(i), Some(j)) => {
                            if col[i] == col[j] {
                                proof {
                                    assert(raiz[i as int] == raiz[j as int]);
                                    assert forall|c: spec_fn(V) -> bool| !#[trigger] coloreo_propio(s, c) by {
                                        if coloreo_propio(s, c) {
                                            assert(c(lado_x(s[k as int])) != c(lado_y(s[k as int])));
                                            assert((c(vs@[i as int]) == c(vs@[j as int])) == (col@[i as int] == col@[j as int]));
                                        }
                                    }
                                }
                                return None;
                            }
                        },
                        (Some(i), None) => {
                            proof {
                                lema_empujar(s, vs@, col@, raiz, actual, k as int, i as int, b, !col@[i as int], true);
                            }
                            vs.push(b);
                            col.push(!col[i]);
                            proof {
                                raiz = raiz.push(raiz[i as int]);
                            }
                            cambio = true;
                        },
                        (None, Some(j)) => {
                            proof {
                                lema_empujar(s, vs@, col@, raiz, actual, k as int, j as int, a, !col@[j as int], false);
                            }
                            vs.push(a);
                            col.push(!col[j]);
                            proof {
                                raiz = raiz.push(raiz[j as int]);
                            }
                            cambio = true;
                        },
                        (None, None) => {},
                    }
                },
                Arista::VerticeAislado(_) => {},
            }
            proof {
                if !cambio {
                    assert forall|k2: int| 0 <= k2 < k + 1 implies resuelta(vs@, col@, #[trigger] s[k2]) by {
                        if k2 == k && s[k2] is Arista {
                            let a = lado_x(s[k2]);
                            let b = lado_y(s[k2]);
                            if vs@.contains(a) && vs@.contains(b) {
                                let i = choose|i: int| 0 <= i < vs@.len() && vs@[i] == a;
                                let j = choose|j: int| 0 <= j < vs@.len() && vs@[j] == b;
                                assert(bien_coloreada(vs@, col@, s[k2]));
                            }
                        }
                    }
                }
            }
            k = k + 1;
        }
        if !cambio {
            match primer_sin_color(aristas, &vs) {
                None => {
                    proof {
                        assert forall|k2: int| 0 <= k2 < s.len() && (#[trigger] s[k2]) is Arista implies bien_coloreada(
                            vs@,
                            col@,
                            s[k2],
                        ) by {
                            assert(resuelta(vs@, col@, s[k2]));
                            assert(vs@.contains(lado_x(s[k2])));
                        }
                    }
                    break;
                },
                Some(v) => {
                    proof {
                        lema_nueva_raiz(s, vs@, col@, raiz, actual, v);
                    }
                    vs.push(v);
                    col.push(true);
                    proof {
                        raiz = raiz.push(v);
                        actual = v;
                    }
                },
            }
        }
        proof {
            crate::camino_minimo::lema_visitados_acotados(vs@, vertices_de(s));
        }
    }
    Some((vs, col))
}

impl<V: VerticeT, P: PesoT> Clone for Bipartido<V, P> {
    fn clone(&self) -> (r: Self)
        ensures
            r.aristas_spec() == self.aristas_spec(),
    {
        Bipartido { lista_aristas: copiar(&self.lista_aristas) }
    }
}

proof fn lema_empujar<V: VerticeT, P: PesoT>(
    s: Seq<Arista<V, P>>,
    vs: Seq<V>,
    col: Seq<bool>,
    raiz: Seq<V>,
    actual: V,
    k: int,
    i: int,
    w: V,
    cw: bool,
    desde_x: bool,
)
    requires
        vs.no_duplicates(),
        col.len() == vs.len(),
        raiz.len() == vs.len(),
        forall|p: int| 0 <= p < vs.len() ==> vertices_de(s).contains(#[trigger] vs[p]),
        forall|p: int| 0 <= p < vs.len() ==> vs.contains(#[trigger] raiz[p]),
        forzado(s, vs, col, raiz),
        misma_raiz(s, vs, raiz),
        cerradas(s, vs, raiz, actual),
        0 <= k < s.len(),
        s[k] is Arista,
        0 <= i < vs.len(),
        !vs.contains(w),
        vertices_de(s).contains(w),
        desde_x ==> vs[i] == lado_x(s[k]) && w == lado_y(s[k]),
        !desde_x ==> vs[i] == lado_y(s[k]) && w == lado_x(s[k]),
        cw == !col[i],
    ensures
        ({
            let vs2 = vs.push(w);
            let col2 = col.push(cw);
            let raiz2 = raiz.push(raiz[i]);
            &&& vs2.no_duplicates()
            &&& forall|p: int| 0 <= p < vs2.len() ==> vertices_de(s).contains(#[trigger] vs2[p])
            &&& forall|p: int| 0 <= p < vs2.len() ==> vs2.contains(#[trigger] raiz2[p])
            &&& forzado(s, vs2, col2, raiz2)
            &&& misma_raiz(s, vs2, raiz2)
            &&& cerradas(s, vs2, raiz2, actual)
        }),
{
    let vs2 = vs.push(w);
    let col2 = col.push(cw);
    let raiz2 = raiz.push(raiz[i]);
    let n = vs.len() as int;
    assert(vs2[n] == w);
    assert forall|x: V| vs.contains(x) implies #[trigger] vs2.contains(x) by {
        let p = choose|p: int| 0 <= p < vs.len() && vs[p] == x;
        assert(vs2[p] == x);
    }
    // The end `vs[i]` belongs to the current component.
    assert(raiz[i] == actual) by {
        if raiz[i] != actual {
            assert(vs.contains(lado_x(s[k])) && vs.contains(lado_y(s[k])));
        }
    }
    assert(vs2.no_duplicates()) by {
        assert forall|a: int, b: int| 0 <= a < b < vs2.len() implies vs2[a] != vs2[b] by {
            if b == n {
                assert(vs.contains(vs[a]));
            } else {
                assert(vs2[a] == vs[a] && vs2[b] == vs[b]);
            }
        }
    }
    assert forall|p: int| 0 <= p < vs2.len() implies vertices_de(s).contains(#[trigger] vs2[p]) by {
        if p < n {
            assert(vs2[p] == vs[p]);
        }
    }
    assert forall|p: int| 0 <= p < vs2.len() implies vs2.contains(#[trigger] raiz2[p]) by {
        if p < n {
            assert(raiz2[p] == raiz[p]);
            assert(vs.contains(raiz[p]));
        } else {
            assert(vs.contains(raiz[i]));
        }
    }
    assert forall|c: spec_fn(V) -> bool, p: int, q: int|
        #![trigger coloreo_propio(s, c), vs2[p], vs2[q]]
        coloreo_propio(s, c) && 0 <= p < vs2.len() && 0 <= q < vs2.len() && raiz2[p] == raiz2[q] implies ((c(vs2[p]) == c(
            vs2[q],
        )) == (col2[p] == col2[q])) by {
        assert(c(lado_x(s[k])) != c(lado_y(s[k])));
        assert(c(w) != c(vs[i]));
        if p < n && q < n {
            assert(vs2[p] == vs[p] && vs2[q] == vs[q] && col2[p] == col[p] && col2[q] == col[q]);
            assert(raiz[p] == raiz[q]);
        } else if p < n {
            assert(vs2[p] == vs[p] && col2[p] == col[p] && raiz[p] == raiz[i]);
            assert((c(vs[p]) == c(vs[i])) == (col[p] == col[i]));
        } else if q < n {
            assert(vs2[q] == vs[q] && col2[q] == col[q] && raiz[q] == raiz[i]);
            assert((c(vs[q]) == c(vs[i])) == (col[q] == col[i]));
        }
    }
    assert forall|k2: int, p: int, q: int|
        #![trigger s[k2], vs2[p], vs2[q]]
        0 <= k2 < s.len() && s[k2] is Arista && 0 <= p < vs2.len() && 0 <= q < vs2.len() && vs2[p] == lado_x(s[k2]) && vs2[q]
            == lado_y(s[k2]) implies raiz2[p] == raiz2[q] by {
        if p < n && q < n {
            assert(vs2[p] == vs[p] && vs2[q] == vs[q]);
        } else if p < n {
            assert(vs2[p] == vs[p]);
            if raiz[p] != actual {
                assert(vs.contains(lado_y(s[k2])));
            }
        } else if q < n {
            assert(vs2[q] == vs[q]);
            if raiz[q] != actual {
                assert(vs.contains(lado_x(s[k2])));
            }
        }
    }
    assert forall|k2: int, p: int|
        #![trigger s[k2], vs2[p]]
        0 <= k2 < s.len() && s[k2] is Arista && 0 <= p < vs2.len() && (vs2[p] == lado_x(s[k2]) || vs2[p] == lado_y(s[k2]))
            && raiz2[p] != actual implies vs2.contains(lado_x(s[k2])) && vs2.contains(lado_y(s[k2])) by {
        if p < n {
            assert(vs2[p] == vs[p]);
            assert(vs.contains(lado_x(s[k2])) && vs.contains(lado_y(s[k2])));
        }
    }
}

proof fn lema_nueva_raiz<V: VerticeT, P: PesoT>(s: Seq<Arista<V, P>>, vs: Seq<V>, col: Seq<bool>, raiz: Seq<V>, actual: V, v: V)
    requires
        vs.no_duplicates(),
        col.len() == vs.len(),
        raiz.len() == vs.len(),
        forall|p: int| 0 <= p < vs.len() ==> vertices_de(s).contains(#[trigger] vs[p]),
        forall|p: int| 0 <= p < vs.len() ==> vs.contains(#[trigger] raiz[p]),
        forzado(s, vs, col, raiz),
        misma_raiz(s, vs, raiz),
        cerradas(s, vs, raiz, actual),
        !vs.contains(v),
        exists|k: int| 0 <= k < s.len() && (#[trigger] s[k]) is Arista && lado_x(s[k]) == v,
        forall|k2: int| 0 <= k2 < s.len() ==> resuelta(vs, col, #[trigger] s[k2]),
    ensures
        ({
            let vs2 = vs.push(v);
            let col2 = col.push(true);
            let raiz2 = raiz.push(v);
            &&& vs2.no_duplicates()
            &&& forall|p: int| 0 <= p < vs2.len() ==> vertices_de(s).contains(#[trigger] vs2[p])
            &&& forall|p: int| 0 <= p < vs2.len() ==> vs2.contains(#[trigger] raiz2[p])
            &&& forzado(s, vs2, col2, raiz2)
            &&& misma_raiz(s, vs2, raiz2)
            &&& cerradas(s, vs2, raiz2, v)
        }),
{
    let vs2 = vs.push(v);
    let col2 = col.push(true);
    let raiz2 = raiz.push(v);
    let n = vs.len() as int;
    assert(vs2[n] == v);
    let k0 = choose|k: int| 0 <= k < s.len() && (#[trigger] s[k]) is Arista && lado_x(s[k]) == v;
    crate::algoritmo::lema_extremos_en_vertices::<V, P, Arista<V, P>>(s, k0);
    assert forall|x: V| vs.contains(x) implies #[trigger] vs2.contains(x) by {
        let p = choose|p: int| 0 <= p < vs.len() && vs[p] == x;
        assert(vs2[p] == x);
    }
    assert(vs2.no_duplicates()) by {
        assert forall|a: int, b: int| 0 <= a < b < vs2.len() implies vs2[a] != vs2[b] by {
            if b == n {
                assert(vs.contains(vs[a]));
            } else {
                assert(vs2[a] == vs[a] && vs2[b] == vs[b]);
            }
        }
    }
    assert forall|p: int| 0 <= p < vs2.len() implies vertices_de(s).contains(#[trigger] vs2[p]) by {
        if p < n {
            assert(vs2[p] == vs[p]);
        }
    }
    assert forall|p: int| 0 <= p < vs2.len() implies vs2.contains(#[trigger] raiz2[p]) by {
        if p < n {
            assert(raiz2[p] == raiz[p]);
            assert(vs.contains(raiz[p]));
        }
    }
    // No coloured vertex has `v` as its root.
    assert forall|p: int| 0 <= p < n implies raiz[p] != v by {
        assert(vs.contains(raiz[p]));
    }
    // An end of an edge at `v` has no colour: the edge is still unresolved.
    assert forall|k2: int|
        0 <= k2 < s.len() && (#[trigger] s[k2]) is Arista && (lado_x(s[k2]) == v || lado_y(s[k2]) == v) implies !vs.contains(
        lado_x(s[k2]),
    ) && !vs.contains(lado_y(s[k2])) by {
        assert(resuelta(vs, col, s[k2]));
        if bien_coloreada(vs, col, s[k2]) {
            let (i, j) = choose|i: int, j: int|
                0 <= i < vs.len() && 0 <= j < vs.len() && vs[i] == lado_x(s[k2]) && vs[j] == lado_y(s[k2]) && col[i] != col[j];
            if lado_x(s[k2]) == v {
                assert(vs.contains(v));
            } else {
                assert(vs.contains(v));
            }
        }
    }
    assert forall|c: spec_fn(V) -> bool, p: int, q: int|
        #![trigger coloreo_propio(s, c), vs2[p], vs2[q]]
        coloreo_propio(s, c) && 0 <= p < vs2.len() && 0 <= q < vs2.len() && raiz2[p] == raiz2[q] implies ((c(vs2[p]) == c(
            vs2[q],
        )) == (col2[p] == col2[q])) by {
        if p < n && q < n {
            assert(vs2[p] == vs[p] && vs2[q] == vs[q] && col2[p] == col[p] && col2[q] == col[q]);
            assert(raiz[p] == raiz[q]);
        } else if p < n {
            assert(raiz2[p] == raiz[p]);
        } else if q < n {
            assert(raiz2[q] == raiz[q]);
        }
    }
    assert forall|k2: int, p: int, q: int|
        #![trigger s[k2], vs2[p], vs2[q]]
        0 <= k2 < s.len() && s[k2] is Arista && 0 <= p < vs2.len() && 0 <= q < vs2.len() && vs2[p] == lado_x(s[k2]) && vs2[q]
            == lado_y(s[k2]) implies raiz2[p] == raiz2[q] by {
        if p < n && q < n {
            assert(vs2[p] == vs[p] && vs2[q] == vs[q]);
        } else if p < n {
            assert(vs2[p] == vs[p]);
            assert(vs.contains(vs[p]));
        } else if q < n {
            assert(vs2[q] == vs[q]);
            assert(vs.contains(vs[q]));
        }
    }
    assert forall|k2: int, p: int|
        #![trigger s[k2], vs2[p]]
        0 <= k2 < s.len() && s[k2] is Arista && 0 <= p < vs2.len() && (vs2[p] == lado_x(s[k2]) || vs2[p] == lado_y(s[k2]))
            && raiz2[p] != v implies vs2.contains(lado_x(s[k2])) && vs2.contains(lado_y(s[k2])) by {
        assert(p < n);
        assert(vs2[p] == vs[p]);
        assert(vs.contains(vs[p]));
        assert(resuelta(vs, col, s[k2]));
        let (i, j) = choose|i: int, j: int|
            0 <= i < vs.len() && 0 <= j < vs.len() && vs[i] == lado_x(s[k2]) && vs[j] == lado_y(s[k2]) && col[i] != col[j];
        assert(vs.contains(lado_x(s[k2])) && vs.contains(lado_y(s[k2])));
    }
}


} // verus!
