use vstd::prelude::*;

use crate::peso::PesoT;
use crate::vertice::VerticeT;

verus! {

/// Whether the endpoints `e` (if any) contain `v`.
pub open spec fn contiene<V>(e: Option<(V, V)>, v: V) -> bool {
    match e {
        Some((a, b)) => a == v || b == v,
        None => false,
    }
}

/// The endpoint opposite to `v`, when `v` is an endpoint.
pub open spec fn otro_extremo<V>(e: Option<(V, V)>, v: V) -> Option<V> {
    match e {
        Some((a, b)) => if v == a {
            Some(b)
        } else if v == b {
            Some(a)
        } else {
            None
        },
        None => None,
    }
}

/// Whether every entry of `ps` is a weight.
pub open spec fn todas_con_peso<P: PesoT>(ps: Seq<Option<P>>) -> bool {
    forall|i: int| 0 <= i < ps.len() ==> (#[trigger] ps[i]) is Some
}

/// The numeric value of an optional weight (zero when absent).
pub open spec fn valor_opcional<P: PesoT>(p: Option<P>) -> int {
    match p {
        Some(p) => p.valor(),
        None => 0,
    }
}

/// Sum of the weights present in `ps`.
pub open spec fn suma_pesos<P: PesoT>(ps: Seq<Option<P>>) -> int
    decreases ps.len(),
{
    if ps.len() == 0 {
        0
    } else {
        suma_pesos(ps.drop_last()) + valor_opcional(ps.last())
    }
}

/// Whether every prefix sum of `ps` is representable.
pub open spec fn sumas_en_rango<P: PesoT>(ps: Seq<Option<P>>) -> bool {
    forall|k: int| 0 <= k <= ps.len() ==> P::en_rango(#[trigger] suma_pesos(ps.take(k)))
}

/// Whether index `i` holds a minimal weight of `ps`, with no earlier entry of
/// that same weight.
pub open spec fn primer_minimo<P: PesoT>(ps: Seq<Option<P>>, i: int) -> bool {
    &&& 0 <= i < ps.len()
    &&& forall|j: int| 0 <= j < ps.len() ==> valor_opcional(ps[i]) <= #[trigger] valor_opcional(ps[j])
    &&& forall|j: int| 0 <= j < i ==> valor_opcional(ps[i]) < #[trigger] valor_opcional(ps[j])
}

/// Operations common to undirected edges and directed arcs.
///
/// An edge is either a live edge between two endpoints, with an optional
/// weight, or a marker for an isolated vertex.
pub trait AristaT<V: VerticeT, P: PesoT>: Copy + Sized {
    /// The endpoints of a live edge; `None` for an isolated-vertex marker.
    spec fn extremos(&self) -> Option<(V, V)>;

    /// The vertex of an isolated-vertex marker.
    spec fn aislado(&self) -> Option<V>;

    /// The weight of a live edge.
    spec fn peso_spec(&self) -> Option<P>;

    /// Whether the edge can be traversed starting at `v`.
    spec fn accesible_spec(&self, v: V) -> bool;

    /// Equality of edges as the edge kind defines it.
    spec fn igual_spec(&self, otra: &Self) -> bool;

    /// The isolated-vertex marker of `v`.
    spec fn marcador(v: V) -> Self;

    /// Facts shared by every edge kind.
    proof fn lema_forma(&self, v: V, otra: Self)
        ensures
            self.igual_spec(&otra) ==> self.aislado() == otra.aislado() && contiene(
                self.extremos(),
                v,
            ) == contiene(otra.extremos(), v),
            self.extremos() is Some <==> self.aislado() is None,
            self.extremos() is None ==> self.peso_spec() is None,
            self.accesible_spec(v) ==> contiene(self.extremos(), v),
            self.igual_spec(self),
            Self::marcador(v).extremos() is None,
            Self::marcador(v).aislado() == Some(v),
    ;

    /// Edge between `v` and `w` with an optional weight.
    fn arista(v: V, w: V, p: Option<P>) -> (r: Self)
        ensures
            r.extremos() == Some((v, w)),
            r.peso_spec() == p,
    ;

    /// Unweighted edge between `v` and `w`.
    fn arista_sin_peso(v: V, w: V) -> (r: Self)
        ensures
            r.extremos() == Some((v, w)),
            r.peso_spec() is None,
    ;

    /// Marker for the isolated vertex `v`.
    fn vertice(v: V) -> (r: Self)
        ensures
            r == Self::marcador(v),
            r.extremos() is None,
            r.aislado() == Some(v),
    ;

    /// The same edge with the neutral weight; `None` for an isolated vertex.
    fn peso_por_defecto(&self) -> (r: Option<Self>)
        ensures
            r is Some <==> self.extremos() is Some,
            r is Some ==> r->0.extremos() == self.extremos() && r->0.peso_spec() is Some && (
            P::con_orden() ==> r->0.peso_spec()->0.valor() == 0),
    {
        match self.get_vertices() {
            Some((v1, v2)) => Some(Self::arista(v1, v2, Some(P::elemento_neutro()))),
            None => None,
        }
    }

    /// Whether the edge is live and has `v0` as an endpoint.
    fn arista_contiene_vertice(&self, v0: &V) -> (r: bool)
        ensures
            r == contiene(self.extremos(), *v0),
    ;

    /// Whether the edge can be traversed starting at `v0`.
    fn es_accesible(&self, v0: &V) -> (r: bool)
        ensures
            r == self.accesible_spec(*v0),
    ;

    /// The endpoints of a live edge.
    fn get_vertices(&self) -> (r: Option<(V, V)>)
        ensures
            r == self.extremos(),
    ;

    /// Consumes the edge and gives its endpoints.
    fn into_vertices(self) -> (r: Option<(V, V)>)
        ensures
            r == self.extremos(),
    ;

    /// The vertex of an isolated-vertex marker.
    fn get_aislado(&self) -> (r: Option<V>)
        ensures
            r == self.aislado(),
    ;

    /// Whether this is the isolated-vertex marker of `v`.
    fn es_vetice_aislado(&self, v: &V) -> (r: bool)
        ensures
            r == (self.aislado() == Some(*v)),
    ;

    /// The weight of a live edge.
    fn get_peso(&self) -> (r: Option<P>)
        ensures
            r == self.peso_spec(),
    ;

    /// Equality of edges as the edge kind defines it.
    fn igual(&self, otra: &Self) -> (r: bool)
        ensures
            r == self.igual_spec(otra),
    ;

    /// The endpoint opposite to `v`, when the edge is live and `v` is one of
    /// its endpoints.
    fn other(&self, v: &V) -> (r: Option<V>)
        ensures
            r == otro_extremo(self.extremos(), *v),
    {
        match self.get_vertices() {
            Some((v1, v2)) => {
                if v.igual(&v1) {
                    Some(v2)
                } else if v.igual(&v2) {
                    Some(v1)
                } else {
                    None
                }
            },
            None => None,
        }
    }

    /// The first edge of minimal weight; `None` when the list is empty or an
    /// edge carries no weight.
    fn min_aristas(aristas: &Vec<Self>) -> (r: Option<Self>)
        ensures
            r is Some <==> aristas@.len() > 0 && todas_con_peso(aristas@.map_values(|a: Self| a.peso_spec())),
            r is Some ==> exists|i: int|
                0 <= i < aristas@.len() && aristas@[i] == r->0 && (P::con_orden()
                    ==> primer_minimo(aristas@.map_values(|a: Self| a.peso_spec()), i)),
    {
        if aristas.len() == 0 {
            return None;
        }
        let mut m: usize = 0;
        let mut i: usize = 0;
        while i < aristas.len()
            invariant
                0 <= m < aristas@.len(),
                m <= i <= aristas@.len(),
                forall|j: int| 0 <= j < i ==> (#[trigger] aristas@[j].peso_spec()) is Some,
                P::con_orden() ==> forall|j: int|
                    0 <= j < i ==> valor_opcional(aristas@[m as int].peso_spec())
                        <= #[trigger] valor_opcional(aristas@[j].peso_spec()),
                P::con_orden() ==> forall|j: int|
                    0 <= j < m ==> valor_opcional(aristas@[m as int].peso_spec())
                        < #[trigger] valor_opcional(aristas@[j].peso_spec()),
                i == 0 ==> m == 0,
            decreases aristas@.len() - i,
        {
            let pi = match aristas[i].get_peso() {
                Some(p) => p,
                None => {
                    assert(aristas@.map_values(|a: Self| a.peso_spec())[i as int] is None);
                    return None;
                },
            };
            if i > 0 {
                let pm = aristas[m].get_peso().unwrap();
                if pi.menor(&pm) {
                    m = i;
                }
            }
            i = i + 1;
        }
        assert(todas_con_peso(aristas@.map_values(|a: Self| a.peso_spec())));
        assert(P::con_orden() ==> primer_minimo(aristas@.map_values(|a: Self| a.peso_spec()), m as int));
        Some(aristas[m])
    }

    /// Sum of the weights that the edges carry.
    fn sumatorio_pesos(aristas: &Vec<Self>) -> (r: P)
        requires
            P::con_orden() ==> sumas_en_rango(aristas@.map_values(|a: Self| a.peso_spec())),
        ensures
            P::con_orden() ==> r.valor() == suma_pesos(aristas@.map_values(|a: Self| a.peso_spec())),
    {
        let ghost ps = aristas@.map_values(|a: Self| a.peso_spec());
        let mut suma = P::elemento_neutro();
        let mut i: usize = 0;
        proof {
            assert(ps.take(0) =~= Seq::<Option<P>>::empty());
        }
        while i < aristas.len()
            invariant
                i <= aristas@.len(),
                ps == aristas@.map_values(|a: Self| a.peso_spec()),
                P::con_orden() ==> sumas_en_rango(ps),
                P::con_orden() ==> suma.valor() == suma_pesos(ps.take(i as int)),
            decreases aristas@.len() - i,
        {
            proof {
                assert(ps.take(i as int + 1).drop_last() =~= ps.take(i as int));
                assert(ps.take(i as int + 1).last() == aristas@[i as int].peso_spec());
                if P::con_orden() {
                    assert(P::en_rango(suma_pesos(ps.take(i as int + 1))));
                }
            }
            match aristas[i].get_peso() {
                Some(p) => {
                    suma = suma.suma(&p);
                },
                None => {},
            }
            i = i + 1;
        }
        proof {
            assert(ps.take(aristas@.len() as int) =~= ps);
        }
        suma
    }
}

} // verus!
