use vstd::prelude::*;

use crate::arista_t::{contiene, AristaT};
use crate::diarista::Diarista;
use crate::peso::{NoPeso, PesoT};
use crate::vertice::VerticeT;

verus! {

/// An undirected edge, possibly weighted, or the marker of an isolated vertex.
#[derive(Copy, Debug)]
pub enum Arista<V: VerticeT, P: PesoT = NoPeso> {
    Arista(V, V, Option<P>),
    VerticeAislado(V),
}

/// Exec equality of optional weights.
pub(crate) fn peso_igual<P: PesoT>(p: &Option<P>, q: &Option<P>) -> (r: bool)
    ensures
        r == (*p == *q),
{
    match (p, q) {
        (Some(a), Some(b)) => a.igual(b),
        (None, None) => true,
        _ => false,
    }
}

/// The arc with the endpoints, in order, and weight of `a`.
pub open spec fn como_diarista<V: VerticeT, P: PesoT>(a: Arista<V, P>) -> Diarista<V, P> {
    match a {
        Arista::Arista(u, v, p) => Diarista::Diarista(u, v, p),
        Arista::VerticeAislado(u) => Diarista::VerticeAislado(u),
    }
}

impl<V: VerticeT, P: PesoT> Arista<V, P> {
    /// The arc with the same endpoints, in the same order, and weight.
    pub fn into_diarista(self) -> (r: Diarista<V, P>)
        ensures
            r == como_diarista(self),
    {
        match self {
            Arista::Arista(u, v, p) => Diarista::arista(u, v, p),
            Arista::VerticeAislado(u) => Diarista::vertice(u),
        }
    }
}

impl<V: VerticeT, P: PesoT> AristaT<V, P> for Arista<V, P> {
    open spec fn extremos(&self) -> Option<(V, V)> {
        match *self {
            Arista::Arista(v, w, _) => Some((v, w)),
            Arista::VerticeAislado(_) => None,
        }
    }

    open spec fn aislado(&self) -> Option<V> {
        match *self {
            Arista::Arista(..) => None,
            Arista::VerticeAislado(v) => Some(v),
        }
    }

    open spec fn peso_spec(&self) -> Option<P> {
        match *self {
            Arista::Arista(_, _, p) => p,
            Arista::VerticeAislado(_) => None,
        }
    }

    /// An undirected edge can be traversed from either endpoint.
    open spec fn accesible_spec(&self, v: V) -> bool {
        contiene(self.extremos(), v)
    }

    /// Undirected edges are equal whatever the order of their endpoints.
    open spec fn igual_spec(&self, otra: &Self) -> bool {
        match (*self, *otra) {
            (Arista::Arista(v1, w1, p1), Arista::Arista(v2, w2, p2)) => p1 == p2 && ((v1 == v2
                && w1 == w2) || (v1 == w2 && w1 == v2)),
            (Arista::VerticeAislado(v1), Arista::VerticeAislado(v2)) => v1 == v2,
            _ => false,
        }
    }

    open spec fn marcador(v: V) -> Self {
        Arista::VerticeAislado(v)
    }

    proof fn lema_forma(&self, v: V, otra: Self) {
    }

    fn arista(v: V, w: V, p: Option<P>) -> (r: Self) {
        Arista::Arista(v, w, p)
    }

    fn arista_sin_peso(v: V, w: V) -> (r: Self) {
        Arista::Arista(v, w, None)
    }

    fn vertice(v: V) -> (r: Self) {
        Arista::VerticeAislado(v)
    }

    fn arista_contiene_vertice(&self, v0: &V) -> (r: bool) {
        match self {
            Arista::Arista(v, w, _) => v.igual(v0) || w.igual(v0),
            Arista::VerticeAislado(_) => false,
        }
    }

    fn es_accesible(&self, v0: &V) -> (r: bool) {
        self.arista_contiene_vertice(v0)
    }

    fn get_vertices(&self) -> (r: Option<(V, V)>) {
        match self {
            Arista::Arista(v, w, _) => Some((*v, *w)),
            Arista::VerticeAislado(_) => None,
        }
    }

    fn into_vertices(self) -> (r: Option<(V, V)>) {
        match self {
            Arista::Arista(v, w, _) => Some((v, w)),
            Arista::VerticeAislado(_) => None,
        }
    }

    fn get_aislado(&self) -> (r: Option<V>) {
        match self {
            Arista::VerticeAislado(v) => Some(*v),
            _ => None,
        }
    }

    fn es_vetice_aislado(&self, v: &V) -> (r: bool) {
        match self {
            Arista::Arista(..) => false,
            Arista::VerticeAislado(v0) => v0.igual(v),
        }
    }

    fn get_peso(&self) -> (r: Option<P>) {
        match self {
            Arista::Arista(_, _, p) => *p,
            Arista::VerticeAislado(_) => None,
        }
    }

    fn igual(&self, otra: &Self) -> (r: bool) {
        match (self, otra) {
            (Arista::Arista(v1, w1, p1), Arista::Arista(v2, w2, p2)) => peso_igual(p1, p2) && ((
            v1.igual(v2) && w1.igual(w2)) || (v1.igual(w2) && w1.igual(v2))),
            (Arista::VerticeAislado(v1), Arista::VerticeAislado(v2)) => v1.igual(v2),
            _ => false,
        }
    }
}

impl<V: VerticeT, P: PesoT> Clone for Arista<V, P> {
    fn clone(&self) -> (r: Self)
        ensures
            r == *self,
    {
        *self
    }
}

impl<V: VerticeT, P: PesoT> PartialEq for Arista<V, P> {
    fn eq(&self, other: &Self) -> (r: bool) {
        self.igual(other)
    }
}

impl<V: VerticeT, P: PesoT> vstd::std_specs::cmp::PartialEqSpecImpl for Arista<V, P> {
    open spec fn obeys_eq_spec() -> bool {
        true
    }

    open spec fn eq_spec(&self, other: &Self) -> bool {
        self.igual_spec(other)
    }
}

} // verus!
