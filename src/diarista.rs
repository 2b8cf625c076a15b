use vstd::prelude::*;

use crate::arista::{peso_igual, Arista};
use crate::arista_t::AristaT;
use crate::peso::{NoPeso, PesoT};
use crate::vertice::VerticeT;

verus! {

/// A directed arc, possibly weighted, or the marker of an isolated vertex.
#[derive(Copy, Debug)]
pub enum Diarista<V: VerticeT, P: PesoT = NoPeso> {
    Diarista(V, V, Option<P>),
    VerticeAislado(V),
}

/// The undirected edge with the endpoints and weight of `d`.
pub open spec fn como_arista<V: VerticeT, P: PesoT>(d: Diarista<V, P>) -> Arista<V, P> {
    match d {
        Diarista::Diarista(u, v, p) => Arista::Arista(u, v, p),
        Diarista::VerticeAislado(u) => Arista::VerticeAislado(u),
    }
}

impl<V: VerticeT, P: PesoT> Diarista<V, P> {
    /// The undirected edge with the same endpoints and weight.
    pub fn into_arista(self) -> (r: Arista<V, P>)
        ensures
            r == como_arista(self),
    {
        match self {
            Diarista::Diarista(u, v, p) => Arista::arista(u, v, p),
            Diarista::VerticeAislado(u) => Arista::vertice(u),
        }
    }
}

impl<V: VerticeT, P: PesoT> AristaT<V, P> for Diarista<V, P> {
    open spec fn extremos(&self) -> Option<(V, V)> {
        match *self {
            Diarista::Diarista(v, w, _) => Some((v, w)),
            Diarista::VerticeAislado(_) => None,
        }
    }

    open spec fn aislado(&self) -> Option<V> {
        match *self {
            Diarista::Diarista(..) => None,
            Diarista::VerticeAislado(v) => Some(v),
        }
    }

    open spec fn peso_spec(&self) -> Option<P> {
        match *self {
            Diarista::Diarista(_, _, p) => p,
            Diarista::VerticeAislado(_) => None,
        }
    }

    /// An arc can be traversed only from its first endpoint.
    open spec fn accesible_spec(&self, v: V) -> bool {
        match *self {
            Diarista::Diarista(u, _, _) => u == v,
            Diarista::VerticeAislado(_) => false,
        }
    }

    /// Arcs are equal when their endpoints agree in order.
    open spec fn igual_spec(&self, otra: &Self) -> bool {
        *self == *otra
    }

    open spec fn marcador(v: V) -> Self {
        Diarista::VerticeAislado(v)
    }

    proof fn lema_forma(&self, v: V, otra: Self) {
    }

    fn arista(v: V, w: V, p: Option<P>) -> (r: Self) {
        Diarista::Diarista(v, w, p)
    }

    fn arista_sin_peso(v: V, w: V) -> (r: Self) {
        Diarista::Diarista(v, w, None)
    }

    fn vertice(v: V) -> (r: Self) {
        Diarista::VerticeAislado(v)
    }

    fn arista_contiene_vertice(&self, v0: &V) -> (r: bool) {
        match self {
            Diarista::Diarista(u, v, _) => u.igual(v0) || v.igual(v0),
            Diarista::VerticeAislado(_) => false,
        }
    }

    fn es_accesible(&self, v0: &V) -> (r: bool) {
        match self {
            Diarista::Diarista(u, _, _) => u.igual(v0),
            Diarista::VerticeAislado(_) => false,
        }
    }

    fn get_vertices(&self) -> (r: Option<(V, V)>) {
        match self {
            Diarista::Diarista(u, v, _) => Some((*u, *v)),
            Diarista::VerticeAislado(_) => None,
        }
    }

    fn into_vertices(self) -> (r: Option<(V, V)>) {
        match self {
            Diarista::Diarista(u, v, _) => Some((u, v)),
            Diarista::VerticeAislado(_) => None,
        }
    }

    fn get_aislado(&self) -> (r: Option<V>) {
        match self {
            Diarista::VerticeAislado(v) => Some(*v),
            _ => None,
        }
    }

    fn es_vetice_aislado(&self, v: &V) -> (r: bool) {
        match self {
            Diarista::Diarista(..) => false,
            Diarista::VerticeAislado(v0) => v0.igual(v),
        }
    }

    fn get_peso(&self) -> (r: Option<P>) {
        match self {
            Diarista::Diarista(_, _, p) => *p,
            Diarista::VerticeAislado(_) => None,
        }
    }

    fn igual(&self, otra: &Self) -> (r: bool) {
        match (self, otra) {
            (Diarista::Diarista(v1, w1, p1), Diarista::Diarista(v2, w2, p2)) => v1.igual(v2)
                && w1.igual(w2) && peso_igual(p1, p2),
            (Diarista::VerticeAislado(v1), Diarista::VerticeAislado(v2)) => v1.igual(v2),
            _ => false,
        }
    }
}

impl<V: VerticeT, P: PesoT> Clone for Diarista<V, P> {
    fn clone(&self) -> (r: Self)
        ensures
            r == *self,
    {
        *self
    }
}

impl<V: VerticeT, P: PesoT> PartialEq for Diarista<V, P> {
    fn eq(&self, other: &Self) -> (r: bool) {
        self.igual(other)
    }
}

impl<V: VerticeT, P: PesoT> vstd::std_specs::cmp::PartialEqSpecImpl for Diarista<V, P> {
    open spec fn obeys_eq_spec() -> bool {
        true
    }

    open spec fn eq_spec(&self, other: &Self) -> bool {
        self.igual_spec(other)
    }
}

} // verus!
