use vstd::prelude::*;

use crate::arista::Arista;
use crate::grafo_t::{deduplicar, GrafoT};
use crate::peso::{NoPeso, PesoT};
use crate::vertice::{copiar, VerticeT};

verus! {

/// An undirected graph: a list of edges and isolated-vertex markers without
/// repetitions, in insertion order.
pub struct Grafo<V: VerticeT, P: PesoT = NoPeso> {
    lista_aristas: Vec<Arista<V, P>>,
}

impl<V: VerticeT, P: PesoT> GrafoT<V, P, Arista<V, P>> for Grafo<V, P> {
    closed spec fn aristas_spec(&self) -> Seq<Arista<V, P>> {
        self.lista_aristas@
    }

    fn new() -> (r: Self) {
        Grafo { lista_aristas: Vec::new() }
    }

    fn from_aristas(lista: Vec<Arista<V, P>>) -> (r: Self) {
        Grafo { lista_aristas: deduplicar(&lista) }
    }

    fn get_aristas(&self) -> (r: &Vec<Arista<V, P>>) {
        &self.lista_aristas
    }
}

impl<V: VerticeT, P: PesoT> Clone for Grafo<V, P> {
    fn clone(&self) -> (r: Self)
        ensures
            r.aristas_spec() == self.aristas_spec(),
    {
        Grafo { lista_aristas: copiar(&self.lista_aristas) }
    }
}

} // verus!
