use vstd::prelude::*;

use crate::vertice::VerticeT;

verus! {

/// A read-only pairing of a graph with a designated root.
///
/// The graph is meant to be a tree; the wrapper offers no way to change it.
pub struct Arbol<G, V: VerticeT> {
    grafo: G,
    raiz: V,
}

impl<G, V: VerticeT> Arbol<G, V> {
    pub closed spec fn grafo_spec(&self) -> G {
        self.grafo
    }

    pub closed spec fn raiz_spec(&self) -> V {
        self.raiz
    }

    pub fn from_grafo(grafo: G, raiz: V) -> (r: Self)
        ensures
            r.grafo_spec() == grafo,
            r.raiz_spec() == raiz,
    {
        Arbol { grafo, raiz }
    }

    pub fn estructura(&self) -> (r: &G)
        ensures
            *r == self.grafo_spec(),
    {
        &self.grafo
    }

    pub fn raiz(&self) -> (r: &V)
        ensures
            *r == self.raiz_spec(),
    {
        &self.raiz
    }

    pub fn into_grafo(self) -> (r: G)
        ensures
            r == self.grafo_spec(),
    {
        self.grafo
    }
}

impl<G: Clone, V: VerticeT> Clone for Arbol<G, V> {
    fn clone(&self) -> (r: Self)
        ensures
            r.raiz_spec() == self.raiz_spec(),
    {
        Arbol { grafo: self.grafo.clone(), raiz: self.raiz }
    }
}

} // verus!
