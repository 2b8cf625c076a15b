use vstd::prelude::*;

use crate::arista::Arista;
use crate::arista_t::AristaT;
use crate::diarista::{como_arista, Diarista};
use crate::grafo::Grafo;
use crate::grafo_t::{anadir, deduplicar, esta_vertice, lema_esta_vertice_push, toca_vertice, GrafoT};
use crate::peso::{NoPeso, PesoT};
use crate::vertice::{copiar, VerticeT};

verus! {

/// A directed graph: a list of arcs and isolated-vertex markers without
/// repetitions, in insertion order.
pub struct Digrafo<V: VerticeT, P: PesoT = NoPeso> {
    lista_arcos: Vec<Diarista<V, P>>,
}

/// The number of arcs of `s` that end at `v`.
pub open spec fn entrada_spec<V: VerticeT, P: PesoT>(s: Seq<Diarista<V, P>>, v: V) -> int
    decreases s.len(),
{
    if s.len() == 0 {
        0
    } else {
        entrada_spec(s.drop_last(), v) + match s.last() {
            Diarista::Diarista(_, w, _) => if w == v {
                1int
            } else {
                0int
            },
            Diarista::VerticeAislado(_) => 0int,
        }
    }
}

/// The number of arcs of `s` that start at `v`.
pub open spec fn salida_spec<V: VerticeT, P: PesoT>(s: Seq<Diarista<V, P>>, v: V) -> int
    decreases s.len(),
{
    if s.len() == 0 {
        0
    } else {
        salida_spec(s.drop_last(), v) + match s.last() {
            Diarista::Diarista(u, _, _) => if u == v {
                1int
            } else {
                0int
            },
            Diarista::VerticeAislado(_) => 0int,
        }
    }
}

/// In- and out-degrees are bounded by the number of arcs.
pub proof fn lema_entrada_acotada<V: VerticeT, P: PesoT>(s: Seq<Diarista<V, P>>, v: V)
    ensures
        0 <= entrada_spec(s, v) <= s.len(),
        0 <= salida_spec(s, v) <= s.len(),
    decreases s.len(),
{
    if s.len() > 0 {
        lema_entrada_acotada(s.drop_last(), v);
    }
}

impl<V: VerticeT, P: PesoT> Digrafo<V, P> {
    /// The underlying undirected graph, weights kept; arcs that differ only in
    /// direction become one edge.
    pub fn grafo_subyacente(&self) -> (r: Grafo<V, P>)
        ensures
            r.aristas_spec() == anadir(
                Seq::<Arista<V, P>>::empty(),
                self.aristas_spec().map_values(|d: Diarista<V, P>| como_arista(d)),
            ),
    {
        let mut aristas: Vec<Arista<V, P>> = Vec::new();
        let mut i: usize = 0;
        while i < self.lista_arcos.len()
            invariant
                i <= self.lista_arcos@.len(),
                aristas@ == self.lista_arcos@.take(i as int).map_values(
                    |d: Diarista<V, P>| como_arista(d),
                ),
            decreases self.lista_arcos@.len() - i,
        {
            aristas.push(self.lista_arcos[i].into_arista());
            i = i + 1;
            proof {
                assert(aristas@ =~= self.lista_arcos@.take(i as int).map_values(
                    |d: Diarista<V, P>| como_arista(d),
                ));
            }
        }
        proof {
            assert(self.lista_arcos@.take(i as int) =~= self.lista_arcos@);
        }
        Grafo::from_aristas(aristas)
    }

    /// The in-degree of `v`; `None` when `v` is not a vertex of the digraph.
    pub fn grado_entrada(&self, v: &V) -> (r: Option<usize>)
        ensures
            r is Some <==> esta_vertice(self.aristas_spec(), *v),
            r is Some ==> r->0 == entrada_spec(self.aristas_spec(), *v),
    {
        self.contar(v, true)
    }

    /// The out-degree of `v`; `None` when `v` is not a vertex of the digraph.
    pub fn grado_salida(&self, v: &V) -> (r: Option<usize>)
        ensures
            r is Some <==> esta_vertice(self.aristas_spec(), *v),
            r is Some ==> r->0 == salida_spec(self.aristas_spec(), *v),
    {
        self.contar(v, false)
    }

    fn contar(&self, v: &V, entrada: bool) -> (r: Option<usize>)
        ensures
            r is Some <==> esta_vertice(self.aristas_spec(), *v),
            r is Some && entrada ==> r->0 == entrada_spec(self.aristas_spec(), *v),
            r is Some && !entrada ==> r->0 == salida_spec(self.aristas_spec(), *v),
    {
        let s = &self.lista_arcos;
        let mut res: usize = 0;
        let mut encontrado = false;
        let mut i: usize = 0;
        while i < s.len()
            invariant
                i <= s@.len(),
                s@ == self.aristas_spec(),
                entrada ==> res == entrada_spec(s@.take(i as int), *v),
                !entrada ==> res == salida_spec(s@.take(i as int), *v),
                encontrado == esta_vertice(s@.take(i as int), *v),
            decreases s@.len() - i,
        {
            proof {
                assert(s@.take(i as int + 1).drop_last() =~= s@.take(i as int));
                lema_esta_vertice_push::<V, P, Diarista<V, P>>(s@.take(i as int), s@[i as int], *v);
                assert(s@.take(i as int).push(s@[i as int]) =~= s@.take(i as int + 1));
                lema_entrada_acotada(s@.take(i as int + 1), *v);
            }
            let e = s[i];
            if toca_vertice(&e, v) {
                encontrado = true;
            }
            match e {
                Diarista::Diarista(a, b, _) => {
                    if entrada && b.igual(v) {
                        res = res + 1;
                    } else if !entrada && a.igual(v) {
                        res = res + 1;
                    }
                },
                Diarista::VerticeAislado(_) => {},
            }
            i = i + 1;
        }
        proof {
            assert(s@.take(s@.len() as int) =~= s@);
        }
        if encontrado {
            Some(res)
        } else {
            None
        }
    }
}

impl<V: VerticeT, P: PesoT> GrafoT<V, P, Diarista<V, P>> for Digrafo<V, P> {
    closed spec fn aristas_spec(&self) -> Seq<Diarista<V, P>> {
        self.lista_arcos@
    }

    fn new() -> (r: Self) {
        Digrafo { lista_arcos: Vec::new() }
    }

    fn from_aristas(lista: Vec<Diarista<V, P>>) -> (r: Self) {
        Digrafo { lista_arcos: deduplicar(&lista) }
    }

    fn get_aristas(&self) -> (r: &Vec<Diarista<V, P>>) {
        &self.lista_arcos
    }
}

impl<V: VerticeT, P: PesoT> Clone for Digrafo<V, P> {
    fn clone(&self) -> (r: Self)
        ensures
            r.aristas_spec() == self.aristas_spec(),
    {
        Digrafo { lista_arcos: copiar(&self.lista_arcos) }
    }
}

} // verus!
