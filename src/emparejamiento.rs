use vstd::prelude::*;

use crate::arista_t::{contiene, otro_extremo, AristaT};
use crate::peso::PesoT;
use crate::vertice::{copiar, VerticeT};

verus! {

/// Whether the live edges `a` and `b` share no endpoint.
pub open spec fn disjuntas<V>(a: Option<(V, V)>, b: Option<(V, V)>) -> bool {
    match (a, b) {
        (Some((u1, v1)), Some((u2, v2))) => u1 != u2 && u1 != v2 && v1 != u2 && v1 != v2,
        _ => false,
    }
}

/// Whether `l` is a matching: live edges, no two of them sharing a vertex.
pub open spec fn es_emparejamiento<V: VerticeT, P: PesoT, A: AristaT<V, P>>(l: Seq<A>) -> bool {
    &&& forall|i: int| 0 <= i < l.len() ==> (#[trigger] l[i]).extremos() is Some
    &&& forall|i: int, j: int|
        0 <= i < j < l.len() ==> disjuntas(#[trigger] l[i].extremos(), #[trigger] l[j].extremos())
}

/// Whether no edge of `l` has `v` as an endpoint.
pub open spec fn libre<V: VerticeT, P: PesoT, A: AristaT<V, P>>(l: Seq<A>, v: V) -> bool {
    forall|i: int| 0 <= i < l.len() ==> !contiene(#[trigger] l[i].extremos(), v)
}

/// The edges of `l` that are not equal to `e`.
pub open spec fn sin_iguales<V: VerticeT, P: PesoT, A: AristaT<V, P>>(l: Seq<A>, e: A) -> Seq<A>
    decreases l.len(),
{
    if l.len() == 0 {
        Seq::empty()
    } else {
        let r = sin_iguales(l.drop_last(), e);
        if l.last().igual_spec(&e) {
            r
        } else {
            r.push(l.last())
        }
    }
}

/// A matching: a set of edges of which no two share a vertex.
pub struct Emparejamiento<V: VerticeT, P: PesoT, A: AristaT<V, P>> {
    aristas: Vec<A>,
    marca: core::marker::PhantomData<(V, P)>,
}

impl<V: VerticeT, P: PesoT, A: AristaT<V, P>> Emparejamiento<V, P, A> {
    pub closed spec fn aristas_spec(&self) -> Seq<A> {
        self.aristas@
    }

    pub open spec fn wf(&self) -> bool {
        es_emparejamiento(self.aristas_spec())
    }

    /// The matching of the edges of `lista`; `None` when one of them is an
    /// isolated vertex or two of them share a vertex.
    pub fn new(lista: Vec<A>) -> (r: Option<Self>)
        ensures
            r is Some <==> es_emparejamiento(lista@),
            r is Some ==> r->0.aristas_spec() == lista@ && r->0.wf(),
    {
        let mut i: usize = 0;
        while i < lista.len()
            invariant
                i <= lista@.len(),
                es_emparejamiento(lista@.take(i as int)),
            decreases lista@.len() - i,
        {
            let (u, v) = match lista[i].get_vertices() {
                Some(par) => par,
                None => {
                    proof {
                        assert(lista@[i as int].extremos() is None);
                    }
                    return None;
                },
            };
            let mut j: usize = 0;
            while j < i
                invariant
                    j <= i < lista@.len(),
                    lista@[i as int].extremos() == Some((u, v)),
                    es_emparejamiento(lista@.take(i as int)),
                    forall|k: int| 0 <= k < j ==> disjuntas(lista@[k].extremos(), #[trigger] lista@[i as int].extremos()),
                decreases i - j,
            {
                proof {
                    assert(lista@.take(i as int)[j as int] == lista@[j as int]);
                }
                let (a, b) = lista[j].get_vertices().unwrap();
                if a.igual(&u) || a.igual(&v) || b.igual(&u) || b.igual(&v) {
                    proof {
                        assert(!disjuntas(lista@[j as int].extremos(), lista@[i as int].extremos()));
                    }
                    return None;
                }
                proof {
                    assert(lista@.take(i as int)[j as int] == lista@[j as int]);
                }
                j = j + 1;
            }
            proof {
                assert forall|a: int, b: int| 0 <= a < b < i + 1 implies disjuntas(
                    #[trigger] lista@.take(i as int + 1)[a].extremos(),
                    #[trigger] lista@.take(i as int + 1)[b].extremos(),
                ) by {
                    if b < i {
                        assert(lista@.take(i as int)[a] == lista@[a]);
                        assert(lista@.take(i as int)[b] == lista@[b]);
                    }
                }
                assert forall|a: int| 0 <= a < i + 1 implies (#[trigger] lista@.take(i as int + 1)[a]).extremos() is Some by {
                    if a < i {
                        assert(lista@.take(i as int)[a] == lista@[a]);
                    }
                }
            }
            i = i + 1;
        }
        proof {
            assert(lista@.take(lista@.len() as int) =~= lista@);
        }
        Some(Emparejamiento { aristas: lista, marca: core::marker::PhantomData })
    }

    /// The number of edges.
    pub fn size(&self) -> (r: usize)
        ensures
            r == self.aristas_spec().len(),
    {
        self.aristas.len()
    }

    /// The index of the edge that has `v` as an endpoint.
    fn indice(&self, v: &V) -> (r: Option<usize>)
        ensures
            r is None <==> libre(self.aristas_spec(), *v),
            r is Some ==> r->0 < self.aristas_spec().len() && contiene(
                self.aristas_spec()[r->0 as int].extremos(),
                *v,
            ) && forall|j: int| 0 <= j < r->0 ==> !contiene(#[trigger] self.aristas_spec()[j].extremos(), *v),
    {
        let mut i: usize = 0;
        while i < self.aristas.len()
            invariant
                i <= self.aristas@.len(),
                forall|j: int| 0 <= j < i ==> !contiene(#[trigger] self.aristas@[j].extremos(), *v),
            decreases self.aristas@.len() - i,
        {
            if self.aristas[i].arista_contiene_vertice(v) {
                return Some(i);
            }
            i = i + 1;
        }
        None
    }

    /// The edge that covers `v`; `None` when `v` is free.
    pub fn buscar_arista(&self, v: &V) -> (r: Option<A>)
        ensures
            r is None <==> libre(self.aristas_spec(), *v),
            r is Some ==> self.aristas_spec().contains(r->0) && contiene(r->0.extremos(), *v),
    {
        match self.indice(v) {
            Some(i) => {
                proof {
                    assert(self.aristas_spec()[i as int] == self.aristas@[i as int]);
                }
                Some(self.aristas[i])
            },
            None => None,
        }
    }

    /// The vertex matched with `v`; `None` when `v` is free.
    pub fn recorrer(&self, v: &V) -> (r: Option<V>)
        ensures
            r is None <==> libre(self.aristas_spec(), *v),
            r is Some ==> exists|i: int|
                0 <= i < self.aristas_spec().len() && otro_extremo(
                    #[trigger] self.aristas_spec()[i].extremos(),
                    *v,
                ) == Some(r->0),
    {
        match self.indice(v) {
            Some(i) => {
                let r = self.aristas[i].other(v);
                proof {
                    assert(otro_extremo(self.aristas_spec()[i as int].extremos(), *v) == r);
                }
                r
            },
            None => None,
        }
    }

    /// Whether no edge of the matching covers `v`.
    pub fn es_libre(&self, v: &V) -> (r: bool)
        ensures
            r == libre(self.aristas_spec(), *v),
    {
        self.indice(v).is_none()
    }

    /// Adds `e` when it is a live edge whose endpoints are both free; returns
    /// whether it did.
    pub fn agregar_arista(&mut self, e: &A) -> (r: bool)
        requires
            old(self).wf(),
        ensures
            final(self).wf(),
            r <==> match e.extremos() {
                Some((u, v)) => libre(old(self).aristas_spec(), u) && libre(old(self).aristas_spec(), v),
                None => false,
            },
            r ==> final(self).aristas_spec() == old(self).aristas_spec().push(*e),
            !r ==> final(self).aristas_spec() == old(self).aristas_spec(),
    {
        let (u, v) = match e.get_vertices() {
            Some(par) => par,
            None => {
                return false;
            },
        };
        if self.es_libre(&u) && self.es_libre(&v) {
            self.aristas.push(*e);
            proof {
                let l = self.aristas@;
                assert forall|a: int, b: int| 0 <= a < b < l.len() implies disjuntas(
                    #[trigger] l[a].extremos(),
                    #[trigger] l[b].extremos(),
                ) by {
                    if b == l.len() - 1 {
                        assert(l[a] == old(self).aristas@[a]);
                        assert(!contiene(old(self).aristas@[a].extremos(), u));
                        assert(!contiene(old(self).aristas@[a].extremos(), v));
                    } else {
                        assert(l[a] == old(self).aristas@[a]);
                        assert(l[b] == old(self).aristas@[b]);
                    }
                }
                assert forall|a: int| 0 <= a < l.len() implies (#[trigger] l[a]).extremos() is Some by {
                    if a < l.len() - 1 {
                        assert(l[a] == old(self).aristas@[a]);
                    }
                }
            }
            return true;
        }
        false
    }

    /// Removes the edges equal to `e`.
    pub fn quitar_arista(&mut self, e: &A)
        requires
            old(self).wf(),
        ensures
            final(self).wf(),
            final(self).aristas_spec() == sin_iguales(old(self).aristas_spec(), *e),
    {
        let ghost l = self.aristas@;
        let ghost mut origen: Seq<int> = Seq::empty();
        let mut nueva: Vec<A> = Vec::new();
        let mut i: usize = 0;
        while i < self.aristas.len()
            invariant
                l == self.aristas@,
                es_emparejamiento(l),
                i <= l.len(),
                nueva@ == sin_iguales(l.take(i as int), *e),
                origen.len() == nueva@.len(),
                forall|k: int| 0 <= k < origen.len() ==> 0 <= #[trigger] origen[k] < i && nueva@[k] == l[origen[k]],
                forall|a: int, b: int| 0 <= a < b < origen.len() ==> #[trigger] origen[a] < #[trigger] origen[b],
            decreases l.len() - i,
        {
            proof {
                assert(l.take(i as int + 1).drop_last() =~= l.take(i as int));
            }
            if !self.aristas[i].igual(e) {
                nueva.push(self.aristas[i]);
                proof {
                    origen = origen.push(i as int);
                }
            }
            i = i + 1;
        }
        proof {
            assert(l.take(l.len() as int) =~= l);
            assert forall|a: int, b: int| 0 <= a < b < nueva@.len() implies disjuntas(
                #[trigger] nueva@[a].extremos(),
                #[trigger] nueva@[b].extremos(),
            ) by {
                assert(origen[a] < origen[b]);
            }
            assert forall|a: int| 0 <= a < nueva@.len() implies (#[trigger] nueva@[a]).extremos() is Some by {
                assert(nueva@[a] == l[origen[a]]);
            }
        }
        self.aristas = nueva;
    }
}

/// Whether `a` and `b` hold equal edges, in the same order.
pub open spec fn mismas_aristas<V: VerticeT, P: PesoT, A: AristaT<V, P>>(a: Seq<A>, b: Seq<A>) -> bool {
    &&& a.len() == b.len()
    &&& forall|i: int| 0 <= i < a.len() ==> (#[trigger] a[i]).igual_spec(&b[i])
}

impl<V: VerticeT, P: PesoT, A: AristaT<V, P>> PartialEq for Emparejamiento<V, P, A> {
    fn eq(&self, other: &Self) -> (r: bool) {
        if self.aristas.len() != other.aristas.len() {
            return false;
        }
        let mut i: usize = 0;
        while i < self.aristas.len()
            invariant
                i <= self.aristas@.len(),
                self.aristas@.len() == other.aristas@.len(),
                forall|j: int| 0 <= j < i ==> (#[trigger] self.aristas@[j]).igual_spec(&other.aristas@[j]),
            decreases self.aristas@.len() - i,
        {
            if !self.aristas[i].igual(&other.aristas[i]) {
                return false;
            }
            i = i + 1;
        }
        true
    }
}

impl<V: VerticeT, P: PesoT, A: AristaT<V, P>> vstd::std_specs::cmp::PartialEqSpecImpl for Emparejamiento<V, P, A> {
    open spec fn obeys_eq_spec() -> bool {
        true
    }

    open spec fn eq_spec(&self, other: &Self) -> bool {
        mismas_aristas(self.aristas_spec(), other.aristas_spec())
    }
}

impl<V: VerticeT, P: PesoT, A: AristaT<V, P>> Clone for Emparejamiento<V, P, A> {
    fn clone(&self) -> (r: Self)
        ensures
            r.aristas_spec() == self.aristas_spec(),
    {
        Emparejamiento { aristas: copiar(&self.aristas), marca: core::marker::PhantomData }
    }
}

} // verus!
