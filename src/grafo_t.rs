use vstd::prelude::*;

use crate::arista_t::{contiene, AristaT};
use crate::orden::{decreciente_usize, ordenar_desc_usize};
use crate::peso::PesoT;
use crate::vertice::{contiene_vertice, copiar, VerticeT};

verus! {

/// Whether `s` holds an edge equal to `e`.
pub open spec fn contiene_igual<V: VerticeT, P: PesoT, A: AristaT<V, P>>(s: Seq<A>, e: A) -> bool {
    exists|i: int| 0 <= i < s.len() && #[trigger] s[i].igual_spec(&e)
}

/// The edges of `l` appended to `base` in order, each one skipped when an
/// equal edge is already there.
pub open spec fn anadir<V: VerticeT, P: PesoT, A: AristaT<V, P>>(base: Seq<A>, l: Seq<A>) -> Seq<A>
    decreases l.len(),
{
    if l.len() == 0 {
        base
    } else {
        let b = anadir(base, l.drop_last());
        if contiene_igual(b, l.last()) {
            b
        } else {
            b.push(l.last())
        }
    }
}

/// No edge of `s` equals a later one.
pub open spec fn sin_repetidos<V: VerticeT, P: PesoT, A: AristaT<V, P>>(s: Seq<A>) -> bool {
    forall|i: int, j: int| 0 <= i < j < s.len() ==> !(#[trigger] s[i].igual_spec(&s[j]))
}

/// Whether the edge `e` touches `v`: as an endpoint, or as the marker of `v`.
pub open spec fn toca<V: VerticeT, P: PesoT, A: AristaT<V, P>>(e: A, v: V) -> bool {
    contiene(e.extremos(), v) || e.aislado() == Some(v)
}

/// Whether `v` is a vertex of the edge list `s`.
pub open spec fn esta_vertice<V: VerticeT, P: PesoT, A: AristaT<V, P>>(s: Seq<A>, v: V) -> bool {
    exists|i: int| 0 <= i < s.len() && toca::<V, P, A>(#[trigger] s[i], v)
}

/// `vs` with `v` appended unless it is already there.
pub open spec fn con_nuevo<V>(vs: Seq<V>, v: V) -> Seq<V> {
    if vs.contains(v) {
        vs
    } else {
        vs.push(v)
    }
}

/// The vertices of `s`, in the order in which they are first seen.
pub open spec fn vertices_de<V: VerticeT, P: PesoT, A: AristaT<V, P>>(s: Seq<A>) -> Seq<V>
    decreases s.len(),
{
    if s.len() == 0 {
        Seq::empty()
    } else {
        let vs = vertices_de(s.drop_last());
        match s.last().extremos() {
            Some((a, b)) => con_nuevo(con_nuevo(vs, a), b),
            None => match s.last().aislado() {
                Some(a) => con_nuevo(vs, a),
                None => vs,
            },
        }
    }
}

/// What the edge `e` adds to the degree of `v`: a self-loop counts twice.
pub open spec fn aporte<V: VerticeT, P: PesoT, A: AristaT<V, P>>(e: A, v: V) -> int {
    match e.extremos() {
        Some((a, b)) => if a == v && b == v {
            2
        } else if a == v || b == v {
            1
        } else {
            0
        },
        None => 0,
    }
}

/// The degree of `v` in `s`.
pub open spec fn grado_spec<V: VerticeT, P: PesoT, A: AristaT<V, P>>(s: Seq<A>, v: V) -> int
    decreases s.len(),
{
    if s.len() == 0 {
        0
    } else {
        grado_spec(s.drop_last(), v) + aporte::<V, P, A>(s.last(), v)
    }
}

/// The neighbours of `v` in `s`, one for each edge that has `v` as an endpoint.
pub open spec fn entorno_spec<V: VerticeT, P: PesoT, A: AristaT<V, P>>(s: Seq<A>, v: V) -> Seq<V>
    decreases s.len(),
{
    if s.len() == 0 {
        Seq::empty()
    } else {
        let n = entorno_spec(s.drop_last(), v);
        match s.last().extremos() {
            Some((a, b)) => if a == v {
                n.push(b)
            } else if b == v {
                n.push(a)
            } else {
                n
            },
            None => n,
        }
    }
}

/// The edges of `s` that have `v` as an endpoint.
pub open spec fn aristas_de<V: VerticeT, P: PesoT, A: AristaT<V, P>>(s: Seq<A>, v: V) -> Seq<A>
    decreases s.len(),
{
    if s.len() == 0 {
        Seq::empty()
    } else {
        let r = aristas_de(s.drop_last(), v);
        if contiene(s.last().extremos(), v) {
            r.push(s.last())
        } else {
            r
        }
    }
}

/// Markers for the vertices of `l` that are not yet in `s`, each one added
/// once.
pub open spec fn nuevos_marcadores<V: VerticeT, P: PesoT, A: AristaT<V, P>>(s: Seq<A>, l: Seq<V>) -> Seq<A>
    decreases l.len(),
{
    if l.len() == 0 {
        Seq::empty()
    } else {
        let prev = nuevos_marcadores(s, l.drop_last());
        if esta_vertice(s + prev, l.last()) {
            prev
        } else {
            prev.push(A::marcador(l.last()))
        }
    }
}

/// The edges of `s` that do not touch `v`.
pub open spec fn quedan<V: VerticeT, P: PesoT, A: AristaT<V, P>>(s: Seq<A>, v: V) -> Seq<A>
    decreases s.len(),
{
    if s.len() == 0 {
        Seq::empty()
    } else {
        let r = quedan(s.drop_last(), v);
        if toca::<V, P, A>(s.last(), v) {
            r
        } else {
            r.push(s.last())
        }
    }
}

/// The far endpoints of the edges of `s` that have `v` as an endpoint, leaving
/// out `v` itself.
pub open spec fn vecinos_lejanos<V: VerticeT, P: PesoT, A: AristaT<V, P>>(s: Seq<A>, v: V) -> Seq<V>
    decreases s.len(),
{
    if s.len() == 0 {
        Seq::empty()
    } else {
        let r = vecinos_lejanos(s.drop_last(), v);
        match s.last().extremos() {
            Some((a, b)) => if a == v && b != v {
                r.push(b)
            } else if b == v && a != v {
                r.push(a)
            } else {
                r
            },
            None => r,
        }
    }
}

/// The degrees of the vertices of `s`, in the order of `vertices_de`.
pub open spec fn grados_de<V: VerticeT, P: PesoT, A: AristaT<V, P>>(s: Seq<A>) -> Seq<usize> {
    vertices_de(s).map_values(|v: V| grado_spec(s, v) as usize)
}

/// Whether `i` is the first index of `s` whose edge equals `e`.
pub open spec fn primera_igual<V: VerticeT, P: PesoT, A: AristaT<V, P>>(s: Seq<A>, e: A, i: int) -> bool {
    &&& 0 <= i < s.len()
    &&& s[i].igual_spec(&e)
    &&& forall|j: int| 0 <= j < i ==> !(#[trigger] s[j].igual_spec(&e))
}

/// `s` without its edge at `i`; the endpoints of that edge that are left out
/// of the graph come back as isolated vertices.
pub open spec fn sin_arista<V: VerticeT, P: PesoT, A: AristaT<V, P>>(s: Seq<A>, i: int) -> Seq<A> {
    match s[i].extremos() {
        Some((a, b)) => s.remove(i) + nuevos_marcadores(s.remove(i), seq![a, b]),
        None => s.remove(i),
    }
}

/// Appending with `anadir` onto nothing gives a list without repetitions.
pub proof fn lema_anadir_sin_repetidos<V: VerticeT, P: PesoT, A: AristaT<V, P>>(l: Seq<A>)
    ensures
        sin_repetidos(anadir(Seq::<A>::empty(), l)),
    decreases l.len(),
{
    if l.len() > 0 {
        lema_anadir_sin_repetidos::<V, P, A>(l.drop_last());
    }
}

/// Appending a list without repetitions onto nothing gives the list back.
pub proof fn lema_anadir_identidad<V: VerticeT, P: PesoT, A: AristaT<V, P>>(s: Seq<A>)
    requires
        sin_repetidos(s),
    ensures
        anadir(Seq::<A>::empty(), s) == s,
    decreases s.len(),
{
    if s.len() > 0 {
        let t = s.drop_last();
        assert(sin_repetidos(t));
        lema_anadir_identidad::<V, P, A>(t);
        if contiene_igual(t, s.last()) {
            let i = choose|i: int| 0 <= i < t.len() && #[trigger] t[i].igual_spec(&s.last());
            assert(s[i].igual_spec(&s[s.len() - 1]));
        }
        assert(t.push(s.last()) =~= s);
    }
}

/// A degree is at most twice the number of edges.
pub proof fn lema_grado_acotado<V: VerticeT, P: PesoT, A: AristaT<V, P>>(s: Seq<A>, v: V)
    ensures
        0 <= grado_spec(s, v) <= 2 * s.len(),
    decreases s.len(),
{
    if s.len() > 0 {
        lema_grado_acotado::<V, P, A>(s.drop_last(), v);
    }
}

/// Every listed vertex is a vertex of the edge list.
pub proof fn lema_grado_vertice<V: VerticeT, P: PesoT, A: AristaT<V, P>>(s: Seq<A>, v: V)
    requires
        vertices_de(s).contains(v),
    ensures
        esta_vertice(s, v),
    decreases s.len(),
{
    let t = s.drop_last();
    if vertices_de(t).contains(v) {
        lema_grado_vertice::<V, P, A>(t, v);
        let i = choose|i: int| 0 <= i < t.len() && toca::<V, P, A>(#[trigger] t[i], v);
        assert(s[i] == t[i]);
    } else {
        s.last().lema_forma(v, s.last());
        assert(toca::<V, P, A>(s[s.len() - 1], v));
    }
}

/// Whether `e` has `v` as an endpoint or is its marker.
pub fn toca_vertice<V: VerticeT, P: PesoT, A: AristaT<V, P>>(e: &A, v: &V) -> (r: bool)
    ensures
        r == toca::<V, P, A>(*e, *v),
{
    e.arista_contiene_vertice(v) || e.es_vetice_aislado(v)
}

/// Whether `s` holds an edge equal to `e`.
pub fn contiene_arista<V: VerticeT, P: PesoT, A: AristaT<V, P>>(s: &Vec<A>, e: &A) -> (r: bool)
    ensures
        r == contiene_igual(s@, *e),
{
    let mut i: usize = 0;
    while i < s.len()
        invariant
            i <= s@.len(),
            forall|j: int| 0 <= j < i ==> !(#[trigger] s@[j].igual_spec(e)),
        decreases s@.len() - i,
    {
        if s[i].igual(e) {
            return true;
        }
        i = i + 1;
    }
    false
}

/// Whether `v` is a vertex of `s`.
pub fn tiene_vertice<V: VerticeT, P: PesoT, A: AristaT<V, P>>(s: &Vec<A>, v: &V) -> (r: bool)
    ensures
        r == esta_vertice(s@, *v),
{
    let mut i: usize = 0;
    while i < s.len()
        invariant
            i <= s@.len(),
            forall|j: int| 0 <= j < i ==> !toca::<V, P, A>(#[trigger] s@[j], *v),
        decreases s@.len() - i,
    {
        if toca_vertice(&s[i], v) {
            return true;
        }
        i = i + 1;
    }
    false
}

/// The list `l` without repeated edges, in order of first occurrence.
pub fn deduplicar<V: VerticeT, P: PesoT, A: AristaT<V, P>>(l: &Vec<A>) -> (r: Vec<A>)
    ensures
        r@ == anadir(Seq::<A>::empty(), l@),
        sin_repetidos(r@),
{
    let mut r: Vec<A> = Vec::new();
    let mut i: usize = 0;
    while i < l.len()
        invariant
            i <= l@.len(),
            r@ == anadir(Seq::<A>::empty(), l@.take(i as int)),
        decreases l@.len() - i,
    {
        proof {
            assert(l@.take(i as int + 1).drop_last() =~= l@.take(i as int));
        }
        if !contiene_arista(&r, &l[i]) {
            r.push(l[i]);
        }
        i = i + 1;
    }
    proof {
        assert(l@.take(l@.len() as int) =~= l@);
        lema_anadir_sin_repetidos::<V, P, A>(l@);
    }
    r
}

/// The vertices of the edge list `s`, in order of first appearance.
pub fn vertices_lista<V: VerticeT, P: PesoT, A: AristaT<V, P>>(s: &Vec<A>) -> (r: Vec<V>)
    ensures
        r@ == vertices_de(s@),
{
    let mut r: Vec<V> = Vec::new();
    let mut i: usize = 0;
    while i < s.len()
        invariant
            i <= s@.len(),
            r@ == vertices_de(s@.take(i as int)),
        decreases s@.len() - i,
    {
        proof {
            assert(s@.take(i as int + 1).drop_last() =~= s@.take(i as int));
        }
        match s[i].get_vertices() {
            Some((a, b)) => {
                if !contiene_vertice(&r, &a) {
                    r.push(a);
                }
                if !contiene_vertice(&r, &b) {
                    r.push(b);
                }
            },
            None => {
                match s[i].get_aislado() {
                    Some(a) => {
                        if !contiene_vertice(&r, &a) {
                            r.push(a);
                        }
                    },
                    None => {},
                }
            },
        }
        i = i + 1;
    }
    proof {
        assert(s@.take(s@.len() as int) =~= s@);
    }
    r
}

/// The neighbours of `v` in the edge list `s`, one for each edge that has it
/// as an endpoint; `None` when `v` is not a vertex of `s`.
pub fn entorno_lista<V: VerticeT, P: PesoT, A: AristaT<V, P>>(s: &Vec<A>, v: &V) -> (r: Option<Vec<V>>)
    ensures
        r is Some <==> esta_vertice(s@, *v),
        r is Some ==> r->0@ == entorno_spec(s@, *v),
{
    let mut res: Vec<V> = Vec::new();
    let mut encontrado = false;
    let mut i: usize = 0;
    while i < s.len()
        invariant
            i <= s@.len(),
            res@ == entorno_spec(s@.take(i as int), *v),
            encontrado == esta_vertice(s@.take(i as int), *v),
        decreases s@.len() - i,
    {
        proof {
            assert(s@.take(i as int + 1).drop_last() =~= s@.take(i as int));
            lema_esta_vertice_push::<V, P, A>(s@.take(i as int), s@[i as int], *v);
            assert(s@.take(i as int).push(s@[i as int]) =~= s@.take(i as int + 1));
        }
        let e = s[i];
        if toca_vertice(&e, v) {
            encontrado = true;
        }
        match e.get_vertices() {
            Some((a, b)) => {
                if a.igual(v) {
                    res.push(b);
                } else if b.igual(v) {
                    res.push(a);
                }
            },
            None => {},
        }
        i = i + 1;
    }
    proof {
        assert(s@.take(s@.len() as int) =~= s@);
    }
    if encontrado {
        Some(res)
    } else {
        None
    }
}

/// Operations common to the graph containers.
///
/// A container holds a list of edges and isolated-vertex markers in which no
/// edge is repeated; its vertices are listed in order of first appearance.
pub trait GrafoT<V: VerticeT, P: PesoT, A: AristaT<V, P>>: Sized {
    /// The edges and markers of the graph, in insertion order.
    spec fn aristas_spec(&self) -> Seq<A>;

    /// An empty graph.
    fn new() -> (r: Self)
        ensures
            r.aristas_spec() == Seq::<A>::empty(),
    ;

    /// A graph with the edges of `lista`, each repeated edge kept once.
    fn from_aristas(lista: Vec<A>) -> (r: Self)
        ensures
            r.aristas_spec() == anadir(Seq::<A>::empty(), lista@),
            sin_repetidos(r.aristas_spec()),
    ;

    /// The edges and markers of the graph.
    fn get_aristas(&self) -> (r: &Vec<A>)
        ensures
            r@ == self.aristas_spec(),
    ;

    /// The number of vertices.
    fn size(&self) -> (r: usize)
        ensures
            r == vertices_de(self.aristas_spec()).len(),
    {
        self.get_vertices().len()
    }

    /// Adds the edges of `lista` that are not in the graph yet.
    fn add_aristas(&mut self, lista: Vec<A>)
        requires
            sin_repetidos(old(self).aristas_spec()),
        ensures
            final(self).aristas_spec() == anadir(old(self).aristas_spec(), lista@),
            sin_repetidos(final(self).aristas_spec()),
    {
        let mut nueva = copiar(self.get_aristas());
        let mut i: usize = 0;
        while i < lista.len()
            invariant
                i <= lista@.len(),
                nueva@ == anadir(old(self).aristas_spec(), lista@.take(i as int)),
            decreases lista@.len() - i,
        {
            proof {
                assert(lista@.take(i as int + 1).drop_last() =~= lista@.take(i as int));
            }
            if !contiene_arista(&nueva, &lista[i]) {
                nueva.push(lista[i]);
            }
            i = i + 1;
        }
        proof {
            assert(lista@.take(lista@.len() as int) =~= lista@);
            lema_anadir_sin_repetidos_desde::<V, P, A>(old(self).aristas_spec(), lista@);
            lema_anadir_identidad::<V, P, A>(nueva@);
        }
        *self = Self::from_aristas(nueva);
    }

    /// Adds a marker for each vertex of `lista` that is not in the graph yet.
    fn add_vertices(&mut self, lista: Vec<V>)
        requires
            sin_repetidos(old(self).aristas_spec()),
        ensures
            final(self).aristas_spec() == old(self).aristas_spec() + nuevos_marcadores(
                old(self).aristas_spec(),
                lista@,
            ),
            sin_repetidos(final(self).aristas_spec()),
    {
        let ghost s = self.aristas_spec();
        let mut nueva = copiar(self.get_aristas());
        let mut i: usize = 0;
        while i < lista.len()
            invariant
                i <= lista@.len(),
                nueva@ == s + nuevos_marcadores(s, lista@.take(i as int)),
                sin_repetidos(nueva@),
            decreases lista@.len() - i,
        {
            proof {
                assert(lista@.take(i as int + 1).drop_last() =~= lista@.take(i as int));
            }
            let v = lista[i];
            if !tiene_vertice(&nueva, &v) {
                let m = A::vertice(v);
                proof {
                    assert forall|j: int| 0 <= j < nueva@.len() implies !(
                    #[trigger] nueva@[j].igual_spec(&m)) by {
                        lema_igual_toca::<V, P, A>(nueva@[j], m, v);
                    }
                }
                nueva.push(m);
            }
            i = i + 1;
        }
        proof {
            assert(lista@.take(lista@.len() as int) =~= lista@);
            lema_anadir_identidad::<V, P, A>(nueva@);
        }
        *self = Self::from_aristas(nueva);
    }

    /// The vertices, in order of first appearance.
    fn get_vertices(&self) -> (r: Vec<V>)
        ensures
            r@ == vertices_de(self.aristas_spec()),
    {
        vertices_lista(self.get_aristas())
    }

    /// Removes the first edge equal to `e`; the endpoints it leaves without
    /// edges stay as isolated vertices.
    fn remove_arista(&mut self, e: &A)
        requires
            sin_repetidos(old(self).aristas_spec()),
        ensures
            sin_repetidos(final(self).aristas_spec()),
            !contiene_igual(old(self).aristas_spec(), *e) ==> final(self).aristas_spec() == old(
                self,
            ).aristas_spec(),
            contiene_igual(old(self).aristas_spec(), *e) ==> exists|i: int|
                #[trigger] primera_igual(old(self).aristas_spec(), *e, i)
                    && final(self).aristas_spec() == sin_arista(old(self).aristas_spec(), i),
    {
        let ghost s = self.aristas_spec();
        let lista = self.get_aristas();
        let mut i: usize = 0;
        while i < lista.len()
            invariant
                i <= lista@.len(),
                lista@ == s,
                s == old(self).aristas_spec(),
                self.aristas_spec() == s,
                sin_repetidos(s),
                forall|j: int| 0 <= j < i ==> !(#[trigger] s[j].igual_spec(e)),
            decreases lista@.len() - i,
        {
            if lista[i].igual(e) {
                proof {
                    assert(primera_igual(s, *e, i as int));
                    assert(contiene_igual(s, *e));
                }
                let quitada = lista[i];
                let mut nueva = copiar(lista);
                nueva.remove(i);
                proof {
                    lema_quitar_sin_repetidos::<V, P, A>(s, i as int);
                    assert(nueva@ =~= s.remove(i as int));
                }
                *self = Self::from_aristas(nueva);
                proof {
                    lema_anadir_identidad::<V, P, A>(s.remove(i as int));
                }
                match quitada.get_vertices() {
                    Some((a, b)) => {
                        let extremos = vec![a, b];
                        proof {
                            assert(extremos@ =~= seq![a, b]);
                        }
                        self.add_vertices(extremos);
                    },
                    None => {},
                }
                return;
            }
            i = i + 1;
        }
    }

    /// Removes `v` with all of its edges; the far endpoints of those edges
    /// that are left without edges stay as isolated vertices.
    fn remove_vertice(&mut self, v: &V)
        requires
            sin_repetidos(old(self).aristas_spec()),
        ensures
            final(self).aristas_spec() == quedan(old(self).aristas_spec(), *v) + nuevos_marcadores(
                quedan(old(self).aristas_spec(), *v),
                vecinos_lejanos(old(self).aristas_spec(), *v),
            ),
            sin_repetidos(final(self).aristas_spec()),
    {
        let ghost s = self.aristas_spec();
        let lista = self.get_aristas();
        let mut resto: Vec<A> = Vec::new();
        let mut lejanos: Vec<V> = Vec::new();
        let mut i: usize = 0;
        while i < lista.len()
            invariant
                i <= lista@.len(),
                lista@ == s,
                sin_repetidos(s),
                resto@ == quedan(s.take(i as int), *v),
                lejanos@ == vecinos_lejanos(s.take(i as int), *v),
                sin_repetidos(resto@),
                forall|k: int|
                    0 <= k < resto@.len() ==> exists|j: int|
                        0 <= j < i && #[trigger] resto@[k] == s[j],
            decreases lista@.len() - i,
        {
            proof {
                assert(s.take(i as int + 1).drop_last() =~= s.take(i as int));
            }
            let e = lista[i];
            if !toca_vertice(&e, v) {
                proof {
                    assert forall|k: int| 0 <= k < resto@.len() implies !(
                    #[trigger] resto@[k].igual_spec(&e)) by {
                        let j = choose|j: int| 0 <= j < i && resto@[k] == s[j];
                        assert(!s[j].igual_spec(&s[i as int]));
                    }
                }
                resto.push(e);
            }
            match e.get_vertices() {
                Some((a, b)) => {
                    if a.igual(v) && !b.igual(v) {
                        lejanos.push(b);
                    } else if b.igual(v) && !a.igual(v) {
                        lejanos.push(a);
                    }
                },
                None => {},
            }
            i = i + 1;
        }
        proof {
            assert(s.take(s.len() as int) =~= s);
            lema_anadir_identidad::<V, P, A>(resto@);
        }
        *self = Self::from_aristas(resto);
        self.add_vertices(lejanos);
    }

    /// The neighbours of `v`, one for each edge that has it as an endpoint;
    /// `None` when `v` is not a vertex of the graph.
    fn entorno(&self, v: &V) -> (r: Option<Vec<V>>)
        ensures
            r is Some <==> esta_vertice(self.aristas_spec(), *v),
            r is Some ==> r->0@ == entorno_spec(self.aristas_spec(), *v),
    {
        entorno_lista(self.get_aristas(), v)
    }

    /// The edges that have `v` as an endpoint.
    fn aristas_por_vertice(&self, v: &V) -> (r: Vec<A>)
        ensures
            r@ == aristas_de(self.aristas_spec(), *v),
    {
        let s = self.get_aristas();
        let mut res: Vec<A> = Vec::new();
        let mut i: usize = 0;
        while i < s.len()
            invariant
                i <= s@.len(),
                s@ == self.aristas_spec(),
                res@ == aristas_de(s@.take(i as int), *v),
            decreases s@.len() - i,
        {
            proof {
                assert(s@.take(i as int + 1).drop_last() =~= s@.take(i as int));
            }
            if s[i].arista_contiene_vertice(v) {
                res.push(s[i]);
            }
            i = i + 1;
        }
        proof {
            assert(s@.take(s@.len() as int) =~= s@);
        }
        res
    }

    /// The degree of `v`, a self-loop counting twice; `None` when `v` is not
    /// a vertex of the graph.
    fn grado(&self, v: &V) -> (r: Option<usize>)
        requires
            self.aristas_spec().len() <= usize::MAX / 2,
        ensures
            r is Some <==> esta_vertice(self.aristas_spec(), *v),
            r is Some ==> r->0 == grado_spec(self.aristas_spec(), *v),
    {
        let s = self.get_aristas();
        let mut res: usize = 0;
        let mut encontrado = false;
        let mut i: usize = 0;
        while i < s.len()
            invariant
                i <= s@.len(),
                s@ == self.aristas_spec(),
                s@.len() <= usize::MAX / 2,
                res == grado_spec(s@.take(i as int), *v),
                encontrado == esta_vertice(s@.take(i as int), *v),
            decreases s@.len() - i,
        {
            proof {
                assert(s@.take(i as int + 1).drop_last() =~= s@.take(i as int));
                lema_esta_vertice_push::<V, P, A>(s@.take(i as int), s@[i as int], *v);
                assert(s@.take(i as int).push(s@[i as int]) =~= s@.take(i as int + 1));
                lema_grado_acotado::<V, P, A>(s@.take(i as int + 1), *v);
            }
            let e = s[i];
            if toca_vertice(&e, v) {
                encontrado = true;
            }
            match e.get_vertices() {
                Some((a, b)) => {
                    if a.igual(v) && b.igual(v) {
                        res = res + 2;
                    } else if a.igual(v) || b.igual(v) {
                        res = res + 1;
                    }
                },
                None => {},
            }
            i = i + 1;
        }
        proof {
            assert(s@.take(s@.len() as int) =~= s@);
        }
        if encontrado {
            Some(res)
        } else {
            None
        }
    }

    /// The degrees of the vertices, in non-increasing order.
    fn sucesion_grados(&self) -> (r: Vec<usize>)
        requires
            self.aristas_spec().len() <= usize::MAX / 2,
        ensures
            r@.to_multiset() == grados_de(self.aristas_spec()).to_multiset(),
            decreciente_usize(r@),
    {
        let vertices = self.get_vertices();
        let mut grados: Vec<usize> = Vec::new();
        let mut i: usize = 0;
        while i < vertices.len()
            invariant
                i <= vertices@.len(),
                vertices@ == vertices_de(self.aristas_spec()),
                self.aristas_spec().len() <= usize::MAX / 2,
                grados@ == grados_de(self.aristas_spec()).take(i as int),
            decreases vertices@.len() - i,
        {
            proof {
                lema_grado_vertice::<V, P, A>(self.aristas_spec(), vertices@[i as int]);
            }
            let g = self.grado(&vertices[i]).unwrap();
            grados.push(g);
            i = i + 1;
            proof {
                assert(grados@ =~= grados_de(self.aristas_spec()).take(i as int));
            }
        }
        proof {
            assert(grados_de(self.aristas_spec()).take(i as int) =~= grados_de(
                self.aristas_spec(),
            ));
        }
        ordenar_desc_usize(grados)
    }
}

/// Appending with `anadir` keeps a list without repetitions.
pub proof fn lema_anadir_sin_repetidos_desde<V: VerticeT, P: PesoT, A: AristaT<V, P>>(
    base: Seq<A>,
    l: Seq<A>,
)
    requires
        sin_repetidos(base),
    ensures
        sin_repetidos(anadir(base, l)),
    decreases l.len(),
{
    if l.len() > 0 {
        lema_anadir_sin_repetidos_desde::<V, P, A>(base, l.drop_last());
    }
}

/// Removing an entry keeps a list without repetitions.
pub proof fn lema_quitar_sin_repetidos<V: VerticeT, P: PesoT, A: AristaT<V, P>>(s: Seq<A>, i: int)
    requires
        sin_repetidos(s),
        0 <= i < s.len(),
    ensures
        sin_repetidos(s.remove(i)),
{
    let r = s.remove(i);
    assert forall|a: int, b: int| 0 <= a < b < r.len() implies !(#[trigger] r[a].igual_spec(
        &r[b],
    )) by {
        let a2 = if a < i {
            a
        } else {
            a + 1
        };
        let b2 = if b < i {
            b
        } else {
            b + 1
        };
        assert(r[a] == s[a2] && r[b] == s[b2]);
    }
}

/// How vertex membership changes when an edge is appended.
pub proof fn lema_esta_vertice_push<V: VerticeT, P: PesoT, A: AristaT<V, P>>(s: Seq<A>, e: A, v: V)
    ensures
        esta_vertice(s.push(e), v) == (esta_vertice(s, v) || toca::<V, P, A>(e, v)),
{
    if esta_vertice(s, v) {
        let i = choose|i: int| 0 <= i < s.len() && toca::<V, P, A>(#[trigger] s[i], v);
        assert(s.push(e)[i] == s[i]);
    }
    if toca::<V, P, A>(e, v) {
        assert(s.push(e)[s.len() as int] == e);
    }
    if esta_vertice(s.push(e), v) {
        let i = choose|i: int| 0 <= i < s.len() + 1 && toca::<V, P, A>(#[trigger] s.push(e)[i], v);
        if i < s.len() {
            assert(s[i] == s.push(e)[i]);
        }
    }
}

/// An edge that does not touch `v` differs from the marker of `v`.
pub proof fn lema_igual_toca<V: VerticeT, P: PesoT, A: AristaT<V, P>>(e: A, m: A, v: V)
    requires
        m.extremos() is None,
        m.aislado() == Some(v),
        !toca::<V, P, A>(e, v),
    ensures
        !e.igual_spec(&m),
{
    e.lema_forma(v, m);
}

} // verus!
