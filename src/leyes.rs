use vstd::prelude::*;

use crate::arista::Arista;
use crate::arista_t::AristaT;
use crate::bipartido::{biparticion_valida, lado_x, lado_y, parte_x, parte_y, sin_repeticion};
use crate::grafo_t::{anadir, contiene_igual, esta_vertice, nuevos_marcadores, vertices_de};
use crate::peso::PesoT;
use crate::red_transporte::Red;
use crate::vertice::VerticeT;

verus! {

/// Adding edges that are all in the graph already leaves its edge list, and
/// so its edge and vertex counts, unchanged.
pub proof fn ley_reinsertar_aristas<V: VerticeT, P: PesoT, A: AristaT<V, P>>(s: Seq<A>, l: Seq<A>)
    requires
        forall|i: int| 0 <= i < l.len() ==> contiene_igual(s, #[trigger] l[i]),
    ensures
        anadir(s, l) == s,
        vertices_de(anadir(s, l)) == vertices_de(s),
    decreases l.len(),
{
    if l.len() > 0 {
        ley_reinsertar_aristas::<V, P, A>(s, l.drop_last());
        assert(contiene_igual(s, l[l.len() - 1]));
    }
}

/// Adding vertices that are all in the graph already adds no marker, so the
/// edge list and the vertex list stay as they are.
pub proof fn ley_reinsertar_vertices<V: VerticeT, P: PesoT, A: AristaT<V, P>>(s: Seq<A>, l: Seq<V>)
    requires
        forall|i: int| 0 <= i < l.len() ==> esta_vertice(s, #[trigger] l[i]),
    ensures
        nuevos_marcadores(s, l) == Seq::<A>::empty(),
        s + nuevos_marcadores(s, l) == s,
    decreases l.len(),
{
    if l.len() > 0 {
        ley_reinsertar_vertices::<V, P, A>(s, l.drop_last());
        assert(s + Seq::<A>::empty() =~= s);
        assert(esta_vertice(s, l[l.len() - 1]));
    }
    assert(s + Seq::<A>::empty() =~= s);
}

/// In every well-formed network, the state that construction establishes
/// and every update keeps, no flow exceeds the capacity of its arc.
pub proof fn ley_flujo_acotado<V: VerticeT, P: PesoT>(red: Red<V, P>)
    requires
        red.wf(),
    ensures
        forall|g: int|
            0 <= g < red.todos().len() ==> (#[trigger] red.todos()[g]).valor_spec() <= red.todos()[g].capacidad_spec(),
{
    assert forall|g: int| 0 <= g < red.todos().len() implies (#[trigger] red.todos()[g]).valor_spec()
        <= red.todos()[g].capacidad_spec() by {
        assert(red.todos()[g].wf());
    }
}

proof fn lema_sin_repeticion<V>(vs: Seq<V>)
    ensures
        forall|v: V| #[trigger] sin_repeticion(vs).contains(v) <==> vs.contains(v),
    decreases vs.len(),
{
    if vs.len() > 0 {
        let u = vs.drop_last();
        lema_sin_repeticion(u);
        let r = sin_repeticion(u);
        assert forall|v: V| #[trigger] sin_repeticion(vs).contains(v) <==> vs.contains(v) by {
            if vs.contains(v) {
                let i = choose|i: int| 0 <= i < vs.len() && vs[i] == v;
                if i < vs.len() - 1 {
                    assert(u[i] == v);
                    assert(u.contains(v));
                }
            }
            if u.contains(v) {
                let i = choose|i: int| 0 <= i < u.len() && u[i] == v;
                assert(vs[i] == v);
            }
            if !r.contains(vs.last()) {
                assert(r.push(vs.last())[r.len() as int] == vs.last());
                if r.push(vs.last()).contains(v) {
                    let i = choose|i: int| 0 <= i < r.len() + 1 && r.push(vs.last())[i] == v;
                    if i < r.len() {
                        assert(r[i] == v);
                    }
                }
                if r.contains(v) {
                    let i = choose|i: int| 0 <= i < r.len() && r[i] == v;
                    assert(r.push(vs.last())[i] == v);
                }
            }
            assert(vs[vs.len() - 1] == vs.last());
        }
    }
}

/// A bipartite graph that the builder accepts has every edge crossing from
/// the first vertex set it reports to the second, and the two sets are
/// disjoint.
pub proof fn ley_aristas_cruzan<V: VerticeT, P: PesoT>(l: Seq<Arista<V, P>>)
    requires
        biparticion_valida(l),
    ensures
        forall|k: int|
            0 <= k < l.len() ==> parte_x(l).contains(lado_x(#[trigger] l[k])) && parte_y(l).contains(
                lado_y(l[k]),
            ),
        forall|v: V| !(#[trigger] parte_x(l).contains(v) && parte_y(l).contains(v)),
{
    let xs = l.map_values(|e: Arista<V, P>| lado_x(e));
    let ys = l.map_values(|e: Arista<V, P>| lado_y(e));
    lema_sin_repeticion(xs);
    lema_sin_repeticion(ys);
    assert forall|k: int| 0 <= k < l.len() implies parte_x(l).contains(lado_x(#[trigger] l[k]))
        && parte_y(l).contains(lado_y(l[k])) by {
        assert(xs[k] == lado_x(l[k]));
        assert(ys[k] == lado_y(l[k]));
        assert(xs.contains(lado_x(l[k])));
        assert(ys.contains(lado_y(l[k])));
    }
    assert forall|v: V| !(#[trigger] parte_x(l).contains(v) && parte_y(l).contains(v)) by {
        if xs.contains(v) && ys.contains(v) {
            let i = choose|i: int| 0 <= i < xs.len() && xs[i] == v;
            let j = choose|j: int| 0 <= j < ys.len() && ys[j] == v;
            assert(lado_x(l[i]) != lado_y(l[j]));
        }
    }
}

} // verus!
