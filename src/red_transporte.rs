use vstd::prelude::*;

use crate::arista_t::{contiene, AristaT};
use crate::diarista::Diarista;
use crate::digrafo::Digrafo;
use crate::flujo::Flujo;
use crate::grafo_t::{anadir, GrafoT};
use crate::peso::PesoT;
use crate::vertice::{copiar, VerticeT};

verus! {

/// The first endpoint of an arc (the vertex of a marker).
pub open spec fn origen<V: VerticeT, P: PesoT>(d: Diarista<V, P>) -> V {
    match d {
        Diarista::Diarista(u, _, _) => u,
        Diarista::VerticeAislado(u) => u,
    }
}

/// The second endpoint of an arc (the vertex of a marker).
pub open spec fn destino<V: VerticeT, P: PesoT>(d: Diarista<V, P>) -> V {
    match d {
        Diarista::Diarista(_, w, _) => w,
        Diarista::VerticeAislado(w) => w,
    }
}

/// Sum of the values of the flows of `s`.
pub open spec fn suma_valores<V: VerticeT, P: PesoT>(s: Seq<Flujo<V, P>>) -> int
    decreases s.len(),
{
    if s.len() == 0 {
        0
    } else {
        suma_valores(s.drop_last()) + s.last().valor_spec()
    }
}

/// Sum of what the flows of `s` can still grow by.
pub open spec fn suma_restante<V: VerticeT, P: PesoT>(s: Seq<Flujo<V, P>>) -> int
    decreases s.len(),
{
    if s.len() == 0 {
        0
    } else {
        suma_restante(s.drop_last()) + s.last().capacidad_spec() - s.last().valor_spec()
    }
}

/// Whether `i` is the first index of `s` whose arc is `arco`.
pub open spec fn primer_arco<V: VerticeT, P: PesoT>(s: Seq<Flujo<V, P>>, arco: Diarista<V, P>, i: int) -> bool {
    &&& 0 <= i < s.len()
    &&& s[i].arco_spec() == arco
    &&& forall|j: int| 0 <= j < i ==> (#[trigger] s[j]).arco_spec() != arco
}

/// Null flows through the arcs of `arcos`, with their capacities.
pub open spec fn flujos_nulos<V: VerticeT, P: PesoT>(arcos: Seq<(Diarista<V, P>, u64)>, s: Seq<Flujo<V, P>>) -> bool {
    &&& s.len() == arcos.len()
    &&& forall|i: int|
        0 <= i < s.len() ==> (#[trigger] s[i]).arco_spec() == arcos[i].0 && s[i].capacidad_spec()
            == arcos[i].1 && s[i].valor_spec() == 0
}

/// A transportation network: the arcs that leave the source, the arcs that
/// enter the sink and the interior arcs, each with a flow.
pub struct Red<V: VerticeT, P: PesoT> {
    nombre: Option<String>,
    flujos: Vec<Flujo<V, P>>,
    flujos_fuente: Vec<Flujo<V, P>>,
    flujos_sumidero: Vec<Flujo<V, P>>,
}

impl<V: VerticeT, P: PesoT> Red<V, P> {
    /// The flows of the arcs that leave the source.
    pub closed spec fn fuente_spec(&self) -> Seq<Flujo<V, P>> {
        self.flujos_fuente@
    }

    /// The flows of the interior arcs.
    pub closed spec fn interior_spec(&self) -> Seq<Flujo<V, P>> {
        self.flujos@
    }

    /// The flows of the arcs that enter the sink.
    pub closed spec fn sumidero_spec(&self) -> Seq<Flujo<V, P>> {
        self.flujos_sumidero@
    }

    pub closed spec fn nombre_spec(&self) -> Option<Seq<char>> {
        match self.nombre {
            Some(s) => Some(s@),
            None => None,
        }
    }

    /// All flows: source arcs, then interior arcs, then sink arcs.
    pub open spec fn todos(&self) -> Seq<Flujo<V, P>> {
        self.fuente_spec() + self.interior_spec() + self.sumidero_spec()
    }

    /// The source: the first endpoint of the first source arc.
    pub open spec fn fuente(&self) -> V {
        origen(self.fuente_spec()[0].arco_spec())
    }

    /// The sink: the second endpoint of the first sink arc.
    pub open spec fn sumidero(&self) -> V {
        destino(self.sumidero_spec()[0].arco_spec())
    }

    /// Well-formedness: both terminal buckets are non-empty, their arcs leave
    /// the source and enter the sink, and no flow exceeds its capacity.
    pub open spec fn wf(&self) -> bool {
        &&& self.fuente_spec().len() > 0
        &&& self.sumidero_spec().len() > 0
        &&& forall|i: int|
            0 <= i < self.fuente_spec().len() ==> (#[trigger] self.fuente_spec()[i]).arco_spec().extremos() is Some
                && origen(self.fuente_spec()[i].arco_spec()) == self.fuente()
        &&& forall|i: int|
            0 <= i < self.sumidero_spec().len() ==> (#[trigger] self.sumidero_spec()[i]).arco_spec().extremos() is Some
                && destino(self.sumidero_spec()[i].arco_spec()) == self.sumidero()
        &&& forall|g: int| 0 <= g < self.todos().len() ==> (#[trigger] self.todos()[g]).wf()
        &&& self.todos().len() <= usize::MAX
    }

    /// The bucket in which the flow of `arco` is looked up: the source bucket
    /// when the arc touches the source, else the sink bucket when it touches
    /// the sink, else the interior one.
    pub open spec fn cubo(&self, arco: Diarista<V, P>) -> Seq<Flujo<V, P>> {
        if contiene(arco.extremos(), self.fuente()) {
            self.fuente_spec()
        } else if contiene(arco.extremos(), self.sumidero()) {
            self.sumidero_spec()
        } else {
            self.interior_spec()
        }
    }

    /// The global index in `todos` of index `i` of the bucket of `arco`.
    pub open spec fn global(&self, arco: Diarista<V, P>, i: int) -> int {
        if contiene(arco.extremos(), self.fuente()) {
            i
        } else if contiene(arco.extremos(), self.sumidero()) {
            self.fuente_spec().len() + self.interior_spec().len() + i
        } else {
            self.fuente_spec().len() + i
        }
    }

    /// A network with source `fuente` joined to each vertex of
    /// `vertices_fuente`, sink `sumidero` joined from each vertex of
    /// `vertices_sumidero`, and the interior arcs `arcos`, all flows null;
    /// `None` when either terminal list is empty.
    pub fn new(
        nombre: Option<String>,
        fuente: V,
        vertices_fuente: Vec<(V, u64)>,
        sumidero: V,
        vertices_sumidero: Vec<(V, u64)>,
        arcos: Vec<(Diarista<V, P>, u64)>,
    ) -> (r: Option<Self>)
        requires
            vertices_fuente@.len() + vertices_sumidero@.len() + arcos@.len() <= usize::MAX,
        ensures
            r is Some <==> vertices_fuente@.len() > 0 && vertices_sumidero@.len() > 0,
            r is Some ==> {
                let red = r->0;
                &&& red.wf()
                &&& red.fuente() == fuente
                &&& red.sumidero() == sumidero
                &&& flujos_nulos(
                    vertices_fuente@.map_values(
                        |x: (V, u64)| (Diarista::Diarista(fuente, x.0, None), x.1),
                    ),
                    red.fuente_spec(),
                )
                &&& flujos_nulos(
                    vertices_sumidero@.map_values(
                        |x: (V, u64)| (Diarista::Diarista(x.0, sumidero, None), x.1),
                    ),
                    red.sumidero_spec(),
                )
                &&& flujos_nulos(arcos@, red.interior_spec())
            },
    {
        if vertices_fuente.len() == 0 || vertices_sumidero.len() == 0 {
            return None;
        }
        let mut flujos_fuente: Vec<Flujo<V, P>> = Vec::new();
        let mut i: usize = 0;
        while i < vertices_fuente.len()
            invariant
                i <= vertices_fuente@.len(),
                flujos_nulos(
                    vertices_fuente@.take(i as int).map_values(
                        |x: (V, u64)| (Diarista::<V, P>::Diarista(fuente, x.0, None), x.1),
                    ),
                    flujos_fuente@,
                ),
            decreases vertices_fuente@.len() - i,
        {
            let (v, c) = vertices_fuente[i];
            flujos_fuente.push(Flujo::new(Diarista::arista_sin_peso(fuente, v), c));
            i = i + 1;
            proof {
                assert(vertices_fuente@.take(i as int).map_values(
                    |x: (V, u64)| (Diarista::<V, P>::Diarista(fuente, x.0, None), x.1),
                )[i - 1] == (Diarista::<V, P>::Diarista(fuente, v, None), c));
            }
        }
        let mut flujos_sumidero: Vec<Flujo<V, P>> = Vec::new();
        let mut i: usize = 0;
        while i < vertices_sumidero.len()
            invariant
                i <= vertices_sumidero@.len(),
                flujos_nulos(
                    vertices_sumidero@.take(i as int).map_values(
                        |x: (V, u64)| (Diarista::<V, P>::Diarista(x.0, sumidero, None), x.1),
                    ),
                    flujos_sumidero@,
                ),
            decreases vertices_sumidero@.len() - i,
        {
            let (v, c) = vertices_sumidero[i];
            flujos_sumidero.push(Flujo::new(Diarista::arista_sin_peso(v, sumidero), c));
            i = i + 1;
            proof {
                assert(vertices_sumidero@.take(i as int).map_values(
                    |x: (V, u64)| (Diarista::<V, P>::Diarista(x.0, sumidero, None), x.1),
                )[i - 1] == (Diarista::<V, P>::Diarista(v, sumidero, None), c));
            }
        }
        let mut flujos: Vec<Flujo<V, P>> = Vec::new();
        let mut i: usize = 0;
        while i < arcos.len()
            invariant
                i <= arcos@.len(),
                flujos_nulos(arcos@.take(i as int), flujos@),
            decreases arcos@.len() - i,
        {
            let (a, c) = arcos[i];
            flujos.push(Flujo::new(a, c));
            i = i + 1;
        }
        proof {
            assert(vertices_fuente@.take(vertices_fuente@.len() as int) =~= vertices_fuente@);
            assert(vertices_sumidero@.take(vertices_sumidero@.len() as int) =~= vertices_sumidero@);
            assert(arcos@.take(arcos@.len() as int) =~= arcos@);
        }
        let red = Red { nombre, flujos, flujos_fuente, flujos_sumidero };
        proof {
            assert forall|g: int| 0 <= g < red.todos().len() implies (#[trigger] red.todos()[g]).wf() by {
                let nf = red.fuente_spec().len() as int;
                let ni = red.interior_spec().len() as int;
                if g < nf {
                    assert(red.todos()[g] == red.fuente_spec()[g]);
                } else if g < nf + ni {
                    assert(red.todos()[g] == red.interior_spec()[g - nf]);
                } else {
                    assert(red.todos()[g] == red.sumidero_spec()[g - nf - ni]);
                }
            }
        }
        Some(red)
    }

    /// Index in the bucket of `arco` of the first flow through `arco`.
    fn localizar(&self, arco: &Diarista<V, P>) -> (r: Option<usize>)
        requires
            self.wf(),
        ensures
            r is None <==> forall|j: int|
                0 <= j < self.cubo(*arco).len() ==> (#[trigger] self.cubo(*arco)[j]).arco_spec() != *arco,
            r is Some ==> primer_arco(self.cubo(*arco), *arco, r->0 as int),
    {
        let cubo = if arco.arista_contiene_vertice(self.get_fuente()) {
            &self.flujos_fuente
        } else if arco.arista_contiene_vertice(self.get_sumidero()) {
            &self.flujos_sumidero
        } else {
            &self.flujos
        };
        let mut i: usize = 0;
        while i < cubo.len()
            invariant
                i <= cubo@.len(),
                cubo@ == self.cubo(*arco),
                forall|j: int| 0 <= j < i ==> (#[trigger] cubo@[j]).arco_spec() != *arco,
            decreases cubo@.len() - i,
        {
            if cubo[i].get_arco().igual(arco) {
                return Some(i);
            }
            i = i + 1;
        }
        None
    }

    /// The first flow through `arco` in the bucket of `arco`.
    pub fn get_flujo(&self, arco: &Diarista<V, P>) -> (r: Option<&Flujo<V, P>>)
        requires
            self.wf(),
        ensures
            r is None <==> forall|j: int|
                0 <= j < self.cubo(*arco).len() ==> (#[trigger] self.cubo(*arco)[j]).arco_spec() != *arco,
            r is Some ==> exists|i: int|
                #[trigger] primer_arco(self.cubo(*arco), *arco, i) && *r->0 == self.cubo(*arco)[i],
    {
        match self.localizar(arco) {
            Some(i) => {
                if arco.arista_contiene_vertice(self.get_fuente()) {
                    Some(&self.flujos_fuente[i])
                } else if arco.arista_contiene_vertice(self.get_sumidero()) {
                    Some(&self.flujos_sumidero[i])
                } else {
                    Some(&self.flujos[i])
                }
            },
            None => None,
        }
    }

    /// Mutable access to the first flow through `arco` in the bucket of
    /// `arco`; the flow keeps its value within its capacity, since a flow only
    /// changes through `Flujo::set_valor`.
    pub fn get_flujo_mut(&mut self, arco: &Diarista<V, P>) -> (r: Option<&mut Flujo<V, P>>)
        requires
            old(self).wf(),
        ensures
            r is None <==> forall|j: int|
                0 <= j < old(self).cubo(*arco).len() ==> (#[trigger] old(self).cubo(*arco)[j]).arco_spec() != *arco,
            r is None ==> *final(self) == *old(self),
            r is Some ==> exists|i: int|
                #[trigger] primer_arco(old(self).cubo(*arco), *arco, i) && *r->0 == old(self).cubo(*arco)[i]
                    && final(self).todos() == old(self).todos().update(old(self).global(*arco, i), *final(r->0)),
    {
        match self.localizar(arco) {
            Some(i) => {
                if arco.arista_contiene_vertice(self.get_fuente()) {
                    Some(&mut self.flujos_fuente[i])
                } else if arco.arista_contiene_vertice(self.get_sumidero()) {
                    Some(&mut self.flujos_sumidero[i])
                } else {
                    Some(&mut self.flujos[i])
                }
            },
            None => None,
        }
    }

    /// The value of the first flow through `arco`.
    pub fn get_valor(&self, arco: &Diarista<V, P>) -> (r: Option<u64>)
        requires
            self.wf(),
        ensures
            r is None <==> forall|j: int|
                0 <= j < self.cubo(*arco).len() ==> (#[trigger] self.cubo(*arco)[j]).arco_spec() != *arco,
            r is Some ==> exists|i: int|
                #[trigger] primer_arco(self.cubo(*arco), *arco, i) && r->0 == self.cubo(*arco)[i].valor_spec(),
    {
        match self.get_flujo(arco) {
            Some(f) => Some(f.get_valor()),
            None => None,
        }
    }

    /// What the first flow through `arco` can still grow by.
    pub fn get_valor_restante(&self, arco: &Diarista<V, P>) -> (r: Option<u64>)
        requires
            self.wf(),
        ensures
            r is None <==> forall|j: int|
                0 <= j < self.cubo(*arco).len() ==> (#[trigger] self.cubo(*arco)[j]).arco_spec() != *arco,
            r is Some ==> exists|i: int|
                #[trigger] primer_arco(self.cubo(*arco), *arco, i) && r->0 == self.cubo(*arco)[i].capacidad_spec()
                    - self.cubo(*arco)[i].valor_spec(),
    {
        match self.localizar(arco) {
            Some(i) => {
                proof {
                    self.lema_cubo_wf(*arco, i as int);
                }
                let f = self.get_flujo(arco).unwrap();
                Some(f.get_valor_restante())
            },
            None => None,
        }
    }

    /// Whether the first flow through `arco` has reached its capacity.
    pub fn arco_saturado(&self, arco: &Diarista<V, P>) -> (r: Option<bool>)
        requires
            self.wf(),
        ensures
            r is None <==> forall|j: int|
                0 <= j < self.cubo(*arco).len() ==> (#[trigger] self.cubo(*arco)[j]).arco_spec() != *arco,
            r is Some ==> exists|i: int|
                #[trigger] primer_arco(self.cubo(*arco), *arco, i) && r->0 == (self.cubo(*arco)[i].valor_spec()
                    >= self.cubo(*arco)[i].capacidad_spec()),
    {
        match self.get_flujo(arco) {
            Some(f) => Some(f.saturado()),
            None => None,
        }
    }

    proof fn lema_cubo_wf(&self, arco: Diarista<V, P>, i: int)
        requires
            self.wf(),
            0 <= i < self.cubo(arco).len(),
        ensures
            self.cubo(arco)[i] == self.todos()[self.global(arco, i)],
            0 <= self.global(arco, i) < self.todos().len(),
            self.cubo(arco)[i].wf(),
    {
        let g = self.global(arco, i);
        assert(self.todos()[g] == self.cubo(arco)[i]);
    }

    /// Sets the value of the first flow through `arco`, when there is one and
    /// the value does not exceed its capacity; `None`, with nothing changed,
    /// otherwise.
    pub fn set_valor(&mut self, arco: &Diarista<V, P>, valor: u64) -> (r: Option<()>)
        requires
            old(self).wf(),
        ensures
            final(self).wf(),
            final(self).fuente() == old(self).fuente(),
            final(self).sumidero() == old(self).sumidero(),
            final(self).nombre_spec() == old(self).nombre_spec(),
            r is None ==> *final(self) == *old(self),
            final(self).fuente_spec().len() == old(self).fuente_spec().len(),
            final(self).interior_spec().len() == old(self).interior_spec().len(),
            final(self).sumidero_spec().len() == old(self).sumidero_spec().len(),
            r is None ==> final(self).todos() == old(self).todos(),
            r is Some <==> exists|i: int|
                #[trigger] primer_arco(old(self).cubo(*arco), *arco, i) && valor <= old(self).cubo(
                    *arco,
                )[i].capacidad_spec(),
            r is Some ==> exists|i: int|
                #[trigger] primer_arco(old(self).cubo(*arco), *arco, i) && final(self).todos()
                    == old(self).todos().update(
                    old(self).global(*arco, i),
                    final(self).todos()[old(self).global(*arco, i)],
                ) && final(self).todos()[old(self).global(*arco, i)].valor_spec() == valor
                    && final(self).todos()[old(self).global(*arco, i)].arco_spec() == *arco
                    && final(self).todos()[old(self).global(*arco, i)].capacidad_spec() == old(
                    self,
                ).cubo(*arco)[i].capacidad_spec(),
    {
        match self.localizar(arco) {
            Some(i) => {
                let g: usize = if arco.arista_contiene_vertice(self.get_fuente()) {
                    i
                } else if arco.arista_contiene_vertice(self.get_sumidero()) {
                    proof {
                        self.lema_cubo_wf(*arco, i as int);
                    }
                    self.flujos_fuente.len() + self.flujos.len() + i
                } else {
                    self.flujos_fuente.len() + i
                };
                proof {
                    self.lema_cubo_wf(*arco, i as int);
                }
                let r = self.set_valor_global(g, valor);
                proof {
                    assert(primer_arco(old(self).cubo(*arco), *arco, i as int));
                }
                r
            },
            None => None,
        }
    }

    /// Sets the value of the flow at global index `g` when it does not exceed
    /// the capacity.
    pub(crate) fn set_valor_global(&mut self, g: usize, valor: u64) -> (r: Option<()>)
        requires
            old(self).wf(),
            g < old(self).todos().len(),
        ensures
            final(self).wf(),
            final(self).fuente() == old(self).fuente(),
            final(self).sumidero() == old(self).sumidero(),
            final(self).nombre_spec() == old(self).nombre_spec(),
            final(self).fuente_spec().len() == old(self).fuente_spec().len(),
            final(self).interior_spec().len() == old(self).interior_spec().len(),
            final(self).sumidero_spec().len() == old(self).sumidero_spec().len(),
            r is Some <==> valor <= old(self).todos()[g as int].capacidad_spec(),
            r is None ==> *final(self) == *old(self),
            r is None ==> final(self).todos() == old(self).todos(),
            r is Some ==> final(self).todos() == old(self).todos().update(
                g as int,
                final(self).todos()[g as int],
            ),
            r is Some ==> final(self).todos()[g as int].valor_spec() == valor,
            final(self).todos()[g as int].arco_spec() == old(self).todos()[g as int].arco_spec(),
            final(self).todos()[g as int].capacidad_spec() == old(self).todos()[g as int].capacidad_spec(),
            g < old(self).fuente_spec().len() ==> final(self).fuente_spec() == old(
                self,
            ).fuente_spec().update(g as int, final(self).todos()[g as int]),
            g >= old(self).fuente_spec().len() ==> final(self).fuente_spec() == old(self).fuente_spec(),
    {
        let nf = self.flujos_fuente.len();
        let ni = self.flujos.len();
        let r;
        if g < nf {
            let mut f = self.flujos_fuente[g];
            r = f.set_valor(valor);
            if r.is_some() {
                self.flujos_fuente.set(g, f);
            }
            proof {
                if r is None {
                    assert(self.flujos_fuente@ =~= old(self).flujos_fuente@);
                }
                assert(self.todos()[g as int] == self.flujos_fuente@[g as int]);
            }
        } else if g < nf + ni {
            let mut f = self.flujos[g - nf];
            r = f.set_valor(valor);
            if r.is_some() {
                self.flujos.set(g - nf, f);
            }
            proof {
                if r is None {
                    assert(self.flujos@ =~= old(self).flujos@);
                }
            }
        } else {
            let mut f = self.flujos_sumidero[g - nf - ni];
            r = f.set_valor(valor);
            if r.is_some() {
                self.flujos_sumidero.set(g - nf - ni, f);
            }
            proof {
                if r is None {
                    assert(self.flujos_sumidero@ =~= old(self).flujos_sumidero@);
                }
            }
        }
        proof {
            if r is None {
                assert(self.todos() =~= old(self).todos());
            } else {
                assert(self.todos() =~= old(self).todos().update(g as int, self.todos()[g as int]));
            }
            assert forall|k: int| 0 <= k < self.todos().len() implies (#[trigger] self.todos()[k]).wf() by {
                if k != g {
                    assert(self.todos()[k] == old(self).todos()[k]);
                }
            }
            assert(self.fuente_spec()[0].arco_spec() == old(self).fuente_spec()[0].arco_spec());
            assert(self.sumidero_spec()[0].arco_spec() == old(self).sumidero_spec()[0].arco_spec());
            assert forall|i: int| 0 <= i < self.fuente_spec().len() implies (#[trigger] self.fuente_spec()[i]).arco_spec()
                == old(self).fuente_spec()[i].arco_spec() by {}
            assert forall|i: int| 0 <= i < self.sumidero_spec().len() implies (#[trigger] self.sumidero_spec()[i]).arco_spec()
                == old(self).sumidero_spec()[i].arco_spec() by {}
        }
        r
    }

    pub fn get_nombre(&self) -> (r: Option<&str>)
        ensures
            r is Some <==> self.nombre_spec() is Some,
            r is Some ==> r->0@ == self.nombre_spec()->0,
    {
        match &self.nombre {
            Some(s) => Some(s.as_str()),
            None => None,
        }
    }

    pub fn get_fuente(&self) -> (r: &V)
        requires
            self.wf(),
        ensures
            *r == self.fuente(),
    {
        match self.flujos_fuente[0].get_arco() {
            Diarista::Diarista(u, _, _) => u,
            Diarista::VerticeAislado(u) => u,
        }
    }

    pub fn get_sumidero(&self) -> (r: &V)
        requires
            self.wf(),
        ensures
            *r == self.sumidero(),
    {
        match self.flujos_sumidero[0].get_arco() {
            Diarista::Diarista(_, w, _) => w,
            Diarista::VerticeAislado(w) => w,
        }
    }

    /// The value of the network: the sum of the values of the flows that
    /// leave the source.
    pub fn get_valor_red(&self) -> (r: u64)
        requires
            suma_valores(self.fuente_spec()) <= u64::MAX,
        ensures
            r == suma_valores(self.fuente_spec()),
    {
        let s = &self.flujos_fuente;
        let mut suma: u64 = 0;
        let mut i: usize = 0;
        while i < s.len()
            invariant
                i <= s@.len(),
                s@ == self.fuente_spec(),
                suma_valores(s@) <= u64::MAX,
                suma == suma_valores(s@.take(i as int)),
            decreases s@.len() - i,
        {
            proof {
                assert(s@.take(i as int + 1).drop_last() =~= s@.take(i as int));
                lema_suma_prefijo(s@, i as int + 1);
            }
            suma = suma + s[i].get_valor();
            i = i + 1;
        }
        proof {
            assert(s@.take(s@.len() as int) =~= s@);
        }
        suma
    }

    pub fn get_flujos_fuente(&self) -> (r: &Vec<Flujo<V, P>>)
        ensures
            r@ == self.fuente_spec(),
    {
        &self.flujos_fuente
    }

    pub fn get_flujos_sumidero(&self) -> (r: &Vec<Flujo<V, P>>)
        ensures
            r@ == self.sumidero_spec(),
    {
        &self.flujos_sumidero
    }

    pub fn get_flujos(&self) -> (r: &Vec<Flujo<V, P>>)
        ensures
            r@ == self.interior_spec(),
    {
        &self.flujos
    }

    /// The flow at global index `g`.
    pub(crate) fn flujo_global(&self, g: usize) -> (r: Flujo<V, P>)
        requires
            g < self.todos().len(),
            self.todos().len() <= usize::MAX,
        ensures
            r == self.todos()[g as int],
    {
        let nf = self.flujos_fuente.len();
        let ni = self.flujos.len();
        if g < nf {
            self.flujos_fuente[g]
        } else if g < nf + ni {
            self.flujos[g - nf]
        } else {
            self.flujos_sumidero[g - nf - ni]
        }
    }

    /// The number of flows of the network.
    pub(crate) fn num_flujos(&self) -> (r: usize)
        requires
            self.todos().len() <= usize::MAX,
        ensures
            r == self.todos().len(),
    {
        proof {
            assert(self.todos().len() == self.flujos_fuente@.len() + self.flujos@.len() + self.flujos_sumidero@.len());
        }
        self.flujos_fuente.len() + self.flujos.len() + self.flujos_sumidero.len()
    }

    /// Consumes the network and gives its underlying digraph: interior arcs,
    /// then source arcs, then sink arcs, each repeated arc kept once.
    pub fn into_digrafo(self) -> (r: Digrafo<V, P>)
        ensures
            r.aristas_spec() == anadir(
                Seq::<Diarista<V, P>>::empty(),
                (self.interior_spec() + self.fuente_spec() + self.sumidero_spec()).map_values(
                    |f: Flujo<V, P>| f.arco_spec(),
                ),
            ),
    {
        let mut arcos: Vec<Diarista<V, P>> = Vec::new();
        let mut flujos = self.flujos;
        let mut fuente = self.flujos_fuente;
        flujos.append(&mut fuente);
        let mut sumidero = self.flujos_sumidero;
        flujos.append(&mut sumidero);
        let mut i: usize = 0;
        while i < flujos.len()
            invariant
                i <= flujos@.len(),
                arcos@ == flujos@.take(i as int).map_values(|f: Flujo<V, P>| f.arco_spec()),
            decreases flujos@.len() - i,
        {
            arcos.push(flujos[i].into_arco());
            i = i + 1;
            proof {
                assert(arcos@ =~= flujos@.take(i as int).map_values(|f: Flujo<V, P>| f.arco_spec()));
            }
        }
        proof {
            assert(flujos@.take(i as int) =~= flujos@);
        }
        Digrafo::from_aristas(arcos)
    }
}

impl<V: VerticeT, P: PesoT> Clone for Red<V, P> {
    fn clone(&self) -> (r: Self)
        ensures
            r.todos() == self.todos(),
            r.fuente_spec() == self.fuente_spec(),
            r.interior_spec() == self.interior_spec(),
            r.sumidero_spec() == self.sumidero_spec(),
            r.nombre_spec() == self.nombre_spec(),
    {
        let nombre = match &self.nombre {
            Some(s) => Some(s.as_str().to_owned()),
            None => None,
        };
        Red {
            nombre,
            flujos: copiar(&self.flujos),
            flujos_fuente: copiar(&self.flujos_fuente),
            flujos_sumidero: copiar(&self.flujos_sumidero),
        }
    }
}

/// Increments by `c` the value of the first flow through `arco`, when there
/// is one and the new value does not exceed its capacity; `None`, with
/// nothing changed, otherwise.
pub fn incrementar_flujo<V: VerticeT, P: PesoT>(red: &mut Red<V, P>, arco: &Diarista<V, P>, c: u64) -> (r: Option<()>)
    requires
        old(red).wf(),
    ensures
        final(red).wf(),
        final(red).fuente() == old(red).fuente(),
        final(red).sumidero() == old(red).sumidero(),
        r is None ==> *final(red) == *old(red),
        final(red).fuente_spec().len() == old(red).fuente_spec().len(),
        final(red).interior_spec().len() == old(red).interior_spec().len(),
        final(red).sumidero_spec().len() == old(red).sumidero_spec().len(),
        r is None ==> final(red).todos() == old(red).todos(),
        r is Some <==> exists|i: int|
            #[trigger] primer_arco(old(red).cubo(*arco), *arco, i) && old(red).cubo(*arco)[i].valor_spec() + c
                <= old(red).cubo(*arco)[i].capacidad_spec(),
        r is Some ==> exists|i: int|
            #[trigger] primer_arco(old(red).cubo(*arco), *arco, i) && final(red).todos()[old(red).global(*arco, i)].valor_spec()
                == old(red).cubo(*arco)[i].valor_spec() + c && final(red).todos() == old(red).todos().update(
                old(red).global(*arco, i),
                final(red).todos()[old(red).global(*arco, i)],
            ),
{
    let actual = match red.get_valor(arco) {
        Some(v) => v,
        None => {
            return None;
        },
    };
    let nuevo = match actual.checked_add(c) {
        Some(n) => n,
        None => {
            proof {
                let i = choose|i: int| #[trigger] primer_arco(red.cubo(*arco), *arco, i) && actual == red.cubo(*arco)[i].valor_spec();
                red.lema_cubo_wf(*arco, i);
            }
            return None;
        },
    };
    let ghost i = choose|i: int| #[trigger] primer_arco(red.cubo(*arco), *arco, i) && actual == red.cubo(*arco)[i].valor_spec();
    let r = red.set_valor(arco, nuevo);
    proof {
        assert(primer_arco(old(red).cubo(*arco), *arco, i));
        assert forall|j: int| #[trigger] primer_arco(old(red).cubo(*arco), *arco, j) implies j == i by {
            if j < i {
                assert(old(red).cubo(*arco)[j].arco_spec() != *arco);
            } else if j > i {
                assert(old(red).cubo(*arco)[i].arco_spec() != *arco);
            }
        }
    }
    r
}

/// Partial sums of flow values are non-negative and bounded by the total.
pub proof fn lema_suma_prefijo<V: VerticeT, P: PesoT>(s: Seq<Flujo<V, P>>, k: int)
    requires
        0 <= k <= s.len(),
    ensures
        0 <= suma_valores(s.take(k)) <= suma_valores(s),
    decreases s.len(),
{
    if k < s.len() {
        assert(s.drop_last().take(k) =~= s.take(k));
        lema_suma_prefijo(s.drop_last(), k);
    } else {
        assert(s.take(k) =~= s);
        lema_suma_no_negativa(s);
    }
}

/// Sums of flow values are non-negative.
pub proof fn lema_suma_no_negativa<V: VerticeT, P: PesoT>(s: Seq<Flujo<V, P>>)
    ensures
        0 <= suma_valores(s),
    decreases s.len(),
{
    if s.len() > 0 {
        lema_suma_no_negativa(s.drop_last());
    }
}

} // verus!
