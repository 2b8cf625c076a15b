use vstd::prelude::*;

use crate::vertice::{copiar, VerticeT};

verus! {

/// A vertex with an integer label.
#[derive(Copy, Debug)]
pub struct Etiqueta<V: VerticeT> {
    vert: V,
    valor: isize,
}

impl<V: VerticeT> Etiqueta<V> {
    /// The labelled vertex.
    pub closed spec fn vertice_spec(&self) -> V {
        self.vert
    }

    /// The label.
    pub closed spec fn valor_spec(&self) -> isize {
        self.valor
    }

    pub fn new(vert: V, valor: isize) -> (r: Self)
        ensures
            r.vertice_spec() == vert,
            r.valor_spec() == valor,
    {
        Etiqueta { vert, valor }
    }

    pub fn set_valor(&mut self, valor: isize)
        ensures
            final(self).vertice_spec() == old(self).vertice_spec(),
            final(self).valor_spec() == valor,
    {
        self.valor = valor;
    }

    pub fn get_vertice(&self) -> (r: &V)
        ensures
            *r == self.vertice_spec(),
    {
        &self.vert
    }

    pub fn get_valor(&self) -> (r: isize)
        ensures
            r == self.valor_spec(),
    {
        self.valor
    }
}

impl<V: VerticeT> Clone for Etiqueta<V> {
    fn clone(&self) -> (r: Self)
        ensures
            r == *self,
    {
        *self
    }
}

impl<V: VerticeT> PartialEq for Etiqueta<V> {
    fn eq(&self, other: &Self) -> (r: bool) {
        self.vert.igual(&other.vert) && self.valor == other.valor
    }
}

impl<V: VerticeT> vstd::std_specs::cmp::PartialEqSpecImpl for Etiqueta<V> {
    open spec fn obeys_eq_spec() -> bool {
        true
    }

    open spec fn eq_spec(&self, other: &Self) -> bool {
        self.vertice_spec() == other.vertice_spec() && self.valor_spec() == other.valor_spec()
    }
}

/// Labels are ordered by their value.
impl<V: VerticeT> PartialOrd for Etiqueta<V> {
    fn partial_cmp(&self, other: &Self) -> (r: Option<core::cmp::Ordering>) {
        if self.valor < other.valor {
            Some(core::cmp::Ordering::Less)
        } else if self.valor == other.valor {
            Some(core::cmp::Ordering::Equal)
        } else {
            Some(core::cmp::Ordering::Greater)
        }
    }
}

impl<V: VerticeT> vstd::std_specs::cmp::PartialOrdSpecImpl for Etiqueta<V> {
    open spec fn obeys_partial_cmp_spec() -> bool {
        true
    }

    open spec fn partial_cmp_spec(&self, other: &Self) -> Option<core::cmp::Ordering> {
        if self.valor_spec() < other.valor_spec() {
            Some(core::cmp::Ordering::Less)
        } else if self.valor_spec() == other.valor_spec() {
            Some(core::cmp::Ordering::Equal)
        } else {
            Some(core::cmp::Ordering::Greater)
        }
    }
}

/// The vertices of the labels of `s`, in order.
pub open spec fn vertices_etiquetados<V: VerticeT>(s: Seq<Etiqueta<V>>) -> Seq<V> {
    s.map_values(|e: Etiqueta<V>| e.vertice_spec())
}

/// The number of labels of `s` on vertex `v`.
pub open spec fn apariciones<V: VerticeT>(s: Seq<Etiqueta<V>>, v: V) -> nat {
    vertices_etiquetados(s).to_multiset().count(v)
}

/// Whether `i` holds the first label of greatest value of `s`.
pub open spec fn es_primer_max<V: VerticeT>(s: Seq<Etiqueta<V>>, i: int) -> bool {
    &&& 0 <= i < s.len()
    &&& forall|j: int| 0 <= j < s.len() ==> (#[trigger] s[j]).valor_spec() <= s[i].valor_spec()
    &&& forall|j: int| 0 <= j < i ==> (#[trigger] s[j]).valor_spec() < s[i].valor_spec()
}

/// Whether `i` holds the first label of least value of `s`.
pub open spec fn es_primer_min<V: VerticeT>(s: Seq<Etiqueta<V>>, i: int) -> bool {
    &&& 0 <= i < s.len()
    &&& forall|j: int| 0 <= j < s.len() ==> (#[trigger] s[j]).valor_spec() >= s[i].valor_spec()
    &&& forall|j: int| 0 <= j < i ==> (#[trigger] s[j]).valor_spec() > s[i].valor_spec()
}

/// A ledger of labelled vertices, in insertion order, with an optional name.
pub struct Etiquetado<V: VerticeT> {
    nombre: Option<String>,
    datos: Vec<Etiqueta<V>>,
}

impl<V: VerticeT> Etiquetado<V> {
    /// The labels, in insertion order.
    pub closed spec fn datos_spec(&self) -> Seq<Etiqueta<V>> {
        self.datos@
    }

    /// The name of the ledger.
    pub closed spec fn nombre_spec(&self) -> Option<Seq<char>> {
        match self.nombre {
            Some(s) => Some(s@),
            None => None,
        }
    }

    /// An empty ledger.
    pub fn new(nombre: Option<&str>) -> (r: Self)
        ensures
            r.datos_spec() == Seq::<Etiqueta<V>>::empty(),
            r.nombre_spec() == match nombre {
                Some(s) => Some(s@),
                None => None::<Seq<char>>,
            },
    {
        let nombre = match nombre {
            Some(s) => Some(s.to_owned()),
            None => None,
        };
        Etiquetado { nombre, datos: Vec::new() }
    }

    /// A ledger holding the labels of `list`.
    pub fn from_vec(nombre: Option<&str>, list: Vec<Etiqueta<V>>) -> (r: Self)
        ensures
            r.datos_spec() == list@,
            r.nombre_spec() == match nombre {
                Some(s) => Some(s@),
                None => None::<Seq<char>>,
            },
    {
        let nombre = match nombre {
            Some(s) => Some(s.to_owned()),
            None => None,
        };
        Etiquetado { nombre, datos: list }
    }

    pub fn add_etiqueta(&mut self, etiqueta: Etiqueta<V>)
        ensures
            final(self).datos_spec() == old(self).datos_spec().push(etiqueta),
            final(self).nombre_spec() == old(self).nombre_spec(),
    {
        self.datos.push(etiqueta);
    }

    pub fn add_vertice(&mut self, v: V, valor: isize)
        ensures
            final(self).datos_spec().len() == old(self).datos_spec().len() + 1,
            final(self).datos_spec().drop_last() == old(self).datos_spec(),
            final(self).datos_spec().last().vertice_spec() == v,
            final(self).datos_spec().last().valor_spec() == valor,
            final(self).nombre_spec() == old(self).nombre_spec(),
    {
        self.datos.push(Etiqueta::new(v, valor));
        proof {
            assert(self.datos@.drop_last() =~= old(self).datos@);
        }
    }

    /// The first label of greatest value; `None` when the ledger is empty.
    pub fn max(&self) -> (r: Option<&Etiqueta<V>>)
        ensures
            r is None <==> self.datos_spec().len() == 0,
            r is Some ==> exists|i: int|
                #[trigger] es_primer_max(self.datos_spec(), i) && self.datos_spec()[i] == *r->0,
    {
        if self.datos.len() == 0 {
            return None;
        }
        let mut m: usize = 0;
        let mut i: usize = 1;
        while i < self.datos.len()
            invariant
                1 <= i <= self.datos@.len(),
                m < i,
                forall|j: int| 0 <= j < i ==> (#[trigger] self.datos@[j]).valor <= self.datos@[m as int].valor,
                forall|j: int| 0 <= j < m ==> (#[trigger] self.datos@[j]).valor < self.datos@[m as int].valor,
            decreases self.datos@.len() - i,
        {
            if self.datos[i].valor > self.datos[m].valor {
                m = i;
            }
            i = i + 1;
        }
        assert(es_primer_max(self.datos_spec(), m as int));
        Some(&self.datos[m])
    }

    /// The first label of least value; `None` when the ledger is empty.
    pub fn min(&self) -> (r: Option<&Etiqueta<V>>)
        ensures
            r is None <==> self.datos_spec().len() == 0,
            r is Some ==> exists|i: int|
                #[trigger] es_primer_min(self.datos_spec(), i) && self.datos_spec()[i] == *r->0,
    {
        if self.datos.len() == 0 {
            return None;
        }
        let mut m: usize = 0;
        let mut i: usize = 1;
        while i < self.datos.len()
            invariant
                1 <= i <= self.datos@.len(),
                m < i,
                forall|j: int| 0 <= j < i ==> (#[trigger] self.datos@[j]).valor >= self.datos@[m as int].valor,
                forall|j: int| 0 <= j < m ==> (#[trigger] self.datos@[j]).valor > self.datos@[m as int].valor,
            decreases self.datos@.len() - i,
        {
            if self.datos[i].valor < self.datos[m].valor {
                m = i;
            }
            i = i + 1;
        }
        assert(es_primer_min(self.datos_spec(), m as int));
        Some(&self.datos[m])
    }

    /// The index of the only label of `v`; `None` when `v` has no label or
    /// more than one.
    fn indice_unico(&self, v: &V) -> (r: Option<usize>)
        ensures
            r is Some <==> apariciones(self.datos_spec(), *v) == 1,
            r is Some ==> r->0 < self.datos_spec().len() && self.datos_spec()[r->0 as int].vertice_spec() == *v,
    {
        let ghost s = self.datos@;
        let ghost vs = vertices_etiquetados(s);
        let mut encontrado: Option<usize> = None;
        let mut cuenta: usize = 0;
        let mut i: usize = 0;
        proof {
            assert(vs.take(0) =~= Seq::<V>::empty());
            vstd::seq_lib::to_multiset_len(vs.take(0));
        }
        while i < self.datos.len()
            invariant
                i <= s.len(),
                s == self.datos@,
                vs == vertices_etiquetados(s),
                cuenta == vs.take(i as int).to_multiset().count(*v),
                cuenta <= i,
                cuenta == 0 <==> encontrado is None,
                encontrado is Some ==> encontrado->0 < i && s[encontrado->0 as int].vert == *v,
            decreases s.len() - i,
        {
            proof {
                assert(vs.take(i as int + 1) =~= vs.take(i as int).push(vs[i as int]));
                vstd::seq_lib::to_multiset_build(vs.take(i as int), vs[i as int]);
            }
            if self.datos[i].vert.igual(v) {
                cuenta = cuenta + 1;
                encontrado = Some(i);
            }
            i = i + 1;
        }
        proof {
            assert(vs.take(s.len() as int) =~= vs);
        }
        if cuenta == 1 {
            encontrado
        } else {
            None
        }
    }

    /// The label of `v` when it is the only one; `None` when `v` has no label
    /// or more than one.
    pub fn buscar_vertice(&self, v: &V) -> (r: Option<&Etiqueta<V>>)
        ensures
            r is Some <==> apariciones(self.datos_spec(), *v) == 1,
            r is Some ==> r->0.vertice_spec() == *v && self.datos_spec().contains(*r->0),
    {
        match self.indice_unico(v) {
            Some(i) => {
                proof {
                    assert(self.datos@[i as int] == self.datos@[i as int]);
                }
                Some(&self.datos[i])
            },
            None => None,
        }
    }

    /// Mutable access to the label of `v` when it is the only one; `None`,
    /// with nothing changed, when `v` has no label or more than one.
    pub fn buscar_vertice_mut(&mut self, v: &V) -> (r: Option<&mut Etiqueta<V>>)
        ensures
            r is Some <==> apariciones(old(self).datos_spec(), *v) == 1,
            r is None ==> *final(self) == *old(self),
            r is Some ==> exists|i: int|
                0 <= i < old(self).datos_spec().len() && #[trigger] old(self).datos_spec()[i] == *r->0
                    && r->0.vertice_spec() == *v && final(self).datos_spec() == old(self).datos_spec().update(i, *final(r->0))
                    && final(self).nombre_spec() == old(self).nombre_spec(),
    {
        match self.indice_unico(v) {
            Some(i) => Some(&mut self.datos[i]),
            None => None,
        }
    }

    pub fn get_datos(&self) -> (r: &Vec<Etiqueta<V>>)
        ensures
            r@ == self.datos_spec(),
    {
        &self.datos
    }

    pub fn get_nombre(&self) -> (r: Option<&str>)
        ensures
            r is Some <==> self.nombre_spec() is Some,
            r is Some ==> r->0@ == self.nombre_spec()->0,
    {
        match &self.nombre {
            Some(s) => Some(s.as_str()),
            None => None,
        }
    }

    pub fn into_vec(self) -> (r: Vec<Etiqueta<V>>)
        ensures
            r@ == self.datos_spec(),
    {
        self.datos
    }
}

impl<V: VerticeT> Clone for Etiquetado<V> {
    fn clone(&self) -> (r: Self)
        ensures
            r.datos_spec() == self.datos_spec(),
            r.nombre_spec() == self.nombre_spec(),
    {
        let nombre = match &self.nombre {
            Some(s) => Some(s.as_str().to_owned()),
            None => None,
        };
        Etiquetado { nombre, datos: copiar(&self.datos) }
    }
}

} // verus!
