use vstd::prelude::*;

use crate::diarista::Diarista;
use crate::peso::PesoT;
use crate::vertice::VerticeT;

verus! {

/// The flow through one arc of a network: a capacity and a current value.
#[derive(Copy, Debug)]
pub struct Flujo<V: VerticeT, P: PesoT> {
    arco: Diarista<V, P>,
    capacidad: u64,
    valor: u64,
}

impl<V: VerticeT, P: PesoT> Flujo<V, P> {
    pub closed spec fn arco_spec(&self) -> Diarista<V, P> {
        self.arco
    }

    pub closed spec fn capacidad_spec(&self) -> u64 {
        self.capacidad
    }

    pub closed spec fn valor_spec(&self) -> u64 {
        self.valor
    }

    /// The value does not exceed the capacity.
    pub open spec fn wf(&self) -> bool {
        self.valor_spec() <= self.capacidad_spec()
    }

    /// A null flow through `arco`.
    pub fn new(arco: Diarista<V, P>, capacidad: u64) -> (r: Self)
        ensures
            r.arco_spec() == arco,
            r.capacidad_spec() == capacidad,
            r.valor_spec() == 0,
            r.wf(),
    {
        Flujo { arco, capacidad, valor: 0 }
    }

    pub fn get_capacidad(&self) -> (r: u64)
        ensures
            r == self.capacidad_spec(),
    {
        self.capacidad
    }

    pub fn get_valor(&self) -> (r: u64)
        ensures
            r == self.valor_spec(),
    {
        self.valor
    }

    /// Sets the value when it does not exceed the capacity; `None`, with
    /// nothing changed, otherwise.
    pub fn set_valor(&mut self, valor: u64) -> (r: Option<()>)
        ensures
            r is Some <==> valor <= old(self).capacidad_spec(),
            r is None ==> *final(self) == *old(self),
            final(self).arco_spec() == old(self).arco_spec(),
            final(self).capacidad_spec() == old(self).capacidad_spec(),
            final(self).valor_spec() == if valor <= old(self).capacidad_spec() {
                valor
            } else {
                old(self).valor_spec()
            },
    {
        if valor > self.capacidad {
            return None;
        }
        self.valor = valor;
        Some(())
    }

    /// What the flow can still grow by.
    pub fn get_valor_restante(&self) -> (r: u64)
        requires
            self.wf(),
        ensures
            r == self.capacidad_spec() - self.valor_spec(),
    {
        self.capacidad - self.valor
    }

    /// Whether the flow has reached the capacity.
    pub fn saturado(&self) -> (r: bool)
        ensures
            r == (self.valor_spec() >= self.capacidad_spec()),
    {
        self.valor >= self.capacidad
    }

    pub fn get_arco(&self) -> (r: &Diarista<V, P>)
        ensures
            *r == self.arco_spec(),
    {
        &self.arco
    }

    pub fn into_arco(self) -> (r: Diarista<V, P>)
        ensures
            r == self.arco_spec(),
    {
        self.arco
    }
}

impl<V: VerticeT, P: PesoT> Clone for Flujo<V, P> {
    fn clone(&self) -> (r: Self)
        ensures
            r == *self,
    {
        *self
    }
}

impl<V: VerticeT, P: PesoT> PartialEq for Flujo<V, P> {
    fn eq(&self, other: &Self) -> (r: bool) {
        self.arco == other.arco && self.capacidad == other.capacidad && self.valor == other.valor
    }
}

impl<V: VerticeT, P: PesoT> vstd::std_specs::cmp::PartialEqSpecImpl for Flujo<V, P> {
    open spec fn obeys_eq_spec() -> bool {
        true
    }

    open spec fn eq_spec(&self, other: &Self) -> bool {
        self.arco_spec() == other.arco_spec() && self.capacidad_spec() == other.capacidad_spec()
            && self.valor_spec() == other.valor_spec()
    }
}

/// Flows are ordered by their current value.
impl<V: VerticeT, P: PesoT> PartialOrd for Flujo<V, P> {
    fn partial_cmp(&self, other: &Self) -> (r: Option<core::cmp::Ordering>) {
        if self.valor < other.valor {
            Some(core::cmp::Ordering::Less)
        } else if self.valor == other.valor {
            Some(core::cmp::Ordering::Equal)
        } else {
            Some(core::cmp::Ordering::Greater)
        }
    }
}

impl<V: VerticeT, P: PesoT> vstd::std_specs::cmp::PartialOrdSpecImpl for Flujo<V, P> {
    open spec fn obeys_partial_cmp_spec() -> bool {
        true
    }

    open spec fn partial_cmp_spec(&self, other: &Self) -> Option<core::cmp::Ordering> {
        if self.valor_spec() < other.valor_spec() {
            Some(core::cmp::Ordering::Less)
        } else if self.valor_spec() == other.valor_spec() {
            Some(core::cmp::Ordering::Equal)
        } else {
            Some(core::cmp::Ordering::Greater)
        }
    }
}

} // verus!
