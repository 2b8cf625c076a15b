use vstd::prelude::*;

verus! {

/// The weight of an edge.
///
/// A weight type either carries a numeric value (`con_orden()`), with the
/// usual order and addition, or it is a placeholder for "no weight", which
/// reports itself as negative so that weight-dependent algorithms refuse it.
pub trait PesoT: Copy + Sized {
    /// The number a weight stands for.
    spec fn valor(&self) -> int;

    /// Whether the type carries real numeric weights.
    spec fn con_orden() -> bool;

    /// Whether `v` is representable as a weight of this type.
    spec fn en_rango(v: int) -> bool;

    /// The representable values form a range: between 0 and a representable
    /// value, every value is representable.
    proof fn lema_rango(a: int, b: int)
        requires
            Self::con_orden(),
            0 <= a <= b,
            Self::en_rango(b),
        ensures
            Self::en_rango(a),
    ;

    /// Neutral element of the addition.
    fn elemento_neutro() -> (r: Self)
        ensures
            Self::con_orden() ==> r.valor() == 0,
    ;

    /// Sum of two weights.
    fn suma(&self, otro: &Self) -> (r: Self)
        requires
            Self::con_orden() ==> Self::en_rango(self.valor() + otro.valor()),
        ensures
            Self::con_orden() ==> r.valor() == self.valor() + otro.valor(),
    ;

    /// Sum of two weights, or `None` when the sum is not representable.
    fn suma_comprobada(&self, otro: &Self) -> (r: Option<Self>)
        ensures
            Self::con_orden() ==> (r is Some <==> Self::en_rango(self.valor() + otro.valor())),
            Self::con_orden() && r is Some ==> r->0.valor() == self.valor() + otro.valor(),
    ;

    /// Whether the weight is negative; a type without numeric weights is
    /// always negative.
    fn es_negativo(&self) -> (r: bool)
        ensures
            r == (!Self::con_orden() || self.valor() < 0),
    ;

    /// Strict order between weights.
    fn menor(&self, otro: &Self) -> (r: bool)
        ensures
            Self::con_orden() ==> r == (self.valor() < otro.valor()),
    ;

    /// Equality between weights.
    fn igual(&self, otro: &Self) -> (r: bool)
        ensures
            r == (*self == *otro),
    ;

    /// Signed integer projection, used for labelings.
    fn to_isize(&self) -> (r: isize)
        ensures
            Self::con_orden() && isize::MIN <= self.valor() <= isize::MAX ==> r as int
                == self.valor(),
    ;
}

impl PesoT for i32 {
    open spec fn valor(&self) -> int {
        *self as int
    }

    open spec fn con_orden() -> bool {
        true
    }

    open spec fn en_rango(v: int) -> bool {
        i32::MIN <= v <= i32::MAX
    }

    proof fn lema_rango(a: int, b: int) {
    }

    fn elemento_neutro() -> (r: Self) {
        0
    }

    fn suma(&self, otro: &Self) -> (r: Self) {
        *self + *otro
    }

    fn suma_comprobada(&self, otro: &Self) -> (r: Option<Self>) {
        self.checked_add(*otro)
    }

    fn es_negativo(&self) -> (r: bool) {
        *self < 0
    }

    fn menor(&self, otro: &Self) -> (r: bool) {
        *self < *otro
    }

    fn igual(&self, otro: &Self) -> (r: bool) {
        *self == *otro
    }

    fn to_isize(&self) -> (r: isize) {
        *self as isize
    }
}

impl PesoT for u8 {
    open spec fn valor(&self) -> int {
        *self as int
    }

    open spec fn con_orden() -> bool {
        true
    }

    open spec fn en_rango(v: int) -> bool {
        0 <= v <= u8::MAX
    }

    proof fn lema_rango(a: int, b: int) {
    }

    fn elemento_neutro() -> (r: Self) {
        0
    }

    fn suma(&self, otro: &Self) -> (r: Self) {
        *self + *otro
    }

    fn suma_comprobada(&self, otro: &Self) -> (r: Option<Self>) {
        self.checked_add(*otro)
    }

    fn es_negativo(&self) -> (r: bool) {
        false
    }

    fn menor(&self, otro: &Self) -> (r: bool) {
        *self < *otro
    }

    fn igual(&self, otro: &Self) -> (r: bool) {
        *self == *otro
    }

    fn to_isize(&self) -> (r: isize) {
        *self as isize
    }
}

impl PesoT for usize {
    open spec fn valor(&self) -> int {
        *self as int
    }

    open spec fn con_orden() -> bool {
        true
    }

    open spec fn en_rango(v: int) -> bool {
        0 <= v <= usize::MAX
    }

    proof fn lema_rango(a: int, b: int) {
    }

    fn elemento_neutro() -> (r: Self) {
        0
    }

    fn suma(&self, otro: &Self) -> (r: Self) {
        *self + *otro
    }

    fn suma_comprobada(&self, otro: &Self) -> (r: Option<Self>) {
        self.checked_add(*otro)
    }

    fn es_negativo(&self) -> (r: bool) {
        false
    }

    fn menor(&self, otro: &Self) -> (r: bool) {
        *self < *otro
    }

    fn igual(&self, otro: &Self) -> (r: bool) {
        *self == *otro
    }

    fn to_isize(&self) -> (r: isize) {
        *self as isize
    }
}

impl PesoT for isize {
    open spec fn valor(&self) -> int {
        *self as int
    }

    open spec fn con_orden() -> bool {
        true
    }

    open spec fn en_rango(v: int) -> bool {
        isize::MIN <= v <= isize::MAX
    }

    proof fn lema_rango(a: int, b: int) {
    }

    fn elemento_neutro() -> (r: Self) {
        0
    }

    fn suma(&self, otro: &Self) -> (r: Self) {
        *self + *otro
    }

    fn suma_comprobada(&self, otro: &Self) -> (r: Option<Self>) {
        self.checked_add(*otro)
    }

    fn es_negativo(&self) -> (r: bool) {
        *self < 0
    }

    fn menor(&self, otro: &Self) -> (r: bool) {
        *self < *otro
    }

    fn igual(&self, otro: &Self) -> (r: bool) {
        *self == *otro
    }

    fn to_isize(&self) -> (r: isize) {
        *self
    }
}

/// The weight of an unweighted graph.
#[derive(Clone, Copy, Debug, PartialEq, Eq, Structural)]
pub struct NoPeso;

impl PesoT for NoPeso {
    open spec fn valor(&self) -> int {
        0
    }

    open spec fn con_orden() -> bool {
        false
    }

    open spec fn en_rango(v: int) -> bool {
        true
    }

    proof fn lema_rango(a: int, b: int) {
    }

    fn elemento_neutro() -> (r: Self) {
        NoPeso
    }

    fn suma(&self, otro: &Self) -> (r: Self) {
        NoPeso
    }

    fn suma_comprobada(&self, otro: &Self) -> (r: Option<Self>) {
        Some(NoPeso)
    }

    fn es_negativo(&self) -> (r: bool) {
        true
    }

    fn menor(&self, otro: &Self) -> (r: bool) {
        false
    }

    fn igual(&self, otro: &Self) -> (r: bool) {
        true
    }

    fn to_isize(&self) -> (r: isize) {
        0
    }
}

} // verus!
