use vstd::prelude::*;

verus! {

/// A vertex: a plain value that can be copied and compared.
/// Exec equality agrees with equality of values.
pub trait VerticeT: Copy + Sized {
    fn igual(&self, otro: &Self) -> (r: bool)
        ensures
            r == (*self == *otro),
    ;
}

/// Whether `vs` holds `v`.
pub fn contiene_vertice<V: VerticeT>(vs: &Vec<V>, v: &V) -> (r: bool)
    ensures
        r == vs@.contains(*v),
{
    let mut i: usize = 0;
    while i < vs.len()
        invariant
            i <= vs@.len(),
            forall|j: int| 0 <= j < i ==> vs@[j] != *v,
        decreases vs@.len() - i,
    {
        if vs[i].igual(v) {
            return true;
        }
        i = i + 1;
    }
    false
}

/// A copy of a vector of plain values.
pub fn copiar<T: Copy>(s: &Vec<T>) -> (r: Vec<T>)
    ensures
        r@ == s@,
{
    let mut r: Vec<T> = Vec::new();
    let mut i: usize = 0;
    while i < s.len()
        invariant
            i <= s@.len(),
            r@ == s@.take(i as int),
        decreases s@.len() - i,
    {
        r.push(s[i]);
        i = i + 1;
        proof {
            assert(r@ =~= s@.take(i as int));
        }
    }
    proof {
        assert(r@ =~= s@);
    }
    r
}

impl VerticeT for i32 {
    fn igual(&self, otro: &Self) -> (r: bool) {
        *self == *otro
    }
}

impl VerticeT for u32 {
    fn igual(&self, otro: &Self) -> (r: bool) {
        *self == *otro
    }
}

impl VerticeT for u8 {
    fn igual(&self, otro: &Self) -> (r: bool) {
        *self == *otro
    }
}

impl VerticeT for isize {
    fn igual(&self, otro: &Self) -> (r: bool) {
        *self == *otro
    }
}

impl VerticeT for usize {
    fn igual(&self, otro: &Self) -> (r: bool) {
        *self == *otro
    }
}

impl VerticeT for char {
    fn igual(&self, otro: &Self) -> (r: bool) {
        *self == *otro
    }
}

} // verus!
