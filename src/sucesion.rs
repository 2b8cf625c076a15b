use vstd::prelude::*;

use crate::orden::{decreciente_isize, ordenar_desc_isize};
use crate::vertice::copiar;

verus! {

broadcast use vstd::seq_lib::group_to_multiset_ensures;

/// Whether some entry of `s` is negative.
pub open spec fn hay_negativo(s: Seq<isize>) -> bool {
    exists|i: int| 0 <= i < s.len() && s[i] < 0
}

/// Whether every entry of `s` is zero.
pub open spec fn todos_cero(s: Seq<isize>) -> bool {
    forall|i: int| 0 <= i < s.len() ==> s[i] == 0
}

/// Whether some entry of `s` is at least the length of `s`.
pub open spec fn fuera_de_rango(s: Seq<isize>) -> bool {
    exists|i: int| 0 <= i < s.len() && s[i] >= s.len()
}

/// The arrangement of `s` in non-increasing order.
pub open spec fn ordenada(s: Seq<isize>) -> Seq<isize> {
    choose|t: Seq<isize>| t.to_multiset() == s.to_multiset() && decreciente_isize(t)
}

/// One Havel-Hakimi step on a sequence whose first entry is `d`: the first
/// entry is taken out and each of the next `d` entries loses one.
pub open spec fn paso(s: Seq<isize>) -> Seq<isize> {
    Seq::new((s.len() - 1) as nat, |i: int| if i < s[0] { (s[i + 1] - 1) as isize } else { s[i + 1] })
}

/// The Havel-Hakimi reduction of the non-increasing sequence `s`, with at
/// most `pasos` steps: accept iff the first entry left non-positive comes
/// with a last entry of zero.
pub open spec fn reduccion(s: Seq<isize>, pasos: nat) -> bool
    decreases pasos,
{
    if s.len() == 0 {
        false
    } else if s[0] <= 0 {
        s.last() == 0
    } else if pasos == 0 {
        false
    } else {
        reduccion(ordenada(paso(s)), (pasos - 1) as nat)
    }
}

/// Whether `s` passes the Havel-Hakimi test: it is not empty, its largest
/// entry is below its length, and its reduction accepts.
pub open spec fn pasa_havel_hakimi(s: Seq<isize>) -> bool {
    &&& s.len() > 0
    &&& ordenada(s)[0] < s.len()
    &&& reduccion(ordenada(s), s.len())
}

proof fn lema_orden_unico(a: Seq<isize>, b: Seq<isize>)
    requires
        decreciente_isize(a),
        decreciente_isize(b),
        a.to_multiset() == b.to_multiset(),
    ensures
        a == b,
    decreases a.len(),
{
    lema_mismo_multiconjunto(a, b);
    if a.len() == 0 {
        assert(a =~= b);
    } else {
        assert(a.contains(a[0]));
        let j = choose|j: int| 0 <= j < b.len() && b[j] == a[0];
        assert(b[0] >= b[j]);
        assert(b.contains(b[0]));
        let k = choose|k: int| 0 <= k < a.len() && a[k] == b[0];
        assert(a[0] >= a[k]);
        assert(a.remove(0) =~= a.drop_first());
        assert(b.remove(0) =~= b.drop_first());
        vstd::seq_lib::to_multiset_remove(a, 0);
        vstd::seq_lib::to_multiset_remove(b, 0);
        lema_orden_unico(a.drop_first(), b.drop_first());
        assert forall|i: int| 0 <= i < a.len() implies a[i] == b[i] by {
            if i > 0 {
                assert(a[i] == a.drop_first()[i - 1]);
                assert(b[i] == b.drop_first()[i - 1]);
            }
        }
        assert(a =~= b);
    }
}

proof fn lema_ordenada(s: Seq<isize>, t: Seq<isize>)
    requires
        decreciente_isize(t),
        t.to_multiset() == s.to_multiset(),
    ensures
        ordenada(s) == t,
{
    let o = ordenada(s);
    assert(o.to_multiset() == s.to_multiset() && decreciente_isize(o));
    lema_orden_unico(o, t);
}

proof fn lema_mismo_multiconjunto(a: Seq<isize>, b: Seq<isize>)
    requires
        a.to_multiset() == b.to_multiset(),
    ensures
        hay_negativo(a) == hay_negativo(b),
        todos_cero(a) == todos_cero(b),
        a.len() == b.len(),
        forall|x: isize| a.contains(x) <==> b.contains(x),
{
    assert(a.to_multiset().len() == a.len());
    assert(b.to_multiset().len() == b.len());
    assert forall|x: isize| a.contains(x) <==> b.contains(x) by {
        assert(a.contains(x) <==> a.to_multiset().count(x) > 0);
        assert(b.contains(x) <==> b.to_multiset().count(x) > 0);
    }
    if hay_negativo(a) {
        let i = choose|i: int| 0 <= i < a.len() && a[i] < 0;
        assert(a.contains(a[i]));
    }
    if hay_negativo(b) {
        let i = choose|i: int| 0 <= i < b.len() && b[i] < 0;
        assert(b.contains(b[i]));
    }
    if !todos_cero(a) {
        let i = choose|i: int| 0 <= i < a.len() && a[i] != 0;
        assert(a.contains(a[i]));
    }
    if !todos_cero(b) {
        let i = choose|i: int| 0 <= i < b.len() && b[i] != 0;
        assert(b.contains(b[i]));
    }
}

/// Whether the integer sequence is graphical (the degree sequence of some
/// simple graph), by the Havel-Hakimi theorem: sort it in non-increasing
/// order; reject it when it is empty or its largest entry is not below its
/// length; then, while the first entry `d` is positive, take it out and
/// subtract one from each of the next `d` entries, sorting again each time.
/// Accept iff the last entry left is zero.
pub fn comprobar_sucesion(sucesion: &Vec<isize>) -> (r: bool)
    requires
        forall|i: int| 0 <= i < sucesion@.len() ==> sucesion@[i] >= isize::MIN + sucesion@.len(),
    ensures
        r == pasa_havel_hakimi(sucesion@),
        sucesion@.len() == 0 ==> !r,
        fuera_de_rango(sucesion@) ==> !r,
        hay_negativo(sucesion@) ==> !r,
        sucesion@.len() > 0 && todos_cero(sucesion@) ==> r,
{
    if sucesion.len() == 0 {
        return false;
    }
    let mut v = ordenar_desc_isize(copiar(sucesion));
    proof {
        lema_mismo_multiconjunto(v@, sucesion@);
        lema_ordenada(sucesion@, v@);
        assert forall|k: int| 0 <= k < v@.len() implies v@[k] >= isize::MIN + v@.len() by {
            assert(v@.contains(v@[k]));
            let i = choose|i: int| 0 <= i < sucesion@.len() && sucesion@[i] == v@[k];
        }
        if fuera_de_rango(sucesion@) {
            let i = choose|i: int| 0 <= i < sucesion@.len() && sucesion@[i] >= sucesion@.len();
            assert(sucesion@.contains(sucesion@[i]));
            assert(v@.contains(sucesion@[i]));
            let j = choose|j: int| 0 <= j < v@.len() && v@[j] == sucesion@[i];
            assert(v@[0] >= v@[j]);
        }
    }
    if v[0] >= 0 && v[0] as usize >= v.len() {
        return false;
    }
    let ghost negativo = hay_negativo(sucesion@);
    let ghost ceros = todos_cero(sucesion@);
    let ghost mut pasos: nat = v@.len();
    while v.len() > 0 && v[0] > 0
        invariant
            decreciente_isize(v@),
            pasos >= v@.len(),
            reduccion(v@, pasos) == reduccion(ordenada(sucesion@), sucesion@.len()),
            forall|k: int| 0 <= k < v@.len() ==> v@[k] >= isize::MIN + v@.len(),
            negativo ==> hay_negativo(v@),
            ceros ==> todos_cero(v@) && v@.len() > 0,
        decreases v@.len(),
    {
        let d = v[0];
        let mut i: usize = 1;
        let ghost antes = v@;
        while i < v.len()
            invariant
                1 <= i <= v@.len(),
                v@.len() == antes.len(),
                v@[0] == d,
                d > 0,
                negativo ==> hay_negativo(v@),
                forall|k: int| 0 <= k < v@.len() ==> #[trigger] v@[k] <= antes[k],
                forall|k: int| 1 <= k < i ==> #[trigger] v@[k] == if k <= d {
                    antes[k] - 1
                } else {
                    antes[k] as int
                },
                forall|k: int| i <= k < v@.len() ==> #[trigger] v@[k] == antes[k],
                forall|k: int| 0 <= k < antes.len() ==> antes[k] >= isize::MIN + antes.len(),
            decreases v@.len() - i,
        {
            let ghost k_neg: int = if negativo {
                choose|k: int| 0 <= k < v@.len() && v@[k] < 0
            } else {
                0
            };
            let ghost previo = v@;
            if i <= isize::MAX as usize && (i as isize) <= d {
                let x = v[i];
                v.set(i, x - 1);
            }
            proof {
                if negativo {
                    assert(v@[k_neg] <= previo[k_neg]);
                }
            }
            i = i + 1;
        }
        let ghost reducida = v@;
        v.remove(0);
        proof {
            assert(v@ =~= paso(antes)) by {
                assert forall|j: int| 0 <= j < v@.len() implies v@[j] == paso(antes)[j] by {
                    assert(v@[j] == reducida[j + 1]);
                }
            }
        }
        proof {
            if negativo {
                let k = choose|k: int| 0 <= k < reducida.len() && reducida[k] < 0;
                assert(k != 0);
                assert(v@[k - 1] == reducida[k]);
            }
        }
        let w = ordenar_desc_isize(v);
        proof {
            lema_mismo_multiconjunto(w@, v@);
            lema_ordenada(paso(antes), w@);
            assert forall|k: int| 0 <= k < w@.len() implies w@[k] >= isize::MIN + w@.len() by {
                assert(w@.contains(w@[k]));
                let j = choose|j: int| 0 <= j < v@.len() && v@[j] == w@[k];
                assert(v@[j] == reducida[j + 1]);
            }
            pasos = (pasos - 1) as nat;
        }
        v = w;
    }
    match v.last() {
        Some(e) => {
            proof {
                if negativo {
                    let k = choose|k: int| 0 <= k < v@.len() && v@[k] < 0;
                    assert(v@[k] >= v@[v@.len() - 1] || k == v@.len() - 1);
                }
            }
            *e == 0
        },
        None => false,
    }
}

} // verus!
