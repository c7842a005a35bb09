//! What the order of the elements is, type by type.

use vstd::prelude::*;
use super::{bytes_precede, lists, ordered, text_precedes, Element};

verus! {

/// Numbers are ordered by size.
pub proof fn law_numbers_are_ordered_by_size(
    a: u32,
    b: u32,
    c: u64,
    d: u64,
    e: u128,
    f: u128,
    g: usize,
    h: usize,
    i: i32,
    j: i32,
    k: i64,
    l: i64,
)
    ensures
        u32::precedes(a, b) <==> a < b,
        u64::precedes(c, d) <==> c < d,
        u128::precedes(e, f) <==> e < f,
        usize::precedes(g, h) <==> g < h,
        i32::precedes(i, j) <==> i < j,
        i64::precedes(k, l) <==> k < l,
{
}

/// Of two byte strings that differ, the one with the lesser byte at the first
/// difference comes first, and a beginning comes before the whole.
pub proof fn law_first_difference_decides(a: Seq<u8>, b: Seq<u8>, n: int)
    requires
        0 <= n <= a.len(),
        n <= b.len(),
        a.take(n) == b.take(n),
    ensures
        n < a.len() && n < b.len() && a[n] < b[n] ==> bytes_precede(a, b) && !bytes_precede(b, a),
        n == a.len() && n < b.len() ==> bytes_precede(a, b) && !bytes_precede(b, a),
        n == a.len() && n == b.len() ==> !bytes_precede(a, b),
    decreases n,
{
    if n > 0 {
        assert(a[0] == a.take(n)[0]);
        assert(b[0] == b.take(n)[0]);
        assert(a.drop_first().take(n - 1) =~= a.take(n).drop_first());
        assert(b.drop_first().take(n - 1) =~= b.take(n).drop_first());
        law_first_difference_decides(a.drop_first(), b.drop_first(), n - 1);
    }
}

/// Texts are ordered by their bytes in UTF-8.
pub proof fn law_texts_are_ordered_by_bytes(a: Seq<char>, b: Seq<char>)
    ensures
        text_precedes(a, b) <==> bytes_precede(
            vstd::utf8::encode_utf8(a),
            vstd::utf8::encode_utf8(b),
        ),
        String::precedes(a, b) <==> text_precedes(a, b),
        <&str>::precedes(a, b) <==> text_precedes(a, b),
{
}

/// Pairs are ordered by their first part, and by the second where the first is
/// the same.
pub proof fn law_pairs_are_ordered_part_by_part<A: Element, B: Element>(
    a: (A::V, B::V),
    b: (A::V, B::V),
)
    ensures
        A::precedes(a.0, b.0) ==> <(A, B)>::precedes(a, b),
        a.0 == b.0 && B::precedes(a.1, b.1) ==> <(A, B)>::precedes(a, b),
        <(A, B)>::precedes(a, b) ==> A::precedes(a.0, b.0) || a.0 == b.0,
        <(A, B)>::precedes(a, b) && !A::precedes(a.0, b.0) ==> B::precedes(a.1, b.1),
{
}

/// A list is ordered if every element comes before every later one. It lists a
/// set if it is ordered and holds the elements of the set and no others.
pub proof fn law_lists_are_ascending_and_complete<K: Element>(
    list: Seq<K::V>,
    set: Set<K::V>,
    i: int,
    j: int,
    key: K::V,
)
    ensures
        ordered::<K>(list) && 0 <= i < j < list.len() ==> K::precedes(list[i], list[j]),
        (forall|a: int, b: int|
            #![trigger list[a], list[b]]
            0 <= a < b < list.len() ==> K::precedes(list[a], list[b])) ==> ordered::<K>(list),
        lists::<K>(list, set) ==> ordered::<K>(list),
        lists::<K>(list, set) ==> (list.contains(key) <==> set.contains(key)),
        ordered::<K>(list) && (forall|k: K::V| #[trigger] list.contains(k) <==> set.contains(k))
            ==> lists::<K>(list, set),
{
}

} // verus!
