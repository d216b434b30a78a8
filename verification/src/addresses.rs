//! The fixed EXP bus address table: which one-byte hex address ranges belong
//! to which board model. Immutable for the life of the process.

use vstd::prelude::*;
use crate::parse::upper_eq;

verus! {

/// The 25 `(hex address, board type)` pairs of the EXP bus, in probe order.
pub open spec fn table_spec() -> Seq<(Seq<char>, Seq<char>)> {
    seq![
        (("48")@, ("FP-CPU-2000")@),
        (("D0")@, ("FP-EXP-0051")@),
        (("D1")@, ("FP-EXP-0051")@),
        (("D2")@, ("FP-EXP-0051")@),
        (("D3")@, ("FP-EXP-0051")@),
        (("90")@, ("FP-EXP-0061")@),
        (("91")@, ("FP-EXP-0061")@),
        (("92")@, ("FP-EXP-0061")@),
        (("93")@, ("FP-EXP-0061")@),
        (("B4")@, ("FP-EXP-0071")@),
        (("B5")@, ("FP-EXP-0071")@),
        (("B6")@, ("FP-EXP-0071")@),
        (("B7")@, ("FP-EXP-0071")@),
        (("84")@, ("FP-EXP-0081")@),
        (("85")@, ("FP-EXP-0081")@),
        (("86")@, ("FP-EXP-0081")@),
        (("87")@, ("FP-EXP-0081")@),
        (("88")@, ("FP-EXP-0091")@),
        (("89")@, ("FP-EXP-0091")@),
        (("8A")@, ("FP-EXP-0091")@),
        (("8B")@, ("FP-EXP-0091")@),
        (("30")@, ("FP-EXP-1313")@),
        (("31")@, ("FP-EXP-1313")@),
        (("32")@, ("FP-EXP-1313")@),
        (("33")@, ("FP-EXP-1313")@),
    ]
}

/// Board type of the first table entry whose address matches `a` up to ASCII
/// case, scanning from entry `i` on.
pub open spec fn lookup_from(t: Seq<(Seq<char>, Seq<char>)>, a: Seq<char>, i: int) -> Option<
    Seq<char>,
>
    decreases t.len() - i,
{
    if i < 0 || i >= t.len() {
        None
    } else if upper_eq(t[i].0, a) {
        Some(t[i].1)
    } else {
        lookup_from(t, a, i + 1)
    }
}

/// Board type registered for bus address `a`, matched without regard to
/// ASCII case.
pub open spec fn board_type_spec(a: Seq<char>) -> Option<Seq<char>> {
    lookup_from(table_spec(), a, 0)
}

/// The EXP address table as owned strings, in probe order.
pub fn exp_address_table() -> (t: Vec<(String, String)>)
    ensures
        t@.len() == table_spec().len(),
        forall|k: int| 0 <= k < t@.len() ==> (#[trigger] t@[k].0@, t@[k].1@) == table_spec()[k],
{
    let mut v: Vec<(String, String)> = Vec::new();
    v.push((String::from_str("48"), String::from_str("FP-CPU-2000")));
    v.push((String::from_str("D0"), String::from_str("FP-EXP-0051")));
    v.push((String::from_str("D1"), String::from_str("FP-EXP-0051")));
    v.push((String::from_str("D2"), String::from_str("FP-EXP-0051")));
    v.push((String::from_str("D3"), String::from_str("FP-EXP-0051")));
    v.push((String::from_str("90"), String::from_str("FP-EXP-0061")));
    v.push((String::from_str("91"), String::from_str("FP-EXP-0061")));
    v.push((String::from_str("92"), String::from_str("FP-EXP-0061")));
    v.push((String::from_str("93"), String::from_str("FP-EXP-0061")));
    v.push((String::from_str("B4"), String::from_str("FP-EXP-0071")));
    v.push((String::from_str("B5"), String::from_str("FP-EXP-0071")));
    v.push((String::from_str("B6"), String::from_str("FP-EXP-0071")));
    v.push((String::from_str("B7"), String::from_str("FP-EXP-0071")));
    v.push((String::from_str("84"), String::from_str("FP-EXP-0081")));
    v.push((String::from_str("85"), String::from_str("FP-EXP-0081")));
    v.push((String::from_str("86"), String::from_str("FP-EXP-0081")));
    v.push((String::from_str("87"), String::from_str("FP-EXP-0081")));
    v.push((String::from_str("88"), String::from_str("FP-EXP-0091")));
    v.push((String::from_str("89"), String::from_str("FP-EXP-0091")));
    v.push((String::from_str("8A"), String::from_str("FP-EXP-0091")));
    v.push((String::from_str("8B"), String::from_str("FP-EXP-0091")));
    v.push((String::from_str("30"), String::from_str("FP-EXP-1313")));
    v.push((String::from_str("31"), String::from_str("FP-EXP-1313")));
    v.push((String::from_str("32"), String::from_str("FP-EXP-1313")));
    v.push((String::from_str("33"), String::from_str("FP-EXP-1313")));
    v
}

/// Board type registered for the given bus address, matched without regard
/// to ASCII case; the address table is fixed.
pub fn board_type_for_address(address: &str) -> (r: Option<String>)
    ensures
        match r {
            Some(bt) => board_type_spec(address@) == Some(bt@),
            None => board_type_spec(address@) is None,
        },
{
    let t = exp_address_table();
    let n = t.len();
    let mut i: usize = 0;
    while i < n
        invariant
            n == t@.len(),
            n == table_spec().len(),
            forall|k: int| 0 <= k < t@.len() ==> (#[trigger] t@[k].0@, t@[k].1@) == table_spec()[k],
            i <= n,
            board_type_spec(address@) == lookup_from(table_spec(), address@, i as int),
        decreases n - i,
    {
        if crate::strutil::str_eq_ignore_case(t[i].0.as_str(), address) {
            assert(upper_eq(table_spec()[i as int].0, address@));
            return Some(t[i].1.clone());
        }
        assert(!upper_eq(table_spec()[i as int].0, address@));
        i += 1;
    }
    None
}

} // verus!
