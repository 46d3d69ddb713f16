use vstd::prelude::*;
use vstd::string::*;

verus! {

/// The character of a decimal digit.
pub open spec fn digit_char(d: int) -> char {
    if d == 0 { '0' }
    else if d == 1 { '1' }
    else if d == 2 { '2' }
    else if d == 3 { '3' }
    else if d == 4 { '4' }
    else if d == 5 { '5' }
    else if d == 6 { '6' }
    else if d == 7 { '7' }
    else if d == 8 { '8' }
    else { '9' }
}

/// The decimal digits of a natural number, most significant first, without
/// leading zeros.
pub open spec fn nat_digits(n: nat) -> Seq<char>
    decreases n,
{
    if n < 10 {
        seq![digit_char(n as int)]
    } else {
        nat_digits(n / 10) + seq![digit_char((n % 10) as int)]
    }
}

/// The decimal text of an integer, with a leading `-` when it is negative.
pub open spec fn decimal(n: int) -> Seq<char> {
    if n < 0 {
        seq!['-'] + nat_digits((-n) as nat)
    } else {
        nat_digits(n as nat)
    }
}

/// The parts separated by commas.
pub open spec fn joined(parts: Seq<Seq<char>>) -> Seq<char>
    decreases parts.len(),
{
    if parts.len() == 0 {
        Seq::empty()
    } else if parts.len() == 1 {
        parts[0]
    } else {
        joined(parts.drop_last()) + seq![','] + parts.last()
    }
}

/// The parts separated by commas and enclosed in brackets.
pub open spec fn bracketed(parts: Seq<Seq<char>>) -> Seq<char> {
    seq!['['] + joined(parts) + seq![']']
}

/// The compact JSON text of one slot: its decimal value, or `null`.
pub open spec fn slot_text(slot: Option<i32>) -> Seq<char> {
    match slot {
        Some(v) => decimal(v as int),
        None => seq!['n', 'u', 'l', 'l'],
    }
}

/// The compact JSON text of an array of optional integers.
pub open spec fn slots_text(slots: Seq<Option<i32>>) -> Seq<char> {
    bracketed(slots.map_values(|s: Option<i32>| slot_text(s)))
}

/// The compact JSON text of an array of integers.
pub open spec fn ints_text(vals: Seq<i32>) -> Seq<char> {
    bracketed(vals.map_values(|v: i32| decimal(v as int)))
}

/// Joins the texts with commas between them and brackets around them.
pub fn join_array(arr: Vec<String>) -> (r: String)
    ensures
        r@ == bracketed(arr@.map_values(|s: String| s@)),
{
    let mut r = String::from_str("[");
    let mut i: usize = 0;
    proof {
        reveal_strlit("[");
        assert(arr@.take(0).map_values(|s: String| s@) =~= Seq::<Seq<char>>::empty());
    }
    while i < arr.len()
        invariant
            i <= arr.len(),
            r@ == seq!['['] + joined(arr@.take(i as int).map_values(|s: String| s@)),
        decreases arr.len() - i,
    {
        let ghost before = arr@.take(i as int).map_values(|s: String| s@);
        let ghost after = arr@.take(i + 1).map_values(|s: String| s@);
        assert(after.drop_last() =~= before);
        if i > 0 {
            r.append(",");
        }
        r.append(arr[i].as_str());
        proof {
            reveal_strlit(",");
        }
        assert(r@ == seq!['['] + joined(after));
        i = i + 1;
    }
    r.append("]");
    proof {
        reveal_strlit("]");
        assert(arr@.take(arr.len() as int) =~= arr@);
    }
    r
}

} // verus!
