use crate::error::join;
use vstd::prelude::*;

verus! {

/// The decimal digits of a natural number.
pub open spec fn digits(n: nat) -> Seq<char>
    decreases n,
{
    if n < 10 {
        seq![((48 + n) as u8) as char]
    } else {
        digits(n / 10).push(((48 + n % 10) as u8) as char)
    }
}

/// An integer in decimal, with a leading `-` when negative.
pub open spec fn decimal(n: int) -> Seq<char> {
    if n < 0 {
        seq!['-'] + digits((-n) as nat)
    } else {
        digits(n as nat)
    }
}

/// The decimal digit `d` as text.
fn digit_text(d: u64) -> (r: &'static str)
    requires
        d < 10,
    ensures
        r@ == seq![((48 + d) as u8) as char],
{
    if d == 0 {
        proof { reveal_strlit("0"); }
        "0"
    } else if d == 1 {
        proof { reveal_strlit("1"); }
        "1"
    } else if d == 2 {
        proof { reveal_strlit("2"); }
        "2"
    } else if d == 3 {
        proof { reveal_strlit("3"); }
        "3"
    } else if d == 4 {
        proof { reveal_strlit("4"); }
        "4"
    } else if d == 5 {
        proof { reveal_strlit("5"); }
        "5"
    } else if d == 6 {
        proof { reveal_strlit("6"); }
        "6"
    } else if d == 7 {
        proof { reveal_strlit("7"); }
        "7"
    } else if d == 8 {
        proof { reveal_strlit("8"); }
        "8"
    } else {
        proof { reveal_strlit("9"); }
        "9"
    }
}

/// The number in decimal, without leading zeros, as `u64::to_string` writes it.
pub fn u64_text(n: u64) -> (r: String)
    ensures
        r@ == decimal(n as int),
    decreases n,
{
    if n < 10 {
        proof { reveal_strlit(""); }
        let r = join("", digit_text(n));
        assert(r@ =~= digits(n as nat));
        r
    } else {
        let head = u64_text(n / 10);
        let r = join(head.as_str(), digit_text(n % 10));
        assert(r@ =~= digits((n / 10) as nat).push(((48 + n % 10) as u8) as char));
        r
    }
}

/// The integer in decimal, with a leading `-` when negative and no leading
/// zeros, as `i64::to_string` writes it.
pub fn int_text(n: i64) -> (r: String)
    ensures
        r@ == decimal(n as int),
{
    if n < 0 {
        let magnitude: u64 = (-(n as i128)) as u64;
        let tail = u64_text(magnitude);
        proof { reveal_strlit("-"); }
        join("-", tail.as_str())
    } else {
        u64_text(n as u64)
    }
}

/// Names joined by `", "`.
pub open spec fn comma_list(names: Seq<Seq<char>>) -> Seq<char>
    decreases names.len(),
{
    if names.len() == 0 {
        Seq::empty()
    } else if names.len() == 1 {
        names[0]
    } else {
        comma_list(names.drop_last()) + ", "@ + names.last()
    }
}

/// Joins the names with `", "`.
pub fn join_comma(names: &Vec<String>) -> (r: String)
    ensures
        r@ == comma_list(names@.map_values(|s: String| s@)),
{
    let ghost all = names@.map_values(|s: String| s@);
    let mut out = String::new();
    let mut i: usize = 0;
    assert(all.take(0) =~= Seq::<Seq<char>>::empty());
    while i < names.len()
        invariant
            all == names@.map_values(|s: String| s@),
            i <= names@.len(),
            out@ == comma_list(all.take(i as int)),
        decreases names@.len() - i,
    {
        assert(all.take(i + 1).drop_last() =~= all.take(i as int));
        if i == 0 {
            out = names[i].clone();
            assert(all.take(1) =~= seq![all[0]]);
        } else {
            let with_sep = join(out.as_str(), ", ");
            out = join(with_sep.as_str(), names[i].as_str());
            assert(out@ =~= comma_list(all.take(i as int)) + ", "@ + all[i as int]);
        }
        i = i + 1;
    }
    assert(all.take(i as int) =~= all);
    out
}

} // verus!
