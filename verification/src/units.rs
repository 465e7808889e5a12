//! Byte sizes in binary (IEC) units.
use crate::natural::{decimal, Natural};
use vstd::prelude::*;

verus! {

/// The name of the binary unit `1024^unit` bytes.
pub open spec fn unit_name(unit: nat) -> Seq<char> {
    if unit == 0 { "B"@ }
    else if unit == 1 { "KiB"@ }
    else if unit == 2 { "MiB"@ }
    else if unit == 3 { "GiB"@ }
    else if unit == 4 { "TiB"@ }
    else if unit == 5 { "PiB"@ }
    else { "EiB"@ }
}

/// `value` bytes in the largest binary unit from `unit` on, up to EiB, that
/// leaves a value of at least one: the value (rounded down) and the unit.
pub open spec fn scale(value: nat, unit: nat) -> (nat, nat)
    decreases 6 - unit,
{
    if value >= 1024 && unit < 6 {
        scale(value / 1024, unit + 1)
    } else {
        (value, unit)
    }
}

/// A byte count in binary units: the value rounded down, a space, the unit.
pub open spec fn spec_format_binary(bytes: nat) -> Seq<char> {
    let (value, unit) = scale(bytes, 0);
    decimal(value) + " "@ + unit_name(unit)
}

/// Scaling to binary units: the unit stays within EiB and does not go below
/// the start, the value is below 1024 unless the unit is EiB, and the value
/// is the byte count divided by 1024 once per unit step, rounded down.
pub proof fn law_binary_scale(n: nat, unit: nat)
    requires
        unit <= 6,
    ensures
        unit <= scale(n, unit).1 <= 6,
        scale(n, unit).0 < 1024 || scale(n, unit).1 == 6,
        scale(n, unit).0 as int == n as int / vstd::arithmetic::power::pow(1024, (scale(n, unit).1 - unit) as nat),
    decreases 6 - unit,
{
    reveal(vstd::arithmetic::power::pow);
    if n >= 1024 && unit < 6 {
        law_binary_scale(n / 1024, unit + 1);
        let (v, w) = scale(n / 1024, unit + 1);
        let k = (w - unit - 1) as nat;
        vstd::arithmetic::power::lemma_pow_positive(1024, k);
        vstd::arithmetic::div_mod::lemma_div_denominator(n as int, 1024, vstd::arithmetic::power::pow(1024, k));
        assert((w - unit) as nat == k + 1);
        assert(vstd::arithmetic::power::pow(1024, k + 1) == 1024 * vstd::arithmetic::power::pow(1024, k));
        assert(v as int == (n as int / 1024) / vstd::arithmetic::power::pow(1024, k));
    } else {
        assert(vstd::arithmetic::power::pow(1024, 0) == 1);
    }
}

fn unit_str(unit: usize) -> (s: &'static str)
    requires
        unit <= 6,
    ensures
        s@ == unit_name(unit as nat),
{
    proof {
        reveal_strlit("B");
        reveal_strlit("KiB");
        reveal_strlit("MiB");
        reveal_strlit("GiB");
        reveal_strlit("TiB");
        reveal_strlit("PiB");
        reveal_strlit("EiB");
    }
    if unit == 0 { "B" }
    else if unit == 1 { "KiB" }
    else if unit == 2 { "MiB" }
    else if unit == 3 { "GiB" }
    else if unit == 4 { "TiB" }
    else if unit == 5 { "PiB" }
    else { "EiB" }
}

/// A byte count in binary units, such as "1 KiB" for 1024 or "1023 B".
pub fn format_binary(bytes: &Natural) -> (s: String)
    ensures
        s@ == spec_format_binary(bytes@),
{
    let base = Natural::from_usize(1024);
    let mut unit: usize = 0;
    let mut value = bytes.copy();
    while value.ge(&base) && unit + 1 < 7
        invariant
            unit <= 6,
            base@ == 1024,
            scale(value@, unit as nat) == scale(bytes@, 0),
        decreases 6 - unit,
    {
        value = value.div(&base);
        unit = unit + 1;
    }
    let mut s = value.to_decimal();
    s.append(" ");
    s.append(unit_str(unit));
    proof { reveal_strlit(" "); }
    s
}

} // verus!
