//! Byte counts written with units, such as `4b`, `1KiB` or `2megabytes`.
use vstd::prelude::*;

verus! {

/// `c` is an ASCII digit.
pub open spec fn is_digit(c: char) -> bool {
    '0' <= c && c <= '9'
}

/// The number of ASCII digits at the start of `s`.
pub open spec fn leading_digits(s: Seq<char>) -> nat
    decreases s.len(),
{
    if s.len() == 0 || !is_digit(s[0]) {
        0
    } else {
        1 + leading_digits(s.drop_first())
    }
}

/// The value of a string of decimal digits.
pub open spec fn decimal_value(ds: Seq<char>) -> nat
    decreases ds.len(),
{
    if ds.len() == 0 {
        0
    } else {
        decimal_value(ds.drop_last()) * 10 + (ds.last() as nat - '0' as nat) as nat
    }
}

/// `c` with ASCII upper case letters made lower case.
pub open spec fn ascii_lower(c: char) -> char {
    if 'A' <= c && c <= 'Z' { ((c as u32) + 32) as char } else { c }
}

/// The bytes that one of a unit stands for, the unit written in lower case:
/// none or a byte; SI units, base 10; IEC units, base 2.
pub open spec fn unit_multiplier(unit: Seq<char>) -> Option<nat> {
    if unit == ""@ || unit == "b"@ || unit == "byte"@ || unit == "bytes"@ {
        Some(1)
    } else if unit == "kb"@ || unit == "kilobyte"@ || unit == "kilobytes"@ {
        Some(1000)
    } else if unit == "mb"@ || unit == "megabyte"@ || unit == "megabytes"@ {
        Some(1000000)
    } else if unit == "gb"@ || unit == "gigabyte"@ || unit == "gigabytes"@ {
        Some(1000000000)
    } else if unit == "tb"@ || unit == "terabyte"@ || unit == "terabytes"@ {
        Some(1000000000000)
    } else if unit == "kib"@ || unit == "kibibyte"@ || unit == "kibibytes"@ {
        Some(1024)
    } else if unit == "mib"@ || unit == "mebibyte"@ || unit == "mebibytes"@ {
        Some(1048576)
    } else if unit == "gib"@ || unit == "gibibyte"@ || unit == "gibibytes"@ {
        Some(1073741824)
    } else if unit == "tib"@ || unit == "tebibyte"@ || unit == "tebibytes"@ {
        Some(1099511627776)
    } else {
        None
    }
}

/// The byte count that `s` writes: decimal digits, then a unit in any case;
/// `None` where `s` is no such text or the count does not fit in `usize`.
pub open spec fn spec_byte_size(s: Seq<char>) -> Option<nat> {
    let k = leading_digits(s);
    if k == 0 {
        None
    } else {
        match unit_multiplier(s.skip(k as int).map_values(|c: char| ascii_lower(c))) {
            None => None,
            Some(m) => {
                let v = decimal_value(s.take(k as int)) * m;
                if v <= usize::MAX { Some(v) } else { None }
            },
        }
    }
}

/// The unit names, in lower case, of the `i`-th decimal (SI) prefix: kilo,
/// mega, giga, tera.
pub open spec fn si_names(i: nat) -> Seq<Seq<char>> {
    if i == 1 {
        seq!["kb"@, "kilobyte"@, "kilobytes"@]
    } else if i == 2 {
        seq!["mb"@, "megabyte"@, "megabytes"@]
    } else if i == 3 {
        seq!["gb"@, "gigabyte"@, "gigabytes"@]
    } else {
        seq!["tb"@, "terabyte"@, "terabytes"@]
    }
}

/// The unit names, in lower case, of the `i`-th binary (IEC) prefix: kibi,
/// mebi, gibi, tebi.
pub open spec fn iec_names(i: nat) -> Seq<Seq<char>> {
    if i == 1 {
        seq!["kib"@, "kibibyte"@, "kibibytes"@]
    } else if i == 2 {
        seq!["mib"@, "mebibyte"@, "mebibytes"@]
    } else if i == 3 {
        seq!["gib"@, "gibibyte"@, "gibibytes"@]
    } else {
        seq!["tib"@, "tebibyte"@, "tebibytes"@]
    }
}

/// Units scale by powers: each name of the `i`-th SI prefix multiplies by
/// 1000 to the `i`, each name of the `i`-th IEC prefix by 1024 to the `i`,
/// and no unit or a byte unit by one.
pub proof fn law_unit_powers(i: nat, j: int)
    requires
        1 <= i <= 4,
        0 <= j < 3,
    ensures
        unit_multiplier(si_names(i)[j]) == Some(vstd::arithmetic::power::pow(1000, i) as nat),
        unit_multiplier(iec_names(i)[j]) == Some(vstd::arithmetic::power::pow(1024, i) as nat),
        unit_multiplier(seq![""@, "b"@, "byte"@, "bytes"@][j + 1]) == Some(1nat),
        unit_multiplier(""@) == Some(1nat),
{
    reveal_strlit("");
    reveal_strlit("b");
    reveal_strlit("byte");
    reveal_strlit("bytes");
    reveal_strlit("kb");
    reveal_strlit("kilobyte");
    reveal_strlit("kilobytes");
    reveal_strlit("mb");
    reveal_strlit("megabyte");
    reveal_strlit("megabytes");
    reveal_strlit("gb");
    reveal_strlit("gigabyte");
    reveal_strlit("gigabytes");
    reveal_strlit("tb");
    reveal_strlit("terabyte");
    reveal_strlit("terabytes");
    reveal_strlit("kib");
    reveal_strlit("kibibyte");
    reveal_strlit("kibibytes");
    reveal_strlit("mib");
    reveal_strlit("mebibyte");
    reveal_strlit("mebibytes");
    reveal_strlit("gib");
    reveal_strlit("gibibyte");
    reveal_strlit("gibibytes");
    reveal_strlit("tib");
    reveal_strlit("tebibyte");
    reveal_strlit("tebibytes");
    reveal_with_fuel(vstd::arithmetic::power::pow, 5);
    assert(vstd::arithmetic::power::pow(1000, 1) == 1000);
    assert(vstd::arithmetic::power::pow(1000, 2) == 1000000);
    assert(vstd::arithmetic::power::pow(1000, 3) == 1000000000);
    assert(vstd::arithmetic::power::pow(1000, 4) == 1000000000000);
    assert(vstd::arithmetic::power::pow(1024, 1) == 1024);
    assert(vstd::arithmetic::power::pow(1024, 2) == 1048576);
    assert(vstd::arithmetic::power::pow(1024, 3) == 1073741824);
    assert(vstd::arithmetic::power::pow(1024, 4) == 1099511627776);
    assert(""@.len() == 0 && "b"@.len() == 1 && "byte"@.len() == 4 && "bytes"@.len() == 5);
    assert("kb"@.len() == 2 && "kb"@[0] == 'k' && "kb"@[1] == 'b');
    assert("kilobyte"@.len() == 8 && "kilobyte"@[0] == 'k' && "kilobyte"@[1] == 'i' && "kilobyte"@[2] == 'l');
    assert("kilobytes"@.len() == 9 && "kilobytes"@[0] == 'k' && "kilobytes"@[1] == 'i' && "kilobytes"@[2] == 'l');
    assert("mb"@.len() == 2 && "mb"@[0] == 'm' && "mb"@[1] == 'b');
    assert("megabyte"@.len() == 8 && "megabyte"@[0] == 'm' && "megabyte"@[1] == 'e' && "megabyte"@[2] == 'g');
    assert("megabytes"@.len() == 9 && "megabytes"@[0] == 'm' && "megabytes"@[1] == 'e' && "megabytes"@[2] == 'g');
    assert("gb"@.len() == 2 && "gb"@[0] == 'g' && "gb"@[1] == 'b');
    assert("gigabyte"@.len() == 8 && "gigabyte"@[0] == 'g' && "gigabyte"@[1] == 'i' && "gigabyte"@[2] == 'g');
    assert("gigabytes"@.len() == 9 && "gigabytes"@[0] == 'g' && "gigabytes"@[1] == 'i' && "gigabytes"@[2] == 'g');
    assert("tb"@.len() == 2 && "tb"@[0] == 't' && "tb"@[1] == 'b');
    assert("terabyte"@.len() == 8 && "terabyte"@[0] == 't' && "terabyte"@[1] == 'e' && "terabyte"@[2] == 'r');
    assert("terabytes"@.len() == 9 && "terabytes"@[0] == 't' && "terabytes"@[1] == 'e' && "terabytes"@[2] == 'r');
    assert("kib"@.len() == 3 && "kib"@[0] == 'k' && "kib"@[1] == 'i' && "kib"@[2] == 'b');
    assert("kibibyte"@.len() == 8 && "kibibyte"@[0] == 'k' && "kibibyte"@[1] == 'i' && "kibibyte"@[2] == 'b');
    assert("kibibytes"@.len() == 9 && "kibibytes"@[0] == 'k' && "kibibytes"@[1] == 'i' && "kibibytes"@[2] == 'b');
    assert("mib"@.len() == 3 && "mib"@[0] == 'm' && "mib"@[1] == 'i' && "mib"@[2] == 'b');
    assert("mebibyte"@.len() == 8 && "mebibyte"@[0] == 'm' && "mebibyte"@[1] == 'e' && "mebibyte"@[2] == 'b');
    assert("mebibytes"@.len() == 9 && "mebibytes"@[0] == 'm' && "mebibytes"@[1] == 'e' && "mebibytes"@[2] == 'b');
    assert("gib"@.len() == 3 && "gib"@[0] == 'g' && "gib"@[1] == 'i' && "gib"@[2] == 'b');
    assert("gibibyte"@.len() == 8 && "gibibyte"@[0] == 'g' && "gibibyte"@[1] == 'i' && "gibibyte"@[2] == 'b');
    assert("gibibytes"@.len() == 9 && "gibibytes"@[0] == 'g' && "gibibytes"@[1] == 'i' && "gibibytes"@[2] == 'b');
    assert("tib"@.len() == 3 && "tib"@[0] == 't' && "tib"@[1] == 'i' && "tib"@[2] == 'b');
    assert("tebibyte"@.len() == 8 && "tebibyte"@[0] == 't' && "tebibyte"@[1] == 'e' && "tebibyte"@[2] == 'b');
    assert("tebibytes"@.len() == 9 && "tebibytes"@[0] == 't' && "tebibytes"@[1] == 'e' && "tebibytes"@[2] == 'b');
    assert(unit_multiplier("kb"@) == Some(1000nat));
    assert(unit_multiplier("kilobyte"@) == Some(1000nat));
    assert(unit_multiplier("kilobytes"@) == Some(1000nat));
    assert(unit_multiplier("kib"@) == Some(1024nat));
    assert(unit_multiplier("kibibyte"@) == Some(1024nat));
    assert(unit_multiplier("kibibytes"@) == Some(1024nat));
    assert(unit_multiplier("mb"@) == Some(1000000nat));
    assert(unit_multiplier("megabyte"@) == Some(1000000nat));
    assert(unit_multiplier("megabytes"@) == Some(1000000nat));
    assert(unit_multiplier("mib"@) == Some(1048576nat));
    assert(unit_multiplier("mebibyte"@) == Some(1048576nat));
    assert(unit_multiplier("mebibytes"@) == Some(1048576nat));
    assert(unit_multiplier("gb"@) == Some(1000000000nat));
    assert(unit_multiplier("gigabyte"@) == Some(1000000000nat));
    assert(unit_multiplier("gigabytes"@) == Some(1000000000nat));
    assert(unit_multiplier("gib"@) == Some(1073741824nat));
    assert(unit_multiplier("gibibyte"@) == Some(1073741824nat));
    assert(unit_multiplier("gibibytes"@) == Some(1073741824nat));
    assert(unit_multiplier("tb"@) == Some(1000000000000nat));
    assert(unit_multiplier("terabyte"@) == Some(1000000000000nat));
    assert(unit_multiplier("terabytes"@) == Some(1000000000000nat));
    assert(unit_multiplier("tib"@) == Some(1099511627776nat));
    assert(unit_multiplier("tebibyte"@) == Some(1099511627776nat));
    assert(unit_multiplier("tebibytes"@) == Some(1099511627776nat));
}

/// The decimal digit for `k` below ten.
pub open spec fn digit_char(k: nat) -> char {
    ((48 + k) as u32) as char
}

/// The decimal text of `n`, without leading zeros.
pub open spec fn decimal_text(n: nat) -> Seq<char>
    decreases n,
{
    if n < 10 { seq![digit_char(n)] } else { decimal_text(n / 10).push(digit_char(n % 10)) }
}

proof fn lemma_decimal_text(n: nat)
    ensures
        decimal_value(decimal_text(n)) == n,
        decimal_text(n).len() > 0,
        forall|i: int| 0 <= i < decimal_text(n).len() ==> is_digit(#[trigger] decimal_text(n)[i]),
    decreases n,
{
    if n < 10 {
        let t = decimal_text(n);
        assert(t.drop_last() =~= Seq::<char>::empty());
        assert((digit_char(n) as u32) == 48 + n);
        assert(t.last() == digit_char(n));
        assert((t.last() as nat) == 48 + n);
        assert(('0' as nat) == 48);
        assert(decimal_value(t) == decimal_value(t.drop_last()) * 10 + (t.last() as nat - '0' as nat) as nat);
        assert(decimal_value(Seq::<char>::empty()) == 0);
    } else {
        lemma_decimal_text(n / 10);
        let t = decimal_text(n);
        let p = decimal_text(n / 10);
        assert(t.drop_last() =~= p);
        assert((digit_char(n % 10) as u32) == 48 + n % 10);
        assert(t.last() == digit_char(n % 10));
        assert((t.last() as nat) == 48 + n % 10);
        assert(('0' as nat) == 48);
        assert(decimal_value(t) == decimal_value(p) * 10 + (t.last() as nat - '0' as nat) as nat);
        assert(n == (n / 10) * 10 + n % 10);
        assert forall|i: int| 0 <= i < t.len() implies is_digit(#[trigger] t[i]) by {
            if i < p.len() {
                assert(t[i] == p[i]);
            }
        }
    }
}

/// A count written as the decimal text of `n` followed by a unit whose lower
/// case form multiplies by `m` reads as `n` times `m` bytes, where that fits
/// in `usize`, and as nothing otherwise.
pub proof fn law_count_with_unit(n: nat, unit: Seq<char>, m: nat)
    requires
        unit_multiplier(unit.map_values(|c: char| ascii_lower(c))) == Some(m),
        unit.len() > 0 ==> !is_digit(unit[0]),
    ensures
        spec_byte_size(decimal_text(n) + unit) == if n * m <= usize::MAX { Some(n * m) } else { None },
{
    let ds = decimal_text(n);
    let s = ds + unit;
    lemma_decimal_text(n);
    assert forall|j: int| 0 <= j < ds.len() implies is_digit(s[j]) by {
        assert(s[j] == ds[j]);
    }
    lemma_leading_digits(s, ds.len());
    if ds.len() < s.len() {
        assert(s[ds.len() as int] == unit[0]);
    }
    assert(leading_digits(s) == ds.len());
    assert(s.take(ds.len() as int) =~= ds);
    assert(s.skip(ds.len() as int) =~= unit);
}

/// A byte count given on the command line.
#[derive(Debug, Clone, Copy, PartialEq, Eq, Structural)]
pub struct ByteSize(pub usize);

proof fn lemma_leading_digits(s: Seq<char>, i: nat)
    requires
        i <= s.len(),
        forall|j: int| 0 <= j < i ==> is_digit(s[j]),
    ensures
        leading_digits(s) >= i,
        i < s.len() && !is_digit(s[i as int]) ==> leading_digits(s) == i,
        i == s.len() ==> leading_digits(s) == i,
    decreases i,
{
    if i > 0 {
        lemma_leading_digits(s.drop_first(), (i - 1) as nat);
    } else if s.len() > 0 && !is_digit(s[0]) {
    }
}

fn unit_value(unit: &String) -> (m: Option<u64>)
    ensures
        match m {
            Some(v) => unit_multiplier(unit@) == Some(v as nat),
            None => unit_multiplier(unit@) is None,
        },
{
    proof {
        reveal_strlit("");
        reveal_strlit("b");
        reveal_strlit("byte");
        reveal_strlit("bytes");
        reveal_strlit("kb");
        reveal_strlit("kilobyte");
        reveal_strlit("kilobytes");
        reveal_strlit("mb");
        reveal_strlit("megabyte");
        reveal_strlit("megabytes");
        reveal_strlit("gb");
        reveal_strlit("gigabyte");
        reveal_strlit("gigabytes");
        reveal_strlit("tb");
        reveal_strlit("terabyte");
        reveal_strlit("terabytes");
        reveal_strlit("kib");
        reveal_strlit("kibibyte");
        reveal_strlit("kibibytes");
        reveal_strlit("mib");
        reveal_strlit("mebibyte");
        reveal_strlit("mebibytes");
        reveal_strlit("gib");
        reveal_strlit("gibibyte");
        reveal_strlit("gibibytes");
        reveal_strlit("tib");
        reveal_strlit("tebibyte");
        reveal_strlit("tebibytes");
    }
    let is = |name: &str| -> (b: bool)
        ensures
            b == (unit@ == name@),
        { *unit == String::from_str(name) };
    if is("") || is("b") || is("byte") || is("bytes") {
        Some(1)
    } else if is("kb") || is("kilobyte") || is("kilobytes") {
        Some(1000)
    } else if is("mb") || is("megabyte") || is("megabytes") {
        Some(1000000)
    } else if is("gb") || is("gigabyte") || is("gigabytes") {
        Some(1000000000)
    } else if is("tb") || is("terabyte") || is("terabytes") {
        Some(1000000000000)
    } else if is("kib") || is("kibibyte") || is("kibibytes") {
        Some(1024)
    } else if is("mib") || is("mebibyte") || is("mebibytes") {
        Some(1048576)
    } else if is("gib") || is("gibibyte") || is("gibibytes") {
        Some(1073741824)
    } else if is("tib") || is("tebibyte") || is("tebibytes") {
        Some(1099511627776)
    } else {
        None
    }
}

/// `String::push`: appends one character.
#[verifier::external_body]
pub(crate) fn push_char(s: &mut String, c: char)
    ensures
        final(s)@ == old(s)@.push(c),
{
    s.push(c);
}

impl ByteSize {
    /// Reads a byte count such as `4b`, `1KiB` or `2megabytes`.
    pub fn parse(text: &str) -> (res: Option<ByteSize>)
        ensures
            match res {
                Some(b) => spec_byte_size(text@) == Some(b.0 as nat),
                None => spec_byte_size(text@) is None,
            },
    {
        let n = text.unicode_len();
        let ghost s = text@;
        let mut i: usize = 0;
        let mut value: u128 = 0;
        let mut overflow = false;
        while i < n && is_ascii_digit(text.get_char(i))
            invariant
                i <= n,
                n == s.len(),
                s == text@,
                forall|j: int| 0 <= j < i ==> is_digit(s[j]),
                !overflow ==> value as nat == decimal_value(s.take(i as int)),
                overflow ==> decimal_value(s.take(i as int)) > usize::MAX,
            decreases n - i,
        {
            let c = text.get_char(i);
            let d = (c as u32 - '0' as u32) as u128;
            assert(s.take(i + 1).drop_last() =~= s.take(i as int));
            if !overflow && value <= usize::MAX as u128 {
                value = value * 10 + d;
            } else {
                overflow = true;
            }
            i = i + 1;
        }
        proof { lemma_leading_digits(s, i as nat); }
        if i == 0 {
            return None;
        }
        let mut unit = String::new();
        let mut j: usize = i;
        while j < n
            invariant
                i <= j <= n,
                n == s.len(),
                s == text@,
                unit@ == s.skip(i as int).take(j - i).map_values(|c: char| ascii_lower(c)),
            decreases n - j,
        {
            let c = text.get_char(j);
            let lower = if 'A' <= c && c <= 'Z' { char_from_ascii((c as u8) + 32) } else { c };
            push_char(&mut unit, lower);
            j = j + 1;
            assert(unit@ =~= s.skip(i as int).take(j - i).map_values(|c: char| ascii_lower(c)));
        }
        assert(s.skip(i as int).take(n - i) =~= s.skip(i as int));
        let m = match unit_value(&unit) {
            Some(m) => m,
            None => return None,
        };
        if overflow || value > usize::MAX as u128 {
            assert(decimal_value(s.take(i as int)) * m >= decimal_value(s.take(i as int))) by (nonlinear_arith)
                requires m >= 1;
            return None;
        }
        assert(m <= 1099511627776);
        assert(value * (m as u128) <= 18446744073709551615 * 1099511627776) by (nonlinear_arith)
            requires
                value <= 18446744073709551615,
                m <= 1099511627776;
        let total = value * (m as u128);
        if total > usize::MAX as u128 {
            None
        } else {
            Some(ByteSize(total as usize))
        }
    }
}

fn is_ascii_digit(c: char) -> (b: bool)
    ensures
        b == is_digit(c),
{
    '0' <= c && c <= '9'
}

/// The ASCII character with code `b`.
fn char_from_ascii(b: u8) -> (c: char)
    requires
        b < 128,
    ensures
        c as u32 == b as u32,
{
    b as char
}

} // verus!
