//! Size-literal parser: turns a human-readable size such as `"2MiB"` into an
//! exact byte count. The grammar is `<decimal-digits><unit>` with the unit one
//! of the binary (IEC) prefixes `B`, `KiB`, `MiB`, `GiB`, matched
//! case-sensitively.

use vstd::prelude::*;

verus! {

/// Why a size literal was rejected.
#[derive(Clone, Copy, Debug, PartialEq, Eq, Structural)]
pub enum ConfigError {
    /// The literal does not begin with a decimal numeric part.
    MalformedNumber,
    /// The text after the numeric part is not one of the four IEC units.
    UnknownUnit,
    /// The byte count does not fit in an unsigned 64-bit integer.
    Overflow,
}

/// The four recognized binary (IEC) units.
#[derive(Clone, Copy, Debug, PartialEq, Eq, Structural)]
pub enum SizeUnit {
    Bytes,
    Kibibytes,
    Mebibytes,
    Gibibytes,
}

/// Byte multiplier of a unit.
pub open spec fn multiplier(u: SizeUnit) -> nat {
    match u {
        SizeUnit::Bytes => 1,
        SizeUnit::Kibibytes => 1024,
        SizeUnit::Mebibytes => 1048576,
        SizeUnit::Gibibytes => 1073741824,
    }
}

/// Is `c` a decimal digit?
pub open spec fn is_digit_char(c: char) -> bool {
    '0' as u32 <= c as u32 && c as u32 <= '9' as u32
}

/// Numeric value of one decimal digit.
pub open spec fn digit_value(c: char) -> nat {
    (c as u32 - '0' as u32) as nat
}

/// Value of a string of decimal digits, most significant digit first.
pub open spec fn digits_value(s: Seq<char>) -> nat
    decreases s.len(),
{
    if s.len() == 0 {
        0
    } else {
        digits_value(s.drop_last()) * 10 + digit_value(s.last())
    }
}

/// Length of the longest prefix of `s` made of decimal digits.
pub open spec fn num_len(s: Seq<char>) -> nat
    decreases s.len(),
{
    if s.len() == 0 || !is_digit_char(s[0]) {
        0
    } else {
        1 + num_len(s.drop_first())
    }
}

/// The unit denoted by `s`, if any.
pub open spec fn spec_unit_of(s: Seq<char>) -> Option<SizeUnit> {
    if s =~= seq!['B'] {
        Some(SizeUnit::Bytes)
    } else if s =~= seq!['K', 'i', 'B'] {
        Some(SizeUnit::Kibibytes)
    } else if s =~= seq!['M', 'i', 'B'] {
        Some(SizeUnit::Mebibytes)
    } else if s =~= seq!['G', 'i', 'B'] {
        Some(SizeUnit::Gibibytes)
    } else {
        None
    }
}

/// What parsing a size literal yields: the numeric part times the unit's
/// multiplier, or the error that names what is wrong with the literal.
pub open spec fn spec_parse_size(s: Seq<char>) -> Result<u64, ConfigError> {
    let n: int = num_len(s) as int;
    if n == 0 {
        Err(ConfigError::MalformedNumber)
    } else {
        match spec_unit_of(s.skip(n)) {
            None => Err(ConfigError::UnknownUnit),
            Some(u) => {
                let v: nat = digits_value(s.take(n)) * multiplier(u);
                if v > u64::MAX {
                    Err(ConfigError::Overflow)
                } else {
                    Ok(v as u64)
                }
            },
        }
    }
}

/// `num_len` is the unique split point: if everything before `i` is a digit
/// and position `i` (when present) is not, then `num_len(s) == i`.
proof fn lemma_num_len_from_scan(s: Seq<char>, i: int)
    requires
        0 <= i <= s.len(),
        forall|j: int| 0 <= j < i ==> is_digit_char(s[j]),
        i < s.len() ==> !is_digit_char(s[i]),
    ensures
        num_len(s) == i,
    decreases s.len(),
{
    if i == 0 {
    } else {
        assert(is_digit_char(s[0]));
        let t = s.drop_first();
        assert forall|j: int| 0 <= j < i - 1 implies is_digit_char(t[j]) by {
            assert(t[j] == s[j + 1]);
        }
        assert(i - 1 < t.len() ==> !is_digit_char(t[i - 1])) by {
            if i - 1 < t.len() {
                assert(t[i - 1] == s[i]);
            }
        }
        lemma_num_len_from_scan(t, i - 1);
    }
}

/// The value of a digit string never shrinks as the prefix grows.
proof fn lemma_digits_value_monotone(s: Seq<char>, i: int, j: int)
    requires
        0 <= i <= j <= s.len(),
    ensures
        digits_value(s.take(i)) <= digits_value(s.take(j)),
    decreases j - i,
{
    if i < j {
        lemma_digits_value_monotone(s, i, j - 1);
        let p = s.take(j);
        assert(p.drop_last() =~= s.take(j - 1));
        assert(digits_value(s.take(j)) == digits_value(s.take(j - 1)) * 10 + digit_value(p.last()));
    }
}

/// For every valid size literal, the parsed byte count is exactly the numeric
/// part times the unit's multiplier.
pub proof fn lemma_parse_size_exact(s: Seq<char>)
    requires
        num_len(s) > 0,
        spec_unit_of(s.skip(num_len(s) as int)) is Some,
        digits_value(s.take(num_len(s) as int)) * multiplier(
            spec_unit_of(s.skip(num_len(s) as int)).unwrap(),
        ) <= u64::MAX,
    ensures
        spec_parse_size(s) == Ok::<u64, ConfigError>(
            (digits_value(s.take(num_len(s) as int)) * multiplier(
                spec_unit_of(s.skip(num_len(s) as int)).unwrap(),
            )) as u64,
        ),
{
}

/// Exact multiplier of a unit as a machine integer.
pub fn unit_multiplier(u: SizeUnit) -> (m: u64)
    ensures
        m as nat == multiplier(u),
{
    match u {
        SizeUnit::Bytes => 1,
        SizeUnit::Kibibytes => 1024,
        SizeUnit::Mebibytes => 1048576,
        SizeUnit::Gibibytes => 1073741824,
    }
}

/// Parse a size literal of the form `<decimal-digits><unit>` into a byte
/// count, reporting exactly which part of the literal is wrong otherwise.
pub fn size_to_number(file_size: String) -> (r: Result<u64, ConfigError>)
    ensures
        r == spec_parse_size(file_size@),
{
    let s: &str = file_size.as_str();
    let len: usize = s.unicode_len();

    // Find the end of the decimal numeric part.
    let mut i: usize = 0;
    loop
        invariant
            i <= len,
            len == s@.len(),
            forall|j: int| 0 <= j < i ==> is_digit_char(s@[j]),
        ensures
            i <= len,
            len == s@.len(),
            forall|j: int| 0 <= j < i ==> is_digit_char(s@[j]),
            i < len ==> !is_digit_char(s@[i as int]),
        decreases len - i,
    {
        if i >= len {
            break;
        }
        let c = s.get_char(i);
        let cu: u32 = c as u32;
        if cu < '0' as u32 || cu > '9' as u32 {
            break;
        }
        i = i + 1;
    }
    let n: usize = i;
    proof {
        lemma_num_len_from_scan(s@, n as int);
    }

    if n == 0 {
        return Err(ConfigError::MalformedNumber);
    }

    // Match the unit literally.
    let rest: usize = len - n;
    let unit: Option<SizeUnit> = if rest == 1 && s.get_char(n) == 'B' {
        Some(SizeUnit::Bytes)
    } else if rest == 3 && s.get_char(n) == 'K' && s.get_char(n + 1) == 'i' && s.get_char(n + 2)
        == 'B' {
        Some(SizeUnit::Kibibytes)
    } else if rest == 3 && s.get_char(n) == 'M' && s.get_char(n + 1) == 'i' && s.get_char(n + 2)
        == 'B' {
        Some(SizeUnit::Mebibytes)
    } else if rest == 3 && s.get_char(n) == 'G' && s.get_char(n + 1) == 'i' && s.get_char(n + 2)
        == 'B' {
        Some(SizeUnit::Gibibytes)
    } else {
        None
    };
    proof {
        let tail = s@.skip(n as int);
        assert(tail.len() == rest);
        assert forall|j: int| 0 <= j < rest implies tail[j] == s@[n + j] by {
            assert(tail[j] == s@[j + n]);
        }
        match unit {
            Some(SizeUnit::Bytes) => {
                assert(tail =~= seq!['B']);
            },
            Some(SizeUnit::Kibibytes) => {
                assert(tail =~= seq!['K', 'i', 'B']);
            },
            Some(SizeUnit::Mebibytes) => {
                assert(tail =~= seq!['M', 'i', 'B']);
            },
            Some(SizeUnit::Gibibytes) => {
                assert(tail =~= seq!['G', 'i', 'B']);
            },
            None => {
                assert(tail =~= seq!['B'] ==> tail[0] == 'B');
                assert(tail =~= seq!['K', 'i', 'B'] ==> tail[0] == 'K' && tail[1] == 'i'
                    && tail[2] == 'B');
                assert(tail =~= seq!['M', 'i', 'B'] ==> tail[0] == 'M' && tail[1] == 'i'
                    && tail[2] == 'B');
                assert(tail =~= seq!['G', 'i', 'B'] ==> tail[0] == 'G' && tail[1] == 'i'
                    && tail[2] == 'B');
            },
        }
        assert(spec_unit_of(tail) == unit);
    }

    let u = match unit {
        Some(u) => u,
        None => {
            return Err(ConfigError::UnknownUnit);
        },
    };

    // Accumulate the numeric value, watching for 64-bit overflow.
    let mut val: u64 = 0;
    let mut j: usize = 0;
    while j < n
        invariant
            j <= n <= len,
            len == s@.len(),
            s@ == file_size@,
            n as nat == num_len(s@),
            forall|k: int| 0 <= k < n ==> is_digit_char(s@[k]),
            val as nat == digits_value(s@.take(j as int)),
            spec_unit_of(s@.skip(n as int)) == Some(u),
        decreases n - j,
    {
        let c = s.get_char(j);
        let d: u64 = (c as u32 - '0' as u32) as u64;
        proof {
            assert(s@.take(j + 1).drop_last() =~= s@.take(j as int));
            assert(s@.take(j + 1).last() == s@[j as int]);
            assert(digits_value(s@.take(j + 1)) == val * 10 + d);
        }
        let shifted: u64 = match val.checked_mul(10) {
            Some(x) => x,
            None => {
                proof {
                    overflow_means_err(s@, j as int, u);
                }
                return Err(ConfigError::Overflow);
            },
        };
        let next: u64 = match shifted.checked_add(d) {
            Some(x) => x,
            None => {
                proof {
                    overflow_means_err(s@, j as int, u);
                }
                return Err(ConfigError::Overflow);
            },
        };
        val = next;
        j = j + 1;
    }

    proof {
        assert(s@.take(n as int).len() == n);
    }
    match val.checked_mul(unit_multiplier(u)) {
        Some(v) => Ok(v),
        None => Err(ConfigError::Overflow),
    }
}

/// If the value of the first `j + 1` digits already exceeds `u64::MAX`, the
/// whole literal's byte count does too.
proof fn overflow_means_err(s: Seq<char>, j: int, u: SizeUnit)
    requires
        0 <= j < num_len(s) <= s.len(),
        spec_unit_of(s.skip(num_len(s) as int)) == Some(u),
        digits_value(s.take(j + 1)) > u64::MAX,
    ensures
        spec_parse_size(s) == Err::<u64, ConfigError>(ConfigError::Overflow),
{
    let n: int = num_len(s) as int;
    lemma_digits_value_monotone(s, j + 1, n);
    assert(multiplier(u) >= 1);
    let dv: nat = digits_value(s.take(n));
    assert(dv * multiplier(u) >= dv * 1) by (nonlinear_arith)
        requires
            multiplier(u) >= 1,
            dv >= 0,
    ;
}

} // verus!
