use vstd::prelude::*;
use vstd::string::StringExecFns;
use vstd::string::StrSliceExecFns;

use crate::errors::AppError;
use crate::errors::is_abort_with;

verus! {

/// A size given in one of the accepted units.
#[derive(Clone, Copy, Debug)]
pub enum ByteSize {
    Byte(u64),
    KByte(u64),
    KiByte(u64),
    MByte(u64),
    MiByte(u64),
    GByte(u64),
    GiByte(u64),
    TByte(u64),
    TiByte(u64),
}

impl ByteSize {
    /// The number of bytes the size stands for.
    pub open spec fn spec_bytes(self) -> int {
        match self {
            ByteSize::Byte(v) => v as int,
            ByteSize::KByte(v) => v * 1000,
            ByteSize::KiByte(v) => v * 1024,
            ByteSize::MByte(v) => v * 1_000_000,
            ByteSize::MiByte(v) => v * 1_048_576,
            ByteSize::GByte(v) => v * 1_000_000_000,
            ByteSize::GiByte(v) => v * 1_073_741_824,
            ByteSize::TByte(v) => v * 1_000_000_000_000,
            ByteSize::TiByte(v) => v * 1_099_511_627_776,
        }
    }

    /// Whether the byte count fits in 64 bits.
    pub fn fits(self) -> (r: bool)
        ensures
            r == (self.spec_bytes() <= u64::MAX),
    {
        match self {
            ByteSize::Byte(_) => true,
            ByteSize::KByte(v) => v.checked_mul(1000).is_some(),
            ByteSize::KiByte(v) => v.checked_mul(1024).is_some(),
            ByteSize::MByte(v) => v.checked_mul(1_000_000).is_some(),
            ByteSize::MiByte(v) => v.checked_mul(1_048_576).is_some(),
            ByteSize::GByte(v) => v.checked_mul(1_000_000_000).is_some(),
            ByteSize::GiByte(v) => v.checked_mul(1_073_741_824).is_some(),
            ByteSize::TByte(v) => v.checked_mul(1_000_000_000_000).is_some(),
            ByteSize::TiByte(v) => v.checked_mul(1_099_511_627_776).is_some(),
        }
    }

    /// The number of bytes, for a size that fits in 64 bits.
    pub fn bytes(self) -> (r: u64)
        requires
            self.spec_bytes() <= u64::MAX,
        ensures
            r == self.spec_bytes(),
    {
        match self {
            ByteSize::Byte(v) => v,
            ByteSize::KByte(v) => v * 1000,
            ByteSize::KiByte(v) => v * 1024,
            ByteSize::MByte(v) => v * 1_000_000,
            ByteSize::MiByte(v) => v * 1_048_576,
            ByteSize::GByte(v) => v * 1_000_000_000,
            ByteSize::GiByte(v) => v * 1_073_741_824,
            ByteSize::TByte(v) => v * 1_000_000_000_000,
            ByteSize::TiByte(v) => v * 1_099_511_627_776,
        }
    }
}

pub open spec fn is_digit(c: char) -> bool {
    '0' <= c && c <= '9'
}

pub open spec fn all_digits(s: Seq<char>) -> bool {
    forall|i: int| 0 <= i < s.len() ==> is_digit(#[trigger] s[i])
}

/// The number written by a string of decimal digits.
pub open spec fn decimal_value(s: Seq<char>) -> int
    decreases s.len(),
{
    if s.len() == 0 {
        0
    } else {
        10 * decimal_value(s.drop_last()) + (s.last() as int - '0' as int)
    }
}

/// Where the unit of a literal begins: just after the last digit among `s[..k]`,
/// counting back over the characters that are not digits.
pub open spec fn unit_start(s: Seq<char>, k: int) -> int
    decreases k,
{
    if k <= 0 {
        0
    } else if is_digit(s[k - 1]) {
        k
    } else {
        unit_start(s, k - 1)
    }
}

/// The size that `v` stands for in the unit spelled `unit`; the empty unit is bytes.
pub open spec fn sized(unit: Seq<char>, v: u64) -> Option<ByteSize> {
    if unit.len() == 0 {
        Some(ByteSize::Byte(v))
    } else if unit.len() == 1 {
        if unit[0] == 'B' {
            Some(ByteSize::Byte(v))
        } else if unit[0] == 'K' {
            Some(ByteSize::KByte(v))
        } else if unit[0] == 'M' {
            Some(ByteSize::MByte(v))
        } else if unit[0] == 'G' {
            Some(ByteSize::GByte(v))
        } else if unit[0] == 'T' {
            Some(ByteSize::TByte(v))
        } else {
            None
        }
    } else if unit.len() == 2 && unit[1] == 'B' {
        if unit[0] == 'K' {
            Some(ByteSize::KByte(v))
        } else if unit[0] == 'M' {
            Some(ByteSize::MByte(v))
        } else if unit[0] == 'G' {
            Some(ByteSize::GByte(v))
        } else if unit[0] == 'T' {
            Some(ByteSize::TByte(v))
        } else {
            None
        }
    } else if unit.len() == 3 && unit[1] == 'i' && unit[2] == 'B' {
        if unit[0] == 'K' {
            Some(ByteSize::KiByte(v))
        } else if unit[0] == 'M' {
            Some(ByteSize::MiByte(v))
        } else if unit[0] == 'G' {
            Some(ByteSize::GiByte(v))
        } else if unit[0] == 'T' {
            Some(ByteSize::TiByte(v))
        } else {
            None
        }
    } else {
        None
    }
}

/// What a size literal means: a non-empty run of digits followed by an accepted unit
/// (or none), whose byte count fits in 64 bits. Anything else is refused.
pub open spec fn parse_size_literal(s: Seq<char>) -> Option<ByteSize> {
    let k = unit_start(s, s.len() as int);
    let digits = s.subrange(0, k);
    if k == 0 || !all_digits(digits) || decimal_value(digits) > u64::MAX {
        None
    } else {
        match sized(s.subrange(k, s.len() as int), decimal_value(digits) as u64) {
            Some(b) => if b.spec_bytes() <= u64::MAX {
                Some(b)
            } else {
                None
            },
            None => None,
        }
    }
}

proof fn lemma_decimal_step(s: Seq<char>, i: int)
    requires
        0 <= i < s.len(),
    ensures
        decimal_value(s.subrange(0, i + 1)) == 10 * decimal_value(s.subrange(0, i)) + (s[i] as int
            - '0' as int),
{
    assert(s.subrange(0, i + 1).drop_last() =~= s.subrange(0, i));
}

proof fn lemma_decimal_grows(s: Seq<char>, i: int, j: int)
    requires
        0 <= i <= j <= s.len(),
        all_digits(s.subrange(0, j)),
    ensures
        decimal_value(s.subrange(0, i)) <= decimal_value(s.subrange(0, j)),
    decreases j - i,
{
    if i < j {
        assert(s.subrange(0, j).drop_last() =~= s.subrange(0, j - 1));
        assert(is_digit(s.subrange(0, j)[j - 1]));
        assert(all_digits(s.subrange(0, j - 1))) by {
            assert forall|t: int| 0 <= t < j - 1 implies is_digit(#[trigger] s.subrange(0, j - 1)[t]) by {
                assert(s.subrange(0, j - 1)[t] == s.subrange(0, j)[t]);
            }
        }
        lemma_decimal_grows(s, i, j - 1);
        assert(decimal_value(s.subrange(0, j - 1)) >= 0) by {
            lemma_decimal_nonneg(s.subrange(0, j - 1));
        }
    }
}

proof fn lemma_decimal_nonneg(s: Seq<char>)
    requires
        all_digits(s),
    ensures
        decimal_value(s) >= 0,
    decreases s.len(),
{
    if s.len() > 0 {
        assert(is_digit(s[s.len() - 1]));
        assert(all_digits(s.drop_last())) by {
            assert forall|t: int| 0 <= t < s.len() - 1 implies is_digit(#[trigger] s.drop_last()[t]) by {
                assert(s.drop_last()[t] == s[t]);
            }
        }
        lemma_decimal_nonneg(s.drop_last());
    }
}

/// Reads size literals such as `10`, `10KB` or `10KiB`.
#[derive(Clone)]
pub struct ByteSizeValueParser {}

impl ByteSizeValueParser {
    /// A parser for size literals.
    pub fn new() -> (r: Self)
        ensures
            r == (ByteSizeValueParser {}),
    {
        Self {}
    }

    /// Reads `value` as a size; a literal that `parse_size_literal` refuses is an error
    /// that names it and the accepted units.
    pub fn parse(&self, value: &str) -> (r: Result<ByteSize, AppError>)
        ensures
            r is Ok <==> parse_size_literal(value@) is Some,
            r is Ok ==> r->Ok_0 == parse_size_literal(value@)->0,
            r is Err ==> is_abort_with(
                r->Err_0,
                "Unknown \""@ + value@ + "\", expected [number](KB,KiB,MB,MiB,GB,GiB,TB,TiB)"@,
            ),
    {
        match parse_size(value) {
            Some(size) => Ok(size),
            None => Err(AppError::new(invalid_size_message(value))),
        }
    }
}

/// The message for a literal that is not a size.
pub fn invalid_size_message(value: &str) -> (r: String)
    ensures
        r@ == "Unknown \""@ + value@ + "\", expected [number](KB,KiB,MB,MiB,GB,GiB,TB,TiB)"@,
{
    let mut message = String::from_str("Unknown \"");
    message.append(value);
    message.append("\", expected [number](KB,KiB,MB,MiB,GB,GiB,TB,TiB)");
    message
}

/// Reads `value` as a size, or `None` where `parse_size_literal` refuses it.
pub fn parse_size(value: &str) -> (r: Option<ByteSize>)
    ensures
        r == parse_size_literal(value@),
{
    let n = value.unicode_len();
    let ghost s = value@;
    let mut k: usize = n;
    loop
        invariant
            n == s.len(),
            s == value@,
            0 <= k <= n,
            unit_start(s, k as int) == unit_start(s, n as int),
            forall|t: int| k <= t < n ==> !is_digit(#[trigger] s[t]),
        ensures
            0 <= k <= n,
            unit_start(s, k as int) == unit_start(s, n as int),
            k == 0 || is_digit(s[k - 1]),
        decreases k,
    {
        if k == 0 {
            break;
        }
        let c = value.get_char(k - 1);
        if '0' <= c && c <= '9' {
            break;
        }
        k = k - 1;
    }
    assert(unit_start(s, k as int) == k);
    if k == 0 {
        return None;
    }
    let mut acc: u64 = 0;
    let mut i: usize = 0;
    while i < k
        invariant
            0 <= i <= k <= n,
            n == s.len(),
            s == value@,
            k == unit_start(s, n as int),
            all_digits(s.subrange(0, i as int)),
            acc == decimal_value(s.subrange(0, i as int)),
        decreases k - i,
    {
        let c = value.get_char(i);
        if !('0' <= c && c <= '9') {
            assert(s.subrange(0, k as int)[i as int] == c);
            return None;
        }
        let d: u64 = (c as u32 - '0' as u32) as u64;
        proof {
            lemma_decimal_step(s, i as int);
            assert(all_digits(s.subrange(0, i + 1))) by {
                assert forall|t: int| 0 <= t < i + 1 implies is_digit(#[trigger] s.subrange(0, i + 1)[t]) by {
                    if t < i {
                        assert(s.subrange(0, i + 1)[t] == s.subrange(0, i as int)[t]);
                    }
                }
            }
        }
        if acc > (u64::MAX - d) / 10 {
            proof {
                assert(10 * (acc as int) + (d as int) > u64::MAX) by (nonlinear_arith)
                    requires
                        acc > (u64::MAX - d) / 10,
                        d <= 9,
                ;
                if all_digits(s.subrange(0, k as int)) {
                    lemma_decimal_grows(s, i + 1, k as int);
                }
            }
            return None;
        }
        acc = acc * 10 + d;
        i = i + 1;
    }
    assert(s.subrange(0, i as int) =~= s.subrange(0, k as int));
    let u = n - k;
    let ghost unit = s.subrange(k as int, n as int);
    let size = if u == 0 {
        Some(ByteSize::Byte(acc))
    } else if u == 1 {
        let c0 = value.get_char(k);
        if c0 == 'B' {
            Some(ByteSize::Byte(acc))
        } else if c0 == 'K' {
            Some(ByteSize::KByte(acc))
        } else if c0 == 'M' {
            Some(ByteSize::MByte(acc))
        } else if c0 == 'G' {
            Some(ByteSize::GByte(acc))
        } else if c0 == 'T' {
            Some(ByteSize::TByte(acc))
        } else {
            None
        }
    } else if u == 2 && value.get_char(k + 1) == 'B' {
        let c0 = value.get_char(k);
        if c0 == 'K' {
            Some(ByteSize::KByte(acc))
        } else if c0 == 'M' {
            Some(ByteSize::MByte(acc))
        } else if c0 == 'G' {
            Some(ByteSize::GByte(acc))
        } else if c0 == 'T' {
            Some(ByteSize::TByte(acc))
        } else {
            None
        }
    } else if u == 3 && value.get_char(k + 1) == 'i' && value.get_char(k + 2) == 'B' {
        let c0 = value.get_char(k);
        if c0 == 'K' {
            Some(ByteSize::KiByte(acc))
        } else if c0 == 'M' {
            Some(ByteSize::MiByte(acc))
        } else if c0 == 'G' {
            Some(ByteSize::GiByte(acc))
        } else if c0 == 'T' {
            Some(ByteSize::TiByte(acc))
        } else {
            None
        }
    } else {
        None
    };
    assert(size == sized(unit, acc));
    match size {
        Some(b) => {
            if b.fits() {
                Some(b)
            } else {
                None
            }
        },
        None => None,
    }
}

} // verus!
