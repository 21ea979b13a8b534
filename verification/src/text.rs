//! Decimal and hexadecimal text over bytes: how integers are written and
//! read back, with the exact acceptance rules of the standard parsers.
use vstd::prelude::*;

verus! {

/// An ASCII decimal digit.
pub open spec fn is_digit(b: u8) -> bool {
    48 <= b && b <= 57
}

/// Decimal representation of `n`, most significant digit first, no leading zeros.
pub open spec fn dec_nat(n: nat) -> Seq<u8>
    decreases n,
{
    if n < 10 {
        seq![(48 + n) as u8]
    } else {
        dec_nat(n / 10).push((48 + n % 10) as u8)
    }
}

/// Decimal representation of a signed integer, with a leading `-` when negative.
pub open spec fn dec_int(i: int) -> Seq<u8> {
    if i < 0 {
        seq![45u8] + dec_nat((-i) as nat)
    } else {
        dec_nat(i as nat)
    }
}

/// Why the standard integer parser refuses a string.
#[derive(Debug, Clone, Copy, PartialEq, Eq)]
pub enum IntErrorKind {
    Empty,
    InvalidDigit,
    PosOverflow,
    NegOverflow,
}

impl IntErrorKind {
    /// The message the standard library prints for this kind of parse failure.
    pub open spec fn spec_message(self) -> Seq<char> {
        match self {
            IntErrorKind::Empty => "cannot parse integer from empty string"@,
            IntErrorKind::InvalidDigit => "invalid digit found in string"@,
            IntErrorKind::PosOverflow => "number too large to fit in target type"@,
            IntErrorKind::NegOverflow => "number too small to fit in target type"@,
        }
    }

    /// The message, as a string.
    pub fn message(&self) -> (s: String)
        ensures
            s@ == self.spec_message(),
    {
        match self {
            IntErrorKind::Empty => String::from_str("cannot parse integer from empty string"),
            IntErrorKind::InvalidDigit => String::from_str("invalid digit found in string"),
            IntErrorKind::PosOverflow => String::from_str("number too large to fit in target type"),
            IntErrorKind::NegOverflow => String::from_str("number too small to fit in target type"),
        }
    }
}

/// Left-to-right digit scan: the first non-digit is an invalid digit, and the
/// first prefix whose value exceeds `limit` is an overflow, whichever comes first.
pub open spec fn scan_digits(s: Seq<u8>, acc: nat, limit: nat) -> Result<nat, IntErrorKind>
    decreases s.len(),
{
    if s.len() == 0 {
        Ok(acc)
    } else if !is_digit(s[0]) {
        Err(IntErrorKind::InvalidDigit)
    } else if acc * 10 + (s[0] - 48) > limit {
        Err(IntErrorKind::PosOverflow)
    } else {
        scan_digits(s.drop_first(), (acc * 10 + (s[0] - 48)) as nat, limit)
    }
}

/// What an unsigned `from_str` of the standard library returns for these bytes,
/// for a type whose largest value is `limit`.
pub open spec fn parse_unsigned(s: Seq<u8>, limit: nat) -> Result<nat, IntErrorKind> {
    if s.len() == 0 {
        Err(IntErrorKind::Empty)
    } else if (s[0] == 43u8 || s[0] == 45u8) && s.len() == 1 {
        Err(IntErrorKind::InvalidDigit)
    } else if s[0] == 43u8 {
        scan_digits(s.drop_first(), 0, limit)
    } else {
        scan_digits(s, 0, limit)
    }
}

/// What `i64::from_str` returns for these bytes.
pub open spec fn parse_i64_spec(s: Seq<u8>) -> Result<int, IntErrorKind> {
    if s.len() == 0 {
        Err(IntErrorKind::Empty)
    } else if (s[0] == 43u8 || s[0] == 45u8) && s.len() == 1 {
        Err(IntErrorKind::InvalidDigit)
    } else if s[0] == 45u8 {
        match scan_digits(s.drop_first(), 0, 0x8000_0000_0000_0000) {
            Ok(m) => Ok(-m),
            Err(IntErrorKind::PosOverflow) => Err(IntErrorKind::NegOverflow),
            Err(e) => Err(e),
        }
    } else if s[0] == 43u8 {
        match scan_digits(s.drop_first(), 0, i64::MAX as nat) {
            Ok(m) => Ok(m as int),
            Err(e) => Err(e),
        }
    } else {
        match scan_digits(s, 0, i64::MAX as nat) {
            Ok(m) => Ok(m as int),
            Err(e) => Err(e),
        }
    }
}

/// A parse result over naturals, seen from one over machine integers.
pub open spec fn nat_result(r: Result<u64, IntErrorKind>) -> Result<nat, IntErrorKind> {
    match r {
        Ok(v) => Ok(v as nat),
        Err(e) => Err(e),
    }
}

pub open spec fn int_result(r: Result<i64, IntErrorKind>) -> Result<int, IntErrorKind> {
    match r {
        Ok(v) => Ok(v as int),
        Err(e) => Err(e),
    }
}

/// Scans `s[start..]` as digits, as `scan_digits` describes.
fn scan_digits_exec(s: &[u8], start: usize, limit: u64) -> (r: Result<u64, IntErrorKind>)
    requires
        start <= s@.len(),
    ensures
        nat_result(r) == scan_digits(s@.subrange(start as int, s@.len() as int), 0, limit as nat),
        r matches Ok(v) ==> v <= limit,
{
    let mut acc: u64 = 0;
    let mut i = start;
    while i < s.len()
        invariant
            start <= i <= s@.len(),
            acc <= limit,
            scan_digits(s@.subrange(i as int, s@.len() as int), acc as nat, limit as nat)
                == scan_digits(s@.subrange(start as int, s@.len() as int), 0, limit as nat),
        decreases s@.len() - i,
    {
        let b = s[i];
        assert(s@.subrange(i as int, s@.len() as int).drop_first() =~= s@.subrange(
            i + 1,
            s@.len() as int,
        ));
        if b < 48 || b > 57 {
            return Err(IntErrorKind::InvalidDigit);
        }
        let d = (b - 48) as u64;
        let next: u128 = (acc as u128) * 10 + d as u128;
        if next > limit as u128 {
            return Err(IntErrorKind::PosOverflow);
        }
        acc = next as u64;
        i += 1;
    }
    assert(s@.subrange(i as int, s@.len() as int).len() == 0);
    Ok(acc)
}

/// Parses bytes as an unsigned integer no larger than `limit`, with the rules of
/// the standard library's `from_str`.
pub fn parse_unsigned_bytes(s: &[u8], limit: u64) -> (r: Result<u64, IntErrorKind>)
    ensures
        nat_result(r) == parse_unsigned(s@, limit as nat),
        r matches Ok(v) ==> v <= limit,
{
    if s.len() == 0 {
        return Err(IntErrorKind::Empty);
    }
    if (s[0] == 43u8 || s[0] == 45u8) && s.len() == 1 {
        return Err(IntErrorKind::InvalidDigit);
    }
    if s[0] == 43u8 {
        assert(s@.drop_first() =~= s@.subrange(1, s@.len() as int));
        scan_digits_exec(s, 1, limit)
    } else {
        assert(s@ =~= s@.subrange(0, s@.len() as int));
        scan_digits_exec(s, 0, limit)
    }
}

/// `u64::from_str` on these bytes.
pub fn parse_u64_bytes(s: &[u8]) -> (r: Result<u64, IntErrorKind>)
    ensures
        nat_result(r) == parse_unsigned(s@, u64::MAX as nat),
{
    parse_unsigned_bytes(s, u64::MAX)
}

/// `usize::from_str` on these bytes.
pub fn parse_usize_bytes(s: &[u8]) -> (r: Result<usize, IntErrorKind>)
    ensures
        match r {
            Ok(v) => parse_unsigned(s@, usize::MAX as nat) == Ok::<nat, IntErrorKind>(v as nat),
            Err(e) => parse_unsigned(s@, usize::MAX as nat) == Err::<nat, IntErrorKind>(e),
        },
{
    match parse_unsigned_bytes(s, usize::MAX as u64) {
        Ok(v) => Ok(v as usize),
        Err(e) => Err(e),
    }
}

/// `i64::from_str` on these bytes.
pub fn parse_i64_bytes(s: &[u8]) -> (r: Result<i64, IntErrorKind>)
    ensures
        int_result(r) == parse_i64_spec(s@),
{
    if s.len() == 0 {
        return Err(IntErrorKind::Empty);
    }
    if (s[0] == 43u8 || s[0] == 45u8) && s.len() == 1 {
        return Err(IntErrorKind::InvalidDigit);
    }
    assert(s@.drop_first() =~= s@.subrange(1, s@.len() as int));
    assert(s@ =~= s@.subrange(0, s@.len() as int));
    if s[0] == 45u8 {
        match scan_digits_exec(s, 1, 0x8000_0000_0000_0000u64) {
            Ok(m) => {
                if m == 0x8000_0000_0000_0000u64 {
                    Ok(i64::MIN)
                } else {
                    Ok(0i64 - (m as i64))
                }
            },
            Err(IntErrorKind::PosOverflow) => Err(IntErrorKind::NegOverflow),
            Err(e) => Err(e),
        }
    } else if s[0] == 43u8 {
        match scan_digits_exec(s, 1, i64::MAX as u64) {
            Ok(m) => Ok(m as i64),
            Err(e) => Err(e),
        }
    } else {
        match scan_digits_exec(s, 0, i64::MAX as u64) {
            Ok(m) => Ok(m as i64),
            Err(e) => Err(e),
        }
    }
}

/// The decimal digits of `n`.
pub fn u64_to_decimal(n: u64) -> (v: Vec<u8>)
    ensures
        v@ == dec_nat(n as nat),
    decreases n,
{
    if n < 10 {
        let mut v = Vec::new();
        v.push((48 + n) as u8);
        assert(v@ =~= seq![(48 + n) as u8]);
        v
    } else {
        let mut v = u64_to_decimal(n / 10);
        v.push((48 + n % 10) as u8);
        v
    }
}

/// The decimal digits of `i`, with a leading `-` when negative.
pub fn i64_to_decimal(i: i64) -> (v: Vec<u8>)
    ensures
        v@ == dec_int(i as int),
{
    if i < 0 {
        let m: u64 = (0i128 - (i as i128)) as u64;
        let digits = u64_to_decimal(m);
        let mut v = Vec::new();
        v.push(45u8);
        let mut k: usize = 0;
        while k < digits.len()
            invariant
                k <= digits@.len(),
                v@ =~= seq![45u8] + digits@.subrange(0, k as int),
            decreases digits@.len() - k,
        {
            v.push(digits[k]);
            k += 1;
        }
        assert(digits@.subrange(0, digits@.len() as int) =~= digits@);
        v
    } else {
        u64_to_decimal(i as u64)
    }
}

/// Every byte of a decimal representation is a digit, and there is at least one.
pub proof fn lemma_dec_nat_digits(n: nat)
    ensures
        dec_nat(n).len() >= 1,
        forall|k: int| 0 <= k < dec_nat(n).len() ==> is_digit(#[trigger] dec_nat(n)[k]),
    decreases n,
{
    if n >= 10 {
        lemma_dec_nat_digits(n / 10);
    }
}

/// Scanning a concatenation scans the first part, then continues with its value.
pub proof fn lemma_scan_concat(a: Seq<u8>, b: Seq<u8>, acc: nat, limit: nat)
    ensures
        scan_digits(a + b, acc, limit) == match scan_digits(a, acc, limit) {
            Ok(x) => scan_digits(b, x, limit),
            Err(e) => Err(e),
        },
    decreases a.len(),
{
    if a.len() == 0 {
        assert(a + b =~= b);
    } else {
        assert((a + b).drop_first() =~= a.drop_first() + b);
        if is_digit(a[0]) && acc * 10 + (a[0] - 48) <= limit {
            lemma_scan_concat(a.drop_first(), b, (acc * 10 + (a[0] - 48)) as nat, limit);
        }
    }
}

/// Reading back the decimal digits of `n` gives `n`, when `n` fits.
pub proof fn lemma_scan_dec_nat(n: nat, limit: nat)
    requires
        n <= limit,
    ensures
        scan_digits(dec_nat(n), 0, limit) == Ok::<nat, IntErrorKind>(n),
    decreases n,
{
    if n < 10 {
        let s = dec_nat(n);
        assert(s[0] == (48 + n) as u8);
        assert(s[0] - 48 == n);
        assert(s.drop_first().len() == 0);
        assert(scan_digits(s.drop_first(), n, limit) == Ok::<nat, IntErrorKind>(n));
    } else {
        lemma_scan_dec_nat(n / 10, limit);
        let d = (48 + n % 10) as u8;
        assert(dec_nat(n) =~= dec_nat(n / 10) + seq![d]);
        lemma_scan_concat(dec_nat(n / 10), seq![d], 0, limit);
        assert(seq![d].drop_first().len() == 0);
        assert(d - 48 == n % 10);
        assert((n / 10) * 10 + n % 10 == n);
        assert(scan_digits(seq![d], n / 10, limit) == scan_digits(
            seq![d].drop_first(),
            n,
            limit,
        ));
    }
}

/// The unsigned parser reads back what `dec_nat` writes.
pub proof fn lemma_parse_dec_nat(n: nat, limit: nat)
    requires
        n <= limit,
    ensures
        parse_unsigned(dec_nat(n), limit) == Ok::<nat, IntErrorKind>(n),
{
    lemma_dec_nat_digits(n);
    lemma_scan_dec_nat(n, limit);
    if dec_nat(n).len() == 1 {
        assert(is_digit(dec_nat(n)[0]));
    }
}

/// The signed parser reads back what `dec_int` writes.
pub proof fn lemma_parse_dec_int(i: int)
    requires
        i64::MIN <= i <= i64::MAX,
    ensures
        parse_i64_spec(dec_int(i)) == Ok::<int, IntErrorKind>(i),
{
    if i < 0 {
        let m = (-i) as nat;
        lemma_dec_nat_digits(m);
        lemma_scan_dec_nat(m, 0x8000_0000_0000_0000);
        assert((seq![45u8] + dec_nat(m)).drop_first() =~= dec_nat(m));
    } else {
        lemma_parse_dec_nat(i as nat, i64::MAX as nat);
        lemma_dec_nat_digits(i as nat);
        assert(is_digit(dec_nat(i as nat)[0]));
    }
}


/// The lowercase hexadecimal digit for a value below 16.
pub open spec fn hex_digit(n: int) -> u8 {
    if n < 10 {
        (48 + n) as u8
    } else {
        (87 + n) as u8
    }
}

/// Lowercase hexadecimal text of bytes, two digits per byte, high nibble first.
pub open spec fn hex_lower(data: Seq<u8>) -> Seq<u8> {
    Seq::new(
        2 * data.len(),
        |i: int|
            if i % 2 == 0 {
                hex_digit((data[i / 2] / 16) as int)
            } else {
                hex_digit((data[i / 2] % 16) as int)
            },
    )
}

/// The value of a hexadecimal digit of either case.
pub open spec fn hex_value(b: u8) -> Option<int> {
    if 48 <= b <= 57 {
        Some(b - 48)
    } else if 97 <= b <= 102 {
        Some(b - 87)
    } else if 65 <= b <= 70 {
        Some(b - 55)
    } else {
        None
    }
}

/// What `u8::from_str_radix(_, 16)` returns for a two-byte string.
pub open spec fn parse_hex_pair(a: u8, b: u8) -> Result<u8, IntErrorKind> {
    if a == 43u8 {
        match hex_value(b) {
            Some(v) => Ok(v as u8),
            None => Err(IntErrorKind::InvalidDigit),
        }
    } else {
        match (hex_value(a), hex_value(b)) {
            (Some(x), Some(y)) => Ok((16 * x + y) as u8),
            _ => Err(IntErrorKind::InvalidDigit),
        }
    }
}

/// Decodes consecutive pairs of hexadecimal digits, stopping at the first bad pair.
pub open spec fn decode_hex_pairs(b: Seq<u8>) -> Result<Seq<u8>, IntErrorKind>
    decreases b.len(),
{
    if b.len() < 2 {
        Ok(Seq::empty())
    } else {
        match parse_hex_pair(b[0], b[1]) {
            Err(e) => Err(e),
            Ok(x) => match decode_hex_pairs(b.subrange(2, b.len() as int)) {
                Ok(r) => Ok(seq![x] + r),
                Err(e) => Err(e),
            },
        }
    }
}

/// The hex digit of a nibble.
pub fn hex_digit_exec(n: u8) -> (d: u8)
    requires
        n < 16,
    ensures
        d == hex_digit(n as int),
        d < 128,
{
    if n < 10 {
        48 + n
    } else {
        87 + n
    }
}

/// Lowercase hexadecimal text of bytes.
pub fn hex_bytes(data: &[u8]) -> (out: Vec<u8>)
    ensures
        out@ == hex_lower(data@),
{
    let mut out: Vec<u8> = Vec::new();
    let mut i: usize = 0;
    while i < data.len()
        invariant
            i <= data@.len(),
            out@.len() == 2 * i,
            forall|k: int| 0 <= k < 2 * i ==> #[trigger] out@[k] == hex_lower(data@)[k],
        decreases data@.len() - i,
    {
        let b = data[i];
        proof {
            assert(b >> 4 == b / 16) by (bit_vector);
            assert(b & 0x0f == b % 16) by (bit_vector);
        }
        out.push(hex_digit_exec(b >> 4));
        out.push(hex_digit_exec(b & 0x0f));
        proof {
            assert forall|k: int| 0 <= k < 2 * (i + 1) implies #[trigger] out@[k] == hex_lower(
                data@,
            )[k] by {
                if k >= 2 * i {
                    assert(k / 2 == i);
                }
            }
        }
        i += 1;
    }
    assert(out@ =~= hex_lower(data@));
    out
}

/// Hexadecimal text is ASCII.
pub proof fn lemma_hex_lower_ascii(data: Seq<u8>)
    ensures
        forall|i: int| 0 <= i < hex_lower(data).len() ==> #[trigger] hex_lower(data)[i] < 128,
{
}

/// The value of one hexadecimal digit.
fn hex_value_exec(b: u8) -> (r: Option<u8>)
    ensures
        match hex_value(b) {
            Some(v) => r == Some(v as u8),
            None => r is None,
        },
{
    if 48 <= b && b <= 57 {
        Some(b - 48)
    } else if 97 <= b && b <= 102 {
        Some(b - 87)
    } else if 65 <= b && b <= 70 {
        Some(b - 55)
    } else {
        None
    }
}

/// `u8::from_str_radix(_, 16)` on a two-byte string.
pub fn parse_hex_pair_exec(a: u8, b: u8) -> (r: Result<u8, IntErrorKind>)
    ensures
        r == parse_hex_pair(a, b),
{
    if a == 43u8 {
        match hex_value_exec(b) {
            Some(v) => Ok(v),
            None => Err(IntErrorKind::InvalidDigit),
        }
    } else {
        match (hex_value_exec(a), hex_value_exec(b)) {
            (Some(x), Some(y)) => Ok(16 * x + y),
            _ => Err(IntErrorKind::InvalidDigit),
        }
    }
}

/// Decodes pairs of hexadecimal digits from the start of `b`, as `decode_hex_pairs`.
pub fn decode_hex_pairs_exec(b: &[u8]) -> (r: Result<Vec<u8>, IntErrorKind>)
    ensures
        match r {
            Ok(v) => decode_hex_pairs(b@) == Ok::<Seq<u8>, IntErrorKind>(v@),
            Err(e) => decode_hex_pairs(b@) == Err::<Seq<u8>, IntErrorKind>(e),
        },
{
    let mut out: Vec<u8> = Vec::new();
    let mut i: usize = 0;
    proof {
        assert(b@.subrange(0, b@.len() as int) =~= b@);
        match decode_hex_pairs(b@) {
            Ok(r) => {
                assert(out@ + r =~= r);
            },
            Err(_) => {},
        }
    }
    while b.len() - i >= 2
        invariant
            i <= b@.len(),
            decode_hex_pairs(b@) == match decode_hex_pairs(b@.subrange(i as int, b@.len() as int)) {
                Ok(r) => Ok(out@ + r),
                Err(e) => Err(e),
            },
        decreases b@.len() - i,
    {
        let ghost rest = b@.subrange(i as int, b@.len() as int);
        assert(rest.subrange(2, rest.len() as int) =~= b@.subrange(i + 2, b@.len() as int));
        assert(rest[0] == b@[i as int] && rest[1] == b@[i + 1]);
        match parse_hex_pair_exec(b[i], b[i + 1]) {
            Err(e) => {
                return Err(e);
            },
            Ok(x) => {
                proof {
                    match decode_hex_pairs(b@.subrange(i + 2, b@.len() as int)) {
                        Ok(r) => {
                            assert(out@ + (seq![x] + r) =~= out@.push(x) + r);
                        },
                        Err(_) => {},
                    }
                }
                out.push(x);
            },
        }
        i += 2;
    }
    assert(out@ + Seq::<u8>::empty() =~= out@);
    Ok(out)
}

/// Reading back lowercase hexadecimal text gives the bytes.
pub proof fn lemma_decode_hex_lower(data: Seq<u8>)
    ensures
        decode_hex_pairs(hex_lower(data)) == Ok::<Seq<u8>, IntErrorKind>(data),
    decreases data.len(),
{
    let h = hex_lower(data);
    if data.len() > 0 {
        let d0 = data[0];
        assert(h.subrange(2, h.len() as int) =~= hex_lower(data.drop_first()));
        lemma_decode_hex_lower(data.drop_first());
        assert(h[0] == hex_digit((d0 / 16) as int));
        assert(h[1] == hex_digit((d0 % 16) as int));
        assert(hex_value(h[0]) == Some((d0 / 16) as int));
        assert(hex_value(h[1]) == Some((d0 % 16) as int));
        assert(16 * (d0 / 16) + d0 % 16 == d0);
        assert(h.len() >= 2);
        assert(h[0] != 43u8);
        assert(parse_hex_pair(h[0], h[1]) == Ok::<u8, IntErrorKind>(d0));
        assert(parse_hex_pair(h[0], h[1]) == Ok::<u8, IntErrorKind>(d0));
        assert(seq![d0] + data.drop_first() =~= data);
    } else {
        assert(h.len() == 0);
        assert(data =~= Seq::<u8>::empty());
    }
}

} // verus!
