//! Names of the engine's files: zero-padded decimal numbers with a suffix or prefix.
use vstd::prelude::*;
use vstd::string::StrSliceExecFns;
use vstd::string::StringExecFns;

verus! {

/// The character for a decimal digit.
pub open spec fn digit_char(d: nat) -> char {
    (48 + d) as char
}

/// The decimal digits of `n`, most significant first, without leading zeros.
pub open spec fn decimal(n: nat) -> Seq<char>
    decreases n,
{
    if n < 10 {
        seq![digit_char(n)]
    } else {
        decimal(n / 10).push(digit_char(n % 10))
    }
}

/// The decimal digits of `n`, padded with leading zeros to at least `width` characters.
pub open spec fn padded_decimal(n: nat, width: nat) -> Seq<char> {
    let d = decimal(n);
    if d.len() >= width {
        d
    } else {
        Seq::new((width - d.len()) as nat, |i: int| '0') + d
    }
}

/// The string of one decimal digit.
fn digit_str(d: u64) -> (r: &'static str)
    requires
        d < 10,
    ensures
        r@ == seq![digit_char(d as nat)],
{
    if d == 0 {
        proof { reveal_strlit("0"); }
        "0"
    } else if d == 1 {
        proof { reveal_strlit("1"); }
        "1"
    } else if d == 2 {
        proof { reveal_strlit("2"); }
        "2"
    } else if d == 3 {
        proof { reveal_strlit("3"); }
        "3"
    } else if d == 4 {
        proof { reveal_strlit("4"); }
        "4"
    } else if d == 5 {
        proof { reveal_strlit("5"); }
        "5"
    } else if d == 6 {
        proof { reveal_strlit("6"); }
        "6"
    } else if d == 7 {
        proof { reveal_strlit("7"); }
        "7"
    } else if d == 8 {
        proof { reveal_strlit("8"); }
        "8"
    } else {
        proof { reveal_strlit("9"); }
        "9"
    }
}

/// The decimal digits of `number`, zero-padded to six characters.
fn padded_number(number: u64) -> (r: String)
    ensures
        r@ == padded_decimal(number as nat, 6),
{
    let mut digits: Vec<u64> = Vec::new();
    let mut n = number;
    loop
        invariant_except_break
            decimal(number as nat) == decimal(n as nat) + Seq::new(digits@.len(), |i: int| digit_char(digits@[digits@.len() - 1 - i] as nat)),
        invariant
            n <= number,
            forall|i: int| 0 <= i < digits@.len() ==> digits@[i] < 10,
        ensures
            decimal(number as nat) == Seq::new(digits@.len(), |i: int| digit_char(digits@[digits@.len() - 1 - i] as nat)),
        decreases n,
    {
        if n < 10 {
            let ghost before = digits@;
            digits.push(n);
            proof {
                assert(Seq::new(digits@.len(), |i: int| digit_char(digits@[digits@.len() - 1 - i] as nat))
                    =~= seq![digit_char(n as nat)] + Seq::new(before.len(), |i: int| digit_char(before[before.len() - 1 - i] as nat)));
                assert(decimal(n as nat) == seq![digit_char(n as nat)]);
                assert(decimal(number as nat) =~= Seq::new(digits@.len(), |i: int| digit_char(digits@[digits@.len() - 1 - i] as nat)));
            }
            break;
        }
        let ghost before = digits@;
        digits.push(n % 10);
        proof {
            assert(decimal(n as nat) == decimal((n / 10) as nat).push(digit_char((n % 10) as nat)));
            assert(Seq::new(digits@.len(), |i: int| digit_char(digits@[digits@.len() - 1 - i] as nat))
                =~= seq![digit_char((n % 10) as nat)] + Seq::new(before.len(), |i: int| digit_char(before[before.len() - 1 - i] as nat)));
            assert(decimal(number as nat) =~= decimal((n / 10) as nat) + Seq::new(digits@.len(), |i: int| digit_char(digits@[digits@.len() - 1 - i] as nat)));
        }
        n = n / 10;
    }
    let ghost d = decimal(number as nat);
    let mut out = String::new();
    let mut pad: usize = digits.len();
    while pad < 6
        invariant
            digits@.len() <= pad <= 6 || (pad == digits@.len() && pad >= 6),
            out@ == Seq::new((pad - digits@.len()) as nat, |i: int| '0'),
        decreases 6 - pad,
    {
        proof { reveal_strlit("0"); }
        out.append("0");
        pad = pad + 1;
        assert(out@ =~= Seq::new((pad - digits@.len()) as nat, |i: int| '0'));
    }
    let ghost prefix = out@;
    let mut k: usize = digits.len();
    while k > 0
        invariant
            k <= digits@.len(),
            forall|i: int| 0 <= i < digits@.len() ==> digits@[i] < 10,
            out@ == prefix + d.subrange(0, (digits@.len() - k) as int),
            d == Seq::new(digits@.len(), |i: int| digit_char(digits@[digits@.len() - 1 - i] as nat)),
        decreases k,
    {
        k = k - 1;
        let s = digit_str(digits[k]);
        out.append(s);
        assert(d.subrange(0, (digits@.len() - k) as int) =~= d.subrange(0, (digits@.len() - k - 1) as int).push(d[(digits@.len() - k - 1) as int]));
    }
    assert(d.subrange(0, d.len() as int) =~= d);
    proof {
        if d.len() >= 6 {
            assert(prefix =~= Seq::<char>::empty());
            assert(out@ =~= d);
        } else {
            assert(prefix =~= Seq::new((6 - d.len()) as nat, |i: int| '0'));
        }
    }
    out
}

/// The name of write-ahead log number `number`.
pub fn wal_file_name(number: u64) -> (r: String)
    ensures
        r@ == padded_decimal(number as nat, 6) + ".wal"@,
{
    let mut s = padded_number(number);
    s.append(".wal");
    s
}

/// The name of table file number `number`.
pub fn table_file_name(number: u64) -> (r: String)
    ensures
        r@ == padded_decimal(number as nat, 6) + ".sst"@,
{
    let mut s = padded_number(number);
    s.append(".sst");
    s
}

/// The name of manifest number `number`.
pub fn manifest_file_name(number: u64) -> (r: String)
    ensures
        r@ == "MANIFEST-"@ + padded_decimal(number as nat, 6),
{
    let mut s = String::from_str("MANIFEST-");
    let n = padded_number(number);
    s.append(n.as_str());
    s
}

/// Whether `c` is an ASCII decimal digit.
pub open spec fn is_digit(c: char) -> bool {
    '0' <= c <= '9'
}

/// The value of a string of decimal digits.
pub open spec fn digits_value(s: Seq<char>) -> nat
    decreases s.len(),
{
    if s.len() == 0 {
        0
    } else {
        digits_value(s.drop_last()) * 10 + ((s.last() as nat) - 48) as nat
    }
}

/// `s` without one leading `+`.
pub open spec fn strip_plus(s: Seq<char>) -> Seq<char> {
    if s.len() > 0 && s[0] == '+' { s.skip(1) } else { s }
}

/// Whether every character of `d` is a decimal digit.
pub open spec fn all_digits(d: Seq<char>) -> bool {
    forall|i: int| 0 <= i < d.len() ==> is_digit(#[trigger] d[i])
}

/// What parsing `s` as an unsigned 64-bit decimal number yields: an optional `+`,
/// then one or more digits whose value fits.
pub open spec fn spec_parse_u64(s: Seq<char>) -> Option<u64> {
    let d = strip_plus(s);
    if d.len() == 0 || !all_digits(d) || digits_value(d) > u64::MAX {
        None
    } else {
        Some(digits_value(d) as u64)
    }
}

/// The number of a manifest file name: `MANIFEST-` followed by a number.
pub open spec fn spec_parse_manifest_number(name: Seq<char>) -> Option<u64> {
    if name.len() >= 9 && name.subrange(0, 9) == "MANIFEST-"@ {
        spec_parse_u64(name.skip(9))
    } else {
        None
    }
}

/// Parses the number out of a manifest file name.
#[verifier::loop_isolation(false)]
pub fn parse_manifest_number(name: &str) -> (r: Option<u64>)
    ensures
        r == spec_parse_manifest_number(name@),
{
    proof { reveal_strlit("MANIFEST-"); }
    let prefix = "MANIFEST-";
    let len = name.unicode_len();
    if len < 9 {
        return None;
    }
    let mut i: usize = 0;
    while i < 9
        invariant
            len == name@.len(),
            len >= 9,
            prefix@ == "MANIFEST-"@,
            prefix@.len() == 9,
            forall|j: int| 0 <= j < i ==> name@[j] == prefix@[j],
            i <= 9,
        decreases 9 - i,
    {
        if name.get_char(i) != prefix.get_char(i) {
            proof {
                assert(name@.subrange(0, 9)[i as int] != "MANIFEST-"@[i as int]);
            }
            return None;
        }
        i = i + 1;
    }
    assert(name@.subrange(0, 9) =~= "MANIFEST-"@);
    let ghost rest = name@.skip(9);
    let mut start: usize = 9;
    if len > 9 && name.get_char(9) == '+' {
        start = 10;
    }
    let ghost d = name@.skip(start as int);
    assert(d =~= strip_plus(rest));
    if start == len {
        return None;
    }
    let mut value: u64 = 0;
    let mut j: usize = start;
    while j < len
        invariant
            len == name@.len(),
            start <= j <= len,
            start < len,
            d == name@.skip(start as int),
            forall|t: int| start <= t < j ==> is_digit(#[trigger] name@[t]),
            value as nat == digits_value(name@.subrange(start as int, j as int)),
        decreases len - j,
    {
        let c = name.get_char(j);
        if !('0' <= c && c <= '9') {
            proof {
                assert(d[j - start] == c);
                assert(!is_digit(d[j - start]));
                assert(!all_digits(d));
                assert(spec_parse_u64(rest) is None);
            }
            return None;
        }
        let digit = (c as u32 - 48) as u64;
        let ghost prev = name@.subrange(start as int, j as int);
        assert(name@.subrange(start as int, j + 1) =~= prev.push(c));
        assert(prev.push(c).drop_last() =~= prev);
        assert(digits_value(prev.push(c)) == digits_value(prev) * 10 + ((c as nat) - 48) as nat);
        assert(digit as nat == (c as nat) - 48);
        if value > (u64::MAX - digit) / 10 {
            proof {
                lemma_digits_value_prefix(d, (j - start + 1) as int);
                assert(name@.subrange(start as int, j + 1) =~= d.subrange(0, j - start + 1));
                assert(digits_value(d) >= digits_value(d.subrange(0, j - start + 1)));
                assert(value * 10 + digit > u64::MAX) by (nonlinear_arith)
                    requires
                        value > (u64::MAX - digit) / 10,
                        digit <= 9,
                ;
                assert(digits_value(name@.subrange(start as int, j + 1)) == value * 10 + digit);
                if all_digits(d) {
                    assert(digits_value(d) > u64::MAX);
                }
                assert(spec_parse_u64(rest) is None);
            }
            return None;
        }
        value = value * 10 + digit;
        j = j + 1;
    }
    proof {
        assert(name@.subrange(start as int, len as int) =~= d);
        assert forall|t: int| 0 <= t < d.len() implies is_digit(#[trigger] d[t]) by {
            assert(d[t] == name@[start + t]);
        }
    }
    Some(value)
}

/// Digit strings never lose value as they grow.
proof fn lemma_digits_value_prefix(d: Seq<char>, k: int)
    requires
        0 <= k <= d.len(),
    ensures
        digits_value(d) >= digits_value(d.subrange(0, k)),
    decreases d.len(),
{
    if k < d.len() {
        assert(d.drop_last().subrange(0, k) =~= d.subrange(0, k));
        lemma_digits_value_prefix(d.drop_last(), k);
    } else {
        assert(d.subrange(0, k) =~= d);
    }
}

} // verus!

verus! {

proof fn lemma_decimal_digits(n: nat)
    ensures
        all_digits(decimal(n)),
        decimal(n).len() > 0,
        digits_value(decimal(n)) == n,
    decreases n,
{
    assert(digit_char(n % 10) as nat == 48 + n % 10);
    if n < 10 {
        assert(decimal(n).drop_last() =~= Seq::<char>::empty());
    }
    if n >= 10 {
        lemma_decimal_digits(n / 10);
        let d = decimal(n / 10);
        let e = d.push(digit_char(n % 10));
        assert(e.drop_last() =~= d);
        assert forall|i: int| 0 <= i < e.len() implies is_digit(#[trigger] e[i]) by {
            if i < d.len() {
                assert(e[i] == d[i]);
            }
        }
        assert(n == (n / 10) * 10 + n % 10) by (nonlinear_arith);
        assert(decimal(n) == e);
        assert(e.last() == digit_char(n % 10));
        assert(digits_value(e) == digits_value(d) * 10 + ((e.last() as nat) - 48) as nat);
        assert(digits_value(e) == n);
    } else {
        assert(digits_value(decimal(n)) == digits_value(Seq::<char>::empty()) * 10 + ((digit_char(n) as nat) - 48) as nat);
    }
}

proof fn lemma_leading_zeros(z: Seq<char>, d: Seq<char>)
    requires
        forall|i: int| 0 <= i < z.len() ==> z[i] == '0',
    ensures
        digits_value(z + d) == digits_value(d),
    decreases d.len(), z.len(),
{
    if d.len() > 0 {
        assert((z + d).drop_last() =~= z + d.drop_last());
        lemma_leading_zeros(z, d.drop_last());
    } else if z.len() > 0 {
        assert(z + d =~= z);
        assert(z.drop_last() + d =~= z.drop_last());
        lemma_leading_zeros(z.drop_last(), d);
    } else {
        assert(z + d =~= d);
    }
}

/// A manifest's name gives back its number.
pub proof fn lemma_manifest_number_roundtrip(number: u64)
    ensures
        spec_parse_manifest_number("MANIFEST-"@ + padded_decimal(number as nat, 6)) == Some(number),
{
    reveal_strlit("MANIFEST-");
    let d = decimal(number as nat);
    let p = padded_decimal(number as nat, 6);
    let name = "MANIFEST-"@ + p;
    lemma_decimal_digits(number as nat);
    assert(name.subrange(0, 9) =~= "MANIFEST-"@);
    assert(name.skip(9) =~= p);
    if d.len() < 6 {
        let z = Seq::new((6 - d.len()) as nat, |i: int| '0');
        lemma_leading_zeros(z, d);
        assert forall|i: int| 0 <= i < p.len() implies is_digit(#[trigger] p[i]) by {
            if i >= z.len() {
                assert(p[i] == d[i - z.len()]);
            }
        }
    }
    assert(p[0] != '+');
    assert(strip_plus(p) == p);
}

} // verus!
