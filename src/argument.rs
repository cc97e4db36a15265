//! The count of primes asked for, read from its decimal text.
use vstd::prelude::*;
use vstd::string::StringSliceAdditionalSpecFns;
use vstd::utf8::encode_utf8;

verus! {

/// Why a text is not an acceptable count.
#[derive(Debug, Clone, Copy, PartialEq, Eq, Structural)]
pub enum CountError {
    /// The command line does not hold exactly one argument after the program name.
    MissingArgument,
    /// The text is not the decimal form of an integer that fits in `usize`.
    NotAnInteger,
    /// The text is an integer, but zero: at least one prime must be asked for.
    NotPositive,
}

/// An ASCII decimal digit.
pub open spec fn is_digit(b: u8) -> bool {
    48 <= b <= 57
}

/// The number that a run of decimal digits writes, most significant first.
pub open spec fn digits_value(s: Seq<u8>) -> nat
    decreases s.len(),
{
    if s.len() == 0 {
        0
    } else {
        digits_value(s.drop_last()) * 10 + (s.last() - 48) as nat
    }
}

/// The text without its leading `+`, if it has one.
pub open spec fn unsigned_part(s: Seq<u8>) -> Seq<u8> {
    if s.len() > 0 && s[0] == 43 {
        s.drop_first()
    } else {
        s
    }
}

/// An optional `+` followed by at least one decimal digit and nothing else.
pub open spec fn is_decimal(s: Seq<u8>) -> bool {
    let d = unsigned_part(s);
    d.len() > 0 && forall|i: int| 0 <= i < d.len() ==> is_digit(#[trigger] d[i])
}

/// The count that the bytes `s` give: a positive decimal integer that fits
/// in `usize`.
pub open spec fn count_of(s: Seq<u8>) -> Result<usize, CountError> {
    let v = digits_value(unsigned_part(s));
    if !is_decimal(s) || v > usize::MAX {
        Err(CountError::NotAnInteger)
    } else if v == 0 {
        Err(CountError::NotPositive)
    } else {
        Ok(v as usize)
    }
}

/// More digits never make a smaller number.
proof fn lemma_digits_value_prefix(s: Seq<u8>, k: int)
    requires
        0 <= k <= s.len(),
        forall|i: int| 0 <= i < s.len() ==> is_digit(#[trigger] s[i]),
    ensures
        digits_value(s.subrange(0, k)) <= digits_value(s),
    decreases s.len(),
{
    if k == s.len() {
        assert(s.subrange(0, k) =~= s);
    } else {
        let t = s.drop_last();
        assert(t.subrange(0, k) =~= s.subrange(0, k));
        lemma_digits_value_prefix(t, k);
    }
}

/// The count written in `arg`: an optional `+` and decimal digits, with a
/// value from 1 up to `usize::MAX`.
pub fn parse_count(arg: &str) -> (r: Result<usize, CountError>)
    ensures
        r == count_of(arg.spec_bytes()),
{
    let b = arg.as_bytes();
    let ghost s = arg.spec_bytes();
    let start: usize = if b.len() > 0 && b[0] == 43 {
        1
    } else {
        0
    };
    let ghost d = unsigned_part(s);
    assert(d =~= s.subrange(start as int, s.len() as int));
    if start == b.len() {
        return Err(CountError::NotAnInteger);
    }
    let mut v: usize = 0;
    let mut i: usize = start;
    while i < b.len()
        invariant
            b@ == s,
            s == arg.spec_bytes(),
            d == unsigned_part(s),
            d =~= s.subrange(start as int, s.len() as int),
            start <= i <= s.len(),
            forall|j: int| 0 <= j < i - start ==> is_digit(#[trigger] d[j]),
            v == digits_value(d.subrange(0, i - start)),
        decreases b.len() - i,
    {
        let c = b[i];
        if c < 48 || c > 57 {
            assert(c == d[i - start]);
            assert(!is_digit(d[i - start]));
            assert(!is_decimal(s));
            return Err(CountError::NotAnInteger);
        }
        let digit = (c - 48) as usize;
        assert(c == d[i - start]);
        assert(d.subrange(0, i + 1 - start).drop_last() =~= d.subrange(0, i - start));
        assert(digits_value(d.subrange(0, i + 1 - start)) == v * 10 + digit);
        if v > (usize::MAX - digit) / 10 {
            proof {
                assert(v * 10 + digit > usize::MAX);
                if is_decimal(s) {
                    lemma_digits_value_prefix(d, i + 1 - start);
                }
            }
            return Err(CountError::NotAnInteger);
        }
        v = v * 10 + digit;
        i += 1;
    }
    assert(d.subrange(0, i - start) =~= d);
    if v == 0 {
        Err(CountError::NotPositive)
    } else {
        Ok(v)
    }
}

/// The count that a command line asks for: the program name, then exactly one
/// argument holding the count.
pub fn count_from_args(args: &Vec<String>) -> (r: Result<usize, CountError>)
    ensures
        args.len() != 2 ==> r == Err::<usize, CountError>(CountError::MissingArgument),
        args.len() == 2 ==> r == count_of(encode_utf8(args[1]@)),
{
    if args.len() != 2 {
        return Err(CountError::MissingArgument);
    }
    parse_count(args[1].as_str())
}

} // verus!
