use crate::rational::{
    lemma_normalize, normalize, sign_frac, Frac, ParseErrorKind, ParseRationalError, Rational, Sign,
};
use vstd::prelude::*;
use vstd::string::*;

verus! {

pub open spec fn is_digit(c: char) -> bool {
    48 <= (c as u32) <= 57
}

pub open spec fn digit_value(c: char) -> nat {
    ((c as u32) - 48) as nat
}

pub open spec fn digit_char(d: nat) -> char {
    if d == 0 {
        '0'
    } else if d == 1 {
        '1'
    } else if d == 2 {
        '2'
    } else if d == 3 {
        '3'
    } else if d == 4 {
        '4'
    } else if d == 5 {
        '5'
    } else if d == 6 {
        '6'
    } else if d == 7 {
        '7'
    } else if d == 8 {
        '8'
    } else {
        '9'
    }
}

pub open spec fn all_digits(s: Seq<char>) -> bool {
    forall|i: int| 0 <= i < s.len() ==> is_digit(#[trigger] s[i])
}

/// The number written by a string of decimal digits.
pub open spec fn digits_value(s: Seq<char>) -> nat
    decreases s.len(),
{
    if s.len() == 0 {
        0
    } else {
        digits_value(s.drop_last()) * 10 + digit_value(s.last())
    }
}

/// Decimal digits of `n`, most significant first, without leading zeros.
pub open spec fn decimal(n: nat) -> Seq<char>
    decreases n,
{
    if n < 10 {
        seq![digit_char(n)]
    } else {
        decimal(n / 10).push(digit_char(n % 10))
    }
}

/// Text of a fraction: `-` for a negative sign, the numerator, and `/` with
/// the denominator unless it is one.
pub open spec fn text_of(f: Frac) -> Seq<char> {
    let sign = if f.sign == Sign::Negative {
        seq!['-']
    } else {
        Seq::<char>::empty()
    };
    let tail = if f.den == 1 {
        Seq::<char>::empty()
    } else {
        seq!['/'] + decimal(f.den)
    };
    sign + decimal(f.num) + tail
}

pub open spec fn has_minus(t: Seq<char>) -> bool {
    t.len() > 0 && t[0] == '-'
}

/// The token without its leading `-`, if any.
pub open spec fn unsigned_part(t: Seq<char>) -> Seq<char> {
    if has_minus(t) {
        t.skip(1)
    } else {
        t
    }
}

pub open spec fn text_sign(t: Seq<char>) -> Sign {
    if has_minus(t) {
        Sign::Negative
    } else {
        Sign::Positive
    }
}

/// `b` is `digits`.
pub open spec fn integer_text(b: Seq<char>) -> bool {
    b.len() > 0 && all_digits(b)
}

/// `b` is `digits/digits` with the slash at `k`.
pub open spec fn fraction_text(b: Seq<char>, k: int) -> bool {
    &&& 0 < k
    &&& k + 1 < b.len()
    &&& b[k] == '/'
    &&& all_digits(b.take(k))
    &&& all_digits(b.skip(k + 1))
}

/// What a token `[-]digits[/digits]` writes, before reduction; `None` for
/// anything else.
pub open spec fn parse_text(t: Seq<char>) -> Option<Frac> {
    let b = unsigned_part(t);
    if integer_text(b) {
        Some(Frac { sign: text_sign(t), num: digits_value(b), den: 1 })
    } else if exists|k: int| fraction_text(b, k) {
        let k = choose|k: int| fraction_text(b, k);
        Some(
            Frac {
                sign: text_sign(t),
                num: digits_value(b.take(k)),
                den: digits_value(b.skip(k + 1)),
            },
        )
    } else {
        None
    }
}

/// A parsed token becomes a `Rational` when both magnitudes fit a machine
/// word and the denominator is not zero.
pub open spec fn parse_ok(t: Seq<char>) -> bool {
    &&& parse_text(t) is Some
    &&& parse_text(t)->0.num <= usize::MAX
    &&& 0 < parse_text(t)->0.den <= usize::MAX
}

/// Why a token that does not read as a `Rational` fails: not of the form
/// `[-]digits[/digits]`, a magnitude beyond a machine word, or a zero
/// denominator, checked in that order.
pub open spec fn parse_error_kind(t: Seq<char>) -> ParseErrorKind {
    if parse_text(t) is None {
        ParseErrorKind::Malformed
    } else if parse_text(t)->0.num > usize::MAX || parse_text(t)->0.den > usize::MAX {
        ParseErrorKind::ArithmeticOverflow
    } else {
        ParseErrorKind::DivisionByZero
    }
}

proof fn lemma_digits_push(s: Seq<char>, c: char)
    ensures
        digits_value(s.push(c)) == digits_value(s) * 10 + digit_value(c),
{
    assert(s.push(c).drop_last() =~= s);
}

proof fn lemma_decimal(n: nat)
    ensures
        decimal(n).len() > 0,
        all_digits(decimal(n)),
        digits_value(decimal(n)) == n,
    decreases n,
{
    if n < 10 {
        assert(seq![digit_char(n)] =~= Seq::<char>::empty().push(digit_char(n)));
        lemma_digits_push(Seq::<char>::empty(), digit_char(n));
    } else {
        lemma_decimal(n / 10);
        let d = (n % 10) as nat;
        lemma_digits_push(decimal(n / 10), digit_char(d));
        assert(n == (n / 10) * 10 + d) by (nonlinear_arith)
            requires
                d == n % 10,
        ;
    }
}

/// There is at most one place for the slash.
proof fn lemma_fraction_unique(b: Seq<char>, k1: int, k2: int)
    requires
        fraction_text(b, k1),
        fraction_text(b, k2),
    ensures
        k1 == k2,
{
    if k1 < k2 {
        assert(b.take(k2)[k1] == b[k1]);
    } else if k2 < k1 {
        assert(b.take(k1)[k2] == b[k2]);
    }
}

/// Printing a canonical value and reading it back gives the same value.
proof fn lemma_text_of(f: Frac)
    requires
        f.canonical(),
    ensures
        parse_text(text_of(f)) == Some(f),
{
    lemma_decimal(f.num);
    lemma_decimal(f.den);
    let sign = if f.sign == Sign::Negative {
        seq!['-']
    } else {
        Seq::<char>::empty()
    };
    let t = text_of(f);
    let b = unsigned_part(t);
    let num = decimal(f.num);
    assert(!is_digit('-'));
    assert(!is_digit('/'));
    if f.den == 1 {
        assert(b =~= num);
    } else {
        let k = num.len() as int;
        assert(b =~= num + seq!['/'] + decimal(f.den));
        assert(b.take(k) =~= num);
        assert(b.skip(k + 1) =~= decimal(f.den));
        assert(fraction_text(b, k));
        assert(!integer_text(b)) by {
            assert(b[k] == '/');
        }
        let k2 = choose|k2: int| fraction_text(b, k2);
        lemma_fraction_unique(b, k, k2);
    }
}

/// Reading a token and printing the result writes the same value: the printed
/// text reads back to the parsed value, which equals the token's fraction.
pub proof fn lemma_parse_round_trip(t: Seq<char>)
    requires
        parse_ok(t),
    ensures
        ({
            let raw = parse_text(t)->0;
            let x = normalize(raw.sign, raw.num, raw.den);
            &&& parse_text(text_of(x)) == Some(x)
            &&& x.signed_num() * raw.den == raw.signed_num() * x.den
        }),
{
    let raw = parse_text(t)->0;
    lemma_normalize(raw.sign, raw.num, raw.den);
    lemma_text_of(normalize(raw.sign, raw.num, raw.den));
    assert(sign_frac(raw.sign, raw.num) == raw.signed_num());
}

/// Reads the run of digits starting at `start`: where it ends, and its value
/// if that fits a machine word.
fn scan_digits(s: &str, start: usize) -> (res: (usize, Option<usize>))
    requires
        start <= s@.len(),
    ensures
        start <= res.0 <= s@.len(),
        all_digits(s@.subrange(start as int, res.0 as int)),
        res.0 == s@.len() || !is_digit(s@[res.0 as int]),
        res.1 == if digits_value(s@.subrange(start as int, res.0 as int)) <= usize::MAX {
            Some(digits_value(s@.subrange(start as int, res.0 as int)) as usize)
        } else {
            None::<usize>
        },
{
    let len = s.unicode_len();
    let mut pos: usize = start;
    let mut acc: Option<usize> = Some(0);
    proof {
        assert(s@.subrange(start as int, start as int) =~= Seq::<char>::empty());
    }
    while pos < len && is_digit_char(s.get_char(pos))
        invariant
            len == s@.len(),
            start <= pos <= len,
            all_digits(s@.subrange(start as int, pos as int)),
            acc == if digits_value(s@.subrange(start as int, pos as int)) <= usize::MAX {
                Some(digits_value(s@.subrange(start as int, pos as int)) as usize)
            } else {
                None::<usize>
            },
        decreases len - pos,
    {
        let c = s.get_char(pos);
        let d: usize = (c as u32 - 48) as usize;
        let ghost before = s@.subrange(start as int, pos as int);
        proof {
            assert(s@.subrange(start as int, pos + 1) =~= before.push(c));
            lemma_digits_push(before, c);
        }
        acc = match acc {
            Some(v) => match v.checked_mul(10) {
                Some(w) => w.checked_add(d),
                None => None,
            },
            None => None,
        };
        pos = pos + 1;
    }
    (pos, acc)
}

fn is_digit_char(c: char) -> (r: bool)
    ensures
        r == is_digit(c),
{
    let u = c as u32;
    48 <= u && u <= 57
}

fn digit_str(d: usize) -> (r: &'static str)
    requires
        d < 10,
    ensures
        r@ == seq![digit_char(d as nat)],
{
    proof {
        reveal_strlit("0");
        reveal_strlit("1");
        reveal_strlit("2");
        reveal_strlit("3");
        reveal_strlit("4");
        reveal_strlit("5");
        reveal_strlit("6");
        reveal_strlit("7");
        reveal_strlit("8");
        reveal_strlit("9");
    }
    if d == 0 {
        "0"
    } else if d == 1 {
        "1"
    } else if d == 2 {
        "2"
    } else if d == 3 {
        "3"
    } else if d == 4 {
        "4"
    } else if d == 5 {
        "5"
    } else if d == 6 {
        "6"
    } else if d == 7 {
        "7"
    } else if d == 8 {
        "8"
    } else {
        "9"
    }
}

fn write_decimal(out: &mut String, n: usize)
    ensures
        final(out)@ == old(out)@ + decimal(n as nat),
    decreases n,
{
    if n >= 10 {
        write_decimal(out, n / 10);
    }
    out.append(digit_str(n % 10));
    proof {
        if n < 10 {
            assert(n % 10 == n);
        }
    }
}

impl Rational {
    /// The text `[-]numerator[/denominator]`, the denominator left out when it is one.
    pub fn to_string(&self) -> (r: String)
        ensures
            r@ == text_of(self@),
    {
        let mut out = String::new();
        proof {
            reveal_strlit("-");
            reveal_strlit("/");
        }
        if self.sign() == Sign::Negative {
            out.append("-");
        }
        write_decimal(&mut out, self.numerator());
        if self.denominator() != 1 {
            out.append("/");
            write_decimal(&mut out, self.denominator());
        }
        proof {
            let f = self@;
            let sign = if f.sign == Sign::Negative {
                seq!['-']
            } else {
                Seq::<char>::empty()
            };
            let tail = if f.den == 1 {
                Seq::<char>::empty()
            } else {
                seq!['/'] + decimal(f.den)
            };
            assert(out@ =~= sign + decimal(f.num) + tail);
        }
        out
    }
}

impl std::str::FromStr for Rational {
    type Err = ParseRationalError;

    fn from_str(s: &str) -> Result<Rational, ParseRationalError> {
        Rational::parse(s)
    }
}


impl Rational {
    /// Reads `[-]digits[/digits]` (no denominator means one) and reduces it.
    pub fn parse(s: &str) -> (r: Result<Rational, ParseRationalError>)
        ensures
            parse_ok(s@) <==> r is Ok,
            r is Ok ==> r->Ok_0@ == normalize(
                parse_text(s@)->0.sign,
                parse_text(s@)->0.num,
                parse_text(s@)->0.den,
            ),
            r is Ok ==> r->Ok_0.wf(),
            r is Err ==> r->Err_0.kind == parse_error_kind(s@),
    {
        let len = s.unicode_len();
        let negative = len > 0 && s.get_char(0) == '-';
        let start: usize = if negative {
            1
        } else {
            0
        };
        let sign = if negative {
            Sign::Negative
        } else {
            Sign::Positive
        };
        let ghost b = unsigned_part(s@);
        proof {
            assert(b =~= s@.skip(start as int));
            assert(text_sign(s@) == sign);
        }
        let (end, numerator) = scan_digits(s, start);
        let ghost p = end - start;
        proof {
            assert(s@.subrange(start as int, end as int) =~= b.take(p));
            assert forall|k: int| fraction_text(b, k) implies k == p by {
                if k < p {
                    assert(b.take(p)[k] == b[k]);
                }
                if k > p {
                    assert(b.take(k)[p] == b[p]);
                }
            }
        }
        if end == start {
            proof {
                if b.len() > 0 {
                    assert(!is_digit(b[0]));
                }
            }
            return Err(ParseRationalError { kind: ParseErrorKind::Malformed });
        }
        if end == len {
            proof {
                assert(b.take(p) =~= b);
            }
            return match numerator {
                Some(n) => match Rational::new(sign, n, 1) {
                    Ok(x) => Ok(x),
                    Err(_) => Err(ParseRationalError { kind: ParseErrorKind::DivisionByZero }),
                },
                None => Err(ParseRationalError { kind: ParseErrorKind::ArithmeticOverflow }),
            };
        }
        if s.get_char(end) != '/' {
            proof {
                assert(!integer_text(b)) by {
                    assert(!is_digit(b[p]));
                }
            }
            return Err(ParseRationalError { kind: ParseErrorKind::Malformed });
        }
        let (end2, denominator) = scan_digits(s, end + 1);
        proof {
            assert(!integer_text(b)) by {
                assert(b[p] == '/');
            }
            assert(s@.subrange(end + 1, end2 as int) =~= b.skip(p + 1).take(end2 - end - 1));
        }
        if end2 == end + 1 || end2 != len {
            proof {
                if fraction_text(b, p) {
                    let rest = b.skip(p + 1);
                    if end2 == end + 1 {
                        assert(is_digit(rest[0]));
                    } else {
                        assert(is_digit(rest[end2 - end - 1]));
                    }
                }
            }
            return Err(ParseRationalError { kind: ParseErrorKind::Malformed });
        }
        proof {
            assert(b.skip(p + 1).take(end2 - end - 1) =~= b.skip(p + 1));
            assert(fraction_text(b, p));
        }
        match (numerator, denominator) {
            (Some(n), Some(d)) => match Rational::new(sign, n, d) {
                Ok(x) => Ok(x),
                Err(_) => Err(ParseRationalError { kind: ParseErrorKind::DivisionByZero }),
            },
            _ => Err(ParseRationalError { kind: ParseErrorKind::ArithmeticOverflow }),
        }
    }
}

} // verus!
