//! General laws of the summing parser, each proved against the model in
//! [`crate::model`]: the empty input, single numbers, purely alphabetic
//! inputs, lists joined by the default comma, lists under a declared
//! delimiter, and lists that mix the delimiter with newlines.

use vstd::prelude::*;

use crate::model::all_digits;
use crate::model::delim_at_start;
use crate::model::digit_val;
use crate::model::digits_value;
use crate::model::fold_tokens;
use crate::model::is_digit;
use crate::model::parse_u64;
use crate::model::split_tokens;
use crate::model::sum_spec;
use crate::model::Error;
use crate::model::ParseIntErrorKind;

verus! {

/// The decimal digit character of a value between zero and nine.
pub open spec fn digit_char(d: int) -> char
    recommends
        0 <= d <= 9,
{
    if d == 0 {
        '0'
    } else if d == 1 {
        '1'
    } else if d == 2 {
        '2'
    } else if d == 3 {
        '3'
    } else if d == 4 {
        '4'
    } else if d == 5 {
        '5'
    } else if d == 6 {
        '6'
    } else if d == 7 {
        '7'
    } else if d == 8 {
        '8'
    } else {
        '9'
    }
}

/// The decimal numeral of `n`, most significant digit first and without a
/// sign, as `u64::to_string` renders it.
pub open spec fn dec_digits(n: int) -> Seq<char>
    recommends
        n >= 0,
    decreases n,
{
    if n < 10 {
        seq![digit_char(n)]
    } else {
        dec_digits(n / 10) + seq![digit_char(n % 10)]
    }
}

/// A numeral consists of digits and denotes the number it was made from.
pub proof fn lemma_dec_digits(n: int)
    requires
        n >= 0,
    ensures
        dec_digits(n).len() >= 1,
        all_digits(dec_digits(n)),
        digits_value(dec_digits(n)) == n,
    decreases n,
{
    if n < 10 {
        let t = seq![digit_char(n)];
        assert(t.drop_last() =~= Seq::<char>::empty());
        assert(digits_value(Seq::<char>::empty()) == 0);
        assert(t.last() == digit_char(n));
        assert(digits_value(t) == digit_val(digit_char(n)));
    } else {
        lemma_dec_digits(n / 10);
        let p = dec_digits(n / 10);
        let t = p + seq![digit_char(n % 10)];
        assert(t.drop_last() =~= p);
        assert(t.last() == digit_char(n % 10));
        assert(digits_value(t) == digits_value(p) * 10 + digit_val(digit_char(n % 10)));
        assert(forall|i: int|
            0 <= i < t.len() ==> is_digit(#[trigger] t[i]) == if i < p.len() {
                is_digit(p[i])
            } else {
                is_digit(digit_char(n % 10))
            });
    }
}

/// The sum of `ns` in unbounded integers.
pub open spec fn total(ns: Seq<u64>) -> int
    decreases ns.len(),
{
    if ns.len() == 0 {
        0
    } else {
        ns[0] + total(ns.skip(1))
    }
}

/// A sum of unsigned values is at least its first addend and never
/// negative.
proof fn lemma_total_nonneg(ns: Seq<u64>)
    ensures
        total(ns) >= 0,
    decreases ns.len(),
{
    if ns.len() > 0 {
        lemma_total_nonneg(ns.skip(1));
    }
}

/// The numbers `ns` rendered as numerals with `seps[k]` written between
/// the numerals `k` and `k + 1`.
pub open spec fn joined(ns: Seq<u64>, seps: Seq<Seq<char>>) -> Seq<char>
    recommends
        ns.len() <= seps.len() + 1,
    decreases ns.len(),
{
    if ns.len() == 0 {
        Seq::<char>::empty()
    } else if ns.len() == 1 {
        dec_digits(ns[0] as int)
    } else {
        dec_digits(ns[0] as int) + seps[0] + joined(ns.skip(1), seps.skip(1))
    }
}

/// The same separator written between all the numerals.
pub open spec fn seps_for(ns: Seq<u64>, sep: Seq<char>) -> Seq<Seq<char>> {
    Seq::<Seq<char>>::new(if ns.len() == 0 {
        0
    } else {
        (ns.len() - 1) as nat
    }, |k: int| sep)
}

/// A delimiter the joining laws can use: non-empty, and free of digits and
/// newlines.
pub open spec fn clean_delim(d: Seq<char>) -> bool {
    d.len() > 0 && forall|i: int| 0 <= i < d.len() ==> !is_digit(#[trigger] d[i]) && d[i]
        != '\n'
}

/// `c` is an ASCII letter.
pub open spec fn is_ascii_alpha(c: char) -> bool {
    ('a' <= c && c <= 'z') || ('A' <= c && c <= 'Z')
}

/// `c` is an ASCII punctuation character.
pub open spec fn is_ascii_punct(c: char) -> bool {
    ('!' <= c && c <= '/') || (':' <= c && c <= '@') || ('[' <= c && c <= '`') || ('{' <= c
        && c <= '~')
}

/// A text whose characters are neither newlines nor the first character of
/// `d` splits into itself alone.
proof fn lemma_split_whole(p: Seq<char>, d: Seq<char>)
    requires
        forall|i: int| 0 <= i < p.len() ==> p[i] != '\n' && #[trigger] p[i] != d[0],
    ensures
        split_tokens(p, d) == seq![p],
    decreases p.len(),
{
    if p.len() == 0 {
        assert(seq![Seq::<char>::empty()] =~~= seq![p]);
    } else {
        assert(!delim_at_start(p, d)) by {
            if delim_at_start(p, d) {
                assert(p.take(d.len() as int)[0] == p[0]);
            }
        }
        lemma_split_whole(p.skip(1), d);
        let rest = split_tokens(p.skip(1), d);
        assert(seq![p[0]] + rest[0] =~= p);
        assert(seq![seq![p[0]] + rest[0]] + rest.skip(1) =~= seq![p]);
    }
}

/// Splitting a text that starts with a boundary-free piece, then one
/// separator, then a remainder: the piece becomes the first token and the
/// remainder splits on its own.
proof fn lemma_split_piece(p: Seq<char>, sep: Seq<char>, r: Seq<char>, d: Seq<char>)
    requires
        clean_delim(d),
        forall|i: int| 0 <= i < p.len() ==> p[i] != '\n' && #[trigger] p[i] != d[0],
        sep == d || sep == seq!['\n'],
    ensures
        split_tokens(p + sep + r, d) == seq![p] + split_tokens(r, d),
    decreases p.len(),
{
    let s = p + sep + r;
    if p.len() == 0 {
        if sep == seq!['\n'] {
            assert(s[0] == '\n');
            assert(s.skip(1) =~= r);
            assert(seq![Seq::<char>::empty()] + split_tokens(r, d) =~~= seq![p] + split_tokens(
                r,
                d,
            ));
        } else {
            assert(s[0] == d[0]);
            assert(s[0] != '\n');
            assert(delim_at_start(s, d)) by {
                assert(s.take(d.len() as int) =~= d);
            }
            assert(s.skip(d.len() as int) =~= r);
            assert(seq![Seq::<char>::empty()] + split_tokens(r, d) =~~= seq![p] + split_tokens(
                r,
                d,
            ));
        }
    } else {
        assert(s[0] == p[0]);
        assert(s[0] != '\n');
        assert(!delim_at_start(s, d)) by {
            if delim_at_start(s, d) {
                assert(s.take(d.len() as int)[0] == s[0]);
            }
        }
        assert(s.skip(1) =~= p.skip(1) + sep + r);
        lemma_split_piece(p.skip(1), sep, r, d);
        let rest = split_tokens(s.skip(1), d);
        assert(rest[0] == p.skip(1));
        assert(seq![s[0]] + rest[0] =~= p);
        assert(rest.skip(1) =~= split_tokens(r, d));
        assert(seq![seq![s[0]] + rest[0]] + rest.skip(1) =~~= seq![p] + split_tokens(r, d));
    }
}

/// A numeral holds neither a newline nor the first character of a clean
/// delimiter.
proof fn lemma_numeral_free_of_boundaries(p: Seq<char>, d: Seq<char>)
    requires
        all_digits(p),
        clean_delim(d),
    ensures
        forall|i: int| 0 <= i < p.len() ==> p[i] != '\n' && #[trigger] p[i] != d[0],
{
    assert forall|i: int| 0 <= i < p.len() implies p[i] != '\n' && #[trigger] p[i] != d[0] by {
        assert(is_digit(p[i]));
        assert(!is_digit(d[0]));
    }
}

/// Folding the tokens of a joined list adds its numbers to `acc` when the
/// result fits in `u64`, and fails with `Overflow` when it does not.
proof fn lemma_fold_joined(ns: Seq<u64>, seps: Seq<Seq<char>>, d: Seq<char>, acc: u64)
    requires
        clean_delim(d),
        ns.len() <= seps.len() + 1,
        forall|k: int| 0 <= k < seps.len() ==> #[trigger] seps[k] == d || seps[k] == seq!['\n'],
    ensures
        fold_tokens(split_tokens(joined(ns, seps), d), acc) == (if acc + total(ns)
            <= u64::MAX {
            Ok::<u64, Error>((acc + total(ns)) as u64)
        } else {
            Err::<u64, Error>(Error::Overflow)
        }),
    decreases ns.len(),
{
    if ns.len() == 0 {
        assert(split_tokens(Seq::<char>::empty(), d) == seq![Seq::<char>::empty()]);
        assert(seq![Seq::<char>::empty()].skip(1) =~= Seq::<Seq<char>>::empty());
        assert(fold_tokens(Seq::<Seq<char>>::empty(), acc) == Ok::<u64, Error>(acc));
    } else if ns.len() == 1 {
        lemma_dec_digits(ns[0] as int);
        let p = dec_digits(ns[0] as int);
        lemma_numeral_free_of_boundaries(p, d);
        lemma_split_whole(p, d);
        assert(parse_u64(p) == Ok::<u64, ParseIntErrorKind>(ns[0]));
        assert(seq![p].skip(1) =~= Seq::<Seq<char>>::empty());
        assert(ns.skip(1) =~= Seq::<u64>::empty());
        assert(total(Seq::<u64>::empty()) == 0);
        assert(total(ns) == ns[0]);
        assert(seq![p][0] == p);
        if acc + ns[0] <= u64::MAX {
            let a2 = (acc + ns[0]) as u64;
            assert(fold_tokens(Seq::<Seq<char>>::empty(), a2) == Ok::<u64, Error>(a2));
        }
    } else {
        lemma_dec_digits(ns[0] as int);
        let p = dec_digits(ns[0] as int);
        let r = joined(ns.skip(1), seps.skip(1));
        lemma_numeral_free_of_boundaries(p, d);
        lemma_split_piece(p, seps[0], r, d);
        let toks = seq![p] + split_tokens(r, d);
        assert(toks[0] == p);
        assert(parse_u64(p) == Ok::<u64, ParseIntErrorKind>(ns[0]));
        lemma_total_nonneg(ns.skip(1));
        if acc + ns[0] > u64::MAX {
            assert(fold_tokens(toks, acc) == Err::<u64, Error>(Error::Overflow));
        } else {
            assert(toks.skip(1) =~= split_tokens(r, d));
            lemma_fold_joined(ns.skip(1), seps.skip(1), d, (acc + ns[0]) as u64);
            assert(fold_tokens(toks, acc) == fold_tokens(
                split_tokens(r, d),
                (acc + ns[0]) as u64,
            ));
        }
    }
}

/// The input that declares the delimiter `d` in a `//` header and goes on
/// with `body`.
pub open spec fn with_header(d: Seq<char>, body: Seq<char>) -> Seq<char> {
    seq!['/', '/'] + d + seq!['\n'] + body
}

/// An empty input sums to zero.
pub proof fn lemma_empty_input(s: Seq<char>)
    requires
        s.len() == 0,
    ensures
        sum_spec(s) == Ok::<u64, Error>(0u64),
{
}

/// A list of numbers joined by commas or newlines sums to its exact total
/// when that total fits in `u64`, and fails with `Overflow` when it does
/// not.
pub proof fn lemma_default_mixed_separators(ns: Seq<u64>, seps: Seq<Seq<char>>)
    requires
        ns.len() <= seps.len() + 1,
        forall|k: int|
            0 <= k < seps.len() ==> #[trigger] seps[k] == seq![','] || seps[k] == seq!['\n'],
    ensures
        sum_spec(joined(ns, seps)) == (if total(ns) <= u64::MAX {
            Ok::<u64, Error>(total(ns) as u64)
        } else {
            Err::<u64, Error>(Error::Overflow)
        }),
{
    let d = seq![','];
    assert(clean_delim(d)) by {
        assert(d[0] == ',');
    }
    let s = joined(ns, seps);
    if ns.len() == 0 {
        lemma_total_nonneg(ns);
    } else {
        lemma_dec_digits(ns[0] as int);
        let p = dec_digits(ns[0] as int);
        assert(s[0] == p[0]);
        assert(is_digit(s[0]));
        assert(s[0] != '/');
        assert(s.len() > 0);
        lemma_fold_joined(ns, seps, d, 0u64);
    }
}

/// A list of numbers joined by the default comma sums to its exact total
/// when that total fits in `u64`, and fails with `Overflow` when it does
/// not.
pub proof fn lemma_default_delimiter(ns: Seq<u64>)
    ensures
        sum_spec(joined(ns, seps_for(ns, seq![',']))) == (if total(ns) <= u64::MAX {
            Ok::<u64, Error>(total(ns) as u64)
        } else {
            Err::<u64, Error>(Error::Overflow)
        }),
{
    lemma_default_mixed_separators(ns, seps_for(ns, seq![',']));
}

/// The numeral of any `u64` value sums to that value.
pub proof fn lemma_single_number(n: u64)
    ensures
        sum_spec(dec_digits(n as int)) == Ok::<u64, Error>(n),
{
    let ns = seq![n];
    assert(joined(ns, seps_for(ns, seq![','])) == dec_digits(n as int));
    assert(ns.skip(1) =~= Seq::<u64>::empty());
    assert(total(Seq::<u64>::empty()) == 0);
    assert(total(ns) == n);
    lemma_default_delimiter(ns);
}

/// A non-empty input of nothing but ASCII letters fails with an invalid
/// digit parse error.
pub proof fn lemma_alphabetic_input(s: Seq<char>)
    requires
        s.len() > 0,
        forall|i: int| 0 <= i < s.len() ==> is_ascii_alpha(#[trigger] s[i]),
    ensures
        sum_spec(s) == Err::<u64, Error>(Error::ParseInt(ParseIntErrorKind::InvalidDigit)),
{
    assert(is_ascii_alpha(s[0]));
    assert(s[0] != '/');
    let d = seq![','];
    assert forall|i: int| 0 <= i < s.len() implies s[i] != '\n' && #[trigger] s[i] != d[0] by {
        assert(is_ascii_alpha(s[i]));
        assert(d[0] == ',');
    }
    lemma_split_whole(s, d);
    assert(!is_digit(s[0]));
    assert(!all_digits(s));
    assert(parse_u64(s) == Err::<u64, ParseIntErrorKind>(ParseIntErrorKind::InvalidDigit));
    assert(seq![s][0] == s);
}

/// A delimiter of ASCII letters and punctuation holds neither digits nor
/// newlines.
proof fn lemma_printable_delim_is_clean(d: Seq<char>)
    requires
        d.len() > 0,
        forall|i: int|
            0 <= i < d.len() ==> is_ascii_alpha(#[trigger] d[i]) || is_ascii_punct(d[i]),
    ensures
        clean_delim(d),
{
    assert forall|i: int| 0 <= i < d.len() implies !is_digit(#[trigger] d[i]) && d[i] != '\n' by {
        assert(is_ascii_alpha(d[i]) || is_ascii_punct(d[i]));
    }
}

/// Declaring a delimiter of ASCII letters and punctuation and joining the
/// numbers with it, or with newlines in any mixture, reproduces exactly
/// the result of joining them with the default comma.
pub proof fn lemma_custom_mixed_separators(ns: Seq<u64>, d: Seq<char>, seps: Seq<Seq<char>>)
    requires
        d.len() > 0,
        forall|i: int|
            0 <= i < d.len() ==> is_ascii_alpha(#[trigger] d[i]) || is_ascii_punct(d[i]),
        ns.len() <= seps.len() + 1,
        forall|k: int| 0 <= k < seps.len() ==> #[trigger] seps[k] == d || seps[k] == seq!['\n'],
    ensures
        sum_spec(with_header(d, joined(ns, seps))) == sum_spec(
            joined(ns, seps_for(ns, seq![','])),
        ),
{
    lemma_printable_delim_is_clean(d);
    let body = joined(ns, seps);
    let s = with_header(d, body);
    assert(s.len() == 3 + d.len() + body.len());
    assert(s[0] == '/');
    assert(s[1] == '/');
    let tail = s.skip(2);
    assert(tail =~= d + seq!['\n'] + body);
    assert(tail[d.len() as int] == '\n');
    assert forall|k: int| 0 <= k < d.len() implies tail[k] != '\n' by {
        assert(tail[k] == d[k]);
        assert(!is_digit(d[k]) && d[k] != '\n');
    }
    crate::parser::lemma_find_newline_at(tail, d.len() as int);
    assert(tail.take(d.len() as int) =~= d);
    assert(tail.skip(d.len() as int + 1) =~= body);
    lemma_fold_joined(ns, seps, d, 0u64);
    lemma_default_mixed_separators(ns, seps_for(ns, seq![',']));
}

/// Declaring a delimiter of ASCII letters and punctuation and joining the
/// numbers with it reproduces exactly the result of joining them with the
/// default comma.
pub proof fn lemma_custom_delimiter(ns: Seq<u64>, d: Seq<char>)
    requires
        d.len() > 0,
        forall|i: int|
            0 <= i < d.len() ==> is_ascii_alpha(#[trigger] d[i]) || is_ascii_punct(d[i]),
    ensures
        sum_spec(with_header(d, joined(ns, seps_for(ns, d)))) == sum_spec(
            joined(ns, seps_for(ns, seq![','])),
        ),
{
    lemma_custom_mixed_separators(ns, d, seps_for(ns, d));
}

} // verus!
