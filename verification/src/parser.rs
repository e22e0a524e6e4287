//! The executable summing parser, proved to return exactly what the model
//! in [`crate::model`] says.

use vstd::prelude::*;
use vstd::string::StrSliceExecFns;

use crate::model::all_digits;
use crate::model::delim_at_start;
use crate::model::digit_val;
use crate::model::digits_value;
use crate::model::find_newline;
use crate::model::fold_tokens;
use crate::model::is_digit;
use crate::model::parse_u64;
use crate::model::split_tokens;
use crate::model::sum_spec;
use crate::model::Error;
use crate::model::ParseIntErrorKind;

verus! {

/// Collects the characters of `s` into a vector.
fn chars_of(s: &str) -> (v: Vec<char>)
    ensures
        v@ == s@,
{
    let n = s.unicode_len();
    let mut v: Vec<char> = Vec::new();
    let mut i: usize = 0;
    while i < n
        invariant
            n == s@.len(),
            i <= n,
            v@ == s@.take(i as int),
        decreases n - i,
    {
        v.push(s.get_char(i));
        i += 1;
        assert(v@ =~= s@.take(i as int));
    }
    assert(s@.take(n as int) =~= s@);
    v
}

/// Copies `v[from..to]` into a fresh vector.
fn sub_vec(v: &Vec<char>, from: usize, to: usize) -> (r: Vec<char>)
    requires
        from <= to <= v@.len(),
    ensures
        r@ == v@.subrange(from as int, to as int),
{
    let mut r: Vec<char> = Vec::new();
    let mut i: usize = from;
    while i < to
        invariant
            from <= i <= to <= v@.len(),
            r@ == v@.subrange(from as int, i as int),
        decreases to - i,
    {
        r.push(v[i]);
        i += 1;
        assert(r@ =~= v@.subrange(from as int, i as int));
    }
    r
}

/// When the first newline of `s` stands at `j` and none before it,
/// `find_newline` returns `j`.
pub(crate) proof fn lemma_find_newline_at(s: Seq<char>, j: int)
    requires
        0 <= j < s.len(),
        s[j] == '\n',
        forall|k: int| 0 <= k < j ==> s[k] != '\n',
    ensures
        find_newline(s) == Some(j),
    decreases s.len(),
{
    if j > 0 {
        lemma_find_newline_at(s.skip(1), j - 1);
    }
}

/// When `s` holds no newline, `find_newline` returns `None`.
proof fn lemma_find_newline_none(s: Seq<char>)
    requires
        forall|k: int| 0 <= k < s.len() ==> s[k] != '\n',
    ensures
        find_newline(s) is None,
    decreases s.len(),
{
    if s.len() > 0 {
        lemma_find_newline_none(s.skip(1));
    }
}

/// Scans `v` from index `from` for the first newline.
fn find_newline_from(v: &Vec<char>, from: usize) -> (r: Option<usize>)
    requires
        from <= v@.len(),
    ensures
        match r {
            Some(i) => from <= i < v@.len() && find_newline(v@.skip(from as int)) == Some(
                i - from,
            ),
            None => find_newline(v@.skip(from as int)) is None,
        },
{
    let mut i: usize = from;
    while i < v.len()
        invariant
            from <= i <= v@.len(),
            forall|k: int| from <= k < i ==> v@[k] != '\n',
        decreases v@.len() - i,
    {
        if v[i] == '\n' {
            proof {
                lemma_find_newline_at(v@.skip(from as int), i - from);
            }
            return Some(i);
        }
        i += 1;
    }
    proof {
        lemma_find_newline_none(v@.skip(from as int));
    }
    None
}

/// The views of a sequence of character vectors.
pub open spec fn views_of(toks: Seq<Vec<char>>) -> Seq<Seq<char>> {
    toks.map_values(|t: Vec<char>| t@)
}

/// `ts` with `pre` prepended to its first element.
pub open spec fn extend_head(pre: Seq<char>, ts: Seq<Seq<char>>) -> Seq<Seq<char>>
    recommends
        ts.len() > 0,
{
    seq![pre + ts[0]] + ts.skip(1)
}

/// Splitting yields at least one token.
proof fn lemma_split_tokens_len(s: Seq<char>, d: Seq<char>)
    ensures
        split_tokens(s, d).len() >= 1,
    decreases s.len(),
{
    if s.len() != 0 && s[0] != '\n' && !delim_at_start(s, d) {
        lemma_split_tokens_len(s.skip(1), d);
    }
}

/// Splitting past a newline at `i`: an empty token ends there and the scan
/// goes on after the newline.
proof fn lemma_split_step_newline(s: Seq<char>, d: Seq<char>, i: int)
    requires
        0 <= i < s.len(),
        s[i] == '\n',
    ensures
        split_tokens(s.skip(i), d) == seq![Seq::<char>::empty()] + split_tokens(
            s.skip(i + 1),
            d,
        ),
{
    assert(s.skip(i).skip(1) =~= s.skip(i + 1));
}

/// Splitting past a delimiter occurrence at `i`: an empty token ends there
/// and the scan goes on after the delimiter.
proof fn lemma_split_step_delim(s: Seq<char>, d: Seq<char>, i: int)
    requires
        0 <= i < s.len(),
        s[i] != '\n',
        delim_at_start(s.skip(i), d),
    ensures
        split_tokens(s.skip(i), d) == seq![Seq::<char>::empty()] + split_tokens(
            s.skip(i + d.len()),
            d,
        ),
{
    assert(s.skip(i).skip(d.len() as int) =~= s.skip(i + d.len()));
}

/// Splitting past a plain character at `i`: it joins the front of the
/// first token of the rest.
proof fn lemma_split_step_char(s: Seq<char>, d: Seq<char>, i: int)
    requires
        0 <= i < s.len(),
        s[i] != '\n',
        !delim_at_start(s.skip(i), d),
    ensures
        split_tokens(s.skip(i), d) == extend_head(
            seq![s[i]],
            split_tokens(s.skip(i + 1), d),
        ),
{
    assert(s.skip(i).skip(1) =~= s.skip(i + 1));
    assert(s.skip(i)[0] == s[i]);
}

/// Whether the delimiter is a literal prefix of `s` at position `i`.
fn delim_match_at(s: &Vec<char>, i: usize, d: &Vec<char>) -> (b: bool)
    requires
        i <= s@.len(),
    ensures
        b == delim_at_start(s@.skip(i as int), d@),
{
    if d.len() == 0 || s.len() - i < d.len() {
        return false;
    }
    let sl = s.len();
    let mut k: usize = 0;
    while k < d.len()
        invariant
            0 < d@.len() <= s@.len() - i,
            i <= s@.len(),
            sl == s@.len(),
            k <= d@.len(),
            forall|m: int| 0 <= m < k ==> s@[i + m] == d@[m],
        decreases d@.len() - k,
    {
        assert(i + k < s@.len());
        if s[i + k] != d[k] {
            proof {
                let t = s@.skip(i as int);
                assert(t.take(d@.len() as int)[k as int] == s@[i + k]);
                assert(t.take(d@.len() as int) != d@);
            }
            return false;
        }
        k += 1;
    }
    proof {
        assert(s@.skip(i as int).take(d@.len() as int) =~= d@);
    }
    true
}

/// Closing the current token at a separator: pushing it and starting an
/// empty one keeps the splitting equation.
proof fn lemma_emit_token(toks: Seq<Vec<char>>, cur: Vec<char>, rest: Seq<Seq<char>>)
    requires
        rest.len() >= 1,
    ensures
        views_of(toks.push(cur)) + extend_head(Seq::<char>::empty(), rest) == views_of(toks)
            + extend_head(cur@, seq![Seq::<char>::empty()] + rest),
{
    assert(cur@ + Seq::<char>::empty() =~= cur@);
    assert((seq![Seq::<char>::empty()] + rest).skip(1) =~= rest);
    assert(extend_head(cur@, seq![Seq::<char>::empty()] + rest) =~= seq![cur@] + rest);
    assert(Seq::<char>::empty() + rest[0] =~= rest[0]);
    assert(extend_head(Seq::<char>::empty(), rest) =~= rest);
    assert(views_of(toks.push(cur)) =~= views_of(toks).push(cur@));
    assert(views_of(toks.push(cur)) + rest =~= views_of(toks) + (seq![cur@] + rest));
}

/// Splits `s` into its tokens under the delimiter `d` and the newline.
fn tokenize(s: &Vec<char>, d: &Vec<char>) -> (toks: Vec<Vec<char>>)
    ensures
        views_of(toks@) == split_tokens(s@, d@),
{
    let mut toks: Vec<Vec<char>> = Vec::new();
    let mut cur: Vec<char> = Vec::new();
    let mut i: usize = 0;
    proof {
        lemma_split_tokens_len(s@, d@);
        let whole = split_tokens(s@, d@);
        assert(s@.skip(0) =~= s@);
        assert(views_of(toks@) =~= Seq::<Seq<char>>::empty());
        assert(Seq::<char>::empty() + whole[0] =~= whole[0]);
        assert(extend_head(cur@, whole) =~= whole);
        assert(views_of(toks@) + extend_head(cur@, whole) =~= whole);
    }
    while i < s.len()
        invariant
            i <= s@.len(),
            split_tokens(s@, d@) == views_of(toks@) + extend_head(
                cur@,
                split_tokens(s@.skip(i as int), d@),
            ),
        decreases s@.len() - i,
    {
        proof {
            lemma_split_tokens_len(s@.skip(i as int + 1), d@);
        }
        if s[i] == '\n' {
            proof {
                lemma_split_step_newline(s@, d@, i as int);
                lemma_emit_token(toks@, cur, split_tokens(s@.skip(i as int + 1), d@));
            }
            toks.push(cur);
            cur = Vec::new();
            i += 1;
        } else if delim_match_at(s, i, d) {
            proof {
                lemma_split_step_delim(s@, d@, i as int);
                lemma_split_tokens_len(s@.skip(i as int + d@.len() as int), d@);
                lemma_emit_token(
                    toks@,
                    cur,
                    split_tokens(s@.skip(i as int + d@.len() as int), d@),
                );
            }
            toks.push(cur);
            cur = Vec::new();
            i += d.len();
        } else {
            proof {
                lemma_split_step_char(s@, d@, i as int);
                let rest = split_tokens(s@.skip(i as int + 1), d@);
                assert(extend_head(seq![s@[i as int]], rest).skip(1) =~= rest.skip(1));
                assert(cur@ + (seq![s@[i as int]] + rest[0]) =~= cur@.push(s@[i as int])
                    + rest[0]);
                assert(extend_head(cur@, split_tokens(s@.skip(i as int), d@)) =~= extend_head(
                    cur@.push(s@[i as int]),
                    rest,
                ));
            }
            let c = s[i];
            cur.push(c);
            i += 1;
        }
    }
    proof {
        assert(s@.skip(s@.len() as int) =~= Seq::<char>::empty());
        let last = split_tokens(s@.skip(i as int), d@);
        assert(last =~= seq![Seq::<char>::empty()]);
        assert(cur@ + Seq::<char>::empty() =~= cur@);
        assert(extend_head(cur@, last) =~= seq![cur@]);
        assert(views_of(toks@.push(cur)) =~= views_of(toks@).push(cur@));
        assert(views_of(toks@) + seq![cur@] =~= views_of(toks@).push(cur@));
    }
    toks.push(cur);
    toks
}

/// A string of digits denotes a non-negative number.
proof fn lemma_digits_value_nonneg(t: Seq<char>)
    requires
        all_digits(t),
    ensures
        digits_value(t) >= 0,
    decreases t.len(),
{
    if t.len() > 0 {
        assert(all_digits(t.drop_last()));
        lemma_digits_value_nonneg(t.drop_last());
    }
}

/// A prefix of a digit string denotes no more than the whole string.
proof fn lemma_digits_value_mono(t: Seq<char>, j: int)
    requires
        all_digits(t),
        0 <= j <= t.len(),
    ensures
        digits_value(t.take(j)) <= digits_value(t),
    decreases t.len() - j,
{
    if j < t.len() {
        assert(t.take(j + 1).drop_last() =~= t.take(j));
        assert(t.take(j + 1).last() == t[j]);
        assert(all_digits(t.take(j)));
        lemma_digits_value_nonneg(t.take(j));
        lemma_digits_value_mono(t, j + 1);
    } else {
        assert(t.take(j) =~= t);
    }
}

/// Parses one token as an unsigned 64-bit integer, exactly as the model's
/// `parse_u64` says.
fn parse_token(t: &Vec<char>) -> (r: Result<u64, ParseIntErrorKind>)
    ensures
        r == parse_u64(t@),
{
    if t.len() == 0 {
        return Err(ParseIntErrorKind::InvalidDigit);
    }
    let mut i: usize = 0;
    while i < t.len()
        invariant
            i <= t@.len(),
            forall|k: int| 0 <= k < i ==> is_digit(t@[k]),
        decreases t@.len() - i,
    {
        let c = t[i];
        if c < '0' || c > '9' {
            assert(!is_digit(t@[i as int]));
            return Err(ParseIntErrorKind::InvalidDigit);
        }
        i += 1;
    }
    assert(all_digits(t@));
    let mut acc: u64 = 0;
    let mut j: usize = 0;
    while j < t.len()
        invariant
            j <= t@.len(),
            all_digits(t@),
            acc == digits_value(t@.take(j as int)),
        decreases t@.len() - j,
    {
        let c = t[j];
        assert(is_digit(t@[j as int]));
        let dv: u64 = (c as u32 - '0' as u32) as u64;
        assert(dv == digit_val(t@[j as int]));
        proof {
            assert(t@.take(j + 1).drop_last() =~= t@.take(j as int));
            assert(t@.take(j + 1).last() == t@[j as int]);
        }
        let next: Option<u64> = match acc.checked_mul(10) {
            Some(p) => p.checked_add(dv),
            None => None,
        };
        match next {
            Some(v) => {
                acc = v;
                j += 1;
            },
            None => {
                proof {
                    assert(digits_value(t@.take(j + 1)) > u64::MAX);
                    lemma_digits_value_mono(t@, j + 1);
                }
                return Err(ParseIntErrorKind::PosOverflow);
            },
        }
    }
    assert(t@.take(t@.len() as int) =~= t@);
    Ok(acc)
}

/// Folds the tokens into a sum from zero, exactly as the model's
/// `fold_tokens` says.
fn sum_fold(toks: &Vec<Vec<char>>) -> (r: Result<u64, Error>)
    ensures
        r == fold_tokens(views_of(toks@), 0u64),
{
    let mut acc: u64 = 0;
    let mut j: usize = 0;
    proof {
        assert(views_of(toks@).skip(0) =~= views_of(toks@));
    }
    while j < toks.len()
        invariant
            j <= toks@.len(),
            fold_tokens(views_of(toks@), 0u64) == fold_tokens(
                views_of(toks@).skip(j as int),
                acc,
            ),
        decreases toks@.len() - j,
    {
        proof {
            assert(views_of(toks@).skip(j as int)[0] == toks@[j as int]@);
            assert(views_of(toks@).skip(j as int).skip(1) =~= views_of(toks@).skip(j + 1));
        }
        let t = &toks[j];
        if t.len() > 0 {
            match parse_token(t) {
                Ok(n) => {
                    match acc.checked_add(n) {
                        Some(v) => {
                            acc = v;
                        },
                        None => {
                            return Err(Error::Overflow);
                        },
                    }
                },
                Err(k) => {
                    return Err(Error::ParseInt(k));
                },
            }
        }
        j += 1;
    }
    proof {
        assert(views_of(toks@).skip(toks@.len() as int) =~= Seq::<Seq<char>>::empty());
    }
    Ok(acc)
}

/// Computes the sum of the numbers in `input`: by default they are
/// separated by commas or newlines; an input of the form
/// `//<delimiter>\n<rest>` declares its own delimiter, with the newline
/// still separating.  Returns exactly what the model's `sum_spec` says of
/// the input, so in particular it never panics.
pub fn add(input: &str) -> (r: Result<u64, Error>)
    ensures
        r == sum_spec(input@),
{
    let n = input.unicode_len();
    if n == 0 {
        return Ok(0);
    }
    let chars = chars_of(input);
    let has_header = n >= 2 && chars[0] == '/' && chars[1] == '/';
    if has_header {
        match find_newline_from(&chars, 2) {
            None => Err(Error::UnexpectedEndOfString),
            Some(i) => {
                let delim = sub_vec(&chars, 2, i);
                let rest = sub_vec(&chars, i + 1, chars.len());
                proof {
                    assert(chars@.subrange(2, i as int) =~= chars@.skip(2).take(i - 2));
                    assert(chars@.subrange(i + 1, chars@.len() as int) =~= chars@.skip(2).skip(
                        i - 2 + 1,
                    ));
                }
                let toks = tokenize(&rest, &delim);
                sum_fold(&toks)
            },
        }
    } else {
        let mut delim: Vec<char> = Vec::new();
        delim.push(',');
        proof {
            assert(delim@ =~= seq![',']);
        }
        let toks = tokenize(&chars, &delim);
        sum_fold(&toks)
    }
}

} // verus!
