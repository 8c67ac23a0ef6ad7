//! Instance loading: the file name encodes `input_size` (the digit run
//! after the first `n`) and `solution_size` (the digit run after the next
//! `_`, one marker byte later, up to the `.txt` suffix); the file body is a
//! header line to skip, then whitespace-separated integer distances that
//! fill the matrix row-major. Any malformed name, non-numeric or oversized
//! token, or wrong number of values is a fatal load error.
use crate::matrix::DistanceMatrix;
use crate::problem::MaximumDiversity;
use vstd::prelude::*;

verus! {

/// Load errors: loading either yields a well-formed instance or fails with
/// the first of these that applies; there is no partial result.
#[derive(Debug, Clone, Copy, PartialEq, Eq, Structural)]
pub enum LoadError {
    /// The file name does not encode the two sizes.
    MalformedName,
    /// The sizes do not satisfy `0 < solution_size <= input_size`, or the
    /// matrix they call for cannot be addressed.
    InvalidSizes,
    /// A token of the body is not an unsigned integer in range.
    NonNumericToken,
    /// The body does not hold exactly `input_size * input_size` values.
    WrongValueCount,
}

pub open spec fn is_digit(b: u8) -> bool {
    48 <= b <= 57
}

pub open spec fn is_space(b: u8) -> bool {
    b == 32 || b == 9 || b == 10 || b == 12 || b == 13
}

pub open spec fn all_digits(s: Seq<u8>) -> bool {
    forall|t: int| 0 <= t < s.len() ==> is_digit(#[trigger] s[t])
}

/// The number a run of decimal digit bytes denotes.
pub open spec fn digits_val(s: Seq<u8>) -> int
    decreases s.len(),
{
    if s.len() == 0 {
        0
    } else {
        digits_val(s.drop_last()) * 10 + (s.last() - 48)
    }
}

/// The first index at or after `i` holding byte `b`, or the length.
pub open spec fn find_from(s: Seq<u8>, b: u8, i: int) -> int
    decreases s.len() - i,
{
    if i < 0 || i >= s.len() {
        s.len() as int
    } else if s[i] == b {
        i
    } else {
        find_from(s, b, i + 1)
    }
}

pub proof fn lemma_digits_val_nonneg(s: Seq<u8>)
    requires
        all_digits(s),
    ensures
        digits_val(s) >= 0,
    decreases s.len(),
{
    if s.len() > 0 {
        assert(all_digits(s.drop_last())) by {
            assert(forall|t: int| 0 <= t < s.len() - 1 ==> s.drop_last()[t] == s[t]);
        }
        lemma_digits_val_nonneg(s.drop_last());
    }
}

/// A prefix of a digit run denotes at most what the full run denotes.
pub proof fn lemma_digits_val_take_le(s: Seq<u8>, m: int)
    requires
        all_digits(s),
        0 <= m <= s.len(),
    ensures
        0 <= digits_val(s.take(m)) <= digits_val(s),
    decreases s.len(),
{
    if m == s.len() {
        assert(s.take(m) =~= s);
        lemma_digits_val_nonneg(s);
    } else {
        let dl = s.drop_last();
        assert(all_digits(dl)) by {
            assert(forall|t: int| 0 <= t < s.len() - 1 ==> dl[t] == s[t]);
        }
        assert(dl.take(m) =~= s.take(m));
        lemma_digits_val_take_le(dl, m);
        lemma_digits_val_nonneg(dl);
    }
}

/// Parses the digit run `s[a..b]` as a number of at most `max`. Returns
/// `None` exactly when the run holds a non-digit byte or denotes a number
/// above `max`.
fn parse_digit_run(s: &[u8], a: usize, b: usize, max: u64) -> (r: Option<u64>)
    requires
        a <= b <= s@.len(),
    ensures
        match r {
            Some(v) => all_digits(s@.subrange(a as int, b as int)) && digits_val(
                s@.subrange(a as int, b as int),
            ) == v && v <= max,
            None => !(all_digits(s@.subrange(a as int, b as int)) && digits_val(
                s@.subrange(a as int, b as int),
            ) <= max),
        },
{
    let ghost whole = s@.subrange(a as int, b as int);
    let mut val: u64 = 0;
    let mut i: usize = a;
    while i < b
        invariant
            a <= i <= b <= s@.len(),
            whole == s@.subrange(a as int, b as int),
            all_digits(s@.subrange(a as int, i as int)),
            val == digits_val(s@.subrange(a as int, i as int)),
            val <= max,
        decreases b - i,
    {
        let byte = s[i];
        let ghost pre = s@.subrange(a as int, i as int);
        let ghost cur = s@.subrange(a as int, i as int + 1);
        proof {
            assert(cur.drop_last() =~= pre);
            assert(cur.last() == s@[i as int]);
            assert(whole.take(i as int + 1 - a) =~= cur);
            assert(forall|t: int| 0 <= t < cur.len() ==> cur[t] == whole[t]);
        }
        if byte < 48 || byte > 57 {
            proof {
                assert(whole[i as int - a] == byte);
                assert(!all_digits(whole));
            }
            return None;
        }
        let d = (byte - 48) as u64;
        let next = (val as u128) * 10 + (d as u128);
        if next > max as u128 {
            proof {
                assert(digits_val(cur) == next);
                if all_digits(whole) {
                    lemma_digits_val_take_le(whole, i as int + 1 - a);
                }
            }
            return None;
        }
        val = next as u64;
        i = i + 1;
    }
    proof {
        assert(s@.subrange(a as int, b as int) =~= whole);
    }
    Some(val)
}

/// The first index at or after `from` holding `b`, or the length.
fn find_byte(s: &[u8], b: u8, from: usize) -> (r: usize)
    requires
        from <= s@.len(),
    ensures
        r == find_from(s@, b, from as int),
        from <= r <= s@.len(),
        r < s@.len() ==> s@[r as int] == b,
{
    let len = s.len();
    let mut i: usize = from;
    while i < len
        invariant
            from <= i <= len,
            len == s@.len(),
            find_from(s@, b, from as int) == find_from(s@, b, i as int),
        decreases len - i,
    {
        if s[i] == b {
            return i;
        }
        i = i + 1;
    }
    len
}

/// The `.txt` suffix every instance file name carries.
pub open spec fn dot_txt() -> Seq<u8> {
    seq![46u8, 116u8, 120u8, 116u8]
}

/// What a file name denotes: the digit run after the first `n` gives
/// `input_size`; after the following `_` one marker byte is skipped and the
/// digit run up to the `.txt` suffix gives `solution_size`. `None` when the
/// name does not have this shape or a run overflows the machine's sizes.
pub open spec fn spec_parse_name(s: Seq<u8>) -> Option<(int, int)> {
    let p = find_from(s, 110, 0);
    let q = find_from(s, 95, p + 1);
    if p == s.len() || q == s.len() {
        None
    } else if s.len() < 4 || s.subrange(s.len() - 4, s.len() as int) != dot_txt() {
        None
    } else if !(p + 1 < q && q + 2 <= s.len() - 4) {
        None
    } else {
        let ds = s.subrange(p + 1, q);
        let ks = s.subrange(q + 2, s.len() - 4);
        if all_digits(ds) && digits_val(ds) <= usize::MAX && all_digits(ks) && digits_val(ks)
            <= usize::MAX {
            Some((digits_val(ds), digits_val(ks)))
        } else {
            None
        }
    }
}

/// Extracts `(input_size, solution_size)` from a file name, as
/// `spec_parse_name` denotes it.
pub fn parse_instance_name(name: &[u8]) -> (r: Result<(usize, usize), LoadError>)
    ensures
        match r {
            Ok(nk) => spec_parse_name(name@) == Some((nk.0 as int, nk.1 as int)),
            Err(e) => e == LoadError::MalformedName && spec_parse_name(name@) is None,
        },
{
    let len = name.len();
    let p = find_byte(name, 110, 0);
    if p == len {
        return Err(LoadError::MalformedName);
    }
    let q = find_byte(name, 95, p + 1);
    if q == len {
        return Err(LoadError::MalformedName);
    }
    if len < 4 || name[len - 4] != 46 || name[len - 3] != 116 || name[len - 2] != 120 || name[len
        - 1] != 116 {
        proof {
            if name@.len() >= 4 {
                assert(name@.subrange(name@.len() - 4, name@.len() as int) != dot_txt());
            }
        }
        return Err(LoadError::MalformedName);
    }
    proof {
        assert(name@.subrange(name@.len() - 4, name@.len() as int) =~= dot_txt());
    }
    if !(p + 1 < q && q + 2 <= len - 4) {
        return Err(LoadError::MalformedName);
    }
    let nv = match parse_digit_run(name, p + 1, q, usize::MAX as u64) {
        Some(v) => v,
        None => {
            return Err(LoadError::MalformedName);
        },
    };
    let kv = match parse_digit_run(name, q + 2, len - 4, usize::MAX as u64) {
        Some(v) => v,
        None => {
            return Err(LoadError::MalformedName);
        },
    };
    Ok((nv as usize, kv as usize))
}

/// Length of the maximal non-whitespace run at the head of `s`.
pub open spec fn run_len(s: Seq<u8>) -> int
    decreases s.len(),
{
    if s.len() == 0 || is_space(s[0]) {
        0
    } else {
        1 + run_len(s.skip(1))
    }
}

pub proof fn lemma_run_len(s: Seq<u8>)
    ensures
        0 <= run_len(s) <= s.len(),
        forall|t: int| 0 <= t < run_len(s) ==> !is_space(#[trigger] s[t]),
        run_len(s) < s.len() ==> is_space(s[run_len(s)]),
    decreases s.len(),
{
    if s.len() > 0 && !is_space(s[0]) {
        lemma_run_len(s.skip(1));
        assert(forall|t: int| 0 <= t < s.len() - 1 ==> s.skip(1)[t] == s[t + 1]);
        assert forall|t: int| 0 <= t < run_len(s) implies !is_space(#[trigger] s[t]) by {
            if t > 0 {
                assert(!is_space(s.skip(1)[t - 1]));
            }
        }
        if run_len(s) < s.len() {
            assert(is_space(s.skip(1)[run_len(s) - 1]));
        }
    }
}

/// What the whitespace-separated tokens of `s` denote: the numbers they
/// spell, in order, or `None` if some token is not an unsigned integer that
/// fits a distance.
pub open spec fn parse_vals(s: Seq<u8>) -> Option<Seq<u64>>
    decreases s.len(),
    via parse_vals_decreases
{
    if s.len() == 0 {
        Some(Seq::empty())
    } else if is_space(s[0]) {
        parse_vals(s.skip(1))
    } else {
        let m = run_len(s);
        let tok = s.take(m);
        if all_digits(tok) && digits_val(tok) <= u64::MAX {
            match parse_vals(s.skip(m)) {
                Some(rest) => Some(seq![digits_val(tok) as u64] + rest),
                None => None,
            }
        } else {
            None
        }
    }
}

#[via_fn]
proof fn parse_vals_decreases(s: Seq<u8>) {
    if s.len() > 0 && !is_space(s[0]) {
        lemma_run_len(s);
    }
}

/// What a file body denotes: the first line is a size header and is
/// skipped; the remaining tokens are the matrix values, row-major.
pub open spec fn body_values(s: Seq<u8>) -> Option<Seq<u64>> {
    let h = find_from(s, 10, 0);
    if h == s.len() {
        Some(Seq::empty())
    } else {
        parse_vals(s.skip(h + 1))
    }
}

/// Parses the whitespace-separated integer tokens of `s[start..]`.
fn parse_token_values(s: &[u8], start: usize) -> (r: Result<Vec<u64>, LoadError>)
    requires
        start <= s@.len(),
    ensures
        match r {
            Ok(vals) => parse_vals(s@.skip(start as int)) == Some(vals@),
            Err(e) => e == LoadError::NonNumericToken && parse_vals(s@.skip(start as int)) is None,
        },
{
    let len = s.len();
    let ghost c = s@.skip(start as int);
    let mut vals: Vec<u64> = Vec::new();
    let mut i: usize = start;
    while i < len
        invariant
            start <= i <= len,
            len == s@.len(),
            c == s@.skip(start as int),
            match parse_vals(s@.skip(i as int)) {
                Some(rest) => parse_vals(c) == Some(vals@ + rest),
                None => parse_vals(c) is None,
            },
        decreases len - i,
    {
        let ghost suf = s@.skip(i as int);
        proof {
            assert(suf.len() == len - i);
            assert(forall|t: int| 0 <= t < suf.len() ==> suf[t] == s@[i + t]);
        }
        let byte = s[i];
        if byte == 32 || byte == 9 || byte == 10 || byte == 12 || byte == 13 {
            proof {
                assert(is_space(suf[0]));
                assert(suf.skip(1) =~= s@.skip(i as int + 1));
            }
            i = i + 1;
        } else {
            // scan the token
            let mut j: usize = i + 1;
            while j < len && s[j] != 32 && s[j] != 9 && s[j] != 10 && s[j] != 12 && s[j] != 13
                invariant
                    i < j <= len,
                    len == s@.len(),
                    forall|t: int| i <= t < j ==> !is_space(#[trigger] s@[t]),
                decreases len - j,
            {
                j = j + 1;
            }
            proof {
                lemma_run_len(suf);
                assert(run_len(suf) == j - i) by {
                    if run_len(suf) < j - i {
                        assert(is_space(suf[run_len(suf)]) || run_len(suf) == suf.len());
                        assert(s@[i + run_len(suf)] == suf[run_len(suf)]);
                    }
                    if run_len(suf) > j - i {
                        assert(!is_space(suf[j - i]));
                        if j < len {
                            assert(is_space(s@[j as int]));
                        }
                    }
                }
                assert(suf.take(j - i) =~= s@.subrange(i as int, j as int));
                assert(suf.skip(j - i) =~= s@.skip(j as int));
            }
            match parse_digit_run(s, i, j, u64::MAX) {
                Some(v) => {
                    vals.push(v);
                    proof {
                        let tok = s@.subrange(i as int, j as int);
                        assert(parse_vals(suf) == match parse_vals(s@.skip(j as int)) {
                            Some(rest) => Some(seq![digits_val(tok) as u64] + rest),
                            None => None::<Seq<u64>>,
                        });
                        if parse_vals(s@.skip(j as int)) is Some {
                            let rest = parse_vals(s@.skip(j as int)).unwrap();
                            assert(vals@ + rest =~= vals@.drop_last() + (seq![v] + rest));
                        }
                    }
                    i = j;
                },
                None => {
                    return Err(LoadError::NonNumericToken);
                },
            }
        }
    }
    proof {
        assert(s@.skip(len as int) =~= Seq::<u8>::empty());
        assert(vals@ + Seq::<u64>::empty() =~= vals@);
    }
    Ok(vals)
}

/// Builds the instance a file denotes: sizes from the name, matrix values
/// from the body. Returns the first applicable load error otherwise; on
/// success the instance is well-formed and holds exactly the denoted data.
pub fn load_instance(name: &[u8], body: &[u8]) -> (r: Result<MaximumDiversity, LoadError>)
    ensures
        match r {
            Ok(inst) => {
                &&& spec_parse_name(name@) == Some((inst.input_size as int, inst.solution_size as int))
                &&& 0 < inst.solution_size <= inst.input_size
                &&& body_values(body@) == Some(inst.mat())
                &&& inst.mat().len() == inst.n() * inst.n()
                &&& inst.wf()
            },
            Err(LoadError::MalformedName) => spec_parse_name(name@) is None,
            Err(LoadError::InvalidSizes) => spec_parse_name(name@) matches Some(nk) && !(0 < nk.1
                <= nk.0 && nk.0 * nk.0 <= usize::MAX),
            Err(LoadError::NonNumericToken) => {
                &&& spec_parse_name(name@) matches Some(nk)
                &&& 0 < nk.1 <= nk.0
                &&& nk.0 * nk.0 <= usize::MAX
                &&& body_values(body@) is None
            },
            Err(LoadError::WrongValueCount) => {
                &&& spec_parse_name(name@) matches Some(nk)
                &&& 0 < nk.1 <= nk.0
                &&& nk.0 * nk.0 <= usize::MAX
                &&& body_values(body@) matches Some(vals)
                &&& vals.len() != nk.0 * nk.0
            },
        },
{
    let (n, k) = match parse_instance_name(name) {
        Ok(nk) => nk,
        Err(e) => {
            return Err(e);
        },
    };
    if k == 0 || k > n {
        return Err(LoadError::InvalidSizes);
    }
    proof {
        assert((n as int) * (n as int) < u128::MAX) by (nonlinear_arith)
            requires
                0 <= (n as int),
                (n as int) <= u64::MAX as int,
        ;
    }
    if (n as u128) * (n as u128) > usize::MAX as u128 {
        return Err(LoadError::InvalidSizes);
    }
    let nn = n * n;
    let h = find_byte(body, 10, 0);
    let vals = if h == body.len() {
        Vec::new()
    } else {
        match parse_token_values(body, h + 1) {
            Ok(vals) => vals,
            Err(e) => {
                return Err(e);
            },
        }
    };
    proof {
        if h == body@.len() {
            assert(body_values(body@) == Some(Seq::<u64>::empty()));
        }
    }
    if vals.len() != nn {
        return Err(LoadError::WrongValueCount);
    }
    let matrix = match DistanceMatrix::from_vec(n, vals) {
        Some(m) => m,
        None => {
            proof {
                assert(false);
            }
            return Err(LoadError::WrongValueCount);
        },
    };
    Ok(MaximumDiversity { matrix, input_size: n, solution_size: k })
}

} // verus!
