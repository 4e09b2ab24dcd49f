use vstd::prelude::*;

use vstd::string::StringSliceAdditionalSpecFns;

verus! {

// The dataset encodes, per record, a vector of release times, a vector of
// deadlines and a matrix of per-machine processing times, written as
// bracketed, comma-separated decimal numbers; matrix rows are separated by
// semicolons. The functions here turn those texts into numbers; reading
// the file itself is a consumer's concern.

/// A decimal digit.
pub open spec fn is_digit(c: u8) -> bool {
    48 <= c <= 57
}

/// Whitespace that may pad a number: space and the usual control blanks.
pub open spec fn is_blank(c: u8) -> bool {
    c == 32 || 9 <= c <= 13
}

/// An opening or closing square bracket.
pub open spec fn is_bracket(c: u8) -> bool {
    c == 91 || c == 93
}

/// What parsing a text can report.
#[derive(Clone, Copy, Debug, PartialEq, Eq)]
pub enum ParseError {
    /// A field is not a plain decimal number that fits the machine word.
    InvalidNumber,
    /// A matrix row has more entries than the declared number of columns.
    RowTooWide,
    /// The parsed record does not describe a well-formed instance within
    /// the machine bounds of the engine.
    BadInstance,
}

pub open spec fn trim_front_blanks(s: Seq<u8>) -> Seq<u8>
    decreases s.len(),
{
    if s.len() > 0 && is_blank(s.first()) {
        trim_front_blanks(s.drop_first())
    } else {
        s
    }
}

pub open spec fn trim_back_blanks(s: Seq<u8>) -> Seq<u8>
    decreases s.len(),
{
    if s.len() > 0 && is_blank(s.last()) {
        trim_back_blanks(s.drop_last())
    } else {
        s
    }
}

/// A number field with its padding removed.
pub open spec fn trim_blanks(s: Seq<u8>) -> Seq<u8> {
    trim_back_blanks(trim_front_blanks(s))
}

pub open spec fn strip_front_brackets(s: Seq<u8>) -> Seq<u8>
    decreases s.len(),
{
    if s.len() > 0 && is_bracket(s.first()) {
        strip_front_brackets(s.drop_first())
    } else {
        s
    }
}

pub open spec fn strip_back_brackets(s: Seq<u8>) -> Seq<u8>
    decreases s.len(),
{
    if s.len() > 0 && is_bracket(s.last()) {
        strip_back_brackets(s.drop_last())
    } else {
        s
    }
}

/// A vector text with its surrounding brackets removed.
pub open spec fn strip_brackets(s: Seq<u8>) -> Seq<u8> {
    strip_back_brackets(strip_front_brackets(s))
}

/// The value of a string of decimal digits, most significant first.
pub open spec fn digits_value(s: Seq<u8>) -> int
    decreases s.len(),
{
    if s.len() == 0 {
        0
    } else {
        digits_value(s.drop_last()) * 10 + (s.last() - 48)
    }
}

/// The pieces of `s` between occurrences of the separator `sep`; one piece
/// more than there are separators, possibly empty.
pub open spec fn split_on(s: Seq<u8>, sep: u8) -> Seq<Seq<u8>>
    decreases s.len(),
{
    if s.len() == 0 {
        seq![Seq::<u8>::empty()]
    } else if s.first() == sep {
        seq![Seq::<u8>::empty()] + split_on(s.drop_first(), sep)
    } else {
        let rest = split_on(s.drop_first(), sep);
        seq![seq![s.first()] + rest.first()] + rest.drop_first()
    }
}

/// A field parses when, stripped of padding, it is a non-empty string of
/// digits whose value fits the machine word.
pub open spec fn token_ok(s: Seq<u8>) -> bool {
    let t = trim_blanks(s);
    &&& t.len() > 0
    &&& forall|i: int| 0 <= i < t.len() ==> is_digit(#[trigger] t[i])
    &&& digits_value(t) <= usize::MAX
}

/// The number a field denotes.
pub open spec fn token_value(s: Seq<u8>) -> int {
    digits_value(trim_blanks(s))
}

/// The comma-separated fields of a vector text, after bracket stripping.
pub open spec fn vector_fields(s: Seq<u8>) -> Seq<Seq<u8>> {
    split_on(strip_brackets(s), 44)
}

/// A vector text parses when each of its fields does.
pub open spec fn vector_ok(s: Seq<u8>) -> bool {
    forall|k: int| 0 <= k < vector_fields(s).len() ==> token_ok(#[trigger] vector_fields(s)[k])
}

/// The numbers a vector text denotes.
pub open spec fn vector_values(s: Seq<u8>) -> Seq<int> {
    vector_fields(s).map_values(|f: Seq<u8>| token_value(f))
}

proof fn lemma_split_on_nonempty(s: Seq<u8>, sep: u8)
    ensures
        split_on(s, sep).len() >= 1,
    decreases s.len(),
{
    if s.len() > 0 {
        lemma_split_on_nonempty(s.drop_first(), sep);
    }
}

/// If the first `fc` bytes of `s` are not the separator and, unless the
/// string ends there, byte `fc` is one, then the split consists of the
/// prefix before `fc` followed by the split of what comes after it.
proof fn lemma_split_on_first(s: Seq<u8>, sep: u8, fc: int)
    requires
        0 <= fc <= s.len(),
        forall|i: int| 0 <= i < fc ==> s[i] != sep,
        fc < s.len() ==> s[fc] == sep,
    ensures
        fc == s.len() ==> split_on(s, sep) == seq![s],
        fc < s.len() ==> split_on(s, sep) == seq![s.take(fc)] + split_on(s.skip(fc + 1), sep),
    decreases fc,
{
    lemma_split_on_nonempty(s, sep);
    if fc == 0 {
        if s.len() == 0 {
            assert(s =~= Seq::<u8>::empty());
            assert(split_on(s, sep) =~= seq![s]);
        } else {
            assert(s.take(0) =~= Seq::<u8>::empty());
            assert(s.skip(1) =~= s.drop_first());
            assert(split_on(s, sep) =~= seq![s.take(0)] + split_on(s.skip(1), sep));
        }
    } else {
        let d = s.drop_first();
        lemma_split_on_first(d, sep, fc - 1);
        lemma_split_on_nonempty(d, sep);
        let rest = split_on(d, sep);
        if fc == s.len() {
            assert(rest == seq![d]);
            assert(seq![s.first()] + rest.first() =~= s);
            assert(rest.drop_first() =~= Seq::<Seq<u8>>::empty());
            assert(split_on(s, sep) =~= seq![s]);
        } else {
            assert(rest == seq![d.take(fc - 1)] + split_on(d.skip(fc), sep));
            assert(rest.first() == d.take(fc - 1));
            assert(seq![s.first()] + d.take(fc - 1) =~= s.take(fc));
            assert(rest.drop_first() =~= split_on(d.skip(fc), sep));
            assert(d.skip(fc) =~= s.skip(fc + 1));
            assert(split_on(s, sep) =~= seq![s.take(fc)] + split_on(s.skip(fc + 1), sep));
        }
    }
}

proof fn lemma_trim_front_at(s: Seq<u8>, k: int)
    requires
        0 <= k <= s.len(),
        forall|i: int| 0 <= i < k ==> is_blank(#[trigger] s[i]),
        k < s.len() ==> !is_blank(s[k]),
    ensures
        trim_front_blanks(s) == s.skip(k),
    decreases k,
{
    if k == 0 {
        assert(s.skip(0) =~= s);
    } else {
        assert(s.drop_first() =~= s.skip(1));
        lemma_trim_front_at(s.drop_first(), k - 1);
        assert(s.skip(1).skip(k - 1) =~= s.skip(k));
    }
}

proof fn lemma_trim_back_at(s: Seq<u8>, k: int)
    requires
        0 <= k <= s.len(),
        forall|i: int| k <= i < s.len() ==> is_blank(#[trigger] s[i]),
        k > 0 ==> !is_blank(s[k - 1]),
    ensures
        trim_back_blanks(s) == s.take(k),
    decreases s.len(),
{
    if k == s.len() {
        assert(s.take(k) =~= s);
    } else {
        assert(s.drop_last() =~= s.take(s.len() - 1));
        lemma_trim_back_at(s.drop_last(), k);
        assert(s.take(s.len() - 1).take(k) =~= s.take(k));
    }
}

proof fn lemma_strip_front_at(s: Seq<u8>, k: int)
    requires
        0 <= k <= s.len(),
        forall|i: int| 0 <= i < k ==> is_bracket(#[trigger] s[i]),
        k < s.len() ==> !is_bracket(s[k]),
    ensures
        strip_front_brackets(s) == s.skip(k),
    decreases k,
{
    if k == 0 {
        assert(s.skip(0) =~= s);
    } else {
        assert(s.drop_first() =~= s.skip(1));
        lemma_strip_front_at(s.drop_first(), k - 1);
        assert(s.skip(1).skip(k - 1) =~= s.skip(k));
    }
}

proof fn lemma_strip_back_at(s: Seq<u8>, k: int)
    requires
        0 <= k <= s.len(),
        forall|i: int| k <= i < s.len() ==> is_bracket(#[trigger] s[i]),
        k > 0 ==> !is_bracket(s[k - 1]),
    ensures
        strip_back_brackets(s) == s.take(k),
    decreases s.len(),
{
    if k == s.len() {
        assert(s.take(k) =~= s);
    } else {
        assert(s.drop_last() =~= s.take(s.len() - 1));
        lemma_strip_back_at(s.drop_last(), k);
        assert(s.take(s.len() - 1).take(k) =~= s.take(k));
    }
}

proof fn lemma_digits_nonneg(s: Seq<u8>)
    requires
        forall|i: int| 0 <= i < s.len() ==> is_digit(#[trigger] s[i]),
    ensures
        digits_value(s) >= 0,
    decreases s.len(),
{
    if s.len() > 0 {
        lemma_digits_nonneg(s.drop_last());
    }
}

proof fn lemma_digits_take_succ(s: Seq<u8>, i: int)
    requires
        0 <= i < s.len(),
    ensures
        digits_value(s.take(i + 1)) == digits_value(s.take(i)) * 10 + (s[i] - 48),
{
    assert(s.take(i + 1).drop_last() =~= s.take(i));
    assert(s.take(i + 1).last() == s[i]);
}

/// On an all-digit string, the value of a prefix never exceeds the value
/// of the whole.
proof fn lemma_digits_take_le(s: Seq<u8>, i: int)
    requires
        0 <= i <= s.len(),
        forall|k: int| 0 <= k < s.len() ==> is_digit(#[trigger] s[k]),
    ensures
        digits_value(s.take(i)) <= digits_value(s),
    decreases s.len() - i,
{
    if i == s.len() {
        assert(s.take(i) =~= s);
    } else {
        lemma_digits_take_succ(s, i);
        assert(forall|k: int| 0 <= k < s.take(i).len() ==> is_digit(#[trigger] s.take(i)[k]));
        lemma_digits_nonneg(s.take(i));
        lemma_digits_take_le(s, i + 1);
    }
}

/// Parses the bytes `[start, end)` of `b` as one number field: optional
/// blank padding around a non-empty string of decimal digits whose value
/// fits the machine word. `Ok` exactly when the field is such a number,
/// and then the returned value is the number it denotes.
fn parse_usize_token(b: &[u8], start: usize, end: usize) -> (r: Result<usize, ParseError>)
    requires
        start <= end <= b@.len(),
    ensures
        r is Ok <==> token_ok(b@.subrange(start as int, end as int)),
        r matches Ok(v) ==> v as int == token_value(b@.subrange(start as int, end as int)),
        r matches Err(e) ==> e == ParseError::InvalidNumber,
{
    let ghost tok = b@.subrange(start as int, end as int);
    let mut f = start;
    while f < end && (b[f] == 32 || (9 <= b[f] && b[f] <= 13))
        invariant
            start <= f <= end <= b@.len(),
            forall|i: int| start <= i < f ==> is_blank(#[trigger] b@[i]),
        decreases end - f,
    {
        f += 1;
    }
    let mut l = end;
    while l > f && (b[l - 1] == 32 || (9 <= b[l - 1] && b[l - 1] <= 13))
        invariant
            start <= f <= l <= end <= b@.len(),
            forall|i: int| start <= i < f ==> is_blank(#[trigger] b@[i]),
            forall|i: int| l <= i < end ==> is_blank(#[trigger] b@[i]),
        decreases l - f,
    {
        l -= 1;
    }
    let ghost t = b@.subrange(f as int, l as int);
    proof {
        lemma_trim_front_at(tok, f - start);
        assert(tok.skip(f - start) =~= b@.subrange(f as int, end as int));
        lemma_trim_back_at(b@.subrange(f as int, end as int), l - f);
        assert(b@.subrange(f as int, end as int).take(l - f) =~= t);
        assert(trim_blanks(tok) == t);
    }
    if f == l {
        return Err(ParseError::InvalidNumber);
    }
    let mut v: usize = 0;
    let mut i = f;
    while i < l
        invariant
            start <= f <= i <= l <= end <= b@.len(),
            l > f,
            t == b@.subrange(f as int, l as int),
            trim_blanks(tok) == t,
            tok == b@.subrange(start as int, end as int),
            forall|k: int| 0 <= k < i - f ==> is_digit(#[trigger] t[k]),
            v as int == digits_value(t.take(i - f)),
        decreases l - i,
    {
        let c = b[i];
        proof {
            assert(t[i - f] == b@[i as int]);
        }
        if c < 48 || c > 57 {
            proof {
                assert(!token_ok(tok));
            }
            return Err(ParseError::InvalidNumber);
        }
        let d = (c - 48) as usize;
        proof {
            lemma_digits_take_succ(t, i - f);
            assert(forall|k: int|
                0 <= k < t.take(i - f).len() ==> is_digit(#[trigger] t.take(i - f)[k]));
            lemma_digits_nonneg(t.take(i - f));
        }
        if v > (usize::MAX - d) / 10 {
            proof {
                assert(v * 10 + d > usize::MAX) by (nonlinear_arith)
                    requires
                        v > (usize::MAX - d) / 10,
                        0 <= d <= 9,
                        v >= 0,
                ;
                assert(!token_ok(tok)) by {
                    if token_ok(tok) {
                        lemma_digits_take_le(t, i - f + 1);
                    }
                }
            }
            return Err(ParseError::InvalidNumber);
        }
        proof {
            assert(v * 10 + d <= usize::MAX) by (nonlinear_arith)
                requires
                    v <= (usize::MAX - d) / 10,
                    0 <= d <= 9,
                    v >= 0,
            ;
        }
        v = v * 10 + d;
        i += 1;
    }
    proof {
        assert(t.take(l - f) =~= t);
        assert(token_ok(tok));
    }
    Ok(v)
}

/// Parses the bytes `[start, end)` of `b` as a bracketed, comma-separated
/// vector of numbers. `Ok` exactly when every field is a number, and then
/// the result lists the fields' values in order.
fn parse_vector_core(b: &[u8], start: usize, end: usize) -> (r: Result<Vec<usize>, ParseError>)
    requires
        start <= end <= b@.len(),
    ensures
        r is Ok <==> vector_ok(b@.subrange(start as int, end as int)),
        r matches Ok(v) ==> {
            &&& v@.len() == vector_fields(b@.subrange(start as int, end as int)).len()
            &&& forall|k: int|
                0 <= k < v@.len() ==> v@[k] as int == token_value(
                    #[trigger] vector_fields(b@.subrange(start as int, end as int))[k],
                )
        },
        r matches Err(e) ==> e == ParseError::InvalidNumber,
{
    let ghost whole = b@.subrange(start as int, end as int);
    let mut lo = start;
    while lo < end && (b[lo] == 91 || b[lo] == 93)
        invariant
            start <= lo <= end <= b@.len(),
            forall|i: int| start <= i < lo ==> is_bracket(#[trigger] b@[i]),
        decreases end - lo,
    {
        lo += 1;
    }
    let mut hi = end;
    while hi > lo && (b[hi - 1] == 91 || b[hi - 1] == 93)
        invariant
            start <= lo <= hi <= end <= b@.len(),
            forall|i: int| start <= i < lo ==> is_bracket(#[trigger] b@[i]),
            forall|i: int| hi <= i < end ==> is_bracket(#[trigger] b@[i]),
        decreases hi - lo,
    {
        hi -= 1;
    }
    let ghost core = b@.subrange(lo as int, hi as int);
    let ghost fields = split_on(core, 44);
    proof {
        lemma_strip_front_at(whole, lo - start);
        assert(whole.skip(lo - start) =~= b@.subrange(lo as int, end as int));
        lemma_strip_back_at(b@.subrange(lo as int, end as int), hi - lo);
        assert(b@.subrange(lo as int, end as int).take(hi - lo) =~= core);
        assert(strip_brackets(whole) == core);
        assert(vector_fields(whole) == fields);
        assert(core.skip(0) =~= core);
        assert(fields.skip(0) =~= fields);
        lemma_split_on_nonempty(core, 44);
    }
    let mut vals: Vec<usize> = Vec::new();
    let mut cur = lo;
    loop
        invariant_except_break
            start <= lo <= cur <= hi <= end <= b@.len(),
            whole == b@.subrange(start as int, end as int),
            core == b@.subrange(lo as int, hi as int),
            fields == vector_fields(whole),
            vals@.len() + split_on(b@.subrange(cur as int, hi as int), 44).len() == fields.len(),
            split_on(b@.subrange(cur as int, hi as int), 44) =~= fields.skip(vals@.len() as int),
            forall|k: int|
                0 <= k < vals@.len() ==> token_ok(#[trigger] fields[k]) && vals@[k] as int
                    == token_value(fields[k]),
        ensures
            vals@.len() == fields.len(),
            forall|k: int|
                0 <= k < vals@.len() ==> token_ok(#[trigger] fields[k]) && vals@[k] as int
                    == token_value(fields[k]),
        decreases hi - cur,
    {
        let mut e = cur;
        while e < hi && b[e] != 44
            invariant
                cur <= e <= hi <= b@.len(),
                forall|i: int| cur <= i < e ==> b@[i] != 44,
            decreases hi - e,
        {
            e += 1;
        }
        let ghost rem = b@.subrange(cur as int, hi as int);
        let ghost fdone = vals@.len() as int;
        proof {
            lemma_split_on_first(rem, 44, e - cur);
            assert(rem.take(e - cur) =~= b@.subrange(cur as int, e as int));
            if e < hi {
                assert(rem.skip(e - cur + 1) =~= b@.subrange(e as int + 1, hi as int));
                lemma_split_on_nonempty(b@.subrange(e as int + 1, hi as int), 44);
                assert(split_on(rem, 44)[0] == rem.take(e - cur));
            } else {
                assert(rem.take(e - cur) =~= rem);
                assert(split_on(rem, 44)[0] == rem);
            }
            assert(fields.skip(fdone)[0] == fields[fdone]);
            assert(fields[fdone] == b@.subrange(cur as int, e as int));
        }
        match parse_usize_token(b, cur, e) {
            Err(err) => {
                proof {
                    assert(!token_ok(fields[fdone]));
                    assert(!vector_ok(whole));
                }
                return Err(err);
            },
            Ok(v) => {
                vals.push(v);
            },
        }
        if e == hi {
            break;
        }
        cur = e + 1;
        proof {
            assert(split_on(b@.subrange(cur as int, hi as int), 44) =~= fields.skip(
                vals@.len() as int,
            )) by {
                assert(fields.skip(fdone).drop_first() =~= fields.skip(fdone + 1));
            }
        }
    }
    proof {
        assert(vector_ok(whole));
    }
    Ok(vals)
}

/// Parses a text such as a bracketed list of numbers into those numbers.
/// `Ok` exactly when every comma-separated field, after the surrounding
/// brackets are stripped, is a padded decimal number fitting the machine
/// word.
pub fn parse_vector_string(s: &str) -> (r: Result<Vec<usize>, ParseError>)
    ensures
        r is Ok <==> vector_ok(s.spec_bytes()),
        r matches Ok(v) ==> {
            &&& v@.len() == vector_fields(s.spec_bytes()).len()
            &&& forall|k: int|
                0 <= k < v@.len() ==> v@[k] as int == token_value(
                    #[trigger] vector_fields(s.spec_bytes())[k],
                )
        },
        r matches Err(e) ==> e == ParseError::InvalidNumber,
{
    let b = s.as_bytes();
    proof {
        assert(b@.subrange(0, b@.len() as int) =~= b@);
    }
    parse_vector_core(b, 0, b.len())
}

/// The semicolon-separated rows of a matrix text.
pub open spec fn matrix_rows(s: Seq<u8>) -> Seq<Seq<u8>> {
    split_on(s, 59)
}

/// A matrix text parses for `n` columns when every row parses as a vector
/// and no row has more than `n` entries.
pub open spec fn matrix_ok(s: Seq<u8>, n: int) -> bool {
    forall|k: int|
        0 <= k < matrix_rows(s).len() ==> vector_ok(#[trigger] matrix_rows(s)[k])
            && vector_fields(matrix_rows(s)[k]).len() <= n
}

/// The numbers each row of a matrix text denotes.
pub open spec fn matrix_values(s: Seq<u8>) -> Seq<Seq<int>> {
    matrix_rows(s).map_values(|r: Seq<u8>| vector_values(r))
}

/// The smallest entry of column `j` over the given rows, counting only
/// rows that reach that column; the machine word's largest value when none
/// does.
pub open spec fn col_min(rows: Seq<Seq<int>>, j: int) -> int
    decreases rows.len(),
{
    if rows.len() == 0 {
        usize::MAX as int
    } else {
        let m0 = col_min(rows.drop_last(), j);
        if j < rows.last().len() && rows.last()[j] < m0 {
            rows.last()[j]
        } else {
            m0
        }
    }
}

proof fn lemma_col_min_take_succ(rows: Seq<Seq<int>>, j: int, r: int)
    requires
        0 <= r < rows.len(),
    ensures
        col_min(rows.take(r + 1), j) == if j < rows[r].len() && rows[r][j] < col_min(
            rows.take(r),
            j,
        ) {
            rows[r][j]
        } else {
            col_min(rows.take(r), j)
        },
{
    assert(rows.take(r + 1).drop_last() =~= rows.take(r));
    assert(rows.take(r + 1).last() == rows[r]);
}

/// Parses a matrix text of `n` columns: rows separated by semicolons, each
/// row a vector of numbers, and returns for each column the smallest entry
/// over all rows. `Ok` exactly when every row parses and none is wider
/// than `n`; columns no row reaches keep the machine word's largest value.
pub fn parse_matrix_string(s: &str, n: usize) -> (r: Result<Vec<usize>, ParseError>)
    ensures
        r is Ok <==> matrix_ok(s.spec_bytes(), n as int),
        r matches Ok(v) ==> {
            &&& v@.len() == n
            &&& forall|j: int|
                0 <= j < n ==> #[trigger] v@[j] as int == col_min(matrix_values(s.spec_bytes()), j)
        },
        r matches Err(e) ==> e == ParseError::InvalidNumber || e == ParseError::RowTooWide,
{
    let b = s.as_bytes();
    let ghost rows = matrix_rows(s.spec_bytes());
    let ghost rvals = matrix_values(s.spec_bytes());
    let hi = b.len();
    proof {
        assert(b@.subrange(0, hi as int) =~= b@);
        assert(b@ == s.spec_bytes());
        lemma_split_on_nonempty(b@, 59);
        assert(rvals.take(0) =~= Seq::<Seq<int>>::empty());
    }
    let mut min_times: Vec<usize> = Vec::new();
    let mut j0: usize = 0;
    while j0 < n
        invariant
            j0 <= n,
            min_times@.len() == j0,
            forall|j: int| 0 <= j < j0 ==> #[trigger] min_times@[j] == usize::MAX,
        decreases n - j0,
    {
        min_times.push(usize::MAX);
        j0 += 1;
    }
    let mut cur: usize = 0;
    let ghost mut rdone: int = 0;
    loop
        invariant_except_break
            cur <= hi <= b@.len(),
            hi == b@.len(),
            b@ == s.spec_bytes(),
            rows == matrix_rows(s.spec_bytes()),
            rvals == matrix_values(s.spec_bytes()),
            rvals.len() == rows.len(),
            0 <= rdone,
            rdone + split_on(b@.subrange(cur as int, hi as int), 59).len() == rows.len(),
            split_on(b@.subrange(cur as int, hi as int), 59) =~= rows.skip(rdone),
            min_times@.len() == n,
            forall|k: int|
                0 <= k < rdone ==> vector_ok(#[trigger] rows[k]) && vector_fields(rows[k]).len()
                    <= n,
            forall|j: int|
                0 <= j < n ==> #[trigger] min_times@[j] as int == col_min(rvals.take(rdone), j),
        ensures
            min_times@.len() == n,
            rdone == rows.len(),
            forall|k: int|
                0 <= k < rows.len() ==> vector_ok(#[trigger] rows[k]) && vector_fields(
                    rows[k],
                ).len() <= n,
            forall|j: int|
                0 <= j < n ==> #[trigger] min_times@[j] as int == col_min(rvals.take(rdone), j),
        decreases hi - cur,
    {
        let mut e = cur;
        while e < hi && b[e] != 59
            invariant
                cur <= e <= hi <= b@.len(),
                forall|i: int| cur <= i < e ==> b@[i] != 59,
            decreases hi - e,
        {
            e += 1;
        }
        let ghost rem = b@.subrange(cur as int, hi as int);
        proof {
            lemma_split_on_first(rem, 59, e - cur);
            assert(rem.take(e - cur) =~= b@.subrange(cur as int, e as int));
            if e < hi {
                assert(rem.skip(e - cur + 1) =~= b@.subrange(e as int + 1, hi as int));
                lemma_split_on_nonempty(b@.subrange(e as int + 1, hi as int), 59);
                assert(split_on(rem, 59)[0] == rem.take(e - cur));
            } else {
                assert(rem.take(e - cur) =~= rem);
                assert(split_on(rem, 59)[0] == rem);
            }
            assert(rows.skip(rdone)[0] == rows[rdone]);
            assert(rows[rdone] == b@.subrange(cur as int, e as int));
            assert(rvals[rdone] == vector_values(rows[rdone]));
        }
        let row = match parse_vector_core(b, cur, e) {
            Err(err) => {
                proof {
                    assert(!vector_ok(rows[rdone]));
                    assert(!matrix_ok(s.spec_bytes(), n as int));
                }
                return Err(err);
            },
            Ok(row) => row,
        };
        if row.len() > n {
            proof {
                assert(vector_fields(rows[rdone]).len() > n);
                assert(!matrix_ok(s.spec_bytes(), n as int));
            }
            return Err(ParseError::RowTooWide);
        }
        proof {
            assert(rvals[rdone].len() == row@.len());
            assert(forall|k: int| 0 <= k < row@.len() ==> rvals[rdone][k] == #[trigger] row@[k] as int);
        }
        let mut j: usize = 0;
        while j < row.len()
            invariant
                j <= row@.len(),
                row@.len() <= n,
                min_times@.len() == n,
                0 <= rdone < rvals.len(),
                rvals[rdone].len() == row@.len(),
                forall|k: int| 0 <= k < row@.len() ==> rvals[rdone][k] == #[trigger] row@[k] as int,
                forall|c: int|
                    0 <= c < j ==> #[trigger] min_times@[c] as int == col_min(
                        rvals.take(rdone + 1),
                        c,
                    ),
                forall|c: int|
                    j <= c < n ==> #[trigger] min_times@[c] as int == col_min(rvals.take(rdone), c),
            decreases row@.len() - j,
        {
            proof {
                lemma_col_min_take_succ(rvals, j as int, rdone);
            }
            if row[j] < min_times[j] {
                let newv = row[j];
                min_times.set(j, newv);
            }
            j += 1;
        }
        proof {
            assert forall|c: int| row@.len() <= c < n implies #[trigger] min_times@[c] as int
                == col_min(rvals.take(rdone + 1), c) by {
                lemma_col_min_take_succ(rvals, c, rdone);
            }
            rdone = rdone + 1;
        }
        if e == hi {
            break;
        }
        cur = e + 1;
        proof {
            assert(split_on(b@.subrange(cur as int, hi as int), 59) =~= rows.skip(rdone)) by {
                assert(rows.skip(rdone - 1).drop_first() =~= rows.skip(rdone));
            }
        }
    }
    proof {
        assert(rvals.take(rdone) =~= rvals);
        assert(matrix_ok(s.spec_bytes(), n as int));
    }
    Ok(min_times)
}

/// The smaller of two values.
pub open spec fn min2(a: int, b: int) -> int {
    if a < b {
        a
    } else {
        b
    }
}

/// The per-column smallest processing times a matrix text denotes.
pub open spec fn record_volumes(psb: Seq<u8>, n: int) -> Seq<int> {
    Seq::new(n as nat, |j: int| col_min(matrix_values(psb), j))
}

/// The jobs a record's three columns describe: job `i` takes the `i`-th
/// release time, the `i`-th deadline and the `i`-th per-column volume, and
/// the identifier `first_id + i`.
pub open spec fn built_jobs(rv: Seq<int>, dv: Seq<int>, pm: Seq<int>, first_id: int, nj: int) -> Seq<
    crate::types::Job,
> {
    Seq::new(
        nj as nat,
        |i: int|
            crate::types::Job {
                id: (first_id + i) as usize,
                r: rv[i] as usize,
                d: dv[i] as usize,
                p: pm[i] as usize,
            },
    )
}

/// When a record's columns describe an instance the engine can work on:
/// all three texts parse, and the jobs they describe meet the construction
/// contract.
pub open spec fn record_ok(
    rsb: Seq<u8>,
    dsb: Seq<u8>,
    psb: Seq<u8>,
    m: usize,
    n: int,
    first_id: usize,
) -> bool {
    let rv = vector_values(rsb);
    let dv = vector_values(dsb);
    let pm = record_volumes(psb, n);
    let nj = min2(rv.len() as int, min2(dv.len() as int, n));
    &&& vector_ok(rsb)
    &&& vector_ok(dsb)
    &&& matrix_ok(psb, n)
    &&& first_id + nj <= usize::MAX
    &&& crate::types::Instance::buildable(built_jobs(rv, dv, pm, first_id as int, nj), m)
}

/// Turns one dataset record into an instance: the release-time and
/// deadline columns are parsed as vectors, the processing-time matrix is
/// reduced to its per-column minima over `n` columns, the three lists are
/// joined position by position into jobs numbered from `first_id`, and the
/// result is checked against the construction contract. `Ok` exactly when
/// the record describes a well-formed instance within the machine bounds.
pub fn record_to_instance(
    rs: &str,
    ds: &str,
    ps: &str,
    m: usize,
    n: usize,
    first_id: usize,
) -> (r: Result<crate::types::Instance, ParseError>)
    ensures
        r is Ok <==> record_ok(rs.spec_bytes(), ds.spec_bytes(), ps.spec_bytes(), m, n as int, first_id),
        r matches Ok(inst) ==> {
            let rv = vector_values(rs.spec_bytes());
            let dv = vector_values(ds.spec_bytes());
            let pm = record_volumes(ps.spec_bytes(), n as int);
            let nj = min2(rv.len() as int, min2(dv.len() as int, n as int));
            &&& inst.wf()
            &&& inst.m == m
            &&& inst.q == 1
            &&& inst.jobs@ == built_jobs(rv, dv, pm, first_id as int, nj)
        },
{
    let ghost rv = vector_values(rs.spec_bytes());
    let ghost dv = vector_values(ds.spec_bytes());
    let ghost pm = record_volumes(ps.spec_bytes(), n as int);
    let rvec = match parse_vector_string(rs) {
        Ok(v) => v,
        Err(e) => {
            return Err(e);
        },
    };
    let dvec = match parse_vector_string(ds) {
        Ok(v) => v,
        Err(e) => {
            return Err(e);
        },
    };
    let pvec = match parse_matrix_string(ps, n) {
        Ok(v) => v,
        Err(e) => {
            return Err(e);
        },
    };
    proof {
        assert(rv.len() == rvec@.len());
        assert(dv.len() == dvec@.len());
        assert(pm.len() == pvec@.len());
        assert(forall|k: int| 0 <= k < rvec@.len() ==> rv[k] == #[trigger] rvec@[k] as int);
        assert(forall|k: int| 0 <= k < dvec@.len() ==> dv[k] == #[trigger] dvec@[k] as int);
        assert(forall|k: int| 0 <= k < pvec@.len() ==> pm[k] == #[trigger] pvec@[k] as int);
    }
    let mut nj = rvec.len();
    if dvec.len() < nj {
        nj = dvec.len();
    }
    if pvec.len() < nj {
        nj = pvec.len();
    }
    proof {
        assert(nj as int == min2(rv.len() as int, min2(dv.len() as int, n as int)));
    }
    if first_id > usize::MAX - nj {
        return Err(ParseError::BadInstance);
    }
    let ghost target = built_jobs(rv, dv, pm, first_id as int, nj as int);
    let mut jobs: Vec<crate::types::Job> = Vec::new();
    let mut i: usize = 0;
    while i < nj
        invariant
            i <= nj,
            nj <= rvec@.len(),
            nj <= dvec@.len(),
            nj <= pvec@.len(),
            first_id + nj <= usize::MAX,
            target == built_jobs(rv, dv, pm, first_id as int, nj as int),
            target.len() == nj,
            rv.len() == rvec@.len(),
            dv.len() == dvec@.len(),
            pm.len() == pvec@.len(),
            forall|k: int| 0 <= k < rvec@.len() ==> rv[k] == #[trigger] rvec@[k] as int,
            forall|k: int| 0 <= k < dvec@.len() ==> dv[k] == #[trigger] dvec@[k] as int,
            forall|k: int| 0 <= k < pvec@.len() ==> pm[k] == #[trigger] pvec@[k] as int,
            jobs@.len() == i,
            forall|k: int| 0 <= k < i ==> #[trigger] jobs@[k] == target[k],
        decreases nj - i,
    {
        let job = crate::types::Job::new(first_id + i, rvec[i], dvec[i], pvec[i]);
        jobs.push(job);
        i += 1;
    }
    proof {
        assert(jobs@ =~= target);
    }
    match crate::types::Instance::try_new(jobs, m, 1) {
        Some(inst) => Ok(inst),
        None => Err(ParseError::BadInstance),
    }
}

} // verus!
