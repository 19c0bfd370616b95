//! Predicate engine for `disky filter`: `<field> <op> <literal>` clauses
//! joined by `AND` (any case), evaluated against a record's fields.
//!
//! Fields compare as integers or strings; ops are `=`, `!=`, `>`, `<`,
//! `>=`, `<=`, `LIKE`. Literals are bare integers, integers with a binary
//! size suffix (`1KB` = 1024, `KiB`/`MB`/`MiB`/... up to `TB`), quoted
//! strings, or bare words taken as strings.

use vstd::prelude::*;
use vstd::string::*;

use crate::like::{like, like_match};
use crate::text::{
    all_digits, ascii_lower, ascii_lower_chars, ascii_lower_seq, chars_eq, chars_of,
    contains, digits_value, ends_with, ends_with_chars, is_digit, is_ws, lemma_trim_back_at, lemma_trim_core,
    lemma_trim_fixed, lemma_trim_front_at, occurs_at, slice_range, string_of, trim, trim_chars,
};

verus! {

/// Comparison operator of a clause.
#[derive(Debug, Clone, Copy, PartialEq, Eq, Structural)]
pub enum Op {
    Eq,
    Ne,
    Gt,
    Lt,
    Ge,
    Le,
    Like,
}

/// Literal on the right of a clause.
#[derive(Debug, Clone)]
pub enum Lit {
    Int(i64),
    Str(String),
}

/// Literal, as the contracts see it.
pub enum LitSpec {
    Int(i64),
    Str(Seq<char>),
}

/// One `<field> <op> <literal>` clause.
#[derive(Debug, Clone)]
pub struct Pred {
    pub field: String,
    pub op: Op,
    pub lit: Lit,
}

/// Clause, as the contracts see it.
pub struct PredSpec {
    pub field: Seq<char>,
    pub op: Op,
    pub lit: LitSpec,
}

pub open spec fn lit_view(l: Lit) -> LitSpec {
    match l {
        Lit::Int(n) => LitSpec::Int(n),
        Lit::Str(s) => LitSpec::Str(s@),
    }
}

pub open spec fn pred_view(p: Pred) -> PredSpec {
    PredSpec { field: p.field@, op: p.op, lit: lit_view(p.lit) }
}

/// A parsed filter: all clauses must hold.
#[derive(Debug, Clone)]
pub struct Predicate {
    parts: Vec<Pred>,
}

impl Predicate {
    pub closed spec fn clauses(&self) -> Seq<PredSpec> {
        self.parts@.map_values(|p: Pred| pred_view(p))
    }
}

/// Why a filter expression was rejected.
#[derive(Debug, Clone)]
pub enum FilterError {
    /// A clause has no operator; carries the clause.
    NoOperator(String),
    /// A clause has nothing left of its operator; carries the clause.
    NoField(String),
    EmptyLiteral,
    MalformedString,
    /// A size suffix follows something that is not an integer; carries the literal.
    BadSizeLiteral(String),
}

/// The message of a rejected filter expression.
pub open spec fn filter_error_text(e: FilterError) -> Seq<char> {
    match e {
        FilterError::NoOperator(c) => "predicate '"@ + c@ + "' has no operator"@,
        FilterError::NoField(c) => "predicate '"@ + c@ + "' has no field"@,
        FilterError::EmptyLiteral => "empty literal"@,
        FilterError::MalformedString => "malformed string literal"@,
        FilterError::BadSizeLiteral(l) => "bad size literal '"@ + l@ + "'"@,
    }
}

impl FilterError {
    /// Human-readable message.
    pub fn to_text(&self) -> (s: String)
        ensures
            s@ == filter_error_text(*self),
    {
        match self {
            FilterError::NoOperator(c) => String::from_str("predicate '").concat(c.as_str()).concat(
                "' has no operator",
            ),
            FilterError::NoField(c) => String::from_str("predicate '").concat(c.as_str()).concat("' has no field"),
            FilterError::EmptyLiteral => String::from_str("empty literal"),
            FilterError::MalformedString => String::from_str("malformed string literal"),
            FilterError::BadSizeLiteral(l) => String::from_str("bad size literal '").concat(l.as_str()).concat("'"),
        }
    }
}

/// Rejection reason, as the contracts see it.
pub enum FilterErrorSpec {
    NoOperator(Seq<char>),
    NoField(Seq<char>),
    EmptyLiteral,
    MalformedString,
    BadSizeLiteral(Seq<char>),
}

pub open spec fn error_view(e: FilterError) -> FilterErrorSpec {
    match e {
        FilterError::NoOperator(s) => FilterErrorSpec::NoOperator(s@),
        FilterError::NoField(s) => FilterErrorSpec::NoField(s@),
        FilterError::EmptyLiteral => FilterErrorSpec::EmptyLiteral,
        FilterError::MalformedString => FilterErrorSpec::MalformedString,
        FilterError::BadSizeLiteral(s) => FilterErrorSpec::BadSizeLiteral(s@),
    }
}

// ---------------------------------------------------------------------
// Lexical structure
// ---------------------------------------------------------------------

pub open spec fn is_quote(c: char) -> bool {
    c == '"' || c == '\''
}

/// An odd number of quote characters: the next position is inside quotes.
pub open spec fn quotes_odd(s: Seq<char>) -> bool
    decreases s.len(),
{
    if s.len() == 0 {
        false
    } else {
        quotes_odd(s.drop_last()) != is_quote(s.last())
    }
}

/// Position `i` of `t` lies outside quotes.
pub open spec fn unquoted(t: Seq<char>, i: int) -> bool {
    !quotes_odd(t.subrange(0, i))
}

/// An unquoted ` and ` (any case) starts at `i`.
pub open spec fn and_at(t: Seq<char>, i: int) -> bool {
    &&& 0 <= i
    &&& i + 5 <= t.len()
    &&& unquoted(t, i)
    &&& ascii_lower_seq(t.subrange(i, i + 5)) == " and "@
}

/// First unquoted ` and ` at or after `i`.
pub open spec fn first_and_from(t: Seq<char>, i: int) -> Option<int>
    decreases t.len() - i,
{
    if i < 0 || i + 5 > t.len() {
        None
    } else if and_at(t, i) {
        Some(i)
    } else {
        first_and_from(t, i + 1)
    }
}

/// The clauses of `t[from..]`: cut at each unquoted ` and `, left to right.
pub open spec fn split_pieces(t: Seq<char>, from: int) -> Seq<Seq<char>>
    decreases t.len() - from,
{
    if from < 0 || from > t.len() {
        Seq::empty()
    } else {
        match first_and_from(t, from) {
            None => seq![t.subrange(from, t.len() as int)],
            Some(j) => if from <= j && j + 5 <= t.len() {
                seq![t.subrange(from, j)] + split_pieces(t, j + 5)
            } else {
                Seq::empty()
            },
        }
    }
}

/// First unquoted occurrence of `op` at or after `i`.
pub open spec fn first_op_from(c: Seq<char>, op: Seq<char>, i: int) -> Option<int>
    decreases c.len() - i,
{
    if i < 0 || i >= c.len() {
        None
    } else if !is_quote(c[i]) && unquoted(c, i) && occurs_at(c, op, i) {
        Some(i)
    } else {
        first_op_from(c, op, i + 1)
    }
}

/// First occurrence of `p` in `h` at or after `i`, quotes or not.
pub open spec fn first_plain_from(h: Seq<char>, p: Seq<char>, i: int) -> Option<int>
    decreases h.len() + 1 - i,
{
    if i < 0 || i + p.len() > h.len() {
        None
    } else if occurs_at(h, p, i) {
        Some(i)
    } else {
        first_plain_from(h, p, i + 1)
    }
}

/// Left side, operator and right side of a clause; operators are tried
/// longest first (`>=`, `<=`, `!=`, ` LIKE `, `=`, `>`, `<`).
pub open spec fn clause_split(c: Seq<char>) -> Option<(Seq<char>, Op, Seq<char>)> {
    if let Some(i) = first_op_from(c, ">="@, 0) {
        Some((c.subrange(0, i), Op::Ge, c.subrange(i + 2, c.len() as int)))
    } else if let Some(i) = first_op_from(c, "<="@, 0) {
        Some((c.subrange(0, i), Op::Le, c.subrange(i + 2, c.len() as int)))
    } else if let Some(i) = first_op_from(c, "!="@, 0) {
        Some((c.subrange(0, i), Op::Ne, c.subrange(i + 2, c.len() as int)))
    } else if let Some(i) = first_plain_from(ascii_lower_seq(c), " like "@, 0) {
        Some((c.subrange(0, i), Op::Like, c.subrange(i + 6, c.len() as int)))
    } else if let Some(i) = first_op_from(c, "="@, 0) {
        Some((c.subrange(0, i), Op::Eq, c.subrange(i + 1, c.len() as int)))
    } else if let Some(i) = first_op_from(c, ">"@, 0) {
        Some((c.subrange(0, i), Op::Gt, c.subrange(i + 1, c.len() as int)))
    } else if let Some(i) = first_op_from(c, "<"@, 0) {
        Some((c.subrange(0, i), Op::Lt, c.subrange(i + 1, c.len() as int)))
    } else {
        None
    }
}

// ---------------------------------------------------------------------
// Literals
// ---------------------------------------------------------------------

/// `str::parse::<i64>`: optional sign, at least one digit, in range.
pub open spec fn parse_i64(s: Seq<char>) -> Option<i64> {
    let signed = s.len() > 0 && (s[0] == '-' || s[0] == '+');
    let neg = s.len() > 0 && s[0] == '-';
    let d = if signed { s.drop_first() } else { s };
    if d.len() == 0 || !all_digits(d) {
        None
    } else {
        let v = if neg { -digits_value(d) } else { digits_value(d) };
        if i64::MIN <= v && v <= i64::MAX {
            Some(v as i64)
        } else {
            None
        }
    }
}

/// Size suffixes in the order they are tried, with their multipliers.
pub open spec fn size_suffixes() -> Seq<(Seq<char>, int)> {
    seq![
        ("TIB"@, 1099511627776int),
        ("GIB"@, 1073741824int),
        ("MIB"@, 1048576int),
        ("KIB"@, 1024int),
        ("TB"@, 1099511627776int),
        ("GB"@, 1073741824int),
        ("MB"@, 1048576int),
        ("KB"@, 1024int),
        ("B"@, 1int),
    ]
}

/// First suffix (from index `k`) that the upper-cased literal ends with.
pub open spec fn suffix_from(u: Seq<char>, k: int) -> Option<int>
    decreases 9 - k,
{
    if k < 0 || k >= 9 {
        None
    } else if ends_with(u, size_suffixes()[k].0) {
        Some(k)
    } else {
        suffix_from(u, k + 1)
    }
}

pub open spec fn saturate(v: int) -> i64 {
    if v > i64::MAX {
        i64::MAX
    } else if v < i64::MIN {
        i64::MIN
    } else {
        v as i64
    }
}

/// What `str::to_uppercase` returns for a string.
pub uninterp spec fn uppercase(s: Seq<char>) -> Seq<char>;

/// Reading of a (trimmed) literal `s` whose upper-cased form is `u`.
pub open spec fn lit_read(s: Seq<char>, u: Seq<char>) -> Result<LitSpec, FilterErrorSpec> {
    if s.len() == 0 {
        Err(FilterErrorSpec::EmptyLiteral)
    } else if (s[0] == '"' && s.last() == '"') || (s[0] == '\'' && s.last() == '\'') {
        if s.len() < 2 {
            Err(FilterErrorSpec::MalformedString)
        } else {
            Ok(LitSpec::Str(s.subrange(1, s.len() - 1)))
        }
    } else {
        match suffix_from(u, 0) {
            Some(k) => {
                let suf = size_suffixes()[k];
                match parse_i64(trim(u.subrange(0, u.len() - suf.0.len()))) {
                    Some(n) => Ok(LitSpec::Int(saturate(n * suf.1))),
                    None => Err(FilterErrorSpec::BadSizeLiteral(s)),
                }
            },
            None => match parse_i64(s) {
                Some(n) => Ok(LitSpec::Int(n)),
                None => Ok(LitSpec::Str(s)),
            },
        }
    }
}

/// Reading of a (trimmed) literal.
pub open spec fn lit_parse(s: Seq<char>) -> Result<LitSpec, FilterErrorSpec> {
    lit_read(s, uppercase(s))
}

/// Reading of a (trimmed) clause.
pub open spec fn clause_parse(c: Seq<char>) -> Result<PredSpec, FilterErrorSpec> {
    match clause_split(c) {
        None => Err(FilterErrorSpec::NoOperator(c)),
        Some((f, op, rest)) => {
            let field = trim(f);
            if field.len() == 0 {
                Err(FilterErrorSpec::NoField(c))
            } else {
                match lit_parse(trim(rest)) {
                    Ok(lit) => Ok(PredSpec { field, op, lit }),
                    Err(e) => Err(e),
                }
            }
        },
    }
}

/// Reading of the clauses `pieces[i..]`: the first failure wins.
pub open spec fn clauses_parse(pieces: Seq<Seq<char>>, i: int) -> Result<Seq<PredSpec>, FilterErrorSpec>
    decreases pieces.len() - i,
{
    if i < 0 || i >= pieces.len() {
        Ok(Seq::empty())
    } else {
        match clause_parse(trim(pieces[i])) {
            Err(e) => Err(e),
            Ok(p) => match clauses_parse(pieces, i + 1) {
                Ok(rest) => Ok(seq![p] + rest),
                Err(e) => Err(e),
            },
        }
    }
}

/// Reading of a whole filter expression.
pub open spec fn predicate_parse(s: Seq<char>) -> Result<Seq<PredSpec>, FilterErrorSpec> {
    let t = trim(s);
    if t.len() == 0 {
        Ok(Seq::empty())
    } else {
        clauses_parse(split_pieces(t, 0), 0)
    }
}

// ---------------------------------------------------------------------
// Records and evaluation
// ---------------------------------------------------------------------

/// A record field as the filter sees it: an integer (JSON numbers that are
/// not `i64` read as 0), a string, or anything else.
#[derive(Debug, Clone)]
pub enum FieldValue {
    Num(i64),
    Str(String),
    Other,
}

/// A record: named fields, names unique.
#[derive(Debug, Clone)]
pub struct Record {
    pub fields: Vec<(String, FieldValue)>,
}

/// Value of the field called `name`.
pub open spec fn lookup(fields: Seq<(String, FieldValue)>, name: Seq<char>) -> Option<FieldValue>
    decreases fields.len(),
{
    if fields.len() == 0 {
        None
    } else if fields[0].0@ == name {
        Some(fields[0].1)
    } else {
        lookup(fields.drop_first(), name)
    }
}

pub open spec fn cmp_int_spec(op: Op, got: i64, want: i64) -> bool {
    match op {
        Op::Eq => got == want,
        Op::Ne => got != want,
        Op::Gt => got > want,
        Op::Lt => got < want,
        Op::Ge => got >= want,
        Op::Le => got <= want,
        Op::Like => false,
    }
}

pub open spec fn cmp_str_spec(op: Op, got: Seq<char>, want: Seq<char>) -> bool {
    match op {
        Op::Eq => got == want,
        Op::Ne => got != want,
        Op::Like => like(got, want),
        _ => false,
    }
}

/// One clause against a record. A missing field, or one of the other
/// kind, satisfies only `!=`.
pub open spec fn clause_holds(p: PredSpec, fields: Seq<(String, FieldValue)>) -> bool {
    match lookup(fields, p.field) {
        None => p.op == Op::Ne,
        Some(v) => match (p.lit, v) {
            (LitSpec::Int(want), FieldValue::Num(got)) => cmp_int_spec(p.op, got, want),
            (LitSpec::Str(want), FieldValue::Str(got)) => cmp_str_spec(p.op, got@, want),
            _ => p.op == Op::Ne,
        },
    }
}

// ---------------------------------------------------------------------
// Executable side
// ---------------------------------------------------------------------

proof fn lemma_quotes_extend(t: Seq<char>, i: int)
    requires
        0 <= i < t.len(),
    ensures
        quotes_odd(t.subrange(0, i + 1)) == (quotes_odd(t.subrange(0, i)) != is_quote(t[i])),
{
    assert(t.subrange(0, i + 1).drop_last() =~= t.subrange(0, i));
}

/// Splits at each unquoted ` and ` (any case).
fn split_and(t: &[char]) -> (pieces: Vec<Vec<char>>)
    ensures
        pieces@.map_values(|v: Vec<char>| v@) == split_pieces(t@, 0),
{
    let n = t.len();
    let mut out: Vec<Vec<char>> = Vec::new();
    let mut start: usize = 0;
    let mut in_quote = false;
    let mut i: usize = 0;
    let ghost lit = " and "@;
    while i < n
        invariant
            n == t@.len(),
            start <= i <= n,
            in_quote == quotes_odd(t@.subrange(0, i as int)),
            first_and_from(t@, start as int) == first_and_from(t@, i as int),
            split_pieces(t@, 0) == out@.map_values(|v: Vec<char>| v@) + split_pieces(t@, start as int),
        decreases n - i,
    {
        let c = t[i];
        if c == '"' || c == '\'' {
            proof {
                lemma_quotes_extend(t@, i as int);
                assert(!and_at(t@, i as int)) by {
                    if i + 5 <= n {
                        assert(ascii_lower_seq(t@.subrange(i as int, i + 5))[0] == ascii_lower(c));
                        reveal_strlit(" and ");
                    }
                }
            }
            in_quote = !in_quote;
            i = i + 1;
            continue;
        }
        if !in_quote && n - i >= 5 {
            let w = slice_range(t, i, i + 5);
            let lw = ascii_lower_chars(w.as_slice());
            let and_text = chars_of(" and ");
            if chars_eq(lw.as_slice(), and_text.as_slice()) {
                proof {
                    assert(and_at(t@, i as int));
                    let ghost tail = split_pieces(t@, i + 5);
                    assert(split_pieces(t@, start as int) == seq![t@.subrange(start as int, i as int)] + tail);
                    reveal_strlit(" and ");
                    assert(" and "@ =~= seq![' ', 'a', 'n', 'd', ' ']);
                    lemma_no_quotes_window(t@, i as int);
                }
                let piece = slice_range(t, start, i);
                let ghost before = out@.map_values(|v: Vec<char>| v@);
                out.push(piece);
                proof {
                    assert(out@.map_values(|v: Vec<char>| v@) =~= before.push(t@.subrange(start as int, i as int)));
                    assert(before.push(t@.subrange(start as int, i as int)) + split_pieces(t@, i + 5) =~= before
                        + (seq![t@.subrange(start as int, i as int)] + split_pieces(t@, i + 5)));
                }
                start = i + 5;
                i = i + 5;
                continue;
            }
        }
        proof {
            lemma_quotes_extend(t@, i as int);
            assert(!and_at(t@, i as int));
        }
        i = i + 1;
    }
    proof {
        assert(first_and_from(t@, i as int) is None);
    }
    let piece = slice_range(t, start, n);
    let ghost before = out@.map_values(|v: Vec<char>| v@);
    out.push(piece);
    proof {
        assert(out@.map_values(|v: Vec<char>| v@) =~= before.push(t@.subrange(start as int, n as int)));
        assert(split_pieces(t@, start as int) == seq![t@.subrange(start as int, n as int)]);
    }
    out
}

/// ` and ` holds no quote, so it leaves the quote parity unchanged.
proof fn lemma_no_quotes_window(t: Seq<char>, i: int)
    requires
        0 <= i,
        i + 5 <= t.len(),
        ascii_lower_seq(t.subrange(i, i + 5)) == " and "@,
        " and "@ == seq![' ', 'a', 'n', 'd', ' '],
    ensures
        quotes_odd(t.subrange(0, i + 5)) == quotes_odd(t.subrange(0, i)),
{
    let w = t.subrange(i, i + 5);
    assert forall|k: int| 0 <= k < 5 implies !is_quote(#[trigger] t[i + k]) by {
        assert(ascii_lower_seq(w)[k] == ascii_lower(w[k]));
        assert(w[k] == t[i + k]);
    }
    lemma_quotes_extend(t, i);
    lemma_quotes_extend(t, i + 1);
    lemma_quotes_extend(t, i + 2);
    lemma_quotes_extend(t, i + 3);
    lemma_quotes_extend(t, i + 4);
    assert(!is_quote(t[i + 0]));
}

/// First unquoted occurrence of `op` (`find_op`).
fn find_op(c: &[char], op: &str) -> (r: Option<usize>)
    ensures
        match r {
            Some(i) => first_op_from(c@, op@, 0) == Some(i as int),
            None => first_op_from(c@, op@, 0) is None,
        },
{
    let opv = chars_of(op);
    let mut in_quote = false;
    let mut i: usize = 0;
    while i < c.len()
        invariant
            i <= c@.len(),
            opv@ == op@,
            in_quote == quotes_odd(c@.subrange(0, i as int)),
            first_op_from(c@, op@, 0) == first_op_from(c@, op@, i as int),
        decreases c.len() - i,
    {
        let ch = c[i];
        proof {
            lemma_quotes_extend(c@, i as int);
        }
        if ch == '"' || ch == '\'' {
            in_quote = !in_quote;
            i = i + 1;
            continue;
        }
        if !in_quote && crate::text::matches_at(c, opv.as_slice(), i) {
            return Some(i);
        }
        i = i + 1;
    }
    None
}

/// First occurrence of `p` in `h` (`str::find`).
fn find_plain(h: &[char], p: &[char]) -> (r: Option<usize>)
    ensures
        match r {
            Some(i) => first_plain_from(h@, p@, 0) == Some(i as int),
            None => first_plain_from(h@, p@, 0) is None,
        },
{
    if p.len() > h.len() {
        return None;
    }
    let last = h.len() - p.len();
    let mut i: usize = 0;
    while i <= last
        invariant
            last == h@.len() - p@.len(),
            i <= last + 1,
            first_plain_from(h@, p@, 0) == first_plain_from(h@, p@, i as int),
        decreases last + 1 - i,
    {
        if crate::text::matches_at(h, p, i) {
            return Some(i);
        }
        if i == last {
            assert(first_plain_from(h@, p@, i + 1) is None);
            return None;
        }
        i = i + 1;
    }
    None
}

fn make_split(c: &[char], i: usize, oplen: usize, op: Op) -> (r: (Vec<char>, Op, Vec<char>))
    requires
        i + oplen <= c@.len(),
    ensures
        r.0@ == c@.subrange(0, i as int),
        r.1 == op,
        r.2@ == c@.subrange(i + oplen, c@.len() as int),
{
    let n = c.len();
    assert(n == c@.len());
    (slice_range(c, 0, i), op, slice_range(c, i + oplen, n))
}

proof fn lemma_first_op_in_range(c: Seq<char>, op: Seq<char>, i: int)
    ensures
        first_op_from(c, op, i) matches Some(j) ==> i <= j && j + op.len() <= c.len() && j >= 0,
    decreases c.len() - i,
{
    if !(i < 0 || i >= c.len()) && !(!is_quote(c[i]) && unquoted(c, i) && occurs_at(c, op, i)) {
        lemma_first_op_in_range(c, op, i + 1);
    }
}

proof fn lemma_first_plain_in_range(h: Seq<char>, p: Seq<char>, i: int)
    ensures
        first_plain_from(h, p, i) matches Some(j) ==> i <= j && j + p.len() <= h.len() && j >= 0,
    decreases h.len() + 1 - i,
{
    if !(i < 0 || i + p.len() > h.len()) && !occurs_at(h, p, i) {
        lemma_first_plain_in_range(h, p, i + 1);
    }
}

proof fn lemma_strlit_lens()
    ensures
        ">="@.len() == 2,
        "<="@.len() == 2,
        "!="@.len() == 2,
        " like "@.len() == 6,
        "="@.len() == 1,
        ">"@.len() == 1,
        "<"@.len() == 1,
{
    reveal_strlit(">=");
    reveal_strlit("<=");
    reveal_strlit("!=");
    reveal_strlit(" like ");
    reveal_strlit("=");
    reveal_strlit(">");
    reveal_strlit("<");
}

/// Operator split of a clause (`parse_pred`'s operator search).
fn split_clause(c: &[char]) -> (r: Option<(Vec<char>, Op, Vec<char>)>)
    ensures
        match (r, clause_split(c@)) {
            (Some((f, op, rest)), Some((sf, sop, srest))) => f@ == sf && op == sop && rest@ == srest,
            (None, None) => true,
            _ => false,
        },
{
    proof {
        lemma_strlit_lens();
        lemma_first_op_in_range(c@, ">="@, 0);
        lemma_first_op_in_range(c@, "<="@, 0);
        lemma_first_op_in_range(c@, "!="@, 0);
        lemma_first_op_in_range(c@, "="@, 0);
        lemma_first_op_in_range(c@, ">"@, 0);
        lemma_first_op_in_range(c@, "<"@, 0);
        lemma_first_plain_in_range(ascii_lower_seq(c@), " like "@, 0);
    }
    if let Some(i) = find_op(c, ">=") {
        return Some(make_split(c, i, 2, Op::Ge));
    }
    if let Some(i) = find_op(c, "<=") {
        return Some(make_split(c, i, 2, Op::Le));
    }
    if let Some(i) = find_op(c, "!=") {
        return Some(make_split(c, i, 2, Op::Ne));
    }
    let lower = ascii_lower_chars(c);
    let like_text = chars_of(" like ");
    if let Some(i) = find_plain(lower.as_slice(), like_text.as_slice()) {
        return Some(make_split(c, i, 6, Op::Like));
    }
    if let Some(i) = find_op(c, "=") {
        return Some(make_split(c, i, 1, Op::Eq));
    }
    if let Some(i) = find_op(c, ">") {
        return Some(make_split(c, i, 1, Op::Gt));
    }
    if let Some(i) = find_op(c, "<") {
        return Some(make_split(c, i, 1, Op::Lt));
    }
    None
}

/// `str::parse::<i64>`.
pub fn parse_i64_chars(s: &[char]) -> (r: Option<i64>)
    ensures
        r == parse_i64(s@),
{
    if s.len() == 0 {
        return None;
    }
    let neg = s[0] == '-';
    let signed = neg || s[0] == '+';
    let d = if signed { slice_range(s, 1, s.len()) } else { slice_range(s, 0, s.len()) };
    proof {
        if signed {
            assert(d@ =~= s@.drop_first());
        } else {
            assert(d@ =~= s@);
        }
    }
    if d.len() == 0 {
        return None;
    }
    if !digit_run(d.as_slice()) {
        return None;
    }
    let mag = parse_magnitude(d.as_slice());
    match mag {
        None => None,
        Some(m) => {
            if neg {
                if m <= 9223372036854775808u64 {
                    if m == 9223372036854775808u64 {
                        Some(i64::MIN)
                    } else {
                        Some(-(m as i64))
                    }
                } else {
                    None
                }
            } else {
                if m <= 9223372036854775807u64 {
                    Some(m as i64)
                } else {
                    None
                }
            }
        },
    }
}

/// Whether every character is an ASCII digit.
fn digit_run(d: &[char]) -> (b: bool)
    ensures
        b == all_digits(d@),
{
    let mut i: usize = 0;
    while i < d.len()
        invariant
            i <= d@.len(),
            forall|k: int| 0 <= k < i ==> is_digit(#[trigger] d@[k]),
        decreases d.len() - i,
    {
        if !('0' <= d[i] && d[i] <= '9') {
            assert(!is_digit(d@[i as int]));
            return false;
        }
        i = i + 1;
    }
    true
}

/// Digits into `u64`, `None` past `u64::MAX`.
fn parse_magnitude(s: &[char]) -> (r: Option<u64>)
    requires
        all_digits(s@),
    ensures
        match r {
            Some(v) => v == digits_value(s@),
            None => digits_value(s@) > u64::MAX,
        },
{
    let mut v: u64 = 0;
    let mut i: usize = 0;
    while i < s.len()
        invariant
            i <= s@.len(),
            all_digits(s@),
            v == digits_value(s@.subrange(0, i as int)),
        decreases s.len() - i,
    {
        let ghost pre = s@.subrange(0, i as int);
        assert(s@.subrange(0, i + 1).drop_last() =~= pre);
        assert(is_digit(s@[i as int]));
        let d = (s[i] as u32 - '0' as u32) as u64;
        if v > (u64::MAX - d) / 10 {
            proof {
                lemma_digits_ge_prefix(s@, i as int + 1);
            }
            return None;
        }
        v = v * 10 + d;
        i = i + 1;
    }
    assert(s@.subrange(0, s@.len() as int) =~= s@);
    Some(v)
}

proof fn lemma_digits_ge_prefix(s: Seq<char>, k: int)
    requires
        all_digits(s),
        0 <= k <= s.len(),
    ensures
        digits_value(s.subrange(0, k)) <= digits_value(s),
    decreases s.len() - k,
{
    if k < s.len() {
        lemma_digits_ge_prefix(s, k + 1);
        let p = s.subrange(0, k + 1);
        assert(p.drop_last() =~= s.subrange(0, k));
        assert(is_digit(p.last()));
        lemma_digits_nonneg(s.subrange(0, k));
    } else {
        assert(s.subrange(0, k) =~= s);
    }
}

proof fn lemma_digits_nonneg(s: Seq<char>)
    ensures
        all_digits(s) ==> digits_value(s) >= 0,
    decreases s.len(),
{
    if s.len() > 0 && all_digits(s) {
        assert(all_digits(s.drop_last())) by {
            assert forall|j: int| 0 <= j < s.len() - 1 implies is_digit(#[trigger] s.drop_last()[j]) by {
                assert(s.drop_last()[j] == s[j]);
            }
        }
        assert(is_digit(s[s.len() - 1]));
        lemma_digits_nonneg(s.drop_last());
    }
}

/// `i64::saturating_mul` for a positive multiplier.
fn saturating_mul(n: i64, m: i64) -> (r: i64)
    requires
        m > 0,
    ensures
        r == saturate(n * m),
{
    match n.checked_mul(m) {
        Some(v) => v,
        None => {
            if n < 0 {
                assert(n * m < i64::MIN) by (nonlinear_arith)
                    requires
                        n < 0,
                        m > 0,
                        n * m < i64::MIN || n * m > i64::MAX,
                ;
                i64::MIN
            } else {
                assert(n * m > i64::MAX) by (nonlinear_arith)
                    requires
                        n >= 0,
                        m > 0,
                        n * m < i64::MIN || n * m > i64::MAX,
                ;
                i64::MAX
            }
        },
    }
}

proof fn lemma_suffix_table()
    ensures
        size_suffixes().len() == 9,
        size_suffixes()[0].0 == seq!['T', 'I', 'B'],
        size_suffixes()[1].0 == seq!['G', 'I', 'B'],
        size_suffixes()[2].0 == seq!['M', 'I', 'B'],
        size_suffixes()[3].0 == seq!['K', 'I', 'B'],
        size_suffixes()[4].0 == seq!['T', 'B'],
        size_suffixes()[5].0 == seq!['G', 'B'],
        size_suffixes()[6].0 == seq!['M', 'B'],
        size_suffixes()[7].0 == seq!['K', 'B'],
        size_suffixes()[8].0 == seq!['B'],
{
    reveal_strlit("TIB");
    reveal_strlit("GIB");
    reveal_strlit("MIB");
    reveal_strlit("KIB");
    reveal_strlit("TB");
    reveal_strlit("GB");
    reveal_strlit("MB");
    reveal_strlit("KB");
    reveal_strlit("B");
}

/// Index and multiplier of the first size suffix that `u` ends with.
fn find_suffix(u: &[char]) -> (r: Option<(usize, i64)>)
    ensures
        match r {
            Some((k, m)) => {
                &&& k < 9
                &&& suffix_from(u@, 0) == Some(k as int)
                &&& m == size_suffixes()[k as int].1
                &&& ends_with(u@, size_suffixes()[k as int].0)
            },
            None => suffix_from(u@, 0) is None,
        },
{
    proof {
        lemma_suffix_table();
    }
    let sufs: [(&str, i64); 9] = [
        ("TIB", 1099511627776),
        ("GIB", 1073741824),
        ("MIB", 1048576),
        ("KIB", 1024),
        ("TB", 1099511627776),
        ("GB", 1073741824),
        ("MB", 1048576),
        ("KB", 1024),
        ("B", 1),
    ];
    let mut k: usize = 0;
    while k < 9
        invariant
            k <= 9,
            suffix_from(u@, 0) == suffix_from(u@, k as int),
            forall|j: int| 0 <= j < 9 ==> (#[trigger] sufs[j]).0@ == size_suffixes()[j].0 && sufs[j].1 == size_suffixes()[j].1,
        decreases 9 - k,
    {
        let (suf, m) = sufs[k];
        let sv = chars_of(suf);
        if ends_with_chars(u, sv.as_slice()) {
            return Some((k, m));
        }
        k = k + 1;
    }
    None
}

/// `str::to_uppercase` (Unicode upper-casing); its result is named, not spelled out.
#[verifier::external_body]
fn to_uppercase(s: &str) -> (r: String)
    ensures
        r@ == uppercase(s@),
{
    s.to_uppercase()
}

/// Reads a trimmed literal `lit` given its upper-cased form `upper`: a
/// quoted string, an integer with a size suffix, a plain integer, or a
/// bare word.
pub fn read_literal(lit: &str, upper: &str) -> (r: Result<Lit, FilterError>)
    ensures
        match (r, lit_read(lit@, upper@)) {
            (Ok(l), Ok(sl)) => lit_view(l) == sl,
            (Err(e), Err(se)) => error_view(e) == se,
            _ => false,
        },
{
    let sv = chars_of(lit);
    let s = sv.as_slice();
    let n = s.len();
    if n == 0 {
        return Err(FilterError::EmptyLiteral);
    }
    if (s[0] == '"' && s[n - 1] == '"') || (s[0] == '\'' && s[n - 1] == '\'') {
        if n < 2 {
            return Err(FilterError::MalformedString);
        }
        return Ok(Lit::Str(string_of(slice_range(s, 1, n - 1).as_slice())));
    }
    let u = chars_of(upper);
    match find_suffix(u.as_slice()) {
        Some((k, m)) => {
            proof {
                lemma_suffix_table();
            }
            let sl = suffix_len(k);
            let num = slice_range(u.as_slice(), 0, u.len() - sl);
            let tn = trim_chars(num.as_slice());
            match parse_i64_chars(tn.as_slice()) {
                Some(v) => Ok(Lit::Int(saturating_mul(v, m))),
                None => Err(FilterError::BadSizeLiteral(lit.to_owned())),
            }
        },
        None => match parse_i64_chars(s) {
            Some(v) => Ok(Lit::Int(v)),
            None => Ok(Lit::Str(lit.to_owned())),
        },
    }
}

/// Reads a trimmed literal (`parse_lit`).
fn parse_lit(s: &[char]) -> (r: Result<Lit, FilterError>)
    ensures
        match (r, lit_parse(s@)) {
            (Ok(l), Ok(sl)) => lit_view(l) == sl,
            (Err(e), Err(se)) => error_view(e) == se,
            _ => false,
        },
{
    let text = string_of(s);
    let upper = to_uppercase(text.as_str());
    read_literal(text.as_str(), upper.as_str())
}

fn suffix_len(k: usize) -> (l: usize)
    requires
        k < 9,
    ensures
        l == size_suffixes()[k as int].0.len(),
{
    proof {
        lemma_suffix_table();
    }
    if k < 4 {
        3
    } else if k < 8 {
        2
    } else {
        1
    }
}

/// Reads one trimmed clause (`parse_pred`).
fn parse_pred(c: &[char]) -> (r: Result<Pred, FilterError>)
    ensures
        match (r, clause_parse(c@)) {
            (Ok(p), Ok(sp)) => pred_view(p) == sp,
            (Err(e), Err(se)) => error_view(e) == se,
            _ => false,
        },
{
    match split_clause(c) {
        None => Err(FilterError::NoOperator(string_of(c))),
        Some((f, op, rest)) => {
            let field = trim_chars(f.as_slice());
            if field.len() == 0 {
                return Err(FilterError::NoField(string_of(c)));
            }
            let lt = trim_chars(rest.as_slice());
            match parse_lit(lt.as_slice()) {
                Ok(lit) => Ok(Pred { field: string_of(field.as_slice()), op, lit }),
                Err(e) => Err(e),
            }
        },
    }
}

impl Predicate {
    /// Parses a filter expression; an empty one matches everything.
    pub fn parse(s: &str) -> (r: Result<Predicate, FilterError>)
        ensures
            match (r, predicate_parse(s@)) {
                (Ok(p), Ok(cl)) => p.clauses() == cl,
                (Err(e), Err(se)) => error_view(e) == se,
                _ => false,
            },
    {
        let all = chars_of(s);
        let t = trim_chars(all.as_slice());
        if t.len() == 0 {
            let p = Predicate { parts: Vec::new() };
            assert(p.clauses() =~= Seq::<PredSpec>::empty());
            return Ok(p);
        }
        let pieces = split_and(t.as_slice());
        let ghost pv = pieces@.map_values(|v: Vec<char>| v@);
        let mut parts: Vec<Pred> = Vec::new();
        let mut i: usize = 0;
        while i < pieces.len()
            invariant
                i <= pieces@.len(),
                t@ == trim(s@),
                t@.len() > 0,
                pv == pieces@.map_values(|v: Vec<char>| v@),
                pv == split_pieces(t@, 0),
                clauses_parse(pv, 0) == (match clauses_parse(pv, i as int) {
                    Ok(rest) => Ok(parts@.map_values(|p: Pred| pred_view(p)) + rest),
                    Err(e) => Err(e),
                }),
            decreases pieces.len() - i,
        {
            let chunk = trim_chars(pieces[i].as_slice());
            assert(pv[i as int] == pieces@[i as int]@);
            let ghost before = parts@.map_values(|p: Pred| pred_view(p));
            match parse_pred(chunk.as_slice()) {
                Ok(p) => {
                    parts.push(p);
                    proof {
                        assert(parts@.map_values(|p: Pred| pred_view(p)) =~= before.push(pred_view(p)));
                        match clauses_parse(pv, i + 1) {
                            Ok(rest) => {
                                assert(before.push(pred_view(p)) + rest =~= before + (seq![pred_view(p)] + rest));
                            },
                            Err(_) => {},
                        }
                    }
                },
                Err(e) => {
                    proof {
                        assert(chunk@ == trim(pv[i as int]));
                        assert(clauses_parse(pv, i as int) == Err::<Seq<PredSpec>, FilterErrorSpec>(error_view(e)));
                    }
                    return Err(e);
                },
            }
            i = i + 1;
        }
        let p = Predicate { parts };
        proof {
            assert(p.parts@.map_values(|p: Pred| pred_view(p)) + Seq::<PredSpec>::empty() =~= p.parts@.map_values(|p: Pred| pred_view(p)));
        }
        Ok(p)
    }

    /// Whether every clause holds of the record.
    pub fn matches(&self, rec: &Record) -> (b: bool)
        ensures
            b == forall|i: int| 0 <= i < self.clauses().len() ==> clause_holds(#[trigger] self.clauses()[i], rec.fields@),
    {
        let mut i: usize = 0;
        while i < self.parts.len()
            invariant
                i <= self.parts@.len(),
                forall|k: int| 0 <= k < i ==> clause_holds(#[trigger] self.clauses()[k], rec.fields@),
            decreases self.parts.len() - i,
        {
            if !eval_pred(&self.parts[i], rec) {
                assert(!clause_holds(self.clauses()[i as int], rec.fields@));
                return false;
            }
            i = i + 1;
        }
        true
    }
}

/// Looks up a field by name.
fn lookup_field<'a>(rec: &'a Record, name: &String) -> (r: Option<&'a FieldValue>)
    ensures
        match r {
            Some(v) => lookup(rec.fields@, name@) == Some(*v),
            None => lookup(rec.fields@, name@) is None,
        },
{
    let mut i: usize = 0;
    let nv = chars_of(name.as_str());
    assert(rec.fields@.subrange(0, rec.fields@.len() as int) =~= rec.fields@);
    while i < rec.fields.len()
        invariant
            i <= rec.fields@.len(),
            nv@ == name@,
            lookup(rec.fields@, name@) == lookup(rec.fields@.subrange(i as int, rec.fields@.len() as int), name@),
        decreases rec.fields.len() - i,
    {
        let ghost rest = rec.fields@.subrange(i as int, rec.fields@.len() as int);
        assert(rest.drop_first() =~= rec.fields@.subrange(i + 1, rec.fields@.len() as int));
        let kv = chars_of(rec.fields[i].0.as_str());
        if chars_eq(kv.as_slice(), nv.as_slice()) {
            return Some(&rec.fields[i].1);
        }
        i = i + 1;
    }
    None
}

fn cmp_int(op: Op, got: i64, want: i64) -> (b: bool)
    ensures
        b == cmp_int_spec(op, got, want),
{
    match op {
        Op::Eq => got == want,
        Op::Ne => got != want,
        Op::Gt => got > want,
        Op::Lt => got < want,
        Op::Ge => got >= want,
        Op::Le => got <= want,
        Op::Like => false,
    }
}

fn cmp_str(op: Op, got: &str, want: &str) -> (b: bool)
    ensures
        b == cmp_str_spec(op, got@, want@),
{
    let g = chars_of(got);
    let w = chars_of(want);
    match op {
        Op::Eq => chars_eq(g.as_slice(), w.as_slice()),
        Op::Ne => !chars_eq(g.as_slice(), w.as_slice()),
        Op::Like => like_match(g.as_slice(), w.as_slice()),
        _ => false,
    }
}

/// One clause against a record.
fn eval_pred(p: &Pred, rec: &Record) -> (b: bool)
    ensures
        b == clause_holds(pred_view(*p), rec.fields@),
{
    match lookup_field(rec, &p.field) {
        None => p.op == Op::Ne,
        Some(v) => match (&p.lit, v) {
            (Lit::Int(want), FieldValue::Num(got)) => cmp_int(p.op, *got, *want),
            (Lit::Str(want), FieldValue::Str(got)) => cmp_str(p.op, got.as_str(), want.as_str()),
            _ => p.op == Op::Ne,
        },
    }
}

impl Predicate {
    /// Indices of the records the filter keeps: those it matches, in
    /// order, at most `limit` of them.
    pub fn select(&self, records: &[Record], limit: usize) -> (idx: Vec<usize>)
        ensures
            idx@ == matching_indices(self.clauses(), records@, records@.len() as int).take(
                if limit < matching_indices(self.clauses(), records@, records@.len() as int).len() {
                    limit as int
                } else {
                    matching_indices(self.clauses(), records@, records@.len() as int).len() as int
                },
            ),
    {
        let ghost all = matching_indices(self.clauses(), records@, records@.len() as int);
        let mut idx: Vec<usize> = Vec::new();
        let mut i: usize = 0;
        while i < records.len() && idx.len() < limit
            invariant
                i <= records@.len(),
                idx@.len() <= limit,
                idx@ == matching_indices(self.clauses(), records@, i as int),
                all == matching_indices(self.clauses(), records@, records@.len() as int),
                all.subrange(0, idx@.len() as int) == idx@,
            decreases records.len() - i,
        {
            proof {
                lemma_matching_prefix(self.clauses(), records@, i as int + 1, records@.len() as int);
            }
            if self.matches(&records[i]) {
                idx.push(i);
            }
            i = i + 1;
            assert(idx@ =~= matching_indices(self.clauses(), records@, i as int));
        }
        proof {
            lemma_matching_prefix(self.clauses(), records@, i as int, records@.len() as int);
            if i == records.len() {
                assert(idx@ == all);
            } else {
                assert(idx@.len() == limit);
            }
            assert(all.take(idx@.len() as int) =~= idx@);
        }
        idx
    }
}

/// Every clause holds of the record.
pub open spec fn record_matches(clauses: Seq<PredSpec>, r: Record) -> bool {
    forall|i: int| 0 <= i < clauses.len() ==> clause_holds(#[trigger] clauses[i], r.fields@)
}

/// Indices below `k` of the records that match, in order.
pub open spec fn matching_indices(clauses: Seq<PredSpec>, records: Seq<Record>, k: int) -> Seq<usize>
    decreases k,
{
    if k <= 0 {
        Seq::empty()
    } else if record_matches(clauses, records[k - 1]) {
        matching_indices(clauses, records, k - 1).push((k - 1) as usize)
    } else {
        matching_indices(clauses, records, k - 1)
    }
}

proof fn lemma_matching_prefix(clauses: Seq<PredSpec>, records: Seq<Record>, a: int, b: int)
    requires
        0 <= a <= b,
    ensures
        matching_indices(clauses, records, a).len() <= matching_indices(clauses, records, b).len(),
        matching_indices(clauses, records, b).subrange(0, matching_indices(clauses, records, a).len() as int)
            == matching_indices(clauses, records, a),
    decreases b - a,
{
    if a < b {
        lemma_matching_prefix(clauses, records, a, b - 1);
        let mb1 = matching_indices(clauses, records, b - 1);
        let ma = matching_indices(clauses, records, a);
        if record_matches(clauses, records[b - 1]) {
            assert(matching_indices(clauses, records, b).subrange(0, ma.len() as int) =~= mb1.subrange(0, ma.len() as int));
        }
    } else {
        assert(matching_indices(clauses, records, b).subrange(0, matching_indices(clauses, records, a).len() as int)
            =~= matching_indices(clauses, records, a));
    }
}

// ---------------------------------------------------------------------
// Laws
// ---------------------------------------------------------------------

/// A blank filter (nothing but whitespace) parses to no clauses, so it
/// matches every record.
pub proof fn law_blank_filter_matches_everything(s: Seq<char>, fields: Seq<(String, FieldValue)>)
    requires
        trim(s).len() == 0,
    ensures
        predicate_parse(s) matches Ok(cl) && cl.len() == 0 && forall|i: int|
            0 <= i < cl.len() ==> clause_holds(#[trigger] cl[i], fields),
{
}

/// A clause on a field the record lacks holds exactly when its operator is `!=`.
pub proof fn law_missing_field_only_ne(p: PredSpec, fields: Seq<(String, FieldValue)>)
    requires
        lookup(fields, p.field) is None,
    ensures
        clause_holds(p, fields) == (p.op == Op::Ne),
{
}

/// `LIKE` never holds between numbers, and ordering operators never hold
/// between strings.
pub proof fn law_operators_by_kind(op: Op, a: i64, b: i64, x: Seq<char>, y: Seq<char>)
    ensures
        op == Op::Like ==> !cmp_int_spec(op, a, b),
        (op == Op::Gt || op == Op::Lt || op == Op::Ge || op == Op::Le) ==> !cmp_str_spec(op, x, y),
{
}

/// Some window of `s` reads `and` in any ASCII letter case.
pub open spec fn mentions_and(s: Seq<char>) -> bool {
    contains(ascii_lower_seq(s), seq!['a', 'n', 'd'])
}

proof fn lemma_no_and_at(s: Seq<char>, i: int)
    requires
        !mentions_and(s),
        0 <= i,
        i + 3 <= s.len(),
    ensures
        !(ascii_lower(s[i]) == 'a' && ascii_lower(s[i + 1]) == 'n' && ascii_lower(s[i + 2]) == 'd'),
{
    if ascii_lower(s[i]) == 'a' && ascii_lower(s[i + 1]) == 'n' && ascii_lower(s[i + 2]) == 'd' {
        let l = ascii_lower_seq(s);
        assert(l.subrange(i, i + 3) =~= seq!['a', 'n', 'd']);
        assert(occurs_at(l, seq!['a', 'n', 'd'], i));
    }
}

proof fn lemma_and_at_chars(t: Seq<char>, i: int)
    requires
        and_at(t, i),
    ensures
        ascii_lower(t[i + 1]) == 'a',
        ascii_lower(t[i + 2]) == 'n',
        ascii_lower(t[i + 3]) == 'd',
{
    reveal_strlit(" and ");
    let w = ascii_lower_seq(t.subrange(i, i + 5));
    assert(w[1] == ascii_lower(t[i + 1]));
    assert(w[2] == ascii_lower(t[i + 2]));
    assert(w[3] == ascii_lower(t[i + 3]));
}

proof fn lemma_first_and_none(t: Seq<char>, from: int)
    requires
        0 <= from,
        forall|i: int| from <= i ==> !#[trigger] and_at(t, i),
    ensures
        first_and_from(t, from) is None,
    decreases t.len() - from,
{
    if from + 5 <= t.len() {
        lemma_first_and_none(t, from + 1);
    }
}

proof fn lemma_first_and_is(t: Seq<char>, from: int, j: int)
    requires
        0 <= from <= j,
        and_at(t, j),
        forall|i: int| from <= i < j ==> !#[trigger] and_at(t, i),
    ensures
        first_and_from(t, from) == Some(j),
    decreases j - from,
{
    if from < j {
        lemma_first_and_is(t, from + 1, j);
    }
}

proof fn lemma_quotes_concat(w: Seq<char>, y: Seq<char>)
    ensures
        quotes_odd(w + y) == (quotes_odd(w) != quotes_odd(y)),
    decreases y.len(),
{
    if y.len() == 0 {
        assert(w + y =~= w);
    } else {
        assert((w + y).drop_last() =~= w + y.drop_last());
        lemma_quotes_concat(w, y.drop_last());
    }
}

proof fn lemma_quotes_ws(w: Seq<char>)
    requires
        forall|k: int| 0 <= k < w.len() ==> is_ws(#[trigger] w[k]),
    ensures
        !quotes_odd(w),
    decreases w.len(),
{
    if w.len() > 0 {
        assert(is_ws(w[w.len() - 1]));
        assert forall|k: int| 0 <= k < w.len() - 1 implies is_ws(#[trigger] w.drop_last()[k]) by {
            assert(w.drop_last()[k] == w[k]);
        }
        lemma_quotes_ws(w.drop_last());
    }
}

/// A core with no `and` in it is a single clause.
proof fn lemma_single_clause(c: Seq<char>, s: Seq<char>, off: int)
    requires
        c.len() > 0,
        0 <= off,
        off + c.len() <= s.len(),
        c == s.subrange(off, off + c.len()),
        !mentions_and(s),
    ensures
        split_pieces(c, 0) == seq![c],
{
    assert forall|i: int| 0 <= i implies !#[trigger] and_at(c, i) by {
        if and_at(c, i) {
            lemma_and_at_chars(c, i);
            assert(c[i + 1] == s[off + i + 1]);
            assert(c[i + 2] == s[off + i + 2]);
            assert(c[i + 3] == s[off + i + 3]);
            lemma_no_and_at(s, off + i + 1);
        }
    }
    lemma_first_and_none(c, 0);
    assert(c.subrange(0, c.len() as int) =~= c);
}

/// The core of a side: its whitespace-free part and where it sits.
pub open spec fn is_core(s: Seq<char>, i: int, e: int) -> bool {
    &&& 0 <= i < e <= s.len()
    &&& forall|k: int| 0 <= k < i ==> is_ws(#[trigger] s[k])
    &&& forall|k: int| e <= k < s.len() ==> is_ws(#[trigger] s[k])
    &&& !is_ws(s[i])
    &&& !is_ws(s[e - 1])
}

proof fn lemma_join_trim(a: Seq<char>, b: Seq<char>, ia: int, ea: int, ib: int, eb: int)
    requires
        is_core(a, ia, ea),
        is_core(b, ib, eb),
    ensures
        trim(a + " AND "@ + b) == a.subrange(ia, a.len() as int) + " AND "@ + b.subrange(0, eb),
{
    reveal_strlit(" AND ");
    let x = " AND "@;
    let s = a + x + b;
    assert forall|k: int| 0 <= k < ia implies is_ws(#[trigger] s[k]) by {
        assert(s[k] == a[k]);
    }
    assert(s[ia] == a[ia]);
    lemma_trim_front_at(s, ia);
    let a1 = a.subrange(ia, a.len() as int);
    let f = s.subrange(ia, s.len() as int);
    assert(f =~= a1 + x + b);
    let j = a1.len() as int;
    let end = j + 5 + eb;
    assert forall|k: int| end <= k < f.len() implies is_ws(#[trigger] f[k]) by {
        assert(f[k] == b[k - j - 5]);
    }
    assert(f[end - 1] == b[eb - 1]);
    lemma_trim_back_at(f, end);
    assert(f.subrange(0, end) =~= a1 + x + b.subrange(0, eb));
}

proof fn lemma_join_pieces(a: Seq<char>, b: Seq<char>, ia: int, ea: int, ib: int, eb: int)
    requires
        is_core(a, ia, ea),
        is_core(b, ib, eb),
        !mentions_and(a),
        !mentions_and(b),
        !quotes_odd(a),
    ensures
        split_pieces(a.subrange(ia, a.len() as int) + " AND "@ + b.subrange(0, eb), 0) == seq![
            a.subrange(ia, a.len() as int),
            b.subrange(0, eb),
        ],
{
    reveal_strlit(" AND ");
    reveal_strlit(" and ");
    let x = " AND "@;
    let a1 = a.subrange(ia, a.len() as int);
    let b1 = b.subrange(0, eb);
    let t = a1 + x + b1;
    let j = a1.len() as int;
    assert(a =~= a.subrange(0, ia) + a1);
    lemma_quotes_concat(a.subrange(0, ia), a1);
    assert forall|k: int| 0 <= k < ia implies is_ws(#[trigger] a.subrange(0, ia)[k]) by {
        assert(a.subrange(0, ia)[k] == a[k]);
    }
    lemma_quotes_ws(a.subrange(0, ia));
    assert(t.subrange(0, j) =~= a1);
    assert(t.subrange(j, j + 5) =~= x);
    assert(ascii_lower_seq(x) =~= " and "@);
    assert(and_at(t, j));
    assert forall|i: int| 0 <= i < j implies !#[trigger] and_at(t, i) by {
        if and_at(t, i) {
            lemma_and_at_chars(t, i);
            if i + 3 < j {
                assert(t[i + 1] == a[ia + i + 1]);
                assert(t[i + 2] == a[ia + i + 2]);
                assert(t[i + 3] == a[ia + i + 3]);
                lemma_no_and_at(a, ia + i + 1);
            } else {
                assert(t[j] == ' ');
            }
        }
    }
    lemma_first_and_is(t, 0, j);
    assert forall|i: int| j + 5 <= i implies !#[trigger] and_at(t, i) by {
        if and_at(t, i) {
            lemma_and_at_chars(t, i);
            let y = i + 1 - j - 5;
            assert(t[i + 1] == b[y]);
            assert(t[i + 2] == b[y + 1]);
            assert(t[i + 3] == b[y + 2]);
            lemma_no_and_at(b, y);
        }
    }
    lemma_first_and_none(t, j + 5);
    assert(t.subrange(j + 5, t.len() as int) =~= b1);
    assert(split_pieces(t, j + 5) == seq![b1]);
    assert(split_pieces(t, 0) =~= seq![a1, b1]);
}

/// A side parses as the single clause of its core, and either piece that
/// holds the core between whitespace trims to it.
proof fn lemma_side(a: Seq<char>, ia: int, ea: int)
    requires
        is_core(a, ia, ea),
        !mentions_and(a),
        predicate_parse(a) is Ok,
    ensures
        clause_parse(a.subrange(ia, ea)) is Ok,
        predicate_parse(a)->Ok_0 == seq![clause_parse(a.subrange(ia, ea))->Ok_0],
        trim(a.subrange(ia, a.len() as int)) == a.subrange(ia, ea),
        trim(a.subrange(0, ea)) == a.subrange(ia, ea),
{
    let ca = a.subrange(ia, ea);
    lemma_trim_front_at(a, ia);
    lemma_trim_back_at(a.subrange(ia, a.len() as int), ea - ia);
    assert(a.subrange(ia, a.len() as int).subrange(0, ea - ia) =~= ca);
    assert(trim(a) == ca);
    lemma_trim_fixed(ca);
    lemma_single_clause(ca, a, ia);
    let one = seq![ca];
    assert(clauses_parse(one, 1) == Ok::<Seq<PredSpec>, FilterErrorSpec>(Seq::empty()));
    assert(predicate_parse(a)->Ok_0 =~= seq![clause_parse(ca)->Ok_0]);
    let a1 = a.subrange(ia, a.len() as int);
    lemma_trim_front_at(a1, 0);
    assert(a1.subrange(0, a1.len() as int) =~= a1);
    let a0 = a.subrange(0, ea);
    assert forall|k: int| 0 <= k < ia implies is_ws(#[trigger] a0[k]) by {
        assert(a0[k] == a[k]);
    }
    lemma_trim_front_at(a0, ia);
    assert(a0.subrange(ia, a0.len() as int) =~= ca);
    lemma_trim_back_at(ca, ca.len() as int);
    assert(ca.subrange(0, ca.len() as int) =~= ca);
}

/// Two filters joined by ` AND ` hold the clauses of both, in order, so a
/// record matches the joined filter exactly when it matches each. Each
/// side is a single clause here: non-blank, with no `and` of its own, and
/// the left one closes its quotes.
pub proof fn law_and_matches_both(a: Seq<char>, b: Seq<char>, r: Record)
    requires
        trim(a).len() > 0,
        trim(b).len() > 0,
        !mentions_and(a),
        !mentions_and(b),
        !quotes_odd(a),
        predicate_parse(a) is Ok,
        predicate_parse(b) is Ok,
    ensures
        predicate_parse(a + " AND "@ + b) == Ok::<Seq<PredSpec>, FilterErrorSpec>(
            predicate_parse(a)->Ok_0 + predicate_parse(b)->Ok_0,
        ),
        record_matches(predicate_parse(a + " AND "@ + b)->Ok_0, r) == (record_matches(predicate_parse(a)->Ok_0, r)
            && record_matches(predicate_parse(b)->Ok_0, r)),
{
    let (ia, ea) = lemma_trim_core(a);
    let (ib, eb) = lemma_trim_core(b);
    lemma_join_trim(a, b, ia, ea, ib, eb);
    lemma_join_pieces(a, b, ia, ea, ib, eb);
    lemma_side(a, ia, ea);
    lemma_side(b, ib, eb);
    let a1 = a.subrange(ia, a.len() as int);
    let b1 = b.subrange(0, eb);
    let t = a1 + " AND "@ + b1;
    assert(t.len() > 0);
    let pieces = seq![a1, b1];
    let qa = clause_parse(a.subrange(ia, ea))->Ok_0;
    let qb = clause_parse(b.subrange(ib, eb))->Ok_0;
    assert(clauses_parse(pieces, 2) == Ok::<Seq<PredSpec>, FilterErrorSpec>(Seq::empty()));
    assert(clauses_parse(pieces, 1) == Ok::<Seq<PredSpec>, FilterErrorSpec>(seq![qb] + Seq::empty()));
    assert(clauses_parse(pieces, 0) == Ok::<Seq<PredSpec>, FilterErrorSpec>(seq![qa] + (seq![qb] + Seq::empty())));
    let pa = predicate_parse(a)->Ok_0;
    let pb = predicate_parse(b)->Ok_0;
    assert(seq![qa] + (seq![qb] + Seq::<PredSpec>::empty()) =~= pa + pb);
    let pc = pa + pb;
    if record_matches(pa, r) && record_matches(pb, r) {
        assert forall|i: int| 0 <= i < pc.len() implies clause_holds(#[trigger] pc[i], r.fields@) by {
            if i < pa.len() {
                assert(pc[i] == pa[i]);
            } else {
                assert(pc[i] == pb[i - pa.len()]);
            }
        }
    }
    if record_matches(pc, r) {
        assert forall|i: int| 0 <= i < pa.len() implies clause_holds(#[trigger] pa[i], r.fields@) by {
            assert(pc[i] == pa[i]);
        }
        assert forall|i: int| 0 <= i < pb.len() implies clause_holds(#[trigger] pb[i], r.fields@) by {
            assert(pc[i + pa.len()] == pb[i]);
        }
    }
}

/// A clause comparing a number field with an integer literal holds exactly
/// when the field's value and the literal stand in the operator's order
/// relation: `=` equal, `!=` different, `>` / `<` strictly greater / less,
/// `>=` / `<=` greater / less or equal; `LIKE` never holds for numbers. So
/// `<=` holds exactly when `<` or `=` does, and `>=` exactly when `>` or `=`.
pub proof fn law_number_clauses_follow_integer_order(p: PredSpec, fields: Seq<(String, FieldValue)>, got: i64, want: i64)
    requires
        lookup(fields, p.field) == Some(FieldValue::Num(got)),
        p.lit == LitSpec::Int(want),
    ensures
        p.op == Op::Eq ==> (clause_holds(p, fields) <==> got == want),
        p.op == Op::Ne ==> (clause_holds(p, fields) <==> got != want),
        p.op == Op::Gt ==> (clause_holds(p, fields) <==> got > want),
        p.op == Op::Lt ==> (clause_holds(p, fields) <==> got < want),
        p.op == Op::Ge ==> (clause_holds(p, fields) <==> got >= want),
        p.op == Op::Le ==> (clause_holds(p, fields) <==> got <= want),
        p.op == Op::Like ==> !clause_holds(p, fields),
        cmp_int_spec(Op::Le, got, want) <==> (cmp_int_spec(Op::Lt, got, want) || cmp_int_spec(Op::Eq, got, want)),
        cmp_int_spec(Op::Ge, got, want) <==> (cmp_int_spec(Op::Gt, got, want) || cmp_int_spec(Op::Eq, got, want)),
        cmp_int_spec(Op::Ne, got, want) <==> !cmp_int_spec(Op::Eq, got, want),
        cmp_int_spec(Op::Gt, got, want) <==> cmp_int_spec(Op::Lt, want, got),
        cmp_int_spec(Op::Le, got, got) && cmp_int_spec(Op::Ge, got, got) && cmp_int_spec(Op::Eq, got, got),
{
}

} // verus!
