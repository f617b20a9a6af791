use crate::scanner::{
    byte_index, col_index, is_digit_char, lemma_byte_index_encode, lemma_mark_at,
    lemma_mark_determined, lemma_position_bounds, lemma_valid_mark_counters, line_index, mark_at,
    scalar_width, Mark, Scannable,
};
use vstd::prelude::*;

verus! {

// ---------------------------------------------------------------------------
// Operators, expressions and parse failures
// ---------------------------------------------------------------------------

/// The closed set of operator identities the expression grammar knows.
#[derive(Debug, PartialEq, Eq, Structural, Clone, Copy)]
pub enum Operator {
    Plus,
    Multiply,
}

/// A parsed expression: an integer literal, or a binary operation whose
/// operands are exclusively owned subtrees.
#[derive(Debug)]
pub enum Expression {
    Integer(i64),
    BinaryOperation(Box<Expression>, Operator, Box<Expression>),
}

impl PartialEq for Expression {
    fn eq(&self, other: &Self) -> (r: bool)
        ensures
            r == (self == other),
        decreases *self,
    {
        match (self, other) {
            (Expression::Integer(a), Expression::Integer(b)) => a == b,
            (
                Expression::BinaryOperation(l1, o1, r1),
                Expression::BinaryOperation(l2, o2, r2),
            ) => **l1 == **l2 && *o1 == *o2 && **r1 == **r2,
            _ => false,
        }
    }
}

impl vstd::std_specs::cmp::PartialEqSpecImpl for Expression {
    open spec fn obeys_eq_spec() -> bool {
        true
    }

    open spec fn eq_spec(&self, other: &Self) -> bool {
        self == other
    }
}

/// The ways a parse can fail, each carrying the mark of the position at
/// which the failure was detected.
#[derive(Debug, PartialEq, Eq, Structural, Clone, Copy)]
pub enum ParsingError {
    /// No expression stands at the cursor.
    Invalid(Mark),
    /// A digit run stands at the cursor but exceeds the range of the integer
    /// literal; the mark is the position at which the literal began.
    NumericConversionFailure(Mark),
}

// ---------------------------------------------------------------------------
// The parser state: a scanner plus an operator table
// ---------------------------------------------------------------------------

/// One registered infix operator: its identity and its two binding powers.
#[derive(Clone, Copy)]
struct Precedence {
    operator: Operator,
    lpb: u8,
    rpb: u8,
}

/// The operator table as the contracts see it: one entry per registered
/// token, as (token, operator identity, left binding power, right binding
/// power).
pub type OperatorTable = Seq<(Seq<char>, Operator, u8, u8)>;

/// A scanner over a borrowed source text together with the operator table
/// the expression parser consults. The cursor is kept as a scalar-value
/// index with denormalized byte-offset, row and column counters.
pub struct ParserState<'a> {
    code: &'a str,
    clen: usize,
    pos: usize,
    offset: usize,
    line: usize,
    col: usize,
    operations: Vec<(String, Precedence)>,
}

impl<'a> ParserState<'a> {
    /// The operator table of this parser.
    pub closed spec fn table(&self) -> OperatorTable {
        self.operations@.map_values(
            |e: (String, Precedence)| (e.0@, e.1.operator, e.1.lpb, e.1.rpb),
        )
    }
}

impl<'a> Scannable for ParserState<'a> {
    closed spec fn src(&self) -> Seq<char> {
        self.code@
    }

    closed spec fn cursor(&self) -> int {
        self.pos as int
    }

    closed spec fn persistent(&self) -> Self {
        ParserState {
            code: self.code,
            clen: self.clen,
            pos: 0,
            offset: 0,
            line: 0,
            col: 0,
            operations: self.operations,
        }
    }

    closed spec fn wf(&self) -> bool {
        &&& self.clen == self.code@.len()
        &&& self.pos <= self.clen
        &&& self.offset == byte_index(self.code@, self.pos as int)
        &&& self.line == line_index(self.code@, self.pos as int)
        &&& self.col == col_index(self.code@, self.pos as int)
        &&& byte_index(self.code@, self.code@.len() as int) <= usize::MAX
    }

    proof fn wf_bounds(&self) {
    }

    fn peek(&mut self) -> (r: Option<char>) {
        if self.pos < self.clen {
            Some(self.code.get_char(self.pos))
        } else {
            None
        }
    }

    fn next(&mut self) -> (r: Option<char>) {
        if self.pos < self.clen {
            let c = self.code.get_char(self.pos);
            proof {
                crate::scanner::lemma_byte_index_mono(
                    self.code@,
                    self.pos + 1,
                    self.code@.len() as int,
                );
                lemma_position_bounds(self.code@, self.pos + 1);
            }
            let w = char_width(c);
            self.offset = self.offset + w;
            self.pos = self.pos + 1;
            if c == '\n' {
                self.line = self.line + 1;
                self.col = 0;
            } else {
                self.col = self.col + 1;
            }
            Some(c)
        } else {
            None
        }
    }

    fn mark(&mut self) -> (m: Mark) {
        let m = Mark::assemble(self.pos, self.offset, self.line, self.col);
        proof {
            lemma_mark_determined(m, self.code@, self.pos as int);
        }
        m
    }

    fn restore(&mut self, mark: &Mark) {
        proof {
            lemma_valid_mark_counters(*mark, self.code@);
        }
        self.pos = mark.position_val();
        self.offset = mark.byte_offset_val();
        self.line = mark.line_val();
        self.col = mark.col_val();
    }

    fn substr(&mut self, start: &Mark) -> (r: String) {
        proof {
            lemma_valid_mark_counters(*start, self.code@);
        }
        let a = start.position_val();
        let s = self.code.substring_char(a, self.pos);
        s.to_owned()
    }
}

/// Width in bytes of the UTF-8 encoding of `c`, executable counterpart of
/// [`scalar_width`].
fn char_width(c: char) -> (w: usize)
    ensures
        w as int == scalar_width(c),
{
    let u = c as u32;
    if u < 0x80 {
        1
    } else if u < 0x800 {
        2
    } else if u < 0x10000 {
        3
    } else {
        4
    }
}

/// Whether two string slices hold the same characters.
#[verifier::loop_isolation(false)]
fn str_eq(a: &str, b: &str) -> (r: bool)
    ensures
        r == (a@ == b@),
{
    let n = a.unicode_len();
    if n != b.unicode_len() {
        return false;
    }
    let mut i: usize = 0;
    loop
        invariant
            0 <= i <= n,
            n == a@.len(),
            n == b@.len(),
            forall|j: int| 0 <= j < i ==> a@[j] == b@[j],
        decreases n - i,
    {
        if i == n {
            proof {
                assert(a@ =~= b@);
            }
            return true;
        }
        if a.get_char(i) != b.get_char(i) {
            return false;
        }
        i = i + 1;
    }
}

// ---------------------------------------------------------------------------
// Building the operator table
// ---------------------------------------------------------------------------

/// Index of the first entry of `t` at or after `k` whose token is `tok`, or
/// `-1` if there is none.
pub open spec fn find_token_from(t: OperatorTable, tok: Seq<char>, k: int) -> int
    decreases t.len() - k,
{
    if k < 0 || k >= t.len() {
        -1
    } else if t[k].0 == tok {
        k
    } else {
        find_token_from(t, tok, k + 1)
    }
}

/// The table after registering a left-associative operator `op` for `tok`
/// with base binding power `bp`: the entry for `tok` is replaced if one
/// exists, and appended otherwise.
pub open spec fn table_insert(t: OperatorTable, tok: Seq<char>, op: Operator, bp: u8) -> OperatorTable
    recommends
        bp < 255,
{
    let k = find_token_from(t, tok, 0);
    let e = (tok, op, bp, (bp + 1) as u8);
    if k == -1 {
        t.push(e)
    } else {
        t.update(k, e)
    }
}

impl<'a> ParserState<'a> {
    /// Index of the entry for `token` in the operator table, if any.
    #[verifier::loop_isolation(false)]
    fn find_op(&self, token: &str) -> (r: Option<usize>)
        ensures
            r is None <==> find_token_from(self.table(), token@, 0) == -1,
            r matches Some(k) ==> k as int == find_token_from(self.table(), token@, 0) && (k as int)
                < self.operations@.len(),
    {
        let n = self.operations.len();
        let mut k: usize = 0;
        loop
            invariant
                0 <= k <= n,
                n == self.operations@.len(),
                find_token_from(self.table(), token@, 0) == find_token_from(
                    self.table(),
                    token@,
                    k as int,
                ),
            decreases n - k,
        {
            if k == n {
                return None;
            }
            let e = &self.operations[k];
            if str_eq(e.0.as_str(), token) {
                proof {
                    assert(self.table()[k as int].0 == token@);
                }
                return Some(k);
            }
            proof {
                assert(self.table()[k as int].0 != token@);
            }
            k = k + 1;
        }
    }

    /// Registers the left-associative infix operator `op` for `token` with
    /// base binding power `bp`: it binds at `bp` on its left and `bp + 1` on
    /// its right, so that runs of it fold to the left. An entry already
    /// registered for `token` is replaced.
    pub fn infixl(&mut self, token: &str, operator: Operator, bp: u8)
        requires
            old(self).wf(),
            bp < 255,
        ensures
            final(self).wf(),
            final(self).src() == old(self).src(),
            final(self).cursor() == old(self).cursor(),
            final(self).table() == table_insert(old(self).table(), token@, operator, bp),
    {
        let entry = Precedence { operator, lpb: bp, rpb: bp + 1 };
        let owned_token = token.to_owned();
        match self.find_op(token) {
            Some(k) => {
                let ghost newe = (owned_token, entry);
                self.operations.remove(k);
                self.operations.insert(k, (owned_token, entry));
                proof {
                    old(self).operations@.remove_ensures(k as int);
                    old(self).operations@.remove(k as int).insert_ensures(k as int, newe);
                    assert(self.operations@ =~= old(self).operations@.update(k as int, newe));
                }
            },
            None => {
                self.operations.push((owned_token, entry));
            },
        }
        proof {
            let tnew = self.table();
            let tgoal = table_insert(old(self).table(), token@, operator, bp);
            assert(tnew.len() == tgoal.len());
            assert forall|j: int| 0 <= j < tnew.len() implies tnew[j] =~~= tgoal[j] by {
                assert(tnew[j] == (
                    self.operations@[j].0@,
                    self.operations@[j].1.operator,
                    self.operations@[j].1.lpb,
                    self.operations@[j].1.rpb,
                ));
            }
            assert(tnew =~~= tgoal);
        }
    }

    /// A parser over `code` with the default operator table: `+` at base
    /// binding power 1 and `*` at base binding power 3, both
    /// left-associative.
    pub fn new(code: &'a str) -> (r: ParserState<'a>)
        ensures
            r.wf(),
            r.src() == code@,
            r.cursor() == 0,
            r.table() == default_table(),
    {
        let bytes = code.as_bytes();
        let clen = code.unicode_len();
        proof {
            vstd::slice::axiom_spec_len::<u8>(bytes);
            lemma_byte_index_encode(code@, code@.len() as int);
            assert(code@.take(code@.len() as int) =~= code@);
        }
        let mut a = ParserState {
            code,
            clen,
            pos: 0,
            offset: 0,
            line: 0,
            col: 0,
            operations: Vec::new(),
        };
        proof {
            assert(a.wf());
            assert(a.table() =~= Seq::<(Seq<char>, Operator, u8, u8)>::empty());
        }
        a.infixl("+", Operator::Plus, 1);
        proof {
            assert(a.table() =~~= seq![("+"@, Operator::Plus, 1u8, 2u8)]);
        }
        proof {
            reveal_strlit("+");
            reveal_strlit("*");
            assert("+"@[0] == '+' && "*"@[0] == '*');
            assert("+"@ != "*"@);
        }
        a.infixl("*", Operator::Multiply, 3);
        proof {
            let plus = ("+"@, Operator::Plus, 1u8, 2u8);
            let star = ("*"@, Operator::Multiply, 3u8, 4u8);
            assert(find_token_from(seq![plus], "*"@, 1) == -1);
            assert(find_token_from(seq![plus], "*"@, 0) == -1);
            assert(a.table() =~~= table_insert(seq![plus], "*"@, Operator::Multiply, 3));
            assert(table_insert(seq![plus], "*"@, Operator::Multiply, 3) =~~= seq![plus, star]);
            assert(a.table() =~~= default_table());
        }
        a
    }
}

// ---------------------------------------------------------------------------
// The expression grammar
// ---------------------------------------------------------------------------

/// Index of the first table entry at or after `k` whose token stands at
/// position `p` of `s`, or `-1` if none does.
pub open spec fn first_match_from(t: OperatorTable, s: Seq<char>, p: int, k: int) -> int
    decreases t.len() - k,
{
    if k < 0 || k >= t.len() {
        -1
    } else if crate::scanner::token_matches(s, p, t[k].0) {
        k
    } else {
        first_match_from(t, s, p, k + 1)
    }
}

/// Recognizes at the cursor the first registered operator token that stands
/// there, consumes exactly it, and returns its identity and binding powers;
/// when no registered token stands at the cursor, fails with `Invalid` there
/// and consumes nothing.
#[verifier::loop_isolation(false)]
fn infix(code: &mut ParserState) -> (r: Result<(Operator, u8, u8), ParsingError>)
    requires
        old(code).wf(),
    ensures
        final(code).wf(),
        final(code).src() == old(code).src(),
        final(code).persistent() == old(code).persistent(),
        final(code).table() == old(code).table(),
        ({
            let t = old(code).table();
            let s = old(code).src();
            let p = old(code).cursor();
            let k = first_match_from(t, s, p, 0);
            if k == -1 {
                (r matches Err(e) && e == ParsingError::Invalid(mark_at(s, p))) && final(code).cursor() == p
            } else {
                (r matches Ok(v) && v == (t[k].1, t[k].2, t[k].3)) && final(code).cursor() == p
                    + t[k].0.len()
            }
        }),
{
    let ghost s = old(code).src();
    let ghost p0 = old(code).cursor();
    let ghost per0 = old(code).persistent();
    let ghost t = old(code).table();
    proof {
        code.wf_bounds();
    }
    let n = code.operations.len();
    let mut k: usize = 0;
    loop
        invariant
            code.wf(),
            code.src() == s,
            code.cursor() == p0,
            code.persistent() == per0,
            code.table() == t,
            0 <= k <= n,
            n == code.operations@.len(),
            n == t.len(),
            first_match_from(t, s, p0, 0) == first_match_from(t, s, p0, k as int),
        decreases n - k,
    {
        if k == n {
            let m = code.mark();
            return Err(ParsingError::Invalid(m));
        }
        let tok_string = code.operations[k].0.clone();
        let entry = code.operations[k].1;
        proof {
            assert(tok_string@ == t[k as int].0);
            assert(entry == code.operations@[k as int].1);
        }
        match crate::scanner::token(code, tok_string.as_str()) {
            Ok(_) => {
                proof {
                    assert(code.persistent().operations == per0.operations);
                    assert(code.table() == t);
                    assert(first_match_from(t, s, p0, k as int) == k as int);
                }
                return Ok((entry.operator, entry.lpb, entry.rpb));
            },
            Err(_) => {
                proof {
                    assert(code.persistent().operations == per0.operations);
                    assert(code.table() == t);
                    assert(first_match_from(t, s, p0, k as int) == first_match_from(
                        t,
                        s,
                        p0,
                        k as int + 1,
                    ));
                }
                k = k + 1;
            },
        }
    }
}

/// Numeric value of a run of ASCII digits read in base 10, most significant
/// digit first.
pub open spec fn digits_value(s: Seq<char>) -> int
    decreases s.len(),
{
    if s.len() == 0 {
        0
    } else {
        digits_value(s.drop_last()) * 10 + (s.last() as u32 - 48)
    }
}

/// The value of a digit run is non-negative and grows as digits are
/// appended.
pub proof fn lemma_digits_value_bounds(s: Seq<char>)
    requires
        forall|i: int| 0 <= i < s.len() ==> is_digit_char(#[trigger] s[i]),
    ensures
        0 <= digits_value(s),
        s.len() > 0 ==> digits_value(s.drop_last()) <= digits_value(s),
    decreases s.len(),
{
    if s.len() > 0 {
        assert(is_digit_char(s[s.len() - 1]));
        assert forall|i: int| 0 <= i < s.drop_last().len() implies is_digit_char(
            #[trigger] s.drop_last()[i],
        ) by {
            assert(s.drop_last()[i] == s[i]);
        }
        lemma_digits_value_bounds(s.drop_last());
    }
}

/// The value of a prefix of a digit run never exceeds the value of the whole
/// run.
pub proof fn lemma_digits_value_prefix(s: Seq<char>, i: int)
    requires
        0 <= i <= s.len(),
        forall|j: int| 0 <= j < s.len() ==> is_digit_char(#[trigger] s[j]),
    ensures
        digits_value(s.take(i)) <= digits_value(s),
    decreases s.len() - i,
{
    if i == s.len() {
        assert(s.take(i) =~= s);
    } else {
        lemma_digits_value_prefix(s, i + 1);
        assert(s.take(i + 1).drop_last() =~= s.take(i));
        assert forall|j: int| 0 <= j < s.take(i + 1).len() implies is_digit_char(
            #[trigger] s.take(i + 1)[j],
        ) by {
            assert(s.take(i + 1)[j] == s[j]);
        }
        lemma_digits_value_bounds(s.take(i + 1));
    }
}

/// Parses an integer literal at the cursor: the maximal run of ASCII digits,
/// converted in base 10. With no digit at the cursor it fails with `Invalid`
/// there and consumes nothing; with a run whose value exceeds the range of
/// `i64` it consumes the run and fails with `NumericConversionFailure`
/// carrying the mark at which the literal began.
#[verifier::loop_isolation(false)]
pub fn integer(code: &mut ParserState) -> (r: Result<Expression, ParsingError>)
    requires
        old(code).wf(),
    ensures
        final(code).wf(),
        final(code).src() == old(code).src(),
        final(code).persistent() == old(code).persistent(),
        final(code).table() == old(code).table(),
        ({
            let s = old(code).src();
            let p = old(code).cursor();
            let n = crate::scanner::digit_run(s, p);
            if n == 0 {
                r == Err::<Expression, ParsingError>(ParsingError::Invalid(mark_at(s, p)))
                    && final(code).cursor() == p
            } else if digits_value(s.subrange(p, p + n)) > i64::MAX {
                r == Err::<Expression, ParsingError>(
                    ParsingError::NumericConversionFailure(mark_at(s, p)),
                ) && final(code).cursor() == p + n
            } else {
                r == Ok::<Expression, ParsingError>(
                    Expression::Integer(digits_value(s.subrange(p, p + n)) as i64),
                ) && final(code).cursor() == p + n
            }
        }),
{
    let ghost s = old(code).src();
    let ghost p0 = old(code).cursor();
    let ghost per0 = old(code).persistent();
    let ghost n = crate::scanner::digit_run(s, p0);
    proof {
        code.wf_bounds();
        crate::scanner::lemma_digit_run_chars(s, p0);
    }
    let m = code.mark();
    let ds = match crate::scanner::digits(code) {
        Err(e) => {
            proof {
                assert(code.persistent().operations == per0.operations);
            }
            return Err(ParsingError::Invalid(crate::scanner::ErrorWithMark::mark(e)));
        },
        Ok(d) => d,
    };
    proof {
        assert(code.persistent().operations == per0.operations);
        assert(ds@ == s.subrange(p0, p0 + n));
        assert forall|j: int| 0 <= j < ds@.len() implies is_digit_char(#[trigger] ds@[j]) by {
            assert(ds@[j] == s[p0 + j]);
        }
    }
    let dn = ds.as_str().unicode_len();
    let mut acc: i64 = 0;
    let mut i: usize = 0;
    proof {
        assert(ds@.take(0) =~= Seq::<char>::empty());
    }
    loop
        invariant
            0 <= i <= dn,
            dn == ds@.len(),
            forall|j: int| 0 <= j < ds@.len() ==> is_digit_char(#[trigger] ds@[j]),
            acc == digits_value(ds@.take(i as int)),
            0 <= acc <= i64::MAX,
        decreases dn - i,
    {
        if i == dn {
            proof {
                assert(ds@.take(dn as int) =~= ds@);
            }
            return Ok(Expression::Integer(acc));
        }
        let c = ds.as_str().get_char(i);
        let d = (c as u32) - 48;
        proof {
            assert(is_digit_char(ds@[i as int]));
            assert(ds@.take(i as int + 1).drop_last() =~= ds@.take(i as int));
            assert(ds@.take(i as int + 1).last() == ds@[i as int]);
            lemma_digits_value_prefix(ds@, i as int + 1);
        }
        let acc10 = match acc.checked_mul(10) {
            Some(v) => v,
            None => {
                return Err(ParsingError::NumericConversionFailure(m));
            },
        };
        acc = match acc10.checked_add(d as i64) {
            Some(v) => v,
            None => {
                return Err(ParsingError::NumericConversionFailure(m));
            },
        };
        i = i + 1;
    }
}

/// A found match lies within the table and its token stands at `p`.
pub proof fn lemma_first_match_found(t: OperatorTable, s: Seq<char>, p: int, j: int)
    ensures
        ({
            let k = first_match_from(t, s, p, j);
            k != -1 ==> j <= k < t.len() && crate::scanner::token_matches(s, p, t[k].0)
        }),
    decreases t.len() - j,
{
    if 0 <= j < t.len() && !crate::scanner::token_matches(s, p, t[j].0) {
        lemma_first_match_found(t, s, p, j + 1);
    }
}

/// What parsing an expression at position `p` of `s` under binding-power
/// threshold `min_bp` yields, together with the position the cursor is left
/// at: whitespace, then an integer literal as the prefix term, then the
/// climbing loop of [`spec_pratt_loop`].
pub open spec fn spec_expression(t: OperatorTable, s: Seq<char>, p: int, min_bp: int) -> (
    Result<Expression, ParsingError>,
    int,
)
    decreases 2 * (s.len() - p) + 1,
    via spec_expression_decreases
{
    let p1 = crate::scanner::ws_end(s, p);
    let n = crate::scanner::digit_run(s, p1);
    if n == 0 {
        (Err(ParsingError::Invalid(mark_at(s, p1))), p1)
    } else if digits_value(s.subrange(p1, p1 + n)) > i64::MAX {
        (Err(ParsingError::NumericConversionFailure(mark_at(s, p1))), p1 + n)
    } else {
        spec_pratt_loop(
            t,
            s,
            p1 + n,
            min_bp,
            Expression::Integer(digits_value(s.subrange(p1, p1 + n)) as i64),
        )
    }
}

/// The climbing loop: skip whitespace, probe the operator table; stop on no
/// match or when the operator binds weaker than `min_bp` (leaving the cursor
/// before the operator token), otherwise parse the right-hand side under the
/// operator's right binding power and fold it into `lhs`.
///
/// The two guards on intermediate positions only keep the recursion
/// well-founded: positions actually reached always lie between the start and
/// the end of the source (see [`lemma_spec_expression_in_range`]), so they
/// never alter the result.
pub open spec fn spec_pratt_loop(
    t: OperatorTable,
    s: Seq<char>,
    p: int,
    min_bp: int,
    lhs: Expression,
) -> (Result<Expression, ParsingError>, int)
    decreases 2 * (s.len() - p),
    via spec_pratt_loop_decreases
{
    let p1 = crate::scanner::ws_end(s, p);
    let k = first_match_from(t, s, p1, 0);
    if k == -1 {
        (Ok(lhs), p1)
    } else if (t[k].2 as int) < min_bp {
        (Ok(lhs), p1)
    } else {
        let p2 = p1 + t[k].0.len();
        let rr = spec_expression(t, s, p2, t[k].3 as int);
        if rr.0 is Err {
            rr
        } else {
            let pe = if rr.1 <= p2 {
                p2
            } else if rr.1 <= s.len() {
                rr.1
            } else {
                s.len() as int
            };
            spec_pratt_loop(
                t,
                s,
                pe,
                min_bp,
                Expression::BinaryOperation(Box::new(lhs), t[k].1, Box::new(rr.0->Ok_0)),
            )
        }
    }
}

#[via_fn]
proof fn spec_expression_decreases(t: OperatorTable, s: Seq<char>, p: int, min_bp: int) {
    let p1 = crate::scanner::ws_end(s, p);
    let n = crate::scanner::digit_run(s, p1);
    if n != 0 {
        assert(0 <= p1 < s.len() && is_digit_char(s[p1]));
        if p < 0 {
            assert(crate::scanner::ws_end(s, p) == p);
            assert(false);
        }
        crate::scanner::lemma_ws_end(s, p);
        crate::scanner::lemma_digit_run_chars(s, p1);
        assert(n > 0);
        assert(p1 + n <= s.len());
        assert(p < p1 + n);
        let run = s.subrange(p1, p1 + n);
        assert forall|j: int| 0 <= j < run.len() implies is_digit_char(#[trigger] run[j]) by {
            assert(run[j] == s[p1 + j]);
        }
        lemma_digits_value_bounds(run);
    }
}

#[via_fn]
proof fn spec_pratt_loop_decreases(
    t: OperatorTable,
    s: Seq<char>,
    p: int,
    min_bp: int,
    lhs: Expression,
) {
    let p1 = crate::scanner::ws_end(s, p);
    let k = first_match_from(t, s, p1, 0);
    if k != -1 && (t[k].2 as int) >= min_bp {
        lemma_first_match_found(t, s, p1, 0);
        crate::scanner::lemma_token_matches_bounds(s, p1, t[k].0);
        assert(0 <= p1);
        assert(0 <= p);
        crate::scanner::lemma_ws_end(s, p);
    }
}

/// Positions reached by the spec-level parse stay between the position it
/// started from and the end of the source.
pub proof fn lemma_spec_expression_in_range(t: OperatorTable, s: Seq<char>, p: int, min_bp: int)
    requires
        0 <= p <= s.len(),
    ensures
        p <= spec_expression(t, s, p, min_bp).1 <= s.len(),
    decreases 2 * (s.len() - p) + 1,
{
    let p1 = crate::scanner::ws_end(s, p);
    crate::scanner::lemma_ws_end(s, p);
    crate::scanner::lemma_digit_run_chars(s, p1);
    let n = crate::scanner::digit_run(s, p1);
    if n > 0 {
        if !(digits_value(s.subrange(p1, p1 + n)) > i64::MAX) {
            lemma_spec_pratt_loop_in_range(
                t,
                s,
                p1 + n,
                min_bp,
                Expression::Integer(digits_value(s.subrange(p1, p1 + n)) as i64),
            );
        }
    }
}

/// Companion of [`lemma_spec_expression_in_range`] for the climbing loop.
pub proof fn lemma_spec_pratt_loop_in_range(
    t: OperatorTable,
    s: Seq<char>,
    p: int,
    min_bp: int,
    lhs: Expression,
)
    requires
        0 <= p <= s.len(),
    ensures
        p <= spec_pratt_loop(t, s, p, min_bp, lhs).1 <= s.len(),
    decreases 2 * (s.len() - p),
{
    let p1 = crate::scanner::ws_end(s, p);
    crate::scanner::lemma_ws_end(s, p);
    let k = first_match_from(t, s, p1, 0);
    if k != -1 && (t[k].2 as int) >= min_bp {
        lemma_first_match_found(t, s, p1, 0);
        crate::scanner::lemma_token_matches_bounds(s, p1, t[k].0);
        let p2 = p1 + t[k].0.len();
        let rr = spec_expression(t, s, p2, t[k].3 as int);
        lemma_spec_expression_in_range(t, s, p2, t[k].3 as int);
        if !(rr.0 is Err) {
            lemma_spec_pratt_loop_in_range(
                t,
                s,
                rr.1,
                min_bp,
                Expression::BinaryOperation(Box::new(lhs), t[k].1, Box::new(rr.0->Ok_0)),
            );
        }
    }
}

/// Parses one expression starting at the cursor by binding-power climbing:
/// an integer literal as the prefix term, then infix operators from the
/// table for as long as their left binding power reaches `min_bp`, each
/// right-hand side parsed under the operator's right binding power. Stops
/// cleanly, without failing, at the first position where no applicable
/// operator stands; the cursor is left there, so trailing input is not
/// consumed. Returns exactly what [`spec_expression`] describes and leaves
/// the cursor at the position it names.
#[verifier::loop_isolation(false)]
pub fn expression_bp(code: &mut ParserState, min_bp: u64) -> (r: Result<Expression, ParsingError>)
    requires
        old(code).wf(),
    ensures
        final(code).wf(),
        final(code).src() == old(code).src(),
        final(code).persistent() == old(code).persistent(),
        final(code).table() == old(code).table(),
        r == spec_expression(
            old(code).table(),
            old(code).src(),
            old(code).cursor(),
            min_bp as int,
        ).0,
        final(code).cursor() == spec_expression(
            old(code).table(),
            old(code).src(),
            old(code).cursor(),
            min_bp as int,
        ).1,
    decreases old(code).src().len() - old(code).cursor(),
{
    let ghost t = old(code).table();
    let ghost s = old(code).src();
    let ghost p0 = old(code).cursor();
    let ghost per0 = old(code).persistent();
    proof {
        code.wf_bounds();
        crate::scanner::lemma_ws_end(s, p0);
    }
    crate::scanner::skip_ws(code);
    proof {
        assert(code.persistent().operations == per0.operations);
        assert(code.table() == t);
    }
    let ghost p1 = code.cursor();
    proof {
        crate::scanner::lemma_digit_run_chars(s, p1);
    }
    let mut lhs = match integer(code) {
        Err(e) => {
            proof {
                assert(code.persistent().operations == per0.operations);
                assert(code.table() == t);
            }
            return Err(e);
        },
        Ok(v) => v,
    };
    proof {
        assert(code.persistent().operations == per0.operations);
        assert(code.table() == t);
        assert(spec_expression(t, s, p0, min_bp as int) == spec_pratt_loop(
            t,
            s,
            code.cursor(),
            min_bp as int,
            lhs,
        ));
    }
    loop
        invariant
            code.wf(),
            code.src() == s,
            code.persistent() == per0,
            code.table() == t,
            p0 <= code.cursor() <= s.len(),
            spec_expression(t, s, p0, min_bp as int) == spec_pratt_loop(
                t,
                s,
                code.cursor(),
                min_bp as int,
                lhs,
            ),
        decreases s.len() - code.cursor(),
    {
        let ghost q = code.cursor();
        proof {
            crate::scanner::lemma_ws_end(s, q);
        }
        crate::scanner::skip_ws(code);
        proof {
            assert(code.persistent().operations == per0.operations);
            assert(code.table() == t);
        }
        let ghost q1 = code.cursor();
        let m = code.mark();
        match infix(code) {
            Err(_) => {
                proof {
                    assert(code.persistent().operations == per0.operations);
                    assert(code.table() == t);
                    assert(spec_pratt_loop(t, s, q, min_bp as int, lhs) == (
                        Ok::<Expression, ParsingError>(lhs),
                        q1,
                    ));
                }
                crate::scanner::skip_ws(code);
                proof {
                    assert(code.persistent().operations == per0.operations);
                    assert(code.table() == t);
                }
                return Ok(lhs);
            },
            Ok((op, lbp, rbp)) => {
                let ghost k = first_match_from(t, s, q1, 0);
                proof {
                    assert(code.persistent().operations == per0.operations);
                    assert(code.table() == t);
                    lemma_first_match_found(t, s, q1, 0);
                    crate::scanner::lemma_token_matches_bounds(s, q1, t[k].0);
                }
                if (lbp as u64) < min_bp {
                    code.restore(&m);
                    proof {
                        assert(code.persistent().operations == per0.operations);
                        assert(code.table() == t);
                        lemma_mark_at(s, q1);
                        assert(code.cursor() == q1);
                        assert(spec_pratt_loop(t, s, q, min_bp as int, lhs) == (
                            Ok::<Expression, ParsingError>(lhs),
                            q1,
                        ));
                    }
                    crate::scanner::skip_ws(code);
                    proof {
                        assert(code.persistent().operations == per0.operations);
                        assert(code.table() == t);
                    }
                    return Ok(lhs);
                }
                let ghost p2 = code.cursor();
                proof {
                    assert(p2 == q1 + t[k].0.len());
                }
                let rhs = match expression_bp(code, rbp as u64) {
                    Err(e) => {
                        proof {
                            assert(code.persistent().operations == per0.operations);
                            assert(code.table() == t);
                        }
                        return Err(e);
                    },
                    Ok(v) => v,
                };
                proof {
                    assert(code.persistent().operations == per0.operations);
                    assert(code.table() == t);
                    lemma_spec_expression_in_range(t, s, p2, rbp as int);
                }
                lhs = Expression::BinaryOperation(Box::new(lhs), op, Box::new(rhs));
            },
        }
    }
}

/// The operator table [`ParserState::new`] starts from.
pub open spec fn default_table() -> OperatorTable {
    seq![("+"@, Operator::Plus, 1u8, 2u8), ("*"@, Operator::Multiply, 3u8, 4u8)]
}

} // verus!
