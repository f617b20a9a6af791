use vstd::prelude::*;
use vstd::utf8::{char_is_scalar, encode_scalar, encode_utf8};

verus! {

// ---------------------------------------------------------------------------
// Character classes
// ---------------------------------------------------------------------------

/// An ASCII decimal digit, `'0'` through `'9'`.
pub open spec fn is_digit_char(c: char) -> bool {
    48 <= c as u32 <= 57
}

/// A character with the Unicode `White_Space` property.
pub open spec fn is_space_char(c: char) -> bool {
    let u = c as u32;
    ||| 9 <= u <= 13
    ||| u == 32
    ||| u == 0x85
    ||| u == 0xA0
    ||| u == 0x1680
    ||| 0x2000 <= u <= 0x200A
    ||| u == 0x2028
    ||| u == 0x2029
    ||| u == 0x202F
    ||| u == 0x205F
    ||| u == 0x3000
}

/// Executable test for [`is_digit_char`].
pub fn digit_char_test(c: char) -> (r: bool)
    ensures
        r == is_digit_char(c),
{
    let u = c as u32;
    48 <= u && u <= 57
}

/// Executable test for [`is_space_char`].
pub fn space_char_test(c: char) -> (r: bool)
    ensures
        r == is_space_char(c),
{
    let u = c as u32;
    (9 <= u && u <= 13) || u == 32 || u == 0x85 || u == 0xA0 || u == 0x1680 || (0x2000 <= u && u
        <= 0x200A) || u == 0x2028 || u == 0x2029 || u == 0x202F || u == 0x205F || u == 0x3000
}

// ---------------------------------------------------------------------------
// The position model: scalar index, byte offset, row and column
// ---------------------------------------------------------------------------

/// Width in bytes of the UTF-8 encoding of a character.
pub open spec fn scalar_width(c: char) -> int {
    let u = c as u32;
    if u < 0x80 {
        1
    } else if u < 0x800 {
        2
    } else if u < 0x10000 {
        3
    } else {
        4
    }
}

/// Byte offset of the `p`-th character of `s`: the total UTF-8 width of the
/// characters before it.
pub open spec fn byte_index(s: Seq<char>, p: int) -> int
    decreases p,
{
    if p <= 0 {
        0
    } else {
        byte_index(s, p - 1) + scalar_width(s[p - 1])
    }
}

/// Number of line breaks among the first `p` characters of `s`.
pub open spec fn line_index(s: Seq<char>, p: int) -> int
    decreases p,
{
    if p <= 0 {
        0
    } else {
        line_index(s, p - 1) + if s[p - 1] == '\n' {
            1int
        } else {
            0int
        }
    }
}

/// Number of characters between position `p` and the line break before it.
pub open spec fn col_index(s: Seq<char>, p: int) -> int
    decreases p,
{
    if p <= 0 {
        0
    } else if s[p - 1] == '\n' {
        0
    } else {
        col_index(s, p - 1) + 1
    }
}

/// [`scalar_width`] agrees with the UTF-8 encoding in `vstd`.
pub proof fn lemma_scalar_width(c: char)
    ensures
        scalar_width(c) == encode_scalar(c as u32).len(),
        1 <= scalar_width(c) <= 4,
{
    char_is_scalar(c);
}

/// `encode_utf8` distributes over appending one character.
pub proof fn lemma_encode_utf8_push(s: Seq<char>, c: char)
    ensures
        encode_utf8(s.push(c)) =~= encode_utf8(s) + encode_scalar(c as u32),
    decreases s.len(),
{
    let sc = s.push(c);
    assert(sc.len() == s.len() + 1);
    if s.len() == 0 {
        assert(sc.drop_first() =~= Seq::<char>::empty());
        assert(sc[0] == c);
        assert(encode_utf8(sc) == encode_scalar(c as u32) + encode_utf8(sc.drop_first()));
    } else {
        assert(sc[0] == s[0]);
        assert(sc.drop_first() =~= s.drop_first().push(c));
        lemma_encode_utf8_push(s.drop_first(), c);
        assert(encode_utf8(sc) == encode_scalar(sc[0] as u32) + encode_utf8(sc.drop_first()));
        assert(encode_utf8(s) == encode_scalar(s[0] as u32) + encode_utf8(s.drop_first()));
    }
}

/// [`byte_index`] is the length of the UTF-8 encoding of the first `p` characters.
pub proof fn lemma_byte_index_encode(s: Seq<char>, p: int)
    requires
        0 <= p <= s.len(),
    ensures
        byte_index(s, p) == encode_utf8(s.take(p)).len(),
    decreases p,
{
    if p == 0 {
        assert(s.take(0) =~= Seq::<char>::empty());
    } else {
        lemma_byte_index_encode(s, p - 1);
        assert(s.take(p) =~= s.take(p - 1).push(s[p - 1]));
        lemma_encode_utf8_push(s.take(p - 1), s[p - 1]);
        lemma_scalar_width(s[p - 1]);
    }
}

/// Every prefix of `s` takes at least one byte per character and at most as
/// many bytes as the whole of `s`; rows and columns are bounded by the
/// character count.
pub proof fn lemma_position_bounds(s: Seq<char>, p: int)
    requires
        0 <= p,
    ensures
        p <= byte_index(s, p),
        p <= s.len() ==> byte_index(s, p) <= byte_index(s, s.len() as int),
        0 <= line_index(s, p) <= p,
        0 <= col_index(s, p) <= p,
    decreases p + s.len(),
{
    if p > 0 {
        lemma_position_bounds(s, p - 1);
        lemma_scalar_width(s[p - 1]);
    }
    if p < s.len() {
        lemma_byte_index_mono(s, p, s.len() as int);
    }
}

/// [`byte_index`] is monotone in the position.
pub proof fn lemma_byte_index_mono(s: Seq<char>, p: int, q: int)
    requires
        0 <= p <= q,
    ensures
        byte_index(s, p) <= byte_index(s, q),
    decreases q - p,
{
    if p < q {
        lemma_byte_index_mono(s, p, q - 1);
        lemma_scalar_width(s[q - 1]);
    }
}

// ---------------------------------------------------------------------------
// Marks
// ---------------------------------------------------------------------------

/// An immutable snapshot of a scanner position: where in the source the
/// cursor stands, in scalar values and in bytes, and on which row and column.
/// Failures carry the mark of the position at which they were detected, and
/// a scanner can be rewound to a mark it handed out earlier.
#[derive(Debug, PartialEq, Eq, Structural, Clone, Copy)]
pub struct Mark {
    pos: usize,
    offset: usize,
    line: usize,
    col: usize,
}

impl Mark {
    /// The position in the source, counted in Unicode scalar values.
    pub closed spec fn position(&self) -> int {
        self.pos as int
    }

    /// The position in the source, counted in bytes.
    pub closed spec fn byte_offset(&self) -> int {
        self.offset as int
    }

    /// The row of the position, starting at 1.
    pub closed spec fn row(&self) -> int {
        self.line + 1
    }

    /// The column of the position, starting at 1.
    pub closed spec fn column(&self) -> int {
        self.col + 1
    }

    /// Whether this mark describes a position of the source `s`, with the
    /// byte offset, row and column that belong to that position.
    pub closed spec fn valid_for(&self, s: Seq<char>) -> bool {
        &&& self.pos <= s.len()
        &&& self.offset == byte_index(s, self.pos as int)
        &&& self.line == line_index(s, self.pos as int)
        &&& self.col == col_index(s, self.pos as int)
    }
}

impl Mark {
    /// Assembles a mark from its four counters; scanner implementations use
    /// it together with [`lemma_mark_determined`].
    pub(crate) fn assemble(pos: usize, offset: usize, line: usize, col: usize) -> (m: Mark)
        ensures
            m.position() == pos as int,
            m.byte_offset() == offset as int,
            m.row() == line as int + 1,
            m.column() == col as int + 1,
    {
        Mark { pos, offset, line, col }
    }

    /// The position counter, for scanner implementations.
    pub(crate) fn position_val(&self) -> (p: usize)
        ensures
            p as int == self.position(),
    {
        self.pos
    }

    /// The byte offset counter, for scanner implementations.
    pub(crate) fn byte_offset_val(&self) -> (o: usize)
        ensures
            o as int == self.byte_offset(),
    {
        self.offset
    }

    /// The line counter, for scanner implementations.
    pub(crate) fn line_val(&self) -> (l: usize)
        ensures
            l as int == self.row() - 1,
    {
        self.line
    }

    /// The column counter, for scanner implementations.
    pub(crate) fn col_val(&self) -> (c: usize)
        ensures
            c as int == self.column() - 1,
    {
        self.col
    }
}

/// A mark whose counters carry the values that belong to position `p` of `s`
/// is exactly [`mark_at`]`(s, p)`.
pub proof fn lemma_mark_determined(m: Mark, s: Seq<char>, p: int)
    requires
        0 <= p <= s.len(),
        m.position() == p,
        m.byte_offset() == byte_index(s, p),
        m.row() == line_index(s, p) + 1,
        m.column() == col_index(s, p) + 1,
    ensures
        m == mark_at(s, p),
        m.valid_for(s),
{
}

/// The counters of a mark valid for `s`, read off its position.
pub proof fn lemma_valid_mark_counters(m: Mark, s: Seq<char>)
    requires
        m.valid_for(s),
    ensures
        0 <= m.position() <= s.len(),
        m.byte_offset() == byte_index(s, m.position()),
        m.row() == line_index(s, m.position()) + 1,
        m.column() == col_index(s, m.position()) + 1,
{
}

/// The mark that describes position `p` of the source `s`.
pub closed spec fn mark_at(s: Seq<char>, p: int) -> Mark {
    Mark {
        pos: p as usize,
        offset: byte_index(s, p) as usize,
        line: line_index(s, p) as usize,
        col: col_index(s, p) as usize,
    }
}

/// What [`mark_at`] holds, whenever the byte offsets of `s` fit in `usize`.
pub proof fn lemma_mark_at(s: Seq<char>, p: int)
    requires
        0 <= p <= s.len(),
        byte_index(s, s.len() as int) <= usize::MAX,
    ensures
        mark_at(s, p).position() == p,
        mark_at(s, p).byte_offset() == byte_index(s, p),
        mark_at(s, p).row() == line_index(s, p) + 1,
        mark_at(s, p).column() == col_index(s, p) + 1,
        mark_at(s, p).valid_for(s),
{
    lemma_position_bounds(s, p);
}

// ---------------------------------------------------------------------------
// Scanning failures
// ---------------------------------------------------------------------------

/// The ways a scanning step can fail, each carrying the mark of the position
/// at which the mismatch was detected.
#[derive(Debug, PartialEq, Eq, Structural, Clone, Copy)]
pub enum ScanningErrors {
    /// A literal token was not found at the cursor.
    TokenNotFound(Mark),
    /// The character at the cursor is not an ASCII digit.
    NotADigit(Mark),
    /// The end of the input was reached.
    EOF(Mark),
}

/// A failure value from which the mark of the failure can be taken.
pub trait ErrorWithMark {
    /// The mark carried by this failure.
    spec fn spec_mark(&self) -> Mark;

    /// Takes the carried mark out of the failure.
    fn mark(self) -> (m: Mark)
        ensures
            m == self.spec_mark(),
    ;
}

impl ErrorWithMark for ScanningErrors {
    open spec fn spec_mark(&self) -> Mark {
        match *self {
            ScanningErrors::TokenNotFound(m) => m,
            ScanningErrors::NotADigit(m) => m,
            ScanningErrors::EOF(m) => m,
        }
    }

    fn mark(self) -> (m: Mark) {
        match self {
            ScanningErrors::TokenNotFound(m) => m,
            ScanningErrors::NotADigit(m) => m,
            ScanningErrors::EOF(m) => m,
        }
    }
}

// ---------------------------------------------------------------------------
// The scanner capability surface
// ---------------------------------------------------------------------------

/// The character that a scanner over source `s` at position `p` sees next.
pub open spec fn peek_spec(s: Seq<char>, p: int) -> Option<char> {
    if 0 <= p < s.len() {
        Some(s[p])
    } else {
        None
    }
}

/// A cursor over a source text, with one-character lookahead, consumption,
/// position snapshots, rollback to a snapshot, and extraction of the text
/// between a snapshot and the cursor.
///
/// The cursor is the only state the methods move: the source and everything
/// else a scanner carries (its [`persistent`](Scannable::persistent) part)
/// stay as they are.
pub trait Scannable: Sized {
    /// The source text under the scanner.
    spec fn src(&self) -> Seq<char>;

    /// The cursor: how many scalar values have been consumed.
    spec fn cursor(&self) -> int;

    /// Everything the scanner holds apart from the live cursor.
    spec fn persistent(&self) -> Self;

    /// The scanner's internal invariant.
    spec fn wf(&self) -> bool;

    /// A well-formed scanner's cursor lies within its source, whose byte
    /// offsets fit in `usize`.
    proof fn wf_bounds(&self)
        requires
            self.wf(),
        ensures
            0 <= self.cursor() <= self.src().len(),
            self.src().len() <= usize::MAX,
            byte_index(self.src(), self.src().len() as int) <= usize::MAX,
    ;

    /// Returns the next unconsumed character without advancing; `None` at the
    /// end of the input.
    fn peek(&mut self) -> (r: Option<char>)
        requires
            old(self).wf(),
        ensures
            final(self).wf(),
            final(self).src() == old(self).src(),
            final(self).cursor() == old(self).cursor(),
            final(self).persistent() == old(self).persistent(),
            r == peek_spec(old(self).src(), old(self).cursor()),
    ;

    /// Returns and consumes the next character, advancing the cursor by one;
    /// `None` at the end of the input, without advancing.
    fn next(&mut self) -> (r: Option<char>)
        requires
            old(self).wf(),
        ensures
            final(self).wf(),
            final(self).src() == old(self).src(),
            final(self).persistent() == old(self).persistent(),
            r == peek_spec(old(self).src(), old(self).cursor()),
            r is Some ==> final(self).cursor() == old(self).cursor() + 1,
            r is None ==> final(self).cursor() == old(self).cursor(),
    ;

    /// Captures the current position; always succeeds, also at the end of the
    /// input.
    fn mark(&mut self) -> (m: Mark)
        requires
            old(self).wf(),
        ensures
            final(self).wf(),
            final(self).src() == old(self).src(),
            final(self).cursor() == old(self).cursor(),
            final(self).persistent() == old(self).persistent(),
            m == mark_at(old(self).src(), old(self).cursor()),
            m.valid_for(old(self).src()),
    ;

    /// Rewinds the cursor to exactly the position described by `mark`:
    /// afterwards the scanner behaves as if it stood at that position and
    /// nothing beyond it had been consumed.
    fn restore(&mut self, mark: &Mark)
        requires
            old(self).wf(),
            mark.valid_for(old(self).src()),
        ensures
            final(self).wf(),
            final(self).src() == old(self).src(),
            final(self).cursor() == mark.position(),
            final(self).persistent() == old(self).persistent(),
    ;

    /// The text between `start` and the cursor, as an owned copy.
    fn substr(&mut self, start: &Mark) -> (r: String)
        requires
            old(self).wf(),
            start.valid_for(old(self).src()),
            start.position() <= old(self).cursor(),
        ensures
            final(self).wf(),
            final(self).src() == old(self).src(),
            final(self).cursor() == old(self).cursor(),
            final(self).persistent() == old(self).persistent(),
            r@ == old(self).src().subrange(start.position(), old(self).cursor()),
    ;
}

// ---------------------------------------------------------------------------
// Primitive combinators
//
// All of them share one backtracking-safety contract, stated in each
// function's ensures: a combinator that fails leaves the cursor exactly
// where it started, so alternatives compose without corrupting the stream.
// ---------------------------------------------------------------------------

/// Length of the run of ASCII digits starting at position `p` of `s`.
pub open spec fn digit_run(s: Seq<char>, p: int) -> int
    decreases s.len() - p,
{
    if 0 <= p < s.len() && is_digit_char(s[p]) {
        1 + digit_run(s, p + 1)
    } else {
        0
    }
}

/// Number of leading characters of `tok` that match the source `s` from
/// position `p` on: the index of the first disagreement, or the length of
/// `tok` if all of it matches.
pub open spec fn match_len(s: Seq<char>, p: int, tok: Seq<char>) -> int
    decreases tok.len(),
{
    if tok.len() == 0 {
        0
    } else if 0 <= p < s.len() && s[p] == tok[0] {
        1 + match_len(s, p + 1, tok.drop_first())
    } else {
        0
    }
}

/// Whether the non-empty token `tok` stands at position `p` of `s`.
pub open spec fn token_matches(s: Seq<char>, p: int, tok: Seq<char>) -> bool {
    tok.len() > 0 && match_len(s, p, tok) == tok.len()
}

/// Position of the first character at or after `p` that is not whitespace.
pub open spec fn ws_end(s: Seq<char>, p: int) -> int
    decreases s.len() - p,
{
    if 0 <= p < s.len() && is_space_char(s[p]) {
        ws_end(s, p + 1)
    } else {
        p
    }
}

/// The run counted by [`digit_run`] lies within the source and consists of
/// ASCII digits.
pub proof fn lemma_digit_run_chars(s: Seq<char>, p: int)
    requires
        0 <= p,
    ensures
        0 <= digit_run(s, p),
        digit_run(s, p) > 0 ==> p + digit_run(s, p) <= s.len(),
        forall|j: int| #![trigger s[j]] p <= j < p + digit_run(s, p) ==> is_digit_char(s[j]),
    decreases s.len() - p,
{
    if 0 <= p < s.len() && is_digit_char(s[p]) {
        lemma_digit_run_chars(s, p + 1);
    }
}

/// [`match_len`] never exceeds the length of the token, and a non-empty
/// match lies within the source.
pub proof fn lemma_match_len_le(s: Seq<char>, p: int, tok: Seq<char>)
    ensures
        0 <= match_len(s, p, tok) <= tok.len(),
        match_len(s, p, tok) > 0 ==> p + match_len(s, p, tok) <= s.len(),
    decreases tok.len(),
{
    if tok.len() > 0 && 0 <= p < s.len() && s[p] == tok[0] {
        lemma_match_len_le(s, p + 1, tok.drop_first());
    }
}

/// A token that matches at `p` lies within the source and is not empty.
pub proof fn lemma_token_matches_bounds(s: Seq<char>, p: int, tok: Seq<char>)
    requires
        token_matches(s, p, tok),
    ensures
        tok.len() > 0,
        p + tok.len() <= s.len(),
{
    lemma_match_len_le(s, p, tok);
}

/// Skipping whitespace never moves the cursor backwards, never moves it past
/// the end of the input, and is idempotent.
pub proof fn lemma_ws_end(s: Seq<char>, p: int)
    requires
        0 <= p,
    ensures
        p <= ws_end(s, p),
        p <= s.len() ==> ws_end(s, p) <= s.len(),
        ws_end(s, ws_end(s, p)) == ws_end(s, p),
    decreases s.len() - p,
{
    if 0 <= p < s.len() && is_space_char(s[p]) {
        lemma_ws_end(s, p + 1);
    }
}

/// For a well-formed digit sequence standing at `p` — one or more ASCII
/// digits not followed by a further digit — the run that [`digits`] consumes
/// at `p` is exactly that sequence: [`digits`] then returns
/// `s.subrange(p, p + k)` and leaves the cursor at `p + k`.
pub proof fn lemma_digits_full_run(s: Seq<char>, p: int, k: int)
    requires
        0 <= p,
        1 <= k,
        p + k <= s.len(),
        forall|j: int| #![trigger s[j]] p <= j < p + k ==> is_digit_char(s[j]),
        p + k == s.len() || !is_digit_char(s[p + k]),
    ensures
        digit_run(s, p) == k,
    decreases k,
{
    if k == 1 {
        assert(digit_run(s, p + 1) == 0);
    } else {
        lemma_digits_full_run(s, p + 1, k - 1);
    }
}

/// Mark/restore round-trip: a mark taken at position `p` stores exactly `p`,
/// so a scanner restored to it peeks the same character as a scanner that
/// stands at `p` and has consumed nothing beyond it.
pub proof fn lemma_mark_restore_roundtrip(s: Seq<char>, p: int)
    requires
        0 <= p <= s.len(),
        byte_index(s, s.len() as int) <= usize::MAX,
    ensures
        mark_at(s, p).position() == p,
        peek_spec(s, mark_at(s, p).position()) == peek_spec(s, p),
{
    lemma_mark_at(s, p);
}

/// Succeeds and consumes exactly one character iff the character at the
/// cursor is an ASCII digit; fails without consuming otherwise, with
/// `NotADigit` at the cursor, or `EOF` at the cursor at the end of the input.
pub fn digit<I: Scannable>(code: &mut I) -> (r: Result<char, ScanningErrors>)
    requires
        old(code).wf(),
    ensures
        final(code).wf(),
        final(code).src() == old(code).src(),
        final(code).persistent() == old(code).persistent(),
        ({
            let src = old(code).src();
            let cur = old(code).cursor();
            if cur < src.len() && is_digit_char(src[cur]) {
                r == Ok::<char, ScanningErrors>(src[cur]) && final(code).cursor() == cur + 1
            } else if cur < src.len() {
                r == Err::<char, ScanningErrors>(ScanningErrors::NotADigit(mark_at(src, cur)))
                    && final(code).cursor() == cur
            } else {
                r == Err::<char, ScanningErrors>(ScanningErrors::EOF(mark_at(src, cur)))
                    && final(code).cursor() == cur
            }
        }),
{
    proof {
        code.wf_bounds();
    }
    match code.peek() {
        Some(c) => {
            if digit_char_test(c) {
                code.next();
                Ok(c)
            } else {
                Err(ScanningErrors::NotADigit(code.mark()))
            }
        },
        None => Err(ScanningErrors::EOF(code.mark())),
    }
}

/// Consumes the maximal run of ASCII digits at the cursor and returns it,
/// provided it is not empty; fails without consuming otherwise, with the
/// failure [`digit`] reports at the cursor.
#[verifier::loop_isolation(false)]
pub fn digits<I: Scannable>(code: &mut I) -> (r: Result<String, ScanningErrors>)
    requires
        old(code).wf(),
    ensures
        final(code).wf(),
        final(code).src() == old(code).src(),
        final(code).persistent() == old(code).persistent(),
        ({
            let src = old(code).src();
            let cur = old(code).cursor();
            let n = digit_run(src, cur);
            if n > 0 {
                &&& r matches Ok(s) && s@ == src.subrange(cur, cur + n)
                &&& final(code).cursor() == cur + n
            } else {
                &&& final(code).cursor() == cur
                &&& cur < src.len() ==> r == Err::<String, ScanningErrors>(
                    ScanningErrors::NotADigit(mark_at(src, cur)),
                )
                &&& cur >= src.len() ==> r == Err::<String, ScanningErrors>(
                    ScanningErrors::EOF(mark_at(src, cur)),
                )
            }
        }),
{
    let ghost src = old(code).src();
    let ghost cur0 = old(code).cursor();
    let ghost per0 = old(code).persistent();
    proof {
        code.wf_bounds();
    }
    let m = code.mark();
    match digit(code) {
        Err(e) => return Err(e),
        Ok(_) => {},
    }
    loop
        invariant
            code.wf(),
            code.src() == src,
            code.persistent() == per0,
            cur0 < code.cursor() <= src.len(),
            m == mark_at(src, cur0),
            m.valid_for(src),
            digit_run(src, cur0) == code.cursor() - cur0 + digit_run(src, code.cursor()),
        decreases src.len() - code.cursor(),
    {
        match code.peek() {
            Some(c) => {
                if digit_char_test(c) {
                    code.next();
                } else {
                    return Ok(code.substr(&m));
                }
            },
            None => {
                return Ok(code.substr(&m));
            },
        }
    }
}

/// Matches the literal `tok` character by character against the stream and
/// consumes exactly it; on any mismatch, or at a premature end of the input,
/// rewinds to where it started and fails with `TokenNotFound` at the position
/// of the mismatch. The empty literal never matches.
#[verifier::loop_isolation(false)]
pub fn token<I: Scannable>(code: &mut I, tok: &str) -> (r: Result<String, ScanningErrors>)
    requires
        old(code).wf(),
    ensures
        final(code).wf(),
        final(code).src() == old(code).src(),
        final(code).persistent() == old(code).persistent(),
        ({
            let src = old(code).src();
            let cur = old(code).cursor();
            if token_matches(src, cur, tok@) {
                &&& r matches Ok(s) && s@ == tok@
                &&& final(code).cursor() == cur + tok@.len()
            } else {
                &&& r == Err::<String, ScanningErrors>(
                    ScanningErrors::TokenNotFound(mark_at(src, cur + match_len(src, cur, tok@))),
                )
                &&& final(code).cursor() == cur
            }
        }),
{
    let ghost src = old(code).src();
    let ghost cur0 = old(code).cursor();
    let ghost per0 = old(code).persistent();
    proof {
        code.wf_bounds();
        lemma_match_len_le(src, cur0, tok@);
    }
    let m = code.mark();
    let n = tok.unicode_len();
    if n == 0 {
        return Err(ScanningErrors::TokenNotFound(code.mark()));
    }
    let mut j: usize = 0;
    proof {
        assert(tok@.skip(0) =~= tok@);
        assert(src.subrange(cur0, cur0) =~= tok@.take(0));
    }
    loop
        invariant
            code.wf(),
            code.src() == src,
            code.persistent() == per0,
            0 <= j <= n,
            n == tok@.len(),
            code.cursor() == cur0 + j,
            cur0 + j <= src.len(),
            m == mark_at(src, cur0),
            m.valid_for(src),
            match_len(src, cur0, tok@) == j + match_len(src, cur0 + j, tok@.skip(j as int)),
            src.subrange(cur0, cur0 + j) == tok@.take(j as int),
        decreases n - j,
    {
        proof {
            lemma_match_len_le(src, cur0 + j, tok@.skip(j as int));
        }
        if j == n {
            let s = code.substr(&m);
            proof {
                assert(tok@.skip(n as int) =~= Seq::<char>::empty());
                assert(match_len(src, cur0, tok@) == n);
                assert(s@ =~= tok@);
            }
            return Ok(s);
        }
        let c1 = tok.get_char(j);
        proof {
            assert(tok@.skip(j as int)[0] == tok@[j as int]);
        }
        match code.peek() {
            Some(c2) => {
                if c1 == c2 {
                    code.next();
                    j = j + 1;
                    proof {
                        assert(tok@.skip(j - 1).drop_first() =~= tok@.skip(j as int));
                        assert(src.subrange(cur0, cur0 + j) =~= src.subrange(
                            cur0,
                            cur0 + j - 1,
                        ).push(src[cur0 + j - 1]));
                        assert(tok@.take(j as int) =~= tok@.take(j - 1).push(tok@[j - 1]));
                    }
                } else {
                    let em = code.mark();
                    code.restore(&m);
                    proof {
                        assert(match_len(src, cur0 + j, tok@.skip(j as int)) == 0);
                        assert(match_len(src, cur0, tok@) == j);
                    }
                    return Err(ScanningErrors::TokenNotFound(em));
                }
            },
            None => {
                let em = code.mark();
                code.restore(&m);
                proof {
                    assert(match_len(src, cur0 + j, tok@.skip(j as int)) == 0);
                    assert(match_len(src, cur0, tok@) == j);
                }
                return Err(ScanningErrors::TokenNotFound(em));
            },
        }
    }
}

/// Tries each parser in order on the same input and returns the first
/// success. When all of them fail, the failure of the last parser is
/// returned, not the first: alternatives are ordered from most to least
/// specific, so the last failure is the most relevant diagnostic.
#[verifier::loop_isolation(false)]
pub fn one_of<Input, Output, Error: ErrorWithMark, F: Fn(&Input) -> Result<Output, Error>>(
    input: &Input,
    parsers: &[F],
) -> (r: Result<Output, Error>)
    requires
        parsers@.len() > 0,
        forall|k: int|
            0 <= k < parsers@.len() ==> call_requires(#[trigger] parsers@[k], (input,)),
    ensures
        r is Ok ==> exists|k: int|
            0 <= k < parsers@.len() && call_ensures(#[trigger] parsers@[k], (input,), r),
        r is Err ==> call_ensures(parsers@[parsers@.len() - 1], (input,), r),
        r is Err ==> forall|k: int|
            0 <= k < parsers@.len() ==> exists|e: Error|
                call_ensures(#[trigger] parsers@[k], (input,), Err(e)),
{
    let mut k: usize = 0;
    loop
        invariant
            0 <= k < parsers@.len(),
            forall|j: int|
                0 <= j < k ==> exists|e: Error|
                    call_ensures(#[trigger] parsers@[j], (input,), Err(e)),
        decreases parsers@.len() - k,
    {
        let f = &parsers[k];
        match f(input) {
            Ok(o) => {
                return Ok(o);
            },
            Err(e) => {
                if k + 1 == parsers.len() {
                    return Err(e);
                }
                k = k + 1;
            },
        }
    }
}

/// Applies `parser` repeatedly and collects the outputs until it fails;
/// succeeds iff the first application succeeds, and propagates that first
/// failure untouched otherwise, with no net consumption.
#[verifier::loop_isolation(false)]
pub fn some<I: Scannable, Output, F: Fn(&mut I) -> Result<Output, ScanningErrors>>(
    input: &mut I,
    parser: &F,
) -> (r: Result<Vec<Output>, ScanningErrors>)
    requires
        old(input).wf(),
        forall|i: &mut I|
            (mut_ref_current(i).wf() && mut_ref_current(i).src() == old(input).src()
                && mut_ref_current(i).persistent() == old(input).persistent())
                ==> call_requires(*parser, (i,)),
        forall|i: &mut I, res: Result<Output, ScanningErrors>|
            call_ensures(*parser, (i,), res) ==> (mut_ref_future(i).wf() && mut_ref_future(i).src()
                == mut_ref_current(i).src() && mut_ref_future(i).persistent() == mut_ref_current(
                i,
            ).persistent() && (res is Ok ==> mut_ref_current(i).cursor() < mut_ref_future(
                i,
            ).cursor() <= mut_ref_current(i).src().len()) && (res is Err ==> mut_ref_future(
                i,
            ).cursor() == mut_ref_current(i).cursor())),
    ensures
        final(input).wf(),
        final(input).src() == old(input).src(),
        final(input).persistent() == old(input).persistent(),
        old(input).cursor() <= final(input).cursor() <= old(input).src().len(),
        r matches Ok(os) ==> os@.len() >= 1 && final(input).cursor() > old(input).cursor() && (
        forall|j: int|
            0 <= j < os@.len() ==> exists|i: &mut I|
                mut_ref_current(i).src() == old(input).src() && call_ensures(
                    *parser,
                    (i,),
                    Result::<Output, ScanningErrors>::Ok(#[trigger] os@[j]),
                )) && (exists|i: &mut I, e: ScanningErrors|
            mut_ref_current(i).src() == old(input).src() && mut_ref_current(i).cursor() == final(input).cursor() && mut_ref_current(i).persistent() == old(input).persistent()
                && call_ensures(*parser, (i,), Result::<Output, ScanningErrors>::Err(e))),
        r matches Err(e) ==> final(input).cursor() == old(input).cursor() && (exists|i: &mut I|
            mut_ref_current(i) == *old(input) && call_ensures(
                *parser,
                (i,),
                Result::<Output, ScanningErrors>::Err(e),
            )),
{
    let ghost src = old(input).src();
    let ghost cur0 = old(input).cursor();
    let ghost per0 = old(input).persistent();
    proof {
        input.wf_bounds();
    }
    let mut os: Vec<Output> = Vec::new();
    loop
        invariant
            input.wf(),
            input.src() == src,
            input.persistent() == per0,
            cur0 <= input.cursor() <= src.len(),
            os@.len() == 0 ==> input.cursor() == cur0 && *input == *old(input),
            os@.len() > 0 ==> input.cursor() > cur0,
            forall|j: int|
                0 <= j < os@.len() ==> exists|i: &mut I|
                    mut_ref_current(i).src() == src && call_ensures(
                        *parser,
                        (i,),
                        Result::<Output, ScanningErrors>::Ok(#[trigger] os@[j]),
                    ),
        decreases src.len() - input.cursor(),
    {
        match parser(input) {
            Ok(o) => os.push(o),
            Err(e) => {
                if os.len() == 0 {
                    return Err(e);
                }
                return Ok(os);
            },
        }
    }
}

/// Applies `parser` repeatedly until it fails and returns the span of source
/// text the successful applications consumed; succeeds iff the first
/// application succeeds, and propagates that first failure untouched
/// otherwise, with no net consumption.
#[verifier::loop_isolation(false)]
pub fn some_str<I: Scannable, Output, F: Fn(&mut I) -> Result<Output, ScanningErrors>>(
    input: &mut I,
    parser: &F,
) -> (r: Result<String, ScanningErrors>)
    requires
        old(input).wf(),
        forall|i: &mut I|
            (mut_ref_current(i).wf() && mut_ref_current(i).src() == old(input).src()
                && mut_ref_current(i).persistent() == old(input).persistent())
                ==> call_requires(*parser, (i,)),
        forall|i: &mut I, res: Result<Output, ScanningErrors>|
            call_ensures(*parser, (i,), res) ==> (mut_ref_future(i).wf() && mut_ref_future(i).src()
                == mut_ref_current(i).src() && mut_ref_future(i).persistent() == mut_ref_current(
                i,
            ).persistent() && (res is Ok ==> mut_ref_current(i).cursor() < mut_ref_future(
                i,
            ).cursor() <= mut_ref_current(i).src().len()) && (res is Err ==> mut_ref_future(
                i,
            ).cursor() == mut_ref_current(i).cursor())),
    ensures
        final(input).wf(),
        final(input).src() == old(input).src(),
        final(input).persistent() == old(input).persistent(),
        old(input).cursor() <= final(input).cursor() <= old(input).src().len(),
        r matches Ok(s) ==> final(input).cursor() > old(input).cursor() && s@ == old(input).src().subrange(old(input).cursor(), final(input).cursor()) && (exists|i: &mut I, e:
            ScanningErrors|
            mut_ref_current(i).src() == old(input).src() && mut_ref_current(i).cursor() == final(input).cursor() && mut_ref_current(i).persistent() == old(input).persistent()
                && call_ensures(*parser, (i,), Result::<Output, ScanningErrors>::Err(e))),
        r matches Err(e) ==> final(input).cursor() == old(input).cursor() && (exists|i: &mut I|
            mut_ref_current(i).src() == old(input).src() && mut_ref_current(i).cursor() == old(input).cursor() && mut_ref_current(i).persistent() == old(input).persistent()
                && call_ensures(*parser, (i,), Result::<Output, ScanningErrors>::Err(e))),
{
    let ghost src = old(input).src();
    let ghost cur0 = old(input).cursor();
    let ghost per0 = old(input).persistent();
    proof {
        input.wf_bounds();
    }
    let m = input.mark();
    let mut found = false;
    loop
        invariant
            input.wf(),
            input.src() == src,
            input.persistent() == per0,
            cur0 <= input.cursor() <= src.len(),
            m == mark_at(src, cur0),
            m.valid_for(src),
            !found ==> input.cursor() == cur0,
            found ==> input.cursor() > cur0,
        decreases src.len() - input.cursor(),
    {
        match parser(input) {
            Ok(_) => {
                found = true;
            },
            Err(e) => {
                if !found {
                    return Err(e);
                }
                return Ok(input.substr(&m));
            },
        }
    }
}

/// Consumes characters while the one at the cursor is whitespace; always
/// succeeds, leaving the cursor on the first non-whitespace character or at
/// the end of the input.
#[verifier::loop_isolation(false)]
pub fn skip_ws<I: Scannable>(code: &mut I)
    requires
        old(code).wf(),
    ensures
        final(code).wf(),
        final(code).src() == old(code).src(),
        final(code).persistent() == old(code).persistent(),
        final(code).cursor() == ws_end(old(code).src(), old(code).cursor()),
{
    let ghost src = old(code).src();
    let ghost cur0 = old(code).cursor();
    let ghost per0 = old(code).persistent();
    proof {
        code.wf_bounds();
    }
    loop
        invariant
            code.wf(),
            code.src() == src,
            code.persistent() == per0,
            cur0 <= code.cursor() <= src.len(),
            ws_end(src, cur0) == ws_end(src, code.cursor()),
        decreases src.len() - code.cursor(),
    {
        match code.peek() {
            Some(c) => {
                if space_char_test(c) {
                    code.next();
                } else {
                    return ;
                }
            },
            None => {
                return ;
            },
        }
    }
}

} // verus!
