use vstd::prelude::*;

use crate::simple_regex::{
    is_match_end, lemma_match_end_unique, match_end, RegexView, SimpleRegex,
};

verus! {

/// A failure of the strict scanner, tagged with the scan position at the
/// moment it was detected. `IoError` carries the text of an underlying
/// transport failure and is raised only by code that drives a real stream.
#[derive(Debug)]
pub enum InputError {
    IoError(String),
    ValueOutOfRange { line: usize, head: usize, val: String, min: String, max: String },
    UnexpectedCharacter { line: usize, head: usize },
    UnexpectedEof { line: usize, head: usize },
    UnexpectedEoln { line: usize, head: usize },
}

/// Model of the scanner: the lines still to be served (`input`, of which the
/// first `line` are already consumed), the current line buffer, the scan
/// position, and whether end of input has been confirmed.
#[verifier::ext_equal]
pub ghost struct CheckerView {
    pub input: Seq<Seq<char>>,
    pub buffer: Seq<char>,
    pub line: int,
    pub head: int,
    pub eof_done: bool,
}

impl CheckerView {
    /// The head never passes the buffer, consumed lines never outnumber the
    /// given ones, and every given line is non-empty (an empty pull means the
    /// source is exhausted).
    pub open spec fn wf(self) -> bool {
        &&& 0 <= self.head <= self.buffer.len()
        &&& 0 <= self.line <= self.input.len()
        &&& forall|i: int| 0 <= i < self.input.len() ==> (#[trigger] self.input[i]).len() > 0
    }

    /// The state after the internal line pull: when the buffer is exhausted,
    /// the next line is served (advancing `line`), or the buffer is left
    /// empty when no line remains.
    pub open spec fn pulled(self) -> CheckerView {
        if self.head == self.buffer.len() {
            if self.line < self.input.len() {
                CheckerView {
                    input: self.input,
                    buffer: self.input[self.line],
                    line: self.line + 1,
                    head: 0,
                    eof_done: self.eof_done,
                }
            } else {
                CheckerView {
                    input: self.input,
                    buffer: Seq::empty(),
                    line: self.line,
                    head: 0,
                    eof_done: self.eof_done,
                }
            }
        } else {
            self
        }
    }
}

/// The same state with the head moved to `h`.
pub open spec fn with_head(p: CheckerView, h: int) -> CheckerView {
    CheckerView { input: p.input, buffer: p.buffer, line: p.line, head: h, eof_done: p.eof_done }
}

pub open spec fn is_eof_err<T>(r: Result<T, InputError>, line: int, head: int) -> bool {
    r matches Err(InputError::UnexpectedEof { line: l, head: h }) && l == line && h == head
}

pub open spec fn is_char_err<T>(r: Result<T, InputError>, line: int, head: int) -> bool {
    r matches Err(InputError::UnexpectedCharacter { line: l, head: h }) && l == line && h == head
}

pub open spec fn is_eoln_err<T>(r: Result<T, InputError>, line: int, head: int) -> bool {
    r matches Err(InputError::UnexpectedEoln { line: l, head: h }) && l == line && h == head
}

/// What `read_string` returns and how it moves the scanner, stated over the
/// state `p` that the internal pull produced.
pub open spec fn read_string_post(
    p: CheckerView,
    a: RegexView,
    post: CheckerView,
    r: Result<String, InputError>,
) -> bool {
    if p.buffer.len() == 0 {
        &&& is_eof_err(r, p.line, p.head)
        &&& post == p
    } else {
        let m = match_end(a, p.buffer, p.head);
        if m == p.head {
            &&& is_char_err(r, p.line, p.head)
            &&& post == p
        } else {
            &&& (r matches Ok(s) && s@ == p.buffer.subrange(p.head, m))
            &&& post == with_head(p, m)
        }
    }
}

/// What reading one required separator character returns.
pub open spec fn read_exact_post(
    p: CheckerView,
    expected: char,
    post: CheckerView,
    r: Result<(), InputError>,
) -> bool {
    if p.buffer.len() == 0 {
        &&& is_eof_err(r, p.line, p.head)
        &&& post == p
    } else if p.buffer[p.head] != expected {
        &&& is_char_err(r, p.line, p.head)
        &&& post == p
    } else {
        &&& r matches Ok(_)
        &&& post == with_head(p, p.head + 1)
    }
}

/// What confirming end of input returns: it succeeds exactly when the pull
/// leaves the buffer empty, and only then sets the confirmation flag.
pub open spec fn read_eof_post(
    p: CheckerView,
    post: CheckerView,
    r: Result<(), InputError>,
) -> bool {
    if p.buffer.len() > 0 {
        &&& is_char_err(r, p.line, p.head)
        &&& post == p
    } else {
        &&& r matches Ok(_)
        &&& post == (CheckerView {
            input: p.input,
            buffer: p.buffer,
            line: p.line,
            head: p.head,
            eof_done: true,
        })
    }
}

/// A decimal digit symbol.
pub open spec fn is_digit(c: char) -> bool {
    48 <= c as u32 <= 57
}

pub open spec fn digit_val(c: char) -> int {
    c as u32 - 48
}

/// First offset at or after `i` that does not hold a digit.
pub open spec fn digits_end(s: Seq<char>, i: int) -> int
    decreases s.len() - i,
{
    if i < 0 || i >= s.len() {
        i
    } else if is_digit(s[i]) {
        digits_end(s, i + 1)
    } else {
        i
    }
}

/// Value of the digit run `s[i..j]`.
pub open spec fn digits_val(s: Seq<char>, i: int, j: int) -> int
    decreases j - i,
{
    if i >= j {
        0
    } else {
        digits_val(s, i, j - 1) * 10 + digit_val(s[j - 1])
    }
}

pub open spec fn pow10(k: int) -> int
    decreases k,
{
    if k <= 0 {
        1
    } else {
        10 * pow10(k - 1)
    }
}

/// The digit of a decimal value below ten.
pub open spec fn digit_char(d: int) -> char {
    if d == 0 {
        '0'
    } else if d == 1 {
        '1'
    } else if d == 2 {
        '2'
    } else if d == 3 {
        '3'
    } else if d == 4 {
        '4'
    } else if d == 5 {
        '5'
    } else if d == 6 {
        '6'
    } else if d == 7 {
        '7'
    } else if d == 8 {
        '8'
    } else {
        '9'
    }
}

/// Canonical decimal digits of a non-negative value.
pub open spec fn dec_digits(n: int) -> Seq<char>
    decreases n,
{
    if n < 10 {
        seq![digit_char(n)]
    } else {
        dec_digits(n / 10).push(digit_char(n % 10))
    }
}

/// Canonical decimal text of a value, with a leading minus when negative.
pub open spec fn dec_str(v: int) -> Seq<char> {
    if v < 0 {
        seq!['-'] + dec_digits(-v)
    } else {
        dec_digits(v)
    }
}

/// The zero digit is the only symbol with its code.
proof fn lemma_char_code_zero(c: char)
    requires
        c as u32 == 48,
    ensures
        c == '0',
{
    vstd::utf8::char_u32_cast(c, 48u32);
    vstd::utf8::char_u32_cast('0', 48u32);
}

proof fn lemma_digits_end_from(b: Seq<char>, ds: int, e: int)
    requires
        0 <= ds <= e <= b.len(),
        forall|k: int| ds <= k < e ==> is_digit(#[trigger] b[k]),
        e == b.len() || !is_digit(b[e]),
    ensures
        digits_end(b, ds) == e,
    decreases e - ds,
{
    if ds < e {
        lemma_digits_end_from(b, ds + 1, e);
    }
}

proof fn lemma_pow10_pos(k: int)
    ensures
        pow10(k) >= 1,
    decreases k,
{
    if k > 0 {
        lemma_pow10_pos(k - 1);
    }
}

proof fn lemma_pow10_mono(a: int, b: int)
    requires
        a <= b,
    ensures
        pow10(a) <= pow10(b),
    decreases b - a,
{
    lemma_pow10_pos(a);
    if a < b {
        lemma_pow10_mono(a, b - 1);
        lemma_pow10_pos(b - 1);
    }
}

proof fn lemma_digits_val_bounds(b: Seq<char>, i: int, j: int)
    requires
        0 <= i <= j <= b.len(),
        forall|k: int| i <= k < j ==> is_digit(#[trigger] b[k]),
    ensures
        0 <= digits_val(b, i, j) < pow10(j - i),
    decreases j - i,
{
    if i < j {
        lemma_digits_val_bounds(b, i, j - 1);
        assert(pow10(j - i) == 10 * pow10(j - i - 1));
    }
}

proof fn lemma_digits_val_lower(b: Seq<char>, i: int, j: int)
    requires
        0 <= i < j <= b.len(),
        forall|k: int| i <= k < j ==> is_digit(#[trigger] b[k]),
        digit_val(b[i]) >= 1,
    ensures
        digits_val(b, i, j) >= pow10(j - i - 1),
    decreases j - i,
{
    assert(is_digit(b[j - 1]));
    assert(digit_val(b[j - 1]) >= 0);
    if j == i + 1 {
    } else {
        lemma_digits_val_lower(b, i, j - 1);
        assert(pow10(j - i - 1) == 10 * pow10(j - i - 2));
        assert(digits_val(b, i, j - 1) * 10 >= pow10(j - i - 2) * 10) by (nonlinear_arith)
            requires
                digits_val(b, i, j - 1) >= pow10(j - i - 2),
        ;
    }
}

proof fn lemma_pow10_19()
    ensures
        pow10(19) == 10000000000000000000,
        pow10(18) == 1000000000000000000,
{
    reveal_with_fuel(pow10, 21);
}

fn digit_char_x(d: u64) -> (c: char)
    requires
        d < 10,
    ensures
        c == digit_char(d as int),
{
    if d == 0 {
        '0'
    } else if d == 1 {
        '1'
    } else if d == 2 {
        '2'
    } else if d == 3 {
        '3'
    } else if d == 4 {
        '4'
    } else if d == 5 {
        '5'
    } else if d == 6 {
        '6'
    } else if d == 7 {
        '7'
    } else if d == 8 {
        '8'
    } else {
        '9'
    }
}

/// Append the canonical decimal digits of `n`.
fn push_dec_digits(n: u64, out: &mut Vec<char>)
    ensures
        final(out)@ == old(out)@ + dec_digits(n as int),
    decreases n,
{
    if n < 10 {
        out.push(digit_char_x(n));
        proof {
            assert(out@ =~= old(out)@ + dec_digits(n as int));
        }
    } else {
        push_dec_digits(n / 10, out);
        out.push(digit_char_x(n % 10));
        proof {
            assert(out@ =~= old(out)@ + dec_digits(n as int));
        }
    }
}

/// Canonical decimal text of a value.
fn i64_to_string(v: i64) -> (s: String)
    ensures
        s@ == dec_str(v as int),
{
    let mut out: Vec<char> = Vec::new();
    if v < 0 {
        out.push('-');
        let mag: u64 = (-(v as i128)) as u64;
        push_dec_digits(mag, &mut out);
        proof {
            assert(out@ =~= dec_str(v as int));
        }
    } else {
        let mag: u64 = v as u64;
        push_dec_digits(mag, &mut out);
        proof {
            assert(out@ =~= dec_str(v as int));
        }
    }
    chars_to_string(&out)
}

/// What `read_number` returns for a digit run starting at `dstart` (after an
/// optional minus at `numstart`), and how it moves the scanner.
pub open spec fn number_outcome(
    p: CheckerView,
    min: i64,
    max: i64,
    post: CheckerView,
    r: Result<i64, InputError>,
    numstart: int,
    dstart: int,
    neg: bool,
) -> bool {
    let b = p.buffer;
    let e = digits_end(b, dstart);
    let v = if neg {
        -digits_val(b, dstart, e)
    } else {
        digits_val(b, dstart, e)
    };
    &&& post == with_head(p, e)
    &&& if v < min || max < v {
        r matches Err(InputError::ValueOutOfRange { line, head, val, min: mn, max: mx })
            && line == p.line && head == e && val@ == b.subrange(numstart, e)
            && mn@ == dec_str(min as int) && mx@ == dec_str(max as int)
    } else {
        r matches Ok(x) && x as int == v
    }
}

/// What `read_number` returns and how it moves the scanner, stated over the
/// state `p` that the internal pull produced: the canonical-integer grammar
/// (a single zero, or an optional minus and a non-zero-led digit run), then
/// the range check.
pub open spec fn read_number_post(
    p: CheckerView,
    min: i64,
    max: i64,
    post: CheckerView,
    r: Result<i64, InputError>,
) -> bool {
    let b = p.buffer;
    let h = p.head;
    if b.len() == 0 {
        &&& is_eof_err(r, p.line, p.head)
        &&& post == p
    } else if b[h] == '0' {
        if h + 1 < b.len() && is_digit(b[h + 1]) {
            &&& is_char_err(r, p.line, h + 1)
            &&& post == with_head(p, h + 1)
        } else {
            &&& (r matches Ok(x) && x == 0)
            &&& post == with_head(p, h + 1)
        }
    } else if b[h] == '-' {
        if h + 1 == b.len() {
            &&& is_eoln_err(r, p.line, h + 1)
            &&& post == with_head(p, h + 1)
        } else if !is_digit(b[h + 1]) || b[h + 1] == '0' {
            &&& is_char_err(r, p.line, h + 1)
            &&& post == with_head(p, h + 1)
        } else {
            number_outcome(p, min, max, post, r, h, h + 1, true)
        }
    } else if is_digit(b[h]) {
        number_outcome(p, min, max, post, r, h, h, false)
    } else {
        &&& is_char_err(r, p.line, h)
        &&& post == p
    }
}

/// Law: a successful end-of-input confirmation sets the finalization flag and
/// leaves a state whose every further pull serves an empty buffer — so each
/// later read operation fails with the end-of-input error, by the operations'
/// own contracts (`read_string` through the flag, the others through the
/// empty buffer).
pub proof fn lemma_read_after_eof(v: CheckerView, q: CheckerView, r: Result<(), InputError>)
    requires
        v.wf(),
        read_eof_post(v.pulled(), q, r),
        r matches Ok(_),
    ensures
        q.eof_done,
        q.pulled().buffer.len() == 0,
{
    let p = v.pulled();
    if v.head == v.buffer.len() && v.line < v.input.len() {
        assert(v.input[v.line].len() > 0);
    }
    assert(p.line == p.input.len());
}

/// Relies on collecting borrowed characters into a `String`: the string holds
/// exactly those characters.
#[verifier::external_body]
fn chars_to_string(v: &Vec<char>) -> (s: String)
    ensures
        s@ == v@,
{
    v.iter().collect()
}

/// Copy of one line.
fn copy_line(v: &Vec<char>) -> (r: Vec<char>)
    ensures
        r@ == v@,
{
    let mut r: Vec<char> = Vec::new();
    let mut i: usize = 0;
    while i < v.len()
        invariant
            i <= v@.len(),
            r@ == v@.take(i as int),
        decreases v@.len() - i,
    {
        let c = v[i];
        r.push(c);
        proof {
            assert(r@ =~= v@.take(i + 1));
        }
        i = i + 1;
    }
    proof {
        assert(v@.take(v@.len() as int) =~= v@);
    }
    r
}

/// Copy of the characters `from..to` of a line.
fn sub_chars(v: &Vec<char>, from: usize, to: usize) -> (r: Vec<char>)
    requires
        from <= to <= v@.len(),
    ensures
        r@ == v@.subrange(from as int, to as int),
{
    let mut r: Vec<char> = Vec::new();
    let mut i: usize = from;
    while i < to
        invariant
            from <= i <= to,
            to <= v@.len(),
            r@ == v@.subrange(from as int, i as int),
        decreases to - i,
    {
        let c = v[i];
        r.push(c);
        proof {
            assert(r@ =~= v@.subrange(from as int, i + 1));
        }
        i = i + 1;
    }
    r
}

/// The strict scanner: consumes the given lines token by token, pulling one
/// line at a time into its buffer, and reports position-tagged errors. The
/// caller owes a final successful `read_eof` before the scanner goes out of
/// use; `eof_confirmed` tells whether that debt is settled.
pub struct InputChecker {
    input: Vec<Vec<char>>,
    buffer: Vec<char>,
    has_read_eof: bool,
    line: usize,
    head: usize,
}

impl View for InputChecker {
    type V = CheckerView;

    closed spec fn view(&self) -> CheckerView {
        CheckerView {
            input: Seq::new(self.input@.len(), |i: int| self.input@[i]@),
            buffer: self.buffer@,
            line: self.line as int,
            head: self.head as int,
            eof_done: self.has_read_eof,
        }
    }
}

impl Default for InputChecker {
    /// A scanner over no input at all: only `read_eof` can succeed on it.
    fn default() -> (c: InputChecker)
        ensures
            c@.wf(),
            c@ == (CheckerView {
                input: Seq::<Seq<char>>::empty(),
                buffer: Seq::empty(),
                line: 0,
                head: 0,
                eof_done: false,
            }),
    {
        let c = InputChecker::new(Vec::new());
        proof {
            assert(c@ =~~= (CheckerView {
                input: Seq::<Seq<char>>::empty(),
                buffer: Seq::empty(),
                line: 0,
                head: 0,
                eof_done: false,
            }));
        }
        c
    }
}

impl InputChecker {
    /// A scanner over the given input lines, none of them empty (the source
    /// signals exhaustion by an empty pull, never by an empty line).
    pub fn new(lines: Vec<Vec<char>>) -> (c: InputChecker)
        requires
            forall|i: int| 0 <= i < lines@.len() ==> (#[trigger] lines@[i])@.len() > 0,
        ensures
            c@.wf(),
            c@ == (CheckerView {
                input: Seq::new(lines@.len(), |i: int| lines@[i]@),
                buffer: Seq::empty(),
                line: 0,
                head: 0,
                eof_done: false,
            }),
    {
        let c = InputChecker { input: lines, buffer: Vec::new(), has_read_eof: false, line: 0, head: 0 };
        proof {
            assert(c@ =~~= (CheckerView {
                input: Seq::new(c.input@.len(), |i: int| c.input@[i]@),
                buffer: Seq::empty(),
                line: 0,
                head: 0,
                eof_done: false,
            }));
        }
        c
    }

    /// Whether the finalization invariant is settled: a `read_eof` call has
    /// succeeded.
    pub fn eof_confirmed(&self) -> (b: bool)
        ensures
            b == self@.eof_done,
    {
        self.has_read_eof
    }

    /// The internal line pull.
    fn read(&mut self)
        requires
            old(self)@.wf(),
        ensures
            final(self)@ == old(self)@.pulled(),
            final(self)@.wf(),
    {
        if self.head == self.buffer.len() {
            if self.line < self.input.len() {
                let next_line = copy_line(&self.input[self.line]);
                self.buffer = next_line;
                self.line = self.line + 1;
                self.head = 0;
            } else {
                self.buffer = Vec::new();
                self.head = 0;
            }
        }
        proof {
            assert(self@ =~~= old(self)@.pulled());
        }
    }

    /// After a pull, a non-empty buffer has its head strictly inside it.
    proof fn lemma_pulled_head(pre: CheckerView)
        requires
            pre.wf(),
            pre.pulled().buffer.len() > 0,
        ensures
            pre.pulled().head < pre.pulled().buffer.len(),
    {
    }

    /// Read the longest token the automaton accepts at the head, consume it,
    /// and return it; fail without a token on confirmed or actual end of
    /// input, and on a zero-length match.
    pub fn read_string(&mut self, regex: SimpleRegex) -> (r: Result<String, InputError>)
        requires
            old(self)@.wf(),
            regex@.wf(),
        ensures
            final(self)@.wf(),
            old(self)@.eof_done ==> is_eof_err(r, old(self)@.line, old(self)@.head)
                && final(self)@ == old(self)@,
            !old(self)@.eof_done ==> read_string_post(
                old(self)@.pulled(),
                regex@,
                final(self)@,
                r,
            ),
    {
        if self.has_read_eof {
            return Err(InputError::UnexpectedEof { line: self.line, head: self.head });
        }
        self.read();
        if self.buffer.len() == 0 {
            return Err(InputError::UnexpectedEof { line: self.line, head: self.head });
        }
        proof {
            Self::lemma_pulled_head(old(self)@);
        }
        let end = regex.longest_match(self.buffer.as_slice(), self.head);
        proof {
            let ghost b = self@.buffer;
            let ghost h = self@.head;
            assert(is_match_end(regex@, b, h, end as int));
            assert(is_match_end(regex@, b, h, match_end(regex@, b, h)));
            lemma_match_end_unique(regex@, b, h, end as int, match_end(regex@, b, h));
        }
        if end == self.head {
            return Err(InputError::UnexpectedCharacter { line: self.line, head: self.head });
        }
        let token = sub_chars(&self.buffer, self.head, end);
        let s = chars_to_string(&token);
        self.head = end;
        proof {
            assert(self@ =~~= with_head(old(self)@.pulled(), self@.head));
        }
        Ok(s)
    }

    /// Read one required character, `expected`, and advance past it.
    fn read_exact(&mut self, expected: char) -> (r: Result<(), InputError>)
        requires
            old(self)@.wf(),
        ensures
            final(self)@.wf(),
            read_exact_post(old(self)@.pulled(), expected, final(self)@, r),
    {
        self.read();
        if self.buffer.len() == 0 {
            return Err(InputError::UnexpectedEof { line: self.line, head: self.head });
        }
        proof {
            Self::lemma_pulled_head(old(self)@);
        }
        if self.buffer[self.head] != expected {
            return Err(InputError::UnexpectedCharacter { line: self.line, head: self.head });
        }
        self.head = self.head + 1;
        proof {
            assert(self@ =~~= with_head(old(self)@.pulled(), self@.head));
        }
        Ok(())
    }

    /// Read one required space separator.
    pub fn read_space(&mut self) -> (r: Result<(), InputError>)
        requires
            old(self)@.wf(),
        ensures
            final(self)@.wf(),
            read_exact_post(old(self)@.pulled(), ' ', final(self)@, r),
    {
        self.read_exact(' ')
    }

    /// Read one required line terminator.
    pub fn read_eoln(&mut self) -> (r: Result<(), InputError>)
        requires
            old(self)@.wf(),
        ensures
            final(self)@.wf(),
            read_exact_post(old(self)@.pulled(), '\n', final(self)@, r),
    {
        self.read_exact('\n')
    }

    /// Confirm that the input is exhausted; succeeds exactly when nothing
    /// remains, and settles the finalization invariant.
    pub fn read_eof(&mut self) -> (r: Result<(), InputError>)
        requires
            old(self)@.wf(),
        ensures
            final(self)@.wf(),
            read_eof_post(old(self)@.pulled(), final(self)@, r),
    {
        self.read();
        if self.buffer.len() > 0 {
            return Err(InputError::UnexpectedCharacter { line: self.line, head: self.head });
        }
        self.has_read_eof = true;
        proof {
            assert(self@ =~~= (CheckerView {
                input: old(self)@.pulled().input,
                buffer: old(self)@.pulled().buffer,
                line: old(self)@.pulled().line,
                head: old(self)@.pulled().head,
                eof_done: true,
            }));
        }
        Ok(())
    }

    /// The out-of-range report: the consumed text and the canonical decimal
    /// texts of the bounds, at the position right after the digit run.
    fn make_range_error(&self, ns: usize, e: usize, min: i64, max: i64) -> (err: InputError)
        requires
            ns <= e <= self@.buffer.len(),
        ensures
            (err matches InputError::ValueOutOfRange { line, head, val, min: mn, max: mx }
                && line == self@.line && head == e
                && val@ == self@.buffer.subrange(ns as int, e as int)
                && mn@ == dec_str(min as int) && mx@ == dec_str(max as int)),
    {
        let shown = sub_chars(&self.buffer, ns, e);
        let val = chars_to_string(&shown);
        let mn = i64_to_string(min);
        let mx = i64_to_string(max);
        InputError::ValueOutOfRange { line: self.line, head: e, val, min: mn, max: mx }
    }

    /// Read a canonical integer — a single `0`, or an optional minus and a
    /// digit run with no leading zero — and check it against `[min, max]`.
    /// A literal zero is returned without the range check.
    pub fn read_number(&mut self, min: i64, max: i64) -> (r: Result<i64, InputError>)
        requires
            old(self)@.wf(),
        ensures
            final(self)@.wf(),
            read_number_post(old(self)@.pulled(), min, max, final(self)@, r),
    {
        self.read();
        let ghost p = self@;
        if self.buffer.len() == 0 {
            return Err(InputError::UnexpectedEof { line: self.line, head: self.head });
        }
        proof {
            Self::lemma_pulled_head(old(self)@);
        }
        let c0 = self.buffer[self.head];
        if c0 == '0' {
            self.head = self.head + 1;
            if self.head < self.buffer.len() && self.buffer[self.head] as u32 >= 48
                && self.buffer[self.head] as u32 <= 57 {
                let err = Err(InputError::UnexpectedCharacter { line: self.line, head: self.head });
                proof {
                    assert(self@ =~~= with_head(p, p.head + 1));
                }
                return err;
            }
            proof {
                assert(self@ =~~= with_head(p, p.head + 1));
            }
            return Ok(0);
        }
        let ns = self.head;
        let mut neg = false;
        if c0 == '-' {
            self.head = self.head + 1;
            if self.head == self.buffer.len() {
                let err = Err(InputError::UnexpectedEoln { line: self.line, head: self.head });
                proof {
                    assert(self@ =~~= with_head(p, p.head + 1));
                }
                return err;
            }
            let c1 = self.buffer[self.head];
            if !(c1 as u32 >= 48 && c1 as u32 <= 57) || c1 == '0' {
                let err = Err(InputError::UnexpectedCharacter { line: self.line, head: self.head });
                proof {
                    assert(self@ =~~= with_head(p, p.head + 1));
                }
                return err;
            }
            neg = true;
        } else {
            if !(c0 as u32 >= 48 && c0 as u32 <= 57) {
                let err = Err(InputError::UnexpectedCharacter { line: self.line, head: self.head });
                proof {
                    assert(self@ =~~= p);
                }
                return err;
            }
        }
        let ds = self.head;
        let ghost b = p.buffer;
        let mut e: usize = ds;
        while e < self.buffer.len() && self.buffer[e] as u32 >= 48 && self.buffer[e] as u32 <= 57
            invariant
                ds <= e <= b.len(),
                self@.buffer == b,
                forall|k: int| ds <= k < e ==> is_digit(#[trigger] b[k]),
            decreases b.len() - e,
        {
            e = e + 1;
        }
        proof {
            lemma_digits_end_from(b, ds as int, e as int);
        }
        self.head = e;
        proof {
            assert(self@ =~~= with_head(p, e as int));
            if b[ds as int] as u32 == 48 {
                lemma_char_code_zero(b[ds as int]);
            }
            assert(digit_val(b[ds as int]) >= 1);
            lemma_digits_val_bounds(b, ds as int, e as int);
            lemma_pow10_19();
        }
        let ghost v = if neg { -digits_val(b, ds as int, e as int) } else {
            digits_val(b, ds as int, e as int)
        };
        if e - ds > 19 {
            proof {
                lemma_digits_val_lower(b, ds as int, e as int);
                lemma_pow10_mono(19, e - ds - 1);
            }
            return Err(self.make_range_error(ns, e, min, max));
        }
        let mut acc: u64 = 0;
        let mut k: usize = ds;
        while k < e
            invariant
                ds <= k <= e <= b.len(),
                e - ds <= 19,
                self@.buffer == b,
                forall|kk: int| ds <= kk < e ==> is_digit(#[trigger] b[kk]),
                acc == digits_val(b, ds as int, k as int),
            decreases e - k,
        {
            proof {
                lemma_digits_val_bounds(b, ds as int, k as int);
                lemma_pow10_mono(k - ds, 18);
                lemma_pow10_19();
                assert(acc < 1000000000000000000);
            }
            let d = (self.buffer[k] as u32 - 48) as u64;
            acc = acc * 10 + d;
            k = k + 1;
        }
        if neg {
            if acc > 9223372036854775808u64 {
                return Err(self.make_range_error(ns, e, min, max));
            }
            let value: i64 = (-(acc as i128)) as i64;
            if value < min || max < value {
                return Err(self.make_range_error(ns, e, min, max));
            }
            Ok(value)
        } else {
            if acc > 9223372036854775807u64 {
                return Err(self.make_range_error(ns, e, min, max));
            }
            let value: i64 = acc as i64;
            if value < min || max < value {
                return Err(self.make_range_error(ns, e, min, max));
            }
            Ok(value)
        }
    }
}

} // verus!
