use vstd::prelude::*;

verus! {

/// One token of the restricted pattern syntax. Escaped symbols are resolved
/// to plain `Char` tokens by the tokenizer; parentheses produce no token.
#[derive(Clone, Copy)]
pub enum RegexToken {
    Char(char),
    RepeatOp(char),
    Or(char),
    Bracket(char),
    Hyphen,
}

/// Mathematical model of a compiled automaton: one row of labelled edges per
/// state, an optional-skip marker on each state (`eps[j]` is an edge from `j`
/// to `j + 1` that consumes no symbol), and start / accept markers, all
/// indexed by state number.
#[verifier::ext_equal]
pub ghost struct RegexView {
    pub trans: Seq<Seq<(char, usize)>>,
    pub eps: Seq<bool>,
    pub start: Seq<bool>,
    pub accept: Seq<bool>,
}

/// Destination of the edge labelled `c` in `row`. The entry appended last
/// wins, so adding an edge overwrites an earlier edge with the same label.
pub open spec fn row_lookup(row: Seq<(char, usize)>, c: char) -> Option<usize>
    decreases row.len(),
{
    if row.len() == 0 {
        None
    } else if row.last().0 == c {
        Some(row.last().1)
    } else {
        row_lookup(row.drop_last(), c)
    }
}

impl RegexView {
    /// Number of states.
    pub open spec fn n(self) -> int {
        self.trans.len() as int
    }

    /// Shape invariant: all four tables range over the same states, at least
    /// one state exists, every edge leads to a state, and an optional-skip
    /// edge never leaves the last state.
    pub open spec fn wf(self) -> bool {
        &&& self.eps.len() == self.trans.len()
        &&& self.start.len() == self.trans.len()
        &&& self.accept.len() == self.trans.len()
        &&& self.trans.len() >= 1
        &&& forall|j: int, k: int|
            0 <= j < self.n() && 0 <= k < self.trans[j].len()
                ==> (#[trigger] self.trans[j][k]).1 < self.n()
        &&& forall|j: int| 0 <= j < self.n() && #[trigger] self.eps[j] ==> j + 1 < self.n()
    }

    /// Destination of the edge labelled `c` that leaves state `j`, if any.
    pub open spec fn edge(self, j: int, c: char) -> Option<usize> {
        row_lookup(self.trans[j], c)
    }

    /// State `k` can be reached from state `j` by optional-skip edges alone.
    pub open spec fn eps_reach(self, j: int, k: int) -> bool {
        0 <= j <= k < self.n() && (forall|m: int| j <= m < k ==> self.eps[m])
    }

    /// Epsilon closure of an active-state mask.
    pub open spec fn closure(self, dp: Seq<bool>) -> Seq<bool> {
        Seq::new(
            self.trans.len(),
            |k: int| exists|j: int| 0 <= j < self.n() && dp[j] && self.eps_reach(j, k),
        )
    }

    /// States reachable from some state active in `dp` by consuming `c`.
    pub open spec fn step(self, dp: Seq<bool>, c: char) -> Seq<bool> {
        Seq::new(
            self.trans.len(),
            |k: int| exists|j: int|
                0 <= j < self.n() && dp[j] && self.edge(j, c) == Some(k as usize),
        )
    }

    /// Active-state mask after simulating the automaton over all of `cs`,
    /// starting from the start states.
    pub open spec fn active(self, cs: Seq<char>) -> Seq<bool>
        decreases cs.len(),
    {
        if cs.len() == 0 {
            self.closure(self.start)
        } else {
            self.closure(self.step(self.active(cs.drop_last()), cs.last()))
        }
    }

    /// The automaton accepts exactly the symbol sequence `cs`.
    pub open spec fn accepted(self, cs: Seq<char>) -> bool {
        exists|j: int| 0 <= j < self.n() && self.active(cs)[j] && self.accept[j]
    }
}

/// `m` is the longest-match end offset for `s` from `start`: in bounds, the
/// consumed sub-sequence (if non-empty) is accepted, and no longer prefix is.
pub open spec fn is_match_end(a: RegexView, s: Seq<char>, start: int, m: int) -> bool {
    &&& start <= m <= s.len()
    &&& (m > start ==> a.accepted(s.subrange(start, m)))
    &&& (forall|k: int| m < k <= s.len() ==> !a.accepted(s.subrange(start, k)))
}

/// The longest-match end offset (it is unique).
pub open spec fn match_end(a: RegexView, s: Seq<char>, start: int) -> int {
    choose|m: int| is_match_end(a, s, start, m)
}

/// Two offsets that both satisfy the longest-match characterization agree.
pub proof fn lemma_match_end_unique(a: RegexView, s: Seq<char>, start: int, m1: int, m2: int)
    requires
        is_match_end(a, s, start, m1),
        is_match_end(a, s, start, m2),
    ensures
        m1 == m2,
{
    if m1 < m2 {
        assert(!a.accepted(s.subrange(start, m2)));
    } else if m2 < m1 {
        assert(!a.accepted(s.subrange(start, m1)));
    }
}

/// A pattern compiled to a nondeterministic automaton over `char` symbols.
pub struct SimpleRegex {
    trans: Vec<Vec<(char, usize)>>,
    eps: Vec<bool>,
    start: Vec<bool>,
    accept: Vec<bool>,
}

impl View for SimpleRegex {
    type V = RegexView;

    closed spec fn view(&self) -> RegexView {
        RegexView {
            trans: Seq::new(self.trans@.len(), |i: int| self.trans@[i]@),
            eps: self.eps@,
            start: self.start@,
            accept: self.accept@,
        }
    }
}

/// A successful lookup names an entry of the row.
proof fn lemma_row_lookup_in(row: Seq<(char, usize)>, c: char)
    ensures
        row_lookup(row, c) matches Some(k)
            ==> exists|idx: int| 0 <= idx < row.len() && row[idx] == (c, k),
    decreases row.len(),
{
    if row.len() > 0 {
        if row.last().0 == c {
            assert(row[row.len() - 1] == (c, row.last().1));
        } else {
            lemma_row_lookup_in(row.drop_last(), c);
            if row_lookup(row, c) is Some {
                let k = row_lookup(row, c)->Some_0;
                let idx = choose|idx: int|
                    0 <= idx < row.drop_last().len() && row.drop_last()[idx] == (c, k);
                assert(row[idx] == (c, k));
            }
        }
    }
}

/// How one pass index of the closure loop extends the reachable mask.
proof fn lemma_closure_step(a: RegexView, d: Seq<bool>, j: int)
    requires
        a.wf(),
        d.len() == a.trans.len(),
        0 <= j,
        j + 1 < a.n(),
    ensures
        a.closure(d)[j + 1] == (d[j + 1] || (a.closure(d)[j] && a.eps[j])),
{
    let n = a.n();
    if a.closure(d)[j + 1] {
        let j0 = choose|j0: int| 0 <= j0 < n && d[j0] && a.eps_reach(j0, j + 1);
        if j0 == j + 1 {
            assert(d[j + 1]);
        } else {
            assert(a.eps_reach(j0, j));
            assert(a.closure(d)[j]);
            assert(a.eps[j]);
        }
    }
    if d[j + 1] {
        assert(a.eps_reach(j + 1, j + 1));
        assert(a.closure(d)[j + 1]);
    }
    if a.closure(d)[j] && a.eps[j] {
        let j0 = choose|j0: int| 0 <= j0 < n && d[j0] && a.eps_reach(j0, j);
        assert(a.eps_reach(j0, j + 1));
        assert(a.closure(d)[j + 1]);
    }
}

/// Once the active set is empty it stays empty, so no longer prefix is
/// accepted.
proof fn lemma_inactive_extend(a: RegexView, s: Seq<char>, start: int, l: int, k: int)
    requires
        a.wf(),
        0 <= start <= l <= k <= s.len(),
        forall|j: int| 0 <= j < a.n() ==> !a.active(s.subrange(start, l))[j],
    ensures
        !a.accepted(s.subrange(start, k)),
        forall|j: int| 0 <= j < a.n() ==> !a.active(s.subrange(start, k))[j],
    decreases k - l,
{
    if k > l {
        lemma_inactive_extend(a, s, start, l, k - 1);
        let pre = s.subrange(start, k - 1);
        let cur = s.subrange(start, k);
        assert(cur.drop_last() =~= pre);
        assert(cur.last() == s[k - 1]);
        assert forall|j0: int| 0 <= j0 < a.n() implies !a.step(a.active(pre), cur.last())[j0] by {
            if a.step(a.active(pre), cur.last())[j0] {
                let j1 = choose|j1: int|
                    0 <= j1 < a.n() && a.active(pre)[j1]
                        && a.edge(j1, cur.last()) == Some(j0 as usize);
                assert(!a.active(pre)[j1]);
            }
        }
        assert forall|j: int| 0 <= j < a.n() implies !a.active(cur)[j] by {
            if a.active(cur)[j] {
                let j0 = choose|j0: int|
                    0 <= j0 < a.n() && a.step(a.active(pre), cur.last())[j0]
                        && a.eps_reach(j0, j);
            }
        }
    }
}

/// A mask of `n` states, all inactive.
fn false_mask(n: usize) -> (v: Vec<bool>)
    ensures
        v@.len() == n,
        forall|k: int| 0 <= k < n ==> !v@[k],
{
    let mut v: Vec<bool> = Vec::new();
    let mut i: usize = 0;
    while i < n
        invariant
            i <= n,
            v@.len() == i,
            forall|k: int| 0 <= k < i ==> !v@[k],
        decreases n - i,
    {
        v.push(false);
        i = i + 1;
    }
    v
}

/// Find the edge labelled `c` in a row, scanning so that the entry appended
/// last wins.
fn row_get(row: &Vec<(char, usize)>, c: char) -> (r: Option<usize>)
    ensures
        r == row_lookup(row@, c),
{
    let mut i: usize = row.len();
    proof {
        assert(row@.take(i as int) =~= row@);
    }
    while i > 0
        invariant
            i <= row@.len(),
            row_lookup(row@, c) == row_lookup(row@.take(i as int), c),
        decreases i,
    {
        i = i - 1;
        let e = row[i];
        proof {
            assert(row@.take(i + 1).drop_last() =~= row@.take(i as int));
            assert(row@.take(i + 1).last() == row@[i as int]);
        }
        if e.0 == c {
            return Some(e.1);
        }
    }
    None
}

/// Any state of the mask is active.
fn any_true(v: &Vec<bool>) -> (r: bool)
    ensures
        r == exists|j: int| 0 <= j < v@.len() && v@[j],
{
    let mut j: usize = 0;
    while j < v.len()
        invariant
            j <= v@.len(),
            forall|k: int| 0 <= k < j ==> !v@[k],
        decreases v@.len() - j,
    {
        if v[j] {
            proof {
                assert(v@[j as int]);
            }
            return true;
        }
        j = j + 1;
    }
    false
}

impl SimpleRegex {
    /// Extend a mask with every state reachable through optional-skip edges.
    fn close(&self, dp: &mut Vec<bool>)
        requires
            self@.wf(),
            old(dp)@.len() == self@.trans.len(),
        ensures
            final(dp)@ == self@.closure(old(dp)@),
    {
        let ghost a = self@;
        let ghost d0 = dp@;
        let n = self.eps.len();
        let mut j: usize = 0;
        while j < n
            invariant
                a == self@,
                a.wf(),
                d0.len() == a.trans.len(),
                n == a.trans.len(),
                j <= n,
                dp@.len() == d0.len(),
                forall|k: int| 0 <= k <= j && k < n ==> dp@[k] == a.closure(d0)[k],
                forall|k: int| j < k < n ==> dp@[k] == d0[k],
            decreases n - j,
        {
            proof {
                if j + 1 < n {
                    lemma_closure_step(a, d0, j as int);
                }
            }
            if dp[j] && self.eps[j] {
                dp[j + 1] = true;
            }
            j = j + 1;
        }
        proof {
            assert(dp@ =~= a.closure(d0));
        }
    }

    /// Compute the mask of states reachable by consuming `c` from `dp`.
    fn step_mask(&self, dp: &Vec<bool>, c: char) -> (nxt: Vec<bool>)
        requires
            self@.wf(),
            dp@.len() == self@.trans.len(),
        ensures
            nxt@ == self@.step(dp@, c),
    {
        let ghost a = self@;
        let n = self.trans.len();
        let mut nxt = false_mask(n);
        let mut j: usize = 0;
        while j < n
            invariant
                a == self@,
                a.wf(),
                dp@.len() == a.trans.len(),
                n == a.trans.len(),
                j <= n,
                nxt@.len() == n,
                forall|k: int| 0 <= k < n
                    ==> (nxt@[k] <==> exists|j0: int|
                        0 <= j0 < j && dp@[j0] && a.edge(j0, c) == Some(k as usize)),
            decreases n - j,
        {
            if dp[j] {
                proof {
                    assert(a.trans[j as int] == self.trans@[j as int]@);
                    lemma_row_lookup_in(a.trans[j as int], c);
                }
                match row_get(&self.trans[j], c) {
                    Some(k) => {
                        proof {
                            assert(a.edge(j as int, c) == Some(k));
                            let idx = choose|idx: int|
                                0 <= idx < a.trans[j as int].len()
                                    && a.trans[j as int][idx] == (c, k);
                            assert(k < n);
                        }
                        nxt[k] = true;
                    },
                    None => {},
                }
            }
            j = j + 1;
        }
        proof {
            assert(nxt@ =~= a.step(dp@, c));
        }
        nxt
    }

    /// Some active state of the mask is an accept state.
    fn any_accept(&self, v: &Vec<bool>) -> (r: bool)
        requires
            self@.wf(),
            v@.len() == self@.trans.len(),
        ensures
            r == exists|j: int| 0 <= j < self@.n() && v@[j] && self@.accept[j],
    {
        let mut j: usize = 0;
        while j < v.len()
            invariant
                v@.len() == self@.trans.len(),
                self@.wf(),
                j <= v@.len(),
                forall|k: int| 0 <= k < j ==> !(v@[k] && self@.accept[k]),
            decreases v@.len() - j,
        {
            if v[j] && self.accept[j] {
                proof {
                    assert(v@[j as int] && self@.accept[j as int]);
                }
                return true;
            }
            j = j + 1;
        }
        false
    }

    /// Longest-match simulation: the greatest end offset, at least `start`
    /// and at most `s.len()`, such that the consumed sub-sequence is
    /// accepted; `start` itself when no non-empty prefix is accepted.
    pub fn longest_match(&self, s: &[char], start: usize) -> (end: usize)
        requires
            self@.wf(),
            start <= s@.len(),
        ensures
            start <= end <= s@.len(),
            end > start ==> self@.accepted(s@.subrange(start as int, end as int)),
            forall|k: int| end < k <= s@.len()
                ==> !self@.accepted(s@.subrange(start as int, k)),
    {
        let ghost a = self@;
        let n = self.trans.len();
        let mut dp = false_mask(n);
        let mut j: usize = 0;
        while j < n
            invariant
                a == self@,
                a.wf(),
                n == a.trans.len(),
                j <= n,
                dp@.len() == n,
                forall|k: int| 0 <= k < n ==> dp@[k] == (k < j && a.start[k]),
            decreases n - j,
        {
            if self.start[j] {
                dp[j] = true;
            }
            j = j + 1;
        }
        proof {
            assert(dp@ =~= a.start);
        }
        self.close(&mut dp);
        proof {
            assert(s@.subrange(start as int, start as int) =~= Seq::<char>::empty());
            assert(dp@ == a.active(s@.subrange(start as int, start as int)));
        }
        let mut last: usize = start;
        let mut i: usize = start;
        while i < s.len()
            invariant
                a == self@,
                a.wf(),
                n == a.trans.len(),
                start <= i <= s@.len(),
                dp@.len() == n,
                dp@ == a.active(s@.subrange(start as int, i as int)),
                start <= last <= i,
                last > start ==> a.accepted(s@.subrange(start as int, last as int)),
                forall|k: int| last < k <= i ==> !a.accepted(s@.subrange(start as int, k)),
            decreases s@.len() - i,
        {
            let c = s[i];
            let mut nxt = self.step_mask(&dp, c);
            self.close(&mut nxt);
            proof {
                assert(s@.subrange(start as int, i + 1).drop_last()
                    =~= s@.subrange(start as int, i as int));
                assert(s@.subrange(start as int, i + 1).last() == s@[i as int]);
                assert(nxt@ == a.active(s@.subrange(start as int, i + 1)));
            }
            if !any_true(&nxt) {
                proof {
                    assert forall|k: int| last < k <= s@.len()
                        implies !a.accepted(s@.subrange(start as int, k)) by {
                        if k > i {
                            lemma_inactive_extend(a, s@, start as int, i + 1, k);
                        }
                    }
                }
                return last;
            }
            if self.any_accept(&nxt) {
                last = i + 1;
            }
            dp = nxt;
            i = i + 1;
        }
        last
    }
}

/// A Unicode scalar value: a code usable as a `char`.
pub open spec fn valid_scalar(cp: int) -> bool {
    (0 <= cp < 0xD800) || (0xE000 <= cp <= 0x10FFFF)
}

/// Relies on char::from_u32: `Some` exactly on Unicode scalar values, and the
/// returned character carries the given code.
pub assume_specification[ char::from_u32 ](cp: u32) -> (r: Option<char>)
    ensures
        match r {
            Some(c) => valid_scalar(cp as int) && c as u32 == cp,
            None => !valid_scalar(cp as int),
        },
;

/// The code of a symbol.
pub open spec fn code(c: char) -> int {
    (c as u32) as int
}

/// All symbols whose code lies in `[lo, hi]`, in increasing order.
pub open spec fn range_chars(lo: int, hi: int) -> Seq<char>
    decreases hi + 1 - lo,
{
    if lo > hi {
        Seq::empty()
    } else if valid_scalar(lo) {
        seq![((lo as u32) as char)] + range_chars(lo + 1, hi)
    } else {
        range_chars(lo + 1, hi)
    }
}

/// The inclusive range of a bracket class, `lo` through `hi`.
pub open spec fn char_range(lo: char, hi: char) -> Seq<char> {
    range_chars(code(lo), code(hi))
}

proof fn lemma_range_snoc(lo: int, hi: int)
    requires
        lo <= hi,
    ensures
        range_chars(lo, hi) =~= range_chars(lo, hi - 1) + (if valid_scalar(hi) {
            seq![((hi as u32) as char)]
        } else {
            Seq::<char>::empty()
        }),
    decreases hi - lo,
{
    if lo == hi {
        assert(range_chars(lo, hi - 1) =~= Seq::<char>::empty());
        assert(range_chars(lo + 1, hi) =~= Seq::<char>::empty());
    } else {
        lemma_range_snoc(lo + 1, hi);
    }
}

/// Append every symbol of the inclusive range `lo..=hi` to `chars`.
fn push_range(chars: &mut Vec<char>, lo: char, hi: char)
    ensures
        final(chars)@ == old(chars)@ + char_range(lo, hi),
{
    let ghost base = old(chars)@;
    let l: u32 = lo as u32;
    let h: u32 = hi as u32;
    if l > h {
        proof {
            assert(chars@ =~= base + char_range(lo, hi));
        }
        return;
    }
    let mut cp: u32 = l;
    proof {
        assert(chars@ =~= base + range_chars(l as int, cp as int - 1));
    }
    while cp <= h
        invariant
            l == lo as u32,
            h == hi as u32,
            l <= cp <= h + 1,
            chars@ == base + range_chars(l as int, cp as int - 1),
        decreases h + 1 - cp,
    {
        proof {
            lemma_range_snoc(l as int, cp as int);
        }
        match char::from_u32(cp) {
            Some(c) => {
                proof {
                    vstd::utf8::char_u32_cast(c, cp);
                }
                chars.push(c);
                proof {
                    assert(chars@ =~= base + range_chars(l as int, cp as int));
                }
            },
            None => {
                proof {
                    assert(chars@ =~= base + range_chars(l as int, cp as int));
                }
            },
        }
        cp = cp + 1;
    }
    proof {
        assert(chars@ =~= base + char_range(lo, hi));
    }
}

/// State of the tokenizer after reading a prefix of the pattern: the tokens
/// produced so far and whether a backslash is waiting for its symbol.
#[verifier::ext_equal]
pub ghost struct TokSt {
    pub toks: Seq<RegexToken>,
    pub esc: bool,
}

pub open spec fn tok_init() -> TokSt {
    TokSt { toks: Seq::empty(), esc: false }
}

/// How one pattern symbol extends the token stream.
pub open spec fn tok_step(st: TokSt, c: char) -> TokSt {
    if st.esc {
        TokSt { toks: st.toks.push(RegexToken::Char(c)), esc: false }
    } else if c == '\\' {
        TokSt { toks: st.toks, esc: true }
    } else if c == '-' {
        TokSt { toks: st.toks.push(RegexToken::Hyphen), esc: false }
    } else if c == '[' || c == ']' {
        TokSt { toks: st.toks.push(RegexToken::Bracket(c)), esc: false }
    } else if c == '(' || c == ')' {
        TokSt { toks: st.toks, esc: false }
    } else if c == '?' || c == '*' || c == '+' {
        TokSt { toks: st.toks.push(RegexToken::RepeatOp(c)), esc: false }
    } else if c == '|' {
        TokSt { toks: st.toks.push(RegexToken::Or(c)), esc: false }
    } else {
        TokSt { toks: st.toks.push(RegexToken::Char(c)), esc: false }
    }
}

pub open spec fn tok_fold(s: Seq<char>) -> TokSt
    decreases s.len(),
{
    if s.len() == 0 {
        tok_init()
    } else {
        tok_step(tok_fold(s.drop_last()), s.last())
    }
}

/// The token stream of a pattern string.
pub open spec fn spec_tokens(s: Seq<char>) -> Seq<RegexToken> {
    tok_fold(s).toks
}

/// State of the compiler after consuming a prefix of the token stream:
/// either between units, or holding the symbols of a finished unit that may
/// still receive a quantifier, or inside a bracket class (symbols gathered so
/// far, a symbol that may yet become the left end of a range, and whether a
/// range hyphen is pending), or failed on malformed input.
#[verifier::ext_equal]
pub ghost enum ModeV {
    Outside,
    Pending(Seq<char>),
    InClass(Seq<char>, Option<char>, bool),
    Failed,
}

#[verifier::ext_equal]
pub ghost struct BuildV {
    pub r: RegexView,
    pub mode: ModeV,
}

/// The labelled edges of a unit, all to the same destination.
pub open spec fn edge_pairs(chars: Seq<char>, dest: usize) -> Seq<(char, usize)> {
    Seq::new(chars.len(), |i: int| (chars[i], dest))
}

/// An unquantified unit: a fresh state, edges from the cursor to it.
pub open spec fn apply_one(r: RegexView, chars: Seq<char>) -> RegexView {
    let n = r.trans.len();
    RegexView {
        trans: r.trans.update(n - 1, r.trans[n - 1] + edge_pairs(chars, n as usize)).push(
            Seq::empty(),
        ),
        eps: r.eps.push(false),
        start: r.start.push(false),
        accept: r.accept.push(false),
    }
}

/// A `?`-quantified unit: as unquantified, plus an optional-skip edge.
pub open spec fn apply_opt(r: RegexView, chars: Seq<char>) -> RegexView {
    let n = r.trans.len();
    RegexView {
        trans: r.trans.update(n - 1, r.trans[n - 1] + edge_pairs(chars, n as usize)).push(
            Seq::empty(),
        ),
        eps: r.eps.update(n - 1, true).push(false),
        start: r.start.push(false),
        accept: r.accept.push(false),
    }
}

/// A `*`-quantified unit: self-loops on the cursor, no new state.
pub open spec fn apply_star(r: RegexView, chars: Seq<char>) -> RegexView {
    let n = r.trans.len();
    RegexView {
        trans: r.trans.update(n - 1, r.trans[n - 1] + edge_pairs(chars, (n - 1) as usize)),
        eps: r.eps,
        start: r.start,
        accept: r.accept,
    }
}

/// A `+`-quantified unit: a fresh state with edges into it and self-loops.
pub open spec fn apply_plus(r: RegexView, chars: Seq<char>) -> RegexView {
    let n = r.trans.len();
    RegexView {
        trans: r.trans.update(n - 1, r.trans[n - 1] + edge_pairs(chars, n as usize)).push(
            edge_pairs(chars, n as usize),
        ),
        eps: r.eps.push(false),
        start: r.start.push(false),
        accept: r.accept.push(false),
    }
}

/// A top-level alternation: the cursor accepts, and a brand-new state becomes
/// a further start state and the new cursor.
pub open spec fn apply_or(r: RegexView) -> RegexView {
    let n = r.trans.len();
    RegexView {
        trans: r.trans.push(Seq::empty()),
        eps: r.eps.push(false),
        start: r.start.push(true),
        accept: r.accept.update(n - 1, true).push(false),
    }
}

pub open spec fn build_init() -> BuildV {
    BuildV {
        r: RegexView {
            trans: seq![Seq::empty()],
            eps: seq![false],
            start: seq![true],
            accept: seq![false],
        },
        mode: ModeV::Outside,
    }
}

/// Apply a finished unit that received no quantifier.
pub open spec fn flush_pending(st: BuildV) -> BuildV {
    match st.mode {
        ModeV::Pending(chars) => BuildV { r: apply_one(st.r, chars), mode: ModeV::Outside },
        _ => st,
    }
}

pub open spec fn fail(st: BuildV) -> BuildV {
    BuildV { r: st.r, mode: ModeV::Failed }
}

/// One compiler step when no finished unit is waiting for a quantifier.
pub open spec fn step_base(st: BuildV, t: RegexToken) -> BuildV {
    match st.mode {
        ModeV::Failed => st,
        ModeV::Pending(_) => st,
        ModeV::Outside => match t {
            RegexToken::Char(c) => BuildV { r: st.r, mode: ModeV::Pending(seq![c]) },
            RegexToken::Bracket(b) => if b == '[' {
                BuildV { r: st.r, mode: ModeV::InClass(Seq::empty(), None, false) }
            } else {
                fail(st)
            },
            RegexToken::Or(o) => if o == '|' {
                BuildV { r: apply_or(st.r), mode: ModeV::Outside }
            } else {
                fail(st)
            },
            _ => fail(st),
        },
        ModeV::InClass(chars, prev, hyph) => match t {
            RegexToken::Char(c) => if hyph {
                match prev {
                    Some(p) => BuildV {
                        r: st.r,
                        mode: ModeV::InClass(chars + char_range(p, c), None, false),
                    },
                    None => fail(st),
                }
            } else {
                match prev {
                    Some(p) => BuildV {
                        r: st.r,
                        mode: ModeV::InClass(chars.push(p), Some(c), false),
                    },
                    None => BuildV { r: st.r, mode: ModeV::InClass(chars, Some(c), false) },
                }
            },
            RegexToken::Hyphen => if hyph {
                fail(st)
            } else {
                BuildV { r: st.r, mode: ModeV::InClass(chars, prev, true) }
            },
            RegexToken::Bracket(b) => if b == ']' && !hyph {
                BuildV {
                    r: st.r,
                    mode: ModeV::Pending(
                        match prev {
                            Some(p) => chars.push(p),
                            None => chars,
                        },
                    ),
                }
            } else {
                fail(st)
            },
            _ => fail(st),
        },
    }
}

/// One compiler step over a single token.
pub open spec fn build_step(st: BuildV, t: RegexToken) -> BuildV {
    match st.mode {
        ModeV::Pending(chars) => match t {
            RegexToken::RepeatOp(q) => if q == '?' {
                BuildV { r: apply_opt(st.r, chars), mode: ModeV::Outside }
            } else if q == '*' {
                BuildV { r: apply_star(st.r, chars), mode: ModeV::Outside }
            } else if q == '+' {
                BuildV { r: apply_plus(st.r, chars), mode: ModeV::Outside }
            } else {
                fail(st)
            },
            _ => step_base(flush_pending(st), t),
        },
        _ => step_base(st, t),
    }
}

pub open spec fn build_fold(toks: Seq<RegexToken>) -> BuildV
    decreases toks.len(),
{
    if toks.len() == 0 {
        build_init()
    } else {
        build_step(build_fold(toks.drop_last()), toks.last())
    }
}

/// The finished automaton: any waiting unit is applied, then the final
/// cursor state is marked accepting.
pub open spec fn finalize(st: BuildV) -> RegexView {
    let f = flush_pending(st);
    let n = f.r.trans.len();
    RegexView {
        trans: f.r.trans,
        eps: f.r.eps,
        start: f.r.start,
        accept: f.r.accept.update(n - 1, true),
    }
}

pub open spec fn spec_build(toks: Seq<RegexToken>) -> RegexView {
    finalize(build_fold(toks))
}

/// The token stream is well-formed: compilation never failed and did not end
/// inside a bracket class.
pub open spec fn tokens_ok(toks: Seq<RegexToken>) -> bool {
    match build_fold(toks).mode {
        ModeV::Outside => true,
        ModeV::Pending(_) => true,
        _ => false,
    }
}

/// The pattern string is well-formed: no trailing backslash, and its tokens
/// compile without a malformed class, stray hyphen or stray quantifier.
pub open spec fn pattern_ok(s: Seq<char>) -> bool {
    &&& !tok_fold(s).esc
    &&& tokens_ok(spec_tokens(s))
}

/// The automaton a pattern string compiles to.
pub open spec fn spec_regex(s: Seq<char>) -> RegexView {
    spec_build(spec_tokens(s))
}

proof fn lemma_apply_one_wf(r: RegexView, chars: Seq<char>)
    requires
        r.wf(),
    ensures
        apply_one(r, chars).wf(),
        apply_opt(r, chars).wf(),
        apply_plus(r, chars).wf(),
{
    let n = r.trans.len() as int;
    let row = r.trans[n - 1] + edge_pairs(chars, n as usize);
    assert forall|k: int| 0 <= k < row.len() implies (#[trigger] row[k]).1 < n + 1 by {
        if k < r.trans[n - 1].len() {
            assert(row[k] == r.trans[n - 1][k]);
        } else {
            assert(row[k] == (chars[k - r.trans[n - 1].len()], n as usize));
        }
    }
    let a1 = apply_one(r, chars);
    assert forall|j: int, k: int|
        0 <= j < a1.n() && 0 <= k < a1.trans[j].len() implies (#[trigger] a1.trans[j][k]).1
        < a1.n() by {
        if j < n - 1 {
            assert(a1.trans[j] == r.trans[j]);
        } else if j == n - 1 {
            assert(a1.trans[j] == row);
        }
    }
    let a2 = apply_opt(r, chars);
    assert forall|j: int, k: int|
        0 <= j < a2.n() && 0 <= k < a2.trans[j].len() implies (#[trigger] a2.trans[j][k]).1
        < a2.n() by {
        if j < n - 1 {
            assert(a2.trans[j] == r.trans[j]);
        } else if j == n - 1 {
            assert(a2.trans[j] == row);
        }
    }
    assert forall|j: int| 0 <= j < a2.n() && #[trigger] a2.eps[j] implies j + 1 < a2.n() by {
        if j < n - 1 {
            assert(a2.eps[j] == r.eps[j]);
        }
    }
    let a3 = apply_plus(r, chars);
    assert forall|j: int, k: int|
        0 <= j < a3.n() && 0 <= k < a3.trans[j].len() implies (#[trigger] a3.trans[j][k]).1
        < a3.n() by {
        if j < n - 1 {
            assert(a3.trans[j] == r.trans[j]);
        } else if j == n - 1 {
            assert(a3.trans[j] == row);
        } else {
            assert(a3.trans[j] == edge_pairs(chars, n as usize));
            assert(a3.trans[j][k] == (chars[k], n as usize));
        }
    }
}

proof fn lemma_apply_star_wf(r: RegexView, chars: Seq<char>)
    requires
        r.wf(),
    ensures
        apply_star(r, chars).wf(),
{
    let n = r.trans.len() as int;
    let row = r.trans[n - 1] + edge_pairs(chars, (n - 1) as usize);
    assert forall|k: int| 0 <= k < row.len() implies (#[trigger] row[k]).1 < n by {
        if k < r.trans[n - 1].len() {
            assert(row[k] == r.trans[n - 1][k]);
        } else {
            assert(row[k] == (chars[k - r.trans[n - 1].len()], (n - 1) as usize));
        }
    }
    let a = apply_star(r, chars);
    assert forall|j: int, k: int|
        0 <= j < a.n() && 0 <= k < a.trans[j].len() implies (#[trigger] a.trans[j][k]).1
        < a.n() by {
        if j < n - 1 {
            assert(a.trans[j] == r.trans[j]);
        } else {
            assert(a.trans[j] == row);
        }
    }
}

proof fn lemma_apply_or_wf(r: RegexView)
    requires
        r.wf(),
    ensures
        apply_or(r).wf(),
{
    let n = r.trans.len() as int;
    let a = apply_or(r);
    assert forall|j: int, k: int|
        0 <= j < a.n() && 0 <= k < a.trans[j].len() implies (#[trigger] a.trans[j][k]).1
        < a.n() by {
        if j < n {
            assert(a.trans[j] == r.trans[j]);
        }
    }
    assert forall|j: int| 0 <= j < a.n() && #[trigger] a.eps[j] implies j + 1 < a.n() by {
        if j < n {
            assert(a.eps[j] == r.eps[j]);
        }
    }
}

proof fn lemma_step_wf(st: BuildV, t: RegexToken)
    requires
        st.r.wf(),
    ensures
        build_step(st, t).r.wf(),
        flush_pending(st).r.wf(),
{
    match st.mode {
        ModeV::Pending(chars) => {
            lemma_apply_one_wf(st.r, chars);
            lemma_apply_star_wf(st.r, chars);
            match flush_pending(st).mode {
                ModeV::Outside => {
                    match t {
                        RegexToken::Or(o) => {
                            if o == '|' {
                                lemma_apply_or_wf(flush_pending(st).r);
                            }
                        },
                        _ => {},
                    }
                },
                _ => {},
            }
        },
        ModeV::Outside => {
            match t {
                RegexToken::Or(o) => {
                    if o == '|' {
                        lemma_apply_or_wf(st.r);
                    }
                },
                _ => {},
            }
        },
        _ => {},
    }
}

proof fn lemma_fold_wf(toks: Seq<RegexToken>)
    ensures
        build_fold(toks).r.wf(),
    decreases toks.len(),
{
    if toks.len() == 0 {
        let r0 = build_init().r;
        assert(r0.trans[0] == Seq::<(char, usize)>::empty());
        assert(!r0.eps[0]);
    } else {
        lemma_fold_wf(toks.drop_last());
        lemma_step_wf(build_fold(toks.drop_last()), toks.last());
    }
}

proof fn lemma_build_wf(toks: Seq<RegexToken>)
    ensures
        spec_build(toks).wf(),
{
    lemma_fold_wf(toks);
    let st = build_fold(toks);
    match st.mode {
        ModeV::Pending(chars) => {
            lemma_apply_one_wf(st.r, chars);
        },
        _ => {},
    }
}

/// Compiler state between tokens; the executable twin of `ModeV`.
enum BuildMode {
    Outside,
    Pending(Vec<char>),
    InClass(Vec<char>, Option<char>, bool),
    Failed,
}

spec fn mode_view(m: BuildMode) -> ModeV {
    match m {
        BuildMode::Outside => ModeV::Outside,
        BuildMode::Pending(v) => ModeV::Pending(v@),
        BuildMode::InClass(v, p, h) => ModeV::InClass(v@, p, h),
        BuildMode::Failed => ModeV::Failed,
    }
}

/// Append an edge to `dest` for every symbol of `chars`.
fn extend_edges(row: &mut Vec<(char, usize)>, chars: &Vec<char>, dest: usize)
    ensures
        final(row)@ == old(row)@ + edge_pairs(chars@, dest),
{
    let ghost base = old(row)@;
    let mut i: usize = 0;
    proof {
        assert(row@ =~= base + edge_pairs(chars@.take(0), dest));
    }
    while i < chars.len()
        invariant
            i <= chars@.len(),
            row@ == base + edge_pairs(chars@.take(i as int), dest),
        decreases chars@.len() - i,
    {
        let c = chars[i];
        row.push((c, dest));
        proof {
            assert(row@ =~= base + edge_pairs(chars@.take(i + 1), dest));
        }
        i = i + 1;
    }
    proof {
        assert(chars@.take(chars@.len() as int) =~= chars@);
    }
}

impl SimpleRegex {
    fn builder_init() -> (re: SimpleRegex)
        ensures
            re@ == build_init().r,
    {
        let re = SimpleRegex {
            trans: vec![Vec::new()],
            eps: vec![false],
            start: vec![true],
            accept: vec![false],
        };
        proof {
            assert(re@.trans =~~= build_init().r.trans);
            assert(re@ =~~= build_init().r);
        }
        re
    }

    fn apply_one_x(&mut self, chars: &Vec<char>)
        requires
            old(self)@.wf(),
        ensures
            final(self)@ == apply_one(old(self)@, chars@),
    {
        let ghost v0 = self@;
        let dest = self.trans.len();
        let mut row = self.trans.pop().unwrap();
        extend_edges(&mut row, chars, dest);
        self.trans.push(row);
        self.trans.push(Vec::new());
        self.eps.push(false);
        self.start.push(false);
        self.accept.push(false);
        proof {
            assert(self@.trans =~~= apply_one(v0, chars@).trans);
            assert(self@ =~~= apply_one(v0, chars@));
        }
    }

    fn apply_opt_x(&mut self, chars: &Vec<char>)
        requires
            old(self)@.wf(),
        ensures
            final(self)@ == apply_opt(old(self)@, chars@),
    {
        let ghost v0 = self@;
        let dest = self.trans.len();
        let mut row = self.trans.pop().unwrap();
        extend_edges(&mut row, chars, dest);
        self.trans.push(row);
        self.trans.push(Vec::new());
        let idx = self.eps.len() - 1;
        self.eps[idx] = true;
        self.eps.push(false);
        self.start.push(false);
        self.accept.push(false);
        proof {
            assert(self@.trans =~~= apply_opt(v0, chars@).trans);
            assert(self@.eps =~= apply_opt(v0, chars@).eps);
            assert(self@ =~~= apply_opt(v0, chars@));
        }
    }

    fn apply_star_x(&mut self, chars: &Vec<char>)
        requires
            old(self)@.wf(),
        ensures
            final(self)@ == apply_star(old(self)@, chars@),
    {
        let ghost v0 = self@;
        let dest = self.trans.len() - 1;
        let mut row = self.trans.pop().unwrap();
        extend_edges(&mut row, chars, dest);
        self.trans.push(row);
        proof {
            assert(self@.trans =~~= apply_star(v0, chars@).trans);
            assert(self@ =~~= apply_star(v0, chars@));
        }
    }

    fn apply_plus_x(&mut self, chars: &Vec<char>)
        requires
            old(self)@.wf(),
        ensures
            final(self)@ == apply_plus(old(self)@, chars@),
    {
        let ghost v0 = self@;
        let dest = self.trans.len();
        let mut row = self.trans.pop().unwrap();
        extend_edges(&mut row, chars, dest);
        self.trans.push(row);
        let mut loop_row: Vec<(char, usize)> = Vec::new();
        extend_edges(&mut loop_row, chars, dest);
        self.trans.push(loop_row);
        self.eps.push(false);
        self.start.push(false);
        self.accept.push(false);
        proof {
            assert(loop_row@ =~= edge_pairs(chars@, dest));
            assert(self@.trans =~~= apply_plus(v0, chars@).trans);
            assert(self@ =~~= apply_plus(v0, chars@));
        }
    }

    fn apply_or_x(&mut self)
        requires
            old(self)@.wf(),
        ensures
            final(self)@ == apply_or(old(self)@),
    {
        let ghost v0 = self@;
        let idx = self.accept.len() - 1;
        self.accept[idx] = true;
        self.trans.push(Vec::new());
        self.eps.push(false);
        self.start.push(true);
        self.accept.push(false);
        proof {
            assert(self@.trans =~~= apply_or(v0).trans);
            assert(self@.accept =~= apply_or(v0).accept);
            assert(self@ =~~= apply_or(v0));
        }
    }
}

/// One compiler step outside the quantifier lookahead; mirrors `step_base`.
fn base_step(re: &mut SimpleRegex, mode: BuildMode, t: RegexToken) -> (m2: BuildMode)
    requires
        old(re)@.wf(),
    ensures
        final(re)@ == step_base((BuildV { r: old(re)@, mode: mode_view(mode) }), t).r,
        mode_view(m2) == step_base((BuildV { r: old(re)@, mode: mode_view(mode) }), t).mode,
{
    match (mode, t) {
        (BuildMode::Outside, RegexToken::Char(c)) => {
            let unit = vec![c];
            proof {
                assert(unit@ =~= seq![c]);
            }
            BuildMode::Pending(unit)
        },
        (BuildMode::Outside, RegexToken::Bracket(b)) => {
            if b == '[' {
                let empty_chars: Vec<char> = Vec::new();
                proof {
                    assert(empty_chars@ =~= Seq::<char>::empty());
                }
                BuildMode::InClass(empty_chars, None, false)
            } else {
                BuildMode::Failed
            }
        },
        (BuildMode::Outside, RegexToken::Or(o)) => {
            if o == '|' {
                re.apply_or_x();
                BuildMode::Outside
            } else {
                BuildMode::Failed
            }
        },
        (BuildMode::Outside, _) => BuildMode::Failed,
        (BuildMode::InClass(mut chars, prev, hyph), RegexToken::Char(c)) => {
            if hyph {
                match prev {
                    Some(p) => {
                        push_range(&mut chars, p, c);
                        BuildMode::InClass(chars, None, false)
                    },
                    None => BuildMode::Failed,
                }
            } else {
                match prev {
                    Some(p) => {
                        chars.push(p);
                        BuildMode::InClass(chars, Some(c), false)
                    },
                    None => BuildMode::InClass(chars, Some(c), false),
                }
            }
        },
        (BuildMode::InClass(chars, prev, hyph), RegexToken::Hyphen) => {
            if hyph {
                BuildMode::Failed
            } else {
                BuildMode::InClass(chars, prev, true)
            }
        },
        (BuildMode::InClass(mut chars, prev, hyph), RegexToken::Bracket(b)) => {
            if b == ']' && !hyph {
                match prev {
                    Some(p) => {
                        chars.push(p);
                    },
                    None => {},
                }
                BuildMode::Pending(chars)
            } else {
                BuildMode::Failed
            }
        },
        (BuildMode::InClass(..), _) => BuildMode::Failed,
        (BuildMode::Pending(chars), _) => BuildMode::Pending(chars),
        (BuildMode::Failed, _) => BuildMode::Failed,
    }
}

impl SimpleRegex {
    /// Tokenize a pattern string; escapes resolve to literal tokens and
    /// parentheses are dropped. Also reports whether a backslash was left
    /// waiting for its symbol at the end.
    fn parse_into_token(regex: &str) -> (r: (Vec<RegexToken>, bool))
        ensures
            r.0@ == spec_tokens(regex@),
            r.1 == tok_fold(regex@).esc,
    {
        let n = regex.unicode_len();
        let mut toks: Vec<RegexToken> = Vec::new();
        let mut esc = false;
        let mut i: usize = 0;
        proof {
            assert(regex@.take(0) =~= Seq::<char>::empty());
        }
        while i < n
            invariant
                n == regex@.len(),
                i <= n,
                toks@ == tok_fold(regex@.take(i as int)).toks,
                esc == tok_fold(regex@.take(i as int)).esc,
            decreases n - i,
        {
            let c = regex.get_char(i);
            proof {
                assert(regex@.take(i + 1).drop_last() =~= regex@.take(i as int));
                assert(regex@.take(i + 1).last() == regex@[i as int]);
            }
            if esc {
                toks.push(RegexToken::Char(c));
                esc = false;
            } else if c == '\\' {
                esc = true;
            } else if c == '-' {
                toks.push(RegexToken::Hyphen);
            } else if c == '[' || c == ']' {
                toks.push(RegexToken::Bracket(c));
            } else if c == '(' || c == ')' {
            } else if c == '?' || c == '*' || c == '+' {
                toks.push(RegexToken::RepeatOp(c));
            } else if c == '|' {
                toks.push(RegexToken::Or(c));
            } else {
                toks.push(RegexToken::Char(c));
            }
            i = i + 1;
        }
        proof {
            assert(regex@.take(n as int) =~= regex@);
        }
        (toks, esc)
    }

    /// Compile a token stream by a single left-to-right pass, one cursor
    /// state, as `spec_build` states. Also reports whether the stream was
    /// well-formed.
    fn construct_automaton(tokens: &Vec<RegexToken>) -> (r: (SimpleRegex, bool))
        ensures
            r.0@ == spec_build(tokens@),
            r.0@.wf(),
            r.1 == tokens_ok(tokens@),
    {
        let mut re = Self::builder_init();
        let mut mode = BuildMode::Outside;
        let mut i: usize = 0;
        proof {
            assert(tokens@.take(0) =~= Seq::<RegexToken>::empty());
        }
        while i < tokens.len()
            invariant
                i <= tokens@.len(),
                re@ == build_fold(tokens@.take(i as int)).r,
                mode_view(mode) == build_fold(tokens@.take(i as int)).mode,
                re@.wf(),
            decreases tokens@.len() - i,
        {
            let t = tokens[i];
            let ghost st = build_fold(tokens@.take(i as int));
            proof {
                assert(tokens@.take(i + 1).drop_last() =~= tokens@.take(i as int));
                assert(tokens@.take(i + 1).last() == tokens@[i as int]);
                lemma_step_wf(st, t);
            }
            mode = match (mode, t) {
                (BuildMode::Failed, _) => BuildMode::Failed,
                (BuildMode::Pending(chars), RegexToken::RepeatOp(q)) => {
                    if q == '?' {
                        re.apply_opt_x(&chars);
                        BuildMode::Outside
                    } else if q == '*' {
                        re.apply_star_x(&chars);
                        BuildMode::Outside
                    } else if q == '+' {
                        re.apply_plus_x(&chars);
                        BuildMode::Outside
                    } else {
                        BuildMode::Failed
                    }
                },
                (BuildMode::Pending(chars), t2) => {
                    re.apply_one_x(&chars);
                    base_step(&mut re, BuildMode::Outside, t2)
                },
                (m, t2) => base_step(&mut re, m, t2),
            };
            i = i + 1;
        }
        proof {
            assert(tokens@.take(tokens@.len() as int) =~= tokens@);
        }
        let ok = matches!(mode, BuildMode::Outside | BuildMode::Pending(_));
        mode = match mode {
            BuildMode::Pending(chars) => {
                re.apply_one_x(&chars);
                BuildMode::Outside
            },
            other => other,
        };
        let idx = re.accept.len() - 1;
        re.accept[idx] = true;
        proof {
            lemma_build_wf(tokens@);
            assert(re@ =~~= spec_build(tokens@));
        }
        (re, ok)
    }

    /// Compile the restricted pattern syntax: literals, `\`-escapes, bracket
    /// classes with hyphen ranges, `?` `*` `+` quantifiers, `|` top-level
    /// alternation; parentheses are inert.
    pub fn new(regex: &str) -> (re: SimpleRegex)
        requires
            pattern_ok(regex@),
        ensures
            re@ == spec_regex(regex@),
            re@.wf(),
    {
        let (tokens, _) = Self::parse_into_token(regex);
        let (re, _) = Self::construct_automaton(&tokens);
        re
    }

    /// Whether a pattern string is well-formed, so that `new` may compile it:
    /// no trailing backslash, no malformed bracket class, no stray hyphen and
    /// no quantifier without a unit before it.
    pub fn pattern_is_ok(regex: &str) -> (b: bool)
        ensures
            b == pattern_ok(regex@),
    {
        let (tokens, esc) = Self::parse_into_token(regex);
        let (_, ok) = Self::construct_automaton(&tokens);
        !esc && ok
    }
}

} // verus!
