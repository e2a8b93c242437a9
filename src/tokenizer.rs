//! Splitting a command line into shell words.
//!
//! The scanner is a small state machine: it reads the line one character at a
//! time, in one of three modes, and keeps the word being built in a pending
//! buffer. Outside quotes, blanks end a word; a backslash takes the next
//! character literally; quoted and unquoted runs that touch join into one
//! word. Malformed input never fails: an unterminated quote or a trailing
//! backslash just ends the scan.
use vstd::prelude::*;

use crate::text::{chars_of, string_of_range, strings_view};

verus! {

/// Where the scanner stands with respect to quotes.
#[derive(Clone, Copy, Debug, PartialEq, Eq, Structural)]
pub enum Mode {
    Bare,
    SingleQuoted,
    DoubleQuoted,
}

/// The abstract state of a scan: the mode, whether the previous character
/// was an escaping backslash, the words finished so far, and the pending
/// word.
pub struct ScanState {
    pub mode: Mode,
    pub escaped: bool,
    pub words: Seq<Seq<char>>,
    pub pending: Seq<char>,
}

/// The characters that separate words and are trimmed from their ends: the
/// Unicode `White_Space` set, as `char::is_whitespace` has it.
pub open spec fn blank(c: char) -> bool {
    let u = c as u32;
    (0x09 <= u && u <= 0x0D) || u == 0x20 || u == 0x85 || u == 0xA0 || u == 0x1680 || (0x2000
        <= u && u <= 0x200A) || u == 0x2028 || u == 0x2029 || u == 0x202F || u == 0x205F || u
        == 0x3000
}

/// The characters that a backslash escapes inside double quotes.
pub open spec fn dq_escapable(c: char) -> bool {
    c == '$' || c == '`' || c == '"' || c == '\\'
}

/// `s` without its leading blanks.
pub open spec fn trim_start(s: Seq<char>) -> Seq<char>
    decreases s.len(),
{
    if s.len() > 0 && blank(s[0]) {
        trim_start(s.drop_first())
    } else {
        s
    }
}

/// `s` without its trailing blanks.
pub open spec fn trim_end(s: Seq<char>) -> Seq<char>
    decreases s.len(),
{
    if s.len() > 0 && blank(s.last()) {
        trim_end(s.drop_last())
    } else {
        s
    }
}

/// `s` without blanks at either end.
pub open spec fn trim(s: Seq<char>) -> Seq<char> {
    trim_end(trim_start(s))
}

pub open spec fn initial_state() -> ScanState {
    ScanState { mode: Mode::Bare, escaped: false, words: seq![], pending: seq![] }
}

/// Ends the pending word: it is kept, trimmed, unless nothing but blanks
/// remain of it.
pub open spec fn flush(st: ScanState) -> ScanState {
    let w = trim(st.pending);
    ScanState {
        words: if w.len() > 0 { st.words.push(w) } else { st.words },
        pending: seq![],
        ..st
    }
}

/// One transition of the scanner on the character `c`.
pub open spec fn step(st: ScanState, c: char) -> ScanState {
    match st.mode {
        Mode::Bare => {
            if st.escaped {
                ScanState { escaped: false, pending: st.pending.push(c), ..st }
            } else if c == '\\' {
                ScanState { escaped: true, ..st }
            } else if c == '\'' {
                ScanState { mode: Mode::SingleQuoted, ..st }
            } else if c == '"' {
                ScanState { mode: Mode::DoubleQuoted, ..st }
            } else if blank(c) {
                flush(st)
            } else {
                ScanState { pending: st.pending.push(c), ..st }
            }
        },
        Mode::SingleQuoted => {
            if c == '\'' {
                ScanState { mode: Mode::Bare, ..st }
            } else {
                ScanState { pending: st.pending.push(c), ..st }
            }
        },
        Mode::DoubleQuoted => {
            if st.escaped {
                if dq_escapable(c) {
                    ScanState { escaped: false, pending: st.pending.push(c), ..st }
                } else {
                    ScanState { escaped: false, pending: st.pending.push('\\').push(c), ..st }
                }
            } else if c == '\\' {
                ScanState { escaped: true, ..st }
            } else if c == '"' {
                ScanState { mode: Mode::Bare, ..st }
            } else {
                ScanState { pending: st.pending.push(c), ..st }
            }
        },
    }
}

/// The state after scanning all of `line` from the initial state.
pub open spec fn scan(line: Seq<char>) -> ScanState
    decreases line.len(),
{
    if line.len() == 0 {
        initial_state()
    } else {
        step(scan(line.drop_last()), line.last())
    }
}

/// The words of `line`: the finished words once the last one is flushed.
pub open spec fn tokenize(line: Seq<char>) -> Seq<Seq<char>> {
    flush(scan(line)).words
}

proof fn lemma_blank_prefix_scans_to_initial(line: Seq<char>)
    requires
        forall|i: int| 0 <= i < line.len() ==> blank(#[trigger] line[i]),
    ensures
        scan(line) == initial_state(),
    decreases line.len(),
{
    if line.len() > 0 {
        lemma_blank_prefix_scans_to_initial(line.drop_last());
        assert(blank(line[line.len() - 1]));
        assert(trim(seq![]) == Seq::<char>::empty());
    }
}

/// A line made of blanks alone has no words.
pub proof fn lemma_blank_line_has_no_words(line: Seq<char>)
    requires
        forall|i: int| 0 <= i < line.len() ==> blank(#[trigger] line[i]),
    ensures
        tokenize(line) == Seq::<Seq<char>>::empty(),
{
    lemma_blank_prefix_scans_to_initial(line);
    assert(trim(seq![]) == Seq::<char>::empty());
}

pub fn is_blank(c: char) -> (r: bool)
    ensures
        r == blank(c),
{
    let u = c as u32;
    (0x09 <= u && u <= 0x0D) || u == 0x20 || u == 0x85 || u == 0xA0 || u == 0x1680 || (0x2000
        <= u && u <= 0x200A) || u == 0x2028 || u == 0x2029 || u == 0x202F || u == 0x205F || u
        == 0x3000
}

/// The scanner that runs the state machine over a line.
pub struct Tokenizer {
    mode: Mode,
    escaped: bool,
    words: Vec<String>,
    pending: Vec<char>,
}

impl View for Tokenizer {
    type V = ScanState;

    closed spec fn view(&self) -> ScanState {
        ScanState {
            mode: self.mode,
            escaped: self.escaped,
            words: strings_view(self.words@),
            pending: self.pending@,
        }
    }
}

proof fn lemma_trim_start_at(s: Seq<char>, k: int)
    requires
        0 <= k <= s.len(),
        forall|j: int| 0 <= j < k ==> blank(#[trigger] s[j]),
        k == s.len() || !blank(s[k]),
    ensures
        trim_start(s) == s.skip(k),
    decreases k,
{
    if k > 0 {
        assert(s.drop_first().skip(k - 1) == s.skip(k));
        assert forall|j: int| 0 <= j < k - 1 implies blank(#[trigger] s.drop_first()[j]) by {
            assert(blank(s[j + 1]));
        }
        lemma_trim_start_at(s.drop_first(), k - 1);
    } else {
        assert(s.skip(0) == s);
    }
}

proof fn lemma_trim_end_at(s: Seq<char>, k: int)
    requires
        0 <= k <= s.len(),
        forall|j: int| k <= j < s.len() ==> blank(#[trigger] s[j]),
        k == 0 || !blank(s[k - 1]),
    ensures
        trim_end(s) == s.take(k),
    decreases s.len() - k,
{
    if k < s.len() {
        assert(s.drop_last().take(k) == s.take(k));
        lemma_trim_end_at(s.drop_last(), k);
    } else {
        assert(s.take(k) == s);
    }
}

impl Tokenizer {
    pub fn new() -> (r: Tokenizer)
        ensures
            r@ == initial_state(),
    {
        let r = Tokenizer { mode: Mode::Bare, escaped: false, words: Vec::new(), pending: Vec::new() };
        assert(r@.words =~= seq![]);
        r
    }

    fn flush_pending(&mut self)
        ensures
            final(self)@ == flush(old(self)@),
    {
        let n = self.pending.len();
        let mut lo: usize = 0;
        while lo < n && is_blank(self.pending[lo])
            invariant
                n == self.pending.len(),
                lo <= n,
                forall|j: int| 0 <= j < lo ==> blank(#[trigger] self.pending@[j]),
            decreases n - lo,
        {
            lo = lo + 1;
        }
        let mut hi: usize = n;
        while hi > lo && is_blank(self.pending[hi - 1])
            invariant
                n == self.pending.len(),
                lo <= hi <= n,
                forall|j: int| hi <= j < n ==> blank(#[trigger] self.pending@[j]),
            decreases hi,
        {
            hi = hi - 1;
        }
        proof {
            let p = self.pending@;
            lemma_trim_start_at(p, lo as int);
            let q = p.skip(lo as int);
            assert forall|j: int| hi - lo <= j < q.len() implies blank(#[trigger] q[j]) by {
                assert(q[j] == p[j + lo]);
            }
            if hi > lo {
                assert(q[hi - lo - 1] == p[hi - 1]);
            }
            lemma_trim_end_at(q, hi - lo);
            assert(q.take(hi - lo) == p.subrange(lo as int, hi as int));
        }
        if lo < hi {
            let w = string_of_range(&self.pending, lo, hi);
            let ghost before = self.words@;
            self.words.push(w);
            assert(strings_view(self.words@) =~= strings_view(before).push(w@));
        }
        self.pending = Vec::new();
        assert(self@.pending =~= seq![]);
    }

    /// Feeds one character to the scanner.
    pub fn feed(&mut self, c: char)
        ensures
            final(self)@ == step(old(self)@, c),
    {
        match self.mode {
            Mode::Bare => {
                if self.escaped {
                    self.escaped = false;
                    self.pending.push(c);
                } else if c == '\\' {
                    self.escaped = true;
                } else if c == '\'' {
                    self.mode = Mode::SingleQuoted;
                } else if c == '"' {
                    self.mode = Mode::DoubleQuoted;
                } else if is_blank(c) {
                    self.flush_pending();
                } else {
                    self.pending.push(c);
                }
            },
            Mode::SingleQuoted => {
                if c == '\'' {
                    self.mode = Mode::Bare;
                } else {
                    self.pending.push(c);
                }
            },
            Mode::DoubleQuoted => {
                if self.escaped {
                    self.escaped = false;
                    if !(c == '$' || c == '`' || c == '"' || c == '\\') {
                        self.pending.push('\\');
                    }
                    self.pending.push(c);
                } else if c == '\\' {
                    self.escaped = true;
                } else if c == '"' {
                    self.mode = Mode::Bare;
                } else {
                    self.pending.push(c);
                }
            },
        }
    }

    /// Ends the scan and returns the words found.
    pub fn finish(self) -> (r: Vec<String>)
        ensures
            strings_view(r@) == flush(self@).words,
    {
        let mut t = self;
        t.flush_pending();
        t.words
    }
}

/// Splits a command line into its words, with the quoting and escaping rules
/// of the scanner above. Never fails.
pub fn parse_shell_command_params(s: &str) -> (r: Vec<String>)
    ensures
        strings_view(r@) == tokenize(s@),
{
    let chars = chars_of(s);
    let mut t = Tokenizer::new();
    for i in 0..chars.len()
        invariant
            chars@ == s@,
            t@ == scan(s@.take(i as int)),
    {
        t.feed(chars[i]);
        proof {
            let pre = s@.take(i + 1);
            assert(pre.drop_last() == s@.take(i as int));
        }
    }
    assert(s@.take(chars.len() as int) == s@);
    t.finish()
}

} // verus!
