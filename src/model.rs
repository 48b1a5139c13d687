//! The mathematical model of scanning: where trivia ends, how far a token runs,
//! what a quoted string decodes to, and the outcome of each primitive scan.
use vstd::prelude::*;
use crate::chars::{whitespace_char, symbol_head, symbol_tail, number_head, number_tail, numeric_char, escaped};

verus! {

/// A cursor as a value: the whole indexed sequence and the index of the first
/// unconsumed pair.
pub ghost struct InputView {
    pub items: Seq<(usize, char)>,
    pub pos: nat,
}

impl InputView {
    /// The unconsumed suffix.
    pub open spec fn rest(self) -> Seq<(usize, char)> {
        self.items.skip(self.pos as int)
    }
}

/// Where trivia skipping started at index `i`, inside `depth` open comments,
/// comes to rest; `None` when the input ends inside a comment.
pub open spec fn trivia_end(s: Seq<(usize, char)>, i: int, depth: nat) -> Option<int>
    decreases s.len() - i,
{
    if i < 0 || i >= s.len() {
        if depth > 0 { None } else { Some(i) }
    } else if i + 1 < s.len() && s[i].1 == '/' && s[i + 1].1 == '*' {
        trivia_end(s, i + 2, depth + 1)
    } else if depth > 0 && i + 1 < s.len() && s[i].1 == '*' && s[i + 1].1 == '/' {
        trivia_end(s, i + 2, (depth - 1) as nat)
    } else if depth > 0 {
        trivia_end(s, i + 1, depth)
    } else if whitespace_char(s[i].1) {
        trivia_end(s, i + 1, 0)
    } else {
        Some(i)
    }
}

/// Where trivia skipping from index `i` outside any comment comes to rest.
pub open spec fn skip_trivia(s: Seq<(usize, char)>, i: int) -> Option<int> {
    trivia_end(s, i, 0)
}

/// Index `i` holds neither whitespace nor the start of a comment.
pub open spec fn at_token(s: Seq<(usize, char)>, i: int) -> bool {
    0 <= i <= s.len() && (i == s.len() || (!whitespace_char(s[i].1) && !(i + 1 < s.len()
        && s[i].1 == '/' && s[i + 1].1 == '*')))
}

/// Skipping trivia always stops in front of a token or at the end of input.
pub proof fn lemma_trivia_end_at_token(s: Seq<(usize, char)>, i: int, depth: nat)
    requires
        0 <= i <= s.len(),
        trivia_end(s, i, depth) is Some,
    ensures
        i <= trivia_end(s, i, depth)->0,
        at_token(s, trivia_end(s, i, depth)->0),
    decreases s.len() - i,
{
    if i < s.len() {
        if i + 1 < s.len() && s[i].1 == '/' && s[i + 1].1 == '*' {
            lemma_trivia_end_at_token(s, i + 2, depth + 1);
        } else if depth > 0 && i + 1 < s.len() && s[i].1 == '*' && s[i + 1].1 == '/' {
            lemma_trivia_end_at_token(s, i + 2, (depth - 1) as nat);
        } else if depth > 0 {
            lemma_trivia_end_at_token(s, i + 1, depth);
        } else if whitespace_char(s[i].1) {
            lemma_trivia_end_at_token(s, i + 1, 0);
        }
    }
}

/// In front of a token there is no trivia to skip.
pub proof fn lemma_skip_at_token(s: Seq<(usize, char)>, i: int)
    requires
        at_token(s, i),
    ensures
        skip_trivia(s, i) == Some(i),
{
}

/// Skipping trivia twice in a row ends where skipping once does.
pub proof fn lemma_skip_trivia_idempotent(s: Seq<(usize, char)>, i: int)
    requires
        0 <= i <= s.len(),
        skip_trivia(s, i) is Some,
    ensures
        skip_trivia(s, skip_trivia(s, i)->0) == skip_trivia(s, i),
{
    lemma_trivia_end_at_token(s, i, 0);
    lemma_skip_at_token(s, skip_trivia(s, i)->0);
}

/// The characters of the pairs at indices `a` up to `b`, exclusive.
pub open spec fn chars_of(s: Seq<(usize, char)>, a: int, b: int) -> Seq<char> {
    s.subrange(a, b).map_values(|p: (usize, char)| p.1)
}

/// The index where the run of symbol characters that starts at `i` ends.
pub open spec fn symbol_run(s: Seq<(usize, char)>, i: int) -> int
    decreases s.len() - i,
{
    if 0 <= i < s.len() && symbol_tail(s[i].1) {
        symbol_run(s, i + 1)
    } else {
        i
    }
}

/// The index where the run of number characters that starts at `i` ends.
pub open spec fn number_run(s: Seq<(usize, char)>, i: int) -> int
    decreases s.len() - i,
{
    if 0 <= i < s.len() && number_tail(s[i].1) {
        number_run(s, i + 1)
    } else {
        i
    }
}

/// How the body of a quoted string ends.
pub ghost enum Quoted {
    /// At the closing quote at index `close`, having decoded `value`.
    Closed { close: int, value: Seq<char> },
    /// The input ran out first.
    Eof,
    /// An unknown escape character stands at index `at`.
    BadEscape { at: int },
}

/// Decodes the body of a quoted string from index `i`, after a backslash when
/// `esc`, with `acc` decoded so far.
pub open spec fn decode_quoted(s: Seq<(usize, char)>, i: int, esc: bool, acc: Seq<char>) -> Quoted
    decreases s.len() - i,
{
    if i < 0 || i >= s.len() {
        Quoted::Eof
    } else if esc {
        match escaped(s[i].1) {
            Some(d) => decode_quoted(s, i + 1, false, acc.push(d)),
            None => Quoted::BadEscape { at: i },
        }
    } else if s[i].1 == '\\' {
        decode_quoted(s, i + 1, true, acc)
    } else if s[i].1 == '"' {
        Quoted::Closed { close: i, value: acc }
    } else {
        decode_quoted(s, i + 1, false, acc.push(s[i].1))
    }
}

/// The outcome of a primitive scan, with the cursor's index afterwards.
pub ghost enum Scan {
    /// A token was consumed.
    Done { pos: int, start: usize, end: usize, value: Seq<char> },
    /// The input ran out.
    Eof { pos: int },
    /// The character with offset `offset` did not fit.
    At { pos: int, offset: usize },
}

/// A token consumed from index `j` up to index `e`, exclusive.
pub open spec fn token(s: Seq<(usize, char)>, j: int, e: int) -> Scan {
    Scan::Done { pos: e, start: s[j].0, end: s[e - 1].0, value: chars_of(s, j, e) }
}

/// Scanning a symbol from index `p`.
pub open spec fn symbol_scan(s: Seq<(usize, char)>, p: int) -> Scan {
    match skip_trivia(s, p) {
        None => Scan::Eof { pos: p },
        Some(j) => if j >= s.len() {
            Scan::Eof { pos: j }
        } else if !symbol_head(s[j].1) {
            Scan::At { pos: j, offset: s[j].0 }
        } else {
            token(s, j, symbol_run(s, j + 1))
        },
    }
}

/// Scanning a number from index `p`.
pub open spec fn number_scan(s: Seq<(usize, char)>, p: int) -> Scan {
    match skip_trivia(s, p) {
        None => Scan::Eof { pos: p },
        Some(j) => if j >= s.len() {
            Scan::Eof { pos: j }
        } else if !number_head(s[j].1) {
            Scan::At { pos: j, offset: s[j].0 }
        } else if !numeric_char(s[number_run(s, j + 1) - 1].1) {
            Scan::At { pos: j, offset: s[number_run(s, j + 1) - 1].0 }
        } else {
            token(s, j, number_run(s, j + 1))
        },
    }
}

/// Scanning a quoted string from index `p`.
pub open spec fn string_scan(s: Seq<(usize, char)>, p: int) -> Scan {
    match skip_trivia(s, p) {
        None => Scan::Eof { pos: p },
        Some(j) => if j >= s.len() {
            Scan::Eof { pos: j }
        } else if s[j].1 != '"' {
            Scan::At { pos: j, offset: s[j].0 }
        } else {
            match decode_quoted(s, j + 1, false, Seq::empty()) {
                Quoted::Closed { close, value } => Scan::Done {
                    pos: close + 1,
                    start: s[j].0,
                    end: s[close].0,
                    value,
                },
                Quoted::Eof => Scan::Eof { pos: j },
                Quoted::BadEscape { at } => Scan::At { pos: j, offset: s[at].0 },
            }
        },
    }
}

/// How many characters of `lit` match the pairs from index `j` on, counting from `k`.
pub open spec fn match_len(s: Seq<(usize, char)>, j: int, lit: Seq<char>, k: int) -> int
    decreases lit.len() - k,
{
    if 0 <= k < lit.len() && 0 <= j + k < s.len() && s[j + k].1 == lit[k] {
        match_len(s, j, lit, k + 1)
    } else {
        k
    }
}

/// Matching the literal `lit` from index `p`; the cursor stops where it fails.
pub open spec fn literal_scan(s: Seq<(usize, char)>, p: int, lit: Seq<char>) -> Scan {
    match skip_trivia(s, p) {
        None => Scan::Eof { pos: p },
        Some(j) => {
            let k = match_len(s, j, lit, 0);
            if k >= lit.len() {
                Scan::Done { pos: j + k, start: 0, end: 0, value: Seq::empty() }
            } else if j + k >= s.len() {
                Scan::Eof { pos: j + k }
            } else {
                Scan::At { pos: j + k, offset: s[j + k].0 }
            }
        },
    }
}

impl Scan {
    /// Where the cursor stands after the scan.
    pub open spec fn pos(self) -> int {
        match self {
            Scan::Done { pos, .. } => pos,
            Scan::Eof { pos } => pos,
            Scan::At { pos, .. } => pos,
        }
    }
}

/// Matching the list separator `,` from cursor `v`.
#[verifier::opaque]
pub open spec fn separator_scan(v: InputView) -> Scan {
    literal_scan(v.items, v.pos as int, seq![','])
}

/// The cursor after matching the list separator from `v`, whether it matched or not.
pub open spec fn after_separator(v: InputView) -> InputView {
    InputView { items: v.items, pos: separator_scan(v).pos() as nat }
}

/// A list separator matched at cursor `end` and left the cursor at `next`.
#[verifier::opaque]
pub open spec fn linked(end: InputView, next: InputView) -> bool {
    separator_scan(end) is Done && next == after_separator(end)
}

/// No list separator matched at cursor `end`, and the attempt left the cursor at `last`.
#[verifier::opaque]
pub open spec fn stops(end: InputView, last: InputView) -> bool {
    !(separator_scan(end) is Done) && last == after_separator(end)
}

/// Requiring the end of input from index `p`.
pub open spec fn end_scan(s: Seq<(usize, char)>, p: int) -> Scan {
    match skip_trivia(s, p) {
        None => Scan::Eof { pos: p },
        Some(j) => if j >= s.len() {
            Scan::Done { pos: j, start: 0, end: 0, value: Seq::empty() }
        } else {
            Scan::At { pos: j, offset: s[j].0 }
        },
    }
}

/// The run of symbol characters from `i` stops at the first pair that is not one.
pub proof fn lemma_symbol_run(s: Seq<(usize, char)>, i: int)
    requires
        0 <= i <= s.len(),
    ensures
        i <= symbol_run(s, i) <= s.len(),
        forall|k: int| i <= k < symbol_run(s, i) ==> symbol_tail(#[trigger] s[k].1),
        symbol_run(s, i) == s.len() || !symbol_tail(s[symbol_run(s, i)].1),
    decreases s.len() - i,
{
    if i < s.len() && symbol_tail(s[i].1) {
        lemma_symbol_run(s, i + 1);
    }
}

/// The run of number characters from `i` stops at the first pair that is not one.
pub proof fn lemma_number_run(s: Seq<(usize, char)>, i: int)
    requires
        0 <= i <= s.len(),
    ensures
        i <= number_run(s, i) <= s.len(),
        forall|k: int| i <= k < number_run(s, i) ==> number_tail(#[trigger] s[k].1),
        number_run(s, i) == s.len() || !number_tail(s[number_run(s, i)].1),
    decreases s.len() - i,
{
    if i < s.len() && number_tail(s[i].1) {
        lemma_number_run(s, i + 1);
    }
}

/// A closing quote is found at or after where decoding started, inside the sequence.
pub proof fn lemma_decode_bounds(s: Seq<(usize, char)>, i: int, esc: bool, acc: Seq<char>)
    requires
        0 <= i,
    ensures
        decode_quoted(s, i, esc, acc) matches Quoted::Closed { close, .. } ==> i <= close < s.len(),
    decreases s.len() - i,
{
    if 0 <= i < s.len() {
        if esc {
            if let Some(d) = escaped(s[i].1) {
                lemma_decode_bounds(s, i + 1, false, acc.push(d));
            }
        } else if s[i].1 == '\\' {
            lemma_decode_bounds(s, i + 1, true, acc);
        } else if s[i].1 != '"' {
            lemma_decode_bounds(s, i + 1, false, acc.push(s[i].1));
        }
    }
}

/// The offsets of the sequence never decrease.
pub open spec fn offsets_sorted(s: Seq<(usize, char)>) -> bool {
    forall|a: int, b: int| 0 <= a <= b < s.len() ==> s[a].0 <= s[b].0
}

/// A successful scan from index `p` consumed the pairs from some index `j` on
/// up to its end position: `start` is the offset of the first, `end` of the
/// last consumed pair, and the first comes no later than the last.
pub open spec fn spans(s: Seq<(usize, char)>, p: int, m: Scan) -> bool {
    m matches Scan::Done { pos, start, end, .. } ==> exists|j: int|
        p <= j < pos <= s.len() && start == #[trigger] s[j].0 && end == s[pos - 1].0 && start <= end
}

/// Every successful symbol, number or string scan reports the offsets of its
/// first and last consumed characters, within the sequence, in order.
pub proof fn lemma_span_contract(s: Seq<(usize, char)>, p: int)
    requires
        0 <= p <= s.len(),
        offsets_sorted(s),
    ensures
        spans(s, p, symbol_scan(s, p)),
        spans(s, p, number_scan(s, p)),
        spans(s, p, string_scan(s, p)),
{
    if skip_trivia(s, p) is Some {
        lemma_trivia_end_at_token(s, p, 0);
        let j = skip_trivia(s, p)->0;
        if j < s.len() {
            lemma_symbol_run(s, j + 1);
            lemma_number_run(s, j + 1);
            lemma_decode_bounds(s, j + 1, false, Seq::empty());
            assert(s[j].0 <= s[symbol_run(s, j + 1) - 1].0);
            assert(s[j].0 <= s[number_run(s, j + 1) - 1].0);
            if let Quoted::Closed { close, .. } = decode_quoted(s, j + 1, false, Seq::empty()) {
                assert(s[j].0 <= s[close].0);
            }
        }
    }
}

/// A symbol or number scan consumes the longest run that its character classes
/// allow: every consumed pair after the first continues the token, and the pair
/// after the token, if any, does not.
pub proof fn lemma_maximal_munch(s: Seq<(usize, char)>, p: int)
    requires
        0 <= p <= s.len(),
    ensures
        symbol_scan(s, p) matches Scan::Done { pos, .. } ==> {
            &&& forall|k: int| skip_trivia(s, p)->0 < k < pos ==> symbol_tail(#[trigger] s[k].1)
            &&& pos == s.len() || !symbol_tail(s[pos].1)
        },
        number_scan(s, p) matches Scan::Done { pos, .. } ==> {
            &&& forall|k: int| skip_trivia(s, p)->0 < k < pos ==> number_tail(#[trigger] s[k].1)
            &&& pos == s.len() || !number_tail(s[pos].1)
        },
{
    if skip_trivia(s, p) is Some {
        lemma_trivia_end_at_token(s, p, 0);
        let j = skip_trivia(s, p)->0;
        if j < s.len() {
            lemma_symbol_run(s, j + 1);
            lemma_number_run(s, j + 1);
        }
    }
}

} // verus!
