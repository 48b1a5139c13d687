//! The cursor, its checkpoints, and the primitive scanners.
use vstd::prelude::*;
use crate::chars::{is_whitespace, is_alphabetic, is_numeric, is_symbol_tail, is_number_tail, push_char, escape_of};
use vstd::string::{StrSliceExecFns, StringExecFns};
use crate::model::{InputView, Scan, Quoted, skip_trivia, trivia_end, chars_of, symbol_run, number_run, match_len,
    symbol_scan, number_scan, string_scan, literal_scan, end_scan, decode_quoted, separator_scan, after_separator, linked, stops,
    lemma_trivia_end_at_token};

verus! {

/// A token that a primitive scan consumed: the offsets of its first and last
/// consumed characters, and its decoded text.
#[derive(Debug)]
pub struct PSym {
    pub start: usize,
    pub end: usize,
    pub value: String,
}

/// Why a scan failed: the input ran out, or a character at an offset did not fit.
#[derive(Debug)]
pub enum ParseError {
    EndOfFile(String),
    ErrorAt(usize, String),
}

/// A cursor over the unconsumed suffix of an indexed character sequence.
pub struct Input<'a> {
    data: &'a [(usize, char)],
    pos: usize,
}

/// A checkpoint of a cursor, to return to with `Input::restore`.
#[derive(Clone, Copy)]
pub struct RestorePoint<'a> {
    data: &'a [(usize, char)],
    pos: usize,
}

/// `r` and the cursor moving from `before` to `after` are what `m` describes.
pub open spec fn scanned(before: InputView, after: InputView, r: Result<PSym, ParseError>, m: Scan) -> bool {
    after.items == before.items && match m {
        Scan::Done { pos, start, end, value } => after.pos == pos && r is Ok && r->Ok_0.start
            == start && r->Ok_0.end == end && r->Ok_0.value@ == value,
        Scan::Eof { pos } => after.pos == pos && r matches Err(ParseError::EndOfFile(_)),
        Scan::At { pos, offset } => after.pos == pos && (r matches Err(ParseError::ErrorAt(o, _))
            && o == offset),
    }
}

/// As `scanned`, for a scan that yields no value.
pub open spec fn matched(before: InputView, after: InputView, r: Result<(), ParseError>, m: Scan) -> bool {
    after.items == before.items && match m {
        Scan::Done { pos, .. } => after.pos == pos && r is Ok,
        Scan::Eof { pos } => after.pos == pos && r matches Err(ParseError::EndOfFile(_)),
        Scan::At { pos, offset } => after.pos == pos && (r matches Err(ParseError::ErrorAt(o, _))
            && o == offset),
    }
}

/// A diagnostic: `text` followed by the offending character.
fn message_with(text: &str, c: char) -> (r: String)
    ensures
        r@ == text@.push(c),
{
    let mut m = text.to_string();
    push_char(&mut m, c);
    m
}

/// A diagnostic for the literal `s` whose character `c` was expected, with the
/// character found instead, if any.
fn literal_message(c: char, s: &str, found: Option<char>) -> String {
    let mut m = "Expected ".to_string();
    push_char(&mut m, c);
    m.append(" in ");
    m.append(s);
    match found {
        Some(x) => {
            m.append(" but found ");
            push_char(&mut m, x);
        },
        None => {
            m.append(" but found end of file");
        },
    }
    m
}

impl<'a> View for Input<'a> {
    type V = InputView;

    closed spec fn view(&self) -> InputView {
        InputView { items: self.data@, pos: self.pos as nat }
    }
}

impl<'a> View for RestorePoint<'a> {
    type V = InputView;

    closed spec fn view(&self) -> InputView {
        InputView { items: self.data@, pos: self.pos as nat }
    }
}

impl<'a> Input<'a> {
    #[verifier::type_invariant]
    spec fn inv(self) -> bool {
        self.pos <= self.data@.len()
    }

    pub fn new(input: &'a [(usize, char)]) -> (r: Input<'a>)
        ensures
            r@ == (InputView { items: input@, pos: 0 }),
    {
        Input { data: input, pos: 0 }
    }

    /// The unconsumed suffix of the sequence.
    pub fn remaining(&self) -> (r: &'a [(usize, char)])
        ensures
            r@ == self@.rest(),
    {
        proof {
            use_type_invariant(self);
        }
        vstd::slice::slice_subrange(self.data, self.pos, self.data.len())
    }

    pub fn create_restore(&self) -> (r: RestorePoint<'a>)
        ensures
            r@ == self@,
    {
        proof {
            use_type_invariant(self);
        }
        RestorePoint { data: self.data, pos: self.pos }
    }

    pub fn restore(&mut self, restore_point: RestorePoint<'a>)
        ensures
            final(self)@ == restore_point@,
    {
        proof {
            use_type_invariant(&restore_point);
        }
        *self = Input { data: restore_point.data, pos: restore_point.pos };
    }

    /// Skips whitespace and (nested) block comments.
    pub fn clear(&mut self) -> (r: Result<(), ParseError>)
        ensures
            final(self)@.items == old(self)@.items,
            match skip_trivia(old(self)@.items, old(self)@.pos as int) {
                Some(j) => r is Ok && final(self)@.pos == j,
                None => r matches Err(ParseError::EndOfFile(_)) && final(self)@ == old(self)@,
            },
    {
        proof {
            use_type_invariant(&*self);
        }
        let ghost s = self.data@;
        let mut i: usize = self.pos;
        let mut depth: usize = 0;
        let n = self.data.len();
        loop
            invariant
                s == self.data@,
                n == s.len(),
                self.pos <= i <= n,
                depth <= i,
                self@ == old(self)@,
                trivia_end(s, old(self)@.pos as int, 0) == trivia_end(s, i as int, depth as nat),
            ensures
                i <= n,
                self@ == old(self)@,
                s == self.data@,
                trivia_end(s, old(self)@.pos as int, 0) == Some(i as int),
            decreases n - i,
        {
            if i >= n {
                if depth > 0 {
                    return Err(ParseError::EndOfFile("Expected end of comment but found end of file".to_string()));
                }
                assert(trivia_end(s, i as int, depth as nat) == Some(i as int));
                break;
            }
            let c = self.data[i].1;
            if i + 1 < n && c == '/' && self.data[i + 1].1 == '*' {
                depth = depth + 1;
                i = i + 2;
            } else if depth > 0 && i + 1 < n && c == '*' && self.data[i + 1].1 == '/' {
                depth = depth - 1;
                i = i + 2;
            } else if depth > 0 {
                i = i + 1;
            } else if is_whitespace(c) {
                i = i + 1;
            } else {
                assert(trivia_end(s, i as int, depth as nat) == Some(i as int));
                break;
            }
        }
        self.pos = i;
        Ok(())
    }
}

impl<'a> Input<'a> {
    /// Scans a quoted string, resolving the escapes `\\`, `\n`, `\r`, `\0`, `\t` and `\"`.
    pub fn parse_string(&mut self) -> (r: Result<PSym, ParseError>)
        ensures
            scanned(old(self)@, final(self)@, r, string_scan(old(self)@.items, old(self)@.pos as int)),
    {
        match self.clear() {
            Ok(()) => {},
            Err(e) => return Err(e),
        }
        proof {
            use_type_invariant(&*self);
        }
        let ghost s = self.data@;
        let n = self.data.len();
        let j = self.pos;
        if j >= n {
            return Err(ParseError::EndOfFile("parse_string".to_string()));
        }
        if self.data[j].1 != '"' {
            return Err(ParseError::ErrorAt(self.data[j].0, message_with("Expected \" at the beginning of parse_string but found ", self.data[j].1)));
        }
        let mut value = String::new();
        let mut escape = false;
        let mut i: usize = j + 1;
        loop
            invariant
                s == self.data@,
                n == s.len(),
                j < i <= n,
                s == old(self)@.items,
                skip_trivia(s, old(self)@.pos as int) == Some(j as int),
                s[j as int].1 == '"',
                self@ == (InputView { items: s, pos: j as nat }),
                decode_quoted(s, j + 1, false, Seq::empty()) == decode_quoted(s, i as int, escape, value@),
            ensures
                i < n,
                decode_quoted(s, j + 1, false, Seq::empty()) == (Quoted::Closed { close: i as int, value: value@ }),
            decreases n - i,
        {
            if i >= n {
                return Err(ParseError::EndOfFile("parse_string".to_string()));
            }
            let c = self.data[i].1;
            if escape {
                match escape_of(c) {
                    Some(d) => {
                        push_char(&mut value, d);
                        escape = false;
                    },
                    None => {
                        return Err(ParseError::ErrorAt(self.data[i].0, message_with("Encountered unknown escape character ", c)));
                    },
                }
            } else if c == '\\' {
                escape = true;
            } else if c == '"' {
                break;
            } else {
                push_char(&mut value, c);
            }
            i = i + 1;
        }
        let start = self.data[j].0;
        let end = self.data[i].0;
        self.pos = i + 1;
        Ok(PSym { start, end, value })
    }
}

impl<'a> Input<'a> {
    /// Requires that only trivia remains.
    pub fn expect_end(&mut self) -> (r: Result<(), ParseError>)
        ensures
            matched(old(self)@, final(self)@, r, end_scan(old(self)@.items, old(self)@.pos as int)),
    {
        match self.clear() {
            Ok(()) => {},
            Err(e) => return Err(e),
        }
        proof {
            use_type_invariant(&*self);
        }
        if self.pos < self.data.len() {
            return Err(ParseError::ErrorAt(self.data[self.pos].0, message_with("Expected end of input, but found ", self.data[self.pos].1)));
        }
        Ok(())
    }

    /// Consumes the characters of `s` in order; on a failure the cursor stays
    /// where the failure was found.
    pub fn expect(&mut self, s: &str) -> (r: Result<(), ParseError>)
        ensures
            matched(old(self)@, final(self)@, r, literal_scan(old(self)@.items, old(self)@.pos as int, s@)),
    {
        match self.clear() {
            Ok(()) => {},
            Err(e) => return Err(e),
        }
        proof {
            use_type_invariant(&*self);
        }
        let ghost items = self.data@;
        let n = self.data.len();
        let len = s.unicode_len();
        let j = self.pos;
        let mut k: usize = 0;
        while k < len
            invariant
                items == self.data@,
                items == old(self)@.items,
                n == items.len(),
                len == s@.len(),
                j <= n,
                k <= len,
                j + k <= n,
                skip_trivia(items, old(self)@.pos as int) == Some(j as int),
                self@ == (InputView { items, pos: j as nat }),
                match_len(items, j as int, s@, 0) == match_len(items, j as int, s@, k as int),
            decreases len - k,
        {
            if j + k >= n {
                self.pos = j + k;
                return Err(ParseError::EndOfFile(literal_message(s.get_char(k), s, None)));
            }
            let c = s.get_char(k);
            if self.data[j + k].1 != c {
                self.pos = j + k;
                return Err(ParseError::ErrorAt(self.data[j + k].0, literal_message(c, s, Some(self.data[j + k].1))));
            }
            k = k + 1;
        }
        self.pos = j + k;
        Ok(())
    }

    /// Scans a symbol: a letter or underscore, then letters, digits and underscores.
    pub fn parse_symbol(&mut self) -> (r: Result<PSym, ParseError>)
        ensures
            scanned(old(self)@, final(self)@, r, symbol_scan(old(self)@.items, old(self)@.pos as int)),
    {
        match self.clear() {
            Ok(()) => {},
            Err(e) => return Err(e),
        }
        proof {
            use_type_invariant(&*self);
        }
        let ghost s = self.data@;
        let n = self.data.len();
        let j = self.pos;
        if j >= n {
            return Err(ParseError::EndOfFile("parse_symbol".to_string()));
        }
        let first = self.data[j].1;
        if !(is_alphabetic(first) || first == '_') {
            return Err(ParseError::ErrorAt(self.data[j].0, message_with("Encountered in parse_symbol: ", first)));
        }
        let mut value = String::new();
        push_char(&mut value, first);
        assert(value@ =~= chars_of(s, j as int, j + 1));
        let mut i: usize = j + 1;
        loop
            invariant
                s == self.data@,
                n == s.len(),
                j < i <= n,
                value@ == chars_of(s, j as int, i as int),
                symbol_run(s, j + 1) == symbol_run(s, i as int),
            ensures
                j < i <= n,
                value@ == chars_of(s, j as int, i as int),
                symbol_run(s, j + 1) == i,
            decreases n - i,
        {
            if i >= n {
                break;
            }
            let c = self.data[i].1;
            if !is_symbol_tail(c) {
                break;
            }
            push_char(&mut value, c);
            assert(chars_of(s, j as int, i + 1) =~= chars_of(s, j as int, i as int).push(c));
            i = i + 1;
        }
        let start = self.data[j].0;
        let end = self.data[i - 1].0;
        self.pos = i;
        Ok(PSym { start, end, value })
    }

    /// Scans a number: a digit or minus sign, then digits, points, minus signs
    /// and exponent marks, ending in a digit.
    pub fn parse_number(&mut self) -> (r: Result<PSym, ParseError>)
        ensures
            scanned(old(self)@, final(self)@, r, number_scan(old(self)@.items, old(self)@.pos as int)),
    {
        match self.clear() {
            Ok(()) => {},
            Err(e) => return Err(e),
        }
        proof {
            use_type_invariant(&*self);
        }
        let ghost s = self.data@;
        let n = self.data.len();
        let j = self.pos;
        if j >= n {
            return Err(ParseError::EndOfFile("parse_number".to_string()));
        }
        let first = self.data[j].1;
        if !(is_numeric(first) || first == '-') {
            return Err(ParseError::ErrorAt(self.data[j].0, message_with("Encountered in parse_number: ", first)));
        }
        let mut value = String::new();
        push_char(&mut value, first);
        assert(value@ =~= chars_of(s, j as int, j + 1));
        let mut i: usize = j + 1;
        loop
            invariant
                s == self.data@,
                n == s.len(),
                j < i <= n,
                value@ == chars_of(s, j as int, i as int),
                number_run(s, j + 1) == number_run(s, i as int),
            ensures
                j < i <= n,
                value@ == chars_of(s, j as int, i as int),
                number_run(s, j + 1) == i,
            decreases n - i,
        {
            if i >= n {
                break;
            }
            let c = self.data[i].1;
            if !is_number_tail(c) {
                break;
            }
            push_char(&mut value, c);
            assert(chars_of(s, j as int, i + 1) =~= chars_of(s, j as int, i as int).push(c));
            i = i + 1;
        }
        if !is_numeric(self.data[i - 1].1) {
            return Err(ParseError::ErrorAt(self.data[i - 1].0, "parse_number requires last character to be a numeric".to_string()));
        }
        let start = self.data[j].0;
        let end = self.data[i - 1].0;
        self.pos = i;
        Ok(PSym { start, end, value })
    }
}

impl<'a> Input<'a> {
    /// Runs `parse`; where it fails, returns to where it started and yields `None`.
    pub fn maybe<T, F: Fn(&mut Input<'a>) -> Result<T, ParseError>>(&mut self, parse: F) -> (res: Option<T>)
        requires
            forall|i: &mut Input<'a>| parse.requires((i,)),
        ensures
            match res {
                Some(v) => exists|i: &mut Input<'a>| mut_ref_current(i)@ == old(self)@
                    && mut_ref_future(i)@ == final(self)@ && parse.ensures((i,), Ok(v)),
                None => final(self)@ == old(self)@ && exists|i: &mut Input<'a>, e: ParseError|
                    mut_ref_current(i)@ == old(self)@ && parse.ensures((i,), Err(e)),
            },
    {
        let rp = self.create_restore();
        match parse(self) {
            Ok(v) => Some(v),
            Err(e) => {
                self.restore(rp);
                None
            },
        }
    }

    /// Runs `parse` until it fails, returning to where the failing call started,
    /// and yields what the successful calls returned, in order.
    #[verifier::rlimit(100)]
    #[verifier::spinoff_prover]
    fn repeat<T, F: Fn(&mut Input<'a>) -> Result<T, ParseError>>(&mut self, parse: &F) -> (r: Vec<T>)
        requires
            forall|i: &mut Input<'a>| parse.requires((i,)),
            forall|i: &mut Input<'a>, v: Result<T, ParseError>| parse.ensures((i,), v) && v is Ok
                ==> mut_ref_future(i)@.items == mut_ref_current(i)@.items
                && mut_ref_future(i)@.pos > mut_ref_current(i)@.pos,
        ensures
            final(self)@.items == old(self)@.items,
            exists|calls: Seq<&mut Input<'a>>| {
                &&& calls.len() == r@.len()
                &&& forall|k: int| 0 <= k < calls.len() ==> parse.ensures((#[trigger] calls[k],), Ok(r@[k]))
                &&& forall|k: int| 0 <= k < calls.len() ==> mut_ref_current(#[trigger] calls[k])@
                    == if k == 0 { old(self)@ } else { mut_ref_future(calls[k - 1])@ }
                &&& final(self)@ == if calls.len() == 0 { old(self)@ } else { mut_ref_future(calls.last())@ }
            },
            exists|i: &mut Input<'a>, e: ParseError| mut_ref_current(i)@ == final(self)@ && parse.ensures((i,), Err(e)),
            (forall|i: &mut Input<'a>, v: Result<T, ParseError>| mut_ref_current(i)@ == old(self)@
                && parse.ensures((i,), v) ==> v is Err) ==> r@.len() == 0 && final(self)@ == old(self)@,
        decreases old(self)@.items.len() - old(self)@.pos,
    {
        proof {
            use_type_invariant(&*self);
        }
        let ghost before = self@;
        let rp = self.create_restore();
        match parse(self) {
            Ok(v) => {
                proof {
                    use_type_invariant(&*self);
                }
                let ghost mid = self@;
                assert(exists|i: &mut Input<'a>| mut_ref_current(i)@ == before
                    && mut_ref_future(i)@ == mid && parse.ensures((i,), Ok(v)));
                let mut rest = self.repeat(parse);
                let ghost rest_vals = rest@;
                rest.insert(0, v);
                proof {
                    assert(rest@ == seq![v] + rest_vals);
                    lemma_chain_cons(*parse, v, rest_vals, before, mid, self@);
                }
                rest
            },
            Err(e) => {
                assert(exists|i: &mut Input<'a>, e: ParseError| mut_ref_current(i)@ == before && parse.ensures((i,), Err(e)));
                self.restore(rp);
                let empty: Vec<T> = Vec::new();
                proof {
                    lemma_chain_empty(*parse, before);
                    assert(empty@ == Seq::<T>::empty());
                }
                empty
            },
        }
    }

    /// Runs `parse` until it fails, returning to where the failing call started,
    /// and yields what the successful calls returned, in order.
    pub fn zero_or_more<T, F: Fn(&mut Input<'a>) -> Result<T, ParseError>>(&mut self, parse: F) -> (r: Result<Vec<T>, ParseError>)
        requires
            forall|i: &mut Input<'a>| parse.requires((i,)),
            forall|i: &mut Input<'a>, v: Result<T, ParseError>| parse.ensures((i,), v) && v is Ok
                ==> mut_ref_future(i)@.items == mut_ref_current(i)@.items
                && mut_ref_future(i)@.pos > mut_ref_current(i)@.pos,
        ensures
            r is Ok,
            final(self)@.items == old(self)@.items,
            exists|calls: Seq<&mut Input<'a>>| {
                &&& calls.len() == r->Ok_0@.len()
                &&& forall|k: int| 0 <= k < calls.len() ==> parse.ensures((#[trigger] calls[k],), Ok(r->Ok_0@[k]))
                &&& forall|k: int| 0 <= k < calls.len() ==> mut_ref_current(#[trigger] calls[k])@
                    == if k == 0 { old(self)@ } else { mut_ref_future(calls[k - 1])@ }
                &&& final(self)@ == if calls.len() == 0 { old(self)@ } else { mut_ref_future(calls.last())@ }
            },
            exists|i: &mut Input<'a>, e: ParseError| mut_ref_current(i)@ == final(self)@ && parse.ensures((i,), Err(e)),
            (forall|i: &mut Input<'a>, v: Result<T, ParseError>| mut_ref_current(i)@ == old(self)@
                && parse.ensures((i,), v) ==> v is Err) ==> r->Ok_0@.len() == 0 && final(self)@ == old(self)@,
    {
        Ok(self.repeat(&parse))
    }

    /// As `zero_or_more`, but the first call must succeed: its failure is returned as it is.
    pub fn one_or_more<T, F: Fn(&mut Input<'a>) -> Result<T, ParseError>>(&mut self, parse: F) -> (r: Result<Vec<T>, ParseError>)
        requires
            forall|i: &mut Input<'a>| parse.requires((i,)),
            forall|i: &mut Input<'a>, v: Result<T, ParseError>| parse.ensures((i,), v) && v is Ok
                ==> mut_ref_future(i)@.items == mut_ref_current(i)@.items
                && mut_ref_future(i)@.pos > mut_ref_current(i)@.pos,
        ensures
            match r {
                Ok(vals) => {
                    &&& vals@.len() >= 1
                    &&& final(self)@.items == old(self)@.items
                    &&& exists|calls: Seq<&mut Input<'a>>| {
                        &&& calls.len() == vals@.len()
                        &&& forall|k: int| 0 <= k < calls.len() ==> parse.ensures((#[trigger] calls[k],), Ok(vals@[k]))
                        &&& forall|k: int| 0 <= k < calls.len() ==> mut_ref_current(#[trigger] calls[k])@
                            == if k == 0 { old(self)@ } else { mut_ref_future(calls[k - 1])@ }
                        &&& final(self)@ == if calls.len() == 0 { old(self)@ } else { mut_ref_future(calls.last())@ }
                    }
                    &&& exists|i: &mut Input<'a>, e: ParseError| mut_ref_current(i)@ == final(self)@ && parse.ensures((i,), Err(e))
                },
                Err(e) => exists|i: &mut Input<'a>| mut_ref_current(i)@ == old(self)@
                    && mut_ref_future(i)@ == final(self)@ && parse.ensures((i,), Err(e)),
            },
            (forall|i: &mut Input<'a>, v: Result<T, ParseError>| mut_ref_current(i)@ == old(self)@
                && parse.ensures((i,), v) ==> v is Err && mut_ref_future(i)@ == old(self)@)
                ==> r is Err && final(self)@ == old(self)@,
    {
        let ghost before = self@;
        match parse(self) {
            Ok(v) => {
                let ghost mid = self@;
                assert(exists|i: &mut Input<'a>| mut_ref_current(i)@ == before
                    && mut_ref_future(i)@ == mid && parse.ensures((i,), Ok(v)));
                let mut rest = self.repeat(&parse);
                let ghost rest_vals = rest@;
                rest.insert(0, v);
                proof {
                    assert(rest@ == seq![v] + rest_vals);
                    lemma_chain_cons(parse, v, rest_vals, before, mid, self@);
                }
                Ok(rest)
            },
            Err(e) => Err(e),
        }
    }

    /// Matches the list separator `,`, leaving the cursor where the attempt ended.
    fn separator(&mut self) -> (matched: bool)
        ensures
            final(self)@ == after_separator(old(self)@),
            matched == (separator_scan(old(self)@) is Done),
            matched ==> final(self)@.pos > old(self)@.pos,
    {
        proof {
            use_type_invariant(&*self);
            reveal_strlit(",");
            if skip_trivia(self@.items, self@.pos as int) is Some {
                lemma_trivia_end_at_token(self@.items, self@.pos as int, 0);
            }
        }
        let ghost before = self@;
        assert(separator_scan(before) == literal_scan(before.items, before.pos as int, ","@)) by {
            reveal(separator_scan);
            reveal_strlit(",");
            assert(","@ =~= seq![',']);
        }
        let r = self.expect(",");
        assert(","@.len() == 1);
        r.is_ok()
    }

    /// An element, then, while a separator follows, one more element each
    /// time. The calls form a chain: the first starts at the cursor, each
    /// later one where a matched separator after the previous one left the
    /// cursor. The run ends where a separator does not match, or with the
    /// error of the element that failed.
    #[verifier::rlimit(100)]
    #[verifier::spinoff_prover]
    fn list_from<T, F: Fn(&mut Input<'a>) -> Result<T, ParseError>>(&mut self, parse: &F) -> (r: Result<Vec<T>, ParseError>)
        requires
            forall|i: &mut Input<'a>| parse.requires((i,)),
            forall|i: &mut Input<'a>, v: Result<T, ParseError>| parse.ensures((i,), v) && v is Ok
                ==> mut_ref_future(i)@.items == mut_ref_current(i)@.items
                && mut_ref_future(i)@.pos >= mut_ref_current(i)@.pos,
        ensures
            match r {
                Ok(vals) => exists|calls: Seq<&mut Input<'a>>| #![trigger calls.len()]
                        calls.len() > 0 && calls.len() == vals@.len()
                        && (forall|k: int| 0 <= k < calls.len() ==> parse.ensures((#[trigger] calls[k],), Ok(vals@[k])))
                        && (forall|k: int| 0 < k < calls.len() ==> linked(mut_ref_future(calls[k - 1])@, mut_ref_current(#[trigger] calls[k])@))
                        && (calls.len() > 0 ==> mut_ref_current(calls[0])@ == old(self)@)
                        && stops(mut_ref_future(calls[calls.len() - 1])@, final(self)@),
                Err(e) => exists|calls: Seq<&mut Input<'a>>, vals: Seq<T>| #![trigger calls.len(), vals.len()]
                        calls.len() == vals.len()
                        && (forall|k: int| 0 <= k < calls.len() ==> parse.ensures((#[trigger] calls[k],), Ok(vals[k])))
                        && (forall|k: int| 0 < k < calls.len() ==> linked(mut_ref_future(calls[k - 1])@, mut_ref_current(#[trigger] calls[k])@))
                        && (calls.len() > 0 ==> mut_ref_current(calls[0])@ == old(self)@)
                        && exists|i: &mut Input<'a>| mut_ref_future(i)@ == final(self)@ && parse.ensures((i,), Err(e))
                            && (if calls.len() == 0 { mut_ref_current(i)@ == old(self)@ } else {
                                linked(mut_ref_future(calls[calls.len() - 1])@, mut_ref_current(i)@) }),
            },
        decreases old(self)@.items.len() - old(self)@.pos, 1int,
    {
        proof {
            use_type_invariant(&*self);
        }
        let ghost start = self@;
        match parse(self) {
            Err(e) => {
                proof {
                    assert(exists|i: &mut Input<'a>| mut_ref_current(i)@ == start && mut_ref_future(i)@ == self@
                        && parse.ensures((i,), Err(e)));
                    let calls = Seq::<&mut Input<'a>>::empty();
                    let vals = Seq::<T>::empty();
                    assert(calls.len() == 0 && vals.len() == 0);
                }
                Err(e)
            },
            Ok(v) => {
                proof {
                    use_type_invariant(&*self);
                }
                self.list_after_first(parse, v, Ghost(start))
            },
        }
    }

    /// Continues a list after a first call from `first_start` returned `v` and
    /// left the cursor where it stands: while a separator follows, one more element.
    #[verifier::rlimit(100)]
    #[verifier::spinoff_prover]
    fn list_after_first<T, F: Fn(&mut Input<'a>) -> Result<T, ParseError>>(
        &mut self,
        parse: &F,
        v: T,
        first_start: Ghost<InputView>,
    ) -> (r: Result<Vec<T>, ParseError>)
        requires
            exists|w: &mut Input<'a>| mut_ref_current(w)@ == first_start@ && mut_ref_future(w)@ == old(self)@
                && parse.ensures((w,), Ok(v)),
            forall|i: &mut Input<'a>| parse.requires((i,)),
            forall|i: &mut Input<'a>, v: Result<T, ParseError>| parse.ensures((i,), v) && v is Ok
                ==> mut_ref_future(i)@.items == mut_ref_current(i)@.items
                && mut_ref_future(i)@.pos >= mut_ref_current(i)@.pos,
        ensures
            match r {
                Ok(vals) => exists|calls: Seq<&mut Input<'a>>| #![trigger calls.len()]
                        calls.len() > 0 && calls.len() == vals@.len()
                        && (forall|k: int| 0 <= k < calls.len() ==> parse.ensures((#[trigger] calls[k],), Ok(vals@[k])))
                        && (forall|k: int| 0 < k < calls.len() ==> linked(mut_ref_future(calls[k - 1])@, mut_ref_current(#[trigger] calls[k])@))
                        && (calls.len() > 0 ==> mut_ref_current(calls[0])@ == first_start@)
                        && stops(mut_ref_future(calls[calls.len() - 1])@, final(self)@),
                Err(e) => exists|calls: Seq<&mut Input<'a>>, vals: Seq<T>| #![trigger calls.len(), vals.len()]
                        calls.len() > 0 && calls.len() == vals.len()
                        && (forall|k: int| 0 <= k < calls.len() ==> parse.ensures((#[trigger] calls[k],), Ok(vals[k])))
                        && (forall|k: int| 0 < k < calls.len() ==> linked(mut_ref_future(calls[k - 1])@, mut_ref_current(#[trigger] calls[k])@))
                        && (calls.len() > 0 ==> mut_ref_current(calls[0])@ == first_start@)
                        && exists|i: &mut Input<'a>| mut_ref_future(i)@ == final(self)@ && parse.ensures((i,), Err(e))
                            && (if calls.len() == 0 { mut_ref_current(i)@ == first_start@ } else {
                                linked(mut_ref_future(calls[calls.len() - 1])@, mut_ref_current(i)@) }),
            },
        decreases old(self)@.items.len() - old(self)@.pos, 0int,
    {
        let ghost start = first_start@;
        proof {
            use_type_invariant(&*self);
        }
        let ghost mid = self@;
        assert(exists|w: &mut Input<'a>| mut_ref_current(w)@ == start && mut_ref_future(w)@ == mid
            && parse.ensures((w,), Ok(v)));
        if !self.separator() {
            let mut one: Vec<T> = Vec::new();
            one.push(v);
            proof {
                let w = choose|w: &mut Input<'a>| mut_ref_current(w)@ == start && mut_ref_future(w)@ == mid
                    && parse.ensures((w,), Ok(v));
                let calls = seq![w];
                reveal(stops);
                assert(calls.len() == 1 && calls[0] == w && one@[0] == v && one@.len() == 1);
            }
            return Ok(one);
        }
        let ghost s1 = self@;
        proof {
            use_type_invariant(&*self);
        }
        assert(mid.items == start.items && mid.pos >= start.pos && s1.pos > mid.pos);
        assert(linked(mid, s1)) by {
            reveal(linked);
        }
        match self.list_from(parse) {
            Ok(rest) => {
                let mut rest = rest;
                let ghost tail_vals = rest@;
                rest.insert(0, v);
                proof {
                    let w = choose|w: &mut Input<'a>| mut_ref_current(w)@ == start && mut_ref_future(w)@ == mid
                        && parse.ensures((w,), Ok(v));
                    let tail = choose|calls: Seq<&mut Input<'a>>| #![trigger calls.len()]
                        calls.len() > 0 && calls.len() == tail_vals.len()
                        && (forall|k: int| 0 <= k < calls.len() ==> parse.ensures((#[trigger] calls[k],), Ok(tail_vals[k])))
                        && (forall|k: int| 0 < k < calls.len() ==> linked(mut_ref_future(calls[k - 1])@, mut_ref_current(#[trigger] calls[k])@))
                        && (calls.len() > 0 ==> mut_ref_current(calls[0])@ == s1)
                        && stops(mut_ref_future(calls[calls.len() - 1])@, self@);
                    lemma_prepend_call(parse, w, v, tail, tail_vals);
                    let calls = seq![w] + tail;
                    assert(rest@ =~= seq![v] + tail_vals);
                    assert(calls.len() == rest@.len() && calls.len() > 0);
                    assert(calls[calls.len() - 1] == tail[tail.len() - 1]);
                }
                Ok(rest)
            },
            Err(e) => {
                proof {
                    let w = choose|w: &mut Input<'a>| mut_ref_current(w)@ == start && mut_ref_future(w)@ == mid
                        && parse.ensures((w,), Ok(v));
                    let (tail, tvals) = choose|calls: Seq<&mut Input<'a>>, vals: Seq<T>| #![trigger calls.len(), vals.len()]
                        calls.len() == vals.len()
                        && (forall|k: int| 0 <= k < calls.len() ==> parse.ensures((#[trigger] calls[k],), Ok(vals[k])))
                        && (forall|k: int| 0 < k < calls.len() ==> linked(mut_ref_future(calls[k - 1])@, mut_ref_current(#[trigger] calls[k])@))
                        && (calls.len() > 0 ==> mut_ref_current(calls[0])@ == s1)
                        && exists|i: &mut Input<'a>| mut_ref_future(i)@ == self@ && parse.ensures((i,), Err(e))
                            && (if calls.len() == 0 { mut_ref_current(i)@ == s1 } else {
                                linked(mut_ref_future(calls[calls.len() - 1])@, mut_ref_current(i)@) });
                    lemma_prepend_call(parse, w, v, tail, tvals);
                    let calls = seq![w] + tail;
                    let vals = seq![v] + tvals;
                    assert(calls.len() == vals.len() && calls.len() > 0);
                    assert(tail.len() > 0 ==> calls[calls.len() - 1] == tail[tail.len() - 1]);
                    assert(tail.len() == 0 ==> calls[calls.len() - 1] == w);
                }
                Err(e)
            },
        }
    }

    /// Parses elements separated by `,`. When the first call fails the list is
    /// empty and the cursor returns to where it was. Otherwise the calls form
    /// a chain: the first starts at the cursor, each later one where a matched
    /// separator after the previous one left the cursor; the list ends where a
    /// separator does not match, and an element that fails after a matched
    /// separator fails the list with its error.
    #[verifier::rlimit(100)]
    #[verifier::spinoff_prover]
    pub fn list<T, F: Fn(&mut Input<'a>) -> Result<T, ParseError>>(&mut self, parse: F) -> (r: Result<Vec<T>, ParseError>)
        requires
            forall|i: &mut Input<'a>| parse.requires((i,)),
            forall|i: &mut Input<'a>, v: Result<T, ParseError>| parse.ensures((i,), v) && v is Ok
                ==> mut_ref_future(i)@.items == mut_ref_current(i)@.items
                && mut_ref_future(i)@.pos >= mut_ref_current(i)@.pos,
        ensures
            match r {
                Ok(vals) => if vals@.len() == 0 {
                    final(self)@ == old(self)@ && exists|i: &mut Input<'a>, e: ParseError|
                        mut_ref_current(i)@ == old(self)@ && parse.ensures((i,), Err(e))
                } else {
                    exists|calls: Seq<&mut Input<'a>>| #![trigger calls.len()]
                        calls.len() > 0 && calls.len() == vals@.len()
                        && (forall|k: int| 0 <= k < calls.len() ==> parse.ensures((#[trigger] calls[k],), Ok(vals@[k])))
                        && (forall|k: int| 0 < k < calls.len() ==> linked(mut_ref_future(calls[k - 1])@, mut_ref_current(#[trigger] calls[k])@))
                        && (calls.len() > 0 ==> mut_ref_current(calls[0])@ == old(self)@)
                        && stops(mut_ref_future(calls[calls.len() - 1])@, final(self)@)
                },
                Err(e) => exists|calls: Seq<&mut Input<'a>>, vals: Seq<T>| #![trigger calls.len(), vals.len()]
                        calls.len() > 0 && calls.len() == vals.len()
                        && (forall|k: int| 0 <= k < calls.len() ==> parse.ensures((#[trigger] calls[k],), Ok(vals[k])))
                        && (forall|k: int| 0 < k < calls.len() ==> linked(mut_ref_future(calls[k - 1])@, mut_ref_current(#[trigger] calls[k])@))
                        && (calls.len() > 0 ==> mut_ref_current(calls[0])@ == old(self)@)
                        && exists|i: &mut Input<'a>| mut_ref_future(i)@ == final(self)@ && parse.ensures((i,), Err(e))
                            && (if calls.len() == 0 { mut_ref_current(i)@ == old(self)@ } else {
                                linked(mut_ref_future(calls[calls.len() - 1])@, mut_ref_current(i)@) }),
            },
            (forall|i: &mut Input<'a>, v: Result<T, ParseError>| mut_ref_current(i)@ == old(self)@
                && parse.ensures((i,), v) ==> v is Err) ==> (r is Ok && r->Ok_0@.len() == 0 && final(self)@ == old(self)@),
    {
        let ghost start = self@;
        let rp = self.create_restore();
        match parse(self) {
            Err(e) => {
                assert(exists|i: &mut Input<'a>, e: ParseError| mut_ref_current(i)@ == start && parse.ensures((i,), Err(e)));
                self.restore(rp);
                Ok(Vec::new())
            },
            Ok(v) => {
                proof {
                    use_type_invariant(&*self);
                }
                self.list_after_first(&parse, v, Ghost(start))
            },
        }
    }

    /// Tries the scanners from index `idx` on, in order, each from where the cursor stands.
    fn choice_from<T, F: Fn(&mut Input<'a>) -> Result<T, ParseError>>(&mut self, parsers: &[F], idx: usize) -> (r: Result<T, ParseError>)
        requires
            idx < parsers@.len(),
            forall|k: int, i: &mut Input<'a>| 0 <= k < parsers@.len() ==> parsers@[k].requires((i,)),
        ensures
            match r {
                Ok(v) => exists|k: int, fails: Seq<&mut Input<'a>>, errs: Seq<ParseError>| #![trigger parsers@[k], fails.len(), errs.len()] idx <= k < parsers@.len()
                    && fails.len() == k - idx && errs.len() == k - idx
                    && (forall|m: int| 0 <= m < k - idx ==> mut_ref_current(#[trigger] fails[m])@ == old(self)@
                        && parsers@[idx + m].ensures((fails[m],), Err(errs[m])))
                    && exists|i: &mut Input<'a>| mut_ref_current(i)@ == old(self)@ && mut_ref_future(i)@ == final(self)@
                        && parsers@[k].ensures((i,), Ok(v)),
                Err(e) => final(self)@ == old(self)@ && exists|fails: Seq<&mut Input<'a>>, errs: Seq<ParseError>| #![trigger fails.len(), errs.len()]
                    fails.len() == parsers@.len() - idx && errs.len() == parsers@.len() - idx
                    && (forall|m: int| 0 <= m < parsers@.len() - idx ==> mut_ref_current(#[trigger] fails[m])@ == old(self)@
                        && parsers@[idx + m].ensures((fails[m],), Err(errs[m]))) && errs.last() == e,
            },
        decreases parsers@.len() - idx,
    {
        let ghost before = self@;
        let rp = self.create_restore();
        let parse = &parsers[idx];
        match parse(self) {
            Ok(v) => {
                proof {
                    let fails = Seq::<&mut Input<'a>>::empty();
                    let errs = Seq::<ParseError>::empty();
                    assert(fails.len() == 0 && errs.len() == 0);
                    assert(exists|i: &mut Input<'a>| mut_ref_current(i)@ == old(self)@ && mut_ref_future(i)@ == self@
                        && parsers@[idx as int].ensures((i,), Ok(v)));
                }
                Ok(v)
            },
            Err(e) => {
                assert(exists|i: &mut Input<'a>| mut_ref_current(i)@ == before && parsers@[idx as int].ensures((i,), Err(e)));
                self.restore(rp);
                if idx + 1 == parsers.len() {
                    proof {
                        let w = choose|i: &mut Input<'a>| mut_ref_current(i)@ == before && parsers@[idx as int].ensures((i,), Err(e));
                        let fails = seq![w];
                        let errs = seq![e];
                        assert(fails[0] == w && errs[0] == e);
                        assert(parsers@.len() - idx == 1);
                        assert(fails.len() == 1 && errs.len() == 1);
                        assert(forall|m: int| 0 <= m < parsers@.len() - idx ==> mut_ref_current(#[trigger] fails[m])@ == old(self)@
                            && parsers@[idx + m].ensures((fails[m],), Err(errs[m])));
                        assert(errs.last() == e);
                    }
                    return Err(e);
                }
                let r = self.choice_from(parsers, idx + 1);
                proof {
                    if r is Ok {
                        let v = r->Ok_0;
                        {
                            let (k, fs, es) = choose|k: int, fails: Seq<&mut Input<'a>>, errs: Seq<ParseError>| #![trigger parsers@[k], fails.len(), errs.len()] idx + 1 <= k < parsers@.len()
                                && fails.len() == k - (idx + 1) && errs.len() == k - (idx + 1)
                    && (forall|m: int| 0 <= m < k - (idx + 1) ==> mut_ref_current(#[trigger] fails[m])@ == old(self)@
                        && parsers@[idx + 1 + m].ensures((fails[m],), Err(errs[m])))
                                && exists|i: &mut Input<'a>| mut_ref_current(i)@ == old(self)@ && mut_ref_future(i)@ == self@
                                    && parsers@[k].ensures((i,), Ok(v));
                            let w = choose|i: &mut Input<'a>| mut_ref_current(i)@ == before && parsers@[idx as int].ensures((i,), Err(e));
                            let fails = seq![w] + fs;
                            let errs = seq![e] + es;
                            assert(forall|m: int| 0 < m < fails.len() ==> fails[m] == fs[m - 1] && errs[m] == es[m - 1]);
                            assert(fails[0] == w && errs[0] == e);
                            assert(forall|m: int| 0 <= m < k - idx ==> mut_ref_current(#[trigger] fails[m])@ == old(self)@
                                && parsers@[idx + m].ensures((fails[m],), Err(errs[m])));
                            assert(fails.len() == k - idx && errs.len() == k - idx);
                            assert(exists|i: &mut Input<'a>| mut_ref_current(i)@ == old(self)@ && mut_ref_future(i)@ == self@
                                && parsers@[k].ensures((i,), Ok(v)));
                        }
                    } else {
                        let e2 = r->Err_0;
                        {
                            let (fs, es) = choose|fails: Seq<&mut Input<'a>>, errs: Seq<ParseError>| #![trigger fails.len(), errs.len()]
                                fails.len() == parsers@.len() - (idx + 1) && errs.len() == parsers@.len() - (idx + 1)
                    && (forall|m: int| 0 <= m < parsers@.len() - (idx + 1) ==> mut_ref_current(#[trigger] fails[m])@ == old(self)@
                        && parsers@[idx + 1 + m].ensures((fails[m],), Err(errs[m]))) && errs.last() == e2;
                            let w = choose|i: &mut Input<'a>| mut_ref_current(i)@ == before && parsers@[idx as int].ensures((i,), Err(e));
                            let fails = seq![w] + fs;
                            let errs = seq![e] + es;
                            assert(forall|m: int| 0 < m < fails.len() ==> fails[m] == fs[m - 1] && errs[m] == es[m - 1]);
                            assert(fails[0] == w && errs[0] == e);
                            assert(forall|m: int| 0 <= m < parsers@.len() - idx ==> mut_ref_current(#[trigger] fails[m])@ == old(self)@
                                && parsers@[idx + m].ensures((fails[m],), Err(errs[m])));
                            assert(fails.len() == parsers@.len() - idx && errs.len() == parsers@.len() - idx);
                            assert(errs.last() == e2);
                        }
                    }
                }
                r
            },
        }
    }

    /// Tries each scanner in order from where the cursor stands and returns the
    /// first success: the value of scanner `k`, after one call of each earlier
    /// scanner failed from the same cursor. When all fail, the cursor is back
    /// where it was and the last scanner's error is returned.
    pub fn choice<T, F: Fn(&mut Input<'a>) -> Result<T, ParseError>>(&mut self, parsers: &[F]) -> (r: Result<T, ParseError>)
        requires
            parsers@.len() > 0,
            forall|k: int, i: &mut Input<'a>| 0 <= k < parsers@.len() ==> parsers@[k].requires((i,)),
        ensures
            match r {
                Ok(v) => exists|k: int, fails: Seq<&mut Input<'a>>, errs: Seq<ParseError>| #![trigger parsers@[k], fails.len(), errs.len()] 0 <= k < parsers@.len()
                    && fails.len() == k && errs.len() == k
                    && (forall|m: int| 0 <= m < k ==> mut_ref_current(#[trigger] fails[m])@ == old(self)@
                        && parsers@[0 + m].ensures((fails[m],), Err(errs[m])))
                    && exists|i: &mut Input<'a>| mut_ref_current(i)@ == old(self)@ && mut_ref_future(i)@ == final(self)@
                        && parsers@[k].ensures((i,), Ok(v)),
                Err(e) => final(self)@ == old(self)@ && exists|fails: Seq<&mut Input<'a>>, errs: Seq<ParseError>| #![trigger fails.len(), errs.len()]
                    fails.len() == parsers@.len() && errs.len() == parsers@.len()
                    && (forall|m: int| 0 <= m < parsers@.len() ==> mut_ref_current(#[trigger] fails[m])@ == old(self)@
                        && parsers@[0 + m].ensures((fails[m],), Err(errs[m]))) && errs.last() == e,
            },
    {
        self.choice_from(parsers, 0)
    }
}

/// A call returning `v` in front of a chain of separated calls that starts
/// where a separator after it left the cursor makes a chain one longer, whose
/// first call is that call and whose last call is the chain's last, if any.
proof fn lemma_prepend_call<'a, T, F: Fn(&mut Input<'a>) -> Result<T, ParseError>>(
    parse: F,
    w: &mut Input<'a>,
    v: T,
    tail: Seq<&mut Input<'a>>,
    vals: Seq<T>,
)
    requires
        parse.ensures((w,), Ok(v)),
        tail.len() == vals.len(),
        forall|k: int| 0 <= k < tail.len() ==> parse.ensures((#[trigger] tail[k],), Ok(vals[k])),
        forall|k: int| 0 < k < tail.len() ==> linked(mut_ref_future(tail[k - 1])@, mut_ref_current(#[trigger] tail[k])@),
        tail.len() > 0 ==> linked(mut_ref_future(w)@, mut_ref_current(tail[0])@),
    ensures
        (seq![w] + tail).len() == (seq![v] + vals).len(),
        (seq![w] + tail)[0] == w,
        forall|k: int| 0 <= k < (seq![w] + tail).len() ==> parse.ensures((#[trigger] (seq![w] + tail)[k],), Ok((seq![v] + vals)[k])),
        forall|k: int| 0 < k < (seq![w] + tail).len() ==> linked(mut_ref_future((seq![w] + tail)[k - 1])@,
            mut_ref_current(#[trigger] (seq![w] + tail)[k])@),
{
    let calls = seq![w] + tail;
    let all = seq![v] + vals;
    assert(forall|k: int| 0 < k < calls.len() ==> calls[k] == tail[k - 1] && all[k] == vals[k - 1]);
    assert(calls[0] == w && all[0] == v);
    assert forall|k: int| 0 < k < calls.len() implies linked(mut_ref_future(calls[k - 1])@,
        mut_ref_current(#[trigger] calls[k])@) by {
        assert(calls[k] == tail[k - 1]);
        if k > 1 {
            assert(calls[k - 1] == tail[k - 2]);
        }
    }
}

/// A chain of no calls leaves the cursor where it was.
proof fn lemma_chain_empty<'a, T, F: Fn(&mut Input<'a>) -> Result<T, ParseError>>(parse: F, before: InputView)
    ensures
        exists|calls: Seq<&mut Input<'a>>| {
            &&& calls.len() == Seq::<T>::empty().len()
            &&& forall|k: int| 0 <= k < calls.len() ==> parse.ensures((#[trigger] calls[k],), Ok(Seq::<T>::empty()[k]))
            &&& forall|k: int| 0 <= k < calls.len() ==> mut_ref_current(#[trigger] calls[k])@
                == if k == 0 { before } else { mut_ref_future(calls[k - 1])@ }
            &&& before == if calls.len() == 0 { before } else { mut_ref_future(calls.last())@ }
        },
{
    let calls = Seq::<&mut Input<'a>>::empty();
    assert(calls.len() == Seq::<T>::empty().len());
}

/// A call from `before` to `mid` returning `v`, followed by a chain of calls
/// from `mid` to `after` returning `vals`, is a chain from `before` to `after`.
proof fn lemma_chain_cons<'a, T, F: Fn(&mut Input<'a>) -> Result<T, ParseError>>(
    parse: F,
    v: T,
    vals: Seq<T>,
    before: InputView,
    mid: InputView,
    after: InputView,
)
    requires
        exists|i: &mut Input<'a>| mut_ref_current(i)@ == before && mut_ref_future(i)@ == mid
            && parse.ensures((i,), Ok(v)),
        exists|calls: Seq<&mut Input<'a>>| {
            &&& calls.len() == vals.len()
            &&& forall|k: int| 0 <= k < calls.len() ==> parse.ensures((#[trigger] calls[k],), Ok(vals[k]))
            &&& forall|k: int| 0 <= k < calls.len() ==> mut_ref_current(#[trigger] calls[k])@
                == if k == 0 { mid } else { mut_ref_future(calls[k - 1])@ }
            &&& after == if calls.len() == 0 { mid } else { mut_ref_future(calls.last())@ }
        },
    ensures
        exists|calls: Seq<&mut Input<'a>>| {
            &&& calls.len() == (seq![v] + vals).len()
            &&& forall|k: int| 0 <= k < calls.len() ==> parse.ensures((#[trigger] calls[k],), Ok((seq![v] + vals)[k]))
            &&& forall|k: int| 0 <= k < calls.len() ==> mut_ref_current(#[trigger] calls[k])@
                == if k == 0 { before } else { mut_ref_future(calls[k - 1])@ }
            &&& after == if calls.len() == 0 { before } else { mut_ref_future(calls.last())@ }
        },
{
    let w = choose|i: &mut Input<'a>| mut_ref_current(i)@ == before && mut_ref_future(i)@ == mid
        && parse.ensures((i,), Ok(v));
    let tail = choose|calls: Seq<&mut Input<'a>>| {
        &&& calls.len() == vals.len()
        &&& forall|k: int| 0 <= k < calls.len() ==> parse.ensures((#[trigger] calls[k],), Ok(vals[k]))
        &&& forall|k: int| 0 <= k < calls.len() ==> mut_ref_current(#[trigger] calls[k])@
            == if k == 0 { mid } else { mut_ref_future(calls[k - 1])@ }
        &&& after == if calls.len() == 0 { mid } else { mut_ref_future(calls.last())@ }
    };
    let all = seq![v] + vals;
    let calls = seq![w] + tail;
    assert(forall|k: int| 0 < k < calls.len() ==> calls[k] == tail[k - 1]);
    assert(forall|k: int| 0 < k < calls.len() ==> all[k] == vals[k - 1]);
    assert(forall|k: int| 0 <= k < calls.len() ==> parse.ensures((#[trigger] calls[k],), Ok(all[k])));
    assert(forall|k: int| 0 <= k < calls.len() ==> mut_ref_current(#[trigger] calls[k])@
        == if k == 0 { before } else { mut_ref_future(calls[k - 1])@ });
}

impl<'a> RestorePoint<'a> {
    #[verifier::type_invariant]
    spec fn inv(self) -> bool {
        self.pos <= self.data@.len()
    }
}

} // verus!
