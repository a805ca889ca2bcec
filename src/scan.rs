//! The scanner core: how one token is read from a character sequence.
//!
//! Everything here works on character indices; the two lexers turn index
//! spans into positions.
use vstd::prelude::*;

use crate::error::{ErrorKind, ErrorType};
use crate::tokens::{Token, TokenView};
use crate::string_from;

verus! {

pub open spec fn is_space(c: char) -> bool {
    c == ' ' || c == '\t' || c == '\r' || c == '\n'
}

pub open spec fn is_digit(c: char) -> bool {
    '0' <= c && c <= '9'
}

pub open spec fn is_ident_start(c: char) -> bool {
    ('a' <= c && c <= 'z') || ('A' <= c && c <= 'Z') || c == '_'
}

pub open spec fn is_ident_char(c: char) -> bool {
    is_ident_start(c) || is_digit(c)
}

pub open spec fn digit_value(c: char) -> int {
    c as int - '0' as int
}

/// The value of a run of decimal digits.
pub open spec fn digits_value(d: Seq<char>) -> int
    decreases d.len(),
{
    if d.len() == 0 {
        0
    } else {
        10 * digits_value(d.drop_last()) + digit_value(d.last())
    }
}

/// The end of the run of digits that starts at `i`.
pub open spec fn digit_run_end(s: Seq<char>, i: int) -> int
    decreases s.len() - i,
{
    if 0 <= i < s.len() && is_digit(s[i]) {
        digit_run_end(s, i + 1)
    } else {
        i
    }
}

/// The end of the run of identifier characters that starts at `i`.
pub open spec fn ident_run_end(s: Seq<char>, i: int) -> int
    decreases s.len() - i,
{
    if 0 <= i < s.len() && is_ident_char(s[i]) {
        ident_run_end(s, i + 1)
    } else {
        i
    }
}

/// What scanning at one index yields; `end` is the index after the last
/// character that the step consumed.
pub enum Step {
    Skip,
    Emit(TokenView, int),
    Fail(ErrorKind, int),
}

pub open spec fn step_end(step: Step, i: int) -> int {
    match step {
        Step::Skip => i + 1,
        Step::Emit(_, end) => end,
        Step::Fail(_, end) => end,
    }
}

pub open spec fn scan_number(s: Seq<char>, i: int) -> Step {
    let j = digit_run_end(s, i);
    if j < s.len() && s[j] == '.' {
        let k = digit_run_end(s, j + 1);
        Step::Emit(TokenView::Float(s.subrange(i, k)), k)
    } else {
        let v = digits_value(s.subrange(i, j));
        if v <= i64::MAX {
            Step::Emit(TokenView::Int(v as i64), j)
        } else {
            Step::Fail(ErrorKind::IntOverflow, j)
        }
    }
}

pub open spec fn scan_word(s: Seq<char>, i: int, keywords: Seq<Seq<char>>) -> Step {
    let j = ident_run_end(s, i);
    let w = s.subrange(i, j);
    if keywords.contains(w) {
        Step::Emit(TokenView::Keyword(w), j)
    } else {
        Step::Emit(TokenView::Ident(w), j)
    }
}

/// The escapes of a character literal.
pub open spec fn char_escape(c: char) -> Option<char> {
    if c == 'n' {
        Some('\n')
    } else if c == 't' {
        Some('\t')
    } else if c == 'r' {
        Some('\r')
    } else if c == '\\' {
        Some('\\')
    } else if c == '\'' {
        Some('\'')
    } else {
        None
    }
}

/// The escapes of a string literal.
pub open spec fn string_escape(c: char) -> Option<char> {
    if c == 'n' {
        Some('\n')
    } else if c == 't' {
        Some('\t')
    } else if c == 'r' {
        Some('\r')
    } else if c == '\\' {
        Some('\\')
    } else if c == '"' {
        Some('"')
    } else {
        None
    }
}

/// The closing quote of a character literal whose value is `d`, expected at `k`.
pub open spec fn char_close(s: Seq<char>, k: int, d: char) -> Step {
    if k >= s.len() {
        Step::Fail(ErrorKind::BadChar(d), k)
    } else if s[k] == '\'' {
        Step::Emit(TokenView::Char(d), k + 1)
    } else {
        Step::Fail(ErrorKind::BadChar(d), k + 1)
    }
}

/// A character literal whose opening quote is at `i`.
pub open spec fn scan_char_literal(s: Seq<char>, i: int) -> Step {
    if i + 1 >= s.len() {
        Step::Fail(ErrorKind::BadChar('\''), i + 1)
    } else if s[i + 1] == '\\' {
        if i + 2 >= s.len() {
            Step::Fail(ErrorKind::BadChar('\\'), i + 2)
        } else {
            match char_escape(s[i + 2]) {
                Some(d) => char_close(s, i + 3, d),
                None => Step::Fail(ErrorKind::BadChar('\\'), i + 3),
            }
        }
    } else {
        char_close(s, i + 2, s[i + 1])
    }
}

/// The rest of a string literal from `k`, with `acc` decoded so far.
pub open spec fn scan_string_body(s: Seq<char>, k: int, acc: Seq<char>) -> Step
    decreases s.len() - k,
{
    if k >= s.len() {
        Step::Fail(ErrorKind::UnclosedString, s.len() as int)
    } else if s[k] == '"' {
        Step::Emit(TokenView::Str(acc), k + 1)
    } else if s[k] == '\\' {
        if k + 1 >= s.len() {
            Step::Fail(ErrorKind::UnclosedString, s.len() as int)
        } else {
            match string_escape(s[k + 1]) {
                Some(d) => scan_string_body(s, k + 2, acc.push(d)),
                None => Step::Fail(ErrorKind::BadChar('\\'), k + 2),
            }
        }
    } else {
        scan_string_body(s, k + 1, acc.push(s[k]))
    }
}

pub open spec fn has_prefix(sym: Seq<char>, cand: Seq<char>) -> bool {
    cand.len() <= sym.len() && sym.subrange(0, cand.len() as int) == cand
}

/// How many configured symbols start with `cand` (equal to it included).
pub open spec fn count_prefixed(symbols: Seq<Seq<char>>, cand: Seq<char>) -> nat
    decreases symbols.len(),
{
    if symbols.len() == 0 {
        0
    } else {
        count_prefixed(symbols.drop_last(), cand) + if has_prefix(symbols.last(), cand) {
            1nat
        } else {
            0nat
        }
    }
}

/// The longest-match search: the candidate is `s[i..k]`; it grows while more
/// than one symbol starts with it, and gives back its last character when
/// none does.
pub open spec fn match_end(s: Seq<char>, symbols: Seq<Seq<char>>, i: int, k: int) -> int
    decreases s.len() - k,
{
    if k >= s.len() {
        k
    } else {
        let n = count_prefixed(symbols, s.subrange(i, k));
        if n == 0 {
            if k - i > 1 {
                k - 1
            } else {
                k
            }
        } else if n == 1 {
            k
        } else {
            match_end(s, symbols, i, k + 1)
        }
    }
}

pub open spec fn scan_symbol(s: Seq<char>, i: int, symbols: Seq<Seq<char>>) -> Step {
    if symbols.len() == 0 {
        Step::Emit(TokenView::Symbol(s[i]), i + 1)
    } else {
        let e = match_end(s, symbols, i, i + 1);
        let cand = s.subrange(i, e);
        if symbols.contains(cand) {
            if e - i == 1 {
                Step::Emit(TokenView::Symbol(s[i]), e)
            } else {
                Step::Emit(TokenView::LongSymbol(cand), e)
            }
        } else {
            Step::Fail(ErrorKind::InvalidSymbol(cand), e)
        }
    }
}

/// One step of the scanner at index `i`, dispatched on the character there.
pub open spec fn scan_at(
    s: Seq<char>,
    symbols: Seq<Seq<char>>,
    keywords: Seq<Seq<char>>,
    i: int,
) -> Step {
    let c = s[i];
    if is_space(c) {
        Step::Skip
    } else if is_digit(c) {
        scan_number(s, i)
    } else if is_ident_start(c) {
        scan_word(s, i, keywords)
    } else if c == '\'' {
        scan_char_literal(s, i)
    } else if c == '"' {
        scan_string_body(s, i + 1, Seq::empty())
    } else {
        scan_symbol(s, i, symbols)
    }
}

pub proof fn lemma_digit_run_end(s: Seq<char>, i: int)
    requires
        0 <= i <= s.len(),
    ensures
        i <= digit_run_end(s, i) <= s.len(),
        forall|k: int| i <= k < digit_run_end(s, i) ==> is_digit(#[trigger] s[k]),
        digit_run_end(s, i) < s.len() ==> !is_digit(s[digit_run_end(s, i)]),
    decreases s.len() - i,
{
    if i < s.len() && is_digit(s[i]) {
        lemma_digit_run_end(s, i + 1);
    }
}

pub proof fn lemma_ident_run_end(s: Seq<char>, i: int)
    requires
        0 <= i <= s.len(),
    ensures
        i <= ident_run_end(s, i) <= s.len(),
        forall|k: int| i <= k < ident_run_end(s, i) ==> is_ident_char(#[trigger] s[k]),
        ident_run_end(s, i) < s.len() ==> !is_ident_char(s[ident_run_end(s, i)]),
    decreases s.len() - i,
{
    if i < s.len() && is_ident_char(s[i]) {
        lemma_ident_run_end(s, i + 1);
    }
}

pub proof fn lemma_string_body_end(s: Seq<char>, k: int, acc: Seq<char>)
    requires
        0 <= k <= s.len(),
    ensures
        k < step_end(scan_string_body(s, k, acc), k) <= s.len() || (k == s.len()
            && step_end(scan_string_body(s, k, acc), k) == s.len()),
        !(scan_string_body(s, k, acc) is Skip),
    decreases s.len() - k,
{
    if k < s.len() && s[k] != '"' {
        if s[k] == '\\' {
            if k + 1 < s.len() && string_escape(s[k + 1]) is Some {
                lemma_string_body_end(s, k + 2, acc.push(string_escape(s[k + 1])->0));
            }
        } else {
            lemma_string_body_end(s, k + 1, acc.push(s[k]));
        }
    }
}

pub proof fn lemma_match_end(s: Seq<char>, symbols: Seq<Seq<char>>, i: int, k: int)
    requires
        0 <= i < k <= s.len(),
    ensures
        i < match_end(s, symbols, i, k) <= s.len(),
    decreases s.len() - k,
{
    if k < s.len() && count_prefixed(symbols, s.subrange(i, k)) > 1 {
        lemma_match_end(s, symbols, i, k + 1);
    }
}

/// A step always consumes at least one character and stays in the input.
pub proof fn lemma_scan_at_end(
    s: Seq<char>,
    symbols: Seq<Seq<char>>,
    keywords: Seq<Seq<char>>,
    i: int,
)
    requires
        0 <= i < s.len(),
    ensures
        i < step_end(scan_at(s, symbols, keywords, i), i) <= s.len(),
        scan_at(s, symbols, keywords, i) is Skip <==> is_space(s[i]),
{
    let c = s[i];
    if is_digit(c) {
        lemma_digit_run_end(s, i);
        let j = digit_run_end(s, i);
        if j < s.len() && s[j] == '.' {
            lemma_digit_run_end(s, j + 1);
        }
    } else if is_ident_start(c) {
        lemma_ident_run_end(s, i);
    } else if c == '"' {
        lemma_string_body_end(s, i + 1, Seq::empty());
    } else if !is_space(c) && c != '\'' && symbols.len() > 0 {
        lemma_match_end(s, symbols, i, i + 1);
    }
}

/// A token together with the index span `start..end` it was scanned from.
pub struct Spanned {
    pub token: TokenView,
    pub start: int,
    pub end: int,
}

/// An error together with the index span `start..end` it covers.
pub struct Failure {
    pub kind: ErrorKind,
    pub start: int,
    pub end: int,
}

/// Puts `front` before the items of a successful result; an error stays.
pub open spec fn prepend<A, E>(front: Seq<A>, r: Result<Seq<A>, E>) -> Result<Seq<A>, E> {
    match r {
        Ok(rest) => Ok(front + rest),
        Err(e) => Err(e),
    }
}

pub proof fn lemma_prepend_twice<A, E>(a: Seq<A>, b: Seq<A>, r: Result<Seq<A>, E>)
    ensures
        prepend(a, prepend(b, r)) == prepend(a + b, r),
{
    if let Ok(rest) = r {
        assert(a + (b + rest) =~= (a + b) + rest);
    }
}

/// Scans `s` from index `i` to its end: the tokens in order, or the first error.
pub open spec fn scan_all(
    s: Seq<char>,
    symbols: Seq<Seq<char>>,
    keywords: Seq<Seq<char>>,
    i: int,
) -> Result<Seq<Spanned>, Failure>
    decreases s.len() - i,
    via scan_all_decreases
{
    if i < 0 || i >= s.len() {
        Ok(Seq::empty())
    } else {
        match scan_at(s, symbols, keywords, i) {
            Step::Skip => scan_all(s, symbols, keywords, i + 1),
            Step::Emit(t, j) => prepend(
                seq![Spanned { token: t, start: i, end: j }],
                scan_all(s, symbols, keywords, j),
            ),
            Step::Fail(e, j) => Err(Failure { kind: e, start: i, end: j }),
        }
    }
}

#[via_fn]
proof fn scan_all_decreases(
    s: Seq<char>,
    symbols: Seq<Seq<char>>,
    keywords: Seq<Seq<char>>,
    i: int,
) {
    if 0 <= i < s.len() {
        lemma_scan_at_end(s, symbols, keywords, i);
    }
}

/// The spans `ts` lie in order inside `s[i..]`, each nonempty, apart from
/// one another, and every character of `s[i..]` outside them is whitespace.
pub open spec fn spans_tile(s: Seq<char>, ts: Seq<Spanned>, i: int) -> bool {
    &&& forall|k: int| 0 <= k < ts.len() ==> i <= #[trigger] ts[k].start < ts[k].end <= s.len()
    &&& forall|a: int, b: int| 0 <= a < b < ts.len() ==> #[trigger] ts[a].end <= #[trigger] ts[b].start
    &&& forall|j: int|
        i <= j < s.len() ==> is_space(#[trigger] s[j]) || exists|k: int|
            0 <= k < ts.len() && #[trigger] ts[k].start <= j < ts[k].end
}

/// What a successful scan from `i` returns tiles `s[i..]`.
pub proof fn lemma_scan_all_tiles(
    s: Seq<char>,
    symbols: Seq<Seq<char>>,
    keywords: Seq<Seq<char>>,
    i: int,
)
    requires
        0 <= i <= s.len(),
    ensures
        scan_all(s, symbols, keywords, i) is Ok ==> spans_tile(
            s,
            scan_all(s, symbols, keywords, i)->Ok_0,
            i,
        ),
    decreases s.len() - i,
{
    if i < s.len() {
        lemma_scan_at_end(s, symbols, keywords, i);
        match scan_at(s, symbols, keywords, i) {
            Step::Skip => {
                lemma_scan_all_tiles(s, symbols, keywords, i + 1);
                assert(scan_all(s, symbols, keywords, i) == scan_all(s, symbols, keywords, i + 1));
                assert(is_space(s[i]));
            },
            Step::Emit(t, e) => {
                lemma_scan_all_tiles(s, symbols, keywords, e);
                if let Ok(rest) = scan_all(s, symbols, keywords, e) {
                    let sp = Spanned { token: t, start: i, end: e };
                    let ts = seq![sp] + rest;
                    assert(scan_all(s, symbols, keywords, i) == Ok::<Seq<Spanned>, Failure>(ts));
                    assert forall|k: int| 0 <= k < ts.len() implies i <= #[trigger] ts[k].start
                        < ts[k].end <= s.len() by {
                        if k > 0 {
                            assert(ts[k] == rest[k - 1]);
                        }
                    }
                    assert forall|a: int, b: int| 0 <= a < b < ts.len() implies #[trigger] ts[a].end
                        <= #[trigger] ts[b].start by {
                        assert(ts[b] == rest[b - 1]);
                        if a > 0 {
                            assert(ts[a] == rest[a - 1]);
                        }
                    }
                    assert forall|j: int| i <= j < s.len() implies is_space(#[trigger] s[j])
                        || exists|k: int| 0 <= k < ts.len() && #[trigger] ts[k].start <= j
                        < ts[k].end by {
                        if j < e {
                            assert(ts[0] == sp);
                            assert(ts[0].start <= j < ts[0].end);
                        } else if !is_space(s[j]) {
                            let k = choose|k: int|
                                0 <= k < rest.len() && #[trigger] rest[k].start <= j < rest[k].end;
                            assert(ts[k + 1] == rest[k]);
                            assert(ts[k + 1].start <= j < ts[k + 1].end);
                        }
                    }
                }
            },
            Step::Fail(_, _) => {},
        }
    } else {
        assert(scan_all(s, symbols, keywords, i) == Ok::<Seq<Spanned>, Failure>(Seq::empty()));
    }
}

proof fn lemma_string_body_unclosed(s: Seq<char>, k: int, acc: Seq<char>)
    requires
        0 <= k <= s.len(),
        forall|j: int| k <= j < s.len() ==> #[trigger] s[j] != '"' && s[j] != '\\',
    ensures
        scan_string_body(s, k, acc) == Step::Fail(ErrorKind::UnclosedString, s.len() as int),
    decreases s.len() - k,
{
    if k < s.len() {
        lemma_string_body_unclosed(s, k + 1, acc.push(s[k]));
    }
}

/// A string literal with no closing quote and no escape before the end of
/// the input fails as unclosed, over the span from its opening quote to the
/// end of the input.
pub proof fn lemma_unclosed_string(
    s: Seq<char>,
    symbols: Seq<Seq<char>>,
    keywords: Seq<Seq<char>>,
    i: int,
)
    requires
        0 <= i < s.len(),
        s[i] == '"',
        forall|j: int| i < j < s.len() ==> #[trigger] s[j] != '"' && s[j] != '\\',
    ensures
        scan_all(s, symbols, keywords, i) == Err::<Seq<Spanned>, Failure>(
            Failure { kind: ErrorKind::UnclosedString, start: i, end: s.len() as int },
        ),
{
    lemma_string_body_unclosed(s, i + 1, Seq::empty());
}

/// A character literal whose character is not followed by a closing quote
/// fails with `BadChar` of that character, over the three characters read.
pub proof fn lemma_malformed_char_literal(
    s: Seq<char>,
    symbols: Seq<Seq<char>>,
    keywords: Seq<Seq<char>>,
    i: int,
)
    requires
        0 <= i,
        i + 2 < s.len(),
        s[i] == '\'',
        s[i + 1] != '\\',
        s[i + 2] != '\'',
    ensures
        scan_all(s, symbols, keywords, i) == Err::<Seq<Spanned>, Failure>(
            Failure { kind: ErrorKind::BadChar(s[i + 1]), start: i, end: i + 3 },
        ),
{
}

/// The views of a list of character vectors.
pub open spec fn views(v: Seq<Vec<char>>) -> Seq<Seq<char>> {
    v.map_values(|x: Vec<char>| x@)
}

/// The result of one step of the executable scanner.
pub enum Scan {
    Skip,
    Emit(Token, usize),
    Fail(ErrorType, usize),
}

impl View for Scan {
    type V = Step;

    open spec fn view(&self) -> Step {
        match self {
            Scan::Skip => Step::Skip,
            Scan::Emit(t, end) => Step::Emit(t@, *end as int),
            Scan::Fail(e, end) => Step::Fail(e@, *end as int),
        }
    }
}

fn is_space_char(c: char) -> (r: bool)
    ensures
        r == is_space(c),
{
    c == ' ' || c == '\t' || c == '\r' || c == '\n'
}

fn is_digit_char(c: char) -> (r: bool)
    ensures
        r == is_digit(c),
{
    '0' <= c && c <= '9'
}

fn is_ident_start_char(c: char) -> (r: bool)
    ensures
        r == is_ident_start(c),
{
    ('a' <= c && c <= 'z') || ('A' <= c && c <= 'Z') || c == '_'
}

fn is_ident_char_exec(c: char) -> (r: bool)
    ensures
        r == is_ident_char(c),
{
    is_ident_start_char(c) || is_digit_char(c)
}

/// The characters `s[i..j]` as a vector.
fn copy_range(s: &Vec<char>, i: usize, j: usize) -> (r: Vec<char>)
    requires
        i <= j <= s.len(),
    ensures
        r@ == s@.subrange(i as int, j as int),
{
    let mut r: Vec<char> = Vec::new();
    let mut k = i;
    while k < j
        invariant
            i <= k <= j <= s.len(),
            r@ == s@.subrange(i as int, k as int),
        decreases j - k,
    {
        r.push(s[k]);
        k += 1;
        assert(r@ =~= s@.subrange(i as int, k as int));
    }
    r
}

/// Whether two character vectors hold the same characters.
fn chars_equal(a: &Vec<char>, b: &Vec<char>) -> (r: bool)
    ensures
        r == (a@ == b@),
{
    if a.len() != b.len() {
        return false;
    }
    let mut k: usize = 0;
    while k < a.len()
        invariant
            a.len() == b.len(),
            k <= a.len(),
            forall|m: int| 0 <= m < k ==> a@[m] == b@[m],
        decreases a.len() - k,
    {
        if a[k] != b[k] {
            return false;
        }
        k += 1;
    }
    assert(a@ =~= b@);
    true
}

/// Whether `list` holds a vector equal to `w`.
fn contains_word(list: &Vec<Vec<char>>, w: &Vec<char>) -> (r: bool)
    ensures
        r == views(list@).contains(w@),
{
    let mut k: usize = 0;
    while k < list.len()
        invariant
            k <= list.len(),
            forall|m: int| 0 <= m < k ==> list@[m]@ != w@,
        decreases list.len() - k,
    {
        if chars_equal(&list[k], w) {
            assert(views(list@)[k as int] == w@);
            return true;
        }
        k += 1;
    }
    assert forall|m: int| 0 <= m < views(list@).len() implies views(list@)[m] != w@ by {
        assert(views(list@)[m] == list@[m]@);
    }
    false
}

/// Whether `sym` starts with `cand`.
fn starts_with(sym: &Vec<char>, cand: &Vec<char>) -> (r: bool)
    ensures
        r == has_prefix(sym@, cand@),
{
    if cand.len() > sym.len() {
        return false;
    }
    let mut k: usize = 0;
    while k < cand.len()
        invariant
            cand.len() <= sym.len(),
            k <= cand.len(),
            forall|m: int| 0 <= m < k ==> sym@[m] == cand@[m],
        decreases cand.len() - k,
    {
        if sym[k] != cand[k] {
            assert(sym@.subrange(0, cand@.len() as int)[k as int] != cand@[k as int]);
            return false;
        }
        k += 1;
    }
    assert(sym@.subrange(0, cand@.len() as int) =~= cand@);
    true
}

/// How many entries of `symbols` start with `cand`.
fn count_prefixed_in(symbols: &Vec<Vec<char>>, cand: &Vec<char>) -> (r: usize)
    ensures
        r == count_prefixed(views(symbols@), cand@),
{
    let mut n: usize = 0;
    let mut k: usize = 0;
    while k < symbols.len()
        invariant
            k <= symbols.len(),
            n <= k,
            n == count_prefixed(views(symbols@).take(k as int), cand@),
        decreases symbols.len() - k,
    {
        assert(views(symbols@).take(k + 1).drop_last() =~= views(symbols@).take(k as int));
        assert(views(symbols@).take(k + 1).last() == symbols@[k as int]@);
        if starts_with(&symbols[k], cand) {
            n += 1;
        }
        k += 1;
    }
    assert(views(symbols@).take(k as int) =~= views(symbols@));
    n
}

fn digit_run(s: &Vec<char>, i: usize) -> (j: usize)
    requires
        i <= s.len(),
    ensures
        j == digit_run_end(s@, i as int),
{
    let mut j = i;
    while j < s.len() && is_digit_char(s[j])
        invariant
            i <= j <= s.len(),
            digit_run_end(s@, i as int) == digit_run_end(s@, j as int),
        decreases s.len() - j,
    {
        j += 1;
    }
    j
}

fn ident_run(s: &Vec<char>, i: usize) -> (j: usize)
    requires
        i <= s.len(),
    ensures
        j == ident_run_end(s@, i as int),
{
    let mut j = i;
    while j < s.len() && is_ident_char_exec(s[j])
        invariant
            i <= j <= s.len(),
            ident_run_end(s@, i as int) == ident_run_end(s@, j as int),
        decreases s.len() - j,
    {
        j += 1;
    }
    j
}

proof fn lemma_digits_value_nonneg(d: Seq<char>)
    requires
        forall|k: int| 0 <= k < d.len() ==> is_digit(#[trigger] d[k]),
    ensures
        digits_value(d) >= 0,
    decreases d.len(),
{
    if d.len() > 0 {
        lemma_digits_value_nonneg(d.drop_last());
    }
}

/// A longer run of digits is worth at least as much as its prefix.
proof fn lemma_digits_value_grows(s: Seq<char>, i: int, k: int, j: int)
    requires
        0 <= i <= k <= j <= s.len(),
        forall|m: int| i <= m < j ==> is_digit(#[trigger] s[m]),
    ensures
        digits_value(s.subrange(i, k)) <= digits_value(s.subrange(i, j)),
    decreases j - k,
{
    if k < j {
        lemma_digits_value_grows(s, i, k, j - 1);
        assert(s.subrange(i, j).drop_last() =~= s.subrange(i, j - 1));
        lemma_digits_value_nonneg(s.subrange(i, j - 1));
    }
}

/// The value of the digits `s[i..j]`, or `None` where it exceeds `i64::MAX`.
fn digits_to_i64(s: &Vec<char>, i: usize, j: usize) -> (r: Option<i64>)
    requires
        i <= j <= s.len(),
        forall|m: int| i <= m < j ==> is_digit(#[trigger] s@[m]),
    ensures
        match r {
            Some(v) => v as int == digits_value(s@.subrange(i as int, j as int)),
            None => digits_value(s@.subrange(i as int, j as int)) > i64::MAX,
        },
{
    let mut v: i64 = 0;
    let mut k = i;
    while k < j
        invariant
            i <= k <= j <= s.len(),
            forall|m: int| i <= m < j ==> is_digit(#[trigger] s@[m]),
            v as int == digits_value(s@.subrange(i as int, k as int)),
        decreases j - k,
    {
        assert(s@.subrange(i as int, k + 1).drop_last() =~= s@.subrange(i as int, k as int));
        let d = (s[k] as u32 - '0' as u32) as i64;
        proof {
            lemma_digits_value_nonneg(s@.subrange(i as int, k as int));
        }
        match v.checked_mul(10) {
            Some(t) => match t.checked_add(d) {
                Some(u) => {
                    v = u;
                },
                None => {
                    proof {
                        lemma_digits_value_grows(s@, i as int, k + 1, j as int);
                    }
                    return None;
                },
            },
            None => {
                proof {
                    lemma_digits_value_grows(s@, i as int, k + 1, j as int);
                }
                return None;
            },
        }
        k += 1;
    }
    Some(v)
}

fn scan_number_at(s: &Vec<char>, i: usize) -> (r: Scan)
    requires
        i < s.len(),
        is_digit(s@[i as int]),
    ensures
        r@ == scan_number(s@, i as int),
{
    let j = digit_run(s, i);
    proof {
        lemma_digit_run_end(s@, i as int);
    }
    if j < s.len() && s[j] == '.' {
        let k = digit_run(s, j + 1);
        proof {
            lemma_digit_run_end(s@, j + 1);
        }
        let text = copy_range(s, i, k);
        Scan::Emit(Token::Float(string_from(text.as_slice())), k)
    } else {
        match digits_to_i64(s, i, j) {
            Some(v) => Scan::Emit(Token::Int(v), j),
            None => Scan::Fail(ErrorType::IntOverflow, j),
        }
    }
}

fn scan_word_at(s: &Vec<char>, i: usize, keywords: &Vec<Vec<char>>) -> (r: Scan)
    requires
        i < s.len(),
    ensures
        r@ == scan_word(s@, i as int, views(keywords@)),
{
    let j = ident_run(s, i);
    proof {
        lemma_ident_run_end(s@, i as int);
    }
    let w = copy_range(s, i, j);
    if contains_word(keywords, &w) {
        Scan::Emit(Token::Keyword(string_from(w.as_slice())), j)
    } else {
        Scan::Emit(Token::Ident(string_from(w.as_slice())), j)
    }
}

fn char_escape_of(c: char) -> (r: Option<char>)
    ensures
        r == char_escape(c),
{
    match c {
        'n' => Some('\n'),
        't' => Some('\t'),
        'r' => Some('\r'),
        '\\' => Some('\\'),
        '\'' => Some('\''),
        _ => None,
    }
}

fn string_escape_of(c: char) -> (r: Option<char>)
    ensures
        r == string_escape(c),
{
    match c {
        'n' => Some('\n'),
        't' => Some('\t'),
        'r' => Some('\r'),
        '\\' => Some('\\'),
        '"' => Some('"'),
        _ => None,
    }
}

fn char_close_at(s: &Vec<char>, k: usize, d: char) -> (r: Scan)
    requires
        k <= s.len(),
    ensures
        r@ == char_close(s@, k as int, d),
{
    if k >= s.len() {
        Scan::Fail(ErrorType::BadChar(d), k)
    } else if s[k] == '\'' {
        Scan::Emit(Token::Char(d), k + 1)
    } else {
        Scan::Fail(ErrorType::BadChar(d), k + 1)
    }
}

fn scan_char_literal_at(s: &Vec<char>, i: usize) -> (r: Scan)
    requires
        i < s.len(),
    ensures
        r@ == scan_char_literal(s@, i as int),
{
    if i + 1 >= s.len() {
        Scan::Fail(ErrorType::BadChar('\''), i + 1)
    } else if s[i + 1] == '\\' {
        if i + 2 >= s.len() {
            Scan::Fail(ErrorType::BadChar('\\'), i + 2)
        } else {
            match char_escape_of(s[i + 2]) {
                Some(d) => char_close_at(s, i + 3, d),
                None => Scan::Fail(ErrorType::BadChar('\\'), i + 3),
            }
        }
    } else {
        char_close_at(s, i + 2, s[i + 1])
    }
}

fn scan_string_at(s: &Vec<char>, i: usize) -> (r: Scan)
    requires
        i < s.len(),
    ensures
        r@ == scan_string_body(s@, i + 1, Seq::empty()),
{
    let mut acc: Vec<char> = Vec::new();
    let mut k = i + 1;
    loop
        invariant
            i + 1 <= k <= s.len(),
            scan_string_body(s@, i + 1, Seq::empty()) == scan_string_body(s@, k as int, acc@),
        decreases s.len() - k,
    {
        if k >= s.len() {
            return Scan::Fail(ErrorType::UnclosedString, s.len());
        }
        let c = s[k];
        if c == '"' {
            return Scan::Emit(Token::String(string_from(acc.as_slice())), k + 1);
        } else if c == '\\' {
            if k + 1 >= s.len() {
                return Scan::Fail(ErrorType::UnclosedString, s.len());
            }
            match string_escape_of(s[k + 1]) {
                Some(d) => {
                    acc.push(d);
                    k += 2;
                },
                None => {
                    return Scan::Fail(ErrorType::BadChar('\\'), k + 2);
                },
            }
        } else {
            acc.push(c);
            k += 1;
        }
    }
}

/// The end of the longest-match candidate that starts at `i`.
fn longest_match(s: &Vec<char>, symbols: &Vec<Vec<char>>, i: usize) -> (e: usize)
    requires
        i < s.len(),
    ensures
        e == match_end(s@, views(symbols@), i as int, i + 1),
{
    let mut k = i + 1;
    let mut cand: Vec<char> = Vec::new();
    cand.push(s[i]);
    assert(cand@ =~= s@.subrange(i as int, k as int));
    loop
        invariant
            i < k <= s.len(),
            cand@ == s@.subrange(i as int, k as int),
            match_end(s@, views(symbols@), i as int, i + 1) == match_end(
                s@,
                views(symbols@),
                i as int,
                k as int,
            ),
        decreases s.len() - k,
    {
        if k >= s.len() {
            return k;
        }
        let n = count_prefixed_in(symbols, &cand);
        if n == 0 {
            if k - i > 1 {
                return k - 1;
            }
            return k;
        } else if n == 1 {
            return k;
        }
        cand.push(s[k]);
        k += 1;
        assert(cand@ =~= s@.subrange(i as int, k as int));
    }
}

fn scan_symbol_at(s: &Vec<char>, i: usize, symbols: &Vec<Vec<char>>) -> (r: Scan)
    requires
        i < s.len(),
    ensures
        r@ == scan_symbol(s@, i as int, views(symbols@)),
{
    if symbols.len() == 0 {
        return Scan::Emit(Token::Symbol(s[i]), i + 1);
    }
    let e = longest_match(s, symbols, i);
    proof {
        lemma_match_end(s@, views(symbols@), i as int, i + 1);
    }
    let cand = copy_range(s, i, e);
    if contains_word(symbols, &cand) {
        if e - i == 1 {
            Scan::Emit(Token::Symbol(s[i]), e)
        } else {
            Scan::Emit(Token::LongSymbol(string_from(cand.as_slice())), e)
        }
    } else {
        Scan::Fail(ErrorType::InvalidSymbol(string_from(cand.as_slice())), e)
    }
}

/// Scans one token, or one whitespace character, at index `i`.
pub fn scan_token(s: &Vec<char>, i: usize, symbols: &Vec<Vec<char>>, keywords: &Vec<Vec<char>>) -> (r: Scan)
    requires
        i < s.len(),
    ensures
        r@ == scan_at(s@, views(symbols@), views(keywords@), i as int),
{
    let c = s[i];
    if is_space_char(c) {
        Scan::Skip
    } else if is_digit_char(c) {
        scan_number_at(s, i)
    } else if is_ident_start_char(c) {
        scan_word_at(s, i, keywords)
    } else if c == '\'' {
        scan_char_literal_at(s, i)
    } else if c == '"' {
        scan_string_at(s, i)
    } else {
        scan_symbol_at(s, i, symbols)
    }
}

} // verus!
