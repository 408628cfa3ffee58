use vstd::prelude::*;
use crate::module::strings_view;
use crate::text::{chars_of, string_from_chars};
use vstd::slice::slice_subrange;

verus! {

/// The state column of the kernel's module listing.
#[derive(Debug, Clone, Copy, PartialEq, Eq, Structural)]
pub enum ModuleState {
    Live,
    Loading,
    Unloading,
}

/// One line of the kernel's module listing.
#[derive(Debug, Clone)]
pub struct KernelModule {
    pub name: String,
    pub size: u64,
    pub refs: u32,
    /// `None` when the column holds the placeholder `-`.
    pub dependents: Option<Vec<String>>,
    pub state: ModuleState,
    /// The load address column, kept as written.
    pub address: String,
}

/// The mathematical content of a [`KernelModule`].
pub struct KernelModuleView {
    pub name: Seq<char>,
    pub size: u64,
    pub refs: u32,
    pub dependents: Option<Seq<Seq<char>>>,
    pub state: ModuleState,
    pub address: Seq<char>,
}

impl View for KernelModule {
    type V = KernelModuleView;

    open spec fn view(&self) -> KernelModuleView {
        KernelModuleView {
            name: self.name@,
            size: self.size,
            refs: self.refs,
            dependents: match self.dependents {
                Some(d) => Some(strings_view(d@)),
                None => None,
            },
            state: self.state,
            address: self.address@,
        }
    }
}

/// Classes of characters that the columns are made of.
#[derive(Clone, Copy, PartialEq, Eq, Structural)]
pub enum CharClass {
    /// ASCII letters.
    Alpha,
    /// ASCII letters and digits.
    Alnum,
    /// ASCII letters, digits and `_`.
    NameTail,
    /// ASCII decimal digits.
    Digit,
    /// The blank between columns.
    Space,
    /// ASCII letters, digits, `_`, `,` and `-`.
    DepList,
    /// Anything but a line break.
    NotLineBreak,
}

pub open spec fn is_alpha(c: char) -> bool {
    ('a' <= c && c <= 'z') || ('A' <= c && c <= 'Z')
}

pub open spec fn is_digit(c: char) -> bool {
    '0' <= c && c <= '9'
}

pub open spec fn in_class(k: CharClass, c: char) -> bool {
    match k {
        CharClass::Alpha => is_alpha(c),
        CharClass::Alnum => is_alpha(c) || is_digit(c),
        CharClass::NameTail => is_alpha(c) || is_digit(c) || c == '_',
        CharClass::Digit => is_digit(c),
        CharClass::Space => c == ' ',
        CharClass::DepList => is_alpha(c) || is_digit(c) || c == '_' || c == ',' || c == '-',
        CharClass::NotLineBreak => c != '\n' && c != '\r',
    }
}

/// End of the longest run of class `k` starting at `i`.
pub open spec fn run(s: Seq<char>, i: int, k: CharClass) -> int
    decreases s.len() - i,
{
    if 0 <= i < s.len() && in_class(k, s[i]) {
        run(s, i + 1, k)
    } else {
        i
    }
}

/// The number written by the decimal digits `d`.
pub open spec fn digits_value(d: Seq<char>) -> nat
    decreases d.len(),
{
    if d.len() == 0 {
        0
    } else {
        digits_value(d.drop_last()) * 10 + (d.last() as nat - '0' as nat) as nat
    }
}

/// The state named by token `t`, if any.
pub open spec fn state_of(t: Seq<char>) -> Option<ModuleState> {
    if t == seq!['L', 'i', 'v', 'e'] {
        Some(ModuleState::Live)
    } else if t == seq!['L', 'o', 'a', 'd', 'i', 'n', 'g'] {
        Some(ModuleState::Loading)
    } else if t == seq!['U', 'n', 'l', 'o', 'a', 'd', 'i', 'n', 'g'] {
        Some(ModuleState::Unloading)
    } else {
        None
    }
}

/// The comma-separated names of `d` from `i` on, with `cur` the name being
/// read; empty names are dropped.
pub open spec fn split_names_from(d: Seq<char>, i: int, cur: Seq<char>) -> Seq<Seq<char>>
    decreases d.len() - i,
{
    if i < 0 || i >= d.len() {
        if cur.len() > 0 {
            seq![cur]
        } else {
            Seq::empty()
        }
    } else if d[i] == ',' {
        if cur.len() > 0 {
            seq![cur] + split_names_from(d, i + 1, Seq::empty())
        } else {
            split_names_from(d, i + 1, Seq::empty())
        }
    } else {
        split_names_from(d, i + 1, cur.push(d[i]))
    }
}

/// The dependents column: `None` for `-`, else its non-empty comma-separated names.
pub open spec fn dependents_of(d: Seq<char>) -> Option<Seq<Seq<char>>> {
    if d == seq!['-'] {
        None
    } else {
        Some(split_names_from(d, 0, Seq::empty()))
    }
}

/// The outcome of reading one listing line that starts at `i`.
pub enum LineOutcome {
    /// The record, and the position just before the line break.
    Parsed(KernelModuleView, int),
    /// The line does not follow the column grammar.
    Malformed,
    /// The columns are well formed but the state token is not a known one.
    UnknownState(Seq<char>),
}

/// Reads the line of `s` that starts at `i`: `name size refs dependents
/// state address [anything]`, columns separated by runs of spaces.
pub open spec fn status_line_at(s: Seq<char>, i: int) -> LineOutcome {
    let name_end = run(s, i + 1, CharClass::NameTail);
    let size_start = run(s, name_end, CharClass::Space);
    let size_end = run(s, size_start, CharClass::Digit);
    let refs_start = run(s, size_end, CharClass::Space);
    let refs_end = run(s, refs_start, CharClass::Digit);
    let deps_start = run(s, refs_end, CharClass::Space);
    let deps_end = run(s, deps_start, CharClass::DepList);
    let state_start = run(s, deps_end, CharClass::Space);
    let state_end = run(s, state_start, CharClass::Alpha);
    let addr_start = run(s, state_end, CharClass::Space);
    let addr_end = run(s, addr_start, CharClass::Alnum);
    let rest_end = run(s, addr_end, CharClass::NotLineBreak);
    if !(0 <= i < s.len() && is_alpha(s[i])) || size_start == name_end || size_end == size_start || refs_start == size_end || refs_end == refs_start
        || deps_start == refs_end || state_start == deps_end || state_end == state_start || addr_start == state_end || addr_end == addr_start {
        LineOutcome::Malformed
    } else if digits_value(s.subrange(size_start, size_end)) > u64::MAX || digits_value(s.subrange(refs_start, refs_end))
        > u32::MAX {
        LineOutcome::Malformed
    } else if rest_end < s.len() && s[rest_end] == '\r' && !(rest_end + 1 < s.len() && s[rest_end + 1] == '\n') {
        LineOutcome::Malformed
    } else {
        match state_of(s.subrange(state_start, state_end)) {
            None => LineOutcome::UnknownState(s.subrange(state_start, state_end)),
            Some(st) => LineOutcome::Parsed(
                KernelModuleView {
                    name: s.subrange(i, name_end),
                    size: digits_value(s.subrange(size_start, size_end)) as u64,
                    refs: digits_value(s.subrange(refs_start, refs_end)) as u32,
                    dependents: dependents_of(s.subrange(deps_start, deps_end)),
                    state: st,
                    address: s.subrange(addr_start, addr_end),
                },
                rest_end,
            ),
        }
    }
}

/// Why a listing line could not be read.
#[derive(Debug, Clone, PartialEq, Eq)]
pub enum StatusError {
    /// The line does not follow the column grammar.
    Malformed,
    /// The state column holds this token, which names no known state.
    UnknownState(String),
    /// The input ends without a line break after the record.
    Unterminated,
}

/// A listing that could not be read, with the line at fault.
#[derive(Debug, Clone, PartialEq, Eq)]
pub struct ListingError {
    /// Line number, counting from 1.
    pub line: usize,
    /// The text of that line, without its line break.
    pub text: String,
    pub cause: StatusError,
}

/// `r` carries the outcome `o` of reading one line.
pub open spec fn line_result_matches(o: LineOutcome, r: Result<(KernelModule, usize), StatusError>) -> bool {
    match (o, r) {
        (LineOutcome::Parsed(m, e), Ok((k, j))) => k@ == m && j as int == e,
        (LineOutcome::Malformed, Err(StatusError::Malformed)) => true,
        (LineOutcome::UnknownState(t), Err(StatusError::UnknownState(u))) => u@ == t,
        _ => false,
    }
}

fn in_class_exec(k: CharClass, c: char) -> (r: bool)
    ensures
        r == in_class(k, c),
{
    let alpha = ('a' <= c && c <= 'z') || ('A' <= c && c <= 'Z');
    let digit = '0' <= c && c <= '9';
    match k {
        CharClass::Alpha => alpha,
        CharClass::Alnum => alpha || digit,
        CharClass::NameTail => alpha || digit || c == '_',
        CharClass::Digit => digit,
        CharClass::Space => c == ' ',
        CharClass::DepList => alpha || digit || c == '_' || c == ',' || c == '-',
        CharClass::NotLineBreak => c != '\n' && c != '\r',
    }
}

/// A run stays within the input, holds only characters of its class, and
/// stops before one that is not.
pub proof fn lemma_run(s: Seq<char>, i: int, k: CharClass)
    requires
        0 <= i <= s.len(),
    ensures
        i <= run(s, i, k) <= s.len(),
        forall|j: int| i <= j < run(s, i, k) ==> in_class(k, #[trigger] s[j]),
        run(s, i, k) < s.len() ==> !in_class(k, s[run(s, i, k)]),
    decreases s.len() - i,
{
    if i < s.len() && in_class(k, s[i]) {
        lemma_run(s, i + 1, k);
    }
}

fn run_exec(cs: &Vec<char>, i: usize, k: CharClass) -> (r: usize)
    requires
        i <= cs@.len(),
    ensures
        r as int == run(cs@, i as int, k),
        i <= r <= cs@.len(),
{
    let mut j: usize = i;
    while j < cs.len() && in_class_exec(k, cs[j])
        invariant
            i <= j <= cs@.len(),
            run(cs@, j as int, k) == run(cs@, i as int, k),
        decreases cs@.len() - j,
    {
        j = j + 1;
    }
    j
}

proof fn lemma_digits_monotone(s: Seq<char>, lo: int, mid: int, hi: int)
    requires
        0 <= lo <= mid <= hi <= s.len(),
        forall|j: int| lo <= j < hi ==> is_digit(#[trigger] s[j]),
    ensures
        digits_value(s.subrange(lo, mid)) <= digits_value(s.subrange(lo, hi)),
    decreases hi - mid,
{
    if mid < hi {
        lemma_digits_monotone(s, lo, mid, hi - 1);
        assert(s.subrange(lo, hi).drop_last() =~= s.subrange(lo, hi - 1));
    }
}

/// The value of the digits `cs[lo..hi]` when it is at most `max`.
fn parse_decimal(cs: &Vec<char>, lo: usize, hi: usize, max: u64) -> (r: Option<u64>)
    requires
        lo <= hi <= cs@.len(),
        forall|j: int| lo <= j < hi ==> is_digit(#[trigger] cs@[j]),
    ensures
        match r {
            Some(v) => v as nat == digits_value(cs@.subrange(lo as int, hi as int)) && v <= max,
            None => digits_value(cs@.subrange(lo as int, hi as int)) > max,
        },
{
    let mut v: u64 = 0;
    let mut i: usize = lo;
    assert(cs@.subrange(lo as int, lo as int) =~= Seq::<char>::empty());
    while i < hi
        invariant
            lo <= i <= hi <= cs@.len(),
            forall|j: int| lo <= j < hi ==> is_digit(#[trigger] cs@[j]),
            v as nat == digits_value(cs@.subrange(lo as int, i as int)),
            v <= max,
        decreases hi - i,
    {
        let c = cs[i];
        assert(is_digit(cs@[i as int]));
        let d: u64 = (c as u32 - '0' as u32) as u64;
        assert(cs@.subrange(lo as int, i + 1).drop_last() =~= cs@.subrange(lo as int, i as int));
        let w: u128 = v as u128 * 10 + d as u128;
        assert(w as nat == digits_value(cs@.subrange(lo as int, i + 1)));
        if w > max as u128 {
            proof {
                lemma_digits_monotone(cs@, lo as int, i + 1, hi as int);
            }
            return None;
        }
        v = w as u64;
        i = i + 1;
    }
    Some(v)
}

fn span_equals(cs: &Vec<char>, lo: usize, hi: usize, word: &[char]) -> (r: bool)
    requires
        lo <= hi <= cs@.len(),
    ensures
        r == (cs@.subrange(lo as int, hi as int) == word@),
{
    let ghost t = cs@.subrange(lo as int, hi as int);
    if hi - lo != word.len() {
        return false;
    }
    let mut k: usize = 0;
    while k < word.len()
        invariant
            lo <= hi <= cs@.len(),
            hi - lo == word@.len(),
            t == cs@.subrange(lo as int, hi as int),
            k <= word@.len(),
            forall|j: int| 0 <= j < k ==> t[j] == word@[j],
        decreases word@.len() - k,
    {
        if cs[lo + k] != word[k] {
            assert(t[k as int] != word@[k as int]);
            return false;
        }
        k = k + 1;
    }
    assert(t =~= word@);
    true
}

fn state_token(cs: &Vec<char>, lo: usize, hi: usize) -> (r: Option<ModuleState>)
    requires
        lo <= hi <= cs@.len(),
    ensures
        r == state_of(cs@.subrange(lo as int, hi as int)),
{
    let live = ['L', 'i', 'v', 'e'];
    let loading = ['L', 'o', 'a', 'd', 'i', 'n', 'g'];
    let unloading = ['U', 'n', 'l', 'o', 'a', 'd', 'i', 'n', 'g'];
    assert(live@ =~= seq!['L', 'i', 'v', 'e']);
    assert(loading@ =~= seq!['L', 'o', 'a', 'd', 'i', 'n', 'g']);
    assert(unloading@ =~= seq!['U', 'n', 'l', 'o', 'a', 'd', 'i', 'n', 'g']);
    if span_equals(cs, lo, hi, &live) {
        Some(ModuleState::Live)
    } else if span_equals(cs, lo, hi, &loading) {
        Some(ModuleState::Loading)
    } else if span_equals(cs, lo, hi, &unloading) {
        Some(ModuleState::Unloading)
    } else {
        None
    }
}

fn split_names(cs: &Vec<char>, lo: usize, hi: usize) -> (r: Vec<String>)
    requires
        lo <= hi <= cs@.len(),
    ensures
        strings_view(r@) == split_names_from(cs@.subrange(lo as int, hi as int), 0, Seq::empty()),
{
    let ghost d = cs@.subrange(lo as int, hi as int);
    let mut acc: Vec<String> = Vec::new();
    let mut start: usize = lo;
    let mut i: usize = lo;
    assert(cs@.subrange(lo as int, lo as int) =~= Seq::<char>::empty());
    while i < hi
        invariant
            lo <= start <= i <= hi <= cs@.len(),
            d == cs@.subrange(lo as int, hi as int),
            strings_view(acc@) + split_names_from(d, i - lo, cs@.subrange(start as int, i as int))
                == split_names_from(d, 0, Seq::empty()),
        decreases hi - i,
    {
        let ghost cur = cs@.subrange(start as int, i as int);
        let ghost before = strings_view(acc@);
        assert(d[i - lo] == cs@[i as int]);
        if cs[i] == ',' {
            if i > start {
                let name = string_from_chars(slice_subrange(cs.as_slice(), start, i));
                acc.push(name);
                assert(strings_view(acc@) =~= before + seq![cur]);
            }
            start = i + 1;
            assert(cs@.subrange(start as int, i + 1) =~= Seq::<char>::empty());
            assert(strings_view(acc@) + split_names_from(d, i + 1 - lo, Seq::empty()) =~= before
                + split_names_from(d, i - lo, cur));
        } else {
            assert(cs@.subrange(start as int, i + 1) =~= cur.push(cs@[i as int]));
        }
        i = i + 1;
    }
    let ghost cur = cs@.subrange(start as int, hi as int);
    let ghost before = strings_view(acc@);
    if hi > start {
        let name = string_from_chars(slice_subrange(cs.as_slice(), start, hi));
        acc.push(name);
        assert(strings_view(acc@) =~= before + seq![cur]);
    } else {
        assert(before + split_names_from(d, hi - lo, cur) =~= before);
    }
    acc
}

fn status_line_at_exec(cs: &Vec<char>, i: usize) -> (r: Result<(KernelModule, usize), StatusError>)
    requires
        i <= cs@.len(),
    ensures
        line_result_matches(status_line_at(cs@, i as int), r),
        r matches Ok((_, e)) ==> i < e <= cs@.len(),
{
    let ghost s = cs@;
    if i >= cs.len() || !in_class_exec(CharClass::Alpha, cs[i]) {
        return Err(StatusError::Malformed);
    }
    let name_end = run_exec(cs, i + 1, CharClass::NameTail);
    let size_start = run_exec(cs, name_end, CharClass::Space);
    let size_end = run_exec(cs, size_start, CharClass::Digit);
    let refs_start = run_exec(cs, size_end, CharClass::Space);
    let refs_end = run_exec(cs, refs_start, CharClass::Digit);
    let deps_start = run_exec(cs, refs_end, CharClass::Space);
    let deps_end = run_exec(cs, deps_start, CharClass::DepList);
    let state_start = run_exec(cs, deps_end, CharClass::Space);
    let state_end = run_exec(cs, state_start, CharClass::Alpha);
    let addr_start = run_exec(cs, state_end, CharClass::Space);
    let addr_end = run_exec(cs, addr_start, CharClass::Alnum);
    let rest_end = run_exec(cs, addr_end, CharClass::NotLineBreak);
    if size_start == name_end || size_end == size_start || refs_start == size_end || refs_end == refs_start || deps_start == refs_end || state_start == deps_end || state_end == state_start || addr_start
        == state_end || addr_end == addr_start {
        return Err(StatusError::Malformed);
    }
    proof {
        lemma_run(s, size_start as int, CharClass::Digit);
        lemma_run(s, refs_start as int, CharClass::Digit);
    }
    let size = match parse_decimal(cs, size_start, size_end, u64::MAX) {
        Some(v) => v,
        None => {
            return Err(StatusError::Malformed);
        },
    };
    let refs = match parse_decimal(cs, refs_start, refs_end, u32::MAX as u64) {
        Some(v) => v as u32,
        None => {
            return Err(StatusError::Malformed);
        },
    };
    if rest_end < cs.len() && cs[rest_end] == '\r' && !(rest_end + 1 < cs.len() && cs[rest_end + 1] == '\n') {
        return Err(StatusError::Malformed);
    }
    let state = match state_token(cs, state_start, state_end) {
        Some(st) => st,
        None => {
            let token = string_from_chars(slice_subrange(cs.as_slice(), state_start, state_end));
            return Err(StatusError::UnknownState(token));
        },
    };
    let dash = ['-'];
    assert(dash@ =~= seq!['-']);
    let dependents = if span_equals(cs, deps_start, deps_end, &dash) {
        None
    } else {
        Some(split_names(cs, deps_start, deps_end))
    };
    let module = KernelModule {
        name: string_from_chars(slice_subrange(cs.as_slice(), i, name_end)),
        size,
        refs,
        dependents,
        state,
        address: string_from_chars(slice_subrange(cs.as_slice(), addr_start, addr_end)),
    };
    Ok((module, rest_end))
}

/// `r` is what reading the line at the start of `s` must give: the rest of
/// the input after the record, or the error.
pub open spec fn status_line_result(s: Seq<char>, r: Result<(String, KernelModule), StatusError>) -> bool {
    match (status_line_at(s, 0), r) {
        (LineOutcome::Parsed(m, e), Ok((rest, k))) => k@ == m && rest@ == s.subrange(e, s.len() as int),
        (LineOutcome::Malformed, Err(StatusError::Malformed)) => true,
        (LineOutcome::UnknownState(t), Err(StatusError::UnknownState(u))) => u@ == t,
        _ => false,
    }
}

/// Reads one line of the module listing from the start of `input`: `name
/// size refs dependents state address`, then anything up to the line break.
/// Returns the text left after the record (starting at the line break) and
/// the record.
pub fn module_status_line(input: &str) -> (r: Result<(String, KernelModule), StatusError>)
    ensures
        status_line_result(input@, r),
{
    let cs = chars_of(input);
    match status_line_at_exec(&cs, 0) {
        Ok((module, e)) => {
            let rest = string_from_chars(slice_subrange(cs.as_slice(), e, cs.len()));
            Ok((rest, module))
        },
        Err(err) => Err(err),
    }
}

/// Position after the line break at `e`: `\n` or `\r\n`; `None` if there is none.
pub open spec fn after_line_break(s: Seq<char>, e: int) -> Option<int> {
    if 0 <= e < s.len() && s[e] == '\n' {
        Some(e + 1)
    } else if 0 <= e && e + 1 < s.len() && s[e] == '\r' && s[e + 1] == '\n' {
        Some(e + 2)
    } else {
        None
    }
}

/// What can go wrong with one line of a listing.
pub enum LineFailure {
    Malformed,
    UnknownState(Seq<char>),
    Unterminated,
}

/// The records of the lines of `s` from position `pos` on, where that line has
/// number `line`; or the number, text and failure of the first bad line.
pub open spec fn listing_from(s: Seq<char>, pos: int, line: int) -> Result<
    Seq<KernelModuleView>,
    (int, Seq<char>, LineFailure),
>
    decreases s.len() - pos,
    via listing_from_decreases
{
    if pos < 0 || pos >= s.len() {
        Ok(Seq::empty())
    } else {
        let text = s.subrange(pos, run(s, pos, CharClass::NotLineBreak));
        match status_line_at(s, pos) {
            LineOutcome::Malformed => Err((line, text, LineFailure::Malformed)),
            LineOutcome::UnknownState(t) => Err((line, text, LineFailure::UnknownState(t))),
            LineOutcome::Parsed(m, e) => match after_line_break(s, e) {
                None => Err((line, text, LineFailure::Unterminated)),
                Some(next) => match listing_from(s, next, line + 1) {
                    Ok(rest) => Ok(seq![m] + rest),
                    Err(f) => Err(f),
                },
            },
        }
    }
}

#[via_fn]
proof fn listing_from_decreases(s: Seq<char>, pos: int, line: int) {
    if 0 <= pos < s.len() {
        lemma_status_line_end(s, pos);
    }
}

/// A record read from position `i` ends after `i`, within the input.
pub proof fn lemma_status_line_end(s: Seq<char>, i: int)
    requires
        0 <= i < s.len(),
    ensures
        status_line_at(s, i) matches LineOutcome::Parsed(_, e) ==> i < e <= s.len(),
{
    if is_alpha(s[i]) {
        let name_end = run(s, i + 1, CharClass::NameTail);
        let size_start = run(s, name_end, CharClass::Space);
        let size_end = run(s, size_start, CharClass::Digit);
        let refs_start = run(s, size_end, CharClass::Space);
        let refs_end = run(s, refs_start, CharClass::Digit);
        let deps_start = run(s, refs_end, CharClass::Space);
        let deps_end = run(s, deps_start, CharClass::DepList);
        let state_start = run(s, deps_end, CharClass::Space);
        let state_end = run(s, state_start, CharClass::Alpha);
        let addr_start = run(s, state_end, CharClass::Space);
        let addr_end = run(s, addr_start, CharClass::Alnum);
        lemma_run(s, i + 1, CharClass::NameTail);
        lemma_run(s, name_end, CharClass::Space);
        lemma_run(s, size_start, CharClass::Digit);
        lemma_run(s, size_end, CharClass::Space);
        lemma_run(s, refs_start, CharClass::Digit);
        lemma_run(s, refs_end, CharClass::Space);
        lemma_run(s, deps_start, CharClass::DepList);
        lemma_run(s, deps_end, CharClass::Space);
        lemma_run(s, state_start, CharClass::Alpha);
        lemma_run(s, state_end, CharClass::Space);
        lemma_run(s, addr_start, CharClass::Alnum);
        lemma_run(s, addr_end, CharClass::NotLineBreak);
    }
}

/// The views of a list of records.
pub open spec fn modules_status_view(v: Seq<KernelModule>) -> Seq<KernelModuleView> {
    v.map_values(|k: KernelModule| k@)
}

/// `r` is what reading the whole listing `s` must give.
pub open spec fn listing_result(s: Seq<char>, r: Result<Vec<KernelModule>, ListingError>) -> bool {
    match (listing_from(s, 0, 1), r) {
        (Ok(ms), Ok(v)) => modules_status_view(v@) == ms,
        (Err((line, text, f)), Err(e)) => {
            &&& e.line as int == line
            &&& e.text@ == text
            &&& match (f, e.cause) {
                (LineFailure::Malformed, StatusError::Malformed) => true,
                (LineFailure::Unterminated, StatusError::Unterminated) => true,
                (LineFailure::UnknownState(t), StatusError::UnknownState(u)) => u@ == t,
                _ => false,
            }
        },
        _ => false,
    }
}

/// `r` with the records `acc` put in front of its records.
pub open spec fn prefixed(
    acc: Seq<KernelModuleView>,
    r: Result<Seq<KernelModuleView>, (int, Seq<char>, LineFailure)>,
) -> Result<Seq<KernelModuleView>, (int, Seq<char>, LineFailure)> {
    match r {
        Ok(rest) => Ok(acc + rest),
        Err(f) => Err(f),
    }
}

/// Reads the kernel's module listing: zero or more lines, each ended by a
/// line break, each a record as [`module_status_line`] reads it. The first
/// bad line fails the whole listing.
pub fn parse_module_listing(data: &str) -> (r: Result<Vec<KernelModule>, ListingError>)
    ensures
        listing_result(data@, r),
{
    let cs = chars_of(data);
    let ghost s = cs@;
    let mut acc: Vec<KernelModule> = Vec::new();
    let mut pos: usize = 0;
    let mut line: usize = 1;
    assert(modules_status_view(acc@) =~= Seq::<KernelModuleView>::empty());
    assert(prefixed(Seq::empty(), listing_from(s, 0, 1)) =~= listing_from(s, 0, 1)) by {
        if let Ok(rest) = listing_from(s, 0, 1) {
            assert(Seq::<KernelModuleView>::empty() + rest =~= rest);
        }
    }
    while pos < cs.len()
        invariant
            s == cs@,
            s == data@,
            pos <= cs@.len(),
            1 <= line <= pos + 1,
            prefixed(modules_status_view(acc@), listing_from(s, pos as int, line as int))
                == listing_from(s, 0, 1),
        decreases cs@.len() - pos,
    {
        let line_end = run_exec(&cs, pos, CharClass::NotLineBreak);
        match status_line_at_exec(&cs, pos) {
            Err(cause) => {
                let text = string_from_chars(slice_subrange(cs.as_slice(), pos, line_end));
                return Err(ListingError { line, text, cause });
            },
            Ok((module, e)) => {
                let next = if e < cs.len() && cs[e] == '\n' {
                    e + 1
                } else if cs.len() - e >= 2 && cs[e] == '\r' && cs[e + 1] == '\n' {
                    e + 2
                } else {
                    let text = string_from_chars(slice_subrange(cs.as_slice(), pos, line_end));
                    return Err(ListingError { line, text, cause: StatusError::Unterminated });
                };
                let ghost before = modules_status_view(acc@);
                acc.push(module);
                proof {
                    assert(modules_status_view(acc@) =~= before.push(module@));
                    if let Ok(rest) = listing_from(s, next as int, line + 1) {
                        assert(before + (seq![module@] + rest) =~= before.push(module@) + rest);
                    }
                }
                pos = next;
                line = line + 1;
            },
        }
    }
    proof {
        assert(modules_status_view(acc@) + Seq::<KernelModuleView>::empty() =~= modules_status_view(acc@));
    }
    Ok(acc)
}

} // verus!
