use vstd::prelude::*;

use crate::error::{AccessorParserError, AccessorParserErrorKind, InvalidUnicodeError, ParseFailure};
use crate::{
    mk_span, AccessorKey, AccessorModel, AccessorParserSpan, KeyValue, SpannedAccessor,
    SpannedAccessorKey,
};

verus! {

/// Characters that must be escaped in keys and in the root key.
pub open spec fn reserved_token() -> Seq<char> {
    seq!['{', '}', '[', ']', '.', '$', '"']
}

/// The one character that must be escaped inside a quoted key.
pub open spec fn reserved_raw_literal() -> Seq<char> {
    seq!['"']
}

/// Characters that end an unquoted key.
pub open spec fn separators() -> Seq<char> {
    seq!['.', '[', '}']
}

pub open spec fn err_at(kind: AccessorParserErrorKind, start: int, end: int) -> AccessorParserError {
    AccessorParserError { kind, span: mk_span(start, end) }
}

/// The first position at or after `from` that holds `c`.
pub open spec fn find_char(s: Seq<char>, from: int, c: char) -> Option<int>
    decreases s.len() - from,
{
    if from < 0 || from >= s.len() {
        None
    } else if s[from] == c {
        Some(from)
    } else {
        find_char(s, from + 1, c)
    }
}

/// The value of `c` as a digit in base `radix` (at most 36), if it is one.
pub open spec fn digit_value(c: char, radix: nat) -> Option<nat> {
    let x = c as u32 as int;
    if '0' as u32 <= c as u32 <= '9' as u32 && x - ('0' as u32 as int) < radix {
        Some((x - ('0' as u32 as int)) as nat)
    } else if 'a' as u32 <= c as u32 <= 'z' as u32 && x - ('a' as u32 as int) + 10 < radix {
        Some((x - ('a' as u32 as int) + 10) as nat)
    } else if 'A' as u32 <= c as u32 <= 'Z' as u32 && x - ('A' as u32 as int) + 10 < radix {
        Some((x - ('A' as u32 as int) + 10) as nat)
    } else {
        None
    }
}

/// The number that the digits `ds` write in base `radix`, most significant first.
pub open spec fn digits_value(ds: Seq<char>, radix: nat) -> nat
    decreases ds.len(),
{
    if ds.len() == 0 {
        0
    } else {
        digits_value(ds.drop_last(), radix) * radix + match digit_value(ds.last(), radix) {
            Some(d) => d,
            None => 0,
        }
    }
}

pub open spec fn all_digits(ds: Seq<char>, radix: nat) -> bool {
    forall|i: int| 0 <= i < ds.len() ==> digit_value(#[trigger] ds[i], radix) is Some
}

/// An unsigned integer written as at least one digit of base `radix` and
/// nothing else (no sign), whose value is at most `max`.
pub open spec fn unsigned_value(ds: Seq<char>, radix: nat, max: nat) -> Option<nat> {
    if ds.len() > 0 && all_digits(ds, radix) && digits_value(ds, radix) <= max {
        Some(digits_value(ds, radix))
    } else {
        None
    }
}

/// A Unicode scalar value: a code point that is not a surrogate.
pub open spec fn is_scalar_value(n: nat) -> bool {
    n < 0xD800 || (0xE000 <= n && n <= 0x10FFFF)
}

/// The code point of `c`.
pub open spec fn code_of(c: char) -> nat {
    c as u32 as nat
}

pub proof fn lemma_code_injective(a: char, b: char)
    requires
        code_of(a) == code_of(b),
    ensures
        a == b,
{
}

/// The char whose code is `n`.
pub open spec fn char_with_code(n: nat) -> char {
    choose|c: char| #[trigger] code_of(c) == n
}

/// The body of a `\u{HEX}` escape, read from `q`, just after the `u`.
pub open spec fn unicode_escape(s: Seq<char>, q: int) -> Result<(int, char), AccessorParserError> {
    if q >= s.len() || s[q] != '{' {
        Err(
            err_at(
                AccessorParserErrorKind::InvalidUnicode(InvalidUnicodeError::MissingOpeningBracket),
                q,
                q + 1,
            ),
        )
    } else {
        match find_char(s, q + 1, '}') {
            None => Err(
                err_at(
                    AccessorParserErrorKind::InvalidUnicode(
                        InvalidUnicodeError::MissingClosingBracket,
                    ),
                    q + 1,
                    s.len() as int,
                ),
            ),
            Some(k) => {
                let code = s.subrange(q + 1, k);
                if code.len() < 2 || code.len() > 8 {
                    Err(
                        err_at(
                            AccessorParserErrorKind::InvalidUnicode(
                                InvalidUnicodeError::InvalidCodeLength,
                            ),
                            q + 1,
                            k,
                        ),
                    )
                } else {
                    match unsigned_value(code, 16, u32::MAX as nat) {
                        None => Err(
                            err_at(
                                AccessorParserErrorKind::InvalidUnicode(
                                    InvalidUnicodeError::InvalidHexadecimal,
                                ),
                                q + 1,
                                k,
                            ),
                        ),
                        Some(n) => if is_scalar_value(n) {
                            Ok((k + 1, char_with_code(n)))
                        } else {
                            Err(
                                err_at(
                                    AccessorParserErrorKind::InvalidUnicode(
                                        InvalidUnicodeError::InvalidCodePoint,
                                    ),
                                    q + 1,
                                    k,
                                ),
                            )
                        },
                    }
                }
            },
        }
    }
}

/// An escape sequence: `s[p]` is a backslash and `s[p + 1]` selects the rule.
pub open spec fn escape(s: Seq<char>, p: int, reserved: Seq<char>) -> Result<
    (int, char),
    AccessorParserError,
> {
    let c = s[p + 1];
    if c == 'u' {
        unicode_escape(s, p + 2)
    } else if c == 'n' {
        Ok((p + 2, '\n'))
    } else if c == 't' {
        Ok((p + 2, '\t'))
    } else if c == 'r' {
        Ok((p + 2, '\r'))
    } else if c == '\\' {
        Ok((p + 2, '\\'))
    } else if reserved.contains(c) {
        Ok((p + 2, c))
    } else {
        Err(err_at(AccessorParserErrorKind::InvalidEscapeCharacter(c), p, p + 2))
    }
}

/// One character taken as it stands; a reserved one is refused.
pub open spec fn plain_char(s: Seq<char>, p: int, reserved: Seq<char>) -> Result<
    (int, char),
    AccessorParserError,
> {
    if reserved.contains(s[p]) {
        Err(err_at(AccessorParserErrorKind::InvalidCharacter(s[p]), p, p + 1))
    } else {
        Ok((p + 1, s[p]))
    }
}

/// One decoded character read at `p`: an escape where a backslash has a
/// character after it, else the character itself.
pub open spec fn char_step(s: Seq<char>, p: int, reserved: Seq<char>) -> Result<
    (int, char),
    AccessorParserError,
> {
    if s[p] == '\\' && p + 1 < s.len() {
        escape(s, p, reserved)
    } else {
        plain_char(s, p, reserved)
    }
}

/// Decoded text read from `p` up to the first unescaped character of `stop`
/// (not consumed) or the end of the input: the position reached and the text.
pub open spec fn scan(s: Seq<char>, p: int, stop: Seq<char>, reserved: Seq<char>) -> Result<
    (int, Seq<char>),
    AccessorParserError,
>
    decreases s.len() - p,
{
    if p < 0 || p >= s.len() || stop.contains(s[p]) {
        Ok((p, Seq::empty()))
    } else {
        match char_step(s, p, reserved) {
            Err(e) => Err(e),
            Ok((q, c)) => {
                proof {
                    lemma_char_step_advances(s, p, reserved);
                }
                match scan(s, q, stop, reserved) {
                    Ok((e, t)) => Ok((e, seq![c] + t)),
                    Err(e) => Err(e),
                }
            },
        }
    }
}

pub proof fn lemma_find_char_bounds(s: Seq<char>, from: int, c: char)
    ensures
        find_char(s, from, c) matches Some(k) ==> from <= k < s.len() && s[k] == c && 0 <= from,
        find_char(s, from, c) matches Some(k) ==> forall|j: int| from <= j < k ==> s[j] != c,
        find_char(s, from, c) is None ==> forall|j: int| 0 <= from <= j < s.len() ==> s[j] != c,
    decreases s.len() - from,
{
    if 0 <= from < s.len() && s[from] != c {
        lemma_find_char_bounds(s, from + 1, c);
    }
}

pub proof fn lemma_char_step_advances(s: Seq<char>, p: int, reserved: Seq<char>)
    requires
        0 <= p < s.len(),
    ensures
        char_step(s, p, reserved) matches Ok((q, c)) ==> p < q <= s.len(),
{
    lemma_find_char_bounds(s, p + 3, '}');
}

pub proof fn lemma_scan_bounds(s: Seq<char>, p: int, stop: Seq<char>, reserved: Seq<char>)
    requires
        0 <= p <= s.len(),
    ensures
        scan(s, p, stop, reserved) matches Ok((e, t)) ==> p <= e <= s.len() && (e == s.len()
            || stop.contains(s[e])),
    decreases s.len() - p,
{
    if p < s.len() && !stop.contains(s[p]) {
        lemma_char_step_advances(s, p, reserved);
        if let Ok((q, c)) = char_step(s, p, reserved) {
            lemma_scan_bounds(s, q, stop, reserved);
        }
    }
}

/// Where the run of text at `p` ends: the next unescaped separator, or the
/// end of the input where the run cannot be read.
pub open spec fn next_separator_end(s: Seq<char>, p: int) -> int {
    match scan(s, p, separators(), reserved_token()) {
        Ok((e, _)) => e,
        Err(_) => s.len() as int,
    }
}

/// The soft failure that ends a key list: no `.` or `[` at `p`.
pub open spec fn no_key_here(s: Seq<char>, p: int) -> ParseFailure {
    ParseFailure::Recoverable(err_at(AccessorParserErrorKind::InvalidAccessor, p, next_separator_end(s, p)))
}

/// A string key at `p`: `.name` or `."quoted name"`.
pub open spec fn string_key(s: Seq<char>, p: int) -> Result<(int, KeyValue), ParseFailure> {
    if 0 <= p < s.len() && s[p] == '.' {
        if p + 1 < s.len() && s[p + 1] == '"' {
            match scan(s, p + 2, reserved_raw_literal(), reserved_raw_literal()) {
                Err(e) => Err(ParseFailure::Fatal(e)),
                Ok((e, t)) => if e < s.len() {
                    Ok((e + 1, KeyValue::Text(t)))
                } else {
                    Err(ParseFailure::Fatal(err_at(AccessorParserErrorKind::Unknown, e, e + 1)))
                },
            }
        } else {
            match scan(s, p + 1, separators(), reserved_token()) {
                Err(e) => Err(ParseFailure::Fatal(e)),
                Ok((e, t)) => Ok((e, KeyValue::Text(t))),
            }
        }
    } else {
        Err(no_key_here(s, p))
    }
}

/// A numeric key at `p`: `[digits]`.
pub open spec fn numeric_key(s: Seq<char>, p: int) -> Result<(int, KeyValue), ParseFailure> {
    if 0 <= p < s.len() && s[p] == '[' {
        match find_char(s, p + 1, ']') {
            None => Err(ParseFailure::Fatal(err_at(AccessorParserErrorKind::MissingClosingBracket, p, p + 1))),
            Some(k) => match unsigned_value(s.subrange(p + 1, k), 10, usize::MAX as nat) {
                None => Err(ParseFailure::Fatal(err_at(AccessorParserErrorKind::NotANumber, p + 1, k))),
                Some(n) => Ok((k + 1, KeyValue::Index(n as usize))),
            },
        }
    } else {
        Err(no_key_here(s, p))
    }
}

/// A string key, else (on a soft failure) a numeric key.
pub open spec fn key_at(s: Seq<char>, p: int) -> Result<(int, KeyValue), ParseFailure> {
    match string_key(s, p) {
        Err(ParseFailure::Recoverable(_)) => numeric_key(s, p),
        r => r,
    }
}

/// A key with the span of the text it was read from.
pub open spec fn spanned_key(s: Seq<char>, p: int) -> Result<
    (int, (KeyValue, AccessorParserSpan)),
    ParseFailure,
> {
    match key_at(s, p) {
        Ok((e, k)) => Ok((e, (k, mk_span(p, e)))),
        Err(f) => Err(f),
    }
}

/// Keys read one after another from `p` until one does not start there.
pub open spec fn keys_from(s: Seq<char>, p: int) -> Result<
    (int, Seq<(KeyValue, AccessorParserSpan)>),
    AccessorParserError,
>
    decreases s.len() - p,
{
    match spanned_key(s, p) {
        Ok((e, k)) => {
            proof {
                lemma_key_advances(s, p);
            }
            match keys_from(s, e) {
                Ok((q, ks)) => Ok((q, seq![k] + ks)),
                Err(x) => Err(x),
            }
        },
        Err(ParseFailure::Recoverable(_)) => Ok((p, Seq::empty())),
        Err(ParseFailure::Fatal(x)) => Err(x),
    }
}

/// An accessor `${root key*}` at `p`: the position after its `}` and the
/// accessor read.
pub open spec fn accessor_at(s: Seq<char>, p: int) -> Result<(int, AccessorModel), AccessorParserError> {
    if !(0 <= p && p + 1 < s.len() && s[p] == '$' && s[p + 1] == '{') {
        Err(err_at(AccessorParserErrorKind::InvalidAccessorKey, p, p + 1))
    } else {
        match scan(s, p + 2, separators(), reserved_token()) {
            Err(e) => Err(e),
            Ok((r, root)) => match keys_from(s, r) {
                Err(e) => Err(e),
                Ok((q, ks)) => if 0 <= q < s.len() && s[q] == '}' {
                    Ok(
                        (
                            q + 1,
                            AccessorModel {
                                keys: seq![(KeyValue::Text(root), mk_span(p + 2, r))] + ks,
                                span: mk_span(p, q + 1),
                            },
                        ),
                    )
                } else {
                    Err(err_at(AccessorParserErrorKind::MissingClosingBracket, p, p + 2))
                },
            },
        }
    }
}

pub proof fn lemma_key_advances(s: Seq<char>, p: int)
    ensures
        spanned_key(s, p) matches Ok((e, k)) ==> p < e <= s.len(),
{
    if 0 <= p < s.len() {
        lemma_scan_bounds(s, p + 1, separators(), reserved_token());
        if p + 2 <= s.len() {
            lemma_scan_bounds(s, p + 2, reserved_raw_literal(), reserved_raw_literal());
        }
        lemma_find_char_bounds(s, p + 1, ']');
    }
}

pub proof fn lemma_accessor_advances(s: Seq<char>, p: int)
    ensures
        accessor_at(s, p) matches Ok((q, a)) ==> p < q <= s.len(),
{
    if 0 <= p && p + 1 < s.len() && s[p] == '$' && s[p + 1] == '{' {
        lemma_scan_bounds(s, p + 2, separators(), reserved_token());
        if let Ok((r, root)) = scan(s, p + 2, separators(), reserved_token()) {
            lemma_keys_from_bounds(s, r);
        }
    }
}

pub proof fn lemma_keys_from_bounds(s: Seq<char>, p: int)
    requires
        0 <= p <= s.len(),
    ensures
        keys_from(s, p) matches Ok((q, ks)) ==> p <= q <= s.len(),
    decreases s.len() - p,
{
    lemma_key_advances(s, p);
    if let Ok((e, k)) = spanned_key(s, p) {
        lemma_keys_from_bounds(s, e);
    }
}

fn separator_chars() -> (r: [char; 3])
    ensures
        r@ == separators(),
{
    let r = ['.', '[', '}'];
    assert(r@ =~= separators());
    r
}

fn reserved_token_chars() -> (r: [char; 7])
    ensures
        r@ == reserved_token(),
{
    let r = ['{', '}', '[', ']', '.', '$', '"'];
    assert(r@ =~= reserved_token());
    r
}

fn reserved_raw_literal_chars() -> (r: [char; 1])
    ensures
        r@ == reserved_raw_literal(),
{
    let r = ['"'];
    assert(r@ =~= reserved_raw_literal());
    r
}

/// The end of the run of text at `pos`, up to the next separator.
pub fn find_next_separator(input: &Vec<char>, pos: usize) -> (r: usize)
    requires
        pos <= input@.len() < usize::MAX,
    ensures
        r == next_separator_end(input@, pos as int),
{
    let sep = separator_chars();
    let reserved = reserved_token_chars();
    match take_string_with_escape_until(input, pos, &sep, &reserved) {
        Ok((e, _)) => e,
        Err(_) => input.len(),
    }
}

fn no_key(input: &Vec<char>, pos: usize) -> (r: ParseFailure)
    requires
        pos <= input@.len() < usize::MAX,
    ensures
        r == no_key_here(input@, pos as int),
{
    ParseFailure::Recoverable(AccessorParserError {
        kind: AccessorParserErrorKind::InvalidAccessor,
        span: AccessorParserSpan { start: pos, end: find_next_separator(input, pos) },
    })
}

/// Reads a string key at `pos`: `.name` or `."quoted name"`.
pub fn take_string_key(input: &Vec<char>, pos: usize) -> (r: Result<(usize, AccessorKey), ParseFailure>)
    requires
        pos <= input@.len() < usize::MAX,
    ensures
        r matches Ok((q, k)) ==> string_key(input@, pos as int) == Ok::<(int, KeyValue), ParseFailure>((q as int, k@)),
        r matches Err(f) ==> string_key(input@, pos as int) == Err::<(int, KeyValue), ParseFailure>(f),
{
    if pos >= input.len() || input[pos] != '.' {
        return Err(no_key(input, pos));
    }
    if pos + 1 < input.len() && input[pos + 1] == '"' {
        let raw = reserved_raw_literal_chars();
        match take_string_with_escape_until(input, pos + 2, &raw, &raw) {
            Err(e) => Err(ParseFailure::Fatal(e)),
            Ok((e, t)) => {
                proof {
                    lemma_scan_bounds(input@, pos + 2, reserved_raw_literal(), reserved_raw_literal());
                }
                if e < input.len() {
                    Ok((e + 1, AccessorKey::String(t)))
                } else {
                    Err(ParseFailure::Fatal(AccessorParserError {
                        kind: AccessorParserErrorKind::Unknown,
                        span: AccessorParserSpan { start: e, end: e + 1 },
                    }))
                }
            },
        }
    } else {
        let sep = separator_chars();
        let reserved = reserved_token_chars();
        match take_string_with_escape_until(input, pos + 1, &sep, &reserved) {
            Err(e) => Err(ParseFailure::Fatal(e)),
            Ok((e, t)) => Ok((e, AccessorKey::String(t))),
        }
    }
}

/// Reads a numeric key at `pos`: `[digits]`.
pub fn take_numeric_key(input: &Vec<char>, pos: usize) -> (r: Result<(usize, AccessorKey), ParseFailure>)
    requires
        pos <= input@.len() < usize::MAX,
    ensures
        r matches Ok((q, k)) ==> numeric_key(input@, pos as int) == Ok::<(int, KeyValue), ParseFailure>((q as int, k@)),
        r matches Err(f) ==> numeric_key(input@, pos as int) == Err::<(int, KeyValue), ParseFailure>(f),
{
    if pos >= input.len() || input[pos] != '[' {
        return Err(no_key(input, pos));
    }
    let close = match find_char_from(input, pos + 1, ']') {
        Some(k) => k,
        None => {
            return Err(ParseFailure::Fatal(AccessorParserError {
                kind: AccessorParserErrorKind::MissingClosingBracket,
                span: AccessorParserSpan { start: pos, end: pos + 1 },
            }));
        },
    };
    proof {
        lemma_find_char_bounds(input@, pos + 1, ']');
    }
    match parse_unsigned(input, pos + 1, close, 10, usize::MAX as u64) {
        None => Err(ParseFailure::Fatal(AccessorParserError {
            kind: AccessorParserErrorKind::NotANumber,
            span: AccessorParserSpan { start: pos + 1, end: close },
        })),
        Some(n) => Ok((close + 1, AccessorKey::Numeric(n as usize))),
    }
}

/// Reads a string key, or failing softly, a numeric key.
pub fn take_key(input: &Vec<char>, pos: usize) -> (r: Result<(usize, AccessorKey), ParseFailure>)
    requires
        pos <= input@.len() < usize::MAX,
    ensures
        r matches Ok((q, k)) ==> key_at(input@, pos as int) == Ok::<(int, KeyValue), ParseFailure>((q as int, k@)),
        r matches Err(f) ==> key_at(input@, pos as int) == Err::<(int, KeyValue), ParseFailure>(f),
{
    match take_string_key(input, pos) {
        Err(ParseFailure::Recoverable(_)) => take_numeric_key(input, pos),
        r => r,
    }
}

/// Reads a key with the span of its text.
pub fn take_spanned_key(input: &Vec<char>, pos: usize) -> (r: Result<(usize, SpannedAccessorKey), ParseFailure>)
    requires
        pos <= input@.len() < usize::MAX,
    ensures
        r matches Ok((q, k)) ==> spanned_key(input@, pos as int) == Ok::<(int, (KeyValue, AccessorParserSpan)), ParseFailure>((q as int, k@)),
        r matches Err(f) ==> spanned_key(input@, pos as int) == Err::<(int, (KeyValue, AccessorParserSpan)), ParseFailure>(f),
{
    proof {
        lemma_key_advances(input@, pos as int);
    }
    match take_key(input, pos) {
        Ok((q, key)) => Ok((q, SpannedAccessorKey { key, span: AccessorParserSpan { start: pos, end: q } })),
        Err(f) => Err(f),
    }
}

pub open spec fn views_of_keys(keys: Seq<SpannedAccessorKey>) -> Seq<(KeyValue, AccessorParserSpan)> {
    keys.map_values(|k: SpannedAccessorKey| k@)
}

/// Reads keys from `pos` until one does not start there; a fatal failure
/// aborts.
pub fn take_spanned_keys(input: &Vec<char>, pos: usize) -> (r: Result<(usize, Vec<SpannedAccessorKey>), AccessorParserError>)
    requires
        pos <= input@.len() < usize::MAX,
    ensures
        r matches Ok((q, ks)) ==> keys_from(input@, pos as int) == Ok::<(int, Seq<(KeyValue, AccessorParserSpan)>), AccessorParserError>((q as int, views_of_keys(ks@))),
        r matches Err(e) ==> keys_from(input@, pos as int) == Err::<(int, Seq<(KeyValue, AccessorParserSpan)>), AccessorParserError>(e),
{
    let mut keys: Vec<SpannedAccessorKey> = Vec::new();
    let mut p: usize = pos;
    loop
        invariant
            pos <= p <= input@.len() < usize::MAX,
            keys_from(input@, pos as int) == (match keys_from(input@, p as int) {
                Ok((q, ks)) => Ok::<(int, Seq<(KeyValue, AccessorParserSpan)>), AccessorParserError>((q, views_of_keys(keys@) + ks)),
                Err(x) => Err(x),
            }),
        decreases input@.len() - p,
    {
        proof {
            lemma_key_advances(input@, p as int);
        }
        match take_spanned_key(input, p) {
            Ok((q, k)) => {
                proof {
                    assert(views_of_keys(keys@.push(k)) =~= views_of_keys(keys@).push(k@));
                    match keys_from(input@, q as int) {
                        Ok((e, ks)) => {
                            assert(views_of_keys(keys@).push(k@) + ks =~= views_of_keys(keys@) + (seq![k@] + ks));
                        },
                        Err(_) => {},
                    }
                }
                keys.push(k);
                p = q;
            },
            Err(ParseFailure::Recoverable(_)) => {
                assert(views_of_keys(keys@) + Seq::empty() =~= views_of_keys(keys@));
                return Ok((p, keys));
            },
            Err(ParseFailure::Fatal(e)) => {
                return Err(e);
            },
        }
    }
}

/// Reads an accessor `${root key*}` at `pos`: the position after its closing
/// `}` and the accessor.
pub fn take_spanned_accessor(input: &Vec<char>, pos: usize) -> (r: Result<(usize, SpannedAccessor), AccessorParserError>)
    requires
        pos <= input@.len() < usize::MAX,
    ensures
        r matches Ok((q, a)) ==> accessor_at(input@, pos as int) == Ok::<(int, AccessorModel), AccessorParserError>((q as int, a@)),
        r matches Err(e) ==> accessor_at(input@, pos as int) == Err::<(int, AccessorModel), AccessorParserError>(e),
{
    if !(pos + 1 < input.len() && input[pos] == '$' && input[pos + 1] == '{') {
        return Err(AccessorParserError {
            kind: AccessorParserErrorKind::InvalidAccessorKey,
            span: AccessorParserSpan { start: pos, end: pos + 1 },
        });
    }
    let sep = separator_chars();
    let reserved = reserved_token_chars();
    let (root_end, root) = match take_string_with_escape_until(input, pos + 2, &sep, &reserved) {
        Ok(x) => x,
        Err(e) => {
            return Err(e);
        },
    };
    proof {
        lemma_scan_bounds(input@, pos + 2, separators(), reserved_token());
    }
    let (close, mut keys) = match take_spanned_keys(input, root_end) {
        Ok(x) => x,
        Err(e) => {
            return Err(e);
        },
    };
    proof {
        lemma_keys_from_bounds(input@, root_end as int);
    }
    if close < input.len() && input[close] == '}' {
        let root_key = SpannedAccessorKey {
            key: AccessorKey::String(root),
            span: AccessorParserSpan { start: pos + 2, end: root_end },
        };
        let ghost rest = keys@;
        keys.insert(0, root_key);
        assert(keys@ == seq![root_key] + rest);
        assert(views_of_keys(keys@) =~= seq![root_key@] + views_of_keys(rest));
        let accessor = SpannedAccessor { keys, span: AccessorParserSpan { start: pos, end: close + 1 } };
        Ok((close + 1, accessor))
    } else {
        Err(AccessorParserError {
            kind: AccessorParserErrorKind::MissingClosingBracket,
            span: AccessorParserSpan { start: pos, end: pos + 2 },
        })
    }
}

/// Parses the accessor that opens `text`; what follows its closing `}` is
/// not read.
pub fn parse_accessor(text: &str) -> (r: Result<SpannedAccessor, AccessorParserError>)
    requires
        text@.len() < usize::MAX,
    ensures
        r matches Ok(a) ==> accessor_at(text@, 0) matches Ok((_, m)) && a@ == m,
        r matches Err(e) ==> accessor_at(text@, 0) == Err::<(int, AccessorModel), AccessorParserError>(e),
{
    let input = to_chars(text);
    match take_spanned_accessor(&input, 0) {
        Ok((_, a)) => Ok(a),
        Err(e) => Err(e),
    }
}

/// The first position in `from..input.len()` that holds `c`.
fn find_char_from(input: &Vec<char>, from: usize, c: char) -> (r: Option<usize>)
    requires
        from <= input@.len(),
    ensures
        r matches Some(k) ==> find_char(input@, from as int, c) == Some(k as int),
        r is None ==> find_char(input@, from as int, c) is None,
{
    let mut i: usize = from;
    while i < input.len()
        invariant
            from <= i <= input@.len(),
            find_char(input@, from as int, c) == find_char(input@, i as int, c),
        decreases input@.len() - i,
    {
        if input[i] == c {
            return Some(i);
        }
        i = i + 1;
    }
    None
}

fn digit_of(c: char, radix: u32) -> (r: Option<u32>)
    requires
        radix <= 36,
    ensures
        r matches Some(d) ==> digit_value(c, radix as nat) == Some(d as nat),
        r is None ==> digit_value(c, radix as nat) is None,
{
    let x = c as u32;
    if '0' <= c && c <= '9' && x - ('0' as u32) < radix {
        Some(x - ('0' as u32))
    } else if 'a' <= c && c <= 'z' && x - ('a' as u32) + 10 < radix {
        Some(x - ('a' as u32) + 10)
    } else if 'A' <= c && c <= 'Z' && x - ('A' as u32) + 10 < radix {
        Some(x - ('A' as u32) + 10)
    } else {
        None
    }
}

/// Reads `input[from..to]` as an unsigned integer in base `radix` whose value
/// is at most `max`: digits only, no sign.
pub fn parse_unsigned(input: &Vec<char>, from: usize, to: usize, radix: u32, max: u64) -> (r:
    Option<u64>)
    requires
        from <= to <= input@.len(),
        2 <= radix <= 36,
    ensures
        r matches Some(n) ==> unsigned_value(input@.subrange(from as int, to as int), radix as nat, max as nat)
            == Some(n as nat),
        r is None ==> unsigned_value(input@.subrange(from as int, to as int), radix as nat, max as nat) is None,
{
    let ghost ds = input@.subrange(from as int, to as int);
    if from == to {
        return None;
    }
    let mut value: u64 = 0;
    let mut overflow = false;
    let mut i: usize = from;
    while i < to
        invariant
            from <= i <= to <= input@.len(),
            2 <= radix <= 36,
            ds == input@.subrange(from as int, to as int),
            all_digits(input@.subrange(from as int, i as int), radix as nat),
            !overflow ==> value as nat == digits_value(input@.subrange(from as int, i as int), radix as nat),
            !overflow ==> value <= max,
            overflow ==> digits_value(input@.subrange(from as int, i as int), radix as nat) > max,
        decreases to - i,
    {
        let ghost pre = input@.subrange(from as int, i as int);
        let ghost next = input@.subrange(from as int, i + 1);
        assert(next.drop_last() == pre);
        assert(next.last() == input@[i as int]);
        let d = match digit_of(input[i], radix) {
            Some(d) => d,
            None => {
                assert(!all_digits(ds, radix as nat)) by {
                    assert(ds[i - from] == input@[i as int]);
                    assert(digit_value(ds[i - from], radix as nat) is None);
                }
                assert(unsigned_value(ds, radix as nat, max as nat) is None);
                return None;
            },
        };
        assert(all_digits(next, radix as nat)) by {
            assert forall|j: int| 0 <= j < next.len() implies digit_value(#[trigger] next[j], radix as nat) is Some by {
                if j < pre.len() {
                    assert(next[j] == pre[j]);
                }
            }
        }
        if overflow {
            let ghost v = digits_value(pre, radix as nat);
            assert(v * (radix as nat) >= v) by (nonlinear_arith)
                requires radix >= 2;
        } else {
            match value.checked_mul(radix as u64) {
                Some(m) => match m.checked_add(d as u64) {
                    Some(v) => {
                        if v <= max {
                            value = v;
                        } else {
                            overflow = true;
                        }
                    },
                    None => {
                        overflow = true;
                    },
                },
                None => {
                    let ghost v = digits_value(pre, radix as nat);
                    assert(v * (radix as nat) >= v) by (nonlinear_arith)
                        requires radix >= 2;
                    overflow = true;
                },
            }
        }
        i = i + 1;
    }
    assert(input@.subrange(from as int, i as int) == ds);
    if overflow {
        None
    } else {
        Some(value)
    }
}

/// Reads the body of a `\u{HEX}` escape at `pos`, just after the `u`.
pub fn take_unicode(input: &Vec<char>, pos: usize) -> (r: Result<(usize, char), AccessorParserError>)
    requires
        pos <= input@.len() < usize::MAX,
    ensures
        r matches Ok((q, c)) ==> unicode_escape(input@, pos as int) == Ok::<(int, char), AccessorParserError>((q as int, c)),
        r matches Err(e) ==> unicode_escape(input@, pos as int) == Err::<(int, char), AccessorParserError>(e),
{
    if pos >= input.len() || input[pos] != '{' {
        return Err(AccessorParserError {
            kind: AccessorParserErrorKind::InvalidUnicode(InvalidUnicodeError::MissingOpeningBracket),
            span: AccessorParserSpan { start: pos, end: pos + 1 },
        });
    }
    let close = match find_char_from(input, pos + 1, '}') {
        Some(k) => k,
        None => {
            return Err(AccessorParserError {
                kind: AccessorParserErrorKind::InvalidUnicode(InvalidUnicodeError::MissingClosingBracket),
                span: AccessorParserSpan { start: pos + 1, end: input.len() },
            });
        },
    };
    proof {
        lemma_find_char_bounds(input@, pos + 1, '}');
    }
    let code_span = AccessorParserSpan { start: pos + 1, end: close };
    let len = close - (pos + 1);
    if len < 2 || len > 8 {
        return Err(AccessorParserError {
            kind: AccessorParserErrorKind::InvalidUnicode(InvalidUnicodeError::InvalidCodeLength),
            span: code_span,
        });
    }
    let n = match parse_unsigned(input, pos + 1, close, 16, u32::MAX as u64) {
        Some(n) => n,
        None => {
            return Err(AccessorParserError {
                kind: AccessorParserErrorKind::InvalidUnicode(InvalidUnicodeError::InvalidHexadecimal),
                span: code_span,
            });
        },
    };
    match char_from_code(n as u32) {
        Some(c) => {
            proof {
                assert(code_of(c) == n as nat);
                let w = char_with_code(n as nat);
                assert(code_of(w) == n as nat);
                lemma_code_injective(c, w);
            }
            Ok((close + 1, c))
        },
        None => Err(AccessorParserError {
            kind: AccessorParserErrorKind::InvalidUnicode(InvalidUnicodeError::InvalidCodePoint),
            span: code_span,
        }),
    }
}

/// Reads an escape sequence at `pos`, where a backslash stands with a
/// character after it.
pub fn take_escaped_char(input: &Vec<char>, pos: usize, reserved: &[char]) -> (r: Result<
    (usize, char),
    AccessorParserError,
>)
    requires
        pos + 1 < input@.len() < usize::MAX,
        input@[pos as int] == '\\',
    ensures
        r matches Ok((q, c)) ==> escape(input@, pos as int, reserved@) == Ok::<(int, char), AccessorParserError>((q as int, c)),
        r matches Err(e) ==> escape(input@, pos as int, reserved@) == Err::<(int, char), AccessorParserError>(e),
{
    let c = input[pos + 1];
    if c == 'u' {
        take_unicode(input, pos + 2)
    } else if c == 'n' {
        Ok((pos + 2, '\n'))
    } else if c == 't' {
        Ok((pos + 2, '\t'))
    } else if c == 'r' {
        Ok((pos + 2, '\r'))
    } else if c == '\\' {
        Ok((pos + 2, '\\'))
    } else if contains_char(reserved, c) {
        Ok((pos + 2, c))
    } else {
        Err(AccessorParserError {
            kind: AccessorParserErrorKind::InvalidEscapeCharacter(c),
            span: AccessorParserSpan { start: pos, end: pos + 2 },
        })
    }
}

/// Takes the character at `pos` as it stands, refusing a reserved one.
pub fn take_char(input: &Vec<char>, pos: usize, reserved: &[char]) -> (r: Result<
    (usize, char),
    AccessorParserError,
>)
    requires
        pos < input@.len() < usize::MAX,
    ensures
        r matches Ok((q, c)) ==> plain_char(input@, pos as int, reserved@) == Ok::<(int, char), AccessorParserError>((q as int, c)),
        r matches Err(e) ==> plain_char(input@, pos as int, reserved@) == Err::<(int, char), AccessorParserError>(e),
{
    let c = input[pos];
    if contains_char(reserved, c) {
        Err(AccessorParserError {
            kind: AccessorParserErrorKind::InvalidCharacter(c),
            span: AccessorParserSpan { start: pos, end: pos + 1 },
        })
    } else {
        Ok((pos + 1, c))
    }
}

/// Reads decoded text from `pos` until an unescaped character of `stop`,
/// which is left in place, or the end of the input.
pub fn take_string_with_escape_until(
    input: &Vec<char>,
    pos: usize,
    stop: &[char],
    reserved: &[char],
) -> (r: Result<(usize, String), AccessorParserError>)
    requires
        pos <= input@.len() < usize::MAX,
    ensures
        r matches Ok((q, t)) ==> scan(input@, pos as int, stop@, reserved@) == Ok::<(int, Seq<char>), AccessorParserError>((q as int, t@)),
        r matches Err(e) ==> scan(input@, pos as int, stop@, reserved@) == Err::<(int, Seq<char>), AccessorParserError>(e),
{
    let mut buf = String::new();
    let mut p: usize = pos;
    loop
        invariant
            pos <= p <= input@.len() < usize::MAX,
            scan(input@, pos as int, stop@, reserved@) == (match scan(input@, p as int, stop@, reserved@) {
                Ok((e, t)) => Ok::<(int, Seq<char>), AccessorParserError>((e, buf@ + t)),
                Err(e) => Err(e),
            }),
        decreases input@.len() - p,
    {
        if p >= input.len() || contains_char(stop, input[p]) {
            assert(buf@ + Seq::<char>::empty() == buf@);
            return Ok((p, buf));
        }
        let step = if input[p] == '\\' && p + 1 < input.len() {
            take_escaped_char(input, p, reserved)
        } else {
            take_char(input, p, reserved)
        };
        proof {
            lemma_char_step_advances(input@, p as int, reserved@);
        }
        match step {
            Err(e) => {
                return Err(e);
            },
            Ok((q, c)) => {
                proof {
                    match scan(input@, q as int, stop@, reserved@) {
                        Ok((e, t)) => {
                            assert(buf@.push(c) + t == buf@ + (seq![c] + t));
                        },
                        Err(_) => {},
                    }
                }
                push_char(&mut buf, c);
                p = q;
            },
        }
    }
}

/// Relies on `char::from_u32`: `Some` exactly for Unicode scalar values, with
/// the char of that code.
#[verifier::external_body]
fn char_from_code(n: u32) -> (r: Option<char>)
    ensures
        r is Some <==> is_scalar_value(n as nat),
        r matches Some(c) ==> c as u32 == n,
{
    char::from_u32(n)
}

/// Relies on `String::push`: appends one char.
#[verifier::external_body]
fn push_char(s: &mut String, c: char)
    ensures
        final(s)@ == old(s)@.push(c),
{
    s.push(c)
}

/// The characters of `text`, in order; positions in this vector are the
/// character offsets that spans use.
pub fn to_chars(text: &str) -> (r: Vec<char>)
    ensures
        r@ == text@,
{
    let mut r: Vec<char> = Vec::new();
    for c in it: text.chars()
        invariant
            r@ == it.seq().take(it.index() as int),
            it.seq() == text@,
    {
        r.push(c);
    }
    r
}

fn contains_char(set: &[char], c: char) -> (r: bool)
    ensures
        r == set@.contains(c),
{
    let mut i: usize = 0;
    while i < set.len()
        invariant
            i <= set@.len(),
            forall|j: int| 0 <= j < i ==> set@[j] != c,
        decreases set@.len() - i,
    {
        if set[i] == c {
            return true;
        }
        i = i + 1;
    }
    false
}

} // verus!
