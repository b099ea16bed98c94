use vstd::prelude::*;

use crate::error::{AccessorParserError, ParseFailure};
use crate::parser::{
    is_scalar_value, plain_char, char_with_code, code_of, lemma_code_injective, unsigned_value, accessor_at, char_step, digit_value, digits_value, find_char, key_at, keys_from, lemma_accessor_advances,
    lemma_char_step_advances, lemma_find_char_bounds, lemma_key_advances,
    lemma_keys_from_bounds, lemma_scan_bounds, reserved_raw_literal, reserved_token, scan,
    separators, spanned_key,
};
use crate::{key_values, AccessorParserSpan, KeyValue};

verus! {

/// The keys' spans lie end to end from `from` to `to`.
pub open spec fn tiles(keys: Seq<(KeyValue, AccessorParserSpan)>, from: int, to: int) -> bool
    decreases keys.len(),
{
    if keys.len() == 0 {
        from == to
    } else {
        keys[0].1.start as int == from && from <= keys[0].1.end as int && tiles(
            keys.drop_first(),
            keys[0].1.end as int,
            to,
        )
    }
}

/// The text under each key's span, one after the other.
pub open spec fn spans_text(s: Seq<char>, keys: Seq<(KeyValue, AccessorParserSpan)>) -> Seq<char>
    decreases keys.len(),
{
    if keys.len() == 0 {
        Seq::empty()
    } else {
        s.subrange(keys[0].1.start as int, keys[0].1.end as int) + spans_text(s, keys.drop_first())
    }
}

/// Keys read one after another tile the text they were read from, each
/// covering at least one character.
pub proof fn lemma_keys_tile(s: Seq<char>, r: int)
    requires
        0 <= r <= s.len() < usize::MAX,
    ensures
        keys_from(s, r) matches Ok((q, ks)) ==> {
            &&& tiles(ks, r, q)
            &&& s.subrange(r, q) == spans_text(s, ks)
            &&& forall|i: int| 0 <= i < ks.len() ==> (#[trigger] ks[i]).1.start < ks[i].1.end
        },
    decreases s.len() - r,
{
    lemma_key_advances(s, r);
    if let Ok((e, k)) = spanned_key(s, r) {
        lemma_keys_tile(s, e);
        lemma_keys_from_bounds(s, e);
        if let Ok((q, rest)) = keys_from(s, e) {
            let ks = seq![k] + rest;
            assert(ks.drop_first() =~= rest);
            assert(s.subrange(r, q) =~= s.subrange(r, e) + s.subrange(e, q));
            assert forall|i: int| 0 <= i < ks.len() implies (#[trigger] ks[i]).1.start < ks[i].1.end by {
                if i > 0 {
                    assert(ks[i] == rest[i - 1]);
                }
            }
        }
    }
}

/// An accessor read at `p` and ending before `q` is `${`, then the texts of
/// its keys' spans end to end, then `}`: the spans tile the text, and every
/// key after the root covers at least one character.
pub proof fn lemma_accessor_spans_reconstruct(s: Seq<char>, p: int)
    requires
        0 <= p <= s.len() < usize::MAX,
    ensures
        accessor_at(s, p) matches Ok((q, m)) ==> {
            &&& m.span == crate::mk_span(p, q)
            &&& m.keys.len() >= 1
            &&& tiles(m.keys, p + 2, q - 1)
            &&& forall|i: int| 1 <= i < m.keys.len() ==> (#[trigger] m.keys[i]).1.start < m.keys[i].1.end
            &&& s.subrange(p, q) == seq!['$', '{'] + spans_text(s, m.keys) + seq!['}']
        },
{
    if let Ok((q, m)) = accessor_at(s, p) {
        lemma_scan_bounds(s, p + 2, separators(), reserved_token());
        let (r, root) = scan(s, p + 2, separators(), reserved_token())->Ok_0;
        lemma_keys_tile(s, r);
        lemma_keys_from_bounds(s, r);
        let (c, ks) = keys_from(s, r)->Ok_0;
        assert(m.keys.drop_first() =~= ks);
        assert forall|i: int| 1 <= i < m.keys.len() implies (#[trigger] m.keys[i]).1.start < m.keys[i].1.end by {
            assert(m.keys[i] == ks[i - 1]);
        }
        assert(s.subrange(p, q) =~= seq!['$', '{'] + (s.subrange(p + 2, r) + s.subrange(r, c)) + seq!['}']);
    }
}

pub proof fn lemma_find_char_prefix(s: Seq<char>, n: int, from: int, c: char)
    requires
        0 <= n <= s.len(),
        find_char(s, from, c) matches Some(k) && k < n,
    ensures
        find_char(s.subrange(0, n), from, c) == find_char(s, from, c),
    decreases s.len() - from,
{
    if 0 <= from < s.len() && s[from] != c {
        lemma_find_char_prefix(s, n, from + 1, c);
    }
}

pub proof fn lemma_char_step_prefix(s: Seq<char>, n: int, p: int, reserved: Seq<char>)
    requires
        0 <= p < n <= s.len(),
        char_step(s, p, reserved) matches Ok((e, c)) && e <= n,
    ensures
        char_step(s.subrange(0, n), p, reserved) == char_step(s, p, reserved),
{
    let t = s.subrange(0, n);
    lemma_find_char_bounds(s, p + 3, '}');
    if s[p] == '\\' && p + 1 < s.len() {
        if s[p + 1] == 'u' {
            if let Some(k) = find_char(s, p + 3, '}') {
                lemma_find_char_prefix(s, n, p + 3, '}');
                assert(t.subrange(p + 3, k) =~= s.subrange(p + 3, k));
            }
        }
    }
}

pub proof fn lemma_scan_prefix(s: Seq<char>, n: int, p: int, stop: Seq<char>, reserved: Seq<char>)
    requires
        0 <= p <= n <= s.len(),
        scan(s, p, stop, reserved) matches Ok((e, t)) && e < n,
    ensures
        scan(s.subrange(0, n), p, stop, reserved) == scan(s, p, stop, reserved),
    decreases s.len() - p,
{
    if p < s.len() && !stop.contains(s[p]) {
        lemma_char_step_advances(s, p, reserved);
        if let Ok((q, c)) = char_step(s, p, reserved) {
            lemma_scan_bounds(s, q, stop, reserved);
            lemma_char_step_prefix(s, n, p, reserved);
            lemma_scan_prefix(s, n, q, stop, reserved);
        }
    }
}

pub proof fn lemma_key_prefix(s: Seq<char>, n: int, p: int)
    requires
        0 <= p < n <= s.len(),
    ensures
        spanned_key(s, p) matches Ok((e, k)) && e < n ==> spanned_key(s.subrange(0, n), p)
            == spanned_key(s, p),
        spanned_key(s, p) matches Err(ParseFailure::Recoverable(_)) ==> spanned_key(
            s.subrange(0, n),
            p,
        ) is Err && spanned_key(s.subrange(0, n), p)->Err_0 is Recoverable,
{
    let t = s.subrange(0, n);
    if let Ok((e, k)) = spanned_key(s, p) {
        if e < n {
            lemma_scan_bounds(s, p + 1, separators(), reserved_token());
            if p + 2 <= s.len() {
                lemma_scan_bounds(s, p + 2, reserved_raw_literal(), reserved_raw_literal());
            }
            lemma_find_char_bounds(s, p + 1, ']');
            if s[p] == '.' {
                if p + 1 < s.len() && s[p + 1] == '"' {
                    lemma_scan_prefix(s, n, p + 2, reserved_raw_literal(), reserved_raw_literal());
                } else {
                    lemma_scan_prefix(s, n, p + 1, separators(), reserved_token());
                }
            } else {
                lemma_find_char_prefix(s, n, p + 1, ']');
                let k = find_char(s, p + 1, ']')->Some_0;
                assert(t.subrange(p + 1, k) =~= s.subrange(p + 1, k));
            }
        }
    }
}

pub proof fn lemma_keys_from_prefix(s: Seq<char>, n: int, p: int)
    requires
        0 <= p < n <= s.len(),
        keys_from(s, p) matches Ok((q, ks)) && q < n,
    ensures
        keys_from(s.subrange(0, n), p) == keys_from(s, p),
    decreases s.len() - p,
{
    lemma_key_advances(s, p);
    lemma_key_prefix(s, n, p);
    if let Ok((e, k)) = spanned_key(s, p) {
        lemma_keys_from_bounds(s, e);
        lemma_keys_from_prefix(s, n, e);
    }
}

/// An accessor read at `p` reads nothing past its closing `}`.
pub proof fn lemma_accessor_prefix(s: Seq<char>, n: int, p: int)
    requires
        0 <= p <= n <= s.len(),
        accessor_at(s, p) matches Ok((q, m)) && q <= n,
    ensures
        accessor_at(s.subrange(0, n), p) == accessor_at(s, p),
{
    lemma_scan_bounds(s, p + 2, separators(), reserved_token());
    let (r, root) = scan(s, p + 2, separators(), reserved_token())->Ok_0;
    lemma_keys_from_bounds(s, r);
    lemma_scan_prefix(s, n, p + 2, separators(), reserved_token());
    lemma_keys_from_prefix(s, n, r);
}

/// Parsing the text rebuilt from an accessor's spans (`${`, the text under
/// each key's span, `}`) yields the identical accessor, spans included.
pub proof fn lemma_reparse_identical(s: Seq<char>)
    requires
        s.len() < usize::MAX,
    ensures
        accessor_at(s, 0) matches Ok((q, m)) ==> accessor_at(
            seq!['$', '{'] + spans_text(s, m.keys) + seq!['}'],
            0,
        ) == accessor_at(s, 0),
{
    if let Ok((q, m)) = accessor_at(s, 0) {
        lemma_accessor_advances(s, 0);
        lemma_accessor_spans_reconstruct(s, 0);
        lemma_accessor_prefix(s, q, 0);
        assert(s.subrange(0, q) == seq!['$', '{'] + spans_text(s, m.keys) + seq!['}']);
    }
}

pub open spec fn digit_char(d: nat) -> char {
    seq!['0', '1', '2', '3', '4', '5', '6', '7', '8', '9'][d as int]
}

/// `n` in decimal, without leading zeros.
pub open spec fn decimal(n: nat) -> Seq<char>
    decreases n,
{
    if n < 10 {
        seq![digit_char(n)]
    } else {
        decimal(n / 10).push(digit_char(n % 10))
    }
}

pub proof fn lemma_reserved_token_members(c: char)
    ensures
        reserved_token().contains(c) <==> (c == '{' || c == '}' || c == '[' || c == ']' || c == '.'
            || c == '$' || c == '"'),
        separators().contains(c) <==> (c == '.' || c == '[' || c == '}'),
{
    let r = reserved_token();
    let sp = separators();
    if c == '{' || c == '}' || c == '[' || c == ']' || c == '.' || c == '$' || c == '"' {
        if c == '{' { assert(r[0] == c); } else if c == '}' { assert(r[1] == c); } else if c == '[' { assert(r[2] == c); } else if c == ']' { assert(r[3] == c); } else if c == '.' { assert(r[4] == c); } else if c == '$' { assert(r[5] == c); } else { assert(r[6] == c); }
    }
    if c == '.' || c == '[' || c == '}' {
        if c == '.' { assert(sp[0] == c); } else if c == '[' { assert(sp[1] == c); } else { assert(sp[2] == c); }
    }
}

pub proof fn lemma_digit_char(d: nat)
    requires
        d < 10,
    ensures
        digit_value(digit_char(d), 10) == Some(d),
        digit_char(d) != ']',
        digit_char(d) != '+',
{
    let ds = seq!['0', '1', '2', '3', '4', '5', '6', '7', '8', '9'];
    if d == 0 { assert(ds[0] == '0'); } else if d == 1 { assert(ds[1] == '1'); } else if d == 2 { assert(ds[2] == '2'); } else if d == 3 { assert(ds[3] == '3'); } else if d == 4 { assert(ds[4] == '4'); } else if d == 5 { assert(ds[5] == '5'); } else if d == 6 { assert(ds[6] == '6'); } else if d == 7 { assert(ds[7] == '7'); } else if d == 8 { assert(ds[8] == '8'); } else { assert(ds[9] == '9'); }
}

pub proof fn lemma_decimal(n: nat)
    ensures
        decimal(n).len() > 0,
        digits_value(decimal(n), 10) == n,
        forall|i: int|
            0 <= i < decimal(n).len() ==> digit_value(#[trigger] decimal(n)[i], 10) is Some
                && decimal(n)[i] != ']' && decimal(n)[i] != '+',
    decreases n,
{
    lemma_digit_char(n % 10);
    if n >= 10 {
        lemma_decimal(n / 10);
        let x = decimal(n / 10);
        let y = x.push(digit_char(n % 10));
        assert(y.drop_last() =~= x);
        assert(y.last() == digit_char(n % 10));
        assert(digits_value(y, 10) == digits_value(x, 10) * 10 + n % 10);
        assert(forall|i: int| 0 <= i < x.len() ==> y[i] == x[i]);
        assert((n / 10) * 10 + n % 10 == n);
    } else {
        let y = seq![digit_char(n)];
        assert(y.drop_last() =~= Seq::<char>::empty());
        assert(y.last() == digit_char(n));
        assert(digits_value(y, 10) == digits_value(Seq::<char>::empty(), 10) * 10 + n);
    }
}

pub proof fn lemma_index_key_written(s: Seq<char>, p: int, n: usize)
    requires
        0 <= p,
        p + written_key(KeyWriting::Index(n)).len() <= s.len(),
        s.subrange(p, p + written_key(KeyWriting::Index(n)).len()) == written_key(KeyWriting::Index(n)),
    ensures
        key_at(s, p) == Ok::<(int, KeyValue), ParseFailure>(
            (p + written_key(KeyWriting::Index(n)).len(), KeyValue::Index(n)),
        ),
{
    let d = decimal(n as nat);
    let r = written_key(KeyWriting::Index(n));
    lemma_decimal(n as nat);
    assert(s[p] == r[0]);
    assert forall|j: int| 0 <= j < d.len() implies s[p + 1 + j] == d[j] by {
        assert(s[p + 1 + j] == r[1 + j]);
    }
    assert(s[p + 1 + d.len()] == r[1 + d.len() as int]);
    let k = p + 1 + d.len();
    assert forall|j: int| p + 1 <= j < k implies s[j] != ']' by {
        assert(s[j] == d[j - p - 1]);
    }
    assert(find_char(s, p + 1, ']') == Some(k)) by {
        lemma_find_char_at(s, p + 1, k, ']');
    }
    assert(s.subrange(p + 1, k) =~= d);
}

pub proof fn lemma_find_char_at(s: Seq<char>, from: int, k: int, c: char)
    requires
        0 <= from <= k < s.len(),
        s[k] == c,
        forall|j: int| from <= j < k ==> s[j] != c,
    ensures
        find_char(s, from, c) == Some(k),
    decreases k - from,
{
    if from < k {
        lemma_find_char_at(s, from + 1, k, c);
    }
}

pub proof fn lemma_key_values_cons(
    k: (KeyValue, AccessorParserSpan),
    m: Seq<(KeyValue, AccessorParserSpan)>,
    ks: Seq<KeyValue>,
)
    requires
        ks.len() > 0,
        k.0 == ks[0],
        key_values(m) == ks.drop_first(),
    ensures
        key_values(seq![k] + m) == ks,
{
    let all = seq![k] + m;
    assert(key_values(m).len() == m.len());
    assert(m.len() + 1 == ks.len());
    assert(key_values(all).len() == ks.len());
    assert forall|i: int| 0 <= i < ks.len() implies key_values(all)[i] == ks[i] by {
        if i > 0 {
            assert(all[i] == m[i - 1]);
            assert(key_values(m)[i - 1] == ks.drop_first()[i - 1]);
        }
    }
    assert(key_values(all) =~= ks);
}

/// How one character of key text is written.
pub ghost enum CharWriting {
    /// As itself.
    Plain,
    /// As a backslash followed by itself.
    Backslash,
    /// As `\u{...}` with this many lower-case hexadecimal digits.
    Code(nat),
}

pub open spec fn pow16(w: nat) -> nat
    decreases w,
{
    if w == 0 {
        1
    } else {
        16 * pow16((w - 1) as nat)
    }
}

pub open spec fn hex_digit_char(d: nat) -> char {
    seq!['0', '1', '2', '3', '4', '5', '6', '7', '8', '9', 'a', 'b', 'c', 'd', 'e', 'f'][d as int]
}

/// The last `w` hexadecimal digits of `n`, most significant first.
pub open spec fn hex_digits(n: nat, w: nat) -> Seq<char>
    decreases w,
{
    if w == 0 {
        Seq::empty()
    } else {
        hex_digits(n / 16, (w - 1) as nat).push(hex_digit_char(n % 16))
    }
}

pub open spec fn written_char(c: char, how: CharWriting) -> Seq<char> {
    match how {
        CharWriting::Plain => seq![c],
        CharWriting::Backslash => seq!['\\', c],
        CharWriting::Code(w) => seq!['\\', 'u', '{'] + hex_digits(code_of(c), w) + seq!['}'],
    }
}

/// `how` writes `c` correctly where the characters of `reserved` must be
/// escaped: as itself only when it is neither a backslash nor reserved, with
/// a backslash only when it is one of those (and no letter that starts an
/// escape of its own), and as a code with 2 to 8 digits
/// that hold its value.
pub open spec fn writes(c: char, how: CharWriting, reserved: Seq<char>) -> bool {
    match how {
        CharWriting::Plain => c != '\\' && !reserved.contains(c),
        CharWriting::Backslash => (c == '\\' || reserved.contains(c)) && c != 'u' && c != 'n'
            && c != 't' && c != 'r',
        CharWriting::Code(w) => 2 <= w <= 8 && code_of(c) < pow16(w),
    }
}

pub open spec fn writes_all(t: Seq<(char, CharWriting)>, reserved: Seq<char>) -> bool {
    forall|i: int| 0 <= i < t.len() ==> writes((#[trigger] t[i]).0, t[i].1, reserved)
}

/// The text that the writing `t` spells out, character by character.
pub open spec fn written(t: Seq<(char, CharWriting)>) -> Seq<char>
    decreases t.len(),
{
    if t.len() == 0 {
        Seq::empty()
    } else {
        written_char(t[0].0, t[0].1) + written(t.drop_first())
    }
}

/// The characters that the writing `t` stands for.
pub open spec fn decoded(t: Seq<(char, CharWriting)>) -> Seq<char> {
    t.map_values(|x: (char, CharWriting)| x.0)
}

/// How a key after the root is written.
pub ghost enum KeyWriting {
    /// `.name`
    Name(Seq<(char, CharWriting)>),
    /// `."name"`
    Quoted(Seq<(char, CharWriting)>),
    /// `[index]`, in decimal without leading zeros.
    Index(usize),
}

pub open spec fn key_writing_valid(k: KeyWriting) -> bool {
    match k {
        KeyWriting::Name(t) => writes_all(t, reserved_token()),
        KeyWriting::Quoted(t) => writes_all(t, reserved_raw_literal()),
        KeyWriting::Index(_) => true,
    }
}

pub open spec fn key_writing_value(k: KeyWriting) -> KeyValue {
    match k {
        KeyWriting::Name(t) => KeyValue::Text(decoded(t)),
        KeyWriting::Quoted(t) => KeyValue::Text(decoded(t)),
        KeyWriting::Index(n) => KeyValue::Index(n),
    }
}

pub open spec fn written_key(k: KeyWriting) -> Seq<char> {
    match k {
        KeyWriting::Name(t) => seq!['.'] + written(t),
        KeyWriting::Quoted(t) => seq!['.', '"'] + written(t) + seq!['"'],
        KeyWriting::Index(n) => seq!['['] + decimal(n as nat) + seq![']'],
    }
}

pub open spec fn written_keys(ks: Seq<KeyWriting>) -> Seq<char>
    decreases ks.len(),
{
    if ks.len() == 0 {
        Seq::empty()
    } else {
        written_key(ks[0]) + written_keys(ks.drop_first())
    }
}

/// The accessor text `${root keys}`.
pub open spec fn written_accessor(root: Seq<(char, CharWriting)>, keys: Seq<KeyWriting>) -> Seq<char> {
    seq!['$', '{'] + written(root) + written_keys(keys) + seq!['}']
}

pub proof fn lemma_hex_digit_char(d: nat)
    requires
        d < 16,
    ensures
        digit_value(hex_digit_char(d), 16) == Some(d),
        hex_digit_char(d) != '}',
{
    let hs = seq!['0', '1', '2', '3', '4', '5', '6', '7', '8', '9', 'a', 'b', 'c', 'd', 'e', 'f'];
    if d == 0 { assert(hs[0] == '0'); } else if d == 1 { assert(hs[1] == '1'); } else if d == 2 { assert(hs[2] == '2'); } else if d == 3 { assert(hs[3] == '3'); } else if d == 4 { assert(hs[4] == '4'); } else if d == 5 { assert(hs[5] == '5'); } else if d == 6 { assert(hs[6] == '6'); } else if d == 7 { assert(hs[7] == '7'); } else if d == 8 { assert(hs[8] == '8'); } else if d == 9 { assert(hs[9] == '9'); } else if d == 10 { assert(hs[10] == 'a'); } else if d == 11 { assert(hs[11] == 'b'); } else if d == 12 { assert(hs[12] == 'c'); } else if d == 13 { assert(hs[13] == 'd'); } else if d == 14 { assert(hs[14] == 'e'); } else { assert(hs[15] == 'f'); }
}

pub proof fn lemma_hex_digits(n: nat, w: nat)
    requires
        n < pow16(w),
    ensures
        hex_digits(n, w).len() == w,
        digits_value(hex_digits(n, w), 16) == n,
        forall|i: int|
            0 <= i < w ==> digit_value(#[trigger] hex_digits(n, w)[i], 16) is Some
                && hex_digits(n, w)[i] != '}',
    decreases w,
{
    if w > 0 {
        let p = pow16((w - 1) as nat);
        assert(n / 16 < p) by (nonlinear_arith)
            requires n < 16 * p;
        lemma_hex_digits(n / 16, (w - 1) as nat);
        lemma_hex_digit_char(n % 16);
        let x = hex_digits(n / 16, (w - 1) as nat);
        let y = x.push(hex_digit_char(n % 16));
        assert(y.drop_last() =~= x);
        assert(y.last() == hex_digit_char(n % 16));
        assert(digits_value(y, 16) == digits_value(x, 16) * 16 + n % 16);
        assert(forall|i: int| 0 <= i < x.len() ==> y[i] == x[i]);
        assert((n / 16) * 16 + n % 16 == n);
    } else {
        assert(n == 0);
        assert(hex_digits(n, w) =~= Seq::<char>::empty());
    }
}

pub proof fn lemma_char_written(s: Seq<char>, p: int, c: char, how: CharWriting, reserved: Seq<char>)
    requires
        0 <= p,
        p + written_char(c, how).len() <= s.len(),
        s.subrange(p, p + written_char(c, how).len()) == written_char(c, how),
        writes(c, how, reserved),
    ensures
        char_step(s, p, reserved) == Ok::<(int, char), AccessorParserError>(
            (p + written_char(c, how).len(), c),
        ),
        s[p] == '\\' || (s[p] == c && c != '\\' && !reserved.contains(c)),
{
    let wc = written_char(c, how);
    assert(s[p] == wc[0]);
    match how {
        CharWriting::Plain => {
            assert(wc == seq![c]);
            assert(s[p] == c);
            assert(plain_char(s, p, reserved) == Ok::<(int, char), AccessorParserError>((p + 1, c)));
            assert(c != '\\');
            assert(!(s[p] == '\\' && p + 1 < s.len()));
            assert(char_step(s, p, reserved) == plain_char(s, p, reserved));
            assert(written_char(c, how).len() == 1);
        },
        CharWriting::Backslash => {
            assert(s[p + 1] == wc[1]);
        },
        CharWriting::Code(w) => {
            let n = code_of(c);
            let h = hex_digits(n, w);
            lemma_hex_digits(n, w);
            assert(s[p + 1] == wc[1]);
            assert(s[p + 2] == wc[2]);
            let k = p + 3 + w;
            assert(s[k] == wc[3 + w as int]);
            assert forall|j: int| p + 3 <= j < k implies s[j] != '}' by {
                assert(s[j] == wc[j - p]);
                assert(wc[j - p] == h[j - p - 3]);
            }
            lemma_find_char_at(s, p + 3, k, '}');
            assert(s.subrange(p + 3, k) =~= h) by {
                assert forall|j: int| 0 <= j < w implies s.subrange(p + 3, k)[j] == h[j] by {
                    assert(s[p + 3 + j] == wc[3 + j]);
                }
            }
            assert(is_scalar_value(n));
            assert(unsigned_value(h, 16, u32::MAX as nat) == Some(n));
            let x = char_with_code(n);
            assert(code_of(x) == n);
            lemma_code_injective(x, c);
        },
    }
}

pub proof fn lemma_scan_written(
    s: Seq<char>,
    p: int,
    t: Seq<(char, CharWriting)>,
    stop: Seq<char>,
    reserved: Seq<char>,
)
    requires
        0 <= p,
        p + written(t).len() <= s.len(),
        s.subrange(p, p + written(t).len()) == written(t),
        writes_all(t, reserved),
        forall|c: char| stop.contains(c) ==> reserved.contains(c),
        !stop.contains('\\'),
        p + written(t).len() == s.len() || stop.contains(s[p + written(t).len()]),
    ensures
        scan(s, p, stop, reserved) == Ok::<(int, Seq<char>), AccessorParserError>(
            (p + written(t).len(), decoded(t)),
        ),
    decreases t.len(),
{
    if t.len() == 0 {
        assert(decoded(t) =~= Seq::<char>::empty());
    } else {
        let (c, how) = t[0];
        let head = written_char(c, how);
        let rest = written(t.drop_first());
        assert(written(t) == head + rest);
        assert(s.subrange(p, p + head.len()) =~= head) by {
            assert(s.subrange(p, p + head.len()) =~= written(t).subrange(0, head.len() as int));
        }
        assert(s.subrange(p + head.len(), p + head.len() + rest.len()) =~= rest) by {
            assert(s.subrange(p + head.len(), p + head.len() + rest.len()) =~= written(t).subrange(
                head.len() as int,
                written(t).len() as int,
            ));
        }
        assert(writes(c, how, reserved));
        lemma_char_written(s, p, c, how, reserved);
        assert(!stop.contains(s[p]));
        assert(writes_all(t.drop_first(), reserved)) by {
            assert forall|i: int| 0 <= i < t.drop_first().len() implies writes(
                (#[trigger] t.drop_first()[i]).0,
                t.drop_first()[i].1,
                reserved,
            ) by {
                assert(t.drop_first()[i] == t[i + 1]);
            }
        }
        lemma_scan_written(s, p + head.len(), t.drop_first(), stop, reserved);
        assert(seq![c] + decoded(t.drop_first()) =~= decoded(t));
    }
}

pub proof fn lemma_written_first(t: Seq<(char, CharWriting)>, reserved: Seq<char>)
    requires
        t.len() > 0,
        writes_all(t, reserved),
    ensures
        written(t).len() > 0,
        written(t)[0] == '\\' || (written(t)[0] == t[0].0 && !reserved.contains(t[0].0)),
{
    let head = written_char(t[0].0, t[0].1);
    assert(written(t) == head + written(t.drop_first()));
    assert(writes(t[0].0, t[0].1, reserved));
    assert(written(t)[0] == head[0]);
}

pub proof fn lemma_name_key_written(s: Seq<char>, p: int, t: Seq<(char, CharWriting)>)
    requires
        0 <= p,
        writes_all(t, reserved_token()),
        p + written_key(KeyWriting::Name(t)).len() < s.len(),
        s.subrange(p, p + written_key(KeyWriting::Name(t)).len()) == written_key(KeyWriting::Name(t)),
        separators().contains(s[p + written_key(KeyWriting::Name(t)).len()]),
    ensures
        key_at(s, p) == Ok::<(int, KeyValue), ParseFailure>(
            (p + written_key(KeyWriting::Name(t)).len(), KeyValue::Text(decoded(t))),
        ),
{
    let r = written_key(KeyWriting::Name(t));
    let w = written(t);
    assert(s[p] == r[0]);
    assert(s.subrange(p + 1, p + 1 + w.len()) =~= w) by {
        assert(s.subrange(p + 1, p + 1 + w.len()) =~= r.subrange(1, r.len() as int));
    }
    if t.len() > 0 {
        lemma_written_first(t, reserved_token());
        lemma_reserved_token_members(t[0].0);
        assert(s[p + 1] == r[1]);
    }
    lemma_reserved_token_members(s[p + 1]);
    assert(s[p + 1] != '"');
    assert forall|c: char| separators().contains(c) implies reserved_token().contains(c) by {
        lemma_reserved_token_members(c);
    }
    lemma_reserved_token_members('\\');
    lemma_scan_written(s, p + 1, t, separators(), reserved_token());
}

pub proof fn lemma_quoted_key_written(s: Seq<char>, p: int, t: Seq<(char, CharWriting)>)
    requires
        0 <= p,
        writes_all(t, reserved_raw_literal()),
        p + written_key(KeyWriting::Quoted(t)).len() <= s.len(),
        s.subrange(p, p + written_key(KeyWriting::Quoted(t)).len()) == written_key(KeyWriting::Quoted(t)),
    ensures
        key_at(s, p) == Ok::<(int, KeyValue), ParseFailure>(
            (p + written_key(KeyWriting::Quoted(t)).len(), KeyValue::Text(decoded(t))),
        ),
{
    let r = written_key(KeyWriting::Quoted(t));
    let w = written(t);
    assert(s[p] == r[0]);
    assert(s[p + 1] == r[1]);
    assert(s[p + 2 + w.len()] == r[2 + w.len() as int]);
    assert(s.subrange(p + 2, p + 2 + w.len()) =~= w) by {
        assert(s.subrange(p + 2, p + 2 + w.len()) =~= r.subrange(2, 2 + w.len() as int));
    }
    let raw = reserved_raw_literal();
    assert(raw[0] == '"');
    assert(raw.contains('"'));
    assert forall|c: char| raw.contains(c) implies raw.contains(c) by {
    }
    assert(!raw.contains('\\')) by {
        if raw.contains('\\') {
            let i = choose|i: int| 0 <= i < raw.len() && raw[i] == '\\';
            assert(raw[i] == '"');
        }
    }
    lemma_scan_written(s, p + 2, t, raw, raw);
}

pub proof fn lemma_keys_written(s: Seq<char>, p: int, ks: Seq<KeyWriting>)
    requires
        0 <= p,
        forall|i: int| 0 <= i < ks.len() ==> key_writing_valid(#[trigger] ks[i]),
        p + written_keys(ks).len() < s.len(),
        s.subrange(p, p + written_keys(ks).len()) == written_keys(ks),
        s[p + written_keys(ks).len()] == '}',
    ensures
        keys_from(s, p) matches Ok((q, m)) && q == p + written_keys(ks).len() && key_values(m)
            == ks.map_values(|k: KeyWriting| key_writing_value(k)),
    decreases ks.len(),
{
    let vals = ks.map_values(|k: KeyWriting| key_writing_value(k));
    if ks.len() == 0 {
        assert(key_values(Seq::empty()) =~= vals);
    } else {
        let head = written_key(ks[0]);
        let rest = written_keys(ks.drop_first());
        assert(written_keys(ks) == head + rest);
        assert(s.subrange(p, p + head.len()) =~= head) by {
            assert(s.subrange(p, p + head.len()) =~= written_keys(ks).subrange(0, head.len() as int));
        }
        assert(s.subrange(p + head.len(), p + head.len() + rest.len()) =~= rest) by {
            assert(s.subrange(p + head.len(), p + head.len() + rest.len()) =~= written_keys(
                ks,
            ).subrange(head.len() as int, written_keys(ks).len() as int));
        }
        assert(key_writing_valid(ks[0]));
        match ks[0] {
            KeyWriting::Name(t) => {
                if ks.len() > 1 {
                    assert(rest[0] == written_key(ks.drop_first()[0])[0]);
                    assert(s[p + head.len()] == rest[0]);
                    lemma_reserved_token_members(rest[0]);
                }
                lemma_reserved_token_members('}');
                lemma_name_key_written(s, p, t);
            },
            KeyWriting::Quoted(t) => {
                lemma_quoted_key_written(s, p, t);
            },
            KeyWriting::Index(n) => {
                lemma_index_key_written(s, p, n);
            },
        }
        assert(key_at(s, p) == Ok::<(int, KeyValue), ParseFailure>((p + head.len(), vals[0])));
        lemma_key_advances(s, p);
        assert forall|i: int| 0 <= i < ks.drop_first().len() implies key_writing_valid(
            #[trigger] ks.drop_first()[i],
        ) by {
            assert(ks.drop_first()[i] == ks[i + 1]);
        }
        lemma_keys_written(s, p + head.len(), ks.drop_first());
        let (q, m) = keys_from(s, p + head.len())->Ok_0;
        let k = spanned_key(s, p)->Ok_0.1;
        assert(vals.drop_first() =~= ks.drop_first().map_values(|k: KeyWriting| key_writing_value(k)));
        lemma_key_values_cons(k, m, vals);
    }
}

/// Every accessor the grammar admits parses whole: a root key and further
/// keys, written with any mix of plain characters, backslash escapes and
/// `\u{...}` codes, as `.name`, `."quoted name"` or `[index]`, read from the
/// start of the text give the keys written, end at the text's end, and span
/// `[0, len)`.
#[verifier::rlimit(40)]
pub proof fn lemma_written_accessor_parses(root: Seq<(char, CharWriting)>, keys: Seq<KeyWriting>)
    requires
        writes_all(root, reserved_token()),
        forall|i: int| 0 <= i < keys.len() ==> key_writing_valid(#[trigger] keys[i]),
    ensures
        ({
            let s = written_accessor(root, keys);
            accessor_at(s, 0) matches Ok((q, m)) && q == s.len() && m.span == crate::mk_span(0, s.len() as int)
                && key_values(m.keys) == seq![KeyValue::Text(decoded(root))] + keys.map_values(
                |k: KeyWriting| key_writing_value(k),
            )
        }),
{
    let s = written_accessor(root, keys);
    let e = written(root);
    let rk = written_keys(keys);
    let r: int = 2 + e.len() as int;
    let c: int = r + rk.len();
    assert(s.subrange(2, r) =~= e);
    assert(s.subrange(r, c) =~= rk);
    assert(s[c] == '}');
    lemma_reserved_token_members(s[r]);
    assert(separators().contains(s[r])) by {
        if keys.len() > 0 {
            assert(rk[0] == written_key(keys[0])[0]);
            assert(s[r] == rk[0]);
        }
    }
    assert forall|x: char| separators().contains(x) implies reserved_token().contains(x) by {
        lemma_reserved_token_members(x);
    }
    lemma_reserved_token_members('\\');
    lemma_scan_written(s, 2, root, separators(), reserved_token());
    lemma_keys_written(s, r, keys);
    let whole = accessor_at(s, 0)->Ok_0.1;
    assert(key_values(whole.keys) =~= seq![KeyValue::Text(decoded(root))] + keys.map_values(
        |k: KeyWriting| key_writing_value(k),
    ));
}

} // verus!
