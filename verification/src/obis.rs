//! The OBIS value type: six bytes plus the textual style they were read in,
//! with parsing from either textual form and rendering back to both.

use vstd::prelude::*;
use vstd::string::StringExecFns;

verus! {

/// The two textual forms an OBIS code can take: twelve hex digits, or six
/// dot-separated decimal groups.
#[derive(Clone, Copy, Debug, PartialEq, Eq, Structural)]
pub enum ObisForm {
    Hex,
    Decimal,
}

/// Why a string failed to parse as an OBIS code. `kind` records which of the
/// two grammars was in force (chosen by whether the input contains a `.`).
#[derive(Clone, Copy, Debug, PartialEq, Eq, Structural)]
pub enum ObisError {
    /// The input did not break into the expected number of fields: twelve
    /// characters for the hex grammar, six tokens for the decimal one.
    InvalidLength { actual: usize, expected: usize, kind: ObisForm },
    /// A field was not a valid unsigned byte in the grammar's base.
    InvalidDigit { kind: ObisForm },
}

/// An OBIS code: six byte-sized groups, plus the style its `display` method
/// currently renders in. The groups never change after construction; only the
/// style can be switched.
#[derive(Clone, Copy, Debug)]
pub struct Obis {
    pub code: [u8; 6],
    pub style: ObisForm,
}

// ---------------------------------------------------------------------------
// Character classes and digit values
// ---------------------------------------------------------------------------
/// `0` through `9`.
pub open spec fn is_dec_digit(c: char) -> bool {
    '0' as u32 <= c as u32 && c as u32 <= '9' as u32
}

/// `0-9`, `a-f` or `A-F`: parsing accepts either case.
pub open spec fn is_hex_digit(c: char) -> bool {
    is_dec_digit(c) || ('A' as u32 <= c as u32 && c as u32 <= 'F' as u32) || ('a' as u32 <= c as u32
        && c as u32 <= 'f' as u32)
}

/// Numeric value of a decimal digit character.
pub open spec fn dec_digit_val(c: char) -> nat
    recommends
        is_dec_digit(c),
{
    (c as u32 - '0' as u32) as nat
}

/// Numeric value of a hex digit character, either case.
pub open spec fn hex_val(c: char) -> nat
    recommends
        is_hex_digit(c),
{
    if is_dec_digit(c) {
        (c as u32 - '0' as u32) as nat
    } else if 'A' as u32 <= c as u32 && c as u32 <= 'F' as u32 {
        (c as u32 - 'A' as u32 + 10) as nat
    } else {
        (c as u32 - 'a' as u32 + 10) as nat
    }
}

/// The whitespace stripped from the ends of an input before tokenizing.
pub open spec fn is_space(c: char) -> bool {
    c == ' ' || c == '\t' || c == '\n' || c == '\r' || c == '\u{c}'
}

/// The digit character for a value up to fifteen, uppercase: rendering is
/// canonical uppercase even though parsing accepts either case.
pub open spec fn digit_char(d: nat) -> char
    recommends
        d < 16,
{
    if d == 0 {
        '0'
    } else if d == 1 {
        '1'
    } else if d == 2 {
        '2'
    } else if d == 3 {
        '3'
    } else if d == 4 {
        '4'
    } else if d == 5 {
        '5'
    } else if d == 6 {
        '6'
    } else if d == 7 {
        '7'
    } else if d == 8 {
        '8'
    } else if d == 9 {
        '9'
    } else if d == 10 {
        'A'
    } else if d == 11 {
        'B'
    } else if d == 12 {
        'C'
    } else if d == 13 {
        'D'
    } else if d == 14 {
        'E'
    } else {
        'F'
    }
}

// ---------------------------------------------------------------------------
// The input grammars
// ---------------------------------------------------------------------------
/// Leading whitespace removed.
pub open spec fn trim_start(s: Seq<char>) -> Seq<char>
    decreases s.len(),
{
    if s.len() > 0 && is_space(s[0]) {
        trim_start(s.drop_first())
    } else {
        s
    }
}

/// Trailing whitespace removed.
pub open spec fn trim_end(s: Seq<char>) -> Seq<char>
    decreases s.len(),
{
    if s.len() > 0 && is_space(s.last()) {
        trim_end(s.drop_last())
    } else {
        s
    }
}

/// Leading and trailing whitespace removed.
pub open spec fn trim(s: Seq<char>) -> Seq<char> {
    trim_end(trim_start(s))
}

/// The separator aliases `:`, `-` and `*` replaced by `.`; every other
/// character kept. Any of the four separators may stand anywhere in a
/// decimal-form input.
pub open spec fn norm_sep(c: char) -> char {
    if c == ':' || c == '-' || c == '*' {
        '.'
    } else {
        c
    }
}

/// `norm_sep` applied to every character.
pub open spec fn normalize(s: Seq<char>) -> Seq<char> {
    Seq::new(s.len(), |i: int| norm_sep(s[i]))
}

/// Whether the raw input holds a `.`: the sole discriminator between the hex
/// grammar (no dot) and the decimal grammar (at least one dot).
pub open spec fn contains_dot(s: Seq<char>) -> bool {
    exists|i: int| 0 <= i < s.len() && s[i] == '.'
}

/// The input split on `.`, keeping empty tokens: splitting the empty string
/// gives one empty token, and every `.` ends the token before it.
pub open spec fn split_dots(s: Seq<char>) -> Seq<Seq<char>>
    decreases s.len(),
{
    if s.len() == 0 {
        seq![Seq::<char>::empty()]
    } else if s.last() == '.' {
        split_dots(s.drop_last()).push(Seq::<char>::empty())
    } else {
        let prev = split_dots(s.drop_last());
        prev.drop_last().push(prev.last().push(s.last()))
    }
}

/// The base-10 value of a digit string (most significant digit first).
pub open spec fn token_val(t: Seq<char>) -> nat
    decreases t.len(),
{
    if t.len() == 0 {
        0
    } else {
        token_val(t.drop_last()) * 10 + dec_digit_val(t.last())
    }
}

/// A token of the decimal grammar: nonempty, digits only, and its value fits
/// in a byte.
pub open spec fn is_dec_token(t: Seq<char>) -> bool {
    t.len() > 0 && (forall|i: int| 0 <= i < t.len() ==> is_dec_digit(t[i])) && token_val(t) <= 255
}

/// The six bytes encoded by twelve hex digits, in order.
pub open spec fn hex_groups(t: Seq<char>) -> Seq<u8>
    recommends
        t.len() == 12,
{
    Seq::new(6, |i: int| (hex_val(t[2 * i]) * 16 + hex_val(t[2 * i + 1])) as u8)
}

/// The hex grammar, applied to the trimmed input: exactly twelve characters,
/// each a hex digit, read as six consecutive two-digit bytes.
pub open spec fn parse_hex(t: Seq<char>) -> Result<(Seq<u8>, ObisForm), ObisError> {
    if t.len() != 12 {
        Err(ObisError::InvalidLength { actual: t.len() as usize, expected: 12, kind: ObisForm::Hex })
    } else if forall|i: int| 0 <= i < t.len() ==> is_hex_digit(t[i]) {
        Ok((hex_groups(t), ObisForm::Hex))
    } else {
        Err(ObisError::InvalidDigit { kind: ObisForm::Hex })
    }
}

/// The decimal grammar: separators normalized to `.`, the ends trimmed, the
/// result split on `.`; every token must be a byte-valued digit string, and
/// there must be exactly six of them. A bad token is reported before a bad
/// count, as `InvalidDigit`.
pub open spec fn parse_dec(s: Seq<char>) -> Result<(Seq<u8>, ObisForm), ObisError> {
    let toks = split_dots(trim(normalize(s)));
    if !(forall|i: int| 0 <= i < toks.len() ==> is_dec_token(toks[i])) {
        Err(ObisError::InvalidDigit { kind: ObisForm::Decimal })
    } else if toks.len() != 6 {
        Err(
            ObisError::InvalidLength {
                actual: toks.len() as usize,
                expected: 6,
                kind: ObisForm::Decimal,
            },
        )
    } else {
        Ok((Seq::new(6, |i: int| token_val(toks[i]) as u8), ObisForm::Decimal))
    }
}

/// What parsing an input string yields: the six groups and the style they
/// were written in, or the error. A `.` anywhere in the raw input selects the
/// decimal grammar; otherwise the trimmed input must be pure hex.
pub open spec fn parse_result(s: Seq<char>) -> Result<(Seq<u8>, ObisForm), ObisError> {
    if contains_dot(s) {
        parse_dec(s)
    } else {
        parse_hex(trim(s))
    }
}

// ---------------------------------------------------------------------------
// The output forms
// ---------------------------------------------------------------------------
/// A byte as exactly two uppercase hex digits.
pub open spec fn hex_pair(b: u8) -> Seq<char> {
    seq![digit_char(b as nat / 16), digit_char(b as nat % 16)]
}

/// A number in plain base 10: no leading zeros, no fixed width.
pub open spec fn dec_chars(n: nat) -> Seq<char>
    decreases n,
{
    if n < 10 {
        seq![digit_char(n)]
    } else {
        dec_chars(n / 10).push(digit_char(n % 10))
    }
}

/// The hex rendering: six two-digit uppercase bytes joined by `.`.
pub open spec fn hex_display(g: Seq<u8>) -> Seq<char>
    recommends
        g.len() == 6,
{
    hex_pair(g[0]) + seq!['.'] + hex_pair(g[1]) + seq!['.'] + hex_pair(g[2]) + seq!['.'] + hex_pair(
        g[3],
    ) + seq!['.'] + hex_pair(g[4]) + seq!['.'] + hex_pair(g[5])
}

/// The decimal rendering, in the canonical OBIS separator pattern
/// `A-B:C.D.E.F`.
pub open spec fn dec_display(g: Seq<u8>) -> Seq<char>
    recommends
        g.len() == 6,
{
    dec_chars(g[0] as nat) + seq!['-'] + dec_chars(g[1] as nat) + seq![':'] + dec_chars(
        g[2] as nat,
    ) + seq!['.'] + dec_chars(g[3] as nat) + seq!['.'] + dec_chars(g[4] as nat) + seq!['.']
        + dec_chars(g[5] as nat)
}

/// What `display` renders: the form chosen by the preferred style.
pub open spec fn obis_display(g: Seq<u8>, style: ObisForm) -> Seq<char>
    recommends
        g.len() == 6,
{
    if style is Hex {
        hex_display(g)
    } else {
        dec_display(g)
    }
}

/// The same groups, with the preferred style replaced.
pub open spec fn with_style(o: Obis, style: ObisForm) -> Obis {
    Obis { code: o.code, style: style }
}

impl Obis {
    /// Switch the preferred rendering to the decimal form. The groups are untouched.
    pub fn convert_to_dec(&mut self)
        ensures
            *final(self) == with_style(*old(self), ObisForm::Decimal),
    {
        self.style = ObisForm::Decimal;
    }

    /// Switch the preferred rendering to the hex form. The groups are untouched.
    pub fn convert_to_hex(&mut self)
        ensures
            *final(self) == with_style(*old(self), ObisForm::Hex),
    {
        self.style = ObisForm::Hex;
    }
}

/// Switching to a style a second time changes nothing: style conversion is
/// idempotent.
pub proof fn lemma_convert_idempotent(o: Obis, style: ObisForm)
    ensures
        with_style(with_style(o, style), style) == with_style(o, style),
{
}

/// Converting to hex, then to decimal, then to hex again leaves the groups
/// unchanged and the preferred style at hex.
pub proof fn lemma_convert_round(o: Obis)
    ensures
        with_style(with_style(with_style(o, ObisForm::Hex), ObisForm::Decimal), ObisForm::Hex).code
            == o.code,
        with_style(with_style(with_style(o, ObisForm::Hex), ObisForm::Decimal), ObisForm::Hex).style
            == ObisForm::Hex,
{
}

impl PartialEq for Obis {
    fn eq(&self, other: &Obis) -> (r: bool) {
        let r = self.code[0] == other.code[0] && self.code[1] == other.code[1]
            && self.code[2] == other.code[2] && self.code[3] == other.code[3]
            && self.code[4] == other.code[4] && self.code[5] == other.code[5]
            && self.style == other.style;
        proof {
            if r {
                assert(self.code@ =~= other.code@);
            }
            if self.code@ == other.code@ {
                assert(self.code[0] == other.code[0]);
            }
        }
        r
    }
}

impl vstd::std_specs::cmp::PartialEqSpecImpl for Obis {
    open spec fn obeys_eq_spec() -> bool {
        true
    }

    open spec fn eq_spec(&self, other: &Obis) -> bool {
        self.code@ == other.code@ && self.style == other.style
    }
}

// ---------------------------------------------------------------------------
// Executable helpers on characters
// ---------------------------------------------------------------------------
/// The characters of a string slice, in order.
pub(crate) fn chars_of(s: &str) -> (v: Vec<char>)
    ensures
        v@ == s@,
{
    let n = s.unicode_len();
    let mut v: Vec<char> = Vec::new();
    let mut i: usize = 0;
    while i < n
        invariant
            i <= n,
            n == s@.len(),
            v@ == s@.subrange(0, i as int),
        decreases n - i,
    {
        v.push(s.get_char(i));
        i = i + 1;
        proof {
            assert(v@ =~= s@.subrange(0, i as int));
        }
    }
    proof {
        assert(v@ =~= s@);
    }
    v
}

/// Whether any character is a `.`.
fn has_dot(v: &Vec<char>) -> (r: bool)
    ensures
        r == contains_dot(v@),
{
    let mut i: usize = 0;
    while i < v.len()
        invariant
            i <= v@.len(),
            forall|j: int| 0 <= j < i ==> v@[j] != '.',
        decreases v@.len() - i,
    {
        if v[i] == '.' {
            proof {
                assert(v@[i as int] == '.');
            }
            return true;
        }
        i = i + 1;
    }
    false
}

/// Executable test for `is_space`.
fn is_space_char(c: char) -> (r: bool)
    ensures
        r == is_space(c),
{
    c == ' ' || c == '\t' || c == '\n' || c == '\r' || c == '\u{c}'
}

/// If the first `k` characters are whitespace and the `k`-th is not (or the
/// string ends there), trimming the start drops exactly those `k`.
proof fn lemma_trim_start_at(s: Seq<char>, k: int)
    requires
        0 <= k <= s.len(),
        forall|i: int| 0 <= i < k ==> is_space(s[i]),
        k < s.len() ==> !is_space(s[k]),
    ensures
        trim_start(s) == s.subrange(k, s.len() as int),
    decreases k,
{
    if k == 0 {
        assert(s.subrange(0, s.len() as int) =~= s);
    } else {
        assert(is_space(s[0]));
        lemma_trim_start_at(s.drop_first(), k - 1);
        assert(s.drop_first().subrange(k - 1, s.drop_first().len() as int) =~= s.subrange(
            k,
            s.len() as int,
        ));
    }
}

/// If everything from position `k` on is whitespace and the character before
/// `k` is not (or `k` is zero), trimming the end keeps exactly the first `k`.
proof fn lemma_trim_end_at(s: Seq<char>, k: int)
    requires
        0 <= k <= s.len(),
        forall|i: int| k <= i < s.len() ==> is_space(s[i]),
        k > 0 ==> !is_space(s[k - 1]),
    ensures
        trim_end(s) == s.subrange(0, k),
    decreases s.len() - k,
{
    if k == s.len() {
        assert(s.subrange(0, k) =~= s);
    } else {
        assert(is_space(s.last()));
        lemma_trim_end_at(s.drop_last(), k);
        assert(s.drop_last().subrange(0, k) =~= s.subrange(0, k));
    }
}

/// The input with leading and trailing whitespace removed.
fn trim_chars(v: &Vec<char>) -> (r: Vec<char>)
    ensures
        r@ == trim(v@),
{
    let n = v.len();
    let mut start: usize = 0;
    while start < n && is_space_char(v[start])
        invariant
            start <= n,
            n == v@.len(),
            forall|i: int| 0 <= i < start ==> is_space(v@[i]),
        decreases n - start,
    {
        start = start + 1;
    }
    let mut end: usize = n;
    while end > start && is_space_char(v[end - 1])
        invariant
            start <= end <= n,
            n == v@.len(),
            forall|i: int| end <= i < n ==> is_space(v@[i]),
        decreases end,
    {
        end = end - 1;
    }
    proof {
        lemma_trim_start_at(v@, start as int);
        let mid = v@.subrange(start as int, n as int);
        lemma_trim_end_at(mid, end - start);
        assert(mid.subrange(0, end - start) =~= v@.subrange(start as int, end as int));
    }
    let mut r: Vec<char> = Vec::new();
    let mut i: usize = start;
    while i < end
        invariant
            start <= i <= end <= n,
            n == v@.len(),
            r@ == v@.subrange(start as int, i as int),
        decreases end - i,
    {
        r.push(v[i]);
        i = i + 1;
        proof {
            assert(r@ =~= v@.subrange(start as int, i as int));
        }
    }
    r
}

/// Every separator alias replaced by `.`.
fn normalize_chars(v: &Vec<char>) -> (r: Vec<char>)
    ensures
        r@ == normalize(v@),
{
    let mut r: Vec<char> = Vec::new();
    let mut i: usize = 0;
    while i < v.len()
        invariant
            i <= v@.len(),
            r@.len() == i,
            forall|j: int| 0 <= j < i ==> r@[j] == norm_sep(v@[j]),
        decreases v@.len() - i,
    {
        let c = v[i];
        if c == ':' || c == '-' || c == '*' {
            r.push('.');
        } else {
            r.push(c);
        }
        i = i + 1;
    }
    proof {
        assert(r@ =~= normalize(v@));
    }
    r
}

/// The value of one hex digit, or `None` for any other character.
fn hex_digit_value(c: char) -> (r: Option<u8>)
    ensures
        match r {
            Some(v) => is_hex_digit(c) && v as nat == hex_val(c) && v < 16,
            None => !is_hex_digit(c),
        },
{
    let u = c as u32;
    if u >= 48 && u <= 57 {
        Some((u - 48) as u8)
    } else if u >= 65 && u <= 70 {
        Some((u - 55) as u8)
    } else if u >= 97 && u <= 102 {
        Some((u - 87) as u8)
    } else {
        None
    }
}

/// Tokens completed inside a prefix of the input are tokens of the whole
/// input, and the prefix's unfinished last token is a prefix of the token of
/// the whole input at the same position.
proof fn lemma_split_prefix(s: Seq<char>, m: int)
    requires
        0 <= m <= s.len(),
    ensures
        ({
            let ps = split_dots(s.subrange(0, m));
            let fs = split_dots(s);
            &&& fs.len() >= ps.len()
            &&& forall|j: int| 0 <= j < ps.len() - 1 ==> fs[j] == ps[j]
            &&& ps.last().len() <= fs[ps.len() - 1].len()
            &&& fs[ps.len() - 1].subrange(0, ps.last().len() as int) == ps.last()
        }),
    decreases s.len() - m,
{
    let ps = split_dots(s.subrange(0, m));
    let fs = split_dots(s);
    if m == s.len() {
        assert(s.subrange(0, m) =~= s);
        assert(ps[ps.len() - 1].subrange(0, ps.last().len() as int) =~= ps.last());
    } else {
        let s0 = s.drop_last();
        assert(s0.subrange(0, m) =~= s.subrange(0, m));
        lemma_split_prefix(s0, m);
        let fs0 = split_dots(s0);
        let q = ps.len() - 1;
        if s.last() == '.' {
            assert(fs == fs0.push(Seq::<char>::empty()));
            assert(fs[q] == fs0[q]);
        } else {
            assert(fs == fs0.drop_last().push(fs0.last().push(s.last())));
            if q < fs0.len() - 1 {
                assert(fs[q] == fs0[q]);
            } else {
                assert(fs[q] == fs0.last().push(s.last()));
                assert(fs0.last().push(s.last()).subrange(0, ps.last().len() as int)
                    =~= fs0.last().subrange(0, ps.last().len() as int));
            }
        }
    }
}

/// The decimal grammar applied to an already normalized and trimmed
/// character sequence: split on `.`, demand six byte-valued digit tokens.
fn parse_dec_trimmed(t: &Vec<char>) -> (r: Result<Vec<u8>, ObisError>)
    ensures
        ({
            let toks = split_dots(t@);
            if !(forall|i: int| 0 <= i < toks.len() ==> is_dec_token(toks[i])) {
                r == Err::<Vec<u8>, ObisError>(ObisError::InvalidDigit { kind: ObisForm::Decimal })
            } else if toks.len() != 6 {
                r == Err::<Vec<u8>, ObisError>(
                    ObisError::InvalidLength {
                        actual: toks.len() as usize,
                        expected: 6,
                        kind: ObisForm::Decimal,
                    },
                )
            } else {
                r matches Ok(vals) && vals@.len() == 6 && vals@ == Seq::new(
                    6,
                    |i: int| token_val(toks[i]) as u8,
                )
            }
        }),
{
    let n = t.len();
    let mut vals: Vec<u8> = Vec::new();
    let mut cur_val: u32 = 0;
    let mut cur_over: bool = false;
    let mut cur_digits: bool = true;
    let mut cur_empty: bool = true;
    let mut i: usize = 0;
    while i < n
        invariant
            i <= n,
            n == t@.len(),
            ({
                let toks = split_dots(t@.subrange(0, i as int));
                &&& toks.len() == vals@.len() + 1
                &&& forall|j: int|
                    0 <= j < vals@.len() ==> is_dec_token(#[trigger] toks[j]) && vals@[j] as nat
                        == token_val(toks[j])
                &&& cur_digits == (forall|k: int|
                    0 <= k < toks.last().len() ==> is_dec_digit(#[trigger] toks.last()[k]))
                &&& cur_empty == (toks.last().len() == 0)
                &&& (cur_over ==> token_val(toks.last()) > 255)
                &&& ((cur_digits && !cur_over) ==> (cur_val as nat == token_val(toks.last())
                    && cur_val <= 255))
            }),
        decreases n - i,
    {
        let ghost pre = t@.subrange(0, i as int);
        let ghost toks_pre = split_dots(pre);
        proof {
            assert(t@.subrange(0, i + 1).drop_last() =~= pre);
        }
        let c = t[i];
        if c == '.' {
            if cur_empty || !cur_digits || cur_over {
                proof {
                    assert(!is_dec_token(toks_pre.last()));
                    lemma_split_prefix(t@, i + 1);
                    let ps = split_dots(t@.subrange(0, i + 1));
                    let fs = split_dots(t@);
                    assert(ps == toks_pre.push(Seq::<char>::empty()));
                    assert(fs[vals@.len() as int] == toks_pre.last());
                    assert(!is_dec_token(fs[vals@.len() as int]));
                }
                return Err(ObisError::InvalidDigit { kind: ObisForm::Decimal });
            }
            vals.push(cur_val as u8);
            cur_val = 0;
            cur_over = false;
            cur_digits = true;
            cur_empty = true;
            proof {
                let toks = split_dots(t@.subrange(0, i + 1));
                assert(toks == toks_pre.push(Seq::<char>::empty()));
                assert(forall|j: int|
                    0 <= j < vals@.len() ==> is_dec_token(#[trigger] toks[j]) && vals@[j] as nat
                        == token_val(toks[j]));
            }
        } else {
            let ghost old_last = toks_pre.last();
            proof {
                let toks = split_dots(t@.subrange(0, i + 1));
                assert(toks == toks_pre.drop_last().push(old_last.push(t@[i as int])));
                assert(toks.last() == old_last.push(t@[i as int]));
                assert(toks.last().drop_last() =~= old_last);
                assert(forall|j: int|
                    0 <= j < vals@.len() ==> is_dec_token(#[trigger] toks[j]) && vals@[j] as nat
                        == token_val(toks[j]));
            }
            let u = c as u32;
            if u >= 48 && u <= 57 {
                if cur_digits && !cur_over {
                    let nv = cur_val * 10 + (u - 48);
                    if nv > 255 {
                        cur_over = true;
                    } else {
                        cur_val = nv;
                    }
                }
            } else {
                cur_digits = false;
            }
            cur_empty = false;
            proof {
                let toks = split_dots(t@.subrange(0, i + 1));
                assert(token_val(toks.last()) == token_val(old_last) * 10 + dec_digit_val(
                    t@[i as int],
                ));
                if cur_digits {
                    assert(forall|k: int|
                        0 <= k < toks.last().len() ==> is_dec_digit(#[trigger] toks.last()[k]));
                }
                if !(forall|k: int|
                    0 <= k < toks.last().len() ==> is_dec_digit(#[trigger] toks.last()[k])) {
                    assert(!cur_digits);
                }
            }
        }
        i = i + 1;
    }
    proof {
        assert(t@.subrange(0, n as int) =~= t@);
    }
    let ghost toks = split_dots(t@);
    if cur_empty || !cur_digits || cur_over {
        proof {
            assert(!is_dec_token(toks.last()));
            assert(!is_dec_token(toks[toks.len() - 1]));
        }
        return Err(ObisError::InvalidDigit { kind: ObisForm::Decimal });
    }
    vals.push(cur_val as u8);
    proof {
        assert(is_dec_token(toks[toks.len() - 1]));
        assert(forall|j: int| 0 <= j < toks.len() ==> is_dec_token(#[trigger] toks[j]));
    }
    if vals.len() != 6 {
        return Err(
            ObisError::InvalidLength { actual: vals.len(), expected: 6, kind: ObisForm::Decimal },
        );
    }
    proof {
        assert(vals@ =~= Seq::new(6, |i: int| token_val(toks[i]) as u8));
    }
    Ok(vals)
}

/// The hex grammar applied to an already trimmed character sequence: twelve
/// hex digits, read two at a time.
pub(crate) fn parse_hex_trimmed(t: &Vec<char>) -> (r: Result<Obis, ObisError>)
    ensures
        match r {
            Ok(o) => parse_hex(t@) matches Ok(p) && o.code@ == p.0 && o.style == p.1,
            Err(e) => parse_hex(t@) matches Err(pe) && e == pe,
        },
{
    if t.len() != 12 {
        return Err(
            ObisError::InvalidLength { actual: t.len(), expected: 12, kind: ObisForm::Hex },
        );
    }
    let mut g: Vec<u8> = Vec::new();
    let mut j: usize = 0;
    while j < 6
        invariant
            j <= 6,
            t@.len() == 12,
            g@.len() == j,
            forall|k: int|
                0 <= k < j ==> is_hex_digit(#[trigger] t@[2 * k]) && is_hex_digit(t@[2 * k + 1])
                    && g@[k] as nat == hex_val(t@[2 * k]) * 16 + hex_val(t@[2 * k + 1]),
        decreases 6 - j,
    {
        let c1 = t[2 * j];
        let c2 = t[2 * j + 1];
        let v1 = match hex_digit_value(c1) {
            Some(v) => v,
            None => {
                proof {
                    assert(!is_hex_digit(t@[2 * j as int]));
                }
                return Err(ObisError::InvalidDigit { kind: ObisForm::Hex });
            },
        };
        let v2 = match hex_digit_value(c2) {
            Some(v) => v,
            None => {
                proof {
                    assert(!is_hex_digit(t@[2 * j as int + 1]));
                }
                return Err(ObisError::InvalidDigit { kind: ObisForm::Hex });
            },
        };
        g.push(v1 * 16 + v2);
        j = j + 1;
    }
    proof {
        assert forall|i: int| 0 <= i < 12 implies is_hex_digit(t@[i]) by {
            let k = i / 2;
            if i % 2 == 0 {
                assert(is_hex_digit(t@[2 * k]));
            } else {
                assert(is_hex_digit(t@[2 * k + 1]));
            }
        }
        assert(g@ =~= hex_groups(t@));
    }
    let code: [u8; 6] = [g[0], g[1], g[2], g[3], g[4], g[5]];
    proof {
        assert(code@ =~= g@);
    }
    Ok(Obis { code, style: ObisForm::Hex })
}

impl Obis {
    /// Parse either textual form. A `.` anywhere in the input selects the
    /// decimal grammar (with `:`, `-` and `*` accepted as further
    /// separators); otherwise the trimmed input must be twelve hex digits.
    /// The style of the parsed code records which grammar applied.
    pub fn from_str(s: &str) -> (r: Result<Obis, ObisError>)
        ensures
            match r {
                Ok(o) => parse_result(s@) matches Ok(p) && o.code@ == p.0 && o.style == p.1,
                Err(e) => parse_result(s@) matches Err(pe) && e == pe,
            },
    {
        let v = chars_of(s);
        if has_dot(&v) {
            let norm = normalize_chars(&v);
            let t = trim_chars(&norm);
            match parse_dec_trimmed(&t) {
                Ok(vals) => {
                    let code: [u8; 6] = [vals[0], vals[1], vals[2], vals[3], vals[4], vals[5]];
                    proof {
                        let toks = split_dots(t@);
                        assert(code@ =~= Seq::new(6, |i: int| token_val(toks[i]) as u8));
                    }
                    Ok(Obis { code, style: ObisForm::Decimal })
                },
                Err(e) => Err(e),
            }
        } else {
            let t = trim_chars(&v);
            parse_hex_trimmed(&t)
        }
    }
}

/// One digit value appended as its uppercase character.
fn push_digit(out: &mut String, d: u8)
    requires
        d < 16,
    ensures
        final(out)@ == old(out)@ + seq![digit_char(d as nat)],
{
    if d == 0 {
        out.append("0");
        proof {
            reveal_strlit("0");
            assert("0"@ =~= seq![digit_char(0)]);
        }
    } else if d == 1 {
        out.append("1");
        proof {
            reveal_strlit("1");
            assert("1"@ =~= seq![digit_char(1)]);
        }
    } else if d == 2 {
        out.append("2");
        proof {
            reveal_strlit("2");
            assert("2"@ =~= seq![digit_char(2)]);
        }
    } else if d == 3 {
        out.append("3");
        proof {
            reveal_strlit("3");
            assert("3"@ =~= seq![digit_char(3)]);
        }
    } else if d == 4 {
        out.append("4");
        proof {
            reveal_strlit("4");
            assert("4"@ =~= seq![digit_char(4)]);
        }
    } else if d == 5 {
        out.append("5");
        proof {
            reveal_strlit("5");
            assert("5"@ =~= seq![digit_char(5)]);
        }
    } else if d == 6 {
        out.append("6");
        proof {
            reveal_strlit("6");
            assert("6"@ =~= seq![digit_char(6)]);
        }
    } else if d == 7 {
        out.append("7");
        proof {
            reveal_strlit("7");
            assert("7"@ =~= seq![digit_char(7)]);
        }
    } else if d == 8 {
        out.append("8");
        proof {
            reveal_strlit("8");
            assert("8"@ =~= seq![digit_char(8)]);
        }
    } else if d == 9 {
        out.append("9");
        proof {
            reveal_strlit("9");
            assert("9"@ =~= seq![digit_char(9)]);
        }
    } else if d == 10 {
        out.append("A");
        proof {
            reveal_strlit("A");
            assert("A"@ =~= seq![digit_char(10)]);
        }
    } else if d == 11 {
        out.append("B");
        proof {
            reveal_strlit("B");
            assert("B"@ =~= seq![digit_char(11)]);
        }
    } else if d == 12 {
        out.append("C");
        proof {
            reveal_strlit("C");
            assert("C"@ =~= seq![digit_char(12)]);
        }
    } else if d == 13 {
        out.append("D");
        proof {
            reveal_strlit("D");
            assert("D"@ =~= seq![digit_char(13)]);
        }
    } else if d == 14 {
        out.append("E");
        proof {
            reveal_strlit("E");
            assert("E"@ =~= seq![digit_char(14)]);
        }
    } else {
        out.append("F");
        proof {
            reveal_strlit("F");
            assert("F"@ =~= seq![digit_char(15)]);
        }
    }
}

/// A byte appended as exactly two uppercase hex digits.
fn push_hex_byte(out: &mut String, b: u8)
    ensures
        final(out)@ == old(out)@ + hex_pair(b),
{
    push_digit(out, b / 16);
    push_digit(out, b % 16);
    proof {
        assert(final(out)@ =~= old(out)@ + hex_pair(b));
    }
}

/// A byte appended in plain base 10: no leading zeros, no fixed width.
fn push_dec_byte(out: &mut String, b: u8)
    ensures
        final(out)@ == old(out)@ + dec_chars(b as nat),
{
    if b >= 100 {
        push_digit(out, b / 100);
        push_digit(out, (b / 10) % 10);
        push_digit(out, b % 10);
        proof {
            let n = b as nat;
            assert(n / 10 / 10 == n / 100) by (nonlinear_arith);
            assert(n / 100 < 10 && n / 10 >= 10);
            assert(dec_chars(n / 100) == seq![digit_char(n / 100)]);
            assert(dec_chars(n / 10) == dec_chars(n / 10 / 10).push(digit_char(n / 10 % 10)));
            assert(dec_chars(n) == dec_chars(n / 10).push(digit_char(n % 10)));
            assert(final(out)@ =~= old(out)@ + dec_chars(n));
        }
    } else if b >= 10 {
        push_digit(out, b / 10);
        push_digit(out, b % 10);
        proof {
            let n = b as nat;
            assert(dec_chars(n / 10) == seq![digit_char(n / 10)]);
            assert(dec_chars(n) == dec_chars(n / 10).push(digit_char(n % 10)));
            assert(final(out)@ =~= old(out)@ + dec_chars(n));
        }
    } else {
        push_digit(out, b);
    }
}

impl Obis {
    /// Render in the preferred style: six two-digit uppercase hex bytes
    /// joined by `.`, or the canonical decimal pattern `A-B:C.D.E.F` with
    /// plain base-10 groups.
    pub fn display(&self) -> (r: String)
        ensures
            r@ == obis_display(self.code@, self.style),
    {
        let mut out = String::new();
        match self.style {
            ObisForm::Hex => {
                push_hex_byte(&mut out, self.code[0]);
                out.append(".");
                push_hex_byte(&mut out, self.code[1]);
                out.append(".");
                push_hex_byte(&mut out, self.code[2]);
                out.append(".");
                push_hex_byte(&mut out, self.code[3]);
                out.append(".");
                push_hex_byte(&mut out, self.code[4]);
                out.append(".");
                push_hex_byte(&mut out, self.code[5]);
                proof {
                    reveal_strlit(".");
                    assert("."@ =~= seq!['.']);
                    assert(out@ =~= hex_display(self.code@));
                }
            },
            ObisForm::Decimal => {
                push_dec_byte(&mut out, self.code[0]);
                out.append("-");
                push_dec_byte(&mut out, self.code[1]);
                out.append(":");
                push_dec_byte(&mut out, self.code[2]);
                out.append(".");
                push_dec_byte(&mut out, self.code[3]);
                out.append(".");
                push_dec_byte(&mut out, self.code[4]);
                out.append(".");
                push_dec_byte(&mut out, self.code[5]);
                proof {
                    reveal_strlit(".");
                    reveal_strlit("-");
                    reveal_strlit(":");
                    assert("."@ =~= seq!['.']);
                    assert("-"@ =~= seq!['-']);
                    assert(":"@ =~= seq![':']);
                    assert(out@ =~= dec_display(self.code@));
                }
            },
        }
        out
    }
}

// ---------------------------------------------------------------------------
// Round-trip laws
// ---------------------------------------------------------------------------
/// An uppercase hex digit: `0-9` or `A-F`.
pub open spec fn is_upper_hex_digit(c: char) -> bool {
    is_dec_digit(c) || ('A' as u32 <= c as u32 && c as u32 <= 'F' as u32)
}

/// Rendering the value of an uppercase digit gives that digit back.
proof fn lemma_digit_char_val(c: char)
    requires
        is_upper_hex_digit(c),
    ensures
        digit_char(hex_val(c)) == c,
{
    let v = hex_val(c);
    if is_dec_digit(c) {
        assert(digit_char(v) as u32 == 48 + v);
    } else {
        assert(digit_char(v) as u32 == 55 + v);
    }
    assert(digit_char(v) == c);
}

/// Hex round trip. A twelve-character input of uppercase hex digits parses,
/// carries the hex style, and re-renders as those same twelve digits with
/// the canonical `.` inserted after every second one. (The rendering is
/// never character-identical to the input: the hex grammar reads the twelve
/// digits bare, while the renderer always dots them.)
pub proof fn lemma_hex_round_trip(s: Seq<char>)
    requires
        s.len() == 12,
        forall|i: int| 0 <= i < 12 ==> is_upper_hex_digit(#[trigger] s[i]),
    ensures
        parse_result(s) matches Ok(p) && p.1 == ObisForm::Hex && obis_display(p.0, p.1)
            == s.subrange(0, 2) + seq!['.'] + s.subrange(2, 4) + seq!['.'] + s.subrange(4, 6)
            + seq!['.'] + s.subrange(6, 8) + seq!['.'] + s.subrange(8, 10) + seq!['.'] + s.subrange(
            10,
            12,
        ),
{
    assert forall|i: int| 0 <= i < 12 implies s[i] != '.' && is_hex_digit(s[i]) by {
        assert(is_upper_hex_digit(s[i]));
    }
    assert(!contains_dot(s));
    assert(!is_space(s[0]));
    assert(trim_start(s) == s);
    assert(!is_space(s.last()));
    assert(trim_end(s) == s);
    let g = hex_groups(s);
    assert(parse_hex(s) == Ok::<(Seq<u8>, ObisForm), ObisError>((g, ObisForm::Hex)));
    assert forall|k: int| 0 <= k < 6 implies hex_pair(g[k]) =~= s.subrange(2 * k, 2 * k + 2) by {
        let c1 = s[2 * k];
        let c2 = s[2 * k + 1];
        lemma_digit_char_val(c1);
        lemma_digit_char_val(c2);
        let hv1 = hex_val(c1);
        let hv2 = hex_val(c2);
        assert(hv1 < 16 && hv2 < 16);
        assert((hv1 * 16 + hv2) / 16 == hv1 && (hv1 * 16 + hv2) % 16 == hv2) by (nonlinear_arith)
            requires
                hv1 < 16,
                hv2 < 16,
        ;
        assert(g[k] as nat == hv1 * 16 + hv2);
    }
    assert(hex_display(g) =~= s.subrange(0, 2) + seq!['.'] + s.subrange(2, 4) + seq!['.']
        + s.subrange(4, 6) + seq!['.'] + s.subrange(6, 8) + seq!['.'] + s.subrange(8, 10)
        + seq!['.'] + s.subrange(10, 12));
}

/// A base-10 rendering is never empty and holds only digits.
proof fn lemma_dec_chars_digits(n: nat)
    ensures
        dec_chars(n).len() >= 1,
        forall|k: int| 0 <= k < dec_chars(n).len() ==> is_dec_digit(#[trigger] dec_chars(n)[k]),
    decreases n,
{
    if n < 10 {
        assert(digit_char(n) as u32 == 48 + n);
    } else {
        lemma_dec_chars_digits(n / 10);
        assert(digit_char(n % 10) as u32 == 48 + n % 10);
        assert(dec_chars(n) == dec_chars(n / 10).push(digit_char(n % 10)));
    }
}

/// Reading a base-10 rendering back gives the number it renders.
proof fn lemma_token_val_dec_chars(n: nat)
    ensures
        token_val(dec_chars(n)) == n,
    decreases n,
{
    if n < 10 {
        assert(dec_chars(n) == seq![digit_char(n)]);
        assert(dec_chars(n).drop_last() =~= Seq::<char>::empty());
        assert(token_val(Seq::<char>::empty()) == 0);
        assert(digit_char(n) as u32 == 48 + n);
        assert(dec_digit_val(digit_char(n)) == n);
        assert(token_val(dec_chars(n)) == token_val(dec_chars(n).drop_last()) * 10 + dec_digit_val(
            dec_chars(n).last(),
        ));
    } else {
        lemma_token_val_dec_chars(n / 10);
        assert(dec_chars(n) == dec_chars(n / 10).push(digit_char(n % 10)));
        assert(dec_chars(n).drop_last() =~= dec_chars(n / 10));
        assert(digit_char(n % 10) as u32 == 48 + n % 10);
        assert(token_val(dec_chars(n)) == n / 10 * 10 + n % 10);
    }
}

/// Appending a `.` closes the last token of the split.
proof fn lemma_split_append_dot(a: Seq<char>)
    ensures
        split_dots(a + seq!['.']) == split_dots(a).push(Seq::<char>::empty()),
{
    assert((a + seq!['.']).last() == '.');
    assert((a + seq!['.']).drop_last() =~= a);
}

/// Appending dot-free text extends the last token of the split.
proof fn lemma_split_append_free(a: Seq<char>, b: Seq<char>)
    requires
        forall|k: int| 0 <= k < b.len() ==> b[k] != '.',
    ensures
        split_dots(a + b) == split_dots(a).drop_last().push(split_dots(a).last() + b),
    decreases b.len(),
{
    let sa = split_dots(a);
    if b.len() == 0 {
        assert(a + b =~= a);
        assert(sa.last() + b =~= sa.last());
        assert(sa.drop_last().push(sa.last()) =~= sa);
    } else {
        lemma_split_append_free(a, b.drop_last());
        let ab0 = a + b.drop_last();
        assert((a + b).drop_last() =~= ab0);
        assert(b[b.len() - 1] != '.');
        assert((a + b).last() == b.last());
        assert(split_dots(a + b) == split_dots(ab0).drop_last().push(
            split_dots(ab0).last().push(b.last()),
        ));
        assert(split_dots(ab0).drop_last() =~= sa.drop_last());
        assert((sa.last() + b.drop_last()).push(b.last()) =~= sa.last() + b);
        assert(split_dots(a + b) =~= sa.drop_last().push(sa.last() + b));
    }
}

/// Normalizing separators distributes over concatenation.
proof fn lemma_normalize_concat(a: Seq<char>, b: Seq<char>)
    ensures
        normalize(a + b) == normalize(a) + normalize(b),
{
    assert(normalize(a + b) =~= normalize(a) + normalize(b));
}

/// A digit is left alone by separator normalization.
proof fn lemma_normalize_digits(d: Seq<char>)
    requires
        forall|k: int| 0 <= k < d.len() ==> is_dec_digit(#[trigger] d[k]),
    ensures
        normalize(d) == d,
{
    assert forall|k: int| 0 <= k < d.len() implies norm_sep(d[k]) == d[k] by {
        assert(is_dec_digit(d[k]));
    }
    assert(normalize(d) =~= d);
}

/// Decimal round trip: rendering any six groups in the decimal style and
/// parsing that rendering gives the same six groups back, again in the
/// decimal style — although the `-` and `:` the renderer writes are read
/// back only as aliases of `.`, so the text itself is not what a dotted
/// input would have looked like.
pub proof fn lemma_dec_round_trip(g: Seq<u8>)
    requires
        g.len() == 6,
    ensures
        parse_result(dec_display(g)) matches Ok(p) && p.0 == g && p.1 == ObisForm::Decimal,
{
    let d0 = dec_chars(g[0] as nat);
    let d1 = dec_chars(g[1] as nat);
    let d2 = dec_chars(g[2] as nat);
    let d3 = dec_chars(g[3] as nat);
    let d4 = dec_chars(g[4] as nat);
    let d5 = dec_chars(g[5] as nat);
    lemma_dec_chars_digits(g[0] as nat);
    lemma_dec_chars_digits(g[1] as nat);
    lemma_dec_chars_digits(g[2] as nat);
    lemma_dec_chars_digits(g[3] as nat);
    lemma_dec_chars_digits(g[4] as nat);
    lemma_dec_chars_digits(g[5] as nat);
    lemma_token_val_dec_chars(g[0] as nat);
    lemma_token_val_dec_chars(g[1] as nat);
    lemma_token_val_dec_chars(g[2] as nat);
    lemma_token_val_dec_chars(g[3] as nat);
    lemma_token_val_dec_chars(g[4] as nat);
    lemma_token_val_dec_chars(g[5] as nat);
    let s = dec_display(g);
    let pre = d0 + seq!['-'] + d1 + seq![':'] + d2;
    assert(s[pre.len() as int] == '.');
    assert(contains_dot(s));
    // Normalization turns the rendering into the plainly dotted text.
    let t = d0 + seq!['.'] + d1 + seq!['.'] + d2 + seq!['.'] + d3 + seq!['.'] + d4 + seq!['.']
        + d5;
    lemma_normalize_concat(d0 + seq!['-'] + d1 + seq![':'] + d2 + seq!['.'] + d3 + seq!['.'] + d4
        + seq!['.'], d5);
    lemma_normalize_concat(d0 + seq!['-'] + d1 + seq![':'] + d2 + seq!['.'] + d3 + seq!['.'] + d4,
        seq!['.']);
    lemma_normalize_concat(d0 + seq!['-'] + d1 + seq![':'] + d2 + seq!['.'] + d3 + seq!['.'], d4);
    lemma_normalize_concat(d0 + seq!['-'] + d1 + seq![':'] + d2 + seq!['.'] + d3, seq!['.']);
    lemma_normalize_concat(d0 + seq!['-'] + d1 + seq![':'] + d2 + seq!['.'], d3);
    lemma_normalize_concat(d0 + seq!['-'] + d1 + seq![':'] + d2, seq!['.']);
    lemma_normalize_concat(d0 + seq!['-'] + d1 + seq![':'], d2);
    lemma_normalize_concat(d0 + seq!['-'] + d1, seq![':']);
    lemma_normalize_concat(d0 + seq!['-'], d1);
    lemma_normalize_concat(d0, seq!['-']);
    lemma_normalize_digits(d0);
    lemma_normalize_digits(d1);
    lemma_normalize_digits(d2);
    lemma_normalize_digits(d3);
    lemma_normalize_digits(d4);
    lemma_normalize_digits(d5);
    assert(normalize(seq!['-']) =~= seq!['.']);
    assert(normalize(seq![':']) =~= seq!['.']);
    assert(normalize(seq!['.']) =~= seq!['.']);
    assert(normalize(s) == t);
    // The dotted text has a digit at either end, so trimming changes nothing.
    assert(t[0] == d0[0]);
    assert(!is_space(t[0]));
    assert(trim_start(t) == t);
    assert(t.last() == d5.last());
    assert(!is_space(t.last()));
    assert(trim_end(t) == t);
    // Splitting recovers exactly the six digit tokens.
    lemma_split_append_free(Seq::<char>::empty(), d0);
    assert(Seq::<char>::empty() + d0 =~= d0);
    assert(Seq::<char>::empty() + d0 == d0);
    assert(split_dots(d0) =~= seq![d0]);
    lemma_split_append_dot(d0);
    assert(split_dots(d0 + seq!['.']) =~= seq![d0, Seq::<char>::empty()]);
    lemma_split_append_free(d0 + seq!['.'], d1);
    assert(Seq::<char>::empty() + d1 == d1);
    assert(split_dots(d0 + seq!['.'] + d1) =~= seq![d0, d1]);
    lemma_split_append_dot(d0 + seq!['.'] + d1);
    lemma_split_append_free(d0 + seq!['.'] + d1 + seq!['.'], d2);
    assert(Seq::<char>::empty() + d2 == d2);
    assert(split_dots(d0 + seq!['.'] + d1 + seq!['.'] + d2) =~= seq![d0, d1, d2]);
    lemma_split_append_dot(d0 + seq!['.'] + d1 + seq!['.'] + d2);
    lemma_split_append_free(d0 + seq!['.'] + d1 + seq!['.'] + d2 + seq!['.'], d3);
    assert(Seq::<char>::empty() + d3 == d3);
    assert(split_dots(d0 + seq!['.'] + d1 + seq!['.'] + d2 + seq!['.'] + d3) =~= seq![d0, d1, d2, d3]);
    lemma_split_append_dot(d0 + seq!['.'] + d1 + seq!['.'] + d2 + seq!['.'] + d3);
    lemma_split_append_free(d0 + seq!['.'] + d1 + seq!['.'] + d2 + seq!['.'] + d3 + seq!['.'], d4);
    assert(Seq::<char>::empty() + d4 == d4);
    assert(split_dots(d0 + seq!['.'] + d1 + seq!['.'] + d2 + seq!['.'] + d3 + seq!['.'] + d4)
        =~= seq![d0, d1, d2, d3, d4]);
    lemma_split_append_dot(d0 + seq!['.'] + d1 + seq!['.'] + d2 + seq!['.'] + d3 + seq!['.'] + d4);
    lemma_split_append_free(d0 + seq!['.'] + d1 + seq!['.'] + d2 + seq!['.'] + d3 + seq!['.'] + d4
        + seq!['.'], d5);
    assert(Seq::<char>::empty() + d5 == d5);
    assert(split_dots(t) =~= seq![d0, d1, d2, d3, d4, d5]);
    // Every token is a valid byte-valued digit string, and there are six.
    let toks = split_dots(trim(normalize(s)));
    assert(toks == seq![d0, d1, d2, d3, d4, d5]);
    assert forall|i: int| 0 <= i < toks.len() implies is_dec_token(toks[i]) by {
        assert(toks[i] == dec_chars(g[i] as nat));
    }
    let vals = Seq::new(6, |i: int| token_val(toks[i]) as u8);
    assert forall|i: int| 0 <= i < 6 implies vals[i] == g[i] by {
        assert(toks[i] == dec_chars(g[i] as nat));
    }
    assert(vals =~= g);
}

} // verus!
