//! Character-level helpers: whitespace trimming, splitting, decimal numbers.
use vstd::prelude::*;
use vstd::string::*;

verus! {

/// `char::is_whitespace`: the Unicode White_Space characters.
pub open spec fn is_ws(c: char) -> bool {
    ('\t' <= c && c <= '\r') || c == ' ' || c == '\u{85}' || c == '\u{A0}' || c == '\u{1680}' || (
    '\u{2000}' <= c && c <= '\u{200A}') || c == '\u{2028}' || c == '\u{2029}' || c == '\u{202F}'
        || c == '\u{205F}' || c == '\u{3000}'
}

pub fn is_ws_exec(c: char) -> (r: bool)
    ensures
        r == is_ws(c),
{
    ('\t' <= c && c <= '\r') || c == ' ' || c == '\u{85}' || c == '\u{A0}' || c == '\u{1680}' || (
    '\u{2000}' <= c && c <= '\u{200A}') || c == '\u{2028}' || c == '\u{2029}' || c == '\u{202F}'
        || c == '\u{205F}' || c == '\u{3000}'
}

/// `s` without its leading and trailing whitespace.
pub open spec fn trim_spec(s: Seq<char>) -> Seq<char>
    decreases s.len(),
{
    if s.len() > 0 && is_ws(s[0]) {
        trim_spec(s.drop_first())
    } else if s.len() > 0 && is_ws(s.last()) {
        trim_spec(s.drop_last())
    } else {
        s
    }
}

/// The pieces of `s` between occurrences of `sep`, as `str::split` yields them.
pub open spec fn split_spec(s: Seq<char>, sep: char) -> Seq<Seq<char>>
    decreases s.len(),
{
    if s.len() == 0 {
        seq![Seq::empty()]
    } else {
        let pre = split_spec(s.drop_last(), sep);
        if s.last() == sep {
            pre.push(Seq::empty())
        } else {
            pre.update(pre.len() - 1, pre.last().push(s.last()))
        }
    }
}

pub proof fn lemma_split_nonempty(s: Seq<char>, sep: char)
    ensures
        split_spec(s, sep).len() >= 1,
    decreases s.len(),
{
    if s.len() > 0 {
        lemma_split_nonempty(s.drop_last(), sep);
    }
}

/// Splitting a text without `sep` gives the text itself.
pub proof fn lemma_split_none(a: Seq<char>, sep: char)
    requires
        forall|i: int| 0 <= i < a.len() ==> a[i] != sep,
    ensures
        split_spec(a, sep) == seq![a],
    decreases a.len(),
{
    if a.len() > 0 {
        lemma_split_none(a.drop_last(), sep);
        assert(a.drop_last().push(a.last()) =~= a);
        assert(split_spec(a, sep) =~= seq![a]);
    } else {
        assert(a =~= Seq::<char>::empty());
    }
}

/// Splitting `a`, `sep`, `b`, where `b` holds no `sep`, splits `a` and adds `b`.
pub proof fn lemma_split_append(a: Seq<char>, b: Seq<char>, sep: char)
    requires
        forall|i: int| 0 <= i < b.len() ==> b[i] != sep,
    ensures
        split_spec(a + seq![sep] + b, sep) == split_spec(a, sep).push(b),
    decreases b.len(),
{
    let s = a + seq![sep] + b;
    if b.len() == 0 {
        assert(s.drop_last() =~= a);
        assert(b =~= Seq::<char>::empty());
    } else {
        assert(s.drop_last() =~= a + seq![sep] + b.drop_last());
        lemma_split_append(a, b.drop_last(), sep);
        assert(b.drop_last().push(b.last()) =~= b);
        assert(split_spec(s, sep) =~= split_spec(a, sep).push(b));
    }
}

/// A text that neither starts nor ends with whitespace is its own trim.
pub proof fn lemma_trim_none(s: Seq<char>)
    requires
        s.len() > 0,
        !is_ws(s[0]),
        !is_ws(s.last()),
    ensures
        trim_spec(s) == s,
{
}

/// Reading back the decimal digits of `v` gives `v`.
pub proof fn lemma_decimal_round_trip(v: u8)
    ensures
        dec_u8(dec_str(v)) == Some(v),
        forall|i: int| 0 <= i < dec_str(v).len() ==> is_digit(#[trigger] dec_str(v)[i]),
        dec_str(v).len() > 0,
{
    let s = dec_str(v);
    if v >= 100 {
        let s1 = seq![s[0]];
        let s2 = seq![s[0], s[1]];
        assert(s2.drop_last() =~= s1);
        assert(s.drop_last() =~= s2);
        assert(s[0] as nat == '0' as nat + v / 100);
        assert(s[1] as nat == '0' as nat + v / 10 % 10);
        assert(s[2] as nat == '0' as nat + v % 10);
        assert(dec_parse(s1) == Ok::<u8, IntErrorKind>(v / 100));
        assert(v == 100 * (v / 100) + 10 * (v / 10 % 10) + v % 10) by (nonlinear_arith);
        assert(dec_parse(s2) == Ok::<u8, IntErrorKind>((10 * (v / 100) + v / 10 % 10) as u8));
        assert(dec_parse(s) == Ok::<u8, IntErrorKind>(v));
    } else if v >= 10 {
        let s1 = seq![s[0]];
        assert(s.drop_last() =~= s1);
        assert(s[0] as nat == '0' as nat + v / 10);
        assert(s[1] as nat == '0' as nat + v % 10);
        assert(dec_parse(s1) == Ok::<u8, IntErrorKind>(v / 10));
        assert(v == 10 * (v / 10) + v % 10) by (nonlinear_arith);
        assert(dec_parse(s) == Ok::<u8, IntErrorKind>(v));
    } else {
        assert(s[0] as nat == '0' as nat + v);
        assert(dec_parse(s) == Ok::<u8, IntErrorKind>(v));
    }
}

/// Relies on `Iterator::collect` over `str::chars`: the characters of `s`, in order.
#[verifier::external_body]
pub(crate) fn chars_of(s: &str) -> (r: Vec<char>)
    ensures
        r@ == s@,
{
    s.chars().collect()
}

/// Relies on `Iterator::collect` into a `String`: the characters of `v`, in order.
#[verifier::external_body]
pub(crate) fn string_of(v: &Vec<char>) -> (r: String)
    ensures
        r@ == v@,
{
    v.iter().collect()
}

/// `s` without its leading and trailing whitespace.
pub fn trim(s: &Vec<char>) -> (r: Vec<char>)
    ensures
        r@ == trim_spec(s@),
{
    let mut lo: usize = 0;
    assert(s@.subrange(0, s@.len() as int) =~= s@);
    while lo < s.len() && is_ws_exec(s[lo])
        invariant
            lo <= s@.len(),
            trim_spec(s@) == trim_spec(s@.subrange(lo as int, s@.len() as int)),
        decreases s@.len() - lo,
    {
        assert(s@.subrange(lo as int, s@.len() as int).drop_first() =~= s@.subrange(
            lo + 1,
            s@.len() as int,
        ));
        lo = lo + 1;
    }
    let mut hi: usize = s.len();
    while hi > lo && is_ws_exec(s[hi - 1])
        invariant
            lo <= hi <= s@.len(),
            lo < hi ==> !is_ws(s@[lo as int]),
            trim_spec(s@) == trim_spec(s@.subrange(lo as int, hi as int)),
        decreases hi - lo,
    {
        let ghost sub = s@.subrange(lo as int, hi as int);
        assert(sub.drop_last() =~= s@.subrange(lo as int, hi - 1));
        assert(sub[0] == s@[lo as int]);
        hi = hi - 1;
    }
    let mut r: Vec<char> = Vec::new();
    let mut i: usize = lo;
    while i < hi
        invariant
            lo <= i <= hi,
            hi <= s@.len(),
            r@ =~= s@.subrange(lo as int, i as int),
        decreases hi - i,
    {
        r.push(s[i]);
        i = i + 1;
    }
    assert(r@ =~= s@.subrange(lo as int, hi as int));
    r
}

/// Splits `s` at every `sep`.
pub fn split(s: &Vec<char>, sep: char) -> (r: Vec<Vec<char>>)
    ensures
        r@.len() == split_spec(s@, sep).len(),
        forall|i: int| 0 <= i < r@.len() ==> #[trigger] r@[i]@ == split_spec(s@, sep)[i],
{
    let mut parts: Vec<Vec<char>> = Vec::new();
    let mut cur: Vec<char> = Vec::new();
    let mut i: usize = 0;
    while i < s.len()
        invariant
            i <= s@.len(),
            parts@.len() + 1 == split_spec(s@.take(i as int), sep).len(),
            forall|j: int| 0 <= j < parts@.len() ==> #[trigger] parts@[j]@ == split_spec(s@.take(i as int), sep)[j],
            cur@ == split_spec(s@.take(i as int), sep).last(),
        decreases s@.len() - i,
    {
        proof {
            assert(s@.take(i + 1).drop_last() =~= s@.take(i as int));
            lemma_split_nonempty(s@.take(i as int), sep);
        }
        if s[i] == sep {
            parts.push(cur);
            cur = Vec::new();
        } else {
            cur.push(s[i]);
        }
        i = i + 1;
    }
    assert(s@.take(i as int) =~= s@);
    parts.push(cur);
    parts
}

pub open spec fn is_digit(c: char) -> bool {
    '0' <= c && c <= '9'
}

/// Why a text is not a number in 0..=255, as `u8::from_str` tells it.
#[derive(Clone, Copy, Debug, PartialEq, Eq, Structural)]
pub enum IntErrorKind {
    Empty,
    InvalidDigit,
    PosOverflow,
}

/// The text that `ParseIntError` shows for each reason.
pub open spec fn int_error_text(e: IntErrorKind) -> Seq<char> {
    match e {
        IntErrorKind::Empty => "cannot parse integer from empty string"@,
        IntErrorKind::InvalidDigit => "invalid digit found in string"@,
        IntErrorKind::PosOverflow => "number too large to fit in target type"@,
    }
}

pub fn int_error_message(e: IntErrorKind) -> (r: String)
    ensures
        r@ == int_error_text(e),
{
    match e {
        IntErrorKind::Empty => String::from_str("cannot parse integer from empty string"),
        IntErrorKind::InvalidDigit => String::from_str("invalid digit found in string"),
        IntErrorKind::PosOverflow => String::from_str("number too large to fit in target type"),
    }
}

/// Reading decimal digits left to right: each character must be a digit, and the value
/// so far must stay within 255.
pub open spec fn dec_parse(s: Seq<char>) -> Result<u8, IntErrorKind>
    decreases s.len(),
{
    if s.len() == 0 {
        Err(IntErrorKind::Empty)
    } else {
        let pre: Result<u8, IntErrorKind> = if s.len() == 1 {
            Ok(0u8)
        } else {
            dec_parse(s.drop_last())
        };
        match pre {
            Err(e) => Err(e),
            Ok(v) => {
                if !is_digit(s.last()) {
                    Err(IntErrorKind::InvalidDigit)
                } else if 10 * v + (s.last() as nat - '0' as nat) > 255 {
                    Err(IntErrorKind::PosOverflow)
                } else {
                    Ok((10 * v + (s.last() as nat - '0' as nat)) as u8)
                }
            },
        }
    }
}

/// A decimal number in 0..=255, if `s` is one.
pub open spec fn dec_u8(s: Seq<char>) -> Option<u8> {
    match dec_parse(s) {
        Ok(v) => Some(v),
        Err(_) => None,
    }
}

proof fn lemma_parse_error_extends(s: Seq<char>, j: int)
    requires
        1 <= j <= s.len(),
        dec_parse(s.take(j)) is Err,
    ensures
        dec_parse(s) == dec_parse(s.take(j)),
    decreases s.len() - j,
{
    if j < s.len() {
        assert(s.take(j + 1).drop_last() =~= s.take(j));
        lemma_parse_error_extends(s, j + 1);
    } else {
        assert(s.take(j) =~= s);
    }
}

/// Reads a decimal number in 0..=255.
pub fn parse_u8(s: &Vec<char>) -> (r: Result<u8, IntErrorKind>)
    ensures
        r == dec_parse(s@),
{
    if s.len() == 0 {
        return Err(IntErrorKind::Empty);
    }
    let mut v: u8 = 0;
    let mut i: usize = 0;
    while i < s.len()
        invariant
            i <= s@.len(),
            s@.len() > 0,
            i == 0 ==> v == 0,
            i > 0 ==> dec_parse(s@.take(i as int)) == Ok::<u8, IntErrorKind>(v),
        decreases s@.len() - i,
    {
        proof {
            assert(s@.take(i + 1).drop_last() =~= s@.take(i as int));
            assert(s@.take(i + 1).last() == s@[i as int]);
        }
        let c = s[i];
        if !('0' <= c && c <= '9') {
            proof {
                lemma_parse_error_extends(s@, i + 1);
            }
            return Err(IntErrorKind::InvalidDigit);
        }
        let t: u32 = 10 * (v as u32) + (c as u32 - '0' as u32);
        if t > 255 {
            proof {
                lemma_parse_error_extends(s@, i + 1);
            }
            return Err(IntErrorKind::PosOverflow);
        }
        v = t as u8;
        i = i + 1;
    }
    assert(s@.take(i as int) =~= s@);
    Ok(v)
}

/// The decimal digits of `v`, without leading zeros.
pub open spec fn dec_str(v: u8) -> Seq<char> {
    if v >= 100 {
        seq![
            ('0' as u8 + v / 100) as char,
            ('0' as u8 + v / 10 % 10) as char,
            ('0' as u8 + v % 10) as char,
        ]
    } else if v >= 10 {
        seq![('0' as u8 + v / 10) as char, ('0' as u8 + v % 10) as char]
    } else {
        seq![('0' as u8 + v) as char]
    }
}

/// Appends the decimal digits of `v`.
pub fn push_decimal(out: &mut Vec<char>, v: u8)
    ensures
        final(out)@ == old(out)@ + dec_str(v),
{
    if v >= 100 {
        out.push(('0' as u8 + v / 100) as char);
        out.push(('0' as u8 + v / 10 % 10) as char);
        out.push(('0' as u8 + v % 10) as char);
    } else if v >= 10 {
        out.push(('0' as u8 + v / 10) as char);
        out.push(('0' as u8 + v % 10) as char);
    } else {
        out.push(('0' as u8 + v) as char);
    }
    assert(final(out)@ =~= old(out)@ + dec_str(v));
}

} // verus!
