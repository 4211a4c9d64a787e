//! The configuration-file grammar and the threshold it carries.
//!
//! The file is a key-value text: one `key = value` pair per line. A line is
//! trimmed; an empty line, a comment line (starting `#` or `;`) and a
//! section line (starting `[`) are skipped; an inline comment is cut off; a
//! remaining line must contain exactly one `=`, else the whole file is
//! invalid. The key is compared with spaces removed and ASCII case ignored;
//! of several `memory_threshold` entries the last one wins. The value must
//! be a decimal `u64`, optionally preceded by `+`; anything else is a bad
//! value. Loading and rendering are both verified, and rendering followed
//! by loading gives back the value that was written.

use crate::ascii::byte_is_digit;
use crate::ascii::byte_is_space;
use crate::ascii::byte_to_lower;
use crate::ascii::is_digit;
use crate::ascii::is_space;
use crate::ascii::to_lower;
use vstd::prelude::*;

verus! {

/// The threshold used, and persisted, when no configuration file exists
/// yet: 1000 MiB.
pub const DEFAULT_MEMORY_THRESHOLD: u64 = 1000 * 1024 * 1024;

/// Why a configuration text yields no threshold.
#[derive(Clone, Copy, Debug, PartialEq, Eq, Structural)]
pub enum ConfigError {
    /// Some line, after comments are cut, is not a single `key = value`
    /// pair.
    Invalid,
    /// No line carries the `memory_threshold` key.
    Missing,
    /// The entry that wins is not a decimal `u64`.
    BadValue,
}

/// The recognized key, `memory_threshold`, as lower-case bytes.
pub open spec fn threshold_key() -> Seq<u8> {
    seq![
        109u8,
        101u8,
        109u8,
        111u8,
        114u8,
        121u8,
        95u8,
        116u8,
        104u8,
        114u8,
        101u8,
        115u8,
        104u8,
        111u8,
        108u8,
        100u8,
    ]
}

/// `s` with leading whitespace dropped.
pub open spec fn trim_start(s: Seq<u8>) -> Seq<u8>
    decreases s.len(),
{
    if s.len() > 0 && is_space(s[0]) {
        trim_start(s.drop_first())
    } else {
        s
    }
}

/// `s` with trailing whitespace dropped.
pub open spec fn trim_end(s: Seq<u8>) -> Seq<u8>
    decreases s.len(),
{
    if s.len() > 0 && is_space(s.last()) {
        trim_end(s.drop_last())
    } else {
        s
    }
}

/// `s` with whitespace dropped at both ends.
pub open spec fn trim(s: Seq<u8>) -> Seq<u8> {
    trim_end(trim_start(s))
}

/// A byte that starts a comment: `#` or `;`.
pub open spec fn is_comment_byte(b: u8) -> bool {
    b == 35 || b == 59
}

/// The prefix of `s` before its first comment byte; all of `s` if it has
/// none.
pub open spec fn before_comment(s: Seq<u8>) -> Seq<u8>
    decreases s.len(),
{
    if s.len() == 0 {
        s
    } else if is_comment_byte(s[0]) {
        Seq::empty()
    } else {
        seq![s[0]] + before_comment(s.drop_first())
    }
}

/// How many `=` bytes `s` holds.
pub open spec fn count_eq(s: Seq<u8>) -> nat
    decreases s.len(),
{
    if s.len() == 0 {
        0
    } else {
        count_eq(s.drop_last()) + if s.last() == 61 {
            1nat
        } else {
            0nat
        }
    }
}

/// The prefix of `s` before its first `=`; all of `s` if it has none.
pub open spec fn before_eq(s: Seq<u8>) -> Seq<u8>
    decreases s.len(),
{
    if s.len() == 0 {
        s
    } else if s[0] == 61 {
        Seq::empty()
    } else {
        seq![s[0]] + before_eq(s.drop_first())
    }
}

/// What follows the first `=` of `s`; empty if it has none.
pub open spec fn after_eq(s: Seq<u8>) -> Seq<u8>
    decreases s.len(),
{
    if s.len() == 0 {
        s
    } else if s[0] == 61 {
        s.drop_first()
    } else {
        after_eq(s.drop_first())
    }
}

/// `s` with every space byte removed.
pub open spec fn strip_spaces(s: Seq<u8>) -> Seq<u8>
    decreases s.len(),
{
    if s.len() == 0 {
        s
    } else if s.last() == 32 {
        strip_spaces(s.drop_last())
    } else {
        strip_spaces(s.drop_last()).push(s.last())
    }
}

/// `s` lower-cased byte by byte.
pub open spec fn lower(s: Seq<u8>) -> Seq<u8> {
    s.map_values(|b: u8| to_lower(b))
}

/// What one line of the file contributes.
pub enum LineForm {
    /// Blank, comment or section line: contributes nothing.
    Skip,
    /// Not a single `key = value` pair: the file is invalid.
    Bad,
    /// A pair: the normalized key and the trimmed value.
    Entry(Seq<u8>, Seq<u8>),
}

/// Classifies one line: trim it; skip it when empty or when it starts a
/// comment or a section; cut an inline comment; then demand exactly one
/// `=`, and yield the key (spaces removed, lower-cased) and the trimmed
/// value.
pub open spec fn line_form(line: Seq<u8>) -> LineForm {
    let t = trim(line);
    if t.len() == 0 {
        LineForm::Skip
    } else if is_comment_byte(t[0]) || t[0] == 91 {
        LineForm::Skip
    } else {
        let c = before_comment(t);
        if count_eq(c) != 1 {
            LineForm::Bad
        } else {
            LineForm::Entry(lower(strip_spaces(before_eq(c))), trim(after_eq(c)))
        }
    }
}

/// The position of the line break that ends the line beginning at `i`, or
/// the end of the text.
pub open spec fn line_end(s: Seq<u8>, i: int) -> int
    decreases s.len() - i,
    when 0 <= i <= s.len()
{
    if i >= s.len() {
        s.len() as int
    } else if s[i] == 10 {
        i
    } else {
        line_end(s, i + 1)
    }
}

/// `line_end` stays within the text, the byte it names (if any) is the
/// line break, and no earlier byte of the line is one.
pub proof fn lemma_line_end_bounds(s: Seq<u8>, i: int)
    requires
        0 <= i <= s.len(),
    ensures
        i <= line_end(s, i) <= s.len(),
        line_end(s, i) == s.len() || s[line_end(s, i)] == 10,
        forall|j: int| i <= j < line_end(s, i) ==> s[j] != 10,
    decreases s.len() - i,
{
    if i < s.len() && s[i] != 10 {
        lemma_line_end_bounds(s, i + 1);
    }
}

/// The entries of the lines of `s` from position `i` on, in order; `None`
/// when some line is bad.
pub open spec fn entries_from(s: Seq<u8>, i: int) -> Option<Seq<(Seq<u8>, Seq<u8>)>>
    decreases s.len() - i,
    when 0 <= i <= s.len()
    via entries_from_dec
{
    if i >= s.len() {
        Some(Seq::empty())
    } else {
        let e = line_end(s, i);
        let rest = if e >= s.len() {
            Some(Seq::<(Seq<u8>, Seq<u8>)>::empty())
        } else {
            entries_from(s, e + 1)
        };
        match line_form(s.subrange(i, e)) {
            LineForm::Skip => rest,
            LineForm::Bad => None,
            LineForm::Entry(k, v) => match rest {
                None => None,
                Some(es) => Some(seq![(k, v)] + es),
            },
        }
    }
}

#[via_fn]
proof fn entries_from_dec(s: Seq<u8>, i: int) {
    if 0 <= i < s.len() {
        lemma_line_end_bounds(s, i);
    }
}

/// All entries of the text, or `None` when some line is bad.
pub open spec fn spec_entries(s: Seq<u8>) -> Option<Seq<(Seq<u8>, Seq<u8>)>> {
    entries_from(s, 0)
}

/// The value of the last entry whose key is `memory_threshold`.
pub open spec fn lookup_threshold(entries: Seq<(Seq<u8>, Seq<u8>)>) -> Option<Seq<u8>>
    decreases entries.len(),
{
    if entries.len() == 0 {
        None
    } else if entries.last().0 == threshold_key() {
        Some(entries.last().1)
    } else {
        lookup_threshold(entries.drop_last())
    }
}

/// The number the digit string `s` denotes in decimal.
pub open spec fn digits_val(s: Seq<u8>) -> int
    decreases s.len(),
{
    if s.len() == 0 {
        0
    } else {
        digits_val(s.drop_last()) * 10 + (s.last() - 48)
    }
}

/// Every byte of `s` is a decimal digit.
pub open spec fn all_digits(s: Seq<u8>) -> bool {
    forall|i: int| 0 <= i < s.len() ==> is_digit(s[i])
}

/// The `u64` the byte string denotes: an optional `+`, then at least one
/// digit, and a value that fits; otherwise `None`.
pub open spec fn parse_u64(s: Seq<u8>) -> Option<u64> {
    let d = if s.len() > 0 && s[0] == 43 {
        s.drop_first()
    } else {
        s
    };
    if d.len() > 0 && all_digits(d) && 0 <= digits_val(d) <= u64::MAX {
        Some(digits_val(d) as u64)
    } else {
        None
    }
}

/// What loading a configuration text yields: the threshold of the winning
/// entry, or the error the text deserves.
pub open spec fn spec_load(content: Seq<u8>) -> Result<u64, ConfigError> {
    match spec_entries(content) {
        None => Err(ConfigError::Invalid),
        Some(es) => match lookup_threshold(es) {
            None => Err(ConfigError::Missing),
            Some(v) => match parse_u64(v) {
                None => Err(ConfigError::BadValue),
                Some(n) => Ok(n),
            },
        },
    }
}

/// The decimal digits of `n`, most significant first.
pub open spec fn dec_digits(n: nat) -> Seq<u8>
    decreases n,
    via dec_digits_dec
{
    if n < 10 {
        seq![(48 + n) as u8]
    } else {
        dec_digits(n / 10).push((48 + n % 10) as u8)
    }
}

#[via_fn]
proof fn dec_digits_dec(n: nat) {
    assert(n >= 10 ==> n / 10 < n) by (nonlinear_arith);
}

/// The configuration text that persists a threshold:
/// `memory_threshold = <decimal>`.
pub open spec fn spec_render(v: u64) -> Seq<u8> {
    threshold_key() + seq![32u8, 61u8, 32u8] + dec_digits(v as nat)
}

/// No digit string denotes a negative number, once every byte is a digit.
proof fn lemma_digits_val_nonneg(s: Seq<u8>)
    requires
        all_digits(s),
    ensures
        0 <= digits_val(s),
    decreases s.len(),
{
    if s.len() > 0 {
        assert(all_digits(s.drop_last()));
        lemma_digits_val_nonneg(s.drop_last());
    }
}

/// A digit string denotes at least what any of its prefixes denotes.
proof fn lemma_digits_val_monotone(s: Seq<u8>, k: int)
    requires
        0 <= k <= s.len(),
        all_digits(s),
    ensures
        0 <= digits_val(s.subrange(0, k)) <= digits_val(s),
    decreases s.len() - k,
{
    if k == s.len() {
        assert(s.subrange(0, k) =~= s);
        lemma_digits_val_nonneg(s);
    } else {
        lemma_digits_val_monotone(s, k + 1);
        assert(s.subrange(0, k + 1).drop_last() =~= s.subrange(0, k));
        assert(all_digits(s.subrange(0, k)));
        lemma_digits_val_nonneg(s.subrange(0, k));
    }
}

/// `before_comment` is the prefix up to the first comment byte.
proof fn lemma_before_comment(s: Seq<u8>, j: int)
    requires
        0 <= j <= s.len(),
        forall|k: int| 0 <= k < j ==> !is_comment_byte(s[k]),
        j == s.len() || is_comment_byte(s[j]),
    ensures
        before_comment(s) == s.subrange(0, j),
    decreases j,
{
    if j == 0 {
        assert(s.subrange(0, 0) =~= Seq::<u8>::empty());
        if s.len() > 0 {
            assert(is_comment_byte(s[0]));
        }
    } else {
        assert(!is_comment_byte(s[0]));
        lemma_before_comment(s.drop_first(), j - 1);
        assert(seq![s[0]] + s.drop_first().subrange(0, j - 1) =~= s.subrange(0, j));
    }
}

/// A text without `=` bytes counts none.
proof fn lemma_count_eq_zero(s: Seq<u8>)
    requires
        forall|q: int| 0 <= q < s.len() ==> s[q] != 61,
    ensures
        count_eq(s) == 0,
    decreases s.len(),
{
    if s.len() > 0 {
        lemma_count_eq_zero(s.drop_last());
    }
}

/// Splitting at the first `=` yields the prefix before it and the suffix
/// after it.
proof fn lemma_eq_split(s: Seq<u8>, p: int)
    requires
        0 <= p < s.len(),
        s[p] == 61,
        forall|q: int| 0 <= q < p ==> s[q] != 61,
    ensures
        before_eq(s) == s.subrange(0, p),
        after_eq(s) == s.subrange(p + 1, s.len() as int),
    decreases p,
{
    if p == 0 {
        assert(before_eq(s) =~= s.subrange(0, 0));
        assert(s.drop_first() =~= s.subrange(1, s.len() as int));
    } else {
        assert(s[0] != 61);
        lemma_eq_split(s.drop_first(), p - 1);
        assert(seq![s[0]] + s.drop_first().subrange(0, p - 1) =~= s.subrange(0, p));
        assert(s.drop_first().subrange(p - 1 + 1, s.drop_first().len() as int) =~= s.subrange(
            p + 1,
            s.len() as int,
        ));
    }
}

/// The bytes of a range of `s`, as their own vector.
fn copy_range(s: &[u8], a: usize, b: usize) -> (r: Vec<u8>)
    requires
        a <= b <= s@.len(),
    ensures
        r@ == s@.subrange(a as int, b as int),
{
    let mut out: Vec<u8> = Vec::new();
    let mut j: usize = a;
    while j < b
        invariant
            a <= j <= b <= s@.len(),
            out@ =~= s@.subrange(a as int, j as int),
        decreases b - j,
    {
        out.push(s[j]);
        proof {
            assert(s@.subrange(a as int, j as int).push(s@[j as int]) =~= s@.subrange(
                a as int,
                j + 1,
            ));
        }
        j = j + 1;
    }
    out
}

/// The bounds of the trimmed middle of `s[a0..b0]`.
fn trim_range(s: &[u8], a0: usize, b0: usize) -> (r: (usize, usize))
    requires
        a0 <= b0 <= s@.len(),
    ensures
        a0 <= r.0 <= r.1 <= b0,
        trim(s@.subrange(a0 as int, b0 as int)) == s@.subrange(r.0 as int, r.1 as int),
{
    let mut a: usize = a0;
    while a < b0 && byte_is_space(s[a])
        invariant
            a0 <= a <= b0 <= s@.len(),
            trim_start(s@.subrange(a0 as int, b0 as int)) == trim_start(
                s@.subrange(a as int, b0 as int),
            ),
        decreases b0 - a,
    {
        proof {
            assert(s@.subrange(a as int, b0 as int).drop_first() =~= s@.subrange(
                a + 1,
                b0 as int,
            ));
        }
        a = a + 1;
    }
    proof {
        assert(trim_start(s@.subrange(a as int, b0 as int)) == s@.subrange(a as int, b0 as int));
    }
    let mut b: usize = b0;
    while b > a && byte_is_space(s[b - 1])
        invariant
            a0 <= a <= b <= b0 <= s@.len(),
            trim_start(s@.subrange(a0 as int, b0 as int)) == s@.subrange(a as int, b0 as int),
            trim_end(s@.subrange(a as int, b0 as int)) == trim_end(
                s@.subrange(a as int, b as int),
            ),
        decreases b,
    {
        proof {
            assert(s@.subrange(a as int, b as int).drop_last() =~= s@.subrange(a as int, b - 1));
        }
        b = b - 1;
    }
    proof {
        assert(trim_end(s@.subrange(a as int, b as int)) == s@.subrange(a as int, b as int));
    }
    (a, b)
}

/// The byte of the recognized key at a given position.
fn threshold_key_byte(i: usize) -> (r: u8)
    requires
        i < 16,
    ensures
        r == threshold_key()[i as int],
{
    if i == 0 {
        109
    } else if i == 1 {
        101
    } else if i == 2 {
        109
    } else if i == 3 {
        111
    } else if i == 4 {
        114
    } else if i == 5 {
        121
    } else if i == 6 {
        95
    } else if i == 7 {
        116
    } else if i == 8 {
        104
    } else if i == 9 {
        114
    } else if i == 10 {
        101
    } else if i == 11 {
        115
    } else if i == 12 {
        104
    } else if i == 13 {
        111
    } else if i == 14 {
        108
    } else {
        100
    }
}

/// Whether a normalized key is the recognized `memory_threshold` key.
fn is_threshold_key(key: &[u8]) -> (r: bool)
    ensures
        r == (key@ == threshold_key()),
{
    if key.len() != 16 {
        return false;
    }
    let mut j: usize = 0;
    while j < 16
        invariant
            0 <= j <= 16,
            key@.len() == 16,
            forall|q: int| 0 <= q < j ==> key@[q] == threshold_key()[q],
        decreases 16 - j,
    {
        if key[j] != threshold_key_byte(j) {
            return false;
        }
        j = j + 1;
    }
    proof {
        assert(key@ =~= threshold_key());
    }
    true
}

/// What an executable pass over one line produced.
pub enum LineParse {
    /// The line contributes nothing.
    Skip,
    /// The line is not a single `key = value` pair.
    Bad,
    /// The line's normalized key and trimmed value.
    Entry { key: Vec<u8>, value: Vec<u8> },
}

/// The [`LineForm`] an executable pass stands for.
pub open spec fn form_of(p: LineParse) -> LineForm {
    match p {
        LineParse::Skip => LineForm::Skip,
        LineParse::Bad => LineForm::Bad,
        LineParse::Entry { key, value } => LineForm::Entry(key@, value@),
    }
}

/// Classifies one line exactly as [`line_form`] describes.
fn parse_line(line: &[u8]) -> (r: LineParse)
    ensures
        form_of(r) == line_form(line@),
{
    proof {
        assert(line@.subrange(0, line@.len() as int) =~= line@);
    }
    let (a, b) = trim_range(line, 0, line.len());
    let ghost t = line@.subrange(a as int, b as int);
    if a == b {
        return LineParse::Skip;
    }
    let h = line[a];
    if h == 35 || h == 59 || h == 91 {
        return LineParse::Skip;
    }
    let mut c: usize = a;
    while c < b && !(line[c] == 35 || line[c] == 59)
        invariant
            a <= c <= b <= line@.len(),
            forall|q: int| a <= q < c ==> !is_comment_byte(line@[q]),
        decreases b - c,
    {
        c = c + 1;
    }
    let ghost cm = line@.subrange(a as int, c as int);
    proof {
        assert(forall|k: int| 0 <= k < c - a ==> !is_comment_byte(t[k]));
        lemma_before_comment(t, c - a);
        assert(t.subrange(0, c - a) =~= cm);
    }
    let mut cnt: usize = 0;
    let mut p: usize = a;
    let mut found: bool = false;
    let mut j: usize = a;
    while j < c
        invariant
            a <= j <= c <= line@.len(),
            a <= p,
            cnt <= j - a,
            cnt as int == count_eq(line@.subrange(a as int, j as int)),
            found ==> a <= p < j && line@[p as int] == 61 && (forall|q: int|
                a <= q < p ==> line@[q] != 61),
            !found ==> (forall|q: int| a <= q < j ==> line@[q] != 61),
        decreases c - j,
    {
        proof {
            assert(line@.subrange(a as int, j + 1).drop_last() =~= line@.subrange(
                a as int,
                j as int,
            ));
        }
        if line[j] == 61 {
            cnt = cnt + 1;
            if !found {
                p = j;
                found = true;
            }
        }
        j = j + 1;
    }
    if cnt != 1 {
        proof {
            assert(count_eq(cm) != 1);
        }
        return LineParse::Bad;
    }
    proof {
        if !found {
            assert(forall|k: int| 0 <= k < cm.len() ==> cm[k] != 61);
            lemma_count_eq_zero(cm);
        }
        assert(found);
        assert(cm[p - a] == 61);
        assert(forall|k: int| 0 <= k < p - a ==> cm[k] != 61);
        lemma_eq_split(cm, p - a);
        assert(cm.subrange(0, p - a) =~= line@.subrange(a as int, p as int));
        assert(cm.subrange(p - a + 1, cm.len() as int) =~= line@.subrange(p + 1, c as int));
    }
    let mut key: Vec<u8> = Vec::new();
    let mut j2: usize = a;
    while j2 < p
        invariant
            a <= j2 <= p <= line@.len(),
            key@ == lower(strip_spaces(line@.subrange(a as int, j2 as int))),
        decreases p - j2,
    {
        let bb = line[j2];
        proof {
            assert(line@.subrange(a as int, j2 + 1).drop_last() =~= line@.subrange(
                a as int,
                j2 as int,
            ));
            if bb != 32 {
                assert(lower(strip_spaces(line@.subrange(a as int, j2 as int)).push(bb)) =~= lower(
                    strip_spaces(line@.subrange(a as int, j2 as int)),
                ).push(to_lower(bb)));
            }
        }
        if bb != 32 {
            key.push(byte_to_lower(bb));
        }
        j2 = j2 + 1;
    }
    let (va, vb) = trim_range(line, p + 1, c);
    let value = copy_range(line, va, vb);
    LineParse::Entry { key, value }
}

/// The position of the line break that ends the line beginning at `i`, or
/// the end of the text; exactly [`line_end`].
fn find_line_end(s: &[u8], i: usize) -> (e: usize)
    requires
        i <= s@.len(),
    ensures
        e == line_end(s@, i as int),
        i <= e <= s@.len(),
{
    let mut e: usize = i;
    while e < s.len() && s[e] != 10
        invariant
            i <= e <= s@.len(),
            line_end(s@, i as int) == line_end(s@, e as int),
        decreases s@.len() - e,
    {
        e = e + 1;
    }
    e
}

/// Loads the threshold from a configuration text, exactly as [`spec_load`]
/// describes: the value of the last `memory_threshold` entry, or the error
/// the text deserves.
pub fn load_threshold(content: &[u8]) -> (r: Result<u64, ConfigError>)
    ensures
        r == spec_load(content@),
{
    let ghost s = content@;
    let mut i: usize = 0;
    let mut best: Option<Vec<u8>> = None;
    let ghost mut done: Seq<(Seq<u8>, Seq<u8>)> = Seq::empty();
    while i < content.len()
        invariant
            s == content@,
            i <= s.len(),
            entries_from(s, 0) == (match entries_from(s, i as int) {
                None => None::<Seq<(Seq<u8>, Seq<u8>)>>,
                Some(rest) => Some(done + rest),
            }),
            (match best {
                None => lookup_threshold(done) is None,
                Some(v) => lookup_threshold(done) == Some(v@),
            }),
        decreases s.len() - i,
    {
        let e = find_line_end(content, i);
        proof {
            lemma_line_end_bounds(s, i as int);
        }
        let line = copy_range(content, i, e);
        let parsed = parse_line(line.as_slice());
        let ghost rest = if e >= s.len() {
            Some(Seq::<(Seq<u8>, Seq<u8>)>::empty())
        } else {
            entries_from(s, e + 1)
        };
        proof {
            assert(entries_from(s, i as int) == (match line_form(s.subrange(i as int, e as int)) {
                LineForm::Skip => rest,
                LineForm::Bad => None::<Seq<(Seq<u8>, Seq<u8>)>>,
                LineForm::Entry(k, v) => match rest {
                    None => None,
                    Some(es) => Some(seq![(k, v)] + es),
                },
            }));
            if e >= s.len() {
                assert(entries_from(s, s.len() as int) == Some(
                    Seq::<(Seq<u8>, Seq<u8>)>::empty(),
                ));
            }
        }
        match parsed {
            LineParse::Bad => {
                proof {
                    assert(spec_load(s) == Err::<u64, ConfigError>(ConfigError::Invalid));
                }
                return Err(ConfigError::Invalid);
            },
            LineParse::Skip => {},
            LineParse::Entry { key, value } => {
                let ghost done2 = done + seq![(key@, value@)];
                proof {
                    assert(done2.drop_last() =~= done);
                    if entries_from(s, i as int) is Some {
                        let es = rest->Some_0;
                        assert(done + (seq![(key@, value@)] + es) =~= done2 + es);
                    }
                }
                if is_threshold_key(key.as_slice()) {
                    best = Some(value);
                } else {
                }
                proof {
                    done = done2;
                }
            },
        }
        if e == content.len() {
            i = content.len();
        } else {
            i = e + 1;
        }
    }
    proof {
        assert(entries_from(s, s.len() as int) == Some(Seq::<(Seq<u8>, Seq<u8>)>::empty()));
        if entries_from(s, 0) is Some {
            assert(done + Seq::<(Seq<u8>, Seq<u8>)>::empty() =~= done);
        }
        assert(entries_from(s, 0) == Some(done));
    }
    match best {
        None => Err(ConfigError::Missing),
        Some(v) => match parse_u64_bytes(v.as_slice()) {
            None => Err(ConfigError::BadValue),
            Some(n) => Ok(n),
        },
    }
}

/// Parses a decimal `u64` with an optional leading `+`, exactly as
/// [`parse_u64`] describes.
pub fn parse_u64_bytes(s: &[u8]) -> (r: Option<u64>)
    ensures
        r == parse_u64(s@),
{
    let start: usize = if s.len() > 0 && s[0] == 43 {
        1
    } else {
        0
    };
    let ghost d = if s@.len() > 0 && s@[0] == 43 {
        s@.drop_first()
    } else {
        s@
    };
    proof {
        assert(d =~= s@.subrange(start as int, s@.len() as int));
    }
    if s.len() == start {
        return None;
    }
    let mut acc: u64 = 0;
    let mut k: usize = start;
    while k < s.len()
        invariant
            start <= k <= s@.len(),
            start == (if s@.len() > 0 && s@[0] == 43 {
                1usize
            } else {
                0usize
            }),
            d == (if s@.len() > 0 && s@[0] == 43 {
                s@.drop_first()
            } else {
                s@
            }),
            d =~= s@.subrange(start as int, s@.len() as int),
            all_digits(d.subrange(0, k - start)),
            acc as int == digits_val(d.subrange(0, k - start)),
        decreases s@.len() - k,
    {
        let b = s[k];
        proof {
            assert(d[k - start] == s@[k as int]);
        }
        if !byte_is_digit(b) {
            assert(!is_digit(d[k - start]));
            assert(!all_digits(d));
            return None;
        }
        let digit = (b - 48) as u64;
        proof {
            assert(d.subrange(0, k + 1 - start).drop_last() =~= d.subrange(0, k - start));
        }
        if acc > u64::MAX / 10 || (acc == u64::MAX / 10 && digit > u64::MAX % 10) {
            proof {
                assert(digits_val(d.subrange(0, k + 1 - start)) > u64::MAX);
                if all_digits(d) {
                    lemma_digits_val_monotone(d, k + 1 - start);
                    assert(digits_val(d) > u64::MAX);
                }
            }
            return None;
        }
        proof {
            assert((u64::MAX / 10) * 10 + (u64::MAX % 10) == u64::MAX) by (nonlinear_arith);
        }
        acc = acc * 10 + digit;
        k = k + 1;
    }
    proof {
        assert(d.subrange(0, k - start) =~= d);
    }
    Some(acc)
}

/// Appends the decimal digits of `n`.
fn push_decimal(out: &mut Vec<u8>, n: u64)
    ensures
        final(out)@ == old(out)@ + dec_digits(n as nat),
    decreases n,
{
    if n < 10 {
        out.push(48 + (n as u8));
        proof {
            assert(old(out)@.push((48 + n) as u8) =~= old(out)@ + dec_digits(n as nat));
        }
    } else {
        proof {
            assert(n / 10 < n) by (nonlinear_arith)
                requires
                    n >= 10,
            ;
        }
        push_decimal(out, n / 10);
        out.push(48 + ((n % 10) as u8));
        proof {
            assert((old(out)@ + dec_digits((n / 10) as nat)).push((48 + n % 10) as u8) =~= old(
                out,
            )@ + dec_digits(n as nat));
        }
    }
}

/// Every byte of a rendered number is a decimal digit, and there is at
/// least one.
proof fn lemma_dec_digits_are_digits(n: nat)
    ensures
        all_digits(dec_digits(n)),
        dec_digits(n).len() > 0,
    decreases n,
{
    if n < 10 {
    } else {
        assert(n / 10 < n) by (nonlinear_arith)
            requires
                n >= 10,
        ;
        lemma_dec_digits_are_digits(n / 10);
        let d = dec_digits(n / 10);
        assert(forall|i: int|
            0 <= i < d.push((48 + n % 10) as u8).len() ==> is_digit(
                #[trigger] d.push((48 + n % 10) as u8)[i],
            ));
    }
}

/// Reading the rendered digits of `n` back gives `n`.
proof fn lemma_dec_digits_val(n: nat)
    ensures
        digits_val(dec_digits(n)) == n,
    decreases n,
{
    if n < 10 {
        assert(dec_digits(n) == seq![(48 + n) as u8]);
        assert(dec_digits(n).drop_last() =~= Seq::<u8>::empty());
        assert(digits_val(Seq::<u8>::empty()) == 0);
        assert(digits_val(dec_digits(n)) == 0 * 10 + ((48 + n) as u8 - 48));
    } else {
        assert(n / 10 < n) by (nonlinear_arith)
            requires
                n >= 10,
        ;
        lemma_dec_digits_val(n / 10);
        let d = dec_digits(n / 10);
        assert(dec_digits(n) == d.push((48 + n % 10) as u8));
        assert(d.push((48 + n % 10) as u8).drop_last() =~= d);
        assert(digits_val(dec_digits(n)) == digits_val(d) * 10 + ((48 + n % 10) as u8 - 48));
        assert(n == (n / 10) * 10 + n % 10) by (nonlinear_arith);
    }
}

/// A text with exactly one `=` counts one.
proof fn lemma_count_eq_one(s: Seq<u8>, p: int)
    requires
        0 <= p < s.len(),
        s[p] == 61,
        forall|q: int| 0 <= q < s.len() && q != p ==> s[q] != 61,
    ensures
        count_eq(s) == 1,
    decreases s.len(),
{
    if p + 1 == s.len() {
        lemma_count_eq_zero(s.drop_last());
    } else {
        lemma_count_eq_one(s.drop_last(), p);
    }
}

/// A text without space bytes keeps them all when spaces are stripped.
proof fn lemma_strip_spaces_id(s: Seq<u8>)
    requires
        forall|q: int| 0 <= q < s.len() ==> s[q] != 32,
    ensures
        strip_spaces(s) == s,
    decreases s.len(),
{
    if s.len() > 0 {
        lemma_strip_spaces_id(s.drop_last());
        assert(s.drop_last().push(s.last()) =~= s);
    }
}

/// Writing a threshold and loading it back yields exactly the value that
/// was written: the configuration round-trips.
#[verifier::rlimit(100)]
pub proof fn lemma_render_load_round_trip(v: u64)
    ensures
        spec_load(spec_render(v)) == Ok::<u64, ConfigError>(v),
{
    let key = threshold_key();
    let sep = seq![32u8, 61u8, 32u8];
    let d = dec_digits(v as nat);
    let c = spec_render(v);
    lemma_dec_digits_are_digits(v as nat);
    lemma_dec_digits_val(v as nat);
    assert(c.len() == 19 + d.len());
    assert(forall|i: int| 0 <= i < 16 ==> c[i] == key[i]);
    assert(forall|j: int| 0 <= j < d.len() ==> c[19 + j] == d[j]);
    assert(forall|j: int| 0 <= j < d.len() ==> is_digit(#[trigger] d[j]));
    // no byte of the text is a line break, so it is one line
    assert(forall|i: int| 0 <= i < c.len() ==> c[i] != 10);
    lemma_line_end_bounds(c, 0);
    assert(line_end(c, 0) == c.len());
    // the line is already trimmed: letter first, digit last
    assert(c[0] == 109);
    assert(trim_start(c) == c);
    assert(c.last() == d.last());
    assert(is_digit(c.last()));
    assert(trim_end(c) == c);
    assert(trim(c) == c);
    // no comment byte anywhere
    assert(forall|i: int| 0 <= i < c.len() ==> !is_comment_byte(c[i]));
    lemma_before_comment(c, c.len() as int);
    assert(c.subrange(0, c.len() as int) =~= c);
    // exactly one `=`, at position 17
    assert(c[17] == 61);
    assert(forall|q: int| 0 <= q < c.len() && q != 17 ==> c[q] != 61);
    lemma_count_eq_one(c, 17);
    lemma_eq_split(c, 17);
    let keypart = c.subrange(0, 17);
    let valpart = c.subrange(18, c.len() as int);
    // the key part is the key plus one trailing space
    assert(keypart =~= key.push(32u8));
    assert(keypart.drop_last() =~= key);
    assert(forall|q: int| 0 <= q < key.len() ==> key[q] != 32);
    lemma_strip_spaces_id(key);
    assert(strip_spaces(keypart) == key);
    assert(forall|q: int| 0 <= q < key.len() ==> !(65 <= #[trigger] key[q] <= 90));
    assert(lower(key) =~= key);
    // the value part is one leading space plus the digits
    assert(valpart.len() == 1 + d.len());
    assert(valpart[0] == 32);
    assert(valpart.drop_first() =~= d);
    assert(trim_start(valpart) == trim_start(d));
    assert(d[0] != 32 && !is_space(d[0]));
    assert(trim_start(d) == d);
    assert(!is_space(d.last()));
    assert(trim_end(d) == d);
    assert(trim(valpart) == d);
    assert(line_form(c) == LineForm::Entry(key, d));
    // one line, one entry
    assert(entries_from(c, 0) == Some(seq![(key, d)] + Seq::<(Seq<u8>, Seq<u8>)>::empty()));
    let es = seq![(key, d)] + Seq::<(Seq<u8>, Seq<u8>)>::empty();
    assert(es =~= seq![(key, d)]);
    assert(es.last() == (key, d));
    assert(lookup_threshold(es) == Some(d));
    // the digits parse back to the value
    assert(d[0] != 43);
    assert(parse_u64(d) == Some(digits_val(d) as u64));
    assert(digits_val(d) == v as nat);
    assert(spec_load(c) == Ok::<u64, ConfigError>(v));
}

/// Loading is a pure function of the file's content: reading the same,
/// unmodified text a second time yields the same threshold again.
pub proof fn lemma_load_idempotent(first: Seq<u8>, second: Seq<u8>)
    requires
        first == second,
    ensures
        spec_load(first) == spec_load(second),
{
}

/// Renders the configuration text that persists a threshold, exactly as
/// [`spec_render`] describes.
pub fn render_threshold(v: u64) -> (r: Vec<u8>)
    ensures
        r@ == spec_render(v),
{
    let mut out: Vec<u8> = Vec::new();
    out.push(109);
    out.push(101);
    out.push(109);
    out.push(111);
    out.push(114);
    out.push(121);
    out.push(95);
    out.push(116);
    out.push(104);
    out.push(114);
    out.push(101);
    out.push(115);
    out.push(104);
    out.push(111);
    out.push(108);
    out.push(100);
    out.push(32);
    out.push(61);
    out.push(32);
    proof {
        assert(out@ =~= threshold_key() + seq![32u8, 61u8, 32u8]);
    }
    push_decimal(&mut out, v);
    proof {
        assert((threshold_key() + seq![32u8, 61u8, 32u8]) + dec_digits(v as nat) =~= spec_render(
            v,
        ));
    }
    out
}

} // verus!
