//! The pieces of the workload text: lines, blanks, separators and numerals.

use crate::ratio::Ratio;
use vstd::prelude::*;
use vstd::std_specs::iter::IteratorSpec;

verus! {

broadcast use vstd::string::group_string_axioms;

/// The characters of `s`.
pub fn to_chars(s: &str) -> (v: Vec<char>)
    ensures
        v@ == s@,
{
    let mut v: Vec<char> = Vec::new();
    let mut it = s.chars();
    loop
        invariant_except_break
            v@ + it.remaining() == s@,
            it.decrease() is Some,
        ensures
            v@ == s@,
        decreases it.decrease()->0,
    {
        match it.next() {
            Some(c) => {
                v.push(c);
            },
            None => {
                assert(v@ + it.remaining() =~= v@);
                break ;
            },
        }
    }
    v
}

/// `String::from_iter`: the string made of the characters of `chars`, in
/// their order.
#[verifier::external_body]
pub(crate) fn string_of(chars: &[char]) -> (s: String)
    ensures
        s@ == chars@,
{
    String::from_iter(chars)
}

/// A stretch of a text, from `start` up to but without `end`.
#[derive(Clone, Copy, Debug)]
pub struct Span {
    pub start: usize,
    pub end: usize,
}

/// The lines that end in a line feed, and what follows the last line feed.
pub open spec fn scan_lines(s: Seq<char>) -> (Seq<Seq<char>>, Seq<char>)
    decreases s.len(),
{
    if s.len() == 0 {
        (Seq::empty(), Seq::empty())
    } else {
        let before = scan_lines(s.drop_last());
        if s.last() == '\n' {
            (before.0.push(before.1), Seq::empty())
        } else {
            (before.0, before.1.push(s.last()))
        }
    }
}

/// The lines of a text. A line ends at a line feed or at the end of the
/// text; the line feed is no part of it, and nothing follows a final line
/// feed.
pub open spec fn lines_of(s: Seq<char>) -> Seq<Seq<char>> {
    let scanned = scan_lines(s);
    if scanned.1.len() > 0 {
        scanned.0.push(scanned.1)
    } else {
        scanned.0
    }
}

/// Neither a line that a line feed ended nor what follows the last line feed
/// holds a line feed.
pub proof fn lemma_scan_lines(s: Seq<char>)
    ensures
        forall|k: int, i: int|
            0 <= k < scan_lines(s).0.len() && 0 <= i < scan_lines(s).0[k].len() ==> (
            #[trigger] scan_lines(s).0[k][i]) != '\n',
        forall|i: int| 0 <= i < scan_lines(s).1.len() ==> (#[trigger] scan_lines(s).1[i]) != '\n',
    decreases s.len(),
{
    let now = scan_lines(s);
    if s.len() > 0 {
        let before = scan_lines(s.drop_last());
        lemma_scan_lines(s.drop_last());
        assert forall|k: int, i: int| 0 <= k < now.0.len() && 0 <= i < now.0[k].len() implies (
        #[trigger] now.0[k][i]) != '\n' by {
            if k < before.0.len() {
                assert(now.0[k] == before.0[k]);
                assert(before.0[k][i] != '\n');
            } else {
                assert(now.0[k] == before.1);
                assert(before.1[i] != '\n');
            }
        }
        assert forall|i: int| 0 <= i < now.1.len() implies (#[trigger] now.1[i]) != '\n' by {
            if i < before.1.len() {
                assert(now.1[i] == before.1[i]);
            }
        }
    }
}

/// No line holds a line feed.
pub proof fn lemma_lines_hold_no_feed(s: Seq<char>)
    ensures
        forall|k: int, i: int|
            0 <= k < lines_of(s).len() && 0 <= i < lines_of(s)[k].len() ==> (#[trigger] lines_of(
                s,
            )[k][i]) != '\n',
{
    lemma_scan_lines(s);
    let scanned = scan_lines(s);
    assert forall|k: int, i: int|
        0 <= k < lines_of(s).len() && 0 <= i < lines_of(s)[k].len() implies (#[trigger] lines_of(
            s,
        )[k][i]) != '\n' by {
        if k < scanned.0.len() {
            assert(lines_of(s)[k] == scanned.0[k]);
            assert(scanned.0[k][i] != '\n');
        } else {
            assert(lines_of(s)[k] == scanned.1);
            assert(scanned.1[i] != '\n');
        }
    }
}

/// Where the lines of `text` stand in it.
pub fn line_spans(text: &[char]) -> (v: Vec<Span>)
    ensures
        v@.len() == lines_of(text@).len(),
        forall|k: int|
            0 <= k < v@.len() ==> (#[trigger] v@[k]).start <= v@[k].end <= text@.len()
                && text@.subrange(v@[k].start as int, v@[k].end as int) == lines_of(text@)[k],
{
    let mut v: Vec<Span> = Vec::new();
    let mut start: usize = 0;
    let mut i: usize = 0;
    while i < text.len()
        invariant
            0 <= start <= i <= text@.len(),
            scan_lines(text@.take(i as int)).0.len() == v@.len(),
            scan_lines(text@.take(i as int)).1 == text@.subrange(start as int, i as int),
            forall|k: int|
                0 <= k < v@.len() ==> (#[trigger] v@[k]).start <= v@[k].end <= text@.len()
                    && text@.subrange(v@[k].start as int, v@[k].end as int) == scan_lines(
                    text@.take(i as int),
                ).0[k],
        decreases text@.len() - i,
    {
        let c = text[i];
        proof {
            assert(text@.take(i + 1).drop_last() =~= text@.take(i as int));
            assert(text@.take(i + 1).last() == c);
        }
        if c == '\n' {
            v.push(Span { start: start, end: i });
            start = i + 1;
            assert(text@.subrange(start as int, i + 1) =~= Seq::<char>::empty());
        } else {
            assert(text@.subrange(start as int, i + 1) =~= text@.subrange(
                start as int,
                i as int,
            ).push(c));
        }
        i += 1;
    }
    assert(text@.take(i as int) =~= text@);
    if start < i {
        v.push(Span { start: start, end: i });
    }
    v
}

/// Whether `c` is white space.
pub open spec fn is_blank(c: char) -> bool {
    let n = c as u32;
    (9 <= n <= 13) || n == 0x20 || n == 0x85 || n == 0xA0 || n == 0x1680 || (0x2000 <= n
        <= 0x200A) || n == 0x2028 || n == 0x2029 || n == 0x202F || n == 0x205F || n == 0x3000
}

/// Decides `is_blank`.
pub fn blank(c: char) -> (b: bool)
    ensures
        b == is_blank(c),
{
    let n: u32 = c as u32;
    (9 <= n && n <= 13) || n == 0x20 || n == 0x85 || n == 0xA0 || n == 0x1680 || (0x2000 <= n && n
        <= 0x200A) || n == 0x2028 || n == 0x2029 || n == 0x202F || n == 0x205F || n == 0x3000
}

/// `s` without the white space at its end.
pub open spec fn trim_end(s: Seq<char>) -> Seq<char>
    decreases s.len(),
{
    if s.len() > 0 && is_blank(s.last()) {
        trim_end(s.drop_last())
    } else {
        s
    }
}

/// `s` without the white space at its start.
pub open spec fn trim_start(s: Seq<char>) -> Seq<char>
    decreases s.len(),
{
    if s.len() > 0 && is_blank(s.first()) {
        trim_start(s.drop_first())
    } else {
        s
    }
}

/// `s` without the white space at its two ends.
pub open spec fn trim(s: Seq<char>) -> Seq<char> {
    trim_start(trim_end(s))
}

/// `trim_end` takes white space from the end, and all of it.
pub proof fn lemma_trim_end(s: Seq<char>)
    ensures
        trim_end(s).len() <= s.len(),
        trim_end(s) == s.take(trim_end(s).len() as int),
        trim_end(s).len() > 0 ==> !is_blank(trim_end(s).last()),
        forall|i: int| trim_end(s).len() <= i < s.len() ==> is_blank(#[trigger] s[i]),
    decreases s.len(),
{
    if s.len() > 0 && is_blank(s.last()) {
        let t = s.drop_last();
        lemma_trim_end(t);
        assert(t.take(trim_end(t).len() as int) =~= s.take(trim_end(t).len() as int));
        assert forall|i: int| trim_end(s).len() <= i < s.len() implies is_blank(
            #[trigger] s[i],
        ) by {
            if i < t.len() {
                assert(t[i] == s[i]);
            }
        }
    } else {
        assert(s.take(s.len() as int) =~= s);
    }
}

/// `trim_start` takes white space from the start, and all of it.
pub proof fn lemma_trim_start(s: Seq<char>)
    ensures
        trim_start(s).len() <= s.len(),
        trim_start(s) == s.skip(s.len() - trim_start(s).len()),
        trim_start(s).len() > 0 ==> !is_blank(trim_start(s).first()),
        forall|i: int| 0 <= i < s.len() - trim_start(s).len() ==> is_blank(#[trigger] s[i]),
    decreases s.len(),
{
    if s.len() > 0 && is_blank(s.first()) {
        let t = s.drop_first();
        lemma_trim_start(t);
        assert(t.skip(t.len() - trim_start(t).len()) =~= s.skip(s.len() - trim_start(t).len()));
        assert forall|i: int| 0 <= i < s.len() - trim_start(s).len() implies is_blank(
            #[trigger] s[i],
        ) by {
            if i > 0 {
                assert(t[i - 1] == s[i]);
            }
        }
    } else {
        assert(s.skip(0) =~= s);
    }
}

/// What is trimmed is a stretch of `s` with white space, and nothing else,
/// before and after it, and none at its own two ends.
pub proof fn lemma_trim(s: Seq<char>)
    ensures
        trim(s).len() <= trim_end(s).len() <= s.len(),
        trim(s) == s.subrange(trim_end(s).len() - trim(s).len(), trim_end(s).len() as int),
        forall|i: int| 0 <= i < trim_end(s).len() - trim(s).len() ==> is_blank(#[trigger] s[i]),
        forall|i: int| trim_end(s).len() <= i < s.len() ==> is_blank(#[trigger] s[i]),
        trim(s).len() > 0 ==> !is_blank(trim(s).first()) && !is_blank(trim(s).last()),
{
    let e = trim_end(s);
    lemma_trim_end(s);
    lemma_trim_start(e);
    let t = trim(s);
    assert(t =~= s.subrange(e.len() - t.len(), e.len() as int));
    assert forall|i: int| 0 <= i < e.len() - t.len() implies is_blank(#[trigger] s[i]) by {
        assert(e[i] == s[i]);
    }
    if t.len() > 0 {
        assert(t.last() == e.last());
    }
}

/// Where `s` without the white space at its ends stands in `s`.
pub fn trim_bounds(s: &[char]) -> (r: Span)
    ensures
        r.start <= r.end <= s@.len(),
        s@.subrange(r.start as int, r.end as int) == trim(s@),
{
    let mut b: usize = s.len();
    assert(s@.take(b as int) =~= s@);
    while b > 0 && blank(s[b - 1])
        invariant
            0 <= b <= s@.len(),
            trim_end(s@) == trim_end(s@.take(b as int)),
        decreases b,
    {
        assert(s@.take(b as int).drop_last() =~= s@.take(b - 1));
        b -= 1;
    }
    assert(trim_end(s@) == s@.take(b as int));
    let mut a: usize = 0;
    assert(s@.subrange(0, b as int) =~= s@.take(b as int));
    while a < b && blank(s[a])
        invariant
            0 <= a <= b <= s@.len(),
            trim(s@) == trim_start(s@.subrange(a as int, b as int)),
        decreases b - a,
    {
        assert(s@.subrange(a as int, b as int).drop_first() =~= s@.subrange(a + 1, b as int));
        a += 1;
    }
    Span { start: a, end: b }
}

/// The index of the first `c` in `s`, or the length of `s` where it holds none.
pub open spec fn first_index(s: Seq<char>, c: char) -> int
    decreases s.len(),
{
    if s.len() == 0 || s[0] == c {
        0
    } else {
        1 + first_index(s.drop_first(), c)
    }
}

/// `first_index` is the least index that holds `c`.
pub proof fn lemma_first_index(s: Seq<char>, c: char)
    ensures
        0 <= first_index(s, c) <= s.len(),
        first_index(s, c) < s.len() ==> s[first_index(s, c)] == c,
        forall|j: int| 0 <= j < first_index(s, c) ==> s[j] != c,
    decreases s.len(),
{
    if s.len() > 0 && s[0] != c {
        let t = s.drop_first();
        lemma_first_index(t, c);
        assert forall|j: int| 0 <= j < first_index(s, c) implies s[j] != c by {
            if j > 0 {
                assert(s[j] == t[j - 1]);
            }
        }
    }
}

/// Computes `first_index`.
pub fn find(s: &[char], c: char) -> (r: usize)
    ensures
        r == first_index(s@, c),
        r <= s@.len(),
{
    let mut i: usize = 0;
    assert(s@.skip(0) =~= s@);
    while i < s.len() && s[i] != c
        invariant
            0 <= i <= s@.len(),
            first_index(s@, c) == i + first_index(s@.skip(i as int), c),
        decreases s@.len() - i,
    {
        assert(s@.skip(i as int).drop_first() =~= s@.skip(i + 1));
        i += 1;
    }
    i
}

/// The index of the first comma that a space follows, or the length of `s`
/// where there is none.
pub open spec fn separator_index(s: Seq<char>) -> int
    decreases s.len(),
{
    if s.len() < 2 {
        s.len() as int
    } else if s[0] == ',' && s[1] == ' ' {
        0
    } else {
        1 + separator_index(s.drop_first())
    }
}

/// A separator, where there is one, leaves room for its two characters.
pub proof fn lemma_separator_index(s: Seq<char>)
    ensures
        0 <= separator_index(s) <= s.len(),
        separator_index(s) < s.len() ==> separator_index(s) + 2 <= s.len() && s[separator_index(
            s,
        )] == ',' && s[separator_index(s) + 1] == ' ',
    decreases s.len(),
{
    if s.len() >= 2 && !(s[0] == ',' && s[1] == ' ') {
        let t = s.drop_first();
        lemma_separator_index(t);
        let i = separator_index(t);
        if i < t.len() {
            assert(s[i + 1] == t[i]);
            assert(s[i + 2] == t[i + 1]);
        }
    }
}

/// The fields of `s`: the stretches between its separators, a separator
/// being a comma and the space after it.
pub open spec fn split_fields(s: Seq<char>) -> Seq<Seq<char>>
    decreases s.len(),
{
    let i = separator_index(s);
    if 0 <= i && i + 2 <= s.len() {
        seq![s.take(i)] + split_fields(s.skip(i + 2))
    } else {
        seq![s]
    }
}

/// Computes `separator_index`.
pub fn find_separator(s: &[char]) -> (r: usize)
    ensures
        r == separator_index(s@),
        r <= s@.len(),
        r < s@.len() ==> r + 2 <= s@.len(),
{
    let n = s.len();
    proof {
        lemma_separator_index(s@);
    }
    if n < 2 {
        return n;
    }
    let mut i: usize = 0;
    assert(s@.skip(0) =~= s@);
    while i < n - 1 && !(s[i] == ',' && s[i + 1] == ' ')
        invariant
            n == s@.len(),
            n >= 2,
            0 <= i <= n - 1,
            separator_index(s@) == i + separator_index(s@.skip(i as int)),
        decreases n - i,
    {
        assert(s@.skip(i as int).drop_first() =~= s@.skip(i + 1));
        i += 1;
    }
    if i < n - 1 {
        i
    } else {
        n
    }
}

/// Whether `c` is one of the ten digits.
pub open spec fn is_digit(c: char) -> bool {
    48 <= c as u32 <= 57
}

/// The number that a digit stands for.
pub open spec fn digit_value(c: char) -> nat {
    (c as u32 - 48) as nat
}

/// Whether `s` holds digits only.
pub open spec fn all_digits(s: Seq<char>) -> bool {
    forall|i: int| 0 <= i < s.len() ==> is_digit(#[trigger] s[i])
}

/// The number read by appending the digits of `s` to the decimal numeral of
/// `start`.
pub open spec fn digits_onto(start: nat, s: Seq<char>) -> nat
    decreases s.len(),
{
    if s.len() == 0 {
        start
    } else {
        10 * digits_onto(start, s.drop_last()) + digit_value(s.last())
    }
}

/// Reading more digits never gives less.
pub proof fn lemma_digits_grow(start: nat, s: Seq<char>, i: int)
    requires
        all_digits(s),
        0 <= i <= s.len(),
    ensures
        digits_onto(start, s.take(i)) <= digits_onto(start, s),
    decreases s.len() - i,
{
    if i < s.len() {
        lemma_digits_grow(start, s, i + 1);
        assert(s.take(i + 1).drop_last() =~= s.take(i));
    } else {
        assert(s.take(i) =~= s);
    }
}

/// Reads the digits of `s` onto `start`, as long as the number stays within
/// `limit`.
pub fn read_digits(s: &[char], start: u64, limit: u64) -> (r: Option<u64>)
    requires
        start <= limit <= 1_000_000_000_000_000_000,
    ensures
        r is Some <==> all_digits(s@) && digits_onto(start as nat, s@) <= limit,
        r is Some ==> r->0 == digits_onto(start as nat, s@),
{
    let mut acc: u64 = start;
    let mut i: usize = 0;
    assert(s@.take(0) =~= Seq::<char>::empty());
    while i < s.len()
        invariant
            0 <= i <= s@.len(),
            acc <= limit <= 1_000_000_000_000_000_000,
            acc == digits_onto(start as nat, s@.take(i as int)),
            all_digits(s@.take(i as int)),
        decreases s@.len() - i,
    {
        let c = s[i];
        let n: u32 = c as u32;
        if n < 48 || n > 57 {
            assert(!is_digit(s@[i as int]));
            return None;
        }
        let next: u64 = acc * 10 + (n - 48) as u64;
        proof {
            assert(s@.take(i + 1).drop_last() =~= s@.take(i as int));
            assert(s@.take(i + 1).last() == c);
            assert forall|j: int| 0 <= j < i + 1 implies is_digit(#[trigger] s@.take(i + 1)[j]) by {
                if j < i {
                    assert(s@.take(i as int)[j] == s@[j]);
                }
            }
            if all_digits(s@) {
                lemma_digits_grow(start as nat, s@, i + 1);
            }
        }
        if next > limit {
            return None;
        }
        acc = next;
        i += 1;
    }
    assert(s@.take(i as int) =~= s@);
    Some(acc)
}

/// The number that an unsigned numeral of sixteen bits stands for: digits,
/// which a plus sign may precede, with a value of at most 65535.
pub open spec fn numeral(s: Seq<char>) -> Option<u16> {
    let d = if s.len() > 0 && s[0] == '+' {
        s.drop_first()
    } else {
        s
    };
    if d.len() > 0 && all_digits(d) && digits_onto(0, d) <= 0xffff {
        Some(digits_onto(0, d) as u16)
    } else {
        None
    }
}

/// Computes `numeral`.
pub fn read_numeral(s: &[char]) -> (r: Option<u16>)
    ensures
        r == numeral(s@),
{
    let n = s.len();
    let from: usize = if n > 0 && s[0] == '+' {
        1
    } else {
        0
    };
    if from == n {
        return None;
    }
    let d = vstd::slice::slice_subrange(s, from, n);
    assert(d@ =~= if s@.len() > 0 && s@[0] == '+' {
        s@.drop_first()
    } else {
        s@
    });
    match read_digits(d, 0, 0xffff) {
        Some(v) => Some(v as u16),
        None => None,
    }
}

/// Ten to the power of `n`.
pub open spec fn pow10(n: nat) -> nat
    decreases n,
{
    if n == 0 {
        1
    } else {
        10 * pow10((n - 1) as nat)
    }
}

/// The powers of ten up to the eighteenth.
pub proof fn lemma_pow10(k: nat)
    requires
        k <= 18,
    ensures
        1 <= pow10(k) <= 1_000_000_000_000_000_000,
        k < 18 ==> 10 * pow10(k) <= 1_000_000_000_000_000_000,
    decreases 18 - k,
{
    if k < 18 {
        lemma_pow10(k + 1);
    } else {
        reveal_with_fuel(pow10, 19);
    }
}

/// The greatest mantissa of a decimal numeral.
pub const MANTISSA_LIMIT: u64 = 999_999_999_999_999_999;

/// The greatest exponent of a decimal numeral, and the greatest number of
/// places by which its point may end up shifted either way.
pub const SHIFT_LIMIT: u64 = 18;

/// The digits of a decimal numeral and the place of its point.
pub struct Mantissa {
    /// The number that the digits make, the point left out.
    pub value: u64,
    /// How many digits follow the point.
    pub places: usize,
}

/// The mantissa that `s` stands for: digits with at most one point among
/// them, at least one digit in all, at most eighteen after the point, and a
/// value that, the point left out, is below ten to the eighteenth.
pub open spec fn mantissa(s: Seq<char>) -> Option<Mantissa> {
    let p = first_index(s, '.');
    let whole = s.take(p);
    let frac = if p < s.len() {
        s.skip(p + 1)
    } else {
        Seq::<char>::empty()
    };
    if all_digits(whole) && all_digits(frac) && whole.len() + frac.len() >= 1 && frac.len()
        <= SHIFT_LIMIT && digits_onto(digits_onto(0, whole), frac) <= MANTISSA_LIMIT {
        Some(
            Mantissa {
                value: digits_onto(digits_onto(0, whole), frac) as u64,
                places: frac.len() as usize,
            },
        )
    } else {
        None
    }
}

/// Computes `mantissa`.
pub fn read_mantissa(s: &[char]) -> (r: Option<Mantissa>)
    ensures
        r == mantissa(s@),
{
    let n = s.len();
    let p = find(s, '.');
    let whole = vstd::slice::slice_subrange(s, 0, p);
    assert(whole@ =~= s@.take(p as int));
    let frac = if p < n {
        vstd::slice::slice_subrange(s, p + 1, n)
    } else {
        vstd::slice::slice_subrange(s, n, n)
    };
    assert(frac@ =~= if p < s@.len() {
        s@.skip(p + 1)
    } else {
        Seq::<char>::empty()
    });
    if frac.len() > 18 || (p == 0 && frac.len() == 0) {
        return None;
    }
    let w = match read_digits(whole, 0, MANTISSA_LIMIT) {
        Some(w) => w,
        None => {
            proof {
                if all_digits(whole@) && all_digits(frac@) {
                    lemma_digits_onto_start(0, whole@, frac@);
                }
            }
            return None;
        },
    };
    match read_digits(frac, w, MANTISSA_LIMIT) {
        Some(m) => Some(Mantissa { value: m, places: frac.len() }),
        None => None,
    }
}

/// The index of the first `e` or `E` in `s`, or the length of `s` where it
/// holds neither.
pub open spec fn exponent_index(s: Seq<char>) -> int
    decreases s.len(),
{
    if s.len() == 0 || s[0] == 'e' || s[0] == 'E' {
        0
    } else {
        1 + exponent_index(s.drop_first())
    }
}

/// Computes `exponent_index`.
pub fn find_exponent(s: &[char]) -> (r: usize)
    ensures
        r == exponent_index(s@),
        r <= s@.len(),
{
    let mut i: usize = 0;
    assert(s@.skip(0) =~= s@);
    while i < s.len() && s[i] != 'e' && s[i] != 'E'
        invariant
            0 <= i <= s@.len(),
            exponent_index(s@) == i + exponent_index(s@.skip(i as int)),
        decreases s@.len() - i,
    {
        assert(s@.skip(i as int).drop_first() =~= s@.skip(i + 1));
        i += 1;
    }
    i
}

/// The exponent that `s` stands for: digits, which a sign may precede, with
/// a value of at most eighteen.
pub open spec fn exponent(s: Seq<char>) -> Option<int> {
    let signed = s.len() > 0 && (s[0] == '+' || s[0] == '-');
    let d = if signed {
        s.drop_first()
    } else {
        s
    };
    if d.len() > 0 && all_digits(d) && digits_onto(0, d) <= SHIFT_LIMIT {
        Some(
            if s[0] == '-' {
                -(digits_onto(0, d) as int)
            } else {
                digits_onto(0, d) as int
            },
        )
    } else {
        None
    }
}

/// Computes `exponent`.
pub fn read_exponent(s: &[char]) -> (r: Option<i64>)
    ensures
        match r {
            Some(e) => exponent(s@) == Some(e as int),
            None => exponent(s@) is None,
        },
{
    let n = s.len();
    let signed = n > 0 && (s[0] == '+' || s[0] == '-');
    let from: usize = if signed {
        1
    } else {
        0
    };
    if from == n {
        return None;
    }
    let d = vstd::slice::slice_subrange(s, from, n);
    assert(d@ =~= if s@.len() > 0 && (s@[0] == '+' || s@[0] == '-') {
        s@.drop_first()
    } else {
        s@
    });
    match read_digits(d, 0, SHIFT_LIMIT) {
        Some(v) => if s[0] == '-' {
            Some(-(v as i64))
        } else {
            Some(v as i64)
        },
        None => None,
    }
}

/// Computes `pow10` up to the eighteenth power.
pub fn power_of_ten(k: u64) -> (p: u64)
    requires
        k <= 18,
    ensures
        p == pow10(k as nat),
        1 <= p <= 1_000_000_000_000_000_000,
{
    let mut p: u64 = 1;
    let mut i: u64 = 0;
    while i < k
        invariant
            0 <= i <= k <= 18,
            p == pow10(i as nat),
        decreases k - i,
    {
        proof {
            lemma_pow10(i as nat);
        }
        p = p * 10;
        i += 1;
    }
    proof {
        lemma_pow10(i as nat);
    }
    p
}

/// The ratio `value / 10^scale`, with the sign that `negative` gives it,
/// where the scale is between -18 and 18.
pub open spec fn scaled(value: u64, scale: int, negative: bool) -> Option<Ratio> {
    if 0 <= scale <= SHIFT_LIMIT {
        Some(
            Ratio {
                num: value as u128,
                den: if negative {
                    -(pow10(scale as nat) as int)
                } else {
                    pow10(scale as nat) as int
                } as i64,
            },
        )
    } else if -(SHIFT_LIMIT as int) <= scale < 0 {
        Some(
            Ratio {
                num: (value * pow10((-scale) as nat)) as u128,
                den: if negative {
                    -1i64
                } else {
                    1i64
                },
            },
        )
    } else {
        None
    }
}

/// The ratio that a decimal numeral stands for, read exactly.
///
/// A numeral is a mantissa, which a sign may precede and which an exponent
/// may follow: `e` or `E`, then digits, which a sign may precede. The ratio
/// is the mantissa's value over the power of ten that the places after the
/// point, less the exponent, call for; a minus sign makes the denominator
/// negative.
///
/// Refused, because the ratio could not be held exactly: a mantissa of ten
/// to the eighteenth or more, more than eighteen digits after the point, an
/// exponent beyond eighteen either way, and a point that the exponent moves
/// by more than eighteen places. Refused as well: the words `inf`,
/// `infinity` and `nan`, which stand for no ratio.
pub open spec fn decimal(s: Seq<char>) -> Option<Ratio> {
    let signed = s.len() > 0 && (s[0] == '+' || s[0] == '-');
    let body = if signed {
        s.drop_first()
    } else {
        s
    };
    let x = exponent_index(body);
    match mantissa(body.take(x)) {
        None => None,
        Some(m) => {
            let shift = if x < body.len() {
                exponent(body.skip(x + 1))
            } else {
                Some(0int)
            };
            match shift {
                None => None,
                Some(e) => scaled(m.value, m.places - e, s[0] == '-'),
            }
        },
    }
}

/// Computes `decimal`.
pub fn read_decimal(s: &[char]) -> (r: Option<Ratio>)
    ensures
        r == decimal(s@),
{
    let n = s.len();
    let signed = n > 0 && (s[0] == '+' || s[0] == '-');
    let negative = n > 0 && s[0] == '-';
    let from: usize = if signed {
        1
    } else {
        0
    };
    let body = vstd::slice::slice_subrange(s, from, n);
    assert(body@ =~= if s@.len() > 0 && (s@[0] == '+' || s@[0] == '-') {
        s@.drop_first()
    } else {
        s@
    });
    let x = find_exponent(body);
    let head = vstd::slice::slice_subrange(body, 0, x);
    assert(head@ =~= body@.take(x as int));
    let m = match read_mantissa(head) {
        Some(m) => m,
        None => {
            return None;
        },
    };
    let shift: i64 = if x < body.len() {
        let tail = vstd::slice::slice_subrange(body, x + 1, body.len());
        assert(tail@ =~= body@.skip(x + 1));
        match read_exponent(tail) {
            Some(e) => e,
            None => {
                return None;
            },
        }
    } else {
        0
    };
    let scale: i64 = m.places as i64 - shift;
    if 0 <= scale && scale <= 18 {
        let p = power_of_ten(scale as u64);
        Some(
            Ratio {
                num: m.value as u128,
                den: if negative {
                    -(p as i64)
                } else {
                    p as i64
                },
            },
        )
    } else if -18 <= scale && scale < 0 {
        let p = power_of_ten((-scale) as u64);
        assert(m.value * p <= 1_000_000_000_000_000_000 * 1_000_000_000_000_000_000)
            by (nonlinear_arith)
            requires
                m.value <= 1_000_000_000_000_000_000,
                p <= 1_000_000_000_000_000_000,
        ;
        Some(
            Ratio {
                num: m.value as u128 * p as u128,
                den: if negative {
                    -1
                } else {
                    1
                },
            },
        )
    } else {
        None
    }
}

/// Digits read onto a number give at least that number.
pub proof fn lemma_digits_onto_start(start: nat, a: Seq<char>, b: Seq<char>)
    ensures
        digits_onto(digits_onto(start, a), b) >= digits_onto(start, a),
    decreases b.len(),
{
    if b.len() > 0 {
        lemma_digits_onto_start(start, a, b.drop_last());
    }
}

} // verus!
