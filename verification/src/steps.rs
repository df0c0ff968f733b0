//! Step-visibility engine: parses a per-element step specification
//! string (for example `"2,5-7,10-"`) into a set of ranges and decides
//! whether the element is visible at a given presentation step.

use vstd::prelude::*;
use vstd::string::StringSliceAdditionalSpecFns;

verus! {

/// Byte value of `-`.
pub const DASH: u8 = 45;

/// Byte value of `,`.
pub const COMMA: u8 = 44;

/// Byte value of `+`.
pub const PLUS: u8 = 43;

pub open spec fn is_digit_byte(b: u8) -> bool {
    48 <= b && b <= 57
}

pub open spec fn all_digit_bytes(s: Seq<u8>) -> bool {
    forall|i: int| 0 <= i < s.len() ==> is_digit_byte(s[i])
}

/// Numeric value of a sequence of decimal digit bytes.
pub open spec fn digits_value(s: Seq<u8>) -> int
    decreases s.len(),
{
    if s.len() == 0 {
        0
    } else {
        digits_value(s.drop_last()) * 10 + (s.last() - 48)
    }
}

/// A leading `+` sign is accepted and ignored, as in `usize::from_str`.
pub open spec fn strip_plus(s: Seq<u8>) -> Seq<u8> {
    if s.len() > 0 && s[0] == PLUS {
        s.subrange(1, s.len() as int)
    } else {
        s
    }
}

/// What parsing a decimal number from `s` returns: the digits' value,
/// or nothing when `s` is empty, holds a non-digit, or overflows.
pub open spec fn spec_parse_number(s: Seq<u8>) -> Option<usize> {
    let d = strip_plus(s);
    if d.len() > 0 && all_digit_bytes(d) && digits_value(d) <= usize::MAX {
        Some(digits_value(d) as usize)
    } else {
        None
    }
}

proof fn lemma_digits_value_nonneg(s: Seq<u8>)
    requires
        all_digit_bytes(s),
    ensures
        digits_value(s) >= 0,
    decreases s.len(),
{
    if s.len() > 0 {
        assert(all_digit_bytes(s.drop_last())) by {
            assert(forall|i: int| 0 <= i < s.len() - 1 ==> s.drop_last()[i] == s[i]);
        }
        lemma_digits_value_nonneg(s.drop_last());
    }
}

proof fn lemma_digits_value_prefix_le(s: Seq<u8>, i: int)
    requires
        all_digit_bytes(s),
        0 <= i <= s.len(),
    ensures
        digits_value(s.take(i)) <= digits_value(s),
    decreases s.len() - i,
{
    if i == s.len() {
        assert(s.take(i) =~= s);
    } else {
        lemma_digits_value_prefix_le(s, i + 1);
        let t = s.take(i + 1);
        assert(all_digit_bytes(t)) by {
            assert(forall|k: int| 0 <= k < t.len() ==> t[k] == s[k]);
        }
        assert(t.drop_last() =~= s.take(i));
        assert(all_digit_bytes(s.take(i))) by {
            assert(forall|k: int| 0 <= k < i ==> s.take(i)[k] == s[k]);
        }
        lemma_digits_value_nonneg(s.take(i));
        assert(digits_value(t) == digits_value(s.take(i)) * 10 + (t.last() - 48));
        assert(digits_value(s.take(i)) * 10 >= digits_value(s.take(i))) by (nonlinear_arith)
            requires digits_value(s.take(i)) >= 0,
        ;
    }
}

/// Parses the decimal number held by `bytes[from..to]`.
pub(crate) fn parse_number(bytes: &[u8], from: usize, to: usize) -> (r: Option<usize>)
    requires
        from <= to <= bytes@.len(),
    ensures
        r == spec_parse_number(bytes@.subrange(from as int, to as int)),
{
    let ghost tok = bytes@.subrange(from as int, to as int);
    let mut i = from;
    if i < to && bytes[i] == PLUS {
        i = i + 1;
    }
    let ghost digits = strip_plus(tok);
    proof {
        assert(digits =~= bytes@.subrange(i as int, to as int));
    }
    if i == to {
        return None;
    }
    let mut acc: usize = 0;
    while i < to
        invariant
            from <= i <= to <= bytes@.len(),
            digits == strip_plus(tok),
            tok == bytes@.subrange(from as int, to as int),
            digits.len() == to - from || digits.len() == to - from - 1,
            digits =~= bytes@.subrange((to - digits.len()) as int, to as int),
            i >= to - digits.len(),
            all_digit_bytes(digits.take(i - (to - digits.len()))),
            acc == digits_value(digits.take(i - (to - digits.len()))),
        decreases to - i,
    {
        let ghost done = i - (to - digits.len());
        let b = bytes[i];
        proof {
            assert(digits[done as int] == b);
        }
        if b < 48 || b > 57 {
            proof {
                assert(!is_digit_byte(digits[done as int]));
                assert(!all_digit_bytes(digits));
            }
            return None;
        }
        let d = (b - 48) as usize;
        if acc > (usize::MAX - d) / 10 {
            proof {
                let p = digits.take(done + 1);
                assert(p.drop_last() =~= digits.take(done as int));
                assert(p.last() == b);
                assert(digits_value(p) == acc * 10 + d);
                assert(acc * 10 + d > usize::MAX) by (nonlinear_arith)
                    requires
                        acc > (usize::MAX - d) / 10,
                        0 <= d <= 9,
                        acc >= 0,
                ;
                if all_digit_bytes(digits) {
                    lemma_digits_value_prefix_le(digits, done + 1);
                    assert(digits_value(digits) > usize::MAX);
                }
            }
            return None;
        }
        proof {
            assert(acc * 10 + d <= usize::MAX) by (nonlinear_arith)
                requires
                    acc <= (usize::MAX - d) / 10,
                    0 <= d <= 9,
                    acc >= 0,
            ;
            let p = digits.take(done + 1);
            assert(p.drop_last() =~= digits.take(done as int));
            assert(p.last() == b);
            assert(all_digit_bytes(p)) by {
                assert(forall|k: int| 0 <= k < done ==> p[k] == digits.take(done as int)[k]);
            }
        }
        acc = acc * 10 + d;
        i = i + 1;
    }
    proof {
        assert(digits.take(digits.len() as int) =~= digits);
    }
    Some(acc)
}

/// One range of a step specification, as comma-separated sub-ranges reduce:
/// `N` and `N-M` give a closed range, `N-` and `-` an open-ended one,
/// and an unparsable sub-range contributes nothing.
#[derive(Clone, Copy, PartialEq, Eq, Structural, Debug)]
pub enum StepRange {
    Closed { lo: usize, hi: usize },
    Open { lo: usize },
    Invalid,
}

pub open spec fn has_dash(s: Seq<u8>) -> bool {
    exists|i: int| 0 <= i < s.len() && s[i] == DASH
}

pub open spec fn is_first_dash(s: Seq<u8>, i: int) -> bool {
    &&& 0 <= i < s.len()
    &&& s[i] == DASH
    &&& forall|j: int| 0 <= j < i ==> s[j] != DASH
}

pub open spec fn is_last_dash(s: Seq<u8>, i: int) -> bool {
    &&& 0 <= i < s.len()
    &&& s[i] == DASH
    &&& forall|j: int| i < j < s.len() ==> s[j] != DASH
}

pub open spec fn first_dash(s: Seq<u8>) -> int {
    choose|i: int| is_first_dash(s, i)
}

pub open spec fn last_dash(s: Seq<u8>) -> int {
    choose|i: int| is_last_dash(s, i)
}

proof fn lemma_first_dash_unique(s: Seq<u8>, i: int, j: int)
    requires
        is_first_dash(s, i),
        is_first_dash(s, j),
    ensures
        i == j,
{
}

proof fn lemma_last_dash_unique(s: Seq<u8>, i: int, j: int)
    requires
        is_last_dash(s, i),
        is_last_dash(s, j),
    ensures
        i == j,
{
}

/// The range denoted by one comma-separated token `t`, following the
/// reference grammar: a bare `-` means "from step 1 on"; `-M` means
/// `1-M` (`M` read after the last dash); `N-` is open-ended (`N` read
/// before the first dash); `N-M` reads the outermost segments; a token
/// without a dash is a single step.
pub open spec fn spec_token_range(t: Seq<u8>) -> StepRange {
    if t.len() == 1 && t[0] == DASH {
        StepRange::Open { lo: 1 }
    } else if t.len() > 0 && t[0] == DASH {
        match spec_parse_number(t.subrange(last_dash(t) + 1, t.len() as int)) {
            Some(m) => StepRange::Closed { lo: 1, hi: m },
            None => StepRange::Invalid,
        }
    } else if t.len() > 0 && t[t.len() - 1] == DASH {
        match spec_parse_number(t.subrange(0, first_dash(t))) {
            Some(n) => StepRange::Open { lo: n },
            None => StepRange::Invalid,
        }
    } else if has_dash(t) {
        let first = spec_parse_number(t.subrange(0, first_dash(t)));
        let last = spec_parse_number(t.subrange(last_dash(t) + 1, t.len() as int));
        if first is Some && last is Some {
            StepRange::Closed { lo: first->0, hi: last->0 }
        } else {
            StepRange::Invalid
        }
    } else {
        match spec_parse_number(t) {
            Some(n) => StepRange::Closed { lo: n, hi: n },
            None => StepRange::Invalid,
        }
    }
}

/// Finds the first and last dash inside `bytes[from..to]`, as offsets
/// relative to `from`.
fn find_dashes(bytes: &[u8], from: usize, to: usize) -> (r: Option<(usize, usize)>)
    requires
        from <= to <= bytes@.len(),
    ensures
        ({
            let t = bytes@.subrange(from as int, to as int);
            match r {
                Some((i, j)) => is_first_dash(t, i as int) && is_last_dash(t, j as int),
                None => !has_dash(t),
            }
        }),
{
    let ghost t = bytes@.subrange(from as int, to as int);
    let mut first: Option<usize> = None;
    let mut last: Option<usize> = None;
    let mut k = from;
    while k < to
        invariant
            from <= k <= to <= bytes@.len(),
            t == bytes@.subrange(from as int, to as int),
            match first {
                Some(i) => i < k - from && is_first_dash(t, i as int)
                    && last is Some,
                None => (forall|j: int| 0 <= j < k - from ==> t[j] != DASH)
                    && last is None,
            },
            match last {
                Some(j) => j < k - from && t[j as int] == DASH
                    && (forall|m: int| j < m < k - from ==> t[m] != DASH),
                None => true,
            },
        decreases to - k,
    {
        if bytes[k] == DASH {
            proof {
                assert(t[k - from] == DASH);
            }
            if first.is_none() {
                first = Some(k - from);
            }
            last = Some(k - from);
        }
        k = k + 1;
    }
    match (first, last) {
        (Some(i), Some(j)) => Some((i, j)),
        _ => None,
    }
}

/// Classifies the token held by `bytes[from..to]`.
fn parse_range_token(bytes: &[u8], from: usize, to: usize) -> (r: StepRange)
    requires
        from <= to <= bytes@.len(),
    ensures
        r == spec_token_range(bytes@.subrange(from as int, to as int)),
{
    let ghost t = bytes@.subrange(from as int, to as int);
    let len = to - from;
    if len == 1 && bytes[from] == DASH {
        return StepRange::Open { lo: 1 };
    }
    let dashes = find_dashes(bytes, from, to);
    match dashes {
        None => {
            match parse_number(bytes, from, to) {
                Some(n) => StepRange::Closed { lo: n, hi: n },
                None => StepRange::Invalid,
            }
        }
        Some((i, j)) => {
            proof {
                lemma_first_dash_unique(t, i as int, first_dash(t));
                lemma_last_dash_unique(t, j as int, last_dash(t));
            }
            if bytes[from] == DASH {
                // `-M` (or a malformed variant): the bound after the last dash.
                let ghost seg = t.subrange(j + 1, t.len() as int);
                proof {
                    assert(seg =~= bytes@.subrange(from + j + 1, to as int));
                }
                match parse_number(bytes, from + j + 1, to) {
                    Some(m) => StepRange::Closed { lo: 1, hi: m },
                    None => StepRange::Invalid,
                }
            } else if bytes[to - 1] == DASH {
                // `N-`: the start before the first dash.
                let ghost seg = t.subrange(0, i as int);
                proof {
                    assert(seg =~= bytes@.subrange(from as int, from + i));
                }
                match parse_number(bytes, from, from + i) {
                    Some(n) => StepRange::Open { lo: n },
                    None => StepRange::Invalid,
                }
            } else {
                // `N-M`: the outermost segments.
                let ghost seg1 = t.subrange(0, i as int);
                let ghost seg2 = t.subrange(j + 1, t.len() as int);
                proof {
                    assert(seg1 =~= bytes@.subrange(from as int, from + i));
                    assert(seg2 =~= bytes@.subrange(from + j + 1, to as int));
                }
                let n = parse_number(bytes, from, from + i);
                let m = parse_number(bytes, from + j + 1, to);
                match (n, m) {
                    (Some(n), Some(m)) => StepRange::Closed { lo: n, hi: m },
                    _ => StepRange::Invalid,
                }
            }
        }
    }
}

pub open spec fn is_space_byte(b: u8) -> bool {
    b == 32 || (9 <= b && b <= 13)
}

pub open spec fn all_space_bytes(s: Seq<u8>) -> bool {
    forall|i: int| 0 <= i < s.len() ==> is_space_byte(s[i])
}

pub open spec fn is_trim_start(s: Seq<u8>, i: int) -> bool {
    &&& 0 <= i < s.len()
    &&& !is_space_byte(s[i])
    &&& forall|k: int| 0 <= k < i ==> is_space_byte(s[k])
}

pub open spec fn is_trim_end(s: Seq<u8>, j: int) -> bool {
    &&& 0 <= j < s.len()
    &&& !is_space_byte(s[j])
    &&& forall|k: int| j < k < s.len() ==> is_space_byte(s[k])
}

/// The specification string with leading and trailing whitespace
/// removed, as the whole string is trimmed before it is split.
pub open spec fn spec_trim(s: Seq<u8>) -> Seq<u8> {
    if all_space_bytes(s) {
        Seq::empty()
    } else {
        let i = choose|i: int| is_trim_start(s, i);
        let j = choose|j: int| is_trim_end(s, j);
        s.subrange(i, j + 1)
    }
}

pub open spec fn has_comma(s: Seq<u8>) -> bool {
    exists|i: int| 0 <= i < s.len() && s[i] == COMMA
}

pub open spec fn is_first_comma(s: Seq<u8>, i: int) -> bool {
    &&& 0 <= i < s.len()
    &&& s[i] == COMMA
    &&& forall|j: int| 0 <= j < i ==> s[j] != COMMA
}

pub open spec fn first_comma(s: Seq<u8>) -> int {
    choose|i: int| is_first_comma(s, i)
}

/// The comma-separated tokens of `s`, exactly as `split(',')` yields
/// them: an empty string gives one empty token, and so does every
/// empty stretch between, before, or after commas.
pub open spec fn split_commas(s: Seq<u8>) -> Seq<Seq<u8>>
    decreases s.len(),
{
    if has_comma(s) {
        let i = first_comma(s);
        if 0 <= i < s.len() {
            seq![s.subrange(0, i)] + split_commas(s.subrange(i + 1, s.len() as int))
        } else {
            seq![s]
        }
    } else {
        seq![s]
    }
}

/// The tokens of a raw specification string.
pub open spec fn spec_tokens(s: Seq<u8>) -> Seq<Seq<u8>> {
    split_commas(spec_trim(s))
}

/// The set of explicitly listed steps: the union of the closed
/// ranges, plus the start of every open-ended range.
pub open spec fn spec_explicit_steps(tokens: Seq<Seq<u8>>) -> Set<int>
    decreases tokens.len(),
{
    if tokens.len() == 0 {
        Set::empty()
    } else {
        let rest = spec_explicit_steps(tokens.drop_last());
        match spec_token_range(tokens.last()) {
            StepRange::Closed { lo, hi } => rest.union(Set::new(|s: int| lo <= s <= hi)),
            StepRange::Open { lo } => rest.insert(lo as int),
            StepRange::Invalid => rest,
        }
    }
}

/// The least start among the open-ended ranges, if any: multiple open
/// ranges must still honor the smallest start.
pub open spec fn spec_visible_from_of(tokens: Seq<Seq<u8>>) -> Option<usize>
    decreases tokens.len(),
{
    if tokens.len() == 0 {
        None
    } else {
        let rest = spec_visible_from_of(tokens.drop_last());
        match spec_token_range(tokens.last()) {
            StepRange::Open { lo } => match rest {
                Some(f) => Some(if lo < f { lo } else { f }),
                None => Some(lo),
            },
            _ => rest,
        }
    }
}

/// The maximum explicit boundary seen: the end of each closed range
/// and the start of each open one. A step-count hint, not a
/// visibility bound.
pub open spec fn spec_last_known_of(tokens: Seq<Seq<u8>>) -> int
    decreases tokens.len(),
{
    if tokens.len() == 0 {
        0
    } else {
        let rest = spec_last_known_of(tokens.drop_last());
        match spec_token_range(tokens.last()) {
            StepRange::Closed { hi, .. } => if hi > rest { hi as int } else { rest },
            StepRange::Open { lo } => if lo > rest { lo as int } else { rest },
            StepRange::Invalid => rest,
        }
    }
}

proof fn lemma_first_comma_exists_aux(s: Seq<u8>, w: int)
    requires
        0 <= w < s.len(),
        s[w] == COMMA,
    ensures
        exists|i: int| is_first_comma(s, i),
    decreases w,
{
    if forall|j: int| 0 <= j < w ==> s[j] != COMMA {
        assert(is_first_comma(s, w));
    } else {
        let j = choose|j: int| 0 <= j < w && s[j] == COMMA;
        lemma_first_comma_exists_aux(s, j);
    }
}

proof fn lemma_first_comma_unique(s: Seq<u8>, i: int, j: int)
    requires
        is_first_comma(s, i),
        is_first_comma(s, j),
    ensures
        i == j,
{
}

proof fn lemma_trim_start_unique(s: Seq<u8>, i: int, j: int)
    requires
        is_trim_start(s, i),
        is_trim_start(s, j),
    ensures
        i == j,
{
}

proof fn lemma_trim_end_unique(s: Seq<u8>, i: int, j: int)
    requires
        is_trim_end(s, i),
        is_trim_end(s, j),
    ensures
        i == j,
{
}

/// Whether one parsed range covers step `s`.
pub open spec fn spec_range_covers(r: StepRange, s: int) -> bool {
    match r {
        StepRange::Closed { lo, hi } => lo <= s <= hi,
        StepRange::Open { lo } => s >= lo,
        StepRange::Invalid => false,
    }
}

/// Whether some range of the token list covers step `s`.
pub open spec fn spec_covered(tokens: Seq<Seq<u8>>, s: int) -> bool {
    exists|i: int| 0 <= i < tokens.len()
        && spec_range_covers(spec_token_range(#[trigger] tokens[i]), s)
}

/// Visibility in the reduced model: the step is explicitly listed or
/// the least open-ended start has been reached.
pub open spec fn spec_visible_in(tokens: Seq<Seq<u8>>, s: int) -> bool {
    spec_explicit_steps(tokens).contains(s) || (match spec_visible_from_of(tokens) {
        Some(f) => s >= f,
        None => false,
    })
}

/// Law: visibility holds at exactly the steps covered by some range
/// of the specification — every integer inside a parsed closed range
/// `N-M`, every step from the start of an open range on, and no step
/// outside all ranges. Ranges are unioned, never intersected.
pub proof fn lemma_visible_iff_covered(tokens: Seq<Seq<u8>>, s: int)
    ensures
        spec_visible_in(tokens, s) <==> spec_covered(tokens, s),
    decreases tokens.len(),
{
    if tokens.len() > 0 {
        let pre = tokens.drop_last();
        lemma_visible_iff_covered(pre, s);
        let last = spec_token_range(tokens.last());
        if spec_covered(tokens, s) {
            let i = choose|i: int| 0 <= i < tokens.len()
                && spec_range_covers(spec_token_range(#[trigger] tokens[i]), s);
            if i < tokens.len() - 1 {
                assert(pre[i] == tokens[i]);
                assert(spec_covered(pre, s));
            } else {
                assert(spec_range_covers(last, s));
            }
        }
        if spec_covered(pre, s) {
            let i = choose|i: int| 0 <= i < pre.len()
                && spec_range_covers(spec_token_range(#[trigger] pre[i]), s);
            assert(tokens[i] == pre[i]);
            assert(spec_covered(tokens, s));
        }
        if spec_range_covers(last, s) {
            assert(spec_range_covers(spec_token_range(tokens[tokens.len() - 1]), s));
            assert(spec_covered(tokens, s));
        }
    }
}

/// Law, at the element level: an element built by `parse` is shown at
/// exactly the steps covered by some range of its specification.
pub proof fn lemma_element_visible_iff_covered(e: &AnimatedElement, b: Seq<u8>, s: int)
    requires
        e.steps_set() == spec_explicit_steps(spec_tokens(b)),
        e.spec_visible_from() == spec_visible_from_of(spec_tokens(b)),
    ensures
        e.spec_visible_at(s) <==> spec_covered(spec_tokens(b), s),
{
    lemma_visible_iff_covered(spec_tokens(b), s);
}

/// Whitespace test used while trimming and splitting.
pub(crate) fn is_space(b: u8) -> (r: bool)
    ensures
        r == is_space_byte(b),
{
    b == 32 || (9 <= b && b <= 13)
}

/// The set of steps covered by a sequence of closed ranges.
pub open spec fn ranges_steps_set(rs: Seq<(usize, usize)>) -> Set<int> {
    Set::new(|s: int| exists|i: int| 0 <= i < rs.len() && (#[trigger] rs[i]).0 <= s <= rs[i].1)
}

proof fn lemma_ranges_push(rs: Seq<(usize, usize)>, lo: usize, hi: usize)
    ensures
        ranges_steps_set(rs.push((lo, hi))) =~= ranges_steps_set(rs).union(
            Set::new(|s: int| lo <= s <= hi),
        ),
{
    let rs2 = rs.push((lo, hi));
    assert forall|s: int| ranges_steps_set(rs2).contains(s) implies
        ranges_steps_set(rs).contains(s) || (lo <= s <= hi) by {
        let i = choose|i: int| 0 <= i < rs2.len() && (#[trigger] rs2[i]).0 <= s <= rs2[i].1;
        if i < rs.len() {
            assert(rs[i] == rs2[i]);
            assert(ranges_steps_set(rs).contains(s));
        }
    };
    assert forall|s: int| ranges_steps_set(rs).contains(s) || (lo <= s <= hi) implies
        ranges_steps_set(rs2).contains(s) by {
        if lo <= s <= hi {
            assert((rs2[rs.len() as int]).0 <= s <= rs2[rs.len() as int].1);
        } else {
            let i = choose|i: int| 0 <= i < rs.len() && (#[trigger] rs[i]).0 <= s <= rs[i].1;
            assert(rs2[i] == rs[i]);
            assert(rs2[i].0 <= s <= rs2[i].1);
        }
    };
}

/// A renderable element's resolved step specification: the explicit
/// steps it lists (as closed ranges), the least open-ended start, and
/// the largest step boundary it mentions.
pub struct AnimatedElement {
    ranges: Vec<(usize, usize)>,
    visible_from: Option<usize>,
    last_known_step: usize,
}

impl AnimatedElement {
    /// The set of explicitly listed steps.
    pub closed spec fn steps_set(&self) -> Set<int> {
        ranges_steps_set(self.ranges@)
    }

    /// The least start among the element's open-ended ranges.
    pub closed spec fn spec_visible_from(&self) -> Option<usize> {
        self.visible_from
    }

    pub closed spec fn spec_last_known_step(&self) -> usize {
        self.last_known_step
    }

    /// Visibility at `step`: the step is explicitly listed, or an
    /// open-ended range has begun.
    pub open spec fn spec_visible_at(&self, step: int) -> bool {
        self.steps_set().contains(step) || (match self.spec_visible_from() {
            Some(f) => step >= f,
            None => false,
        })
    }

    /// Parses a step specification string. Parsing never fails:
    /// every unparsable sub-range is dropped and contributes nothing.
    pub fn parse(spec: &str) -> (r: AnimatedElement)
        ensures
            r.steps_set() == spec_explicit_steps(spec_tokens(spec.spec_bytes())),
            r.spec_visible_from() == spec_visible_from_of(spec_tokens(spec.spec_bytes())),
            r.spec_last_known_step() as int == spec_last_known_of(spec_tokens(spec.spec_bytes())),
    {
        let bytes: &[u8] = spec.as_bytes();
        let n = bytes.len();

        // Trim surrounding whitespace.
        let mut start: usize = 0;
        while start < n && is_space(bytes[start])
            invariant
                0 <= start <= n == bytes@.len(),
                forall|k: int| 0 <= k < start ==> is_space_byte(bytes@[k]),
            decreases n - start,
        {
            start = start + 1;
        }
        let mut end: usize = n;
        while end > start && is_space(bytes[end - 1])
            invariant
                start <= end <= n == bytes@.len(),
                forall|k: int| end <= k < n ==> is_space_byte(bytes@[k]),
            decreases end,
        {
            end = end - 1;
        }
        let ghost trimmed = spec_trim(bytes@);
        proof {
            if start == end {
                assert(all_space_bytes(bytes@));
                assert(trimmed =~= bytes@.subrange(start as int, end as int));
            } else {
                assert(is_trim_start(bytes@, start as int));
                assert(is_trim_end(bytes@, end - 1));
                assert(!is_space_byte(bytes@[start as int]));
                assert(!all_space_bytes(bytes@));
                let i = choose|i: int| is_trim_start(bytes@, i);
                let j = choose|j: int| is_trim_end(bytes@, j);
                lemma_trim_start_unique(bytes@, i, start as int);
                lemma_trim_end_unique(bytes@, j, end - 1);
                assert(trimmed =~= bytes@.subrange(start as int, end as int));
            }
        }
        let ghost toks = split_commas(trimmed);

        let mut ranges: Vec<(usize, usize)> = Vec::new();
        let mut visible_from: Option<usize> = None;
        let mut last_known: usize = 0;
        let mut pos = start;
        let ghost mut done: int = 0;
        loop
            invariant_except_break
                toks =~= toks.take(done) + split_commas(bytes@.subrange(pos as int, end as int)),
            invariant
                start <= pos <= end <= bytes@.len(),
                trimmed == bytes@.subrange(start as int, end as int),
                toks == split_commas(trimmed),
                0 <= done <= toks.len(),
                ranges_steps_set(ranges@) == spec_explicit_steps(toks.take(done)),
                visible_from == spec_visible_from_of(toks.take(done)),
                last_known as int == spec_last_known_of(toks.take(done)),
            ensures
                ranges_steps_set(ranges@) == spec_explicit_steps(toks),
                visible_from == spec_visible_from_of(toks),
                last_known as int == spec_last_known_of(toks),
            decreases end - pos + 1,
        {
            let ghost rem = bytes@.subrange(pos as int, end as int);

            // Find the end of the current token.
            let mut q = pos;
            while q < end && bytes[q] != COMMA
                invariant
                    pos <= q <= end <= bytes@.len(),
                    forall|k: int| pos <= k < q ==> bytes@[k] != COMMA,
                decreases end - q,
            {
                q = q + 1;
            }
            let ghost t = bytes@.subrange(pos as int, q as int);
            let ghost rest = split_commas(rem);
            proof {
                if q < end {
                    assert(bytes@[q as int] == COMMA);
                    assert(rem[q - pos] == COMMA);
                    assert(is_first_comma(rem, q - pos)) by {
                        assert(forall|k: int| 0 <= k < q - pos ==> rem[k] == bytes@[pos + k]
                            && rem[k] != COMMA);
                    }
                    lemma_first_comma_exists_aux(rem, q - pos);
                    lemma_first_comma_unique(rem, first_comma(rem), q - pos);
                    assert(rem.subrange(0, q - pos) =~= t);
                    assert(rem.subrange(q - pos + 1, rem.len() as int)
                        =~= bytes@.subrange(q + 1, end as int));
                    assert(rest == seq![t] + split_commas(bytes@.subrange(q + 1, end as int)));
                } else {
                    assert(!has_comma(rem)) by {
                        assert(forall|k: int| 0 <= k < rem.len() ==> rem[k] == bytes@[pos + k]
                            && rem[k] != COMMA);
                    }
                    assert(rem =~= t);
                    assert(rest == seq![t]);
                }
                assert(toks[done] == t) by {
                    assert(toks.take(done) + rest == toks);
                    assert((toks.take(done) + rest)[done] == rest[0]);
                }
                assert(toks.take(done + 1).drop_last() =~= toks.take(done));
                assert(toks.take(done + 1).last() == t);
            }

            let tok = parse_range_token(bytes, pos, q);
            let ghost old_ranges = ranges@;
            let ghost old_from = visible_from;
            let ghost old_last = last_known;
            match tok {
                StepRange::Closed { lo, hi } => {
                    ranges.push((lo, hi));
                    if hi > last_known {
                        last_known = hi;
                    }
                    proof {
                        lemma_ranges_push(old_ranges, lo, hi);
                    }
                }
                StepRange::Open { lo } => {
                    ranges.push((lo, lo));
                    if lo > last_known {
                        last_known = lo;
                    }
                    visible_from = match visible_from {
                        Some(f) => Some(if lo < f { lo } else { f }),
                        None => Some(lo),
                    };
                    proof {
                        lemma_ranges_push(old_ranges, lo, lo);
                        assert(ranges_steps_set(old_ranges).union(
                            Set::new(|s: int| lo <= s <= lo),
                        ) =~= ranges_steps_set(old_ranges).insert(lo as int));
                    }
                }
                StepRange::Invalid => {
                    proof {
                        assert(ranges_steps_set(ranges@)
                            == spec_explicit_steps(toks.take(done + 1)));
                    }
                }
            }
            proof {
                done = done + 1;
            }

            if q == end {
                proof {
                    assert(done == toks.len());
                    assert(toks.take(done) =~= toks);
                }
                break;
            }
            pos = q + 1;
        }

        AnimatedElement { ranges, visible_from, last_known_step: last_known }
    }


    /// Builds the element from the step attribute of a markup node:
    /// a node without the attribute is not animated.
    pub fn try_from(step_spec: Option<&str>) -> (r: Option<AnimatedElement>)
        ensures
            match step_spec {
                Some(s) => r is Some && {
                    let e = r->0;
                    &&& e.steps_set() == spec_explicit_steps(spec_tokens(s.spec_bytes()))
                    &&& e.spec_visible_from() == spec_visible_from_of(spec_tokens(s.spec_bytes()))
                    &&& e.spec_last_known_step() as int == spec_last_known_of(
                        spec_tokens(s.spec_bytes()),
                    )
                },
                None => r is None,
            },
    {
        match step_spec {
            Some(s) => Some(AnimatedElement::parse(s)),
            None => None,
        }
    }

    /// Whether the element is visible at `step`: `step` is explicitly
    /// listed, or some open-ended range has begun. Ranges are unioned,
    /// never intersected.
    pub fn is_shown_in_step(&self, step: usize) -> (r: bool)
        ensures
            r == self.spec_visible_at(step as int),
    {
        if let Some(f) = self.visible_from {
            if step >= f {
                return true;
            }
        }
        let mut i: usize = 0;
        while i < self.ranges.len()
            invariant
                0 <= i <= self.ranges@.len(),
                forall|j: int| 0 <= j < i
                    ==> !((#[trigger] self.ranges@[j]).0 <= step <= self.ranges@[j].1),
            decreases self.ranges@.len() - i,
        {
            let (lo, hi) = self.ranges[i];
            if lo <= step && step <= hi {
                return true;
            }
            i = i + 1;
        }
        false
    }

    /// The maximum explicit boundary across all the element's ranges.
    pub fn last_known_step(&self) -> (r: usize)
        ensures
            r == self.spec_last_known_step(),
    {
        self.last_known_step
    }
}


} // verus!
