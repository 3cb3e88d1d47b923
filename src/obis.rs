//! OBIS identifiers: the dotted codes that name each data item of a
//! telegram, as in `1-0:96.7.21.255`.
use vstd::prelude::*;
use vstd::string::StringSliceAdditionalSpecFns;

verus! {

/// An OBIS identifier: value groups `a` and `b` are optional, `c`, `d` and
/// `e` are always there, and `f` is 255 when the text leaves it out.
#[derive(Debug, Clone, Copy, PartialEq, Eq, Structural)]
pub struct ObisIdentifier {
    pub a: Option<u8>,
    pub b: Option<u8>,
    pub c: u8,
    pub d: u8,
    pub e: u8,
    pub f: u8,
}

/// `-`, which follows value group `a`.
pub const A_DELIMITER: u8 = 45;

/// `:`, which follows value group `b`.
pub const B_DELIMITER: u8 = 58;

/// `.`, which separates value groups `c` to `f`.
pub const GROUP_DELIMITER: u8 = 46;

/// The value of `f` when the text leaves it out.
pub const DEFAULT_F: u8 = 255;

/// An ASCII decimal digit.
pub open spec fn is_digit(b: u8) -> bool {
    48 <= b <= 57
}

/// The decimal number that the digits `g` spell.
pub open spec fn digits_value(g: Seq<u8>) -> nat
    decreases g.len(),
{
    if g.len() == 0 {
        0
    } else {
        digits_value(g.drop_last()) * 10 + (g.last() - 48) as nat
    }
}

/// The end of the run of digits that starts at `i`.
pub open spec fn run_end(s: Seq<u8>, i: int) -> int
    decreases s.len() - i,
{
    if 0 <= i < s.len() && is_digit(s[i]) {
        run_end(s, i + 1)
    } else {
        i
    }
}

/// The value group at `i`: one to three digits whose value is at most 255,
/// and the index after them.
#[verifier::opaque]
pub open spec fn group_at(s: Seq<u8>, i: int) -> Option<(u8, int)> {
    let j = run_end(s, i);
    if 1 <= j - i <= 3 && digits_value(s.subrange(i, j)) <= 255 {
        Some((digits_value(s.subrange(i, j)) as u8, j))
    } else {
        None
    }
}

/// A value group at `i` followed by `delimiter`, and the index after both.
pub open spec fn group_then(s: Seq<u8>, i: int, delimiter: u8) -> Option<(u8, int)> {
    match group_at(s, i) {
        Some((v, j)) => {
            if j < s.len() && s[j] == delimiter {
                Some((v, j + 1))
            } else {
                None
            }
        },
        None => None,
    }
}

/// The identifier that the whole of `s` spells under
/// `[a "-"] [b ":"] c "." d "." e ["." f]`, if it spells one.
pub open spec fn spec_parse(s: Seq<u8>) -> Option<ObisIdentifier> {
    let (a, i) = match group_then(s, 0, A_DELIMITER) {
        Some((v, j)) => (Some(v), j),
        None => (None, 0),
    };
    let (b, i) = match group_then(s, i, B_DELIMITER) {
        Some((v, j)) => (Some(v), j),
        None => (None, i),
    };
    match group_then(s, i, GROUP_DELIMITER) {
        None => None,
        Some((c, i)) => match group_then(s, i, GROUP_DELIMITER) {
            None => None,
            Some((d, i)) => match group_at(s, i) {
                None => None,
                Some((e, i)) => {
                    if i == s.len() {
                        Some(ObisIdentifier { a, b, c, d, e, f: DEFAULT_F })
                    } else if s[i] == GROUP_DELIMITER {
                        match group_at(s, i + 1) {
                            Some((f, k)) => {
                                if k == s.len() {
                                    Some(ObisIdentifier { a, b, c, d, e, f })
                                } else {
                                    None
                                }
                            },
                            None => None,
                        }
                    } else {
                        None
                    }
                },
            },
        },
    }
}

/// The decimal digits of `n`, without leading zeros.
#[verifier::opaque]
pub open spec fn decimal(n: u8) -> Seq<u8> {
    if n >= 100 {
        seq![(48 + n / 100) as u8, (48 + n / 10 % 10) as u8, (48 + n % 10) as u8]
    } else if n >= 10 {
        seq![(48 + n / 10) as u8, (48 + n % 10) as u8]
    } else {
        seq![(48 + n) as u8]
    }
}

/// `a-` if value group `a` is there.
pub open spec fn a_part(v: ObisIdentifier) -> Seq<u8> {
    match v.a {
        Some(x) => decimal(x) + seq![A_DELIMITER],
        None => Seq::empty(),
    }
}

/// `b:` if value group `b` is there.
pub open spec fn b_part(v: ObisIdentifier) -> Seq<u8> {
    match v.b {
        Some(x) => decimal(x) + seq![B_DELIMITER],
        None => Seq::empty(),
    }
}

/// The text of `v` up to and including value group `e`.
pub open spec fn text_without_f(v: ObisIdentifier) -> Seq<u8> {
    a_part(v) + (b_part(v) + (decimal(v.c) + (seq![GROUP_DELIMITER] + (decimal(v.d) + (
    seq![GROUP_DELIMITER] + decimal(v.e))))))
}

/// The text of `v`: `a-` and `b:` only where present, then `c.d.e.f`.
pub open spec fn format_bytes(v: ObisIdentifier) -> Seq<u8> {
    text_without_f(v) + (seq![GROUP_DELIMITER] + decimal(v.f))
}

/// ASCII bytes read as characters.
pub open spec fn text_of(b: Seq<u8>) -> Seq<char> {
    b.map_values(|x: u8| x as char)
}

/// A value group found by the executable reader, with its index as an integer.
pub open spec fn lift(r: Option<(u8, usize)>) -> Option<(u8, int)> {
    match r {
        Some((v, j)) => Some((v, j as int)),
        None => None,
    }
}

fn digit_run_end(s: &[u8], i: usize) -> (j: usize)
    requires
        i <= s@.len(),
    ensures
        j as int == run_end(s@, i as int),
        i <= j <= s@.len(),
{
    let mut j = i;
    while j < s.len() && 48 <= s[j] && s[j] <= 57
        invariant
            i <= j <= s@.len(),
            run_end(s@, i as int) == run_end(s@, j as int),
        decreases s@.len() - j,
    {
        j += 1;
    }
    j
}

fn value_group(s: &[u8], i: usize) -> (r: Option<(u8, usize)>)
    requires
        i <= s@.len(),
    ensures
        lift(r) == group_at(s@, i as int),
        r matches Some((_, j)) ==> i < j <= s@.len(),
{
    let j = digit_run_end(s, i);
    proof {
        lemma_run_digits(s@, i as int);
        reveal(group_at);
    }
    if j == i || j - i > 3 {
        return None;
    }
    let mut v: u32 = 0;
    let mut k = i;
    while k < j
        invariant
            i <= k <= j <= s@.len(),
            j - i <= 3,
            v as nat == digits_value(s@.subrange(i as int, k as int)),
            k - i == 0 ==> v == 0,
            k - i == 1 ==> v < 10,
            k - i == 2 ==> v < 100,
            k - i == 3 ==> v < 1000,
            forall|m: int| i <= m < j ==> is_digit(#[trigger] s@[m]),
        decreases j - k,
    {
        let ghost before = s@.subrange(i as int, k as int);
        assert(s@.subrange(i as int, k + 1).drop_last() =~= before);
        v = v * 10 + (s[k] - 48) as u32;
        k += 1;
    }
    if v <= 255 {
        Some((v as u8, j))
    } else {
        None
    }
}

proof fn lemma_run_digits(s: Seq<u8>, i: int)
    requires
        0 <= i <= s.len(),
    ensures
        i <= run_end(s, i) <= s.len(),
        forall|m: int| i <= m < run_end(s, i) ==> is_digit(#[trigger] s[m]),
    decreases s.len() - i,
{
    if i < s.len() && is_digit(s[i]) {
        lemma_run_digits(s, i + 1);
    }
}

fn group_followed_by(s: &[u8], i: usize, delimiter: u8) -> (r: Option<(u8, usize)>)
    requires
        i <= s@.len(),
    ensures
        lift(r) == group_then(s@, i as int, delimiter),
        r matches Some((_, j)) ==> i < j <= s@.len(),
{
    match value_group(s, i) {
        Some((v, j)) => {
            if j < s.len() && s[j] == delimiter {
                Some((v, j + 1))
            } else {
                None
            }
        },
        None => None,
    }
}


proof fn lemma_decimal(n: u8)
    ensures
        1 <= decimal(n).len() <= 3,
        forall|m: int| 0 <= m < decimal(n).len() ==> is_digit(#[trigger] decimal(n)[m]),
        digits_value(decimal(n)) == n,
{
    reveal_with_fuel(digits_value, 4);
    reveal(decimal);
    let g = decimal(n);
    if n >= 100 {
        assert(g.drop_last() =~= seq![g[0], g[1]]);
        assert(g.drop_last().drop_last() =~= seq![g[0]]);
        assert(g.drop_last().drop_last().drop_last() =~= Seq::<u8>::empty());
        assert(n == (n / 100) * 100 + (n / 10 % 10) * 10 + n % 10);
    } else if n >= 10 {
        assert(g.drop_last() =~= seq![g[0]]);
        assert(g.drop_last().drop_last() =~= Seq::<u8>::empty());
    } else {
        assert(g.drop_last() =~= Seq::<u8>::empty());
    }
}

proof fn lemma_run_end_exact(s: Seq<u8>, i: int, j: int)
    requires
        0 <= i <= j <= s.len(),
        forall|m: int| i <= m < j ==> is_digit(#[trigger] s[m]),
        j == s.len() || !is_digit(s[j]),
    ensures
        run_end(s, i) == j,
    decreases j - i,
{
    if i < j {
        lemma_run_end_exact(s, i + 1, j);
    }
}

/// The digits of `n` at `i` of `s`, followed by the end or by a non-digit,
/// read back as the value group `n`.
proof fn lemma_group(s: Seq<u8>, i: int, n: u8)
    requires
        0 <= i,
        i + decimal(n).len() <= s.len(),
        s.subrange(i, i + decimal(n).len()) == decimal(n),
        i + decimal(n).len() == s.len() || !is_digit(s[i + decimal(n).len()]),
    ensures
        group_at(s, i) == Some((n, i + decimal(n).len())),
{
    let j = i + decimal(n).len();
    lemma_decimal(n);
    assert forall|m: int| i <= m < j implies is_digit(#[trigger] s[m]) by {
        assert(s[m] == s.subrange(i, j)[m - i]);
    }
    lemma_run_end_exact(s, i, j);
    reveal(group_at);
}

/// A value group moved `k` places to the right.
pub open spec fn shifted(o: Option<(u8, int)>, k: int) -> Option<(u8, int)> {
    match o {
        Some((v, j)) => Some((v, j + k)),
        None => None,
    }
}

proof fn lemma_run_end_shift(x: Seq<u8>, y: Seq<u8>, j: int)
    requires
        0 <= j <= y.len(),
    ensures
        run_end(x + y, x.len() + j) == x.len() + run_end(y, j),
    decreases y.len() - j,
{
    if j < y.len() {
        assert((x + y)[x.len() + j] == y[j]);
        lemma_run_end_shift(x, y, j + 1);
    }
}

/// A value group read inside `y` reads the same inside `x + y`.
proof fn lemma_group_shift(x: Seq<u8>, y: Seq<u8>, j: int)
    requires
        0 <= j <= y.len(),
    ensures
        group_at(x + y, x.len() + j) == shifted(group_at(y, j), x.len() as int),
        forall|d: u8|
            group_then(x + y, x.len() + j, d) == shifted(
                #[trigger] group_then(y, j, d),
                x.len() as int,
            ),
{
    reveal(group_at);
    lemma_run_end_shift(x, y, j);
    lemma_run_digits(y, j);
    let k = run_end(y, j);
    assert((x + y).subrange(x.len() + j, x.len() + k) =~= y.subrange(j, k));
    assert forall|d: u8|
        group_then(x + y, x.len() + j, d) == shifted(
            #[trigger] group_then(y, j, d),
            x.len() as int,
        ) by {
        if k < y.len() {
            assert((x + y)[x.len() + k] == y[k]);
        }
    }
}

/// The digits of `n` at the head of a text, followed by the end or by a
/// non-digit, read as the value group `n`.
proof fn lemma_group_head(n: u8, z: Seq<u8>)
    requires
        z.len() == 0 || !is_digit(z[0]),
    ensures
        group_at(decimal(n) + z, 0) == Some((n, decimal(n).len() as int)),
{
    let s = decimal(n) + z;
    lemma_decimal(n);
    assert(s.subrange(0, decimal(n).len() as int) =~= decimal(n));
    if z.len() > 0 {
        assert(s[decimal(n).len() as int] == z[0]);
    }
    lemma_group(s, 0, n);
}

/// The text of `v` up to value group `e`, followed by `rest`.
pub open spec fn text_with_rest(v: ObisIdentifier, rest: Seq<u8>) -> Seq<u8> {
    let dot = seq![GROUP_DELIMITER];
    a_part(v) + (b_part(v) + (decimal(v.c) + (dot + (decimal(v.d) + (dot + (decimal(v.e)
        + rest))))))
}

/// Value groups `c`, `d` and `e` of `v` in a text that holds its groups up
/// to `e` and goes on with `rest`, which is empty or starts with `.`.
proof fn lemma_groups_cde(v: ObisIdentifier, rest: Seq<u8>)
    requires
        rest.len() == 0 || rest[0] == GROUP_DELIMITER,
    ensures
        ({
            let s = text_with_rest(v, rest);
            let pc = a_part(v).len() + b_part(v).len() as int;
            let pd = pc + decimal(v.c).len() + 1;
            let pe = pd + decimal(v.d).len() + 1;
            &&& group_then(s, pc, GROUP_DELIMITER) == Some((v.c, pd))
            &&& group_then(s, pd, GROUP_DELIMITER) == Some((v.d, pe))
            &&& group_at(s, pe) == Some((v.e, pe + decimal(v.e).len()))
        }),
{
    let dot = seq![GROUP_DELIMITER];
    let s_e = decimal(v.e) + rest;
    let s_d = decimal(v.d) + (dot + s_e);
    let s_c = decimal(v.c) + (dot + s_d);
    let s_b = b_part(v) + s_c;
    lemma_decimal(v.c);
    lemma_decimal(v.d);
    lemma_decimal(v.e);
    let ld = decimal(v.d).len() as int;
    let lc = decimal(v.c).len() as int;
    lemma_group_head(v.e, rest);
    lemma_group_shift(dot, s_e, 0);
    lemma_group_shift(decimal(v.d), dot + s_e, 1);
    lemma_group_shift(dot, s_d, ld + 1);
    lemma_group_shift(decimal(v.c), dot + s_d, ld + 2);
    lemma_group_shift(b_part(v), s_c, lc + ld + 2);
    lemma_group_shift(a_part(v), s_b, b_part(v).len() + lc + ld + 2);
    lemma_group_head(v.d, dot + s_e);
    lemma_group_shift(dot, s_d, 0);
    lemma_group_shift(decimal(v.c), dot + s_d, 1);
    lemma_group_shift(b_part(v), s_c, lc + 1);
    lemma_group_shift(a_part(v), s_b, b_part(v).len() + lc + 1);
    lemma_group_head(v.c, dot + s_d);
    lemma_group_shift(b_part(v), s_c, 0);
    lemma_group_shift(a_part(v), s_b, b_part(v).len() as int);
}

/// Value groups `a` and `b` of `v` in the same text.
proof fn lemma_groups_ab(v: ObisIdentifier, rest: Seq<u8>)
    requires
        rest.len() == 0 || rest[0] == GROUP_DELIMITER,
    ensures
        ({
            let s = text_with_rest(v, rest);
            let pb = a_part(v).len() as int;
            let pc = pb + b_part(v).len();
            &&& group_then(s, 0, A_DELIMITER) == match v.a {
                Some(x) => Some((x, pb)),
                None => None,
            }
            &&& group_then(s, pb, B_DELIMITER) == match v.b {
                Some(x) => Some((x, pc)),
                None => None,
            }
        }),
{
    let dot = seq![GROUP_DELIMITER];
    let s_c = decimal(v.c) + (dot + (decimal(v.d) + (dot + (decimal(v.e) + rest))));
    let s_b = b_part(v) + s_c;
    let s = a_part(v) + s_b;
    assert(s == text_with_rest(v, rest));
    lemma_decimal(v.c);
    lemma_group_head(v.c, dot + (decimal(v.d) + (dot + (decimal(v.e) + rest))));
    assert(s_c[decimal(v.c).len() as int] == GROUP_DELIMITER);
    if let Some(x) = v.b {
        lemma_decimal(x);
        assert(s_b =~= decimal(x) + (seq![B_DELIMITER] + s_c));
        lemma_group_head(x, seq![B_DELIMITER] + s_c);
        assert(s_b[decimal(x).len() as int] == B_DELIMITER);
    } else {
        assert(s_b =~= s_c);
    }
    lemma_group_shift(a_part(v), s_b, 0);
    if let Some(x) = v.a {
        lemma_decimal(x);
        assert(s =~= decimal(x) + (seq![A_DELIMITER] + s_b));
        lemma_group_head(x, seq![A_DELIMITER] + s_b);
        assert(s[decimal(x).len() as int] == A_DELIMITER);
    } else {
        assert(s =~= s_b);
    }
}

/// Reading back the text of any identifier gives that identifier.
pub proof fn lemma_round_trip(v: ObisIdentifier)
    ensures
        spec_parse(format_bytes(v)) == Some(v),
{
    let dot = seq![GROUP_DELIMITER];
    let rest = dot + decimal(v.f);
    let s = text_with_rest(v, rest);
    assert(format_bytes(v) =~= s);
    lemma_groups_cde(v, rest);
    lemma_groups_ab(v, rest);
    lemma_group_head(v.f, Seq::empty());
    let t = text_without_f(v);
    assert(s =~= t + rest);
    assert(decimal(v.f) + Seq::<u8>::empty() =~= decimal(v.f));
    lemma_group_shift(t + dot, decimal(v.f), 0);
    assert(t + rest =~= (t + dot) + decimal(v.f));
}

/// Text that leaves out value group `f` reads as the same text with `f`
/// written out as 255.
pub proof fn lemma_default_group(v: ObisIdentifier)
    requires
        v.f == DEFAULT_F,
    ensures
        spec_parse(text_without_f(v)) == spec_parse(format_bytes(v)),
        spec_parse(text_without_f(v)) == Some(v),
{
    let dot = seq![GROUP_DELIMITER];
    let rest = Seq::<u8>::empty();
    let s = text_with_rest(v, rest);
    assert(text_without_f(v) =~= s);
    lemma_groups_cde(v, rest);
    lemma_groups_ab(v, rest);
    lemma_round_trip(v);
}

/// The UTF-8 bytes of ASCII text are the bytes it was made of.
pub proof fn lemma_ascii_text(b: Seq<u8>)
    requires
        forall|i: int| 0 <= i < b.len() ==> b[i] < 128,
    ensures
        vstd::utf8::encode_utf8(text_of(b)) == b,
{
    let t = text_of(b);
    assert(vstd::utf8::is_ascii_chars(t));
    vstd::utf8::is_ascii_chars_encode_utf8(t);
    assert(vstd::utf8::encode_utf8(t) =~= b);
}

/// The text that `to_string` writes for `v` reads back as `v`.
pub proof fn lemma_to_string_round_trip(v: ObisIdentifier)
    ensures
        spec_parse(vstd::utf8::encode_utf8(text_of(format_bytes(v)))) == Some(v),
{
    let b = format_bytes(v);
    assert forall|i: int| 0 <= i < b.len() implies b[i] < 128 by {
        lemma_format_ascii(v, i);
    }
    lemma_ascii_text(b);
    lemma_round_trip(v);
}

/// A run of digits that starts at `i` cannot lie inside a value group that
/// the grammar reads at `p`, unless it starts there.
proof fn lemma_run_outside_group(s: Seq<u8>, i: int, p: int)
    requires
        0 <= i < s.len(),
        i == 0 || !is_digit(s[i - 1]),
        run_end(s, i) - i > 3 || digits_value(s.subrange(i, run_end(s, i))) > 255,
        0 <= p <= s.len(),
    ensures
        match group_at(s, p) {
            Some((_, end)) => !(p <= i < end),
            None => true,
        },
{
    reveal(group_at);
    lemma_run_digits(s, p);
    if let Some((_, end)) = group_at(s, p) {
        if p < i && i < end {
            assert(is_digit(s[i - 1]));
        }
    }
}

proof fn lemma_group_bounds(s: Seq<u8>, p: int)
    requires
        0 <= p,
    ensures
        group_at(s, p) matches Some((_, end)) ==> p < end <= s.len(),
{
    reveal(group_at);
    if p <= s.len() {
        lemma_run_digits(s, p);
    }
}

/// Text with a run of digits longer than three, or worth more than 255,
/// spells no identifier.
pub proof fn lemma_oversized_group(s: Seq<u8>, i: int)
    requires
        0 <= i < s.len(),
        is_digit(s[i]),
        i == 0 || !is_digit(s[i - 1]),
        run_end(s, i) - i > 3 || digits_value(s.subrange(i, run_end(s, i))) > 255,
    ensures
        spec_parse(s) is None,
{
    lemma_group_bounds(s, 0);
    let (a, i1) = match group_then(s, 0, A_DELIMITER) {
        Some((v, j)) => (Some(v), j),
        None => (None, 0),
    };
    lemma_group_bounds(s, i1);
    if a is Some {
        lemma_run_outside_group(s, i, 0);
    }
    let (b, i2) = match group_then(s, i1, B_DELIMITER) {
        Some((v, j)) => (Some(v), j),
        None => (None, i1),
    };
    lemma_group_bounds(s, i2);
    if b is Some {
        lemma_run_outside_group(s, i, i1);
    }
    if let Some((c, i3)) = group_then(s, i2, GROUP_DELIMITER) {
        lemma_run_outside_group(s, i, i2);
        lemma_group_bounds(s, i3);
        if let Some((d, i4)) = group_then(s, i3, GROUP_DELIMITER) {
            lemma_run_outside_group(s, i, i3);
            lemma_group_bounds(s, i4);
            if let Some((e, i5)) = group_at(s, i4) {
                lemma_run_outside_group(s, i, i4);
                lemma_group_bounds(s, i5 + 1);
                if i5 < s.len() && s[i5] == GROUP_DELIMITER && group_at(s, i5 + 1) is Some {
                    lemma_run_outside_group(s, i, i5 + 1);
                }
            }
        }
    }
}

proof fn lemma_concat_ascii(x: Seq<u8>, y: Seq<u8>)
    requires
        forall|i: int| 0 <= i < x.len() ==> x[i] < 128,
        forall|i: int| 0 <= i < y.len() ==> y[i] < 128,
    ensures
        forall|i: int| 0 <= i < (x + y).len() ==> (x + y)[i] < 128,
{
    assert forall|i: int| 0 <= i < (x + y).len() implies (x + y)[i] < 128 by {
        if i >= x.len() {
            assert((x + y)[i] == y[i - x.len()]);
        }
    }
}

proof fn lemma_piece_ascii(n: u8, delimiter: u8)
    requires
        delimiter < 128,
    ensures
        forall|i: int| 0 <= i < decimal(n).len() ==> decimal(n)[i] < 128,
        forall|i: int| 0 <= i < decimal(n).push(delimiter).len() ==> decimal(n).push(delimiter)[i] < 128,
{
    lemma_decimal(n);
}

proof fn lemma_format_ascii(v: ObisIdentifier, i: int)
    requires
        0 <= i < format_bytes(v).len(),
    ensures
        format_bytes(v)[i] < 128,
{
    let a_part = match v.a {
        Some(x) => decimal(x).push(A_DELIMITER),
        None => Seq::empty(),
    };
    let b_part = match v.b {
        Some(x) => decimal(x).push(B_DELIMITER),
        None => Seq::empty(),
    };
    if let Some(x) = v.a {
        lemma_piece_ascii(x, A_DELIMITER);
    }
    if let Some(x) = v.b {
        lemma_piece_ascii(x, B_DELIMITER);
    }
    lemma_piece_ascii(v.c, GROUP_DELIMITER);
    lemma_piece_ascii(v.d, GROUP_DELIMITER);
    lemma_piece_ascii(v.e, GROUP_DELIMITER);
    lemma_piece_ascii(v.f, GROUP_DELIMITER);
    lemma_concat_ascii(a_part, b_part);
    lemma_concat_ascii(a_part + b_part, decimal(v.c).push(GROUP_DELIMITER));
    let upto_c = a_part + b_part + decimal(v.c).push(GROUP_DELIMITER);
    lemma_concat_ascii(upto_c, decimal(v.d).push(GROUP_DELIMITER));
    let upto_d = upto_c + decimal(v.d).push(GROUP_DELIMITER);
    lemma_concat_ascii(upto_d, decimal(v.e).push(GROUP_DELIMITER));
    let upto_e = upto_d + decimal(v.e).push(GROUP_DELIMITER);
    lemma_concat_ascii(upto_e, decimal(v.f));
    assert(format_bytes(v) =~= upto_e + decimal(v.f));
}

fn digit_text(d: u8) -> (r: &'static str)
    requires
        d < 10,
    ensures
        r@ == text_of(seq![(48 + d) as u8]),
{
    let r = match d {
        0 => "0",
        1 => "1",
        2 => "2",
        3 => "3",
        4 => "4",
        5 => "5",
        6 => "6",
        7 => "7",
        8 => "8",
        _ => "9",
    };
    proof {
        reveal_strlit("0");
        reveal_strlit("1");
        reveal_strlit("2");
        reveal_strlit("3");
        reveal_strlit("4");
        reveal_strlit("5");
        reveal_strlit("6");
        reveal_strlit("7");
        reveal_strlit("8");
        reveal_strlit("9");
        assert(r@ =~= text_of(seq![(48 + d) as u8]));
    }
    r
}

fn push_text(s: &mut String, piece: &str, Ghost(b): Ghost<Seq<u8>>, Ghost(whole): Ghost<Seq<u8>>)
    requires
        old(s)@ == text_of(whole),
        piece@ == text_of(b),
    ensures
        final(s)@ == text_of(whole + b),
{
    s.append(piece);
    assert(text_of(whole) + text_of(b) =~= text_of(whole + b));
}

fn push_decimal(s: &mut String, n: u8, Ghost(whole): Ghost<Seq<u8>>)
    requires
        old(s)@ == text_of(whole),
    ensures
        final(s)@ == text_of(whole + decimal(n)),
{
    let ghost hundreds = seq![(48 + n / 100) as u8];
    let ghost tens = seq![(48 + n / 10 % 10) as u8];
    let ghost ones = seq![(48 + n % 10) as u8];
    if n >= 100 {
        push_text(s, digit_text(n / 100), Ghost(hundreds), Ghost(whole));
    }
    let ghost w1 = if n >= 100 { whole + hundreds } else { whole };
    if n >= 10 {
        push_text(s, digit_text(n / 10 % 10), Ghost(tens), Ghost(w1));
    }
    let ghost w2 = if n >= 10 { w1 + tens } else { w1 };
    push_text(s, digit_text(n % 10), Ghost(ones), Ghost(w2));
    reveal(decimal);
    assert(w2 + ones =~= whole + decimal(n));
}

fn push_delimiter(s: &mut String, delimiter: u8, Ghost(whole): Ghost<Seq<u8>>)
    requires
        old(s)@ == text_of(whole),
        delimiter == A_DELIMITER || delimiter == B_DELIMITER || delimiter == GROUP_DELIMITER,
    ensures
        final(s)@ == text_of(whole.push(delimiter)),
{
    let piece = if delimiter == A_DELIMITER {
        "-"
    } else if delimiter == B_DELIMITER {
        ":"
    } else {
        "."
    };
    proof {
        reveal_strlit("-");
        reveal_strlit(":");
        reveal_strlit(".");
        assert(piece@ =~= text_of(seq![delimiter]));
        assert(whole + seq![delimiter] =~= whole.push(delimiter));
    }
    let ghost one = seq![delimiter];
    push_text(s, piece, Ghost(one), Ghost(whole));
}

impl ObisIdentifier {
    /// The text of the identifier; `f` is always written out.
    pub fn to_string(&self) -> (r: String)
        ensures
            r@ == text_of(format_bytes(*self)),
    {
        let mut s = String::new();
        let ghost t: Seq<u8> = Seq::empty();
        assert(s@ =~= text_of(t));
        if let Some(a) = self.a {
            push_decimal(&mut s, a, Ghost(t));
            push_delimiter(&mut s, A_DELIMITER, Ghost(t + decimal(a)));
            proof {
                t = t + decimal(a).push(A_DELIMITER);
                assert(t =~= (Seq::<u8>::empty() + decimal(a)).push(A_DELIMITER));
            }
        }
        let ghost ta = t;
        if let Some(b) = self.b {
            push_decimal(&mut s, b, Ghost(t));
            push_delimiter(&mut s, B_DELIMITER, Ghost(t + decimal(b)));
            proof {
                t = t + decimal(b).push(B_DELIMITER);
                assert(t =~= (ta + decimal(b)).push(B_DELIMITER));
            }
        }
        let ghost tb = t;
        push_decimal(&mut s, self.c, Ghost(t));
        push_delimiter(&mut s, GROUP_DELIMITER, Ghost(t + decimal(self.c)));
        proof {
            t = t + decimal(self.c).push(GROUP_DELIMITER);
            assert(t =~= (tb + decimal(self.c)).push(GROUP_DELIMITER));
        }
        let ghost tc = t;
        push_decimal(&mut s, self.d, Ghost(t));
        push_delimiter(&mut s, GROUP_DELIMITER, Ghost(t + decimal(self.d)));
        proof {
            t = t + decimal(self.d).push(GROUP_DELIMITER);
            assert(t =~= (tc + decimal(self.d)).push(GROUP_DELIMITER));
        }
        let ghost td = t;
        push_decimal(&mut s, self.e, Ghost(t));
        push_delimiter(&mut s, GROUP_DELIMITER, Ghost(t + decimal(self.e)));
        proof {
            t = t + decimal(self.e).push(GROUP_DELIMITER);
        }
        push_decimal(&mut s, self.f, Ghost(t));
        proof {
            let a_part = match self.a {
                Some(x) => decimal(x).push(A_DELIMITER),
                None => Seq::empty(),
            };
            let b_part = match self.b {
                Some(x) => decimal(x).push(B_DELIMITER),
                None => Seq::empty(),
            };
            assert(ta =~= a_part);
            assert(tb =~= a_part + b_part);
            assert(t + decimal(self.f) =~= format_bytes(*self));
        }
        s
    }

    /// Reads an identifier from the whole of `id`; `None` if `id` does not
    /// spell one, or a value group is over 255.
    pub fn parse(id: &str) -> (r: Option<ObisIdentifier>)
        ensures
            r == spec_parse(id.spec_bytes()),
    {
        let s = id.as_bytes();
        let (a, i) = match group_followed_by(s, 0, A_DELIMITER) {
            Some((v, j)) => (Some(v), j),
            None => (None, 0),
        };
        let (b, i) = match group_followed_by(s, i, B_DELIMITER) {
            Some((v, j)) => (Some(v), j),
            None => (None, i),
        };
        let (c, i) = match group_followed_by(s, i, GROUP_DELIMITER) {
            Some(x) => x,
            None => return None,
        };
        let (d, i) = match group_followed_by(s, i, GROUP_DELIMITER) {
            Some(x) => x,
            None => return None,
        };
        let (e, i) = match value_group(s, i) {
            Some(x) => x,
            None => return None,
        };
        if i == s.len() {
            return Some(ObisIdentifier { a, b, c, d, e, f: DEFAULT_F });
        }
        if s[i] != GROUP_DELIMITER {
            return None;
        }
        match value_group(s, i + 1) {
            Some((f, k)) => {
                if k == s.len() {
                    Some(ObisIdentifier { a, b, c, d, e, f })
                } else {
                    None
                }
            },
            None => None,
        }
    }
}

} // verus!
