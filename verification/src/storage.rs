//! The save-file format. A save is text: a header line `MC1 <seed>`, a
//! player line `<x> <y> <z> <yaw> <pitch> <fly> <run>` and one line
//! `<x> <y> <z> <block id>` per edited block. Tokens are separated by any
//! Unicode white space. The player's position and view angles are kept as
//! the decimal text of their floating-point values.
use vstd::prelude::*;
use crate::blocks::MAX_BLOCK_ID;
use crate::chunk::CH;

verus! {

broadcast use vstd::string::group_string_axioms;

/// The characters of `s`.
pub fn chars_of(s: &str) -> (v: Vec<char>)
    ensures
        v@ == s@,
{
    let mut v: Vec<char> = Vec::new();
    for c in it: s.chars()
        invariant
            v@ == it.seq().take(it.index() as int),
            it.seq() == s@,
    {
        v.push(c);
    }
    v
}

/// White space in the sense of Unicode's White_Space property.
pub open spec fn spec_is_space(c: char) -> bool {
    let u = c as int;
    ||| 0x9 <= u <= 0xD
    ||| u == 0x20
    ||| u == 0x85
    ||| u == 0xA0
    ||| u == 0x1680
    ||| 0x2000 <= u <= 0x200A
    ||| u == 0x2028
    ||| u == 0x2029
    ||| u == 0x202F
    ||| u == 0x205F
    ||| u == 0x3000
}

/// Whether `c` is white space (Unicode White_Space).
pub fn is_space(c: char) -> (r: bool)
    ensures
        r == spec_is_space(c),
{
    let u = c as u32;
    (0x9 <= u && u <= 0xD) || u == 0x20 || u == 0x85 || u == 0xA0 || u == 0x1680 || (0x2000 <= u && u
        <= 0x200A) || u == 0x2028 || u == 0x2029 || u == 0x202F || u == 0x205F || u == 0x3000
}

/// Length of the run of non-space characters at the start of `s`.
pub open spec fn word_len(s: Seq<char>) -> nat
    decreases s.len(),
{
    if s.len() == 0 || spec_is_space(s[0]) {
        0
    } else {
        1 + word_len(s.skip(1))
    }
}

/// The maximal runs of non-space characters of `s`, in order.
pub open spec fn tokens(s: Seq<char>) -> Seq<Seq<char>>
    decreases s.len(),
{
    if s.len() == 0 {
        seq![]
    } else if spec_is_space(s[0]) {
        tokens(s.skip(1))
    } else {
        let n = word_len(s);
        proof {
            lemma_word_len_bounds(s);
        }
        seq![s.take(n as int)] + tokens(s.skip(n as int))
    }
}

pub proof fn lemma_word_len_bounds(s: Seq<char>)
    ensures
        word_len(s) <= s.len(),
        s.len() > 0 && !spec_is_space(s[0]) ==> word_len(s) >= 1,
        forall|i: int| 0 <= i < word_len(s) ==> !spec_is_space(#[trigger] s[i]),
        word_len(s) < s.len() ==> spec_is_space(s[word_len(s) as int]),
    decreases s.len(),
{
    if s.len() > 0 && !spec_is_space(s[0]) {
        lemma_word_len_bounds(s.skip(1));
        assert forall|i: int| 0 <= i < word_len(s) implies !spec_is_space(#[trigger] s[i]) by {
            if i > 0 {
                assert(s[i] == s.skip(1)[i - 1]);
            }
        }
        if word_len(s) < s.len() {
            assert(s[word_len(s) as int] == s.skip(1)[word_len(s.skip(1)) as int]);
        }
    }
}

/// The tokens of `s` after a word `cur` that continues into `r`.
pub open spec fn tokens_after(cur: Seq<char>, r: Seq<char>) -> Seq<Seq<char>> {
    if cur.len() == 0 {
        tokens(r)
    } else {
        seq![cur + r.take(word_len(r) as int)] + tokens(r.skip(word_len(r) as int))
    }
}

/// Splits `s` into its tokens.
pub fn tokenize(s: &Vec<char>) -> (r: Vec<Vec<char>>)
    ensures
        r@.len() == tokens(s@).len(),
        forall|j: int| 0 <= j < r@.len() ==> (#[trigger] r@[j])@ == tokens(s@)[j],
{
    let mut out: Vec<Vec<char>> = Vec::new();
    let mut cur: Vec<char> = Vec::new();
    let ghost outs: Seq<Seq<char>> = seq![];
    let mut i: usize = 0;
    proof {
        assert(s@.skip(0) =~= s@);
        assert(outs + tokens(s@) =~= tokens(s@));
    }
    while i < s.len()
        invariant
            i <= s@.len(),
            out@.len() == outs.len(),
            forall|j: int| 0 <= j < out@.len() ==> (#[trigger] out@[j])@ == outs[j],
            outs + tokens_after(cur@, s@.skip(i as int)) == tokens(s@),
            forall|k: int| 0 <= k < cur@.len() ==> !spec_is_space(#[trigger] cur@[k]),
        decreases s@.len() - i,
    {
        let c = s[i];
        let ghost r = s@.skip(i as int);
        let ghost r1 = s@.skip(i + 1);
        assert(r[0] == c);
        assert(r.skip(1) =~= r1);
        if is_space(c) {
            if cur.len() > 0 {
                proof {
                    assert(word_len(r) == 0);
                    assert(r.take(0) =~= seq![]);
                    assert(cur@ + r.take(0) =~= cur@);
                    assert(r.skip(0) =~= r);
                    outs = outs.push(cur@);
                    assert(tokens(r) == tokens(r1));
                }
                out.push(cur);
                cur = Vec::new();
                proof {
                    assert(tokens_after(cur@, r1) == tokens(r1));
                    assert(outs + tokens_after(cur@, r1) =~= (outs.drop_last() + seq![outs.last()]) + tokens(r1));
                }
            } else {
                proof {
                    assert(tokens(r) == tokens(r1));
                }
            }
        } else {
            let ghost cur0 = cur@;
            proof {
                lemma_word_len_bounds(r);
                lemma_word_len_bounds(r1);
                assert(word_len(r) == 1 + word_len(r1));
                let n = word_len(r);
                assert(r.take(n as int) =~= seq![c] + r1.take(word_len(r1) as int));
                assert(r.skip(n as int) =~= r1.skip(word_len(r1) as int));
            }
            cur.push(c);
            proof {
                let n = word_len(r);
                assert(cur@ =~= cur0 + seq![c]);
                assert(cur@ + r1.take(word_len(r1) as int) =~= cur0 + r.take(n as int));
                if cur0.len() == 0 {
                    assert(cur0 + r.take(n as int) =~= r.take(n as int));
                }
            }
        }
        i += 1;
    }
    proof {
        assert(s@.skip(i as int) =~= seq![]);
        let e: Seq<char> = seq![];
        assert(word_len(e) == 0);
        assert(e.take(0) =~= e);
        assert(cur@ + e.take(0) =~= cur@);
    }
    if cur.len() > 0 {
        proof {
            outs = outs.push(cur@);
        }
        out.push(cur);
    }
    proof {
        assert(outs =~= tokens(s@));
    }
    out
}

pub open spec fn is_digit(c: char) -> bool {
    '0' <= c <= '9'
}

pub open spec fn digit_val(c: char) -> int {
    c as int - '0' as int
}

/// The value of a run of decimal digits (most significant first).
pub open spec fn digits_value(s: Seq<char>) -> int
    decreases s.len(),
{
    if s.len() == 0 {
        0
    } else {
        digits_value(s.drop_last()) * 10 + digit_val(s.last())
    }
}

pub open spec fn all_digits(s: Seq<char>) -> bool {
    forall|i: int| 0 <= i < s.len() ==> is_digit(#[trigger] s[i])
}

/// The integer written by `t`: an optional sign (`-` only when `signed`)
/// followed by at least one decimal digit.
pub open spec fn int_value(t: Seq<char>, signed: bool) -> Option<int> {
    if t.len() == 0 {
        None
    } else {
        let neg = signed && t[0] == '-';
        let ds = if t[0] == '+' || neg {
            t.skip(1)
        } else {
            t
        };
        if ds.len() > 0 && all_digits(ds) {
            Some(
                if neg {
                    -digits_value(ds)
                } else {
                    digits_value(ds)
                },
            )
        } else {
            None
        }
    }
}

/// Integer parsing as `str::parse` does it for an integer type whose range
/// is `lo..=hi` (signed types take a leading `-`).
pub open spec fn int_in(t: Seq<char>, signed: bool, lo: int, hi: int) -> Option<int> {
    match int_value(t, signed) {
        Some(v) => if lo <= v <= hi {
            Some(v)
        } else {
            None
        },
        None => None,
    }
}

/// Parses `t` as an integer in `lo..=hi`.
pub fn parse_int(t: &Vec<char>, signed: bool, lo: i64, hi: i64) -> (r: Option<i64>)
    requires
        -0x1_0000_0000 <= lo <= hi <= 0x1_0000_0000,
    ensures
        r matches Some(v) ==> int_in(t@, signed, lo as int, hi as int) == Some(v as int),
        r is None ==> int_in(t@, signed, lo as int, hi as int) is None,
{
    let n = t.len();
    if n == 0 {
        return None;
    }
    let mut i: usize = 0;
    let mut neg = false;
    if t[0] == '+' {
        i = 1;
    } else if signed && t[0] == '-' {
        neg = true;
        i = 1;
    }
    if i >= n {
        return None;
    }
    let start = i;
    let ghost ds = t@.skip(start as int);
    assert(neg == (signed && t@[0] == '-'));
    assert(ds =~= if t@[0] == '+' || neg { t@.skip(1) } else { t@ });
    let cap: i64 = 0x2_0000_0000;
    let mut v: i64 = 0;
    let mut ok = true;
    proof {
        assert(ds.take(0) =~= seq![]);
    }
    while i < n
        invariant
            start <= i <= n,
            n == t@.len(),
            ds == t@.skip(start as int),
            cap == 0x2_0000_0000,
            ok == all_digits(ds.take(i - start)),
            ok ==> 0 <= v <= cap,
            ok ==> v == if digits_value(ds.take(i - start)) < cap {
                digits_value(ds.take(i - start))
            } else {
                cap as int
            },
            ok ==> digits_value(ds.take(i - start)) >= 0,
        decreases n - i,
    {
        let c = t[i];
        let ghost k = i - start;
        proof {
            assert(ds.take(k + 1).drop_last() =~= ds.take(k));
            assert(ds.take(k + 1).last() == c);
        }
        if ok {
            if '0' <= c && c <= '9' {
                let d = (c as u32 - '0' as u32) as i64;
                let w = v * 10 + d;
                v = if w < cap {
                    w
                } else {
                    cap
                };
                proof {
                    assert(all_digits(ds.take(k + 1))) by {
                        assert forall|j: int| 0 <= j < k + 1 implies is_digit(#[trigger] ds.take(k + 1)[j]) by {
                            if j < k {
                                assert(ds.take(k + 1)[j] == ds.take(k)[j]);
                            }
                        }
                    }
                }
            } else {
                ok = false;
            }
        } else {
            proof {
                let j = choose|j: int| 0 <= j < k && !is_digit(#[trigger] ds.take(k)[j]);
                assert(ds.take(k + 1)[j] == ds.take(k)[j]);
            }
        }
        i += 1;
    }
    proof {
        assert(ds.take(n - start) =~= ds);
    }
    if !ok {
        return None;
    }
    let val = if neg {
        -v
    } else {
        v
    };
    if lo <= val && val <= hi {
        Some(val)
    } else {
        None
    }
}

/// The character of decimal digit `d`.
pub open spec fn digit_char(d: int) -> char {
    if d == 0 {
        '0'
    } else if d == 1 {
        '1'
    } else if d == 2 {
        '2'
    } else if d == 3 {
        '3'
    } else if d == 4 {
        '4'
    } else if d == 5 {
        '5'
    } else if d == 6 {
        '6'
    } else if d == 7 {
        '7'
    } else if d == 8 {
        '8'
    } else {
        '9'
    }
}

/// The decimal digits of `n`, without leading zeros.
pub open spec fn digits_of(n: nat) -> Seq<char>
    decreases n,
{
    if n < 10 {
        seq![digit_char(n as int)]
    } else {
        digits_of(n / 10).push(digit_char((n % 10) as int))
    }
}

/// Decimal text of `v`, as integer formatting writes it.
pub open spec fn decimal(v: int) -> Seq<char> {
    if v < 0 {
        seq!['-'] + digits_of((-v) as nat)
    } else {
        digits_of(v as nat)
    }
}

pub proof fn lemma_digit_char(d: int)
    requires
        0 <= d < 10,
    ensures
        digit_val(digit_char(d)) == d,
        is_digit(digit_char(d)),
        !spec_is_space(digit_char(d)),
{
}

pub proof fn lemma_digits_of(n: nat)
    ensures
        digits_of(n).len() > 0,
        all_digits(digits_of(n)),
        digits_value(digits_of(n)) == n,
        forall|i: int| 0 <= i < digits_of(n).len() ==> !spec_is_space(#[trigger] digits_of(n)[i]),
    decreases n,
{
    lemma_digit_char((n % 10) as int);
    if n < 10 {
        let e: Seq<char> = seq![];
        assert(digits_of(n).drop_last() =~= e);
        assert(digits_value(e) == 0);
        assert(n % 10 == n);
        assert(digits_value(digits_of(n)) == digits_value(e) * 10 + digit_val(digits_of(n).last()));
    } else {
        lemma_digits_of(n / 10);
        let s = digits_of(n);
        assert(s.last() == digit_char((n % 10) as int));
        assert((n / 10) * 10 + n % 10 == n) by (nonlinear_arith);
        assert(digits_value(s) == digits_value(s.drop_last()) * 10 + digit_val(s.last()));
        assert(s.drop_last() =~= digits_of(n / 10));
        assert forall|i: int| 0 <= i < s.len() implies is_digit(#[trigger] s[i]) && !spec_is_space(s[i]) by {
            if i < s.len() - 1 {
                assert(s[i] == digits_of(n / 10)[i]);
            }
        }
    }
}

/// Decimal text parses back to its value.
pub proof fn lemma_decimal_roundtrip(v: int, signed: bool, lo: int, hi: int)
    requires
        lo <= v <= hi,
        v < 0 ==> signed,
    ensures
        int_in(decimal(v), signed, lo, hi) == Some(v),
        decimal(v).len() > 0,
        forall|i: int| 0 <= i < decimal(v).len() ==> !spec_is_space(#[trigger] decimal(v)[i]),
{
    if v < 0 {
        let m = (-v) as nat;
        lemma_digits_of(m);
        let t = decimal(v);
        assert(t.skip(1) =~= digits_of(m));
        assert(t[0] == '-');
        assert forall|i: int| 0 <= i < t.len() implies !spec_is_space(#[trigger] t[i]) by {
            if i > 0 {
                assert(t[i] == digits_of(m)[i - 1]);
            }
        }
    } else {
        lemma_digits_of(v as nat);
        let t = decimal(v);
        assert(is_digit(t[0]));
    }
}

/// Appends the decimal digits of `n`.
fn push_digits(out: &mut Vec<char>, n: u64)
    ensures
        final(out)@ == old(out)@ + digits_of(n as nat),
    decreases n,
{
    if n >= 10 {
        push_digits(out, n / 10);
    }
    let d = n % 10;
    let c = if d == 0 {
        '0'
    } else if d == 1 {
        '1'
    } else if d == 2 {
        '2'
    } else if d == 3 {
        '3'
    } else if d == 4 {
        '4'
    } else if d == 5 {
        '5'
    } else if d == 6 {
        '6'
    } else if d == 7 {
        '7'
    } else if d == 8 {
        '8'
    } else {
        '9'
    };
    out.push(c);
    proof {
        if n >= 10 {
            assert(digits_of(n as nat) == digits_of((n / 10) as nat).push(digit_char(n as int % 10)));
        }
    }
    assert(final(out)@ =~= old(out)@ + digits_of(n as nat));
}

/// Appends the decimal text of `v`.
pub fn push_decimal(out: &mut Vec<char>, v: i64)
    requires
        v > i64::MIN,
    ensures
        final(out)@ == old(out)@ + decimal(v as int),
{
    if v < 0 {
        out.push('-');
        push_digits(out, (-v) as u64);
        assert(final(out)@ =~= old(out)@ + decimal(v as int));
    } else {
        push_digits(out, v as u64);
    }
}

/// Text laid out as tokens, each followed by its separator.
pub open spec fn layout(parts: Seq<(Seq<char>, char)>) -> Seq<char>
    decreases parts.len(),
{
    if parts.len() == 0 {
        seq![]
    } else {
        layout(parts.drop_last()) + parts.last().0 + seq![parts.last().1]
    }
}

/// A nonempty token without white space, followed by a white-space separator.
pub open spec fn part_ok(p: (Seq<char>, char)) -> bool {
    &&& p.0.len() > 0
    &&& forall|i: int| 0 <= i < p.0.len() ==> !spec_is_space(#[trigger] p.0[i])
    &&& spec_is_space(p.1)
}

pub proof fn lemma_word_len_concat(a: Seq<char>, b: Seq<char>)
    requires
        a.len() > 0,
        spec_is_space(a.last()),
    ensures
        word_len(a + b) == word_len(a),
    decreases a.len(),
{
    if !spec_is_space(a[0]) {
        assert(a.len() > 1);
        assert((a + b).skip(1) =~= a.skip(1) + b);
        lemma_word_len_concat(a.skip(1), b);
    }
}

/// Splitting text into tokens works piecewise across a white-space boundary.
pub proof fn lemma_tokens_concat(a: Seq<char>, b: Seq<char>)
    requires
        a.len() == 0 || spec_is_space(a.last()),
    ensures
        tokens(a + b) == tokens(a) + tokens(b),
    decreases a.len(),
{
    if a.len() == 0 {
        assert(a + b =~= b);
        assert(tokens(a) + tokens(b) =~= tokens(b));
    } else if spec_is_space(a[0]) {
        assert((a + b).skip(1) =~= a.skip(1) + b);
        lemma_tokens_concat(a.skip(1), b);
    } else {
        lemma_word_len_concat(a, b);
        lemma_word_len_bounds(a);
        let n = word_len(a);
        assert(n < a.len());
        assert((a + b).take(n as int) =~= a.take(n as int));
        assert((a + b).skip(n as int) =~= a.skip(n as int) + b);
        lemma_tokens_concat(a.skip(n as int), b);
        assert(tokens(a + b) =~= seq![a.take(n as int)] + (tokens(a.skip(n as int)) + tokens(b)));
    }
}

pub proof fn lemma_word_len_word(w: Seq<char>, c: char)
    requires
        forall|i: int| 0 <= i < w.len() ==> !spec_is_space(#[trigger] w[i]),
        spec_is_space(c),
    ensures
        word_len(w + seq![c]) == w.len(),
    decreases w.len(),
{
    if w.len() > 0 {
        assert((w + seq![c]).skip(1) =~= w.skip(1) + seq![c]);
        assert forall|i: int| 0 <= i < w.skip(1).len() implies !spec_is_space(#[trigger] w.skip(1)[i]) by {
            assert(w.skip(1)[i] == w[i + 1]);
        }
        lemma_word_len_word(w.skip(1), c);
    } else {
        assert((w + seq![c])[0] == c);
    }
}

pub proof fn lemma_tokens_part(p: (Seq<char>, char))
    requires
        part_ok(p),
    ensures
        tokens(p.0 + seq![p.1]) == seq![p.0],
{
    let t = p.0 + seq![p.1];
    lemma_word_len_word(p.0, p.1);
    assert(t.take(p.0.len() as int) =~= p.0);
    let rest = t.skip(p.0.len() as int);
    assert(rest =~= seq![p.1]);
    assert(rest.skip(1) =~= seq![]);
    assert(tokens(rest) == tokens(rest.skip(1)));
}

/// The tokens of laid-out text are the laid-out tokens.
pub proof fn lemma_tokens_layout(parts: Seq<(Seq<char>, char)>)
    requires
        forall|i: int| 0 <= i < parts.len() ==> part_ok(#[trigger] parts[i]),
    ensures
        tokens(layout(parts)) == parts.map_values(|p: (Seq<char>, char)| p.0),
        parts.len() > 0 ==> layout(parts).len() > 0 && layout(parts).last() == parts.last().1,
    decreases parts.len(),
{
    if parts.len() == 0 {
        assert(tokens(layout(parts)) =~= parts.map_values(|p: (Seq<char>, char)| p.0));
    } else {
        let pre = parts.drop_last();
        assert forall|i: int| 0 <= i < pre.len() implies part_ok(#[trigger] pre[i]) by {
            assert(pre[i] == parts[i]);
        }
        lemma_tokens_layout(pre);
        let last = parts.last();
        assert(part_ok(parts[parts.len() - 1]));
        lemma_tokens_part(last);
        assert(layout(parts) =~= layout(pre) + (last.0 + seq![last.1]));
        lemma_tokens_concat(layout(pre), last.0 + seq![last.1]);
        assert(parts.map_values(|p: (Seq<char>, char)| p.0) =~= pre.map_values(|p: (Seq<char>, char)| p.0)
            + seq![last.0]);
    }
}

/// Save data. The player's position and view angles are held as the decimal
/// text of their floating-point values.
pub struct SaveData {
    pub seed: u32,
    pub pos_x: String,
    pub pos_y: String,
    pub pos_z: String,
    pub yaw: String,
    pub pitch: String,
    pub fly: bool,
    pub run_mode: bool,
    /// Edited blocks as (x, y, z, block id); a later row for the same
    /// position overrides an earlier one.
    pub edits: Vec<(i32, i32, i32, u8)>,
}

/// The magic token that opens a save.
pub open spec fn magic() -> Seq<char> {
    seq!['M', 'C', '1']
}

pub open spec fn one_text() -> Seq<char> {
    seq!['1']
}

/// `1` for true, `0` for false.
pub open spec fn bit_text(b: bool) -> Seq<char> {
    if b {
        seq!['1']
    } else {
        seq!['0']
    }
}

/// The tokens of one edit row.
pub open spec fn row_parts(e: (i32, i32, i32, u8)) -> Seq<(Seq<char>, char)> {
    seq![(decimal(e.0 as int), ' '), (decimal(e.1 as int), ' '), (decimal(e.2 as int), ' '), (decimal(e.3 as int), '\n')]
}

pub open spec fn rows_parts(es: Seq<(i32, i32, i32, u8)>) -> Seq<(Seq<char>, char)>
    decreases es.len(),
{
    if es.len() == 0 {
        seq![]
    } else {
        rows_parts(es.drop_last()) + row_parts(es.last())
    }
}

/// The tokens of a save, each with the separator that follows it.
pub open spec fn save_parts(d: SaveData) -> Seq<(Seq<char>, char)> {
    seq![
        (magic(), ' '),
        (decimal(d.seed as int), '\n'),
        (d.pos_x@, ' '),
        (d.pos_y@, ' '),
        (d.pos_z@, ' '),
        (d.yaw@, ' '),
        (d.pitch@, ' '),
        (bit_text(d.fly), ' '),
        (bit_text(d.run_mode), '\n'),
    ] + rows_parts(d.edits@)
}

/// The text of a save.
pub open spec fn save_text(d: SaveData) -> Seq<char> {
    layout(save_parts(d))
}

/// Number of edit rows after the nine leading tokens.
pub open spec fn row_count(toks: Seq<Seq<char>>) -> int {
    (toks.len() - 9) / 4
}

pub open spec fn row_parses(toks: Seq<Seq<char>>, k: int) -> bool {
    &&& int_in(toks[9 + 4 * k], true, i32::MIN as int, i32::MAX as int) is Some
    &&& int_in(toks[9 + 4 * k + 1], true, i32::MIN as int, i32::MAX as int) is Some
    &&& int_in(toks[9 + 4 * k + 2], true, i32::MIN as int, i32::MAX as int) is Some
    &&& int_in(toks[9 + 4 * k + 3], false, 0, 255) is Some
}

pub open spec fn row_of(toks: Seq<Seq<char>>, k: int) -> (i32, i32, i32, u8) {
    (
        int_in(toks[9 + 4 * k], true, i32::MIN as int, i32::MAX as int).unwrap() as i32,
        int_in(toks[9 + 4 * k + 1], true, i32::MIN as int, i32::MAX as int).unwrap() as i32,
        int_in(toks[9 + 4 * k + 2], true, i32::MIN as int, i32::MAX as int).unwrap() as i32,
        int_in(toks[9 + 4 * k + 3], false, 0, 255).unwrap() as u8,
    )
}

/// A row that can be applied to the world: its height lies inside the world
/// and its block id names a block.
pub open spec fn row_valid(e: (i32, i32, i32, u8)) -> bool {
    0 <= e.1 < CH && e.3 <= MAX_BLOCK_ID
}

/// The valid rows among the first `n`, in order.
pub open spec fn kept_rows(toks: Seq<Seq<char>>, n: int) -> Seq<(i32, i32, i32, u8)>
    decreases n,
{
    if n <= 0 {
        seq![]
    } else if row_valid(row_of(toks, n - 1)) {
        kept_rows(toks, n - 1).push(row_of(toks, n - 1))
    } else {
        kept_rows(toks, n - 1)
    }
}

/// The token list is a save: the magic token, a seed, five player values, the
/// two flags, and whole rows of four integers.
pub open spec fn save_parses(toks: Seq<Seq<char>>) -> bool {
    &&& toks.len() >= 9
    &&& toks[0] == magic()
    &&& int_in(toks[1], false, 0, u32::MAX as int) is Some
    &&& (toks.len() - 9) % 4 == 0
    &&& forall|k: int| 0 <= k < row_count(toks) ==> #[trigger] row_parses(toks, k)
}

/// `d` is what the token list of a save reads as.
pub open spec fn reads_as(toks: Seq<Seq<char>>, d: SaveData) -> bool {
    &&& d.seed as int == int_in(toks[1], false, 0, u32::MAX as int).unwrap()
    &&& d.pos_x@ == toks[2]
    &&& d.pos_y@ == toks[3]
    &&& d.pos_z@ == toks[4]
    &&& d.yaw@ == toks[5]
    &&& d.pitch@ == toks[6]
    &&& d.fly == (toks[7] == one_text())
    &&& d.run_mode == (toks[8] == one_text())
    &&& d.edits@ == kept_rows(toks, row_count(toks))
}

/// A save that reads back as itself: the player values are nonempty texts
/// without white space, and every edit row is valid.
pub open spec fn save_ok(d: SaveData) -> bool {
    &&& token_ok(d.pos_x@)
    &&& token_ok(d.pos_y@)
    &&& token_ok(d.pos_z@)
    &&& token_ok(d.yaw@)
    &&& token_ok(d.pitch@)
    &&& forall|j: int| 0 <= j < d.edits@.len() ==> row_valid(#[trigger] d.edits@[j])
}

/// A nonempty text without white space.
pub open spec fn token_ok(t: Seq<char>) -> bool {
    t.len() > 0 && forall|i: int| 0 <= i < t.len() ==> !spec_is_space(#[trigger] t[i])
}

pub proof fn lemma_rows_parts(es: Seq<(i32, i32, i32, u8)>)
    ensures
        rows_parts(es).len() == 4 * es.len(),
        forall|k: int, j: int|
            0 <= k < es.len() && 0 <= j < 4 ==> #[trigger] rows_parts(es)[4 * k + j] == row_parts(es[k])[j],
    decreases es.len(),
{
    if es.len() > 0 {
        let pre = es.drop_last();
        lemma_rows_parts(pre);
        assert forall|k: int, j: int|
            0 <= k < es.len() && 0 <= j < 4 implies #[trigger] rows_parts(es)[4 * k + j] == row_parts(es[k])[j] by {
            if k < es.len() - 1 {
                assert(rows_parts(es)[4 * k + j] == rows_parts(pre)[4 * k + j]);
                assert(pre[k] == es[k]);
            } else {
                assert(rows_parts(es)[4 * k + j] == row_parts(es.last())[j]);
            }
        }
    }
}

pub proof fn lemma_part_ok_decimal(v: int, signed: bool, lo: int, hi: int, c: char)
    requires
        lo <= v <= hi,
        v < 0 ==> signed,
        spec_is_space(c),
    ensures
        part_ok((decimal(v), c)),
        int_in(decimal(v), signed, lo, hi) == Some(v),
{
    lemma_decimal_roundtrip(v, signed, lo, hi);
}

/// Reading back the text of a save gives the same save.
pub proof fn lemma_save_roundtrip(d: SaveData)
    requires
        save_ok(d),
    ensures
        save_parses(tokens(save_text(d))),
        reads_as(tokens(save_text(d)), d),
{
    let parts = save_parts(d);
    let es = d.edits@;
    let n = es.len() as int;
    lemma_rows_parts(es);
    let rp = rows_parts(es);
    lemma_part_ok_decimal(d.seed as int, false, 0, u32::MAX as int, '\n');
    assert forall|i: int| 0 <= i < parts.len() implies part_ok(#[trigger] parts[i]) by {
        if i >= 9 {
            let k = (i - 9) / 4;
            let j = (i - 9) % 4;
            assert(i - 9 == 4 * k + j);
            assert(parts[i] == rp[4 * k + j]);
            assert(rp[4 * k + j] == row_parts(es[k])[j]);
            let e = es[k];
            assert(row_valid(e));
            if j == 0 {
                lemma_part_ok_decimal(e.0 as int, true, i32::MIN as int, i32::MAX as int, ' ');
            } else if j == 1 {
                lemma_part_ok_decimal(e.1 as int, true, i32::MIN as int, i32::MAX as int, ' ');
            } else if j == 2 {
                lemma_part_ok_decimal(e.2 as int, true, i32::MIN as int, i32::MAX as int, ' ');
            } else {
                lemma_part_ok_decimal(e.3 as int, false, 0, 255, '\n');
            }
        } else if i == 0 {
            assert(parts[0].0 == magic());
        } else if i == 7 || i == 8 {
            assert(bit_text(d.fly).len() == 1);
        }
    }
    lemma_tokens_layout(parts);
    let toks = tokens(save_text(d));
    assert(toks == parts.map_values(|p: (Seq<char>, char)| p.0));
    assert(toks.len() == 9 + 4 * n);
    assert((toks.len() - 9) / 4 == n) by {
        assert((4 * n) / 4 == n) by (nonlinear_arith);
    }
    assert((toks.len() - 9) % 4 == 0) by {
        assert((4 * n) % 4 == 0) by (nonlinear_arith);
    }
    assert forall|k: int, j: int| 0 <= k < n && 0 <= j < 4 implies #[trigger] toks[9 + 4 * k + j] == row_parts(
        es[k],
    )[j].0 by {
        assert(parts[9 + 4 * k + j] == rp[4 * k + j]);
    }
    assert forall|k: int| 0 <= k < n implies #[trigger] row_parses(toks, k) && row_of(toks, k) == es[k] by {
        let e = es[k];
        assert(toks[9 + 4 * k + 0] == row_parts(e)[0].0);
        assert(toks[9 + 4 * k + 1] == row_parts(e)[1].0);
        assert(toks[9 + 4 * k + 2] == row_parts(e)[2].0);
        assert(toks[9 + 4 * k + 3] == row_parts(e)[3].0);
        lemma_decimal_roundtrip(e.0 as int, true, i32::MIN as int, i32::MAX as int);
        lemma_decimal_roundtrip(e.1 as int, true, i32::MIN as int, i32::MAX as int);
        lemma_decimal_roundtrip(e.2 as int, true, i32::MIN as int, i32::MAX as int);
        lemma_decimal_roundtrip(e.3 as int, false, 0, 255);
    }
    assert forall|k: int| 0 <= k < n implies #[trigger] row_of(toks, k) == es[k] by {
        assert(row_parses(toks, k));
    }
    lemma_kept_all(toks, es, n);
    assert(es.take(n) =~= es);
    assert(toks[0] == magic());
    assert(toks[1] == decimal(d.seed as int));
    assert(toks[2] == d.pos_x@);
    assert(toks[3] == d.pos_y@);
    assert(toks[4] == d.pos_z@);
    assert(toks[5] == d.yaw@);
    assert(toks[6] == d.pitch@);
    assert(toks[7] == bit_text(d.fly));
    assert(toks[8] == bit_text(d.run_mode));
    assert(bit_text(false)[0] != one_text()[0]);
    assert((toks[7] == one_text()) == d.fly);
    assert((toks[8] == one_text()) == d.run_mode);
}

proof fn lemma_kept_all(toks: Seq<Seq<char>>, es: Seq<(i32, i32, i32, u8)>, m: int)
    requires
        0 <= m <= es.len(),
        forall|k: int| 0 <= k < es.len() ==> #[trigger] row_of(toks, k) == es[k],
        forall|j: int| 0 <= j < es.len() ==> row_valid(#[trigger] es[j]),
    ensures
        kept_rows(toks, m) == es.take(m),
    decreases m,
{
    if m > 0 {
        lemma_kept_all(toks, es, m - 1);
        assert(row_of(toks, m - 1) == es[m - 1]);
        assert(es.take(m) =~= es.take(m - 1).push(es[m - 1]));
    } else {
        assert(es.take(0) =~= seq![]);
    }
}

/// The string made of the characters of `v`, in order (collecting `char`s
/// into a `String`).
#[verifier::external_body]
fn string_from_chars(v: &Vec<char>) -> (s: String)
    ensures
        s@ == v@,
{
    v.iter().collect()
}

/// Appends token `t` and separator `sep`.
fn push_part(out: &mut Vec<char>, t: &Vec<char>, sep: char)
    ensures
        final(out)@ == old(out)@ + t@ + seq![sep],
{
    let mut i: usize = 0;
    while i < t.len()
        invariant
            i <= t@.len(),
            out@ == old(out)@ + t@.take(i as int),
        decreases t@.len() - i,
    {
        out.push(t[i]);
        i += 1;
        assert(out@ =~= old(out)@ + t@.take(i as int));
    }
    out.push(sep);
    assert(t@.take(t@.len() as int) =~= t@);
    assert(final(out)@ =~= old(out)@ + t@ + seq![sep]);
}

proof fn lemma_layout_push(ps: Seq<(Seq<char>, char)>, p: (Seq<char>, char))
    ensures
        layout(ps.push(p)) == layout(ps) + p.0 + seq![p.1],
{
    assert(ps.push(p).drop_last() =~= ps);
}

/// The decimal text of `v` as characters.
fn decimal_chars(v: i64) -> (r: Vec<char>)
    requires
        v > i64::MIN,
    ensures
        r@ == decimal(v as int),
{
    let mut r: Vec<char> = Vec::new();
    push_decimal(&mut r, v);
    assert(r@ =~= decimal(v as int));
    r
}

/// The text of save `d`.
pub fn serialize(d: &SaveData) -> (r: String)
    ensures
        r@ == save_text(*d),
{
    let mut out: Vec<char> = Vec::new();
    let ghost mut ps: Seq<(Seq<char>, char)> = seq![];
    let magic_t = vec!['M', 'C', '1'];
    push_part(&mut out, &magic_t, ' ');
    proof {
        lemma_layout_push(ps, (magic(), ' '));
        ps = ps.push((magic(), ' '));
        assert(out@ =~= layout(ps));
    }
    push_part(&mut out, &decimal_chars(d.seed as i64), '\n');
    proof {
        lemma_layout_push(ps, (decimal(d.seed as int), '\n'));
        ps = ps.push((decimal(d.seed as int), '\n'));
    }
    push_part(&mut out, &chars_of(d.pos_x.as_str()), ' ');
    proof {
        lemma_layout_push(ps, (d.pos_x@, ' '));
        ps = ps.push((d.pos_x@, ' '));
    }
    push_part(&mut out, &chars_of(d.pos_y.as_str()), ' ');
    proof {
        lemma_layout_push(ps, (d.pos_y@, ' '));
        ps = ps.push((d.pos_y@, ' '));
    }
    push_part(&mut out, &chars_of(d.pos_z.as_str()), ' ');
    proof {
        lemma_layout_push(ps, (d.pos_z@, ' '));
        ps = ps.push((d.pos_z@, ' '));
    }
    push_part(&mut out, &chars_of(d.yaw.as_str()), ' ');
    proof {
        lemma_layout_push(ps, (d.yaw@, ' '));
        ps = ps.push((d.yaw@, ' '));
    }
    push_part(&mut out, &chars_of(d.pitch.as_str()), ' ');
    proof {
        lemma_layout_push(ps, (d.pitch@, ' '));
        ps = ps.push((d.pitch@, ' '));
    }
    let fly_t = if d.fly {
        vec!['1']
    } else {
        vec!['0']
    };
    assert(fly_t@ =~= bit_text(d.fly));
    push_part(&mut out, &fly_t, ' ');
    proof {
        lemma_layout_push(ps, (bit_text(d.fly), ' '));
        ps = ps.push((bit_text(d.fly), ' '));
    }
    let run_t = if d.run_mode {
        vec!['1']
    } else {
        vec!['0']
    };
    assert(run_t@ =~= bit_text(d.run_mode));
    push_part(&mut out, &run_t, '\n');
    proof {
        lemma_layout_push(ps, (bit_text(d.run_mode), '\n'));
        ps = ps.push((bit_text(d.run_mode), '\n'));
    }
    let ghost head = ps;
    proof {
        assert(rows_parts(d.edits@.take(0)) =~= seq![]);
        assert(ps =~= head + rows_parts(d.edits@.take(0)));
    }
    let mut k: usize = 0;
    while k < d.edits.len()
        invariant
            k <= d.edits@.len(),
            ps == head + rows_parts(d.edits@.take(k as int)),
            out@ == layout(ps),
        decreases d.edits@.len() - k,
    {
        let e = d.edits[k];
        let ghost ps0 = ps;
        push_part(&mut out, &decimal_chars(e.0 as i64), ' ');
        proof {
            lemma_layout_push(ps, (decimal(e.0 as int), ' '));
            ps = ps.push((decimal(e.0 as int), ' '));
        }
        push_part(&mut out, &decimal_chars(e.1 as i64), ' ');
        proof {
            lemma_layout_push(ps, (decimal(e.1 as int), ' '));
            ps = ps.push((decimal(e.1 as int), ' '));
        }
        push_part(&mut out, &decimal_chars(e.2 as i64), ' ');
        proof {
            lemma_layout_push(ps, (decimal(e.2 as int), ' '));
            ps = ps.push((decimal(e.2 as int), ' '));
        }
        push_part(&mut out, &decimal_chars(e.3 as i64), '\n');
        proof {
            lemma_layout_push(ps, (decimal(e.3 as int), '\n'));
            ps = ps.push((decimal(e.3 as int), '\n'));
            let t = d.edits@.take(k + 1);
            assert(t.drop_last() =~= d.edits@.take(k as int));
            assert(t.last() == e);
            assert(ps =~= ps0 + row_parts(e));
            assert(ps =~= head + rows_parts(t));
        }
        k += 1;
    }
    proof {
        assert(d.edits@.take(d.edits@.len() as int) =~= d.edits@);
        assert(ps =~= save_parts(*d));
    }
    string_from_chars(&out)
}

/// Whether token `t` is the text `1`.
fn is_one(t: &Vec<char>) -> (r: bool)
    ensures
        r == (t@ == one_text()),
{
    if t.len() == 1 && t[0] == '1' {
        assert(t@ =~= one_text());
        true
    } else {
        false
    }
}

/// Reads a save. `None` when the text is not a save (see [`save_parses`]);
/// edit rows whose height lies outside the world or whose block id names
/// no block are left out.
pub fn parse(s: &str) -> (r: Option<SaveData>)
    ensures
        r is Some == save_parses(tokens(s@)),
        r matches Some(d) ==> reads_as(tokens(s@), d),
{
    let cs = chars_of(s);
    let toks = tokenize(&cs);
    let ghost tk = tokens(s@);
    assert(toks@.len() == tk.len());
    let n = toks.len();
    if n < 9 {
        return None;
    }
    if !(toks[0].len() == 3 && toks[0][0] == 'M' && toks[0][1] == 'C' && toks[0][2] == '1') {
        proof {
            if tk[0] == magic() {
                assert(toks@[0]@ == magic());
            }
        }
        return None;
    }
    assert(toks@[0]@ =~= magic());
    let seed = match parse_int(&toks[1], false, 0, 0xffff_ffff) {
        Some(v) => v as u32,
        None => {
            return None;
        },
    };
    if (n - 9) % 4 != 0 {
        return None;
    }
    let rows = (n - 9) / 4;
    let mut edits: Vec<(i32, i32, i32, u8)> = Vec::new();
    let mut k: usize = 0;
    while k < rows
        invariant
            tk == tokens(s@),
            toks@.len() == tk.len(),
            n == tk.len(),
            forall|j: int| 0 <= j < toks@.len() ==> (#[trigger] toks@[j])@ == tk[j],
            n >= 9,
            (n - 9) % 4 == 0,
            rows == row_count(tk),
            k <= rows,
            forall|j: int| 0 <= j < k ==> #[trigger] row_parses(tk, j),
            edits@ == kept_rows(tk, k as int),
        decreases rows - k,
    {
        let base = 9 + 4 * k;
        assert(toks@[base as int]@ == tk[9 + 4 * k]);
        assert(toks@[base + 1]@ == tk[9 + 4 * k + 1]);
        assert(toks@[base + 2]@ == tk[9 + 4 * k + 2]);
        assert(toks@[base + 3]@ == tk[9 + 4 * k + 3]);
        let x = match parse_int(&toks[base], true, -0x8000_0000, 0x7fff_ffff) {
            Some(v) => v as i32,
            None => {
                assert(!row_parses(tk, k as int));
                return None;
            },
        };
        let y = match parse_int(&toks[base + 1], true, -0x8000_0000, 0x7fff_ffff) {
            Some(v) => v as i32,
            None => {
                assert(!row_parses(tk, k as int));
                return None;
            },
        };
        let z = match parse_int(&toks[base + 2], true, -0x8000_0000, 0x7fff_ffff) {
            Some(v) => v as i32,
            None => {
                assert(!row_parses(tk, k as int));
                return None;
            },
        };
        let b = match parse_int(&toks[base + 3], false, 0, 255) {
            Some(v) => v as u8,
            None => {
                assert(!row_parses(tk, k as int));
                return None;
            },
        };
        assert(row_parses(tk, k as int));
        assert(row_of(tk, k as int) == (x, y, z, b));
        if 0 <= y && y < CH && b <= MAX_BLOCK_ID {
            edits.push((x, y, z, b));
        }
        k += 1;
    }
    let fly = is_one(&toks[7]);
    let run_mode = is_one(&toks[8]);
    Some(
        SaveData {
            seed,
            pos_x: string_from_chars(&toks[2]),
            pos_y: string_from_chars(&toks[3]),
            pos_z: string_from_chars(&toks[4]),
            yaw: string_from_chars(&toks[5]),
            pitch: string_from_chars(&toks[6]),
            fly,
            run_mode,
            edits,
        },
    )
}

} // verus!
