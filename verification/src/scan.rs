//! Character-level ground layer: decimal digit strings, quoted text, and
//! the exact shapes that numbers take on the wire.

use vstd::prelude::*;
use vstd::arithmetic::div_mod::lemma_fundamental_div_mod_converse;

verus! {

pub open spec fn is_digit(c: char) -> bool {
    48 <= c as int && c as int <= 57
}

pub open spec fn digit_val(c: char) -> int {
    c as int - 48
}

pub open spec fn digit_char(d: int) -> char {
    if d == 0 {
        '0'
    } else if d == 1 {
        '1'
    } else if d == 2 {
        '2'
    } else if d == 3 {
        '3'
    } else if d == 4 {
        '4'
    } else if d == 5 {
        '5'
    } else if d == 6 {
        '6'
    } else if d == 7 {
        '7'
    } else if d == 8 {
        '8'
    } else {
        '9'
    }
}

pub proof fn lemma_digit_char(d: int)
    requires
        0 <= d <= 9,
    ensures
        is_digit(digit_char(d)),
        digit_val(digit_char(d)) == d,
{
}

pub proof fn lemma_char_digit(c: char)
    requires
        is_digit(c),
    ensures
        digit_char(digit_val(c)) == c,
        0 <= digit_val(c) <= 9,
{
    assert(c as int == 48 ==> c == '0');
    assert(c as int == 49 ==> c == '1');
    assert(c as int == 50 ==> c == '2');
    assert(c as int == 51 ==> c == '3');
    assert(c as int == 52 ==> c == '4');
    assert(c as int == 53 ==> c == '5');
    assert(c as int == 54 ==> c == '6');
    assert(c as int == 55 ==> c == '7');
    assert(c as int == 56 ==> c == '8');
    assert(c as int == 57 ==> c == '9');
}

pub open spec fn pow10(k: nat) -> int
    decreases k,
{
    if k == 0 {
        1
    } else {
        10 * pow10((k - 1) as nat)
    }
}

pub proof fn lemma_pow10_pos(k: nat)
    ensures
        pow10(k) >= 1,
    decreases k,
{
    if k > 0 {
        lemma_pow10_pos((k - 1) as nat);
    }
}

/// The canonical decimal digit string of a natural number.
pub open spec fn dec_rep(n: nat) -> Seq<char>
    decreases n,
{
    if n < 10 {
        seq![digit_char(n as int)]
    } else {
        dec_rep(n / 10) + seq![digit_char((n % 10) as int)]
    }
}

pub open spec fn all_digits(s: Seq<char>) -> bool {
    forall|k: int| 0 <= k < s.len() ==> is_digit(s[k])
}

/// A digit string that the canonical form produces: nonempty, and no
/// leading zero unless it is exactly "0".
pub open spec fn canonical_digits(s: Seq<char>) -> bool {
    &&& all_digits(s)
    &&& s.len() >= 1
    &&& (s.len() > 1 ==> s[0] != '0')
}

/// The numeric value of a digit string.
pub open spec fn digits_val(s: Seq<char>) -> int
    decreases s.len(),
{
    if s.len() == 0 {
        0
    } else {
        digits_val(s.drop_last()) * 10 + digit_val(s.last())
    }
}

pub proof fn lemma_dec_rep_canonical(n: nat)
    ensures
        canonical_digits(dec_rep(n)),
        n >= 1 ==> digit_val(dec_rep(n)[0]) >= 1,
        dec_rep(n).len() >= 1,
    decreases n,
{
    if n < 10 {
        lemma_digit_char(n as int);
    } else {
        lemma_dec_rep_canonical(n / 10);
        lemma_digit_char((n % 10) as int);
        assert(dec_rep(n)[0] == dec_rep(n / 10)[0]);
    }
}

pub proof fn lemma_digits_val_dec_rep(n: nat)
    ensures
        digits_val(dec_rep(n)) == n,
    decreases n,
{
    if n < 10 {
        lemma_digit_char(n as int);
        assert(digits_val(Seq::<char>::empty()) == 0);
        assert(dec_rep(n).drop_last() =~= Seq::<char>::empty());
        assert(dec_rep(n).last() == digit_char(n as int));
    } else {
        lemma_digits_val_dec_rep(n / 10);
        lemma_digit_char((n % 10) as int);
        let s = dec_rep(n);
        assert(s.drop_last() =~= dec_rep(n / 10));
        assert(s.last() == digit_char((n % 10) as int));
    }
}

pub proof fn lemma_digits_val_bounds(s: Seq<char>)
    requires
        all_digits(s),
    ensures
        0 <= digits_val(s) < pow10(s.len()),
    decreases s.len(),
{
    if s.len() == 0 {
    } else {
        let t = s.drop_last();
        assert(all_digits(t));
        lemma_digits_val_bounds(t);
        lemma_char_digit(s.last());
        let p = pow10(t.len());
        assert(pow10(s.len()) == 10 * p);
        assert(digits_val(t) * 10 <= (p - 1) * 10) by (nonlinear_arith)
            requires
                digits_val(t) <= p - 1,
        ;
        assert(digits_val(t) * 10 >= 0) by (nonlinear_arith)
            requires
                digits_val(t) >= 0,
        ;
    }
}

pub proof fn lemma_digits_val_pos(s: Seq<char>)
    requires
        all_digits(s),
        s.len() >= 1,
        s[0] != '0',
    ensures
        digits_val(s) >= 1,
    decreases s.len(),
{
    if s.len() == 1 {
        lemma_char_digit(s[0]);
        assert(s.last() == s[0]);
        assert(s[0] as int == 48 ==> s[0] == '0');
        assert(digit_val(s[0]) >= 1);
        assert(digits_val(Seq::<char>::empty()) == 0);
        assert(s.drop_last() =~= Seq::<char>::empty());
    } else {
        let t = s.drop_last();
        lemma_digits_val_pos(t);
        lemma_char_digit(s.last());
        assert(digits_val(t) * 10 >= 10) by (nonlinear_arith)
            requires
                digits_val(t) >= 1,
        ;
    }
}

/// A canonical digit string is the canonical form of its own value.
pub proof fn lemma_canonical_digits_dec_rep(s: Seq<char>)
    requires
        canonical_digits(s),
    ensures
        digits_val(s) >= 0,
        dec_rep(digits_val(s) as nat) == s,
    decreases s.len(),
{
    lemma_digits_val_bounds(s);
    if s.len() == 1 {
        lemma_char_digit(s[0]);
        assert(s.last() == s[0]);
        assert(digits_val(Seq::<char>::empty()) == 0);
        assert(s.drop_last() =~= Seq::<char>::empty());
        assert(digits_val(s) == digit_val(s[0]));
        assert(dec_rep(digits_val(s) as nat) =~= s);
    } else {
        let t = s.drop_last();
        assert(t[0] == s[0]);
        assert(canonical_digits(t));
        lemma_canonical_digits_dec_rep(t);
        lemma_digits_val_pos(t);
        lemma_char_digit(s.last());
        let v = digits_val(s);
        let vt = digits_val(t);
        let d = digit_val(s.last());
        assert(v == vt * 10 + d);
        assert(v >= 10) by (nonlinear_arith)
            requires
                vt >= 1,
                d >= 0,
                v == vt * 10 + d,
        ;
        lemma_fundamental_div_mod_converse(v, 10, vt, d);
        assert(dec_rep(v as nat) == dec_rep((v / 10) as nat) + seq![digit_char(v % 10)]);
        assert(dec_rep(v as nat) =~= s);
    }
}

/// A prefix of a digit string is worth no more than the whole.
pub proof fn lemma_digits_val_prefix(s: Seq<char>, m: int)
    requires
        all_digits(s),
        0 <= m <= s.len(),
    ensures
        digits_val(s.subrange(0, m)) <= digits_val(s),
    decreases s.len() - m,
{
    if m == s.len() {
        assert(s.subrange(0, m) =~= s);
    } else {
        let t = s.subrange(0, m + 1);
        assert(all_digits(t));
        assert(t.drop_last() =~= s.subrange(0, m));
        lemma_char_digit(t.last());
        lemma_digits_val_bounds(s.subrange(0, m));
        let v = digits_val(s.subrange(0, m));
        assert(digits_val(t) == v * 10 + digit_val(t.last()));
        assert(v * 10 >= v) by (nonlinear_arith)
            requires
                v >= 0,
        ;
        lemma_digits_val_prefix(s, m + 1);
    }
}

/// The zero-padded digit string of `f` written with exactly `k` digits.
pub open spec fn pad_rep(f: nat, k: nat) -> Seq<char>
    decreases k,
{
    if k == 0 {
        Seq::empty()
    } else {
        pad_rep(f / 10, (k - 1) as nat) + seq![digit_char((f % 10) as int)]
    }
}

pub proof fn lemma_pad_rep_digits(f: nat, k: nat)
    ensures
        all_digits(pad_rep(f, k)),
        pad_rep(f, k).len() == k,
    decreases k,
{
    if k > 0 {
        lemma_pad_rep_digits(f / 10, (k - 1) as nat);
        lemma_digit_char((f % 10) as int);
    }
}

pub proof fn lemma_pad_rep_val(f: nat, k: nat)
    requires
        f < pow10(k),
    ensures
        digits_val(pad_rep(f, k)) == f,
    decreases k,
{
    if k == 0 {
    } else {
        let p = pow10((k - 1) as nat);
        lemma_pow10_pos((k - 1) as nat);
        assert(f / 10 < p) by (nonlinear_arith)
            requires
                f < 10 * p,
                p >= 1,
        ;
        lemma_pad_rep_val(f / 10, (k - 1) as nat);
        lemma_pad_rep_digits(f / 10, (k - 1) as nat);
        lemma_digit_char((f % 10) as int);
        let s = pad_rep(f, k);
        assert(s.drop_last() =~= pad_rep(f / 10, (k - 1) as nat));
        assert(digits_val(s) == (f / 10) * 10 + (f % 10));
    }
}

/// Any digit string is the padded form of its value at its own length.
pub proof fn lemma_digits_pad_rep(s: Seq<char>)
    requires
        all_digits(s),
    ensures
        digits_val(s) >= 0,
        pad_rep(digits_val(s) as nat, s.len()) == s,
    decreases s.len(),
{
    lemma_digits_val_bounds(s);
    if s.len() == 0 {
        assert(pad_rep(0, 0) =~= s);
    } else {
        let t = s.drop_last();
        lemma_digits_pad_rep(t);
        lemma_char_digit(s.last());
        let v = digits_val(s);
        let vt = digits_val(t);
        let d = digit_val(s.last());
        lemma_fundamental_div_mod_converse(v, 10, vt, d);
        assert(pad_rep(v as nat, s.len()) =~= s);
    }
}


/// If `[i, j)` of `s` reads as `a + b`, the two halves stand at
/// `[i, i+|a|)` and `[i+|a|, j)`.
pub proof fn lemma_split_two(s: Seq<char>, i: int, j: int, a: Seq<char>, b: Seq<char>)
    requires
        0 <= i <= j <= s.len(),
        s.subrange(i, j) == a + b,
    ensures
        j - i == a.len() + b.len(),
        s.subrange(i, i + a.len()) == a,
        s.subrange(i + a.len(), j) == b,
{
    assert(s.subrange(i, j).len() == j - i);
    assert forall|k: int| 0 <= k < a.len() implies s.subrange(i, i + a.len() as int)[k] == a[k] by {
        assert(s.subrange(i, i + a.len() as int)[k] == s[i + k]);
        assert(s.subrange(i, j)[k] == s[i + k]);
        assert((a + b)[k] == a[k]);
    }
    assert(s.subrange(i, i + a.len() as int) =~= a);
    assert forall|k: int| 0 <= k < b.len() implies s.subrange(i + a.len() as int, j)[k] == b[k] by {
        assert(s.subrange(i + a.len() as int, j)[k] == s[i + a.len() + k]);
        assert(s.subrange(i, j)[a.len() + k] == s[i + a.len() + k]);
        assert((a + b)[a.len() + k] == b[k]);
    }
    assert(s.subrange(i + a.len() as int, j) =~= b);
}

/// The two halves of `[i, j)` glue back to the whole.
pub proof fn lemma_glue_two(s: Seq<char>, i: int, mid: int, j: int)
    requires
        0 <= i <= mid <= j <= s.len(),
    ensures
        s.subrange(i, j) == s.subrange(i, mid) + s.subrange(mid, j),
{
    let a = s.subrange(i, mid);
    let b = s.subrange(mid, j);
    assert forall|k: int| 0 <= k < j - i implies s.subrange(i, j)[k] == (a + b)[k] by {
        assert(s.subrange(i, j)[k] == s[i + k]);
        if k < mid - i {
            assert(a[k] == s[i + k]);
        } else {
            assert(b[k - (mid - i)] == s[i + k]);
        }
    }
    assert(s.subrange(i, j) =~= a + b);
}

/// Two digit strings that start at the same place and both end at a
/// non-digit (or at the end of the payload) are the same string.
pub proof fn lemma_digit_seq_end(s: Seq<char>, i: int, j1: int, j2: int)
    requires
        0 <= i <= j1 <= s.len(),
        0 <= i <= j2 <= s.len(),
        all_digits(s.subrange(i, j1)),
        all_digits(s.subrange(i, j2)),
        j1 == s.len() || !is_digit(s[j1]),
        j2 == s.len() || !is_digit(s[j2]),
    ensures
        j1 == j2,
        s.subrange(i, j1) == s.subrange(i, j2),
{
    if j1 < j2 {
        assert(is_digit(s.subrange(i, j2)[j1 - i]));
        assert(s.subrange(i, j2)[j1 - i] == s[j1]);
        assert(false);
    }
    if j2 < j1 {
        assert(is_digit(s.subrange(i, j1)[j2 - i]));
        assert(s.subrange(i, j1)[j2 - i] == s[j2]);
        assert(false);
    }
}

/// An unsigned number, canonically written, stands at `[i, j)` and is
/// delimited on the right.
pub open spec fn uint_at(s: Seq<char>, i: int, j: int, v: nat) -> bool {
    &&& 0 <= i <= j <= s.len()
    &&& s.subrange(i, j) == dec_rep(v)
    &&& (j == s.len() || !is_digit(s[j]))
}

pub proof fn lemma_uint_at_unique(s: Seq<char>, i: int, j1: int, j2: int, a: nat, b: nat)
    requires
        uint_at(s, i, j1, a),
        uint_at(s, i, j2, b),
    ensures
        j1 == j2,
        a == b,
{
    lemma_dec_rep_canonical(a);
    lemma_dec_rep_canonical(b);
    lemma_digit_seq_end(s, i, j1, j2);
    lemma_digits_val_dec_rep(a);
    lemma_digits_val_dec_rep(b);
}

/// A signed integer as written on the wire: an optional minus sign and
/// the canonical digits of the magnitude.
pub open spec fn int_rep(v: int) -> Seq<char> {
    if v >= 0 {
        dec_rep(v as nat)
    } else {
        seq!['-'] + dec_rep((-v) as nat)
    }
}

pub open spec fn int_at(s: Seq<char>, i: int, j: int, v: int) -> bool {
    &&& 0 <= i <= j <= s.len()
    &&& s.subrange(i, j) == int_rep(v)
    &&& (j == s.len() || !is_digit(s[j]))
}

pub proof fn lemma_int_at_parts(s: Seq<char>, i: int, j: int, v: int)
    requires
        int_at(s, i, j, v),
    ensures
        v >= 0 ==> uint_at(s, i, j, v as nat) && is_digit(s[i]),
        v < 0 ==> s[i] == '-' && uint_at(s, i + 1, j, (-v) as nat),
        i < j,
{
    assert(s.subrange(i, j).len() == j - i);
    if v >= 0 {
        lemma_dec_rep_canonical(v as nat);
        assert(s.subrange(i, j)[0] == s[i]);
    } else {
        let m = dec_rep((-v) as nat);
        lemma_dec_rep_canonical((-v) as nat);
        lemma_split_two(s, i, j, seq!['-'], m);
        assert(s.subrange(i, i + 1)[0] == s[i]);
        assert(s.subrange(i, i + 1)[0] == seq!['-'][0]);
    }
}

pub proof fn lemma_int_at_unique(s: Seq<char>, i: int, j1: int, j2: int, a: int, b: int)
    requires
        int_at(s, i, j1, a),
        int_at(s, i, j2, b),
    ensures
        j1 == j2,
        a == b,
{
    lemma_int_at_parts(s, i, j1, a);
    lemma_int_at_parts(s, i, j2, b);
    assert(!is_digit('-'));
    if a >= 0 && b >= 0 {
        lemma_uint_at_unique(s, i, j1, j2, a as nat, b as nat);
    } else if a < 0 && b < 0 {
        lemma_uint_at_unique(s, i + 1, j1, j2, (-a) as nat, (-b) as nat);
    }
}

/// Quoted text content: anything but a quote or a backslash.
pub open spec fn wf_text(c: Seq<char>) -> bool {
    forall|k: int| 0 <= k < c.len() ==> c[k] != '"' && c[k] != '\\'
}

pub open spec fn text_rep(c: Seq<char>) -> Seq<char> {
    seq!['"'] + c + seq!['"']
}

pub open spec fn text_at(s: Seq<char>, i: int, j: int, c: Seq<char>) -> bool {
    &&& 0 <= i
    &&& j == i + c.len() + 2
    &&& j <= s.len()
    &&& s.subrange(i, j) == text_rep(c)
    &&& wf_text(c)
}

pub proof fn lemma_text_at_parts(s: Seq<char>, i: int, j: int, c: Seq<char>)
    requires
        text_at(s, i, j, c),
    ensures
        s[i] == '"',
        s[j - 1] == '"',
        s.subrange(i + 1, j - 1) == c,
        forall|m: int| i + 1 <= m < j - 1 ==> s[m] != '"' && s[m] != '\\',
{
    lemma_split_two(s, i, j, seq!['"'] + c, seq!['"']);
    lemma_split_two(s, i, j - 1, seq!['"'], c);
    assert(s.subrange(i, i + 1)[0] == s[i]);
    assert(s.subrange(j - 1, j)[0] == s[j - 1]);
    assert(s.subrange(i, i + 1)[0] == seq!['"'][0]);
    assert(s.subrange(j - 1, j)[0] == seq!['"'][0]);
    assert forall|m: int| i + 1 <= m < j - 1 implies s[m] != '"' && s[m] != '\\' by {
        assert(s.subrange(i + 1, j - 1)[m - i - 1] == s[m]);
        assert(c[m - i - 1] != '"' && c[m - i - 1] != '\\');
    }
}

pub proof fn lemma_text_at_unique(s: Seq<char>, i: int, j1: int, j2: int, c1: Seq<char>, c2: Seq<char>)
    requires
        text_at(s, i, j1, c1),
        text_at(s, i, j2, c2),
    ensures
        j1 == j2,
        c1 == c2,
{
    lemma_text_at_parts(s, i, j1, c1);
    lemma_text_at_parts(s, i, j2, c2);
    if j1 < j2 {
        assert(s[j1 - 1] == '"');
        assert(i + 1 <= j1 - 1 < j2 - 1);
        assert(false);
    }
    if j2 < j1 {
        assert(s[j2 - 1] == '"');
        assert(false);
    }
    assert(c1 =~= c2);
}

/// A decimal quantity as written on the wire: optional sign, canonical
/// integral digits, and, when `scale > 0`, a point and exactly `scale`
/// fractional digits.
pub open spec fn wf_decimal(d: crate::model::Decimal) -> bool {
    &&& d.scale <= 18
    &&& (d.frac as int) < pow10(d.scale as nat)
    &&& (d.neg ==> !(d.int_part == 0 && d.frac == 0))
}

pub open spec fn dec_full_rep(d: crate::model::Decimal) -> Seq<char> {
    let mag = if d.scale == 0 {
        dec_rep(d.int_part as nat)
    } else {
        dec_rep(d.int_part as nat) + seq!['.'] + pad_rep(d.frac as nat, d.scale as nat)
    };
    if d.neg {
        seq!['-'] + mag
    } else {
        mag
    }
}

pub open spec fn dec_at(s: Seq<char>, i: int, j: int, d: crate::model::Decimal) -> bool {
    &&& 0 <= i <= j <= s.len()
    &&& s.subrange(i, j) == dec_full_rep(d)
    &&& wf_decimal(d)
    &&& (j == s.len() || (!is_digit(s[j]) && s[j] != '.'))
}

/// Break a decimal occurrence into its sign, integral run, point and
/// fractional run.
pub proof fn lemma_dec_at_parts(s: Seq<char>, i: int, j: int, d: crate::model::Decimal)
    requires
        dec_at(s, i, j, d),
    ensures
        d.neg ==> s[i] == '-',
        !d.neg ==> is_digit(s[i]),
        ({
            let i0 = if d.neg { i + 1 } else { i };
            let mid = i0 + dec_rep(d.int_part as nat).len();
            &&& mid <= j
            &&& s.subrange(i0, mid) == dec_rep(d.int_part as nat)
            &&& (d.scale == 0 ==> j == mid)
            &&& (mid < s.len() && is_digit(s[mid]) == false && d.scale == 0 ==> true)
            &&& (d.scale > 0 ==> {
                &&& j == mid + 1 + d.scale
                &&& s[mid] == '.'
                &&& s.subrange(mid + 1, j) == pad_rep(d.frac as nat, d.scale as nat)
            })
            &&& (mid == s.len() || !is_digit(s[mid]))
        }),
{
    let ir = dec_rep(d.int_part as nat);
    let fr = pad_rep(d.frac as nat, d.scale as nat);
    lemma_dec_rep_canonical(d.int_part as nat);
    lemma_pad_rep_digits(d.frac as nat, d.scale as nat);
    let i0 = if d.neg { i + 1 } else { i };
    let mid = i0 + ir.len();
    let mag = if d.scale == 0 { ir } else { ir + seq!['.'] + fr };
    assert(s.subrange(i, j).len() == j - i);
    if d.neg {
        lemma_split_two(s, i, j, seq!['-'], mag);
        assert(s.subrange(i, i + 1)[0] == s[i]);
        assert(s.subrange(i, i + 1)[0] == seq!['-'][0]);
    }
    assert(s.subrange(i0, j) == mag);
    if d.scale == 0 {
        assert(j == mid);
        assert(s.subrange(i0, mid) == ir);
    } else {
        lemma_split_two(s, i0, j, ir + seq!['.'], fr);
        lemma_split_two(s, i0, mid + 1, ir, seq!['.']);
        assert(s.subrange(mid, mid + 1)[0] == s[mid]);
        assert(s.subrange(mid, mid + 1)[0] == seq!['.'][0]);
        assert(!is_digit('.'));
    }
    if !d.neg {
        assert(s.subrange(i0, mid)[0] == s[i]);
    } else {
    }
    if d.scale > 0 {
        assert(s[mid] == '.');
    }
}

pub proof fn lemma_dec_at_unique(s: Seq<char>, i: int, j1: int, j2: int, d1: crate::model::Decimal, d2: crate::model::Decimal)
    requires
        dec_at(s, i, j1, d1),
        dec_at(s, i, j2, d2),
    ensures
        j1 == j2,
        d1 == d2,
{
    lemma_dec_at_parts(s, i, j1, d1);
    lemma_dec_at_parts(s, i, j2, d2);
    assert(!is_digit('-'));
    assert(d1.neg == d2.neg);
    let i0 = if d1.neg { i + 1 } else { i };
    let mid1 = i0 + dec_rep(d1.int_part as nat).len();
    let mid2 = i0 + dec_rep(d2.int_part as nat).len();
    lemma_dec_rep_canonical(d1.int_part as nat);
    lemma_dec_rep_canonical(d2.int_part as nat);
    // Both integral runs end at the first non-digit after i0.
    assert(mid1 == s.len() || !is_digit(s[mid1])) by {
        if d1.scale > 0 {
            assert(s[mid1] == '.');
            assert(!is_digit('.'));
        }
    }
    assert(mid2 == s.len() || !is_digit(s[mid2])) by {
        if d2.scale > 0 {
            assert(s[mid2] == '.');
        }
    }
    lemma_digit_seq_end(s, i0, mid1, mid2);
    lemma_digits_val_dec_rep(d1.int_part as nat);
    lemma_digits_val_dec_rep(d2.int_part as nat);
    assert(d1.int_part == d2.int_part);
    let mid = mid1;
    if d1.scale == 0 && d2.scale == 0 {
        assert((d1.frac as int) < 1 && (d2.frac as int) < 1);
        assert(d1 == d2);
    } else if d1.scale == 0 && d2.scale > 0 {
        // d1 ends at mid with a non-point terminator, but d2 puts a point there.
        assert(j1 == mid);
        assert(s[mid] == '.');
        assert(false);
    } else if d2.scale == 0 && d1.scale > 0 {
        assert(j2 == mid);
        assert(s[mid] == '.');
        assert(false);
    } else {
        let f1 = pad_rep(d1.frac as nat, d1.scale as nat);
        let f2 = pad_rep(d2.frac as nat, d2.scale as nat);
        lemma_pad_rep_digits(d1.frac as nat, d1.scale as nat);
        lemma_pad_rep_digits(d2.frac as nat, d2.scale as nat);
        lemma_digit_seq_end(s, mid + 1, j1, j2);
        assert(f1 == f2);
        assert(d1.scale == d2.scale);
        lemma_pad_rep_val(d1.frac as nat, d1.scale as nat);
        lemma_pad_rep_val(d2.frac as nat, d2.scale as nat);
        assert(d1.frac == d2.frac);
        assert(d1 == d2);
    }
}

/// Match the fixed literal `lit` at position `i`, and say exactly when it
/// is not there.
pub fn expect_lit(s: &str, i: usize, lit: &str) -> (r: Option<usize>)
    requires
        i <= s@.len(),
    ensures
        match r {
            Some(j) => j == i + lit@.len() && i + lit@.len() <= s@.len() && s@.subrange(
                i as int,
                j as int,
            ) == lit@,
            None => !(i + lit@.len() <= s@.len() && s@.subrange(i as int, i + lit@.len()) == lit@),
        },
{
    let n = s.unicode_len();
    let ln = lit.unicode_len();
    if n - i < ln {
        return None;
    }
    let mut k: usize = 0;
    while k < ln
        invariant
            n == s@.len(),
            ln == lit@.len(),
            i + ln <= n,
            k <= ln,
            forall|m: int| 0 <= m < k ==> s@[i + m] == lit@[m],
        decreases ln - k,
    {
        if s.get_char(i + k) != lit.get_char(k) {
            proof {
                assert(s@.subrange(i as int, i + lit@.len())[k as int] == s@[i + k]);
            }
            return None;
        }
        k += 1;
    }
    proof {
        assert(s@.subrange(i as int, i + ln) =~= lit@);
    }
    Some(i + ln)
}

/// Read one quoted text value starting at `i`.
pub fn parse_text(s: &str, i: usize) -> (r: Option<(String, usize)>)
    requires
        i <= s@.len(),
    ensures
        match r {
            Some(p) => text_at(s@, i as int, p.1 as int, p.0@) && i < p.1 <= s@.len(),
            None => forall|c: Seq<char>, j2: int| !text_at(s@, i as int, j2, c),
        },
{
    let n = s.unicode_len();
    if i >= n {
        proof {
            assert forall|c: Seq<char>, j2: int| !text_at(s@, i as int, j2, c) by {
                if text_at(s@, i as int, j2, c) {
                    assert(j2 <= s@.len());
                }
            }
        }
        return None;
    }
    if s.get_char(i) != '"' {
        proof {
            assert forall|c: Seq<char>, j2: int| !text_at(s@, i as int, j2, c) by {
                if text_at(s@, i as int, j2, c) {
                    lemma_text_at_parts(s@, i as int, j2, c);
                }
            }
        }
        return None;
    }
    let mut k: usize = i + 1;
    loop
        invariant
            n == s@.len(),
            i + 1 <= k <= n,
            s@[i as int] == '"',
            forall|m: int| i + 1 <= m < k ==> s@[m] != '"' && s@[m] != '\\',
        decreases n - k,
    {
        if k >= n {
            proof {
                assert forall|c: Seq<char>, j2: int| !text_at(s@, i as int, j2, c) by {
                    if text_at(s@, i as int, j2, c) {
                        lemma_text_at_parts(s@, i as int, j2, c);
                        assert(s@[j2 - 1] == '"');
                        assert(i + 1 <= j2 - 1 < k);
                    }
                }
            }
            return None;
        }
        let ch = s.get_char(k);
        if ch == '"' {
            let w = String::from_str(s.substring_char(i + 1, k));
            proof {
                let c = s@.subrange(i + 1, k as int);
                assert forall|m: int| 0 <= m < (k + 1) - i implies s@.subrange(i as int, k + 1)[m]
                    == text_rep(c)[m] by {
                    assert(s@.subrange(i as int, k + 1)[m] == s@[i + m]);
                    if m == 0 {
                    } else if m < k - i {
                        assert(c[m - 1] == s@[i + m]);
                    } else {
                    }
                }
                assert(s@.subrange(i as int, k + 1) =~= text_rep(c));
                assert(wf_text(c)) by {
                    assert forall|m: int| 0 <= m < c.len() implies c[m] != '"' && c[m] != '\\' by {
                        assert(c[m] == s@[i + 1 + m]);
                    }
                }
            }
            return Some((w, k + 1));
        }
        if ch == '\\' {
            proof {
                assert forall|c: Seq<char>, j2: int| !text_at(s@, i as int, j2, c) by {
                    if text_at(s@, i as int, j2, c) {
                        lemma_text_at_parts(s@, i as int, j2, c);
                        assert(s@[j2 - 1] == '"');
                        assert(j2 - 1 >= k);
                        if j2 - 1 == k {
                            assert(false);
                        } else {
                            assert(i + 1 <= k < j2 - 1);
                            assert(s@[k as int] != '\\');
                        }
                    }
                }
            }
            return None;
        }
        k += 1;
    }
}

/// Decide whether `c` is a decimal digit, and give its value.
pub fn digit_of(c: char) -> (r: Option<u64>)
    ensures
        match r {
            Some(d) => is_digit(c) && d == digit_val(c),
            None => !is_digit(c),
        },
{
    let u = c as u32;
    if 48 <= u && u <= 57 {
        Some((u - 48) as u64)
    } else {
        None
    }
}

/// Read one unsigned integer in canonical form starting at `i`, ending at
/// the first non-digit.
pub fn parse_uint(s: &str, i: usize) -> (r: Option<(u64, usize)>)
    requires
        i <= s@.len(),
    ensures
        match r {
            Some(p) => uint_at(s@, i as int, p.1 as int, p.0 as nat) && i < p.1 <= s@.len(),
            None => forall|v: nat, j2: int| v <= u64::MAX ==> !uint_at(s@, i as int, j2, v),
        },
{
    let n = s.unicode_len();
    if i >= n {
        proof {
            assert forall|v: nat, j2: int| !uint_at(s@, i as int, j2, v) by {
                if uint_at(s@, i as int, j2, v) {
                    lemma_dec_rep_canonical(v);
                    assert(s@.subrange(i as int, j2).len() == j2 - i);
                }
            }
        }
        return None;
    }
    let c0 = s.get_char(i);
    let d0opt = digit_of(c0);
    if d0opt.is_none() {
        proof {
            assert forall|v: nat, j2: int| !uint_at(s@, i as int, j2, v) by {
                if uint_at(s@, i as int, j2, v) {
                    lemma_dec_rep_canonical(v);
                    assert(s@.subrange(i as int, j2).len() == j2 - i);
                    assert(s@.subrange(i as int, j2)[0] == s@[i as int]);
                    assert(is_digit(s@[i as int]));
                }
            }
        }
        return None;
    }
    let d0 = d0opt.unwrap();
    proof {
        lemma_char_digit(c0);
    }
    if d0 == 0 {
        if i + 1 < n {
            let c1 = s.get_char(i + 1);
            if digit_of(c1).is_some() {
                proof {
                    assert forall|v: nat, j2: int| !uint_at(s@, i as int, j2, v) by {
                        if uint_at(s@, i as int, j2, v) {
                            lemma_dec_rep_canonical(v);
                            let rep = s@.subrange(i as int, j2);
                            assert(rep.len() == j2 - i);
                            assert(rep[0] == s@[i as int]);
                            assert(s@[i as int] == '0');
                            assert(rep.len() == 1);
                            assert(j2 == i + 1);
                            assert(is_digit(s@[j2]));
                        }
                    }
                }
                return None;
            }
        }
        proof {
            assert(c0 == '0');
            assert(s@.subrange(i as int, i + 1)[0] == s@[i as int]);
            assert(dec_rep(0) == seq![digit_char(0)]);
            assert(s@.subrange(i as int, i + 1) =~= dec_rep(0));
        }
        return Some((0, i + 1));
    }
    let mut v: u64 = d0;
    let mut k: usize = i + 1;
    proof {
        assert(s@.subrange(i as int, i + 1)[0] == s@[i as int]);
        assert(s@.subrange(i as int, i + 1) =~= seq![c0]);
        assert(digits_val(Seq::<char>::empty()) == 0);
        assert(seq![c0].drop_last() =~= Seq::<char>::empty());
        assert(seq![c0].last() == c0);
        assert(digits_val(seq![c0]) == digit_val(c0));
        assert(s@[i as int] != '0');
        assert(all_digits(s@.subrange(i as int, i + 1)));
    }
    loop
        invariant
            n == s@.len(),
            i < k <= n,
            s@[i as int] != '0',
            all_digits(s@.subrange(i as int, k as int)),
            digits_val(s@.subrange(i as int, k as int)) == v,
        decreases n - k,
    {
        let ghost pre = s@.subrange(i as int, k as int);
        if k == n {
            proof {
                assert(canonical_digits(pre)) by {
                    assert(pre[0] == s@[i as int]);
                }
                lemma_canonical_digits_dec_rep(pre);
            }
            return Some((v, k));
        }
        let c = s.get_char(k);
        let dopt = digit_of(c);
        if dopt.is_none() {
            proof {
                assert(canonical_digits(pre)) by {
                    assert(pre[0] == s@[i as int]);
                }
                lemma_canonical_digits_dec_rep(pre);
            }
            return Some((v, k));
        }
        let d = dopt.unwrap();
        proof {
            let cur = s@.subrange(i as int, k + 1);
            assert(cur.drop_last() =~= pre);
            assert(cur.last() == s@[k as int]);
            assert(all_digits(cur)) by {
                assert forall|m: int| 0 <= m < cur.len() implies is_digit(cur[m]) by {
                    assert(cur[m] == s@[i + m]);
                    if m < k - i {
                        assert(pre[m] == s@[i + m]);
                    }
                }
            }
            assert(digits_val(cur) == v * 10 + digit_val(s@[k as int]));
        }
        if v > (u64::MAX - d) / 10 {
            proof {
                let lim = (u64::MAX - d) as int;
                vstd::arithmetic::div_mod::lemma_fundamental_div_mod(lim, 10);
                assert((v as int) * 10 + d > u64::MAX) by (nonlinear_arith)
                    requires
                        v as int >= lim / 10 + 1,
                        lim == 10 * (lim / 10) + lim % 10,
                        0 <= lim % 10 < 10,
                        lim == u64::MAX - d,
                ;
                let cur = s@.subrange(i as int, k + 1);
                assert forall|v0: nat, j2: int| v0 <= u64::MAX implies !uint_at(
                    s@,
                    i as int,
                    j2,
                    v0,
                ) by {
                    if uint_at(s@, i as int, j2, v0) {
                        lemma_dec_rep_canonical(v0);
                        lemma_digits_val_dec_rep(v0);
                        let rep = s@.subrange(i as int, j2);
                        assert(rep.len() == j2 - i);
                        if j2 < k + 1 {
                            assert(is_digit(s@[j2])) by {
                                assert(cur[j2 - i] == s@[j2]);
                            }
                            assert(false);
                        }
                        lemma_digits_val_prefix(rep, k + 1 - i);
                        assert(rep.subrange(0, k + 1 - i) =~= cur);
                        assert(digits_val(cur) <= v0);
                    }
                }
            }
            return None;
        }
        v = v * 10 + d;
        k += 1;
    }
}

/// Read one signed integer in canonical form starting at `i`.
pub fn parse_int(s: &str, i: usize) -> (r: Option<(i64, usize)>)
    requires
        i <= s@.len(),
    ensures
        match r {
            Some(p) => int_at(s@, i as int, p.1 as int, p.0 as int) && i < p.1 <= s@.len(),
            None => forall|v: i64, j2: int| !int_at(s@, i as int, j2, v as int),
        },
{
    let n = s.unicode_len();
    if i < n && s.get_char(i) == '-' {
        let sub = parse_uint(s, i + 1);
        match sub {
            Some(p) => {
                let m = p.0;
                let j = p.1;
                if m == 0 || m > 9223372036854775808u64 {
                    proof {
                        assert forall|v: i64, j2: int| !int_at(s@, i as int, j2, v as int) by {
                            if int_at(s@, i as int, j2, v as int) {
                                lemma_int_at_parts(s@, i as int, j2, v as int);
                                if v >= 0 {
                                    assert(is_digit(s@[i as int]));
                                } else {
                                    lemma_uint_at_unique(
                                        s@,
                                        i + 1,
                                        j as int,
                                        j2,
                                        m as nat,
                                        (-(v as int)) as nat,
                                    );
                                }
                            }
                        }
                    }
                    None
                } else {
                    let val: i64 = if m == 9223372036854775808u64 {
                        i64::MIN
                    } else {
                        -(m as i64)
                    };
                    proof {
                        assert(val as int == -(m as int));
                        lemma_glue_two(s@, i as int, i + 1, j as int);
                        assert(s@.subrange(i as int, i + 1)[0] == s@[i as int]);
                        assert(s@.subrange(i as int, i + 1) =~= seq!['-']);
                        assert(int_rep(val as int) == seq!['-'] + dec_rep(m as nat));
                    }
                    Some((val, j))
                }
            },
            None => {
                proof {
                    assert forall|v: i64, j2: int| !int_at(s@, i as int, j2, v as int) by {
                        if int_at(s@, i as int, j2, v as int) {
                            lemma_int_at_parts(s@, i as int, j2, v as int);
                            if v >= 0 {
                                assert(is_digit(s@[i as int]));
                            } else {
                                assert((-(v as int)) as nat <= u64::MAX);
                            }
                        }
                    }
                }
                None
            },
        }
    } else {
        let sub = parse_uint(s, i);
        match sub {
            Some(p) => {
                let m = p.0;
                let j = p.1;
                if m > 9223372036854775807u64 {
                    proof {
                        assert forall|v: i64, j2: int| !int_at(s@, i as int, j2, v as int) by {
                            if int_at(s@, i as int, j2, v as int) {
                                lemma_int_at_parts(s@, i as int, j2, v as int);
                                if v >= 0 {
                                    lemma_uint_at_unique(
                                        s@,
                                        i as int,
                                        j as int,
                                        j2,
                                        m as nat,
                                        v as nat,
                                    );
                                } else {
                                    lemma_dec_rep_canonical(m as nat);
                                    assert(s@.subrange(i as int, j as int)[0] == s@[i as int]);
                                    assert(is_digit(s@[i as int]));
                                    assert(!is_digit('-'));
                                }
                            }
                        }
                    }
                    None
                } else {
                    proof {
                        assert(int_rep(m as int) == dec_rep(m as nat));
                    }
                    Some((m as i64, j))
                }
            },
            None => {
                proof {
                    assert forall|v: i64, j2: int| !int_at(s@, i as int, j2, v as int) by {
                        if int_at(s@, i as int, j2, v as int) {
                            lemma_int_at_parts(s@, i as int, j2, v as int);
                            if v >= 0 {
                                assert(v as nat <= u64::MAX);
                            } else {
                                assert(s@[i as int] == '-');
                                assert(i < s@.len());
                            }
                        }
                    }
                }
                None
            },
        }
    }
}

pub proof fn lemma_pow10_18()
    ensures
        pow10(18) == 1000000000000000000,
{
    assert(pow10(0) == 1);
    assert(pow10(1) == 10);
    assert(pow10(2) == 100);
    assert(pow10(3) == 1000);
    assert(pow10(4) == 10000);
    assert(pow10(5) == 100000);
    assert(pow10(6) == 1000000);
    assert(pow10(7) == 10000000);
    assert(pow10(8) == 100000000);
    assert(pow10(9) == 1000000000);
    assert(pow10(10) == 10000000000);
    assert(pow10(11) == 100000000000);
    assert(pow10(12) == 1000000000000);
    assert(pow10(13) == 10000000000000);
    assert(pow10(14) == 100000000000000);
    assert(pow10(15) == 1000000000000000);
    assert(pow10(16) == 10000000000000000);
    assert(pow10(17) == 100000000000000000);
}

pub proof fn lemma_pow10_mono(a: nat, b: nat)
    requires
        a <= b,
    ensures
        pow10(a) <= pow10(b),
    decreases b,
{
    if a < b {
        lemma_pow10_mono(a, (b - 1) as nat);
        lemma_pow10_pos((b - 1) as nat);
    }
}

/// Read one decimal quantity starting at `i`: optional sign, canonical
/// integral digits, optionally a point and one to eighteen fractional
/// digits.
pub fn parse_dec(s: &str, i: usize) -> (r: Option<(crate::model::Decimal, usize)>)
    requires
        i <= s@.len(),
    ensures
        match r {
            Some(p) => dec_at(s@, i as int, p.1 as int, p.0) && i < p.1 <= s@.len(),
            None => forall|d2: crate::model::Decimal, j2: int| !dec_at(s@, i as int, j2, d2),
        },
{
    let n = s.unicode_len();
    let neg = i < n && s.get_char(i) == '-';
    let i0 = if neg { i + 1 } else { i };
    proof {
        if neg {
            assert(s@[i as int] == '-');
        }
        assert(!is_digit('-'));
    }
    let sub = parse_uint(s, i0);
    if sub.is_none() {
        proof {
            assert forall|d2: crate::model::Decimal, j2: int| !dec_at(s@, i as int, j2, d2) by {
                if dec_at(s@, i as int, j2, d2) {
                    lemma_dec_at_parts(s@, i as int, j2, d2);
                    if d2.neg != neg {
                        if d2.neg {
                            assert(s@[i as int] == '-');
                            assert(i < s@.len());
                        } else {
                            assert(is_digit(s@[i as int]));
                        }
                    } else {
                        let mid = i0 + dec_rep(d2.int_part as nat).len();
                        assert(uint_at(s@, i0 as int, mid, d2.int_part as nat));
                    }
                }
            }
        }
        return None;
    }
    let p = sub.unwrap();
    let ip = p.0;
    let j = p.1;
    let ghost gmid = j as int;
    if neg {
        proof {
            lemma_glue_two(s@, i as int, i + 1, j as int);
            assert(s@.subrange(i as int, i + 1)[0] == s@[i as int]);
            assert(s@.subrange(i as int, i + 1) =~= seq!['-']);
        }
    }
    if j < n && s.get_char(j) == '.' {
        // fractional digits follow the point
        let mut f: u64 = 0;
        let mut k: usize = j + 1;
        proof {
            lemma_pow10_18();
            assert(s@.subrange(j + 1, j + 1) =~= Seq::<char>::empty());
            assert(digits_val(Seq::<char>::empty()) == 0);
            assert(all_digits(s@.subrange(j + 1, j + 1)));
        }
        loop
            invariant
                n == s@.len(),
                i <= s@.len(),
                j + 1 <= k <= n,
                k - (j + 1) <= 18,
                neg ==> i0 == i + 1 && s@[i as int] == '-',
                !neg ==> i0 == i && (i >= n || s@[i as int] != '-'),
                i0 <= j <= n,
                uint_at(s@, i0 as int, j as int, ip as nat),
                s@[j as int] == '.',
                j < n,
                all_digits(s@.subrange(j + 1, k as int)),
                digits_val(s@.subrange(j + 1, k as int)) == f,
                (f as int) < pow10((k - (j + 1)) as nat),
            decreases n - k,
        {
            let ghost pre = s@.subrange(j + 1, k as int);
            let mut stop = k == n;
            let mut dig: u64 = 0;
            if !stop {
                let dopt = digit_of(s.get_char(k));
                if dopt.is_none() {
                    stop = true;
                } else {
                    dig = dopt.unwrap();
                }
            }
            if stop {
                // the fractional run ends here
                let scale = k - (j + 1);
                if scale == 0 {
                    proof {
                        assert forall|d2: crate::model::Decimal, j2: int| !dec_at(
                            s@,
                            i as int,
                            j2,
                            d2,
                        ) by {
                            if dec_at(s@, i as int, j2, d2) {
                                lemma_dec_at_parts(s@, i as int, j2, d2);
                                let mid2 = (if d2.neg { i + 1 } else { i as int })
                                    + dec_rep(d2.int_part as nat).len();
                                if d2.neg == neg {
                                    assert(uint_at(s@, i0 as int, mid2, d2.int_part as nat));
                                    lemma_uint_at_unique(
                                        s@,
                                        i0 as int,
                                        j as int,
                                        mid2,
                                        ip as nat,
                                        d2.int_part as nat,
                                    );
                                    if d2.scale == 0 {
                                        assert(j2 == j);
                                        assert(s@[j2] == '.');
                                    } else {
                                        lemma_pad_rep_digits(d2.frac as nat, d2.scale as nat);
                                        assert(s@.subrange(j + 1, j2)[0] == s@[j + 1]);
                                        assert(is_digit(s@[j + 1]));
                                        assert(k == j + 1);
                                    }
                                } else {
                                    if d2.neg {
                                        assert(s@[i as int] == '-');
                                    } else {
                                        assert(is_digit(s@[i as int]));
                                    }
                                }
                            }
                        }
                    }
                    return None;
                }
                if k < n && s.get_char(k) == '.' {
                    proof {
                        assert forall|d2: crate::model::Decimal, j2: int| !dec_at(
                            s@,
                            i as int,
                            j2,
                            d2,
                        ) by {
                            if dec_at(s@, i as int, j2, d2) {
                                lemma_dec_at_parts(s@, i as int, j2, d2);
                                let mid2 = (if d2.neg { i + 1 } else { i as int })
                                    + dec_rep(d2.int_part as nat).len();
                                if d2.neg == neg {
                                    assert(uint_at(s@, i0 as int, mid2, d2.int_part as nat));
                                    lemma_uint_at_unique(
                                        s@,
                                        i0 as int,
                                        j as int,
                                        mid2,
                                        ip as nat,
                                        d2.int_part as nat,
                                    );
                                    if d2.scale == 0 {
                                        assert(j2 == j);
                                        assert(s@[j2] == '.');
                                    } else {
                                        lemma_pad_rep_digits(d2.frac as nat, d2.scale as nat);
                                        lemma_digit_seq_end(s@, j + 1, j2, k as int);
                                        assert(s@[j2] == '.');
                                    }
                                } else {
                                    if d2.neg {
                                        assert(s@[i as int] == '-');
                                    } else {
                                        assert(is_digit(s@[i as int]));
                                    }
                                }
                            }
                        }
                    }
                    return None;
                }
                if neg && ip == 0 && f == 0 {
                    proof {
                        assert forall|d2: crate::model::Decimal, j2: int| !dec_at(
                            s@,
                            i as int,
                            j2,
                            d2,
                        ) by {
                            if dec_at(s@, i as int, j2, d2) {
                                lemma_dec_at_parts(s@, i as int, j2, d2);
                                if d2.neg {
                                    let mid2 = i + 1 + dec_rep(d2.int_part as nat).len();
                                    assert(uint_at(s@, i0 as int, mid2, d2.int_part as nat));
                                    lemma_uint_at_unique(
                                        s@,
                                        i0 as int,
                                        j as int,
                                        mid2,
                                        ip as nat,
                                        d2.int_part as nat,
                                    );
                                    assert(d2.int_part == 0);
                                    if d2.scale == 0 {
                                        assert(j2 == j);
                                        assert(s@[j2] == '.');
                                    } else {
                                        lemma_pad_rep_digits(d2.frac as nat, d2.scale as nat);
                                        lemma_digit_seq_end(s@, j + 1, j2, k as int);
                                        assert(s@.subrange(j + 1, j2) == pre);
                                        lemma_pad_rep_val(d2.frac as nat, d2.scale as nat);
                                        assert(d2.frac == 0);
                                    }
                                } else {
                                    assert(is_digit(s@[i as int]));
                                }
                            }
                        }
                    }
                    return None;
                }
                let d = crate::model::Decimal { neg, int_part: ip, frac: f, scale: scale as u32 };
                proof {
                    lemma_digits_val_bounds(pre);
                    assert(wf_decimal(d));
                    lemma_digits_pad_rep(pre);
                    assert(pad_rep(f as nat, scale as nat) == pre);
                    lemma_glue_two(s@, i0 as int, j as int, k as int);
                    lemma_glue_two(s@, j as int, j + 1, k as int);
                    assert(s@.subrange(j as int, j + 1)[0] == s@[j as int]);
                    assert(s@.subrange(j as int, j + 1) =~= seq!['.']);
                    assert(s@.subrange(i0 as int, k as int) == dec_rep(ip as nat) + (seq!['.']
                        + pre));
                    assert(dec_rep(ip as nat) + seq!['.'] + pre =~= dec_rep(ip as nat) + (seq!['.']
                        + pre));
                    if neg {
                        lemma_glue_two(s@, i as int, i + 1, k as int);
                        assert(dec_full_rep(d) =~= seq!['-'] + (dec_rep(ip as nat) + seq!['.']
                            + pre));
                        assert(s@.subrange(i as int, k as int) =~= dec_full_rep(d));
                    } else {
                        assert(s@.subrange(i as int, k as int) =~= dec_full_rep(d));
                    }
                    assert(dec_at(s@, i as int, k as int, d));
                }
                return Some((d, k));
            }
            // one more fractional digit
            if k - (j + 1) == 18 {
                proof {
                    assert(is_digit(s@[k as int]));
                    assert forall|d2: crate::model::Decimal, j2: int| !dec_at(
                        s@,
                        i as int,
                        j2,
                        d2,
                    ) by {
                        if dec_at(s@, i as int, j2, d2) {
                            lemma_dec_at_parts(s@, i as int, j2, d2);
                            let mid2 = (if d2.neg { i + 1 } else { i as int }) + dec_rep(
                                d2.int_part as nat,
                            ).len();
                            if d2.neg == neg {
                                assert(uint_at(s@, i0 as int, mid2, d2.int_part as nat));
                                lemma_uint_at_unique(
                                    s@,
                                    i0 as int,
                                    j as int,
                                    mid2,
                                    ip as nat,
                                    d2.int_part as nat,
                                );
                                if d2.scale == 0 {
                                    assert(j2 == j);
                                    assert(s@[j2] == '.');
                                } else {
                                    // the candidate's run ends inside our digit run
                                    assert(j2 == j + 1 + d2.scale);
                                    assert(j2 <= k);
                                    assert(j2 < s@.len());
                                    assert(is_digit(s@[j2])) by {
                                        if j2 < k {
                                            assert(s@.subrange(j + 1, k as int)[j2 - (j + 1)]
                                                == s@[j2]);
                                        }
                                    }
                                }
                            } else {
                                if d2.neg {
                                    assert(s@[i as int] == '-');
                                } else {
                                    assert(is_digit(s@[i as int]));
                                }
                            }
                        }
                    }
                }
                return None;
            }
            proof {
                let cur = s@.subrange(j + 1, k + 1);
                assert(cur.drop_last() =~= pre);
                assert(cur.last() == s@[k as int]);
                assert(all_digits(cur)) by {
                    assert forall|m: int| 0 <= m < cur.len() implies is_digit(cur[m]) by {
                        assert(cur[m] == s@[j + 1 + m]);
                        if m < k - (j + 1) {
                            assert(pre[m] == s@[j + 1 + m]);
                        }
                    }
                }
                lemma_pow10_mono((k - (j + 1)) as nat, 17);
                lemma_pow10_18();
                assert((f as int) * 10 + dig < pow10(18)) by (nonlinear_arith)
                    requires
                        0 <= f as int,
                        (f as int) < pow10(17),
                        0 <= dig <= 9,
                        pow10(18) == 10 * pow10(17),
                ;
                assert(digits_val(cur) == f * 10 + digit_val(s@[k as int]));
            }
            f = f * 10 + dig;
            k += 1;
        }
    } else {
        // no fractional part: the integral run's delimiter must not be a point
        proof {
            assert(j == n || s@[j as int] != '.');
            assert forall|d2: crate::model::Decimal, j2: int|
                dec_at(s@, i as int, j2, d2) implies d2 == (crate::model::Decimal {
                neg,
                int_part: ip,
                frac: 0,
                scale: 0,
            }) && j2 == j as int by {
                lemma_dec_at_parts(s@, i as int, j2, d2);
                if d2.neg == neg {
                    let mid2 = (if d2.neg { i + 1 } else { i as int }) + dec_rep(
                        d2.int_part as nat,
                    ).len();
                    assert(uint_at(s@, i0 as int, mid2, d2.int_part as nat));
                    lemma_uint_at_unique(s@, i0 as int, j as int, mid2, ip as nat, d2.int_part as nat);
                    if d2.scale > 0 {
                        assert(s@[j as int] == '.');
                        assert(false);
                    }
                    assert((d2.frac as int) < pow10(0));
                    assert(d2.frac == 0);
                } else {
                    if d2.neg {
                        assert(s@[i as int] == '-');
                        assert(i < s@.len());
                    } else {
                        assert(is_digit(s@[i as int]));
                    }
                    assert(false);
                }
            }
        }
        if neg && ip == 0 {
            // "-0" is not a well-formed quantity
            return None;
        }
        let d = crate::model::Decimal { neg, int_part: ip, frac: 0, scale: 0 };
        proof {
            assert(wf_decimal(d));
            if neg {
                assert(dec_full_rep(d) == seq!['-'] + dec_rep(ip as nat));
                assert(s@.subrange(i as int, j as int) == dec_full_rep(d));
            } else {
                assert(s@.subrange(i as int, j as int) == dec_full_rep(d));
            }
            assert(dec_at(s@, i as int, j as int, d));
        }
        return Some((d, j));
    }
}

} // verus!
