//! Character-level text helpers shared by the model, the parser and the
//! report renderer.  All internal text work happens on `Vec<char>`, which
//! vstd specifies completely; `String` values cross the boundary through
//! `to_chars` and `from_chars`.

use vstd::prelude::*;
use vstd::string::StrSliceExecFns;

verus! {

// --- character classes and digits ---

pub open spec fn is_digit(c: char) -> bool {
    '0' as u32 <= c as u32 && c as u32 <= '9' as u32
}

pub open spec fn digit_val(c: char) -> int {
    c as u32 - '0' as u32
}

pub open spec fn digit_of(n: int) -> char {
    if n == 0 { '0' }
    else if n == 1 { '1' }
    else if n == 2 { '2' }
    else if n == 3 { '3' }
    else if n == 4 { '4' }
    else if n == 5 { '5' }
    else if n == 6 { '6' }
    else if n == 7 { '7' }
    else if n == 8 { '8' }
    else { '9' }
}

/// Decimal digit string of `n`, most significant digit first.
pub open spec fn dec_str(n: nat) -> Seq<char>
    decreases n,
{
    if n < 10 {
        seq![digit_of(n as int)]
    } else {
        dec_str(n / 10).push(digit_of((n % 10) as int))
    }
}

pub open spec fn repeat_char(c: char, n: int) -> Seq<char>
    decreases n,
{
    if n <= 0 {
        Seq::empty()
    } else {
        repeat_char(c, n - 1).push(c)
    }
}

/// `n` rendered in decimal, left-padded with zeros to at least `w` characters.
pub open spec fn zero_pad(n: nat, w: int) -> Seq<char> {
    repeat_char('0', w - dec_str(n).len()) + dec_str(n)
}

/// `s` left-padded with spaces to at least `w` characters.
pub open spec fn pad_left(s: Seq<char>, w: int) -> Seq<char> {
    repeat_char(' ', w - s.len()) + s
}

/// `s` right-padded with spaces to at least `w` characters.
pub open spec fn pad_right(s: Seq<char>, w: int) -> Seq<char> {
    s + repeat_char(' ', w - s.len())
}

/// Numeric value of a digit string read most significant digit first.
pub open spec fn digits_val(s: Seq<char>) -> int
    decreases s.len(),
{
    if s.len() == 0 {
        0
    } else {
        digits_val(s.drop_last()) * 10 + digit_val(s.last())
    }
}

pub fn is_digit_char(c: char) -> (r: bool)
    ensures
        r == is_digit(c),
{
    let u = c as u32;
    48 <= u && u <= 57
}

pub fn digit_value(c: char) -> (r: u16)
    requires
        is_digit(c),
    ensures
        r as int == digit_val(c),
        r < 10,
{
    (c as u32 - 48) as u16
}

pub proof fn lemma_digit_of_val(n: int)
    requires
        0 <= n < 10,
    ensures
        digit_val(digit_of(n)) == n,
        is_digit(digit_of(n)),
{
}

/// Every character of a decimal rendering is a digit.
pub proof fn lemma_dec_str_all_digits(n: nat)
    ensures
        forall|j: int| 0 <= j < dec_str(n).len() ==> is_digit(#[trigger] dec_str(n)[j]),
    decreases n,
{
    if n < 10 {
        lemma_digit_of_val(n as int);
    } else {
        lemma_dec_str_all_digits(n / 10);
        lemma_digit_of_val((n % 10) as int);
        assert forall|j: int| 0 <= j < dec_str(n).len() implies
            is_digit(#[trigger] dec_str(n)[j]) by {
            if j < dec_str(n).len() - 1 {
                assert(dec_str(n)[j] == dec_str(n / 10)[j]);
            } else {
                assert(dec_str(n)[j] == digit_of((n % 10) as int));
            }
        }
    }
}

/// Reading a decimal rendering back gives the number.
pub proof fn lemma_digits_val_dec(n: nat)
    ensures
        digits_val(dec_str(n)) == n,
    decreases n,
{
    if n < 10 {
        lemma_digit_of_val(n as int);
        assert(dec_str(n) == seq![digit_of(n as int)]);
        assert(dec_str(n).drop_last() =~= Seq::<char>::empty());
        assert(digits_val(Seq::<char>::empty()) == 0);
        assert(dec_str(n).last() == digit_of(n as int));
        assert(digits_val(dec_str(n))
            == digits_val(dec_str(n).drop_last()) * 10 + digit_val(dec_str(n).last()));
    } else {
        lemma_digits_val_dec(n / 10);
        lemma_digit_of_val((n % 10) as int);
        assert(dec_str(n) == dec_str(n / 10).push(digit_of((n % 10) as int)));
        assert(dec_str(n).drop_last() =~= dec_str(n / 10));
        assert(dec_str(n).last() == digit_of((n % 10) as int));
        assert(digits_val(dec_str(n))
            == digits_val(dec_str(n).drop_last()) * 10 + digit_val(dec_str(n).last()));
    }
}

/// Leading zeros do not change the value of a digit string.
pub proof fn lemma_digits_val_zeros(k: int, s: Seq<char>)
    ensures
        digits_val(repeat_char('0', k) + s) == digits_val(s),
    decreases s.len(),
{
    if s.len() == 0 {
        assert(repeat_char('0', k) + s =~= repeat_char('0', k));
        lemma_digits_val_all_zeros(k);
    } else {
        lemma_digits_val_zeros(k, s.drop_last());
        assert((repeat_char('0', k) + s).drop_last() =~= repeat_char('0', k) + s.drop_last());
        assert((repeat_char('0', k) + s).last() == s.last());
    }
}

proof fn lemma_digits_val_all_zeros(k: int)
    ensures
        digits_val(repeat_char('0', k)) == 0,
    decreases k,
{
    if k > 0 {
        lemma_digits_val_all_zeros(k - 1);
        assert(repeat_char('0', k).drop_last() =~= repeat_char('0', k - 1));
        assert(repeat_char('0', k).last() == '0');
    }
}

/// A zero-padded rendering of a small number has exactly the asked
/// width, consists of digits, and reads back as the number.
pub proof fn lemma_zero_pad_props(n: nat, w: nat)
    requires
        1 <= w,
        n < pow10(w),
    ensures
        zero_pad(n, w as int).len() == w,
        forall|j: int| 0 <= j < w ==> is_digit(#[trigger] zero_pad(n, w as int)[j]),
        digits_val(zero_pad(n, w as int)) == n,
{
    lemma_dec_str_len_bound(n, w);
    lemma_dec_str_all_digits(n);
    lemma_digits_val_dec(n);
    lemma_digits_val_zeros(w - dec_str(n).len(), dec_str(n));
    lemma_repeat_char_len('0', w - dec_str(n).len());
    assert forall|j: int| 0 <= j < w implies is_digit(#[trigger] zero_pad(n, w as int)[j]) by {
        let z = w - dec_str(n).len();
        if j < z {
            lemma_repeat_char_is('0', z, j);
        }
    }
}

proof fn lemma_repeat_char_len(c: char, k: int)
    ensures
        repeat_char(c, k).len() == if k <= 0 { 0int } else { k },
    decreases k,
{
    if k > 0 {
        lemma_repeat_char_len(c, k - 1);
    }
}

proof fn lemma_repeat_char_is(c: char, k: int, j: int)
    requires
        0 <= j < k,
    ensures
        repeat_char(c, k).len() == k,
        repeat_char(c, k)[j] == c,
    decreases k,
{
    lemma_repeat_char_len(c, k);
    if j < k - 1 {
        lemma_repeat_char_is(c, k - 1, j);
    } else {
        lemma_repeat_char_len(c, k - 1);
    }
}

// --- conversions between &str/String and Vec<char> ---

pub fn to_chars(s: &str) -> (v: Vec<char>)
    ensures
        v@ == s@,
{
    let n: usize = s.unicode_len();
    let mut v: Vec<char> = Vec::new();
    let mut i: usize = 0;
    while i < n
        invariant
            n == s@.len(),
            i <= n,
            v@ == s@.subrange(0, i as int),
        decreases n - i,
    {
        v.push(s.get_char(i));
        i = i + 1;
        proof {
            assert(v@ =~= s@.subrange(0, i as int));
        }
    }
    proof {
        assert(v@ =~= s@);
    }
    v
}

/// Relies on `String::push`: appends the given character to the end of the
/// string.
#[verifier::external_body]
fn push_char(s: &mut String, c: char)
    ensures
        final(s)@ == old(s)@.push(c),
{
    s.push(c);
}

pub fn from_chars(v: &Vec<char>) -> (s: String)
    ensures
        s@ == v@,
{
    let mut s = String::new();
    let mut i: usize = 0;
    while i < v.len()
        invariant
            i <= v@.len(),
            s@ == v@.subrange(0, i as int),
        decreases v@.len() - i,
    {
        push_char(&mut s, v[i]);
        i = i + 1;
        proof {
            assert(s@ =~= v@.subrange(0, i as int));
        }
    }
    proof {
        assert(s@ =~= v@);
    }
    s
}

/// Appends every character of `s` to `out`.
pub fn push_str_chars(out: &mut Vec<char>, s: &str)
    ensures
        final(out)@ == old(out)@ + s@,
{
    let n: usize = s.unicode_len();
    let mut i: usize = 0;
    while i < n
        invariant
            n == s@.len(),
            i <= n,
            out@ == old(out)@ + s@.subrange(0, i as int),
        decreases n - i,
    {
        out.push(s.get_char(i));
        i = i + 1;
        proof {
            assert(out@ =~= old(out)@ + s@.subrange(0, i as int));
        }
    }
    proof {
        assert(out@ =~= old(out)@ + s@);
    }
}

/// Appends every character of `src` to `out`.
pub fn push_chars(out: &mut Vec<char>, src: &Vec<char>)
    ensures
        final(out)@ == old(out)@ + src@,
{
    let mut i: usize = 0;
    while i < src.len()
        invariant
            i <= src@.len(),
            out@ == old(out)@ + src@.subrange(0, i as int),
        decreases src@.len() - i,
    {
        out.push(src[i]);
        i = i + 1;
        proof {
            assert(out@ =~= old(out)@ + src@.subrange(0, i as int));
        }
    }
    proof {
        assert(out@ =~= old(out)@ + src@);
    }
}

fn digit_char(n: u32) -> (c: char)
    requires
        n < 10,
    ensures
        c == digit_of(n as int),
{
    if n == 0 { '0' }
    else if n == 1 { '1' }
    else if n == 2 { '2' }
    else if n == 3 { '3' }
    else if n == 4 { '4' }
    else if n == 5 { '5' }
    else if n == 6 { '6' }
    else if n == 7 { '7' }
    else if n == 8 { '8' }
    else { '9' }
}

/// Appends the decimal rendering of `n` to `out`.
pub fn push_dec_u32(out: &mut Vec<char>, n: u32)
    ensures
        final(out)@ == old(out)@ + dec_str(n as nat),
    decreases n,
{
    if n < 10 {
        out.push(digit_char(n));
    } else {
        push_dec_u32(out, n / 10);
        out.push(digit_char(n % 10));
    }
}

pub open spec fn pow10(k: nat) -> nat
    decreases k,
{
    if k == 0 {
        1
    } else {
        10 * pow10((k - 1) as nat)
    }
}

proof fn lemma_dec_str_len_bound(n: nat, k: nat)
    requires
        k >= 1,
        n < pow10(k),
    ensures
        dec_str(n).len() <= k,
    decreases n,
{
    if n >= 10 {
        if k == 1 {
            reveal_with_fuel(pow10, 2);
            assert(pow10(1) == 10);
            assert(false);
        }
        assert(n < 10 * pow10((k - 1) as nat));
        assert(n / 10 < pow10((k - 1) as nat)) by (nonlinear_arith)
            requires
                n < 10 * pow10((k - 1) as nat),
        {}
        lemma_dec_str_len_bound(n / 10, (k - 1) as nat);
    }
}

/// Number of characters in the decimal rendering of `n`.
pub fn dec_len_u32(n: u32) -> (l: usize)
    ensures
        l == dec_str(n as nat).len(),
        1 <= l <= 10,
    decreases n,
{
    proof {
        reveal_with_fuel(pow10, 11);
        assert(pow10(10) == 10000000000);
        lemma_dec_str_len_bound(n as nat, 10);
    }
    if n < 10 {
        1
    } else {
        1 + dec_len_u32(n / 10)
    }
}

/// Appends `n` copies of `c` to `out`.
pub fn push_repeat(out: &mut Vec<char>, c: char, n: usize)
    ensures
        final(out)@ == old(out)@ + repeat_char(c, n as int),
{
    let mut i: usize = 0;
    while i < n
        invariant
            i <= n,
            out@ == old(out)@ + repeat_char(c, i as int),
        decreases n - i,
    {
        out.push(c);
        i = i + 1;
    }
}

/// Appends the decimal rendering of `n`, zero-padded to at least `w`
/// characters, to `out`.
pub fn push_zero_pad_u32(out: &mut Vec<char>, n: u32, w: usize)
    ensures
        final(out)@ == old(out)@ + zero_pad(n as nat, w as int),
{
    let l: usize = dec_len_u32(n);
    if l < w {
        push_repeat(out, '0', w - l);
    } else {
        proof {
            assert(repeat_char('0', w - dec_str(n as nat).len()) =~= Seq::<char>::empty());
        }
    }
    push_dec_u32(out, n);
    proof {
        assert(old(out)@ + (repeat_char('0', w - dec_str(n as nat).len()) + dec_str(n as nat))
            =~= old(out)@ + repeat_char('0', w - dec_str(n as nat).len()) + dec_str(n as nat));
    }
}

// --- equality and trimming ---

/// Compares two character vectors for equality.
pub fn chars_eq(a: &Vec<char>, b: &Vec<char>) -> (r: bool)
    ensures
        r == (a@ == b@),
{
    if a.len() != b.len() {
        return false;
    }
    let mut i: usize = 0;
    while i < a.len()
        invariant
            a@.len() == b@.len(),
            i <= a@.len(),
            forall|j: int| 0 <= j < i ==> a@[j] == b@[j],
        decreases a@.len() - i,
    {
        if a[i] != b[i] {
            return false;
        }
        i = i + 1;
    }
    proof {
        assert(a@ =~= b@);
    }
    true
}

/// Compares a string with a character vector.
pub fn str_eq_chars(s: &str, v: &Vec<char>) -> (r: bool)
    ensures
        r == (s@ == v@),
{
    let sv = to_chars(s);
    chars_eq(&sv, v)
}

/// Lexicographic order on character sequences, by code point.
pub open spec fn seq_lt(a: Seq<char>, b: Seq<char>) -> bool
    decreases a.len(),
{
    if b.len() == 0 {
        false
    } else if a.len() == 0 {
        true
    } else if a[0] != b[0] {
        a[0] < b[0]
    } else {
        seq_lt(a.skip(1), b.skip(1))
    }
}

/// Two sequences neither of which precedes the other are equal.
pub proof fn lemma_seq_lt_connex(a: Seq<char>, b: Seq<char>)
    requires
        !seq_lt(a, b),
        !seq_lt(b, a),
    ensures
        a == b,
    decreases a.len(),
{
    if b.len() == 0 {
        assert(a.len() == 0);
        assert(a =~= b);
    } else if a.len() == 0 {
    } else if a[0] == b[0] {
        lemma_seq_lt_connex(a.skip(1), b.skip(1));
        assert(a =~= b) by {
            assert(forall|i: int| 1 <= i < a.len() ==> a[i] == a.skip(1)[i - 1]
                && b[i] == b.skip(1)[i - 1]);
        }
    }
}

/// The order is irreflexive and asymmetric.
pub proof fn lemma_seq_lt_asymm(a: Seq<char>, b: Seq<char>)
    requires
        seq_lt(a, b),
    ensures
        !seq_lt(b, a),
        a != b,
    decreases a.len(),
{
    if b.len() == 0 {
    } else if a.len() == 0 {
        assert(b.len() > 0);
    } else if a[0] != b[0] {
    } else {
        lemma_seq_lt_asymm(a.skip(1), b.skip(1));
        if a == b {
            assert(a.skip(1) == b.skip(1));
        }
    }
}

/// The order is transitive.
pub proof fn lemma_seq_lt_trans(a: Seq<char>, b: Seq<char>, c: Seq<char>)
    requires
        seq_lt(a, b),
        seq_lt(b, c),
    ensures
        seq_lt(a, c),
    decreases a.len(),
{
    if c.len() == 0 {
        assert(!seq_lt(b, c));
    } else if a.len() == 0 {
    } else {
        assert(b.len() > 0);
        if a[0] == b[0] && b[0] == c[0] {
            lemma_seq_lt_trans(a.skip(1), b.skip(1), c.skip(1));
        }
    }
}

/// Compares two character vectors lexicographically.
pub fn chars_lt(a: &Vec<char>, b: &Vec<char>) -> (r: bool)
    ensures
        r == seq_lt(a@, b@),
{
    let mut i: usize = 0;
    proof {
        assert(a@.skip(0) =~= a@);
        assert(b@.skip(0) =~= b@);
    }
    loop
        invariant
            i <= a@.len(),
            i <= b@.len(),
            forall|j: int| 0 <= j < i ==> a@[j] == b@[j],
            seq_lt(a@, b@) == seq_lt(a@.skip(i as int), b@.skip(i as int)),
        decreases a@.len() - i,
    {
        proof {
            assert(a@.skip(i as int).len() == a@.len() - i);
        }
        if i >= b.len() {
            return false;
        }
        if i >= a.len() {
            return true;
        }
        let ca = a[i];
        let cb = b[i];
        if ca != cb {
            return ca < cb;
        }
        proof {
            let sa = a@.skip(i as int);
            let sb = b@.skip(i as int);
            assert(sa[0] == a@[i as int] && sb[0] == b@[i as int]);
            assert(sa.skip(1) =~= a@.skip(i as int + 1));
            assert(sb.skip(1) =~= b@.skip(i as int + 1));
        }
        i = i + 1;
    }
}

/// Compares two strings by their characters.
pub fn str_eq(a: &str, b: &str) -> (r: bool)
    ensures
        r == (a@ == b@),
{
    let va = to_chars(a);
    str_eq_chars(b, &va)
}

/// The characters that `char::is_whitespace` accepts (the Unicode
/// `White_Space` property).
pub open spec fn is_space_char(c: char) -> bool {
    c == ' ' || c == '\t' || c == '\n' || c == '\r'
        || c as u32 == 0x0b || c as u32 == 0x0c
        || c as u32 == 0x85 || c as u32 == 0xa0
        || c as u32 == 0x1680
        || (0x2000 <= c as u32 && c as u32 <= 0x200a)
        || c as u32 == 0x2028 || c as u32 == 0x2029
        || c as u32 == 0x202f || c as u32 == 0x205f
        || c as u32 == 0x3000
}

pub fn is_space(c: char) -> (r: bool)
    ensures
        r == is_space_char(c),
{
    let u = c as u32;
    u == 0x20 || u == 0x09 || u == 0x0a || u == 0x0d
        || u == 0x0b || u == 0x0c
        || u == 0x85 || u == 0xa0
        || u == 0x1680
        || (0x2000 <= u && u <= 0x200a)
        || u == 0x2028 || u == 0x2029
        || u == 0x202f || u == 0x205f
        || u == 0x3000
}

pub open spec fn trim_start_spec(s: Seq<char>) -> Seq<char>
    decreases s.len(),
{
    if s.len() > 0 && is_space_char(s[0]) {
        trim_start_spec(s.skip(1))
    } else {
        s
    }
}

pub open spec fn trim_end_spec(s: Seq<char>) -> Seq<char>
    decreases s.len(),
{
    if s.len() > 0 && is_space_char(s.last()) {
        trim_end_spec(s.drop_last())
    } else {
        s
    }
}

/// `s` with leading and trailing whitespace removed, as `str::trim` does.
pub open spec fn trim_spec(s: Seq<char>) -> Seq<char> {
    trim_end_spec(trim_start_spec(s))
}

proof fn lemma_trim_start_skip(s: Seq<char>, i: int)
    requires
        0 <= i < s.len(),
        forall|j: int| 0 <= j < i ==> is_space_char(s[j]),
        !is_space_char(s[i]),
    ensures
        trim_start_spec(s) == s.skip(i),
    decreases i,
{
    if i == 0 {
    } else {
        assert(is_space_char(s[0]));
        lemma_trim_start_skip(s.skip(1), i - 1);
        assert(s.skip(1).skip(i - 1) =~= s.skip(i));
    }
}

proof fn lemma_trim_start_all_spaces(s: Seq<char>)
    requires
        forall|j: int| 0 <= j < s.len() ==> is_space_char(s[j]),
    ensures
        trim_start_spec(s) == Seq::<char>::empty(),
    decreases s.len(),
{
    if s.len() == 0 {
        assert(s =~= Seq::<char>::empty());
    } else {
        lemma_trim_start_all_spaces(s.skip(1));
    }
}

proof fn lemma_trim_end_take(s: Seq<char>, e: int)
    requires
        0 < e <= s.len(),
        forall|j: int| e <= j < s.len() ==> is_space_char(s[j]),
        !is_space_char(s[e - 1]),
    ensures
        trim_end_spec(s) == s.take(e),
    decreases s.len(),
{
    if e == s.len() {
        assert(s.take(e) =~= s);
    } else {
        assert(is_space_char(s.last()));
        lemma_trim_end_take(s.drop_last(), e);
        assert(s.drop_last().take(e) =~= s.take(e));
    }
}

/// Trimming never lengthens a string.
pub proof fn lemma_trim_spec_len(s: Seq<char>)
    ensures
        trim_spec(s).len() <= s.len(),
{
    lemma_trim_start_len(s);
    lemma_trim_end_len(trim_start_spec(s));
}

proof fn lemma_trim_start_len(s: Seq<char>)
    ensures
        trim_start_spec(s).len() <= s.len(),
    decreases s.len(),
{
    if s.len() > 0 && is_space_char(s[0]) {
        lemma_trim_start_len(s.skip(1));
    }
}

proof fn lemma_trim_end_len(s: Seq<char>)
    ensures
        trim_end_spec(s).len() <= s.len(),
    decreases s.len(),
{
    if s.len() > 0 && is_space_char(s.last()) {
        lemma_trim_end_len(s.drop_last());
    }
}

/// `v` with leading and trailing whitespace removed.
pub fn trim_chars(v: &Vec<char>) -> (r: Vec<char>)
    ensures
        r@ == trim_spec(v@),
{
    let n: usize = v.len();
    let mut start: usize = 0;
    while start < n && is_space(v[start])
        invariant
            n == v@.len(),
            start <= n,
            forall|j: int| 0 <= j < start ==> is_space_char(v@[j]),
        decreases n - start,
    {
        start = start + 1;
    }
    if start == n {
        proof {
            lemma_trim_start_all_spaces(v@);
        }
        return Vec::new();
    }
    proof {
        lemma_trim_start_skip(v@, start as int);
    }
    let mut end: usize = n;
    while end > start && is_space(v[end - 1])
        invariant
            n == v@.len(),
            start <= end <= n,
            forall|j: int| end <= j < n ==> is_space_char(v@[j]),
        decreases end,
    {
        end = end - 1;
    }
    proof {
        assert(!is_space_char(v@[start as int]));
        assert(end > start);
        let t = v@.skip(start as int);
        assert(forall|j: int| end - start <= j < t.len() ==> is_space_char(#[trigger] t[j]));
        assert(!is_space_char(t[end - start - 1]));
        lemma_trim_end_take(t, end - start);
    }
    let mut r: Vec<char> = Vec::new();
    let mut i: usize = start;
    while i < end
        invariant
            start <= i <= end <= n,
            n == v@.len(),
            r@ == v@.subrange(start as int, i as int),
        decreases end - i,
    {
        r.push(v[i]);
        i = i + 1;
        proof {
            assert(r@ =~= v@.subrange(start as int, i as int));
        }
    }
    proof {
        assert(r@ =~= v@.skip(start as int).take(end - start as int));
    }
    r
}

/// Copies the characters of `v` between `a` and `b`.
pub fn sub_chars(v: &Vec<char>, a: usize, b: usize) -> (r: Vec<char>)
    requires
        a <= b <= v@.len(),
    ensures
        r@ == v@.subrange(a as int, b as int),
{
    let mut r: Vec<char> = Vec::new();
    let mut i = a;
    while i < b
        invariant
            a <= i <= b <= v@.len(),
            r@ == v@.subrange(a as int, i as int),
        decreases b - i,
    {
        r.push(v[i]);
        i = i + 1;
        proof {
            assert(r@ =~= v@.subrange(a as int, i as int));
        }
    }
    r
}

/// Splits a path at the last `/`, as the temp-file helper expects: the
/// result is the directory part (with the slash) and the file name.
pub fn split_path(path: &str) -> (r: (String, String))
    ensures
        (exists|i: int| 0 <= i < path@.len() && path@[i] == '/') ==> {
            let i = last_slash(path@);
            r.0@ == path@.take(i + 1) && r.1@ == path@.skip(i + 1)
        },
        !(exists|i: int| 0 <= i < path@.len() && path@[i] == '/') ==> {
            r.0@ == Seq::<char>::empty() && r.1@ == path@
        },
{
    let v = to_chars(path);
    let n: usize = v.len();
    let mut i: usize = n;
    while i > 0
        invariant
            i <= n,
            n == path@.len(),
            v@ == path@,
            forall|j: int| i <= j < n ==> path@[j] != '/',
        decreases i,
    {
        if v[i - 1] == '/' {
            proof {
                lemma_last_slash(path@, i - 1);
            }
            let mut dir: Vec<char> = Vec::new();
            let mut name: Vec<char> = Vec::new();
            let mut k: usize = 0;
            while k < i
                invariant
                    k <= i <= n,
                    n == v@.len(),
                    v@ == path@,
                    dir@ == path@.subrange(0, k as int),
                decreases i - k,
            {
                dir.push(v[k]);
                k = k + 1;
                proof {
                    assert(dir@ =~= path@.subrange(0, k as int));
                }
            }
            let mut k2: usize = i;
            while k2 < n
                invariant
                    i <= k2 <= n,
                    n == v@.len(),
                    v@ == path@,
                    name@ == path@.subrange(i as int, k2 as int),
                decreases n - k2,
            {
                name.push(v[k2]);
                k2 = k2 + 1;
                proof {
                    assert(name@ =~= path@.subrange(i as int, k2 as int));
                }
            }
            proof {
                assert(name@ =~= path@.skip(i as int));
            }
            return (from_chars(&dir), from_chars(&name));
        }
        i = i - 1;
    }
    proof {
        assert(path@.skip(0) =~= path@);
    }
    (String::new(), from_chars(&v))
}

/// Index of the last `/` in `s` (meaningful only when one exists).
pub open spec fn last_slash(s: Seq<char>) -> int {
    choose|i: int| 0 <= i < s.len() && s[i] == '/'
        && forall|j: int| i < j < s.len() ==> s[j] != '/'
}

proof fn lemma_last_slash(s: Seq<char>, i: int)
    requires
        0 <= i < s.len(),
        s[i] == '/',
        forall|j: int| i < j < s.len() ==> s[j] != '/',
    ensures
        last_slash(s) == i,
{
    assert(exists|k: int| 0 <= k < s.len() && s[k] == '/'
        && forall|j: int| k < j < s.len() ==> s[j] != '/');
    let k = last_slash(s);
    if k < i {
        assert(s[i] == '/');
        assert(false);
    } else if k > i {
        assert(s[k] == '/');
        assert(false);
    }
}

} // verus!
