use vstd::prelude::*;
use vstd::std_specs::iter::IteratorSpec;

verus! {

/// The characters of a string slice, in order.
pub fn chars_of(s: &str) -> (r: Vec<char>)
    ensures
        r@ == s@,
{
    let n = s.unicode_len();
    let mut it = s.chars();
    let mut r: Vec<char> = Vec::new();
    let mut i: usize = 0;
    while i < n
        invariant
            n == s@.len(),
            i <= n,
            r@.len() == i,
            r@ + it.remaining() == s@,
            it.obeys_prophetic_iter_laws(),
        decreases n - i,
    {
        if let Some(c) = it.next() {
            r.push(c);
        }
        i = i + 1;
    }
    assert(r@ =~= s@);
    r
}

/// Relies on `String::push`: appends one character.
#[verifier::external_body]
fn push_char(s: &mut String, c: char)
    ensures
        final(s)@ == old(s)@.push(c),
{
    s.push(c);
}

/// A string holding the given characters.
pub fn string_of(cs: &[char]) -> (r: String)
    ensures
        r@ == cs@,
{
    let mut r = String::new();
    let mut i: usize = 0;
    while i < cs.len()
        invariant
            i <= cs@.len(),
            r@ == cs@.take(i as int),
        decreases cs@.len() - i,
    {
        push_char(&mut r, cs[i]);
        assert(cs@.take(i as int).push(cs@[i as int]) =~= cs@.take(i + 1));
        i = i + 1;
    }
    assert(cs@.take(cs@.len() as int) =~= cs@);
    r
}

pub open spec fn is_digit(c: char) -> bool {
    '0' <= c && c <= '9'
}

pub open spec fn digit_value(c: char) -> int {
    c as int - '0' as int
}

pub open spec fn digit_char(d: int) -> char {
    (d + '0' as int) as char
}

pub open spec fn all_digits(s: Seq<char>) -> bool {
    forall|i: int| 0 <= i < s.len() ==> is_digit(#[trigger] s[i])
}

/// The value of a string of decimal digits, most significant first.
pub open spec fn digits_value(s: Seq<char>) -> int
    decreases s.len(),
{
    if s.len() == 0 {
        0
    } else {
        digits_value(s.drop_last()) * 10 + digit_value(s.last())
    }
}

/// The integer that `s` spells out: an optional sign, then at least one
/// decimal digit, nothing else.
pub open spec fn int_of_text(s: Seq<char>) -> Option<int> {
    if s.len() > 0 && (s[0] == '-' || s[0] == '+') {
        let body = s.drop_first();
        if body.len() > 0 && all_digits(body) {
            Some(if s[0] == '-' { -digits_value(body) } else { digits_value(body) })
        } else {
            None
        }
    } else if s.len() > 0 && all_digits(s) {
        Some(digits_value(s))
    } else {
        None
    }
}

pub open spec fn in_i32(v: int) -> bool {
    i32::MIN <= v <= i32::MAX
}

/// What `str::parse::<i32>` gives: the spelled-out integer when it fits.
pub open spec fn i32_of_text(s: Seq<char>) -> Option<int> {
    match int_of_text(s) {
        Some(v) => if in_i32(v) { Some(v) } else { None },
        None => None,
    }
}

/// The shortest decimal spelling of a natural number.
pub open spec fn nat_text(n: nat) -> Seq<char>
    decreases n,
{
    if n < 10 {
        seq![digit_char(n as int)]
    } else {
        nat_text(n / 10).push(digit_char((n % 10) as int))
    }
}

/// The decimal spelling of an integer, with a minus sign when negative.
pub open spec fn int_text(n: int) -> Seq<char> {
    if n < 0 {
        seq!['-'] + nat_text((-n) as nat)
    } else {
        nat_text(n as nat)
    }
}

/// Exactly `w` digits: the low `w` decimal digits of `n`, zeros in front.
pub open spec fn fixed_digits(n: nat, w: nat) -> Seq<char>
    decreases w,
{
    if w == 0 {
        Seq::empty()
    } else {
        fixed_digits(n / 10, (w - 1) as nat).push(digit_char((n % 10) as int))
    }
}

pub open spec fn zeros(k: int) -> Seq<char> {
    Seq::new(if k > 0 { k as nat } else { 0 }, |i: int| '0')
}

/// An integer in a field at least `w` wide, padded with zeros after the sign.
pub open spec fn padded_text(n: int, w: int) -> Seq<char> {
    if n < 0 {
        let d = nat_text((-n) as nat);
        seq!['-'] + zeros(w - 1 - d.len()) + d
    } else {
        let d = nat_text(n as nat);
        zeros(w - d.len()) + d
    }
}

/// An integer in a field at least five wide, padded with zeros after the sign.
pub open spec fn padded5_text(n: int) -> Seq<char> {
    padded_text(n, 5)
}

pub proof fn lemma_digit_char(d: int)
    requires
        0 <= d < 10,
    ensures
        is_digit(digit_char(d)),
        digit_value(digit_char(d)) == d,
        digit_char(d) != '-',
        digit_char(d) != '+',
        digit_char(d) != '\t',
        digit_char(d) != '\n',
        digit_char(d) != '\r',
{
}

pub proof fn lemma_nat_text(n: nat)
    ensures
        nat_text(n).len() > 0,
        all_digits(nat_text(n)),
        digits_value(nat_text(n)) == n,
    decreases n,
{
    if n < 10 {
        lemma_digit_char(n as int);
        assert(nat_text(n).drop_last() =~= Seq::<char>::empty());
        assert(digits_value(nat_text(n).drop_last()) == 0);
    } else {
        lemma_nat_text(n / 10);
        lemma_digit_char((n % 10) as int);
        let t = nat_text(n);
        assert(t.drop_last() =~= nat_text(n / 10));
        assert(t.last() == digit_char((n % 10) as int));
        assert((n / 10) * 10 + n % 10 == n);
    }
}

pub proof fn lemma_fixed_digits(n: nat, w: nat)
    ensures
        fixed_digits(n, w).len() == w,
        all_digits(fixed_digits(n, w)),
        digits_value(fixed_digits(n, w)) == n % pow10(w),
    decreases w,
{
    if w == 0 {
    } else {
        lemma_fixed_digits(n / 10, (w - 1) as nat);
        lemma_digit_char((n % 10) as int);
        let t = fixed_digits(n, w);
        assert(t.drop_last() =~= fixed_digits(n / 10, (w - 1) as nat));
        lemma_pow10_pos((w - 1) as nat);
        let p = pow10((w - 1) as nat);
        assert((n / 10) % p * 10 + n % 10 == n % (p * 10)) by {
            vstd::arithmetic::div_mod::lemma_breakdown(n as int, 10, p as int);
        }
    }
}

pub open spec fn pow10(w: nat) -> nat
    decreases w,
{
    if w == 0 {
        1
    } else {
        10 * pow10((w - 1) as nat)
    }
}

pub proof fn lemma_pow10_pos(w: nat)
    ensures
        pow10(w) >= 1,
    decreases w,
{
    if w > 0 {
        lemma_pow10_pos((w - 1) as nat);
    }
}

/// Spelling an integer in decimal and reading it back gives the integer.
pub proof fn lemma_int_text_round_trip(n: int)
    ensures
        int_of_text(int_text(n)) == Some(n),
{
    if n < 0 {
        let d = nat_text((-n) as nat);
        lemma_nat_text((-n) as nat);
        let s = int_text(n);
        assert(s.drop_first() =~= d);
    } else {
        lemma_nat_text(n as nat);
        let s = int_text(n);
        lemma_digit_char(0);
        assert(is_digit(s[0]));
    }
}

pub proof fn lemma_digits_value_prefix(s: Seq<char>, i: int)
    requires
        all_digits(s),
        0 <= i <= s.len(),
    ensures
        0 <= digits_value(s.take(i)) <= digits_value(s),
    decreases s.len(),
{
    if i == s.len() {
        assert(s.take(i) =~= s);
        lemma_digits_value_nonneg(s);
    } else {
        let p = s.drop_last();
        assert(all_digits(p));
        lemma_digits_value_prefix(p, i);
        assert(p.take(i) =~= s.take(i));
        lemma_digits_value_nonneg(p);
    }
}

pub proof fn lemma_digits_value_nonneg(s: Seq<char>)
    requires
        all_digits(s),
    ensures
        digits_value(s) >= 0,
    decreases s.len(),
{
    if s.len() > 0 {
        let p = s.drop_last();
        assert(all_digits(p));
        lemma_digits_value_nonneg(p);
        assert(is_digit(s[s.len() - 1]));
    }
}

/// Reads the digits `s[from..]` as a natural number, or `None` when the
/// value exceeds `cap`.
fn read_digits(s: &[char], from: usize, cap: u64) -> (r: Option<u64>)
    requires
        from <= s@.len(),
        cap < 0x1_0000_0000,
        all_digits(s@.skip(from as int)),
    ensures
        match r {
            Some(v) => v as int == digits_value(s@.skip(from as int)) && v <= cap,
            None => digits_value(s@.skip(from as int)) > cap,
        },
{
    let ghost body = s@.skip(from as int);
    let mut acc: u64 = 0;
    let mut i: usize = from;
    while i < s.len()
        invariant
            from <= i <= s@.len(),
            body == s@.skip(from as int),
            all_digits(body),
            cap < 0x1_0000_0000,
            acc as int == digits_value(body.take(i - from)),
            acc <= cap,
        decreases s@.len() - i,
    {
        let c = s[i];
        assert(is_digit(body[i - from]));
        let d = (c as u32 - '0' as u32) as u64;
        let ghost k = (i - from) as int;
        assert(body.take(k + 1).drop_last() =~= body.take(k));
        assert(body.take(k + 1).last() == c);
        acc = acc * 10 + d;
        i = i + 1;
        if acc > cap {
            proof {
                lemma_digits_value_prefix(body, k + 1);
            }
            return None;
        }
    }
    assert(body.take(i - from) =~= body);
    Some(acc)
}

/// Parses an `i32` the way `str::parse::<i32>` does.
pub fn parse_i32(s: &[char]) -> (r: Option<i32>)
    ensures
        match r {
            Some(v) => i32_of_text(s@) == Some(v as int),
            None => i32_of_text(s@) is None,
        },
{
    if s.len() == 0 {
        return None;
    }
    let neg = s[0] == '-';
    let signed = s[0] == '-' || s[0] == '+';
    let from: usize = if signed { 1 } else { 0 };
    if from >= s.len() {
        return None;
    }
    let mut i: usize = from;
    while i < s.len()
        invariant
            from <= i <= s@.len(),
            s@.len() > 0,
            signed == (s@[0] == '-' || s@[0] == '+'),
            from == (if signed { 1usize } else { 0usize }),
            forall|j: int| from <= j < i ==> is_digit(#[trigger] s@[j]),
        decreases s@.len() - i,
    {
        if !(s[i] >= '0' && s[i] <= '9') {
            proof {
                if signed {
                    let ghost k: int = i as int - 1;
                    assert(s@.drop_first()[k] == s@[k + 1]);
                    assert(!all_digits(s@.drop_first()));
                } else {
                    assert(!is_digit(s@[i as int]));
                }
            }
            return None;
        }
        i = i + 1;
    }
    let ghost body = s@.skip(from as int);
    assert(all_digits(body)) by {
        assert forall|j: int| 0 <= j < body.len() implies is_digit(#[trigger] body[j]) by {
            assert(body[j] == s@[j + from]);
        }
    }
    proof {
        if signed {
            assert(s@.drop_first() =~= body);
        } else {
            assert(s@ =~= body);
        }
    }
    let cap: u64 = if neg { 0x8000_0000 } else { 0x7fff_ffff };
    match read_digits(s, from, cap) {
        Some(v) => {
            if neg {
                Some((0 - (v as i64)) as i32)
            } else {
                Some(v as i32)
            }
        },
        None => None,
    }
}

/// Appends the shortest decimal spelling of `n`.
pub fn push_nat_text(out: &mut Vec<char>, n: u64)
    ensures
        final(out)@ == old(out)@ + nat_text(n as nat),
    decreases n,
{
    if n >= 10 {
        push_nat_text(out, n / 10);
    }
    let d = (n % 10) as u32;
    out.push(char_of_digit(d));
    proof {
        if n < 10 {
            assert(nat_text(n as nat) =~= seq![digit_char(n as int)]);
        }
    }
    assert(final(out)@ =~= old(out)@ + nat_text(n as nat));
}

/// The character of a decimal digit.
pub fn char_of_digit(d: u32) -> (c: char)
    requires
        d < 10,
    ensures
        c == digit_char(d as int),
{
    match d {
        0 => '0',
        1 => '1',
        2 => '2',
        3 => '3',
        4 => '4',
        5 => '5',
        6 => '6',
        7 => '7',
        8 => '8',
        _ => '9',
    }
}

/// Appends the decimal spelling of `n`.
pub fn push_int_text(out: &mut Vec<char>, n: i32)
    ensures
        final(out)@ == old(out)@ + int_text(n as int),
{
    if n < 0 {
        out.push('-');
        push_nat_text(out, (0 - (n as i64)) as u64);
        assert(final(out)@ =~= old(out)@ + int_text(n as int));
    } else {
        push_nat_text(out, n as u64);
    }
}

/// Appends exactly `w` digits of `n`, zeros in front.
pub fn push_fixed_digits(out: &mut Vec<char>, n: u64, w: u32)
    ensures
        final(out)@ == old(out)@ + fixed_digits(n as nat, w as nat),
    decreases w,
{
    if w > 0 {
        push_fixed_digits(out, n / 10, w - 1);
        out.push(char_of_digit((n % 10) as u32));
        assert(final(out)@ =~= old(out)@ + fixed_digits(n as nat, w as nat));
    } else {
        assert(final(out)@ =~= old(out)@ + fixed_digits(n as nat, w as nat));
    }
}

fn push_zeros(out: &mut Vec<char>, k: i64)
    ensures
        final(out)@ == old(out)@ + zeros(k as int),
{
    let mut i: i64 = 0;
    while i < k
        invariant
            0 <= i,
            k > 0 ==> i <= k,
            k <= 0 ==> i == 0,
            out@ == old(out)@ + zeros(i as int),
        decreases k - i,
    {
        out.push('0');
        i = i + 1;
        assert(out@ =~= old(out)@ + zeros(i as int));
    }
    assert(out@ =~= old(out)@ + zeros(k as int));
}

/// Appends `n` the way `format!("{n:05}")` spells it.
pub fn push_padded5(out: &mut Vec<char>, n: i32)
    ensures
        final(out)@ == old(out)@ + padded5_text(n as int),
{
    push_padded(out, n, 5);
}

/// Appends `n` zero-padded after the sign to at least `w` characters.
pub fn push_padded(out: &mut Vec<char>, n: i32, w: u32)
    requires
        w >= 1,
    ensures
        final(out)@ == old(out)@ + padded_text(n as int, w as int),
{
    let mut d: Vec<char> = Vec::new();
    let wide = w as i64;
    if n < 0 {
        push_nat_text(&mut d, (0 - (n as i64)) as u64);
        out.push('-');
        if (d.len() as u64) < (w - 1) as u64 {
            push_zeros(out, wide - 1 - d.len() as i64);
        } else {
            assert(zeros(w - 1 - d@.len()) =~= Seq::<char>::empty());
        }
    } else {
        push_nat_text(&mut d, n as u64);
        if (d.len() as u64) < w as u64 {
            push_zeros(out, wide - d.len() as i64);
        } else {
            assert(zeros(w - d@.len()) =~= Seq::<char>::empty());
        }
    }
    let mut i: usize = 0;
    let ghost mid = out@;
    while i < d.len()
        invariant
            i <= d@.len(),
            out@ == mid + d@.take(i as int),
        decreases d@.len() - i,
    {
        out.push(d[i]);
        i = i + 1;
        assert(out@ =~= mid + d@.take(i as int));
    }
    assert(d@.take(d@.len() as int) =~= d@);
    assert(final(out)@ =~= old(out)@ + padded_text(n as int, w as int));
}

/// The text of a teacher's id: four digits, zero-padded, when it is a number;
/// otherwise the text unchanged.
pub fn padded_id(id: &str) -> (r: String)
    ensures
        r@ == match i32_of_text(id@) {
            Some(n) => padded_text(n, 4),
            None => id@,
        },
{
    let cs = chars_of(id);
    match parse_i32(cs.as_slice()) {
        Some(n) => {
            let mut out: Vec<char> = Vec::new();
            push_padded(&mut out, n, 4);
            assert(out@ =~= padded_text(n as int, 4));
            string_of(out.as_slice())
        },
        None => string_of(cs.as_slice()),
    }
}

} // verus!
