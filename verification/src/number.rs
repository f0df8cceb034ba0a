use vstd::prelude::*;
use crate::text::push_char;

verus! {

/// The decimal digit character for `d` (which is below ten).
pub open spec fn digit_char(d: int) -> char {
    (d + 48) as char
}

/// Whether `c` is an ASCII decimal digit.
pub open spec fn is_digit(c: char) -> bool {
    '0' <= c && c <= '9'
}

/// The shortest decimal spelling of `n`, without sign.
pub open spec fn decimal(n: nat) -> Seq<char>
    decreases n,
{
    if n < 10 {
        seq![digit_char(n as int)]
    } else {
        decimal(n / 10).push(digit_char((n % 10) as int))
    }
}

/// `s` preceded by enough zeros to be at least `width` characters long.
pub open spec fn zero_padded(s: Seq<char>, width: nat) -> Seq<char> {
    if s.len() >= width {
        s
    } else {
        Seq::new((width - s.len()) as nat, |i: int| '0') + s
    }
}

/// How `format!("{:0w$}", n)` spells an integer: the sign, then the magnitude
/// padded with zeros so that sign and digits together fill `width`.
pub open spec fn padded_integer(n: int, width: nat) -> Seq<char> {
    if n >= 0 {
        zero_padded(decimal(n as nat), width)
    } else {
        seq!['-'].add(zero_padded(decimal((-n) as nat), if width > 0 { (width - 1) as nat } else { 0 }))
    }
}

/// The number that a sequence of decimal digits spells.
pub open spec fn digits_value(s: Seq<char>) -> int
    decreases s.len(),
{
    if s.len() == 0 {
        0
    } else {
        digits_value(s.drop_last()) * 10 + (s.last() as int - 48)
    }
}

/// Whether every character of `s` is a decimal digit.
pub open spec fn all_digits(s: Seq<char>) -> bool {
    forall|i: int| 0 <= i < s.len() ==> is_digit(#[trigger] s[i])
}

/// Whether `s` starts with an explicit sign.
pub open spec fn has_sign(s: Seq<char>) -> bool {
    s.len() > 0 && (s[0] == '+' || s[0] == '-')
}

/// The digits of `s`, after its sign if it has one.
pub open spec fn unsigned_part(s: Seq<char>) -> Seq<char> {
    if has_sign(s) { s.drop_first() } else { s }
}

/// What `str::parse::<i64>` accepts and returns: an optional `+` or `-`, then
/// one or more decimal digits, whose value fits in an `i64`.
pub open spec fn parsed_i64(s: Seq<char>) -> Option<i64> {
    let body = unsigned_part(s);
    let magnitude = digits_value(body);
    let v = if has_sign(s) && s[0] == '-' { -magnitude } else { magnitude };
    if body.len() == 0 || !all_digits(body) || v < i64::MIN || v > i64::MAX {
        None
    } else {
        Some(v as i64)
    }
}

/// Ten to the power `k`.
pub open spec fn pow10(k: nat) -> nat
    decreases k,
{
    if k == 0 { 1 } else { 10 * pow10((k - 1) as nat) }
}

/// A number below `10^k` has at most `k` digits.
proof fn lemma_decimal_len(n: nat, k: nat)
    requires
        k >= 1,
        n < pow10(k),
    ensures
        decimal(n).len() <= k,
    decreases k,
{
    if n >= 10 {
        assert(k >= 2) by {
            if k == 1 {
                assert(pow10(1) == 10) by { reveal_with_fuel(pow10, 2); }
            }
        }
        let p = pow10((k - 1) as nat);
        assert(n / 10 < p) by (nonlinear_arith)
            requires n < 10 * p;
        lemma_decimal_len(n / 10, (k - 1) as nat);
    }
}

proof fn lemma_u64_decimal_len(n: u64)
    ensures
        decimal(n as nat).len() <= 20,
{
    assert(pow10(20) == 100000000000000000000nat) by { reveal_with_fuel(pow10, 21); }
    lemma_decimal_len(n as nat, 20);
}

fn digit_exec(d: u64) -> (c: char)
    requires
        d < 10,
    ensures
        c == digit_char(d as int),
{
    ((d as u8) + 48u8) as char
}

/// The decimal spelling of `n` and its length.
fn decimal_string(n: u64) -> (r: (String, usize))
    ensures
        r.0@ == decimal(n as nat),
        r.1 == decimal(n as nat).len(),
    decreases n,
{
    if n < 10 {
        let mut s = String::new();
        push_char(&mut s, digit_exec(n));
        (s, 1)
    } else {
        proof { lemma_u64_decimal_len(n / 10); }
        let (mut s, len) = decimal_string(n / 10);
        push_char(&mut s, digit_exec(n % 10));
        (s, len + 1)
    }
}

} // verus!

verus! {

/// `count` zero characters.
pub open spec fn zeros(count: nat) -> Seq<char> {
    Seq::new(count, |i: int| '0')
}

fn push_zeros(s: &mut String, count: usize)
    ensures
        final(s)@ == old(s)@ + zeros(count as nat),
{
    let mut i: usize = 0;
    while i < count
        invariant
            i <= count,
            s@ == old(s)@ + zeros(i as nat),
        decreases count - i,
    {
        push_char(s, '0');
        i = i + 1;
        assert(s@ =~= old(s)@ + zeros(i as nat));
    }
}

/// Spells `n` as `format!("{:0width$}", n)` does: a leading `-` for a negative
/// number, then its magnitude padded with zeros to fill `width` characters.
pub fn pad_integer(n: i64, width: usize) -> (r: String)
    ensures
        r@ == padded_integer(n as int, width as nat),
{
    let mut r = String::new();
    let magnitude: u64 = if n < 0 { (0i128 - (n as i128)) as u64 } else { n as u64 };
    let room: usize = if n < 0 {
        push_char(&mut r, '-');
        if width > 0 { width - 1 } else { 0 }
    } else {
        width
    };
    let (digits, len) = decimal_string(magnitude);
    if len < room {
        push_zeros(&mut r, room - len);
    }
    r.append(digits.as_str());
    proof {
        assert(zeros((room - len) as nat) =~= Seq::new((room - len) as nat, |i: int| '0'));
        if n < 0 {
            assert(r@ =~= padded_integer(n as int, width as nat));
        } else {
            assert(r@ =~= padded_integer(n as int, width as nat));
        }
    }
    r
}

/// The characters that open every ticket number.
pub open spec fn ticket_prefix() -> Seq<char> {
    seq!['S', 'M', 'B', '-', 'Q']
}

/// The ticket number of the ticket with id `id`: the prefix `SMB-Q`, then the
/// id written with at least four digits.
pub open spec fn ticket_number(id: int) -> Seq<char> {
    ticket_prefix() + padded_integer(id, 4)
}

/// The id that the next ticket number counts from: the largest ticket id, or
/// zero where there is no ticket yet.
pub open spec fn last_ticket_id(max_id: Option<i64>) -> int {
    match max_id {
        Some(v) => v as int,
        None => 0,
    }
}

/// The number that a new ticket gets, given the largest id in the ticket
/// table (`None` for an empty table): one past that id, as `SMB-Q0001` style.
pub fn next_ticket_no(max_id: Option<i64>) -> (r: String)
    requires
        last_ticket_id(max_id) < i64::MAX,
    ensures
        r@ == ticket_number(last_ticket_id(max_id) + 1),
        r@.len() >= 9,
        r@.take(5) == seq!['S', 'M', 'B', '-', 'Q'],
        last_ticket_id(max_id) + 1 >= 0 ==> all_digits(r@.skip(5))
            && digits_value(r@.skip(5)) == last_ticket_id(max_id) + 1,
{
    let last: i64 = match max_id {
        Some(v) => v,
        None => 0,
    };
    let mut r = String::new();
    push_char(&mut r, 'S');
    push_char(&mut r, 'M');
    push_char(&mut r, 'B');
    push_char(&mut r, '-');
    push_char(&mut r, 'Q');
    let digits = pad_integer(last + 1, 4);
    r.append(digits.as_str());
    assert(r@ =~= ticket_number(last_ticket_id(max_id) + 1));
    proof { lemma_ticket_number_shape(last_ticket_id(max_id) + 1); }
    r
}

} // verus!

verus! {

/// A spelled-out digit counts as its value.
proof fn lemma_digit_char_value(d: int)
    requires
        0 <= d < 10,
    ensures
        is_digit(digit_char(d)),
        digit_char(d) as int - 48 == d,
{
}

/// `decimal(n)` consists of digits and spells `n`.
pub proof fn lemma_decimal_value(n: nat)
    ensures
        decimal(n).len() >= 1,
        all_digits(decimal(n)),
        digits_value(decimal(n)) == n,
    decreases n,
{
    if n < 10 {
        lemma_digit_char_value(n as int);
        assert(decimal(n).drop_last() =~= Seq::<char>::empty());
        assert(digits_value(decimal(n)) == digits_value(decimal(n).drop_last()) * 10 + (decimal(n).last() as int - 48));
    } else {
        lemma_decimal_value(n / 10);
        lemma_digit_char_value((n % 10) as int);
        assert(decimal(n).drop_last() =~= decimal(n / 10));
        assert(decimal(n).last() == digit_char((n % 10) as int));
        assert(digits_value(decimal(n)) == digits_value(decimal(n).drop_last()) * 10 + (decimal(n).last() as int - 48));
        assert(n == (n / 10) * 10 + n % 10);
        assert forall|i: int| 0 <= i < decimal(n).len() implies is_digit(#[trigger] decimal(n)[i]) by {
            if i < decimal(n / 10).len() {
                assert(decimal(n)[i] == decimal(n / 10)[i]);
            }
        }
    }
}

/// A run of zeros consists of digits and spells zero.
proof fn lemma_zeros_value(k: nat)
    ensures
        all_digits(zeros(k)),
        digits_value(zeros(k)) == 0,
    decreases k,
{
    if k > 0 {
        assert(zeros(k).drop_last() =~= zeros((k - 1) as nat));
        lemma_zeros_value((k - 1) as nat);
    }
}

/// Leading zeros do not change the number that digits spell.
proof fn lemma_leading_zeros_value(k: nat, s: Seq<char>)
    ensures
        digits_value(zeros(k) + s) == digits_value(s),
    decreases s.len(),
{
    if s.len() == 0 {
        assert(zeros(k) + s =~= zeros(k));
        lemma_zeros_value(k);
    } else {
        assert((zeros(k) + s).drop_last() =~= zeros(k) + s.drop_last());
        lemma_leading_zeros_value(k, s.drop_last());
    }
}

/// A zero-padded spelling of `n` is a nonempty run of digits that spells `n`.
proof fn lemma_padded_value(n: nat, width: nat)
    ensures
        zero_padded(decimal(n), width).len() >= 1,
        all_digits(zero_padded(decimal(n), width)),
        digits_value(zero_padded(decimal(n), width)) == n,
{
    lemma_decimal_value(n);
    if decimal(n).len() < width {
        let k = (width - decimal(n).len()) as nat;
        assert(zero_padded(decimal(n), width) =~= zeros(k) + decimal(n));
        lemma_zeros_value(k);
        lemma_leading_zeros_value(k, decimal(n));
        assert forall|i: int| 0 <= i < (zeros(k) + decimal(n)).len() implies is_digit(
            #[trigger] (zeros(k) + decimal(n))[i],
        ) by {
            if i < k {
                assert(is_digit(zeros(k)[i]));
            } else {
                assert(is_digit(decimal(n)[i - k]));
            }
        }
    }
}

/// A padded spelling fills at least its width; for a non-negative number it is
/// digits only that spell the number, and for a negative one it is `-`
/// followed by digits that spell the magnitude.
pub proof fn lemma_padded_integer_value(n: int, width: nat)
    ensures
        padded_integer(n, width).len() >= 1,
        padded_integer(n, width).len() >= width,
        n >= 0 ==> all_digits(padded_integer(n, width)),
        n < 0 ==> all_digits(padded_integer(n, width).drop_first()),
        n >= 0 ==> is_digit(padded_integer(n, width)[0]),
        n >= 0 ==> digits_value(padded_integer(n, width)) == n,
        n < 0 ==> padded_integer(n, width)[0] == '-',
        n < 0 ==> digits_value(padded_integer(n, width).drop_first()) == -n,
{
    if n >= 0 {
        lemma_padded_value(n as nat, width);
    } else {
        let w: nat = if width > 0 { (width - 1) as nat } else { 0 };
        lemma_padded_value((-n) as nat, w);
        assert(padded_integer(n, width).drop_first() =~= zero_padded(decimal((-n) as nat), w));
    }
}

/// Distinct ticket ids get distinct ticket numbers, so a ticket number names
/// exactly one ticket.
pub proof fn lemma_ticket_numbers_distinct(a: int, b: int)
    requires
        a != b,
    ensures
        ticket_number(a) != ticket_number(b),
{
    lemma_padded_integer_value(a, 4);
    lemma_padded_integer_value(b, 4);
    if ticket_number(a) == ticket_number(b) {
        let pa = padded_integer(a, 4);
        let pb = padded_integer(b, 4);
        assert(ticket_number(a).subrange(5, ticket_number(a).len() as int) =~= pa);
        assert(ticket_number(b).subrange(5, ticket_number(b).len() as int) =~= pb);
        assert(pa == pb);
        assert(pa[0] == pb[0]);
        if a < 0 && b < 0 {
            assert(pa.drop_first() == pb.drop_first());
        }
    }
}

} // verus!

verus! {

/// The number that digits spell is never negative.
proof fn lemma_digits_value_nonneg(s: Seq<char>)
    requires
        all_digits(s),
    ensures
        digits_value(s) >= 0,
    decreases s.len(),
{
    if s.len() > 0 {
        assert(is_digit(s[s.len() - 1]));
        lemma_digits_value_nonneg(s.drop_last());
    }
}

/// Appending digits never makes the spelled number smaller.
proof fn lemma_digits_value_prefix(s: Seq<char>, k: int)
    requires
        all_digits(s),
        0 <= k <= s.len(),
    ensures
        digits_value(s.take(k)) <= digits_value(s),
    decreases s.len(),
{
    if k < s.len() {
        assert(all_digits(s.drop_last()));
        assert(s.drop_last().take(k) =~= s.take(k));
        lemma_digits_value_prefix(s.drop_last(), k);
        lemma_digits_value_nonneg(s.drop_last());
        assert(is_digit(s[s.len() - 1]));
    } else {
        assert(s.take(k) =~= s);
    }
}

/// The part of `s` read so far that belongs to its digits.
spec fn digits_seen(s: Seq<char>, index: int) -> Seq<char> {
    if index > 0 && has_sign(s) { s.subrange(1, index) } else { s.take(index) }
}

/// Parses a decimal `i64` as `str::parse::<i64>` does: an optional `+` or `-`,
/// then one or more ASCII digits; `None` for anything else or a value out of range.
pub fn parse_i64(s: &str) -> (r: Option<i64>)
    ensures
        r == parsed_i64(s@),
{
    let mut first = true;
    let mut any_digit = false;
    let mut signed = false;
    let mut negative = false;
    let mut acc: u128 = 0;
    for c in it: s.chars()
        invariant
            it.seq() == s@,
            first == (it.index() == 0),
            signed == (it.index() > 0 && has_sign(s@)),
            negative == (signed && s@[0] == '-'),
            any_digit == (digits_seen(s@, it.index() as int).len() > 0),
            all_digits(digits_seen(s@, it.index() as int)),
            acc == digits_value(digits_seen(s@, it.index() as int)),
            acc <= 9223372036854775808u128,
    {
        let ghost index = it.index() as int;
        let ghost before = digits_seen(s@, index);
        if first && (c == '+' || c == '-') {
            signed = true;
            negative = c == '-';
            assert(digits_seen(s@, 1) =~= Seq::<char>::empty());
        } else if '0' <= c && c <= '9' {
            let d = (c as u32 - 48) as u128;
            acc = acc * 10 + d;
            any_digit = true;
            assert(digits_seen(s@, index + 1) =~= before.push(c));
            assert(digits_seen(s@, index + 1).drop_last() =~= before);
            if acc > 9223372036854775808u128 {
                proof {
                    let body = unsigned_part(s@);
                    let k = digits_seen(s@, index + 1).len() as int;
                    assert(body.take(k) =~= digits_seen(s@, index + 1));
                    if all_digits(body) {
                        lemma_digits_value_prefix(body, k);
                    }
                }
                return None;
            }
        } else {
            proof {
                let body = unsigned_part(s@);
                let k = before.len() as int;
                assert(body[k] == c);
                assert(!is_digit(body[k]));
            }
            return None;
        }
        first = false;
    }
    let ghost body = unsigned_part(s@);
    assert(digits_seen(s@, s@.len() as int) =~= body);
    if !any_digit {
        return None;
    }
    if negative {
        let v: i128 = 0i128 - (acc as i128);
        Some(v as i64)
    } else if acc > 9223372036854775807u128 {
        None
    } else {
        Some(acc as i64)
    }
}

/// The value of a request's `ticket_id` parameter: the integer it spells, or
/// zero where it is missing or is not an `i64`.
pub fn ticket_id_param(raw: Option<&str>) -> (r: i64)
    ensures
        r == match raw {
            Some(s) => match parsed_i64(s@) {
                Some(v) => v,
                None => 0,
            },
            None => 0,
        },
{
    match raw {
        Some(s) => match parse_i64(s) {
            Some(v) => v,
            None => 0,
        },
        None => 0,
    }
}

} // verus!

verus! {

/// A ticket number is `SMB-Q` followed by the id: for a non-negative id, at
/// least four digits that spell the id; for a negative one, `-` and digits
/// that spell its magnitude.
pub proof fn lemma_ticket_number_shape(id: int)
    ensures
        ticket_number(id).len() >= 9,
        ticket_number(id).take(5) == seq!['S', 'M', 'B', '-', 'Q'],
        id >= 0 ==> all_digits(ticket_number(id).skip(5)) && digits_value(ticket_number(id).skip(5)) == id,
        id < 0 ==> ticket_number(id)[5] == '-' && all_digits(ticket_number(id).skip(6))
            && digits_value(ticket_number(id).skip(6)) == -id,
{
    let t = ticket_number(id);
    let p = padded_integer(id, 4);
    assert(t.take(5) =~= seq!['S', 'M', 'B', '-', 'Q']);
    assert(t.skip(5) =~= p);
    if id >= 0 {
        lemma_padded_value(id as nat, 4);
    } else {
        lemma_padded_value((-id) as nat, 3);
        assert(t.skip(6) =~= zero_padded(decimal((-id) as nat), 3));
    }
}

/// An integer spelled plainly, as `pad_integer(n, 0)` writes it, parses back
/// to the same integer.
pub proof fn lemma_parse_reads_back(n: i64)
    ensures
        parsed_i64(padded_integer(n as int, 0)) == Some(n),
{
    let s = padded_integer(n as int, 0);
    if n >= 0 {
        lemma_decimal_value(n as nat);
        assert(s == decimal(n as nat));
        assert(is_digit(s[0]));
        assert(!has_sign(s));
        assert(unsigned_part(s) == s);
    } else {
        lemma_decimal_value((-n) as nat);
        assert(s == seq!['-'] + decimal((-n) as nat));
        assert(has_sign(s));
        assert(unsigned_part(s) =~= decimal((-n) as nat));
    }
}

/// What the parser accepts is a sign at most, then digits only, and the value
/// it gives is what those digits spell, negated after a `-`.
pub proof fn lemma_parsed_i64_accepts(s: Seq<char>)
    ensures
        parsed_i64(s) is Some ==> {
            let body = if s[0] == '+' || s[0] == '-' { s.drop_first() } else { s };
            &&& s.len() > 0
            &&& body.len() > 0
            &&& forall|k: int| 0 <= k < body.len() ==> '0' <= #[trigger] body[k] <= '9'
            &&& parsed_i64(s)->0 as int == (if s[0] == '-' { -digits_value(body) } else { digits_value(body) })
        },
{
    if parsed_i64(s) is Some {
        let body = unsigned_part(s);
        assert forall|k: int| 0 <= k < body.len() implies '0' <= #[trigger] body[k] <= '9' by {
            assert(is_digit(body[k]));
        }
        if s.len() > 0 && !(s[0] == '+' || s[0] == '-') {
            assert(is_digit(body[0]));
        }
    }
}

} // verus!
