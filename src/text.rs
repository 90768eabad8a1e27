use vstd::prelude::*;

verus! {

/// A decimal digit character.
pub open spec fn is_digit(c: char) -> bool {
    c == '0' || c == '1' || c == '2' || c == '3' || c == '4' || c == '5' || c == '6' || c == '7'
        || c == '8' || c == '9'
}

/// The value of a decimal digit character.
pub open spec fn digit_value(c: char) -> int {
    if c == '0' {
        0
    } else if c == '1' {
        1
    } else if c == '2' {
        2
    } else if c == '3' {
        3
    } else if c == '4' {
        4
    } else if c == '5' {
        5
    } else if c == '6' {
        6
    } else if c == '7' {
        7
    } else if c == '8' {
        8
    } else {
        9
    }
}

/// The digit character for a value from 0 to 9.
pub open spec fn digit_char(n: int) -> char {
    if n == 0 {
        '0'
    } else if n == 1 {
        '1'
    } else if n == 2 {
        '2'
    } else if n == 3 {
        '3'
    } else if n == 4 {
        '4'
    } else if n == 5 {
        '5'
    } else if n == 6 {
        '6'
    } else if n == 7 {
        '7'
    } else if n == 8 {
        '8'
    } else {
        '9'
    }
}

/// Every character of `s` is a decimal digit.
pub open spec fn all_digits(s: Seq<char>) -> bool {
    forall|i: int| 0 <= i < s.len() ==> #[trigger] is_digit(s[i])
}

/// `s` holds no `c`.
pub open spec fn lacks(s: Seq<char>, c: char) -> bool {
    forall|i: int| 0 <= i < s.len() ==> #[trigger] s[i] != c
}

/// The number that the decimal digits `s` write, most significant first.
pub open spec fn number_value(s: Seq<char>) -> int
    decreases s.len(),
{
    if s.len() == 0 {
        0
    } else {
        number_value(s.drop_last()) * 10 + digit_value(s.last())
    }
}

/// `n`, from 0 to 99, in two digits.
pub open spec fn digits2(n: int) -> Seq<char> {
    seq![digit_char(n / 10), digit_char(n % 10)]
}

/// `n`, from 0 to 9999, in four digits.
pub open spec fn digits4(n: int) -> Seq<char> {
    seq![digit_char(n / 1000), digit_char((n / 100) % 10), digit_char((n / 10) % 10), digit_char(n % 10)]
}

pub proof fn lemma_digit_round_trip(n: int, c: char)
    ensures
        0 <= n < 10 ==> is_digit(digit_char(n)) && digit_value(digit_char(n)) == n,
        is_digit(c) ==> digit_char(digit_value(c)) == c && 0 <= digit_value(c) < 10,
{
}

/// Two digits read as a number and written back again are unchanged, and the reverse.
pub proof fn lemma_digits2(s: Seq<char>, n: int)
    ensures
        s.len() == 2 && all_digits(s) ==> digits2(number_value(s)) == s && 0 <= number_value(s)
            < 100,
        0 <= n < 100 ==> number_value(digits2(n)) == n && all_digits(digits2(n)),
{
    if s.len() == 2 && all_digits(s) {
        let a = digit_value(s[0]);
        let b = digit_value(s[1]);
        lemma_digit_round_trip(0, s[0]);
        lemma_digit_round_trip(0, s[1]);
        assert(s.drop_last().drop_last() =~= Seq::<char>::empty());
        reveal_with_fuel(number_value, 3);
        assert(number_value(s) == a * 10 + b);
        assert((a * 10 + b) / 10 == a && (a * 10 + b) % 10 == b) by (nonlinear_arith)
            requires
                0 <= a < 10,
                0 <= b < 10,
        ;
        assert(digits2(number_value(s)) =~= s);
    }
    if 0 <= n < 100 {
        let t = digits2(n);
        lemma_digit_round_trip(n / 10, 'a');
        lemma_digit_round_trip(n % 10, 'a');
        assert(t.drop_last().drop_last() =~= Seq::<char>::empty());
        assert(t.drop_last() =~= seq![digit_char(n / 10)]);
        reveal_with_fuel(number_value, 3);
        assert(number_value(t) == (n / 10) * 10 + n % 10);
    }
}

/// Four digits read as a number and written back again are unchanged, and the reverse.
pub proof fn lemma_digits4(s: Seq<char>, n: int)
    ensures
        s.len() == 4 && all_digits(s) ==> digits4(number_value(s)) == s && 0 <= number_value(s)
            < 10000,
        0 <= n < 10000 ==> number_value(digits4(n)) == n && all_digits(digits4(n)),
{
    if s.len() == 4 && all_digits(s) {
        let a = digit_value(s[0]);
        let b = digit_value(s[1]);
        let c = digit_value(s[2]);
        let d = digit_value(s[3]);
        lemma_digit_round_trip(0, s[0]);
        lemma_digit_round_trip(0, s[1]);
        lemma_digit_round_trip(0, s[2]);
        lemma_digit_round_trip(0, s[3]);
        assert(s.drop_last().drop_last().drop_last().drop_last() =~= Seq::<char>::empty());
        assert(s.drop_last().drop_last().drop_last() =~= seq![s[0]]);
        assert(s.drop_last().drop_last() =~= seq![s[0], s[1]]);
        assert(s.drop_last() =~= seq![s[0], s[1], s[2]]);
        reveal_with_fuel(number_value, 5);
        assert(number_value(s) == ((a * 10 + b) * 10 + c) * 10 + d);
        let v = ((a * 10 + b) * 10 + c) * 10 + d;
        assert(v / 1000 == a && (v / 100) % 10 == b && (v / 10) % 10 == c && v % 10 == d
            && 0 <= v < 10000) by (nonlinear_arith)
            requires
                0 <= a < 10,
                0 <= b < 10,
                0 <= c < 10,
                0 <= d < 10,
                v == ((a * 10 + b) * 10 + c) * 10 + d,
        ;
        assert(digits4(number_value(s)) =~= s);
    }
    if 0 <= n < 10000 {
        let t = digits4(n);
        let a = n / 1000;
        let b = (n / 100) % 10;
        let c = (n / 10) % 10;
        let d = n % 10;
        assert(0 <= a < 10 && 0 <= b < 10 && 0 <= c < 10 && 0 <= d < 10 && ((a * 10 + b) * 10
            + c) * 10 + d == n) by (nonlinear_arith)
            requires
                0 <= n < 10000,
                a == n / 1000,
                b == (n / 100) % 10,
                c == (n / 10) % 10,
                d == n % 10,
        ;
        lemma_digit_round_trip(a, 'a');
        lemma_digit_round_trip(b, 'a');
        lemma_digit_round_trip(c, 'a');
        lemma_digit_round_trip(d, 'a');
        assert(t.drop_last().drop_last().drop_last().drop_last() =~= Seq::<char>::empty());
        assert(t.drop_last().drop_last().drop_last() =~= seq![t[0]]);
        assert(t.drop_last().drop_last() =~= seq![t[0], t[1]]);
        assert(t.drop_last() =~= seq![t[0], t[1], t[2]]);
        reveal_with_fuel(number_value, 5);
        assert(number_value(t) == ((a * 10 + b) * 10 + c) * 10 + d);
    }
}

/// The value of a digit character, or `None` for any other character.
pub fn digit_of(c: char) -> (r: Option<u32>)
    ensures
        r is Some <==> is_digit(c),
        r matches Some(v) ==> v == digit_value(c),
{
    if c == '0' {
        Some(0)
    } else if c == '1' {
        Some(1)
    } else if c == '2' {
        Some(2)
    } else if c == '3' {
        Some(3)
    } else if c == '4' {
        Some(4)
    } else if c == '5' {
        Some(5)
    } else if c == '6' {
        Some(6)
    } else if c == '7' {
        Some(7)
    } else if c == '8' {
        Some(8)
    } else if c == '9' {
        Some(9)
    } else {
        None
    }
}

/// The digit character for `n`.
pub fn char_of_digit(n: u32) -> (r: char)
    requires
        n < 10,
    ensures
        r == digit_char(n as int),
{
    if n == 0 {
        '0'
    } else if n == 1 {
        '1'
    } else if n == 2 {
        '2'
    } else if n == 3 {
        '3'
    } else if n == 4 {
        '4'
    } else if n == 5 {
        '5'
    } else if n == 6 {
        '6'
    } else if n == 7 {
        '7'
    } else if n == 8 {
        '8'
    } else {
        '9'
    }
}

/// The first position at or after `from` where `s` holds `c`, if any.
pub fn find_char(s: &str, c: char, from: usize) -> (r: Option<usize>)
    requires
        from <= s@.len(),
    ensures
        r matches Some(i) ==> from <= i < s@.len() && s@[i as int] == c && lacks(
            s@.subrange(from as int, i as int),
            c,
        ),
        r is None ==> lacks(s@.subrange(from as int, s@.len() as int), c),
{
    let n = s.unicode_len();
    let mut i = from;
    while i < n
        invariant
            n == s@.len(),
            from <= i <= n,
            lacks(s@.subrange(from as int, i as int), c),
        decreases n - i,
    {
        if s.get_char(i) == c {
            return Some(i);
        }
        assert(s@.subrange(from as int, i + 1) =~= s@.subrange(from as int, i as int).push(s@[i as int]));
        i = i + 1;
    }
    None
}

/// The number written by the `count` digits of `s` from position `from`, or
/// `None` where one of them is no digit.
pub fn read_number(s: &str, from: usize, count: usize) -> (r: Option<u32>)
    requires
        from + count <= s@.len(),
        count <= 4,
    ensures
        r is Some <==> all_digits(s@.subrange(from as int, from + count)),
        r matches Some(v) ==> v == number_value(s@.subrange(from as int, from + count)),
{
    let n = s.unicode_len();
    let mut value: u32 = 0;
    let mut k: usize = 0;
    while k < count
        invariant
            n == s@.len(),
            from + count <= s@.len(),
            count <= 4,
            k <= count,
            all_digits(s@.subrange(from as int, from + k)),
            value == number_value(s@.subrange(from as int, from + k)),
            value < 10000,
            k <= 3 ==> value < 1000,
            k <= 2 ==> value < 100,
            k <= 1 ==> value < 10,
            k == 0 ==> value == 0,
        decreases count - k,
    {
        let ghost pre = s@.subrange(from as int, from + k);
        let ghost next = s@.subrange(from as int, from + k + 1);
        assert(next.drop_last() =~= pre);
        match digit_of(s.get_char(from + k)) {
            None => {
                assert(!is_digit(next[k as int]));
                proof {
                    let whole = s@.subrange(from as int, from + count);
                    assert(whole[k as int] == next[k as int]);
                }
                return None;
            },
            Some(d) => {
                value = value * 10 + d;
                k = k + 1;
            },
        }
    }
    Some(value)
}

} // verus!
