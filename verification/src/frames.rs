use vstd::prelude::*;

verus! {

/// How many digits a frame number is padded to in a frame's file name.
pub const FRAME_DIGITS: usize = 4;

/// The decimal digit character for `d` (taken as `9` from `9` up).
pub open spec fn digit_char(d: nat) -> char {
    if d == 0 {
        '0'
    } else if d == 1 {
        '1'
    } else if d == 2 {
        '2'
    } else if d == 3 {
        '3'
    } else if d == 4 {
        '4'
    } else if d == 5 {
        '5'
    } else if d == 6 {
        '6'
    } else if d == 7 {
        '7'
    } else if d == 8 {
        '8'
    } else {
        '9'
    }
}

/// The value of a decimal digit character (0 for any other character).
pub open spec fn digit_value(c: char) -> nat {
    if c == '1' {
        1
    } else if c == '2' {
        2
    } else if c == '3' {
        3
    } else if c == '4' {
        4
    } else if c == '5' {
        5
    } else if c == '6' {
        6
    } else if c == '7' {
        7
    } else if c == '8' {
        8
    } else if c == '9' {
        9
    } else {
        0
    }
}

/// The decimal notation of `n`, most significant digit first, without
/// leading zeros.
pub open spec fn decimal(n: nat) -> Seq<char>
    decreases n,
{
    if n < 10 {
        seq![digit_char(n)]
    } else {
        decimal(n / 10).push(digit_char(n % 10))
    }
}

/// Every character of `s` is a decimal digit.
pub open spec fn all_digits(s: Seq<char>) -> bool {
    forall|i: int| 0 <= i < s.len() ==> '0' <= #[trigger] s[i] <= '9'
}

/// The number that a string of decimal digits denotes.
pub open spec fn digits_value(s: Seq<char>) -> nat
    decreases s.len(),
{
    if s.len() == 0 {
        0
    } else {
        digits_value(s.drop_last()) * 10 + digit_value(s.last())
    }
}

/// `k` zero characters.
pub open spec fn zeros(k: nat) -> Seq<char> {
    Seq::new(k, |i: int| '0')
}

/// The decimal notation of `n`, with zeros put in front of it up to `width`
/// characters (a longer notation is left as it is).
pub open spec fn zero_padded(n: nat, width: nat) -> Seq<char> {
    let d = decimal(n);
    if d.len() < width {
        zeros((width - d.len()) as nat) + d
    } else {
        d
    }
}

/// The file name of frame `n`: `frame_`, the frame number padded with zeros
/// to four digits, and `.png`.
pub open spec fn frame_name(n: nat) -> Seq<char> {
    seq!['f', 'r', 'a', 'm', 'e', '_'] + zero_padded(n, FRAME_DIGITS as nat) + seq![
        '.',
        'p',
        'n',
        'g',
    ]
}

/// The one-character string of the digit `d`.
fn digit_str(d: usize) -> (s: &'static str)
    requires
        d < 10,
    ensures
        s@ == seq![digit_char(d as nat)],
{
    proof {
        reveal_strlit("0");
        reveal_strlit("1");
        reveal_strlit("2");
        reveal_strlit("3");
        reveal_strlit("4");
        reveal_strlit("5");
        reveal_strlit("6");
        reveal_strlit("7");
        reveal_strlit("8");
        reveal_strlit("9");
    }
    if d == 0 {
        "0"
    } else if d == 1 {
        "1"
    } else if d == 2 {
        "2"
    } else if d == 3 {
        "3"
    } else if d == 4 {
        "4"
    } else if d == 5 {
        "5"
    } else if d == 6 {
        "6"
    } else if d == 7 {
        "7"
    } else if d == 8 {
        "8"
    } else {
        "9"
    }
}

/// Appends the decimal notation of `n` to `s`.
fn push_decimal(s: &mut String, n: usize)
    ensures
        final(s)@ == old(s)@ + decimal(n as nat),
    decreases n,
{
    if n < 10 {
        s.append(digit_str(n));
    } else {
        push_decimal(s, n / 10);
        s.append(digit_str(n % 10));
        proof {
            assert(old(s)@ + decimal(n as nat) =~= old(s)@ + decimal((n / 10) as nat) + seq![
                digit_char((n % 10) as nat),
            ]);
        }
    }
}

/// The number of digits in the decimal notation of `n`.
fn decimal_len(n: usize) -> (len: usize)
    ensures
        len == decimal(n as nat).len(),
        len <= n + 1,
    decreases n,
{
    if n < 10 {
        1
    } else {
        let k: usize = decimal_len(n / 10);
        k + 1
    }
}

/// The file name under which frame `frame_number` is drawn: `frame_`, the
/// frame number in decimal padded with zeros to four digits, then `.png`
/// (frame 7 is `frame_0007.png`, frame 12345 is `frame_12345.png`).
pub fn frame_file_name(frame_number: usize) -> (name: String)
    ensures
        name@ == frame_name(frame_number as nat),
        name@.len() >= 10,
        name@.subrange(0, 6) == seq!['f', 'r', 'a', 'm', 'e', '_'],
        name@.subrange(name@.len() - 4, name@.len() as int) == seq!['.', 'p', 'n', 'g'],
        all_digits(name@.subrange(6, name@.len() - 4)),
        digits_value(name@.subrange(6, name@.len() - 4)) == frame_number,
        frame_number < 10000 ==> name@.len() == 14,
        frame_number >= 1000 ==> name@[6] != '0',
{
    proof {
        reveal_strlit("frame_");
        reveal_strlit(".png");
    }
    let mut name = String::from_str("frame_");
    let len: usize = decimal_len(frame_number);
    let mut padding: usize = 0;
    if len < FRAME_DIGITS {
        padding = FRAME_DIGITS - len;
    }
    let mut i: usize = 0;
    while i < padding
        invariant
            i <= padding,
            name@ == seq!['f', 'r', 'a', 'm', 'e', '_'] + zeros(i as nat),
        decreases padding - i,
    {
        proof {
            reveal_strlit("0");
        }
        name.append("0");
        i = i + 1;
        proof {
            assert(zeros(i as nat) =~= zeros((i - 1) as nat).push('0'));
            assert(name@ =~= seq!['f', 'r', 'a', 'm', 'e', '_'] + zeros(i as nat));
        }
    }
    push_decimal(&mut name, frame_number);
    name.append(".png");
    proof {
        let d = decimal(frame_number as nat);
        if d.len() < FRAME_DIGITS {
            assert(zero_padded(frame_number as nat, FRAME_DIGITS as nat) == zeros(padding as nat) + d);
        } else {
            assert(zeros(0) =~= Seq::<char>::empty());
            assert(zero_padded(frame_number as nat, FRAME_DIGITS as nat) =~= zeros(padding as nat) + d);
        }
        assert(name@ =~= frame_name(frame_number as nat));
        lemma_frame_name_shape(frame_number as nat);
        if frame_number < 10000 {
            lemma_frame_name_length(frame_number as nat);
        }
    }
    name
}

/// `10` to the power `k`.
pub open spec fn pow10(k: nat) -> nat
    decreases k,
{
    if k == 0 {
        1
    } else {
        10 * pow10((k - 1) as nat)
    }
}

proof fn lemma_digit_value_of_char(d: nat)
    requires
        d < 10,
    ensures
        digit_value(digit_char(d)) == d,
{
}

/// Reading the decimal notation of `n` back gives `n`.
pub proof fn lemma_decimal_value(n: nat)
    ensures
        digits_value(decimal(n)) == n,
    decreases n,
{
    lemma_digit_value_of_char(n % 10);
    if n < 10 {
        let d = decimal(n);
        assert(d.drop_last() =~= Seq::<char>::empty());
        assert(n % 10 == n);
        assert(d.last() == digit_char(n));
        assert(digits_value(d) == digits_value(d.drop_last()) * 10 + digit_value(d.last()));
    } else {
        lemma_decimal_value(n / 10);
        assert(decimal(n).drop_last() =~= decimal(n / 10));
        assert(n == (n / 10) * 10 + n % 10);
        let d = decimal(n);
        assert(d.last() == digit_char(n % 10));
        assert(digits_value(d) == digits_value(d.drop_last()) * 10 + digit_value(d.last()));
    }
}

/// Leading zeros do not change the number that digits denote.
pub proof fn lemma_leading_zeros_value(k: nat, s: Seq<char>)
    ensures
        digits_value(zeros(k) + s) == digits_value(s),
    decreases s.len(),
{
    if s.len() == 0 {
        assert(zeros(k) + s =~= zeros(k));
        lemma_zeros_value(k);
    } else {
        lemma_leading_zeros_value(k, s.drop_last());
        assert((zeros(k) + s).drop_last() =~= zeros(k) + s.drop_last());
        assert((zeros(k) + s).last() == s.last());
    }
}

proof fn lemma_zeros_value(k: nat)
    ensures
        digits_value(zeros(k)) == 0,
    decreases k,
{
    if k > 0 {
        lemma_zeros_value((k - 1) as nat);
        assert(zeros(k).drop_last() =~= zeros((k - 1) as nat));
    }
}

/// Reading the padded notation of `n` back gives `n`, whatever the width.
pub proof fn lemma_zero_padded_value(n: nat, width: nat)
    ensures
        digits_value(zero_padded(n, width)) == n,
{
    lemma_decimal_value(n);
    let d = decimal(n);
    if d.len() < width {
        lemma_leading_zeros_value((width - d.len()) as nat, d);
    }
}

/// The digits of frame `n`'s file name, between `frame_` and `.png`, denote
/// `n`: the frame number can be read back from the name.
pub proof fn lemma_frame_name_digits(n: nat)
    ensures
        frame_name(n).len() >= 10,
        frame_name(n).subrange(6, frame_name(n).len() - 4) == zero_padded(n, FRAME_DIGITS as nat),
        digits_value(frame_name(n).subrange(6, frame_name(n).len() - 4)) == n,
{
    let p = zero_padded(n, FRAME_DIGITS as nat);
    assert(frame_name(n).subrange(6, frame_name(n).len() - 4) =~= p);
    lemma_zero_padded_value(n, FRAME_DIGITS as nat);
}

/// Distinct frames are drawn to distinct files: no frame overwrites another.
pub proof fn lemma_frame_names_distinct(a: nat, b: nat)
    requires
        a != b,
    ensures
        frame_name(a) != frame_name(b),
{
    lemma_frame_name_digits(a);
    lemma_frame_name_digits(b);
}

/// A number below `10^k` has at most `k` decimal digits.
pub proof fn lemma_decimal_len_bound(n: nat, k: nat)
    requires
        k >= 1,
        n < pow10(k),
    ensures
        decimal(n).len() <= k,
    decreases k,
{
    if n >= 10 {
        let p: nat = pow10((k - 1) as nat);
        assert(k >= 2) by {
            if k == 1 {
                assert(pow10(0) == 1);
            }
        }
        assert(n / 10 < p) by (nonlinear_arith)
            requires
                n < 10 * p,
        ;
        lemma_decimal_len_bound(n / 10, (k - 1) as nat);
    }
}

/// Frames `0` to `9999` all have names of fourteen characters, four of them
/// digits: their names sort in the order of the frames.
pub proof fn lemma_frame_name_length(n: nat)
    requires
        n < 10000,
    ensures
        zero_padded(n, FRAME_DIGITS as nat).len() == FRAME_DIGITS,
        frame_name(n).len() == 14,
{
    reveal_with_fuel(pow10, 5);
    lemma_decimal_len_bound(n, 4);
}

proof fn lemma_decimal_digits(n: nat)
    ensures
        all_digits(decimal(n)),
        decimal(n).len() >= 1,
        n >= 1 ==> decimal(n)[0] != '0',
    decreases n,
{
    if n >= 10 {
        lemma_decimal_digits(n / 10);
        assert(decimal(n)[0] == decimal(n / 10)[0]);
    }
}

/// Whatever the frame, its name starts with `frame_`, ends with `.png`, and
/// between them holds only decimal digits that denote the frame number,
/// padded with zeros to at least four of them; from frame 1000 on there is
/// no leading zero.
pub proof fn lemma_frame_name_shape(n: nat)
    ensures
        frame_name(n).len() >= 10,
        frame_name(n).subrange(0, 6) == seq!['f', 'r', 'a', 'm', 'e', '_'],
        frame_name(n).subrange(frame_name(n).len() - 4, frame_name(n).len() as int) == seq![
            '.',
            'p',
            'n',
            'g',
        ],
        all_digits(frame_name(n).subrange(6, frame_name(n).len() - 4)),
        digits_value(frame_name(n).subrange(6, frame_name(n).len() - 4)) == n,
        frame_name(n).len() >= 14,
        n >= 1000 ==> frame_name(n)[6] != '0',
{
    let name = frame_name(n);
    let p = zero_padded(n, FRAME_DIGITS as nat);
    lemma_frame_name_digits(n);
    lemma_decimal_digits(n);
    let d = decimal(n);
    assert(name.subrange(0, 6) =~= seq!['f', 'r', 'a', 'm', 'e', '_']);
    assert(name.subrange(name.len() - 4, name.len() as int) =~= seq!['.', 'p', 'n', 'g']);
    if d.len() < FRAME_DIGITS {
        let z = zeros((FRAME_DIGITS - d.len()) as nat);
        assert(p == z + d);
        assert forall|i: int| 0 <= i < p.len() implies '0' <= #[trigger] p[i] <= '9' by {
            if i >= z.len() {
                assert(p[i] == d[i - z.len()]);
            }
        }
        if n >= 1000 {
            lemma_decimal_min_len(n);
        }
    }
    assert(name[6] == p[0]);
}

/// A number of at least 1000 has at least four decimal digits.
proof fn lemma_decimal_min_len(n: nat)
    requires
        n >= 1000,
    ensures
        decimal(n).len() >= 4,
{
    assert(decimal(n / 10).len() >= 3) by {
        assert(decimal(n / 100).len() >= 2) by {
            assert(decimal(n / 1000).len() >= 1);
            assert(n / 100 >= 10);
            assert((n / 100) / 10 == n / 1000);
        }
        assert(n / 10 >= 10);
        assert((n / 10) / 10 == n / 100);
    }
}

} // verus!
