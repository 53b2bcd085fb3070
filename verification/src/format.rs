//! Numbers, sizes, times and colours as text.

use vstd::prelude::*;

verus! {

/// A decimal digit.
pub open spec fn digit(n: nat) -> char {
    (0x30 + n) as char
}

/// A number in decimal.
pub open spec fn decimal(n: nat) -> Seq<char>
    decreases n,
{
    if n < 10 {
        seq![digit(n)]
    } else {
        decimal(n / 10).push(digit(n % 10))
    }
}

/// A text with `fill` in front of it until it is `width` characters long.
pub open spec fn padded(s: Seq<char>, width: nat, fill: char) -> Seq<char> {
    if s.len() >= width {
        s
    } else {
        Seq::new((width - s.len()) as nat, |i: int| fill) + s
    }
}

fn digit_text(n: u64) -> (r: &'static str)
    requires
        n < 10,
    ensures
        r@ == seq![digit(n as nat)],
{
    let r: &'static str = match n {
        0 => "0",
        1 => "1",
        2 => "2",
        3 => "3",
        4 => "4",
        5 => "5",
        6 => "6",
        7 => "7",
        8 => "8",
        _ => "9",
    };
    proof {
        reveal_strlit("0");
        reveal_strlit("1");
        reveal_strlit("2");
        reveal_strlit("3");
        reveal_strlit("4");
        reveal_strlit("5");
        reveal_strlit("6");
        reveal_strlit("7");
        reveal_strlit("8");
        reveal_strlit("9");
        assert(r@ =~= seq![digit(n as nat)]);
    }
    r
}

/// A number in decimal.
pub fn decimal_text(n: u64) -> (r: String)
    ensures
        r@ == decimal(n as nat),
    decreases n,
{
    if n < 10 {
        String::from_str(digit_text(n))
    } else {
        let mut r = decimal_text(n / 10);
        let ghost front = r@;
        r.append(digit_text(n % 10));
        assert(r@ =~= front.push(digit((n % 10) as nat)));
        r
    }
}

/// A text with `fill` in front of it until it is `width` characters long.
pub fn pad_left(s: &str, width: usize, fill: &str) -> (r: String)
    requires
        fill@.len() == 1,
    ensures
        r@ == padded(s@, width as nat, fill@[0]),
{
    let length: usize = s.unicode_len();
    let mut r = String::new();
    let mut i: usize = length;
    while i < width
        invariant
            fill@.len() == 1,
            length == s@.len(),
            length <= i,
            i <= width || i == length,
            r@ == Seq::new((i - length) as nat, |j: int| fill@[0]),
        decreases width - i,
    {
        let ghost before = r@;
        r.append(fill);
        i = i + 1;
        assert(r@ =~= Seq::new((i - length) as nat, |j: int| fill@[0]));
    }
    r.append(s);
    assert(r@ =~= padded(s@, width as nat, fill@[0]));
    r
}

/// A number in decimal with zeros in front until it is `width` digits long.
pub fn zero_padded(n: u64, width: usize) -> (r: String)
    ensures
        r@ == padded(decimal(n as nat), width as nat, '0'),
{
    proof {
        reveal_strlit("0");
    }
    pad_left(decimal_text(n).as_str(), width, "0")
}

/// A text with spaces in front until it is `width` characters long.
pub fn right_aligned(s: &str, width: usize) -> (r: String)
    ensures
        r@ == padded(s@, width as nat, ' '),
{
    proof {
        reveal_strlit(" ");
    }
    pad_left(s, width, " ")
}

/// The time of day, in hours, minutes and seconds, `seconds` after midnight of some
/// day.
pub open spec fn clock(seconds: u64) -> Seq<char> {
    padded(decimal(((seconds / 3600) % 24) as nat), 2, '0') + ":"@ + padded(
        decimal(((seconds / 60) % 60) as nat),
        2,
        '0',
    ) + ":"@ + padded(decimal((seconds % 60) as nat), 2, '0')
}

/// The time of day of a moment given in seconds since the epoch.
pub fn timestamp(seconds: u64) -> (r: String)
    ensures
        r@ == clock(seconds),
{
    let mut r = zero_padded((seconds / 3600) % 24, 2);
    r.append(":");
    r.append(zero_padded((seconds / 60) % 60, 2).as_str());
    r.append(":");
    r.append(zero_padded(seconds % 60, 2).as_str());
    r
}

/// A text in a colour, on a terminal.
pub open spec fn coloured(colour: Seq<char>, s: Seq<char>, tty: bool) -> Seq<char> {
    if tty {
        colour + s + "\x1b[0m"@
    } else {
        s
    }
}

fn paint(colour: &str, s: &str, tty: bool) -> (r: String)
    ensures
        r@ == coloured(colour@, s@, tty),
{
    if tty {
        let mut r = String::from_str(colour);
        r.append(s);
        r.append("\x1b[0m");
        r
    } else {
        String::from_str(s)
    }
}

/// Grey text.
pub fn dim(s: &str, tty: bool) -> (r: String)
    ensures
        r@ == coloured("\x1b[90m"@, s@, tty),
{
    paint("\x1b[90m", s, tty)
}

/// Green text.
pub fn green(s: &str, tty: bool) -> (r: String)
    ensures
        r@ == coloured("\x1b[92m"@, s@, tty),
{
    paint("\x1b[92m", s, tty)
}

/// Yellow text.
pub fn yellow(s: &str, tty: bool) -> (r: String)
    ensures
        r@ == coloured("\x1b[93m"@, s@, tty),
{
    paint("\x1b[93m", s, tty)
}

/// Bold cyan text.
pub fn cyan_bold(s: &str, tty: bool) -> (r: String)
    ensures
        r@ == coloured("\x1b[1;96m"@, s@, tty),
{
    paint("\x1b[1;96m", s, tty)
}

/// A quotient rounded to the nearest whole number, a half to the even one.
pub open spec fn nearest(num: nat, den: nat) -> nat {
    let q = num / den;
    let r = num % den;
    if 2 * r < den || (2 * r == den && q % 2 == 0) {
        q
    } else {
        q + 1
    }
}

/// The distance between neighbouring numbers of 53 binary digits around `n`.
pub open spec fn spacing(n: nat) -> nat
    decreases n,
{
    if n < 0x20_0000_0000_0000 {
        1
    } else {
        2 * spacing(n / 2)
    }
}

/// `n` in double precision: the nearest number of 53 binary digits, of two the one
/// whose last digit is even.
pub open spec fn double(n: nat) -> nat {
    nearest(n, spacing(n)) * spacing(n)
}

/// The power of 1024 that a size is counted in: the largest, up to the sixth, that
/// is not greater.
pub open spec fn unit_power(v: nat) -> nat {
    if v < 0x400 {
        0
    } else if v < 0x10_0000 {
        1
    } else if v < 0x4000_0000 {
        2
    } else if v < 0x100_0000_0000 {
        3
    } else if v < 0x4_0000_0000_0000 {
        4
    } else if v < 0x1000_0000_0000_0000 {
        5
    } else {
        6
    }
}

/// The number of bytes in a unit.
pub open spec fn unit_bytes(power: nat) -> nat {
    if power == 0 {
        1
    } else if power == 1 {
        0x400
    } else if power == 2 {
        0x10_0000
    } else if power == 3 {
        0x4000_0000
    } else if power == 4 {
        0x100_0000_0000
    } else if power == 5 {
        0x4_0000_0000_0000
    } else {
        0x1000_0000_0000_0000
    }
}

/// The name of a unit.
pub open spec fn unit_name(power: nat) -> Seq<char> {
    if power == 0 {
        "B"@
    } else if power == 1 {
        "KiB"@
    } else if power == 2 {
        "MiB"@
    } else if power == 3 {
        "GiB"@
    } else if power == 4 {
        "TiB"@
    } else if power == 5 {
        "PiB"@
    } else {
        "EiB"@
    }
}

/// A size as text: in the largest unit that is not greater, rounded to hundredths,
/// once it is in double precision.
pub open spec fn size_text(n: u64) -> Seq<char> {
    let v = double(n as nat);
    let power = unit_power(v);
    let hundredths = nearest(v * 100, unit_bytes(power));
    decimal(hundredths / 100) + "."@ + padded(decimal(hundredths % 100), 2, '0') + " "@ + unit_name(
        power,
    )
}

fn spacing_of(n: u64) -> (r: u64)
    ensures
        r == spacing(n as nat),
        r >= 1,
        r == 1 || r * 0x10_0000_0000_0000 <= n,
    decreases n,
{
    if n < 0x20_0000_0000_0000 {
        1
    } else {
        let half: u64 = spacing_of(n / 2);
        2 * half
    }
}

fn nearest_of(num: u128, den: u128) -> (r: u128)
    requires
        0 < den <= 0x1000_0000_0000_0000,
        num <= 0x1_0000_0000_0000_0000_0000_0000,
    ensures
        r == nearest(num as nat, den as nat),
        r <= num / den + 1,
{
    let q: u128 = num / den;
    let rest: u128 = num % den;
    if 2 * rest < den || (2 * rest == den && q % 2 == 0) {
        q
    } else {
        q + 1
    }
}

fn double_of(n: u64) -> (r: u128)
    ensures
        r == double(n as nat),
        r <= 0x1_0000_0000_0000_1000,
{
    let step: u64 = spacing_of(n);
    let count: u128 = nearest_of(n as u128, step as u128);
    proof {
        let d = step as int;
        let q = n as int / d;
        assert(q * d <= n) by (nonlinear_arith)
            requires
                q == n as int / d,
                d >= 1,
                n >= 0,
        ;
        assert(count * d <= (q + 1) * d) by (nonlinear_arith)
            requires
                count <= q + 1,
                d >= 1,
        ;
        assert((q + 1) * d == q * d + d) by (nonlinear_arith);
        assert(d <= 0x1000);
    }
    count * (step as u128)
}

/// A size as text.
pub fn format_bytes(n: u64) -> (r: String)
    ensures
        r@ == size_text(n),
{
    let v: u128 = double_of(n);
    let (bytes, name): (u128, &str) = if v < 0x400 {
        (1, "B")
    } else if v < 0x10_0000 {
        (0x400, "KiB")
    } else if v < 0x4000_0000 {
        (0x10_0000, "MiB")
    } else if v < 0x100_0000_0000 {
        (0x4000_0000, "GiB")
    } else if v < 0x4_0000_0000_0000 {
        (0x100_0000_0000, "TiB")
    } else if v < 0x1000_0000_0000_0000 {
        (0x4_0000_0000_0000, "PiB")
    } else {
        (0x1000_0000_0000_0000, "EiB")
    };
    let hundredths: u128 = nearest_of(v * 100, bytes);
    assert(hundredths < 0x1_0000_0000_0000);
    let mut r = decimal_text((hundredths / 100) as u64);
    r.append(".");
    r.append(zero_padded((hundredths % 100) as u64, 2).as_str());
    r.append(" ");
    r.append(name);
    r
}

/// The number that a text of decimal digits stands for.
pub open spec fn number(s: Seq<char>) -> int
    decreases s.len(),
{
    if s.len() == 0 {
        0
    } else {
        number(s.drop_last()) * 10 + (s.last() as u32 - 0x30)
    }
}

/// A number in decimal reads back as the number: it is all digits, and none but a lone
/// nought begins with a nought.
pub proof fn lemma_decimal_reads_back(n: nat)
    ensures
        number(decimal(n)) == n,
        decimal(n).len() > 0,
        forall|i: int| 0 <= i < decimal(n).len() ==> '0' <= #[trigger] decimal(n)[i] <= '9',
        decimal(n).len() > 1 ==> decimal(n)[0] != '0',
        n > 0 ==> decimal(n)[0] != '0',
    decreases n,
{
    let d = n % 10;
    assert(digit(d) as u32 == 0x30 + d);
    if n < 10 {
        assert(decimal(n).drop_last() =~= Seq::empty());
        assert(number(decimal(n).drop_last()) == 0);
    } else {
        lemma_decimal_reads_back(n / 10);
        assert(decimal(n).drop_last() =~= decimal(n / 10));
    }
}

/// Padding keeps the text at the end, fills up in front of it, and does so to the width.
pub proof fn lemma_padded(s: Seq<char>, width: nat, fill: char)
    ensures
        padded(s, width, fill).len() == if s.len() >= width {
            s.len()
        } else {
            width
        },
        padded(s, width, fill).skip(padded(s, width, fill).len() - s.len()) == s,
        forall|i: int|
            0 <= i < padded(s, width, fill).len() - s.len() ==> #[trigger] padded(
                s,
                width,
                fill,
            )[i] == fill,
{
    let p = padded(s, width, fill);
    assert(p.skip(p.len() - s.len()) =~= s);
}

proof fn lemma_number_noughts(s: Seq<char>, t: Seq<char>)
    requires
        forall|i: int| 0 <= i < s.len() ==> #[trigger] s[i] == '0',
    ensures
        number(s + t) == number(t),
    decreases s.len() + t.len(),
{
    if t.len() > 0 {
        lemma_number_noughts(s, t.drop_last());
        assert((s + t).drop_last() =~= s + t.drop_last());
    } else {
        assert(s + t =~= s);
        if s.len() > 0 {
            assert forall|i: int| 0 <= i < s.drop_last().len() implies #[trigger] s.drop_last()[i]
                == '0' by {
                assert(s[i] == '0');
            }
            lemma_number_noughts(s.drop_last(), t);
            assert(s.drop_last() + t =~= s.drop_last());
            assert(s[s.len() - 1] == '0');
        }
    }
}

/// Noughts in front do not change a number.
pub proof fn lemma_padded_number(s: Seq<char>, width: nat)
    ensures
        number(padded(s, width, '0')) == number(s),
{
    if s.len() < width {
        let front = Seq::new((width - s.len()) as nat, |i: int| '0');
        lemma_number_noughts(front, s);
    }
}

proof fn lemma_two_digits(n: nat)
    requires
        n < 60,
    ensures
        padded(decimal(n), 2, '0').len() == 2,
        number(padded(decimal(n), 2, '0')) == n,
{
    lemma_decimal_reads_back(n);
    lemma_padded(decimal(n), 2, '0');
    lemma_padded_number(decimal(n), 2);
    reveal_with_fuel(decimal, 3);
    assert(decimal(n).len() <= 2);
}

/// A time of day is two digits each of hours, minutes and seconds, and these come to the
/// seconds that have passed since midnight.
pub proof fn lemma_clock(seconds: u64)
    ensures
        clock(seconds).len() == 8,
        clock(seconds)[2] == ':',
        clock(seconds)[5] == ':',
        number(clock(seconds).subrange(0, 2)) < 24,
        number(clock(seconds).subrange(3, 5)) < 60,
        number(clock(seconds).subrange(6, 8)) < 60,
        number(clock(seconds).subrange(0, 2)) * 3600 + number(clock(seconds).subrange(3, 5)) * 60
            + number(clock(seconds).subrange(6, 8)) == seconds % 86400,
{
    let h = ((seconds / 3600) % 24) as nat;
    let m = ((seconds / 60) % 60) as nat;
    let s = (seconds % 60) as nat;
    let x = padded(decimal(h), 2, '0');
    let y = padded(decimal(m), 2, '0');
    let z = padded(decimal(s), 2, '0');
    assert(x.len() == 2 && number(x) == h) by {
        lemma_two_digits(h);
    }
    assert(y.len() == 2 && number(y) == m) by {
        lemma_two_digits(m);
    }
    assert(z.len() == 2 && number(z) == s) by {
        lemma_two_digits(s);
    }
    lemma_with_colons(x, y, z);
    lemma_time(seconds);
    assert(clock(seconds) == x + ":"@ + y + ":"@ + z);
}

proof fn lemma_with_colons(x: Seq<char>, y: Seq<char>, z: Seq<char>)
    requires
        x.len() == 2,
        y.len() == 2,
        z.len() == 2,
    ensures
        ({
            let c = x + ":"@ + y + ":"@ + z;
            &&& c.len() == 8
            &&& c[2] == ':'
            &&& c[5] == ':'
            &&& c.subrange(0, 2) == x
            &&& c.subrange(3, 5) == y
            &&& c.subrange(6, 8) == z
        }),
{
    reveal_strlit(":");
    let c = x + ":"@ + y + ":"@ + z;
    assert(c.subrange(0, 2) =~= x);
    assert(c.subrange(3, 5) =~= y);
    assert(c.subrange(6, 8) =~= z);
}

proof fn lemma_time(seconds: u64)
    ensures
        ((seconds / 3600) % 24) * 3600 + ((seconds / 60) % 60) * 60 + seconds % 60 == seconds
            % 86400,
{
}

proof fn lemma_nearest(num: nat, den: nat)
    requires
        den > 0,
    ensures
        2 * (nearest(num, den) * den - num) <= den,
        2 * (num - nearest(num, den) * den) <= den,
{
    let q = num / den;
    let r = num % den;
    assert(num == q * den + r && r < den) by (nonlinear_arith)
        requires
            den > 0,
            q == num / den,
            r == num % den,
    ;
    assert((q + 1) * den == q * den + den) by (nonlinear_arith);
}

/// Whether a unit of the given name stands for so many bytes.
pub open spec fn is_unit(bytes: nat, name: Seq<char>) -> bool {
    ||| bytes == 1 && name == "B"@
    ||| bytes == 1024 && name == "KiB"@
    ||| bytes == 1024 * 1024 && name == "MiB"@
    ||| bytes == 1024 * 1024 * 1024 && name == "GiB"@
    ||| bytes == 1024 * 1024 * 1024 * 1024 && name == "TiB"@
    ||| bytes == 1024 * 1024 * 1024 * 1024 * 1024 && name == "PiB"@
    ||| bytes == 1024 * 1024 * 1024 * 1024 * 1024 * 1024 && name == "EiB"@
}

/// A size in double precision is told in the largest unit that is not greater, in units
/// and hundredths, and the number of hundredths is the nearest one.
pub proof fn lemma_size_text(n: u64, bytes: nat, name: Seq<char>) -> (hundredths: nat)
    requires
        is_unit(bytes, name),
        double(n as nat) < 1024 * bytes,
        bytes > 1 ==> double(n as nat) >= bytes,
    ensures
        size_text(n) == decimal(hundredths / 100) + "."@ + padded(
            decimal(hundredths % 100),
            2,
            '0',
        ) + " "@ + name,
        2 * (hundredths * bytes - 100 * double(n as nat)) <= bytes,
        2 * (100 * double(n as nat) - hundredths * bytes) <= bytes,
{
    let v = double(n as nat);
    assert(unit_bytes(unit_power(v)) == bytes);
    assert(unit_name(unit_power(v)) == name);
    lemma_nearest(v * 100, bytes);
    nearest(v * 100, bytes)
}

proof fn lemma_spacing(n: nat)
    ensures
        spacing(n) >= 1,
        n >= 0x20_0000_0000_0000 ==> spacing(n) * 0x10_0000_0000_0000 <= n,
        n < 0x20_0000_0000_0000 ==> spacing(n) == 1,
        n < spacing(n) * 0x20_0000_0000_0000,
    decreases n,
{
    if n >= 0x20_0000_0000_0000 {
        lemma_spacing(n / 2);
    }
}

/// In double precision a size is off by no more than one part in 2 to the power of 53.
pub proof fn lemma_double(n: nat)
    ensures
        n < 0x20_0000_0000_0000 ==> double(n) == n,
        (double(n) - n) * 0x20_0000_0000_0000 <= n,
        (n - double(n)) * 0x20_0000_0000_0000 <= n,
{
    lemma_spacing(n);
    lemma_nearest(n, spacing(n));
}

} // verus!
