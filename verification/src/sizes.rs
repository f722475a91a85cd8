//! Sizes in bytes: read from text such as `100MB`, and written for people.
//!
//! A decimal number is handled as the IEEE 754 double that it is read as,
//! given by its 64 bits.
use vstd::arithmetic::{div_mod, power2};
use vstd::prelude::*;

use crate::text;

verus! {

// ---------------------------------------------------------------------------
// Doubles
// ---------------------------------------------------------------------------

/// Whether the sign bit of a double is set.
pub open spec fn is_negative(bits: u64) -> bool {
    bits >= 0x8000_0000_0000_0000
}

/// The exponent field of a double.
pub open spec fn exponent(bits: u64) -> nat {
    ((bits / 0x10_0000_0000_0000) % 2048) as nat
}

/// The fraction field of a double.
pub open spec fn fraction(bits: u64) -> nat {
    (bits % 0x10_0000_0000_0000) as nat
}

/// Whether a double is not a number.
pub open spec fn is_nan(bits: u64) -> bool {
    exponent(bits) == 2047 && fraction(bits) != 0
}

/// Whether a double is one of the two infinities.
pub open spec fn is_infinite(bits: u64) -> bool {
    exponent(bits) == 2047 && fraction(bits) == 0
}

/// The magnitude of a finite double is `significand * 2^scale`.
pub open spec fn significand(bits: u64) -> nat {
    if exponent(bits) == 0 {
        fraction(bits)
    } else {
        fraction(bits) + 0x10_0000_0000_0000
    }
}

/// The magnitude of a finite double is `significand * 2^scale`.
pub open spec fn scale(bits: u64) -> int {
    if exponent(bits) == 0 {
        -1074
    } else {
        exponent(bits) - 1075
    }
}

/// The magnitude of a finite double times `multiplier`, rounded to the nearest
/// whole number, halves upwards.
pub open spec fn rounded_product(bits: u64, multiplier: nat) -> nat {
    let product = significand(bits) * multiplier;
    if scale(bits) >= 0 {
        product * power2::pow2(scale(bits) as nat)
    } else {
        let unit = power2::pow2((-scale(bits)) as nat);
        (2 * product + unit) / (2 * unit)
    }
}

/// A double times `multiplier`, rounded to a whole number that is kept between
/// 0 and the largest number of 64 bits. What is not a number gives 0.
pub open spec fn scaled(bits: u64, multiplier: nat) -> u64 {
    if is_nan(bits) || is_negative(bits) {
        0
    } else if is_infinite(bits) || rounded_product(bits, multiplier) > u64::MAX {
        u64::MAX
    } else {
        rounded_product(bits, multiplier) as u64
    }
}

fn power_of_two(k: u32) -> (r: u128)
    requires
        k < 128,
    ensures
        r == power2::pow2(k as nat),
{
    proof {
        power2::lemma2_to64();
        lemma_pow2_bound(k as nat);
    }
    let mut r: u128 = 1;
    let mut i: u32 = 0;
    while i < k
        invariant
            i <= k < 128,
            r == power2::pow2(i as nat),
        decreases k - i,
    {
        proof {
            power2::lemma_pow2_unfold((i + 1) as nat);
            lemma_pow2_bound((i + 1) as nat);
        }
        r = r * 2;
        i = i + 1;
    }
    r
}

proof fn lemma_pow2_bound(k: nat)
    requires
        k < 128,
    ensures
        0 < power2::pow2(k) <= 0x8000_0000_0000_0000_0000_0000_0000_0000,
{
    power2::lemma2_to64();
    power2::lemma_pow2_pos(k);
    assert(power2::pow2(127) == 0x8000_0000_0000_0000_0000_0000_0000_0000) by {
        power2::lemma2_to64_rest();
        power2::lemma_pow2_adds(63, 64);
    }
    if k < 127 {
        power2::lemma_pow2_strictly_increases(k, 127);
    }
}

/// A double times a size unit, as a number of bytes.
pub fn scale_to_bytes(bits: u64, multiplier: u64) -> (r: u64)
    requires
        multiplier <= 0x4_0000_0000_0000,
    ensures
        r == scaled(bits, multiplier as nat),
{
    let field: u64 = (bits / 0x10_0000_0000_0000) % 2048;
    let fraction: u64 = bits % 0x10_0000_0000_0000;
    if bits >= 0x8000_0000_0000_0000 {
        return 0;
    }
    if field == 2047 {
        return if fraction == 0 { u64::MAX } else { 0 };
    }
    let significand: u64 = if field == 0 { fraction } else { fraction + 0x10_0000_0000_0000 };
    proof {
        assert(significand as int * multiplier as int <= 0x1f_ffff_ffff_ffff * 0x4_0000_0000_0000)
            by (nonlinear_arith)
            requires
                0 <= significand <= 0x1f_ffff_ffff_ffff,
                0 <= multiplier <= 0x4_0000_0000_0000,
        ;
    }
    let product: u128 = significand as u128 * multiplier as u128;
    assert(product == significand * multiplier);
    assert(product < 0x80_0000_0000_0000_0000_0000_0000);
    if field >= 1075 {
        let up: u32 = (field - 1075) as u32;
        if product == 0 {
            assert(0 * power2::pow2(up as nat) == 0) by (nonlinear_arith);
            return 0;
        }
        if product > u64::MAX as u128 || up >= 64 {
            proof {
                lemma_product_large(product as nat, up as nat);
            }
            return u64::MAX;
        }
        let unit = power_of_two(up);
        proof {
            power2::lemma2_to64();
            power2::lemma2_to64_rest();
            if up < 63 {
                power2::lemma_pow2_strictly_increases(up as nat, 63);
            }
            assert(product as int * unit as int <= 0xffff_ffff_ffff_ffff * 0x8000_0000_0000_0000)
                by (nonlinear_arith)
                requires
                    0 <= product <= 0xffff_ffff_ffff_ffff,
                    0 <= unit <= 0x8000_0000_0000_0000,
            ;
        }
        let value: u128 = product * unit;
        if value > u64::MAX as u128 {
            u64::MAX
        } else {
            value as u64
        }
    } else {
        let down: u32 = if field == 0 { 1074 } else { (1075 - field) as u32 };
        if down > 110 {
            proof {
                lemma_product_small(product as nat, down as nat);
            }
            return 0;
        }
        let unit = power_of_two(down);
        proof {
            lemma_pow2_110();
            power2::lemma_pow2_pos(down as nat);
            if down < 110 {
                power2::lemma_pow2_strictly_increases(down as nat, 110);
            }
        }
        let value: u128 = (2 * product + unit) / (2 * unit);
        if value > u64::MAX as u128 {
            u64::MAX
        } else {
            value as u64
        }
    }
}

proof fn lemma_pow2_110()
    ensures
        power2::pow2(110) == 0x4000_0000_0000_0000_0000_0000_0000,
{
    power2::lemma2_to64();
    power2::lemma2_to64_rest();
    power2::lemma_pow2_adds(46, 64);
}

proof fn lemma_product_large(product: nat, up: nat)
    requires
        product > 0,
        product > u64::MAX || up >= 64,
    ensures
        product * power2::pow2(up) > u64::MAX,
{
    power2::lemma2_to64();
    power2::lemma_pow2_pos(up);
    if up > 64 {
        power2::lemma_pow2_strictly_increases(64, up);
    }
    let unit = power2::pow2(up);
    if product > u64::MAX {
        assert(product * unit >= product) by (nonlinear_arith)
            requires
                unit >= 1,
                product >= 0,
        ;
    } else {
        assert(product * unit >= unit) by (nonlinear_arith)
            requires
                product >= 1,
                unit >= 0,
        ;
    }
}

proof fn lemma_product_small(product: nat, down: nat)
    requires
        product < 0x80_0000_0000_0000_0000_0000_0000,
        down > 110,
    ensures
        (2 * product + power2::pow2(down)) / (2 * power2::pow2(down)) == 0,
{
    lemma_pow2_110();
    power2::lemma_pow2_strictly_increases(110, down);
    div_mod::lemma_basic_div((2 * product + power2::pow2(down)) as int, (2 * power2::pow2(down)) as int);
}

/// Whether a double is the whole number `n`.
pub open spec fn is_whole(bits: u64, n: nat) -> bool {
    &&& !is_negative(bits)
    &&& exponent(bits) != 2047
    &&& if scale(bits) >= 0 {
        significand(bits) * power2::pow2(scale(bits) as nat) == n
    } else {
        significand(bits) == n * power2::pow2((-scale(bits)) as nat)
    }
}

/// `n`, or the largest number of 64 bits if `n` is larger.
pub open spec fn saturated(n: nat) -> u64 {
    if n <= u64::MAX {
        n as u64
    } else {
        u64::MAX
    }
}

/// A double that is a whole number is scaled without any loss, as long as the
/// result fits in 64 bits.
pub proof fn law_whole_numbers_scale_exactly(bits: u64, n: nat, multiplier: nat)
    requires
        is_whole(bits, n),
    ensures
        scaled(bits, multiplier) == saturated(n * multiplier),
{
    let s = significand(bits);
    if scale(bits) >= 0 {
        let unit = power2::pow2(scale(bits) as nat);
        assert((s * multiplier) * unit == (s * unit) * multiplier) by (nonlinear_arith);
    } else {
        let unit = power2::pow2((-scale(bits)) as nat);
        power2::lemma_pow2_pos((-scale(bits)) as nat);
        let whole = n * multiplier;
        let twice = (2 * unit) as int;
        assert(2 * ((n * unit) * multiplier) == whole * (2 * unit)) by (nonlinear_arith)
            requires
                whole == n * multiplier,
        ;
        div_mod::lemma_fundamental_div_mod_converse(
            whole * twice + unit,
            twice,
            whole as int,
            unit as int,
        );
    }
}

// ---------------------------------------------------------------------------
// Reading sizes
// ---------------------------------------------------------------------------

/// A size, ready to be read: blanks taken off and letters raised.
pub open spec fn size_text(input: Seq<char>) -> Seq<char> {
    text::uppercase_of(text::trim(input))
}

/// A size is a number in front of a unit. The largest unit that occurs counts,
/// where it first occurs; without any, the number is one of bytes. Gives the
/// number and the bytes in the unit.
pub open spec fn size_parts(s: Seq<char>) -> (Seq<char>, nat) {
    if text::find(s, "PB"@) is Some {
        (text::trim(s.take(text::find(s, "PB"@).unwrap())), 1125899906842624)
    } else if text::find(s, "TB"@) is Some {
        (text::trim(s.take(text::find(s, "TB"@).unwrap())), 1099511627776)
    } else if text::find(s, "GB"@) is Some {
        (text::trim(s.take(text::find(s, "GB"@).unwrap())), 1073741824)
    } else if text::find(s, "MB"@) is Some {
        (text::trim(s.take(text::find(s, "MB"@).unwrap())), 1048576)
    } else if text::find(s, "KB"@) is Some {
        (text::trim(s.take(text::find(s, "KB"@).unwrap())), 1024)
    } else if text::find(s, "B"@) is Some {
        (text::trim(s.take(text::find(s, "B"@).unwrap())), 1)
    } else {
        (s, 1)
    }
}

fn number_before(s: &Vec<char>, unit: &str) -> (r: Option<String>)
    ensures
        match r {
            Some(number) => text::find(s@, unit@) is Some && number@ == text::trim(
                s@.take(text::find(s@, unit@).unwrap()),
            ),
            None => text::find(s@, unit@) is None,
        },
{
    let pattern = text::chars_of(unit);
    match text::find_text(s, &pattern) {
        Some(at) => {
            let front = text::string_of(s, 0, at);
            assert(s@.subrange(0, at as int) =~= s@.take(at as int));
            Some(text::strip_text(&front, text::Fringe::Blanks))
        },
        None => None,
    }
}

/// Takes a size apart: the number, still as text, and the bytes in its unit.
pub fn split_size(s: &str) -> (r: (String, u64))
    ensures
        r.0@ == size_parts(s@).0,
        r.1 == size_parts(s@).1,
        r.1 <= 0x4_0000_0000_0000,
{
    let v = text::chars_of(s);
    if let Some(number) = number_before(&v, "PB") {
        return (number, 1125899906842624);
    }
    if let Some(number) = number_before(&v, "TB") {
        return (number, 1099511627776);
    }
    if let Some(number) = number_before(&v, "GB") {
        return (number, 1073741824);
    }
    if let Some(number) = number_before(&v, "MB") {
        return (number, 1048576);
    }
    if let Some(number) = number_before(&v, "KB") {
        return (number, 1024);
    }
    if let Some(number) = number_before(&v, "B") {
        return (number, 1);
    }
    (s.to_string(), 1)
}

/// Makes a size ready to be read.
fn normal_size(input: &str) -> (r: String)
    ensures
        r@ == size_text(input@),
        vstd::utf8::is_ascii_chars(text::trim(input@)) ==> r@ == text::raised(text::trim(input@)),
{
    let trimmed = text::strip_text(input, text::Fringe::Blanks);
    text::to_uppercase(&trimmed)
}

/// The part of a size that is to be read as a decimal number.
pub fn size_number(input: &str) -> (r: String)
    ensures
        r@ == size_parts(size_text(input@)).0,
        vstd::utf8::is_ascii_chars(text::trim(input@)) ==> r@ == size_parts(
            text::raised(text::trim(input@)),
        ).0,
{
    let s = normal_size(input);
    split_size(&s).0
}

/// The number of bytes that a size such as `100MB` names. `number` is what
/// became of its number when it was read as a double: the bits of the double,
/// or the reason why it is none.
pub fn parse_size_to_bytes(input: &str, number: Result<u64, String>) -> (r: Result<u64, String>)
    ensures
        match number {
            Ok(bits) => r == Ok::<u64, String>(scaled(bits, size_parts(size_text(input@)).1)),
            Err(reason) => r matches Err(e) && e@ == "Failed to parse number: "@ + reason@,
        },
        vstd::utf8::is_ascii_chars(text::trim(input@)) ==> (number matches Ok(bits) ==> r == Ok::<
            u64,
            String,
        >(scaled(bits, size_parts(text::raised(text::trim(input@))).1))),
{
    match number {
        Ok(bits) => {
            let s = normal_size(input);
            let parts = split_size(&s);
            Ok(scale_to_bytes(bits, parts.1))
        },
        Err(reason) => Err(text::join2("Failed to parse number: ", &reason)),
    }
}

/// The letter of a unit above the byte.
pub open spec fn unit_letter(power: int) -> char {
    if power == 5 {
        'P'
    } else if power == 4 {
        'T'
    } else if power == 3 {
        'G'
    } else if power == 2 {
        'M'
    } else {
        'K'
    }
}

/// The name of the unit of `1024` to this power.
pub open spec fn unit_name(power: int) -> Seq<char> {
    if power == 0 {
        seq!['B']
    } else {
        seq![unit_letter(power), 'B']
    }
}

/// The bytes in the unit of `1024` to this power.
pub open spec fn unit_bytes(power: int) -> nat {
    if power == 5 {
        1125899906842624
    } else if power == 4 {
        1099511627776
    } else if power == 3 {
        1073741824
    } else if power == 2 {
        1048576
    } else if power == 1 {
        1024
    } else {
        1
    }
}

proof fn lemma_unit_names()
    ensures
        "PB"@ == unit_name(5),
        "TB"@ == unit_name(4),
        "GB"@ == unit_name(3),
        "MB"@ == unit_name(2),
        "KB"@ == unit_name(1),
        "B"@ == unit_name(0),
{
    reveal_strlit("PB");
    reveal_strlit("TB");
    reveal_strlit("GB");
    reveal_strlit("MB");
    reveal_strlit("KB");
    reveal_strlit("B");
    assert("PB"@ =~= unit_name(5));
    assert("TB"@ =~= unit_name(4));
    assert("GB"@ =~= unit_name(3));
    assert("MB"@ =~= unit_name(2));
    assert("KB"@ =~= unit_name(1));
    assert("B"@ =~= unit_name(0));
}

/// Whether no letter of a unit occurs in `s`.
spec fn without_units(s: Seq<char>) -> bool {
    forall|i: int|
        0 <= i < s.len() ==> {
            let c = #[trigger] s[i];
            c != 'P' && c != 'T' && c != 'G' && c != 'M' && c != 'K' && c != 'B'
        }
}

proof fn lemma_unit_is_found(front: Seq<char>, power: int, other: int)
    requires
        without_units(front),
        0 <= power <= 5,
        1 <= other <= 5 || other == power,
    ensures
        text::find(front + unit_name(power), unit_name(other)) == (if other == power {
            Some(front.len() as int)
        } else {
            None
        }),
{
    let s = front + unit_name(power);
    let pattern = unit_name(other);
    let n = front.len() as int;
    assert forall|j: int| text::stands_at(s, pattern, j) implies other == power && j == n by {
        let last = j + pattern.len() - 1;
        assert(s.subrange(j, j + pattern.len())[pattern.len() - 1] == s[last]);
        assert(s[last] == 'B');
        if last < n {
            assert(front[last] == s[last]);
        }
        if other > 0 {
            assert(s.subrange(j, j + pattern.len())[0] == s[j]);
            assert(s[j] == unit_letter(other));
            if j < n {
                assert(front[j] == s[j]);
            }
        }
    }
    if other == power {
        assert(s.subrange(n, n + pattern.len()) =~= pattern);
        text::lemma_found_at(s, pattern, 0, n);
    } else {
        text::lemma_not_found(s, pattern, 0);
    }
}

proof fn lemma_size_parts(front: Seq<char>, power: int)
    requires
        without_units(front),
        0 <= power <= 5,
    ensures
        size_parts(front + unit_name(power)) == (text::trim(front), unit_bytes(power)),
{
    lemma_unit_names();
    let s = front + unit_name(power);
    assert(s.take(front.len() as int) =~= front);
    lemma_unit_is_found(front, power, 5);
    lemma_unit_is_found(front, power, 4);
    lemma_unit_is_found(front, power, 3);
    lemma_unit_is_found(front, power, 2);
    lemma_unit_is_found(front, power, 1);
    if power == 0 {
        lemma_unit_is_found(front, power, 0);
    }
}

proof fn lemma_size_without_unit(s: Seq<char>)
    requires
        without_units(s),
    ensures
        size_parts(s) == (s, 1nat),
{
    lemma_unit_names();
    assert forall|power: int, j: int| 0 <= power <= 5 implies !#[trigger] text::stands_at(
        s,
        unit_name(power),
        j,
    ) by {
        if text::stands_at(s, unit_name(power), j) {
            let last = j + unit_name(power).len() - 1;
            assert(s.subrange(j, j + unit_name(power).len())[unit_name(power).len() - 1]
                == s[last]);
        }
    }
    text::lemma_not_found(s, unit_name(5), 0);
    text::lemma_not_found(s, unit_name(4), 0);
    text::lemma_not_found(s, unit_name(3), 0);
    text::lemma_not_found(s, unit_name(2), 0);
    text::lemma_not_found(s, unit_name(1), 0);
    text::lemma_not_found(s, unit_name(0), 0);
}

/// Neither the case of the letters of a size matters, nor blanks around it:
/// number and unit are the same.
pub proof fn law_case_and_blanks_do_not_matter(
    size: Seq<char>,
    front: Seq<char>,
    other: Seq<char>,
    back: Seq<char>,
)
    requires
        vstd::utf8::is_ascii_chars(size),
        vstd::utf8::is_ascii_chars(other),
        text::raised(size) == text::raised(other),
        text::all_blanks(front),
        text::all_blanks(back),
    ensures
        vstd::utf8::is_ascii_chars(text::trim(size)),
        vstd::utf8::is_ascii_chars(text::trim(front + other + back)),
        size_parts(text::raised(text::trim(front + other + back))) == size_parts(
            text::raised(text::trim(size)),
        ),
{
    text::law_trim_ignores_outer_blanks(front, other, back);
    text::law_trim_ignores_case(size, other);
    text::lemma_trim_is_ascii(size);
    text::lemma_trim_is_ascii(other);
}

proof fn lemma_plain_size(number: Seq<char>, blanks: Seq<char>, power: int)
    requires
        number.len() > 0,
        forall|i: int|
            0 <= i < number.len() ==> text::is_digit(#[trigger] number[i]) || number[i] == '.',
        text::all_blanks(blanks),
        0 <= power <= 5,
    ensures
        text::raised(text::trim(number + blanks + unit_name(power))) == number + blanks + unit_name(
            power,
        ),
        size_parts(number + blanks + unit_name(power)) == (number, unit_bytes(power)),
        text::raised(text::trim(number)) == number,
        size_parts(number) == (number, 1nat),
        vstd::utf8::is_ascii_chars(number),
        vstd::utf8::is_ascii_chars(blanks) ==> vstd::utf8::is_ascii_chars(
            number + blanks + unit_name(power),
        ),
        text::trim(number) == number,
        text::trim(number + blanks + unit_name(power)) == number + blanks + unit_name(power),
{
    let s = number + blanks + unit_name(power);
    let front = number + blanks;
    assert(!text::is_whitespace(number[0]));
    assert(!text::is_whitespace(number[number.len() - 1]));
    assert(s.first() == number[0]);
    assert(s.last() == 'B');
    assert(text::trim(s) == s);
    assert(text::trim(number) == number);
    assert forall|i: int| 0 <= i < front.len() implies {
        let c = #[trigger] front[i];
        &&& c != 'P' && c != 'T' && c != 'G' && c != 'M' && c != 'K' && c != 'B'
        &&& text::ascii_upper(c) == c
    } by {
        if i < number.len() {
            assert(front[i] == number[i]);
        } else {
            assert(front[i] == blanks[i - number.len()]);
        }
    }
    assert forall|i: int| 0 <= i < s.len() implies text::ascii_upper(#[trigger] s[i]) == s[i] by {
        if i < front.len() {
            assert(s[i] == front[i]);
        }
    }
    assert(text::raised(s) =~= s);
    assert(text::raised(number) =~= number);
    lemma_size_parts(front, power);
    text::law_trim_ignores_outer_blanks(Seq::empty(), number, blanks);
    assert(Seq::<char>::empty() + number + blanks =~= front);
    lemma_size_without_unit(number);
}

/// A whole number with a unit names as many bytes as their product, and without
/// a unit as many bytes as it says; where that takes more than 64 bits, it is the
/// largest number that does not. Blanks may stand in front of the unit. `bits` is
/// the double that the number is read as.
pub proof fn law_whole_sizes_are_exact(n: nat, blanks: Seq<char>, power: int, bits: u64)
    requires
        text::all_blanks(blanks),
        vstd::utf8::is_ascii_chars(blanks),
        0 <= power <= 5,
        is_whole(bits, n),
    ensures
        ({
            let input = text::decimal(n) + blanks + unit_name(power);
            let parts = size_parts(text::raised(text::trim(input)));
            &&& vstd::utf8::is_ascii_chars(text::trim(input))
            &&& parts.0 == text::decimal(n)
            &&& scaled(bits, parts.1) == saturated(n * unit_bytes(power))
        }),
        ({
            let input = text::decimal(n);
            let parts = size_parts(text::raised(text::trim(input)));
            &&& vstd::utf8::is_ascii_chars(text::trim(input))
            &&& parts.0 == text::decimal(n)
            &&& scaled(bits, parts.1) == saturated(n)
        }),
{
    text::lemma_decimal(n);
    lemma_plain_size(text::decimal(n), blanks, power);
    law_whole_numbers_scale_exactly(bits, n, unit_bytes(power));
    law_whole_numbers_scale_exactly(bits, n, 1);
}

// ---------------------------------------------------------------------------
// Writing sizes
// ---------------------------------------------------------------------------

/// The distance between the doubles next to `n`, as far as they are whole.
pub open spec fn double_gap(n: nat) -> nat
    decreases n,
{
    if n < 0x20_0000_0000_0000 {
        1
    } else {
        2 * double_gap(n / 2)
    }
}

/// `x / unit` rounded to the nearest whole number, halves to the even one.
pub open spec fn round_even(x: nat, unit: nat) -> nat {
    let low = x / unit;
    let rest = x % unit;
    if 2 * rest > unit || (2 * rest == unit && low % 2 == 1) {
        low + 1
    } else {
        low
    }
}

/// The double nearest to `n`, which is a whole number.
pub open spec fn nearest_double(n: nat) -> nat {
    round_even(n, double_gap(n)) * double_gap(n)
}

/// The name of the largest unit that a size reaches, and the bytes in it.
pub open spec fn display_unit(size: nat) -> (Seq<char>, nat) {
    if size < 1024 {
        ("B"@, 1)
    } else if size < 1048576 {
        ("KB"@, 1024)
    } else if size < 1073741824 {
        ("MB"@, 1048576)
    } else if size < 1099511627776 {
        ("GB"@, 1073741824)
    } else if size < 1125899906842624 {
        ("TB"@, 1099511627776)
    } else {
        ("PB"@, 1125899906842624)
    }
}

/// A number of hundredths with two digits behind the point.
pub open spec fn hundredths_text(h: nat) -> Seq<char> {
    text::decimal(h / 100) + seq![
        '.',
        text::digit_char((h / 10) % 10),
        text::digit_char(h % 10),
    ]
}

/// A number of bytes, written for people: whole bytes below 1024, otherwise two
/// decimals and the largest unit that fits.
pub open spec fn bytes_text(bytes: i64) -> Seq<char> {
    if bytes < 0 {
        seq!['-'] + text::decimal(nearest_double((-bytes) as nat)) + " B"@
    } else {
        let size = nearest_double(bytes as nat);
        let unit = display_unit(size);
        if size < 1024 {
            text::decimal(size) + " "@ + unit.0
        } else {
            hundredths_text(round_even(100 * size, unit.1)) + " "@ + unit.0
        }
    }
}

proof fn lemma_double_gap(n: nat)
    requires
        n <= 0x8000_0000_0000_0000,
    ensures
        1 <= double_gap(n) <= 2048,
{
    reveal_with_fuel(double_gap, 13);
}

fn gap_of(n: u64) -> (r: u64)
    requires
        n <= 0x8000_0000_0000_0000,
    ensures
        r == double_gap(n as nat),
        1 <= r <= 2048,
    decreases n,
{
    proof {
        lemma_double_gap(n as nat);
    }
    if n < 0x20_0000_0000_0000 {
        1
    } else {
        2 * gap_of(n / 2)
    }
}

fn divide_even(x: u128, unit: u128) -> (r: u128)
    requires
        0 < unit <= 0x1_0000_0000_0000_0000,
        x <= 0x1_0000_0000_0000_0000_0000_0000,
    ensures
        r == round_even(x as nat, unit as nat),
        r <= x + 1,
{
    let low: u128 = x / unit;
    let rest: u128 = x % unit;
    assert(low <= x) by (nonlinear_arith)
        requires
            low == x / unit,
            unit > 0,
    ;
    if 2 * rest > unit || (2 * rest == unit && low % 2 == 1) {
        low + 1
    } else {
        low
    }
}

proof fn lemma_nearest_double_bound(n: nat)
    requires
        n <= 0x8000_0000_0000_0000,
    ensures
        nearest_double(n) <= 0x8000_0000_0000_0800,
        round_even(n, double_gap(n)) <= n + 1,
{
    lemma_double_gap(n);
    let gap = double_gap(n);
    let low = n / gap;
    let rest = n % gap;
    div_mod::lemma_fundamental_div_mod(n as int, gap as int);
    assert((low + 1) * gap == low * gap + gap) by (nonlinear_arith);
    assert(gap * low == low * gap) by (nonlinear_arith);
    assert(low <= low * gap) by (nonlinear_arith)
        requires
            gap >= 1,
            low >= 0,
    ;
}

/// The double nearest to `n`.
fn nearest(n: u64) -> (r: u64)
    requires
        n <= 0x8000_0000_0000_0000,
    ensures
        r == nearest_double(n as nat),
{
    let gap = gap_of(n);
    proof {
        lemma_nearest_double_bound(n as nat);
    }
    let units = divide_even(n as u128, gap as u128);
    units as u64 * gap
}

fn digit(d: u64) -> (r: char)
    requires
        d < 10,
    ensures
        r == text::digit_char(d as nat),
{
    (48 + d as u8) as char
}

/// Writes a number of bytes for people.
pub fn format_bytes(bytes: i64) -> (r: String)
    ensures
        r@ == bytes_text(bytes),
{
    if bytes < 0 {
        let magnitude: u64 = (-(bytes as i128)) as u64;
        let mut r = String::new();
        r.push('-');
        let number = text::decimal_text(nearest(magnitude));
        r.append(&number);
        r.append(" B");
        assert(r@ =~= bytes_text(bytes));
        return r;
    }
    let size = nearest(bytes as u64);
    proof {
        lemma_nearest_double_bound(bytes as nat);
    }
    if size < 1024 {
        let mut r = text::decimal_text(size);
        r.append(" ");
        r.append("B");
        return r;
    }
    let unit: (&str, u64) = if size < 1048576 {
        ("KB", 1024)
    } else if size < 1073741824 {
        ("MB", 1048576)
    } else if size < 1099511627776 {
        ("GB", 1073741824)
    } else if size < 1125899906842624 {
        ("TB", 1099511627776)
    } else {
        ("PB", 1125899906842624)
    };
    let exact: u128 = 100 * size as u128;
    let h128 = divide_even(exact, unit.1 as u128);
    proof {
        lemma_hundredths_bound(size as nat, unit.1 as nat);
    }
    let h: u64 = h128 as u64;
    let mut r = text::decimal_text(h / 100);
    r.push('.');
    r.push(digit((h / 10) % 10));
    r.push(digit(h % 10));
    assert(r@ =~= hundredths_text(h as nat));
    r.append(" ");
    r.append(unit.0);
    r
}

proof fn lemma_hundredths_bound(size: nat, unit: nat)
    requires
        size <= 0x8000_0000_0000_0800,
        unit >= 1024,
    ensures
        round_even(100 * size, unit) <= u64::MAX,
{
    let x = (100 * size) as int;
    div_mod::lemma_div_is_ordered_by_denominator(x, 1024, unit as int);
}

proof fn lemma_multiple_of_gap(n: nat, c: nat, t: nat) -> (q: nat)
    requires
        n == c * power2::pow2(t),
        n < power2::pow2(53 + t),
    ensures
        n == q * double_gap(n),
    decreases t,
{
    power2::lemma2_to64_rest();
    if n < 0x20_0000_0000_0000 {
        assert(n * 1 == n);
        n
    } else {
        power2::lemma_pow2_unfold(53 + t);
        power2::lemma_pow2_unfold(t);
        let half = power2::pow2((t - 1) as nat);
        assert(n == 2 * (c * half)) by (nonlinear_arith)
            requires
                n == c * (2 * half),
        ;
        let q = lemma_multiple_of_gap(n / 2, c, (t - 1) as nat);
        let gap = double_gap(n / 2);
        assert(double_gap(n) == 2 * gap);
        assert(n == 2 * (n / 2));
        assert(2 * (q * gap) == q * (2 * gap)) by (nonlinear_arith);
        q
    }
}

proof fn lemma_multiple_is_double(n: nat)
    requires
        n < 0x20_0000_0000_0000 || n % 1125899906842624 == 0,
        n <= 0x8000_0000_0000_0000,
    ensures
        nearest_double(n) == n,
{
    lemma_double_gap(n);
    if n >= 0x20_0000_0000_0000 {
        power2::lemma2_to64_rest();
        power2::lemma_pow2_strictly_increases(63, 103);
        let q = lemma_multiple_of_gap(n, n / 1125899906842624, 50);
        lemma_round_even(n, double_gap(n), q);
    } else {
        lemma_round_even(n, 1, n);
    }
}

/// A number of bytes that is a whole multiple of the unit that it is written in
/// reads back as that number. `bits` is the double that the written number is
/// read as.
pub proof fn law_written_sizes_read_back(bytes: i64, n: nat, power: int, bits: u64)
    requires
        0 <= power <= 5,
        bytes == n * unit_bytes(power),
        power > 0 ==> n > 0,
        power < 5 ==> n < 1024,
        is_whole(bits, n),
    ensures
        ({
            let parts = size_parts(text::raised(text::trim(bytes_text(bytes))));
            &&& vstd::utf8::is_ascii_chars(text::trim(bytes_text(bytes)))
            &&& parts.0 == (if power == 0 {
                text::decimal(n)
            } else {
                text::decimal(n) + seq!['.', '0', '0']
            })
            &&& scaled(bits, parts.1) == bytes
        }),
{
    let unit = unit_bytes(power);
    let size = bytes as nat;
    lemma_unit_names();
    reveal_strlit(" ");
    lemma_multiple_is_double(size);
    text::lemma_decimal(n);
    assert(" "@ =~= seq![' ']);
    let number = if power == 0 {
        text::decimal(n)
    } else {
        text::decimal(n) + seq!['.', '0', '0']
    };
    assert(bytes_text(bytes) =~= number + " "@ + unit_name(power)) by {
        if power > 0 {
            assert(100 * size == (100 * n) * unit) by (nonlinear_arith)
                requires
                    size == n * unit,
            ;
            div_mod::lemma_fundamental_div_mod_converse(
                100 * size as int,
                unit as int,
                100 * n as int,
                0,
            );
            assert(display_unit(size) == (unit_name(power), unit));
            assert(round_even(100 * size, unit) == 100 * n);
            assert(hundredths_text(100 * n) =~= number);
        }
    }
    assert forall|i: int| 0 <= i < number.len() implies text::is_digit(#[trigger] number[i])
        || number[i] == '.' by {
        if i < text::decimal(n).len() {
            assert(number[i] == text::decimal(n)[i]);
        }
    }
    lemma_plain_size(number, " "@, power);
    law_whole_numbers_scale_exactly(bits, n, unit);
}

// ---------------------------------------------------------------------------
// Laws
// ---------------------------------------------------------------------------


/// The value of a double with the exponent field `e` and the fraction field `f`
/// is `(2^52 + f) * 2^(e - 1075)`, or `f * 2^-1074` where `e` is zero. Scaling
/// gives the whole number nearest to the product, halves upwards, as far as it
/// fits in 64 bits.
pub proof fn law_scaling_gives_the_nearest_whole_number(e: u64, f: u64, multiplier: nat)
    requires
        e < 2047,
        f < 0x10_0000_0000_0000,
    ensures
        ({
            let r = scaled((e * 0x10_0000_0000_0000 + f) as u64, multiplier);
            let m: nat = if e == 0 {
                f as nat
            } else {
                (f + 0x10_0000_0000_0000) as nat
            };
            let product = m * multiplier;
            if e >= 1075 {
                let value = product * power2::pow2((e - 1075) as nat);
                r == (if value <= 0xffff_ffff_ffff_ffff {
                    value as int
                } else {
                    0xffff_ffff_ffff_ffff
                })
            } else {
                let unit = power2::pow2(
                    (if e == 0 {
                        1074
                    } else {
                        1075 - e
                    }) as nat,
                );
                &&& r * (2 * unit) <= 2 * product + unit
                &&& r < 0xffff_ffff_ffff_ffff ==> 2 * product + unit < (r + 1) * (2 * unit)
            }
        }),
{
    let bits = (e * 0x10_0000_0000_0000 + f) as u64;
    assert(bits == e * 0x10_0000_0000_0000 + f);
    assert(bits / 0x10_0000_0000_0000 == e);
    assert(exponent(bits) == e);
    assert(fraction(bits) == f);
    assert(!is_negative(bits));
    if e < 1075 {
        let product = significand(bits) * multiplier;
        let down = (-scale(bits)) as nat;
        let unit = power2::pow2(down);
        power2::lemma_pow2_pos(down);
        let x = (2 * product + unit) as int;
        let d = (2 * unit) as int;
        let q = x / d;
        div_mod::lemma_fundamental_div_mod(x, d);
        div_mod::lemma_mod_bound(x, d);
        assert(d * q == q * d) by (nonlinear_arith);
        assert((q + 1) * d == q * d + d) by (nonlinear_arith);
        let r = scaled(bits, multiplier);
        assert(r <= q);
        assert(r * d <= q * d) by (nonlinear_arith)
            requires
                0 <= r <= q,
                d > 0,
        ;
    }
}

/// Negative numbers, and what is no number, give zero; infinity gives the
/// largest number of 64 bits.
pub proof fn law_special_doubles(bits: u64, multiplier: nat)
    ensures
        bits >= 0x8000_0000_0000_0000 ==> scaled(bits, multiplier) == 0,
        bits == 0x7ff0_0000_0000_0000 ==> scaled(bits, multiplier) == 0xffff_ffff_ffff_ffff,
        0x7ff0_0000_0000_0000 < bits < 0x8000_0000_0000_0000 ==> scaled(bits, multiplier) == 0,
{
    if 0x7ff0_0000_0000_0000 <= bits < 0x8000_0000_0000_0000 {
        assert(bits / 0x10_0000_0000_0000 == 2047);
        assert(bits % 0x10_0000_0000_0000 == bits - 0x7ff0_0000_0000_0000);
    }
}

/// What stands in front of a unit is the number, and the unit says how many
/// bytes it counts.
pub proof fn law_number_stands_in_front_of_the_unit(front: Seq<char>)
    requires
        forall|i: int|
            0 <= i < front.len() ==> {
                let c = #[trigger] front[i];
                c != 'P' && c != 'T' && c != 'G' && c != 'M' && c != 'K' && c != 'B'
            },
    ensures
        size_parts(front + seq!['P', 'B']) == (text::trim(front), 1125899906842624nat),
        size_parts(front + seq!['T', 'B']) == (text::trim(front), 1099511627776nat),
        size_parts(front + seq!['G', 'B']) == (text::trim(front), 1073741824nat),
        size_parts(front + seq!['M', 'B']) == (text::trim(front), 1048576nat),
        size_parts(front + seq!['K', 'B']) == (text::trim(front), 1024nat),
        size_parts(front + seq!['B']) == (text::trim(front), 1nat),
        size_parts(front) == (front, 1nat),
{
    lemma_size_parts(front, 5);
    lemma_size_parts(front, 4);
    lemma_size_parts(front, 3);
    lemma_size_parts(front, 2);
    lemma_size_parts(front, 1);
    lemma_size_parts(front, 0);
    lemma_size_without_unit(front);
}

/// Of several units the largest counts, with the number in front of the place
/// where it first occurs.
pub proof fn law_largest_unit_counts(s: Seq<char>)
    ensures
        ({
            let p = text::find(s, seq!['P', 'B']);
            let t = text::find(s, seq!['T', 'B']);
            let g = text::find(s, seq!['G', 'B']);
            let m = text::find(s, seq!['M', 'B']);
            let k = text::find(s, seq!['K', 'B']);
            let b = text::find(s, seq!['B']);
            let parts = size_parts(s);
            match (p, t, g, m, k, b) {
                (Some(at), _, _, _, _, _) => parts == (text::trim(s.take(at)), 1125899906842624nat),
                (_, Some(at), _, _, _, _) => parts == (text::trim(s.take(at)), 1099511627776nat),
                (_, _, Some(at), _, _, _) => parts == (text::trim(s.take(at)), 1073741824nat),
                (_, _, _, Some(at), _, _) => parts == (text::trim(s.take(at)), 1048576nat),
                (_, _, _, _, Some(at), _) => parts == (text::trim(s.take(at)), 1024nat),
                (_, _, _, _, _, Some(at)) => parts == (text::trim(s.take(at)), 1nat),
                _ => parts == (s, 1nat),
            }
        }),
{
    lemma_unit_names();
}

/// A size is read without the blanks around it and in capital letters.
pub proof fn law_sizes_are_read_in_capitals(input: Seq<char>)
    ensures
        size_text(input) == text::uppercase_of(text::strip(input, text::Fringe::Blanks)),
{
}

/// A size is shown in the largest unit that it reaches.
pub proof fn law_size_is_shown_in_the_largest_unit(size: nat)
    ensures
        ({
            let (name, unit) = display_unit(size);
            &&& unit <= size || unit == 1
            &&& size < 1024 * unit || unit == 1125899906842624
            &&& {
                ||| name == seq!['B'] && unit == 1
                ||| name == seq!['K', 'B'] && unit == 1024
                ||| name == seq!['M', 'B'] && unit == 1048576
                ||| name == seq!['G', 'B'] && unit == 1073741824
                ||| name == seq!['T', 'B'] && unit == 1099511627776
                ||| name == seq!['P', 'B'] && unit == 1125899906842624
            }
        }),
{
    lemma_unit_names();
}

/// Whether `q` is the whole number nearest to `x / unit`, or the even one of the
/// two nearest.
pub open spec fn is_nearest(x: nat, unit: nat, q: nat) -> bool {
    let d = 2 * (x - q * unit);
    &&& unit > 0
    &&& -unit <= d <= unit
    &&& (d == unit || d == -unit) ==> q % 2 == 0
}

proof fn lemma_round_even(x: nat, unit: nat, q: nat)
    requires
        is_nearest(x, unit, q),
    ensures
        round_even(x, unit) == q,
{
    let r = x - q * unit;
    if r >= 0 {
        div_mod::lemma_fundamental_div_mod_converse(x as int, unit as int, q as int, r);
    } else {
        assert(q >= 1) by (nonlinear_arith)
            requires
                x - q * unit < 0,
                x >= 0,
                q >= 0,
        ;
        assert((q - 1) * unit == q * unit - unit) by (nonlinear_arith);
        div_mod::lemma_fundamental_div_mod_converse(x as int, unit as int, q - 1, unit + r);
    }
}

proof fn lemma_gap_is_power(n: nat, k: nat)
    requires
        power2::pow2(52 + k) <= n < power2::pow2(53 + k),
    ensures
        double_gap(n) == power2::pow2(k),
    decreases k,
{
    power2::lemma2_to64();
    power2::lemma2_to64_rest();
    if k == 0 {
    } else {
        power2::lemma_pow2_unfold(52 + k);
        power2::lemma_pow2_unfold(53 + k);
        power2::lemma_pow2_unfold(k);
        if k > 1 {
            power2::lemma_pow2_strictly_increases(53, 52 + k);
        }
        lemma_gap_is_power(n / 2, (k - 1) as nat);
    }
}

/// A number below `2^53` is a double itself. Between `2^(52 + k)` and
/// `2^(53 + k)` the doubles are the multiples of `2^k`, and the nearest one is
/// taken, the even multiple of two equally near.
pub proof fn law_nearest_double_is_nearest(n: nat, k: nat, q: nat)
    ensures
        n < 0x20_0000_0000_0000 ==> nearest_double(n) == n,
        power2::pow2(52 + k) <= n < power2::pow2(53 + k) && is_nearest(n, power2::pow2(k), q)
            ==> nearest_double(n) == q * power2::pow2(k),
{
    if n < 0x20_0000_0000_0000 {
        assert(n * 1 == n);
        lemma_round_even(n, 1, n);
    }
    if power2::pow2(52 + k) <= n < power2::pow2(53 + k) && is_nearest(n, power2::pow2(k), q) {
        lemma_gap_is_power(n, k);
        lemma_round_even(n, power2::pow2(k), q);
    }
}

/// A number of bytes is written as the hundredth of its unit that is nearest,
/// with two digits behind the point; below `1024` as a whole number. A negative
/// number is written as a whole number of bytes behind a minus sign. The number
/// counts as the double nearest to it.
pub proof fn law_written_size_is_the_nearest_hundredth(bytes: i64, h: nat)
    ensures
        bytes >= 0 ==> {
            let size = nearest_double(bytes as nat);
            let (name, unit) = display_unit(size);
            &&& size < 1024 ==> bytes_text(bytes) == text::decimal(size) + seq![' ', 'B']
            &&& size >= 1024 && is_nearest(100 * size, unit, h) ==> {
                let s = bytes_text(bytes);
                let n = text::decimal(h / 100).len() as int;
                &&& s.take(n) == text::decimal(h / 100)
                &&& s[n] == '.'
                &&& s[n + 1] as int == 48 + (h / 10) % 10
                &&& s[n + 2] as int == 48 + h % 10
                &&& s[n + 3] == ' '
                &&& s.skip(n + 4) == name
            }
        },
        bytes < 0 ==> bytes_text(bytes) == seq!['-'] + text::decimal(
            nearest_double((-bytes) as nat),
        ) + seq![' ', 'B'],
{
    lemma_unit_names();
    reveal_strlit(" ");
    reveal_strlit(" B");
    assert(" "@ =~= seq![' ']);
    assert(" B"@ =~= seq![' ', 'B']);
    if bytes >= 0 {
        let size = nearest_double(bytes as nat);
        let (name, unit) = display_unit(size);
        if size < 1024 {
            assert(bytes_text(bytes) =~= text::decimal(size) + seq![' ', 'B']);
        } else if is_nearest(100 * size, unit, h) {
            lemma_round_even(100 * size, unit, h);
            let s = bytes_text(bytes);
            let n = text::decimal(h / 100).len() as int;
            assert(s == hundredths_text(h) + " "@ + name);
            assert(s.take(n) =~= text::decimal(h / 100));
            assert(s.skip(n + 4) =~= name);
        }
    }
}

/// A size is read as its number says, in the unit that stands behind it; a number
/// that cannot be read is an error.
pub proof fn law_parse_size(
    input: &str,
    n: nat,
    blanks: Seq<char>,
    power: int,
    bits: u64,
    number: String,
    r: Result<u64, String>,
    reason: String,
    failed: Result<u64, String>,
)
    requires
        text::all_blanks(blanks),
        vstd::utf8::is_ascii_chars(blanks),
        0 <= power <= 5,
        is_whole(bits, n),
        input@ == text::decimal(n) + blanks + unit_name(power),
        call_ensures(size_number, (input,), number),
        call_ensures(parse_size_to_bytes, (input, Ok::<u64, String>(bits)), r),
        call_ensures(parse_size_to_bytes, (input, Err::<u64, String>(reason)), failed),
    ensures
        number@ == text::decimal(n),
        r matches Ok(bytes) && bytes == saturated(n * unit_bytes(power)),
        failed matches Err(e) && e@ == "Failed to parse number: "@ + reason@,
{
    law_whole_sizes_are_exact(n, blanks, power, bits);
}

/// The units are the powers of `1024`, and their names are those in use.
pub proof fn law_units()
    ensures
        unit_name(0) == seq!['B'] && unit_bytes(0) == 1,
        unit_name(1) == seq!['K', 'B'] && unit_bytes(1) == 1024,
        unit_name(2) == seq!['M', 'B'] && unit_bytes(2) == 1024 * 1024,
        unit_name(3) == seq!['G', 'B'] && unit_bytes(3) == 1024 * 1024 * 1024,
        unit_name(4) == seq!['T', 'B'] && unit_bytes(4) == 1024 * 1024 * 1024 * 1024,
        unit_name(5) == seq!['P', 'B'] && unit_bytes(5) == 1024 * 1024 * 1024 * 1024 * 1024,
{
}

}
