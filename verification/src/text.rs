//! Text as sequences of characters: decimal and hexadecimal numerals,
//! blanks, trimming and number parsing.

use vstd::prelude::*;

verus! {

/// `String::push` appends one character to the end of the string.
pub assume_specification[ String::push ](s: &mut String, c: char)
    ensures
        final(s)@ == old(s)@.push(c),
;

/// The decimal digit `d`, for `d < 10`.
pub open spec fn digit(d: int) -> char {
    (d + 48) as char
}

/// The decimal numeral of `n`, most significant digit first.
pub open spec fn dec(n: nat) -> Seq<char>
    decreases n,
{
    if n < 10 {
        seq![digit(n as int)]
    } else {
        dec(n / 10).push(digit((n % 10) as int))
    }
}

/// Appends the decimal numeral of `n`.
pub fn push_dec(out: &mut String, n: u64)
    ensures
        final(out)@ == old(out)@ + dec(n as nat),
    decreases n,
{
    if n >= 10 {
        push_dec(out, n / 10);
    }
    let d: u8 = 48 + (n % 10) as u8;
    out.push(d as char);
}

/// Whether two texts are the same.
pub fn same_str(a: &str, b: &str) -> (same: bool)
    ensures
        same == (a@ == b@),
{
    a.to_string() == b.to_string()
}

/// The characters of `s`.
pub fn chars_of(s: &str) -> (v: Vec<char>)
    ensures
        v@ == s@,
{
    let mut v: Vec<char> = Vec::new();
    for c in it: s.chars()
        invariant
            it.seq() == s@,
            v@ == s@.subrange(0, it.index() as int),
    {
        v.push(c);
        assert(v@ =~= s@.subrange(0, it.index() + 1));
    }
    assert(v@ =~= s@);
    v
}

/// The text of the characters of `v` from `from` on.
pub fn text_from(v: &Vec<char>, from: usize) -> (s: String)
    requires
        from <= v@.len(),
    ensures
        s@ == v@.skip(from as int),
{
    let mut s = String::new();
    let mut i: usize = from;
    while i < v.len()
        invariant
            from <= i <= v@.len(),
            s@ == v@.subrange(from as int, i as int),
        decreases v@.len() - i,
    {
        s.push(v[i]);
        i = i + 1;
        assert(s@ =~= v@.subrange(from as int, i as int));
    }
    assert(s@ =~= v@.skip(from as int));
    s
}

/// `s` without its last character.
pub fn without_last(s: &str) -> (t: String)
    ensures
        t@ == (if s@.len() == 0 {
            s@
        } else {
            s@.drop_last()
        }),
{
    let mut v = chars_of(s);
    let _ = v.pop();
    let t = text_from(&v, 0);
    assert(v@.skip(0) =~= v@);
    t
}

/// The characters that Unicode counts as white space.
pub open spec fn blank(c: char) -> bool {
    let n = c as int;
    ||| 0x09 <= n <= 0x0D
    ||| n == 0x20
    ||| n == 0x85
    ||| n == 0xA0
    ||| n == 0x1680
    ||| 0x2000 <= n <= 0x200A
    ||| n == 0x2028
    ||| n == 0x2029
    ||| n == 0x202F
    ||| n == 0x205F
    ||| n == 0x3000
}

/// Whether `c` is white space.
pub fn is_blank(c: char) -> (b: bool)
    ensures
        b == blank(c),
{
    let n: u32 = c as u32;
    (0x09 <= n && n <= 0x0D) || n == 0x20 || n == 0x85 || n == 0xA0 || n == 0x1680 || (0x2000 <= n
        && n <= 0x200A) || n == 0x2028 || n == 0x2029 || n == 0x202F || n == 0x205F || n == 0x3000
}

/// `s` without the white space at its start.
pub open spec fn trimmed_start(s: Seq<char>) -> Seq<char>
    decreases s.len(),
{
    if s.len() > 0 && blank(s[0]) {
        trimmed_start(s.skip(1))
    } else {
        s
    }
}

/// `s` without the white space at its end.
pub open spec fn trimmed_end(s: Seq<char>) -> Seq<char>
    decreases s.len(),
{
    if s.len() > 0 && blank(s.last()) {
        trimmed_end(s.drop_last())
    } else {
        s
    }
}

/// `s` without the white space at its start and at its end.
pub open spec fn trimmed(s: Seq<char>) -> Seq<char> {
    trimmed_end(trimmed_start(s))
}

/// The characters of `v` from `from` on, without the white space at the start
/// and at the end.
pub fn trim_from(v: &Vec<char>, from: usize) -> (t: Vec<char>)
    requires
        from <= v@.len(),
    ensures
        t@ == trimmed(v@.skip(from as int)),
{
    let mut i: usize = from;
    assert(v@.subrange(i as int, v@.len() as int) =~= v@.skip(from as int));
    while i < v.len() && is_blank(v[i])
        invariant
            from <= i <= v@.len(),
            trimmed_start(v@.skip(from as int)) == trimmed_start(v@.skip(i as int)),
        decreases v@.len() - i,
    {
        assert(v@.skip(i as int).skip(1) =~= v@.skip(i + 1));
        i = i + 1;
    }
    let ghost start = v@.skip(i as int);
    let mut j: usize = v.len();
    assert(v@.subrange(i as int, j as int) =~= start);
    while j > i && is_blank(v[j - 1])
        invariant
            i <= j <= v@.len(),
            trimmed_end(start) == trimmed_end(v@.subrange(i as int, j as int)),
        decreases j,
    {
        assert(v@.subrange(i as int, j as int).drop_last() =~= v@.subrange(i as int, j - 1));
        j = j - 1;
    }
    let mut t: Vec<char> = Vec::new();
    let mut k: usize = i;
    while k < j
        invariant
            i <= k <= j <= v@.len(),
            t@ == v@.subrange(i as int, k as int),
        decreases j - k,
    {
        t.push(v[k]);
        k = k + 1;
        assert(t@ =~= v@.subrange(i as int, k as int));
    }
    t
}

/// `s` starts with `p`.
pub open spec fn begins(s: Seq<char>, p: Seq<char>) -> bool {
    p.len() <= s.len() && s.subrange(0, p.len() as int) == p
}

/// Whether `v` starts with `p`.
pub fn starts_with(v: &Vec<char>, p: &Vec<char>) -> (b: bool)
    ensures
        b == begins(v@, p@),
{
    if v.len() < p.len() {
        return false;
    }
    let mut i: usize = 0;
    while i < p.len()
        invariant
            i <= p@.len() <= v@.len(),
            forall|k: int| 0 <= k < i ==> #[trigger] v@[k] == p@[k],
        decreases p@.len() - i,
    {
        if v[i] != p[i] {
            assert(v@.subrange(0, p@.len() as int)[i as int] != p@[i as int]);
            return false;
        }
        i = i + 1;
    }
    assert(v@.subrange(0, p@.len() as int) =~= p@);
    true
}

/// What the character `c` is worth as a digit.
pub open spec fn digit_value(c: char) -> int {
    let n = c as int;
    if 48 <= n <= 57 {
        n - 48
    } else if 65 <= n <= 90 {
        n - 55
    } else if 97 <= n <= 122 {
        n - 87
    } else {
        1000
    }
}

/// All of `s` are digits to base `radix`.
pub open spec fn all_digits(s: Seq<char>, radix: int) -> bool {
    forall|i: int| 0 <= i < s.len() ==> digit_value(#[trigger] s[i]) < radix
}

/// The number that the digits `s` are to base `radix`.
pub open spec fn digits_value(s: Seq<char>, radix: int) -> int
    decreases s.len(),
{
    if s.len() == 0 {
        0
    } else {
        digits_value(s.drop_last(), radix) * radix + digit_value(s.last())
    }
}

/// The digits of a numeral, which may start with a plus sign.
pub open spec fn unsigned(s: Seq<char>) -> Seq<char> {
    if s.len() > 0 && s[0] == '+' {
        s.skip(1)
    } else {
        s
    }
}

/// The number that `s` is to base `radix`, if it is one and in range.
pub open spec fn parsed(s: Seq<char>, radix: int) -> Option<u64> {
    let d = unsigned(s);
    if d.len() > 0 && all_digits(d, radix) && digits_value(d, radix) <= u64::MAX {
        Some(digits_value(d, radix) as u64)
    } else {
        None
    }
}

fn value_of(c: char) -> (d: u64)
    ensures
        d == digit_value(c),
{
    let n: u32 = c as u32;
    if 48 <= n && n <= 57 {
        (n - 48) as u64
    } else if 65 <= n && n <= 90 {
        (n - 55) as u64
    } else if 97 <= n && n <= 122 {
        (n - 87) as u64
    } else {
        1000
    }
}

/// The number that the characters of `v` from `from` on are to base `radix`.
pub fn parse_from(v: &Vec<char>, from: usize, radix: u64) -> (n: Option<u64>)
    requires
        from <= v@.len(),
        2 <= radix <= 36,
    ensures
        n == parsed(v@.skip(from as int), radix as int),
{
    let ghost s = v@.skip(from as int);
    let start: usize = if from < v.len() && v[from] == '+' {
        from + 1
    } else {
        from
    };
    let ghost d = unsigned(s);
    assert(d =~= v@.skip(start as int));
    if start == v.len() {
        return None;
    }
    let mut i: usize = start;
    let mut value: u64 = 0;
    let mut fits = true;
    assert(d.subrange(0, 0) =~= Seq::<char>::empty());
    while i < v.len()
        invariant
            start <= i <= v@.len(),
            d == v@.skip(start as int),
            d == unsigned(v@.skip(from as int)),
            2 <= radix <= 36,
            forall|k: int| 0 <= k < i - start ==> digit_value(#[trigger] d[k]) < radix,
            fits ==> value == digits_value(d.subrange(0, i - start), radix as int),
            !fits ==> digits_value(d.subrange(0, i - start), radix as int) > u64::MAX,
        decreases v@.len() - i,
    {
        let c: u64 = value_of(v[i]);
        assert(d[i - start] == v@[i as int]);
        if c >= radix {
            return None;
        }
        let ghost done = d.subrange(0, i - start);
        let ghost more = d.subrange(0, i + 1 - start);
        assert(more.drop_last() =~= done);
        assert(more.last() == v@[i as int]);
        let ghost worth = digits_value(done, radix as int);
        if fits {
            assert(value * radix <= 0xffff_ffff_ffff_ffff * 36) by (nonlinear_arith)
                requires
                    0 <= value <= 0xffff_ffff_ffff_ffff,
                    0 <= radix <= 36,
            ;
            let next: u128 = value as u128 * radix as u128 + c as u128;
            if next <= u64::MAX as u128 {
                value = next as u64;
            } else {
                fits = false;
            }
        } else {
            assert(worth * radix >= worth) by (nonlinear_arith)
                requires
                    worth >= 0,
                    radix >= 2,
            ;
        }
        i = i + 1;
    }
    assert(d.subrange(0, d.len() as int) =~= d);
    if fits {
        Some(value)
    } else {
        None
    }
}

/// The hexadecimal digit `d`, for `d < 16`.
pub open spec fn hex_digit(d: int) -> char {
    if d < 10 {
        (d + 48) as char
    } else {
        (d + 55) as char
    }
}

/// The hexadecimal numeral of `n`, with zeros in front up to `width` digits.
pub open spec fn hex(n: nat, width: nat) -> Seq<char>
    decreases n, width,
{
    if n < 16 && width <= 1 {
        seq![hex_digit(n as int)]
    } else {
        hex(n / 16, if width == 0 { 0 } else { (width - 1) as nat }).push(
            hex_digit((n % 16) as int),
        )
    }
}

/// Appends the hexadecimal numeral of `n`, with zeros in front up to `width`
/// digits.
pub fn push_hex(out: &mut String, n: u64, width: usize)
    ensures
        final(out)@ == old(out)@ + hex(n as nat, width as nat),
    decreases n, width,
{
    if n >= 16 || width > 1 {
        push_hex(out, n / 16, if width == 0 { 0 } else { width - 1 });
    }
    let d: u8 = (n % 16) as u8;
    let code: u8 = if d < 10 {
        d + 48
    } else {
        d + 55
    };
    out.push(code as char);
}

/// A decimal numeral says how many tens there are, and behind them the units.
pub proof fn law_decimal_numeral(tens: nat, units: nat)
    requires
        units < 10,
    ensures
        dec(units) == seq![(48 + units) as char],
        tens > 0 ==> dec(10 * tens + units) == dec(tens).push((48 + units) as char),
{
    let n = 10 * tens + units;
    assert(n / 10 == tens && n % 10 == units);
}

/// A hexadecimal numeral says how many sixteens there are, and behind them the
/// units, as a digit or a capital letter. It has at least as many digits as are
/// asked for, with zeros in front.
pub proof fn law_hexadecimal_numeral(sixteens: nat, units: nat, width: nat)
    requires
        units < 16,
    ensures
        ({
            let digit = if units < 10 {
                (48 + units) as char
            } else {
                (65 + units - 10) as char
            };
            &&& hex(units, 1) == seq![digit]
            &&& hex(16 * sixteens + units, width + 1) == (if sixteens == 0 && width == 0 {
                seq![digit]
            } else {
                hex(sixteens, width).push(digit)
            })
        }),
{
    let n = 16 * sixteens + units;
    assert(n / 16 == sixteens && n % 16 == units);
}

/// A hexadecimal numeral has at least as many digits as are asked for, and no more
/// where these are enough.
pub proof fn law_hexadecimal_width(n: nat, width: nat)
    ensures
        hex(n, width).len() >= width,
        hex(n, width).len() >= 1,
        n < 16 && width <= 2 ==> hex(n, width).len() == (if width == 2 {
            2int
        } else {
            1
        }),
        n < 256 && width == 2 ==> hex(n, width).len() == 2,
    decreases n, width,
{
    if n < 16 && width <= 1 {
    } else {
        law_hexadecimal_width(n / 16, if width == 0 { 0 } else { (width - 1) as nat });
    }
}

/// What a character is worth as a digit to base ten or sixteen, if it is one.
pub open spec fn worth(c: char, radix: int) -> Option<int> {
    if '0' <= c <= '9' {
        Some(c as int - '0' as int)
    } else if radix == 16 && 'a' <= c <= 'f' {
        Some(c as int - 'a' as int + 10)
    } else if radix == 16 && 'A' <= c <= 'F' {
        Some(c as int - 'A' as int + 10)
    } else {
        None
    }
}

/// A numeral to base ten or sixteen is read digit by digit: a further digit adds
/// what it is worth to what was read before, times the base. Anything else than
/// digits is no number, and neither is nothing, nor what is out of range. A plus
/// sign in front does not matter.
pub proof fn law_numerals_are_read(s: Seq<char>, c: char, radix: int)
    requires
        radix == 10 || radix == 16,
        s.len() > 0 ==> s[0] != '+',
    ensures
        parsed(Seq::empty(), radix) is None,
        s.len() == 0 && c != '+' ==> parsed(s.push(c), radix) == (match worth(c, radix) {
            Some(d) => Some(d as u64),
            None => None,
        }),
        s.len() > 0 ==> parsed(s.push(c), radix) == (match (parsed(s, radix), worth(c, radix)) {
            (Some(n), Some(d)) => if n * radix + d <= u64::MAX {
                Some((n * radix + d) as u64)
            } else {
                None
            },
            _ => None,
        }),
        s.len() > 0 ==> parsed(seq!['+'] + s, radix) == parsed(s, radix),
{
    let t = s.push(c);
    assert(t.drop_last() =~= s);
    assert((seq!['+'] + s).skip(1) =~= s);
    assert(digit_value(c) < radix <==> worth(c, radix) is Some);
    if s.len() == 0 {
        assert(t.drop_last() =~= Seq::<char>::empty());
        assert(t[0] == c);
        assert(digits_value(t, radix) == digits_value(t.drop_last(), radix) * radix + digit_value(
            c,
        ));
        assert(digits_value(t.drop_last(), radix) == 0);
    } else {
        assert(t[0] == s[0]);
        let n = digits_value(s, radix);
        assert(all_digits(t, radix) <==> all_digits(s, radix) && digit_value(c) < radix) by {
            if all_digits(t, radix) {
                assert(digit_value(t[s.len() as int]) < radix);
                assert forall|i: int| 0 <= i < s.len() implies digit_value(#[trigger] s[i]) < radix by {
                    assert(t[i] == s[i]);
                }
            }
            if all_digits(s, radix) && digit_value(c) < radix {
                assert forall|i: int| 0 <= i < t.len() implies digit_value(#[trigger] t[i]) < radix by {
                    if i < s.len() {
                        assert(t[i] == s[i]);
                    }
                }
            }
        }
        if all_digits(s, radix) {
            lemma_digits_not_negative(s, radix);
            assert(n * radix >= n) by (nonlinear_arith)
                requires
                    n >= 0,
                    radix >= 1,
            ;
        }
    }
}

proof fn lemma_digits_not_negative(s: Seq<char>, radix: int)
    requires
        radix > 0,
    ensures
        digits_value(s, radix) >= 0,
    decreases s.len(),
{
    if s.len() > 0 {
        lemma_digits_not_negative(s.drop_last(), radix);
        let n = digits_value(s.drop_last(), radix);
        assert(n * radix >= 0) by (nonlinear_arith)
            requires
                n >= 0,
                radix > 0,
        ;
    }
}

/// Trimming takes white space away at both ends, all of it and nothing else.
pub proof fn law_trimming(s: Seq<char>)
    ensures
        exists|i: int, j: int|
            {
                &&& 0 <= i <= j <= s.len()
                &&& #[trigger] s.subrange(i, j) == trimmed(s)
                &&& forall|k: int| 0 <= k < i || j <= k < s.len() ==> blank(#[trigger] s[k])
            },
        trimmed(s).len() > 0 ==> !blank(trimmed(s)[0]) && !blank(trimmed(s).last()),
{
    lemma_trimmed_start(s);
    let i = choose|i: int|
        {
            &&& 0 <= i <= s.len()
            &&& #[trigger] s.skip(i) == trimmed_start(s)
            &&& forall|k: int| 0 <= k < i ==> blank(#[trigger] s[k])
            &&& i < s.len() ==> !blank(s[i])
        };
    let t = s.skip(i);
    lemma_trimmed_end(t);
    let j = choose|j: int|
        {
            &&& 0 <= j <= t.len()
            &&& #[trigger] t.take(j) == trimmed_end(t)
            &&& forall|k: int| j <= k < t.len() ==> blank(#[trigger] t[k])
            &&& j > 0 ==> !blank(t[j - 1])
        };
    assert(s.subrange(i, i + j) =~= t.take(j));
    assert forall|k: int| 0 <= k < i || i + j <= k < s.len() implies blank(#[trigger] s[k]) by {
        if k >= i + j {
            assert(t[k - i] == s[k]);
        }
    }
    if j > 0 {
        assert(t[0] == s[i]);
    }
}

proof fn lemma_trimmed_start(s: Seq<char>)
    ensures
        exists|i: int|
            {
                &&& 0 <= i <= s.len()
                &&& #[trigger] s.skip(i) == trimmed_start(s)
                &&& forall|k: int| 0 <= k < i ==> blank(#[trigger] s[k])
                &&& i < s.len() ==> !blank(s[i])
            },
    decreases s.len(),
{
    if s.len() > 0 && blank(s[0]) {
        let t = s.skip(1);
        lemma_trimmed_start(t);
        let i = choose|i: int|
            {
                &&& 0 <= i <= t.len()
                &&& #[trigger] t.skip(i) == trimmed_start(t)
                &&& forall|k: int| 0 <= k < i ==> blank(#[trigger] t[k])
                &&& i < t.len() ==> !blank(t[i])
            };
        assert(s.skip(i + 1) =~= t.skip(i));
        assert forall|k: int| 0 <= k < i + 1 implies blank(#[trigger] s[k]) by {
            if k > 0 {
                assert(t[k - 1] == s[k]);
            }
        }
    } else {
        assert(s.skip(0) =~= s);
    }
}

proof fn lemma_trimmed_end(s: Seq<char>)
    ensures
        exists|j: int|
            {
                &&& 0 <= j <= s.len()
                &&& #[trigger] s.take(j) == trimmed_end(s)
                &&& forall|k: int| j <= k < s.len() ==> blank(#[trigger] s[k])
                &&& j > 0 ==> !blank(s[j - 1])
            },
    decreases s.len(),
{
    if s.len() > 0 && blank(s.last()) {
        let t = s.drop_last();
        lemma_trimmed_end(t);
        let j = choose|j: int|
            {
                &&& 0 <= j <= t.len()
                &&& #[trigger] t.take(j) == trimmed_end(t)
                &&& forall|k: int| j <= k < t.len() ==> blank(#[trigger] t[k])
                &&& j > 0 ==> !blank(t[j - 1])
            };
        assert(s.take(j) =~= t.take(j));
        assert forall|k: int| j <= k < s.len() implies blank(#[trigger] s[k]) by {
            if k < t.len() {
                assert(t[k] == s[k]);
            }
        }
    } else {
        assert(s.take(s.len() as int) =~= s);
    }
}

/// White space are the blank, the tab, what ends a line or a page, the blanks that
/// are not broken, those of other widths and scripts, and what separates lines and
/// paragraphs; nothing else is.
pub proof fn law_white_space(c: char)
    ensures
        blank(c) <==> {
            ||| c == ' ' || c == '\t' || c == '\n' || c == '\r'
            ||| c == '\u{b}' || c == '\u{c}' || c == '\u{85}'
            ||| c == '\u{a0}' || c == '\u{202f}'
            ||| c == '\u{1680}' || c == '\u{205f}' || c == '\u{3000}'
            ||| '\u{2000}' <= c <= '\u{200a}'
            ||| c == '\u{2028}' || c == '\u{2029}'
        },
{
}

} // verus!
