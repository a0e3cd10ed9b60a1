use vstd::prelude::*;

verus! {

/// The digit for `d` in bases up to sixteen, lower case.
pub open spec fn digit_char(d: int) -> char {
    seq!['0', '1', '2', '3', '4', '5', '6', '7', '8', '9', 'a', 'b', 'c', 'd', 'e', 'f'][d]
}

/// Sixteen for hexadecimal, else ten.
pub open spec fn radix(hex: bool) -> nat {
    if hex {
        16
    } else {
        10
    }
}

/// The digits of `n` in base sixteen (`hex`) or ten, most significant first, without
/// leading zeros.
pub open spec fn num_text(n: nat, hex: bool) -> Seq<char>
    decreases n,
{
    if n < radix(hex) {
        seq![digit_char(n as int)]
    } else if hex {
        num_text(n / 16, hex).push(digit_char((n % 16) as int))
    } else {
        num_text(n / 10, hex).push(digit_char((n % 10) as int))
    }
}

/// `s` with zeros in front up to width `w`.
pub open spec fn zero_pad(s: Seq<char>, w: nat) -> Seq<char> {
    if s.len() >= w {
        s
    } else {
        Seq::new((w - s.len()) as nat, |i: int| '0') + s
    }
}

/// `s` with spaces after it up to width `w`.
pub open spec fn space_pad(s: Seq<char>, w: nat) -> Seq<char> {
    if s.len() >= w {
        s
    } else {
        s + Seq::new((w - s.len()) as nat, |i: int| ' ')
    }
}

/// A generated name: the prefix, then `n` in base sixteen (`hex`) or ten with at least seven
/// digits.
pub open spec fn label(prefix: Seq<char>, n: nat, hex: bool) -> Seq<char> {
    prefix + zero_pad(num_text(n, hex), 7)
}

/// Decimal text of an integer, with a minus sign when negative.
pub open spec fn int_text(x: int) -> Seq<char> {
    if x < 0 {
        seq!['-'] + num_text((-x) as nat, false)
    } else {
        num_text(x as nat, false)
    }
}

/// `radix` to the power `k`.
pub open spec fn power(radix: nat, k: nat) -> nat
    decreases k,
{
    if k == 0 {
        1
    } else {
        radix * power(radix, (k - 1) as nat)
    }
}

/// `n` takes at most `k` digits exactly when it is below `radix` to the `k`.
pub proof fn lemma_num_text_len(n: nat, hex: bool, k: nat)
    requires
        k >= 1,
    ensures
        num_text(n, hex).len() <= k <==> n < power(radix(hex), k),
    decreases n,
{
    let radix = radix(hex);
    let p = power(radix, (k - 1) as nat);
    assert(p >= 1) by {
        lemma_power_pos(radix, (k - 1) as nat);
    }
    assert(power(radix, k) == radix * p);
    if n >= radix {
        assert(num_text(n, hex).len() == num_text(n / radix, hex).len() + 1);
    }
    if n < radix {
        assert(radix <= radix * p) by (nonlinear_arith)
            requires
                p >= 1,
        ;
    } else {
        assert(n / radix < p <==> n < radix * p) by (nonlinear_arith)
            requires
                radix >= 2,
                p >= 1,
        ;
        if k == 1 {
            assert(n / radix >= 1) by (nonlinear_arith)
                requires
                    n >= radix,
                    radix >= 2,
            ;
            assert(p == 1);
        } else {
            lemma_num_text_len(n / radix, hex, (k - 1) as nat);
        }
    }
}

/// The two bounds that eight-character names impose on their numbers.
pub proof fn lemma_powers()
    ensures
        power(10, 7) == 10_000_000,
        power(16, 7) == 0x1000_0000,
{
    reveal_with_fuel(power, 8);
}

proof fn lemma_power_pos(radix: nat, k: nat)
    requires
        radix >= 1,
    ensures
        power(radix, k) >= 1,
    decreases k,
{
    if k > 0 {
        lemma_power_pos(radix, (k - 1) as nat);
        assert(radix * power(radix, (k - 1) as nat) >= 1) by (nonlinear_arith)
            requires
                radix >= 1,
                power(radix, (k - 1) as nat) >= 1,
        ;
    }
}

/// A control character: below U+0020, or in U+007F..=U+009F.
pub open spec fn is_control(c: char) -> bool {
    c < '\u{20}' || ('\u{7f}' <= c && c <= '\u{9f}')
}

/// A name fits the fixed columns: exactly eight characters, none of them a control character.
pub open spec fn valid_name(s: Seq<char>) -> bool {
    &&& s.len() == 8
    &&& forall|i: int| 0 <= i < s.len() ==> !is_control(#[trigger] s[i])
}

/// Whether `name` is a valid name.
pub fn check_name(name: &str) -> (r: bool)
    ensures
        r == valid_name(name@),
{
    if name.unicode_len() != 8 {
        return false;
    }
    let mut i: usize = 0;
    while i < 8
        invariant
            name@.len() == 8,
            i <= 8,
            forall|k: int| 0 <= k < i ==> !is_control(#[trigger] name@[k]),
        decreases 8 - i,
    {
        let c = name.get_char(i);
        if c < '\u{20}' || ('\u{7f}' <= c && c <= '\u{9f}') {
            return false;
        }
        i += 1;
    }
    true
}

proof fn lemma_digit_printable(d: int)
    requires
        0 <= d < 16,
    ensures
        !is_control(digit_char(d)),
{
    let t = seq!['0', '1', '2', '3', '4', '5', '6', '7', '8', '9', 'a', 'b', 'c', 'd', 'e', 'f'];
    assert(digit_char(d) == t[d]);
    assert(forall|k: int| 0 <= k < 16 ==> '0' <= #[trigger] t[k] <= 'f');
}

proof fn lemma_num_text_printable(n: nat, hex: bool)
    ensures
        forall|i: int|
            0 <= i < num_text(n, hex).len() ==> !is_control(#[trigger] num_text(n, hex)[i]),
    decreases n,
{
    if n < radix(hex) {
        lemma_digit_printable(n as int);
    } else {
        let r = radix(hex);
        lemma_num_text_printable(n / r, hex);
        lemma_digit_printable((n % r) as int);
        let rest = num_text(n / r, hex);
        assert(num_text(n, hex) == rest.push(digit_char((n % r) as int)));
        assert forall|i: int| 0 <= i < num_text(n, hex).len() implies !is_control(
            #[trigger] num_text(n, hex)[i],
        ) by {
            if i < rest.len() {
                assert(num_text(n, hex)[i] == rest[i]);
            }
        }
    }
}

/// A generated name with a printable one-character prefix is valid exactly when its number
/// is below `radix` to the seventh.
pub proof fn lemma_label_valid(prefix: Seq<char>, n: nat, hex: bool)
    requires
        prefix.len() == 1,
        !is_control(prefix[0]),
    ensures
        valid_name(label(prefix, n, hex)) <==> n < power(radix(hex), 7),
{
    lemma_label_len(prefix, n, hex);
    lemma_num_text_printable(n, hex);
    let digits = num_text(n, hex);
    let padded = zero_pad(digits, 7);
    let l = label(prefix, n, hex);
    assert forall|i: int| 0 <= i < l.len() implies !is_control(#[trigger] l[i]) by {
        if i >= 1 {
            assert(l[i] == padded[i - 1]);
            if digits.len() < 7 {
                let z = (7 - digits.len()) as int;
                if i - 1 >= z {
                    assert(padded[i - 1] == digits[i - 1 - z]);
                }
            }
        }
    }
}

/// A generated name has eight characters exactly when its number is below `radix` to the seventh.
proof fn lemma_label_len(prefix: Seq<char>, n: nat, hex: bool)
    requires
        prefix.len() == 1,
    ensures
        label(prefix, n, hex).len() == 8 <==> n < power(radix(hex), 7),
{
    lemma_num_text_len(n, hex, 7);
}

fn digit_str(d: u64) -> (r: &'static str)
    requires
        d < 16,
    ensures
        r@ == seq![digit_char(d as int)],
{
    let table = "0123456789abcdef";
    proof {
        reveal_strlit("0123456789abcdef");
        assert(table.is_ascii());
    }
    let r = table.substring_ascii(d as usize, d as usize + 1);
    assert(r@ =~= seq![digit_char(d as int)]);
    r
}

/// The digits of `n` in base sixteen (`hex`) or ten.
pub fn num_string(n: u64, hex: bool) -> (r: String)
    ensures
        r@ == num_text(n as nat, hex),
    decreases n,
{
    let radix: u64 = if hex {
        16
    } else {
        10
    };
    if n < radix {
        String::from_str(digit_str(n))
    } else {
        let mut s = num_string(n / radix, hex);
        s.append(digit_str(n % radix));
        s
    }
}

/// Appends `s` followed by spaces up to width `w`.
pub fn push_padded(out: &mut String, s: &str, w: usize)
    ensures
        final(out)@ == old(out)@ + space_pad(s@, w as nat),
{
    out.append(s);
    let mut k = s.unicode_len();
    let ghost base = out@;
    while k < w
        invariant
            s@.len() <= k <= w || (k == s@.len() && k >= w),
            out@ == base + Seq::new((k - s@.len()) as nat, |i: int| ' '),
        decreases w - k,
    {
        out.append(" ");
        proof {
            reveal_strlit(" ");
        }
        assert(base + Seq::new((k + 1 - s@.len()) as nat, |i: int| ' ') =~= base + Seq::new(
            (k - s@.len()) as nat,
            |i: int| ' ',
        ) + seq![' ']);
        k += 1;
    }
    assert(old(out)@ + space_pad(s@, w as nat) =~= base + Seq::new(
        (k - s@.len()) as nat,
        |i: int| ' ',
    ));
}

/// The name `prefix` followed by `n` in base sixteen (`hex`) or ten, zero-padded to seven
/// digits.
pub fn make_label(prefix: &str, n: u64, hex: bool) -> (r: String)
    ensures
        r@ == label(prefix@, n as nat, hex),
{
    let digits = num_string(n, hex);
    let mut r = String::from_str(prefix);
    let mut k = digits.as_str().unicode_len();
    while k < 7
        invariant
            digits@ == num_text(n as nat, hex),
            digits@.len() <= k <= 7 || (k == digits@.len() && k >= 7),
            r@ == prefix@ + Seq::new((k - digits@.len()) as nat, |i: int| '0'),
        decreases 7 - k,
    {
        r.append("0");
        proof {
            reveal_strlit("0");
        }
        assert(prefix@ + Seq::new((k + 1 - digits@.len()) as nat, |i: int| '0') =~= prefix@
            + Seq::new((k - digits@.len()) as nat, |i: int| '0') + seq!['0']);
        k += 1;
    }
    r.append(digits.as_str());
    assert(r@ =~= label(prefix@, n as nat, hex));
    r
}

/// Decimal text of `x`.
pub fn int_string(x: i64) -> (r: String)
    ensures
        r@ == int_text(x as int),
{
    if x < 0 {
        let m = (-(x as i128)) as u64;
        let mut r = String::from_str("-");
        proof {
            reveal_strlit("-");
        }
        let d = num_string(m, false);
        r.append(d.as_str());
        r
    } else {
        num_string(x as u64, false)
    }
}

} // verus!
