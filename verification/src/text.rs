//! Text building blocks: numbers in decimal and hexadecimal, alignment,
//! joining, and comparison of strings character by character.
//!
//! A string stands for its sequence of characters. Every function here says
//! which sequence it returns; the dissectors build their output from these
//! pieces alone.

use vstd::prelude::*;

verus! {

/// `String::push` appends the given character to the end of the string. What
/// is claimed is just that: the characters afterwards are those before, then
/// `c`.
pub assume_specification[ String::push ](s: &mut String, c: char)
    ensures
        final(s)@ == old(s)@.push(c),
;

// ---- numbers ----

/// The lower-case digit for `d` in bases up to sixteen.
pub open spec fn digit(d: nat) -> char {
    if d < 10 {
        (48 + d) as char
    } else {
        (87 + d) as char
    }
}

/// `n` in decimal, without leading zeros.
pub open spec fn dec_text(n: nat) -> Seq<char>
    decreases n,
{
    if n < 10 {
        seq![digit(n)]
    } else {
        dec_text(n / 10).push(digit(n % 10))
    }
}

/// `n` in hexadecimal, without leading zeros.
pub open spec fn hex_text(n: nat) -> Seq<char>
    decreases n,
{
    if n < 16 {
        seq![digit(n)]
    } else {
        hex_text(n / 16).push(digit(n % 16))
    }
}

/// The low `width` hexadecimal digits of `n`, leading zeros kept.
pub open spec fn hex_fixed(n: nat, width: nat) -> Seq<char>
    decreases width,
{
    if width == 0 {
        Seq::empty()
    } else {
        hex_fixed(n / 16, (width - 1) as nat).push(digit(n % 16))
    }
}

fn digit_char(d: u8) -> (c: char)
    requires
        d < 16,
    ensures
        c == digit(d as nat),
{
    if d < 10 {
        (48 + d) as char
    } else {
        (87 + d) as char
    }
}

/// `n` in decimal.
pub fn dec(n: u64) -> (r: String)
    ensures
        r@ == dec_text(n as nat),
{
    dec_wide(n as u128)
}

/// A wide `n` in decimal.
pub fn dec_wide(n: u128) -> (r: String)
    ensures
        r@ == dec_text(n as nat),
    decreases n,
{
    if n < 10 {
        let mut s = String::new();
        s.push(digit_char(n as u8));
        s
    } else {
        let mut s = dec_wide(n / 10);
        s.push(digit_char((n % 10) as u8));
        s
    }
}

/// `n` in hexadecimal.
pub fn hex(n: u64) -> (r: String)
    ensures
        r@ == hex_text(n as nat),
    decreases n,
{
    if n < 16 {
        let mut s = String::new();
        s.push(digit_char(n as u8));
        s
    } else {
        let mut s = hex(n / 16);
        s.push(digit_char((n % 16) as u8));
        s
    }
}

/// The low `width` hexadecimal digits of `n`.
pub fn hexw(n: u64, width: u8) -> (r: String)
    ensures
        r@ == hex_fixed(n as nat, width as nat),
    decreases width,
{
    if width == 0 {
        String::new()
    } else {
        let mut s = hexw(n / 16, width - 1);
        s.push(digit_char((n % 16) as u8));
        s
    }
}

// ---- concatenation ----

/// `a` then `b`.
pub fn cat2(a: &str, b: &str) -> (r: String)
    ensures
        r@ == a@ + b@,
{
    let mut s = String::from_str(a);
    s.append(b);
    s
}

/// `a`, `b`, then `c`.
pub fn cat3(a: &str, b: &str, c: &str) -> (r: String)
    ensures
        r@ == a@ + b@ + c@,
{
    let mut s = cat2(a, b);
    s.append(c);
    s
}

/// `a`, `b`, `c`, then `d`.
pub fn cat4(a: &str, b: &str, c: &str, d: &str) -> (r: String)
    ensures
        r@ == a@ + b@ + c@ + d@,
{
    let mut s = cat3(a, b, c);
    s.append(d);
    s
}

/// `a`, `b`, `c`, `d`, then `e`.
pub fn cat5(a: &str, b: &str, c: &str, d: &str, e: &str) -> (r: String)
    ensures
        r@ == a@ + b@ + c@ + d@ + e@,
{
    let mut s = cat4(a, b, c, d);
    s.append(e);
    s
}

/// `a` to `f` in order.
pub fn cat6(a: &str, b: &str, c: &str, d: &str, e: &str, f: &str) -> (r: String)
    ensures
        r@ == a@ + b@ + c@ + d@ + e@ + f@,
{
    let mut s = cat5(a, b, c, d, e);
    s.append(f);
    s
}

/// The characters of a list of strings.
pub open spec fn strings(v: Seq<String>) -> Seq<Seq<char>> {
    Seq::new(v.len(), |i: int| v[i]@)
}

/// `parts` one after the other, with `sep` between neighbours.
pub open spec fn joined(parts: Seq<Seq<char>>, sep: Seq<char>) -> Seq<char>
    decreases parts.len(),
{
    if parts.len() == 0 {
        Seq::empty()
    } else if parts.len() == 1 {
        parts[0]
    } else {
        joined(parts.drop_last(), sep) + sep + parts.last()
    }
}

/// Joining one part more.
pub proof fn lemma_joined_push(parts: Seq<Seq<char>>, part: Seq<char>, sep: Seq<char>)
    ensures
        joined(parts.push(part), sep) == if parts.len() == 0 {
            part
        } else {
            joined(parts, sep) + sep + part
        },
{
    assert(parts.push(part).drop_last() =~= parts);
}

/// The strings of `parts` with `sep` between neighbours.
pub fn join(parts: &Vec<String>, sep: &str) -> (r: String)
    ensures
        r@ == joined(strings(parts@), sep@),
{
    let mut out = String::new();
    let ghost all = strings(parts@);
    for i in 0..parts.len()
        invariant
            all == strings(parts@),
            out@ == joined(all.take(i as int), sep@),
    {
        proof {
            assert(all.take(i + 1) =~= all.take(i as int).push(all[i as int]));
            lemma_joined_push(all.take(i as int), all[i as int], sep@);
        }
        if i == 0 {
            assert(joined(all.take(0), sep@) =~= Seq::<char>::empty());
            out = parts[i].clone();
        } else {
            out.append(sep);
            out.append(parts[i].as_str());
        }
    }
    assert(all.take(parts@.len() as int) =~= all);
    out
}

/// A list with `name` in it if `on`, else an empty one.
pub open spec fn name_if(on: bool, name: Seq<char>) -> Seq<Seq<char>> {
    if on {
        seq![name]
    } else {
        seq![]
    }
}

/// Appends `name` to the list if `on`.
pub fn push_if(names: &mut Vec<String>, on: bool, name: &str)
    ensures
        strings(final(names)@) == strings(old(names)@) + name_if(on, name@),
{
    if on {
        names.push(String::from_str(name));
    }
    assert(strings(names@) =~= strings(old(names)@) + name_if(on, name@));
}

// ---- alignment ----

/// `n` spaces, none for a negative `n`.
pub open spec fn spaces(n: int) -> Seq<char> {
    Seq::new(if n < 0 { 0 } else { n as nat }, |i: int| ' ')
}

/// `s` with spaces before it up to `width` characters.
pub open spec fn flush_right(s: Seq<char>, width: int) -> Seq<char> {
    spaces(width - s.len()) + s
}

/// `s` with spaces after it up to `width` characters.
pub open spec fn flush_left(s: Seq<char>, width: int) -> Seq<char> {
    s + spaces(width - s.len())
}

/// The number of characters of a string.
pub fn char_count(s: &str) -> (n: usize)
    ensures
        n == s@.len(),
{
    s.unicode_len()
}

/// `n` spaces.
pub fn blank(n: usize) -> (r: String)
    ensures
        r@ == spaces(n as int),
{
    let mut out = String::new();
    for i in 0..n
        invariant
            out@ =~= spaces(i as int),
    {
        out.push(' ');
    }
    out
}

/// `s` right-aligned in `width` characters.
pub fn align_right(s: &str, width: usize) -> (r: String)
    ensures
        r@ == flush_right(s@, width as int),
{
    let n = char_count(s);
    let pad: usize = if n < width { width - n } else { 0 };
    let mut out = blank(pad);
    assert(out@ =~= spaces(width - s@.len()));
    out.append(s);
    out
}

/// `s` left-aligned in `width` characters.
pub fn align_left(s: &str, width: usize) -> (r: String)
    ensures
        r@ == flush_left(s@, width as int),
{
    let n = char_count(s);
    let pad: usize = if n < width { width - n } else { 0 };
    let tail = blank(pad);
    assert(tail@ =~= spaces(width - s@.len()));
    cat2(s, tail.as_str())
}

// ---- characters ----

/// The characters of a string.
pub fn chars_of(s: &str) -> (v: Vec<char>)
    ensures
        v@ == s@,
{
    let mut v: Vec<char> = Vec::new();
    for c in it: s.chars()
        invariant
            it.seq() == s@,
            v@ == s@.take(it.index() as int),
    {
        v.push(c);
    }
    v
}

/// The string of some characters.
pub fn string_of(v: &[char]) -> (s: String)
    ensures
        s@ == v@,
{
    let mut s = String::new();
    for i in 0..v.len()
        invariant
            s@ == v@.take(i as int),
    {
        s.push(v[i]);
        assert(s@ =~= v@.take(i + 1));
    }
    assert(v@.take(v@.len() as int) =~= v@);
    s
}

/// How one string stands to another in the order of their characters.
#[derive(Debug, Clone, Copy, PartialEq, Eq, Structural)]
pub enum Order {
    Less,
    Equal,
    Greater,
}

/// The order of two strings: by the first character in which they differ,
/// and where one is a prefix of the other the shorter comes first.
pub open spec fn text_order(a: Seq<char>, b: Seq<char>) -> Order
    decreases a.len(),
{
    if a.len() == 0 {
        if b.len() == 0 {
            Order::Equal
        } else {
            Order::Less
        }
    } else if b.len() == 0 {
        Order::Greater
    } else if (a[0] as int) < (b[0] as int) {
        Order::Less
    } else if (a[0] as int) > (b[0] as int) {
        Order::Greater
    } else {
        text_order(a.drop_first(), b.drop_first())
    }
}

/// The order of two strings.
pub fn order(a: &str, b: &str) -> (r: Order)
    ensures
        r == text_order(a@, b@),
{
    let av = chars_of(a);
    let bv = chars_of(b);
    let mut i: usize = 0;
    assert(a@.skip(0) =~= a@);
    assert(b@.skip(0) =~= b@);
    while i < av.len() && i < bv.len()
        invariant
            av@ == a@,
            bv@ == b@,
            i <= av@.len(),
            i <= bv@.len(),
            text_order(a@, b@) == text_order(a@.skip(i as int), b@.skip(i as int)),
        decreases av@.len() - i,
    {
        let x = av[i];
        let y = bv[i];
        assert(a@.skip(i as int).drop_first() =~= a@.skip(i + 1));
        assert(b@.skip(i as int).drop_first() =~= b@.skip(i + 1));
        if x < y {
            return Order::Less;
        }
        if x > y {
            return Order::Greater;
        }
        i += 1;
    }
    if i < bv.len() {
        Order::Less
    } else if i < av.len() {
        Order::Greater
    } else {
        Order::Equal
    }
}

/// Whether two strings have the same characters.
pub fn same(a: &str, b: &str) -> (r: bool)
    ensures
        r == (a@ == b@),
{
    let av = chars_of(a);
    let bv = chars_of(b);
    if av.len() != bv.len() {
        return false;
    }
    for i in 0..av.len()
        invariant
            av@ == a@,
            bv@ == b@,
            av@.len() == bv@.len(),
            a@.take(i as int) == b@.take(i as int),
    {
        if av[i] != bv[i] {
            assert(a@[i as int] != b@[i as int]);
            return false;
        }
        assert(a@.take(i + 1) =~= a@.take(i as int).push(a@[i as int]));
        assert(b@.take(i + 1) =~= b@.take(i as int).push(b@[i as int]));
    }
    assert(a@.take(a@.len() as int) =~= a@);
    assert(b@.take(b@.len() as int) =~= b@);
    true
}

/// Two strings compare equal exactly when they have the same characters.
pub proof fn lemma_order_equal(a: Seq<char>, b: Seq<char>)
    ensures
        text_order(a, b) == Order::Equal <==> a == b,
    decreases a.len(),
{
    if a.len() > 0 && b.len() > 0 {
        lemma_order_equal(a.drop_first(), b.drop_first());
        assert(a =~= seq![a[0]] + a.drop_first());
        assert(b =~= seq![b[0]] + b.drop_first());
    } else if a.len() == 0 && b.len() == 0 {
        assert(a =~= b);
    }
}

/// Swapping the strings swaps the order.
pub proof fn lemma_order_swap(a: Seq<char>, b: Seq<char>)
    ensures
        text_order(a, b) == Order::Less <==> text_order(b, a) == Order::Greater,
        text_order(a, b) == Order::Greater <==> text_order(b, a) == Order::Less,
    decreases a.len(),
{
    if a.len() > 0 && b.len() > 0 {
        lemma_order_swap(a.drop_first(), b.drop_first());
    }
}

/// The order is transitive.
pub proof fn lemma_order_transitive(a: Seq<char>, b: Seq<char>, c: Seq<char>)
    requires
        text_order(a, b) == Order::Less,
        text_order(b, c) == Order::Less,
    ensures
        text_order(a, c) == Order::Less,
    decreases a.len(),
{
    if a.len() > 0 && b.len() > 0 && c.len() > 0 {
        if a[0] == b[0] && b[0] == c[0] {
            lemma_order_transitive(a.drop_first(), b.drop_first(), c.drop_first());
        }
    }
}

// ---- laws ----

/// Whether one text comes before another: they agree up to some place, and
/// there the first ends or has the smaller character.
pub open spec fn precedes(a: Seq<char>, b: Seq<char>) -> bool {
    exists|k: int|
        #![trigger a.take(k)]
        0 <= k <= a.len() && k < b.len() && a.take(k) == b.take(k) && (k == a.len() || (a[k] as int)
            < (b[k] as int))
}

/// The order of texts is the lexicographic one.
pub proof fn law_order_is_lexicographic(a: Seq<char>, b: Seq<char>)
    ensures
        text_order(a, b) == Order::Less <==> precedes(a, b),
        text_order(a, b) == Order::Greater <==> precedes(b, a),
        text_order(a, b) == Order::Equal <==> a == b,
{
    lemma_precedes(a, b);
    lemma_precedes(b, a);
    lemma_order_swap(a, b);
    lemma_order_equal(a, b);
}

proof fn lemma_precedes(a: Seq<char>, b: Seq<char>)
    ensures
        text_order(a, b) == Order::Less <==> precedes(a, b),
    decreases a.len(),
{
    if a.len() == 0 || b.len() == 0 {
        if a.len() == 0 && b.len() > 0 {
            assert(a.take(0) =~= b.take(0));
        }
    } else {
        let x = a.drop_first();
        let y = b.drop_first();
        lemma_precedes(x, y);
        if a[0] == b[0] {
            if precedes(x, y) {
                let k = choose|k: int|
                    #![trigger x.take(k)]
                    0 <= k <= x.len() && k < y.len() && x.take(k) == y.take(k) && (k == x.len()
                        || (x[k] as int) < (y[k] as int));
                assert forall|i: int| 0 <= i < k + 1 implies a[i] == b[i] by {
                    if i > 0 {
                        assert(x.take(k)[i - 1] == y.take(k)[i - 1]);
                    }
                }
                assert(a.take(k + 1) =~= b.take(k + 1));
            }
            if precedes(a, b) {
                let k = choose|k: int|
                    #![trigger a.take(k)]
                    0 <= k <= a.len() && k < b.len() && a.take(k) == b.take(k) && (k == a.len()
                        || (a[k] as int) < (b[k] as int));
                assert(k > 0);
                assert forall|i: int| 0 <= i < k - 1 implies x[i] == y[i] by {
                    assert(a.take(k)[i + 1] == b.take(k)[i + 1]);
                }
                assert(x.take(k - 1) =~= y.take(k - 1));
            }
        } else {
            if (a[0] as int) < (b[0] as int) {
                assert(a.take(0) =~= b.take(0));
            }
            if precedes(a, b) {
                let k = choose|k: int|
                    #![trigger a.take(k)]
                    0 <= k <= a.len() && k < b.len() && a.take(k) == b.take(k) && (k == a.len()
                        || (a[k] as int) < (b[k] as int));
                if k > 0 {
                    assert(a.take(k)[0] == b.take(k)[0]);
                }
            }
        }
    }
}

/// The digits are `0` to `9`, then `a` to `f`.
pub proof fn law_digits_are_lower_case(d: nat)
    requires
        d < 16,
    ensures
        d < 10 ==> digit(d) as int == '0' as int + d,
        d >= 10 ==> digit(d) as int == 'a' as int + (d - 10),
{
}

/// Aligned to the right, a text ends its column: it has spaces alone before
/// it, and as many as fill the width.
pub proof fn law_right_aligned_ends_the_column(s: Seq<char>, width: int)
    ensures
        ({
            let r = flush_right(s, width);
            &&& s.len() <= width ==> r.len() == width
            &&& s.len() >= width ==> r == s
            &&& r.skip(r.len() - s.len()) == s
            &&& forall|i: int| 0 <= i < r.len() - s.len() ==> #[trigger] r[i] == ' '
        }),
{
    let r = flush_right(s, width);
    assert(r.skip(r.len() - s.len()) =~= s);
    if s.len() >= width {
        assert(r =~= s);
    }
}

/// Aligned to the left, a text starts its column: it has spaces alone behind
/// it, and as many as fill the width.
pub proof fn law_left_aligned_starts_the_column(s: Seq<char>, width: int)
    ensures
        ({
            let r = flush_left(s, width);
            &&& s.len() <= width ==> r.len() == width
            &&& s.len() >= width ==> r == s
            &&& r.take(s.len() as int) == s
            &&& forall|i: int| s.len() <= i < r.len() ==> #[trigger] r[i] == ' '
        }),
{
    let r = flush_left(s, width);
    assert(r.take(s.len() as int) =~= s);
    if s.len() >= width {
        assert(r =~= s);
    }
}

/// Joining puts the separator between any two lists of parts and nowhere else.
pub proof fn law_joining_separates(
    a: Seq<Seq<char>>,
    b: Seq<Seq<char>>,
    part: Seq<char>,
    sep: Seq<char>,
)
    requires
        a.len() > 0,
        b.len() > 0,
    ensures
        joined(Seq::empty(), sep) == Seq::<char>::empty(),
        joined(seq![part], sep) == part,
        joined(a + b, sep) == joined(a, sep) + sep + joined(b, sep),
    decreases b.len(),
{
    if b.len() == 1 {
        assert((a + b).drop_last() =~= a);
        assert((a + b).last() == b[0]);
    } else {
        law_joining_separates(a, b.drop_last(), part, sep);
        assert((a + b).drop_last() =~= a + b.drop_last());
        assert(joined(a + b, sep) =~= joined(a, sep) + sep + joined(b, sep));
    }
}

/// A number has no leading zeros: it starts with one only if it is 0, and
/// there is always a digit. What comes before the last digit is the number
/// without it.
pub proof fn law_no_leading_zeros(n: nat)
    ensures
        dec_text(0) == seq!['0'],
        n > 0 ==> dec_text(n)[0] != '0',
        n >= 10 ==> dec_text(n).drop_last() == dec_text(n / 10),
        hex_text(0) == seq!['0'],
        n > 0 ==> hex_text(n)[0] != '0',
        n >= 16 ==> hex_text(n).drop_last() == hex_text(n / 16),
    decreases n,
{
    if n >= 10 {
        law_no_leading_zeros(n / 10);
        assert(dec_text(n).drop_last() =~= dec_text(n / 10));
    }
    if n >= 16 {
        law_no_leading_zeros(n / 16);
        assert(hex_text(n).drop_last() =~= hex_text(n / 16));
    }
}

} // verus!
