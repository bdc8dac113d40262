//! Hardware and network addresses as text.

use vstd::prelude::*;

use crate::bytes::get_be16;
#[allow(unused_imports)]
use crate::bytes::be16;
use crate::text::{cat2, cat3, dec, hex, hexw, join};
#[allow(unused_imports)]
use crate::text::{dec_text, hex_fixed, hex_text, joined, strings};

verus! {

/// Six bytes of `s` at `i` as a hardware address: two hexadecimal digits per
/// byte, with colons between.
pub open spec fn mac_text(s: Seq<u8>, i: int) -> Seq<char> {
    joined(Seq::new(6, |k: int| hex_fixed(s[i + k] as nat, 2)), ":"@)
}

/// Four bytes of `s` at `i` as an IPv4 address: decimal, with dots between.
pub open spec fn ipv4_text(s: Seq<u8>, i: int) -> Seq<char> {
    joined(Seq::new(4, |k: int| dec_text(s[i + k] as nat)), "."@)
}

/// The eight 16-bit groups of an IPv6 address in 16 bytes of `s` at `i`.
pub open spec fn groups(s: Seq<u8>, i: int) -> Seq<nat> {
    Seq::new(8, |k: int| be16(s, i + 2 * k))
}

/// How many zero groups follow one another from group `k` on.
pub open spec fn zeros_from(g: Seq<nat>, k: int) -> nat
    decreases g.len() - k,
{
    if 0 <= k < g.len() && g[k] == 0 {
        1 + zeros_from(g, k + 1)
    } else {
        0
    }
}

/// Among the first `n` groups, where the longest run of zero groups starts;
/// of equally long runs, the first.
pub open spec fn longest_zeros(g: Seq<nat>, n: nat) -> int
    decreases n,
{
    if n <= 1 {
        0
    } else {
        let before = longest_zeros(g, (n - 1) as nat);
        if zeros_from(g, n - 1) > zeros_from(g, before) {
            n - 1
        } else {
            before
        }
    }
}

/// Some groups in hexadecimal, with colons between.
pub open spec fn groups_text(g: Seq<nat>) -> Seq<char> {
    joined(Seq::new(g.len(), |k: int| hex_text(g[k])), ":"@)
}

/// Whether the groups are those of an IPv4-mapped address.
pub open spec fn is_mapped(g: Seq<nat>) -> bool {
    &&& forall|k: int| 0 <= k < 5 ==> g[k] == 0
    &&& g[5] == 0xffff
}

/// 16 bytes of `s` at `i` as an IPv6 address: an IPv4-mapped address with its
/// IPv4 part in IPv4 form; else the groups in hexadecimal, with the first
/// longest run of at least two zero groups written as `::`.
pub open spec fn ipv6_text(s: Seq<u8>, i: int) -> Seq<char> {
    let g = groups(s, i);
    let start = longest_zeros(g, 8);
    let len = zeros_from(g, start);
    if is_mapped(g) {
        "::ffff:"@ + ipv4_text(s, i + 12)
    } else if len > 1 {
        groups_text(g.take(start)) + "::"@ + groups_text(g.skip(start + len))
    } else {
        groups_text(g)
    }
}

/// The hardware address in the six bytes at `i`.
pub fn fmt_mac(s: &[u8], i: usize) -> (r: String)
    requires
        i + 6 <= s.len(),
    ensures
        r@ == mac_text(s@, i as int),
{
    let mut parts: Vec<String> = Vec::new();
    for k in 0..6usize
        invariant
            i + 6 <= s.len(),
            parts@.len() == k,
            forall|j: int|
                0 <= j < k ==> (#[trigger] parts@[j])@ == hex_fixed(s@[i + j] as nat, 2),
    {
        parts.push(hexw(s[i + k] as u64, 2));
    }
    assert(strings(parts@) =~= Seq::new(6, |k: int| hex_fixed(s@[i + k] as nat, 2)));
    join(&parts, ":")
}

/// The IPv4 address in the four bytes at `i`.
pub fn fmt_ipv4(s: &[u8], i: usize) -> (r: String)
    requires
        i + 4 <= s.len(),
    ensures
        r@ == ipv4_text(s@, i as int),
{
    let mut parts: Vec<String> = Vec::new();
    for k in 0..4usize
        invariant
            i + 4 <= s.len(),
            parts@.len() == k,
            forall|j: int| 0 <= j < k ==> (#[trigger] parts@[j])@ == dec_text(s@[i + j] as nat),
    {
        parts.push(dec(s[i + k] as u64));
    }
    assert(strings(parts@) =~= Seq::new(4, |k: int| dec_text(s@[i + k] as nat)));
    join(&parts, ".")
}

fn zero_run(s: &[u8], i: usize, k: usize) -> (n: usize)
    requires
        i + 16 <= s.len(),
        k <= 8,
    ensures
        n == zeros_from(groups(s@, i as int), k as int),
        k + n <= 8,
    decreases 8 - k,
{
    if k < 8 && get_be16(s, i + 2 * k) == 0 {
        1 + zero_run(s, i, k + 1)
    } else {
        0
    }
}

fn fmt_groups(s: &[u8], i: usize, from: usize, to: usize) -> (r: String)
    requires
        i + 16 <= s.len(),
        from <= to <= 8,
    ensures
        r@ == groups_text(groups(s@, i as int).subrange(from as int, to as int)),
{
    let ghost g = groups(s@, i as int).subrange(from as int, to as int);
    let mut parts: Vec<String> = Vec::new();
    for k in from..to
        invariant
            i + 16 <= s.len(),
            from <= to <= 8,
            g == groups(s@, i as int).subrange(from as int, to as int),
            parts@.len() == k - from,
            forall|j: int| 0 <= j < k - from ==> (#[trigger] parts@[j])@ == hex_text(g[j]),
    {
        parts.push(hex(get_be16(s, i + 2 * k) as u64));
    }
    assert(strings(parts@) =~= Seq::new(g.len(), |k: int| hex_text(g[k])));
    join(&parts, ":")
}

/// The IPv6 address in the 16 bytes at `i`.
pub fn fmt_ipv6(s: &[u8], i: usize) -> (r: String)
    requires
        i + 16 <= s.len(),
    ensures
        r@ == ipv6_text(s@, i as int),
{
    let ghost g = groups(s@, i as int);
    let mut zero_prefix = true;
    for k in 0..5usize
        invariant
            i + 16 <= s.len(),
            g == groups(s@, i as int),
            zero_prefix == forall|j: int| 0 <= j < k ==> g[j] == 0,
    {
        if get_be16(s, i + 2 * k) != 0 {
            assert(g[k as int] != 0);
            zero_prefix = false;
        }
    }
    if zero_prefix && get_be16(s, i + 10) == 0xffff {
        assert(g[5] == 0xffff);
        return cat2("::ffff:", &fmt_ipv4(s, i + 12));
    }
    let mut start: usize = 0;
    let mut len = zero_run(s, i, 0);
    for k in 1..8usize
        invariant
            i + 16 <= s.len(),
            g == groups(s@, i as int),
            start < 8,
            start == longest_zeros(g, k as nat),
            len == zeros_from(g, start as int),
            start + len <= 8,
    {
        let run = zero_run(s, i, k);
        if run > len {
            start = k;
            len = run;
        }
    }
    if len > 1 {
        proof {
            assert(g.subrange(0, start as int) =~= g.take(start as int));
            assert(g.subrange(start + len, 8) =~= g.skip(start + len));
        }
        cat3(&fmt_groups(s, i, 0, start), "::", &fmt_groups(s, i, start + len, 8))
    } else {
        assert(g.subrange(0, 8) =~= g);
        fmt_groups(s, i, 0, 8)
    }
}

// ---- laws ----

/// No run of zero groups is longer than the one that is shortened, and none
/// before it is as long.
pub proof fn law_first_longest_run_is_shortened(g: Seq<nat>, n: nat)
    requires
        n >= 1,
    ensures
        0 <= longest_zeros(g, n) < n,
        forall|k: int|
            0 <= k < n ==> #[trigger] zeros_from(g, k) <= zeros_from(g, longest_zeros(g, n)),
        forall|k: int|
            0 <= k < longest_zeros(g, n) ==> #[trigger] zeros_from(g, k) < zeros_from(
                g,
                longest_zeros(g, n),
            ),
    decreases n,
{
    if n > 1 {
        law_first_longest_run_is_shortened(g, (n - 1) as nat);
    }
}

/// A hardware address is its six bytes in order, two hexadecimal digits each,
/// with colons between.
pub proof fn law_hardware_address_is_six_pairs(s: Seq<u8>, i: int)
    ensures
        mac_text(s, i) == hex_fixed(s[i] as nat, 2) + ":"@ + hex_fixed(s[i + 1] as nat, 2) + ":"@
            + hex_fixed(s[i + 2] as nat, 2) + ":"@ + hex_fixed(s[i + 3] as nat, 2) + ":"@
            + hex_fixed(s[i + 4] as nat, 2) + ":"@ + hex_fixed(s[i + 5] as nat, 2),
{
    let all = Seq::new(6, |k: int| hex_fixed(s[i + k] as nat, 2));
    reveal_with_fuel(joined, 7);
    assert(all.drop_last().last() == all[4]);
    assert(all.drop_last().drop_last().last() == all[3]);
    assert(all.drop_last().drop_last().drop_last().last() == all[2]);
    assert(all.drop_last().drop_last().drop_last().drop_last().last() == all[1]);
    assert(all.drop_last().drop_last().drop_last().drop_last().drop_last()[0] == all[0]);
}

/// An IPv4 address is its four bytes in order, in decimal, with dots between.
pub proof fn law_ipv4_address_is_four_numbers(s: Seq<u8>, i: int)
    ensures
        ipv4_text(s, i) == dec_text(s[i] as nat) + "."@ + dec_text(s[i + 1] as nat) + "."@
            + dec_text(s[i + 2] as nat) + "."@ + dec_text(s[i + 3] as nat),
{
    let all = Seq::new(4, |k: int| dec_text(s[i + k] as nat));
    reveal_with_fuel(joined, 5);
    assert(all.drop_last().last() == all[2]);
    assert(all.drop_last().drop_last().last() == all[1]);
    assert(all.drop_last().drop_last().drop_last()[0] == all[0]);
}

/// Groups as text are built up one by one: the first alone, each further one
/// behind a colon.
pub proof fn law_groups_are_separated_by_colons(g: Seq<nat>, n: nat)
    ensures
        groups_text(Seq::empty()) == Seq::<char>::empty(),
        groups_text(seq![n]) == hex_text(n),
        g.len() > 0 ==> groups_text(g.push(n)) == groups_text(g) + ":"@ + hex_text(n),
{
    let none = Seq::<nat>::empty();
    assert(Seq::new(none.len(), |k: int| hex_text(none[k])) =~= Seq::empty());
    let one = seq![n];
    assert(Seq::new(one.len(), |k: int| hex_text(one[k])) =~= seq![hex_text(n)]);
    let more = g.push(n);
    let all = Seq::new(more.len(), |k: int| hex_text(more[k]));
    assert(all.drop_last() =~= Seq::new(g.len(), |k: int| hex_text(g[k])));
}

/// Whether the bytes at `i` are those of eight groups, the high byte of each
/// first.
pub open spec fn holds_groups(s: Seq<u8>, i: int, g: Seq<nat>) -> bool {
    &&& g.len() == 8
    &&& forall|k: int| 0 <= k < 8 ==> #[trigger] g[k] == s[i + 2 * k] * 0x100 + s[i + 2 * k + 1]
}

/// Whether some zero groups follow one another.
pub open spec fn has_zeros(g: Seq<nat>, n: nat) -> bool {
    exists|k: int| 0 <= k <= g.len() - n && #[trigger] are_zeros(g, k, n)
}

/// Whether `n` groups from `k` on are zero.
pub open spec fn are_zeros(g: Seq<nat>, k: int, n: nat) -> bool {
    forall|j: int| k <= j < k + n ==> g[j] == 0
}

proof fn lemma_run(g: Seq<nat>, k: int)
    requires
        0 <= k <= g.len(),
    ensures
        k + zeros_from(g, k) <= g.len(),
        are_zeros(g, k, zeros_from(g, k)),
        k + zeros_from(g, k) < g.len() ==> g[k + zeros_from(g, k)] != 0,
    decreases g.len() - k,
{
    if k < g.len() && g[k] == 0 {
        lemma_run(g, k + 1);
    }
}

proof fn lemma_groups(s: Seq<u8>, i: int, g: Seq<nat>)
    requires
        holds_groups(s, i, g),
    ensures
        groups(s, i) == g,
{
    assert(groups(s, i) =~= g);
}

/// An IPv6 address whose first longest run of zero groups has at least two of
/// them is the groups before the run, two colons and the groups behind it.
pub proof fn law_longest_run_is_left_out(
    s: Seq<u8>,
    i: int,
    a: Seq<nat>,
    n: nat,
    b: Seq<nat>,
)
    requires
        n >= 2,
        holds_groups(s, i, a + Seq::new(n, |k: int| 0nat) + b),
        a.len() > 0 ==> a.last() != 0,
        b.len() > 0 ==> b[0] != 0,
        !has_zeros(a, n),
        !has_zeros(b, n + 1),
        !(a.len() == 0 && n == 5 && b[0] == 0xffff),
    ensures
        ipv6_text(s, i) == groups_text(a) + "::"@ + groups_text(b),
{
    let g = a + Seq::new(n, |k: int| 0nat) + b;
    lemma_groups(s, i, g);
    law_first_longest_run_is_shortened(g, 8);
    let at = a.len() as int;
    let start = longest_zeros(g, 8);
    let m = zeros_from(g, start);
    lemma_run(g, start);
    lemma_run(g, at);
    assert(zeros_from(g, at) == n) by {
        let r = zeros_from(g, at);
        if r < n {
            assert(g[at + r] == 0);
        }
        if r > n {
            assert(g[at + n] == b[0]);
        }
    }
    assert(m >= n);
    if start < at {
        if start + m >= at {
            assert(g[at - 1] == a.last());
            assert(g[at - 1] == 0);
        }
        assert(are_zeros(a, start, n)) by {
            assert forall|j: int| start <= j < start + n implies a[j] == 0 by {
                assert(g[j] == a[j]);
            }
        }
        assert(has_zeros(a, n));
    } else if at < start < at + n {
        if start + m > at + n {
            assert(g[at + n] == b[0]);
            assert(g[at + n] == 0);
        }
        assert(false);
    } else if start >= at + n {
        let k = start - at - n;
        assert(zeros_from(g, at) < m);
        assert(are_zeros(b, k, n + 1)) by {
            assert forall|j: int| k <= j < k + n + 1 implies b[j] == 0 by {
                assert(g[j + at + n] == b[j]);
            }
        }
        assert(has_zeros(b, n + 1));
    }
    assert(start == at);
    assert(m == n);
    assert(g.take(start) =~= a);
    assert(g.skip(start + m) =~= b);
    if is_mapped(g) {
        assert(g[5] == 0xffff);
        assert forall|k: int| 0 <= k < 5 implies g[k] == 0 by {}
        if at > 0 {
            assert(g[at - 1] == a.last());
            if at - 1 < 5 {
                assert(false);
            } else {
                assert(are_zeros(a, 0, n)) by {
                    assert forall|j: int| 0 <= j < n implies a[j] == 0 by {
                        assert(g[j] == a[j]);
                    }
                }
                assert(has_zeros(a, n));
            }
        } else if n < 5 {
            assert(g[n as int] == b[0]);
            assert(false);
        } else if n > 5 {
            assert(g[5] == 0);
        } else {
            assert(g[5] == b[0]);
        }
        assert(false);
    }
}

/// An IPv6 address without two zero groups in a row is its eight groups.
pub proof fn law_single_zeros_are_kept(s: Seq<u8>, i: int, g: Seq<nat>)
    requires
        holds_groups(s, i, g),
        !has_zeros(g, 2),
    ensures
        ipv6_text(s, i) == groups_text(g),
{
    lemma_groups(s, i, g);
    let start = longest_zeros(g, 8);
    law_first_longest_run_is_shortened(g, 8);
    lemma_run(g, start);
    if zeros_from(g, start) > 1 {
        assert(are_zeros(g, start, 2));
    }
    if is_mapped(g) {
        assert(are_zeros(g, 0, 2));
    }
}

/// An IPv4-mapped address, 10 zero bytes and two bytes 0xff, is shown with the
/// IPv4 address in its last four bytes in IPv4 form.
pub proof fn law_mapped_addresses_show_ipv4(s: Seq<u8>, i: int)
    requires
        forall|k: int| 0 <= k < 10 ==> #[trigger] s[i + k] == 0,
        s[i + 10] == 0xff,
        s[i + 11] == 0xff,
    ensures
        ipv6_text(s, i) == "::ffff:"@ + ipv4_text(s, i + 12),
{
    let g = groups(s, i);
    assert forall|k: int| 0 <= k < 5 implies g[k] == 0 by {
        assert(s[i + (2 * k)] == 0);
        assert(s[i + (2 * k + 1)] == 0);
    }
    assert(g[5] == 0xffff);
}

} // verus!
