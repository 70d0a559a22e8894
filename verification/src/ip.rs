//! Addresses and networks, held as plain values: a version flag and the
//! address bits. Parsing and rendering of the usual textual forms is
//! verified against character-level specifications.

use vstd::prelude::*;

use crate::strutil::{chars_vec, dec_string, push_char, spec_dec_str, string_of_chars};

verus! {

/// An IP address: dotted-quad values live in the low 32 bits.
#[derive(Clone, Copy, Debug, PartialEq, Eq, Structural)]
pub struct IpAddress {
    pub v6: bool,
    pub value: u128,
}

impl IpAddress {
    /// A version-four address fits in 32 bits.
    pub open spec fn wf(&self) -> bool {
        !self.v6 ==> self.value < 0x1_0000_0000
    }
}

pub open spec fn is_digit(c: char) -> bool {
    '0' <= c && c <= '9'
}

pub open spec fn digit_of(c: char) -> int {
    c as int - '0' as int
}

pub open spec fn all_digits(s: Seq<char>) -> bool {
    forall|i: int| 0 <= i < s.len() ==> is_digit(s[i])
}

/// The value of a string of decimal digits, most significant first.
pub open spec fn digits_val(s: Seq<char>) -> int
    decreases s.len(),
{
    if s.len() == 0 {
        0
    } else {
        digits_val(s.drop_last()) * 10 + digit_of(s.last())
    }
}

/// One dotted-quad part: one to three digits, no leading zero, at most 255.
pub open spec fn spec_parse_octet(s: Seq<char>) -> Option<int> {
    if 1 <= s.len() <= 3 && all_digits(s) && (s.len() > 1 ==> s[0] != '0') && digits_val(s) <= 255 {
        Some(digits_val(s))
    } else {
        None
    }
}

pub open spec fn is_hex_digit(c: char) -> bool {
    ('0' <= c && c <= '9') || ('a' <= c && c <= 'f') || ('A' <= c && c <= 'F')
}

pub open spec fn hex_of(c: char) -> int {
    if '0' <= c && c <= '9' {
        c as int - '0' as int
    } else if 'a' <= c && c <= 'f' {
        c as int - 'a' as int + 10
    } else {
        c as int - 'A' as int + 10
    }
}

pub open spec fn all_hex(s: Seq<char>) -> bool {
    forall|i: int| 0 <= i < s.len() ==> is_hex_digit(s[i])
}

pub open spec fn hex_val(s: Seq<char>) -> int
    decreases s.len(),
{
    if s.len() == 0 {
        0
    } else {
        hex_val(s.drop_last()) * 16 + hex_of(s.last())
    }
}

/// One colon-separated group: one to four hex digits.
pub open spec fn spec_parse_h16(s: Seq<char>) -> Option<int> {
    if 1 <= s.len() <= 4 && all_hex(s) {
        Some(hex_val(s))
    } else {
        None
    }
}

/// Position of the first occurrence of `c`, or the length when absent.
pub open spec fn idx_of(s: Seq<char>, c: char) -> int
    decreases s.len(),
{
    if s.len() == 0 {
        0
    } else if s[0] == c {
        0
    } else {
        1 + idx_of(s.drop_first(), c)
    }
}

pub proof fn lemma_idx_of(s: Seq<char>, c: char)
    ensures
        0 <= idx_of(s, c) <= s.len(),
        idx_of(s, c) < s.len() ==> s[idx_of(s, c)] == c,
        forall|j: int| 0 <= j < idx_of(s, c) ==> s[j] != c,
    decreases s.len(),
{
    if s.len() > 0 && s[0] != c {
        lemma_idx_of(s.drop_first(), c);
        let s1 = s.drop_first();
        assert forall|j: int| 0 <= j < idx_of(s, c) implies s[j] != c by {
            if j > 0 {
                assert(s[j] == s1[j - 1]);
            }
        }
    }
}

/// The first position scanned to is the first occurrence.
pub proof fn lemma_idx_of_at(s: Seq<char>, c: char, k: int)
    requires
        0 <= k <= s.len(),
        forall|j: int| 0 <= j < k ==> s[j] != c,
        k < s.len() ==> s[k] == c,
    ensures
        idx_of(s, c) == k,
    decreases s.len(),
{
    if s.len() > 0 {
        if k == 0 {
            if s.len() > 0 && s[0] != c {
                lemma_idx_of(s.drop_first(), c);
            }
        } else {
            let s1 = s.drop_first();
            assert(forall|j: int| 0 <= j < k - 1 ==> s1[j] == s[j + 1] && s[j + 1] != c);
            assert(k - 1 < s1.len() ==> s1[k - 1] == c);
            lemma_idx_of_at(s1, c, k - 1);
        }
    }
}

/// Position of the first "::", or the length when absent.
pub open spec fn idx_of2(s: Seq<char>) -> int
    decreases s.len(),
{
    if s.len() < 2 {
        s.len() as int
    } else if s[0] == ':' && s[1] == ':' {
        0
    } else {
        1 + idx_of2(s.drop_first())
    }
}

pub proof fn lemma_idx_of2(s: Seq<char>)
    ensures
        0 <= idx_of2(s) <= s.len(),
        idx_of2(s) + 1 < s.len() ==> s[idx_of2(s)] == ':' && s[idx_of2(s) + 1] == ':',
        idx_of2(s) + 1 >= s.len() ==> idx_of2(s) == s.len(),
        forall|j: int| 0 <= j < idx_of2(s) && j + 1 < s.len() ==> !(#[trigger] s[j] == ':' && s[j + 1] == ':'),
    decreases s.len(),
{
    if s.len() >= 2 && !(s[0] == ':' && s[1] == ':') {
        lemma_idx_of2(s.drop_first());
        let s1 = s.drop_first();
        assert(idx_of2(s1) + 1 >= s1.len() ==> idx_of2(s1) == s1.len());
        if idx_of2(s) + 1 < s.len() {
            assert(idx_of2(s1) + 1 < s1.len());
        }
        assert forall|j: int| 0 <= j < idx_of2(s) && j + 1 < s.len() implies !(#[trigger] s[j]
            == ':' && s[j + 1] == ':') by {
            if j > 0 {
                assert(s[j] == s1[j - 1] && s[j + 1] == s1[j]);
            }
        }
    }
}

pub proof fn lemma_idx_of2_at(s: Seq<char>, k: int)
    requires
        0 <= k <= s.len(),
        forall|j: int| 0 <= j < k && j + 1 < s.len() ==> !(#[trigger] s[j] == ':' && s[j + 1] == ':'),
        k + 1 < s.len() ==> s[k] == ':' && s[k + 1] == ':',
        k + 1 >= s.len() ==> k == s.len(),
    ensures
        idx_of2(s) == k,
    decreases s.len(),
{
    if s.len() < 2 {
    } else if s[0] == ':' && s[1] == ':' {
        assert(k == 0);
    } else {
        let s1 = s.drop_first();
        assert(k >= 1);
        assert(forall|j: int| 0 <= j < k - 1 && j + 1 < s1.len() ==> #[trigger] s1[j] == s[j + 1]
            && s1[j + 1] == s[j + 2] && !(s[j + 1] == ':' && s[j + 2] == ':'));
        lemma_idx_of2_at(s1, k - 1);
    }
}

pub open spec fn pow256(n: int) -> int
    decreases n,
{
    if n <= 0 {
        1
    } else {
        256 * pow256(n - 1)
    }
}

/// `parts` dot-separated octets, as one big-endian value.
pub open spec fn spec_parse_v4_parts(s: Seq<char>, parts: int) -> Option<int>
    decreases parts,
{
    if parts <= 1 {
        spec_parse_octet(s)
    } else {
        let k = idx_of(s, '.');
        if k >= s.len() {
            None
        } else {
            match (
                spec_parse_octet(s.subrange(0, k)),
                spec_parse_v4_parts(s.subrange(k + 1, s.len() as int), parts - 1),
            ) {
                (Some(h), Some(r)) => Some(h * pow256(parts - 1) + r),
                _ => None,
            }
        }
    }
}

/// The dotted-quad form of a version-four address.
pub open spec fn spec_parse_ipv4(s: Seq<char>) -> Option<int> {
    spec_parse_v4_parts(s, 4)
}

pub proof fn lemma_digits_val_nonneg(s: Seq<char>)
    requires
        all_digits(s),
    ensures
        digits_val(s) >= 0,
    decreases s.len(),
{
    if s.len() > 0 {
        assert(all_digits(s.drop_last()));
        lemma_digits_val_nonneg(s.drop_last());
        assert(is_digit(s.last()));
    }
}

pub proof fn lemma_v4_parts_bound(s: Seq<char>, parts: int)
    requires
        1 <= parts,
    ensures
        spec_parse_v4_parts(s, parts) matches Some(v) ==> 0 <= v < pow256(parts),
    decreases parts,
{
    if parts <= 1 {
        if spec_parse_v4_parts(s, parts) is Some {
            lemma_digits_val_nonneg(s);
        }
    } else {
        let k = idx_of(s, '.');
        if k < s.len() {
            lemma_v4_parts_bound(s.subrange(k + 1, s.len() as int), parts - 1);
            if spec_parse_v4_parts(s, parts) matches Some(v) {
                let h = spec_parse_octet(s.subrange(0, k))->Some_0;
                let r = spec_parse_v4_parts(s.subrange(k + 1, s.len() as int), parts - 1)->Some_0;
                lemma_digits_val_nonneg(s.subrange(0, k));
                assert(0 <= h < 256);
                assert(0 <= r < pow256(parts - 1));
                assert(pow256(parts - 1) > 0);
                assert(h * pow256(parts - 1) + r < 256 * pow256(parts - 1)) by (nonlinear_arith)
                    requires
                        0 <= h < 256,
                        0 <= r < pow256(parts - 1),
                        pow256(parts - 1) > 0,
                ;
                assert(h * pow256(parts - 1) >= 0) by (nonlinear_arith)
                    requires
                        h >= 0,
                        pow256(parts - 1) > 0,
                ;
            }
        }
    }
}

fn is_digit_exec(c: char) -> (r: bool)
    ensures
        r == is_digit(c),
{
    let u = c as u32;
    48 <= u && u <= 57
}

/// One octet out of `chars[lo..hi]`.
fn parse_octet(chars: &Vec<char>, lo: usize, hi: usize) -> (r: Option<u32>)
    requires
        lo <= hi <= chars@.len(),
    ensures
        ({
            let seg = chars@.subrange(lo as int, hi as int);
            match r {
                Some(v) => spec_parse_octet(seg) == Some(v as int) && v <= 255,
                None => spec_parse_octet(seg) is None,
            }
        }),
{
    let ghost seg = chars@.subrange(lo as int, hi as int);
    let n = hi - lo;
    if n == 0 || n > 3 {
        return None;
    }
    let mut i: usize = 0;
    let mut val: u32 = 0;
    while i < n
        invariant
            i <= n,
            n == hi - lo,
            1 <= n <= 3,
            lo <= hi <= chars@.len(),
            seg == chars@.subrange(lo as int, hi as int),
            all_digits(seg.subrange(0, i as int)),
            val == digits_val(seg.subrange(0, i as int)),
            val <= (if i == 0 { 0int } else if i == 1 { 9int } else if i == 2 { 99int } else { 999int }),
        decreases n - i,
    {
        let c = chars[lo + i];
        if !is_digit_exec(c) {
            assert(!is_digit(seg[i as int]));
            return None;
        }
        proof {
            lemma_digits_val_nonneg(seg.subrange(0, i as int));
        }
        let d = c as u32 - 48;
        assert(d == digit_of(seg[i as int]));
        let ghost pre = seg.subrange(0, i as int);
        val = val * 10 + d;
        i = i + 1;
        proof {
            let cur = seg.subrange(0, i as int);
            assert(cur.drop_last() =~= pre);
            assert(cur.last() == seg[i - 1]);
            assert(all_digits(cur));
        }
    }
    assert(seg.subrange(0, n as int) =~= seg);
    if val > 255 {
        return None;
    }
    if n > 1 {
        let c0 = chars[lo];
        if c0 == '0' {
            assert(seg[0] == '0');
            return None;
        }
        assert(seg[0] != '0');
    }
    Some(val)
}

fn pow256_exec(n: u32) -> (r: u32)
    requires
        n <= 3,
    ensures
        r == pow256(n as int),
{
    proof {
        assert(pow256(0) == 1);
        assert(pow256(1) == 256);
        assert(pow256(2) == 65536);
        assert(pow256(3) == 16777216);
    }
    if n == 0 {
        1
    } else if n == 1 {
        256
    } else if n == 2 {
        65536
    } else {
        16777216
    }
}

/// Scans for the next occurrence of `c` at or after `lo`.
#[verifier::loop_isolation(false)]
fn scan_for(chars: &Vec<char>, lo: usize, c: char) -> (k: usize)
    requires
        lo <= chars@.len(),
    ensures
        lo <= k <= chars@.len(),
        k - lo == idx_of(chars@.subrange(lo as int, chars@.len() as int), c),
        k < chars@.len() ==> chars@[k as int] == c,
{
    let ghost tail = chars@.subrange(lo as int, chars@.len() as int);
    let mut i: usize = lo;
    while i < chars.len() && chars[i] != c
        invariant
            lo <= i <= chars@.len(),
            forall|j: int| lo <= j < i ==> chars@[j] != c,
        decreases chars@.len() - i,
    {
        i = i + 1;
    }
    proof {
        assert(forall|j: int| 0 <= j < i - lo ==> tail[j] == chars@[lo + j] && chars@[lo + j] != c);
        if i < chars.len() {
            assert(tail[i - lo] == c);
        }
        lemma_idx_of_at(tail, c, i - lo);
    }
    i
}

fn parse_v4_parts(chars: &Vec<char>, lo: usize, parts: u32) -> (r: Option<u32>)
    requires
        lo <= chars@.len(),
        1 <= parts <= 4,
    ensures
        ({
            let seg = chars@.subrange(lo as int, chars@.len() as int);
            match r {
                Some(v) => spec_parse_v4_parts(seg, parts as int) == Some(v as int) && v
                    < pow256(parts as int),
                None => spec_parse_v4_parts(seg, parts as int) is None,
            }
        }),
    decreases parts,
{
    let ghost seg = chars@.subrange(lo as int, chars@.len() as int);
    if parts == 1 {
        let r = parse_octet(chars, lo, chars.len());
        proof {
            if r is Some {
                lemma_v4_parts_bound(seg, 1);
            }
        }
        return r;
    }
    let k = scan_for(chars, lo, '.');
    proof {
        lemma_idx_of(seg, '.');
    }
    if k == chars.len() {
        assert(idx_of(seg, '.') == seg.len());
        return None;
    }
    assert(idx_of(seg, '.') < seg.len());
    let head = match parse_octet(chars, lo, k) {
        Some(h) => h,
        None => {
            assert(chars@.subrange(lo as int, k as int) =~= seg.subrange(0, k - lo));
            return None;
        },
    };
    assert(chars@.subrange(lo as int, k as int) =~= seg.subrange(0, k - lo));
    let rest = match parse_v4_parts(chars, k + 1, parts - 1) {
        Some(r) => r,
        None => {
            assert(chars@.subrange(k + 1, chars@.len() as int) =~= seg.subrange(
                k - lo + 1,
                seg.len() as int,
            ));
            return None;
        },
    };
    assert(chars@.subrange(k + 1, chars@.len() as int) =~= seg.subrange(
        k - lo + 1,
        seg.len() as int,
    ));
    let p = pow256_exec(parts - 1);
    assert(head * p + rest < pow256(parts as int) && head * p >= 0) by (nonlinear_arith)
        requires
            0 <= head < 256,
            0 <= rest < pow256(parts - 1),
            p == pow256(parts - 1),
            p > 0,
            pow256(parts as int) == 256 * pow256(parts - 1),
    ;
    proof {
        assert(pow256(0) == 1);
        assert(pow256(1) == 256);
        assert(pow256(2) == 65536);
        assert(pow256(3) == 16777216);
        assert(pow256(4) == 4294967296);
    }
    Some(head * p + rest)
}

/// Parses the dotted-quad text of a version-four address.
pub fn parse_ipv4(s: &str) -> (r: Option<u32>)
    ensures
        match r {
            Some(v) => spec_parse_ipv4(s@) == Some(v as int),
            None => spec_parse_ipv4(s@) is None,
        },
{
    let chars = chars_vec(s);
    assert(chars@.subrange(0, chars@.len() as int) =~= s@);
    parse_v4_parts(&chars, 0, 4)
}

pub open spec fn pow65536(n: int) -> int
    decreases n,
{
    if n <= 0 {
        1
    } else {
        65536 * pow65536(n - 1)
    }
}

pub open spec fn pow16(n: int) -> int
    decreases n,
{
    if n <= 0 {
        1
    } else {
        16 * pow16(n - 1)
    }
}

/// The big-endian value of a list of sixteen-bit groups.
pub open spec fn groups_be_val(gs: Seq<int>) -> int
    decreases gs.len(),
{
    if gs.len() == 0 {
        0
    } else {
        groups_be_val(gs.drop_last()) * 65536 + gs.last()
    }
}

pub open spec fn groups_wf(gs: Seq<int>) -> bool {
    forall|i: int| 0 <= i < gs.len() ==> 0 <= #[trigger] gs[i] < 65536
}

/// A nonempty list of groups separated by single colons.
pub open spec fn spec_parse_groups1(s: Seq<char>) -> Option<Seq<int>>
    decreases s.len(),
{
    if s.len() == 0 {
        None
    } else {
        let k = idx_of(s, ':');
        if k < 0 || k >= s.len() {
            match spec_parse_h16(s) {
                Some(g) => Some(seq![g]),
                None => None,
            }
        } else {
            match (
                spec_parse_h16(s.subrange(0, k)),
                spec_parse_groups1(s.subrange(k + 1, s.len() as int)),
            ) {
                (Some(h), Some(t)) => Some(seq![h] + t),
                _ => None,
            }
        }
    }
}

/// A possibly empty list of groups, as on either side of a "::".
pub open spec fn spec_parse_groups(s: Seq<char>) -> Option<Seq<int>> {
    if s.len() == 0 {
        Some(Seq::empty())
    } else {
        spec_parse_groups1(s)
    }
}

/// The textual form of a version-six address: eight groups, or two group
/// lists around one "::" standing for the missing zero groups.
pub open spec fn spec_parse_ipv6(s: Seq<char>) -> Option<int> {
    let k = idx_of2(s);
    if k + 1 >= s.len() {
        match spec_parse_groups1(s) {
            Some(gs) => if gs.len() == 8 {
                Some(groups_be_val(gs))
            } else {
                None
            },
            None => None,
        }
    } else {
        let left = s.subrange(0, k);
        let right = s.subrange(k + 2, s.len() as int);
        if idx_of2(right) < right.len() {
            None
        } else {
            match (spec_parse_groups(left), spec_parse_groups(right)) {
                (Some(lg), Some(rg)) => if lg.len() + rg.len() <= 7 {
                    Some(groups_be_val(lg) * pow65536(8 - lg.len()) + groups_be_val(rg))
                } else {
                    None
                },
                _ => None,
            }
        }
    }
}

pub proof fn lemma_hex_val_bound(s: Seq<char>)
    requires
        all_hex(s),
    ensures
        0 <= hex_val(s) < pow16(s.len() as int),
    decreases s.len(),
{
    if s.len() > 0 {
        assert(all_hex(s.drop_last()));
        lemma_hex_val_bound(s.drop_last());
        assert(is_hex_digit(s.last()));
        assert(0 <= hex_of(s.last()) < 16);
        let h = hex_val(s.drop_last());
        let p = pow16(s.len() - 1);
        assert(h * 16 + hex_of(s.last()) < 16 * p && h * 16 >= 0) by (nonlinear_arith)
            requires
                0 <= h < p,
                0 <= hex_of(s.last()) < 16,
        ;
    }
}

pub proof fn lemma_h16_bound(s: Seq<char>)
    ensures
        spec_parse_h16(s) matches Some(g) ==> 0 <= g < 65536,
{
    if spec_parse_h16(s) is Some {
        lemma_hex_val_bound(s);
        assert(pow16(0) == 1);
        assert(pow16(1) == 16);
        assert(pow16(2) == 256);
        assert(pow16(3) == 4096);
        assert(pow16(4) == 65536);
    }
}

pub proof fn lemma_groups1_wf(s: Seq<char>)
    ensures
        spec_parse_groups1(s) matches Some(gs) ==> groups_wf(gs) && gs.len() >= 1,
    decreases s.len(),
{
    if s.len() > 0 {
        let k = idx_of(s, ':');
        lemma_idx_of(s, ':');
        if k >= s.len() {
            lemma_h16_bound(s);
        } else {
            lemma_h16_bound(s.subrange(0, k));
            lemma_groups1_wf(s.subrange(k + 1, s.len() as int));
        }
    }
}

pub proof fn lemma_groups_be_val_bound(gs: Seq<int>)
    requires
        groups_wf(gs),
    ensures
        0 <= groups_be_val(gs) < pow65536(gs.len() as int),
    decreases gs.len(),
{
    if gs.len() > 0 {
        assert(groups_wf(gs.drop_last()));
        lemma_groups_be_val_bound(gs.drop_last());
        let h = groups_be_val(gs.drop_last());
        let p = pow65536(gs.len() - 1);
        assert(0 <= gs.last() < 65536);
        assert(h * 65536 + gs.last() < 65536 * p && h * 65536 >= 0) by (nonlinear_arith)
            requires
                0 <= h < p,
                0 <= gs.last() < 65536,
        ;
    }
}

pub proof fn lemma_pow65536_pos(n: int)
    ensures
        pow65536(n) >= 1,
    decreases n,
{
    if n > 0 {
        lemma_pow65536_pos(n - 1);
    }
}

pub proof fn lemma_pow65536_mono(m: int, n: int)
    requires
        m <= n,
    ensures
        pow65536(m) <= pow65536(n),
        pow65536(m) >= 1,
    decreases n - m,
{
    lemma_pow65536_pos(m);
    if m < n {
        lemma_pow65536_mono(m, n - 1);
        lemma_pow65536_pos(n - 1);
    }
}

/// The concrete values of the small powers the parser needs.
pub proof fn lemma_pow65536_values()
    ensures
        pow65536(0) == 1,
        pow65536(1) == 0x1_0000,
        pow65536(2) == 0x1_0000_0000,
        pow65536(3) == 0x1_0000_0000_0000,
        pow65536(4) == 0x1_0000_0000_0000_0000,
        pow65536(5) == 0x1_0000_0000_0000_0000_0000,
        pow65536(6) == 0x1_0000_0000_0000_0000_0000_0000,
        pow65536(7) == 0x1_0000_0000_0000_0000_0000_0000_0000,
        pow65536(8) == 0x1_0000_0000_0000_0000_0000_0000_0000_0000,
{
    assert(pow65536(0) == 1);
    assert(pow65536(1) == 0x1_0000);
    assert(pow65536(2) == 0x1_0000_0000);
    assert(pow65536(3) == 0x1_0000_0000_0000);
    assert(pow65536(4) == 0x1_0000_0000_0000_0000);
    assert(pow65536(5) == 0x1_0000_0000_0000_0000_0000);
    assert(pow65536(6) == 0x1_0000_0000_0000_0000_0000_0000);
    assert(pow65536(7) == 0x1_0000_0000_0000_0000_0000_0000_0000);
    assert(pow65536(8) == 0x1_0000_0000_0000_0000_0000_0000_0000_0000);
}

/// The seq of group values a vector of groups stands for.
pub open spec fn u16s(gs: Seq<u16>) -> Seq<int> {
    gs.map_values(|g: u16| g as int)
}

fn hex_val_exec(c: char) -> (r: Option<u32>)
    ensures
        match r {
            Some(v) => is_hex_digit(c) && v == hex_of(c) && v < 16,
            None => !is_hex_digit(c),
        },
{
    let u = c as u32;
    if 48 <= u && u <= 57 {
        Some(u - 48)
    } else if 97 <= u && u <= 102 {
        Some(u - 97 + 10)
    } else if 65 <= u && u <= 70 {
        Some(u - 65 + 10)
    } else {
        None
    }
}

/// One group of one to four hex digits out of `chars[lo..hi]`.
fn parse_h16(chars: &Vec<char>, lo: usize, hi: usize) -> (r: Option<u16>)
    requires
        lo <= hi <= chars@.len(),
    ensures
        ({
            let seg = chars@.subrange(lo as int, hi as int);
            match r {
                Some(v) => spec_parse_h16(seg) == Some(v as int),
                None => spec_parse_h16(seg) is None,
            }
        }),
{
    let ghost seg = chars@.subrange(lo as int, hi as int);
    let n = hi - lo;
    if n == 0 || n > 4 {
        return None;
    }
    let mut i: usize = 0;
    let mut val: u32 = 0;
    while i < n
        invariant
            i <= n,
            n == hi - lo,
            1 <= n <= 4,
            lo <= hi <= chars@.len(),
            seg == chars@.subrange(lo as int, hi as int),
            all_hex(seg.subrange(0, i as int)),
            val == hex_val(seg.subrange(0, i as int)),
            val <= (if i == 0 { 0int } else if i == 1 { 15int } else if i == 2 { 255int } else if i
                == 3 { 4095int } else { 65535int }),
        decreases n - i,
    {
        let c = chars[lo + i];
        let d = match hex_val_exec(c) {
            Some(d) => d,
            None => {
                assert(!is_hex_digit(seg[i as int]));
                return None;
            },
        };
        assert(d == hex_of(seg[i as int]));
        let ghost pre = seg.subrange(0, i as int);
        proof {
            lemma_hex_val_bound(pre);
        }
        val = val * 16 + d;
        i = i + 1;
        proof {
            let cur = seg.subrange(0, i as int);
            assert(cur.drop_last() =~= pre);
            assert(cur.last() == seg[i - 1]);
            assert(all_hex(cur));
        }
    }
    assert(seg.subrange(0, n as int) =~= seg);
    Some(val as u16)
}

/// Scans for the next occurrence of `c` in `chars[lo..hi]`.
#[verifier::loop_isolation(false)]
fn scan_to(chars: &Vec<char>, lo: usize, hi: usize, c: char) -> (k: usize)
    requires
        lo <= hi <= chars@.len(),
    ensures
        lo <= k <= hi,
        k - lo == idx_of(chars@.subrange(lo as int, hi as int), c),
        k < hi ==> chars@[k as int] == c,
{
    let ghost seg = chars@.subrange(lo as int, hi as int);
    let mut i: usize = lo;
    while i < hi && chars[i] != c
        invariant
            lo <= i <= hi,
            forall|j: int| lo <= j < i ==> chars@[j] != c,
        decreases hi - i,
    {
        i = i + 1;
    }
    proof {
        assert(forall|j: int| 0 <= j < i - lo ==> seg[j] == chars@[lo + j] && chars@[lo + j] != c);
        if i < hi {
            assert(seg[i - lo] == c);
        }
        lemma_idx_of_at(seg, c, i - lo);
    }
    i
}

/// A nonempty colon-separated group list out of `chars[lo..hi]`.
fn parse_groups1(chars: &Vec<char>, lo: usize, hi: usize) -> (r: Option<Vec<u16>>)
    requires
        lo <= hi <= chars@.len(),
    ensures
        ({
            let seg = chars@.subrange(lo as int, hi as int);
            match r {
                Some(v) => spec_parse_groups1(seg) == Some(u16s(v@)) && v@.len() >= 1,
                None => spec_parse_groups1(seg) is None,
            }
        }),
    decreases hi - lo,
{
    let ghost seg = chars@.subrange(lo as int, hi as int);
    if lo == hi {
        return None;
    }
    let k = scan_to(chars, lo, hi, ':');
    proof {
        lemma_idx_of(seg, ':');
    }
    if k == hi {
        assert(idx_of(seg, ':') == seg.len());
        match parse_h16(chars, lo, hi) {
            Some(g) => {
                let v = vec![g];
                assert(u16s(v@) =~= seq![g as int]);
                return Some(v);
            },
            None => {
                return None;
            },
        }
    }
    assert(0 <= idx_of(seg, ':') < seg.len());
    assert(chars@.subrange(lo as int, k as int) =~= seg.subrange(0, k - lo));
    let head = match parse_h16(chars, lo, k) {
        Some(h) => h,
        None => {
            return None;
        },
    };
    assert(chars@.subrange(k + 1, hi as int) =~= seg.subrange(k - lo + 1, seg.len() as int));
    let mut rest = match parse_groups1(chars, k + 1, hi) {
        Some(t) => t,
        None => {
            return None;
        },
    };
    let ghost tail_groups = u16s(rest@);
    rest.insert(0, head);
    assert(u16s(rest@) =~= seq![head as int] + tail_groups);
    Some(rest)
}

/// The big-endian value of at most eight groups.
#[verifier::loop_isolation(false)]
fn groups_val(gs: &Vec<u16>) -> (v: u128)
    requires
        gs@.len() <= 8,
    ensures
        v == groups_be_val(u16s(gs@)),
        v < pow65536(gs@.len() as int),
{
    proof {
        lemma_pow65536_values();
    }
    let mut v: u128 = 0;
    let mut i: usize = 0;
    while i < gs.len()
        invariant
            i <= gs@.len(),
            v == groups_be_val(u16s(gs@.subrange(0, i as int))),
            v < pow65536(i as int),
        decreases gs@.len() - i,
    {
        let ghost pre = u16s(gs@.subrange(0, i as int));
        let g = gs[i];
        assert(v * 65536 + g < pow65536(i + 1) && v * 65536 >= 0) by (nonlinear_arith)
            requires
                0 <= v < pow65536(i as int),
                0 <= g < 65536,
                pow65536(i + 1) == 65536 * pow65536(i as int),
        ;
        proof {
            lemma_pow65536_mono(i + 1, 8);
        }
        v = v * 65536 + (g as u128);
        i = i + 1;
        proof {
            let cur = u16s(gs@.subrange(0, i as int));
            assert(cur.drop_last() =~= pre);
            assert(cur.last() == gs@[i - 1] as int);
        }
    }
    assert(u16s(gs@.subrange(0, gs@.len() as int)) =~= u16s(gs@));
    v
}

fn pow65536_exec(n: usize) -> (r: u128)
    requires
        n <= 7,
    ensures
        r == pow65536(n as int),
{
    proof {
        lemma_pow65536_values();
    }
    if n == 0 {
        1
    } else if n == 1 {
        0x1_0000
    } else if n == 2 {
        0x1_0000_0000
    } else if n == 3 {
        0x1_0000_0000_0000
    } else if n == 4 {
        0x1_0000_0000_0000_0000
    } else if n == 5 {
        0x1_0000_0000_0000_0000_0000
    } else if n == 6 {
        0x1_0000_0000_0000_0000_0000_0000
    } else {
        0x1_0000_0000_0000_0000_0000_0000_0000
    }
}

/// Scans for the first "::" in `chars[lo..hi]`.
#[verifier::loop_isolation(false)]
fn scan_for2(chars: &Vec<char>, lo: usize, hi: usize) -> (k: usize)
    requires
        lo <= hi <= chars@.len(),
    ensures
        lo <= k <= hi,
        k - lo == idx_of2(chars@.subrange(lo as int, hi as int)),
        k + 1 < hi ==> chars@[k as int] == ':' && chars@[k + 1] == ':',
        k + 1 >= hi ==> k == hi,
{
    let ghost seg = chars@.subrange(lo as int, hi as int);
    let mut i: usize = lo;
    let mut found = false;
    while i < hi && i + 1 < hi && !found
        invariant
            lo <= i <= hi,
            found ==> i + 1 < hi && chars@[i as int] == ':' && chars@[i + 1] == ':',
            forall|j: int| lo <= j < i && j + 1 < hi ==> !(#[trigger] chars@[j] == ':' && chars@[j
                + 1] == ':'),
        decreases hi - i, 1int - (if found { 1int } else { 0int }),
    {
        if chars[i] == ':' && chars[i + 1] == ':' {
            found = true;
        } else {
            i = i + 1;
        }
    }
    let r: usize = if found {
        i
    } else {
        hi
    };
    proof {
        assert(forall|j: int| 0 <= j < r - lo && j + 1 < seg.len() ==> #[trigger] seg[j]
            == chars@[lo + j] && seg[j + 1] == chars@[lo + j + 1]);
        if found {
            assert(seg[i - lo] == ':' && seg[i - lo + 1] == ':');
        }
        lemma_idx_of2_at(seg, r - lo);
    }
    r
}

/// Parses the textual form of a version-six address.
pub fn parse_ipv6(s: &str) -> (r: Option<u128>)
    ensures
        match r {
            Some(v) => spec_parse_ipv6(s@) == Some(v as int),
            None => spec_parse_ipv6(s@) is None,
        },
{
    let chars = chars_vec(s);
    assert(chars@.subrange(0, chars@.len() as int) =~= s@);
    parse_v6_chars(&chars)
}

fn parse_v6_chars(chars: &Vec<char>) -> (r: Option<u128>)
    ensures
        ({
            let s = chars@.subrange(0, chars@.len() as int);
            match r {
                Some(v) => spec_parse_ipv6(s) == Some(v as int),
                None => spec_parse_ipv6(s) is None,
            }
        }),
{
    let ghost s = chars@.subrange(0, chars@.len() as int);
    let n = chars.len();
    let k = scan_for2(chars, 0, n);
    if k == n {
        // no "::": exactly eight groups
        proof {
            lemma_idx_of2(s);
        }
        let gs = match parse_groups1(chars, 0, n) {
            Some(gs) => gs,
            None => {
                return None;
            },
        };
        if gs.len() != 8 {
            return None;
        }
        proof {
            lemma_groups1_wf(s);
        }
        let v = groups_val(&gs);
        return Some(v);
    }
    assert(k + 1 < n && idx_of2(s) == k);
    let ghost left = s.subrange(0, k as int);
    let ghost right = s.subrange(k + 2, s.len() as int);
    // a second "::" is not allowed
    let k2 = scan_for2(chars, k + 2, n);
    proof {
        assert(chars@.subrange(k + 2, n as int) =~= right);
    }
    if k2 < n {
        assert(idx_of2(right) < right.len());
        return None;
    }
    assert(idx_of2(right) == right.len());
    // left side
    let lg: Vec<u16> = if k == 0 {
        assert(left.len() == 0);
        Vec::new()
    } else {
        proof {
            assert(chars@.subrange(0, k as int) =~= left);
        }
        match parse_groups1(chars, 0, k) {
            Some(gs) => gs,
            None => {
                assert(spec_parse_groups(left) is None);
                return None;
            },
        }
    };
    assert(spec_parse_groups(left) == Some(u16s(lg@)));
    // right side
    let rg: Vec<u16> = if k + 2 == n {
        assert(right.len() == 0);
        Vec::new()
    } else {
        match parse_groups1(chars, k + 2, n) {
            Some(gs) => gs,
            None => {
                assert(spec_parse_groups(right) is None);
                return None;
            },
        }
    };
    assert(spec_parse_groups(right) == Some(u16s(rg@)));
    if lg.len() > 7 {
        return None;
    }
    if rg.len() > 7 - lg.len() {
        return None;
    }
    proof {
        if left.len() > 0 {
            lemma_groups1_wf(left);
        }
        if right.len() > 0 {
            lemma_groups1_wf(right);
        }
        assert(groups_wf(u16s(lg@)));
        assert(groups_wf(u16s(rg@)));
        lemma_groups_be_val_bound(u16s(lg@));
        lemma_groups_be_val_bound(u16s(rg@));
    }
    let lval: u128 = if lg.len() == 0 {
        assert(groups_be_val(u16s(lg@)) == 0);
        assert(groups_be_val(u16s(lg@)) * pow65536(8 - u16s(lg@).len()) == 0);
        0
    } else {
        let gv = groups_val(&lg);
        let p = pow65536_exec(8 - lg.len());
        proof {
            let a = groups_be_val(u16s(lg@));
            let pl = pow65536(lg@.len() as int);
            let pr = pow65536(8 - lg@.len());
            lemma_pow65536_values();
            lemma_pow65536_mono(0, 8 - lg@.len());
            lemma_pow65536_mono(0, lg@.len() as int);
            lemma_pow65536_split(lg@.len() as int, 8 - lg@.len());
            assert(pl * pr == pow65536(8) && a * pr < pl * pr && a * pr >= 0) by (nonlinear_arith)
                requires
                    0 <= a < pl,
                    pr >= 1,
                    pl >= 1,
                    pl == pow65536(lg@.len() as int),
                    pr == pow65536(8 - lg@.len()),
                    pow65536(8) == pow65536(lg@.len() as int) * pow65536(8 - lg@.len()),
            {
            }
        }
        gv * p
    };
    let rval = groups_val(&rg);
    proof {
        let a = groups_be_val(u16s(lg@));
        let pr = pow65536(8 - lg@.len());
        let b = groups_be_val(u16s(rg@));
        lemma_pow65536_mono(rg@.len() as int, 7 - lg@.len());
        lemma_pow65536_mono(7 - lg@.len(), 8 - lg@.len());
        lemma_pow65536_values();
        if lg@.len() > 0 {
            lemma_pow65536_split(lg@.len() as int, 8 - lg@.len());
            assert(a * pr + b < pow65536(8)) by (nonlinear_arith)
                requires
                    0 <= a <= pow65536(lg@.len() as int) - 1,
                    pr >= 1,
                    0 <= b < pr,
                    pow65536(lg@.len() as int) * pr == pow65536(8),
            {
            }
        }
    }
    Some(lval + rval)
}

/// An address in text: a dotted quad first, else the version-six form.
pub open spec fn spec_parse_ip(s: Seq<char>) -> Option<IpAddress> {
    match spec_parse_ipv4(s) {
        Some(v) => Some(IpAddress { v6: false, value: v as u128 }),
        None => match spec_parse_ipv6(s) {
            Some(v) => Some(IpAddress { v6: true, value: v as u128 }),
            None => None,
        },
    }
}

fn parse_ip_chars(chars: &Vec<char>) -> (r: Option<IpAddress>)
    ensures
        r == spec_parse_ip(chars@),
        r matches Some(ip) ==> ip.wf(),
{
    assert(chars@.subrange(0, chars@.len() as int) =~= chars@);
    match parse_v4_parts(chars, 0, 4) {
        Some(v) => {
            proof {
                assert(pow256(4) == 4294967296) by {
                    assert(pow256(0) == 1);
                    assert(pow256(1) == 256);
                    assert(pow256(2) == 65536);
                    assert(pow256(3) == 16777216);
                }
            }
            Some(IpAddress { v6: false, value: v as u128 })
        },
        None => match parse_v6_chars(chars) {
            Some(v) => Some(IpAddress { v6: true, value: v }),
            None => None,
        },
    }
}

/// Parses either textual address form.
pub fn parse_ip(s: &str) -> (r: Option<IpAddress>)
    ensures
        r == spec_parse_ip(s@),
        r matches Some(ip) ==> ip.wf(),
{
    let chars = chars_vec(s);
    parse_ip_chars(&chars)
}

pub open spec fn hex_digit_char(d: int) -> char {
    if d == 0 { '0' }
    else if d == 1 { '1' }
    else if d == 2 { '2' }
    else if d == 3 { '3' }
    else if d == 4 { '4' }
    else if d == 5 { '5' }
    else if d == 6 { '6' }
    else if d == 7 { '7' }
    else if d == 8 { '8' }
    else if d == 9 { '9' }
    else if d == 10 { 'a' }
    else if d == 11 { 'b' }
    else if d == 12 { 'c' }
    else if d == 13 { 'd' }
    else if d == 14 { 'e' }
    else { 'f' }
}

/// The hex digits of `n`, most significant first; empty for zero.
pub open spec fn spec_hex(n: int) -> Seq<char>
    decreases n,
{
    if n <= 0 {
        Seq::empty()
    } else {
        spec_hex(n / 16).push(hex_digit_char(n % 16))
    }
}

/// The hex rendering of `n`: "0" for zero, no leading zeros otherwise.
pub open spec fn spec_hex_str(n: int) -> Seq<char> {
    if n == 0 {
        seq!['0']
    } else {
        spec_hex(n)
    }
}

fn hex_digit_to_char(d: u16) -> (c: char)
    requires
        d < 16,
    ensures
        c == hex_digit_char(d as int),
{
    if d == 0 { '0' }
    else if d == 1 { '1' }
    else if d == 2 { '2' }
    else if d == 3 { '3' }
    else if d == 4 { '4' }
    else if d == 5 { '5' }
    else if d == 6 { '6' }
    else if d == 7 { '7' }
    else if d == 8 { '8' }
    else if d == 9 { '9' }
    else if d == 10 { 'a' }
    else if d == 11 { 'b' }
    else if d == 12 { 'c' }
    else if d == 13 { 'd' }
    else if d == 14 { 'e' }
    else { 'f' }
}

/// The hex rendering of one group.
#[verifier::loop_isolation(false)]
fn hex_string(n: u16) -> (s: String)
    ensures
        s@ == spec_hex_str(n as int),
{
    if n == 0 {
        proof {
            reveal_strlit("0");
        }
        let r = "0".to_owned();
        assert(r@ =~= seq!['0']);
        return r;
    }
    let mut digits: Vec<char> = Vec::new();
    let mut m: u16 = n;
    while m > 0
        invariant
            spec_hex(n as int) == spec_hex(m as int) + digits@.reverse(),
        decreases m,
    {
        let ghost pre = digits@;
        digits.push(hex_digit_to_char(m % 16));
        assert(digits@.reverse() =~= seq![hex_digit_char(m as int % 16)] + pre.reverse());
        assert(spec_hex(m as int) == spec_hex(m as int / 16).push(hex_digit_char(m as int % 16)));
        assert(spec_hex(m as int / 16) + digits@.reverse() =~= spec_hex(m as int) + pre.reverse());
        m = m / 16;
    }
    let mut out: Vec<char> = Vec::new();
    let mut i: usize = digits.len();
    assert(digits@.reverse() =~= spec_hex(n as int));
    while i > 0
        invariant
            i <= digits@.len(),
            out@ == digits@.reverse().subrange(0, digits@.len() - i),
        decreases i,
    {
        i = i - 1;
        out.push(digits[i]);
        assert(digits@.reverse()[digits@.len() - i - 1] == digits@[i as int]);
        assert(out@ =~= digits@.reverse().subrange(0, digits@.len() - i));
    }
    assert(out@ =~= spec_hex(n as int));
    string_of_chars(&out)
}

/// The dotted-quad rendering of a version-four value.
pub open spec fn spec_format_ipv4(v: int) -> Seq<char> {
    spec_dec_str(v / 0x1000000 % 256) + seq!['.'] + spec_dec_str(v / 0x10000 % 256) + seq!['.']
        + spec_dec_str(v / 0x100 % 256) + seq!['.'] + spec_dec_str(v % 256)
}

/// `n` colon-separated hex groups, the low groups of `v`, high group first.
pub open spec fn spec_v6_groups(v: int, n: int) -> Seq<char>
    decreases n,
{
    if n <= 1 {
        spec_hex_str(v % 65536)
    } else {
        spec_v6_groups(v / 65536, n - 1) + seq![':'] + spec_hex_str(v % 65536)
    }
}

/// The rendering handed to the firewall utilities: dotted quad, or all
/// eight groups in hex without zero compression.
pub open spec fn spec_format_ip(ip: IpAddress) -> Seq<char> {
    if ip.v6 {
        spec_v6_groups(ip.value as int, 8)
    } else {
        spec_format_ipv4(ip.value as int)
    }
}

fn format_v6_groups(v: u128, n: u8) -> (s: String)
    requires
        1 <= n <= 8,
    ensures
        s@ == spec_v6_groups(v as int, n as int),
    decreases n,
{
    let g: u16 = (v % 65536) as u16;
    assert(g as int == v as int % 65536);
    if n == 1 {
        hex_string(g)
    } else {
        let mut s = format_v6_groups(v / 65536, n - 1);
        push_char(&mut s, ':');
        let h = hex_string(g);
        s.append(h.as_str());
        assert(s@ =~= spec_v6_groups(v as int / 65536, n - 1) + seq![':'] + spec_hex_str(
            v as int % 65536,
        ));
        s
    }
}

/// The textual rendering of an address.
pub fn format_ip(ip: &IpAddress) -> (s: String)
    requires
        ip.wf(),
    ensures
        s@ == spec_format_ip(*ip),
{
    if ip.v6 {
        format_v6_groups(ip.value, 8)
    } else {
        let v = ip.value as u32;
        assert(v as int == ip.value as int);
        let mut s = dec_string((v / 0x1000000 % 256) as u64);
        push_char(&mut s, '.');
        let b = dec_string((v / 0x10000 % 256) as u64);
        s.append(b.as_str());
        push_char(&mut s, '.');
        let c = dec_string((v / 0x100 % 256) as u64);
        s.append(c.as_str());
        push_char(&mut s, '.');
        let d = dec_string((v % 256) as u64);
        s.append(d.as_str());
        assert(s@ =~= spec_format_ipv4(ip.value as int));
        s
    }
}

/// A network in the usual address-and-prefix form.
#[derive(Clone, Copy, Debug, PartialEq, Eq, Structural)]
pub struct IpNetwork {
    pub addr: IpAddress,
    pub prefix: u8,
}

impl IpNetwork {
    pub open spec fn wf(&self) -> bool {
        &&& self.addr.wf()
        &&& self.prefix <= (if self.addr.v6 {
            128int
        } else {
            32int
        })
    }

    /// Whether `ip` lies in the network: same version and the same
    /// leading `prefix` address bits.
    pub open spec fn spec_contains(&self, ip: IpAddress) -> bool {
        &&& self.addr.v6 == ip.v6
        &&& (self.prefix > 0 ==> ({
            let bits: u128 = if self.addr.v6 {
                128
            } else {
                32
            };
            (ip.value >> (bits - self.prefix) as u128) == (self.addr.value >> (bits
                - self.prefix) as u128)
        }))
    }

    pub fn contains(&self, ip: &IpAddress) -> (r: bool)
        requires
            self.wf(),
        ensures
            r == self.spec_contains(*ip),
    {
        if self.addr.v6 != ip.v6 {
            return false;
        }
        if self.prefix == 0 {
            return true;
        }
        let bits: u32 = if self.addr.v6 {
            128
        } else {
            32
        };
        let sh = bits - self.prefix as u32;
        (ip.value >> sh) == (self.addr.value >> sh)
    }
}

/// The prefix length after the slash: one to three digits, at most `bits`.
pub open spec fn spec_parse_prefix(s: Seq<char>, bits: int) -> Option<int> {
    if 1 <= s.len() <= 3 && all_digits(s) && digits_val(s) <= bits {
        Some(digits_val(s))
    } else {
        None
    }
}

/// Network text: an address, optionally followed by a slash and a prefix
/// length; a bare address means the full-length prefix.
pub open spec fn spec_parse_network(s: Seq<char>) -> Option<IpNetwork> {
    let k = idx_of(s, '/');
    if k >= s.len() {
        match spec_parse_ip(s) {
            Some(a) => Some(
                IpNetwork {
                    addr: a,
                    prefix: if a.v6 {
                        128
                    } else {
                        32
                    },
                },
            ),
            None => None,
        }
    } else {
        match spec_parse_ip(s.subrange(0, k)) {
            Some(a) => match spec_parse_prefix(
                s.subrange(k + 1, s.len() as int),
                if a.v6 {
                    128
                } else {
                    32
                },
            ) {
                Some(p) => Some(IpNetwork { addr: a, prefix: p as u8 }),
                None => None,
            },
            None => None,
        }
    }
}

/// The characters `[lo, hi)`, as their own vector.
#[verifier::loop_isolation(false)]
fn sub_vec(chars: &Vec<char>, lo: usize, hi: usize) -> (v: Vec<char>)
    requires
        lo <= hi <= chars@.len(),
    ensures
        v@ == chars@.subrange(lo as int, hi as int),
{
    let mut v: Vec<char> = Vec::new();
    let mut i: usize = lo;
    while i < hi
        invariant
            lo <= i <= hi,
            v@ == chars@.subrange(lo as int, i as int),
        decreases hi - i,
    {
        v.push(chars[i]);
        i = i + 1;
        assert(v@ =~= chars@.subrange(lo as int, i as int));
    }
    v
}

#[verifier::loop_isolation(false)]
fn parse_prefix(chars: &Vec<char>, lo: usize, bits: u32) -> (r: Option<u8>)
    requires
        lo <= chars@.len(),
        bits == 32 || bits == 128,
    ensures
        ({
            let seg = chars@.subrange(lo as int, chars@.len() as int);
            match r {
                Some(p) => spec_parse_prefix(seg, bits as int) == Some(p as int),
                None => spec_parse_prefix(seg, bits as int) is None,
            }
        }),
{
    let ghost seg = chars@.subrange(lo as int, chars@.len() as int);
    let n = chars.len() - lo;
    if n == 0 || n > 3 {
        return None;
    }
    let mut i: usize = 0;
    let mut val: u32 = 0;
    while i < n
        invariant
            i <= n,
            1 <= n <= 3,
            all_digits(seg.subrange(0, i as int)),
            val == digits_val(seg.subrange(0, i as int)),
            val <= (if i == 0 { 0int } else if i == 1 { 9int } else if i == 2 { 99int } else {
                999int
            }),
        decreases n - i,
    {
        let c = chars[lo + i];
        if !is_digit_exec(c) {
            assert(!is_digit(seg[i as int]));
            return None;
        }
        proof {
            lemma_digits_val_nonneg(seg.subrange(0, i as int));
        }
        let d = c as u32 - 48;
        assert(d == digit_of(seg[i as int]));
        let ghost pre = seg.subrange(0, i as int);
        val = val * 10 + d;
        i = i + 1;
        proof {
            let cur = seg.subrange(0, i as int);
            assert(cur.drop_last() =~= pre);
            assert(cur.last() == seg[i - 1]);
            assert(all_digits(cur));
        }
    }
    assert(seg.subrange(0, n as int) =~= seg);
    if val > bits {
        return None;
    }
    Some(val as u8)
}

/// Parses the textual form of a network.
pub fn parse_network(s: &str) -> (r: Option<IpNetwork>)
    ensures
        r == spec_parse_network(s@),
        r matches Some(net) ==> net.wf(),
{
    let chars = chars_vec(s);
    let k = scan_for(&chars, 0, '/');
    proof {
        assert(chars@.subrange(0, chars@.len() as int) =~= chars@);
        lemma_idx_of(chars@, '/');
    }
    if k == chars.len() {
        match parse_ip_chars(&chars) {
            Some(a) => {
                let prefix: u8 = if a.v6 {
                    128
                } else {
                    32
                };
                Some(IpNetwork { addr: a, prefix })
            },
            None => None,
        }
    } else {
        let left = sub_vec(&chars, 0, k);
        match parse_ip_chars(&left) {
            Some(a) => {
                let bits: u32 = if a.v6 {
                    128
                } else {
                    32
                };
                match parse_prefix(&chars, k + 1, bits) {
                    Some(p) => {
                        assert(chars@.subrange(k + 1, chars@.len() as int) =~= s@.subrange(
                            k + 1,
                            s@.len() as int,
                        ));
                        Some(IpNetwork { addr: a, prefix: p })
                    },
                    None => None,
                }
            },
            None => None,
        }
    }
}

pub proof fn lemma_pow65536_split(m: int, n: int)
    requires
        m >= 0,
        n >= 0,
    ensures
        pow65536(m) * pow65536(n) == pow65536(m + n),
    decreases m,
{
    if m == 0 {
        assert(pow65536(0) == 1);
    } else {
        lemma_pow65536_split(m - 1, n);
        assert(pow65536(m) == 65536 * pow65536(m - 1));
        assert(pow65536(m) * pow65536(n) == 65536 * (pow65536(m - 1) * pow65536(n)))
            by (nonlinear_arith)
            requires
                pow65536(m) == 65536 * pow65536(m - 1),
        {
        }
        assert(pow65536(m + n) == 65536 * pow65536(m + n - 1));
    }
}

} // verus!
