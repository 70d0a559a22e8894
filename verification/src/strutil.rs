//! Small verified helpers on strings and character sequences that the
//! rest of the library builds on.

use vstd::prelude::*;

verus! {

/// Appends one character to a string.
/// Relies on String::push: appends the character to the end of the string.
#[verifier::external_body]
pub fn push_char(s: &mut String, c: char)
    ensures
        final(s)@ == old(s)@.push(c),
{
    s.push(c);
}

/// The characters of a string slice, as a vector.
#[verifier::loop_isolation(false)]
pub fn chars_vec(s: &str) -> (v: Vec<char>)
    ensures
        v@ == s@,
{
    let n = s.unicode_len();
    let mut v: Vec<char> = Vec::new();
    let mut i: usize = 0;
    while i < n
        invariant
            i <= n,
            v@ == s@.subrange(0, i as int),
        decreases n - i,
    {
        v.push(s.get_char(i));
        i = i + 1;
        assert(v@ =~= s@.subrange(0, i as int));
    }
    assert(v@ =~= s@);
    v
}

/// A string made of the given characters.
#[verifier::loop_isolation(false)]
pub fn string_of_chars(v: &Vec<char>) -> (s: String)
    ensures
        s@ == v@,
{
    let mut s = String::new();
    let mut i: usize = 0;
    while i < v.len()
        invariant
            i <= v@.len(),
            s@ == v@.subrange(0, i as int),
        decreases v@.len() - i,
    {
        push_char(&mut s, v[i]);
        i = i + 1;
        assert(s@ =~= v@.subrange(0, i as int));
    }
    assert(s@ =~= v@);
    s
}

/// The decimal digits of `n`, most significant first; empty for zero.
pub open spec fn spec_dec(n: int) -> Seq<char>
    decreases n,
{
    if n <= 0 {
        Seq::empty()
    } else {
        spec_dec(n / 10).push(digit_char(n % 10))
    }
}

/// The decimal rendering of `n`: "0" for zero, no leading zeros otherwise.
pub open spec fn spec_dec_str(n: int) -> Seq<char> {
    if n == 0 {
        seq!['0']
    } else {
        spec_dec(n)
    }
}

pub open spec fn digit_char(d: int) -> char {
    if d == 0 { '0' }
    else if d == 1 { '1' }
    else if d == 2 { '2' }
    else if d == 3 { '3' }
    else if d == 4 { '4' }
    else if d == 5 { '5' }
    else if d == 6 { '6' }
    else if d == 7 { '7' }
    else if d == 8 { '8' }
    else { '9' }
}

fn digit_to_char(d: u64) -> (c: char)
    requires
        d < 10,
    ensures
        c == digit_char(d as int),
{
    if d == 0 { '0' }
    else if d == 1 { '1' }
    else if d == 2 { '2' }
    else if d == 3 { '3' }
    else if d == 4 { '4' }
    else if d == 5 { '5' }
    else if d == 6 { '6' }
    else if d == 7 { '7' }
    else if d == 8 { '8' }
    else { '9' }
}

/// The decimal rendering of an unsigned number.
#[verifier::loop_isolation(false)]
pub fn dec_string(n: u64) -> (s: String)
    ensures
        s@ == spec_dec_str(n as int),
{
    if n == 0 {
        proof {
            reveal_strlit("0");
        }
        let r = "0".to_owned();
        assert(r@ =~= seq!['0']);
        return r;
    }
    let mut digits: Vec<char> = Vec::new();
    let mut m: u64 = n;
    while m > 0
        invariant
            spec_dec(n as int) == spec_dec(m as int) + digits@.reverse(),
        decreases m,
    {
        let ghost pre = digits@;
        digits.push(digit_to_char(m % 10));
        assert(digits@.reverse() =~= seq![digit_char(m as int % 10)] + pre.reverse());
        assert(spec_dec(m as int) == spec_dec(m as int / 10).push(digit_char(m as int % 10)));
        assert(spec_dec(m as int / 10) + digits@.reverse() =~= spec_dec(m as int) + pre.reverse());
        m = m / 10;
    }
    let mut out: Vec<char> = Vec::new();
    let mut i: usize = digits.len();
    assert(digits@.reverse() =~= spec_dec(n as int));
    while i > 0
        invariant
            i <= digits@.len(),
            out@ == digits@.reverse().subrange(0, digits@.len() - i),
        decreases i,
    {
        i = i - 1;
        out.push(digits[i]);
        assert(digits@.reverse()[digits@.len() - i - 1] == digits@[i as int]);
        assert(out@ =~= digits@.reverse().subrange(0, digits@.len() - i));
    }
    assert(out@ =~= spec_dec(n as int));
    string_of_chars(&out)
}

/// `items` joined by `sep`, each item rendered in decimal.
pub open spec fn spec_join_dec(items: Seq<u16>, sep: char) -> Seq<char>
    decreases items.len(),
{
    if items.len() == 0 {
        Seq::empty()
    } else if items.len() == 1 {
        spec_dec_str(items[0] as int)
    } else {
        spec_join_dec(items.drop_last(), sep).push(sep) + spec_dec_str(items.last() as int)
    }
}

/// The port list joined by a separator, as handed to the firewall utilities.
#[verifier::loop_isolation(false)]
pub fn join_dec(items: &Vec<u16>, sep: char) -> (s: String)
    ensures
        s@ == spec_join_dec(items@, sep),
{
    let mut s = String::new();
    let mut i: usize = 0;
    while i < items.len()
        invariant
            i <= items@.len(),
            s@ == spec_join_dec(items@.subrange(0, i as int), sep),
        decreases items@.len() - i,
    {
        if i > 0 {
            push_char(&mut s, sep);
        }
        let d = dec_string(items[i] as u64);
        s.append(d.as_str());
        i = i + 1;
        proof {
            let pre = items@.subrange(0, i - 1);
            let cur = items@.subrange(0, i as int);
            assert(cur.drop_last() =~= pre);
            assert(cur.last() == items@[i - 1]);
            assert(cur[0] == items@[0]);
        }
    }
    assert(items@.subrange(0, items@.len() as int) =~= items@);
    s
}

/// The lines of a string: split at newlines, a carriage return directly
/// before a newline belongs to the line break, a final line break is
/// optional.
pub open spec fn spec_lines(s: Seq<char>) -> Seq<Seq<char>>
    decreases s.len(),
{
    if s.len() == 0 {
        Seq::empty()
    } else if s[0] == '\n' {
        seq![Seq::<char>::empty()] + spec_lines(s.drop_first())
    } else if s[0] == '\r' && s.len() >= 2 && s[1] == '\n' {
        seq![Seq::<char>::empty()] + spec_lines(s.subrange(2, s.len() as int))
    } else {
        prepend_first(s[0], spec_lines(s.drop_first()))
    }
}

pub open spec fn prepend_first(c: char, ls: Seq<Seq<char>>) -> Seq<Seq<char>> {
    if ls.len() == 0 {
        seq![seq![c]]
    } else {
        seq![seq![c] + ls[0]] + ls.drop_first()
    }
}

/// A trailing carriage return removed, as before a line break.
pub open spec fn strip_cr(s: Seq<char>) -> Seq<char> {
    if s.len() > 0 && s.last() == '\r' {
        s.drop_last()
    } else {
        s
    }
}

/// Splitting off the first line: everything before the first newline,
/// with a carriage return directly before that newline stripped.
proof fn lemma_lines_head(s: Seq<char>, k: int)
    requires
        0 <= k < s.len(),
        s[k] == '\n',
        forall|j: int| 0 <= j < k ==> s[j] != '\n',
    ensures
        spec_lines(s) =~= seq![strip_cr(s.subrange(0, k))] + spec_lines(
            s.subrange(k + 1, s.len() as int),
        ),
    decreases k,
{
    if k == 0 {
        assert(strip_cr(s.subrange(0, 0)) =~= Seq::<char>::empty());
        assert(s.subrange(1, s.len() as int) =~= s.drop_first());
    } else if s[0] == '\r' && s.len() >= 2 && s[1] == '\n' {
        // the break is "\r\n", so k == 1 and the first line is empty
        assert(k == 1);
        assert(strip_cr(s.subrange(0, 1)) =~= Seq::<char>::empty());
        assert(s.subrange(2, s.len() as int) =~= s.subrange(k + 1, s.len() as int));
    } else {
        let s1 = s.drop_first();
        assert(forall|j: int| 0 <= j < k - 1 ==> s1[j] == s[j + 1] && s[j + 1] != '\n');
        assert(s1[k - 1] == '\n');
        lemma_lines_head(s1, k - 1);
        let head1 = strip_cr(s1.subrange(0, k - 1));
        assert(spec_lines(s) == prepend_first(s[0], spec_lines(s1)));
        assert(spec_lines(s1)[0] == head1);
        assert(s1.subrange(k - 1 + 1, s1.len() as int) =~= s.subrange(k + 1, s.len() as int));
        // prepending the head character commutes with stripping the return
        assert(seq![s[0]] + head1 =~= strip_cr(s.subrange(0, k))) by {
            let seg = s.subrange(0, k);
            let seg1 = s1.subrange(0, k - 1);
            assert(seg.drop_first() =~= seg1);
            if seg.last() == '\r' {
                if k == 1 {
                    // seg == ['\r'] and s[1] == '\n': handled in the branch above
                    assert(s[0] == '\r' && s[1] == '\n');
                    assert(false);
                } else {
                    assert(seg1.len() > 0 && seg1.last() == '\r');
                    assert(seq![s[0]] + seg1.drop_last() =~= seg.drop_last());
                }
            } else {
                if seg1.len() > 0 {
                    assert(seg1.last() == seg.last());
                }
                assert(seq![s[0]] + seg1 =~= seg);
            }
        }
        assert(spec_lines(s)[0] == seq![s[0]] + head1);
        assert(spec_lines(s).drop_first() =~= spec_lines(s1).drop_first());
        assert(spec_lines(s1).drop_first() =~= spec_lines(
            s.subrange(k + 1, s.len() as int),
        ));
    }
}

/// A string without newlines is one single line, kept as it stands.
proof fn lemma_lines_single(s: Seq<char>)
    requires
        s.len() > 0,
        forall|j: int| 0 <= j < s.len() ==> s[j] != '\n',
    ensures
        spec_lines(s) =~= seq![s],
    decreases s.len(),
{
    let s1 = s.drop_first();
    if s1.len() == 0 {
        assert(spec_lines(s) == prepend_first(s[0], spec_lines(s1)));
        assert(s =~= seq![s[0]]);
        assert(spec_lines(s) =~= seq![seq![s[0]]]);
    } else {
        assert(forall|j: int| 0 <= j < s1.len() ==> s1[j] == s[j + 1] && s[j + 1] != '\n');
        lemma_lines_single(s1);
        assert(spec_lines(s) == prepend_first(s[0], spec_lines(s1)));
        assert(seq![s[0]] + s1 =~= s);
    }
}

/// Whether the characters `[lo, hi)` of `chars`, with a trailing return
/// stripped when asked for, equal `want`.
#[verifier::loop_isolation(false)]
fn segment_eq(chars: &Vec<char>, lo: usize, hi: usize, strip: bool, want: &Vec<char>) -> (r: bool)
    requires
        lo <= hi <= chars@.len(),
    ensures
        r == ((if strip {
            strip_cr(chars@.subrange(lo as int, hi as int))
        } else {
            chars@.subrange(lo as int, hi as int)
        }) == want@),
{
    let ghost seg = if strip {
        strip_cr(chars@.subrange(lo as int, hi as int))
    } else {
        chars@.subrange(lo as int, hi as int)
    };
    let end: usize = if strip && hi > lo && chars[hi - 1] == '\r' {
        hi - 1
    } else {
        hi
    };
    assert(seg =~= chars@.subrange(lo as int, end as int));
    if end - lo != want.len() {
        assert(seg.len() != want@.len());
        return false;
    }
    let mut i: usize = 0;
    while i < want.len()
        invariant
            i <= want@.len(),
            lo <= end <= chars@.len(),
            end - lo == want@.len(),
            forall|j: int| 0 <= j < i ==> seg[j] == want@[j],
        decreases want@.len() - i,
    {
        if chars[lo + i] != want[i] {
            assert(seg[i as int] != want@[i as int]);
            return false;
        }
        i = i + 1;
    }
    assert(seg =~= want@);
    true
}

#[verifier::loop_isolation(false)]
fn has_line_chars(chars: &Vec<char>, from: usize, want: &Vec<char>) -> (r: bool)
    requires
        from <= chars@.len(),
    ensures
        r == spec_lines(chars@.subrange(from as int, chars@.len() as int)).contains(want@),
    decreases chars@.len() - from,
{
    let ghost tail = chars@.subrange(from as int, chars@.len() as int);
    if from == chars.len() {
        assert(tail.len() == 0);
        assert(!spec_lines(tail).contains(want@));
        return false;
    }
    // find the next newline, if any
    let mut i: usize = from;
    while i < chars.len() && chars[i] != '\n'
        invariant
            from <= i <= chars@.len(),
            forall|j: int| from <= j < i ==> chars@[j] != '\n',
        decreases chars@.len() - i,
    {
        i = i + 1;
    }
    if i == chars.len() {
        // no newline: one final line, kept as it stands
        proof {
            assert(forall|k: int| 0 <= k < tail.len() ==> tail[k] == chars@[from + k]);
            lemma_lines_single(tail);
        }
        let r = segment_eq(chars, from, i, false, want);
        proof {
            assert(chars@.subrange(from as int, i as int) =~= tail);
            if r {
                assert(spec_lines(tail)[0] == want@);
            }
        }
        return r;
    }
    proof {
        assert(chars@[i as int] == '\n');
        assert(tail[i - from] == '\n');
        assert(forall|j: int| 0 <= j < i - from ==> tail[j] == chars@[from + j] && chars@[from + j]
            != '\n');
        lemma_lines_head(tail, i - from);
        assert(tail.subrange(0, i - from) =~= chars@.subrange(from as int, i as int));
        assert(tail.subrange(i - from + 1, tail.len() as int) =~= chars@.subrange(
            i + 1,
            chars@.len() as int,
        ));
    }
    let head_hit = segment_eq(chars, from, i, true, want);
    if head_hit {
        assert(spec_lines(tail)[0] == want@);
        return true;
    }
    let rest = has_line_chars(chars, i + 1, want);
    proof {
        let ls = spec_lines(tail);
        let rs = spec_lines(chars@.subrange(i + 1, chars@.len() as int));
        if rest {
            let k = choose|k: int| 0 <= k < rs.len() && rs[k] == want@;
            assert(ls[k + 1] == want@);
        } else {
            assert(forall|k: int| 0 <= k < ls.len() ==> ls[k] != want@) by {
                assert(ls[0] != want@);
                assert(forall|k: int| 1 <= k < ls.len() ==> ls[k] == rs[k - 1] && rs[k - 1]
                    != want@);
            }
        }
    }
    rest
}

/// Whether two strings hold the same characters.
#[verifier::loop_isolation(false)]
pub fn str_eq(a: &str, b: &str) -> (r: bool)
    ensures
        r == (a@ == b@),
{
    let na = a.unicode_len();
    let nb = b.unicode_len();
    if na != nb {
        return false;
    }
    let mut i: usize = 0;
    while i < na
        invariant
            i <= na,
            na == a@.len() == b@.len(),
            forall|j: int| 0 <= j < i ==> a@[j] == b@[j],
        decreases na - i,
    {
        if a.get_char(i) != b.get_char(i) {
            return false;
        }
        i = i + 1;
    }
    assert(a@ =~= b@);
    true
}

/// Whether any line of `listing` equals `wanted`: how the firewall
/// installers test the output of the listing commands.
pub fn has_line(listing: &str, wanted: &str) -> (r: bool)
    ensures
        r == spec_lines(listing@).contains(wanted@),
{
    let chars = chars_vec(listing);
    let want = chars_vec(wanted);
    assert(chars@.subrange(0, chars@.len() as int) =~= listing@);
    has_line_chars(&chars, 0, &want)
}

} // verus!
