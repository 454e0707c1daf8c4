//! Strings as sequences of characters: the few operations the engine needs,
//! each stated over `Seq<char>`.
use vstd::prelude::*;
use vstd::string::*;
use vstd::utf8::*;

verus! {

/// `String::push` appends one character.
pub assume_specification[ String::push ](s: &mut String, ch: char)
    ensures
        final(s)@ == old(s)@.push(ch),
;

/// The characters of a string.
pub fn chars_of(s: &str) -> (r: Vec<char>)
    ensures
        r@ == s@,
{
    let mut out: Vec<char> = Vec::new();
    for c in it: s.chars()
        invariant
            it.seq() == s@,
            out@ == s@.take(it.index()),
    {
        proof {
            assert(s@.take(it.index() + 1) =~= s@.take(it.index()).push(s@[it.index()]));
        }
        out.push(c);
    }
    proof {
        assert(s@.take(s@.len() as int) =~= s@);
    }
    out
}

/// Whether two strings hold the same characters.
pub fn same_text(a: &str, b: &str) -> (r: bool)
    ensures
        r == (a@ == b@),
{
    let x = a.as_bytes();
    let y = b.as_bytes();
    proof {
        encode_utf8_decode_utf8(a@);
        encode_utf8_decode_utf8(b@);
    }
    if x.len() != y.len() {
        return false;
    }
    let mut i: usize = 0;
    while i < x.len()
        invariant
            x@ == a.spec_bytes(),
            y@ == b.spec_bytes(),
            x@.len() == y@.len(),
            i <= x@.len(),
            x@.take(i as int) == y@.take(i as int),
        decreases x@.len() - i,
    {
        if x[i] != y[i] {
            return false;
        }
        proof {
            assert(x@.take(i + 1) =~= x@.take(i as int).push(x@[i as int]));
            assert(y@.take(i + 1) =~= y@.take(i as int).push(y@[i as int]));
        }
        i = i + 1;
    }
    proof {
        assert(x@ =~= x@.take(i as int));
        assert(y@ =~= y@.take(i as int));
    }
    true
}

/// The string of the characters `[from, to)`.
pub fn text_between(cs: &[char], from: usize, to: usize) -> (r: String)
    requires
        from <= to <= cs@.len(),
    ensures
        r@ == cs@.subrange(from as int, to as int),
{
    let mut out = String::new();
    let mut i: usize = from;
    while i < to
        invariant
            from <= i <= to <= cs@.len(),
            out@ == cs@.subrange(from as int, i as int),
        decreases to - i,
    {
        proof {
            assert(cs@.subrange(from as int, i + 1) =~= cs@.subrange(from as int, i as int).push(cs@[i as int]));
        }
        out.push(cs[i]);
        i = i + 1;
    }
    out
}

/// Whether `needle` stands in `cs` at position `at`.
pub open spec fn stands_at(cs: Seq<char>, at: int, needle: Seq<char>) -> bool {
    &&& 0 <= at
    &&& at + needle.len() <= cs.len()
    &&& cs.subrange(at, at + needle.len()) == needle
}

/// Whether a text stands anywhere in another.
pub open spec fn holds(cs: Seq<char>, needle: Seq<char>) -> bool {
    exists|at: int| #[trigger] stands_at(cs, at, needle)
}

pub fn is_at(cs: &[char], at: usize, needle: &[char]) -> (r: bool)
    requires
        at <= cs@.len(),
    ensures
        r == stands_at(cs@, at as int, needle@),
{
    let len: usize = cs.len();
    if needle.len() > len - at {
        return false;
    }
    let mut i: usize = 0;
    while i < needle.len()
        invariant
            len == cs@.len(),
            at + needle@.len() <= len,
            i <= needle@.len(),
            forall|k: int| 0 <= k < i ==> cs@[at + k] == needle@[k],
        decreases needle@.len() - i,
    {
        if cs[at + i] != needle[i] {
            proof {
                assert(cs@.subrange(at as int, at + needle@.len())[i as int] != needle@[i as int]);
            }
            return false;
        }
        i = i + 1;
    }
    proof {
        assert(cs@.subrange(at as int, at + needle@.len()) =~= needle@);
    }
    true
}

pub open spec fn has_prefix(s: Seq<char>, p: Seq<char>) -> bool {
    stands_at(s, 0, p)
}

pub open spec fn has_suffix(s: Seq<char>, p: Seq<char>) -> bool {
    stands_at(s, s.len() - p.len(), p)
}

pub fn starts_with(s: &str, p: &str) -> (r: bool)
    ensures
        r == has_prefix(s@, p@),
{
    let cs = chars_of(s);
    let ps = chars_of(p);
    is_at(cs.as_slice(), 0, ps.as_slice())
}

pub fn ends_with(s: &str, p: &str) -> (r: bool)
    ensures
        r == has_suffix(s@, p@),
{
    let cs = chars_of(s);
    let ps = chars_of(p);
    if ps.len() > cs.len() {
        return false;
    }
    is_at(cs.as_slice(), cs.len() - ps.len(), ps.as_slice())
}

/// `s` without the suffix `p`, or `s` itself.
pub open spec fn without_suffix(s: Seq<char>, p: Seq<char>) -> Seq<char> {
    if has_suffix(s, p) {
        s.take(s.len() - p.len())
    } else {
        s
    }
}

pub fn strip_suffix(s: &str, p: &str) -> (r: String)
    ensures
        r@ == without_suffix(s@, p@),
{
    if ends_with(s, p) {
        let cs = chars_of(s);
        let ps = chars_of(p);
        let end: usize = cs.len() - ps.len();
        proof {
            assert(s@.take(end as int) =~= s@.subrange(0, end as int));
        }
        text_between(cs.as_slice(), 0, end)
    } else {
        s.to_owned()
    }
}

/// One string after the other.
pub fn joined(a: &str, b: &str) -> (r: String)
    ensures
        r@ == a@ + b@,
{
    let mut s = a.to_owned();
    s.append(b);
    s
}

// --- numbers ---------------------------------------------------------------------

pub open spec fn digit(d: nat) -> char {
    if d == 0 {
        '0'
    } else if d == 1 {
        '1'
    } else if d == 2 {
        '2'
    } else if d == 3 {
        '3'
    } else if d == 4 {
        '4'
    } else if d == 5 {
        '5'
    } else if d == 6 {
        '6'
    } else if d == 7 {
        '7'
    } else if d == 8 {
        '8'
    } else if d == 9 {
        '9'
    } else if d == 10 {
        'A'
    } else if d == 11 {
        'B'
    } else if d == 12 {
        'C'
    } else if d == 13 {
        'D'
    } else if d == 14 {
        'E'
    } else {
        'F'
    }
}

pub fn digit_char(d: u64) -> (r: char)
    ensures
        r == digit(d as nat),
{
    if d == 0 {
        '0'
    } else if d == 1 {
        '1'
    } else if d == 2 {
        '2'
    } else if d == 3 {
        '3'
    } else if d == 4 {
        '4'
    } else if d == 5 {
        '5'
    } else if d == 6 {
        '6'
    } else if d == 7 {
        '7'
    } else if d == 8 {
        '8'
    } else if d == 9 {
        '9'
    } else if d == 10 {
        'A'
    } else if d == 11 {
        'B'
    } else if d == 12 {
        'C'
    } else if d == 13 {
        'D'
    } else if d == 14 {
        'E'
    } else {
        'F'
    }
}

/// A number in decimal.
pub open spec fn decimal_text(n: nat) -> Seq<char>
    decreases n,
{
    if n < 10 {
        seq![digit(n)]
    } else {
        decimal_text(n / 10).push(digit(n % 10))
    }
}

pub fn decimal(n: u64) -> (r: String)
    ensures
        r@ == decimal_text(n as nat),
    decreases n,
{
    if n < 10 {
        let mut s = String::new();
        s.push(digit_char(n));
        proof {
            assert(s@ =~= seq![digit(n as nat)]);
        }
        s
    } else {
        let mut s = decimal(n / 10);
        s.push(digit_char(n % 10));
        s
    }
}

// --- whitespace --------------------------------------------------------------------

/// Characters with Unicode's White_Space property.
pub open spec fn is_space(c: char) -> bool {
    let u = c as u32;
    ||| 0x9 <= u <= 0xd
    ||| u == 0x20
    ||| u == 0x85
    ||| u == 0xa0
    ||| u == 0x1680
    ||| 0x2000 <= u <= 0x200a
    ||| u == 0x2028
    ||| u == 0x2029
    ||| u == 0x202f
    ||| u == 0x205f
    ||| u == 0x3000
}

fn is_space_char(c: char) -> (r: bool)
    ensures
        r == is_space(c),
{
    let u: u32 = c as u32;
    (0x9 <= u && u <= 0xd) || u == 0x20 || u == 0x85 || u == 0xa0 || u == 0x1680 || (0x2000 <= u && u <= 0x200a)
        || u == 0x2028 || u == 0x2029 || u == 0x202f || u == 0x205f || u == 0x3000
}

/// `s` without the whitespace around it.
pub open spec fn trimmed(s: Seq<char>) -> Seq<char>
    decreases s.len(),
{
    if s.len() > 0 && is_space(s[0]) {
        trimmed(s.drop_first())
    } else if s.len() > 0 && is_space(s.last()) {
        trimmed(s.drop_last())
    } else {
        s
    }
}

pub fn trim(s: &str) -> (r: String)
    ensures
        r@ == trimmed(s@),
{
    let cs = chars_of(s);
    let mut from: usize = 0;
    let mut to: usize = cs.len();
    proof {
        assert(cs@.subrange(0, to as int) =~= cs@);
    }
    while from < to && is_space_char(cs[from])
        invariant
            from <= to == cs@.len(),
            trimmed(cs@.subrange(from as int, to as int)) == trimmed(s@),
        decreases to - from,
    {
        proof {
            assert(cs@.subrange(from as int, to as int).drop_first() =~= cs@.subrange(from + 1, to as int));
        }
        from = from + 1;
    }
    while from < to && is_space_char(cs[to - 1])
        invariant
            from <= to <= cs@.len(),
            from < cs@.len() ==> !is_space(cs@[from as int]),
            trimmed(cs@.subrange(from as int, to as int)) == trimmed(s@),
        decreases to - from,
    {
        proof {
            assert(cs@.subrange(from as int, to as int).drop_last() =~= cs@.subrange(from as int, to - 1));
        }
        to = to - 1;
    }
    text_between(cs.as_slice(), from, to)
}

/// Order of texts: by the first character that differs, a start before what it
/// starts.
pub open spec fn comes_before(a: Seq<char>, b: Seq<char>) -> bool
    decreases a.len(),
{
    if b.len() == 0 {
        false
    } else if a.len() == 0 {
        true
    } else if a[0] != b[0] {
        a[0] < b[0]
    } else {
        comes_before(a.drop_first(), b.drop_first())
    }
}

/// Of three texts in order the first comes before the last.
pub proof fn order_carries_over(a: Seq<char>, b: Seq<char>, c: Seq<char>)
    requires
        comes_before(a, b),
        comes_before(b, c),
    ensures
        comes_before(a, c),
    decreases a.len(),
{
    if a.len() > 0 && a[0] == b[0] && b[0] == c[0] {
        order_carries_over(a.drop_first(), b.drop_first(), c.drop_first());
    }
}

/// Of two texts one comes before the other, but for equals.
pub proof fn order_decides(a: Seq<char>, b: Seq<char>)
    ensures
        a == b ==> !comes_before(a, b),
        a != b ==> comes_before(a, b) || comes_before(b, a),
        !(comes_before(a, b) && comes_before(b, a)),
    decreases a.len(),
{
    if a.len() > 0 && b.len() > 0 && a[0] == b[0] {
        order_decides(a.drop_first(), b.drop_first());
        if a.drop_first() == b.drop_first() {
            assert(a =~= seq![a[0]] + a.drop_first());
            assert(b =~= seq![b[0]] + b.drop_first());
        }
    } else if a.len() == 0 && b.len() == 0 {
        assert(a =~= b);
    }
}

pub fn is_before(a: &str, b: &str) -> (r: bool)
    ensures
        r == comes_before(a@, b@),
{
    let x = chars_of(a);
    let y = chars_of(b);
    let (m, n): (usize, usize) = (x.len(), y.len());
    let mut i: usize = 0;
    proof {
        assert(x@.skip(0) =~= x@);
        assert(y@.skip(0) =~= y@);
    }
    while i < m && i < n
        invariant
            m == x@.len(),
            n == y@.len(),
            x@ == a@,
            y@ == b@,
            i <= m,
            i <= n,
            comes_before(a@, b@) == comes_before(x@.skip(i as int), y@.skip(i as int)),
        decreases m - i,
    {
        proof {
            assert(x@.skip(i as int).drop_first() =~= x@.skip(i + 1));
            assert(y@.skip(i as int).drop_first() =~= y@.skip(i + 1));
        }
        if x[i] != y[i] {
            return x[i] < y[i];
        }
        i = i + 1;
    }
    m < n
}

} // verus!
