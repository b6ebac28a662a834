//! Text as sequences of characters: what std's string methods compute, stated on views.
use vstd::prelude::*;
use crate::order;
use crate::order::Rel;

verus! {

/// `String::push` puts the character at the end.
pub assume_specification[ String::push ](s: &mut String, c: char)
    ensures
        final(s)@ == old(s)@.push(c),
;

/// The characters of a text.
pub fn chars(s: &str) -> (r: Vec<char>)
    ensures
        r@ == s@,
{
    let mut r: Vec<char> = Vec::new();
    for c in it: s.chars()
        invariant
            it.seq() == s@,
            r@ == s@.take(it.index()),
    {
        r.push(c);
    }
    r
}

/// The text made of the characters from `a` up to `b`.
pub fn text_of(v: &Vec<char>, a: usize, b: usize) -> (r: String)
    requires
        a <= b <= v.len(),
    ensures
        r@ == v@.subrange(a as int, b as int),
{
    let mut r: String = String::new();
    let mut i: usize = a;
    while i < b
        invariant
            a <= i <= b <= v.len(),
            r@ == v@.subrange(a as int, i as int),
        decreases b - i,
    {
        r.push(v[i]);
        i += 1;
        assert(v@.subrange(a as int, i as int) =~= v@.subrange(a as int, i - 1).push(v[i - 1]));
    }
    r
}

/// Whether two texts hold the same characters.
pub fn same(a: &str, b: &str) -> (r: bool)
    ensures
        r == (a@ == b@),
{
    a.to_owned() == b.to_owned()
}

/// The pieces of a text between the separators: one more than there are separators.
pub open spec fn split_on(s: Seq<char>, sep: char) -> Seq<Seq<char>>
    decreases s.len(),
{
    if s.len() == 0 {
        seq![Seq::empty()]
    } else {
        let front = split_on(s.drop_last(), sep);
        if s.last() == sep {
            front.push(Seq::empty())
        } else {
            front.drop_last().push(front.last().push(s.last()))
        }
    }
}

/// The characters with the Unicode property White_Space.
pub open spec fn white(c: char) -> bool {
    ||| 0x09 <= c as u32 <= 0x0d
    ||| c as u32 == 0x20
    ||| c as u32 == 0x85
    ||| c as u32 == 0xa0
    ||| c as u32 == 0x1680
    ||| 0x2000 <= c as u32 <= 0x200a
    ||| c as u32 == 0x2028
    ||| c as u32 == 0x2029
    ||| c as u32 == 0x202f
    ||| c as u32 == 0x205f
    ||| c as u32 == 0x3000
}

/// Whether `c` is white space.
pub fn is_white(c: char) -> (r: bool)
    ensures
        r == white(c),
{
    let u: u32 = c as u32;
    (0x09 <= u && u <= 0x0d) || u == 0x20 || u == 0x85 || u == 0xa0 || u == 0x1680 || (0x2000 <= u
        && u <= 0x200a) || u == 0x2028 || u == 0x2029 || u == 0x202f || u == 0x205f || u == 0x3000
}

/// A text that holds nothing but white space.
pub open spec fn blank(s: Seq<char>) -> bool {
    forall|i: int| 0 <= i < s.len() ==> white(#[trigger] s[i])
}

/// Whether a text holds nothing but white space.
pub fn is_blank(s: &str) -> (r: bool)
    ensures
        r == blank(s@),
{
    let v: Vec<char> = chars(s);
    let mut i: usize = 0;
    while i < v.len()
        invariant
            v@ == s@,
            i <= v.len(),
            forall|j: int| 0 <= j < i ==> white(#[trigger] v@[j]),
        decreases v.len() - i,
    {
        if !is_white(v[i]) {
            assert(!white(s@[i as int]));
            return false;
        }
        i += 1;
    }
    true
}

/// Whether `needle` stands in `hay` at place `i`.
pub open spec fn occurs_at(hay: Seq<char>, needle: Seq<char>, i: int) -> bool {
    0 <= i && i + needle.len() <= hay.len() && hay.subrange(i, i + needle.len()) == needle
}

/// Whether `needle` stands somewhere in `hay`.
pub open spec fn occurs(hay: Seq<char>, needle: Seq<char>) -> bool {
    exists|i: int| occurs_at(hay, needle, i)
}

/// Whether `needle` stands in `hay` at place `i`.
pub fn stands_at(hay: &Vec<char>, needle: &Vec<char>, i: usize) -> (r: bool)
    ensures
        r == occurs_at(hay@, needle@, i as int),
{
    if i > hay.len() || needle.len() > hay.len() - i {
        return false;
    }
    let mut k: usize = 0;
    while k < needle.len()
        invariant
            k <= needle.len(),
            i + needle.len() <= hay.len(),
            forall|j: int| 0 <= j < k ==> hay@[i + j] == #[trigger] needle@[j],
        decreases needle.len() - k,
    {
        if hay[i + k] != needle[k] {
            proof {
                if occurs_at(hay@, needle@, i as int) {
                    assert(hay@.subrange(i as int, i + needle.len())[k as int] == needle@[k as int]);
                }
            }
            return false;
        }
        k += 1;
    }
    assert(hay@.subrange(i as int, i + needle.len()) =~= needle@);
    true
}

/// The first place at or after `from` where `needle` stands in `hay`.
pub open spec fn seek(hay: Seq<char>, needle: Seq<char>, from: int) -> Option<int>
    decreases hay.len() - from + 1,
{
    if from < 0 || from + needle.len() > hay.len() {
        None
    } else if occurs_at(hay, needle, from) {
        Some(from)
    } else {
        seek(hay, needle, from + 1)
    }
}

/// The first place is one where `needle` stands, and it stands nowhere between `from` and it.
pub proof fn lemma_seek(hay: Seq<char>, needle: Seq<char>, from: int)
    requires
        0 <= from,
    ensures
        match seek(hay, needle, from) {
            Some(i) => from <= i && occurs_at(hay, needle, i) && forall|j: int|
                from <= j < i ==> !occurs_at(hay, needle, j),
            None => forall|j: int| from <= j ==> !occurs_at(hay, needle, j),
        },
    decreases hay.len() - from + 1,
{
    if from + needle.len() <= hay.len() && !occurs_at(hay, needle, from) {
        lemma_seek(hay, needle, from + 1);
        assert forall|j: int|
            from <= j && (seek(hay, needle, from) matches Some(i) ==> j
                < i) implies !occurs_at(hay, needle, j) by {
            if j > from {
                assert(from + 1 <= j);
            }
        }
    }
}

/// The first place at or after `from` where `needle` stands in `hay`.
pub fn find(hay: &Vec<char>, needle: &Vec<char>, from: usize) -> (r: Option<usize>)
    ensures
        match r {
            Some(i) => seek(hay@, needle@, from as int) == Some(i as int) && from <= i && i
                + needle.len() <= hay.len(),
            None => seek(hay@, needle@, from as int) is None,
        },
{
    let mut i: usize = from;
    while i <= hay.len() && needle.len() <= hay.len() - i
        invariant
            from <= i,
            seek(hay@, needle@, from as int) == seek(hay@, needle@, i as int),
        decreases hay.len() - i + 1,
    {
        if stands_at(hay, needle, i) {
            return Some(i);
        }
        if i == hay.len() {
            assert(seek(hay@, needle@, i + 1) is None);
            return None;
        }
        i += 1;
    }
    None
}

/// Whether `needle` stands somewhere in `hay`.
pub fn contains(hay: &str, needle: &str) -> (r: bool)
    ensures
        r == occurs(hay@, needle@),
{
    proof {
        lemma_seek(hay@, needle@, 0);
    }
    find(&chars(hay), &chars(needle), 0).is_some()
}

pub open spec fn ascii_upper_char(c: char) -> char {
    if 'a' <= c <= 'z' {
        (c as u8 - 32) as char
    } else {
        c
    }
}

pub open spec fn ascii_lower_char(c: char) -> char {
    if 'A' <= c <= 'Z' {
        (c as u8 + 32) as char
    } else {
        c
    }
}

/// `s` with ASCII letters in upper case.
pub open spec fn ascii_upper(s: Seq<char>) -> Seq<char> {
    s.map_values(|c: char| ascii_upper_char(c))
}

/// `s` with ASCII letters in lower case.
pub open spec fn ascii_lower(s: Seq<char>) -> Seq<char> {
    s.map_values(|c: char| ascii_lower_char(c))
}

pub fn upper_char(c: char) -> (r: char)
    ensures
        r == ascii_upper_char(c),
{
    if 'a' <= c && c <= 'z' {
        (c as u8 - 32) as char
    } else {
        c
    }
}

pub fn lower_char(c: char) -> (r: char)
    ensures
        r == ascii_lower_char(c),
{
    if 'A' <= c && c <= 'Z' {
        (c as u8 + 32) as char
    } else {
        c
    }
}

pub fn to_upper(s: &str) -> (r: String)
    ensures
        r@ == ascii_upper(s@),
{
    let mut r: String = String::new();
    for c in it: s.chars()
        invariant
            it.seq() == s@,
            r@ == ascii_upper(s@.take(it.index())),
    {
        proof {
            assert(s@.take(it.index() + 1) =~= s@.take(it.index()).push(c));
        }
        r.push(upper_char(c));
        proof {
            assert(r@ =~= ascii_upper(s@.take(it.index() + 1)));
        }
    }
    proof {
        assert(s@.take(s@.len() as int) =~= s@);
    }
    r
}

pub fn to_lower(s: &str) -> (r: String)
    ensures
        r@ == ascii_lower(s@),
{
    let mut r: String = String::new();
    for c in it: s.chars()
        invariant
            it.seq() == s@,
            r@ == ascii_lower(s@.take(it.index())),
    {
        proof {
            assert(s@.take(it.index() + 1) =~= s@.take(it.index()).push(c));
        }
        r.push(lower_char(c));
        proof {
            assert(r@ =~= ascii_lower(s@.take(it.index() + 1)));
        }
    }
    proof {
        assert(s@.take(s@.len() as int) =~= s@);
    }
    r
}

/// One text behind the other.
pub fn join(a: &str, b: &str) -> (r: String)
    ensures
        r@ == a@ + b@,
{
    let mut r: String = a.to_owned();
    r.append(b);
    r
}

/// Whether `s` is there and holds `t`.
pub fn is_text(s: &Option<String>, t: &str) -> (r: bool)
    ensures
        r == (s.deep_view() == Some(t@)),
{
    match s {
        Some(x) => same(x.as_str(), t),
        None => false,
    }
}

pub open spec fn digit_char(d: nat) -> char {
    ('0' as nat + d) as char
}

/// A name within a directory.
pub open spec fn within(dir: Seq<char>, name: Seq<char>) -> Seq<char> {
    if dir.len() == 0 {
        name
    } else if dir.last() == '/' {
        dir + name
    } else {
        dir + "/"@ + name
    }
}

/// A name within a directory.
pub fn path_within(dir: &str, name: &str) -> (r: String)
    ensures
        r@ == within(dir@, name@),
{
    let cs: Vec<char> = chars(dir);
    if cs.len() == 0 {
        return name.to_owned();
    }
    if cs[cs.len() - 1] == '/' {
        join(dir, name)
    } else {
        let head = join(dir, "/");
        join(head.as_str(), name)
    }
}

/// A number in decimal digits.
pub open spec fn decimal(n: nat) -> Seq<char>
    decreases n,
{
    if n < 10 {
        seq![digit_char(n)]
    } else {
        decimal(n / 10).push(digit_char(n % 10))
    }
}

/// A number in decimal digits.
pub fn show(n: u64) -> (r: String)
    ensures
        r@ == decimal(n as nat),
    decreases n,
{
    let d: u8 = (n % 10) as u8;
    let c: char = (48u8 + d) as char;
    if n < 10 {
        let mut r: String = String::new();
        r.push(c);
        assert(r@ =~= seq![digit_char(n as nat)]);
        r
    } else {
        let mut r: String = show(n / 10);
        r.push(c);
        r
    }
}

/// The sort key of a text: a one before every character's code and a zero at the end, so
/// that a text comes before every longer text that starts with it.
pub open spec fn text_key(s: Seq<char>) -> Seq<int>
    decreases s.len(),
{
    if s.len() == 0 {
        seq![0int]
    } else {
        seq![1int, s[0] as int] + text_key(s.drop_first())
    }
}

proof fn lemma_code_pair(a: int, b: int)
    ensures
        a != b ==> order::apart(seq![1int, a], seq![1int, b]),
        order::lex_lt(seq![1int, a], seq![1int, b]) == (a < b),
{
    let p = seq![1int, a];
    let q = seq![1int, b];
    assert(p.drop_first() =~= seq![a]);
    assert(q.drop_first() =~= seq![b]);
    assert(seq![a][0] == a && seq![b][0] == b);
    if a != b {
        assert(order::apart(seq![a], seq![b]));
        assert(order::lex_lt(seq![a], seq![b]) == (a < b));
    } else {
        order::lemma_lex_total(p, q);
    }
}

/// Different texts have keys of which neither starts with the other.
pub proof fn lemma_text_key_apart(a: Seq<char>, b: Seq<char>)
    ensures
        a == b || order::apart(text_key(a), text_key(b)),
        (text_key(a) == text_key(b)) == (a == b),
    decreases a.len(),
{
    if a.len() == 0 || b.len() == 0 {
        if a.len() == 0 && b.len() == 0 {
            assert(a =~= b);
        } else if a.len() == 0 {
            assert(text_key(a)[0] == 0);
            assert(text_key(b)[0] == 1);
        } else {
            assert(text_key(b)[0] == 0);
            assert(text_key(a)[0] == 1);
        }
    } else {
        let p = seq![1int, a[0] as int];
        let q = seq![1int, b[0] as int];
        lemma_text_key_apart(a.drop_first(), b.drop_first());
        lemma_code_pair(a[0] as int, b[0] as int);
        order::lemma_rel_pair(p, q, text_key(a.drop_first()), text_key(b.drop_first()));
        if p == q {
            assert(p[1] == q[1]);
            if a.drop_first() == b.drop_first() {
                assert(a =~= seq![a[0]] + a.drop_first());
                assert(b =~= seq![b[0]] + b.drop_first());
            }
        } else {
            order::lemma_lex_apart(p, q, text_key(a.drop_first()), text_key(b.drop_first()));
        }
    }
}

/// The order of two texts, character by character.
pub fn rel_text(a: &str, b: &str) -> (r: Rel)
    ensures
        r == order::rel_of(text_key(a@), text_key(b@)),
{
    let x: Vec<char> = chars(a);
    let y: Vec<char> = chars(b);
    let mut i: usize = 0;
    assert(x@.skip(0) =~= x@);
    assert(y@.skip(0) =~= y@);
    while i < x.len() && i < y.len()
        invariant
            x@ == a@,
            y@ == b@,
            i <= x.len(),
            i <= y.len(),
            order::rel_of(text_key(x@), text_key(y@)) == order::rel_of(
                text_key(x@.skip(i as int)),
                text_key(y@.skip(i as int)),
            ),
        decreases x.len() - i,
    {
        proof {
            let s = x@.skip(i as int);
            let t = y@.skip(i as int);
            assert(s.drop_first() =~= x@.skip(i + 1));
            assert(t.drop_first() =~= y@.skip(i + 1));
            assert(s[0] == x[i as int]);
            assert(t[0] == y[i as int]);
            let p = seq![1int, s[0] as int];
            let q = seq![1int, t[0] as int];
            lemma_code_pair(s[0] as int, t[0] as int);
            order::lemma_rel_pair(p, q, text_key(s.drop_first()), text_key(t.drop_first()));
            if s[0] != t[0] {
                assert(p[1] != q[1]);
            }
        }
        if x[i] != y[i] {
            return if x[i] < y[i] {
                Rel::Less
            } else {
                Rel::Greater
            };
        }
        i += 1;
    }
    proof {
        let s = x@.skip(i as int);
        let t = y@.skip(i as int);
        lemma_text_key_apart(s, t);
        if s.len() > 0 {
            assert(text_key(s)[0] == 1);
        }
        if t.len() > 0 {
            assert(text_key(t)[0] == 1);
        }
        if s.len() == 0 && t.len() == 0 {
            assert(s =~= t);
            order::lemma_lex_total(text_key(s), text_key(t));
        }
    }
    if i < y.len() {
        Rel::Less
    } else if i < x.len() {
        Rel::Greater
    } else {
        Rel::Equal
    }
}

} // verus!
