//! Character-level helpers: UTF-8 widths and conversions between `str` and
//! sequences of characters.
use vstd::prelude::*;

verus! {

/// Number of bytes that UTF-8 uses for `c`.
pub open spec fn utf8_len(c: char) -> nat {
    if (c as u32) < 0x80 {
        1
    } else if (c as u32) < 0x800 {
        2
    } else if (c as u32) < 0x10000 {
        3
    } else {
        4
    }
}

/// Number of bytes of the UTF-8 encoding of `s`.
pub open spec fn byte_len(s: Seq<char>) -> nat
    decreases s.len(),
{
    if s.len() == 0 {
        0
    } else {
        byte_len(s.drop_last()) + utf8_len(s.last())
    }
}

/// Byte offset at which character `k` of `s` starts.
pub open spec fn byte_offset(s: Seq<char>, k: int) -> nat {
    byte_len(s.take(k))
}

pub proof fn lemma_byte_len_step(s: Seq<char>, i: int)
    requires
        0 <= i < s.len(),
    ensures
        byte_offset(s, i + 1) == byte_offset(s, i) + utf8_len(s[i]),
{
    assert(s.take(i + 1).drop_last() =~= s.take(i));
}

pub proof fn lemma_byte_offset_mono(s: Seq<char>, i: int, j: int)
    requires
        0 <= i <= j <= s.len(),
    ensures
        byte_offset(s, i) <= byte_offset(s, j),
    decreases j - i,
{
    if i < j {
        lemma_byte_offset_mono(s, i, j - 1);
        lemma_byte_len_step(s, j - 1);
    }
}

pub proof fn lemma_byte_offset_total(s: Seq<char>, i: int)
    requires
        0 <= i <= s.len(),
    ensures
        byte_offset(s, i) <= byte_len(s),
{
    lemma_byte_offset_mono(s, i, s.len() as int);
    assert(s.take(s.len() as int) =~= s);
}

/// Distinct character positions start at distinct byte offsets.
pub proof fn lemma_byte_offset_injective(s: Seq<char>, i: int, j: int)
    requires
        0 <= i <= s.len(),
        0 <= j <= s.len(),
        byte_offset(s, i) == byte_offset(s, j),
    ensures
        i == j,
{
    if i < j {
        lemma_byte_len_step(s, i);
        lemma_byte_offset_mono(s, i + 1, j);
    } else if j < i {
        lemma_byte_len_step(s, j);
        lemma_byte_offset_mono(s, j + 1, i);
    }
}

/// Prefix byte offsets of `t`: entry `k` is where character `k` starts.
pub fn byte_offsets(t: &Vec<char>) -> (r: Vec<usize>)
    requires
        byte_len(t@) <= usize::MAX,
    ensures
        r@.len() == t@.len() + 1,
        forall|k: int| #![trigger r@[k]] 0 <= k <= t@.len() ==> r@[k] == byte_offset(t@, k),
{
    let mut r: Vec<usize> = Vec::new();
    let mut acc: usize = 0;
    let mut i: usize = 0;
    assert(t@.take(0) =~= Seq::<char>::empty());
    while i < t.len()
        invariant
            i <= t@.len(),
            byte_len(t@) <= usize::MAX,
            acc == byte_offset(t@, i as int),
            r@.len() == i,
            forall|k: int| #![trigger r@[k]] 0 <= k < i ==> r@[k] == byte_offset(t@, k),
        decreases t@.len() - i,
    {
        r.push(acc);
        proof {
            lemma_byte_len_step(t@, i as int);
            lemma_byte_offset_total(t@, i + 1);
        }
        acc = acc + char_len(t[i]);
        i = i + 1;
    }
    r.push(acc);
    r
}

/// Width in bytes of `c` in UTF-8 (the value `char::len_utf8` documents).
pub fn char_len(c: char) -> (r: usize)
    ensures
        r == utf8_len(c),
        1 <= r <= 4,
{
    let v = c as u32;
    if v < 0x80 {
        1
    } else if v < 0x800 {
        2
    } else if v < 0x10000 {
        3
    } else {
        4
    }
}

/// Relies on `str::chars`: the characters of `s` in order. A `str` is the
/// UTF-8 encoding of its characters, so its length is their encoded width,
/// and it holds at most `isize::MAX` bytes.
#[verifier::external_body]
pub(crate) fn chars_of(s: &str) -> (r: Vec<char>)
    ensures
        r@ == s@,
        byte_len(r@) == s.len(),
        byte_len(r@) <= isize::MAX,
{
    s.chars().collect()
}

/// Relies on `String::push`: appends `c`.
#[verifier::external_body]
pub(crate) fn push_char(s: &mut String, c: char)
    ensures
        final(s)@ == old(s)@.push(c),
{
    s.push(c)
}

/// The string made of the characters of `v`, in order.
pub fn string_of(v: &Vec<char>) -> (r: String)
    ensures
        r@ == v@,
{
    let mut r = String::new();
    let mut i: usize = 0;
    while i < v.len()
        invariant
            i <= v.len(),
            r@ == v@.take(i as int),
        decreases v.len() - i,
    {
        push_char(&mut r, v[i]);
        assert(v@.take(i as int + 1) =~= v@.take(i as int).push(v@[i as int]));
        i = i + 1;
    }
    assert(v@.take(v.len() as int) =~= v@);
    r
}

} // verus!
