//! Character-level helpers shared by the lexer and the keyword table.

use vstd::prelude::*;
use vstd::std_specs::iter::IteratorSpec;
use vstd::utf8::encode_utf8;

verus! {

/// Number of bytes in the UTF-8 encoding of a character.
pub open spec fn char_width(c: char) -> nat {
    let u = c as u32;
    if u < 0x80 {
        1
    } else if u < 0x800 {
        2
    } else if u < 0x10000 {
        3
    } else {
        4
    }
}

/// Byte offset, in the UTF-8 encoding of `s`, of the character at index `i`.
pub open spec fn byte_offset(s: Seq<char>, i: int) -> nat
    decreases i,
{
    if i <= 0 || s.len() == 0 {
        0
    } else if i > s.len() {
        byte_offset(s, s.len() as int)
    } else {
        byte_offset(s, i - 1) + char_width(s[i - 1])
    }
}

/// Length in bytes of the UTF-8 encoding of `s`.
pub open spec fn utf8_len(s: Seq<char>) -> nat {
    byte_offset(s, s.len() as int)
}

pub proof fn lemma_byte_offset_mono(s: Seq<char>, i: int, j: int)
    requires
        0 <= i <= j <= s.len(),
    ensures
        byte_offset(s, i) <= byte_offset(s, j),
    decreases j - i,
{
    if i < j {
        lemma_byte_offset_mono(s, i, j - 1);
    }
}

proof fn lemma_encode_utf8_append(a: Seq<char>, b: Seq<char>)
    ensures
        encode_utf8(a + b).len() == encode_utf8(a).len() + encode_utf8(b).len(),
    decreases a.len(),
{
    if a.len() > 0 {
        assert((a + b).drop_first() =~= a.drop_first() + b);
        lemma_encode_utf8_append(a.drop_first(), b);
    } else {
        assert(a + b =~= b);
    }
}

proof fn lemma_char_width_encode(c: char)
    ensures
        char_width(c) == vstd::utf8::encode_scalar(c as u32).len(),
{
    vstd::utf8::char_is_scalar(c);
}

/// Byte offsets are offsets into the UTF-8 encoding: the offset of the
/// character at index `i` is the length of the encoding of the characters
/// before it.
pub proof fn law_byte_offset_is_utf8(s: Seq<char>, i: int)
    requires
        0 <= i <= s.len(),
    ensures
        byte_offset(s, i) == encode_utf8(s.take(i)).len(),
    decreases i,
{
    if i > 0 {
        law_byte_offset_is_utf8(s, i - 1);
        assert(s.take(i) =~= s.take(i - 1) + seq![s[i - 1]]);
        lemma_encode_utf8_append(s.take(i - 1), seq![s[i - 1]]);
        let c = s[i - 1];
        assert(seq![c].drop_first() =~= Seq::<char>::empty());
        assert(encode_utf8(Seq::<char>::empty()) =~= Seq::<u8>::empty());
        assert(encode_utf8(seq![c]) =~= vstd::utf8::encode_scalar(c as u32) + encode_utf8(
            Seq::<char>::empty(),
        ));
        lemma_char_width_encode(c);
    } else {
        assert(s.take(0) =~= Seq::<char>::empty());
    }
}

/// The UTF-8 width of a character, computed from its scalar value.
pub fn width_of(c: char) -> (r: usize)
    ensures
        r == char_width(c),
        1 <= r <= 4,
{
    let u = c as u32;
    if u < 0x80 {
        1
    } else if u < 0x800 {
        2
    } else if u < 0x10000 {
        3
    } else {
        4
    }
}

/// The characters of a string, in order.
pub fn chars_of(s: &str) -> (v: Vec<char>)
    ensures
        v@ == s@,
{
    let mut v: Vec<char> = Vec::new();
    proof {
        broadcast use vstd::string::axiom_spec_iter;
    }
    for c in it: s.chars()
        invariant
            v@ == it.seq().take(it.index() as int),
            it.seq() == s@,
    {
        v.push(c);
    }
    v
}

/// Whether `v[start..end]` spells out the string `lit`.
pub fn spells(v: &Vec<char>, start: usize, end: usize, lit: &str) -> (r: bool)
    requires
        start <= end <= v.len(),
    ensures
        r == (v@.subrange(start as int, end as int) == lit@),
{
    let n = lit.unicode_len();
    if end - start != n {
        return false;
    }
    let mut i: usize = 0;
    while i < n
        invariant
            start <= end <= v.len(),
            end - start == n,
            n == lit@.len(),
            0 <= i <= n,
            forall|j: int| 0 <= j < i ==> v@[start + j] == lit@[j],
        decreases n - i,
    {
        if v[start + i] != lit.get_char(i) {
            assert(v@.subrange(start as int, end as int)[i as int] != lit@[i as int]);
            return false;
        }
        i = i + 1;
    }
    assert(v@.subrange(start as int, end as int) =~= lit@);
    true
}

} // verus!
