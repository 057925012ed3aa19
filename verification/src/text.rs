//! Text as sequences of characters: conversion, and the order in which
//! strings are sorted.

use vstd::prelude::*;

verus! {

/// Outcome of comparing two values under a strict total order.
#[derive(Clone, Copy, Debug, PartialEq, Eq)]
pub enum Order {
    Before,
    Same,
    After,
}

/// `a` and `b` agree on their first `k` characters, and at position `k` the
/// text `a` ends or holds the smaller character.
pub open spec fn parts_at(a: Seq<char>, b: Seq<char>, k: int) -> bool {
    &&& 0 <= k <= a.len()
    &&& k < b.len()
    &&& forall|j: int| 0 <= j < k ==> a[j] == b[j]
    &&& k < a.len() ==> (a[k] as int) < (b[k] as int)
}

/// Lexicographic order by code point: the order of `String` in std.
pub open spec fn text_lt(a: Seq<char>, b: Seq<char>) -> bool {
    exists|k: int| parts_at(a, b, k)
}

/// No text comes before itself.
pub proof fn lemma_text_lt_irreflexive(a: Seq<char>)
    ensures
        !text_lt(a, a),
{
}

/// The order is transitive.
pub proof fn lemma_text_lt_transitive(a: Seq<char>, b: Seq<char>, c: Seq<char>)
    requires
        text_lt(a, b),
        text_lt(b, c),
    ensures
        text_lt(a, c),
{
    let k1 = choose|k: int| parts_at(a, b, k);
    let k2 = choose|k: int| parts_at(b, c, k);
    let k = if k1 <= k2 { k1 } else { k2 };
    assert(parts_at(a, c, k));
}

/// Two texts that agree on their first `k` characters are equal, or one
/// comes before the other.
proof fn lemma_text_compare_from(a: Seq<char>, b: Seq<char>, k: int)
    requires
        0 <= k <= a.len(),
        k <= b.len(),
        forall|j: int| 0 <= j < k ==> a[j] == b[j],
    ensures
        a == b || text_lt(a, b) || text_lt(b, a),
    decreases a.len() - k,
{
    if k == a.len() || k == b.len() {
        if k < b.len() {
            assert(parts_at(a, b, k));
        } else if k < a.len() {
            assert(parts_at(b, a, k));
        } else {
            assert(a =~= b);
        }
    } else if a[k] == b[k] {
        lemma_text_compare_from(a, b, k + 1);
    } else if (a[k] as int) < (b[k] as int) {
        assert(parts_at(a, b, k));
    } else {
        assert(parts_at(b, a, k));
    }
}

/// Two texts are equal, or one comes before the other.
pub proof fn lemma_text_lt_total(a: Seq<char>, b: Seq<char>)
    ensures
        a == b || text_lt(a, b) || text_lt(b, a),
{
    lemma_text_compare_from(a, b, 0);
}

/// Of two texts one comes first, or they are equal: never two of the three.
pub proof fn lemma_text_lt_asymmetric(a: Seq<char>, b: Seq<char>)
    requires
        text_lt(a, b),
    ensures
        !text_lt(b, a),
        a != b,
{
    if text_lt(b, a) {
        lemma_text_lt_transitive(a, b, a);
        lemma_text_lt_irreflexive(a);
    }
    if a == b {
        lemma_text_lt_irreflexive(a);
    }
}

/// The characters of a string, in order.
pub fn chars_of(s: &str) -> (v: Vec<char>)
    ensures
        v@ == s@,
{
    let mut v: Vec<char> = Vec::new();
    for c in it: s.chars()
        invariant
            it.seq() == s@,
            v@ =~= s@.take(it.index() as int),
    {
        v.push(c);
    }
    assert(s@.take(s@.len() as int) =~= s@);
    v
}

/// Whether the pattern `\w` of the `regex` crate, a word character, matches
/// the character.
pub uninterp spec fn regex_word(c: char) -> bool;

/// `regex::Regex::is_match`, of the pattern `^\w$` and the text that holds
/// the one character `c`.
#[verifier::external_body]
fn matches_word(c: char) -> (r: bool)
    ensures
        r == regex_word(c),
{
    match regex::Regex::new(r"^\w$") {
        Ok(word) => word.is_match(c.encode_utf8(&mut [0; 4])),
        Err(_) => false,
    }
}

/// A word character: an ASCII letter or digit, the underscore, or a
/// character beyond ASCII that the `regex` crate counts as one.
pub open spec fn is_word_char(c: char) -> bool {
    let n = c as int;
    ||| 0x30 <= n <= 0x39
    ||| 0x41 <= n <= 0x5a
    ||| 0x61 <= n <= 0x7a
    ||| c == '_'
    ||| 0x80 <= n && regex_word(c)
}

/// Whether the character is a word character.
pub fn word_char(c: char) -> (r: bool)
    ensures
        r == is_word_char(c),
{
    let n: u32 = c as u32;
    if n < 0x80 {
        ('0' <= c && c <= '9') || ('A' <= c && c <= 'Z') || ('a' <= c && c <= 'z') || c == '_'
    } else {
        matches_word(c)
    }
}

/// `String::push`: the character is added at the end.
pub assume_specification[ String::push ](text: &mut String, c: char)
    ensures
        final(text)@ == old(text)@.push(c),
;

/// The string of the characters of `chars` from `from` up to `to`.
pub fn text_of(chars: &[char], from: usize, to: usize) -> (text: String)
    requires
        from <= to <= chars.len(),
    ensures
        text@ == chars@.subrange(from as int, to as int),
{
    let mut text = String::new();
    let mut i: usize = from;
    while i < to
        invariant
            from <= i <= to <= chars.len(),
            text@ == chars@.subrange(from as int, i as int),
        decreases to - i,
    {
        text.push(chars[i]);
        assert(chars@.subrange(from as int, i + 1) =~= chars@.subrange(from as int, i as int).push(
            chars@[i as int],
        ));
        i += 1;
    }
    text
}

/// Compares two sequences of characters in lexicographic order.
pub fn order_chars(a: &[char], b: &[char]) -> (r: Order)
    ensures
        r == Order::Before <==> text_lt(a@, b@),
        r == Order::Same <==> a@ == b@,
        r == Order::After <==> text_lt(b@, a@),
{
    let mut i: usize = 0;
    while i < a.len() && i < b.len()
        invariant
            i <= a.len(),
            i <= b.len(),
            forall|j: int| 0 <= j < i ==> a@[j] == b@[j],
        decreases a.len() - i,
    {
        let x: char = a[i];
        let y: char = b[i];
        if x < y {
            proof {
                assert(parts_at(a@, b@, i as int));
                lemma_text_lt_asymmetric(a@, b@);
            }
            return Order::Before;
        }
        if y < x {
            proof {
                assert(parts_at(b@, a@, i as int));
                lemma_text_lt_asymmetric(b@, a@);
            }
            return Order::After;
        }
        i += 1;
    }
    if i < b.len() {
        proof {
            assert(parts_at(a@, b@, i as int));
            lemma_text_lt_asymmetric(a@, b@);
        }
        Order::Before
    } else if i < a.len() {
        proof {
            assert(parts_at(b@, a@, i as int));
            lemma_text_lt_asymmetric(b@, a@);
        }
        Order::After
    } else {
        proof {
            assert(a@ =~= b@);
            lemma_text_lt_irreflexive(a@);
        }
        Order::Same
    }
}

/// Compares two strings as std orders them.
pub fn order_text(a: &str, b: &str) -> (r: Order)
    ensures
        r == Order::Before <==> text_lt(a@, b@),
        r == Order::Same <==> a@ == b@,
        r == Order::After <==> text_lt(b@, a@),
{
    let x = chars_of(a);
    let y = chars_of(b);
    order_chars(&x, &y)
}

} // verus!
