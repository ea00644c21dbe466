//! Orders on names. `sort` arranges names by their UTF-16 code units; the
//! pairs of a record are ordered as a `BTreeMap<String, _>` orders its keys,
//! by the bytes of their UTF-8 encodings.
use vstd::prelude::*;
use vstd::utf8::{encode_utf8, encode_utf8_decode_utf8, char_is_scalar, char_u32_cast, is_scalar};
use vstd::std_specs::iter::IteratorSpec;

verus! {

/// Strict lexicographic order on byte sequences; a proper prefix comes first.
pub open spec fn bytes_lt(a: Seq<u8>, b: Seq<u8>) -> bool
    decreases a.len(),
{
    if a.len() == 0 {
        b.len() > 0
    } else if b.len() == 0 {
        false
    } else if a[0] < b[0] {
        true
    } else if a[0] > b[0] {
        false
    } else {
        bytes_lt(a.drop_first(), b.drop_first())
    }
}

/// Strict order on names: compares their UTF-8 encodings byte by byte.
pub open spec fn name_bytes_lt(a: Seq<char>, b: Seq<char>) -> bool {
    bytes_lt(encode_utf8(a), encode_utf8(b))
}

/// Strict lexicographic order on sequences of UTF-16 code units; a proper
/// prefix comes first.
pub open spec fn units_lt(a: Seq<u16>, b: Seq<u16>) -> bool
    decreases a.len(),
{
    if a.len() == 0 {
        b.len() > 0
    } else if b.len() == 0 {
        false
    } else if a[0] < b[0] {
        true
    } else if a[0] > b[0] {
        false
    } else {
        units_lt(a.drop_first(), b.drop_first())
    }
}

/// The UTF-16 code units of one character: the character itself below
/// U+10000, else its surrogate pair.
pub open spec fn char_units(c: char) -> Seq<u16> {
    let v = c as u32;
    if v < 0x10000 {
        seq![v as u16]
    } else {
        seq![(0xD800 + (v - 0x10000) / 0x400) as u16, (0xDC00 + (v - 0x10000) % 0x400) as u16]
    }
}

/// The UTF-16 encoding of a name.
pub open spec fn utf16_units(s: Seq<char>) -> Seq<u16>
    decreases s.len(),
{
    if s.len() == 0 {
        Seq::empty()
    } else {
        char_units(s[0]) + utf16_units(s.drop_first())
    }
}

/// Strict order on names: compares their UTF-16 code units one by one.
pub open spec fn name_lt(a: Seq<char>, b: Seq<char>) -> bool {
    units_lt(utf16_units(a), utf16_units(b))
}

pub proof fn lemma_bytes_lt_irreflexive(a: Seq<u8>)
    ensures
        !bytes_lt(a, a),
    decreases a.len(),
{
    if a.len() > 0 {
        lemma_bytes_lt_irreflexive(a.drop_first());
    }
}

pub proof fn lemma_bytes_lt_transitive(a: Seq<u8>, b: Seq<u8>, c: Seq<u8>)
    requires
        bytes_lt(a, b),
        bytes_lt(b, c),
    ensures
        bytes_lt(a, c),
    decreases a.len(),
{
    if a.len() > 0 && b.len() > 0 && c.len() > 0 && a[0] == b[0] && b[0] == c[0] {
        lemma_bytes_lt_transitive(a.drop_first(), b.drop_first(), c.drop_first());
    }
}

pub proof fn lemma_bytes_lt_total(a: Seq<u8>, b: Seq<u8>)
    ensures
        bytes_lt(a, b) || a == b || bytes_lt(b, a),
    decreases a.len(),
{
    if a.len() == 0 {
        if b.len() == 0 {
            assert(a =~= b);
        }
    } else if b.len() > 0 && a[0] == b[0] {
        lemma_bytes_lt_total(a.drop_first(), b.drop_first());
        if a.drop_first() == b.drop_first() {
            assert(a =~= seq![a[0]] + a.drop_first());
            assert(b =~= seq![b[0]] + b.drop_first());
        }
    }
}

pub proof fn lemma_units_lt_irreflexive(a: Seq<u16>)
    ensures
        !units_lt(a, a),
    decreases a.len(),
{
    if a.len() > 0 {
        lemma_units_lt_irreflexive(a.drop_first());
    }
}

pub proof fn lemma_units_lt_transitive(a: Seq<u16>, b: Seq<u16>, c: Seq<u16>)
    requires
        units_lt(a, b),
        units_lt(b, c),
    ensures
        units_lt(a, c),
    decreases a.len(),
{
    if a.len() > 0 && b.len() > 0 && c.len() > 0 && a[0] == b[0] && b[0] == c[0] {
        lemma_units_lt_transitive(a.drop_first(), b.drop_first(), c.drop_first());
    }
}

pub proof fn lemma_units_lt_total(a: Seq<u16>, b: Seq<u16>)
    ensures
        units_lt(a, b) || a == b || units_lt(b, a),
    decreases a.len(),
{
    if a.len() == 0 {
        if b.len() == 0 {
            assert(a =~= b);
        }
    } else if b.len() > 0 && a[0] == b[0] {
        lemma_units_lt_total(a.drop_first(), b.drop_first());
        if a.drop_first() == b.drop_first() {
            assert(a =~= seq![a[0]] + a.drop_first());
            assert(b =~= seq![b[0]] + b.drop_first());
        }
    }
}

pub proof fn lemma_units_lt_asymmetric(a: Seq<u16>, b: Seq<u16>)
    requires
        units_lt(a, b),
    ensures
        !units_lt(b, a),
{
    if units_lt(b, a) {
        lemma_units_lt_transitive(a, b, a);
        lemma_units_lt_irreflexive(a);
    }
}

/// A character's first code unit tells whether it is a surrogate pair, and
/// the units give back the character.
proof fn lemma_char_units(c: char, d: char)
    ensures
        1 <= char_units(c).len() <= 2,
        char_units(c).len() == 2 <==> (0xD800 <= char_units(c)[0] && char_units(c)[0] < 0xDC00),
        char_units(c).len() == 1 ==> !(0xD800 <= char_units(c)[0] && char_units(c)[0] < 0xE000),
        char_units(c) == char_units(d) ==> c == d,
{
    broadcast use char_is_scalar;

    let v = c as u32;
    let w = d as u32;
    assert(is_scalar(v));
    assert(is_scalar(w));
    if v >= 0x10000 {
        assert(v <= 0x10FFFF);
        assert((v - 0x10000) / 0x400 < 0x400) by (nonlinear_arith)
            requires
                0x10000 <= v <= 0x10FFFF,
        ;
    }
    if char_units(c) == char_units(d) {
        if v < 0x10000 && w < 0x10000 {
            assert(char_units(c)[0] == char_units(d)[0]);
            assert(v == w);
        } else if v >= 0x10000 && w >= 0x10000 {
            assert((w - 0x10000) / 0x400 < 0x400) by (nonlinear_arith)
                requires
                    0x10000 <= w <= 0x10FFFF,
            ;
            assert(char_units(c)[0] == char_units(d)[0]);
            assert(char_units(c)[1] == char_units(d)[1]);
            let x = (v - 0x10000) as int;
            let y = (w - 0x10000) as int;
            assert(x / 0x400 == y / 0x400);
            assert(x % 0x400 == y % 0x400);
            assert(x == y) by (nonlinear_arith)
                requires
                    x >= 0,
                    y >= 0,
                    x / 0x400 == y / 0x400,
                    x % 0x400 == y % 0x400,
            ;
        } else {
            assert(char_units(c).len() == char_units(d).len());
        }
        char_u32_cast(c, v);
        char_u32_cast(d, w);
    }
}

/// Two names with the same UTF-16 encoding are the same name.
pub proof fn lemma_same_units(a: Seq<char>, b: Seq<char>)
    requires
        utf16_units(a) == utf16_units(b),
    ensures
        a == b,
    decreases a.len(),
{
    if a.len() == 0 {
        if b.len() > 0 {
            lemma_char_units(b[0], b[0]);
        }
        assert(a =~= b);
    } else if b.len() == 0 {
        lemma_char_units(a[0], a[0]);
    } else {
        let ca = char_units(a[0]);
        let cb = char_units(b[0]);
        lemma_char_units(a[0], b[0]);
        lemma_char_units(b[0], a[0]);
        let ua = utf16_units(a);
        assert(ua[0] == ca[0]);
        assert(ua[0] == cb[0]);
        assert(ca.len() == cb.len());
        if ca.len() == 2 {
            assert(ua[1] == ca[1]);
            assert(ua[1] == cb[1]);
        }
        assert(ca =~= cb);
        assert(utf16_units(a.drop_first()) =~= ua.skip(ca.len() as int));
        assert(utf16_units(b.drop_first()) =~= ua.skip(ca.len() as int));
        lemma_same_units(a.drop_first(), b.drop_first());
        assert(a =~= seq![a[0]] + a.drop_first());
        assert(b =~= seq![b[0]] + b.drop_first());
    }
}

/// Two names with the same encoding are the same name.
pub proof fn lemma_same_encoding(a: Seq<char>, b: Seq<char>)
    requires
        encode_utf8(a) == encode_utf8(b),
    ensures
        a == b,
{
    encode_utf8_decode_utf8(a);
    encode_utf8_decode_utf8(b);
}

/// Whether `a` comes strictly before `b` in byte-wise order.
pub fn bytes_less(a: &[u8], b: &[u8]) -> (r: bool)
    ensures
        r == bytes_lt(a@, b@),
{
    let mut i: usize = 0;
    assert(a@.skip(0) =~= a@);
    assert(b@.skip(0) =~= b@);
    while i < a.len() && i < b.len()
        invariant
            i <= a.len(),
            i <= b.len(),
            bytes_lt(a@, b@) == bytes_lt(a@.skip(i as int), b@.skip(i as int)),
        decreases a.len() - i,
    {
        if a[i] < b[i] {
            return true;
        }
        if a[i] > b[i] {
            return false;
        }
        assert(a@.skip(i as int).drop_first() =~= a@.skip(i + 1));
        assert(b@.skip(i as int).drop_first() =~= b@.skip(i + 1));
        i = i + 1;
    }
    i < b.len()
}

/// Whether name `a` comes strictly before name `b` in byte order.
pub fn name_bytes_less(a: &str, b: &str) -> (r: bool)
    ensures
        r == name_bytes_lt(a@, b@),
{
    bytes_less(a.as_bytes(), b.as_bytes())
}

/// Whether `a` comes strictly before `b` in code-unit order.
pub fn units_less(a: &[u16], b: &[u16]) -> (r: bool)
    ensures
        r == units_lt(a@, b@),
{
    let mut i: usize = 0;
    assert(a@.skip(0) =~= a@);
    assert(b@.skip(0) =~= b@);
    while i < a.len() && i < b.len()
        invariant
            i <= a.len(),
            i <= b.len(),
            units_lt(a@, b@) == units_lt(a@.skip(i as int), b@.skip(i as int)),
        decreases a.len() - i,
    {
        if a[i] < b[i] {
            return true;
        }
        if a[i] > b[i] {
            return false;
        }
        assert(a@.skip(i as int).drop_first() =~= a@.skip(i + 1));
        assert(b@.skip(i as int).drop_first() =~= b@.skip(i + 1));
        i = i + 1;
    }
    i < b.len()
}

/// The UTF-16 code units of one character.
fn push_char_units(out: &mut Vec<u16>, c: char)
    ensures
        final(out)@ == old(out)@ + char_units(c),
{
    proof {
        broadcast use char_is_scalar;

        assert(is_scalar(c as u32));
    }
    let v = c as u32;
    if v < 0x10000 {
        out.push(v as u16);
    } else {
        assert((v - 0x10000) / 0x400 < 0x400) by (nonlinear_arith)
            requires
                0x10000 <= v <= 0x10FFFF,
        ;
        out.push((0xD800 + (v - 0x10000) / 0x400) as u16);
        out.push((0xDC00 + (v - 0x10000) % 0x400) as u16);
    }
    assert(final(out)@ =~= old(out)@ + char_units(c));
}

/// The UTF-16 encoding of `s`.
pub fn utf16_of(s: &str) -> (r: Vec<u16>)
    ensures
        r@ == utf16_units(s@),
{
    broadcast use {vstd::string::axiom_spec_iter, vstd::string::next_postcondition};

    let mut out: Vec<u16> = Vec::new();
    let mut chars = s.chars();
    let ghost mut k: int = 0;
    assert(s@.skip(0) =~= s@);
    loop
        invariant
            0 <= k <= s@.len(),
            chars.obeys_prophetic_iter_laws(),
            chars.remaining() == s@.skip(k),
            utf16_units(s@) == out@ + utf16_units(s@.skip(k)),
        ensures
            out@ == utf16_units(s@),
        decreases s@.len() - k,
    {
        match chars.next() {
            Some(c) => {
                assert(c == s@.skip(k)[0]);
                assert(s@.skip(k).drop_first() =~= s@.skip(k + 1));
                let ghost before = out@;
                push_char_units(&mut out, c);
                proof {
                    k = k + 1;
                    assert(before + utf16_units(s@.skip(k - 1)) =~= out@ + utf16_units(s@.skip(k)));
                }
            },
            None => {
                assert(s@.skip(k).len() == 0);
                assert(out@ + utf16_units(s@.skip(k)) =~= out@);
                break;
            },
        }
    }
    out
}

/// Whether name `a` comes strictly before name `b` in code-unit order.
pub fn name_less(a: &str, b: &str) -> (r: bool)
    ensures
        r == name_lt(a@, b@),
{
    let ua = utf16_of(a);
    let ub = utf16_of(b);
    units_less(ua.as_slice(), ub.as_slice())
}

} // verus!
