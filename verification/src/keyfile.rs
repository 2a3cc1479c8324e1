//! The persisted key-file format: a structured record of four named byte
//! arrays — `key`, `nonce`, `large_key`, `large_nonce` — each written as a
//! bracketed list of decimal byte values.
//!
//! The format is this library's own, so both directions are verified: the
//! encoder produces exactly [`enc_bundle`], the parser accepts exactly the
//! encodings of well-formed bundles and rejects everything else as
//! `MalformedKeyFile`, and [`store_then_load`] states the round trip.

use vstd::prelude::*;

use vstd::arithmetic::div_mod::{lemma_fundamental_div_mod, lemma_fundamental_div_mod_converse};

use crate::bundle::{wf_view, KeyBundle, KeyBundleView};
use crate::errors::CipherError;

verus! {

/// An ASCII decimal digit.
pub open spec fn is_digit(b: u8) -> bool {
    48 <= b <= 57
}

/// The canonical decimal spelling of one byte value: one to three digits,
/// no leading zero.
pub open spec fn dec_digits(v: u8) -> Seq<u8> {
    if v < 10 {
        seq![(48 + v) as u8]
    } else if v < 100 {
        seq![(48 + v / 10) as u8, (48 + v % 10) as u8]
    } else {
        seq![(48 + v / 100) as u8, (48 + (v / 10) % 10) as u8, (48 + v % 10) as u8]
    }
}

/// The byte values of a list, spelled in decimal and separated by commas.
pub open spec fn enc_items(s: Seq<u8>) -> Seq<u8>
    decreases s.len(),
{
    if s.len() == 0 {
        Seq::empty()
    } else if s.len() == 1 {
        dec_digits(s[0])
    } else {
        dec_digits(s[0]) + seq![44u8] + enc_items(s.skip(1))
    }
}

/// A bracketed list of decimal byte values.
pub open spec fn enc_array(s: Seq<u8>) -> Seq<u8> {
    seq![91u8] + enc_items(s) + seq![93u8]
}

/// The bytes of `{"key":`.
pub open spec fn key_label() -> Seq<u8> {
    seq![123u8, 34u8, 107u8, 101u8, 121u8, 34u8, 58u8]
}

/// The bytes of `,"nonce":`.
pub open spec fn nonce_label() -> Seq<u8> {
    seq![44u8, 34u8, 110u8, 111u8, 110u8, 99u8, 101u8, 34u8, 58u8]
}

/// The bytes of `,"large_key":`.
pub open spec fn large_key_label() -> Seq<u8> {
    seq![44u8, 34u8, 108u8, 97u8, 114u8, 103u8, 101u8, 95u8, 107u8, 101u8, 121u8, 34u8, 58u8]
}

/// The bytes of `,"large_nonce":`.
pub open spec fn large_nonce_label() -> Seq<u8> {
    seq![
        44u8,
        34u8,
        108u8,
        97u8,
        114u8,
        103u8,
        101u8,
        95u8,
        110u8,
        111u8,
        110u8,
        99u8,
        101u8,
        34u8,
        58u8,
    ]
}

/// The whole key file: the four labelled arrays between braces.
pub open spec fn enc_bundle(v: KeyBundleView) -> Seq<u8> {
    key_label() + (enc_array(v.key) + (nonce_label() + (enc_array(v.nonce) + (large_key_label()
        + (enc_array(v.large_key) + (large_nonce_label() + (enc_array(v.large_nonce)
        + seq![125u8])))))))
}

/// A subrange that is a concatenation splits at the first part's length.
pub proof fn lemma_subrange_split(s: Seq<u8>, i: int, j: int, a: Seq<u8>, b: Seq<u8>)
    requires
        0 <= i <= j <= s.len(),
        s.subrange(i, j) == a + b,
    ensures
        i + a.len() <= j,
        s.subrange(i, i + a.len()) == a,
        s.subrange(i + a.len(), j) == b,
{
    assert(s.subrange(i, j).len() == a.len() + b.len());
    assert(s.subrange(i, i + a.len()) =~= a) by {
        assert forall|k: int| 0 <= k < a.len() implies s.subrange(i, i + a.len())[k] == a[k] by {
            assert(s.subrange(i, j)[k] == a[k]);
        }
    }
    assert(s.subrange(i + a.len(), j) =~= b) by {
        assert forall|k: int| 0 <= k < b.len() implies s.subrange(i + a.len(), j)[k] == b[k] by {
            assert(s.subrange(i, j)[a.len() + k] == b[k]);
        }
    }
}

/// Two adjacent subranges join into one.
pub proof fn lemma_subrange_join(s: Seq<u8>, i: int, m: int, j: int)
    requires
        0 <= i <= m <= j <= s.len(),
    ensures
        s.subrange(i, j) == s.subrange(i, m) + s.subrange(m, j),
{
    assert(s.subrange(i, j) =~= s.subrange(i, m) + s.subrange(m, j));
}

/// The decimal spelling holds one to three digit characters, and only the
/// spelling of a value under ten starts with the zero digit.
pub proof fn lemma_dec_digits_shape(v: u8)
    ensures
        1 <= dec_digits(v).len() <= 3,
        forall|k: int| 0 <= k < dec_digits(v).len() ==> is_digit(#[trigger] dec_digits(v)[k]),
        v >= 10 ==> dec_digits(v)[0] != 48,
{
    lemma_fundamental_div_mod(v as int, 10);
    lemma_fundamental_div_mod(v as int, 100);
    lemma_fundamental_div_mod((v / 10) as int, 10);
}

/// Appending one value to a list appends its separator and spelling to the
/// list's encoding.
pub proof fn lemma_enc_items_snoc(s: Seq<u8>)
    requires
        s.len() >= 1,
    ensures
        enc_items(s) == enc_items(s.drop_last()) + (if s.len() == 1 {
            dec_digits(s.last())
        } else {
            seq![44u8] + dec_digits(s.last())
        }),
    decreases s.len(),
{
    if s.len() == 1 {
        assert(enc_items(s.drop_last()) =~= Seq::<u8>::empty());
        assert(enc_items(s) =~= enc_items(s.drop_last()) + dec_digits(s.last()));
    } else if s.len() == 2 {
        assert(s.skip(1) =~= seq![s[1]]);
        assert(s.drop_last() =~= seq![s[0]]);
        assert(enc_items(seq![s[1]]) == dec_digits(s[1]));
        assert(enc_items(seq![s[0]]) == dec_digits(s[0]));
        assert(s.last() == s[1]);
        assert(enc_items(s) == dec_digits(s[0]) + seq![44u8] + enc_items(s.skip(1)));
        assert(enc_items(s) =~= enc_items(s.drop_last()) + (seq![44u8] + dec_digits(s.last())));
    } else {
        lemma_enc_items_snoc(s.skip(1));
        assert(s.skip(1).drop_last() =~= s.drop_last().skip(1));
        assert(s.skip(1).last() == s.last());
        assert(enc_items(s) =~= enc_items(s.drop_last()) + (seq![44u8] + dec_digits(s.last())));
    }
}

/// Appends the canonical decimal spelling of one byte value.
fn push_digits(out: &mut Vec<u8>, v: u8)
    ensures
        final(out)@ == old(out)@ + dec_digits(v),
{
    if v < 10 {
        out.push(48 + v);
    } else if v < 100 {
        out.push(48 + v / 10);
        out.push(48 + v % 10);
    } else {
        out.push(48 + v / 100);
        out.push(48 + (v / 10) % 10);
        out.push(48 + v % 10);
    }
    proof {
        assert(out@ =~= old(out)@ + dec_digits(v));
    }
}

/// Appends the bracketed decimal encoding of a byte list.
fn push_array(out: &mut Vec<u8>, bytes: &[u8])
    ensures
        final(out)@ == old(out)@ + enc_array(bytes@),
{
    out.push(91);
    let n = bytes.len();
    let mut i: usize = 0;
    while i < n
        invariant
            i <= n,
            n == bytes@.len(),
            out@ == old(out)@ + seq![91u8] + enc_items(bytes@.take(i as int)),
        decreases n - i,
    {
        if i > 0 {
            out.push(44);
        }
        push_digits(out, bytes[i]);
        proof {
            let t = bytes@.take((i + 1) as int);
            lemma_enc_items_snoc(t);
            assert(t.drop_last() =~= bytes@.take(i as int));
            assert(t.last() == bytes@[i as int]);
            assert(out@ =~= old(out)@ + seq![91u8] + enc_items(t));
        }
        i = i + 1;
    }
    out.push(93);
    proof {
        assert(bytes@.take(n as int) =~= bytes@);
        assert(out@ =~= old(out)@ + enc_array(bytes@));
    }
}

/// The bytes of `{"key":`, as a buffer.
fn key_label_bytes() -> (r: Vec<u8>)
    ensures
        r@ == key_label(),
{
    let mut v: Vec<u8> = Vec::new();
    v.push(123);
    v.push(34);
    v.push(107);
    v.push(101);
    v.push(121);
    v.push(34);
    v.push(58);
    proof {
        assert(v@ =~= key_label());
    }
    v
}

/// The bytes of `,"nonce":`, as a buffer.
fn nonce_label_bytes() -> (r: Vec<u8>)
    ensures
        r@ == nonce_label(),
{
    let mut v: Vec<u8> = Vec::new();
    v.push(44);
    v.push(34);
    v.push(110);
    v.push(111);
    v.push(110);
    v.push(99);
    v.push(101);
    v.push(34);
    v.push(58);
    proof {
        assert(v@ =~= nonce_label());
    }
    v
}

/// The bytes of `,"large_key":`, as a buffer.
fn large_key_label_bytes() -> (r: Vec<u8>)
    ensures
        r@ == large_key_label(),
{
    let mut v: Vec<u8> = Vec::new();
    v.push(44);
    v.push(34);
    v.push(108);
    v.push(97);
    v.push(114);
    v.push(103);
    v.push(101);
    v.push(95);
    v.push(107);
    v.push(101);
    v.push(121);
    v.push(34);
    v.push(58);
    proof {
        assert(v@ =~= large_key_label());
    }
    v
}

/// The bytes of `,"large_nonce":`, as a buffer.
fn large_nonce_label_bytes() -> (r: Vec<u8>)
    ensures
        r@ == large_nonce_label(),
{
    let mut v: Vec<u8> = Vec::new();
    v.push(44);
    v.push(34);
    v.push(108);
    v.push(97);
    v.push(114);
    v.push(103);
    v.push(101);
    v.push(95);
    v.push(110);
    v.push(111);
    v.push(110);
    v.push(99);
    v.push(101);
    v.push(34);
    v.push(58);
    proof {
        assert(v@ =~= large_nonce_label());
    }
    v
}

/// One canonically spelled byte value stands at `i` and runs to `j`, with no
/// digit following it.
pub open spec fn num_at(s: Seq<u8>, i: int, v: u8, j: int) -> bool {
    &&& 0 <= i <= j <= s.len()
    &&& s.subrange(i, j) == dec_digits(v)
    &&& (j == s.len() || !is_digit(s[j]))
}

/// Reads one canonically spelled byte value at `i`: its value and the index
/// just past its digits.  It accepts exactly the spellings [`dec_digits`]
/// produces — no leading zeros, at most three digits, value at most 255.
fn parse_byte(s: &[u8], i: usize) -> (r: Option<(u8, usize)>)
    requires
        i <= s@.len(),
    ensures
        r matches Some(vj) ==> i < vj.1 && vj.1 <= s@.len() && s@.subrange(i as int, vj.1 as int)
            == dec_digits(vj.0),
        forall|v: u8, j: int|
            num_at(s@, i as int, v, j) ==> (r matches Some(vj) && vj.0 == v && vj.1 == j),
{
    let n = s.len();
    if i >= n || s[i] < 48 || s[i] > 57 {
        proof {
            assert forall|v: u8, j: int| !num_at(s@, i as int, v, j) by {
                lemma_dec_digits_shape(v);
                if num_at(s@, i as int, v, j) {
                    assert(s@[i as int] == dec_digits(v)[0]);
                }
            }
        }
        None
    } else {
        let c0 = s[i];
        let d0 = c0 - 48;
        if d0 == 0 {
            proof {
                assert(s@.subrange(i as int, (i + 1) as int) =~= dec_digits(0));
                assert forall|v: u8, j: int|
                    num_at(s@, i as int, v, j) implies v == 0 && j == i + 1 by {
                    lemma_dec_digits_shape(v);
                    assert(s@[i as int] == dec_digits(v)[0]);
                    assert(v < 10);
                }
            }
            Some((0, i + 1))
        } else if i + 1 >= n || s[i + 1] < 48 || s[i + 1] > 57 {
            proof {
                assert(s@.subrange(i as int, (i + 1) as int) =~= dec_digits(d0));
                assert forall|v: u8, j: int|
                    num_at(s@, i as int, v, j) implies v == d0 && j == i + 1 by {
                    lemma_dec_digits_shape(v);
                    assert(s@[i as int] == dec_digits(v)[0]);
                    if v >= 10 {
                        assert(s@[i + 1] == dec_digits(v)[1]);
                        assert(is_digit(s@[i + 1]));
                    }
                }
            }
            Some((d0, i + 1))
        } else {
            let d1 = s[i + 1] - 48;
            if i + 2 >= n || s[i + 2] < 48 || s[i + 2] > 57 {
                let v = d0 * 10 + d1;
                proof {
                    lemma_fundamental_div_mod_converse(v as int, 10, d0 as int, d1 as int);
                    assert(s@.subrange(i as int, (i + 2) as int) =~= dec_digits(v));
                    assert forall|w: u8, j: int|
                        num_at(s@, i as int, w, j) implies w == v && j == i + 2 by {
                        lemma_dec_digits_shape(w);
                        assert(s@[i as int] == dec_digits(w)[0]);
                        if w < 10 {
                            assert(is_digit(s@[i + 1]));
                        } else if w < 100 {
                            assert(s@[i as int] == (48 + w / 10) as u8);
                            assert(s@[i + 1] == (48 + w % 10) as u8);
                            lemma_fundamental_div_mod(w as int, 10);
                        } else {
                            assert(s@[i + 2] == dec_digits(w)[2]);
                            assert(is_digit(s@[i + 2]));
                        }
                    }
                }
                Some((v, i + 2))
            } else {
                let d2 = s[i + 2] - 48;
                let big: u32 = d0 as u32 * 100 + d1 as u32 * 10 + d2 as u32;
                if big > 255 {
                    proof {
                        assert forall|w: u8, j: int| !num_at(s@, i as int, w, j) by {
                            lemma_dec_digits_shape(w);
                            if num_at(s@, i as int, w, j) {
                                assert(s@[i as int] == dec_digits(w)[0]);
                                if w < 10 {
                                    assert(is_digit(s@[i + 1]));
                                } else if w < 100 {
                                    assert(is_digit(s@[i + 2]));
                                } else {
                                    assert(s@[i as int] == (48 + w / 100) as u8);
                                    assert(s@[i + 1] == (48 + (w / 10) % 10) as u8);
                                    assert(s@[i + 2] == (48 + w % 10) as u8);
                                    lemma_fundamental_div_mod(w as int, 10);
                                    lemma_fundamental_div_mod(w as int, 100);
                                    lemma_fundamental_div_mod((w / 10) as int, 10);
                                    assert(big == w);
                                }
                            }
                        }
                    }
                    None
                } else {
                    let v = big as u8;
                    proof {
                        lemma_fundamental_div_mod_converse(
                            v as int,
                            10,
                            (d0 * 10 + d1) as int,
                            d2 as int,
                        );
                        lemma_fundamental_div_mod_converse(
                            (d0 * 10 + d1) as int,
                            10,
                            d0 as int,
                            d1 as int,
                        );
                        lemma_fundamental_div_mod_converse(
                            v as int,
                            100,
                            d0 as int,
                            (d1 * 10 + d2) as int,
                        );
                        assert(v / 10 == d0 * 10 + d1 && v % 10 == d2);
                        assert((v / 10) % 10 == d1);
                        assert(v / 100 == d0);
                        assert(v >= 100);
                        assert(s@.subrange(i as int, (i + 3) as int) =~= dec_digits(v));
                        assert forall|w: u8, j: int|
                            num_at(s@, i as int, w, j) implies w == v && j == i + 3 by {
                            lemma_dec_digits_shape(w);
                            assert(s@[i as int] == dec_digits(w)[0]);
                            if w < 10 {
                                assert(is_digit(s@[i + 1]));
                            } else if w < 100 {
                                assert(is_digit(s@[i + 2]));
                            } else {
                                assert(s@[i as int] == (48 + w / 100) as u8);
                                assert(s@[i + 1] == (48 + (w / 10) % 10) as u8);
                                assert(s@[i + 2] == (48 + w % 10) as u8);
                                lemma_fundamental_div_mod(w as int, 10);
                                lemma_fundamental_div_mod(w as int, 100);
                                lemma_fundamental_div_mod((w / 10) as int, 10);
                            }
                        }
                    }
                    Some((v, i + 3))
                }
            }
        }
    }
}

/// A non-empty item list with its closing bracket stands between `i` and `j`.
pub open spec fn items_at(s: Seq<u8>, i: int, w: Seq<u8>, j: int) -> bool {
    &&& w.len() >= 1
    &&& 0 <= i <= j <= s.len()
    &&& s.subrange(i, j) == enc_items(w) + seq![93u8]
}

/// A bracketed list stands between `i` and `j`.
pub open spec fn array_at(s: Seq<u8>, i: int, w: Seq<u8>, j: int) -> bool {
    &&& 0 <= i <= j <= s.len()
    &&& s.subrange(i, j) == enc_array(w)
}

/// Where a list stands, its first value stands canonically spelled, followed
/// by a separator or the closing bracket.
proof fn lemma_items_at_head(s: Seq<u8>, i: int, w: Seq<u8>, j: int)
    requires
        items_at(s, i, w, j),
    ensures
        num_at(s, i, w[0], i + dec_digits(w[0]).len()),
        w.len() == 1 ==> i + dec_digits(w[0]).len() + 1 == j && s[i + dec_digits(w[0]).len()]
            == 93,
        w.len() >= 2 ==> s[i + dec_digits(w[0]).len()] == 44 && items_at(
            s,
            i + dec_digits(w[0]).len() + 1,
            w.skip(1),
            j,
        ),
{
    let l = dec_digits(w[0]).len() as int;
    lemma_dec_digits_shape(w[0]);
    if w.len() == 1 {
        lemma_subrange_split(s, i, j, dec_digits(w[0]), seq![93u8]);
        assert(s[i + l] == s.subrange(i + l, j)[0]);
        assert(s.subrange(i, i + l) == dec_digits(w[0]));
    } else {
        assert(enc_items(w) + seq![93u8] =~= dec_digits(w[0]) + (seq![44u8] + (enc_items(
            w.skip(1),
        ) + seq![93u8])));
        lemma_subrange_split(
            s,
            i,
            j,
            dec_digits(w[0]),
            seq![44u8] + (enc_items(w.skip(1)) + seq![93u8]),
        );
        lemma_subrange_split(s, i + l, j, seq![44u8], enc_items(w.skip(1)) + seq![93u8]);
        assert(s[i + l] == s.subrange(i + l, i + l + 1)[0]);
    }
}

/// Reads a non-empty item list up to and including its closing bracket.
fn parse_items_from(s: &[u8], i: usize) -> (r: Option<(Vec<u8>, usize)>)
    requires
        i <= s@.len(),
    ensures
        r matches Some(wj) ==> i < wj.1 && wj.1 <= s@.len() && wj.0@.len() >= 1 && s@.subrange(
            i as int,
            wj.1 as int,
        ) == enc_items(wj.0@) + seq![93u8],
        forall|w: Seq<u8>, j: int|
            items_at(s@, i as int, w, j) ==> (r matches Some(wj) && wj.0@ == w && wj.1 == j),
    decreases s@.len() - i,
{
    match parse_byte(s, i) {
        None => {
            proof {
                assert forall|w: Seq<u8>, j: int| !items_at(s@, i as int, w, j) by {
                    if items_at(s@, i as int, w, j) {
                        lemma_items_at_head(s@, i as int, w, j);
                    }
                }
            }
            None
        },
        Some((v, jd)) => {
            if jd < s.len() && s[jd] == 44 {
                match parse_items_from(s, jd + 1) {
                    None => {
                        proof {
                            assert forall|w: Seq<u8>, j: int| !items_at(s@, i as int, w, j) by {
                                if items_at(s@, i as int, w, j) {
                                    lemma_items_at_head(s@, i as int, w, j);
                                }
                            }
                        }
                        None
                    },
                    Some((mut rest, k)) => {
                        let mut out: Vec<u8> = Vec::new();
                        out.push(v);
                        let ghost rest_view = rest@;
                        out.append(&mut rest);
                        proof {
                            assert(out@ =~= seq![v] + rest_view);
                            assert(out@.skip(1) =~= rest_view);
                            assert(enc_items(out@) == dec_digits(v) + seq![44u8] + enc_items(
                                rest_view,
                            ));
                            lemma_subrange_join(s@, i as int, jd as int, (jd + 1) as int);
                            lemma_subrange_join(s@, i as int, (jd + 1) as int, k as int);
                            assert(s@.subrange(jd as int, (jd + 1) as int) =~= seq![44u8]);
                            assert(s@.subrange(i as int, k as int) =~= enc_items(out@)
                                + seq![93u8]);
                            assert forall|w: Seq<u8>, j: int|
                                items_at(s@, i as int, w, j) implies out@ == w && k == j by {
                                lemma_items_at_head(s@, i as int, w, j);
                                assert(v == w[0]);
                                assert(jd == i + dec_digits(w[0]).len());
                                assert(w.len() >= 2);
                                assert(rest_view == w.skip(1));
                                assert(out@ =~= w);
                            }
                        }
                        Some((out, k))
                    },
                }
            } else if jd < s.len() && s[jd] == 93 {
                let mut out: Vec<u8> = Vec::new();
                out.push(v);
                proof {
                    assert(out@ =~= seq![v]);
                    assert(enc_items(out@) == dec_digits(v));
                    lemma_subrange_join(s@, i as int, jd as int, (jd + 1) as int);
                    assert(s@.subrange(jd as int, (jd + 1) as int) =~= seq![93u8]);
                    assert(s@.subrange(i as int, (jd + 1) as int) =~= enc_items(out@)
                        + seq![93u8]);
                    assert forall|w: Seq<u8>, j: int|
                        items_at(s@, i as int, w, j) implies out@ == w && jd + 1 == j by {
                        lemma_items_at_head(s@, i as int, w, j);
                        assert(v == w[0]);
                        assert(jd == i + dec_digits(w[0]).len());
                        assert(w.len() == 1);
                        assert(out@ =~= w);
                    }
                }
                Some((out, jd + 1))
            } else {
                proof {
                    assert forall|w: Seq<u8>, j: int| !items_at(s@, i as int, w, j) by {
                        if items_at(s@, i as int, w, j) {
                            lemma_items_at_head(s@, i as int, w, j);
                        }
                    }
                }
                None
            }
        },
    }
}

/// Reads one bracketed list of byte values, the empty list included.
fn parse_array(s: &[u8], i: usize) -> (r: Option<(Vec<u8>, usize)>)
    requires
        i <= s@.len(),
    ensures
        r matches Some(wj) ==> i < wj.1 && wj.1 <= s@.len() && s@.subrange(i as int, wj.1 as int)
            == enc_array(wj.0@),
        forall|w: Seq<u8>, j: int|
            array_at(s@, i as int, w, j) ==> (r matches Some(wj) && wj.0@ == w && wj.1 == j),
{
    if i < s.len() && s[i] == 91 {
        if i + 1 < s.len() && s[i + 1] == 93 {
            let out: Vec<u8> = Vec::new();
            proof {
                assert(enc_array(Seq::<u8>::empty()) =~= seq![91u8, 93u8]);
                assert(s@.subrange(i as int, (i + 2) as int) =~= seq![91u8, 93u8]);
                assert forall|w: Seq<u8>, j: int|
                    array_at(s@, i as int, w, j) implies out@ == w && i + 2 == j by {
                    if w.len() >= 1 {
                        lemma_dec_digits_shape(w[0]);
                        assert(enc_array(w).len() >= 3);
                        assert(s@[i + 1] == s@.subrange(i as int, j)[1]);
                        assert(s@[i + 1] == enc_array(w)[1]);
                        assert(enc_array(w)[1] == enc_items(w)[0]);
                        assert(enc_items(w)[0] == dec_digits(w[0])[0]);
                        assert(is_digit(s@[i + 1]));
                    }
                    assert(w.len() == 0);
                    assert(enc_array(w).len() == 2);
                }
            }
            Some((out, i + 2))
        } else {
            match parse_items_from(s, i + 1) {
                None => {
                    proof {
                        assert forall|w: Seq<u8>, j: int| !array_at(s@, i as int, w, j) by {
                            if array_at(s@, i as int, w, j) {
                                if w.len() == 0 {
                                    assert(enc_array(w) =~= seq![91u8, 93u8]);
                                    assert(s@[i + 1] == s@.subrange(i as int, j)[1]);
                                    assert(s@[i + 1] == enc_array(w)[1]);
                                } else {
                                    assert(enc_array(w) =~= seq![91u8] + (enc_items(w)
                                        + seq![93u8]));
                                    lemma_subrange_split(
                                        s@,
                                        i as int,
                                        j,
                                        seq![91u8],
                                        enc_items(w) + seq![93u8],
                                    );
                                    assert(items_at(s@, (i + 1) as int, w, j));
                                }
                            }
                        }
                    }
                    None
                },
                Some((w, k)) => {
                    proof {
                        lemma_subrange_join(s@, i as int, (i + 1) as int, k as int);
                        assert(s@.subrange(i as int, (i + 1) as int) =~= seq![91u8]);
                        assert(s@.subrange(i as int, k as int) =~= enc_array(w@));
                        assert forall|w2: Seq<u8>, j: int|
                            array_at(s@, i as int, w2, j) implies w@ == w2 && k == j by {
                            if w2.len() == 0 {
                                assert(enc_array(w2) =~= seq![91u8, 93u8]);
                                assert(s@[i + 1] == s@.subrange(i as int, j)[1]);
                                assert(s@[i + 1] == enc_array(w2)[1]);
                            } else {
                                assert(enc_array(w2) =~= seq![91u8] + (enc_items(w2)
                                    + seq![93u8]));
                                lemma_subrange_split(
                                    s@,
                                    i as int,
                                    j,
                                    seq![91u8],
                                    enc_items(w2) + seq![93u8],
                                );
                                assert(items_at(s@, (i + 1) as int, w2, j));
                            }
                        }
                    }
                    Some((w, k))
                },
            }
        }
    } else {
        proof {
            assert forall|w: Seq<u8>, j: int| !array_at(s@, i as int, w, j) by {
                if array_at(s@, i as int, w, j) {
                    assert(enc_array(w).len() >= 2);
                    assert(s@[i as int] == s@.subrange(i as int, j)[0]);
                    assert(s@[i as int] == enc_array(w)[0]);
                }
            }
        }
        None
    }
}

/// Matches one literal label at `i`.
fn expect_label(s: &[u8], i: usize, label: &[u8]) -> (r: Option<usize>)
    requires
        i <= s@.len(),
    ensures
        r matches Some(j) ==> j == i + label@.len() && j <= s@.len() && s@.subrange(
            i as int,
            j as int,
        ) == label@,
        r is None ==> !(i + label@.len() <= s@.len() && s@.subrange(
            i as int,
            i + label@.len() as int,
        ) == label@),
{
    let m = label.len();
    if m > s.len() - i {
        None
    } else {
        let mut k: usize = 0;
        let mut mismatch = false;
        while k < m
            invariant
                k <= m,
                m == label@.len(),
                i + m <= s@.len(),
                s@.len() <= usize::MAX,
                !mismatch ==> forall|t: int| 0 <= t < k ==> s@[i + t] == label@[t],
                mismatch ==> s@.subrange(i as int, (i + m) as int) != label@,
            decreases m - k,
        {
            if s[i + k] != label[k] {
                proof {
                    if s@.subrange(i as int, (i + m) as int) == label@ {
                        assert(s@[i + k] == s@.subrange(i as int, (i + m) as int)[k as int]);
                    }
                }
                mismatch = true;
            }
            k = k + 1;
        }
        if mismatch {
            None
        } else {
            proof {
                assert(s@.subrange(i as int, (i + m) as int) =~= label@);
            }
            Some(i + m)
        }
    }
}

/// A skipped tail that is a concatenation yields the first part as a
/// subrange and the second as the further tail.
proof fn lemma_skip_split(data: Seq<u8>, i: int, a: Seq<u8>, b: Seq<u8>)
    requires
        0 <= i <= data.len(),
        data.skip(i) == a + b,
    ensures
        i + a.len() <= data.len(),
        data.subrange(i, i + a.len()) == a,
        data.skip(i + a.len()) == b,
{
    assert(data.skip(i).len() == a.len() + b.len());
    assert(data.subrange(i, i + a.len()) =~= a) by {
        assert forall|k: int| 0 <= k < a.len() implies data.subrange(i, i + a.len())[k]
            == a[k] by {
            assert(data.skip(i)[k] == a[k]);
        }
    }
    assert(data.skip(i + a.len()) =~= b) by {
        assert forall|k: int| 0 <= k < b.len() implies data.skip(i + a.len())[k] == b[k] by {
            assert(data.skip(i)[a.len() + k] == b[k]);
        }
    }
}

/// Where a whole key file stands, each of its nine pieces stands at its own
/// offset.
#[verifier::rlimit(100)]
proof fn lemma_enc_bundle_offsets(v: KeyBundleView, data: Seq<u8>)
    requires
        data == enc_bundle(v),
    ensures
        ({
            let o1 = key_label().len() as int;
            let o2 = o1 + enc_array(v.key).len();
            let o3 = o2 + nonce_label().len();
            let o4 = o3 + enc_array(v.nonce).len();
            let o5 = o4 + large_key_label().len();
            let o6 = o5 + enc_array(v.large_key).len();
            let o7 = o6 + large_nonce_label().len();
            let o8 = o7 + enc_array(v.large_nonce).len();
            &&& data.len() == o8 + 1
            &&& data.subrange(0, o1) == key_label()
            &&& array_at(data, o1, v.key, o2)
            &&& data.subrange(o2, o3) == nonce_label()
            &&& array_at(data, o3, v.nonce, o4)
            &&& data.subrange(o4, o5) == large_key_label()
            &&& array_at(data, o5, v.large_key, o6)
            &&& data.subrange(o6, o7) == large_nonce_label()
            &&& array_at(data, o7, v.large_nonce, o8)
            &&& data[o8] == 125
        }),
{
    let o1 = key_label().len() as int;
    let o2 = o1 + enc_array(v.key).len();
    let o3 = o2 + nonce_label().len();
    let o4 = o3 + enc_array(v.nonce).len();
    let o5 = o4 + large_key_label().len();
    let o6 = o5 + enc_array(v.large_key).len();
    let o7 = o6 + large_nonce_label().len();
    let o8 = o7 + enc_array(v.large_nonce).len();
    let t8 = seq![125u8];
    let t7 = enc_array(v.large_nonce) + t8;
    let t6 = large_nonce_label() + t7;
    let t5 = enc_array(v.large_key) + t6;
    let t4 = large_key_label() + t5;
    let t3 = enc_array(v.nonce) + t4;
    let t2 = nonce_label() + t3;
    let t1 = enc_array(v.key) + t2;
    assert(data.skip(0) =~= data);
    lemma_skip_split(data, 0, key_label(), t1);
    lemma_skip_split(data, o1, enc_array(v.key), t2);
    lemma_skip_split(data, o2, nonce_label(), t3);
    lemma_skip_split(data, o3, enc_array(v.nonce), t4);
    lemma_skip_split(data, o4, large_key_label(), t5);
    lemma_skip_split(data, o5, enc_array(v.large_key), t6);
    lemma_skip_split(data, o6, large_nonce_label(), t7);
    lemma_skip_split(data, o7, enc_array(v.large_nonce), t8);
    assert(data.skip(o8).len() == 1);
    assert(data[o8] == data.skip(o8)[0]);
}

/// Reads a persisted key file back into a bundle.  It accepts exactly the
/// canonical encodings of well-formed bundles — the round trip of
/// [`encode_key_file`] — and reports `MalformedKeyFile` for everything else:
/// a missing or misspelled field, a value that is not a byte, stray bytes,
/// or a field of the wrong length.
#[verifier::rlimit(100)]
pub fn parse_key_file(data: &Vec<u8>) -> (r: Result<KeyBundle, CipherError>)
    ensures
        r matches Ok(b) ==> b.wf() && data@ == enc_bundle(b@),
        forall|v: KeyBundleView|
            wf_view(v) && data@ == enc_bundle(v) ==> (r matches Ok(b) && b@ == v),
        r matches Err(e) ==> e == CipherError::MalformedKeyFile,
{
    let s = data.as_slice();
    let kl = key_label_bytes();
    let nl = nonce_label_bytes();
    let lkl = large_key_label_bytes();
    let lnl = large_nonce_label_bytes();
    let r1 = expect_label(s, 0, kl.as_slice());
    if r1.is_none() {
        proof {
            assert forall|v: KeyBundleView| !(wf_view(v) && data@ == enc_bundle(v)) by {
                if wf_view(v) && data@ == enc_bundle(v) {
                    lemma_enc_bundle_offsets(v, data@);
                }
            }
        }
        return Err(CipherError::MalformedKeyFile);
    }
    let i1 = r1.unwrap();
    let r2 = parse_array(s, i1);
    if r2.is_none() {
        proof {
            assert forall|v: KeyBundleView| !(wf_view(v) && data@ == enc_bundle(v)) by {
                if wf_view(v) && data@ == enc_bundle(v) {
                    lemma_enc_bundle_offsets(v, data@);
                    assert(array_at(
                        data@,
                        i1 as int,
                        v.key,
                        i1 + enc_array(v.key).len() as int,
                    ));
                }
            }
        }
        return Err(CipherError::MalformedKeyFile);
    }
    let (key_field, i2) = r2.unwrap();
    let r3 = expect_label(s, i2, nl.as_slice());
    if r3.is_none() {
        proof {
            assert forall|v: KeyBundleView| !(wf_view(v) && data@ == enc_bundle(v)) by {
                if wf_view(v) && data@ == enc_bundle(v) {
                    lemma_enc_bundle_offsets(v, data@);
                    assert(array_at(
                        data@,
                        i1 as int,
                        v.key,
                        i1 + enc_array(v.key).len() as int,
                    ));
                }
            }
        }
        return Err(CipherError::MalformedKeyFile);
    }
    let i3 = r3.unwrap();
    let r4 = parse_array(s, i3);
    if r4.is_none() {
        proof {
            assert forall|v: KeyBundleView| !(wf_view(v) && data@ == enc_bundle(v)) by {
                if wf_view(v) && data@ == enc_bundle(v) {
                    lemma_enc_bundle_offsets(v, data@);
                    assert(array_at(
                        data@,
                        i1 as int,
                        v.key,
                        i1 + enc_array(v.key).len() as int,
                    ));
                    assert(array_at(
                        data@,
                        i3 as int,
                        v.nonce,
                        i3 + enc_array(v.nonce).len() as int,
                    ));
                }
            }
        }
        return Err(CipherError::MalformedKeyFile);
    }
    let (nonce_field, i4) = r4.unwrap();
    let r5 = expect_label(s, i4, lkl.as_slice());
    if r5.is_none() {
        proof {
            assert forall|v: KeyBundleView| !(wf_view(v) && data@ == enc_bundle(v)) by {
                if wf_view(v) && data@ == enc_bundle(v) {
                    lemma_enc_bundle_offsets(v, data@);
                    assert(array_at(
                        data@,
                        i1 as int,
                        v.key,
                        i1 + enc_array(v.key).len() as int,
                    ));
                    assert(array_at(
                        data@,
                        i3 as int,
                        v.nonce,
                        i3 + enc_array(v.nonce).len() as int,
                    ));
                }
            }
        }
        return Err(CipherError::MalformedKeyFile);
    }
    let i5 = r5.unwrap();
    let r6 = parse_array(s, i5);
    if r6.is_none() {
        proof {
            assert forall|v: KeyBundleView| !(wf_view(v) && data@ == enc_bundle(v)) by {
                if wf_view(v) && data@ == enc_bundle(v) {
                    lemma_enc_bundle_offsets(v, data@);
                    assert(array_at(
                        data@,
                        i1 as int,
                        v.key,
                        i1 + enc_array(v.key).len() as int,
                    ));
                    assert(array_at(
                        data@,
                        i3 as int,
                        v.nonce,
                        i3 + enc_array(v.nonce).len() as int,
                    ));
                    assert(array_at(
                        data@,
                        i5 as int,
                        v.large_key,
                        i5 + enc_array(v.large_key).len() as int,
                    ));
                }
            }
        }
        return Err(CipherError::MalformedKeyFile);
    }
    let (large_key_field, i6) = r6.unwrap();
    let r7 = expect_label(s, i6, lnl.as_slice());
    if r7.is_none() {
        proof {
            assert forall|v: KeyBundleView| !(wf_view(v) && data@ == enc_bundle(v)) by {
                if wf_view(v) && data@ == enc_bundle(v) {
                    lemma_enc_bundle_offsets(v, data@);
                    assert(array_at(
                        data@,
                        i1 as int,
                        v.key,
                        i1 + enc_array(v.key).len() as int,
                    ));
                    assert(array_at(
                        data@,
                        i3 as int,
                        v.nonce,
                        i3 + enc_array(v.nonce).len() as int,
                    ));
                    assert(array_at(
                        data@,
                        i5 as int,
                        v.large_key,
                        i5 + enc_array(v.large_key).len() as int,
                    ));
                }
            }
        }
        return Err(CipherError::MalformedKeyFile);
    }
    let i7 = r7.unwrap();
    let r8 = parse_array(s, i7);
    if r8.is_none() {
        proof {
            assert forall|v: KeyBundleView| !(wf_view(v) && data@ == enc_bundle(v)) by {
                if wf_view(v) && data@ == enc_bundle(v) {
                    lemma_enc_bundle_offsets(v, data@);
                    assert(array_at(
                        data@,
                        i1 as int,
                        v.key,
                        i1 + enc_array(v.key).len() as int,
                    ));
                    assert(array_at(
                        data@,
                        i3 as int,
                        v.nonce,
                        i3 + enc_array(v.nonce).len() as int,
                    ));
                    assert(array_at(
                        data@,
                        i5 as int,
                        v.large_key,
                        i5 + enc_array(v.large_key).len() as int,
                    ));
                    assert(array_at(
                        data@,
                        i7 as int,
                        v.large_nonce,
                        i7 + enc_array(v.large_nonce).len() as int,
                    ));
                }
            }
        }
        return Err(CipherError::MalformedKeyFile);
    }
    let (large_nonce_field, i8) = r8.unwrap();
    let closed = i8 < data.len() && {
        let c = s[i8];
        c == 125
    } && i8 + 1 == data.len();
    let lengths_ok = key_field.len() == 32 && nonce_field.len() == 24 && large_key_field.len()
        == 32 && large_nonce_field.len() == 19;
    if !(closed && lengths_ok) {
        proof {
            assert forall|v: KeyBundleView| !(wf_view(v) && data@ == enc_bundle(v)) by {
                if wf_view(v) && data@ == enc_bundle(v) {
                    lemma_enc_bundle_offsets(v, data@);
                    assert(array_at(
                        data@,
                        i1 as int,
                        v.key,
                        i1 + enc_array(v.key).len() as int,
                    ));
                    assert(array_at(
                        data@,
                        i3 as int,
                        v.nonce,
                        i3 + enc_array(v.nonce).len() as int,
                    ));
                    assert(array_at(
                        data@,
                        i5 as int,
                        v.large_key,
                        i5 + enc_array(v.large_key).len() as int,
                    ));
                    assert(array_at(
                        data@,
                        i7 as int,
                        v.large_nonce,
                        i7 + enc_array(v.large_nonce).len() as int,
                    ));
                }
            }
        }
        return Err(CipherError::MalformedKeyFile);
    }
    let bundle = KeyBundle {
        key: key_field,
        nonce: nonce_field,
        large_key: large_key_field,
        large_nonce: large_nonce_field,
    };
    proof {
        let len = data@.len() as int;
        let t8 = seq![125u8];
        let t7 = enc_array(bundle@.large_nonce) + t8;
        let t6 = large_nonce_label() + t7;
        let t5 = enc_array(bundle@.large_key) + t6;
        let t4 = large_key_label() + t5;
        let t3 = enc_array(bundle@.nonce) + t4;
        let t2 = nonce_label() + t3;
        let t1 = enc_array(bundle@.key) + t2;
        assert(data@.subrange(i8 as int, len) =~= t8);
        lemma_subrange_join(data@, i7 as int, i8 as int, len);
        assert(data@.subrange(i7 as int, len) == t7);
        lemma_subrange_join(data@, i6 as int, i7 as int, len);
        assert(data@.subrange(i6 as int, len) == t6);
        lemma_subrange_join(data@, i5 as int, i6 as int, len);
        assert(data@.subrange(i5 as int, len) == t5);
        lemma_subrange_join(data@, i4 as int, i5 as int, len);
        assert(data@.subrange(i4 as int, len) == t4);
        lemma_subrange_join(data@, i3 as int, i4 as int, len);
        assert(data@.subrange(i3 as int, len) == t3);
        lemma_subrange_join(data@, i2 as int, i3 as int, len);
        assert(data@.subrange(i2 as int, len) == t2);
        lemma_subrange_join(data@, i1 as int, i2 as int, len);
        assert(data@.subrange(i1 as int, len) == t1);
        lemma_subrange_join(data@, 0, i1 as int, len);
        assert(data@.subrange(0, len) == enc_bundle(bundle@));
        assert(data@.subrange(0, len) =~= data@);
        assert forall|v: KeyBundleView|
            wf_view(v) && data@ == enc_bundle(v) implies bundle@ == v by {
            lemma_enc_bundle_offsets(v, data@);
            assert(array_at(data@, i1 as int, v.key, i1 + enc_array(v.key).len() as int));
            assert(array_at(data@, i3 as int, v.nonce, i3 + enc_array(v.nonce).len() as int));
            assert(array_at(
                data@,
                i5 as int,
                v.large_key,
                i5 + enc_array(v.large_key).len() as int,
            ));
            assert(array_at(
                data@,
                i7 as int,
                v.large_nonce,
                i7 + enc_array(v.large_nonce).len() as int,
            ));
            assert(bundle@ =~= v);
        }
    }
    Ok(bundle)
}

/// Round trip of the key store: a bundle serialized to the key file and
/// read back comes back whole, field for field — so a second load, without
/// the file being deleted in between, returns the identical bundle.
pub fn store_then_load(bundle: &KeyBundle) -> (r: Result<KeyBundle, CipherError>)
    requires
        bundle.wf(),
    ensures
        r matches Ok(b) && b@ == bundle@,
{
    let encoded = encode_key_file(bundle);
    parse_key_file(&encoded)
}

/// Serializes a bundle to the persisted key-file format, producing exactly
/// the canonical encoding that [`parse_key_file`] accepts.
pub fn encode_key_file(bundle: &KeyBundle) -> (r: Vec<u8>)
    ensures
        r@ == enc_bundle(bundle@),
{
    let mut out = key_label_bytes();
    push_array(&mut out, bundle.key.as_slice());
    let mut lbl = nonce_label_bytes();
    out.append(&mut lbl);
    push_array(&mut out, bundle.nonce.as_slice());
    let mut lbl2 = large_key_label_bytes();
    out.append(&mut lbl2);
    push_array(&mut out, bundle.large_key.as_slice());
    let mut lbl3 = large_nonce_label_bytes();
    out.append(&mut lbl3);
    push_array(&mut out, bundle.large_nonce.as_slice());
    out.push(125);
    proof {
        assert(out@ =~= enc_bundle(bundle@));
    }
    out
}

} // verus!
