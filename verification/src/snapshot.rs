//! The persisted snapshot format.
//!
//! A snapshot is a self-contained little-endian byte image of a store: the
//! size bound, the entry count, then each entry as a length-prefixed key
//! (each character a 4-byte scalar value) and a sign/magnitude score.  The
//! encoder and decoder are exact inverses: decoding succeeds precisely on
//! well-formed images, and the store it returns re-encodes to the very
//! bytes that were read.

use vstd::prelude::*;

verus! {

use crate::frecency::{unique_keys, view_of, Frecency, SpecEntry};

/// The scalar value of a character.
pub open spec fn char_scalar(c: char) -> int {
    c as u32 as int
}

/// Relies on `char::from_u32`: returns the character with that scalar
/// value, and `None` exactly when no character has it.
#[verifier::external_body]
fn char_from_u32(x: u32) -> (r: Option<char>)
    ensures
        forall|c: char| #[trigger] char_scalar(c) == x as int ==> r == Some(c),
        r matches Some(c) ==> c as u32 == x,
{
    char::from_u32(x)
}

/// The `n` little-endian bytes of `x`.
pub open spec fn le_n(x: int, n: nat) -> Seq<u8>
    decreases n,
{
    if n == 0 {
        Seq::empty()
    } else {
        seq![(x % 256) as u8] + le_n(x / 256, (n - 1) as nat)
    }
}

/// The value of a little-endian byte sequence.
pub open spec fn le_val(bs: Seq<u8>) -> int
    decreases bs.len(),
{
    if bs.len() == 0 {
        0
    } else {
        bs.first() + 256 * le_val(bs.drop_first())
    }
}

/// 256 to the `n`.
pub open spec fn p256(n: nat) -> int
    decreases n,
{
    if n == 0 {
        1
    } else {
        256 * p256((n - 1) as nat)
    }
}

/// Distinct characters have distinct scalar values.
proof fn lemma_char_u32_inj(a: char, b: char)
    requires
        a as u32 == b as u32,
    ensures
        a == b,
{
}

proof fn lemma_le_n_len(x: int, n: nat)
    ensures
        le_n(x, n).len() == n,
    decreases n,
{
    if n > 0 {
        lemma_le_n_len(x / 256, (n - 1) as nat);
    }
}

proof fn lemma_le_val_bound(bs: Seq<u8>)
    ensures
        0 <= le_val(bs) < p256(bs.len()),
    decreases bs.len(),
{
    if bs.len() > 0 {
        lemma_le_val_bound(bs.drop_first());
        assert(le_val(bs) == bs.first() + 256 * le_val(bs.drop_first()));
        assert(256 * le_val(bs.drop_first()) <= 256 * (p256(bs.drop_first().len()) - 1))
            by (nonlinear_arith)
            requires le_val(bs.drop_first()) <= p256(bs.drop_first().len()) - 1;
    }
}

proof fn lemma_le_n_val(x: int, n: nat)
    requires
        0 <= x < p256(n),
    ensures
        le_val(le_n(x, n)) == x,
    decreases n,
{
    if n == 0 {
    } else {
        assert(x / 256 < p256((n - 1) as nat)) by (nonlinear_arith)
            requires x < p256(n), p256(n) == 256 * p256((n - 1) as nat), x >= 0;
        lemma_le_n_val(x / 256, (n - 1) as nat);
        let s = le_n(x, n);
        assert(s.drop_first() =~= le_n(x / 256, (n - 1) as nat));
        assert(s.first() == (x % 256) as u8);
        assert(x == x % 256 + 256 * (x / 256)) by (nonlinear_arith);
    }
}

proof fn lemma_p256_values()
    ensures
        p256(4) == 4294967296,
        p256(8) == 18446744073709551616,
    decreases 0nat,
{
    reveal_with_fuel(p256, 9);
}

/// Two little-endian images of the same width carry equal values only for
/// equal numbers.
proof fn lemma_le_n_inj(x: int, y: int, n: nat)
    requires
        0 <= x < p256(n),
        0 <= y < p256(n),
        le_n(x, n) == le_n(y, n),
    ensures
        x == y,
{
    lemma_le_n_val(x, n);
    lemma_le_n_val(y, n);
}

/// Splitting a concatenation at matching lengths.
proof fn lemma_concat_split(a: Seq<u8>, b: Seq<u8>, c: Seq<u8>, d: Seq<u8>)
    requires
        a + b == c + d,
        a.len() == c.len(),
    ensures
        a == c,
        b == d,
{
    assert(a =~= (a + b).subrange(0, a.len() as int));
    assert(c =~= (c + d).subrange(0, c.len() as int));
    assert(b =~= (a + b).subrange(a.len() as int, (a + b).len() as int));
    assert(d =~= (c + d).subrange(c.len() as int, (c + d).len() as int));
}

/// The characters of a key, each as a 4-byte scalar value.
pub open spec fn enc_chars(k: Seq<char>) -> Seq<u8>
    decreases k.len(),
{
    if k.len() == 0 {
        Seq::empty()
    } else {
        enc_chars(k.drop_last()) + le_n(k.last() as u32 as int, 4)
    }
}

/// A score as sign and magnitude.
pub open spec fn enc_score(v: int) -> Seq<u8> {
    if v < 0 {
        seq![1u8] + le_n(-v, 8)
    } else {
        seq![0u8] + le_n(v, 8)
    }
}

/// One entry: key length, key characters, score.
pub open spec fn enc_entry(e: SpecEntry) -> Seq<u8> {
    le_n(e.0.len() as int, 8) + enc_chars(e.0) + enc_score(e.1)
}

/// All entries, in order.
pub open spec fn enc_entries(es: Seq<SpecEntry>) -> Seq<u8>
    decreases es.len(),
{
    if es.len() == 0 {
        Seq::empty()
    } else {
        enc_entries(es.drop_last()) + enc_entry(es.last())
    }
}

/// The full snapshot image of a store.
pub open spec fn spec_snapshot(es: Seq<SpecEntry>, max: int) -> Seq<u8> {
    le_n(max, 8) + le_n(es.len() as int, 8) + enc_entries(es)
}

/// Entries whose scores fit the store's score type and whose keys fit the
/// length prefix.
pub open spec fn entries_valid(es: Seq<SpecEntry>) -> bool {
    forall|i: int|
        0 <= i < es.len() ==> (-9223372036854775808 <= (#[trigger] es[i]).1
            <= 9223372036854775807 && es[i].0.len() < 18446744073709551616)
}

proof fn lemma_enc_chars_len(k: Seq<char>)
    ensures
        enc_chars(k).len() == 4 * k.len(),
    decreases k.len(),
{
    if k.len() > 0 {
        lemma_enc_chars_len(k.drop_last());
        lemma_le_n_len(k.last() as u32 as int, 4);
    }
}

proof fn lemma_enc_entry_len(e: SpecEntry)
    ensures
        enc_entry(e).len() == 17 + 4 * e.0.len(),
{
    lemma_le_n_len(e.0.len() as int, 8);
    lemma_enc_chars_len(e.0);
    if e.1 < 0 {
        lemma_le_n_len(-e.1, 8);
    } else {
        lemma_le_n_len(e.1, 8);
    }
}

/// Equal-length keys with equal character images are equal.
proof fn lemma_enc_chars_inj(k1: Seq<char>, k2: Seq<char>)
    requires
        k1.len() == k2.len(),
        enc_chars(k1) == enc_chars(k2),
    ensures
        k1 == k2,
    decreases k1.len(),
{
    if k1.len() > 0 {
        lemma_enc_chars_len(k1.drop_last());
        lemma_enc_chars_len(k2.drop_last());
        lemma_le_n_len(k1.last() as u32 as int, 4);
        lemma_le_n_len(k2.last() as u32 as int, 4);
        assert(enc_chars(k1) == enc_chars(k1.drop_last()) + le_n(k1.last() as u32 as int, 4));
        assert(enc_chars(k2) == enc_chars(k2.drop_last()) + le_n(k2.last() as u32 as int, 4));
        lemma_concat_split(
            enc_chars(k1.drop_last()),
            le_n(k1.last() as u32 as int, 4),
            enc_chars(k2.drop_last()),
            le_n(k2.last() as u32 as int, 4),
        );
        lemma_enc_chars_inj(k1.drop_last(), k2.drop_last());
        lemma_p256_values();
        lemma_le_n_inj(k1.last() as u32 as int, k2.last() as u32 as int, 4);
        assert(k1.last() as u32 == k2.last() as u32);
        lemma_char_u32_inj(k1.last(), k2.last());
        assert(k1.last() == k2.last());
        assert(k1 =~= k1.drop_last().push(k1.last()));
        assert(k2 =~= k2.drop_last().push(k2.last()));
    } else {
        assert(k1 =~= k2);
    }
}

/// Equal-length entry lists with equal images are equal.
proof fn lemma_enc_entries_inj(e1: Seq<SpecEntry>, e2: Seq<SpecEntry>)
    requires
        e1.len() == e2.len(),
        entries_valid(e1),
        entries_valid(e2),
        enc_entries(e1) == enc_entries(e2),
    ensures
        e1 == e2,
    decreases e1.len(),
{
    if e1.len() > 0 {
        let a = e1.last();
        let b = e2.last();
        lemma_enc_entry_len(a);
        lemma_enc_entry_len(b);
        lemma_p256_values();
        // first: the two last entries have equal images of equal length,
        // because the key length is readable from the front of each image
        let ea = enc_entry(a);
        let eb = enc_entry(b);
        lemma_le_n_len(a.0.len() as int, 8);
        lemma_le_n_len(b.0.len() as int, 8);
        lemma_enc_chars_len(a.0);
        lemma_enc_chars_len(b.0);
        lemma_last_entry_len_eq(e1, e2);
        {
            assert(enc_entries(e1) == enc_entries(e1.drop_last()) + ea);
            assert(enc_entries(e2) == enc_entries(e2.drop_last()) + eb);
            lemma_concat_split(enc_entries(e1.drop_last()), ea, enc_entries(e2.drop_last()), eb);
            // split the entry image itself
            assert(le_n(a.0.len() as int, 8) + (enc_chars(a.0) + enc_score(a.1)) =~= ea);
            assert(le_n(b.0.len() as int, 8) + (enc_chars(b.0) + enc_score(b.1)) =~= eb);
            lemma_concat_split(
                le_n(a.0.len() as int, 8),
                enc_chars(a.0) + enc_score(a.1),
                le_n(b.0.len() as int, 8),
                enc_chars(b.0) + enc_score(b.1),
            );
            lemma_le_n_inj(a.0.len() as int, b.0.len() as int, 8);
            lemma_concat_split(enc_chars(a.0), enc_score(a.1), enc_chars(b.0), enc_score(b.1));
            lemma_enc_chars_inj(a.0, b.0);
            // scores: equal sign bytes, equal magnitudes
            if a.1 < 0 {
                lemma_le_n_len(-a.1, 8);
            } else {
                lemma_le_n_len(a.1, 8);
            }
            if b.1 < 0 {
                lemma_le_n_len(-b.1, 8);
            } else {
                lemma_le_n_len(b.1, 8);
            }
            assert(enc_score(a.1)[0] == enc_score(b.1)[0]);
            if a.1 < 0 {
                assert(enc_score(a.1)[0] == 1u8);
                assert(b.1 < 0) by {
                    if b.1 >= 0 {
                        assert(enc_score(b.1)[0] == 0u8);
                    }
                }
                assert(enc_score(a.1) == seq![1u8] + le_n(-a.1, 8));
                assert(enc_score(b.1) == seq![1u8] + le_n(-b.1, 8));
                lemma_concat_split(seq![1u8], le_n(-a.1, 8), seq![1u8], le_n(-b.1, 8));
                lemma_le_n_inj(-a.1, -b.1, 8);
            } else {
                assert(enc_score(a.1)[0] == 0u8);
                assert(b.1 >= 0) by {
                    if b.1 < 0 {
                        assert(enc_score(b.1)[0] == 1u8);
                    }
                }
                assert(enc_score(a.1) == seq![0u8] + le_n(a.1, 8));
                assert(enc_score(b.1) == seq![0u8] + le_n(b.1, 8));
                lemma_concat_split(seq![0u8], le_n(a.1, 8), seq![0u8], le_n(b.1, 8));
                lemma_le_n_inj(a.1, b.1, 8);
            }
            assert(a == b);
            assert forall|i: int| 0 <= i < e1.drop_last().len()
                implies -9223372036854775808 <= (#[trigger] e1.drop_last()[i]).1
                    <= 9223372036854775807 && e1.drop_last()[i].0.len() < 18446744073709551616 by {
                assert(e1.drop_last()[i] == e1[i]);
            }
            assert forall|i: int| 0 <= i < e2.drop_last().len()
                implies -9223372036854775808 <= (#[trigger] e2.drop_last()[i]).1
                    <= 9223372036854775807 && e2.drop_last()[i].0.len() < 18446744073709551616 by {
                assert(e2.drop_last()[i] == e2[i]);
            }
            lemma_enc_entries_inj(e1.drop_last(), e2.drop_last());
            assert(e1 =~= e1.drop_last().push(a));
            assert(e2 =~= e2.drop_last().push(b));
        }
    } else {
        assert(e1 =~= e2);
    }
}

/// The key-length prefix at the front of each entry image forces the last
/// entries of two equal images to occupy images of equal length.
proof fn lemma_last_entry_len_eq(e1: Seq<SpecEntry>, e2: Seq<SpecEntry>)
    requires
        e1.len() == e2.len(),
        e1.len() > 0,
        entries_valid(e1),
        entries_valid(e2),
        enc_entries(e1) == enc_entries(e2),
    ensures
        enc_entry(e1.last()).len() == enc_entry(e2.last()).len(),
    decreases e1.len(),
{
    // entry images are length-prefixed from the front, so recurse from the
    // front instead: strip equal-length front blocks
    lemma_enc_entries_front(e1);
    lemma_enc_entries_front(e2);
    let f1 = e1.first();
    let f2 = e2.first();
    lemma_enc_entry_len(f1);
    lemma_enc_entry_len(f2);
    lemma_le_n_len(f1.0.len() as int, 8);
    lemma_le_n_len(f2.0.len() as int, 8);
    lemma_enc_chars_len(f1.0);
    lemma_enc_chars_len(f2.0);
    // the first 8 bytes of both images read the key length
    let w = enc_entries(e1);
    assert(w.len() >= 8) by {
        lemma_enc_entries_len_ge(e1);
    }
    assert(enc_entry(f1) + enc_entries(e1.drop_first()) == w);
    assert(enc_entries(e2) == enc_entry(f2) + enc_entries(e2.drop_first()));
    assert(enc_entry(f2) + enc_entries(e2.drop_first()) == w);
    assert(le_n(f1.0.len() as int, 8) =~= w.subrange(0, 8)) by {
        assert(enc_entry(f1) =~= le_n(f1.0.len() as int, 8) + (enc_chars(f1.0) + enc_score(
            f1.1,
        )));
        assert forall|i: int| 0 <= i < 8 implies le_n(f1.0.len() as int, 8)[i] == w[i] by {
            assert(w[i] == enc_entry(f1)[i]);
        }
    }
    assert(le_n(f2.0.len() as int, 8) =~= w.subrange(0, 8)) by {
        assert(enc_entry(f2) =~= le_n(f2.0.len() as int, 8) + (enc_chars(f2.0) + enc_score(
            f2.1,
        )));
        assert forall|i: int| 0 <= i < 8 implies le_n(f2.0.len() as int, 8)[i] == w[i] by {
            assert(w[i] == enc_entry(f2)[i]);
        }
    }
    lemma_p256_values();
    lemma_le_n_inj(f1.0.len() as int, f2.0.len() as int, 8);
    assert(enc_entry(f1).len() == enc_entry(f2).len());
    lemma_concat_split(
        enc_entry(f1),
        enc_entries(e1.drop_first()),
        enc_entry(f2),
        enc_entries(e2.drop_first()),
    );
    if e1.len() == 1 {
        assert(e1.last() == f1 && e2.last() == f2);
    } else {
        assert forall|i: int| 0 <= i < e1.drop_first().len()
            implies -9223372036854775808 <= (#[trigger] e1.drop_first()[i]).1
                <= 9223372036854775807 && e1.drop_first()[i].0.len() < 18446744073709551616 by {
            assert(e1.drop_first()[i] == e1[i + 1]);
        }
        assert forall|i: int| 0 <= i < e2.drop_first().len()
            implies -9223372036854775808 <= (#[trigger] e2.drop_first()[i]).1
                <= 9223372036854775807 && e2.drop_first()[i].0.len() < 18446744073709551616 by {
            assert(e2.drop_first()[i] == e2[i + 1]);
        }
        assert(e1.drop_first().last() == e1.last());
        assert(e2.drop_first().last() == e2.last());
        lemma_last_entry_len_eq(e1.drop_first(), e2.drop_first());
    }
}

/// The image of a list is also its first entry's image followed by the
/// rest: concatenation from either end agrees.
proof fn lemma_enc_entries_front(es: Seq<SpecEntry>)
    requires
        es.len() > 0,
    ensures
        enc_entries(es) == enc_entry(es.first()) + enc_entries(es.drop_first()),
    decreases es.len(),
{
    if es.len() == 1 {
        assert(es.drop_last() =~= Seq::<SpecEntry>::empty());
        assert(es.drop_first() =~= Seq::<SpecEntry>::empty());
        assert(es.last() == es.first());
        assert(enc_entries(es) =~= enc_entry(es.first()) + enc_entries(es.drop_first()));
    } else {
        let d = es.drop_last();
        lemma_enc_entries_front(d);
        assert(d.first() == es.first());
        assert(d.drop_first() =~= es.drop_first().drop_last());
        assert(es.drop_first().last() == es.last());
        assert(enc_entries(es.drop_first()) == enc_entries(es.drop_first().drop_last())
            + enc_entry(es.drop_first().last()));
        assert(enc_entries(es) == (enc_entry(es.first()) + enc_entries(es.drop_first().drop_last()))
            + enc_entry(es.last()));
        assert((enc_entry(es.first()) + enc_entries(es.drop_first().drop_last()))
            + enc_entry(es.last()) =~= enc_entry(es.first()) + (enc_entries(
            es.drop_first().drop_last(),
        ) + enc_entry(es.last())));
    }
}

proof fn lemma_enc_entries_len_ge(es: Seq<SpecEntry>)
    requires
        es.len() > 0,
    ensures
        enc_entries(es).len() >= 17,
{
    lemma_enc_entry_len(es.last());
}

/// A snapshot image determines the store: equal images mean equal entries
/// and equal size bounds.
pub proof fn lemma_snapshot_injective(
    e1: Seq<SpecEntry>,
    m1: int,
    e2: Seq<SpecEntry>,
    m2: int,
)
    requires
        0 <= m1 < 18446744073709551616,
        0 <= m2 < 18446744073709551616,
        e1.len() < 18446744073709551616,
        e2.len() < 18446744073709551616,
        entries_valid(e1),
        entries_valid(e2),
        spec_snapshot(e1, m1) == spec_snapshot(e2, m2),
    ensures
        e1 == e2,
        m1 == m2,
{
    lemma_le_n_len(m1, 8);
    lemma_le_n_len(m2, 8);
    lemma_le_n_len(e1.len() as int, 8);
    lemma_le_n_len(e2.len() as int, 8);
    lemma_p256_values();
    assert(le_n(m1, 8) + (le_n(e1.len() as int, 8) + enc_entries(e1)) =~= spec_snapshot(e1, m1));
    assert(le_n(m2, 8) + (le_n(e2.len() as int, 8) + enc_entries(e2)) =~= spec_snapshot(e2, m2));
    lemma_concat_split(
        le_n(m1, 8),
        le_n(e1.len() as int, 8) + enc_entries(e1),
        le_n(m2, 8),
        le_n(e2.len() as int, 8) + enc_entries(e2),
    );
    lemma_le_n_inj(m1, m2, 8);
    lemma_concat_split(
        le_n(e1.len() as int, 8),
        enc_entries(e1),
        le_n(e2.len() as int, 8),
        enc_entries(e2),
    );
    lemma_le_n_inj(e1.len() as int, e2.len() as int, 8);
    lemma_enc_entries_inj(e1, e2);
}

/// A byte sequence is the little-endian image of its own value.
proof fn lemma_le_val_n(bs: Seq<u8>)
    ensures
        le_n(le_val(bs), bs.len()) == bs,
    decreases bs.len(),
{
    if bs.len() > 0 {
        lemma_le_val_n(bs.drop_first());
        lemma_le_val_bound(bs.drop_first());
        let v = le_val(bs);
        assert(v == bs.first() + 256 * le_val(bs.drop_first()));
        assert(v % 256 == bs.first() && v / 256 == le_val(bs.drop_first())) by (nonlinear_arith)
            requires
                v == bs.first() + 256 * le_val(bs.drop_first()),
                0 <= bs.first() < 256,
                le_val(bs.drop_first()) >= 0,
        ;
        assert(le_n(v, bs.len()) =~= bs);
    } else {
        assert(le_n(0, 0) =~= bs);
    }
}

/// Appends the `n` little-endian bytes of `x`.
fn put_le(out: &mut Vec<u8>, x: u64, n: usize)
    requires
        n <= 8,
        (x as int) < p256(n as nat),
    ensures
        final(out)@ == old(out)@ + le_n(x as int, n as nat),
{
    let mut v: u64 = x;
    let mut i: usize = 0;
    while i < n
        invariant
            i <= n,
            out@ + le_n(v as int, (n - i) as nat) == old(out)@ + le_n(x as int, n as nat),
        decreases n - i,
    {
        let ghost pre = out@;
        let b: u8 = (v % 256) as u8;
        out.push(b);
        proof {
            assert(le_n(v as int, (n - i) as nat) == seq![(v as int % 256) as u8] + le_n(
                v as int / 256,
                (n - i - 1) as nat,
            ));
            assert(pre + (seq![b] + le_n(v as int / 256, (n - i - 1) as nat)) =~= (pre + seq![b])
                + le_n(v as int / 256, (n - i - 1) as nat));
            assert(out@ =~= pre + seq![b]);
        }
        v = v / 256;
        i = i + 1;
    }
    proof {
        assert(le_n(v as int, 0) =~= Seq::<u8>::empty());
        assert(out@ + Seq::<u8>::empty() =~= out@);
    }
}

/// Reads the value of `n` little-endian bytes at `pos`.
fn get_le(bytes: &Vec<u8>, pos: usize, n: usize) -> (r: u64)
    requires
        n <= 8,
        pos + n <= bytes@.len(),
    ensures
        r as int == le_val(bytes@.subrange(pos as int, pos as int + n as int)),
        (r as int) < p256(n as nat),
{
    let blen = bytes.len();
    let mut acc: u64 = 0;
    let mut i: usize = n;
    proof {
        assert(bytes@.subrange(pos as int + n as int, pos as int + n as int)
            =~= Seq::<u8>::empty());
    }
    while i > 0
        invariant
            i <= n <= 8,
            blen == bytes@.len(),
            pos + n <= blen,
            acc as int == le_val(bytes@.subrange(pos as int + i as int, pos as int + n as int)),
            (acc as int) < p256((n - i) as nat),
        decreases i,
    {
        i = i - 1;
        let b = bytes[pos + i];
        proof {
            let sub = bytes@.subrange(pos as int + i as int, pos as int + n as int);
            assert(sub.first() == bytes@[pos as int + i as int]);
            assert(sub.drop_first() =~= bytes@.subrange(
                pos as int + i as int + 1,
                pos as int + n as int,
            ));
            lemma_p256_values();
            reveal_with_fuel(p256, 9);
            assert(256 * acc as int + b < 256 * p256((n - i - 1) as nat) )
                by (nonlinear_arith)
                requires
                    (acc as int) < p256((n - i - 1) as nat),
                    0 <= b < 256,
            ;
            assert(p256((n - i) as nat) == 256 * p256((n - i - 1) as nat));
            assert(p256((n - i) as nat) <= p256(8)) by {
                lemma_p256_le((n - i) as nat, 8);
            }
        }
        acc = acc * 256 + (b as u64);
        proof {
            assert(acc as int == le_val(bytes@.subrange(
                pos as int + i as int,
                pos as int + n as int,
            )));
        }
    }
    acc
}

proof fn lemma_p256_le(a: nat, b: nat)
    requires
        a <= b,
    ensures
        p256(a) <= p256(b),
    decreases b,
{
    if a < b {
        lemma_p256_le(a, (b - 1) as nat);
        assert(p256((b - 1) as nat) >= 1) by {
            lemma_p256_pos((b - 1) as nat);
        }
    }
}

proof fn lemma_p256_pos(n: nat)
    ensures
        p256(n) >= 1,
    decreases n,
{
    if n > 0 {
        lemma_p256_pos((n - 1) as nat);
    }
}

/// Serializes a store into its snapshot image.
pub fn encode_store(st: &Frecency) -> (r: Vec<u8>)
    ensures
        r@ == spec_snapshot(st@, st.max_size_spec()),
        entries_valid(st@),
        st@.len() < 18446744073709551616,
        0 <= st.max_size_spec() < 18446744073709551616,
{
    let ghost entries = st@;
    let mut out: Vec<u8> = Vec::new();
    proof {
        lemma_p256_values();
        lemma_p256_le(0, 8);
    }
    let max = st.max_size();
    put_le(&mut out, max as u64, 8);
    let items = st.items().raw();
    proof {
        assert(crate::frecency::view_of(items@) == entries);
        assert(items@.len() == entries.len());
    }
    put_le(&mut out, items.len() as u64, 8);
    proof {
        assert(Seq::<u8>::empty() + le_n(max as int, 8) =~= le_n(max as int, 8));
        assert(enc_entries(entries.take(0)) =~= Seq::<u8>::empty());
        assert(out@ =~= le_n(max as int, 8) + le_n(entries.len() as int, 8) + enc_entries(
            entries.take(0),
        ));
    }
    let mut i: usize = 0;
    while i < items.len()
        invariant
            i <= items@.len(),
            view_of(items@) == entries,
            items@.len() == entries.len(),
            st.max_size_spec() == max as int,
            out@ == le_n(max as int, 8) + le_n(entries.len() as int, 8) + enc_entries(
                entries.take(i as int),
            ),
            forall|z: int|
                0 <= z < i ==> (#[trigger] entries[z]).0.len() < 18446744073709551616,
        decreases items@.len() - i,
    {
        let ghost pre = out@;
        let ghost entry = entries[i as int];
        proof {
            assert(entry == (items@[i as int].0@, items@[i as int].1 as int));
            lemma_p256_values();
        }
        let kv = crate::strutil::chars_of(items[i].0.as_str());
        let klen = kv.len();
        put_le(&mut out, klen as u64, 8);
        proof {
            assert(entry.0.len() == klen as int);
            assert(entry.0.len() < 18446744073709551616);
            assert(enc_chars(entry.0.take(0)) =~= Seq::<u8>::empty());
            assert(out@ =~= pre + le_n(entry.0.len() as int, 8) + enc_chars(entry.0.take(0)));
        }
        let mut j: usize = 0;
        while j < kv.len()
            invariant
                j <= kv@.len(),
                kv@ == entry.0,
                out@ == pre + le_n(entry.0.len() as int, 8) + enc_chars(entry.0.take(j as int)),
            decreases kv@.len() - j,
        {
            let ghost kpre = out@;
            let c = kv[j];
            proof {
                lemma_p256_values();
                assert(((c as u32 as u64) as int) < p256(4)) by {
                    assert((c as u32 as u64) < 4294967296u64);
                }
            }
            put_le(&mut out, c as u32 as u64, 4);
            proof {
                assert(entry.0.take(j as int + 1).drop_last() =~= entry.0.take(j as int));
                assert(entry.0.take(j as int + 1).last() == entry.0[j as int]);
                assert(enc_chars(entry.0.take(j as int + 1)) == enc_chars(entry.0.take(j as int))
                    + le_n(entry.0[j as int] as u32 as int, 4));
                assert(out@ =~= pre + le_n(entry.0.len() as int, 8) + enc_chars(entry.0.take(
                    j as int + 1,
                )));
            }
            j = j + 1;
        }
        proof {
            assert(entry.0.take(entry.0.len() as int) =~= entry.0);
        }
        let v: i64 = items[i].1;
        let ghost mid = out@;
        let mag: u64;
        if v < 0 {
            out.push(1u8);
            if v == i64::MIN {
                mag = 9223372036854775808u64;
            } else {
                mag = (-v) as u64;
            }
        } else {
            out.push(0u8);
            mag = v as u64;
        }
        proof {
            lemma_p256_values();
        }
        put_le(&mut out, mag, 8);
        proof {
            if v < 0 {
                assert(enc_score(entry.1) == seq![1u8] + le_n(-(entry.1), 8));
                assert(out@ =~= mid + enc_score(entry.1));
            } else {
                assert(enc_score(entry.1) == seq![0u8] + le_n(entry.1, 8));
                assert(out@ =~= mid + enc_score(entry.1));
            }
            assert(entries.take(i as int + 1).drop_last() =~= entries.take(i as int));
            assert(entries.take(i as int + 1).last() == entry);
            assert(enc_entries(entries.take(i as int + 1)) == enc_entries(entries.take(i as int))
                + enc_entry(entry));
            assert(mid =~= pre + (le_n(entry.0.len() as int, 8) + enc_chars(entry.0)));
            assert(out@ =~= pre + (le_n(entry.0.len() as int, 8) + enc_chars(entry.0)
                + enc_score(entry.1)));
            assert(out@ =~= le_n(max as int, 8) + le_n(entries.len() as int, 8) + enc_entries(
                entries.take(i as int + 1),
            ));
        }
        i = i + 1;
    }
    proof {
        assert(entries.take(entries.len() as int) =~= entries);
    }
    out
}

/// A well-formed key block: each 4-byte chunk is the scalar value of some
/// character.
pub open spec fn chars_ok(bytes: Seq<u8>, pos: int, k: int) -> bool
    decreases k,
{
    if k <= 0 {
        true
    } else {
        &&& (exists|c: char| #[trigger] char_scalar(c) == le_val(bytes.subrange(pos, pos + 4)))
        &&& chars_ok(bytes, pos + 4, k - 1)
    }
}

/// A well-formed run of `n` entries filling `bytes` from `pos` to the end.
pub open spec fn entries_ok(bytes: Seq<u8>, pos: int, n: int) -> bool
    decreases n,
{
    if n <= 0 {
        pos == bytes.len()
    } else {
        &&& 0 <= pos
        &&& pos + 8 <= bytes.len()
        &&& {
            let klen = le_val(bytes.subrange(pos, pos + 8));
            &&& pos + 17 + 4 * klen <= bytes.len()
            &&& chars_ok(bytes, pos + 8, klen)
            &&& {
                let sb = bytes[pos + 8 + 4 * klen];
                let mag = le_val(bytes.subrange(pos + 9 + 4 * klen, pos + 17 + 4 * klen));
                ||| (sb == 0 && mag <= 9223372036854775807)
                ||| (sb == 1 && 1 <= mag <= 9223372036854775808)
            }
            &&& entries_ok(bytes, pos + 17 + 4 * klen, n - 1)
        }
    }
}

/// A well-formed snapshot image: readable header, a size bound that fits,
/// and exactly the announced entries.
pub open spec fn snapshot_ok(bytes: Seq<u8>) -> bool {
    &&& bytes.len() >= 16
    &&& le_val(bytes.subrange(0, 8)) <= usize::MAX as int
    &&& entries_ok(bytes, 16, le_val(bytes.subrange(8, 16)))
}

/// Overwriting one more entry applies on top of the earlier ones.
proof fn lemma_overwrite_all_push(
    s: Seq<SpecEntry>,
    adds: Seq<SpecEntry>,
    x: SpecEntry,
)
    ensures
        crate::frecent_paths::spec_overwrite_all(s, adds.push(x))
            == crate::frecent_paths::upsert(
            crate::frecent_paths::spec_overwrite_all(s, adds),
            x.0,
            x.1,
        ),
    decreases adds.len(),
{
    if adds.len() == 0 {
        assert(adds.push(x).drop_first() =~= Seq::<SpecEntry>::empty());
        assert(adds.push(x).first() == x);
        assert(adds.push(x).len() == 1);
        assert(crate::frecent_paths::spec_overwrite_all(s, adds) == s);
        assert(crate::frecent_paths::spec_overwrite_all(s, adds.push(x))
            == crate::frecent_paths::spec_overwrite_all(
            crate::frecent_paths::upsert(s, x.0, x.1),
            adds.push(x).drop_first(),
        ));
        assert(crate::frecent_paths::spec_overwrite_all(
            crate::frecent_paths::upsert(s, x.0, x.1),
            adds.push(x).drop_first(),
        ) == crate::frecent_paths::upsert(s, x.0, x.1));
    } else {
        assert(adds.push(x).first() == adds.first());
        assert(adds.push(x).drop_first() =~= adds.drop_first().push(x));
        lemma_overwrite_all_push(
            crate::frecent_paths::upsert(s, adds.first().0, adds.first().1),
            adds.drop_first(),
            x,
        );
        assert(crate::frecent_paths::spec_overwrite_all(s, adds.push(x))
            == crate::frecent_paths::spec_overwrite_all(
            crate::frecent_paths::upsert(s, adds.first().0, adds.first().1),
            adds.drop_first().push(x),
        ));
        assert(crate::frecent_paths::spec_overwrite_all(s, adds)
            == crate::frecent_paths::spec_overwrite_all(
            crate::frecent_paths::upsert(s, adds.first().0, adds.first().1),
            adds.drop_first(),
        ));
    }
}

/// Parses a snapshot image back into a store.  Succeeds exactly on
/// well-formed images; the store it returns re-encodes to the given bytes
/// (entries with repeated keys collapse, last occurrence winning, exactly
/// as successive overwrites).
pub fn decode_store(bytes: &Vec<u8>) -> (r: Result<Frecency, String>)
    ensures
        match r {
            Ok(st) => {
                &&& snapshot_ok(bytes@)
                &&& st.wf()
                &&& st.max_size_spec() == le_val(bytes@.subrange(0, 8))
                &&& 0 <= st.max_size_spec() < 18446744073709551616
                &&& exists|de: Seq<SpecEntry>|
                    {
                        &&& bytes@ == spec_snapshot(de, st.max_size_spec())
                        &&& st@ == crate::frecent_paths::spec_overwrite_all(
                            Seq::<SpecEntry>::empty(),
                            de,
                        )
                        &&& entries_valid(de)
                        &&& de.len() < 18446744073709551616
                    }
            },
            Err(_) => !snapshot_ok(bytes@),
        },
{
    let blen = bytes.len();
    if blen < 16 {
        return Err("corrupt snapshot".to_owned());
    }
    let max64 = get_le(bytes, 0, 8);
    let n64 = get_le(bytes, 8, 8);
    proof {
        lemma_p256_values();
    }
    if max64 > usize::MAX as u64 {
        return Err("corrupt snapshot".to_owned());
    }
    let mut st = Frecency::new(max64 as usize);
    let ghost mut de: Seq<SpecEntry> = Seq::empty();
    let mut pos: usize = 16;
    let mut i: u64 = 0;
    proof {
        assert(enc_entries(de) =~= Seq::<u8>::empty());
        assert(bytes@.subrange(0, 8) =~= bytes@.subrange(0, 16).subrange(0, 8));
        assert(bytes@.subrange(8, 16) =~= bytes@.subrange(0, 16).subrange(8, 16));
        lemma_le_val_n(bytes@.subrange(0, 8));
        lemma_le_val_n(bytes@.subrange(8, 16));
        assert(bytes@.subrange(0, 16) =~= bytes@.subrange(0, 8) + bytes@.subrange(8, 16));
        assert(bytes@.subrange(0, 16) =~= le_n(max64 as int, 8) + le_n(n64 as int, 8)
            + enc_entries(de));
    }
    while i < n64
        invariant
            blen == bytes@.len(),
            16 <= pos <= blen,
            i <= n64,
            de.len() == i,
            st.wf(),
            st.max_size_spec() == max64 as int,
            (max64 as int) == le_val(bytes@.subrange(0, 8)),
            (n64 as int) == le_val(bytes@.subrange(8, 16)),
            max64 <= usize::MAX as u64,
            bytes@.subrange(0, pos as int) == le_n(max64 as int, 8) + le_n(n64 as int, 8)
                + enc_entries(de),
            st@ == crate::frecent_paths::spec_overwrite_all(Seq::<SpecEntry>::empty(), de),
            entries_ok(bytes@, 16, n64 as int) == entries_ok(
                bytes@,
                pos as int,
                n64 as int - i as int,
            ),
            entries_valid(de),
        decreases n64 - i,
    {
        let ghost pre_prefix = bytes@.subrange(0, pos as int);
        let ghost de0 = de;
        if blen - pos < 8 {
            return Err("corrupt snapshot".to_owned());
        }
        let klen64 = get_le(bytes, pos, 8);
        proof {
            lemma_p256_values();
        }
        if ((blen - pos - 8) as u64) < 9 || (((blen - pos - 8 - 9) as u64) as u128)
            < 4 * (klen64 as u128) {
            proof {
                assert(!entries_ok(bytes@, pos as int, n64 as int - i as int));
            }
            return Err("corrupt snapshot".to_owned());
        }
        let klen = klen64 as usize;
        let kstart = pos + 8;
        let mut kv: Vec<char> = Vec::new();
        let mut j: usize = 0;
        proof {
            assert(enc_chars(kv@) =~= Seq::<u8>::empty());
            assert(bytes@.subrange(kstart as int, kstart as int) =~= Seq::<u8>::empty());
        }
        while j < klen
            invariant
                blen == bytes@.len(),
                16 <= pos <= blen,
                pos + 17 + 4 * (klen as int) <= blen,
                kstart == pos + 8,
                j <= klen,
                kv@.len() == j,
                enc_chars(kv@) == bytes@.subrange(kstart as int, kstart as int + 4 * j as int),
                chars_ok(bytes@, kstart as int, klen as int) == chars_ok(
                    bytes@,
                    kstart as int + 4 * j as int,
                    klen as int - j as int,
                ),
                i < n64,
                de.len() == i,
                st.wf(),
                st.max_size_spec() == max64 as int,
                st@ == crate::frecent_paths::spec_overwrite_all(Seq::<SpecEntry>::empty(), de),
                entries_valid(de),
                (max64 as int) == le_val(bytes@.subrange(0, 8)),
                (n64 as int) == le_val(bytes@.subrange(8, 16)),
                max64 <= usize::MAX as u64,
                bytes@.subrange(0, pos as int) == le_n(max64 as int, 8) + le_n(n64 as int, 8)
                    + enc_entries(de),
                entries_ok(bytes@, 16, n64 as int) == entries_ok(
                    bytes@,
                    pos as int,
                    n64 as int - i as int,
                ),
                (klen64 as int) == le_val(bytes@.subrange(pos as int, pos as int + 8)),
                klen as int == klen64 as int,
            decreases klen - j,
        {
            let cpos = kstart + 4 * j;
            let cval64 = get_le(bytes, cpos, 4);
            proof {
                lemma_p256_values();
            }
            let cval: u32 = cval64 as u32;
            match char_from_u32(cval) {
                Some(c) => {
                    let ghost kpre = kv@;
                    kv.push(c);
                    proof {
                        let chunk = bytes@.subrange(cpos as int, cpos as int + 4);
                        lemma_le_val_n(chunk);
                        lemma_p256_values();
                        assert(cval as int == cval64 as int);
                        assert(c as u32 == cval);
                        assert(c as u32 as int == le_val(chunk));
                        assert(char_scalar(c) == le_val(chunk));
                        assert(le_n(c as u32 as int, 4) == chunk);
                        assert(kv@.drop_last() =~= kpre);
                        assert(enc_chars(kv@) == enc_chars(kpre) + le_n(c as u32 as int, 4));
                        assert(enc_chars(kv@) =~= bytes@.subrange(
                            kstart as int,
                            kstart as int + 4 * (j as int + 1),
                        ));
                        assert(chars_ok(bytes@, cpos as int, klen as int - j as int)
                            == chars_ok(bytes@, cpos as int + 4, klen as int - j as int - 1));
                    }
                },
                None => {
                    proof {
                        let chunk = bytes@.subrange(cpos as int, cpos as int + 4);
                        lemma_p256_values();
                        assert(cval as int == cval64 as int);
                        assert(!chars_ok(bytes@, cpos as int, klen as int - j as int)) by {
                            if chars_ok(bytes@, cpos as int, klen as int - j as int) {
                                let c = choose|c: char| #[trigger] char_scalar(c) == le_val(
                                    chunk,
                                );
                                assert(char_scalar(c) == cval as int);
                            }
                        }
                        assert(!entries_ok(bytes@, pos as int, n64 as int - i as int));
                    }
                    return Err("corrupt snapshot".to_owned());
                },
            }
            j = j + 1;
        }
        let spos = kstart + 4 * klen;
        let sb = bytes[spos];
        let mag = get_le(bytes, spos + 1, 8);
        proof {
            lemma_p256_values();
        }
        let value: i64;
        if sb == 0 {
            if mag > 9223372036854775807u64 {
                proof {
                    assert(!entries_ok(bytes@, pos as int, n64 as int - i as int));
                }
                return Err("corrupt snapshot".to_owned());
            }
            value = mag as i64;
        } else if sb == 1 {
            if mag == 0 || mag > 9223372036854775808u64 {
                proof {
                    assert(!entries_ok(bytes@, pos as int, n64 as int - i as int));
                }
                return Err("corrupt snapshot".to_owned());
            }
            if mag == 9223372036854775808u64 {
                value = i64::MIN;
            } else {
                value = -(mag as i64);
            }
        } else {
            proof {
                assert(!entries_ok(bytes@, pos as int, n64 as int - i as int));
            }
            return Err("corrupt snapshot".to_owned());
        }
        let key = crate::strutil::string_from_chars(&kv);
        let ghost entry: SpecEntry = (kv@, value as int);
        st.overwrite(key, value);
        proof {
            lemma_overwrite_all_push(Seq::<SpecEntry>::empty(), de, entry);
            de = de.push(entry);
            assert(de.drop_last() =~= de0);
        }
        let newpos = spos + 9;
        proof {
            // the consumed bytes are exactly this entry's image
            let keybytes = bytes@.subrange(kstart as int, spos as int);
            assert(enc_chars(entry.0) == keybytes);
            let lenbytes = bytes@.subrange(pos as int, kstart as int);
            lemma_le_val_n(lenbytes);
            assert(entry.0.len() as int == klen64 as int);
            assert(le_n(entry.0.len() as int, 8) == lenbytes);
            let signbyte = bytes@.subrange(spos as int, spos as int + 1);
            assert(signbyte =~= seq![sb]);
            let magbytes = bytes@.subrange(spos as int + 1, newpos as int);
            lemma_le_val_n(magbytes);
            if value < 0 {
                assert(-(value as int) == mag as int);
                assert(enc_score(entry.1) =~= seq![1u8] + magbytes);
                assert(sb == 1);
            } else {
                assert(value as int == mag as int);
                assert(enc_score(entry.1) =~= seq![0u8] + magbytes);
                assert(sb == 0);
            }
            assert(bytes@.subrange(pos as int, newpos as int) =~= lenbytes + keybytes
                + signbyte + magbytes);
            assert(enc_entry(entry) =~= lenbytes + keybytes + signbyte + magbytes);
            assert(enc_entries(de) == enc_entries(de0) + enc_entry(entry));
            assert(bytes@.subrange(0, newpos as int) =~= bytes@.subrange(0, pos as int)
                + bytes@.subrange(pos as int, newpos as int));
            assert(bytes@.subrange(0, pos as int) == le_n(max64 as int, 8) + le_n(n64 as int, 8)
                + enc_entries(de0));
            assert((le_n(max64 as int, 8) + le_n(n64 as int, 8) + enc_entries(de0))
                + enc_entry(entry) =~= le_n(max64 as int, 8) + le_n(n64 as int, 8)
                + (enc_entries(de0) + enc_entry(entry)));
            assert(bytes@.subrange(0, newpos as int) =~= le_n(max64 as int, 8) + le_n(
                n64 as int,
                8,
            ) + enc_entries(de));
            // well-formedness peels one entry
            assert(entries_ok(bytes@, pos as int, n64 as int - i as int) == entries_ok(
                bytes@,
                newpos as int,
                n64 as int - i as int - 1,
            ));
        }
        pos = newpos;
        i = i + 1;
    }
    if pos != blen {
        proof {
            assert(!entries_ok(bytes@, pos as int, 0));
        }
        return Err("corrupt snapshot".to_owned());
    }
    proof {
        assert(bytes@.subrange(0, blen as int) =~= bytes@);
        assert(bytes@ == spec_snapshot(de, max64 as int));
        assert(entries_ok(bytes@, pos as int, 0));
        assert(snapshot_ok(bytes@));
    }
    Ok(st)
}

/// Every encoded key block is well formed: each chunk carries its
/// character's scalar value.
proof fn lemma_chars_ok_of_enc(bytes: Seq<u8>, pos: int, k: Seq<char>)
    requires
        0 <= pos,
        pos + 4 * k.len() <= bytes.len(),
        bytes.subrange(pos, pos + 4 * k.len()) == enc_chars(k),
    ensures
        chars_ok(bytes, pos, k.len() as int),
    decreases k.len(),
{
    if k.len() > 0 {
        lemma_enc_chars_front(k);
        lemma_enc_chars_len(k.drop_first());
        lemma_le_n_len(k.first() as u32 as int, 4);
        let chunk = bytes.subrange(pos, pos + 4);
        assert(chunk =~= enc_chars(k).subrange(0, 4)) by {
            assert forall|z: int| 0 <= z < 4 implies chunk[z] == enc_chars(k).subrange(0, 4)[z] by {
                assert(chunk[z] == bytes[pos + z]);
                assert(bytes.subrange(pos, pos + 4 * k.len())[z] == bytes[pos + z]);
            }
        }
        assert(enc_chars(k).subrange(0, 4) =~= le_n(k.first() as u32 as int, 4)) by {
            assert(enc_chars(k) == le_n(k.first() as u32 as int, 4) + enc_chars(k.drop_first()));
        }
        lemma_p256_values();
        lemma_le_n_val(k.first() as u32 as int, 4);
        assert(char_scalar(k.first()) == le_val(chunk));
        assert(bytes.subrange(pos + 4, pos + 4 + 4 * k.drop_first().len()) =~= enc_chars(
            k.drop_first(),
        )) by {
            assert(enc_chars(k) == le_n(k.first() as u32 as int, 4) + enc_chars(k.drop_first()));
            assert forall|z: int| 0 <= z < 4 * k.drop_first().len()
                implies bytes.subrange(pos + 4, pos + 4 + 4 * k.drop_first().len())[z]
                    == enc_chars(k.drop_first())[z] by {
                assert(bytes.subrange(pos, pos + 4 * k.len())[z + 4] == bytes[pos + 4 + z]);
                assert(enc_chars(k)[z + 4] == enc_chars(k.drop_first())[z]);
            }
        }
        lemma_chars_ok_of_enc(bytes, pos + 4, k.drop_first());
    }
}

/// Key blocks decompose from the front as well.
proof fn lemma_enc_chars_front(k: Seq<char>)
    requires
        k.len() > 0,
    ensures
        enc_chars(k) == le_n(k.first() as u32 as int, 4) + enc_chars(k.drop_first()),
    decreases k.len(),
{
    if k.len() == 1 {
        assert(k.drop_last() =~= Seq::<char>::empty());
        assert(k.drop_first() =~= Seq::<char>::empty());
        assert(k.last() == k.first());
        assert(enc_chars(k) =~= le_n(k.first() as u32 as int, 4) + enc_chars(k.drop_first()));
    } else {
        let d = k.drop_last();
        lemma_enc_chars_front(d);
        assert(d.first() == k.first());
        assert(d.drop_first() =~= k.drop_first().drop_last());
        assert(k.drop_first().last() == k.last());
        assert(enc_chars(k.drop_first()) == enc_chars(k.drop_first().drop_last()) + le_n(
            k.last() as u32 as int,
            4,
        ));
        assert((le_n(k.first() as u32 as int, 4) + enc_chars(k.drop_first().drop_last())) + le_n(
            k.last() as u32 as int,
            4,
        ) =~= le_n(k.first() as u32 as int, 4) + (enc_chars(k.drop_first().drop_last()) + le_n(
            k.last() as u32 as int,
            4,
        )));
    }
}

/// An encoded entry run is well formed at its own position.
proof fn lemma_entries_ok_of_enc(bytes: Seq<u8>, pos: int, es: Seq<SpecEntry>)
    requires
        0 <= pos <= bytes.len(),
        bytes.subrange(pos, bytes.len() as int) == enc_entries(es),
        entries_valid(es),
    ensures
        entries_ok(bytes, pos, es.len() as int),
    decreases es.len(),
{
    if es.len() == 0 {
        assert(bytes.subrange(pos, bytes.len() as int).len() == 0);
    } else {
        let f = es.first();
        lemma_enc_entries_front(es);
        lemma_enc_entry_len(f);
        lemma_le_n_len(f.0.len() as int, 8);
        lemma_enc_chars_len(f.0);
        let rest = bytes.len() as int - pos;
        let elen = 17 + 4 * f.0.len() as int;
        assert(enc_entries(es).len() == rest);
        let sub = bytes.subrange(pos, bytes.len() as int);
        assert(sub == enc_entry(f) + enc_entries(es.drop_first()));
        assert(elen + enc_entries(es.drop_first()).len() == rest);
        // key length prefix
        assert(enc_entry(f) =~= le_n(f.0.len() as int, 8) + (enc_chars(f.0) + enc_score(f.1)));
        assert(bytes.subrange(pos, pos + 8) =~= le_n(f.0.len() as int, 8)) by {
            assert forall|z: int| 0 <= z < 8
                implies bytes.subrange(pos, pos + 8)[z] == le_n(f.0.len() as int, 8)[z] by {
                assert(sub[z] == bytes[pos + z]);
                assert(sub[z] == enc_entry(f)[z]);
            }
        }
        lemma_p256_values();
        lemma_le_n_val(f.0.len() as int, 8);
        assert(le_val(bytes.subrange(pos, pos + 8)) == f.0.len() as int);
        // key block
        assert(bytes.subrange(pos + 8, pos + 8 + 4 * f.0.len()) =~= enc_chars(f.0)) by {
            assert forall|z: int| 0 <= z < 4 * f.0.len()
                implies bytes.subrange(pos + 8, pos + 8 + 4 * f.0.len())[z]
                    == enc_chars(f.0)[z] by {
                assert(sub[8 + z] == bytes[pos + 8 + z]);
                assert(sub[8 + z] == enc_entry(f)[8 + z]);
                assert(enc_entry(f)[8 + z] == (enc_chars(f.0) + enc_score(f.1))[z]);
            }
        }
        lemma_chars_ok_of_enc(bytes, pos + 8, f.0);
        // sign and magnitude
        let spos = pos + 8 + 4 * f.0.len() as int;
        if f.1 < 0 {
            lemma_le_n_len(-f.1, 8);
        } else {
            lemma_le_n_len(f.1, 8);
        }
        assert(bytes.subrange(spos, spos + 9) =~= enc_score(f.1)) by {
            assert forall|z: int| 0 <= z < 9
                implies bytes.subrange(spos, spos + 9)[z] == enc_score(f.1)[z] by {
                assert(sub[8 + 4 * f.0.len() + z] == bytes[spos + z]);
                assert(sub[8 + 4 * f.0.len() + z] == enc_entry(f)[8 + 4 * f.0.len() + z]);
                assert(enc_entry(f)[8 + 4 * f.0.len() + z] == (enc_chars(f.0) + enc_score(
                    f.1,
                ))[4 * f.0.len() + z]);
            }
        }
        if f.1 < 0 {
            assert(bytes[spos] == 1u8) by {
                assert(bytes.subrange(spos, spos + 9)[0] == bytes[spos]);
                assert(enc_score(f.1)[0] == 1u8);
            }
            assert(bytes.subrange(spos + 1, spos + 9) =~= le_n(-f.1, 8)) by {
                assert forall|z: int| 0 <= z < 8
                    implies #[trigger] bytes.subrange(spos + 1, spos + 9)[z]
                        == le_n(-f.1, 8)[z] by {
                    assert(bytes.subrange(spos, spos + 9)[1 + z] == bytes[spos + 1 + z]);
                    assert(enc_score(f.1)[1 + z] == le_n(-f.1, 8)[z]);
                }
            }
            lemma_le_n_val(-f.1, 8);
        } else {
            assert(bytes[spos] == 0u8) by {
                assert(bytes.subrange(spos, spos + 9)[0] == bytes[spos]);
                assert(enc_score(f.1)[0] == 0u8);
            }
            assert(bytes.subrange(spos + 1, spos + 9) =~= le_n(f.1, 8)) by {
                assert forall|z: int| 0 <= z < 8
                    implies #[trigger] bytes.subrange(spos + 1, spos + 9)[z]
                        == le_n(f.1, 8)[z] by {
                    assert(bytes.subrange(spos, spos + 9)[1 + z] == bytes[spos + 1 + z]);
                    assert(enc_score(f.1)[1 + z] == le_n(f.1, 8)[z]);
                }
            }
            lemma_le_n_val(f.1, 8);
        }
        // the remaining entries
        assert forall|i: int| 0 <= i < es.drop_first().len()
            implies -9223372036854775808 <= (#[trigger] es.drop_first()[i]).1
                <= 9223372036854775807 && es.drop_first()[i].0.len() < 18446744073709551616 by {
            assert(es.drop_first()[i] == es[i + 1]);
        }
        assert(bytes.subrange(pos + elen, bytes.len() as int) =~= enc_entries(
            es.drop_first(),
        )) by {
            assert forall|z: int| 0 <= z < enc_entries(es.drop_first()).len()
                implies bytes.subrange(pos + elen, bytes.len() as int)[z] == enc_entries(
                es.drop_first(),
            )[z] by {
                assert(sub[elen + z] == bytes[pos + elen + z]);
                assert(sub[elen + z] == (enc_entry(f) + enc_entries(es.drop_first()))[elen + z]);
            }
        }
        lemma_entries_ok_of_enc(bytes, pos + elen, es.drop_first());
    }
}

/// A store's own snapshot image is well formed: decoding it succeeds.
pub proof fn lemma_snapshot_wellformed(es: Seq<SpecEntry>, m: int)
    requires
        0 <= m <= usize::MAX as int,
        es.len() < 18446744073709551616,
        entries_valid(es),
    ensures
        snapshot_ok(spec_snapshot(es, m)),
{
    let bytes = spec_snapshot(es, m);
    lemma_le_n_len(m, 8);
    lemma_le_n_len(es.len() as int, 8);
    lemma_p256_values();
    assert(bytes.subrange(0, 8) =~= le_n(m, 8));
    lemma_le_n_val(m, 8);
    assert(bytes.subrange(8, 16) =~= le_n(es.len() as int, 8));
    lemma_le_n_val(es.len() as int, 8);
    assert(bytes.subrange(16, bytes.len() as int) =~= enc_entries(es));
    lemma_entries_ok_of_enc(bytes, 16, es);
}

/// Overwriting unique fresh entries into an empty store lays them out
/// verbatim.
proof fn lemma_overwrite_all_fresh(acc: Seq<SpecEntry>, rest: Seq<SpecEntry>)
    requires
        unique_keys(acc + rest),
    ensures
        crate::frecent_paths::spec_overwrite_all(acc, rest) == acc + rest,
    decreases rest.len(),
{
    if rest.len() == 0 {
        assert(acc + rest =~= acc);
    } else {
        let x = rest.first();
        assert(!crate::frecency::contains_key(acc, x.0)) by {
            if crate::frecency::contains_key(acc, x.0) {
                let i = choose|i: int| 0 <= i < acc.len() && acc[i].0 == x.0;
                assert((acc + rest)[i].0 == x.0);
                assert((acc + rest)[acc.len() as int].0 == x.0);
            }
        }
        assert(crate::frecent_paths::upsert(acc, x.0, x.1) == acc.push(x)) by {
            assert(acc.push(x) =~= acc.push((x.0, x.1)));
        }
        assert(acc.push(x) + rest.drop_first() =~= acc + rest);
        lemma_overwrite_all_fresh(acc.push(x), rest.drop_first());
    }
}

/// The snapshot round trip: loading the bytes a store saved yields exactly
/// that store.  `de` and `m2` are what the decoder read; the equal images
/// force equal entries, and replaying unique entries reproduces them.
pub proof fn lemma_snapshot_roundtrip(
    es: Seq<SpecEntry>,
    m: int,
    de: Seq<SpecEntry>,
    m2: int,
)
    requires
        unique_keys(es),
        entries_valid(es),
        entries_valid(de),
        es.len() < 18446744073709551616,
        de.len() < 18446744073709551616,
        0 <= m < 18446744073709551616,
        0 <= m2 < 18446744073709551616,
        spec_snapshot(de, m2) == spec_snapshot(es, m),
    ensures
        m2 == m,
        crate::frecent_paths::spec_overwrite_all(Seq::<SpecEntry>::empty(), de) == es,
{
    lemma_snapshot_injective(de, m2, es, m);
    assert(Seq::<SpecEntry>::empty() + es =~= es);
    lemma_overwrite_all_fresh(Seq::<SpecEntry>::empty(), es);
}

} // verus!
