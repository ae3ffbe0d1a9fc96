//! Hex codec for command-line key and salt arguments.
//!
//! Decoding filters the input down to the hex-digit alphabet, silently
//! discarding every other byte, then pairs consecutive nibbles high first;
//! an odd trailing nibble is dropped.

use vstd::prelude::*;

verus! {

/// True of the byte values that stand for hexadecimal digits.
pub open spec fn is_hex_digit(b: u8) -> bool {
    (48 <= b && b <= 57) || (97 <= b && b <= 102) || (65 <= b && b <= 70)
}

/// The numeric value, below 16, of one hexadecimal digit byte.
pub open spec fn hex_digit_value(b: u8) -> u8 {
    if 48 <= b && b <= 57 {
        (b - 48) as u8
    } else if 97 <= b && b <= 102 {
        (b - 97 + 10) as u8
    } else {
        (b - 65 + 10) as u8
    }
}

/// The nibble values of `s` once every non-hex byte is filtered away.
pub open spec fn nibbles_of(s: Seq<u8>) -> Seq<u8>
    decreases s.len(),
{
    if s.len() == 0 {
        Seq::empty()
    } else if is_hex_digit(s[0]) {
        seq![hex_digit_value(s[0])] + nibbles_of(s.skip(1))
    } else {
        nibbles_of(s.skip(1))
    }
}

/// Consecutive nibbles paired into bytes, high nibble first; a trailing
/// unpaired nibble is dropped.
pub open spec fn paired_bytes(ns: Seq<u8>) -> Seq<u8>
    decreases ns.len(),
{
    if ns.len() < 2 {
        Seq::empty()
    } else {
        seq![(ns[0] * 16 + ns[1]) as u8] + paired_bytes(ns.skip(2))
    }
}

/// What decoding a byte string of hex digits yields.
pub open spec fn decoded_bytes(s: Seq<u8>) -> Seq<u8> {
    paired_bytes(nibbles_of(s))
}

/// The two hex digit bytes (lower case) that encode one byte, high first.
pub open spec fn hex_digit_byte(v: u8) -> u8 {
    if v < 10 {
        (48 + v) as u8
    } else {
        (97 + (v - 10)) as u8
    }
}

/// The lower-case hex encoding of a byte sequence.
pub open spec fn encoded_hex(bs: Seq<u8>) -> Seq<u8>
    decreases bs.len(),
{
    if bs.len() == 0 {
        Seq::empty()
    } else {
        seq![hex_digit_byte((bs[0] / 16) as u8), hex_digit_byte((bs[0] % 16) as u8)]
            + encoded_hex(bs.skip(1))
    }
}

/// Decodes a hex string given as bytes: non-hex bytes are ignored and an odd
/// trailing nibble is dropped.
pub fn parse_hex(hex_asm: &[u8]) -> (r: Vec<u8>)
    ensures
        r@ == decoded_bytes(hex_asm@),
{
    let mut nibbles: Vec<u8> = Vec::new();
    let mut i: usize = 0;
    proof {
        assert(hex_asm@.skip(0) =~= hex_asm@);
        assert(Seq::<u8>::empty() + nibbles_of(hex_asm@) =~= nibbles_of(hex_asm@));
    }
    while i < hex_asm.len()
        invariant
            i <= hex_asm@.len(),
            nibbles@ + nibbles_of(hex_asm@.skip(i as int)) == nibbles_of(hex_asm@),
            forall|k: int| 0 <= k < nibbles@.len() ==> nibbles@[k] < 16,
        decreases hex_asm@.len() - i,
    {
        let b = hex_asm[i];
        proof {
            assert(hex_asm@.skip(i as int)[0] == hex_asm@[i as int]);
            assert(hex_asm@.skip(i as int).skip(1) =~= hex_asm@.skip(i as int + 1));
        }
        if 48 <= b && b <= 57 {
            nibbles.push(b - 48);
        } else if 97 <= b && b <= 102 {
            nibbles.push(b - 97 + 10);
        } else if 65 <= b && b <= 70 {
            nibbles.push(b - 65 + 10);
        }
        proof {
            if is_hex_digit(b) {
                assert(nibbles@.drop_last() + (seq![hex_digit_value(b)]
                    + nibbles_of(hex_asm@.skip(i as int + 1))) == nibbles_of(hex_asm@));
                assert(nibbles@ + nibbles_of(hex_asm@.skip(i as int + 1)) =~= nibbles@.drop_last()
                    + (seq![hex_digit_value(b)] + nibbles_of(hex_asm@.skip(i as int + 1))));
            }
        }
        i = i + 1;
    }
    proof {
        assert(hex_asm@.skip(hex_asm@.len() as int) =~= Seq::<u8>::empty());
        assert(nibbles@ + Seq::<u8>::empty() =~= nibbles@);
    }
    let mut bytes: Vec<u8> = Vec::new();
    let mut j: usize = 0;
    proof {
        assert(nibbles@.skip(0) =~= nibbles@);
        assert(Seq::<u8>::empty() + paired_bytes(nibbles@) =~= paired_bytes(nibbles@));
    }
    while j + 1 < nibbles.len()
        invariant
            j % 2 == 0,
            j <= nibbles@.len(),
            forall|k: int| 0 <= k < nibbles@.len() ==> nibbles@[k] < 16,
            bytes@ + paired_bytes(nibbles@.skip(j as int)) == paired_bytes(nibbles@),
        decreases nibbles@.len() - j,
    {
        let hi = nibbles[j];
        let lo = nibbles[j + 1];
        proof {
            assert(nibbles@.skip(j as int)[0] == nibbles@[j as int]);
            assert(nibbles@.skip(j as int)[1] == nibbles@[j as int + 1]);
            assert(nibbles@.skip(j as int).skip(2) =~= nibbles@.skip(j as int + 2));
        }
        bytes.push(hi * 16 + lo);
        proof {
            assert(bytes@ + paired_bytes(nibbles@.skip(j as int + 2)) =~= bytes@.drop_last() + (seq![
                (nibbles@.skip(j as int)[0] * 16 + nibbles@.skip(j as int)[1]) as u8,
            ] + paired_bytes(nibbles@.skip(j as int).skip(2))));
        }
        j = j + 2;
    }
    proof {
        assert(paired_bytes(nibbles@.skip(j as int)) =~= Seq::<u8>::empty());
        assert(bytes@ + Seq::<u8>::empty() =~= bytes@);
    }
    bytes
}

/// Encodes bytes as lower-case hex digits, two per byte, high nibble first.
pub fn encode_hex(bs: &[u8]) -> (r: Vec<u8>)
    ensures
        r@ == encoded_hex(bs@),
{
    let mut out: Vec<u8> = Vec::new();
    let mut i: usize = 0;
    proof {
        assert(bs@.skip(0) =~= bs@);
        assert(Seq::<u8>::empty() + encoded_hex(bs@) =~= encoded_hex(bs@));
    }
    while i < bs.len()
        invariant
            i <= bs@.len(),
            out@ + encoded_hex(bs@.skip(i as int)) == encoded_hex(bs@),
        decreases bs@.len() - i,
    {
        let b = bs[i];
        proof {
            assert(bs@.skip(i as int)[0] == bs@[i as int]);
            assert(bs@.skip(i as int).skip(1) =~= bs@.skip(i as int + 1));
        }
        let hi = b / 16;
        let lo = b % 16;
        if hi < 10 {
            out.push(48 + hi);
        } else {
            out.push(97 + (hi - 10));
        }
        if lo < 10 {
            out.push(48 + lo);
        } else {
            out.push(97 + (lo - 10));
        }
        proof {
            assert(out@ + encoded_hex(bs@.skip(i as int + 1)) =~= out@.drop_last().drop_last()
                + (seq![
                hex_digit_byte((bs@.skip(i as int)[0] / 16) as u8),
                hex_digit_byte((bs@.skip(i as int)[0] % 16) as u8),
            ] + encoded_hex(bs@.skip(i as int).skip(1))));
        }
        i = i + 1;
    }
    proof {
        assert(encoded_hex(bs@.skip(bs@.len() as int)) =~= Seq::<u8>::empty());
        assert(out@ + Seq::<u8>::empty() =~= out@);
    }
    out
}

/// A hex digit byte produced by the encoder decodes to the value it encodes.
pub proof fn lemma_hex_digit_byte_value(v: u8)
    requires
        v < 16,
    ensures
        is_hex_digit(hex_digit_byte(v)),
        hex_digit_value(hex_digit_byte(v)) == v,
{
}

/// Law: decoding the hex encoding of any byte sequence gives back exactly
/// that sequence.
pub proof fn lemma_hex_round_trip(bs: Seq<u8>)
    ensures
        decoded_bytes(encoded_hex(bs)) == bs,
    decreases bs.len(),
{
    if bs.len() == 0 {
        assert(decoded_bytes(encoded_hex(bs)) =~= bs);
    } else {
        let b = bs[0];
        let rest = bs.skip(1);
        let h = hex_digit_byte((b / 16) as u8);
        let l = hex_digit_byte((b % 16) as u8);
        let e = encoded_hex(bs);
        let e_rest = encoded_hex(rest);
        lemma_hex_round_trip(rest);
        lemma_hex_digit_byte_value((b / 16) as u8);
        lemma_hex_digit_byte_value((b % 16) as u8);
        assert(e == seq![h, l] + e_rest);
        assert(e[0] == h);
        assert(e.skip(1) =~= seq![l] + e_rest);
        assert((seq![l] + e_rest).skip(1) =~= e_rest);
        assert(nibbles_of(e) == seq![hex_digit_value(h)] + nibbles_of(seq![l] + e_rest));
        assert(nibbles_of(seq![l] + e_rest) == seq![hex_digit_value(l)] + nibbles_of(e_rest));
        let ns = nibbles_of(e);
        assert(ns =~= seq![(b / 16) as u8, (b % 16) as u8] + nibbles_of(e_rest));
        assert(ns.len() >= 2);
        assert(ns[0] == b / 16 && ns[1] == b % 16);
        assert(ns.skip(2) =~= nibbles_of(e_rest));
        assert((b / 16) * 16 + b % 16 == b);
        assert(paired_bytes(ns) == seq![b] + paired_bytes(nibbles_of(e_rest)));
        assert(decoded_bytes(e) =~= bs);
    }
}

/// Non-hex bytes do not change which nibbles are decoded.
pub proof fn lemma_nibbles_ignore_non_hex(s: Seq<u8>, k: int, c: u8)
    requires
        0 <= k <= s.len(),
        !is_hex_digit(c),
    ensures
        nibbles_of(s.insert(k, c)) == nibbles_of(s),
    decreases s.len(),
{
    let t = s.insert(k, c);
    if k == 0 {
        assert(t =~= seq![c] + s);
        assert(t.skip(1) =~= s);
        assert(nibbles_of(t) == nibbles_of(s));
    } else {
        assert(t[0] == s[0]);
        assert(t.skip(1) =~= s.skip(1).insert(k - 1, c));
        lemma_nibbles_ignore_non_hex(s.skip(1), k - 1, c);
        assert(nibbles_of(t.skip(1)) == nibbles_of(s.skip(1)));
    }
}

/// Law: decoding silently ignores non-hex bytes: inserting one anywhere in
/// the input leaves the decoded bytes unchanged.
pub proof fn lemma_decode_ignores_non_hex(s: Seq<u8>, k: int, c: u8)
    requires
        0 <= k <= s.len(),
        !is_hex_digit(c),
    ensures
        decoded_bytes(s.insert(k, c)) == decoded_bytes(s),
{
    lemma_nibbles_ignore_non_hex(s, k, c);
}

} // verus!
