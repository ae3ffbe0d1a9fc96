//! Rendering of the scan outcome: the matched password line and the
//! throughput summary, both as bytes ready to be written out.

use vstd::prelude::*;

verus! {

/// The decimal digits of `n`, most significant first, as ASCII bytes.
pub open spec fn dec_digits(n: nat) -> Seq<u8>
    decreases n,
{
    if n < 10 {
        seq![(48 + n) as u8]
    } else {
        dec_digits(n / 10) + seq![(48 + n % 10) as u8]
    }
}

/// The text `Checked ` as bytes.
pub open spec fn checked_prefix() -> Seq<u8> {
    seq![67u8, 104, 101, 99, 107, 101, 100, 32]
}

/// The text ` total words in ` as bytes.
pub open spec fn total_words_infix() -> Seq<u8> {
    seq![32u8, 116, 111, 116, 97, 108, 32, 119, 111, 114, 100, 115, 32, 105, 110, 32]
}

/// The text `ms.` as bytes.
pub open spec fn ms_period() -> Seq<u8> {
    seq![109u8, 115, 46]
}

/// The text `ms, for an average speed of ~` as bytes.
pub open spec fn ms_speed_infix() -> Seq<u8> {
    seq![
        109u8,
        115,
        44,
        32,
        102,
        111,
        114,
        32,
        97,
        110,
        32,
        97,
        118,
        101,
        114,
        97,
        103,
        101,
        32,
        115,
        112,
        101,
        101,
        100,
        32,
        111,
        102,
        32,
        126,
    ]
}

/// The text ` words/second.` as bytes.
pub open spec fn words_second_suffix() -> Seq<u8> {
    seq![32u8, 119, 111, 114, 100, 115, 47, 115, 101, 99, 111, 110, 100, 46]
}

/// The text `Password: ` as bytes.
pub open spec fn password_prefix() -> Seq<u8> {
    seq![80u8, 97, 115, 115, 119, 111, 114, 100, 58, 32]
}

/// The throughput summary line. Words per second is total checked scaled to
/// one second by integer division; when no millisecond has elapsed the speed
/// clause is omitted rather than dividing by zero.
pub open spec fn summary_line(total: u64, elapsed_ms: u64) -> Seq<u8> {
    if elapsed_ms == 0 {
        checked_prefix() + dec_digits(total as nat) + total_words_infix() + dec_digits(
            elapsed_ms as nat,
        ) + ms_period()
    } else {
        checked_prefix() + dec_digits(total as nat) + total_words_infix() + dec_digits(
            elapsed_ms as nat,
        ) + ms_speed_infix() + dec_digits((1000 * total as nat) / elapsed_ms as nat)
            + words_second_suffix()
    }
}

/// Whether a candidate may be shown as text: every byte inside the printable
/// range from the digit zero through lowercase z. A deliberate heuristic to
/// keep raw binary off the terminal, not a claim about text encoding.
pub open spec fn spec_renderable(pass: Seq<u8>) -> bool {
    forall|i: int| 0 <= i < pass.len() ==> 48 <= #[trigger] pass[i] <= 122
}

/// The diagnostic rendering of a non-printable candidate: its bytes as
/// decimal numbers, comma separated, in brackets.
pub open spec fn escaped_bytes(pass: Seq<u8>) -> Seq<u8>
    decreases pass.len(),
{
    if pass.len() == 0 {
        seq![91u8, 93]
    } else if pass.len() == 1 {
        seq![91u8] + dec_digits(pass[0] as nat) + seq![93u8]
    } else {
        escaped_bytes(pass.drop_last()).drop_last() + seq![44u8, 32] + dec_digits(
            pass.last() as nat,
        ) + seq![93u8]
    }
}

/// The password line: the candidate itself when it is renderable as text,
/// else its escaped byte rendering, after `Password: `.
pub open spec fn password_line(pass: Seq<u8>) -> Seq<u8> {
    if spec_renderable(pass) {
        password_prefix() + pass
    } else {
        password_prefix() + escaped_bytes(pass)
    }
}

/// Appends every byte of `s` to `out`.
fn push_all(out: &mut Vec<u8>, s: &[u8])
    ensures
        final(out)@ == old(out)@ + s@,
{
    let mut i: usize = 0;
    proof {
        assert(out@ + s@.take(0) =~= out@);
    }
    while i < s.len()
        invariant
            i <= s@.len(),
            out@ == old(out)@ + s@.take(i as int),
        decreases s@.len() - i,
    {
        out.push(s[i]);
        proof {
            assert(old(out)@ + s@.take(i as int + 1) =~= (old(out)@ + s@.take(i as int)).push(
                s@[i as int],
            ));
        }
        i = i + 1;
    }
    proof {
        assert(s@.take(s@.len() as int) =~= s@);
    }
}

/// The decimal digits of `n` as ASCII bytes.
fn dec_of(n: u128) -> (r: Vec<u8>)
    ensures
        r@ == dec_digits(n as nat),
{
    let mut out: Vec<u8> = Vec::new();
    if n == 0 {
        out.push(48);
        proof {
            assert(out@ =~= dec_digits(0));
        }
        return out;
    }
    let mut tmp: Vec<u8> = Vec::new();
    let mut m = n;
    proof {
        assert(dec_digits(n as nat) + tmp@.reverse() =~= dec_digits(n as nat));
    }
    while m > 0
        invariant
            m > 0 ==> dec_digits(n as nat) == dec_digits(m as nat) + tmp@.reverse(),
            m == 0 ==> dec_digits(n as nat) == tmp@.reverse(),
        decreases m,
    {
        let ghost tmp_before = tmp@;
        let ghost m_before = m as nat;
        tmp.push(48 + (m % 10) as u8);
        m = m / 10;
        proof {
            assert(tmp@.reverse() =~= seq![(48 + m_before % 10) as u8] + tmp_before.reverse());
            if m > 0 {
                assert(dec_digits(m_before) == dec_digits(m_before / 10) + seq![
                    (48 + m_before % 10) as u8,
                ]);
                assert(dec_digits(m as nat) + tmp@.reverse() =~= (dec_digits(m as nat) + seq![
                    (48 + m_before % 10) as u8,
                ]) + tmp_before.reverse());
            } else {
                assert(m_before < 10);
                assert(dec_digits(m_before) =~= seq![(48 + m_before % 10) as u8]);
                assert(tmp@.reverse() =~= dec_digits(m_before) + tmp_before.reverse());
            }
        }
    }
    let mut k = tmp.len();
    proof {
        assert(out@ =~= tmp@.reverse().take(0));
    }
    while k > 0
        invariant
            k <= tmp@.len(),
            out@ == tmp@.reverse().take(tmp@.len() - k),
        decreases k,
    {
        out.push(tmp[k - 1]);
        proof {
            assert(tmp@.reverse()[tmp@.len() - k] == tmp@[k - 1]);
            assert(tmp@.reverse().take(tmp@.len() - (k - 1)) =~= tmp@.reverse().take(
                tmp@.len() - k,
            ).push(tmp@[k as int - 1]));
        }
        k = k - 1;
    }
    proof {
        assert(tmp@.reverse().take(tmp@.len() as int) =~= tmp@.reverse());
    }
    out
}

/// Renders the throughput summary line.
pub fn format_summary(total: u64, elapsed_ms: u64) -> (r: Vec<u8>)
    ensures
        r@ == summary_line(total, elapsed_ms),
{
    let mut out: Vec<u8> = Vec::new();
    push_all(&mut out, &[67, 104, 101, 99, 107, 101, 100, 32]);
    proof {
        assert(out@ =~= checked_prefix());
    }
    let mut total_digits = dec_of(total as u128);
    out.append(&mut total_digits);
    push_all(
        &mut out,
        &[32, 116, 111, 116, 97, 108, 32, 119, 111, 114, 100, 115, 32, 105, 110, 32],
    );
    let mut elapsed_digits = dec_of(elapsed_ms as u128);
    out.append(&mut elapsed_digits);
    if elapsed_ms == 0 {
        push_all(&mut out, &[109, 115, 46]);
        proof {
            assert(out@ =~= summary_line(total, elapsed_ms));
        }
    } else {
        push_all(
            &mut out,
            &[
                109,
                115,
                44,
                32,
                102,
                111,
                114,
                32,
                97,
                110,
                32,
                97,
                118,
                101,
                114,
                97,
                103,
                101,
                32,
                115,
                112,
                101,
                101,
                100,
                32,
                111,
                102,
                32,
                126,
            ],
        );
        let speed: u128 = 1000u128 * (total as u128) / (elapsed_ms as u128);
        proof {
            assert(speed as nat == (1000 * total as nat) / elapsed_ms as nat);
        }
        let mut speed_digits = dec_of(speed);
        out.append(&mut speed_digits);
        push_all(&mut out, &[32, 119, 111, 114, 100, 115, 47, 115, 101, 99, 111, 110, 100, 46]);
        proof {
            assert(out@ =~= summary_line(total, elapsed_ms));
        }
    }
    out
}

/// Whether a candidate may be shown as raw text on a terminal.
pub fn renderable(pass: &Vec<u8>) -> (r: bool)
    ensures
        r == spec_renderable(pass@),
{
    let mut i: usize = 0;
    while i < pass.len()
        invariant
            i <= pass@.len(),
            forall|k: int| 0 <= k < i ==> 48 <= #[trigger] pass@[k] <= 122,
        decreases pass@.len() - i,
    {
        if pass[i] < 48 || pass[i] > 122 {
            return false;
        }
        i = i + 1;
    }
    true
}

/// Renders the password line for a matched candidate.
pub fn format_password_line(pass: &Vec<u8>) -> (r: Vec<u8>)
    ensures
        r@ == password_line(pass@),
{
    let mut out: Vec<u8> = Vec::new();
    push_all(&mut out, &[80, 97, 115, 115, 119, 111, 114, 100, 58, 32]);
    proof {
        assert(out@ =~= password_prefix());
    }
    if renderable(pass) {
        push_all(&mut out, pass.as_slice());
        proof {
            assert(out@ =~= password_line(pass@));
        }
    } else {
        let mut escaped = escape_bytes(pass);
        out.append(&mut escaped);
        proof {
            assert(out@ =~= password_line(pass@));
        }
    }
    out
}

/// Renders a candidate's bytes as decimal numbers, comma separated, in
/// brackets.
pub fn escape_bytes(pass: &Vec<u8>) -> (r: Vec<u8>)
    ensures
        r@ == escaped_bytes(pass@),
{
    let mut out: Vec<u8> = Vec::new();
    out.push(91);
    let mut i: usize = 0;
    while i < pass.len()
        invariant
            i <= pass@.len(),
            i == 0 ==> out@ == seq![91u8],
            i > 0 ==> out@.push(93u8) == escaped_bytes(pass@.take(i as int)),
        decreases pass@.len() - i,
    {
        let ghost out_before = out@;
        if i > 0 {
            push_all(&mut out, &[44, 32]);
        }
        let mut digits = dec_of(pass[i] as u128);
        out.append(&mut digits);
        proof {
            if i == 0 {
                assert(out@.push(93u8) =~= seq![91u8] + dec_digits(pass@[0] as nat) + seq![93u8]);
                assert(pass@.take(1).len() == 1);
                assert(pass@.take(1)[0] == pass@[0]);
            } else {
                assert(pass@.take(i as int + 1).drop_last() =~= pass@.take(i as int));
                assert(pass@.take(i as int + 1).last() == pass@[i as int]);
                assert(escaped_bytes(pass@.take(i as int)).drop_last() =~= out_before);
                assert(out@.push(93u8) =~= escaped_bytes(pass@.take(i as int)).drop_last() + seq![
                    44u8,
                    32,
                ] + dec_digits(pass@[i as int] as nat) + seq![93u8]);
            }
        }
        i = i + 1;
    }
    out.push(93);
    proof {
        if pass@.len() == 0 {
            assert(out@ =~= escaped_bytes(pass@));
        } else {
            assert(pass@.take(pass@.len() as int) =~= pass@);
        }
    }
    out
}

} // verus!
