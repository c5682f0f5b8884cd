use vstd::prelude::*;

verus! {

use crate::puzzle::Puzzle;

/// Decimal digits of `n`, most significant first: no sign, no leading
/// zeros, one `0` digit for zero itself.
pub open spec fn dec_rep(n: nat) -> Seq<u8>
    decreases n,
{
    if n < 10 {
        seq![(48 + n) as u8]
    } else {
        dec_rep(n / 10).push((48 + n % 10) as u8)
    }
}

/// The header of the container: magic `P6`, the three metadata comment
/// lines, the dimensions line, and the maximum sample value `255`, each
/// terminated by a single line feed.
pub open spec fn header_spec(p: Puzzle) -> Seq<u8> {
    seq![80u8, 54u8, 10u8] + seq![35u8, 32u8] + dec_rep(p.division_spec().0 as nat) + seq![32u8]
        + dec_rep(p.division_spec().1 as nat) + seq![10u8] + seq![35u8, 32u8] + dec_rep(
        p.select_limit_spec() as nat,
    ) + seq![10u8] + seq![35u8, 32u8] + dec_rep(p.select_rate_spec() as nat) + seq![32u8] + dec_rep(
        p.swap_rate_spec() as nat,
    ) + seq![10u8] + dec_rep(p.image_spec().width_spec() as nat) + seq![32u8] + dec_rep(
        p.image_spec().height_spec() as nat,
    ) + seq![10u8] + seq![50u8, 53u8, 53u8, 10u8]
}

/// The whole container: the header followed by the raw pixel bytes,
/// row-major from the top-left, channel order R, G, B.
pub open spec fn encode_spec(p: Puzzle) -> Seq<u8> {
    header_spec(p) + p.image_spec().bytes()
}

/// Whitespace as the container format counts it.
pub open spec fn is_ppm_ws(b: u8) -> bool {
    b == 32 || b == 10 || b == 13 || b == 9
}

pub open spec fn is_ppm_digit(b: u8) -> bool {
    48 <= b <= 57
}

/// Position reached from `i` after whitespace and `#` comment lines, as a
/// conformant reader of the format skips them.
pub open spec fn skip_ws(s: Seq<u8>, i: int, in_comment: bool) -> int
    decreases s.len() - i,
{
    if i < 0 || i >= s.len() {
        i
    } else if in_comment {
        skip_ws(s, i + 1, s[i] != 10)
    } else if is_ppm_ws(s[i]) {
        skip_ws(s, i + 1, false)
    } else if s[i] == 35 {
        skip_ws(s, i + 1, true)
    } else {
        i
    }
}

/// End of the digit run that starts at `i`.
pub open spec fn digits_end(s: Seq<u8>, i: int) -> int
    decreases s.len() - i,
{
    if 0 <= i < s.len() && is_ppm_digit(s[i]) {
        digits_end(s, i + 1)
    } else {
        i
    }
}

/// Numeric value of the digit run `s[i .. j]`.
pub open spec fn digits_val(s: Seq<u8>, i: int, j: int) -> nat
    decreases j - i,
{
    if i >= j {
        0
    } else {
        digits_val(s, i, j - 1) * 10 + (if s[j - 1] >= 48 {
            (s[j - 1] - 48) as nat
        } else {
            0
        })
    }
}

/// What a generic reader of the raw-RGB container extracts from a byte
/// stream: width, height, maximum sample value, and the pixel bytes, with
/// comment lines ignored.
pub open spec fn parse_ppm_spec(s: Seq<u8>) -> Option<(nat, nat, nat, Seq<u8>)> {
    if s.len() >= 2 && s[0] == 80 && s[1] == 54 {
        let i1 = skip_ws(s, 2, false);
        let i2 = digits_end(s, i1);
        let i3 = skip_ws(s, i2, false);
        let i4 = digits_end(s, i3);
        let i5 = skip_ws(s, i4, false);
        let i6 = digits_end(s, i5);
        if i2 > i1 && i4 > i3 && i6 > i5 && i6 < s.len() && is_ppm_ws(s[i6]) {
            let w = digits_val(s, i1, i2);
            let h = digits_val(s, i3, i4);
            let m = digits_val(s, i5, i6);
            if s.len() - (i6 + 1) == 3 * w * h {
                Some((w, h, m, s.subrange(i6 + 1, s.len() as int)))
            } else {
                None
            }
        } else {
            None
        }
    } else {
        None
    }
}

/// Every byte of a decimal rendering is a digit, and there is at least one.
pub proof fn lemma_dec_rep_digits(n: nat)
    ensures
        dec_rep(n).len() >= 1,
        forall|k: int| 0 <= k < dec_rep(n).len() ==> is_ppm_digit(#[trigger] dec_rep(n)[k]),
    decreases n,
{
    if n >= 10 {
        lemma_dec_rep_digits(n / 10);
    }
}

/// A comment is skipped up to and including its terminating line feed.
proof fn lemma_skip_comment(s: Seq<u8>, i: int, j: int)
    requires
        0 <= i <= j < s.len(),
        forall|k: int| i <= k < j ==> s[k] != 10,
        s[j] == 10,
    ensures
        skip_ws(s, i, true) == skip_ws(s, j + 1, false),
    decreases j - i,
{
    if i < j {
        lemma_skip_comment(s, i + 1, j);
    }
}

/// A run of digits delimited on the right ends exactly at the delimiter.
proof fn lemma_digits_end_run(s: Seq<u8>, i: int, j: int)
    requires
        0 <= i <= j <= s.len(),
        forall|k: int| i <= k < j ==> is_ppm_digit(#[trigger] s[k]),
        j == s.len() || !is_ppm_digit(s[j]),
    ensures
        digits_end(s, i) == j,
    decreases j - i,
{
    if i < j {
        lemma_digits_end_run(s, i + 1, j);
    }
}

/// Reading back the decimal rendering of `n` yields `n`.
proof fn lemma_digits_val_of_rep(s: Seq<u8>, i: int, n: nat)
    requires
        0 <= i,
        i + dec_rep(n).len() <= s.len(),
        s.subrange(i, i + dec_rep(n).len() as int) == dec_rep(n),
    ensures
        digits_val(s, i, i + dec_rep(n).len() as int) == n,
    decreases n,
{
    let rep = dec_rep(n);
    let j = i + rep.len() as int;
    assert(s[j - 1] == rep[rep.len() - 1]);
    if n < 10 {
        assert(digits_val(s, i, j) == digits_val(s, i, j - 1) * 10 + (s[j - 1] - 48) as nat);
        assert(digits_val(s, i, j - 1) == 0);
    } else {
        let head = dec_rep(n / 10);
        assert(rep == head.push((48 + n % 10) as u8));
        assert(s.subrange(i, i + head.len() as int) =~= head) by {
            assert forall|k: int| 0 <= k < head.len() implies s.subrange(
                i,
                i + head.len() as int,
            )[k] == head[k] by {
                assert(s[i + k] == rep[k]);
            }
        }
        lemma_digits_val_of_rep(s, i, n / 10);
        vstd::arithmetic::div_mod::lemma_fundamental_div_mod(n as int, 10);
        assert(s[j - 1] == (48 + n % 10) as u8);
        assert(digits_val(s, i, j) == digits_val(s, i, j - 1) * 10 + (s[j - 1] - 48) as nat);
        assert((n / 10) * 10 + n % 10 == n) by (nonlinear_arith)
            requires
                n as int == 10 * ((n as int) / 10) + (n as int) % 10,
    ;
    }
}

/// Encoder round trip: a generic reader of the container format, skipping
/// the comment lines, reads back the dimensions, the maximum sample value
/// `255`, and a pixel buffer byte-identical to the in-memory raster.
#[verifier::rlimit(100)]
pub proof fn lemma_encode_round_trip(p: Puzzle)
    requires
        p.wf(),
    ensures
        parse_ppm_spec(encode_spec(p)) == Some(
            (
                p.image_spec().width_spec() as nat,
                p.image_spec().height_spec() as nat,
                255 as nat,
                p.image_spec().bytes(),
            ),
        ),
{
    let s = encode_spec(p);
    let hd = header_spec(p);
    let img = p.image_spec().bytes();
    let a = dec_rep(p.division_spec().0 as nat);
    let b = dec_rep(p.division_spec().1 as nat);
    let cc = dec_rep(p.select_limit_spec() as nat);
    let d = dec_rep(p.select_rate_spec() as nat);
    let e = dec_rep(p.swap_rate_spec() as nat);
    let f = dec_rep(p.image_spec().width_spec() as nat);
    let g = dec_rep(p.image_spec().height_spec() as nat);
    let la = a.len() as int;
    let lb = b.len() as int;
    let lc = cc.len() as int;
    let ld = d.len() as int;
    let le = e.len() as int;
    let lf = f.len() as int;
    let lg = g.len() as int;
    lemma_dec_rep_digits(p.division_spec().0 as nat);
    lemma_dec_rep_digits(p.division_spec().1 as nat);
    lemma_dec_rep_digits(p.select_limit_spec() as nat);
    lemma_dec_rep_digits(p.select_rate_spec() as nat);
    lemma_dec_rep_digits(p.swap_rate_spec() as nat);
    lemma_dec_rep_digits(p.image_spec().width_spec() as nat);
    lemma_dec_rep_digits(p.image_spec().height_spec() as nat);
    assert(hd.len() == 20 + la + lb + lc + ld + le + lf + lg);
    assert(s.len() == hd.len() + img.len());
    // byte-level layout of the header
    assert(s[0] == 80 && s[1] == 54 && s[2] == 10);
    assert(s[3] == 35 && s[4] == 32);
    assert forall|k: int| 0 <= k < la implies s[5 + k] == a[k] by {}
    assert(s[5 + la] == 32);
    assert forall|k: int| 0 <= k < lb implies s[6 + la + k] == b[k] by {}
    assert(s[6 + la + lb] == 10);
    assert(s[7 + la + lb] == 35 && s[8 + la + lb] == 32);
    assert forall|k: int| 0 <= k < lc implies s[9 + la + lb + k] == cc[k] by {}
    assert(s[9 + la + lb + lc] == 10);
    assert(s[10 + la + lb + lc] == 35 && s[11 + la + lb + lc] == 32);
    assert forall|k: int| 0 <= k < ld implies s[12 + la + lb + lc + k] == d[k] by {}
    assert(s[12 + la + lb + lc + ld] == 32);
    assert forall|k: int| 0 <= k < le implies s[13 + la + lb + lc + ld + k] == e[k] by {}
    assert(s[13 + la + lb + lc + ld + le] == 10);
    let p0 = 14 + la + lb + lc + ld + le;
    assert forall|k: int| 0 <= k < lf implies s[p0 + k] == f[k] by {}
    assert(s[p0 + lf] == 32);
    assert forall|k: int| 0 <= k < lg implies s[p0 + lf + 1 + k] == g[k] by {}
    assert(s[p0 + lf + 1 + lg] == 10);
    let q0 = p0 + lf + 2 + lg;
    assert(s[q0] == 50 && s[q0 + 1] == 53 && s[q0 + 2] == 53 && s[q0 + 3] == 10);
    assert forall|k: int| 0 <= k < img.len() implies s[q0 + 4 + k] == img[k] by {}
    // the reader's walk: magic, then three comment lines
    assert(skip_ws(s, 2, false) == skip_ws(s, 3, false));
    assert(skip_ws(s, 3, false) == skip_ws(s, 4, true));
    assert forall|k: int| 4 <= k < 6 + la + lb implies s[k] != 10 by {
        if 5 <= k < 5 + la {
            assert(is_ppm_digit(a[k - 5]));
        }
        if 6 + la <= k {
            assert(is_ppm_digit(b[k - 6 - la]));
        }
    }
    lemma_skip_comment(s, 4, 6 + la + lb);
    assert(skip_ws(s, 7 + la + lb, false) == skip_ws(s, 8 + la + lb, true));
    assert forall|k: int| 8 + la + lb <= k < 9 + la + lb + lc implies s[k] != 10 by {
        if 9 + la + lb <= k {
            assert(is_ppm_digit(cc[k - 9 - la - lb]));
        }
    }
    lemma_skip_comment(s, 8 + la + lb, 9 + la + lb + lc);
    assert(skip_ws(s, 10 + la + lb + lc, false) == skip_ws(s, 11 + la + lb + lc, true));
    assert forall|k: int| 11 + la + lb + lc <= k < 13 + la + lb + lc + ld + le implies s[k]
        != 10 by {
        if 12 + la + lb + lc <= k < 12 + la + lb + lc + ld {
            assert(is_ppm_digit(d[k - 12 - la - lb - lc]));
        }
        if 13 + la + lb + lc + ld <= k {
            assert(is_ppm_digit(e[k - 13 - la - lb - lc - ld]));
        }
    }
    lemma_skip_comment(s, 11 + la + lb + lc, 13 + la + lb + lc + ld + le);
    // width
    assert(is_ppm_digit(f[0]) && s[p0] == f[0]);
    assert(skip_ws(s, p0, false) == p0);
    let i1 = skip_ws(s, 2, false);
    assert(i1 == p0);
    assert forall|k: int| p0 <= k < p0 + lf implies is_ppm_digit(#[trigger] s[k]) by {
        assert(s[k] == f[k - p0]);
    }
    lemma_digits_end_run(s, p0, p0 + lf);
    let i2 = digits_end(s, i1);
    assert(i2 == p0 + lf);
    assert(s.subrange(p0, p0 + lf) =~= f);
    lemma_digits_val_of_rep(s, p0, p.image_spec().width_spec() as nat);
    // height
    assert(skip_ws(s, p0 + lf, false) == skip_ws(s, p0 + lf + 1, false));
    assert(is_ppm_digit(g[0]) && s[p0 + lf + 1] == g[0]);
    assert(skip_ws(s, p0 + lf + 1, false) == p0 + lf + 1);
    let i3 = skip_ws(s, i2, false);
    assert(i3 == p0 + lf + 1);
    assert forall|k: int| i3 <= k < i3 + lg implies is_ppm_digit(#[trigger] s[k]) by {
        assert(s[k] == g[k - i3]);
    }
    lemma_digits_end_run(s, i3, i3 + lg);
    let i4 = digits_end(s, i3);
    assert(i4 == i3 + lg);
    assert(s.subrange(i3, i3 + lg) =~= g);
    lemma_digits_val_of_rep(s, i3, p.image_spec().height_spec() as nat);
    // maximum sample value
    assert(skip_ws(s, i4, false) == skip_ws(s, i4 + 1, false));
    assert(i4 + 1 == q0);
    assert(is_ppm_digit(s[q0]));
    assert(skip_ws(s, q0, false) == q0);
    let i5 = skip_ws(s, i4, false);
    assert(i5 == q0);
    assert forall|k: int| q0 <= k < q0 + 3 implies is_ppm_digit(#[trigger] s[k]) by {}
    lemma_digits_end_run(s, q0, q0 + 3);
    let i6 = digits_end(s, i5);
    assert(i6 == q0 + 3);
    assert(digits_val(s, q0, q0) == 0);
    assert(digits_val(s, q0, q0 + 1) == 2);
    assert(digits_val(s, q0, q0 + 2) == 25);
    assert(digits_val(s, q0, q0 + 3) == 255);
    assert(s[i6] == 10 && is_ppm_ws(s[i6]));
    // the pixel bytes
    let wn = p.image_spec().width_spec() as nat;
    let hn = p.image_spec().height_spec() as nat;
    assert(digits_val(s, i1, i2) == wn);
    assert(digits_val(s, i3, i4) == hn);
    assert(s.len() - (i6 + 1) == 3 * wn * hn);
    assert(s.subrange(i6 + 1, s.len() as int) =~= img);
    assert(parse_ppm_spec(s) == Some((wn, hn, 255 as nat, img)));
}

/// Appends the decimal rendering of `n`.
fn push_dec(out: &mut Vec<u8>, n: u32)
    ensures
        final(out)@ == old(out)@ + dec_rep(n as nat),
    decreases n,
{
    if n < 10 {
        out.push(48 + n as u8);
        proof {
            assert(out@ =~= old(out)@ + dec_rep(n as nat));
        }
    } else {
        push_dec(out, n / 10);
        out.push(48 + (n % 10) as u8);
        proof {
            assert(out@ =~= old(out)@ + dec_rep(n as nat));
        }
    }
}

impl Puzzle {
    /// Emits the metadata-annotated raw-RGB container for this puzzle as a
    /// byte stream.
    pub fn decode(&self) -> (out: Vec<u8>)
        ensures
            out@ == encode_spec(*self),
    {
        let mut out: Vec<u8> = Vec::new();
        out.push(80);
        out.push(54);
        out.push(10);
        out.push(35);
        out.push(32);
        push_dec(&mut out, self.division().0);
        out.push(32);
        push_dec(&mut out, self.division().1);
        out.push(10);
        out.push(35);
        out.push(32);
        push_dec(&mut out, self.select_limit());
        out.push(10);
        out.push(35);
        out.push(32);
        push_dec(&mut out, self.select_rate());
        out.push(32);
        push_dec(&mut out, self.swap_rate());
        out.push(10);
        push_dec(&mut out, self.image().width());
        out.push(32);
        push_dec(&mut out, self.image().height());
        out.push(10);
        out.push(50);
        out.push(53);
        out.push(53);
        out.push(10);
        proof {
            assert(out@ =~= header_spec(*self));
        }
        let bytes = self.image().as_bytes();
        let n = bytes.len();
        let mut i: usize = 0;
        while i < n
            invariant
                n == bytes.len(),
                bytes@ == self.image_spec().bytes(),
                0 <= i <= n,
                out@ == header_spec(*self) + bytes@.subrange(0, i as int),
            decreases n - i,
        {
            out.push(bytes[i]);
            proof {
                assert(out@ =~= header_spec(*self) + bytes@.subrange(0, i as int + 1));
            }
            i = i + 1;
        }
        proof {
            assert(bytes@.subrange(0, n as int) =~= bytes@);
            assert(out@ =~= encode_spec(*self));
        }
        out
    }
}

} // verus!
