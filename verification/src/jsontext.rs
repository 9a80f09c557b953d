//! Character-level building blocks of the canonical JSON wire format:
//! string fields, string lists, and decimal numbers, each with an encoder
//! and a parser that is exact for the canonical form — a parse succeeds on
//! a stretch of text if and only if that stretch is the canonical encoding
//! of the value it returns.

use vstd::prelude::*;

use crate::strutil::{lemma_sviews_push, sviews};

verus! {

/// The canonical escape of one character: the two structural characters
/// `"` and `\` take a backslash, every other character stands for itself.
pub open spec fn esc_char(c: char) -> Seq<char> {
    if c == '"' {
        seq!['\\', '"']
    } else if c == '\\' {
        seq!['\\', '\\']
    } else {
        seq![c]
    }
}

/// The canonical escape of a text, character by character.
pub open spec fn esc(s: Seq<char>) -> Seq<char>
    decreases s.len(),
{
    if s.len() == 0 {
        Seq::empty()
    } else {
        esc_char(s.first()) + esc(s.drop_first())
    }
}

pub proof fn lemma_esc_concat(a: Seq<char>, b: Seq<char>)
    ensures
        esc(a + b) == esc(a) + esc(b),
    decreases a.len(),
{
    if a.len() == 0 {
        assert(a + b =~= b);
        assert(esc(a) =~= Seq::<char>::empty());
        assert(esc(a + b) =~= esc(a) + esc(b));
    } else {
        assert((a + b).first() == a.first());
        assert((a + b).drop_first() =~= a.drop_first() + b);
        lemma_esc_concat(a.drop_first(), b);
        assert(esc(a + b) == esc_char(a.first()) + esc(a.drop_first() + b));
        assert(esc(a + b) =~= esc(a) + esc(b));
    }
}

pub proof fn lemma_esc_snoc(a: Seq<char>, c: char)
    ensures
        esc(a.push(c)) == esc(a) + esc_char(c),
{
    assert(a.push(c) =~= a + seq![c]);
    lemma_esc_concat(a, seq![c]);
    assert(seq![c].drop_first() =~= Seq::<char>::empty());
    assert(seq![c].first() == c);
    assert(esc(Seq::<char>::empty()) == Seq::<char>::empty());
    assert(esc(seq![c]) == esc_char(c) + esc(Seq::<char>::empty()));
    assert(esc(seq![c]) =~= esc_char(c));
}

/// The canonical JSON string encoding: the escaped text between quotes.
pub open spec fn enc_str(s: Seq<char>) -> Seq<char> {
    seq!['"'] + esc(s) + seq!['"']
}

/// The stretch of `gs` from `pos` to `p` is exactly the canonical string
/// encoding of `w`.
pub open spec fn str_at(gs: Seq<char>, pos: int, w: Seq<char>, p: int) -> bool {
    pos + enc_str(w).len() == p && p <= gs.len() && gs.subrange(pos, p) == enc_str(w)
}

/// The stretch of `gs` from `pos` to `p` is exactly the canonical decimal
/// representation of `m`, and the run of digits ends there.
pub open spec fn num_at(gs: Seq<char>, pos: int, m: u32, p: int) -> bool {
    pos + dec_rep(m as nat).len() == p && p <= gs.len() && gs.subrange(pos, p) == dec_rep(m as nat)
        && (p == gs.len() || !is_digit(gs[p]))
}

/// Splitting a known concatenation: if the stretch of `s` from `a` covers
/// `x + y`, the two halves cover `x` and `y`.
pub proof fn lemma_subrange_split(s: Seq<char>, a: int, x: Seq<char>, y: Seq<char>)
    requires
        0 <= a,
        a + x.len() + y.len() <= s.len(),
        s.subrange(a, a + x.len() + y.len()) == x + y,
    ensures
        s.subrange(a, a + x.len() as int) == x,
        s.subrange(a + x.len() as int, a + x.len() + y.len()) == y,
{
    let n: int = x.len() as int + y.len() as int;
    assert forall|k: int| 0 <= k < x.len() implies s[a + k] == x[k] by {
        assert(s.subrange(a, a + n)[k] == (x + y)[k]);
    }
    assert forall|k: int| 0 <= k < y.len() implies s[a + x.len() + k] == y[k] by {
        assert(s.subrange(a, a + n)[x.len() + k] == (x + y)[x.len() + k]);
    }
    assert(s.subrange(a, a + x.len() as int) =~= x);
    assert(s.subrange(a + x.len() as int, a + x.len() + y.len()) =~= y);
}

/// Unpacks the shape of a canonical string encoding found inside `gs`.
proof fn lemma_enc_str_unpack(gs: Seq<char>, pos: int, w: Seq<char>, p: int)
    requires
        0 <= pos,
        str_at(gs, pos, w, p),
    ensures
        gs[pos] == '"',
        p == pos + 2 + esc(w).len(),
        gs[p - 1] == '"',
        forall|j: int| 0 <= j < esc(w).len() ==> #[trigger] gs[pos + 1 + j] == esc(w)[j],
{
    let e = enc_str(w);
    assert forall|k: int| 0 <= k < e.len() implies gs[pos + k] == e[k] by {
        assert(gs.subrange(pos, p)[k] == e[k]);
    }
    assert(e[0] == '"');
    assert(e[e.len() - 1] == '"');
    assert forall|j: int| 0 <= j < esc(w).len() implies #[trigger] gs[pos + 1 + j] == esc(w)[j] by {
        assert(gs[pos + (1 + j)] == e[1 + j]);
        assert(e[1 + j] == esc(w)[j]);
    }
}

/// What the text at the parser's cursor must look like when a canonical
/// string encoding of `w` stands at `pos` and `out` is the part of `w`
/// already decoded.
proof fn lemma_esc_step(gs: Seq<char>, pos: int, w: Seq<char>, p: int, out: Seq<char>, i: int)
    requires
        0 <= pos,
        str_at(gs, pos, w, p),
        out.len() <= w.len(),
        w.take(out.len() as int) == out,
        i == pos + 1 + esc(out).len(),
    ensures
        i <= p - 1,
        gs[p - 1] == '"',
        out.len() == w.len() ==> i == p - 1,
        out.len() < w.len() ==> gs[i] == esc_char(w[out.len() as int])[0] && gs[i] != '"',
        out.len() < w.len() && (w[out.len() as int] == '"' || w[out.len() as int] == '\\') ==> i
            + 2 <= p - 1 && gs[i] == '\\' && gs[i + 1] == w[out.len() as int],
        out.len() < w.len() && !(w[out.len() as int] == '"' || w[out.len() as int] == '\\')
            ==> gs[i] == w[out.len() as int],
{
    lemma_enc_str_unpack(gs, pos, w, p);
    let k = out.len() as int;
    assert(w =~= w.take(k) + w.skip(k));
    lemma_esc_concat(w.take(k), w.skip(k));
    assert(esc(w) == esc(out) + esc(w.skip(k)));
    if out.len() < w.len() {
        let c = w[k];
        assert(w.skip(k).first() == c);
        assert(esc(w.skip(k)) == esc_char(c) + esc(w.skip(k).drop_first()));
        assert(esc(w)[esc(out).len() as int] == esc_char(c)[0]);
        assert(gs[pos + 1 + esc(out).len()] == esc(w)[esc(out).len() as int]);
        if c == '"' || c == '\\' {
            assert(esc_char(c) == seq!['\\', c]);
            let j2: int = esc(out).len() as int + 1;
            assert(esc(w)[j2] == esc_char(c)[1]);
            assert(gs[pos + 1 + j2] == esc(w)[j2]);
        }
    } else {
        assert(w.skip(k).len() == 0);
        assert(esc(w.skip(k)) =~= Seq::<char>::empty());
    }
}

/// Appends `lit` if and only if the text at `pos` is exactly `lit`,
/// reporting where it ends.
pub(crate) fn parse_lit(s: &str, pos: usize, lit: &str) -> (r: Option<usize>)
    requires
        pos <= s@.len(),
    ensures
        r matches Some(p) ==> p == pos + lit@.len() && p <= s@.len() && s@.subrange(
            pos as int,
            p as int,
        ) == lit@,
        r is None ==> !(pos + lit@.len() <= s@.len() && s@.subrange(
            pos as int,
            pos + lit@.len(),
        ) == lit@),
{
    let n: usize = s.unicode_len();
    let m: usize = lit.unicode_len();
    if m > n - pos {
        return None;
    }
    let mut i: usize = 0;
    while i < m
        invariant
            0 <= i <= m,
            pos + m <= n,
            n == s@.len(),
            m == lit@.len(),
            forall|k: int| 0 <= k < i ==> s@[pos + k] == lit@[k],
        decreases m - i,
    {
        if s.get_char(pos + i) != lit.get_char(i) {
            proof {
                assert(s@.subrange(pos as int, pos + lit@.len())[i as int] == s@[pos + i]);
            }
            return None;
        }
        i = i + 1;
    }
    proof {
        assert(s@.subrange(pos as int, pos + lit@.len()) =~= lit@);
    }
    Some(pos + m)
}

/// Parses a canonical JSON string at `pos`: succeeds exactly on a quoted
/// stretch of canonically escaped text, returning the decoded text and the
/// position after the closing quote.
pub(crate) fn parse_string(s: &str, pos: usize) -> (r: Option<(String, usize)>)
    requires
        pos <= s@.len(),
    ensures
        r matches Some(v) ==> pos < v.1 <= s@.len() && str_at(s@, pos as int, v.0@, v.1 as int),
        forall|w: Seq<char>, p: int|
            #[trigger] str_at(s@, pos as int, w, p) ==> r is Some && r.unwrap().0@ == w
                && r.unwrap().1 == p,
{
    let n: usize = s.unicode_len();
    let ghost gs = s@;
    if pos >= n {
        proof {
            assert forall|w: Seq<char>, p: int| !(#[trigger] str_at(gs, pos as int, w, p)) by {
                if str_at(gs, pos as int, w, p) {
                    lemma_enc_str_unpack(gs, pos as int, w, p);
                }
            }
        }
        return None;
    }
    if s.get_char(pos) != '"' {
        proof {
            assert forall|w: Seq<char>, p: int| !(#[trigger] str_at(gs, pos as int, w, p)) by {
                if str_at(gs, pos as int, w, p) {
                    lemma_enc_str_unpack(gs, pos as int, w, p);
                }
            }
        }
        return None;
    }
    let mut out: String = String::new();
    let mut i: usize = pos + 1;
    proof {
        assert(esc(out@) =~= Seq::<char>::empty());
        assert(gs.subrange(pos + 1, pos + 1) =~= esc(out@));
        assert(forall|w: Seq<char>| w.take(0) =~= Seq::<char>::empty());
    }
    loop
        invariant
            pos + 1 <= i <= n,
            n == gs.len(),
            gs == s@,
            gs[pos as int] == '"',
            i == pos + 1 + esc(out@).len(),
            gs.subrange(pos + 1, i as int) == esc(out@),
            forall|w: Seq<char>, p: int|
                #[trigger] str_at(gs, pos as int, w, p) ==> out@.len() <= w.len() && w.take(
                    out@.len() as int,
                ) == out@,
        decreases n - i,
    {
        if i >= n {
            proof {
                assert forall|w: Seq<char>, p: int| !(#[trigger] str_at(gs, pos as int, w, p)) by {
                    if str_at(gs, pos as int, w, p) {
                        lemma_esc_step(gs, pos as int, w, p, out@, i as int);
                    }
                }
            }
            return None;
        }
        let c: char = s.get_char(i);
        if c == '"' {
            proof {
                assert(gs.subrange(pos as int, i + 1) =~= enc_str(out@));
                assert forall|w: Seq<char>, p: int|
                    #[trigger] str_at(gs, pos as int, w, p) implies out@ == w && i + 1 == p by {
                    lemma_esc_step(gs, pos as int, w, p, out@, i as int);
                    if out@.len() < w.len() {
                        assert(gs[i as int] != '"');
                        assert(false);
                    }
                    assert(w.take(w.len() as int) =~= w);
                }
            }
            return Some((out, i + 1));
        } else if c == '\\' {
            if i + 1 >= n {
                proof {
                    assert forall|w: Seq<char>, p: int|
                        !(#[trigger] str_at(gs, pos as int, w, p)) by {
                        if str_at(gs, pos as int, w, p) {
                            lemma_esc_step(gs, pos as int, w, p, out@, i as int);
                            if out@.len() == w.len() {
                                assert(gs[i as int] == '"');
                                assert(false);
                            }
                            let cw = w[out@.len() as int];
                            if cw == '"' || cw == '\\' {
                                assert(i + 2 <= p - 1 <= gs.len());
                                assert(false);
                            } else {
                                assert(gs[i as int] == cw && esc_char(cw)[0] == cw);
                                assert(false);
                            }
                        }
                    }
                }
                return None;
            }
            let d: char = s.get_char(i + 1);
            if d != '"' && d != '\\' {
                proof {
                    assert forall|w: Seq<char>, p: int|
                        !(#[trigger] str_at(gs, pos as int, w, p)) by {
                        if str_at(gs, pos as int, w, p) {
                            lemma_esc_step(gs, pos as int, w, p, out@, i as int);
                            if out@.len() == w.len() {
                                assert(gs[i as int] == '"');
                                assert(false);
                            }
                            let cw = w[out@.len() as int];
                            if cw == '"' || cw == '\\' {
                                assert(gs[i + 1] == cw);
                                assert(false);
                            } else {
                                assert(gs[i as int] == cw && esc_char(cw)[0] == cw);
                                assert(false);
                            }
                        }
                    }
                }
                return None;
            }
            let ghost old_out = out@;
            if d == '"' {
                out.append("\"");
                proof {
                    reveal_strlit("\"");
                }
            } else {
                out.append("\\");
                proof {
                    reveal_strlit("\\");
                }
            }
            proof {
                assert(out@ =~= old_out.push(d));
                lemma_esc_snoc(old_out, d);
                assert(esc_char(d) == seq!['\\', d]);
                assert(gs.subrange(pos + 1, i + 2) =~= esc(old_out) + seq!['\\', d]) by {
                    assert(forall|j: int|
                        0 <= j < esc(old_out).len() ==> #[trigger] gs.subrange(
                            pos + 1,
                            i as int,
                        )[j] == gs[pos + 1 + j]);
                }
                assert(gs.subrange(pos + 1, i + 2) == esc(out@));
                assert forall|w: Seq<char>, p: int|
                    #[trigger] str_at(gs, pos as int, w, p) implies out@.len() <= w.len()
                    && w.take(out@.len() as int) == out@ by {
                    lemma_esc_step(gs, pos as int, w, p, old_out, i as int);
                    if old_out.len() == w.len() {
                        assert(gs[i as int] == '"');
                        assert(false);
                    }
                    let cw = w[old_out.len() as int];
                    if !(cw == '"' || cw == '\\') {
                        assert(gs[i as int] == cw && esc_char(cw)[0] == cw);
                        assert(false);
                    }
                    assert(gs[i + 1] == cw);
                    assert(cw == d);
                    assert(w.take(old_out.len() as int + 1) =~= w.take(old_out.len() as int).push(cw));
                }
            }
            i = i + 2;
        } else {
            let ghost old_out = out@;
            out.append(s.substring_char(i, i + 1));
            proof {
                assert(gs.subrange(i as int, i + 1) =~= seq![c]);
                assert(out@ =~= old_out.push(c));
                lemma_esc_snoc(old_out, c);
                assert(esc_char(c) == seq![c]);
                assert(gs.subrange(pos + 1, i + 1) =~= esc(old_out) + seq![c]) by {
                    assert(forall|j: int|
                        0 <= j < esc(old_out).len() ==> #[trigger] gs.subrange(
                            pos + 1,
                            i as int,
                        )[j] == gs[pos + 1 + j]);
                }
                assert(gs.subrange(pos + 1, i + 1) == esc(out@));
                assert forall|w: Seq<char>, p: int|
                    #[trigger] str_at(gs, pos as int, w, p) implies out@.len() <= w.len()
                    && w.take(out@.len() as int) == out@ by {
                    lemma_esc_step(gs, pos as int, w, p, old_out, i as int);
                    if old_out.len() == w.len() {
                        assert(gs[i as int] == '"');
                        assert(false);
                    }
                    let cw = w[old_out.len() as int];
                    if cw == '"' || cw == '\\' {
                        assert(gs[i as int] == '\\');
                        assert(false);
                    }
                    assert(gs[i as int] == cw);
                    assert(w.take(old_out.len() as int + 1) =~= w.take(old_out.len() as int).push(cw));
                }
            }
            i = i + 1;
        }
    }
}

/// Is `c` one of the ten decimal digits?
pub open spec fn is_digit(c: char) -> bool {
    c == '0' || c == '1' || c == '2' || c == '3' || c == '4' || c == '5' || c == '6' || c == '7'
        || c == '8' || c == '9'
}

/// The digit character for a value below ten.
pub open spec fn digit_char(d: nat) -> char {
    if d == 0 {
        '0'
    } else if d == 1 {
        '1'
    } else if d == 2 {
        '2'
    } else if d == 3 {
        '3'
    } else if d == 4 {
        '4'
    } else if d == 5 {
        '5'
    } else if d == 6 {
        '6'
    } else if d == 7 {
        '7'
    } else if d == 8 {
        '8'
    } else {
        '9'
    }
}

/// The value of a digit character.
pub open spec fn digit_val(c: char) -> nat {
    if c == '0' {
        0
    } else if c == '1' {
        1
    } else if c == '2' {
        2
    } else if c == '3' {
        3
    } else if c == '4' {
        4
    } else if c == '5' {
        5
    } else if c == '6' {
        6
    } else if c == '7' {
        7
    } else if c == '8' {
        8
    } else {
        9
    }
}

/// The canonical decimal representation of `n`: no sign, no leading zero.
pub open spec fn dec_rep(n: nat) -> Seq<char>
    decreases n,
    via dec_rep_decreases
{
    if n < 10 {
        seq![digit_char(n)]
    } else {
        dec_rep(n / 10).push(digit_char(n % 10))
    }
}

#[via_fn]
proof fn dec_rep_decreases(n: nat) {
    if n >= 10 {
        assert(n / 10 < n) by (nonlinear_arith)
            requires
                n >= 10,
        ;
    }
}

/// The number a digit run denotes, most significant digit first.
pub open spec fn fold_digits(ds: Seq<char>) -> nat
    decreases ds.len(),
{
    if ds.len() == 0 {
        0
    } else {
        fold_digits(ds.drop_last()) * 10 + digit_val(ds.last())
    }
}

/// Ten to the `k`.
pub open spec fn pow10(k: nat) -> nat
    decreases k,
{
    if k == 0 {
        1
    } else {
        10 * pow10((k - 1) as nat)
    }
}

/// Shape of the canonical representation: non-empty, all digits, and no
/// leading zero unless the number is zero itself.
pub proof fn lemma_dec_rep_shape(n: nat)
    ensures
        dec_rep(n).len() >= 1,
        forall|i: int| 0 <= i < dec_rep(n).len() ==> is_digit(#[trigger] dec_rep(n)[i]),
        n > 0 ==> dec_rep(n)[0] != '0',
    decreases n,
{
    if n >= 10 {
        assert(n / 10 < n) by (nonlinear_arith)
            requires
                n >= 10,
        ;
        assert(n / 10 >= 1) by (nonlinear_arith)
            requires
                n >= 10,
        ;
        lemma_dec_rep_shape(n / 10);
        assert(dec_rep(n) == dec_rep(n / 10).push(digit_char(n % 10)));
        assert(n % 10 < 10) by (nonlinear_arith);
        assert(dec_rep(n)[0] == dec_rep(n / 10)[0]);
    }
}

/// Reading the canonical representation back gives the number.
pub proof fn lemma_fold_dec_rep(n: nat)
    ensures
        fold_digits(dec_rep(n)) == n,
    decreases n,
{
    if n < 10 {
        assert(dec_rep(n).drop_last() =~= Seq::<char>::empty());
        assert(fold_digits(Seq::<char>::empty()) == 0);
        assert(dec_rep(n).last() == digit_char(n));
        assert(digit_val(digit_char(n)) == n);
    } else {
        assert(n / 10 < n) by (nonlinear_arith)
            requires
                n >= 10,
        ;
        lemma_fold_dec_rep(n / 10);
        assert(dec_rep(n).drop_last() =~= dec_rep(n / 10));
        assert(n % 10 < 10 && n == (n / 10) * 10 + n % 10) by (nonlinear_arith)
            requires
                n >= 10,
        ;
        assert(dec_rep(n).last() == digit_char(n % 10));
        assert(digit_val(digit_char(n % 10)) == n % 10);
    }
}

/// A digit run with a leading non-zero digit denotes a positive number.
proof fn lemma_fold_pos(ds: Seq<char>)
    requires
        ds.len() >= 1,
        forall|i: int| 0 <= i < ds.len() ==> is_digit(#[trigger] ds[i]),
        ds[0] != '0',
    ensures
        fold_digits(ds) >= 1,
    decreases ds.len(),
{
    if ds.len() > 1 {
        lemma_fold_pos(ds.drop_last());
    }
}

/// A canonical digit run is the canonical representation of the number it
/// denotes.
pub proof fn lemma_dec_rep_of_fold(ds: Seq<char>)
    requires
        ds.len() >= 1,
        forall|i: int| 0 <= i < ds.len() ==> is_digit(#[trigger] ds[i]),
        ds[0] != '0' || ds.len() == 1,
    ensures
        dec_rep(fold_digits(ds)) == ds,
    decreases ds.len(),
{
    let d = digit_val(ds.last());
    if ds.len() == 1 {
        assert(ds.drop_last() =~= Seq::<char>::empty());
        assert(fold_digits(ds) == d);
        assert(dec_rep(d) =~= ds);
    } else {
        let a = fold_digits(ds.drop_last());
        lemma_fold_pos(ds.drop_last());
        assert(fold_digits(ds) == a * 10 + d);
        assert(a * 10 + d >= 10) by (nonlinear_arith)
            requires
                a >= 1,
                d >= 0,
        ;
        assert((a * 10 + d) / 10 == a && (a * 10 + d) % 10 == d) by (nonlinear_arith)
            requires
                0 <= d < 10,
                a >= 0,
        ;
        lemma_dec_rep_of_fold(ds.drop_last());
        assert(dec_rep(a * 10 + d) == dec_rep(a).push(digit_char(d)));
        assert(dec_rep(fold_digits(ds)) =~= ds);
    }
}

/// The canonical representation of a number below `pow10(k)` has at most
/// `k` digits.
pub proof fn lemma_dec_rep_len(n: nat, k: nat)
    requires
        k >= 1,
        n < pow10(k),
    ensures
        dec_rep(n).len() <= k,
    decreases n,
{
    if n >= 10 {
        assert(n / 10 < n) by (nonlinear_arith)
            requires
                n >= 10,
        ;
        assert(k >= 2) by {
            if k == 1 {
                assert(pow10(1) == 10);
            }
        }
        assert(n / 10 < pow10((k - 1) as nat)) by (nonlinear_arith)
            requires
                n < 10 * pow10((k - 1) as nat),
                pow10((k - 1) as nat) >= 1,
        ;
        lemma_pow10_pos((k - 1) as nat);
        lemma_dec_rep_len(n / 10, (k - 1) as nat);
    }
}

proof fn lemma_pow10_pos(k: nat)
    ensures
        pow10(k) >= 1,
    decreases k,
{
    if k > 0 {
        lemma_pow10_pos((k - 1) as nat);
    }
}

/// The folded value of a digit run stays below `pow10` of its length.
proof fn lemma_fold_bound(ds: Seq<char>)
    requires
        forall|i: int| 0 <= i < ds.len() ==> is_digit(#[trigger] ds[i]),
    ensures
        fold_digits(ds) < pow10(ds.len()),
    decreases ds.len(),
{
    if ds.len() > 0 {
        lemma_fold_bound(ds.drop_last());
        let a = fold_digits(ds.drop_last());
        let d = digit_val(ds.last());
        assert(a * 10 + d < 10 * pow10((ds.len() - 1) as nat)) by (nonlinear_arith)
            requires
                a < pow10((ds.len() - 1) as nat),
                0 <= d < 10,
        ;
    }
}

/// Joining adjacent stretches of one string.
pub proof fn lemma_subrange_join(s: Seq<char>, a: int, b: int, c: int)
    requires
        0 <= a <= b <= c <= s.len(),
    ensures
        s.subrange(a, c) == s.subrange(a, b) + s.subrange(b, c),
{
    assert(s.subrange(a, c) =~= s.subrange(a, b) + s.subrange(b, c));
}

/// Every item encoded and followed by a separator.
pub open spec fn sep_items(ts: Seq<Seq<char>>) -> Seq<char>
    decreases ts.len(),
{
    if ts.len() == 0 {
        Seq::empty()
    } else {
        enc_str(ts.first()) + seq![','] + sep_items(ts.drop_first())
    }
}

/// The remainder of a list encoding: the items still to come, separated by
/// commas and closed with the bracket.
pub open spec fn rest_items(ts: Seq<Seq<char>>) -> Seq<char>
    decreases ts.len(),
{
    if ts.len() == 0 {
        seq![']']
    } else if ts.len() == 1 {
        enc_str(ts.first()) + seq![']']
    } else {
        enc_str(ts.first()) + seq![','] + rest_items(ts.drop_first())
    }
}

/// The canonical JSON array of strings.
pub open spec fn enc_list(ts: Seq<Seq<char>>) -> Seq<char> {
    seq!['['] + rest_items(ts)
}

/// The stretch of `gs` from `pos` to `p` is exactly the canonical list
/// encoding of `ss`.
pub open spec fn list_at(gs: Seq<char>, pos: int, ss: Seq<Seq<char>>, p: int) -> bool {
    pos + enc_list(ss).len() == p && p <= gs.len() && gs.subrange(pos, p) == enc_list(ss)
}

proof fn lemma_sep_snoc(ts: Seq<Seq<char>>, x: Seq<char>)
    ensures
        sep_items(ts.push(x)) == sep_items(ts) + enc_str(x) + seq![','],
    decreases ts.len(),
{
    if ts.len() == 0 {
        assert(ts.push(x).drop_first() =~= Seq::<Seq<char>>::empty());
        assert(ts =~= Seq::<Seq<char>>::empty());
        assert(sep_items(Seq::<Seq<char>>::empty()) == Seq::<char>::empty());
        assert(ts.push(x).first() == x);
        assert(sep_items(ts.push(x)) == enc_str(x) + seq![','] + sep_items(
            Seq::<Seq<char>>::empty(),
        ));
        assert(sep_items(ts.push(x)) =~= sep_items(ts) + enc_str(x) + seq![',']);
    } else {
        assert(ts.push(x).drop_first() =~= ts.drop_first().push(x));
        assert(ts.push(x).first() == ts.first());
        lemma_sep_snoc(ts.drop_first(), x);
        assert(sep_items(ts.push(x)) == enc_str(ts.first()) + seq![','] + sep_items(
            ts.drop_first().push(x),
        ));
        assert(sep_items(ts.push(x)) =~= sep_items(ts) + enc_str(x) + seq![',']);
    }
}

proof fn lemma_rest_snoc(ts: Seq<Seq<char>>, x: Seq<char>)
    ensures
        rest_items(ts.push(x)) == sep_items(ts) + enc_str(x) + seq![']'],
    decreases ts.len(),
{
    if ts.len() == 0 {
        assert(rest_items(ts.push(x)) =~= sep_items(ts) + enc_str(x) + seq![']']);
    } else {
        assert(ts.push(x).drop_first() =~= ts.drop_first().push(x));
        assert(ts.push(x).first() == ts.first());
        assert(ts.push(x).len() >= 2);
        lemma_rest_snoc(ts.drop_first(), x);
        assert(rest_items(ts.push(x)) == enc_str(ts.first()) + seq![','] + rest_items(
            ts.drop_first().push(x),
        ));
        assert(rest_items(ts.push(x)) =~= sep_items(ts) + enc_str(x) + seq![']']);
    }
}

/// Peeling the first `k` items off a list encoding.
proof fn lemma_list_decomp(ts: Seq<Seq<char>>, k: int)
    requires
        0 <= k < ts.len(),
    ensures
        enc_list(ts) == seq!['['] + sep_items(ts.take(k)) + rest_items(ts.skip(k)),
    decreases k,
{
    if k == 0 {
        assert(ts.take(0) =~= Seq::<Seq<char>>::empty());
        assert(ts.skip(0) =~= ts);
        assert(enc_list(ts) =~= seq!['['] + sep_items(ts.take(0)) + rest_items(ts.skip(0)));
    } else {
        lemma_list_decomp(ts, k - 1);
        let tail = ts.skip(k - 1);
        assert(tail.len() == ts.len() - k + 1 >= 2);
        assert(tail.first() == ts[k - 1]);
        assert(tail.drop_first() =~= ts.skip(k));
        assert(rest_items(tail) == enc_str(ts[k - 1]) + seq![','] + rest_items(ts.skip(k)));
        assert(ts.take(k) =~= ts.take(k - 1).push(ts[k - 1]));
        lemma_sep_snoc(ts.take(k - 1), ts[k - 1]);
        assert(seq!['['] + sep_items(ts.take(k - 1)) + rest_items(tail) =~= seq!['['] + sep_items(
            ts.take(k),
        ) + rest_items(ts.skip(k)));
    }
}

/// Parses a canonical JSON array of strings at `pos`: succeeds exactly on
/// the canonical list encoding.
pub(crate) fn parse_list(s: &str, pos: usize) -> (r: Option<(Vec<String>, usize)>)
    requires
        pos <= s@.len(),
    ensures
        r matches Some(v) ==> pos < v.1 <= s@.len() && list_at(
            s@,
            pos as int,
            sviews(v.0@),
            v.1 as int,
        ),
        forall|ss: Seq<Seq<char>>, p: int|
            #[trigger] list_at(s@, pos as int, ss, p) ==> r is Some && sviews(r.unwrap().0@) == ss
                && r.unwrap().1 == p,
{
    let ghost gs = s@;
    let n: usize = s.unicode_len();
    if pos >= n || s.get_char(pos) != '[' {
        proof {
            assert forall|ss: Seq<Seq<char>>, p: int| !(#[trigger] list_at(
                gs,
                pos as int,
                ss,
                p,
            )) by {
                if list_at(gs, pos as int, ss, p) {
                    assert(gs.subrange(pos as int, p)[0] == enc_list(ss)[0]);
                    assert(false);
                }
            }
        }
        return None;
    }
    if pos + 1 >= n {
        proof {
            assert forall|ss: Seq<Seq<char>>, p: int| !(#[trigger] list_at(
                gs,
                pos as int,
                ss,
                p,
            )) by {
                if list_at(gs, pos as int, ss, p) {
                    assert(enc_list(ss).len() >= 2);
                    assert(false);
                }
            }
        }
        return None;
    }
    if s.get_char(pos + 1) == ']' {
        let out: Vec<String> = Vec::new();
        proof {
            assert(sviews(out@) =~= Seq::<Seq<char>>::empty());
            assert(gs.subrange(pos as int, pos + 2) =~= enc_list(sviews(out@)));
            assert forall|ss: Seq<Seq<char>>, p: int|
                #[trigger] list_at(gs, pos as int, ss, p) implies ss == sviews(out@) && p == pos
                + 2 by {
                if ss.len() > 0 {
                    assert(enc_list(ss)[1] == rest_items(ss)[0]);
                    assert(rest_items(ss)[0] == enc_str(ss.first())[0]);
                    assert(gs.subrange(pos as int, p)[1] == enc_list(ss)[1]);
                    assert(gs[pos + 1] == '"');
                    assert(false);
                }
                assert(ss =~= sviews(out@));
            }
        }
        return Some((out, pos + 2));
    }
    let mut items: Vec<String> = Vec::new();
    let mut cur: usize = pos + 1;
    proof {
        assert(sviews(items@) =~= Seq::<Seq<char>>::empty());
        assert(gs.subrange(pos as int, pos + 1) =~= seq!['['] + sep_items(sviews(items@)));
        assert forall|ss: Seq<Seq<char>>, p: int|
            #[trigger] list_at(gs, pos as int, ss, p) implies ss.len() > items@.len()
            && ss.take(items@.len() as int) == sviews(items@) by {
            if ss.len() == 0 {
                assert(enc_list(ss)[1] == rest_items(ss)[0]);
                assert(gs.subrange(pos as int, p)[1] == enc_list(ss)[1]);
                assert(gs[pos + 1] == ']');
                assert(false);
            }
            assert(ss.take(0) =~= sviews(items@));
        }
    }
    loop
        invariant
            pos < cur <= n,
            n == gs.len(),
            gs == s@,
            gs.subrange(pos as int, cur as int) == seq!['['] + sep_items(sviews(items@)),
            forall|ss: Seq<Seq<char>>, p: int|
                #[trigger] list_at(gs, pos as int, ss, p) ==> ss.len() > items@.len() && ss.take(
                    items@.len() as int,
                ) == sviews(items@),
        decreases n - cur,
    {
        let ghost k = items@.len() as int;
        proof {
            assert forall|ss: Seq<Seq<char>>, p: int|
                #[trigger] list_at(gs, pos as int, ss, p) implies str_at(
                gs,
                cur as int,
                ss[k],
                cur + enc_str(ss[k]).len(),
            ) && gs.subrange(
                cur + enc_str(ss[k]).len(),
                p,
            ) == rest_items(ss.skip(k)).skip(enc_str(ss[k]).len() as int) && rest_items(
                ss.skip(k),
            ).len() >= enc_str(ss[k]).len() + 1 && p == cur + rest_items(ss.skip(k)).len() by {
                lemma_list_decomp(ss, k);
                let head = seq!['['] + sep_items(ss.take(k));
                let rest = rest_items(ss.skip(k));
                assert(enc_list(ss) =~= head + rest);
                lemma_subrange_split(gs, pos as int, head, rest);
                assert(head.len() == cur - pos);
                assert(gs.subrange(cur as int, p) == rest);
                let e = enc_str(ss[k]);
                assert(ss.skip(k).first() == ss[k]);
                if ss.len() - k == 1 {
                    assert(rest =~= e + seq![']']);
                } else {
                    assert(rest =~= e + (seq![','] + rest_items(ss.skip(k).drop_first())));
                }
                let tail = rest.skip(e.len() as int);
                assert(rest =~= e + tail);
                lemma_subrange_split(gs, cur as int, e, tail);
                assert(str_at(gs, cur as int, ss[k], cur + e.len()));
            }
        }
        let parsed = parse_string(s, cur);
        match parsed {
            None => {
                proof {
                    assert forall|ss: Seq<Seq<char>>, p: int| !(#[trigger] list_at(
                        gs,
                        pos as int,
                        ss,
                        p,
                    )) by {
                        if list_at(gs, pos as int, ss, p) {
                            assert(str_at(gs, cur as int, ss[k], cur + enc_str(ss[k]).len()));
                            assert(false);
                        }
                    }
                }
                return None;
            },
            Some((v, q)) => {
                proof {
                    assert forall|ss: Seq<Seq<char>>, p: int|
                        #[trigger] list_at(gs, pos as int, ss, p) implies ss[k] == v@ && q == cur
                        + enc_str(ss[k]).len() && q < p && gs.subrange(q as int, p) == rest_items(
                        ss.skip(k),
                    ).skip(enc_str(ss[k]).len() as int) by {
                        assert(str_at(gs, cur as int, ss[k], cur + enc_str(ss[k]).len()));
                        assert(p == cur + rest_items(ss.skip(k)).len());
                        assert(rest_items(ss.skip(k)).len() >= enc_str(ss[k]).len() + 1);
                    }
                }
                if q >= n {
                    proof {
                        assert forall|ss: Seq<Seq<char>>, p: int| !(#[trigger] list_at(
                            gs,
                            pos as int,
                            ss,
                            p,
                        )) by {
                            if list_at(gs, pos as int, ss, p) {
                                assert(rest_items(ss.skip(k)).len() >= enc_str(ss[k]).len() + 1);
                                assert(p > q);
                                assert(false);
                            }
                        }
                    }
                    return None;
                }
                let c: char = s.get_char(q);
                proof {
                    assert forall|ss: Seq<Seq<char>>, p: int|
                        #[trigger] list_at(gs, pos as int, ss, p) implies gs[q as int]
                        == rest_items(ss.skip(k))[enc_str(ss[k]).len() as int] && (gs[q as int]
                        == ',' <==> ss.len() > k + 1) && (gs[q as int] == ']' <==> ss.len() == k
                        + 1) by {
                        let e = enc_str(ss[k]);
                        let tail = rest_items(ss.skip(k)).skip(e.len() as int);
                        assert(gs.subrange(q as int, p)[0] == tail[0]);
                        if ss.len() - k == 1 {
                            assert(rest_items(ss.skip(k)) =~= e + seq![']']);
                            assert(tail[0] == ']');
                        } else {
                            assert(rest_items(ss.skip(k)) =~= e + (seq![','] + rest_items(
                                ss.skip(k).drop_first(),
                            )));
                            assert(tail[0] == ',');
                        }
                    }
                }
                if c == ']' {
                    let ghost old_items = items@;
                    items.push(v);
                    proof {
                        lemma_sviews_push(old_items, items@.last());
                        lemma_rest_snoc(sviews(old_items), v@);
                        assert(gs.subrange(q as int, q + 1) =~= seq![']']);
                        lemma_subrange_join(gs, pos as int, cur as int, q as int);
                        lemma_subrange_join(gs, pos as int, q as int, q + 1);
                        assert(gs.subrange(pos as int, q + 1) =~= enc_list(sviews(items@)));
                        assert forall|ss: Seq<Seq<char>>, p: int|
                            #[trigger] list_at(gs, pos as int, ss, p) implies ss == sviews(items@)
                            && p == q + 1 by {
                            assert(ss.len() == k + 1);
                            assert(ss =~= ss.take(k).push(ss[k]));
                            let tail = rest_items(ss.skip(k)).skip(enc_str(ss[k]).len() as int);
                            assert(rest_items(ss.skip(k)) =~= enc_str(ss[k]) + seq![']']);
                            assert(tail =~= seq![']']);
                            assert(p == q + 1);
                        }
                    }
                    return Some((items, q + 1));
                } else if c == ',' {
                    let ghost old_items = items@;
                    items.push(v);
                    proof {
                        lemma_sviews_push(old_items, items@.last());
                        lemma_sep_snoc(sviews(old_items), v@);
                        assert(gs.subrange(q as int, q + 1) =~= seq![',']);
                        lemma_subrange_join(gs, pos as int, cur as int, q as int);
                        lemma_subrange_join(gs, pos as int, q as int, q + 1);
                        assert(gs.subrange(pos as int, q + 1) =~= seq!['['] + sep_items(
                            sviews(items@),
                        ));
                        assert forall|ss: Seq<Seq<char>>, p: int|
                            #[trigger] list_at(gs, pos as int, ss, p) implies ss.len()
                            > items@.len() && ss.take(items@.len() as int) == sviews(items@) by {
                            assert(ss.len() > k + 1);
                            assert(ss.take(k + 1) =~= ss.take(k).push(ss[k]));
                        }
                    }
                    cur = q + 1;
                } else {
                    proof {
                        assert forall|ss: Seq<Seq<char>>, p: int| !(#[trigger] list_at(
                            gs,
                            pos as int,
                            ss,
                            p,
                        )) by {
                            if list_at(gs, pos as int, ss, p) {
                                assert(gs[q as int] == ',' || gs[q as int] == ']');
                                assert(false);
                            }
                        }
                    }
                    return None;
                }
            },
        }
    }
}

/// Appends the canonical JSON array encoding of `items`.
pub(crate) fn append_str_list(out: &mut String, items: &Vec<String>)
    ensures
        final (out)@ == old(out)@ + enc_list(sviews(items@)),
{
    out.append("[");
    proof {
        reveal_strlit("[");
    }
    let n: usize = items.len();
    if n == 0 {
        out.append("]");
        proof {
            reveal_strlit("]");
            assert(out@ =~= old(out)@ + enc_list(sviews(items@)));
        }
        return ;
    }
    let mut i: usize = 0;
    while i < n
        invariant
            0 <= i < n,
            n == items@.len(),
            out@ == old(out)@ + seq!['['] + sep_items(sviews(items@).take(i as int)),
        decreases n - i,
    {
        let ghost before = out@;
        append_json_str(out, items[i].as_str());
        if i + 1 < n {
            out.append(",");
            proof {
                reveal_strlit(",");
                lemma_sep_snoc(sviews(items@).take(i as int), items@[i as int]@);
                assert(sviews(items@).take(i + 1) =~= sviews(items@).take(i as int).push(
                    items@[i as int]@,
                ));
                assert(out@ =~= old(out)@ + seq!['['] + sep_items(sviews(items@).take(i + 1)));
            }
            i = i + 1;
        } else {
            out.append("]");
            proof {
                reveal_strlit("]");
                lemma_rest_snoc(sviews(items@).take(i as int), items@[i as int]@);
                assert(sviews(items@).take(i as int).push(items@[i as int]@) =~= sviews(items@));
                assert(out@ =~= old(out)@ + enc_list(sviews(items@)));
            }
            return ;
        }
    }
}

fn is_digit_ex(c: char) -> (r: bool)
    ensures
        r == is_digit(c),
{
    c == '0' || c == '1' || c == '2' || c == '3' || c == '4' || c == '5' || c == '6' || c == '7'
        || c == '8' || c == '9'
}

fn digit_val_ex(c: char) -> (r: u64)
    requires
        is_digit(c),
    ensures
        r == digit_val(c),
{
    if c == '0' {
        0
    } else if c == '1' {
        1
    } else if c == '2' {
        2
    } else if c == '3' {
        3
    } else if c == '4' {
        4
    } else if c == '5' {
        5
    } else if c == '6' {
        6
    } else if c == '7' {
        7
    } else if c == '8' {
        8
    } else {
        9
    }
}

/// The end of the digit run starting at `pos`.
fn scan_digits(s: &str, pos: usize) -> (r: usize)
    requires
        pos <= s@.len(),
    ensures
        pos <= r <= s@.len(),
        forall|k: int| pos <= k < r ==> is_digit(#[trigger] s@[k]),
        r == s@.len() || !is_digit(s@[r as int]),
{
    let n: usize = s.unicode_len();
    let mut i: usize = pos;
    while i < n
        invariant
            pos <= i <= n,
            n == s@.len(),
            forall|k: int| pos <= k < i ==> is_digit(#[trigger] s@[k]),
        decreases n - i,
    {
        if !is_digit_ex(s.get_char(i)) {
            return i;
        }
        i = i + 1;
    }
    i
}

/// Parses a canonical decimal number at `pos`: succeeds exactly on a
/// maximal digit run, without sign or leading zero, whose value fits the
/// target type.
pub(crate) fn parse_u32(s: &str, pos: usize) -> (r: Option<(u32, usize)>)
    requires
        pos <= s@.len(),
    ensures
        r matches Some(v) ==> pos < v.1 <= s@.len() && num_at(s@, pos as int, v.0, v.1 as int),
        forall|m: u32, p: int|
            #[trigger] num_at(s@, pos as int, m, p) ==> r is Some && r.unwrap().0 == m
                && r.unwrap().1 == p,
{
    let ghost gs = s@;
    let n: usize = s.unicode_len();
    let end: usize = scan_digits(s, pos);
    proof {
        assert forall|m: u32, p: int|
            #![trigger gs.subrange(pos as int, p), dec_rep(m as nat)]
            pos + dec_rep(m as nat).len() == p && p <= gs.len() && gs.subrange(pos as int, p)
                == dec_rep(m as nat) && (p == gs.len() || !is_digit(gs[p])) implies pos < p && p
            == end && gs.subrange(pos as int, p) == dec_rep(m as nat) by {
            lemma_dec_rep_shape(m as nat);
            assert forall|k: int| pos <= k < p implies is_digit(#[trigger] gs[k]) by {
                assert(gs.subrange(pos as int, p)[k - pos] == dec_rep(m as nat)[k - pos]);
            }
            if p < end {
                assert(is_digit(gs[p]));
                assert(false);
            }
            if p > end {
                assert(is_digit(gs[end as int]));
                assert(false);
            }
        }
    }
    if end == pos {
        return None;
    }
    let c0: char = s.get_char(pos);
    proof {
        assert(gs.subrange(pos as int, end as int)[0] == gs[pos as int]);
    }
    if c0 == '0' {
        // canonical zero is the single digit
        if end > pos + 1 {
            proof {
                assert forall|m: u32, p: int|
                    #![trigger gs.subrange(pos as int, p), dec_rep(m as nat)]
                    !(pos + dec_rep(m as nat).len() == p && p <= gs.len() && gs.subrange(
                        pos as int,
                        p,
                    ) == dec_rep(m as nat) && (p == gs.len() || !is_digit(gs[p]))) by {
                    if pos + dec_rep(m as nat).len() == p && p <= gs.len() && gs.subrange(
                        pos as int,
                        p,
                    ) == dec_rep(m as nat) && (p == gs.len() || !is_digit(gs[p])) {
                        lemma_dec_rep_shape(m as nat);
                        assert(gs.subrange(pos as int, p)[0] == dec_rep(m as nat)[0]);
                        assert(dec_rep(m as nat)[0] == '0');
                        assert(m == 0);
                        assert(p == pos + 1);
                        assert(false);
                    }
                }
            }
            return None;
        }
        proof {
            assert(gs.subrange(pos as int, pos + 1) =~= dec_rep(0));
            assert forall|m: u32, p: int|
                #![trigger gs.subrange(pos as int, p), dec_rep(m as nat)]
                pos + dec_rep(m as nat).len() == p && p <= gs.len() && gs.subrange(pos as int, p)
                    == dec_rep(m as nat) && (p == gs.len() || !is_digit(gs[p])) implies m == 0 && p
                == pos + 1 by {
                lemma_dec_rep_shape(m as nat);
                assert(gs.subrange(pos as int, p)[0] == dec_rep(m as nat)[0]);
            }
        }
        return Some((0, pos + 1));
    }
    if end - pos > 10 {
        proof {
            assert forall|m: u32, p: int|
                #![trigger gs.subrange(pos as int, p), dec_rep(m as nat)]
                !(pos + dec_rep(m as nat).len() == p && p <= gs.len() && gs.subrange(pos as int, p)
                    == dec_rep(m as nat) && (p == gs.len() || !is_digit(gs[p]))) by {
                if pos + dec_rep(m as nat).len() == p && p <= gs.len() && gs.subrange(
                    pos as int,
                    p,
                ) == dec_rep(m as nat) && (p == gs.len() || !is_digit(gs[p])) {
                    assert(pow10(10) == 10000000000) by {
                        reveal_with_fuel(pow10, 11);
                    }
                    lemma_dec_rep_len(m as nat, 10);
                    assert(false);
                }
            }
        }
        return None;
    }
    let mut i: usize = pos;
    let mut acc: u64 = 0;
    proof {
        assert(gs.subrange(pos as int, pos as int) =~= Seq::<char>::empty());
        lemma_pow10_pos(0);
    }
    while i < end
        invariant
            pos <= i <= end <= n,
            n == gs.len(),
            gs == s@,
            end - pos <= 10,
            forall|k: int| pos <= k < end ==> is_digit(#[trigger] gs[k]),
            acc == fold_digits(gs.subrange(pos as int, i as int)),
            acc < pow10((i - pos) as nat),
        decreases end - i,
    {
        let c: char = s.get_char(i);
        let d: u64 = digit_val_ex(c);
        proof {
            let ds = gs.subrange(pos as int, i as int);
            let ds2 = gs.subrange(pos as int, i + 1);
            assert(ds2.drop_last() =~= ds);
            assert(ds2.last() == c);
            assert(pow10(((i + 1) - pos) as nat) == 10 * pow10((i - pos) as nat));
            assert(pow10((i - pos) as nat) <= pow10(9)) by {
                lemma_pow10_mono((i - pos) as nat, 9);
            }
            assert(pow10(9) == 1000000000) by {
                reveal_with_fuel(pow10, 10);
            }
        }
        acc = acc * 10 + d;
        i = i + 1;
    }
    if acc > 0xFFFF_FFFF {
        proof {
            assert forall|m: u32, p: int|
                #![trigger gs.subrange(pos as int, p), dec_rep(m as nat)]
                !(pos + dec_rep(m as nat).len() == p && p <= gs.len() && gs.subrange(pos as int, p)
                    == dec_rep(m as nat) && (p == gs.len() || !is_digit(gs[p]))) by {
                if pos + dec_rep(m as nat).len() == p && p <= gs.len() && gs.subrange(
                    pos as int,
                    p,
                ) == dec_rep(m as nat) && (p == gs.len() || !is_digit(gs[p])) {
                    lemma_fold_dec_rep(m as nat);
                    assert(false);
                }
            }
        }
        return None;
    }
    proof {
        let ds = gs.subrange(pos as int, end as int);
        assert(ds[0] == c0);
        lemma_dec_rep_of_fold(ds);
        assert forall|m: u32, p: int|
            #![trigger gs.subrange(pos as int, p), dec_rep(m as nat)]
            pos + dec_rep(m as nat).len() == p && p <= gs.len() && gs.subrange(pos as int, p)
                == dec_rep(m as nat) && (p == gs.len() || !is_digit(gs[p])) implies m == acc && p
            == end by {
            lemma_fold_dec_rep(m as nat);
        }
    }
    Some((acc as u32, end))
}

proof fn lemma_pow10_mono(a: nat, b: nat)
    requires
        a <= b,
    ensures
        pow10(a) <= pow10(b),
    decreases b,
{
    if a < b {
        lemma_pow10_mono(a, (b - 1) as nat);
        lemma_pow10_pos((b - 1) as nat);
    }
}

fn append_digit(out: &mut String, d: u64)
    requires
        d < 10,
    ensures
        final (out)@ == old(out)@ + seq![digit_char(d as nat)],
{
    if d == 0 {
        out.append("0");
        proof {
            reveal_strlit("0");
            assert(out@ =~= old(out)@ + seq![digit_char(d as nat)]);
        }
    } else if d == 1 {
        out.append("1");
        proof {
            reveal_strlit("1");
            assert(out@ =~= old(out)@ + seq![digit_char(d as nat)]);
        }
    } else if d == 2 {
        out.append("2");
        proof {
            reveal_strlit("2");
            assert(out@ =~= old(out)@ + seq![digit_char(d as nat)]);
        }
    } else if d == 3 {
        out.append("3");
        proof {
            reveal_strlit("3");
            assert(out@ =~= old(out)@ + seq![digit_char(d as nat)]);
        }
    } else if d == 4 {
        out.append("4");
        proof {
            reveal_strlit("4");
            assert(out@ =~= old(out)@ + seq![digit_char(d as nat)]);
        }
    } else if d == 5 {
        out.append("5");
        proof {
            reveal_strlit("5");
            assert(out@ =~= old(out)@ + seq![digit_char(d as nat)]);
        }
    } else if d == 6 {
        out.append("6");
        proof {
            reveal_strlit("6");
            assert(out@ =~= old(out)@ + seq![digit_char(d as nat)]);
        }
    } else if d == 7 {
        out.append("7");
        proof {
            reveal_strlit("7");
            assert(out@ =~= old(out)@ + seq![digit_char(d as nat)]);
        }
    } else if d == 8 {
        out.append("8");
        proof {
            reveal_strlit("8");
            assert(out@ =~= old(out)@ + seq![digit_char(d as nat)]);
        }
    } else {
        out.append("9");
        proof {
            reveal_strlit("9");
            assert(out@ =~= old(out)@ + seq![digit_char(d as nat)]);
        }
    }
}

/// Appends the canonical decimal representation of `n`.
pub(crate) fn append_u32(out: &mut String, n: u32)
    ensures
        final (out)@ == old(out)@ + dec_rep(n as nat),
    decreases n,
{
    if n >= 10 {
        proof {
            assert(n / 10 < n) by (nonlinear_arith)
                requires
                    n >= 10,
            ;
        }
        append_u32(out, n / 10);
        append_digit(out, (n % 10) as u64);
        proof {
            assert(out@ =~= old(out)@ + dec_rep(n as nat));
        }
    } else {
        append_digit(out, n as u64);
        proof {
            assert(out@ =~= old(out)@ + dec_rep(n as nat));
        }
    }
}

/// Appends the canonical JSON string encoding of `s`, escaping `"` and
/// `\`.
pub(crate) fn append_json_str(out: &mut String, s: &str)
    ensures
        final (out)@ == old(out)@ + enc_str(s@),
{
    let n: usize = s.unicode_len();
    out.append("\"");
    proof {
        reveal_strlit("\"");
        assert("\""@ =~= seq!['"']);
        assert(esc(s@.take(0)) =~= Seq::<char>::empty());
        assert(out@ =~= old(out)@ + seq!['"'] + esc(s@.take(0)));
    }
    let mut i: usize = 0;
    while i < n
        invariant
            0 <= i <= n,
            n == s@.len(),
            out@ == old(out)@ + seq!['"'] + esc(s@.take(i as int)),
        decreases n - i,
    {
        let c: char = s.get_char(i);
        if c == '"' {
            out.append("\\\"");
            proof {
                reveal_strlit("\\\"");
                assert("\\\""@ =~= seq!['\\', '"']);
            }
        } else if c == '\\' {
            out.append("\\\\");
            proof {
                reveal_strlit("\\\\");
                assert("\\\\"@ =~= seq!['\\', '\\']);
            }
        } else {
            out.append(s.substring_char(i, i + 1));
            proof {
                assert(s@.subrange(i as int, i + 1) =~= seq![c]);
            }
        }
        proof {
            assert(s@.take(i + 1) =~= s@.take(i as int).push(c));
            lemma_esc_snoc(s@.take(i as int), c);
            assert(out@ =~= old(out)@ + seq!['"'] + esc(s@.take(i + 1)));
        }
        i = i + 1;
    }
    out.append("\"");
    proof {
        reveal_strlit("\"");
        assert(s@.take(n as int) =~= s@);
        assert(out@ =~= old(out)@ + enc_str(s@));
    }
}

} // verus!
