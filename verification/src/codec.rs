//! The text format of the preset store's backing resource.
//!
//! The resource holds an ordered sequence of preset records. Each record
//! is a block of `key: value` lines: a `name` line first, then at most one
//! populated source — descriptor text, a file path, a location, or a
//! custom-stream block. Text values carry a character count ahead of the
//! text, so any character, line breaks included, round-trips unharmed;
//! numbers are plain decimal; a multicast address is written as four
//! octets and a port.
//!
//! Rendering and parsing are both defined twice: as specification
//! functions over character sequences, which the contracts speak of, and
//! as executable functions proved to match them. The round-trip law —
//! parsing a rendered sequence of well-formed records gives back exactly
//! those records — is proved at the bottom of this module.

use vstd::arithmetic::div_mod::lemma_fundamental_div_mod;
use vstd::prelude::*;
use vstd::string::StrSliceExecFns;

use crate::descriptor::{CustomStreamSettings, DescriptorView, Ipv4Endpoint};
use crate::descriptor::Descriptor;
use crate::preset::{all_wf, source_view, views_of, Preset, PresetView};

verus! {

// ---------------------------------------------------------------------
// Decimal digits
// ---------------------------------------------------------------------

/// Decimal digit characters.
pub open spec fn is_digit(c: char) -> bool {
    48 <= c as u32 <= 57
}

/// The numeric value of a digit character.
pub open spec fn digit_val(c: char) -> nat {
    (c as u32 - 48) as nat
}

/// The digit character of a value below ten.
pub open spec fn digit_char(d: nat) -> char {
    if d == 0 {
        '0'
    } else if d == 1 {
        '1'
    } else if d == 2 {
        '2'
    } else if d == 3 {
        '3'
    } else if d == 4 {
        '4'
    } else if d == 5 {
        '5'
    } else if d == 6 {
        '6'
    } else if d == 7 {
        '7'
    } else if d == 8 {
        '8'
    } else {
        '9'
    }
}

/// Powers of ten.
pub open spec fn pow10(k: nat) -> nat
    decreases k,
{
    if k == 0 {
        1nat
    } else {
        10 * pow10((k - 1) as nat)
    }
}

/// The decimal rendering of a number, most significant digit first, no
/// leading zeroes.
pub open spec fn dec(n: nat) -> Seq<char>
    decreases n,
{
    if n < 10 {
        seq![digit_char(n)]
    } else {
        dec(n / 10).push(digit_char(n % 10))
    }
}

/// The number a digit sequence denotes.
pub open spec fn seq_val(ds: Seq<char>) -> nat
    decreases ds.len(),
{
    if ds.len() == 0 {
        0nat
    } else {
        seq_val(ds.drop_last()) * 10 + digit_val(ds.last())
    }
}

pub open spec fn all_digits(ds: Seq<char>) -> bool {
    forall|i: int| 0 <= i < ds.len() ==> is_digit(#[trigger] ds[i])
}

/// The longest digit run at the front of a sequence.
pub open spec fn take_run(s: Seq<char>) -> Seq<char>
    decreases s.len(),
{
    if s.len() > 0 && is_digit(s[0]) {
        seq![s[0]] + take_run(s.skip(1))
    } else {
        Seq::<char>::empty()
    }
}

/// Parsers read at most this many digits of one number.
pub const MAX_NUM_DIGITS: usize = 20;

proof fn lemma_dec_shape(n: nat)
    ensures
        all_digits(dec(n)),
        dec(n).len() >= 1,
        is_digit(dec(n).first()),
    decreases n,
{
    if n < 10 {
        assert(dec(n) =~= seq![digit_char(n)]);
    } else {
        lemma_dec_shape(n / 10);
        lemma_fundamental_div_mod(n as int, 10);
        assert(dec(n) =~= dec(n / 10).push(digit_char(n % 10)));
        assert forall|i: int| 0 <= i < dec(n).len() implies is_digit(#[trigger] dec(n)[i]) by {
            if i < dec(n / 10).len() {
                assert(dec(n)[i] == dec(n / 10)[i]);
            } else {
                assert(dec(n)[i] == digit_char(n % 10));
            }
        }
        assert(dec(n).first() == dec(n / 10).first());
    }
}

proof fn lemma_dec_val(n: nat)
    ensures
        seq_val(dec(n)) == n,
    decreases n,
{
    if n < 10 {
        assert(dec(n) =~= seq![digit_char(n)]);
        assert(dec(n).drop_last() =~= Seq::<char>::empty());
        assert(dec(n).last() == digit_char(n));
        assert(seq_val(Seq::<char>::empty()) == 0);
        assert(digit_val(digit_char(n)) == n);
        assert(seq_val(dec(n)) == seq_val(dec(n).drop_last()) * 10 + digit_val(dec(n).last()));
    } else {
        lemma_dec_val(n / 10);
        lemma_fundamental_div_mod(n as int, 10);
        assert(dec(n).drop_last() =~= dec(n / 10));
        assert(dec(n).last() == digit_char(n % 10));
    }
}

proof fn lemma_dec_len(n: nat, k: nat)
    requires
        n < pow10(k),
        k >= 1,
    ensures
        dec(n).len() <= k,
    decreases n,
{
    if n < 10 {
    } else {
        lemma_fundamental_div_mod(n as int, 10);
        // n >= 10, so k >= 2 and n / 10 < pow10(k - 1)
        assert(pow10(k) == 10 * pow10((k - 1) as nat));
        if n / 10 >= pow10((k - 1) as nat) {
            assert(n >= 10 * (n / 10));
            assert(10 * (n / 10) >= 10 * pow10((k - 1) as nat)) by (nonlinear_arith)
                requires
                    n / 10 >= pow10((k - 1) as nat),
            ;
            assert(false);
        }
        if k == 1 {
            assert(pow10(1nat) == 10) by {
                reveal_with_fuel(pow10, 2);
            }
            assert(false);
        }
        lemma_dec_len(n / 10, (k - 1) as nat);
    }
}

proof fn lemma_seq_val_bound(ds: Seq<char>)
    requires
        all_digits(ds),
    ensures
        seq_val(ds) < pow10(ds.len()),
    decreases ds.len(),
{
    if ds.len() == 0 {
    } else {
        assert(all_digits(ds.drop_last())) by {
            assert(forall|i: int|
                0 <= i < ds.drop_last().len() ==> ds.drop_last()[i] == ds[i]);
        }
        lemma_seq_val_bound(ds.drop_last());
        assert(is_digit(ds.last()));
        assert(digit_val(ds.last()) <= 9);
        assert(pow10(ds.len()) == 10 * pow10((ds.len() - 1) as nat));
    }
}

/// A digit prefix closed by a non-digit (or the end) is exactly the run.
proof fn lemma_take_run_exact(s: Seq<char>, k: int)
    requires
        0 <= k <= s.len(),
        forall|j: int| 0 <= j < k ==> is_digit(#[trigger] s[j]),
        k == s.len() || !is_digit(s[k]),
    ensures
        take_run(s) =~= s.subrange(0, k),
    decreases k,
{
    if k == 0 {
        if s.len() > 0 && is_digit(s[0]) {
            assert(false);
        }
    } else {
        assert(is_digit(s[0]));
        lemma_take_run_exact(s.skip(1), k - 1);
        assert(take_run(s) =~= seq![s[0]] + s.skip(1).subrange(0, k - 1));
    }
}

// ---------------------------------------------------------------------
// Specification-level parsing primitives
// ---------------------------------------------------------------------

/// Consumes an exact literal prefix.
pub open spec fn sp_lit(s: Seq<char>, l: Seq<char>) -> Option<Seq<char>> {
    if s.len() >= l.len() && s.subrange(0, l.len() as int) == l {
        Some(s.skip(l.len() as int))
    } else {
        None
    }
}

/// Consumes a decimal number: a non-empty digit run of at most
/// [`MAX_NUM_DIGITS`] digits.
pub open spec fn sp_num(s: Seq<char>) -> Option<(nat, Seq<char>)> {
    let run = take_run(s);
    if 1 <= run.len() <= MAX_NUM_DIGITS {
        Some((seq_val(run), s.skip(run.len() as int)))
    } else {
        None
    }
}

/// Consumes a counted text value: a character count, a colon, then that
/// many characters.
pub open spec fn sp_str(s: Seq<char>) -> Option<(Seq<char>, Seq<char>)> {
    match sp_num(s) {
        Some((n, r1)) => {
            if r1.len() > 0 && r1[0] == ':' {
                let r2 = r1.skip(1);
                if n <= r2.len() {
                    Some((r2.take(n as int), r2.skip(n as int)))
                } else {
                    None
                }
            } else {
                None
            }
        },
        None => None,
    }
}

/// The rendering of a counted text value.
pub open spec fn render_str(s: Seq<char>) -> Seq<char> {
    dec(s.len()) + seq![':'] + s
}

// ---------------------------------------------------------------------
// Round-trip lemmas for the primitives
// ---------------------------------------------------------------------

proof fn lemma_rt_lit(l: Seq<char>, rest: Seq<char>)
    ensures
        sp_lit(l + rest, l) == Some(rest),
{
    let s = l + rest;
    assert(s.subrange(0, l.len() as int) =~= l);
    assert(s.skip(l.len() as int) =~= rest);
}

proof fn lemma_lit_fail(s: Seq<char>, l: Seq<char>, i: int)
    requires
        0 <= i < l.len(),
        s.len() < l.len() || (i < s.len() && s[i] != l[i]),
    ensures
        sp_lit(s, l) is None,
{
    if s.len() >= l.len() {
        if s.subrange(0, l.len() as int) == l {
            assert(s.subrange(0, l.len() as int)[i] == l[i]);
            assert(false);
        }
    }
}

proof fn lemma_rt_num(n: nat, rest: Seq<char>)
    requires
        n < pow10(MAX_NUM_DIGITS as nat),
        rest.len() == 0 || !is_digit(rest[0]),
    ensures
        sp_num(dec(n) + rest) == Some((n, rest)),
{
    let s = dec(n) + rest;
    let k = dec(n).len() as int;
    lemma_dec_shape(n);
    lemma_dec_val(n);
    lemma_dec_len(n, MAX_NUM_DIGITS as nat);
    assert(forall|j: int| 0 <= j < k ==> is_digit(#[trigger] s[j]));
    assert(k == s.len() || !is_digit(s[k]));
    lemma_take_run_exact(s, k);
    assert(take_run(s) =~= dec(n));
    assert(s.skip(k) =~= rest);
}

proof fn lemma_rt_str(v: Seq<char>, rest: Seq<char>)
    requires
        v.len() < pow10(MAX_NUM_DIGITS as nat),
    ensures
        sp_str(render_str(v) + rest) == Some((v, rest)),
{
    let tail = seq![':'] + v + rest;
    assert(render_str(v) + rest =~= dec(v.len()) + tail);
    assert(!is_digit(tail[0]));
    lemma_rt_num(v.len(), tail);
    let r1 = tail;
    assert(r1[0] == ':');
    let r2 = r1.skip(1);
    assert(r2 =~= v + rest);
    assert(v.len() <= r2.len());
    assert(r2.take(v.len() as int) =~= v);
    assert(r2.skip(v.len() as int) =~= rest);
}

/// Every length an executable string can have stays under the digit cap.
proof fn lemma_usize_in_range()
    ensures
        usize::MAX < pow10(MAX_NUM_DIGITS as nat),
        u64::MAX < pow10(MAX_NUM_DIGITS as nat),
        u32::MAX < pow10(MAX_NUM_DIGITS as nat),
{
    assert(pow10(20nat) == 100000000000000000000) by {
        reveal_with_fuel(pow10, 21);
    }
}

// ---------------------------------------------------------------------
// Executable rendering of numbers
// ---------------------------------------------------------------------

/// The one-character text of a digit.
fn digit_str(d: u8) -> (r: &'static str)
    requires
        d < 10,
    ensures
        r@ =~= seq![digit_char(d as nat)],
{
    proof {
        reveal_strlit("0");
        reveal_strlit("1");
        reveal_strlit("2");
        reveal_strlit("3");
        reveal_strlit("4");
        reveal_strlit("5");
        reveal_strlit("6");
        reveal_strlit("7");
        reveal_strlit("8");
        reveal_strlit("9");
    }
    match d {
        0 => "0",
        1 => "1",
        2 => "2",
        3 => "3",
        4 => "4",
        5 => "5",
        6 => "6",
        7 => "7",
        8 => "8",
        _ => "9",
    }
}

/// Renders a number in decimal.
fn u64_to_dec(n: u64) -> (r: String)
    ensures
        r@ =~= dec(n as nat),
    decreases n,
{
    if n < 10 {
        let mut s = String::new();
        s.append(digit_str(n as u8));
        proof {
            assert(s@ =~= dec(n as nat));
        }
        s
    } else {
        let mut s = u64_to_dec(n / 10);
        s.append(digit_str((n % 10) as u8));
        proof {
            assert(s@ =~= dec((n / 10) as nat).push(digit_char((n % 10) as nat)));
            assert(dec(n as nat) == dec(n as nat / 10).push(digit_char(n as nat % 10)));
            assert(n as nat / 10 == (n / 10) as nat);
            assert(n as nat % 10 == (n % 10) as nat);
        }
        s
    }
}

// ---------------------------------------------------------------------
// Executable parsing primitives
// ---------------------------------------------------------------------

/// Whether the character at an index is a decimal digit.
fn digit_at(s: &str, i: usize) -> (r: bool)
    requires
        i < s@.len(),
    ensures
        r == is_digit(s@[i as int]),
{
    let c = s.get_char(i);
    let u = c as u32;
    48 <= u && u <= 57
}

/// Consumes a literal prefix at the cursor.
fn p_lit(s: &str, n: usize, cur: usize, lit: &str) -> (r: Option<usize>)
    requires
        n == s@.len(),
        cur <= n,
    ensures
        match r {
            Some(c2) => {
                &&& cur <= c2 <= n
                &&& c2 == cur + lit@.len()
                &&& sp_lit(s@.skip(cur as int), lit@) == Some(s@.skip(c2 as int))
            },
            None => sp_lit(s@.skip(cur as int), lit@) is None,
        },
{
    let m = lit.unicode_len();
    if n - cur < m {
        proof {
            assert(s@.skip(cur as int).len() < lit@.len());
        }
        return None;
    }
    let ghost tail = s@.skip(cur as int);
    let mut i: usize = 0;
    while i < m
        invariant
            n == s@.len(),
            cur <= n,
            m == lit@.len(),
            m <= n - cur,
            0 <= i <= m,
            tail == s@.skip(cur as int),
            forall|j: int| 0 <= j < i ==> tail[j] == lit@[j],
        decreases m - i,
    {
        let a = s.get_char(cur + i);
        let b = lit.get_char(i);
        if a != b {
            proof {
                assert(tail[i as int] != lit@[i as int]);
                lemma_lit_fail(tail, lit@, i as int);
            }
            return None;
        }
        i = i + 1;
    }
    proof {
        assert(tail.subrange(0, m as int) =~= lit@);
        assert(tail.skip(m as int) =~= s@.skip(cur + m as int));
    }
    Some(cur + m)
}

/// Consumes a decimal number at the cursor.
fn p_num(s: &str, n: usize, cur: usize) -> (r: Option<(u128, usize)>)
    requires
        n == s@.len(),
        cur <= n,
    ensures
        match r {
            Some(v) => {
                &&& cur < v.1 <= n
                &&& (v.0 as nat) < pow10(MAX_NUM_DIGITS as nat)
                &&& sp_num(s@.skip(cur as int)) == Some((v.0 as nat, s@.skip(v.1 as int)))
            },
            None => sp_num(s@.skip(cur as int)) is None,
        },
{
    let ghost tail = s@.skip(cur as int);
    let mut k: usize = 0;
    while cur + k < n && digit_at(s, cur + k)
        invariant
            n == s@.len(),
            cur <= n,
            cur + k <= n,
            tail == s@.skip(cur as int),
            forall|j: int| 0 <= j < k ==> is_digit(#[trigger] tail[j]),
        decreases n - cur - k,
    {
        k = k + 1;
    }
    proof {
        assert(cur + k == n || !is_digit(tail[k as int]));
        lemma_take_run_exact(tail, k as int);
    }
    if k == 0 {
        return None;
    }
    if k > MAX_NUM_DIGITS {
        return None;
    }
    let ghost run = take_run(tail);
    proof {
        assert(run =~= tail.subrange(0, k as int));
        lemma_seq_val_bound(run);
    }
    let mut acc: u128 = 0;
    let mut j: usize = 0;
    while j < k
        invariant
            n == s@.len(),
            cur <= n,
            cur + k <= n,
            1 <= k <= MAX_NUM_DIGITS,
            0 <= j <= k,
            tail == s@.skip(cur as int),
            forall|jj: int| 0 <= jj < k ==> is_digit(#[trigger] tail[jj]),
            run == take_run(tail),
            run =~= tail.subrange(0, k as int),
            acc as nat == seq_val(run.subrange(0, j as int)),
            (acc as nat) < pow10(j as nat),
        decreases k - j,
    {
        proof {
            assert(all_digits(run.subrange(0, j as int)));
            assert(pow10(j as nat) <= pow10(MAX_NUM_DIGITS as nat)) by {
                lemma_pow10_increases(j as nat, MAX_NUM_DIGITS as nat);
            }
            assert(pow10(20nat) == 100000000000000000000) by {
                reveal_with_fuel(pow10, 21);
            }
        }
        let c = s.get_char(cur + j);
        let u = c as u32;
        proof {
            assert(is_digit(tail[j as int]));
            assert(tail[j as int] == c);
        }
        let d = (u - 48) as u128;
        let new_acc = acc * 10 + d;
        proof {
            let pre = run.subrange(0, j as int);
            let post = run.subrange(0, j as int + 1);
            assert(post.drop_last() =~= pre);
            assert(post.last() == run[j as int]);
            assert(run[j as int] == tail[j as int]);
            assert(digit_val(tail[j as int]) == (u - 48) as nat);
            assert(pow10((j + 1) as nat) == 10 * pow10(j as nat));
        }
        acc = new_acc;
        j = j + 1;
    }
    proof {
        assert(run.subrange(0, k as int) =~= run);
        assert(tail.skip(k as int) =~= s@.skip(cur + k as int));
        lemma_pow10_increases(k as nat, MAX_NUM_DIGITS as nat);
    }
    Some((acc, cur + k))
}

proof fn lemma_pow10_increases(a: nat, b: nat)
    requires
        a <= b,
    ensures
        pow10(a) <= pow10(b),
    decreases b,
{
    if a < b {
        lemma_pow10_increases(a, (b - 1) as nat);
        assert(pow10(b) == 10 * pow10((b - 1) as nat));
    }
}

/// Consumes a counted text value at the cursor.
fn p_str(s: &str, n: usize, cur: usize) -> (r: Option<(String, usize)>)
    requires
        n == s@.len(),
        cur <= n,
    ensures
        match r {
            Some(v) => {
                &&& cur < v.1 <= n
                &&& v.0@.len() <= usize::MAX
                &&& sp_str(s@.skip(cur as int)) == Some((v.0@, s@.skip(v.1 as int)))
            },
            None => sp_str(s@.skip(cur as int)) is None,
        },
{
    let ghost tail = s@.skip(cur as int);
    let (v, c1) = match p_num(s, n, cur) {
        Some(x) => x,
        None => {
            return None;
        },
    };
    let ghost r1 = s@.skip(c1 as int);
    if c1 == n {
        proof {
            assert(r1.len() == 0);
        }
        return None;
    }
    let c = s.get_char(c1);
    proof {
        assert(r1[0] == s@[c1 as int]);
    }
    if c != ':' {
        return None;
    }
    let c2 = c1 + 1;
    let ghost r2 = s@.skip(c2 as int);
    proof {
        assert(r1.skip(1) =~= r2);
    }
    if v > (n - c2) as u128 {
        proof {
            assert(r2.len() == n - c2);
        }
        return None;
    }
    let len = v as usize;
    let sub = s.substring_char(c2, c2 + len);
    let text = sub.to_owned();
    proof {
        assert(r2.take(len as int) =~= s@.subrange(c2 as int, c2 as int + len as int));
        assert(r2.skip(len as int) =~= s@.skip((c2 + len) as int));
    }
    Some((text, c2 + len))
}

// ---------------------------------------------------------------------
// The record keys
// ---------------------------------------------------------------------

pub open spec fn l_name() -> Seq<char> {
    "- name: "@
}

pub open spec fn l_raw() -> Seq<char> {
    "  rawSdp: "@
}

pub open spec fn l_file() -> Seq<char> {
    "  localSdpFile: "@
}

pub open spec fn l_url() -> Seq<char> {
    "  sdpUrl: "@
}

pub open spec fn l_cs() -> Seq<char> {
    "  customStream:\n"@
}

pub open spec fn l_mc() -> Seq<char> {
    "    multicastAddress: "@
}

pub open spec fn l_bd() -> Seq<char> {
    "    bitDepth: "@
}

pub open spec fn l_ch() -> Seq<char> {
    "    channels: "@
}

pub open spec fn l_sr() -> Seq<char> {
    "    sampleRate: "@
}

pub open spec fn l_pt() -> Seq<char> {
    "    packetTimeUs: "@
}

pub open spec fn nl() -> Seq<char> {
    "\n"@
}

pub open spec fn dot() -> Seq<char> {
    "."@
}

pub open spec fn colon() -> Seq<char> {
    ":"@
}

/// The characters of the record keys, spelled out once for the proofs
/// that tell the keys apart.
proof fn lemma_key_facts()
    ensures
        l_name().len() == 8,
        l_name()[0] == '-',
        l_raw().len() == 10,
        l_raw()[0] == ' ',
        l_raw()[2] == 'r',
        l_file().len() == 16,
        l_file()[0] == ' ',
        l_file()[2] == 'l',
        l_url().len() == 10,
        l_url()[0] == ' ',
        l_url()[2] == 's',
        l_cs().len() == 16,
        l_cs()[0] == ' ',
        l_cs()[2] == 'c',
        l_mc().len() == 22,
        l_bd().len() == 14,
        l_ch().len() == 14,
        l_sr().len() == 16,
        l_pt().len() == 18,
        nl().len() == 1,
        nl()[0] == '\n',
        dot().len() == 1,
        dot()[0] == '.',
        colon().len() == 1,
        colon()[0] == ':',
{
    reveal_strlit("- name: ");
    reveal_strlit("  rawSdp: ");
    reveal_strlit("  localSdpFile: ");
    reveal_strlit("  sdpUrl: ");
    reveal_strlit("  customStream:\n");
    reveal_strlit("    multicastAddress: ");
    reveal_strlit("    bitDepth: ");
    reveal_strlit("    channels: ");
    reveal_strlit("    sampleRate: ");
    reveal_strlit("    packetTimeUs: ");
    reveal_strlit("\n");
    reveal_strlit(".");
    reveal_strlit(":");
}

// ---------------------------------------------------------------------
// Specification-level parsing of records
// ---------------------------------------------------------------------

/// Consumes one octet of an address: a number up to 255.
pub open spec fn sp_octet(s: Seq<char>) -> Option<(u8, Seq<char>)> {
    match sp_num(s) {
        Some((v, r)) => if v <= 255 {
            Some((v as u8, r))
        } else {
            None
        },
        None => None,
    }
}

/// Consumes an IPv4 socket address: four octets and a port.
pub open spec fn sp_addr(s: Seq<char>) -> Option<(Ipv4Endpoint, Seq<char>)> {
    match sp_octet(s) {
        Some((a, s1)) => match sp_lit(s1, dot()) {
            Some(s2) => match sp_octet(s2) {
                Some((b, s3)) => match sp_lit(s3, dot()) {
                    Some(s4) => match sp_octet(s4) {
                        Some((c, s5)) => match sp_lit(s5, dot()) {
                            Some(s6) => match sp_octet(s6) {
                                Some((d, s7)) => match sp_lit(s7, colon()) {
                                    Some(s8) => match sp_num(s8) {
                                        Some((p, s9)) => if p <= 65535 {
                                            Some(
                                                (
                                                    Ipv4Endpoint {
                                                        a,
                                                        b,
                                                        c,
                                                        d,
                                                        port: p as u16,
                                                    },
                                                    s9,
                                                ),
                                            )
                                        } else {
                                            None
                                        },
                                        None => None,
                                    },
                                    None => None,
                                },
                                None => None,
                            },
                            None => None,
                        },
                        None => None,
                    },
                    None => None,
                },
                None => None,
            },
            None => None,
        },
        None => None,
    }
}

/// Consumes a labelled number line: the label, a number within the given
/// bounds, and a line break.
pub open spec fn sp_num_line(s: Seq<char>, label: Seq<char>, lo: nat, hi: nat) -> Option<
    (nat, Seq<char>),
> {
    match sp_lit(s, label) {
        Some(r1) => match sp_num(r1) {
            Some((v, r2)) => if lo <= v <= hi {
                match sp_lit(r2, nl()) {
                    Some(r3) => Some((v, r3)),
                    None => None,
                }
            } else {
                None
            },
            None => None,
        },
        None => None,
    }
}

/// Consumes a custom-stream block.
pub open spec fn sp_custom(s: Seq<char>) -> Option<(CustomStreamSettings, Seq<char>)> {
    match sp_lit(s, l_cs()) {
        Some(r0) => match sp_lit(r0, l_mc()) {
            Some(r1) => match sp_addr(r1) {
                Some((ep, r2)) => match sp_lit(r2, nl()) {
                    Some(r3) => match sp_num_line(r3, l_bd(), 0, u16::MAX as nat) {
                        Some((bd, r4)) => match sp_num_line(r4, l_ch(), 1, u16::MAX as nat) {
                            Some((ch, r5)) => match sp_num_line(
                                r5,
                                l_sr(),
                                1,
                                u32::MAX as nat,
                            ) {
                                Some((sr, r6)) => match sp_num_line(
                                    r6,
                                    l_pt(),
                                    1,
                                    u32::MAX as nat,
                                ) {
                                    Some((pt, r7)) => Some(
                                        (
                                            CustomStreamSettings {
                                                multicast_address: ep,
                                                bit_depth: bd as u16,
                                                channels: ch as u16,
                                                sample_rate: sr as u32,
                                                packet_time_us: pt as u32,
                                            },
                                            r7,
                                        ),
                                    ),
                                    None => None,
                                },
                                None => None,
                            },
                            None => None,
                        },
                        None => None,
                    },
                    None => None,
                },
                None => None,
            },
            None => None,
        },
        None => None,
    }
}

/// Consumes a counted text line after its label.
pub open spec fn sp_text_line(s: Seq<char>, label: Seq<char>) -> Option<
    (Seq<char>, Seq<char>),
> {
    match sp_lit(s, label) {
        Some(r1) => match sp_str(r1) {
            Some((t, r2)) => if t.len() <= usize::MAX {
                match sp_lit(r2, nl()) {
                    Some(r3) => Some((t, r3)),
                    None => None,
                }
            } else {
                None
            },
            None => None,
        },
        None => None,
    }
}

/// Consumes a record's source block: one of the populated variants, or
/// nothing when the record has none.
pub open spec fn sp_source(s: Seq<char>) -> Option<(Option<DescriptorView>, Seq<char>)> {
    if sp_lit(s, l_raw()) is Some {
        match sp_text_line(s, l_raw()) {
            Some((t, r)) => Some((Some(DescriptorView::RawSdp(t)), r)),
            None => None,
        }
    } else if sp_lit(s, l_file()) is Some {
        match sp_text_line(s, l_file()) {
            Some((t, r)) => Some((Some(DescriptorView::LocalSdpFile(t)), r)),
            None => None,
        }
    } else if sp_lit(s, l_url()) is Some {
        match sp_text_line(s, l_url()) {
            Some((t, r)) => Some((Some(DescriptorView::SdpUrl(t)), r)),
            None => None,
        }
    } else if sp_lit(s, l_cs()) is Some {
        match sp_custom(s) {
            Some((c, r)) => Some((Some(DescriptorView::CustomStream(c)), r)),
            None => None,
        }
    } else {
        Some((None, s))
    }
}

/// Consumes one preset record.
pub open spec fn sp_preset(s: Seq<char>) -> Option<(PresetView, Seq<char>)> {
    match sp_lit(s, l_name()) {
        Some(r1) => match sp_str(r1) {
            Some((nm, r2)) => if 0 < nm.len() <= usize::MAX {
                match sp_lit(r2, nl()) {
                    Some(r3) => match sp_source(r3) {
                        Some((src, r4)) => Some((PresetView { name: nm, source: src }, r4)),
                        None => None,
                    },
                    None => None,
                }
            } else {
                None
            },
            None => None,
        },
        None => None,
    }
}

/// Parses a whole document: a sequence of records covering all of it.
pub open spec fn sp_presets(s: Seq<char>) -> Option<Seq<PresetView>>
    decreases s.len(),
{
    if s.len() == 0 {
        Some(Seq::<PresetView>::empty())
    } else {
        match sp_preset(s) {
            Some((p, r)) => if r.len() < s.len() {
                match sp_presets(r) {
                    Some(ps) => Some(seq![p] + ps),
                    None => None,
                }
            } else {
                None
            },
            None => None,
        }
    }
}

// ---------------------------------------------------------------------
// Specification-level rendering
// ---------------------------------------------------------------------

pub open spec fn render_addr(ep: Ipv4Endpoint) -> Seq<char> {
    dec(ep.a as nat) + dot() + dec(ep.b as nat) + dot() + dec(ep.c as nat) + dot() + dec(
        ep.d as nat,
    ) + colon() + dec(ep.port as nat)
}

pub open spec fn render_custom(c: CustomStreamSettings) -> Seq<char> {
    l_cs() + l_mc() + render_addr(c.multicast_address) + nl() + l_bd() + dec(
        c.bit_depth as nat,
    ) + nl() + l_ch() + dec(c.channels as nat) + nl() + l_sr() + dec(c.sample_rate as nat)
        + nl() + l_pt() + dec(c.packet_time_us as nat) + nl()
}

pub open spec fn render_source(src: Option<DescriptorView>) -> Seq<char> {
    match src {
        None => Seq::<char>::empty(),
        Some(DescriptorView::RawSdp(t)) => l_raw() + render_str(t) + nl(),
        Some(DescriptorView::LocalSdpFile(t)) => l_file() + render_str(t) + nl(),
        Some(DescriptorView::SdpUrl(t)) => l_url() + render_str(t) + nl(),
        Some(DescriptorView::CustomStream(c)) => render_custom(c),
    }
}

pub open spec fn render_preset(p: PresetView) -> Seq<char> {
    l_name() + render_str(p.name) + nl() + render_source(p.source)
}

pub open spec fn render_presets(ps: Seq<PresetView>) -> Seq<char>
    decreases ps.len(),
{
    if ps.len() == 0 {
        Seq::<char>::empty()
    } else {
        render_preset(ps[0]) + render_presets(ps.skip(1))
    }
}

// ---------------------------------------------------------------------
// Round-trip lemmas for records
// ---------------------------------------------------------------------

proof fn lemma_rt_num_line(label: Seq<char>, v: nat, lo: nat, hi: nat, rest: Seq<char>)
    requires
        lo <= v <= hi,
        v < pow10(MAX_NUM_DIGITS as nat),
    ensures
        sp_num_line(label + dec(v) + nl() + rest, label, lo, hi) == Some((v, rest)),
{
    lemma_key_facts();
    let s = label + dec(v) + nl() + rest;
    let x = dec(v) + nl() + rest;
    assert(s =~= label + x);
    lemma_rt_lit(label, x);
    let y = nl() + rest;
    assert(x =~= dec(v) + y);
    assert(!is_digit(y[0]));
    lemma_rt_num(v, y);
    lemma_rt_lit(nl(), rest);
}

#[verifier::rlimit(100)]
#[verifier::spinoff_prover]
proof fn lemma_rt_octet(o: u8, tail: Seq<char>)
    requires
        tail.len() > 0,
        !is_digit(tail[0]),
    ensures
        sp_octet(dec(o as nat) + tail) == Some((o, tail)),
{
    lemma_usize_in_range();
    lemma_rt_num(o as nat, tail);
}

#[verifier::rlimit(100)]
#[verifier::spinoff_prover]
proof fn lemma_rt_addr(ep: Ipv4Endpoint, rest: Seq<char>)
    requires
        rest.len() > 0,
        !is_digit(rest[0]),
    ensures
        sp_addr(render_addr(ep) + rest) == Some((ep, rest)),
{
    lemma_key_facts();
    lemma_usize_in_range();
    let t_port = dec(ep.port as nat) + rest;
    let t_colon = colon() + t_port;
    let t_d = dec(ep.d as nat) + t_colon;
    let t_dot3 = dot() + t_d;
    let t_c = dec(ep.c as nat) + t_dot3;
    let t_dot2 = dot() + t_c;
    let t_b = dec(ep.b as nat) + t_dot2;
    let t_dot1 = dot() + t_b;
    let s = render_addr(ep) + rest;
    assert(s =~= dec(ep.a as nat) + t_dot1);
    lemma_rt_octet(ep.a, t_dot1);
    lemma_rt_lit(dot(), t_b);
    lemma_rt_octet(ep.b, t_dot2);
    lemma_rt_lit(dot(), t_c);
    lemma_rt_octet(ep.c, t_dot3);
    lemma_rt_lit(dot(), t_d);
    lemma_rt_octet(ep.d, t_colon);
    lemma_rt_lit(colon(), t_port);
    lemma_rt_num(ep.port as nat, rest);
}

#[verifier::rlimit(100)]
#[verifier::spinoff_prover]
proof fn lemma_rt_custom(c: CustomStreamSettings, rest: Seq<char>)
    requires
        c.wf(),
    ensures
        sp_custom(render_custom(c) + rest) == Some((c, rest)),
{
    lemma_key_facts();
    lemma_usize_in_range();
    let t_pt = l_pt() + dec(c.packet_time_us as nat) + nl() + rest;
    let t_sr = l_sr() + dec(c.sample_rate as nat) + nl() + t_pt;
    let t_ch = l_ch() + dec(c.channels as nat) + nl() + t_sr;
    let t_bd = l_bd() + dec(c.bit_depth as nat) + nl() + t_ch;
    let t_nl = nl() + t_bd;
    let t_addr = render_addr(c.multicast_address) + t_nl;
    let t_mc = l_mc() + t_addr;
    let s = render_custom(c) + rest;
    assert(s =~= l_cs() + t_mc);
    lemma_rt_lit(l_cs(), t_mc);
    lemma_rt_lit(l_mc(), t_addr);
    lemma_rt_addr(c.multicast_address, t_nl);
    lemma_rt_lit(nl(), t_bd);
    assert(t_bd =~= l_bd() + dec(c.bit_depth as nat) + nl() + t_ch);
    lemma_rt_num_line(l_bd(), c.bit_depth as nat, 0, u16::MAX as nat, t_ch);
    lemma_rt_num_line(l_ch(), c.channels as nat, 1, u16::MAX as nat, t_sr);
    lemma_rt_num_line(l_sr(), c.sample_rate as nat, 1, u32::MAX as nat, t_pt);
    lemma_rt_num_line(l_pt(), c.packet_time_us as nat, 1, u32::MAX as nat, rest);
}

#[verifier::rlimit(100)]
#[verifier::spinoff_prover]
proof fn lemma_rt_text_line(label: Seq<char>, t: Seq<char>, rest: Seq<char>)
    requires
        t.len() <= usize::MAX,
    ensures
        sp_text_line(label + render_str(t) + nl() + rest, label) == Some((t, rest)),
{
    lemma_usize_in_range();
    let x = render_str(t) + nl() + rest;
    assert(label + render_str(t) + nl() + rest =~= label + x);
    lemma_rt_lit(label, x);
    let y = nl() + rest;
    assert(x =~= render_str(t) + y);
    lemma_rt_str(t, y);
    lemma_rt_lit(nl(), rest);
}

#[verifier::rlimit(100)]
#[verifier::spinoff_prover]
proof fn lemma_rt_source(src: Option<DescriptorView>, rest: Seq<char>)
    requires
        match src {
            Some(d) => d.wf(),
            None => true,
        },
        rest.len() == 0 || rest[0] == '-',
    ensures
        sp_source(render_source(src) + rest) == Some((src, rest)),
{
    lemma_key_facts();
    let s = render_source(src) + rest;
    match src {
        None => {
            assert(s =~= rest);
            lemma_lit_fail(s, l_raw(), 0);
            lemma_lit_fail(s, l_file(), 0);
            lemma_lit_fail(s, l_url(), 0);
            lemma_lit_fail(s, l_cs(), 0);
        },
        Some(DescriptorView::RawSdp(t)) => {
            lemma_rt_text_line(l_raw(), t, rest);
        },
        Some(DescriptorView::LocalSdpFile(t)) => {
            assert(s[2] == l_file()[2]);
            lemma_lit_fail(s, l_raw(), 2);
            lemma_rt_text_line(l_file(), t, rest);
        },
        Some(DescriptorView::SdpUrl(t)) => {
            assert(s[2] == l_url()[2]);
            lemma_lit_fail(s, l_raw(), 2);
            lemma_lit_fail(s, l_file(), 2);
            lemma_rt_text_line(l_url(), t, rest);
        },
        Some(DescriptorView::CustomStream(c)) => {
            lemma_rt_custom(c, rest);
            assert(render_custom(c)[2] == l_cs()[2]);
            assert(s[2] == l_cs()[2]);
            lemma_lit_fail(s, l_raw(), 2);
            lemma_lit_fail(s, l_file(), 2);
            lemma_lit_fail(s, l_url(), 2);
        },
    }
}

#[verifier::rlimit(100)]
#[verifier::spinoff_prover]
proof fn lemma_rt_preset(p: PresetView, rest: Seq<char>)
    requires
        p.wf(),
        rest.len() == 0 || rest[0] == '-',
    ensures
        sp_preset(render_preset(p) + rest) == Some((p, rest)),
{
    lemma_key_facts();
    let s = render_preset(p) + rest;
    let x = render_str(p.name) + (nl() + (render_source(p.source) + rest));
    assert(s =~= l_name() + x);
    lemma_rt_lit(l_name(), x);
    lemma_usize_in_range();
    lemma_rt_str(p.name, nl() + (render_source(p.source) + rest));
    lemma_rt_lit(nl(), render_source(p.source) + rest);
    lemma_rt_source(p.source, rest);
    match sp_preset(s) {
        Some((q, r)) => {
            assert(q.name == p.name);
            assert(q.source == p.source);
            assert(q == p);
        },
        None => {
            assert(false);
        },
    }
}

/// The round-trip law of the document format: parsing the rendering of
/// any sequence of well-formed records yields exactly those records.
#[verifier::rlimit(100)]
#[verifier::spinoff_prover]
pub proof fn lemma_render_parse_round_trip(ps: Seq<PresetView>)
    requires
        forall|i: int| 0 <= i < ps.len() ==> (#[trigger] ps[i]).wf(),
    ensures
        sp_presets(render_presets(ps)) == Some(ps),
    decreases ps.len(),
{
    lemma_key_facts();
    if ps.len() == 0 {
        assert(render_presets(ps) =~= Seq::<char>::empty());
        assert(sp_presets(render_presets(ps)) == Some(Seq::<PresetView>::empty()));
        assert(Seq::<PresetView>::empty() =~= ps);
    } else {
        let head = render_preset(ps[0]);
        let rest0 = render_presets(ps.skip(1));
        let t = head + rest0;
        assert(render_presets(ps) == t);
        // the remainder is empty or starts a new record
        if ps.len() == 1 {
            assert(ps.skip(1).len() == 0);
            assert(rest0 =~= Seq::<char>::empty());
        } else {
            assert(ps.skip(1).len() > 0);
            assert(rest0 == render_preset(ps.skip(1)[0]) + render_presets(ps.skip(1).skip(1)));
            assert(rest0[0] == l_name()[0]);
        }
        assert(ps[0].wf());
        lemma_rt_preset(ps[0], rest0);
        assert(head.len() >= l_name().len());
        assert(t.len() > 0);
        assert(rest0.len() < t.len());
        assert(forall|i: int| 0 <= i < ps.skip(1).len() ==> (#[trigger] ps.skip(1)[i]).wf());
        lemma_render_parse_round_trip(ps.skip(1));
        assert(sp_presets(t) == Some(seq![ps[0]] + ps.skip(1)));
        assert(seq![ps[0]] + ps.skip(1) =~= ps);
    }
}


// ---------------------------------------------------------------------
// Executable parsing of records
// ---------------------------------------------------------------------

/// Consumes one octet at the cursor.
fn p_octet(s: &str, n: usize, cur: usize) -> (r: Option<(u8, usize)>)
    requires
        n == s@.len(),
        cur <= n,
    ensures
        match r {
            Some(v) => {
                &&& cur < v.1 <= n
                &&& sp_octet(s@.skip(cur as int)) == Some((v.0, s@.skip(v.1 as int)))
            },
            None => sp_octet(s@.skip(cur as int)) is None,
        },
{
    match p_num(s, n, cur) {
        Some((v, c1)) => {
            if v <= 255 {
                Some((v as u8, c1))
            } else {
                None
            }
        },
        None => None,
    }
}

/// Consumes an IPv4 socket address at the cursor.
fn p_addr(s: &str, n: usize, cur: usize) -> (r: Option<(Ipv4Endpoint, usize)>)
    requires
        n == s@.len(),
        cur <= n,
    ensures
        match r {
            Some(v) => {
                &&& cur < v.1 <= n
                &&& sp_addr(s@.skip(cur as int)) == Some((v.0, s@.skip(v.1 as int)))
            },
            None => sp_addr(s@.skip(cur as int)) is None,
        },
{
    let (a, c1) = match p_octet(s, n, cur) {
        Some(x) => x,
        None => {
            return None;
        },
    };
    let c2 = match p_lit(s, n, c1, ".") {
        Some(x) => x,
        None => {
            return None;
        },
    };
    let (b, c3) = match p_octet(s, n, c2) {
        Some(x) => x,
        None => {
            return None;
        },
    };
    let c4 = match p_lit(s, n, c3, ".") {
        Some(x) => x,
        None => {
            return None;
        },
    };
    let (c, c5) = match p_octet(s, n, c4) {
        Some(x) => x,
        None => {
            return None;
        },
    };
    let c6 = match p_lit(s, n, c5, ".") {
        Some(x) => x,
        None => {
            return None;
        },
    };
    let (d, c7) = match p_octet(s, n, c6) {
        Some(x) => x,
        None => {
            return None;
        },
    };
    let c8 = match p_lit(s, n, c7, ":") {
        Some(x) => x,
        None => {
            return None;
        },
    };
    let (p, c9) = match p_num(s, n, c8) {
        Some(x) => x,
        None => {
            return None;
        },
    };
    if p > 65535 {
        return None;
    }
    Some((Ipv4Endpoint { a, b, c, d, port: p as u16 }, c9))
}

/// Consumes a labelled number line at the cursor.
fn p_num_line(s: &str, n: usize, cur: usize, label: &str, lo: u128, hi: u128) -> (r: Option<
    (u128, usize),
>)
    requires
        n == s@.len(),
        cur <= n,
    ensures
        match r {
            Some(v) => {
                &&& cur < v.1 <= n
                &&& lo <= v.0 <= hi
                &&& sp_num_line(s@.skip(cur as int), label@, lo as nat, hi as nat) == Some(
                    (v.0 as nat, s@.skip(v.1 as int)),
                )
            },
            None => sp_num_line(s@.skip(cur as int), label@, lo as nat, hi as nat) is None,
        },
{
    let c1 = match p_lit(s, n, cur, label) {
        Some(x) => x,
        None => {
            return None;
        },
    };
    let (v, c2) = match p_num(s, n, c1) {
        Some(x) => x,
        None => {
            return None;
        },
    };
    if v < lo || v > hi {
        return None;
    }
    let c3 = match p_lit(s, n, c2, "\n") {
        Some(x) => x,
        None => {
            return None;
        },
    };
    Some((v, c3))
}

/// Consumes a labelled counted text line at the cursor.
fn p_text_line(s: &str, n: usize, cur: usize, label: &str) -> (r: Option<(String, usize)>)
    requires
        n == s@.len(),
        cur <= n,
    ensures
        match r {
            Some(v) => {
                &&& cur < v.1 <= n
                &&& v.0@.len() <= usize::MAX
                &&& sp_text_line(s@.skip(cur as int), label@) == Some(
                    (v.0@, s@.skip(v.1 as int)),
                )
            },
            None => sp_text_line(s@.skip(cur as int), label@) is None,
        },
{
    let c1 = match p_lit(s, n, cur, label) {
        Some(x) => x,
        None => {
            return None;
        },
    };
    let (t, c2) = match p_str(s, n, c1) {
        Some(x) => x,
        None => {
            return None;
        },
    };
    let c3 = match p_lit(s, n, c2, "\n") {
        Some(x) => x,
        None => {
            return None;
        },
    };
    Some((t, c3))
}

/// Consumes a custom-stream block at the cursor.
fn p_custom(s: &str, n: usize, cur: usize) -> (r: Option<(CustomStreamSettings, usize)>)
    requires
        n == s@.len(),
        cur <= n,
    ensures
        match r {
            Some(v) => {
                &&& cur < v.1 <= n
                &&& v.0.wf()
                &&& sp_custom(s@.skip(cur as int)) == Some((v.0, s@.skip(v.1 as int)))
            },
            None => sp_custom(s@.skip(cur as int)) is None,
        },
{
    let c0 = match p_lit(s, n, cur, "  customStream:\n") {
        Some(x) => x,
        None => {
            return None;
        },
    };
    let c1 = match p_lit(s, n, c0, "    multicastAddress: ") {
        Some(x) => x,
        None => {
            return None;
        },
    };
    let (ep, c2) = match p_addr(s, n, c1) {
        Some(x) => x,
        None => {
            return None;
        },
    };
    let c3 = match p_lit(s, n, c2, "\n") {
        Some(x) => x,
        None => {
            return None;
        },
    };
    let (bd, c4) = match p_num_line(s, n, c3, "    bitDepth: ", 0, 65535) {
        Some(x) => x,
        None => {
            return None;
        },
    };
    let (ch, c5) = match p_num_line(s, n, c4, "    channels: ", 1, 65535) {
        Some(x) => x,
        None => {
            return None;
        },
    };
    let (sr, c6) = match p_num_line(s, n, c5, "    sampleRate: ", 1, 4294967295) {
        Some(x) => x,
        None => {
            return None;
        },
    };
    let (pt, c7) = match p_num_line(s, n, c6, "    packetTimeUs: ", 1, 4294967295) {
        Some(x) => x,
        None => {
            return None;
        },
    };
    Some(
        (
            CustomStreamSettings {
                multicast_address: ep,
                bit_depth: bd as u16,
                channels: ch as u16,
                sample_rate: sr as u32,
                packet_time_us: pt as u32,
            },
            c7,
        ),
    )
}

/// Consumes a record's source block at the cursor.
fn p_source(s: &str, n: usize, cur: usize) -> (r: Option<(Option<Descriptor>, usize)>)
    requires
        n == s@.len(),
        cur <= n,
    ensures
        match r {
            Some(v) => {
                &&& cur <= v.1 <= n
                &&& match v.0 {
                    Some(d) => d@.wf(),
                    None => true,
                }
                &&& sp_source(s@.skip(cur as int)) == Some(
                    (source_view(v.0), s@.skip(v.1 as int)),
                )
            },
            None => sp_source(s@.skip(cur as int)) is None,
        },
{
    if p_lit(s, n, cur, "  rawSdp: ").is_some() {
        match p_text_line(s, n, cur, "  rawSdp: ") {
            Some((t, c)) => Some((Some(Descriptor::RawSdp(t)), c)),
            None => None,
        }
    } else if p_lit(s, n, cur, "  localSdpFile: ").is_some() {
        match p_text_line(s, n, cur, "  localSdpFile: ") {
            Some((t, c)) => Some((Some(Descriptor::LocalSdpFile(t)), c)),
            None => None,
        }
    } else if p_lit(s, n, cur, "  sdpUrl: ").is_some() {
        match p_text_line(s, n, cur, "  sdpUrl: ") {
            Some((t, c)) => Some((Some(Descriptor::SdpUrl(t)), c)),
            None => None,
        }
    } else if p_lit(s, n, cur, "  customStream:\n").is_some() {
        match p_custom(s, n, cur) {
            Some((c, c2)) => Some((Some(Descriptor::CustomStream(c)), c2)),
            None => None,
        }
    } else {
        Some((None, cur))
    }
}

/// Consumes one preset record at the cursor.
fn p_preset(s: &str, n: usize, cur: usize) -> (r: Option<(Preset, usize)>)
    requires
        n == s@.len(),
        cur <= n,
    ensures
        match r {
            Some(v) => {
                &&& cur < v.1 <= n
                &&& v.0@.wf()
                &&& sp_preset(s@.skip(cur as int)) == Some((v.0@, s@.skip(v.1 as int)))
            },
            None => sp_preset(s@.skip(cur as int)) is None,
        },
{
    let c1 = match p_lit(s, n, cur, "- name: ") {
        Some(x) => x,
        None => {
            return None;
        },
    };
    let (name, c2) = match p_str(s, n, c1) {
        Some(x) => x,
        None => {
            return None;
        },
    };
    if name.as_str().is_empty() {
        return None;
    }
    let c3 = match p_lit(s, n, c2, "\n") {
        Some(x) => x,
        None => {
            return None;
        },
    };
    let (source, c4) = match p_source(s, n, c3) {
        Some(x) => x,
        None => {
            return None;
        },
    };
    Some((Preset { name, source }, c4))
}

/// Parses a whole document into its records. Returns `None` exactly when
/// the text is not a well-formed document.
pub fn parse_presets(s: &str) -> (r: Option<Vec<Preset>>)
    ensures
        match r {
            Some(items) => {
                &&& sp_presets(s@) == Some(views_of(items@))
                &&& all_wf(views_of(items@))
            },
            None => sp_presets(s@) is None,
        },
{
    let n = s.unicode_len();
    let mut cur: usize = 0;
    let mut out: Vec<Preset> = Vec::new();
    proof {
        assert(s@.skip(0) =~= s@);
    }
    while cur < n
        invariant
            n == s@.len(),
            cur <= n,
            all_wf(views_of(out@)),
            sp_presets(s@) == (match sp_presets(s@.skip(cur as int)) {
                Some(ps) => Some(views_of(out@) + ps),
                None => None::<Seq<PresetView>>,
            }),
        decreases n - cur,
    {
        match p_preset(s, n, cur) {
            Some((p, c2)) => {
                proof {
                    let tail = s@.skip(cur as int);
                    let tail2 = s@.skip(c2 as int);
                    assert(tail.len() > 0);
                    assert(tail2.len() < tail.len());
                    assert(views_of(out@.push(p)) =~= views_of(out@).push(p@));
                    match sp_presets(tail2) {
                        Some(ps) => {
                            assert(sp_presets(tail) == Some(seq![p@] + ps));
                            assert(views_of(out@) + (seq![p@] + ps) =~= views_of(
                                out@.push(p),
                            ) + ps);
                        },
                        None => {},
                    }
                }
                out.push(p);
                cur = c2;
            },
            None => {
                proof {
                    assert(s@.skip(cur as int).len() > 0);
                    assert(sp_presets(s@.skip(cur as int)) is None);
                }
                return None;
            },
        }
    }
    proof {
        assert(s@.skip(cur as int).len() == 0);
        assert(sp_presets(s@.skip(cur as int)) == Some(Seq::<PresetView>::empty()));
        assert(views_of(out@) + Seq::<PresetView>::empty() =~= views_of(out@));
    }
    Some(out)
}

// ---------------------------------------------------------------------
// Executable rendering
// ---------------------------------------------------------------------

/// Appends a number in decimal.
fn append_u64(out: &mut String, x: u64)
    ensures
        final(out)@ == old(out)@ + dec(x as nat),
{
    let d = u64_to_dec(x);
    out.append(d.as_str());
}

/// Appends a counted text value.
fn append_counted(out: &mut String, v: &str)
    ensures
        final(out)@ == old(out)@ + render_str(v@),
{
    let len = v.unicode_len();
    append_u64(out, len as u64);
    out.append(":");
    out.append(v);
    proof {
        reveal_strlit(":");
        assert(":"@ =~= seq![':']);
        assert(final(out)@ =~= old(out)@ + render_str(v@));
    }
}

/// Appends an IPv4 socket address.
fn append_addr(out: &mut String, ep: &Ipv4Endpoint)
    ensures
        final(out)@ == old(out)@ + render_addr(*ep),
{
    append_u64(out, ep.a as u64);
    out.append(".");
    append_u64(out, ep.b as u64);
    out.append(".");
    append_u64(out, ep.c as u64);
    out.append(".");
    append_u64(out, ep.d as u64);
    out.append(":");
    append_u64(out, ep.port as u64);
    proof {
        reveal_strlit(".");
        reveal_strlit(":");
        assert("."@ =~= dot());
        assert(":"@ =~= colon());
        assert(final(out)@ =~= old(out)@ + render_addr(*ep));
    }
}

/// Appends a custom-stream block.
#[verifier::rlimit(100)]
#[verifier::spinoff_prover]
fn append_custom(out: &mut String, c: &CustomStreamSettings)
    ensures
        final(out)@ == old(out)@ + render_custom(*c),
{
    out.append("  customStream:\n");
    out.append("    multicastAddress: ");
    append_addr(out, &c.multicast_address);
    out.append("\n");
    out.append("    bitDepth: ");
    append_u64(out, c.bit_depth as u64);
    out.append("\n");
    out.append("    channels: ");
    append_u64(out, c.channels as u64);
    out.append("\n");
    out.append("    sampleRate: ");
    append_u64(out, c.sample_rate as u64);
    out.append("\n");
    out.append("    packetTimeUs: ");
    append_u64(out, c.packet_time_us as u64);
    out.append("\n");
    proof {
        assert(final(out)@ =~= old(out)@ + render_custom(*c));
    }
}

/// Renders one record.
#[verifier::rlimit(100)]
#[verifier::spinoff_prover]
fn render_one(p: &Preset) -> (r: String)
    requires
        p@.wf(),
    ensures
        r@ == render_preset(p@),
{
    let mut out = String::new();
    out.append("- name: ");
    append_counted(&mut out, p.name.as_str());
    out.append("\n");
    proof {
        assert(out@ =~= l_name() + render_str(p@.name) + nl());
    }
    match &p.source {
        None => {
            proof {
                assert(out@ =~= render_preset(p@));
            }
        },
        Some(Descriptor::RawSdp(t)) => {
            out.append("  rawSdp: ");
            append_counted(&mut out, t.as_str());
            out.append("\n");
            proof {
                assert(out@ =~= render_preset(p@));
            }
        },
        Some(Descriptor::LocalSdpFile(t)) => {
            out.append("  localSdpFile: ");
            append_counted(&mut out, t.as_str());
            out.append("\n");
            proof {
                assert(out@ =~= render_preset(p@));
            }
        },
        Some(Descriptor::SdpUrl(t)) => {
            out.append("  sdpUrl: ");
            append_counted(&mut out, t.as_str());
            out.append("\n");
            proof {
                assert(out@ =~= render_preset(p@));
            }
        },
        Some(Descriptor::CustomStream(c)) => {
            append_custom(&mut out, c);
            proof {
                assert(out@ =~= render_preset(p@));
            }
        },
    }
    out
}

/// Renders the records from an index on.
fn render_from(items: &Vec<Preset>, i: usize) -> (r: String)
    requires
        i <= items@.len(),
        all_wf(views_of(items@)),
    ensures
        r@ == render_presets(views_of(items@).skip(i as int)),
    decreases items@.len() - i,
{
    if i == items.len() {
        proof {
            assert(views_of(items@).skip(i as int).len() == 0);
            assert(render_presets(views_of(items@).skip(i as int)) =~= Seq::<char>::empty());
        }
        String::new()
    } else {
        proof {
            assert(views_of(items@)[i as int].wf());
        }
        let mut out = render_one(&items[i]);
        let tail = render_from(items, i + 1);
        out.append(tail.as_str());
        proof {
            let vs = views_of(items@);
            assert(vs.skip(i as int)[0] == vs[i as int]);
            assert(vs.skip(i as int).skip(1) =~= vs.skip(i as int + 1));
            assert(vs.skip(i as int).len() > 0);
            assert(render_presets(vs.skip(i as int)) == render_preset(vs.skip(i as int)[0])
                + render_presets(vs.skip(i as int).skip(1)));
            assert(vs[i as int] == items@[i as int]@);
        }
        out
    }
}

/// Renders a whole document.
pub fn render_document(items: &Vec<Preset>) -> (r: String)
    requires
        all_wf(views_of(items@)),
    ensures
        r@ == render_presets(views_of(items@)),
{
    let out = render_from(items, 0);
    proof {
        assert(views_of(items@).skip(0) =~= views_of(items@));
    }
    out
}


// ---------------------------------------------------------------------
// Well-formedness of parsed records
// ---------------------------------------------------------------------

#[verifier::rlimit(100)]
#[verifier::spinoff_prover]
proof fn lemma_sp_source_wf(s: Seq<char>)
    ensures
        match sp_source(s) {
            Some(v) => match v.0 {
                Some(d) => d.wf(),
                None => true,
            },
            None => true,
        },
{
}

#[verifier::rlimit(100)]
#[verifier::spinoff_prover]
proof fn lemma_sp_preset_wf(s: Seq<char>)
    ensures
        match sp_preset(s) {
            Some(v) => v.0.wf(),
            None => true,
        },
{
    match sp_lit(s, l_name()) {
        Some(r1) => match sp_str(r1) {
            Some((nm, r2)) => {
                if 0 < nm.len() <= usize::MAX {
                    match sp_lit(r2, nl()) {
                        Some(r3) => {
                            lemma_sp_source_wf(r3);
                        },
                        None => {},
                    }
                }
            },
            None => {},
        },
        None => {},
    }
}

/// Every record a well-formed document parses to is well-formed.
pub proof fn lemma_sp_presets_wf(s: Seq<char>)
    ensures
        match sp_presets(s) {
            Some(ps) => all_wf(ps),
            None => true,
        },
    decreases s.len(),
{
    if s.len() == 0 {
    } else {
        match sp_preset(s) {
            Some((p, r)) => {
                lemma_sp_preset_wf(s);
                if r.len() < s.len() {
                    lemma_sp_presets_wf(r);
                    match sp_presets(r) {
                        Some(ps) => {
                            assert forall|i: int| 0 <= i < (seq![p] + ps).len() implies (
                            #[trigger] (seq![p] + ps)[i]).wf() by {
                                if i > 0 {
                                    assert((seq![p] + ps)[i] == ps[i - 1]);
                                }
                            }
                        },
                        None => {},
                    }
                }
            },
            None => {},
        }
    }
}

} // verus!
