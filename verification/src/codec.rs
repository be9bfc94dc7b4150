//! Metadata codec: a descriptor is persisted as one structured-text
//! object with a fixed field order, and recovered by parsing that text.

use vstd::prelude::*;
use vstd::string::*;
use crate::descriptor::{DescV, UpdateDescriptor};
use crate::chars::{push_char, str_to_chars};

verus! {

// ---------------------------------------------------------------------
// Spec: the exact text that a descriptor serializes to.
// ---------------------------------------------------------------------

/// Escapes a text so it can stand between quotes: `"` and `\` each get
/// a leading backslash.
pub open spec fn esc(s: Seq<char>) -> Seq<char>
    decreases s.len(),
{
    if s.len() == 0 {
        Seq::empty()
    } else {
        let head = if s[0] == '"' || s[0] == '\\' {
            seq!['\\', s[0]]
        } else {
            seq![s[0]]
        };
        head + esc(s.drop_first())
    }
}

pub open spec fn digit_char(d: int) -> char {
    if d == 0 { '0' }
    else if d == 1 { '1' }
    else if d == 2 { '2' }
    else if d == 3 { '3' }
    else if d == 4 { '4' }
    else if d == 5 { '5' }
    else if d == 6 { '6' }
    else if d == 7 { '7' }
    else if d == 8 { '8' }
    else { '9' }
}

/// The digit a character denotes, or -1 for a non-digit.
pub open spec fn char_digit(c: char) -> int {
    if c == '0' { 0 }
    else if c == '1' { 1 }
    else if c == '2' { 2 }
    else if c == '3' { 3 }
    else if c == '4' { 4 }
    else if c == '5' { 5 }
    else if c == '6' { 6 }
    else if c == '7' { 7 }
    else if c == '8' { 8 }
    else if c == '9' { 9 }
    else { -1 }
}

pub open spec fn is_digit(c: char) -> bool {
    char_digit(c) >= 0
}

/// Decimal digits of `n`, most significant first.
pub open spec fn dec_chars(n: nat) -> Seq<char>
    decreases n,
{
    if n < 10 {
        seq![digit_char(n as int)]
    } else {
        dec_chars(n / 10) + seq![digit_char((n % 10) as int)]
    }
}

pub open spec fn bool_chars(b: bool) -> Seq<char> {
    if b {
        seq!['t', 'r', 'u', 'e']
    } else {
        seq!['f', 'a', 'l', 's', 'e']
    }
}

pub open spec fn quote() -> Seq<char> {
    seq!['"']
}

pub open spec fn l_id() -> Seq<char> {
    "{\"mpak_id\":\""@
}

pub open spec fn l_url() -> Seq<char> {
    ",\"mpak_download_url\":\""@
}

pub open spec fn l_name() -> Seq<char> {
    ",\"name\":\""@
}

pub open spec fn l_version() -> Seq<char> {
    ",\"version\":\""@
}

pub open spec fn l_size() -> Seq<char> {
    ",\"size\":"@
}

pub open spec fn l_retrieved() -> Seq<char> {
    ",\"retrieved\":"@
}

pub open spec fn l_applied() -> Seq<char> {
    ",\"applied\":"@
}

pub open spec fn l_end() -> Seq<char> {
    "}"@
}

/// The full serialized text of a descriptor, written as the head of
/// each field followed by the tail of the remaining ones.
pub open spec fn spec_encode(d: DescV) -> Seq<char> {
    l_id() + (esc(d.id) + quote() + (l_url() + (esc(d.url) + quote() + (l_name() + (esc(d.name)
        + quote() + (l_version() + (esc(d.version) + quote() + (l_size() + (dec_chars(
        d.size as nat,
    ) + (l_retrieved() + (bool_chars(d.retrieved) + (l_applied() + (bool_chars(d.applied) + (
    l_end() + Seq::<char>::empty()))))))))))))))
}

// ---------------------------------------------------------------------
// Executable encoder.
// ---------------------------------------------------------------------

/// Appends `esc(f@)` to `out`.
fn push_escaped(out: &mut String, f: &String)
    ensures
        final(out)@ == old(out)@ + esc(f@),
{
    let v = str_to_chars(f.as_str());
    let ghost orig = out@;
    let mut i: usize = 0;
    while i < v.len()
        invariant
            i <= v.len(),
            v@ == f@,
            out@ == orig + esc(f@.subrange(0, i as int)),
        decreases v.len() - i,
    {
        let c = v[i];
        if c == '"' || c == '\\' {
            push_char(out, '\\');
            push_char(out, c);
        } else {
            push_char(out, c);
        }
        proof {
            lemma_esc_snoc(f@, i as int);
        }
        i += 1;
    }
    proof {
        assert(f@.subrange(0, f@.len() as int) =~= f@);
    }
}

/// `esc` over a one-longer prefix adds the escape of the next character.
proof fn lemma_esc_snoc(s: Seq<char>, i: int)
    requires
        0 <= i < s.len(),
    ensures
        esc(s.subrange(0, i + 1)) == esc(s.subrange(0, i)) + (if s[i] == '"' || s[i] == '\\' {
            seq!['\\', s[i]]
        } else {
            seq![s[i]]
        }),
{
    lemma_esc_append(s.subrange(0, i), seq![s[i]]);
    assert(s.subrange(0, i + 1) =~= s.subrange(0, i) + seq![s[i]]);
    assert(esc(seq![s[i]]) =~= (if s[i] == '"' || s[i] == '\\' {
        seq!['\\', s[i]]
    } else {
        seq![s[i]]
    })) by {
        reveal_with_fuel(esc, 2);
        assert(seq![s[i]].drop_first() =~= Seq::<char>::empty());
        assert(seq![s[i]].drop_first() == Seq::<char>::empty());
    }
}

/// `esc` distributes over concatenation.
pub proof fn lemma_esc_append(a: Seq<char>, b: Seq<char>)
    ensures
        esc(a + b) == esc(a) + esc(b),
    decreases a.len(),
{
    if a.len() == 0 {
        assert(a + b =~= b);
        assert(esc(a) =~= Seq::<char>::empty());
    } else {
        lemma_esc_append(a.drop_first(), b);
        assert((a + b).drop_first() =~= a.drop_first() + b);
        assert(esc(a + b) =~= esc(a) + esc(b));
    }
}

/// Appends the decimal digits of `n` to `out`.
fn push_dec(n: u64, out: &mut String)
    ensures
        final(out)@ == old(out)@ + dec_chars(n as nat),
    decreases n,
{
    if n < 10 {
        push_char(out, digit_of(n));
    } else {
        push_dec(n / 10, out);
        push_char(out, digit_of(n % 10));
    }
}

/// The character for one digit value.
fn digit_of(d: u64) -> (c: char)
    requires
        d < 10,
    ensures
        c == digit_char(d as int),
{
    if d == 0 { '0' }
    else if d == 1 { '1' }
    else if d == 2 { '2' }
    else if d == 3 { '3' }
    else if d == 4 { '4' }
    else if d == 5 { '5' }
    else if d == 6 { '6' }
    else if d == 7 { '7' }
    else if d == 8 { '8' }
    else { '9' }
}

/// Serializes a descriptor to its metadata text.
#[verifier::rlimit(100)]
pub fn encode_descriptor(d: &UpdateDescriptor) -> (s: String)
    ensures
        s@ == spec_encode(d@),
{
    let mut s = String::new();
    s.append("{\"mpak_id\":\"");
    push_escaped(&mut s, &d.mpak_id);
    s.append("\",\"mpak_download_url\":\"");
    push_escaped(&mut s, &d.mpak_download_url);
    s.append("\",\"name\":\"");
    push_escaped(&mut s, &d.name);
    s.append("\",\"version\":\"");
    push_escaped(&mut s, &d.version);
    s.append("\",\"size\":");
    push_dec(d.size, &mut s);
    s.append(",\"retrieved\":");
    s.append(if d.retrieved { "true" } else { "false" });
    s.append(",\"applied\":");
    s.append(if d.applied { "true" } else { "false" });
    s.append("}");
    proof {
        reveal_strlit("{\"mpak_id\":\"");
        reveal_strlit("\",\"mpak_download_url\":\"");
        reveal_strlit("\",\"name\":\"");
        reveal_strlit("\",\"version\":\"");
        reveal_strlit("\",\"size\":");
        reveal_strlit(",\"retrieved\":");
        reveal_strlit(",\"applied\":");
        reveal_strlit("}");
        reveal_strlit("true");
        reveal_strlit("false");
        reveal_strlit(",\"mpak_download_url\":\"");
        reveal_strlit(",\"name\":\"");
        reveal_strlit(",\"version\":\"");
        reveal_strlit(",\"size\":");
        assert("\",\"mpak_download_url\":\""@ =~= quote() + l_url());
        assert("\",\"name\":\""@ =~= quote() + l_name());
        assert("\",\"version\":\""@ =~= quote() + l_version());
        assert("\",\"size\":"@ =~= quote() + l_size());
        assert(bool_chars(d.retrieved) =~= (if d.retrieved { "true"@ } else { "false"@ }));
        assert(bool_chars(d.applied) =~= (if d.applied { "true"@ } else { "false"@ }));
        assert(s@ =~= spec_encode(d@));
    }
    s
}


// ---------------------------------------------------------------------
// Spec: scanners that consume the text from the front.
// ---------------------------------------------------------------------

/// The tail of `s` from position `i` on.
pub open spec fn suffix(s: Seq<char>, i: int) -> Seq<char> {
    s.subrange(i, s.len() as int)
}

/// Consumes `lit` if `s` starts with it.
pub open spec fn expect_s(s: Seq<char>, lit: Seq<char>) -> Option<Seq<char>> {
    if lit.len() <= s.len() && s.subrange(0, lit.len() as int) == lit {
        Some(s.subrange(lit.len() as int, s.len() as int))
    } else {
        None
    }
}

/// Consumes an escaped text up to and including its closing quote;
/// yields the unescaped content and the rest.
pub open spec fn scan_qstr(s: Seq<char>) -> Option<(Seq<char>, Seq<char>)>
    decreases s.len(),
{
    if s.len() == 0 {
        None
    } else if s[0] == '"' {
        Some((Seq::empty(), s.drop_first()))
    } else if s[0] == '\\' {
        if s.len() >= 2 {
            match scan_qstr(s.subrange(2, s.len() as int)) {
                Some(p) => Some((seq![s[1]] + p.0, p.1)),
                None => None,
            }
        } else {
            None
        }
    } else {
        match scan_qstr(s.drop_first()) {
            Some(p) => Some((seq![s[0]] + p.0, p.1)),
            None => None,
        }
    }
}

/// Splits `s` into its leading digit run and the rest.
pub open spec fn scan_digits(s: Seq<char>) -> (Seq<char>, Seq<char>)
    decreases s.len(),
{
    if s.len() == 0 || !is_digit(s[0]) {
        (Seq::empty(), s)
    } else {
        let p = scan_digits(s.drop_first());
        (seq![s[0]] + p.0, p.1)
    }
}

/// Digit value used in sums; 0 for a non-digit.
pub open spec fn digit_val(c: char) -> nat {
    if char_digit(c) >= 0 {
        char_digit(c) as nat
    } else {
        0
    }
}

/// The number a digit run denotes.
pub open spec fn digits_val(ds: Seq<char>) -> nat
    decreases ds.len(),
{
    if ds.len() == 0 {
        0
    } else {
        digits_val(ds.drop_last()) * 10 + digit_val(ds.last())
    }
}

/// Consumes a decimal number that fits in a `u64`.
pub open spec fn scan_u64(s: Seq<char>) -> Option<(u64, Seq<char>)> {
    let p = scan_digits(s);
    if p.0.len() == 0 || digits_val(p.0) > u64::MAX {
        None
    } else {
        Some((digits_val(p.0) as u64, p.1))
    }
}

/// Consumes a boolean literal.
pub open spec fn scan_bool(s: Seq<char>) -> Option<(bool, Seq<char>)> {
    match expect_s(s, bool_chars(true)) {
        Some(r) => Some((true, r)),
        None => match expect_s(s, bool_chars(false)) {
            Some(r) => Some((false, r)),
            None => None,
        },
    }
}

/// The parse of a whole metadata text.
pub open spec fn spec_decode(s: Seq<char>) -> Option<DescV> {
    match expect_s(s, l_id()) {
        None => None,
        Some(s1) => match scan_qstr(s1) {
            None => None,
            Some((id, s2)) => match expect_s(s2, l_url()) {
                None => None,
                Some(s3) => match scan_qstr(s3) {
                    None => None,
                    Some((url, s4)) => match expect_s(s4, l_name()) {
                        None => None,
                        Some(s5) => match scan_qstr(s5) {
                            None => None,
                            Some((name, s6)) => match expect_s(s6, l_version()) {
                                None => None,
                                Some(s7) => match scan_qstr(s7) {
                                    None => None,
                                    Some((version, s8)) => match expect_s(s8, l_size()) {
                                        None => None,
                                        Some(s9) => match scan_u64(s9) {
                                            None => None,
                                            Some((size, s10)) => match expect_s(s10, l_retrieved()) {
                                                None => None,
                                                Some(s11) => match scan_bool(s11) {
                                                    None => None,
                                                    Some((retrieved, s12)) => match expect_s(s12, l_applied()) {
                                                        None => None,
                                                        Some(s13) => match scan_bool(s13) {
                                                            None => None,
                                                            Some((applied, s14)) => match expect_s(s14, l_end()) {
                                                                None => None,
                                                                Some(s15) => if s15.len() == 0 {
                                                                    Some(DescV {
                                                                        id,
                                                                        url,
                                                                        name,
                                                                        version,
                                                                        size,
                                                                        retrieved,
                                                                        applied,
                                                                    })
                                                                } else {
                                                                    None
                                                                },
                                                            },
                                                        },
                                                    },
                                                },
                                            },
                                        },
                                    },
                                },
                            },
                        },
                    },
                },
            },
        },
    }
}

// ---------------------------------------------------------------------
// Executable parsers, each proved against its spec scanner.
// ---------------------------------------------------------------------

/// Consumes `lit` at position `i` of `v`, if it stands there.
fn expect_lit(v: &Vec<char>, i: usize, lit: &str) -> (r: Option<usize>)
    requires
        i <= v@.len(),
    ensures
        match r {
            Some(j) => i <= j <= v@.len() && expect_s(suffix(v@, i as int), lit@) == Some(
                suffix(v@, j as int),
            ),
            None => expect_s(suffix(v@, i as int), lit@) is None,
        },
{
    let lv = str_to_chars(lit);
    if v.len() - i < lv.len() {
        return None;
    }
    let mut k: usize = 0;
    while k < lv.len()
        invariant
            k <= lv.len(),
            lv.len() <= v.len() - i,
            i <= v@.len(),
            lv@ == lit@,
            forall|m: int| 0 <= m < k ==> v@[i + m] == lit@[m],
        decreases lv.len() - k,
    {
        if v[i + k] != lv[k] {
            proof {
                let sfx = suffix(v@, i as int);
                assert(sfx.subrange(0, lit@.len() as int)[k as int] == v@[i + k]);
            }
            return None;
        }
        k += 1;
    }
    proof {
        let sfx = suffix(v@, i as int);
        assert(sfx.subrange(0, lit@.len() as int) =~= lit@);
        assert(sfx.subrange(lit@.len() as int, sfx.len() as int) =~= suffix(
            v@,
            i + lit@.len() as int,
        ));
    }
    Some(i + lv.len())
}

/// Consumes an escaped text from position `i` up to its closing quote.
fn scan_qstr_exec(v: &Vec<char>, i: usize) -> (r: Option<(Vec<char>, usize)>)
    requires
        i <= v@.len(),
    ensures
        match r {
            Some(p) => i <= p.1 <= v@.len() && scan_qstr(suffix(v@, i as int)) == Some(
                (p.0@, suffix(v@, p.1 as int)),
            ),
            None => scan_qstr(suffix(v@, i as int)) is None,
        },
    decreases v@.len() - i,
{
    if i == v.len() {
        proof {
            assert(suffix(v@, i as int).len() == 0);
        }
        return None;
    }
    let c = v[i];
    proof {
        assert(suffix(v@, i as int)[0] == c);
    }
    if c == '"' {
        proof {
            assert(suffix(v@, i as int).drop_first() =~= suffix(v@, i + 1 as int));
        }
        let r: Vec<char> = Vec::new();
        return Some((r, i + 1));
    }
    if c == '\\' {
        if i + 1 < v.len() {
            let c2 = v[i + 1];
            proof {
                let sfx = suffix(v@, i as int);
                assert(sfx.len() >= 2);
                assert(sfx[1] == c2);
                assert(sfx.subrange(2, sfx.len() as int) =~= suffix(v@, i + 2 as int));
            }
            match scan_qstr_exec(v, i + 2) {
                Some((mut t, j)) => {
                    let ghost t0 = t@;
                    t.insert(0, c2);
                    proof {
                        assert(t@ =~= seq![c2] + t0);
                    }
                    Some((t, j))
                },
                None => None,
            }
        } else {
            proof {
                let sfx = suffix(v@, i as int);
                assert(sfx.len() < 2);
            }
            None
        }
    } else {
        proof {
            assert(suffix(v@, i as int).drop_first() =~= suffix(v@, i + 1 as int));
        }
        match scan_qstr_exec(v, i + 1) {
            Some((mut t, j)) => {
                let ghost t0 = t@;
                t.insert(0, c);
                proof {
                    assert(t@ =~= seq![c] + t0);
                }
                Some((t, j))
            },
            None => None,
        }
    }
}

/// The digit a character stands for, or 10 for a non-digit.
pub(crate) fn digit_of_char(c: char) -> (d: u64)
    ensures
        char_digit(c) >= 0 ==> d == char_digit(c),
        char_digit(c) < 0 ==> d == 10,
        (d < 10) == is_digit(c),
{
    if c == '0' { 0 }
    else if c == '1' { 1 }
    else if c == '2' { 2 }
    else if c == '3' { 3 }
    else if c == '4' { 4 }
    else if c == '5' { 5 }
    else if c == '6' { 6 }
    else if c == '7' { 7 }
    else if c == '8' { 8 }
    else if c == '9' { 9 }
    else { 10 }
}

/// The digits of a non-empty digit run denote at least the value of any
/// prefix of the run.
pub(crate) proof fn lemma_digits_val_mono(ds: Seq<char>, m: int)
    requires
        0 <= m <= ds.len(),
    ensures
        digits_val(ds) >= digits_val(ds.subrange(0, m)),
    decreases ds.len() - m,
{
    if m == ds.len() {
        assert(ds.subrange(0, m) =~= ds);
    } else {
        lemma_digits_val_mono(ds, m + 1);
        let a = ds.subrange(0, m);
        let b = ds.subrange(0, m + 1);
        assert(b.drop_last() =~= a);
        assert(digits_val(b) == digits_val(a) * 10 + digit_val(b.last()));
        assert(digits_val(a) * 10 >= digits_val(a)) by (nonlinear_arith)
            requires digits_val(a) >= 0;
    }
}

/// `scan_digits` splits a digit run from what follows it.
proof fn lemma_scan_digits_split(a: Seq<char>, b: Seq<char>)
    requires
        forall|m: int| 0 <= m < a.len() ==> is_digit(a[m]),
        b.len() == 0 || !is_digit(b[0]),
    ensures
        scan_digits(a + b) == (a, b),
    decreases a.len(),
{
    if a.len() == 0 {
        assert(a + b =~= b);
        if b.len() == 0 {
        } else {
            assert((a + b)[0] == b[0]);
        }
        assert(scan_digits(a + b).0 =~= a);
    } else {
        assert((a + b)[0] == a[0]);
        assert((a + b).drop_first() =~= a.drop_first() + b);
        lemma_scan_digits_split(a.drop_first(), b);
        assert(seq![a[0]] + a.drop_first() =~= a);
    }
}

/// Consumes a decimal number at position `i`.
fn scan_u64_exec(v: &Vec<char>, i: usize) -> (r: Option<(u64, usize)>)
    requires
        i <= v@.len(),
    ensures
        match r {
            Some(p) => i <= p.1 <= v@.len() && scan_u64(suffix(v@, i as int)) == Some(
                (p.0, suffix(v@, p.1 as int)),
            ),
            None => scan_u64(suffix(v@, i as int)) is None,
        },
{
    // find the end of the digit run
    let mut j: usize = i;
    while j < v.len() && digit_of_char(v[j]) < 10
        invariant
            i <= j <= v@.len(),
            forall|m: int| i <= m < j ==> is_digit(v@[m]),
        decreases v@.len() - j,
    {
        j += 1;
    }
    let ghost sfx = suffix(v@, i as int);
    let ghost run = v@.subrange(i as int, j as int);
    let ghost rest = suffix(v@, j as int);
    proof {
        assert(sfx =~= run + rest);
        assert(forall|m: int| 0 <= m < run.len() ==> is_digit(run[m]));
        if j < v@.len() {
            assert(rest[0] == v@[j as int]);
        }
        lemma_scan_digits_split(run, rest);
    }
    if j == i {
        // no digits at all
        return None;
    }
    // accumulate, watching for overflow
    let mut acc: u64 = 0;
    let mut k: usize = i;
    while k < j
        invariant
            i <= k <= j <= v@.len(),
            run == v@.subrange(i as int, j as int),
            forall|m: int| i <= m < j ==> is_digit(v@[m]),
            acc as nat == digits_val(run.subrange(0, k - i)),
            scan_digits(suffix(v@, i as int)) == (run, suffix(v@, j as int)),
        decreases j - k,
    {
        let d = digit_of_char(v[k]);
        proof {
            assert(is_digit(v@[k as int]));
            assert(run[k - i] == v@[k as int]);
            let pre = run.subrange(0, k - i);
            let pre1 = run.subrange(0, k - i + 1);
            assert(pre1.drop_last() =~= pre);
            assert(digits_val(pre1) == digits_val(pre) * 10 + digit_val(pre1.last()));
            assert((u64::MAX as u128) * 10 + 9 <= u128::MAX) by (nonlinear_arith);
            assert((acc as u128) * 10 <= (u64::MAX as u128) * 10) by (nonlinear_arith)
                requires acc as u128 <= u64::MAX as u128;
        }
        let wide: u128 = (acc as u128) * 10 + (d as u128);
        if wide > u64::MAX as u128 {
            proof {
                let pre1 = run.subrange(0, k - i + 1);
                assert(digits_val(pre1) == wide);
                lemma_digits_val_mono(run, k - i + 1);
                assert(run.subrange(0, run.len() as int) =~= run);
                assert(digits_val(run) > u64::MAX);
            }
            return None;
        }
        acc = wide as u64;
        k += 1;
    }
    proof {
        assert(run.subrange(0, j - i) =~= run);
        assert(digits_val(run) <= u64::MAX);
        assert(run.len() > 0);
    }
    Some((acc, j))
}

/// Consumes a boolean literal at position `i`.
fn scan_bool_exec(v: &Vec<char>, i: usize) -> (r: Option<(bool, usize)>)
    requires
        i <= v@.len(),
    ensures
        match r {
            Some(p) => i <= p.1 <= v@.len() && scan_bool(suffix(v@, i as int)) == Some(
                (p.0, suffix(v@, p.1 as int)),
            ),
            None => scan_bool(suffix(v@, i as int)) is None,
        },
{
    proof {
        reveal_strlit("true");
        reveal_strlit("false");
        assert("true"@ =~= bool_chars(true));
        assert("false"@ =~= bool_chars(false));
    }
    match expect_lit(v, i, "true") {
        Some(j) => Some((true, j)),
        None => match expect_lit(v, i, "false") {
            Some(j) => Some((false, j)),
            None => None,
        },
    }
}

/// Parses a metadata text back into a descriptor.
pub fn decode_descriptor(s: &str) -> (r: Option<UpdateDescriptor>)
    ensures
        match r {
            Some(d) => spec_decode(s@) == Some(d@),
            None => spec_decode(s@) is None,
        },
{
    let v = str_to_chars(s);
    proof {
        assert(suffix(v@, 0) =~= s@);
    }
    let i1 = match expect_lit(&v, 0, "{\"mpak_id\":\"") {
        Some(j) => j,
        None => { return None; },
    };
    let (id, i2) = match scan_qstr_exec(&v, i1) {
        Some(p) => p,
        None => { return None; },
    };
    let i3 = match expect_lit(&v, i2, ",\"mpak_download_url\":\"") {
        Some(j) => j,
        None => { return None; },
    };
    let (url, i4) = match scan_qstr_exec(&v, i3) {
        Some(p) => p,
        None => { return None; },
    };
    let i5 = match expect_lit(&v, i4, ",\"name\":\"") {
        Some(j) => j,
        None => { return None; },
    };
    let (name, i6) = match scan_qstr_exec(&v, i5) {
        Some(p) => p,
        None => { return None; },
    };
    let i7 = match expect_lit(&v, i6, ",\"version\":\"") {
        Some(j) => j,
        None => { return None; },
    };
    let (version, i8) = match scan_qstr_exec(&v, i7) {
        Some(p) => p,
        None => { return None; },
    };
    let i9 = match expect_lit(&v, i8, ",\"size\":") {
        Some(j) => j,
        None => { return None; },
    };
    let (size, i10) = match scan_u64_exec(&v, i9) {
        Some(p) => p,
        None => { return None; },
    };
    let i11 = match expect_lit(&v, i10, ",\"retrieved\":") {
        Some(j) => j,
        None => { return None; },
    };
    let (retrieved, i12) = match scan_bool_exec(&v, i11) {
        Some(p) => p,
        None => { return None; },
    };
    let i13 = match expect_lit(&v, i12, ",\"applied\":") {
        Some(j) => j,
        None => { return None; },
    };
    let (applied, i14) = match scan_bool_exec(&v, i13) {
        Some(p) => p,
        None => { return None; },
    };
    let i15 = match expect_lit(&v, i14, "}") {
        Some(j) => j,
        None => { return None; },
    };
    if i15 != v.len() {
        proof {
            assert(suffix(v@, i15 as int).len() > 0);
        }
        return None;
    }
    proof {
        assert(suffix(v@, i15 as int).len() == 0);
    }
    let d = UpdateDescriptor {
        mpak_id: crate::chars::chars_to_string(&id),
        mpak_download_url: crate::chars::chars_to_string(&url),
        name: crate::chars::chars_to_string(&name),
        version: crate::chars::chars_to_string(&version),
        size,
        retrieved,
        applied,
    };
    Some(d)
}


// ---------------------------------------------------------------------
// Round trip: what the encoder writes, the parser reads back.
// ---------------------------------------------------------------------

/// A literal prefix parses off, leaving the rest.
pub proof fn lemma_expect_prefix(l: Seq<char>, rest: Seq<char>)
    ensures
        expect_s(l + rest, l) == Some(rest),
{
    assert((l + rest).subrange(0, l.len() as int) =~= l);
    assert((l + rest).subrange(l.len() as int, (l + rest).len() as int) =~= rest);
}

/// Scanning an escaped-and-quoted text yields the text unchanged.
proof fn lemma_scan_esc(vch: Seq<char>, rest: Seq<char>)
    ensures
        scan_qstr(esc(vch) + quote() + rest) == Some((vch, rest)),
    decreases vch.len(),
{
    let s = esc(vch) + quote() + rest;
    if vch.len() == 0 {
        assert(esc(vch) =~= Seq::<char>::empty());
        assert(s =~= quote() + rest);
        assert(s[0] == '"');
        assert(s.drop_first() =~= rest);
        assert(vch =~= Seq::<char>::empty());
    } else {
        let c = vch[0];
        let tailv = vch.drop_first();
        lemma_scan_esc(tailv, rest);
        if c == '"' || c == '\\' {
            assert(esc(vch) == seq!['\\', c] + esc(tailv));
            assert(s =~= seq!['\\', c] + (esc(tailv) + quote() + rest));
            assert(s[0] == '\\');
            assert(s[1] == c);
            assert(s.len() >= 2);
            assert(s.subrange(2, s.len() as int) =~= esc(tailv) + quote() + rest);
            assert(seq![c] + tailv =~= vch);
        } else {
            assert(esc(vch) == seq![c] + esc(tailv));
            assert(s =~= seq![c] + (esc(tailv) + quote() + rest));
            assert(s[0] == c);
            assert(s.drop_first() =~= esc(tailv) + quote() + rest);
            assert(seq![c] + tailv =~= vch);
        }
    }
}

/// Decimal digits denote the number they were made from.
proof fn lemma_dec_chars_digits(n: nat)
    ensures
        dec_chars(n).len() >= 1,
        forall|m: int| 0 <= m < dec_chars(n).len() ==> is_digit(#[trigger] dec_chars(n)[m]),
        digits_val(dec_chars(n)) == n,
    decreases n,
{
    if n < 10 {
        let ds = dec_chars(n);
        assert(ds == seq![digit_char(n as int)]);
        assert(is_digit(digit_char(n as int)));
        assert(ds.drop_last() =~= Seq::<char>::empty());
        assert(ds.drop_last() == Seq::<char>::empty());
        assert(digits_val(Seq::<char>::empty()) == 0);
        assert(ds.last() == digit_char(n as int));
        assert(ds.len() == 1);
        assert(digits_val(ds) == digits_val(ds.drop_last()) * 10 + digit_val(ds.last()));
        assert(digits_val(ds) == digit_val(digit_char(n as int)));
        assert(digit_val(digit_char(n as int)) == n);
    } else {
        lemma_dec_chars_digits(n / 10);
        let a = dec_chars(n / 10);
        let ds = dec_chars(n);
        assert(ds == a + seq![digit_char((n % 10) as int)]);
        assert(ds.drop_last() =~= a);
        assert(ds.last() == digit_char((n % 10) as int));
        assert(is_digit(digit_char((n % 10) as int)));
        assert(digit_val(digit_char((n % 10) as int)) == n % 10);
        assert(digits_val(ds) == (n / 10) * 10 + n % 10);
        assert((n / 10) * 10 + n % 10 == n);
        assert(forall|m: int| 0 <= m < ds.len() ==> is_digit(#[trigger] ds[m])) by {
            assert(forall|m: int| 0 <= m < a.len() ==> is_digit(#[trigger] a[m]));
            assert(forall|m: int| 0 <= m < ds.len() ==> #[trigger] ds[m] == (if m < a.len() {
                a[m]
            } else {
                digit_char((n % 10) as int)
            }));
        }
    }
}

/// A serialized number, followed by a non-digit, parses back.
proof fn lemma_scan_u64_enc(n: u64, rest: Seq<char>)
    requires
        rest.len() > 0,
        !is_digit(rest[0]),
    ensures
        scan_u64(dec_chars(n as nat) + rest) == Some((n, rest)),
{
    lemma_dec_chars_digits(n as nat);
    lemma_scan_digits_split(dec_chars(n as nat), rest);
}

/// A serialized boolean parses back.
proof fn lemma_scan_bool_enc(b: bool, rest: Seq<char>)
    ensures
        scan_bool(bool_chars(b) + rest) == Some((b, rest)),
{
    lemma_expect_prefix(bool_chars(b), rest);
    if !b {
        let s = bool_chars(false) + rest;
        assert(s[0] == 'f');
        assert(expect_s(s, bool_chars(true)) is None) by {
            if 4 <= s.len() && s.subrange(0, 4) == bool_chars(true) {
                assert(s.subrange(0, 4)[0] == s[0]);
                assert(false);
            }
        }
    }
}

/// Round trip: the metadata text of a descriptor parses back to the
/// same descriptor, so recovery reconstructs exactly what was saved.
#[verifier::rlimit(100)]
pub proof fn lemma_decode_encode(d: DescV)
    ensures
        spec_decode(spec_encode(d)) == Some(d),
{
    let s15 = Seq::<char>::empty();
    let s14 = l_end() + s15;
    let s13 = bool_chars(d.applied) + s14;
    let s12 = l_applied() + s13;
    let s11 = bool_chars(d.retrieved) + s12;
    let s10 = l_retrieved() + s11;
    let s9 = dec_chars(d.size as nat) + s10;
    let s8 = l_size() + s9;
    let s7 = esc(d.version) + quote() + s8;
    let s6 = l_version() + s7;
    let s5 = esc(d.name) + quote() + s6;
    let s4 = l_name() + s5;
    let s3 = esc(d.url) + quote() + s4;
    let s2 = l_url() + s3;
    let s1 = esc(d.id) + quote() + s2;
    let s0 = l_id() + s1;
    assert(spec_encode(d) == s0);
    lemma_expect_prefix(l_id(), s1);
    lemma_scan_esc(d.id, s2);
    lemma_expect_prefix(l_url(), s3);
    lemma_scan_esc(d.url, s4);
    lemma_expect_prefix(l_name(), s5);
    lemma_scan_esc(d.name, s6);
    lemma_expect_prefix(l_version(), s7);
    lemma_scan_esc(d.version, s8);
    lemma_expect_prefix(l_size(), s9);
    reveal_strlit(",\"retrieved\":");
    assert(l_retrieved().len() > 0);
    assert(s10[0] == l_retrieved()[0]);
    assert(!is_digit(s10[0]));
    assert(s10.len() > 0);
    lemma_scan_u64_enc(d.size, s10);
    lemma_expect_prefix(l_retrieved(), s11);
    lemma_scan_bool_enc(d.retrieved, s12);
    lemma_expect_prefix(l_applied(), s13);
    lemma_scan_bool_enc(d.applied, s14);
    lemma_expect_prefix(l_end(), s15);
    assert(expect_s(s0, l_id()) == Some(s1));
    assert(scan_qstr(s1) == Some((d.id, s2)));
    assert(expect_s(s2, l_url()) == Some(s3));
    assert(scan_qstr(s3) == Some((d.url, s4)));
    assert(expect_s(s4, l_name()) == Some(s5));
    assert(scan_qstr(s5) == Some((d.name, s6)));
    assert(expect_s(s6, l_version()) == Some(s7));
    assert(scan_qstr(s7) == Some((d.version, s8)));
    assert(expect_s(s8, l_size()) == Some(s9));
    assert(scan_u64(s9) == Some((d.size, s10)));
    assert(expect_s(s10, l_retrieved()) == Some(s11));
    assert(scan_bool(s11) == Some((d.retrieved, s12)));
    assert(expect_s(s12, l_applied()) == Some(s13));
    assert(scan_bool(s13) == Some((d.applied, s14)));
    assert(expect_s(s14, l_end()) == Some(s15));
    assert(s15.len() == 0);
    assert(d == DescV {
        id: d.id,
        url: d.url,
        name: d.name,
        version: d.version,
        size: d.size,
        retrieved: d.retrieved,
        applied: d.applied,
    });
}

/// Persistence is deterministic: one descriptor state, one text.
pub proof fn lemma_encode_deterministic(a: DescV, b: DescV)
    requires
        a == b,
    ensures
        spec_encode(a) == spec_encode(b),
{
}

} // verus!
