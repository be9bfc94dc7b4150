//! The immutable configuration value the store is constructed with,
//! and the parser of its key/value text lines: `#` starts a comment,
//! keys are case-insensitive, unknown keys are ignored, a key without
//! a separating space or a malformed number is a startup error.
//! Values are trimmed of Unicode whitespace; the case folding of keys
//! and of yes/no values covers the ASCII letters, which is all the
//! recognized keys and values use.

use vstd::prelude::*;
use vstd::string::*;
use crate::chars::{chars_eq_lit, chars_to_string, str_to_chars};
use crate::codec::{digit_of_char, digit_val, digits_val, is_digit, lemma_digits_val_mono};

verus! {

/// Why the settings text was rejected.
#[derive(Debug)]
pub enum SettingsError {
    /// A non-comment line has no space between key and value.
    MissingSeparator,
    /// A numeric value does not parse as a 32-bit integer.
    BadNumber,
}

/// Mathematical content of a configuration.
pub ghost struct SettingsV {
    pub enabled: bool,
    pub update_server_address: Seq<char>,
    pub update_server_port: int,
    pub use_authentication: bool,
    pub auth_server_address: Option<Seq<char>>,
    pub auth_server_port: Option<int>,
    pub mqtt_topics: Seq<Seq<char>>,
    pub connect_retry_seconds: int,
}

/// Agent configuration, read once at startup. The store only keeps a
/// reference to it; it never changes at runtime.
pub struct Settings {
    pub enabled: bool,
    pub update_server_address: String,
    pub update_server_port: i32,
    pub use_authentication: bool,
    pub auth_server_address: Option<String>,
    pub auth_server_port: Option<i32>,
    pub mqtt_topics: Vec<String>,
    pub connect_retry_seconds: i32,
}

impl View for Settings {
    type V = SettingsV;

    open spec fn view(&self) -> SettingsV {
        SettingsV {
            enabled: self.enabled,
            update_server_address: self.update_server_address@,
            update_server_port: self.update_server_port as int,
            use_authentication: self.use_authentication,
            auth_server_address: match self.auth_server_address {
                Some(a) => Some(a@),
                None => None,
            },
            auth_server_port: match self.auth_server_port {
                Some(p) => Some(p as int),
                None => None,
            },
            mqtt_topics: self.mqtt_topics.deep_view(),
            connect_retry_seconds: self.connect_retry_seconds as int,
        }
    }
}

/// The defaults that hold before any line is read.
pub open spec fn initial_v() -> SettingsV {
    SettingsV {
        enabled: true,
        update_server_address: Seq::empty(),
        update_server_port: 883,
        use_authentication: false,
        auth_server_address: None,
        auth_server_port: None,
        mqtt_topics: seq!["ota"@, "ota/{ID}/updates"@],
        connect_retry_seconds: 15,
    }
}

// ---------------------------------------------------------------------
// Text primitives of the line format.
// ---------------------------------------------------------------------

/// The position of the first `c` in `s`, or `s.len()` if none occurs.
pub open spec fn first_at(s: Seq<char>, c: char) -> nat
    decreases s.len(),
{
    if s.len() == 0 {
        0
    } else if s[0] == c {
        0
    } else {
        (1 + first_at(s.drop_first(), c)) as nat
    }
}

proof fn lemma_first_at_is(s: Seq<char>, c: char, j: int)
    requires
        0 <= j <= s.len(),
        forall|m: int| 0 <= m < j ==> s[m] != c,
        j == s.len() || s[j] == c,
    ensures
        first_at(s, c) == j,
    decreases s.len(),
{
    if s.len() == 0 {
    } else if s[0] == c {
    } else {
        assert(j >= 1);
        lemma_first_at_is(s.drop_first(), c, j - 1);
    }
}

/// Everything before the first comment mark.
pub open spec fn strip_comment(line: Seq<char>) -> Seq<char> {
    line.subrange(0, first_at(line, '#') as int)
}

/// The whitespace the value trim removes: the Unicode white-space
/// characters.
pub open spec fn is_space(c: char) -> bool {
    c == '\u{0009}' || c == '\u{000A}' || c == '\u{000B}' || c == '\u{000C}' || c == '\u{000D}'
        || c == '\u{0020}' || c == '\u{0085}' || c == '\u{00A0}' || c == '\u{1680}'
        || c == '\u{2000}' || c == '\u{2001}' || c == '\u{2002}' || c == '\u{2003}'
        || c == '\u{2004}' || c == '\u{2005}' || c == '\u{2006}' || c == '\u{2007}'
        || c == '\u{2008}' || c == '\u{2009}' || c == '\u{200A}' || c == '\u{2028}'
        || c == '\u{2029}' || c == '\u{202F}' || c == '\u{205F}' || c == '\u{3000}'
}

pub open spec fn trim_start_s(s: Seq<char>) -> Seq<char>
    decreases s.len(),
{
    if s.len() == 0 {
        s
    } else if is_space(s[0]) {
        trim_start_s(s.drop_first())
    } else {
        s
    }
}

pub open spec fn trim_end_s(s: Seq<char>) -> Seq<char>
    decreases s.len(),
{
    if s.len() == 0 {
        s
    } else if is_space(s.last()) {
        trim_end_s(s.drop_last())
    } else {
        s
    }
}

/// The text with the whitespace cut from both ends.
pub open spec fn trim_s(s: Seq<char>) -> Seq<char> {
    trim_end_s(trim_start_s(s))
}

proof fn lemma_trim_start_at(s: Seq<char>, a: int)
    requires
        0 <= a <= s.len(),
        forall|m: int| 0 <= m < a ==> is_space(s[m]),
        a == s.len() || !is_space(s[a]),
    ensures
        trim_start_s(s) == s.subrange(a, s.len() as int),
    decreases s.len(),
{
    if s.len() == 0 {
        assert(s.subrange(0, 0) =~= s);
    } else if a == 0 {
        assert(s.subrange(0, s.len() as int) =~= s);
    } else {
        assert(is_space(s[0]));
        lemma_trim_start_at(s.drop_first(), a - 1);
        assert(s.drop_first().subrange(a - 1, s.drop_first().len() as int) =~= s.subrange(
            a,
            s.len() as int,
        ));
    }
}

proof fn lemma_trim_end_at(s: Seq<char>, b: int)
    requires
        0 <= b <= s.len(),
        forall|m: int| b <= m < s.len() ==> is_space(s[m]),
        b == 0 || !is_space(s[b - 1]),
    ensures
        trim_end_s(s) == s.subrange(0, b),
    decreases s.len(),
{
    if s.len() == 0 {
        assert(s.subrange(0, 0) =~= s);
    } else if b == s.len() {
        assert(s.subrange(0, s.len() as int) =~= s);
        assert(!is_space(s.last()));
    } else {
        assert(is_space(s.last()));
        lemma_trim_end_at(s.drop_last(), b);
        assert(s.drop_last().subrange(0, b) =~= s.subrange(0, b));
    }
}

/// The lower-case letter for an upper-case one; anything else is kept.
pub open spec fn lower_char(c: char) -> char {
    if c == 'A' { 'a' }
    else if c == 'B' { 'b' }
    else if c == 'C' { 'c' }
    else if c == 'D' { 'd' }
    else if c == 'E' { 'e' }
    else if c == 'F' { 'f' }
    else if c == 'G' { 'g' }
    else if c == 'H' { 'h' }
    else if c == 'I' { 'i' }
    else if c == 'J' { 'j' }
    else if c == 'K' { 'k' }
    else if c == 'L' { 'l' }
    else if c == 'M' { 'm' }
    else if c == 'N' { 'n' }
    else if c == 'O' { 'o' }
    else if c == 'P' { 'p' }
    else if c == 'Q' { 'q' }
    else if c == 'R' { 'r' }
    else if c == 'S' { 's' }
    else if c == 'T' { 't' }
    else if c == 'U' { 'u' }
    else if c == 'V' { 'v' }
    else if c == 'W' { 'w' }
    else if c == 'X' { 'x' }
    else if c == 'Y' { 'y' }
    else if c == 'Z' { 'z' }
    else { c }
}

pub open spec fn lower_seq(s: Seq<char>) -> Seq<char> {
    s.map_values(|c: char| lower_char(c))
}

fn lower_char_exec(c: char) -> (r: char)
    ensures
        r == lower_char(c),
{
    if c == 'A' { 'a' }
    else if c == 'B' { 'b' }
    else if c == 'C' { 'c' }
    else if c == 'D' { 'd' }
    else if c == 'E' { 'e' }
    else if c == 'F' { 'f' }
    else if c == 'G' { 'g' }
    else if c == 'H' { 'h' }
    else if c == 'I' { 'i' }
    else if c == 'J' { 'j' }
    else if c == 'K' { 'k' }
    else if c == 'L' { 'l' }
    else if c == 'M' { 'm' }
    else if c == 'N' { 'n' }
    else if c == 'O' { 'o' }
    else if c == 'P' { 'p' }
    else if c == 'Q' { 'q' }
    else if c == 'R' { 'r' }
    else if c == 'S' { 's' }
    else if c == 'T' { 't' }
    else if c == 'U' { 'u' }
    else if c == 'V' { 'v' }
    else if c == 'W' { 'w' }
    else if c == 'X' { 'x' }
    else if c == 'Y' { 'y' }
    else if c == 'Z' { 'z' }
    else { c }
}

fn lower_chars(v: &Vec<char>) -> (r: Vec<char>)
    ensures
        r@ == lower_seq(v@),
{
    let mut r: Vec<char> = Vec::new();
    let mut i: usize = 0;
    while i < v.len()
        invariant
            i <= v@.len(),
            r@.len() == i,
            forall|m: int| 0 <= m < i ==> r@[m] == lower_char(v@[m]),
        decreases v@.len() - i,
    {
        r.push(lower_char_exec(v[i]));
        i += 1;
    }
    proof {
        assert(r@ =~= lower_seq(v@));
    }
    r
}

// ---------------------------------------------------------------------
// Numbers and topic lists.
// ---------------------------------------------------------------------

pub open spec fn all_digits(s: Seq<char>) -> bool {
    forall|m: int| 0 <= m < s.len() ==> is_digit(#[trigger] s[m])
}

/// The 32-bit integer a text denotes: an optional sign, then digits,
/// within range — exactly the texts the daemon accepts as numbers.
pub open spec fn i32_numeral(s: Seq<char>) -> Option<int> {
    let neg = s.len() > 0 && s[0] == '-';
    let signed = s.len() > 0 && (s[0] == '-' || s[0] == '+');
    let mag = if signed {
        s.subrange(1, s.len() as int)
    } else {
        s
    };
    if mag.len() == 0 || !all_digits(mag) {
        None
    } else {
        let v = digits_val(mag) as int;
        let sv = if neg {
            -v
        } else {
            v
        };
        if -0x8000_0000 <= sv <= 0x7fff_ffff {
            Some(sv)
        } else {
            None
        }
    }
}

/// Parses a 32-bit integer as `i32_numeral` describes.
fn parse_i32(v: &Vec<char>) -> (r: Option<i32>)
    ensures
        match r {
            Some(x) => i32_numeral(v@) == Some(x as int),
            None => i32_numeral(v@) is None,
        },
{
    let ghost s = v@;
    let mut start: usize = 0;
    let mut neg = false;
    if v.len() > 0 && (v[0] == '+' || v[0] == '-') {
        neg = v[0] == '-';
        start = 1;
    }
    let ghost mag = if start == 1 {
        s.subrange(1, s.len() as int)
    } else {
        s
    };
    proof {
        if start == 0 {
            assert(mag =~= s.subrange(0, s.len() as int));
        }
        assert(mag == s.subrange(start as int, s.len() as int));
        assert(neg == (s.len() > 0 && s[0] == '-'));
    }
    if start == v.len() {
        proof {
            assert(mag.len() == 0);
        }
        return None;
    }
    let mut acc: u64 = 0;
    let mut k: usize = start;
    while k < v.len()
        invariant
            start <= k <= v@.len(),
            s == v@,
            start == 0 || start == 1,
            mag == s.subrange(start as int, s.len() as int),
            mag == (if start == 1 { s.subrange(1, s.len() as int) } else { s }),
            start == 1 ==> s.len() > 0 && (s[0] == '-' || s[0] == '+'),
            start == 0 ==> !(s.len() > 0 && (s[0] == '-' || s[0] == '+')),
            neg == (s.len() > 0 && s[0] == '-'),
            forall|m: int| start <= m < k ==> is_digit(#[trigger] s[m]),
            acc == digits_val(mag.subrange(0, k - start)),
            acc <= 0x8000_0000,
        decreases v@.len() - k,
    {
        let d = digit_of_char(v[k]);
        let ghost pre = mag.subrange(0, k - start);
        let ghost pre1 = mag.subrange(0, k - start + 1);
        proof {
            assert(mag[k - start] == s[k as int]);
        }
        if d >= 10 {
            proof {
                assert(!is_digit(mag[k - start]));
                assert(!all_digits(mag));
                assert(i32_numeral(v@) is None);
            }
            return None;
        }
        proof {
            assert(is_digit(mag[k - start]));
            assert(pre1.drop_last() =~= pre);
            assert(pre1.last() == mag[k - start]);
            assert(digits_val(pre1) == digits_val(pre) * 10 + digit_val(pre1.last()));
            assert(digit_val(pre1.last()) == d);
        }
        acc = acc * 10 + d;
        proof {
            assert(acc == digits_val(pre1));
        }
        if acc > 0x8000_0000 {
            proof {
                lemma_digits_val_mono(mag, k - start + 1);
                assert(mag.subrange(0, mag.len() as int) =~= mag);
                assert(digits_val(mag) >= digits_val(pre1));
                assert(digits_val(mag) > 0x8000_0000);
                if mag.len() > 0 && all_digits(mag) {
                    let v0 = digits_val(mag) as int;
                    assert(v0 > 0x8000_0000);
                }
                assert(i32_numeral(v@) is None);
            }
            return None;
        }
        k += 1;
    }
    proof {
        assert(mag.subrange(0, mag.len() as int) =~= mag);
        assert(acc == digits_val(mag));
        assert(mag.len() > 0);
        assert(all_digits(mag));
    }
    if neg {
        if acc == 0x8000_0000 {
            proof {
                assert(i32_numeral(v@) == Some(-0x8000_0000int));
            }
            Some(i32::MIN)
        } else {
            proof {
                assert(acc < 0x8000_0000);
            }
            Some(-(acc as i32))
        }
    } else {
        if acc > 0x7fff_ffff {
            proof {
                assert(i32_numeral(v@) is None);
            }
            None
        } else {
            Some(acc as i32)
        }
    }
}

/// The semicolon-separated pieces of a topic list; an empty text is
/// one empty piece, like the last piece after a trailing separator.
pub open spec fn split_semi(s: Seq<char>) -> Seq<Seq<char>>
    decreases s.len(),
{
    let idx = first_at(s, ';');
    if idx >= s.len() {
        seq![s]
    } else {
        seq![s.subrange(0, idx as int)] + split_semi(s.subrange(idx as int + 1, s.len() as int))
    }
}

/// Splits `v` from position `from` on at each semicolon.
fn split_topics(v: &Vec<char>, from: usize) -> (r: Vec<String>)
    requires
        from <= v@.len(),
    ensures
        r.deep_view() == split_semi(v@.subrange(from as int, v@.len() as int)),
    decreases v@.len() - from,
{
    let ghost s = v@.subrange(from as int, v@.len() as int);
    let mut j: usize = from;
    while j < v.len() && v[j] != ';'
        invariant
            from <= j <= v@.len(),
            forall|m: int| from <= m < j ==> v@[m] != ';',
        decreases v@.len() - j,
    {
        j += 1;
    }
    proof {
        assert(forall|m: int| 0 <= m < j - from ==> s[m] == v@[from + m]);
        lemma_first_at_is(s, ';', j - from);
    }
    let mut piece: Vec<char> = Vec::new();
    let mut m: usize = from;
    while m < j
        invariant
            from <= m <= j <= v@.len(),
            piece@ == v@.subrange(from as int, m as int),
        decreases j - m,
    {
        piece.push(v[m]);
        proof {
            assert(v@.subrange(from as int, m + 1 as int) =~= v@.subrange(from as int, m as int)
                .push(v@[m as int]));
        }
        m += 1;
    }
    let pstr = chars_to_string(&piece);
    if j == v.len() {
        let mut r: Vec<String> = Vec::new();
        r.push(pstr);
        proof {
            assert(piece@ =~= s);
            assert(r.deep_view() =~= seq![s]);
        }
        r
    } else {
        let mut rest = split_topics(v, j + 1);
        let ghost rest0 = rest.deep_view();
        rest.insert(0, pstr);
        proof {
            let idx = (j - from) as int;
            assert(s.subrange(0, idx) =~= piece@);
            assert(s.subrange(idx + 1, s.len() as int) =~= v@.subrange(
                j + 1 as int,
                v@.len() as int,
            ));
            assert(rest.deep_view() =~= seq![piece@] + rest0);
            assert(rest.deep_view() =~= split_semi(s));
        }
        rest
    }
}

// ---------------------------------------------------------------------
// Lines.
// ---------------------------------------------------------------------

/// What one line does to the configuration.
pub open spec fn apply_line(st: SettingsV, line: Seq<char>) -> Result<SettingsV, SettingsError> {
    let s = strip_comment(line);
    if s.len() == 0 {
        Ok(st)
    } else {
        let idx = first_at(s, ' ');
        if idx >= s.len() {
            Err(SettingsError::MissingSeparator)
        } else {
            let key = lower_seq(s.subrange(0, idx as int));
            let val = trim_s(s.subrange(idx as int, s.len() as int));
            if key == "enabled"@ {
                Ok(SettingsV { enabled: lower_seq(val) == "yes"@, ..st })
            } else if key == "update_server_address"@ {
                Ok(SettingsV { update_server_address: val, ..st })
            } else if key == "update_server_port"@ {
                match i32_numeral(val) {
                    Some(x) => Ok(SettingsV { update_server_port: x, ..st }),
                    None => Err(SettingsError::BadNumber),
                }
            } else if key == "use_authentication"@ {
                Ok(SettingsV { use_authentication: lower_seq(val) == "yes"@, ..st })
            } else if key == "auth_server_address"@ {
                Ok(SettingsV { auth_server_address: Some(val), ..st })
            } else if key == "auth_server_port"@ {
                match i32_numeral(val) {
                    Some(x) => Ok(SettingsV { auth_server_port: Some(x), ..st }),
                    None => Err(SettingsError::BadNumber),
                }
            } else if key == "mqtt_topics"@ {
                Ok(SettingsV { mqtt_topics: split_semi(val), ..st })
            } else if key == "connect_retry_seconds"@ {
                match i32_numeral(val) {
                    Some(x) => Ok(SettingsV { connect_retry_seconds: x, ..st }),
                    None => Err(SettingsError::BadNumber),
                }
            } else {
                Ok(st)
            }
        }
    }
}

/// What the whole file does: the defaults, then each line in order;
/// the first bad line is fatal.
pub open spec fn spec_from_lines(lines: Seq<Seq<char>>) -> Result<SettingsV, SettingsError>
    decreases lines.len(),
{
    if lines.len() == 0 {
        Ok(initial_v())
    } else {
        match spec_from_lines(lines.drop_last()) {
            Ok(st) => apply_line(st, lines.last()),
            Err(e) => Err(e),
        }
    }
}

/// Once a prefix of the lines fails, the remaining lines change
/// nothing: the whole file fails the same way.
proof fn lemma_from_lines_err(lines: Seq<Seq<char>>, m: int)
    requires
        0 <= m <= lines.len(),
        spec_from_lines(lines.subrange(0, m)) is Err,
    ensures
        spec_from_lines(lines) == spec_from_lines(lines.subrange(0, m)),
    decreases lines.len(),
{
    if m == lines.len() {
        assert(lines.subrange(0, m) =~= lines);
    } else {
        assert(lines.drop_last().subrange(0, m) =~= lines.subrange(0, m));
        lemma_from_lines_err(lines.drop_last(), m);
    }
}

impl Settings {
    /// The configuration before any line of the settings file is read.
    pub fn initial() -> (s: Settings)
        ensures
            s@ == initial_v(),
    {
        let mut topics: Vec<String> = Vec::new();
        topics.push(String::from_str("ota"));
        topics.push(String::from_str("ota/{ID}/updates"));
        let s = Settings {
            enabled: true,
            update_server_address: String::new(),
            update_server_port: 883,
            use_authentication: false,
            auth_server_address: None,
            auth_server_port: None,
            mqtt_topics: topics,
            connect_retry_seconds: 15,
        };
        proof {
            assert(s.mqtt_topics.deep_view() =~= seq!["ota"@, "ota/{ID}/updates"@]);
        }
        s
    }

    /// Reads a configuration out of the file's lines.
    pub fn from_lines(lines: &Vec<String>) -> (r: Result<Settings, SettingsError>)
        ensures
            match r {
                Ok(s) => spec_from_lines(lines.deep_view()) == Ok::<SettingsV, SettingsError>(s@),
                Err(e) => spec_from_lines(lines.deep_view()) == Err::<SettingsV, SettingsError>(e),
            },
    {
        let ghost all = lines.deep_view();
        let mut st = Settings::initial();
        let mut i: usize = 0;
        proof {
            assert(all.subrange(0, 0) =~= Seq::<Seq<char>>::empty());
        }
        while i < lines.len()
            invariant
                i <= lines@.len(),
                all == lines.deep_view(),
                all.len() == lines@.len(),
                forall|m: int| 0 <= m < all.len() ==> all[m] == (#[trigger] lines@[m])@,
                spec_from_lines(all.subrange(0, i as int)) == Ok::<SettingsV, SettingsError>(st@),
            decreases lines@.len() - i,
        {
            let ghost pre = all.subrange(0, i as int);
            let ghost cur = all.subrange(0, i + 1 as int);
            proof {
                assert(cur.drop_last() =~= pre);
                assert(cur.last() == all[i as int]);
            }
            st = match apply_one(st, &lines[i]) {
                Ok(next) => next,
                Err(e) => {
                    proof {
                        assert(spec_from_lines(cur) == Err::<SettingsV, SettingsError>(e));
                        lemma_from_lines_err(all, i + 1 as int);
                    }
                    return Err(e);
                },
            };
            i += 1;
        }
        proof {
            assert(all.subrange(0, all.len() as int) =~= all);
        }
        Ok(st)
    }
}

/// Applies one line, as `apply_line` describes.
fn apply_one(st: Settings, line: &String) -> (r: Result<Settings, SettingsError>)
    ensures
        match r {
            Ok(next) => apply_line(st@, line@) == Ok::<SettingsV, SettingsError>(next@),
            Err(e) => apply_line(st@, line@) == Err::<SettingsV, SettingsError>(e),
        },
{
    let chars = str_to_chars(line.as_str());
    // cut the comment
    let mut h: usize = 0;
    while h < chars.len() && chars[h] != '#'
        invariant
            h <= chars@.len(),
            chars@ == line@,
            forall|m: int| 0 <= m < h ==> chars@[m] != '#',
        decreases chars@.len() - h,
    {
        h += 1;
    }
    proof {
        lemma_first_at_is(line@, '#', h as int);
    }
    let ghost s = strip_comment(line@);
    if h == 0 {
        proof {
            assert(s.len() == 0);
        }
        return Ok(st);
    }
    // find the key/value separator
    let mut idx: usize = 0;
    while idx < h && chars[idx] != ' '
        invariant
            idx <= h,
            h <= chars@.len(),
            chars@ == line@,
            forall|m: int| 0 <= m < idx ==> chars@[m] != ' ',
        decreases h - idx,
    {
        idx += 1;
    }
    proof {
        assert(s =~= line@.subrange(0, h as int));
        assert(s.len() == h);
        assert(forall|m: int| 0 <= m < s.len() ==> s[m] == line@[m]);
        lemma_first_at_is(s, ' ', idx as int);
    }
    if idx == h {
        return Err(SettingsError::MissingSeparator);
    }
    // the key, lower-cased
    let mut key_chars: Vec<char> = Vec::new();
    let mut m: usize = 0;
    while m < idx
        invariant
            m <= idx,
            idx < h <= chars@.len(),
            chars@ == line@,
            key_chars@ == line@.subrange(0, m as int),
        decreases idx - m,
    {
        key_chars.push(chars[m]);
        proof {
            assert(line@.subrange(0, m + 1 as int) =~= line@.subrange(0, m as int).push(
                line@[m as int],
            ));
        }
        m += 1;
    }
    let key = lower_chars(&key_chars);
    proof {
        assert(key_chars@ =~= s.subrange(0, idx as int));
    }
    // the raw value, trimmed
    let mut a: usize = idx;
    while a < h && is_space_exec(chars[a])
        invariant
            idx <= a <= h,
            h <= chars@.len(),
            chars@ == line@,
            forall|m2: int| idx <= m2 < a ==> is_space(chars@[m2]),
        decreases h - a,
    {
        a += 1;
    }
    let mut b: usize = h;
    while b > a && is_space_exec(chars[b - 1])
        invariant
            a <= b <= h,
            h <= chars@.len(),
            chars@ == line@,
            forall|m2: int| b <= m2 < h ==> is_space(chars@[m2]),
        decreases b,
    {
        b -= 1;
    }
    let mut val_chars: Vec<char> = Vec::new();
    let mut m2: usize = a;
    while m2 < b
        invariant
            a <= m2 <= b,
            b <= h <= chars@.len(),
            chars@ == line@,
            val_chars@ == line@.subrange(a as int, m2 as int),
        decreases b - m2,
    {
        val_chars.push(chars[m2]);
        proof {
            assert(line@.subrange(a as int, m2 + 1 as int) =~= line@.subrange(
                a as int,
                m2 as int,
            ).push(line@[m2 as int]));
        }
        m2 += 1;
    }
    proof {
        let raw = s.subrange(idx as int, s.len() as int);
        assert(forall|m3: int| 0 <= m3 < raw.len() ==> raw[m3] == line@[idx + m3]);
        lemma_trim_start_at(raw, a - idx);
        let t = trim_start_s(raw);
        assert(t =~= line@.subrange(a as int, h as int));
        lemma_trim_end_at(t, b - a);
        assert(trim_s(raw) =~= line@.subrange(a as int, b as int));
        assert(val_chars@ == trim_s(raw));
    }
    let ghost val = trim_s(s.subrange(idx as int, s.len() as int));
    // dispatch on the key
    if chars_eq_lit(&key, "enabled") {
        let lv = lower_chars(&val_chars);
        let yes = chars_eq_lit(&lv, "yes");
        let mut next = st;
        next.enabled = yes;
        Ok(next)
    } else if chars_eq_lit(&key, "update_server_address") {
        let mut next = st;
        next.update_server_address = chars_to_string(&val_chars);
        Ok(next)
    } else if chars_eq_lit(&key, "update_server_port") {
        match parse_i32(&val_chars) {
            Some(x) => {
                let mut next = st;
                next.update_server_port = x;
                Ok(next)
            },
            None => Err(SettingsError::BadNumber),
        }
    } else if chars_eq_lit(&key, "use_authentication") {
        let lv = lower_chars(&val_chars);
        let yes = chars_eq_lit(&lv, "yes");
        let mut next = st;
        next.use_authentication = yes;
        Ok(next)
    } else if chars_eq_lit(&key, "auth_server_address") {
        let mut next = st;
        next.auth_server_address = Some(chars_to_string(&val_chars));
        Ok(next)
    } else if chars_eq_lit(&key, "auth_server_port") {
        match parse_i32(&val_chars) {
            Some(x) => {
                let mut next = st;
                next.auth_server_port = Some(x);
                Ok(next)
            },
            None => Err(SettingsError::BadNumber),
        }
    } else if chars_eq_lit(&key, "mqtt_topics") {
        let topics = split_topics(&val_chars, 0);
        proof {
            assert(val_chars@.subrange(0, val_chars@.len() as int) =~= val_chars@);
        }
        let mut next = st;
        next.mqtt_topics = topics;
        Ok(next)
    } else if chars_eq_lit(&key, "connect_retry_seconds") {
        match parse_i32(&val_chars) {
            Some(x) => {
                let mut next = st;
                next.connect_retry_seconds = x;
                Ok(next)
            },
            None => Err(SettingsError::BadNumber),
        }
    } else {
        Ok(st)
    }
}

fn is_space_exec(c: char) -> (r: bool)
    ensures
        r == is_space(c),
{
    c == '\u{0009}' || c == '\u{000A}' || c == '\u{000B}' || c == '\u{000C}' || c == '\u{000D}'
        || c == '\u{0020}' || c == '\u{0085}' || c == '\u{00A0}' || c == '\u{1680}'
        || c == '\u{2000}' || c == '\u{2001}' || c == '\u{2002}' || c == '\u{2003}'
        || c == '\u{2004}' || c == '\u{2005}' || c == '\u{2006}' || c == '\u{2007}'
        || c == '\u{2008}' || c == '\u{2009}' || c == '\u{200A}' || c == '\u{2028}'
        || c == '\u{2029}' || c == '\u{202F}' || c == '\u{205F}' || c == '\u{3000}'
}

} // verus!
