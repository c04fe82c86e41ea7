//! The Mac's current Wi-Fi network, as the GUI embeds it in the connect QR
//! and shows it in the UI. The network name comes from the output of the
//! `airport -I` utility, which the host runs and hands over as text.

use vstd::prelude::*;
use vstd::string::*;

verus! {

/// The current Wi-Fi network.
pub struct WifiInfo {
    pub ssid: String,
    /// Cleartext key if it could be read (currently always `None` on macOS
    /// without a keychain prompt; kept in the struct for future use).
    pub password: Option<String>,
    /// QR auth tag: `"WPA"`, `"WEP"`, or `"nopass"`.
    pub auth: String,
}

/// The character that stands for each character of a hidden password.
pub open spec fn mask_char() -> char {
    '\u{2022}'
}

/// The most characters a masked password shows.
pub const MASK_MAX_LEN: usize = 12;

/// A masked password: one mask character per character of `p`, at most twelve.
pub open spec fn spec_mask(p: Seq<char>) -> Seq<char> {
    let n = if p.len() < 12 { p.len() } else { 12 };
    Seq::new(n, |i: int| mask_char())
}

/// `char::is_whitespace`: the characters with the Unicode `White_Space` property.
pub open spec fn is_white_space(c: char) -> bool {
    let u = c as u32;
    ||| 0x09 <= u <= 0x0d
    ||| u == 0x20
    ||| u == 0x85
    ||| u == 0xa0
    ||| u == 0x1680
    ||| 0x2000 <= u <= 0x200a
    ||| u == 0x2028
    ||| u == 0x2029
    ||| u == 0x202f
    ||| u == 0x205f
    ||| u == 0x3000
}

/// `s` without its leading white space.
pub open spec fn trim_start(s: Seq<char>) -> Seq<char>
    decreases s.len(),
{
    if s.len() > 0 && is_white_space(s[0]) {
        trim_start(s.drop_first())
    } else {
        s
    }
}

/// `s` without its trailing white space.
pub open spec fn trim_end(s: Seq<char>) -> Seq<char>
    decreases s.len(),
{
    if s.len() > 0 && is_white_space(s.last()) {
        trim_end(s.drop_last())
    } else {
        s
    }
}

/// `str::trim`: `s` without leading and trailing white space.
pub open spec fn trim(s: Seq<char>) -> Seq<char> {
    trim_end(trim_start(s))
}

/// The key in front of the network name in the output of `airport -I`.
pub open spec fn ssid_key() -> Seq<char> {
    seq!['S', 'S', 'I', 'D', ':', ' ']
}

/// The network name that one line of `airport -I` output names, if any:
/// the trimmed line must start with `"SSID: "`, and the trimmed rest must
/// not be empty (as in `"  SSID: MyNetwork"`).
pub open spec fn ssid_of_line(line: Seq<char>) -> Option<Seq<char>> {
    let t = trim(line);
    if t.len() >= 6 && t.take(6) == ssid_key() {
        let v = trim(t.skip(6));
        if v.len() > 0 {
            Some(v)
        } else {
            None
        }
    } else {
        None
    }
}

/// The index of the first `'\n'` in `s`, or its length when there is none.
pub open spec fn line_end(s: Seq<char>) -> nat
    decreases s.len(),
{
    if s.len() == 0 || s[0] == '\n' {
        0
    } else {
        1 + line_end(s.drop_first())
    }
}

/// The network name in `airport -I` output: the name on the first line that
/// names one. Lines are cut at `'\n'`; the `'\r'` of a `"\r\n"` ending is
/// white space, which the trim removes, so lines read as `str::lines` gives them.
pub open spec fn ssid_in_output(s: Seq<char>) -> Option<Seq<char>>
    decreases s.len(),
{
    let end = line_end(s);
    match ssid_of_line(s.take(end as int)) {
        Some(v) => Some(v),
        None => if end < s.len() {
            ssid_in_output(s.skip(end + 1int))
        } else {
            None
        },
    }
}

impl WifiInfo {
    /// The password with each character replaced by `'•'`, at most twelve of
    /// them, or `None` when there is no password.
    pub fn masked_password(&self) -> (masked: Option<String>)
        ensures
            match (self.password, masked) {
                (None, None) => true,
                (Some(p), Some(m)) => {
                    &&& m@ == spec_mask(p@)
                    &&& m@.len() == if p@.len() < 12 { p@.len() } else { 12 }
                    &&& forall|i: int| 0 <= i < m@.len() ==> m@[i] == '\u{2022}'
                },
                _ => false,
            },
    {
        match &self.password {
            None => None,
            Some(p) => {
                let count = p.as_str().unicode_len();
                let n = if count < MASK_MAX_LEN { count } else { MASK_MAX_LEN };
                let mut m = String::new();
                let mut i: usize = 0;
                proof {
                    reveal_strlit("\u{2022}");
                }
                while i < n
                    invariant
                        i <= n,
                        n == if p@.len() < 12 { p@.len() } else { 12 },
                        m@ == Seq::new(i as nat, |k: int| mask_char()),
                        "\u{2022}"@ == seq![mask_char()],
                    decreases n - i,
                {
                    m.append("\u{2022}");
                    i = i + 1;
                    assert(m@ =~= Seq::new(i as nat, |k: int| mask_char()));
                }
                Some(m)
            },
        }
    }
}

/// Whether `c` is white space, as `char::is_whitespace` decides it.
fn is_white_space_char(c: char) -> (r: bool)
    ensures
        r == is_white_space(c),
{
    let u = c as u32;
    (0x09 <= u && u <= 0x0d) || u == 0x20 || u == 0x85 || u == 0xa0 || u == 0x1680 || (0x2000
        <= u && u <= 0x200a) || u == 0x2028 || u == 0x2029 || u == 0x202f || u == 0x205f || u
        == 0x3000
}

/// The characters of `text`, one by one.
fn chars_of(text: &str) -> (cs: Vec<char>)
    ensures
        cs@ == text@,
{
    let n = text.unicode_len();
    let mut cs: Vec<char> = Vec::new();
    let mut i: usize = 0;
    while i < n
        invariant
            i <= n,
            n == text@.len(),
            cs@ == text@.take(i as int),
        decreases n - i,
    {
        cs.push(text.get_char(i));
        i = i + 1;
        assert(cs@ =~= text@.take(i as int));
    }
    assert(text@.take(n as int) =~= text@);
    cs
}

/// The bounds of `trim(cs[a..b])` inside `cs`.
fn trim_range(cs: &Vec<char>, a: usize, b: usize) -> (r: (usize, usize))
    requires
        a <= b <= cs@.len(),
    ensures
        a <= r.0 <= r.1 <= b,
        cs@.subrange(r.0 as int, r.1 as int) == trim(cs@.subrange(a as int, b as int)),
{
    let mut lo = a;
    while lo < b && is_white_space_char(cs[lo])
        invariant
            a <= lo <= b <= cs@.len(),
            trim_start(cs@.subrange(a as int, b as int)) == trim_start(
                cs@.subrange(lo as int, b as int),
            ),
        decreases b - lo,
    {
        assert(cs@.subrange(lo as int, b as int).drop_first() =~= cs@.subrange(
            lo + 1,
            b as int,
        ));
        lo = lo + 1;
    }
    assert(trim_start(cs@.subrange(lo as int, b as int)) == cs@.subrange(lo as int, b as int));
    let mut hi = b;
    while hi > lo && is_white_space_char(cs[hi - 1])
        invariant
            a <= lo <= hi <= b <= cs@.len(),
            trim_end(cs@.subrange(lo as int, b as int)) == trim_end(
                cs@.subrange(lo as int, hi as int),
            ),
        decreases hi - lo,
    {
        assert(cs@.subrange(lo as int, hi as int).drop_last() =~= cs@.subrange(
            lo as int,
            hi - 1,
        ));
        hi = hi - 1;
    }
    assert(trim_end(cs@.subrange(lo as int, hi as int)) == cs@.subrange(lo as int, hi as int));
    (lo, hi)
}

/// The bounds inside `cs` of the network name that the line `cs[a..b]` names.
fn ssid_range_of_line(cs: &Vec<char>, a: usize, b: usize) -> (r: Option<(usize, usize)>)
    requires
        a <= b <= cs@.len(),
    ensures
        match r {
            None => ssid_of_line(cs@.subrange(a as int, b as int)) is None,
            Some((lo, hi)) => lo <= hi <= cs@.len() && ssid_of_line(
                cs@.subrange(a as int, b as int),
            ) == Some(cs@.subrange(lo as int, hi as int)),
        },
{
    let (lo, hi) = trim_range(cs, a, b);
    let ghost t = cs@.subrange(lo as int, hi as int);
    if hi - lo < 6 {
        return None;
    }
    if !(cs[lo] == 'S' && cs[lo + 1] == 'S' && cs[lo + 2] == 'I' && cs[lo + 3] == 'D' && cs[lo
        + 4] == ':' && cs[lo + 5] == ' ') {
        assert(t.take(6)[0] == t[0] && t.take(6)[1] == t[1] && t.take(6)[2] == t[2]);
        assert(t.take(6)[3] == t[3] && t.take(6)[4] == t[4] && t.take(6)[5] == t[5]);
        assert(t.take(6) != ssid_key()) by {
            if t.take(6) == ssid_key() {
                assert(ssid_key()[0] == 'S' && ssid_key()[1] == 'S' && ssid_key()[2] == 'I');
                assert(ssid_key()[3] == 'D' && ssid_key()[4] == ':' && ssid_key()[5] == ' ');
            }
        }
        return None;
    }
    assert(t.take(6) =~= ssid_key());
    let (vlo, vhi) = trim_range(cs, lo + 6, hi);
    assert(t.skip(6) =~= cs@.subrange(lo + 6, hi as int));
    if vlo < vhi {
        Some((vlo, vhi))
    } else {
        None
    }
}

/// If no character of `s` before `i` is `'\n'`, and `s[i]` is `'\n'` or `i`
/// is the end, the first line of `s` ends at `i`.
proof fn lemma_line_end(s: Seq<char>, i: nat)
    requires
        i <= s.len(),
        forall|k: int| 0 <= k < i ==> s[k] != '\n',
        i == s.len() || s[i as int] == '\n',
    ensures
        line_end(s) == i,
    decreases i,
{
    if i > 0 {
        assert(s[0] != '\n');
        let t = s.drop_first();
        assert forall|k: int| 0 <= k < i - 1 implies t[k] != '\n' by {
            assert(t[k] == s[k + 1]);
        }
        if i < s.len() {
            assert(t[i - 1] == s[i as int]);
        }
        lemma_line_end(t, (i - 1) as nat);
    }
}

/// The name of the connected Wi-Fi network, read from the output of
/// `airport -I` (lines like `"  SSID: MyNetwork"`): the trimmed name on the
/// first line that starts with `"SSID: "` and names one.
pub fn current_ssid(airport_output: &str) -> (ssid: Option<String>)
    ensures
        match ssid {
            None => ssid_in_output(airport_output@) is None,
            Some(name) => ssid_in_output(airport_output@) == Some(name@),
        },
{
    let cs = chars_of(airport_output);
    let n = cs.len();
    let mut start: usize = 0;
    assert(cs@.skip(0) =~= cs@);
    loop
        invariant
            start <= n,
            n == cs@.len(),
            cs@ == airport_output@,
            ssid_in_output(cs@) == ssid_in_output(cs@.skip(start as int)),
        decreases n - start,
    {
        let mut end = start;
        while end < n && cs[end] != '\n'
            invariant
                start <= end <= n,
                n == cs@.len(),
                forall|k: int| start <= k < end ==> cs@[k] != '\n',
            decreases n - end,
        {
            end = end + 1;
        }
        let ghost rest = cs@.skip(start as int);
        proof {
            assert forall|k: int| 0 <= k < end - start implies rest[k] != '\n' by {
                assert(rest[k] == cs@[start + k]);
            }
            if end < n {
                assert(rest[end - start] == cs@[end as int]);
            }
            lemma_line_end(rest, (end - start) as nat);
            assert(rest.take(end - start) =~= cs@.subrange(start as int, end as int));
        }
        match ssid_range_of_line(&cs, start, end) {
            Some((lo, hi)) => {
                let name = airport_output.substring_char(lo, hi).to_owned();
                return Some(name);
            },
            None => {
                if end == n {
                    return None;
                }
                assert(rest.skip(end - start + 1) =~= cs@.skip(end + 1));
                start = end + 1;
            },
        }
    }
}

/// The current Wi-Fi network, from the output of `airport -I`: its name, no
/// password (reading it would need a keychain prompt), and `"WPA"` auth.
/// `None` when the output names no network.
pub fn current_wifi(airport_output: &str) -> (info: Option<WifiInfo>)
    ensures
        match info {
            None => ssid_in_output(airport_output@) is None,
            Some(w) => {
                &&& ssid_in_output(airport_output@) == Some(w.ssid@)
                &&& w.password is None
                &&& w.auth@ == seq!['W', 'P', 'A']
            },
        },
{
    match current_ssid(airport_output) {
        None => None,
        Some(ssid) => {
            let auth = "WPA".to_owned();
            proof {
                reveal_strlit("WPA");
            }
            assert(auth@ =~= seq!['W', 'P', 'A']);
            Some(WifiInfo { ssid, password: None, auth })
        },
    }
}

/// `trim_start(s)` is a suffix of `s` that does not start with white space.
proof fn lemma_trim_start_shape(s: Seq<char>)
    ensures
        trim_start(s).len() <= s.len(),
        trim_start(s) == s.skip(s.len() - trim_start(s).len()),
        trim_start(s).len() > 0 ==> !is_white_space(trim_start(s)[0]),
    decreases s.len(),
{
    if s.len() > 0 && is_white_space(s[0]) {
        lemma_trim_start_shape(s.drop_first());
        assert(s.drop_first().skip(s.drop_first().len() - trim_start(s).len()) =~= s.skip(
            s.len() - trim_start(s).len(),
        ));
    } else {
        assert(s.skip(0) =~= s);
    }
}

/// `trim_end(s)` is a prefix of `s` that does not end with white space.
proof fn lemma_trim_end_shape(s: Seq<char>)
    ensures
        trim_end(s).len() <= s.len(),
        trim_end(s) == s.take(trim_end(s).len() as int),
        trim_end(s).len() > 0 ==> !is_white_space(trim_end(s).last()),
    decreases s.len(),
{
    if s.len() > 0 && is_white_space(s.last()) {
        lemma_trim_end_shape(s.drop_last());
        assert(s.drop_last().take(trim_end(s).len() as int) =~= s.take(
            trim_end(s).len() as int,
        ));
    } else {
        assert(s.take(s.len() as int) =~= s);
    }
}

/// A trimmed text neither starts nor ends with white space.
pub proof fn lemma_trim_has_no_outer_white_space(s: Seq<char>)
    ensures
        trim(s).len() > 0 ==> !is_white_space(trim(s)[0]) && !is_white_space(trim(s).last()),
{
    let t = trim_start(s);
    lemma_trim_start_shape(s);
    lemma_trim_end_shape(t);
    if trim(s).len() > 0 {
        assert(trim(s)[0] == t[0]);
    }
}

/// The network name read from `airport -I` output is never empty and has no
/// white space at either end.
pub proof fn lemma_ssid_is_trimmed_and_non_empty(s: Seq<char>)
    ensures
        ssid_in_output(s) matches Some(v) ==> v.len() > 0 && !is_white_space(v[0])
            && !is_white_space(v.last()),
    decreases s.len(),
{
    let end = line_end(s);
    lemma_line_end_bound(s);
    match ssid_of_line(s.take(end as int)) {
        Some(v) => {
            let t = trim(s.take(end as int));
            lemma_trim_has_no_outer_white_space(t.skip(6));
        },
        None => {
            if end < s.len() {
                lemma_ssid_is_trimmed_and_non_empty(s.skip(end + 1int));
            }
        },
    }
}

/// The first line of `s` ends inside `s`.
proof fn lemma_line_end_bound(s: Seq<char>)
    ensures
        line_end(s) <= s.len(),
    decreases s.len(),
{
    if s.len() > 0 && s[0] != '\n' {
        lemma_line_end_bound(s.drop_first());
    }
}

/// A masked password shows one `'•'` per character of the password, and no
/// more than twelve.
pub proof fn lemma_mask_is_one_bullet_per_char(p: Seq<char>)
    ensures
        spec_mask(p).len() == if p.len() < 12 { p.len() } else { 12 },
        forall|i: int| 0 <= i < spec_mask(p).len() ==> spec_mask(p)[i] == '\u{2022}',
{
}

/// A line whose trimmed text starts with `"SSID: "` names the trimmed rest,
/// whatever its length, as long as that rest is not empty.
pub proof fn lemma_line_names_its_network(line: Seq<char>)
    requires
        trim(line).len() >= 6,
        trim(line).take(6) == seq!['S', 'S', 'I', 'D', ':', ' '],
        trim(trim(line).skip(6)).len() > 0,
    ensures
        ssid_of_line(line) == Some(trim(trim(line).skip(6))),
{
}

/// A text with no white space at either end is its own trim.
proof fn lemma_trim_of_trimmed(s: Seq<char>)
    requires
        s.len() > 0,
        !is_white_space(s[0]),
        !is_white_space(s.last()),
    ensures
        trim(s) == s,
{
}

/// If no character of `s` is `'\n'`, its first line is all of it.
proof fn lemma_line_end_no_newline(s: Seq<char>)
    requires
        forall|i: int| 0 <= i < s.len() ==> s[i] != '\n',
    ensures
        line_end(s) == s.len(),
{
    lemma_line_end(s, s.len());
}

/// The output `"SSID: " + n` names the network `n`, for every non-empty name
/// on one line with no white space at either end, whatever its length.
pub proof fn lemma_ssid_line_gives_its_name(n: Seq<char>)
    requires
        n.len() > 0,
        !is_white_space(n[0]),
        !is_white_space(n.last()),
        forall|i: int| 0 <= i < n.len() ==> n[i] != '\n',
    ensures
        ssid_in_output(seq!['S', 'S', 'I', 'D', ':', ' '] + n) == Some(n),
{
    let key = seq!['S', 'S', 'I', 'D', ':', ' '];
    let s = key + n;
    assert forall|i: int| 0 <= i < s.len() implies s[i] != '\n' by {
        if i >= 6 {
            assert(s[i] == n[i - 6]);
        }
    }
    lemma_line_end_no_newline(s);
    assert(s.take(s.len() as int) =~= s);
    assert(s[0] == 'S');
    assert(s.last() == n.last());
    lemma_trim_of_trimmed(s);
    assert(s.take(6) =~= key);
    assert(s.skip(6) =~= n);
    lemma_trim_of_trimmed(n);
}

/// The network comes from the first line that names one: for a first line
/// `line` (without `'\n'`) followed by `'\n'` and the rest, the output names
/// what `line` names, and otherwise what the rest names.
pub proof fn lemma_first_naming_line_wins(line: Seq<char>, rest: Seq<char>)
    requires
        forall|i: int| 0 <= i < line.len() ==> line[i] != '\n',
    ensures
        ssid_in_output(line + seq!['\n'] + rest) == match ssid_of_line(line) {
            Some(v) => Some(v),
            None => ssid_in_output(rest),
        },
{
    let s = line + seq!['\n'] + rest;
    assert forall|k: int| 0 <= k < line.len() implies s[k] != '\n' by {
        assert(s[k] == line[k]);
    }
    assert(s[line.len() as int] == '\n');
    lemma_line_end(s, line.len());
    assert(s.take(line.len() as int) =~= line);
    assert(s.skip(line.len() + 1int) =~= rest);
}

} // verus!
