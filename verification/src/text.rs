//! Character-level text repair for extracted PDF text.
//!
//! PDF text extraction sometimes hands back the bytes of a UTF-8 encoded
//! symbol as individual Latin-1 characters. `fix_utf8_corruption` detects
//! 3-byte (lead 0xE2) and 4-byte (lead 0xF0) sequences spelled out this
//! way, rebuilds the intended character, repairs ligature corruption and
//! strips control characters, keeping tab, line feed and carriage return.

use vstd::prelude::*;

verus! {

/// Relies on `Iterator::collect` for `String`: the collected string holds
/// exactly the characters of the vector, in order.
#[verifier::external_body]
pub(crate) fn chars_to_string(v: &Vec<char>) -> (s: String)
    ensures
        s@ == v@,
{
    v.iter().collect()
}

/// Relies on `str::chars`: the iterator yields exactly the characters of
/// the string, in order.
#[verifier::external_body]
pub(crate) fn str_to_chars(s: &str) -> (v: Vec<char>)
    ensures
        v@ == s@,
{
    s.chars().collect()
}

/// Relies on `char::from_u32`: it returns `Some` exactly on Unicode scalar
/// values (below the surrogate range or between it and 0x110000), and the
/// returned character is that scalar.
#[verifier::external_body]
fn char_from_u32(v: u32) -> (r: Option<char>)
    ensures
        (r is Some) <==> (v < 0xD800 || (0xE000 <= v && v < 0x110000)),
        r is Some ==> r.unwrap() == v as char && r.unwrap() as u32 == v,
{
    char::from_u32(v)
}

/// A UTF-8 continuation byte read as a character.
pub open spec fn spec_is_continuation(c: char) -> bool {
    0x80 <= c as u32 <= 0xBF
}

/// Whether a 4-byte reconstruction applies at the front of `s`: lead 0xF0,
/// a second byte that does not make the encoding overlong, then two
/// continuation bytes.
pub open spec fn spec_f0_applies(s: Seq<char>) -> bool {
    &&& s.len() >= 4
    &&& s[0] as u32 == 0xF0
    &&& 0x90 <= s[1] as u32 <= 0xBF
    &&& spec_is_continuation(s[2])
    &&& spec_is_continuation(s[3])
}

pub open spec fn spec_f0_scalar(s: Seq<char>) -> u32 {
    ((s[1] as u32 - 0x80) * 4096 + (s[2] as u32 - 0x80) * 64 + (s[3] as u32 - 0x80)) as u32
}

/// Whether a 3-byte reconstruction applies at the front of `s`: lead 0xE2
/// followed by two continuation bytes.
pub open spec fn spec_e2_applies(s: Seq<char>) -> bool {
    &&& s.len() >= 3
    &&& s[0] as u32 == 0xE2
    &&& spec_is_continuation(s[1])
    &&& spec_is_continuation(s[2])
}

pub open spec fn spec_e2_scalar(s: Seq<char>) -> u32 {
    (0x2000 + (s[1] as u32 - 0x80) * 64 + (s[2] as u32 - 0x80)) as u32
}

/// The character sequence with every spelled-out UTF-8 sequence folded back
/// into its character; anything else passes through unchanged.
pub open spec fn spec_utf8_reconstruct(s: Seq<char>) -> Seq<char>
    decreases s.len(),
{
    if s.len() == 0 {
        Seq::empty()
    } else if spec_f0_applies(s) {
        seq![spec_f0_scalar(s) as char] + spec_utf8_reconstruct(s.skip(4))
    } else if spec_e2_applies(s) {
        seq![spec_e2_scalar(s) as char] + spec_utf8_reconstruct(s.skip(3))
    } else {
        seq![s[0]] + spec_utf8_reconstruct(s.skip(1))
    }
}

/// Characters that survive control-character removal: everything from
/// space upward, plus tab, line feed and carriage return.
pub open spec fn spec_keep_char(c: char) -> bool {
    c as u32 >= 0x20 || c == '\t' || c == '\n' || c == '\r'
}

pub open spec fn spec_remove_control(s: Seq<char>) -> Seq<char>
    decreases s.len(),
{
    if s.len() == 0 {
        Seq::empty()
    } else if spec_keep_char(s[0]) {
        seq![s[0]] + spec_remove_control(s.skip(1))
    } else {
        spec_remove_control(s.skip(1))
    }
}

/// What `fix_utf8_corruption` computes: UTF-8 reconstruction, then
/// ligature repair, then control character removal.
pub open spec fn spec_fix_utf8(s: Seq<char>) -> Seq<char> {
    spec_remove_control(spec_fix_ligature(spec_utf8_reconstruct(s)))
}

fn utf8_reconstruct_chars(chars: &Vec<char>) -> (out: Vec<char>)
    ensures
        out@ == spec_utf8_reconstruct(chars@),
{
    let n = chars.len();
    let mut out: Vec<char> = Vec::new();
    let mut i: usize = 0;
    proof {
        assert(chars@.skip(0) =~= chars@);
    }
    while i < n
        invariant
            0 <= i <= n,
            n == chars@.len(),
            spec_utf8_reconstruct(chars@) == out@ + spec_utf8_reconstruct(chars@.skip(i as int)),
        decreases n - i,
    {
        let ghost rem = chars@.skip(i as int);
        proof {
            assert(rem.len() == n - i);
            assert forall|k: int| 0 <= k < rem.len() implies #[trigger] rem[k] == chars@[i + k] by {}
        }
        let c0 = chars[i];
        let cp0 = c0 as u32;
        if cp0 == 0xF0 && n - i > 3 {
            let b2 = chars[i + 1] as u32;
            let b3 = chars[i + 2] as u32;
            let b4 = chars[i + 3] as u32;
            if 0x90 <= b2 && b2 <= 0xBF && 0x80 <= b3 && b3 <= 0xBF && 0x80 <= b4 && b4 <= 0xBF {
                proof {
                    assert(spec_f0_applies(rem));
                }
                let scalar = (b2 - 0x80) * 4096 + (b3 - 0x80) * 64 + (b4 - 0x80);
                let decoded = char_from_u32(scalar);
                let d = match decoded {
                    Some(d) => d,
                    None => c0,
                };
                proof {
                    assert(scalar == spec_f0_scalar(rem));
                    assert(rem.skip(4) =~= chars@.skip(i + 4));
                    assert(out@.push(d) + spec_utf8_reconstruct(chars@.skip(i + 4))
                        =~= out@ + spec_utf8_reconstruct(rem));
                }
                out.push(d);
                i += 4;
                continue ;
            }
        }
        if cp0 == 0xE2 && n - i > 2 {
            let b2 = chars[i + 1] as u32;
            let b3 = chars[i + 2] as u32;
            if 0x80 <= b2 && b2 <= 0xBF && 0x80 <= b3 && b3 <= 0xBF {
                proof {
                    assert(spec_e2_applies(rem));
                    assert(!spec_f0_applies(rem));
                }
                let scalar = 0x2000 + (b2 - 0x80) * 64 + (b3 - 0x80);
                let decoded = char_from_u32(scalar);
                let d = match decoded {
                    Some(d) => d,
                    None => c0,
                };
                proof {
                    assert(scalar == spec_e2_scalar(rem));
                    assert(rem.skip(3) =~= chars@.skip(i + 3));
                    assert(out@.push(d) + spec_utf8_reconstruct(chars@.skip(i + 3))
                        =~= out@ + spec_utf8_reconstruct(rem));
                }
                out.push(d);
                i += 3;
                continue ;
            }
        }
        proof {
            assert(!spec_f0_applies(rem));
            assert(!spec_e2_applies(rem));
            assert(rem.skip(1) =~= chars@.skip(i + 1));
            assert(out@.push(c0) + spec_utf8_reconstruct(chars@.skip(i + 1)) =~= out@
                + spec_utf8_reconstruct(rem));
        }
        out.push(c0);
        i += 1;
    }
    proof {
        assert(chars@.skip(n as int) =~= Seq::<char>::empty());
        assert(out@ + spec_utf8_reconstruct(Seq::<char>::empty()) =~= out@);
    }
    out
}

fn remove_control_chars(chars: &Vec<char>) -> (out: Vec<char>)
    ensures
        out@ == spec_remove_control(chars@),
{
    let n = chars.len();
    let mut out: Vec<char> = Vec::new();
    let mut i: usize = 0;
    proof {
        assert(chars@.skip(0) =~= chars@);
    }
    while i < n
        invariant
            0 <= i <= n,
            n == chars@.len(),
            spec_remove_control(chars@) == out@ + spec_remove_control(chars@.skip(i as int)),
        decreases n - i,
    {
        let ghost rem = chars@.skip(i as int);
        proof {
            assert(rem[0] == chars@[i as int]);
            assert(rem.skip(1) =~= chars@.skip(i + 1));
        }
        let c = chars[i];
        if c as u32 >= 0x20 || c == '\t' || c == '\n' || c == '\r' {
            proof {
                assert(out@.push(c) + spec_remove_control(chars@.skip(i + 1)) =~= out@
                    + spec_remove_control(rem));
            }
            out.push(c);
        }
        i += 1;
    }
    proof {
        assert(chars@.skip(n as int) =~= Seq::<char>::empty());
        assert(out@ + spec_remove_control(Seq::<char>::empty()) =~= out@);
    }
    out
}

/// Remove ASCII control characters while keeping tab, line feed and
/// carriage return.
pub fn remove_control_characters(text: &str) -> (r: String)
    ensures
        r@ == spec_remove_control(text@),
{
    let chars = str_to_chars(text);
    let cleaned = remove_control_chars(&chars);
    chars_to_string(&cleaned)
}

/// Reconstruct UTF-8 sequences that were emitted as individual code
/// points, repair ligature corruption, and strip control characters.
pub fn fix_utf8_corruption(text: &str) -> (r: String)
    ensures
        r@ == spec_fix_utf8(text@),
{
    let chars = str_to_chars(text);
    let rebuilt = utf8_reconstruct_chars(&chars);
    let rebuilt_str = chars_to_string(&rebuilt);
    let repaired = fix_ligature_corruption(rebuilt_str.as_str());
    let repaired_chars = str_to_chars(repaired.as_str());
    let cleaned = remove_control_chars(&repaired_chars);
    chars_to_string(&cleaned)
}

/// Whether the character sequences are equal.
fn eq_chars(a: &Vec<char>, b: &Vec<char>) -> (r: bool)
    ensures
        r == (a@ == b@),
{
    if a.len() != b.len() {
        proof {
            assert(a@ != b@);
        }
        return false;
    }
    let mut i: usize = 0;
    while i < a.len()
        invariant
            0 <= i <= a@.len(),
            a@.len() == b@.len(),
            forall|k: int| 0 <= k < i ==> a@[k] == b@[k],
        decreases a@.len() - i,
    {
        if a[i] != b[i] {
            return false;
        }
        i += 1;
    }
    proof {
        assert(a@ =~= b@);
    }
    true
}

/// Whether `needle` occurs in `hay` starting at `at`.
pub open spec fn spec_match_at(hay: Seq<char>, needle: Seq<char>, at: int) -> bool {
    0 <= at && at + needle.len() <= hay.len() && hay.subrange(at, at + needle.len()) == needle
}

fn match_at(hay: &Vec<char>, needle: &Vec<char>, at: usize) -> (r: bool)
    requires
        at + needle@.len() <= hay@.len(),
    ensures
        r == spec_match_at(hay@, needle@, at as int),
{
    let hl = hay.len();
    let nl = needle.len();
    let mut i: usize = 0;
    while i < nl
        invariant
            0 <= i <= nl,
            nl == needle@.len(),
            hl == hay@.len(),
            at + needle@.len() <= hay@.len(),
            forall|k: int| 0 <= k < i ==> hay@[at + k] == needle@[k],
        decreases nl - i,
    {
        if hay[at + i] != needle[i] {
            proof {
                assert(hay@.subrange(at as int, at + needle@.len())[i as int] != needle@[i as int]);
            }
            return false;
        }
        i += 1;
    }
    proof {
        assert(hay@.subrange(at as int, at + needle@.len()) =~= needle@);
    }
    true
}

/// Whether `needle` occurs anywhere in `hay`.
pub open spec fn spec_contains_seq(hay: Seq<char>, needle: Seq<char>) -> bool {
    exists|k: int| spec_match_at(hay, needle, k)
}

fn contains_seq(hay: &Vec<char>, needle: &Vec<char>) -> (r: bool)
    ensures
        r == spec_contains_seq(hay@, needle@),
{
    let hl = hay.len();
    let nl = needle.len();
    if nl > hl {
        proof {
            assert forall|k: int| !spec_match_at(hay@, needle@, k) by {}
        }
        return false;
    }
    if nl == 0 {
        proof {
            assert(hay@.subrange(0, 0) =~= needle@);
            assert(spec_match_at(hay@, needle@, 0));
        }
        return true;
    }
    let mut at: usize = 0;
    while hl - at >= nl
        invariant
            nl == needle@.len(),
            hl == hay@.len(),
            0 < needle@.len() <= hay@.len(),
            0 <= at <= hay@.len(),
            forall|k: int| 0 <= k < at ==> !spec_match_at(hay@, needle@, k),
        decreases hl - at,
    {
        if match_at(hay, needle, at) {
            return true;
        }
        at += 1;
    }
    proof {
        assert forall|k: int| !spec_match_at(hay@, needle@, k) by {}
    }
    false
}

pub open spec fn spec_has_prefix(s: Seq<char>, p: Seq<char>) -> bool {
    spec_match_at(s, p, 0)
}

pub open spec fn spec_has_suffix(s: Seq<char>, p: Seq<char>) -> bool {
    spec_match_at(s, p, s.len() - p.len())
}

fn has_prefix(s: &Vec<char>, p: &Vec<char>) -> (r: bool)
    ensures
        r == spec_has_prefix(s@, p@),
{
    if p.len() > s.len() {
        return false;
    }
    match_at(s, p, 0)
}

fn has_suffix(s: &Vec<char>, p: &Vec<char>) -> (r: bool)
    ensures
        r == spec_has_suffix(s@, p@),
{
    if p.len() > s.len() {
        return false;
    }
    match_at(s, p, s.len() - p.len())
}

/// ASCII lowercase of a character sequence: `A`..`Z` shift down, all
/// other characters stay.
pub open spec fn spec_ascii_lower_char(c: char) -> char {
    if 'A' <= c <= 'Z' {
        ((c as u32) + 32) as char
    } else {
        c
    }
}

pub open spec fn spec_ascii_lower(s: Seq<char>) -> Seq<char> {
    s.map_values(|c: char| spec_ascii_lower_char(c))
}

fn ascii_lower(s: &Vec<char>) -> (r: Vec<char>)
    ensures
        r@ == spec_ascii_lower(s@),
{
    let mut out: Vec<char> = Vec::new();
    let mut i: usize = 0;
    while i < s.len()
        invariant
            0 <= i <= s@.len(),
            out@.len() == i,
            forall|k: int| 0 <= k < i ==> out@[k] == spec_ascii_lower_char(s@[k]),
        decreases s@.len() - i,
    {
        let c = s[i];
        if 'A' <= c && c <= 'Z' {
            let code = (c as u32) + 32;
            let lc = match char_from_u32(code) {
                Some(l) => l,
                None => c,
            };
            proof {
                assert(c as u32 >= 0x41 && c as u32 <= 0x5a);
            }
            out.push(lc);
        } else {
            out.push(c);
        }
        i += 1;
    }
    proof {
        assert(out@ =~= spec_ascii_lower(s@));
    }
    out
}

/// `s` with every non-overlapping occurrence of `pat` replaced by `to`,
/// scanning left to right.
pub open spec fn spec_replace(s: Seq<char>, pat: Seq<char>, to: Seq<char>) -> Seq<char>
    decreases s.len(),
{
    if pat.len() == 0 || s.len() < pat.len() {
        s
    } else if s.take(pat.len() as int) == pat {
        to + spec_replace(s.skip(pat.len() as int), pat, to)
    } else {
        seq![s[0]] + spec_replace(s.skip(1), pat, to)
    }
}

fn replace_lit(s: &Vec<char>, pat: &Vec<char>, to: &Vec<char>) -> (r: Vec<char>)
    requires
        pat@.len() > 0,
    ensures
        r@ == spec_replace(s@, pat@, to@),
{
    let n = s.len();
    let m = pat.len();
    let mut out: Vec<char> = Vec::new();
    let mut i: usize = 0;
    proof {
        assert(s@.skip(0) =~= s@);
    }
    while i < n
        invariant
            0 <= i <= n,
            n == s@.len(),
            m == pat@.len() > 0,
            spec_replace(s@, pat@, to@) == out@ + spec_replace(s@.skip(i as int), pat@, to@),
        decreases n - i,
    {
        let ghost rem = s@.skip(i as int);
        proof {
            assert forall|k: int| 0 <= k < rem.len() implies #[trigger] rem[k] == s@[i + k] by {}
        }
        if n - i >= m && match_at(s, pat, i) {
            proof {
                assert(rem.take(m as int) =~= s@.subrange(i as int, i + m));
                assert(rem.skip(m as int) =~= s@.skip(i + m));
            }
            let mut k: usize = 0;
            let ghost mid = out@;
            while k < to.len()
                invariant
                    0 <= k <= to@.len(),
                    out@ == mid + to@.take(k as int),
                decreases to@.len() - k,
            {
                out.push(to[k]);
                proof {
                    assert(out@ =~= mid + to@.take(k + 1));
                }
                k += 1;
            }
            proof {
                assert(to@.take(to@.len() as int) =~= to@);
                assert(mid + to@ + spec_replace(s@.skip(i + m), pat@, to@) =~= mid + spec_replace(
                    rem,
                    pat@,
                    to@,
                ));
            }
            i += m;
        } else {
            proof {
                if rem.len() >= m {
                    assert(rem.take(m as int) =~= s@.subrange(i as int, i + m));
                    assert(rem.take(m as int) != pat@);
                }
                assert(rem.skip(1) =~= s@.skip(i + 1));
                assert(out@.push(s@[i as int]) + spec_replace(s@.skip(i + 1), pat@, to@) =~= out@
                    + spec_replace(rem, pat@, to@));
            }
            out.push(s[i]);
            i += 1;
        }
    }
    proof {
        assert(s@.skip(n as int) =~= Seq::<char>::empty());
        assert(out@ + spec_replace(Seq::<char>::empty(), pat@, to@) =~= out@);
    }
    out
}

/// The ligature a corrupted symbol most likely stood for, inferred from
/// the word around it: known flow-words give `fl`, known
/// effective/office-style words give `ff`, common endings and prefixes
/// give `fi`, and otherwise the symbol itself decides, defaulting to
/// `fi`.
pub open spec fn spec_determine_ligature(p: Seq<char>, s: Seq<char>, sym: Seq<char>) -> Seq<char> {
    let fc = spec_ascii_lower(p + s);
    if s == "ows"@ || s == "ow"@ || (spec_contains_seq(fc, "work"@) && spec_has_prefix(s, "ow"@))
        || (spec_contains_seq(fc, "over"@) && spec_has_prefix(s, "ow"@)) {
        "fl"@
    } else if (spec_contains_seq(fc, "e"@) && spec_has_prefix(s, "ective"@)) || (spec_contains_seq(
        fc,
        "o"@,
    ) && spec_has_prefix(s, "ice"@)) || (spec_contains_seq(fc, "di"@) && spec_has_prefix(
        s,
        "erent"@,
    )) || (spec_contains_seq(fc, "sta"@) && spec_has_prefix(s, "ing"@)) {
        "ff"@
    } else if spec_has_suffix(s, "ed"@) || spec_has_suffix(s, "es"@) || spec_has_suffix(s, "ng"@)
        || spec_has_suffix(s, "er"@) || spec_has_suffix(s, "le"@) || spec_has_suffix(s, "al"@)
        || spec_has_prefix(fc, "uni"@) || spec_has_prefix(fc, "simpli"@) || spec_has_prefix(
        fc,
        "identi"@,
    ) || spec_has_prefix(fc, "speci"@) || spec_has_prefix(fc, "bene"@) || spec_has_prefix(
        fc,
        "signi"@,
    ) || spec_has_prefix(fc, "classi"@) || spec_has_prefix(fc, "certi"@) {
        "fi"@
    } else if sym == "!"@ {
        if s == "ows"@ || spec_has_prefix(s, "ow"@) {
            "fl"@
        } else {
            "fi"@
        }
    } else if sym == "&"@ || sym == "\u{22}"@ {
        "ff"@
    } else {
        "fi"@
    }
}

/// Infer the ligature behind a corruption symbol from its word context.
pub fn determine_ligature_from_context(prefix: &str, suffix: &str, symbol: &str) -> (r:
    &'static str)
    ensures
        r@ == spec_determine_ligature(prefix@, suffix@, symbol@),
{
    let pc = str_to_chars(prefix);
    let sc = str_to_chars(suffix);
    let symc = str_to_chars(symbol);
    let mut joined = pc;
    let mut i: usize = 0;
    let ghost pv = prefix@;
    while i < sc.len()
        invariant
            0 <= i <= sc@.len(),
            sc@ == suffix@,
            joined@ == pv + sc@.take(i as int),
        decreases sc@.len() - i,
    {
        joined.push(sc[i]);
        proof {
            assert(joined@ =~= pv + sc@.take(i + 1));
        }
        i += 1;
    }
    proof {
        assert(sc@.take(sc@.len() as int) =~= sc@);
    }
    let fc = ascii_lower(&joined);
    let lit_ows = str_to_chars("ows");
    let lit_ow = str_to_chars("ow");
    if eq_chars(&sc, &lit_ows) || eq_chars(&sc, &lit_ow) || (contains_seq(&fc, &str_to_chars(
        "work",
    )) && has_prefix(&sc, &lit_ow)) || (contains_seq(&fc, &str_to_chars("over")) && has_prefix(
        &sc,
        &lit_ow,
    )) {
        return "fl";
    }
    if (contains_seq(&fc, &str_to_chars("e")) && has_prefix(&sc, &str_to_chars("ective"))) || (
    contains_seq(&fc, &str_to_chars("o")) && has_prefix(&sc, &str_to_chars("ice"))) || (
    contains_seq(&fc, &str_to_chars("di")) && has_prefix(&sc, &str_to_chars("erent"))) || (
    contains_seq(&fc, &str_to_chars("sta")) && has_prefix(&sc, &str_to_chars("ing"))) {
        return "ff";
    }
    if has_suffix(&sc, &str_to_chars("ed")) || has_suffix(&sc, &str_to_chars("es")) || has_suffix(
        &sc,
        &str_to_chars("ng"),
    ) || has_suffix(&sc, &str_to_chars("er")) || has_suffix(&sc, &str_to_chars("le"))
        || has_suffix(&sc, &str_to_chars("al")) || has_prefix(&fc, &str_to_chars("uni"))
        || has_prefix(&fc, &str_to_chars("simpli")) || has_prefix(&fc, &str_to_chars("identi"))
        || has_prefix(&fc, &str_to_chars("speci")) || has_prefix(&fc, &str_to_chars("bene"))
        || has_prefix(&fc, &str_to_chars("signi")) || has_prefix(&fc, &str_to_chars("classi"))
        || has_prefix(&fc, &str_to_chars("certi")) {
        return "fi";
    }
    if eq_chars(&symc, &str_to_chars("!")) {
        if eq_chars(&sc, &lit_ows) || has_prefix(&sc, &lit_ow) {
            return "fl";
        } else {
            return "fi";
        }
    }
    if eq_chars(&symc, &str_to_chars("&")) || eq_chars(&symc, &str_to_chars("\u{22}")) {
        return "ff";
    }
    "fi"
}

/// What the context-aware regular expression pass returns: each
/// letters-symbol-letters occurrence rewritten with the inferred
/// ligature. The result depends on the input characters alone.
pub uninterp spec fn contextual_repair(s: Seq<char>) -> Seq<char>;

/// What the standalone-symbol regular expression pass returns: each
/// word-initial symbol-plus-letters occurrence rewritten from the
/// standalone table. The result depends on the input characters alone.
pub uninterp spec fn standalone_repair(s: Seq<char>) -> Seq<char>;

/// The replacement for one contextual corruption match: the prefix, the
/// ligature inferred from the context, and the suffix.
pub fn contextual_replacement(prefix: &str, symbol: &str, suffix: &str) -> (r: String)
    ensures
        r@ == prefix@ + spec_determine_ligature(prefix@, suffix@, symbol@) + suffix@,
{
    let lig = determine_ligature_from_context(prefix, suffix, symbol);
    let mut out = String::new();
    out.append(prefix);
    out.append(lig);
    out.append(suffix);
    proof {
        assert(Seq::<char>::empty() + prefix@ + lig@ + suffix@ =~= prefix@
            + spec_determine_ligature(prefix@, suffix@, symbol@) + suffix@);
    }
    out
}

/// The replacement for one standalone corruption match, from the fixed
/// table of known words; unknown suffixes get the symbol's default
/// ligature.
pub open spec fn spec_standalone_replacement(sym: Seq<char>, suffix: Seq<char>) -> Seq<char> {
    if sym == "#"@ && suffix == "t"@ {
        "fit"@
    } else if sym == "#"@ && suffix == "rst"@ {
        "first"@
    } else if sym == "#"@ && suffix == "le"@ {
        "file"@
    } else if sym == "#"@ && suffix == "nd"@ {
        "find"@
    } else if sym == "#"@ && suffix == "nal"@ {
        "final"@
    } else if sym == "#"@ && suffix == "ne"@ {
        "fine"@
    } else if sym == "!"@ && suffix == "ow"@ {
        "flow"@
    } else if sym == "!"@ && suffix == "ows"@ {
        "flows"@
    } else if sym == "\u{22}"@ && suffix == "ect"@ {
        "fect"@
    } else if sym == "\u{22}"@ && suffix == "ective"@ {
        "fective"@
    } else if sym == "#"@ {
        "fi"@ + suffix
    } else if sym == "!"@ {
        "fl"@ + suffix
    } else if sym == "\u{22}"@ {
        "ff"@ + suffix
    } else {
        "fi"@ + suffix
    }
}

pub fn standalone_replacement(symbol: &str, suffix: &str) -> (r: String)
    ensures
        r@ == spec_standalone_replacement(symbol@, suffix@),
{
    let symc = str_to_chars(symbol);
    let sc = str_to_chars(suffix);
    let hash = str_to_chars("#");
    let bang = str_to_chars("!");
    let quot = str_to_chars("\u{22}");
    if eq_chars(&symc, &hash) && eq_chars(&sc, &str_to_chars("t")) {
        return String::from_str("fit");
    }
    if eq_chars(&symc, &hash) && eq_chars(&sc, &str_to_chars("rst")) {
        return String::from_str("first");
    }
    if eq_chars(&symc, &hash) && eq_chars(&sc, &str_to_chars("le")) {
        return String::from_str("file");
    }
    if eq_chars(&symc, &hash) && eq_chars(&sc, &str_to_chars("nd")) {
        return String::from_str("find");
    }
    if eq_chars(&symc, &hash) && eq_chars(&sc, &str_to_chars("nal")) {
        return String::from_str("final");
    }
    if eq_chars(&symc, &hash) && eq_chars(&sc, &str_to_chars("ne")) {
        return String::from_str("fine");
    }
    if eq_chars(&symc, &bang) && eq_chars(&sc, &str_to_chars("ow")) {
        return String::from_str("flow");
    }
    if eq_chars(&symc, &bang) && eq_chars(&sc, &str_to_chars("ows")) {
        return String::from_str("flows");
    }
    if eq_chars(&symc, &quot) && eq_chars(&sc, &str_to_chars("ect")) {
        return String::from_str("fect");
    }
    if eq_chars(&symc, &quot) && eq_chars(&sc, &str_to_chars("ective")) {
        return String::from_str("fective");
    }
    let head: &'static str = if eq_chars(&symc, &hash) {
        "fi"
    } else if eq_chars(&symc, &bang) {
        "fl"
    } else if eq_chars(&symc, &quot) {
        "ff"
    } else {
        "fi"
    };
    let mut out = String::from_str(head);
    out.append(suffix);
    out
}

/// Relies on `regex::Regex::replace_all` with the contextual corruption
/// pattern (letters, an optional separator, a corruption symbol, then
/// letters), each match rewritten by `contextual_replacement`; the result
/// is a function of the input characters alone, named `contextual_repair`.
#[verifier::external_body]
fn replace_contextual(s: &str) -> (r: String)
    ensures
        r@ == contextual_repair(s@),
        s@.len() == 0 ==> r@.len() == 0,
{
    let pattern = regex::Regex::new(r#"([a-zA-Z]+)[\s-]*([!@#$%^&*'\x22])([a-zA-Z]+)"#).unwrap();
    pattern.replace_all(s, |caps: &regex::Captures| {
        contextual_replacement(&caps[1], &caps[2], &caps[3])
    }).to_string()
}

/// Relies on `regex::Regex::replace_all` with the standalone corruption
/// pattern (a corruption symbol then lower-case letters at a word
/// boundary), each match rewritten by `standalone_replacement`; the
/// result is a function of the input characters alone, named
/// `standalone_repair`.
#[verifier::external_body]
fn replace_standalone(s: &str) -> (r: String)
    ensures
        r@ == standalone_repair(s@),
        s@.len() == 0 ==> r@.len() == 0,
{
    let pattern = regex::Regex::new(r#"\b([!@#$%^&*'\x22])([a-z]+)\b"#).unwrap();
    pattern.replace_all(s, |caps: &regex::Captures| {
        standalone_replacement(&caps[1], &caps[2])
    }).to_string()
}

/// What `fix_ligature_corruption` computes: the contextual regular
/// expression pass, the four fixed literal replacements, then the
/// standalone regular expression pass.
pub open spec fn spec_fix_ligature(s: Seq<char>) -> Seq<char> {
    standalone_repair(
        spec_replace(
            spec_replace(
                spec_replace(
                    spec_replace(contextual_repair(s), "#t"@, "fit"@),
                    "!ows"@,
                    "flows"@,
                ),
                "\u{22}ective"@,
                "ffective"@,
            ),
            "e$- ciently"@,
            "efficiently"@,
        ),
    )
}

/// Repair ligature corruption: contextual matches are rewritten with the
/// inferred ligature, a few known whole words are fixed directly, and
/// standalone symbol-plus-word corruption falls back to a fixed table.
pub fn fix_ligature_corruption(text: &str) -> (r: String)
    ensures
        r@ == spec_fix_ligature(text@),
{
    proof {
        reveal_strlit("#t");
        reveal_strlit("!ows");
        reveal_strlit("\u{22}ective");
        reveal_strlit("e$- ciently");
    }
    let pass1 = replace_contextual(text);
    let c1 = str_to_chars(pass1.as_str());
    let r1 = replace_lit(&c1, &str_to_chars("#t"), &str_to_chars("fit"));
    let r2 = replace_lit(&r1, &str_to_chars("!ows"), &str_to_chars("flows"));
    let r3 = replace_lit(&r2, &str_to_chars("\u{22}ective"), &str_to_chars("ffective"));
    let r4 = replace_lit(&r3, &str_to_chars("e$- ciently"), &str_to_chars("efficiently"));
    let mid = chars_to_string(&r4);
    replace_standalone(mid.as_str())
}

} // verus!
