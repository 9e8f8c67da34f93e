//! Desktop-entry text: reading the `Icon=` and `StartupWMClass=`
//! keys of the `[Desktop Entry]` section, and the candidate names an
//! application id yields for icon lookup. File and directory access
//! stays in the shell outside this crate; this module only reads
//! text it is handed.

use vstd::prelude::*;

use crate::backend::{
    is_ws_char, lemma_trim_chars_back_take, lemma_trim_chars_front_skip, spec_is_ws_char,
    spec_trim_chars, spec_trim_chars_back,
};

verus! {

/// Scan state over the lines of a desktop-entry file: whether the
/// cursor stands inside the `[Desktop Entry]` section, and the keys
/// collected so far (within the section the last occurrence of a key
/// with a non-empty value wins).
pub struct DesktopScan {
    pub in_entry: bool,
    pub icon: Option<Seq<char>>,
    pub startup_wm_class: Option<Seq<char>>,
}

/// Scanning starts outside any section with no keys collected.
pub open spec fn spec_desktop_scan_init() -> DesktopScan {
    DesktopScan { in_entry: false, icon: None, startup_wm_class: None }
}

/// Whether `p` is a prefix of `s`.
pub open spec fn spec_starts_with(s: Seq<char>, p: Seq<char>) -> bool {
    s.len() >= p.len() && s.subrange(0, p.len() as int) == p
}

/// One line applied to the scan state: blank lines and `#` comments
/// change nothing; a bracketed line enters or leaves the
/// `[Desktop Entry]` section; inside the section an `Icon=` or
/// `StartupWMClass=` line with a non-empty trimmed value records it.
pub open spec fn spec_line_effect(st: DesktopScan, line: Seq<char>) -> DesktopScan {
    let t = spec_trim_chars(line);
    if t.len() == 0 {
        st
    } else if t[0] == '#' {
        st
    } else if t[0] == '[' && t.last() == ']' {
        DesktopScan { in_entry: t == "[Desktop Entry]"@, ..st }
    } else if !st.in_entry {
        st
    } else if spec_starts_with(t, "Icon="@) {
        let v = spec_trim_chars(t.skip("Icon="@.len() as int));
        if v.len() > 0 {
            DesktopScan { icon: Some(v), ..st }
        } else {
            st
        }
    } else if spec_starts_with(t, "StartupWMClass="@) {
        let v = spec_trim_chars(t.skip("StartupWMClass="@.len() as int));
        if v.len() > 0 {
            DesktopScan { startup_wm_class: Some(v), ..st }
        } else {
            st
        }
    } else {
        st
    }
}

/// Index of the first line break, or the length when there is none.
pub open spec fn spec_find_nl(s: Seq<char>) -> nat
    decreases s.len(),
{
    if s.len() == 0 {
        0
    } else if s[0] == '\n' {
        0
    } else {
        (1 + spec_find_nl(s.drop_first())) as nat
    }
}

/// The scan state after consuming all of `s`, line by line.
pub open spec fn spec_scan_text(s: Seq<char>, st: DesktopScan) -> DesktopScan
    decreases s.len(),
{
    if s.len() == 0 {
        st
    } else {
        let i = spec_find_nl(s);
        if i >= s.len() {
            spec_line_effect(st, s)
        } else {
            spec_scan_text(s.skip(i + 1 as int), spec_line_effect(st, s.take(i as int)))
        }
    }
}

/// What a whole desktop-entry text yields.
pub open spec fn spec_desktop_entry(s: Seq<char>) -> DesktopScan {
    spec_scan_text(s, spec_desktop_scan_init())
}

/// The characters of an optional owned string.
pub open spec fn spec_opt_view(o: Option<String>) -> Option<Seq<char>> {
    match o {
        Some(s) => Some(s@),
        None => None,
    }
}

proof fn lemma_find_nl_bounds(s: Seq<char>)
    ensures
        0 <= spec_find_nl(s) <= s.len(),
        spec_find_nl(s) < s.len() ==> s[spec_find_nl(s) as int] == '\n',
        forall|j: int| 0 <= j < spec_find_nl(s) ==> s[j] != '\n',
    decreases s.len(),
{
    if s.len() > 0 && s[0] != '\n' {
        lemma_find_nl_bounds(s.drop_first());
        assert(forall|j: int|
            1 <= j < spec_find_nl(s) ==> s[j] == s.drop_first()[j - 1] && s.drop_first()[j - 1]
                != '\n');
    }
}

proof fn lemma_find_nl_at(s: Seq<char>, i: int)
    requires
        0 <= i <= s.len(),
        forall|j: int| 0 <= j < i ==> s[j] != '\n',
        i < s.len() ==> s[i] == '\n',
    ensures
        spec_find_nl(s) == i,
    decreases i,
{
    if i > 0 {
        assert(s[0] != '\n');
        let t = s.drop_first();
        assert(forall|j: int| 0 <= j < i - 1 ==> t[j] == s[j + 1]);
        if i < s.len() {
            assert(t[i - 1] == s[i]);
        }
        lemma_find_nl_at(t, i - 1);
    }
}

/// Whether the line fragment `[lo, hi)` of `line` starts with `lit`.
fn range_starts_with(line: &str, lo: usize, hi: usize, lit: &str) -> (r: bool)
    requires
        lo <= hi <= line@.len(),
    ensures
        r == spec_starts_with(line@.subrange(lo as int, hi as int), lit@),
{
    let ghost t = line@.subrange(lo as int, hi as int);
    let p = lit.unicode_len();
    if hi - lo < p {
        return false;
    }
    let mut k: usize = 0;
    while k < p
        invariant
            k <= p,
            p == lit@.len(),
            lo <= hi <= line@.len(),
            hi - lo >= p,
            t == line@.subrange(lo as int, hi as int),
            forall|j: int| 0 <= j < k ==> t[j] == lit@[j],
        decreases p - k,
    {
        if line.get_char(lo + k) != lit.get_char(k) {
            proof {
                assert(t[k as int] == line@[lo + k]);
                assert(t.subrange(0, p as int)[k as int] == t[k as int]);
            }
            return false;
        }
        proof {
            assert(t[k as int] == line@[lo + k]);
        }
        k = k + 1;
    }
    proof {
        assert(t.subrange(0, p as int) =~= lit@);
    }
    true
}

/// Trim the fragment `[lo, hi)` of `line`, giving back the trimmed
/// bounds.
fn trim_range(line: &str, lo: usize, hi: usize) -> (r: (usize, usize))
    requires
        lo <= hi <= line@.len(),
    ensures
        lo <= r.0 <= r.1 <= hi,
        spec_trim_chars(line@.subrange(lo as int, hi as int)) == line@.subrange(
            r.0 as int,
            r.1 as int,
        ),
{
    let ghost s = line@;
    let ghost frag = s.subrange(lo as int, hi as int);
    let mut tlo: usize = lo;
    while tlo < hi && is_ws_char(line.get_char(tlo))
        invariant
            lo <= tlo <= hi <= s.len(),
            line@ == s,
            forall|j: int| 0 <= j < tlo - lo ==> spec_is_ws_char(frag[j]),
            frag == s.subrange(lo as int, hi as int),
        decreases hi - tlo,
    {
        proof {
            assert(frag[tlo - lo] == s[tlo as int]);
        }
        tlo = tlo + 1;
    }
    proof {
        lemma_trim_chars_front_skip(frag, tlo - lo);
        if tlo < hi {
            assert(frag.skip(tlo - lo)[0] == s[tlo as int]);
        }
        assert(spec_trim_chars(frag) == spec_trim_chars_back(frag.skip(tlo - lo)));
    }
    let ghost fragf = frag.skip(tlo - lo);
    let mut thi: usize = hi;
    while thi > tlo && is_ws_char(line.get_char(thi - 1))
        invariant
            lo <= tlo <= thi <= hi <= s.len(),
            line@ == s,
            fragf.len() == hi - tlo,
            forall|j: int| thi - tlo <= j < hi - tlo ==> spec_is_ws_char(fragf[j]),
            fragf == frag.skip(tlo - lo),
            frag == s.subrange(lo as int, hi as int),
        decreases thi,
    {
        proof {
            assert(fragf[thi - 1 - tlo] == frag[thi - 1 - lo]);
            assert(frag[thi - 1 - lo] == s[thi - 1]);
        }
        thi = thi - 1;
    }
    proof {
        lemma_trim_chars_back_take(fragf, thi - tlo);
        if thi > tlo {
            assert(fragf.take(thi - tlo).last() == s[thi - 1]);
        }
        assert(fragf.take(thi - tlo) =~= s.subrange(tlo as int, thi as int));
    }
    (tlo, thi)
}

/// One line applied to the running key collection.
fn apply_line(line: &str, in_entry: bool, icon: Option<String>, wm: Option<String>) -> (r: (
    bool,
    Option<String>,
    Option<String>,
))
    ensures
        ({
            let st2 = spec_line_effect(
                DesktopScan {
                    in_entry,
                    icon: spec_opt_view(icon),
                    startup_wm_class: spec_opt_view(wm),
                },
                line@,
            );
            r.0 == st2.in_entry && spec_opt_view(r.1) == st2.icon && spec_opt_view(r.2)
                == st2.startup_wm_class
        }),
{
    let ghost l = line@;
    let m = line.unicode_len();
    let (lo, hi) = trim_range(line, 0, m);
    proof {
        assert(l.subrange(0, m as int) =~= l);
    }
    let ghost t = l.subrange(lo as int, hi as int);
    if hi == lo {
        return (in_entry, icon, wm);
    }
    let c0 = line.get_char(lo);
    proof {
        assert(t[0] == l[lo as int]);
        assert(t.last() == l[hi - 1]);
    }
    if c0 == '#' {
        return (in_entry, icon, wm);
    }
    if c0 == '[' && line.get_char(hi - 1) == ']' {
        let header = hi - lo == 15 && range_starts_with(line, lo, hi, "[Desktop Entry]");
        proof {
            reveal_strlit("[Desktop Entry]");
            if header {
                assert(t.subrange(0, 15) =~= t);
            }
            if t == "[Desktop Entry]"@ {
                assert(t.len() == 15);
                assert(t.subrange(0, 15) =~= t);
            }
        }
        return (header, icon, wm);
    }
    if !in_entry {
        return (in_entry, icon, wm);
    }
    if range_starts_with(line, lo, hi, "Icon=") {
        proof {
            reveal_strlit("Icon=");
        }
        let (vlo, vhi) = trim_range(line, lo + 5, hi);
        proof {
            assert(t.skip("Icon="@.len() as int) =~= l.subrange(lo + 5, hi as int));
        }
        if vhi > vlo {
            let value = String::from_str(line.substring_char(vlo, vhi));
            proof {
                assert(value@ =~= l.subrange(vlo as int, vhi as int));
            }
            return (in_entry, Some(value), wm);
        }
        return (in_entry, icon, wm);
    }
    if range_starts_with(line, lo, hi, "StartupWMClass=") {
        proof {
            reveal_strlit("StartupWMClass=");
            reveal_strlit("Icon=");
        }
        let (vlo, vhi) = trim_range(line, lo + 15, hi);
        proof {
            assert(t.skip("StartupWMClass="@.len() as int) =~= l.subrange(lo + 15, hi as int));
        }
        if vhi > vlo {
            let value = String::from_str(line.substring_char(vlo, vhi));
            proof {
                assert(value@ =~= l.subrange(vlo as int, vhi as int));
            }
            return (in_entry, icon, Some(value));
        }
        return (in_entry, icon, wm);
    }
    (in_entry, icon, wm)
}

/// The name without its `.desktop` suffix, when it carries one.
pub open spec fn spec_strip_desktop_suffix(s: Seq<char>) -> Option<Seq<char>> {
    if s.len() >= 8 && s.subrange(s.len() - 8, s.len() as int) == ".desktop"@ {
        Some(s.take(s.len() - 8))
    } else {
        None
    }
}

/// The part of a name after its last dot; the whole name when it
/// has none.
pub open spec fn spec_last_dot_segment(s: Seq<char>) -> Seq<char>
    decreases s.len(),
{
    if s.len() == 0 {
        s
    } else if s.last() == '.' {
        Seq::empty()
    } else {
        spec_last_dot_segment(s.drop_last()).push(s.last())
    }
}

/// The candidate names one application id yields for icon lookup,
/// in probe order: the id itself, the id without a `.desktop`
/// suffix when it carries one, and the segment after the last dot.
pub open spec fn spec_icon_candidates(s: Seq<char>) -> Seq<Seq<char>> {
    let base = seq![s];
    let with_strip = match spec_strip_desktop_suffix(s) {
        Some(t) => base.push(t),
        None => base,
    };
    with_strip.push(spec_last_dot_segment(s))
}

proof fn lemma_last_dot_segment_at(s: Seq<char>, d: int)
    requires
        0 <= d <= s.len(),
        forall|j: int| d <= j < s.len() ==> s[j] != '.',
        d > 0 ==> s[d - 1] == '.',
    ensures
        spec_last_dot_segment(s) == s.skip(d),
    decreases s.len(),
{
    if d == s.len() {
        assert(s.skip(d).len() == 0);
        if s.len() > 0 {
            assert(s.last() == '.');
            assert(spec_last_dot_segment(s) =~= s.skip(d));
        } else {
            assert(spec_last_dot_segment(s) =~= s.skip(d));
        }
    } else {
        assert(s.last() != '.');
        let t = s.drop_last();
        assert(forall|j: int| d <= j < t.len() ==> t[j] == s[j]);
        if d > 0 {
            assert(t[d - 1] == s[d - 1]);
        }
        lemma_last_dot_segment_at(t, d);
        assert(t.skip(d).push(s.last()) =~= s.skip(d));
    }
}

/// The candidate names to probe for an application id's icon.
pub fn icon_candidates(app_id: &str) -> (r: Vec<String>)
    ensures
        r@.map_values(|c: String| c@) == spec_icon_candidates(app_id@),
{
    let ghost s = app_id@;
    let n = app_id.unicode_len();
    let mut out: Vec<String> = Vec::new();
    out.push(String::from_str(app_id));

    let has_suffix = n >= 8 && range_starts_with(app_id, n - 8, n, ".desktop");
    proof {
        if n >= 8 {
            assert(s.subrange(n - 8, n as int).subrange(0, 8) =~= s.subrange(n - 8, n as int));
            assert(has_suffix == (spec_strip_desktop_suffix(s) is Some)) by {
                reveal_strlit(".desktop");
            }
        }
    }
    if has_suffix {
        let stripped = String::from_str(app_id.substring_char(0, n - 8));
        proof {
            assert(stripped@ =~= s.take(n - 8));
        }
        out.push(stripped);
    }

    let mut d: usize = n;
    while d > 0 && app_id.get_char(d - 1) != '.'
        invariant
            d <= n,
            n == s.len(),
            app_id@ == s,
            forall|j: int| d <= j < n ==> s[j] != '.',
        decreases d,
    {
        d = d - 1;
    }
    proof {
        lemma_last_dot_segment_at(s, d as int);
    }
    let segment = String::from_str(app_id.substring_char(d, n));
    proof {
        assert(segment@ =~= s.skip(d as int));
    }
    out.push(segment);
    proof {
        assert(out@.map_values(|c: String| c@) =~= spec_icon_candidates(s));
    }
    out
}

/// Two characters equal up to ASCII case.
pub open spec fn spec_char_eq_ci(x: char, y: char) -> bool {
    x == y || ('A' <= x <= 'Z' && y as int == x as int + 32) || ('a' <= x <= 'z' && y as int == x
        as int - 32)
}

/// Two strings equal up to ASCII case.
pub open spec fn spec_eq_ignore_ascii_case(a: Seq<char>, b: Seq<char>) -> bool {
    a.len() == b.len() && forall|i: int| 0 <= i < a.len() ==> spec_char_eq_ci(a[i], b[i])
}

fn char_eq_ci(x: char, y: char) -> (r: bool)
    ensures
        r == spec_char_eq_ci(x, y),
{
    x == y || ('A' <= x && x <= 'Z' && y as u32 == x as u32 + 32) || ('a' <= x && x <= 'z' && y
        as u32 + 32 == x as u32)
}

fn str_eq_ci(a: &str, b: &str) -> (r: bool)
    ensures
        r == spec_eq_ignore_ascii_case(a@, b@),
{
    let na = a.unicode_len();
    let nb = b.unicode_len();
    if na != nb {
        return false;
    }
    let mut i: usize = 0;
    while i < na
        invariant
            i <= na,
            na == a@.len(),
            na == b@.len(),
            forall|j: int| 0 <= j < i ==> spec_char_eq_ci(a@[j], b@[j]),
        decreases na - i,
    {
        if !char_eq_ci(a.get_char(i), b.get_char(i)) {
            return false;
        }
        i = i + 1;
    }
    true
}

/// Whether a `StartupWMClass=` value matches one of an application
/// id's candidate names, compared without regard to ASCII case: the
/// rule by which a desktop entry found by directory scan is matched
/// to a window.
pub fn startup_class_matches(candidates: &Vec<String>, startup: &str) -> (r: bool)
    ensures
        r == exists|i: int|
            0 <= i < candidates@.len() && spec_eq_ignore_ascii_case(
                #[trigger] candidates@[i]@,
                startup@,
            ),
{
    let mut i: usize = 0;
    while i < candidates.len()
        invariant
            i <= candidates@.len(),
            forall|j: int|
                0 <= j < i ==> !spec_eq_ignore_ascii_case(#[trigger] candidates@[j]@, startup@),
        decreases candidates@.len() - i,
    {
        if str_eq_ci(candidates[i].as_str(), startup) {
            return true;
        }
        i = i + 1;
    }
    false
}

/// The `Icon=` and `StartupWMClass=` keys a desktop-entry text
/// yields, as the icon layer reads them.
pub struct DesktopEntryInfo {
    pub icon: Option<String>,
    pub startup_wm_class: Option<String>,
}

/// Read the `[Desktop Entry]` section of a desktop-entry text:
/// `Some` with the collected keys when at least one of `Icon=` and
/// `StartupWMClass=` was found, `None` otherwise.
pub fn parse_desktop_entry_text(content: &str) -> (r: Option<DesktopEntryInfo>)
    ensures
        ({
            let st = spec_desktop_entry(content@);
            match r {
                None => st.icon is None && st.startup_wm_class is None,
                Some(info) => (st.icon is Some || st.startup_wm_class is Some) && spec_opt_view(
                    info.icon,
                ) == st.icon && spec_opt_view(info.startup_wm_class) == st.startup_wm_class,
            }
        }),
{
    let ghost s = content@;
    let n = content.unicode_len();
    let mut in_entry = false;
    let mut icon: Option<String> = None;
    let mut wm: Option<String> = None;
    let mut pos: usize = 0;
    proof {
        assert(s.skip(0) =~= s);
    }
    while pos < n
        invariant
            pos <= n,
            n == s.len(),
            content@ == s,
            spec_scan_text(
                s.skip(pos as int),
                DesktopScan {
                    in_entry,
                    icon: spec_opt_view(icon),
                    startup_wm_class: spec_opt_view(wm),
                },
            ) == spec_desktop_entry(s),
        decreases n - pos,
    {
        let ghost rest = s.skip(pos as int);
        let mut nl: usize = pos;
        while nl < n && content.get_char(nl) != '\n'
            invariant
                pos <= nl <= n,
                n == s.len(),
                content@ == s,
                forall|j: int| pos <= j < nl ==> s[j] != '\n',
            decreases n - nl,
        {
            nl = nl + 1;
        }
        proof {
            assert(forall|j: int| 0 <= j < nl - pos ==> rest[j] == s[pos + j]);
            if nl < n {
                assert(rest[nl - pos] == s[nl as int]);
            }
            lemma_find_nl_at(rest, nl - pos);
        }
        let line = content.substring_char(pos, nl);
        proof {
            assert(line@ =~= rest.take(nl - pos));
            if nl == n {
                assert(rest.take(nl - pos) =~= rest);
            }
        }
        let stepped = apply_line(line, in_entry, icon, wm);
        in_entry = stepped.0;
        icon = stepped.1;
        wm = stepped.2;
        proof {
            if nl < n {
                assert(rest.skip(nl - pos + 1) =~= s.skip(nl + 1));
            } else {
                assert(s.skip(n as int).len() == 0);
            }
        }
        pos = if nl < n {
            nl + 1
        } else {
            n
        };
    }
    proof {
        assert(s.skip(n as int).len() == 0);
    }
    let found = matches!(icon, Some(_)) || matches!(wm, Some(_));
    if found {
        Some(DesktopEntryInfo { icon, startup_wm_class: wm })
    } else {
        None
    }
}

} // verus!
