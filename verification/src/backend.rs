//! Backend adapter logic: normalizing two structurally different
//! compositor control protocols into one window/focus model.
//!
//! The structured-IPC backend answers typed replies over its control
//! socket; the CLI backend answers JSON text. All socket and process
//! I/O lives in the shell outside this crate; what stands here is
//! everything that decides: reply classification, JSON-record
//! normalization, address parsing and encoding, and focused-output
//! selection. Fractional output scales cross the boundary as
//! thousandths, so the floor-at-1 rounding is carried out — and
//! proved — on integers.

use vstd::prelude::*;

use crate::types::{AdapterError, BackendWindow};

verus! {

/// ASCII whitespace, as both ends of an address string are trimmed.
pub open spec fn spec_is_ws_char(c: char) -> bool {
    c == ' ' || c == '\t' || c == '\n' || c == '\r' || c == '\u{b}' || c == '\u{c}'
}

/// `s` without leading ASCII whitespace.
pub open spec fn spec_trim_chars_front(s: Seq<char>) -> Seq<char>
    decreases s.len(),
{
    if s.len() > 0 && spec_is_ws_char(s[0]) {
        spec_trim_chars_front(s.drop_first())
    } else {
        s
    }
}

/// `s` without trailing ASCII whitespace.
pub open spec fn spec_trim_chars_back(s: Seq<char>) -> Seq<char>
    decreases s.len(),
{
    if s.len() > 0 && spec_is_ws_char(s.last()) {
        spec_trim_chars_back(s.drop_last())
    } else {
        s
    }
}

/// `s` trimmed of ASCII whitespace on both ends.
pub open spec fn spec_trim_chars(s: Seq<char>) -> Seq<char> {
    spec_trim_chars_back(spec_trim_chars_front(s))
}

/// `s` with every leading `0x` marker removed, as the CLI backend's
/// address prefix is stripped (repeatedly, so `0x0x1` reads as `1`).
pub open spec fn spec_strip_0x(s: Seq<char>) -> Seq<char>
    decreases s.len(),
{
    if s.len() >= 2 && s[0] == '0' && s[1] == 'x' {
        spec_strip_0x(s.skip(2))
    } else {
        s
    }
}

/// Value of one hexadecimal digit, either case.
pub open spec fn spec_hex_digit(c: char) -> Option<int> {
    if '0' <= c <= '9' {
        Some(c as int - '0' as int)
    } else if 'a' <= c <= 'f' {
        Some(10 + c as int - 'a' as int)
    } else if 'A' <= c <= 'F' {
        Some(10 + c as int - 'A' as int)
    } else {
        None
    }
}

/// Folds hexadecimal digits left to right onto `acc`; fails on a
/// non-digit or once the value would no longer fit in 64 bits.
pub open spec fn spec_hex_fold(s: Seq<char>, acc: int) -> Option<int>
    decreases s.len(),
{
    if s.len() == 0 {
        Some(acc)
    } else {
        match spec_hex_digit(s[0]) {
            None => None,
            Some(d) => if acc * 16 + d > u64::MAX {
                None
            } else {
                spec_hex_fold(s.drop_first(), acc * 16 + d)
            },
        }
    }
}

/// A bare hexadecimal number: an optional leading plus sign, then
/// at least one digit, and a value that fits in 64 bits.
pub open spec fn spec_parse_hex(s: Seq<char>) -> Option<int> {
    let t = if s.len() > 0 && s[0] == '+' {
        s.drop_first()
    } else {
        s
    };
    if t.len() == 0 {
        None
    } else {
        spec_hex_fold(t, 0)
    }
}

/// An address-like identifier as the CLI backend prints it:
/// whitespace-trimmed, any `0x` prefix stripped, the rest a 64-bit
/// hexadecimal number.
pub open spec fn spec_parse_hypr_address(s: Seq<char>) -> Option<u64> {
    match spec_parse_hex(spec_strip_0x(spec_trim_chars(s))) {
        None => None,
        Some(v) => Some(v as u64),
    }
}

pub(crate) fn is_ws_char(c: char) -> (r: bool)
    ensures
        r == spec_is_ws_char(c),
{
    c == ' ' || c == '\t' || c == '\n' || c == '\r' || c == '\u{b}' || c == '\u{c}'
}

fn hex_digit(c: char) -> (r: Option<u64>)
    ensures
        match spec_hex_digit(c) {
            Some(d) => r == Some(d as u64),
            None => r is None,
        },
{
    if '0' <= c && c <= '9' {
        Some(c as u64 - '0' as u64)
    } else if 'a' <= c && c <= 'f' {
        Some(10 + c as u64 - 'a' as u64)
    } else if 'A' <= c && c <= 'F' {
        Some(10 + c as u64 - 'A' as u64)
    } else {
        None
    }
}

pub(crate) proof fn lemma_trim_chars_front_skip(s: Seq<char>, i: int)
    requires
        0 <= i <= s.len(),
        forall|j: int| 0 <= j < i ==> spec_is_ws_char(s[j]),
    ensures
        spec_trim_chars_front(s) == spec_trim_chars_front(s.skip(i)),
    decreases i,
{
    if i == 0 {
        assert(s.skip(0) =~= s);
    } else {
        lemma_trim_chars_front_skip(s, i - 1);
        assert(s.skip(i - 1).len() > 0);
        assert(s.skip(i - 1)[0] == s[i - 1]);
        assert(s.skip(i - 1).drop_first() =~= s.skip(i));
    }
}

pub(crate) proof fn lemma_trim_chars_back_take(s: Seq<char>, i: int)
    requires
        0 <= i <= s.len(),
        forall|j: int| i <= j < s.len() ==> spec_is_ws_char(s[j]),
    ensures
        spec_trim_chars_back(s) == spec_trim_chars_back(s.take(i)),
    decreases s.len() - i,
{
    if i == s.len() {
        assert(s.take(i) =~= s);
    } else {
        lemma_trim_chars_back_take(s, i + 1);
        assert(s.take(i + 1).len() > 0);
        assert(s.take(i + 1).last() == s[i]);
        assert(s.take(i + 1).drop_last() =~= s.take(i));
    }
}

proof fn lemma_strip_0x_skip(s: Seq<char>, i: int)
    requires
        0 <= i <= s.len(),
        i % 2 == 0,
        forall|j: int| 0 <= j < i ==> s[j] == (if j % 2 == 0 { '0' } else { 'x' }),
    ensures
        spec_strip_0x(s) == spec_strip_0x(s.skip(i)),
    decreases i,
{
    if i == 0 {
        assert(s.skip(0) =~= s);
    } else {
        lemma_strip_0x_skip(s, i - 2);
        assert(s.skip(i - 2).len() >= 2);
        assert(s.skip(i - 2)[0] == s[i - 2]);
        assert(s.skip(i - 2)[1] == s[i - 1]);
        assert((i - 2) % 2 == 0 && (i - 1) % 2 == 1);
        assert(s.skip(i - 2).skip(2) =~= s.skip(i));
    }
}

/// Parse an address-like identifier (hexadecimal, optional `0x`
/// prefix, optional surrounding whitespace) into the window id it
/// encodes; anything else yields `None` and the entry is skipped.
pub fn parse_hypr_address(value: &str) -> (r: Option<u64>)
    ensures
        r == spec_parse_hypr_address(value@),
{
    let ghost s = value@;
    let n = value.unicode_len();
    let mut lo: usize = 0;
    while lo < n && is_ws_char(value.get_char(lo))
        invariant
            lo <= n,
            n == s.len(),
            value@ == s,
            forall|j: int| 0 <= j < lo ==> spec_is_ws_char(s[j]),
        decreases n - lo,
    {
        lo = lo + 1;
    }
    proof {
        lemma_trim_chars_front_skip(s, lo as int);
        if lo < n {
            assert(s.skip(lo as int)[0] == s[lo as int]);
        }
        assert(spec_trim_chars_front(s) == s.skip(lo as int));
    }
    let mut hi: usize = n;
    while hi > lo && is_ws_char(value.get_char(hi - 1))
        invariant
            lo <= hi <= n,
            n == s.len(),
            value@ == s,
            forall|j: int| hi <= j < n ==> spec_is_ws_char(s[j]),
        decreases hi,
    {
        hi = hi - 1;
    }
    let ghost trimmed = s.skip(lo as int).take(hi - lo);
    proof {
        lemma_trim_chars_back_take(s.skip(lo as int), hi - lo);
        if hi > lo {
            assert(s.skip(lo as int).take(hi - lo).last() == s[hi - 1]);
        }
        assert(spec_trim_chars(s) == trimmed);
        assert(forall|j: int| 0 <= j < hi - lo ==> trimmed[j] == s[lo + j]);
    }

    let mut st: usize = lo;
    while hi - st >= 2 && value.get_char(st) == '0' && value.get_char(st + 1) == 'x'
        invariant
            lo <= st <= hi <= n,
            n == s.len(),
            value@ == s,
            (st - lo) % 2 == 0,
            forall|j: int|
                0 <= j < st - lo ==> trimmed[j] == (if j % 2 == 0 {
                    '0'
                } else {
                    'x'
                }),
            trimmed == s.skip(lo as int).take(hi - lo),
            forall|j: int| 0 <= j < hi - lo ==> trimmed[j] == s[lo + j],
        decreases hi - st,
    {
        st = st + 2;
    }
    let ghost stripped = trimmed.skip(st - lo);
    proof {
        lemma_strip_0x_skip(trimmed, st - lo);
        if hi - st >= 2 {
            assert(trimmed.skip(st - lo)[0] == s[st as int]);
            assert(trimmed.skip(st - lo)[1] == s[st + 1]);
        }
        assert(spec_strip_0x(trimmed) == stripped);
        assert(forall|j: int| 0 <= j < hi - st ==> stripped[j] == s[st + j]);
    }

    let mut di: usize = st;
    if di < hi && value.get_char(di) == '+' {
        di = di + 1;
    }
    let ghost digits = stripped.skip(di - st);
    proof {
        if st < hi && s[st as int] == '+' {
            assert(stripped.drop_first() =~= digits);
        } else {
            assert(stripped =~= digits);
        }
        assert(spec_parse_hex(stripped) == if digits.len() == 0 {
            None::<int>
        } else {
            spec_hex_fold(digits, 0)
        });
        assert(forall|j: int| 0 <= j < hi - di ==> digits[j] == s[di + j]);
    }
    if di == hi {
        return None;
    }

    let mut acc: u64 = 0;
    let mut k: usize = di;
    proof {
        assert(digits.skip(0) =~= digits);
    }
    while k < hi
        invariant
            di <= k <= hi <= n,
            n == s.len(),
            value@ == s,
            digits.len() == hi - di,
            forall|j: int| 0 <= j < hi - di ==> digits[j] == s[di + j],
            spec_hex_fold(digits, 0) == spec_hex_fold(digits.skip(k - di), acc as int),
            spec_parse_hex(spec_strip_0x(spec_trim_chars(s))) == spec_hex_fold(digits, 0),
        decreases hi - k,
    {
        let c = value.get_char(k);
        proof {
            assert(digits.skip(k - di).len() > 0);
            assert(digits.skip(k - di)[0] == s[k as int]);
        }
        match hex_digit(c) {
            None => {
                return None;
            },
            Some(d) => {
                if acc > (u64::MAX - d) / 16 {
                    proof {
                        assert(acc * 16 + d > u64::MAX) by (nonlinear_arith)
                            requires
                                acc > (u64::MAX - d) / 16,
                                0 <= d < 16,
                                acc >= 0,
                        ;
                    }
                    return None;
                }
                proof {
                    assert(acc * 16 + d <= u64::MAX) by (nonlinear_arith)
                        requires
                            acc <= (u64::MAX - d) / 16,
                            0 <= d < 16,
                            acc >= 0,
                    ;
                    assert(digits.skip(k - di).drop_first() =~= digits.skip(k + 1 - di));
                }
                acc = acc * 16 + d;
            },
        }
        k = k + 1;
    }
    proof {
        assert(digits.skip(hi - di) =~= Seq::<char>::empty());
        assert(spec_hex_fold(Seq::<char>::empty(), acc as int) == Some(acc as int));
    }
    Some(acc)
}

/// The character printing one hexadecimal digit, lower case.
pub open spec fn spec_hex_digit_char(d: int) -> char {
    if d == 0 {
        '0'
    } else if d == 1 {
        '1'
    } else if d == 2 {
        '2'
    } else if d == 3 {
        '3'
    } else if d == 4 {
        '4'
    } else if d == 5 {
        '5'
    } else if d == 6 {
        '6'
    } else if d == 7 {
        '7'
    } else if d == 8 {
        '8'
    } else if d == 9 {
        '9'
    } else if d == 10 {
        'a'
    } else if d == 11 {
        'b'
    } else if d == 12 {
        'c'
    } else if d == 13 {
        'd'
    } else if d == 14 {
        'e'
    } else {
        'f'
    }
}

/// `v` printed as minimal lower-case hexadecimal (so `0` prints as
/// `0`).
pub open spec fn spec_hex_str(v: int) -> Seq<char>
    decreases v,
{
    if v < 16 {
        seq![spec_hex_digit_char(v)]
    } else {
        spec_hex_str(v / 16).push(spec_hex_digit_char(v % 16))
    }
}

fn hex_digit_str(d: u64) -> (r: &'static str)
    requires
        d < 16,
    ensures
        r@ == seq![spec_hex_digit_char(d as int)],
{
    proof {
        reveal_strlit("0");
        reveal_strlit("1");
        reveal_strlit("2");
        reveal_strlit("3");
        reveal_strlit("4");
        reveal_strlit("5");
        reveal_strlit("6");
        reveal_strlit("7");
        reveal_strlit("8");
        reveal_strlit("9");
        reveal_strlit("a");
        reveal_strlit("b");
        reveal_strlit("c");
        reveal_strlit("d");
        reveal_strlit("e");
        reveal_strlit("f");
    }
    let r = if d == 0 {
        "0"
    } else if d == 1 {
        "1"
    } else if d == 2 {
        "2"
    } else if d == 3 {
        "3"
    } else if d == 4 {
        "4"
    } else if d == 5 {
        "5"
    } else if d == 6 {
        "6"
    } else if d == 7 {
        "7"
    } else if d == 8 {
        "8"
    } else if d == 9 {
        "9"
    } else if d == 10 {
        "a"
    } else if d == 11 {
        "b"
    } else if d == 12 {
        "c"
    } else if d == 13 {
        "d"
    } else if d == 14 {
        "e"
    } else {
        "f"
    };
    proof {
        assert(r@ =~= seq![spec_hex_digit_char(d as int)]);
    }
    r
}

fn push_hex(s: &mut String, v: u64)
    ensures
        final(s)@ == old(s)@ + spec_hex_str(v as int),
    decreases v,
{
    if v < 16 {
        s.append(hex_digit_str(v));
    } else {
        push_hex(s, v / 16);
        s.append(hex_digit_str(v % 16));
        proof {
            assert((old(s)@ + spec_hex_str(v as int / 16)) + seq![
                spec_hex_digit_char(v as int % 16),
            ] =~= old(s)@ + spec_hex_str(v as int));
        }
    }
}

/// The dispatch argument the CLI backend's focus command takes:
/// `address:0x` followed by the id in minimal lower-case
/// hexadecimal.
pub fn hypr_focus_address(id: u64) -> (r: String)
    ensures
        r@ == "address:0x"@ + spec_hex_str(id as int),
{
    let mut s = String::from_str("address:0x");
    push_hex(&mut s, id);
    s
}

/// One record of the CLI backend's window-list query, reduced to the
/// fields the adapter reads. A missing or differently-typed field is
/// simply absent.
#[derive(Clone, Debug, PartialEq, Eq)]
pub struct HyprClient {
    pub address: Option<String>,
    pub class: Option<String>,
    pub initial_class: Option<String>,
    pub focus: Option<bool>,
    pub mapped: Option<bool>,
    pub hidden: Option<bool>,
}

/// The zero or one normalized windows one client record yields: an
/// explicitly unmapped or hidden client is dropped, a client without
/// a parsable address is skipped silently, and the display identity
/// is the initial window class if present, else the current class.
pub open spec fn spec_client_window(c: HyprClient) -> Seq<BackendWindow> {
    if c.mapped == Some(false) || c.hidden == Some(true) {
        Seq::empty()
    } else {
        match c.address {
            None => Seq::empty(),
            Some(addr) => match spec_parse_hypr_address(addr@) {
                None => Seq::empty(),
                Some(id) => seq![
                    BackendWindow {
                        id,
                        app_id: if c.initial_class is Some {
                            c.initial_class
                        } else {
                            c.class
                        },
                        is_focused: c.focus == Some(true),
                    },
                ],
            },
        }
    }
}

/// The normalized window list of a client-record list, in order.
pub open spec fn spec_normalize_clients(cs: Seq<HyprClient>) -> Seq<BackendWindow>
    decreases cs.len(),
{
    if cs.len() == 0 {
        Seq::empty()
    } else {
        spec_normalize_clients(cs.drop_last()) + spec_client_window(cs.last())
    }
}

/// Normalize the CLI backend's client records into the uniform
/// window model: drop unmapped and hidden clients, skip entries
/// without a parsable address, and pick the display identity.
pub fn normalize_clients(clients: Vec<HyprClient>) -> (r: Vec<BackendWindow>)
    ensures
        r@ == spec_normalize_clients(clients@),
{
    let ghost cs = clients@;
    let mut out: Vec<BackendWindow> = Vec::new();
    let mut i: usize = 0;
    while i < clients.len()
        invariant
            i <= cs.len(),
            clients@ == cs,
            out@ == spec_normalize_clients(cs.take(i as int)),
        decreases cs.len() - i,
    {
        let c = &clients[i];
        proof {
            assert(cs.take(i + 1).drop_last() =~= cs.take(i as int));
            assert(cs.take(i + 1).last() == cs[i as int]);
        }
        let skip_it = matches!(c.mapped, Some(false)) || matches!(c.hidden, Some(true));
        if !skip_it {
            if let Some(addr) = &c.address {
                if let Some(id) = parse_hypr_address(addr.as_str()) {
                    let app_id = match &c.initial_class {
                        Some(s) => Some(s.clone()),
                        None => match &c.class {
                            Some(s) => Some(s.clone()),
                            None => None,
                        },
                    };
                    let is_focused = matches!(c.focus, Some(true));
                    let w = BackendWindow { id, app_id, is_focused };
                    proof {
                        assert(spec_client_window(cs[i as int]) =~= seq![w]);
                        assert(out@.push(w) =~= spec_normalize_clients(cs.take(i as int))
                            + spec_client_window(cs[i as int]));
                    }
                    out.push(w);
                } else {
                    proof {
                        assert(spec_client_window(cs[i as int]) =~= Seq::<BackendWindow>::empty());
                        assert(out@ + spec_client_window(cs[i as int]) =~= out@);
                    }
                }
            } else {
                proof {
                    assert(spec_client_window(cs[i as int]) =~= Seq::<BackendWindow>::empty());
                    assert(out@ + spec_client_window(cs[i as int]) =~= out@);
                }
            }
        } else {
            proof {
                assert(spec_client_window(cs[i as int]) =~= Seq::<BackendWindow>::empty());
                assert(out@ + spec_client_window(cs[i as int]) =~= out@);
            }
        }
        i = i + 1;
    }
    proof {
        assert(cs.take(cs.len() as int) =~= cs);
    }
    out
}

/// The client records that the CLI backend's window-list JSON text
/// reduces to: one record per element of the top-level array, each
/// field taken when present with the expected type and absent
/// otherwise; nothing when the text is not a JSON document whose top
/// level is an array. It names what `serde_json::from_str` and the
/// `serde_json::Value` accessors answer on the text, which depends
/// on the text alone.
pub uninterp spec fn json_clients(s: Seq<char>) -> Option<Seq<HyprClient>>;

/// Relies on serde_json::from_str and the serde_json::Value
/// accessors `get`, `as_str` and `as_bool`: parsing succeeds exactly
/// on well-formed JSON with a top-level array, and the elements
/// reduce to the records named by [`json_clients`].
#[verifier::external_body]
fn parse_hypr_clients(text: &str) -> (r: Option<Vec<HyprClient>>)
    ensures
        r is Some <==> json_clients(text@) is Some,
        r is Some ==> r->0@ == json_clients(text@)->0,
{
    let items = match serde_json::from_str::<serde_json::Value>(text) {
        Ok(serde_json::Value::Array(items)) => items,
        _ => return None,
    };
    let text_field = |v: &serde_json::Value, k: &str| v.get(k).and_then(|f| f.as_str()).map(|s| s.to_string());
    let bool_field = |v: &serde_json::Value, k: &str| v.get(k).and_then(|f| f.as_bool());
    Some(items.iter().map(|v| HyprClient {
        address: text_field(v, "address"),
        class: text_field(v, "class"),
        initial_class: text_field(v, "initialClass"),
        focus: bool_field(v, "focus"),
        mapped: bool_field(v, "mapped"),
        hidden: bool_field(v, "hidden"),
    }).collect())
}

/// The CLI backend's window list, from the JSON text its query
/// subcommand printed: the text must parse as a JSON array or the
/// whole query fails with [`AdapterError::BadJson`]; the array's
/// client records are then normalized by the
/// [`spec_normalize_clients`] rules — unmapped and hidden clients
/// dropped, entries without a parsable address skipped silently,
/// display identity picked.
pub fn hypr_windows_from_json(text: &str) -> (r: Result<Vec<BackendWindow>, AdapterError>)
    ensures
        r is Ok <==> json_clients(text@) is Some,
        r is Err ==> r->Err_0 == AdapterError::BadJson,
        r is Ok ==> r->Ok_0@ == spec_normalize_clients(json_clients(text@)->0),
{
    match parse_hypr_clients(text) {
        None => Err(AdapterError::BadJson),
        Some(clients) => Ok(normalize_clients(clients)),
    }
}

/// Whether some window in `ws` carries `id`.
pub open spec fn spec_has_id(ws: Seq<BackendWindow>, id: u64) -> bool {
    exists|j: int| 0 <= j < ws.len() && ws[j].id == id
}

/// `ws` with every window dropped whose id an earlier window already
/// carries: the per-snapshot deduplication, keeping first
/// occurrences in order.
pub open spec fn spec_dedup_windows(ws: Seq<BackendWindow>) -> Seq<BackendWindow>
    decreases ws.len(),
{
    if ws.len() == 0 {
        Seq::empty()
    } else if spec_has_id(ws.drop_last(), ws.last().id) {
        spec_dedup_windows(ws.drop_last())
    } else {
        spec_dedup_windows(ws.drop_last()).push(ws.last())
    }
}

/// Deduplication keeps exactly the ids of its input.
pub proof fn lemma_dedup_has_id(ws: Seq<BackendWindow>, id: u64)
    ensures
        spec_has_id(spec_dedup_windows(ws), id) <==> spec_has_id(ws, id),
    decreases ws.len(),
{
    if ws.len() > 0 {
        let t = ws.drop_last();
        lemma_dedup_has_id(t, id);
        assert(spec_has_id(ws, id) <==> (spec_has_id(t, id) || ws.last().id == id)) by {
            if spec_has_id(ws, id) {
                let j = choose|j: int| 0 <= j < ws.len() && ws[j].id == id;
                if j < ws.len() - 1 {
                    assert(t[j].id == id);
                }
            }
            if spec_has_id(t, id) {
                let j = choose|j: int| 0 <= j < t.len() && t[j].id == id;
                assert(ws[j].id == id);
            }
        }
        if !spec_has_id(t, ws.last().id) {
            let d = spec_dedup_windows(t);
            let r = d.push(ws.last());
            assert(spec_has_id(r, id) <==> (spec_has_id(d, id) || ws.last().id == id)) by {
                if spec_has_id(d, id) {
                    let j = choose|j: int| 0 <= j < d.len() && d[j].id == id;
                    assert(r[j].id == id);
                }
                if ws.last().id == id {
                    assert(r[d.len() as int].id == id);
                }
                if spec_has_id(r, id) {
                    let j = choose|j: int| 0 <= j < r.len() && r[j].id == id;
                    if j < d.len() {
                        assert(d[j].id == id);
                    }
                }
            }
        }
    }
}

/// Deduplication leaves no two windows with one id.
pub proof fn lemma_dedup_distinct(ws: Seq<BackendWindow>)
    ensures
        forall|i: int, j: int|
            0 <= i < j < spec_dedup_windows(ws).len() ==> spec_dedup_windows(ws)[i].id
                != spec_dedup_windows(ws)[j].id,
    decreases ws.len(),
{
    if ws.len() > 0 {
        let t = ws.drop_last();
        lemma_dedup_distinct(t);
        if !spec_has_id(t, ws.last().id) {
            lemma_dedup_has_id(t, ws.last().id);
            let d = spec_dedup_windows(t);
            assert(forall|i: int| 0 <= i < d.len() ==> d[i].id != ws.last().id) by {
                assert(forall|i: int|
                    0 <= i < d.len() && d[i].id == ws.last().id ==> spec_has_id(
                        d,
                        ws.last().id,
                    ));
            }
            assert(forall|i: int, j: int|
                0 <= i < j < spec_dedup_windows(ws).len() ==> #[trigger] spec_dedup_windows(
                    ws,
                )[i] == if i < d.len() {
                    d[i]
                } else {
                    ws.last()
                } && #[trigger] spec_dedup_windows(ws)[j] == if j < d.len() {
                    d[j]
                } else {
                    ws.last()
                });
        }
    }
}

fn clone_window(w: &BackendWindow) -> (r: BackendWindow)
    ensures
        r == *w,
{
    BackendWindow {
        id: w.id,
        app_id: match &w.app_id {
            Some(s) => Some(s.clone()),
            None => None,
        },
        is_focused: w.is_focused,
    }
}

fn prefix_has_id(ws: &Vec<BackendWindow>, n: usize, id: u64) -> (r: bool)
    requires
        n <= ws@.len(),
    ensures
        r == spec_has_id(ws@.take(n as int), id),
{
    let mut j: usize = 0;
    while j < n
        invariant
            j <= n <= ws@.len(),
            forall|k: int| 0 <= k < j ==> ws@[k].id != id,
        decreases n - j,
    {
        if ws[j].id == id {
            proof {
                assert(ws@.take(n as int)[j as int].id == id);
            }
            return true;
        }
        j = j + 1;
    }
    proof {
        assert(forall|k: int| 0 <= k < n ==> ws@.take(n as int)[k] == ws@[k]);
    }
    false
}

/// Drop every window whose id an earlier window of the snapshot
/// already carries, keeping first occurrences in their original
/// order; afterwards no two windows share an id.
pub fn dedup_windows(windows: &Vec<BackendWindow>) -> (r: Vec<BackendWindow>)
    ensures
        r@ == spec_dedup_windows(windows@),
        forall|i: int, j: int| 0 <= i < j < r@.len() ==> r@[i].id != r@[j].id,
{
    let ghost ws = windows@;
    let mut out: Vec<BackendWindow> = Vec::new();
    let mut i: usize = 0;
    while i < windows.len()
        invariant
            i <= ws.len(),
            windows@ == ws,
            out@ == spec_dedup_windows(ws.take(i as int)),
        decreases ws.len() - i,
    {
        proof {
            assert(ws.take(i + 1).drop_last() =~= ws.take(i as int));
            assert(ws.take(i + 1).last() == ws[i as int]);
        }
        let seen = prefix_has_id(windows, i, windows[i].id);
        proof {
            assert(spec_has_id(ws.take(i as int), ws[i as int].id) == seen);
        }
        if !seen {
            out.push(clone_window(&windows[i]));
        }
        i = i + 1;
    }
    proof {
        assert(ws.take(ws.len() as int) =~= ws);
        lemma_dedup_distinct(ws);
    }
    out
}

/// The icon-lookup identity of a window: its `app_id` when it
/// reports one, else the generic-executable fallback name.
pub fn effective_app_id(w: &BackendWindow) -> (r: String)
    ensures
        w.app_id is Some ==> r@ == w.app_id->0@,
        w.app_id is None ==> r@ == "application-x-executable"@,
{
    match &w.app_id {
        Some(s) => s.clone(),
        None => String::from_str("application-x-executable"),
    }
}

/// A fractional output scale, carried as thousandths, floored at 1.0
/// and rounded to the nearest integer.
pub open spec fn spec_round_scale(milli: int) -> int {
    let floored: int = if milli < 1000 {
        1000
    } else {
        milli
    };
    (floored + 500) / 1000
}

/// Integer scale factor from a scale in thousandths.
pub fn round_scale(milli: u32) -> (r: u32)
    ensures
        r as int == spec_round_scale(milli as int),
        r >= 1,
{
    let floored: u64 = if milli < 1000 {
        1000
    } else {
        milli as u64
    };
    ((floored + 500) / 1000) as u32
}

/// One record of the CLI backend's monitor-list query, reduced to
/// the fields the adapter reads; the scale is carried in
/// thousandths.
#[derive(Clone, Copy, Debug, PartialEq, Eq, Structural)]
pub struct HyprMonitor {
    pub focused: Option<bool>,
    pub width: Option<u32>,
    pub height: Option<u32>,
    pub scale_milli: Option<u32>,
}

/// What the focused-output query answers for a monitor list: the
/// first monitor flagged focused decides, missing dimensions read as
/// zero, the scale is floor-at-1 rounded; without a focused monitor
/// there is no geometry and the scale is 1.
pub open spec fn spec_pick_focused_monitor(ms: Seq<HyprMonitor>) -> (
    Option<(u32, u32)>,
    u32,
)
    decreases ms.len(),
{
    if ms.len() == 0 {
        (None, 1u32)
    } else if ms[0].focused == Some(true) {
        let m = ms[0];
        (
            Some(
                (
                    if m.width is Some {
                        m.width->0
                    } else {
                        0
                    },
                    if m.height is Some {
                        m.height->0
                    } else {
                        0
                    },
                ),
            ),
            spec_round_scale(
                if m.scale_milli is Some {
                    m.scale_milli->0 as int
                } else {
                    1000
                },
            ) as u32,
        )
    } else {
        spec_pick_focused_monitor(ms.drop_first())
    }
}

/// Pick the focused monitor's geometry and integer scale out of the
/// CLI backend's monitor list.
pub fn pick_focused_monitor(monitors: &Vec<HyprMonitor>) -> (r: (Option<(u32, u32)>, u32))
    ensures
        r == spec_pick_focused_monitor(monitors@),
{
    let ghost ms = monitors@;
    let mut i: usize = 0;
    proof {
        assert(ms.skip(0) =~= ms);
    }
    while i < monitors.len()
        invariant
            i <= ms.len(),
            monitors@ == ms,
            spec_pick_focused_monitor(ms) == spec_pick_focused_monitor(ms.skip(i as int)),
        decreases ms.len() - i,
    {
        let m = monitors[i];
        proof {
            assert(ms.skip(i as int).len() > 0);
            assert(ms.skip(i as int)[0] == ms[i as int]);
            assert(ms.skip(i as int).drop_first() =~= ms.skip(i + 1));
        }
        if matches!(m.focused, Some(true)) {
            let w = match m.width {
                Some(w) => w,
                None => 0,
            };
            let h = match m.height {
                Some(h) => h,
                None => 0,
            };
            let sm = match m.scale_milli {
                Some(sm) => sm,
                None => 1000,
            };
            return (Some((w, h)), round_scale(sm));
        }
        i = i + 1;
    }
    proof {
        assert(ms.skip(ms.len() as int) =~= Seq::<HyprMonitor>::empty());
    }
    (None, 1)
}

/// Logical geometry of the structured-IPC backend's focused output;
/// the scale is carried in thousandths.
#[derive(Clone, Copy, Debug, PartialEq, Eq, Structural)]
pub struct NiriLogical {
    pub width: u32,
    pub height: u32,
    pub scale_milli: u32,
}

/// The structured-IPC backend's reply to a windows query, already
/// decoded into plain values by the socket shell.
pub enum NiriWindowsReply {
    /// The expected reply: the window list.
    Windows(Vec<BackendWindow>),
    /// An unexpected but successful reply shape.
    OtherOk,
    /// A protocol-level error message.
    Error(String),
}

/// How a windows reply is interpreted: the expected reply yields its
/// windows, an unexpected-but-successful reply yields an empty list,
/// and a protocol-level error is surfaced as a backend error.
pub open spec fn spec_windows_from_niri_reply(reply: NiriWindowsReply) -> Result<
    Seq<BackendWindow>,
    AdapterError,
> {
    match reply {
        NiriWindowsReply::Windows(ws) => Ok(ws@),
        NiriWindowsReply::OtherOk => Ok(Seq::empty()),
        NiriWindowsReply::Error(m) => Err(AdapterError::Protocol(m)),
    }
}

/// Interpret the structured-IPC backend's windows reply.
pub fn windows_from_niri_reply(reply: NiriWindowsReply) -> (r: Result<
    Vec<BackendWindow>,
    AdapterError,
>)
    ensures
        r is Ok <==> spec_windows_from_niri_reply(reply) is Ok,
        r is Ok ==> r->Ok_0@ == spec_windows_from_niri_reply(reply)->Ok_0,
        r is Err ==> r->Err_0 == spec_windows_from_niri_reply(reply)->Err_0,
{
    match reply {
        NiriWindowsReply::Windows(ws) => Ok(ws),
        NiriWindowsReply::OtherOk => Ok(Vec::new()),
        NiriWindowsReply::Error(m) => Err(AdapterError::Protocol(m)),
    }
}

/// The structured-IPC backend's reply to a focus action, already
/// decoded into plain values by the socket shell.
pub enum NiriFocusReply {
    /// The action was handled.
    Handled,
    /// Any other successful reply shape: still treated as success.
    OtherOk,
    /// A protocol-level error message.
    Error(String),
}

/// How a focus reply is interpreted: every successful reply shape is
/// success; a protocol-level error is a failure.
pub open spec fn spec_focus_result_from_niri(reply: NiriFocusReply) -> Result<(), AdapterError> {
    match reply {
        NiriFocusReply::Handled => Ok(()),
        NiriFocusReply::OtherOk => Ok(()),
        NiriFocusReply::Error(m) => Err(AdapterError::Protocol(m)),
    }
}

/// Interpret the structured-IPC backend's reply to a focus action.
pub fn focus_result_from_niri(reply: NiriFocusReply) -> (r: Result<(), AdapterError>)
    ensures
        r == spec_focus_result_from_niri(reply),
{
    match reply {
        NiriFocusReply::Handled => Ok(()),
        NiriFocusReply::OtherOk => Ok(()),
        NiriFocusReply::Error(m) => Err(AdapterError::Protocol(m)),
    }
}

/// The structured-IPC backend's reply to a focused-output query,
/// already decoded into plain values by the socket shell.
pub enum NiriOutputReply {
    /// The expected reply: the focused output's logical geometry, if
    /// the output has one.
    Logical(Option<NiriLogical>),
    /// An unexpected but successful reply shape.
    OtherOk,
    /// A protocol-level error message.
    Error(String),
}

/// How a focused-output reply is interpreted: a logical geometry
/// yields its size and floor-at-1 rounded scale; everything else
/// successful yields no geometry and scale 1; a protocol-level error
/// is surfaced.
pub open spec fn spec_output_info_from_niri(reply: NiriOutputReply) -> Result<
    (Option<(u32, u32)>, u32),
    AdapterError,
> {
    match reply {
        NiriOutputReply::Logical(Some(l)) => Ok(
            (Some((l.width, l.height)), spec_round_scale(l.scale_milli as int) as u32),
        ),
        NiriOutputReply::Logical(None) => Ok((None, 1u32)),
        NiriOutputReply::OtherOk => Ok((None, 1u32)),
        NiriOutputReply::Error(m) => Err(AdapterError::Protocol(m)),
    }
}

/// Interpret the structured-IPC backend's focused-output reply.
pub fn output_info_from_niri(reply: NiriOutputReply) -> (r: Result<
    (Option<(u32, u32)>, u32),
    AdapterError,
>)
    ensures
        r == spec_output_info_from_niri(reply),
{
    match reply {
        NiriOutputReply::Logical(opt) => match opt {
            Some(l) => Ok((Some((l.width, l.height)), round_scale(l.scale_milli))),
            None => Ok((None, 1)),
        },
        NiriOutputReply::OtherOk => Ok((None, 1)),
        NiriOutputReply::Error(m) => Err(AdapterError::Protocol(m)),
    }
}

} // verus!
