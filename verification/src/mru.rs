//! Most-recently-used ranking of windows.
//!
//! [`MruState`] is an ordered sequence of window ids, most-recent
//! first, capacity-bounded at [`HISTORY_CAP`] entries. It is owned
//! exclusively by the daemon's main loop and mutated only on a
//! committed focus; it survives across sessions and is lost on
//! daemon restart.

use vstd::prelude::*;

use crate::types::WindowEntry;

verus! {

/// Upper bound on the number of remembered window ids; the oldest
/// entry is evicted on overflow.
pub const HISTORY_CAP: usize = 256;

/// The recency history `h` updated by a committed focus on `id`:
/// every prior occurrence of `id` is removed, `id` is reinserted at
/// the front, and the result is truncated to [`HISTORY_CAP`] entries.
pub open spec fn spec_update_on_focus(h: Seq<u64>, id: u64) -> Seq<u64> {
    let all = seq![id] + spec_remove_id(h, id);
    if all.len() <= HISTORY_CAP { all } else { all.take(HISTORY_CAP as int) }
}

/// `h` with every occurrence of `id` removed, order preserved.
pub open spec fn spec_remove_id(h: Seq<u64>, id: u64) -> Seq<u64>
    decreases h.len(),
{
    if h.len() == 0 {
        Seq::empty()
    } else if h.last() == id {
        spec_remove_id(h.drop_last(), id)
    } else {
        spec_remove_id(h.drop_last(), id).push(h.last())
    }
}

pub proof fn lemma_remove_id_contains(h: Seq<u64>, id: u64, x: u64)
    ensures
        spec_remove_id(h, id).contains(x) <==> (h.contains(x) && x != id),
    decreases h.len(),
{
    if h.len() > 0 {
        lemma_remove_id_contains(h.drop_last(), id, x);
        let p = spec_remove_id(h.drop_last(), id);
        if h.last() != id {
            assert(spec_remove_id(h, id).contains(x) <==> (p.contains(x) || h.last() == x)) by {
                let r = p.push(h.last());
                if p.contains(x) {
                    let i = choose|i: int| 0 <= i < p.len() && p[i] == x;
                    assert(r[i] == x);
                }
                if h.last() == x {
                    assert(r[p.len() as int] == x);
                }
                if r.contains(x) {
                    let i = choose|i: int| 0 <= i < r.len() && r[i] == x;
                    if i < p.len() {
                        assert(p[i] == x);
                    }
                }
            }
        }
        assert(h.contains(x) <==> (h.drop_last().contains(x) || h.last() == x)) by {
            if h.contains(x) {
                let i = choose|i: int| 0 <= i < h.len() && h[i] == x;
                if i < h.len() - 1 {
                    assert(h.drop_last()[i] == x);
                }
            }
            if h.drop_last().contains(x) {
                let i = choose|i: int| 0 <= i < h.drop_last().len() && h.drop_last()[i] == x;
                assert(h[i] == x);
            }
        }
    }
}

pub proof fn lemma_remove_id_no_duplicates(h: Seq<u64>, id: u64)
    requires
        h.no_duplicates(),
    ensures
        spec_remove_id(h, id).no_duplicates(),
        !spec_remove_id(h, id).contains(id),
    decreases h.len(),
{
    lemma_remove_id_contains(h, id, id);
    if h.len() > 0 {
        assert(h.drop_last().no_duplicates());
        lemma_remove_id_no_duplicates(h.drop_last(), id);
        if h.last() != id {
            let prefix = spec_remove_id(h.drop_last(), id);
            assert(!h.drop_last().contains(h.last())) by {
                if h.drop_last().contains(h.last()) {
                    let i = choose|i: int|
                        0 <= i < h.drop_last().len() && h.drop_last()[i] == h.last();
                    assert(h[i] == h[h.len() - 1]);
                }
            }
            assert(!prefix.contains(h.last())) by {
                lemma_remove_id_contains(h.drop_last(), id, h.last());
            }
        }
    }
}

/// Removing an id that a sequence does not contain leaves it unchanged.
pub proof fn lemma_remove_id_absent(h: Seq<u64>, id: u64)
    requires
        !h.contains(id),
    ensures
        spec_remove_id(h, id) == h,
    decreases h.len(),
{
    if h.len() > 0 {
        assert(h.last() != id);
        assert(!h.drop_last().contains(id)) by {
            if h.drop_last().contains(id) {
                let i = choose|i: int| 0 <= i < h.drop_last().len() && h.drop_last()[i] == id;
                assert(h[i] == id);
            }
        }
        lemma_remove_id_absent(h.drop_last(), id);
        assert(spec_remove_id(h, id) =~= h);
    }
}

/// Removal distributes over concatenation.
pub proof fn lemma_remove_id_concat(a: Seq<u64>, b: Seq<u64>, id: u64)
    ensures
        spec_remove_id(a + b, id) == spec_remove_id(a, id) + spec_remove_id(b, id),
    decreases b.len(),
{
    if b.len() == 0 {
        assert(a + b =~= a);
        assert(spec_remove_id(a, id) + spec_remove_id(b, id) =~= spec_remove_id(a, id));
    } else {
        lemma_remove_id_concat(a, b.drop_last(), id);
        assert((a + b).drop_last() =~= a + b.drop_last());
        assert((a + b).last() == b.last());
        if b.last() != id {
            assert(spec_remove_id(a, id) + spec_remove_id(b.drop_last(), id).push(b.last()) =~= (
            spec_remove_id(a, id) + spec_remove_id(b.drop_last(), id)).push(b.last()));
        }
    }
}

proof fn lemma_take_not_contains(s: Seq<u64>, n: int, x: u64)
    requires
        0 <= n <= s.len(),
        !s.contains(x),
    ensures
        !s.take(n).contains(x),
{
    if s.take(n).contains(x) {
        let i = choose|i: int| 0 <= i < n && s.take(n)[i] == x;
        assert(s[i] == x);
    }
}

/// Recording the same focus twice in a row leaves the history as one
/// recording leaves it: `update_on_focus` is idempotent under
/// immediate repetition.
pub proof fn lemma_update_on_focus_idempotent(h: Seq<u64>, id: u64)
    ensures
        spec_update_on_focus(spec_update_on_focus(h, id), id) == spec_update_on_focus(h, id),
{
    let k = spec_remove_id(h, id);
    lemma_remove_id_contains(h, id, id);
    assert(!k.contains(id));
    assert(spec_remove_id(seq![id], id) =~= Seq::<u64>::empty()) by {
        assert(seq![id].last() == id);
        assert(seq![id].drop_last() =~= Seq::<u64>::empty());
        assert(spec_remove_id(Seq::<u64>::empty(), id) =~= Seq::<u64>::empty());
    }
    let u1 = spec_update_on_focus(h, id);
    if 1 + k.len() <= HISTORY_CAP {
        assert(u1 == seq![id] + k);
        lemma_remove_id_concat(seq![id], k, id);
        lemma_remove_id_absent(k, id);
        assert(spec_remove_id(u1, id) =~= k);
        assert(spec_update_on_focus(u1, id) =~= u1);
    } else {
        let all = seq![id] + k;
        assert(u1 == all.take(HISTORY_CAP as int));
        let kp = k.take(HISTORY_CAP - 1);
        assert(u1 =~= seq![id] + kp);
        lemma_take_not_contains(k, HISTORY_CAP - 1, id);
        lemma_remove_id_concat(seq![id], kp, id);
        lemma_remove_id_absent(kp, id);
        assert(spec_remove_id(u1, id) =~= kp);
        assert(spec_update_on_focus(u1, id) =~= u1);
    }
}

/// A committed focus on `id` leaves `id` at the front of the history
/// and nowhere else, whatever its prior position.
pub proof fn lemma_update_on_focus_front(h: Seq<u64>, id: u64)
    ensures
        spec_update_on_focus(h, id).len() > 0,
        spec_update_on_focus(h, id)[0] == id,
        forall|j: int|
            1 <= j < spec_update_on_focus(h, id).len() ==> spec_update_on_focus(h, id)[j] != id,
{
    let k = spec_remove_id(h, id);
    lemma_remove_id_contains(h, id, id);
    let u = spec_update_on_focus(h, id);
    assert(forall|j: int| 1 <= j < u.len() ==> u[j] == k[j - 1]);
    assert(forall|j: int| 1 <= j < u.len() ==> u[j] != id) by {
        assert(forall|i: int| 0 <= i < k.len() ==> k[i] != id) by {
            assert(forall|i: int| 0 <= i < k.len() && k[i] == id ==> k.contains(id));
        }
    }
}

/// No two windows in the list share an id. Enumeration snapshots are
/// deduplicated before ranking, so every list the daemon ranks
/// satisfies this.
pub open spec fn distinct_ids(ws: Seq<WindowEntry>) -> bool {
    forall|i: int, j: int| 0 <= i < j < ws.len() ==> ws[i].id != ws[j].id
}

/// The id flagged `is_focused` in the list: the first such window's
/// id, or `None` when no window is focused.
pub open spec fn spec_focused_id(ws: Seq<WindowEntry>) -> Option<u64>
    decreases ws.len(),
{
    if ws.len() == 0 {
        None
    } else if ws[0].is_focused {
        Some(ws[0].id)
    } else {
        spec_focused_id(ws.drop_first())
    }
}

/// Selects the windows carrying the focused id (rank 0).
pub open spec fn pred_focused(f: Option<u64>) -> spec_fn(WindowEntry) -> bool {
    |w: WindowEntry| f == Some(w.id)
}

/// Selects the non-focused windows carrying the id of one history
/// entry.
pub open spec fn pred_hist_entry(id: u64, f: Option<u64>) -> spec_fn(WindowEntry) -> bool {
    |w: WindowEntry| w.id == id && f != Some(w.id)
}

/// Selects the non-focused windows absent from the history; they
/// keep their original relative order and sort after every known
/// window.
pub open spec fn pred_unranked(hist: Seq<u64>, f: Option<u64>) -> spec_fn(WindowEntry) -> bool {
    |w: WindowEntry| f != Some(w.id) && !hist.contains(w.id)
}

/// The windows ranked by history position `h`: those whose id is the
/// history entry at `h`, provided `h` is the first occurrence of that
/// id in the history.
pub open spec fn spec_hist_block(
    hist: Seq<u64>,
    f: Option<u64>,
    ws: Seq<WindowEntry>,
    h: int,
) -> Seq<WindowEntry> {
    if hist.take(h).contains(hist[h]) {
        Seq::empty()
    } else {
        ws.filter(pred_hist_entry(hist[h], f))
    }
}

/// Concatenation of the history blocks for positions `0 .. h`, most
/// recent first.
pub open spec fn spec_hist_segment(
    hist: Seq<u64>,
    f: Option<u64>,
    ws: Seq<WindowEntry>,
    h: int,
) -> Seq<WindowEntry>
    decreases h,
{
    if h <= 0 {
        Seq::empty()
    } else {
        spec_hist_segment(hist, f, ws, h - 1) + spec_hist_block(hist, f, ws, h - 1)
    }
}

/// The deterministic MRU ranking of `ws` against history `hist`: the
/// focused window first, then the windows present in the history in
/// history order (most recent first), then the windows absent from
/// the history in their original relative order. Equal ranks are
/// broken by original index, which the segment construction realizes
/// by filtering `ws` in order.
pub open spec fn spec_order_windows(hist: Seq<u64>, ws: Seq<WindowEntry>) -> Seq<WindowEntry> {
    let f = spec_focused_id(ws);
    ws.filter(pred_focused(f)) + spec_hist_segment(hist, f, ws, hist.len() as int) + ws.filter(
        pred_unranked(hist, f),
    )
}

/// Index of the first window carrying `id` (meaningful when some
/// window does).
pub open spec fn spec_index_of_id(ws: Seq<WindowEntry>, id: u64) -> int
    decreases ws.len(),
{
    if ws.len() == 0 {
        0
    } else if ws[0].id == id {
        0
    } else {
        1 + spec_index_of_id(ws.drop_first(), id)
    }
}

/// First position of `id` in the history (meaningful when present).
pub open spec fn spec_hist_first_pos(hist: Seq<u64>, id: u64) -> int
    decreases hist.len(),
{
    if hist.len() == 0 {
        0
    } else if hist[0] == id {
        0
    } else {
        1 + spec_hist_first_pos(hist.drop_first(), id)
    }
}

/// The rank the MRU ordering sorts by: the focused window ranks 0;
/// any other window present in the history ranks one past its history
/// position; a window absent from the history ranks past every
/// history position, offset by its original index.
pub open spec fn spec_rank(hist: Seq<u64>, ws: Seq<WindowEntry>, w: WindowEntry) -> int {
    let f = spec_focused_id(ws);
    if f == Some(w.id) {
        0
    } else if hist.contains(w.id) {
        1 + spec_hist_first_pos(hist, w.id)
    } else {
        1 + hist.len() + spec_index_of_id(ws, w.id)
    }
}

proof fn lemma_index_of_id_self(ws: Seq<WindowEntry>, i: int)
    requires
        distinct_ids(ws),
        0 <= i < ws.len(),
    ensures
        spec_index_of_id(ws, ws[i].id) == i,
    decreases i,
{
    if i == 0 {
        assert(ws[0].id == ws[i].id);
    } else {
        assert(ws[0].id != ws[i].id);
        let t = ws.drop_first();
        assert(distinct_ids(t)) by {
            assert(forall|p: int, q: int|
                0 <= p < q < t.len() ==> t[p] == ws[p + 1] && t[q] == ws[q + 1]);
        }
        assert(t[i - 1] == ws[i]);
        lemma_index_of_id_self(t, i - 1);
    }
}

proof fn lemma_hist_first_pos_of_first(hist: Seq<u64>, h: int)
    requires
        0 <= h < hist.len(),
        !hist.take(h).contains(hist[h]),
    ensures
        spec_hist_first_pos(hist, hist[h]) == h,
    decreases h,
{
    if h == 0 {
    } else {
        assert(hist[0] != hist[h]) by {
            assert(hist.take(h)[0] == hist[0]);
        }
        let t = hist.drop_first();
        assert(t[h - 1] == hist[h]);
        assert(!t.take(h - 1).contains(t[h - 1])) by {
            if t.take(h - 1).contains(t[h - 1]) {
                let k = choose|k: int| 0 <= k < h - 1 && #[trigger] t.take(h - 1)[k] == t[h - 1];
                assert(hist.take(h)[k + 1] == hist[h]);
            }
        }
        lemma_hist_first_pos_of_first(t, h - 1);
    }
}

/// Every filtered element comes from the input, and under distinct
/// ids the filtered elements keep strictly increasing input
/// positions: filtering preserves relative order.
proof fn lemma_filter_ids_increasing(ws: Seq<WindowEntry>, pred: spec_fn(WindowEntry) -> bool)
    requires
        distinct_ids(ws),
    ensures
        forall|p: int|
            0 <= p < ws.filter(pred).len() ==> exists|i: int|
                0 <= i < ws.len() && ws[i] == #[trigger] ws.filter(pred)[p],
        forall|p1: int, p2: int|
            0 <= p1 < p2 < ws.filter(pred).len() ==> spec_index_of_id(
                ws,
                #[trigger] ws.filter(pred)[p1].id,
            ) < spec_index_of_id(ws, #[trigger] ws.filter(pred)[p2].id),
    decreases ws.len(),
{
    reveal(Seq::filter);
    if ws.len() == 0 {
    } else {
        let t = ws.drop_last();
        let n = ws.len() - 1;
        assert(distinct_ids(t)) by {
            assert(forall|p: int, q: int| 0 <= p < q < t.len() ==> t[p] == ws[p] && t[q] == ws[q]);
        }
        lemma_filter_ids_increasing(t, pred);
        let fp = t.filter(pred);
        let fw = ws.filter(pred);
        assert(fw == if pred(ws.last()) {
            fp.push(ws.last())
        } else {
            fp
        });
        assert forall|p: int| 0 <= p < fw.len() implies exists|i: int|
            0 <= i < ws.len() && ws[i] == #[trigger] fw[p] by {
            if p < fp.len() {
                let i = choose|i: int| 0 <= i < t.len() && t[i] == fp[p];
                assert(ws[i] == fw[p]);
            } else {
                assert(ws[n] == fw[p]);
            }
        }
        assert forall|p1: int, p2: int| 0 <= p1 < p2 < fw.len() implies spec_index_of_id(
            ws,
            #[trigger] fw[p1].id,
        ) < spec_index_of_id(ws, #[trigger] fw[p2].id) by {
            let i1 = choose|i: int| 0 <= i < t.len() && t[i] == fp[p1];
            lemma_index_of_id_self(ws, i1);
            if p2 < fp.len() {
                let i2 = choose|i: int| 0 <= i < t.len() && t[i] == fp[p2];
                lemma_index_of_id_self(ws, i2);
                lemma_index_of_id_self(t, i1);
                lemma_index_of_id_self(t, i2);
            } else {
                assert(fw[p2] == ws[n]);
                lemma_index_of_id_self(ws, n);
            }
        }
    }
}

/// When every element the predicate admits carries one fixed id, the
/// filtered sequence has at most one element.
proof fn lemma_filter_same_id_le_one(
    ws: Seq<WindowEntry>,
    pred: spec_fn(WindowEntry) -> bool,
    id: u64,
)
    requires
        distinct_ids(ws),
        forall|w: WindowEntry| #[trigger] pred(w) ==> w.id == id,
    ensures
        ws.filter(pred).len() <= 1,
{
    if ws.filter(pred).len() > 1 {
        lemma_filter_ids_increasing(ws, pred);
        Seq::lemma_filter_pred(ws, pred, 0);
        Seq::lemma_filter_pred(ws, pred, 1);
        assert(ws.filter(pred)[0].id == id);
        assert(ws.filter(pred)[1].id == id);
    }
}

proof fn lemma_focused_id_prefix(ws: Seq<WindowEntry>, i: int)
    requires
        0 <= i <= ws.len(),
        forall|j: int| 0 <= j < i ==> !ws[j].is_focused,
    ensures
        spec_focused_id(ws) == spec_focused_id(ws.skip(i)),
    decreases i,
{
    if i == 0 {
        assert(ws.skip(0) =~= ws);
    } else {
        lemma_focused_id_prefix(ws, i - 1);
        assert(ws.skip(i - 1).len() > 0);
        assert(ws.skip(i - 1)[0] == ws[i - 1]);
        assert(!ws.skip(i - 1)[0].is_focused);
        assert(ws.skip(i - 1).drop_first() =~= ws.skip(i));
        assert(spec_focused_id(ws.skip(i - 1)) == spec_focused_id(ws.skip(i - 1).drop_first()));
    }
}

proof fn lemma_filter_take_step<A>(s: Seq<A>, pred: spec_fn(A) -> bool, i: int)
    requires
        0 <= i < s.len(),
    ensures
        s.take(i + 1).filter(pred) == if pred(s[i]) {
            s.take(i).filter(pred).push(s[i])
        } else {
            s.take(i).filter(pred)
        },
{
    reveal(Seq::filter);
    assert(s.take(i + 1).drop_last() =~= s.take(i));
    assert(s.take(i + 1).last() == s[i]);
}

/// First focused window's id, or `None`.
pub fn find_focused(windows: &Vec<WindowEntry>) -> (r: Option<u64>)
    ensures
        r == spec_focused_id(windows@),
{
    let ghost ws = windows@;
    let mut i: usize = 0;
    while i < windows.len()
        invariant
            i <= ws.len(),
            windows@ == ws,
            forall|j: int| 0 <= j < i ==> !ws[j].is_focused,
        decreases ws.len() - i,
    {
        if windows[i].is_focused {
            proof {
                lemma_focused_id_prefix(ws, i as int);
                assert(ws.skip(i as int)[0] == ws[i as int]);
            }
            return Some(windows[i].id);
        }
        i = i + 1;
    }
    proof {
        lemma_focused_id_prefix(ws, ws.len() as int);
    }
    None
}

/// Whether `x` occurs among the first `h` entries of `v`.
fn prefix_contains(v: &Vec<u64>, h: usize, x: u64) -> (r: bool)
    requires
        h <= v@.len(),
    ensures
        r == v@.take(h as int).contains(x),
{
    let mut j: usize = 0;
    while j < h
        invariant
            j <= h <= v@.len(),
            forall|k: int| 0 <= k < j ==> v@[k] != x,
        decreases h - j,
    {
        if v[j] == x {
            proof {
                assert(v@.take(h as int)[j as int] == x);
            }
            return true;
        }
        j = j + 1;
    }
    proof {
        assert(forall|k: int| 0 <= k < h ==> v@.take(h as int)[k] == v@[k]);
    }
    false
}

proof fn lemma_filter_ext<A>(s: Seq<A>, p: spec_fn(A) -> bool, q: spec_fn(A) -> bool)
    requires
        forall|x: A| #[trigger] p(x) == #[trigger] q(x),
    ensures
        s.filter(p) == s.filter(q),
    decreases s.len(),
{
    reveal(Seq::filter);
    if s.len() > 0 {
        lemma_filter_ext(s.drop_last(), p, q);
    }
}

proof fn lemma_filter_true<A>(s: Seq<A>, p: spec_fn(A) -> bool)
    requires
        forall|x: A| #[trigger] p(x),
    ensures
        s.filter(p) == s,
    decreases s.len(),
{
    reveal(Seq::filter);
    if s.len() > 0 {
        lemma_filter_true(s.drop_last(), p);
        assert(s.filter(p) =~= s);
    }
}

proof fn lemma_filter_disjoint_add<A>(
    s: Seq<A>,
    p: spec_fn(A) -> bool,
    q: spec_fn(A) -> bool,
    r: spec_fn(A) -> bool,
)
    requires
        forall|x: A| #[trigger] r(x) == (p(x) || q(x)),
        forall|x: A| #![trigger p(x), q(x)] !(p(x) && q(x)),
    ensures
        s.filter(r).len() == s.filter(p).len() + s.filter(q).len(),
    decreases s.len(),
{
    reveal(Seq::filter);
    if s.len() > 0 {
        lemma_filter_disjoint_add(s.drop_last(), p, q, r);
    }
}

/// Selects the non-focused windows whose id occurs among the first
/// `h` history entries.
pub open spec fn pred_hist_prefix(hist: Seq<u64>, h: int, f: Option<u64>) -> spec_fn(
    WindowEntry,
) -> bool {
    |w: WindowEntry| f != Some(w.id) && hist.take(h).contains(w.id)
}

proof fn lemma_hist_segment_len(hist: Seq<u64>, f: Option<u64>, ws: Seq<WindowEntry>, h: int)
    requires
        0 <= h <= hist.len(),
    ensures
        spec_hist_segment(hist, f, ws, h).len() == ws.filter(pred_hist_prefix(hist, h, f)).len(),
    decreases h,
{
    if h == 0 {
        let p = pred_hist_prefix(hist, 0, f);
        if ws.filter(p).len() > 0 {
            Seq::lemma_filter_pred(ws, p, 0);
            let w = ws.filter(p)[0];
            assert(hist.take(0).contains(w.id));
            let k = choose|k: int| 0 <= k < 0 && hist.take(0)[k] == w.id;
        }
    } else {
        lemma_hist_segment_len(hist, f, ws, h - 1);
        let prev = pred_hist_prefix(hist, h - 1, f);
        let cur = pred_hist_prefix(hist, h, f);
        assert(forall|x: u64|
            hist.take(h).contains(x) <==> (hist.take(h - 1).contains(x) || hist[h - 1] == x)) by {
            assert forall|x: u64|
                hist.take(h).contains(x) <==> (hist.take(h - 1).contains(x) || hist[h - 1]
                    == x) by {
                if hist.take(h).contains(x) {
                    let k = choose|k: int| 0 <= k < h && #[trigger] hist.take(h)[k] == x;
                    if k < h - 1 {
                        assert(hist.take(h - 1)[k] == x);
                    }
                }
                if hist.take(h - 1).contains(x) {
                    let k = choose|k: int| 0 <= k < h - 1 && #[trigger] hist.take(h - 1)[k] == x;
                    assert(hist.take(h)[k] == x);
                }
                if hist[h - 1] == x {
                    assert(hist.take(h)[h - 1] == x);
                }
            }
        }
        if hist.take(h - 1).contains(hist[h - 1]) {
            lemma_filter_ext(ws, cur, prev);
        } else {
            let entry = pred_hist_entry(hist[h - 1], f);
            lemma_filter_disjoint_add(ws, prev, entry, cur);
        }
    }
}

/// The MRU ordering neither drops nor duplicates windows: its result
/// has exactly one entry per input window.
pub proof fn lemma_order_windows_len(hist: Seq<u64>, ws: Seq<WindowEntry>)
    ensures
        spec_order_windows(hist, ws).len() == ws.len(),
{
    let f = spec_focused_id(ws);
    let pa = pred_focused(f);
    let pb = pred_hist_prefix(hist, hist.len() as int, f);
    let pc = pred_unranked(hist, f);
    lemma_hist_segment_len(hist, f, ws, hist.len() as int);
    assert(hist.take(hist.len() as int) =~= hist);
    let pbc = |w: WindowEntry| f != Some(w.id);
    lemma_filter_disjoint_add(ws, pb, pc, pbc);
    let pall = |w: WindowEntry| true;
    lemma_filter_disjoint_add(ws, pa, pbc, pall);
    lemma_filter_true(ws, pall);
}

proof fn lemma_hist_first_pos_props(hist: Seq<u64>, id: u64)
    requires
        hist.contains(id),
    ensures
        0 <= spec_hist_first_pos(hist, id) < hist.len(),
        hist[spec_hist_first_pos(hist, id)] == id,
        forall|j: int| 0 <= j < spec_hist_first_pos(hist, id) ==> hist[j] != id,
    decreases hist.len(),
{
    if hist[0] != id {
        let t = hist.drop_first();
        assert(t.contains(id)) by {
            let k = choose|k: int| 0 <= k < hist.len() && hist[k] == id;
            assert(t[k - 1] == id);
        }
        lemma_hist_first_pos_props(t, id);
        assert(forall|j: int| 1 <= j < spec_hist_first_pos(hist, id) ==> hist[j] == t[j - 1]);
    }
}

proof fn lemma_hist_segment_extends(
    hist: Seq<u64>,
    ws: Seq<WindowEntry>,
    h0: int,
    h: int,
    w: WindowEntry,
)
    requires
        0 <= h0 < h <= hist.len(),
        spec_hist_block(hist, spec_focused_id(ws), ws, h0).contains(w),
    ensures
        spec_hist_segment(hist, spec_focused_id(ws), ws, h).contains(w),
    decreases h,
{
    let f = spec_focused_id(ws);
    let prev = spec_hist_segment(hist, f, ws, h - 1);
    let block = spec_hist_block(hist, f, ws, h - 1);
    if h0 == h - 1 {
        let k = choose|k: int| 0 <= k < block.len() && block[k] == w;
        assert((prev + block)[prev.len() + k] == w);
    } else {
        lemma_hist_segment_extends(hist, ws, h0, h - 1, w);
        let k = choose|k: int| 0 <= k < prev.len() && prev[k] == w;
        assert((prev + block)[k] == w);
    }
}

/// The ranking loses no window: every window of the input list
/// appears in the MRU ordering. Together with
/// [`lemma_order_windows_len`], the ordering is a permutation of its
/// input.
pub proof fn lemma_order_windows_complete(hist: Seq<u64>, ws: Seq<WindowEntry>)
    ensures
        forall|i: int|
            0 <= i < ws.len() ==> spec_order_windows(hist, ws).contains(#[trigger] ws[i]),
{
    let f = spec_focused_id(ws);
    let seg_a = ws.filter(pred_focused(f));
    let seg_b = spec_hist_segment(hist, f, ws, hist.len() as int);
    let seg_c = ws.filter(pred_unranked(hist, f));
    let out = spec_order_windows(hist, ws);
    assert forall|i: int| 0 <= i < ws.len() implies out.contains(#[trigger] ws[i]) by {
        let w = ws[i];
        if f == Some(w.id) {
            Seq::lemma_filter_contains(ws, pred_focused(f), i);
            let k = choose|k: int| 0 <= k < seg_a.len() && seg_a[k] == w;
            assert(out[k] == w);
        } else if hist.contains(w.id) {
            lemma_hist_first_pos_props(hist, w.id);
            let h0 = spec_hist_first_pos(hist, w.id);
            assert(!hist.take(h0).contains(hist[h0])) by {
                if hist.take(h0).contains(hist[h0]) {
                    let j = choose|j: int| 0 <= j < h0 && #[trigger] hist.take(h0)[j] == hist[h0];
                    assert(hist[j] == w.id);
                }
            }
            let pred = pred_hist_entry(hist[h0], f);
            Seq::lemma_filter_contains(ws, pred, i);
            lemma_hist_segment_extends(hist, ws, h0, hist.len() as int, w);
            let k = choose|k: int| 0 <= k < seg_b.len() && seg_b[k] == w;
            assert(out[seg_a.len() + k] == w);
        } else {
            Seq::lemma_filter_contains(ws, pred_unranked(hist, f), i);
            let k = choose|k: int| 0 <= k < seg_c.len() && seg_c[k] == w;
            assert(out[seg_a.len() + seg_b.len() + k] == w);
        }
    }
}

proof fn lemma_focused_id_witness(ws: Seq<WindowEntry>)
    requires
        spec_focused_id(ws) is Some,
    ensures
        exists|i: int|
            0 <= i < ws.len() && (#[trigger] ws[i]).is_focused && ws[i].id == spec_focused_id(
                ws,
            )->0,
    decreases ws.len(),
{
    if ws.len() > 0 && !ws[0].is_focused {
        let t = ws.drop_first();
        lemma_focused_id_witness(t);
        let i = choose|i: int|
            0 <= i < t.len() && (#[trigger] t[i]).is_focused && t[i].id == spec_focused_id(t)->0;
        assert(ws[i + 1] == t[i]);
    }
}

proof fn lemma_hist_segment_sorted(hist: Seq<u64>, ws: Seq<WindowEntry>, h: int)
    requires
        distinct_ids(ws),
        0 <= h <= hist.len(),
    ensures
        forall|q: int|
            0 <= q < spec_hist_segment(hist, spec_focused_id(ws), ws, h).len() ==> 1 <= spec_rank(
                hist,
                ws,
                #[trigger] spec_hist_segment(hist, spec_focused_id(ws), ws, h)[q],
            ) <= h,
        forall|q1: int, q2: int|
            0 <= q1 < q2 < spec_hist_segment(hist, spec_focused_id(ws), ws, h).len() ==> spec_rank(
                hist,
                ws,
                #[trigger] spec_hist_segment(hist, spec_focused_id(ws), ws, h)[q1],
            ) < spec_rank(
                hist,
                ws,
                #[trigger] spec_hist_segment(hist, spec_focused_id(ws), ws, h)[q2],
            ),
    decreases h,
{
    let f = spec_focused_id(ws);
    if h > 0 {
        lemma_hist_segment_sorted(hist, ws, h - 1);
        let prev = spec_hist_segment(hist, f, ws, h - 1);
        let block = spec_hist_block(hist, f, ws, h - 1);
        let cur = spec_hist_segment(hist, f, ws, h);
        assert(cur == prev + block);
        if !hist.take(h - 1).contains(hist[h - 1]) {
            let pred = pred_hist_entry(hist[h - 1], f);
            assert forall|q: int| 0 <= q < block.len() implies spec_rank(
                hist,
                ws,
                #[trigger] block[q],
            ) == h by {
                Seq::lemma_filter_pred(ws, pred, q);
                assert(block[q].id == hist[h - 1]);
                assert(hist.contains(block[q].id));
                lemma_hist_first_pos_of_first(hist, h - 1);
            }
            lemma_filter_same_id_le_one(ws, pred, hist[h - 1]);
        }
        assert(block.len() <= 1);
        assert(forall|q: int|
            0 <= q < cur.len() ==> #[trigger] cur[q] == if q < prev.len() {
                prev[q]
            } else {
                block[q - prev.len()]
            });
    }
}

/// The ranking law: for every window list with distinct ids, the MRU
/// ordering is strictly sorted by [`spec_rank`]. The focused window
/// carries rank 0; a window with a more recent history position
/// carries a smaller rank than one with a less recent position; a
/// window absent from the history carries a rank past every history
/// position, offset by its original index, so such windows follow
/// all remembered ones in their original relative order.
pub proof fn lemma_order_windows_ranks_sorted(hist: Seq<u64>, ws: Seq<WindowEntry>)
    requires
        distinct_ids(ws),
    ensures
        forall|i: int, j: int|
            0 <= i < j < spec_order_windows(hist, ws).len() ==> spec_rank(
                hist,
                ws,
                #[trigger] spec_order_windows(hist, ws)[i],
            ) < spec_rank(hist, ws, #[trigger] spec_order_windows(hist, ws)[j]),
{
    let f = spec_focused_id(ws);
    let seg_a = ws.filter(pred_focused(f));
    let seg_b = spec_hist_segment(hist, f, ws, hist.len() as int);
    let seg_c = ws.filter(pred_unranked(hist, f));
    let out = spec_order_windows(hist, ws);

    assert forall|p: int| 0 <= p < seg_a.len() implies spec_rank(
        hist,
        ws,
        #[trigger] seg_a[p],
    ) == 0 by {
        Seq::lemma_filter_pred(ws, pred_focused(f), p);
    }
    assert(seg_a.len() <= 1) by {
        if f is Some {
            lemma_filter_same_id_le_one(ws, pred_focused(f), f->0);
        } else {
            if seg_a.len() > 0 {
                Seq::lemma_filter_pred(ws, pred_focused(f), 0);
            }
        }
    }

    lemma_hist_segment_sorted(hist, ws, hist.len() as int);

    lemma_filter_ids_increasing(ws, pred_unranked(hist, f));
    assert forall|p: int| 0 <= p < seg_c.len() implies spec_rank(hist, ws, #[trigger] seg_c[p])
        == 1 + hist.len() + spec_index_of_id(ws, seg_c[p].id) && spec_index_of_id(
        ws,
        seg_c[p].id,
    ) >= 0 by {
        Seq::lemma_filter_pred(ws, pred_unranked(hist, f), p);
        let i = choose|i: int| 0 <= i < ws.len() && ws[i] == #[trigger] seg_c[p];
        lemma_index_of_id_self(ws, i);
    }

    assert forall|i: int, j: int| 0 <= i < j < out.len() implies spec_rank(
        hist,
        ws,
        #[trigger] out[i],
    ) < spec_rank(hist, ws, #[trigger] out[j]) by {
        let na = seg_a.len() as int;
        let nb = seg_b.len() as int;
        assert(out[i] == if i < na {
            seg_a[i]
        } else if i < na + nb {
            seg_b[i - na]
        } else {
            seg_c[i - na - nb]
        });
        assert(out[j] == if j < na {
            seg_a[j]
        } else if j < na + nb {
            seg_b[j - na]
        } else {
            seg_c[j - na - nb]
        });
    }
}

/// The focused-first law: whenever some window in a distinct-id list
/// is flagged focused, the MRU ordering places that window first.
pub proof fn lemma_order_windows_focused_first(hist: Seq<u64>, ws: Seq<WindowEntry>)
    requires
        distinct_ids(ws),
        spec_focused_id(ws) is Some,
    ensures
        spec_order_windows(hist, ws).len() > 0,
        spec_order_windows(hist, ws)[0].is_focused,
        Some(spec_order_windows(hist, ws)[0].id) == spec_focused_id(ws),
{
    let f = spec_focused_id(ws);
    let pred = pred_focused(f);
    let seg_a = ws.filter(pred);
    lemma_focused_id_witness(ws);
    let fi = choose|i: int|
        0 <= i < ws.len() && (#[trigger] ws[i]).is_focused && ws[i].id == f->0;
    Seq::lemma_filter_contains(ws, pred, fi);
    assert(seg_a.len() > 0);
    assert(spec_order_windows(hist, ws)[0] == seg_a[0]);
    Seq::lemma_filter_pred(ws, pred, 0);
    lemma_filter_ids_increasing(ws, pred);
    let i0 = choose|i: int| 0 <= i < ws.len() && ws[i] == #[trigger] seg_a[0];
    assert(ws[i0].id == f->0);
    assert(ws[i0] == ws[fi]) by {
        if i0 != fi {
            assert(ws[i0].id != ws[fi].id);
        }
    }
}

/// Whether `x` occurs anywhere in `v`.
fn contains_id(v: &Vec<u64>, x: u64) -> (r: bool)
    ensures
        r == v@.contains(x),
{
    let mut j: usize = 0;
    while j < v.len()
        invariant
            j <= v@.len(),
            forall|k: int| 0 <= k < j ==> v@[k] != x,
        decreases v@.len() - j,
    {
        if v[j] == x {
            return true;
        }
        j = j + 1;
    }
    false
}

/// Recency history, most-recent first.
pub struct MruState {
    order: Vec<u64>,
}

impl View for MruState {
    type V = Seq<u64>;

    closed spec fn view(&self) -> Seq<u64> {
        self.order@
    }
}

/// The invariant every reachable history satisfies: bounded by
/// [`HISTORY_CAP`] and free of duplicate ids.
pub open spec fn history_wf(h: Seq<u64>) -> bool {
    h.len() <= HISTORY_CAP && h.no_duplicates()
}

impl Default for MruState {
    /// A fresh daemon starts with an empty history.
    fn default() -> (r: MruState)
        ensures
            r@ == Seq::<u64>::empty(),
    {
        MruState { order: Vec::new() }
    }
}

impl MruState {
    /// Record a committed focus on `id`: remove `id` from the history
    /// if present, reinsert it at the front, then truncate to the
    /// [`HISTORY_CAP`]-entry cap.
    pub fn update_on_focus(&mut self, id: u64)
        ensures
            final(self)@ == spec_update_on_focus(old(self)@, id),
            final(self)@.len() <= HISTORY_CAP,
            history_wf(old(self)@) ==> history_wf(final(self)@),
    {
        let ghost h = self.order@;
        let mut out: Vec<u64> = Vec::new();
        out.push(id);
        let mut i: usize = 0;
        while i < self.order.len()
            invariant
                i <= self.order.len(),
                self.order@ == h,
                out@ == seq![id] + spec_remove_id(h.take(i as int), id),
            decreases self.order.len() - i,
        {
            let x = self.order[i];
            proof {
                assert(h.take(i + 1).drop_last() =~= h.take(i as int));
                assert(h.take(i + 1).last() == h[i as int]);
            }
            if x != id {
                out.push(x);
            }
            i = i + 1;
        }
        proof {
            assert(h.take(h.len() as int) =~= h);
        }
        if out.len() > HISTORY_CAP {
            out.truncate(HISTORY_CAP);
        }
        self.order = out;
        proof {
            if history_wf(h) {
                lemma_remove_id_no_duplicates(h, id);
                let all = seq![id] + spec_remove_id(h, id);
                assert(all.no_duplicates());
                if all.len() > HISTORY_CAP {
                    assert(self.order@ =~= all.take(HISTORY_CAP as int));
                    assert(all.take(HISTORY_CAP as int).no_duplicates()) by {
                        assert(forall|k: int| 0 <= k < HISTORY_CAP ==> all.take(
                            HISTORY_CAP as int,
                        )[k] == all[k]);
                    }
                }
            }
        }
    }

    /// Rank `windows` by recency: the focused window first, then the
    /// windows present in the history by history position (most
    /// recent first), then the windows absent from the history in
    /// their original relative order.
    pub fn order_windows(&self, windows: Vec<WindowEntry>) -> (r: Vec<WindowEntry>)
        ensures
            r@ == spec_order_windows(self@, windows@),
    {
        let ghost hist = self.order@;
        let ghost ws = windows@;
        let f = find_focused(&windows);
        let ghost fg = spec_focused_id(ws);
        let mut out: Vec<WindowEntry> = Vec::new();

        let mut i: usize = 0;
        while i < windows.len()
            invariant
                i <= ws.len(),
                windows@ == ws,
                f == fg,
                out@ == ws.take(i as int).filter(pred_focused(fg)),
            decreases ws.len() - i,
        {
            let w = windows[i];
            let keep = match f {
                Some(fid) => w.id == fid,
                None => false,
            };
            proof {
                lemma_filter_take_step(ws, pred_focused(fg), i as int);
                assert(keep == pred_focused(fg)(w));
            }
            if keep {
                out.push(w);
            }
            i = i + 1;
        }
        proof {
            assert(ws.take(ws.len() as int) =~= ws);
        }
        let ghost seg_a = ws.filter(pred_focused(fg));

        let mut h: usize = 0;
        while h < self.order.len()
            invariant
                h <= hist.len(),
                self.order@ == hist,
                windows@ == ws,
                f == fg,
                out@ == seg_a + spec_hist_segment(hist, fg, ws, h as int),
                seg_a == ws.filter(pred_focused(fg)),
            decreases hist.len() - h,
        {
            let hid = self.order[h];
            let dup = prefix_contains(&self.order, h, hid);
            if !dup {
                let ghost mid = out@;
                let mut k: usize = 0;
                while k < windows.len()
                    invariant
                        k <= ws.len(),
                        windows@ == ws,
                        f == fg,
                        hid == hist[h as int],
                        out@ == mid + ws.take(k as int).filter(pred_hist_entry(hid, fg)),
                    decreases ws.len() - k,
                {
                    let w = windows[k];
                    let same = w.id == hid;
                    let not_focused = match f {
                        Some(fid) => w.id != fid,
                        None => true,
                    };
                    let keep = same && not_focused;
                    proof {
                        lemma_filter_take_step(ws, pred_hist_entry(hid, fg), k as int);
                        assert(keep == pred_hist_entry(hid, fg)(w));
                        if keep {
                            assert((mid + ws.take(k as int).filter(pred_hist_entry(hid, fg))).push(
                                w,
                            ) =~= mid + ws.take(k as int).filter(pred_hist_entry(hid, fg)).push(w));
                        }
                    }
                    if keep {
                        out.push(w);
                    }
                    k = k + 1;
                }
                proof {
                    assert(ws.take(ws.len() as int) =~= ws);
                    assert(spec_hist_block(hist, fg, ws, h as int) == ws.filter(
                        pred_hist_entry(hid, fg),
                    ));
                }
            } else {
                proof {
                    assert(spec_hist_block(hist, fg, ws, h as int) =~= Seq::<
                        WindowEntry,
                    >::empty());
                }
            }
            proof {
                assert(spec_hist_segment(hist, fg, ws, h + 1) == spec_hist_segment(
                    hist,
                    fg,
                    ws,
                    h as int,
                ) + spec_hist_block(hist, fg, ws, h as int));
                assert(seg_a + spec_hist_segment(hist, fg, ws, h + 1) =~= (seg_a
                    + spec_hist_segment(hist, fg, ws, h as int)) + spec_hist_block(
                    hist,
                    fg,
                    ws,
                    h as int,
                ));
            }
            h = h + 1;
        }
        let ghost seg_ab = seg_a + spec_hist_segment(hist, fg, ws, hist.len() as int);

        let mut k: usize = 0;
        while k < windows.len()
            invariant
                k <= ws.len(),
                windows@ == ws,
                self.order@ == hist,
                f == fg,
                out@ == seg_ab + ws.take(k as int).filter(pred_unranked(hist, fg)),
            decreases ws.len() - k,
        {
            let w = windows[k];
            let not_focused = match f {
                Some(fid) => w.id != fid,
                None => true,
            };
            let keep = not_focused && !contains_id(&self.order, w.id);
            proof {
                lemma_filter_take_step(ws, pred_unranked(hist, fg), k as int);
                assert(keep == pred_unranked(hist, fg)(w));
                if keep {
                    assert((seg_ab + ws.take(k as int).filter(pred_unranked(hist, fg))).push(w)
                        =~= seg_ab + ws.take(k as int).filter(pred_unranked(hist, fg)).push(w));
                }
            }
            if keep {
                out.push(w);
            }
            k = k + 1;
        }
        proof {
            assert(ws.take(ws.len() as int) =~= ws);
            assert(out@ =~= spec_order_windows(hist, ws));
        }
        out
    }

    /// The ids currently remembered, most-recent first.
    pub fn history(&self) -> (r: Vec<u64>)
        ensures
            r@ == self@,
    {
        let mut r: Vec<u64> = Vec::new();
        let mut i: usize = 0;
        while i < self.order.len()
            invariant
                i <= self.order.len(),
                r@ == self.order@.take(i as int),
            decreases self.order.len() - i,
        {
            r.push(self.order[i]);
            proof {
                assert(self.order@.take(i + 1) =~= self.order@.take(i as int).push(
                    self.order@[i as int],
                ));
            }
            i = i + 1;
        }
        proof {
            assert(self.order@.take(self.order@.len() as int) =~= self.order@);
        }
        r
    }
}

} // verus!
