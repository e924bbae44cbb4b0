//! Properties of the clipboard selection state that span several events:
//! loop suppression of our own writes, and size-limited reading.
use vstd::prelude::*;
use crate::clipboard::{
    cancel_step, issue_step, data_offer_step, is_text, offer_mime_step, offer_step, read_check, record_step,
    selection_step, ClipboardError, ReadLimitView, ReadRefusal, SelectionView, MAX_CLIPBOARD_SIZE,
};

verus! {

/// The offer events announcing the MIME types `ms`, in order.
pub open spec fn announce<O>(v: SelectionView<O>, ms: Seq<Seq<char>>) -> SelectionView<O>
    decreases ms.len(),
{
    if ms.len() == 0 {
        v
    } else {
        offer_mime_step(announce(v, ms.drop_last()), ms.last())
    }
}

/// A new selection arriving: a data offer, its MIME types, then the
/// selection event.
pub open spec fn new_selection<O>(v: SelectionView<O>, offer: O, ms: Seq<Seq<char>>, has_selection: bool) -> (
    SelectionView<O>,
    Option<Seq<Seq<char>>>,
) {
    selection_step(announce(data_offer_step(v, offer), ms), has_selection)
}

proof fn lemma_announce<O>(v: SelectionView<O>, ms: Seq<Seq<char>>)
    ensures
        announce(v, ms).mimes == v.mimes + ms,
        announce(v, ms) == (SelectionView { mimes: v.mimes + ms, ..v }),
    decreases ms.len(),
{
    if ms.len() > 0 {
        lemma_announce(v, ms.drop_last());
        assert(v.mimes + ms.drop_last() + seq![ms.last()] =~= v.mimes + ms);
    } else {
        assert(v.mimes + ms =~= v.mimes);
    }
}

/// Loop suppression: after our own write, the selection change it causes
/// is not reported (though the selection state is updated), and the next
/// selection change is reported again, with exactly the MIME types it
/// announced (none when the selection is cleared).
pub proof fn lemma_own_write_not_reported<O>(
    v: SelectionView<O>,
    mimes: Seq<Seq<char>>,
    payload: Seq<u8>,
    own_offer: O,
    own_ms: Seq<Seq<char>>,
    own_has: bool,
    next_offer: O,
    next_ms: Seq<Seq<char>>,
    next_has: bool,
)
    requires
        payload.len() <= MAX_CLIPBOARD_SIZE,
    ensures
        ({
            let v1 = offer_step(v, mimes, payload).0;
            let (v2, r2) = new_selection(v1, own_offer, own_ms, own_has);
            let (v3, r3) = new_selection(v2, next_offer, next_ms, next_has);
            &&& r2 is None
            &&& v2.selection_offer == Some(own_offer)
            &&& v2.mimes == (if own_has {
                own_ms
            } else {
                Seq::empty()
            })
            &&& r3 == Some(
                if next_has {
                    next_ms
                } else {
                    Seq::<Seq<char>>::empty()
                },
            )
        }),
{
    let v1 = offer_step(v, mimes, payload).0;
    lemma_announce(data_offer_step(v1, own_offer), own_ms);
    assert(Seq::<Seq<char>>::empty() + own_ms =~= own_ms);
    let v2 = new_selection(v1, own_offer, own_ms, own_has).0;
    lemma_announce(data_offer_step(v2, next_offer), next_ms);
    assert(Seq::<Seq<char>>::empty() + next_ms =~= next_ms);
}

/// The selection follows the latest offer: whatever offer was current
/// before, and whether or not the change is reported (our own write) or
/// the selection is cleared, after a data offer and its selection event
/// the current selection offer is the offer that data-offer event
/// announced, and no offer is pending any more.
pub proof fn lemma_selection_takes_latest_offer<O>(
    v: SelectionView<O>,
    offer: O,
    ms: Seq<Seq<char>>,
    has_selection: bool,
)
    ensures
        new_selection(v, offer, ms, has_selection).0.selection_offer == Some(offer),
        new_selection(v, offer, ms, has_selection).0.pending_offer is None,
{
    lemma_announce(data_offer_step(v, offer), ms);
}

/// A read of a text MIME type is served by the current selection offer
/// whenever the selection offers that type, at whatever position of its
/// MIME list the type stands.
pub proof fn lemma_read_offered_at_any_position<O>(
    v: SelectionView<O>,
    mime_bytes: Seq<u8>,
    mime_chars: Seq<char>,
    i: int,
)
    requires
        is_text(mime_bytes),
        v.selection_offer is Some,
        0 <= i < v.mimes.len(),
        v.mimes[i] == mime_chars,
    ensures
        read_check(v, mime_bytes, mime_chars) == Ok::<O, ReadRefusal>(v.selection_offer->Some_0),
{
    assert(v.mimes.contains(mime_chars));
}

/// A read of a text MIME type that the current selection does not offer,
/// at any position, is refused as not offered.
pub proof fn lemma_read_not_offered_refused<O>(v: SelectionView<O>, mime_bytes: Seq<u8>, mime_chars: Seq<char>)
    requires
        is_text(mime_bytes),
        v.selection_offer is Some,
        forall|i: int| 0 <= i < v.mimes.len() ==> v.mimes[i] != mime_chars,
    ensures
        read_check(v, mime_bytes, mime_chars) == Err::<O, ReadRefusal>(ReadRefusal::NotOffered),
{
}

/// After a new selection arrives (a data offer, its MIME types `ms`, and a
/// selection event with a selection present), a read of any text MIME type
/// among `ms`, first or not, is served by that new offer, whatever the
/// state before.
pub proof fn lemma_read_after_new_selection<O>(
    v: SelectionView<O>,
    offer: O,
    ms: Seq<Seq<char>>,
    mime_bytes: Seq<u8>,
    mime_chars: Seq<char>,
    i: int,
)
    requires
        is_text(mime_bytes),
        0 <= i < ms.len(),
        ms[i] == mime_chars,
    ensures
        read_check(new_selection(v, offer, ms, true).0, mime_bytes, mime_chars) == Ok::<O, ReadRefusal>(
            offer,
        ),
{
    lemma_announce(data_offer_step(v, offer), ms);
    assert(Seq::<Seq<char>>::empty() + ms =~= ms);
    lemma_selection_takes_latest_offer(v, offer, ms, true);
    lemma_read_offered_at_any_position(new_selection(v, offer, ms, true).0, mime_bytes, mime_chars, i);
}

/// One event or request that changes the selection state.
pub enum SelectionOp<O> {
    /// the compositor announces a new offer object
    DataOffer(O),
    /// the current offer announces a MIME type
    OfferMime(Seq<char>),
    /// the compositor sets the selection (`false`: cleared)
    Selection(bool),
    /// we record our own write of a payload for some MIME types
    Offer(Seq<Seq<char>>, Seq<u8>),
    /// we issue the origin token of a completed write
    IssueOrigin,
    /// our source was cancelled
    SourceCancelled,
}

/// What running a sequence of operations gives: the final state, the ids
/// of the origin tokens issued, and the selection changes reported, in
/// order.
pub struct OpsOutcome<O> {
    pub state: SelectionView<O>,
    pub issued: Seq<u32>,
    pub reports: Seq<Seq<Seq<char>>>,
}

pub open spec fn run_op<O>(r: OpsOutcome<O>, op: SelectionOp<O>) -> OpsOutcome<O> {
    match op {
        SelectionOp::DataOffer(o) => OpsOutcome { state: data_offer_step(r.state, o), ..r },
        SelectionOp::OfferMime(m) => OpsOutcome { state: offer_mime_step(r.state, m), ..r },
        SelectionOp::Selection(has) => {
            let (v, rep) = selection_step(r.state, has);
            OpsOutcome {
                state: v,
                reports: match rep {
                    Some(m) => r.reports.push(m),
                    None => r.reports,
                },
                ..r
            }
        },
        SelectionOp::Offer(mimes, payload) => OpsOutcome {
            state: offer_step(r.state, mimes, payload).0,
            ..r
        },
        SelectionOp::IssueOrigin => {
            let (v, id) = issue_step(r.state);
            OpsOutcome { state: v, issued: r.issued.push(id), ..r }
        },
        SelectionOp::SourceCancelled => OpsOutcome { state: cancel_step(r.state), ..r },
    }
}

/// Running operations from the left, starting in `v`.
pub open spec fn run_ops<O>(v: SelectionView<O>, ops: Seq<SelectionOp<O>>) -> OpsOutcome<O>
    decreases ops.len(),
{
    if ops.len() == 0 {
        OpsOutcome { state: v, issued: Seq::empty(), reports: Seq::empty() }
    } else {
        run_op(run_ops(v, ops.drop_last()), ops.last())
    }
}

/// Number of origin tokens the operations issue.
pub open spec fn issue_count<O>(ops: Seq<SelectionOp<O>>) -> nat
    decreases ops.len(),
{
    if ops.len() == 0 {
        0
    } else {
        issue_count(ops.drop_last()) + if ops.last() is IssueOrigin {
            1nat
        } else {
            0nat
        }
    }
}

/// Origin tokens are issued with consecutive identifiers: starting from a
/// state whose next identifier is `v.next_origin_id` (1 for a new state),
/// the tokens issued by any sequence of operations carry that identifier,
/// the next one, and so on, so all of them are distinct and increasing.
pub proof fn lemma_origins_consecutive<O>(v: SelectionView<O>, ops: Seq<SelectionOp<O>>)
    requires
        v.next_origin_id + issue_count(ops) <= u32::MAX,
    ensures
        run_ops(v, ops).issued == Seq::new(issue_count(ops), |i: int| (v.next_origin_id + i) as u32),
        run_ops(v, ops).state.next_origin_id == v.next_origin_id + issue_count(ops),
    decreases ops.len(),
{
    if ops.len() > 0 {
        lemma_origins_consecutive(v, ops.drop_last());
        assert(run_ops(v, ops).issued =~= Seq::new(
            issue_count(ops),
            |i: int| (v.next_origin_id + i) as u32,
        ));
    } else {
        assert(run_ops(v, ops).issued =~= Seq::new(0, |i: int| (v.next_origin_id + i) as u32));
    }
}

/// Running `a` then `b` is running `a + b`.
proof fn lemma_run_ops_concat<O>(v: SelectionView<O>, a: Seq<SelectionOp<O>>, b: Seq<SelectionOp<O>>)
    ensures
        ({
            let ra = run_ops(v, a);
            let rb = run_ops(ra.state, b);
            let r = run_ops(v, a + b);
            &&& r.state == rb.state
            &&& r.issued == ra.issued + rb.issued
            &&& r.reports == ra.reports + rb.reports
        }),
    decreases b.len(),
{
    if b.len() == 0 {
        assert(a + b =~= a);
        assert(run_ops(v, a).issued + Seq::<u32>::empty() =~= run_ops(v, a).issued);
        assert(run_ops(v, a).reports + Seq::<Seq<Seq<char>>>::empty() =~= run_ops(v, a).reports);
    } else {
        lemma_run_ops_concat(v, a, b.drop_last());
        assert((a + b).drop_last() =~= a + b.drop_last());
        assert((a + b).last() == b.last());
        let ra = run_ops(v, a);
        let rb0 = run_ops(ra.state, b.drop_last());
        assert(ra.issued + rb0.issued.push(issue_step(rb0.state).1) =~= (ra.issued + rb0.issued).push(
            issue_step(rb0.state).1,
        ));
        assert(forall|m: Seq<Seq<char>>|
            ra.reports + rb0.reports.push(m) =~= (ra.reports + rb0.reports).push(m));
    }
}

/// The MIME announcements of an offer.
pub open spec fn mime_ops<O>(ms: Seq<Seq<char>>) -> Seq<SelectionOp<O>>
    decreases ms.len(),
{
    if ms.len() == 0 {
        Seq::empty()
    } else {
        mime_ops(ms.drop_last()).push(SelectionOp::OfferMime(ms.last()))
    }
}

/// What the compositor sends for one selection: an offer object with its
/// MIME types and the selection event, or, for a cleared selection, only
/// the selection event.
pub open spec fn selection_ops<O>(offer: O, ms: Seq<Seq<char>>, has_selection: bool) -> Seq<
    SelectionOp<O>,
> {
    if has_selection {
        seq![SelectionOp::DataOffer(offer)] + mime_ops(ms) + seq![SelectionOp::Selection(true)]
    } else {
        seq![SelectionOp::Selection(false)]
    }
}

/// What the compositor sends for a sequence of selections.
pub open spec fn compositor_ops<O>(sels: Seq<(O, Seq<Seq<char>>, bool)>) -> Seq<SelectionOp<O>>
    decreases sels.len(),
{
    if sels.len() == 0 {
        Seq::empty()
    } else {
        let (o, ms, has) = sels.last();
        compositor_ops(sels.drop_last()) + selection_ops(o, ms, has)
    }
}

/// The MIME list a watcher expects for each selection: the offered types,
/// or none for a cleared selection.
pub open spec fn expected_reports<O>(sels: Seq<(O, Seq<Seq<char>>, bool)>) -> Seq<Seq<Seq<char>>> {
    sels.map_values(
        |s: (O, Seq<Seq<char>>, bool)|
            if s.2 {
                s.1
            } else {
                Seq::<Seq<char>>::empty()
            },
    )
}

proof fn lemma_mime_ops<O>(r: OpsOutcome<O>, ms: Seq<Seq<char>>)
    ensures
        run_ops(r.state, mime_ops::<O>(ms)) == (OpsOutcome {
            state: announce(r.state, ms),
            issued: Seq::<u32>::empty(),
            reports: Seq::<Seq<Seq<char>>>::empty(),
        }),
    decreases ms.len(),
{
    if ms.len() > 0 {
        lemma_mime_ops(r, ms.drop_last());
        assert(mime_ops::<O>(ms).drop_last() =~= mime_ops::<O>(ms.drop_last()));
    }
}

/// Without writes of our own, a watcher hears of every selection once, in
/// order: each selection that the compositor sends is reported with exactly
/// the MIME types it offered, and a cleared selection with none.
pub proof fn lemma_one_report_per_selection<O>(v: SelectionView<O>, sels: Seq<(O, Seq<Seq<char>>, bool)>)
    requires
        !v.suppress_next_selection,
    ensures
        run_ops(v, compositor_ops(sels)).reports == expected_reports(sels),
        !run_ops(v, compositor_ops(sels)).state.suppress_next_selection,
    decreases sels.len(),
{
    reveal_with_fuel(run_ops, 2);
    if sels.len() == 0 {
        assert(expected_reports(sels) =~= Seq::<Seq<Seq<char>>>::empty());
    } else {
        let pre = sels.drop_last();
        let (o, ms, has) = sels.last();
        lemma_one_report_per_selection(v, pre);
        let r0 = run_ops(v, compositor_ops(pre));
        assert(compositor_ops(sels) == compositor_ops(pre) + selection_ops(o, ms, has));
        lemma_run_ops_concat(v, compositor_ops(pre), selection_ops(o, ms, has));
        let rs = run_ops(r0.state, selection_ops(o, ms, has));
        if has {
            let d = seq![SelectionOp::DataOffer(o)];
            let m = mime_ops::<O>(ms);
            let s = seq![SelectionOp::Selection(true)];
            assert(selection_ops(o, ms, has) =~= (d + m) + s);
            lemma_run_ops_concat(r0.state, d + m, s);
            lemma_run_ops_concat(r0.state, d, m);
            let rd = run_ops(r0.state, d);
            assert(d.drop_last() =~= Seq::<SelectionOp<O>>::empty());
            lemma_mime_ops(rd, ms);
            lemma_announce(data_offer_step(r0.state, o), ms);
            assert(Seq::<Seq<char>>::empty() + ms =~= ms);
            assert(s.drop_last() =~= Seq::<SelectionOp<O>>::empty());
            assert(Seq::<Seq<Seq<char>>>::empty() + Seq::<Seq<Seq<char>>>::empty()
                =~= Seq::<Seq<Seq<char>>>::empty());
            assert(Seq::<Seq<Seq<char>>>::empty() + seq![ms] =~= seq![ms]);
            let rdm = run_ops(r0.state, d + m);
            assert(rdm.reports =~= Seq::<Seq<Seq<char>>>::empty());
            assert(rdm.state == announce(data_offer_step(r0.state, o), ms));
            assert(rs.reports =~= seq![ms]);
        } else {
            assert(selection_ops(o, ms, has).drop_last() =~= Seq::<SelectionOp<O>>::empty());
            assert(rs.reports =~= seq![Seq::<Seq<char>>::empty()]);
        }
        assert(expected_reports(sels) =~= expected_reports(pre).push(
            if has {
                ms
            } else {
                Seq::<Seq<char>>::empty()
            },
        ));
    }
}

/// Reads through a limited reader: a read is refused once the limit has
/// failed; otherwise its bytes are accounted.  Gives the outcome of each
/// read.
pub open spec fn limited_reads(v: ReadLimitView, ns: Seq<nat>) -> Seq<Result<usize, ClipboardError>>
    decreases ns.len(),
{
    if ns.len() == 0 {
        Seq::empty()
    } else if v.total > v.max_len {
        seq![Err(ClipboardError::TooLarge(v.max_len as usize))] + limited_reads(v, ns.drop_first())
    } else {
        let (v1, r) = record_step(v, ns[0]);
        seq![r] + limited_reads(v1, ns.drop_first())
    }
}

proof fn lemma_limited_reads_len(v: ReadLimitView, ns: Seq<nat>)
    ensures
        limited_reads(v, ns).len() == ns.len(),
    decreases ns.len(),
{
    if ns.len() > 0 {
        let v1 = if v.total > v.max_len {
            v
        } else {
            record_step(v, ns[0]).0
        };
        lemma_limited_reads_len(v1, ns.drop_first());
    }
}

/// Bytes delivered by the successful reads.
pub open spec fn delivered(rs: Seq<Result<usize, ClipboardError>>) -> int
    decreases rs.len(),
{
    if rs.len() == 0 {
        0
    } else {
        (match rs[0] {
            Ok(n) => n as int,
            Err(_) => 0,
        }) + delivered(rs.drop_first())
    }
}

/// A limited read never truncates: the bytes delivered stay within the
/// limit, and once a read has failed every later read fails.
pub proof fn lemma_limited_read_never_truncates(v: ReadLimitView, ns: Seq<nat>)
    requires
        v.total <= v.max_len,
        forall|i: int| 0 <= i < ns.len() ==> ns[i] <= usize::MAX,
    ensures
        v.total + delivered(limited_reads(v, ns)) <= v.max_len,
        forall|i: int, j: int|
            0 <= i < j < ns.len() && (#[trigger] limited_reads(v, ns)[i]) is Err
                ==> (#[trigger] limited_reads(v, ns)[j]) is Err,
    decreases ns.len(),
{
    if ns.len() > 0 {
        let (v1, r) = record_step(v, ns[0]);
        let rest = limited_reads(v1, ns.drop_first());
        let rs = limited_reads(v, ns);
        lemma_limited_reads_len(v1, ns.drop_first());
        assert(rs == seq![r] + rest);
        assert(rs.drop_first() =~= rest);
        if r is Ok {
            lemma_limited_read_never_truncates(v1, ns.drop_first());
            assert forall|i: int, j: int|
                0 <= i < j < ns.len() && (#[trigger] rs[i]) is Err implies (#[trigger] rs[j]) is Err by {
                assert(rs[i] == rest[i - 1]);
                assert(rs[j] == rest[j - 1]);
            }
        } else {
            lemma_failed_reads_stay_failed(v1, ns.drop_first());
            assert forall|i: int, j: int|
                0 <= i < j < ns.len() && (#[trigger] rs[i]) is Err implies (#[trigger] rs[j]) is Err by {
                assert(rs[j] == rest[j - 1]);
            }
        }
    }
}

/// Total of the read sizes.
pub open spec fn sum_sizes(ns: Seq<nat>) -> nat
    decreases ns.len(),
{
    if ns.len() == 0 {
        0
    } else {
        ns[0] + sum_sizes(ns.drop_first())
    }
}

/// Content within the limit is delivered whole: every read succeeds and all
/// bytes arrive.  Content beyond the limit makes some read fail.
pub proof fn lemma_limited_read_delivers_within_limit(v: ReadLimitView, ns: Seq<nat>)
    requires
        v.total <= v.max_len,
        forall|i: int| 0 <= i < ns.len() ==> ns[i] <= usize::MAX,
    ensures
        v.total + sum_sizes(ns) <= v.max_len ==> {
            &&& forall|i: int| 0 <= i < ns.len() ==> (#[trigger] limited_reads(v, ns)[i]) is Ok
            &&& delivered(limited_reads(v, ns)) == sum_sizes(ns)
        },
        v.total + sum_sizes(ns) > v.max_len ==> exists|i: int|
            0 <= i < ns.len() && (#[trigger] limited_reads(v, ns)[i]) is Err,
    decreases ns.len(),
{
    if ns.len() > 0 {
        let (v1, r) = record_step(v, ns[0]);
        let rest = limited_reads(v1, ns.drop_first());
        let rs = limited_reads(v, ns);
        lemma_limited_reads_len(v1, ns.drop_first());
        assert(rs.drop_first() =~= rest);
        assert(rs[0] == r);
        if r is Ok {
            lemma_limited_read_delivers_within_limit(v1, ns.drop_first());
            assert forall|i: int| 0 < i < ns.len() implies rs[i] == rest[i - 1] by {}
            if v.total + sum_sizes(ns) > v.max_len {
                let j = choose|j: int| 0 <= j < ns.drop_first().len() && (#[trigger] rest[j]) is Err;
                assert(rs[j + 1] is Err);
            }
        } else {
            assert(rs[0] is Err);
        }
    }
}

/// Once the limit has failed, every read fails and nothing is delivered.
proof fn lemma_failed_reads_stay_failed(v: ReadLimitView, ns: Seq<nat>)
    requires
        v.total > v.max_len,
    ensures
        forall|i: int| 0 <= i < ns.len() ==> (#[trigger] limited_reads(v, ns)[i]) is Err,
        delivered(limited_reads(v, ns)) == 0,
    decreases ns.len(),
{
    if ns.len() > 0 {
        lemma_failed_reads_stay_failed(v, ns.drop_first());
        let rs = limited_reads(v, ns);
        let rest = limited_reads(v, ns.drop_first());
        lemma_limited_reads_len(v, ns.drop_first());
        assert(rs.drop_first() =~= rest);
        assert forall|i: int| 0 <= i < ns.len() implies (#[trigger] rs[i]) is Err by {
            if i > 0 {
                assert(rs[i] == rest[i - 1]);
            }
        }
    }
}

} // verus!
