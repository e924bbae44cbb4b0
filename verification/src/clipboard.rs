//! Selection state of a clipboard session, as a state machine over the
//! data-control protocol's events: which MIME types the current selection
//! offers, which offer object to read from, what our own source serves,
//! and the loop suppression of selection changes that our own writes cause.
//! The protocol objects themselves are carried as opaque values `O`.
use vstd::prelude::*;
use vstd::string::StringSliceAdditionalSpecFns;

verus! {

/// Clipboard content cap: reading errors above this instead of truncating.
pub const MAX_CLIPBOARD_SIZE: usize = 1_048_576;

/// A selection change as reported to a watcher.
#[derive(Debug, Clone, PartialEq, Eq)]
pub enum Event {
    /// Selection changed; empty `mimes` means the selection was cleared.
    Changed { mimes: Vec<String> },
}

/// The MIME types an event reports.
pub open spec fn event_mimes(e: Event) -> Seq<Seq<char>> {
    match e {
        Event::Changed { mimes } => string_views(mimes@),
    }
}

/// The character contents of a sequence of strings.
pub open spec fn string_views(s: Seq<String>) -> Seq<Seq<char>> {
    s.map_values(|m: String| m@)
}

/// Opaque token identifying one of our own writes.
#[derive(Debug, Clone, Copy, PartialEq, Eq, Hash, Structural)]
pub struct Origin {
    id: u32,
}

impl View for Origin {
    type V = u32;

    closed spec fn view(&self) -> u32 {
        self.id
    }
}

impl Origin {
    pub fn new(id: u32) -> (o: Self)
        ensures
            o@ == id,
    {
        Self { id }
    }

    pub fn id(&self) -> (id: u32)
        ensures
            id == self@,
    {
        self.id
    }
}

/// Two tokens are equal exactly when their ids are.
pub proof fn lemma_origin_eq(a: Origin, b: Origin)
    ensures
        (a == b) <==> (a@ == b@),
{
}

/// Errors of the clipboard logic.
#[derive(Debug, Clone, PartialEq, Eq)]
pub enum ClipboardError {
    /// The compositor does not offer the data-control protocol.
    ProtocolUnavailable,
    /// No selection present.
    NoSelection,
    /// Unsupported MIME type.
    UnsupportedMime(String),
    /// Clipboard content exceeds the maximum size (in bytes).
    TooLarge(usize),
}

/// The bytes of `text/plain`.
pub open spec fn text_plain_bytes() -> Seq<u8> {
    seq![0x74u8, 0x65, 0x78, 0x74, 0x2f, 0x70, 0x6c, 0x61, 0x69, 0x6e]
}

/// `s` starts with `prefix`.
pub open spec fn starts_with(s: Seq<u8>, prefix: Seq<u8>) -> bool {
    prefix.len() <= s.len() && s.subrange(0, prefix.len() as int) == prefix
}

/// A text MIME type: its bytes start with `text/plain`.
pub open spec fn is_text(mime: Seq<u8>) -> bool {
    starts_with(mime, text_plain_bytes())
}

/// Does `mime` start with `text/plain`?
pub fn is_text_mime(mime: &str) -> (b: bool)
    ensures
        b == is_text(mime.spec_bytes()),
{
    let bytes: &[u8] = mime.as_bytes();
    let prefix: [u8; 10] = [0x74u8, 0x65, 0x78, 0x74, 0x2f, 0x70, 0x6c, 0x61, 0x69, 0x6e];
    assert(prefix@ =~= text_plain_bytes());
    if bytes.len() < 10 {
        return false;
    }
    let mut i: usize = 0;
    while i < 10
        invariant
            0 <= i <= 10,
            bytes@.len() >= 10,
            bytes@ == mime.spec_bytes(),
            prefix@ == text_plain_bytes(),
            bytes@.subrange(0, i as int) == prefix@.subrange(0, i as int),
        decreases 10 - i,
    {
        if bytes[i] != prefix[i] {
            assert(bytes@.subrange(0, 10)[i as int] != text_plain_bytes()[i as int]);
            return false;
        }
        assert(bytes@.subrange(0, i + 1) =~= bytes@.subrange(0, i as int).push(bytes@[i as int]));
        assert(prefix@.subrange(0, i + 1) =~= prefix@.subrange(0, i as int).push(prefix@[i as int]));
        i = i + 1;
    }
    assert(prefix@.subrange(0, 10) =~= prefix@);
    true
}

/// Abstract state of a [`SelectionState`].
pub struct SelectionView<O> {
    /// MIME types of the current selection (empty: no selection)
    pub mimes: Seq<Seq<char>>,
    /// offer object of the current selection, kept for reading
    pub selection_offer: Option<O>,
    /// offer announced by a data-offer event, resolved by the next
    /// selection event
    pub pending_offer: Option<O>,
    /// MIME types and payload our own source serves
    pub own: Option<(Seq<Seq<char>>, Seq<u8>)>,
    /// the next selection event is caused by our own write
    pub suppress_next_selection: bool,
    /// identifier of the next origin token
    pub next_origin_id: u32,
}

/// Selection state of a clipboard session.
pub struct SelectionState<O> {
    selection_mimes: Vec<String>,
    selection_offer: Option<O>,
    pending_offer: Option<O>,
    own_payload: Option<(Vec<String>, Vec<u8>)>,
    suppress_next_selection: bool,
    next_origin_id: u32,
}

impl<O> View for SelectionState<O> {
    type V = SelectionView<O>;

    closed spec fn view(&self) -> SelectionView<O> {
        SelectionView {
            mimes: string_views(self.selection_mimes@),
            selection_offer: self.selection_offer,
            pending_offer: self.pending_offer,
            own: match self.own_payload {
                Some((m, p)) => Some((string_views(m@), p@)),
                None => None,
            },
            suppress_next_selection: self.suppress_next_selection,
            next_origin_id: self.next_origin_id,
        }
    }
}

/// A data-offer event starts a new offer: the MIME list restarts empty.
pub open spec fn data_offer_step<O>(v: SelectionView<O>, offer: O) -> SelectionView<O> {
    SelectionView { mimes: Seq::empty(), pending_offer: Some(offer), ..v }
}

/// An offer announces one more MIME type.
pub open spec fn offer_mime_step<O>(v: SelectionView<O>, mime: Seq<char>) -> SelectionView<O> {
    SelectionView { mimes: v.mimes.push(mime), ..v }
}

/// A selection event: the pending offer becomes the selection (a cleared
/// selection empties the MIME list); the change is reported with the MIME
/// list unless our own write caused it, which only clears the suppression.
pub open spec fn selection_step<O>(v: SelectionView<O>, has_selection: bool) -> (
    SelectionView<O>,
    Option<Seq<Seq<char>>>,
) {
    let mimes = if has_selection {
        v.mimes
    } else {
        Seq::empty()
    };
    let v1 = SelectionView {
        mimes,
        selection_offer: v.pending_offer,
        pending_offer: None,
        suppress_next_selection: false,
        ..v
    };
    if v.suppress_next_selection {
        (v1, None)
    } else {
        (v1, Some(mimes))
    }
}

/// Becoming the selection source: refused above the size cap; otherwise
/// our source serves `payload` for `mimes`, and the selection event that
/// our write causes will not be reported.
pub open spec fn offer_step<O>(v: SelectionView<O>, mimes: Seq<Seq<char>>, payload: Seq<u8>) -> (
    SelectionView<O>,
    Result<(), ClipboardError>,
) {
    if payload.len() > MAX_CLIPBOARD_SIZE {
        (v, Err(ClipboardError::TooLarge(MAX_CLIPBOARD_SIZE)))
    } else {
        (SelectionView { own: Some((mimes, payload)), suppress_next_selection: true, ..v }, Ok(()))
    }
}

/// Issuing an origin: the token carries the next identifier, which then
/// advances by one.
pub open spec fn issue_step<O>(v: SelectionView<O>) -> (SelectionView<O>, u32) {
    (SelectionView { next_origin_id: (v.next_origin_id + 1) as u32, ..v }, v.next_origin_id)
}

/// Our source was cancelled: it no longer serves anything.
pub open spec fn cancel_step<O>(v: SelectionView<O>) -> SelectionView<O> {
    SelectionView { own: None, ..v }
}

/// The payload our source serves for a request of `mime`, if it offers it.
pub open spec fn served_payload<O>(v: SelectionView<O>, mime: Seq<char>) -> Option<Seq<u8>> {
    match v.own {
        Some((mimes, payload)) => if mimes.contains(mime) {
            Some(payload)
        } else {
            None
        },
        None => None,
    }
}

/// Why a read request is refused.
pub enum ReadRefusal {
    /// not a text MIME type
    NotText,
    /// no selection present
    NoSelection,
    /// the selection does not offer this MIME type
    NotOffered,
}

/// Outcome of a read request for `mime` (bytes `mime_bytes`, characters
/// `mime_chars`): only text MIME types, only with a selection, and only
/// MIME types the selection offers; gives the offer to receive from.
pub open spec fn read_check<O>(v: SelectionView<O>, mime_bytes: Seq<u8>, mime_chars: Seq<char>) -> Result<
    O,
    ReadRefusal,
> {
    if !is_text(mime_bytes) {
        Err(ReadRefusal::NotText)
    } else if v.selection_offer is None {
        Err(ReadRefusal::NoSelection)
    } else if !v.mimes.contains(mime_chars) {
        Err(ReadRefusal::NotOffered)
    } else {
        Ok(v.selection_offer->Some_0)
    }
}

/// Copy of a list of strings.
fn clone_strings(v: &Vec<String>) -> (c: Vec<String>)
    ensures
        string_views(c@) == string_views(v@),
{
    let c: Vec<String> = v.clone();
    assert(string_views(c@) =~= string_views(v@)) by {
        assert forall|i: int| 0 <= i < c@.len() implies c@[i]@ == v@[i]@ by {
            assert(vstd::pervasive::cloned::<String>(v@[i], c@[i]));
        }
    }
    c
}

/// Does `list` hold a string equal to `s`?
fn contains_str(list: &Vec<String>, s: &str) -> (b: bool)
    ensures
        b == string_views(list@).contains(s@),
{
    let target: String = s.to_owned();
    let mut i: usize = 0;
    while i < list.len()
        invariant
            0 <= i <= list@.len(),
            target@ == s@,
            forall|j: int| 0 <= j < i ==> (#[trigger] list@[j])@ != s@,
        decreases list@.len() - i,
    {
        if list[i] == target {
            assert(string_views(list@)[i as int] == s@);
            return true;
        }
        i = i + 1;
    }
    assert forall|j: int| 0 <= j < string_views(list@).len() implies string_views(list@)[j] != s@ by {
        assert(list@[j]@ != s@);
    }
    false
}

/// Strings of a list of string slices.
fn to_strings(mimes: &[&str]) -> (v: Vec<String>)
    ensures
        string_views(v@) == mimes@.map_values(|m: &str| m@),
{
    let mut v: Vec<String> = Vec::new();
    let mut i: usize = 0;
    while i < mimes.len()
        invariant
            0 <= i <= mimes@.len(),
            v@.len() == i,
            forall|j: int| 0 <= j < i ==> (#[trigger] v@[j])@ == mimes@[j]@,
        decreases mimes@.len() - i,
    {
        let m: String = mimes[i].to_owned();
        v.push(m);
        i = i + 1;
    }
    assert(string_views(v@) =~= mimes@.map_values(|m: &str| m@));
    v
}

impl<O> SelectionState<O> {
    /// No selection known yet; origin identifiers start at 1.
    pub fn new() -> (s: Self)
        ensures
            s@.mimes == Seq::<Seq<char>>::empty(),
            s@.selection_offer is None,
            s@.pending_offer is None,
            s@.own is None,
            !s@.suppress_next_selection,
            s@.next_origin_id == 1,
    {
        let s = SelectionState {
            selection_mimes: Vec::new(),
            selection_offer: None,
            pending_offer: None,
            own_payload: None,
            suppress_next_selection: false,
            next_origin_id: 1,
        };
        assert(s@.mimes =~= Seq::<Seq<char>>::empty());
        s
    }

    /// MIME types of the current selection (empty: cleared).
    pub fn selection_mimes(&self) -> (m: &[String])
        ensures
            string_views(m@) == self@.mimes,
    {
        self.selection_mimes.as_slice()
    }

    /// The current selection's offer object, if any.
    pub fn selection_offer(&self) -> (o: Option<&O>)
        ensures
            match o {
                Some(x) => self@.selection_offer == Some(*x),
                None => self@.selection_offer is None,
            },
    {
        self.selection_offer.as_ref()
    }

    /// A data-offer event: a new offer cycle.
    pub fn on_data_offer(&mut self, offer: O)
        ensures
            final(self)@ == data_offer_step(old(self)@, offer),
    {
        self.selection_mimes.clear();
        self.pending_offer = Some(offer);
        assert(final(self)@.mimes =~= Seq::<Seq<char>>::empty());
    }

    /// An offer event announcing one MIME type.
    pub fn on_offer_mime(&mut self, mime: String)
        ensures
            final(self)@ == offer_mime_step(old(self)@, mime@),
    {
        let ghost m = mime@;
        self.selection_mimes.push(mime);
        assert(final(self)@.mimes =~= old(self)@.mimes.push(m));
    }

    /// A selection event; gives the event to report, if any.
    pub fn on_selection(&mut self, has_selection: bool) -> (r: Option<Event>)
        ensures
            final(self)@ == selection_step(old(self)@, has_selection).0,
            match selection_step(old(self)@, has_selection).1 {
                Some(mimes) => r matches Some(e) && event_mimes(e) == mimes,
                None => r is None,
            },
    {
        self.selection_offer = self.pending_offer.take();
        if !has_selection {
            self.selection_mimes.clear();
        }
        assert(string_views(self.selection_mimes@) =~= selection_step(old(self)@, has_selection).0.mimes);
        // our own write caused this event: update state, do not report
        if self.suppress_next_selection {
            self.suppress_next_selection = false;
            return None;
        }
        let mimes: Vec<String> = clone_strings(&self.selection_mimes);
        Some(Event::Changed { mimes })
    }

    /// Check a read request for `mime`; gives the offer to receive from.
    pub fn begin_read(&self, mime: &str) -> (r: Result<&O, ClipboardError>)
        ensures
            match read_check(self@, mime.spec_bytes(), mime@) {
                Ok(offer) => r == Ok::<&O, ClipboardError>(&offer),
                Err(ReadRefusal::NoSelection) => r == Err::<&O, ClipboardError>(
                    ClipboardError::NoSelection,
                ),
                Err(_) => r matches Err(ClipboardError::UnsupportedMime(m)) && m@ == mime@,
            },
    {
        if !is_text_mime(mime) {
            return Err(ClipboardError::UnsupportedMime(mime.to_owned()));
        }
        let offer: &O = match self.selection_offer.as_ref() {
            Some(o) => o,
            None => return Err(ClipboardError::NoSelection),
        };
        if !contains_str(&self.selection_mimes, mime) {
            return Err(ClipboardError::UnsupportedMime(mime.to_owned()));
        }
        Ok(offer)
    }

    /// Record our own write: refused above the size cap; otherwise our
    /// source serves `payload` for `mimes` and the selection event it
    /// causes is suppressed.
    pub fn record_offer(&mut self, mimes: &[&str], payload: Vec<u8>) -> (r: Result<(), ClipboardError>)
        ensures
            (final(self)@, r) == offer_step(
                old(self)@,
                mimes@.map_values(|m: &str| m@),
                payload@,
            ),
    {
        if payload.len() > MAX_CLIPBOARD_SIZE {
            return Err(ClipboardError::TooLarge(MAX_CLIPBOARD_SIZE));
        }
        let names: Vec<String> = to_strings(mimes);
        self.own_payload = Some((names, payload));
        self.suppress_next_selection = true;
        Ok(())
    }

    /// Identifier that the next origin token gets.
    pub fn next_origin_id(&self) -> (id: u32)
        ensures
            id == self@.next_origin_id,
    {
        self.next_origin_id
    }

    /// Issue the origin token of a completed write.
    pub fn issue_origin(&mut self) -> (o: Origin)
        requires
            old(self)@.next_origin_id < u32::MAX,
        ensures
            (final(self)@, o@) == issue_step(old(self)@),
    {
        let origin: Origin = Origin::new(self.next_origin_id);
        self.next_origin_id = self.next_origin_id + 1;
        origin
    }

    /// A send request on our source: the payload to write, if our source
    /// offers `mime`.
    pub fn on_source_send(&self, mime: &str) -> (p: Option<&[u8]>)
        ensures
            match served_payload(self@, mime@) {
                Some(bytes) => p matches Some(out) && out@ == bytes,
                None => p is None,
            },
    {
        match &self.own_payload {
            Some((mimes, payload)) => {
                if contains_str(mimes, mime) {
                    Some(payload.as_slice())
                } else {
                    None
                }
            },
            None => None,
        }
    }

    /// Our source was cancelled (another client took the selection).
    pub fn on_source_cancelled(&mut self)
        ensures
            final(self)@ == cancel_step(old(self)@),
    {
        self.own_payload = None;
    }
}


/// Byte accounting of a size-limited read: it errors once the total
/// exceeds the limit, and from then on every read errors; content is
/// never truncated.
pub struct ReadLimit {
    max_len: usize,
    total: usize,
    errored: bool,
}

/// Abstract state of a [`ReadLimit`].
pub struct ReadLimitView {
    pub max_len: nat,
    pub total: nat,
    pub errored: bool,
}

impl View for ReadLimit {
    type V = ReadLimitView;

    closed spec fn view(&self) -> ReadLimitView {
        ReadLimitView {
            max_len: self.max_len as nat,
            total: self.total as nat,
            errored: self.errored,
        }
    }
}

/// Accounting `n` more bytes: the total grows by `n`; `TooLarge` (and the
/// failed state) once it exceeds the limit.
pub open spec fn record_step(v: ReadLimitView, n: nat) -> (ReadLimitView, Result<usize, ClipboardError>) {
    let total = v.total + n;
    if total > v.max_len {
        (
            ReadLimitView { total, errored: true, ..v },
            Err(ClipboardError::TooLarge(v.max_len as usize)),
        )
    } else {
        (ReadLimitView { total, ..v }, Ok(n as usize))
    }
}

impl ReadLimit {
    /// The limit has failed exactly when the total exceeds it.
    pub closed spec fn wf(&self) -> bool {
        self.errored == (self.total > self.max_len)
    }

    pub fn new(max_len: usize) -> (l: Self)
        ensures
            l.wf(),
            l@ == (ReadLimitView { max_len: max_len as nat, total: 0, errored: false }),
    {
        ReadLimit { max_len, total: 0, errored: false }
    }

    /// Bytes accounted so far.
    pub fn total(&self) -> (t: usize)
        ensures
            t == self@.total,
    {
        self.total
    }

    /// May another read be attempted?
    pub fn may_read(&self) -> (b: bool)
        requires
            self.wf(),
        ensures
            b == !self@.errored,
            b == (self@.total <= self@.max_len),
    {
        !self.errored
    }

    /// Account for `n` more bytes read: `TooLarge` once the total exceeds
    /// the limit.
    pub fn record(&mut self, n: usize) -> (r: Result<usize, ClipboardError>)
        requires
            old(self).wf(),
            old(self)@.total + n <= usize::MAX,
        ensures
            final(self).wf(),
            (final(self)@, r) == record_step(old(self)@, n as nat),
    {
        self.total = self.total + n;
        if self.total > self.max_len {
            self.errored = true;
            return Err(ClipboardError::TooLarge(self.max_len));
        }
        Ok(n)
    }
}

} // verus!
