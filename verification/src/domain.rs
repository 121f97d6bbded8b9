use vstd::prelude::*;
use vstd::multiset::Multiset;
use crate::codec::{
    enc_str, enc_bool, enc_len, p_str, p_bool, p_num, lemma_p_str_enc, lemma_p_bool_enc,
    lemma_p_num_enc, lemma_enc_str_len, lemma_enc_num_len, lemma_subrange_split, push_str,
    push_bool, push_num, parse_str, parse_bool, parse_num, chars_to_string, string_chars,
    NUM_WIDTH,
};

verus! {

/// Failure of a content-layer encoding or decoding step.
#[derive(Clone, Copy, Debug, PartialEq, Eq, Structural)]
pub enum MarshalError {
    /// The value could not be marshalled, or the text was not a valid
    /// marshalled value.
    Failed,
}

/// The capability a domain object must expose to take part in logging and
/// persistence: a stable identifier, a synchronization flag, and a stable
/// textual encoding with its inverse. The spec functions speak of the
/// object's view, so that what is stated survives a round trip through text.
pub trait Content: View + Sized {
    /// Well-formedness of a view of the implementing type.
    spec fn inv_spec(v: Self::V) -> bool;

    /// The stable identifier, as contracts speak of it.
    spec fn id_spec(&self) -> Seq<char>;

    /// Whether the object is already known to a remote counterpart.
    spec fn sync_spec(&self) -> bool;

    /// Whether marshalling succeeds for a value with this view.
    spec fn marshal_ok(v: Self::V) -> bool;

    /// The canonical text encoding of a value with this view.
    spec fn marshal_spec(v: Self::V) -> Seq<char>;

    /// The decoding of a text, if it is the canonical encoding of some
    /// well-formed value's view.
    spec fn unmarshal_spec(s: Seq<char>) -> Option<Self::V>;

    /// Law: unmarshalling inverts marshalling on every well-formed view
    /// that marshals.
    proof fn lemma_marshal_round_trip(v: Self::V)
        requires
            Self::inv_spec(v),
            Self::marshal_ok(v),
        ensures
            Self::unmarshal_spec(Self::marshal_spec(v)) == Some(v),
    ;

    /// Law: whatever unmarshalling accepts is well formed and marshals
    /// again.
    proof fn lemma_unmarshal_inv(s: Seq<char>)
        ensures
            Self::unmarshal_spec(s) matches Some(v) ==> Self::inv_spec(v) && Self::marshal_ok(
                v,
            ),
    ;

    fn get_id(&self) -> (r: String)
        ensures
            r@ == self.id_spec(),
    ;

    fn is_synchronised(&self) -> (r: bool)
        ensures
            r == self.sync_spec(),
    ;

    fn marshal(&self) -> (r: Result<String, MarshalError>)
        ensures
            r is Ok <==> Self::marshal_ok(self@),
            r matches Ok(s) ==> s@ == Self::marshal_spec(self@),
    ;

    fn unmarshal(s: &str) -> (r: Result<Self, MarshalError>)
        ensures
            r matches Ok(v) ==> Self::unmarshal_spec(s@) == Some(v@),
            r is Err <==> Self::unmarshal_spec(s@) is None,
    ;
}

/// The instant an RFC 3339 string denotes, in milliseconds since the Unix
/// epoch, or nothing for a string chrono does not parse. The string carries
/// its own UTC offset, so this is a function of the string alone.
pub uninterp spec fn epoch_millis_of(s: Seq<char>) -> Option<i64>;

/// How far from the epoch, in milliseconds, this library is willing to
/// shift a timestamp: about three thousand years, far inside chrono's
/// documented range.
pub const EPOCH_MILLIS_RANGE: i64 = 100_000_000_000_000;

/// Conversions between timestamps and their RFC 3339 text form, carried out
/// by chrono.
pub struct DTWrapper;

impl DTWrapper {
    /// Relies on chrono's Local::now and to_rfc3339_opts: the current
    /// time, at millisecond precision, as an RFC 3339 string, which parses
    /// back to an instant. Which instant it is cannot be promised of a
    /// clock reading.
    #[verifier::external_body]
    pub fn now_rfc3339() -> (r: String)
        ensures
            epoch_millis_of(r@) is Some,
    {
        chrono::Local::now().to_rfc3339_opts(chrono::SecondsFormat::Millis, false)
    }

    /// Relies on chrono's DateTime parsing and timestamp_millis: both are
    /// deterministic in the string, which carries its own offset.
    #[verifier::external_body]
    pub fn parse_rfc3339_millis(s: &str) -> (r: Option<i64>)
        ensures
            r == epoch_millis_of(s@),
    {
        let dt: Result<chrono::DateTime<chrono::Local>, _> = s.parse();
        match dt {
            Ok(d) => Some(d.timestamp_millis()),
            Err(_) => None,
        }
    }

    /// Relies on chrono's from_timestamp_millis and to_rfc3339: the
    /// instant is rendered in UTC, whose zero offset to_rfc3339 writes
    /// exactly, so the produced string parses back to the instant it was
    /// made from. (A local-time rendering would not support this: local
    /// offsets can carry seconds, which the RFC 3339 writer rounds away.)
    /// Every instant within [`EPOCH_MILLIS_RANGE`] of the epoch is far
    /// inside chrono's documented range, so it formats.
    #[verifier::external_body]
    pub fn format_rfc3339(ms: i64) -> (r: Option<String>)
        ensures
            r matches Some(t) ==> epoch_millis_of(t@) == Some(ms),
            -EPOCH_MILLIS_RANGE <= ms <= EPOCH_MILLIS_RANGE ==> r is Some,
    {
        match chrono::DateTime::from_timestamp_millis(ms) {
            Some(d) => Some(d.to_rfc3339()),
            None => None,
        }
    }

    /// Moves an RFC 3339 timestamp by a number of milliseconds, refusing
    /// strings that do not parse and results further than
    /// [`EPOCH_MILLIS_RANGE`] from the epoch. The result is rendered in
    /// UTC, so that it denotes its instant exactly.
    pub fn shift_rfc3339(s: &str, delta_ms: i64) -> (r: Option<String>)
        ensures
            r matches Some(t) ==> epoch_millis_of(s@) matches Some(e)
                && epoch_millis_of(t@) matches Some(te) && te == e + delta_ms,
            (epoch_millis_of(s@) matches Some(e) && -EPOCH_MILLIS_RANGE <= e + delta_ms
                <= EPOCH_MILLIS_RANGE) ==> r is Some,
    {
        let e = match Self::parse_rfc3339_millis(s) {
            Some(e) => e,
            None => {
                return None;
            },
        };
        let sum: i128 = e as i128 + delta_ms as i128;
        if sum < -(EPOCH_MILLIS_RANGE as i128) || sum > EPOCH_MILLIS_RANGE as i128 {
            return None;
        }
        DTWrapper::format_rfc3339(sum as i64)
    }
}

/// Relies on uuid's Uuid::new_v4 and its hyphenated Display form: a random
/// version-4 identifier of 36 characters. Nothing more can be promised of a
/// random value.
#[verifier::external_body]
fn uuid_v4_string() -> (r: String)
    ensures
        r@.len() == 36,
{
    uuid::Uuid::new_v4().to_string()
}

/// The view of an [`Event`]: its fields, as mathematics speaks of them.
pub ghost struct EventV {
    pub id: Seq<char>,
    pub name: Seq<char>,
    pub desc: Seq<char>,
    pub location: Seq<char>,
    pub start: Seq<char>,
    pub end: Seq<char>,
    pub sync: bool,
}

/// A single event in time, stored in a calendar. The start and end
/// timestamps are RFC 3339 strings; the synchronization flag says whether a
/// remote counterpart already knows the event.
#[derive(Clone, Debug)]
pub struct Event {
    pub id: String,
    pub name: String,
    pub desc: String,
    pub location: String,
    pub start: String,
    pub end: String,
    pub sync: bool,
}

impl View for Event {
    type V = EventV;

    open spec fn view(&self) -> EventV {
        EventV {
            id: self.id@,
            name: self.name@,
            desc: self.desc@,
            location: self.location@,
            start: self.start@,
            end: self.end@,
            sync: self.sync,
        }
    }
}

/// Whether an event's fields are short enough for their length prefixes.
pub open spec fn event_ok(v: EventV) -> bool {
    &&& v.id.len() <= u64::MAX
    &&& v.name.len() <= u64::MAX
    &&& v.desc.len() <= u64::MAX
    &&& v.location.len() <= u64::MAX
    &&& v.start.len() <= u64::MAX
    &&& v.end.len() <= u64::MAX
}

/// The canonical text encoding of an event.
pub open spec fn enc_event(v: EventV) -> Seq<char> {
    enc_str(v.id) + enc_str(v.name) + enc_str(v.desc) + enc_str(v.location) + enc_str(v.start)
        + enc_str(v.end) + enc_bool(v.sync)
}

/// The parse of an event at position `i`.
pub open spec fn p_event(s: Seq<char>, i: int) -> Option<(EventV, int)> {
    match p_str(s, i) {
        None => None,
        Some((id, i1)) => match p_str(s, i1) {
            None => None,
            Some((name, i2)) => match p_str(s, i2) {
                None => None,
                Some((desc, i3)) => match p_str(s, i3) {
                    None => None,
                    Some((location, i4)) => match p_str(s, i4) {
                        None => None,
                        Some((start, i5)) => match p_str(s, i5) {
                            None => None,
                            Some((end, i6)) => match p_bool(s, i6) {
                                None => None,
                                Some((sync, i7)) => Some(
                                    (EventV { id, name, desc, location, start, end, sync }, i7),
                                ),
                            },
                        },
                    },
                },
            },
        },
    }
}

/// Parsing inverts the event encoding, wherever it is embedded.
pub proof fn lemma_p_event_enc(s: Seq<char>, i: int, v: EventV)
    requires
        0 <= i,
        event_ok(v),
        i + enc_event(v).len() <= s.len(),
        s.subrange(i, i + enc_event(v).len()) == enc_event(v),
    ensures
        p_event(s, i) == Some((v, i + enc_event(v).len())),
{
    lemma_enc_str_len(v.id);
    lemma_enc_str_len(v.name);
    lemma_enc_str_len(v.desc);
    lemma_enc_str_len(v.location);
    lemma_enc_str_len(v.start);
    lemma_enc_str_len(v.end);
    let i1 = i + enc_str(v.id).len();
    let i2 = i1 + enc_str(v.name).len();
    let i3 = i2 + enc_str(v.desc).len();
    let i4 = i3 + enc_str(v.location).len();
    let i5 = i4 + enc_str(v.start).len();
    let i6 = i5 + enc_str(v.end).len();
    let i7 = i6 + 1;
    let t6 = enc_bool(v.sync);
    let t5 = enc_str(v.end) + t6;
    let t4 = enc_str(v.start) + t5;
    let t3 = enc_str(v.location) + t4;
    let t2 = enc_str(v.desc) + t3;
    let t1 = enc_str(v.name) + t2;
    assert(enc_event(v) =~= enc_str(v.id) + t1);
    lemma_subrange_split(s, i, enc_str(v.id), t1);
    lemma_p_str_enc(s, i, v.id);
    lemma_subrange_split(s, i1, enc_str(v.name), t2);
    lemma_p_str_enc(s, i1, v.name);
    lemma_subrange_split(s, i2, enc_str(v.desc), t3);
    lemma_p_str_enc(s, i2, v.desc);
    lemma_subrange_split(s, i3, enc_str(v.location), t4);
    lemma_p_str_enc(s, i3, v.location);
    lemma_subrange_split(s, i4, enc_str(v.start), t5);
    lemma_p_str_enc(s, i4, v.start);
    lemma_subrange_split(s, i5, enc_str(v.end), t6);
    lemma_p_str_enc(s, i5, v.end);
    lemma_p_bool_enc(s, i6, v.sync);
}

/// Whatever the event parser accepts has fields short enough to marshal
/// again.
pub proof fn lemma_p_event_ok(s: Seq<char>, i: int)
    ensures
        p_event(s, i) matches Some((v, j)) ==> event_ok(v) && i <= j <= s.len(),
{
}

/// Appends the canonical form of an event.
pub fn push_event(out: &mut Vec<char>, e: &Event)
    ensures
        final(out)@ == old(out)@ + enc_event(e@),
        event_ok(e@),
{
    push_str(out, &e.id);
    push_str(out, &e.name);
    push_str(out, &e.desc);
    push_str(out, &e.location);
    push_str(out, &e.start);
    push_str(out, &e.end);
    push_bool(out, e.sync);
    proof {
        assert(out@ =~= old(out)@ + enc_event(e@));
    }
}

/// Reads an event, exactly as [`p_event`] states.
pub fn parse_event(v: &Vec<char>, pos: usize) -> (r: Option<(Event, usize)>)
    ensures
        r matches Some((e, p)) ==> p_event(v@, pos as int) == Some((e@, p as int)),
        r is None ==> p_event(v@, pos as int) is None,
{
    let (id, i1) = match parse_str(v, pos) {
        Some(x) => x,
        None => {
            return None;
        },
    };
    let (name, i2) = match parse_str(v, i1) {
        Some(x) => x,
        None => {
            return None;
        },
    };
    let (desc, i3) = match parse_str(v, i2) {
        Some(x) => x,
        None => {
            return None;
        },
    };
    let (location, i4) = match parse_str(v, i3) {
        Some(x) => x,
        None => {
            return None;
        },
    };
    let (start, i5) = match parse_str(v, i4) {
        Some(x) => x,
        None => {
            return None;
        },
    };
    let (end, i6) = match parse_str(v, i5) {
        Some(x) => x,
        None => {
            return None;
        },
    };
    let (sync, i7) = match parse_bool(v, i6) {
        Some(x) => x,
        None => {
            return None;
        },
    };
    Some((Event { id, name, desc, location, start, end, sync }, i7))
}

impl Event {
    /// Builds a fresh, unsynchronised event with a random identifier,
    /// starting now and ending an hour later (or, should the clock stand
    /// outside the range this library shifts within, ending when it
    /// starts). The clock's reading carries no proven bound, so callers
    /// that go on to shift the timestamps use the checked variants, which
    /// test the range at run time.
    pub fn new(name: &str, desc: &str, location: &str) -> (r: Event)
        ensures
            r.name@ == name@,
            r.desc@ == desc@,
            r.location@ == location@,
            r.sync == false,
            r.id@.len() == 36,
            epoch_millis_of(r.start@) is Some,
            epoch_millis_of(r.start@) matches Some(ts) && epoch_millis_of(r.end@) matches Some(
                te,
            ) && (te == ts + 3_600_000 || te == ts),
            (epoch_millis_of(r.start@) matches Some(ts) && -EPOCH_MILLIS_RANGE <= ts + 3_600_000
                <= EPOCH_MILLIS_RANGE) ==> epoch_millis_of(r.end@) == Some(
                (epoch_millis_of(r.start@)->0 + 3_600_000) as i64,
            ),
    {
        let start = DTWrapper::now_rfc3339();
        let end = match DTWrapper::shift_rfc3339(start.as_str(), 3_600_000) {
            Some(t) => t,
            None => start.clone(),
        };
        Event {
            id: uuid_v4_string(),
            name: name.to_owned(),
            desc: desc.to_owned(),
            location: location.to_owned(),
            start,
            end,
            sync: false,
        }
    }

    /// A fresh copy of this event, with its own identifier, moved
    /// `delta_ms` milliseconds in time; the distance between start and end
    /// is kept. The timestamps must parse and the moved instants must stay
    /// within [`EPOCH_MILLIS_RANGE`]; [`Event::try_repeat`] checks this at
    /// run time instead.
    pub fn repeat(&self, delta_ms: i64) -> (r: Event)
        requires
            epoch_millis_of(self.start@) matches Some(ts) && -EPOCH_MILLIS_RANGE <= ts + delta_ms
                <= EPOCH_MILLIS_RANGE,
            epoch_millis_of(self.end@) matches Some(te) && -EPOCH_MILLIS_RANGE <= te + delta_ms
                <= EPOCH_MILLIS_RANGE,
        ensures
            r.name@ == self.name@,
            r.desc@ == self.desc@,
            r.location@ == self.location@,
            r.sync == self.sync,
            r.id@.len() == 36,
            epoch_millis_of(self.start@) matches Some(ts) && epoch_millis_of(r.start@)
                == Some((ts + delta_ms) as i64),
            epoch_millis_of(self.end@) matches Some(te) && epoch_millis_of(r.end@) == Some(
                (te + delta_ms) as i64,
            ),
    {
        let start = match DTWrapper::shift_rfc3339(self.start.as_str(), delta_ms) {
            Some(t) => t,
            None => {
                return vstd::pervasive::unreached();
            },
        };
        let end = match DTWrapper::shift_rfc3339(self.end.as_str(), delta_ms) {
            Some(t) => t,
            None => {
                return vstd::pervasive::unreached();
            },
        };
        Event {
            id: uuid_v4_string(),
            name: self.name.clone(),
            desc: self.desc.clone(),
            location: self.location.clone(),
            start,
            end,
            sync: self.sync,
        }
    }

    /// Checks at run time what [`Event::repeat`] asks of its caller, and
    /// repeats the event only when that holds.
    pub fn try_repeat(&self, delta_ms: i64) -> (r: Option<Event>)
        ensures
            r matches Some(ev) ==> ev.name@ == self.name@ && ev.desc@ == self.desc@
                && ev.location@ == self.location@ && ev.sync == self.sync && ev.id@.len() == 36,
            r matches Some(ev) ==> epoch_millis_of(self.start@) matches Some(ts)
                && epoch_millis_of(ev.start@) == Some((ts + delta_ms) as i64),
            r matches Some(ev) ==> epoch_millis_of(self.end@) matches Some(te)
                && epoch_millis_of(ev.end@) == Some((te + delta_ms) as i64),
            (epoch_millis_of(self.start@) matches Some(ts) && epoch_millis_of(
                self.end@,
            ) matches Some(te) && -EPOCH_MILLIS_RANGE <= ts + delta_ms <= EPOCH_MILLIS_RANGE
                && -EPOCH_MILLIS_RANGE <= te + delta_ms <= EPOCH_MILLIS_RANGE) ==> r is Some,
            epoch_millis_of(self.start@) is None ==> r is None,
            epoch_millis_of(self.end@) is None ==> r is None,
    {
        let ts = match DTWrapper::parse_rfc3339_millis(self.start.as_str()) {
            Some(e) => e,
            None => {
                return None;
            },
        };
        let te = match DTWrapper::parse_rfc3339_millis(self.end.as_str()) {
            Some(e) => e,
            None => {
                return None;
            },
        };
        let s_sum: i128 = ts as i128 + delta_ms as i128;
        let e_sum: i128 = te as i128 + delta_ms as i128;
        if s_sum < -(EPOCH_MILLIS_RANGE as i128) || s_sum > EPOCH_MILLIS_RANGE as i128 {
            return None;
        }
        if e_sum < -(EPOCH_MILLIS_RANGE as i128) || e_sum > EPOCH_MILLIS_RANGE as i128 {
            return None;
        }
        Some(self.repeat(delta_ms))
    }

    /// The parsed start instant, in milliseconds since the epoch.
    pub fn get_start(&self) -> (r: Option<i64>)
        ensures
            r == epoch_millis_of(self.start@),
    {
        DTWrapper::parse_rfc3339_millis(self.start.as_str())
    }

    /// The parsed end instant, in milliseconds since the epoch.
    pub fn get_end(&self) -> (r: Option<i64>)
        ensures
            r == epoch_millis_of(self.end@),
    {
        DTWrapper::parse_rfc3339_millis(self.end.as_str())
    }
}

impl Content for Event {
    open spec fn inv_spec(v: EventV) -> bool {
        true
    }

    open spec fn id_spec(&self) -> Seq<char> {
        self.id@
    }

    open spec fn sync_spec(&self) -> bool {
        self.sync
    }

    open spec fn marshal_ok(v: EventV) -> bool {
        event_ok(v)
    }

    open spec fn marshal_spec(v: EventV) -> Seq<char> {
        enc_event(v)
    }

    open spec fn unmarshal_spec(s: Seq<char>) -> Option<EventV> {
        match p_event(s, 0) {
            Some((v, j)) => if j == s.len() {
                Some(v)
            } else {
                None
            },
            None => None,
        }
    }

    proof fn lemma_marshal_round_trip(v: EventV) {
        let s = enc_event(v);
        assert(s.subrange(0, s.len() as int) =~= s);
        lemma_p_event_enc(s, 0, v);
    }

    proof fn lemma_unmarshal_inv(s: Seq<char>) {
        lemma_p_event_ok(s, 0);
    }

    fn get_id(&self) -> (r: String) {
        self.id.clone()
    }

    fn is_synchronised(&self) -> (r: bool) {
        self.sync
    }

    fn marshal(&self) -> (r: Result<String, MarshalError>) {
        let mut out: Vec<char> = Vec::new();
        push_event(&mut out, self);
        proof {
            assert(out@ =~= enc_event(self@));
        }
        Ok(chars_to_string(&out))
    }

    fn unmarshal(s: &str) -> (r: Result<Event, MarshalError>) {
        let cs = string_chars(s);
        match parse_event(&cs, 0) {
            Some((e, p)) => if p == cs.len() {
                Ok(e)
            } else {
                Err(MarshalError::Failed)
            },
            None => Err(MarshalError::Failed),
        }
    }
}


/// The view of a [`DayBucket`]: one day's key and the events filed under it.
pub ghost struct DayBucketV {
    pub date: Seq<char>,
    pub events: Seq<EventV>,
}

/// One day of a calendar: a date key and the events that start on that day.
#[derive(Clone, Debug)]
struct DayBucket {
    date: String,
    events: Vec<Event>,
}

impl View for DayBucket {
    type V = DayBucketV;

    closed spec fn view(&self) -> DayBucketV {
        DayBucketV { date: self.date@, events: views_of_events(self.events@) }
    }
}

/// The views of a sequence of events.
pub open spec fn views_of_events(s: Seq<Event>) -> Seq<EventV> {
    s.map_values(|e: Event| e@)
}

/// The views of a sequence of day buckets.
spec fn views_of_buckets(s: Seq<DayBucket>) -> Seq<DayBucketV> {
    s.map_values(|b: DayBucket| b@)
}

/// The view of a [`Calendar`].
pub ghost struct CalendarV {
    pub id: Seq<char>,
    pub name: Seq<char>,
    pub desc: Seq<char>,
    pub sync: bool,
    pub days: Seq<DayBucketV>,
}

/// A single calendar: identity, description, synchronization flag, and its
/// events, filed per day under the date key of their start timestamp.
#[derive(Clone, Debug)]
pub struct Calendar {
    pub id: String,
    pub name: String,
    pub desc: String,
    pub sync: bool,
    days: Vec<DayBucket>,
}

impl View for Calendar {
    type V = CalendarV;

    closed spec fn view(&self) -> CalendarV {
        CalendarV {
            id: self.id@,
            name: self.name@,
            desc: self.desc@,
            sync: self.sync,
            days: views_of_buckets(self.days@),
        }
    }
}

/// No two buckets carry the same date key.
pub open spec fn unique_dates(bs: Seq<DayBucketV>) -> bool {
    forall|k: int, l: int| 0 <= k < l < bs.len() ==> (#[trigger] bs[k].date) != (#[trigger] bs[l].date)
}

/// Whether every event in the sequence is short enough to marshal.
pub open spec fn events_ok(vs: Seq<EventV>) -> bool {
    forall|k: int| 0 <= k < vs.len() ==> event_ok(#[trigger] vs[k])
}

/// Whether a bucket is short enough to marshal.
pub open spec fn bucket_ok(b: DayBucketV) -> bool {
    &&& b.date.len() <= u64::MAX
    &&& b.events.len() <= u64::MAX
    &&& events_ok(b.events)
}

/// Whether a calendar is short enough to marshal.
pub open spec fn cal_ok(v: CalendarV) -> bool {
    &&& v.id.len() <= u64::MAX
    &&& v.name.len() <= u64::MAX
    &&& v.desc.len() <= u64::MAX
    &&& v.days.len() <= u64::MAX
    &&& forall|k: int| 0 <= k < v.days.len() ==> bucket_ok(#[trigger] v.days[k])
}

/// The canonical text encoding of a sequence of events, one after another.
pub open spec fn enc_events(vs: Seq<EventV>) -> Seq<char>
    decreases vs.len(),
{
    if vs.len() == 0 {
        Seq::empty()
    } else {
        enc_event(vs.first()) + enc_events(vs.drop_first())
    }
}

/// The canonical text encoding of one day bucket.
pub open spec fn enc_bucket(b: DayBucketV) -> Seq<char> {
    enc_str(b.date) + enc_len(b.events.len()) + enc_events(b.events)
}

/// The canonical text encoding of a sequence of day buckets.
pub open spec fn enc_buckets(bs: Seq<DayBucketV>) -> Seq<char>
    decreases bs.len(),
{
    if bs.len() == 0 {
        Seq::empty()
    } else {
        enc_bucket(bs.first()) + enc_buckets(bs.drop_first())
    }
}

/// The canonical text encoding of a calendar.
pub open spec fn enc_cal(v: CalendarV) -> Seq<char> {
    enc_str(v.id) + enc_str(v.name) + enc_str(v.desc) + enc_bool(v.sync) + enc_len(v.days.len())
        + enc_buckets(v.days)
}

/// Appending an event extends the encoding at its end.
pub proof fn lemma_enc_events_snoc(vs: Seq<EventV>, e: EventV)
    ensures
        enc_events(vs.push(e)) == enc_events(vs) + enc_event(e),
    decreases vs.len(),
{
    if vs.len() == 0 {
        assert(vs.push(e).drop_first() =~= vs);
        assert(vs.push(e).first() == e);
        assert(enc_events(vs.push(e)) == enc_event(e) + enc_events(vs));
        assert(enc_events(vs) =~= Seq::<char>::empty());
        assert(enc_event(e) + enc_events(vs) =~= enc_events(vs) + enc_event(e));
    } else {
        assert(vs.push(e).drop_first() =~= vs.drop_first().push(e));
        lemma_enc_events_snoc(vs.drop_first(), e);
        assert(enc_event(vs.first()) + (enc_events(vs.drop_first()) + enc_event(e)) =~= (enc_event(
            vs.first(),
        ) + enc_events(vs.drop_first())) + enc_event(e));
        assert(vs.push(e).first() == vs.first());
    }
}

/// Appending a bucket extends the encoding at its end.
pub proof fn lemma_enc_buckets_snoc(bs: Seq<DayBucketV>, b: DayBucketV)
    ensures
        enc_buckets(bs.push(b)) == enc_buckets(bs) + enc_bucket(b),
    decreases bs.len(),
{
    if bs.len() == 0 {
        assert(bs.push(b).drop_first() =~= bs);
        assert(bs.push(b).first() == b);
        assert(enc_buckets(bs.push(b)) == enc_bucket(b) + enc_buckets(bs));
        assert(enc_buckets(bs) =~= Seq::<char>::empty());
        assert(enc_bucket(b) + enc_buckets(bs) =~= enc_buckets(bs) + enc_bucket(b));
    } else {
        assert(bs.push(b).drop_first() =~= bs.drop_first().push(b));
        lemma_enc_buckets_snoc(bs.drop_first(), b);
        assert(enc_bucket(bs.first()) + (enc_buckets(bs.drop_first()) + enc_bucket(b)) =~= (
        enc_bucket(bs.first()) + enc_buckets(bs.drop_first())) + enc_bucket(b));
        assert(bs.push(b).first() == bs.first());
    }
}

/// The parse of exactly `n` events at position `i`.
pub open spec fn p_events(s: Seq<char>, i: int, n: u64) -> Option<(Seq<EventV>, int)>
    decreases n,
{
    if n == 0 {
        Some((Seq::empty(), i))
    } else {
        match p_event(s, i) {
            None => None,
            Some((e, j)) => match p_events(s, j, (n - 1) as u64) {
                None => None,
                Some((es, k)) => Some((seq![e] + es, k)),
            },
        }
    }
}

/// The parse of one day bucket at position `i`.
pub open spec fn p_bucket(s: Seq<char>, i: int) -> Option<(DayBucketV, int)> {
    match p_str(s, i) {
        None => None,
        Some((date, i1)) => match p_num(s, i1) {
            None => None,
            Some((n, i2)) => match p_events(s, i2, n) {
                None => None,
                Some((es, i3)) => Some((DayBucketV { date, events: es }, i3)),
            },
        },
    }
}

/// The parse of exactly `n` day buckets at position `i`.
pub open spec fn p_buckets(s: Seq<char>, i: int, n: u64) -> Option<(Seq<DayBucketV>, int)>
    decreases n,
{
    if n == 0 {
        Some((Seq::empty(), i))
    } else {
        match p_bucket(s, i) {
            None => None,
            Some((b, j)) => match p_buckets(s, j, (n - 1) as u64) {
                None => None,
                Some((bs, k)) => Some((seq![b] + bs, k)),
            },
        }
    }
}

/// The parse of a calendar at position `i`.
pub open spec fn p_cal(s: Seq<char>, i: int) -> Option<(CalendarV, int)> {
    match p_str(s, i) {
        None => None,
        Some((id, i1)) => match p_str(s, i1) {
            None => None,
            Some((name, i2)) => match p_str(s, i2) {
                None => None,
                Some((desc, i3)) => match p_bool(s, i3) {
                    None => None,
                    Some((sync, i4)) => match p_num(s, i4) {
                        None => None,
                        Some((n, i5)) => match p_buckets(s, i5, n) {
                            None => None,
                            Some((days, i6)) => Some(
                                (CalendarV { id, name, desc, sync, days }, i6),
                            ),
                        },
                    },
                },
            },
        },
    }
}

/// Parsing inverts the event-sequence encoding, wherever it is embedded.
pub proof fn lemma_p_events_enc(s: Seq<char>, i: int, vs: Seq<EventV>)
    requires
        0 <= i,
        events_ok(vs),
        vs.len() <= u64::MAX,
        i + enc_events(vs).len() <= s.len(),
        s.subrange(i, i + enc_events(vs).len()) == enc_events(vs),
    ensures
        p_events(s, i, vs.len() as u64) == Some((vs, i + enc_events(vs).len())),
    decreases vs.len(),
{
    if vs.len() == 0 {
        assert(p_events(s, i, 0) == Some((Seq::<EventV>::empty(), i)));
        assert(vs =~= Seq::<EventV>::empty());
    } else {
        lemma_subrange_split(s, i, enc_event(vs.first()), enc_events(vs.drop_first()));
        lemma_p_event_enc(s, i, vs.first());
        let j = i + enc_event(vs.first()).len();
        assert(forall|k: int|
            0 <= k < vs.drop_first().len() ==> (#[trigger] vs.drop_first()[k]) == vs[k + 1]);
        lemma_p_events_enc(s, j, vs.drop_first());
        assert(seq![vs.first()] + vs.drop_first() =~= vs);
    }
}

/// Parsing inverts the bucket encoding, wherever it is embedded.
pub proof fn lemma_p_bucket_enc(s: Seq<char>, i: int, b: DayBucketV)
    requires
        0 <= i,
        bucket_ok(b),
        i + enc_bucket(b).len() <= s.len(),
        s.subrange(i, i + enc_bucket(b).len()) == enc_bucket(b),
    ensures
        p_bucket(s, i) == Some((b, i + enc_bucket(b).len())),
{
    lemma_enc_num_len(b.events.len(), NUM_WIDTH as nat);
    lemma_enc_str_len(b.date);
    let t1 = enc_len(b.events.len()) + enc_events(b.events);
    assert(enc_bucket(b) =~= enc_str(b.date) + t1);
    lemma_subrange_split(s, i, enc_str(b.date), t1);
    lemma_p_str_enc(s, i, b.date);
    let i1 = i + enc_str(b.date).len();
    lemma_subrange_split(s, i1, enc_len(b.events.len()), enc_events(b.events));
    lemma_p_num_enc(s, i1, b.events.len() as u64);
    let i2 = i1 + NUM_WIDTH;
    lemma_p_events_enc(s, i2, b.events);
}

/// Parsing inverts the bucket-sequence encoding, wherever it is embedded.
#[verifier::rlimit(50)]
pub proof fn lemma_p_buckets_enc(s: Seq<char>, i: int, bs: Seq<DayBucketV>)
    requires
        0 <= i,
        forall|k: int| 0 <= k < bs.len() ==> bucket_ok(#[trigger] bs[k]),
        bs.len() <= u64::MAX,
        i + enc_buckets(bs).len() <= s.len(),
        s.subrange(i, i + enc_buckets(bs).len()) == enc_buckets(bs),
    ensures
        p_buckets(s, i, bs.len() as u64) == Some((bs, i + enc_buckets(bs).len())),
    decreases bs.len(),
{
    if bs.len() == 0 {
        assert(p_buckets(s, i, 0) == Some((Seq::<DayBucketV>::empty(), i)));
        assert(bs =~= Seq::<DayBucketV>::empty());
    } else {
        lemma_subrange_split(s, i, enc_bucket(bs.first()), enc_buckets(bs.drop_first()));
        lemma_p_bucket_enc(s, i, bs.first());
        let j = i + enc_bucket(bs.first()).len();
        assert(forall|k: int|
            0 <= k < bs.drop_first().len() ==> (#[trigger] bs.drop_first()[k]) == bs[k + 1]);
        lemma_p_buckets_enc(s, j, bs.drop_first());
        assert(seq![bs.first()] + bs.drop_first() =~= bs);
    }
}

/// Parsing inverts the calendar encoding, wherever it is embedded.
pub proof fn lemma_p_cal_enc(s: Seq<char>, i: int, v: CalendarV)
    requires
        0 <= i,
        cal_ok(v),
        i + enc_cal(v).len() <= s.len(),
        s.subrange(i, i + enc_cal(v).len()) == enc_cal(v),
    ensures
        p_cal(s, i) == Some((v, i + enc_cal(v).len())),
{
    lemma_enc_num_len(v.days.len(), NUM_WIDTH as nat);
    lemma_enc_str_len(v.id);
    lemma_enc_str_len(v.name);
    lemma_enc_str_len(v.desc);
    let t4 = enc_len(v.days.len()) + enc_buckets(v.days);
    let t3 = enc_bool(v.sync) + t4;
    let t2 = enc_str(v.desc) + t3;
    let t1 = enc_str(v.name) + t2;
    assert(enc_cal(v) =~= enc_str(v.id) + t1);
    lemma_subrange_split(s, i, enc_str(v.id), t1);
    lemma_p_str_enc(s, i, v.id);
    let i1 = i + enc_str(v.id).len();
    lemma_subrange_split(s, i1, enc_str(v.name), t2);
    lemma_p_str_enc(s, i1, v.name);
    let i2 = i1 + enc_str(v.name).len();
    lemma_subrange_split(s, i2, enc_str(v.desc), t3);
    lemma_p_str_enc(s, i2, v.desc);
    let i3 = i2 + enc_str(v.desc).len();
    lemma_subrange_split(s, i3, enc_bool(v.sync), t4);
    lemma_p_bool_enc(s, i3, v.sync);
    let i4 = i3 + 1;
    lemma_subrange_split(s, i4, enc_len(v.days.len()), enc_buckets(v.days));
    lemma_p_num_enc(s, i4, v.days.len() as u64);
    let i5 = i4 + NUM_WIDTH;
    lemma_p_buckets_enc(s, i5, v.days);
}

/// Whatever the event-sequence parser accepts is short enough to marshal
/// again, and has exactly the asked-for count.
pub proof fn lemma_p_events_ok(s: Seq<char>, i: int, n: u64)
    ensures
        p_events(s, i, n) matches Some((es, j)) ==> es.len() == n && events_ok(es) && i <= j && (
        n > 0 ==> j <= s.len()),
    decreases n,
{
    if n > 0 {
        match p_event(s, i) {
            Some((e, j)) => {
                lemma_p_event_ok(s, i);
                lemma_p_events_ok(s, j, (n - 1) as u64);
                match p_events(s, j, (n - 1) as u64) {
                    Some((es2, k2)) => {
                        assert forall|x: int|
                            0 <= x < (seq![e] + es2).len() implies event_ok(
                            #[trigger] (seq![e] + es2)[x],
                        ) by {
                            if x == 0 {
                                assert((seq![e] + es2)[x] == e);
                            } else {
                                assert((seq![e] + es2)[x] == es2[x - 1]);
                            }
                        }
                        assert(p_events(s, i, n) == Some((seq![e] + es2, k2)));
                        assert((seq![e] + es2).len() == n);
                        assert(events_ok(seq![e] + es2));
                    },
                    None => {},
                }
            },
            None => {},
        }
    }
}

/// Whatever the bucket parser accepts is short enough to marshal again.
pub proof fn lemma_p_bucket_ok(s: Seq<char>, i: int)
    ensures
        p_bucket(s, i) matches Some((b, j)) ==> bucket_ok(b) && i <= j <= s.len(),
{
    match p_str(s, i) {
        Some((date, i1)) => match p_num(s, i1) {
            Some((n, i2)) => {
                lemma_p_events_ok(s, i2, n);
            },
            None => {},
        },
        None => {},
    }
}

/// Whatever the bucket-sequence parser accepts is short enough to marshal
/// again, and has exactly the asked-for count.
pub proof fn lemma_p_buckets_ok(s: Seq<char>, i: int, n: u64)
    ensures
        p_buckets(s, i, n) matches Some((bs, j)) ==> bs.len() == n && (forall|k: int|
            0 <= k < bs.len() ==> bucket_ok(#[trigger] bs[k])) && i <= j && (n > 0 ==> j
            <= s.len()),
    decreases n,
{
    if n > 0 {
        match p_bucket(s, i) {
            Some((b, j)) => {
                lemma_p_bucket_ok(s, i);
                lemma_p_buckets_ok(s, j, (n - 1) as u64);
                match p_buckets(s, j, (n - 1) as u64) {
                    Some((bs2, k2)) => {
                        assert forall|x: int|
                            0 <= x < (seq![b] + bs2).len() implies bucket_ok(
                            #[trigger] (seq![b] + bs2)[x],
                        ) by {
                            if x == 0 {
                                assert((seq![b] + bs2)[x] == b);
                            } else {
                                assert((seq![b] + bs2)[x] == bs2[x - 1]);
                            }
                        }
                        assert(p_buckets(s, i, n) == Some((seq![b] + bs2, k2)));
                        assert((seq![b] + bs2).len() == n);
                    },
                    None => {},
                }
            },
            None => {},
        }
    }
}

/// Whatever the calendar parser accepts is short enough to marshal again.
pub proof fn lemma_p_cal_ok(s: Seq<char>, i: int)
    ensures
        p_cal(s, i) matches Some((v, j)) ==> cal_ok(v) && i <= j <= s.len(),
{
    match p_str(s, i) {
        Some((id, i1)) => match p_str(s, i1) {
            Some((name, i2)) => match p_str(s, i2) {
                Some((desc, i3)) => match p_bool(s, i3) {
                    Some((sync, i4)) => match p_num(s, i4) {
                        Some((n, i5)) => {
                            lemma_p_buckets_ok(s, i5, n);
                        },
                        None => {},
                    },
                    None => {},
                },
                None => {},
            },
            None => {},
        },
        None => {},
    }
}

/// Appends the canonical form of each event in turn.
fn push_events(out: &mut Vec<char>, events: &Vec<Event>)
    ensures
        final(out)@ == old(out)@ + enc_events(views_of_events(events@)),
        events_ok(views_of_events(events@)),
{
    let ghost views = views_of_events(events@);
    let mut i: usize = 0;
    while i < events.len()
        invariant
            i <= events@.len(),
            views == views_of_events(events@),
            out@ == old(out)@ + enc_events(views.take(i as int)),
            events_ok(views.take(i as int)),
        decreases events@.len() - i,
    {
        push_event(out, &events[i]);
        proof {
            assert(views.take(i + 1) =~= views.take(i as int).push(views[i as int]));
            lemma_enc_events_snoc(views.take(i as int), views[i as int]);
            assert(old(out)@ + enc_events(views.take(i as int).push(views[i as int])) =~= (old(
                out,
            )@ + enc_events(views.take(i as int))) + enc_event(views[i as int]));
            assert(forall|k: int|
                0 <= k < i + 1 ==> event_ok(#[trigger] views.take(i + 1)[k]));
        }
        i += 1;
    }
    proof {
        assert(views.take(views.len() as int) =~= views);
    }
}

/// Appends the canonical form of one day bucket.
fn push_bucket(out: &mut Vec<char>, b: &DayBucket)
    ensures
        final(out)@ == old(out)@ + enc_bucket(b@),
        bucket_ok(b@),
{
    push_str(out, &b.date);
    push_num(out, b.events.len() as u64);
    push_events(out, &b.events);
    proof {
        assert(out@ =~= old(out)@ + enc_bucket(b@));
    }
}

/// Appends the canonical form of each bucket in turn.
fn push_buckets(out: &mut Vec<char>, days: &Vec<DayBucket>)
    ensures
        final(out)@ == old(out)@ + enc_buckets(views_of_buckets(days@)),
        forall|k: int|
            0 <= k < days@.len() ==> bucket_ok(#[trigger] views_of_buckets(days@)[k]),
{
    let ghost views = views_of_buckets(days@);
    let mut i: usize = 0;
    while i < days.len()
        invariant
            i <= days@.len(),
            views == views_of_buckets(days@),
            out@ == old(out)@ + enc_buckets(views.take(i as int)),
            forall|k: int| 0 <= k < i ==> bucket_ok(#[trigger] views[k]),
        decreases days@.len() - i,
    {
        push_bucket(out, &days[i]);
        proof {
            assert(views.take(i + 1) =~= views.take(i as int).push(views[i as int]));
            lemma_enc_buckets_snoc(views.take(i as int), views[i as int]);
            assert(old(out)@ + enc_buckets(views.take(i as int).push(views[i as int])) =~= (old(
                out,
            )@ + enc_buckets(views.take(i as int))) + enc_bucket(views[i as int]));
        }
        i += 1;
    }
    proof {
        assert(views.take(views.len() as int) =~= views);
    }
}

/// Appends the canonical form of a calendar.
fn push_cal(out: &mut Vec<char>, c: &Calendar)
    ensures
        final(out)@ == old(out)@ + enc_cal(c@),
        cal_ok(c@),
{
    push_str(out, &c.id);
    push_str(out, &c.name);
    push_str(out, &c.desc);
    push_bool(out, c.sync);
    push_num(out, c.days.len() as u64);
    push_buckets(out, &c.days);
    proof {
        assert(out@ =~= old(out)@ + enc_cal(c@));
    }
}

/// Reads exactly `n` events, exactly as [`p_events`] states.
fn parse_events(v: &Vec<char>, pos: usize, n: u64) -> (r: Option<(Vec<Event>, usize)>)
    ensures
        r matches Some((es, p)) ==> p_events(v@, pos as int, n) == Some(
            (views_of_events(es@), p as int),
        ),
        r is None ==> p_events(v@, pos as int, n) is None,
{
    let mut acc: Vec<Event> = Vec::new();
    let mut j: usize = pos;
    let mut k: u64 = 0;
    proof {
        assert(views_of_events(acc@) =~= Seq::<EventV>::empty());
        match p_events(v@, pos as int, n) {
            Some((es, end)) => {
                assert(views_of_events(acc@) + es =~= es);
            },
            None => {},
        }
    }
    while k < n
        invariant
            k <= n,
            p_events(v@, pos as int, n) == (match p_events(v@, j as int, (n - k) as u64) {
                Some((es, end)) => Some((views_of_events(acc@) + es, end)),
                None => None,
            }),
        decreases n - k,
    {
        let ghost old_acc = acc@;
        let (e, j2) = match parse_event(v, j) {
            Some(x) => x,
            None => {
                return None;
            },
        };
        acc.push(e);
        proof {
            assert(views_of_events(acc@) =~= views_of_events(old_acc).push(e@));
            match p_events(v@, j2 as int, (n - k - 1) as u64) {
                Some((es, end)) => {
                    assert(views_of_events(old_acc).push(e@) + es =~= views_of_events(old_acc) + (
                    seq![e@] + es));
                },
                None => {},
            }
        }
        j = j2;
        k += 1;
    }
    proof {
        match p_events(v@, j as int, 0) {
            Some((es, end)) => {
                assert(views_of_events(acc@) + es =~= views_of_events(acc@));
            },
            None => {},
        }
    }
    Some((acc, j))
}

/// Reads one day bucket, exactly as [`p_bucket`] states.
fn parse_bucket(v: &Vec<char>, pos: usize) -> (r: Option<(DayBucket, usize)>)
    ensures
        r matches Some((b, p)) ==> p_bucket(v@, pos as int) == Some((b@, p as int)),
        r is None ==> p_bucket(v@, pos as int) is None,
{
    let (date, i1) = match parse_str(v, pos) {
        Some(x) => x,
        None => {
            return None;
        },
    };
    let (n, i2) = match parse_num(v, i1) {
        Some(x) => x,
        None => {
            return None;
        },
    };
    let (events, i3) = match parse_events(v, i2, n) {
        Some(x) => x,
        None => {
            return None;
        },
    };
    Some((DayBucket { date, events }, i3))
}

/// Reads exactly `n` buckets, exactly as [`p_buckets`] states.
fn parse_buckets(v: &Vec<char>, pos: usize, n: u64) -> (r: Option<(Vec<DayBucket>, usize)>)
    ensures
        r matches Some((bs, p)) ==> p_buckets(v@, pos as int, n) == Some(
            (views_of_buckets(bs@), p as int),
        ),
        r is None ==> p_buckets(v@, pos as int, n) is None,
{
    let mut acc: Vec<DayBucket> = Vec::new();
    let mut j: usize = pos;
    let mut k: u64 = 0;
    proof {
        assert(views_of_buckets(acc@) =~= Seq::<DayBucketV>::empty());
        match p_buckets(v@, pos as int, n) {
            Some((bs, end)) => {
                assert(views_of_buckets(acc@) + bs =~= bs);
            },
            None => {},
        }
    }
    while k < n
        invariant
            k <= n,
            p_buckets(v@, pos as int, n) == (match p_buckets(v@, j as int, (n - k) as u64) {
                Some((bs, end)) => Some((views_of_buckets(acc@) + bs, end)),
                None => None,
            }),
        decreases n - k,
    {
        let ghost old_acc = acc@;
        let (b, j2) = match parse_bucket(v, j) {
            Some(x) => x,
            None => {
                return None;
            },
        };
        acc.push(b);
        proof {
            assert(views_of_buckets(acc@) =~= views_of_buckets(old_acc).push(b@));
            match p_buckets(v@, j2 as int, (n - k - 1) as u64) {
                Some((bs, end)) => {
                    assert(views_of_buckets(old_acc).push(b@) + bs =~= views_of_buckets(old_acc)
                        + (seq![b@] + bs));
                },
                None => {},
            }
        }
        j = j2;
        k += 1;
    }
    proof {
        match p_buckets(v@, j as int, 0) {
            Some((bs, end)) => {
                assert(views_of_buckets(acc@) + bs =~= views_of_buckets(acc@));
            },
            None => {},
        }
    }
    Some((acc, j))
}

/// Reads a calendar, exactly as [`p_cal`] states.
fn parse_cal(v: &Vec<char>, pos: usize) -> (r: Option<(Calendar, usize)>)
    ensures
        r matches Some((c, p)) ==> p_cal(v@, pos as int) == Some((c@, p as int)),
        r is None ==> p_cal(v@, pos as int) is None,
{
    let (id, i1) = match parse_str(v, pos) {
        Some(x) => x,
        None => {
            return None;
        },
    };
    let (name, i2) = match parse_str(v, i1) {
        Some(x) => x,
        None => {
            return None;
        },
    };
    let (desc, i3) = match parse_str(v, i2) {
        Some(x) => x,
        None => {
            return None;
        },
    };
    let (sync, i4) = match parse_bool(v, i3) {
        Some(x) => x,
        None => {
            return None;
        },
    };
    let (n, i5) = match parse_num(v, i4) {
        Some(x) => x,
        None => {
            return None;
        },
    };
    let (days, i6) = match parse_buckets(v, i5, n) {
        Some(x) => x,
        None => {
            return None;
        },
    };
    Some((Calendar { id, name, desc, sync, days }, i6))
}


/// One week, in milliseconds: the distance at which events are repeated.
pub const WEEK_MS: i64 = 604_800_000;

/// The bucket key of a start timestamp: its first ten characters, the date
/// part of an RFC 3339 string (shorter strings stand for themselves).
pub open spec fn day_key(s: Seq<char>) -> Seq<char> {
    if s.len() <= 10 {
        s
    } else {
        s.subrange(0, 10)
    }
}

/// The date part of a start timestamp, as [`day_key`] states.
fn day_key_of(s: &String) -> (r: String)
    ensures
        r@ == day_key(s@),
{
    let cs = string_chars(s.as_str());
    if cs.len() <= 10 {
        s.clone()
    } else {
        let mut out: Vec<char> = Vec::new();
        let mut i: usize = 0;
        while i < 10
            invariant
                cs@ == s@,
                cs@.len() > 10,
                i <= 10,
                out@ == s@.subrange(0, i as int),
            decreases 10 - i,
        {
            out.push(cs[i]);
            proof {
                assert(s@.subrange(0, i + 1) =~= s@.subrange(0, i as int).push(s@[i as int]));
            }
            i += 1;
        }
        chars_to_string(&out)
    }
}

/// Whether some bucket carries the date `d`.
pub open spec fn has_day(days: Seq<DayBucketV>, d: Seq<char>) -> bool {
    exists|k: int| 0 <= k < days.len() && days[k].date == d
}

/// The index of the bucket carrying the date `d`; with unique dates there
/// is at most one.
pub open spec fn day_index(days: Seq<DayBucketV>, d: Seq<char>) -> int {
    choose|k: int| 0 <= k < days.len() && days[k].date == d
}

/// The events filed under the date `d`, empty when no bucket carries it.
pub open spec fn events_at(days: Seq<DayBucketV>, d: Seq<char>) -> Seq<EventV> {
    if has_day(days, d) {
        days[day_index(days, d)].events
    } else {
        Seq::empty()
    }
}

/// Every event of the calendar, bucket by bucket in bucket order.
pub open spec fn all_events(bs: Seq<DayBucketV>) -> Seq<EventV>
    decreases bs.len(),
{
    if bs.len() == 0 {
        Seq::empty()
    } else {
        bs.first().events + all_events(bs.drop_first())
    }
}

/// The first index whose event carries the identifier `id`, or a negative
/// number when none does.
pub open spec fn find_id(es: Seq<EventV>, id: Seq<char>) -> int
    decreases es.len(),
{
    if es.len() == 0 {
        -1
    } else if es.first().id == id {
        0
    } else {
        let r = find_id(es.drop_first(), id);
        if r < 0 {
            -1
        } else {
            r + 1
        }
    }
}

/// What [`find_id`] returns is either negative or a first match.
pub proof fn lemma_find_id_spec(es: Seq<EventV>, id: Seq<char>)
    ensures
        find_id(es, id) == -1 || (0 <= find_id(es, id) < es.len() && es[find_id(es, id)].id
            == id),
        find_id(es, id) == -1 ==> forall|x: int| 0 <= x < es.len() ==> (#[trigger] es[x]).id
            != id,
        forall|x: int| 0 <= x < find_id(es, id) ==> (#[trigger] es[x]).id != id,
    decreases es.len(),
{
    if es.len() > 0 && es.first().id != id {
        lemma_find_id_spec(es.drop_first(), id);
        assert(forall|x: int|
            1 <= x < es.len() ==> (#[trigger] es[x]) == es.drop_first()[x - 1]);
    }
}

/// A first match at `j` is what [`find_id`] returns.
pub proof fn lemma_find_id_at(es: Seq<EventV>, id: Seq<char>, j: int)
    requires
        0 <= j < es.len(),
        forall|x: int| 0 <= x < j ==> (#[trigger] es[x]).id != id,
        es[j].id == id,
    ensures
        find_id(es, id) == j,
    decreases es.len(),
{
    if j > 0 {
        assert(es.first().id != id);
        assert(forall|x: int|
            0 <= x < es.drop_first().len() ==> (#[trigger] es.drop_first()[x]) == es[x + 1]);
        lemma_find_id_at(es.drop_first(), id, j - 1);
    }
}

/// Appending a bucket appends its events to the flattened sequence.
pub proof fn lemma_all_events_snoc(bs: Seq<DayBucketV>, b: DayBucketV)
    ensures
        all_events(bs.push(b)) == all_events(bs) + b.events,
    decreases bs.len(),
{
    if bs.len() == 0 {
        assert(bs.push(b).drop_first() =~= bs);
        assert(bs.push(b).first() == b);
        assert(all_events(bs) =~= Seq::<EventV>::empty());
        assert(b.events + all_events(bs) =~= all_events(bs) + b.events);
    } else {
        assert(bs.push(b).drop_first() =~= bs.drop_first().push(b));
        lemma_all_events_snoc(bs.drop_first(), b);
        assert(bs.push(b).first() == bs.first());
        assert(bs.first().events + (all_events(bs.drop_first()) + b.events) =~= (bs.first().events
            + all_events(bs.drop_first())) + b.events);
    }
}

/// Filing one more event into the bucket at `i` adds exactly that event to
/// the calendar's events, as multisets.
pub proof fn lemma_all_events_update_push(bs: Seq<DayBucketV>, i: int, e: EventV)
    requires
        0 <= i < bs.len(),
    ensures
        ({
            let b2 = DayBucketV { date: bs[i].date, events: bs[i].events.push(e) };
            all_events(bs.update(i, b2)).to_multiset() == all_events(bs).to_multiset().insert(e)
        }),
    decreases bs.len(),
{
    broadcast use vstd::seq_lib::group_to_multiset_ensures;

    let b2 = DayBucketV { date: bs[i].date, events: bs[i].events.push(e) };
    let bs1 = bs.update(i, b2);
    if i == 0 {
        assert(bs1.first() == b2);
        assert(bs1.drop_first() =~= bs.drop_first());
        vstd::seq_lib::lemma_multiset_commutative(b2.events, all_events(bs.drop_first()));
        vstd::seq_lib::lemma_multiset_commutative(bs.first().events, all_events(bs.drop_first()));
        assert(b2.events.to_multiset() =~= bs.first().events.to_multiset().insert(e));
        assert(all_events(bs1).to_multiset() =~= all_events(bs).to_multiset().insert(e));
    } else {
        assert(bs1.first() == bs.first());
        assert(bs1.drop_first() =~= bs.drop_first().update(i - 1, b2));
        assert(bs.drop_first()[i - 1] == bs[i]);
        lemma_all_events_update_push(bs.drop_first(), i - 1, e);
        vstd::seq_lib::lemma_multiset_commutative(
            bs.first().events,
            all_events(bs.drop_first().update(i - 1, b2)),
        );
        vstd::seq_lib::lemma_multiset_commutative(bs.first().events, all_events(bs.drop_first()));
        assert(all_events(bs1).to_multiset() =~= all_events(bs).to_multiset().insert(e));
    }
}


/// Buckets with the same dates in the same places stay unique together.
proof fn lemma_unique_same_dates(a: Seq<DayBucketV>, b: Seq<DayBucketV>)
    requires
        a.len() == b.len(),
        forall|x: int| 0 <= x < a.len() ==> (#[trigger] a[x]).date == b[x].date,
        unique_dates(a),
    ensures
        unique_dates(b),
{
    assert forall|p: int, q: int| 0 <= p < q < b.len() implies (#[trigger] b[p].date) != (
    #[trigger] b[q].date) by {
        assert(a[p].date == b[p].date);
        assert(a[q].date == b[q].date);
    }
}

/// With unique dates, a bucket that carries `d` is the one and only bucket
/// the calendar looks up for `d`.
proof fn lemma_unique_index(a: Seq<DayBucketV>, i: int, d: Seq<char>)
    requires
        unique_dates(a),
        0 <= i < a.len(),
        a[i].date == d,
    ensures
        has_day(a, d),
        day_index(a, d) == i,
        events_at(a, d) == a[i].events,
        forall|x: int| 0 <= x < a.len() && (#[trigger] a[x]).date == d ==> x == i,
{
    assert(has_day(a, d));
    assert forall|x: int| 0 <= x < a.len() && (#[trigger] a[x]).date == d implies x == i by {
        if x < i {
            assert(a[x].date != a[i].date);
        }
        if x > i {
            assert(a[i].date != a[x].date);
        }
    }
    let ch = day_index(a, d);
    assert(0 <= ch < a.len() && a[ch].date == d);
}

/// Replacing the bucket at `bi` by one with the same date leaves every
/// other date's events alone.
proof fn lemma_update_bucket_frame(a: Seq<DayBucketV>, bi: int, nb: DayBucketV)
    requires
        unique_dates(a),
        0 <= bi < a.len(),
        nb.date == a[bi].date,
    ensures
        unique_dates(a.update(bi, nb)),
        has_day(a, nb.date),
        day_index(a, nb.date) == bi,
        events_at(a, nb.date) == a[bi].events,
        has_day(a.update(bi, nb), nb.date),
        day_index(a.update(bi, nb), nb.date) == bi,
        events_at(a.update(bi, nb), nb.date) == nb.events,
        forall|d: Seq<char>|
            d != nb.date ==> #[trigger] events_at(a.update(bi, nb), d) == events_at(a, d),
{
    let b = a.update(bi, nb);
    assert(forall|x: int| 0 <= x < a.len() ==> (#[trigger] a[x]).date == b[x].date);
    lemma_unique_same_dates(a, b);
    lemma_unique_index(a, bi, nb.date);
    lemma_unique_index(b, bi, nb.date);
    assert forall|d: Seq<char>| d != nb.date implies #[trigger] events_at(b, d) == events_at(
        a,
        d,
    ) by {
        if has_day(a, d) {
            let x = day_index(a, d);
            assert(0 <= x < a.len() && a[x].date == d);
            lemma_unique_index(a, x, d);
            assert(x != bi);
            assert(b[x] == a[x]);
            lemma_unique_index(b, x, d);
        } else {
            if has_day(b, d) {
                let y = day_index(b, d);
                assert(0 <= y < b.len() && b[y].date == d);
                assert(y != bi);
                assert(b[y] == a[y]);
                assert(has_day(a, d));
            }
        }
    }
}

/// Appending a bucket with a fresh date leaves every other date's events
/// alone.
proof fn lemma_push_bucket_frame(a: Seq<DayBucketV>, nb: DayBucketV)
    requires
        unique_dates(a),
        !has_day(a, nb.date),
    ensures
        unique_dates(a.push(nb)),
        has_day(a.push(nb), nb.date),
        day_index(a.push(nb), nb.date) == a.len(),
        events_at(a.push(nb), nb.date) == nb.events,
        events_at(a, nb.date) == Seq::<EventV>::empty(),
        forall|d: Seq<char>|
            d != nb.date ==> #[trigger] events_at(a.push(nb), d) == events_at(a, d),
{
    let b = a.push(nb);
    assert(b[a.len() as int] == nb);
    assert forall|p: int, q: int| 0 <= p < q < b.len() implies (#[trigger] b[p].date) != (
    #[trigger] b[q].date) by {
        if q < a.len() {
            assert(b[p] == a[p]);
            assert(b[q] == a[q]);
        } else {
            assert(q == a.len());
            assert(b[p] == a[p]);
            if b[p].date == nb.date {
                assert(has_day(a, nb.date));
            }
        }
    }
    lemma_unique_index(b, a.len() as int, nb.date);
    assert forall|d: Seq<char>| d != nb.date implies #[trigger] events_at(b, d) == events_at(
        a,
        d,
    ) by {
        if has_day(a, d) {
            let x = day_index(a, d);
            assert(0 <= x < a.len() && a[x].date == d);
            lemma_unique_index(a, x, d);
            assert(b[x] == a[x]);
            lemma_unique_index(b, x, d);
        } else {
            if has_day(b, d) {
                let y = day_index(b, d);
                assert(0 <= y < b.len() && b[y].date == d);
                assert(y != a.len());
                assert(b[y] == a[y]);
                assert(has_day(a, d));
            }
        }
    }
}

impl Calendar {
    /// No two day buckets carry the same date.
    pub open spec fn wf(&self) -> bool {
        unique_dates(self@.days)
    }

    /// Builds an empty calendar with a random identifier. The flag says
    /// whether this calendar is to be synchronised with remote storage.
    pub fn new(name: &str, desc: &str, sync: bool) -> (r: Calendar)
        ensures
            r@.name == name@,
            r@.desc == desc@,
            r@.sync == sync,
            r@.id.len() == 36,
            r@.days == Seq::<DayBucketV>::empty(),
            r.wf(),
    {
        let r = Calendar {
            id: uuid_v4_string(),
            name: name.to_owned(),
            desc: desc.to_owned(),
            sync,
            days: Vec::new(),
        };
        proof {
            assert(views_of_buckets(r.days@) =~= Seq::<DayBucketV>::empty());
        }
        r
    }

    /// Files `e` under the date part of its start timestamp: into the
    /// bucket already carrying that date, else into a fresh bucket at the
    /// end. Exactly `e` is added, everything else stays.
    pub fn add_event(&mut self, e: Event)
        requires
            old(self).wf(),
        ensures
            final(self).wf(),
            final(self)@.id == old(self)@.id,
            final(self)@.name == old(self)@.name,
            final(self)@.desc == old(self)@.desc,
            final(self)@.sync == old(self)@.sync,
            has_day(final(self)@.days, day_key(e.start@)),
            events_at(final(self)@.days, day_key(e.start@)) == events_at(
                old(self)@.days,
                day_key(e.start@),
            ).push(e@),
            forall|d: Seq<char>|
                d != day_key(e.start@) ==> #[trigger] events_at(final(self)@.days, d)
                    == events_at(old(self)@.days, d),
            all_events(final(self)@.days).to_multiset() == all_events(
                old(self)@.days,
            ).to_multiset().insert(e@),
    {
        broadcast use vstd::seq_lib::group_to_multiset_ensures;

        let ghost days0 = self@.days;
        let ghost k = day_key(e.start@);
        let key = day_key_of(&e.start);
        let mut idx: usize = 0;
        let mut found: bool = false;
        while idx < self.days.len() && !found
            invariant
                idx <= days0.len(),
                days0 == self@.days,
                key@ == k,
                old(self) == self,
                unique_dates(days0),
                !found ==> forall|x: int| 0 <= x < idx ==> (#[trigger] days0[x]).date != k,
                found ==> idx < days0.len() && days0[idx as int].date == k,
            decreases days0.len() - idx + (if found {
                0int
            } else {
                1int
            }),
        {
            if self.days[idx].date == key {
                found = true;
            } else {
                idx += 1;
            }
        }
        if found {
            let ghost bi = idx as int;
            let mut b = self.days.remove(idx);
            b.events.push(e);
            self.days.insert(idx, b);
            proof {
                let days1 = self@.days;
                let b2 = DayBucketV { date: days0[bi].date, events: days0[bi].events.push(e@) };
                assert(views_of_events(b.events@) =~= days0[bi].events.push(e@));
                assert(days1 =~= days0.update(bi, b2));
                lemma_update_bucket_frame(days0, bi, b2);
                lemma_all_events_update_push(days0, bi, e@);
            }
        } else {
            let mut events: Vec<Event> = Vec::new();
            events.push(e);
            let b = DayBucket { date: key, events };
            self.days.push(b);
            proof {
                let days1 = self@.days;
                assert(b@.events =~= seq![e@]);
                assert(days1 =~= days0.push(b@));
                assert(b@.date == k);
                assert(!has_day(days0, k));
                lemma_push_bucket_frame(days0, b@);
                assert(events_at(days1, k) =~= events_at(days0, k).push(e@));
                lemma_all_events_snoc(days0, b@);
                vstd::seq_lib::lemma_multiset_commutative(all_events(days0), b@.events);
                assert(seq![e@].to_multiset() =~= Seq::<EventV>::empty().push(e@).to_multiset());
                assert(Seq::<EventV>::empty().push(e@).to_multiset() =~= Seq::<EventV>::empty()
                    .to_multiset().insert(e@));
                assert(all_events(days1).to_multiset() =~= all_events(days0).to_multiset().insert(
                    e@,
                ));
            }
        }
    }

    /// Removes the first event with `e`'s identifier from the bucket
    /// carrying the date part of `e`'s start timestamp. Where no such
    /// bucket or event exists, nothing happens.
    pub fn delete_event(&mut self, e: &Event)
        requires
            old(self).wf(),
        ensures
            final(self).wf(),
            final(self)@.id == old(self)@.id,
            final(self)@.name == old(self)@.name,
            final(self)@.desc == old(self)@.desc,
            final(self)@.sync == old(self)@.sync,
            !has_day(old(self)@.days, day_key(e.start@)) ==> final(self)@.days == old(
                self,
            )@.days,
            has_day(old(self)@.days, day_key(e.start@)) && find_id(
                events_at(old(self)@.days, day_key(e.start@)),
                e.id@,
            ) < 0 ==> final(self)@.days == old(self)@.days,
            has_day(old(self)@.days, day_key(e.start@)) && find_id(
                events_at(old(self)@.days, day_key(e.start@)),
                e.id@,
            ) >= 0 ==> events_at(final(self)@.days, day_key(e.start@)) == events_at(
                old(self)@.days,
                day_key(e.start@),
            ).remove(find_id(events_at(old(self)@.days, day_key(e.start@)), e.id@)) && (forall|
                d: Seq<char>,
            |
                d != day_key(e.start@) ==> #[trigger] events_at(final(self)@.days, d)
                    == events_at(old(self)@.days, d)),
    {
        let ghost days0 = self@.days;
        let ghost k = day_key(e.start@);
        let key = day_key_of(&e.start);
        let mut i: usize = 0;
        while i < self.days.len()
            invariant
                i <= days0.len(),
                days0 == self@.days,
                key@ == k,
                k == day_key(e.start@),
                old(self) == self,
                unique_dates(days0),
                forall|x: int| 0 <= x < i ==> (#[trigger] days0[x]).date != k,
            decreases days0.len() - i,
        {
            if self.days[i].date == key {
                let ghost bi = i as int;
                proof {
                    lemma_unique_index(days0, bi, k);
                }
                let mut b = self.days.remove(i);
                let ghost es0 = views_of_events(b.events@);
                let mut j: usize = 0;
                let mut found: bool = false;
                while j < b.events.len() && !found
                    invariant
                        es0 == views_of_events(b.events@),
                        j <= b.events@.len(),
                        forall|x: int| 0 <= x < j ==> (#[trigger] es0[x]).id != e.id@,
                        found ==> j < es0.len() && es0[j as int].id == e.id@,
                    decreases b.events@.len() - j + (if found {
                        0int
                    } else {
                        1int
                    }),
                {
                    if b.events[j].id == e.id {
                        found = true;
                    } else {
                        j += 1;
                    }
                }
                if found {
                    proof {
                        lemma_find_id_at(es0, e.id@, j as int);
                    }
                    let _ = b.events.remove(j);
                } else {
                    proof {
                        lemma_find_id_spec(es0, e.id@);
                        assert(find_id(es0, e.id@) == -1);
                    }
                }
                self.days.insert(i, b);
                proof {
                    let days1 = self@.days;
                    let nb = DayBucketV { date: days0[bi].date, events: views_of_events(
                        b.events@,
                    ) };
                    let fj = find_id(events_at(days0, k), e.id@);
                    assert(events_at(days0, k) == es0);
                    assert(days1 =~= days0.update(bi, nb));
                    lemma_update_bucket_frame(days0, bi, nb);
                    if found {
                        assert(views_of_events(b.events@) =~= es0.remove(j as int));
                        assert(events_at(days1, k) == events_at(days0, k).remove(fj));
                    } else {
                        assert(views_of_events(b.events@) =~= es0);
                        assert(days1 =~= days0);
                    }
                }
                return ;
            }
            i += 1;
        }
        proof {
            assert(!has_day(days0, k));
        }
    }

    /// Every event of the calendar, in bucket order.
    pub fn get_events(&self) -> (r: Vec<&Event>)
        ensures
            r@.len() == all_events(self@.days).len(),
            forall|x: int| 0 <= x < r@.len() ==> (#[trigger] r@[x])@ == all_events(
                self@.days,
            )[x],
    {
        let ghost views = self@.days;
        let ghost flat = all_events(views);
        let mut out: Vec<&Event> = Vec::new();
        let mut i: usize = 0;
        proof {
            assert(views.take(0) =~= Seq::<DayBucketV>::empty());
        }
        while i < self.days.len()
            invariant
                i <= self.days@.len(),
                views == self@.days,
                out@.len() == all_events(views.take(i as int)).len(),
                forall|x: int| 0 <= x < out@.len() ==> (#[trigger] out@[x])@ == all_events(
                    views.take(i as int),
                )[x],
            decreases self.days@.len() - i,
        {
            let bucket = &self.days[i];
            let ghost pre = all_events(views.take(i as int));
            let mut j: usize = 0;
            while j < bucket.events.len()
                invariant
                    j <= bucket.events@.len(),
                    bucket@ == views[i as int],
                    0 <= i < views.len(),
                    pre == all_events(views.take(i as int)),
                    out@.len() == pre.len() + j,
                    forall|x: int| 0 <= x < pre.len() ==> (#[trigger] out@[x])@ == pre[x],
                    forall|x: int|
                        0 <= x < j ==> (#[trigger] out@[pre.len() + x])@ == views[i as int].events[x],
                decreases bucket.events@.len() - j,
            {
                let ev: &Event = &bucket.events[j];
                proof {
                    assert(ev@ == views[i as int].events[j as int]);
                }
                out.push(ev);
                j += 1;
            }
            proof {
                assert(views.take(i + 1) =~= views.take(i as int).push(views[i as int]));
                lemma_all_events_snoc(views.take(i as int), views[i as int]);
                let flat1 = all_events(views.take(i + 1));
                assert forall|x: int| 0 <= x < out@.len() implies (#[trigger] out@[x])@
                    == flat1[x] by {
                    if x < pre.len() {
                        assert(out@[x]@ == pre[x]);
                        assert(flat1[x] == pre[x]);
                    } else {
                        assert(out@[pre.len() + (x - pre.len())]@ == views[i as int].events[x
                            - pre.len()]);
                        assert(flat1[x] == views[i as int].events[x - pre.len()]);
                    }
                }
            }
            i += 1;
        }
        proof {
            assert(views.take(views.len() as int) =~= views);
        }
        out
    }

    /// The events filed under the given date key, or nothing when the
    /// calendar has no bucket for it.
    pub fn get_events_by_day(&self, date: &str) -> (r: Option<&Vec<Event>>)
        requires
            self.wf(),
        ensures
            r matches Some(v) ==> has_day(self@.days, date@) && views_of_events(v@) == events_at(
                self@.days,
                date@,
            ),
            r is None ==> !has_day(self@.days, date@),
    {
        let ghost days = self@.days;
        let wanted = date.to_owned();
        let mut i: usize = 0;
        while i < self.days.len()
            invariant
                i <= days.len(),
                days == self@.days,
                wanted@ == date@,
                self.wf(),
                forall|x: int| 0 <= x < i ==> (#[trigger] days[x]).date != date@,
            decreases days.len() - i,
        {
            if self.days[i].date == wanted {
                proof {
                    lemma_unique_index(days, i as int, date@);
                }
                return Some(&self.days[i].events);
            }
            i += 1;
        }
        None
    }

    /// What one shifted copy of `src` looks like.
    pub open spec fn repeated_copy(src: EventV, r: EventV, delta_ms: i64) -> bool {
        &&& r.name == src.name
        &&& r.desc == src.desc
        &&& r.location == src.location
        &&& r.sync == src.sync
        &&& (epoch_millis_of(src.start) matches Some(ts) ==> epoch_millis_of(r.start) == Some(
            (ts + delta_ms) as i64,
        ))
        &&& (epoch_millis_of(src.end) matches Some(te) ==> epoch_millis_of(r.end) == Some(
            (te + delta_ms) as i64,
        ))
    }

    /// Files `n` fresh copies of `e`, each one week later than `e` and each
    /// with its own identifier. The calendar gains exactly those `n`
    /// events. The required range on `e`'s timestamps cannot be proved of
    /// an event whose times came straight from the clock, so such callers
    /// go through [`Calendar::try_repeat_event_n_times`], which tests the
    /// range at run time.
    pub fn repeat_event_n_times(&mut self, e: &Event, n: usize)
        requires
            old(self).wf(),
            epoch_millis_of(e.start@) matches Some(ts) && -EPOCH_MILLIS_RANGE <= ts + WEEK_MS
                <= EPOCH_MILLIS_RANGE,
            epoch_millis_of(e.end@) matches Some(te) && -EPOCH_MILLIS_RANGE <= te + WEEK_MS
                <= EPOCH_MILLIS_RANGE,
        ensures
            final(self).wf(),
            final(self)@.id == old(self)@.id,
            final(self)@.name == old(self)@.name,
            final(self)@.desc == old(self)@.desc,
            final(self)@.sync == old(self)@.sync,
            exists|added: Seq<EventV>|
                added.len() == n && (forall|x: int|
                    0 <= x < n ==> Self::repeated_copy(e@, #[trigger] added[x], WEEK_MS))
                    && all_events(final(self)@.days).to_multiset() == all_events(
                    old(self)@.days,
                ).to_multiset().add(added.to_multiset()),
    {
        broadcast use vstd::seq_lib::group_to_multiset_ensures;

        let ghost days0 = old(self)@.days;
        let ghost mut added: Seq<EventV> = Seq::empty();
        proof {
            assert(added.to_multiset() =~= Multiset::<EventV>::empty());
            assert(all_events(days0).to_multiset().add(added.to_multiset())
                =~= all_events(days0).to_multiset());
        }
        let mut i: usize = 0;
        while i < n
            invariant
                i <= n,
                self.wf(),
                self@.id == old(self)@.id,
                self@.name == old(self)@.name,
                self@.desc == old(self)@.desc,
                self@.sync == old(self)@.sync,
                days0 == old(self)@.days,
                epoch_millis_of(e.start@) matches Some(ts) && -EPOCH_MILLIS_RANGE <= ts + WEEK_MS
                    <= EPOCH_MILLIS_RANGE,
                epoch_millis_of(e.end@) matches Some(te) && -EPOCH_MILLIS_RANGE <= te + WEEK_MS
                    <= EPOCH_MILLIS_RANGE,
                added.len() == i,
                forall|x: int|
                    0 <= x < i ==> Self::repeated_copy(e@, #[trigger] added[x], WEEK_MS),
                all_events(self@.days).to_multiset() == all_events(days0).to_multiset().add(
                    added.to_multiset(),
                ),
            decreases n - i,
        {
            let er = e.repeat(WEEK_MS);
            let ghost erv = er@;
            self.add_event(er);
            proof {
                let prev = added;
                added = added.push(erv);
                prev.to_multiset_ensures();
                assert(prev.push(erv).to_multiset() =~= prev.to_multiset().insert(erv));
                assert(added.to_multiset() =~= prev.to_multiset().insert(erv));
                assert(all_events(self@.days).to_multiset() =~= all_events(
                    days0,
                ).to_multiset().add(added.to_multiset()));
            }
            i += 1;
        }
    }

    /// Checks at run time what [`Calendar::repeat_event_n_times`] asks of
    /// its caller, and repeats only when that holds; the result says
    /// whether anything was filed.
    pub fn try_repeat_event_n_times(&mut self, e: &Event, n: usize) -> (r: bool)
        requires
            old(self).wf(),
        ensures
            final(self).wf(),
            r == (epoch_millis_of(e.start@) matches Some(ts) && epoch_millis_of(
                e.end@,
            ) matches Some(te) && -EPOCH_MILLIS_RANGE <= ts + WEEK_MS <= EPOCH_MILLIS_RANGE
                && -EPOCH_MILLIS_RANGE <= te + WEEK_MS <= EPOCH_MILLIS_RANGE),
            !r ==> final(self)@ == old(self)@,
            r ==> final(self)@.id == old(self)@.id && final(self)@.name == old(self)@.name
                && final(self)@.desc == old(self)@.desc && final(self)@.sync == old(self)@.sync,
            r ==> exists|added: Seq<EventV>|
                added.len() == n && (forall|x: int|
                    0 <= x < n ==> Self::repeated_copy(e@, #[trigger] added[x], WEEK_MS))
                    && all_events(final(self)@.days).to_multiset() == all_events(
                    old(self)@.days,
                ).to_multiset().add(added.to_multiset()),
    {
        let ts = match DTWrapper::parse_rfc3339_millis(e.start.as_str()) {
            Some(x) => x,
            None => {
                return false;
            },
        };
        let te = match DTWrapper::parse_rfc3339_millis(e.end.as_str()) {
            Some(x) => x,
            None => {
                return false;
            },
        };
        let s_sum: i128 = ts as i128 + WEEK_MS as i128;
        let e_sum: i128 = te as i128 + WEEK_MS as i128;
        if s_sum < -(EPOCH_MILLIS_RANGE as i128) || s_sum > EPOCH_MILLIS_RANGE as i128 {
            return false;
        }
        if e_sum < -(EPOCH_MILLIS_RANGE as i128) || e_sum > EPOCH_MILLIS_RANGE as i128 {
            return false;
        }
        self.repeat_event_n_times(e, n);
        true
    }
}


/// Whether the buckets carry pairwise distinct dates, checked pair by pair.
fn dates_unique(days: &Vec<DayBucket>) -> (r: bool)
    ensures
        r == unique_dates(views_of_buckets(days@)),
{
    let ghost views = views_of_buckets(days@);
    let mut i: usize = 0;
    while i < days.len()
        invariant
            views == views_of_buckets(days@),
            i <= days@.len(),
            forall|p: int, q: int|
                0 <= p < q < views.len() && p < i ==> (#[trigger] views[p].date) != (
                #[trigger] views[q].date),
        decreases days@.len() - i,
    {
        let mut l: usize = i + 1;
        while l < days.len()
            invariant
                views == views_of_buckets(days@),
                i < l,
                i < days@.len(),
                l <= days@.len(),
                forall|q: int| i < q < l ==> (#[trigger] views[q].date) != views[i as int].date,
            decreases days@.len() - l,
        {
            if days[i].date == days[l].date {
                proof {
                    assert(views[i as int].date == views[l as int].date);
                    assert(!unique_dates(views));
                }
                return false;
            }
            l += 1;
        }
        i += 1;
    }
    true
}

impl Content for Calendar {
    open spec fn inv_spec(v: CalendarV) -> bool {
        unique_dates(v.days)
    }

    open spec fn id_spec(&self) -> Seq<char> {
        self@.id
    }

    open spec fn sync_spec(&self) -> bool {
        self@.sync
    }

    open spec fn marshal_ok(v: CalendarV) -> bool {
        cal_ok(v)
    }

    open spec fn marshal_spec(v: CalendarV) -> Seq<char> {
        enc_cal(v)
    }

    open spec fn unmarshal_spec(s: Seq<char>) -> Option<CalendarV> {
        match p_cal(s, 0) {
            Some((v, j)) => if j == s.len() && unique_dates(v.days) {
                Some(v)
            } else {
                None
            },
            None => None,
        }
    }

    proof fn lemma_marshal_round_trip(v: CalendarV) {
        let s = enc_cal(v);
        assert(s.subrange(0, s.len() as int) =~= s);
        lemma_p_cal_enc(s, 0, v);
    }

    proof fn lemma_unmarshal_inv(s: Seq<char>) {
        lemma_p_cal_ok(s, 0);
    }

    fn get_id(&self) -> (r: String) {
        self.id.clone()
    }

    fn is_synchronised(&self) -> (r: bool) {
        self.sync
    }

    fn marshal(&self) -> (r: Result<String, MarshalError>) {
        let mut out: Vec<char> = Vec::new();
        push_cal(&mut out, self);
        proof {
            assert(out@ =~= enc_cal(self@));
        }
        Ok(chars_to_string(&out))
    }

    fn unmarshal(s: &str) -> (r: Result<Calendar, MarshalError>) {
        let cs = string_chars(s);
        match parse_cal(&cs, 0) {
            Some((c, p)) => if p == cs.len() && dates_unique(&c.days) {
                Ok(c)
            } else {
                Err(MarshalError::Failed)
            },
            None => Err(MarshalError::Failed),
        }
    }
}

impl PartialEq for Event {
    /// Structural equality: every field compared by value.
    fn eq(&self, other: &Event) -> (r: bool) {
        self.id == other.id && self.name == other.name && self.desc == other.desc
            && self.location == other.location && self.start == other.start && self.end
            == other.end && self.sync == other.sync
    }
}

impl vstd::std_specs::cmp::PartialEqSpecImpl for Event {
    open spec fn obeys_eq_spec() -> bool {
        true
    }

    open spec fn eq_spec(&self, other: &Event) -> bool {
        self@ == other@
    }
}

/// Whether two event lists hold the same events in the same order.
fn events_eq(a: &Vec<Event>, b: &Vec<Event>) -> (r: bool)
    ensures
        r == (views_of_events(a@) == views_of_events(b@)),
{
    let ghost va = views_of_events(a@);
    let ghost vb = views_of_events(b@);
    if a.len() != b.len() {
        proof {
            assert(va.len() != vb.len());
        }
        return false;
    }
    let mut i: usize = 0;
    while i < a.len()
        invariant
            va == views_of_events(a@),
            vb == views_of_events(b@),
            a@.len() == b@.len(),
            i <= a@.len(),
            forall|x: int| 0 <= x < i ==> (#[trigger] va[x]) == vb[x],
        decreases a@.len() - i,
    {
        if !(a[i] == b[i]) {
            proof {
                assert(va[i as int] != vb[i as int]);
            }
            return false;
        }
        i += 1;
    }
    proof {
        assert(va =~= vb);
    }
    true
}

/// Whether two bucket lists hold the same days and events in the same
/// order.
fn days_eq(a: &Vec<DayBucket>, b: &Vec<DayBucket>) -> (r: bool)
    ensures
        r == (views_of_buckets(a@) == views_of_buckets(b@)),
{
    let ghost va = views_of_buckets(a@);
    let ghost vb = views_of_buckets(b@);
    if a.len() != b.len() {
        proof {
            assert(va.len() != vb.len());
        }
        return false;
    }
    let mut i: usize = 0;
    while i < a.len()
        invariant
            va == views_of_buckets(a@),
            vb == views_of_buckets(b@),
            a@.len() == b@.len(),
            i <= a@.len(),
            forall|x: int| 0 <= x < i ==> (#[trigger] va[x]) == vb[x],
        decreases a@.len() - i,
    {
        let same_date = a[i].date == b[i].date;
        let same_events = events_eq(&a[i].events, &b[i].events);
        if !(same_date && same_events) {
            proof {
                assert(va[i as int] != vb[i as int]);
            }
            return false;
        }
        i += 1;
    }
    proof {
        assert(va =~= vb);
    }
    true
}

impl PartialEq for Calendar {
    /// Structural equality: identity, description, flag, and every day's
    /// events compared by value.
    fn eq(&self, other: &Calendar) -> (r: bool) {
        self.id == other.id && self.name == other.name && self.desc == other.desc && self.sync
            == other.sync && days_eq(&self.days, &other.days)
    }
}

impl vstd::std_specs::cmp::PartialEqSpecImpl for Calendar {
    open spec fn obeys_eq_spec() -> bool {
        true
    }

    open spec fn eq_spec(&self, other: &Calendar) -> bool {
        self@ == other@
    }
}

} // verus!
