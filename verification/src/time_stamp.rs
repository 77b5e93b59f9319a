//! The time of a use: an instant (seconds and nanoseconds of the UTC epoch)
//! paired with its RFC 3339 rendering, which carries the local offset and is
//! what the snapshot stores.

use vstd::prelude::*;

use crate::ext;

verus! {

/// Mathematical model of a [`Timestamp`].
#[verifier::ext_equal]
pub ghost struct TsView {
    pub secs: int,
    pub nanos: int,
    pub text: Seq<char>,
}

impl TsView {
    /// The instant named by `text` is exactly `(secs, nanos)`, with the
    /// nanosecond count in the range chrono guarantees.
    pub open spec fn wf(self) -> bool {
        &&& ext::rfc3339_instant(self.text) == Some((self.secs, self.nanos))
        &&& i64::MIN <= self.secs <= i64::MAX
        &&& 0 <= self.nanos < 2_000_000_000
    }

    /// `self` is no later than `other`: ordering of instants, by seconds and
    /// then nanoseconds. The rendering text plays no part.
    pub open spec fn le(self, other: TsView) -> bool {
        self.secs < other.secs || (self.secs == other.secs && self.nanos <= other.nanos)
    }

    /// `self` is strictly earlier than `other`.
    pub open spec fn lt(self, other: TsView) -> bool {
        self.le(other) && !other.le(self)
    }
}

/// A point in time: the instant as seconds and subsecond nanoseconds of the
/// UTC epoch, together with its RFC 3339 text, which names the same instant.
pub struct Timestamp {
    secs: i64,
    nanos: u32,
    text: String,
}

impl View for Timestamp {
    type V = TsView;

    closed spec fn view(&self) -> TsView {
        TsView { secs: self.secs as int, nanos: self.nanos as int, text: self.text@ }
    }
}

impl Clone for Timestamp {
    fn clone(&self) -> (r: Self)
        ensures
            r@ == self@,
    {
        Timestamp { secs: self.secs, nanos: self.nanos, text: self.text.clone() }
    }
}

impl Timestamp {
    /// The current local time, as chrono reports it.
    pub fn now() -> (r: Timestamp)
        ensures
            r@.wf(),
    {
        let (text, secs, nanos) = ext::clock_now();
        Timestamp { secs, nanos, text }
    }

    /// The instant a piece of RFC 3339 text names; `None` where the text is
    /// not a valid RFC 3339 date-time.
    pub fn from_text(text: String) -> (r: Option<Timestamp>)
        ensures
            r matches Some(t) ==> t@.wf() && t@.text == text@,
            r is None <==> ext::rfc3339_instant(text@) is None,
    {
        match ext::parse_rfc3339(text.as_str()) {
            Some((secs, nanos)) => Some(Timestamp { secs, nanos, text }),
            None => None,
        }
    }

    /// Seconds of the instant since the UTC epoch.
    pub fn secs(&self) -> (r: i64)
        ensures
            r as int == self@.secs,
    {
        self.secs
    }

    /// Subsecond nanoseconds of the instant.
    pub fn nanos(&self) -> (r: u32)
        ensures
            r as int == self@.nanos,
    {
        self.nanos
    }

    /// The RFC 3339 rendering of the instant.
    pub fn text(&self) -> (r: &String)
        ensures
            r@ == self@.text,
    {
        &self.text
    }

    /// `self` is no later than `other`.
    pub fn le(&self, other: &Timestamp) -> (r: bool)
        ensures
            r == self@.le(other@),
    {
        self.secs < other.secs || (self.secs == other.secs && self.nanos <= other.nanos)
    }
}

} // verus!
