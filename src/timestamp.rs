use vstd::prelude::*;

use crate::text::{padded, push_char, push_padded};

verus! {

/// A position in a video: whole seconds and milliseconds.
///
/// A timestamp is normalized when its milliseconds are below one thousand;
/// every operation here returns normalized timestamps.
#[derive(Debug, Clone, Copy, PartialEq, Eq, Structural, Ord)]
pub struct VideoTimestamp {
    pub seconds: u64,
    pub milliseconds: u64,
}

/// The `HH:MM:SS.mmm` form of a time given as hours, minutes, seconds and milliseconds.
pub open spec fn hms_text(h: nat, m: nat, s: nat, ms: nat) -> Seq<char> {
    padded(h, 2) + seq![':'] + padded(m, 2) + seq![':'] + padded(s, 2) + seq!['.'] + padded(ms, 3)
}

impl VideoTimestamp {
    /// The position in milliseconds.
    pub open spec fn total_ms(self) -> int {
        self.seconds * 1000 + self.milliseconds
    }

    pub open spec fn wf(self) -> bool {
        self.milliseconds < 1000
    }

    /// Strict order: seconds first, then milliseconds.
    pub open spec fn before(self, other: Self) -> bool {
        self.seconds < other.seconds || (self.seconds == other.seconds && self.milliseconds
            < other.milliseconds)
    }

    /// The text of `as_ffmpeg_arg`.
    pub open spec fn text(self) -> Seq<char> {
        hms_text(
            (self.seconds / 3600) as nat,
            ((self.seconds % 3600) / 60) as nat,
            (self.seconds % 60) as nat,
            self.milliseconds as nat,
        )
    }

    pub fn zero() -> (r: Self)
        ensures
            r.seconds == 0,
            r.milliseconds == 0,
    {
        VideoTimestamp { seconds: 0, milliseconds: 0 }
    }

    /// The timestamp `ms` milliseconds from the start.
    pub fn from_millis(ms: u64) -> (r: Self)
        ensures
            r.wf(),
            r.total_ms() == ms,
    {
        VideoTimestamp { seconds: ms / 1000, milliseconds: ms % 1000 }
    }

    /// Moves by a signed number of whole seconds, saturating at zero: a move
    /// to before the start gives the start.
    pub fn add_seconds(&self, seconds: i64) -> (r: Self)
        requires
            self.seconds + seconds <= u64::MAX,
        ensures
            self.seconds + seconds < 0 ==> r.seconds == 0 && r.milliseconds == 0,
            self.seconds + seconds >= 0 ==> r.seconds == self.seconds + seconds && r.milliseconds
                == self.milliseconds,
    {
        let s: i128 = self.seconds as i128 + seconds as i128;
        if s < 0 {
            VideoTimestamp { seconds: 0, milliseconds: 0 }
        } else {
            VideoTimestamp { seconds: s as u64, milliseconds: self.milliseconds }
        }
    }

    /// Hours, minutes and seconds of the whole-second part.
    pub fn as_hms(&self) -> (r: (u64, u64, u64))
        ensures
            r.0 == self.seconds / 3600,
            r.1 == (self.seconds % 3600) / 60,
            r.2 == self.seconds % 60,
    {
        let hours = self.seconds / 3600;
        let minutes = (self.seconds - hours * 3600) / 60;
        let seconds = self.seconds - hours * 3600 - minutes * 60;
        (hours, minutes, seconds)
    }

    /// The text `HH:MM:SS.mmm`, each field zero-padded to its width.
    pub fn as_ffmpeg_arg(&self) -> (r: String)
        ensures
            r@ == self.text(),
    {
        let (hours, minutes, seconds) = self.as_hms();
        let mut s = String::new();
        push_padded(&mut s, hours, 2);
        push_char(&mut s, ':');
        push_padded(&mut s, minutes, 2);
        push_char(&mut s, ':');
        push_padded(&mut s, seconds, 2);
        push_char(&mut s, '.');
        push_padded(&mut s, self.milliseconds, 3);
        assert(s@ =~= self.text());
        s
    }

    /// Carries whole seconds out of the milliseconds.
    pub fn normalize(&mut self)
        requires
            old(self).seconds + old(self).milliseconds / 1000 <= u64::MAX,
        ensures
            final(self).wf(),
            final(self).total_ms() == old(self).total_ms(),
    {
        self.seconds = self.seconds + self.milliseconds / 1000;
        self.milliseconds = self.milliseconds % 1000;
    }

    /// Field-wise sum, normalized.
    pub fn plus(self, rhs: Self) -> (r: Self)
        requires
            self.milliseconds + rhs.milliseconds <= u64::MAX,
            self.seconds + rhs.seconds + (self.milliseconds + rhs.milliseconds) / 1000 <= u64::MAX,
        ensures
            r.wf(),
            r.total_ms() == self.total_ms() + rhs.total_ms(),
    {
        let mut r = VideoTimestamp {
            seconds: self.seconds + rhs.seconds,
            milliseconds: self.milliseconds + rhs.milliseconds,
        };
        r.normalize();
        r
    }

    /// Compares seconds first, then milliseconds.
    pub fn lt(&self, other: &Self) -> (r: bool)
        ensures
            r == self.before(*other),
    {
        self.seconds < other.seconds || (self.seconds == other.seconds && self.milliseconds
            < other.milliseconds)
    }
}

/// The order of timestamps is a strict total order: irreflexive, transitive,
/// and any two different timestamps are ordered one way or the other.
pub proof fn lemma_before_strict_total_order(a: VideoTimestamp, b: VideoTimestamp, c: VideoTimestamp)
    ensures
        !a.before(a),
        a.before(b) && b.before(c) ==> a.before(c),
        a.before(b) ==> !b.before(a),
        a != b ==> a.before(b) || b.before(a),
{
}

/// A normalized timestamp is fixed by its position in milliseconds. As `plus`
/// returns the normalized timestamp of the summed milliseconds, adding
/// timestamps is commutative and associative.
pub proof fn lemma_normalized_unique(a: VideoTimestamp, b: VideoTimestamp)
    requires
        a.wf(),
        b.wf(),
        a.total_ms() == b.total_ms(),
    ensures
        a == b,
{
    vstd::arithmetic::div_mod::lemma_fundamental_div_mod_converse(
        a.total_ms(),
        1000,
        a.seconds as int,
        a.milliseconds as int,
    );
    vstd::arithmetic::div_mod::lemma_fundamental_div_mod_converse(
        b.total_ms(),
        1000,
        b.seconds as int,
        b.milliseconds as int,
    );
}

impl PartialOrd for VideoTimestamp {
    fn partial_cmp(&self, other: &Self) -> (r: Option<core::cmp::Ordering>) {
        if self.seconds < other.seconds {
            Some(core::cmp::Ordering::Less)
        } else if self.seconds > other.seconds {
            Some(core::cmp::Ordering::Greater)
        } else if self.milliseconds < other.milliseconds {
            Some(core::cmp::Ordering::Less)
        } else if self.milliseconds > other.milliseconds {
            Some(core::cmp::Ordering::Greater)
        } else {
            Some(core::cmp::Ordering::Equal)
        }
    }
}

impl vstd::std_specs::cmp::PartialOrdSpecImpl for VideoTimestamp {
    open spec fn obeys_partial_cmp_spec() -> bool {
        true
    }

    open spec fn partial_cmp_spec(&self, other: &Self) -> Option<core::cmp::Ordering> {
        if self.before(*other) {
            Some(core::cmp::Ordering::Less)
        } else if other.before(*self) {
            Some(core::cmp::Ordering::Greater)
        } else {
            Some(core::cmp::Ordering::Equal)
        }
    }
}

} // verus!
