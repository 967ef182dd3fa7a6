//! Sliding time-windowed series: one time-ordered buffer per channel,
//! bounded by a look-behind horizon, backing visualization and feature
//! reads.
use vstd::prelude::*;

verus! {

/// One plotted point: `x` is the timestamp, `y` the sample value.
#[derive(Clone, Copy, PartialEq, Eq, Structural, Debug)]
pub struct Measurement {
    pub x: i64,
    pub y: i64,
}

impl Measurement {
    pub fn new(x: i64, y: i64) -> (m: Measurement)
        ensures
            m.x == x,
            m.y == y,
    {
        Measurement { x, y }
    }
}

/// Timestamps never decrease along the sequence.
pub open spec fn time_sorted(s: Seq<Measurement>) -> bool {
    forall|i: int, j: int|
        #![trigger s[i], s[j]]
        0 <= i <= j < s.len() ==> s[i].x <= s[j].x
}

/// Longest suffix of `s` that starts at the first point whose timestamp
/// reaches `limit`; mirrors popping stale points off the front.
pub open spec fn keep_recent(s: Seq<Measurement>, limit: int) -> Seq<Measurement>
    decreases s.len(),
{
    if s.len() == 0 {
        s
    } else if s[0].x < limit {
        keep_recent(s.drop_first(), limit)
    } else {
        s
    }
}

/// Channel contents after one insertion: an out-of-order timestamp
/// clears the channel first; then the point is appended and points
/// older than the look-behind horizon are evicted from the front.
pub open spec fn channel_after_add(
    s: Seq<Measurement>,
    m: Measurement,
    look_behind: int,
) -> Seq<Measurement> {
    let base = if s.len() > 0 && m.x < s.last().x {
        Seq::<Measurement>::empty()
    } else {
        s
    };
    keep_recent(base.push(m), m.x - look_behind)
}

proof fn lemma_time_sorted_drop_first(s: Seq<Measurement>)
    requires
        s.len() > 0,
        time_sorted(s),
    ensures
        time_sorted(s.drop_first()),
{
    assert forall|i: int, j: int|
        #![trigger s.drop_first()[i], s.drop_first()[j]]
        0 <= i <= j < s.drop_first().len() implies s.drop_first()[i].x <= s.drop_first()[j].x by {
        assert(s.drop_first()[i] == s[i + 1]);
        assert(s.drop_first()[j] == s[j + 1]);
    }
}

proof fn lemma_time_sorted_push(s: Seq<Measurement>, m: Measurement)
    requires
        time_sorted(s),
        s.len() > 0 ==> s.last().x <= m.x,
    ensures
        time_sorted(s.push(m)),
{
    assert forall|i: int, j: int|
        #![trigger s.push(m)[i], s.push(m)[j]]
        0 <= i <= j < s.push(m).len() implies s.push(m)[i].x <= s.push(m)[j].x by {
        if j < s.len() {
            assert(s.push(m)[i] == s[i]);
            assert(s.push(m)[j] == s[j]);
        } else if i < s.len() {
            assert(s.push(m)[i] == s[i]);
            assert(s[i].x <= s.last().x);
        }
    }
}

/// Per-channel visualization and feature buffer with a sliding
/// look-behind horizon. A point older than the channel's newest
/// timestamp clears that channel (defence against stream restarts);
/// eviction then keeps only points within `look_behind` of the newest.
pub struct MeasurementWindow {
    pub values: Vec<Vec<Measurement>>,
    pub look_behind: usize,
    pub channels: usize,
    pub rectpoints: Vec<Measurement>,
}

impl MeasurementWindow {
    /// Every channel buffer exists and is ordered by timestamp.
    pub open spec fn wf(&self) -> bool {
        &&& self.values@.len() == self.channels
        &&& forall|c: int| 0 <= c < self.values@.len() ==> time_sorted(#[trigger] self.values@[c]@)
    }

    pub fn new_with_look_behind(look_behind: usize, channels: usize) -> (w: Self)
        ensures
            w.wf(),
            w.look_behind == look_behind,
            w.channels == channels,
            w.values@.len() == channels,
            forall|c: int| 0 <= c < channels ==> (#[trigger] w.values@[c]@) == Seq::<
                Measurement,
            >::empty(),
            w.rectpoints@.len() == 4,
            forall|i: int| 0 <= i < 4 ==> w.rectpoints@[i] == (Measurement { x: 0, y: 0 }),
    {
        let mut values: Vec<Vec<Measurement>> = Vec::new();
        let mut c: usize = 0;
        while c < channels
            invariant
                c <= channels,
                values@.len() == c,
                forall|i: int| 0 <= i < c ==> (#[trigger] values@[i]@) == Seq::<
                    Measurement,
                >::empty(),
            decreases channels - c,
        {
            values.push(Vec::new());
            c = c + 1;
        }
        let mut rectpoints: Vec<Measurement> = Vec::new();
        let mut r: usize = 0;
        while r < 4
            invariant
                r <= 4,
                rectpoints@.len() == r,
                forall|i: int| 0 <= i < r ==> rectpoints@[i] == (Measurement { x: 0, y: 0 }),
            decreases 4 - r,
        {
            rectpoints.push(Measurement { x: 0, y: 0 });
            r = r + 1;
        }
        MeasurementWindow { values, look_behind, channels, rectpoints }
    }

    /// Replaces the overlay rectangle shown over the feature window.
    pub fn update_rect(&mut self, rectp: Vec<Measurement>)
        ensures
            final (self).rectpoints == rectp,
            final (self).values == old(self).values,
            final (self).look_behind == old(self).look_behind,
            final (self).channels == old(self).channels,
    {
        self.rectpoints = rectp;
    }

    /// Inserts one point into a channel. An out-of-range channel is a
    /// no-op; an out-of-order timestamp clears the channel first; points
    /// behind the look-behind horizon are evicted from the front.
    pub fn add(&mut self, channel: usize, measurement: Measurement)
        requires
            old(self).wf(),
        ensures
            final (self).wf(),
            final (self).look_behind == old(self).look_behind,
            final (self).channels == old(self).channels,
            final (self).rectpoints == old(self).rectpoints,
            channel < old(self).channels ==> {
                &&& final (self).values@.len() == old(self).values@.len()
                &&& final (self).values@[channel as int]@ == channel_after_add(
                    old(self).values@[channel as int]@,
                    measurement,
                    old(self).look_behind as int,
                )
                &&& forall|c: int|
                    0 <= c < old(self).values@.len() && c != channel ==> final (self).values@[c]
                        == old(self).values@[c]
            },
            channel >= old(self).channels ==> final (self).values == old(self).values,
    {
        if channel >= self.channels {
            return ;
        }
        let ghost orig: Seq<Measurement> = self.values@[channel as int]@;
        let mut ch: Vec<Measurement> = self.values.remove(channel);
        if ch.len() > 0 {
            let last: Measurement = ch[ch.len() - 1];
            if measurement.x < last.x {
                ch.clear();
            }
        }
        let ghost base: Seq<Measurement> = ch@;
        proof {
            lemma_time_sorted_push(base, measurement);
        }
        ch.push(measurement);
        let ghost appended: Seq<Measurement> = ch@;
        let limit: i128 = measurement.x as i128 - self.look_behind as i128;
        let ghost glimit: int = measurement.x - self.look_behind as int;
        while ch.len() > 0 && (ch[0].x as i128) < limit
            invariant
                time_sorted(ch@),
                keep_recent(ch@, glimit) == keep_recent(appended, glimit),
                glimit == limit as int,
            decreases ch@.len(),
        {
            proof {
                assert(ch@.remove(0) =~= ch@.drop_first());
                lemma_time_sorted_drop_first(ch@);
            }
            ch.remove(0);
        }
        proof {
            assert(keep_recent(ch@, glimit) == ch@);
            assert(ch@ == channel_after_add(orig, measurement, self.look_behind as int));
        }
        self.values.insert(channel, ch);
        proof {
            assert(self.values@ =~= old(self).values@.update(channel as int, ch));
        }
    }

    /// Read-only snapshot of one channel, in time order.
    pub fn plot_values(&self, channel: usize) -> (r: Vec<Measurement>)
        requires
            channel < self.values@.len(),
        ensures
            r@ == self.values@[channel as int]@,
    {
        let inner: &Vec<Measurement> = &self.values[channel];
        let mut out: Vec<Measurement> = Vec::new();
        let mut i: usize = 0;
        while i < inner.len()
            invariant
                i <= inner@.len(),
                out@ == inner@.subrange(0, i as int),
                inner@ == self.values@[channel as int]@,
            decreases inner@.len() - i,
        {
            out.push(inner[i]);
            i = i + 1;
            proof {
                assert(out@ =~= inner@.subrange(0, i as int));
            }
        }
        proof {
            assert(out@ =~= inner@);
        }
        out
    }
}

/// The sliding-window law: when points arrive in strictly increasing
/// timestamp order, the buffer after an insertion is exactly the
/// subsequence of points whose timestamps lie within the look-behind
/// horizon of the newest point, in their original order.
pub proof fn lemma_window_is_recent_suffix(s: Seq<Measurement>, m: Measurement, look_behind: int)
    requires
        time_sorted(s),
        s.len() > 0 ==> s.last().x < m.x,
    ensures
        channel_after_add(s, m, look_behind) == s.push(m).filter(
            |p: Measurement| p.x >= m.x - look_behind,
        ),
    decreases s.len(),
{
    lemma_time_sorted_push(s, m);
    lemma_keep_recent_is_filter(s.push(m), m.x - look_behind);
}

/// The restart law: a point older than the channel's newest timestamp
/// clears the channel, so immediately after such an insertion the
/// channel holds exactly that one point.
pub proof fn lemma_out_of_order_clears(s: Seq<Measurement>, m: Measurement, look_behind: int)
    requires
        s.len() > 0,
        m.x < s.last().x,
        0 <= look_behind,
    ensures
        channel_after_add(s, m, look_behind) == seq![m],
{
    assert(Seq::<Measurement>::empty().push(m) =~= seq![m]);
    assert(keep_recent(seq![m], m.x - look_behind) == seq![m]);
}

/// On a time-sorted sequence, dropping stale points from the front
/// keeps exactly the points whose timestamps reach `limit`.
pub proof fn lemma_keep_recent_is_filter(s: Seq<Measurement>, limit: int)
    requires
        time_sorted(s),
    ensures
        keep_recent(s, limit) == s.filter(|p: Measurement| p.x >= limit),
    decreases s.len(),
{
    let pred = |p: Measurement| p.x >= limit;
    if s.len() == 0 {
        assert(s.filter(pred) =~= s);
    } else if s[0].x < limit {
        lemma_time_sorted_drop_first(s);
        lemma_keep_recent_is_filter(s.drop_first(), limit);
        assert(s =~= seq![s[0]] + s.drop_first());
        seq_filter_distributes(seq![s[0]], s.drop_first(), pred);
        reveal_with_fuel(Seq::filter, 2);
        assert(seq![s[0]].filter(pred) =~= Seq::<Measurement>::empty());
    } else {
        assert forall|i: int| 0 <= i < s.len() implies pred(#[trigger] s[i]) by {
            assert(s[0].x <= s[i].x);
        }
        seq_filter_all_true(s, pred);
    }
}

proof fn seq_filter_distributes(
    a: Seq<Measurement>,
    b: Seq<Measurement>,
    pred: spec_fn(Measurement) -> bool,
)
    ensures
        (a + b).filter(pred) == a.filter(pred) + b.filter(pred),
    decreases b.len(),
{
    reveal(Seq::filter);
    if b.len() == 0 {
        assert(a + b =~= a);
        assert(b.filter(pred) =~= Seq::<Measurement>::empty());
    } else {
        seq_filter_distributes(a, b.drop_last(), pred);
        assert((a + b).drop_last() =~= a + b.drop_last());
        assert((a + b).last() == b.last());
    }
}

proof fn seq_filter_all_true(s: Seq<Measurement>, pred: spec_fn(Measurement) -> bool)
    requires
        forall|i: int| 0 <= i < s.len() ==> pred(#[trigger] s[i]),
    ensures
        s.filter(pred) == s,
    decreases s.len(),
{
    reveal(Seq::filter);
    if s.len() > 0 {
        assert(pred(s.last()));
        seq_filter_all_true(s.drop_last(), pred);
        assert(s.drop_last().push(s.last()) =~= s);
    }
}

} // verus!
