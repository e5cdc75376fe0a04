//! The keyframes of one track: for each section boundary of an object, whether a
//! new easing starts there, the previous one carries on through a midpoint, or the
//! boundary is ignored.
//!
//! The values an easing is tuned with (`P`) and its time-control curve (`C`) are
//! carried as they are; the track logic never looks inside them.
use vstd::prelude::*;

verus! {

/// How a time-control curve segment is shaped.
#[derive(Debug, Clone, Copy, PartialEq, Eq, Structural)]
pub enum TimeControlMode {
    Bezier,
    Elastic,
    Bounce,
}

/// Modifier keys held while dragging a point in the time-control editor.
#[derive(Debug, Clone, Copy, PartialEq, Eq, Structural)]
pub struct TimeControlDragModifiers {
    pub shift: bool,
    pub alt: bool,
}

/// The easing chosen at a section boundary.
#[derive(Debug, Clone)]
pub struct EasingKeyframeInfo<P, C> {
    pub easing: String,
    pub acceleration: bool,
    pub deceleration: bool,
    pub params: Vec<P>,
    pub timecontrol: C,
}

/// What happens at one section boundary of a track.
#[derive(Debug, Clone)]
pub enum Keyframe<P, C> {
    /// A new easing starts here.
    Easing(EasingKeyframeInfo<P, C>),
    /// The boundary is skipped: the easing runs on as if it were not there.
    Ignored,
    /// The running easing carries on through this point.
    Midpoint,
}

/// The keyframes of one track, one per section boundary of its object.
#[derive(Debug, Clone)]
pub struct Keyframes<P, C> {
    pub keyframes: Vec<Keyframe<P, C>>,
}

/// The name of the easing a new track starts with (linear movement).
pub open spec fn default_easing_name() -> Seq<char> {
    seq!['直', '線', '移', '動']
}

impl<P, C> EasingKeyframeInfo<P, C> {
    /// The easing a new track starts with: linear movement, no acceleration or
    /// deceleration, no parameters, and the given time-control curve.
    pub fn new_default(timecontrol: C) -> (r: Self)
        ensures
            r.easing@ == default_easing_name(),
            !r.acceleration,
            !r.deceleration,
            r.params@.len() == 0,
            r.timecontrol == timecontrol,
    {
        let mut easing = String::new();
        crate::text::push_char(&mut easing, '直');
        crate::text::push_char(&mut easing, '線');
        crate::text::push_char(&mut easing, '移');
        crate::text::push_char(&mut easing, '動');
        assert(easing@ =~= default_easing_name());
        EasingKeyframeInfo {
            easing,
            acceleration: false,
            deceleration: false,
            params: Vec::new(),
            timecontrol,
        }
    }
}

/// The mark shown over a section that carries on through a midpoint.
pub open spec fn midpoint_mark() -> Seq<char> {
    seq!['〃']
}

impl<P, C> Keyframe<P, C> {
    /// The text shown over the section that this boundary starts: the name of the
    /// easing that starts there, the midpoint mark, or nothing for an ignored
    /// boundary.
    pub fn section_label(&self) -> (r: Option<&str>)
        ensures
            match *self {
                Keyframe::Easing(info) => r matches Some(s) && s@ == info.easing@,
                Keyframe::Midpoint => r matches Some(s) && s@ == midpoint_mark(),
                Keyframe::Ignored => r is None,
            },
    {
        match self {
            Keyframe::Easing(info) => Some(info.easing.as_str()),
            Keyframe::Midpoint => {
                let mark = "〃";
                proof {
                    reveal_strlit("〃");
                }
                Some(mark)
            },
            Keyframe::Ignored => None,
        }
    }
}

impl<P, C> Keyframes<P, C> {
    /// A usable track: it has a boundary and the first one starts an easing.
    pub open spec fn wf(self) -> bool {
        self.keyframes@.len() >= 1 && self.keyframes@[0] is Easing
    }

    /// A track for `num_keyframes` boundaries: the default easing at the first,
    /// midpoints at all others.
    pub fn new(num_keyframes: usize, timecontrol: C) -> (r: Self)
        requires
            num_keyframes >= 1,
        ensures
            r.wf(),
            r.keyframes@.len() == num_keyframes,
            r.keyframes@[0] matches Keyframe::Easing(info) && info.easing@ == default_easing_name()
                && !info.acceleration && !info.deceleration && info.params@.len() == 0
                && info.timecontrol == timecontrol,
            forall|i: int| 1 <= i < num_keyframes ==> #[trigger] r.keyframes@[i] is Midpoint,
    {
        let mut keyframes: Vec<Keyframe<P, C>> = Vec::new();
        keyframes.push(Keyframe::Easing(EasingKeyframeInfo::new_default(timecontrol)));
        while keyframes.len() < num_keyframes
            invariant
                1 <= keyframes@.len() <= num_keyframes,
                keyframes@[0] matches Keyframe::Easing(info) && info.easing@
                    == default_easing_name() && !info.acceleration && !info.deceleration
                    && info.params@.len() == 0 && info.timecontrol == timecontrol,
                forall|i: int| 1 <= i < keyframes@.len() ==> #[trigger] keyframes@[i] is Midpoint,
            decreases num_keyframes - keyframes@.len(),
        {
            keyframes.push(Keyframe::Midpoint);
        }
        Keyframes { keyframes }
    }

    /// Fits the track to `num_keyframes` boundaries: new boundaries at the end are
    /// midpoints, surplus ones at the end are dropped.
    pub fn resize(&mut self, num_keyframes: usize)
        requires
            num_keyframes > 1,
        ensures
            final(self).keyframes@.len() == num_keyframes,
            old(self).keyframes@.len() < num_keyframes ==> {
                &&& final(self).keyframes@.take(old(self).keyframes@.len() as int)
                    == old(self).keyframes@
                &&& forall|i: int|
                    old(self).keyframes@.len() <= i < num_keyframes
                        ==> #[trigger] final(self).keyframes@[i] is Midpoint
            },
            old(self).keyframes@.len() >= num_keyframes ==> final(self).keyframes@
                == old(self).keyframes@.take(num_keyframes as int),
            old(self).wf() ==> final(self).wf(),
    {
        if self.keyframes.len() < num_keyframes {
            let ghost before = self.keyframes@;
            while self.keyframes.len() < num_keyframes
                invariant
                    before.len() <= self.keyframes@.len() <= num_keyframes,
                    self.keyframes@.take(before.len() as int) == before,
                    forall|i: int|
                        before.len() <= i < self.keyframes@.len()
                            ==> #[trigger] self.keyframes@[i] is Midpoint,
                decreases num_keyframes - self.keyframes@.len(),
            {
                self.keyframes.push(Keyframe::Midpoint);
                assert(self.keyframes@.take(before.len() as int) =~= before);
            }
        } else {
            self.keyframes.truncate(num_keyframes);
        }
    }
}

/// The boundary whose easing governs the section that starts at `index`: the last
/// easing boundary at or before it (boundaries past the end do not count).
pub open spec fn governing_easing<P, C>(ks: Seq<Keyframe<P, C>>, index: int) -> int
    decreases index,
{
    if index <= 0 {
        0
    } else if index < ks.len() && ks[index] is Easing {
        index
    } else {
        governing_easing(ks, index - 1)
    }
}

/// The boundaries after `i` that the easing reaching `i` spans: midpoints, up to and
/// including the next easing boundary or the last boundary; ignored boundaries are
/// left out.
pub open spec fn section_tail<P, C>(ks: Seq<Keyframe<P, C>>, i: int) -> Seq<usize>
    decreases ks.len() - i,
{
    if i < 0 || i >= ks.len() {
        Seq::empty()
    } else if i == ks.len() - 1 {
        seq![i as usize]
    } else {
        match ks[i] {
            Keyframe::Easing(_) => seq![i as usize],
            Keyframe::Midpoint => seq![i as usize] + section_tail(ks, i + 1),
            Keyframe::Ignored => section_tail(ks, i + 1),
        }
    }
}

/// Facts about the governing easing boundary.
pub proof fn lemma_governing_easing<P, C>(ks: Seq<Keyframe<P, C>>, index: int)
    requires
        ks.len() >= 1,
        ks[0] is Easing,
        index >= 0,
    ensures
        0 <= governing_easing(ks, index) <= index,
        governing_easing(ks, index) < ks.len(),
        ks[governing_easing(ks, index)] is Easing,
        forall|j: int|
            governing_easing(ks, index) < j <= index && j < ks.len() ==> !(#[trigger] ks[j] is Easing),
    decreases index,
{
    if index > 0 && !(index < ks.len() && ks[index] is Easing) {
        lemma_governing_easing(ks, index - 1);
    }
}

impl<P, C> Keyframes<P, C> {
    /// The boundary whose easing governs the section starting at `index`.
    pub fn easing_index_at(&self, index: usize) -> (r: usize)
        requires
            self.wf(),
        ensures
            r == governing_easing(self.keyframes@, index as int),
            r <= index,
            r < self.keyframes@.len(),
            self.keyframes@[r as int] is Easing,
    {
        proof { lemma_governing_easing(self.keyframes@, index as int); }
        let mut i = if index < self.keyframes.len() { index } else { self.keyframes.len() - 1 };
        proof {
            if index >= self.keyframes@.len() {
                lemma_governing_skip(self.keyframes@, index as int, i as int);
            }
        }
        while i > 0
            invariant
                self.wf(),
                i < self.keyframes@.len(),
                i <= index,
                governing_easing(self.keyframes@, index as int) == governing_easing(
                    self.keyframes@,
                    i as int,
                ),
            decreases i,
        {
            if let Keyframe::Easing(_) = &self.keyframes[i] {
                return i;
            }
            i = i - 1;
        }
        0
    }

    /// The boundaries of the section that starts at `index`: first the boundary of
    /// its easing, then the midpoints it runs through, ending with the next easing
    /// boundary or the last boundary.
    pub fn section_indices(&self, index: usize) -> (r: Vec<usize>)
        requires
            self.wf(),
        ensures
            r@ == seq![governing_easing(self.keyframes@, index as int) as usize] + section_tail(
                self.keyframes@,
                governing_easing(self.keyframes@, index as int) + 1,
            ),
    {
        let start = self.easing_index_at(index);
        let mut indices: Vec<usize> = Vec::new();
        indices.push(start);
        let ghost ks = self.keyframes@;
        let len = self.keyframes.len();
        let mut i = start + 1;
        while i < len
            invariant_except_break
                indices@ + section_tail(ks, i as int) == seq![start] + section_tail(
                    ks,
                    start + 1,
                ),
            invariant
                ks == self.keyframes@,
                len == ks.len(),
                start < i <= len,
            ensures
                indices@ == seq![start] + section_tail(ks, start + 1),
            decreases len - i,
        {
            if i == len - 1 {
                indices.push(i);
                assert(section_tail(ks, i as int) == seq![i]);
                assert(section_tail(ks, i + 1) =~= Seq::<usize>::empty());
                assert(indices@ + section_tail(ks, i + 1) =~= seq![start] + section_tail(ks, start + 1));
                break;
            }
            match &self.keyframes[i] {
                Keyframe::Easing(_) => {
                    indices.push(i);
                    assert(indices@ + Seq::<usize>::empty() =~= seq![start] + section_tail(ks, start + 1));
                    break;
                },
                Keyframe::Midpoint => {
                    indices.push(i);
                    assert(indices@ + section_tail(ks, i + 1) =~= seq![start] + section_tail(ks, start + 1));
                },
                Keyframe::Ignored => {},
            }
            i = i + 1;
        }
        indices
    }
}

/// Past the end, the governing easing is that of the last boundary.
proof fn lemma_governing_skip<P, C>(ks: Seq<Keyframe<P, C>>, index: int, last: int)
    requires
        ks.len() >= 1,
        last == ks.len() - 1,
        index >= last,
    ensures
        governing_easing(ks, index) == governing_easing(ks, last),
    decreases index - last,
{
    if index > last {
        lemma_governing_skip(ks, index - 1, last);
    }
}

/// End of the run of midpoints that starts at `i`.
pub open spec fn midpoint_run_end<P, C>(ks: Seq<Keyframe<P, C>>, i: int) -> int
    decreases ks.len() - i,
{
    if 0 <= i < ks.len() && ks[i] is Midpoint {
        midpoint_run_end(ks, i + 1)
    } else {
        i
    }
}

/// Facts about a run of midpoints.
pub proof fn lemma_midpoint_run<P, C>(ks: Seq<Keyframe<P, C>>, i: int)
    requires
        0 <= i <= ks.len(),
    ensures
        i <= midpoint_run_end(ks, i) <= ks.len(),
        forall|j: int| i <= j < midpoint_run_end(ks, i) ==> #[trigger] ks[j] is Midpoint,
        midpoint_run_end(ks, i) < ks.len() ==> !(ks[midpoint_run_end(ks, i)] is Midpoint),
    decreases ks.len() - i,
{
    if i < ks.len() && ks[i] is Midpoint {
        lemma_midpoint_run(ks, i + 1);
    }
}

/// The parameter list after [`Keyframes::set_param`]: missing entries up to
/// `index` are filled from `defaults` (then `fallback`), and `index` gets `value`.
pub open spec fn params_with<P>(
    params: Seq<P>,
    defaults: Seq<P>,
    fallback: P,
    index: int,
    value: P,
) -> Seq<P> {
    let len = if params.len() > index { params.len() as int } else { index + 1 };
    Seq::new(
        len as nat,
        |j: int|
            if j == index {
                value
            } else if j < params.len() {
                params[j]
            } else if j < defaults.len() {
                defaults[j]
            } else {
                fallback
            },
    )
}

impl<P, C> Keyframes<P, C> {
    /// Marks the midpoints that directly follow `index` as ignored, up to the first
    /// boundary that is not a midpoint.
    pub fn ignore_following_midpoints(&mut self, index: usize)
        ensures
            final(self).keyframes@.len() == old(self).keyframes@.len(),
            forall|j: int|
                0 <= j < old(self).keyframes@.len() ==> #[trigger] final(self).keyframes@[j] == if index
                    < j < midpoint_run_end(old(self).keyframes@, index + 1) {
                    Keyframe::Ignored
                } else {
                    old(self).keyframes@[j]
                },
    {
        let ghost ks = self.keyframes@;
        if index >= self.keyframes.len() {
            proof {
                assert(midpoint_run_end(ks, index + 1) == index + 1);
            }
            return;
        }
        proof { lemma_midpoint_run(ks, index + 1); }
        let mut i = index + 1;
        while i < self.keyframes.len()
            invariant
                index < i <= ks.len(),
                midpoint_run_end(ks, i as int) == midpoint_run_end(ks, index + 1),
                self.keyframes@.len() == ks.len(),
                forall|j: int|
                    0 <= j < ks.len() ==> #[trigger] self.keyframes@[j] == if index < j < i {
                        Keyframe::Ignored
                    } else {
                        ks[j]
                    },
            ensures
                i == midpoint_run_end(ks, index + 1),
                self.keyframes@.len() == ks.len(),
                forall|j: int|
                    0 <= j < ks.len() ==> #[trigger] self.keyframes@[j] == if index < j < i {
                        Keyframe::Ignored
                    } else {
                        ks[j]
                    },
            decreases ks.len() - i,
        {
            if let Keyframe::Midpoint = &self.keyframes[i] {
            } else {
                break;
            }
            self.keyframes.set(i, Keyframe::Ignored);
            i = i + 1;
        }
    }

    /// Starts the easing `info` at `index`; when the easing ignores midpoints, the
    /// midpoints that follow become ignored.
    pub fn with_easing(self, index: usize, info: EasingKeyframeInfo<P, C>, ignore_midpoints: bool) -> (r: Self)
        requires
            index < self.keyframes@.len(),
        ensures
            r.keyframes@.len() == self.keyframes@.len(),
            r.keyframes@[index as int] == Keyframe::Easing(info),
            forall|j: int|
                0 <= j < self.keyframes@.len() && j != index ==> #[trigger] r.keyframes@[j] == if ignore_midpoints
                    && index < j < midpoint_run_end(self.keyframes@, index + 1) {
                    Keyframe::Ignored
                } else {
                    self.keyframes@[j]
                },
            self.wf() ==> r.wf(),
    {
        let mut r = self;
        r.keyframes.set(index, Keyframe::Easing(info));
        let ghost set = r.keyframes@;
        assert(midpoint_run_end(set, index + 1) == midpoint_run_end(self.keyframes@, index + 1)) by {
            lemma_midpoint_run_same(set, self.keyframes@, index + 1);
        }
        if ignore_midpoints {
            r.ignore_following_midpoints(index);
        }
        r
    }

    /// Turns the boundary `index` into a midpoint.
    pub fn set_midpoint(&mut self, index: usize)
        requires
            index < old(self).keyframes@.len(),
        ensures
            final(self).keyframes@ == old(self).keyframes@.update(index as int, Keyframe::Midpoint),
            old(self).wf() && index > 0 ==> final(self).wf(),
    {
        self.keyframes.set(index, Keyframe::Midpoint);
    }

    /// Makes the boundary `index` ignored.
    pub fn set_ignored(&mut self, index: usize)
        requires
            index < old(self).keyframes@.len(),
        ensures
            final(self).keyframes@ == old(self).keyframes@.update(index as int, Keyframe::Ignored),
            old(self).wf() && index > 0 ==> final(self).wf(),
    {
        self.keyframes.set(index, Keyframe::Ignored);
    }

    /// Sets the acceleration or the deceleration flag of the easing at
    /// `keyframe_index`.
    pub fn set_speed(&mut self, keyframe_index: usize, acceleration: bool, deceleration: bool)
        requires
            keyframe_index < old(self).keyframes@.len(),
            old(self).keyframes@[keyframe_index as int] is Easing,
        ensures
            final(self).keyframes@.len() == old(self).keyframes@.len(),
            forall|j: int|
                0 <= j < old(self).keyframes@.len() && j != keyframe_index ==> #[trigger] final(self).keyframes@[j] == old(self).keyframes@[j],
            final(self).keyframes@[keyframe_index as int] matches Keyframe::Easing(info) && {
                let before = old(self).keyframes@[keyframe_index as int]->Easing_0;
                &&& info.easing == before.easing
                &&& info.params == before.params
                &&& info.timecontrol == before.timecontrol
                &&& info.acceleration == acceleration
                &&& info.deceleration == deceleration
            },
            old(self).wf() ==> final(self).wf(),
    {
        let old_kf = self.keyframes.remove(keyframe_index);
        if let Keyframe::Easing(info) = old_kf {
            let info = EasingKeyframeInfo { acceleration, deceleration, ..info };
            self.keyframes.insert(keyframe_index, Keyframe::Easing(info));
        } else {
            self.keyframes.insert(keyframe_index, old_kf);
        }
    }

    /// Sets parameter `param_index` of the easing at `keyframe_index` to `value`,
    /// first filling in missing parameters before it from `defaults` (and past
    /// those, `fallback`).
    pub fn set_param(
        &mut self,
        keyframe_index: usize,
        param_index: usize,
        value: P,
        defaults: &Vec<P>,
        fallback: P,
    ) where P: Copy
        requires
            keyframe_index < old(self).keyframes@.len(),
            old(self).keyframes@[keyframe_index as int] is Easing,
            param_index < usize::MAX,
        ensures
            final(self).keyframes@.len() == old(self).keyframes@.len(),
            forall|j: int|
                0 <= j < old(self).keyframes@.len() && j != keyframe_index ==> #[trigger] final(self).keyframes@[j] == old(self).keyframes@[j],
            final(self).keyframes@[keyframe_index as int] matches Keyframe::Easing(info) && {
                let before = old(self).keyframes@[keyframe_index as int]->Easing_0;
                &&& info.easing == before.easing
                &&& info.acceleration == before.acceleration
                &&& info.deceleration == before.deceleration
                &&& info.timecontrol == before.timecontrol
                &&& info.params@ == params_with(
                    before.params@,
                    defaults@,
                    fallback,
                    param_index as int,
                    value,
                )
            },
            old(self).wf() ==> final(self).wf(),
    {
        let old_kf = self.keyframes.remove(keyframe_index);
        if let Keyframe::Easing(info) = old_kf {
            let mut params = info.params;
            let ghost before = params@;
            while params.len() <= param_index
                invariant
                    before.len() <= params@.len(),
                    params@.len() > before.len() ==> params@.len() <= param_index + 1,
                    forall|j: int| 0 <= j < params@.len() ==> #[trigger] params@[j] == if j < before.len() {
                        before[j]
                    } else if j < defaults@.len() {
                        defaults@[j]
                    } else {
                        fallback
                    },
                decreases param_index + 1 - params@.len(),
            {
                let default_value = if params.len() < defaults.len() {
                    defaults[params.len()]
                } else {
                    fallback
                };
                params.push(default_value);
            }
            params.set(param_index, value);
            assert(params@ =~= params_with(before, defaults@, fallback, param_index as int, value));
            let info = EasingKeyframeInfo { params, ..info };
            self.keyframes.insert(keyframe_index, Keyframe::Easing(info));
        } else {
            self.keyframes.insert(keyframe_index, old_kf);
        }
    }
}

/// Runs of midpoints only depend on the boundaries they cover and the one that
/// stops them.
proof fn lemma_midpoint_run_same<P, C>(a: Seq<Keyframe<P, C>>, b: Seq<Keyframe<P, C>>, i: int)
    requires
        0 <= i,
        a.len() == b.len(),
        forall|j: int| i <= j < a.len() ==> a[j] == b[j],
    ensures
        midpoint_run_end(a, i) == midpoint_run_end(b, i),
    decreases a.len() - i,
{
    if i < a.len() && a[i] is Midpoint {
        lemma_midpoint_run_same(a, b, i + 1);
    }
}

/// The boundaries after `i` that a section spans come in increasing order, lie
/// in the track, and all but the last are midpoints; the last is an easing
/// boundary or the last boundary of the track.
pub proof fn lemma_section_tail_shape<P, C>(ks: Seq<Keyframe<P, C>>, i: int)
    requires
        0 <= i,
        ks.len() <= usize::MAX,
    ensures
        forall|a: int, b: int|
            0 <= a < b < section_tail(ks, i).len() ==> #[trigger] section_tail(ks, i)[a] < #[trigger] section_tail(ks, i)[b],
        forall|a: int|
            0 <= a < section_tail(ks, i).len() ==> i <= #[trigger] section_tail(ks, i)[a] < ks.len(),
        forall|a: int|
            0 <= a < section_tail(ks, i).len() - 1 ==> ks[#[trigger] section_tail(ks, i)[a] as int] is Midpoint,
        section_tail(ks, i).len() > 0 ==> {
            let last = section_tail(ks, i).last() as int;
            ks[last] is Easing || last == ks.len() - 1
        },
        i < ks.len() ==> section_tail(ks, i).len() > 0,
    decreases ks.len() - i,
{
    if i < ks.len() && i != ks.len() - 1 {
        lemma_section_tail_shape(ks, i + 1);
        let rest = section_tail(ks, i + 1);
        match ks[i] {
            Keyframe::Midpoint => {
                let t = section_tail(ks, i);
                assert(t == seq![i as usize] + rest);
                assert forall|a: int, b: int| 0 <= a < b < t.len() implies t[a] < t[b] by {
                    if a > 0 {
                        assert(t[a] == rest[a - 1]);
                    }
                    assert(t[b] == rest[b - 1]);
                }
                assert forall|a: int| 0 <= a < t.len() - 1 implies ks[t[a] as int] is Midpoint by {
                    if a > 0 {
                        assert(t[a] == rest[a - 1]);
                    }
                }
                if rest.len() > 0 {
                    assert(t.last() == rest.last());
                }
            },
            Keyframe::Ignored => {
                assert(section_tail(ks, i) == rest);
            },
            _ => {},
        }
    }
}

/// Nothing is missed: from `i` on, every boundary up to the first easing boundary
/// (or the last boundary) that is a midpoint, that easing boundary and that last
/// boundary all appear among the boundaries the section spans.
pub proof fn lemma_section_tail_complete<P, C>(ks: Seq<Keyframe<P, C>>, i: int, j: int)
    requires
        0 <= i <= j < ks.len(),
        ks.len() <= usize::MAX,
        forall|m: int| i <= m < j ==> !(#[trigger] ks[m] is Easing),
        ks[j] is Midpoint || ks[j] is Easing || j == ks.len() - 1,
    ensures
        section_tail(ks, i).contains(j as usize),
    decreases ks.len() - i,
{
    let t = section_tail(ks, i);
    if i == ks.len() - 1 {
        assert(t[0] == j as usize);
    } else if i == j {
        assert(!(ks[i] is Ignored));
        assert(t[0] == i as usize);
    } else {
        assert(!(ks[i] is Easing));
        lemma_section_tail_complete(ks, i + 1, j);
        let rest = section_tail(ks, i + 1);
        let k = choose|k: int| 0 <= k < rest.len() && rest[k] == j as usize;
        match ks[i] {
            Keyframe::Midpoint => {
                assert(t == seq![i as usize] + rest);
                assert(t[k + 1] == j as usize);
            },
            _ => {
                assert(t == rest);
            },
        }
    }
}

/// The section starting at `index` holds every midpoint between its easing
/// boundary and the next easing boundary, and ends at that next easing boundary or,
/// when there is none, at the last boundary.
pub proof fn lemma_section_complete<P, C>(ks: Seq<Keyframe<P, C>>, index: int, j: int)
    requires
        ks.len() >= 1,
        ks[0] is Easing,
        0 <= index,
        ks.len() <= usize::MAX,
        governing_easing(ks, index) < j < ks.len(),
        forall|m: int| governing_easing(ks, index) < m < j ==> !(#[trigger] ks[m] is Easing),
        ks[j] is Midpoint || ks[j] is Easing || j == ks.len() - 1,
    ensures
        (seq![governing_easing(ks, index) as usize] + section_tail(
            ks,
            governing_easing(ks, index) + 1,
        )).contains(j as usize),
{
    lemma_governing_easing(ks, index);
    let e = governing_easing(ks, index);
    let tail = section_tail(ks, e + 1);
    lemma_section_tail_complete(ks, e + 1, j);
    let k = choose|k: int| 0 <= k < tail.len() && tail[k] == j as usize;
    assert((seq![e as usize] + tail)[k + 1] == j as usize);
}

/// The boundaries of the section starting at `index`: its easing boundary, then
/// increasing boundaries of which all but the last are midpoints, the last being
/// the next easing boundary or the end of the track.
pub proof fn lemma_section_shape<P, C>(ks: Seq<Keyframe<P, C>>, index: int)
    requires
        ks.len() >= 1,
        ks[0] is Easing,
        0 <= index,
        ks.len() <= usize::MAX,
    ensures
        ({
            let e = governing_easing(ks, index);
            let r = seq![e as usize] + section_tail(ks, e + 1);
            &&& ks[r[0] as int] is Easing
            &&& forall|a: int, b: int| 0 <= a < b < r.len() ==> #[trigger] r[a] < #[trigger] r[b]
            &&& forall|a: int| 0 <= a < r.len() ==> #[trigger] r[a] < ks.len()
            &&& forall|a: int| 0 < a < r.len() - 1 ==> ks[#[trigger] r[a] as int] is Midpoint
            &&& r.len() > 1 ==> (ks[r.last() as int] is Easing || r.last() == ks.len() - 1)
        }),
{
    lemma_governing_easing(ks, index);
    let e = governing_easing(ks, index);
    let tail = section_tail(ks, e + 1);
    lemma_section_tail_shape(ks, e + 1);
    let r = seq![e as usize] + tail;
    assert forall|a: int, b: int| 0 <= a < b < r.len() implies r[a] < r[b] by {
        if a > 0 {
            assert(r[a] == tail[a - 1]);
        }
        assert(r[b] == tail[b - 1]);
    }
    assert forall|a: int| 0 <= a < r.len() implies r[a] < ks.len() by {
        if a > 0 {
            assert(r[a] == tail[a - 1]);
        }
    }
    assert forall|a: int| 0 < a < r.len() - 1 implies ks[r[a] as int] is Midpoint by {
        assert(r[a] == tail[a - 1]);
    }
    if r.len() > 1 {
        assert(r.last() == tail.last());
    }
}

} // verus!
