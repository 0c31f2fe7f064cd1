//! The lesson model and the schedule classifier: which lesson is running,
//! which comes next, and which display status a cell gets.

use vstd::prelude::*;

use crate::dates::Date;
use crate::dates::day_num_of;
use crate::dates::days_between;

verus! {

/// A moment of wall-clock time: a calendar date and a minute of that day.
#[derive(Clone, Copy, PartialEq, Eq, Structural, Debug)]
pub struct Instant {
    pub date: Date,
    pub minute: u16,
}

impl Instant {
    /// A well-formed moment: a valid date and a minute below one day.
    pub open spec fn wf(self) -> bool {
        self.date.valid() && self.minute < 1440
    }
}

/// A scheduled class occurrence, an immutable snapshot of one record.
#[derive(Clone, Debug)]
pub struct Lesson {
    /// Subject name shown in every grid cell.
    pub subject: String,
    /// Free-text topic of this occurrence, when the teacher filled one in.
    pub topic: Option<String>,
    /// The day the lesson takes place.
    pub date: Date,
    /// Ordinal slot of the lesson within its day.
    pub slot: u8,
    /// First minute of the lesson, as a minute of its day.
    pub start_minute: u16,
    /// First minute after the lesson, as a minute of its day.
    pub end_minute: u16,
    /// Raw room field as the records carry it.
    pub room: Option<String>,
    /// The regular teacher.
    pub teacher: Option<String>,
    /// The stand-in teacher, when the lesson is substituted.
    pub substitute_teacher: Option<String>,
    /// The lesson will not be held.
    pub cancelled: bool,
    /// The student was marked absent.
    pub absent: bool,
    /// A synthesized or non-teaching entry, not a real lesson.
    pub placeholder: bool,
    /// Identifier of an announced test held in this lesson, if any.
    pub test_uid: Option<String>,
}

/// The mathematical shadow of a [`Lesson`]: the same fields with every
/// text as a character sequence.
#[verifier::ext_equal]
pub ghost struct LessonView {
    pub subject: Seq<char>,
    pub topic: Option<Seq<char>>,
    pub date: Date,
    pub slot: u8,
    pub start_minute: u16,
    pub end_minute: u16,
    pub room: Option<Seq<char>>,
    pub teacher: Option<Seq<char>>,
    pub substitute_teacher: Option<Seq<char>>,
    pub cancelled: bool,
    pub absent: bool,
    pub placeholder: bool,
    pub test_uid: Option<Seq<char>>,
}

/// The view of an optional text.
pub open spec fn opt_str_view(o: Option<String>) -> Option<Seq<char>> {
    match o {
        Some(s) => Some(s@),
        None => None,
    }
}

impl View for Lesson {
    type V = LessonView;

    open spec fn view(&self) -> LessonView {
        LessonView {
            subject: self.subject@,
            topic: opt_str_view(self.topic),
            date: self.date,
            slot: self.slot,
            start_minute: self.start_minute,
            end_minute: self.end_minute,
            room: opt_str_view(self.room),
            teacher: opt_str_view(self.teacher),
            substitute_teacher: opt_str_view(self.substitute_teacher),
            cancelled: self.cancelled,
            absent: self.absent,
            placeholder: self.placeholder,
            test_uid: opt_str_view(self.test_uid),
        }
    }
}

impl LessonView {
    /// A well-formed lesson: a valid date and in-day minutes.
    pub open spec fn wf(self) -> bool {
        self.date.valid() && self.start_minute < 1440 && self.end_minute < 1440
    }
}

/// The views of a sequence of lessons.
pub open spec fn seq_views(s: Seq<Lesson>) -> Seq<LessonView> {
    s.map_values(|l: Lesson| l@)
}

/// The view of an optional lesson.
pub open spec fn opt_lesson_view(o: Option<Lesson>) -> Option<LessonView> {
    match o {
        Some(l) => Some(l@),
        None => None,
    }
}

/// A test record, keyed by the slot of the lesson it is held in.
#[derive(Clone, Debug)]
pub struct AnnouncedTest {
    /// Slot of the lesson the test is written in.
    pub slot: u8,
    /// Free-text topic of the test, if one was announced.
    pub topic: Option<String>,
    /// Description of the kind of assessment.
    pub kind_desc: String,
}

/// The mathematical shadow of an [`AnnouncedTest`].
#[verifier::ext_equal]
pub ghost struct TestView {
    pub slot: u8,
    pub topic: Option<Seq<char>>,
    pub kind_desc: Seq<char>,
}

impl View for AnnouncedTest {
    type V = TestView;

    open spec fn view(&self) -> TestView {
        TestView {
            slot: self.slot,
            topic: opt_str_view(self.topic),
            kind_desc: self.kind_desc@,
        }
    }
}

/// Strict lexicographic order on calendar dates.
pub open spec fn date_lt(a: Date, b: Date) -> bool {
    a.year < b.year || (a.year == b.year && (a.month < b.month || (a.month == b.month && a.day
        < b.day)))
}

/// The moment `now` falls within the lesson's `[start, end)` interval.
pub open spec fn spec_happening(l: LessonView, now: Instant) -> bool {
    l.date == now.date && l.start_minute <= now.minute < l.end_minute
}

/// The lesson's start still lies in the future.
pub open spec fn spec_forecoming(l: LessonView, now: Instant) -> bool {
    date_lt(now.date, l.date) || (l.date == now.date && now.minute < l.start_minute)
}

/// The lesson is skipped when looking for something to attend: it is a
/// placeholder or it was cancelled.
pub open spec fn spec_ignore(l: LessonView) -> bool {
    l.placeholder || l.cancelled
}

/// Whether `now` falls within the lesson.
pub fn happening(l: &Lesson, now: Instant) -> (r: bool)
    ensures
        r == spec_happening(l@, now),
{
    l.date == now.date && l.start_minute <= now.minute && now.minute < l.end_minute
}

/// Whether the lesson still lies ahead.
pub fn forecoming(l: &Lesson, now: Instant) -> (r: bool)
    ensures
        r == spec_forecoming(l@, now),
{
    let d = l.date;
    let n = now.date;
    if n.year < d.year {
        true
    } else if n.year == d.year && n.month < d.month {
        true
    } else if n.year == d.year && n.month == d.month && n.day < d.day {
        true
    } else {
        d == n && now.minute < l.start_minute
    }
}

/// Whether the lesson is a placeholder or cancelled.
pub fn ignore_lesson(l: &Lesson) -> (r: bool)
    ensures
        r == spec_ignore(l@),
{
    l.placeholder || l.cancelled
}

/// Copy an optional text.
fn clone_opt_string(o: &Option<String>) -> (r: Option<String>)
    ensures
        opt_str_view(r) == opt_str_view(*o),
{
    match o {
        Some(s) => Some(s.clone()),
        None => None,
    }
}

impl Lesson {
    /// An exact copy of this lesson.
    pub fn duplicate(&self) -> (r: Lesson)
        ensures
            r@ == self@,
    {
        let r = Lesson {
            subject: self.subject.clone(),
            topic: clone_opt_string(&self.topic),
            date: self.date,
            slot: self.slot,
            start_minute: self.start_minute,
            end_minute: self.end_minute,
            room: clone_opt_string(&self.room),
            teacher: clone_opt_string(&self.teacher),
            substitute_teacher: clone_opt_string(&self.substitute_teacher),
            cancelled: self.cancelled,
            absent: self.absent,
            placeholder: self.placeholder,
            test_uid: clone_opt_string(&self.test_uid),
        };
        proof {
            assert(r@ =~= self@);
        }
        r
    }
}

/// Whether two optional texts hold the same characters.
fn opt_str_eq(a: &Option<String>, b: &Option<String>) -> (r: bool)
    ensures
        r == (opt_str_view(*a) == opt_str_view(*b)),
{
    match a {
        Some(x) => match b {
            Some(y) => *x == *y,
            None => false,
        },
        None => match b {
            Some(_) => false,
            None => true,
        },
    }
}

/// The happening-now test as a one-place predicate over lesson views.
pub open spec fn happening_pred(now: Instant) -> spec_fn(LessonView) -> bool {
    |l: LessonView| spec_happening(l, now)
}

/// Filtering a pushed element either appends it or leaves the filtered
/// sequence alone.
pub proof fn lemma_filter_push<A>(s: Seq<A>, pred: spec_fn(A) -> bool, x: A)
    ensures
        s.push(x).filter(pred) == if pred(x) {
            s.filter(pred).push(x)
        } else {
            s.filter(pred)
        },
{
    reveal(Seq::filter);
    assert(s.push(x).drop_last() =~= s);
    assert(s.push(x).last() == x);
}

/// All lessons of `lessons` that are running at `now`, in their given
/// order; overlapping records are all kept.
pub fn current_lessons(lessons: &Vec<Lesson>, now: Instant) -> (r: Vec<Lesson>)
    ensures
        seq_views(r@) == seq_views(lessons@).filter(happening_pred(now)),
{
    let ghost pred = happening_pred(now);
    let mut out: Vec<Lesson> = Vec::new();
    let mut i: usize = 0;
    proof {
        assert(seq_views(lessons@.subrange(0, 0)) =~= Seq::<LessonView>::empty());
        reveal(Seq::filter);
        assert(seq_views(out@) =~= Seq::<LessonView>::empty().filter(pred));
    }
    while i < lessons.len()
        invariant
            0 <= i <= lessons@.len(),
            pred == happening_pred(now),
            seq_views(out@) == seq_views(lessons@.subrange(0, i as int)).filter(pred),
        decreases lessons@.len() - i,
    {
        let ghost prefix = lessons@.subrange(0, i as int);
        let ghost prefix1 = lessons@.subrange(0, i + 1);
        let ghost before = out@;
        let l = &lessons[i];
        if happening(l, now) {
            out.push(l.duplicate());
            proof {
                assert(seq_views(out@) =~= seq_views(before).push(lessons@[i as int]@));
            }
        }
        proof {
            assert(seq_views(prefix1) =~= seq_views(prefix).push(lessons@[i as int]@));
            lemma_filter_push::<LessonView>(seq_views(prefix), pred, lessons@[i as int]@);
        }
        i = i + 1;
    }
    proof {
        assert(lessons@.subrange(0, lessons@.len() as int) =~= lessons@);
    }
    out
}

/// A lesson that the next-lesson search may settle on: still ahead, and
/// neither a placeholder nor cancelled.
pub open spec fn next_candidate(l: LessonView, now: Instant) -> bool {
    spec_forecoming(l, now) && !spec_ignore(l)
}

/// Position of the first next-lesson candidate at or after `from`, `-1`
/// if there is none.
pub open spec fn first_cand_from(vs: Seq<LessonView>, now: Instant, from: nat) -> int
    decreases vs.len() - from,
    when from <= vs.len()
{
    if from >= vs.len() {
        -1
    } else if next_candidate(vs[from as int], now) {
        from as int
    } else {
        first_cand_from(vs, now, from + 1)
    }
}

/// What the next-lesson search settles on: nothing while any lesson is
/// happening, else the first candidate, else nothing.
pub open spec fn spec_next(vs: Seq<LessonView>, now: Instant) -> Option<LessonView> {
    if exists|i: int| 0 <= i < vs.len() && spec_happening(vs[i], now) {
        None
    } else {
        let i = first_cand_from(vs, now, 0);
        if i >= 0 {
            Some(vs[i])
        } else {
            None
        }
    }
}

/// The first lesson still ahead that is worth attending, unless something
/// is already running: while any lesson is happening there is no "next".
pub fn next_lesson(lessons: &Vec<Lesson>, now: Instant) -> (r: Option<Lesson>)
    ensures
        opt_lesson_view(r) == spec_next(seq_views(lessons@), now),
{
    let ghost vs = seq_views(lessons@);
    let cur = current_lessons(lessons, now);
    if cur.len() > 0 {
        proof {
            let fs = vs.filter(happening_pred(now));
            assert(fs.len() > 0);
            vs.lemma_filter_pred(happening_pred(now), 0);
            lemma_filter_element_from(vs, happening_pred(now), 0);
            let k = choose|k: int| 0 <= k < vs.len() && vs[k] == fs[0];
            assert(spec_happening(vs[k], now));
        }
        return None;
    }
    proof {
        assert forall|i: int| 0 <= i < vs.len() implies !spec_happening(vs[i], now) by {
            if spec_happening(vs[i], now) {
                vs.lemma_filter_contains(happening_pred(now), i);
            }
        }
    }
    let mut i: usize = 0;
    while i < lessons.len()
        invariant
            0 <= i <= lessons@.len(),
            vs == seq_views(lessons@),
            first_cand_from(vs, now, 0) == first_cand_from(vs, now, i as nat),
            forall|k: int| 0 <= k < vs.len() ==> !spec_happening(vs[k], now),
        decreases lessons@.len() - i,
    {
        let l = &lessons[i];
        if forecoming(l, now) && !ignore_lesson(l) {
            let d = l.duplicate();
            proof {
                assert(vs[i as int] == lessons@[i as int]@);
                assert(first_cand_from(vs, now, i as nat) == i);
            }
            return Some(d);
        }
        proof {
            assert(vs[i as int] == lessons@[i as int]@);
            assert(first_cand_from(vs, now, i as nat) == first_cand_from(vs, now, (i + 1) as nat));
        }
        i = i + 1;
    }
    proof {
        assert(first_cand_from(vs, now, i as nat) == -1);
    }
    None
}

/// An element of a filtered sequence comes from the sequence.
proof fn lemma_filter_element_from<A>(s: Seq<A>, pred: spec_fn(A) -> bool, i: int)
    requires
        0 <= i < s.filter(pred).len(),
    ensures
        exists|k: int| 0 <= k < s.len() && s[k] == s.filter(pred)[i],
    decreases s.len(),
{
    reveal(Seq::filter);
    if s.len() > 0 {
        let dl = s.drop_last();
        if i < dl.filter(pred).len() {
            lemma_filter_element_from(dl, pred, i);
            let k = choose|k: int| 0 <= k < dl.len() && dl[k] == dl.filter(pred)[i];
            assert(s[k] == s.filter(pred)[i]);
        } else {
            assert(s[s.len() - 1] == s.filter(pred)[i]);
        }
    }
}

/// Every lesson of the sequence is well-formed.
pub open spec fn all_wf(vs: Seq<LessonView>) -> bool {
    forall|i: int| 0 <= i < vs.len() ==> (#[trigger] vs[i]).wf()
}

/// The views of a sequence of test records.
pub open spec fn test_views(s: Seq<AnnouncedTest>) -> Seq<TestView> {
    s.map_values(|t: AnnouncedTest| t@)
}

/// A lesson worth opening the timetable on: not ignorable, and either
/// running right now or still ahead.
pub open spec fn attendable(l: LessonView, now: Instant) -> bool {
    !spec_ignore(l) && (spec_happening(l, now) || spec_forecoming(l, now))
}

/// The day of the first lesson of `lessons` that is worth attending, in
/// the given order.  The caller fetches week after week, starting at
/// today, and opens the timetable on the first day this yields; an empty
/// or failed fetch ends the search with today.
pub fn suitable_day(lessons: &Vec<Lesson>, now: Instant) -> (r: Option<Date>)
    ensures
        ({
            let vs = seq_views(lessons@);
            &&& (r matches Some(d) ==> exists|i: int|
                0 <= i < vs.len() && attendable(vs[i], now) && d == vs[i].date && (forall|k: int|
                    0 <= k < i ==> !attendable(vs[k], now)))
            &&& (r is None ==> forall|i: int| 0 <= i < vs.len() ==> !attendable(vs[i], now))
        }),
{
    let ghost vs = seq_views(lessons@);
    let mut i: usize = 0;
    while i < lessons.len()
        invariant
            0 <= i <= lessons@.len(),
            vs == seq_views(lessons@),
            forall|k: int| 0 <= k < i ==> !attendable(vs[k], now),
        decreases lessons@.len() - i,
    {
        let l = &lessons[i];
        if !ignore_lesson(l) && (happening(l, now) || forecoming(l, now)) {
            proof {
                assert(vs[i as int] == lessons@[i as int]@);
                assert(attendable(vs[i as int], now) && (forall|k: int|
                    0 <= k < i ==> !attendable(vs[k], now)));
            }
            return Some(l.date);
        }
        i = i + 1;
    }
    None
}

/// Minutes from `now` to the lesson's start, negative once it has begun.
pub open spec fn spec_mins_till_start(l: LessonView, now: Instant) -> int {
    (day_num_of(l.date.year as int, l.date.month as int, l.date.day as int) - day_num_of(
        now.date.year as int,
        now.date.month as int,
        now.date.day as int,
    )) * 1440 + l.start_minute - now.minute
}

/// Minutes from `now` to the lesson's end, negative once it is over.
pub open spec fn spec_mins_till_end(l: LessonView, now: Instant) -> int {
    (day_num_of(l.date.year as int, l.date.month as int, l.date.day as int) - day_num_of(
        now.date.year as int,
        now.date.month as int,
        now.date.day as int,
    )) * 1440 + l.end_minute - now.minute
}

/// Minutes from `now` until the lesson starts.
pub fn mins_till_start(l: &Lesson, now: Instant) -> (r: i64)
    requires
        l@.wf(),
        now.wf(),
    ensures
        r == spec_mins_till_start(l@, now),
        -6000000000 <= r <= 6000000000,
{
    let d = days_between(&now.date, &l.date);
    d * 1440 + (l.start_minute as i64) - (now.minute as i64)
}

/// Minutes from `now` until the lesson ends.
pub fn mins_till_end(l: &Lesson, now: Instant) -> (r: i64)
    requires
        l@.wf(),
        now.wf(),
    ensures
        r == spec_mins_till_end(l@, now),
        -6000000000 <= r <= 6000000000,
{
    let d = days_between(&now.date, &l.date);
    d * 1440 + (l.end_minute as i64) - (now.minute as i64)
}

/// The closed set of display statuses a grid cell can carry.
#[derive(Clone, Copy, PartialEq, Eq, Structural, Debug)]
pub enum LessonStatus {
    /// The lesson is running at the sampled moment.
    Happening,
    /// The resolved next lesson, starting within a day.
    UpcomingSoon,
    /// The lesson was cancelled.
    Cancelled,
    /// The student was marked absent.
    Absent,
    /// A stand-in teacher holds the lesson.
    Substituted,
    /// An announced test is linked to the lesson.
    TestAnnounced,
    /// Nothing special.
    Normal,
    /// A synthesized free-period row, shown de-emphasized.
    Gap,
}

/// The display status of a lesson, chosen by fixed precedence, first match
/// winning: happening; the resolved next lesson starting within a day;
/// cancelled; absent; substituted; a linked announced test; normal.
pub open spec fn spec_status(l: LessonView, nxt: Option<LessonView>, now: Instant) -> LessonStatus {
    if spec_happening(l, now) {
        LessonStatus::Happening
    } else if nxt == Some(l) && spec_mins_till_start(l, now) < 1440 {
        LessonStatus::UpcomingSoon
    } else if l.cancelled {
        LessonStatus::Cancelled
    } else if l.absent {
        LessonStatus::Absent
    } else if l.substitute_teacher is Some {
        LessonStatus::Substituted
    } else if l.test_uid is Some {
        LessonStatus::TestAnnounced
    } else {
        LessonStatus::Normal
    }
}

/// Classify one lesson against the resolved next lesson and the moment
/// `now`.
pub fn lesson_status(l: &Lesson, nxt: &Option<Lesson>, now: Instant) -> (r: LessonStatus)
    requires
        l@.wf(),
        now.wf(),
    ensures
        r == spec_status(l@, opt_lesson_view(*nxt), now),
{
    if happening(l, now) {
        return LessonStatus::Happening;
    }
    let is_next = match nxt {
        Some(n) => lessons_equal(l, n),
        None => false,
    };
    if is_next && mins_till_start(l, now) < 1440 {
        return LessonStatus::UpcomingSoon;
    }
    if l.cancelled {
        return LessonStatus::Cancelled;
    }
    if l.absent {
        return LessonStatus::Absent;
    }
    if l.substitute_teacher.is_some() {
        return LessonStatus::Substituted;
    }
    if l.test_uid.is_some() {
        return LessonStatus::TestAnnounced;
    }
    LessonStatus::Normal
}

/// Cancelled outranks absent: a lesson that was cancelled is never shown
/// with the absent styling, whatever else holds of it.
pub proof fn lemma_cancelled_outranks_absent(l: LessonView, nxt: Option<LessonView>, now: Instant)
    requires
        l.cancelled,
    ensures
        spec_status(l, nxt, now) != LessonStatus::Absent,
{
}

/// While any lesson is running there is no next lesson: the list
/// `current_lessons` returns is non-empty exactly when some lesson is
/// happening, and in that case `next_lesson` promises nothing but `None`.
pub proof fn lemma_running_blocks_next(vs: Seq<LessonView>, now: Instant)
    ensures
        vs.filter(happening_pred(now)).len() > 0 <==> exists|i: int|
            0 <= i < vs.len() && spec_happening(vs[i], now),
{
    if vs.filter(happening_pred(now)).len() > 0 {
        let fs = vs.filter(happening_pred(now));
        vs.lemma_filter_pred(happening_pred(now), 0);
        lemma_filter_element_from(vs, happening_pred(now), 0);
        let k = choose|k: int| 0 <= k < vs.len() && vs[k] == fs[0];
        assert(spec_happening(vs[k], now));
    }
    if exists|i: int| 0 <= i < vs.len() && spec_happening(vs[i], now) {
        let i = choose|i: int| 0 <= i < vs.len() && spec_happening(vs[i], now);
        vs.lemma_filter_contains(happening_pred(now), i);
    }
}

/// Whether two lessons agree in every field.
pub fn lessons_equal(a: &Lesson, b: &Lesson) -> (r: bool)
    ensures
        r == (a@ == b@),
{
    let r = a.subject == b.subject && opt_str_eq(&a.topic, &b.topic) && a.date == b.date && a.slot
        == b.slot && a.start_minute == b.start_minute && a.end_minute == b.end_minute && opt_str_eq(
        &a.room,
        &b.room,
    ) && opt_str_eq(&a.teacher, &b.teacher) && opt_str_eq(
        &a.substitute_teacher,
        &b.substitute_teacher,
    ) && a.cancelled == b.cancelled && a.absent == b.absent && a.placeholder == b.placeholder
        && opt_str_eq(&a.test_uid, &b.test_uid);
    proof {
        if r {
            assert(a@ =~= b@);
        }
    }
    r
}

} // verus!
