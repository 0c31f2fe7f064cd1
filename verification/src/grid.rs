//! The grid compositor: display cells, the per-lesson row builder, and
//! the day and week grid shapes.

use vstd::prelude::*;
use vstd::string::StrSliceExecFns;
use vstd::string::StringExecFns;

use crate::dates::Date;
use crate::dates::day_num;
use crate::dates::days_between;
use crate::text::clock_of;
use crate::text::clock_str;
use crate::text::dec_i64;
use crate::text::dec_int_of;
use crate::text::dec_of;
use crate::text::dec_u64;
use crate::text::find_sub;
use crate::text::match_at;
use crate::text::trim_of;
use crate::text::trim_spaces;
use crate::timetable::AnnouncedTest;
use crate::timetable::Instant;
use crate::timetable::Lesson;
use crate::timetable::LessonStatus;
use crate::timetable::LessonView;
use crate::timetable::TestView;
use crate::timetable::all_wf;
use crate::timetable::date_lt;
use crate::timetable::forecoming;
use crate::timetable::happening;
use crate::timetable::lessons_equal;
use crate::timetable::mins_till_end;
use crate::timetable::mins_till_start;
use crate::timetable::next_lesson;
use crate::timetable::opt_lesson_view;
use crate::timetable::seq_views;
use crate::timetable::spec_next;
use crate::timetable::test_views;
use crate::timetable::spec_forecoming;
use crate::timetable::spec_happening;
use crate::timetable::spec_mins_till_end;
use crate::timetable::spec_mins_till_start;

verus! {

/// One grid cell: its text and the display status the renderer styles it
/// by.
#[derive(Clone, Debug)]
pub struct Cell {
    pub text: String,
    pub status: LessonStatus,
}

/// The mathematical shadow of a [`Cell`].
#[verifier::ext_equal]
pub ghost struct CellView {
    pub text: Seq<char>,
    pub status: LessonStatus,
}

impl View for Cell {
    type V = CellView;

    open spec fn view(&self) -> CellView {
        CellView { text: self.text@, status: self.status }
    }
}

/// The views of a row of cells.
pub open spec fn row_views(s: Seq<Cell>) -> Seq<CellView> {
    s.map_values(|c: Cell| c@)
}

/// A populated display grid: one header row of labels, then data rows.
#[derive(Clone, Debug)]
pub struct Grid {
    pub header: Vec<String>,
    pub rows: Vec<Vec<Cell>>,
}

/// The word the room normaliser strips from a raw room field.
pub open spec fn room_word() -> Seq<char> {
    "terem"@
}

/// Position of the first occurrence of the room word at or after `from`,
/// `-1` if there is none.
pub open spec fn find_word_from(s: Seq<char>, from: int) -> int
    decreases s.len() - from,
    when 0 <= from
{
    if from + 5 > s.len() {
        -1
    } else if s.subrange(from, from + 5) == room_word() {
        from
    } else {
        find_word_from(s, from + 1)
    }
}

/// A raw room field, normalised: the first occurrence of the room word
/// removed, and surrounding whitespace trimmed.
pub open spec fn room_norm_of(s: Seq<char>) -> Seq<char> {
    let i = find_word_from(s, 0);
    if i < 0 {
        trim_of(s)
    } else {
        trim_of(s.subrange(0, i) + s.subrange(i + 5, s.len() as int))
    }
}

proof fn lemma_room_word_len()
    ensures
        room_word().len() == 5,
{
    reveal_strlit("terem");
}

proof fn lemma_find_word_at(s: Seq<char>, from: int, k: int)
    requires
        0 <= from <= k,
        match_at(s, room_word(), k),
        forall|j: int| from <= j < k ==> !match_at(s, room_word(), j),
    ensures
        find_word_from(s, from) == k,
    decreases k - from,
{
    lemma_room_word_len();
    if from < k {
        assert(!match_at(s, room_word(), from));
        assert(from + 5 <= s.len());
        assert(s.subrange(from, from + 5) != room_word());
        lemma_find_word_at(s, from + 1, k);
        assert(find_word_from(s, from) == find_word_from(s, from + 1));
    } else {
        assert(s.subrange(k, k + 5) == room_word());
    }
}

proof fn lemma_find_word_none(s: Seq<char>, from: int)
    requires
        0 <= from,
        forall|j: int| from <= j ==> !match_at(s, room_word(), j),
    ensures
        find_word_from(s, from) == -1,
    decreases s.len() - from,
{
    lemma_room_word_len();
    if from + 5 <= s.len() {
        assert(!match_at(s, room_word(), from));
        assert(s.subrange(from, from + 5) != room_word());
        lemma_find_word_none(s, from + 1);
        assert(find_word_from(s, from) == find_word_from(s, from + 1));
    }
}

/// Strip the room word and surrounding whitespace from a raw room field.
pub fn normalised_room(room: &str) -> (r: String)
    ensures
        r@ == room_norm_of(room@),
{
    proof {
        reveal_strlit("terem");
    }
    match find_sub(room, "terem") {
        Some(i) => {
            proof {
                lemma_find_word_at(room@, 0, i as int);
            }
            let len = room.unicode_len();
            let head = room.substring_char(0, i);
            let tail = room.substring_char(i + 5, len);
            let joined = head.to_owned().concat(tail);
            let r = trim_spaces(joined.as_str());
            proof {
                assert(joined@ =~= room@.subrange(0, i as int) + room@.subrange(
                    i + 5,
                    room@.len() as int,
                ));
            }
            r
        },
        None => {
            proof {
                lemma_find_word_none(room@, 0);
            }
            trim_spaces(room)
        },
    }
}

/// The view of an optional borrowed test record.
pub open spec fn opt_test_view(t: Option<&AnnouncedTest>) -> Option<TestView> {
    match t {
        Some(x) => Some(x@),
        None => None,
    }
}

/// Text of the start half of the time cell: minutes left when this is the
/// imminent next lesson, else the clock time.
pub open spec fn from_text(l: LessonView, is_next: bool, now: Instant) -> Seq<char> {
    if is_next && spec_mins_till_start(l, now) < 120 {
        dec_int_of(spec_mins_till_start(l, now)) + " perc"@
    } else {
        clock_of(l.start_minute as int)
    }
}

/// Text of the end half of the time cell: minutes remaining while the
/// lesson is running, else the clock time.
pub open spec fn to_text(l: LessonView, now: Instant) -> Seq<char> {
    if spec_happening(l, now) {
        dec_int_of(spec_mins_till_end(l, now)) + " perc"@
    } else {
        clock_of(l.end_minute as int)
    }
}

/// The whole time cell of a day-grid row.
pub open spec fn time_cell(l: LessonView, is_next: bool, now: Instant) -> CellView {
    CellView {
        text: from_text(l, is_next, now) + " - "@ + to_text(l, now),
        status: if spec_happening(l, now) {
            LessonStatus::Happening
        } else if is_next && spec_mins_till_start(l, now) < 120 {
            LessonStatus::UpcomingSoon
        } else {
            LessonStatus::Normal
        },
    }
}

/// The subject column text: the subject, its topic when present, and a
/// cancellation note in the right tense.
pub open spec fn name_text(l: LessonView, now: Instant) -> Seq<char> {
    let base = l.subject + (match l.topic {
        Some(t) => ": "@ + t,
        None => Seq::<char>::empty(),
    });
    if l.cancelled {
        "elmarad"@ + (if spec_forecoming(l, now) {
            Seq::<char>::empty()
        } else {
            "t"@
        }) + ": "@ + base
    } else {
        base
    }
}

/// The room column text: the normalised room, empty when none is given.
pub open spec fn room_text(l: LessonView) -> Seq<char> {
    match l.room {
        Some(rm) => room_norm_of(rm),
        None => Seq::<char>::empty(),
    }
}

/// The teacher column text: the stand-in marked as such, else the regular
/// teacher.
pub open spec fn teacher_text(l: LessonView) -> Seq<char> {
    match l.substitute_teacher {
        Some(st) => "helyettes: "@ + st,
        None => match l.teacher {
            Some(t) => t,
            None => Seq::<char>::empty(),
        },
    }
}

/// The extra column text for an announced test: its kind, then its topic.
pub open spec fn test_text(t: TestView) -> Seq<char> {
    t.kind_desc + (match t.topic {
        Some(tp) => ": "@ + tp,
        None => Seq::<char>::empty(),
    })
}

/// The whole display row of one lesson: slot label, time range, subject,
/// room and teacher, then an absence marker and a test column as needed.
pub open spec fn spec_disp(
    l: LessonView,
    nxt: Option<LessonView>,
    test: Option<TestView>,
    now: Instant,
) -> Seq<CellView> {
    let is_next = nxt == Some(l);
    seq![
        CellView { text: dec_of(l.slot as int), status: LessonStatus::Normal },
        time_cell(l, is_next, now),
        CellView {
            text: name_text(l, now),
            status: if l.cancelled {
                LessonStatus::Cancelled
            } else {
                LessonStatus::Normal
            },
        },
        CellView { text: room_text(l), status: LessonStatus::Normal },
        CellView {
            text: teacher_text(l),
            status: if l.substitute_teacher is Some {
                LessonStatus::Substituted
            } else {
                LessonStatus::Normal
            },
        },
    ] + (if l.absent {
        seq![CellView { text: "hiányoztál"@, status: LessonStatus::Absent }]
    } else {
        Seq::<CellView>::empty()
    }) + (match test {
        Some(t) => seq![CellView { text: test_text(t), status: LessonStatus::TestAnnounced }],
        None => Seq::<CellView>::empty(),
    })
}

/// Build the display row of one lesson, against the resolved next lesson,
/// a test record matched to its slot, and the moment `now`.
pub fn disp(lsn: &Lesson, nxt: &Option<Lesson>, test: Option<&AnnouncedTest>, now: Instant) -> (r:
    Vec<Cell>)
    requires
        lsn@.wf(),
        now.wf(),
    ensures
        row_views(r@) == spec_disp(
            lsn@,
            crate::timetable::opt_lesson_view(*nxt),
            opt_test_view(test),
            now,
        ),
{
    let is_next = match nxt {
        Some(n) => lessons_equal(lsn, n),
        None => false,
    };
    let ms = mins_till_start(lsn, now);
    let me_ = mins_till_end(lsn, now);
    let from = if is_next && ms < 120 {
        dec_i64(ms).concat(" perc")
    } else {
        clock_str(lsn.start_minute)
    };
    let is_now = happening(lsn, now);
    let to = if is_now {
        dec_i64(me_).concat(" perc")
    } else {
        clock_str(lsn.end_minute)
    };
    let time_txt = from.concat(" - ").concat(to.as_str());
    let time_status = if is_now {
        LessonStatus::Happening
    } else if is_next && ms < 120 {
        LessonStatus::UpcomingSoon
    } else {
        LessonStatus::Normal
    };
    let base = match &lsn.topic {
        Some(t) => lsn.subject.clone().concat(": ").concat(t.as_str()),
        None => lsn.subject.clone(),
    };
    let name_txt = if lsn.cancelled {
        let head = if forecoming(lsn, now) {
            String::from_str("elmarad")
        } else {
            String::from_str("elmarad").concat("t")
        };
        head.concat(": ").concat(base.as_str())
    } else {
        base
    };
    let room_txt = match &lsn.room {
        Some(rm) => normalised_room(rm.as_str()),
        None => String::new(),
    };
    let teacher_txt = match &lsn.substitute_teacher {
        Some(st) => String::from_str("helyettes: ").concat(st.as_str()),
        None => match &lsn.teacher {
            Some(t) => t.clone(),
            None => String::new(),
        },
    };
    let mut row: Vec<Cell> = Vec::new();
    row.push(Cell { text: dec_u64(lsn.slot as u64), status: LessonStatus::Normal });
    row.push(Cell { text: time_txt, status: time_status });
    row.push(
        Cell {
            text: name_txt,
            status: if lsn.cancelled {
                LessonStatus::Cancelled
            } else {
                LessonStatus::Normal
            },
        },
    );
    row.push(Cell { text: room_txt, status: LessonStatus::Normal });
    row.push(
        Cell {
            text: teacher_txt,
            status: if lsn.substitute_teacher.is_some() {
                LessonStatus::Substituted
            } else {
                LessonStatus::Normal
            },
        },
    );
    if lsn.absent {
        row.push(Cell { text: String::from_str("hiányoztál"), status: LessonStatus::Absent });
    }
    match test {
        Some(t) => {
            let txt = match &t.topic {
                Some(tp) => t.kind_desc.clone().concat(": ").concat(tp.as_str()),
                None => t.kind_desc.clone(),
            };
            row.push(Cell { text: txt, status: LessonStatus::TestAnnounced });
        },
        None => {},
    }
    proof {
        assert(row_views(row@) =~~= spec_disp(
            lsn@,
            crate::timetable::opt_lesson_view(*nxt),
            opt_test_view(test),
            now,
        ));
    }
    row
}

/// The views of a sequence of header labels.
pub open spec fn strs_views(s: Seq<String>) -> Seq<Seq<char>> {
    s.map_values(|t: String| t@)
}

/// Header labels of the single-day grid.
pub open spec fn day_headers() -> Seq<Seq<char>> {
    seq!["."@, "EKKOR"@, "ÓRA"@, "TEREM"@, "TANÁR"@, "EXTRA"@, "EXTRA-EXTRA"@]
}

/// Header labels of the week grid.
pub open spec fn week_headers() -> Seq<Seq<char>> {
    seq!["."@, "HÉTFŐ"@, "KEDD"@, "SZERDA"@, "CSÜTÖRTÖK"@, "PÉNTEK"@, "SZOMBAT"@]
}

fn day_headers_exec() -> (r: Vec<String>)
    ensures
        strs_views(r@) == day_headers(),
{
    let mut v: Vec<String> = Vec::new();
    v.push(String::from_str("."));
    v.push(String::from_str("EKKOR"));
    v.push(String::from_str("ÓRA"));
    v.push(String::from_str("TEREM"));
    v.push(String::from_str("TANÁR"));
    v.push(String::from_str("EXTRA"));
    v.push(String::from_str("EXTRA-EXTRA"));
    proof {
        assert(strs_views(v@) =~~= day_headers());
    }
    v
}

fn week_headers_exec() -> (r: Vec<String>)
    ensures
        strs_views(r@) == week_headers(),
{
    let mut v: Vec<String> = Vec::new();
    v.push(String::from_str("."));
    v.push(String::from_str("HÉTFŐ"));
    v.push(String::from_str("KEDD"));
    v.push(String::from_str("SZERDA"));
    v.push(String::from_str("CSÜTÖRTÖK"));
    v.push(String::from_str("PÉNTEK"));
    v.push(String::from_str("SZOMBAT"));
    proof {
        assert(strs_views(v@) =~~= week_headers());
    }
    v
}

/// Slot the rows start at: 0 only when some lesson reports slot 0, else 1.
pub open spec fn day_start_slot(vs: Seq<LessonView>) -> int {
    if exists|i: int| 0 <= i < vs.len() && (#[trigger] vs[i]).slot == 0 {
        0
    } else {
        1
    }
}

/// The largest slot any of the lessons reports.
pub open spec fn max_slot(vs: Seq<LessonView>) -> int
    decreases vs.len(),
{
    if vs.len() == 0 {
        0
    } else {
        let m = max_slot(vs.drop_last());
        if vs.last().slot as int > m {
            vs.last().slot as int
        } else {
            m
        }
    }
}

proof fn lemma_max_slot(vs: Seq<LessonView>)
    ensures
        0 <= max_slot(vs) <= 255,
        forall|i: int| 0 <= i < vs.len() ==> (#[trigger] vs[i]).slot as int <= max_slot(vs),
    decreases vs.len(),
{
    if vs.len() > 0 {
        lemma_max_slot(vs.drop_last());
        assert forall|i: int| 0 <= i < vs.len() implies (#[trigger] vs[i]).slot as int <= max_slot(
            vs,
        ) by {
            if i < vs.len() - 1 {
                assert(vs.drop_last()[i] == vs[i]);
            }
        }
    }
}

/// Index of the last lesson reporting slot `s`, `-1` when none does.
pub open spec fn last_with_slot(vs: Seq<LessonView>, s: int) -> int
    decreases vs.len(),
{
    if vs.len() == 0 {
        -1
    } else if vs.last().slot as int == s {
        vs.len() - 1
    } else {
        last_with_slot(vs.drop_last(), s)
    }
}

proof fn lemma_last_with_slot_bounds(vs: Seq<LessonView>, s: int)
    ensures
        -1 <= last_with_slot(vs, s) < vs.len(),
        last_with_slot(vs, s) >= 0 ==> vs[last_with_slot(vs, s)].slot as int == s,
    decreases vs.len(),
{
    if vs.len() > 0 && vs.last().slot as int != s {
        lemma_last_with_slot_bounds(vs.drop_last(), s);
        if last_with_slot(vs, s) >= 0 {
            assert(vs.drop_last()[last_with_slot(vs, s)] == vs[last_with_slot(vs, s)]);
        }
    }
}

/// Index of the first lesson at or after `from` reporting slot `s`, `-1`
/// when none does.
pub open spec fn first_slot_from(ws: Seq<LessonView>, s: int, from: nat) -> int
    decreases ws.len() - from,
    when from <= ws.len()
{
    if from >= ws.len() {
        -1
    } else if ws[from as int].slot as int == s {
        from as int
    } else {
        first_slot_from(ws, s, from + 1)
    }
}

/// Index of the first test at or after `from` keyed to slot `s`, `-1`
/// when none is.
pub open spec fn first_test_from(ts: Seq<TestView>, s: int, from: nat) -> int
    decreases ts.len() - from,
    when from <= ts.len()
{
    if from >= ts.len() {
        -1
    } else if ts[from as int].slot as int == s {
        from as int
    } else {
        first_test_from(ts, s, from + 1)
    }
}

/// The synthesized free-period row for slot `s`: its timestamps are
/// borrowed from the first reference-week lesson sharing the slot, or
/// left empty when the week has none.
pub open spec fn spec_gap_row(s: int, ws: Seq<LessonView>) -> Seq<CellView> {
    let ti = first_slot_from(ws, s, 0);
    let time_txt = if ti >= 0 {
        clock_of(ws[ti].start_minute as int) + " - "@ + clock_of(ws[ti].end_minute as int)
    } else {
        Seq::<char>::empty()
    };
    seq![
        CellView { text: dec_of(s), status: LessonStatus::Gap },
        CellView { text: time_txt, status: LessonStatus::Gap },
        CellView { text: Seq::<char>::empty(), status: LessonStatus::Gap },
        CellView { text: Seq::<char>::empty(), status: LessonStatus::Gap },
        CellView { text: Seq::<char>::empty(), status: LessonStatus::Gap },
    ]
}

/// Row `r` of the day grid: the display row of the last lesson reporting
/// the slot, or a gap row when the slot is free.
pub open spec fn spec_day_row(
    vs: Seq<LessonView>,
    ws: Seq<LessonView>,
    ts: Seq<TestView>,
    start: int,
    r: int,
    nxt: Option<LessonView>,
    now: Instant,
) -> Seq<CellView> {
    let s = start + r;
    let li = last_with_slot(vs, s);
    if li >= 0 {
        let ti = first_test_from(ts, s, 0);
        spec_disp(
            vs[li],
            nxt,
            if ti >= 0 {
                Some(ts[ti])
            } else {
                None
            },
            now,
        )
    } else {
        spec_gap_row(s, ws)
    }
}

/// Build the gap row for slot `s`, borrowing times from the reference
/// week.
fn gap_row_exec(s: u8, week: &Vec<Lesson>) -> (r: Vec<Cell>)
    requires
        all_wf(seq_views(week@)),
    ensures
        row_views(r@) == spec_gap_row(s as int, seq_views(week@)),
{
    let ghost ws = seq_views(week@);
    let mut j: usize = 0;
    let mut found: Option<usize> = None;
    while j < week.len() && found.is_none()
        invariant
            0 <= j <= week@.len(),
            ws == seq_views(week@),
            found is None ==> first_slot_from(ws, s as int, 0) == first_slot_from(
                ws,
                s as int,
                j as nat,
            ),
            found matches Some(f) ==> f < week@.len() && first_slot_from(ws, s as int, 0)
                == f as int,
        decreases week@.len() - j + (if found is None {
            1int
        } else {
            0int
        }),
    {
        if week[j].slot == s {
            proof {
                assert(ws[j as int] == week@[j as int]@);
                assert(first_slot_from(ws, s as int, j as nat) == j);
            }
            found = Some(j);
        } else {
            proof {
                assert(ws[j as int] == week@[j as int]@);
                assert(first_slot_from(ws, s as int, j as nat) == first_slot_from(
                    ws,
                    s as int,
                    (j + 1) as nat,
                ));
            }
            j = j + 1;
        }
    }
    let time_txt = match found {
        Some(f) => {
            let w = &week[f];
            proof {
                assert(ws[f as int] == week@[f as int]@);
                assert(ws[f as int].wf());
            }
            clock_str(w.start_minute).concat(" - ").concat(clock_str(w.end_minute).as_str())
        },
        None => {
            proof {
                assert(first_slot_from(ws, s as int, j as nat) == -1);
            }
            String::new()
        },
    };
    let mut row: Vec<Cell> = Vec::new();
    row.push(Cell { text: dec_u64(s as u64), status: LessonStatus::Gap });
    row.push(Cell { text: time_txt, status: LessonStatus::Gap });
    row.push(Cell { text: String::new(), status: LessonStatus::Gap });
    row.push(Cell { text: String::new(), status: LessonStatus::Gap });
    row.push(Cell { text: String::new(), status: LessonStatus::Gap });
    proof {
        assert(row_views(row@) =~~= spec_gap_row(s as int, ws));
    }
    row
}

/// Build the single-day grid: one row per expected slot between the day's
/// first and last observed index, each real lesson rendered by [`disp`]
/// (the last record winning a contested slot) and each free slot
/// synthesized as a gap row.
pub fn build_day_grid(
    lessons: &Vec<Lesson>,
    week: &Vec<Lesson>,
    tests: &Vec<AnnouncedTest>,
    now: Instant,
) -> (g: Grid)
    requires
        all_wf(seq_views(lessons@)),
        all_wf(seq_views(week@)),
        now.wf(),
    ensures
        strs_views(g.header@) == day_headers(),
        lessons@.len() == 0 ==> g.rows@.len() == 0,
        lessons@.len() > 0 ==> ({
            let vs = seq_views(lessons@);
            let start = day_start_slot(vs);
            &&& g.rows@.len() == max_slot(vs) - start + 1
            &&& forall|r: int|
                0 <= r < g.rows@.len() ==> row_views((#[trigger] g.rows@[r])@) == spec_day_row(
                    vs,
                    seq_views(week@),
                    test_views(tests@),
                    start,
                    r,
                    spec_next(vs, now),
                    now,
                )
        }),
{
    let ghost vs = seq_views(lessons@);
    let ghost ws = seq_views(week@);
    let ghost ts = test_views(tests@);
    let header = day_headers_exec();
    if lessons.len() == 0 {
        return Grid { header, rows: Vec::new() };
    }
    let nxt = next_lesson(lessons, now);
    let mut has_zero = false;
    let mut i: usize = 0;
    while i < lessons.len()
        invariant
            0 <= i <= lessons@.len(),
            vs == seq_views(lessons@),
            has_zero == exists|k: int| 0 <= k < i && (#[trigger] vs[k]).slot == 0,
        decreases lessons@.len() - i,
    {
        proof {
            assert(vs[i as int] == lessons@[i as int]@);
        }
        if lessons[i].slot == 0 {
            has_zero = true;
        }
        i = i + 1;
    }
    let start: u8 = if has_zero {
        0
    } else {
        1
    };
    proof {
        assert(start as int == day_start_slot(vs));
    }
    let mut maxv: u8 = 0;
    let mut i2: usize = 0;
    while i2 < lessons.len()
        invariant
            0 <= i2 <= lessons@.len(),
            vs == seq_views(lessons@),
            maxv as int == max_slot(vs.subrange(0, i2 as int)),
        decreases lessons@.len() - i2,
    {
        proof {
            assert(vs.subrange(0, i2 + 1).drop_last() =~= vs.subrange(0, i2 as int));
            assert(vs.subrange(0, i2 + 1).last() == vs[i2 as int]);
            assert(vs[i2 as int] == lessons@[i2 as int]@);
        }
        let sl = lessons[i2].slot;
        if sl > maxv {
            maxv = sl;
        }
        i2 = i2 + 1;
    }
    proof {
        assert(vs.subrange(0, vs.len() as int) =~= vs);
        lemma_max_slot(vs);
        if start == 1 {
            assert(vs[0].slot as int <= max_slot(vs));
            assert(vs[0].slot != 0);
        }
    }
    let nrows = (maxv - start) as usize + 1;
    let mut rows: Vec<Vec<Cell>> = Vec::new();
    let mut r: usize = 0;
    while r < nrows
        invariant
            0 <= r <= nrows,
            rows@.len() == r,
            ws == seq_views(week@),
            all_wf(ws),
            start as int + nrows == max_slot(vs) + 1,
            max_slot(vs) <= 255,
            forall|q: int|
                0 <= q < r ==> row_views((#[trigger] rows@[q])@) == spec_gap_row(start + q, ws),
        decreases nrows - r,
    {
        proof {
            assert(start as int + r < 256);
        }
        let gr = gap_row_exec(start + (r as u8), week);
        rows.push(gr);
        r = r + 1;
    }
    let mut k: usize = 0;
    while k < lessons.len()
        invariant
            0 <= k <= lessons@.len(),
            vs == seq_views(lessons@),
            ws == seq_views(week@),
            ts == test_views(tests@),
            all_wf(vs),
            all_wf(ws),
            now.wf(),
            opt_lesson_view(nxt) == spec_next(vs, now),
            start as int == day_start_slot(vs),
            rows@.len() == nrows,
            start as int + nrows == max_slot(vs) + 1,
            forall|i: int| 0 <= i < vs.len() ==> (#[trigger] vs[i]).slot as int <= max_slot(vs),
            start == 1 ==> forall|i: int| 0 <= i < vs.len() ==> (#[trigger] vs[i]).slot != 0,
            forall|q: int|
                0 <= q < nrows ==> row_views((#[trigger] rows@[q])@) == spec_day_row(
                    vs.subrange(0, k as int),
                    ws,
                    ts,
                    start as int,
                    q,
                    opt_lesson_view(nxt),
                    now,
                ),
        decreases lessons@.len() - k,
    {
        let l = &lessons[k];
        proof {
            assert(vs[k as int] == lessons@[k as int]@);
        }
        let ghost sl = vs[k as int].slot as int;
        let mut tj: usize = 0;
        let mut tfound: Option<usize> = None;
        while tj < tests.len() && tfound.is_none()
            invariant
                0 <= tj <= tests@.len(),
                ts == test_views(tests@),
                sl == vs[k as int].slot as int,
                k < lessons@.len(),
                vs == seq_views(lessons@),
                l == &lessons[k as int],
                tfound is None ==> first_test_from(ts, sl, 0) == first_test_from(ts, sl, tj as nat),
                tfound matches Some(f) ==> f < tests@.len() && first_test_from(ts, sl, 0)
                    == f as int,
            decreases tests@.len() - tj + (if tfound is None {
                1int
            } else {
                0int
            }),
        {
            proof {
                assert(ts[tj as int] == tests@[tj as int]@);
            }
            if tests[tj].slot == l.slot {
                proof {
                    assert(vs[k as int] == lessons@[k as int]@);
                    assert(first_test_from(ts, sl, tj as nat) == tj);
                }
                tfound = Some(tj);
            } else {
                proof {
                    assert(vs[k as int] == lessons@[k as int]@);
                    assert(first_test_from(ts, sl, tj as nat) == first_test_from(
                        ts,
                        sl,
                        (tj + 1) as nat,
                    ));
                }
                tj = tj + 1;
            }
        }
        proof {
            if tfound is None {
                assert(tj == tests@.len());
                assert(first_test_from(ts, sl, tj as nat) == -1);
            }
        }
        let tref: Option<&AnnouncedTest> = match tfound {
            Some(f) => {
                proof {
                    assert(ts[f as int] == tests@[f as int]@);
                }
                Some(&tests[f])
            },
            None => None,
        };
        let ghost tpick = first_test_from(ts, sl, 0);
        proof {
            assert(opt_test_view(tref) == if tpick >= 0 {
                Some(ts[tpick])
            } else {
                None::<TestView>
            });
        }
        let new_row = disp(l, &nxt, tref, now);
        let h = (l.slot - start) as usize;
        let ghost rows_before = rows@;
        rows[h] = new_row;
        proof {
            let prefix = vs.subrange(0, k as int);
            let prefix1 = vs.subrange(0, k + 1);
            assert(prefix1.drop_last() =~= prefix);
            assert(prefix1.last() == vs[k as int]);
            assert(rows@ == rows_before.update(h as int, new_row));
            assert forall|q: int| 0 <= q < nrows implies row_views((#[trigger] rows@[q])@)
                == spec_day_row(prefix1, ws, ts, start as int, q, opt_lesson_view(nxt), now) by {
                if q == h as int {
                    assert(rows@[q] == new_row);
                    assert(last_with_slot(prefix1, start as int + q) == k);
                    assert(prefix1[k as int] == vs[k as int]);
                    assert(first_test_from(ts, start as int + q, 0) == tpick);
                    assert(row_views(new_row@) == spec_disp(
                        vs[k as int],
                        opt_lesson_view(nxt),
                        opt_test_view(tref),
                        now,
                    ));
                    assert(spec_day_row(prefix1, ws, ts, start as int, q, opt_lesson_view(nxt), now)
                        == spec_disp(
                        vs[k as int],
                        opt_lesson_view(nxt),
                        if tpick >= 0 {
                            Some(ts[tpick])
                        } else {
                            None::<TestView>
                        },
                        now,
                    ));
                } else {
                    assert(rows@[q] == rows_before[q]);
                    assert(last_with_slot(prefix1, start as int + q) == last_with_slot(
                        prefix,
                        start as int + q,
                    ));
                    lemma_last_with_slot_bounds(prefix, start as int + q);
                    let li = last_with_slot(prefix, start as int + q);
                    if li >= 0 {
                        assert(prefix1[li] == prefix[li]);
                    }
                }
            }
        }
        k = k + 1;
    }
    proof {
        assert(vs.subrange(0, vs.len() as int) =~= vs);
    }
    Grid { header, rows }
}

/// Week ordering on lessons: by date, then by slot.
pub open spec fn lesson_le(a: LessonView, b: LessonView) -> bool {
    date_lt(a.date, b.date) || (a.date == b.date && a.slot <= b.slot)
}

/// Whether `a` comes no later than `b` in week order.
fn lesson_le_exec(a: &Lesson, b: &Lesson) -> (r: bool)
    ensures
        r == lesson_le(a@, b@),
{
    let x = a.date;
    let y = b.date;
    if x.year < y.year {
        true
    } else if x.year == y.year && x.month < y.month {
        true
    } else if x.year == y.year && x.month == y.month && x.day < y.day {
        true
    } else {
        x == y && a.slot <= b.slot
    }
}

/// `x` placed behind the last element of `s` that is not after it, so
/// that records with equal keys keep their relative order.
pub open spec fn insert_sorted(x: LessonView, s: Seq<LessonView>) -> Seq<LessonView>
    decreases s.len(),
{
    if s.len() == 0 {
        seq![x]
    } else if lesson_le(s.last(), x) {
        s.push(x)
    } else {
        insert_sorted(x, s.drop_last()).push(s.last())
    }
}

/// The lessons in week order: stably sorted by date, then slot.
pub open spec fn sort_spec(s: Seq<LessonView>) -> Seq<LessonView>
    decreases s.len(),
{
    if s.len() == 0 {
        Seq::<LessonView>::empty()
    } else {
        insert_sorted(s.last(), sort_spec(s.drop_last()))
    }
}

proof fn lemma_insert_sorted_at(s: Seq<LessonView>, x: LessonView, k: int)
    requires
        0 <= k <= s.len(),
        forall|m: int| k <= m < s.len() ==> !lesson_le(#[trigger] s[m], x),
        k > 0 ==> lesson_le(s[k - 1], x),
    ensures
        insert_sorted(x, s) == s.subrange(0, k) + seq![x] + s.subrange(k, s.len() as int),
    decreases s.len(),
{
    if s.len() == 0 {
        assert(s.subrange(0, k) + seq![x] + s.subrange(k, s.len() as int) =~= seq![x]);
    } else if lesson_le(s.last(), x) {
        assert(k == s.len());
        assert(s.subrange(0, k) + seq![x] + s.subrange(k, s.len() as int) =~= s.push(x));
    } else {
        assert(k < s.len());
        let dl = s.drop_last();
        assert(forall|m: int| k <= m < dl.len() ==> !lesson_le(#[trigger] dl[m], x));
        if k > 0 {
            assert(dl[k - 1] == s[k - 1]);
        }
        lemma_insert_sorted_at(dl, x, k);
        assert((dl.subrange(0, k) + seq![x] + dl.subrange(k, dl.len() as int)).push(s.last()) =~= s
            .subrange(0, k) + seq![x] + s.subrange(k, s.len() as int));
    }
}

proof fn lemma_sort_spec_len(s: Seq<LessonView>)
    ensures
        sort_spec(s).len() == s.len(),
    decreases s.len(),
{
    if s.len() > 0 {
        lemma_sort_spec_len(s.drop_last());
        lemma_insert_sorted_len(s.last(), sort_spec(s.drop_last()));
    }
}

proof fn lemma_insert_sorted_len(x: LessonView, s: Seq<LessonView>)
    ensures
        insert_sorted(x, s).len() == s.len() + 1,
    decreases s.len(),
{
    if s.len() > 0 && !lesson_le(s.last(), x) {
        lemma_insert_sorted_len(x, s.drop_last());
    }
}

proof fn lemma_insert_sorted_wf(x: LessonView, s: Seq<LessonView>)
    requires
        x.wf(),
        all_wf(s),
    ensures
        all_wf(insert_sorted(x, s)),
    decreases s.len(),
{
    lemma_insert_sorted_len(x, s);
    if s.len() == 0 {
    } else if lesson_le(s.last(), x) {
    } else {
        let dl = s.drop_last();
        assert(all_wf(dl));
        lemma_insert_sorted_wf(x, dl);
        lemma_insert_sorted_len(x, dl);
        let out = insert_sorted(x, s);
        assert forall|i: int| 0 <= i < out.len() implies (#[trigger] out[i]).wf() by {
            if i < out.len() - 1 {
                assert(out[i] == insert_sorted(x, dl)[i]);
            } else {
                assert(out[i] == s.last());
            }
        }
    }
}

proof fn lemma_sort_spec_wf(s: Seq<LessonView>)
    requires
        all_wf(s),
    ensures
        all_wf(sort_spec(s)),
    decreases s.len(),
{
    if s.len() > 0 {
        assert(all_wf(s.drop_last()));
        lemma_sort_spec_wf(s.drop_last());
        assert(s.last().wf());
        lemma_insert_sorted_wf(s.last(), sort_spec(s.drop_last()));
    }
}

/// Sort the lessons into week order: by date, then slot, records with
/// equal keys keeping their relative order.
pub fn sort_lessons(v: &Vec<Lesson>) -> (r: Vec<Lesson>)
    ensures
        seq_views(r@) == sort_spec(seq_views(v@)),
{
    let mut out: Vec<Lesson> = Vec::new();
    let mut i: usize = 0;
    proof {
        assert(seq_views(v@.subrange(0, 0)) =~= Seq::<LessonView>::empty());
        assert(seq_views(out@) =~= sort_spec(seq_views(v@.subrange(0, 0))));
    }
    while i < v.len()
        invariant
            0 <= i <= v@.len(),
            seq_views(out@) == sort_spec(seq_views(v@.subrange(0, i as int))),
        decreases v@.len() - i,
    {
        let x = v[i].duplicate();
        let ghost os = seq_views(out@);
        let ghost xx = x@;
        let mut j: usize = out.len();
        while j > 0 && !lesson_le_exec(&out[j - 1], &x)
            invariant
                0 <= j <= out@.len(),
                os == seq_views(out@),
                xx == x@,
                forall|m: int| j <= m < os.len() ==> !lesson_le(#[trigger] os[m], xx),
            decreases j,
        {
            proof {
                assert(os[j - 1] == out@[j - 1]@);
            }
            j = j - 1;
        }
        proof {
            if j > 0 {
                assert(os[j - 1] == out@[j - 1]@);
            }
            lemma_insert_sorted_at(os, xx, j as int);
        }
        out.insert(j, x);
        proof {
            assert(seq_views(out@) =~= os.subrange(0, j as int) + seq![xx] + os.subrange(
                j as int,
                os.len() as int,
            ));
            let p = seq_views(v@.subrange(0, i as int));
            let p1 = seq_views(v@.subrange(0, i + 1));
            assert(p1.drop_last() =~= p);
            assert(p1.last() == v@[i as int]@);
            assert(xx == v@[i as int]@);
            assert(seq_views(out@) == insert_sorted(p1.last(), sort_spec(p)));
        }
        i = i + 1;
    }
    proof {
        assert(v@.subrange(0, v@.len() as int) =~= v@);
    }
    out
}

/// The week grid keeps only real lessons.
pub open spec fn not_fake_pred() -> spec_fn(LessonView) -> bool {
    |l: LessonView| !l.placeholder
}

/// The far-day rule, read left to right from position `from` with `prev`
/// the day of the last kept lesson: a lesson of a new day is dropped when
/// it lies more than two days after `prev`, and otherwise opens a new day.
pub open spec fn keep_from(s: Seq<LessonView>, from: nat, prev: Date) -> Seq<LessonView>
    decreases s.len() - from,
    when from <= s.len()
{
    if from >= s.len() {
        Seq::<LessonView>::empty()
    } else {
        let l = s[from as int];
        if l.date == prev {
            seq![l] + keep_from(s, from + 1, prev)
        } else if day_num(l.date) - day_num(prev) > 2 {
            keep_from(s, from + 1, prev)
        } else {
            seq![l] + keep_from(s, from + 1, l.date)
        }
    }
}

/// The lessons that stay in the week grid: the first is always kept, and
/// each later one is held to the far-day rule.
pub open spec fn keep_near(s: Seq<LessonView>) -> Seq<LessonView> {
    if s.len() == 0 {
        Seq::<LessonView>::empty()
    } else {
        seq![s[0]] + keep_from(s, 1, s[0].date)
    }
}

/// Apply the far-day rule to the sorted week lessons.
fn keep_near_exec(sorted: &Vec<Lesson>) -> (r: Vec<Lesson>)
    requires
        all_wf(seq_views(sorted@)),
    ensures
        seq_views(r@) == keep_near(seq_views(sorted@)),
        all_wf(seq_views(r@)),
{
    let ghost svs = seq_views(sorted@);
    let mut out: Vec<Lesson> = Vec::new();
    if sorted.len() == 0 {
        proof {
            assert(seq_views(out@) =~= keep_near(svs));
        }
        return out;
    }
    proof {
        assert(svs[0] == sorted@[0]@);
        assert(svs[0].wf());
    }
    out.push(sorted[0].duplicate());
    let mut prev: crate::dates::Date = sorted[0].date;
    let mut i: usize = 1;
    proof {
        assert(seq_views(out@) + keep_from(svs, 1, prev) =~= keep_near(svs));
    }
    while i < sorted.len()
        invariant
            1 <= i <= sorted@.len(),
            svs == seq_views(sorted@),
            all_wf(svs),
            prev.valid(),
            all_wf(seq_views(out@)),
            seq_views(out@) + keep_from(svs, i as nat, prev) == keep_near(svs),
        decreases sorted@.len() - i,
    {
        let ghost before = seq_views(out@);
        let ghost oldprev = prev;
        let l = &sorted[i];
        proof {
            assert(svs[i as int] == sorted@[i as int]@);
            assert(svs[i as int].wf());
        }
        if l.date == prev {
            out.push(l.duplicate());
            proof {
                assert(keep_from(svs, i as nat, oldprev) == seq![svs[i as int]] + keep_from(
                    svs,
                    (i + 1) as nat,
                    oldprev,
                ));
                assert(seq_views(out@) =~= before.push(svs[i as int]));
                assert(seq_views(out@) + keep_from(svs, (i + 1) as nat, prev) =~= before
                    + keep_from(svs, i as nat, oldprev));
            }
        } else {
            let gap = days_between(&prev, &l.date);
            if gap > 2 {
                proof {
                    assert(keep_from(svs, i as nat, oldprev) == keep_from(
                        svs,
                        (i + 1) as nat,
                        oldprev,
                    ));
                }
            } else {
                out.push(l.duplicate());
                prev = l.date;
                proof {
                    assert(keep_from(svs, i as nat, oldprev) == seq![svs[i as int]] + keep_from(
                        svs,
                        (i + 1) as nat,
                        svs[i as int].date,
                    ));
                    assert(seq_views(out@) =~= before.push(svs[i as int]));
                    assert(seq_views(out@) + keep_from(svs, (i + 1) as nat, prev) =~= before
                        + keep_from(svs, i as nat, oldprev));
                }
            }
        }
        i = i + 1;
    }
    proof {
        assert(keep_from(svs, i as nat, prev) =~= Seq::<LessonView>::empty());
        assert(seq_views(out@) =~= seq_views(out@) + Seq::<LessonView>::empty());
    }
    out
}

/// The distinct days of the kept lessons, in order: a day opens a new
/// column when it differs from the day before it.
pub open spec fn col_dates(s: Seq<LessonView>) -> Seq<Date>
    decreases s.len(),
{
    if s.len() == 0 {
        Seq::<Date>::empty()
    } else if s.len() == 1 {
        seq![s[0].date]
    } else if s.last().date == s[s.len() - 2].date {
        col_dates(s.drop_last())
    } else {
        col_dates(s.drop_last()).push(s.last().date)
    }
}

/// The text and status of one occupied week cell: the subject, a space,
/// and the normalised room, styled by the status precedence.
pub open spec fn week_cell_of(l: LessonView, nxt: Option<LessonView>, now: Instant) -> CellView {
    CellView {
        text: l.subject + " "@ + room_text(l),
        status: crate::timetable::spec_status(l, nxt, now),
    }
}

/// Index of the last kept lesson occupying slot `s` of column `c`, `-1`
/// when that cell stays free.
pub open spec fn last_cell_ix(ks: Seq<LessonView>, s: int, c: int) -> int
    decreases ks.len(),
{
    if ks.len() == 0 {
        -1
    } else if ks.last().slot as int == s && col_dates(ks).len() - 1 == c {
        ks.len() - 1
    } else {
        last_cell_ix(ks.drop_last(), s, c)
    }
}

/// The data cell at slot `s`, column `c` of the week grid.
pub open spec fn spec_week_cell(
    ks: Seq<LessonView>,
    s: int,
    c: int,
    nxt: Option<LessonView>,
    now: Instant,
) -> CellView {
    let i = last_cell_ix(ks, s, c);
    if i >= 0 {
        week_cell_of(ks[i], nxt, now)
    } else {
        CellView { text: Seq::<char>::empty(), status: LessonStatus::Normal }
    }
}

proof fn lemma_last_cell_ix_bounds(ks: Seq<LessonView>, s: int, c: int)
    ensures
        -1 <= last_cell_ix(ks, s, c) < ks.len(),
    decreases ks.len(),
{
    if ks.len() > 0 {
        lemma_last_cell_ix_bounds(ks.drop_last(), s, c);
    }
}

/// Build the cell at slot `s`, column `c` from the kept week lessons.
fn week_cell_exec(kept: &Vec<Lesson>, s: u8, c: usize, nxt: &Option<Lesson>, now: Instant) -> (r:
    Cell)
    requires
        all_wf(seq_views(kept@)),
        now.wf(),
    ensures
        r@ == spec_week_cell(seq_views(kept@), s as int, c as int, opt_lesson_view(*nxt), now),
{
    let ghost ks = seq_views(kept@);
    let mut best: Option<usize> = None;
    let mut cc: usize = 0;
    let mut j: usize = 0;
    while j < kept.len()
        invariant
            0 <= j <= kept@.len(),
            ks == seq_views(kept@),
            cc == col_dates(ks.subrange(0, j as int)).len(),
            cc <= j,
            j > 0 ==> cc >= 1,
            best matches Some(b) ==> 0 <= b < j && last_cell_ix(
                ks.subrange(0, j as int),
                s as int,
                c as int,
            ) == b as int,
            best is None ==> last_cell_ix(ks.subrange(0, j as int), s as int, c as int) == -1,
        decreases kept@.len() - j,
    {
        proof {
            assert(ks[j as int] == kept@[j as int]@);
            assert(ks.subrange(0, j + 1).drop_last() =~= ks.subrange(0, j as int));
            assert(ks.subrange(0, j + 1).last() == ks[j as int]);
            if j > 0 {
                assert(ks.subrange(0, j + 1)[j - 1] == ks[j - 1]);
                assert(ks[j - 1] == kept@[j - 1]@);
            }
        }
        let cc1: usize = if j == 0 {
            1
        } else if kept[j].date == kept[j - 1].date {
            cc
        } else {
            cc + 1
        };
        proof {
            assert(cc1 == col_dates(ks.subrange(0, j + 1)).len());
        }
        if kept[j].slot == s && cc1 - 1 == c {
            proof {
                assert(last_cell_ix(ks.subrange(0, j + 1), s as int, c as int) == j);
            }
            best = Some(j);
        } else {
            proof {
                assert(last_cell_ix(ks.subrange(0, j + 1), s as int, c as int) == last_cell_ix(
                    ks.subrange(0, j as int),
                    s as int,
                    c as int,
                ));
            }
        }
        cc = cc1;
        j = j + 1;
    }
    proof {
        assert(ks.subrange(0, ks.len() as int) =~= ks);
    }
    match best {
        Some(b) => {
            let l = &kept[b];
            proof {
                assert(ks[b as int] == kept@[b as int]@);
                assert(ks[b as int].wf());
            }
            let room_txt = match &l.room {
                Some(rm) => normalised_room(rm.as_str()),
                None => String::new(),
            };
            let text = l.subject.clone().concat(" ").concat(room_txt.as_str());
            let st = crate::timetable::lesson_status(l, nxt, now);
            let cell = Cell { text, status: st };
            proof {
                assert(cell@ =~~= spec_week_cell(
                    ks,
                    s as int,
                    c as int,
                    opt_lesson_view(*nxt),
                    now,
                ));
            }
            cell
        },
        None => Cell { text: String::new(), status: LessonStatus::Normal },
    }
}

/// Build the week grid: placeholder lessons dropped first, the rest taken
/// in (date, slot) order, days lying more than two days beyond the
/// previous kept day discarded, and a rectangular grid filled with one
/// column per kept day, the last record winning a contested cell.
#[verifier::rlimit(100)]
pub fn build_week_grid(lessons: &Vec<Lesson>, now: Instant) -> (g: Grid)
    requires
        all_wf(seq_views(lessons@)),
        now.wf(),
    ensures
        strs_views(g.header@) == week_headers(),
        ({
            let nf = seq_views(lessons@).filter(not_fake_pred());
            let svs = sort_spec(nf);
            let ks = keep_near(svs);
            let nxtv = spec_next(nf, now);
            let start = day_start_slot(svs);
            &&& nf.len() == 0 ==> g.rows@.len() == 0
            &&& nf.len() > 0 ==> {
                &&& g.rows@.len() == max_slot(svs) - start + 1
                &&& forall|r: int|
                    0 <= r < g.rows@.len() ==> (#[trigger] g.rows@[r])@.len() == 1 + col_dates(
                        ks,
                    ).len()
                &&& forall|r: int|
                    0 <= r < g.rows@.len() ==> row_views((#[trigger] g.rows@[r])@)[0] == (CellView {
                        text: dec_of(start + r),
                        status: LessonStatus::Normal,
                    })
                &&& forall|r: int, c: int|
                    0 <= r < g.rows@.len() && 1 <= c < 1 + col_dates(ks).len() ==> #[trigger] row_views(
                        (g.rows@[r])@,
                    )[c] == spec_week_cell(ks, start + r, c - 1, nxtv, now)
            }
        }),
{
    let ghost lvs = seq_views(lessons@);
    let ghost nf = lvs.filter(not_fake_pred());
    let header = week_headers_exec();
    let mut no_fake: Vec<Lesson> = Vec::new();
    let mut i: usize = 0;
    proof {
        assert(seq_views(lessons@.subrange(0, 0)) =~= Seq::<LessonView>::empty());
        reveal(Seq::filter);
        assert(seq_views(no_fake@) =~= Seq::<LessonView>::empty().filter(not_fake_pred()));
    }
    while i < lessons.len()
        invariant
            0 <= i <= lessons@.len(),
            lvs == seq_views(lessons@),
            all_wf(lvs),
            seq_views(no_fake@) == seq_views(lessons@.subrange(0, i as int)).filter(
                not_fake_pred(),
            ),
            all_wf(seq_views(no_fake@)),
        decreases lessons@.len() - i,
    {
        let ghost prefix = lessons@.subrange(0, i as int);
        let ghost prefix1 = lessons@.subrange(0, i + 1);
        let ghost before = no_fake@;
        let l = &lessons[i];
        proof {
            assert(lvs[i as int] == lessons@[i as int]@);
        }
        if !l.placeholder {
            no_fake.push(l.duplicate());
            proof {
                assert(seq_views(no_fake@) =~= seq_views(before).push(lessons@[i as int]@));
            }
        }
        proof {
            assert(seq_views(prefix1) =~= seq_views(prefix).push(lessons@[i as int]@));
            crate::timetable::lemma_filter_push::<LessonView>(
                seq_views(prefix),
                not_fake_pred(),
                lessons@[i as int]@,
            );
        }
        i = i + 1;
    }
    proof {
        assert(lessons@.subrange(0, lessons@.len() as int) =~= lessons@);
        assert(seq_views(no_fake@) == nf);
    }
    if no_fake.len() == 0 {
        return Grid { header, rows: Vec::new() };
    }
    let nxt = next_lesson(&no_fake, now);
    let sorted = sort_lessons(&no_fake);
    let ghost svs = sort_spec(nf);
    proof {
        lemma_sort_spec_len(nf);
        lemma_sort_spec_wf(nf);
        assert(seq_views(sorted@) == svs);
    }
    let kept = keep_near_exec(&sorted);
    let ghost ks = keep_near(svs);
    proof {
        assert(seq_views(kept@) == ks);
    }
    let mut has_zero = false;
    let mut i2: usize = 0;
    while i2 < sorted.len()
        invariant
            0 <= i2 <= sorted@.len(),
            svs == seq_views(sorted@),
            has_zero == exists|k: int| 0 <= k < i2 && (#[trigger] svs[k]).slot == 0,
        decreases sorted@.len() - i2,
    {
        proof {
            assert(svs[i2 as int] == sorted@[i2 as int]@);
        }
        if sorted[i2].slot == 0 {
            has_zero = true;
        }
        i2 = i2 + 1;
    }
    let start: u8 = if has_zero {
        0
    } else {
        1
    };
    proof {
        assert(start as int == day_start_slot(svs));
    }
    let mut maxv: u8 = 0;
    let mut i3: usize = 0;
    while i3 < sorted.len()
        invariant
            0 <= i3 <= sorted@.len(),
            svs == seq_views(sorted@),
            maxv as int == max_slot(svs.subrange(0, i3 as int)),
        decreases sorted@.len() - i3,
    {
        proof {
            assert(svs.subrange(0, i3 + 1).drop_last() =~= svs.subrange(0, i3 as int));
            assert(svs.subrange(0, i3 + 1).last() == svs[i3 as int]);
            assert(svs[i3 as int] == sorted@[i3 as int]@);
        }
        let sl = sorted[i3].slot;
        if sl > maxv {
            maxv = sl;
        }
        i3 = i3 + 1;
    }
    proof {
        assert(svs.subrange(0, svs.len() as int) =~= svs);
        lemma_max_slot(svs);
        if start == 1 {
            assert(svs[0].slot as int <= max_slot(svs));
            assert(svs[0].slot != 0);
        }
    }
    let nrows = (maxv - start) as usize + 1;
    let mut ncols: usize = 0;
    let mut j: usize = 0;
    while j < kept.len()
        invariant
            0 <= j <= kept@.len(),
            ks == seq_views(kept@),
            ncols == col_dates(ks.subrange(0, j as int)).len(),
            ncols <= j,
        decreases kept@.len() - j,
    {
        proof {
            assert(ks[j as int] == kept@[j as int]@);
            assert(ks.subrange(0, j + 1).drop_last() =~= ks.subrange(0, j as int));
            assert(ks.subrange(0, j + 1).last() == ks[j as int]);
            if j > 0 {
                assert(ks.subrange(0, j + 1)[j - 1] == ks[j - 1]);
                assert(ks[j - 1] == kept@[j - 1]@);
            }
        }
        if j == 0 {
            ncols = 1;
        } else if !(kept[j].date == kept[j - 1].date) {
            ncols = ncols + 1;
        }
        j = j + 1;
    }
    proof {
        assert(ks.subrange(0, ks.len() as int) =~= ks);
    }
    let mut rows: Vec<Vec<Cell>> = Vec::new();
    let mut r: usize = 0;
    while r < nrows
        invariant
            0 <= r <= nrows,
            rows@.len() == r,
            ks == seq_views(kept@),
            all_wf(ks),
            now.wf(),
            ncols == col_dates(ks).len(),
            start as int + nrows == max_slot(svs) + 1,
            max_slot(svs) <= 255,
            opt_lesson_view(nxt) == spec_next(nf, now),
            forall|q: int|
                0 <= q < r ==> (#[trigger] rows@[q])@.len() == 1 + ncols,
            forall|q: int|
                0 <= q < r ==> row_views((#[trigger] rows@[q])@)[0] == (CellView {
                    text: dec_of(start as int + q),
                    status: LessonStatus::Normal,
                }),
            forall|q: int, c: int|
                0 <= q < r && 1 <= c < 1 + ncols ==> #[trigger] row_views((rows@[q])@)[c]
                    == spec_week_cell(ks, start as int + q, c - 1, opt_lesson_view(nxt), now),
        decreases nrows - r,
    {
        proof {
            assert(start as int + r < 256);
        }
        let slot_label = start + (r as u8);
        let mut row: Vec<Cell> = Vec::new();
        row.push(Cell { text: dec_u64(slot_label as u64), status: LessonStatus::Normal });
        let mut c: usize = 0;
        while c < ncols
            invariant
                0 <= c <= ncols,
                row@.len() == 1 + c,
                ks == seq_views(kept@),
                all_wf(ks),
                now.wf(),
                slot_label as int == start as int + r,
                row_views(row@)[0] == (CellView {
                    text: dec_of(slot_label as int),
                    status: LessonStatus::Normal,
                }),
                forall|q: int|
                    0 <= q < c ==> #[trigger] row_views(row@)[1 + q] == spec_week_cell(
                        ks,
                        slot_label as int,
                        q,
                        opt_lesson_view(nxt),
                        now,
                    ),
            decreases ncols - c,
        {
            let cell = week_cell_exec(&kept, slot_label, c, &nxt, now);
            let ghost row_before = row@;
            row.push(cell);
            proof {
                assert(row@[0] == row_before[0]);
                assert forall|q: int| 0 <= q < c + 1 implies #[trigger] row_views(row@)[1 + q]
                    == spec_week_cell(
                    ks,
                    slot_label as int,
                    q,
                    opt_lesson_view(nxt),
                    now,
                ) by {
                    if q < c {
                        assert(row@[1 + q] == row_before[1 + q]);
                        assert(row_views(row_before)[1 + q] == spec_week_cell(
                            ks,
                            slot_label as int,
                            q,
                            opt_lesson_view(nxt),
                            now,
                        ));
                    } else {
                        assert(row@[1 + q] == cell);
                    }
                }
            }
            c = c + 1;
        }
        let ghost rows_before = rows@;
        rows.push(row);
        proof {
            assert forall|q: int, c2: int|
                0 <= q < r + 1 && 1 <= c2 < 1 + ncols implies #[trigger] row_views((rows@[q])@)[c2]
                == spec_week_cell(ks, start as int + q, c2 - 1, opt_lesson_view(nxt), now) by {
                if q < r {
                    assert(rows@[q] == rows_before[q]);
                    assert(row_views((rows_before[q])@)[c2] == spec_week_cell(
                        ks,
                        start as int + q,
                        c2 - 1,
                        opt_lesson_view(nxt),
                        now,
                    ));
                } else {
                    assert(rows@[q] == row);
                    assert(row_views(row@)[1 + (c2 - 1)] == spec_week_cell(
                        ks,
                        slot_label as int,
                        c2 - 1,
                        opt_lesson_view(nxt),
                        now,
                    ));
                }
            }
            assert forall|q: int| 0 <= q < r + 1 implies row_views((#[trigger] rows@[q])@)[0]
                == (CellView {
                text: dec_of(start as int + q),
                status: LessonStatus::Normal,
            }) by {
                if q < r {
                    assert(rows@[q] == rows_before[q]);
                } else {
                    assert(rows@[q] == row);
                }
            }
        }
        r = r + 1;
    }
    Grid { header, rows }
}

} // verus!
