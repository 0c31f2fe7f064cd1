use rsfilc::AnnouncedTest;
use rsfilc::Date;
use rsfilc::Instant;
use rsfilc::Lesson;
use rsfilc::LessonStatus;
use rsfilc::build_day_grid;
use rsfilc::build_week_grid;
use rsfilc::disp;
use rsfilc::grid::normalised_room;

fn d(year: i32, month: u8, day: u8) -> Date {
    Date { year, month, day }
}

fn lesson(subject: &str, date: Date, slot: u8, start_minute: u16, end_minute: u16) -> Lesson {
    Lesson {
        subject: subject.to_string(),
        topic: None,
        date,
        slot,
        start_minute,
        end_minute,
        room: Some("304 terem".to_string()),
        teacher: Some("Kiss Anna".to_string()),
        substitute_teacher: None,
        cancelled: false,
        absent: false,
        placeholder: false,
        test_uid: None,
    }
}

fn at(date: Date, minute: u16) -> Instant {
    Instant { date, minute }
}

const MONDAY: Date = Date { year: 2024, month: 3, day: 11 };
const NEXT_MONDAY: Date = Date { year: 2024, month: 3, day: 18 };

#[test]
fn room_normalisation_strips_the_word() {
    assert_eq!(normalised_room("304 terem"), "304");
    assert_eq!(normalised_room("terem 12"), "12");
    assert_eq!(normalised_room("aula"), "aula");
    assert_eq!(normalised_room("  aula  "), "aula");
}

#[test]
fn day_grid_rows_span_observed_slots() {
    // slots 1 and 3 observed: rows for 1, 2 and 3
    let a = lesson("Matematika", MONDAY, 1, 8 * 60, 8 * 60 + 45);
    let b = lesson("Fizika", MONDAY, 3, 10 * 60, 10 * 60 + 45);
    let now = at(d(2024, 3, 12), 12 * 60);
    let g = build_day_grid(&vec![a, b], &Vec::new(), &Vec::new(), now);
    assert_eq!(g.rows.len(), 3);
    assert_eq!(g.rows[0][0].text, "1");
    assert_eq!(g.rows[1][0].text, "2");
    assert_eq!(g.rows[2][0].text, "3");
    assert_eq!(g.rows[0][2].text, "Matematika");
    assert_eq!(g.rows[2][2].text, "Fizika");
    // slot 2 is a synthesized gap row
    assert_eq!(g.rows[1][1].text, "");
    assert_eq!(g.rows[1][2].text, "");
    assert_eq!(g.rows[1][0].status, LessonStatus::Gap);
}

#[test]
fn day_grid_with_slot_zero_starts_at_zero() {
    let a = lesson("Matematika", MONDAY, 0, 7 * 60, 7 * 60 + 45);
    let b = lesson("Fizika", MONDAY, 2, 10 * 60, 10 * 60 + 45);
    let now = at(d(2024, 3, 12), 12 * 60);
    let g = build_day_grid(&vec![a, b], &Vec::new(), &Vec::new(), now);
    assert_eq!(g.rows.len(), 3);
    assert_eq!(g.rows[0][0].text, "0");
}

#[test]
fn gap_row_borrows_week_times() {
    let a = lesson("Matematika", MONDAY, 1, 8 * 60, 8 * 60 + 45);
    let b = lesson("Fizika", MONDAY, 3, 10 * 60, 10 * 60 + 45);
    let week_ref = lesson("Ének", d(2024, 3, 13), 2, 9 * 60, 9 * 60 + 45);
    let now = at(d(2024, 3, 12), 12 * 60);
    let g = build_day_grid(&vec![a, b], &vec![week_ref], &Vec::new(), now);
    assert_eq!(g.rows[1][1].text, "09:00 - 09:45");
}

#[test]
fn day_grid_is_empty_for_no_lessons() {
    let now = at(MONDAY, 8 * 60);
    let g = build_day_grid(&Vec::new(), &Vec::new(), &Vec::new(), now);
    assert!(g.rows.is_empty());
    assert_eq!(g.header.len(), 7);
}

#[test]
fn day_row_shows_rooms_teachers_and_tests() {
    let mut a = lesson("Matematika", MONDAY, 1, 8 * 60, 8 * 60 + 45);
    a.absent = true;
    let test = AnnouncedTest {
        slot: 1,
        topic: Some("törtek".to_string()),
        kind_desc: "dolgozat".to_string(),
    };
    let now = at(d(2024, 3, 12), 12 * 60);
    let g = build_day_grid(&vec![a], &Vec::new(), &vec![test], now);
    let row = &g.rows[0];
    assert_eq!(row[1].text, "08:00 - 08:45");
    assert_eq!(row[3].text, "304");
    assert_eq!(row[4].text, "Kiss Anna");
    assert_eq!(row[5].text, "hiányoztál");
    assert_eq!(row[5].status, LessonStatus::Absent);
    assert_eq!(row[6].text, "dolgozat: törtek");
    assert_eq!(row[6].status, LessonStatus::TestAnnounced);
}

#[test]
fn running_lesson_shows_minutes_remaining() {
    let a = lesson("Matematika", MONDAY, 1, 8 * 60, 8 * 60 + 45);
    let now = at(MONDAY, 8 * 60 + 15);
    let row = disp(&a, &None, None, now);
    assert_eq!(row[1].text, "08:00 - 30 perc");
    assert_eq!(row[1].status, LessonStatus::Happening);
}

#[test]
fn imminent_next_lesson_shows_minutes_to_start() {
    let a = lesson("Matematika", MONDAY, 1, 8 * 60, 8 * 60 + 45);
    let now = at(MONDAY, 7 * 60 + 30);
    let nxt = Some(a.duplicate());
    let row = disp(&a, &nxt, None, now);
    assert_eq!(row[1].text, "30 perc - 08:45");
}

#[test]
fn cancelled_lesson_is_annotated_in_tense() {
    let mut a = lesson("Matematika", MONDAY, 1, 8 * 60, 8 * 60 + 45);
    a.cancelled = true;
    let before = at(MONDAY, 7 * 60);
    let after = at(d(2024, 3, 12), 7 * 60);
    let ahead = disp(&a, &None, None, before);
    let past = disp(&a, &None, None, after);
    assert_eq!(ahead[2].text, "elmarad: Matematika");
    assert_eq!(past[2].text, "elmaradt: Matematika");
    assert_eq!(past[2].status, LessonStatus::Cancelled);
}

#[test]
fn week_grid_drops_the_far_monday() {
    // lessons on a Monday and on the Monday after it: the gap is beyond
    // two days, so the second Monday is discarded, not given a column
    let a = lesson("Matematika", MONDAY, 1, 8 * 60, 8 * 60 + 45);
    let b = lesson("Fizika", MONDAY, 2, 9 * 60, 9 * 60 + 45);
    let far = lesson("Kémia", NEXT_MONDAY, 1, 8 * 60, 8 * 60 + 45);
    let now = at(d(2024, 3, 12), 12 * 60);
    let g = build_week_grid(&vec![a, b, far], now);
    assert_eq!(g.rows.len(), 2);
    for row in &g.rows {
        assert_eq!(row.len(), 2);
    }
    assert_eq!(g.rows[0][1].text, "Matematika 304");
    assert_eq!(g.rows[1][1].text, "Fizika 304");
}

#[test]
fn week_grid_is_rectangular_across_days() {
    let a = lesson("Matematika", MONDAY, 1, 8 * 60, 8 * 60 + 45);
    let b = lesson("Fizika", d(2024, 3, 12), 2, 9 * 60, 9 * 60 + 45);
    let c = lesson("Kémia", d(2024, 3, 13), 1, 8 * 60, 8 * 60 + 45);
    let now = at(d(2024, 3, 14), 12 * 60);
    let g = build_week_grid(&vec![a, b, c], now);
    assert_eq!(g.rows.len(), 2);
    for row in &g.rows {
        assert_eq!(row.len(), 4);
    }
    assert_eq!(g.rows[0][1].text, "Matematika 304");
    assert_eq!(g.rows[1][2].text, "Fizika 304");
    assert_eq!(g.rows[0][3].text, "Kémia 304");
    assert_eq!(g.rows[1][3].text, "");
}

#[test]
fn week_grid_drops_placeholders_and_styles_cells() {
    let mut fake = lesson("Szünet", MONDAY, 1, 0, 0);
    fake.placeholder = true;
    let mut gone = lesson("Matematika", MONDAY, 1, 8 * 60, 8 * 60 + 45);
    gone.cancelled = true;
    let now = at(d(2024, 3, 12), 12 * 60);
    let g = build_week_grid(&vec![fake, gone], now);
    assert_eq!(g.rows.len(), 1);
    assert_eq!(g.rows[0][1].status, LessonStatus::Cancelled);
}

#[test]
fn later_record_wins_a_contested_slot() {
    let a = lesson("Matematika", MONDAY, 1, 8 * 60, 8 * 60 + 45);
    let b = lesson("Fizika", MONDAY, 1, 8 * 60, 8 * 60 + 45);
    let now = at(d(2024, 3, 12), 12 * 60);
    let day = build_day_grid(&vec![a.duplicate(), b.duplicate()], &Vec::new(), &Vec::new(), now);
    assert_eq!(day.rows.len(), 1);
    assert_eq!(day.rows[0][2].text, "Fizika");
    let week = build_week_grid(&vec![a, b], now);
    assert_eq!(week.rows[0][1].text, "Fizika 304");
}

#[test]
fn week_grid_of_placeholders_only_is_empty() {
    let mut fake = lesson("Szünet", MONDAY, 1, 0, 0);
    fake.placeholder = true;
    let now = at(MONDAY, 8 * 60);
    let g = build_week_grid(&vec![fake], now);
    assert!(g.rows.is_empty());
}
