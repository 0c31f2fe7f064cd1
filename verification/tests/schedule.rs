use rsfilc::Date;
use rsfilc::Instant;
use rsfilc::Lesson;
use rsfilc::LessonStatus;
use rsfilc::current_lessons;
use rsfilc::next_lesson;
use rsfilc::suitable_day;
use rsfilc::timetable::lesson_status;

fn d(year: i32, month: u8, day: u8) -> Date {
    Date { year, month, day }
}

fn lesson(subject: &str, date: Date, slot: u8, start_minute: u16, end_minute: u16) -> Lesson {
    Lesson {
        subject: subject.to_string(),
        topic: None,
        date,
        slot,
        start_minute,
        end_minute,
        room: None,
        teacher: Some("Kiss Anna".to_string()),
        substitute_teacher: None,
        cancelled: false,
        absent: false,
        placeholder: false,
        test_uid: None,
    }
}

fn at(date: Date, minute: u16) -> Instant {
    Instant { date, minute }
}

const MONDAY: Date = Date { year: 2024, month: 3, day: 11 };

#[test]
fn current_lessons_of_nothing_is_empty() {
    let now = at(MONDAY, 9 * 60);
    let out = current_lessons(&Vec::new(), now);
    assert!(out.is_empty());
}

#[test]
fn overlapping_lessons_are_all_current() {
    let a = lesson("Matematika", MONDAY, 1, 8 * 60, 9 * 60);
    let b = lesson("Fizika", MONDAY, 2, 8 * 60 + 30, 9 * 60 + 30);
    let c = lesson("Kémia", MONDAY, 3, 10 * 60, 11 * 60);
    let now = at(MONDAY, 8 * 60 + 45);
    let out = current_lessons(&vec![a, b, c], now);
    assert_eq!(out.len(), 2);
    assert_eq!(out[0].subject, "Matematika");
    assert_eq!(out[1].subject, "Fizika");
}

#[test]
fn no_next_while_something_is_running() {
    let running = lesson("Matematika", MONDAY, 1, 8 * 60, 9 * 60);
    let later = lesson("Fizika", MONDAY, 2, 10 * 60, 11 * 60);
    let now = at(MONDAY, 8 * 60 + 30);
    assert!(next_lesson(&vec![running, later], now).is_none());
}

#[test]
fn next_skips_cancelled_and_placeholder() {
    let mut gone = lesson("Elmaradt", MONDAY, 1, 9 * 60, 10 * 60);
    gone.cancelled = true;
    let mut fake = lesson("Szünet", MONDAY, 2, 10 * 60, 10 * 60);
    fake.placeholder = true;
    let real = lesson("Fizika", MONDAY, 3, 11 * 60, 12 * 60);
    let now = at(MONDAY, 8 * 60);
    let nxt = next_lesson(&vec![gone, fake, real], now).unwrap();
    assert_eq!(nxt.subject, "Fizika");
}

#[test]
fn next_is_none_without_candidates() {
    let past = lesson("Matematika", MONDAY, 1, 7 * 60, 7 * 60 + 45);
    let now = at(MONDAY, 20 * 60);
    assert!(next_lesson(&vec![past], now).is_none());
}

#[test]
fn suitable_day_finds_first_attendable() {
    let mut gone = lesson("Elmaradt", MONDAY, 1, 9 * 60, 10 * 60);
    gone.cancelled = true;
    let tuesday = d(2024, 3, 12);
    let real = lesson("Fizika", tuesday, 1, 8 * 60, 9 * 60);
    let now = at(MONDAY, 8 * 60);
    assert_eq!(suitable_day(&vec![gone, real], now), Some(tuesday));
}

#[test]
fn suitable_day_of_a_spent_week_is_none() {
    let past = lesson("Matematika", MONDAY, 1, 8 * 60, 9 * 60);
    let now = at(d(2024, 3, 16), 12 * 60);
    assert_eq!(suitable_day(&vec![past], now), None);
    assert_eq!(suitable_day(&Vec::new(), now), None);
}

#[test]
fn cancelled_outranks_absent() {
    let mut l = lesson("Matematika", MONDAY, 1, 8 * 60, 9 * 60);
    l.cancelled = true;
    l.absent = true;
    let now = at(d(2024, 3, 12), 10 * 60);
    assert_eq!(lesson_status(&l, &None, now), LessonStatus::Cancelled);
}

#[test]
fn happening_outranks_everything() {
    let mut l = lesson("Matematika", MONDAY, 1, 8 * 60, 9 * 60);
    l.cancelled = true;
    l.absent = true;
    let now = at(MONDAY, 8 * 60 + 10);
    assert_eq!(lesson_status(&l, &None, now), LessonStatus::Happening);
}

#[test]
fn imminent_next_lesson_is_upcoming() {
    let l = lesson("Matematika", MONDAY, 1, 8 * 60, 9 * 60);
    let now = at(MONDAY, 7 * 60);
    let nxt = Some(l.duplicate());
    assert_eq!(lesson_status(&l, &nxt, now), LessonStatus::UpcomingSoon);
    // more than a day ahead it is not marked
    let early = at(d(2024, 3, 9), 8 * 60);
    assert_eq!(lesson_status(&l, &nxt, early), LessonStatus::Normal);
}

#[test]
fn remaining_statuses_follow_precedence() {
    let now = at(d(2024, 3, 12), 10 * 60);
    let mut l = lesson("Matematika", MONDAY, 1, 8 * 60, 9 * 60);
    l.absent = true;
    l.substitute_teacher = Some("Nagy Pál".to_string());
    l.test_uid = Some("t1".to_string());
    assert_eq!(lesson_status(&l, &None, now), LessonStatus::Absent);
    l.absent = false;
    assert_eq!(lesson_status(&l, &None, now), LessonStatus::Substituted);
    l.substitute_teacher = None;
    assert_eq!(lesson_status(&l, &None, now), LessonStatus::TestAnnounced);
    l.test_uid = None;
    assert_eq!(lesson_status(&l, &None, now), LessonStatus::Normal);
}
