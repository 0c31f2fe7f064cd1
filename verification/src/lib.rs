//! Verified core of a school-records terminal client: calendar-day
//! resolution, schedule classification, display-grid composition and
//! weighted grade averaging.
//!
//! Network fetching, caching, configuration and rendering are external
//! collaborators; this crate holds the transformation logic, with its
//! behaviour stated in contracts and proved.

use vstd::prelude::*;

pub mod dates;
pub mod evals;
pub mod grid;
pub mod text;
pub mod timetable;

pub use dates::Date;
pub use dates::ParseError;
pub use dates::parse_day;
pub use evals::Average;
pub use evals::EmptyAverageError;
pub use evals::Eval;
pub use evals::calc_average;
pub use evals::eval_row;
pub use evals::filter_by_kind_or_title;
pub use evals::filter_by_subject;
pub use grid::Cell;
pub use grid::Grid;
pub use grid::build_day_grid;
pub use grid::build_week_grid;
pub use grid::disp;
pub use timetable::AnnouncedTest;
pub use timetable::Instant;
pub use timetable::Lesson;
pub use timetable::LessonStatus;
pub use timetable::current_lessons;
pub use timetable::next_lesson;
pub use timetable::suitable_day;

verus! {

} // verus!
