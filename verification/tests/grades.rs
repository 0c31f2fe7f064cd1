use rsfilc::Average;
use rsfilc::EmptyAverageError;
use rsfilc::Eval;
use rsfilc::calc_average;
use rsfilc::eval_row;
use rsfilc::filter_by_kind_or_title;
use rsfilc::filter_by_subject;

fn graded(subject: &str, value: u8, weight: u32) -> Eval {
    Eval {
        subject: subject.to_string(),
        topic: None,
        mode_desc: None,
        kind_desc: "évközi jegy/értékelés".to_string(),
        value: Some(value),
        text_value: String::new(),
        teacher: Some("Kiss Anna".to_string()),
        weight,
        year_end: false,
        semester: false,
    }
}

#[test]
fn weighted_average_is_exact() {
    let evals = vec![graded("Matematika", 5, 2), graded("Matematika", 3, 1)];
    let avg = calc_average(&evals, &Vec::new()).unwrap();
    assert_eq!(avg, Average { num: 13, den: 3 });
}

#[test]
fn ghost_grade_counts_with_weight_one() {
    let evals = vec![graded("Matematika", 5, 2), graded("Matematika", 3, 1)];
    let avg = calc_average(&evals, &vec![4]).unwrap();
    assert_eq!(avg, Average { num: 17, den: 4 });
}

#[test]
fn out_of_scale_ghost_is_ignored() {
    let evals = vec![graded("Matematika", 5, 2), graded("Matematika", 3, 1)];
    let avg = calc_average(&evals, &vec![7]).unwrap();
    assert_eq!(avg, Average { num: 13, den: 3 });
    let zero = calc_average(&evals, &vec![0]).unwrap();
    assert_eq!(zero, Average { num: 13, den: 3 });
}

#[test]
fn summary_grades_stay_out_of_the_average() {
    let mut year_end = graded("Matematika", 5, 1);
    year_end.year_end = true;
    let mut half = graded("Matematika", 2, 1);
    half.semester = true;
    let evals = vec![year_end, half, graded("Matematika", 4, 1)];
    let avg = calc_average(&evals, &Vec::new()).unwrap();
    assert_eq!(avg, Average { num: 4, den: 1 });
}

#[test]
fn text_grades_do_not_count() {
    let mut text = graded("Magatartás", 0, 1);
    text.value = None;
    text.text_value = "Példás".to_string();
    let avg = calc_average(&vec![text.clone(), graded("Magatartás", 5, 1)], &Vec::new()).unwrap();
    assert_eq!(avg, Average { num: 5, den: 1 });
    assert_eq!(calc_average(&vec![text], &Vec::new()), Err(EmptyAverageError));
}

#[test]
fn empty_average_is_an_error() {
    assert_eq!(calc_average(&Vec::new(), &Vec::new()), Err(EmptyAverageError));
    // invalid ghosts alone do not rescue it
    assert_eq!(calc_average(&Vec::new(), &vec![0, 9]), Err(EmptyAverageError));
    // valid ghosts alone do
    assert_eq!(calc_average(&Vec::new(), &vec![5, 4]), Ok(Average { num: 9, den: 2 }));
}

#[test]
fn subject_filter_matches_case_insensitively() {
    let mut evals = vec![
        graded("Matematika", 5, 1),
        graded("Irodalom", 4, 1),
        graded("MATEMATIKA", 3, 1),
    ];
    filter_by_subject(&mut evals, "mat");
    assert_eq!(evals.len(), 2);
    assert_eq!(evals[0].subject, "Matematika");
    assert_eq!(evals[1].subject, "MATEMATIKA");
}

#[test]
fn subject_filter_can_empty_the_list() {
    let mut evals = vec![graded("Irodalom", 4, 1)];
    filter_by_subject(&mut evals, "mat");
    assert!(evals.is_empty());
}

#[test]
fn kind_filter_looks_at_mode_topic_and_kind() {
    let mut by_mode = graded("Matematika", 5, 1);
    by_mode.mode_desc = Some("Írásbeli dolgozat".to_string());
    let mut by_topic = graded("Fizika", 4, 1);
    by_topic.topic = Some("Dolgozat a törtekről".to_string());
    let mut by_kind = graded("Kémia", 3, 1);
    by_kind.kind_desc = "DOLGOZAT".to_string();
    let other = graded("Ének", 2, 1);
    let mut evals = vec![by_mode, by_topic, by_kind, other];
    filter_by_kind_or_title(&mut evals, "dolgozat");
    assert_eq!(evals.len(), 3);
    assert_eq!(evals[0].subject, "Matematika");
    assert_eq!(evals[1].subject, "Fizika");
    assert_eq!(evals[2].subject, "Kémia");
}

#[test]
fn eval_rows_show_grade_or_text() {
    let mut e = graded("Matematika", 5, 1);
    e.topic = Some("törtek".to_string());
    e.mode_desc = Some("írásbeli".to_string());
    assert_eq!(eval_row(&e), vec!["törtek", "5", "Matematika", "írásbeli", "Kiss Anna"]);
    e.value = None;
    e.text_value = "Példás".to_string();
    assert_eq!(eval_row(&e)[1], "Példás");
}

#[test]
fn filters_compose_in_any_order() {
    let make = || {
        let mut a = graded("Matematika", 5, 1);
        a.kind_desc = "dolgozat".to_string();
        let mut b = graded("Matematika", 4, 1);
        b.kind_desc = "szóbeli felelet".to_string();
        let mut c = graded("Irodalom", 3, 1);
        c.kind_desc = "dolgozat".to_string();
        vec![a, b, c]
    };
    let mut one = make();
    filter_by_subject(&mut one, "mat");
    filter_by_kind_or_title(&mut one, "dolgozat");
    let mut two = make();
    filter_by_kind_or_title(&mut two, "dolgozat");
    filter_by_subject(&mut two, "mat");
    assert_eq!(one.len(), 1);
    assert_eq!(two.len(), 1);
    assert_eq!(one[0].subject, two[0].subject);
    assert_eq!(one[0].value, two[0].value);
}
