//! The grade analytics engine: filtering evaluations and computing the
//! weighted average, including speculative ghost grades.

use vstd::prelude::*;

use crate::text::contains_str;
use crate::text::contains_sub;
use crate::text::lower_of;
use crate::text::lowercase;
use crate::timetable::lemma_filter_push;
use crate::timetable::opt_str_view;

verus! {

/// A weighted score the student received.
#[derive(Clone, Debug)]
pub struct Eval {
    /// Name of the subject the grade belongs to.
    pub subject: String,
    /// Free-text topic of the evaluation.
    pub topic: Option<String>,
    /// Description of the lesson mode the grade was given in.
    pub mode_desc: Option<String>,
    /// Description of the grade's type.
    pub kind_desc: String,
    /// The numeric value on the 1-5 scale, when the grade is numeric.
    pub value: Option<u8>,
    /// The free-text value, for grades that are not numeric.
    pub text_value: String,
    /// The teacher who gave the grade.
    pub teacher: Option<String>,
    /// Weight multiplier reflecting the grade's significance; a plain
    /// grade weighs 1, the unit a ghost grade always weighs.
    pub weight: u32,
    /// A year-end summary grade, kept out of running averages.
    pub year_end: bool,
    /// A semester summary grade, kept out of running averages.
    pub semester: bool,
}

/// The mathematical shadow of an [`Eval`].
#[verifier::ext_equal]
pub ghost struct EvalView {
    pub subject: Seq<char>,
    pub topic: Option<Seq<char>>,
    pub mode_desc: Option<Seq<char>>,
    pub kind_desc: Seq<char>,
    pub value: Option<u8>,
    pub text_value: Seq<char>,
    pub teacher: Option<Seq<char>>,
    pub weight: u32,
    pub year_end: bool,
    pub semester: bool,
}

impl View for Eval {
    type V = EvalView;

    open spec fn view(&self) -> EvalView {
        EvalView {
            subject: self.subject@,
            topic: opt_str_view(self.topic),
            mode_desc: opt_str_view(self.mode_desc),
            kind_desc: self.kind_desc@,
            value: self.value,
            text_value: self.text_value@,
            teacher: opt_str_view(self.teacher),
            weight: self.weight,
            year_end: self.year_end,
            semester: self.semester,
        }
    }
}

/// The views of a sequence of evaluations.
pub open spec fn eval_views(s: Seq<Eval>) -> Seq<EvalView> {
    s.map_values(|e: Eval| e@)
}

/// Copy an optional text.
fn clone_opt_string(o: &Option<String>) -> (r: Option<String>)
    ensures
        opt_str_view(r) == opt_str_view(*o),
{
    match o {
        Some(s) => Some(s.clone()),
        None => None,
    }
}

impl Eval {
    /// An exact copy of this evaluation.
    pub fn duplicate(&self) -> (r: Eval)
        ensures
            r@ == self@,
    {
        let r = Eval {
            subject: self.subject.clone(),
            topic: clone_opt_string(&self.topic),
            mode_desc: clone_opt_string(&self.mode_desc),
            kind_desc: self.kind_desc.clone(),
            value: self.value,
            text_value: self.text_value.clone(),
            teacher: clone_opt_string(&self.teacher),
            weight: self.weight,
            year_end: self.year_end,
            semester: self.semester,
        };
        proof {
            assert(r@ =~= self@);
        }
        r
    }
}

/// The kind-or-title filter keeps an evaluation whose lesson-mode
/// description, topic or grade-type description contains the (case-folded)
/// filter string.
pub open spec fn keep_by_kind(e: EvalView, f: Seq<char>) -> bool {
    ||| (e.mode_desc matches Some(m) && contains_sub(lower_of(m), lower_of(f)))
    ||| (e.topic matches Some(t) && contains_sub(lower_of(t), lower_of(f)))
    ||| contains_sub(lower_of(e.kind_desc), lower_of(f))
}

/// The kind-or-title test as a one-place predicate over views.
pub open spec fn keep_by_kind_pred(f: Seq<char>) -> spec_fn(EvalView) -> bool {
    |e: EvalView| keep_by_kind(e, f)
}

/// The subject filter keeps an evaluation whose subject name contains the
/// (case-folded) filter string.
pub open spec fn keep_by_subject(e: EvalView, f: Seq<char>) -> bool {
    contains_sub(lower_of(e.subject), lower_of(f))
}

/// The subject test as a one-place predicate over views.
pub open spec fn keep_by_subject_pred(f: Seq<char>) -> spec_fn(EvalView) -> bool {
    |e: EvalView| keep_by_subject(e, f)
}

/// Keep only the evaluations whose mode, topic or type description
/// matches `filter`, case-insensitively.
pub fn filter_by_kind_or_title(evals: &mut Vec<Eval>, filter: &str)
    ensures
        eval_views(final(evals)@) == eval_views(old(evals)@).filter(
            keep_by_kind_pred(filter@),
        ),
{
    let ghost pred = keep_by_kind_pred(filter@);
    let fl = lowercase(filter);
    let mut out: Vec<Eval> = Vec::new();
    let mut i: usize = 0;
    proof {
        assert(eval_views(evals@.subrange(0, 0)) =~= Seq::<EvalView>::empty());
        reveal(Seq::filter);
        assert(eval_views(out@) =~= Seq::<EvalView>::empty().filter(pred));
    }
    while i < evals.len()
        invariant
            0 <= i <= evals@.len(),
            pred == keep_by_kind_pred(filter@),
            fl@ == lower_of(filter@),
            eval_views(out@) == eval_views(evals@.subrange(0, i as int)).filter(pred),
        decreases evals@.len() - i,
    {
        let ghost prefix = evals@.subrange(0, i as int);
        let ghost prefix1 = evals@.subrange(0, i + 1);
        let ghost before = out@;
        let e = &evals[i];
        let mode_hit = match &e.mode_desc {
            Some(m) => {
                let low = lowercase(m.as_str());
                contains_str(low.as_str(), fl.as_str())
            },
            None => false,
        };
        let topic_hit = match &e.topic {
            Some(t) => {
                let low = lowercase(t.as_str());
                contains_str(low.as_str(), fl.as_str())
            },
            None => false,
        };
        let kind_low = lowercase(e.kind_desc.as_str());
        let kind_hit = contains_str(kind_low.as_str(), fl.as_str());
        if mode_hit || topic_hit || kind_hit {
            out.push(e.duplicate());
            proof {
                assert(eval_views(out@) =~= eval_views(before).push(evals@[i as int]@));
            }
        }
        proof {
            assert(eval_views(prefix1) =~= eval_views(prefix).push(evals@[i as int]@));
            lemma_filter_push::<EvalView>(eval_views(prefix), pred, evals@[i as int]@);
        }
        i = i + 1;
    }
    proof {
        assert(evals@.subrange(0, evals@.len() as int) =~= evals@);
    }
    *evals = out;
}

/// Keep only the evaluations whose subject name matches `subj`,
/// case-insensitively.
pub fn filter_by_subject(evals: &mut Vec<Eval>, subj: &str)
    ensures
        eval_views(final(evals)@) == eval_views(old(evals)@).filter(
            keep_by_subject_pred(subj@),
        ),
{
    let ghost pred = keep_by_subject_pred(subj@);
    let mut out: Vec<Eval> = Vec::new();
    let mut i: usize = 0;
    proof {
        assert(eval_views(evals@.subrange(0, 0)) =~= Seq::<EvalView>::empty());
        reveal(Seq::filter);
        assert(eval_views(out@) =~= Seq::<EvalView>::empty().filter(pred));
    }
    while i < evals.len()
        invariant
            0 <= i <= evals@.len(),
            pred == keep_by_subject_pred(subj@),
            eval_views(out@) == eval_views(evals@.subrange(0, i as int)).filter(pred),
        decreases evals@.len() - i,
    {
        let ghost prefix = evals@.subrange(0, i as int);
        let ghost prefix1 = evals@.subrange(0, i + 1);
        let ghost before = out@;
        let e = &evals[i];
        let subj_low = lowercase(subj);
        let name_low = lowercase(e.subject.as_str());
        if contains_str(name_low.as_str(), subj_low.as_str()) {
            out.push(e.duplicate());
            proof {
                assert(eval_views(out@) =~= eval_views(before).push(evals@[i as int]@));
            }
        }
        proof {
            assert(eval_views(prefix1) =~= eval_views(prefix).push(evals@[i as int]@));
            lemma_filter_push::<EvalView>(eval_views(prefix), pred, evals@[i as int]@);
        }
        i = i + 1;
    }
    proof {
        assert(evals@.subrange(0, evals@.len() as int) =~= evals@);
    }
    *evals = out;
}

proof fn lemma_filter_commutes<A>(s: Seq<A>, p: spec_fn(A) -> bool, q: spec_fn(A) -> bool)
    ensures
        s.filter(p).filter(q) == s.filter(q).filter(p),
    decreases s.len(),
{
    reveal(Seq::filter);
    if s.len() > 0 {
        let dl = s.drop_last();
        lemma_filter_commutes(dl, p, q);
        lemma_filter_push(dl.filter(p), q, s.last());
        lemma_filter_push(dl.filter(q), p, s.last());
    }
}

/// The two filter passes are independent and order-insensitive: keeping
/// the evaluations matching a kind and then those matching a subject
/// keeps exactly the evaluations that the passes keep in the other order.
pub proof fn lemma_filters_commute(s: Seq<EvalView>, kind: Seq<char>, subj: Seq<char>)
    ensures
        s.filter(keep_by_kind_pred(kind)).filter(keep_by_subject_pred(subj)) == s.filter(
            keep_by_subject_pred(subj),
        ).filter(keep_by_kind_pred(kind)),
{
    lemma_filter_commutes(s, keep_by_kind_pred(kind), keep_by_subject_pred(subj));
}

/// The display row of one evaluation: topic, grade (the numeric value
/// when there is one, else the text value), subject, lesson-mode
/// description and teacher.
pub open spec fn spec_eval_row(e: EvalView) -> Seq<Seq<char>> {
    seq![
        match e.topic {
            Some(t) => t,
            None => Seq::<char>::empty(),
        },
        match e.value {
            Some(v) => crate::text::dec_of(v as int),
            None => e.text_value,
        },
        e.subject,
        match e.mode_desc {
            Some(m) => m,
            None => Seq::<char>::empty(),
        },
        match e.teacher {
            Some(t) => t,
            None => Seq::<char>::empty(),
        },
    ]
}

/// Build the display row of one evaluation.
pub fn eval_row(e: &Eval) -> (r: Vec<String>)
    ensures
        crate::grid::strs_views(r@) == spec_eval_row(e@),
{
    let mut row: Vec<String> = Vec::new();
    row.push(
        match &e.topic {
            Some(t) => t.clone(),
            None => String::new(),
        },
    );
    row.push(
        match e.value {
            Some(v) => crate::text::dec_u64(v as u64),
            None => e.text_value.clone(),
        },
    );
    row.push(e.subject.clone());
    row.push(
        match &e.mode_desc {
            Some(m) => m.clone(),
            None => String::new(),
        },
    );
    row.push(
        match &e.teacher {
            Some(t) => t.clone(),
            None => String::new(),
        },
    );
    proof {
        assert(crate::grid::strs_views(row@) =~~= spec_eval_row(e@));
    }
    row
}

/// An average was requested of no eligible evaluation and no valid ghost
/// grade: there is nothing to divide by.
#[derive(Clone, Copy, PartialEq, Eq, Structural, Debug)]
pub struct EmptyAverageError;

/// An exact weighted average, kept as the ratio of the weighted sum to
/// the weighted count; the caller divides (or rounds) as it pleases.
#[derive(Clone, Copy, PartialEq, Eq, Structural, Debug)]
pub struct Average {
    /// The weighted sum of the grade values.
    pub num: u128,
    /// The sum of the weights.
    pub den: u128,
}

/// An evaluation that counts towards the running average: not a year-end
/// or semester summary, and numeric.
pub open spec fn eligible(e: EvalView) -> bool {
    !e.year_end && !e.semester && e.value is Some
}

/// What the evaluation adds to the weighted sum.
pub open spec fn eval_term(e: EvalView) -> int {
    if e.year_end || e.semester {
        0
    } else {
        match e.value {
            Some(v) => v as int * e.weight as int,
            None => 0,
        }
    }
}

/// What the evaluation adds to the weighted count.
pub open spec fn count_term(e: EvalView) -> int {
    if eligible(e) {
        e.weight as int
    } else {
        0
    }
}

/// The weighted sum of a sequence of evaluations.
pub open spec fn wsum(s: Seq<EvalView>) -> int
    decreases s.len(),
{
    if s.len() == 0 {
        0
    } else {
        wsum(s.drop_last()) + eval_term(s.last())
    }
}

/// The weighted count of a sequence of evaluations.
pub open spec fn wcount(s: Seq<EvalView>) -> int
    decreases s.len(),
{
    if s.len() == 0 {
        0
    } else {
        wcount(s.drop_last()) + count_term(s.last())
    }
}

/// A ghost grade is taken into account only when it lies on the 1-5
/// scale; anything else is silently dropped.
pub open spec fn ghost_ok(g: u8) -> bool {
    1 <= g <= 5
}

/// The sum of the valid ghost grades.
pub open spec fn gsum(s: Seq<u8>) -> int
    decreases s.len(),
{
    if s.len() == 0 {
        0
    } else {
        gsum(s.drop_last()) + if ghost_ok(s.last()) {
            s.last() as int
        } else {
            0
        }
    }
}

/// How many ghost grades are valid; each weighs 1.
pub open spec fn gcount(s: Seq<u8>) -> int
    decreases s.len(),
{
    if s.len() == 0 {
        0
    } else {
        gcount(s.drop_last()) + if ghost_ok(s.last()) {
            1int
        } else {
            0int
        }
    }
}

proof fn lemma_wsum_bounds(s: Seq<EvalView>)
    ensures
        0 <= wsum(s) <= s.len() * 0x100_0000_0000,
        0 <= wcount(s) <= s.len() * 0x1_0000_0000,
    decreases s.len(),
{
    if s.len() > 0 {
        lemma_wsum_bounds(s.drop_last());
        assert(eval_term(s.last()) <= 0xff * 0xffff_ffff) by {
            match s.last().value {
                Some(v) => {
                    assert(v as int <= 0xff);
                    assert(s.last().weight as int <= 0xffff_ffff);
                    assert(v as int * s.last().weight as int <= 0xff * 0xffff_ffff)
                        by (nonlinear_arith)
                        requires
                            v as int <= 0xff,
                            0 <= v as int,
                            0 <= s.last().weight as int <= 0xffff_ffff,
                    ;
                },
                None => {},
            }
        }
    }
}

proof fn lemma_gsum_bounds(s: Seq<u8>)
    ensures
        0 <= gsum(s) <= s.len() * 5,
        0 <= gcount(s) <= s.len(),
    decreases s.len(),
{
    if s.len() > 0 {
        lemma_gsum_bounds(s.drop_last());
    }
}

/// The weighted average of the eligible evaluations and the valid ghost
/// grades, as an exact ratio.  Summary grades and non-numeric grades are
/// left out; each valid ghost adds its value with weight 1.  When nothing
/// remains to weigh, the request is an error, not a division by zero.
pub fn calc_average(evals: &Vec<Eval>, ghosts: &Vec<u8>) -> (r: Result<Average, EmptyAverageError>)
    ensures
        ({
            let num = wsum(eval_views(evals@)) + gsum(ghosts@);
            let den = wcount(eval_views(evals@)) + gcount(ghosts@);
            &&& den == 0 ==> r == Err::<Average, EmptyAverageError>(EmptyAverageError)
            &&& den != 0 ==> r == Ok::<Average, EmptyAverageError>(
                Average { num: num as u128, den: den as u128 },
            )
        }),
{
    let ghost all = eval_views(evals@);
    let mut num: u128 = 0;
    let mut den: u128 = 0;
    let mut i: usize = 0;
    proof {
        assert(eval_views(evals@.subrange(0, 0)) =~= Seq::<EvalView>::empty());
    }
    while i < evals.len()
        invariant
            0 <= i <= evals@.len(),
            all == eval_views(evals@),
            num == wsum(eval_views(evals@.subrange(0, i as int))),
            den == wcount(eval_views(evals@.subrange(0, i as int))),
        decreases evals@.len() - i,
    {
        let ghost prefix = eval_views(evals@.subrange(0, i as int));
        let ghost prefix1 = eval_views(evals@.subrange(0, i + 1));
        proof {
            lemma_wsum_bounds(prefix);
            assert(prefix1.drop_last() =~= prefix);
            assert(prefix1.last() == evals@[i as int]@);
        }
        let e = &evals[i];
        if !e.year_end && !e.semester {
            match e.value {
                Some(v) => {
                    proof {
                        assert(v as int * e.weight as int <= 0xff * 0xffff_ffff)
                            by (nonlinear_arith)
                            requires
                                0 <= v as int <= 0xff,
                                0 <= e.weight as int <= 0xffff_ffff,
                        ;
                    }
                    num = num + (v as u128) * (e.weight as u128);
                    den = den + (e.weight as u128);
                },
                None => {},
            }
        }
        i = i + 1;
    }
    proof {
        assert(evals@.subrange(0, evals@.len() as int) =~= evals@);
        lemma_wsum_bounds(all);
    }
    let elen = evals.len();
    let mut j: usize = 0;
    while j < ghosts.len()
        invariant
            0 <= j <= ghosts@.len(),
            all == eval_views(evals@),
            elen == evals@.len(),
            num == wsum(all) + gsum(ghosts@.subrange(0, j as int)),
            den == wcount(all) + gcount(ghosts@.subrange(0, j as int)),
        decreases ghosts@.len() - j,
    {
        let ghost gpre = ghosts@.subrange(0, j as int);
        let ghost gpre1 = ghosts@.subrange(0, j + 1);
        proof {
            lemma_wsum_bounds(all);
            lemma_gsum_bounds(gpre);
            assert(gpre1.drop_last() =~= gpre);
            assert(gpre1.last() == ghosts@[j as int]);
        }
        let g = ghosts[j];
        if 1 <= g && g <= 5 {
            num = num + (g as u128);
            den = den + 1;
        }
        j = j + 1;
    }
    proof {
        assert(ghosts@.subrange(0, ghosts@.len() as int) =~= ghosts@);
    }
    if den == 0 {
        Err(EmptyAverageError)
    } else {
        Ok(Average { num, den })
    }
}

} // verus!
