use vstd::prelude::*;
use vstd::string::StringExecFns;
use crate::keyed::{has_key, lookup};
use crate::store::{GradeEntries, GradingSystem};

verus! {

/// The character of the decimal digit `d`.
pub open spec fn digit_char(d: int) -> char {
    seq!['0', '1', '2', '3', '4', '5', '6', '7', '8', '9'][d]
}

/// The decimal digits of `n`, without leading zeros.
pub open spec fn decimal(n: nat) -> Seq<char>
    decreases n,
{
    if n < 10 {
        seq![digit_char(n as int)]
    } else {
        decimal(n / 10).push(digit_char((n % 10) as int))
    }
}

/// The digits after the decimal point of `f` hundredths, trailing zeros
/// dropped, with the point itself; empty when `f` is zero.
pub open spec fn fraction_text(f: int) -> Seq<char> {
    if f == 0 {
        Seq::empty()
    } else if f % 10 == 0 {
        seq!['.', digit_char(f / 10)]
    } else {
        seq!['.', digit_char(f / 10), digit_char(f % 10)]
    }
}

/// A grade of `g` hundredths written as a decimal number: `8850` is `88.5`,
/// `9000` is `90`, `-25` is `-0.25`.
pub open spec fn grade_text(g: i32) -> Seq<char> {
    let a: int = if g < 0 { -g } else { g as int };
    let sign: Seq<char> = if g < 0 { seq!['-'] } else { Seq::empty() };
    sign + decimal((a / 100) as nat) + fraction_text(a % 100)
}

/// The report line of one grade: `Subject: <subject>, Grade: <grade>`.
pub open spec fn grade_line(e: (Seq<char>, i32)) -> Seq<char> {
    "Subject: "@ + e.0 + ", Grade: "@ + grade_text(e.1) + "\n"@
}

/// `piece` occurs in `t` as a contiguous part.
pub open spec fn contains_text(t: Seq<char>, piece: Seq<char>) -> bool {
    exists|p: int| 0 <= p && p + piece.len() <= t.len() && #[trigger] t.subrange(p, p + piece.len()) == piece
}

/// One line per grade, in the order of the grades.
pub open spec fn report_lines(g: GradeEntries) -> Seq<char>
    decreases g.len(),
{
    if g.len() == 0 {
        Seq::empty()
    } else {
        report_lines(g.drop_last()) + grade_line(g.last())
    }
}

/// The grade report of the student `name` with grades `g`.
pub open spec fn report_text(name: Seq<char>, g: GradeEntries) -> Seq<char> {
    "Grade Report for "@ + name + "\n"@ + report_lines(g)
}

proof fn lemma_lines_contain(g: GradeEntries, i: int)
    requires
        0 <= i < g.len(),
    ensures
        contains_text(report_lines(g), grade_line(g[i])),
    decreases g.len(),
{
    let d = g.drop_last();
    let piece = grade_line(g[i]);
    let t = report_lines(g);
    if i == g.len() - 1 {
        let p = report_lines(d).len() as int;
        assert(t.subrange(p, p + piece.len()) =~= piece);
    } else {
        lemma_lines_contain(d, i);
        assert(d[i] == g[i]);
        let p = choose|p: int| 0 <= p && p + piece.len() <= report_lines(d).len()
            && #[trigger] report_lines(d).subrange(p, p + piece.len()) == piece;
        assert(t.subrange(p, p + piece.len()) =~= report_lines(d).subrange(p, p + piece.len()));
    }
}

/// A grade report starts with a header that names the student and holds the
/// line of every one of the student's grades, whatever their order.
pub proof fn report_names_student_and_lists_every_grade(name: Seq<char>, g: GradeEntries)
    ensures
        ("Grade Report for "@ + name).is_prefix_of(report_text(name, g)),
        forall|i: int| 0 <= i < g.len() ==> contains_text(report_text(name, g), #[trigger] grade_line(g[i])),
{
    let head = "Grade Report for "@ + name + "\n"@;
    let t = report_text(name, g);
    let h = "Grade Report for "@ + name;
    assert(t.subrange(0, h.len() as int) =~= h);
    assert forall|i: int| 0 <= i < g.len() implies contains_text(t, #[trigger] grade_line(g[i])) by {
        lemma_lines_contain(g, i);
        let piece = grade_line(g[i]);
        let p = choose|p: int| 0 <= p && p + piece.len() <= report_lines(g).len()
            && #[trigger] report_lines(g).subrange(p, p + piece.len()) == piece;
        let q = p + head.len();
        assert(t.subrange(q, q + piece.len()) =~= piece);
    }
}

/// The text of the decimal digit `d`.
fn digit_str(d: u32) -> (r: &'static str)
    requires
        d < 10,
    ensures
        r@ == seq![digit_char(d as int)],
{
    proof {
        reveal_strlit("0");
        reveal_strlit("1");
        reveal_strlit("2");
        reveal_strlit("3");
        reveal_strlit("4");
        reveal_strlit("5");
        reveal_strlit("6");
        reveal_strlit("7");
        reveal_strlit("8");
        reveal_strlit("9");
    }
    let r = if d == 0 {
        "0"
    } else if d == 1 {
        "1"
    } else if d == 2 {
        "2"
    } else if d == 3 {
        "3"
    } else if d == 4 {
        "4"
    } else if d == 5 {
        "5"
    } else if d == 6 {
        "6"
    } else if d == 7 {
        "7"
    } else if d == 8 {
        "8"
    } else {
        "9"
    };
    assert(r@ =~= seq![digit_char(d as int)]);
    r
}

/// Appends the decimal digits of `n` to `out`.
fn push_decimal(out: &mut String, n: u32)
    ensures
        final(out)@ == old(out)@ + decimal(n as nat),
    decreases n,
{
    if n >= 10 {
        push_decimal(out, n / 10);
    }
    out.append(digit_str(n % 10));
    assert(final(out)@ =~= old(out)@ + decimal(n as nat));
}

/// Appends the text of a grade of `g` hundredths to `out`.
pub fn push_grade(out: &mut String, g: i32)
    ensures
        final(out)@ == old(out)@ + grade_text(g),
{
    let a: u32 = if g < 0 {
        out.append("-");
        (-(g as i64)) as u32
    } else {
        g as u32
    };
    proof { reveal_strlit("-"); reveal_strlit("."); }
    push_decimal(out, a / 100);
    let f = a % 100;
    if f != 0 {
        out.append(".");
        out.append(digit_str(f / 10));
        if f % 10 != 0 {
            out.append(digit_str(f % 10));
        }
    }
    assert(final(out)@ =~= old(out)@ + grade_text(g));
}

impl GradingSystem {
    /// The grade report of the student `student_name`: a header line with the
    /// name, then one line per grade. `None` when no such student is
    /// registered.
    pub fn generate_grade_report(&self, student_name: &str) -> (r: Option<String>)
        requires
            self.well_formed(),
        ensures
            r is None <==> !has_key(self@.students, student_name@),
            r matches Some(t) ==> (lookup(self@.students, student_name@) matches Some(g)
                && t@ == report_text(student_name@, g)),
    {
        match self.student(student_name) {
            None => None,
            Some(st) => {
                let ghost g = st@.1;
                let mut out = String::new();
                out.append("Grade Report for ");
                out.append(st.name.as_str());
                out.append("\n");
                let ghost head = out@;
                let mut i: usize = 0;
                while i < st.grades.len()
                    invariant
                        g == st@.1,
                        i <= st.grades@.len(),
                        out@ == head + report_lines(g.take(i as int)),
                    decreases st.grades@.len() - i,
                {
                    assert(g.take(i + 1).drop_last() =~= g.take(i as int));
                    out.append("Subject: ");
                    out.append(st.grades[i].0.as_str());
                    out.append(", Grade: ");
                    push_grade(&mut out, st.grades[i].1);
                    out.append("\n");
                    assert(g.take(i + 1).last() == g[i as int]);
                    assert(out@ =~= head + report_lines(g.take(i + 1)));
                    i = i + 1;
                }
                assert(g.take(i as int) =~= g);
                assert(out@ =~= report_text(student_name@, g));
                Some(out)
            },
        }
    }
}

} // verus!
