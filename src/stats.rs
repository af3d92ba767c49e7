use vstd::prelude::*;
use crate::ratio::Ratio;
use crate::store::{int_sum, subject_grades, GradingSystem};

verus! {

/// `s` is in ascending order.
pub open spec fn ascending(s: Seq<i32>) -> bool {
    forall|i: int, j: int| 0 <= i < j < s.len() ==> s[i] <= s[j]
}

/// The median of an ascending sequence as a fraction `(num, den)`: the middle
/// element when the length is odd, the mean of the two middle elements when
/// it is even.
pub open spec fn median_of(s: Seq<i32>) -> (int, int) {
    let n = s.len() as int;
    if n % 2 == 0 {
        (s[n / 2 - 1] + s[n / 2], 2)
    } else {
        (s[n / 2] as int, 1)
    }
}

/// Summary statistics of the grades of one subject.
pub struct Stats {
    /// The grades, ascending.
    pub sorted: Vec<i32>,
    pub count: usize,
    pub mean: Ratio,
    pub median: Ratio,
    pub min: i32,
    pub max: i32,
}

pub proof fn lemma_insert_multiset<A>(s: Seq<A>, pos: int, x: A)
    requires
        0 <= pos <= s.len(),
    ensures
        s.insert(pos, x).to_multiset() =~= s.to_multiset().insert(x),
{
    let t = s.insert(pos, x);
    assert(t.remove(pos) =~= s);
    t.to_multiset_ensures();
    assert(t.contains(x)) by {
        assert(t[pos] == x);
    }
}

/// The values of `v` in ascending order.
pub fn sort_grades(v: &Vec<i32>) -> (r: Vec<i32>)
    ensures
        ascending(r@),
        r@.to_multiset() == v@.to_multiset(),
{
    let n = v.len();
    let mut out: Vec<i32> = Vec::new();
    let mut i: usize = 0;
    assert(out@ =~= v@.take(0));
    while i < n
        invariant
            n == v@.len(),
            i <= n,
            ascending(out@),
            out@.to_multiset() == v@.take(i as int).to_multiset(),
        decreases n - i,
    {
        let x = v[i];
        let mut pos: usize = 0;
        while pos < out.len() && out[pos] <= x
            invariant
                pos <= out@.len(),
                forall|k: int| 0 <= k < pos ==> out@[k] <= x,
            decreases out@.len() - pos,
        {
            pos = pos + 1;
        }
        let ghost before = out@;
        out.insert(pos, x);
        proof {
            lemma_insert_multiset(before, pos as int, x);
            assert(v@.take(i + 1) =~= v@.take(i as int).push(x));
            v@.take(i as int).to_multiset_ensures();
            assert forall|a: int, b: int| 0 <= a < b < out@.len() implies out@[a] <= out@[b] by {
                if b < pos {
                } else if b == pos {
                } else if a < pos {
                    assert(before[b - 1] > x || before[b - 1] >= before[pos as int]);
                } else if a == pos {
                    assert(before[pos as int] > x);
                }
            }
        }
        i = i + 1;
    }
    assert(v@.take(n as int) =~= v@);
    out
}

impl GradingSystem {
    /// Count, mean, median, minimum and maximum of the grades recorded for
    /// `subject_name`; `None` when no student has a grade for it.
    pub fn perform_statistical_analysis(&self, subject_name: &str) -> (r: Option<Stats>)
        requires
            self.well_formed(),
        ensures
            r is None <==> subject_grades(self@.students, subject_name@).len() == 0,
            r matches Some(st) ==> {
                let g = subject_grades(self@.students, subject_name@);
                &&& ascending(st.sorted@)
                &&& st.sorted@.to_multiset() == g.to_multiset()
                &&& st.count == g.len()
                &&& st.mean.num == int_sum(g) && st.mean.den == g.len()
                &&& st.median.num == median_of(st.sorted@).0 && st.median.den == median_of(st.sorted@).1
                &&& st.min == st.sorted@[0]
                &&& st.max == st.sorted@.last()
            },
    {
        let grades = self.subject_grade_list(subject_name);
        let count = grades.len();
        if count == 0 {
            return None;
        }
        let total = crate::store::sum_ints(&grades);
        let sorted = sort_grades(&grades);
        proof {
            grades@.to_multiset_ensures();
            sorted@.to_multiset_ensures();
        }
        let median = if count % 2 == 0 {
            Ratio { num: sorted[count / 2 - 1] as i128 + sorted[count / 2] as i128, den: 2 }
        } else {
            Ratio { num: sorted[count / 2] as i128, den: 1 }
        };
        let min = sorted[0];
        let max = sorted[count - 1];
        Some(Stats { sorted, count, mean: Ratio { num: total, den: count as u128 }, median, min, max })
    }
}

} // verus!
