use vstd::prelude::*;
use crate::ratio::Ratio;
use crate::names::{names_ascending, names_view, sort_names};
use vstd::arithmetic::div_mod::lemma_fundamental_div_mod;
use crate::keyed::{has_key, key_pos, lemma_key_pos, lemma_upsert, lookup, unique_keys, upsert};

verus! {

/// The grades of one student, by subject name.
pub type GradeEntries = Seq<(Seq<char>, i32)>;

/// The students of a store: each name with its grades.
pub type StudentEntries = Seq<(Seq<char>, GradeEntries)>;

/// The view of a grade list: each subject name with its grade.
pub open spec fn grades_view(g: Seq<(String, i32)>) -> GradeEntries {
    g.map_values(|e: (String, i32)| (e.0@, e.1))
}

/// A student: a name and at most one grade per subject.
pub struct Student {
    pub name: String,
    pub grades: Vec<(String, i32)>,
}

impl View for Student {
    type V = (Seq<char>, GradeEntries);

    open spec fn view(&self) -> (Seq<char>, GradeEntries) {
        (self.name@, grades_view(self.grades@))
    }
}

/// A subject, known by its name alone.
pub struct Subject {
    pub name: String,
}

/// What a store holds: the students in their order of first registration,
/// and the subject names in their order of first addition.
pub struct StoreModel {
    pub students: StudentEntries,
    pub subjects: Seq<Seq<char>>,
}

/// The registry of students and subjects.
pub struct GradingSystem {
    students: Vec<Student>,
    subjects: Vec<Subject>,
}

/// The store after `add_grade(student, subject, grade)`.
pub open spec fn with_grade(m: StoreModel, student: Seq<char>, subject: Seq<char>, grade: i32) -> StoreModel {
    match lookup(m.students, student) {
        Some(g) => StoreModel {
            students: upsert(m.students, student, upsert(g, subject, grade)),
            subjects: m.subjects,
        },
        None => m,
    }
}

/// The subject list after adding `name`: unchanged when it is there already.
pub open spec fn with_subject(s: Seq<Seq<char>>, name: Seq<char>) -> Seq<Seq<char>> {
    if s.contains(name) {
        s
    } else {
        s.push(name)
    }
}

impl View for GradingSystem {
    type V = StoreModel;

    closed spec fn view(&self) -> StoreModel {
        StoreModel {
            students: self.students@.map_values(|s: Student| s@),
            subjects: self.subjects@.map_values(|s: Subject| s.name@),
        }
    }
}

/// Largest magnitude of a single grade.
pub open spec fn grade_bound() -> int {
    0x8000_0000
}

/// Sum of a student's grades.
pub open spec fn grade_sum(g: GradeEntries) -> int
    decreases g.len(),
{
    if g.len() == 0 {
        0
    } else {
        grade_sum(g.drop_last()) + g.last().1 as int
    }
}

/// Sum of a sequence of integers.
pub open spec fn int_sum(s: Seq<i32>) -> int
    decreases s.len(),
{
    if s.len() == 0 {
        0
    } else {
        int_sum(s.drop_last()) + s.last() as int
    }
}

/// Every grade recorded for `subject`, one per student that has one, in
/// the order of the students.
pub open spec fn subject_grades(st: StudentEntries, subject: Seq<char>) -> Seq<i32>
    decreases st.len(),
{
    if st.len() == 0 {
        Seq::empty()
    } else {
        let rest = subject_grades(st.drop_last(), subject);
        match lookup(st.last().1, subject) {
            Some(g) => rest.push(g),
            None => rest,
        }
    }
}

/// Each student that has a grade for `subject`, with that grade, in the order
/// of the students.
pub open spec fn subject_roll(st: StudentEntries, subject: Seq<char>) -> Seq<(Seq<char>, i32)>
    decreases st.len(),
{
    if st.len() == 0 {
        Seq::empty()
    } else {
        let rest = subject_roll(st.drop_last(), subject);
        match lookup(st.last().1, subject) {
            Some(g) => rest.push((st.last().0, g)),
            None => rest,
        }
    }
}

/// The names of the students.
pub open spec fn student_names(st: StudentEntries) -> Seq<Seq<char>> {
    st.map_values(|e: (Seq<char>, GradeEntries)| e.0)
}

proof fn lemma_subject_roll_step(st: StudentEntries, subject: Seq<char>, i: int)
    requires
        0 <= i < st.len(),
    ensures
        subject_roll(st.take(i + 1), subject) == match lookup(st[i].1, subject) {
            Some(g) => subject_roll(st.take(i), subject).push((st[i].0, g)),
            None => subject_roll(st.take(i), subject),
        },
{
    assert(st.take(i + 1).drop_last() =~= st.take(i));
}

/// The sum of the students' mean grades as a fraction `(num, den)`, with
/// the product of the grade counts as denominator. Students without grades
/// are skipped.
pub open spec fn means_sum(st: StudentEntries) -> (int, int)
    decreases st.len(),
{
    if st.len() == 0 {
        (0, 1)
    } else {
        let (n, d) = means_sum(st.drop_last());
        let c = st.last().1.len() as int;
        if c == 0 {
            (n, d)
        } else {
            (n * c + grade_sum(st.last().1) * d, d * c)
        }
    }
}

/// The denominator over which the overall average is computed: starting
/// from 1, each student's grade count multiplies it unless the count
/// already divides it.
pub open spec fn common_den(st: StudentEntries) -> int
    decreases st.len(),
{
    if st.len() == 0 {
        1
    } else {
        let d = common_den(st.drop_last());
        let c = st.last().1.len() as int;
        if c == 0 || d % c == 0 {
            d
        } else {
            d * c
        }
    }
}

/// The overall average of `st` can be computed in 128-bit integers.
pub open spec fn overall_fits(st: StudentEntries) -> bool {
    st.len() * common_den(st) * grade_bound() <= i128::MAX
}

proof fn lemma_common_den_grows(st: StudentEntries, i: int)
    requires
        0 <= i <= st.len(),
    ensures
        1 <= common_den(st.take(i)) <= common_den(st),
    decreases st.len(),
{
    if st.len() > 0 {
        let d = st.drop_last();
        if i == st.len() {
            assert(st.take(i) =~= st);
            lemma_common_den_grows(d, d.len() as int);
            assert(d.take(d.len() as int) =~= d);
        } else {
            lemma_common_den_grows(d, i);
            assert(d.take(i) =~= st.take(i));
            lemma_common_den_grows(d, d.len() as int);
            assert(d.take(d.len() as int) =~= d);
        }
        let c = st.last().1.len() as int;
        let cd = common_den(d);
        if c > 0 && cd % c != 0 {
            assert(cd <= cd * c) by (nonlinear_arith)
                requires
                    cd >= 1,
                    c >= 1;
        }
    }
}

proof fn lemma_overall_step(st: StudentEntries, i: int)
    requires
        0 <= i < st.len(),
    ensures
        means_sum(st.take(i + 1)) == ({
            let (n, d) = means_sum(st.take(i));
            let c = st[i].1.len() as int;
            if c == 0 { (n, d) } else { (n * c + grade_sum(st[i].1) * d, d * c) }
        }),
        common_den(st.take(i + 1)) == ({
            let d = common_den(st.take(i));
            let c = st[i].1.len() as int;
            if c == 0 || d % c == 0 { d } else { d * c }
        }),
{
    assert(st.take(i + 1).drop_last() =~= st.take(i));
}

/// Every student has at least one grade.
pub open spec fn all_graded(st: StudentEntries) -> bool {
    forall|i: int| 0 <= i < st.len() ==> (#[trigger] st[i]).1.len() > 0
}

proof fn lemma_grade_sum_step(g: GradeEntries, i: int)
    requires
        0 <= i < g.len(),
    ensures
        grade_sum(g.take(i + 1)) == grade_sum(g.take(i)) + g[i].1 as int,
{
    assert(g.take(i + 1).drop_last() =~= g.take(i));
}

proof fn lemma_subject_grades_step(st: StudentEntries, subject: Seq<char>, i: int)
    requires
        0 <= i < st.len(),
    ensures
        subject_grades(st.take(i + 1), subject) == match lookup(st[i].1, subject) {
            Some(g) => subject_grades(st.take(i), subject).push(g),
            None => subject_grades(st.take(i), subject),
        },
{
    assert(st.take(i + 1).drop_last() =~= st.take(i));
}

proof fn lemma_mul_bound(j: int)
    requires
        0 <= j <= u64::MAX,
    ensures
        grade_bound() * (j + 1) == grade_bound() * j + grade_bound(),
        grade_bound() * (j + 1) <= 0x1_0000_0000_0000_0000_0000_0000,
{
    assert(grade_bound() * (j + 1) <= grade_bound() * (u64::MAX + 1)) by (nonlinear_arith)
        requires
            0 <= j <= u64::MAX,
            grade_bound() == 0x8000_0000;
}

proof fn lemma_add_mean(num: int, l: int, p: int, d: int, c: int, s: int, k: int, m: int, l2: int)
    requires
        num * d == p * l,
        l2 == l * k,
        l2 == m * c,
    ensures
        (num * k + s * m) * (d * c) == (p * c + s * d) * l2,
{
    let x = num * k;
    let y = s * m;
    assert((x + y) * (d * c) == x * (d * c) + y * (d * c)) by (nonlinear_arith);
    assert(x * (d * c) == (num * d) * (k * c)) by (nonlinear_arith)
        requires
            x == num * k;
    assert((p * l) * (k * c) == (p * c) * (l * k)) by (nonlinear_arith);
    assert(y * (d * c) == (s * d) * (m * c)) by (nonlinear_arith)
        requires
            y == s * m;
    assert((p * c + s * d) * l2 == (p * c) * l2 + (s * d) * l2) by (nonlinear_arith);
}

proof fn lemma_mean_bound(num: int, i: int, l: int, c: int, s: int, k: int, m: int, l2: int)
    requires
        0 <= i,
        1 <= k,
        1 <= c,
        0 <= l,
        -(i * grade_bound() * l) <= num <= i * grade_bound() * l,
        -(grade_bound() * c) <= s <= grade_bound() * c,
        l2 == l * k,
        l2 == m * c,
        0 <= m,
    ensures
        -((i + 1) * grade_bound() * l2) <= num * k + s * m <= (i + 1) * grade_bound() * l2,
{
    let b = grade_bound();
    assert(-(i * b * l2) <= num * k <= i * b * l2) by (nonlinear_arith)
        requires
            -(i * b * l) <= num <= i * b * l,
            l2 == l * k,
            1 <= k;
    assert(-(b * l2) <= s * m <= b * l2) by (nonlinear_arith)
        requires
            -(b * c) <= s <= b * c,
            l2 == m * c,
            0 <= m;
    assert((i + 1) * b * l2 == i * b * l2 + b * l2) by (nonlinear_arith);
}

proof fn lemma_fits_bound(n: int, i: int, l2: int, lf: int)
    requires
        1 <= i + 1 <= n,
        0 <= l2 <= lf,
        n * lf * grade_bound() <= i128::MAX,
    ensures
        (i + 1) * grade_bound() * l2 <= i128::MAX,
        l2 <= i128::MAX,
{
    let b = grade_bound();
    assert((i + 1) * b * l2 <= n * lf * b) by (nonlinear_arith)
        requires
            1 <= i + 1 <= n,
            0 <= l2 <= lf,
            b == 0x8000_0000;
    assert(l2 <= (i + 1) * b * l2) by (nonlinear_arith)
        requires
            1 <= i + 1,
            0 <= l2,
            b == 0x8000_0000;
}

/// Sum of the grades in `grades`.
fn sum_grades(grades: &Vec<(String, i32)>) -> (r: i128)
    ensures
        r == grade_sum(grades_view(grades@)),
        -(grade_bound() * grades@.len()) <= r <= grade_bound() * grades@.len(),
{
    let ghost g = grades_view(grades@);
    let mut total: i128 = 0;
    let n = grades.len();
    let mut j: usize = 0;
    assert(usize::MAX <= u64::MAX);
    while j < n
        invariant
            g == grades_view(grades@),
            j <= grades@.len(),
            n == grades@.len(),
            n <= u64::MAX,
            total == grade_sum(g.take(j as int)),
            -(grade_bound() * j) <= total <= grade_bound() * j,
        decreases n - j,
    {
        let x = grades[j].1;
        proof {
            lemma_grade_sum_step(g, j as int);
            lemma_mul_bound(j as int);
            assert(g[j as int].1 == x);
        }
        total = total + x as i128;
        j = j + 1;
    }
    assert(g.take(j as int) =~= g);
    total
}

/// Sum of the values in `v`.
pub(crate) fn sum_ints(v: &Vec<i32>) -> (r: i128)
    requires
        v@.len() <= u64::MAX,
    ensures
        r == int_sum(v@),
{
    let ghost g = v@;
    let n = v.len();
    let mut total: i128 = 0;
    let mut j: usize = 0;
    while j < n
        invariant
            g == v@,
            n == v@.len(),
            n <= u64::MAX,
            j <= n,
            total == int_sum(g.take(j as int)),
            -(grade_bound() * j) <= total <= grade_bound() * j,
        decreases n - j,
    {
        let x = v[j];
        proof {
            assert(g.take(j + 1).drop_last() =~= g.take(j as int));
            lemma_mul_bound(j as int);
        }
        total = total + x as i128;
        j = j + 1;
    }
    assert(g.take(j as int) =~= g);
    total
}

impl Student {
    /// The mean of this student's grades as an exact fraction; `None` when the
    /// student has no grade.
    pub fn calculate_average_grade(&self) -> (r: Option<Ratio>)
        ensures
            r is None <==> self@.1.len() == 0,
            r matches Some(q) ==> q.num == grade_sum(self@.1) && q.den == self@.1.len(),
    {
        let n = self.grades.len();
        if n == 0 {
            None
        } else {
            Some(Ratio { num: sum_grades(&self.grades), den: n as u128 })
        }
    }
}

/// Position of the grade for subject `key` in `grades`.
fn find_subject(grades: &Vec<(String, i32)>, key: &String) -> (r: Option<usize>)
    requires
        unique_keys(grades_view(grades@)),
    ensures
        r is None ==> !has_key(grades_view(grades@), key@),
        r matches Some(j) ==> j == key_pos(grades_view(grades@), key@) && j < grades@.len(),
{
    let ghost g = grades_view(grades@);
    let mut j: usize = 0;
    while j < grades.len()
        invariant
            g == grades_view(grades@),
            unique_keys(g),
            j <= grades@.len(),
            forall|k: int| 0 <= k < j ==> (#[trigger] g[k]).0 != key@,
        decreases grades@.len() - j,
    {
        if grades[j].0 == *key {
            assert(g[j as int].0 == key@);
            proof { lemma_key_pos(g, key@); }
            return Some(j);
        }
        j = j + 1;
    }
    proof { lemma_key_pos(g, key@); }
    None
}

impl GradingSystem {
    /// Student names are unique, each student's subjects are unique, and
    /// subject names are unique.
    pub open spec fn well_formed(&self) -> bool {
        &&& unique_keys(self@.students)
        &&& forall|i: int| 0 <= i < self@.students.len() ==> unique_keys(#[trigger] self@.students[i].1)
        &&& self@.subjects.no_duplicates()
    }

    /// An empty store.
    pub fn new() -> (r: GradingSystem)
        ensures
            r.well_formed(),
            r@.students.len() == 0,
            r@.subjects.len() == 0,
    {
        let r = GradingSystem { students: Vec::new(), subjects: Vec::new() };
        assert(r@.students =~= Seq::empty());
        assert(r@.subjects =~= Seq::empty());
        r
    }

    /// Position of the student named `name`.
    fn find_student(&self, name: &str) -> (r: Option<usize>)
        requires
            self.well_formed(),
        ensures
            r is None ==> !has_key(self@.students, name@),
            r matches Some(i) ==> i == key_pos(self@.students, name@) && i < self.students@.len(),
    {
        let key = name.to_owned();
        let mut i: usize = 0;
        while i < self.students.len()
            invariant
                self.well_formed(),
                key@ == name@,
                i <= self.students@.len(),
                forall|j: int| 0 <= j < i ==> (#[trigger] self@.students[j]).0 != name@,
            decreases self.students@.len() - i,
        {
            if self.students[i].name == key {
                assert(self@.students[i as int].0 == name@);
                proof { lemma_key_pos(self@.students, name@); }
                return Some(i);
            }
            i = i + 1;
        }
        proof { lemma_key_pos(self@.students, name@); }
        None
    }

    /// Registers a student with no grades under `name`, replacing any student
    /// of that name together with its grades.
    pub fn register_student(&mut self, name: String)
        requires
            old(self).well_formed(),
        ensures
            final(self).well_formed(),
            final(self)@.students == upsert(old(self)@.students, name@, Seq::<(Seq<char>, i32)>::empty()),
            final(self)@.subjects == old(self)@.subjects,
    {
        let ghost pre = self@.students;
        let pos = self.find_student(name.as_str());
        proof { lemma_key_pos(pre, name@); }
        let student = Student { name, grades: Vec::new() };
        assert(student@.1 =~= Seq::<(Seq<char>, i32)>::empty());
        match pos {
            Some(i) => {
                self.students.remove(i);
                self.students.insert(i, student);
            },
            None => {
                self.students.push(student);
            },
        }
        proof { lemma_upsert(pre, student@.0, Seq::<(Seq<char>, i32)>::empty()); }
        assert(self@.students =~= upsert(pre, student@.0, Seq::<(Seq<char>, i32)>::empty()));
        assert forall|i: int| 0 <= i < self@.students.len() implies unique_keys(#[trigger] self@.students[i].1) by {
            if i != key_pos(pre, name@) && i < pre.len() {
                assert(self@.students[i] == pre[i]);
            }
        }
    }
    /// Adds the subject `name`; a subject of that name already there stays.
    pub fn add_subject(&mut self, name: String)
        requires
            old(self).well_formed(),
        ensures
            final(self).well_formed(),
            final(self)@.subjects == with_subject(old(self)@.subjects, name@),
            final(self)@.students == old(self)@.students,
    {
        let mut i: usize = 0;
        while i < self.subjects.len()
            invariant
                self.well_formed(),
                self@ == old(self)@,
                i <= self.subjects@.len(),
                forall|j: int| 0 <= j < i ==> (#[trigger] self@.subjects[j]) != name@,
            decreases self.subjects@.len() - i,
        {
            if self.subjects[i].name == name {
                assert(self@.subjects[i as int] == name@);
                return;
            }
            i = i + 1;
        }
        let ghost pre = self@;
        self.subjects.push(Subject { name });
        assert(self@.students =~= pre.students);
        assert(self@.subjects =~= pre.subjects.push(name@));
    }

    /// Sets the grade of student `student_name` in subject `subject_name`,
    /// replacing an earlier grade there. Does nothing when no such student is
    /// registered. The subject need not have been added.
    pub fn add_grade(&mut self, student_name: &str, subject_name: &str, grade: i32)
        requires
            old(self).well_formed(),
        ensures
            final(self).well_formed(),
            final(self)@ == with_grade(old(self)@, student_name@, subject_name@, grade),
    {
        let ghost pre = self@;
        match self.find_student(student_name) {
            None => {
                proof { lemma_key_pos(pre.students, student_name@); }
            },
            Some(i) => {
                proof { lemma_key_pos(pre.students, student_name@); }
                let ghost old_grades = pre.students[i as int].1;
                let mut st = self.students.remove(i);
                assert(st@ == pre.students[i as int]);
                let key = subject_name.to_owned();
                let pos = find_subject(&st.grades, &key);
                proof { lemma_key_pos(old_grades, subject_name@); }
                if let Some(j) = pos {
                    st.grades.remove(j);
                    st.grades.insert(j, (key, grade));
                } else {
                    st.grades.push((key, grade));
                }
                proof { lemma_upsert(old_grades, subject_name@, grade); }
                assert(st@.1 =~= upsert(old_grades, subject_name@, grade));
                self.students.insert(i, st);
                proof { lemma_upsert(pre.students, student_name@, upsert(old_grades, subject_name@, grade)); }
                assert(self@.students =~= upsert(pre.students, student_name@, upsert(old_grades, subject_name@, grade)));
                assert forall|k: int| 0 <= k < self@.students.len() implies unique_keys(#[trigger] self@.students[k].1) by {
                    if k != i {
                        assert(self@.students[k] == pre.students[k]);
                    }
                }
            },
        }
    }
    /// Every grade recorded for `subject_name`, one per student that has one.
    pub fn subject_grade_list(&self, subject_name: &str) -> (r: Vec<i32>)
        requires
            self.well_formed(),
        ensures
            r@ == subject_grades(self@.students, subject_name@),
            r@.len() <= self@.students.len(),
    {
        let ghost st = self@.students;
        let key = subject_name.to_owned();
        let mut out: Vec<i32> = Vec::new();
        let mut i: usize = 0;
        while i < self.students.len()
            invariant
                self.well_formed(),
                st == self@.students,
                key@ == subject_name@,
                i <= st.len(),
                out@.len() <= i,
                out@ == subject_grades(st.take(i as int), subject_name@),
            decreases st.len() - i,
        {
            assert(st[i as int].1 == grades_view(self.students@[i as int].grades@));
            let pos = find_subject(&self.students[i].grades, &key);
            proof {
                lemma_subject_grades_step(st, subject_name@, i as int);
                lemma_key_pos(st[i as int].1, subject_name@);
            }
            match pos {
                Some(j) => {
                    let ghost before = out@;
                    out.push(self.students[i].grades[j].1);
                    assert(out@ =~= before.push(st[i as int].1[j as int].1));
                },
                None => {},
            }
            i = i + 1;
        }
        assert(st.take(i as int) =~= st);
        out
    }

    /// The mean of all grades recorded for `subject_name`, as an exact
    /// fraction; `None` when no student has a grade for it.
    pub fn calculate_subject_average_grade(&self, subject_name: &str) -> (r: Option<Ratio>)
        requires
            self.well_formed(),
        ensures
            r is None <==> subject_grades(self@.students, subject_name@).len() == 0,
            r matches Some(q) ==> q.num == int_sum(subject_grades(self@.students, subject_name@))
                && q.den == subject_grades(self@.students, subject_name@).len(),
    {
        let grades = self.subject_grade_list(subject_name);
        let n = grades.len();
        if n == 0 {
            None
        } else {
            Some(Ratio { num: sum_ints(&grades), den: n as u128 })
        }
    }

    /// Whether the overall average of this store can be computed in 128-bit
    /// integers.
    pub fn overall_average_fits(&self) -> (r: bool)
        ensures
            r == overall_fits(self@.students),
    {
        let ghost st = self@.students;
        let n = self.students.len();
        let mut den: u128 = 1;
        let mut i: usize = 0;
        assert(st.take(0) =~= Seq::<(Seq<char>, GradeEntries)>::empty());
        while i < n
            invariant
                st == self@.students,
                n == st.len(),
                i <= n,
                den == common_den(st.take(i as int)),
            decreases n - i,
        {
            let c = self.students[i].grades.len() as u128;
            assert(st[i as int].1.len() == c);
            proof {
                lemma_overall_step(st, i as int);
                lemma_common_den_grows(st, i + 1);
            }
            if c != 0 && den % c != 0 {
                match den.checked_mul(c) {
                    Some(x) => den = x,
                    None => {
                        assert(common_den(st) > i128::MAX);
                        assert(n * common_den(st) * grade_bound() >= common_den(st)) by (nonlinear_arith)
                            requires
                                n >= 1,
                                common_den(st) >= 0;
                        return false;
                    },
                }
            }
            i = i + 1;
        }
        assert(st.take(n as int) =~= st);
        match (n as u128).checked_mul(den) {
            Some(x) => match x.checked_mul(0x8000_0000) {
                Some(y) => y <= i128::MAX as u128,
                None => false,
            },
            None => false,
        }
    }

    /// The mean over the students of each student's own mean grade (not the
    /// mean of all grades pooled), as an exact fraction: its value
    /// `num / den` equals `means_sum / students`. `None` when there is no
    /// student, or when a student has no grade and so has no mean.
    pub fn calculate_overall_average_grade(&self) -> (r: Option<Ratio>)
        requires
            self.well_formed(),
            overall_fits(self@.students),
        ensures
            r is None <==> (self@.students.len() == 0 || !all_graded(self@.students)),
            r matches Some(q) ==> q.den == self@.students.len() * common_den(self@.students)
                && q.num * (self@.students.len() * means_sum(self@.students).1)
                    == means_sum(self@.students).0 * q.den,
    {
        let ghost st = self@.students;
        let n = self.students.len();
        if n == 0 {
            return None;
        }
        let mut num: i128 = 0;
        let mut den: u128 = 1;
        let mut i: usize = 0;
        assert(st.take(0) =~= Seq::<(Seq<char>, GradeEntries)>::empty());
        proof { lemma_common_den_grows(st, 0); }
        while i < n
            invariant
                st == self@.students,
                n == st.len(),
                n >= 1,
                i <= n,
                overall_fits(st),
                all_graded(st.take(i as int)),
                den == common_den(st.take(i as int)),
                1 <= den <= common_den(st),
                means_sum(st.take(i as int)).1 > 0,
                num * means_sum(st.take(i as int)).1 == means_sum(st.take(i as int)).0 * den,
                -(i * grade_bound() * den) <= num <= i * grade_bound() * den,
            decreases n - i,
        {
            let student = &self.students[i];
            let c = student.grades.len();
            assert(st[i as int] == student@);
            if c == 0 {
                assert(!all_graded(st));
                return None;
            }
            let sum = sum_grades(&student.grades);
            let ghost p = means_sum(st.take(i as int)).0;
            let ghost d = means_sum(st.take(i as int)).1;
            proof {
                lemma_overall_step(st, i as int);
                lemma_common_den_grows(st, i + 1);
                lemma_common_den_grows(st, i as int);
            }
            let c128 = c as u128;
            let k: u128;
            let m: u128;
            let new_den: u128;
            if den % c128 == 0 {
                k = 1;
                m = den / c128;
                new_den = den;
                proof {
                    lemma_fundamental_div_mod(den as int, c as int);
                    let di = den as int;
                    let ci = c as int;
                    assert(m * ci == di) by (nonlinear_arith)
                        requires
                            di == ci * (di / ci) + di % ci,
                            di % ci == 0,
                            m == di / ci;
                }
            } else {
                proof {
                    lemma_fits_bound(n as int, i as int, den * c, common_den(st));
                }
                k = c128;
                m = den;
                new_den = den * c128;
            }
            proof {
                lemma_fits_bound(n as int, i as int, new_den as int, common_den(st));
                lemma_mean_bound(num as int, i as int, den as int, c as int, sum as int, k as int, m as int, new_den as int);
                lemma_add_mean(num as int, den as int, p, d, c as int, sum as int, k as int, m as int, new_den as int);
                assert(m <= new_den) by (nonlinear_arith)
                    requires
                        new_den == m * c,
                        c >= 1;
                assert(-(i * grade_bound() * den) * k <= num * k <= (i * grade_bound() * den) * k) by (nonlinear_arith)
                    requires
                        -(i * grade_bound() * den) <= num <= i * grade_bound() * den,
                        k >= 1;
                assert((i * grade_bound() * den) * k == i * grade_bound() * new_den) by (nonlinear_arith)
                    requires
                        new_den == den * k;
                assert(i * grade_bound() * new_den <= (i + 1) * grade_bound() * new_den) by (nonlinear_arith)
                    requires
                        new_den >= 0;
                assert(-(grade_bound() * new_den) <= sum * m <= grade_bound() * new_den) by (nonlinear_arith)
                    requires
                        -(grade_bound() * c) <= sum <= grade_bound() * c,
                        new_den == m * c;
                assert(grade_bound() * new_den <= (i + 1) * grade_bound() * new_den) by (nonlinear_arith)
                    requires
                        new_den >= 0,
                        i >= 0;
                assert(d * c > 0) by (nonlinear_arith)
                    requires
                        d > 0,
                        c >= 1;
                assert forall|j: int| 0 <= j < i + 1 implies (#[trigger] st.take(i + 1)[j]).1.len() > 0 by {
                    if j < i {
                        assert(st.take(i as int)[j] == st.take(i + 1)[j]);
                    }
                }
            }
            proof {
                let t = i * grade_bound() * den;
                let t2 = (i + 1) * grade_bound() * new_den;
                assert(t * k <= t2);
                assert(-(t * k) <= num * k <= t * k) by (nonlinear_arith)
                    requires
                        -t <= num <= t,
                        k >= 1;
                assert(t2 <= i128::MAX);
            }
            num = num * (k as i128) + sum * (m as i128);
            den = new_den;
            i = i + 1;
        }
        assert(st.take(n as int) =~= st);
        proof {
            lemma_fits_bound(n as int, n - 1, den as int, common_den(st));
            assert(n * den <= n * den * grade_bound()) by (nonlinear_arith)
                requires
                    n >= 1,
                    den >= 1,
                    grade_bound() == 0x8000_0000;
            let d = means_sum(st).1;
            let p = means_sum(st).0;
            assert(num * (n * d) == p * (n * den)) by (nonlinear_arith)
                requires
                    num * d == p * den;
        }
        Some(Ratio { num, den: n as u128 * den })
    }

    /// The student registered as `name`.
    pub fn student(&self, name: &str) -> (r: Option<&Student>)
        requires
            self.well_formed(),
        ensures
            r is None <==> !has_key(self@.students, name@),
            r matches Some(s) ==> s@.0 == name@ && lookup(self@.students, name@) == Some(s@.1),
    {
        match self.find_student(name) {
            Some(i) => {
                proof { lemma_key_pos(self@.students, name@); }
                Some(&self.students[i])
            },
            None => None,
        }
    }

    /// The names of all students, in lexicographic order.
    pub fn sorted_student_names(&self) -> (r: Vec<String>)
        ensures
            names_ascending(names_view(r@)),
            names_view(r@).to_multiset() == student_names(self@.students).to_multiset(),
    {
        let mut names: Vec<String> = Vec::new();
        let mut i: usize = 0;
        assert(names_view(names@) =~= student_names(self@.students).take(0));
        while i < self.students.len()
            invariant
                i <= self.students@.len(),
                names@.len() == i,
                names_view(names@) == student_names(self@.students).take(i as int),
            decreases self.students@.len() - i,
        {
            let nm = self.students[i].name.clone();
            assert(nm@ == student_names(self@.students)[i as int]);
            names.push(nm);
            assert(names_view(names@)[i as int] == nm@);
            assert(names_view(names@) =~= student_names(self@.students).take(i + 1));
            i = i + 1;
        }
        assert(student_names(self@.students).take(i as int) =~= student_names(self@.students));
        sort_names(&names)
    }

    /// The names of all subjects, in lexicographic order.
    pub fn sorted_subject_names(&self) -> (r: Vec<String>)
        ensures
            names_ascending(names_view(r@)),
            names_view(r@).to_multiset() == self@.subjects.to_multiset(),
    {
        let mut names: Vec<String> = Vec::new();
        let mut i: usize = 0;
        assert(names_view(names@) =~= self@.subjects.take(0));
        while i < self.subjects.len()
            invariant
                i <= self.subjects@.len(),
                names@.len() == i,
                names_view(names@) == self@.subjects.take(i as int),
            decreases self.subjects@.len() - i,
        {
            let nm = self.subjects[i].name.clone();
            assert(nm@ == self@.subjects[i as int]);
            names.push(nm);
            assert(names_view(names@)[i as int] == nm@);
            assert(names_view(names@) =~= self@.subjects.take(i + 1));
            i = i + 1;
        }
        assert(self@.subjects.take(i as int) =~= self@.subjects);
        sort_names(&names)
    }

    /// Each student that has a grade for `subject_name`, with that grade.
    pub fn subject_roll(&self, subject_name: &str) -> (r: Vec<(String, i32)>)
        requires
            self.well_formed(),
        ensures
            grades_view(r@) == subject_roll(self@.students, subject_name@),
    {
        let ghost st = self@.students;
        let key = subject_name.to_owned();
        let mut out: Vec<(String, i32)> = Vec::new();
        let mut i: usize = 0;
        while i < self.students.len()
            invariant
                self.well_formed(),
                st == self@.students,
                key@ == subject_name@,
                i <= st.len(),
                grades_view(out@) == subject_roll(st.take(i as int), subject_name@),
            decreases st.len() - i,
        {
            assert(st[i as int].1 == grades_view(self.students@[i as int].grades@));
            let pos = find_subject(&self.students[i].grades, &key);
            proof {
                lemma_subject_roll_step(st, subject_name@, i as int);
                lemma_key_pos(st[i as int].1, subject_name@);
            }
            match pos {
                Some(j) => {
                    let ghost before = grades_view(out@);
                    out.push((self.students[i].name.clone(), self.students[i].grades[j].1));
                    assert(grades_view(out@) =~= before.push((st[i as int].0, st[i as int].1[j as int].1)));
                },
                None => {},
            }
            i = i + 1;
        }
        assert(st.take(i as int) =~= st);
        out
    }
}

} // verus!
