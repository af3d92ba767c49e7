use vstd::prelude::*;
use crate::keyed::{has_key, key_pos, lemma_key_pos, lemma_upsert, lookup, unique_keys, upsert};
use crate::store::{subject_grades, with_grade, StoreModel, StudentEntries};

verus! {

/// The students after registering each of `names` in turn, starting from `st`.
pub open spec fn register_all(st: StudentEntries, names: Seq<Seq<char>>) -> StudentEntries
    decreases names.len(),
{
    if names.len() == 0 {
        st
    } else {
        upsert(register_all(st, names.drop_last()), names.last(), Seq::empty())
    }
}

/// Student names are unique and each student's subjects are unique.
pub open spec fn entries_well_formed(st: StudentEntries) -> bool {
    &&& unique_keys(st)
    &&& forall|i: int| 0 <= i < st.len() ==> unique_keys(#[trigger] st[i].1)
}

/// After any sequence of registrations the store holds exactly one student per
/// distinct name, the names being those it held before and those registered,
/// and each registered name has the empty grade set of its latest
/// registration.
pub proof fn register_keeps_one_student_per_name(st: StudentEntries, names: Seq<Seq<char>>)
    requires
        unique_keys(st),
    ensures
        unique_keys(register_all(st, names)),
        forall|k: Seq<char>| has_key(#[trigger] register_all(st, names), k) <==> (has_key(st, k) || names.contains(k)),
        forall|k: Seq<char>| names.contains(k) ==> lookup(#[trigger] register_all(st, names), k) == Some(Seq::<(Seq<char>, i32)>::empty()),
    decreases names.len(),
{
    if names.len() > 0 {
        let d = names.drop_last();
        let k0 = names.last();
        register_keeps_one_student_per_name(st, d);
        let prev = register_all(st, d);
        lemma_upsert(prev, k0, Seq::<(Seq<char>, i32)>::empty());
        assert forall|k: Seq<char>| names.contains(k) <==> (d.contains(k) || k == k0) by {
            if names.contains(k) && k != k0 {
                let i = choose|i: int| 0 <= i < names.len() && names[i] == k;
                assert(d[i] == k);
            }
            if d.contains(k) {
                let i = choose|i: int| 0 <= i < d.len() && d[i] == k;
                assert(names[i] == k);
            }
            if k == k0 {
                assert(names[names.len() - 1] == k);
            }
        }
    }
}

proof fn lemma_upsert_twice<V>(s: Seq<(Seq<char>, V)>, k: Seq<char>, v1: V, v2: V)
    requires
        unique_keys(s),
    ensures
        upsert(upsert(s, k, v1), k, v2) == upsert(s, k, v2),
{
    let u = upsert(s, k, v1);
    lemma_key_pos(s, k);
    lemma_upsert(s, k, v1);
    lemma_key_pos(u, k);
    if key_pos(s, k) >= 0 {
        assert(u[key_pos(s, k)].0 == k);
        assert(upsert(u, k, v2) =~= upsert(s, k, v2));
    } else {
        assert(u[s.len() as int].0 == k);
        assert(upsert(u, k, v2) =~= upsert(s, k, v2));
    }
}

/// Grading the same student in the same subject twice leaves the store as a
/// single grading with the second grade would: one grade for the pair, equal
/// to the later one.
pub proof fn second_grade_replaces_first(m: StoreModel, student: Seq<char>, subject: Seq<char>, g1: i32, g2: i32)
    requires
        entries_well_formed(m.students),
    ensures
        with_grade(with_grade(m, student, subject, g1), student, subject, g2) == with_grade(m, student, subject, g2),
        has_key(m.students, student) ==> (lookup(with_grade(m, student, subject, g2).students, student) matches Some(g)
            && lookup(g, subject) == Some(g2)
            && unique_keys(g)),
{
    let st = m.students;
    lemma_key_pos(st, student);
    if has_key(st, student) {
        let g = st[key_pos(st, student)].1;
        assert(unique_keys(g));
        let g_one = upsert(g, subject, g1);
        lemma_upsert(g, subject, g1);
        lemma_upsert(st, student, g_one);
        lemma_upsert_twice(g, subject, g1, g2);
        lemma_upsert_twice(st, student, g_one, upsert(g_one, subject, g2));
        lemma_upsert(g, subject, g2);
        lemma_upsert(st, student, upsert(g, subject, g2));
    }
}

/// Grading a student that is not registered changes nothing.
pub proof fn grade_for_unknown_student_changes_nothing(m: StoreModel, student: Seq<char>, subject: Seq<char>, g: i32)
    requires
        !has_key(m.students, student),
    ensures
        with_grade(m, student, subject, g) == m,
{
    lemma_key_pos(m.students, student);
}

/// A subject has no grades exactly when no student holds a grade for it.
pub proof fn no_grades_iff_no_student_holds_one(st: StudentEntries, subject: Seq<char>)
    ensures
        subject_grades(st, subject).len() == 0 <==> forall|i: int| 0 <= i < st.len() ==> !has_key(#[trigger] st[i].1, subject),
    decreases st.len(),
{
    if st.len() > 0 {
        let d = st.drop_last();
        no_grades_iff_no_student_holds_one(d, subject);
        lemma_key_pos(st.last().1, subject);
        assert forall|i: int| 0 <= i < d.len() implies d[i] == st[i] by {}
        if subject_grades(st, subject).len() == 0 {
            assert forall|i: int| 0 <= i < st.len() implies !has_key(#[trigger] st[i].1, subject) by {
                if i < d.len() {
                    assert(d[i] == st[i]);
                }
            }
        } else if forall|i: int| 0 <= i < st.len() ==> !has_key(#[trigger] st[i].1, subject) {
            assert(!has_key(st[st.len() - 1].1, subject));
            assert forall|i: int| 0 <= i < d.len() implies !has_key(#[trigger] d[i].1, subject) by {
                assert(d[i] == st[i]);
            }
        }
    }
}

} // verus!
