use grading_system::names::{name_le, sort_names};
use grading_system::text::push_grade;
use grading_system::{sort_grades, GradingSystem, Ratio};

fn store_with(students: &[&str]) -> GradingSystem {
    let mut g = GradingSystem::new();
    for s in students {
        g.register_student(s.to_string());
    }
    g
}

fn grade_of(g: &GradingSystem, student: &str, subject: &str) -> Option<i32> {
    let st = g.student(student)?;
    st.grades.iter().find(|e| e.0 == subject).map(|e| e.1)
}

fn as_f64(r: Ratio) -> f64 {
    r.num as f64 / r.den as f64
}

#[test]
fn register_twice_keeps_one_student_with_no_grades() {
    let mut g = store_with(&["Alice", "Bob"]);
    g.add_grade("Alice", "Math", 9000);
    g.register_student("Alice".to_string());
    assert_eq!(g.sorted_student_names(), vec!["Alice".to_string(), "Bob".to_string()]);
    assert!(g.student("Alice").unwrap().grades.is_empty());
    assert_eq!(g.calculate_subject_average_grade("Math"), None);
}

#[test]
fn second_grade_overwrites_first() {
    let mut g = store_with(&["Alice"]);
    g.add_grade("Alice", "Math", 7000);
    g.add_grade("Alice", "Math", 9500);
    let st = g.student("Alice").unwrap();
    assert_eq!(st.grades.len(), 1);
    assert_eq!(grade_of(&g, "Alice", "Math"), Some(9500));
}

#[test]
fn grade_for_unknown_student_is_ignored() {
    let mut g = store_with(&["Alice"]);
    g.add_grade("Alice", "Math", 8000);
    g.add_grade("Zed", "Math", 1000);
    assert!(g.student("Zed").is_none());
    assert_eq!(g.sorted_student_names(), vec!["Alice".to_string()]);
    assert_eq!(g.calculate_subject_average_grade("Math"), Some(Ratio { num: 8000, den: 1 }));
}

#[test]
fn grade_needs_no_added_subject() {
    let mut g = store_with(&["Alice"]);
    g.add_grade("Alice", "Art", -250);
    assert_eq!(grade_of(&g, "Alice", "Art"), Some(-250));
    assert!(g.sorted_subject_names().is_empty());
}

#[test]
fn subject_average_absent_without_grades() {
    let mut g = store_with(&["Alice", "Bob"]);
    g.add_subject("Math".to_string());
    assert_eq!(g.calculate_subject_average_grade("Math"), None);
    g.add_grade("Alice", "Art", 5000);
    assert_eq!(g.calculate_subject_average_grade("Math"), None);
}

#[test]
fn subject_average_is_mean_of_holders() {
    let mut g = store_with(&["Alice", "Bob", "Carol"]);
    g.add_grade("Alice", "Math", 8000);
    g.add_grade("Bob", "Math", 9000);
    g.add_grade("Carol", "Art", 1000);
    let avg = g.calculate_subject_average_grade("Math").unwrap();
    assert_eq!(avg, Ratio { num: 17000, den: 2 });
    assert_eq!(as_f64(avg), 8500.0);
}

#[test]
fn zero_average_is_present() {
    let mut g = store_with(&["Alice"]);
    g.add_grade("Alice", "Math", 0);
    assert_eq!(g.calculate_subject_average_grade("Math"), Some(Ratio { num: 0, den: 1 }));
}

#[test]
fn median_of_even_count() {
    let mut g = store_with(&["A", "B", "C", "D"]);
    g.add_grade("A", "Math", 9000);
    g.add_grade("B", "Math", 6000);
    g.add_grade("C", "Math", 8000);
    g.add_grade("D", "Math", 7000);
    let st = g.perform_statistical_analysis("Math").unwrap();
    assert_eq!(st.count, 4);
    assert_eq!(st.sorted, vec![6000, 7000, 8000, 9000]);
    assert_eq!(as_f64(st.median) / 100.0, 75.0);
    assert_eq!(format!("{:.2}", as_f64(st.median) / 100.0), "75.00");
    assert_eq!(st.min, 6000);
    assert_eq!(st.max, 9000);
    assert_eq!(as_f64(st.mean) / 100.0, 75.0);
}

#[test]
fn median_of_odd_count() {
    let mut g = store_with(&["A", "B", "C"]);
    g.add_grade("A", "Math", 8000);
    g.add_grade("B", "Math", 6000);
    g.add_grade("C", "Math", 7000);
    let st = g.perform_statistical_analysis("Math").unwrap();
    assert_eq!(st.median, Ratio { num: 7000, den: 1 });
    assert_eq!(format!("{:.2}", as_f64(st.median) / 100.0), "70.00");
    assert_eq!(st.mean, Ratio { num: 21000, den: 3 });
}

#[test]
fn statistics_absent_without_grades() {
    let g = store_with(&["A"]);
    assert!(g.perform_statistical_analysis("Math").is_none());
}

#[test]
fn statistics_of_single_grade() {
    let mut g = store_with(&["A"]);
    g.add_grade("A", "Math", 4250);
    let st = g.perform_statistical_analysis("Math").unwrap();
    assert_eq!(st.count, 1);
    assert_eq!(st.median, Ratio { num: 4250, den: 1 });
    assert_eq!((st.min, st.max), (4250, 4250));
}

#[test]
fn overall_average_is_mean_of_means() {
    let mut g = store_with(&["A", "B"]);
    g.add_grade("A", "Math", 8000);
    g.add_grade("A", "Art", 10000);
    g.add_grade("B", "Math", 5000);
    assert!(g.overall_average_fits());
    let avg = g.calculate_overall_average_grade().unwrap();
    assert_eq!(avg, Ratio { num: 28000, den: 4 });
    assert_eq!(as_f64(avg) / 100.0, 70.0);
    assert_eq!(format!("{:.2}", as_f64(avg) / 100.0), "70.00");
}

#[test]
fn overall_average_is_exact_for_one_third() {
    let mut g = store_with(&["A"]);
    g.add_grade("A", "X", 1);
    g.add_grade("A", "Y", 0);
    g.add_grade("A", "Z", 0);
    let avg = g.calculate_overall_average_grade().unwrap();
    assert_eq!(avg, Ratio { num: 1, den: 3 });
}

#[test]
fn overall_average_adds_thirds_exactly() {
    let mut g = store_with(&["A", "B"]);
    g.add_grade("A", "X", 1);
    g.add_grade("A", "Y", 0);
    g.add_grade("A", "Z", 0);
    g.add_grade("B", "X", 1);
    g.add_grade("B", "Y", 1);
    g.add_grade("B", "Z", 0);
    let avg = g.calculate_overall_average_grade().unwrap();
    assert_eq!(avg, Ratio { num: 3, den: 6 });
    assert_eq!(as_f64(avg), 0.5);
}

#[test]
fn overall_average_over_mixed_counts() {
    let mut g = store_with(&["A", "B", "C"]);
    g.add_grade("A", "X", 100);
    g.add_grade("A", "Y", 200);
    g.add_grade("B", "X", 300);
    g.add_grade("B", "Y", 300);
    g.add_grade("B", "Z", 600);
    g.add_grade("C", "X", 400);
    g.add_grade("C", "Y", 400);
    g.add_grade("C", "Z", 400);
    g.add_grade("C", "W", 400);
    let avg = g.calculate_overall_average_grade().unwrap();
    assert_eq!(avg.den, 3 * 24);
    assert_eq!(avg.num * 2, (150 + 400 + 400) * 2 * 24);
}

#[test]
fn overall_average_limit_is_detected() {
    let primes = [2, 3, 5, 7, 11, 13, 17, 19, 23, 29, 31, 37, 41, 43, 47, 53, 59, 61, 67, 71, 73, 79, 83, 89, 97];
    let mut g = GradingSystem::new();
    for (i, p) in primes.iter().enumerate() {
        let name = format!("S{}", i);
        g.register_student(name.clone());
        for j in 0..*p {
            g.add_grade(&name, &format!("T{}", j), 5000);
        }
        if i == 0 {
            assert!(g.overall_average_fits());
        }
    }
    assert!(!g.overall_average_fits());
}

#[test]
fn overall_average_absent_without_students() {
    let g = GradingSystem::new();
    assert_eq!(g.calculate_overall_average_grade(), None);
}

#[test]
fn overall_average_absent_when_a_student_has_no_grade() {
    let mut g = store_with(&["A", "B"]);
    g.add_grade("A", "Math", 8000);
    assert_eq!(g.calculate_overall_average_grade(), None);
}

#[test]
fn student_average_is_exact() {
    let mut g = store_with(&["A", "B"]);
    g.add_grade("A", "Math", 8000);
    g.add_grade("A", "Art", 9050);
    assert_eq!(g.student("A").unwrap().calculate_average_grade(), Some(Ratio { num: 17050, den: 2 }));
    assert_eq!(g.student("B").unwrap().calculate_average_grade(), None);
}

#[test]
fn report_absent_for_unknown_student() {
    let g = store_with(&["Alice"]);
    assert_eq!(g.generate_grade_report("Bob"), None);
}

#[test]
fn report_lists_every_grade() {
    let mut g = store_with(&["Dana"]);
    g.add_grade("Dana", "Math", 9000);
    g.add_grade("Dana", "Art", 7000);
    let r = g.generate_grade_report("Dana").unwrap();
    assert!(r.starts_with("Grade Report for Dana\n"));
    assert!(r.contains("Subject: Math, Grade: 90\n"));
    assert!(r.contains("Subject: Art, Grade: 70\n"));
}

#[test]
fn report_of_student_without_grades() {
    let g = store_with(&["Eve"]);
    assert_eq!(g.generate_grade_report("Eve").unwrap(), "Grade Report for Eve\n");
}

#[test]
fn grade_text_forms() {
    for (g, t) in [(8850, "88.5"), (9000, "90"), (8805, "88.05"), (-25, "-0.25"), (0, "0"), (123456, "1234.56"), (i32::MIN, "-21474836.48")] {
        let mut s = String::from("x");
        push_grade(&mut s, g);
        assert_eq!(s, format!("x{}", t));
    }
}

#[test]
fn names_sort_lexicographically() {
    let v = vec!["bob".to_string(), "Alice".to_string(), "alice".to_string(), "al".to_string()];
    assert_eq!(sort_names(&v), vec!["Alice", "al", "alice", "bob"]);
    assert!(name_le("ab", "abc"));
    assert!(!name_le("b", "abc"));
    assert!(name_le("é", "ü"));
}

#[test]
fn sorted_listings() {
    let mut g = store_with(&["Zoe", "Adam", "Mia"]);
    g.add_subject("Physics".to_string());
    g.add_subject("Art".to_string());
    g.add_subject("Physics".to_string());
    assert_eq!(g.sorted_student_names(), vec!["Adam", "Mia", "Zoe"]);
    assert_eq!(g.sorted_subject_names(), vec!["Art", "Physics"]);
    g.add_grade("Zoe", "Art", 6000);
    g.add_grade("Adam", "Art", 8000);
    assert_eq!(g.subject_roll("Art"), vec![("Zoe".to_string(), 6000), ("Adam".to_string(), 8000)]);
    assert_eq!(g.subject_grade_list("Art"), vec![6000, 8000]);
}

#[test]
fn grades_sort_ascending() {
    assert_eq!(sort_grades(&vec![5, -1, 5, 3]), vec![-1, 3, 5, 5]);
    assert_eq!(sort_grades(&vec![]), Vec::<i32>::new());
}

#[test]
fn end_to_end_single_grade() {
    let mut g = GradingSystem::new();
    g.register_student("Alice".to_string());
    g.add_subject("Math".to_string());
    g.add_grade("Alice", "Math", 8800);
    let sa = g.calculate_subject_average_grade("Math").unwrap();
    assert_eq!(format!("{:.2}", as_f64(sa) / 100.0), "88.00");
    let oa = g.calculate_overall_average_grade().unwrap();
    assert_eq!(format!("{:.2}", as_f64(oa) / 100.0), "88.00");
    let r = g.generate_grade_report("Alice").unwrap();
    assert!(r.contains("Math"));
    assert!(r.contains("88"));
}

