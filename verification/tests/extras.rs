use croll::samples::{apply, fetch, largest, Animal, Cat, Dog};
use croll::schedule::{plan_jobs, sort_by_id, JobResult, PlanError};

fn strings(v: &[&str]) -> Vec<String> {
    v.iter().map(|s| s.to_string()).collect()
}

#[test]
fn animals_make_their_sounds() {
    assert_eq!(Dog.sound(), "woof");
    assert_eq!(Cat.sound(), "meow");
}

#[test]
fn closures_are_applied() {
    let factor = 3;
    assert_eq!(apply(|x| x * factor, 7), 21);
}

#[test]
fn largest_of_a_list() {
    assert_eq!(*largest(&[34, 50, 25, 100, 65]), 100);
    assert_eq!(*largest(&[7]), 7);
    assert_eq!(*largest(&["b", "c", "a"]), "c");
}

#[test]
fn fetch_gives_data() {
    assert_eq!(fetch(), "data");
}

#[test]
fn job_plans() {
    let p = plan_jobs(&strings(&["echo a", "-j", "2", "echo b", "echo c"])).ok().unwrap();
    assert_eq!(p.parallelism, 2);
    assert_eq!(p.jobs, strings(&["echo a", "echo b", "echo c"]));
    let p = plan_jobs(&strings(&["-j", "x", "a"])).ok().unwrap();
    assert_eq!(p.parallelism, 1);
    let p = plan_jobs(&strings(&["a", "b", "-j"])).ok().unwrap();
    assert_eq!(p.parallelism, 2);
    assert!(matches!(plan_jobs(&strings(&[])), Err(PlanError::NoArguments)));
    assert!(matches!(plan_jobs(&strings(&["-j", "3"])), Err(PlanError::NoJobs)));
}

fn job(id: usize) -> JobResult {
    JobResult {
        id,
        cmd: format!("job {id}"),
        stdout: String::new(),
        stderr: String::new(),
        exit_code: 0,
        elapsed_ms: 1,
    }
}

#[test]
fn results_come_back_in_id_order() {
    let sorted = sort_by_id(vec![job(2), job(0), job(3), job(1)]);
    let ids: Vec<usize> = sorted.iter().map(|r| r.id).collect();
    assert_eq!(ids, vec![0, 1, 2, 3]);
    assert_eq!(sorted[2].cmd, "job 2");
}

#[test]
fn results_with_equal_ids_keep_their_order() {
    let mut a = job(1);
    a.cmd = "first".to_string();
    let mut b = job(1);
    b.cmd = "second".to_string();
    let sorted = sort_by_id(vec![job(2), a, job(0), b]);
    let cmds: Vec<&str> = sorted.iter().map(|r| r.cmd.as_str()).collect();
    assert_eq!(cmds, vec!["job 0", "first", "second", "job 2"]);
}
