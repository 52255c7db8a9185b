//! Planning a batch of shell jobs from the command line, and putting their
//! results back in submission order.

use vstd::prelude::*;
use crate::cli::{str_eq, strings_view};
use crate::text::{parse_unsigned_range, parse_unsigned_spec, to_chars};

verus! {

broadcast use vstd::seq_lib::group_to_multiset_ensures;

/// The jobs to run and how many run at once.
pub struct JobPlan {
    pub parallelism: usize,
    pub jobs: Vec<String>,
}

/// Why no jobs can be run.
pub enum PlanError {
    /// No argument at all: the usage line is due.
    NoArguments,
    /// Arguments, but no command among them.
    NoJobs,
}

/// The parallelism and the commands read from `args[i..]`, starting from
/// the parallelism `par` and the commands `cmds`: `-j N` sets the
/// parallelism (4 when `N` is no number), any other argument is a command.
pub open spec fn read_jobs(args: Seq<Seq<char>>, i: int, par: int, cmds: Seq<Seq<char>>) -> (
    int,
    Seq<Seq<char>>,
)
    decreases args.len() - i,
{
    if i < 0 || i >= args.len() {
        (par, cmds)
    } else if args[i] == "-j"@ {
        if i + 1 < args.len() {
            let p = match parse_unsigned_spec(args[i + 1], usize::MAX as int) {
                Some(v) => v,
                None => 4,
            };
            read_jobs(args, i + 2, p, cmds)
        } else {
            (par, cmds)
        }
    } else {
        read_jobs(args, i + 1, par, cmds.push(args[i]))
    }
}

/// Reads the command line of the scheduler: the commands to run, and the
/// parallelism, which `-j N` sets (4 by default, and never more than there
/// are commands).
pub fn plan_jobs(args: &Vec<String>) -> (res: Result<JobPlan, PlanError>)
    ensures
        args@.len() == 0 ==> res matches Err(PlanError::NoArguments),
        args@.len() > 0 ==> ({
            let (par, cmds) = read_jobs(strings_view(args@), 0, 4, Seq::empty());
            &&& cmds.len() == 0 ==> res is Err && res->Err_0 is NoJobs
            &&& cmds.len() > 0 ==> res is Ok && strings_view(res->Ok_0.jobs@) == cmds
                && res->Ok_0.parallelism == (if par < cmds.len() { par } else { cmds.len() as int })
        }),
{
    if args.len() == 0 {
        return Err(PlanError::NoArguments);
    }
    let ghost av = strings_view(args@);
    let mut parallelism: usize = 4;
    let mut cmds: Vec<String> = Vec::new();
    let mut i: usize = 0;
    assert(strings_view(cmds@) =~= Seq::<Seq<char>>::empty());
    while i < args.len()
        invariant
            i <= args@.len(),
            av == strings_view(args@),
            read_jobs(av, 0, 4, Seq::empty()) == read_jobs(
                av,
                i as int,
                parallelism as int,
                strings_view(cmds@),
            ),
        decreases args.len() - i,
    {
        assert(args[i as int]@ == av[i as int]);
        if str_eq(args[i].as_str(), "-j") {
            if i + 1 < args.len() {
                i += 1;
                let digits = to_chars(args[i].as_str());
                assert(digits@.subrange(0, digits@.len() as int) == av[i as int]);
                parallelism = match parse_unsigned_range(digits.as_slice(), 0, digits.len(), usize::MAX) {
                    Some(v) => v,
                    None => 4,
                };
            } else {
                i = args.len();
                continue;
            }
        } else {
            let ghost before = strings_view(cmds@);
            cmds.push(args[i].clone());
            assert(strings_view(cmds@) =~= before.push(av[i as int]));
        }
        i += 1;
    }
    if cmds.len() == 0 {
        return Err(PlanError::NoJobs);
    }
    let parallelism = if parallelism < cmds.len() { parallelism } else { cmds.len() };
    Ok(JobPlan { parallelism, jobs: cmds })
}

/// What a finished job gave.
pub struct JobResult {
    pub id: usize,
    pub cmd: String,
    pub stdout: String,
    pub stderr: String,
    pub exit_code: i32,
    pub elapsed_ms: u128,
}

/// Whether a result carries the id `k`.
pub open spec fn has_id(k: usize) -> spec_fn(JobResult) -> bool {
    |r: JobResult| r.id == k
}

/// The results of `s` that carry the id `k`, in their order in `s`.
pub open spec fn with_id(s: Seq<JobResult>, k: usize) -> Seq<JobResult> {
    s.filter(has_id(k))
}

proof fn lemma_with_id_none(s: Seq<JobResult>, k: usize)
    requires
        forall|i: int| 0 <= i < s.len() ==> s[i].id != k,
    ensures
        with_id(s, k) == Seq::<JobResult>::empty(),
    decreases s.len(),
{
    if s.len() > 0 {
        let init = s.drop_last();
        lemma_with_id_none(init, k);
        assert(s == init.push(s.last()));
        init.lemma_filter_push(s.last(), has_id(k));
    } else {
        reveal(Seq::filter);
    }
}

/// Putting `r` at a place before which every id is smaller puts it first
/// among the results with its id, and changes no other id's results.
proof fn lemma_with_id_insert(before: Seq<JobResult>, p: int, r: JobResult, k: usize)
    requires
        0 <= p <= before.len(),
        forall|i: int| 0 <= i < p ==> before[i].id < r.id,
    ensures
        with_id(before.insert(p, r), k) == (if r.id == k {
            seq![r] + with_id(before, k)
        } else {
            with_id(before, k)
        }),
{
    let pre = before.subrange(0, p);
    let post = before.subrange(p, before.len() as int);
    assert(before == pre + post);
    assert(before.insert(p, r) == pre + (seq![r] + post));
    Seq::filter_distributes_over_add(pre, post, has_id(k));
    Seq::filter_distributes_over_add(pre, seq![r] + post, has_id(k));
    post.lemma_filter_prepend(r, has_id(k));
    if r.id == k {
        lemma_with_id_none(pre, k);
        assert(with_id(pre, k) + with_id(post, k) == with_id(post, k));
        assert(with_id(pre, k) + (seq![r] + with_id(post, k)) == seq![r] + with_id(post, k));
    } else {
        assert(Seq::<JobResult>::empty() + with_id(post, k) == with_id(post, k));
    }
}

/// The results in order of their ids; results with equal ids keep their
/// order.
pub fn sort_by_id(results: Vec<JobResult>) -> (res: Vec<JobResult>)
    ensures
        res@.to_multiset() == results@.to_multiset(),
        forall|i: int, j: int| 0 <= i < j < res@.len() ==> res@[i].id <= res@[j].id,
        forall|k: usize| #[trigger] with_id(res@, k) == with_id(results@, k),
{
    let ghost orig = results@;
    let mut rest = results;
    let mut out: Vec<JobResult> = Vec::new();
    assert(out@.to_multiset() =~= vstd::multiset::Multiset::<JobResult>::empty()) by {
        assert(out@ == Seq::<JobResult>::empty());
    }
    assert forall|k: usize| #[trigger] with_id(orig, k) == with_id(rest@, k) + with_id(out@, k) by {
        lemma_with_id_none(out@, k);
        assert(with_id(rest@, k) + Seq::<JobResult>::empty() == with_id(rest@, k));
    }
    while rest.len() > 0
        invariant
            rest@.to_multiset().add(out@.to_multiset()) == orig.to_multiset(),
            forall|i: int, j: int| 0 <= i < j < out@.len() ==> out@[i].id <= out@[j].id,
            forall|k: usize| #[trigger] with_id(orig, k) == with_id(rest@, k) + with_id(out@, k),
        decreases rest.len(),
    {
        let ghost before_rest = rest@;
        let r = rest.pop().unwrap();
        assert(before_rest == rest@.push(r));
        let mut p: usize = 0;
        while p < out.len() && out[p].id < r.id
            invariant
                p <= out@.len(),
                forall|k: int| 0 <= k < p ==> out@[k].id < r.id,
            decreases out.len() - p,
        {
            p += 1;
        }
        let ghost before = out@;
        out.insert(p, r);
        proof {
            assert(out@ == before.insert(p as int, r));
            assert forall|i: int, j: int| 0 <= i < j < out@.len() implies out@[i].id <= out@[j].id by {
                if j < p {
                    assert(out@[i] == before[i] && out@[j] == before[j]);
                } else if j == p {
                    assert(out@[i] == before[i]);
                } else if i < p {
                    assert(out@[i] == before[i] && out@[j] == before[j - 1]);
                } else if i == p {
                    assert(out@[j] == before[j - 1]);
                    if p < before.len() {
                        assert(before[p as int].id >= r.id);
                    }
                } else {
                    assert(out@[i] == before[i - 1] && out@[j] == before[j - 1]);
                }
            }
            assert(rest@.to_multiset().add(out@.to_multiset()) =~= orig.to_multiset());
            assert forall|k: usize| #[trigger] with_id(orig, k) == with_id(rest@, k) + with_id(out@, k) by {
                lemma_with_id_insert(before, p as int, r, k);
                rest@.lemma_filter_push(r, has_id(k));
                assert(with_id(orig, k) == with_id(before_rest, k) + with_id(before, k));
                if r.id == k {
                    assert(with_id(rest@, k).push(r) + with_id(before, k) == with_id(rest@, k) + (
                    seq![r] + with_id(before, k)));
                }
            }
        }
    }
    assert(rest@.to_multiset() =~= vstd::multiset::Multiset::<JobResult>::empty()) by {
        assert(rest@ == Seq::<JobResult>::empty());
    }
    assert forall|k: usize| #[trigger] with_id(out@, k) == with_id(orig, k) by {
        assert(rest@ == Seq::<JobResult>::empty());
        lemma_with_id_none(rest@, k);
        assert(Seq::<JobResult>::empty() + with_id(out@, k) == with_id(out@, k));
    }
    out
}

} // verus!
