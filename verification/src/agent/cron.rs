use crate::common::resources::cron::job::{Environment, Parameters as JobParameters};
use crate::text::push_str;
use vstd::prelude::*;

verus! {

/// The line of a cron file that sets a variable: `NAME="value"`, or
/// `NAME=` when the variable has no value.
pub open spec fn env_line(e: Environment) -> Seq<char> {
    match e.value {
        Some(v) => e.name@ + "=\""@ + v@ + "\"\n"@,
        None => e.name@ + "=\n"@,
    }
}

/// The text of a cron file for the variables and the job line: each
/// variable is put in front of the text so far, so the last comes first.
pub open spec fn with_env_lines(envs: Seq<Environment>, line: Seq<char>) -> Seq<char>
    decreases envs.len(),
{
    if envs.len() == 0 {
        line
    } else {
        env_line(envs.last()) + with_env_lines(envs.drop_last(), line)
    }
}

/// The line of a cron file that runs the job: its schedule, its user and
/// its command.
pub open spec fn job_line(p: JobParameters) -> Seq<char> {
    p.schedule@ + " "@ + p.user@ + " "@ + p.command@ + "\n"@
}

/// The desired text of the cron file of a job.
pub open spec fn job_text(p: JobParameters) -> Seq<char> {
    with_env_lines(p.environment@, job_line(p))
}

/// The text of a cron file ends with the line that runs the job, after the
/// lines of its variables, the last variable first; without variables it is
/// that line alone.
pub proof fn lemma_job_text(envs: Seq<Environment>, line: Seq<char>)
    ensures
        with_env_lines(envs, line).len() >= line.len(),
        with_env_lines(envs, line).skip(with_env_lines(envs, line).len() - line.len()) == line,
        envs.len() == 0 ==> with_env_lines(envs, line) == line,
        envs.len() > 0 ==> with_env_lines(envs, line).take(env_line(envs.last()).len() as int) == env_line(envs.last()),
    decreases envs.len(),
{
    if envs.len() > 0 {
        lemma_job_text(envs.drop_last(), line);
        let rest = with_env_lines(envs.drop_last(), line);
        let t = env_line(envs.last()) + rest;
        assert(t.skip(t.len() - line.len()) =~= rest.skip(rest.len() - line.len()));
        assert(t.take(env_line(envs.last()).len() as int) =~= env_line(envs.last()));
    }
}

fn env_text(e: &Environment) -> (r: String)
    ensures
        r@ == env_line(*e),
{
    let mut s = e.name.clone();
    match &e.value {
        Some(v) => {
            push_str(&mut s, "=\"");
            push_str(&mut s, v.as_str());
            push_str(&mut s, "\"\n");
        },
        None => {
            push_str(&mut s, "=\n");
        },
    }
    s
}

/// Builds the text of the cron file of a job: the variables, the last one
/// first, then the line that runs the job.
pub fn job_content(p: &JobParameters) -> (r: String)
    ensures
        r@ == job_text(*p),
{
    let mut line = p.schedule.clone();
    push_str(&mut line, " ");
    push_str(&mut line, p.user.as_str());
    push_str(&mut line, " ");
    push_str(&mut line, p.command.as_str());
    push_str(&mut line, "\n");
    let mut content = line;
    let mut i: usize = 0;
    while i < p.environment.len()
        invariant
            i <= p.environment@.len(),
            content@ == with_env_lines(p.environment@.take(i as int), job_line(*p)),
        decreases p.environment.len() - i,
    {
        let mut s = env_text(&p.environment[i]);
        push_str(&mut s, content.as_str());
        assert(p.environment@.take(i + 1).drop_last() =~= p.environment@.take(i as int));
        content = s;
        i = i + 1;
    }
    assert(p.environment@.take(p.environment.len() as int) =~= p.environment@);
    content
}

} // verus!
