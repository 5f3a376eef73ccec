//! The commands the server binary answers before it starts serving.

use vstd::prelude::*;
use crate::text::str_eq;

verus! {

/// A command that ends the program before the server starts. A `None`
/// argument is one that was missing (or, where one is required, empty).
pub enum EarlyCommand {
    Help,
    Version,
    CheckOcrRuntime(Option<String>),
    CheckEmbeddingRuntime(Option<String>),
    EmbeddingWorker(Option<String>, Option<String>),
    SelfTestLogStdio(Option<String>),
    SelfTestLogPanic(Option<String>),
    SelfTestLogChildStderr(Option<String>),
    SelfTestChildStderr,
}

pub open spec fn has_arg(args: Seq<Seq<char>>, a: Seq<char>) -> bool {
    exists|i: int| 0 <= i < args.len() && args[i] == a
}

/// The first position of `a` among the arguments.
pub open spec fn first_position(args: Seq<Seq<char>>, a: Seq<char>) -> Option<int>
    decreases args.len(),
{
    if args.len() == 0 {
        None
    } else {
        match first_position(args.drop_last(), a) {
            Some(i) => Some(i),
            None => if args.last() == a { Some(args.len() - 1) } else { None },
        }
    }
}

/// The argument after position `i`, if there is one.
pub open spec fn arg_after(args: Seq<Seq<char>>, i: int, k: int) -> Option<Seq<char>> {
    if i + k < args.len() { Some(args[i + k]) } else { None }
}

/// The value a flag at position `i` requires: the next argument, when present
/// and not empty.
pub open spec fn required_after(args: Seq<Seq<char>>, i: int) -> Option<Seq<char>> {
    if i + 1 < args.len() && args[i + 1].len() > 0 { Some(args[i + 1]) } else { None }
}

pub open spec fn opt_seq(o: Option<String>) -> Option<Seq<char>> {
    match o {
        Some(s) => Some(s@),
        None => None,
    }
}

pub open spec fn args_seq(args: Seq<String>) -> Seq<Seq<char>> {
    args.map_values(|a: String| a@)
}

/// The command a flag at position `i` names, its value taken as required.
pub open spec fn flag_command_is(c: EarlyCommand, args: Seq<Seq<char>>, flag: Seq<char>) -> bool {
    let i = first_position(args, flag)->0;
    let v = required_after(args, i);
    if flag == "--check-ocr-runtime"@ {
        c matches EarlyCommand::CheckOcrRuntime(x) && opt_seq(x) == v
    } else if flag == "--check-embedding-runtime"@ {
        c matches EarlyCommand::CheckEmbeddingRuntime(x) && opt_seq(x) == v
    } else if flag == "--self-test-log-stdio"@ {
        c matches EarlyCommand::SelfTestLogStdio(x) && opt_seq(x) == v
    } else if flag == "--self-test-log-panic"@ {
        c matches EarlyCommand::SelfTestLogPanic(x) && opt_seq(x) == v
    } else {
        c matches EarlyCommand::SelfTestLogChildStderr(x) && opt_seq(x) == v
    }
}

/// Where the argument `a` first stands.
fn position_of(args: &[String], a: &str) -> (r: Option<usize>)
    ensures
        match r {
            Some(i) => first_position(args_seq(args@), a@) == Some(i as int),
            None => first_position(args_seq(args@), a@) is None,
        },
        r is Some <==> has_arg(args_seq(args@), a@),
{
    let ghost all = args_seq(args@);
    let mut i: usize = 0;
    while i < args.len()
        invariant
            i <= args@.len(),
            all == args_seq(args@),
            first_position(all.take(i as int), a@) is None,
            forall|k: int| 0 <= k < i ==> all[k] != a@,
        decreases args@.len() - i,
    {
        proof {
            assert(all.take(i as int + 1).drop_last() =~= all.take(i as int));
        }
        if str_eq(args[i].as_str(), a) {
            proof {
                lemma_first_position_prefix(all, a@, i as int + 1);
                assert(first_position(all.take(i as int + 1), a@) == Some(i as int));
            }
            return Some(i);
        }
        i = i + 1;
    }
    proof {
        assert(all.take(i as int) =~= all);
    }
    None
}

/// A first position found in a prefix is the first position overall.
proof fn lemma_first_position_prefix(s: Seq<Seq<char>>, a: Seq<char>, n: int)
    requires
        0 <= n <= s.len(),
        first_position(s.take(n), a) is Some,
    ensures
        first_position(s, a) == first_position(s.take(n), a),
    decreases s.len() - n,
{
    if n < s.len() {
        assert(s.take(n + 1).drop_last() =~= s.take(n));
        lemma_first_position_prefix(s, a, n + 1);
    } else {
        assert(s.take(n) =~= s);
    }
}

proof fn lemma_first_position_bounds(s: Seq<Seq<char>>, a: Seq<char>)
    ensures
        first_position(s, a) matches Some(i) ==> 0 <= i < s.len() && s[i] == a,
    decreases s.len(),
{
    if s.len() > 0 {
        lemma_first_position_bounds(s.drop_last(), a);
    }
}

fn required_arg(args: &[String], i: usize) -> (r: Option<String>)
    requires
        i < args@.len(),
    ensures
        opt_seq(r) == required_after(args_seq(args@), i as int),
{
    if i < args.len() - 1 && args[i + 1].as_str().unicode_len() > 0 {
        Some(args[i + 1].clone())
    } else {
        None
    }
}

fn arg_after_exec(args: &[String], i: usize, k: usize) -> (r: Option<String>)
    ensures
        opt_seq(r) == arg_after(args_seq(args@), i as int, k as int),
{
    if k < args.len() && i < args.len() - k {
        Some(args[i + k].clone())
    } else {
        None
    }
}

/// The command the arguments ask for before the server starts, checked in
/// this order: `--help` or `-h`; `--version` or `-V`; `--check-ocr-runtime`,
/// `--check-embedding-runtime` and `--embedding-worker` at their first
/// position, each with the arguments that follow it; then the self-test
/// commands. `None` when the server is to start.
pub fn early_command(args: &[String]) -> (r: Option<EarlyCommand>)
    ensures
        ({
            let a = args_seq(args@);
            if has_arg(a, "--help"@) || has_arg(a, "-h"@) {
                r matches Some(EarlyCommand::Help)
            } else if has_arg(a, "--version"@) || has_arg(a, "-V"@) {
                r matches Some(EarlyCommand::Version)
            } else if has_arg(a, "--check-ocr-runtime"@) {
                r matches Some(c) && flag_command_is(c, a, "--check-ocr-runtime"@)
            } else if has_arg(a, "--check-embedding-runtime"@) {
                r matches Some(c) && flag_command_is(c, a, "--check-embedding-runtime"@)
            } else if has_arg(a, "--embedding-worker"@) {
                let i = first_position(a, "--embedding-worker"@)->0;
                r matches Some(EarlyCommand::EmbeddingWorker(x, y)) && opt_seq(x) == arg_after(a, i, 1) && opt_seq(y)
                    == arg_after(a, i, 2)
            } else if has_arg(a, "--self-test-log-stdio"@) {
                r matches Some(c) && flag_command_is(c, a, "--self-test-log-stdio"@)
            } else if has_arg(a, "--self-test-log-panic"@) {
                r matches Some(c) && flag_command_is(c, a, "--self-test-log-panic"@)
            } else if has_arg(a, "--self-test-log-child-stderr"@) {
                r matches Some(c) && flag_command_is(c, a, "--self-test-log-child-stderr"@)
            } else if has_arg(a, "--self-test-child-stderr"@) {
                r matches Some(EarlyCommand::SelfTestChildStderr)
            } else {
                r is None
            }
        }),
{
    let ghost a = args_seq(args@);
    if position_of(args, "--help").is_some() || position_of(args, "-h").is_some() {
        return Some(EarlyCommand::Help);
    }
    if position_of(args, "--version").is_some() || position_of(args, "-V").is_some() {
        return Some(EarlyCommand::Version);
    }
    if let Some(i) = position_of(args, "--check-ocr-runtime") {
        proof {
            lemma_first_position_bounds(a, "--check-ocr-runtime"@);
        }
        return Some(EarlyCommand::CheckOcrRuntime(required_arg(args, i)));
    }
    if let Some(i) = position_of(args, "--check-embedding-runtime") {
        proof {
            lemma_first_position_bounds(a, "--check-embedding-runtime"@);
        }
        return Some(EarlyCommand::CheckEmbeddingRuntime(required_arg(args, i)));
    }
    if let Some(i) = position_of(args, "--embedding-worker") {
        proof {
            lemma_first_position_bounds(a, "--embedding-worker"@);
        }
        let first = arg_after_exec(args, i, 1);
        let second = arg_after_exec(args, i, 2);
        return Some(EarlyCommand::EmbeddingWorker(first, second));
    }
    if let Some(i) = position_of(args, "--self-test-log-stdio") {
        proof {
            lemma_first_position_bounds(a, "--self-test-log-stdio"@);
        }
        return Some(EarlyCommand::SelfTestLogStdio(required_arg(args, i)));
    }
    if let Some(i) = position_of(args, "--self-test-log-panic") {
        proof {
            lemma_first_position_bounds(a, "--self-test-log-panic"@);
        }
        return Some(EarlyCommand::SelfTestLogPanic(required_arg(args, i)));
    }
    if let Some(i) = position_of(args, "--self-test-log-child-stderr") {
        proof {
            lemma_first_position_bounds(a, "--self-test-log-child-stderr"@);
        }
        return Some(EarlyCommand::SelfTestLogChildStderr(required_arg(args, i)));
    }
    if position_of(args, "--self-test-child-stderr").is_some() {
        return Some(EarlyCommand::SelfTestChildStderr);
    }
    None
}

} // verus!
