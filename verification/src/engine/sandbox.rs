//! The sandboxed command line of the bubblewrap executor.
use vstd::prelude::*;

use crate::engine::builder::InitializeContext;
use crate::reports::render::{joined, lines_view};

verus! {

broadcast use vstd::seq_lib::group_seq_properties;

/// A command to run in the sandbox.
#[derive(Debug)]
pub struct CommandRequest {
    pub program: String,
    pub working_dir: Option<String>,
    pub arguments: Vec<String>,
    pub environment: Vec<(String, String)>,
}

impl Default for CommandRequest {
    fn default() -> (request: Self)
        ensures
            request.program@.len() == 0,
            request.working_dir.is_none(),
            request.arguments@.len() == 0,
            request.environment@.len() == 0,
    {
        CommandRequest {
            program: String::new(),
            working_dir: None,
            arguments: Vec::new(),
            environment: Vec::new(),
        }
    }
}

/// Sandbox options: network access and capabilities to add or drop.
#[derive(Debug)]
pub struct Options {
    pub network: bool,
    pub add_capabilities: Vec<String>,
    pub drop_capabilities: Vec<String>,
}

impl Default for Options {
    fn default() -> (options: Self)
        ensures
            options.network,
            options.add_capabilities@.len() == 0,
            options.drop_capabilities@.len() == 0,
    {
        Options { network: true, add_capabilities: Vec::new(), drop_capabilities: Vec::new() }
    }
}

/// A command executor sandboxed with `bubblewrap`.
#[derive(Debug)]
pub struct BubblewrapExecutor {
    pub environment: String,
    pub options: Options,
}

/// The name the bubblewrap executor is registered under.
pub const BUBBLEWRAP_EXECUTOR_NAME: &'static str = "bubblewrap@xuehua/executors";

/// `flag value` for each value, in order.
pub open spec fn flagged(flag: Seq<char>, values: Seq<String>) -> Seq<Seq<char>>
    decreases values.len(),
{
    if values.len() == 0 {
        Seq::empty()
    } else {
        flagged(flag, values.drop_last()) + seq![flag, values.last()@]
    }
}

/// `--setenv key value` for each variable, in order.
pub open spec fn setenv_flags(environment: Seq<(String, String)>) -> Seq<Seq<char>>
    decreases environment.len(),
{
    if environment.len() == 0 {
        Seq::empty()
    } else {
        setenv_flags(environment.drop_last()) + seq![
            "--setenv"@,
            environment.last().0@,
            environment.last().1@,
        ]
    }
}

/// The arguments passed to `bwrap`: the environment bound as the root, the
/// bootstrap tools, `/proc` and `/dev`; the restrictions; the capabilities;
/// the network when allowed; then the command's directory, environment,
/// program and arguments.
pub open spec fn sandbox_arguments(
    environment: Seq<char>,
    options: Options,
    request: CommandRequest,
) -> Seq<Seq<char>> {
    seq![
        "--bind"@,
        environment,
        "/"@,
        "--ro-bind"@,
        "busybox-bootstrap"@,
        "/busybox"@,
        "--proc"@,
        "/proc"@,
        "--dev"@,
        "/dev"@,
        "--new-session"@,
        "--die-with-parent"@,
        "--clearenv"@,
        "--unshare-all"@,
    ] + flagged("--cap-add"@, options.add_capabilities@) + flagged(
        "--cap-drop"@,
        options.drop_capabilities@,
    ) + (if options.network {
        seq!["--share-net"@]
    } else {
        Seq::empty()
    }) + (match request.working_dir {
        Some(dir) => seq!["--chdir"@, dir@],
        None => Seq::empty(),
    }) + setenv_flags(request.environment@) + seq!["--"@, request.program@] + lines_view(
        request.arguments@,
    )
}

fn push_text(out: &mut Vec<String>, text: &str)
    ensures
        lines_view(final(out)@) == lines_view(old(out)@).push(text@),
{
    let ghost before = out@;
    out.push(String::from_str(text));
    proof {
        assert(lines_view(out@) =~= lines_view(before).push(text@));
    }
}

fn push_flagged(out: &mut Vec<String>, flag: &str, values: &Vec<String>)
    ensures
        lines_view(final(out)@) == lines_view(old(out)@) + flagged(flag@, values@),
{
    let ghost start = lines_view(out@);
    let mut i: usize = 0;
    while i < values.len()
        invariant
            i <= values@.len(),
            lines_view(out@) == start + flagged(flag@, values@.take(i as int)),
        decreases values@.len() - i,
    {
        proof {
            assert(values@.take(i as int + 1).drop_last() =~= values@.take(i as int));
            assert(values@.take(i as int + 1).last() == values@[i as int]);
        }
        push_text(out, flag);
        push_text(out, values[i].as_str());
        proof {
            assert(lines_view(out@) =~= start + flagged(flag@, values@.take(i as int + 1)));
        }
        i = i + 1;
    }
    proof {
        assert(values@.take(i as int) =~= values@);
    }
}

impl BubblewrapExecutor {
    /// An executor for the build environment of `ctx`.
    pub fn new(ctx: &InitializeContext, options: Options) -> (executor: Self)
        ensures
            executor.environment@ == ctx.environment@,
            executor.options == options,
    {
        BubblewrapExecutor { environment: ctx.environment.clone(), options }
    }

    /// The arguments to run `request` with in `bwrap`.
    pub fn arguments(&self, request: &CommandRequest) -> (arguments: Vec<String>)
        ensures
            lines_view(arguments@) == sandbox_arguments(self.environment@, self.options, *request),
    {
        let mut out: Vec<String> = Vec::new();
        let ghost start = lines_view(out@);
        proof {
            assert(start =~= Seq::<Seq<char>>::empty());
        }
        push_text(&mut out, "--bind");
        push_text(&mut out, self.environment.as_str());
        push_text(&mut out, "/");
        push_text(&mut out, "--ro-bind");
        push_text(&mut out, "busybox-bootstrap");
        push_text(&mut out, "/busybox");
        push_text(&mut out, "--proc");
        push_text(&mut out, "/proc");
        push_text(&mut out, "--dev");
        push_text(&mut out, "/dev");
        push_text(&mut out, "--new-session");
        push_text(&mut out, "--die-with-parent");
        push_text(&mut out, "--clearenv");
        push_text(&mut out, "--unshare-all");
        let ghost essentials = lines_view(out@);
        push_flagged(&mut out, "--cap-add", &self.options.add_capabilities);
        push_flagged(&mut out, "--cap-drop", &self.options.drop_capabilities);
        let ghost capabilities = lines_view(out@);
        if self.options.network {
            push_text(&mut out, "--share-net");
        }
        let ghost network = lines_view(out@);
        match &request.working_dir {
            Some(dir) => {
                push_text(&mut out, "--chdir");
                push_text(&mut out, dir.as_str());
            },
            None => {},
        }
        let ghost directory = lines_view(out@);
        let mut i: usize = 0;
        while i < request.environment.len()
            invariant
                i <= request.environment@.len(),
                lines_view(out@) == directory + setenv_flags(request.environment@.take(i as int)),
            decreases request.environment@.len() - i,
        {
            proof {
                assert(request.environment@.take(i as int + 1).drop_last() =~= request.environment@.take(
                    i as int,
                ));
                assert(request.environment@.take(i as int + 1).last() == request.environment@[i as int]);
            }
            let (key, value) = &request.environment[i];
            push_text(&mut out, "--setenv");
            push_text(&mut out, key.as_str());
            push_text(&mut out, value.as_str());
            proof {
                assert(lines_view(out@) =~= directory + setenv_flags(
                    request.environment@.take(i as int + 1),
                ));
            }
            i = i + 1;
        }
        proof {
            assert(request.environment@.take(i as int) =~= request.environment@);
        }
        push_text(&mut out, "--");
        push_text(&mut out, request.program.as_str());
        let ghost before_arguments = lines_view(out@);
        let mut j: usize = 0;
        while j < request.arguments.len()
            invariant
                j <= request.arguments@.len(),
                lines_view(out@) == before_arguments + lines_view(request.arguments@.take(j as int)),
            decreases request.arguments@.len() - j,
        {
            push_text(&mut out, request.arguments[j].as_str());
            proof {
                assert(lines_view(request.arguments@.take(j as int + 1)) =~= lines_view(
                    request.arguments@.take(j as int),
                ).push(request.arguments@[j as int]@));
            }
            j = j + 1;
        }
        proof {
            assert(request.arguments@.take(j as int) =~= request.arguments@);
            assert(lines_view(out@) =~= sandbox_arguments(self.environment@, self.options, *request));
        }
        out
    }
}

/// The command line of a request, for logging: the program and its
/// arguments separated by spaces.
pub open spec fn command_line_text(request: CommandRequest) -> Seq<char> {
    joined_with_spaces(seq![request.program@] + lines_view(request.arguments@))
}

/// Words separated by single spaces.
pub open spec fn joined_with_spaces(words: Seq<Seq<char>>) -> Seq<char>
    decreases words.len(),
{
    if words.len() == 0 {
        Seq::empty()
    } else if words.len() == 1 {
        words[0]
    } else {
        joined_with_spaces(words.drop_last()) + " "@ + words.last()
    }
}

/// The command line of `request`, for logging.
pub fn command_line(request: &CommandRequest) -> (line: String)
    ensures
        line@ == command_line_text(*request),
{
    let ghost words = seq![request.program@] + lines_view(request.arguments@);
    let mut line = String::from_str(request.program.as_str());
    proof {
        assert(words.take(1) =~= seq![request.program@]);
    }
    let mut j: usize = 0;
    while j < request.arguments.len()
        invariant
            j <= request.arguments@.len(),
            words == seq![request.program@] + lines_view(request.arguments@),
            line@ == joined_with_spaces(words.take(j as int + 1)),
        decreases request.arguments@.len() - j,
    {
        proof {
            assert(words.take(j as int + 2).drop_last() =~= words.take(j as int + 1));
            assert(words.take(j as int + 2).last() == request.arguments@[j as int]@);
        }
        line.append(" ");
        line.append(request.arguments[j].as_str());
        j = j + 1;
    }
    proof {
        assert(words.take(j as int + 1) =~= words);
    }
    line
}

} // verus!
