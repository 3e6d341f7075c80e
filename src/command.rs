use vstd::prelude::*;

verus! {

/// An external program to run: what it is, with which arguments, where, and
/// in which environment.
#[derive(Debug, Clone, PartialEq, Eq)]
pub struct CommandSpec {
    pub program: String,
    pub args: Vec<String>,
    /// The working directory, or the caller's own.
    pub workdir: Option<String>,
    /// `Some`: the environment is cleared and holds exactly these variables.
    /// `None`: the caller's environment is kept.
    pub env: Option<Vec<(String, String)>>,
    /// Standard input is closed rather than inherited.
    pub null_stdin: bool,
}

/// The mathematical value of a [`CommandSpec`].
pub ghost struct CommandModel {
    pub program: Seq<char>,
    pub args: Seq<Seq<char>>,
    pub workdir: Option<Seq<char>>,
    pub env: Option<Seq<(Seq<char>, Seq<char>)>>,
    pub null_stdin: bool,
}

pub open spec fn strings_view(v: Seq<String>) -> Seq<Seq<char>> {
    v.map_values(|x: String| x@)
}

pub open spec fn pairs_view(v: Seq<(String, String)>) -> Seq<(Seq<char>, Seq<char>)> {
    v.map_values(|p: (String, String)| (p.0@, p.1@))
}

/// What `shell_words::join` makes of a list of words.
pub uninterp spec fn shell_join_of(words: Seq<Seq<char>>) -> Seq<char>;

/// Relies on `shell_words::join`: the words quoted for a POSIX shell and joined
/// by spaces.
#[verifier::external_body]
fn shell_join(words: &Vec<String>) -> (r: String)
    ensures
        r@ == shell_join_of(strings_view(words@)),
{
    shell_words::join(words)
}

/// The command line shown for a command: program and arguments.
pub open spec fn command_line(c: CommandModel) -> Seq<char> {
    shell_join_of(seq![c.program] + c.args)
}

impl CommandSpec {
    pub open spec fn model(&self) -> CommandModel {
        CommandModel {
            program: self.program@,
            args: strings_view(self.args@),
            workdir: match self.workdir {
                Some(w) => Some(w@),
                None => None,
            },
            env: match self.env {
                Some(e) => Some(pairs_view(e@)),
                None => None,
            },
            null_stdin: self.null_stdin,
        }
    }

    /// A program with arguments, run where and as the caller runs.
    pub fn new(program: &str, args: Vec<String>) -> (r: CommandSpec)
        ensures
            r.model() == (CommandModel {
                program: program@,
                args: strings_view(args@),
                workdir: None,
                env: None,
                null_stdin: false,
            }),
    {
        CommandSpec { program: program.to_owned(), args, workdir: None, env: None, null_stdin: false }
    }

    /// The shell-quoted command line, as shown for approval and in errors.
    pub fn to_string(&self) -> (r: String)
        ensures
            r@ == command_line(self.model()),
    {
        let mut words: Vec<String> = Vec::new();
        words.push(self.program.clone());
        let mut i: usize = 0;
        while i < self.args.len()
            invariant
                i <= self.args@.len(),
                strings_view(words@) == seq![self.program@] + strings_view(self.args@).take(i as int),
            decreases self.args@.len() - i,
        {
            let ghost before = words@;
            words.push(self.args[i].clone());
            proof {
                assert(strings_view(words@) =~= strings_view(before).push(self.args@[i as int]@));
                assert(strings_view(self.args@).take(i as int + 1) =~= strings_view(self.args@).take(
                    i as int,
                ).push(self.args@[i as int]@));
            }
            i += 1;
        }
        proof {
            assert(strings_view(self.args@).take(self.args@.len() as int) =~= strings_view(self.args@));
        }
        shell_join(&words)
    }
}

} // verus!
