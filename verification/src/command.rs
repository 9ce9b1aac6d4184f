//! A program to run, as plain text.

use vstd::prelude::*;

verus! {

/// A program and its arguments.
#[derive(Debug)]
pub struct CommandLine {
    pub program: String,
    pub args: Vec<String>,
}

impl View for CommandLine {
    type V = (Seq<char>, Seq<Seq<char>>);

    open spec fn view(&self) -> (Seq<char>, Seq<Seq<char>>) {
        (self.program@, self.args@.map_values(|a: String| a@))
    }
}

impl CommandLine {
    /// `program` with one argument, or with none.
    pub fn new(program: &str, arg: Option<&str>) -> (command: CommandLine)
        ensures
            command@ == (
                program@,
                match arg {
                    Some(a) => seq![a@],
                    None => Seq::<Seq<char>>::empty(),
                },
            ),
    {
        let mut args: Vec<String> = Vec::new();
        match arg {
            Some(a) => {
                args.push(a.to_owned());
            },
            None => {},
        }
        let command = CommandLine { program: program.to_owned(), args };
        proof {
            match arg {
                Some(a) => {
                    assert(command@.1 =~= seq![a@]);
                },
                None => {
                    assert(command@.1 =~= Seq::<Seq<char>>::empty());
                },
            }
        }
        command
    }
}

} // verus!
