use vstd::prelude::*;

verus! {

/// What a line of the REPL can ask for.
#[derive(Clone, Copy, Debug, PartialEq, Eq)]
pub enum Command {
    Help,
    ListTables,
    ShowSchema,
    RegisterCsv,
    RegisterParquet,
    RunQuery,
    Generate,
}

/// The seed that `.generate` takes where the line gives none.
pub const DEFAULT_SEED: u32 = 42;

/// The command that goes by `word`, if there is one.
pub open spec fn command_named(word: Seq<char>) -> Option<Command> {
    if word == ".help"@ {
        Some(Command::Help)
    } else if word == ".tables"@ {
        Some(Command::ListTables)
    } else if word == ".schema"@ {
        Some(Command::ShowSchema)
    } else if word == ".regcsv"@ {
        Some(Command::RegisterCsv)
    } else if word == ".regparquet"@ {
        Some(Command::RegisterParquet)
    } else if word == ".run"@ {
        Some(Command::RunQuery)
    } else if word == ".generate"@ {
        Some(Command::Generate)
    } else {
        None
    }
}

/// Whether two strings hold the same text.
fn same_text(a: &str, b: &str) -> (r: bool)
    ensures
        r == (a@ == b@),
{
    let left = a.to_owned();
    let right = b.to_owned();
    left == right
}

impl Command {
    /// The number of words, the command's own among them, that a line has
    /// to hold for the command to be carried out.
    pub open spec fn words_needed(self) -> usize {
        match self {
            Command::Help => 1,
            Command::ListTables => 1,
            Command::ShowSchema => 2,
            Command::RegisterCsv => 2,
            Command::RegisterParquet => 2,
            Command::RunQuery => 2,
            Command::Generate => 3,
        }
    }

    /// Reads a command from the first word of a line.
    pub fn from_str(candidate: &str) -> (r: Result<Command, ()>)
        ensures
            r == match command_named(candidate@) {
                Some(command) => Ok::<Command, ()>(command),
                None => Err::<Command, ()>(()),
            },
    {
        if same_text(candidate, ".help") {
            Ok(Command::Help)
        } else if same_text(candidate, ".tables") {
            Ok(Command::ListTables)
        } else if same_text(candidate, ".schema") {
            Ok(Command::ShowSchema)
        } else if same_text(candidate, ".regcsv") {
            Ok(Command::RegisterCsv)
        } else if same_text(candidate, ".regparquet") {
            Ok(Command::RegisterParquet)
        } else if same_text(candidate, ".run") {
            Ok(Command::RunQuery)
        } else if same_text(candidate, ".generate") {
            Ok(Command::Generate)
        } else {
            Err(())
        }
    }

    /// Whether a line of `words` words holds what the command needs: a table
    /// for `.schema`, a path for `.regcsv` and `.regparquet`, a query for
    /// `.run`, a generator and a scale factor for `.generate`.
    pub fn is_complete(&self, words: usize) -> (r: bool)
        ensures
            r == (words >= self.words_needed()),
    {
        match self {
            Command::Help | Command::ListTables => words >= 1,
            Command::ShowSchema | Command::RegisterCsv | Command::RegisterParquet
            | Command::RunQuery => words >= 2,
            Command::Generate => words >= 3,
        }
    }
}

} // verus!
