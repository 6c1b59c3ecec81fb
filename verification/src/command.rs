//! What the program was asked to do.

use crate::text;
use vstd::prelude::*;
use vstd::string::*;

verus! {

/// What the program was asked to do: make a new store in a directory, or serve
/// the store of a directory at a network address.
pub enum Command {
    Init { path: String },
    Serve { path: String, address: String },
}

#[verifier::ext_equal]
pub enum CommandView {
    Init { path: Seq<char> },
    Serve { path: Seq<char>, address: Seq<char> },
}

impl View for Command {
    type V = CommandView;

    open spec fn view(&self) -> CommandView {
        match *self {
            Command::Init { path } => CommandView::Init { path: path@ },
            Command::Serve { path, address } => CommandView::Serve {
                path: path@,
                address: address@,
            },
        }
    }
}

/// What the arguments of the program, the first of which is its own name, ask
/// for, if they ask for anything.
pub open spec fn asked(args: Seq<String>) -> Option<CommandView> {
    if args.len() == 3 && args[1]@ == "init"@ {
        Some(CommandView::Init { path: args[2]@ })
    } else if args.len() == 3 && args[1]@ == "serve"@ {
        Some(CommandView::Serve { path: args[2]@, address: "127.0.0.1:7676"@ })
    } else if args.len() == 4 && args[1]@ == "serve"@ {
        Some(CommandView::Serve { path: args[2]@, address: args[3]@ })
    } else {
        None
    }
}

impl Command {
    /// What the arguments of the program ask for, or how they should be.
    pub fn parse(args: &[String]) -> (r: Result<Command, String>)
        ensures
            match asked(args@) {
                Some(command) => r matches Ok(c) && c@ == command,
                None => r matches Err(message) && message@
                    == "usage: kubelog init DATA_DIR | kubelog serve DATA_DIR [127.0.0.1:PORT]"@,
            },
    {
        if args.len() == 3 && text::same_text(args[1].as_str(), "init") {
            return Ok(Command::Init { path: args[2].as_str().to_owned() });
        }
        if args.len() == 3 && text::same_text(args[1].as_str(), "serve") {
            return Ok(
                Command::Serve {
                    path: args[2].as_str().to_owned(),
                    address: "127.0.0.1:7676".to_owned(),
                },
            );
        }
        if args.len() == 4 && text::same_text(args[1].as_str(), "serve") {
            return Ok(
                Command::Serve {
                    path: args[2].as_str().to_owned(),
                    address: args[3].as_str().to_owned(),
                },
            );
        }
        Err(
            "usage: kubelog init DATA_DIR | kubelog serve DATA_DIR [127.0.0.1:PORT]".to_owned(),
        )
    }
}

/// What the program does is told by how many arguments there are and by the first:
/// `init` takes a directory, and `serve` a directory and, if it is to be another
/// than the usual one, an address. Nothing else is done.
pub proof fn commands_are_told_by_their_words(args: Seq<String>)
    ensures
        match asked(args) {
            Some(CommandView::Init { path }) => args.len() == 3 && args[1]@ == "init"@ && path
                == args[2]@,
            Some(CommandView::Serve { path, address }) => (args.len() == 3 || args.len() == 4)
                && args[1]@ == "serve"@ && path == args[2]@ && address == if args.len() == 4 {
                args[3]@
            } else {
                "127.0.0.1:7676"@
            },
            None => !(args.len() == 3 && args[1]@ == "init"@) && !((args.len() == 3 || args.len()
                == 4) && args[1]@ == "serve"@),
        },
{
    reveal_strlit("init");
    reveal_strlit("serve");
}

} // verus!
