//! The pieces of `pebble help-json` that do not come from the command-line
//! definition: option names and the shape of each command's JSON output.
use crate::text::{push_char, same_str};
use vstd::prelude::*;
use vstd::string::StringExecFns;

verus! {

/// The name an option is listed under: `--<long>`, else `-<short>`, else its
/// identifier.
pub open spec fn option_name_spec(long: Option<Seq<char>>, short: Option<char>, id: Seq<char>) -> Seq<char> {
    match long {
        Some(l) => "--"@ + l,
        None => match short {
            Some(c) => seq!['-', c],
            None => id,
        },
    }
}

/// The name an option is listed under.
pub fn help_option_name(long: Option<&str>, short: Option<char>, id: &str) -> (r: String)
    ensures
        r@ == option_name_spec(
            match long {
                Some(l) => Some(l@),
                None => None,
            },
            short,
            id@,
        ),
{
    match long {
        Some(l) => {
            let mut s = String::from_str("--");
            s.append(l);
            proof {
                reveal_strlit("--");
            }
            s
        },
        None => match short {
            Some(c) => {
                let mut s = String::new();
                push_char(&mut s, '-');
                push_char(&mut s, c);
                s
            },
            None => String::from_str(id),
        },
    }
}

/// The JSON text describing the output of a command (and subcommand), for
/// the commands that have one.
pub open spec fn output_schema_spec(command: Seq<char>, subcommand: Option<Seq<char>>) -> Option<Seq<char>> {
    if subcommand is None {
        if command == "init"@ {
            Some("{\"status\":\"string\",\"project_root\":\"string\",\"tasks_dir\":\"string\",\"issue_prefix\":\"string\"}"@)
        } else if command == "list"@ || command == "search"@ {
            Some("{\"tasks\":[\"TaskObject\"]}"@)
        } else if command == "next"@ {
            Some("\"TaskObject|null\""@)
        } else if command == "show"@ {
            Some("\"TaskObject|{path:string}\""@)
        } else if command == "add"@ || command == "update"@ {
            Some("\"TaskObject\""@)
        } else if command == "archive"@ {
            Some("{\"archived\":[{\"id\":\"string\",\"moved_to\":\"string\"}]}"@)
        } else if command == "check"@ {
            Some(
                "{\"ok\":\"bool\",\"errors\":[{\"file\":\"string\",\"line\":\"number|null\",\"message\":\"string\",\"code\":\"string|null\"}]}"@,
            )
        } else if command == "help-json"@ {
            Some("\"HelpSchema\""@)
        } else {
            None
        }
    } else if command == "config"@ && subcommand == Some("get"@) {
        Some("{\"key\":\"string\",\"value\":\"string\"}"@)
    } else {
        None
    }
}

/// The JSON text describing the output of a command (and subcommand), or
/// none for a command without one.
pub fn help_json_output_schema(command_name: &str, subcommand_name: Option<&str>) -> (r: Option<String>)
    ensures
        match r {
            Some(s) => output_schema_spec(
                command_name@,
                match subcommand_name {
                    Some(x) => Some(x@),
                    None => None,
                },
            ) == Some(s@),
            None => output_schema_spec(
                command_name@,
                match subcommand_name {
                    Some(x) => Some(x@),
                    None => None,
                },
            ) is None,
        },
{
    proof {
        reveal_strlit("init");
        reveal_strlit("list");
        reveal_strlit("search");
        reveal_strlit("next");
        reveal_strlit("show");
        reveal_strlit("add");
        reveal_strlit("update");
        reveal_strlit("archive");
        reveal_strlit("check");
        reveal_strlit("help-json");
        reveal_strlit("config");
        reveal_strlit("get");
    }
    match subcommand_name {
        None => {
            if same_str(command_name, "init") {
                Some(String::from_str("{\"status\":\"string\",\"project_root\":\"string\",\"tasks_dir\":\"string\",\"issue_prefix\":\"string\"}"))
            } else if same_str(command_name, "list") || same_str(command_name, "search") {
                Some(String::from_str("{\"tasks\":[\"TaskObject\"]}"))
            } else if same_str(command_name, "next") {
                Some(String::from_str("\"TaskObject|null\""))
            } else if same_str(command_name, "show") {
                Some(String::from_str("\"TaskObject|{path:string}\""))
            } else if same_str(command_name, "add") || same_str(command_name, "update") {
                Some(String::from_str("\"TaskObject\""))
            } else if same_str(command_name, "archive") {
                Some(String::from_str("{\"archived\":[{\"id\":\"string\",\"moved_to\":\"string\"}]}"))
            } else if same_str(command_name, "check") {
                Some(String::from_str("{\"ok\":\"bool\",\"errors\":[{\"file\":\"string\",\"line\":\"number|null\",\"message\":\"string\",\"code\":\"string|null\"}]}"))
            } else if same_str(command_name, "help-json") {
                Some(String::from_str("\"HelpSchema\""))
            } else {
                None
            }
        },
        Some(sub) => {
            if same_str(command_name, "config") && same_str(sub, "get") {
                Some(String::from_str("{\"key\":\"string\",\"value\":\"string\"}"))
            } else {
                None
            }
        },
    }
}

} // verus!
