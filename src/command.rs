use vstd::prelude::*;

verus! {

/// An option of a subcommand: long name, help text, short letter.
#[derive(Debug)]
pub struct Opt {
    pub name: String,
    pub help: String,
    pub short: Option<char>,
}

/// What the command line shows of a subcommand.
#[derive(Debug)]
pub struct Command {
    pub name: String,
    pub about: String,
    pub opts: Vec<Opt>,
    pub after_help: String,
}

fn opt(name: &str, help: &str, short: Option<char>) -> (r: Opt)
    ensures
        r.name@ == name@,
        r.help@ == help@,
        r.short == short,
{
    Opt { name: name.to_string(), help: help.to_string(), short }
}

/// The `generate-lockfile` subcommand: a quiet flag and the manifest path.
pub fn cli() -> (r: Command)
    ensures
        r.name@ == "generate-lockfile"@,
        r.about@ == "Generate the lockfile for a package"@,
        r.opts@.len() == 2,
        r.opts@[0].name@ == "quiet"@,
        r.opts@[0].help@ == "No output printed to stdout"@,
        r.opts@[0].short == Some('q'),
        r.opts@[1].name@ == "manifest-path"@,
        r.opts@[1].help@ == "Path to Cargo.toml"@,
        r.opts@[1].short is None,
        r.after_help@ == "Run `cargo help generate-lockfile` for more detailed information.\n"@,
{
    let mut opts: Vec<Opt> = Vec::new();
    opts.push(opt("quiet", "No output printed to stdout", Some('q')));
    opts.push(opt("manifest-path", "Path to Cargo.toml", None));
    Command {
        name: "generate-lockfile".to_string(),
        about: "Generate the lockfile for a package".to_string(),
        opts,
        after_help: "Run `cargo help generate-lockfile` for more detailed information.\n".to_string(),
    }
}

/// The target triples to resolve for: `all` where the deprecated
/// `--all-targets` flag was given (the second result then asks for a
/// warning), otherwise the `--target` values as given.
pub fn requested_targets(all_targets: bool, targets: Vec<String>) -> (r: (Vec<String>, bool))
    ensures
        all_targets ==> r.0@.len() == 1 && r.0@[0]@ == "all"@ && r.1,
        !all_targets ==> r.0@ == targets@ && !r.1,
{
    if all_targets {
        let mut v: Vec<String> = Vec::new();
        v.push("all".to_string());
        (v, true)
    } else {
        (targets, false)
    }
}

} // verus!
