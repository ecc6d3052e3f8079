use clap::{Arg, ArgAction, Command};
use zill::ZillSession;

fn base() -> Command {
    Command::new("zill").no_binary_name(true)
}

fn flag(id: &'static str, short: char, name: &'static str) -> Arg {
    Arg::new(id).short(short).value_name(name).required(false).action(ArgAction::SetTrue)
}

fn paths() -> Arg {
    Arg::new("paths").value_name("PATHS").num_args(1..).action(ArgAction::Append)
}

fn rg_cmd() -> Command {
    base()
        .arg(Arg::new("pattern").value_name("PATTERN").required(true).action(ArgAction::Set))
        .arg(paths())
        .arg(flag("line_number", 'n', "LINE_NUMBER"))
        .arg(flag("ignore_case", 'i', "IGNORE_CASE"))
        .arg(flag("count", 'c', "COUNT"))
        .arg(flag("files_with_matches", 'l', "FILES_WITH_MATCHES"))
        .arg(
            Arg::new("max_count")
                .long("max-count")
                .value_name("MAX_COUNT")
                .value_parser(clap::builder::RangedU64ValueParser::<u64>::new())
                .action(ArgAction::Set),
        )
}

fn fd_cmd() -> Command {
    base()
        .arg(Arg::new("pattern").value_name("PATTERN").action(ArgAction::Set))
        .arg(Arg::new("path").value_name("PATH").action(ArgAction::Set))
        .arg(Arg::new("extension").short('e').value_name("EXTENSION").action(ArgAction::Append))
        .arg(Arg::new("file_type").short('t').value_name("FILE_TYPE").action(ArgAction::Set))
        .arg(Arg::new("max_depth").short('d').value_name("MAX_DEPTH").value_parser(|s: &str| s.parse::<usize>()).action(ArgAction::Set))
        .arg(Arg::new("hidden").short('H').long("hidden").value_name("HIDDEN").required(false).action(ArgAction::SetTrue))
}

fn ls_cmd() -> Command {
    base().arg(flag("all", 'a', "ALL")).arg(flag("long", 'l', "LONG")).arg(flag("one_per_line", '1', "ONE_PER_LINE")).arg(paths())
}

fn cat_cmd() -> Command {
    base().arg(flag("number", 'n', "NUMBER")).arg(paths())
}

fn mkdir_cmd() -> Command {
    base().arg(flag("parents", 'p', "PARENTS")).arg(paths())
}

fn clap_says(cmd: Command, args: &[&str]) -> String {
    cmd.try_get_matches_from(args.to_vec()).err().expect("clap accepts").to_string()
}

fn zill_says(name: &str, args: &[&str]) -> (String, i32) {
    let mut s = ZillSession::new();
    let mut line = name.to_string();
    for a in args {
        line.push(' ');
        line.push_str(a);
    }
    let o = s.run(&line);
    (o.stderr, o.exit_code)
}

#[test]
fn rg_messages_are_clap_messages() {
    for args in [&["-z", "a"][..], &[], &["--max-count"], &["--max-count", "x", "a"], &["--max-count", "99999999999999999999", "a"], &["--max-count", "+", "a"], &["-h"], &["--help"], &["-nz", "a"], &["--bogus"]] {
        assert_eq!(zill_says("rg", args), (clap_says(rg_cmd(), args), 1), "{:?}", args);
    }
}

#[test]
fn fd_messages_are_clap_messages() {
    for args in [&["-z"][..], &["-t"], &["-e"], &["-d", "x"], &["-h"], &["--help"], &["a", "b", "c"]] {
        assert_eq!(zill_says("fd", args), (clap_says(fd_cmd(), args), 1), "{:?}", args);
    }
}

#[test]
fn ls_cat_mkdir_messages_are_clap_messages() {
    for args in [&["-z"][..], &["-h"], &["--help"], &["--x"]] {
        assert_eq!(zill_says("ls", args), (clap_says(ls_cmd(), args) + "\n", 1), "ls {:?}", args);
        assert_eq!(zill_says("cat", args), (clap_says(cat_cmd(), args) + "\n", 1), "cat {:?}", args);
        assert_eq!(zill_says("mkdir", args), (clap_says(mkdir_cmd(), args) + "\n", 1), "mkdir {:?}", args);
    }
}
