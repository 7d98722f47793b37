//! The command line of the headless de-duplicator: flags are parsed into a
//! map, and the command with its arguments is decided from them. Running the
//! command (the store, the file system, printing) is the caller's part.

use vstd::prelude::*;
use vstd::utf8::*;
use crate::text::{str_eq, strip_prefix};
use crate::organize::{all_digits, digits_value, is_digit, lemma_digits_value_prefix_le};

verus! {

// ---------------------------------------------------------------------------
// Flags.
// ---------------------------------------------------------------------------

/// The map that a run of `(name, value)` insertions leaves: a later value
/// for a name replaces an earlier one.
pub open spec fn flags_map(es: Seq<(Seq<char>, Seq<char>)>) -> Map<Seq<char>, Seq<char>>
    decreases es.len(),
{
    if es.len() == 0 {
        Map::empty()
    } else {
        flags_map(es.drop_last()).insert(es.last().0, es.last().1)
    }
}

/// The named flags of a command line, from name to value.
pub struct Flags {
    entries: Vec<(String, String)>,
}

impl View for Flags {
    type V = Map<Seq<char>, Seq<char>>;

    closed spec fn view(&self) -> Map<Seq<char>, Seq<char>> {
        flags_map(self.entries@.map_values(|e: (String, String)| (e.0@, e.1@)))
    }
}

/// Entries after position `i` with another name leave that name's value as
/// it was after the first `i` entries.
proof fn lemma_later_entries_irrelevant(es: Seq<(Seq<char>, Seq<char>)>, i: int, k: Seq<char>)
    requires
        0 <= i <= es.len(),
        forall|j: int| i <= j < es.len() ==> es[j].0 != k,
    ensures
        flags_map(es).contains_key(k) == flags_map(es.take(i)).contains_key(k),
        flags_map(es).contains_key(k) ==> flags_map(es)[k] == flags_map(es.take(i))[k],
    decreases es.len(),
{
    if es.len() == i {
        assert(es.take(i) =~= es);
    } else {
        lemma_later_entries_irrelevant(es.drop_last(), i, k);
        assert(es.drop_last().take(i) =~= es.take(i));
    }
}

impl Flags {
    pub fn new() -> (f: Flags)
        ensures
            f@ == Map::<Seq<char>, Seq<char>>::empty(),
    {
        let f = Flags { entries: Vec::new() };
        assert(f.entries@.map_values(|e: (String, String)| (e.0@, e.1@)) =~= Seq::empty());
        f
    }

    /// Sets `name` to `value`, replacing any earlier value.
    pub fn insert(&mut self, name: String, value: String)
        ensures
            final(self)@ == old(self)@.insert(name@, value@),
    {
        let ghost before = self.entries@.map_values(|e: (String, String)| (e.0@, e.1@));
        let ghost (n, v) = (name@, value@);
        self.entries.push((name, value));
        assert(self.entries@.map_values(|e: (String, String)| (e.0@, e.1@)).drop_last() =~= before);
        assert(self.entries@.map_values(|e: (String, String)| (e.0@, e.1@)).last() == (n, v));
    }

    /// The value of a flag, if it was given.
    pub fn get(&self, name: &str) -> (r: Option<&String>)
        ensures
            match r {
                Some(v) => self@.contains_key(name@) && self@[name@] == v@,
                None => !self@.contains_key(name@),
            },
    {
        let ghost es = self.entries@.map_values(|e: (String, String)| (e.0@, e.1@));
        let mut i: usize = self.entries.len();
        while i > 0
            invariant
                es == self.entries@.map_values(|e: (String, String)| (e.0@, e.1@)),
                i <= self.entries@.len(),
                forall|j: int| i <= j < es.len() ==> es[j].0 != name@,
            decreases i,
        {
            if str_eq(self.entries[i - 1].0.as_str(), name) {
                proof {
                    lemma_later_entries_irrelevant(es, i as int, name@);
                    assert(es.take(i as int).drop_last() =~= es.take(i - 1));
                }
                return Some(&self.entries[i - 1].1);
            }
            i -= 1;
        }
        proof {
            lemma_later_entries_irrelevant(es, 0, name@);
            assert(es.take(0) =~= Seq::<(Seq<char>, Seq<char>)>::empty());
        }
        None
    }

    /// Whether a flag was given.
    pub fn contains_key(&self, name: &str) -> (r: bool)
        ensures
            r == self@.contains_key(name@),
    {
        self.get(name).is_some()
    }
}

/// The flags that take no value: their presence alone sets them.
pub open spec fn is_bool_flag(name: Seq<char>) -> bool {
    name == "full"@ || name == "apply"@ || name == "recursive"@
}

/// Whether an argument is one of the conventional `--help` and `--version`,
/// which name a command rather than set a flag.
pub open spec fn is_conventional(a: Seq<char>) -> bool {
    a == "--help"@ || a == "--version"@
}

/// Reads a command line from position `i` on: `--name value` sets a flag,
/// `--full`, `--apply` and `--recursive` stand alone, a trailing `--name` gets an empty
/// value, everything else (`--help` and `--version` too) is positional.
pub open spec fn parse_from(
    args: Seq<Seq<char>>,
    i: int,
    pos: Seq<Seq<char>>,
    flags: Map<Seq<char>, Seq<char>>,
) -> (Seq<Seq<char>>, Map<Seq<char>, Seq<char>>)
    decreases args.len() - i,
{
    if i < 0 || i >= args.len() {
        (pos, flags)
    } else if !is_conventional(args[i]) && "--"@.is_prefix_of(args[i]) {
        let name = args[i].skip("--"@.len() as int);
        if is_bool_flag(name) {
            parse_from(args, i + 1, pos, flags.insert(name, "1"@))
        } else if i + 1 < args.len() {
            parse_from(args, i + 2, pos, flags.insert(name, args[i + 1]))
        } else {
            parse_from(args, i + 1, pos, flags.insert(name, Seq::empty()))
        }
    } else {
        parse_from(args, i + 1, pos.push(args[i]), flags)
    }
}

/// The positional arguments and the flags of a command line.
pub open spec fn spec_parse(args: Seq<Seq<char>>) -> (Seq<Seq<char>>, Map<Seq<char>, Seq<char>>) {
    parse_from(args, 0, Seq::empty(), Map::empty())
}

pub open spec fn strings(v: Seq<String>) -> Seq<Seq<char>> {
    v.map_values(|s: String| s@)
}

fn is_bool_flag_name(name: &str) -> (r: bool)
    ensures
        r == is_bool_flag(name@),
{
    str_eq(name, "full") || str_eq(name, "apply") || str_eq(name, "recursive")
}

/// Splits a command line into positional arguments and flags.
pub fn parse(args: &[String]) -> (r: (Vec<String>, Flags))
    ensures
        (strings(r.0@), r.1@) == spec_parse(strings(args@)),
{
    let ghost am = strings(args@);
    let mut pos: Vec<String> = Vec::new();
    let mut flags = Flags::new();
    let mut i: usize = 0;
    assert(strings(pos@) =~= Seq::<Seq<char>>::empty());
    while i < args.len()
        invariant
            am == strings(args@),
            i <= args@.len(),
            spec_parse(am) == parse_from(am, i as int, strings(pos@), flags@),
        decreases args@.len() - i,
    {
        let a = &args[i];
        assert(a@ == am[i as int]);
        let conventional = str_eq(a.as_str(), "--help") || str_eq(a.as_str(), "--version");
        let flag_name = if conventional {
            None
        } else {
            strip_prefix(a.as_str(), "--")
        };
        match flag_name {
            Some(name) => {
                if is_bool_flag_name(name) {
                    flags.insert(name.to_owned(), "1".to_owned());
                } else if i + 1 < args.len() {
                    assert(args@[i + 1]@ == am[i + 1]);
                    flags.insert(name.to_owned(), args[i + 1].clone());
                    i += 1;
                } else {
                    flags.insert(name.to_owned(), String::new());
                }
            },
            None => {
                let ghost before = strings(pos@);
                pos.push(a.clone());
                assert(strings(pos@) =~= before.push(am[i as int]));
            },
        }
        i += 1;
    }
    (pos, flags)
}

// ---------------------------------------------------------------------------
// Numbers.
// ---------------------------------------------------------------------------

/// What `str::parse::<usize>` gives for the UTF-8 bytes of a string: an
/// optional `+`, then one or more ASCII digits, at most `usize::MAX`.
pub open spec fn spec_parse_usize(b: Seq<u8>) -> Option<usize> {
    let d = if b.len() > 0 && b[0] == 0x2B { b.drop_first() } else { b };
    if d.len() == 0 || !all_digits(d) || digits_value(d) > usize::MAX {
        None
    } else {
        Some(digits_value(d) as usize)
    }
}

/// `str::parse::<usize>`, on the UTF-8 bytes of the text.
pub fn parse_usize(b: &[u8]) -> (r: Option<usize>)
    ensures
        r == spec_parse_usize(b@),
{
    let start: usize = if b.len() > 0 && b[0] == 0x2B { 1 } else { 0 };
    let ghost d = if b@.len() > 0 && b@[0] == 0x2B { b@.drop_first() } else { b@ };
    assert(d =~= b@.subrange(start as int, b@.len() as int));
    if start == b.len() {
        return None;
    }
    let mut acc: u128 = 0;
    let mut i: usize = start;
    while i < b.len()
        invariant
            start <= i <= b@.len(),
            start < b@.len(),
            d == b@.subrange(start as int, b@.len() as int),
            d == (if b@.len() > 0 && b@[0] == 0x2B { b@.drop_first() } else { b@ }),
            acc as nat == digits_value(b@.subrange(start as int, i as int)),
            acc <= usize::MAX,
            forall|j: int| start <= j < i ==> is_digit(b@[j]),
        decreases b@.len() - i,
    {
        proof {
            assert(b@.subrange(start as int, i + 1).drop_last() =~= b@.subrange(start as int, i as int));
        }
        if !(0x30 <= b[i] && b[i] <= 0x39) {
            assert(d[i - start] == b@[i as int]);
            assert(!is_digit(d[i - start]));
            return None;
        }
        let dig = (b[i] - 0x30) as u128;
        if acc * 10 + dig > usize::MAX as u128 {
            proof {
                assert(digits_value(b@.subrange(start as int, i + 1)) == acc * 10 + dig);
                assert(d.subrange(0, (i + 1 - start) as int) =~= b@.subrange(start as int, i + 1));
                if all_digits(d) {
                    lemma_digits_value_prefix_le(d, (i + 1 - start) as nat);
                }
            }
            return None;
        }
        acc = acc * 10 + dig;
        i += 1;
    }
    assert(b@.subrange(start as int, b@.len() as int) =~= d);
    assert forall|j: int| 0 <= j < d.len() implies is_digit(d[j]) by {
        assert(d[j] == b@[start + j]);
    }
    Some(acc as usize)
}

// ---------------------------------------------------------------------------
// Commands.
// ---------------------------------------------------------------------------

/// What a command line asks for.
pub enum Command {
    /// Scan `root` (and its subfolders when `recursive`) and hash what
    /// collides; `full` rebuilds the store.
    Scan { root: String, full: bool, recursive: bool },
    /// List at most `limit` duplicate groups.
    Groups { limit: usize },
    /// Count groups and duplicate files.
    Stats,
    /// The readable strings of one card.
    Strings { path: String },
    /// The number of top-level PNG files under `root`.
    Count { root: String },
    /// Say what would be deleted, delete nothing.
    DeleteDryRun { root: String, names: Vec<String> },
    /// Delete the named files under `root`.
    DeleteApply { root: String, names: Vec<String> },
    /// Plan where the cards under `root` belong (walking subfolders when
    /// `recursive`), checking voices against the install at `game_root`;
    /// move them only when `apply`.
    Organize { root: String, recursive: bool, game_root: Option<String>, apply: bool },
    /// The machine-readable manifest.
    Describe,
    /// The program's version.
    Version,
    /// The usage text, then exit with `exit`.
    Usage { exit: i32 },
    /// `command` was given without its required `--flag`.
    MissingFlag { command: String, flag: String },
    /// `delete` was given no name.
    NoNames,
    /// No such command.
    Unknown { command: String },
}

pub enum CommandModel {
    Scan { root: Seq<char>, full: bool, recursive: bool },
    Groups { limit: usize },
    Stats,
    Strings { path: Seq<char> },
    Count { root: Seq<char> },
    DeleteDryRun { root: Seq<char>, names: Seq<Seq<char>> },
    DeleteApply { root: Seq<char>, names: Seq<Seq<char>> },
    Organize { root: Seq<char>, recursive: bool, game_root: Option<Seq<char>>, apply: bool },
    Describe,
    Version,
    Usage { exit: i32 },
    MissingFlag { command: Seq<char>, flag: Seq<char> },
    NoNames,
    Unknown { command: Seq<char> },
}

impl View for Command {
    type V = CommandModel;

    open spec fn view(&self) -> CommandModel {
        match self {
            Command::Scan { root, full, recursive } => CommandModel::Scan {
                root: root@,
                full: *full,
                recursive: *recursive,
            },
            Command::Groups { limit } => CommandModel::Groups { limit: *limit },
            Command::Stats => CommandModel::Stats,
            Command::Strings { path } => CommandModel::Strings { path: path@ },
            Command::Count { root } => CommandModel::Count { root: root@ },
            Command::DeleteDryRun { root, names } => CommandModel::DeleteDryRun {
                root: root@,
                names: strings(names@),
            },
            Command::DeleteApply { root, names } => CommandModel::DeleteApply {
                root: root@,
                names: strings(names@),
            },
            Command::Organize { root, recursive, game_root, apply } => CommandModel::Organize {
                root: root@,
                recursive: *recursive,
                game_root: match game_root {
                    Some(g) => Some(g@),
                    None => None,
                },
                apply: *apply,
            },
            Command::Describe => CommandModel::Describe,
            Command::Version => CommandModel::Version,
            Command::Usage { exit } => CommandModel::Usage { exit: *exit },
            Command::MissingFlag { command, flag } => CommandModel::MissingFlag {
                command: command@,
                flag: flag@,
            },
            Command::NoNames => CommandModel::NoNames,
            Command::Unknown { command } => CommandModel::Unknown { command: command@ },
        }
    }
}

/// A flag's value, if it was given.
pub open spec fn flag(flags: Map<Seq<char>, Seq<char>>, name: Seq<char>) -> Option<Seq<char>> {
    if flags.contains_key(name) {
        Some(flags[name])
    } else {
        None
    }
}

/// The group limit: `--limit` when it reads as a `usize`, else no limit.
pub open spec fn spec_limit(flags: Map<Seq<char>, Seq<char>>) -> usize {
    match flag(flags, "limit"@) {
        Some(s) => match spec_parse_usize(encode_utf8(s)) {
            Some(n) => n,
            None => usize::MAX,
        },
        None => usize::MAX,
    }
}

/// The command that the first positional argument names, with what it needs
/// from the other arguments.
pub open spec fn spec_command(pos: Seq<Seq<char>>, flags: Map<Seq<char>, Seq<char>>) -> CommandModel {
    let cmd = if pos.len() > 0 { pos[0] } else { Seq::empty() };
    if cmd == "scan"@ {
        match flag(flags, "root"@) {
            Some(root) => CommandModel::Scan {
                root,
                full: flags.contains_key("full"@),
                recursive: flags.contains_key("recursive"@),
            },
            None => CommandModel::MissingFlag { command: "scan"@, flag: "root"@ },
        }
    } else if cmd == "groups"@ {
        CommandModel::Groups { limit: spec_limit(flags) }
    } else if cmd == "stats"@ {
        CommandModel::Stats
    } else if cmd == "strings"@ {
        match flag(flags, "path"@) {
            Some(path) => CommandModel::Strings { path },
            None => CommandModel::MissingFlag { command: "strings"@, flag: "path"@ },
        }
    } else if cmd == "count"@ {
        match flag(flags, "root"@) {
            Some(root) => CommandModel::Count { root },
            None => CommandModel::MissingFlag { command: "count"@, flag: "root"@ },
        }
    } else if cmd == "delete"@ {
        match flag(flags, "root"@) {
            Some(root) => {
                let names = pos.skip(1);
                if names.len() == 0 {
                    CommandModel::NoNames
                } else if flags.contains_key("apply"@) {
                    CommandModel::DeleteApply { root, names }
                } else {
                    CommandModel::DeleteDryRun { root, names }
                }
            },
            None => CommandModel::MissingFlag { command: "delete"@, flag: "root"@ },
        }
    } else if cmd == "organize"@ {
        match flag(flags, "root"@) {
            Some(root) => CommandModel::Organize {
                root,
                recursive: flags.contains_key("recursive"@),
                game_root: flag(flags, "game-root"@),
                apply: flags.contains_key("apply"@),
            },
            None => CommandModel::MissingFlag { command: "organize"@, flag: "root"@ },
        }
    } else if cmd == "describe"@ {
        CommandModel::Describe
    } else if cmd == "--version"@ || cmd == "version"@ {
        CommandModel::Version
    } else if cmd.len() == 0 {
        CommandModel::Usage { exit: 2 }
    } else if cmd == "help"@ || cmd == "--help"@ || cmd == "-h"@ {
        CommandModel::Usage { exit: 0 }
    } else {
        CommandModel::Unknown { command: cmd }
    }
}

/// A required flag's value, or the command that says it is missing.
fn need(flags: &Flags, name: &str, command: &str) -> (r: Result<String, Command>)
    ensures
        match r {
            Ok(v) => flag(flags@, name@) == Some(v@),
            Err(c) => flag(flags@, name@) is None && c@ == (CommandModel::MissingFlag {
                command: command@,
                flag: name@,
            }),
        },
{
    match flags.get(name) {
        Some(v) => Ok(v.clone()),
        None => Err(Command::MissingFlag { command: command.to_owned(), flag: name.to_owned() }),
    }
}

/// Decides the command from the positional arguments and the flags.
pub fn command(pos: &Vec<String>, flags: &Flags) -> (c: Command)
    ensures
        c@ == spec_command(strings(pos@), flags@),
{
    let ghost pm = strings(pos@);
    let cmd: &str = if pos.len() > 0 {
        pos[0].as_str()
    } else {
        ""
    };
    proof {
        reveal_strlit("");
        if pos@.len() > 0 {
            assert(cmd@ == pm[0]);
        } else {
            assert(cmd@ =~= Seq::<char>::empty());
        }
    }
    if str_eq(cmd, "scan") {
        match need(flags, "root", "scan") {
            Ok(root) => Command::Scan {
                root,
                full: flags.contains_key("full"),
                recursive: flags.contains_key("recursive"),
            },
            Err(c) => c,
        }
    } else if str_eq(cmd, "groups") {
        let limit = match flags.get("limit") {
            Some(s) => match parse_usize(s.as_str().as_bytes()) {
                Some(n) => n,
                None => usize::MAX,
            },
            None => usize::MAX,
        };
        Command::Groups { limit }
    } else if str_eq(cmd, "stats") {
        Command::Stats
    } else if str_eq(cmd, "strings") {
        match need(flags, "path", "strings") {
            Ok(path) => Command::Strings { path },
            Err(c) => c,
        }
    } else if str_eq(cmd, "count") {
        match need(flags, "root", "count") {
            Ok(root) => Command::Count { root },
            Err(c) => c,
        }
    } else if str_eq(cmd, "delete") {
        match need(flags, "root", "delete") {
            Ok(root) => {
                proof {
                    reveal_strlit("delete");
                    assert(pos@.len() > 0);
                }
                let mut names: Vec<String> = Vec::new();
                let mut j: usize = 1;
                assert(strings(names@) =~= pm.skip(1).take(0));
                while j < pos.len()
                    invariant
                        pm == strings(pos@),
                        1 <= j <= pos@.len(),
                        strings(names@) == pm.skip(1).take(j - 1),
                    decreases pos@.len() - j,
                {
                    let ghost before = strings(names@);
                    names.push(pos[j].clone());
                    assert(strings(names@) =~= before.push(pm[j as int]));
                    assert(pm.skip(1).take(j as int) =~= pm.skip(1).take(j - 1).push(pm[j as int]));
                    j += 1;
                }
                assert(pm.skip(1).take(j - 1) =~= pm.skip(1));
                if names.len() == 0 {
                    Command::NoNames
                } else if flags.contains_key("apply") {
                    Command::DeleteApply { root, names }
                } else {
                    Command::DeleteDryRun { root, names }
                }
            },
            Err(c) => c,
        }
    } else if str_eq(cmd, "organize") {
        match need(flags, "root", "organize") {
            Ok(root) => {
                let game_root = match flags.get("game-root") {
                    Some(g) => Some(g.clone()),
                    None => None,
                };
                Command::Organize {
                    root,
                    recursive: flags.contains_key("recursive"),
                    game_root,
                    apply: flags.contains_key("apply"),
                }
            },
            Err(c) => c,
        }
    } else if str_eq(cmd, "describe") {
        Command::Describe
    } else if str_eq(cmd, "--version") || str_eq(cmd, "version") {
        Command::Version
    } else if cmd.is_empty() {
        Command::Usage { exit: 2 }
    } else if str_eq(cmd, "help") || str_eq(cmd, "--help") || str_eq(cmd, "-h") {
        Command::Usage { exit: 0 }
    } else {
        Command::Unknown { command: cmd.to_owned() }
    }
}

/// A whole invocation: the command, the store (`--db`, when given) and the
/// grouping mode (`--mode`, `byte` by default).
pub struct Invocation {
    pub command: Command,
    pub db: Option<String>,
    pub mode: String,
}

pub open spec fn spec_invocation(args: Seq<Seq<char>>) -> (CommandModel, Option<Seq<char>>, Seq<char>) {
    let (pos, flags) = spec_parse(args);
    (
        spec_command(pos, flags),
        flag(flags, "db"@),
        match flag(flags, "mode"@) {
            Some(m) => m,
            None => "byte"@,
        },
    )
}

/// Reads a command line.
pub fn invocation(argv: &[String]) -> (inv: Invocation)
    ensures
        (
            inv.command@,
            match inv.db {
                Some(d) => Some(d@),
                None => None,
            },
            inv.mode@,
        ) == spec_invocation(strings(argv@)),
{
    let (pos, flags) = parse(argv);
    let command = command(&pos, &flags);
    let db = match flags.get("db") {
        Some(d) => Some(d.clone()),
        None => None,
    };
    let mode = match flags.get("mode") {
        Some(m) => m.clone(),
        None => "byte".to_owned(),
    };
    Invocation { command, db, mode }
}

/// A flag in the parsed map was either there before position `i` or was
/// named by a `--name` argument at or after it.
proof fn lemma_flag_named_by_an_argument(
    args: Seq<Seq<char>>,
    i: int,
    pos: Seq<Seq<char>>,
    flags: Map<Seq<char>, Seq<char>>,
    k: Seq<char>,
)
    requires
        parse_from(args, i, pos, flags).1.contains_key(k),
    ensures
        flags.contains_key(k) || exists|j: int|
            #![trigger args[j]]
            0 <= i <= j < args.len() && "--"@.is_prefix_of(args[j]) && args[j].skip("--"@.len() as int)
                == k,
    decreases args.len() - i,
{
    if 0 <= i < args.len() {
        if !is_conventional(args[i]) && "--"@.is_prefix_of(args[i]) {
            let name = args[i].skip("--"@.len() as int);
            if is_bool_flag(name) {
                lemma_flag_named_by_an_argument(args, i + 1, pos, flags.insert(name, "1"@), k);
            } else if i + 1 < args.len() {
                lemma_flag_named_by_an_argument(args, i + 2, pos, flags.insert(name, args[i + 1]), k);
            } else {
                lemma_flag_named_by_an_argument(args, i + 1, pos, flags.insert(name, Seq::empty()), k);
            }
        } else {
            lemma_flag_named_by_an_argument(args, i + 1, pos.push(args[i]), flags, k);
        }
    }
}

/// `delete` and `organize` are dry runs by default: a command line decides
/// to delete or move files only when one of its arguments is `--apply`.
pub proof fn law_changes_happen_only_when_applied(args: Seq<Seq<char>>)
    requires
        spec_invocation(args).0 is DeleteApply || spec_invocation(args).0 matches CommandModel::Organize {
            apply: true,
            ..
        },
    ensures
        exists|j: int| 0 <= j < args.len() && args[j] == "--apply"@,
{
    let (pos, flags) = spec_parse(args);
    assert(flags.contains_key("apply"@));
    lemma_flag_named_by_an_argument(args, 0, Seq::empty(), Map::empty(), "apply"@);
    let j = choose|j: int|
        #![trigger args[j]]
        0 <= j < args.len() && "--"@.is_prefix_of(args[j]) && args[j].skip("--"@.len() as int) == "apply"@;
    reveal_strlit("--");
    reveal_strlit("apply");
    reveal_strlit("--apply");
    assert(args[j] =~= "--"@ + args[j].skip("--"@.len() as int));
    assert(args[j] =~= "--apply"@);
}

/// A scan rebuilds the store from scratch only when asked: a command line
/// decides on a full scan only when one of its arguments is `--full`; any
/// other scan keeps the index and re-syncs it.
pub proof fn law_a_scan_is_full_only_when_asked(args: Seq<Seq<char>>)
    requires
        spec_invocation(args).0 matches CommandModel::Scan { full: true, .. },
    ensures
        exists|j: int| 0 <= j < args.len() && args[j] == "--full"@,
{
    let (pos, flags) = spec_parse(args);
    assert(flags.contains_key("full"@));
    lemma_flag_named_by_an_argument(args, 0, Seq::empty(), Map::empty(), "full"@);
    let j = choose|j: int|
        #![trigger args[j]]
        0 <= j < args.len() && "--"@.is_prefix_of(args[j]) && args[j].skip("--"@.len() as int) == "full"@;
    reveal_strlit("--");
    reveal_strlit("full");
    reveal_strlit("--full");
    assert(args[j] =~= "--"@ + args[j].skip("--"@.len() as int));
    assert(args[j] =~= "--full"@);
}

} // verus!
