//! The decisions of the daily front door: its command line, which rows a run
//! covers, and the CPU name that labels a run.
use vstd::prelude::*;
use crate::benchmarks::manifest::{
    Row, ManifestError, str_eq, resolve_ids, request_refusal, list_rows, request_ok, request_id, request_error,
    selected_rows,
};

verus! {

/// A subcommand of the daily front door.
#[derive(Debug, Clone, Copy, PartialEq, Eq, Structural)]
pub enum Subcommand {
    List,
    Run,
}

/// What the daily command line asks for.
#[derive(Debug, Clone)]
pub enum CliCommand {
    /// List the manifest rows.
    List { nightly_only: bool, section: Option<String> },
    /// Run rows named by id or key, or a section, or the nightly rows with `--csv`.
    Run { ids: Vec<String>, section: Option<String>, write_csv: bool },
    /// No arguments: run the nightly rows and append them to the CSV file.
    Nightly,
}

/// Why the daily command line was refused.
#[derive(Debug, Clone)]
pub enum CliError {
    /// `--section` came last, with no name after it.
    MissingSectionValue(Subcommand),
    /// `list` was given a flag it does not know.
    UnknownFlag(String),
    /// The first argument is no subcommand.
    UnknownSubcommand(String),
}

/// The outcome of the command line, strings taken as characters.
pub enum CommandOutcome {
    List { nightly_only: bool, section: Option<Seq<char>> },
    Run { ids: Seq<Seq<char>>, section: Option<Seq<char>>, write_csv: bool },
    Nightly,
    MissingSectionValue(Subcommand),
    UnknownFlag(Seq<char>),
    UnknownSubcommand(Seq<char>),
}

pub open spec fn opt_string_view(s: Option<String>) -> Option<Seq<char>> {
    match s {
        Some(v) => Some(v@),
        None => None,
    }
}

pub open spec fn strings_view(v: Seq<String>) -> Seq<Seq<char>> {
    v.map_values(|s: String| s@)
}

pub open spec fn command_outcome(r: Result<CliCommand, CliError>) -> CommandOutcome {
    match r {
        Ok(CliCommand::List { nightly_only, section }) => CommandOutcome::List {
            nightly_only,
            section: opt_string_view(section),
        },
        Ok(CliCommand::Run { ids, section, write_csv }) => CommandOutcome::Run {
            ids: strings_view(ids@),
            section: opt_string_view(section),
            write_csv,
        },
        Ok(CliCommand::Nightly) => CommandOutcome::Nightly,
        Err(CliError::MissingSectionValue(s)) => CommandOutcome::MissingSectionValue(s),
        Err(CliError::UnknownFlag(f)) => CommandOutcome::UnknownFlag(f@),
        Err(CliError::UnknownSubcommand(c)) => CommandOutcome::UnknownSubcommand(c@),
    }
}

/// The flags of `list` from position `i` on.
pub open spec fn parse_list_from(
    args: Seq<Seq<char>>,
    i: nat,
    nightly_only: bool,
    section: Option<Seq<char>>,
) -> CommandOutcome
    decreases args.len() - i,
{
    if i >= args.len() {
        CommandOutcome::List { nightly_only, section }
    } else if args[i as int] == "--nightly"@ {
        parse_list_from(args, i + 1, true, section)
    } else if args[i as int] == "--section"@ {
        if i + 1 >= args.len() {
            CommandOutcome::MissingSectionValue(Subcommand::List)
        } else {
            parse_list_from(args, i + 2, nightly_only, Some(args[i + 1 as int]))
        }
    } else {
        CommandOutcome::UnknownFlag(args[i as int])
    }
}

/// The flags and ids of `run` from position `i` on.
pub open spec fn parse_run_from(
    args: Seq<Seq<char>>,
    i: nat,
    ids: Seq<Seq<char>>,
    section: Option<Seq<char>>,
    write_csv: bool,
) -> CommandOutcome
    decreases args.len() - i,
{
    if i >= args.len() {
        CommandOutcome::Run { ids, section, write_csv }
    } else if args[i as int] == "--csv"@ {
        parse_run_from(args, i + 1, ids, section, true)
    } else if args[i as int] == "--section"@ {
        if i + 1 >= args.len() {
            CommandOutcome::MissingSectionValue(Subcommand::Run)
        } else {
            parse_run_from(args, i + 2, ids, Some(args[i + 1 as int]), write_csv)
        }
    } else {
        parse_run_from(args, i + 1, ids.push(args[i as int]), section, write_csv)
    }
}

/// `daily`, `daily list [--nightly] [--section NAME]`,
/// `daily run [--csv] [--section NAME] [ID...]`.
pub open spec fn spec_parse_command(args: Seq<Seq<char>>) -> CommandOutcome {
    if args.len() == 0 {
        CommandOutcome::Nightly
    } else if args[0] == "list"@ {
        parse_list_from(args, 1, false, None)
    } else if args[0] == "run"@ {
        parse_run_from(args, 1, Seq::empty(), None, false)
    } else {
        CommandOutcome::UnknownSubcommand(args[0])
    }
}

proof fn lemma_list_same_rest(
    x: Seq<Seq<char>>,
    i: nat,
    y: Seq<Seq<char>>,
    j: nat,
    nightly_only: bool,
    section: Option<Seq<char>>,
)
    requires
        i <= x.len(),
        j <= y.len(),
        x.skip(i as int) == y.skip(j as int),
    ensures
        parse_list_from(x, i, nightly_only, section) == parse_list_from(y, j, nightly_only, section),
    decreases x.len() - i,
{
    assert(x.skip(i as int).len() == x.len() - i);
    assert(y.skip(j as int).len() == y.len() - j);
    if i < x.len() {
        assert(x[i as int] == x.skip(i as int)[0]);
        assert(y[j as int] == y.skip(j as int)[0]);
        assert(x.skip(i + 1 as int) =~= x.skip(i as int).skip(1));
        assert(y.skip(j + 1 as int) =~= y.skip(j as int).skip(1));
        if i + 1 < x.len() {
            assert(x[i + 1 as int] == x.skip(i as int)[1]);
            assert(y[j + 1 as int] == y.skip(j as int)[1]);
            assert(x.skip(i + 2 as int) =~= x.skip(i as int).skip(2));
            assert(y.skip(j + 2 as int) =~= y.skip(j as int).skip(2));
            lemma_list_same_rest(x, i + 2, y, j + 2, nightly_only, Some(x[i + 1 as int]));
        }
        lemma_list_same_rest(x, i + 1, y, j + 1, true, section);
    }
}

/// `--nightly` never changes the section a listing is limited to: wherever
/// it stands among the flags of `list`, it only turns the nightly filter on.
pub proof fn lemma_nightly_keeps_section(
    args: Seq<Seq<char>>,
    i: nat,
    nightly_only: bool,
    section: Option<Seq<char>>,
)
    requires
        i < args.len(),
        args[i as int] == "--nightly"@,
    ensures
        parse_list_from(args, i, nightly_only, section) == parse_list_from(args, i + 1, true, section),
{
}

/// `--csv` never changes what a run covers: wherever it stands among the
/// arguments of `run`, it only turns on writing the CSV file, and every
/// argument that is neither `--csv` nor `--section` (with its name) is
/// requested, in its order.
pub proof fn lemma_run_arguments(
    args: Seq<Seq<char>>,
    i: nat,
    ids: Seq<Seq<char>>,
    section: Option<Seq<char>>,
    write_csv: bool,
)
    requires
        i < args.len(),
    ensures
        args[i as int] == "--csv"@ ==> parse_run_from(args, i, ids, section, write_csv) == parse_run_from(
            args,
            i + 1,
            ids,
            section,
            true,
        ),
        args[i as int] != "--csv"@ && args[i as int] != "--section"@ ==> parse_run_from(
            args,
            i,
            ids,
            section,
            write_csv,
        ) == parse_run_from(args, i + 1, ids.push(args[i as int]), section, write_csv),
{
}

/// The flags of `list` may come in either order: `list --section X
/// --nightly` and `list --nightly --section X` ask for the same listing,
/// whatever follows them, and on their own they ask for the nightly rows of
/// section X.
pub proof fn lemma_list_flags_commute(x: Seq<char>, rest: Seq<Seq<char>>)
    ensures
        spec_parse_command(seq!["list"@, "--section"@, x, "--nightly"@] + rest) == spec_parse_command(
            seq!["list"@, "--nightly"@, "--section"@, x] + rest,
        ),
        spec_parse_command(seq!["list"@, "--section"@, x, "--nightly"@])
            == (CommandOutcome::List { nightly_only: true, section: Some(x) }),
{
    reveal_strlit("--nightly");
    reveal_strlit("--section");
    assert("--nightly"@ != "--section"@) by {
        assert("--nightly"@[2] != "--section"@[2]);
    }
    let a = seq!["list"@, "--section"@, x, "--nightly"@] + rest;
    let b = seq!["list"@, "--nightly"@, "--section"@, x] + rest;
    assert(a[0] == "list"@ && a[1] == "--section"@ && a[2] == x && a[3] == "--nightly"@);
    assert(b[0] == "list"@ && b[1] == "--nightly"@ && b[2] == "--section"@ && b[3] == x);
    assert(a.len() == 4 + rest.len() && b.len() == 4 + rest.len());
    assert(parse_list_from(a, 1, false, None) == parse_list_from(a, 3, false, Some(x)));
    assert(parse_list_from(a, 3, false, Some(x)) == parse_list_from(a, 4, true, Some(x)));
    assert(parse_list_from(b, 1, false, None) == parse_list_from(b, 2, true, None));
    assert(parse_list_from(b, 2, true, None) == parse_list_from(b, 4, true, Some(x)));
    assert(a.skip(4) =~= rest);
    assert(b.skip(4) =~= rest);
    lemma_list_same_rest(a, 4, b, 4, true, Some(x));
    let c = seq!["list"@, "--section"@, x, "--nightly"@];
    assert(c[0] == "list"@ && c[1] == "--section"@ && c[2] == x && c[3] == "--nightly"@);
    assert(parse_list_from(c, 1, false, None) == parse_list_from(c, 3, false, Some(x)));
    assert(parse_list_from(c, 3, false, Some(x)) == parse_list_from(c, 4, true, Some(x)));
}

/// Reads the daily command line (the program name not among the arguments),
/// or says why it is refused.
fn read_command(args: &[String]) -> (r: Result<CliCommand, CliError>)
    ensures
        command_outcome(r) == spec_parse_command(strings_view(args@)),
{
    let ghost views = strings_view(args@);
    if args.len() == 0 {
        return Ok(CliCommand::Nightly);
    }
    assert(views[0] == args@[0]@);
    if str_eq(args[0].as_str(), "list") {
        let mut nightly_only = false;
        let mut section: Option<String> = None;
        let mut i: usize = 1;
        while i < args.len()
            invariant
                1 <= i <= args@.len(),
                views == strings_view(args@),
                views[0] == "list"@,
                spec_parse_command(views) == parse_list_from(
                    views,
                    i as nat,
                    nightly_only,
                    opt_string_view(section),
                ),
            decreases args.len() - i,
        {
            assert(views[i as int] == args@[i as int]@);
            if str_eq(args[i].as_str(), "--nightly") {
                nightly_only = true;
                i = i + 1;
            } else if str_eq(args[i].as_str(), "--section") {
                if i + 1 >= args.len() {
                    return Err(CliError::MissingSectionValue(Subcommand::List));
                }
                assert(views[i + 1] == args@[i + 1]@);
                section = Some(args[i + 1].clone());
                i = i + 2;
            } else {
                return Err(CliError::UnknownFlag(args[i].clone()));
            }
        }
        Ok(CliCommand::List { nightly_only, section })
    } else if str_eq(args[0].as_str(), "run") {
        let mut write_csv = false;
        let mut section: Option<String> = None;
        let mut ids: Vec<String> = Vec::new();
        let mut i: usize = 1;
        assert(strings_view(ids@) =~= Seq::<Seq<char>>::empty());
        while i < args.len()
            invariant
                1 <= i <= args@.len(),
                views == strings_view(args@),
                views[0] != "list"@,
                views[0] == "run"@,
                spec_parse_command(views) == parse_run_from(
                    views,
                    i as nat,
                    strings_view(ids@),
                    opt_string_view(section),
                    write_csv,
                ),
            decreases args.len() - i,
        {
            assert(views[i as int] == args@[i as int]@);
            if str_eq(args[i].as_str(), "--csv") {
                write_csv = true;
                i = i + 1;
            } else if str_eq(args[i].as_str(), "--section") {
                if i + 1 >= args.len() {
                    return Err(CliError::MissingSectionValue(Subcommand::Run));
                }
                assert(views[i + 1] == args@[i + 1]@);
                section = Some(args[i + 1].clone());
                i = i + 2;
            } else {
                let ghost before = ids@;
                ids.push(args[i].clone());
                assert(strings_view(ids@) =~= strings_view(before).push(views[i as int]));
                i = i + 1;
            }
        }
        Ok(CliCommand::Run { ids, section, write_csv })
    } else {
        Err(CliError::UnknownSubcommand(args[0].clone()))
    }
}

/// Whether the command line is refused: `--section` without a name, a flag
/// that `list` does not know, or no subcommand.
pub open spec fn command_refused(o: CommandOutcome) -> bool {
    ||| o is MissingSectionValue
    ||| o is UnknownFlag
    ||| o is UnknownSubcommand
}

/// Why the daily command line is refused, or nothing where it is accepted.
pub fn check_command(args: &[String]) -> (r: Result<(), CliError>)
    ensures
        r is Ok <==> !command_refused(spec_parse_command(strings_view(args@))),
        r matches Err(e) ==> command_outcome(Err(e)) == spec_parse_command(strings_view(args@)),
{
    match read_command(args) {
        Ok(_) => Ok(()),
        Err(e) => Err(e),
    }
}

/// Reads an accepted daily command line (the program name not among the
/// arguments).
pub fn parse_command(args: &[String]) -> (c: CliCommand)
    requires
        !command_refused(spec_parse_command(strings_view(args@))),
    ensures
        command_outcome(Ok(c)) == spec_parse_command(strings_view(args@)),
{
    match read_command(args) {
        Ok(c) => c,
        Err(_) => vstd::pervasive::unreached(),
    }
}

/// Why a run covers no rows.
#[derive(Debug, Clone)]
pub enum RunError {
    /// A requested id or key was refused.
    Manifest(ManifestError),
    /// Neither ids, nor a section, nor `--csv` were given.
    NothingSelected,
    /// The selection is empty.
    NoRowsMatched,
}

/// Whether the id is one that some request resolves to.
pub open spec fn requested(rows: Seq<Row>, ids: Seq<String>, id: Seq<char>) -> bool {
    exists|k: int| 0 <= k < ids.len() && request_id(rows, (#[trigger] ids[k])@) == id
}

/// The rows, in manifest order, whose ids the requests resolve to.
pub open spec fn rows_requested(rows: Seq<Row>, ids: Seq<String>) -> Seq<Row> {
    rows.filter(|r: Row| requested(rows, ids, r.id@))
}

/// The rows a run covers, before the check that there are any.
pub open spec fn run_selection(
    rows: Seq<Row>,
    ids: Seq<String>,
    section: Option<Seq<char>>,
    write_csv: bool,
) -> Seq<Row> {
    if ids.len() > 0 {
        rows_requested(rows, ids)
    } else if section is Some {
        selected_rows(rows, false, section)
    } else {
        selected_rows(rows, true, None)
    }
}

/// With no requested ids, a section selects every row of that section, in
/// manifest order, whether or not `--csv` is given; `--csv` alone selects the
/// nightly rows; and with requested ids `--csv` changes nothing.
pub proof fn lemma_csv_does_not_narrow_a_selection(
    rows: Seq<Row>,
    ids: Seq<String>,
    s: Seq<char>,
    write_csv: bool,
)
    ensures
        ids.len() == 0 ==> run_selection(rows, ids, Some(s), write_csv) == rows.filter(
            |r: Row| r.section@ == s,
        ),
        ids.len() == 0 ==> run_selection(rows, ids, None, true) == rows.filter(|r: Row| r.nightly),
        ids.len() > 0 ==> run_selection(rows, ids, Some(s), true) == run_selection(rows, ids, Some(s), false),
        ids.len() > 0 ==> run_selection(rows, ids, None, true) == run_selection(rows, ids, None, false),
{
    let by_section = |row: Row| crate::benchmarks::manifest::row_selected(row, false, Some(s));
    assert(by_section =~= (|r: Row| r.section@ == s));
    let nightly = |row: Row| crate::benchmarks::manifest::row_selected(row, true, None);
    assert(nightly =~= (|r: Row| r.nightly));
}

/// Whether a run has a selection: requests that all resolve, or else a
/// section or `--csv`.
pub open spec fn plan_selects(rows: Seq<Row>, ids: Seq<String>, section: Option<&str>, write_csv: bool) -> bool {
    ||| (ids.len() > 0 && forall|k: int| 0 <= k < ids.len() ==> request_ok(rows, (#[trigger] ids[k])@))
    ||| (ids.len() == 0 && (section is Some || write_csv))
}

/// The rows that `daily run` covers: the requested ids or keys where there
/// are any, else the section where one is given, else the nightly rows where
/// `--csv` is given; none of these, or an empty selection, is refused.
pub fn plan_rows(rows: &[Row], ids: &[String], section: Option<&str>, write_csv: bool) -> (r: Result<
    Vec<Row>,
    RunError,
>)
    ensures
        ids@.len() > 0 && !(forall|k: int| 0 <= k < ids@.len() ==> request_ok(rows@, (#[trigger] ids@[k])@))
            ==> (r matches Err(RunError::Manifest(e)) && exists|f: int|
            {
                &&& 0 <= f < ids@.len()
                &&& forall|k: int| 0 <= k < f ==> request_ok(rows@, (#[trigger] ids@[k])@)
                &&& !request_ok(rows@, ids@[f]@)
                &&& request_error(e, rows@, ids@[f]@)
            }),
        ids@.len() == 0 && section is None && !write_csv ==> r matches Err(RunError::NothingSelected),
        plan_selects(rows@, ids@, section, write_csv) && run_selection(rows@, ids@, crate::benchmarks::manifest::opt_view(section), write_csv).len() == 0
            ==> r matches Err(RunError::NoRowsMatched),
        plan_selects(rows@, ids@, section, write_csv) && run_selection(rows@, ids@, crate::benchmarks::manifest::opt_view(section), write_csv).len() > 0
            ==> (r matches Ok(out) && out@ == run_selection(rows@, ids@, crate::benchmarks::manifest::opt_view(section), write_csv)),
{
    let ghost sec = crate::benchmarks::manifest::opt_view(section);
    let out: Vec<Row> = if ids.len() > 0 {
        match request_refusal(rows, ids) {
            Some(e) => {
                return Err(RunError::Manifest(e));
            },
            None => {},
        }
        let resolved = resolve_ids(rows, ids);
        select_by_id(rows, &resolved, ids)
    } else if let Some(s) = section {
        list_rows(rows, false, Some(s))
    } else if write_csv {
        list_rows(rows, true, None)
    } else {
        return Err(RunError::NothingSelected);
    };
    if out.len() == 0 {
        return Err(RunError::NoRowsMatched);
    }
    Ok(out)
}

/// The rows whose ids are among the resolved ids of the requests.
fn select_by_id(rows: &[Row], resolved: &Vec<String>, ids: &[String]) -> (out: Vec<Row>)
    requires
        resolved@.len() == ids@.len(),
        forall|k: int| 0 <= k < ids@.len() ==> (#[trigger] resolved@[k])@ == request_id(rows@, ids@[k]@),
    ensures
        out@ == rows_requested(rows@, ids@),
{
    let mut out: Vec<Row> = Vec::new();
    let mut i: usize = 0;
    assert(rows_requested(rows@.take(0), ids@) == Seq::<Row>::empty()) by {
        reveal(Seq::filter);
    }
    while i < rows.len()
        invariant
            i <= rows@.len(),
            resolved@.len() == ids@.len(),
            forall|k: int| 0 <= k < ids@.len() ==> (#[trigger] resolved@[k])@ == request_id(rows@, ids@[k]@),
            out@ == rows@.take(i as int).filter(|r: Row| requested(rows@, ids@, r.id@)),
        decreases rows.len() - i,
    {
        let row = &rows[i];
        let keep = crate::benchmarks::manifest::contains_string(resolved.as_slice(), row.id.as_str());
        proof {
            if keep {
                let k = choose|k: int| 0 <= k < resolved@.len() && (#[trigger] resolved@[k])@ == row.id@;
                assert(request_id(rows@, ids@[k]@) == row.id@);
            }
            if requested(rows@, ids@, row.id@) {
                let k = choose|k: int| 0 <= k < ids@.len() && request_id(rows@, (#[trigger] ids@[k])@) == row.id@;
                assert(resolved@[k]@ == row.id@);
            }
        }
        assert(rows@.take(i + 1).drop_last() =~= rows@.take(i as int));
        assert(rows@.take(i + 1).last() == *row);
        assert(rows@.take(i + 1).filter(|r: Row| requested(rows@, ids@, r.id@)) == if keep {
            rows@.take(i as int).filter(|r: Row| requested(rows@, ids@, r.id@)).push(*row)
        } else {
            rows@.take(i as int).filter(|r: Row| requested(rows@, ids@, r.id@))
        }) by {
            reveal(Seq::filter);
        }
        if keep {
            out.push(row.duplicate());
        }
        i = i + 1;
    }
    assert(rows@.take(rows@.len() as int) =~= rows@);
    out
}

/// The year in which a number of seconds since the epoch falls, counting
/// 146097 days to 400 years.
pub fn approx_year(secs: u64) -> (y: u64)
    ensures
        y == 1970 + (secs / 86400) * 400 / 146097,
{
    let days = secs / 86400;
    assert(days * 400 <= u64::MAX) by (nonlinear_arith)
        requires
            days == secs / 86400,
    ;
    1970 + days * 400 / 146097
}

} // verus!
