//! The command line, as values: what the parser produced, and how the tool
//! routes it. The declarative parser itself (help text, defaults, value
//! lists) belongs to the program; here are the parsed commands, the argument
//! list each is routed through, and the small decisions taken on the way.
use vstd::prelude::*;
use crate::config::ProtectionConfig;
use crate::machines::{machines_view, query_key, select, selection, tag_keys, Machine, TagMode};
use crate::artifact::lower;
use crate::text::{chars_of, decimal, decimal_string, is_word};

verus! {

/// What was asked of the tool.
pub struct Cli {
    pub command: Command,
    /// Verbose diagnostic output, on any subcommand.
    pub with_logs: bool,
    /// Creator mode: diagnostics only, never additional authority.
    pub creator: bool,
}

pub enum Command {
    /// Seal a folder into a capsule project.
    Seal(SealArgs),
    /// Build a sealed project into capsules on GitHub Actions.
    Build(BuildArgs),
    /// Make a build repository public or private.
    Visibility(VisibilityArgs),
    /// Manage the trusted machine registry.
    Machines { action: MachinesAction },
    /// Export this machine's fingerprint record.
    Export(ExportArgs),
    /// Launch a finished capsule.
    Run(RunArgs),
    /// Measure compression and decryption throughput.
    Bench,
}

pub struct SealArgs {
    pub input: String,
    pub output: String,
    /// Left out, it is read from `NYEDARCH_PASSPHRASE`.
    pub passphrase: Option<String>,
    pub location: Option<u32>,
    pub time: Vec<String>,
    pub time_tolerance_min: u32,
    pub tz_offset_min: i32,
    pub one_shot: bool,
    pub trust: Vec<String>,
    pub trust_tag: Vec<String>,
    pub tag_mode: String,
    pub trust_search: String,
    pub compression: String,
    pub hardware: String,
}

pub struct BuildArgs {
    pub project: String,
    pub owner: String,
    pub repo: String,
    pub visibility: String,
}

pub struct VisibilityArgs {
    pub owner: String,
    pub repo: String,
    pub visibility: String,
}

pub struct ExportArgs {
    pub output: String,
    pub labels: Vec<String>,
}

pub struct RunArgs {
    pub capsule: String,
    pub output: Option<String>,
}

pub enum MachinesAction {
    List { query: String, tag: Vec<String>, mode: String },
    Add { file: String },
    Remove { id: String },
    Label { id: String, labels: Vec<String> },
}

pub open spec fn texts(v: Seq<String>) -> Seq<Seq<char>> {
    v.map_values(|s: String| s@)
}

/// A signed number as `to_string` writes it.
pub open spec fn signed_decimal(v: int) -> Seq<char> {
    if v < 0 {
        "-"@ + decimal((-v) as nat)
    } else {
        decimal(v as nat)
    }
}

/// Texts joined by `,`.
pub open spec fn comma_joined(v: Seq<Seq<char>>) -> Seq<char>
    decreases v.len(),
{
    if v.len() == 0 {
        Seq::empty()
    } else if v.len() == 1 {
        v[0]
    } else {
        comma_joined(v.drop_last()) + ","@ + v.last()
    }
}

/// Each value after its flag: `--flag v1 --flag v2 ...`.
pub open spec fn flagged(flag: Seq<char>, v: Seq<Seq<char>>) -> Seq<Seq<char>>
    decreases v.len(),
{
    if v.len() == 0 {
        Seq::empty()
    } else {
        flagged(flag, v.drop_last()) + seq![flag, v.last()]
    }
}

pub open spec fn when(c: bool, s: Seq<Seq<char>>) -> Seq<Seq<char>> {
    if c {
        s
    } else {
        Seq::empty()
    }
}

/// The argument list a seal is routed through, with the passphrase chosen.
pub open spec fn seal_list(a: SealArgs, creator: bool, pass: Seq<char>) -> Seq<Seq<char>> {
    seq!["nyedarch"@, "seal"@, a.input@, a.output@, pass]
        + (match a.location {
            Some(m) => seq!["--location"@, decimal(m as nat)],
            None => Seq::empty(),
        })
        + when(a.time@.len() > 0, seq!["--time"@, comma_joined(texts(a.time@))])
        + seq!["--time-tolerance-min"@, decimal(a.time_tolerance_min as nat), "--tz-offset-min"@, signed_decimal(a.tz_offset_min as int)]
        + when(a.one_shot, seq!["--one-shot"@])
        + flagged("--trust"@, texts(a.trust@))
        + flagged("--trust-tag"@, texts(a.trust_tag@))
        + seq!["--tag-mode"@, a.tag_mode@]
        + when(a.trust_search@.len() > 0, seq!["--trust-search"@, a.trust_search@])
        + seq!["--compression"@, a.compression@, "--hardware"@, a.hardware@]
        + when(creator, seq!["--creator"@])
}

pub open spec fn machines_list(action: MachinesAction) -> Seq<Seq<char>> {
    seq!["nyedarch"@, "machines"@] + match action {
        MachinesAction::List { query, tag, mode } => seq!["list"@] + when(query@.len() > 0, seq![query@])
            + flagged("--tag"@, texts(tag@)) + seq!["--mode"@, mode@],
        MachinesAction::Add { file } => seq!["add"@, file@],
        MachinesAction::Remove { id } => seq!["remove"@, id@],
        MachinesAction::Label { id, labels } => seq!["label"@, id@] + texts(labels@),
    }
}

/// The argument list each command is routed through. A seal needs a
/// passphrase, from the command line or else a non-empty one from the
/// environment; without one there is nothing to route.
pub open spec fn spec_command_args(cli: Cli, env_passphrase: Option<Seq<char>>) -> Option<Seq<Seq<char>>> {
    match cli.command {
        Command::Seal(a) => match a.passphrase {
            Some(p) => Some(seal_list(a, cli.creator, p@)),
            None => match env_passphrase {
                Some(p) => if p.len() > 0 {
                    Some(seal_list(a, cli.creator, p))
                } else {
                    None
                },
                None => None,
            },
        },
        Command::Build(a) => Some(seq!["nyedarch"@, "build"@, a.project@, a.owner@, a.repo@, a.visibility@]),
        Command::Visibility(a) => Some(seq!["nyedarch"@, "visibility"@, a.owner@, a.repo@, a.visibility@]),
        Command::Export(a) => Some(seq!["nyedarch"@, "export"@, a.output@] + texts(a.labels@)),
        Command::Run(a) => Some(
            seq!["nyedarch"@, "run"@, a.capsule@] + match a.output {
                Some(o) => seq![o@],
                None => Seq::empty(),
            },
        ),
        Command::Bench => Some(seq!["nyedarch"@, "bench"@]),
        Command::Machines { action } => Some(machines_list(action)),
    }
}

fn push_str(v: &mut Vec<String>, s: &str)
    ensures
        texts(final(v)@) == texts(old(v)@).push(s@),
{
    let ghost before = v@;
    v.push(String::from_str(s));
    assert(texts(v@) =~= texts(before).push(s@));
}

fn push_flagged(v: &mut Vec<String>, flag: &str, items: &Vec<String>)
    ensures
        texts(final(v)@) == texts(old(v)@) + flagged(flag@, texts(items@)),
{
    let ghost start = texts(v@);
    let mut i: usize = 0;
    assert(texts(items@).take(0) =~= Seq::<Seq<char>>::empty());
    assert(start + flagged(flag@, texts(items@).take(0)) =~= start);
    while i < items.len()
        invariant
            i <= items@.len(),
            texts(v@) == start + flagged(flag@, texts(items@).take(i as int)),
        decreases items@.len() - i,
    {
        push_str(v, flag);
        push_str(v, items[i].as_str());
        assert(texts(items@).take(i + 1).drop_last() =~= texts(items@).take(i as int));
        assert(start + flagged(flag@, texts(items@).take(i + 1)) =~= start + flagged(flag@, texts(items@).take(i as int))
            + seq![flag@, items@[i as int]@]);
        i = i + 1;
    }
    assert(texts(items@).take(i as int) =~= texts(items@));
}

fn push_all(v: &mut Vec<String>, items: &Vec<String>)
    ensures
        texts(final(v)@) == texts(old(v)@) + texts(items@),
{
    let ghost start = texts(v@);
    let mut i: usize = 0;
    while i < items.len()
        invariant
            i <= items@.len(),
            texts(v@) == start + texts(items@).take(i as int),
        decreases items@.len() - i,
    {
        push_str(v, items[i].as_str());
        assert(texts(items@).take(i + 1) =~= texts(items@).take(i as int).push(items@[i as int]@));
        i = i + 1;
    }
    assert(texts(items@).take(i as int) =~= texts(items@));
}

/// The texts joined by `,`.
fn join_commas(items: &Vec<String>) -> (r: String)
    ensures
        r@ == comma_joined(texts(items@)),
{
    if items.len() == 0 {
        return String::new();
    }
    let mut s = items[0].clone();
    let mut i: usize = 1;
    assert(texts(items@).take(1) =~= seq![items@[0]@]);
    while i < items.len()
        invariant
            1 <= i <= items@.len(),
            s@ == comma_joined(texts(items@).take(i as int)),
        decreases items@.len() - i,
    {
        s.append(",");
        s.append(items[i].as_str());
        assert(texts(items@).take(i + 1).drop_last() =~= texts(items@).take(i as int));
        i = i + 1;
    }
    assert(texts(items@).take(i as int) =~= texts(items@));
    s
}

/// A signed number as text.
pub(crate) fn signed_string(v: i32) -> (r: String)
    ensures
        r@ == signed_decimal(v as int),
{
    if v < 0 {
        let m: u64 = (0i64 - (v as i64)) as u64;
        let mut s = String::from_str("-");
        let d = decimal_string(m);
        s.append(d.as_str());
        s
    } else {
        decimal_string(v as u64)
    }
}

fn seal_args_list(a: &SealArgs, creator: bool, pass: &str) -> (r: Vec<String>)
    ensures
        texts(r@) == seal_list(*a, creator, pass@),
{
    let mut v: Vec<String> = Vec::new();
    assert(texts(v@) =~= Seq::<Seq<char>>::empty());
    push_str(&mut v, "nyedarch");
    push_str(&mut v, "seal");
    push_str(&mut v, a.input.as_str());
    push_str(&mut v, a.output.as_str());
    push_str(&mut v, pass);
    let ghost p0 = texts(v@);
    assert(p0 =~= seq!["nyedarch"@, "seal"@, a.input@, a.output@, pass@]);
    match a.location {
        Some(m) => {
            push_str(&mut v, "--location");
            let d = decimal_string(m as u64);
            push_str(&mut v, d.as_str());
        },
        None => {},
    }
    let ghost p1 = texts(v@);
    assert(p1 =~= p0 + match a.location {
        Some(m) => seq!["--location"@, decimal(m as nat)],
        None => Seq::<Seq<char>>::empty(),
    });
    if a.time.len() > 0 {
        push_str(&mut v, "--time");
        let j = join_commas(&a.time);
        push_str(&mut v, j.as_str());
    }
    let ghost p2 = texts(v@);
    assert(p2 =~= p1 + when(a.time@.len() > 0, seq!["--time"@, comma_joined(texts(a.time@))]));
    push_str(&mut v, "--time-tolerance-min");
    let tol = decimal_string(a.time_tolerance_min as u64);
    push_str(&mut v, tol.as_str());
    push_str(&mut v, "--tz-offset-min");
    let tz = signed_string(a.tz_offset_min);
    push_str(&mut v, tz.as_str());
    let ghost p3 = texts(v@);
    assert(p3 =~= p2 + seq![
        "--time-tolerance-min"@,
        decimal(a.time_tolerance_min as nat),
        "--tz-offset-min"@,
        signed_decimal(a.tz_offset_min as int),
    ]);
    if a.one_shot {
        push_str(&mut v, "--one-shot");
    }
    let ghost p4 = texts(v@);
    assert(p4 =~= p3 + when(a.one_shot, seq!["--one-shot"@]));
    push_flagged(&mut v, "--trust", &a.trust);
    let ghost q1 = texts(v@);
    push_flagged(&mut v, "--trust-tag", &a.trust_tag);
    let ghost q2 = texts(v@);
    push_str(&mut v, "--tag-mode");
    push_str(&mut v, a.tag_mode.as_str());
    let ghost p5 = texts(v@);
    assert(p5 =~= q2 + seq!["--tag-mode"@, a.tag_mode@]);
    let ts = chars_of(a.trust_search.as_str());
    if ts.len() > 0 {
        push_str(&mut v, "--trust-search");
        push_str(&mut v, a.trust_search.as_str());
    }
    let ghost p6 = texts(v@);
    assert(p6 =~= p5 + when(a.trust_search@.len() > 0, seq!["--trust-search"@, a.trust_search@]));
    push_str(&mut v, "--compression");
    push_str(&mut v, a.compression.as_str());
    push_str(&mut v, "--hardware");
    push_str(&mut v, a.hardware.as_str());
    let ghost p7 = texts(v@);
    assert(p7 =~= p6 + seq!["--compression"@, a.compression@, "--hardware"@, a.hardware@]);
    if creator {
        push_str(&mut v, "--creator");
    }
    assert(texts(v@) =~= p7 + when(creator, seq!["--creator"@]));
    v
}

/// The argument list a parsed command is routed through; `None` for a seal
/// with no passphrase given and none (or an empty one) in the environment.
pub fn command_args(cli: &Cli, env_passphrase: Option<String>) -> (r: Option<Vec<String>>)
    ensures
        match spec_command_args(*cli, match env_passphrase {
            Some(p) => Some(p@),
            None => None,
        }) {
            Some(l) => r matches Some(v) && texts(v@) == l,
            None => r is None,
        },
{
    match &cli.command {
        Command::Seal(a) => match &a.passphrase {
            Some(p) => Some(seal_args_list(a, cli.creator, p.as_str())),
            None => match env_passphrase {
                Some(p) => {
                    let pc = chars_of(p.as_str());
                    if pc.len() > 0 {
                        Some(seal_args_list(a, cli.creator, p.as_str()))
                    } else {
                        None
                    }
                },
                None => None,
            },
        },
        Command::Build(a) => {
            let mut v: Vec<String> = Vec::new();
            assert(texts(v@) =~= Seq::<Seq<char>>::empty());
            push_str(&mut v, "nyedarch");
            push_str(&mut v, "build");
            push_str(&mut v, a.project.as_str());
            push_str(&mut v, a.owner.as_str());
            push_str(&mut v, a.repo.as_str());
            push_str(&mut v, a.visibility.as_str());
            assert(texts(v@) =~= seq!["nyedarch"@, "build"@, a.project@, a.owner@, a.repo@, a.visibility@]);
            Some(v)
        },
        Command::Visibility(a) => {
            let mut v: Vec<String> = Vec::new();
            assert(texts(v@) =~= Seq::<Seq<char>>::empty());
            push_str(&mut v, "nyedarch");
            push_str(&mut v, "visibility");
            push_str(&mut v, a.owner.as_str());
            push_str(&mut v, a.repo.as_str());
            push_str(&mut v, a.visibility.as_str());
            assert(texts(v@) =~= seq!["nyedarch"@, "visibility"@, a.owner@, a.repo@, a.visibility@]);
            Some(v)
        },
        Command::Export(a) => {
            let mut v: Vec<String> = Vec::new();
            assert(texts(v@) =~= Seq::<Seq<char>>::empty());
            push_str(&mut v, "nyedarch");
            push_str(&mut v, "export");
            push_str(&mut v, a.output.as_str());
            let ghost h = texts(v@);
            assert(h =~= seq!["nyedarch"@, "export"@, a.output@]);
            push_all(&mut v, &a.labels);
            Some(v)
        },
        Command::Run(a) => {
            let mut v: Vec<String> = Vec::new();
            assert(texts(v@) =~= Seq::<Seq<char>>::empty());
            push_str(&mut v, "nyedarch");
            push_str(&mut v, "run");
            push_str(&mut v, a.capsule.as_str());
            let ghost h = texts(v@);
            assert(h =~= seq!["nyedarch"@, "run"@, a.capsule@]);
            match &a.output {
                Some(o) => {
                    push_str(&mut v, o.as_str());
                },
                None => {},
            }
            assert(texts(v@) =~= h + match a.output {
                Some(o) => seq![o@],
                None => Seq::<Seq<char>>::empty(),
            });
            Some(v)
        },
        Command::Bench => {
            let mut v: Vec<String> = Vec::new();
            assert(texts(v@) =~= Seq::<Seq<char>>::empty());
            push_str(&mut v, "nyedarch");
            push_str(&mut v, "bench");
            assert(texts(v@) =~= seq!["nyedarch"@, "bench"@]);
            Some(v)
        },
        Command::Machines { action } => {
            let mut v: Vec<String> = Vec::new();
            assert(texts(v@) =~= Seq::<Seq<char>>::empty());
            push_str(&mut v, "nyedarch");
            push_str(&mut v, "machines");
            let ghost h = texts(v@);
            assert(h =~= seq!["nyedarch"@, "machines"@]);
            match action {
                MachinesAction::List { query, tag, mode } => {
                    push_str(&mut v, "list");
                    let ghost h1 = texts(v@);
                    let qc = chars_of(query.as_str());
                    if qc.len() > 0 {
                        push_str(&mut v, query.as_str());
                    }
                    let ghost h2 = texts(v@);
                    assert(h2 =~= h1 + when(query@.len() > 0, seq![query@]));
                    push_flagged(&mut v, "--tag", tag);
                    let ghost h3 = texts(v@);
                    push_str(&mut v, "--mode");
                    push_str(&mut v, mode.as_str());
                    assert(texts(v@) =~= h3 + seq!["--mode"@, mode@]);
                    assert(texts(v@) =~= h + (seq!["list"@] + when(query@.len() > 0, seq![query@])
                        + flagged("--tag"@, texts(tag@)) + seq!["--mode"@, mode@]));
                },
                MachinesAction::Add { file } => {
                    push_str(&mut v, "add");
                    push_str(&mut v, file.as_str());
                    assert(texts(v@) =~= h + seq!["add"@, file@]);
                },
                MachinesAction::Remove { id } => {
                    push_str(&mut v, "remove");
                    push_str(&mut v, id.as_str());
                    assert(texts(v@) =~= h + seq!["remove"@, id@]);
                },
                MachinesAction::Label { id, labels } => {
                    push_str(&mut v, "label");
                    push_str(&mut v, id.as_str());
                    let ghost h1 = texts(v@);
                    push_all(&mut v, labels);
                    assert(texts(v@) =~= h + (seq!["label"@, id@] + texts(labels@)));
                },
            }
            Some(v)
        },
    }
}


/// What `machines list [query] [--tag T]... [--mode any|all]` asks for, from
/// position `i` on: the last free word is the query, each `--tag` adds the
/// label after it, and `--mode` picks the tag semantics (ANY when the word
/// after it is missing or unknown).
pub open spec fn list_filters_from(
    args: Seq<Seq<char>>,
    i: int,
    query: Seq<char>,
    tags: Seq<Seq<char>>,
    mode: TagMode,
) -> (Seq<char>, Seq<Seq<char>>, TagMode)
    decreases args.len() - i,
{
    if i < 0 || i >= args.len() {
        (query, tags, mode)
    } else if args[i] == "--tag"@ {
        if i + 1 < args.len() {
            list_filters_from(args, i + 2, query, tags.push(args[i + 1]), mode)
        } else {
            (query, tags, mode)
        }
    } else if args[i] == "--mode"@ {
        if i + 1 < args.len() {
            let m = if lower(args[i + 1]) == "all"@ {
                TagMode::All
            } else {
                TagMode::Any
            };
            list_filters_from(args, i + 2, query, tags, m)
        } else {
            (query, tags, TagMode::Any)
        }
    } else {
        list_filters_from(args, i + 1, args[i], tags, mode)
    }
}

/// Read the filters of a `machines list` routed argument list, after
/// `nyedarch machines list`.
pub fn list_filters(args: &Vec<String>) -> (r: (String, Vec<String>, TagMode))
    ensures
        (r.0@, texts(r.1@), r.2) == list_filters_from(texts(args@), 3, Seq::empty(), Seq::empty(), TagMode::Any),
{
    let ghost av = texts(args@);
    let mut query = String::new();
    let mut tags: Vec<String> = Vec::new();
    let mut mode = TagMode::Any;
    let mut i: usize = 3;
    assert(texts(tags@) =~= Seq::<Seq<char>>::empty());
    while i < args.len()
        invariant
            av == texts(args@),
            i >= 3,
            list_filters_from(av, 3, Seq::empty(), Seq::empty(), TagMode::Any) == list_filters_from(
                av,
                i as int,
                query@,
                texts(tags@),
                mode,
            ),
        decreases args@.len() - i,
    {
        let a = chars_of(args[i].as_str());
        assert(a@ == av[i as int]);
        if is_word(&a, "--tag") {
            if args.len() - i > 1 {
                let ghost before = tags@;
                tags.push(args[i + 1].clone());
                assert(texts(tags@) =~= texts(before).push(av[i + 1]));
                i = i + 2;
            } else {
                return (query, tags, mode);
            }
        } else if is_word(&a, "--mode") {
            if args.len() - i > 1 {
                assert(args@[i + 1]@ == av[i + 1]);
                proof {
                    reveal_strlit("any");
                    reveal_strlit("all");
                    assert("any"@ != "all"@) by {
                        assert("any"@[1] != "all"@[1]);
                    }
                }
                mode = match TagMode::parse(args[i + 1].as_str()) {
                    Some(m) => m,
                    None => TagMode::Any,
                };
                i = i + 2;
            } else {
                return (query, tags, TagMode::Any);
            }
        } else {
            query = args[i].clone();
            i = i + 1;
        }
    }
    (query, tags, mode)
}

pub open spec fn visibility_error(word: Seq<char>) -> Seq<char> {
    "visibility must be 'public' or 'private', not '"@ + word + "'"@
}

/// Whether a visibility word asks for a private repository.
pub fn visibility_private(word: &str) -> (r: Result<bool, String>)
    ensures
        word@ == "private"@ ==> r == Ok::<bool, String>(true),
        word@ == "public"@ ==> r == Ok::<bool, String>(false),
        word@ != "private"@ && word@ != "public"@ ==> (r matches Err(e) && e@ == visibility_error(word@)),
{
    proof {
        reveal_strlit("private");
        reveal_strlit("public");
        assert("private"@.len() == 7 && "public"@.len() == 6);
    }
    let c = chars_of(word);
    if is_word(&c, "private") {
        Ok(true)
    } else if is_word(&c, "public") {
        Ok(false)
    } else {
        let mut m = String::from_str("visibility must be 'public' or 'private', not '");
        m.append(word);
        m.append("'");
        Err(m)
    }
}

/// A build repository is private unless `public` is asked for.
pub fn build_private(word: Option<&str>) -> (r: bool)
    ensures
        r == match word {
            Some(w) => w@ != "public"@,
            None => true,
        },
{
    match word {
        Some(w) => {
            let c = chars_of(w);
            !is_word(&c, "public")
        },
        None => true,
    }
}

/// The records of the machines a selection adds: every selected machine
/// other than this one that has a stored record.
pub open spec fn record_paths(sel: Seq<(Seq<char>, Seq<Seq<char>>, Seq<char>, bool)>) -> Seq<Seq<char>>
    decreases sel.len(),
{
    if sel.len() == 0 {
        Seq::empty()
    } else {
        let rest = record_paths(sel.drop_last());
        let m = sel.last();
        if m.3 || m.2.len() == 0 {
            rest
        } else {
            rest.push(m.2)
        }
    }
}

/// The trusted records a seal loads: those named with `--trust`, then, when
/// tags or a query select machines from the registry, the stored record of
/// each selected machine (this machine is always trusted and needs none).
pub open spec fn spec_trusted_records(
    files: Seq<Seq<char>>,
    tags: Seq<String>,
    query: Seq<char>,
    tag_all: bool,
    registry: Seq<(Seq<char>, Seq<Seq<char>>, Seq<char>, bool)>,
) -> Seq<Seq<char>> {
    if tags.len() > 0 || query.len() > 0 {
        files + record_paths(selection(registry, query_key(query), tag_keys(tags), if tag_all {
            TagMode::All
        } else {
            TagMode::Any
        }))
    } else {
        files
    }
}

pub fn trusted_records(protections: &ProtectionConfig, registry: &Vec<Machine>) -> (r: Vec<String>)
    ensures
        texts(r@) == spec_trusted_records(
            texts(protections.trust_files@),
            protections.trust_tags@,
            protections.trust_query@,
            protections.tag_mode_all,
            machines_view(registry@),
        ),
{
    let mut out: Vec<String> = Vec::new();
    assert(texts(out@) =~= Seq::<Seq<char>>::empty());
    push_all(&mut out, &protections.trust_files);
    assert(texts(out@) =~= texts(protections.trust_files@));
    let qc = chars_of(protections.trust_query.as_str());
    if protections.trust_tags.len() == 0 && qc.len() == 0 {
        return out;
    }
    let mode = if protections.tag_mode_all {
        TagMode::All
    } else {
        TagMode::Any
    };
    let sel = select(registry, protections.trust_query.as_str(), &protections.trust_tags, mode);
    let ghost base = texts(out@);
    let mut i: usize = 0;
    while i < sel.len()
        invariant
            i <= sel@.len(),
            texts(out@) == base + record_paths(machines_view(sel@).take(i as int)),
        decreases sel@.len() - i,
    {
        let m = &sel[i];
        let pc = chars_of(m.path.as_str());
        let ghost before = texts(out@);
        if !m.is_this_machine && pc.len() > 0 {
            out.push(m.path.clone());
            assert(texts(out@) =~= before.push(m.path@));
        }
        assert(machines_view(sel@).take(i + 1).drop_last() =~= machines_view(sel@).take(i as int));
        i = i + 1;
    }
    assert(machines_view(sel@).take(i as int) =~= machines_view(sel@));
    out
}

} // verus!
