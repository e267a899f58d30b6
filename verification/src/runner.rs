//! How the sandbox is started: its arguments, its environment, and what is reported before.
use vstd::prelude::*;
use vstd::string::*;
use vstd::utf8::{encode_utf8, encode_utf8_decode_utf8};

use crate::config::{ConfigModel, NetworkChoice, NetworkPolicy, RunConfig};
use crate::encoding;
use crate::encoding::shown_text;
use crate::error::{in_context, outcome, Error};
use crate::ordered::{lemma_entry, lemma_picks_next, lemma_picks_same, picks, TextMap};
use crate::path;
use crate::profile::TargetOs;
use crate::secrets::{
    env_of, is_input_name, lemma_sanitized_hides_secrets, sanitized, secret_names_of,
    SealedCredentials, SealedModel,
};
use crate::text;
use crate::text::{decimal, joined};

verus! {

/// What a path may be used for.
#[derive(Debug, Clone, Copy, PartialEq, Eq, Structural)]
pub enum FsAccess {
    Read,
    Write,
}

/// What a path leads to.
#[derive(Debug, Clone, Copy, PartialEq, Eq, Structural)]
pub enum PathKind {
    Missing,
    File,
    Directory,
    Other,
}

/// The flag that grants access to a directory, or to a single file.
pub open spec fn grant_flag(access: FsAccess, file: bool) -> Seq<char> {
    match (access, file) {
        (FsAccess::Read, false) => "--read"@,
        (FsAccess::Read, true) => "--read-file"@,
        (FsAccess::Write, false) => "--write"@,
        (FsAccess::Write, true) => "--write-file"@,
    }
}

/// The flag that grants access to a path. What is written need not exist, what is read must.
pub open spec fn flag_of(path: Seq<char>, access: FsAccess, kind: PathKind) -> Result<
    Seq<char>,
    Seq<char>,
> {
    match kind {
        PathKind::Directory => Ok(grant_flag(access, false)),
        PathKind::File => Ok(grant_flag(access, true)),
        PathKind::Other => Err(
            "filesystem policy path '"@ + path
                + "' exists but is neither a regular file nor directory"@,
        ),
        PathKind::Missing => match access {
            FsAccess::Write => Ok(grant_flag(access, false)),
            FsAccess::Read => Err(
                "filesystem read path '"@ + path
                    + "' does not exist; create it first or allow an existing parent directory"@,
            ),
        },
    }
}

/// The result of choosing a flag, as a mathematical value.
pub open spec fn flag_outcome(r: Result<&'static str, Error>) -> Result<Seq<char>, Seq<char>> {
    match r {
        Ok(flag) => Ok(flag@),
        Err(e) => Err(e@),
    }
}

/// Chooses the flag that grants access to a path, given what the path leads to.
pub fn fs_flag(path: &str, access: FsAccess, kind: PathKind) -> (r: Result<&'static str, Error>)
    ensures
        flag_outcome(r) == flag_of(path@, access, kind),
{
    match (kind, access) {
        (PathKind::Directory, FsAccess::Read) => Ok("--read"),
        (PathKind::Directory, FsAccess::Write) => Ok("--write"),
        (PathKind::File, FsAccess::Read) => Ok("--read-file"),
        (PathKind::File, FsAccess::Write) => Ok("--write-file"),
        (PathKind::Other, _) => Err(
            Error::about(
                "filesystem policy path '",
                path,
                "' exists but is neither a regular file nor directory",
            ),
        ),
        (PathKind::Missing, FsAccess::Read) => Err(
            Error::about(
                "filesystem read path '",
                path,
                "' does not exist; create it first or allow an existing parent directory",
            ),
        ),
        (PathKind::Missing, FsAccess::Write) => Ok("--write"),
    }
}

/// Access to a path that a run asks for.
pub struct FsRequest {
    pub access: FsAccess,
    pub path: String,
}

/// A flag for the sandbox, with its path.
pub struct FsArg {
    pub flag: &'static str,
    pub path: String,
}

impl DeepView for FsRequest {
    type V = (FsAccess, Seq<char>);

    open spec fn deep_view(&self) -> (FsAccess, Seq<char>) {
        (self.access, self.path@)
    }
}

impl DeepView for FsArg {
    type V = (Seq<char>, Seq<char>);

    open spec fn deep_view(&self) -> (Seq<char>, Seq<char>) {
        (self.flag@, self.path@)
    }
}

/// The same access to each of some paths.
pub open spec fn for_each(access: FsAccess, paths: Seq<Seq<char>>) -> Seq<(FsAccess, Seq<char>)> {
    paths.map_values(|p: Seq<char>| (access, p))
}

/// The access that a run asks for: what it reads, what any command has to read, what it writes.
pub open spec fn requests_of(config: ConfigModel, trusted: Seq<Seq<char>>) -> Seq<
    (FsAccess, Seq<char>),
> {
    for_each(FsAccess::Read, config.fs_read) + for_each(FsAccess::Read, trusted) + for_each(
        FsAccess::Write,
        config.fs_write,
    )
}

/// Asks for the same access to each of some paths.
fn request_each(out: &mut Vec<FsRequest>, access: FsAccess, paths: &Vec<String>)
    ensures
        final(out).deep_view() == old(out).deep_view() + for_each(access, paths.deep_view()),
{
    let ghost first = out.deep_view();
    let ghost more = for_each(access, paths.deep_view());
    let mut i: usize = 0;
    while i < paths.len()
        invariant
            i <= paths@.len(),
            more == for_each(access, paths.deep_view()),
            out.deep_view() == first + more.take(i as int),
        decreases paths@.len() - i,
    {
        let ghost done = out.deep_view();
        out.push(FsRequest { access, path: paths[i].clone() });
        assert(out.deep_view() == done.push((access, paths@[i as int]@)));
        assert(more.take(i + 1) == more.take(i as int).push((access, paths@[i as int]@)));
        i = i + 1;
    }
    assert(more.take(i as int) == more);
}

/// The access that a run asks for, in the order in which it is granted.
pub fn fs_requests(config: &RunConfig, trusted_system_reads: &Vec<String>) -> (r: Vec<FsRequest>)
    ensures
        r.deep_view() == requests_of(config.deep_view(), trusted_system_reads.deep_view()),
{
    let mut out: Vec<FsRequest> = Vec::new();
    assert(out.deep_view() == Seq::<(FsAccess, Seq<char>)>::empty());
    request_each(&mut out, FsAccess::Read, &config.fs_read);
    request_each(&mut out, FsAccess::Read, trusted_system_reads);
    request_each(&mut out, FsAccess::Write, &config.fs_write);
    out
}

/// What the path at a place leads to; one of which nothing is said leads nowhere.
pub open spec fn kind_at(kinds: Seq<PathKind>, i: int) -> PathKind {
    if 0 <= i < kinds.len() {
        kinds[i]
    } else {
        PathKind::Missing
    }
}

/// The flags for requests. One that is made again adds nothing.
pub open spec fn args_of(requests: Seq<(FsAccess, Seq<char>)>, kinds: Seq<PathKind>) -> Result<
    Seq<(Seq<char>, Seq<char>)>,
    Seq<char>,
>
    decreases requests.len(),
{
    if requests.len() == 0 {
        Ok(Seq::empty())
    } else {
        let earlier = requests.drop_last();
        let (access, path) = requests.last();
        match args_of(earlier, kinds) {
            Err(e) => Err(e),
            Ok(done) => if earlier.contains((access, path)) {
                Ok(done)
            } else {
                match flag_of(path, access, kind_at(kinds, requests.len() - 1)) {
                    Err(e) => Err(e),
                    Ok(flag) => Ok(done.push((flag, path))),
                }
            },
        }
    }
}

proof fn lemma_args_refused(requests: Seq<(FsAccess, Seq<char>)>, kinds: Seq<PathKind>, n: int)
    requires
        0 <= n <= requests.len(),
        args_of(requests.take(n), kinds) is Err,
    ensures
        args_of(requests, kinds) == args_of(requests.take(n), kinds),
    decreases requests.len() - n,
{
    if n < requests.len() {
        assert(requests.take(n + 1).drop_last() == requests.take(n));
        lemma_args_refused(requests, kinds, n + 1);
    } else {
        assert(requests.take(n) == requests);
    }
}

/// Whether one of the first requests was made before in the same way.
fn is_repeated(requests: &Vec<FsRequest>, n: usize) -> (r: bool)
    requires
        n < requests@.len(),
    ensures
        r == requests.deep_view().take(n as int).contains(requests.deep_view()[n as int]),
{
    let ghost all = requests.deep_view();
    let ghost wanted = all[n as int];
    let mut i: usize = 0;
    while i < n
        invariant
            i <= n,
            n < requests@.len(),
            all == requests.deep_view(),
            wanted == all[n as int],
            forall|j: int| 0 <= j < i ==> #[trigger] all[j] != wanted,
        decreases n - i,
    {
        assert(all[i as int] == requests@[i as int].deep_view());
        if requests[i].access == requests[n].access && text::same(
            requests[i].path.as_str(),
            requests[n].path.as_str(),
        ) {
            assert(all.take(n as int)[i as int] == wanted);
            return true;
        }
        i = i + 1;
    }
    assert forall|j: int| 0 <= j < n implies all.take(n as int)[j] != wanted by {
        assert(all[j] != wanted);
    }
    false
}

/// The flags that grant a run its access, given what each path leads to in the order of
/// `fs_requests`.
pub fn fs_args(
    config: &RunConfig,
    trusted_system_reads: &Vec<String>,
    kinds: &Vec<PathKind>,
) -> (r: Result<Vec<FsArg>, Error>)
    ensures
        outcome(r) == args_of(
            requests_of(config.deep_view(), trusted_system_reads.deep_view()),
            kinds@,
        ),
{
    let requests = fs_requests(config, trusted_system_reads);
    let ghost all = requests.deep_view();
    let mut out: Vec<FsArg> = Vec::new();
    let mut i: usize = 0;
    assert(all.take(0) == Seq::<(FsAccess, Seq<char>)>::empty());
    assert(out.deep_view() == Seq::<(Seq<char>, Seq<char>)>::empty());
    while i < requests.len()
        invariant
            i <= requests@.len(),
            all == requests.deep_view(),
            all == requests_of(config.deep_view(), trusted_system_reads.deep_view()),
            args_of(all.take(i as int), kinds@) == Ok::<_, Seq<char>>(out.deep_view()),
        decreases requests@.len() - i,
    {
        let ghost done = out.deep_view();
        assert(all.take(i + 1).drop_last() == all.take(i as int));
        assert(all.take(i + 1).last() == requests@[i as int].deep_view());
        if !is_repeated(&requests, i) {
            let kind = if i < kinds.len() {
                kinds[i]
            } else {
                PathKind::Missing
            };
            match fs_flag(requests[i].path.as_str(), requests[i].access, kind) {
                Err(e) => {
                    proof {
                        lemma_args_refused(all, kinds@, i + 1);
                    }
                    return Err(e);
                },
                Ok(flag) => {
                    let arg = FsArg { flag, path: requests[i].path.clone() };
                    let ghost added = arg.deep_view();
                    out.push(arg);
                    assert(out.deep_view() == done.push(added));
                },
            }
        }
        i = i + 1;
    }
    assert(all.take(i as int) == all);
    Ok(out)
}

/// Flags that grant different access are different.
proof fn lemma_flags_differ(a: FsAccess, x: bool, b: FsAccess, y: bool)
    requires
        grant_flag(a, x) == grant_flag(b, y),
    ensures
        a == b,
        x == y,
{
    reveal_strlit("--read");
    reveal_strlit("--read-file");
    reveal_strlit("--write");
    reveal_strlit("--write-file");
    assert("--read"@.len() == 6);
    assert("--read-file"@.len() == 11);
    assert("--write"@.len() == 7);
    assert("--write-file"@.len() == 12);
}

/// Whether an argument answers a request.
pub open spec fn grants(arg: (Seq<char>, Seq<char>), request: (FsAccess, Seq<char>)) -> bool {
    arg.1 == request.1 && (arg.0 == grant_flag(request.0, false) || arg.0 == grant_flag(
        request.0,
        true,
    ))
}

/// Every request is granted, and nothing is granted that was not requested.
pub proof fn lemma_args_grant_requests(
    requests: Seq<(FsAccess, Seq<char>)>,
    kinds: Seq<PathKind>,
)
    ensures
        args_of(requests, kinds) matches Ok(args) ==> {
            &&& forall|i: int|
                0 <= i < requests.len() ==> exists|j: int|
                    0 <= j < args.len() && grants(#[trigger] args[j], #[trigger] requests[i])
            &&& forall|j: int|
                0 <= j < args.len() ==> exists|i: int|
                    0 <= i < requests.len() && grants(#[trigger] args[j], #[trigger] requests[i])
        },
    decreases requests.len(),
{
    if requests.len() > 0 {
        let earlier = requests.drop_last();
        lemma_args_grant_requests(earlier, kinds);
        if let Ok(args) = args_of(requests, kinds) {
            let done = args_of(earlier, kinds)->Ok_0;
            let last = requests.len() - 1;
            assert forall|i: int| 0 <= i < requests.len() implies exists|j: int|
                0 <= j < args.len() && grants(#[trigger] args[j], #[trigger] requests[i]) by {
                if i < last {
                    assert(earlier[i] == requests[i]);
                    let j = choose|j: int| 0 <= j < done.len() && grants(done[j], earlier[i]);
                    assert(args[j] == done[j]);
                } else if earlier.contains(requests.last()) {
                    let k = choose|k: int| 0 <= k < earlier.len() && earlier[k] == requests.last();
                    let j = choose|j: int| 0 <= j < done.len() && grants(done[j], earlier[k]);
                    assert(args[j] == done[j]);
                } else {
                    assert(grants(args[args.len() - 1], requests[i]));
                }
            }
            assert forall|j: int| 0 <= j < args.len() implies exists|i: int|
                0 <= i < requests.len() && grants(#[trigger] args[j], #[trigger] requests[i]) by {
                if j < done.len() {
                    assert(args[j] == done[j]);
                    let i = choose|i: int| 0 <= i < earlier.len() && grants(done[j], earlier[i]);
                    assert(earlier[i] == requests[i]);
                } else {
                    assert(grants(args[j], requests[last]));
                }
            }
        }
    }
}

/// No access is granted twice, though it may be requested more often.
pub proof fn lemma_args_distinct(requests: Seq<(FsAccess, Seq<char>)>, kinds: Seq<PathKind>)
    ensures
        args_of(requests, kinds) matches Ok(args) ==> args.no_duplicates(),
    decreases requests.len(),
{
    if requests.len() > 0 {
        let earlier = requests.drop_last();
        lemma_args_distinct(earlier, kinds);
        lemma_args_grant_requests(earlier, kinds);
        if let Ok(args) = args_of(requests, kinds) {
            let done = args_of(earlier, kinds)->Ok_0;
            if !earlier.contains(requests.last()) {
                let added = args.last();
                assert forall|j: int| 0 <= j < done.len() implies done[j] != added by {
                    if done[j] == added {
                        let i = choose|i: int|
                            0 <= i < earlier.len() && grants(done[j], earlier[i]);
                        assert(earlier[i] != requests.last());
                        let a = earlier[i].0;
                        let b = requests.last().0;
                        assert(exists|x: bool, y: bool| grant_flag(a, x) == grant_flag(b, y)) by {
                            assert(grants(added, requests.last()));
                            if added.0 == grant_flag(a, false) {
                                if added.0 == grant_flag(b, false) {
                                    assert(grant_flag(a, false) == grant_flag(b, false));
                                } else {
                                    assert(grant_flag(a, false) == grant_flag(b, true));
                                }
                            } else {
                                if added.0 == grant_flag(b, false) {
                                    assert(grant_flag(a, true) == grant_flag(b, false));
                                } else {
                                    assert(grant_flag(a, true) == grant_flag(b, true));
                                }
                            }
                        }
                        let (x, y) = choose|x: bool, y: bool|
                            grant_flag(a, x) == grant_flag(b, y);
                        lemma_flags_differ(a, x, b, y);
                    }
                }
            }
        }
    }
}

/// The places that commands have to read on a system, where they exist.
pub open spec fn trusted_places(os: TargetOs) -> Seq<Seq<char>> {
    match os {
        TargetOs::Linux => seq![
            "/bin"@,
            "/lib"@,
            "/lib64"@,
            "/sbin"@,
            "/usr"@,
            "/etc/ssl"@,
            "/etc/pki"@,
        ],
        TargetOs::MacOs | TargetOs::Other => Seq::empty(),
    }
}

/// The places that commands have to read on a system.
pub fn trusted_candidates(os: TargetOs) -> (r: Vec<String>)
    ensures
        r.deep_view() == trusted_places(os),
{
    let mut out: Vec<String> = Vec::new();
    match os {
        TargetOs::Linux => {
            out.push("/bin".to_owned());
            out.push("/lib".to_owned());
            out.push("/lib64".to_owned());
            out.push("/sbin".to_owned());
            out.push("/usr".to_owned());
            out.push("/etc/ssl".to_owned());
            out.push("/etc/pki".to_owned());
        },
        TargetOs::MacOs => {},
        TargetOs::Other => {},
    }
    assert(out.deep_view() == trusted_places(os));
    out
}

/// Those places that exist; one of which nothing is said does not.
pub open spec fn existing(places: Seq<Seq<char>>, exists: Seq<bool>) -> Seq<Seq<char>>
    decreases places.len(),
{
    if places.len() == 0 {
        Seq::empty()
    } else {
        let done = existing(places.drop_last(), exists);
        if places.len() <= exists.len() && exists[places.len() - 1] {
            done.push(places.last())
        } else {
            done
        }
    }
}

/// The places that commands have to read and that exist, given which of `trusted_candidates` do.
pub fn trusted_system_read_paths(os: TargetOs, exists: &Vec<bool>) -> (r: Vec<String>)
    ensures
        r.deep_view() == existing(trusted_places(os), exists@),
{
    let places = trusted_candidates(os);
    let ghost all = places.deep_view();
    let mut out: Vec<String> = Vec::new();
    let mut i: usize = 0;
    assert(all.take(0) == Seq::<Seq<char>>::empty());
    assert(out.deep_view() == existing(all.take(0), exists@));
    while i < places.len()
        invariant
            i <= places@.len(),
            all == places.deep_view(),
            out.deep_view() == existing(all.take(i as int), exists@),
        decreases places@.len() - i,
    {
        let ghost done = out.deep_view();
        assert(all.take(i + 1).drop_last() == all.take(i as int));
        assert(all.take(i + 1).last() == places@[i as int]@);
        if i < exists.len() && exists[i] {
            out.push(places[i].clone());
            assert(out.deep_view() == done.push(places@[i as int]@));
        }
        i = i + 1;
    }
    assert(all.take(i as int) == all);
    out
}

/// A list for a reader, or what stands for no item.
pub open spec fn shown_list(values: Seq<Seq<char>>, empty: Seq<char>) -> Seq<char> {
    if values.len() == 0 {
        empty
    } else {
        joined(values, ", "@)
    }
}

/// Shows a list to a reader.
pub fn display_list(values: &Vec<String>, empty: &str) -> (r: String)
    ensures
        r@ == shown_list(values.deep_view(), empty@),
{
    if values.len() == 0 {
        empty.to_owned()
    } else {
        text::join(values, ", ")
    }
}

/// Arguments for a reader, one by one.
pub open spec fn shown_each(args: Seq<(Seq<char>, Seq<char>)>) -> Seq<Seq<char>> {
    args.map_values(|arg: (Seq<char>, Seq<char>)| arg.0 + " "@ + arg.1)
}

/// Shows arguments to a reader.
pub fn display_fs_args(args: &Vec<FsArg>) -> (r: String)
    ensures
        r@ == shown_list(shown_each(args.deep_view()), "<none>"@),
{
    let ghost all = shown_each(args.deep_view());
    let mut out: Vec<String> = Vec::new();
    let mut i: usize = 0;
    while i < args.len()
        invariant
            i <= args@.len(),
            all == shown_each(args.deep_view()),
            out.deep_view() == all.take(i as int),
        decreases args@.len() - i,
    {
        let ghost done = out.deep_view();
        let mut shown = args[i].flag.to_owned();
        shown.append(" ");
        shown.append(args[i].path.as_str());
        let ghost added = shown@;
        out.push(shown);
        assert(out.deep_view() == done.push(added));
        assert(all[i as int] == added);
        i = i + 1;
    }
    assert(all.take(i as int) == all);
    display_list(&out, "<none>")
}

/// What the command may reach directly, for a reader.
pub open spec fn shown_network(network: NetworkChoice) -> Seq<char> {
    match network {
        NetworkChoice::Blocked => "blocked"@,
        NetworkChoice::AllowDomains(domains) => joined(domains, ", "@),
        NetworkChoice::FromRepoProfile => "from repo profile"@,
    }
}

/// Shows what the command may reach directly.
pub fn display_network(network: &NetworkPolicy) -> (r: String)
    ensures
        r@ == shown_network(network.deep_view()),
{
    match network {
        NetworkPolicy::Blocked => "blocked".to_owned(),
        NetworkPolicy::AllowDomains(domains) => text::join(domains, ", "),
        NetworkPolicy::FromRepoProfile => "from repo profile".to_owned(),
    }
}

/// Whether there is a proxy for credentials, for a reader.
pub open spec fn shown_proxy(credential_count: nat) -> Seq<char> {
    if credential_count == 0 {
        "disabled"@
    } else {
        "enabled for sealed credential routes"@
    }
}

/// Shows whether there is a proxy for credentials.
pub fn display_credential_proxy(credential_count: usize) -> (r: &'static str)
    ensures
        r@ == shown_proxy(credential_count as nat),
{
    if credential_count == 0 {
        "disabled"
    } else {
        "enabled for sealed credential routes"
    }
}

/// The report up to what can fail.
pub open spec fn report_head(config: ConfigModel, trusted: Seq<Seq<char>>) -> Seq<Seq<char>> {
    seq![
        "::group::runseal sandbox configuration"@,
        "  filesystem read:  "@ + shown_list(config.fs_read, "<workspace>"@),
        "  system read:      "@ + shown_list(trusted, "<nono defaults>"@),
        "  filesystem write: "@ + shown_list(config.fs_write, "<none>"@),
    ]
}

/// The rest of the report.
pub open spec fn report_rest(
    config: ConfigModel,
    credential_count: nat,
    args: Seq<(Seq<char>, Seq<char>)>,
    profile_path: Seq<u8>,
) -> Seq<Seq<char>> {
    seq![
        "  nono fs args:     "@ + shown_list(shown_each(args), "<none>"@),
        "  direct network:   "@ + shown_network(config.network),
        "  credential proxy: "@ + shown_proxy(credential_count),
        "  access grants:    "@ + decimal(credential_count) + " configured"@,
        "  nono profile:     "@ + shown_text(profile_path),
        "::endgroup::"@,
    ]
}

/// A line of the report.
fn line(label: &str, value: &str) -> (r: String)
    ensures
        r@ == label@ + value@,
{
    let mut out = label.to_owned();
    out.append(value);
    out
}

/// The flags and paths of arguments, one after another, as bytes.
pub open spec fn flat(args: Seq<(Seq<char>, Seq<char>)>) -> Seq<Seq<u8>>
    decreases args.len(),
{
    if args.len() == 0 {
        Seq::empty()
    } else {
        flat(args.drop_last()).push(encode_utf8(args.last().0)).push(encode_utf8(args.last().1))
    }
}

/// The arguments of the sandbox.
pub open spec fn nono_args_of(
    command: Seq<char>,
    profile_path: Seq<u8>,
    args: Seq<(Seq<char>, Seq<char>)>,
) -> Seq<Seq<u8>> {
    seq![
        encode_utf8("run"@),
        encode_utf8("--no-rollback"@),
        encode_utf8("--no-diagnostics"@),
        encode_utf8("--profile"@),
        profile_path,
    ] + flat(args) + seq![
        encode_utf8("--"@),
        encode_utf8("bash"@),
        encode_utf8("-c"@),
        encode_utf8(command),
    ]
}

/// Words as bytes, as a mathematical value.
pub open spec fn words_of(words: Seq<Vec<u8>>) -> Seq<Seq<u8>> {
    words.map_values(|word: Vec<u8>| word@)
}

/// Adds a word.
fn push_word(out: &mut Vec<Vec<u8>>, word: Vec<u8>)
    ensures
        words_of(final(out)@) == words_of(old(out)@).push(word@),
{
    let ghost done = words_of(out@);
    out.push(word);
    assert(words_of(out@) == done.push(word@));
}

/// The arguments of the sandbox: the profile, the access, and the command for a shell.
pub fn nono_args(config: &RunConfig, profile_path: &Vec<u8>, args: &Vec<FsArg>) -> (r: Vec<Vec<u8>>)
    ensures
        words_of(r@) == nono_args_of(config.command@, profile_path@, args.deep_view()),
{
    let mut out: Vec<Vec<u8>> = Vec::new();
    assert(words_of(out@) == Seq::<Seq<u8>>::empty());
    push_word(&mut out, "run".as_bytes_vec());
    push_word(&mut out, "--no-rollback".as_bytes_vec());
    push_word(&mut out, "--no-diagnostics".as_bytes_vec());
    push_word(&mut out, "--profile".as_bytes_vec());
    let kept = path::slice(profile_path, 0, profile_path.len());
    assert(kept@ == profile_path@);
    push_word(&mut out, kept);
    let ghost head = words_of(out@);
    assert(head == seq![
        encode_utf8("run"@),
        encode_utf8("--no-rollback"@),
        encode_utf8("--no-diagnostics"@),
        encode_utf8("--profile"@),
        profile_path@,
    ]);
    let ghost all = args.deep_view();
    let mut i: usize = 0;
    assert(all.take(0) == Seq::<(Seq<char>, Seq<char>)>::empty());
    assert(words_of(out@) == head + flat(all.take(0)));
    while i < args.len()
        invariant
            i <= args@.len(),
            all == args.deep_view(),
            words_of(out@) == head + flat(all.take(i as int)),
        decreases args@.len() - i,
    {
        assert(all.take(i + 1).drop_last() == all.take(i as int));
        assert(all.take(i + 1).last() == args@[i as int].deep_view());
        push_word(&mut out, args[i].flag.as_bytes_vec());
        push_word(&mut out, args[i].path.as_str().as_bytes_vec());
        assert(words_of(out@) == head + flat(all.take(i + 1)));
        i = i + 1;
    }
    assert(all.take(i as int) == all);
    let ghost mid = words_of(out@);
    push_word(&mut out, "--".as_bytes_vec());
    push_word(&mut out, "bash".as_bytes_vec());
    push_word(&mut out, "-c".as_bytes_vec());
    push_word(&mut out, config.command.as_str().as_bytes_vec());
    assert(words_of(out@) == mid + seq![
        encode_utf8("--"@),
        encode_utf8("bash"@),
        encode_utf8("-c"@),
        encode_utf8(config.command@),
    ]);
    out
}

/// The environment of the sandbox. A profile that is complete must not be migrated.
pub open spec fn nono_env_of(
    config: ConfigModel,
    env: Map<Seq<char>, Seq<char>>,
) -> Map<Seq<char>, Seq<char>> {
    if config.repo_profile is Some {
        env.insert("NONO_NO_MIGRATE"@, "1"@)
    } else {
        env
    }
}

/// The same environment once more.
fn copy_env(env: &TextMap<String>) -> (r: TextMap<String>)
    requires
        env.wf(),
    ensures
        r.wf(),
        env_of(r) == env_of(*env),
{
    let r = TextMap { keys: text::copy_all(&env.keys), values: text::copy_all(&env.values) };
    proof {
        assert(r.keys@.len() == r.keys.deep_view().len());
        assert(r.values@.len() == r.values.deep_view().len());
        assert(env.keys@.len() == env.keys.deep_view().len());
        assert(env.values@.len() == env.values.deep_view().len());
        assert forall|i: int| 0 <= i < env.keys@.len() implies #[trigger] r.keys@[i]@
            == env.keys@[i]@ && r.values@[i]@ == env.values@[i]@ by {
            assert(r.keys.deep_view()[i] == env.keys.deep_view()[i]);
            assert(r.values.deep_view()[i] == env.values.deep_view()[i]);
        }
        assert forall|k: Seq<char>| env_of(r).contains_key(k) <==> env_of(*env).contains_key(k) by {
            if r@.contains_key(k) {
                let i = r.index_of(k);
                assert(env.keys@[i]@ == r.keys@[i]@);
            }
            if env@.contains_key(k) {
                let i = env.index_of(k);
                assert(r.keys@[i]@ == env.keys@[i]@);
            }
        }
        assert forall|k: Seq<char>| env_of(r).contains_key(k) implies #[trigger] env_of(r)[k]
            == env_of(*env)[k] by {
            let i = r.index_of(k);
            assert(r.keys@[i]@ == k);
            assert(env.keys@[i]@ == k);
            lemma_entry(r, i);
            lemma_entry(*env, i);
        }
        assert(env_of(r) =~= env_of(*env));
    }
    r
}

/// The environment of the sandbox.
pub fn nono_env(config: &RunConfig, sealed: &SealedCredentials) -> (r: TextMap<String>)
    requires
        sealed.sanitized_env.wf(),
    ensures
        r.wf(),
        env_of(r) == nono_env_of(config.deep_view(), env_of(sealed.sanitized_env)),
{
    let mut env = copy_env(&sealed.sanitized_env);
    match &config.repo_profile {
        Some(_) => {
            let ghost before = env_of(env);
            let key = "NONO_NO_MIGRATE".to_owned();
            let value = "1".to_owned();
            env.insert(key, value);
            assert(env_of(env) =~= before.insert("NONO_NO_MIGRATE"@, "1"@));
        },
        None => {},
    }
    env
}

/// How the sandbox is to be started.
pub struct Launch {
    pub args: Vec<Vec<u8>>,
    pub env: TextMap<String>,
}

/// How the sandbox is to be started, as a mathematical value.
pub struct LaunchModel {
    pub args: Seq<Seq<u8>>,
    pub env: Map<Seq<char>, Seq<char>>,
}

impl DeepView for Launch {
    type V = LaunchModel;

    open spec fn deep_view(&self) -> LaunchModel {
        LaunchModel { args: words_of(self.args@), env: env_of(self.env) }
    }
}

/// A run of the sandbox: what is reported, and then how it is started, or why it is not.
pub struct NonoRun {
    pub report: Vec<String>,
    pub launch: Result<Launch, Error>,
}

/// A run of the sandbox, as a mathematical value.
pub struct RunModel {
    pub report: Seq<Seq<char>>,
    pub launch: Result<LaunchModel, Seq<char>>,
}

impl DeepView for NonoRun {
    type V = RunModel;

    open spec fn deep_view(&self) -> RunModel {
        RunModel { report: self.report.deep_view(), launch: outcome(self.launch) }
    }
}

/// The run of the sandbox for a configuration.
pub open spec fn nono_run(
    config: ConfigModel,
    sealed: SealedModel,
    profile_path: Seq<u8>,
    trusted: Seq<Seq<char>>,
    kinds: Seq<PathKind>,
) -> RunModel {
    let head = report_head(config, trusted);
    match args_of(requests_of(config, trusted), kinds) {
        Err(e) => RunModel { report: head, launch: Err(e) },
        Ok(args) => RunModel {
            report: head + report_rest(config, sealed.access.len(), args, profile_path),
            launch: Ok(
                LaunchModel {
                    args: nono_args_of(config.command, profile_path, args),
                    env: nono_env_of(config, sealed.sanitized_env),
                },
            ),
        },
    }
}

/// Decides how the sandbox is run, given which trusted places exist, and what each path of
/// `fs_requests` leads to.
pub fn run_nono(
    config: &RunConfig,
    sealed: &SealedCredentials,
    profile_path: &Vec<u8>,
    trusted_system_reads: &Vec<String>,
    kinds: &Vec<PathKind>,
) -> (r: NonoRun)
    requires
        sealed.sanitized_env.wf(),
    ensures
        r.deep_view() == nono_run(
            config.deep_view(),
            sealed.deep_view(),
            profile_path@,
            trusted_system_reads.deep_view(),
            kinds@,
        ),
        r.launch matches Ok(launch) ==> launch.env.wf(),
{
    let mut report: Vec<String> = Vec::new();
    let read = display_list(&config.fs_read, "<workspace>");
    let system = display_list(trusted_system_reads, "<nono defaults>");
    let write = display_list(&config.fs_write, "<none>");
    report.push("::group::runseal sandbox configuration".to_owned());
    report.push(line("  filesystem read:  ", read.as_str()));
    report.push(line("  system read:      ", system.as_str()));
    report.push(line("  filesystem write: ", write.as_str()));
    let ghost head = report_head(config.deep_view(), trusted_system_reads.deep_view());
    assert(report.deep_view() == head);
    let args = match fs_args(config, trusted_system_reads, kinds) {
        Ok(args) => args,
        Err(e) => {
            return NonoRun { report, launch: Err(e) };
        },
    };
    let shown_args = display_fs_args(&args);
    let network = display_network(&config.network);
    let n: usize = sealed.access.len();
    let count = text::to_decimal(n as u64);
    let profile = encoding::decode_lossy(profile_path.as_slice());
    let mut grant_count = line("  access grants:    ", count.as_str());
    grant_count.append(" configured");
    report.push(line("  nono fs args:     ", shown_args.as_str()));
    report.push(line("  direct network:   ", network.as_str()));
    report.push(line("  credential proxy: ", display_credential_proxy(n)));
    report.push(grant_count);
    report.push(line("  nono profile:     ", profile.as_str()));
    report.push("::endgroup::".to_owned());
    assert(report.deep_view() == head + report_rest(
        config.deep_view(),
        n as nat,
        args.deep_view(),
        profile_path@,
    ));
    let launch = Launch {
        args: nono_args(config, profile_path, &args),
        env: nono_env(config, sealed),
    };
    NonoRun { report, launch: Ok(launch) }
}

/// How the sandbox ended.
pub struct ExitReport {
    pub success: bool,
    /// The status, as the system tells it.
    pub status: String,
}

impl DeepView for ExitReport {
    type V = (bool, Seq<char>);

    open spec fn deep_view(&self) -> (bool, Seq<char>) {
        (self.success, self.status@)
    }
}

/// What a run of the sandbox comes to.
pub open spec fn run_outcome(reply: Result<(bool, Seq<char>), Seq<char>>) -> Result<(), Seq<char>> {
    match reply {
        Err(e) => Err(in_context("failed to spawn nono"@, e)),
        Ok((success, status)) => if success {
            Ok(())
        } else {
            Err("nono exited with status "@ + status)
        },
    }
}

/// Tells what a run of the sandbox comes to, once it has ended or could not be started.
pub fn conclude_run(reply: Result<ExitReport, Error>) -> (r: Result<(), Error>)
    ensures
        outcome(r) == run_outcome(outcome(reply)),
{
    match reply {
        Err(e) => Err(e.context("failed to spawn nono")),
        Ok(exit) => if exit.success {
            Ok(())
        } else {
            let mut message = "nono exited with status ".to_owned();
            message.append(exit.status.as_str());
            Err(Error { message })
        },
    }
}

/// No secret and no input of runseal reaches the sandbox through its environment, whatever the
/// environment of runseal was.
pub proof fn lemma_launch_hides_secrets(
    config: ConfigModel,
    vars: Seq<(Seq<u8>, Seq<u8>)>,
    key: Seq<char>,
)
    ensures
        nono_env_of(config, sanitized(vars, secret_names_of(config.access))).contains_key(key)
            ==> key == "NONO_NO_MIGRATE"@ || (!secret_names_of(config.access).contains(key)
            && !is_input_name(key)),
{
    lemma_sanitized_hides_secrets(vars, secret_names_of(config.access), key);
}

/// What a run asks for: to read each path that it lists, to read each trusted place, and to write
/// each path that it lists for that; nothing else, and in this order.
pub proof fn lemma_requests_exactly(config: ConfigModel, trusted: Seq<Seq<char>>)
    ensures
        requests_of(config, trusted).len() == config.fs_read.len() + trusted.len()
            + config.fs_write.len(),
        forall|i: int|
            0 <= i < config.fs_read.len() ==> #[trigger] requests_of(config, trusted)[i] == (
                FsAccess::Read,
                config.fs_read[i],
            ),
        forall|i: int|
            0 <= i < trusted.len() ==> requests_of(config, trusted)[config.fs_read.len() + i] == (
                FsAccess::Read,
                #[trigger] trusted[i],
            ),
        forall|i: int|
            0 <= i < config.fs_write.len() ==> requests_of(config, trusted)[config.fs_read.len()
                + trusted.len() + i] == (FsAccess::Write, #[trigger] config.fs_write[i]),
{
}

/// Whether the request at a place was not made before in the same way.
pub open spec fn is_new(requests: Seq<(FsAccess, Seq<char>)>, i: int) -> bool {
    forall|k: int| 0 <= k < i ==> #[trigger] requests[k] != requests[i]
}

/// `is_new`, as a choice of places.
pub open spec fn new_ones(requests: Seq<(FsAccess, Seq<char>)>) -> spec_fn(int) -> bool {
    |i: int| is_new(requests, i)
}

/// Whether what stands at a path can be granted: a file or a directory, and where it is to be
/// written, also nothing.
pub open spec fn can_grant(access: FsAccess, kind: PathKind) -> bool {
    ||| kind == PathKind::File
    ||| kind == PathKind::Directory
    ||| kind == PathKind::Missing && access == FsAccess::Write
}

/// Whether an argument grants a request: for the same path, with the flag that fits the access and
/// what stands there.
pub open spec fn answers(
    arg: (Seq<char>, Seq<char>),
    request: (FsAccess, Seq<char>),
    kind: PathKind,
) -> bool {
    &&& arg.1 == request.1
    &&& request.0 == FsAccess::Read && kind == PathKind::Directory ==> arg.0 == "--read"@
    &&& request.0 == FsAccess::Read && kind == PathKind::File ==> arg.0 == "--read-file"@
    &&& request.0 == FsAccess::Write && kind != PathKind::File ==> arg.0 == "--write"@
    &&& request.0 == FsAccess::Write && kind == PathKind::File ==> arg.0 == "--write-file"@
    &&& can_grant(request.0, kind)
}

/// Whether arguments answer requests: each that is made for the first time, in their order, and no
/// other.
pub open spec fn answers_all(
    from: Seq<int>,
    args: Seq<(Seq<char>, Seq<char>)>,
    requests: Seq<(FsAccess, Seq<char>)>,
    kinds: Seq<PathKind>,
) -> bool {
    &&& picks(from, requests.len() as int, new_ones(requests))
    &&& from.len() == args.len()
    &&& forall|j: int|
        0 <= j < args.len() ==> answers(
            #[trigger] args[j],
            requests[from[j]],
            kinds[from[j]],
        )
}

/// Whether requests are answered by arguments.
pub open spec fn are_answered(
    requests: Seq<(FsAccess, Seq<char>)>,
    kinds: Seq<PathKind>,
    args: Seq<(Seq<char>, Seq<char>)>,
) -> bool {
    exists|from: Seq<int>| #[trigger] answers_all(from, args, requests, kinds)
}

/// Every request that is made for the first time is granted, by the flag that fits it, in the order
/// of the requests; a request that cannot be granted refuses all of them.
pub proof fn lemma_args_exactly(requests: Seq<(FsAccess, Seq<char>)>, kinds: Seq<PathKind>)
    requires
        requests.len() <= kinds.len(),
    ensures
        args_of(requests, kinds) is Ok <==> forall|i: int|
            0 <= i < requests.len() && #[trigger] is_new(requests, i) ==> can_grant(
                requests[i].0,
                kinds[i],
            ),
        args_of(requests, kinds) is Ok ==> are_answered(
            requests,
            kinds,
            args_of(requests, kinds)->Ok_0,
        ),
    decreases requests.len(),
{
    if requests.len() == 0 {
        let none = Seq::<int>::empty();
        let args = Seq::<(Seq<char>, Seq<char>)>::empty();
        assert(args_of(requests, kinds) == Ok::<_, Seq<char>>(args));
        assert(answers_all(none, args, requests, kinds));
    } else {
        let earlier = requests.drop_last();
        let last = requests.len() - 1;
        lemma_args_exactly(earlier, kinds);
        lemma_new_among_more(requests);
        assert(requests.last() == requests[last]);
        assert(kind_at(kinds, last) == kinds[last]);
        match args_of(earlier, kinds) {
            Err(_) => {
                let i = choose|i: int|
                    0 <= i < earlier.len() && #[trigger] is_new(earlier, i) && !can_grant(
                        earlier[i].0,
                        kinds[i],
                    );
                assert(requests[i] == earlier[i]);
                assert(is_new(requests, i));
            },
            Ok(done) => {
                assert forall|i: int|
                    0 <= i < last && #[trigger] is_new(requests, i) implies can_grant(
                    requests[i].0,
                    kinds[i],
                ) by {
                    assert(is_new(earlier, i));
                    assert(earlier[i] == requests[i]);
                }
                assert(are_answered(earlier, kinds, done));
                let from = choose|from: Seq<int>| #[trigger]
                    answers_all(from, done, earlier, kinds);
                if let Ok(args) = args_of(requests, kinds) {
                    if is_new(requests, last) {
                        assert(can_grant(requests[last].0, kinds[last]));
                        assert(answers(args.last(), requests[last], kinds[last]));
                    }
                    lemma_answers_more(from, done, args, requests, kinds);
                }
            },
        }
    }
}

proof fn lemma_new_among_more(requests: Seq<(FsAccess, Seq<char>)>)
    requires
        requests.len() > 0,
    ensures
        requests.drop_last().contains(requests.last()) == !is_new(requests, requests.len() - 1),
        forall|i: int|
            0 <= i < requests.len() - 1 ==> #[trigger] is_new(requests.drop_last(), i) == is_new(
                requests,
                i,
            ),
        forall|i: int|
            0 <= i < requests.len() - 1 ==> #[trigger] is_new(requests, i) == is_new(
                requests.drop_last(),
                i,
            ),
{
    let earlier = requests.drop_last();
    let last = requests.len() - 1;
    let request = requests[last];
    if earlier.contains(request) {
        let k = choose|k: int| 0 <= k < earlier.len() && earlier[k] == request;
        assert(requests[k] == request);
    }
    if !is_new(requests, last) {
        let k = choose|k: int| 0 <= k < last && #[trigger] requests[k] == requests[last];
        assert(earlier[k] == request);
    }
    assert forall|i: int| 0 <= i < last implies #[trigger] is_new(earlier, i) == is_new(
        requests,
        i,
    ) by {
        assert(earlier[i] == requests[i]);
        if is_new(earlier, i) {
            assert forall|k: int| 0 <= k < i implies #[trigger] requests[k] != requests[i] by {
                assert(earlier[k] != earlier[i]);
            }
        }
        if is_new(requests, i) {
            assert forall|k: int| 0 <= k < i implies #[trigger] earlier[k] != earlier[i] by {
                assert(requests[k] != requests[i]);
            }
        }
    }
}

proof fn lemma_answers_more(
    from: Seq<int>,
    done: Seq<(Seq<char>, Seq<char>)>,
    args: Seq<(Seq<char>, Seq<char>)>,
    requests: Seq<(FsAccess, Seq<char>)>,
    kinds: Seq<PathKind>,
)
    requires
        requests.len() > 0,
        answers_all(from, done, requests.drop_last(), kinds),
        is_new(requests, requests.len() - 1) ==> args.len() == done.len() + 1 && args.drop_last()
            =~= done && answers(
            args.last(),
            requests[requests.len() - 1],
            kinds[requests.len() - 1],
        ),
        !is_new(requests, requests.len() - 1) ==> args == done,
    ensures
        are_answered(requests, kinds, args),
{
    let earlier = requests.drop_last();
    let last = requests.len() - 1;
    lemma_new_among_more(requests);
    assert forall|i: int| 0 <= i < last implies #[trigger] new_ones(earlier)(i) == new_ones(
        requests,
    )(i) by {
        assert(is_new(earlier, i) == is_new(requests, i));
    }
    lemma_picks_same(from, last, new_ones(earlier), new_ones(requests));
    lemma_picks_next(from, last, new_ones(requests));
    if is_new(requests, last) {
        let more = from.push(last);
        assert forall|j: int| 0 <= j < args.len() implies answers(
            #[trigger] args[j],
            requests[more[j]],
            kinds[more[j]],
        ) by {
            if j < done.len() {
                assert(args.drop_last()[j] == done[j]);
                assert(more[j] == from[j]);
                assert(earlier[from[j]] == requests[from[j]]);
                assert(answers(done[j], earlier[from[j]], kinds[from[j]]));
            } else {
                assert(args[j] == args.last());
                assert(more[j] == last);
            }
        }
        assert(answers_all(more, args, requests, kinds));
    } else {
        assert forall|j: int| 0 <= j < args.len() implies answers(
            #[trigger] args[j],
            requests[from[j]],
            kinds[from[j]],
        ) by {
            assert(answers(done[j], earlier[from[j]], kinds[from[j]]));
            assert(earlier[from[j]] == requests[from[j]]);
        }
        assert(answers_all(from, args, requests, kinds));
    }
}

/// How the sandbox is started: with the generated profile, then every flag with its path, and at
/// the end a shell for the whole of the command.
pub proof fn lemma_launch_exactly(
    config: ConfigModel,
    sealed: SealedModel,
    profile_path: Seq<u8>,
    trusted: Seq<Seq<char>>,
    kinds: Seq<PathKind>,
)
    ensures
        nono_run(config, sealed, profile_path, trusted, kinds).launch is Ok <==> args_of(
            requests_of(config, trusted),
            kinds,
        ) is Ok,
        nono_run(config, sealed, profile_path, trusted, kinds).launch matches Ok(launch) ==> {
            let fs = args_of(requests_of(config, trusted), kinds)->Ok_0;
            let n = launch.args.len();
            &&& n == 9 + 2 * fs.len()
            &&& launch.args[0] == encode_utf8("run"@)
            &&& launch.args[1] == encode_utf8("--no-rollback"@)
            &&& launch.args[2] == encode_utf8("--no-diagnostics"@)
            &&& launch.args[3] == encode_utf8("--profile"@)
            &&& launch.args[4] == profile_path
            &&& forall|j: int|
                0 <= j < fs.len() ==> launch.args[5 + 2 * j] == encode_utf8(
                    (#[trigger] fs[j]).0,
                ) && launch.args[6 + 2 * j] == encode_utf8(fs[j].1)
            &&& launch.args[n - 4] == encode_utf8("--"@)
            &&& launch.args[n - 3] == encode_utf8("bash"@)
            &&& launch.args[n - 2] == encode_utf8("-c"@)
            &&& launch.args[n - 1] == encode_utf8(config.command)
        },
{
    if let Ok(fs) = args_of(requests_of(config, trusted), kinds) {
        lemma_flat_exactly(fs);
        let mid = flat(fs);
        let all = nono_args_of(config.command, profile_path, fs);
        assert forall|j: int| 0 <= j < fs.len() implies all[5 + 2 * j] == encode_utf8(
            (#[trigger] fs[j]).0,
        ) && all[6 + 2 * j] == encode_utf8(fs[j].1) by {
            assert(all[5 + 2 * j] == mid[2 * j]);
            assert(all[6 + 2 * j] == mid[2 * j + 1]);
        }
    }
}

proof fn lemma_flat_exactly(args: Seq<(Seq<char>, Seq<char>)>)
    ensures
        flat(args).len() == 2 * args.len(),
        forall|j: int|
            0 <= j < args.len() ==> flat(args)[2 * j] == encode_utf8((#[trigger] args[j]).0)
                && flat(args)[2 * j + 1] == encode_utf8(args[j].1),
    decreases args.len(),
{
    if args.len() > 0 {
        let less = args.drop_last();
        lemma_flat_exactly(less);
        assert forall|j: int| 0 <= j < args.len() implies flat(args)[2 * j] == encode_utf8(
            (#[trigger] args[j]).0,
        ) && flat(args)[2 * j + 1] == encode_utf8(args[j].1) by {
            if j < less.len() {
                assert(less[j] == args[j]);
                assert(flat(args)[2 * j] == flat(less)[2 * j]);
                assert(flat(args)[2 * j + 1] == flat(less)[2 * j + 1]);
            }
        }
    }
}

/// Two runs are started alike only if they run the same command.
pub proof fn lemma_launch_tells_commands_apart(
    a: ConfigModel,
    b: ConfigModel,
    sealed: SealedModel,
    profile_path: Seq<u8>,
    trusted: Seq<Seq<char>>,
    kinds: Seq<PathKind>,
)
    ensures
        match (
            nono_run(a, sealed, profile_path, trusted, kinds).launch,
            nono_run(b, sealed, profile_path, trusted, kinds).launch,
        ) {
            (Ok(x), Ok(y)) => x.args == y.args ==> a.command == b.command,
            _ => true,
        },
{
    lemma_launch_exactly(a, sealed, profile_path, trusted, kinds);
    lemma_launch_exactly(b, sealed, profile_path, trusted, kinds);
    encode_utf8_decode_utf8(a.command);
    encode_utf8_decode_utf8(b.command);
}

/// The environment of the sandbox is the one that was cleaned, with one variable more where there is
/// a profile of the repository.
pub proof fn lemma_launch_env_exactly(
    config: ConfigModel,
    sealed: SealedModel,
    profile_path: Seq<u8>,
    trusted: Seq<Seq<char>>,
    kinds: Seq<PathKind>,
    key: Seq<char>,
)
    ensures
        nono_run(config, sealed, profile_path, trusted, kinds).launch matches Ok(launch) ==> {
            &&& config.repo_profile is Some ==> launch.env.contains_key("NONO_NO_MIGRATE"@)
                && launch.env["NONO_NO_MIGRATE"@] == "1"@
            &&& config.repo_profile is None || key != "NONO_NO_MIGRATE"@ ==> {
                &&& launch.env.contains_key(key) <==> sealed.sanitized_env.contains_key(key)
                &&& launch.env.contains_key(key) ==> launch.env[key] == sealed.sanitized_env[key]
            }
        },
{
}

/// The places that every command has to read, and that count where they exist: on Linux where
/// programs, libraries and certificates are, and none elsewhere.
pub proof fn lemma_trusted_exactly(os: TargetOs, exists: Seq<bool>)
    ensures
        os == TargetOs::Linux ==> trusted_places(os).len() == 7 && trusted_places(os)[0] == "/bin"@
            && trusted_places(os)[1] == "/lib"@ && trusted_places(os)[2] == "/lib64"@
            && trusted_places(os)[3] == "/sbin"@ && trusted_places(os)[4] == "/usr"@
            && trusted_places(os)[5] == "/etc/ssl"@ && trusted_places(os)[6] == "/etc/pki"@,
        os != TargetOs::Linux ==> trusted_places(os).len() == 0,
        exists|from: Seq<int>| #[trigger]
            lists_existing(from, existing(trusted_places(os), exists), trusted_places(os), exists),
{
    lemma_existing_exactly(trusted_places(os), exists);
}

/// Whether a list holds just the places that exist, in their order.
pub open spec fn lists_existing(
    from: Seq<int>,
    list: Seq<Seq<char>>,
    places: Seq<Seq<char>>,
    exists: Seq<bool>,
) -> bool {
    &&& picks(from, places.len() as int, |i: int| i < exists.len() && exists[i])
    &&& from.len() == list.len()
    &&& forall|j: int| 0 <= j < list.len() ==> #[trigger] list[j] == places[from[j]]
}

proof fn lemma_existing_exactly(places: Seq<Seq<char>>, exists: Seq<bool>)
    ensures
        exists|from: Seq<int>| #[trigger]
            lists_existing(from, existing(places, exists), places, exists),
    decreases places.len(),
{
    let keep = |i: int| i < exists.len() && exists[i];
    if places.len() == 0 {
        assert(lists_existing(Seq::empty(), existing(places, exists), places, exists));
    } else {
        let less = places.drop_last();
        let last = places.len() - 1;
        lemma_existing_exactly(less, exists);
        let done = existing(less, exists);
        let from = choose|from: Seq<int>| #[trigger] lists_existing(from, done, less, exists);
        lemma_picks_next(from, last, keep);
        let all = existing(places, exists);
        if keep(last) {
            let more = from.push(last);
            assert forall|j: int| 0 <= j < all.len() implies #[trigger] all[j]
                == places[more[j]] by {
                if j < done.len() {
                    assert(all[j] == done[j]);
                    assert(less[from[j]] == places[from[j]]);
                }
            }
            assert(lists_existing(more, all, places, exists));
        } else {
            assert forall|j: int| 0 <= j < all.len() implies #[trigger] all[j]
                == places[from[j]] by {
                assert(all[j] == done[j]);
                assert(less[from[j]] == places[from[j]]);
            }
            assert(lists_existing(from, all, places, exists));
        }
    }
}

/// What a list is shown as: its items with commas between them, or a word for none.
pub open spec fn is_shown_as(list: Seq<Seq<char>>, none: Seq<char>, shown: Seq<char>) -> bool {
    &&& list.len() == 0 ==> shown == none
    &&& list.len() > 0 ==> shown == joined(list, ", "@)
}

/// The report before a run: what may be read and written, and, once that can be granted, with which
/// flags, which hosts, how many credentials and which profile.
pub proof fn lemma_report_exactly(
    config: ConfigModel,
    sealed: SealedModel,
    profile_path: Seq<u8>,
    trusted: Seq<Seq<char>>,
    kinds: Seq<PathKind>,
)
    ensures
        ({
            let run = nono_run(config, sealed, profile_path, trusted, kinds);
            &&& run.report.len() == if run.launch is Ok {
                10int
            } else {
                4
            }
            &&& run.report[0] == "::group::runseal sandbox configuration"@
            &&& exists|shown: Seq<char>| #[trigger]
                is_shown_as(config.fs_read, "<workspace>"@, shown) && run.report[1]
                    == "  filesystem read:  "@ + shown
            &&& exists|shown: Seq<char>| #[trigger]
                is_shown_as(trusted, "<nono defaults>"@, shown) && run.report[2]
                    == "  system read:      "@ + shown
            &&& exists|shown: Seq<char>| #[trigger]
                is_shown_as(config.fs_write, "<none>"@, shown) && run.report[3]
                    == "  filesystem write: "@ + shown
            &&& run.launch is Ok ==> {
                let fs = args_of(requests_of(config, trusted), kinds)->Ok_0;
                &&& exists|shown: Seq<char>, words: Seq<Seq<char>>|
                    #![trigger is_shown_as(words, "<none>"@, shown)]
                    is_shown_as(words, "<none>"@, shown) && words.len() == fs.len() && (forall|
                        j: int,
                    |
                        0 <= j < fs.len() ==> #[trigger] words[j] == fs[j].0 + " "@ + fs[j].1)
                        && run.report[4] == "  nono fs args:     "@ + shown
                &&& run.report[5] == "  direct network:   "@ + (match config.network {
                    NetworkChoice::Blocked => "blocked"@,
                    NetworkChoice::AllowDomains(domains) => joined(domains, ", "@),
                    NetworkChoice::FromRepoProfile => "from repo profile"@,
                })
                &&& run.report[6] == "  credential proxy: "@ + (if sealed.access.len() == 0 {
                    "disabled"@
                } else {
                    "enabled for sealed credential routes"@
                })
                &&& run.report[7] == "  access grants:    "@ + decimal(sealed.access.len())
                    + " configured"@
                &&& run.report[8] == "  nono profile:     "@ + shown_text(profile_path)
                &&& run.report[9] == "::endgroup::"@
            }
        }),
{
    let run = nono_run(config, sealed, profile_path, trusted, kinds);
    let read = shown_list(config.fs_read, "<workspace>"@);
    let system = shown_list(trusted, "<nono defaults>"@);
    let write = shown_list(config.fs_write, "<none>"@);
    assert(is_shown_as(config.fs_read, "<workspace>"@, read));
    assert(is_shown_as(trusted, "<nono defaults>"@, system));
    assert(is_shown_as(config.fs_write, "<none>"@, write));
    let head = report_head(config, trusted);
    assert(head.len() == 4);
    assert forall|i: int| 0 <= i < 4 implies run.report[i] == #[trigger] head[i] by {}
    assert(head[0] == run.report[0] && head[1] == run.report[1] && head[2] == run.report[2]
        && head[3] == run.report[3]);
    if let Ok(fs) = args_of(requests_of(config, trusted), kinds) {
        let words = shown_each(fs);
        let shown = shown_list(words, "<none>"@);
        assert(is_shown_as(words, "<none>"@, shown));
        let rest = report_rest(config, sealed.access.len(), fs, profile_path);
        assert(run.report == head + rest);
        assert(rest[0] == run.report[4] && rest[1] == run.report[5] && rest[2] == run.report[6]
            && rest[3] == run.report[7] && rest[4] == run.report[8] && rest[5] == run.report[9]);
    }
}

/// A run succeeds exactly if the sandbox could be started and ended with success; otherwise the
/// status, or why it could not be started, is told.
pub proof fn lemma_outcome_exactly(reply: Result<(bool, Seq<char>), Seq<char>>)
    ensures
        run_outcome(reply) is Ok <==> (reply matches Ok((success, _)) && success),
        reply matches Err(e) ==> run_outcome(reply) == Err::<(), Seq<char>>(
            "failed to spawn nono"@ + ": "@ + e,
        ),
        reply matches Ok((success, status)) ==> !success ==> run_outcome(reply) == Err::<
            (),
            Seq<char>,
        >("nono exited with status "@ + status),
{
}

/// A model holds what the value holds, each part under its own name.
pub proof fn lemma_models_are_faithful(
    request: FsRequest,
    arg: FsArg,
    launch: Launch,
    run: NonoRun,
    exit: ExitReport,
)
    ensures
        request.deep_view() == (request.access, request.path@),
        arg.deep_view() == (arg.flag@, arg.path@),
        launch.deep_view().args.len() == launch.args@.len(),
        forall|i: int|
            0 <= i < launch.args@.len() ==> launch.deep_view().args[i] == (
            #[trigger] launch.args@[i])@,
        forall|key: Seq<char>|
            launch.deep_view().env.contains_key(key) <==> #[trigger] launch.env@.contains_key(key),
        forall|key: Seq<char>| #[trigger]
            launch.env@.contains_key(key) ==> launch.deep_view().env[key] == launch.env@[key]@,
        run.deep_view().report == run.report.deep_view(),
        run.launch matches Ok(launch) ==> run.deep_view().launch == Ok::<LaunchModel, Seq<char>>(
            launch.deep_view(),
        ),
        run.launch matches Err(e) ==> run.deep_view().launch == Err::<LaunchModel, Seq<char>>(e@),
        exit.deep_view() == (exit.success, exit.status@),
{
}

} // verus!
