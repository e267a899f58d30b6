//! Audit evidence: which sessions a run left behind, and how they are exported.
use vstd::prelude::*;
use vstd::string::*;
use vstd::utf8::{encode_utf8, is_ascii_chars, is_ascii_chars_encode_utf8};

use crate::encoding;
use crate::encoding::shown_text;
use crate::error::{in_context, outcome, Error};
use crate::path;
use crate::text;
use crate::text::{
    is_space, lemma_pieces_exactly, lemma_pieces_front, pieces, trimmed, uncut, Separator,
};

verus! {

/// What a command left behind when it ended.
pub struct CommandOutput {
    pub success: bool,
    pub stdout: Vec<u8>,
    pub stderr: Vec<u8>,
}

/// What a command left behind, as a mathematical value.
pub struct OutputModel {
    pub success: bool,
    pub stdout: Seq<u8>,
    pub stderr: Seq<u8>,
}

impl DeepView for CommandOutput {
    type V = OutputModel;

    open spec fn deep_view(&self) -> OutputModel {
        OutputModel { success: self.success, stdout: self.stdout@, stderr: self.stderr@ }
    }
}

/// Whether a character may stand in the id of a session.
pub open spec fn is_session_char(c: char) -> bool {
    '0' <= c <= '9' || c == '-'
}

/// Whether a text can be the id of a session.
pub open spec fn is_session_id(session: Seq<char>) -> bool {
    session.len() > 0 && forall|i: int|
        0 <= i < session.len() ==> is_session_char(#[trigger] session[i])
}

/// Whether a text can be the id of a session: digits and hyphens alone.
pub fn is_valid_session_id(session: &str) -> (r: bool)
    ensures
        r == is_session_id(session@),
{
    let chars = text::chars_of(session);
    let mut i: usize = 0;
    while i < chars.len()
        invariant
            i <= chars@.len(),
            chars@ == session@,
            forall|j: int| 0 <= j < i ==> is_session_char(#[trigger] session@[j]),
        decreases chars@.len() - i,
    {
        let c = chars[i];
        if !(('0' <= c && c <= '9') || c == '-') {
            assert(!is_session_char(session@[i as int]));
            return false;
        }
        i = i + 1;
    }
    chars.len() > 0
}

/// Why an id is refused.
pub open spec fn session_refusal(session: Seq<char>) -> Seq<char> {
    "nono audit session id '"@ + session + "' is invalid"@
}

/// Refuses what cannot be the id of a session.
pub fn validate_session_id(session: &str) -> (r: Result<(), Error>)
    ensures
        r is Ok <==> is_session_id(session@),
        r matches Err(e) ==> e@ == session_refusal(session@),
{
    if is_valid_session_id(session) {
        Ok(())
    } else {
        Err(Error::about("nono audit session id '", session, "' is invalid"))
    }
}

/// The first of some texts that can be the id of a session.
pub open spec fn first_session(parts: Seq<Seq<char>>) -> Option<Seq<char>>
    decreases parts.len(),
{
    if parts.len() == 0 {
        None
    } else if is_session_id(parts.first()) {
        Some(parts.first())
    } else {
        first_session(parts.drop_first())
    }
}

/// The session that a line of a listing names.
pub open spec fn session_in(line: Seq<char>) -> Option<Seq<char>> {
    first_session(pieces(line, Separator::Whitespace))
}

/// The session that a line of a listing names: its first word that can be an id.
pub fn parse_session_id<'a>(line: &'a str) -> (r: Option<&'a str>)
    ensures
        match r {
            Some(session) => session_in(line@) == Some(session@),
            None => session_in(line@) is None,
        },
{
    let mut rest = line;
    loop
        invariant
            session_in(line@) == session_in(rest@),
        decreases rest@.len(),
    {
        proof {
            lemma_pieces_front(rest@, Separator::Whitespace);
        }
        let ghost words = pieces(rest@, Separator::Whitespace);
        let at: usize = text::find(rest, Separator::Whitespace);
        let n: usize = rest.unicode_len();
        let word = text::text_before(rest, Separator::Whitespace);
        assert(word@ == words.first()) by {
            assert(rest@.take(n as int) == rest@);
        }
        if is_valid_session_id(word) {
            return Some(word);
        }
        if at == n {
            assert(words.drop_first() == Seq::<Seq<char>>::empty());
            assert(first_session(words.drop_first()) is None);
            return None;
        }
        let ghost tail = pieces(text::after(rest@, Separator::Whitespace), Separator::Whitespace);
        assert(words.drop_first() == tail);
        rest = text::text_after(rest, Separator::Whitespace);
    }
}

/// The sessions that lines name.
pub open spec fn sessions_in(lines: Seq<Seq<char>>) -> Seq<Seq<char>>
    decreases lines.len(),
{
    if lines.len() == 0 {
        Seq::empty()
    } else {
        let done = sessions_in(lines.drop_last());
        match session_in(lines.last()) {
            Some(session) => done.push(session),
            None => done,
        }
    }
}

/// The sessions that the lines of a listing name.
pub open spec fn listed_sessions(listing: Seq<char>) -> Seq<Seq<char>> {
    sessions_in(pieces(listing, Separator::Char('\n')))
}

/// The sessions that the lines of a listing name.
pub fn parse_plain_listing(listing: &str) -> (r: Vec<String>)
    ensures
        r.deep_view() == listed_sessions(listing@),
{
    let lines = text::split(listing, Separator::Char('\n'));
    let ghost all = lines.deep_view();
    let mut out: Vec<String> = Vec::new();
    let mut i: usize = 0;
    assert(all.take(0) == Seq::<Seq<char>>::empty());
    assert(out.deep_view() == sessions_in(all.take(0)));
    while i < lines.len()
        invariant
            i <= lines@.len(),
            all == lines.deep_view(),
            out.deep_view() == sessions_in(all.take(i as int)),
        decreases lines@.len() - i,
    {
        let ghost done = out.deep_view();
        assert(all.take(i + 1).drop_last() == all.take(i as int));
        assert(all.take(i + 1).last() == lines@[i as int]@);
        if let Some(session) = parse_session_id(lines[i].as_str()) {
            out.push(session.to_owned());
            assert(out.deep_view() == done.push(session@));
        }
        i = i + 1;
    }
    assert(all.take(i as int) == all);
    out
}

/// The ids of entries: blank ones are left out, and one that is no id refuses the whole listing.
pub open spec fn ids_of(entries: Seq<Seq<char>>) -> Result<Seq<Seq<char>>, Seq<char>>
    decreases entries.len(),
{
    if entries.len() == 0 {
        Ok(Seq::empty())
    } else {
        match ids_of(entries.drop_last()) {
            Err(e) => Err(e),
            Ok(done) => if trimmed(entries.last()).len() == 0 {
                Ok(done)
            } else if is_session_id(entries.last()) {
                Ok(done.push(entries.last()))
            } else {
                Err(session_refusal(entries.last()))
            },
        }
    }
}

proof fn lemma_ids_refused(entries: Seq<Seq<char>>, n: int)
    requires
        0 <= n <= entries.len(),
        ids_of(entries.take(n)) is Err,
    ensures
        ids_of(entries) == ids_of(entries.take(n)),
    decreases entries.len() - n,
{
    if n < entries.len() {
        assert(entries.take(n + 1).drop_last() == entries.take(n));
        lemma_ids_refused(entries, n + 1);
    } else {
        assert(entries.take(n) == entries);
    }
}

/// The sessions of a listing in JSON, given the ids of its entries.
pub open spec fn json_sessions(
    output: Seq<char>,
    entries: Result<Seq<Seq<char>>, Seq<char>>,
) -> Result<Seq<Seq<char>>, Seq<char>> {
    if trimmed(output).len() == 0 {
        Ok(Seq::empty())
    } else {
        match entries {
            Err(e) => Err(in_context("failed to parse nono audit list --json output"@, e)),
            Ok(ids) => ids_of(ids),
        }
    }
}

/// The sessions of a listing in JSON.
///
/// `entries` holds the `session_id` of each entry of `output`, or why it is no list of entries.
pub fn parse_audit_list_json(output: &str, entries: Result<Vec<String>, Error>) -> (r: Result<
    Vec<String>,
    Error,
>)
    ensures
        outcome(r) == json_sessions(output@, outcome(entries)),
{
    let ghost wanted = json_sessions(output@, outcome(entries));
    let mut sessions: Vec<String> = Vec::new();
    assert(sessions.deep_view() == Seq::<Seq<char>>::empty());
    if text::trim(output).is_empty() {
        return Ok(sessions);
    }
    let ids = match entries {
        Ok(ids) => ids,
        Err(e) => {
            return Err(e.context("failed to parse nono audit list --json output"));
        },
    };
    let ghost all = ids.deep_view();
    let mut i: usize = 0;
    assert(all.take(0) == Seq::<Seq<char>>::empty());
    assert(wanted == ids_of(all));
    while i < ids.len()
        invariant
            i <= ids@.len(),
            all == ids.deep_view(),
            wanted == ids_of(all),
            ids_of(all.take(i as int)) == Ok::<_, Seq<char>>(sessions.deep_view()),
            wanted == json_sessions(output@, outcome(entries)),
        decreases ids@.len() - i,
    {
        let ghost done = sessions.deep_view();
        assert(all.take(i + 1).drop_last() == all.take(i as int));
        assert(all.take(i + 1).last() == ids@[i as int]@);
        if !text::trim(ids[i].as_str()).is_empty() {
            if let Err(e) = validate_session_id(ids[i].as_str()) {
                proof {
                    lemma_ids_refused(all, i + 1);
                }
                return Err(e);
            }
            sessions.push(ids[i].clone());
            assert(sessions.deep_view() == done.push(ids@[i as int]@));
        }
        i = i + 1;
    }
    assert(all.take(i as int) == all);
    Ok(sessions)
}

/// Where the listing of sessions stands.
pub enum Listing {
    /// The listing in JSON was had; the ids of its entries are wanted.
    Entries(String),
    /// There is no listing in JSON; the plain one is wanted.
    Plain,
    /// The listing could not be had.
    Failed(Error),
}

/// Where the listing of sessions stands, as a mathematical value.
pub enum ListingModel {
    Entries(Seq<char>),
    Plain,
    Failed(Seq<char>),
}

impl DeepView for Listing {
    type V = ListingModel;

    open spec fn deep_view(&self) -> ListingModel {
        match self {
            Listing::Entries(t) => ListingModel::Entries(t@),
            Listing::Plain => ListingModel::Plain,
            Listing::Failed(e) => ListingModel::Failed(e@),
        }
    }
}

/// What follows on the attempt to list sessions in JSON.
pub open spec fn after_json_listing(reply: Result<OutputModel, Seq<char>>) -> ListingModel {
    match reply {
        Err(e) => ListingModel::Failed(in_context("failed to run nono audit list"@, e)),
        Ok(output) => if output.success {
            ListingModel::Entries(shown_text(output.stdout))
        } else {
            ListingModel::Plain
        },
    }
}

/// The sessions that the plain listing names. Its failure counts as no session.
pub open spec fn plain_sessions(reply: Result<OutputModel, Seq<char>>) -> Result<
    Seq<Seq<char>>,
    Seq<char>,
> {
    match reply {
        Err(e) => Err(in_context("failed to run nono audit list fallback"@, e)),
        Ok(output) => if output.success {
            Ok(
                listed_sessions(
                    shown_text(output.stdout) + "\n"@ + shown_text(output.stderr),
                ),
            )
        } else {
            Ok(Seq::empty())
        },
    }
}

impl Listing {
    /// What follows on the attempt to list sessions in JSON.
    pub fn ran_json(reply: Result<CommandOutput, Error>) -> (r: Self)
        ensures
            r.deep_view() == after_json_listing(outcome(reply)),
    {
        match reply {
            Err(e) => Listing::Failed(e.context("failed to run nono audit list")),
            Ok(output) => if output.success {
                Listing::Entries(encoding::decode_lossy(output.stdout.as_slice()))
            } else {
                Listing::Plain
            },
        }
    }

    /// The sessions that the plain listing names.
    pub fn ran_plain(reply: Result<CommandOutput, Error>) -> (r: Result<Vec<String>, Error>)
        ensures
            outcome(r) == plain_sessions(outcome(reply)),
    {
        match reply {
            Err(e) => Err(e.context("failed to run nono audit list fallback")),
            Ok(output) => if output.success {
                let mut listing = encoding::decode_lossy(output.stdout.as_slice());
                listing.append("\n");
                let more = encoding::decode_lossy(output.stderr.as_slice());
                listing.append(more.as_str());
                Ok(parse_plain_listing(listing.as_str()))
            } else {
                let none: Vec<String> = Vec::new();
                assert(none.deep_view() == Seq::<Seq<char>>::empty());
                Ok(none)
            },
        }
    }
}

/// The sessions that were there before a run.
pub struct AuditSnapshot {
    pub sessions: Vec<String>,
}

/// The sessions to export after a run.
pub struct AuditExport {
    pub sessions: Vec<String>,
    pub used_latest_fallback: bool,
}

/// The sessions to export, as a mathematical value.
pub struct ExportModel {
    pub sessions: Seq<Seq<char>>,
    pub used_latest_fallback: bool,
}

impl DeepView for AuditSnapshot {
    type V = Seq<Seq<char>>;

    open spec fn deep_view(&self) -> Seq<Seq<char>> {
        self.sessions.deep_view()
    }
}

impl DeepView for AuditExport {
    type V = ExportModel;

    open spec fn deep_view(&self) -> ExportModel {
        ExportModel {
            sessions: self.sessions.deep_view(),
            used_latest_fallback: self.used_latest_fallback,
        }
    }
}

/// The sessions of a listing; a listing that could not be had has none.
pub open spec fn sessions_or_none(listing: Result<Seq<Seq<char>>, Seq<char>>) -> Seq<Seq<char>> {
    match listing {
        Ok(sessions) => sessions,
        Err(_) => Seq::empty(),
    }
}

/// The sessions of `after` that are not among `before`, in their order.
pub open spec fn fresh(before: Seq<Seq<char>>, after: Seq<Seq<char>>) -> Seq<Seq<char>>
    decreases after.len(),
{
    if after.len() == 0 {
        Seq::empty()
    } else if before.contains(after.last()) {
        fresh(before, after.drop_last())
    } else {
        fresh(before, after.drop_last()).push(after.last())
    }
}

/// The sessions to export: the new ones, or else the first one listed.
pub open spec fn export_of(before: Seq<Seq<char>>, after: Seq<Seq<char>>) -> ExportModel {
    let new = fresh(before, after);
    if new.len() > 0 {
        ExportModel { sessions: new, used_latest_fallback: false }
    } else if after.len() > 0 {
        ExportModel { sessions: seq![after[0]], used_latest_fallback: true }
    } else {
        ExportModel { sessions: Seq::empty(), used_latest_fallback: true }
    }
}

impl AuditSnapshot {
    /// Remembers the sessions that are listed before a run.
    pub fn capture(listing: Result<Vec<String>, Error>) -> (r: Self)
        ensures
            r.deep_view() == sessions_or_none(outcome(listing)),
    {
        match listing {
            Ok(sessions) => AuditSnapshot { sessions },
            Err(_) => {
                let sessions: Vec<String> = Vec::new();
                assert(sessions.deep_view() == Seq::<Seq<char>>::empty());
                AuditSnapshot { sessions }
            },
        }
    }

    /// The sessions to export, given those that are listed after the run.
    pub fn new_sessions_since(&self, listing: Result<Vec<String>, Error>) -> (r: AuditExport)
        ensures
            r.deep_view() == export_of(self.deep_view(), sessions_or_none(outcome(listing))),
    {
        let later = AuditSnapshot::capture(listing).sessions;
        let ghost all = later.deep_view();
        let ghost known = self.sessions.deep_view();
        let mut sessions: Vec<String> = Vec::new();
        let mut i: usize = 0;
        assert(all.take(0) == Seq::<Seq<char>>::empty());
        assert(sessions.deep_view() == fresh(known, all.take(0)));
        while i < later.len()
            invariant
                i <= later@.len(),
                all == later.deep_view(),
                known == self.sessions.deep_view(),
                sessions.deep_view() == fresh(known, all.take(i as int)),
            decreases later@.len() - i,
        {
            let ghost done = sessions.deep_view();
            assert(all.take(i + 1).drop_last() == all.take(i as int));
            assert(all.take(i + 1).last() == later@[i as int]@);
            if !text::is_among(later[i].as_str(), &self.sessions) {
                sessions.push(later[i].clone());
                assert(sessions.deep_view() == done.push(later@[i as int]@));
            }
            i = i + 1;
        }
        assert(all.take(i as int) == all);
        let used_latest_fallback = sessions.len() == 0;
        if used_latest_fallback && later.len() > 0 {
            sessions.push(later[0].clone());
            assert(sessions.deep_view() == seq![all[0]]);
        }
        AuditExport { sessions, used_latest_fallback }
    }
}

/// What is exported is listed after the run, and unless nothing is new, was not there before it.
pub proof fn lemma_export_is_listed(before: Seq<Seq<char>>, after: Seq<Seq<char>>, session: Seq<char>)
    ensures
        export_of(before, after).sessions.contains(session) ==> after.contains(session) && (
        export_of(before, after).used_latest_fallback || !before.contains(session)),
{
    lemma_fresh(before, after, session);
    let export = export_of(before, after);
    if export.sessions.contains(session) && fresh(before, after).len() == 0 {
        assert(after.contains(after[0]));
    }
}

/// Every session that is listed after a run and was not there before it is exported.
pub proof fn lemma_new_session_is_exported(
    before: Seq<Seq<char>>,
    after: Seq<Seq<char>>,
    session: Seq<char>,
)
    requires
        after.contains(session),
        !before.contains(session),
    ensures
        export_of(before, after).sessions.contains(session),
        !export_of(before, after).used_latest_fallback,
{
    lemma_fresh(before, after, session);
}

proof fn lemma_fresh(before: Seq<Seq<char>>, after: Seq<Seq<char>>, session: Seq<char>)
    ensures
        fresh(before, after).contains(session) <==> after.contains(session) && !before.contains(
            session,
        ),
    decreases after.len(),
{
    if after.len() > 0 {
        let rest = after.drop_last();
        lemma_fresh(before, rest, session);
        let kept = fresh(before, rest);
        if after.contains(session) && session != after.last() {
            let i = choose|i: int| 0 <= i < after.len() && after[i] == session;
            assert(rest[i] == session);
        }
        if rest.contains(session) {
            let i = choose|i: int| 0 <= i < rest.len() && rest[i] == session;
            assert(after[i] == session);
        }
        assert(after[after.len() - 1] == after.last());
        let new = kept.push(after.last());
        assert(new[kept.len() as int] == after.last());
        if kept.contains(session) {
            let i = choose|i: int| 0 <= i < kept.len() && kept[i] == session;
            assert(new[i] == session);
        }
        if new.contains(session) && session != after.last() {
            let i = choose|i: int| 0 <= i < new.len() && new[i] == session;
            assert(kept[i] == session);
        }
    }
}

/// The name of the file for a session: for its evidence, or for why there is none.
pub open spec fn session_file(session: Seq<char>, shown: bool) -> Seq<char> {
    if shown {
        session + ".json"@
    } else {
        session + ".error.txt"@
    }
}

/// The name of the file for a session.
pub fn session_file_name(session: &str, shown: bool) -> (r: String)
    ensures
        r@ == session_file(session@, shown),
{
    let mut name = session.to_owned();
    if shown {
        name.append(".json");
    } else {
        name.append(".error.txt");
    }
    name
}

/// The name of the file that lists what was exported.
pub const SUMMARY_FILE: &'static str = "summary.md";

proof fn lemma_ascii_name(name: Seq<char>)
    requires
        name.len() > 2,
        forall|i: int| 0 <= i < name.len() ==> '\0' <= #[trigger] name[i] <= '\u{7f}' && name[i]
            != '/',
    ensures
        path::is_plain_name(encode_utf8(name)),
{
    assert(is_ascii_chars(name));
    is_ascii_chars_encode_utf8(name);
    let bytes = encode_utf8(name);
    assert(bytes.len() == name.len());
    assert forall|i: int| 0 <= i < bytes.len() implies #[trigger] bytes[i] != path::SLASH by {
        assert(bytes[i] == name[i] as u8);
    }
}

/// The files of a session have plain names, so that none is written outside the output directory.
pub proof fn lemma_session_file_is_plain(session: Seq<char>, shown: bool)
    requires
        is_session_id(session),
    ensures
        path::is_plain_name(encode_utf8(session_file(session, shown))),
{
    reveal_strlit(".json");
    reveal_strlit(".error.txt");
    let name = session_file(session, shown);
    assert forall|i: int| 0 <= i < name.len() implies '\0' <= #[trigger] name[i] <= '\u{7f}'
        && name[i] != '/' by {
        if i < session.len() {
            assert(is_session_char(session[i]));
            assert(name[i] == session[i]);
        }
    }
    lemma_ascii_name(name);
}

/// The summary of the files has a plain name too.
pub proof fn lemma_summary_file_is_plain()
    ensures
        path::is_plain_name(encode_utf8(SUMMARY_FILE@)),
{
    reveal_strlit("summary.md");
    lemma_ascii_name(SUMMARY_FILE@);
}

/// How the summary of an export starts.
pub open spec fn summary_head(export: ExportModel) -> Seq<char> {
    if export.sessions.len() == 0 {
        "# Runseal Audit Export\n\n"@ + "No new nono audit sessions were detected.\n"@
    } else if export.used_latest_fallback {
        "# Runseal Audit Export\n\n"@
            + "No before/after session diff was detected; exported latest visible session.\n\n"@
    } else {
        "# Runseal Audit Export\n\n"@
    }
}

/// The line of a file in the summary.
pub open spec fn summary_line(name: Seq<char>) -> Seq<char> {
    "- `"@ + name + "`\n"@
}

/// What an export has come to.
pub enum Stage {
    /// The output directory is to be made.
    Create,
    /// The evidence of the next session is to be had.
    Show,
    /// The file of the next session is to be written: its evidence, if `shown`.
    Write { shown: bool, contents: Vec<u8> },
    /// The summary is to be written.
    Summarize,
    /// All is done.
    Finished,
    Failed(Error),
}

/// What an export has come to, as a mathematical value.
pub enum StageModel {
    Create,
    Show,
    Write { shown: bool, contents: Seq<u8> },
    Summarize,
    Finished,
    Failed(Seq<char>),
}

impl DeepView for Stage {
    type V = StageModel;

    open spec fn deep_view(&self) -> StageModel {
        match self {
            Stage::Create => StageModel::Create,
            Stage::Show => StageModel::Show,
            Stage::Write { shown, contents } => StageModel::Write {
                shown: *shown,
                contents: contents@,
            },
            Stage::Summarize => StageModel::Summarize,
            Stage::Finished => StageModel::Finished,
            Stage::Failed(e) => StageModel::Failed(e@),
        }
    }
}

/// An export under way. It says what is to be done next, and learns how that went.
pub struct Exporter {
    pub output_dir: Vec<u8>,
    pub sessions: Vec<String>,
    /// How many sessions have their file.
    pub written: usize,
    pub summary: String,
    pub stage: Stage,
}

/// An export under way, as a mathematical value.
pub struct ExporterModel {
    pub output_dir: Seq<u8>,
    /// The sessions that have no file yet.
    pub left: Seq<Seq<char>>,
    pub summary: Seq<char>,
    pub stage: StageModel,
}

/// What is to be done next in an export.
pub enum ExportAction {
    /// Make the output directory.
    CreateDir,
    /// Have the sandbox show a session in JSON.
    Show(String),
    /// Write a file in the output directory.
    Write { name: String, contents: Vec<u8> },
}

/// What is to be done next in an export, as a mathematical value.
pub enum ActionModel {
    CreateDir,
    Show(Seq<char>),
    Write { name: Seq<char>, contents: Seq<u8> },
}

impl DeepView for ExportAction {
    type V = ActionModel;

    open spec fn deep_view(&self) -> ActionModel {
        match self {
            ExportAction::CreateDir => ActionModel::CreateDir,
            ExportAction::Show(session) => ActionModel::Show(session@),
            ExportAction::Write { name, contents } => ActionModel::Write {
                name: name@,
                contents: contents@,
            },
        }
    }
}

impl DeepView for Exporter {
    type V = ExporterModel;

    open spec fn deep_view(&self) -> ExporterModel {
        ExporterModel {
            output_dir: self.output_dir@,
            left: self.sessions.deep_view().skip(self.written as int),
            summary: self.summary@,
            stage: self.stage.deep_view(),
        }
    }
}

impl ExporterModel {
    /// Whether the export can have come this far: only sessions with a proper id are acted upon.
    pub open spec fn wf(self) -> bool {
        match self.stage {
            StageModel::Show | StageModel::Write { .. } => self.left.len() > 0 && is_session_id(
                self.left[0],
            ),
            _ => true,
        }
    }

    /// What is to be done next.
    pub open spec fn action(self) -> Option<ActionModel> {
        match self.stage {
            StageModel::Create => Some(ActionModel::CreateDir),
            StageModel::Show => Some(ActionModel::Show(self.left[0])),
            StageModel::Write { shown, contents } => Some(
                ActionModel::Write { name: session_file(self.left[0], shown), contents },
            ),
            StageModel::Summarize => Some(
                ActionModel::Write { name: SUMMARY_FILE@, contents: encode_utf8(self.summary) },
            ),
            StageModel::Finished | StageModel::Failed(_) => None,
        }
    }

    /// The same export, at another stage.
    pub open spec fn at(self, stage: StageModel) -> Self {
        ExporterModel { stage, ..self }
    }

    /// The same export, turning to the next session or, after the last, to the summary.
    pub open spec fn onward(self) -> Self {
        if self.left.len() == 0 {
            self.at(StageModel::Summarize)
        } else if is_session_id(self.left[0]) {
            self.at(StageModel::Show)
        } else {
            self.at(StageModel::Failed(session_refusal(self.left[0])))
        }
    }

    /// The same export, the next session having got its file.
    pub open spec fn past(self, shown: bool) -> Self {
        ExporterModel {
            left: self.left.drop_first(),
            summary: self.summary + summary_line(session_file(self.left[0], shown)),
            ..self
        }.onward()
    }

    /// What was being attempted, told for a failure.
    pub open spec fn attempt(self) -> Seq<char> {
        match self.stage {
            StageModel::Create => "failed to create audit output dir '"@ + shown_text(
                self.output_dir,
            ) + "'"@,
            StageModel::Show => "failed to run nono audit show "@ + self.left[0] + " --json"@,
            StageModel::Write { shown, .. } => if shown {
                "failed to write audit JSON for session "@ + self.left[0]
            } else {
                "failed to write audit error for session "@ + self.left[0]
            },
            _ => "failed to write audit summary in '"@ + shown_text(self.output_dir) + "'"@,
        }
    }

    /// What follows when a directory or a file was to be made.
    pub open spec fn after_made(self, reply: Result<(), Seq<char>>) -> Self {
        match self.stage {
            StageModel::Show | StageModel::Finished | StageModel::Failed(_) => self,
            _ => match reply {
                Err(e) => self.at(StageModel::Failed(in_context(self.attempt(), e))),
                Ok(_) => match self.stage {
                    StageModel::Create => self.onward(),
                    StageModel::Write { shown, .. } => self.past(shown),
                    _ => self.at(StageModel::Finished),
                },
            },
        }
    }

    /// What follows when a session was to be shown.
    pub open spec fn after_shown(self, reply: Result<OutputModel, Seq<char>>) -> Self {
        match self.stage {
            StageModel::Show => match reply {
                Err(e) => self.at(StageModel::Failed(in_context(self.attempt(), e))),
                Ok(output) => if output.success {
                    self.at(StageModel::Write { shown: true, contents: output.stdout })
                } else {
                    self.at(
                        StageModel::Write {
                            shown: false,
                            contents: encode_utf8(shown_text(output.stderr)),
                        },
                    )
                },
            },
            _ => self,
        }
    }
}

/// The start of an export.
pub open spec fn exporting(export: ExportModel, output_dir: Seq<u8>) -> ExporterModel {
    ExporterModel {
        output_dir,
        left: export.sessions,
        summary: summary_head(export),
        stage: StageModel::Create,
    }
}

/// Starts an export into a directory.
pub fn export_sessions(export: AuditExport, output_dir: Vec<u8>) -> (r: Exporter)
    ensures
        r.wf(),
        r.deep_view() == exporting(export.deep_view(), output_dir@),
{
    let mut summary = "# Runseal Audit Export\n\n".to_owned();
    if export.sessions.len() == 0 {
        summary.append("No new nono audit sessions were detected.\n");
    } else if export.used_latest_fallback {
        summary.append(
            "No before/after session diff was detected; exported latest visible session.\n\n",
        );
    }
    assert(export.sessions.deep_view().skip(0) == export.sessions.deep_view());
    Exporter { output_dir, sessions: export.sessions, written: 0, summary, stage: Stage::Create }
}

impl Exporter {
    /// Whether the export can have come this far.
    pub open spec fn wf(self) -> bool {
        self.written <= self.sessions@.len() && self.deep_view().wf()
    }

    /// What is to be done next, if anything is. Files are written under plain names only, so they
    /// stay in the output directory.
    pub fn action(&self) -> (r: Option<ExportAction>)
        requires
            self.wf(),
        ensures
            r.deep_view() == self.deep_view().action(),
            r matches Some(ExportAction::Write { name, .. }) ==> path::is_plain_name(
                encode_utf8(name@),
            ),
    {
        let ghost left = self.deep_view().left;
        match &self.stage {
            Stage::Create => Some(ExportAction::CreateDir),
            Stage::Show => {
                assert(left[0] == self.sessions@[self.written as int]@);
                Some(ExportAction::Show(self.sessions[self.written].clone()))
            },
            Stage::Write { shown, contents } => {
                assert(left[0] == self.sessions@[self.written as int]@);
                let name = session_file_name(self.sessions[self.written].as_str(), *shown);
                let kept = path::slice(contents, 0, contents.len());
                proof {
                    assert(kept@ == contents@);
                    lemma_session_file_is_plain(left[0], *shown);
                }
                Some(ExportAction::Write { name, contents: kept })
            },
            Stage::Summarize => {
                proof {
                    lemma_summary_file_is_plain();
                }
                Some(
                    ExportAction::Write {
                        name: SUMMARY_FILE.to_owned(),
                        contents: self.summary.as_str().as_bytes_vec(),
                    },
                )
            },
            Stage::Finished => None,
            Stage::Failed(_) => None,
        }
    }

    /// Turns to the next session or, after the last, to the summary.
    fn onward(self) -> (r: Self)
        requires
            self.written <= self.sessions@.len(),
        ensures
            r.wf(),
            r.deep_view() == self.deep_view().onward(),
    {
        let ghost left = self.deep_view().left;
        if self.written == self.sessions.len() {
            return Exporter { stage: Stage::Summarize, ..self };
        }
        assert(left[0] == self.sessions@[self.written as int]@);
        match validate_session_id(self.sessions[self.written].as_str()) {
            Ok(_) => Exporter { stage: Stage::Show, ..self },
            Err(e) => Exporter { stage: Stage::Failed(e), ..self },
        }
    }

    /// Learns how it went to make the directory or a file.
    pub fn made(self, reply: Result<(), Error>) -> (r: Self)
        requires
            self.wf(),
        ensures
            r.wf(),
            r.deep_view() == self.deep_view().after_made(outcome(reply)),
    {
        let ghost was = self.deep_view();
        match reply {
            Ok(_) => match &self.stage {
                Stage::Create => self.onward(),
                Stage::Write { shown, .. } => {
                    assert(was.left[0] == self.sessions@[self.written as int]@);
                    let name = session_file_name(self.sessions[self.written].as_str(), *shown);
                    let mut summary = self.summary;
                    let ghost before = summary@;
                    summary.append("- `");
                    summary.append(name.as_str());
                    summary.append("`\n");
                    assert(summary@ == before + summary_line(name@));
                    let total: usize = self.sessions.len();
                    assert(self.written < total);
                    let next = Exporter { written: self.written + 1, summary, ..self };
                    assert(next.deep_view().left == was.left.drop_first());
                    next.onward()
                },
                Stage::Summarize => Exporter { stage: Stage::Finished, ..self },
                Stage::Show => self,
                Stage::Finished => self,
                Stage::Failed(_) => self,
            },
            Err(e) => match &self.stage {
                Stage::Create => {
                    let dir = encoding::decode_lossy(self.output_dir.as_slice());
                    let attempt = Error::about(
                        "failed to create audit output dir '",
                        dir.as_str(),
                        "'",
                    );
                    Exporter { stage: Stage::Failed(e.context(attempt.message())), ..self }
                },
                Stage::Write { shown, .. } => {
                    assert(was.left[0] == self.sessions@[self.written as int]@);
                    let mut attempt = if *shown {
                        "failed to write audit JSON for session ".to_owned()
                    } else {
                        "failed to write audit error for session ".to_owned()
                    };
                    attempt.append(self.sessions[self.written].as_str());
                    Exporter { stage: Stage::Failed(e.context(attempt.as_str())), ..self }
                },
                Stage::Summarize => {
                    let dir = encoding::decode_lossy(self.output_dir.as_slice());
                    let attempt = Error::about(
                        "failed to write audit summary in '",
                        dir.as_str(),
                        "'",
                    );
                    Exporter { stage: Stage::Failed(e.context(attempt.message())), ..self }
                },
                Stage::Show => self,
                Stage::Finished => self,
                Stage::Failed(_) => self,
            },
        }
    }

    /// Learns how it went to show a session.
    pub fn shown(self, reply: Result<CommandOutput, Error>) -> (r: Self)
        requires
            self.wf(),
        ensures
            r.wf(),
            r.deep_view() == self.deep_view().after_shown(outcome(reply)),
    {
        let ghost was = self.deep_view();
        match &self.stage {
            Stage::Show => {
                assert(was.left[0] == self.sessions@[self.written as int]@);
                match reply {
                    Err(e) => {
                        let attempt = Error::about(
                            "failed to run nono audit show ",
                            self.sessions[self.written].as_str(),
                            " --json",
                        );
                        Exporter { stage: Stage::Failed(e.context(attempt.message())), ..self }
                    },
                    Ok(output) => if output.success {
                        let stage = Stage::Write { shown: true, contents: output.stdout };
                        Exporter { stage, ..self }
                    } else {
                        let reason = encoding::decode_lossy(output.stderr.as_slice());
                        let stage = Stage::Write {
                            shown: false,
                            contents: reason.as_str().as_bytes_vec(),
                        };
                        Exporter { stage, ..self }
                    },
                }
            },
            _ => self,
        }
    }

    /// How the export ended, if it has ended.
    pub fn finish(self) -> (r: Option<Result<(), Error>>)
        ensures
            match r {
                None => self.deep_view().action() is Some,
                Some(Ok(_)) => self.deep_view().stage == StageModel::Finished,
                Some(Err(e)) => self.deep_view().stage == StageModel::Failed(e@),
            },
    {
        match self.stage {
            Stage::Finished => Some(Ok(())),
            Stage::Failed(e) => Some(Err(e)),
            _ => None,
        }
    }
}

impl ExporterModel {
    /// How many replies an export waits for at most.
    pub open spec fn replies_left(self) -> nat {
        match self.stage {
            StageModel::Create => 2 * self.left.len() + 2,
            StageModel::Show => 2 * self.left.len() + 1,
            StageModel::Write { .. } => 2 * self.left.len(),
            StageModel::Summarize => 1,
            StageModel::Finished | StageModel::Failed(_) => 0,
        }
    }
}

/// An export comes to an end: each reply that it waits for leaves fewer to wait for.
pub proof fn lemma_export_ends(
    export: ExporterModel,
    made: Result<(), Seq<char>>,
    shown: Result<OutputModel, Seq<char>>,
)
    requires
        export.wf(),
        export.action() is Some,
    ensures
        export.action()->Some_0 is Show ==> 0 <= export.after_shown(shown).replies_left()
            < export.replies_left(),
        !(export.action()->Some_0 is Show) ==> 0 <= export.after_made(made).replies_left()
            < export.replies_left(),
{
}

/// Only sessions with a proper id are shown or written: any other ends the export with a refusal
/// that names it.
pub proof fn lemma_improper_session_ends_export(
    export: ExporterModel,
    made: Result<(), Seq<char>>,
    shown: Result<OutputModel, Seq<char>>,
)
    requires
        export.wf(),
    ensures
        export.after_made(made).wf(),
        export.after_shown(shown).wf(),
        export.stage == StageModel::Create && made is Ok && export.left.len() > 0 && !is_session_id(
            export.left[0],
        ) ==> export.after_made(made).stage == StageModel::Failed(session_refusal(export.left[0])),
{
}

/// The lines of a summary for sessions, each with what the sandbox left behind when it showed it.
pub open spec fn summary_lines(sessions: Seq<Seq<char>>, outputs: Seq<OutputModel>) -> Seq<char>
    decreases sessions.len(),
{
    if sessions.len() == 0 || outputs.len() == 0 {
        Seq::empty()
    } else {
        summary_line(session_file(sessions.first(), outputs.first().success)) + summary_lines(
            sessions.drop_first(),
            outputs.drop_first(),
        )
    }
}

/// An export to which the sandbox shows one session after another, and whose files can all be
/// written.
pub open spec fn carried_on(export: ExporterModel, outputs: Seq<OutputModel>) -> ExporterModel
    decreases outputs.len(),
{
    if outputs.len() == 0 {
        export
    } else {
        carried_on(
            export.after_shown(Ok(outputs.first())).after_made(Ok(())),
            outputs.drop_first(),
        )
    }
}

/// Where all goes well, every session gets its file, and the summary lists the files in order.
pub proof fn lemma_summary_lists_every_file(
    export: ExportModel,
    output_dir: Seq<u8>,
    outputs: Seq<OutputModel>,
)
    requires
        outputs.len() == export.sessions.len(),
        forall|i: int|
            0 <= i < export.sessions.len() ==> is_session_id(#[trigger] export.sessions[i]),
    ensures
        carried_on(exporting(export, output_dir).after_made(Ok(())), outputs) == (ExporterModel {
            output_dir,
            left: Seq::empty(),
            summary: summary_head(export) + summary_lines(export.sessions, outputs),
            stage: StageModel::Summarize,
        }),
{
    lemma_carried_on(exporting(export, output_dir), outputs);
}

proof fn lemma_carried_on(export: ExporterModel, outputs: Seq<OutputModel>)
    requires
        outputs.len() == export.left.len(),
        forall|i: int| 0 <= i < export.left.len() ==> is_session_id(#[trigger] export.left[i]),
    ensures
        carried_on(export.onward(), outputs) == (ExporterModel {
            left: Seq::empty(),
            summary: export.summary + summary_lines(export.left, outputs),
            stage: StageModel::Summarize,
            ..export
        }),
    decreases outputs.len(),
{
    if outputs.len() == 0 {
        assert(export.left == Seq::<Seq<char>>::empty());
        assert(export.summary + Seq::<char>::empty() == export.summary);
    } else {
        let shown = outputs.first().success;
        let line = summary_line(session_file(export.left[0], shown));
        let next = ExporterModel {
            left: export.left.drop_first(),
            summary: export.summary + line,
            ..export.onward().after_shown(Ok(outputs.first()))
        };
        assert forall|i: int| 0 <= i < next.left.len() implies is_session_id(
            #[trigger] next.left[i],
        ) by {
            assert(next.left[i] == export.left[i + 1]);
        }
        lemma_carried_on(next, outputs.drop_first());
        let rest = summary_lines(next.left, outputs.drop_first());
        assert(export.summary + (line + rest) == (export.summary + line) + rest);
        assert(export.onward().after_shown(Ok(outputs.first())).after_made(Ok(()))
            == next.onward());
    }
}

/// Just digits and hyphens can make an id, by their code points.
pub proof fn lemma_session_id_exactly(session: Seq<char>)
    ensures
        is_session_id(session) <==> session.len() > 0 && forall|i: int|
            0 <= i < session.len() ==> {
                let n = (#[trigger] session[i]) as u32;
                48 <= n <= 57 || n == 45
            },
{
    if is_session_id(session) {
        assert forall|i: int| 0 <= i < session.len() implies {
            let n = (#[trigger] session[i]) as u32;
            48 <= n <= 57 || n == 45
        } by {
            assert(is_session_char(session[i]));
            lemma_session_char(session[i]);
        }
    }
    if session.len() > 0 && forall|i: int|
        0 <= i < session.len() ==> {
            let n = (#[trigger] session[i]) as u32;
            48 <= n <= 57 || n == 45
        } {
        assert forall|i: int| 0 <= i < session.len() implies is_session_char(
            #[trigger] session[i],
        ) by {
            lemma_session_char(session[i]);
        }
    }
}

proof fn lemma_session_char(c: char)
    ensures
        is_session_char(c) <==> {
            let n = c as u32;
            48 <= n <= 57 || n == 45
        },
{
}

/// A line names its first word that can be an id.
pub proof fn lemma_session_in_exactly(word: Seq<char>, space: char, rest: Seq<char>)
    requires
        forall|i: int| 0 <= i < word.len() ==> !is_space(#[trigger] word[i]),
        is_space(space),
    ensures
        session_in(word + seq![space] + rest) == if is_session_id(word) {
            Some(word)
        } else {
            session_in(rest)
        },
        session_in(word) == if is_session_id(word) {
            Some(word)
        } else {
            None
        },
{
    let sep = Separator::Whitespace;
    assert(uncut(word, sep));
    lemma_pieces_exactly(word, space, rest, sep);
    let both = seq![word] + pieces(rest, sep);
    assert(both.first() == word);
    assert(both.drop_first() == pieces(rest, sep));
    let one = seq![word];
    assert(one.first() == word);
    assert(one.drop_first() == Seq::<Seq<char>>::empty());
    assert(first_session(Seq::<Seq<char>>::empty()) is None);
}

/// A listing names the sessions of its lines, one after another.
pub proof fn lemma_listing_exactly(line: Seq<char>, rest: Seq<char>)
    requires
        !line.contains('\n'),
    ensures
        listed_sessions(line + seq!['\n'] + rest) == listed_sessions(line) + listed_sessions(rest),
        listed_sessions(line) == match session_in(line) {
            Some(session) => seq![session],
            None => Seq::empty(),
        },
{
    let sep = Separator::Char('\n');
    assert(uncut(line, sep)) by {
        assert forall|i: int| 0 <= i < line.len() implies !sep.separates(#[trigger] line[i]) by {
            if line[i] == '\n' {
                assert(line.contains('\n'));
            }
        }
    }
    lemma_pieces_exactly(line, '\n', rest, sep);
    lemma_sessions_in_both(pieces(line, sep), pieces(rest, sep));
    let none = Seq::<Seq<char>>::empty();
    assert(seq![line].drop_last() == none);
    assert(sessions_in(none) == none);
    assert(sessions_in(seq![line]) == match session_in(line) {
        Some(session) => seq![session],
        None => none,
    });
}

proof fn lemma_sessions_in_both(a: Seq<Seq<char>>, b: Seq<Seq<char>>)
    ensures
        sessions_in(a + b) == sessions_in(a) + sessions_in(b),
    decreases b.len(),
{
    if b.len() == 0 {
        assert(a + b == a);
        assert(sessions_in(a) + sessions_in(b) == sessions_in(a));
    } else {
        let less = b.drop_last();
        lemma_sessions_in_both(a, less);
        assert((a + b).drop_last() == a + less);
        assert((a + b).last() == b.last());
        assert(sessions_in(a + b) == sessions_in(a) + sessions_in(b));
    }
}

/// The ids of a listing in JSON: all that are not blank, in their order, each of which has to be a
/// proper id; one that is not refuses all.
pub proof fn lemma_ids_exactly(entries: Seq<Seq<char>>)
    ensures
        ids_of(entries) is Ok <==> forall|i: int|
            0 <= i < entries.len() ==> trimmed(#[trigger] entries[i]).len() == 0 || is_session_id(
                entries[i],
            ),
        ids_of(entries) matches Ok(ids) ==> ids == entries.filter(
            |entry: Seq<char>| trimmed(entry).len() > 0,
        ),
        ids_of(entries) matches Err(told) ==> exists|i: int|
            0 <= i < entries.len() && !is_session_id(#[trigger] entries[i]) && told
                == "nono audit session id '"@ + entries[i] + "' is invalid"@,
    decreases entries.len(),
{
    reveal(Seq::filter);
    let kept = |entry: Seq<char>| trimmed(entry).len() > 0;
    if entries.len() > 0 {
        let rest = entries.drop_last();
        let last = entries.len() - 1;
        lemma_ids_exactly(rest);
        assert(entries[last] == entries.last());
        match ids_of(rest) {
            Err(told) => {
                let i = choose|i: int|
                    0 <= i < rest.len() && !(trimmed(#[trigger] rest[i]).len() == 0
                        || is_session_id(rest[i]));
                assert(entries[i] == rest[i]);
                let k = choose|k: int|
                    0 <= k < rest.len() && !is_session_id(#[trigger] rest[k]) && told
                        == "nono audit session id '"@ + rest[k] + "' is invalid"@;
                assert(entries[k] == rest[k]);
            },
            Ok(_) => {
                assert forall|i: int| 0 <= i < last implies trimmed(
                    #[trigger] entries[i],
                ).len() == 0 || is_session_id(entries[i]) by {
                    assert(entries[i] == rest[i]);
                }
            },
        }
    }
}

/// The sessions of a listing in JSON: none where it is blank, those of its entries where it can be
/// read, and a failure otherwise.
pub proof fn lemma_json_sessions_exactly(
    output: Seq<char>,
    entries: Result<Seq<Seq<char>>, Seq<char>>,
)
    ensures
        trimmed(output).len() == 0 ==> json_sessions(output, entries) == Ok::<
            Seq<Seq<char>>,
            Seq<char>,
        >(Seq::empty()),
        trimmed(output).len() > 0 ==> match entries {
            Ok(ids) => json_sessions(output, entries) == ids_of(ids),
            Err(e) => json_sessions(output, entries) == Err::<Seq<Seq<char>>, Seq<char>>(
                "failed to parse nono audit list --json output"@ + ": "@ + e,
            ),
        },
{
}

/// Sessions are listed in JSON where that succeeds, and otherwise plainly; where the plain listing
/// does not succeed either, there are none. A listing that cannot be run at all is a failure.
pub proof fn lemma_listings_exactly(reply: Result<OutputModel, Seq<char>>)
    ensures
        reply matches Ok(output) ==> {
            &&& output.success ==> after_json_listing(reply) == ListingModel::Entries(
                shown_text(output.stdout),
            )
            &&& !output.success ==> after_json_listing(reply) == ListingModel::Plain
            &&& output.success ==> plain_sessions(reply) == Ok::<Seq<Seq<char>>, Seq<char>>(
                listed_sessions(
                    shown_text(output.stdout) + seq!['\n'] + shown_text(output.stderr),
                ),
            )
            &&& !output.success ==> plain_sessions(reply) == Ok::<Seq<Seq<char>>, Seq<char>>(
                Seq::empty(),
            )
        },
        reply matches Err(e) ==> {
            &&& after_json_listing(reply) == ListingModel::Failed(
                "failed to run nono audit list"@ + ": "@ + e,
            )
            &&& plain_sessions(reply) == Err::<Seq<Seq<char>>, Seq<char>>(
                "failed to run nono audit list fallback"@ + ": "@ + e,
            )
        },
{
    reveal_strlit("\n");
    assert("\n"@ == seq!['\n']);
}

/// What is exported after a run: the sessions that were not there before, in the order in which they
/// are listed; where there are none, the first that is listed, which is told as a fallback.
pub proof fn lemma_export_exactly(before: Seq<Seq<char>>, after: Seq<Seq<char>>)
    ensures
        ({
            let new = after.filter(|session: Seq<char>| !before.contains(session));
            let export = export_of(before, after);
            &&& export.used_latest_fallback == (new.len() == 0)
            &&& new.len() > 0 ==> export.sessions == new
            &&& new.len() == 0 && after.len() > 0 ==> export.sessions == seq![after[0]]
            &&& after.len() == 0 ==> export.sessions.len() == 0
        }),
{
    lemma_fresh_exactly(before, after);
    if after.len() == 0 {
        reveal(Seq::filter);
    }
}

proof fn lemma_fresh_exactly(before: Seq<Seq<char>>, after: Seq<Seq<char>>)
    ensures
        fresh(before, after) == after.filter(|session: Seq<char>| !before.contains(session)),
    decreases after.len(),
{
    reveal(Seq::filter);
    if after.len() > 0 {
        lemma_fresh_exactly(before, after.drop_last());
    }
}

/// A listing that could not be had counts as an empty one, and any other as it is.
pub proof fn lemma_listing_or_none(listing: Result<Seq<Seq<char>>, Seq<char>>)
    ensures
        listing matches Ok(sessions) ==> sessions_or_none(listing) == sessions,
        listing is Err ==> sessions_or_none(listing).len() == 0,
{
}

/// The name of the file that a session gets: for its evidence, or for why it could not be shown.
pub proof fn lemma_session_file_exactly(session: Seq<char>)
    ensures
        session_file(session, true) == session + ".json"@,
        session_file(session, false) == session + ".error.txt"@,
{
}

/// An export first makes its directory. Then it asks for each session in turn, and writes what the
/// sandbox printed of it to the file of that session, or what it complained of to another. At last
/// it writes the summary, and that is all.
pub proof fn lemma_export_steps_exactly(export: ExporterModel, output: OutputModel)
    requires
        export.wf(),
    ensures
        export.stage == StageModel::Create ==> export.action() == Some(ActionModel::CreateDir),
        export.stage == StageModel::Show ==> {
            &&& export.action() == Some(ActionModel::Show(export.left[0]))
            &&& output.success ==> export.after_shown(Ok(output)).action() == Some(
                ActionModel::Write { name: export.left[0] + ".json"@, contents: output.stdout },
            )
            &&& !output.success ==> export.after_shown(Ok(output)).action() == Some(
                ActionModel::Write {
                    name: export.left[0] + ".error.txt"@,
                    contents: encode_utf8(shown_text(output.stderr)),
                },
            )
            &&& export.after_shown(Ok(output)).left == export.left
            &&& export.after_shown(Ok(output)).summary == export.summary
        },
        export.stage matches StageModel::Write { shown, contents } ==> {
            let next = export.after_made(Ok(()));
            &&& next.left == export.left.drop_first()
            &&& next.summary == export.summary + ("- `"@ + (export.left[0] + (if shown {
                ".json"@
            } else {
                ".error.txt"@
            })) + "`\n"@)
        },
        export.stage == StageModel::Create || (export.stage matches StageModel::Write { .. }) ==> {
            let next = export.after_made(Ok(()));
            &&& next.left.len() == 0 ==> next.action() == Some(
                ActionModel::Write { name: "summary.md"@, contents: encode_utf8(next.summary) },
            )
            &&& next.left.len() > 0 && is_session_id(next.left[0]) ==> next.action() == Some(
                ActionModel::Show(next.left[0]),
            )
            &&& next.left.len() > 0 && !is_session_id(next.left[0]) ==> next.action() is None
        },
        export.stage == StageModel::Create ==> {
            &&& export.after_made(Ok(())).left == export.left
            &&& export.after_made(Ok(())).summary == export.summary
        },
        export.stage == StageModel::Summarize ==> export.after_made(Ok(())).stage
            == StageModel::Finished,
{
}

/// An export starts with all its sessions, and with a summary that says whether there are none, or
/// only one that is not new.
pub proof fn lemma_export_start_exactly(export: ExportModel, output_dir: Seq<u8>)
    ensures
        ({
            let start = exporting(export, output_dir);
            &&& start.stage == StageModel::Create
            &&& start.output_dir == output_dir
            &&& start.left == export.sessions
            &&& export.sessions.len() == 0 ==> start.summary == "# Runseal Audit Export\n\n"@
                + "No new nono audit sessions were detected.\n"@
            &&& export.sessions.len() > 0 && export.used_latest_fallback ==> start.summary
                == "# Runseal Audit Export\n\n"@
                + "No before/after session diff was detected; exported latest visible session.\n\n"@
            &&& export.sessions.len() > 0 && !export.used_latest_fallback ==> start.summary
                == "# Runseal Audit Export\n\n"@
        }),
{
}

/// Whatever fails in an export ends it, with what was attempted and why it failed.
pub proof fn lemma_export_failures_exactly(export: ExporterModel, e: Seq<char>)
    requires
        export.wf(),
    ensures
        export.stage == StageModel::Create ==> export.after_made(Err(e)).stage
            == StageModel::Failed(
            "failed to create audit output dir '"@ + shown_text(export.output_dir) + "'"@ + ": "@
                + e,
        ),
        export.stage == StageModel::Show ==> export.after_shown(Err(e)).stage == StageModel::Failed(
            "failed to run nono audit show "@ + export.left[0] + " --json"@ + ": "@ + e,
        ),
        export.stage matches StageModel::Write { shown, contents } ==> export.after_made(
            Err(e),
        ).stage == StageModel::Failed(
            (if shown {
                "failed to write audit JSON for session "@
            } else {
                "failed to write audit error for session "@
            }) + export.left[0] + ": "@ + e,
        ),
        export.stage == StageModel::Summarize ==> export.after_made(Err(e)).stage
            == StageModel::Failed(
            "failed to write audit summary in '"@ + shown_text(export.output_dir) + "'"@ + ": "@
                + e,
        ),
{
}

/// A model holds what the value holds, each part under its own name.
pub proof fn lemma_models_are_faithful(
    output: CommandOutput,
    export: AuditExport,
    snapshot: AuditSnapshot,
    exporter: Exporter,
    action: ExportAction,
)
    ensures
        output.deep_view().success == output.success,
        output.deep_view().stdout == output.stdout@,
        output.deep_view().stderr == output.stderr@,
        export.deep_view().sessions == export.sessions.deep_view(),
        export.deep_view().used_latest_fallback == export.used_latest_fallback,
        snapshot.deep_view() == snapshot.sessions.deep_view(),
        exporter.deep_view().output_dir == exporter.output_dir@,
        exporter.deep_view().summary == exporter.summary@,
        exporter.wf() ==> exporter.deep_view().left.len() == exporter.sessions@.len()
            - exporter.written,
        action matches ExportAction::Show(session) ==> action.deep_view() == ActionModel::Show(
            session@,
        ),
        action matches ExportAction::Write { name, contents } ==> action.deep_view() == (
        ActionModel::Write { name: name@, contents: contents@ }),
        action is CreateDir ==> action.deep_view() is CreateDir,
{
}

} // verus!
