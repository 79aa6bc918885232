//! The state behind the local web page: one fit at a time, its log, and a server
//! on its result. The page drives the command line; what is here decides.

use vstd::prelude::*;
use vstd::slice::*;
use vstd::utf8::encode_utf8;

use crate::gguf::{lossy_string, text_of};
use crate::json::{item_fields, json_in, read_json, Atom, AtomSpec, Doc, DocSpec, Item, ItemSpec};
use crate::runtime::{cache_args, string_texts};
use crate::text::{
    begins, chars_of, decimal, find_from_is_first, last_position, number_of, parse_number, position,
    push_decimal, push_text, rfind_from_is_last, same, same_str, split_first, split_last, starts,
    string_of, to_decimal, trim, trim_spaces,
};

verus! {

/// How far a fit is.
#[derive(Debug, Clone, Copy, PartialEq, Eq, Structural)]
pub enum Phase {
    Idle,
    Running,
    Done,
    Failed,
}

impl Phase {
    /// The name under which the page knows the phase.
    pub fn name(self) -> (r: &'static str)
        ensures
            r@ == (match self {
                Phase::Idle => "idle"@,
                Phase::Running => "running"@,
                Phase::Done => "done"@,
                Phase::Failed => "failed"@,
            }),
    {
        match self {
            Phase::Idle => "idle",
            Phase::Running => "running",
            Phase::Done => "done",
            Phase::Failed => "failed",
        }
    }
}

/// What the page asks to be fitted.
#[derive(Debug, PartialEq, Eq)]
pub struct FitRequest {
    pub model: String,
    pub ctx: u64,
    pub kv: String,
    pub budget: String,
    pub calibrate: bool,
    pub preview: bool,
}

/// What a request is.
pub ghost struct FitRequestSpec {
    pub model: Seq<char>,
    pub ctx: u64,
    pub kv: Seq<char>,
    pub budget: Seq<char>,
    pub calibrate: bool,
    pub preview: bool,
}

impl View for FitRequest {
    type V = FitRequestSpec;

    open spec fn view(&self) -> FitRequestSpec {
        FitRequestSpec {
            model: self.model@,
            ctx: self.ctx,
            kv: self.kv@,
            budget: self.budget@,
            calibrate: self.calibrate,
            preview: self.preview,
        }
    }
}

/// Why a request is turned down.
#[derive(Debug, Clone, Copy, PartialEq, Eq, Structural)]
pub enum UiError {
    /// The body of the request is no JSON.
    BadBody,
    /// The request names no model.
    NoModel,
    /// A fit is running.
    AlreadyRunning,
    /// There is no result to serve.
    NothingFitted,
}

impl UiError {
    /// The error in words.
    pub fn text(self) -> (r: &'static str)
        ensures
            r@ == (match self {
                UiError::BadBody => "bad request body"@,
                UiError::NoModel => "pick a model first"@,
                UiError::AlreadyRunning => "a fit is already running"@,
                UiError::NothingFitted => "nothing fitted yet"@,
            }),
    {
        match self {
            UiError::BadBody => "bad request body",
            UiError::NoModel => "pick a model first",
            UiError::AlreadyRunning => "a fit is already running",
            UiError::NothingFitted => "nothing fitted yet",
        }
    }
}

/// The plain value of the first field from `i` on that is named `key`.
pub open spec fn plain_field(v: Seq<(Seq<char>, ItemSpec)>, key: Seq<char>, i: int) -> Option<
    AtomSpec,
>
    decreases v.len() - i,
{
    if i >= v.len() {
        None
    } else if v[i].0 == key {
        match v[i].1 {
            ItemSpec::Plain(a) => Some(a),
            ItemSpec::Record(_) => None,
        }
    } else {
        plain_field(v, key, i + 1)
    }
}

/// The plain value of a field of a document.
pub open spec fn doc_field(d: DocSpec, key: Seq<char>) -> Option<AtomSpec> {
    match d {
        DocSpec::Table(v) => plain_field(v, key, 0),
        _ => None,
    }
}

/// The text of a field, or another.
pub open spec fn text_or(a: Option<AtomSpec>, other: Seq<char>) -> Seq<char> {
    match a {
        Some(AtomSpec::Text(s)) => s,
        _ => other,
    }
}

/// The number of a field, or another.
pub open spec fn number_or(a: Option<AtomSpec>, other: u64) -> u64 {
    match a {
        Some(AtomSpec::Number(Some(n))) => n,
        _ => other,
    }
}

/// A field that says yes.
pub open spec fn yes(a: Option<AtomSpec>) -> bool {
    a == Some(AtomSpec::Bool(true))
}

/// The request in a document: a model, and what else is given.
pub open spec fn request_in(d: DocSpec) -> Result<FitRequestSpec, UiError> {
    let model = trim_spaces(text_or(doc_field(d, "model"@), ""@));
    if model.len() == 0 {
        Err(UiError::NoModel)
    } else {
        Ok(
            FitRequestSpec {
                model,
                ctx: number_or(doc_field(d, "ctx"@), 8192),
                kv: text_or(doc_field(d, "kv"@), "f16"@),
                budget: trim_spaces(text_or(doc_field(d, "budget"@), ""@)),
                calibrate: yes(doc_field(d, "calibrate"@)),
                preview: yes(doc_field(d, "preview"@)),
            },
        )
    }
}

fn find_plain<'a>(d: &'a Doc, key: &str) -> (r: Option<&'a Atom>)
    ensures
        match (r, doc_field(d@, key@)) {
            (Some(a), Some(s)) => a@ == s,
            (None, None) => true,
            _ => false,
        },
{
    match d {
        Doc::Table(v) => {
            let ghost all = item_fields(v@);
            let k = chars_of(key);
            for i in 0..v.len()
                invariant
                    d@ == DocSpec::Table(all),
                    all == item_fields(v@),
                    k@ == key@,
                    plain_field(all, key@, 0) == plain_field(all, key@, i as int),
            {
                assert(all[i as int] == (v@[i as int].0@, v@[i as int].1@));
                let own = chars_of(v[i].0.as_str());
                if same(own.as_slice(), k.as_slice()) {
                    return match &v[i].1 {
                        Item::Plain(a) => Some(a),
                        Item::Record(_) => None,
                    };
                }
            }
            None
        },
        _ => None,
    }
}

fn text_field(d: &Doc, key: &str, other: &str) -> (r: String)
    ensures
        r@ == text_or(doc_field(d@, key@), other@),
{
    match find_plain(d, key) {
        Some(Atom::Text(s)) => s.clone(),
        _ => other.to_owned(),
    }
}

fn flag_field(d: &Doc, key: &str) -> (r: bool)
    ensures
        r == yes(doc_field(d@, key@)),
{
    match find_plain(d, key) {
        Some(Atom::Bool(b)) => *b,
        _ => false,
    }
}

fn trimmed_string(s: &str) -> (r: String)
    ensures
        r@ == trim_spaces(s@),
{
    let all = chars_of(s);
    string_of(trim(all.as_slice()))
}

/// Reads the request from a document.
pub fn request_of(d: &Doc) -> (r: Result<FitRequest, UiError>)
    ensures
        match (r, request_in(d@)) {
            (Ok(q), Ok(s)) => q@ == s,
            (Err(e), Err(f)) => e == f,
            _ => false,
        },
{
    let given = text_field(d, "model", "");
    let model = trimmed_string(given.as_str());
    let letters = chars_of(model.as_str());
    if letters.len() == 0 {
        return Err(UiError::NoModel);
    }
    let ctx: u64 = match find_plain(d, "ctx") {
        Some(Atom::Number(Some(n))) => *n,
        _ => 8192,
    };
    let kv = text_field(d, "kv", "f16");
    let limit = text_field(d, "budget", "");
    let budget = trimmed_string(limit.as_str());
    let calibrate = flag_field(d, "calibrate");
    let preview = flag_field(d, "preview");
    Ok(FitRequest { model, ctx, kv, budget, calibrate, preview })
}

/// The request in the body of a message.
pub open spec fn body_request(body: Seq<char>) -> Result<FitRequestSpec, UiError> {
    match json_in(encode_utf8(body)) {
        None => Err(UiError::BadBody),
        Some(d) => request_in(d),
    }
}

/// Reads the request from the body of a message.
pub fn parse_request(body: &str) -> (r: Result<FitRequest, UiError>)
    ensures
        match (r, body_request(body@)) {
            (Ok(q), Ok(s)) => q@ == s,
            (Err(e), Err(f)) => e == f,
            _ => false,
        },
{
    match read_json(body.as_bytes()) {
        Err(_) => Err(UiError::BadBody),
        Ok(d) => request_of(&d),
    }
}

/// The arguments of the command that serves a request.
pub open spec fn fit_args_of(q: FitRequestSpec) -> Seq<Seq<char>> {
    seq!["fit"@, q.model, "--ctx"@, decimal(q.ctx as nat), "--kv"@, q.kv] + (if q.budget.len() > 0 {
        seq!["--budget"@, q.budget]
    } else {
        seq![]
    }) + (if q.calibrate && !q.preview {
        seq!["--calibrate"@]
    } else {
        seq![]
    }) + (if q.preview {
        seq!["--dry-run"@]
    } else {
        seq![]
    })
}

/// The arguments of the command that serves a request.
pub fn fit_args(q: &FitRequest) -> (r: Vec<String>)
    ensures
        string_texts(r@) == fit_args_of(q@),
{
    let mut v: Vec<String> = Vec::new();
    v.push("fit".to_owned());
    v.push(q.model.clone());
    v.push("--ctx".to_owned());
    v.push(to_decimal(q.ctx));
    v.push("--kv".to_owned());
    v.push(q.kv.clone());
    let letters = chars_of(q.budget.as_str());
    if letters.len() > 0 {
        v.push("--budget".to_owned());
        v.push(q.budget.clone());
    }
    if q.calibrate && !q.preview {
        v.push("--calibrate".to_owned());
    }
    if q.preview {
        v.push("--dry-run".to_owned());
    }
    assert(string_texts(v@) =~= fit_args_of(q@));
    v
}

/// The first line of a fit's log: the command.
pub open spec fn first_line_of(q: FitRequestSpec) -> Seq<char> {
    "$ shoehorn fit "@ + q.model + " --ctx "@ + decimal(q.ctx as nat) + " --kv "@ + q.kv + (
    if q.preview {
        " --dry-run"@
    } else {
        ""@
    })
}

fn first_line(q: &FitRequest) -> (r: String)
    ensures
        r@ == first_line_of(q@),
{
    let mut s = String::new();
    push_text(&mut s, "$ shoehorn fit ");
    push_text(&mut s, q.model.as_str());
    push_text(&mut s, " --ctx ");
    push_decimal(&mut s, q.ctx);
    push_text(&mut s, " --kv ");
    push_text(&mut s, q.kv.as_str());
    if q.preview {
        push_text(&mut s, " --dry-run");
    } else {
        push_text(&mut s, "");
    }
    assert(s@ =~= first_line_of(q@));
    s
}

/// A character of a progress bar.
pub open spec fn bar_char(c: char) -> bool {
    c == '#' || c == ' ' || c == '.' || c == '%' || ('0' <= c <= '9')
}

/// A line of a progress bar: hashes, spaces, and a percentage.
pub open spec fn progress_line(s: Seq<char>) -> bool {
    s.contains('%') && (forall|i: int| 0 <= i < s.len() ==> bar_char(#[trigger] s[i]))
}

/// Whether a line is one of a progress bar.
pub fn is_progress(line: &str) -> (r: bool)
    ensures
        r == progress_line(line@),
{
    let s = chars_of(line);
    let mut seen: bool = false;
    for i in 0..s.len()
        invariant
            s@ == line@,
            seen == (exists|k: int| 0 <= k < i && s@[k] == '%'),
            forall|k: int| 0 <= k < i ==> bar_char(#[trigger] s@[k]),
    {
        let c = s[i];
        if !(c == '#' || c == ' ' || c == '.' || c == '%' || ('0' <= c && c <= '9')) {
            assert(!bar_char(s@[i as int]));
            return false;
        }
        if c == '%' {
            assert(s@[i as int] == '%');
            seen = true;
        }
    }
    seen
}

/// The path in a line that reports the written file, `wrote <path> (<size>)`.
pub open spec fn written_path(line: Seq<char>) -> Option<Seq<char>> {
    if begins(line, "wrote "@) {
        match split_last(line.subrange("wrote "@.len() as int, line.len() as int), " ("@) {
            Some((path, _)) => Some(path),
            None => None,
        }
    } else {
        None
    }
}

fn find_written(line: &str) -> (r: Option<String>)
    ensures
        match (r, written_path(line@)) {
            (Some(p), Some(q)) => p@ == q,
            (None, None) => true,
            _ => false,
        },
{
    let all = chars_of(line);
    let mark = chars_of("wrote ");
    if !starts(all.as_slice(), mark.as_slice()) {
        return None;
    }
    let rest = slice_subrange(all.as_slice(), mark.len(), all.len());
    let open = chars_of(" (");
    proof {
        rfind_from_is_last(rest@, " ("@, rest@.len() - " ("@.len());
    }
    match last_position(rest, open.as_slice()) {
        Some(i) => Some(string_of(slice_subrange(rest, 0, i))),
        None => None,
    }
}

/// What the page knows.
pub struct State {
    pub phase: Phase,
    pub log: Vec<String>,
    /// The path of the written file.
    pub output: Option<String>,
    /// There is a fit whose end is awaited.
    pub fitting: bool,
    pub cancelled: bool,
    /// The fit writes nothing.
    pub preview: bool,
    pub ctx: u64,
    pub kv: String,
}

/// What the state is.
pub ghost struct StateSpec {
    pub phase: Phase,
    pub log: Seq<Seq<char>>,
    pub output: Option<Seq<char>>,
    pub fitting: bool,
    pub cancelled: bool,
    pub preview: bool,
    pub ctx: u64,
    pub kv: Seq<char>,
}

impl View for State {
    type V = StateSpec;

    open spec fn view(&self) -> StateSpec {
        StateSpec {
            phase: self.phase,
            log: string_texts(self.log@),
            output: match self.output {
                Some(s) => Some(s@),
                None => None,
            },
            fitting: self.fitting,
            cancelled: self.cancelled,
            preview: self.preview,
            ctx: self.ctx,
            kv: self.kv@,
        }
    }
}

/// How the process of a fit was found.
#[derive(Debug, Clone, Copy, PartialEq, Eq, Structural)]
pub enum Poll {
    /// It still runs.
    Running,
    /// It has ended, with success or without.
    Ended { success: bool },
    /// It cannot be asked.
    Lost,
}

impl StateSpec {
    /// The state after a line of the fit's output.
    pub open spec fn after_line(self, line: Seq<char>) -> StateSpec {
        let output = match written_path(line) {
            Some(p) => Some(p),
            None => self.output,
        };
        let log = if progress_line(line) && self.log.len() > 0 && progress_line(self.log.last()) {
            self.log.drop_last().push(line)
        } else {
            self.log.push(line)
        };
        StateSpec { output, log, ..self }
    }

    /// The state after a fit was started.
    pub open spec fn after_start(self, q: FitRequestSpec) -> StateSpec {
        StateSpec {
            phase: Phase::Running,
            log: seq![first_line_of(q)],
            output: None,
            fitting: true,
            cancelled: false,
            preview: q.preview,
            ctx: q.ctx,
            kv: q.kv,
        }
    }

    /// The state after the process of the fit was looked at.
    pub open spec fn after_poll(self, p: Poll) -> StateSpec {
        if !self.fitting {
            self
        } else {
            match p {
                Poll::Running => self,
                Poll::Lost => StateSpec { phase: Phase::Failed, fitting: false, ..self },
                Poll::Ended { success } => if self.cancelled {
                    StateSpec {
                        phase: Phase::Idle,
                        log: self.log.push("stopped"@),
                        fitting: false,
                        ..self
                    }
                } else if success && (self.preview || self.output is Some) {
                    StateSpec { phase: Phase::Done, fitting: false, ..self }
                } else {
                    StateSpec { phase: Phase::Failed, fitting: false, ..self }
                },
            }
        }
    }

    /// A fit is awaited exactly while the phase says so.
    pub open spec fn wf(self) -> bool {
        self.fitting == (self.phase == Phase::Running)
    }
}

impl State {
    /// The state before any fit.
    pub fn new() -> (r: State)
        ensures
            r@ == (StateSpec {
                phase: Phase::Idle,
                log: seq![],
                output: None,
                fitting: false,
                cancelled: false,
                preview: false,
                ctx: 0,
                kv: ""@,
            }),
    {
        let r = State {
            phase: Phase::Idle,
            log: Vec::new(),
            output: None,
            fitting: false,
            cancelled: false,
            preview: false,
            ctx: 0,
            kv: "".to_owned(),
        };
        assert(r@.log =~= seq![]);
        r
    }

    /// Whether a fit may start.
    pub fn may_start(&self) -> (r: Result<(), UiError>)
        ensures
            self.phase == Phase::Running ==> r == Err::<(), UiError>(UiError::AlreadyRunning),
            self.phase != Phase::Running ==> r is Ok,
    {
        match self.phase {
            Phase::Running => Err(UiError::AlreadyRunning),
            _ => Ok(()),
        }
    }

    /// Notes that a fit was started.
    pub fn start(&mut self, q: &FitRequest)
        ensures
            final(self)@ == old(self)@.after_start(q@),
    {
        let line = first_line(q);
        let mut log: Vec<String> = Vec::new();
        log.push(line);
        self.phase = Phase::Running;
        self.log = log;
        self.output = None;
        self.fitting = true;
        self.cancelled = false;
        self.preview = q.preview;
        self.ctx = q.ctx;
        self.kv = q.kv.clone();
        assert(self@.log =~= seq![first_line_of(q@)]);
    }

    /// Takes a line of the fit's output: the path of the written file is kept, and
    /// a progress bar stays one line.
    pub fn push_line(&mut self, text: String)
        ensures
            final(self)@ == old(self)@.after_line(text@),
    {
        let ghost before = self@;
        let found = find_written(text.as_str());
        if found.is_some() {
            self.output = found;
        }
        let ghost mid = self@;
        let n: usize = self.log.len();
        let collapse: bool = is_progress(text.as_str()) && n > 0 && is_progress(
            self.log[n - 1].as_str(),
        );
        let ghost logged = self.log@;
        if collapse {
            self.log.set(n - 1, text);
            assert(string_texts(self.log@) =~= string_texts(logged).drop_last().push(text@));
        } else {
            self.log.push(text);
            assert(string_texts(self.log@) =~= string_texts(logged).push(text@));
        }
    }

    /// Asks for the fit to stop.
    pub fn cancel(&mut self)
        ensures
            final(self)@ == (StateSpec { cancelled: true, ..old(self)@ }),
    {
        self.cancelled = true;
    }

    /// Whether the process of the fit is to be killed.
    pub fn must_kill(&self) -> (r: bool)
        ensures
            r == (self.fitting && self.cancelled),
    {
        self.fitting && self.cancelled
    }

    /// Takes how the process of the fit was found. Returns whether its end is still
    /// awaited.
    pub fn poll(&mut self, p: Poll) -> (r: bool)
        ensures
            final(self)@ == old(self)@.after_poll(p),
            r == final(self)@.fitting,
    {
        if !self.fitting {
            return false;
        }
        match p {
            Poll::Running => true,
            Poll::Lost => {
                self.fitting = false;
                self.phase = Phase::Failed;
                false
            },
            Poll::Ended { success } => {
                self.fitting = false;
                if self.cancelled {
                    self.phase = Phase::Idle;
                    let ghost logged = self.log@;
                    self.log.push("stopped".to_owned());
                    assert(string_texts(self.log@) =~= string_texts(logged).push("stopped"@));
                } else if success && (self.preview || self.output.is_some()) {
                    self.phase = Phase::Done;
                } else {
                    self.phase = Phase::Failed;
                }
                false
            },
        }
    }

    /// The arguments of the server on the result, on a port.
    pub fn server_args(&self, port: u64) -> (r: Result<Vec<String>, UiError>)
        ensures
            match self@.output {
                None => r matches Err(e) && e == UiError::NothingFitted,
                Some(path) => r matches Ok(v) && string_texts(v@) == server_args_of(
                    path,
                    self@.ctx,
                    port,
                    self@.kv,
                ),
            },
    {
        match &self.output {
            None => Err(UiError::NothingFitted),
            Some(path) => {
                let mut v: Vec<String> = Vec::new();
                v.push("-m".to_owned());
                v.push(path.clone());
                v.push("-c".to_owned());
                v.push(to_decimal(self.ctx));
                v.push("-ngl".to_owned());
                v.push("99".to_owned());
                v.push("--port".to_owned());
                v.push(to_decimal(port));
                if !same_str(self.kv.as_str(), "f16") {
                    v.push("--cache-type-k".to_owned());
                    v.push(self.kv.clone());
                    v.push("--cache-type-v".to_owned());
                    v.push(self.kv.clone());
                }
                assert(string_texts(v@) =~= server_args_of(path@, self@.ctx, port, self@.kv));
                Ok(v)
            },
        }
    }
}

/// The arguments of the server on a result.
pub open spec fn server_args_of(path: Seq<char>, ctx: u64, port: u64, kv: Seq<char>) -> Seq<
    Seq<char>,
> {
    seq![
        "-m"@,
        path,
        "-c"@,
        decimal(ctx as nat),
        "-ngl"@,
        "99"@,
        "--port"@,
        decimal(port as nat),
    ] + cache_args(kv)
}

/// Every step keeps a fit awaited exactly while the phase says so, a fit that
/// ends leaves its phase, and only a written or a preview fit is done.
pub proof fn fits_end(s: StateSpec, q: FitRequestSpec, line: Seq<char>, p: Poll)
    requires
        s.wf(),
    ensures
        s.after_start(q).wf(),
        s.after_line(line).wf(),
        s.after_poll(p).wf(),
        p != Poll::Running ==> !s.after_poll(p).fitting,
        s.phase == Phase::Running && s.after_poll(p).phase == Phase::Done ==> s.preview
            || s.output is Some,
{
}

/// A progress bar takes one line of the log, however often it changes.
pub proof fn progress_stays_one_line(s: StateSpec, a: Seq<char>, b: Seq<char>)
    requires
        progress_line(a),
        progress_line(b),
    ensures
        s.after_line(a).after_line(b).log == s.after_line(a).log.drop_last().push(b),
        s.after_line(a).after_line(b).log.len() == s.after_line(a).log.len(),
{
}

/// A byte that ends a line: a line feed or a carriage return.
pub open spec fn ends_line(b: u8) -> bool {
    b == 10 || b == 13
}

/// The lines that bytes complete, where `line` has been begun, and the line that
/// they leave begun. Empty lines are dropped.
pub open spec fn split_bytes(line: Seq<u8>, bytes: Seq<u8>) -> (Seq<Seq<u8>>, Seq<u8>)
    decreases bytes.len(),
{
    if bytes.len() == 0 {
        (seq![], line)
    } else {
        let (done, open) = split_bytes(line, bytes.drop_last());
        let b = bytes.last();
        if ends_line(b) {
            if open.len() > 0 {
                (done.push(open), seq![])
            } else {
                (done, open)
            }
        } else {
            (done, open.push(b))
        }
    }
}

/// The texts of lines.
pub open spec fn line_texts(v: Seq<Seq<u8>>) -> Seq<Seq<char>> {
    Seq::new(v.len(), |i: int| text_of(v[i]))
}

/// Collects a stream into lines, split on line feeds and carriage returns.
pub struct LineSplitter {
    pub line: Vec<u8>,
}

impl LineSplitter {
    /// A splitter at the start of a stream.
    pub fn new() -> (r: LineSplitter)
        ensures
            r.line@.len() == 0,
    {
        LineSplitter { line: Vec::new() }
    }

    /// Takes bytes of the stream. Returns the lines that they complete.
    pub fn feed(&mut self, bytes: &[u8]) -> (r: Vec<String>)
        ensures
            string_texts(r@) == line_texts(split_bytes(old(self).line@, bytes@).0),
            final(self).line@ == split_bytes(old(self).line@, bytes@).1,
    {
        let ghost start = self.line@;
        let mut out: Vec<String> = Vec::new();
        assert(bytes@.subrange(0, 0) =~= seq![]);
        assert(string_texts(out@) =~= line_texts(seq![]));
        for i in 0..bytes.len()
            invariant
                start == old(self).line@,
                string_texts(out@) == line_texts(
                    split_bytes(start, bytes@.subrange(0, i as int)).0,
                ),
                self.line@ == split_bytes(start, bytes@.subrange(0, i as int)).1,
        {
            let ghost part = bytes@.subrange(0, i + 1);
            assert(part.drop_last() =~= bytes@.subrange(0, i as int));
            let ghost done = split_bytes(start, bytes@.subrange(0, i as int)).0;
            let b: u8 = bytes[i];
            if b == 10 || b == 13 {
                if self.line.len() > 0 {
                    let ghost open = self.line@;
                    let text = lossy_string(self.line.as_slice());
                    let ghost before = out@;
                    out.push(text);
                    assert(string_texts(out@) =~= string_texts(before).push(text_of(open)));
                    assert(line_texts(done.push(open)) =~= line_texts(done).push(text_of(open)));
                    self.line = Vec::new();
                    assert(self.line@ =~= seq![]);
                }
            } else {
                self.line.push(b);
            }
        }
        assert(bytes@.subrange(0, bytes@.len() as int) =~= bytes@);
        out
    }

    /// Ends the stream. Returns the line that it leaves, if any.
    pub fn finish(self) -> (r: Option<String>)
        ensures
            self.line@.len() == 0 ==> r is None,
            self.line@.len() > 0 ==> (r matches Some(s) && s@ == text_of(self.line@)),
    {
        if self.line.len() == 0 {
            None
        } else {
            Some(lossy_string(self.line.as_slice()))
        }
    }
}

/// How a stream is cut into pieces does not matter for its lines.
pub proof fn pieces_do_not_matter(line: Seq<u8>, a: Seq<u8>, b: Seq<u8>)
    ensures
        ({
            let (first, mid) = split_bytes(line, a);
            let (second, last) = split_bytes(mid, b);
            split_bytes(line, a + b) == (first + second, last)
        }),
    decreases b.len(),
{
    let (first, mid) = split_bytes(line, a);
    if b.len() == 0 {
        assert(a + b =~= a);
        assert(first + Seq::<Seq<u8>>::empty() =~= first);
    } else {
        pieces_do_not_matter(line, a, b.drop_last());
        assert((a + b).drop_last() =~= a + b.drop_last());
        let (second, open) = split_bytes(mid, b.drop_last());
        assert((first + second).push(open) =~= first + second.push(open));
    }
}

/// No line of a stream is empty or holds an end of line.
pub proof fn lines_are_whole(line: Seq<u8>, bytes: Seq<u8>, i: int, j: int)
    requires
        forall|k: int| 0 <= k < line.len() ==> !ends_line(#[trigger] line[k]),
        0 <= i < split_bytes(line, bytes).0.len(),
        0 <= j < split_bytes(line, bytes).0[i].len(),
    ensures
        split_bytes(line, bytes).0[i].len() > 0,
        !ends_line(split_bytes(line, bytes).0[i][j]),
    decreases bytes.len(),
{
    open_line_is_clean(line, bytes.drop_last());
    let (done, open) = split_bytes(line, bytes.drop_last());
    if i < done.len() {
        lines_are_whole(line, bytes.drop_last(), i, j);
    }
}

proof fn open_line_is_clean(line: Seq<u8>, bytes: Seq<u8>)
    requires
        forall|k: int| 0 <= k < line.len() ==> !ends_line(#[trigger] line[k]),
    ensures
        forall|k: int|
            0 <= k < split_bytes(line, bytes).1.len() ==> !ends_line(
                #[trigger] split_bytes(line, bytes).1[k],
            ),
    decreases bytes.len(),
{
    if bytes.len() > 0 {
        open_line_is_clean(line, bytes.drop_last());
        let open = split_bytes(line, bytes.drop_last()).1;
        let now = split_bytes(line, bytes).1;
        assert forall|k: int| 0 <= k < now.len() implies !ends_line(#[trigger] now[k]) by {
            if k < open.len() {
                assert(now[k] == open[k]);
            }
        }
    }
}

/// What a request to the page's server is for.
#[derive(Debug, Clone, Copy, PartialEq, Eq, Structural)]
pub enum Route {
    Page,
    Info,
    Log,
    Fit,
    Serve,
    Cancel,
    NotFound,
}

/// The path of a URL: what stands before the first question mark.
pub open spec fn url_path(url: Seq<char>) -> Seq<char> {
    match split_first(url, "?"@) {
        Some((path, _)) => path,
        None => url,
    }
}

/// What a request is for.
pub open spec fn route_of(post: bool, url: Seq<char>) -> Route {
    let path = url_path(url);
    if !post && path == "/"@ {
        Route::Page
    } else if !post && path == "/api/info"@ {
        Route::Info
    } else if !post && path == "/api/log"@ {
        Route::Log
    } else if post && path == "/api/fit"@ {
        Route::Fit
    } else if post && path == "/api/serve"@ {
        Route::Serve
    } else if post && path == "/api/cancel"@ {
        Route::Cancel
    } else {
        Route::NotFound
    }
}

fn before(s: &[char], mark: &str) -> (r: Option<usize>)
    ensures
        match (r, crate::text::find(s@, mark@)) {
            (Some(i), Some(j)) => i == j && i + mark@.len() <= s@.len(),
            (None, None) => true,
            _ => false,
        },
{
    let p = chars_of(mark);
    proof {
        find_from_is_first(s@, mark@, 0);
    }
    position(s, p.as_slice())
}

/// Decides what a request is for.
pub fn route(post: bool, url: &str) -> (r: Route)
    ensures
        r == route_of(post, url@),
{
    let all = chars_of(url);
    let path: String = match before(all.as_slice(), "?") {
        Some(i) => string_of(slice_subrange(all.as_slice(), 0, i)),
        None => string_of(all.as_slice()),
    };
    let p = path.as_str();
    if !post && same_str(p, "/") {
        Route::Page
    } else if !post && same_str(p, "/api/info") {
        Route::Info
    } else if !post && same_str(p, "/api/log") {
        Route::Log
    } else if post && same_str(p, "/api/fit") {
        Route::Fit
    } else if post && same_str(p, "/api/serve") {
        Route::Serve
    } else if post && same_str(p, "/api/cancel") {
        Route::Cancel
    } else {
        Route::NotFound
    }
}

/// From which line on a request wants the log: the number behind `from=`, up to
/// the next ampersand; zero, if there is none.
pub open spec fn log_start_of(url: Seq<char>) -> u64 {
    match split_first(url, "from="@) {
        None => 0,
        Some((_, v)) => {
            let text = match split_first(v, "&"@) {
                Some((n, _)) => n,
                None => v,
            };
            match number_of(text) {
                Some(n) => n,
                None => 0,
            }
        },
    }
}

/// From which line on a request wants the log.
pub fn log_start(url: &str) -> (r: u64)
    ensures
        r == log_start_of(url@),
{
    let all = chars_of(url);
    let mark = chars_of("from=");
    match before(all.as_slice(), "from=") {
        None => 0,
        Some(i) => {
            let len: usize = all.len();
            let v = slice_subrange(all.as_slice(), i + mark.len(), len);
            let text = match before(v, "&") {
                Some(k) => slice_subrange(v, 0, k),
                None => v,
            };
            match parse_number(text) {
                Some(n) => n,
                None => 0,
            }
        },
    }
}

/// The value of a field is that of the first field of its name, if that is plain.
pub proof fn the_first_plain_field_counts(
    a: Seq<(Seq<char>, ItemSpec)>,
    key: Seq<char>,
    value: ItemSpec,
    b: Seq<(Seq<char>, ItemSpec)>,
)
    requires
        forall|i: int| 0 <= i < a.len() ==> (#[trigger] a[i]).0 != key,
    ensures
        doc_field(DocSpec::Table(a), key) is None,
        doc_field(DocSpec::Table(a.push((key, value)) + b), key) == (match value {
            ItemSpec::Plain(x) => Some(x),
            ItemSpec::Record(_) => None,
        }),
{
    assert(a.take(a.len() as int) =~= a);
    fields_are_passed(a, a, key, 0);
    let all = a.push((key, value)) + b;
    assert(all.take(a.len() as int) =~= a);
    fields_are_passed(all, a, key, 0);
    assert(all[a.len() as int] == (key, value));
}

proof fn fields_are_passed(
    all: Seq<(Seq<char>, ItemSpec)>,
    a: Seq<(Seq<char>, ItemSpec)>,
    key: Seq<char>,
    i: int,
)
    requires
        0 <= i <= a.len() <= all.len(),
        all.take(a.len() as int) == a,
        forall|k: int| 0 <= k < a.len() ==> (#[trigger] a[k]).0 != key,
    ensures
        plain_field(all, key, i) == plain_field(all, key, a.len() as int),
    decreases a.len() - i,
{
    if i < a.len() {
        assert(all[i] == all.take(a.len() as int)[i]);
        assert(a[i].0 != key);
        fields_are_passed(all, a, key, i + 1);
    }
}

/// What a request leaves open: 8192 tokens of context, an F16 cache, no budget, and
/// neither calibration nor preview. Without a model it is turned down.
pub proof fn requests_have_defaults(d: DocSpec)
    ensures
        doc_field(d, "model"@) is None ==> request_in(d) == Err::<FitRequestSpec, UiError>(
            UiError::NoModel,
        ),
        request_in(d) matches Ok(q) ==> {
            &&& q.model.len() > 0
            &&& doc_field(d, "ctx"@) is None ==> q.ctx == 8192
            &&& doc_field(d, "kv"@) is None ==> q.kv == seq!['f', '1', '6']
            &&& doc_field(d, "budget"@) is None ==> q.budget.len() == 0
            &&& doc_field(d, "calibrate"@) is None ==> !q.calibrate
            &&& doc_field(d, "preview"@) is None ==> !q.preview
        },
{
    reveal_strlit("f16");
    reveal_strlit("");
    assert("f16"@ =~= seq!['f', '1', '6']);
}

/// What a request gives is taken, the texts of the model and the budget without the
/// space around them.
pub proof fn requests_are_taken_as_given(
    d: DocSpec,
    model: Seq<char>,
    ctx: u64,
    kv: Seq<char>,
    budget: Seq<char>,
    calibrate: bool,
    preview: bool,
)
    requires
        doc_field(d, "model"@) == Some(AtomSpec::Text(model)),
        doc_field(d, "ctx"@) == Some(AtomSpec::Number(Some(ctx))),
        doc_field(d, "kv"@) == Some(AtomSpec::Text(kv)),
        doc_field(d, "budget"@) == Some(AtomSpec::Text(budget)),
        doc_field(d, "calibrate"@) == Some(AtomSpec::Bool(calibrate)),
        doc_field(d, "preview"@) == Some(AtomSpec::Bool(preview)),
    ensures
        trim_spaces(model).len() == 0 ==> request_in(d) == Err::<FitRequestSpec, UiError>(
            UiError::NoModel,
        ),
        trim_spaces(model).len() > 0 ==> (request_in(d) matches Ok(q) && q.model == trim_spaces(
            model,
        ) && q.ctx == ctx && q.kv == kv && q.budget == trim_spaces(budget) && q.calibrate
            == calibrate && q.preview == preview),
{
}

/// The arguments of a fit: the model, the context and the cache type always; then the
/// budget if one is given, calibration if it is wanted and the fit writes, and that
/// nothing is to be written if so.
pub proof fn fits_are_told_what_is_asked(q: FitRequestSpec)
    ensures
        ({
            let v = fit_args_of(q);
            let b = if q.budget.len() > 0 {
                2int
            } else {
                0
            };
            &&& v[0] == "fit"@ && v[1] == q.model
            &&& v[2] == "--ctx"@ && v[3] == decimal(q.ctx as nat)
            &&& v[4] == "--kv"@ && v[5] == q.kv
            &&& q.budget.len() > 0 ==> v[6] == "--budget"@ && v[7] == q.budget
            &&& q.preview ==> v.len() == 7 + b && v[6 + b] == "--dry-run"@
            &&& !q.preview && q.calibrate ==> v.len() == 7 + b && v[6 + b] == "--calibrate"@
            &&& !q.preview && !q.calibrate ==> v.len() == 6 + b
        }),
{
}

/// The log of a fit starts with the command.
pub proof fn logs_start_with_the_command(q: FitRequestSpec)
    ensures
        ({
            let head = "$ shoehorn fit "@ + q.model + (" --ctx "@ + decimal(q.ctx as nat)) + (
            " --kv "@ + q.kv);
            &&& !q.preview ==> first_line_of(q) == head
            &&& q.preview ==> first_line_of(q) == head + " --dry-run"@
        }),
{
    reveal_strlit("");
    let head = "$ shoehorn fit "@ + q.model + (" --ctx "@ + decimal(q.ctx as nat)) + (" --kv "@
        + q.kv);
    if q.preview {
        assert(first_line_of(q) =~= head + " --dry-run"@);
    } else {
        assert(first_line_of(q) =~= head);
    }
}

/// A line of a progress bar has a percent sign, and besides only hashes, spaces, points
/// and digits.
pub proof fn progress_lines_by_character(s: Seq<char>, i: int)
    requires
        0 <= i < s.len(),
    ensures
        progress_line(s) ==> s[i] as int == 32 || s[i] as int == 35 || s[i] as int == 37
            || s[i] as int == 46 || 48 <= s[i] as int <= 57,
        (s[i] as int == 37 && forall|k: int|
            0 <= k < s.len() ==> (#[trigger] s[k]) as int == 32 || s[k] as int == 35 || s[k] as int
                == 37 || s[k] as int == 46 || 48 <= s[k] as int <= 57) ==> progress_line(s),
        progress_line(s) ==> exists|k: int| 0 <= k < s.len() && (#[trigger] s[k]) as int == 37,
{
    if s[i] as int == 37 {
        assert(s[i] == '%');
    }
    if progress_line(s) {
        assert(bar_char(s[i]));
        let k = choose|k: int| 0 <= k < s.len() && s[k] == '%';
        assert(s[k] as int == 37);
    }
}

proof fn last_parenthesis(path: Seq<char>, rest: Seq<char>)
    requires
        forall|i: int| 0 <= i < rest.len() ==> #[trigger] rest[i] != '(',
    ensures
        split_last(path + seq![' ', '('] + rest, " ("@) matches Some((a, _)) && a == path,
{
    reveal_strlit(" (");
    let p = " ("@;
    let s = path + seq![' ', '('] + rest;
    let n = path.len() as int;
    assert(s.subrange(n, n + 2) =~= p);
    assert(crate::text::occurs_at(s, p, n));
    rfind_from_is_last(s, p, s.len() - 2);
    let k = crate::text::rfind(s, p)->0;
    if k > n {
        assert(s.subrange(k, k + 2)[1] == s[k + 1]);
        assert(s[k + 1] == rest[k + 1 - n - 2]);
    }
    assert(s.subrange(0, n) =~= path);
}

proof fn no_parenthesis(rest: Seq<char>)
    requires
        forall|i: int| 0 <= i < rest.len() ==> #[trigger] rest[i] != '(',
    ensures
        split_last(rest, " ("@) is None,
{
    reveal_strlit(" (");
    let p = " ("@;
    rfind_from_is_last(rest, p, rest.len() - 2);
    if let Some(j) = crate::text::rfind(rest, p) {
        assert(rest.subrange(j, j + 2)[1] == rest[j + 1]);
    }
}

/// The written file is named between `wrote ` at the start of a line and the last
/// opening parenthesis that a space precedes.
pub proof fn written_files_are_named(path: Seq<char>, rest: Seq<char>)
    requires
        forall|i: int| 0 <= i < rest.len() ==> #[trigger] rest[i] != '(',
    ensures
        written_path("wrote "@ + path + seq![' ', '('] + rest) == Some(path),
        written_path("wrote "@ + rest) is None,
{
    reveal_strlit("wrote ");
    let w = "wrote "@;
    let s = path + seq![' ', '('] + rest;
    let line = w + path + seq![' ', '('] + rest;
    assert(line.subrange(0, 6) =~= w);
    assert(line.subrange(6, line.len() as int) =~= s);
    last_parenthesis(path, rest);
    let other = w + rest;
    assert(other.subrange(0, 6) =~= w);
    assert(other.subrange(6, other.len() as int) =~= rest);
    no_parenthesis(rest);
}

/// A line that does not start with `wrote ` names no file.
pub proof fn other_lines_name_no_file(line: Seq<char>)
    requires
        line.len() < 6 || line.subrange(0, 6) != seq!['w', 'r', 'o', 't', 'e', ' '],
    ensures
        written_path(line) is None,
{
    reveal_strlit("wrote ");
    assert("wrote "@ =~= seq!['w', 'r', 'o', 't', 'e', ' ']);
}

/// A line of output is put at the end of the log, in the place of the last line where
/// both are lines of a progress bar. A file that it names becomes the output. Nothing
/// else changes.
pub proof fn lines_are_logged(s: StateSpec, line: Seq<char>)
    ensures
        ({
            let w = s.after_line(line);
            let bar = s.log.len() > 0 && progress_line(line) && progress_line(s.log.last());
            &&& w.log.last() == line
            &&& bar ==> w.log.len() == s.log.len()
            &&& !bar ==> w.log.len() == s.log.len() + 1
            &&& forall|i: int|
                0 <= i < s.log.len() - 1 || (!bar && i == s.log.len() - 1 >= 0)
                    ==> #[trigger] w.log[i] == s.log[i]
            &&& written_path(line) is None ==> w.output == s.output
            &&& written_path(line) is Some ==> w.output == written_path(line)
            &&& w.phase == s.phase && w.fitting == s.fitting && w.cancelled == s.cancelled
            &&& w.preview == s.preview && w.ctx == s.ctx && w.kv == s.kv
        }),
{
}

/// A fit starts with nothing of the one before: its own log, no output, not cancelled.
pub proof fn fits_start_afresh(s: StateSpec, u: StateSpec, q: FitRequestSpec)
    ensures
        s.after_start(q) == u.after_start(q),
        s.after_start(q).phase == Phase::Running,
        s.after_start(q).fitting,
        !s.after_start(q).cancelled,
        s.after_start(q).output is None,
        s.after_start(q).log == seq![first_line_of(q)],
        s.after_start(q).preview == q.preview,
        s.after_start(q).ctx == q.ctx,
        s.after_start(q).kv == q.kv,
{
}

/// How a fit ends: idle if it was cancelled, done if it succeeded and has written a file
/// or was to write none, else failed. Until then, and without a fit, nothing changes.
pub proof fn fits_end_as_their_process_does(s: StateSpec, success: bool)
    ensures
        s.after_poll(Poll::Running) == s,
        !s.fitting ==> s.after_poll(Poll::Lost) == s && s.after_poll(Poll::Ended { success }) == s,
        s.fitting ==> {
            let l = s.after_poll(Poll::Lost);
            let w = s.after_poll(Poll::Ended { success });
            &&& l.phase == Phase::Failed && !l.fitting && l.log == s.log && l.output == s.output
            &&& !w.fitting && w.output == s.output && w.ctx == s.ctx && w.kv == s.kv
            &&& s.cancelled ==> w.phase == Phase::Idle && w.log == s.log.push("stopped"@)
            &&& !s.cancelled ==> w.log == s.log
            &&& !s.cancelled && success && s.preview ==> w.phase == Phase::Done
            &&& !s.cancelled && success && s.output is Some ==> w.phase == Phase::Done
            &&& !s.cancelled && success && !s.preview && s.output is None ==> w.phase
                == Phase::Failed
            &&& !s.cancelled && !success ==> w.phase == Phase::Failed
        },
{
}

/// The arguments of the server on a result: the file, the context, all layers on the
/// GPU, the port, and the type of the cache unless that is F16.
pub proof fn servers_are_told_their_port(path: Seq<char>, ctx: u64, port: u64, kv: Seq<char>)
    ensures
        ({
            let v = server_args_of(path, ctx, port, kv);
            &&& v[0] == "-m"@ && v[1] == path && v[2] == "-c"@ && v[3] == decimal(ctx as nat)
            &&& v[4] == "-ngl"@ && v[5] == "99"@ && v[6] == "--port"@ && v[7] == decimal(
                port as nat,
            )
            &&& kv == "f16"@ ==> v.len() == 8
            &&& kv != "f16"@ ==> v.len() == 12 && v[8] == "--cache-type-k"@ && v[9] == kv && v[10]
                == "--cache-type-v"@ && v[11] == kv
        }),
{
}

/// Bytes that end no line go on with the line; a line feed or a carriage return
/// completes it if it is not empty.
pub proof fn lines_end_at_feeds_and_returns(line: Seq<u8>, a: Seq<u8>)
    requires
        forall|i: int| 0 <= i < a.len() ==> #[trigger] a[i] != 10 && a[i] != 13,
    ensures
        split_bytes(line, a) == (Seq::<Seq<u8>>::empty(), line + a),
        line.len() + a.len() > 0 ==> split_bytes(line, a.push(10)) == (
            seq![line + a],
            Seq::<u8>::empty(),
        ) && split_bytes(line, a.push(13)) == (seq![line + a], Seq::<u8>::empty()),
        line.len() + a.len() == 0 ==> split_bytes(line, a.push(10)) == (
            Seq::<Seq<u8>>::empty(),
            Seq::<u8>::empty(),
        ) && split_bytes(line, a.push(13)) == (Seq::<Seq<u8>>::empty(), Seq::<u8>::empty()),
    decreases a.len(),
{
    if a.len() > 0 {
        let b = a.drop_last();
        assert forall|i: int| 0 <= i < b.len() implies #[trigger] b[i] != 10 && b[i] != 13 by {
            assert(b[i] == a[i]);
        }
        lines_end_at_feeds_and_returns(line, b);
        assert(a.last() == a[a.len() - 1]);
        assert((line + b).push(a.last()) =~= line + a);
    } else {
        assert(line + a =~= line);
        assert(a =~= seq![]);
    }
    assert(a.push(10).drop_last() =~= a);
    assert(a.push(13).drop_last() =~= a);
    let none = Seq::<Seq<u8>>::empty();
    assert(none.push(line + a) =~= seq![line + a]);
    if line.len() + a.len() == 0 {
        assert(line + a =~= Seq::<u8>::empty());
    }
}

/// What stands behind a question mark in a URL does not matter for its route.
pub proof fn queries_do_not_matter_for_the_route(post: bool, path: Seq<char>, query: Seq<char>)
    requires
        forall|i: int| 0 <= i < path.len() ==> #[trigger] path[i] != '?',
    ensures
        route_of(post, path + seq!['?'] + query) == route_of(post, path),
        url_path(path) == path,
{
    reveal_strlit("?");
    let p = "?"@;
    assert(p =~= seq!['?']);
    find_from_is_first(path, p, 0);
    if let Some(k) = crate::text::find(path, p) {
        assert(path.subrange(k, k + 1)[0] == path[k]);
    }
    let s = path + seq!['?'] + query;
    let n = path.len() as int;
    assert(s.subrange(n, n + 1) =~= p);
    assert(crate::text::occurs_at(s, p, n));
    find_from_is_first(s, p, 0);
    let k = crate::text::find(s, p)->0;
    if k < n {
        assert(s.subrange(k, k + 1)[0] == s[k]);
        assert(s[k] == path[k]);
    }
    assert(s.subrange(0, n) =~= path);
}

/// The routes: what is read is got, what changes something is posted, and all else is
/// not found.
pub proof fn routes_by_path(path: Seq<char>)
    requires
        url_path(path) == path,
    ensures
        route_of(false, path) == Route::Page <==> path == "/"@,
        route_of(false, path) == Route::Info <==> path == "/api/info"@,
        route_of(false, path) == Route::Log <==> path == "/api/log"@,
        route_of(true, path) == Route::Fit <==> path == "/api/fit"@,
        route_of(true, path) == Route::Serve <==> path == "/api/serve"@,
        route_of(true, path) == Route::Cancel <==> path == "/api/cancel"@,
        route_of(false, path) == Route::NotFound <==> path != "/"@ && path != "/api/info"@ && path
            != "/api/log"@,
        route_of(true, path) == Route::NotFound <==> path != "/api/fit"@ && path != "/api/serve"@
            && path != "/api/cancel"@,
{
    reveal_strlit("/");
    reveal_strlit("/api/info");
    reveal_strlit("/api/log");
    reveal_strlit("/api/fit");
    reveal_strlit("/api/serve");
    reveal_strlit("/api/cancel");
    assert("/api/info"@[5] == 'i');
    assert("/api/log"@[5] == 'l');
    assert("/api/fit"@[5] == 'f');
    assert("/api/serve"@[5] == 's');
    assert("/api/cancel"@[5] == 'c');
}

/// The log is wanted from the number behind the first `from=`, which an ampersand may
/// end; from the start, where there is no number.
pub proof fn logs_are_wanted_from_a_line(x: Seq<char>, n: Seq<char>, rest: Seq<char>)
    requires
        forall|i: int| 0 <= i < n.len() ==> #[trigger] n[i] != '&',
        crate::text::find(x + "from="@ + n, "from="@) == Some(x.len() as int),
        crate::text::find(x + "from="@ + (n + seq!['&'] + rest), "from="@) == Some(
            x.len() as int,
        ),
    ensures
        log_start_of(x + "from="@ + n) == (match number_of(n) {
            Some(v) => v,
            None => 0,
        }),
        log_start_of(x + "from="@ + (n + seq!['&'] + rest)) == log_start_of(x + "from="@ + n),
{
    reveal_strlit("&");
    let p = "&"@;
    assert(p =~= seq!['&']);
    let f = "from="@;
    let s = x + f + n;
    assert(s.subrange((x.len() + f.len()) as int, s.len() as int) =~= n);
    find_from_is_first(n, p, 0);
    if let Some(k) = crate::text::find(n, p) {
        assert(n.subrange(k, k + 1)[0] == n[k]);
    }
    let v = n + seq!['&'] + rest;
    let t = x + f + v;
    assert(t.subrange((x.len() + f.len()) as int, t.len() as int) =~= v);
    let m = n.len() as int;
    assert(v.subrange(m, m + 1) =~= p);
    assert(crate::text::occurs_at(v, p, m));
    find_from_is_first(v, p, 0);
    let k = crate::text::find(v, p)->0;
    if k < m {
        assert(v.subrange(k, k + 1)[0] == v[k]);
        assert(v[k] == n[k]);
    }
    assert(v.subrange(0, m) =~= n);
}

/// Without `from=` the log is wanted from the start.
pub proof fn logs_are_wanted_from_the_start(url: Seq<char>)
    requires
        crate::text::find(url, "from="@) is None,
    ensures
        log_start_of(url) == 0,
{
}

} // verus!
