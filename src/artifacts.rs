//! Build artifacts: which files a build reported for the script's package,
//! and where each is copied.
use vstd::prelude::*;

use crate::args::{append_all, views};
use crate::extract::{lines_of, split_lines};
use crate::options::{filter_view, ProjectOptions};
use crate::text::{chars_of, has_prefix, starts_with, str_eq, string_of};

verus! {

#[verifier::external_type_specification]
#[verifier::external_body]
pub struct ExJsonValue(serde_json::Value);

#[verifier::external_type_specification]
#[verifier::external_body]
pub struct ExJsonError(serde_json::Error);

/// What an event of the build's message stream says, field by field:
/// `None` where the field is missing or of another type.
#[derive(Debug, PartialEq)]
pub struct BuildEvent {
    pub reason: Option<String>,
    pub package_id: Option<String>,
    /// The file names; `None` for an item that is not a string.
    pub filenames: Option<Vec<Option<String>>>,
}

/// Why the build's messages could not be read.
#[derive(Debug)]
pub enum BuildOutputError {
    /// A line is not JSON.
    Json(serde_json::Error),
    /// An event without a string reason.
    ReasonNotString,
    /// An artifact without a string package id.
    PackageIdNotString,
    /// An artifact whose file names are not an array.
    FilenamesNotArray,
    /// A file name that is not a string.
    FilenameNotString,
}

/// Why the artifacts could not be copied.
#[derive(Debug, PartialEq)]
pub enum ArtifactError {
    /// An artifact path without a file name.
    InvalidSourceFilename(String),
}

/// The model of a `BuildEvent`.
pub struct Event {
    pub reason: Option<Seq<char>>,
    pub package_id: Option<Seq<char>>,
    pub filenames: Option<Seq<Option<Seq<char>>>>,
}

/// The model of the errors of reading a build's messages.
pub enum OutputFault {
    Json,
    ReasonNotString,
    PackageIdNotString,
    FilenamesNotArray,
    FilenameNotString,
}

pub open spec fn opt_view(o: Option<String>) -> Option<Seq<char>> {
    match o {
        Some(s) => Some(s@),
        None => None,
    }
}

impl View for BuildEvent {
    type V = Event;

    open spec fn view(&self) -> Event {
        Event {
            reason: opt_view(self.reason),
            package_id: opt_view(self.package_id),
            filenames: match &self.filenames {
                Some(v) => Some(v@.map_values(|o: Option<String>| opt_view(o))),
                None => None,
            },
        }
    }
}

/// The model of an error.
pub open spec fn fault_of(e: BuildOutputError) -> Option<OutputFault> {
    match e {
        BuildOutputError::ReasonNotString => Some(OutputFault::ReasonNotString),
        BuildOutputError::PackageIdNotString => Some(OutputFault::PackageIdNotString),
        BuildOutputError::FilenamesNotArray => Some(OutputFault::FilenamesNotArray),
        BuildOutputError::FilenameNotString => Some(OutputFault::FilenameNotString),
        BuildOutputError::Json(_) => Some(OutputFault::Json),
    }
}

/// All file names, each of which must be a string.
pub open spec fn all_strings(fs: Seq<Option<Seq<char>>>) -> Result<Seq<Seq<char>>, OutputFault>
    decreases fs.len(),
{
    if fs.len() == 0 {
        Ok(Seq::empty())
    } else {
        match all_strings(fs.drop_last()) {
            Err(e) => Err(e),
            Ok(a) => match fs.last() {
                Some(f) => Ok(a.push(f)),
                None => Err(OutputFault::FilenameNotString),
            },
        }
    }
}

/// The files that one event contributes for the package `name`: those of a
/// compiler artifact whose package id starts with the name and a space.
pub open spec fn event_files_spec(ev: Event, name: Seq<char>) -> Result<Seq<Seq<char>>, OutputFault> {
    match ev.reason {
        None => Err(OutputFault::ReasonNotString),
        Some(r) => if r != "compiler-artifact"@ {
            Ok(Seq::empty())
        } else {
            match ev.package_id {
                None => Err(OutputFault::PackageIdNotString),
                Some(p) => if !starts_with(p, name + " "@) {
                    Ok(Seq::empty())
                } else {
                    match ev.filenames {
                        None => Err(OutputFault::FilenamesNotArray),
                        Some(fs) => all_strings(fs),
                    }
                },
            }
        },
    }
}

/// The files of a stream of events, in order; the first error wins.
pub open spec fn collected(evs: Seq<Event>, name: Seq<char>) -> Result<Seq<Seq<char>>, OutputFault>
    decreases evs.len(),
{
    if evs.len() == 0 {
        Ok(Seq::empty())
    } else {
        match collected(evs.drop_last(), name) {
            Err(e) => Err(e),
            Ok(a) => match event_files_spec(evs.last(), name) {
                Err(e) => Err(e),
                Ok(b) => Ok(a + b),
            },
        }
    }
}

/// The files that one event contributes for the package `name`.
pub fn event_files(ev: &BuildEvent, name: &str) -> (r: Result<Vec<String>, BuildOutputError>)
    ensures
        match event_files_spec(ev@, name@) {
            Ok(f) => r is Ok && views(r->Ok_0@) == f,
            Err(e) => r is Err && fault_of(r->Err_0) == Some(e),
        },
{
    let reason = match &ev.reason {
        None => {
            return Err(BuildOutputError::ReasonNotString);
        },
        Some(r) => r,
    };
    if !str_eq(reason.as_str(), "compiler-artifact") {
        let v: Vec<String> = Vec::new();
        assert(views(v@) =~= Seq::<Seq<char>>::empty());
        return Ok(v);
    }
    let package_id = match &ev.package_id {
        None => {
            return Err(BuildOutputError::PackageIdNotString);
        },
        Some(p) => p,
    };
    let mut needle = chars_of(name);
    needle.push(' ');
    proof {
        reveal_strlit(" ");
    }
    assert(needle@ =~= name@ + " "@);
    let pid = chars_of(package_id.as_str());
    if !has_prefix(pid.as_slice(), needle.as_slice()) {
        let v: Vec<String> = Vec::new();
        assert(views(v@) =~= Seq::<Seq<char>>::empty());
        return Ok(v);
    }
    let fs = match &ev.filenames {
        None => {
            return Err(BuildOutputError::FilenamesNotArray);
        },
        Some(fs) => fs,
    };
    let ghost model = fs@.map_values(|o: Option<String>| opt_view(o));
    let mut out: Vec<String> = Vec::new();
    let mut i: usize = 0;
    assert(model.subrange(0, 0) =~= Seq::<Option<Seq<char>>>::empty());
    assert(views(out@) =~= Seq::<Seq<char>>::empty());
    assert(event_files_spec(ev@, name@) == all_strings(model));
    while i < fs.len()
        invariant
            event_files_spec(ev@, name@) == all_strings(model),
            model == fs@.map_values(|o: Option<String>| opt_view(o)),
            i <= fs@.len(),
            all_strings(model.subrange(0, i as int)) == Ok::<Seq<Seq<char>>, OutputFault>(views(out@)),
        decreases fs@.len() - i,
    {
        assert(model.subrange(0, i + 1).drop_last() =~= model.subrange(0, i as int));
        assert(model.subrange(0, i + 1).last() == opt_view(fs@[i as int]));
        match &fs[i] {
            Some(f) => {
                let ghost before = out@;
                out.push(f.clone());
                assert(views(out@) =~= views(before).push(f@));
            },
            None => {
                proof {
                    lemma_strings_err(model, i + 1);
                }
                return Err(BuildOutputError::FilenameNotString);
            },
        }
        i = i + 1;
    }
    assert(model.subrange(0, i as int) =~= model);
    Ok(out)
}

proof fn lemma_strings_err(fs: Seq<Option<Seq<char>>>, k: int)
    requires
        0 <= k <= fs.len(),
        all_strings(fs.subrange(0, k)) is Err,
    ensures
        all_strings(fs) == all_strings(fs.subrange(0, k)),
    decreases fs.len() - k,
{
    if k < fs.len() {
        assert(fs.subrange(0, k + 1).drop_last() =~= fs.subrange(0, k));
        lemma_strings_err(fs, k + 1);
    } else {
        assert(fs.subrange(0, k) =~= fs);
    }
}

proof fn lemma_collected_err(evs: Seq<Event>, k: int, name: Seq<char>)
    requires
        0 <= k <= evs.len(),
        collected(evs.subrange(0, k), name) is Err,
    ensures
        collected(evs, name) == collected(evs.subrange(0, k), name),
    decreases evs.len() - k,
{
    if k < evs.len() {
        assert(evs.subrange(0, k + 1).drop_last() =~= evs.subrange(0, k));
        lemma_collected_err(evs, k + 1, name);
    } else {
        assert(evs.subrange(0, k) =~= evs);
    }
}

/// The files that a stream of build events reports for the package `name`.
pub fn collect_artifact_files(events: &Vec<BuildEvent>, name: &str) -> (r: Result<Vec<String>, BuildOutputError>)
    ensures
        match collected(events@.map_values(|e: BuildEvent| e@), name@) {
            Ok(f) => r is Ok && views(r->Ok_0@) == f,
            Err(e) => r is Err && fault_of(r->Err_0) == Some(e),
        },
{
    let ghost model = events@.map_values(|e: BuildEvent| e@);
    let mut out: Vec<String> = Vec::new();
    let mut i: usize = 0;
    assert(model.subrange(0, 0) =~= Seq::<Event>::empty());
    assert(views(out@) =~= Seq::<Seq<char>>::empty());
    while i < events.len()
        invariant
            model == events@.map_values(|e: BuildEvent| e@),
            i <= events@.len(),
            collected(model.subrange(0, i as int), name@) == Ok::<Seq<Seq<char>>, OutputFault>(views(out@)),
        decreases events@.len() - i,
    {
        assert(model.subrange(0, i + 1).drop_last() =~= model.subrange(0, i as int));
        assert(model.subrange(0, i + 1).last() == events@[i as int]@);
        match event_files(&events[i], name) {
            Ok(files) => {
                append_all(&mut out, &files);
            },
            Err(e) => {
                proof {
                    lemma_collected_err(model, i + 1, name@);
                }
                return Err(e);
            },
        }
        i = i + 1;
    }
    assert(model.subrange(0, i as int) =~= model);
    Ok(out)
}

/// A JSON value: strings, arrays and objects as the library reads them,
/// any other value kept as parsed.
#[derive(Debug, PartialEq)]
pub enum JsonNode {
    Str(String),
    Array(Vec<JsonNode>),
    Object(Vec<(String, JsonNode)>),
    Other(serde_json::Value),
}

/// The mathematical model of a `JsonNode`.
pub enum Json {
    Str(Seq<char>),
    Array(Seq<Json>),
    Object(Seq<(Seq<char>, Json)>),
    Other(serde_json::Value),
}

impl View for JsonNode {
    type V = Json;

    open spec fn view(&self) -> Json
        decreases self,
    {
        match self {
            JsonNode::Str(s) => Json::Str(s@),
            JsonNode::Array(a) => Json::Array(
                Seq::new(
                    a@.len(),
                    |i: int|
                        if 0 <= i < a@.len() {
                            a@[i]@
                        } else {
                            Json::Array(Seq::empty())
                        },
                ),
            ),
            JsonNode::Object(t) => {
                let values = Seq::new(
                    t@.len(),
                    |i: int|
                        if 0 <= i < t@.len() {
                            t@[i].1@
                        } else {
                            Json::Array(Seq::empty())
                        },
                );
                Json::Object(Seq::new(t@.len(), |i: int| (t@[i].0@, values[i])))
            },
            JsonNode::Other(x) => Json::Other(*x),
        }
    }
}

/// The model of an object's members.
pub open spec fn members_of(t: Seq<(String, JsonNode)>) -> Seq<(Seq<char>, Json)> {
    Seq::new(
        t.len(),
        |i: int|
            if 0 <= i < t.len() {
                (t[i].0@, t[i].1@)
            } else {
                (Seq::empty(), Json::Array(Seq::empty()))
            },
    )
}

/// The model of an array's items.
pub open spec fn json_items_of(a: Seq<JsonNode>) -> Seq<Json> {
    Seq::new(
        a.len(),
        |i: int|
            if 0 <= i < a.len() {
                a[i]@
            } else {
                Json::Array(Seq::empty())
            },
    )
}

pub proof fn lemma_json_views(n: JsonNode)
    ensures
        n matches JsonNode::Object(t) ==> n@ == Json::Object(members_of(t@)),
        n matches JsonNode::Array(a) ==> n@ == Json::Array(json_items_of(a@)),
{
    match n {
        JsonNode::Object(t) => {
            assert forall|i: int| 0 <= i < t@.len() implies n@->Object_0[i] == members_of(t@)[i] by {}
            assert(n@->Object_0 =~= members_of(t@));
        },
        JsonNode::Array(a) => {
            assert(n@->Array_0 =~= json_items_of(a@));
        },
        _ => {},
    }
}

/// The value of the first member named `k`.
pub open spec fn member(fields: Seq<(Seq<char>, Json)>, k: Seq<char>) -> Option<Json>
    decreases fields.len(),
{
    if fields.len() == 0 {
        None
    } else if fields[0].0 == k {
        Some(fields[0].1)
    } else {
        member(fields.drop_first(), k)
    }
}

/// The member `k` of an object; `None` for any other value.
pub open spec fn field(j: Json, k: Seq<char>) -> Option<Json> {
    match j {
        Json::Object(f) => member(f, k),
        _ => None,
    }
}

/// The string that a value is, where it is one.
pub open spec fn str_of(j: Option<Json>) -> Option<Seq<char>> {
    match j {
        Some(Json::Str(s)) => Some(s),
        _ => None,
    }
}

/// What a build message says in the fields that artifact collection reads.
pub open spec fn event_of(j: Json) -> Event {
    Event {
        reason: str_of(field(j, "reason"@)),
        package_id: str_of(field(j, "package_id"@)),
        filenames: match field(j, "filenames"@) {
            Some(Json::Array(items)) => Some(items.map_values(|x: Json| str_of(Some(x)))),
            _ => None,
        },
    }
}

/// The JSON value that a text denotes, where it parses.
pub uninterp spec fn json_parse_of(text: Seq<char>) -> Option<Json>;

/// Turns a parsed `serde_json::Value` into a node, variant by variant.
#[verifier::external_body]
fn json_from_value(v: serde_json::Value) -> JsonNode {
    match v {
        serde_json::Value::String(s) => JsonNode::Str(s),
        serde_json::Value::Array(a) => JsonNode::Array(a.into_iter().map(json_from_value).collect()),
        serde_json::Value::Object(m) => JsonNode::Object(m.into_iter().map(|(k, x)| (k, json_from_value(x))).collect()),
        other => JsonNode::Other(other),
    }
}

/// Relies on `serde_json::from_str` into a `serde_json::Value`: the result
/// depends on the text alone.
#[verifier::external_body]
fn json_parse(line: &str) -> (r: Result<JsonNode, serde_json::Error>)
    ensures
        r is Ok <==> json_parse_of(line@) is Some,
        r is Ok ==> r->Ok_0@ == json_parse_of(line@)->Some_0,
{
    serde_json::from_str::<serde_json::Value>(line).map(json_from_value)
}

/// The member `k` of a JSON value.
pub fn json_field<'a>(j: &'a JsonNode, k: &str) -> (r: Option<&'a JsonNode>)
    ensures
        match r {
            Some(n) => field(j@, k@) == Some(n@),
            None => field(j@, k@) is None,
        },
{
    proof {
        lemma_json_views(*j);
    }
    match j {
        JsonNode::Object(t) => {
            let ghost f = members_of(t@);
            let mut i: usize = 0;
            assert(f.subrange(0, f.len() as int) =~= f);
            while i < t.len()
                invariant
                    f == members_of(t@),
                    j@ == Json::Object(f),
                    i <= t@.len(),
                    member(f, k@) == member(f.subrange(i as int, f.len() as int), k@),
                decreases t@.len() - i,
            {
                let ghost rest = f.subrange(i as int, f.len() as int);
                assert(rest.drop_first() =~= f.subrange(i + 1, f.len() as int));
                assert(rest[0] == (t@[i as int].0@, t@[i as int].1@));
                if str_eq(t[i].0.as_str(), k) {
                    return Some(&t[i].1);
                }
                i = i + 1;
            }
            None
        },
        _ => None,
    }
}

fn json_str(j: Option<&JsonNode>) -> (r: Option<String>)
    ensures
        opt_view(r) == str_of(
            match j {
                Some(n) => Some(n@),
                None => None,
            },
        ),
{
    match j {
        Some(JsonNode::Str(s)) => Some(s.clone()),
        _ => None,
    }
}

/// Read the fields of a build message that artifact collection looks at.
pub fn decode_event(v: &JsonNode) -> (r: BuildEvent)
    ensures
        r@ == event_of(v@),
{
    let reason = json_str(json_field(v, "reason"));
    let package_id = json_str(json_field(v, "package_id"));
    let filenames = match json_field(v, "filenames") {
        Some(JsonNode::Array(items)) => {
            proof {
                lemma_json_views(JsonNode::Array(*items));
            }
            let ghost model = json_items_of(items@);
            let mut names: Vec<Option<String>> = Vec::new();
            let mut i: usize = 0;
            while i < items.len()
                invariant
                    model == json_items_of(items@),
                    i <= items@.len(),
                    names@.len() == i,
                    forall|j: int| 0 <= j < i ==> opt_view(#[trigger] names@[j]) == str_of(Some(model[j])),
                decreases items@.len() - i,
            {
                names.push(json_str(Some(&items[i])));
                i = i + 1;
            }
            assert(names@.map_values(|o: Option<String>| opt_view(o)) =~= model.map_values(|x: Json| str_of(Some(x))));
            Some(names)
        },
        _ => None,
    };
    BuildEvent { reason, package_id, filenames }
}

/// The files that one line of a build's messages contributes for the
/// package `name`.
pub open spec fn line_files(line: Seq<char>, name: Seq<char>) -> Result<Seq<Seq<char>>, OutputFault> {
    match json_parse_of(line) {
        None => Err(OutputFault::Json),
        Some(j) => event_files_spec(event_of(j), name),
    }
}

/// The files that a build's message lines report, in order; the first
/// error wins.
pub open spec fn output_files(lines: Seq<Seq<char>>, name: Seq<char>) -> Result<Seq<Seq<char>>, OutputFault>
    decreases lines.len(),
{
    if lines.len() == 0 {
        Ok(Seq::empty())
    } else {
        match output_files(lines.drop_last(), name) {
            Err(e) => Err(e),
            Ok(a) => match line_files(lines.last(), name) {
                Err(e) => Err(e),
                Ok(b) => Ok(a + b),
            },
        }
    }
}

proof fn lemma_output_err(lines: Seq<Seq<char>>, k: int, name: Seq<char>)
    requires
        0 <= k <= lines.len(),
        output_files(lines.subrange(0, k), name) is Err,
    ensures
        output_files(lines, name) == output_files(lines.subrange(0, k), name),
    decreases lines.len() - k,
{
    if k < lines.len() {
        assert(lines.subrange(0, k + 1).drop_last() =~= lines.subrange(0, k));
        lemma_output_err(lines, k + 1, name);
    } else {
        assert(lines.subrange(0, k) =~= lines);
    }
}

/// Parse the JSON messages of a build, one per line, and collect the files
/// of the compiler artifacts of the package `name`: those whose package id
/// starts with the name and a space, in line order.
pub fn parse_build_output(output: &str, name: &str) -> (r: Result<Vec<String>, BuildOutputError>)
    ensures
        match output_files(lines_of(output@), name@) {
            Ok(f) => r is Ok && views(r->Ok_0@) == f,
            Err(e) => r is Err && fault_of(r->Err_0) == Some(e),
        },
{
    let lines = split_lines(output);
    let ghost all = lines_of(output@);
    let mut out: Vec<String> = Vec::new();
    let mut i: usize = 0;
    assert(views(out@) =~= Seq::<Seq<char>>::empty());
    assert(all.subrange(0, 0) =~= Seq::<Seq<char>>::empty());
    while i < lines.len()
        invariant
            all == lines_of(output@),
            lines@.len() == all.len(),
            forall|j: int| 0 <= j < lines@.len() ==> #[trigger] lines@[j]@ == all[j],
            i <= lines@.len(),
            output_files(all.subrange(0, i as int), name@) == Ok::<Seq<Seq<char>>, OutputFault>(views(out@)),
        decreases lines@.len() - i,
    {
        assert(all.subrange(0, i + 1).drop_last() =~= all.subrange(0, i as int));
        assert(all.subrange(0, i + 1).last() == lines@[i as int]@);
        let text = string_of(lines[i].as_slice());
        let value = match json_parse(text.as_str()) {
            Ok(v) => v,
            Err(e) => {
                proof {
                    lemma_output_err(all, i + 1, name@);
                }
                return Err(BuildOutputError::Json(e));
            },
        };
        let ev = decode_event(&value);
        match event_files(&ev, name) {
            Ok(files) => {
                append_all(&mut out, &files);
            },
            Err(e) => {
                proof {
                    lemma_output_err(all, i + 1, name@);
                }
                return Err(e);
            },
        }
        i = i + 1;
    }
    assert(all.subrange(0, i as int) =~= all);
    Ok(out)
}

/// Where an artifact of the given file name is copied to: the filter's
/// destination where it names one, the same name otherwise; an empty name
/// means the artifact is skipped. The filter is read as a map: of two
/// entries for one name, the later one holds.
pub open spec fn destination(filter: Seq<(Seq<char>, Seq<char>)>, name: Seq<char>) -> Seq<char>
    decreases filter.len(),
{
    if filter.len() == 0 {
        name
    } else if filter.last().0 == name {
        filter.last().1
    } else {
        destination(filter.drop_last(), name)
    }
}

/// The final component of a path, where it has one.
pub uninterp spec fn path_file_name(p: Seq<char>) -> Option<Seq<char>>;

/// Relies on `std::path::Path::file_name`: the result depends on the path
/// alone.
#[verifier::external_body]
fn file_name(p: &str) -> (r: Option<String>)
    ensures
        r is Some <==> path_file_name(p@) is Some,
        r is Some ==> r->Some_0@ == path_file_name(p@)->Some_0,
{
    std::path::Path::new(p).file_name().map(|s| s.to_string_lossy().into_owned())
}

/// The copies to make of the artifacts: each source path with the file name
/// it is copied to, in order, skipping those the filter drops.
pub open spec fn copies(arts: Seq<Seq<char>>, filter: Seq<(Seq<char>, Seq<char>)>) -> Option<Seq<(Seq<char>, Seq<char>)>>
    decreases arts.len(),
{
    if arts.len() == 0 {
        Some(Seq::empty())
    } else {
        match copies(arts.drop_last(), filter) {
            None => None,
            Some(a) => match path_file_name(arts.last()) {
                None => None,
                Some(n) => {
                    let d = destination(filter, n);
                    if d.len() == 0 {
                        Some(a)
                    } else {
                        Some(a.push((arts.last(), d)))
                    }
                },
            },
        }
    }
}

/// The destination file name of an artifact of file name `name`.
pub fn destination_name(filter: &Vec<(String, String)>, name: &str) -> (r: String)
    ensures
        r@ == destination(filter_view(filter@), name@),
{
    let ghost f = filter_view(filter@);
    let mut i: usize = filter.len();
    assert(f.subrange(0, f.len() as int) =~= f);
    while i > 0
        invariant
            f == filter_view(filter@),
            i <= filter@.len(),
            destination(f, name@) == destination(f.subrange(0, i as int), name@),
        decreases i,
    {
        let ghost pre = f.subrange(0, i as int);
        assert(pre.drop_last() =~= f.subrange(0, i - 1));
        assert(pre.last() == (filter@[i - 1].0@, filter@[i - 1].1@));
        i = i - 1;
        if str_eq(filter[i].0.as_str(), name) {
            return filter[i].1.clone();
        }
    }
    name.to_owned()
}

proof fn lemma_copies_none(arts: Seq<Seq<char>>, k: int, filter: Seq<(Seq<char>, Seq<char>)>)
    requires
        0 <= k <= arts.len(),
        copies(arts.subrange(0, k), filter) is None,
    ensures
        copies(arts, filter) is None,
    decreases arts.len() - k,
{
    if k < arts.len() {
        assert(arts.subrange(0, k + 1).drop_last() =~= arts.subrange(0, k));
        lemma_copies_none(arts, k + 1, filter);
    } else {
        assert(arts.subrange(0, k) =~= arts);
    }
}

pub open spec fn pair_views(v: Seq<(String, String)>) -> Seq<(Seq<char>, Seq<char>)> {
    v.map_values(|e: (String, String)| (e.0@, e.1@))
}

/// Plan the copies of the build artifacts into a directory: for each
/// artifact, its path and the file name it gets there, as the filter of the
/// options says. An artifact that the filter maps to an empty name is
/// skipped.
pub fn plan_artifact_copies(artifacts: &Vec<String>, options: &ProjectOptions) -> (r: Result<Vec<(String, String)>, ArtifactError>)
    ensures
        match copies(views(artifacts@), options@.filter) {
            Some(c) => r is Ok && pair_views(r->Ok_0@) == c,
            None => r matches Err(ArtifactError::InvalidSourceFilename(s)) && path_file_name(s@) is None,
        },
{
    let ghost a = views(artifacts@);
    let mut out: Vec<(String, String)> = Vec::new();
    let mut i: usize = 0;
    assert(a.subrange(0, 0) =~= Seq::<Seq<char>>::empty());
    assert(pair_views(out@) =~= Seq::<(Seq<char>, Seq<char>)>::empty());
    while i < artifacts.len()
        invariant
            a == views(artifacts@),
            i <= artifacts@.len(),
            copies(a.subrange(0, i as int), options@.filter) == Some(pair_views(out@)),
        decreases artifacts@.len() - i,
    {
        assert(a.subrange(0, i + 1).drop_last() =~= a.subrange(0, i as int));
        assert(a.subrange(0, i + 1).last() == artifacts@[i as int]@);
        let src = &artifacts[i];
        let name = match file_name(src.as_str()) {
            Some(n) => n,
            None => {
                proof {
                    lemma_copies_none(a, i + 1, options@.filter);
                }
                return Err(ArtifactError::InvalidSourceFilename(src.clone()));
            },
        };
        let dst = destination_name(&options.filter, name.as_str());
        if dst.as_str().is_empty() {
        } else {
            let ghost before = out@;
            out.push((src.clone(), dst));
            assert(pair_views(out@) =~= pair_views(before).push((src@, destination(options@.filter, name@))));
        }
        i = i + 1;
    }
    assert(a.subrange(0, i as int) =~= a);
    Ok(out)
}

} // verus!
