//! Errors of producing and consuming messages.

use vstd::prelude::*;

use crate::string_map;
use crate::string_map::StringMap;

verus! {

/// Identifies the category of a failure while consuming a Jsync message.
#[derive(Debug, Clone, Copy, PartialEq, Eq, Hash, Structural)]
pub enum JsyncErrorKind {
    /// The three-byte Jsync header is missing or does not identify version 1.
    InvalidHeader,
    /// The message uses a Jsync version newer than the implementation supports.
    UnsupportedVersion,
    /// The payload could not be decoded as CBOR.
    CborDecode,
    /// The payload contains more than one CBOR value.
    TrailingBytes,
    /// The top-level payload is not an array.
    MessageNotArray,
    /// An action element is not an array.
    ActionNotArray,
    /// An action has the wrong number of elements.
    InvalidActionLength,
    /// An action opcode is unknown or malformed.
    UnknownAction,
    /// A CBOR value cannot be represented as a legal JSON value.
    InvalidJsonValue,
    /// A path has an invalid segment or invalid container operation.
    InvalidPath,
    /// A path refers to a missing object key.
    PathParentMissing,
    /// A path traverses a scalar instead of an object or array.
    PathParentNotContainer,
    /// An array insertion index is greater than the array length.
    ArrayIndexOutOfBounds,
    /// Applying an action failed for a general reason.
    ApplyFailed,
    /// The first successfully consumed message did not start with SNAPSHOT.
    InitialSnapshotRequired,
}

/// The name under which a kind is rendered.
pub open spec fn kind_name(kind: JsyncErrorKind) -> Seq<char> {
    match kind {
        JsyncErrorKind::InvalidHeader => "InvalidHeader"@,
        JsyncErrorKind::UnsupportedVersion => "UnsupportedVersion"@,
        JsyncErrorKind::CborDecode => "CborDecode"@,
        JsyncErrorKind::TrailingBytes => "TrailingBytes"@,
        JsyncErrorKind::MessageNotArray => "MessageNotArray"@,
        JsyncErrorKind::ActionNotArray => "ActionNotArray"@,
        JsyncErrorKind::InvalidActionLength => "InvalidActionLength"@,
        JsyncErrorKind::UnknownAction => "UnknownAction"@,
        JsyncErrorKind::InvalidJsonValue => "InvalidJsonValue"@,
        JsyncErrorKind::InvalidPath => "InvalidPath"@,
        JsyncErrorKind::PathParentMissing => "PathParentMissing"@,
        JsyncErrorKind::PathParentNotContainer => "PathParentNotContainer"@,
        JsyncErrorKind::ArrayIndexOutOfBounds => "ArrayIndexOutOfBounds"@,
        JsyncErrorKind::ApplyFailed => "ApplyFailed"@,
        JsyncErrorKind::InitialSnapshotRequired => "InitialSnapshotRequired"@,
    }
}

impl JsyncErrorKind {
    /// Returns the name under which this kind is rendered.
    pub fn name(self) -> (name: &'static str)
        ensures
            name@ == kind_name(self),
    {
        match self {
            JsyncErrorKind::InvalidHeader => "InvalidHeader",
            JsyncErrorKind::UnsupportedVersion => "UnsupportedVersion",
            JsyncErrorKind::CborDecode => "CborDecode",
            JsyncErrorKind::TrailingBytes => "TrailingBytes",
            JsyncErrorKind::MessageNotArray => "MessageNotArray",
            JsyncErrorKind::ActionNotArray => "ActionNotArray",
            JsyncErrorKind::InvalidActionLength => "InvalidActionLength",
            JsyncErrorKind::UnknownAction => "UnknownAction",
            JsyncErrorKind::InvalidJsonValue => "InvalidJsonValue",
            JsyncErrorKind::InvalidPath => "InvalidPath",
            JsyncErrorKind::PathParentMissing => "PathParentMissing",
            JsyncErrorKind::PathParentNotContainer => "PathParentNotContainer",
            JsyncErrorKind::ArrayIndexOutOfBounds => "ArrayIndexOutOfBounds",
            JsyncErrorKind::ApplyFailed => "ApplyFailed",
            JsyncErrorKind::InitialSnapshotRequired => "InitialSnapshotRequired",
        }
    }
}

/// The error type of `anyhow`, which an error may carry as its source.
#[verifier::external_type_specification]
#[verifier::external_body]
pub struct ExAnyhowError(anyhow::Error);

/// Describes a Jsync consumption failure with structured metadata and context.
#[derive(Debug)]
pub struct JsyncError {
    /// The machine-readable category of this error.
    pub kind: JsyncErrorKind,
    /// Key-value details associated with the error, in key order.
    pub metadata: StringMap<String>,
    /// Human-readable locations where the error occurred, from inner to outer.
    pub context: Vec<String>,
    /// The human-readable explanation of the error.
    pub message: String,
    /// The underlying error, when this error wraps another library or operation.
    pub source: Option<anyhow::Error>,
}

/// The mathematical model of an error: all of it but what the source is.
#[verifier::ext_equal]
pub struct ErrorModel {
    /// The category.
    pub kind: JsyncErrorKind,
    /// The explanation.
    pub message: Seq<char>,
    /// The details in key order.
    pub metadata: Seq<(Seq<char>, Seq<char>)>,
    /// The locations, from inner to outer.
    pub context: Seq<Seq<char>>,
    /// Whether a source is attached.
    pub has_source: bool,
}

/// An error with a kind and a message, and nothing else.
pub open spec fn failure(kind: JsyncErrorKind, message: Seq<char>) -> ErrorModel {
    ErrorModel {
        kind,
        message,
        metadata: Seq::empty(),
        context: Seq::empty(),
        has_source: false,
    }
}

impl ErrorModel {
    /// This error with a detail put under a key.
    pub open spec fn with_metadata(self, key: Seq<char>, value: Seq<char>) -> ErrorModel {
        ErrorModel { metadata: string_map::with_entry(self.metadata, key, value), ..self }
    }

    /// This error with one more location.
    pub open spec fn with_context(self, context: Seq<char>) -> ErrorModel {
        ErrorModel { context: self.context.push(context), ..self }
    }

    /// This error with a source.
    pub open spec fn with_source(self) -> ErrorModel {
        ErrorModel { has_source: true, ..self }
    }
}

/// The details of an error as texts.
pub open spec fn detail_views(entries: Seq<(Seq<char>, String)>) -> Seq<(Seq<char>, Seq<char>)> {
    Seq::new(entries.len(), |i: int| (entries[i].0, entries[i].1@))
}

/// The texts of a sequence of strings.
pub open spec fn string_views(strings: Seq<String>) -> Seq<Seq<char>> {
    Seq::new(strings.len(), |i: int| strings[i]@)
}

impl View for JsyncError {
    type V = ErrorModel;

    open spec fn view(&self) -> ErrorModel {
        ErrorModel {
            kind: self.kind,
            message: self.message@,
            metadata: detail_views(self.metadata.entries()),
            context: string_views(self.context@),
            has_source: self.source is Some,
        }
    }
}

proof fn lemma_detail_put(entries: Seq<(Seq<char>, String)>, key: Seq<char>, value: String)
    ensures
        detail_views(string_map::with_entry(entries, key, value)) == string_map::with_entry(
            detail_views(entries),
            key,
            value@,
        ),
{
    let views = detail_views(entries);
    assert(views.len() == entries.len());
    string_map::lemma_slot_keys(entries, views, key);
    string_map::lemma_slot_range(entries, key);
    assert(detail_views(string_map::with_entry(entries, key, value)) =~= string_map::with_entry(
        views,
        key,
        value@,
    ));
}

impl JsyncError {
    /// Creates an error with a kind and human-readable message.
    pub fn new(kind: JsyncErrorKind, message: &str) -> (error: Self)
        ensures
            error@ == failure(kind, message@),
            error.source is None,
    {
        let error = JsyncError {
            kind,
            metadata: StringMap::new(),
            context: Vec::new(),
            message: message.to_string(),
            source: None,
        };
        assert(error@ =~= failure(kind, message@));
        error
    }

    /// Adds a key-value detail and returns the error for fluent construction.
    pub fn with_metadata(self, key: &str, value: &str) -> (error: Self)
        ensures
            error@ == self@.with_metadata(key@, value@),
            error.source == self.source,
    {
        let mut this = self;
        let detail: String = value.to_string();
        proof {
            lemma_detail_put(this.metadata.entries(), key@, detail);
        }
        this.metadata.insert(key.to_string(), detail);
        this
    }

    /// Appends a human-readable error context and returns the error for fluent construction.
    pub fn with_context(self, context: &str) -> (error: Self)
        ensures
            error@ == self@.with_context(context@),
            error.source == self.source,
    {
        let mut this = self;
        this.context.push(context.to_string());
        assert(this@ =~= self@.with_context(context@));
        this
    }

    /// Attaches an underlying error and returns the error for fluent construction.
    pub fn with_source(self, source: anyhow::Error) -> (error: Self)
        ensures
            error@ == self@.with_source(),
            error.source == Some(source),
    {
        let mut this = self;
        this.source = Some(source);
        this
    }
}

/// The values of the first `count` results, or the first error among them.
pub open spec fn gather<T>(results: Seq<Result<T, ErrorModel>>, count: nat) -> Result<
    Seq<T>,
    ErrorModel,
>
    decreases count,
{
    if count == 0 || count > results.len() {
        Ok(Seq::empty())
    } else {
        match gather(results, (count - 1) as nat) {
            Ok(values) => match results[count - 1] {
                Ok(value) => Ok(values.push(value)),
                Err(e) => Err(e),
            },
            Err(e) => Err(e),
        }
    }
}

/// An error among the first results is the first error among all of them.
pub proof fn lemma_gather_error<T>(results: Seq<Result<T, ErrorModel>>, count: nat)
    requires
        count <= results.len(),
        gather(results, count) is Err,
    ensures
        gather(results, results.len()) == gather(results, count),
    decreases results.len() - count,
{
    if count < results.len() {
        lemma_gather_error(results, count + 1);
    }
}

/// Without an error, the values are gathered one for one.
pub proof fn lemma_gather_values<T>(results: Seq<Result<T, ErrorModel>>, values: Seq<T>, count: nat)
    requires
        count <= results.len() == values.len(),
        forall|i: int| 0 <= i < count ==> #[trigger] results[i] == Ok::<T, ErrorModel>(values[i]),
    ensures
        gather(results, count) == Ok::<Seq<T>, ErrorModel>(values.take(count as int)),
    decreases count,
{
    if count > 0 {
        lemma_gather_values(results, values, (count - 1) as nat);
        assert(results[count - 1] == Ok::<T, ErrorModel>(values[count - 1]));
        assert(values.take(count - 1).push(values[count - 1]) =~= values.take(count as int));
    } else {
        assert(values.take(0) =~= Seq::empty());
    }
}

/// A result whose error, if it is one, has one more location.
pub open spec fn in_context<T>(result: Result<T, ErrorModel>, context: Seq<char>) -> Result<
    T,
    ErrorModel,
> {
    match result {
        Ok(value) => Ok(value),
        Err(e) => Err(e.with_context(context)),
    }
}

/// Adds a location to the error of a result.
pub fn add_context<T>(result: Result<T, JsyncError>, context: &str) -> (with: Result<T, JsyncError>)
    ensures
        match result {
            Ok(value) => with == Ok::<T, JsyncError>(value),
            Err(e) => with matches Err(f) && f@ == e@.with_context(context@),
        },
{
    match result {
        Ok(value) => Ok(value),
        Err(e) => Err(e.with_context(context)),
    }
}

/// The locations of an error, the outermost first, each followed by a colon.
pub open spec fn context_text(context: Seq<Seq<char>>) -> Seq<char>
    decreases context.len(),
{
    if context.len() == 0 {
        Seq::empty()
    } else {
        context.last() + ": "@ + context_text(context.drop_last())
    }
}

/// The details of an error as `key=value`, separated by commas.
pub open spec fn details_text(details: Seq<(Seq<char>, Seq<char>)>) -> Seq<char>
    decreases details.len(),
{
    if details.len() == 0 {
        Seq::empty()
    } else {
        let separator = if details.len() == 1 {
            Seq::empty()
        } else {
            ", "@
        };
        details_text(details.drop_last()) + separator + details.last().0 + "="@ + details.last().1
    }
}

/// The rendering of an error: locations, kind, message, details, and the text of the source.
pub open spec fn rendering(error: ErrorModel, source: Option<Seq<char>>) -> Seq<char> {
    let details = if error.metadata.len() == 0 {
        Seq::empty()
    } else {
        " ("@ + details_text(error.metadata) + ")"@
    };
    let cause = match source {
        Some(text) => " Source: "@ + text,
        None => Seq::empty(),
    };
    context_text(error.context) + "("@ + kind_name(error.kind) + ") "@ + error.message + details
        + cause
}

/// Formats an `anyhow::Error` with `{:#}`, which writes its message and those of its causes.
/// Nothing is stated of the text: the source is opaque.
#[verifier::external_body]
fn source_text(source: &anyhow::Error) -> String {
    format!("{source:#}")
}

impl JsyncError {
    fn render_context(&self) -> (rendered: String)
        ensures
            rendered@ == context_text(self@.context),
    {
        let ghost locations = self@.context;
        let mut rendered: String = String::new();
        let mut i: usize = self.context.len();
        assert(locations.take(i as int) =~= locations);
        while i > 0
            invariant
                i <= self.context@.len(),
                locations == string_views(self.context@),
                context_text(locations) == rendered@ + context_text(locations.take(i as int)),
            decreases i,
        {
            let ghost rest = locations.take(i as int);
            i = i - 1;
            rendered.append(self.context[i].as_str());
            rendered.append(": ");
            assert(rest.drop_last() =~= locations.take(i as int));
            assert(rest.last() == self.context@[i as int]@);
            assert(context_text(locations) =~= rendered@ + context_text(locations.take(i as int)));
        }
        assert(rendered@ =~= context_text(locations));
        rendered
    }

    fn render_details(&self) -> (rendered: String)
        ensures
            rendered@ == details_text(self@.metadata),
    {
        let ghost details = self@.metadata;
        let mut rendered: String = String::new();
        let count: usize = self.metadata.len();
        let mut i: usize = 0;
        assert(details.take(0) =~= Seq::empty());
        while i < count
            invariant
                i <= count == details.len(),
                details == detail_views(self.metadata.entries()),
                rendered@ == details_text(details.take(i as int)),
            decreases count - i,
        {
            let ghost next = details.take(i as int + 1);
            assert(next.drop_last() =~= details.take(i as int));
            assert(next.last() == details[i as int]);
            if i > 0 {
                rendered.append(", ");
            }
            rendered.append(self.metadata.key_at(i).as_str());
            rendered.append("=");
            rendered.append(self.metadata.value_at(i).as_str());
            i = i + 1;
            assert(rendered@ =~= details_text(next));
        }
        assert(details.take(i as int) =~= details);
        rendered
    }

    /// Renders context, kind, metadata, and the given text of the source error.
    pub fn render(&self, source: Option<&str>) -> (rendered: String)
        ensures
            rendered@ == rendering(
                self@,
                match source {
                    Some(text) => Some(text@),
                    None => None,
                },
            ),
    {
        let mut rendered: String = self.render_context();
        rendered.append("(");
        rendered.append(self.kind.name());
        rendered.append(") ");
        rendered.append(self.message.as_str());
        if !self.metadata.is_empty() {
            rendered.append(" (");
            rendered.append(self.render_details().as_str());
            rendered.append(")");
        }
        if let Some(text) = source {
            rendered.append(" Source: ");
            rendered.append(text);
        }
        assert(rendered@ =~= rendering(
            self@,
            match source {
                Some(text) => Some(text@),
                None => None,
            },
        ));
        rendered
    }

    /// Renders context, kind, metadata, and the optional source error.
    ///
    /// The text of the source comes from the source itself and is not pinned down here.
    pub fn to_string(&self) -> (rendered: String)
        ensures
            self.source is None ==> rendered@ == rendering(self@, None),
            self.source is Some ==> exists|text: Seq<char>|
                rendered@ == #[trigger] rendering(self@, Some(text)),
    {
        match &self.source {
            Some(source) => {
                let text: String = source_text(source);
                let rendered = self.render(Some(text.as_str()));
                assert(rendered@ == rendering(self@, Some(text@)));
                rendered
            },
            None => self.render(None),
        }
    }
}

} // verus!
