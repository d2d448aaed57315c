//! The syntax model: positions, parameters, action requests, segments and
//! queries, with the canonical text of each.
use crate::error::{Error, ErrorModel};
use crate::escape::{escaped, push_escaped};
use crate::text::{decimal, i32_of, parse_i32, push_decimal, push_text};
use vstd::slice::slice_subrange;
use vstd::prelude::*;
use vstd::string::StringExecFns;

verus! {

/// A place in the query text. `line` 0 stands for an unknown place.
#[derive(Debug, Clone, Copy, PartialEq, Eq)]
pub struct Position {
    pub offset: usize,
    pub line: u32,
    pub column: usize,
}

impl Position {
    /// The position that stands for an unknown place.
    pub open spec fn unknown_position() -> Position {
        Position { offset: 0, line: 0, column: 0 }
    }

    /// How the position reads: the column alone on the first line, line and
    /// column on later ones.
    pub open spec fn text(self) -> Seq<char> {
        if self.line == 0 {
            "(unknown position)"@
        } else if self.line > 1 {
            "line "@ + decimal(self.line as nat) + ", position "@ + decimal(self.column as nat)
        } else {
            "position "@ + decimal(self.column as nat)
        }
    }

    /// The position that stands for an unknown place.
    pub fn unknown() -> (p: Position)
        ensures
            p == Position::unknown_position(),
    {
        Position { offset: 0, line: 0, column: 0 }
    }

    /// How the position reads.
    pub fn to_string(&self) -> (s: String)
        ensures
            s@ == self.text(),
    {
        if self.line == 0 {
            String::from_str("(unknown position)")
        } else if self.line > 1 {
            let mut s = String::from_str("line ");
            push_decimal(&mut s, self.line as usize);
            push_text(&mut s, ", position ");
            push_decimal(&mut s, self.column);
            s
        } else {
            let mut s = String::from_str("position ");
            push_decimal(&mut s, self.column);
            s
        }
    }
}

/// One parameter of an action. `Link` is reserved: nothing writes or reads it yet.
#[derive(Debug)]
pub enum ActionParameter {
    String(String, Position),
    Link(String, Position),
}

/// An `ActionParameter` with its text as a sequence of characters.
pub enum ParameterModel {
    Text(Seq<char>, Position),
    Link(Seq<char>, Position),
}

impl ParameterModel {
    /// The text of the parameter, as it is.
    pub open spec fn content(self) -> Seq<char> {
        match self {
            ParameterModel::Text(s, _) => s,
            ParameterModel::Link(s, _) => s,
        }
    }

    /// The canonical text of a `Text` parameter: its content, escaped.
    pub open spec fn encoded(self) -> Seq<char>
        recommends
            self is Text,
    {
        escaped(self.content())
    }
}

impl View for ActionParameter {
    type V = ParameterModel;

    open spec fn view(&self) -> ParameterModel {
        match *self {
            ActionParameter::String(s, p) => ParameterModel::Text(s@, p),
            ActionParameter::Link(s, p) => ParameterModel::Link(s@, p),
        }
    }
}

impl Clone for ActionParameter {
    fn clone(&self) -> (r: Self)
        ensures
            r@ == self@,
    {
        match self {
            ActionParameter::String(s, p) => ActionParameter::String(s.clone(), *p),
            ActionParameter::Link(s, p) => ActionParameter::Link(s.clone(), *p),
        }
    }
}

impl ActionParameter {
    /// A `String` parameter with the text `parameter`, at an unknown place.
    pub fn new(parameter: &str) -> (r: ActionParameter)
        ensures
            r@ == ParameterModel::Text(parameter@, Position::unknown_position()),
    {
        ActionParameter::String(String::from_str(parameter), Position::unknown())
    }

    /// A `String` parameter with the text `parameter`, found at `position`.
    pub fn new_parsed(parameter: String, position: Position) -> (r: ActionParameter)
        ensures
            r@ == ParameterModel::Text(parameter@, position),
    {
        ActionParameter::String(parameter, position)
    }

    /// The text of the parameter, as it is.
    pub fn to_string(&self) -> (s: String)
        ensures
            s@ == self@.content(),
    {
        match self {
            ActionParameter::String(s, _) => s.clone(),
            ActionParameter::Link(s, _) => s.clone(),
        }
    }

    /// The canonical text of the parameter: its text, escaped. A `Link`
    /// has none.
    pub fn encode(&self) -> (s: String)
        requires
            self@ is Text,
        ensures
            s@ == self@.encoded(),
    {
        let mut out = String::new();
        match self {
            ActionParameter::String(s, _) => {
                push_escaped(&mut out, s.as_str());
            },
            ActionParameter::Link(s, _) => {},
        }
        out
    }
}

/// The models of the parameters in `v`, in order.
pub open spec fn parameter_models(v: Seq<ActionParameter>) -> Seq<ParameterModel> {
    Seq::new(v.len(), |i: int| v[i]@)
}

/// Every parameter is a `Text`.
pub open spec fn all_text(parameters: Seq<ParameterModel>) -> bool {
    forall|i: int| 0 <= i < parameters.len() ==> (#[trigger] parameters[i]) is Text
}

/// The parameters as they follow a name: each behind a `-`.
pub open spec fn encoded_parameters(parameters: Seq<ParameterModel>) -> Seq<char>
    decreases parameters.len(),
{
    if parameters.len() == 0 {
        Seq::empty()
    } else {
        encoded_parameters(parameters.drop_last()) + seq!['-'] + parameters.last().encoded()
    }
}

fn push_parameters(out: &mut String, parameters: &Vec<ActionParameter>)
    requires
        all_text(parameter_models(parameters@)),
    ensures
        final(out)@ == old(out)@ + encoded_parameters(parameter_models(parameters@)),
{
    let ghost models = parameter_models(parameters@);
    let mut i: usize = 0;
    while i < parameters.len()
        invariant
            i <= parameters.len(),
            models == parameter_models(parameters@),
            all_text(models),
            out@ == old(out)@ + encoded_parameters(models.take(i as int)),
        decreases parameters.len() - i,
    {
        proof {
            assert(models.take(i + 1).drop_last() == models.take(i as int));
            assert(models.take(i + 1).last() == parameters@[i as int]@);
            assert(models[i as int] is Text);
        }
        out.push('-');
        match &parameters[i] {
            ActionParameter::String(s, _) => {
                push_escaped(out, s.as_str());
            },
            ActionParameter::Link(s, _) => {},
        }
        i += 1;
    }
    assert(models.take(i as int) == models);
}

fn clone_parameters(parameters: &Vec<ActionParameter>) -> (r: Vec<ActionParameter>)
    ensures
        parameter_models(r@) == parameter_models(parameters@),
{
    let mut r: Vec<ActionParameter> = Vec::new();
    let mut i: usize = 0;
    while i < parameters.len()
        invariant
            i <= parameters.len(),
            r.len() == i,
            forall|k: int| 0 <= k < i ==> (#[trigger] r@[k])@ == parameters@[k]@,
        decreases parameters.len() - i,
    {
        r.push(parameters[i].clone());
        i += 1;
    }
    assert(parameter_models(r@) =~= parameter_models(parameters@));
    r
}

/// One invocation: a name and its parameters, as in `name-first-second`.
#[derive(Debug)]
pub struct ActionRequest {
    pub name: String,
    pub position: Position,
    pub parameters: Vec<ActionParameter>,
}

/// An `ActionRequest` with its texts as sequences of characters.
pub struct RequestModel {
    pub name: Seq<char>,
    pub position: Position,
    pub parameters: Seq<ParameterModel>,
}

impl RequestModel {
    /// The canonical text: the name, then each parameter behind a `-`.
    pub open spec fn encoded(self) -> Seq<char> {
        self.name + encoded_parameters(self.parameters)
    }
}

impl View for ActionRequest {
    type V = RequestModel;

    open spec fn view(&self) -> RequestModel {
        RequestModel {
            name: self.name@,
            position: self.position,
            parameters: parameter_models(self.parameters@),
        }
    }
}

impl Clone for ActionRequest {
    fn clone(&self) -> (r: Self)
        ensures
            r@ == self@,
    {
        ActionRequest {
            name: self.name.clone(),
            position: self.position,
            parameters: clone_parameters(&self.parameters),
        }
    }
}

impl ActionRequest {
    /// The canonical text of the request.
    pub fn encode(&self) -> (s: String)
        requires
            all_text(self@.parameters),
        ensures
            s@ == self@.encoded(),
    {
        let mut out = self.name.clone();
        push_parameters(&mut out, &self.parameters);
        out
    }
}

/// The models of the requests in `v`, in order.
pub open spec fn request_models(v: Seq<ActionRequest>) -> Seq<RequestModel> {
    Seq::new(v.len(), |i: int| v[i]@)
}

/// Every parameter of every request is a `Text`.
pub open spec fn path_all_text(path: Seq<RequestModel>) -> bool {
    forall|i: int| 0 <= i < path.len() ==> all_text((#[trigger] path[i]).parameters)
}

/// The requests, with a `/` between neighbours.
pub open spec fn encoded_path(path: Seq<RequestModel>) -> Seq<char>
    decreases path.len(),
{
    if path.len() == 0 {
        Seq::empty()
    } else if path.len() == 1 {
        path[0].encoded()
    } else {
        encoded_path(path.drop_last()) + seq!['/'] + path.last().encoded()
    }
}

/// The canonical text of a path of requests.
pub fn encode_path(path: &Vec<ActionRequest>) -> (s: String)
    requires
        path_all_text(request_models(path@)),
    ensures
        s@ == encoded_path(request_models(path@)),
{
    let ghost models = request_models(path@);
    let mut out = String::new();
    let mut i: usize = 0;
    while i < path.len()
        invariant
            i <= path.len(),
            models == request_models(path@),
            path_all_text(models),
            out@ == encoded_path(models.take(i as int)),
        decreases path.len() - i,
    {
        proof {
            assert(models.take(i + 1).drop_last() == models.take(i as int));
            assert(models.take(i + 1).last() == path@[i as int]@);
            assert(all_text(models[i as int].parameters));
            if i == 0 {
                assert(models.take(1)[0] == path@[0]@);
            }
        }
        if i > 0 {
            out.push('/');
        }
        let item = path[i].encode();
        push_text(&mut out, item.as_str());
        i += 1;
    }
    assert(models.take(i as int) == models);
    out
}

/// The head of a segment: its level (the number of leading `-`), and
/// optionally a name with parameters.
#[derive(Debug)]
pub struct SegmentHeader {
    pub name: String,
    pub level: usize,
    pub position: Position,
    pub parameters: Vec<ActionParameter>,
}

/// A `SegmentHeader` with its texts as sequences of characters.
pub struct HeaderModel {
    pub name: Seq<char>,
    pub level: nat,
    pub position: Position,
    pub parameters: Seq<ParameterModel>,
}

/// `n` times the character `-`.
pub open spec fn dashes(n: nat) -> Seq<char> {
    Seq::new(n, |i: int| '-')
}

impl HeaderModel {
    /// A header can be written: its level is at least 1, parameters come
    /// only with a name, and each is a `Text`.
    pub open spec fn writable(self) -> bool {
        &&& self.level >= 1
        &&& self.parameters.len() > 0 ==> self.name.len() > 0
        &&& all_text(self.parameters)
    }

    /// The canonical text: `level` times `-`, the name, then each parameter
    /// behind a `-`.
    pub open spec fn encoded(self) -> Seq<char> {
        dashes(self.level) + self.name + encoded_parameters(self.parameters)
    }
}

impl View for SegmentHeader {
    type V = HeaderModel;

    open spec fn view(&self) -> HeaderModel {
        HeaderModel {
            name: self.name@,
            level: self.level as nat,
            position: self.position,
            parameters: parameter_models(self.parameters@),
        }
    }
}

impl Clone for SegmentHeader {
    fn clone(&self) -> (r: Self)
        ensures
            r@ == self@,
    {
        SegmentHeader {
            name: self.name.clone(),
            level: self.level,
            position: self.position,
            parameters: clone_parameters(&self.parameters),
        }
    }
}

impl SegmentHeader {
    /// A header without a name, found at `position`.
    pub fn new_parsed_minimal(level: usize, position: Position) -> (r: Self)
        ensures
            r@ == (HeaderModel {
                name: Seq::empty(),
                level: level as nat,
                position,
                parameters: Seq::empty(),
            }),
    {
        let r = SegmentHeader {
            name: String::new(),
            level: level,
            position: position,
            parameters: Vec::new(),
        };
        assert(r@.parameters =~= Seq::empty());
        r
    }

    /// A header found at `position`, with the name and the parameters of
    /// `action_request`.
    pub fn new_parsed_from_action_request(
        level: usize,
        position: Position,
        action_request: &ActionRequest,
    ) -> (r: Self)
        ensures
            r@ == (HeaderModel {
                name: action_request@.name,
                level: level as nat,
                position,
                parameters: action_request@.parameters,
            }),
    {
        SegmentHeader {
            name: action_request.name.clone(),
            level: level,
            position: position,
            parameters: clone_parameters(&action_request.parameters),
        }
    }

    /// The canonical text of the header.
    pub fn encode(&self) -> (s: String)
        requires
            self@.writable(),
        ensures
            s@ == self@.encoded(),
    {
        let mut encoded = String::new();
        let mut i: usize = 0;
        while i < self.level
            invariant
                i <= self.level,
                encoded@ == dashes(i as nat),
            decreases self.level - i,
        {
            encoded.push('-');
            assert(dashes(i as nat).push('-') =~= dashes((i + 1) as nat));
            i += 1;
        }
        push_text(&mut encoded, self.name.as_str());
        push_parameters(&mut encoded, &self.parameters);
        encoded
    }
}

/// A segment of a query: a header, a path of requests, or both.
#[derive(Debug)]
pub struct QuerySegment {
    pub header: Option<SegmentHeader>,
    pub query: Vec<ActionRequest>,
}

/// A `QuerySegment` with its texts as sequences of characters.
pub struct SegmentModel {
    pub header: Option<HeaderModel>,
    pub path: Seq<RequestModel>,
}

impl SegmentModel {
    /// The header, if there is one, can be written, and so can every request.
    pub open spec fn writable(self) -> bool {
        &&& self.header matches Some(h) ==> h.writable()
        &&& path_all_text(self.path)
    }

    /// The canonical text: the header, a `/` where a path follows it, the path.
    pub open spec fn encoded(self) -> Seq<char> {
        let path = encoded_path(self.path);
        match self.header {
            Some(h) => if path.len() == 0 {
                h.encoded()
            } else {
                h.encoded() + seq!['/'] + path
            },
            None => path,
        }
    }
}

impl View for QuerySegment {
    type V = SegmentModel;

    open spec fn view(&self) -> SegmentModel {
        SegmentModel {
            header: match self.header {
                Some(h) => Some(h@),
                None => None,
            },
            path: request_models(self.query@),
        }
    }
}

impl QuerySegment {
    /// A segment without a header and with an empty path.
    pub fn new() -> (r: QuerySegment)
        ensures
            r@ == (SegmentModel { header: None, path: Seq::empty() }),
    {
        let r = QuerySegment { header: None, query: Vec::new() };
        assert(r@.path =~= Seq::empty());
        r
    }

    /// The segment with that header and that path.
    pub fn new_from(header: Option<SegmentHeader>, query: Vec<ActionRequest>) -> (r: QuerySegment)
        ensures
            r.header == header,
            r.query == query,
    {
        QuerySegment { header: header, query: query }
    }

    /// The canonical text of the segment.
    pub fn encode(&self) -> (s: String)
        requires
            self@.writable(),
        ensures
            s@ == self@.encoded(),
    {
        let query = encode_path(&self.query);
        match &self.header {
            Some(header) => {
                let mut out = header.encode();
                if query.as_str().is_empty() {
                    out
                } else {
                    out.push('/');
                    push_text(&mut out, query.as_str());
                    out
                }
            },
            None => query,
        }
    }
}

/// A query: its segments, in order.
#[derive(Debug)]
pub struct Query {
    pub segments: Vec<QuerySegment>,
}

/// The models of the segments in `v`, in order.
pub open spec fn segment_models(v: Seq<QuerySegment>) -> Seq<SegmentModel> {
    Seq::new(v.len(), |i: int| v[i]@)
}

/// Every segment can be written.
pub open spec fn all_writable(segments: Seq<SegmentModel>) -> bool {
    forall|i: int| 0 <= i < segments.len() ==> (#[trigger] segments[i]).writable()
}

/// The segments, with a `/` between neighbours.
pub open spec fn encoded_segments(segments: Seq<SegmentModel>) -> Seq<char>
    decreases segments.len(),
{
    if segments.len() == 0 {
        Seq::empty()
    } else if segments.len() == 1 {
        segments[0].encoded()
    } else {
        encoded_segments(segments.drop_last()) + seq!['/'] + segments.last().encoded()
    }
}

impl View for Query {
    type V = Seq<SegmentModel>;

    open spec fn view(&self) -> Seq<SegmentModel> {
        segment_models(self.segments@)
    }
}

impl Query {
    /// The query without a segment.
    pub fn new() -> (r: Query)
        ensures
            r@ == Seq::<SegmentModel>::empty(),
    {
        let r = Query { segments: Vec::new() };
        assert(r@ =~= Seq::empty());
        r
    }

    /// The segment that `add_segment` appends for `name`: a header of level 1
    /// with that name, and no path.
    pub open spec fn named_segment(name: Seq<char>) -> SegmentModel {
        SegmentModel {
            header: Some(
                HeaderModel {
                    name,
                    level: 1,
                    position: Position::unknown_position(),
                    parameters: Seq::empty(),
                },
            ),
            path: Seq::empty(),
        }
    }

    /// Appends a segment with a header of level 1 and the name `name`, and
    /// hands it out to be filled.
    pub fn add_segment(&mut self, name: &str) -> (segment: &mut QuerySegment)
        ensures
            segment@ == Query::named_segment(name@),
            final(self).segments@ == old(self).segments@.push(*final(segment)),
    {
        let header = SegmentHeader {
            name: String::from_str(name),
            level: 1,
            position: Position::unknown(),
            parameters: Vec::new(),
        };
        assert(header@.parameters =~= Seq::empty());
        let qs = QuerySegment::new_from(Some(header), Vec::new());
        assert(qs@.path =~= Seq::empty());
        self.segments.push(qs);
        let n = self.segments.len();
        &mut self.segments[n - 1]
    }

    /// The canonical text of the query.
    pub fn encode(&self) -> (s: String)
        requires
            all_writable(self@),
        ensures
            s@ == encoded_segments(self@),
    {
        let ghost models = self@;
        let mut out = String::new();
        let mut i: usize = 0;
        while i < self.segments.len()
            invariant
                i <= self.segments.len(),
                models == segment_models(self.segments@),
                all_writable(models),
                out@ == encoded_segments(models.take(i as int)),
            decreases self.segments.len() - i,
        {
            proof {
                assert(models.take(i + 1).drop_last() == models.take(i as int));
                assert(models.take(i + 1).last() == self.segments@[i as int]@);
                assert(models[i as int].writable());
                if i == 0 {
                    assert(models.take(1)[0] == self.segments@[0]@);
                }
            }
            if i > 0 {
                out.push('/');
            }
            let item = self.segments[i].encode();
            push_text(&mut out, item.as_str());
            i += 1;
        }
        assert(models.take(i as int) == models);
        out
    }
}

/// A cursor over the parameters of an action: what is left to take.
#[derive(Debug)]
pub struct ActionParametersSlice<'a>(pub &'a [ActionParameter]);

/// What can evaluate a query text on a value.
pub trait Environment<T> {
    fn eval(&mut self, input: T, query: &str) -> Result<T, Error>;
}

/// What can hand out its next parameter as a `T`.
pub trait TryActionParametersInto<T, E> {
    fn try_parameters_into(&mut self, env: &mut E) -> Result<T, Error>;
}

/// A result with its message as a sequence of characters.
pub open spec fn reading<T>(r: Result<T, String>) -> Result<T, Seq<char>> {
    match r {
        Ok(v) => Ok(v),
        Err(message) => Err(message@),
    }
}

/// A native type that a parameter's text can be read as.
pub trait TryParameterFrom: Sized {
    /// Whether reading `text` gives `outcome`: the value, or the message that
    /// says why there is none.
    spec fn reads(text: Seq<char>, outcome: Result<Self, Seq<char>>) -> bool;

    fn try_parameter_from(text: &str) -> (r: Result<Self, String>)
        ensures
            Self::reads(text@, reading(r)),
    ;
}

/// The message for a text that writes no `i32`.
pub open spec fn not_an_integer(text: Seq<char>) -> Seq<char> {
    "Can't parse '"@ + text + "' as integer"@
}

impl TryParameterFrom for i32 {
    /// A decimal number that fits is read as its value; every other text
    /// gives the message.
    open spec fn reads(text: Seq<char>, outcome: Result<i32, Seq<char>>) -> bool {
        outcome == match i32_of(text) {
            Some(v) => Ok::<i32, Seq<char>>(v),
            None => Err::<i32, Seq<char>>(not_an_integer(text)),
        }
    }

    fn try_parameter_from(text: &str) -> (r: Result<i32, String>) {
        match parse_i32(text) {
            Some(v) => Ok(v),
            None => {
                let mut message = String::from_str("Can't parse '");
                push_text(&mut message, text);
                push_text(&mut message, "' as integer");
                Err(message)
            },
        }
    }
}

impl TryParameterFrom for String {
    /// Every text is read as itself.
    open spec fn reads(text: Seq<char>, outcome: Result<String, Seq<char>>) -> bool {
        outcome matches Ok(s) && s@ == text
    }

    fn try_parameter_from(text: &str) -> (r: Result<String, String>) {
        Ok(String::from_str(text))
    }
}

/// Whether taking the next of `parameters` as a `T` gives `outcome`: with
/// none left, `ArgumentNotSpecified`; the first, if it is a `Text`, read as a
/// `T`, or a `ParameterError` with the message of the reading and the
/// parameter's position; for a `Link`, `General`.
pub open spec fn takes<T: TryParameterFrom>(
    parameters: Seq<ParameterModel>,
    outcome: Result<T, ErrorModel>,
) -> bool {
    if parameters.len() == 0 {
        outcome == Err::<T, ErrorModel>(ErrorModel::ArgumentNotSpecified)
    } else {
        match parameters[0] {
            ParameterModel::Text(text, position) => match outcome {
                Ok(v) => T::reads(text, Ok(v)),
                Err(ErrorModel::ParameterError { message, position: p }) => p == position
                    && T::reads(text, Err(message)),
                Err(_) => false,
            },
            ParameterModel::Link(_, _) => outcome == Err::<T, ErrorModel>(
                ErrorModel::General { message: "Not implemented"@ },
            ),
        }
    }
}

/// A result with its error as a model.
pub open spec fn outcome_model<T>(r: Result<T, Error>) -> Result<T, ErrorModel> {
    match r {
        Ok(v) => Ok(v),
        Err(e) => Err(e@),
    }
}

impl<'a, T, E> TryActionParametersInto<T, E> for ActionParametersSlice<'a> where
    T: TryParameterFrom,
 {
    /// Takes the next parameter as a `T`. The cursor moves on only where a
    /// value comes back.
    fn try_parameters_into(&mut self, env: &mut E) -> (r: Result<T, Error>)
        ensures
            takes::<T>(parameter_models(old(self).0@), outcome_model(r)),
            r is Ok ==> final(self).0@ == old(self).0@.skip(1),
            r is Err ==> final(self).0@ == old(self).0@,
            *final(env) == *old(env),
    {
        if self.0.len() == 0 {
            Err(Error::ArgumentNotSpecified)
        } else {
            match &self.0[0] {
                ActionParameter::String(x, position) => {
                    match T::try_parameter_from(x.as_str()) {
                        Ok(v) => {
                            let rest = slice_subrange(self.0, 1, self.0.len());
                            assert(rest@ =~= self.0@.skip(1));
                            self.0 = rest;
                            Ok(v)
                        },
                        Err(message) => Err(
                            Error::ParameterError { message, position: *position },
                        ),
                    }
                },
                ActionParameter::Link(_, _) => Err(
                    Error::General { message: String::from_str("Not implemented") },
                ),
            }
        }
    }
}

} // verus!
