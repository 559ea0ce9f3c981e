//! What the tool server offers: the tools, their arguments, and the options a search
//! takes.
use vstd::prelude::*;
use vstd::string::*;
use crate::json::{
    add_item, add_member, item_shapes, list, member_shapes, no_items, no_members, number, object,
    set_member, string, strings, text_shapes, with_member, Json, Shape,
};
use crate::options::{format_names, formats, OptionType};
use crate::replies::{structured, tool_json};
use crate::scan::{join, join_strings};
use crate::text::{str_eq, views};

verus! {

/// Longest a reading call may wait, in seconds: short, so that it stays well inside
/// any client's limit.
pub const MAX_WAIT_SECS: u64 = 15;

/// How long a reading call waits when nothing is said.
pub const DEFAULT_WAIT_SECS: u64 = 10;

/// An option as a tool's argument.
#[derive(Debug)]
pub struct ToolOption {
    pub name: String,
    pub label: String,
    pub help: String,
    pub kind: OptionType,
    pub min: Option<Json>,
    pub max: Option<Json>,
    pub values: Option<Vec<String>>,
    /// What each value is called, in the order of the values.
    pub value_labels: Option<Vec<String>>,
    pub default: Json,
    /// A count that may also be left to the run.
    pub auto: bool,
}

/// A group of options.
#[derive(Debug)]
pub struct ToolGroup {
    pub id: String,
    pub options: Vec<ToolOption>,
}

// ------------------------------------------------------------------ options --

/// A value, or null.
pub open spec fn or_null(v: Option<Json>) -> Shape {
    match v {
        Some(j) => j.shape(),
        None => Shape::Null,
    }
}

fn copy_or_null(v: &Option<Json>) -> (r: Json)
    ensures
        r.shape() == or_null(*v),
{
    match v {
        Some(j) => j.copy(),
        None => Json::Null,
    }
}

fn string_list(v: &Vec<String>) -> (r: Json)
    ensures
        r.shape() == Shape::List(text_shapes(views(v@))),
{
    let mut out = no_items();
    let mut i: usize = 0;
    assert(text_shapes(views(v@)).take(0) =~= Seq::<Shape>::empty());
    while i < v.len()
        invariant
            i <= v@.len(),
            item_shapes(out@) == text_shapes(views(v@)).take(i as int),
        decreases v@.len() - i,
    {
        add_item(&mut out, string(v[i].as_str()));
        assert(text_shapes(views(v@)).take(i + 1) =~= text_shapes(views(v@)).take(i as int).push(
            Shape::Text(v@[i as int]@),
        ));
        i += 1;
    }
    assert(text_shapes(views(v@)).take(i as int) =~= text_shapes(views(v@)));
    list(out)
}

/// Each value with what it is called, as far as both go.
pub open spec fn named_values(values: Seq<Seq<char>>, labels: Seq<Seq<char>>, n: int) -> Seq<
    Seq<char>,
>
    decreases n,
{
    if n <= 0 {
        Seq::empty()
    } else {
        named_values(values, labels, n - 1).push(values[n - 1] + " = "@ + labels[n - 1])
    }
}

/// What an option's description says: what it is called, what it does, and what its
/// values are called.
pub open spec fn described(o: ToolOption) -> Seq<char> {
    o.label@ + " "@ + o.help@ + (match (o.values, o.value_labels) {
        (Some(v), Some(l)) => " Values: "@ + join(
            named_values(
                views(v@),
                views(l@),
                if v@.len() < l@.len() {
                    v@.len() as int
                } else {
                    l@.len() as int
                },
            ),
            ", "@,
        ) + "."@,
        _ => ""@,
    })
}

fn name_values(v: &Vec<String>, l: &Vec<String>) -> (r: Vec<String>)
    ensures
        views(r@) == named_values(
            views(v@),
            views(l@),
            if v@.len() < l@.len() {
                v@.len() as int
            } else {
                l@.len() as int
            },
        ),
{
    let n: usize = if v.len() < l.len() {
        v.len()
    } else {
        l.len()
    };
    let mut out: Vec<String> = Vec::new();
    let mut i: usize = 0;
    assert(views(out@) =~= Seq::<Seq<char>>::empty());
    while i < n
        invariant
            i <= n,
            n <= v@.len(),
            n <= l@.len(),
            views(out@) == named_values(views(v@), views(l@), i as int),
        decreases n - i,
    {
        let mut s = v[i].as_str().to_owned();
        s.append(" = ");
        s.append(l[i].as_str());
        let ghost before = views(out@);
        let ghost text = s@;
        out.push(s);
        assert(views(out@) =~= before.push(text));
        i += 1;
    }
    out
}

fn describe(o: &ToolOption) -> (s: String)
    ensures
        s@ == described(*o),
{
    let mut s = o.label.as_str().to_owned();
    s.append(" ");
    s.append(o.help.as_str());
    let mut tail = "".to_owned();
    if let Some(v) = &o.values {
        if let Some(l) = &o.value_labels {
            let named = name_values(v, l);
            tail = " Values: ".to_owned();
            let joined = join_strings(&named, ", ");
            tail.append(joined.as_str());
            tail.append(".");
        }
    }
    s.append(tail.as_str());
    s
}

/// A count in the option's range.
pub open spec fn counted_type(o: ToolOption) -> Shape {
    Shape::Object(
        seq![
            ("maximum"@, or_null(o.max)),
            ("minimum"@, or_null(o.min)),
            ("type"@, Shape::Text("integer"@)),
        ],
    )
}

/// The word that leaves a count to the run.
pub open spec fn auto_type() -> Shape {
    Shape::Object(
        seq![
            ("enum"@, Shape::List(seq![Shape::Text("auto"@)])),
            ("type"@, Shape::Text("string"@)),
        ],
    )
}

/// The schema of an option: its default and description, and what it accepts.
pub open spec fn option_shape(o: ToolOption) -> Shape {
    let default = ("default"@, o.default.shape());
    let description = ("description"@, Shape::Text(described(o)));
    Shape::Object(
        match o.kind {
            OptionType::Integer => if o.auto {
                seq![
                    ("anyOf"@, Shape::List(seq![counted_type(o), auto_type()])),
                    default,
                    description,
                ]
            } else {
                seq![
                    default,
                    description,
                    ("maximum"@, or_null(o.max)),
                    ("minimum"@, or_null(o.min)),
                    ("type"@, Shape::Text("integer"@)),
                ]
            },
            OptionType::Number => seq![
                default,
                description,
                ("maximum"@, or_null(o.max)),
                ("minimum"@, or_null(o.min)),
                ("type"@, Shape::Text("number"@)),
            ],
            OptionType::Boolean => seq![
                default,
                description,
                ("type"@, Shape::Text("boolean"@)),
            ],
            OptionType::Enum => seq![
                default,
                description,
                (
                    "enum"@,
                    match o.values {
                        Some(v) => Shape::List(text_shapes(views(v@))),
                        None => Shape::Null,
                    },
                ),
                ("type"@, Shape::Text("string"@)),
            ],
            OptionType::String => seq![
                default,
                description,
                ("type"@, Shape::Text("string"@)),
            ],
        },
    )
}

fn counted(o: &ToolOption) -> (r: Json)
    ensures
        r.shape() == counted_type(*o),
{
    let mut m = no_members();
    add_member(&mut m, "maximum", copy_or_null(&o.max));
    add_member(&mut m, "minimum", copy_or_null(&o.min));
    add_member(&mut m, "type", string("integer"));
    assert(member_shapes(m@) =~= counted_type(*o)->Object_0);
    object(m)
}

fn only_auto() -> (r: Json)
    ensures
        r.shape() == auto_type(),
{
    let mut words = no_items();
    add_item(&mut words, string("auto"));
    assert(item_shapes(words@) =~= seq![Shape::Text("auto"@)]);
    let words = list(words);
    let mut m = no_members();
    add_member(&mut m, "enum", words);
    add_member(&mut m, "type", string("string"));
    assert(member_shapes(m@) =~= auto_type()->Object_0);
    object(m)
}

/// JSON schema for one option, for a tool's arguments.
pub fn option_schema(o: &ToolOption) -> (r: Json)
    ensures
        r.shape() == option_shape(*o),
{
    let mut m = no_members();
    let description = describe(o);
    if o.kind == OptionType::Integer && o.auto {
        let mut both = no_items();
        add_item(&mut both, counted(o));
        add_item(&mut both, only_auto());
        assert(item_shapes(both@) =~= seq![counted_type(*o), auto_type()]);
        let both = list(both);
        add_member(&mut m, "anyOf", both);
        add_member(&mut m, "default", o.default.copy());
        add_member(&mut m, "description", string(description.as_str()));
        assert(member_shapes(m@) =~= option_shape(*o)->Object_0);
        return object(m);
    }
    add_member(&mut m, "default", o.default.copy());
    add_member(&mut m, "description", string(description.as_str()));
    match o.kind {
        OptionType::Integer => {
            add_member(&mut m, "maximum", copy_or_null(&o.max));
            add_member(&mut m, "minimum", copy_or_null(&o.min));
            add_member(&mut m, "type", string("integer"));
        },
        OptionType::Number => {
            add_member(&mut m, "maximum", copy_or_null(&o.max));
            add_member(&mut m, "minimum", copy_or_null(&o.min));
            add_member(&mut m, "type", string("number"));
        },
        OptionType::Boolean => {
            add_member(&mut m, "type", string("boolean"));
        },
        OptionType::Enum => {
            let values = match &o.values {
                Some(v) => string_list(v),
                None => Json::Null,
            };
            add_member(&mut m, "enum", values);
            add_member(&mut m, "type", string("string"));
        },
        OptionType::String => {
            add_member(&mut m, "type", string("string"));
        },
    }
    assert(member_shapes(m@) =~= option_shape(*o)->Object_0);
    object(m)
}

// ---------------------------------------------------------------- arguments --

/// An argument that is a text.
pub open spec fn text_argument(description: Seq<char>) -> Shape {
    Shape::Object(
        seq![("description"@, Shape::Text(description)), ("type"@, Shape::Text("string"@))],
    )
}

fn text_arg(description: &str) -> (r: Json)
    ensures
        r.shape() == text_argument(description@),
{
    let mut m = no_members();
    add_member(&mut m, "description", string(description));
    add_member(&mut m, "type", string("string"));
    assert(member_shapes(m@) =~= text_argument(description@)->Object_0);
    object(m)
}

pub open spec fn request_id_argument() -> Shape {
    text_argument("The request_id returned by start_search."@)
}

/// The argument that names a search.
pub fn request_id_schema() -> (r: Json)
    ensures
        r.shape() == request_id_argument(),
{
    text_arg("The request_id returned by start_search.")
}

pub open spec fn query_argument() -> Shape {
    text_argument(
        "What to find, in plain language. A question (\"Who is the CEO of GitLab?\") gets a direct, cited answer; a list request (\"Find 15 open-source CRM projects with a release in the last 12 months, with their website\") gets a table. For lists, say how many items and which details you want."@,
    )
}

pub open spec fn options_argument() -> Shape {
    Shape::Object(
        seq![
            ("additionalProperties"@, Shape::Bool(true)),
            (
                "description"@,
                Shape::Text(
                    "Expert tuning: any other option by name (thresholds, batch sizes, models, search engines). See list_search_options. Rarely needed."@,
                ),
            ),
            ("type"@, Shape::Text("object"@)),
        ],
    )
}

fn options_arg() -> (r: Json)
    ensures
        r.shape() == options_argument(),
{
    let mut m = no_members();
    add_member(&mut m, "additionalProperties", Json::Bool(true));
    add_member(
        &mut m,
        "description",
        string(
            "Expert tuning: any other option by name (thresholds, batch sizes, models, search engines). See list_search_options. Rarely needed.",
        ),
    );
    add_member(&mut m, "type", string("object"));
    assert(member_shapes(m@) =~= options_argument()->Object_0);
    object(m)
}

pub open spec fn limit_argument() -> Shape {
    Shape::Object(
        seq![
            (
                "description"@,
                Shape::Text(
                    "For a list result: most items to return, complete ones (every requested detail found) first. Default: as many as the request asked for, or 50. 0 returns all. Exports via format are never cut."@,
                ),
            ),
            ("minimum"@, Shape::Int(0)),
            ("type"@, Shape::Text("integer"@)),
        ],
    )
}

fn limit_arg() -> (r: Json)
    ensures
        r.shape() == limit_argument(),
{
    let mut m = no_members();
    add_member(
        &mut m,
        "description",
        string(
            "For a list result: most items to return, complete ones (every requested detail found) first. Default: as many as the request asked for, or 50. 0 returns all. Exports via format are never cut.",
        ),
    );
    add_member(&mut m, "minimum", number(0));
    add_member(&mut m, "type", string("integer"));
    assert(member_shapes(m@) =~= limit_argument()->Object_0);
    object(m)
}

/// How much of a result is returned.
pub open spec fn detail_argument(description: Seq<char>) -> Shape {
    Shape::Object(
        seq![
            ("default"@, Shape::Text("simple"@)),
            ("description"@, Shape::Text(description)),
            ("enum"@, Shape::List(seq![Shape::Text("simple"@), Shape::Text("full"@)])),
            ("type"@, Shape::Text("string"@)),
        ],
    )
}

fn detail_arg(description: &str) -> (r: Json)
    ensures
        r.shape() == detail_argument(description@),
{
    let mut words = no_items();
    add_item(&mut words, string("simple"));
    add_item(&mut words, string("full"));
    assert(item_shapes(words@) =~= seq![Shape::Text("simple"@), Shape::Text("full"@)]);
    let words = list(words);
    let mut m = no_members();
    add_member(&mut m, "default", string("simple"));
    add_member(&mut m, "description", string(description));
    add_member(&mut m, "enum", words);
    add_member(&mut m, "type", string("string"));
    assert(member_shapes(m@) =~= detail_argument(description@)->Object_0);
    object(m)
}

pub open spec fn format_argument() -> Shape {
    Shape::Object(
        seq![
            (
                "description"@,
                Shape::Text(
                    "Only to save or hand over a file: returns that export document verbatim (large; json includes every passage read). Leave it out to read the result — detail covers that."@,
                ),
            ),
            ("enum"@, Shape::List(text_shapes(formats()))),
            ("type"@, Shape::Text("string"@)),
        ],
    )
}

fn format_arg() -> (r: Json)
    ensures
        r.shape() == format_argument(),
{
    let names = format_names();
    let mut m = no_members();
    add_member(
        &mut m,
        "description",
        string(
            "Only to save or hand over a file: returns that export document verbatim (large; json includes every passage read). Leave it out to read the result — detail covers that.",
        ),
    );
    add_member(&mut m, "enum", strings(&names));
    add_member(&mut m, "type", string("string"));
    assert(member_shapes(m@) =~= format_argument()->Object_0);
    object(m)
}

pub open spec fn wait_argument() -> Shape {
    Shape::Object(
        seq![
            ("default"@, Shape::Int(10)),
            (
                "description"@,
                Shape::Text(
                    "How long to wait for a running search to finish before returning a progress note. 0 returns at once."@,
                ),
            ),
            ("maximum"@, Shape::Int(15)),
            ("minimum"@, Shape::Int(0)),
            ("type"@, Shape::Text("integer"@)),
        ],
    )
}

fn wait_arg() -> (r: Json)
    ensures
        r.shape() == wait_argument(),
{
    let mut m = no_members();
    add_member(&mut m, "default", number(DEFAULT_WAIT_SECS));
    add_member(
        &mut m,
        "description",
        string(
            "How long to wait for a running search to finish before returning a progress note. 0 returns at once.",
        ),
    );
    add_member(&mut m, "maximum", number(MAX_WAIT_SECS));
    add_member(&mut m, "minimum", number(0));
    add_member(&mut m, "type", string("integer"));
    assert(member_shapes(m@) =~= wait_argument()->Object_0);
    object(m)
}

/// The first `n` options as arguments beside those in `props`. The format is chosen
/// when a result is read, not when a search starts.
pub open spec fn lift_options(
    props: Seq<(Seq<char>, Shape)>,
    options: Seq<ToolOption>,
    n: int,
) -> Seq<(Seq<char>, Shape)>
    decreases n,
{
    if n <= 0 {
        props
    } else {
        let before = lift_options(props, options, n - 1);
        if options[n - 1].name@ == "format"@ {
            before
        } else {
            with_member(before, options[n - 1].name@, option_shape(options[n - 1]))
        }
    }
}

/// A group whose options a person would set.
pub open spec fn is_common(g: ToolGroup) -> bool {
    g.id@ == "basic"@ || g.id@ == "advanced"@
}

pub open spec fn lift_groups(
    props: Seq<(Seq<char>, Shape)>,
    groups: Seq<ToolGroup>,
    n: int,
) -> Seq<(Seq<char>, Shape)>
    decreases n,
{
    if n <= 0 {
        props
    } else {
        let before = lift_groups(props, groups, n - 1);
        if is_common(groups[n - 1]) {
            lift_options(before, groups[n - 1].options@, groups[n - 1].options@.len() as int)
        } else {
            before
        }
    }
}

/// The arguments that start a search.
pub open spec fn start_arguments(groups: Seq<ToolGroup>) -> Seq<(Seq<char>, Shape)> {
    with_member(
        lift_groups(seq![("query"@, query_argument())], groups, groups.len() as int),
        "options"@,
        options_argument(),
    )
}

/// The arguments of a search that waits: those that start one, and how much to
/// return.
pub open spec fn search_arguments(groups: Seq<ToolGroup>) -> Seq<(Seq<char>, Shape)> {
    with_member(
        with_member(start_arguments(groups), "limit"@, limit_argument()),
        "detail"@,
        detail_argument(
            "simple: the result text only. full: also sources, notes, cost and run statistics, as JSON."@,
        ),
    )
}

fn lift(props: &mut Vec<(String, Json)>, options: &Vec<ToolOption>)
    ensures
        member_shapes(final(props)@) == lift_options(
            member_shapes(old(props)@),
            options@,
            options@.len() as int,
        ),
{
    let mut i: usize = 0;
    while i < options.len()
        invariant
            i <= options@.len(),
            member_shapes(props@) == lift_options(member_shapes(old(props)@), options@, i as int),
        decreases options@.len() - i,
    {
        if !str_eq(options[i].name.as_str(), "format") {
            let schema = option_schema(&options[i]);
            set_member(props, options[i].name.as_str(), schema);
        }
        i += 1;
    }
}

fn start_props(groups: &Vec<ToolGroup>) -> (r: Vec<(String, Json)>)
    ensures
        member_shapes(r@) == start_arguments(groups@),
{
    let mut props = no_members();
    add_member(
        &mut props,
        "query",
        text_arg(
            "What to find, in plain language. A question (\"Who is the CEO of GitLab?\") gets a direct, cited answer; a list request (\"Find 15 open-source CRM projects with a release in the last 12 months, with their website\") gets a table. For lists, say how many items and which details you want.",
        ),
    );
    let ghost first = seq![("query"@, query_argument())];
    assert(member_shapes(props@) =~= first);
    let mut i: usize = 0;
    while i < groups.len()
        invariant
            i <= groups@.len(),
            member_shapes(props@) == lift_groups(first, groups@, i as int),
        decreases groups@.len() - i,
    {
        let id = groups[i].id.as_str();
        if str_eq(id, "basic") || str_eq(id, "advanced") {
            lift(&mut props, &groups[i].options);
        }
        i += 1;
    }
    set_member(&mut props, "options", options_arg());
    props
}

fn search_props(groups: &Vec<ToolGroup>) -> (r: Vec<(String, Json)>)
    ensures
        member_shapes(r@) == search_arguments(groups@),
{
    let mut props = start_props(groups);
    set_member(&mut props, "limit", limit_arg());
    set_member(
        &mut props,
        "detail",
        detail_arg(
            "simple: the result text only. full: also sources, notes, cost and run statistics, as JSON.",
        ),
    );
    props
}

// ------------------------------------------------------------------- tools --

/// The arguments that read a result.
pub open spec fn result_arguments() -> Seq<(Seq<char>, Shape)> {
    seq![
        (
            "detail"@,
            detail_argument("simple: the result text only. full: everything, as JSON."@),
        ),
        ("format"@, format_argument()),
        ("limit"@, limit_argument()),
        ("request_id"@, request_id_argument()),
        ("wait_seconds"@, wait_argument()),
    ]
}

fn result_props() -> (r: Vec<(String, Json)>)
    ensures
        member_shapes(r@) == result_arguments(),
{
    let mut m = no_members();
    add_member(
        &mut m,
        "detail",
        detail_arg("simple: the result text only. full: everything, as JSON."),
    );
    add_member(&mut m, "format", format_arg());
    add_member(&mut m, "limit", limit_arg());
    add_member(&mut m, "request_id", request_id_schema());
    add_member(&mut m, "wait_seconds", wait_arg());
    assert(member_shapes(m@) =~= result_arguments());
    m
}

/// The arguments of a tool that only needs to know which search is meant.
pub open spec fn id_arguments() -> Seq<(Seq<char>, Shape)> {
    seq![("request_id"@, request_id_argument())]
}

fn id_props() -> (r: Vec<(String, Json)>)
    ensures
        member_shapes(r@) == id_arguments(),
{
    let mut m = no_members();
    add_member(&mut m, "request_id", request_id_schema());
    assert(member_shapes(m@) =~= id_arguments());
    m
}

/// The schema of a tool's arguments; one of them may be required, and no others are
/// accepted.
pub open spec fn input_schema(
    props: Seq<(Seq<char>, Shape)>,
    required: Option<Seq<char>>,
) -> Shape {
    Shape::Object(
        match required {
            Some(name) => seq![
                ("additionalProperties"@, Shape::Bool(false)),
                ("properties"@, Shape::Object(props)),
                ("required"@, Shape::List(seq![Shape::Text(name)])),
                ("type"@, Shape::Text("object"@)),
            ],
            None => seq![
                ("additionalProperties"@, Shape::Bool(false)),
                ("properties"@, Shape::Object(props)),
                ("type"@, Shape::Text("object"@)),
            ],
        },
    )
}

pub open spec fn opt_view(s: Option<&str>) -> Option<Seq<char>> {
    match s {
        Some(t) => Some(t@),
        None => None,
    }
}

fn build_schema(props: Vec<(String, Json)>, required: Option<&str>) -> (r: Json)
    ensures
        r.shape() == input_schema(member_shapes(props@), opt_view(required)),
{
    let ghost shapes = member_shapes(props@);
    let mut m = no_members();
    add_member(&mut m, "additionalProperties", Json::Bool(false));
    let props = object(props);
    add_member(&mut m, "properties", props);
    if let Some(name) = required {
        let mut names = no_items();
        add_item(&mut names, string(name));
        assert(item_shapes(names@) =~= seq![Shape::Text(name@)]);
        let names = list(names);
        add_member(&mut m, "required", names);
    }
    add_member(&mut m, "type", string("object"));
    assert(member_shapes(m@) =~= input_schema(shapes, opt_view(required))->Object_0);
    object(m)
}

/// What a client may assume of a tool.
pub open spec fn hints(
    title: Seq<char>,
    read_only: bool,
    destructive: Option<bool>,
    idempotent: bool,
    open_world: bool,
) -> Shape {
    let rest = seq![
        ("idempotentHint"@, Shape::Bool(idempotent)),
        ("openWorldHint"@, Shape::Bool(open_world)),
        ("readOnlyHint"@, Shape::Bool(read_only)),
        ("title"@, Shape::Text(title)),
    ];
    Shape::Object(
        match destructive {
            Some(b) => seq![("destructiveHint"@, Shape::Bool(b))] + rest,
            None => rest,
        },
    )
}

fn build_hints(
    title: &str,
    read_only: bool,
    destructive: Option<bool>,
    idempotent: bool,
    open_world: bool,
) -> (r: Json)
    ensures
        r.shape() == hints(title@, read_only, destructive, idempotent, open_world),
{
    let mut m = no_members();
    if let Some(b) = destructive {
        add_member(&mut m, "destructiveHint", Json::Bool(b));
    }
    add_member(&mut m, "idempotentHint", Json::Bool(idempotent));
    add_member(&mut m, "openWorldHint", Json::Bool(open_world));
    add_member(&mut m, "readOnlyHint", Json::Bool(read_only));
    add_member(&mut m, "title", string(title));
    assert(member_shapes(m@) =~= hints(
        title@,
        read_only,
        destructive,
        idempotent,
        open_world,
    )->Object_0);
    object(m)
}

/// A tool as it is listed.
pub open spec fn tool(
    name: Seq<char>,
    title: Seq<char>,
    description: Seq<char>,
    schema: Shape,
    annotations: Shape,
) -> Shape {
    Shape::Object(
        seq![
            ("annotations"@, annotations),
            ("description"@, Shape::Text(description)),
            ("inputSchema"@, schema),
            ("name"@, Shape::Text(name)),
            ("title"@, Shape::Text(title)),
        ],
    )
}

fn build_tool(name: &str, title: &str, description: &str, schema: Json, annotations: Json) -> (r:
    Json)
    ensures
        r.shape() == tool(name@, title@, description@, schema.shape(), annotations.shape()),
{
    let ghost expected = tool(name@, title@, description@, schema.shape(), annotations.shape());
    let mut m = no_members();
    add_member(&mut m, "annotations", annotations);
    add_member(&mut m, "description", string(description));
    add_member(&mut m, "inputSchema", schema);
    add_member(&mut m, "name", string(name));
    add_member(&mut m, "title", string(title));
    assert(member_shapes(m@) =~= expected->Object_0);
    object(m)
}

pub open spec fn search_tool(groups: Seq<ToolGroup>) -> Shape {
    tool(
        "search"@,
        "Search the web (verified)"@,
        "Search the web and get a verified answer: webscout reads the pages it finds and returns only what it could check against them — a cited answer for a question, or a table for a list request. Use this for any web lookup. It waits about 10 s; a quick question may be answered in this call. Otherwise the response has status \"running\" and a request_id: call get_search_result with it, and call again straight away while the status is still \"running\" (each call waits about 10 s). Questions usually take 15 s to 2 min; lists can take many minutes. Do not start the same search again."@,
        input_schema(search_arguments(groups), Some("query"@)),
        hints("Search the web (verified)"@, false, Some(false), false, true),
    )
}

fn build_search(groups: &Vec<ToolGroup>) -> (r: Json)
    ensures
        r.shape() == search_tool(groups@),
{
    let schema = build_schema(search_props(groups), Some("query"));
    let annotations = build_hints("Search the web (verified)", false, Some(false), false, true);
    build_tool(
        "search",
        "Search the web (verified)",
        "Search the web and get a verified answer: webscout reads the pages it finds and returns only what it could check against them — a cited answer for a question, or a table for a list request. Use this for any web lookup. It waits about 10 s; a quick question may be answered in this call. Otherwise the response has status \"running\" and a request_id: call get_search_result with it, and call again straight away while the status is still \"running\" (each call waits about 10 s). Questions usually take 15 s to 2 min; lists can take many minutes. Do not start the same search again.",
        schema,
        annotations,
    )
}

pub open spec fn start_search_tool(groups: Seq<ToolGroup>) -> Shape {
    tool(
        "start_search"@,
        "Start a web search"@,
        "Like search, but returns a request_id immediately without waiting. Use it to run a long search (a big list) in the background while doing other work; read it later with get_search_result, which waits for the result. For an ordinary lookup, use search instead."@,
        input_schema(start_arguments(groups), Some("query"@)),
        hints("Start a web search"@, false, Some(false), false, true),
    )
}

fn build_start_search(groups: &Vec<ToolGroup>) -> (r: Json)
    ensures
        r.shape() == start_search_tool(groups@),
{
    let schema = build_schema(start_props(groups), Some("query"));
    let annotations = build_hints("Start a web search", false, Some(false), false, true);
    build_tool(
        "start_search",
        "Start a web search",
        "Like search, but returns a request_id immediately without waiting. Use it to run a long search (a big list) in the background while doing other work; read it later with get_search_result, which waits for the result. For an ordinary lookup, use search instead.",
        schema,
        annotations,
    )
}

pub open spec fn get_search_result_tool() -> Shape {
    tool(
        "get_search_result"@,
        "Get a search result"@,
        "Return the result of a search started with search or start_search, waiting up to wait_seconds (default 10, max 15) for it to finish. If it is still running, returns status \"running\" with progress: call again with the same request_id — no need to sleep in between. detail=\"simple\" returns only the result text (the answer, or the table of items); detail=\"full\" adds sources with support scores, notes, pages ignored for prompt injection, tokens and cost, run statistics and structured records. format returns an export (markdown, json, csv, jsonl) verbatim instead."@,
        input_schema(result_arguments(), Some("request_id"@)),
        hints("Get a search result"@, true, None, true, false),
    )
}

fn build_get_search_result() -> (r: Json)
    ensures
        r.shape() == get_search_result_tool(),
{
    let schema = build_schema(result_props(), Some("request_id"));
    let annotations = build_hints("Get a search result", true, None, true, false);
    build_tool(
        "get_search_result",
        "Get a search result",
        "Return the result of a search started with search or start_search, waiting up to wait_seconds (default 10, max 15) for it to finish. If it is still running, returns status \"running\" with progress: call again with the same request_id — no need to sleep in between. detail=\"simple\" returns only the result text (the answer, or the table of items); detail=\"full\" adds sources with support scores, notes, pages ignored for prompt injection, tokens and cost, run statistics and structured records. format returns an export (markdown, json, csv, jsonl) verbatim instead.",
        schema,
        annotations,
    )
}

pub open spec fn get_search_status_tool() -> Shape {
    tool(
        "get_search_status"@,
        "Check a search's progress"@,
        "Return a search's status without waiting: running, finished, failed or cancelled, with elapsed time, the current stage, pages read, items found, cost so far and the latest progress messages."@,
        input_schema(id_arguments(), Some("request_id"@)),
        hints("Check a search's progress"@, true, None, true, false),
    )
}

fn build_get_search_status() -> (r: Json)
    ensures
        r.shape() == get_search_status_tool(),
{
    let schema = build_schema(id_props(), Some("request_id"));
    let annotations = build_hints("Check a search's progress", true, None, true, false);
    build_tool(
        "get_search_status",
        "Check a search's progress",
        "Return a search's status without waiting: running, finished, failed or cancelled, with elapsed time, the current stage, pages read, items found, cost so far and the latest progress messages.",
        schema,
        annotations,
    )
}

pub open spec fn cancel_search_tool() -> Shape {
    tool(
        "cancel_search"@,
        "Cancel a search"@,
        "Stop a running search. Nothing it found so far is kept. Has no effect on a search that already finished."@,
        input_schema(id_arguments(), Some("request_id"@)),
        hints("Cancel a search"@, false, Some(true), true, false),
    )
}

fn build_cancel_search() -> (r: Json)
    ensures
        r.shape() == cancel_search_tool(),
{
    let schema = build_schema(id_props(), Some("request_id"));
    let annotations = build_hints("Cancel a search", false, Some(true), true, false);
    build_tool(
        "cancel_search",
        "Cancel a search",
        "Stop a running search. Nothing it found so far is kept. Has no effect on a search that already finished.",
        schema,
        annotations,
    )
}

pub open spec fn list_searches_tool() -> Shape {
    tool(
        "list_searches"@,
        "List recent searches"@,
        "List the searches this server remembers (the most recent 100, running ones included), newest first, with their request_id, status and query. Useful to find a request_id again."@,
        input_schema(Seq::empty(), None),
        hints("List recent searches"@, true, None, true, false),
    )
}

fn build_list_searches() -> (r: Json)
    ensures
        r.shape() == list_searches_tool(),
{
    let schema = build_schema(no_members(), None);
    let annotations = build_hints("List recent searches", true, None, true, false);
    build_tool(
        "list_searches",
        "List recent searches",
        "List the searches this server remembers (the most recent 100, running ones included), newest first, with their request_id, status and query. Useful to find a request_id again.",
        schema,
        annotations,
    )
}

pub open spec fn list_search_options_tool() -> Shape {
    tool(
        "list_search_options"@,
        "List search options"@,
        "Describe every option start_search accepts, including expert tuning passed through its `options` argument: name, type, default, allowed values or range, and what it does."@,
        input_schema(Seq::empty(), None),
        hints("List search options"@, true, None, true, false),
    )
}

fn build_list_search_options() -> (r: Json)
    ensures
        r.shape() == list_search_options_tool(),
{
    let schema = build_schema(no_members(), None);
    let annotations = build_hints("List search options", true, None, true, false);
    build_tool(
        "list_search_options",
        "List search options",
        "Describe every option start_search accepts, including expert tuning passed through its `options` argument: name, type, default, allowed values or range, and what it does.",
        schema,
        annotations,
    )
}

/// The tools, in the order they are listed.
pub open spec fn tools(groups: Seq<ToolGroup>) -> Seq<Shape> {
    seq![
        search_tool(groups),
        start_search_tool(groups),
        get_search_result_tool(),
        get_search_status_tool(),
        cancel_search_tool(),
        list_searches_tool(),
        list_search_options_tool(),
    ]
}

/// The tools a client may call.
pub fn tool_definitions(groups: &Vec<ToolGroup>) -> (r: Vec<Json>)
    ensures
        item_shapes(r@) == tools(groups@),
{
    let mut v = no_items();
    add_item(&mut v, build_search(groups));
    add_item(&mut v, build_start_search(groups));
    add_item(&mut v, build_get_search_result());
    add_item(&mut v, build_get_search_status());
    add_item(&mut v, build_cancel_search());
    add_item(&mut v, build_list_searches());
    add_item(&mut v, build_list_search_options());
    assert(item_shapes(v@) =~= tools(groups@));
    v
}

/// The names of the tools.
pub open spec fn tool_names() -> Seq<Seq<char>> {
    seq![
        "search"@,
        "start_search"@,
        "get_search_result"@,
        "get_search_status"@,
        "cancel_search"@,
        "list_searches"@,
        "list_search_options"@,
    ]
}

/// Every tool that is listed has its name, an object of arguments of which none but
/// the listed are accepted, and hints.
pub proof fn law_tools_are_named(groups: Seq<ToolGroup>)
    ensures
        tools(groups).len() == tool_names().len(),
        forall|i: int|
            0 <= i < tools(groups).len() ==> (#[trigger] tools(groups)[i])->Object_0[3] == (
                "name"@,
                Shape::Text(tool_names()[i]),
            ),
        forall|i: int|
            0 <= i < tools(groups).len() ==> (#[trigger] tools(
                groups,
            )[i])->Object_0[2].1->Object_0[0] == ("additionalProperties"@, Shape::Bool(false)),
{
}

// ----------------------------------------------------------------- listings --

/// What an option takes, in words.
pub open spec fn type_noun(o: ToolOption) -> Seq<char> {
    if o.auto {
        "integer or \"auto\""@
    } else {
        o.kind.name()
    }
}

/// One option as it is listed. A range and values are listed where it has them.
pub open spec fn option_listing(o: ToolOption) -> Seq<(Seq<char>, Shape)> {
    seq![
        ("default"@, o.default.shape()),
        ("description"@, Shape::Text(o.label@ + ". "@ + o.help@)),
    ] + (match o.max {
        Some(j) => seq![("max"@, j.shape())],
        None => Seq::empty(),
    }) + (match o.min {
        Some(j) => seq![("min"@, j.shape())],
        None => Seq::empty(),
    }) + seq![("name"@, Shape::Text(o.name@)), ("type"@, Shape::Text(type_noun(o)))] + (
    match o.values {
        Some(v) => seq![("values"@, Shape::List(text_shapes(views(v@))))],
        None => Seq::empty(),
    })
}

fn list_option(o: &ToolOption) -> (r: Json)
    ensures
        r.shape() == Shape::Object(option_listing(*o)),
{
    let mut m = no_members();
    add_member(&mut m, "default", o.default.copy());
    let mut d = o.label.as_str().to_owned();
    d.append(". ");
    d.append(o.help.as_str());
    add_member(&mut m, "description", string(d.as_str()));
    if let Some(j) = &o.max {
        add_member(&mut m, "max", j.copy());
    }
    if let Some(j) = &o.min {
        add_member(&mut m, "min", j.copy());
    }
    add_member(&mut m, "name", string(o.name.as_str()));
    if o.auto {
        add_member(&mut m, "type", string("integer or \"auto\""));
    } else {
        add_member(&mut m, "type", string(o.kind.noun()));
    }
    if let Some(v) = &o.values {
        add_member(&mut m, "values", string_list(v));
    }
    assert(member_shapes(m@) =~= option_listing(*o));
    object(m)
}

/// The first `n` options as they are listed, without the format.
pub open spec fn option_listings(options: Seq<ToolOption>, n: int) -> Seq<Shape>
    decreases n,
{
    if n <= 0 {
        Seq::empty()
    } else {
        let before = option_listings(options, n - 1);
        if options[n - 1].name@ == "format"@ {
            before
        } else {
            before.push(Shape::Object(option_listing(options[n - 1])))
        }
    }
}

/// A group of options as it is listed, with how its options are passed.
pub open spec fn group_listing(g: ToolGroup) -> Shape {
    Shape::Object(
        seq![
            ("group"@, Shape::Text(g.id@)),
            (
                "how_to_pass"@,
                Shape::Text(
                    if g.id@ == "expert"@ {
                        "inside start_search's `options` object"@
                    } else {
                        "as a top-level start_search argument"@
                    },
                ),
            ),
            ("options"@, Shape::List(option_listings(g.options@, g.options@.len() as int))),
        ],
    )
}

fn list_group(g: &ToolGroup) -> (r: Json)
    ensures
        r.shape() == group_listing(*g),
{
    let mut items = no_items();
    let mut i: usize = 0;
    while i < g.options.len()
        invariant
            i <= g.options@.len(),
            item_shapes(items@) == option_listings(g.options@, i as int),
        decreases g.options@.len() - i,
    {
        if !str_eq(g.options[i].name.as_str(), "format") {
            let item = list_option(&g.options[i]);
            add_item(&mut items, item);
        }
        i += 1;
    }
    let items = list(items);
    let mut m = no_members();
    add_member(&mut m, "group", string(g.id.as_str()));
    if str_eq(g.id.as_str(), "expert") {
        add_member(&mut m, "how_to_pass", string("inside start_search's `options` object"));
    } else {
        add_member(&mut m, "how_to_pass", string("as a top-level start_search argument"));
    }
    add_member(&mut m, "options", items);
    assert(member_shapes(m@) =~= group_listing(*g)->Object_0);
    object(m)
}

/// Every option a search takes.
pub open spec fn options_listing(groups: Seq<ToolGroup>) -> Shape {
    Shape::Object(
        seq![("groups"@, Shape::List(groups.map_values(|g: ToolGroup| group_listing(g))))],
    )
}

/// Every option a search takes, with how it is passed.
pub fn options_json(groups: &Vec<ToolGroup>) -> (r: Json)
    ensures
        r.shape() == options_listing(groups@),
{
    let mut items = no_items();
    let mut i: usize = 0;
    let ghost all = groups@.map_values(|g: ToolGroup| group_listing(g));
    assert(all.take(0) =~= Seq::<Shape>::empty());
    while i < groups.len()
        invariant
            i <= groups@.len(),
            all == groups@.map_values(|g: ToolGroup| group_listing(g)),
            item_shapes(items@) == all.take(i as int),
        decreases groups@.len() - i,
    {
        let item = list_group(&groups[i]);
        add_item(&mut items, item);
        assert(all.take(i + 1) =~= all.take(i as int).push(group_listing(groups@[i as int])));
        i += 1;
    }
    assert(all.take(i as int) =~= all);
    let items = list(items);
    let mut m = no_members();
    add_member(&mut m, "groups", items);
    assert(member_shapes(m@) =~= options_listing(groups@)->Object_0);
    object(m)
}

/// Describe every option a search takes, as a tool's result.
pub fn list_search_options(groups: &Vec<ToolGroup>) -> (r: Json)
    ensures
        r.shape() == structured(options_listing(groups@)),
{
    tool_json(options_json(groups))
}

// --------------------------------------------------------------------- laws --

pub open spec fn names_it(v: Seq<(Seq<char>, Shape)>, name: Seq<char>) -> bool {
    exists|i: int| 0 <= i < v.len() && (#[trigger] v[i]).0 == name
}

proof fn lemma_setting_names_one(
    v: Seq<(Seq<char>, Shape)>,
    name: Seq<char>,
    value: Shape,
    other: Seq<char>,
)
    ensures
        names_it(with_member(v, name, value), other) <==> names_it(v, other) || other == name,
    decreases v.len(),
{
    let w = with_member(v, name, value);
    if v.len() == 0 {
        assert(w[0].0 == name);
    } else if v[0].0 == name {
        assert(w =~= seq![(name, value)] + v.drop_first());
        assert(w[0].0 == name);
        if names_it(v, other) {
            let i = choose|i: int| 0 <= i < v.len() && (#[trigger] v[i]).0 == other;
            assert(w[i].0 == other);
        }
        if names_it(w, other) {
            let i = choose|i: int| 0 <= i < w.len() && (#[trigger] w[i]).0 == other;
            assert(v[i].0 == other);
        }
    } else if crate::order::text_le(name, v[0].0) {
        assert(w =~= seq![(name, value)] + v);
        assert(w[0].0 == name);
        if names_it(v, other) {
            let i = choose|i: int| 0 <= i < v.len() && (#[trigger] v[i]).0 == other;
            assert(w[i + 1].0 == other);
        }
        if names_it(w, other) {
            let i = choose|i: int| 0 <= i < w.len() && (#[trigger] w[i]).0 == other;
            if i > 0 {
                assert(v[i - 1].0 == other);
            }
        }
    } else {
        let t = v.drop_first();
        lemma_setting_names_one(t, name, value, other);
        let u = with_member(t, name, value);
        assert(w =~= seq![v[0]] + u);
        if names_it(w, other) {
            let i = choose|i: int| 0 <= i < w.len() && (#[trigger] w[i]).0 == other;
            if i == 0 {
                assert(v[0].0 == other);
            } else {
                assert(u[i - 1].0 == other);
                assert(names_it(u, other));
                if other != name {
                    let k = choose|k: int| 0 <= k < t.len() && (#[trigger] t[k]).0 == other;
                    assert(v[k + 1].0 == other);
                }
            }
        }
        if names_it(v, other) || other == name {
            if v[0].0 == other {
                assert(w[0].0 == other);
            } else {
                if names_it(v, other) {
                    let i = choose|i: int| 0 <= i < v.len() && (#[trigger] v[i]).0 == other;
                    assert(t[i - 1].0 == other);
                    assert(names_it(t, other));
                }
                assert(names_it(u, other));
                let k = choose|k: int| 0 <= k < u.len() && (#[trigger] u[k]).0 == other;
                assert(w[k + 1].0 == other);
            }
        }
    }
}

/// Is `name` an option of one of the first `n` groups that are lifted?
pub open spec fn is_lifted(groups: Seq<ToolGroup>, name: Seq<char>) -> bool {
    name != "format"@ && exists|g: int, i: int|
        0 <= g < groups.len() && is_common(groups[g]) && 0 <= i < groups[g].options@.len() && (
        #[trigger] groups[g].options@[i]).name@ == name
}

proof fn lemma_lift_options(
    props: Seq<(Seq<char>, Shape)>,
    options: Seq<ToolOption>,
    n: int,
    name: Seq<char>,
)
    requires
        0 <= n <= options.len(),
    ensures
        names_it(lift_options(props, options, n), name) <==> names_it(props, name) || (name
            != "format"@ && exists|i: int|
            0 <= i < n && (#[trigger] options[i]).name@ == name),
    decreases n,
{
    if n > 0 {
        lemma_lift_options(props, options, n - 1, name);
        let before = lift_options(props, options, n - 1);
        if options[n - 1].name@ != "format"@ {
            lemma_setting_names_one(
                before,
                options[n - 1].name@,
                option_shape(options[n - 1]),
                name,
            );
        }
        assert(options[n - 1].name@ == name ==> exists|i: int|
            0 <= i < n && (#[trigger] options[i]).name@ == name);
    }
}

proof fn lemma_lift_groups(
    props: Seq<(Seq<char>, Shape)>,
    groups: Seq<ToolGroup>,
    n: int,
    name: Seq<char>,
)
    requires
        0 <= n <= groups.len(),
    ensures
        names_it(lift_groups(props, groups, n), name) <==> names_it(props, name) || is_lifted(
            groups.take(n),
            name,
        ),
    decreases n,
{
    if n > 0 {
        lemma_lift_groups(props, groups, n - 1, name);
        let before = lift_groups(props, groups, n - 1);
        let g = groups[n - 1];
        let a = groups.take(n - 1);
        let b = groups.take(n);
        if is_common(g) {
            lemma_lift_options(before, g.options@, g.options@.len() as int, name);
            if name != "format"@ && exists|i: int|
                0 <= i < g.options@.len() && (#[trigger] g.options@[i]).name@ == name {
                let i = choose|i: int|
                    0 <= i < g.options@.len() && (#[trigger] g.options@[i]).name@ == name;
                assert(b[n - 1].options@[i].name@ == name);
                assert(is_lifted(b, name));
            }
        }
        if is_lifted(a, name) {
            let (k, i) = choose|k: int, i: int|
                0 <= k < a.len() && is_common(a[k]) && 0 <= i < a[k].options@.len() && (
                #[trigger] a[k].options@[i]).name@ == name;
            assert(b[k].options@[i].name@ == name);
            assert(is_lifted(b, name));
        }
        if is_lifted(b, name) {
            let (k, i) = choose|k: int, i: int|
                0 <= k < b.len() && is_common(b[k]) && 0 <= i < b[k].options@.len() && (
                #[trigger] b[k].options@[i]).name@ == name;
            if k < n - 1 {
                assert(a[k].options@[i].name@ == name);
                assert(is_lifted(a, name));
            } else {
                assert(g.options@[i].name@ == name);
            }
        }
    }
}

/// Starting a search takes the query, the options a person would set, and a bag for
/// the rest, and nothing else; the format is not among them, because it is chosen
/// when a result is read.
pub proof fn law_start_search_lifts_the_common_options(groups: Seq<ToolGroup>, name: Seq<char>)
    ensures
        names_it(start_arguments(groups), name) <==> name == "query"@ || name == "options"@
            || is_lifted(groups, name),
        !names_it(start_arguments(groups), "format"@),
{
    let first = seq![("query"@, query_argument())];
    let n = groups.len() as int;
    let lifted = lift_groups(first, groups, n);
    assert(groups.take(n) =~= groups);
    lemma_lift_groups(first, groups, n, name);
    lemma_setting_names_one(lifted, "options"@, options_argument(), name);
    lemma_lift_groups(first, groups, n, "format"@);
    lemma_setting_names_one(lifted, "options"@, options_argument(), "format"@);
    assert(first[0].0 == "query"@);
    reveal_strlit("query");
    reveal_strlit("options");
    reveal_strlit("format");
    assert("format"@[0] == 'f' && "query"@[0] == 'q' && "options"@[0] == 'o');
}

} // verus!
