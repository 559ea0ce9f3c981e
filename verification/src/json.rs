//! JSON values as this library builds and reads them.
use vstd::prelude::*;
use vstd::string::*;
use crate::numeral::{decimal, decimal_chars, digit, signed};
use crate::order::{str_le, text_le};
use crate::text::{from_chars, push_range, push_str, str_eq, str_views};
use crate::types::Figure;

verus! {

/// A JSON value. An object lists its members in order, each name once.
#[derive(Debug)]
pub enum Json {
    Null,
    Bool(bool),
    /// A whole number that is not negative.
    Whole(u64),
    /// A negative whole number.
    Below(i64),
    /// A number with a fraction or an exponent, with the text it is written as.
    Real(Figure),
    Text(String),
    List(Vec<Json>),
    Object(Vec<(String, Json)>),
}

/// What a JSON value says.
#[verifier::ext_equal]
pub ghost enum Shape {
    Null,
    Bool(bool),
    Int(int),
    Real(u64, Seq<char>),
    Text(Seq<char>),
    List(Seq<Shape>),
    Object(Seq<(Seq<char>, Shape)>),
}

impl Json {
    pub open spec fn shape(self) -> Shape
        decreases self,
    {
        match self {
            Json::Null => Shape::Null,
            Json::Bool(b) => Shape::Bool(b),
            Json::Whole(n) => Shape::Int(n as int),
            Json::Below(n) => Shape::Int(n as int),
            Json::Real(f) => Shape::Real(f.bits, f.text@),
            Json::Text(s) => Shape::Text(s@),
            Json::List(v) => Shape::List(
                Seq::new(
                    v@.len(),
                    |i: int|
                        if 0 <= i < v@.len() {
                            v@[i].shape()
                        } else {
                            Shape::Null
                        },
                ),
            ),
            Json::Object(v) => Shape::Object(
                Seq::new(
                    v@.len(),
                    |i: int|
                        if 0 <= i < v@.len() {
                            (v@[i].0@, v@[i].1.shape())
                        } else {
                            (Seq::<char>::empty(), Shape::Null)
                        },
                ),
            ),
        }
    }
}

// -------------------------------------------------------------------- text --

/// A character inside a JSON string: quotes, backslashes and control characters
/// are escaped, the common ones by a letter.
pub open spec fn escaped(c: char) -> Seq<char> {
    if c == '"' {
        seq!['\\', '"']
    } else if c == '\\' {
        seq!['\\', '\\']
    } else if c == '\n' {
        seq!['\\', 'n']
    } else if c == '\r' {
        seq!['\\', 'r']
    } else if c == '\t' {
        seq!['\\', 't']
    } else if c == '\u{8}' {
        seq!['\\', 'b']
    } else if c == '\u{c}' {
        seq!['\\', 'f']
    } else if ' ' > c {
        seq!['\\', 'u', '0', '0', digit((c as nat) / 16), digit((c as nat) % 16)]
    } else {
        seq![c]
    }
}

pub open spec fn escaped_all(s: Seq<char>) -> Seq<char>
    decreases s.len(),
{
    if s.len() == 0 {
        Seq::empty()
    } else {
        escaped_all(s.drop_last()) + escaped(s.last())
    }
}

/// A text as a JSON string.
pub open spec fn quoted(s: Seq<char>) -> Seq<char> {
    seq!['"'] + escaped_all(s) + seq!['"']
}

impl Shape {
    /// The value as compact JSON, members in their order.
    pub open spec fn text(self) -> Seq<char>
        decreases self, 0nat,
    {
        match self {
            Shape::Null => "null"@,
            Shape::Bool(b) => if b {
                "true"@
            } else {
                "false"@
            },
            Shape::Int(n) => signed(n),
            Shape::Real(_, t) => t,
            Shape::Text(t) => quoted(t),
            Shape::List(v) => seq!['['] + Shape::items(v, v.len()) + seq![']'],
            Shape::Object(v) => seq!['{'] + Shape::members(v, v.len()) + seq!['}'],
        }
    }

    /// The first `n` items, with commas between them.
    pub open spec fn items(v: Seq<Shape>, n: nat) -> Seq<char>
        decreases v, n,
    {
        if n == 0 || n > v.len() {
            Seq::empty()
        } else {
            Shape::items(v, (n - 1) as nat) + (if n > 1 {
                seq![',']
            } else {
                Seq::empty()
            }) + v[n - 1].text()
        }
    }

    /// The first `n` members, with commas between them.
    pub open spec fn members(v: Seq<(Seq<char>, Shape)>, n: nat) -> Seq<char>
        decreases v, n,
    {
        if n == 0 || n > v.len() {
            Seq::empty()
        } else {
            Shape::members(v, (n - 1) as nat) + (if n > 1 {
                seq![',']
            } else {
                Seq::empty()
            }) + quoted(v[n - 1].0) + seq![':'] + v[n - 1].1.text()
        }
    }
}

/// `serde_json::to_string` of a string: the string in quotes, with its quotes, its
/// backslashes and its control characters escaped. It writes to memory, so it cannot
/// fail.
#[verifier::external_body]
fn quote(s: &str) -> (r: String)
    ensures
        r@ == quoted(s@),
{
    serde_json::to_string(s).unwrap()
}

/// Append a text as a JSON string.
pub fn push_quoted(out: &mut Vec<char>, s: &str)
    ensures
        final(out)@ == old(out)@ + quoted(s@),
{
    let q = quote(s);
    push_str(out, q.as_str());
}

impl Json {
    /// Append the value as compact JSON.
    pub fn push_text(&self, out: &mut Vec<char>)
        ensures
            final(out)@ == old(out)@ + self.shape().text(),
        decreases *self,
    {
        match self {
            Json::Null => {
                push_str(out, "null");
            },
            Json::Bool(b) => {
                if *b {
                    push_str(out, "true");
                } else {
                    push_str(out, "false");
                }
            },
            Json::Whole(n) => {
                let d = decimal_chars(*n as u128);
                push_range(out, &d, 0, d.len());
                assert(d@.subrange(0, d@.len() as int) =~= d@);
            },
            Json::Below(n) => {
                let neg: bool = *n < 0;
                let m: u128 = if neg {
                    (-(*n as i128)) as u128
                } else {
                    *n as u128
                };
                let d = decimal_chars(m);
                if neg {
                    out.push('-');
                }
                push_range(out, &d, 0, d.len());
                assert(d@.subrange(0, d@.len() as int) =~= d@);
                assert(out@ =~= old(out)@ + signed(*n as int));
            },
            Json::Real(f) => {
                push_str(out, f.text.as_str());
            },
            Json::Text(t) => {
                push_quoted(out, t.as_str());
            },
            Json::List(v) => {
                let ghost shapes = self.shape()->List_0;
                out.push('[');
                let mut i: usize = 0;
                assert(out@ =~= old(out)@ + seq!['['] + Shape::items(shapes, 0));
                while i < v.len()
                    invariant
                        i <= v@.len(),
                        *self == Json::List(*v),
                        self.shape() == Shape::List(shapes),
                        shapes.len() == v@.len(),
                        forall|k: int| 0 <= k < v@.len() ==> #[trigger] shapes[k] == v@[k].shape(),
                        out@ == old(out)@ + seq!['['] + Shape::items(shapes, i as nat),
                    decreases v@.len() - i,
                {
                    let ghost before = out@;
                    if i > 0 {
                        out.push(',');
                    }
                    let ghost comma = if i > 0 {
                        seq![',']
                    } else {
                        Seq::empty()
                    };
                    assert(out@ =~= before + comma);
                    proof {
                        let ghost item = v@[i as int];
                        assert(decreases_to!(*self => item));
                        assert(shapes[i as int] == item.shape());
                    }
                    v[i].push_text(out);
                    i += 1;
                    assert(out@ =~= old(out)@ + seq!['['] + Shape::items(shapes, i as nat)) by {
                        assert(Shape::items(shapes, i as nat) == Shape::items(
                            shapes,
                            (i - 1) as nat,
                        ) + comma + shapes[i - 1].text());
                    }
                }
                out.push(']');
                assert(out@ =~= old(out)@ + self.shape().text());
            },
            Json::Object(v) => {
                let ghost shapes = self.shape()->Object_0;
                out.push('{');
                let mut i: usize = 0;
                assert(out@ =~= old(out)@ + seq!['{'] + Shape::members(shapes, 0));
                while i < v.len()
                    invariant
                        i <= v@.len(),
                        *self == Json::Object(*v),
                        self.shape() == Shape::Object(shapes),
                        shapes.len() == v@.len(),
                        forall|k: int|
                            0 <= k < v@.len() ==> #[trigger] shapes[k] == (
                                v@[k].0@,
                                v@[k].1.shape(),
                            ),
                        out@ == old(out)@ + seq!['{'] + Shape::members(shapes, i as nat),
                    decreases v@.len() - i,
                {
                    let ghost before = out@;
                    if i > 0 {
                        out.push(',');
                    }
                    let ghost comma = if i > 0 {
                        seq![',']
                    } else {
                        Seq::empty()
                    };
                    assert(out@ =~= before + comma);
                    push_quoted(out, v[i].0.as_str());
                    out.push(':');
                    proof {
                        let ghost item = v@[i as int];
                        assert(decreases_to!(*self => item.1));
                        assert(shapes[i as int] == (item.0@, item.1.shape()));
                    }
                    v[i].1.push_text(out);
                    i += 1;
                    assert(out@ =~= old(out)@ + seq!['{'] + Shape::members(shapes, i as nat)) by {
                        assert(Shape::members(shapes, i as nat) == Shape::members(
                            shapes,
                            (i - 1) as nat,
                        ) + comma + quoted(shapes[i - 1].0) + seq![':'] + shapes[i - 1].1.text());
                    }
                }
                out.push('}');
                assert(out@ =~= old(out)@ + self.shape().text());
            },
        }
    }

    /// The value as compact JSON.
    pub fn to_text(&self) -> (r: String)
        ensures
            r@ == self.shape().text(),
    {
        let mut out: Vec<char> = Vec::new();
        self.push_text(&mut out);
        assert(out@ =~= self.shape().text());
        from_chars(&out)
    }
}

// ------------------------------------------------------------------- layout --

/// One step further in.
pub open spec fn deeper(indent: Seq<char>) -> Seq<char> {
    indent + "  "@
}

impl Shape {
    /// The value over several lines: each item and each member on a line of its own,
    /// two spaces further in than what holds it.
    pub open spec fn laid_out(self, indent: Seq<char>) -> Seq<char>
        decreases self, 0nat,
    {
        match self {
            Shape::List(v) => if v.len() == 0 {
                "[]"@
            } else {
                "["@ + Shape::item_lines(v, v.len(), deeper(indent)) + "\n"@ + indent + "]"@
            },
            Shape::Object(v) => if v.len() == 0 {
                "{}"@
            } else {
                "{"@ + Shape::member_lines(v, v.len(), deeper(indent)) + "\n"@ + indent + "}"@
            },
            _ => self.text(),
        }
    }

    /// The first `n` items, each on a line of its own.
    pub open spec fn item_lines(v: Seq<Shape>, n: nat, indent: Seq<char>) -> Seq<char>
        decreases v, n,
    {
        if n == 0 || n > v.len() {
            Seq::empty()
        } else {
            Shape::item_lines(v, (n - 1) as nat, indent) + (if n > 1 {
                ",\n"@
            } else {
                "\n"@
            }) + indent + v[n - 1].laid_out(indent)
        }
    }

    /// The first `n` members, each on a line of its own.
    pub open spec fn member_lines(v: Seq<(Seq<char>, Shape)>, n: nat, indent: Seq<char>) -> Seq<
        char,
    >
        decreases v, n,
    {
        if n == 0 || n > v.len() {
            Seq::empty()
        } else {
            Shape::member_lines(v, (n - 1) as nat, indent) + (if n > 1 {
                ",\n"@
            } else {
                "\n"@
            }) + indent + quoted(v[n - 1].0) + ": "@ + v[n - 1].1.laid_out(indent)
        }
    }
}

fn push_all(out: &mut Vec<char>, v: &Vec<char>)
    ensures
        final(out)@ == old(out)@ + v@,
{
    push_range(out, v, 0, v.len());
    assert(v@.subrange(0, v@.len() as int) =~= v@);
}

impl Json {
    /// Append the value over several lines.
    pub fn push_pretty(&self, out: &mut Vec<char>, indent: &Vec<char>)
        ensures
            final(out)@ == old(out)@ + self.shape().laid_out(indent@),
        decreases *self,
    {
        match self {
            Json::List(v) => {
                let ghost shapes = self.shape()->List_0;
                if v.len() == 0 {
                    push_str(out, "[]");
                    return;
                }
                let mut inner = indent.clone();
                push_str(&mut inner, "  ");
                assert(inner@ =~= deeper(indent@));
                push_str(out, "[");
                let mut i: usize = 0;
                assert(out@ =~= old(out)@ + "["@ + Shape::item_lines(shapes, 0, inner@));
                while i < v.len()
                    invariant
                        i <= v@.len(),
                        *self == Json::List(*v),
                        self.shape() == Shape::List(shapes),
                        shapes.len() == v@.len(),
                        forall|k: int| 0 <= k < v@.len() ==> #[trigger] shapes[k] == v@[k].shape(),
                        out@ == old(out)@ + "["@ + Shape::item_lines(shapes, i as nat, inner@),
                    decreases v@.len() - i,
                {
                    let ghost before = out@;
                    let ghost sep = if i > 0 {
                        ",\n"@
                    } else {
                        "\n"@
                    };
                    if i > 0 {
                        push_str(out, ",\n");
                    } else {
                        push_str(out, "\n");
                    }
                    push_all(out, &inner);
                    proof {
                        let ghost item = v@[i as int];
                        assert(decreases_to!(*self => item));
                        assert(shapes[i as int] == item.shape());
                    }
                    v[i].push_pretty(out, &inner);
                    i += 1;
                    assert(out@ =~= old(out)@ + "["@ + Shape::item_lines(
                        shapes,
                        i as nat,
                        inner@,
                    )) by {
                        assert(Shape::item_lines(shapes, i as nat, inner@) == Shape::item_lines(
                            shapes,
                            (i - 1) as nat,
                            inner@,
                        ) + sep + inner@ + shapes[i - 1].laid_out(inner@));
                    }
                }
                push_str(out, "\n");
                push_all(out, indent);
                push_str(out, "]");
                assert(out@ =~= old(out)@ + self.shape().laid_out(indent@));
            },
            Json::Object(v) => {
                let ghost shapes = self.shape()->Object_0;
                if v.len() == 0 {
                    push_str(out, "{}");
                    return;
                }
                let mut inner = indent.clone();
                push_str(&mut inner, "  ");
                assert(inner@ =~= deeper(indent@));
                push_str(out, "{");
                let mut i: usize = 0;
                assert(out@ =~= old(out)@ + "{"@ + Shape::member_lines(shapes, 0, inner@));
                while i < v.len()
                    invariant
                        i <= v@.len(),
                        *self == Json::Object(*v),
                        self.shape() == Shape::Object(shapes),
                        shapes.len() == v@.len(),
                        forall|k: int|
                            0 <= k < v@.len() ==> #[trigger] shapes[k] == (
                                v@[k].0@,
                                v@[k].1.shape(),
                            ),
                        out@ == old(out)@ + "{"@ + Shape::member_lines(shapes, i as nat, inner@),
                    decreases v@.len() - i,
                {
                    let ghost before = out@;
                    let ghost sep = if i > 0 {
                        ",\n"@
                    } else {
                        "\n"@
                    };
                    if i > 0 {
                        push_str(out, ",\n");
                    } else {
                        push_str(out, "\n");
                    }
                    push_all(out, &inner);
                    push_quoted(out, v[i].0.as_str());
                    push_str(out, ": ");
                    proof {
                        let ghost item = v@[i as int];
                        assert(decreases_to!(*self => item.1));
                        assert(shapes[i as int] == (item.0@, item.1.shape()));
                    }
                    v[i].1.push_pretty(out, &inner);
                    i += 1;
                    assert(out@ =~= old(out)@ + "{"@ + Shape::member_lines(
                        shapes,
                        i as nat,
                        inner@,
                    )) by {
                        assert(Shape::member_lines(shapes, i as nat, inner@)
                            == Shape::member_lines(shapes, (i - 1) as nat, inner@) + sep + inner@
                            + quoted(shapes[i - 1].0) + ": "@ + shapes[i - 1].1.laid_out(inner@));
                    }
                }
                push_str(out, "\n");
                push_all(out, indent);
                push_str(out, "}");
                assert(out@ =~= old(out)@ + self.shape().laid_out(indent@));
            },
            _ => {
                self.push_text(out);
            },
        }
    }

    /// The value over several lines.
    pub fn to_pretty(&self) -> (r: String)
        ensures
            r@ == self.shape().laid_out(Seq::empty()),
    {
        let mut out: Vec<char> = Vec::new();
        let indent: Vec<char> = Vec::new();
        self.push_pretty(&mut out, &indent);
        assert(indent@ =~= Seq::<char>::empty());
        assert(out@ =~= self.shape().laid_out(Seq::empty()));
        from_chars(&out)
    }
}

// ---------------------------------------------------------------- building --

/// What the members of an object say.
pub open spec fn member_shapes(v: Seq<(String, Json)>) -> Seq<(Seq<char>, Shape)> {
    v.map_values(|m: (String, Json)| (m.0@, m.1.shape()))
}

/// What the items of a list say.
pub open spec fn item_shapes(v: Seq<Json>) -> Seq<Shape> {
    v.map_values(|j: Json| j.shape())
}

/// Append a member.
pub fn add_member(v: &mut Vec<(String, Json)>, name: &str, value: Json)
    ensures
        member_shapes(final(v)@) == member_shapes(old(v)@).push((name@, value.shape())),
{
    v.push((name.to_owned(), value));
    assert(member_shapes(v@) =~= member_shapes(old(v)@).push((name@, value.shape())));
}

/// An object without members yet.
pub fn no_members() -> (r: Vec<(String, Json)>)
    ensures
        member_shapes(r@) == Seq::<(Seq<char>, Shape)>::empty(),
{
    let r: Vec<(String, Json)> = Vec::new();
    assert(member_shapes(r@) =~= Seq::<(Seq<char>, Shape)>::empty());
    r
}

/// Append an item.
pub fn add_item(v: &mut Vec<Json>, value: Json)
    ensures
        item_shapes(final(v)@) == item_shapes(old(v)@).push(value.shape()),
{
    v.push(value);
    assert(item_shapes(v@) =~= item_shapes(old(v)@).push(value.shape()));
}

/// A list without items yet.
pub fn no_items() -> (r: Vec<Json>)
    ensures
        item_shapes(r@) == Seq::<Shape>::empty(),
{
    let r: Vec<Json> = Vec::new();
    assert(item_shapes(r@) =~= Seq::<Shape>::empty());
    r
}

/// The members as an object.
pub fn object(v: Vec<(String, Json)>) -> (r: Json)
    ensures
        r.shape() == Shape::Object(member_shapes(v@)),
        r matches Json::Object(w) && w == v,
{
    let r = Json::Object(v);
    proof {
        let a = r.shape()->Object_0;
        assert(a =~= member_shapes(v@));
    }
    r
}

/// The items as a list.
pub fn list(v: Vec<Json>) -> (r: Json)
    ensures
        r.shape() == Shape::List(item_shapes(v@)),
{
    let r = Json::List(v);
    proof {
        let a = r.shape()->List_0;
        assert(a =~= item_shapes(v@));
    }
    r
}

/// A text as a value.
pub fn string(s: &str) -> (r: Json)
    ensures
        r.shape() == Shape::Text(s@),
{
    Json::Text(s.to_owned())
}

/// A count as a value.
pub fn number(n: u64) -> (r: Json)
    ensures
        r.shape() == Shape::Int(n as int),
{
    Json::Whole(n)
}

/// Texts as a list of values.
pub open spec fn text_shapes(v: Seq<Seq<char>>) -> Seq<Shape> {
    v.map_values(|t: Seq<char>| Shape::Text(t))
}

/// Texts as a list.
pub fn strings(v: &Vec<&'static str>) -> (r: Json)
    ensures
        r.shape() == Shape::List(text_shapes(str_views(v@))),
{
    let mut out = no_items();
    let mut i: usize = 0;
    assert(text_shapes(str_views(v@)).take(0) =~= Seq::<Shape>::empty());
    while i < v.len()
        invariant
            i <= v@.len(),
            item_shapes(out@) == text_shapes(str_views(v@)).take(i as int),
        decreases v@.len() - i,
    {
        add_item(&mut out, string(v[i]));
        assert(text_shapes(str_views(v@)).take(i + 1) =~= text_shapes(str_views(v@)).take(
            i as int,
        ).push(Shape::Text(v@[i as int]@)));
        i += 1;
    }
    assert(text_shapes(str_views(v@)).take(i as int) =~= text_shapes(str_views(v@)));
    list(out)
}

impl Json {
    /// The same value once more.
    pub fn copy(&self) -> (r: Json)
        ensures
            r.shape() == self.shape(),
        decreases *self,
    {
        match self {
            Json::Null => Json::Null,
            Json::Bool(b) => Json::Bool(*b),
            Json::Whole(n) => Json::Whole(*n),
            Json::Below(n) => Json::Below(*n),
            Json::Real(f) => Json::Real(f.clone()),
            Json::Text(t) => Json::Text(t.clone()),
            Json::List(v) => {
                let mut out = no_items();
                let mut i: usize = 0;
                let ghost shapes = item_shapes(v@);
                assert(shapes.take(0) =~= Seq::<Shape>::empty());
                while i < v.len()
                    invariant
                        i <= v@.len(),
                        *self == Json::List(*v),
                        shapes == item_shapes(v@),
                        item_shapes(out@) == shapes.take(i as int),
                    decreases v@.len() - i,
                {
                    proof {
                        let ghost item = v@[i as int];
                        assert(self->List_0 == *v);
                        assert(decreases_to!(*self => self->List_0));
                        assert(decreases_to!(*v => v@));
                        assert(decreases_to!(v@ => v@[i as int]));
                        assert(decreases_to!(*self => item));
                    }
                    let c = v[i].copy();
                    add_item(&mut out, c);
                    assert(shapes.take(i + 1) =~= shapes.take(i as int).push(
                        v@[i as int].shape(),
                    ));
                    i += 1;
                }
                assert(shapes.take(i as int) =~= shapes);
                assert(self.shape()->List_0 =~= shapes);
                list(out)
            },
            Json::Object(v) => {
                let mut out = no_members();
                let mut i: usize = 0;
                let ghost shapes = member_shapes(v@);
                assert(shapes.take(0) =~= Seq::<(Seq<char>, Shape)>::empty());
                while i < v.len()
                    invariant
                        i <= v@.len(),
                        *self == Json::Object(*v),
                        shapes == member_shapes(v@),
                        member_shapes(out@) == shapes.take(i as int),
                    decreases v@.len() - i,
                {
                    proof {
                        let ghost item = v@[i as int];
                        assert(self->Object_0 == *v);
                        assert(decreases_to!(*self => self->Object_0));
                        assert(decreases_to!(*v => v@));
                        assert(decreases_to!(v@ => v@[i as int]));
                        assert(decreases_to!(item => item.1));
                        assert(decreases_to!(*self => item.1));
                    }
                    let c = v[i].1.copy();
                    add_member(&mut out, v[i].0.as_str(), c);
                    assert(shapes.take(i + 1) =~= shapes.take(i as int).push(
                        (v@[i as int].0@, v@[i as int].1.shape()),
                    ));
                    i += 1;
                }
                assert(shapes.take(i as int) =~= shapes);
                assert(self.shape()->Object_0 =~= shapes);
                object(out)
            },
        }
    }
}

// ----------------------------------------------------------------- reading --

/// The value of the first member of that name from the `i`-th on.
pub open spec fn member_from(v: Seq<(Seq<char>, Shape)>, name: Seq<char>, i: int) -> Option<Shape>
    decreases v.len() - i,
{
    if i < 0 || i >= v.len() {
        None
    } else if v[i].0 == name {
        Some(v[i].1)
    } else {
        member_from(v, name, i + 1)
    }
}

impl Shape {
    /// The member of that name; nothing for what is no object.
    pub open spec fn get(self, name: Seq<char>) -> Option<Shape> {
        match self {
            Shape::Object(v) => member_from(v, name, 0),
            _ => None,
        }
    }

    /// An object in which this name says that.
    pub open spec fn says(self, name: Seq<char>, value: Shape) -> bool {
        match self {
            Shape::Object(v) => v.contains((name, value)),
            _ => false,
        }
    }

    /// The text, if it is one.
    pub open spec fn as_text(self) -> Option<Seq<char>> {
        match self {
            Shape::Text(t) => Some(t),
            _ => None,
        }
    }

    /// The number, if it is whole and not negative.
    pub open spec fn as_count(self) -> Option<int> {
        match self {
            Shape::Int(n) => if n >= 0 {
                Some(n)
            } else {
                None
            },
            _ => None,
        }
    }

    pub open spec fn as_flag(self) -> Option<bool> {
        match self {
            Shape::Bool(b) => Some(b),
            _ => None,
        }
    }
}

/// What an optional value says.
pub open spec fn opt_shape(j: Option<&Json>) -> Option<Shape> {
    match j {
        Some(x) => Some(x.shape()),
        None => None,
    }
}

impl Json {
    /// The member of that name; nothing for what is no object.
    pub fn get(&self, name: &str) -> (r: Option<&Json>)
        ensures
            opt_shape(r) == self.shape().get(name@),
    {
        match self {
            Json::Object(v) => {
                let ghost shapes = self.shape()->Object_0;
                let mut i: usize = 0;
                while i < v.len()
                    invariant
                        i <= v@.len(),
                        *self == Json::Object(*v),
                        self.shape() == Shape::Object(shapes),
                        shapes.len() == v@.len(),
                        forall|k: int|
                            0 <= k < v@.len() ==> #[trigger] shapes[k] == (
                                v@[k].0@,
                                v@[k].1.shape(),
                            ),
                        self.shape().get(name@) == member_from(shapes, name@, i as int),
                    decreases v@.len() - i,
                {
                    assert(shapes[i as int] == (v@[i as int].0@, v@[i as int].1.shape()));
                    if str_eq(v[i].0.as_str(), name) {
                        return Some(&v[i].1);
                    }
                    i += 1;
                }
                None
            },
            _ => None,
        }
    }

    /// The text, if it is one.
    pub fn as_str(&self) -> (r: Option<&str>)
        ensures
            match r {
                Some(t) => self.shape().as_text() == Some(t@),
                None => self.shape().as_text() is None,
            },
    {
        match self {
            Json::Text(t) => Some(t.as_str()),
            _ => None,
        }
    }

    /// The number, if it is whole, not negative and small enough.
    pub fn as_u64(&self) -> (r: Option<u64>)
        ensures
            match r {
                Some(n) => self.shape().as_count() == Some(n as int),
                None => self.shape().as_count() is None,
            },
    {
        match self {
            Json::Whole(n) => Some(*n),
            Json::Below(n) => if *n >= 0 {
                Some(*n as u64)
            } else {
                None
            },
            _ => None,
        }
    }

    pub fn as_bool(&self) -> (r: Option<bool>)
        ensures
            r == self.shape().as_flag(),
    {
        match self {
            Json::Bool(b) => Some(*b),
            _ => None,
        }
    }

    /// The items, if it is a list.
    pub fn as_list(&self) -> (r: Option<&Vec<Json>>)
        ensures
            match r {
                Some(v) => self.shape() == Shape::List(item_shapes(v@)),
                None => self.shape() !is List,
            },
    {
        match self {
            Json::List(v) => {
                assert(self.shape()->List_0 =~= item_shapes(v@));
                Some(v)
            },
            _ => None,
        }
    }
}

// ----------------------------------------------------------------- setting --

/// The members with `name` set to `value`: replaced where it stands, else put
/// before the first name that comes after it.
pub open spec fn with_member(
    v: Seq<(Seq<char>, Shape)>,
    name: Seq<char>,
    value: Shape,
) -> Seq<(Seq<char>, Shape)>
    decreases v.len(),
{
    if v.len() == 0 {
        seq![(name, value)]
    } else if v[0].0 == name {
        seq![(name, value)] + v.drop_first()
    } else if text_le(name, v[0].0) {
        seq![(name, value)] + v
    } else {
        seq![v[0]] + with_member(v.drop_first(), name, value)
    }
}

/// Set a member of an object, keeping the names in order.
pub fn set_member(v: &mut Vec<(String, Json)>, name: &str, value: Json)
    ensures
        member_shapes(final(v)@) == with_member(member_shapes(old(v)@), name@, value.shape()),
{
    let ghost shapes = member_shapes(v@);
    let mut i: usize = 0;
    let n: usize = v.len();
    assert(shapes.skip(0) =~= shapes);
    assert(shapes.take(0) + with_member(shapes.skip(0), name@, value.shape()) =~= with_member(
        shapes,
        name@,
        value.shape(),
    ));
    while i < n
        invariant
            i <= n == v@.len(),
            *v == *old(v),
            shapes == member_shapes(v@),
            shapes.take(i as int) + with_member(shapes.skip(i as int), name@, value.shape())
                == with_member(shapes, name@, value.shape()),
        decreases n - i,
    {
        let ghost rest = shapes.skip(i as int);
        assert(rest[0] == shapes[i as int]);
        assert(rest.drop_first() =~= shapes.skip(i + 1));
        if str_eq(v[i].0.as_str(), name) {
            let ghost item = (name@, value.shape());
            v.set(i, (name.to_owned(), value));
            assert(member_shapes(v@) =~= shapes.take(i as int) + (seq![item] + shapes.skip(
                i + 1,
            )));
            return;
        }
        if str_le(name, v[i].0.as_str()) {
            let ghost item = (name@, value.shape());
            v.insert(i, (name.to_owned(), value));
            assert(member_shapes(v@) =~= shapes.take(i as int) + (seq![item] + rest));
            return;
        }
        assert(shapes.take(i as int) + (seq![rest[0]] + with_member(
            rest.drop_first(),
            name@,
            value.shape(),
        )) =~= shapes.take(i + 1) + with_member(shapes.skip(i + 1), name@, value.shape()));
        i += 1;
    }
    let ghost item = (name@, value.shape());
    v.push((name.to_owned(), value));
    assert(shapes.skip(i as int).len() == 0);
    assert(member_shapes(v@) =~= shapes.take(i as int) + seq![item]);
}

// -------------------------------------------------------------------- laws --

/// Setting a member and reading it gives back what was set.
pub proof fn law_set_members_read_back(
    v: Seq<(Seq<char>, Shape)>,
    name: Seq<char>,
    value: Shape,
)
    requires
        forall|i: int, j: int| 0 <= i <= j < v.len() ==> text_le(v[i].0, v[j].0),
    ensures
        member_from(with_member(v, name, value), name, 0) == Some(value),
    decreases v.len(),
{
    let w = with_member(v, name, value);
    if v.len() == 0 || v[0].0 == name || text_le(name, v[0].0) {
        assert(w[0] == (name, value));
    } else {
        let t = v.drop_first();
        law_set_members_read_back(t, name, value);
        let u = with_member(t, name, value);
        assert(w =~= seq![v[0]] + u);
        lemma_member_shift(w, u, name, 0);
    }
}

/// Looking behind a first member that is not meant.
proof fn lemma_member_shift(
    w: Seq<(Seq<char>, Shape)>,
    u: Seq<(Seq<char>, Shape)>,
    name: Seq<char>,
    i: int,
)
    requires
        0 <= i <= u.len(),
        w.len() == u.len() + 1,
        forall|k: int| 0 <= k < u.len() ==> #[trigger] u[k] == w[k + 1],
        i == 0 ==> w[0].0 != name,
    ensures
        member_from(w, name, i + 1) == member_from(u, name, i),
        i == 0 ==> member_from(w, name, 0) == member_from(u, name, 0),
    decreases u.len() - i,
{
    if i < u.len() {
        assert(u[i] == w[i + 1]);
        lemma_member_shift(w, u, name, i + 1);
    }
}

/// No text in a number holds a line break.
pub open spec fn plain_numbers(s: Shape) -> bool
    decreases s,
{
    match s {
        Shape::Real(_, t) => !t.contains('\n'),
        Shape::List(v) => forall|i: int| 0 <= i < v.len() ==> plain_numbers(#[trigger] v[i]),
        Shape::Object(v) => forall|i: int| 0 <= i < v.len() ==> plain_numbers((#[trigger] v[i]).1),
        _ => true,
    }
}

proof fn lemma_no_break_add(a: Seq<char>, b: Seq<char>)
    requires
        !a.contains('\n'),
        !b.contains('\n'),
    ensures
        !(a + b).contains('\n'),
{
    if (a + b).contains('\n') {
        let k = choose|k: int| 0 <= k < (a + b).len() && (a + b)[k] == '\n';
        if k < a.len() {
            assert(a[k] == '\n');
        } else {
            assert(b[k - a.len()] == '\n');
        }
    }
}

proof fn lemma_escaped_char(c: char)
    ensures
        !escaped(c).contains('\n'),
{
    if ' ' > c {
        let n = c as nat;
        assert(n < 32);
        assert(digit(n / 16) != '\n');
        assert(digit(n % 16) != '\n');
    }
}

proof fn lemma_escaped_no_break(s: Seq<char>)
    ensures
        !escaped_all(s).contains('\n'),
        !quoted(s).contains('\n'),
    decreases s.len(),
{
    if s.len() > 0 {
        lemma_escaped_no_break(s.drop_last());
        lemma_escaped_char(s.last());
        lemma_no_break_add(escaped_all(s.drop_last()), escaped(s.last()));
    }
    lemma_no_break_add(seq!['"'], escaped_all(s));
    lemma_no_break_add(seq!['"'] + escaped_all(s), seq!['"']);
}

proof fn lemma_decimal_no_break(n: nat)
    ensures
        !decimal(n).contains('\n'),
    decreases n,
{
    if n >= 10 {
        lemma_decimal_no_break(n / 10);
    }
}

/// A value as JSON stays on one line, whatever texts it holds.
pub proof fn law_json_is_one_line(s: Shape)
    requires
        plain_numbers(s),
    ensures
        !s.text().contains('\n'),
    decreases s, 0nat,
{
    reveal_strlit("null");
    reveal_strlit("true");
    reveal_strlit("false");
    match s {
        Shape::Int(n) => {
            if n < 0 {
                lemma_decimal_no_break((-n) as nat);
                lemma_no_break_add(seq!['-'], decimal((-n) as nat));
            } else {
                lemma_decimal_no_break(n as nat);
            }
        },
        Shape::Text(t) => {
            lemma_escaped_no_break(t);
        },
        Shape::List(v) => {
            lemma_items_no_break(v, v.len());
            lemma_no_break_add(seq!['['], Shape::items(v, v.len()));
            lemma_no_break_add(seq!['['] + Shape::items(v, v.len()), seq![']']);
        },
        Shape::Object(v) => {
            lemma_members_no_break(v, v.len());
            lemma_no_break_add(seq!['{'], Shape::members(v, v.len()));
            lemma_no_break_add(seq!['{'] + Shape::members(v, v.len()), seq!['}']);
        },
        _ => {},
    }
}

proof fn lemma_items_no_break(v: Seq<Shape>, n: nat)
    requires
        forall|i: int| 0 <= i < v.len() ==> plain_numbers(#[trigger] v[i]),
    ensures
        !Shape::items(v, n).contains('\n'),
    decreases v, n,
{
    if 0 < n <= v.len() {
        let comma = if n > 1 {
            seq![',']
        } else {
            Seq::empty()
        };
        let before = Shape::items(v, (n - 1) as nat);
        lemma_items_no_break(v, (n - 1) as nat);
        law_json_is_one_line(v[n - 1]);
        lemma_no_break_add(before, comma);
        lemma_no_break_add(before + comma, v[n - 1].text());
    }
}

proof fn lemma_members_no_break(v: Seq<(Seq<char>, Shape)>, n: nat)
    requires
        forall|i: int| 0 <= i < v.len() ==> plain_numbers((#[trigger] v[i]).1),
    ensures
        !Shape::members(v, n).contains('\n'),
    decreases v, n,
{
    if 0 < n <= v.len() {
        let comma = if n > 1 {
            seq![',']
        } else {
            Seq::empty()
        };
        let before = Shape::members(v, (n - 1) as nat);
        let m = v[n - 1];
        lemma_members_no_break(v, (n - 1) as nat);
        law_json_is_one_line(m.1);
        lemma_escaped_no_break(m.0);
        lemma_no_break_add(before, comma);
        lemma_no_break_add(before + comma, quoted(m.0));
        lemma_no_break_add(before + comma + quoted(m.0), seq![':']);
        lemma_no_break_add(before + comma + quoted(m.0) + seq![':'], m.1.text());
    }
}

proof fn lemma_escaped_add(a: Seq<char>, b: Seq<char>)
    ensures
        escaped_all(a + b) == escaped_all(a) + escaped_all(b),
    decreases b.len(),
{
    if b.len() == 0 {
        assert(a + b =~= a);
        assert(escaped_all(a) + escaped_all(b) =~= escaped_all(a));
    } else {
        assert((a + b).drop_last() =~= a + b.drop_last());
        lemma_escaped_add(a, b.drop_last());
        assert(escaped_all(a) + escaped_all(b.drop_last()) + escaped(b.last()) =~= escaped_all(a) + (
        escaped_all(b.drop_last()) + escaped(b.last())));
    }
}

/// What the string of a text holds between its quotes is read back character by character: a
/// text is the string of its first part followed by that of the rest, a character that needs
/// no escape is itself, and a quote, a backslash and a line break are a backslash and a letter.
pub proof fn law_strings_are_escaped_by_character(a: Seq<char>, b: Seq<char>, c: char)
    ensures
        quoted(a + b) == quoted(a).drop_last() + quoted(b).drop_first(),
        c >= ' ' && c != '"' && c != '\\' ==> quoted(seq![c]) == seq!['"', c, '"'],
        quoted(seq!['"']) == seq!['"', '\\', '"', '"'],
        quoted(seq!['\\']) == seq!['"', '\\', '\\', '"'],
        quoted(seq!['\n']) == seq!['"', '\\', 'n', '"'],
        quoted(seq!['\t']) == seq!['"', '\\', 't', '"'],
        quoted(Seq::empty()) == seq!['"', '"'],
{
    lemma_escaped_add(a, b);
    assert(quoted(a + b) =~= quoted(a).drop_last() + quoted(b).drop_first());
    lemma_escaped_one(c);
    lemma_escaped_one('"');
    lemma_escaped_one('\\');
    lemma_escaped_one('\n');
    lemma_escaped_one('\t');
    if c >= ' ' && c != '"' && c != '\\' {
        assert(quoted(seq![c]) =~= seq!['"', c, '"']);
    }
    assert(quoted(seq!['"']) =~= seq!['"', '\\', '"', '"']);
    assert(quoted(seq!['\\']) =~= seq!['"', '\\', '\\', '"']);
    assert(quoted(seq!['\n']) =~= seq!['"', '\\', 'n', '"']);
    assert(quoted(seq!['\t']) =~= seq!['"', '\\', 't', '"']);
    assert(quoted(Seq::empty()) =~= seq!['"', '"']);
}

proof fn lemma_escaped_one(c: char)
    ensures
        escaped_all(seq![c]) == escaped(c),
{
    let s = seq![c];
    assert(s.drop_last() =~= Seq::<char>::empty());
    assert(escaped_all(s.drop_last()) =~= Seq::<char>::empty());
    assert(Seq::<char>::empty() + escaped(c) =~= escaped(c));
}

/// Setting a member sets it, and every member of another name stays as it is.
pub proof fn law_setting_a_member_keeps_the_others(
    v: Seq<(Seq<char>, Shape)>,
    name: Seq<char>,
    value: Shape,
)
    ensures
        with_member(v, name, value).contains((name, value)),
        forall|m: (Seq<char>, Shape)| #[trigger]
            v.contains(m) && m.0 != name ==> with_member(v, name, value).contains(m),
        forall|m: (Seq<char>, Shape)| #[trigger]
            with_member(v, name, value).contains(m) ==> m == (name, value) || v.contains(m),
    decreases v.len(),
{
    let w = with_member(v, name, value);
    let item = (name, value);
    if v.len() == 0 {
        assert(w =~= seq![item]);
        assert(w[0] == item);
    } else if v[0].0 == name {
        assert(w =~= seq![item] + v.drop_first());
        assert(w[0] == item);
        assert forall|m: (Seq<char>, Shape)| #[trigger] v.contains(m) && m.0 != name implies w.contains(
            m,
        ) by {
            let i = v.index_of(m);
            assert(w[i] == m);
        }
        assert forall|m: (Seq<char>, Shape)| #[trigger] w.contains(m) implies m == item
            || v.contains(m) by {
            let i = w.index_of(m);
            if i > 0 {
                assert(v[i] == m);
            }
        }
    } else if text_le(name, v[0].0) {
        assert(w =~= seq![item] + v);
        assert(w[0] == item);
        assert forall|m: (Seq<char>, Shape)| #[trigger] v.contains(m) && m.0 != name implies w.contains(
            m,
        ) by {
            let i = v.index_of(m);
            assert(w[i + 1] == m);
        }
        assert forall|m: (Seq<char>, Shape)| #[trigger] w.contains(m) implies m == item
            || v.contains(m) by {
            let i = w.index_of(m);
            if i > 0 {
                assert(v[i - 1] == m);
            }
        }
    } else {
        let t = v.drop_first();
        let u = with_member(t, name, value);
        law_setting_a_member_keeps_the_others(t, name, value);
        assert(w =~= seq![v[0]] + u);
        assert(w[0] == v[0]);
        assert forall|m: (Seq<char>, Shape)| #[trigger] u.contains(m) implies w.contains(m) by {
            let i = u.index_of(m);
            assert(w[i + 1] == m);
        }
        assert forall|m: (Seq<char>, Shape)| #[trigger] v.contains(m) && m.0 != name implies w.contains(
            m,
        ) by {
            let i = v.index_of(m);
            if i > 0 {
                assert(t[i - 1] == m);
                assert(t.contains(m));
                assert(u.contains(m));
            }
        }
        assert(u.contains(item));
        assert forall|m: (Seq<char>, Shape)| #[trigger] w.contains(m) implies m == item
            || v.contains(m) by {
            let i = w.index_of(m);
            if i > 0 {
                assert(u[i - 1] == m);
                assert(u.contains(m));
                if t.contains(m) {
                    let j = t.index_of(m);
                    assert(v[j + 1] == m);
                }
            } else {
                assert(v[0] == m);
            }
        }
    }
}

} // verus!
