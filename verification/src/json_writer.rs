//! Names used in the viewer's JSON schema, and the framing of the JSON
//! document that lists the schemas.
use vstd::prelude::*;

verus! {

/// Kind of drawing element of a schema.
pub enum PartsType {
    Image,
    Point,
    Line,
}

impl PartsType {
    pub open spec fn spec_name(&self) -> Seq<char> {
        match self {
            PartsType::Image => "image"@,
            PartsType::Point => "point"@,
            PartsType::Line => "line"@,
        }
    }

    /// Name of the element kind in the viewer's schema.
    pub fn as_str(&self) -> (r: &'static str)
        ensures
            r@ == self.spec_name(),
    {
        match self {
            PartsType::Image => "image",
            PartsType::Point => "point",
            PartsType::Line => "line",
        }
    }
}

/// OpenGL primitive used to render a schema.
pub enum RenderMode {
    Points,
    Lines,
    LineLoop,
    Triangles,
    TriangleStrip,
    TriangleFan,
}

impl RenderMode {
    pub open spec fn spec_name(&self) -> Seq<char> {
        match self {
            RenderMode::Points => "POINTS"@,
            RenderMode::Lines => "LINES"@,
            RenderMode::LineLoop => "LINE_LOOP"@,
            RenderMode::Triangles => "TRIANGLES"@,
            RenderMode::TriangleStrip => "TRIANGLE_STRIP"@,
            RenderMode::TriangleFan => "TRIANGLE_FAN"@,
        }
    }

    /// Name of the primitive in the viewer's schema.
    pub fn as_str(&self) -> (r: &'static str)
        ensures
            r@ == self.spec_name(),
    {
        match self {
            RenderMode::Points => "POINTS",
            RenderMode::Lines => "LINES",
            RenderMode::LineLoop => "LINE_LOOP",
            RenderMode::Triangles => "TRIANGLES",
            RenderMode::TriangleStrip => "TRIANGLE_STRIP",
            RenderMode::TriangleFan => "TRIANGLE_FAN",
        }
    }
}

/// The parts joined with `sep` between consecutive parts.
pub open spec fn join_with(parts: Seq<Seq<char>>, sep: Seq<char>) -> Seq<char>
    decreases parts.len(),
{
    if parts.len() == 0 {
        Seq::empty()
    } else if parts.len() == 1 {
        parts[0]
    } else {
        join_with(parts.drop_last(), sep) + sep + parts.last()
    }
}

/// Joining no part gives the empty text, and joining one part gives that
/// part.
pub proof fn lemma_join_with_small(s: Seq<char>, sep: Seq<char>)
    ensures
        join_with(Seq::empty(), sep) == Seq::<char>::empty(),
        join_with(seq![s], sep) == s,
{
}

/// Joining two non-empty lists one after the other puts exactly one
/// separator between the last part of the first and the first part of the
/// second: the separator stands between every two consecutive parts.
pub proof fn lemma_join_with_concat(a: Seq<Seq<char>>, b: Seq<Seq<char>>, sep: Seq<char>)
    requires
        a.len() >= 1,
        b.len() >= 1,
    ensures
        join_with(a + b, sep) == join_with(a, sep) + sep + join_with(b, sep),
    decreases b.len(),
{
    if b.len() == 1 {
        assert((a + b).drop_last() =~= a);
        assert((a + b).last() == b[0]);
    } else {
        let b1 = b.drop_last();
        lemma_join_with_concat(a, b1, sep);
        assert((a + b).drop_last() =~= a + b1);
        assert((a + b).last() == b.last());
        assert(join_with(a + b, sep) == join_with(a + b1, sep) + sep + b.last());
        assert(join_with(b, sep) == join_with(b1, sep) + sep + b.last());
        assert(join_with(a + b, sep) =~= join_with(a, sep) + sep + join_with(b, sep));
    }
}

/// The framed document of the schemas `first` followed by `rest`: the first
/// schema right after the opening line, and every further schema after a
/// comma and a newline.
pub proof fn lemma_frame_first_then_rest(first: Seq<char>, rest: Seq<Seq<char>>)
    requires
        rest.len() >= 1,
    ensures
        "[\n"@ + join_with(seq![first] + rest, ",\n"@) + "\n]"@ == "[\n"@ + first + ",\n"@
            + join_with(rest, ",\n"@) + "\n]"@,
{
    lemma_join_with_concat(seq![first], rest, ",\n"@);
    lemma_join_with_small(first, ",\n"@);
    assert("[\n"@ + join_with(seq![first] + rest, ",\n"@) + "\n]"@ =~= "[\n"@ + first + ",\n"@
        + join_with(rest, ",\n"@) + "\n]"@);
}

/// The JSON array of the serialized schemas: `[`, a newline, the schemas
/// separated by a comma and a newline, a newline and `]`.
pub fn frame_schemas(json_strs: &Vec<String>) -> (r: String)
    ensures
        r@ == "[\n"@ + join_with(json_strs@.map_values(|s: String| s@), ",\n"@) + "\n]"@,
{
    let ghost parts = json_strs@.map_values(|s: String| s@);
    let mut r = String::from_str("[\n");
    let n = json_strs.len();
    let mut i: usize = 0;
    while i < n
        invariant
            n == json_strs@.len(),
            parts == json_strs@.map_values(|s: String| s@),
            i <= n,
            r@ == "[\n"@ + join_with(parts.take(i as int), ",\n"@),
        decreases n - i,
    {
        assert(parts.take(i + 1).drop_last() =~= parts.take(i as int));
        assert(parts.take(i + 1).last() == json_strs@[i as int]@);
        if i > 0 {
            r.append(",\n");
        } else {
            assert(parts.take(i as int) =~= Seq::<Seq<char>>::empty());
        }
        r.append(json_strs[i].as_str());
        i = i + 1;
    }
    assert(parts.take(n as int) =~= parts);
    r.append("\n]");
    r
}

} // verus!
