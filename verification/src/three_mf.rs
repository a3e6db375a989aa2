//! The parts of a 3MF package: content types, relationships and the model document.
use crate::decimal::{decimal, push_decimal};
use crate::xml::{escape_text, push_escaped};
use vstd::prelude::*;

verus! {

/// The three coordinates of one mesh vertex, each already rendered as decimal text.
pub struct VertexText {
    pub x: String,
    pub y: String,
    pub z: String,
}

/// One named mesh of a 3MF model.
///
/// `triangle_vertices` lists vertex indices three per triangle; a trailing group of
/// fewer than three indices is not part of any triangle.
pub struct ModelObject {
    pub name: String,
    pub vertices: Vec<VertexText>,
    pub triangle_vertices: Vec<u64>,
}

/// The path and text of one part of a 3MF package.
pub struct PackagePart {
    pub path: String,
    pub text: String,
}

/// The content-type declarations of a 3MF package.
pub const CONTENT_TYPES: &'static str = "<?xml version=\"1.0\" encoding=\"UTF-8\"?>\n<Types xmlns=\"http://schemas.openxmlformats.org/package/2006/content-types\">\n  <Default Extension=\"rels\" ContentType=\"application/vnd.openxmlformats-package.relationships+xml\" />\n  <Default Extension=\"model\" ContentType=\"application/vnd.ms-package.3dmanufacturing-3dmodel+xml\" />\n</Types>\n";

/// The package relationships, naming the 3D model part.
pub const ROOT_RELS: &'static str = "<?xml version=\"1.0\" encoding=\"UTF-8\"?>\n<Relationships xmlns=\"http://schemas.openxmlformats.org/package/2006/relationships\">\n  <Relationship Target=\"/3D/3dmodel.model\" Id=\"rel0\" Type=\"http://schemas.microsoft.com/3dmanufacturing/2013/01/3dmodel\" />\n</Relationships>\n";

/// The opening of the model document, up to and including the resources tag.
pub open spec fn model_header(title: Seq<char>) -> Seq<char> {
    "<?xml version=\"1.0\" encoding=\"UTF-8\"?>\n<model unit=\"millimeter\" xml:lang=\"en-US\" xmlns=\"http://schemas.microsoft.com/3dmanufacturing/core/2015/02\">\n  <metadata name=\"Title\">"@
        + escape_text(title) + "</metadata>\n  <resources>\n"@
}

/// The vertex element of one vertex.
pub open spec fn vertex_line(v: VertexText) -> Seq<char> {
    "          <vertex x=\""@ + v.x@ + "\" y=\""@ + v.y@ + "\" z=\""@ + v.z@ + "\" />\n"@
}

/// The vertex elements of a sequence of vertices, in order.
pub open spec fn vertex_lines(vs: Seq<VertexText>) -> Seq<char>
    decreases vs.len(),
{
    if vs.len() == 0 {
        Seq::empty()
    } else {
        vertex_lines(vs.drop_last()) + vertex_line(vs.last())
    }
}

/// The triangle element of a triangle with the given vertex indices.
pub open spec fn triangle_line(a: u64, b: u64, c: u64) -> Seq<char> {
    "          <triangle v1=\""@ + decimal(a as nat) + "\" v2=\""@ + decimal(b as nat)
        + "\" v3=\""@ + decimal(c as nat) + "\" />\n"@
}

/// The triangle elements of the first `count` complete index triples of `ts`.
pub open spec fn triangle_lines(ts: Seq<u64>, count: nat) -> Seq<char>
    decreases count,
{
    if count == 0 {
        Seq::empty()
    } else {
        let k = (count - 1) as nat;
        let base = 3 * k as int;
        triangle_lines(ts, k) + triangle_line(ts[base], ts[base + 1], ts[base + 2])
    }
}

/// The triangle elements keep every triangle and its vertex order: the element of
/// triangle `k` follows those of triangles `0..k` and reads
/// `<triangle v1="a" v2="b" v3="c" />` with `a`, `b`, `c` the indices at `3k`,
/// `3k + 1` and `3k + 2`, in that order.
pub proof fn lemma_triangles_keep_their_order(ts: Seq<u64>, n: nat, k: nat)
    requires
        k < n,
        3 * n <= ts.len(),
    ensures
        ({
            let before = triangle_lines(ts, k) + "          <triangle v1=\""@ + decimal(
                ts[3 * k as int] as nat,
            ) + "\" v2=\""@ + decimal(ts[3 * k as int + 1] as nat) + "\" v3=\""@ + decimal(
                ts[3 * k as int + 2] as nat,
            ) + "\" />\n"@;
            before.len() <= triangle_lines(ts, n).len() && triangle_lines(ts, n).subrange(
                0,
                before.len() as int,
            ) == before
        }),
    decreases n,
{
    let line = "          <triangle v1=\""@ + decimal(ts[3 * k as int] as nat) + "\" v2=\""@
        + decimal(ts[3 * k as int + 1] as nat) + "\" v3=\""@ + decimal(ts[3 * k as int + 2] as nat) + "\" />\n"@;
    let before = triangle_lines(ts, k) + line;
    let last = (n - 1) as nat;
    let tail = triangle_line(ts[3 * last as int], ts[3 * last as int + 1], ts[3 * last as int + 2]);
    assert(triangle_lines(ts, n) == triangle_lines(ts, last) + tail);
    if k + 1 == n {
        assert(triangle_lines(ts, n).subrange(0, before.len() as int) =~= before);
    } else {
        lemma_triangles_keep_their_order(ts, last, k);
        assert(triangle_lines(ts, n).subrange(0, before.len() as int) =~= triangle_lines(
            ts,
            last,
        ).subrange(0, before.len() as int));
    }
}

/// The object element of the object with the given id.
pub open spec fn object_text(id: nat, o: ModelObject) -> Seq<char> {
    "    <object id=\""@ + decimal(id) + "\" name=\""@ + escape_text(o.name@)
        + "\" type=\"model\">\n"@ + "      <mesh>\n"@ + "        <vertices>\n"@ + vertex_lines(
        o.vertices@,
    ) + "        </vertices>\n"@ + "        <triangles>\n"@ + triangle_lines(
        o.triangle_vertices@,
        o.triangle_vertices@.len() / 3,
    ) + "        </triangles>\n"@ + "      </mesh>\n"@ + "    </object>\n"@
}

/// The object elements of a sequence of objects; the object at index `i` gets id `i + 1`.
pub open spec fn object_texts(os: Seq<ModelObject>) -> Seq<char>
    decreases os.len(),
{
    if os.len() == 0 {
        Seq::empty()
    } else {
        object_texts(os.drop_last()) + object_text(os.len(), os.last())
    }
}

/// The build items that place objects `1` to `count` on the plate.
pub open spec fn build_items(count: nat) -> Seq<char>
    decreases count,
{
    if count == 0 {
        Seq::empty()
    } else {
        build_items((count - 1) as nat) + "    <item objectid=\""@ + decimal(count) + "\" />\n"@
    }
}

/// The complete 3MF model document for the given title and objects.
pub open spec fn model_document(title: Seq<char>, os: Seq<ModelObject>) -> Seq<char> {
    model_header(title) + object_texts(os) + "  </resources>\n"@ + "  <build>\n"@ + build_items(
        os.len(),
    ) + "  </build>\n"@ + "</model>\n"@
}

fn push_vertices(out: &mut String, vertices: &Vec<VertexText>)
    ensures
        final(out)@ == old(out)@ + vertex_lines(vertices@),
{
    let ghost start = out@;
    let mut i: usize = 0;
    proof {
        assert(vertices@.take(0) =~= Seq::<VertexText>::empty());
        assert(out@ =~= start + vertex_lines(vertices@.take(0)));
    }
    while i < vertices.len()
        invariant
            i <= vertices.len(),
            out@ == start + vertex_lines(vertices@.take(i as int)),
        decreases vertices.len() - i,
    {
        let v = &vertices[i];
        out.append("          <vertex x=\"");
        out.append(v.x.as_str());
        out.append("\" y=\"");
        out.append(v.y.as_str());
        out.append("\" z=\"");
        out.append(v.z.as_str());
        out.append("\" />\n");
        proof {
            let next = vertices@.take(i + 1);
            assert(next.drop_last() =~= vertices@.take(i as int));
            assert(next.last() == vertices@[i as int]);
            assert(out@ =~= start + vertex_lines(next));
        }
        i = i + 1;
    }
    proof {
        assert(vertices@.take(vertices.len() as int) =~= vertices@);
    }
}

fn push_triangles(out: &mut String, indices: &Vec<u64>)
    ensures
        final(out)@ == old(out)@ + triangle_lines(indices@, indices@.len() / 3),
{
    let ghost start = out@;
    let len = indices.len();
    let count = len / 3;
    let mut t: usize = 0;
    while t < count
        invariant
            len == indices@.len(),
            count == len / 3,
            t <= count,
            out@ == start + triangle_lines(indices@, t as nat),
        decreases count - t,
    {
        proof {
            assert(3 * t + 2 < len) by (nonlinear_arith)
                requires
                    t < count,
                    count == len / 3,
            ;
        }
        let base = 3 * t;
        out.append("          <triangle v1=\"");
        push_decimal(out, indices[base]);
        out.append("\" v2=\"");
        push_decimal(out, indices[base + 1]);
        out.append("\" v3=\"");
        push_decimal(out, indices[base + 2]);
        out.append("\" />\n");
        proof {
            assert(out@ =~= start + triangle_lines(indices@, (t + 1) as nat));
        }
        t = t + 1;
    }
}

fn push_object(out: &mut String, id: u64, object: &ModelObject)
    ensures
        final(out)@ == old(out)@ + object_text(id as nat, *object),
{
    let ghost start = out@;
    out.append("    <object id=\"");
    push_decimal(out, id);
    out.append("\" name=\"");
    push_escaped(out, object.name.as_str());
    out.append("\" type=\"model\">\n");
    out.append("      <mesh>\n");
    out.append("        <vertices>\n");
    push_vertices(out, &object.vertices);
    out.append("        </vertices>\n");
    out.append("        <triangles>\n");
    push_triangles(out, &object.triangle_vertices);
    out.append("        </triangles>\n");
    out.append("      </mesh>\n");
    out.append("    </object>\n");
    proof {
        assert(out@ =~= start + object_text(id as nat, *object));
    }
}

/// Writes the 3MF model document: the title, then every object as a mesh with id
/// `index + 1`, then one build item per object.
pub fn write_model_xml(title: &str, objects: &[ModelObject]) -> (document: String)
    ensures
        document@ == model_document(title@, objects@),
{
    let mut out = String::new();
    out.append("<?xml version=\"1.0\" encoding=\"UTF-8\"?>\n<model unit=\"millimeter\" xml:lang=\"en-US\" xmlns=\"http://schemas.microsoft.com/3dmanufacturing/core/2015/02\">\n  <metadata name=\"Title\">");
    push_escaped(&mut out, title);
    out.append("</metadata>\n  <resources>\n");
    let ghost header = out@;
    proof {
        assert(header =~= model_header(title@));
        assert(objects@.take(0) =~= Seq::<ModelObject>::empty());
        assert(out@ =~= header + object_texts(objects@.take(0)));
    }
    let mut i: usize = 0;
    while i < objects.len()
        invariant
            i <= objects@.len(),
            header == model_header(title@),
            out@ == header + object_texts(objects@.take(i as int)),
        decreases objects@.len() - i,
    {
        let id = (i + 1) as u64;
        push_object(&mut out, id, &objects[i]);
        proof {
            let next = objects@.take(i + 1);
            assert(next.drop_last() =~= objects@.take(i as int));
            assert(next.last() == objects@[i as int]);
            assert(out@ =~= header + object_texts(next));
        }
        i = i + 1;
    }
    proof {
        assert(objects@.take(objects@.len() as int) =~= objects@);
    }
    let ghost resources = out@;
    out.append("  </resources>\n");
    out.append("  <build>\n");
    let ghost items_start = out@;
    let mut k: usize = 0;
    while k < objects.len()
        invariant
            k <= objects@.len(),
            out@ == items_start + build_items(k as nat),
        decreases objects@.len() - k,
    {
        out.append("    <item objectid=\"");
        push_decimal(&mut out, (k + 1) as u64);
        out.append("\" />\n");
        proof {
            assert(out@ =~= items_start + build_items((k + 1) as nat));
        }
        k = k + 1;
    }
    out.append("  </build>\n");
    out.append("</model>\n");
    proof {
        assert(out@ =~= model_document(title@, objects@));
    }
    out
}

/// The parts of a 3MF package in the order they are stored: the content types,
/// the package relationships and the model document.
pub open spec fn package_parts(title: Seq<char>, os: Seq<ModelObject>) -> Seq<(Seq<char>, Seq<char>)> {
    seq![
        ("[Content_Types].xml"@, CONTENT_TYPES@),
        ("_rels/.rels"@, ROOT_RELS@),
        ("3D/3dmodel.model"@, model_document(title, os)),
    ]
}

/// Builds the parts of a 3MF package that holds `objects` under `title`.
pub fn three_mf_parts(title: &str, objects: &[ModelObject]) -> (parts: Vec<PackagePart>)
    ensures
        parts@.len() == 3,
        forall|i: int|
            0 <= i < 3 ==> (#[trigger] parts@[i]).path@ == package_parts(title@, objects@)[i].0
                && parts@[i].text@ == package_parts(title@, objects@)[i].1,
{
    let mut parts = Vec::new();
    parts.push(
        PackagePart {
            path: String::from_str("[Content_Types].xml"),
            text: String::from_str(CONTENT_TYPES),
        },
    );
    parts.push(PackagePart { path: String::from_str("_rels/.rels"), text: String::from_str(ROOT_RELS) });
    parts.push(
        PackagePart {
            path: String::from_str("3D/3dmodel.model"),
            text: write_model_xml(title, objects),
        },
    );
    parts
}

} // verus!
