use crate::history::views;
use crate::mesh::{ImageView, LayerView, Mesh, MeshView, Point, Rgba};
use vstd::bytes::{
    spec_u32_from_le_bytes, spec_u32_to_le_bytes, spec_u64_from_le_bytes, spec_u64_to_le_bytes,
    u32_from_le_bytes, u32_to_le_bytes, u64_from_le_bytes, u64_to_le_bytes,
};
use vstd::prelude::*;
use vstd::utf8::{decode_utf8, encode_utf8, valid_utf8};

verus! {

broadcast use vstd::seq_lib::group_seq_properties;

/// The file format's version; files of a later version are refused.
pub const VERSION: u32 = 1;

/// The view of the scene stored beside the mesh: its offset and scale, each held as the
/// bit pattern of an IEEE-754 single-precision number.
#[derive(Clone, Copy, PartialEq, Eq, Structural, Debug)]
pub struct Meta {
    pub offset_x: u32,
    pub offset_y: u32,
    pub scale: u32,
}

/// The four bytes of a tag.
pub open spec fn tag(a: u8, b: u8, c: u8, d: u8) -> Seq<u8> {
    seq![a, b, c, d]
}

/// `KRI\0`, which every workspace file starts with.
pub open spec fn magic() -> Seq<u8> { tag(0x4b, 0x52, 0x49, 0x00) }
/// `META`
pub open spec fn meta_tag() -> Seq<u8> { tag(0x4d, 0x45, 0x54, 0x41) }
/// `VERT`
pub open spec fn vertices_tag() -> Seq<u8> { tag(0x56, 0x45, 0x52, 0x54) }
/// `EDGE`
pub open spec fn edges_tag() -> Seq<u8> { tag(0x45, 0x44, 0x47, 0x45) }
/// `LAYR`
pub open spec fn layers_tag() -> Seq<u8> { tag(0x4c, 0x41, 0x59, 0x52) }
/// `VLAY`
pub open spec fn vertex_layers_tag() -> Seq<u8> { tag(0x56, 0x4c, 0x41, 0x59) }
/// `HOLE`
pub open spec fn holes_tag() -> Seq<u8> { tag(0x48, 0x4f, 0x4c, 0x45) }
/// `COLR`
pub open spec fn colors_tag() -> Seq<u8> { tag(0x43, 0x4f, 0x4c, 0x52) }
/// `IMAG`
pub open spec fn images_tag() -> Seq<u8> { tag(0x49, 0x4d, 0x41, 0x47) }

/// The parts laid one after another.
pub open spec fn join(parts: Seq<Seq<u8>>) -> Seq<u8>
    decreases parts.len(),
{
    if parts.len() == 0 {
        Seq::empty()
    } else {
        join(parts.drop_last()) + parts.last()
    }
}

pub open spec fn enc_u32(x: u32) -> Seq<u8> {
    spec_u32_to_le_bytes(x)
}

pub open spec fn enc_u64(x: u64) -> Seq<u8> {
    spec_u64_to_le_bytes(x)
}

pub open spec fn enc_point(p: Point) -> Seq<u8> {
    enc_u32(p.x) + enc_u32(p.y)
}

/// A list: its length as a `u32`, then each item.
pub open spec fn enc_all<T: Record>(items: Seq<T::V>) -> Seq<u8> {
    enc_u32(items.len() as u32) + join(items.map_values(|v: T::V| T::record(v)))
}

/// A layer's flags: 1 for a curve, 2 for a holdout.
pub open spec fn layer_flags(curve: bool, holdout: bool) -> u8 {
    ((if curve { 1int } else { 0int }) + (if holdout { 2int } else { 0int })) as u8
}

pub open spec fn enc_meta(meta: Meta) -> Seq<u8> {
    enc_u32(meta.offset_x) + enc_u32(meta.offset_y) + enc_u32(meta.scale)
}

/// A section: its tag, the length of its body as a `u64`, then the body.
pub open spec fn section(tag: Seq<u8>, body: Seq<u8>) -> Seq<u8> {
    tag + enc_u64(body.len() as u64) + body
}

/// The colour and image sections.
pub open spec fn colors_on(mesh: MeshView) -> Seq<u8> {
    section(colors_tag(), enc_all::<(Vec<usize>, Rgba)>(mesh.colors)) + section(images_tag(), enc_all::<crate::mesh::Image>(mesh.images))
}

/// The sections from the holes on.
pub open spec fn holes_on(mesh: MeshView) -> Seq<u8> {
    section(holes_tag(), enc_all::<Vec<usize>>(mesh.holes)) + colors_on(mesh)
}

/// The sections from the vertex layers on.
pub open spec fn vertex_layers_on(mesh: MeshView) -> Seq<u8> {
    section(vertex_layers_tag(), enc_all::<u32>(mesh.vertex_layers)) + holes_on(mesh)
}

/// The sections from the layers on.
pub open spec fn layers_on(mesh: MeshView) -> Seq<u8> {
    section(layers_tag(), enc_all::<crate::mesh::Layer>(mesh.layers)) + vertex_layers_on(mesh)
}

/// The sections from the edges on.
pub open spec fn edges_on(mesh: MeshView) -> Seq<u8> {
    section(edges_tag(), enc_all::<[usize; 2]>(mesh.edges)) + layers_on(mesh)
}

/// The sections from the vertices on.
pub open spec fn vertices_on(mesh: MeshView) -> Seq<u8> {
    section(vertices_tag(), enc_all::<Point>(mesh.vertices)) + edges_on(mesh)
}

/// All sections: the view, then the mesh list by list.
pub open spec fn sections(mesh: MeshView, meta: Meta) -> Seq<u8> {
    section(meta_tag(), enc_meta(meta)) + vertices_on(mesh)
}

/// The bytes of a workspace file that holds `mesh` and `meta`: the magic, the version,
/// then the sections.
pub open spec fn spec_encode(mesh: MeshView, meta: Meta) -> Seq<u8> {
    magic() + (enc_u32(VERSION) + sections(mesh, meta))
}

proof fn lemma_join_push(parts: Seq<Seq<u8>>, part: Seq<u8>)
    ensures
        join(parts.push(part)) == join(parts) + part,
{
    assert(parts.push(part).drop_last() =~= parts);
}

proof fn lemma_map_take_push<T>(items: Seq<T>, f: spec_fn(T) -> Seq<u8>, i: int)
    requires
        0 <= i < items.len(),
    ensures
        items.take(i + 1).map_values(f) == items.take(i).map_values(f).push(f(items[i])),
{
    assert(items.take(i + 1).map_values(f) =~= items.take(i).map_values(f).push(f(items[i])));
}

/// Appends bytes to a buffer, each step stated over the bytes written so far.
pub struct Writer {
    bytes: Vec<u8>,
}

impl View for Writer {
    type V = Seq<u8>;

    closed spec fn view(&self) -> Seq<u8> {
        self.bytes@
    }
}

/// A value with a fixed way of being written into a workspace file.
pub trait Record: View + Sized {
    /// The bytes that stand for a value.
    spec fn record(v: Self::V) -> Seq<u8>;

    /// Appends the value's bytes.
    fn write(&self, writer: &mut Writer)
        ensures
            final(writer)@ == old(writer)@ + Self::record(self@),
    ;
}

impl Record for u32 {
    open spec fn record(v: u32) -> Seq<u8> {
        enc_u32(v)
    }

    fn write(&self, writer: &mut Writer) {
        writer.u32(*self);
    }
}

impl Record for usize {
    open spec fn record(v: usize) -> Seq<u8> {
        enc_u32(v as u32)
    }

    fn write(&self, writer: &mut Writer) {
        writer.u32(*self as u32);
    }
}

impl Record for Point {
    open spec fn record(v: Point) -> Seq<u8> {
        enc_u32(v.x) + enc_u32(v.y)
    }

    fn write(&self, writer: &mut Writer) {
        writer.pos(*self);
    }
}

impl Record for [usize; 2] {
    open spec fn record(v: Seq<usize>) -> Seq<u8> {
        enc_u32(v[0] as u32) + enc_u32(v[1] as u32)
    }

    fn write(&self, writer: &mut Writer) {
        writer.u32(self[0] as u32);
        writer.u32(self[1] as u32);
        assert(writer.bytes@ =~= old(writer).bytes@ + Self::record(self@));
    }
}

impl Record for Vec<usize> {
    open spec fn record(v: Seq<usize>) -> Seq<u8> {
        enc_all::<usize>(v)
    }

    fn write(&self, writer: &mut Writer) {
        writer.indices(self.as_slice());
        assert(views(self@) =~= self@);
    }
}

impl Record for crate::mesh::Layer {
    open spec fn record(v: LayerView) -> Seq<u8> {
        let name = encode_utf8(v.name);
        enc_u32(v.id) + seq![layer_flags(v.curve, v.holdout)] + enc_u32(name.len() as u32) + name
    }

    fn write(&self, writer: &mut Writer) {
        writer.u32(self.id);
        let flags: u8 = if self.curve { 1 } else { 0 };
        let flags: u8 = if self.holdout { flags + 2 } else { flags };
        writer.u8(flags);
        let name = self.name.as_str().as_bytes();
        writer.u32(name.len() as u32);
        writer.put(name);
        assert(writer.bytes@ =~= old(writer).bytes@ + Self::record(self@));
    }
}

impl Record for (Vec<usize>, Rgba) {
    open spec fn record(v: (Seq<usize>, Rgba)) -> Seq<u8> {
        enc_all::<usize>(v.0) + seq![v.1.r, v.1.g, v.1.b, v.1.a]
    }

    fn write(&self, writer: &mut Writer) {
        writer.indices(self.0.as_slice());
        assert(views(self.0@) =~= self.0@);
        writer.u8(self.1.r);
        writer.u8(self.1.g);
        writer.u8(self.1.b);
        writer.u8(self.1.a);
        assert(writer.bytes@ =~= old(writer).bytes@ + Self::record(self@));
    }
}

impl Record for crate::mesh::Image {
    open spec fn record(v: ImageView) -> Seq<u8> {
        enc_u32(v.corners[0].x) + enc_u32(v.corners[0].y) + enc_u32(v.corners[1].x) + enc_u32(v.corners[1].y)
            + enc_u32(v.corners[2].x) + enc_u32(v.corners[2].y) + enc_u32(v.corners[3].x) + enc_u32(v.corners[3].y)
            + enc_u64(v.source.len() as u64) + v.source
    }

    fn write(&self, writer: &mut Writer) {
        writer.pos(self.corners[0]);
        writer.pos(self.corners[1]);
        writer.pos(self.corners[2]);
        writer.pos(self.corners[3]);
        writer.u64(self.source.len() as u64);
        writer.put(self.source.as_slice());
        assert(writer.bytes@ =~= old(writer).bytes@ + Self::record(self@));
    }
}

impl Writer {
    fn u8(&mut self, value: u8)
        ensures
            final(self).bytes@ == old(self).bytes@.push(value),
    {
        self.bytes.push(value);
    }

    fn put(&mut self, data: &[u8])
        ensures
            final(self).bytes@ == old(self).bytes@ + data@,
    {
        let ghost start = self.bytes@;
        let mut i: usize = 0;
        while i < data.len()
            invariant
                i <= data@.len(),
                self.bytes@ == start + data@.take(i as int),
            decreases data@.len() - i,
        {
            self.bytes.push(data[i]);
            i = i + 1;
            assert(self.bytes@ =~= start + data@.take(i as int));
        }
        assert(data@.take(data@.len() as int) =~= data@);
    }

    fn u32(&mut self, value: u32)
        ensures
            final(self).bytes@ == old(self).bytes@ + enc_u32(value),
    {
        let data = u32_to_le_bytes(value);
        self.put(data.as_slice());
    }

    fn u64(&mut self, value: u64)
        ensures
            final(self).bytes@ == old(self).bytes@ + enc_u64(value),
    {
        let data = u64_to_le_bytes(value);
        self.put(data.as_slice());
    }

    /// Writes the bit pattern of a single-precision number, as its little-endian bytes.
    fn bits(&mut self, value: u32)
        ensures
            final(self).bytes@ == old(self).bytes@ + enc_u32(value),
    {
        self.u32(value);
    }

    fn pos(&mut self, pos: Point)
        ensures
            final(self).bytes@ == old(self).bytes@ + enc_point(pos),
    {
        self.bits(pos.x);
        self.bits(pos.y);
        assert(self.bytes@ =~= old(self).bytes@ + enc_point(pos));
    }

    fn indices(&mut self, indices: &[usize])
        ensures
            final(self).bytes@ == old(self).bytes@ + enc_all::<usize>(views(indices@)),
    {
        self.list(indices);
    }

    /// Writes a list: its length as a `u32`, then each item.
    fn list<T: Record>(&mut self, items: &[T])
        ensures
            final(self).bytes@ == old(self).bytes@ + enc_all::<T>(views(items@)),
    {
        let ghost start = self.bytes@;
        let ghost vs = views(items@);
        let ghost f = |v: T::V| T::record(v);
        self.u32(items.len() as u32);
        let mut i: usize = 0;
        while i < items.len()
            invariant
                i <= items@.len(),
                vs == views(items@),
                f == |v: T::V| T::record(v),
                self.bytes@ == start + enc_u32(items@.len() as u32) + join(vs.take(i as int).map_values(f)),
            decreases items@.len() - i,
        {
            proof {
                lemma_map_take_push(vs, f, i as int);
                lemma_join_push(vs.take(i as int).map_values(f), f(vs[i as int]));
            }
            items[i].write(self);
            i = i + 1;
            assert(self.bytes@ =~= start + enc_u32(items@.len() as u32) + join(vs.take(i as int).map_values(f)));
        }
        assert(vs.take(items@.len() as int) =~= vs);
        assert(self.bytes@ =~= start + enc_all::<T>(vs));
    }

    /// Writes a section's tag and a placeholder for its length; returns where the
    /// length stands.
    fn open_section(&mut self, a: u8, b: u8, c: u8, d: u8) -> (start: usize)
        ensures
            final(self).bytes@ == old(self).bytes@ + tag(a, b, c, d) + enc_u64(0),
            start == old(self).bytes@.len() + 4,
    {
        self.u8(a);
        self.u8(b);
        self.u8(c);
        self.u8(d);
        let start = self.bytes.len();
        self.u64(0);
        assert(self.bytes@ =~= old(self).bytes@ + tag(a, b, c, d) + enc_u64(0));
        start
    }

    /// Writes the length of the section body that follows `start` in its place.
    fn close_section(&mut self, start: usize)
        requires
            start + 8 <= old(self).bytes@.len(),
            old(self).bytes@.subrange(start as int, start + 8) == enc_u64(0),
        ensures
            final(self).bytes@ == old(self).bytes@.take(start as int)
                + enc_u64((old(self).bytes@.len() - start - 8) as u64) + old(self).bytes@.skip(start + 8),
    {
        proof {
            vstd::bytes::lemma_auto_spec_u64_to_from_le_bytes();
        }
        let len = (self.bytes.len() - start - 8) as u64;
        let data = u64_to_le_bytes(len);
        let ghost old_bytes = self.bytes@;
        let total = self.bytes.len();
        let mut i: usize = 0;
        while i < 8
            invariant
                i <= 8,
                total == old_bytes.len(),
                data@.len() == 8,
                start + 8 <= old_bytes.len(),
                self.bytes@.len() == old_bytes.len(),
                forall|j: int| 0 <= j < start ==> self.bytes@[j] == old_bytes[j],
                forall|j: int| 0 <= j < i ==> self.bytes@[start + j] == data@[j],
                forall|j: int| start + i <= j < old_bytes.len() ==> self.bytes@[j] == old_bytes[j],
            decreases 8 - i,
        {
            self.bytes.set(start + i, data[i]);
            i = i + 1;
        }
        assert(self.bytes@ =~= old_bytes.take(start as int) + enc_u64(len) + old_bytes.skip(start + 8));
    }
}

proof fn lemma_section_close(prefix: Seq<u8>, t: Seq<u8>, body: Seq<u8>)
    requires
        t.len() == 4,
    ensures
        ({
            let written = prefix + t + enc_u64(0) + body;
            let start: int = prefix.len() as int + 4;
            &&& start + 8 <= written.len()
            &&& written.subrange(start as int, start + 8) == enc_u64(0)
            &&& written.take(start as int) + enc_u64((written.len() - start - 8) as u64) + written.skip(start + 8)
                == prefix + section(t, body)
        }),
{
    vstd::bytes::lemma_auto_spec_u64_to_from_le_bytes();
    let written = prefix + t + enc_u64(0) + body;
    let start: int = prefix.len() as int + 4;
    assert(enc_u64(0).len() == 8);
    assert(written.subrange(start as int, start + 8) =~= enc_u64(0));
    assert(written.take(start as int) =~= prefix + t);
    assert(written.skip(start + 8) =~= body);
    assert(written.len() - start - 8 == body.len());
    assert(written.take(start as int) + enc_u64((written.len() - start - 8) as u64) + written.skip(start + 8)
        =~= prefix + section(t, body));
}

} // verus!

verus! {

impl Writer {
    /// Writes one section whose body is a list.
    fn list_section<T: Record>(&mut self, a: u8, b: u8, c: u8, d: u8, items: &[T])
        ensures
            final(self)@ == old(self)@ + section(tag(a, b, c, d), enc_all::<T>(views(items@))),
    {
        let ghost prefix = self.bytes@;
        let start = self.open_section(a, b, c, d);
        self.list(items);
        proof {
            lemma_section_close(prefix, tag(a, b, c, d), enc_all::<T>(views(items@)));
            assert(self.bytes@ =~= prefix + tag(a, b, c, d) + enc_u64(0) + enc_all::<T>(views(items@)));
        }
        self.close_section(start);
    }
}

/// The bytes of a workspace file holding `mesh` and `meta`.
#[verifier::rlimit(40)]
pub fn encode(mesh: &Mesh, meta: &Meta) -> (bytes: Vec<u8>)
    ensures
        bytes@ == spec_encode(mesh@, *meta),
{
    let mut writer = Writer { bytes: Vec::new() };
    writer.u8(0x4b);
    writer.u8(0x52);
    writer.u8(0x49);
    writer.u8(0x00);
    writer.u32(VERSION);
    let ghost prefix = writer.bytes@;
    let start = writer.open_section(0x4d, 0x45, 0x54, 0x41);
    writer.bits(meta.offset_x);
    writer.bits(meta.offset_y);
    writer.bits(meta.scale);
    proof {
        lemma_section_close(prefix, meta_tag(), enc_meta(*meta));
        assert(writer.bytes@ =~= prefix + meta_tag() + enc_u64(0) + enc_meta(*meta));
    }
    writer.close_section(start);
    let ghost m = mesh@;
    let ghost whole = spec_encode(m, *meta);
    assert(writer.bytes@ + vertices_on(m) =~= whole);
    let ghost before = writer.bytes@;
    writer.list_section(0x56, 0x45, 0x52, 0x54, mesh.vertices.as_slice());
    assert(writer.bytes@ + edges_on(m) =~= before + vertices_on(m));
    let ghost before = writer.bytes@;
    writer.list_section(0x45, 0x44, 0x47, 0x45, mesh.edges.as_slice());
    assert(writer.bytes@ + layers_on(m) =~= before + edges_on(m));
    let ghost before = writer.bytes@;
    writer.list_section(0x4c, 0x41, 0x59, 0x52, mesh.layers.as_slice());
    assert(writer.bytes@ + vertex_layers_on(m) =~= before + layers_on(m));
    let ghost before = writer.bytes@;
    writer.list_section(0x56, 0x4c, 0x41, 0x59, mesh.vertex_layers.as_slice());
    assert(writer.bytes@ + holes_on(m) =~= before + vertex_layers_on(m));
    let ghost before = writer.bytes@;
    writer.list_section(0x48, 0x4f, 0x4c, 0x45, mesh.holes.as_slice());
    assert(writer.bytes@ + colors_on(m) =~= before + holes_on(m));
    let ghost before = writer.bytes@;
    writer.list_section(0x43, 0x4f, 0x4c, 0x52, mesh.colors.as_slice());
    let ghost before = writer.bytes@;
    writer.list_section(0x49, 0x4d, 0x41, 0x47, mesh.images.as_slice());
    assert(writer.bytes@ =~= spec_encode(mesh@, *meta));
    writer.bytes
}

} // verus!

verus! {

pub open spec fn read_u8(b: Seq<u8>) -> Option<(u8, Seq<u8>)> {
    if b.len() >= 1 { Some((b[0], b.skip(1))) } else { None }
}

pub open spec fn read_u32(b: Seq<u8>) -> Option<(u32, Seq<u8>)> {
    if b.len() >= 4 { Some((spec_u32_from_le_bytes(b.take(4)), b.skip(4))) } else { None }
}

pub open spec fn read_u64(b: Seq<u8>) -> Option<(u64, Seq<u8>)> {
    if b.len() >= 8 { Some((spec_u64_from_le_bytes(b.take(8)), b.skip(8))) } else { None }
}

pub open spec fn read_bytes(b: Seq<u8>, n: int) -> Option<(Seq<u8>, Seq<u8>)> {
    if 0 <= n <= b.len() { Some((b.take(n), b.skip(n))) } else { None }
}

/// Reads `count` items one after another.
pub open spec fn parse_items<T: Parse>(b: Seq<u8>, count: nat) -> Option<(Seq<T::V>, Seq<u8>)>
    decreases count,
{
    if count == 0 {
        Some((Seq::empty(), b))
    } else {
        match parse_items::<T>(b, (count - 1) as nat) {
            None => None,
            Some((items, rest)) => match T::parse(rest) {
                None => None,
                Some((item, after)) => Some((items.push(item), after)),
            },
        }
    }
}

/// Reads a list: a `u32` count, refused when the rest cannot hold that many items of the
/// smallest size, then the items.
pub open spec fn parse_list<T: Parse>(b: Seq<u8>) -> Option<(Seq<T::V>, Seq<u8>)> {
    match read_u32(b) {
        None => None,
        Some((count, rest)) => if count * T::size() > rest.len() {
            None
        } else {
            parse_items::<T>(rest, count as nat)
        },
    }
}

/// Reads bytes front to back; each step is stated over the bytes left.
pub struct Reader<'a> {
    bytes: &'a [u8],
}

impl<'a> View for Reader<'a> {
    type V = Seq<u8>;

    closed spec fn view(&self) -> Seq<u8> {
        self.bytes@
    }
}

/// A value with a fixed way of being read from a workspace file.
pub trait Parse: View + Sized {
    /// The value at the front of `b` and the bytes after it, if `b` starts with one.
    spec fn parse(b: Seq<u8>) -> Option<(Self::V, Seq<u8>)>;

    /// The fewest bytes a value takes.
    spec fn size() -> nat;

    fn min_size() -> (size: usize)
        ensures
            size == Self::size(),
    ;

    fn read(reader: &mut Reader) -> (item: Option<Self>)
        ensures
            match Self::parse(old(reader)@) {
                None => item is None,
                Some((v, rest)) => item matches Some(x) && x@ == v && final(reader)@ == rest,
            },
    ;
}

impl<'a> Reader<'a> {
    fn take(&mut self, len: usize) -> (head: Option<&'a [u8]>)
        ensures
            match read_bytes(old(self)@, len as int) {
                None => head is None && final(self)@ == old(self)@,
                Some((h, rest)) => head matches Some(x) && x@ == h && final(self)@ == rest,
            },
    {
        if len > self.bytes.len() {
            return None;
        }
        let head = vstd::slice::slice_subrange(self.bytes, 0, len);
        let rest = vstd::slice::slice_subrange(self.bytes, len, self.bytes.len());
        self.bytes = rest;
        Some(head)
    }

    fn u8(&mut self) -> (value: Option<u8>)
        ensures
            match read_u8(old(self)@) {
                None => value is None,
                Some((v, rest)) => value == Some(v) && final(self)@ == rest,
            },
    {
        let head = self.take(1)?;
        Some(head[0])
    }

    fn u32(&mut self) -> (value: Option<u32>)
        ensures
            match read_u32(old(self)@) {
                None => value is None && final(self)@ == old(self)@,
                Some((v, rest)) => value == Some(v) && final(self)@ == rest,
            },
    {
        let head = self.take(4)?;
        Some(u32_from_le_bytes(head))
    }

    fn u64(&mut self) -> (value: Option<u64>)
        ensures
            match read_u64(old(self)@) {
                None => value is None,
                Some((v, rest)) => value == Some(v) && final(self)@ == rest,
            },
    {
        let head = self.take(8)?;
        Some(u64_from_le_bytes(head))
    }

    /// Reads the bit pattern of a single-precision number.
    fn bits(&mut self) -> (value: Option<u32>)
        ensures
            match read_u32(old(self)@) {
                None => value is None,
                Some((v, rest)) => value == Some(v) && final(self)@ == rest,
            },
    {
        self.u32()
    }

    /// Reads the four bytes of a tag.
    fn array(&mut self) -> (value: Option<[u8; 4]>)
        ensures
            match read_bytes(old(self)@, 4) {
                None => value is None,
                Some((h, rest)) => value matches Some(a) && a@ == h && final(self)@ == rest,
            },
    {
        let head = self.take(4)?;
        let value = [head[0], head[1], head[2], head[3]];
        assert(value@ =~= head@);
        Some(value)
    }

    fn pos(&mut self) -> (value: Option<Point>)
        ensures
            match <Point as Parse>::parse(old(self)@) {
                None => value is None,
                Some((v, rest)) => value == Some(v) && final(self)@ == rest,
            },
    {
        let x = self.bits()?;
        let y = self.bits()?;
        Some(Point { x, y })
    }

    fn index(&mut self) -> (value: Option<usize>)
        ensures
            match <usize as Parse>::parse(old(self)@) {
                None => value is None,
                Some((v, rest)) => value == Some(v) && final(self)@ == rest,
            },
    {
        let value = self.u32()?;
        Some(value as usize)
    }

    fn indices(&mut self) -> (value: Option<Vec<usize>>)
        ensures
            match parse_list::<usize>(old(self)@) {
                None => value is None,
                Some((v, rest)) => value matches Some(x) && x@ == v && final(self)@ == rest,
            },
    {
        let value = self.list::<usize>()?;
        assert(views(value@) =~= value@);
        Some(value)
    }

    /// Reads a list: a `u32` count, refused when the rest cannot hold that many items
    /// of the smallest size, then the items. Without a count nothing is read; a refused
    /// count is read all the same.
    fn list<T: Parse>(&mut self) -> (items: Option<Vec<T>>)
        ensures
            match parse_list::<T>(old(self)@) {
                None => items is None,
                Some((v, rest)) => items matches Some(x) && views(x@) == v && final(self)@ == rest,
            },
            match read_u32(old(self)@) {
                None => final(self)@ == old(self)@,
                Some((count, rest)) => count * T::size() > rest.len() ==> final(self)@ == rest,
            },
    {
        let ghost initial = self@;
        let count32 = self.u32()?;
        let count = count32 as usize;
        let size = T::min_size();
        let remaining = self.bytes.len();
        match count.checked_mul(size) {
            None => return None,
            Some(total) => if total > remaining {
                return None;
            },
        }
        let ghost start = self@;
        assert(parse_list::<T>(initial) == parse_items::<T>(start, count as nat));
        let mut items: Vec<T> = Vec::new();
        let mut i: usize = 0;
        while i < count
            invariant
                i <= count,
                initial == old(self)@,
                read_u32(initial) == Some((count32, start)),
                count32 * T::size() <= start.len(),
                parse_list::<T>(initial) == parse_items::<T>(start, count as nat),
                parse_items::<T>(start, i as nat) == Some((views(items@), self@)),
            decreases count - i,
        {
            let ghost before = self@;
            let item = T::read(self);
            match item {
                None => {
                    assert(T::parse(before) is None);
                    assert(parse_items::<T>(start, (i + 1) as nat) is None);
                    proof { lemma_parse_items_fail::<T>(start, (i + 1) as nat, count as nat); }
                    return None;
                },
                Some(item) => {
                    let ghost prior = items@;
                    items.push(item);
                    assert(views(items@) =~= views(prior).push(item@));
                },
            }
            i = i + 1;
        }
        Some(items)
    }
}

/// Once reading the first items fails, reading more fails too.
pub proof fn lemma_parse_items_fail<T: Parse>(b: Seq<u8>, i: nat, count: nat)
    requires
        i <= count,
        parse_items::<T>(b, i) is None,
    ensures
        parse_items::<T>(b, count) is None,
    decreases count - i,
{
    if i < count {
        lemma_parse_items_fail::<T>(b, i + 1, count);
    }
}

impl Parse for u32 {
    open spec fn parse(b: Seq<u8>) -> Option<(u32, Seq<u8>)> {
        read_u32(b)
    }

    open spec fn size() -> nat {
        4
    }

    fn min_size() -> (size: usize) {
        4
    }

    fn read(reader: &mut Reader) -> (item: Option<Self>) {
        reader.u32()
    }
}

impl Parse for usize {
    open spec fn parse(b: Seq<u8>) -> Option<(usize, Seq<u8>)> {
        match read_u32(b) {
            None => None,
            Some((v, rest)) => Some((v as usize, rest)),
        }
    }

    open spec fn size() -> nat {
        4
    }

    fn min_size() -> (size: usize) {
        4
    }

    fn read(reader: &mut Reader) -> (item: Option<Self>) {
        reader.index()
    }
}

impl Parse for Point {
    open spec fn parse(b: Seq<u8>) -> Option<(Point, Seq<u8>)> {
        match read_u32(b) {
            None => None,
            Some((x, r)) => match read_u32(r) {
                None => None,
                Some((y, rest)) => Some((Point { x, y }, rest)),
            },
        }
    }

    open spec fn size() -> nat {
        8
    }

    fn min_size() -> (size: usize) {
        8
    }

    fn read(reader: &mut Reader) -> (item: Option<Self>) {
        reader.pos()
    }
}

impl Parse for [usize; 2] {
    open spec fn parse(b: Seq<u8>) -> Option<(Seq<usize>, Seq<u8>)> {
        match read_u32(b) {
            None => None,
            Some((x, r)) => match read_u32(r) {
                None => None,
                Some((y, rest)) => Some((seq![x as usize, y as usize], rest)),
            },
        }
    }

    open spec fn size() -> nat {
        8
    }

    fn min_size() -> (size: usize) {
        8
    }

    fn read(reader: &mut Reader) -> (item: Option<Self>) {
        let a = reader.index()?;
        let b = reader.index()?;
        let edge = [a, b];
        assert(edge@ =~= seq![a, b]);
        Some(edge)
    }
}

impl Parse for Vec<usize> {
    open spec fn parse(b: Seq<u8>) -> Option<(Seq<usize>, Seq<u8>)> {
        parse_list::<usize>(b)
    }

    open spec fn size() -> nat {
        4
    }

    fn min_size() -> (size: usize) {
        4
    }

    fn read(reader: &mut Reader) -> (item: Option<Self>) {
        reader.indices()
    }
}

/// Calls `String::from_utf8`, which std documents as giving the string that the bytes
/// encode when they are valid UTF-8, and an error otherwise.
#[verifier::external_body]
pub(crate) fn string_from_utf8(bytes: Vec<u8>) -> (text: Option<String>)
    ensures
        text is Some <==> valid_utf8(bytes@),
        text matches Some(s) ==> s@ == decode_utf8(bytes@),
{
    String::from_utf8(bytes).ok()
}

impl Parse for crate::mesh::Layer {
    open spec fn parse(b: Seq<u8>) -> Option<(LayerView, Seq<u8>)> {
        match read_u32(b) {
            None => None,
            Some((id, r1)) => match read_u8(r1) {
                None => None,
                Some((flags, r2)) => match read_u32(r2) {
                    None => None,
                    Some((len, r3)) => match read_bytes(r3, len as int) {
                        None => None,
                        Some((name, rest)) => if valid_utf8(name) {
                            Some((
                                LayerView { id, curve: flags & 1 != 0, holdout: flags & 2 != 0, name: decode_utf8(name) },
                                rest,
                            ))
                        } else {
                            None
                        },
                    },
                },
            },
        }
    }

    open spec fn size() -> nat {
        9
    }

    fn min_size() -> (size: usize) {
        9
    }

    fn read(reader: &mut Reader) -> (item: Option<Self>) {
        let id = reader.u32()?;
        let flags = reader.u8()?;
        let len = reader.u32()? as usize;
        let name = reader.take(len)?;
        let name = string_from_utf8(vstd::slice::slice_to_vec(name))?;
        Some(crate::mesh::Layer { id, curve: flags & 1 != 0, holdout: flags & 2 != 0, name })
    }
}

impl Parse for (Vec<usize>, Rgba) {
    open spec fn parse(b: Seq<u8>) -> Option<((Seq<usize>, Rgba), Seq<u8>)> {
        match parse_list::<usize>(b) {
            None => None,
            Some((key, r)) => match read_bytes(r, 4) {
                None => None,
                Some((c, rest)) => Some(((key, Rgba { r: c[0], g: c[1], b: c[2], a: c[3] }), rest)),
            },
        }
    }

    open spec fn size() -> nat {
        8
    }

    fn min_size() -> (size: usize) {
        8
    }

    fn read(reader: &mut Reader) -> (item: Option<Self>) {
        let key = reader.indices()?;
        let c = reader.array()?;
        Some((key, Rgba { r: c[0], g: c[1], b: c[2], a: c[3] }))
    }
}

impl Parse for ([Point; 4], Vec<u8>) {
    open spec fn parse(b: Seq<u8>) -> Option<((Seq<Point>, Seq<u8>), Seq<u8>)> {
        match <Point as Parse>::parse(b) {
            None => None,
            Some((p0, r0)) => match <Point as Parse>::parse(r0) {
                None => None,
                Some((p1, r1)) => match <Point as Parse>::parse(r1) {
                    None => None,
                    Some((p2, r2)) => match <Point as Parse>::parse(r2) {
                        None => None,
                        Some((p3, r3)) => match read_u64(r3) {
                            None => None,
                            Some((len, r4)) => match read_bytes(r4, len as int) {
                                None => None,
                                Some((source, rest)) => Some(((seq![p0, p1, p2, p3], source), rest)),
                            },
                        },
                    },
                },
            },
        }
    }

    open spec fn size() -> nat {
        40
    }

    fn min_size() -> (size: usize) {
        40
    }

    fn read(reader: &mut Reader) -> (item: Option<Self>) {
        let p0 = reader.pos()?;
        let p1 = reader.pos()?;
        let p2 = reader.pos()?;
        let p3 = reader.pos()?;
        let len = reader.u64()?;
        if len > reader.bytes.len() as u64 {
            return None;
        }
        let source = reader.take(len as usize)?;
        let corners = [p0, p1, p2, p3];
        assert(corners@ =~= seq![p0, p1, p2, p3]);
        Some((corners, vstd::slice::slice_to_vec(source)))
    }
}

} // verus!

verus! {

/// What decoding a workspace file has gathered: the mesh (without images), the stored
/// view, and for each image its corners and encoded source bytes.
#[verifier::ext_equal]
pub struct Decoded {
    pub mesh: MeshView,
    pub meta: Option<Meta>,
    pub sources: Seq<(Seq<Point>, Seq<u8>)>,
}

pub open spec fn empty_mesh() -> MeshView {
    MeshView {
        vertices: Seq::empty(),
        edges: Seq::empty(),
        layers: Seq::empty(),
        vertex_layers: Seq::empty(),
        holes: Seq::empty(),
        colors: Seq::empty(),
        images: Seq::empty(),
    }
}

pub open spec fn parse_meta(b: Seq<u8>) -> Option<Meta> {
    match read_u32(b) {
        None => None,
        Some((x, r1)) => match read_u32(r1) {
            None => None,
            Some((y, r2)) => match read_u32(r2) {
                None => None,
                Some((scale, _)) => Some(Meta { offset_x: x, offset_y: y, scale }),
            },
        },
    }
}

/// The state after reading one section: a known tag replaces what it names, an unknown
/// tag is skipped, and a body that does not read refuses the file.
pub open spec fn apply_section(t: Seq<u8>, body: Seq<u8>, st: Decoded) -> Option<Decoded> {
    if t == meta_tag() {
        match parse_meta(body) {
            None => None,
            Some(meta) => Some(Decoded { meta: Some(meta), ..st }),
        }
    } else if t == vertices_tag() {
        match parse_list::<Point>(body) {
            None => None,
            Some((v, _)) => Some(Decoded { mesh: MeshView { vertices: v, ..st.mesh }, ..st }),
        }
    } else if t == edges_tag() {
        match parse_list::<[usize; 2]>(body) {
            None => None,
            Some((v, _)) => Some(Decoded { mesh: MeshView { edges: v, ..st.mesh }, ..st }),
        }
    } else if t == layers_tag() {
        match parse_list::<crate::mesh::Layer>(body) {
            None => None,
            Some((v, _)) => Some(Decoded { mesh: MeshView { layers: v, ..st.mesh }, ..st }),
        }
    } else if t == vertex_layers_tag() {
        match parse_list::<u32>(body) {
            None => None,
            Some((v, _)) => Some(Decoded { mesh: MeshView { vertex_layers: v, ..st.mesh }, ..st }),
        }
    } else if t == holes_tag() {
        match parse_list::<Vec<usize>>(body) {
            None => None,
            Some((v, _)) => Some(Decoded { mesh: MeshView { holes: v, ..st.mesh }, ..st }),
        }
    } else if t == colors_tag() {
        match parse_list::<(Vec<usize>, Rgba)>(body) {
            None => None,
            Some((v, _)) => Some(Decoded { mesh: MeshView { colors: v, ..st.mesh }, ..st }),
        }
    } else if t == images_tag() {
        match parse_list::<([Point; 4], Vec<u8>)>(body) {
            None => None,
            Some((v, _)) => Some(Decoded { sources: v, ..st }),
        }
    } else {
        Some(st)
    }
}

/// Reads sections until the bytes run out: each is a four-byte tag, a `u64` length and
/// a body of that length.
pub open spec fn read_sections(b: Seq<u8>, st: Decoded) -> Option<Decoded>
    decreases b.len(),
{
    if b.len() == 0 {
        Some(st)
    } else if b.len() < 12 {
        None
    } else {
        let len = spec_u64_from_le_bytes(b.subrange(4, 12));
        if len > b.len() - 12 {
            None
        } else {
            match apply_section(b.take(4), b.subrange(12, 12 + len), st) {
                None => None,
                Some(next) => read_sections(b.skip(12 + len), next),
            }
        }
    }
}

/// What a workspace file holds, or `None` when the bytes are not one: the magic, a
/// version no later than `VERSION`, the sections, and a well-formed mesh.
pub open spec fn spec_decode(b: Seq<u8>) -> Option<Decoded> {
    if b.len() < 8 || b.take(4) != magic() || spec_u32_from_le_bytes(b.subrange(4, 8)) > VERSION {
        None
    } else {
        match read_sections(b.skip(8), Decoded { mesh: empty_mesh(), meta: None, sources: Seq::empty() }) {
            None => None,
            Some(st) => if st.mesh.well_formed() { Some(st) } else { None },
        }
    }
}

/// Whether the mesh is well formed: every vertex has a layer that exists, and every edge
/// and face key names existing vertices.
pub fn is_valid(mesh: &Mesh) -> (valid: bool)
    ensures
        valid == mesh@.well_formed(),
{
    let n = mesh.vertices.len();
    let ghost m = mesh@;
    assert(m.vertices.len() == n);
    if mesh.vertex_layers.len() != n {
        return false;
    }
    let mut v: usize = 0;
    while v < n
        invariant
            v <= n == mesh.vertex_layers@.len(),
            m == mesh@,
            forall|u: int| 0 <= u < v ==> crate::graph::layer_exists(m.layers, #[trigger] m.vertex_layers[u]),
        decreases n - v,
    {
        let id = mesh.vertex_layers[v];
        let mut found = false;
        let mut i: usize = 0;
        while i < mesh.layers.len()
            invariant
                i <= mesh.layers@.len(),
                m == mesh@,
                found == exists|j: int| 0 <= j < i && m.layers[j].id == id,
            decreases mesh.layers@.len() - i,
        {
            assert(m.layers[i as int].id == mesh.layers@[i as int].id);
            if mesh.layers[i].id == id {
                found = true;
            }
            i = i + 1;
        }
        assert(m.vertex_layers[v as int] == id);
        if !found {
            return false;
        }
        v = v + 1;
    }
    let mut i: usize = 0;
    while i < mesh.edges.len()
        invariant
            i <= mesh.edges@.len(),
            n == mesh.vertices@.len(),
            m == mesh@,
            forall|j: int| 0 <= j < i ==> #[trigger] m.edges[j].len() == 2 && m.edges[j][0] < n && m.edges[j][1] < n,
        decreases mesh.edges@.len() - i,
    {
        let edge = mesh.edges[i];
        assert(m.edges[i as int] == edge@);
        if edge[0] >= n || edge[1] >= n {
            return false;
        }
        i = i + 1;
    }
    if !keys_below(mesh.holes.as_slice(), n) {
        assert(!crate::graph::keys_below(m.holes, n as nat));
        return false;
    }
    let ghost color_keys = crate::graph::color_keys(m.colors);
    let mut i: usize = 0;
    while i < mesh.colors.len()
        invariant
            i <= mesh.colors@.len(),
            n == mesh.vertices@.len(),
            m == mesh@,
            color_keys == crate::graph::color_keys(m.colors),
            forall|a: int, b: int| 0 <= a < i && 0 <= b < color_keys[a].len() ==> color_keys[a][b] < n,
        decreases mesh.colors@.len() - i,
    {
        assert(color_keys[i as int] == mesh.colors@[i as int].0@);
        if !index_below(mesh.colors[i].0.as_slice(), n) {
            assert(!crate::graph::keys_below(color_keys, n as nat));
            return false;
        }
        i = i + 1;
    }
    true
}

fn index_below(key: &[usize], n: usize) -> (below: bool)
    ensures
        below == forall|j: int| 0 <= j < key@.len() ==> key@[j] < n,
{
    let mut j: usize = 0;
    while j < key.len()
        invariant
            j <= key@.len(),
            forall|k: int| 0 <= k < j ==> key@[k] < n,
        decreases key@.len() - j,
    {
        if key[j] >= n {
            return false;
        }
        j = j + 1;
    }
    true
}

fn keys_below(keys: &[Vec<usize>], n: usize) -> (below: bool)
    ensures
        below == crate::graph::keys_below(views(keys@), n as nat),
{
    let mut i: usize = 0;
    while i < keys.len()
        invariant
            i <= keys@.len(),
            forall|a: int, b: int| 0 <= a < i && 0 <= b < views(keys@)[a].len() ==> views(keys@)[a][b] < n,
        decreases keys@.len() - i,
    {
        assert(views(keys@)[i as int] == keys@[i as int]@);
        if !index_below(keys[i].as_slice(), n) {
            return false;
        }
        i = i + 1;
    }
    true
}

fn tag_is(t: &[u8; 4], a: u8, b: u8, c: u8, d: u8) -> (same: bool)
    ensures
        same == (t@ == tag(a, b, c, d)),
{
    let same = t[0] == a && t[1] == b && t[2] == c && t[3] == d;
    proof {
        if same {
            assert(t@ =~= tag(a, b, c, d));
        }
    }
    same
}

/// Reads a workspace file: the mesh (without images, which come back as their corners
/// and encoded sources), and the stored view if the file holds one. `None` when the bytes
/// are not a workspace file of a known version, or describe a mesh that is not well
/// formed.
pub fn decode(bytes: &[u8]) -> (result: Option<(Mesh, Option<Meta>, Vec<([Point; 4], Vec<u8>)>)>)
    ensures
        match spec_decode(bytes@) {
            None => result is None,
            Some(d) => result matches Some((mesh, meta, sources)) && mesh@ == d.mesh && meta == d.meta
                && views(sources@) == d.sources,
        },
{
    let mut reader = Reader { bytes };
    if bytes.len() < 8 {
        return None;
    }
    let magic_bytes = reader.array()?;
    if !tag_is(&magic_bytes, 0x4b, 0x52, 0x49, 0x00) {
        return None;
    }
    let version = reader.u32()?;
    assert(bytes@.subrange(4, 8) =~= bytes@.skip(4).take(4));
    assert(bytes@.skip(8) =~= bytes@.skip(4).skip(4));
    if version > VERSION {
        return None;
    }
    let mut mesh = Mesh {
        vertices: Vec::new(),
        edges: Vec::new(),
        layers: Vec::new(),
        vertex_layers: Vec::new(),
        holes: Vec::new(),
        colors: Vec::new(),
        images: Vec::new(),
    };
    let mut meta: Option<Meta> = None;
    let mut sources: Vec<([Point; 4], Vec<u8>)> = Vec::new();
    let ghost start = Decoded { mesh: empty_mesh(), meta: None, sources: Seq::empty() };
    assert(mesh@ =~= empty_mesh());
    assert(views(sources@) =~= Seq::<(Seq<Point>, Seq<u8>)>::empty());
    assert(spec_decode(bytes@) == match read_sections(bytes@.skip(8), start) {
        None => None,
        Some(st) => if st.mesh.well_formed() { Some(st) } else { None },
    });
    while reader.bytes.len() > 0
        invariant
            spec_decode(bytes@) == match read_sections(bytes@.skip(8), start) {
                None => None,
                Some(st) => if st.mesh.well_formed() { Some(st) } else { None },
            },
            read_sections(bytes@.skip(8), start)
                == read_sections(reader@, Decoded { mesh: mesh@, meta, sources: views(sources@) }),
            mesh.images@.len() == 0,
        decreases reader@.len(),
    {
        let ghost b = reader@;
        let ghost st = Decoded { mesh: mesh@, meta, sources: views(sources@) };
        if reader.bytes.len() < 12 {
            assert(read_sections(b, st) is None);
            return None;
        }
        let t = reader.array()?;
        let len = reader.u64()?;
        proof {
            assert(b.take(4) == t@);
            assert(b.subrange(4, 12) =~= b.skip(4).take(8));
        }
        if len > reader.bytes.len() as u64 {
            assert(read_sections(b, st) is None);
            return None;
        }
        let body = reader.take(len as usize)?;
        proof {
            assert(b.skip(12) =~= b.skip(4).skip(8));
            assert(b.subrange(12, 12 + len) =~= b.skip(12).take(len as int));
            assert(body@ == b.subrange(12, 12 + len));
            assert(reader@ =~= b.skip(12 + len));
        }
        let mut section = Reader { bytes: body };
        let mut failed = false;
        if tag_is(&t, 0x4d, 0x45, 0x54, 0x41) {
            match (section.bits(), section.bits(), section.bits()) {
                (Some(x), Some(y), Some(scale)) => meta = Some(Meta { offset_x: x, offset_y: y, scale }),
                _ => failed = true,
            }
        } else if tag_is(&t, 0x56, 0x45, 0x52, 0x54) {
            match section.list::<Point>() {
                Some(v) => mesh.vertices = v,
                None => failed = true,
            }
        } else if tag_is(&t, 0x45, 0x44, 0x47, 0x45) {
            match section.list::<[usize; 2]>() {
                Some(v) => mesh.edges = v,
                None => failed = true,
            }
        } else if tag_is(&t, 0x4c, 0x41, 0x59, 0x52) {
            match section.list::<crate::mesh::Layer>() {
                Some(v) => mesh.layers = v,
                None => failed = true,
            }
        } else if tag_is(&t, 0x56, 0x4c, 0x41, 0x59) {
            match section.list::<u32>() {
                Some(v) => mesh.vertex_layers = v,
                None => failed = true,
            }
        } else if tag_is(&t, 0x48, 0x4f, 0x4c, 0x45) {
            match section.list::<Vec<usize>>() {
                Some(v) => mesh.holes = v,
                None => failed = true,
            }
        } else if tag_is(&t, 0x43, 0x4f, 0x4c, 0x52) {
            match section.list::<(Vec<usize>, Rgba)>() {
                Some(v) => mesh.colors = v,
                None => failed = true,
            }
        } else if tag_is(&t, 0x49, 0x4d, 0x41, 0x47) {
            match section.list::<([Point; 4], Vec<u8>)>() {
                Some(v) => sources = v,
                None => failed = true,
            }
        }
        if failed {
            assert(apply_section(b.take(4), b.subrange(12, 12 + len), st) is None);
            return None;
        }
        proof {
            let now = Decoded { mesh: mesh@, meta, sources: views(sources@) };
            assert(apply_section(b.take(4), b.subrange(12, 12 + len), st) =~~= Some(now));
        }
    }
    if !is_valid(&mesh) {
        return None;
    }
    Some((mesh, meta, sources))
}

} // verus!

verus! {

proof fn lemma_read_u32(x: u32, rest: Seq<u8>)
    ensures
        read_u32(enc_u32(x) + rest) == Some((x, rest)),
        enc_u32(x).len() == 4,
{
    vstd::bytes::lemma_auto_spec_u32_to_from_le_bytes();
    let b = enc_u32(x) + rest;
    assert(b.take(4) =~= enc_u32(x));
    assert(b.skip(4) =~= rest);
}

proof fn lemma_read_u64(x: u64, rest: Seq<u8>)
    ensures
        read_u64(enc_u64(x) + rest) == Some((x, rest)),
        enc_u64(x).len() == 8,
{
    vstd::bytes::lemma_auto_spec_u64_to_from_le_bytes();
    let b = enc_u64(x) + rest;
    assert(b.take(8) =~= enc_u64(x));
    assert(b.skip(8) =~= rest);
}

proof fn lemma_read_bytes(data: Seq<u8>, rest: Seq<u8>)
    ensures
        read_bytes(data + rest, data.len() as int) == Some((data, rest)),
{
    assert((data + rest).take(data.len() as int) =~= data);
    assert((data + rest).skip(data.len() as int) =~= rest);
}

proof fn lemma_point(p: Point, rest: Seq<u8>)
    ensures
        <Point as Parse>::parse(<Point as Record>::record(p) + rest) == Some((p, rest)),
        <Point as Record>::record(p).len() == 8,
{
    lemma_read_u32(p.y, rest);
    lemma_read_u32(p.x, enc_u32(p.y) + rest);
    assert(<Point as Record>::record(p) + rest =~= enc_u32(p.x) + (enc_u32(p.y) + rest));
}

proof fn lemma_index(i: usize, rest: Seq<u8>)
    requires
        i <= u32::MAX,
    ensures
        <usize as Parse>::parse(<usize as Record>::record(i) + rest) == Some((i, rest)),
        <usize as Record>::record(i).len() == 4,
{
    lemma_read_u32(i as u32, rest);
}

/// How items written by one type read back as another: `same(v, w)` says that `v`
/// is written so that `w` is read.
pub open spec fn items_round_trip<T: Record, U: Parse>(vs: Seq<T::V>, ws: Seq<U::V>) -> bool {
    &&& vs.len() == ws.len()
    &&& forall|i: int, rest: Seq<u8>| 0 <= i < vs.len() ==> #[trigger] U::parse(T::record(vs[i]) + rest) == Some((ws[i], rest))
    &&& forall|i: int| 0 <= i < vs.len() ==> #[trigger] T::record(vs[i]).len() >= U::size()
}

proof fn lemma_join_len<T: Record>(vs: Seq<T::V>, size: nat)
    requires
        forall|i: int| 0 <= i < vs.len() ==> #[trigger] T::record(vs[i]).len() >= size,
    ensures
        join(vs.map_values(|v: T::V| T::record(v))).len() >= vs.len() * size,
    decreases vs.len(),
{
    if vs.len() > 0 {
        let front = vs.drop_last();
        lemma_join_len::<T>(front, size);
        assert(vs.map_values(|v: T::V| T::record(v)).drop_last() =~= front.map_values(|v: T::V| T::record(v)));
        assert(T::record(vs[vs.len() - 1]).len() >= size);
        assert(vs.len() * size == front.len() * size + size) by (nonlinear_arith)
            requires vs.len() == front.len() + 1;
    }
}

proof fn lemma_items<T: Record, U: Parse>(vs: Seq<T::V>, ws: Seq<U::V>, rest: Seq<u8>)
    requires
        items_round_trip::<T, U>(vs, ws),
    ensures
        parse_items::<U>(join(vs.map_values(|v: T::V| T::record(v))) + rest, vs.len()) == Some((ws, rest)),
    decreases vs.len(),
{
    if vs.len() > 0 {
        let (vf, wf) = (vs.drop_last(), ws.drop_last());
        let last = T::record(vs[vs.len() - 1]);
        assert(items_round_trip::<T, U>(vf, wf)) by {
            assert forall|i: int, r: Seq<u8>| 0 <= i < vf.len() implies #[trigger] U::parse(T::record(vf[i]) + r) == Some((wf[i], r)) by {
                assert(U::parse(T::record(vs[i]) + r) == Some((ws[i], r)));
            }
            assert forall|i: int| 0 <= i < vf.len() implies #[trigger] T::record(vf[i]).len() >= U::size() by {
                assert(T::record(vs[i]).len() >= U::size());
            }
        }
        lemma_items::<T, U>(vf, wf, last + rest);
        assert(vs.map_values(|v: T::V| T::record(v)).drop_last() =~= vf.map_values(|v: T::V| T::record(v)));
        assert(vs.map_values(|v: T::V| T::record(v)).last() == last);
        let joined = join(vs.map_values(|v: T::V| T::record(v)));
        assert(joined == join(vf.map_values(|v: T::V| T::record(v))) + last);
        assert(joined + rest =~= join(vf.map_values(|v: T::V| T::record(v))) + (last + rest));
        assert(U::parse(last + rest) == Some((ws[vs.len() - 1], rest)));
        assert(wf.push(ws[vs.len() - 1]) =~= ws);
    } else {
        assert(join(vs.map_values(|v: T::V| T::record(v))) =~= Seq::<u8>::empty());
        assert(Seq::<u8>::empty() + rest =~= rest);
        assert(ws =~= Seq::<U::V>::empty());
    }
}

/// A list written with one type reads back, with another, as the corresponding items.
pub proof fn lemma_list<T: Record, U: Parse>(vs: Seq<T::V>, ws: Seq<U::V>, rest: Seq<u8>)
    requires
        items_round_trip::<T, U>(vs, ws),
        vs.len() <= u32::MAX,
    ensures
        parse_list::<U>(enc_all::<T>(vs) + rest) == Some((ws, rest)),
{
    let body = join(vs.map_values(|v: T::V| T::record(v)));
    lemma_read_u32(vs.len() as u32, body + rest);
    assert(enc_all::<T>(vs) + rest =~= enc_u32(vs.len() as u32) + (body + rest));
    lemma_join_len::<T>(vs, U::size());
    lemma_items::<T, U>(vs, ws, rest);
}

proof fn lemma_indices(key: Seq<usize>, rest: Seq<u8>)
    requires
        key.len() <= u32::MAX,
        forall|i: int| 0 <= i < key.len() ==> key[i] <= u32::MAX,
    ensures
        parse_list::<usize>(enc_all::<usize>(key) + rest) == Some((key, rest)),
        enc_all::<usize>(key).len() >= 4,
{
    assert forall|i: int, r: Seq<u8>| 0 <= i < key.len() implies #[trigger] <usize as Parse>::parse(<usize as Record>::record(key[i]) + r) == Some((key[i], r)) by {
        lemma_index(key[i], r);
    }
    assert forall|i: int| 0 <= i < key.len() implies #[trigger] <usize as Record>::record(key[i]).len() >= <usize as Parse>::size() by {
        lemma_index(key[i], Seq::empty());
    }
    lemma_list::<usize, usize>(key, key, rest);
    lemma_read_u32(key.len() as u32, Seq::empty());
}

proof fn lemma_flags(curve: bool, holdout: bool)
    ensures
        (layer_flags(curve, holdout) & 1 != 0) == curve,
        (layer_flags(curve, holdout) & 2 != 0) == holdout,
{
    let f = layer_flags(curve, holdout);
    if curve && holdout {
        assert(f == 3);
        assert(3u8 & 1 != 0 && 3u8 & 2 != 0) by (bit_vector);
    } else if curve {
        assert(f == 1);
        assert(1u8 & 1 != 0 && 1u8 & 2 == 0) by (bit_vector);
    } else if holdout {
        assert(f == 2);
        assert(2u8 & 1 == 0 && 2u8 & 2 != 0) by (bit_vector);
    } else {
        assert(f == 0);
        assert(0u8 & 1 == 0 && 0u8 & 2 == 0) by (bit_vector);
    }
}

proof fn lemma_layer(layer: LayerView, rest: Seq<u8>)
    requires
        encode_utf8(layer.name).len() <= u32::MAX,
    ensures
        <crate::mesh::Layer as Parse>::parse(<crate::mesh::Layer as Record>::record(layer) + rest) == Some((layer, rest)),
        <crate::mesh::Layer as Record>::record(layer).len() >= 9,
{
    let name = encode_utf8(layer.name);
    vstd::utf8::encode_utf8_valid_utf8(layer.name);
    vstd::utf8::encode_utf8_decode_utf8(layer.name);
    lemma_flags(layer.curve, layer.holdout);
    lemma_read_bytes(name, rest);
    lemma_read_u32(name.len() as u32, name + rest);
    let flags = layer_flags(layer.curve, layer.holdout);
    let r1 = seq![flags] + enc_u32(name.len() as u32) + name + rest;
    assert(read_u8(r1) == Some((flags, enc_u32(name.len() as u32) + (name + rest)))) by {
        assert(r1.skip(1) =~= enc_u32(name.len() as u32) + (name + rest));
    }
    lemma_read_u32(layer.id, r1);
    assert(<crate::mesh::Layer as Record>::record(layer) + rest =~= enc_u32(layer.id) + r1);
}

proof fn lemma_color(entry: (Seq<usize>, Rgba), rest: Seq<u8>)
    requires
        entry.0.len() <= u32::MAX,
        forall|i: int| 0 <= i < entry.0.len() ==> entry.0[i] <= u32::MAX,
    ensures
        <(Vec<usize>, Rgba) as Parse>::parse(<(Vec<usize>, Rgba) as Record>::record(entry) + rest) == Some((entry, rest)),
        <(Vec<usize>, Rgba) as Record>::record(entry).len() >= 8,
{
    let c = seq![entry.1.r, entry.1.g, entry.1.b, entry.1.a];
    lemma_indices(entry.0, c + rest);
    lemma_read_bytes(c, rest);
    assert(<(Vec<usize>, Rgba) as Record>::record(entry) + rest =~= enc_all::<usize>(entry.0) + (c + rest));
}

proof fn lemma_image(image: ImageView, rest: Seq<u8>)
    requires
        image.corners.len() == 4,
        image.source.len() <= u64::MAX,
    ensures
        <([Point; 4], Vec<u8>) as Parse>::parse(<crate::mesh::Image as Record>::record(image) + rest)
            == Some(((image.corners, image.source), rest)),
        <crate::mesh::Image as Record>::record(image).len() >= 40,
{
    let cs = image.corners;
    let r4 = image.source + rest;
    lemma_read_bytes(image.source, rest);
    let r3 = enc_u64(image.source.len() as u64) + r4;
    lemma_read_u64(image.source.len() as u64, r4);
    let r2 = <Point as Record>::record(cs[3]) + r3;
    lemma_point(cs[3], r3);
    let r1 = <Point as Record>::record(cs[2]) + r2;
    lemma_point(cs[2], r2);
    let r0 = <Point as Record>::record(cs[1]) + r1;
    lemma_point(cs[1], r1);
    lemma_point(cs[0], r0);
    assert(<crate::mesh::Image as Record>::record(image) + rest =~= <Point as Record>::record(cs[0]) + r0);
    assert(seq![cs[0], cs[1], cs[2], cs[3]] =~= cs);
}

/// Reading a section goes by its tag and body and then on to the bytes after it.
proof fn lemma_section(t: Seq<u8>, body: Seq<u8>, rest: Seq<u8>, st: Decoded)
    requires
        t.len() == 4,
        body.len() <= u64::MAX,
    ensures
        read_sections(section(t, body) + rest, st) == match apply_section(t, body, st) {
            None => None,
            Some(next) => read_sections(rest, next),
        },
{
    vstd::bytes::lemma_auto_spec_u64_to_from_le_bytes();
    let b = section(t, body) + rest;
    assert(b.take(4) =~= t);
    assert(b.subrange(4, 12) =~= enc_u64(body.len() as u64));
    assert(b.subrange(12, 12 + body.len() as int) =~= body);
    assert(b.skip(12 + body.len() as int) =~= rest);
}

} // verus!

verus! {

/// Whether `mesh` and `meta` fit the file format: every count fits a `u32`, each name's
/// bytes and each image's source fit their length fields, every image has four corners,
/// and the whole file fits a `u64` length.
pub open spec fn encodable(mesh: MeshView, meta: Meta) -> bool {
    &&& mesh.vertices.len() <= u32::MAX
    &&& mesh.edges.len() <= u32::MAX
    &&& mesh.layers.len() <= u32::MAX
    &&& mesh.vertex_layers.len() <= u32::MAX
    &&& mesh.holes.len() <= u32::MAX
    &&& mesh.colors.len() <= u32::MAX
    &&& mesh.images.len() <= u32::MAX
    &&& forall|i: int| 0 <= i < mesh.holes.len() ==> (#[trigger] mesh.holes[i]).len() <= u32::MAX
    &&& forall|i: int| 0 <= i < mesh.colors.len() ==> (#[trigger] mesh.colors[i]).0.len() <= u32::MAX
    &&& forall|i: int| 0 <= i < mesh.layers.len() ==> encode_utf8((#[trigger] mesh.layers[i]).name).len() <= u32::MAX
    &&& forall|i: int| 0 <= i < mesh.images.len() ==> (#[trigger] mesh.images[i]).corners.len() == 4
        && mesh.images[i].source.len() <= u64::MAX
    &&& spec_encode(mesh, meta).len() <= u64::MAX
}

/// What reading back a file written from `mesh` and `meta` gives: the mesh without its
/// images, the view, and each image's corners and source.
pub open spec fn written(mesh: MeshView, meta: Meta) -> Decoded {
    Decoded {
        mesh: MeshView { images: Seq::empty(), ..mesh },
        meta: Some(meta),
        sources: mesh.images.map_values(|image: ImageView| (image.corners, image.source)),
    }
}

proof fn lemma_edge(edge: Seq<usize>, rest: Seq<u8>)
    requires
        edge.len() == 2,
        edge[0] <= u32::MAX,
        edge[1] <= u32::MAX,
    ensures
        <[usize; 2] as Parse>::parse(<[usize; 2] as Record>::record(edge) + rest) == Some((edge, rest)),
        <[usize; 2] as Record>::record(edge).len() == 8,
{
    lemma_read_u32(edge[1] as u32, rest);
    lemma_read_u32(edge[0] as u32, enc_u32(edge[1] as u32) + rest);
    assert(<[usize; 2] as Record>::record(edge) + rest =~= enc_u32(edge[0] as u32) + (enc_u32(edge[1] as u32) + rest));
    assert(seq![edge[0], edge[1]] =~= edge);
}

proof fn lemma_list_alone<T: Record, U: Parse>(vs: Seq<T::V>, ws: Seq<U::V>)
    requires
        items_round_trip::<T, U>(vs, ws),
        vs.len() <= u32::MAX,
    ensures
        parse_list::<U>(enc_all::<T>(vs)) matches Some((w, _)) && w == ws,
{
    lemma_list::<T, U>(vs, ws, Seq::empty());
    assert(enc_all::<T>(vs) + Seq::<u8>::empty() =~= enc_all::<T>(vs));
}

proof fn lemma_vertex_list(mesh: MeshView)
    requires
        mesh.vertices.len() <= u32::MAX,
    ensures
        parse_list::<Point>(enc_all::<Point>(mesh.vertices)) matches Some((w, _)) && w == mesh.vertices,
{
    assert forall|i: int, r: Seq<u8>| 0 <= i < mesh.vertices.len() implies #[trigger] <Point as Parse>::parse(<Point as Record>::record(mesh.vertices[i]) + r) == Some((mesh.vertices[i], r)) by {
        lemma_point(mesh.vertices[i], r);
    }
    assert forall|i: int| 0 <= i < mesh.vertices.len() implies #[trigger] <Point as Record>::record(mesh.vertices[i]).len() >= <Point as Parse>::size() by {
        lemma_point(mesh.vertices[i], Seq::empty());
    }
    lemma_list_alone::<Point, Point>(mesh.vertices, mesh.vertices);
}

proof fn lemma_edge_list(mesh: MeshView)
    requires
        mesh.well_formed(),
        mesh.vertices.len() <= u32::MAX,
        mesh.edges.len() <= u32::MAX,
    ensures
        parse_list::<[usize; 2]>(enc_all::<[usize; 2]>(mesh.edges)) matches Some((w, _)) && w == mesh.edges,
{
    assert forall|i: int, r: Seq<u8>| 0 <= i < mesh.edges.len() implies #[trigger] <[usize; 2] as Parse>::parse(<[usize; 2] as Record>::record(mesh.edges[i]) + r) == Some((mesh.edges[i], r)) by {
        assert(mesh.edges[i].len() == 2);
        lemma_edge(mesh.edges[i], r);
    }
    assert forall|i: int| 0 <= i < mesh.edges.len() implies #[trigger] <[usize; 2] as Record>::record(mesh.edges[i]).len() >= <[usize; 2] as Parse>::size() by {
        assert(mesh.edges[i].len() == 2);
        lemma_edge(mesh.edges[i], Seq::empty());
    }
    lemma_list_alone::<[usize; 2], [usize; 2]>(mesh.edges, mesh.edges);
}

proof fn lemma_layer_list(mesh: MeshView, meta: Meta)
    requires
        encodable(mesh, meta),
    ensures
        parse_list::<crate::mesh::Layer>(enc_all::<crate::mesh::Layer>(mesh.layers)) matches Some((w, _)) && w == mesh.layers,
{
    assert forall|i: int, r: Seq<u8>| 0 <= i < mesh.layers.len() implies #[trigger] <crate::mesh::Layer as Parse>::parse(<crate::mesh::Layer as Record>::record(mesh.layers[i]) + r) == Some((mesh.layers[i], r)) by {
        lemma_layer(mesh.layers[i], r);
    }
    assert forall|i: int| 0 <= i < mesh.layers.len() implies #[trigger] <crate::mesh::Layer as Record>::record(mesh.layers[i]).len() >= <crate::mesh::Layer as Parse>::size() by {
        lemma_layer(mesh.layers[i], Seq::empty());
    }
    lemma_list_alone::<crate::mesh::Layer, crate::mesh::Layer>(mesh.layers, mesh.layers);
}

proof fn lemma_id_list(mesh: MeshView)
    requires
        mesh.vertex_layers.len() <= u32::MAX,
    ensures
        parse_list::<u32>(enc_all::<u32>(mesh.vertex_layers)) matches Some((w, _)) && w == mesh.vertex_layers,
{
    assert forall|i: int, r: Seq<u8>| 0 <= i < mesh.vertex_layers.len() implies #[trigger] <u32 as Parse>::parse(<u32 as Record>::record(mesh.vertex_layers[i]) + r) == Some((mesh.vertex_layers[i], r)) by {
        lemma_read_u32(mesh.vertex_layers[i], r);
    }
    assert forall|i: int| 0 <= i < mesh.vertex_layers.len() implies #[trigger] <u32 as Record>::record(mesh.vertex_layers[i]).len() >= <u32 as Parse>::size() by {
        lemma_read_u32(mesh.vertex_layers[i], Seq::empty());
    }
    lemma_list_alone::<u32, u32>(mesh.vertex_layers, mesh.vertex_layers);
}

proof fn lemma_hole_list(mesh: MeshView, meta: Meta)
    requires
        mesh.well_formed(),
        encodable(mesh, meta),
    ensures
        parse_list::<Vec<usize>>(enc_all::<Vec<usize>>(mesh.holes)) matches Some((w, _)) && w == mesh.holes,
{
    let n = mesh.vertices.len();
    assert forall|i: int, r: Seq<u8>| 0 <= i < mesh.holes.len() implies #[trigger] <Vec<usize> as Parse>::parse(<Vec<usize> as Record>::record(mesh.holes[i]) + r) == Some((mesh.holes[i], r)) by {
        assert forall|j: int| 0 <= j < mesh.holes[i].len() implies mesh.holes[i][j] <= u32::MAX by {
            assert(mesh.holes[i][j] < n);
        }
        lemma_indices(mesh.holes[i], r);
    }
    assert forall|i: int| 0 <= i < mesh.holes.len() implies #[trigger] <Vec<usize> as Record>::record(mesh.holes[i]).len() >= <Vec<usize> as Parse>::size() by {
        assert forall|j: int| 0 <= j < mesh.holes[i].len() implies mesh.holes[i][j] <= u32::MAX by {
            assert(mesh.holes[i][j] < n);
        }
        lemma_indices(mesh.holes[i], Seq::empty());
    }
    lemma_list_alone::<Vec<usize>, Vec<usize>>(mesh.holes, mesh.holes);
}

proof fn lemma_color_list(mesh: MeshView, meta: Meta)
    requires
        mesh.well_formed(),
        encodable(mesh, meta),
    ensures
        parse_list::<(Vec<usize>, Rgba)>(enc_all::<(Vec<usize>, Rgba)>(mesh.colors)) matches Some((w, _)) && w == mesh.colors,
{
    let n = mesh.vertices.len();
    let keys = crate::graph::color_keys(mesh.colors);
    assert forall|i: int, r: Seq<u8>| 0 <= i < mesh.colors.len() implies #[trigger] <(Vec<usize>, Rgba) as Parse>::parse(<(Vec<usize>, Rgba) as Record>::record(mesh.colors[i]) + r) == Some((mesh.colors[i], r)) by {
        assert(keys[i] == mesh.colors[i].0);
        assert forall|j: int| 0 <= j < mesh.colors[i].0.len() implies mesh.colors[i].0[j] <= u32::MAX by {
            assert(keys[i][j] < n);
        }
        lemma_color(mesh.colors[i], r);
    }
    assert forall|i: int| 0 <= i < mesh.colors.len() implies #[trigger] <(Vec<usize>, Rgba) as Record>::record(mesh.colors[i]).len() >= <(Vec<usize>, Rgba) as Parse>::size() by {
        assert(keys[i] == mesh.colors[i].0);
        assert forall|j: int| 0 <= j < mesh.colors[i].0.len() implies mesh.colors[i].0[j] <= u32::MAX by {
            assert(keys[i][j] < n);
        }
        lemma_color(mesh.colors[i], Seq::empty());
    }
    lemma_list_alone::<(Vec<usize>, Rgba), (Vec<usize>, Rgba)>(mesh.colors, mesh.colors);
}

proof fn lemma_image_list(mesh: MeshView, meta: Meta)
    requires
        encodable(mesh, meta),
    ensures
        parse_list::<([Point; 4], Vec<u8>)>(enc_all::<crate::mesh::Image>(mesh.images)) matches Some((w, _))
            && w == mesh.images.map_values(|image: ImageView| (image.corners, image.source)),
{
    let sources = mesh.images.map_values(|image: ImageView| (image.corners, image.source));
    assert forall|i: int, r: Seq<u8>| 0 <= i < mesh.images.len() implies #[trigger] <([Point; 4], Vec<u8>) as Parse>::parse(<crate::mesh::Image as Record>::record(mesh.images[i]) + r) == Some((sources[i], r)) by {
        lemma_image(mesh.images[i], r);
    }
    assert forall|i: int| 0 <= i < mesh.images.len() implies #[trigger] <crate::mesh::Image as Record>::record(mesh.images[i]).len() >= <([Point; 4], Vec<u8>) as Parse>::size() by {
        lemma_image(mesh.images[i], Seq::empty());
    }
    lemma_list_alone::<crate::mesh::Image, ([Point; 4], Vec<u8>)>(mesh.images, sources);
}

proof fn lemma_meta(meta: Meta)
    ensures
        parse_meta(enc_meta(meta)) == Some(meta),
{
    lemma_read_u32(meta.scale, Seq::empty());
    lemma_read_u32(meta.offset_y, enc_u32(meta.scale));
    lemma_read_u32(meta.offset_x, enc_u32(meta.offset_y) + enc_u32(meta.scale));
    assert(enc_u32(meta.scale) + Seq::<u8>::empty() =~= enc_u32(meta.scale));
    assert(enc_meta(meta) =~= enc_u32(meta.offset_x) + (enc_u32(meta.offset_y) + enc_u32(meta.scale)));
}

proof fn lemma_tags_differ()
    ensures
        meta_tag() != vertices_tag(), meta_tag() != edges_tag(), meta_tag() != layers_tag(),
        meta_tag() != vertex_layers_tag(), meta_tag() != holes_tag(), meta_tag() != colors_tag(),
        meta_tag() != images_tag(),
        vertices_tag() != edges_tag(), vertices_tag() != layers_tag(), vertices_tag() != vertex_layers_tag(),
        vertices_tag() != holes_tag(), vertices_tag() != colors_tag(), vertices_tag() != images_tag(),
        edges_tag() != layers_tag(), edges_tag() != vertex_layers_tag(), edges_tag() != holes_tag(),
        edges_tag() != colors_tag(), edges_tag() != images_tag(),
        layers_tag() != vertex_layers_tag(), layers_tag() != holes_tag(), layers_tag() != colors_tag(),
        layers_tag() != images_tag(),
        vertex_layers_tag() != holes_tag(), vertex_layers_tag() != colors_tag(), vertex_layers_tag() != images_tag(),
        holes_tag() != colors_tag(), holes_tag() != images_tag(),
        colors_tag() != images_tag(),
{
    assert(meta_tag()[0] != vertices_tag()[0]);
    assert(meta_tag()[0] != edges_tag()[0]);
    assert(meta_tag()[0] != layers_tag()[0]);
    assert(meta_tag()[0] != vertex_layers_tag()[0]);
    assert(meta_tag()[0] != holes_tag()[0]);
    assert(meta_tag()[0] != colors_tag()[0]);
    assert(meta_tag()[0] != images_tag()[0]);
    assert(vertices_tag()[1] != vertex_layers_tag()[1]);
    assert(vertices_tag()[0] != edges_tag()[0]);
    assert(vertices_tag()[0] != layers_tag()[0]);
    assert(vertices_tag()[0] != holes_tag()[0]);
    assert(vertices_tag()[0] != colors_tag()[0]);
    assert(vertices_tag()[0] != images_tag()[0]);
    assert(edges_tag()[0] != layers_tag()[0]);
    assert(edges_tag()[0] != vertex_layers_tag()[0]);
    assert(edges_tag()[0] != holes_tag()[0]);
    assert(edges_tag()[0] != colors_tag()[0]);
    assert(edges_tag()[0] != images_tag()[0]);
    assert(layers_tag()[0] != vertex_layers_tag()[0]);
    assert(layers_tag()[0] != holes_tag()[0]);
    assert(layers_tag()[0] != colors_tag()[0]);
    assert(layers_tag()[0] != images_tag()[0]);
    assert(vertex_layers_tag()[0] != holes_tag()[0]);
    assert(vertex_layers_tag()[0] != colors_tag()[0]);
    assert(vertex_layers_tag()[0] != images_tag()[0]);
    assert(holes_tag()[0] != colors_tag()[0]);
    assert(holes_tag()[0] != images_tag()[0]);
    assert(colors_tag()[0] != images_tag()[0]);
}

/// Reading the sections that `encode` writes, after the header.
#[verifier::rlimit(50)]
proof fn lemma_sections(mesh: MeshView, meta: Meta)
    requires
        mesh.well_formed(),
        encodable(mesh, meta),
    ensures
        read_sections(spec_encode(mesh, meta).skip(8), Decoded { mesh: empty_mesh(), meta: None, sources: Seq::empty() })
            == Some(written(mesh, meta)),
{
    lemma_tags_differ();
    lemma_meta(meta);
    lemma_vertex_list(mesh);
    lemma_edge_list(mesh);
    lemma_layer_list(mesh, meta);
    lemma_id_list(mesh);
    lemma_hole_list(mesh, meta);
    lemma_color_list(mesh, meta);
    lemma_image_list(mesh, meta);
    let sources = mesh.images.map_values(|image: ImageView| (image.corners, image.source));
    let b0 = enc_meta(meta);
    let b1 = enc_all::<Point>(mesh.vertices);
    let b2 = enc_all::<[usize; 2]>(mesh.edges);
    let b3 = enc_all::<crate::mesh::Layer>(mesh.layers);
    let b4 = enc_all::<u32>(mesh.vertex_layers);
    let b5 = enc_all::<Vec<usize>>(mesh.holes);
    let b6 = enc_all::<(Vec<usize>, Rgba)>(mesh.colors);
    let b7 = enc_all::<crate::mesh::Image>(mesh.images);
    let s7 = section(images_tag(), b7);
    let s6 = colors_on(mesh);
    let s5 = holes_on(mesh);
    let s4 = vertex_layers_on(mesh);
    let s3 = layers_on(mesh);
    let s2 = edges_on(mesh);
    let s1 = vertices_on(mesh);
    let s0 = sections(mesh, meta);
    let all = spec_encode(mesh, meta);
    lemma_read_u32(VERSION, Seq::empty());
    assert(all.skip(8) =~= s0);
    assert(b0.len() <= all.len() && b1.len() <= all.len() && b2.len() <= all.len() && b3.len() <= all.len());
    assert(b4.len() <= all.len() && b5.len() <= all.len() && b6.len() <= all.len() && b7.len() <= all.len());
    let st0 = Decoded { mesh: empty_mesh(), meta: None, sources: Seq::empty() };
    let st1 = Decoded { meta: Some(meta), ..st0 };
    lemma_section(meta_tag(), b0, s1, st0);
    let st2 = Decoded { mesh: MeshView { vertices: mesh.vertices, ..st1.mesh }, ..st1 };
    lemma_section(vertices_tag(), b1, s2, st1);
    let st3 = Decoded { mesh: MeshView { edges: mesh.edges, ..st2.mesh }, ..st2 };
    lemma_section(edges_tag(), b2, s3, st2);
    let st4 = Decoded { mesh: MeshView { layers: mesh.layers, ..st3.mesh }, ..st3 };
    lemma_section(layers_tag(), b3, s4, st3);
    let st5 = Decoded { mesh: MeshView { vertex_layers: mesh.vertex_layers, ..st4.mesh }, ..st4 };
    lemma_section(vertex_layers_tag(), b4, s5, st4);
    let st6 = Decoded { mesh: MeshView { holes: mesh.holes, ..st5.mesh }, ..st5 };
    lemma_section(holes_tag(), b5, s6, st5);
    let st7 = Decoded { mesh: MeshView { colors: mesh.colors, ..st6.mesh }, ..st6 };
    lemma_section(colors_tag(), b6, s7, st6);
    let st8 = Decoded { sources, ..st7 };
    assert(s7 =~= section(images_tag(), b7) + Seq::<u8>::empty());
    lemma_section(images_tag(), b7, Seq::empty(), st7);
    assert(read_sections(Seq::<u8>::empty(), st8) == Some(st8));
    assert(st8 =~~= written(mesh, meta));
}

/// Reading back what `encode` wrote gives the mesh (its images as corners and sources)
/// and the view again.
pub proof fn lemma_encode_decode(mesh: MeshView, meta: Meta)
    requires
        mesh.well_formed(),
        encodable(mesh, meta),
    ensures
        spec_decode(spec_encode(mesh, meta)) == Some(written(mesh, meta)),
{
    lemma_sections(mesh, meta);
    let all = spec_encode(mesh, meta);
    vstd::bytes::lemma_auto_spec_u32_to_from_le_bytes();
    assert(all.take(4) =~= magic());
    assert(all.subrange(4, 8) =~= enc_u32(VERSION));
    let w = written(mesh, meta).mesh;
    assert(w.vertices == mesh.vertices && w.edges == mesh.edges && w.layers == mesh.layers);
    assert(w.vertex_layers == mesh.vertex_layers && w.holes == mesh.holes && w.colors == mesh.colors);
    assert(w.well_formed());
}


/// The records of the points, laid one after another.
spec fn point_records(vs: Seq<Point>) -> Seq<u8> {
    join(vs.map_values(|v: Point| <Point as Record>::record(v)))
}

/// The records of fixed-size points laid one after another: point `i` takes the eight
/// bytes from `8 * i` on.
proof fn lemma_point_records(vs: Seq<Point>)
    ensures
        point_records(vs).len() == 8 * vs.len(),
        forall|i: int| 0 <= i < vs.len() ==> point_records(vs).subrange(8 * i, 8 * i + 8) == <Point as Record>::record(#[trigger] vs[i]),
    decreases vs.len(),
{
    if vs.len() > 0 {
        let front = vs.drop_last();
        lemma_point_records(front);
        let parts = vs.map_values(|v: Point| <Point as Record>::record(v));
        assert(parts.drop_last() =~= front.map_values(|v: Point| <Point as Record>::record(v)));
        let head = point_records(front);
        let last = <Point as Record>::record(vs[vs.len() - 1]);
        lemma_point(vs[vs.len() - 1], Seq::empty());
        assert(point_records(vs) == head + last);
        assert forall|i: int| 0 <= i < vs.len() implies point_records(vs).subrange(8 * i, 8 * i + 8)
            == <Point as Record>::record(#[trigger] vs[i]) by {
            if i < front.len() {
                assert(point_records(vs).subrange(8 * i, 8 * i + 8) =~= head.subrange(8 * i, 8 * i + 8));
                assert(front[i] == vs[i]);
            } else {
                assert(point_records(vs).subrange(8 * i, 8 * i + 8) =~= last);
            }
        }
    }
}

/// In the bytes of a workspace file, the vertex section comes right after the view: its
/// tag at byte 32 and the vertex count at byte 44; vertex `i` then takes the eight bytes
/// from `48 + 8 * i` on, its x coordinate first and its y coordinate second, each as a
/// little-endian `u32`.
pub proof fn lemma_encode_vertex_layout(mesh: MeshView, meta: Meta, i: int)
    requires
        0 <= i < mesh.vertices.len(),
    ensures
        spec_encode(mesh, meta).len() >= 56 + 8 * i,
        spec_encode(mesh, meta).subrange(32, 36) == seq![0x56u8, 0x45u8, 0x52u8, 0x54u8],
        spec_u32_from_le_bytes(spec_encode(mesh, meta).subrange(44, 48)) == mesh.vertices.len() as u32,
        spec_u32_from_le_bytes(spec_encode(mesh, meta).subrange(48 + 8 * i, 52 + 8 * i)) == mesh.vertices[i].x,
        spec_u32_from_le_bytes(spec_encode(mesh, meta).subrange(52 + 8 * i, 56 + 8 * i)) == mesh.vertices[i].y,
{
    vstd::bytes::lemma_auto_spec_u32_to_from_le_bytes();
    lemma_read_u32(VERSION, Seq::empty());
    lemma_read_u32(meta.offset_x, Seq::empty());
    lemma_read_u32(meta.offset_y, Seq::empty());
    lemma_read_u32(meta.scale, Seq::empty());
    lemma_read_u32(mesh.vertices.len() as u32, Seq::empty());
    lemma_read_u64(enc_meta(meta).len() as u64, Seq::empty());
    let vs = mesh.vertices;
    lemma_point_records(vs);
    let records = point_records(vs);
    let body = enc_all::<Point>(vs);
    lemma_read_u64(body.len() as u64, Seq::empty());
    let front = magic() + enc_u32(VERSION) + section(meta_tag(), enc_meta(meta)) + vertices_tag()
        + enc_u64(body.len() as u64) + enc_u32(vs.len() as u32);
    assert(front.len() == 48);
    let b = spec_encode(mesh, meta);
    assert(b =~= front + records + edges_on(mesh));
    let p = vs[i];
    assert(records.subrange(8 * i, 8 * i + 8) == <Point as Record>::record(p));
    assert(b.subrange(48 + 8 * i, 52 + 8 * i) =~= records.subrange(8 * i, 8 * i + 8).take(4));
    assert(b.subrange(52 + 8 * i, 56 + 8 * i) =~= records.subrange(8 * i, 8 * i + 8).skip(4));
    assert((enc_u32(p.x) + enc_u32(p.y)).take(4) =~= enc_u32(p.x));
    assert((enc_u32(p.x) + enc_u32(p.y)).skip(4) =~= enc_u32(p.y));
    assert(b.subrange(32, 36) =~= vertices_tag());
    assert(b.subrange(44, 48) =~= enc_u32(vs.len() as u32));
}

proof fn lemma_parse_points(b: Seq<u8>, count: nat)
    requires
        parse_items::<Point>(b, count) is Some,
    ensures
        ({
            let (ps, rest) = parse_items::<Point>(b, count).unwrap();
            &&& ps.len() == count
            &&& b.len() >= 8 * count
            &&& rest == b.skip(8 * (count as int))
            &&& forall|i: int| 0 <= i < count ==> (#[trigger] ps[i]).x == spec_u32_from_le_bytes(b.subrange(8 * i, 8 * i + 4))
                && ps[i].y == spec_u32_from_le_bytes(b.subrange(8 * i + 4, 8 * i + 8))
        }),
    decreases count,
{
    if count > 0 {
        let c: int = count - 1;
        lemma_parse_points(b, c as nat);
        let (prior, r) = parse_items::<Point>(b, c as nat).unwrap();
        let (ps, rest) = parse_items::<Point>(b, count).unwrap();
        assert(r.take(4) =~= b.subrange(8 * c, 8 * c + 4));
        assert(r.skip(4).take(4) =~= b.subrange(8 * c + 4, 8 * c + 8));
        assert(r.skip(4).skip(4) =~= b.skip(8 * (count as int)));
        assert forall|i: int| 0 <= i < count implies (#[trigger] ps[i]).x == spec_u32_from_le_bytes(b.subrange(8 * i, 8 * i + 4))
            && ps[i].y == spec_u32_from_le_bytes(b.subrange(8 * i + 4, 8 * i + 8)) by {
            if i < c {
                assert(ps[i] == prior[i]);
            }
        }
    }
}

/// Reading the body of a vertex section: after the `u32` count, vertex `i` is read from
/// the eight bytes from `4 + 8 * i` on, its x coordinate from the first four as a
/// little-endian `u32` and its y coordinate from the next four.
pub proof fn lemma_decode_vertex_layout(body: Seq<u8>, st: Decoded)
    requires
        apply_section(vertices_tag(), body, st) is Some,
    ensures
        ({
            let vs = apply_section(vertices_tag(), body, st).unwrap().mesh.vertices;
            &&& body.len() >= 4 + 8 * vs.len()
            &&& vs.len() == spec_u32_from_le_bytes(body.take(4))
            &&& forall|i: int| 0 <= i < vs.len() ==> (#[trigger] vs[i]).x == spec_u32_from_le_bytes(body.subrange(4 + 8 * i, 8 + 8 * i))
                && vs[i].y == spec_u32_from_le_bytes(body.subrange(8 + 8 * i, 12 + 8 * i))
        }),
{
    assert(vertices_tag() != meta_tag());
    let (count, rest) = read_u32(body).unwrap();
    lemma_parse_points(rest, count as nat);
    let vs = apply_section(vertices_tag(), body, st).unwrap().mesh.vertices;
    assert forall|i: int| 0 <= i < vs.len() implies (#[trigger] vs[i]).x == spec_u32_from_le_bytes(body.subrange(4 + 8 * i, 8 + 8 * i))
        && vs[i].y == spec_u32_from_le_bytes(body.subrange(8 + 8 * i, 12 + 8 * i)) by {
        assert(rest.subrange(8 * i, 8 * i + 4) =~= body.subrange(4 + 8 * i, 8 + 8 * i));
        assert(rest.subrange(8 * i + 4, 8 * i + 8) =~= body.subrange(8 + 8 * i, 12 + 8 * i));
    }
}

/// An image is written as its four corners, each x coordinate then y coordinate as a
/// little-endian `u32`, corner `k` in the eight bytes from `8 * k` on; then the length
/// of its source as a little-endian `u64`, then the source bytes.
pub proof fn lemma_image_record_layout(image: ImageView, k: int)
    requires
        image.corners.len() == 4,
        0 <= k < 4,
    ensures
        ({
            let r = <crate::mesh::Image as Record>::record(image);
            &&& r.len() == 40 + image.source.len()
            &&& spec_u32_from_le_bytes(r.subrange(8 * k, 8 * k + 4)) == image.corners[k].x
            &&& spec_u32_from_le_bytes(r.subrange(8 * k + 4, 8 * k + 8)) == image.corners[k].y
            &&& spec_u64_from_le_bytes(r.subrange(32, 40)) == image.source.len() as u64
            &&& r.skip(40) == image.source
        }),
{
    vstd::bytes::lemma_auto_spec_u32_to_from_le_bytes();
    vstd::bytes::lemma_auto_spec_u64_to_from_le_bytes();
    let c = image.corners;
    lemma_read_u32(c[0].x, Seq::empty());
    lemma_read_u32(c[0].y, Seq::empty());
    lemma_read_u32(c[1].x, Seq::empty());
    lemma_read_u32(c[1].y, Seq::empty());
    lemma_read_u32(c[2].x, Seq::empty());
    lemma_read_u32(c[2].y, Seq::empty());
    lemma_read_u32(c[3].x, Seq::empty());
    lemma_read_u32(c[3].y, Seq::empty());
    lemma_read_u64(image.source.len() as u64, Seq::empty());
    let r = <crate::mesh::Image as Record>::record(image);
    assert(r.subrange(0, 4) =~= enc_u32(c[0].x));
    assert(r.subrange(4, 8) =~= enc_u32(c[0].y));
    assert(r.subrange(8, 12) =~= enc_u32(c[1].x));
    assert(r.subrange(12, 16) =~= enc_u32(c[1].y));
    assert(r.subrange(16, 20) =~= enc_u32(c[2].x));
    assert(r.subrange(20, 24) =~= enc_u32(c[2].y));
    assert(r.subrange(24, 28) =~= enc_u32(c[3].x));
    assert(r.subrange(28, 32) =~= enc_u32(c[3].y));
    assert(r.subrange(32, 40) =~= enc_u64(image.source.len() as u64));
    assert(r.skip(40) =~= image.source);
}

/// Reading an image reads corner `k` from the eight bytes from `8 * k` on, its x
/// coordinate from the first four as a little-endian `u32` and its y coordinate from
/// the next four.
pub proof fn lemma_image_parse_layout(b: Seq<u8>, k: int)
    requires
        <([Point; 4], Vec<u8>) as Parse>::parse(b) is Some,
        0 <= k < 4,
    ensures
        ({
            let corners = <([Point; 4], Vec<u8>) as Parse>::parse(b).unwrap().0.0;
            &&& corners.len() == 4
            &&& corners[k].x == spec_u32_from_le_bytes(b.subrange(8 * k, 8 * k + 4))
            &&& corners[k].y == spec_u32_from_le_bytes(b.subrange(8 * k + 4, 8 * k + 8))
        }),
{
    let r1 = b.skip(8);
    let r2 = b.skip(16);
    let r3 = b.skip(24);
    assert(b.skip(4).take(4) =~= b.subrange(4, 8));
    assert(b.skip(8).skip(4) =~= b.skip(12));
    assert(r1.take(4) =~= b.subrange(8, 12));
    assert(r1.skip(4).take(4) =~= b.subrange(12, 16));
    assert(r1.skip(4).skip(4) =~= b.skip(16));
    assert(r2.take(4) =~= b.subrange(16, 20));
    assert(r2.skip(4).take(4) =~= b.subrange(20, 24));
    assert(r2.skip(4).skip(4) =~= b.skip(24));
    assert(r3.take(4) =~= b.subrange(24, 28));
    assert(r3.skip(4).take(4) =~= b.subrange(28, 32));
    assert(b.take(4) =~= b.subrange(0, 4));
    assert(b.skip(4).skip(4) =~= b.skip(8));
}

/// A workspace file starts with `KRI\0` and the version as a little-endian `u32`; then
/// the view section: the tag `META`, its length 12 as a little-endian `u64`, and the
/// view's x offset, y offset and scale, each as a little-endian `u32`, in that order;
/// then the vertex section's tag and, as a little-endian `u64`, its length: the count
/// and eight bytes per vertex.
#[verifier::spinoff_prover]
#[verifier::rlimit(60)]
pub proof fn lemma_encode_header_layout(mesh: MeshView, meta: Meta)
    requires
        mesh.vertices.len() <= u32::MAX,
    ensures
        ({
            let b = spec_encode(mesh, meta);
            &&& b.len() >= 48
            &&& b.subrange(0, 4) == seq![0x4bu8, 0x52u8, 0x49u8, 0x00u8]
            &&& spec_u32_from_le_bytes(b.subrange(4, 8)) == VERSION
            &&& b.subrange(8, 12) == seq![0x4du8, 0x45u8, 0x54u8, 0x41u8]
            &&& spec_u64_from_le_bytes(b.subrange(12, 20)) == 12
            &&& spec_u32_from_le_bytes(b.subrange(20, 24)) == meta.offset_x
            &&& spec_u32_from_le_bytes(b.subrange(24, 28)) == meta.offset_y
            &&& spec_u32_from_le_bytes(b.subrange(28, 32)) == meta.scale
            &&& spec_u64_from_le_bytes(b.subrange(36, 44)) == 4 + 8 * mesh.vertices.len()
        }),
{
    vstd::bytes::lemma_auto_spec_u32_to_from_le_bytes();
    vstd::bytes::lemma_auto_spec_u64_to_from_le_bytes();
    lemma_read_u32(VERSION, Seq::empty());
    lemma_read_u32(meta.offset_x, Seq::empty());
    lemma_read_u32(meta.offset_y, Seq::empty());
    lemma_read_u32(meta.scale, Seq::empty());
    lemma_read_u32(mesh.vertices.len() as u32, Seq::empty());
    lemma_read_u64(enc_meta(meta).len() as u64, Seq::empty());
    let vs = mesh.vertices;
    lemma_point_records(vs);
    let body = enc_all::<Point>(vs);
    assert(body.len() == 4 + 8 * vs.len());
    lemma_read_u64(body.len() as u64, Seq::empty());
    let b = spec_encode(mesh, meta);
    let m = enc_u32(meta.offset_x) + enc_u32(meta.offset_y) + enc_u32(meta.scale);
    assert(enc_meta(meta) == m);
    assert(m.len() == 12);
    let front = magic() + enc_u32(VERSION) + meta_tag() + enc_u64(12) + m + vertices_tag() + enc_u64(body.len() as u64);
    assert(b =~= front + (body + edges_on(mesh)));
    assert(m.subrange(0, 4) =~= enc_u32(meta.offset_x));
    assert(m.subrange(4, 8) =~= enc_u32(meta.offset_y));
    assert(m.subrange(8, 12) =~= enc_u32(meta.scale));
    assert(b.subrange(0, 4) =~= magic());
    assert(b.subrange(4, 8) =~= enc_u32(VERSION));
    assert(b.subrange(8, 12) =~= meta_tag());
    assert(b.subrange(12, 20) =~= enc_u64(12));
    assert(b.subrange(20, 24) =~= enc_u32(meta.offset_x));
    assert(b.subrange(24, 28) =~= enc_u32(meta.offset_y));
    assert(b.subrange(28, 32) =~= enc_u32(meta.scale));
    assert(b.subrange(36, 44) =~= enc_u64(body.len() as u64));
}

/// Reading the view section's body: the x offset from its first four bytes, the y offset
/// from the next four and the scale from the four after, each as a little-endian `u32`.
pub proof fn lemma_decode_meta_layout(body: Seq<u8>)
    requires
        parse_meta(body) is Some,
    ensures
        body.len() >= 12,
        parse_meta(body).unwrap().offset_x == spec_u32_from_le_bytes(body.subrange(0, 4)),
        parse_meta(body).unwrap().offset_y == spec_u32_from_le_bytes(body.subrange(4, 8)),
        parse_meta(body).unwrap().scale == spec_u32_from_le_bytes(body.subrange(8, 12)),
{
    assert(body.take(4) =~= body.subrange(0, 4));
    assert(body.skip(4).take(4) =~= body.subrange(4, 8));
    assert(body.skip(4).skip(4).take(4) =~= body.subrange(8, 12));
}

/// An edge is written as its first end then its second, each as a little-endian `u32`,
/// and read back in the same order.
pub proof fn lemma_edge_layout(edge: Seq<usize>, b: Seq<u8>)
    requires
        edge.len() == 2,
    ensures
        <[usize; 2] as Record>::record(edge).len() == 8,
        edge[0] <= u32::MAX && edge[1] <= u32::MAX ==> spec_u32_from_le_bytes(<[usize; 2] as Record>::record(edge).subrange(0, 4)) == edge[0]
            && spec_u32_from_le_bytes(<[usize; 2] as Record>::record(edge).subrange(4, 8)) == edge[1],
        <[usize; 2] as Parse>::parse(b) is Some ==> b.len() >= 8
            && <[usize; 2] as Parse>::parse(b).unwrap().0 == seq![
                spec_u32_from_le_bytes(b.subrange(0, 4)) as usize,
                spec_u32_from_le_bytes(b.subrange(4, 8)) as usize,
            ],
{
    vstd::bytes::lemma_auto_spec_u32_to_from_le_bytes();
    lemma_read_u32(edge[0] as u32, Seq::empty());
    lemma_read_u32(edge[1] as u32, Seq::empty());
    let r = <[usize; 2] as Record>::record(edge);
    assert(r.subrange(0, 4) =~= enc_u32(edge[0] as u32));
    assert(r.subrange(4, 8) =~= enc_u32(edge[1] as u32));
    if <[usize; 2] as Parse>::parse(b) is Some {
        assert(b.take(4) =~= b.subrange(0, 4));
        assert(b.skip(4).take(4) =~= b.subrange(4, 8));
    }
}

/// A layer is written as its id (a little-endian `u32`), one flags byte (1 for a curve,
/// plus 2 for a holdout), the length of its name in UTF-8 (a little-endian `u32`) and the
/// name's bytes; reading takes the id, the flags and the name from the same places.
pub proof fn lemma_layer_layout(layer: LayerView, b: Seq<u8>)
    requires
        encode_utf8(layer.name).len() <= u32::MAX,
    ensures
        ({
            let r = <crate::mesh::Layer as Record>::record(layer);
            &&& spec_u32_from_le_bytes(r.subrange(0, 4)) == layer.id
            &&& r[4] == (if layer.curve { 1u8 } else { 0u8 }) + (if layer.holdout { 2u8 } else { 0u8 })
            &&& spec_u32_from_le_bytes(r.subrange(5, 9)) == encode_utf8(layer.name).len()
            &&& r.skip(9) == encode_utf8(layer.name)
        }),
        <crate::mesh::Layer as Parse>::parse(b) is Some ==> {
            let l = <crate::mesh::Layer as Parse>::parse(b).unwrap().0;
            let len = spec_u32_from_le_bytes(b.subrange(5, 9));
            &&& b.len() >= 9 + len
            &&& l.id == spec_u32_from_le_bytes(b.subrange(0, 4))
            &&& l.curve == (b[4] & 1 != 0)
            &&& l.holdout == (b[4] & 2 != 0)
            &&& l.name == decode_utf8(b.subrange(9, 9 + len))
        },
{
    vstd::bytes::lemma_auto_spec_u32_to_from_le_bytes();
    let name = encode_utf8(layer.name);
    lemma_read_u32(layer.id, Seq::empty());
    lemma_read_u32(name.len() as u32, Seq::empty());
    let r = <crate::mesh::Layer as Record>::record(layer);
    assert(r.subrange(0, 4) =~= enc_u32(layer.id));
    assert(r.subrange(5, 9) =~= enc_u32(name.len() as u32));
    assert(r.skip(9) =~= name);
    assert(r[4] == layer_flags(layer.curve, layer.holdout));
    if <crate::mesh::Layer as Parse>::parse(b) is Some {
        assert(b.take(4) =~= b.subrange(0, 4));
        let r1 = b.skip(4);
        assert(r1[0] == b[4]);
        let r2 = r1.skip(1);
        assert(r2.take(4) =~= b.subrange(5, 9));
        let len = spec_u32_from_le_bytes(b.subrange(5, 9));
        let r3 = r2.skip(4);
        assert(r3.take(len as int) =~= b.subrange(9, 9 + len));
    }
}

proof fn lemma_parse_indices(b: Seq<u8>, count: nat)
    requires
        parse_items::<usize>(b, count) is Some,
    ensures
        ({
            let (ks, rest) = parse_items::<usize>(b, count).unwrap();
            &&& ks.len() == count
            &&& b.len() >= 4 * count
            &&& rest == b.skip(4 * (count as int))
        }),
    decreases count,
{
    if count > 0 {
        let c: int = count - 1;
        lemma_parse_indices(b, c as nat);
        let (prior, r) = parse_items::<usize>(b, c as nat).unwrap();
        assert(r.skip(4) =~= b.skip(4 * (count as int)));
    }
}

/// A coloured face is written as the number of its vertices (a little-endian `u32`),
/// its vertices, then its red, green, blue and alpha bytes in that order; reading takes
/// the colour from the four bytes right after the vertices, in the same order.
pub proof fn lemma_color_layout(entry: (Seq<usize>, Rgba), b: Seq<u8>)
    ensures
        ({
            let r = <(Vec<usize>, Rgba) as Record>::record(entry);
            &&& r.len() >= 4
            &&& r.subrange(r.len() - 4, r.len() as int) == seq![entry.1.r, entry.1.g, entry.1.b, entry.1.a]
            &&& r.subrange(0, 4) == enc_u32(entry.0.len() as u32)
        }),
        <(Vec<usize>, Rgba) as Parse>::parse(b) is Some ==> {
            let ((key, color), rest) = <(Vec<usize>, Rgba) as Parse>::parse(b).unwrap();
            let at: int = 4 + 4 * (key.len() as int);
            &&& b.len() >= at + 4
            &&& key.len() == spec_u32_from_le_bytes(b.subrange(0, 4))
            &&& color == (Rgba { r: b[at], g: b[at + 1], b: b[at + 2], a: b[at + 3] })
            &&& rest == b.skip(at + 4)
        },
{
    let r = <(Vec<usize>, Rgba) as Record>::record(entry);
    let body = enc_all::<usize>(entry.0);
    lemma_read_u32(entry.0.len() as u32, Seq::empty());
    assert(r == body + seq![entry.1.r, entry.1.g, entry.1.b, entry.1.a]);
    assert(r.subrange(r.len() - 4, r.len() as int) =~= seq![entry.1.r, entry.1.g, entry.1.b, entry.1.a]);
    assert(r.subrange(0, 4) =~= enc_u32(entry.0.len() as u32));
    if <(Vec<usize>, Rgba) as Parse>::parse(b) is Some {
        let (count, r0) = read_u32(b).unwrap();
        lemma_parse_indices(r0, count as nat);
        let (key, r1) = parse_items::<usize>(r0, count as nat).unwrap();
        assert(b.take(4) =~= b.subrange(0, 4));
        let at: int = 4 + 4 * (key.len() as int);
        assert(r1 =~= b.skip(at));
        assert(r1.take(4)[0] == b[at]);
        assert(r1.take(4)[1] == b[at + 1]);
        assert(r1.take(4)[2] == b[at + 2]);
        assert(r1.take(4)[3] == b[at + 3]);
        assert(r1.skip(4) =~= b.skip(at + 4));
    }
}

} // verus!
