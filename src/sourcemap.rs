//! The source map encoder: walks the position table in address order and
//! writes the Source Map v3 document.
use vstd::prelude::*;
use crate::error::{Error, InternalError};
use crate::json;
use crate::json::escaped;
use crate::table::{CodePoint, PositionTable};
use crate::vlq;
use crate::vlq::{push_char, vlq_text};

verus! {

/// What the encoder has built after a run of points: the source table in
/// first-seen order, the mappings text, and the baseline of the deltas.
pub struct EncoderState {
    /// Source paths; a source id is a position here.
    pub sources: Seq<Seq<char>>,
    /// The segments so far, joined by commas.
    pub mappings: Seq<char>,
    /// Address of the last point mapped.
    pub address: int,
    /// Source id of the last point mapped.
    pub source: int,
    /// Line of the last point mapped.
    pub line: int,
    /// Column of the last point mapped.
    pub column: int,
}

/// The state before the first point.
pub open spec fn initial_state() -> EncoderState {
    EncoderState {
        sources: Seq::empty(),
        mappings: Seq::empty(),
        address: 0,
        source: 0,
        line: 1,
        column: 1,
    }
}

/// Whether a point is attributed to a source line and file, and so has a
/// mapping.
pub open spec fn retained(p: CodePoint) -> bool {
    p.line != 0 && p.source is Some
}

/// The id of a path in the source table: its first position, or the table's
/// length when it is not there yet.
pub open spec fn source_index(sources: Seq<Seq<char>>, path: Seq<char>) -> int
    decreases sources.len(),
{
    if sources.len() == 0 {
        0
    } else if sources[0] == path {
        0
    } else {
        1 + source_index(sources.drop_first(), path)
    }
}

/// The mapping segment of a point with source id `id`, relative to the
/// baseline of `st`.
pub open spec fn segment(st: EncoderState, p: CodePoint, id: int) -> Seq<char> {
    vlq_text(p.address - st.address) + vlq_text(id - st.source) + vlq_text(p.line - st.line)
        + vlq_text(p.column - st.column)
}

/// The state after one more point.
pub open spec fn step(st: EncoderState, p: CodePoint) -> EncoderState {
    if !retained(p) {
        st
    } else {
        let path = p.source->0@;
        let id = source_index(st.sources, path);
        let seg = segment(st, p, id);
        EncoderState {
            sources: if id == st.sources.len() {
                st.sources.push(path)
            } else {
                st.sources
            },
            mappings: if st.mappings.len() == 0 {
                seg
            } else {
                st.mappings + seq![','] + seg
            },
            address: p.address as int,
            source: id,
            line: p.line as int,
            column: p.column as int,
        }
    }
}

/// The state after a run of points, taken in order.
pub open spec fn encoded(points: Seq<CodePoint>) -> EncoderState
    decreases points.len(),
{
    if points.len() == 0 {
        initial_state()
    } else {
        step(encoded(points.drop_last()), points.last())
    }
}

/// The texts of a sequence of strings.
pub open spec fn texts(v: Seq<String>) -> Seq<Seq<char>> {
    v.map_values(|s: String| s@)
}

/// A Source Map v3 document.
pub struct SourceMap {
    /// Name of the generated file, if given.
    pub file: Option<String>,
    /// Source paths; a source id is a position in this list.
    pub sources: Vec<String>,
    /// Text of each source, parallel to `sources`, where bundled.
    pub sources_content: Option<Vec<Option<String>>>,
    /// The delta-encoded segments, joined by commas.
    pub mappings: String,
}

proof fn lemma_source_index_bound(sources: Seq<Seq<char>>, path: Seq<char>)
    ensures
        0 <= source_index(sources, path) <= sources.len(),
        source_index(sources, path) < sources.len() ==> sources[source_index(sources, path)]
            == path,
    decreases sources.len(),
{
    if sources.len() > 0 && sources[0] != path {
        lemma_source_index_bound(sources.drop_first(), path);
    }
}

proof fn lemma_source_index_at(sources: Seq<Seq<char>>, path: Seq<char>, j: int)
    requires
        0 <= j <= sources.len(),
        forall|k: int| 0 <= k < j ==> sources[k] != path,
        j == sources.len() || sources[j] == path,
    ensures
        source_index(sources, path) == j,
    decreases j,
{
    if j > 0 {
        let t = sources.drop_first();
        assert forall|k: int| 0 <= k < j - 1 implies t[k] != path by {
            assert(t[k] == sources[k + 1]);
        }
        lemma_source_index_at(t, path, j - 1);
    }
}

/// Finds the id of a path in the source table, adding the path when it is
/// not there yet.
fn source_id(sources: &mut Vec<String>, path: &String) -> (id: usize)
    ensures
        id == source_index(texts(old(sources)@), path@),
        texts(final(sources)@) == if id == old(sources)@.len() {
            texts(old(sources)@).push(path@)
        } else {
            texts(old(sources)@)
        },
{
    let ghost before = texts(sources@);
    let mut j: usize = 0;
    while j < sources.len()
        invariant
            j <= sources.len(),
            before == texts(sources@),
            forall|k: int| 0 <= k < j ==> before[k] != path@,
        decreases sources.len() - j,
    {
        if sources[j] == *path {
            proof { lemma_source_index_at(before, path@, j as int); }
            return j;
        }
        j = j + 1;
    }
    proof { lemma_source_index_at(before, path@, j as int); }
    sources.push(path.clone());
    assert(texts(sources@) =~= before.push(path@));
    j
}

/// Bounds that the encoder's baseline keeps.
pub open spec fn baseline_bounds(st: EncoderState) -> bool {
    &&& 0 <= st.address <= u32::MAX
    &&& 0 <= st.source <= st.sources.len()
    &&& 0 <= st.line <= u32::MAX
    &&& 0 <= st.column <= u32::MAX
}

proof fn lemma_step_bounds(st: EncoderState, p: CodePoint)
    requires
        baseline_bounds(st),
    ensures
        baseline_bounds(step(st, p)),
        step(st, p).sources.len() <= st.sources.len() + 1,
{
    if retained(p) {
        lemma_source_index_bound(st.sources, p.source->0@);
    }
}

impl SourceMap {
    /// Encodes a position table: walks it in address order, skips the points
    /// without source line or file, gives each new source path the next id,
    /// and writes the four deltas of each point from the one before (from
    /// address 0, source 0, line 1, column 1 for the first) as base64 VLQ.
    pub fn from_table(table: &PositionTable, file: Option<String>) -> (m: SourceMap)
        requires
            table.wf(),
        ensures
            m.file == file,
            m.sources_content is None,
            texts(m.sources@) == encoded(table.points()).sources,
            m.mappings@ == encoded(table.points()).mappings,
    {
        let ghost pts = table.points();
        let mut sources: Vec<String> = Vec::new();
        let mut mappings = String::new();
        let mut last_address: i64 = 0;
        let mut last_source: i64 = 0;
        let mut last_line: i64 = 1;
        let mut last_column: i64 = 1;
        let n = table.len();
        proof { table.lemma_wf_len(); }
        let mut i: usize = 0;
        assert(texts(sources@) =~= Seq::<Seq<char>>::empty());
        while i < n
            invariant
                n == pts.len(),
                n <= u32::MAX + 1,
                pts == table.points(),
                i <= n,
                sources@.len() <= i,
                baseline_bounds(encoded(pts.take(i as int))),
                encoded(pts.take(i as int)) == (EncoderState {
                    sources: texts(sources@),
                    mappings: mappings@,
                    address: last_address as int,
                    source: last_source as int,
                    line: last_line as int,
                    column: last_column as int,
                }),
            decreases n - i,
        {
            let ghost st = encoded(pts.take(i as int));
            assert(pts.take(i + 1).drop_last() =~= pts.take(i as int));
            proof { lemma_step_bounds(st, pts[i as int]); }
            let p = table.get(i);
            if p.line != 0 {
                if let Some(path) = &p.source {
                    let id = source_id(&mut sources, path);
                    let ghost seg = segment(st, *p, id as int);
                    let ghost old_map = mappings@;
                    if mappings.unicode_len() > 0 {
                        push_char(&mut mappings, ',');
                    }
                    let a = vlq::encode(p.address as i64 - last_address);
                    mappings.append(a.as_str());
                    let s = vlq::encode(id as i64 - last_source);
                    mappings.append(s.as_str());
                    let l = vlq::encode(p.line as i64 - last_line);
                    mappings.append(l.as_str());
                    let c = vlq::encode(p.column as i64 - last_column);
                    mappings.append(c.as_str());
                    assert(mappings@ =~= (if old_map.len() == 0 {
                        seg
                    } else {
                        old_map + seq![','] + seg
                    }));
                    last_address = p.address as i64;
                    last_source = id as i64;
                    last_line = p.line as i64;
                    last_column = p.column as i64;
                }
            }
            i = i + 1;
        }
        assert(pts.take(n as int) =~= pts);
        SourceMap { file, sources, sources_content: None, mappings }
    }
}


/// Length of the leading run of a path that holds no `:`, `/` or `\`.
pub open spec fn root_prefix_len(p: Seq<char>) -> nat
    decreases p.len(),
{
    if p.len() == 0 || p[0] == ':' || p[0] == '/' || p[0] == '\\' {
        0
    } else {
        1 + root_prefix_len(p.drop_first())
    }
}

/// A path without its library-root discriminator: a leading name of two or
/// more characters without separators, followed by a colon, is dropped
/// together with the colon. A drive letter (`C:`) stays.
pub open spec fn strip_root(p: Seq<char>) -> Seq<char> {
    let k = root_prefix_len(p) as int;
    if k >= 2 && k < p.len() && p[k] == ':' {
        p.skip(k + 1)
    } else {
        p
    }
}

/// A text as a JSON string literal.
pub open spec fn json_string(s: Seq<char>) -> Seq<char> {
    seq!['"'] + escaped(s) + seq!['"']
}

/// Rendered items joined by commas.
pub open spec fn comma_list(items: Seq<Seq<char>>) -> Seq<char>
    decreases items.len(),
{
    if items.len() == 0 {
        Seq::empty()
    } else if items.len() == 1 {
        items[0]
    } else {
        comma_list(items.drop_last()) + seq![','] + items.last()
    }
}

/// The `sources` entries of a document.
pub open spec fn source_items(sources: Seq<String>) -> Seq<Seq<char>> {
    sources.map_values(|s: String| json_string(strip_root(s@)))
}

/// One `sourcesContent` entry: the text, or `null` where it could not be read.
pub open spec fn content_item(c: Option<String>) -> Seq<char> {
    match c {
        Some(s) => json_string(s@),
        None => "null"@,
    }
}

/// The `file` member, if any, with its comma.
pub open spec fn file_member(file: Option<String>) -> Seq<char> {
    match file {
        Some(f) => "\"file\":"@ + json_string(f@) + seq![','],
        None => Seq::empty(),
    }
}

/// The `sourcesContent` member, if any, with its comma.
pub open spec fn content_member(content: Option<Vec<Option<String>>>) -> Seq<char> {
    match content {
        Some(v) => "\"sourcesContent\":["@ + comma_list(v@.map_values(|c: Option<String>| content_item(c)))
            + "],"@,
        None => Seq::empty(),
    }
}

/// The JSON text of a document, members in this order: `version` (3),
/// `file` if given, `sourceRoot` (empty), `names` (empty), `sources`,
/// `sourcesContent` if bundled, `mappings`.
pub open spec fn json_text(m: SourceMap) -> Seq<char> {
    "{\"version\":3,"@ + file_member(m.file) + "\"sourceRoot\":\"\",\"names\":[],\"sources\":["@
        + comma_list(source_items(m.sources@)) + "],"@ + content_member(m.sources_content)
        + "\"mappings\":\""@ + m.mappings@ + "\"}"@
}

fn push_json_string(out: &mut String, s: &str)
    ensures
        final(out)@ == old(out)@ + json_string(s@),
{
    let e = json::encode(s);
    push_char(out, '"');
    out.append(e.as_str());
    push_char(out, '"');
}

fn ends_root(c: char) -> (r: bool)
    ensures
        r == (c == ':' || c == '/' || c == '\\'),
{
    c == ':' || c == '/' || c == '\\'
}

/// A path without its library-root discriminator; see [`strip_root`].
pub fn strip_root_prefix(p: &str) -> (r: String)
    ensures
        r@ == strip_root(p@),
{
    let n = p.unicode_len();
    let mut k: usize = 0;
    assert(p@.skip(0) =~= p@);
    while k < n && !ends_root(p.get_char(k))
        invariant
            n == p@.len(),
            k <= n,
            root_prefix_len(p@) == k + root_prefix_len(p@.skip(k as int)),
        decreases n - k,
    {
        assert(p@.skip(k as int).drop_first() =~= p@.skip(k + 1));
        k = k + 1;
    }
    assert(k < n ==> p@.skip(k as int)[0] == p@[k as int]);
    assert(root_prefix_len(p@) == k);
    if k >= 2 && k < n && p.get_char(k) == ':' {
        String::from_str(p.substring_char(k + 1, n))
    } else {
        String::from_str(p)
    }
}

impl SourceMap {
    /// The document with the text of each source bundled, parallel to the
    /// sources; `None` marks a source that could not be read. Fails with an
    /// internal error when there is not one entry per source.
    pub fn with_sources_content(self, content: Vec<Option<String>>) -> (r: Result<SourceMap, Error>)
        ensures
            r is Ok <==> content.len() == self.sources.len(),
            r matches Ok(m) ==> {
                &&& m.file == self.file
                &&& m.sources == self.sources
                &&& m.mappings == self.mappings
                &&& m.sources_content == Some(content)
            },
            r matches Err(e) ==> e is Internal,
    {
        if content.len() != self.sources.len() {
            return Err(
                Error::Internal(
                    InternalError::Generic(
                        String::from_str("the bundled contents do not match the sources"),
                    ),
                ),
            );
        }
        Ok(SourceMap { sources_content: Some(content), ..self })
    }

    /// The JSON text of the document; see [`json_text`].
    pub fn to_json(&self) -> (r: String)
        ensures
            r@ == json_text(*self),
    {
        let mut out = String::from_str("{\"version\":3,");
        match &self.file {
            Some(f) => {
                out.append("\"file\":");
                push_json_string(&mut out, f.as_str());
                push_char(&mut out, ',');
            },
            None => {},
        }
        out.append("\"sourceRoot\":\"\",\"names\":[],\"sources\":[");
        let ghost head = out@;
        let ghost items = source_items(self.sources@);
        let mut i: usize = 0;
        while i < self.sources.len()
            invariant
                i <= self.sources.len(),
                items == source_items(self.sources@),
                out@ == head + comma_list(items.take(i as int)),
            decreases self.sources.len() - i,
        {
            assert(items.take(i + 1).drop_last() =~= items.take(i as int));
            if i > 0 {
                push_char(&mut out, ',');
            }
            let stripped = strip_root_prefix(self.sources[i].as_str());
            push_json_string(&mut out, stripped.as_str());
            assert(out@ =~= head + comma_list(items.take(i + 1)));
            i = i + 1;
        }
        assert(items.take(i as int) =~= items);
        out.append("],");
        match &self.sources_content {
            Some(v) => {
                out.append("\"sourcesContent\":[");
                let ghost head2 = out@;
                let ghost citems = v@.map_values(|c: Option<String>| content_item(c));
                let mut j: usize = 0;
                while j < v.len()
                    invariant
                        j <= v.len(),
                        citems == v@.map_values(|c: Option<String>| content_item(c)),
                        out@ == head2 + comma_list(citems.take(j as int)),
                    decreases v.len() - j,
                {
                    assert(citems.take(j + 1).drop_last() =~= citems.take(j as int));
                    if j > 0 {
                        push_char(&mut out, ',');
                    }
                    match &v[j] {
                        Some(text) => push_json_string(&mut out, text.as_str()),
                        None => out.append("null"),
                    }
                    assert(out@ =~= head2 + comma_list(citems.take(j + 1)));
                    j = j + 1;
                }
                assert(citems.take(j as int) =~= citems);
                out.append("],");
            },
            None => {},
        }
        out.append("\"mappings\":\"");
        out.append(self.mappings.as_str());
        out.append("\"}");
        assert(out@ =~= json_text(*self));
        out
    }
}

/// Distinct paths in the order of their first occurrence.
pub open spec fn first_seen(paths: Seq<Seq<char>>) -> Seq<Seq<char>>
    decreases paths.len(),
{
    if paths.len() == 0 {
        Seq::empty()
    } else {
        let f = first_seen(paths.drop_last());
        if f.contains(paths.last()) {
            f
        } else {
            f.push(paths.last())
        }
    }
}

/// The source paths of the attributed points, in address order.
pub open spec fn attributed_paths(points: Seq<CodePoint>) -> Seq<Seq<char>> {
    points.filter_map(|p: CodePoint| if retained(p) { Some(p.source->0@) } else { None })
}

proof fn lemma_source_index_contains(sources: Seq<Seq<char>>, path: Seq<char>)
    ensures
        source_index(sources, path) == sources.len() <==> !sources.contains(path),
{
    lemma_source_index_bound(sources, path);
    if sources.contains(path) {
        let k = choose|k: int| 0 <= k < sources.len() && sources[k] == path;
        if source_index(sources, path) == sources.len() {
            lemma_first_index_below(sources, path, k);
        }
    }
}

proof fn lemma_first_index_below(sources: Seq<Seq<char>>, path: Seq<char>, k: int)
    requires
        0 <= k < sources.len(),
        sources[k] == path,
    ensures
        source_index(sources, path) <= k,
    decreases k,
{
    if k > 0 && sources[0] != path {
        lemma_first_index_below(sources.drop_first(), path, k - 1);
    }
}

/// The source table lists the paths of the attributed points, each once, in
/// the order in which the address-ordered walk first meets them; a source
/// id is a position in it.
pub proof fn lemma_sources_first_seen(points: Seq<CodePoint>)
    ensures
        encoded(points).sources == first_seen(attributed_paths(points)),
    decreases points.len(),
{
    if points.len() > 0 {
        let rest = points.drop_last();
        lemma_sources_first_seen(rest);
        let p = points.last();
        if retained(p) {
            lemma_source_index_contains(encoded(rest).sources, p.source->0@);
            assert(attributed_paths(points) == attributed_paths(rest) + seq![p.source->0@]);
            assert((attributed_paths(rest) + seq![p.source->0@]).drop_last() =~= attributed_paths(
                rest,
            ));
        }
    }
}

/// Points without a source line or file leave the document as it would be
/// without them: they get no segment and do not move the delta baseline.
pub proof fn lemma_unattributed_ignored(points: Seq<CodePoint>)
    ensures
        encoded(points) == encoded(points.filter(|p: CodePoint| retained(p))),
    decreases points.len(),
{
    reveal(Seq::filter);
    if points.len() > 0 {
        let rest = points.drop_last();
        let pred = |p: CodePoint| retained(p);
        lemma_unattributed_ignored(rest);
        if retained(points.last()) {
            assert(rest.filter(pred).push(points.last()).drop_last() =~= rest.filter(pred));
        }
    }
}

proof fn lemma_vlq_text_nonempty(v: int)
    ensures
        vlq_text(v).len() > 0,
{
    reveal_with_fuel(crate::vlq::vlq_digits, 2);
}

/// A table with at least one point that has a source line and file gives a
/// document with at least one source and a non-empty `mappings`; `version`
/// is always 3 and `names` always empty (see [`json_text`]).
pub proof fn lemma_attributed_point_maps(points: Seq<CodePoint>, i: int)
    requires
        0 <= i < points.len(),
        retained(points[i]),
    ensures
        encoded(points).sources.len() > 0,
        encoded(points).mappings.len() > 0,
    decreases points.len(),
{
    let rest = points.drop_last();
    let p = points.last();
    let st = encoded(rest);
    if i < points.len() - 1 {
        lemma_attributed_point_maps(rest, i);
    }
    if retained(p) {
        let id = source_index(st.sources, p.source->0@);
        lemma_source_index_bound(st.sources, p.source->0@);
        lemma_vlq_text_nonempty(p.address - st.address);
    }
}

} // verus!
