//! The mapping decoder and query index: parses the packed `mappings` string
//! of a source map into an ordered sequence of absolute generated-to-original
//! position records, validates cross references into the `sources` and
//! `names` tables, sorts the result stably, and wraps it in a `Cache` that
//! answers nearest-mapping point lookups.
use vstd::prelude::*;

use crate::base64_vlq;
use crate::decimal;

verus! {

/// The supported source map revision.
pub const SOURCE_MAP_VERSION: u32 = 3;

#[derive(Clone, Copy, PartialEq, Eq, Structural, Debug)]
pub struct CodePosition {
    /** Line number in a code file, starting from 1 */
    pub line: u32,
    /** Column number in a code file, starting from 0 */
    pub column: u32,
}

#[derive(Clone, PartialEq, Eq, Debug)]
pub struct Mapping {
    /** The position in the generated file */
    pub generated: CodePosition,
    /** The position in the corresponding original source file */
    pub original: CodePosition,
    /** The original source file */
    pub source: String,
    /** The original source name of the function/class, if applicable */
    pub name: String,
}

/// The mathematical content of a `Mapping`: its positions and the character
/// sequences of its resolved source and name.
pub ghost struct MappingModel {
    pub generated: CodePosition,
    pub original: CodePosition,
    pub source: Seq<char>,
    pub name: Seq<char>,
}

impl View for Mapping {
    type V = MappingModel;

    open spec fn view(&self) -> MappingModel {
        MappingModel {
            generated: self.generated,
            original: self.original,
            source: self.source@,
            name: self.name@,
        }
    }
}

/// A name-table entry of the input document: a string, or an integer-like
/// value that is coerced to its decimal string form when a mapping resolves
/// it.
#[derive(Clone, PartialEq, Eq, Debug)]
pub enum NameValue {
    Str(String),
    Int(i64),
    UInt(u64),
}

/// The character sequence a name-table entry resolves to.
pub open spec fn name_chars(nv: NameValue) -> Seq<char> {
    match nv {
        NameValue::Str(s) => s@,
        NameValue::Int(v) => decimal::dec_seq_signed(v as int),
        NameValue::UInt(u) => decimal::dec_seq(u as nat),
    }
}

/// The input document shape: the fields of a source map that the decoder
/// reads. How the record was obtained (from disk, network, or a larger
/// structure) is outside the decoder's concern.
pub struct SourceMap {
    pub version: u32,
    pub sources: Vec<String>,
    pub names: Vec<NameValue>,
    pub source_root: Option<String>,
    pub mappings: Vec<u8>,
    // sourcesContent is deliberately never materialized: keeping megabytes of
    // data nothing consumes in memory would be reckless to caches.
}

/// The mathematical content of a `SourceMap`, with name-table entries
/// already resolved to character sequences.
pub ghost struct DocModel {
    pub version: u32,
    pub sources: Seq<Seq<char>>,
    pub names: Seq<Seq<char>>,
    pub source_root: Option<Seq<char>>,
    pub mappings: Seq<u8>,
}

impl View for SourceMap {
    type V = DocModel;

    open spec fn view(&self) -> DocModel {
        DocModel {
            version: self.version,
            sources: Seq::new(self.sources@.len(), |i: int| self.sources@[i]@),
            names: Seq::new(self.names@.len(), |i: int| name_chars(self.names@[i])),
            source_root: match self.source_root {
                Some(s) => Some(s@),
                None => None,
            },
            mappings: self.mappings@,
        }
    }
}

/// The `source_root` a decoded cache carries: the document's, or empty when
/// absent.
pub open spec fn source_root_chars(doc: DocModel) -> Seq<char> {
    match doc.source_root {
        Some(s) => s,
        None => Seq::empty(),
    }
}

/// Everything that can end a decode early, all terminal for the whole call.
#[derive(Clone, Copy, PartialEq, Eq, Structural, Debug)]
pub enum ParseError {
    /// The document's version field is not the supported revision.
    UnsupportedVersion,
    /// A segment character is outside the alphabet, or a value ends while
    /// its continuation bit is still set.
    InvalidVlqField,
    /// A segment of exactly two fields: a source, but no line and column.
    SourceButNoLineColumn,
    /// A segment of exactly three fields: a source and line, but no column.
    SourceLineButNoColumn,
    /// A resolved source index at or beyond the source table's length.
    SourceIndexOutOfRange { index: u32, length: u32 },
    /// A resolved name index at or beyond the name table's length.
    NameIndexOutOfRange { index: u32, length: u32 },
    /// The whole mappings string decoded to zero mappings.
    NoMappings,
}

/// The accumulators the decoder threads through the segment iteration.
/// `prev_generated_column` resets at every line boundary; all other
/// accumulators persist across segments and lines for the whole decode.
#[derive(Clone, Copy, PartialEq, Eq, Structural, Debug)]
pub struct DecodeState {
    /// The 1-based generated line the decoder is on.
    pub generated_line: u32,
    pub prev_generated_column: u32,
    pub prev_source: u32,
    pub prev_original_line: u32,
    pub prev_original_column: u32,
    pub prev_name: u32,
}

/// The accumulators at the start of a decode.
pub open spec fn initial_state() -> DecodeState {
    DecodeState {
        generated_line: 1,
        prev_generated_column: 0,
        prev_source: 0,
        prev_original_line: 0,
        prev_original_column: 0,
        prev_name: 0,
    }
}

/// Crossing a `;`: the generated line advances and only the generated-column
/// accumulator resets.
pub open spec fn advance_line(st: DecodeState) -> DecodeState {
    DecodeState {
        generated_line: vstd::wrapping::u32_specs::wrapping_add(st.generated_line, 1),
        prev_generated_column: 0,
        ..st
    }
}

/// Adding a decoded delta to an accumulator, in the 32-bit domain.
pub open spec fn add_delta(prev: u32, delta: i32) -> u32 {
    vstd::wrapping::u32_specs::wrapping_add_signed(prev, delta)
}

/// A table length as the 32-bit value the bound checks compare against.
pub open spec fn table_len(n: nat) -> u32 {
    (n % 0x1_0000_0000) as u32
}

/// The separators of the mappings string: `;` between line groups, `,`
/// between segments.
pub open spec fn is_separator(b: u8) -> bool {
    b == 59 || b == 44
}

/// The decoded fields of the segment starting at `i`: repeated VLQ values up
/// to the next separator or the end of the string, together with the index
/// just past the segment. None when a value cannot be decoded.
pub open spec fn fields_at(s: Seq<u8>, i: int) -> Option<(Seq<i32>, int)>
    decreases s.len() - i,
    when 0 <= i <= s.len()
    via fields_at_decreases
{
    if i == s.len() || is_separator(s[i]) {
        Some((Seq::empty(), i))
    } else {
        match base64_vlq::vlq_parse(s.skip(i)) {
            None => None,
            Some((value, consumed)) => match fields_at(s, i + consumed) {
                None => None,
                Some((rest, j)) => Some((seq![value] + rest, j)),
            },
        }
    }
}

#[via_fn]
proof fn fields_at_decreases(s: Seq<u8>, i: int) {
    if !(i == s.len() || is_separator(s[i])) {
        match base64_vlq::vlq_parse(s.skip(i)) {
            None => {},
            Some((value, consumed)) => {
                base64_vlq::lemma_vlq_digits_bounds(s.skip(i));
            },
        }
    }
}

/// One segment's effect: no fields contribute nothing, one field moves only
/// the generated column, two or three fields are malformed, four or five
/// resolve the original side, and any surplus fields are ignored. Errors
/// abort the decode.
pub open spec fn apply_fields(
    st: DecodeState,
    fields: Seq<i32>,
    sources: Seq<Seq<char>>,
    names: Seq<Seq<char>>,
) -> Result<(DecodeState, Option<MappingModel>), ParseError> {
    if fields.len() == 0 {
        Ok((st, None))
    } else if fields.len() == 2 {
        Err(ParseError::SourceButNoLineColumn)
    } else if fields.len() == 3 {
        Err(ParseError::SourceLineButNoColumn)
    } else {
        let generated_column = add_delta(st.prev_generated_column, fields[0]);
        let st1 = DecodeState { prev_generated_column: generated_column, ..st };
        let generated = CodePosition { line: st.generated_line, column: generated_column };
        if fields.len() == 1 {
            Ok(
                (
                    st1,
                    Some(
                        MappingModel {
                            generated,
                            original: CodePosition { line: 0, column: 0 },
                            source: Seq::empty(),
                            name: Seq::empty(),
                        },
                    ),
                ),
            )
        } else {
            let source_index = add_delta(st.prev_source, fields[1]);
            if source_index >= table_len(sources.len()) {
                Err(
                    ParseError::SourceIndexOutOfRange {
                        index: source_index,
                        length: table_len(sources.len()),
                    },
                )
            } else {
                let original_line = add_delta(st.prev_original_line, fields[2]);
                let original_column = add_delta(st.prev_original_column, fields[3]);
                let st2 = DecodeState {
                    prev_source: source_index,
                    prev_original_line: original_line,
                    prev_original_column: original_column,
                    ..st1
                };
                let original = CodePosition {
                    // Lines are stored 0-based
                    line: vstd::wrapping::u32_specs::wrapping_add(original_line, 1),
                    column: original_column,
                };
                if fields.len() == 4 {
                    Ok(
                        (
                            st2,
                            Some(
                                MappingModel {
                                    generated,
                                    original,
                                    source: sources[source_index as int],
                                    name: Seq::empty(),
                                },
                            ),
                        ),
                    )
                } else {
                    let name_index = add_delta(st.prev_name, fields[4]);
                    if name_index >= table_len(names.len()) {
                        Err(
                            ParseError::NameIndexOutOfRange {
                                index: name_index,
                                length: table_len(names.len()),
                            },
                        )
                    } else {
                        let st3 = DecodeState { prev_name: name_index, ..st2 };
                        Ok(
                            (
                                st3,
                                Some(
                                    MappingModel {
                                        generated,
                                        original,
                                        source: sources[source_index as int],
                                        name: names[name_index as int],
                                    },
                                ),
                            ),
                        )
                    }
                }
            }
        }
    }
}

/// The decode from position `i` onward: one segment at a time, crossing `,`
/// within a line and `;` between lines, collecting mappings into `acc`. At
/// the end of the string, zero collected mappings are a hard error.
pub open spec fn parse_at(
    s: Seq<u8>,
    i: int,
    st: DecodeState,
    acc: Seq<MappingModel>,
    sources: Seq<Seq<char>>,
    names: Seq<Seq<char>>,
) -> Result<Seq<MappingModel>, ParseError>
    decreases s.len() - i,
    when 0 <= i <= s.len()
    via parse_at_decreases
{
    match fields_at(s, i) {
        None => Err(ParseError::InvalidVlqField),
        Some((fields, j)) => match apply_fields(st, fields, sources, names) {
            Err(e) => Err(e),
            Ok((st2, decoded)) => {
                let acc2 = match decoded {
                    Some(m) => acc.push(m),
                    None => acc,
                };
                if j == s.len() {
                    if acc2.len() == 0 {
                        Err(ParseError::NoMappings)
                    } else {
                        Ok(acc2)
                    }
                } else if s[j] == 59 {
                    parse_at(s, j + 1, advance_line(st2), acc2, sources, names)
                } else {
                    parse_at(s, j + 1, st2, acc2, sources, names)
                }
            },
        },
    }
}

/// A successful `fields_at` never moves the cursor backwards and stops at a
/// separator or the end.
pub proof fn lemma_fields_at_range(s: Seq<u8>, i: int)
    requires
        0 <= i <= s.len(),
        fields_at(s, i) is Some,
    ensures
        i <= fields_at(s, i)->Some_0.1 <= s.len(),
        fields_at(s, i)->Some_0.1 == s.len() || is_separator(s[fields_at(s, i)->Some_0.1]),
    decreases s.len() - i,
{
    if i == s.len() || is_separator(s[i]) {
    } else {
        match base64_vlq::vlq_parse(s.skip(i)) {
            None => {},
            Some((value, consumed)) => {
                base64_vlq::lemma_vlq_digits_bounds(s.skip(i));
                lemma_fields_at_range(s, i + consumed);
            },
        }
    }
}

#[via_fn]
proof fn parse_at_decreases(
    s: Seq<u8>,
    i: int,
    st: DecodeState,
    acc: Seq<MappingModel>,
    sources: Seq<Seq<char>>,
    names: Seq<Seq<char>>,
) {
    match fields_at(s, i) {
        None => {},
        Some((fields, j)) => {
            lemma_fields_at_range(s, i);
        },
    }
}

/// The whole decode of a document, before sorting: reject any version other
/// than the supported one, then fold over the mappings string.
pub open spec fn decode_mappings_spec(doc: DocModel) -> Result<Seq<MappingModel>, ParseError> {
    if doc.version != SOURCE_MAP_VERSION {
        Err(ParseError::UnsupportedVersion)
    } else {
        parse_at(doc.mappings, 0, initial_state(), Seq::empty(), doc.sources, doc.names)
    }
}

/// Fields already decoded from a segment, prepended to the outcome of the
/// rest of that segment.
pub open spec fn fields_prepend(pre: Seq<i32>, r: Option<(Seq<i32>, int)>) -> Option<
    (Seq<i32>, int),
> {
    match r {
        None => None,
        Some((fs, j)) => Some((pre + fs, j)),
    }
}

/// The exec cast of a table length to `u32` is the 32-bit bound the decoder
/// compares indices against.
proof fn lemma_table_len(n: usize)
    ensures
        #[verifier::truncate] (n as u32) == table_len(n as nat),
{
    assert((#[verifier::truncate] (n as u32)) as int == (n as int) % 0x1_0000_0000)
        by (bit_vector);
}

/// Ordering of mappings: solely by generated line, then generated column.
pub open spec fn key_le(a: MappingModel, b: MappingModel) -> bool {
    a.generated.line < b.generated.line || (a.generated.line == b.generated.line
        && a.generated.column <= b.generated.column)
}

/// Sorted ascending by generated position; equal keys may repeat.
pub open spec fn sorted_by_generated(ms: Seq<MappingModel>) -> bool {
    forall|p: int, q: int| 0 <= p < q < ms.len() ==> key_le(ms[p], ms[q])
}

/// Stable insertion of `m` into the sorted `t`: after every element whose
/// key is less than or equal to its own.
pub open spec fn insert_sorted(m: MappingModel, t: Seq<MappingModel>) -> Seq<MappingModel>
    decreases t.len(),
{
    if t.len() == 0 {
        seq![m]
    } else if key_le(t.last(), m) {
        t.push(m)
    } else {
        insert_sorted(m, t.drop_last()).push(t.last())
    }
}

/// Stable sort by generated position: elements inserted left to right, so
/// ties keep their parse order.
pub open spec fn sort_by_generated(ms: Seq<MappingModel>) -> Seq<MappingModel>
    decreases ms.len(),
{
    if ms.len() == 0 {
        Seq::empty()
    } else {
        insert_sorted(ms.last(), sort_by_generated(ms.drop_last()))
    }
}

/// Stable insertion preserves length and sortedness.
pub proof fn lemma_insert_sorted_props(m: MappingModel, t: Seq<MappingModel>)
    requires
        sorted_by_generated(t),
    ensures
        insert_sorted(m, t).len() == t.len() + 1,
        sorted_by_generated(insert_sorted(m, t)),
    decreases t.len(),
{
    if t.len() == 0 {
    } else if key_le(t.last(), m) {
        let r = t.push(m);
        assert forall|p: int, q: int| 0 <= p < q < r.len() implies key_le(r[p], r[q]) by {
            if q == r.len() - 1 && p < t.len() - 1 {
                assert(key_le(t[p], t[t.len() - 1]));
            }
        }
    } else {
        assert(sorted_by_generated(t.drop_last())) by {
            assert(forall|p: int, q: int|
                0 <= p < q < t.len() - 1 ==> key_le(
                    #[trigger] t.drop_last()[p],
                    #[trigger] t.drop_last()[q],
                ));
        }
        lemma_insert_sorted_props(m, t.drop_last());
        let inner = insert_sorted(m, t.drop_last());
        let r = inner.push(t.last());
        assert(!key_le(t.last(), m));
        assert(key_le(m, t.last()));
        lemma_insert_sorted_element(m, t.drop_last());
        assert forall|p: int, q: int| 0 <= p < q < r.len() implies key_le(r[p], r[q]) by {
            if q == r.len() - 1 {
                // every element of `inner` is either an element of
                // t.drop_last() or `m`, and both precede t.last()
                assert(inner[p] == m || exists|w: int|
                    0 <= w < t.len() - 1 && inner[p] == t.drop_last()[w]);
                if inner[p] != m {
                    let w = choose|w: int| 0 <= w < t.len() - 1 && inner[p] == t.drop_last()[w];
                    assert(key_le(t[w], t[t.len() - 1]));
                }
            }
        }
    }
}

/// Every element of a stable insertion is the inserted element or one of the
/// original elements.
pub proof fn lemma_insert_sorted_element(m: MappingModel, t: Seq<MappingModel>)
    ensures
        forall|p: int|
            0 <= p < insert_sorted(m, t).len() ==> #[trigger] insert_sorted(m, t)[p] == m
                || exists|w: int| 0 <= w < t.len() && insert_sorted(m, t)[p] == t[w],
    decreases t.len(),
{
    if t.len() == 0 {
    } else if key_le(t.last(), m) {
    } else {
        lemma_insert_sorted_element(m, t.drop_last());
        let inner = insert_sorted(m, t.drop_last());
        let r = inner.push(t.last());
        assert forall|p: int| 0 <= p < r.len() implies r[p] == m || exists|w: int|
            0 <= w < t.len() && r[p] == t[w] by {
            if p == r.len() - 1 {
                assert(r[p] == t[t.len() - 1]);
            } else {
                assert(r[p] == inner[p]);
                if inner[p] != m {
                    let w = choose|w: int| 0 <= w < t.len() - 1 && inner[p] == t.drop_last()[w];
                    assert(r[p] == t[w]);
                }
            }
        }
    }
}

/// The stable sort keeps the length and establishes sortedness.
pub proof fn lemma_sort_props(ms: Seq<MappingModel>)
    ensures
        sort_by_generated(ms).len() == ms.len(),
        sorted_by_generated(sort_by_generated(ms)),
    decreases ms.len(),
{
    if ms.len() == 0 {
    } else {
        lemma_sort_props(ms.drop_last());
        lemma_insert_sorted_props(ms.last(), sort_by_generated(ms.drop_last()));
    }
}

/// Where the stable insertion lands: given the position `p` whose left
/// neighbour (if any) is at or below `m` and whose own element (if any) is
/// strictly above `m`, inserting is placing `m` at index `p`.
pub proof fn lemma_insert_sorted_at(m: MappingModel, t: Seq<MappingModel>, p: int)
    requires
        sorted_by_generated(t),
        0 <= p <= t.len(),
        p == 0 || key_le(t[p - 1], m),
        p == t.len() || !key_le(t[p], m),
    ensures
        insert_sorted(m, t) == t.insert(p, m),
    decreases t.len(),
{
    if t.len() == 0 {
        assert(insert_sorted(m, t) =~= t.insert(0, m));
    } else if key_le(t.last(), m) {
        assert(p == t.len()) by {
            if p < t.len() {
                assert(key_le(t[p], t[t.len() - 1]) || p == t.len() - 1);
            }
        }
        assert(t.push(m) =~= t.insert(p, m));
    } else {
        assert(p < t.len());
        assert(sorted_by_generated(t.drop_last())) by {
            assert(forall|a: int, b: int|
                0 <= a < b < t.len() - 1 ==> key_le(
                    #[trigger] t.drop_last()[a],
                    #[trigger] t.drop_last()[b],
                ));
        }
        assert(p < t.len() ==> !key_le(t[p], m));
        assert(p == t.len() - 1 || !key_le(t.drop_last()[p], m));
        lemma_insert_sorted_at(m, t.drop_last(), p);
        assert(insert_sorted(m, t.drop_last()).push(t.last()) =~= t.insert(p, m)) by {
            assert(insert_sorted(m, t.drop_last()) == t.drop_last().insert(p, m));
            broadcast use vstd::seq_lib::group_seq_properties;
        }
    }
}

/// Only the generated-column accumulator resets at a line boundary: the
/// source, original-line, original-column and name accumulators cross a `;`
/// unchanged, and the generated line advances by one.
pub proof fn lemma_line_boundary_keeps_original_state(st: DecodeState)
    ensures
        advance_line(st).prev_source == st.prev_source,
        advance_line(st).prev_original_line == st.prev_original_line,
        advance_line(st).prev_original_column == st.prev_original_column,
        advance_line(st).prev_name == st.prev_name,
        advance_line(st).prev_generated_column == 0,
        advance_line(st).generated_line == vstd::wrapping::u32_specs::wrapping_add(
            st.generated_line,
            1,
        ),
{
}

/// A segment that omits the original-side fields leaves every original-side
/// accumulator untouched: a later segment's deltas resolve against the last
/// segment that did carry those fields, wherever line boundaries fall in
/// between.
pub proof fn lemma_short_segment_keeps_original_state(
    st: DecodeState,
    fields: Seq<i32>,
    sources: Seq<Seq<char>>,
    names: Seq<Seq<char>>,
)
    requires
        fields.len() <= 1,
    ensures
        apply_fields(st, fields, sources, names) matches Ok((st2, _)) && st2.prev_source
            == st.prev_source && st2.prev_original_line == st.prev_original_line
            && st2.prev_original_column == st.prev_original_column && st2.prev_name == st.prev_name
            && st2.generated_line == st.generated_line,
{
}

/// The mathematical content of a sequence of mappings.
pub open spec fn mapping_models(v: Seq<Mapping>) -> Seq<MappingModel> {
    Seq::new(v.len(), |i: int| v[i]@)
}

/**
 * parse_mappings decodes a source map document into a `Cache` that can be
 * queried for mappings.
 *
 * According to the [source map spec][source-map-spec], source maps have the
 * following attributes:
 *
 *   - version: Which version of the source map spec this map is following.
 *   - sources: An array of URLs to the original source files.
 *   - names: An array of identifiers which can be referenced by individual mappings.
 *   - sourceRoot: Optional. The URL root from which all sources are relative.
 *   - sourcesContent: Optional. An array of contents of the original source files.
 *   - mappings: A string of base64 VLQs which contain the actual mappings.
 *   - file: Optional. The generated file this source map is associated with.
 *
 * [source-map-spec]: https://docs.google.com/document/d/1U1RGAehQwRypUTovF1KRlpiOFze0b-_2gc6fAH0KY0k/edit?pli=1#
 */
pub fn parse_mappings(source_map: &SourceMap) -> (r: Result<Cache, ParseError>)
    ensures
        match decode_mappings_spec(source_map@) {
            Ok(decoded) => r matches Ok(cache) && cache@.mappings == sort_by_generated(decoded)
                && cache@.source_root == source_root_chars(source_map@) && cache.wf(),
            Err(e) => r matches Err(actual) && actual == e,
        },
{
    if source_map.version != SOURCE_MAP_VERSION {
        return Err(ParseError::UnsupportedVersion);
    }
    let ghost doc = source_map@;
    let ghost sv = doc.mappings;
    let ghost srcs = doc.sources;
    let ghost nms = doc.names;
    let ghost full = parse_at(sv, 0, initial_state(), Seq::empty(), srcs, nms);

    let sources_length: u32 = #[verifier::truncate] (source_map.sources.len() as u32);
    let names_length: u32 = #[verifier::truncate] (source_map.names.len() as u32);
    proof {
        lemma_table_len(source_map.sources.len());
        lemma_table_len(source_map.names.len());
    }

    let n = source_map.mappings.len();
    let mut generated_mappings: Vec<Mapping> = Vec::new();
    let mut st = DecodeState {
        generated_line: 1,
        prev_generated_column: 0,
        prev_source: 0,
        prev_original_line: 0,
        prev_original_column: 0,
        prev_name: 0,
    };
    let mut i: usize = 0;
    proof {
        assert(mapping_models(generated_mappings@) =~= Seq::<MappingModel>::empty());
    }

    loop
        invariant_except_break
            i <= n,
            n == sv.len(),
            doc == source_map@,
            doc.version == SOURCE_MAP_VERSION,
            sv == doc.mappings,
            srcs == doc.sources,
            nms == doc.names,
            full == parse_at(sv, 0, initial_state(), Seq::empty(), srcs, nms),
            sources_length == table_len(srcs.len()),
            names_length == table_len(nms.len()),
            parse_at(sv, i as int, st, mapping_models(generated_mappings@), srcs, nms) == full,
        ensures
            mapping_models(generated_mappings@).len() == 0 ==> full == Err::<
                Seq<MappingModel>,
                ParseError,
            >(ParseError::NoMappings),
            mapping_models(generated_mappings@).len() > 0 ==> full == Ok::<
                Seq<MappingModel>,
                ParseError,
            >(mapping_models(generated_mappings@)),
        decreases n - i,
    {
        let ghost seg_start = i as int;
        let ghost st0 = st;
        let ghost acc0 = mapping_models(generated_mappings@);
        let mut fields: Vec<i32> = Vec::new();

        loop
            invariant_except_break
                0 <= seg_start <= i as int <= n,
                n == sv.len(),
                doc == source_map@,
                doc.version == SOURCE_MAP_VERSION,
                sv == doc.mappings,
                srcs == doc.sources,
                nms == doc.names,
                full == parse_at(sv, 0, initial_state(), Seq::empty(), srcs, nms),
                parse_at(sv, seg_start, st0, acc0, srcs, nms) == full,
                fields_at(sv, seg_start) == fields_prepend(fields@, fields_at(sv, i as int)),
            ensures
                0 <= seg_start <= i as int <= n,
                i as int == n || is_separator(sv[i as int]),
                fields_at(sv, seg_start) == Some((fields@, i as int)),
            decreases n - i,
        {
            let at_end = i == n;
            let mut stop = at_end;
            if !at_end {
                let c = source_map.mappings[i];
                if c == 59 || c == 44 {
                    stop = true;
                }
            }
            if stop {
                proof {
                    assert(fields_at(sv, i as int) == Some((Seq::<i32>::empty(), i as int)));
                    assert(fields@ + Seq::<i32>::empty() =~= fields@);
                }
                break ;
            }
            let rest = vstd::slice::slice_subrange(source_map.mappings.as_slice(), i, n);
            proof {
                assert(rest@ =~= sv.skip(i as int));
            }
            match base64_vlq::decode(rest) {
                None => {
                    proof {
                        assert(fields_at(sv, i as int) is None);
                        assert(fields_at(sv, seg_start) is None);
                        assert(parse_at(sv, seg_start, st0, acc0, srcs, nms) == Err::<
                            Seq<MappingModel>,
                            ParseError,
                        >(ParseError::InvalidVlqField));
                    }
                    return Err(ParseError::InvalidVlqField);
                },
                Some((value, consumed)) => {
                    proof {
                        base64_vlq::lemma_vlq_digits_bounds(sv.skip(i as int));
                        let after = fields_at(sv, i as int + consumed as int);
                        assert(fields_at(sv, i as int) == fields_prepend(seq![value], after));
                        match after {
                            None => {},
                            Some((fs, j)) => {
                                assert(fields@ + (seq![value] + fs) =~= fields@.push(value) + fs);
                            },
                        }
                    }
                    fields.push(value);
                    i = i + consumed;
                },
            }
        }

        // One whole segment is decoded; apply its fields exactly as
        // `apply_fields` lays down.
        let ghost fseq = fields@;
        let ghost applied = apply_fields(st0, fseq, srcs, nms);
        let flen = fields.len();
        if flen == 2 {
            return Err(ParseError::SourceButNoLineColumn);
        }
        if flen == 3 {
            return Err(ParseError::SourceLineButNoColumn);
        }
        if flen >= 1 {
            let generated_column = st.prev_generated_column.wrapping_add_signed(fields[0]);
            st.prev_generated_column = generated_column;
            let mut mapping = Mapping {
                generated: CodePosition { line: st.generated_line, column: generated_column },
                original: CodePosition { line: 0, column: 0 },
                source: String::new(),
                name: String::new(),
            };
            if flen > 1 {
                // Original source.
                let source_index = st.prev_source.wrapping_add_signed(fields[1]);
                st.prev_source = source_index;
                if source_index >= sources_length {
                    return Err(
                        ParseError::SourceIndexOutOfRange {
                            index: source_index,
                            length: sources_length,
                        },
                    );
                }
                proof {
                    vstd::arithmetic::div_mod::lemma_mod_decreases(
                        source_map.sources@.len(),
                        0x1_0000_0000,
                    );
                }
                mapping.source = source_map.sources[source_index as usize].clone();

                // Original line, stored 0-based in the delta stream.
                let original_line = st.prev_original_line.wrapping_add_signed(fields[2]);
                st.prev_original_line = original_line;
                mapping.original.line = original_line.wrapping_add(1);

                // Original column.
                let original_column = st.prev_original_column.wrapping_add_signed(fields[3]);
                st.prev_original_column = original_column;
                mapping.original.column = original_column;

                if flen > 4 {
                    // Original name.
                    let name_index = st.prev_name.wrapping_add_signed(fields[4]);
                    st.prev_name = name_index;
                    if name_index >= names_length {
                        return Err(
                            ParseError::NameIndexOutOfRange {
                                index: name_index,
                                length: names_length,
                            },
                        );
                    }
                    proof {
                        vstd::arithmetic::div_mod::lemma_mod_decreases(
                            source_map.names@.len(),
                            0x1_0000_0000,
                        );
                    }
                    mapping.name = match &source_map.names[name_index as usize] {
                        NameValue::Str(text) => text.clone(),
                        NameValue::Int(value) => decimal::i64_dec_string(*value),
                        NameValue::UInt(value) => decimal::u64_dec_string(*value),
                    };
                }
            }
            proof {
                assert(applied matches Ok((st2, decoded)) && st2 == st && decoded == Some(
                    mapping@,
                ));
            }
            generated_mappings.push(mapping);
            proof {
                assert(mapping_models(generated_mappings@) =~= acc0.push(mapping@));
            }
        } else {
            proof {
                assert(applied == Ok::<_, ParseError>((st0, None::<MappingModel>)));
            }
        }

        let ghost acc2 = mapping_models(generated_mappings@);
        if i == n {
            break ;
        }
        let c = source_map.mappings[i];
        let ghost st2 = st;
        if c == 59 {
            st.generated_line = st.generated_line.wrapping_add(1);
            st.prev_generated_column = 0;
            proof {
                assert(st == advance_line(st2));
            }
        }
        i = i + 1;
    }

    if generated_mappings.len() < 1 {
        return Err(ParseError::NoMappings);
    }
    let ghost decoded = mapping_models(generated_mappings@);
    sort_mappings(&mut generated_mappings);
    proof {
        lemma_sort_props(decoded);
    }
    let source_root: String = match &source_map.source_root {
        Some(x) => x.clone(),
        None => String::new(),
    };
    Ok(Cache { generated_mappings, source_root })
}

/// Sorts mappings stably by generated position: an insertion sort whose
/// result equals the specification sort.
fn sort_mappings(v: &mut Vec<Mapping>)
    ensures
        mapping_models(final(v)@) == sort_by_generated(mapping_models(old(v)@)),
{
    let ghost orig = old(v)@;
    if v.len() <= 1 {
        proof {
            if orig.len() == 0 {
                assert(mapping_models(orig) =~= Seq::<MappingModel>::empty());
                assert(sort_by_generated(mapping_models(orig)) =~= mapping_models(orig));
            } else {
                let ms = mapping_models(orig);
                assert(ms.drop_last() =~= Seq::<MappingModel>::empty());
                assert(sort_by_generated(Seq::<MappingModel>::empty())
                    == Seq::<MappingModel>::empty());
                assert(insert_sorted(ms.last(), Seq::empty()) =~= seq![ms.last()]);
                assert(sort_by_generated(ms) =~= ms);
            }
        }
        return ;
    }
    proof {
        let one = mapping_models(orig.take(1));
        assert(one.drop_last() =~= Seq::<MappingModel>::empty());
        assert(sort_by_generated(Seq::<MappingModel>::empty()) == Seq::<MappingModel>::empty());
        assert(insert_sorted(one.last(), Seq::empty()) =~= seq![one.last()]);
        assert(one =~= seq![one.last()]);
        assert(mapping_models(v@.take(1)) == sort_by_generated(mapping_models(orig.take(1))));
    }
    let mut idx: usize = 1;
    while idx < v.len()
        invariant
            1 <= idx <= v@.len(),
            v@.len() == orig.len(),
            v@.skip(idx as int) == orig.skip(idx as int),
            mapping_models(v@.take(idx as int)) == sort_by_generated(
                mapping_models(orig.take(idx as int)),
            ),
        decreases v@.len() - idx,
    {
        let ghost t = mapping_models(v@.take(idx as int));
        proof {
            lemma_sort_props(mapping_models(orig.take(idx as int)));
        }
        let line = v[idx].generated.line;
        let column = v[idx].generated.column;
        let ghost moved = v@[idx as int]@;
        let mut p: usize = idx;
        loop
            invariant_except_break
                0 <= p <= idx < v@.len(),
                t == mapping_models(v@.take(idx as int)),
                moved == v@[idx as int]@,
                line == moved.generated.line,
                column == moved.generated.column,
                p == idx || !key_le(t[p as int], moved),
            ensures
                0 <= p <= idx < v@.len(),
                p == idx || !key_le(t[p as int], moved),
                p == 0 || key_le(t[p as int - 1], moved),
            decreases p,
        {
            if p == 0 {
                break ;
            }
            let prev = &v[p - 1];
            proof {
                assert(t[p as int - 1] == v@[p as int - 1]@);
            }
            if !(prev.generated.line > line || (prev.generated.line == line
                && prev.generated.column > column)) {
                break ;
            }
            p = p - 1;
        }
        proof {
            lemma_insert_sorted_at(moved, t, p as int);
        }
        let ghost v_before = v@;
        let m = v.remove(idx);
        v.insert(p, m);
        proof {
            assert(mapping_models(v@.take(idx as int + 1)) =~= t.insert(p as int, moved)) by {
                assert(forall|k: int|
                    0 <= k < p ==> v@[k] == #[trigger] v_before[k] && t.insert(p as int, moved)[k]
                        == t[k]);
                assert(v@[p as int] == v_before[idx as int]);
                assert(forall|k: int|
                    p < k <= idx ==> v@[k] == #[trigger] v_before[k - 1] && t.insert(
                        p as int,
                        moved,
                    )[k] == t[k - 1]);
            }
            assert(v@.skip(idx as int + 1) =~= orig.skip(idx as int + 1)) by {
                assert forall|k: int| idx + 1 <= k < v@.len() implies v@[k] == #[trigger] orig[k] by {
                    assert(v@[k] == v_before.remove(idx as int).insert(p as int, m)[k]);
                    assert(v_before.remove(idx as int)[k - 1] == v_before[k]);
                    assert(v_before.skip(idx as int)[k - idx] == orig.skip(idx as int)[k - idx]);
                }
            }
            let big = mapping_models(orig.take(idx as int + 1));
            assert(big.drop_last() =~= mapping_models(orig.take(idx as int)));
            assert(big.last() == moved) by {
                assert(v_before.skip(idx as int)[0] == orig.skip(idx as int)[0]);
            }
            assert(sort_by_generated(big) == insert_sorted(moved, sort_by_generated(
                big.drop_last(),
            )));
        }
        idx = idx + 1;
    }
    proof {
        assert(v@.take(v@.len() as int) =~= v@);
        assert(orig.take(orig.len() as int) =~= orig);
    }
}

#[derive(Debug)]
pub struct Cache {
    generated_mappings: Vec<Mapping>,
    /** The path prefix of mapping source paths */
    pub source_root: String,
}

/// The mathematical content of a `Cache`.
pub ghost struct CacheModel {
    pub mappings: Seq<MappingModel>,
    pub source_root: Seq<char>,
}

impl View for Cache {
    type V = CacheModel;

    closed spec fn view(&self) -> CacheModel {
        CacheModel {
            mappings: mapping_models(self.generated_mappings@),
            source_root: self.source_root@,
        }
    }
}

/// Whether a mapping's generated position is at or after the queried one.
pub open spec fn at_or_after(m: MappingModel, line: u32, column: u32) -> bool {
    m.generated.line > line || (m.generated.line == line && m.generated.column >= column)
}

/// The least index whose mapping lies at or after the queried position, or
/// the length when none does.
pub open spec fn lower_bound(ms: Seq<MappingModel>, line: u32, column: u32) -> int
    decreases ms.len(),
{
    if ms.len() == 0 {
        0
    } else if at_or_after(ms[0], line, column) {
        0
    } else {
        1 + lower_bound(ms.drop_first(), line, column)
    }
}

/// What a point query returns: the mapping at the least-upper-bound
/// insertion point, clamped to the last mapping when the query lies past
/// every generated position.
pub open spec fn lookup_spec(ms: Seq<MappingModel>, line: u32, column: u32) -> MappingModel {
    let i = lower_bound(ms, line, column);
    ms[if i >= ms.len() { ms.len() - 1 } else { i }]
}

/// The characterization of `lower_bound`: everything before it is strictly
/// before the query, and its own element (when it exists) is not.
pub proof fn lemma_lower_bound_props(ms: Seq<MappingModel>, line: u32, column: u32)
    ensures
        0 <= lower_bound(ms, line, column) <= ms.len(),
        forall|j: int| 0 <= j < lower_bound(ms, line, column) ==> !at_or_after(ms[j], line, column),
        lower_bound(ms, line, column) < ms.len() ==> at_or_after(
            ms[lower_bound(ms, line, column)],
            line,
            column,
        ),
    decreases ms.len(),
{
    if ms.len() == 0 {
    } else if at_or_after(ms[0], line, column) {
    } else {
        lemma_lower_bound_props(ms.drop_first(), line, column);
        let lb = lower_bound(ms, line, column);
        assert forall|j: int| 0 <= j < lb implies !at_or_after(ms[j], line, column) by {
            if j > 0 {
                assert(ms.drop_first()[j - 1] == ms[j]);
            }
        }
        if lb < ms.len() {
            assert(ms.drop_first()[lb - 1] == ms[lb]);
        }
    }
}

impl Cache {
    /// A well-formed cache: its mappings are sorted by generated position
    /// and there is at least one of them.
    pub open spec fn wf(&self) -> bool {
        sorted_by_generated(self@.mappings) && self@.mappings.len() >= 1
    }

    /**
     * Returns the original source, line, column and name information for the generated
     * source's line and column positions provided.
     *
     * # Arguments
     *
     * * line: The line number in the generated source.
     * * column: The column number in the generated source.
     */
    pub fn mapping_for_generated_position(&self, line: u32, column: u32) -> (r: Mapping)
        requires
            self.wf(),
        ensures
            r@ == lookup_spec(self@.mappings, line, column),
    {
        let ghost ms = self@.mappings;
        let len = self.generated_mappings.len();
        let mut lo: usize = 0;
        let mut hi: usize = len;
        while lo < hi
            invariant
                0 <= lo <= hi <= len,
                len == ms.len(),
                ms == self@.mappings,
                self.wf(),
                forall|j: int| 0 <= j < lo ==> !at_or_after(ms[j], line, column),
                forall|j: int| hi <= j < len ==> at_or_after(ms[j], line, column),
            decreases hi - lo,
        {
            let mid = lo + (hi - lo) / 2;
            let m = &self.generated_mappings[mid];
            let before = m.generated.line < line || (m.generated.line == line
                && m.generated.column < column);
            if before {
                proof {
                    assert forall|j: int| 0 <= j <= mid implies !at_or_after(
                        ms[j],
                        line,
                        column,
                    ) by {
                        if j < mid {
                            assert(key_le(ms[j], ms[mid as int]));
                        }
                    }
                }
                lo = mid + 1;
            } else {
                proof {
                    assert forall|j: int| mid <= j < len implies at_or_after(
                        ms[j],
                        line,
                        column,
                    ) by {
                        if j > mid {
                            assert(key_le(ms[mid as int], ms[j]));
                        }
                    }
                }
                hi = mid;
            }
        }
        proof {
            lemma_lower_bound_props(ms, line, column);
            let lb = lower_bound(ms, line, column);
            assert(lo == lb) by {
                if lb < lo {
                    assert(!at_or_after(ms[lb], line, column));
                }
                if lo < lb {
                    assert(!at_or_after(ms[lo as int], line, column));
                }
            }
        }
        let index = if lo >= len {
            len - 1
        } else {
            lo
        };
        let m = &self.generated_mappings[index];
        Mapping {
            generated: m.generated,
            original: m.original,
            source: m.source.clone(),
            name: m.name.clone(),
        }
    }
}

} // verus!
