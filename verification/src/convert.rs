//! Conversion of a dictionary with a YADA trie to one with a MARISA trie.
//!
//! A dictionary is a header of 272 bytes, the grammar section where its version has one, and the
//! lexicon: the trie, the table of word numbers, the parameters of the words, and the information
//! on the words. A conversion keeps the header, the parts of speech and the table of word numbers,
//! and replaces the other parts.

use crate::bytes::{
    i16_at, law_le16_reads_back, law_le32_reads_back, law_le32s_read_back, le16, le32, le32s,
    lemma_le32s_len, lemma_u32_within, push_bytes, push_i16, read_u32_le, read_u64_le, u16_at,
    u32_at, u64_at,
};
use crate::grammar::{
    check_grammar, grammar_valid, has_grammar, has_synonym_group_ids, lemma_strings_end_after,
    matrix_end, matrix_start, num_left, num_right, parse_grammar, with_grammar, with_synonyms,
};
use crate::marisa::{
    build_marisa_section, entry_keys, entry_views, is_marisa_section, is_section_with, keys_fit,
    lemma_section_answers, lemma_section_keys, section_answers, section_spans, trie_ids,
};
use crate::matrix::{
    apply_matrix_patches, are_blocks, bitpack_connection_matrix, bitpacked, block_rows, cell_place,
    hitting, law_patched_outside, lemma_cell_in_buffer, lemma_hits_few, matrix_blocks, matrix_fits,
    patch_hits, patched, MatrixBlock, PackedBlock,
};
use crate::order::{byte_views, lemma_lex_irreflexive, lex_lt};
use crate::reading::{
    answers_for_words, build_reading_keyed_sections, build_reading_trie_section, id_places,
    id_table, is_reading_trie, law_keyed_sections_of_words, lemma_word_found, readable,
    reading_answers, readings_fit, same_before, with_hiragana, word_views, Word,
};
use crate::table::{concat, lemma_sized_within, sized};
use crate::word_info::{
    are_record_pieces, piece_views, plan_word_infos, records_valid, vbyte_encode_word_infos,
    word_infos_bytes, Piece,
};
use crate::yada::{
    check_yada, extract_yada_entries, finite_trie, law_listing_exists, lookup, parse_yada_array,
    root, yada_entries, yada_fits, yada_units,
};
use rsmarisa::Trie;
use std::collections::HashMap;
use vstd::prelude::*;
use vstd::slice::{slice_subrange, slice_to_vec};

verus! {

broadcast use vstd::std_specs::hash::group_hash_axioms;

/// The size of the header.
pub const HEADER_SIZE: usize = 272;

/// The version of a dictionary.
pub open spec fn version_of(buf: Seq<u8>) -> u64 {
    u64_at(buf, 0) as u64
}

/// Whether a dictionary has a grammar section.
pub open spec fn is_grammatical(buf: Seq<u8>) -> bool {
    with_grammar(version_of(buf))
}

/// The dictionary with its matrix patched.
pub open spec fn source(buf: Seq<u8>, patches: Option<Map<u32, i16>>) -> Seq<u8> {
    if is_grammatical(buf) && patches is Some {
        patched(
            buf,
            matrix_start(buf, 272),
            num_left(buf, 272),
            num_right(buf, 272),
            patches->0,
        )
    } else {
        buf
    }
}

/// Where the part of a dictionary ends that is kept at its start.
pub open spec fn head_end(buf: Seq<u8>) -> int {
    if is_grammatical(buf) {
        matrix_start(buf, 272)
    } else {
        272
    }
}

/// Where the lexicon starts.
pub open spec fn lexicon_start(buf: Seq<u8>) -> int {
    if is_grammatical(buf) {
        matrix_end(buf, 272)
    } else {
        272
    }
}

/// Where the table of word numbers starts in a lexicon that starts at `lexicon`.
pub open spec fn ids_start(source: Seq<u8>, lexicon: int) -> int {
    lexicon + 4 + 4 * u32_at(source, lexicon)
}

/// Where the parameters of the words start.
pub open spec fn params_start(source: Seq<u8>, lexicon: int) -> int {
    ids_start(source, lexicon) + 4 + u32_at(source, ids_start(source, lexicon))
}

/// The number of words of a lexicon.
pub open spec fn word_count(source: Seq<u8>, lexicon: int) -> int {
    u32_at(source, params_start(source, lexicon))
}

/// Where the information on the words starts.
pub open spec fn infos_start(source: Seq<u8>, lexicon: int) -> int {
    params_start(source, lexicon) + 4 + 6 * word_count(source, lexicon)
}

/// Whether the grammar section of a dictionary can be converted: it can be read, and the matrix is
/// in the dictionary and can be cut into blocks.
pub open spec fn grammar_convertible(buf: Seq<u8>) -> bool {
    &&& grammar_valid(buf, 272)
    &&& matrix_fits(
        buf.len() as int,
        matrix_start(buf, 272),
        num_left(buf, 272),
        num_right(buf, 272),
    )
    &&& num_left(buf, 272) + 255 <= usize::MAX
    &&& num_right(buf, 272) + 255 <= usize::MAX
}

/// Whether a lexicon can be converted: its parts are in the dictionary, the paths of its trie come
/// to an end, and each word has its information.
pub open spec fn lexicon_convertible(source: Seq<u8>, lexicon: int, synonyms: bool) -> bool {
    &&& yada_fits(source, lexicon)
    &&& finite_trie(yada_units(source, lexicon))
    &&& ids_start(source, lexicon) + 4 <= source.len()
    &&& params_start(source, lexicon) + 4 <= source.len()
    &&& infos_start(source, lexicon) <= source.len()
    &&& records_valid(
        source,
        infos_start(source, lexicon),
        word_count(source, lexicon),
        synonyms,
    )
}

/// Whether a dictionary can be converted.
pub open spec fn convertible(buf: Seq<u8>, patches: Option<Map<u32, i16>>) -> bool {
    &&& is_grammatical(buf) ==> grammar_convertible(buf)
    &&& lexicon_convertible(
        source(buf, patches),
        lexicon_start(buf),
        with_synonyms(version_of(buf)),
    )
}

/// The byte at `i` of the parameters of words, some of which have another cost.
pub open spec fn param_byte(source: Seq<u8>, start: int, costs: Map<u32, i16>, i: int) -> u8 {
    let word = ((i - 4) / 6) as u32;
    let at = (i - 4) % 6;
    if i >= 4 && at >= 4 && costs.contains_key(word) {
        le16(costs[word] as int)[at - 4]
    } else {
        source[start + i]
    }
}

/// The parameters of words: their number, and for each its left number, its right number and its
/// cost, which may be another one.
pub open spec fn adjusted_params(
    source: Seq<u8>,
    start: int,
    n: int,
    costs: Option<Map<u32, i16>>,
) -> Seq<u8> {
    match costs {
        None => source.subrange(start, start + 4 + 6 * n),
        Some(costs) => Seq::new(
            (4 + 6 * n) as nat,
            |i: int| param_byte(source, start, costs, i),
        ),
    }
}

/// How many of the first `n` words have another cost.
pub open spec fn adjusted_count(costs: Map<u32, i16>, n: nat) -> nat
    decreases n,
{
    if n == 0 {
        0
    } else {
        adjusted_count(costs, (n - 1) as nat) + if costs.contains_key((n - 1) as u32) {
            1nat
        } else {
            0
        }
    }
}

/// The matrix of a dictionary, cut into blocks, and how many patches were applied to it.
pub struct MatrixPlan {
    pub num_left: usize,
    pub num_right: usize,
    pub applied: u32,
    pub blocks: Vec<MatrixBlock>,
}

/// Why a dictionary cannot be converted: it is smaller than a header, or its parts are not what
/// they should be.
#[derive(Clone, Copy, Debug, PartialEq, Eq, Structural)]
pub enum ConvertError {
    TooSmall,
    Malformed,
}

/// A map that may be missing, by content.
pub open spec fn maybe_map(map: Option<HashMap<u32, i16>>) -> Option<Map<u32, i16>> {
    match map {
        Some(map) => Some(map@),
        None => None,
    }
}

/// Whether `matrix` is the matrix of a dictionary.
pub open spec fn is_matrix_plan(
    buf: Seq<u8>,
    patches: Option<Map<u32, i16>>,
    matrix: MatrixPlan,
) -> bool {
    &&& matrix.num_left == num_left(buf, 272)
    &&& matrix.num_right == num_right(buf, 272)
    &&& matrix.applied == match patches {
        Some(patches) => hitting(patches, num_left(buf, 272), num_right(buf, 272)).len(),
        None => 0,
    }
    &&& are_blocks(
        source(buf, patches),
        matrix_start(buf, 272),
        num_left(buf, 272),
        num_right(buf, 272),
        matrix.blocks@,
    )
}

/// The parts of a converted lexicon, its trie as a list of keys with values.
pub struct LexiconPlan {
    pub trie_units: usize,
    pub entries: Vec<(Vec<u8>, u32)>,
    pub word_ids: Vec<u8>,
    pub word_params: Vec<u8>,
    pub adjusted: u32,
    pub records: Vec<Vec<Piece>>,
}

/// Whether `plan` has the parts of a converted lexicon.
pub open spec fn is_lexicon_plan(
    source: Seq<u8>,
    lexicon: int,
    synonyms: bool,
    costs: Option<Map<u32, i16>>,
    plan: LexiconPlan,
) -> bool {
    let units = yada_units(source, lexicon);
    let n = word_count(source, lexicon);
    &&& plan.trie_units == units.len()
    &&& entry_views(plan.entries@) == yada_entries(units)
    &&& plan.word_ids@ == source.subrange(ids_start(source, lexicon), params_start(source, lexicon))
    &&& plan.word_params@ == adjusted_params(source, params_start(source, lexicon), n, costs)
    &&& plan.adjusted == match costs {
        Some(costs) => adjusted_count(costs, n as nat),
        None => 0,
    }
    &&& plan.records@.len() == n
    &&& forall|i: int|
        0 <= i < n ==> are_record_pieces(
            source,
            infos_start(source, lexicon),
            n,
            synonyms,
            i,
            piece_views((#[trigger] plan.records@[i])@),
        )
}

/// The parameters of words with other costs, and how many have one.
fn adjust_params(buf: &[u8], start: usize, n: usize, costs: &HashMap<u32, i16>) -> (r: (
    Vec<u8>,
    u32,
))
    requires
        n <= u32::MAX,
        start + 4 + 6 * n <= buf.len(),
    ensures
        r.0@ == adjusted_params(buf@, start as int, n as int, Some(costs@)),
        r.1 == adjusted_count(costs@, n as nat),
{
    let ghost wanted = adjusted_params(buf@, start as int, n as int, Some(costs@));
    let mut out: Vec<u8> = Vec::new();
    push_bytes(&mut out, slice_subrange(buf, start, start + 4));
    assert(out@ =~= wanted.take(4));
    let mut adjusted: u32 = 0;
    let mut i: usize = 0;
    while i < n
        invariant
            i <= n <= u32::MAX,
            start + 4 + 6 * n <= buf.len(),
            wanted == adjusted_params(buf@, start as int, n as int, Some(costs@)),
            out@ == wanted.take(4 + 6 * i),
            adjusted == adjusted_count(costs@, i as nat),
            adjusted <= i,
        decreases n - i,
    {
        let at: usize = start + 4 + 6 * i;
        let word: u32 = i as u32;
        let ghost before = out@;
        push_bytes(&mut out, slice_subrange(buf, at, at + 4));
        match costs.get(&word) {
            Some(cost) => {
                push_i16(&mut out, *cost);
                adjusted = adjusted + 1;
            },
            None => {
                push_bytes(&mut out, slice_subrange(buf, at + 4, at + 6));
            },
        }
        proof {
            let base = 4 + 6 * i;
            assert forall|k: int| 0 <= k < 6 implies #[trigger] out@[base + k] == wanted[base
                + k] by {
                assert((base + k - 4) / 6 == i && (base + k - 4) % 6 == k);
            }
            assert forall|k: int| 0 <= k < base + 6 implies #[trigger] out@[k] == wanted[k] by {
                if k < base {
                    assert(before[k] == wanted[k]);
                } else {
                    assert(out@[base + (k - base)] == wanted[base + (k - base)]);
                }
            }
            assert(out@ =~= wanted.take(4 + 6 * (i + 1)));
        }
        i = i + 1;
    }
    assert(wanted.take(4 + 6 * n) =~= wanted);
    (out, adjusted)
}

/// Plans the conversion of a lexicon, if it can be converted.
fn plan_lexicon(
    buf: &[u8],
    lexicon: usize,
    synonyms: bool,
    costs: &Option<HashMap<u32, i16>>,
) -> (r: Option<LexiconPlan>)
    ensures
        r is Some <==> lexicon_convertible(buf@, lexicon as int, synonyms),
        r matches Some(plan) ==> is_lexicon_plan(
            buf@,
            lexicon as int,
            synonyms,
            maybe_map(*costs),
            plan,
        ),
{
    if lexicon > buf.len() || buf.len() - lexicon < 4 {
        return None;
    }
    let size: usize = read_u32_le(buf, lexicon) as usize;
    if size > (buf.len() - lexicon - 4) / 4 {
        return None;
    }
    assert(yada_fits(buf@, lexicon as int));
    let (units, ids_at) = parse_yada_array(buf, lexicon);
    if !check_yada(units.as_slice()) {
        return None;
    }
    let entries: Vec<(Vec<u8>, u32)> = extract_yada_entries(units.as_slice());
    if buf.len() - ids_at < 4 {
        return None;
    }
    let ids_size: usize = read_u32_le(buf, ids_at) as usize;
    if ids_size > buf.len() - ids_at - 4 {
        return None;
    }
    let params_at: usize = ids_at + 4 + ids_size;
    if buf.len() - params_at < 4 {
        return None;
    }
    let words: usize = read_u32_le(buf, params_at) as usize;
    if words > (buf.len() - params_at - 4) / 6 {
        return None;
    }
    let infos_at: usize = params_at + 4 + 6 * words;
    let records: Vec<Vec<Piece>> = match plan_word_infos(buf, infos_at, words, synonyms) {
        None => return None,
        Some(records) => records,
    };
    let (word_params, adjusted) = match costs {
        Some(costs) => adjust_params(buf, params_at, words, costs),
        None => (slice_to_vec(slice_subrange(buf, params_at, infos_at)), 0),
    };
    Some(
        LexiconPlan {
            trie_units: units.len(),
            entries,
            word_ids: slice_to_vec(slice_subrange(buf, ids_at, params_at)),
            word_params,
            adjusted,
            records,
        },
    )
}

/// The parts of a converted dictionary, before the blocks of the matrix, the trie and the
/// information on the words are written: what is kept at its start, the matrix where it has a
/// grammar section, and the lexicon.
pub struct Conversion {
    pub version: u64,
    pub head: Vec<u8>,
    pub matrix: Option<MatrixPlan>,
    pub lexicon: LexiconPlan,
}

/// Whether `conversion` has the parts of a converted dictionary.
pub open spec fn is_conversion(
    buf: Seq<u8>,
    costs: Option<Map<u32, i16>>,
    patches: Option<Map<u32, i16>>,
    conversion: Conversion,
) -> bool {
    &&& conversion.version == version_of(buf)
    &&& conversion.head@ == buf.take(head_end(buf))
    &&& match conversion.matrix {
        Some(matrix) => is_grammatical(buf) && is_matrix_plan(buf, patches, matrix),
        None => !is_grammatical(buf),
    }
    &&& is_lexicon_plan(
        source(buf, patches),
        lexicon_start(buf),
        with_synonyms(version_of(buf)),
        costs,
        conversion.lexicon,
    )
}

/// Whether the grammar section of a dictionary can be converted.
fn check_matrix(buf: &[u8]) -> (r: bool)
    requires
        buf.len() >= 272,
    ensures
        r == grammar_convertible(buf@),
{
    if !check_grammar(buf, HEADER_SIZE) {
        return false;
    }
    let (_, left, right, start, end) = parse_grammar(buf, HEADER_SIZE);
    assert(left * right >= 0) by (nonlinear_arith)
        requires
            left >= 0,
            right >= 0,
    ;
    if left > usize::MAX - 255 || right > usize::MAX - 255 {
        return false;
    }
    end == start || end <= buf.len()
}

/// A matrix that can be converted has few rows, unless it has no columns.
proof fn lemma_few_rows(buf: Seq<u8>)
    requires
        grammar_convertible(buf),
    ensures
        num_left(buf, 272) == 0 || num_right(buf, 272) <= 0x8000,
        0 <= num_left(buf, 272),
        0 <= num_right(buf, 272),
        0 <= matrix_start(buf, 272),
{
    let left = num_left(buf, 272);
    let right = num_right(buf, 272);
    lemma_strings_end_after(buf, 274, (6 * u16_at(buf, 272)) as nat);
    if left > 0 && right > 0x8000 {
        assert(left * right >= right) by (nonlinear_arith)
            requires
                left >= 1,
                right >= 0,
        ;
        assert(right >= usize::MAX - 0x8000);
    }
}

/// Plans the conversion of a dictionary: the matrix is patched, and words get other costs, where
/// that is asked for.
pub fn plan_conversion(
    dictionary: Vec<u8>,
    costs: &Option<HashMap<u32, i16>>,
    patches: &Option<HashMap<u32, i16>>,
) -> (r: Result<Conversion, ConvertError>)
    ensures
        r == Err::<Conversion, ConvertError>(ConvertError::TooSmall) <==> dictionary@.len() < 272,
        r == Err::<Conversion, ConvertError>(ConvertError::Malformed) <==> dictionary@.len() >= 272
            && !convertible(dictionary@, maybe_map(*patches)),
        r matches Ok(conversion) ==> is_conversion(
            dictionary@,
            maybe_map(*costs),
            maybe_map(*patches),
            conversion,
        ),
{
    if dictionary.len() < HEADER_SIZE {
        return Err(ConvertError::TooSmall);
    }
    let ghost unpatched = dictionary@;
    let mut buf: Vec<u8> = dictionary;
    let version: u64 = read_u64_le(buf.as_slice(), 0);
    let synonyms: bool = has_synonym_group_ids(version);
    if !has_grammar(version) {
        let head: Vec<u8> = slice_to_vec(slice_subrange(buf.as_slice(), 0, HEADER_SIZE));
        return match plan_lexicon(buf.as_slice(), HEADER_SIZE, synonyms, costs) {
            None => Err(ConvertError::Malformed),
            Some(lexicon) => Ok(Conversion { version, head, matrix: None, lexicon }),
        };
    }
    if !check_matrix(buf.as_slice()) {
        return Err(ConvertError::Malformed);
    }
    let (_, left, right, start, end) = parse_grammar(buf.as_slice(), HEADER_SIZE);
    let head: Vec<u8> = slice_to_vec(slice_subrange(buf.as_slice(), 0, start));
    proof {
        lemma_few_rows(unpatched);
    }
    let applied: u32 = match patches {
        None => 0,
        Some(patches) => {
            proof {
                lemma_hits_few(patches@, left as int, right as int);
                assert forall|key: u32| #[trigger]
                    patches@.contains_key(key) && patch_hits(key, left as int, right as int) implies
                    cell_place(
                    start as int,
                    left as int,
                    key as int % 0x1_0000,
                    key as int / 0x1_0000,
                ) + 2 <= buf@.len() by {
                    lemma_cell_in_buffer(
                        buf@.len() as int,
                        start as int,
                        left as int,
                        right as int,
                        key as int % 0x1_0000,
                        key as int / 0x1_0000,
                    );
                }
            }
            apply_matrix_patches(buf.as_mut_slice(), start, left, right, patches)
        },
    };
    assert(buf@ == source(unpatched, maybe_map(*patches)));
    let blocks: Vec<MatrixBlock> = matrix_blocks(buf.as_slice(), start, left, right);
    let matrix: MatrixPlan = MatrixPlan { num_left: left, num_right: right, applied, blocks };
    match plan_lexicon(buf.as_slice(), end, synonyms, costs) {
        None => Err(ConvertError::Malformed),
        Some(lexicon) => Ok(Conversion { version, head, matrix: Some(matrix), lexicon }),
    }
}

/// A dictionary, and where in it the lexicon and the parameters of the words start.
pub struct Assembled {
    pub bytes: Vec<u8>,
    pub lexicon_offset: usize,
    pub word_params_offset: usize,
}

/// The packed matrix of a conversion, where it has one.
pub open spec fn matrix_bytes(conversion: Conversion, packed: Seq<PackedBlock>) -> Seq<u8> {
    match conversion.matrix {
        Some(matrix) => bitpacked(
            matrix.num_left as int,
            matrix.num_right as int,
            block_rows(matrix.blocks@, packed),
        ),
        None => Seq::empty(),
    }
}

/// What comes before the lexicon of a converted dictionary.
pub open spec fn before_lexicon(conversion: Conversion, packed: Seq<PackedBlock>) -> Seq<u8> {
    conversion.head@ + matrix_bytes(conversion, packed)
}

/// What comes after the table of word numbers of a converted dictionary.
pub open spec fn after_word_ids(conversion: Conversion, records: Seq<Seq<u8>>) -> Seq<u8> {
    conversion.lexicon.word_params@ + word_infos_bytes(records)
}

/// Whether `bytes` are the converted dictionary, with `section` as the section of its trie.
pub open spec fn is_assembled(
    conversion: Conversion,
    packed: Seq<PackedBlock>,
    records: Seq<Seq<u8>>,
    section: Seq<u8>,
    bytes: Seq<u8>,
) -> bool {
    &&& is_marisa_section(entry_views(conversion.lexicon.entries@), section)
    &&& bytes == before_lexicon(conversion, packed) + (section + conversion.lexicon.word_ids@)
        + after_word_ids(conversion, records)
}

/// Puts a converted dictionary together, from its parts, the packed form of the distances of each
/// block of its matrix, and the information on each of its words in the variable-length form. The
/// keys of its trie have to be such that a MARISA trie can be relied upon to hold them; of more
/// keys nothing is said, although a trie might hold them.
pub fn assemble(
    conversion: &Conversion,
    packed: &Vec<PackedBlock>,
    records: &Vec<Vec<u8>>,
) -> (out: Assembled)
    requires
        conversion.matrix matches Some(matrix) ==> packed@.len() == matrix.blocks@.len() && concat(
            block_rows(matrix.blocks@, packed@),
        ).len() <= u32::MAX,
        keys_fit(entry_keys(entry_views(conversion.lexicon.entries@))),
        records@.len() == conversion.lexicon.records@.len(),
    ensures
        out.lexicon_offset == before_lexicon(*conversion, packed@).len(),
        exists|section: Seq<u8>| #[trigger]
            is_assembled(*conversion, packed@, byte_views(records@), section, out.bytes@)
                && out.word_params_offset == out.lexicon_offset + section.len()
                + conversion.lexicon.word_ids@.len(),
{
    let mut bytes: Vec<u8> = Vec::new();
    push_bytes(&mut bytes, conversion.head.as_slice());
    if let Some(matrix) = &conversion.matrix {
        let whole: Vec<u8> = bitpack_connection_matrix(
            matrix.num_left,
            matrix.num_right,
            &matrix.blocks,
            packed,
        );
        push_bytes(&mut bytes, whole.as_slice());
    }
    assert(bytes@ =~= before_lexicon(*conversion, packed@));
    let lexicon_offset: usize = bytes.len();
    let section: Vec<u8> = build_marisa_section(&conversion.lexicon.entries);
    push_bytes(&mut bytes, section.as_slice());
    push_bytes(&mut bytes, conversion.lexicon.word_ids.as_slice());
    let word_params_offset: usize = bytes.len();
    push_bytes(&mut bytes, conversion.lexicon.word_params.as_slice());
    let infos: Vec<u8> = vbyte_encode_word_infos(records);
    push_bytes(&mut bytes, infos.as_slice());
    assert(bytes@ =~= before_lexicon(*conversion, packed@) + (section@
        + conversion.lexicon.word_ids@) + after_word_ids(*conversion, byte_views(records@)));
    let out: Assembled = Assembled { bytes, lexicon_offset, word_params_offset };
    assert(is_assembled(*conversion, packed@, byte_views(records@), section@, out.bytes@));
    out
}

/// Whether `bytes` are the dictionary with its trie and its table of word numbers replaced by ones
/// for hiragana readings.
pub open spec fn is_reading_keyed(
    dictionary: Seq<u8>,
    lexicon_offset: int,
    word_params_offset: int,
    items: Seq<(Seq<u8>, u32)>,
    bytes: Seq<u8>,
) -> bool {
    exists|section: Seq<u8>|
        {
            &&& #[trigger] is_marisa_section(id_places(items), section)
            &&& bytes == dictionary.take(lexicon_offset) + section + sized(id_table(items))
                + dictionary.skip(word_params_offset)
        }
}

/// Makes hiragana readings the keys of a dictionary.
pub fn swap_to_readings(
    dictionary: &[u8],
    lexicon_offset: usize,
    word_params_offset: usize,
    words: &Vec<Word>,
) -> (out: Vec<u8>)
    requires
        lexicon_offset <= dictionary.len(),
        word_params_offset <= dictionary.len(),
        readings_fit(readable(with_hiragana(word_views(words@)))),
    ensures
        is_reading_keyed(
            dictionary@,
            lexicon_offset as int,
            word_params_offset as int,
            readable(with_hiragana(word_views(words@))),
            out@,
        ),
{
    let (section, ids) = build_reading_keyed_sections(words);
    let mut out: Vec<u8> = Vec::new();
    push_bytes(&mut out, slice_subrange(dictionary, 0, lexicon_offset));
    push_bytes(&mut out, section.as_slice());
    push_bytes(&mut out, ids.as_slice());
    push_bytes(&mut out, slice_subrange(dictionary, word_params_offset, dictionary.len()));
    assert(dictionary@.subrange(0, lexicon_offset as int) =~= dictionary@.take(
        lexicon_offset as int,
    ));
    assert(dictionary@.subrange(word_params_offset as int, dictionary@.len() as int)
        =~= dictionary@.skip(word_params_offset as int));
    let ghost items = readable(with_hiragana(word_views(words@)));
    assert(is_marisa_section(id_places(items), section@));
    out
}

/// Making readings the keys of a dictionary keeps what comes before the lexicon, and from the
/// parameters of the words on.
pub proof fn law_swap_keeps(
    dictionary: Seq<u8>,
    lexicon_offset: int,
    word_params_offset: int,
    items: Seq<(Seq<u8>, u32)>,
    bytes: Seq<u8>,
)
    requires
        0 <= lexicon_offset <= word_params_offset <= dictionary.len(),
        is_reading_keyed(dictionary, lexicon_offset, word_params_offset, items, bytes),
    ensures
        bytes.take(lexicon_offset) == dictionary.take(lexicon_offset),
        ({
            let kept = dictionary.len() - word_params_offset;
            &&& lexicon_offset + kept <= bytes.len()
            &&& bytes.skip(bytes.len() - kept) == dictionary.skip(word_params_offset)
        }),
{
    let kept = dictionary.len() - word_params_offset;
    assert(bytes.take(lexicon_offset) =~= dictionary.take(lexicon_offset));
    assert(bytes.skip(bytes.len() - kept) =~= dictionary.skip(word_params_offset));
}

/// A dictionary with readings as keys answers which words have a reading: the section at the start
/// of its lexicon leads from the reading to a row of the table after it, and each of the first 255
/// words with the reading is listed there, in their order.
pub proof fn law_reading_keyed_lookup(
    dictionary: Seq<u8>,
    lexicon_offset: int,
    word_params_offset: int,
    items: Seq<(Seq<u8>, u32)>,
    bytes: Seq<u8>,
    i: int,
)
    requires
        0 <= lexicon_offset <= word_params_offset <= dictionary.len(),
        is_reading_keyed(dictionary, lexicon_offset, word_params_offset, items, bytes),
        items.len() <= usize::MAX,
        id_table(items).len() < 0x1_0000_0000,
        0 <= i < items.len(),
        same_before(items, i) < 255,
    ensures
        ({
            let kept = dictionary.len() - word_params_offset;
            let table_at = bytes.len() - kept - id_table(items).len();
            let m = same_before(items, i);
            exists|trie: Trie|
                reading_answers(
                    trie,
                    bytes,
                    lexicon_offset,
                    table_at,
                    items[i].0,
                    m,
                    items[i].1,
                )
        }),
{
    let table = id_table(items);
    let section = choose|section: Seq<u8>|
        {
            &&& #[trigger] is_marisa_section(id_places(items), section)
            &&& bytes == dictionary.take(lexicon_offset) + section + sized(table)
                + dictionary.skip(word_params_offset)
        };
    let table_at = bytes.len() - (dictionary.len() - word_params_offset) - table.len();
    let head = dictionary.take(lexicon_offset);
    lemma_sized_within(head + section, table, dictionary.skip(word_params_offset));
    assert(bytes.subrange(lexicon_offset, lexicon_offset + section.len()) =~= section);
    lemma_word_found(items, bytes, section, lexicon_offset, table_at, i);
}

/// Adds the section that leads from readings to words at the end of a dictionary.
pub fn append_reading_trie(dictionary: &mut Vec<u8>, words: &Vec<Word>)
    requires
        readings_fit(readable(word_views(words@))),
    ensures
        exists|section: Seq<u8>|
            #[trigger] is_reading_trie(readable(word_views(words@)), section)
                && final(dictionary)@ == old(dictionary)@ + section,
{
    let section: Vec<u8> = build_reading_trie_section(words);
    push_bytes(dictionary, section.as_slice());
    assert(is_reading_trie(readable(word_views(words@)), section@));
}

/// Whether a MARISA trie with a section gives each key the value that a YADA trie gives it, and
/// has no other keys.
pub open spec fn answers_alike(units: Seq<u32>, trie: Trie, section: Seq<u8>) -> bool {
    forall|key: Seq<u8>|
        match #[trigger] lookup(units, root(units), key) {
            Some(value) => section_answers(trie, section, key, value),
            None => !trie_ids(trie).contains_key(key),
        }
}

/// A converted trie answers as the trie that it was converted from.
pub proof fn law_converted_trie(units: Seq<u32>, section: Seq<u8>)
    requires
        units.len() > 0,
        finite_trie(units),
        is_marisa_section(yada_entries(units), section),
    ensures
        exists|trie: Trie| answers_alike(units, trie, section),
{
    let entries = yada_entries(units);
    let node = root(units);
    law_listing_exists(units, node);
    reveal(is_marisa_section);
    let trie = choose|trie: Trie| is_section_with(entries, section, trie);
    assert forall|key: Seq<u8>|
        match #[trigger] lookup(units, node, key) {
            Some(value) => section_answers(trie, section, key, value),
            None => !trie_ids(trie).contains_key(key),
        } by {
        match lookup(units, node, key) {
            Some(value) => {
                assert(entries.contains((key, value)));
                let i = choose|i: int| 0 <= i < entries.len() && entries[i] == (key, value);
                assert forall|j: int| i < j < entries.len() implies (#[trigger] entries[j]).0
                    != entries[i].0 by {
                    lemma_lex_irreflexive(entries[i].0);
                    assert(lex_lt(entries[i].0, entries[j].0));
                }
                lemma_section_answers(entries, section, trie, i);
            },
            None => {
                lemma_section_keys(entries, section, trie, key);
                if entry_keys(entries).contains(key) {
                    let i = choose|i: int|
                        0 <= i < entries.len() && entry_keys(entries)[i] == key;
                    assert(lookup(units, node, entries[i].0) == Some(entries[i].1));
                }
            },
        }
    }
    assert(answers_alike(units, trie, section));
}

/// A converted dictionary answers as the dictionary that it was converted from: where its lexicon
/// starts, it holds a MARISA trie that gives each key the value that the YADA trie gives it, and
/// has no other keys.
pub proof fn law_conversion_answers(
    buf: Seq<u8>,
    costs: Option<Map<u32, i16>>,
    patches: Option<Map<u32, i16>>,
    conversion: Conversion,
    packed: Seq<PackedBlock>,
    records: Seq<Seq<u8>>,
    section: Seq<u8>,
    bytes: Seq<u8>,
)
    requires
        convertible(buf, patches),
        is_conversion(buf, costs, patches, conversion),
        is_assembled(conversion, packed, records, section, bytes),
        yada_units(source(buf, patches), lexicon_start(buf)).len() > 0,
    ensures
        ({
            let at = before_lexicon(conversion, packed).len() as int;
            let units = yada_units(source(buf, patches), lexicon_start(buf));
            &&& at + section.len() <= bytes.len()
            &&& bytes.subrange(at, at + section.len()) == section
            &&& exists|trie: Trie| answers_alike(units, trie, section)
        }),
{
    let at = before_lexicon(conversion, packed).len() as int;
    law_converted_trie(yada_units(source(buf, patches), lexicon_start(buf)), section);
    assert(bytes.subrange(at, at + section.len()) =~= section);
}

/// A converted dictionary starts with the header and the parts of speech of the dictionary that it
/// was converted from.
pub proof fn law_head_kept(
    buf: Seq<u8>,
    costs: Option<Map<u32, i16>>,
    patches: Option<Map<u32, i16>>,
    conversion: Conversion,
    packed: Seq<PackedBlock>,
    rest: Seq<u8>,
)
    requires
        272 <= buf.len(),
        is_grammatical(buf) ==> grammar_convertible(buf),
        is_conversion(buf, costs, patches, conversion),
    ensures
        272 <= head_end(buf) <= buf.len(),
        (before_lexicon(conversion, packed) + rest).take(head_end(buf)) == buf.take(
            head_end(buf),
        ),
{
    if is_grammatical(buf) {
        lemma_strings_end_after(buf, 274, (6 * u16_at(buf, 272)) as nat);
    }
    assert((before_lexicon(conversion, packed) + rest).take(head_end(buf)) =~= buf.take(
        head_end(buf),
    ));
}

/// The patches of the matrix touch nothing but the matrix.
pub proof fn law_patches_keep_rest(buf: Seq<u8>, patches: Option<Map<u32, i16>>, i: int)
    requires
        272 <= buf.len(),
        is_grammatical(buf) ==> grammar_convertible(buf),
        0 <= i < buf.len(),
        i < head_end(buf) || lexicon_start(buf) <= i,
    ensures
        source(buf, patches).len() == buf.len(),
        source(buf, patches)[i] == buf[i],
{
    if is_grammatical(buf) && patches is Some {
        lemma_few_rows(buf);
        law_patched_outside(
            buf,
            matrix_start(buf, 272),
            num_left(buf, 272),
            num_right(buf, 272),
            patches->0,
            i,
        );
    }
}

/// Without other costs the parameters of the words are kept; with them, a word that has one gets
/// it, and keeps its left and right numbers.
pub proof fn law_adjusted_param(
    source: Seq<u8>,
    start: int,
    n: int,
    costs: Option<Map<u32, i16>>,
    word: int,
)
    requires
        0 <= start,
        start + 4 + 6 * n <= source.len(),
        0 <= word < n <= u32::MAX,
    ensures
        ({
            let out = adjusted_params(source, start, n, costs);
            let at = 4 + 6 * word;
            &&& u32_at(out, 0) == u32_at(source, start)
            &&& i16_at(out, at) == i16_at(source, start + at)
            &&& i16_at(out, at + 2) == i16_at(source, start + at + 2)
            &&& i16_at(out, at + 4) == if costs is Some && costs->0.contains_key(word as u32) {
                costs->0[word as u32] as int
            } else {
                i16_at(source, start + at + 4)
            }
        }),
{
    let out = adjusted_params(source, start, n, costs);
    let at = 4 + 6 * word;
    assert forall|k: int| 0 <= k < 4 implies #[trigger] out[k] == source[start + k] by {}
    assert forall|k: int| at <= k < at + 4 implies #[trigger] out[k] == source[start + k] by {
        assert((k - 4) / 6 == word && (k - 4) % 6 == k - at);
    }
    assert((at + 4 - 4) / 6 == word && (at + 4 - 4) % 6 == 4);
    assert((at + 5 - 4) / 6 == word && (at + 5 - 4) % 6 == 5);
    if costs is Some && costs->0.contains_key(word as u32) {
        let cost = costs->0[word as u32] as int;
        let none = Seq::<u8>::empty();
        law_le16_reads_back(cost, none, none);
        assert(none + le16(cost) + none =~= le16(cost));
        assert(out[at + 4] == le16(cost)[0]);
        assert(out[at + 5] == le16(cost)[1]);
    } else {
        assert(out[at + 4] == source[start + at + 4]);
        assert(out[at + 5] == source[start + at + 5]);
    }
}

/// The parts of a dictionary: with a grammar section, what comes before the matrix is kept, the
/// matrix is patched, and the lexicon follows it; without one, the lexicon follows the header of
/// 272 bytes, and nothing is patched. The version of the dictionary is its first eight bytes.
pub proof fn law_dictionary_parts(buf: Seq<u8>, patches: Option<Map<u32, i16>>)
    requires
        8 <= buf.len(),
    ensures
        version_of(buf) == u64_at(buf, 0),
        is_grammatical(buf) <==> with_grammar(u64_at(buf, 0) as u64),
        !is_grammatical(buf) ==> head_end(buf) == 272 && lexicon_start(buf) == 272 && source(
            buf,
            patches,
        ) == buf,
        is_grammatical(buf) ==> head_end(buf) == matrix_start(buf, 272) && lexicon_start(buf)
            == matrix_end(buf, 272),
        patches is None ==> source(buf, patches) == buf,
        is_grammatical(buf) && patches is Some ==> source(buf, patches) == patched(
            buf,
            matrix_start(buf, 272),
            num_left(buf, 272),
            num_right(buf, 272),
            patches->0,
        ),
{
    assert(0 <= u64_at(buf, 0) <= u64::MAX);
}

/// Bytes with a number of four bytes before them.
#[verifier::opaque]
pub open spec fn counted(n: int, data: Seq<u8>) -> Seq<u8> {
    le32(n) + data
}

/// What bytes with a number before them hold.
pub proof fn lemma_counted(n: int, data: Seq<u8>)
    requires
        0 <= n < 0x1_0000_0000,
    ensures
        counted(n, data).len() == 4 + data.len(),
        u32_at(counted(n, data), 0) == n,
        counted(n, data).skip(4) == data,
{
    reveal(counted);
    let none = Seq::<u8>::empty();
    law_le32_reads_back(n, none, data);
    assert(counted(n, data) =~= none + le32(n) + data);
    assert(counted(n, data).skip(4) =~= data);
}

/// The bytes of a lexicon: the number of the trie's units and the units, the size of the table of
/// word numbers and the table, the number of words, and six bytes for each word.
pub open spec fn lexicon_bytes(units: Seq<u32>, ids: Seq<u8>, params: Seq<u8>) -> Seq<u8> {
    counted(units.len() as int, le32s(units)) + counted(ids.len() as int, ids) + counted(
        params.len() as int / 6,
        params,
    )
}

/// Three parts between others.
proof fn lemma_three_within(before: Seq<u8>, x: Seq<u8>, y: Seq<u8>, z: Seq<u8>, after: Seq<u8>)
    requires
        x.len() >= 4,
        y.len() >= 4,
        z.len() >= 4,
    ensures
        ({
            let buf = before + (x + y + z) + after;
            let p1 = before.len() as int;
            let p2 = p1 + x.len();
            let p3 = p2 + y.len();
            let p4 = p3 + z.len();
            &&& p4 <= buf.len()
            &&& buf.subrange(p1, p2) == x
            &&& buf.subrange(p2, p3) == y
            &&& buf.subrange(p3, p4) == z
            &&& u32_at(buf, p1) == u32_at(x, 0)
            &&& u32_at(buf, p2) == u32_at(y, 0)
            &&& u32_at(buf, p3) == u32_at(z, 0)
        }),
{
    let buf = before + (x + y + z) + after;
    let p1 = before.len() as int;
    let p2 = p1 + x.len();
    let p3 = p2 + y.len();
    let p4 = p3 + z.len();
    assert(buf.subrange(p1, p2) =~= x);
    assert(buf.subrange(p2, p3) =~= y);
    assert(buf.subrange(p3, p4) =~= z);
    lemma_u32_within(buf, x, p1, 0);
    lemma_u32_within(buf, y, p2, 0);
    lemma_u32_within(buf, z, p3, 0);
}

/// The units in bytes with their number before them.
proof fn lemma_units_within(buf: Seq<u8>, at: int, units: Seq<u32>)
    requires
        0 <= at,
        units.len() < 0x1_0000_0000,
        at + 4 + 4 * units.len() <= buf.len(),
        u32_at(buf, at) == units.len(),
        buf.subrange(at, at + 4 + 4 * units.len()) == counted(units.len() as int, le32s(units)),
    ensures
        yada_fits(buf, at),
        yada_units(buf, at) == units,
{
    let table = le32s(units);
    let part = counted(units.len() as int, table);
    let none = Seq::<u8>::empty();
    lemma_le32s_len(units);
    lemma_counted(units.len() as int, table);
    assert forall|i: int| 0 <= i < units.len() implies u32_at(buf, at + 4 + 4 * i)
        == #[trigger] units[i] by {
        law_le32s_read_back(units, none, none, i);
        assert(none + table + none =~= table);
        assert(part.subrange(4, 4int + table.len()) =~= part.skip(4));
        lemma_u32_within(part, table, 4, 4 * i);
        lemma_u32_within(buf, part, at, 4 + 4 * i);
    }
    assert(yada_units(buf, at) =~= units);
}

/// Where the parts of a lexicon stand.
proof fn lemma_lexicon_places(
    before: Seq<u8>,
    units: Seq<u32>,
    ids: Seq<u8>,
    params: Seq<u8>,
    after: Seq<u8>,
)
    requires
        units.len() < 0x1_0000_0000,
        ids.len() < 0x1_0000_0000,
        params.len() % 6 == 0,
        params.len() / 6 < 0x1_0000_0000,
    ensures
        ({
            let buf = before + lexicon_bytes(units, ids, params) + after;
            let at = before.len() as int;
            let ids_at = at + 4 + 4 * units.len();
            let params_at = ids_at + 4 + ids.len();
            let end = params_at + 4 + params.len();
            &&& end <= buf.len()
            &&& end == at + lexicon_bytes(units, ids, params).len()
            &&& yada_fits(buf, at)
            &&& yada_units(buf, at) == units
            &&& ids_start(buf, at) == ids_at
            &&& params_start(buf, at) == params_at
            &&& word_count(buf, at) == params.len() / 6
            &&& infos_start(buf, at) == end
            &&& buf.subrange(ids_at, params_at) == counted(ids.len() as int, ids)
            &&& buf.subrange(params_at, end) == counted(params.len() as int / 6, params)
        }),
{
    let x = counted(units.len() as int, le32s(units));
    let y = counted(ids.len() as int, ids);
    let z = counted(params.len() as int / 6, params);
    lemma_le32s_len(units);
    lemma_counted(units.len() as int, le32s(units));
    lemma_counted(ids.len() as int, ids);
    lemma_counted(params.len() as int / 6, params);
    lemma_three_within(before, x, y, z, after);
    lemma_units_within(before + (x + y + z) + after, before.len() as int, units);
}

/// A lexicon is converted from its parts: the trie's keys with their values come from its units,
/// the table of word numbers is kept, the parameters of the words are kept but for the costs of
/// the words that have another one, and there is the information on each word. It can be converted
/// where the paths of the trie come to an end and the information on the words can be read.
pub proof fn law_lexicon_of_parts(
    before: Seq<u8>,
    units: Seq<u32>,
    ids: Seq<u8>,
    params: Seq<u8>,
    after: Seq<u8>,
    synonyms: bool,
    costs: Option<Map<u32, i16>>,
    plan: LexiconPlan,
    word: int,
)
    requires
        units.len() < 0x1_0000_0000,
        ids.len() < 0x1_0000_0000,
        params.len() % 6 == 0,
        params.len() / 6 < 0x1_0000_0000,
    ensures
        ({
            let buf = before + lexicon_bytes(units, ids, params) + after;
            let at = before.len() as int;
            let infos_at = at + lexicon_bytes(units, ids, params).len();
            let n = params.len() as int / 6;
            &&& lexicon_convertible(buf, at, synonyms) <==> finite_trie(units) && records_valid(
                buf,
                infos_at,
                n,
                synonyms,
            )
            &&& is_lexicon_plan(buf, at, synonyms, costs, plan) ==> {
                &&& plan.trie_units == units.len()
                &&& entry_views(plan.entries@) == yada_entries(units)
                &&& u32_at(plan.word_ids@, 0) == ids.len()
                &&& plan.word_ids@.skip(4) == ids
                &&& plan.word_params@.len() == 4 + params.len()
                &&& u32_at(plan.word_params@, 0) == n
                &&& costs is None ==> plan.word_params@.skip(4) == params && plan.adjusted == 0
                &&& costs is Some ==> plan.adjusted == Set::new(
                    |w: u32| w < n && costs->0.contains_key(w),
                ).len()
                &&& 0 <= word < n ==> {
                    let p = 4 + 6 * word;
                    &&& i16_at(plan.word_params@, p) == i16_at(params, 6 * word)
                    &&& i16_at(plan.word_params@, p + 2) == i16_at(params, 6 * word + 2)
                    &&& i16_at(plan.word_params@, p + 4) == if costs is Some
                        && costs->0.contains_key(word as u32) {
                        costs->0[word as u32] as int
                    } else {
                        i16_at(params, 6 * word + 4)
                    }
                }
                &&& plan.records@.len() == n
                &&& forall|i: int|
                    0 <= i < n ==> are_record_pieces(
                        buf,
                        infos_at,
                        n,
                        synonyms,
                        i,
                        piece_views((#[trigger] plan.records@[i])@),
                    )
            }
        }),
{
    lemma_lexicon_places(before, units, ids, params, after);
    lemma_counted(ids.len() as int, ids);
    let n = params.len() as int / 6;
    lemma_counted(n, params);
    let buf = before + lexicon_bytes(units, ids, params) + after;
    let start = params_start(buf, before.len() as int);
    law_params_size(buf, start, n, costs);
    if costs is Some {
        law_adjusted_count(costs->0, n as nat);
        assert(Set::new(|w: u32| w < n as nat && costs->0.contains_key(w)) =~= Set::new(
            |w: u32| w < n && costs->0.contains_key(w),
        ));
    }
    let part = counted(n, params);
    assert(buf.subrange(start, start + 4 + 6 * n) == part);
    lemma_u32_within(buf, part, start, 0);
    assert(u32_at(adjusted_params(buf, start, n, costs), 0) == n) by {
        let out = adjusted_params(buf, start, n, costs);
        assert(out[0] == buf[start] && out[1] == buf[start + 1]);
        assert(out[2] == buf[start + 2] && out[3] == buf[start + 3]);
    }
    if 0 <= word < n {
        law_adjusted_param(buf, start, n, costs, word);
        lemma_word_params(buf, start, part, params, word);
    }
}

/// The parameters of a word, found in the buffer.
proof fn lemma_word_params(
    buf: Seq<u8>,
    start: int,
    part: Seq<u8>,
    params: Seq<u8>,
    word: int,
)
    requires
        0 <= start,
        start + part.len() <= buf.len(),
        buf.subrange(start, start + part.len()) == part,
        part.len() == 4 + params.len(),
        part.skip(4) == params,
        0 <= word,
        6 * word + 6 <= params.len(),
    ensures
        i16_at(buf, start + 4 + 6 * word) == i16_at(params, 6 * word),
        i16_at(buf, start + 4 + 6 * word + 2) == i16_at(params, 6 * word + 2),
        i16_at(buf, start + 4 + 6 * word + 4) == i16_at(params, 6 * word + 4),
{
    assert forall|k: int| 0 <= k < params.len() implies #[trigger] params[k] == buf[start + 4
        + k] by {
        assert(part.skip(4)[k] == part[4 + k]);
        assert(buf.subrange(start, start + part.len())[4 + k] == buf[start + 4 + k]);
    }
    assert(params[6 * word] == buf[start + 4 + 6 * word]);
    assert(params[6 * word + 1] == buf[start + 4 + 6 * word + 1]);
    assert(params[6 * word + 2] == buf[start + 4 + 6 * word + 2]);
    assert(params[6 * word + 3] == buf[start + 4 + 6 * word + 3]);
    assert(params[6 * word + 4] == buf[start + 4 + 6 * word + 4]);
    assert(params[6 * word + 5] == buf[start + 4 + 6 * word + 5]);
}

/// As many words get another cost as there are costs for words.
pub proof fn law_adjusted_count(costs: Map<u32, i16>, n: nat)
    requires
        n <= u32::MAX + 1,
    ensures
        adjusted_count(costs, n) == Set::new(
            |word: u32| word < n && costs.contains_key(word),
        ).len(),
        Set::new(|word: u32| word < n && costs.contains_key(word)).finite(),
    decreases n,
{
    let words = Set::new(|word: u32| word < n && costs.contains_key(word));
    if n == 0 {
        assert(words =~= Set::empty());
    } else {
        let last = (n - 1) as u32;
        let fewer = Set::new(|word: u32| word < n - 1 && costs.contains_key(word));
        law_adjusted_count(costs, (n - 1) as nat);
        assert(Set::new(|word: u32| word < (n - 1) as nat && costs.contains_key(word)) =~= fewer);
        if costs.contains_key(last) {
            assert(words =~= fewer.insert(last));
            assert(!fewer.contains(last));
        } else {
            assert(words =~= fewer);
        }
    }
}

/// The parameters of words keep their size.
pub proof fn law_params_size(source: Seq<u8>, start: int, n: int, costs: Option<Map<u32, i16>>)
    requires
        0 <= start,
        0 <= n,
        start + 4 + 6 * n <= source.len(),
    ensures
        adjusted_params(source, start, n, costs).len() == 4 + 6 * n,
        costs is None ==> adjusted_params(source, start, n, costs) == source.subrange(
            start,
            start + 4 + 6 * n,
        ),
{
}

/// A converted dictionary has its parts one after the other: what is kept at its start, the packed
/// matrix where it has one, the section of its trie, the table of word numbers, the parameters of
/// the words, and the information on them.
pub proof fn law_assembled_parts(
    conversion: Conversion,
    packed: Seq<PackedBlock>,
    records: Seq<Seq<u8>>,
    section: Seq<u8>,
    bytes: Seq<u8>,
)
    requires
        is_assembled(conversion, packed, records, section, bytes),
    ensures
        ({
            let whole = match conversion.matrix {
                Some(matrix) => bitpacked(
                    matrix.num_left as int,
                    matrix.num_right as int,
                    block_rows(matrix.blocks@, packed),
                ),
                None => Seq::empty(),
            };
            let p1 = conversion.head@.len() as int;
            let p2 = p1 + whole.len();
            let p3 = p2 + section.len();
            let p4 = p3 + conversion.lexicon.word_ids@.len();
            let p5 = p4 + conversion.lexicon.word_params@.len();
            &&& before_lexicon(conversion, packed).len() == p2
            &&& p5 <= bytes.len()
            &&& bytes.subrange(0, p1) == conversion.head@
            &&& bytes.subrange(p1, p2) == whole
            &&& bytes.subrange(p2, p3) == section
            &&& is_marisa_section(entry_views(conversion.lexicon.entries@), section)
            &&& bytes.subrange(p3, p4) == conversion.lexicon.word_ids@
            &&& bytes.subrange(p4, p5) == conversion.lexicon.word_params@
            &&& bytes.skip(p5) == word_infos_bytes(records)
        }),
{
    let whole = matrix_bytes(conversion, packed);
    lemma_six_in_order(
        conversion.head@,
        whole,
        section,
        conversion.lexicon.word_ids@,
        conversion.lexicon.word_params@,
        word_infos_bytes(records),
    );
}

/// Six parts that stand one after the other are found where they stand.
proof fn lemma_six_in_order(
    a: Seq<u8>,
    b: Seq<u8>,
    c: Seq<u8>,
    d: Seq<u8>,
    e: Seq<u8>,
    f: Seq<u8>,
)
    ensures
        ({
            let bytes = (a + b) + (c + d) + (e + f);
            let p1 = a.len() as int;
            let p2 = p1 + b.len();
            let p3 = p2 + c.len();
            let p4 = p3 + d.len();
            let p5 = p4 + e.len();
            &&& bytes.len() == p5 + f.len()
            &&& bytes.subrange(0, p1) == a
            &&& bytes.subrange(p1, p2) == b
            &&& bytes.subrange(p2, p3) == c
            &&& bytes.subrange(p3, p4) == d
            &&& bytes.subrange(p4, p5) == e
            &&& bytes.skip(p5) == f
        }),
{
    let bytes = (a + b) + (c + d) + (e + f);
    let p1 = a.len() as int;
    let p2 = p1 + b.len();
    let p3 = p2 + c.len();
    let p4 = p3 + d.len();
    let p5 = p4 + e.len();
    assert(bytes.subrange(0, p1) =~= a);
    assert(bytes.subrange(p1, p2) =~= b);
    assert(bytes.subrange(p2, p3) =~= c);
    assert(bytes.subrange(p3, p4) =~= d);
    assert(bytes.subrange(p4, p5) =~= e);
    assert(bytes.skip(p5) =~= f);
}

/// What a conversion has of its dictionary: the version, what comes before the matrix or the
/// lexicon, the matrix with its dimensions exactly where there is a grammar section, its costs with
/// the patches applied to them, and the lexicon.
pub proof fn law_conversion_parts(
    buf: Seq<u8>,
    costs: Option<Map<u32, i16>>,
    patches: Option<Map<u32, i16>>,
    conversion: Conversion,
)
    requires
        8 <= buf.len(),
        is_conversion(buf, costs, patches, conversion),
    ensures
        conversion.version == u64_at(buf, 0),
        conversion.head@ == buf.take(
            if is_grammatical(buf) {
                matrix_start(buf, 272)
            } else {
                272
            },
        ),
        conversion.matrix is Some <==> is_grammatical(buf),
        conversion.matrix is Some ==> {
            let matrix = conversion.matrix->0;
            &&& matrix.num_left == num_left(buf, 272)
            &&& matrix.num_right == num_right(buf, 272)
            &&& patches is None ==> matrix.applied == 0
            &&& patches is Some ==> matrix.applied == hitting(
                patches->0,
                num_left(buf, 272),
                num_right(buf, 272),
            ).len()
            &&& are_blocks(
                source(buf, patches),
                matrix_start(buf, 272),
                num_left(buf, 272),
                num_right(buf, 272),
                matrix.blocks@,
            )
        },
        is_lexicon_plan(
            source(buf, patches),
            if is_grammatical(buf) {
                matrix_end(buf, 272)
            } else {
                272
            },
            with_synonyms(u64_at(buf, 0) as u64),
            costs,
            conversion.lexicon,
        ),
{
    assert(0 <= u64_at(buf, 0) <= u64::MAX);
}

/// A dictionary can be converted exactly where its grammar section, if its version has one, can be
/// read with the matrix within the dictionary, and its lexicon can be converted.
pub proof fn law_convertible(buf: Seq<u8>, patches: Option<Map<u32, i16>>)
    requires
        8 <= buf.len(),
    ensures
        convertible(buf, patches) <==> {
            &&& is_grammatical(buf) ==> {
                let left = num_left(buf, 272);
                let right = num_right(buf, 272);
                &&& grammar_valid(buf, 272)
                &&& left * right == 0 || matrix_start(buf, 272) + 2 * (left * right) <= buf.len()
                &&& left <= usize::MAX - 255
                &&& right <= usize::MAX - 255
            }
            &&& lexicon_convertible(
                source(buf, patches),
                if is_grammatical(buf) {
                    matrix_end(buf, 272)
                } else {
                    272
                },
                with_synonyms(u64_at(buf, 0) as u64),
            )
        },
{
    assert(0 <= u64_at(buf, 0) <= u64::MAX);
}

/// A lexicon can be converted exactly where its parts are within the dictionary, the paths of its
/// trie come to an end, and the information on its words can be read.
pub proof fn law_lexicon_convertible(source: Seq<u8>, lexicon: int, synonyms: bool)
    requires
        0 <= lexicon,
    ensures
        lexicon_convertible(source, lexicon, synonyms) <==> {
            let ids_at = lexicon + 4 + 4 * u32_at(source, lexicon);
            let params_at = ids_at + 4 + u32_at(source, ids_at);
            let n = u32_at(source, params_at);
            &&& lexicon + 4 <= source.len()
            &&& ids_at + 4 <= source.len()
            &&& params_at + 4 <= source.len()
            &&& params_at + 4 + 6 * n <= source.len()
            &&& finite_trie(yada_units(source, lexicon))
            &&& records_valid(source, params_at + 4 + 6 * n, n, synonyms)
        },
{
}

/// A dictionary with readings as keys answers for the words that it was made for: where its lexicon
/// starts, it has a trie of their readings in hiragana, and after it a table with its size before
/// it, whose rows count the words with a reading, up to 255, and list their numbers in their order.
/// What followed the table of word numbers follows it.
pub proof fn law_reading_keyed_of_words(
    dictionary: Seq<u8>,
    lexicon_offset: int,
    word_params_offset: int,
    words: Seq<Word>,
    bytes: Seq<u8>,
)
    requires
        0 <= lexicon_offset <= word_params_offset <= dictionary.len(),
        words.len() <= usize::MAX,
        is_reading_keyed(
            dictionary,
            lexicon_offset,
            word_params_offset,
            readable(with_hiragana(word_views(words))),
            bytes,
        ),
        bytes.len() < 0x1_0000_0000,
    ensures
        exists|trie: Trie, end: int|
            {
                &&& #[trigger] section_spans(trie, bytes, lexicon_offset, end)
                &&& end + 4 + u32_at(bytes, end) <= bytes.len()
                &&& bytes.skip(end + 4 + u32_at(bytes, end)) == dictionary.skip(word_params_offset)
                &&& answers_for_words(trie, words, true, bytes, lexicon_offset)
            },
{
    let items = readable(with_hiragana(word_views(words)));
    let table = id_table(items);
    let ids = sized(table);
    let section = choose|section: Seq<u8>|
        {
            &&& #[trigger] is_marisa_section(id_places(items), section)
            &&& bytes == dictionary.take(lexicon_offset) + section + sized(table)
                + dictionary.skip(word_params_offset)
        };
    let end = lexicon_offset + section.len();
    assert(bytes.subrange(lexicon_offset, end) =~= section);
    assert(bytes.subrange(end, end + ids.len()) =~= ids);
    law_keyed_sections_of_words(words, bytes, section, ids, lexicon_offset);
    let trie = choose|trie: Trie|
        {
            &&& #[trigger] section_spans(trie, bytes, lexicon_offset, lexicon_offset
                + section.len())
            &&& u32_at(bytes, lexicon_offset + section.len()) == ids.len() - 4
            &&& answers_for_words(trie, words, true, bytes, lexicon_offset)
        };
    assert(bytes.skip(end + ids.len()) =~= dictionary.skip(word_params_offset));
    assert(section_spans(trie, bytes, lexicon_offset, end));
}

/// The content of a map that is there is its own.
pub proof fn law_maybe_map(map: Option<HashMap<u32, i16>>)
    ensures
        map is None <==> maybe_map(map) is None,
        map is Some ==> maybe_map(map) == Some(map->0@),
{
}

} // verus!
