//! Tensors by name, and the SafeTensors files that they come from.
//!
//! A 32-bit float stands here as its bit pattern: nothing in this crate computes with one.

use safetensors::tensor::{Metadata, SafeTensorError};
use safetensors::SafeTensors;
use vstd::prelude::*;
use vstd::utf8::{decode_utf8, valid_utf8};

use crate::rows::{flat, lemma_flat_len, lemma_flat_row, uniform};
use crate::text::begins_with;

verus! {

/// A tensor: the bit patterns of its elements, row-major, and its dimensions.
pub struct NamedTensor {
    pub data: Vec<u32>,
    pub shape: Vec<usize>,
}

/// A tensor as contracts speak of it.
#[verifier::ext_equal]
pub struct TensorSpec {
    pub data: Seq<u32>,
    pub shape: Seq<usize>,
}

impl View for NamedTensor {
    type V = TensorSpec;

    open spec fn view(&self) -> TensorSpec {
        TensorSpec { data: self.data@, shape: self.shape@ }
    }
}

impl Clone for NamedTensor {
    fn clone(&self) -> (copy: NamedTensor)
        ensures
            copy@ == self@,
    {
        NamedTensor {
            data: vstd::slice::slice_to_vec(self.data.as_slice()),
            shape: vstd::slice::slice_to_vec(self.shape.as_slice()),
        }
    }
}

/// Tensors by name. No name occurs twice.
pub struct TensorMap {
    entries: Vec<(String, NamedTensor)>,
}

/// Tensors by name, as contracts speak of them.
pub type Tensors = Map<Seq<char>, TensorSpec>;

/// The map that a list of entries makes up.
spec fn table(entries: Seq<(String, NamedTensor)>) -> Tensors
    decreases entries.len(),
{
    if entries.len() == 0 {
        Map::empty()
    } else {
        table(entries.drop_last()).insert(entries.last().0@, entries.last().1@)
    }
}

/// Whether no name occurs twice.
spec fn distinct(entries: Seq<(String, NamedTensor)>) -> bool {
    forall|i: int, j: int|
        0 <= i < j < entries.len() ==> (#[trigger] entries[i]).0@ != (#[trigger] entries[j]).0@
}

/// A name is in the map exactly if an entry has it, and its tensor is that entry's.
proof fn lemma_table(entries: Seq<(String, NamedTensor)>)
    requires
        distinct(entries),
    ensures
        table(entries).dom().finite(),
        table(entries).dom().len() == entries.len(),
        forall|i: int|
            0 <= i < entries.len() ==> table(entries).contains_key((#[trigger] entries[i]).0@)
                && table(entries)[entries[i].0@] == entries[i].1@,
        forall|name: Seq<char>| #[trigger]
            table(entries).contains_key(name) ==> exists|i: int|
                0 <= i < entries.len() && (#[trigger] entries[i]).0@ == name,
    decreases entries.len(),
{
    if entries.len() > 0 {
        let init = entries.drop_last();
        let last = entries.len() - 1;
        assert(distinct(init));
        lemma_table(init);
        assert forall|i: int| 0 <= i < entries.len() implies table(entries).contains_key(
            (#[trigger] entries[i]).0@,
        ) && table(entries)[entries[i].0@] == entries[i].1@ by {
            if i < last {
                assert(init[i] == entries[i]);
                assert(entries[i].0@ != entries[last].0@);
            }
        }
        assert(!table(init).contains_key(entries[last].0@)) by {
            if table(init).contains_key(entries[last].0@) {
                let i = choose|i: int|
                    0 <= i < init.len() && (#[trigger] init[i]).0@ == entries[last].0@;
                assert(entries[i].0@ == entries[last].0@);
            }
        }
        assert forall|name: Seq<char>| #[trigger] table(entries).contains_key(name) implies exists|
            i: int,
        | 0 <= i < entries.len() && (#[trigger] entries[i]).0@ == name by {
            if name != entries[last].0@ {
                let i = choose|i: int| 0 <= i < init.len() && (#[trigger] init[i]).0@ == name;
                assert(entries[i].0@ == name);
            } else {
                assert(entries[last].0@ == name);
            }
        }
    }
}

impl View for TensorMap {
    type V = Tensors;

    closed spec fn view(&self) -> Tensors {
        table(self.entries@)
    }
}

impl TensorMap {
    #[verifier::type_invariant]
    spec fn wf(&self) -> bool {
        distinct(self.entries@)
    }

    /// No tensors.
    pub fn new() -> (map: TensorMap)
        ensures
            map@ == Map::<Seq<char>, TensorSpec>::empty(),
    {
        TensorMap { entries: Vec::new() }
    }

    /// How many tensors there are.
    pub fn len(&self) -> (n: usize)
        ensures
            self@.dom().finite(),
            n == self@.dom().len(),
    {
        proof {
            use_type_invariant(self);
            lemma_table(self.entries@);
        }
        self.entries.len()
    }

    /// Where a name stands, if it does.
    fn find(&self, name: &str) -> (at: Option<usize>)
        ensures
            at matches Some(i) ==> i < self.entries@.len() && self.entries@[i as int].0@ == name@,
            at is None ==> forall|i: int|
                0 <= i < self.entries@.len() ==> (#[trigger] self.entries@[i]).0@ != name@,
    {
        let wanted: String = name.to_owned();
        for i in 0..self.entries.len()
            invariant
                wanted@ == name@,
                forall|j: int| 0 <= j < i ==> (#[trigger] self.entries@[j]).0@ != name@,
        {
            if self.entries[i].0 == wanted {
                return Some(i);
            }
        }
        None
    }

    /// The tensor of this name, if there is one.
    pub fn get(&self, name: &str) -> (tensor: Option<&NamedTensor>)
        ensures
            tensor is Some <==> self@.contains_key(name@),
            tensor matches Some(tensor) ==> tensor@ == self@[name@],
    {
        proof {
            use_type_invariant(self);
            lemma_table(self.entries@);
        }
        match self.find(name) {
            Some(i) => Some(&self.entries[i].1),
            None => None,
        }
    }

    /// Gives a tensor a name, in place of any that had it.
    pub fn insert(&mut self, name: String, tensor: NamedTensor)
        ensures
            final(self)@ == old(self)@.insert(name@, tensor@),
    {
        proof {
            use_type_invariant(&*self);
            lemma_table(self.entries@);
        }
        let at: Option<usize> = self.find(name.as_str());
        let ghost before = self.entries@;
        let mut entries: Vec<(String, NamedTensor)> = Vec::new();
        std::mem::swap(&mut entries, &mut self.entries);
        match at {
            Some(i) => {
                entries.set(i, (name, tensor));
                assert(distinct(entries@)) by {
                    assert forall|j: int, k: int| 0 <= j < k < entries@.len() implies (
                    #[trigger] entries@[j]).0@ != (#[trigger] entries@[k]).0@ by {
                        assert(before[j].0@ != before[k].0@);
                    }
                }
                proof {
                    lemma_table(entries@);
                    assert forall|n: Seq<char>| #[trigger]
                        table(entries@).contains_key(n) <==> table(before).insert(
                            name@,
                            tensor@,
                        ).contains_key(n) by {
                        if table(entries@).contains_key(n) {
                            let j = choose|j: int|
                                0 <= j < entries@.len() && (#[trigger] entries@[j]).0@ == n;
                            assert(before[j].0@ == n);
                        }
                        if table(before).contains_key(n) {
                            let j = choose|j: int|
                                0 <= j < before.len() && (#[trigger] before[j]).0@ == n;
                            assert(entries@[j].0@ == n);
                        }
                        assert(entries@[i as int].0@ == name@);
                    }
                    assert forall|n: Seq<char>| #[trigger]
                        table(entries@).contains_key(n) implies table(entries@)[n] == table(
                        before,
                    ).insert(name@, tensor@)[n] by {
                        let j = choose|j: int|
                            0 <= j < entries@.len() && (#[trigger] entries@[j]).0@ == n;
                        assert(before[j].0@ == n);
                    }
                    assert(table(entries@) =~= table(before).insert(name@, tensor@));
                }
            },
            None => {
                entries.push((name, tensor));
                assert(entries@.drop_last() =~= before);
            },
        }
        self.entries = entries;
    }
}

/// The contents of a SafeTensors file: by name, the bytes of a tensor's elements and its
/// dimensions.
pub type Archive = Map<Seq<char>, (Seq<u8>, Seq<usize>)>;

/// A SafeTensors file that has been read.
#[verifier::external_type_specification]
#[verifier::external_body]
pub struct ExSafeTensors<'data>(SafeTensors<'data>);

/// What is wrong with a file that is no SafeTensors file.
#[verifier::external_type_specification]
#[verifier::external_body]
pub struct ExSafeTensorError(SafeTensorError);

/// The header of a SafeTensors file: which tensors there are, and where their elements stand.
#[verifier::external_type_specification]
#[verifier::external_body]
pub struct ExMetadata(Metadata);

/// What a SafeTensors file holds.
pub uninterp spec fn archive(t: SafeTensors) -> Archive;

/// What `SafeTensors::deserialize` reads in these bytes, if it takes them.
pub uninterp spec fn read_archive(bytes: Seq<u8>) -> Archive;

/// How many bytes of elements the tensors of a header take.
pub uninterp spec fn elements_len(metadata: Metadata) -> usize;

/// How many bytes of elements a text says that there are, or `None` if it is no header.
pub uninterp spec fn parsed_len(text: Seq<char>) -> Option<usize>;

/// How many bytes of elements a header says that there are, or `None` if it is no header.
pub open spec fn declared_len(header: Seq<u8>) -> Option<usize> {
    if valid_utf8(header) {
        parsed_len(decode_utf8(header))
    } else {
        None
    }
}

/// The longest header that a file may have.
pub const MAX_HEADER: usize = 100_000_000;

/// The length of a file's header, which stands before it in eight bytes, the lowest first.
pub open spec fn header_len(bytes: Seq<u8>) -> int {
    bytes[0] + bytes[1] * 0x100 + bytes[2] * 0x1_0000 + bytes[3] * 0x100_0000 + bytes[4]
        * 0x1_0000_0000 + bytes[5] * 0x100_0000_0000 + bytes[6] * 0x1_0000_0000_0000 + bytes[7]
        * 0x100_0000_0000_0000
}

/// The header of a file, if it has room for one.
pub open spec fn header(bytes: Seq<u8>) -> Option<Seq<u8>> {
    let n = header_len(bytes);
    if bytes.len() >= 8 && n <= MAX_HEADER && n <= bytes.len() - 8 {
        Some(bytes.subrange(8, 8 + n))
    } else {
        None
    }
}

/// Whether the size that a file's header says it has can be counted in a `usize`.
pub open spec fn countable(bytes: Seq<u8>) -> bool {
    header(bytes) matches Some(h) ==> (declared_len(h) matches Some(len) ==> 8 + h.len() + len
        <= usize::MAX)
}

/// Whether a file has a header and is as long as its header says.
pub open spec fn complete(bytes: Seq<u8>) -> bool {
    header(bytes) matches Some(h) && declared_len(h) == Some((bytes.len() - 8 - h.len()) as usize)
}

/// What is said of a file that has no room for its header, or whose header is well-formed but does
/// not say how long the file is. `None` if neither is so.
pub open spec fn framing_text(bytes: Seq<u8>) -> Option<Seq<char>> {
    if bytes.len() < 8 {
        Some("header too small"@)
    } else if header_len(bytes) > MAX_HEADER {
        Some("header too large"@)
    } else if header(bytes) is None {
        Some("invalid header length"@)
    } else if declared_len(header(bytes)->0) is Some && !complete(bytes) {
        Some("incomplete metadata, file not fully covered"@)
    } else {
        None
    }
}

/// Whether this is said of a header that is not well-formed. What comes after the colon is up to
/// the parser, and which tensor is named can be one of several.
pub open spec fn is_header_fault(header: Seq<u8>, text: Seq<char>) -> bool {
    if valid_utf8(header) {
        ||| begins_with(text, "invalid JSON in header: "@)
        ||| begins_with(text, "invalid offset for tensor `"@)
        ||| text == "invalid shape, data type, or offset for tensor"@
        ||| text == "overflow computing buffer size from shape and/or element type"@
        ||| text
            == "The slice is slicing for subbytes dtypes, and the slice does not end up at a byte boundary, this is invalid."@
    } else {
        begins_with(text, "invalid UTF-8 in header: "@)
    }
}

/// Whether this can be said of a file that is not taken.
pub open spec fn is_refusal(bytes: Seq<u8>, text: Seq<char>) -> bool {
    match framing_text(bytes) {
        Some(framing) => text == framing,
        None => is_header_fault(header(bytes)->0, text),
    }
}

/// Calls `std::str::from_utf8`: the text that bytes encode, if they are UTF-8.
#[verifier::external_body]
fn utf8_text(bytes: &[u8]) -> (text: Option<&str>)
    ensures
        text is Some <==> valid_utf8(bytes@),
        text matches Some(t) ==> t@ == decode_utf8(bytes@),
{
    std::str::from_utf8(bytes).ok()
}

/// Calls `serde_json::from_str` for `safetensors::tensor::Metadata`, which parses a header and
/// checks that its tensors follow one another without gaps and are as long as their shapes say.
/// Whether it succeeds, and how many bytes the tensors then take, depends on the text alone.
#[verifier::external_body]
fn parse_header(text: &str) -> (metadata: Option<Metadata>)
    ensures
        metadata is Some <==> parsed_len(text@) is Some,
        metadata matches Some(m) ==> parsed_len(text@) == Some(elements_len(m)),
{
    serde_json::from_str::<Metadata>(text).ok()
}

/// Calls `safetensors::tensor::Metadata::data_len`: where the elements of the last tensor end.
#[verifier::external_body]
fn data_len(metadata: &Metadata) -> (len: usize)
    ensures
        len == elements_len(*metadata),
{
    metadata.data_len()
}

/// How many bytes of elements a header says that there are, or `None` if it is no header.
fn measure(header: &[u8]) -> (len: Option<usize>)
    ensures
        len == declared_len(header@),
{
    match utf8_text(header) {
        Some(text) => match parse_header(text) {
            Some(metadata) => Some(data_len(&metadata)),
            None => None,
        },
        None => None,
    }
}

/// Calls `safetensors::SafeTensors::deserialize`, which finds and parses the header of a file and
/// takes the file if the header, and the elements that it declares, make up its length. What
/// the file then holds depends on the bytes alone. The sum of the lengths is not checked for
/// overflow, so a file for which it does is left out.
///
/// An error is stated by the text that it shows. Where the file has no room for its header, or
/// its length is not what the header says, that is one text. Where the header is not well-formed it
/// is one of several: the rest of the text is not stated, for it is the parser's, and where two
/// tensors claim the same bytes it names one of the two, which depends on the order in which a
/// hash map is walked.
#[verifier::external_body]
fn deserialize<'a>(bytes: &'a [u8]) -> (result: Result<SafeTensors<'a>, SafeTensorError>)
    requires
        countable(bytes@),
    ensures
        result is Ok <==> complete(bytes@),
        result matches Ok(t) ==> archive(t) == read_archive(bytes@),
        result matches Err(e) ==> forall|text: String| #[trigger]
            vstd::string::to_string_from_display_ensures::<SafeTensorError>(&e, text)
                ==> is_refusal(bytes@, text@),
{
    SafeTensors::deserialize(bytes)
}

/// Calls `safetensors::SafeTensors::names`: each name in the file, once, in no particular order.
#[verifier::external_body]
fn tensor_names<'a>(t: &'a SafeTensors<'_>) -> (names: Vec<&'a str>)
    ensures
        forall|name: Seq<char>|
            archive(*t).contains_key(name) <==> exists|i: int|
                0 <= i < names@.len() && (#[trigger] names@[i])@ == name,
        forall|i: int, j: int|
            0 <= i < j < names@.len() ==> (#[trigger] names@[i])@ != (#[trigger] names@[j])@,
{
    t.names()
}

/// Calls `safetensors::SafeTensors::tensor`, and `data` and `shape` on the view that it
/// returns: the bytes and the dimensions of the tensor of this name, or an error if the file
/// has none.
#[verifier::external_body]
fn tensor_parts<'a>(t: &SafeTensors<'a>, name: &str) -> (result: Result<
    (&'a [u8], Vec<usize>),
    SafeTensorError,
>)
    ensures
        result is Ok <==> archive(*t).contains_key(name@),
        result matches Ok(parts) ==> (parts.0@, parts.1@) == archive(*t)[name@],
{
    t.tensor(name).map(|v| (v.data(), v.shape().to_vec()))
}

/// Four bytes as a number, the lowest first.
pub open spec fn word_le(b: Seq<u8>) -> u32 {
    (b[0] + b[1] * 0x100 + b[2] * 0x1_0000 + b[3] * 0x100_0000) as u32
}

/// The bit patterns that bytes make up, four bytes each. Bytes left over at the end are
/// dropped.
pub open spec fn words_le(bytes: Seq<u8>) -> Seq<u32> {
    Seq::new(bytes.len() / 4, |k: int| word_le(bytes.subrange(4 * k, 4 * k + 4)))
}

/// The tensors that an archive holds.
pub open spec fn tensors_of(archive: Archive) -> Tensors {
    Map::new(
        |name: Seq<char>| archive.contains_key(name),
        |name: Seq<char>|
            TensorSpec { data: words_le(archive[name].0), shape: archive[name].1 },
    )
}

/// The bit patterns that bytes make up.
fn words(bytes: &[u8]) -> (out: Vec<u32>)
    ensures
        out@ == words_le(bytes@),
{
    let mut out: Vec<u32> = Vec::new();
    for k in 0..bytes.len() / 4
        invariant
            out@ == words_le(bytes@).take(k as int),
    {
        let word: u32 = bytes[4 * k] as u32 + bytes[4 * k + 1] as u32 * 0x100 + bytes[4 * k
            + 2] as u32 * 0x1_0000 + bytes[4 * k + 3] as u32 * 0x100_0000;
        assert(word == words_le(bytes@)[k as int]);
        out.push(word);
        assert(words_le(bytes@).take(k + 1) =~= words_le(bytes@).take(k as int).push(word));
    }
    assert(words_le(bytes@).take((bytes@.len() / 4) as int) =~= words_le(bytes@));
    out
}

/// The tensors of a SafeTensors file, or what is wrong with it.
pub fn load_bytes(bytes: &[u8]) -> (result: Result<TensorMap, String>)
    requires
        countable(bytes@),
    ensures
        result is Ok <==> complete(bytes@),
        result matches Ok(map) ==> map@ == tensors_of(read_archive(bytes@)),
        result matches Ok(map) ==> forall|name: Seq<char>| #[trigger]
            map@.contains_key(name) <==> read_archive(bytes@).contains_key(name),
        result matches Ok(map) ==> forall|name: Seq<char>| #[trigger]
            map@.contains_key(name) ==> map@[name].shape == read_archive(bytes@)[name].1
                && map@[name].data.len() == read_archive(bytes@)[name].0.len() / 4,
        result matches Ok(map) ==> forall|name: Seq<char>, k: int|
            map@.contains_key(name) && 0 <= k < map@[name].data.len() ==> {
                let b = read_archive(bytes@)[name].0;
                #[trigger] map@[name].data[k] == b[4 * k] + b[4 * k + 1] * 0x100 + b[4 * k + 2]
                    * 0x1_0000 + b[4 * k + 3] * 0x100_0000
            },
        result matches Err(message) ==> is_refusal(bytes@, message@),
{
    let t: SafeTensors<'_> = match deserialize(bytes) {
        Ok(t) => t,
        Err(e) => {
            return Err(e.to_string());
        },
    };
    let result: Result<TensorMap, String> = read_tensors(&t);
    proof {
        if result is Ok {
            lemma_words_of_tensors(read_archive(bytes@), result->Ok_0@);
        }
    }
    result
}

/// What the elements of an archive's tensors come to.
proof fn lemma_words_of_tensors(archive: Archive, tensors: Tensors)
    requires
        tensors == tensors_of(archive),
    ensures
        forall|name: Seq<char>| #[trigger]
            tensors.contains_key(name) <==> archive.contains_key(name),
        forall|name: Seq<char>| #[trigger]
            tensors.contains_key(name) ==> tensors[name].shape == archive[name].1
                && tensors[name].data.len() == archive[name].0.len() / 4,
        forall|name: Seq<char>, k: int|
            tensors.contains_key(name) && 0 <= k < tensors[name].data.len() ==> {
                let b = archive[name].0;
                #[trigger] tensors[name].data[k] == b[4 * k] + b[4 * k + 1] * 0x100 + b[4 * k + 2]
                    * 0x1_0000 + b[4 * k + 3] * 0x100_0000
            },
{
    assert forall|name: Seq<char>, k: int|
        tensors.contains_key(name) && 0 <= k < tensors[name].data.len() implies {
        let b = archive[name].0;
        #[trigger] tensors[name].data[k] == b[4 * k] + b[4 * k + 1] * 0x100 + b[4 * k + 2]
            * 0x1_0000 + b[4 * k + 3] * 0x100_0000
    } by {
        let b = archive[name].0;
        let w = b.subrange(4 * k, 4 * k + 4);
        assert(w[0] == b[4 * k] && w[1] == b[4 * k + 1] && w[2] == b[4 * k + 2] && w[3] == b[4 * k
            + 3]);
        assert(tensors[name].data[k] == word_le(w));
    }
}

/// The header of a file, if it has room for one.
fn header_of(bytes: &[u8]) -> (found: Option<&[u8]>)
    ensures
        found is Some <==> header(bytes@) is Some,
        found matches Some(h) ==> Some(h@) == header(bytes@),
{
    if bytes.len() < 8 {
        return None;
    }
    let n: u64 = bytes[0] as u64 + bytes[1] as u64 * 0x100 + bytes[2] as u64 * 0x1_0000 + bytes[3] as u64
        * 0x100_0000 + bytes[4] as u64 * 0x1_0000_0000 + bytes[5] as u64 * 0x100_0000_0000
        + bytes[6] as u64 * 0x1_0000_0000_0000 + bytes[7] as u64 * 0x100_0000_0000_0000;
    if n > MAX_HEADER as u64 || n > (bytes.len() - 8) as u64 {
        return None;
    }
    Some(vstd::slice::slice_subrange(bytes, 8, 8 + n as usize))
}

/// What [`load_bytes`] makes of a file, or `None` if the size that the file's header says it has
/// is more than can be counted.
pub fn load_counted(bytes: &[u8]) -> (result: Option<Result<TensorMap, String>>)
    ensures
        result is Some <==> countable(bytes@),
        result matches Some(loaded) ==> {
            &&& loaded is Ok <==> complete(bytes@)
            &&& loaded matches Ok(map) ==> map@ == tensors_of(read_archive(bytes@))
            &&& loaded matches Ok(map) ==> forall|name: Seq<char>| #[trigger]
                map@.contains_key(name) <==> read_archive(bytes@).contains_key(name)
            &&& loaded matches Ok(map) ==> forall|name: Seq<char>| #[trigger]
                map@.contains_key(name) ==> map@[name].shape == read_archive(bytes@)[name].1
                    && map@[name].data.len() == read_archive(bytes@)[name].0.len() / 4
            &&& loaded matches Ok(map) ==> forall|name: Seq<char>, k: int|
                map@.contains_key(name) && 0 <= k < map@[name].data.len() ==> {
                    let b = read_archive(bytes@)[name].0;
                    #[trigger] map@[name].data[k] == b[4 * k] + b[4 * k + 1] * 0x100 + b[4 * k + 2]
                        * 0x1_0000 + b[4 * k + 3] * 0x100_0000
                }
            &&& loaded matches Err(message) ==> is_refusal(bytes@, message@)
        },
{
    if let Some(header) = header_of(bytes) {
        if let Some(len) = measure(header) {
            if len > usize::MAX - 8 - header.len() {
                return None;
            }
        }
    }
    Some(load_bytes(bytes))
}

/// The tensors of a SafeTensors file that has been read.
fn read_tensors(t: &SafeTensors<'_>) -> (result: Result<TensorMap, String>)
    ensures
        result matches Ok(map) && map@ == tensors_of(archive(*t)),
{
    let names: Vec<&str> = tensor_names(t);
    let mut map: TensorMap = TensorMap::new();
    for i in 0..names.len()
        invariant
            forall|name: Seq<char>|
                archive(*t).contains_key(name) <==> exists|j: int|
                    0 <= j < names@.len() && (#[trigger] names@[j])@ == name,
            forall|name: Seq<char>| #[trigger]
                map@.contains_key(name) <==> exists|j: int|
                    0 <= j < i && (#[trigger] names@[j])@ == name,
            forall|name: Seq<char>| #[trigger]
                map@.contains_key(name) ==> map@[name] == tensors_of(archive(*t))[name],
    {
        let name: &str = names[i];
        assert(archive(*t).contains_key(name@)) by {
            assert(names@[i as int]@ == name@);
        }
        match tensor_parts(t, name) {
            Ok((data, shape)) => {
                let ghost before = map@;
                let tensor: NamedTensor = NamedTensor { data: words(data), shape };
                map.insert(name.to_owned(), tensor);
                assert forall|n: Seq<char>| #[trigger]
                    map@.contains_key(n) <==> exists|j: int|
                        0 <= j < i + 1 && (#[trigger] names@[j])@ == n by {
                    if n == name@ {
                        assert(names@[i as int]@ == n);
                    } else if before.contains_key(n) {
                        let j = choose|j: int| 0 <= j < i && (#[trigger] names@[j])@ == n;
                        assert(names@[j]@ == n);
                    }
                }
            },
            Err(e) => {
                return Err(e.to_string());
            },
        }
    }
    proof {
        assert(map@ =~= tensors_of(archive(*t)));
    }
    Ok(map)
}

/// What is said of a tensor that is not there.
pub open spec fn missing_text(name: Seq<char>) -> Seq<char> {
    "missing "@ + name
}

/// How many names, from the first on, are there before one that is not.
pub open spec fn first_missing(names: Seq<Seq<char>>, tensors: Tensors) -> nat
    decreases names.len(),
{
    if names.len() == 0 || !tensors.contains_key(names[0]) {
        0
    } else {
        1 + first_missing(names.skip(1), tensors)
    }
}

/// All names before the first missing one are there, and that one is not.
pub proof fn lemma_first_missing(names: Seq<Seq<char>>, tensors: Tensors)
    ensures
        first_missing(names, tensors) <= names.len(),
        forall|j: int|
            0 <= j < first_missing(names, tensors) ==> tensors.contains_key(#[trigger] names[j]),
        first_missing(names, tensors) < names.len() ==> !tensors.contains_key(
            names[first_missing(names, tensors) as int],
        ),
    decreases names.len(),
{
    if names.len() > 0 && tensors.contains_key(names[0]) {
        let rest = names.skip(1);
        lemma_first_missing(rest, tensors);
        assert forall|j: int| 0 <= j < first_missing(names, tensors) implies tensors.contains_key(
            #[trigger] names[j],
        ) by {
            if j > 0 {
                assert(rest[j - 1] == names[j]);
            }
        }
        if first_missing(names, tensors) < names.len() {
            assert(rest[first_missing(rest, tensors) as int] == names[first_missing(
                names,
                tensors,
            ) as int]);
        }
    }
}

/// The tensor of this name, or a message that it is missing.
pub fn get<'a>(tensors: &'a TensorMap, name: &str) -> (result: Result<&'a NamedTensor, String>)
    ensures
        result is Ok <==> tensors@.contains_key(name@),
        result matches Ok(tensor) ==> tensor@ == tensors@[name@],
        result matches Err(message) ==> message@ == missing_text(name@),
        result matches Err(message) ==> message@ == "missing "@ + name@,
{
    match tensors.get(name) {
        Some(tensor) => Ok(tensor),
        None => {
            let mut message: String = "missing ".to_owned();
            message.append(name);
            Err(message)
        },
    }
}

/// A bit pattern as four bytes, the lowest first.
pub open spec fn bytes_of_word(word: u32) -> Seq<u8> {
    seq![
        (word as int % 0x100) as u8,
        (word as int / 0x100 % 0x100) as u8,
        (word as int / 0x1_0000 % 0x100) as u8,
        (word as int / 0x100_0000) as u8,
    ]
}

/// Bit patterns as bytes.
pub open spec fn bytes_le(words: Seq<u32>) -> Seq<u8> {
    flat(Seq::new(words.len(), |k: int| bytes_of_word(words[k])))
}

/// A file's header stands after the eight bytes that give its length, the lowest first. There is
/// one if it is at most a hundred million bytes long and the file goes on to its end.
pub proof fn law_header_follows_its_length(bytes: Seq<u8>)
    requires
        bytes.len() >= 8,
    ensures
        ({
            let n = bytes[0] + 0x100 * (bytes[1] + 0x100 * (bytes[2] + 0x100 * (bytes[3] + 0x100 * (
            bytes[4] + 0x100 * (bytes[5] + 0x100 * (bytes[6] + 0x100 * bytes[7]))))));
            &&& header(bytes) is Some <==> n <= 100_000_000 && 8 + n <= bytes.len()
            &&& header(bytes) matches Some(h) ==> h == bytes.subrange(8, 8 + n)
        }),
{
}

/// A file is taken exactly if its header is one and the elements that the header declares are what
/// comes after it.
pub proof fn law_file_is_header_and_elements(bytes: Seq<u8>)
    requires
        bytes.len() <= usize::MAX,
    ensures
        complete(bytes) <==> (header(bytes) matches Some(h) && (declared_len(h) matches Some(len)
            && 8 + h.len() + len == bytes.len())),
        bytes.len() < 8 ==> header(bytes) is None,
        header(bytes) is None ==> countable(bytes) && !complete(bytes),
        header(bytes) matches Some(h) ==> (countable(bytes) <==> (declared_len(h) is Some ==> 8
            + h.len() + declared_len(h)->0 <= usize::MAX)),
        forall|h: Seq<u8>|
            !valid_utf8(h) ==> (#[trigger] declared_len(h)) is None,
        forall|h: Seq<u8>|
            valid_utf8(h) ==> (#[trigger] declared_len(h)) == parsed_len(decode_utf8(h)),
{
}

/// What is said of a file that is not taken.
pub proof fn law_refusals(bytes: Seq<u8>, text: Seq<char>)
    requires
        is_refusal(bytes, text),
        !complete(bytes),
    ensures
        bytes.len() < 8 ==> text == "header too small"@,
        bytes.len() >= 8 && header_len(bytes) > 100_000_000 ==> text == "header too large"@,
        bytes.len() >= 8 && header_len(bytes) <= 100_000_000 && header_len(bytes) + 8 > bytes.len()
            ==> text == "invalid header length"@,
        header(bytes) matches Some(h) ==> (declared_len(h) is Some ==> text
            == "incomplete metadata, file not fully covered"@),
        header(bytes) matches Some(h) ==> (!valid_utf8(h) ==> "invalid UTF-8 in header: "@.is_prefix_of(
            text,
        )),
{
}

/// A tensor is seen as its elements in the order they are stored, with its shape.
pub proof fn law_tensor_is_its_fields(t: NamedTensor)
    ensures
        t@.data == t.data@,
        t@.shape == t.shape@,
{
}

/// Of the tensors that are looked up in order, all before the first missing one are there, and that
/// one is not.
pub proof fn law_first_missing(names: Seq<Seq<char>>, tensors: Tensors)
    ensures
        first_missing(names, tensors) <= names.len(),
        forall|j: int|
            0 <= j < first_missing(names, tensors) ==> tensors.contains_key(#[trigger] names[j]),
        first_missing(names, tensors) < names.len() ==> !tensors.contains_key(
            names[first_missing(names, tensors) as int],
        ),
{
    lemma_first_missing(names, tensors);
}

/// A bit pattern that is stored as bytes is read back as it was.
proof fn lemma_word_reads_back(word: u32)
    ensures
        word_le(bytes_of_word(word)) == word,
{
    let w = word as int;
    let b = bytes_of_word(word);
    assert(b[0] == w % 0x100);
    assert(b[1] == w / 0x100 % 0x100);
    assert(b[2] == w / 0x1_0000 % 0x100);
    assert(b[3] == w / 0x100_0000);
    assert(b[0] + b[1] * 0x100 + b[2] * 0x1_0000 + b[3] * 0x100_0000 == w);
}

/// Bit patterns that are stored as bytes are read back as they were.
pub proof fn law_words_read_back(words: Seq<u32>)
    ensures
        words_le(bytes_le(words)) == words,
{
    let rows = Seq::new(words.len(), |k: int| bytes_of_word(words[k]));
    assert(uniform(rows, 4));
    lemma_flat_len(rows, 4);
    let bytes = bytes_le(words);
    assert(bytes.len() / 4 == words.len());
    assert forall|k: int| 0 <= k < words.len() implies words_le(bytes)[k] == words[k] by {
        lemma_flat_row(rows, 4, k);
        assert(bytes.subrange(4 * k, 4 * k + 4) == rows[k]);
        lemma_word_reads_back(words[k]);
    }
    assert(words_le(bytes) =~= words);
}

} // verus!
